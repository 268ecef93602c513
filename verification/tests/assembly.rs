use whytchat_core::chat::{
    build_chat_messages, default_dataset_name, find_group, find_pack, format_clarifications,
    health_check_candidates, is_healthy_status, is_http_url, looks_like_html, model_rel_path,
    parse_assistant_protocol, preset_visible, rag_context_message, Group, Message, PackSource,
    ProtocolReply, QAItem,
};
use whytchat_core::crawler::{effective_depth, ScrapeCrawler};

fn msg(role: &str, content: &str) -> Message {
    Message {
        id: 0,
        conversation_id: 1,
        role: role.to_string(),
        content: content.to_string(),
        created_at: String::new(),
    }
}

#[test]
fn chat_messages_assemble_in_protocol_order() {
    let history = vec![msg("user", "hi"), msg("assistant", "hello")];
    let ctx = rag_context_message("facts here");
    let out = build_chat_messages(
        Some("be brief".to_string()),
        Some(ctx.clone()),
        history,
        "next question".to_string(),
    );
    assert_eq!(out.len(), 5);
    assert_eq!(out[0].role, "system");
    assert_eq!(out[0].content, "be brief");
    assert_eq!(out[1].role, "system");
    assert_eq!(out[1].content, ctx);
    assert_eq!(out[2].role, "user");
    assert_eq!(out[2].content, "hi");
    assert_eq!(out[3].role, "assistant");
    assert_eq!(out[3].content, "hello");
    assert_eq!(out[4].role, "user");
    assert_eq!(out[4].content, "next question");
}

#[test]
fn chat_messages_without_system_or_context() {
    let out = build_chat_messages(None, None, Vec::new(), "q".to_string());
    assert_eq!(out.len(), 1);
    assert_eq!(out[0].role, "user");
    assert_eq!(out[0].content, "q");
}

#[test]
fn context_message_wraps_the_retrieved_text() {
    let m = rag_context_message("CONTENT");
    assert!(m.starts_with("Relevant knowledge from your datasets:\n\nCONTENT"));
    assert!(m.ends_with("reference it in your response."));
}

#[test]
fn final_prompt_reply_is_recognized() {
    let r = parse_assistant_protocol("  PROMPT_FINAL:\n  You are a helpful bot.  \n");
    match r {
        ProtocolReply::Final(p) => assert_eq!(p, "You are a helpful bot."),
        ProtocolReply::Questions(_) => panic!("expected a final prompt"),
    }
}

#[test]
fn question_list_reply_is_split_and_cleaned() {
    let r = parse_assistant_protocol("QUESTIONS:\n- What tone?\n-- Which language?\n\n- \n");
    match r {
        ProtocolReply::Questions(qs) => {
            assert_eq!(qs, vec!["What tone?".to_string(), "Which language?".to_string()]);
        },
        ProtocolReply::Final(_) => panic!("expected questions"),
    }
}

#[test]
fn free_form_reply_becomes_one_question() {
    let r = parse_assistant_protocol("  Could you clarify the audience?  ");
    match r {
        ProtocolReply::Questions(qs) => {
            assert_eq!(qs, vec!["Could you clarify the audience?".to_string()]);
        },
        ProtocolReply::Final(_) => panic!("expected questions"),
    }
}

#[test]
fn clarifications_keep_only_answered_questions() {
    let items = vec![
        QAItem { question: "Tone?".to_string(), answer: "formal".to_string() },
        QAItem { question: "Length?".to_string(), answer: "   ".to_string() },
        QAItem { question: "Audience?".to_string(), answer: "devs".to_string() },
    ];
    assert_eq!(format_clarifications(&items), "- Tone? formal\n- Audience? devs\n");
}

#[test]
fn health_probe_endpoints_and_statuses() {
    let c = health_check_candidates("http://localhost:8080");
    assert_eq!(c.len(), 3);
    assert_eq!(c[0], "http://localhost:8080/health");
    assert_eq!(c[1], "http://localhost:8080/v1/models");
    assert_eq!(c[2], "http://localhost:8080");
    assert!(is_healthy_status(200));
    assert!(is_healthy_status(204));
    assert!(is_healthy_status(404));
    assert!(!is_healthy_status(500));
    assert!(!is_healthy_status(302));
}

#[test]
fn preset_visibility_hides_the_internal_preset_in_release() {
    assert!(preset_visible("any", false));
    assert!(preset_visible("phi3_local", true));
    assert!(!preset_visible("phi3_local", false));
}

#[test]
fn pack_lookup_finds_the_first_match() {
    let packs = vec![
        PackSource {
            id: "a".to_string(),
            url: "u1".to_string(),
            filename: "f1".to_string(),
            size_bytes: None,
        },
        PackSource {
            id: "b".to_string(),
            url: "u2".to_string(),
            filename: "f2".to_string(),
            size_bytes: Some(5),
        },
    ];
    assert_eq!(find_pack(&packs, "b"), Some(1));
    assert_eq!(find_pack(&packs, "z"), None);
    assert_eq!(model_rel_path("b", "f2"), "models/b/f2");
}

#[test]
fn group_lookup_matches_by_name() {
    let groups = vec![
        Group { id: 10, name: "work".to_string(), created_at: String::new() },
        Group { id: 11, name: "play".to_string(), created_at: String::new() },
    ];
    assert_eq!(find_group(&groups, "play"), Some(11));
    assert_eq!(find_group(&groups, "rest"), None);
}

#[test]
fn html_detection_uses_content_type_and_body() {
    assert!(looks_like_html("text/html; charset=utf-8", ""));
    assert!(looks_like_html("", "  <!DOCTYPE html><html>"));
    assert!(looks_like_html("", "<html lang=\"en\">"));
    assert!(!looks_like_html("application/json", "{\"a\":1}"));
}

#[test]
fn only_web_links_are_followed() {
    assert!(is_http_url("http://a/b"));
    assert!(is_http_url("https://a/b"));
    assert!(!is_http_url("ftp://a/b"));
    assert!(!is_http_url("mailto:x@y"));
}

#[test]
fn dataset_naming_falls_back_to_the_conversation() {
    assert_eq!(default_dataset_name(&Some("  Notes  ".to_string()), "Chat"), "Notes");
    assert_eq!(default_dataset_name(&Some("   ".to_string()), "Chat"), "Chat-kb");
    assert_eq!(default_dataset_name(&None, "Chat"), "Chat-kb");
}

#[test]
fn crawl_depth_defaults_to_one_and_caps_at_three() {
    assert_eq!(effective_depth(None), 1);
    assert_eq!(effective_depth(Some(0)), 0);
    assert_eq!(effective_depth(Some(2)), 2);
    assert_eq!(effective_depth(Some(9)), 3);
}

#[test]
fn crawl_visits_each_page_once_and_stays_on_host() {
    let mut c = ScrapeCrawler::new("https://example.com/start".to_string(), 2);
    let (url, depth) = c.next_target().unwrap();
    assert_eq!(url, "https://example.com/start");
    assert_eq!(depth, 0);
    assert!(c.follow_links(depth));
    let links = vec![
        "https://example.com/a".to_string(),
        "https://other.org/b".to_string(),
        "https://example.com/start".to_string(),
    ];
    c.enqueue_links(&links, depth);
    // only the same-host, unvisited link was queued
    let (next, d2) = c.next_target().unwrap();
    assert_eq!(next, "https://example.com/a");
    assert_eq!(d2, 1);
    assert!(c.next_target().is_none());
}

#[test]
fn crawl_respects_the_depth_bound() {
    let mut c = ScrapeCrawler::new("https://example.com/".to_string(), 0);
    let (url, depth) = c.next_target().unwrap();
    assert_eq!(url, "https://example.com/");
    assert!(!c.follow_links(depth));
    // links enqueued anyway land beyond the bound and are never visited
    c.enqueue_links(&vec!["https://example.com/deep".to_string()], depth);
    assert!(c.next_target().is_none());
}
