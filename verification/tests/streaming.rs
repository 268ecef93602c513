use whytchat_core::sse::SseDecoder;

#[test]
fn one_data_record_emits_its_fragment() {
    let mut dec = SseDecoder::new();
    let frags = dec.feed("data: {\"choices\":[{\"delta\":{\"content\":\"Hel\"}}]}\n");
    assert_eq!(frags, vec!["Hel".to_string()]);
    assert_eq!(dec.accumulated, "Hel");
    assert!(!dec.finished);
}

#[test]
fn malformed_record_is_skipped_and_stream_continues() {
    let mut dec = SseDecoder::new();
    let input = "data: {\"choices\":[{\"delta\":{\"content\":\"A\"}}]}\n\
                 data: {not valid json}\n\
                 data: {\"choices\":[{\"delta\":{\"content\":\"B\"}}]}\n";
    let frags = dec.feed(input);
    assert_eq!(frags, vec!["A".to_string(), "B".to_string()]);
    assert_eq!(dec.accumulated, "AB");
    assert!(!dec.finished);
}

#[test]
fn record_split_across_reads_is_decoded_once_complete() {
    let mut dec = SseDecoder::new();
    let frags = dec.feed("data: {\"choices\":[{\"delta\":{\"cont");
    assert_eq!(frags.len(), 0);
    assert_eq!(dec.accumulated, "");
    let frags = dec.feed("ent\":\"xyz\"}}]}\n");
    assert_eq!(frags, vec!["xyz".to_string()]);
    assert_eq!(dec.accumulated, "xyz");
}

#[test]
fn done_sentinel_finishes_and_stops_processing() {
    let mut dec = SseDecoder::new();
    let input = "data: [DONE]\n\
                 data: {\"choices\":[{\"delta\":{\"content\":\"late\"}}]}\n";
    let frags = dec.feed(input);
    assert_eq!(frags.len(), 0);
    assert!(dec.finished);
    assert_eq!(dec.accumulated, "");
}

#[test]
fn finish_reason_stop_finishes_the_stream() {
    let mut dec = SseDecoder::new();
    let input =
        "data: {\"choices\":[{\"delta\":{\"content\":\"end\"},\"finish_reason\":\"stop\"}]}\n";
    let frags = dec.feed(input);
    assert_eq!(frags, vec!["end".to_string()]);
    assert!(dec.finished);
    assert_eq!(dec.accumulated, "end");
}

#[test]
fn finish_reason_length_finishes_the_stream() {
    let mut dec = SseDecoder::new();
    let input =
        "data: {\"choices\":[{\"delta\":{},\"finish_reason\":\"length\"}]}\n";
    dec.feed(input);
    assert!(dec.finished);
}

#[test]
fn blank_lines_and_unprefixed_lines_are_ignored() {
    let mut dec = SseDecoder::new();
    let input = "\n: comment\n\ndata: {\"choices\":[{\"delta\":{\"content\":\"ok\"}}]}\n\n";
    let frags = dec.feed(input);
    assert_eq!(frags, vec!["ok".to_string()]);
    assert_eq!(dec.accumulated, "ok");
}

#[test]
fn crlf_line_endings_are_tolerated() {
    let mut dec = SseDecoder::new();
    let frags = dec.feed("data: {\"choices\":[{\"delta\":{\"content\":\"w\"}}]}\r\n");
    assert_eq!(frags, vec!["w".to_string()]);
}

#[test]
fn empty_content_fragment_is_not_emitted() {
    let mut dec = SseDecoder::new();
    let frags = dec.feed("data: {\"choices\":[{\"delta\":{\"content\":\"\"}}]}\n");
    assert_eq!(frags.len(), 0);
    assert_eq!(dec.accumulated, "");
}

#[test]
fn record_with_several_choices_emits_every_fragment_in_order() {
    let mut dec = SseDecoder::new();
    let input = "data: {\"choices\":[{\"delta\":{\"content\":\"A\"}},{\"delta\":{\"content\":\"B\"}},{\"delta\":{\"content\":\"C\"}}]}\n";
    let frags = dec.feed(input);
    assert_eq!(frags, vec!["A".to_string(), "B".to_string(), "C".to_string()]);
    assert_eq!(dec.accumulated, "ABC");
    assert!(!dec.finished);
}

#[test]
fn finish_in_one_choice_still_appends_the_others() {
    let mut dec = SseDecoder::new();
    let input = "data: {\"choices\":[{\"delta\":{},\"finish_reason\":\"stop\"},{\"delta\":{\"content\":\"tail\"}}]}\n";
    let frags = dec.feed(input);
    assert_eq!(frags, vec!["tail".to_string()]);
    assert_eq!(dec.accumulated, "tail");
    assert!(dec.finished);
}

#[test]
fn record_without_choices_contributes_nothing() {
    let mut dec = SseDecoder::new();
    let frags = dec.feed("data: {\"choices\":[]}\n");
    assert_eq!(frags.len(), 0);
    assert!(!dec.finished);
}

#[test]
fn fragments_arrive_in_order_across_reads() {
    let mut dec = SseDecoder::new();
    let mut all: Vec<String> = Vec::new();
    for piece in [
        "data: {\"choices\":[{\"delta\":{\"content\":\"one \"}}]}\ndata: {\"choi",
        "ces\":[{\"delta\":{\"content\":\"two \"}}]}\n",
        "data: {\"choices\":[{\"delta\":{\"content\":\"three\"},\"finish_reason\":\"stop\"}]}\n",
    ] {
        all.extend(dec.feed(piece));
    }
    assert_eq!(all, vec!["one ".to_string(), "two ".to_string(), "three".to_string()]);
    assert_eq!(dec.accumulated, "one two three");
    assert!(dec.finished);
}
