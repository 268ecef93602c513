//! Chat assembly and reply handling: the message list sent for a completion,
//! the retrieval context wrapped for the model, the assistant's prompt-design
//! protocol, and small decisions around presets, packs, conversations and
//! server health probing.

use vstd::prelude::*;
use crate::textutil::{
    drop_dashes, has_substring, spec_lines, spec_trim, split_lines, str_contains_substring,
    str_eq, str_starts_with, strip_dashes, trim_str,
};

verus! {

/// One message of a chat completion request.
pub struct ChatMessage {
    pub role: String,
    pub content: String,
}

/// One conversation group, as the conversation store records it.
pub struct Group {
    pub id: i64,
    pub name: String,
    pub created_at: String,
}

/// One stored message of a conversation.
pub struct Message {
    pub id: i64,
    pub conversation_id: i64,
    pub role: String,
    pub content: String,
    pub created_at: String,
}

/// One downloadable pack: a preset id, its source URL and file name, and its
/// size where known.
pub struct PackSource {
    pub id: String,
    pub url: String,
    pub filename: String,
    pub size_bytes: Option<u64>,
}

/// Wraps the retrieval context for the model.
pub fn rag_context_message(context: &str) -> (r: String)
    ensures
        r@ == "Relevant knowledge from your datasets:\n\n"@ + context@
            + "\n\nUse this information to provide accurate answers. If the question relates to this knowledge, reference it in your response."@,
{
    String::from_str("Relevant knowledge from your datasets:\n\n").concat(context).concat(
        "\n\nUse this information to provide accurate answers. If the question relates to this knowledge, reference it in your response.",
    )
}

/// Assembles the message list of a completion request: the system prompt
/// where one is set, the wrapped retrieval context where any was found, the
/// stored history in order, and the new user message last.
pub fn build_chat_messages(
    system_prompt: Option<String>,
    rag_context_wrapped: Option<String>,
    history: Vec<Message>,
    user_message: String,
) -> (r: Vec<ChatMessage>)
    ensures
        ({
            let s: int = if system_prompt is Some {
                1
            } else {
                0
            };
            let c: int = if rag_context_wrapped is Some {
                1
            } else {
                0
            };
            &&& r@.len() == s + c + history@.len() + 1
            &&& (system_prompt is Some ==> r@[0].role@ == "system"@ && r@[0].content
                == system_prompt.unwrap())
            &&& (rag_context_wrapped is Some ==> r@[s].role@ == "system"@ && r@[s].content
                == rag_context_wrapped.unwrap())
            &&& forall|i: int|
                0 <= i < history@.len() ==> (#[trigger] r@[s + c + i]).role == history@[i].role
                    && r@[s + c + i].content == history@[i].content
            &&& r@[r@.len() - 1].role@ == "user"@
            &&& r@[r@.len() - 1].content == user_message
        }),
{
    let mut out: Vec<ChatMessage> = Vec::new();
    match system_prompt {
        Some(p) => {
            out.push(ChatMessage { role: String::from_str("system"), content: p });
        },
        None => {},
    }
    match rag_context_wrapped {
        Some(ctx) => {
            out.push(ChatMessage { role: String::from_str("system"), content: ctx });
        },
        None => {},
    }
    let ghost base = out@.len() as int;
    let ghost prefix = out@;
    let mut rest = history;
    let n = rest.len();
    let ghost hist = rest@;
    let mut i: usize = 0;
    proof {
        assert(out@.take(base) =~= prefix);
    }
    while i < n
        invariant
            i <= n,
            n == hist.len(),
            rest@ == hist.skip(i as int),
            0 <= base,
            prefix.len() == base,
            out@.len() == base + i,
            out@.take(base) == prefix,
            forall|j: int| 0 <= j < i ==> (#[trigger] out@[base + j]).role == hist[j].role,
            forall|j: int| 0 <= j < i ==> (#[trigger] out@[base + j]).content == hist[j].content,
        decreases n - i,
    {
        proof {
            assert(hist.skip(i as int)[0] == hist[i as int]);
            assert(hist.skip(i as int).skip(1) =~= hist.skip(i as int + 1));
        }
        let ghost out_before = out@;
        let m = rest.remove(0);
        proof {
            assert(m == hist[i as int]);
        }
        out.push(ChatMessage { role: m.role, content: m.content });
        proof {
            assert(out@ == out_before.push(
                ChatMessage { role: hist[i as int].role, content: hist[i as int].content },
            ));
            assert forall|k: int| 0 <= k < out_before.len() implies out@[k] == out_before[k] by {}
            assert(out@.take(base) =~= out_before.take(base));
            assert(out@[base + i as int].role == hist[i as int].role);
            assert(out@[base + i as int].content == hist[i as int].content);
        }
        i += 1;
    }
    let ghost out_before = out@;
    out.push(ChatMessage { role: String::from_str("user"), content: user_message });
    proof {
        assert(out@.take(base) =~= out_before.take(base));
        assert(forall|j: int| 0 <= j < base ==> #[trigger] out@[j] == prefix[j]);
        assert(out@[out@.len() - 1].content == user_message);
    }
    out
}

/// The assistant's reply in the prompt-design dialogue: either the final
/// prompt, or a list of clarifying questions.
pub enum ProtocolReply {
    Final(String),
    Questions(Vec<String>),
}

/// The questions of a `QUESTIONS:` block: its non-blank lines, each with
/// leading hyphens and surrounding whitespace removed, blank results
/// dropped.
pub open spec fn spec_questions(lines: Seq<Seq<char>>) -> Seq<Seq<char>>
    decreases lines.len(),
{
    if lines.len() == 0 {
        Seq::empty()
    } else {
        let t1 = spec_trim(lines[0]);
        let rest = spec_questions(lines.skip(1));
        if t1.len() == 0 {
            rest
        } else {
            let q = spec_trim(drop_dashes(t1));
            if q.len() == 0 {
                rest
            } else {
                seq![q] + rest
            }
        }
    }
}

/// Parses the assistant's protocol reply: a `PROMPT_FINAL:` block is the
/// final prompt; a `QUESTIONS:` block lists questions; anything else is
/// taken as a single question.
pub fn parse_assistant_protocol(content: &str) -> (r: ProtocolReply)
    ensures
        ({
            let t = spec_trim(content@);
            if "PROMPT_FINAL:"@.is_prefix_of(t) {
                r matches ProtocolReply::Final(p) && p@ == spec_trim(
                    t.skip("PROMPT_FINAL:"@.len() as int),
                )
            } else if "QUESTIONS:"@.is_prefix_of(t) {
                r matches ProtocolReply::Questions(qs) && qs@.map_values(|q: String| q@)
                    == spec_questions(spec_lines(t.skip("QUESTIONS:"@.len() as int)))
            } else {
                r matches ProtocolReply::Questions(qs) && qs@.map_values(|q: String| q@) == seq![t]
            }
        }),
{
    proof {
        reveal_strlit("PROMPT_FINAL:");
        reveal_strlit("QUESTIONS:");
    }
    let trimmed = trim_str(content);
    let tlen = trimmed.as_str().unicode_len();
    if str_starts_with(trimmed.as_str(), "PROMPT_FINAL:") {
        let rest = trimmed.as_str().substring_char(13, tlen);
        let prompt = trim_str(rest);
        proof {
            assert(rest@ =~= spec_trim(content@).skip("PROMPT_FINAL:"@.len() as int));
        }
        return ProtocolReply::Final(prompt);
    }
    if str_starts_with(trimmed.as_str(), "QUESTIONS:") {
        let rest = trimmed.as_str().substring_char(10, tlen);
        proof {
            assert(rest@ =~= spec_trim(content@).skip("QUESTIONS:"@.len() as int));
        }
        let lines = split_lines(rest);
        let ghost lviews = lines@.map_values(|l: String| l@);
        let mut qs: Vec<String> = Vec::new();
        let n = lines.len();
        let mut i: usize = 0;
        proof {
            assert(lviews.skip(0) =~= lviews);
        }
        while i < n
            invariant
                i <= n,
                n == lines@.len(),
                lviews == lines@.map_values(|l: String| l@),
                spec_questions(lviews) == qs@.map_values(|q: String| q@) + spec_questions(
                    lviews.skip(i as int),
                ),
            decreases n - i,
        {
            proof {
                assert(lviews.skip(i as int)[0] == lviews[i as int]);
                assert(lviews.skip(i as int).skip(1) =~= lviews.skip(i as int + 1));
            }
            let ghost before = qs@.map_values(|q: String| q@);
            let t1 = trim_str(lines[i].as_str());
            if t1.as_str().unicode_len() > 0 {
                let nodash = strip_dashes(t1.as_str());
                let q = trim_str(nodash.as_str());
                if q.as_str().unicode_len() > 0 {
                    qs.push(q);
                    proof {
                        assert(qs@.map_values(|q2: String| q2@) =~= before + seq![spec_trim(
                            drop_dashes(spec_trim(lviews[i as int])),
                        )]);
                        assert(before + (seq![spec_trim(drop_dashes(spec_trim(lviews[i as int])))]
                            + spec_questions(lviews.skip(i as int + 1))) =~= (before + seq![
                            spec_trim(drop_dashes(spec_trim(lviews[i as int]))),
                        ]) + spec_questions(lviews.skip(i as int + 1)));
                    }
                }
            }
            i += 1;
        }
        proof {
            assert(lviews.skip(n as int) =~= Seq::<Seq<char>>::empty());
            assert(qs@.map_values(|q: String| q@) =~= qs@.map_values(|q: String| q@)
                + spec_questions(lviews.skip(n as int)));
        }
        return ProtocolReply::Questions(qs);
    }
    let mut qs: Vec<String> = Vec::new();
    qs.push(trimmed);
    proof {
        assert(qs@.map_values(|q: String| q@) =~= seq![spec_trim(content@)]);
    }
    ProtocolReply::Questions(qs)
}

/// One clarifying question and its answer.
pub struct QAItem {
    pub question: String,
    pub answer: String,
}

/// The clarification lines handed back to the model: one list line per
/// answered question; unanswered ones are dropped.
pub open spec fn spec_clarifications(items: Seq<QAItem>) -> Seq<char>
    decreases items.len(),
{
    if items.len() == 0 {
        Seq::empty()
    } else {
        let line = if spec_trim(items[0].answer@).len() > 0 {
            "- "@ + items[0].question@ + " "@ + items[0].answer@ + "\n"@
        } else {
            Seq::<char>::empty()
        };
        line + spec_clarifications(items.skip(1))
    }
}

/// Formats the answered clarifications as list lines.
pub fn format_clarifications(items: &Vec<QAItem>) -> (r: String)
    ensures
        r@ == spec_clarifications(items@),
{
    let mut out = String::new();
    let n = items.len();
    let mut i: usize = 0;
    proof {
        assert(items@.skip(0) =~= items@);
        assert(out@ + spec_clarifications(items@) =~= spec_clarifications(items@));
    }
    while i < n
        invariant
            i <= n,
            n == items@.len(),
            spec_clarifications(items@) == out@ + spec_clarifications(items@.skip(i as int)),
        decreases n - i,
    {
        proof {
            assert(items@.skip(i as int)[0] == items@[i as int]);
            assert(items@.skip(i as int).skip(1) =~= items@.skip(i as int + 1));
        }
        let ghost before = out@;
        let answered = trim_str(items[i].answer.as_str());
        if answered.as_str().unicode_len() > 0 {
            out.append("- ");
            out.append(items[i].question.as_str());
            out.append(" ");
            out.append(items[i].answer.as_str());
            out.append("\n");
            proof {
                assert(out@ =~= before + ("- "@ + items@[i as int].question@ + " "@
                    + items@[i as int].answer@ + "\n"@));
            }
        }
        proof {
            assert(out@ + spec_clarifications(items@.skip(i as int + 1)) =~= before
                + spec_clarifications(items@.skip(i as int)));
        }
        i += 1;
    }
    proof {
        assert(items@.skip(n as int) =~= Seq::<QAItem>::empty());
        assert(out@ =~= out@ + spec_clarifications(items@.skip(n as int)));
    }
    out
}

/// The endpoints probed for server health, in order: the health endpoint,
/// the models listing, and the bare base URL.
pub fn health_check_candidates(base: &str) -> (r: Vec<String>)
    ensures
        r@.len() == 3,
        r@[0]@ == base@ + "/health"@,
        r@[1]@ == base@ + "/v1/models"@,
        r@[2]@ == base@,
{
    let mut out: Vec<String> = Vec::new();
    out.push(String::from_str(base).concat("/health"));
    out.push(String::from_str(base).concat("/v1/models"));
    out.push(String::from_str(base));
    out
}

/// Whether a probe response means the server is up: any success, or a 404
/// from a server that lacks the endpoint.
pub fn is_healthy_status(code: u16) -> (r: bool)
    ensures
        r == (200 <= code < 300 || code == 404),
{
    (200 <= code && code < 300) || code == 404
}

/// Whether a preset is shown: one internal preset is hidden outside debug
/// builds.
pub fn preset_visible(id: &str, debug_build: bool) -> (r: bool)
    ensures
        r == (debug_build || id@ != "phi3_local"@),
{
    debug_build || !str_eq(id, "phi3_local")
}

/// The first pack of the catalog with the given preset id.
pub fn find_pack(packs: &Vec<PackSource>, id: &str) -> (r: Option<usize>)
    ensures
        match r {
            Option::Some(i) => i < packs@.len() && packs@[i as int].id@ == id@ && forall|j: int|
                0 <= j < i ==> (#[trigger] packs@[j]).id@ != id@,
            Option::None => forall|j: int| 0 <= j < packs@.len() ==> (#[trigger] packs@[j]).id@ != id@,
        },
{
    let n = packs.len();
    let mut i: usize = 0;
    while i < n
        invariant
            i <= n,
            n == packs@.len(),
            forall|j: int| 0 <= j < i ==> (#[trigger] packs@[j]).id@ != id@,
        decreases n - i,
    {
        if str_eq(packs[i].id.as_str(), id) {
            return Some(i);
        }
        i += 1;
    }
    None
}

/// The model file's location relative to the application's base directory.
pub fn model_rel_path(preset_id: &str, filename: &str) -> (r: String)
    ensures
        r@ == "models/"@ + preset_id@ + "/"@ + filename@,
{
    String::from_str("models/").concat(preset_id).concat("/").concat(filename)
}

/// Whether a fetched document should be read as HTML: the content type says
/// so, or the body opens with an HTML preamble.
pub fn looks_like_html(content_type: &str, body: &str) -> (r: bool)
    ensures
        r == (has_substring(content_type@, "text/html"@) || "<!DOCTYPE"@.is_prefix_of(
            spec_trim(body@),
        ) || "<html"@.is_prefix_of(spec_trim(body@))),
{
    if str_contains_substring(content_type, "text/html") {
        return true;
    }
    let t = trim_str(body);
    str_starts_with(t.as_str(), "<!DOCTYPE") || str_starts_with(t.as_str(), "<html")
}

/// Whether a link is followed at all: only web URLs are.
pub fn is_http_url(s: &str) -> (r: bool)
    ensures
        r == ("http://"@.is_prefix_of(s@) || "https://"@.is_prefix_of(s@)),
{
    str_starts_with(s, "http://") || str_starts_with(s, "https://")
}

/// The first group of the store with the given name, whose id a new
/// conversation joins; none means a group must be created.
pub fn find_group(groups: &Vec<Group>, name: &str) -> (r: Option<i64>)
    ensures
        match r {
            Option::Some(id) => exists|j: int|
                0 <= j < groups@.len() && (#[trigger] groups@[j]).name@ == name@ && groups@[j].id
                    == id && forall|k: int| 0 <= k < j ==> (#[trigger] groups@[k]).name@ != name@,
            Option::None => forall|j: int|
                0 <= j < groups@.len() ==> (#[trigger] groups@[j]).name@ != name@,
        },
{
    let n = groups.len();
    let mut i: usize = 0;
    while i < n
        invariant
            i <= n,
            n == groups@.len(),
            forall|j: int| 0 <= j < i ==> (#[trigger] groups@[j]).name@ != name@,
        decreases n - i,
    {
        if str_eq(groups[i].name.as_str(), name) {
            return Some(groups[i].id);
        }
        i += 1;
    }
    None
}

/// Whether creating a conversation should also create a dataset: a name or
/// an initial text was given.
pub fn wants_initial_dataset(name: &Option<String>, text: &Option<String>) -> (r: bool)
    ensures
        r == ((name is Some && spec_trim(name.unwrap()@).len() > 0) || (text is Some && spec_trim(
            text.unwrap()@,
        ).len() > 0)),
{
    let by_name = match name {
        Some(s) => trim_str(s.as_str()).as_str().unicode_len() > 0,
        None => false,
    };
    let by_text = match text {
        Some(s) => trim_str(s.as_str()).as_str().unicode_len() > 0,
        None => false,
    };
    by_name || by_text
}

/// The created dataset's name: the given one, trimmed, or the conversation's
/// name with a knowledge-base suffix where none was given.
pub fn default_dataset_name(initial: &Option<String>, conversation_name: &str) -> (r: String)
    ensures
        ({
            if initial is Some && spec_trim(initial.unwrap()@).len() > 0 {
                r@ == spec_trim(initial.unwrap()@)
            } else {
                r@ == conversation_name@ + "-kb"@
            }
        }),
{
    match initial {
        Some(s) => {
            let t = trim_str(s.as_str());
            if t.as_str().unicode_len() > 0 {
                t
            } else {
                String::from_str(conversation_name).concat("-kb")
            }
        },
        None => String::from_str(conversation_name).concat("-kb"),
    }
}

} // verus!
