//! Decoder for the server's event-stream completion protocol: a growing text
//! buffer is fed network reads, complete lines are extracted and parsed, and
//! content fragments are accumulated and handed out in order. Malformed
//! records are skipped; the terminal sentinel or a finish reason ends the
//! stream.

use vstd::prelude::*;
use crate::textutil::{
    find_char_from, spec_trim, str_eq, str_find_char, str_starts_with, trim_str,
};

verus! {

/// One incremental content update inside a streamed record.
pub struct SSEDelta {
    pub content: Option<String>,
}

/// One choice of a streamed record: a delta and an optional finish reason.
pub struct SSEChoice {
    pub delta: SSEDelta,
    pub finish_reason: Option<String>,
}

/// One streamed record: a list of choices.
pub struct SSEChunk {
    pub choices: Vec<SSEChoice>,
}

pub open spec fn opt_str_view(o: Option<String>) -> Option<Seq<char>> {
    match o {
        Option::Some(s) => Option::Some(s@),
        Option::None => Option::None,
    }
}

/// The plain-value content of one choice: its content fragment and its
/// finish reason.
pub open spec fn choice_view(c: SSEChoice) -> (Option<Seq<char>>, Option<Seq<char>>) {
    (opt_str_view(c.delta.content), opt_str_view(c.finish_reason))
}

/// The plain-value content of one record.
pub open spec fn chunk_records(c: SSEChunk) -> Seq<(Option<Seq<char>>, Option<Seq<char>>)> {
    c.choices@.map_values(|ch: SSEChoice| choice_view(ch))
}

/// What parsing a record payload yields: `None` where the payload is not a
/// well-formed record, else the choices' contents and finish reasons.
pub uninterp spec fn sse_records_of(s: Seq<char>) -> Option<
    Seq<(Option<Seq<char>>, Option<Seq<char>>)>,
>;

/// Relies on serde_json to parse one record payload; the result is a
/// function of the payload text alone.
#[verifier::external_body]
fn parse_sse_chunk(s: &str) -> (r: Option<SSEChunk>)
    ensures
        r is Some <==> sse_records_of(s@) is Some,
        r is Some ==> sse_records_of(s@) == Option::Some(chunk_records(r.unwrap())),
{
    let v: serde_json::Value = match serde_json::from_str(s) {
        Ok(v) => v,
        Err(_) => return None,
    };
    let arr = v.get("choices").and_then(|c| c.as_array())?;
    let choices = arr.iter().map(
        |ch| SSEChoice {
            delta: SSEDelta {
                content: ch.get("delta").and_then(|d| d.get("content")).and_then(|c| c.as_str()).map(String::from),
            },
            finish_reason: ch.get("finish_reason").and_then(|f| f.as_str()).map(String::from),
        },
    ).collect();
    Some(SSEChunk { choices })
}

/// The payload of a data line: the trimmed line with the `"data: "` prefix
/// removed, or `None` where the line carries no such prefix.
pub open spec fn data_payload(line: Seq<char>) -> Option<Seq<char>> {
    let t = spec_trim(line);
    if "data: "@.is_prefix_of(t) {
        Option::Some(t.skip("data: "@.len() as int))
    } else {
        Option::None
    }
}

/// Result of processing one line: the accumulated reply, whether the stream
/// finished, and the fragments emitted, in order.
pub ghost struct LineOut {
    pub acc: Seq<char>,
    pub fin: bool,
    pub frags: Seq<Seq<char>>,
}

/// Folding one record's choices, in order: every content fragment present
/// and non-empty is appended to the reply and emitted; the stream finishes
/// where any choice carries a finish reason of "stop" or "length".
pub open spec fn fold_choices(
    records: Seq<(Option<Seq<char>>, Option<Seq<char>>)>,
    acc: Seq<char>,
) -> LineOut
    decreases records.len(),
{
    if records.len() == 0 {
        LineOut { acc, fin: false, frags: Seq::empty() }
    } else {
        let (c, f) = records[0];
        let fin0 = match f {
            Option::Some(r) => r == "stop"@ || r == "length"@,
            Option::None => false,
        };
        let acc1 = match c {
            Option::Some(cc) => if cc.len() > 0 {
                acc + cc
            } else {
                acc
            },
            Option::None => acc,
        };
        let frags0 = match c {
            Option::Some(cc) => if cc.len() > 0 {
                seq![cc]
            } else {
                Seq::<Seq<char>>::empty()
            },
            Option::None => Seq::<Seq<char>>::empty(),
        };
        let rest = fold_choices(records.skip(1), acc1);
        LineOut { acc: rest.acc, fin: fin0 || rest.fin, frags: frags0 + rest.frags }
    }
}

/// Processing one line: blank lines and lines without the data prefix are
/// skipped; the sentinel finishes the stream; a well-formed record
/// contributes each of its choices' non-empty content fragments and may
/// finish the stream; a malformed record is skipped.
pub open spec fn spec_line(line: Seq<char>, acc: Seq<char>) -> LineOut {
    match data_payload(line) {
        Option::None => LineOut { acc, fin: false, frags: Seq::empty() },
        Option::Some(p) => {
            if p == "[DONE]"@ {
                LineOut { acc, fin: true, frags: Seq::empty() }
            } else {
                match sse_records_of(p) {
                    Option::None => LineOut { acc, fin: false, frags: Seq::empty() },
                    Option::Some(records) => fold_choices(records, acc),
                }
            }
        },
    }
}

/// Result of draining the buffer.
pub ghost struct DrainOut {
    pub buf: Seq<char>,
    pub acc: Seq<char>,
    pub fin: bool,
    pub frags: Seq<Seq<char>>,
}

/// Draining the buffer: complete lines are processed in order until the
/// stream finishes or no complete line is left; a trailing partial line is
/// carried over.
pub open spec fn spec_drain(buf: Seq<char>, acc: Seq<char>, fin: bool) -> DrainOut
    decreases buf.len(),
{
    if fin {
        DrainOut { buf, acc, fin, frags: Seq::empty() }
    } else {
        match find_char_from(buf, '\n', 0) {
            Option::None => DrainOut { buf, acc, fin, frags: Seq::empty() },
            Option::Some(p) => {
                if 0 <= p < buf.len() {
                    let line = buf.take(p);
                    let rest = buf.skip(p + 1);
                    let lo = spec_line(line, acc);
                    if lo.fin {
                        DrainOut { buf: rest, acc: lo.acc, fin: true, frags: lo.frags }
                    } else {
                        let d = spec_drain(rest, lo.acc, false);
                        DrainOut { buf: d.buf, acc: d.acc, fin: d.fin, frags: lo.frags + d.frags }
                    }
                } else {
                    DrainOut { buf, acc, fin, frags: Seq::empty() }
                }
            },
        }
    }
}

/// The concatenation of a sequence of fragments, in order.
pub open spec fn concat_frags(frags: Seq<Seq<char>>) -> Seq<char>
    decreases frags.len(),
{
    if frags.len() == 0 {
        Seq::empty()
    } else {
        frags[0] + concat_frags(frags.skip(1))
    }
}

/// LAW. Draining the buffer appends to the accumulated reply exactly the
/// concatenation, in order, of the fragments it hands out: the content of
/// the well-formed data records up to the finish signal. Malformed records
/// yield no fragment and leave the reply untouched.
pub proof fn lemma_drain_accumulates(buf: Seq<char>, acc: Seq<char>, fin: bool)
    ensures
        spec_drain(buf, acc, fin).acc == acc + concat_frags(spec_drain(buf, acc, fin).frags),
    decreases buf.len(),
{
    let d = spec_drain(buf, acc, fin);
    if fin {
        assert(acc + concat_frags(Seq::empty()) =~= acc);
    } else {
        match find_char_from(buf, '\n', 0) {
            Option::None => {
                assert(acc + concat_frags(Seq::empty()) =~= acc);
            },
            Option::Some(p) => {
                if 0 <= p < buf.len() {
                    let line = buf.take(p);
                    let rest = buf.skip(p + 1);
                    let lo = spec_line(line, acc);
                    assert(lo.acc == acc + concat_frags(lo.frags)) by {
                        lemma_line_accumulates(line, acc);
                    }
                    if lo.fin {
                    } else {
                        lemma_drain_accumulates(rest, lo.acc, false);
                        let dr = spec_drain(rest, lo.acc, false);
                        lemma_concat_frags_app(lo.frags, dr.frags);
                        assert(acc + concat_frags(lo.frags + dr.frags) =~= (acc + concat_frags(
                            lo.frags,
                        )) + concat_frags(dr.frags));
                    }
                } else {
                    assert(acc + concat_frags(Seq::empty()) =~= acc);
                }
            },
        }
    }
}

/// Folding a record's choices appends exactly the concatenation of the
/// fragments it emits.
proof fn lemma_fold_accumulates(records: Seq<(Option<Seq<char>>, Option<Seq<char>>)>, acc: Seq<char>)
    ensures
        fold_choices(records, acc).acc == acc + concat_frags(fold_choices(records, acc).frags),
    decreases records.len(),
{
    if records.len() == 0 {
        assert(acc + concat_frags(Seq::<Seq<char>>::empty()) =~= acc);
    } else {
        let (c, f) = records[0];
        let acc1 = match c {
            Option::Some(cc) => if cc.len() > 0 {
                acc + cc
            } else {
                acc
            },
            Option::None => acc,
        };
        let frags0 = match c {
            Option::Some(cc) => if cc.len() > 0 {
                seq![cc]
            } else {
                Seq::<Seq<char>>::empty()
            },
            Option::None => Seq::<Seq<char>>::empty(),
        };
        assert(acc1 == acc + concat_frags(frags0)) by {
            match c {
                Option::Some(cc) => {
                    if cc.len() > 0 {
                        assert(seq![cc].skip(1) =~= Seq::<Seq<char>>::empty());
                        assert(concat_frags(seq![cc]) == cc + concat_frags(
                            Seq::<Seq<char>>::empty(),
                        ));
                        assert(acc + (cc + Seq::<char>::empty()) =~= acc + cc);
                    } else {
                        assert(acc + concat_frags(Seq::<Seq<char>>::empty()) =~= acc);
                    }
                },
                Option::None => {
                    assert(acc + concat_frags(Seq::<Seq<char>>::empty()) =~= acc);
                },
            }
        }
        lemma_fold_accumulates(records.skip(1), acc1);
        let rest = fold_choices(records.skip(1), acc1);
        lemma_concat_frags_app(frags0, rest.frags);
        assert(acc + concat_frags(frags0 + rest.frags) =~= (acc + concat_frags(frags0))
            + concat_frags(rest.frags));
    }
}

/// Processing one line appends exactly the concatenation of the fragments it
/// emits.
proof fn lemma_line_accumulates(line: Seq<char>, acc: Seq<char>)
    ensures
        spec_line(line, acc).acc == acc + concat_frags(spec_line(line, acc).frags),
{
    let lo = spec_line(line, acc);
    match data_payload(line) {
        Option::None => {
            assert(acc + concat_frags(Seq::<Seq<char>>::empty()) =~= acc);
        },
        Option::Some(p) => {
            if p == "[DONE]"@ {
                assert(acc + concat_frags(Seq::<Seq<char>>::empty()) =~= acc);
            } else {
                match sse_records_of(p) {
                    Option::None => {
                        assert(acc + concat_frags(Seq::<Seq<char>>::empty()) =~= acc);
                    },
                    Option::Some(records) => {
                        lemma_fold_accumulates(records, acc);
                    },
                }
            }
        },
    }
}

proof fn lemma_concat_frags_app(a: Seq<Seq<char>>, b: Seq<Seq<char>>)
    ensures
        concat_frags(a + b) == concat_frags(a) + concat_frags(b),
    decreases a.len(),
{
    if a.len() == 0 {
        assert(a + b =~= b);
        assert(concat_frags(a) + concat_frags(b) =~= concat_frags(b));
    } else {
        assert((a + b).skip(1) =~= a.skip(1) + b);
        lemma_concat_frags_app(a.skip(1), b);
        assert(concat_frags(a + b) == (a + b)[0] + concat_frags((a + b).skip(1)));
        assert((a + b)[0] == a[0]);
        assert(a[0] + (concat_frags(a.skip(1)) + concat_frags(b)) =~= (a[0] + concat_frags(
            a.skip(1),
        )) + concat_frags(b));
    }
}

/// Streaming decoder state: the partial-line buffer, the accumulated reply,
/// and whether the stream has finished.
pub struct SseDecoder {
    pub buffer: String,
    pub accumulated: String,
    pub finished: bool,
}

impl SseDecoder {
    /// A fresh decoder: empty buffer, empty reply, not finished.
    pub fn new() -> (r: SseDecoder)
        ensures
            r.buffer@ == Seq::<char>::empty(),
            r.accumulated@ == Seq::<char>::empty(),
            !r.finished,
    {
        SseDecoder { buffer: String::new(), accumulated: String::new(), finished: false }
    }

    /// Processes one extracted line, updating the accumulated reply and the
    /// finished flag, and returning the content fragments to emit, in order.
    pub fn process_line(&mut self, line: &str) -> (frags: Vec<String>)
        requires
            !old(self).finished,
        ensures
            final(self).buffer == old(self).buffer,
            final(self).accumulated@ == spec_line(line@, old(self).accumulated@).acc,
            final(self).finished == spec_line(line@, old(self).accumulated@).fin,
            frags@.map_values(|f: String| f@) == spec_line(line@, old(self).accumulated@).frags,
    {
        proof {
            reveal_strlit("data: ");
        }
        let no_frags: Vec<String> = Vec::new();
        proof {
            assert(no_frags@.map_values(|f: String| f@) =~= Seq::<Seq<char>>::empty());
        }
        let t = trim_str(line);
        if !str_starts_with(t.as_str(), "data: ") {
            return no_frags;
        }
        let tlen = t.as_str().unicode_len();
        let payload = t.as_str().substring_char(6, tlen);
        proof {
            assert(payload@ =~= spec_trim(line@).skip("data: "@.len() as int));
        }
        if str_eq(payload, "[DONE]") {
            self.finished = true;
            return no_frags;
        }
        let parsed = parse_sse_chunk(payload);
        let chunk = match parsed {
            None => {
                return no_frags;
            },
            Some(chunk) => chunk,
        };
        let ghost records = chunk_records(chunk);
        let ghost acc0 = self.accumulated@;
        let mut frags: Vec<String> = Vec::new();
        let mut finish = false;
        let n = chunk.choices.len();
        let mut i: usize = 0;
        proof {
            assert(records.skip(0) =~= records);
            assert(frags@.map_values(|f: String| f@) =~= Seq::<Seq<char>>::empty());
            assert(Seq::<Seq<char>>::empty() + fold_choices(records, acc0).frags =~= fold_choices(
                records,
                acc0,
            ).frags);
        }
        while i < n
            invariant
                i <= n,
                n == chunk.choices@.len(),
                records == chunk_records(chunk),
                !self.finished,
                self.buffer == old(self).buffer,
                fold_choices(records, acc0).acc == fold_choices(
                    records.skip(i as int),
                    self.accumulated@,
                ).acc,
                fold_choices(records, acc0).fin == (finish || fold_choices(
                    records.skip(i as int),
                    self.accumulated@,
                ).fin),
                fold_choices(records, acc0).frags == frags@.map_values(|f: String| f@)
                    + fold_choices(records.skip(i as int), self.accumulated@).frags,
            decreases n - i,
        {
            proof {
                assert(records.skip(i as int)[0] == records[i as int]);
                assert(records.skip(i as int).skip(1) =~= records.skip(i as int + 1));
                assert(records[i as int] == choice_view(chunk.choices@[i as int]));
            }
            let ghost frags_before = frags@;
            let ghost acc_entry = self.accumulated@;
            let choice = &chunk.choices[i];
            match &choice.delta.content {
                Some(c) => {
                    if c.as_str().unicode_len() > 0 {
                        self.accumulated.append(c.as_str());
                        frags.push(c.clone());
                        proof {
                            assert(frags@.map_values(|f: String| f@) =~= frags_before.map_values(
                                |f: String| f@,
                            ).push(c@));
                        }
                    }
                },
                None => {},
            }
            match &choice.finish_reason {
                Some(r) => {
                    if str_eq(r.as_str(), "stop") || str_eq(r.as_str(), "length") {
                        finish = true;
                    }
                },
                None => {},
            }
            proof {
                let step = fold_choices(records.skip(i as int), acc_entry);
                let rest = fold_choices(records.skip(i as int + 1), self.accumulated@);
                let frags0 = match records[i as int].0 {
                    Option::Some(cc) => if cc.len() > 0 {
                        seq![cc]
                    } else {
                        Seq::<Seq<char>>::empty()
                    },
                    Option::None => Seq::<Seq<char>>::empty(),
                };
                assert(step.acc == rest.acc && step.frags == frags0 + rest.frags);
                assert(frags@.map_values(|f: String| f@) =~= frags_before.map_values(|f: String| f@)
                    + frags0);
                assert(frags_before.map_values(|f: String| f@) + (frags0 + rest.frags)
                    =~= frags@.map_values(|f: String| f@) + rest.frags);
            }
            i += 1;
        }
        proof {
            assert(records.skip(n as int) =~= Seq::<(Option<Seq<char>>, Option<Seq<char>>)>::empty());
            assert(frags@.map_values(|f: String| f@) + fold_choices(
                records.skip(n as int),
                self.accumulated@,
            ).frags =~= frags@.map_values(|f: String| f@));
        }
        self.finished = finish;
        frags
    }

    /// Feeds one network read to the decoder: appends it to the buffer,
    /// processes every complete line until the stream finishes or only a
    /// partial line is left, and returns the fragments to emit, in order.
    pub fn feed(&mut self, text: &str) -> (frags: Vec<String>)
        ensures
            ({
                let d = spec_drain(
                    old(self).buffer@ + text@,
                    old(self).accumulated@,
                    old(self).finished,
                );
                final(self).buffer@ == d.buf && final(self).accumulated@ == d.acc
                    && final(self).finished == d.fin
                    && frags@.map_values(|f: String| f@) == d.frags
            }),
    {
        self.buffer.append(text);
        let mut frags: Vec<String> = Vec::new();
        let ghost target = spec_drain(self.buffer@, self.accumulated@, self.finished);
        if self.finished {
            proof {
                assert(frags@.map_values(|f: String| f@) =~= target.frags);
            }
            return frags;
        }
        loop
            invariant_except_break
            ({
                let d = spec_drain(self.buffer@, self.accumulated@, self.finished);
                target.buf == d.buf && target.acc == d.acc && target.fin == d.fin && target.frags
                    == frags@.map_values(|f: String| f@) + d.frags
            }),
            ensures
                target.buf == final(self).buffer@ && target.acc == final(self).accumulated@
                    && target.fin == final(self).finished && target.frags == frags@.map_values(
                    |f: String| f@,
                ),
            decreases self.buffer@.len() + (if self.finished {
                0int
            } else {
                1int
            }),
        {
            if self.finished {
                proof {
                    let d = spec_drain(self.buffer@, self.accumulated@, self.finished);
                    assert(frags@.map_values(|f: String| f@) + d.frags =~= frags@.map_values(
                        |f: String| f@,
                    ));
                }
                break;
            }
            let p = match str_find_char(self.buffer.as_str(), '\n') {
                Some(p) => p,
                None => {
                    proof {
                        let d = spec_drain(self.buffer@, self.accumulated@, self.finished);
                        assert(frags@.map_values(|f: String| f@) + d.frags =~= frags@.map_values(
                            |f: String| f@,
                        ));
                    }
                    break;
                },
            };
            let blen = self.buffer.as_str().unicode_len();
            let line = String::from_str(self.buffer.as_str().substring_char(0, p));
            let rest = String::from_str(self.buffer.as_str().substring_char(p + 1, blen));
            let ghost buf_before = self.buffer@;
            proof {
                assert(line@ =~= buf_before.take(p as int));
                assert(rest@ =~= buf_before.skip(p as int + 1));
            }
            self.buffer = rest;
            let ghost frags_before = frags@;
            let ghost acc_before = self.accumulated@;
            let mut line_frags = self.process_line(line.as_str());
            let ghost line_frag_views = line_frags@.map_values(|f: String| f@);
            frags.append(&mut line_frags);
            proof {
                let lo = spec_line(line@, acc_before);
                let d_now = spec_drain(self.buffer@, self.accumulated@, self.finished);
                assert(frags@.map_values(|f: String| f@) =~= frags_before.map_values(|f: String| f@)
                    + line_frag_views);
                if lo.fin {
                    assert(d_now.frags =~= Seq::<Seq<char>>::empty());
                }
                assert(frags_before.map_values(|f: String| f@) + (lo.frags + d_now.frags)
                    =~= frags@.map_values(|f: String| f@) + d_now.frags);
                assert(target.frags =~= frags@.map_values(|f: String| f@) + d_now.frags);
            }
        }
        frags
    }
}

} // verus!
