//! Deterministic text chunking for the retrieval engine: fixed-size windows
//! with a fixed overlap, guaranteeing total coverage of the input.

use vstd::prelude::*;

verus! {

/// Width of one chunk window, in characters.
pub const CHUNK_WINDOW: usize = 1200;

/// Overlap between consecutive chunks, in characters.
pub const CHUNK_OVERLAP: usize = 200;

/// Line-ending normalization: every carriage return that is immediately
/// followed by a line feed is dropped, leaving the line feed.
pub open spec fn norm_newlines(s: Seq<char>) -> Seq<char>
    decreases s.len(),
{
    if s.len() == 0 {
        Seq::empty()
    } else if s[0] == '\r' && s.len() >= 2 && s[1] == '\n' {
        norm_newlines(s.skip(1))
    } else {
        seq![s[0]] + norm_newlines(s.skip(1))
    }
}

/// Replaces every `"\r\n"` with `"\n"`.
pub fn normalize_newlines(text: &str) -> (r: String)
    ensures
        r@ == norm_newlines(text@),
{
    let len = text.unicode_len();
    let mut out = String::new();
    let mut i: usize = 0;
    proof {
        assert(text@.skip(0) =~= text@);
        assert(out@ + norm_newlines(text@) =~= norm_newlines(text@));
    }
    while i < len
        invariant
            i <= len,
            len == text@.len(),
            norm_newlines(text@) == out@ + norm_newlines(text@.skip(i as int)),
        decreases len - i,
    {
        let c = text.get_char(i);
        proof {
            assert(text@.skip(i as int)[0] == text@[i as int]);
            assert(text@.skip(i as int).skip(1) =~= text@.skip(i as int + 1));
            if i + 1 < len {
                assert(text@.skip(i as int)[1] == text@[i as int + 1]);
            }
        }
        if c == '\r' && i + 1 < len && text.get_char(i + 1) == '\n' {
            proof {
                assert(norm_newlines(text@.skip(i as int)) == norm_newlines(
                    text@.skip(i as int + 1),
                ));
            }
        } else {
            let piece = text.substring_char(i, i + 1);
            proof {
                assert(piece@ =~= seq![text@[i as int]]);
            }
            out.append(piece);
            proof {
                assert(out@ + norm_newlines(text@.skip(i as int + 1)) =~= (out@.subrange(
                    0,
                    out@.len() - 1,
                ) + (seq![text@[i as int]] + norm_newlines(text@.skip(i as int + 1)))));
            }
        }
        i += 1;
    }
    proof {
        assert(text@.skip(len as int) =~= Seq::<char>::empty());
        assert(out@ =~= out@ + norm_newlines(text@.skip(len as int)));
    }
    out
}

/// The chunks of `t` taken from offset `i` on: a window of up to
/// `CHUNK_WINDOW` characters, then, if the end was not reached, again from
/// `CHUNK_OVERLAP` characters before the window's end.
pub open spec fn spec_chunks_from(t: Seq<char>, i: int) -> Seq<Seq<char>>
    decreases t.len() - i,
{
    if i < 0 || i >= t.len() {
        Seq::empty()
    } else if i + CHUNK_WINDOW >= t.len() {
        seq![t.subrange(i, t.len() as int)]
    } else {
        seq![t.subrange(i, i + CHUNK_WINDOW)] + spec_chunks_from(
            t,
            i + CHUNK_WINDOW - CHUNK_OVERLAP,
        )
    }
}

/// The chunk sequence of a whole text.
pub open spec fn spec_chunks(t: Seq<char>) -> Seq<Seq<char>> {
    spec_chunks_from(t, 0)
}

/// Start offset of chunk `j`.
pub open spec fn chunk_start(j: int) -> int {
    j * ((CHUNK_WINDOW - CHUNK_OVERLAP) as int)
}

/// End offset (exclusive) of chunk `j` of a text of length `len`.
pub open spec fn chunk_end(len: int, j: int) -> int {
    if chunk_start(j) + CHUNK_WINDOW <= len {
        chunk_start(j) + CHUNK_WINDOW
    } else {
        len
    }
}

/// Splits an already-normalized text into overlapping chunks.
pub fn chunk_text(text: &str) -> (chunks: Vec<String>)
    ensures
        chunks@.map_values(|c: String| c@) == spec_chunks(text@),
{
    let len = text.unicode_len();
    let mut chunks: Vec<String> = Vec::new();
    if len == 0 {
        proof {
            assert(chunks@.map_values(|c: String| c@) =~= spec_chunks(text@));
        }
        return chunks;
    }
    let mut i: usize = 0;
    loop
        invariant_except_break
            i < len,
            len == text@.len(),
            spec_chunks(text@) == chunks@.map_values(|c: String| c@) + spec_chunks_from(
                text@,
                i as int,
            ),
        ensures
            spec_chunks(text@) == chunks@.map_values(|c: String| c@),
        decreases len - i,
    {
        let end = if len - i > CHUNK_WINDOW {
            i + CHUNK_WINDOW
        } else {
            len
        };
        let piece = text.substring_char(i, end);
        let ghost before = chunks@.map_values(|c: String| c@);
        chunks.push(String::from_str(piece));
        proof {
            assert(chunks@.map_values(|c: String| c@) =~= before + seq![piece@]);
        }
        if end == len {
            proof {
                assert(spec_chunks_from(text@, i as int) =~= seq![piece@]);
                assert(before + seq![piece@] =~= spec_chunks(text@));
            }
            break;
        }
        proof {
            assert(spec_chunks_from(text@, i as int) == seq![text@.subrange(
                i as int,
                i as int + CHUNK_WINDOW,
            )] + spec_chunks_from(text@, i as int + CHUNK_WINDOW - CHUNK_OVERLAP));
        }
        i = end - CHUNK_OVERLAP;
    }
    chunks
}

proof fn lemma_chunk_count_from(t: Seq<char>, i: int)
    requires
        0 <= i < t.len(),
    ensures
        spec_chunks_from(t, i).len() >= 1,
{
}

/// Chunk `j` of the sequence taken from offset `i` spans
/// `[i + j*step, min(i + j*step + window, len))`; every chunk but the last
/// stops short of the end.
proof fn lemma_chunk_content_from(t: Seq<char>, i: int, j: int)
    requires
        0 <= i < t.len(),
        0 <= j < spec_chunks_from(t, i).len(),
    ensures
        spec_chunks_from(t, i)[j] == t.subrange(
            i + j * ((CHUNK_WINDOW - CHUNK_OVERLAP) as int),
            if i + j * ((CHUNK_WINDOW - CHUNK_OVERLAP) as int) + CHUNK_WINDOW <= t.len() {
                i + j * ((CHUNK_WINDOW - CHUNK_OVERLAP) as int) + CHUNK_WINDOW
            } else {
                t.len() as int
            },
        ),
        j < spec_chunks_from(t, i).len() - 1 ==> i + j * ((CHUNK_WINDOW - CHUNK_OVERLAP) as int)
            + CHUNK_WINDOW < t.len(),
    decreases j,
{
    if i + CHUNK_WINDOW >= t.len() {
        assert(j == 0);
    } else {
        let step = (CHUNK_WINDOW - CHUNK_OVERLAP) as int;
        let rest = spec_chunks_from(t, i + step);
        lemma_chunk_count_from(t, i + step);
        if j == 0 {
        } else {
            lemma_chunk_content_from(t, i + step, j - 1);
            assert(i + step + (j - 1) * step == i + j * step) by (nonlinear_arith);
        }
    }
}

/// Each chunk of the sequence reads back the very characters of the text at
/// its window.
pub proof fn lemma_chunk_content(t: Seq<char>, j: int)
    requires
        0 <= j < spec_chunks(t).len(),
    ensures
        spec_chunks(t)[j] == t.subrange(chunk_start(j), chunk_end(t.len() as int, j)),
        j < spec_chunks(t).len() - 1 ==> chunk_start(j) + CHUNK_WINDOW < t.len(),
{
    if t.len() > 0 {
        lemma_chunk_content_from(t, 0, j);
    }
}

/// The last chunk's window reaches the end of the text, and its start is
/// inside the text.
proof fn lemma_last_end_from(t: Seq<char>, i: int)
    requires
        0 <= i < t.len(),
    ensures
        i + (spec_chunks_from(t, i).len() - 1) * ((CHUNK_WINDOW - CHUNK_OVERLAP) as int)
            + CHUNK_WINDOW >= t.len(),
        i + (spec_chunks_from(t, i).len() - 1) * ((CHUNK_WINDOW - CHUNK_OVERLAP) as int) < t.len(),
    decreases t.len() - i,
{
    let step = (CHUNK_WINDOW - CHUNK_OVERLAP) as int;
    if i + CHUNK_WINDOW >= t.len() {
        assert(spec_chunks_from(t, i).len() == 1);
        assert((1 - 1) * step == 0) by (nonlinear_arith);
    } else {
        lemma_last_end_from(t, i + step);
        let n1 = spec_chunks_from(t, i + step).len() as int;
        assert(spec_chunks_from(t, i).len() == n1 + 1);
        assert(i + step + (n1 - 1) * step == i + ((n1 + 1) - 1) * step) by (nonlinear_arith);
    }
}

/// LAW. A non-empty text yields at least one chunk, and the last chunk ends
/// exactly at the end of the text.
pub proof fn lemma_chunking_last(t: Seq<char>)
    requires
        t.len() > 0,
    ensures
        spec_chunks(t).len() >= 1,
        chunk_end(t.len() as int, spec_chunks(t).len() - 1) == t.len(),
        spec_chunks(t)[spec_chunks(t).len() - 1] == t.subrange(
            chunk_start(spec_chunks(t).len() - 1),
            t.len() as int,
        ),
{
    lemma_chunk_count_from(t, 0);
    lemma_last_end_from(t, 0);
    lemma_chunk_content(t, spec_chunks(t).len() - 1);
}

/// LAW. Every character of the text is covered by some chunk, which reads
/// back that very character.
pub proof fn lemma_chunking_covers(t: Seq<char>, k: int)
    requires
        0 <= k < t.len(),
    ensures
        exists|j: int|
            0 <= j < spec_chunks(t).len() && chunk_start(j) <= k < chunk_end(t.len() as int, j)
                && #[trigger] spec_chunks(t)[j][k - chunk_start(j)] == t[k],
{
    let step = (CHUNK_WINDOW - CHUNK_OVERLAP) as int;
    let n = spec_chunks(t).len() as int;
    lemma_chunk_count_from(t, 0);
    lemma_last_end_from(t, 0);
    let j = if k < chunk_start(n - 1) {
        k / step
    } else {
        n - 1
    };
    vstd::arithmetic::div_mod::lemma_fundamental_div_mod(k, step);
    vstd::arithmetic::div_mod::lemma_mod_division_less_than_divisor(k, step);
    if k < chunk_start(n - 1) {
        assert(step * (k / step) <= k < step * (k / step) + step);
        assert(j * step == step * (k / step)) by (nonlinear_arith)
            requires
                j == k / step,
        ;
        assert(chunk_start(j) == j * step);
        assert(j < n - 1) by (nonlinear_arith)
            requires
                j * step <= k,
                k < (n - 1) * step,
                step > 0,
        ;
        assert(j >= 0) by (nonlinear_arith)
            requires
                j * step <= k,
                k < j * step + step,
                k >= 0,
                step > 0,
        ;
    } else {
        assert(chunk_start(j) <= k);
        assert(k < chunk_start(n - 1) + CHUNK_WINDOW);
    }
    assert(chunk_start(j) <= k < chunk_end(t.len() as int, j));
    lemma_chunk_content(t, j);
    assert(spec_chunks(t)[j][k - chunk_start(j)] == t[k]);
}

/// LAW. Consecutive chunks overlap by exactly `CHUNK_OVERLAP` characters:
/// the next chunk starts that far before the previous one's end, and the two
/// windows agree on the shared characters.
pub proof fn lemma_chunking_overlap(t: Seq<char>, j: int)
    requires
        0 <= j < spec_chunks(t).len() - 1,
    ensures
        chunk_start(j + 1) == chunk_end(t.len() as int, j) - CHUNK_OVERLAP,
        spec_chunks(t)[j + 1].subrange(0, CHUNK_OVERLAP as int) == spec_chunks(t)[j].subrange(
            (CHUNK_WINDOW - CHUNK_OVERLAP) as int,
            CHUNK_WINDOW as int,
        ),
{
    let step = (CHUNK_WINDOW - CHUNK_OVERLAP) as int;
    lemma_chunk_content(t, j);
    lemma_chunk_content(t, j + 1);
    assert(chunk_start(j + 1) == chunk_start(j) + step) by (nonlinear_arith)
        requires
            chunk_start(j) == j * step,
            chunk_start(j + 1) == (j + 1) * step,
    ;
    assert(chunk_start(j) + CHUNK_WINDOW < t.len());
    assert(spec_chunks(t)[j + 1].subrange(0, CHUNK_OVERLAP as int) =~= spec_chunks(t)[j].subrange(
        (CHUNK_WINDOW - CHUNK_OVERLAP) as int,
        CHUNK_WINDOW as int,
    ));
}

} // verus!
