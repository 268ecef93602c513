//! Verified string primitives: prefix and suffix tests, substring search,
//! ASCII case folding, whitespace trimming and line splitting.

use vstd::prelude::*;

verus! {

/// ASCII lower-casing of one character; other characters are unchanged.
pub open spec fn lower_char(c: char) -> char {
    if c == 'A' {
        'a'
    } else if c == 'B' {
        'b'
    } else if c == 'C' {
        'c'
    } else if c == 'D' {
        'd'
    } else if c == 'E' {
        'e'
    } else if c == 'F' {
        'f'
    } else if c == 'G' {
        'g'
    } else if c == 'H' {
        'h'
    } else if c == 'I' {
        'i'
    } else if c == 'J' {
        'j'
    } else if c == 'K' {
        'k'
    } else if c == 'L' {
        'l'
    } else if c == 'M' {
        'm'
    } else if c == 'N' {
        'n'
    } else if c == 'O' {
        'o'
    } else if c == 'P' {
        'p'
    } else if c == 'Q' {
        'q'
    } else if c == 'R' {
        'r'
    } else if c == 'S' {
        's'
    } else if c == 'T' {
        't'
    } else if c == 'U' {
        'u'
    } else if c == 'V' {
        'v'
    } else if c == 'W' {
        'w'
    } else if c == 'X' {
        'x'
    } else if c == 'Y' {
        'y'
    } else if c == 'Z' {
        'z'
    } else {
        c
    }
}

/// ASCII lower-casing of a character sequence.
pub open spec fn lower_seq(s: Seq<char>) -> Seq<char> {
    s.map_values(|c: char| lower_char(c))
}

pub fn to_lower_char(c: char) -> (r: char)
    ensures
        r == lower_char(c),
{
    match c {
        'A' => 'a',
        'B' => 'b',
        'C' => 'c',
        'D' => 'd',
        'E' => 'e',
        'F' => 'f',
        'G' => 'g',
        'H' => 'h',
        'I' => 'i',
        'J' => 'j',
        'K' => 'k',
        'L' => 'l',
        'M' => 'm',
        'N' => 'n',
        'O' => 'o',
        'P' => 'p',
        'Q' => 'q',
        'R' => 'r',
        'S' => 's',
        'T' => 't',
        'U' => 'u',
        'V' => 'v',
        'W' => 'w',
        'X' => 'x',
        'Y' => 'y',
        'Z' => 'z',
        _ => c,
    }
}

/// Whether `p` is a prefix of `s`.
pub fn str_starts_with(s: &str, p: &str) -> (r: bool)
    ensures
        r == p@.is_prefix_of(s@),
{
    let n = p.unicode_len();
    let m = s.unicode_len();
    if n > m {
        return false;
    }
    let mut i: usize = 0;
    while i < n
        invariant
            i <= n <= m,
            n == p@.len(),
            m == s@.len(),
            forall|j: int| 0 <= j < i ==> s@[j] == p@[j],
        decreases n - i,
    {
        if s.get_char(i) != p.get_char(i) {
            proof {
                assert(s@.subrange(0, n as int)[i as int] != p@[i as int]);
            }
            return false;
        }
        i += 1;
    }
    proof {
        assert(p@ =~= s@.subrange(0, n as int));
    }
    true
}

/// Whether the two strings are equal up to ASCII case.
pub fn str_eq_ignore_ascii_case(a: &str, b: &str) -> (r: bool)
    ensures
        r == (lower_seq(a@) == lower_seq(b@)),
{
    let n = a.unicode_len();
    let m = b.unicode_len();
    if n != m {
        proof {
            assert(lower_seq(a@).len() == n);
            assert(lower_seq(b@).len() == m);
        }
        return false;
    }
    let mut i: usize = 0;
    while i < n
        invariant
            i <= n,
            n == a@.len() == b@.len(),
            forall|j: int| 0 <= j < i ==> lower_char(a@[j]) == lower_char(b@[j]),
        decreases n - i,
    {
        if to_lower_char(a.get_char(i)) != to_lower_char(b.get_char(i)) {
            proof {
                assert(lower_seq(a@)[i as int] != lower_seq(b@)[i as int]);
            }
            return false;
        }
        i += 1;
    }
    proof {
        assert(lower_seq(a@) =~= lower_seq(b@));
    }
    true
}

/// Whether `s` ends with `suffix`, up to ASCII case.
pub fn str_ends_with_ignore_ascii_case(s: &str, suffix: &str) -> (r: bool)
    ensures
        r == lower_seq(suffix@).is_suffix_of(lower_seq(s@)),
{
    let n = suffix.unicode_len();
    let m = s.unicode_len();
    if n > m {
        proof {
            assert(lower_seq(s@).len() == m);
            assert(lower_seq(suffix@).len() == n);
        }
        return false;
    }
    let tail = s.substring_char(m - n, m);
    let r = str_eq_ignore_ascii_case(tail, suffix);
    proof {
        let ls = lower_seq(s@);
        let lt = lower_seq(tail@);
        let lf = lower_seq(suffix@);
        assert(lt =~= ls.subrange(m - n, m as int));
        if lt == lf {
            assert(lf =~= ls.subrange(ls.len() - lf.len(), ls.len() as int));
        }
        if lf.is_suffix_of(ls) {
            assert(lt =~= lf);
        }
    }
    r
}

/// Whether `sub` occurs as a contiguous substring of `s`.
pub open spec fn has_substring(s: Seq<char>, sub: Seq<char>) -> bool {
    exists|i: int| 0 <= i <= s.len() - sub.len() && #[trigger] s.subrange(i, i + sub.len()) == sub
}

pub fn str_contains_substring(s: &str, sub: &str) -> (r: bool)
    ensures
        r == has_substring(s@, sub@),
{
    let n = sub.unicode_len();
    let m = s.unicode_len();
    if n > m {
        proof {
            assert(!has_substring(s@, sub@));
        }
        return false;
    }
    if n == 0 {
        proof {
            let z: int = 0;
            assert(s@.subrange(z, z + sub@.len()) =~= sub@);
            assert(has_substring(s@, sub@));
        }
        return true;
    }
    let mut i: usize = 0;
    while i <= m - n
        invariant
            0 < n <= m,
            n == sub@.len(),
            m == s@.len(),
            i <= m - n + 1,
            forall|j: int| 0 <= j < i ==> #[trigger] s@.subrange(j, j + n) != sub@,
        decreases m - n - i + 1,
    {
        let window = s.substring_char(i, i + n);
        if str_eq(window, sub) {
            proof {
                assert(s@.subrange(i as int, i as int + n) == sub@);
            }
            return true;
        }
        i += 1;
    }
    false
}

/// ASCII whitespace.
pub open spec fn is_ws(c: char) -> bool {
    c == ' ' || c == '\t' || c == '\r' || c == '\n'
}

/// `s` with leading whitespace removed.
pub open spec fn trim_front(s: Seq<char>) -> Seq<char>
    decreases s.len(),
{
    if s.len() > 0 && is_ws(s[0]) {
        trim_front(s.skip(1))
    } else {
        s
    }
}

/// `s` with trailing whitespace removed.
pub open spec fn trim_back(s: Seq<char>) -> Seq<char>
    decreases s.len(),
{
    if s.len() > 0 && is_ws(s[s.len() - 1]) {
        trim_back(s.take(s.len() - 1))
    } else {
        s
    }
}

/// `s` with both leading and trailing whitespace removed.
pub open spec fn spec_trim(s: Seq<char>) -> Seq<char> {
    trim_back(trim_front(s))
}

proof fn lemma_trim_front_skip(s: Seq<char>, j: int)
    requires
        0 <= j <= s.len(),
        forall|i: int| 0 <= i < j ==> is_ws(s[i]),
    ensures
        trim_front(s) == trim_front(s.skip(j)),
    decreases j,
{
    if j > 0 {
        assert(s.skip(1).skip(j - 1) =~= s.skip(j));
        lemma_trim_front_skip(s.skip(1), j - 1);
    } else {
        assert(s.skip(0) =~= s);
    }
}

proof fn lemma_trim_back_take(s: Seq<char>, j: int)
    requires
        0 <= j <= s.len(),
        forall|i: int| j <= i < s.len() ==> is_ws(s[i]),
    ensures
        trim_back(s) == trim_back(s.take(j)),
    decreases s.len() - j,
{
    if j < s.len() {
        assert(s.take(s.len() - 1).take(j) =~= s.take(j));
        lemma_trim_back_take(s.take(s.len() - 1), j);
    } else {
        assert(s.take(s.len() as int) =~= s);
    }
}

fn exec_is_ws(c: char) -> (r: bool)
    ensures
        r == is_ws(c),
{
    c == ' ' || c == '\t' || c == '\r' || c == '\n'
}

/// Removes leading and trailing ASCII whitespace.
pub fn trim_str(s: &str) -> (r: String)
    ensures
        r@ == spec_trim(s@),
{
    let len = s.unicode_len();
    let mut a: usize = 0;
    while a < len && exec_is_ws(s.get_char(a))
        invariant
            a <= len,
            len == s@.len(),
            forall|i: int| 0 <= i < a ==> is_ws(s@[i]),
        decreases len - a,
    {
        a += 1;
    }
    proof {
        lemma_trim_front_skip(s@, a as int);
        if a < len {
            assert(s@.skip(a as int)[0] == s@[a as int]);
        }
        assert(trim_front(s@) == s@.skip(a as int));
    }
    if a == len {
        proof {
            assert(s@.skip(a as int) =~= Seq::<char>::empty());
        }
        return String::new();
    }
    let mut b: usize = len;
    while b > a + 1 && exec_is_ws(s.get_char(b - 1))
        invariant
            a < b <= len,
            len == s@.len(),
            forall|i: int| b <= i < len ==> is_ws(s@[i]),
        decreases b,
    {
        b -= 1;
    }
    let r = s.substring_char(a, b);
    proof {
        let f = s@.skip(a as int);
        assert(forall|i: int| b - a <= i < f.len() ==> is_ws(#[trigger] f[i]));
        lemma_trim_back_take(f, b - a);
        assert(!is_ws(f[0]));
        if b > a + 1 {
            assert(!is_ws(f[b - a - 1]));
        }
        assert(f.take(b - a) =~= s@.subrange(a as int, b as int));
        assert(trim_back(f.take(b - a)) == f.take(b - a));
    }
    String::from_str(r)
}

/// The position of the first occurrence of `c` in `s` at or after `from`.
pub open spec fn find_char_from(s: Seq<char>, c: char, from: int) -> Option<int>
    decreases s.len() - from,
{
    if from < 0 || from >= s.len() {
        None
    } else if s[from] == c {
        Some(from)
    } else {
        find_char_from(s, c, from + 1)
    }
}

pub fn str_find_char(s: &str, c: char) -> (r: Option<usize>)
    ensures
        match r {
            Some(p) => p < s@.len() && find_char_from(s@, c, 0) == Some(p as int),
            None => find_char_from(s@, c, 0) is None,
        },
{
    let len = s.unicode_len();
    let mut i: usize = 0;
    while i < len
        invariant
            i <= len,
            len == s@.len(),
            find_char_from(s@, c, 0) == find_char_from(s@, c, i as int),
        decreases len - i,
    {
        if s.get_char(i) == c {
            return Some(i);
        }
        i += 1;
    }
    None
}

/// Character-wise equality of two string slices.
pub fn str_eq(a: &str, b: &str) -> (r: bool)
    ensures
        r == (a@ == b@),
{
    let n = a.unicode_len();
    let m = b.unicode_len();
    if n != m {
        return false;
    }
    let mut i: usize = 0;
    while i < n
        invariant
            i <= n,
            n == a@.len() == b@.len(),
            forall|j: int| 0 <= j < i ==> a@[j] == b@[j],
        decreases n - i,
    {
        if a.get_char(i) != b.get_char(i) {
            return false;
        }
        i += 1;
    }
    proof {
        assert(a@ =~= b@);
    }
    true
}


/// The lines of a text, split at every line feed; a trailing line feed
/// yields a final empty line.
pub open spec fn spec_lines(s: Seq<char>) -> Seq<Seq<char>>
    decreases s.len(),
{
    match find_char_from(s, '\n', 0) {
        Option::None => seq![s],
        Option::Some(p) => if 0 <= p < s.len() {
            seq![s.take(p)] + spec_lines(s.skip(p + 1))
        } else {
            seq![s]
        },
    }
}

/// Splits a text into its lines.
pub fn split_lines(s: &str) -> (r: Vec<String>)
    ensures
        r@.map_values(|l: String| l@) == spec_lines(s@),
{
    let mut out: Vec<String> = Vec::new();
    let mut cur = String::from_str(s);
    loop
        invariant_except_break
            spec_lines(s@) == out@.map_values(|l: String| l@) + spec_lines(cur@),
        ensures
            spec_lines(s@) == out@.map_values(|l: String| l@),
        decreases cur@.len(),
    {
        let ghost before = out@.map_values(|l: String| l@);
        match str_find_char(cur.as_str(), '\n') {
            None => {
                out.push(cur);
                proof {
                    assert(out@.map_values(|l: String| l@) =~= before + spec_lines(
                        out@[out@.len() - 1]@,
                    ));
                }
                break;
            },
            Some(p) => {
                let len = cur.as_str().unicode_len();
                let line = String::from_str(cur.as_str().substring_char(0, p));
                let rest = String::from_str(cur.as_str().substring_char(p + 1, len));
                proof {
                    assert(line@ =~= cur@.take(p as int));
                    assert(rest@ =~= cur@.skip(p as int + 1));
                }
                let ghost cur_view = cur@;
                out.push(line);
                cur = rest;
                proof {
                    assert(out@.map_values(|l: String| l@) =~= before + seq![cur_view.take(
                        p as int,
                    )]);
                    assert(before + (seq![cur_view.take(p as int)] + spec_lines(cur@)) =~= (before
                        + seq![cur_view.take(p as int)]) + spec_lines(cur@));
                }
            },
        }
    }
    out
}

/// The text with its leading hyphens removed.
pub open spec fn drop_dashes(s: Seq<char>) -> Seq<char>
    decreases s.len(),
{
    if s.len() > 0 && s[0] == '-' {
        drop_dashes(s.skip(1))
    } else {
        s
    }
}

proof fn lemma_drop_dashes_skip(s: Seq<char>, j: int)
    requires
        0 <= j <= s.len(),
        forall|i: int| 0 <= i < j ==> s[i] == '-',
    ensures
        drop_dashes(s) == drop_dashes(s.skip(j)),
    decreases j,
{
    if j > 0 {
        assert(s.skip(1).skip(j - 1) =~= s.skip(j));
        lemma_drop_dashes_skip(s.skip(1), j - 1);
    } else {
        assert(s.skip(0) =~= s);
    }
}

/// Removes the leading hyphens of a list-item line.
pub fn strip_dashes(s: &str) -> (r: String)
    ensures
        r@ == drop_dashes(s@),
{
    let len = s.unicode_len();
    let mut a: usize = 0;
    while a < len && s.get_char(a) == '-'
        invariant
            a <= len,
            len == s@.len(),
            forall|i: int| 0 <= i < a ==> s@[i] == '-',
        decreases len - a,
    {
        a += 1;
    }
    let r = String::from_str(s.substring_char(a, len));
    proof {
        lemma_drop_dashes_skip(s@, a as int);
        if a < len {
            assert(s@.skip(a as int)[0] == s@[a as int]);
        }
        assert(r@ =~= s@.skip(a as int));
        assert(drop_dashes(s@.skip(a as int)) == s@.skip(a as int));
    }
    r
}

} // verus!
