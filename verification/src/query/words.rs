//! The characters of a token: finding, trimming, cutting and comparing, as
//! the statement parsers need them.

use vstd::prelude::*;
use vstd::string::{StrSliceExecFns, StringExecFns};
use crate::text::same_text;

verus! {

/// The upper-case form of a text, as `str::to_uppercase` gives it.
pub uninterp spec fn uppercase(s: Seq<char>) -> Seq<char>;

/// Calls `str::to_uppercase`. The contract names the text that comes back.
#[verifier::external_body]
fn upper(s: &str) -> (r: String)
    ensures
        r@ == uppercase(s@),
{
    s.to_uppercase()
}

/// The upper-case form of a text.
pub fn upper_text(s: &str) -> (r: String)
    ensures
        r@ == uppercase(s@),
{
    upper(s)
}

/// Whether `token` is the key word `word`, in any mix of upper and lower
/// case. `word` is given in upper case.
pub fn is_word(token: &str, word: &str) -> (r: bool)
    ensures
        r == (uppercase(token@) == word@),
{
    let up = upper(token);
    same_text(up.as_str(), word)
}

/// The characters of a text.
pub fn chars_of(s: &str) -> (r: Vec<char>)
    ensures
        r@ == s@,
{
    let mut out: Vec<char> = Vec::new();
    for c in it: s.chars()
        invariant
            it.seq() == s@,
            out@ == s@.subrange(0, it.index() as int),
    {
        out.push(c);
        proof {
            assert(out@ =~= s@.subrange(0, it.index() + 1));
        }
    }
    proof {
        assert(s@.subrange(0, s@.len() as int) =~= s@);
    }
    out
}

/// How many characters lie from `from` on before the first `c`, or the end.
pub open spec fn gap(s: Seq<char>, c: char, from: int) -> nat
    decreases s.len() - from,
{
    if from < 0 || from >= s.len() || s[from] == c {
        0
    } else {
        1 + gap(s, c, from + 1)
    }
}

/// The place of the first `c` at or after `from`, or the length of `s`.
pub open spec fn index_of(s: Seq<char>, c: char, from: int) -> int {
    from + gap(s, c, from)
}

/// Whether `c` occurs in `s`.
pub open spec fn has_char(s: Seq<char>, c: char) -> bool {
    index_of(s, c, 0) < s.len()
}

/// The first `c` at or after `from` is where it is found.
pub proof fn lemma_index_of(s: Seq<char>, c: char, from: int, at: int)
    requires
        0 <= from <= at <= s.len(),
        forall|k: int| from <= k < at ==> #[trigger] s[k] != c,
        at == s.len() || s[at] == c,
    ensures
        index_of(s, c, from) == at,
    decreases at - from,
{
    if from < at {
        lemma_index_of(s, c, from + 1, at);
    }
}

/// The place of the first `c` at or after `from`, or the length.
pub fn find_char(s: &Vec<char>, c: char, from: usize) -> (r: usize)
    requires
        from <= s@.len(),
    ensures
        r == index_of(s@, c, from as int),
        from <= r <= s@.len(),
        r < s@.len() ==> s@[r as int] == c,
{
    let mut i: usize = from;
    while i < s.len() && s[i] != c
        invariant
            from <= i <= s@.len(),
            forall|k: int| from <= k < i ==> #[trigger] s@[k] != c,
        decreases s@.len() - i,
    {
        i += 1;
    }
    proof {
        lemma_index_of(s@, c, from as int, i as int);
    }
    i
}

/// Whether `c` is one of the characters of `cut`.
pub open spec fn is_cut(cut: Seq<char>, c: char) -> bool {
    exists|i: int| 0 <= i < cut.len() && #[trigger] cut[i] == c
}

/// `s` without the characters of `cut` at its start.
pub open spec fn trim_start(s: Seq<char>, cut: Seq<char>) -> Seq<char>
    decreases s.len(),
{
    if s.len() > 0 && is_cut(cut, s[0]) {
        trim_start(s.drop_first(), cut)
    } else {
        s
    }
}

/// `s` without the characters of `cut` at its end.
pub open spec fn trim_end(s: Seq<char>, cut: Seq<char>) -> Seq<char>
    decreases s.len(),
{
    if s.len() > 0 && is_cut(cut, s.last()) {
        trim_end(s.drop_last(), cut)
    } else {
        s
    }
}

/// `s` without the characters of `cut` at its start and at its end.
pub open spec fn trim(s: Seq<char>, cut: Seq<char>) -> Seq<char> {
    trim_end(trim_start(s, cut), cut)
}

/// Whether `c` is one of the characters of `cut`.
fn cuts(cut: &Vec<char>, c: char) -> (r: bool)
    ensures
        r == is_cut(cut@, c),
{
    let mut i: usize = 0;
    while i < cut.len()
        invariant
            i <= cut@.len(),
            forall|k: int| 0 <= k < i ==> #[trigger] cut@[k] != c,
        decreases cut@.len() - i,
    {
        if cut[i] == c {
            return true;
        }
        i += 1;
    }
    false
}

/// Where `s` starts between `from` and `to` once the characters of `cut` at
/// its start are left out.
pub fn skip_start(s: &Vec<char>, cut: &Vec<char>, from: usize, to: usize) -> (r: usize)
    requires
        from <= to <= s@.len(),
    ensures
        from <= r <= to,
        s@.subrange(r as int, to as int) == trim_start(s@.subrange(from as int, to as int), cut@),
{
    let mut a: usize = from;
    while a < to && cuts(cut, s[a])
        invariant
            from <= a <= to <= s@.len(),
            trim_start(s@.subrange(from as int, to as int), cut@) == trim_start(
                s@.subrange(a as int, to as int),
                cut@,
            ),
        decreases to - a,
    {
        proof {
            assert(s@.subrange(a as int, to as int)[0] == s@[a as int]);
            assert(s@.subrange(a as int, to as int).drop_first() =~= s@.subrange(a + 1, to as int));
        }
        a += 1;
    }
    proof {
        let rest = s@.subrange(a as int, to as int);
        if a < to {
            assert(rest[0] == s@[a as int]);
        }
        assert(trim_start(rest, cut@) == rest);
    }
    a
}

/// Where `s` ends between `from` and `to` once the characters of `cut` at
/// its end are left out.
pub fn skip_end(s: &Vec<char>, cut: &Vec<char>, from: usize, to: usize) -> (r: usize)
    requires
        from <= to <= s@.len(),
    ensures
        from <= r <= to,
        s@.subrange(from as int, r as int) == trim_end(s@.subrange(from as int, to as int), cut@),
{
    let mut b: usize = to;
    while b > from && cuts(cut, s[b - 1])
        invariant
            from <= b <= to <= s@.len(),
            trim_end(s@.subrange(from as int, to as int), cut@) == trim_end(
                s@.subrange(from as int, b as int),
                cut@,
            ),
        decreases b - from,
    {
        proof {
            assert(s@.subrange(from as int, b as int).last() == s@[b - 1]);
            assert(s@.subrange(from as int, b as int).drop_last() =~= s@.subrange(from as int, b - 1));
        }
        b -= 1;
    }
    proof {
        let rest = s@.subrange(from as int, b as int);
        if b > from {
            assert(rest.last() == s@[b - 1]);
        }
        assert(trim_end(rest, cut@) == rest);
    }
    b
}

/// The characters of `s` from `from` up to `to` as a text of its own.
pub fn cut_out(s: &str, from: usize, to: usize) -> (r: String)
    requires
        from <= to <= s@.len(),
    ensures
        r@ == s@.subrange(from as int, to as int),
{
    s.substring_char(from, to).to_owned()
}

/// `token` without the characters of `cut` at its start and at its end.
pub fn trimmed(token: &str, cut: &Vec<char>) -> (r: String)
    ensures
        r@ == trim(token@, cut@),
{
    let chars = chars_of(token);
    let n = chars.len();
    proof {
        assert(chars@.subrange(0, n as int) =~= chars@);
    }
    let a = skip_start(&chars, cut, 0, n);
    let b = skip_end(&chars, cut, a, n);
    cut_out(token, a, b)
}

/// `token` without the characters of `cut` at its end.
pub fn trimmed_end(token: &str, cut: &Vec<char>) -> (r: String)
    ensures
        r@ == trim_end(token@, cut@),
{
    let chars = chars_of(token);
    let n = chars.len();
    proof {
        assert(chars@.subrange(0, n as int) =~= chars@);
    }
    let b = skip_end(&chars, cut, 0, n);
    cut_out(token, 0, b)
}

/// Whether `c` is white space: one of the characters with the Unicode
/// property `White_Space`.
pub open spec fn is_space(c: char) -> bool {
    let n = c as u32;
    ||| 0x09 <= n <= 0x0d
    ||| n == 0x20
    ||| n == 0x85
    ||| n == 0xa0
    ||| n == 0x1680
    ||| 0x2000 <= n <= 0x200a
    ||| n == 0x2028
    ||| n == 0x2029
    ||| n == 0x202f
    ||| n == 0x205f
    ||| n == 0x3000
}

/// Whether `c` is white space.
pub fn space(c: char) -> (r: bool)
    ensures
        r == is_space(c),
{
    let n = c as u32;
    (0x09 <= n && n <= 0x0d) || n == 0x20 || n == 0x85 || n == 0xa0 || n == 0x1680 || (0x2000 <= n
        && n <= 0x200a) || n == 0x2028 || n == 0x2029 || n == 0x202f || n == 0x205f || n == 0x3000
}

/// How many characters lie from `from` on, before `to`, before the first
/// at which `stop` holds.
pub open spec fn run(s: Seq<char>, stop: spec_fn(char) -> bool, from: int, to: int) -> nat
    decreases to - from,
{
    if from < 0 || from >= to || from >= s.len() || stop(s[from]) {
        0
    } else {
        1 + run(s, stop, from + 1, to)
    }
}

/// The first place from `from` on, before `to`, at which `stop` holds; `to`
/// if there is none.
pub open spec fn scan(s: Seq<char>, stop: spec_fn(char) -> bool, from: int, to: int) -> int {
    from + run(s, stop, from, to)
}

/// The first place at which `stop` holds is where it is found.
pub proof fn lemma_scan(s: Seq<char>, stop: spec_fn(char) -> bool, from: int, to: int, at: int)
    requires
        0 <= from <= at <= to <= s.len(),
        forall|k: int| from <= k < at ==> !stop(#[trigger] s[k]),
        at == to || stop(s[at]),
    ensures
        scan(s, stop, from, to) == at,
    decreases at - from,
{
    if from < at {
        lemma_scan(s, stop, from + 1, to, at);
    }
}

/// Where the text between `from` and `to` ends once the white space at its
/// end is left out.
pub open spec fn end_of_text(s: Seq<char>, from: int, to: int) -> int
    decreases to - from,
{
    if from < to <= s.len() && is_space(s[to - 1]) {
        end_of_text(s, from, to - 1)
    } else {
        to
    }
}

/// The first `c` from `from` on, before `to`; `to` if there is none.
pub fn find_until(s: &Vec<char>, c: char, from: usize, to: usize) -> (r: usize)
    requires
        from <= to <= s@.len(),
    ensures
        r == scan(s@, |x: char| x == c, from as int, to as int),
        from <= r <= to,
        r < to ==> s@[r as int] == c,
{
    let mut i: usize = from;
    while i < to && s[i] != c
        invariant
            from <= i <= to <= s@.len(),
            forall|k: int| from <= k < i ==> #[trigger] s@[k] != c,
        decreases to - i,
    {
        i += 1;
    }
    proof {
        lemma_scan(s@, |x: char| x == c, from as int, to as int, i as int);
    }
    i
}

/// The first character from `from` on, before `to`, that is no white
/// space; `to` if there is none.
pub fn skip_spaces(s: &Vec<char>, from: usize, to: usize) -> (r: usize)
    requires
        from <= to <= s@.len(),
    ensures
        r == scan(s@, |x: char| !is_space(x), from as int, to as int),
        from <= r <= to,
        r < to ==> !is_space(s@[r as int]),
{
    let mut i: usize = from;
    while i < to && space(s[i])
        invariant
            from <= i <= to <= s@.len(),
            forall|k: int| from <= k < i ==> is_space(#[trigger] s@[k]),
        decreases to - i,
    {
        i += 1;
    }
    proof {
        lemma_scan(s@, |x: char| !is_space(x), from as int, to as int, i as int);
    }
    i
}

/// The first white space from `from` on, before `to`; `to` if there is
/// none.
pub fn find_space(s: &Vec<char>, from: usize, to: usize) -> (r: usize)
    requires
        from <= to <= s@.len(),
    ensures
        r == scan(s@, |x: char| is_space(x), from as int, to as int),
        from <= r <= to,
        forall|k: int| from <= k < r ==> !is_space(#[trigger] s@[k]),
{
    let mut i: usize = from;
    while i < to && !space(s[i])
        invariant
            from <= i <= to <= s@.len(),
            forall|k: int| from <= k < i ==> !is_space(#[trigger] s@[k]),
        decreases to - i,
    {
        i += 1;
    }
    proof {
        lemma_scan(s@, |x: char| is_space(x), from as int, to as int, i as int);
    }
    i
}

/// Where the text between `from` and `to` ends once the white space at its
/// end is left out.
pub fn drop_spaces(s: &Vec<char>, from: usize, to: usize) -> (r: usize)
    requires
        from <= to <= s@.len(),
    ensures
        r == end_of_text(s@, from as int, to as int),
        from <= r <= to,
{
    let mut b: usize = to;
    while b > from && space(s[b - 1])
        invariant
            from <= b <= to <= s@.len(),
            end_of_text(s@, from as int, to as int) == end_of_text(s@, from as int, b as int),
        decreases b - from,
    {
        b -= 1;
    }
    b
}

/// The tokens with one blank between each two.
pub open spec fn joined_text(tokens: Seq<Seq<char>>) -> Seq<char>
    decreases tokens.len(),
{
    if tokens.len() == 0 {
        Seq::empty()
    } else if tokens.len() == 1 {
        tokens[0]
    } else {
        joined_text(tokens.drop_last()) + seq![' '] + tokens.last()
    }
}

/// The tokens from place `from` on with one blank between each two.
pub fn join_tokens(tokens: &[&str], from: usize) -> (r: String)
    requires
        from <= tokens@.len(),
    ensures
        r@ == joined_text(tokens@.map_values(|t: &str| t@).subrange(from as int, tokens@.len() as int)),
{
    let ghost tv = tokens@.map_values(|t: &str| t@);
    let mut out = String::new();
    let mut i: usize = from;
    proof {
        assert(tv.subrange(from as int, from as int) =~= Seq::<Seq<char>>::empty());
    }
    while i < tokens.len()
        invariant
            from <= i <= tokens@.len(),
            tv == tokens@.map_values(|t: &str| t@),
            out@ == joined_text(tv.subrange(from as int, i as int)),
        decreases tokens@.len() - i,
    {
        let ghost before = tv.subrange(from as int, i as int);
        let ghost now = tv.subrange(from as int, i + 1);
        proof {
            assert(now.drop_last() =~= before);
            assert(now.last() == tokens@[i as int]@);
            reveal_strlit(" ");
        }
        if i > from {
            out.append(" ");
        }
        out.append(tokens[i]);
        proof {
            if i > from {
                assert(out@ =~= joined_text(before) + seq![' '] + tokens@[i as int]@);
            } else {
                assert(before.len() == 0);
                assert(now.len() == 1);
                assert(out@ =~= now[0]);
            }
        }
        i += 1;
    }
    out
}

} // verus!
