//! Character-level text primitives: substring occurrence, prefix tests,
//! first-occurrence search, and leftmost-first substring replacement.
//!
//! All specifications speak about strings as `Seq<char>` views; positions and
//! lengths are counted in characters.

use vstd::prelude::*;

verus! {

/// The pattern `pat` occurs in `t` starting at character position `i`.
pub open spec fn contains_at(t: Seq<char>, pat: Seq<char>, i: int) -> bool {
    &&& 0 <= i
    &&& i + pat.len() <= t.len()
    &&& t.subrange(i, i + pat.len() as int) == pat
}

/// The pattern `pat` occurs somewhere in `t`.
pub open spec fn contains_seq(t: Seq<char>, pat: Seq<char>) -> bool {
    exists|i: int| contains_at(t, pat, i)
}

/// `s` starts with the prefix `p`.
pub open spec fn has_prefix(s: Seq<char>, p: Seq<char>) -> bool {
    contains_at(s, p, 0)
}

/// Position of the first occurrence of the character `c` in `s` at or after
/// position `from`; `s.len()` when there is none.
pub open spec fn index_of_from(s: Seq<char>, c: char, from: int) -> int
    decreases s.len() - from,
{
    if from < 0 || from >= s.len() {
        s.len() as int
    } else if s[from] == c {
        from
    } else {
        index_of_from(s, c, from + 1)
    }
}

/// Result of replacing every occurrence of `pat` in `t` at or after position
/// `from` by `rep`, scanning left to right; an occurrence is consumed whole,
/// so replacements never overlap and replacement text is not rescanned.
/// The characters of `t` before `from` are not part of the result.
pub open spec fn replace_from(t: Seq<char>, pat: Seq<char>, rep: Seq<char>, from: int) -> Seq<char>
    decreases t.len() - from,
{
    if pat.len() == 0 || from < 0 || from >= t.len() {
        if 0 <= from <= t.len() {
            t.subrange(from, t.len() as int)
        } else {
            Seq::empty()
        }
    } else if contains_at(t, pat, from) {
        rep + replace_from(t, pat, rep, from + pat.len() as int)
    } else {
        seq![t[from]] + replace_from(t, pat, rep, from + 1)
    }
}

/// Result of replacing every occurrence of `pat` in `t` by `rep`,
/// leftmost first.
pub open spec fn replace_seq(t: Seq<char>, pat: Seq<char>, rep: Seq<char>) -> Seq<char> {
    replace_from(t, pat, rep, 0)
}

/// Compare `pat` against the characters of `t` starting at position `at`.
pub fn matches_at(t: &str, pat: &str, at: usize) -> (b: bool)
    requires
        at + pat@.len() <= t@.len(),
    ensures
        b == contains_at(t@, pat@, at as int),
{
    let t_len = t.unicode_len();
    let pat_len = pat.unicode_len();
    let mut k: usize = 0;
    while k < pat_len
        invariant
            t_len == t@.len(),
            pat_len == pat@.len(),
            at + pat_len <= t_len,
            k <= pat_len,
            forall|j: int| 0 <= j < k ==> t@[at + j] == pat@[j],
        decreases pat_len - k,
    {
        if t.get_char(at + k) != pat.get_char(k) {
            proof {
                if contains_at(t@, pat@, at as int) {
                    assert(t@.subrange(at as int, at + pat@.len())[k as int] == t@[at + k]);
                }
            }
            return false;
        }
        k += 1;
    }
    proof {
        assert(t@.subrange(at as int, at + pat@.len()) =~= pat@);
    }
    true
}

/// Does `s` start with the prefix `p`?
pub fn starts_with_str(s: &str, p: &str) -> (b: bool)
    ensures
        b == has_prefix(s@, p@),
{
    let s_len = s.unicode_len();
    let p_len = p.unicode_len();
    if p_len <= s_len {
        matches_at(s, p, 0)
    } else {
        false
    }
}

/// Does `pat` occur anywhere in `t`?
pub fn contains_str(t: &str, pat: &str) -> (b: bool)
    ensures
        b == contains_seq(t@, pat@),
{
    let t_len = t.unicode_len();
    let pat_len = pat.unicode_len();
    if pat_len == 0 {
        proof {
            assert(t@.subrange(0, 0) =~= pat@);
            assert(contains_at(t@, pat@, 0));
        }
        return true;
    }
    if pat_len > t_len {
        return false;
    }
    let last = t_len - pat_len;
    let mut at: usize = 0;
    while at <= last
        invariant
            t_len == t@.len(),
            pat_len == pat@.len(),
            pat_len >= 1,
            last == t_len - pat_len,
            at <= last + 1,
            forall|j: int| 0 <= j < at ==> !contains_at(t@, pat@, j),
        decreases last + 1 - at,
    {
        if matches_at(t, pat, at) {
            assert(contains_at(t@, pat@, at as int));
            return true;
        }
        at += 1;
    }
    proof {
        assert(forall|j: int| contains_at(t@, pat@, j) ==> 0 <= j < at);
    }
    false
}

/// Position of the first occurrence of the character `c` in `s`,
/// or the length of `s` when `c` does not occur.
pub fn find_char(s: &str, c: char) -> (r: usize)
    ensures
        r as int == index_of_from(s@, c, 0),
        r <= s@.len(),
        r < s@.len() ==> s@[r as int] == c,
        forall|j: int| 0 <= j < r ==> s@[j] != c,
{
    let len = s.unicode_len();
    let mut i: usize = 0;
    while i < len
        invariant
            len == s@.len(),
            i <= len,
            index_of_from(s@, c, 0) == index_of_from(s@, c, i as int),
            forall|j: int| 0 <= j < i ==> s@[j] != c,
        decreases len - i,
    {
        if s.get_char(i) == c {
            assert(index_of_from(s@, c, i as int) == i);
            return i;
        }
        assert(index_of_from(s@, c, i as int) == index_of_from(s@, c, i + 1));
        i += 1;
    }
    assert(index_of_from(s@, c, i as int) == s@.len());
    len
}

/// Replace every occurrence of `pat` in `t` by `rep`, leftmost first,
/// without rescanning replacement text.
pub fn replace_all(t: &str, pat: &str, rep: &str) -> (r: String)
    requires
        pat@.len() >= 1,
    ensures
        r@ == replace_seq(t@, pat@, rep@),
{
    let t_len = t.unicode_len();
    let pat_len = pat.unicode_len();
    let mut out = String::new();
    let mut pos: usize = 0;
    while pos < t_len
        invariant
            t_len == t@.len(),
            pat_len == pat@.len(),
            pat@.len() >= 1,
            pos <= t_len,
            out@ + replace_from(t@, pat@, rep@, pos as int) == replace_seq(t@, pat@, rep@),
        decreases t_len - pos,
    {
        let ghost prev_out = out@;
        if pat_len <= t_len - pos && matches_at(t, pat, pos) {
            out.append(rep);
            pos += pat_len;
            proof {
                assert(out@ + replace_from(t@, pat@, rep@, pos as int)
                    =~= prev_out + replace_from(t@, pat@, rep@, pos - pat@.len()));
            }
        } else {
            let ch = t.substring_char(pos, pos + 1);
            out.append(ch);
            pos += 1;
            proof {
                assert(ch@ =~= seq![t@[pos - 1]]);
                assert(out@ + replace_from(t@, pat@, rep@, pos as int)
                    =~= prev_out + replace_from(t@, pat@, rep@, pos - 1));
            }
        }
    }
    proof {
        assert(replace_from(t@, pat@, rep@, pos as int) =~= Seq::<char>::empty());
        assert(out@ =~= out@ + replace_from(t@, pat@, rep@, pos as int));
    }
    out
}

} // verus!
