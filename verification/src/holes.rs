//! Positional holes in command templates.
//!
//! A hole is the marker `{n}` for a decimal index `n`. The number of holes of
//! a template is the largest `h` such that the markers `{0}` … `{h-1}` all
//! occur in it: the scan stops at the first missing index. Rendering walks
//! the template once, left to right: each occurrence of a marker `{i}` with
//! `i` below the hole count is replaced by the `i`-th argument's literal text
//! (the empty string once arguments run out), and inserted text is never
//! rescanned — a marker arriving inside an argument stays as it is. The
//! left-over arguments are appended, each preceded by one space.

use vstd::prelude::*;
use vstd::set_lib::{lemma_int_range, lemma_len_subset, set_int_range};
use crate::text::{contains_at, contains_seq};
use crate::text::{contains_str, matches_at};

verus! {

/// The decimal digit character for `d` (meaningful for `d < 10`).
pub open spec fn digit_char(d: nat) -> char {
    if d == 0 {
        '0'
    } else if d == 1 {
        '1'
    } else if d == 2 {
        '2'
    } else if d == 3 {
        '3'
    } else if d == 4 {
        '4'
    } else if d == 5 {
        '5'
    } else if d == 6 {
        '6'
    } else if d == 7 {
        '7'
    } else if d == 8 {
        '8'
    } else {
        '9'
    }
}

/// Is `c` a decimal digit character?
pub open spec fn is_digit(c: char) -> bool {
    ||| c == '0'
    ||| c == '1'
    ||| c == '2'
    ||| c == '3'
    ||| c == '4'
    ||| c == '5'
    ||| c == '6'
    ||| c == '7'
    ||| c == '8'
    ||| c == '9'
}

/// The decimal representation of `n`, most significant digit first,
/// without leading zeros (a single `'0'` for zero).
pub open spec fn dec_seq(n: nat) -> Seq<char>
    decreases n,
{
    if n < 10 {
        seq![digit_char(n)]
    } else {
        dec_seq(n / 10).push(digit_char(n % 10))
    }
}

/// The hole marker for index `n`: `{`, the decimal of `n`, `}`.
pub open spec fn hole_seq(n: nat) -> Seq<char> {
    seq!['{'] + dec_seq(n) + seq!['}']
}

/// The template `t` contains the marker `{n}`.
pub open spec fn contains_hole(t: Seq<char>, n: nat) -> bool {
    contains_seq(t, hole_seq(n))
}

/// The hole scan from index `n` upward: the first index at or after `n` whose
/// marker is missing from `t`. The scan is capped at `t.len() + 1` so that it
/// terminates; the cap is never reached (`lemma_hole_count_bound`).
pub open spec fn hole_count_from(t: Seq<char>, n: nat) -> nat
    decreases t.len() + 1 - n,
{
    if n > t.len() {
        n
    } else if contains_hole(t, n) {
        hole_count_from(t, n + 1)
    } else {
        n
    }
}

/// The number of holes of `t`: the first index whose marker is missing.
pub open spec fn hole_count(t: Seq<char>) -> nat {
    hole_count_from(t, 0)
}

/// Every character of a decimal representation is a digit, and the
/// representation is never empty.
pub proof fn lemma_dec_seq_digits(n: nat)
    ensures
        dec_seq(n).len() >= 1,
        forall|i: int| 0 <= i < dec_seq(n).len() ==> is_digit(#[trigger] dec_seq(n)[i]),
    decreases n,
{
    if n >= 10 {
        lemma_dec_seq_digits(n / 10);
    }
}

/// Distinct indices have distinct decimal representations.
pub proof fn lemma_dec_seq_injective(a: nat, b: nat)
    requires
        dec_seq(a) == dec_seq(b),
    ensures
        a == b,
    decreases a,
{
    lemma_dec_seq_digits(a);
    lemma_dec_seq_digits(b);
    if a < 10 && b < 10 {
        assert(dec_seq(a)[0] == digit_char(a));
        assert(dec_seq(b)[0] == digit_char(b));
    } else if a < 10 {
        lemma_dec_seq_digits(b / 10);
        assert(dec_seq(b).len() >= 2);
    } else if b < 10 {
        lemma_dec_seq_digits(a / 10);
        assert(dec_seq(a).len() >= 2);
    } else {
        let la = dec_seq(a / 10).len() as int;
        assert(dec_seq(a)[la] == digit_char(a % 10));
        assert(dec_seq(b)[la] == digit_char(b % 10));
        assert(a % 10 == b % 10);
        assert(dec_seq(a / 10) =~= dec_seq(b / 10)) by {
            assert forall|i: int| 0 <= i < la implies #[trigger] dec_seq(a / 10)[i] == dec_seq(
                b / 10,
            )[i] by {
                assert(dec_seq(a)[i] == dec_seq(a / 10)[i]);
                assert(dec_seq(b)[i] == dec_seq(b / 10)[i]);
            }
        };
        lemma_dec_seq_injective(a / 10, b / 10);
        vstd::arithmetic::div_mod::lemma_fundamental_div_mod(a as int, 10);
        vstd::arithmetic::div_mod::lemma_fundamental_div_mod(b as int, 10);
    }
}

/// Two hole markers that occur at the same position have the same index:
/// a marker ends at the first `}` after its `{`, so the position determines
/// the digits, and the digits determine the index.
pub proof fn lemma_hole_at_injective(t: Seq<char>, a: nat, b: nat, p: int)
    requires
        contains_at(t, hole_seq(a), p),
        contains_at(t, hole_seq(b), p),
    ensures
        a == b,
{
    lemma_dec_seq_digits(a);
    lemma_dec_seq_digits(b);
    let la = dec_seq(a).len() as int;
    let lb = dec_seq(b).len() as int;
    assert forall|i: int| 0 <= i < la + 2 implies t[p + i] == #[trigger] hole_seq(a)[i] by {
        assert(t.subrange(p, p + hole_seq(a).len() as int)[i] == t[p + i]);
    }
    assert forall|i: int| 0 <= i < lb + 2 implies t[p + i] == #[trigger] hole_seq(b)[i] by {
        assert(t.subrange(p, p + hole_seq(b).len() as int)[i] == t[p + i]);
    }
    if la < lb {
        assert(t[p + 1 + la] == hole_seq(a)[1 + la]);
        assert(hole_seq(a)[1 + la] == '}');
        assert(hole_seq(b)[1 + la] == dec_seq(b)[la]);
        assert(is_digit(dec_seq(b)[la]));
        assert(false);
    } else if lb < la {
        assert(hole_seq(b)[1 + lb] == '}');
        assert(hole_seq(a)[1 + lb] == dec_seq(a)[lb]);
        assert(is_digit(dec_seq(a)[lb]));
        assert(false);
    } else {
        assert(dec_seq(a) =~= dec_seq(b)) by {
            assert forall|i: int| 0 <= i < la implies dec_seq(a)[i] == dec_seq(b)[i] by {
                assert(hole_seq(a)[1 + i] == dec_seq(a)[i]);
                assert(hole_seq(b)[1 + i] == dec_seq(b)[i]);
            }
        };
        lemma_dec_seq_injective(a, b);
    }
}

/// Some position at which the marker `{i}` occurs in `t` (meaningful when
/// `contains_hole(t, i)` holds).
pub open spec fn hole_position(t: Seq<char>, i: nat) -> int {
    choose|p: int| contains_at(t, hole_seq(i), p)
}

/// The chosen positions of the markers `{0}` … `{n-1}`.
pub open spec fn hole_positions(t: Seq<char>, n: nat) -> Set<int>
    decreases n,
{
    if n == 0 {
        Set::empty()
    } else {
        hole_positions(t, (n - 1) as nat).insert(hole_position(t, (n - 1) as nat))
    }
}

/// When the markers `{0}` … `{n-1}` all occur in `t`, their chosen positions
/// are `n` distinct valid positions of `t`.
pub proof fn lemma_hole_positions_card(t: Seq<char>, n: nat)
    requires
        forall|i: nat| i < n ==> contains_hole(t, i),
    ensures
        hole_positions(t, n).finite(),
        hole_positions(t, n).len() == n,
        forall|q: int| hole_positions(t, n).contains(q)
            ==> exists|i: nat| i < n && hole_position(t, i) == q,
        forall|q: int| hole_positions(t, n).contains(q) ==> 0 <= q < t.len(),
    decreases n,
{
    if n == 0 {
        assert(hole_positions(t, 0) =~= Set::<int>::empty());
    } else {
        let m = (n - 1) as nat;
        lemma_hole_positions_card(t, m);
        let p = hole_position(t, m);
        assert(contains_hole(t, m));
        assert(contains_at(t, hole_seq(m), p));
        lemma_dec_seq_digits(m);
        assert(0 <= p < t.len());
        assert(!hole_positions(t, m).contains(p)) by {
            if hole_positions(t, m).contains(p) {
                let i = choose|i: nat| i < m && hole_position(t, i) == p;
                assert(contains_hole(t, i));
                assert(contains_at(t, hole_seq(i), p));
                lemma_hole_at_injective(t, i, m, p);
            }
        };
        assert(hole_positions(t, n) == hole_positions(t, m).insert(p));
        assert forall|q: int| hole_positions(t, n).contains(q)
            implies exists|i: nat| i < n && hole_position(t, i) == q by {
            if q == p {
                assert(m < n && hole_position(t, m) == q);
            } else {
                let i = choose|i: nat| i < m && hole_position(t, i) == q;
                assert(i < n && hole_position(t, i) == q);
            }
        }
    }
}

/// A template of length `L` holds at most `L` distinct hole markers, so if
/// the markers `{0}` … `{n-1}` all occur, then `n <= L`.
pub proof fn lemma_hole_count_bound(t: Seq<char>, n: nat)
    requires
        forall|i: nat| i < n ==> contains_hole(t, i),
    ensures
        n <= t.len(),
{
    lemma_hole_positions_card(t, n);
    let range = set_int_range(0, t.len() as int);
    lemma_int_range(0, t.len() as int);
    assert(hole_positions(t, n) <= range);
    lemma_len_subset(hole_positions(t, n), range);
}

/// The hole scan never reaches its cap: starting from an index whose
/// predecessors' markers all occur, it stops exactly at the first missing
/// marker.
pub proof fn lemma_hole_count_from_sound(t: Seq<char>, n: nat)
    requires
        n <= t.len() + 1,
        forall|i: nat| i < n ==> contains_hole(t, i),
    ensures
        n <= hole_count_from(t, n),
        forall|i: nat| i < hole_count_from(t, n) ==> contains_hole(t, i),
        !contains_hole(t, hole_count_from(t, n)),
    decreases t.len() + 1 - n,
{
    if n > t.len() {
        lemma_hole_count_bound(t, n);
        assert(false);
    } else if contains_hole(t, n) {
        assert(forall|i: nat| i < n + 1 ==> contains_hole(t, i));
        lemma_hole_count_from_sound(t, n + 1);
    }
}

/// The hole count of `t` is the first index whose marker is missing, and it
/// never exceeds the length of `t`.
pub proof fn lemma_hole_count_correct(t: Seq<char>)
    ensures
        forall|i: nat| i < hole_count(t) ==> contains_hole(t, i),
        !contains_hole(t, hole_count(t)),
        hole_count(t) <= t.len(),
{
    lemma_hole_count_from_sound(t, 0);
    lemma_hole_count_bound(t, hole_count(t));
}

/// The decimal digit character for `d`.
fn digit_str(d: usize) -> (r: String)
    requires
        d < 10,
    ensures
        r@ == seq![digit_char(d as nat)],
{
    proof {
        reveal_strlit("0");
        reveal_strlit("1");
        reveal_strlit("2");
        reveal_strlit("3");
        reveal_strlit("4");
        reveal_strlit("5");
        reveal_strlit("6");
        reveal_strlit("7");
        reveal_strlit("8");
        reveal_strlit("9");
    }
    let s: &str = if d == 0 {
        "0"
    } else if d == 1 {
        "1"
    } else if d == 2 {
        "2"
    } else if d == 3 {
        "3"
    } else if d == 4 {
        "4"
    } else if d == 5 {
        "5"
    } else if d == 6 {
        "6"
    } else if d == 7 {
        "7"
    } else if d == 8 {
        "8"
    } else {
        "9"
    };
    let r = String::from_str(s);
    proof {
        assert(r@ =~= seq![digit_char(d as nat)]);
    }
    r
}

/// The decimal representation of `n`.
pub fn dec_str(n: usize) -> (r: String)
    ensures
        r@ == dec_seq(n as nat),
    decreases n,
{
    if n < 10 {
        digit_str(n)
    } else {
        let mut r = dec_str(n / 10);
        let d = digit_str(n % 10);
        r.append(d.as_str());
        proof {
            assert(r@ =~= dec_seq((n / 10) as nat).push(digit_char((n % 10) as nat)));
        }
        r
    }
}

/// The hole marker `{n}` as a string.
pub fn hole(n: usize) -> (r: String)
    ensures
        r@ == hole_seq(n as nat),
{
    proof {
        reveal_strlit("{");
        reveal_strlit("}");
    }
    let mut r = String::from_str("{");
    let d = dec_str(n);
    r.append(d.as_str());
    r.append("}");
    proof {
        assert(r@ =~= hole_seq(n as nat));
    }
    r
}

/// Count the holes of `command`: the largest `h` such that the markers
/// `{0}` … `{h-1}` all occur, scanning upward from `{0}` and stopping at the
/// first missing marker.
pub fn count_holes(command: &String) -> (r: usize)
    ensures
        r as nat == hole_count(command@),
        forall|i: nat| i < r ==> contains_hole(command@, i),
        !contains_hole(command@, r as nat),
{
    let len = command.as_str().unicode_len();
    let mut n: usize = 0;
    loop
        invariant
            len == command@.len(),
            n <= len,
            forall|i: nat| i < n ==> contains_hole(command@, i),
        ensures
            forall|i: nat| i < n ==> contains_hole(command@, i),
            !contains_hole(command@, n as nat),
        decreases len - n,
    {
        let h = hole(n);
        if !contains_str(command.as_str(), h.as_str()) {
            break;
        }
        proof {
            assert(contains_hole(command@, n as nat));
            assert(forall|i: nat| i < n + 1 ==> contains_hole(command@, i));
            lemma_hole_count_bound(command@, (n + 1) as nat);
        }
        n += 1;
    }
    proof {
        lemma_hole_count_correct(command@);
        let c = hole_count(command@);
        if (n as nat) < c {
            assert(contains_hole(command@, n as nat));
            assert(false);
        }
        if (n as nat) > c {
            assert(contains_hole(command@, c));
            assert(false);
        }
    }
    n
}

/// The argument for hole `i`: the `i`-th argument, or the empty string once
/// the arguments are exhausted.
pub open spec fn arg_or_empty(args: Seq<Seq<char>>, i: int) -> Seq<char> {
    if 0 <= i < args.len() {
        args[i]
    } else {
        Seq::empty()
    }
}

/// Fill the markers of `t` from position `from` on, in one left-to-right
/// scan: an occurrence of `{i}` with `i < h` is replaced by the `i`-th
/// argument and the scan continues right after the occurrence, so inserted
/// argument text is never rescanned; any other character is copied. The
/// marker occurring at a position is unique (`lemma_hole_at_injective`), so
/// the choice below is determined.
pub open spec fn fill_from(t: Seq<char>, args: Seq<Seq<char>>, h: nat, from: int) -> Seq<char>
    decreases t.len() - from,
    via fill_from_decreases
{
    if from < 0 || from >= t.len() {
        Seq::empty()
    } else if exists|n: nat| n < h && contains_at(t, hole_seq(n), from) {
        let n = choose|n: nat| n < h && contains_at(t, hole_seq(n), from);
        arg_or_empty(args, n as int) + fill_from(t, args, h, from + hole_seq(n).len() as int)
    } else {
        seq![t[from]] + fill_from(t, args, h, from + 1)
    }
}

#[via_fn]
proof fn fill_from_decreases(t: Seq<char>, args: Seq<Seq<char>>, h: nat, from: int) {
    if 0 <= from < t.len() {
        if exists|n: nat| n < h && contains_at(t, hole_seq(n), from) {
            let n = choose|n: nat| n < h && contains_at(t, hole_seq(n), from);
            lemma_dec_seq_digits(n);
        }
    }
}

/// The scan copies a stretch of the template in which no marker below `h`
/// begins.
pub proof fn lemma_fill_from_copies(
    t: Seq<char>,
    args: Seq<Seq<char>>,
    h: nat,
    from: int,
    to: int,
)
    requires
        0 <= from <= to <= t.len(),
        forall|p: int, n: nat|
            from <= p < to && n < h ==> !(#[trigger] contains_at(t, hole_seq(n), p)),
    ensures
        fill_from(t, args, h, from) == t.subrange(from, to) + fill_from(t, args, h, to),
    decreases to - from,
{
    if from == to {
        assert(t.subrange(from, to) =~= Seq::<char>::empty());
        assert(t.subrange(from, to) + fill_from(t, args, h, to) =~= fill_from(t, args, h, to));
    } else {
        assert(!(exists|n: nat| n < h && contains_at(t, hole_seq(n), from)));
        lemma_fill_from_copies(t, args, h, from + 1, to);
        assert(seq![t[from]] + (t.subrange(from + 1, to) + fill_from(t, args, h, to)) =~= t.subrange(
            from,
            to,
        ) + fill_from(t, args, h, to));
    }
}

/// Append `args[from..]` to `t`, each preceded by one space.
pub open spec fn append_from(t: Seq<char>, args: Seq<Seq<char>>, from: nat) -> Seq<char>
    decreases args.len() - from,
{
    if from >= args.len() {
        t
    } else {
        append_from(t + seq![' '] + args[from as int], args, from + 1)
    }
}

/// The overflow suffix: the arguments from `from` on, each preceded by one
/// space.
pub open spec fn overflow_suffix(args: Seq<Seq<char>>, from: nat) -> Seq<char>
    decreases args.len() - from,
{
    if from >= args.len() {
        Seq::empty()
    } else {
        seq![' '] + args[from as int] + overflow_suffix(args, from + 1)
    }
}

/// Appending the overflow arguments only extends `t` by the overflow suffix.
pub proof fn lemma_append_from_suffix(t: Seq<char>, args: Seq<Seq<char>>, from: nat)
    ensures
        append_from(t, args, from) == t + overflow_suffix(args, from),
    decreases args.len() - from,
{
    if from >= args.len() {
        assert(t + overflow_suffix(args, from) =~= t);
    } else {
        lemma_append_from_suffix(t + seq![' '] + args[from as int], args, from + 1);
        assert((t + seq![' '] + args[from as int]) + overflow_suffix(args, from + 1)
            =~= t + (seq![' '] + args[from as int] + overflow_suffix(args, from + 1)));
    }
}

/// The fully rendered template: one scan fills every marker occurrence with
/// its argument's literal text, then the arguments beyond the hole count are
/// appended.
pub open spec fn rendered(t: Seq<char>, args: Seq<Seq<char>>) -> Seq<char> {
    append_from(fill_from(t, args, hole_count(t), 0), args, hole_count(t))
}

/// Law: filling is idempotent on a template with no holes — rendering with
/// any argument list yields the template itself, extended only by the
/// space-joined overflow suffix.
pub proof fn lemma_rendered_no_holes(t: Seq<char>, args: Seq<Seq<char>>)
    requires
        hole_count(t) == 0,
    ensures
        rendered(t, args) == t + overflow_suffix(args, 0),
{
    assert(forall|p: int, n: nat|
        0 <= p < t.len() && n < 0 ==> !(#[trigger] contains_at(t, hole_seq(n), p)));
    lemma_fill_from_copies(t, args, 0, 0, t.len() as int);
    assert(fill_from(t, args, 0, t.len() as int) =~= Seq::<char>::empty());
    assert(t.subrange(0, t.len() as int) =~= t);
    assert(fill_from(t, args, 0, 0) =~= t);
    lemma_append_from_suffix(fill_from(t, args, 0, 0), args, 0);
}

/// Law (round trip): a template of shape `u {0} v {1} w` whose only marker
/// occurrences are those two, rendered with exactly the arguments `a` and
/// `b`, yields `u a v b w` — each hole takes its argument's literal text,
/// inserted text is never rescanned, and no overflow is appended.
pub proof fn lemma_rendered_two_holes(
    t: Seq<char>,
    u: Seq<char>,
    v: Seq<char>,
    w: Seq<char>,
    a: Seq<char>,
    b: Seq<char>,
)
    requires
        t == u + hole_seq(0) + v + hole_seq(1) + w,
        hole_count(t) == 2,
        forall|p: int, n: nat|
            n < 2 && #[trigger] contains_at(t, hole_seq(n), p) ==> p == u.len() || p == u.len()
                + 3 + v.len(),
    ensures
        rendered(t, seq![a, b]) == u + a + v + b + w,
{
    let args = seq![a, b];
    let p0 = u.len() as int;
    let p1 = p0 + 3 + v.len();
    let end = t.len() as int;
    assert(hole_seq(0).len() == 3);
    assert(hole_seq(1).len() == 3);
    assert(end == p1 + 3 + w.len());
    assert(contains_at(t, hole_seq(0), p0)) by {
        assert(t.subrange(p0, p0 + 3) =~= hole_seq(0));
    }
    assert(contains_at(t, hole_seq(1), p1)) by {
        assert(t.subrange(p1, p1 + 3) =~= hole_seq(1));
    }
    assert forall|n: nat| n < 2 && contains_at(t, hole_seq(n), p0) implies n == 0 by {
        lemma_hole_at_injective(t, n, 0, p0);
    }
    assert forall|n: nat| n < 2 && contains_at(t, hole_seq(n), p1) implies n == 1 by {
        lemma_hole_at_injective(t, n, 1, p1);
    }
    let f4 = fill_from(t, args, 2, end);
    assert(f4 =~= Seq::<char>::empty());
    lemma_fill_from_copies(t, args, 2, p1 + 3, end);
    let f3 = fill_from(t, args, 2, p1 + 3);
    assert(t.subrange(p1 + 3, end) =~= w);
    assert(f3 =~= w);
    let f2 = fill_from(t, args, 2, p1);
    assert(exists|n: nat| n < 2 && contains_at(t, hole_seq(n), p1));
    assert(f2 == arg_or_empty(args, 1) + f3);
    assert(arg_or_empty(args, 1) == b);
    lemma_fill_from_copies(t, args, 2, p0 + 3, p1);
    let f15 = fill_from(t, args, 2, p0 + 3);
    assert(t.subrange(p0 + 3, p1) =~= v);
    assert(f15 =~= v + f2);
    let f1 = fill_from(t, args, 2, p0);
    assert(exists|n: nat| n < 2 && contains_at(t, hole_seq(n), p0));
    assert(f1 == arg_or_empty(args, 0) + f15);
    assert(arg_or_empty(args, 0) == a);
    lemma_fill_from_copies(t, args, 2, 0, p0);
    let f0 = fill_from(t, args, 2, 0);
    assert(t.subrange(0, p0) =~= u);
    assert(f0 =~= u + (a + (v + (b + w))));
    assert(f0 =~= u + a + v + b + w);
    assert(append_from(f0, args, 2) == f0);
}

/// The hole marker starting at position `pos` of `t`, among the indices
/// below `h`: its index and its length in characters, or nothing when no
/// such marker starts there.
fn marker_at(t: &str, pos: usize, h: usize) -> (r: Option<(usize, usize)>)
    requires
        pos < t@.len(),
    ensures
        match r {
            Some(nl) => nl.0 < h && nl.1 == hole_seq(nl.0 as nat).len() && contains_at(
                t@,
                hole_seq(nl.0 as nat),
                pos as int,
            ),
            None => forall|n: nat| n < h ==> !contains_at(t@, hole_seq(n), pos as int),
        },
{
    let t_len = t.unicode_len();
    let mut n: usize = 0;
    while n < h
        invariant
            t_len == t@.len(),
            pos < t_len,
            n <= h,
            forall|m: nat| m < n ==> !contains_at(t@, hole_seq(m), pos as int),
        decreases h - n,
    {
        let hs = hole(n);
        let l = hs.as_str().unicode_len();
        if l <= t_len - pos && matches_at(t, hs.as_str(), pos) {
            return Some((n, l));
        }
        proof {
            if contains_at(t@, hole_seq(n as nat), pos as int) {
                assert(pos + hole_seq(n as nat).len() <= t@.len());
                assert(false);
            }
        }
        n += 1;
    }
    None
}

/// Fill the holes of `perferated_command` with `args` in one left-to-right
/// scan — each occurrence of `{i}` with `i` below the hole count takes the
/// `i`-th argument's literal text, the empty string once arguments run out,
/// and inserted text is never rescanned — then append the left-over
/// arguments, each preceded by one space.
pub fn fill_in_arguments(perferated_command: String, args: Vec<String>) -> (r: String)
    ensures
        r@ == rendered(perferated_command@, args.deep_view()),
{
    let ghost t0 = perferated_command@;
    let ghost args_v = args.deep_view();
    let ghost h = hole_count(t0);
    let number_of_holes = count_holes(&perferated_command);
    let t_len = perferated_command.as_str().unicode_len();
    let mut out = String::new();
    let mut pos: usize = 0;
    while pos < t_len
        invariant
            t0 == perferated_command@,
            args_v == args.deep_view(),
            number_of_holes as nat == h,
            t_len == t0.len(),
            pos <= t_len,
            out@ + fill_from(t0, args_v, h, pos as int) == fill_from(t0, args_v, h, 0),
        decreases t_len - pos,
    {
        let ghost prev = out@;
        match marker_at(perferated_command.as_str(), pos, number_of_holes) {
            Some((n, l)) => {
                proof {
                    assert(exists|m: nat| m < h && contains_at(t0, hole_seq(m), pos as int));
                    let m = choose|m: nat| m < h && contains_at(t0, hole_seq(m), pos as int);
                    lemma_hole_at_injective(t0, m, n as nat, pos as int);
                }
                if n < args.len() {
                    out.append(args[n].as_str());
                }
                let ghost mid = pos + hole_seq(n as nat).len();
                pos += l;
                proof {
                    assert(out@ =~= prev + arg_or_empty(args_v, n as int));
                    assert(fill_from(t0, args_v, h, mid as int) == fill_from(
                        t0,
                        args_v,
                        h,
                        pos as int,
                    ));
                    assert(out@ + fill_from(t0, args_v, h, pos as int) =~= prev + (arg_or_empty(
                        args_v,
                        n as int,
                    ) + fill_from(t0, args_v, h, mid as int)));
                }
            },
            None => {
                let ch = perferated_command.as_str().substring_char(pos, pos + 1);
                out.append(ch);
                pos += 1;
                proof {
                    assert(!(exists|m: nat| m < h && contains_at(t0, hole_seq(m), pos - 1)));
                    assert(ch@ =~= seq![t0[pos - 1]]);
                    assert(out@ + fill_from(t0, args_v, h, pos as int) =~= prev + (seq![
                        t0[pos - 1],
                    ] + fill_from(t0, args_v, h, pos as int)));
                }
            },
        }
    }
    let ghost filled = fill_from(t0, args_v, h, 0);
    proof {
        assert(fill_from(t0, args_v, h, pos as int) =~= Seq::<char>::empty());
        assert(out@ =~= out@ + fill_from(t0, args_v, h, pos as int));
        assert(out@ == filled);
    }
    let mut k: usize = number_of_holes;
    while k < args.len()
        invariant
            args_v == args.deep_view(),
            number_of_holes as nat == h,
            k >= number_of_holes,
            k <= args.len() || k == number_of_holes,
            append_from(out@, args_v, k as nat) == append_from(filled, args_v, h),
        decreases args.len() - k,
    {
        let ghost before = out@;
        out = out.concat(" ");
        out.append(args[k].as_str());
        proof {
            reveal_strlit(" ");
            assert(out@ =~= before + seq![' '] + args_v[k as int]);
        }
        k += 1;
    }
    proof {
        assert(append_from(out@, args_v, k as nat) == out@);
    }
    out
}

} // verus!
