//! Byte-level text utilities shared by all parsers.
//!
//! Source files of the game data are treated as byte sequences. The
//! functions here mirror the usual text operations (trim, split, find,
//! decimal parsing) with exact specifications over `Seq<u8>`.

use vstd::prelude::*;

verus! {

/// ASCII whitespace, as trimmed from the edges of a token.
pub open spec fn is_space(b: u8) -> bool {
    b == 32 || b == 9 || b == 10 || b == 13 || b == 11 || b == 12
}

/// ASCII decimal digit.
pub open spec fn is_digit(b: u8) -> bool {
    48 <= b <= 57
}

pub open spec fn all_digits(s: Seq<u8>) -> bool {
    forall|i: int| 0 <= i < s.len() ==> is_digit(#[trigger] s[i])
}

/// Index of the first occurrence of `sep` in `s`, or `s.len()` if absent.
pub open spec fn first_index(s: Seq<u8>, sep: u8) -> int
    decreases s.len(),
{
    if s.len() == 0 {
        0
    } else if s[0] == sep {
        0
    } else {
        1 + first_index(s.skip(1), sep)
    }
}

pub proof fn lemma_first_index(s: Seq<u8>, sep: u8)
    ensures
        0 <= first_index(s, sep) <= s.len(),
        first_index(s, sep) < s.len() ==> s[first_index(s, sep)] == sep,
        forall|j: int| 0 <= j < first_index(s, sep) ==> s[j] != sep,
    decreases s.len(),
{
    if s.len() == 0 {
    } else if s[0] == sep {
    } else {
        lemma_first_index(s.skip(1), sep);
        assert forall|j: int| 0 <= j < first_index(s, sep) implies s[j] != sep by {
            if j > 0 {
                assert(s.skip(1)[j - 1] == s[j]);
            }
        }
    }
}

/// The characterization above pins `first_index` down uniquely.
pub proof fn lemma_first_index_is(s: Seq<u8>, sep: u8, i: int)
    requires
        0 <= i <= s.len(),
        i < s.len() ==> s[i] == sep,
        forall|j: int| 0 <= j < i ==> s[j] != sep,
    ensures
        first_index(s, sep) == i,
{
    lemma_first_index(s, sep);
    let fi = first_index(s, sep);
    if fi < i {
        assert(s[fi] != sep);
    }
    if i < fi {
        assert(s[i] != sep);
    }
}

/// Index of the first occurrence of `sep` in `s`, or `s.len()` if absent.
pub fn find_byte(s: &Vec<u8>, sep: u8) -> (r: usize)
    ensures
        r == first_index(s@, sep),
        r <= s@.len(),
        r < s@.len() ==> s@[r as int] == sep,
        forall|j: int| 0 <= j < r ==> s@[j] != sep,
{
    let mut i: usize = 0;
    while i < s.len()
        invariant
            i <= s@.len(),
            forall|j: int| 0 <= j < i ==> s@[j] != sep,
        decreases s@.len() - i,
    {
        if s[i] == sep {
            proof {
                lemma_first_index_is(s@, sep, i as int);
            }
            return i;
        }
        i = i + 1;
    }
    proof {
        lemma_first_index_is(s@, sep, s@.len() as int);
    }
    i
}

/// Copy of the byte range `[from, to)` of `s`.
pub fn slice_of(s: &Vec<u8>, from: usize, to: usize) -> (r: Vec<u8>)
    requires
        from <= to <= s@.len(),
    ensures
        r@ == s@.subrange(from as int, to as int),
{
    let mut r: Vec<u8> = Vec::new();
    let mut i: usize = from;
    while i < to
        invariant
            from <= i <= to <= s@.len(),
            r@ == s@.subrange(from as int, i as int),
        decreases to - i,
    {
        r.push(s[i]);
        i = i + 1;
        proof {
            assert(r@ =~= s@.subrange(from as int, i as int));
        }
    }
    r
}

pub fn bytes_eq(a: &Vec<u8>, b: &Vec<u8>) -> (r: bool)
    ensures
        r == (a@ == b@),
{
    if a.len() != b.len() {
        return false;
    }
    let mut i: usize = 0;
    while i < a.len()
        invariant
            a@.len() == b@.len(),
            i <= a@.len(),
            forall|j: int| 0 <= j < i ==> a@[j] == b@[j],
        decreases a@.len() - i,
    {
        if a[i] != b[i] {
            return false;
        }
        i = i + 1;
    }
    proof {
        assert(a@ =~= b@);
    }
    true
}

pub open spec fn spec_starts_with(s: Seq<u8>, p: Seq<u8>) -> bool {
    p.len() <= s.len() && s.take(p.len() as int) == p
}

pub fn starts_with(s: &Vec<u8>, p: &Vec<u8>) -> (r: bool)
    ensures
        r == spec_starts_with(s@, p@),
{
    if p.len() > s.len() {
        return false;
    }
    let mut i: usize = 0;
    while i < p.len()
        invariant
            p@.len() <= s@.len(),
            i <= p@.len(),
            forall|j: int| 0 <= j < i ==> s@[j] == p@[j],
        decreases p@.len() - i,
    {
        if s[i] != p[i] {
            assert(s@.take(p@.len() as int)[i as int] != p@[i as int]);
            return false;
        }
        i = i + 1;
    }
    proof {
        assert(s@.take(p@.len() as int) =~= p@);
    }
    true
}

pub open spec fn spec_ends_with(s: Seq<u8>, p: Seq<u8>) -> bool {
    p.len() <= s.len() && s.skip(s.len() - p.len()) == p
}

/// Whether `p` occurs in `s` at exactly the position `at`.
pub fn match_at(s: &Vec<u8>, p: &Vec<u8>, at: usize) -> (r: bool)
    requires
        at + p@.len() <= s@.len(),
    ensures
        r == (s@.subrange(at as int, at + p@.len()) == p@),
{
    let mut j: usize = 0;
    while j < p.len()
        invariant
            at + p@.len() <= s@.len(),
            s@.len() == s.len(),
            j <= p@.len(),
            forall|t: int| 0 <= t < j ==> s@[at + t] == p@[t],
        decreases p@.len() - j,
    {
        if s[at + j] != p[j] {
            assert(s@.subrange(at as int, at + p@.len())[j as int] != p@[j as int]);
            return false;
        }
        j = j + 1;
    }
    proof {
        assert(s@.subrange(at as int, at + p@.len()) =~= p@);
    }
    true
}

pub fn ends_with(s: &Vec<u8>, p: &Vec<u8>) -> (r: bool)
    ensures
        r == spec_ends_with(s@, p@),
{
    if p.len() > s.len() {
        return false;
    }
    let off: usize = s.len() - p.len();
    let r = match_at(s, p, off);
    proof {
        assert(s@.subrange(off as int, off + p@.len()) =~= s@.skip(s@.len() - p@.len()));
    }
    r
}

/// `p` occurs as a contiguous run somewhere in `s`.
pub open spec fn spec_contains_seq(s: Seq<u8>, p: Seq<u8>) -> bool {
    exists|i: int| 0 <= i <= s.len() - p.len() && #[trigger] s.subrange(i, i + p.len()) == p
}

pub fn contains_seq(s: &Vec<u8>, p: &Vec<u8>) -> (r: bool)
    ensures
        r == spec_contains_seq(s@, p@),
{
    if p.len() == 0 {
        proof {
            assert(s@.subrange(0, 0 + p@.len() as int) =~= p@);
        }
        return true;
    }
    if p.len() > s.len() {
        return false;
    }
    let last_start: usize = s.len() - p.len();
    let mut i: usize = 0;
    while i <= last_start
        invariant
            1 <= p@.len() <= s@.len(),
            s@.len() == s.len(),
            last_start == s@.len() - p@.len(),
            i <= last_start + 1,
            forall|k: int| 0 <= k < i ==> #[trigger] s@.subrange(k, k + p@.len()) != p@,
        decreases last_start + 1 - i,
    {
        if match_at(s, p, i) {
            return true;
        }
        i = i + 1;
    }
    false
}

/// `s` without leading ASCII whitespace.
pub open spec fn trim_front(s: Seq<u8>) -> Seq<u8>
    decreases s.len(),
{
    if s.len() > 0 && is_space(s[0]) {
        trim_front(s.skip(1))
    } else {
        s
    }
}

/// `s` without trailing ASCII whitespace.
pub open spec fn trim_back(s: Seq<u8>) -> Seq<u8>
    decreases s.len(),
{
    if s.len() > 0 && is_space(s.last()) {
        trim_back(s.drop_last())
    } else {
        s
    }
}

/// `s` without leading and trailing ASCII whitespace.
pub open spec fn spec_trim(s: Seq<u8>) -> Seq<u8> {
    trim_back(trim_front(s))
}

pub proof fn lemma_trim_front_skip(s: Seq<u8>, i: int)
    requires
        0 <= i <= s.len(),
        forall|j: int| 0 <= j < i ==> is_space(#[trigger] s[j]),
        i < s.len() ==> !is_space(s[i]),
    ensures
        trim_front(s) == s.skip(i),
    decreases i,
{
    if i == 0 {
        assert(s.skip(0) =~= s);
    } else {
        assert(is_space(s[0]));
        lemma_trim_front_skip(s.skip(1), i - 1);
        assert(s.skip(1).skip(i - 1) =~= s.skip(i));
    }
}

proof fn lemma_trim_back_take(s: Seq<u8>, j: int)
    requires
        0 <= j <= s.len(),
        forall|k: int| j <= k < s.len() ==> is_space(#[trigger] s[k]),
        j > 0 ==> !is_space(s[j - 1]),
    ensures
        trim_back(s) == s.take(j),
    decreases s.len() - j,
{
    if j == s.len() {
        assert(s.take(j) =~= s);
    } else {
        assert(is_space(s.last()));
        lemma_trim_back_take(s.drop_last(), j);
        assert(s.drop_last().take(j) =~= s.take(j));
    }
}

/// Copy of `s` with ASCII whitespace removed from both ends.
pub fn trim(s: &Vec<u8>) -> (r: Vec<u8>)
    ensures
        r@ == spec_trim(s@),
{
    let mut a: usize = 0;
    while a < s.len() && is_space_exec(s[a])
        invariant
            a <= s@.len(),
            forall|j: int| 0 <= j < a ==> is_space(#[trigger] s@[j]),
        decreases s@.len() - a,
    {
        a = a + 1;
    }
    proof {
        lemma_trim_front_skip(s@, a as int);
    }
    let mut b: usize = s.len();
    while b > a && is_space_exec(s[b - 1])
        invariant
            a <= b <= s@.len(),
            forall|k: int| b <= k < s@.len() ==> is_space(#[trigger] s@[k]),
        decreases b,
    {
        b = b - 1;
    }
    proof {
        let f = s@.skip(a as int);
        if b == a {
            lemma_trim_back_take(f, 0);
        } else {
            lemma_trim_back_take(f, b - a);
        }
        assert(f.take(b - a) =~= s@.subrange(a as int, b as int));
    }
    slice_of(s, a, b)
}

/// Executable form of `is_space`.
pub fn is_space_exec(b: u8) -> (r: bool)
    ensures
        r == is_space(b),
{
    b == 32 || b == 9 || b == 10 || b == 13 || b == 11 || b == 12
}

/// Split of `s` on `sep`: the pieces between separators, in order.
/// A trailing separator yields a trailing empty piece.
pub open spec fn spec_split(s: Seq<u8>, sep: u8) -> Seq<Seq<u8>>
    decreases s.len(),
    via spec_split_decreases
{
    let i = first_index(s, sep);
    if i == s.len() {
        seq![s]
    } else {
        seq![s.take(i)] + spec_split(s.skip(i + 1), sep)
    }
}

#[via_fn]
proof fn spec_split_decreases(s: Seq<u8>, sep: u8) {
    lemma_first_index(s, sep);
}

proof fn lemma_split_step(head: Seq<u8>, rest: Seq<u8>, sep: u8)
    requires
        forall|j: int| 0 <= j < head.len() ==> head[j] != sep,
    ensures
        spec_split(head + seq![sep] + rest, sep) == seq![head] + spec_split(rest, sep),
{
    let s = head + seq![sep] + rest;
    lemma_first_index_is(s, sep, head.len() as int);
    assert(s.take(head.len() as int) =~= head);
    assert(s.skip(head.len() + 1 as int) =~= rest);
}

proof fn lemma_split_whole(s: Seq<u8>, sep: u8)
    requires
        forall|j: int| 0 <= j < s.len() ==> s[j] != sep,
    ensures
        spec_split(s, sep) == seq![s],
{
    lemma_first_index_is(s, sep, s.len() as int);
}

/// Splits `s` on every occurrence of `sep`.
pub fn split_all(s: &Vec<u8>, sep: u8) -> (r: Vec<Vec<u8>>)
    ensures
        r@.map_values(|p: Vec<u8>| p@) == spec_split(s@, sep),
{
    let ghost whole = s@;
    let mut done: Vec<Vec<u8>> = Vec::new();
    let mut cur: Vec<u8> = Vec::new();
    let mut i: usize = 0;
    proof {
        assert(done@.map_values(|p: Vec<u8>| p@) =~= Seq::<Seq<u8>>::empty());
        assert(cur@ + s@.skip(0) =~= s@);
    }
    while i < s.len()
        invariant
            i <= s@.len(),
            forall|j: int| 0 <= j < cur@.len() ==> cur@[j] != sep,
            spec_split(s@, sep) == done@.map_values(|p: Vec<u8>| p@) + spec_split(
                cur@ + s@.skip(i as int),
                sep,
            ),
        decreases s@.len() - i,
    {
        let b = s[i];
        proof {
            assert(s@.skip(i as int) =~= seq![s@[i as int]] + s@.skip(i + 1));
        }
        if b == sep {
            proof {
                assert(cur@ + s@.skip(i as int) =~= cur@ + seq![sep] + s@.skip(i + 1));
                lemma_split_step(cur@, s@.skip(i + 1), sep);
            }
            done.push(cur);
            cur = Vec::new();
            proof {
                assert(done@.map_values(|p: Vec<u8>| p@) =~= done@.drop_last().map_values(
                    |p: Vec<u8>| p@,
                ).push(done@.last()@));
                assert(cur@ + s@.skip(i + 1) =~= s@.skip(i + 1));
            }
        } else {
            let ghost cur0 = cur@;
            cur.push(b);
            proof {
                assert(cur@ + s@.skip(i + 1) =~= cur0 + s@.skip(i as int));
            }
        }
        i = i + 1;
    }
    proof {
        assert(cur@ + s@.skip(i as int) =~= cur@);
        lemma_split_whole(cur@, sep);
    }
    done.push(cur);
    proof {
        assert(done@.map_values(|p: Vec<u8>| p@) =~= done@.drop_last().map_values(
            |p: Vec<u8>| p@,
        ).push(done@.last()@));
    }
    done
}

/// `s` without every leading byte equal to `a` or `b`.
pub open spec fn drop_front(s: Seq<u8>, a: u8, b: u8) -> Seq<u8>
    decreases s.len(),
{
    if s.len() > 0 && (s[0] == a || s[0] == b) {
        drop_front(s.skip(1), a, b)
    } else {
        s
    }
}

/// `s` without every trailing byte equal to `a` or `b`.
pub open spec fn drop_back(s: Seq<u8>, a: u8, b: u8) -> Seq<u8>
    decreases s.len(),
{
    if s.len() > 0 && (s.last() == a || s.last() == b) {
        drop_back(s.drop_last(), a, b)
    } else {
        s
    }
}

proof fn lemma_drop_front_skip(s: Seq<u8>, a: u8, b: u8, i: int)
    requires
        0 <= i <= s.len(),
        forall|j: int| 0 <= j < i ==> (#[trigger] s[j] == a || s[j] == b),
        i < s.len() ==> !(s[i] == a || s[i] == b),
    ensures
        drop_front(s, a, b) == s.skip(i),
    decreases i,
{
    if i == 0 {
        assert(s.skip(0) =~= s);
    } else {
        lemma_drop_front_skip(s.skip(1), a, b, i - 1);
        assert(s.skip(1).skip(i - 1) =~= s.skip(i));
    }
}

proof fn lemma_drop_back_take(s: Seq<u8>, a: u8, b: u8, j: int)
    requires
        0 <= j <= s.len(),
        forall|k: int| j <= k < s.len() ==> (#[trigger] s[k] == a || s[k] == b),
        j > 0 ==> !(s[j - 1] == a || s[j - 1] == b),
    ensures
        drop_back(s, a, b) == s.take(j),
    decreases s.len() - j,
{
    if j == s.len() {
        assert(s.take(j) =~= s);
    } else {
        lemma_drop_back_take(s.drop_last(), a, b, j);
        assert(s.drop_last().take(j) =~= s.take(j));
    }
}

/// Copy of `s` with every leading byte equal to `a` or `b` removed.
pub fn drop_front_bytes(s: &Vec<u8>, a: u8, b: u8) -> (r: Vec<u8>)
    ensures
        r@ == drop_front(s@, a, b),
{
    let mut i: usize = 0;
    while i < s.len() && (s[i] == a || s[i] == b)
        invariant
            i <= s@.len(),
            forall|j: int| 0 <= j < i ==> (#[trigger] s@[j] == a || s@[j] == b),
        decreases s@.len() - i,
    {
        i = i + 1;
    }
    proof {
        lemma_drop_front_skip(s@, a, b, i as int);
        assert(s@.skip(i as int) =~= s@.subrange(i as int, s@.len() as int));
    }
    slice_of(s, i, s.len())
}

/// Copy of `s` with every byte equal to `a` or `b` removed from both ends.
pub fn trim_edge_bytes(s: &Vec<u8>, a: u8, b: u8) -> (r: Vec<u8>)
    ensures
        r@ == drop_back(drop_front(s@, a, b), a, b),
{
    let mut i: usize = 0;
    while i < s.len() && (s[i] == a || s[i] == b)
        invariant
            i <= s@.len(),
            forall|j: int| 0 <= j < i ==> (#[trigger] s@[j] == a || s@[j] == b),
        decreases s@.len() - i,
    {
        i = i + 1;
    }
    proof {
        lemma_drop_front_skip(s@, a, b, i as int);
    }
    let mut e: usize = s.len();
    while e > i && (s[e - 1] == a || s[e - 1] == b)
        invariant
            i <= e <= s@.len(),
            forall|k: int| e <= k < s@.len() ==> (#[trigger] s@[k] == a || s@[k] == b),
        decreases e,
    {
        e = e - 1;
    }
    proof {
        let f = s@.skip(i as int);
        if e == i {
            lemma_drop_back_take(f, a, b, 0);
        } else {
            lemma_drop_back_take(f, a, b, e - i);
        }
        assert(f.take(e - i) =~= s@.subrange(i as int, e as int));
    }
    slice_of(s, i, e)
}

/// The rest of `s` after the prefix `p`, when `s` starts with `p`.
pub fn strip_prefix_of(s: &Vec<u8>, p: &Vec<u8>) -> (r: Option<Vec<u8>>)
    ensures
        spec_starts_with(s@, p@) ==> (r matches Some(rest) && rest@ == s@.skip(p@.len() as int)),
        !spec_starts_with(s@, p@) ==> r is None,
{
    if starts_with(s, p) {
        proof {
            assert(s@.skip(p@.len() as int) =~= s@.subrange(p@.len() as int, s@.len() as int));
        }
        Some(slice_of(s, p.len(), s.len()))
    } else {
        None
    }
}

/// Split of `s` on `sep` into at most `n` pieces; the last piece keeps
/// the rest of `s`, separators included.
pub open spec fn spec_splitn(s: Seq<u8>, sep: u8, n: nat) -> Seq<Seq<u8>>
    decreases n,
    via spec_splitn_decreases
{
    if n <= 1 {
        seq![s]
    } else {
        let i = first_index(s, sep);
        if i == s.len() {
            seq![s]
        } else {
            seq![s.take(i)] + spec_splitn(s.skip(i + 1), sep, (n - 1) as nat)
        }
    }
}

#[via_fn]
proof fn spec_splitn_decreases(s: Seq<u8>, sep: u8, n: nat) {
    lemma_first_index(s, sep);
}

/// Splits `s` on `sep` into at most `n` pieces.
pub fn splitn_all(s: &Vec<u8>, sep: u8, n: usize) -> (r: Vec<Vec<u8>>)
    requires
        n >= 1,
    ensures
        r@.map_values(|p: Vec<u8>| p@) == spec_splitn(s@, sep, n as nat),
{
    let mut rest: Vec<u8> = slice_of(s, 0, s.len());
    proof {
        assert(rest@ =~= s@);
    }
    let mut out: Vec<Vec<u8>> = Vec::new();
    let mut left: usize = n;
    proof {
        assert(out@.map_values(|p: Vec<u8>| p@) =~= Seq::<Seq<u8>>::empty());
        assert(Seq::<Seq<u8>>::empty() + spec_splitn(rest@, sep, left as nat) =~= spec_splitn(
            rest@,
            sep,
            left as nat,
        ));
    }
    loop
        invariant
            1 <= left <= n,
            spec_splitn(s@, sep, n as nat) == out@.map_values(|p: Vec<u8>| p@) + spec_splitn(
                rest@,
                sep,
                left as nat,
            ),
        decreases left,
    {
        let ghost out0 = out@.map_values(|p: Vec<u8>| p@);
        if left == 1 {
            out.push(rest);
            proof {
                assert(out@.map_values(|p: Vec<u8>| p@) =~= out0.push(out@.last()@));
            }
            return out;
        }
        let i = find_byte(&rest, sep);
        if i == rest.len() {
            out.push(rest);
            proof {
                assert(out@.map_values(|p: Vec<u8>| p@) =~= out0.push(out@.last()@));
            }
            return out;
        }
        let head = slice_of(&rest, 0, i);
        let tail = slice_of(&rest, i + 1, rest.len());
        proof {
            assert(head@ =~= rest@.take(i as int));
            assert(tail@ =~= rest@.skip(i + 1 as int));
        }
        out.push(head);
        proof {
            assert(out@.map_values(|p: Vec<u8>| p@) =~= out0.push(out@.last()@));
            assert(out0.push(rest@.take(i as int)) + spec_splitn(
                rest@.skip(i + 1 as int),
                sep,
                (left - 1) as nat,
            ) =~= out0 + (seq![rest@.take(i as int)] + spec_splitn(
                rest@.skip(i + 1 as int),
                sep,
                (left - 1) as nat,
            )));
        }
        rest = tail;
        left = left - 1;
    }
}

/// Index of the first occurrence of `p` as a contiguous run of `s`, or
/// `-1` if there is none.
pub open spec fn first_sub(s: Seq<u8>, p: Seq<u8>) -> int
    decreases s.len(),
    via first_sub_decreases
{
    if p.len() > s.len() {
        -1
    } else if s.take(p.len() as int) == p {
        0
    } else {
        let r = first_sub(s.skip(1), p);
        if r < 0 {
            -1
        } else {
            1 + r
        }
    }
}

#[via_fn]
proof fn first_sub_decreases(s: Seq<u8>, p: Seq<u8>) {
    if p.len() <= s.len() && s.len() == 0 {
        assert(s.take(p.len() as int) =~= p);
    }
}

pub proof fn lemma_first_sub(s: Seq<u8>, p: Seq<u8>)
    ensures
        first_sub(s, p) >= 0 ==> 0 <= first_sub(s, p) <= s.len() - p.len() && s.subrange(
            first_sub(s, p),
            first_sub(s, p) + p.len(),
        ) == p,
        first_sub(s, p) < 0 ==> !spec_contains_seq(s, p),
        forall|k: int|
            0 <= k && (first_sub(s, p) < 0 || k < first_sub(s, p)) && k + p.len() <= s.len()
                ==> #[trigger] s.subrange(k, k + p.len()) != p,
    decreases s.len(),
{
    if p.len() > s.len() {
    } else if s.take(p.len() as int) == p {
        assert(s.subrange(0, p.len() as int) =~= s.take(p.len() as int));
    } else {
        assert(s.len() > 0) by {
            if s.len() == 0 {
                assert(s.take(p.len() as int) =~= p);
            }
        }
        lemma_first_sub(s.skip(1), p);
        assert(s.subrange(0, p.len() as int) =~= s.take(p.len() as int));
        assert forall|k: int|
            0 <= k && (first_sub(s, p) < 0 || k < first_sub(s, p)) && k + p.len()
                <= s.len() implies #[trigger] s.subrange(k, k + p.len()) != p by {
            if k > 0 {
                assert(s.skip(1).subrange(k - 1, k - 1 + p.len()) =~= s.subrange(k, k + p.len()));
            }
        }
        if first_sub(s, p) >= 0 {
            let r = first_sub(s.skip(1), p);
            assert forall|t: int| 0 <= t < p.len() implies #[trigger] s.subrange(
                r + 1,
                r + 1 + p.len(),
            )[t] == s.skip(1).subrange(r, r + p.len())[t] by {
                assert(s.subrange(r + 1, r + 1 + p.len())[t] == s[r + 1 + t]);
                assert(s.skip(1).subrange(r, r + p.len())[t] == s.skip(1)[r + t]);
                assert(s.skip(1)[r + t] == s[r + 1 + t]);
            }
            assert(s.subrange(r + 1, r + 1 + p.len()) =~= s.skip(1).subrange(r, r + p.len()));
        }
        if first_sub(s, p) < 0 {
            if spec_contains_seq(s, p) {
                let k = choose|k: int|
                    0 <= k <= s.len() - p.len() && #[trigger] s.subrange(k, k + p.len()) == p;
            }
        }
    }
}

/// Index of the first occurrence of `p` in `s`, if there is one.
pub fn find_sub(s: &Vec<u8>, p: &Vec<u8>) -> (r: Option<usize>)
    ensures
        first_sub(s@, p@) >= 0 ==> (r matches Some(i) && i == first_sub(s@, p@)),
        first_sub(s@, p@) < 0 ==> r is None,
{
    proof {
        lemma_first_sub(s@, p@);
    }
    if p.len() > s.len() {
        return None;
    }
    if p.len() == 0 {
        proof {
            assert(s@.take(p@.len() as int) =~= p@);
        }
        return Some(0);
    }
    let last_start: usize = s.len() - p.len();
    let mut i: usize = 0;
    while i <= last_start
        invariant
            1 <= p@.len() <= s@.len(),
            s@.len() == s.len(),
            last_start == s@.len() - p@.len(),
            i <= last_start + 1,
            forall|k: int| 0 <= k < i ==> #[trigger] s@.subrange(k, k + p@.len()) != p@,
        decreases last_start + 1 - i,
    {
        if match_at(s, p, i) {
            proof {
                lemma_first_sub(s@, p@);
                if first_sub(s@, p@) < 0 || first_sub(s@, p@) > i {
                    assert(s@.subrange(i as int, i + p@.len()) != p@);
                }
                if first_sub(s@, p@) < i {
                    assert(s@.subrange(first_sub(s@, p@), first_sub(s@, p@) + p@.len()) == p@);
                }
            }
            return Some(i);
        }
        i = i + 1;
    }
    proof {
        lemma_first_sub(s@, p@);
        if first_sub(s@, p@) >= 0 {
            assert(s@.subrange(first_sub(s@, p@), first_sub(s@, p@) + p@.len()) == p@);
        }
    }
    None
}

/// Index of the first byte of `s` that is not a decimal digit, or
/// `s.len()` if all are.
pub open spec fn first_nondigit(s: Seq<u8>) -> int
    decreases s.len(),
{
    if s.len() == 0 {
        0
    } else if !is_digit(s[0]) {
        0
    } else {
        1 + first_nondigit(s.skip(1))
    }
}

pub proof fn lemma_first_nondigit_is(s: Seq<u8>, i: int)
    requires
        0 <= i <= s.len(),
        i < s.len() ==> !is_digit(s[i]),
        forall|j: int| 0 <= j < i ==> is_digit(#[trigger] s[j]),
    ensures
        first_nondigit(s) == i,
    decreases i,
{
    if s.len() == 0 {
    } else if !is_digit(s[0]) {
        assert(i == 0);
    } else {
        lemma_first_nondigit_is(s.skip(1), i - 1);
    }
}

/// The leading run of decimal digits of `s`.
pub fn leading_digits(s: &Vec<u8>) -> (r: Vec<u8>)
    ensures
        r@ == s@.take(first_nondigit(s@)),
{
    let mut i: usize = 0;
    while i < s.len() && 48 <= s[i] && s[i] <= 57
        invariant
            i <= s@.len(),
            forall|j: int| 0 <= j < i ==> is_digit(#[trigger] s@[j]),
        decreases s@.len() - i,
    {
        i = i + 1;
    }
    proof {
        lemma_first_nondigit_is(s@, i as int);
    }
    let r = slice_of(s, 0, i);
    proof {
        assert(r@ =~= s@.take(i as int));
    }
    r
}

/// Filtering an empty sequence gives an empty sequence.
pub proof fn lemma_filter_empty<A>(pred: spec_fn(A) -> bool)
    ensures
        Seq::<A>::empty().filter(pred) == Seq::<A>::empty(),
{
    reveal(Seq::filter);
}

/// How `filter` grows when one element is appended.
pub proof fn lemma_filter_snoc<A>(s: Seq<A>, x: A, pred: spec_fn(A) -> bool)
    ensures
        (s + seq![x]).filter(pred) == if pred(x) {
            s.filter(pred).push(x)
        } else {
            s.filter(pred)
        },
{
    reveal(Seq::filter);
    let w = s + seq![x];
    assert(w.drop_last() =~= s);
    assert(w.last() == x);
    if pred(x) {
        assert(w.filter(pred) =~= s.filter(pred).push(x));
    } else {
        assert(w.filter(pred) =~= s.filter(pred));
    }
}

/// A sequence without a satisfying element filters to nothing.
pub proof fn lemma_filter_none<A>(s: Seq<A>, pred: spec_fn(A) -> bool)
    requires
        forall|j: int| 0 <= j < s.len() ==> !pred(#[trigger] s[j]),
    ensures
        s.filter(pred) == Seq::<A>::empty(),
    decreases s.len(),
{
    reveal(Seq::filter);
    if s.len() > 0 {
        lemma_filter_none(s.drop_last(), pred);
    }
}

/// Lower-cases one ASCII byte; other bytes are unchanged.
pub open spec fn spec_lower(b: u8) -> u8 {
    if 65 <= b <= 90 {
        (b + 32) as u8
    } else {
        b
    }
}

/// ASCII lower-casing of a byte string.
pub fn to_lower(s: &Vec<u8>) -> (r: Vec<u8>)
    ensures
        r@ == s@.map_values(|b: u8| spec_lower(b)),
{
    let mut r: Vec<u8> = Vec::new();
    let mut i: usize = 0;
    while i < s.len()
        invariant
            i <= s@.len(),
            r@ == s@.take(i as int).map_values(|b: u8| spec_lower(b)),
        decreases s@.len() - i,
    {
        let b = s[i];
        if 65 <= b && b <= 90 {
            r.push(b + 32);
        } else {
            r.push(b);
        }
        i = i + 1;
        proof {
            assert(r@ =~= s@.take(i as int).map_values(|b: u8| spec_lower(b)));
        }
    }
    proof {
        assert(s@.take(i as int) =~= s@);
    }
    r
}

/// Value of a digit string read as decimal.
pub open spec fn dec_val(s: Seq<u8>) -> nat
    decreases s.len(),
{
    if s.len() == 0 {
        0
    } else {
        (dec_val(s.drop_last()) * 10 + (s.last() - 48)) as nat
    }
}

/// Digits of `s`, with one optional leading `+` removed.
pub open spec fn strip_plus(s: Seq<u8>) -> Seq<u8> {
    if s.len() > 0 && s[0] == 43 {
        s.skip(1)
    } else {
        s
    }
}

/// The unsigned decimal grammar: an optional `+`, then one or more digits,
/// whose value fits the target type.
pub open spec fn spec_parse_u32(s: Seq<u8>) -> Option<u32> {
    let d = strip_plus(s);
    if d.len() > 0 && all_digits(d) && dec_val(d) <= u32::MAX {
        Some(dec_val(d) as u32)
    } else {
        None
    }
}

proof fn lemma_dec_val_grows(s: Seq<u8>, i: int)
    requires
        0 <= i <= s.len(),
        all_digits(s),
    ensures
        dec_val(s.take(i)) <= dec_val(s),
    decreases s.len() - i,
{
    if i < s.len() {
        lemma_dec_val_grows(s, i + 1);
        assert(s.take(i + 1).drop_last() =~= s.take(i));
        assert(s.take(i + 1).last() == s[i]);
        assert(is_digit(s[i]));
        assert(dec_val(s.take(i)) <= dec_val(s.take(i)) * 10 + (s[i] - 48));
    } else {
        assert(s.take(i) =~= s);
    }
}

/// Parses an unsigned decimal number, as `u32::from_str` accepts it.
pub fn parse_u32(s: &Vec<u8>) -> (r: Option<u32>)
    ensures
        r == spec_parse_u32(s@),
{
    let mut i: usize = 0;
    if s.len() > 0 && s[0] == 43 {
        i = 1;
    }
    let ghost d = strip_plus(s@);
    proof {
        assert(d =~= s@.skip(i as int));
    }
    if i == s.len() {
        return None;
    }
    let start = i;
    let mut acc: u32 = 0;
    while i < s.len()
        invariant
            start <= i <= s@.len(),
            start < s@.len(),
            d == strip_plus(s@),
            d == s@.skip(start as int),
            all_digits(d.take(i - start)),
            acc == dec_val(d.take(i - start)),
        decreases s@.len() - i,
    {
        let b = s[i];
        if b < 48 || b > 57 {
            assert(!is_digit(d[i - start]));
            return None;
        }
        proof {
            assert(d.take(i - start + 1).drop_last() =~= d.take(i - start));
            assert(d.take(i - start + 1).last() == d[i - start]);
        }
        let shifted = match acc.checked_mul(10) {
            Some(v) => v,
            None => {
                proof {
                    assert(dec_val(d.take(i - start + 1)) > u32::MAX);
                }
                return finish_overflow(s, Ghost(d), Ghost(i - start + 1));
            },
        };
        let acc2 = match shifted.checked_add((b - 48) as u32) {
            Some(v) => v,
            None => {
                proof {
                    assert(dec_val(d.take(i - start + 1)) > u32::MAX);
                }
                return finish_overflow(s, Ghost(d), Ghost(i - start + 1));
            },
        };
        acc = acc2;
        i = i + 1;
    }
    proof {
        assert(d.take(i - start) =~= d);
    }
    Some(acc)
}

/// Consumes the rest of the digits after the accumulator has overflowed,
/// so that the outcome matches the grammar exactly: an overflowing digit
/// string parses to `None` whatever follows, and a malformed one stays
/// malformed.
fn finish_overflow(s: &Vec<u8>, d: Ghost<Seq<u8>>, k: Ghost<int>) -> (r: Option<u32>)
    requires
        0 <= k@ <= d@.len(),
        all_digits(d@.take(k@)),
        dec_val(d@.take(k@)) > u32::MAX,
        d@ == strip_plus(s@),
    ensures
        r == spec_parse_u32(s@),
{
    proof {
        if all_digits(d@) {
            lemma_dec_val_grows(d@, k@);
        }
    }
    None
}

/// Parses an unsigned decimal number that must fit in `u8`.
pub open spec fn spec_parse_u8(s: Seq<u8>) -> Option<u8> {
    let d = strip_plus(s);
    if d.len() > 0 && all_digits(d) && dec_val(d) <= u8::MAX {
        Some(dec_val(d) as u8)
    } else {
        None
    }
}

pub fn parse_u8(s: &Vec<u8>) -> (r: Option<u8>)
    ensures
        r == spec_parse_u8(s@),
{
    match parse_u32(s) {
        Some(v) => {
            if v <= 255 {
                Some(v as u8)
            } else {
                None
            }
        },
        None => {
            proof {
                let d = strip_plus(s@);
                if d.len() > 0 && all_digits(d) && dec_val(d) <= u8::MAX {
                    assert(dec_val(d) <= u32::MAX);
                }
            }
            None
        },
    }
}

/// The signed decimal grammar of `i32::from_str`: an optional sign,
/// then one or more digits, in range.
pub open spec fn spec_parse_i32(s: Seq<u8>) -> Option<i32> {
    if s.len() > 0 && s[0] == 45 {
        let d = s.skip(1);
        if d.len() > 0 && all_digits(d) && dec_val(d) <= 0x8000_0000 {
            Some((-(dec_val(d) as int)) as i32)
        } else {
            None
        }
    } else {
        let d = strip_plus(s);
        if d.len() > 0 && all_digits(d) && dec_val(d) <= i32::MAX {
            Some(dec_val(d) as i32)
        } else {
            None
        }
    }
}

pub fn parse_i32(s: &Vec<u8>) -> (r: Option<i32>)
    ensures
        r == spec_parse_i32(s@),
{
    if s.len() > 0 && s[0] == 45 {
        let rest = slice_of(s, 1, s.len());
        proof {
            assert(rest@ =~= s@.skip(1));
        }
        if rest.len() > 0 && rest[0] == 43 {
            assert(!is_digit(s@.skip(1)[0]));
            return None;
        }
        match parse_u32(&rest) {
            Some(v) => {
                if v <= 0x8000_0000u32 as u32 {
                    if v == 0x8000_0000u32 {
                        Some(i32::MIN)
                    } else {
                        Some(-(v as i32))
                    }
                } else {
                    None
                }
            },
            None => {
                proof {
                    let d = s@.skip(1);
                    if d.len() > 0 && all_digits(d) && dec_val(d) <= 0x8000_0000 {
                        assert(dec_val(d) <= u32::MAX);
                    }
                }
                None
            },
        }
    } else {
        match parse_u32(s) {
            Some(v) => {
                if v <= i32::MAX as u32 {
                    Some(v as i32)
                } else {
                    None
                }
            },
            None => {
                proof {
                    let d = strip_plus(s@);
                    if d.len() > 0 && all_digits(d) && dec_val(d) <= i32::MAX {
                        assert(dec_val(d) <= u32::MAX);
                    }
                }
                None
            },
        }
    }
}

} // verus!
