//! What replacement means, as functions on text, and the facts about them
//! that the streaming matchers rest on.
use vstd::prelude::*;

verus! {

/// `r` put before every character of `s`.
pub open spec fn spread(s: Seq<char>, r: Seq<char>) -> Seq<char>
    decreases s.len(),
{
    if s.len() == 0 {
        Seq::empty()
    } else {
        r + seq![s[0]] + spread(s.drop_first(), r)
    }
}

/// `s` with every `c` turned into `r`.
pub open spec fn replace_char(s: Seq<char>, c: char, r: Seq<char>) -> Seq<char>
    decreases s.len(),
{
    if s.len() == 0 {
        Seq::empty()
    } else if s[0] == c {
        r + replace_char(s.drop_first(), c, r)
    } else {
        seq![s[0]] + replace_char(s.drop_first(), c, r)
    }
}

/// `s` with the occurrences of `p` turned into `r`, found by one scan from
/// the left: where `p` occurs at the scan position it is replaced and the scan
/// goes on behind it, so replaced occurrences never overlap and text that a
/// replacement brought in is not scanned again. Elsewhere the character at
/// the scan position is kept.
///
/// The empty pattern occurs before every character and at the end.
pub open spec fn replace_all(s: Seq<char>, p: Seq<char>, r: Seq<char>) -> Seq<char>
    decreases s.len(),
{
    if p.len() == 0 {
        spread(s, r) + r
    } else if s.len() < p.len() {
        s
    } else if s.subrange(0, p.len() as int) == p {
        r + replace_all(s.skip(p.len() as int), p, r)
    } else {
        seq![s[0]] + replace_all(s.drop_first(), p, r)
    }
}

/// Whether `p` occurs in `s` at position `j`.
pub open spec fn occurs_at(s: Seq<char>, p: Seq<char>, j: int) -> bool {
    0 <= j && j + p.len() <= s.len() && s.subrange(j, j + p.len()) == p
}

/// Whether the first `k` characters of `p` are also the last `k` of its first
/// `h`, for a `k` below `h`.
pub open spec fn is_border(p: Seq<char>, h: int, k: int) -> bool {
    0 <= k < h <= p.len() && p.take(k) == p.subrange(h - k, h)
}

/// The largest `k` for which `is_border(p, h, k)` holds, searched from `k`
/// down.
pub open spec fn longest_border_upto(p: Seq<char>, h: int, k: int) -> int
    decreases k,
{
    if k <= 0 {
        0
    } else if is_border(p, h, k) {
        k
    } else {
        longest_border_upto(p, h, k - 1)
    }
}

/// How much of a failed candidate of `h` characters can still begin an
/// occurrence: the longest proper suffix of the first `h` characters of `p`
/// that is a prefix of `p`.
pub open spec fn longest_border(p: Seq<char>, h: int) -> int {
    longest_border_upto(p, h, h - 1)
}

pub proof fn lemma_longest_border_upto(p: Seq<char>, h: int, k: int)
    requires
        0 <= k < h <= p.len(),
    ensures
        is_border(p, h, longest_border_upto(p, h, k)),
        longest_border_upto(p, h, k) <= k,
        forall|j: int| longest_border_upto(p, h, k) < j <= k ==> !is_border(p, h, j),
    decreases k,
{
    if k <= 0 {
        assert(p.take(0) =~= p.subrange(h, h));
    } else if !is_border(p, h, k) {
        lemma_longest_border_upto(p, h, k - 1);
    }
}

/// `longest_border` is a border and no border is longer.
pub proof fn lemma_longest_border(p: Seq<char>, h: int)
    requires
        0 < h <= p.len(),
    ensures
        is_border(p, h, longest_border(p, h)),
        forall|j: int| is_border(p, h, j) ==> j <= longest_border(p, h),
{
    lemma_longest_border_upto(p, h, h - 1);
}

pub proof fn lemma_spread_concat(a: Seq<char>, b: Seq<char>, r: Seq<char>)
    ensures
        spread(a + b, r) == spread(a, r) + spread(b, r),
    decreases a.len(),
{
    if a.len() > 0 {
        lemma_spread_concat(a.drop_first(), b, r);
        assert((a + b).drop_first() =~= a.drop_first() + b);
    }
}

pub proof fn lemma_spread_one(c: char, r: Seq<char>)
    ensures
        spread(seq![c], r) == r + seq![c],
{
    reveal_with_fuel(spread, 2);
}

pub proof fn lemma_replace_char_concat(a: Seq<char>, b: Seq<char>, c: char, r: Seq<char>)
    ensures
        replace_char(a + b, c, r) == replace_char(a, c, r) + replace_char(b, c, r),
    decreases a.len(),
{
    if a.len() > 0 {
        lemma_replace_char_concat(a.drop_first(), b, c, r);
        assert((a + b).drop_first() =~= a.drop_first() + b);
    }
}

/// Text without `c` is left as it is.
pub proof fn lemma_replace_char_absent(a: Seq<char>, c: char, r: Seq<char>)
    requires
        forall|j: int| 0 <= j < a.len() ==> a[j] != c,
    ensures
        replace_char(a, c, r) == a,
    decreases a.len(),
{
    if a.len() > 0 {
        let rest = a.drop_first();
        assert forall|j: int| 0 <= j < rest.len() implies rest[j] != c by {
            assert(rest[j] == a[j + 1]);
        }
        lemma_replace_char_absent(rest, c, r);
    }
}

pub proof fn lemma_replace_char_one(c: char, r: Seq<char>)
    ensures
        replace_char(seq![c], c, r) == r,
{
    reveal_with_fuel(replace_char, 2);
}

/// Where no occurrence begins within `x`, the scan keeps `x` and goes on
/// behind it.
pub proof fn lemma_replace_all_skip(x: Seq<char>, y: Seq<char>, p: Seq<char>, r: Seq<char>)
    requires
        p.len() > 0,
        forall|j: int| 0 <= j < x.len() ==> !occurs_at(x + y, p, j),
    ensures
        replace_all(x + y, p, r) == x + replace_all(y, p, r),
    decreases x.len(),
{
    let s = x + y;
    if x.len() > 0 {
        assert(!occurs_at(s, p, 0));
        if s.len() >= p.len() {
            let x1 = x.drop_first();
            assert(s.drop_first() =~= x1 + y);
            assert forall|j: int| 0 <= j < x1.len() implies !occurs_at(x1 + y, p, j) by {
                assert(!occurs_at(s, p, j + 1));
                if j + 1 + p.len() <= s.len() {
                    assert((x1 + y).subrange(j, j + p.len()) =~= s.subrange(
                        j + 1,
                        j + 1 + p.len(),
                    ));
                }
            }
            lemma_replace_all_skip(x1, y, p, r);
        }
    }
}

/// An occurrence at the scan position is replaced.
pub proof fn lemma_replace_all_hit(y: Seq<char>, p: Seq<char>, r: Seq<char>)
    requires
        p.len() > 0,
    ensures
        replace_all(p + y, p, r) == r + replace_all(y, p, r),
{
    let s = p + y;
    assert(s.subrange(0, p.len() as int) =~= p);
    assert(s.skip(p.len() as int) =~= y);
}

/// What a scan of `s` leaves unread when `s` ends: the scan stops where
/// fewer characters are left than the pattern has. What it leaves lies behind
/// every occurrence that the scan has replaced.
pub open spec fn remainder(s: Seq<char>, p: Seq<char>) -> Seq<char>
    decreases s.len(),
{
    if p.len() == 0 || s.len() < p.len() {
        s
    } else if s.subrange(0, p.len() as int) == p {
        remainder(s.skip(p.len() as int), p)
    } else {
        remainder(s.drop_first(), p)
    }
}

/// Whether the last `k` characters of `t` are the first `k` of `p`.
pub open spec fn is_overlap(t: Seq<char>, p: Seq<char>, k: int) -> bool {
    0 <= k <= t.len() && k <= p.len() && t.skip(t.len() - k) == p.take(k)
}

/// The largest `j` up to `k` for which `is_overlap(t, p, j)` holds.
pub open spec fn overlap_upto(t: Seq<char>, p: Seq<char>, k: int) -> int
    decreases k,
{
    if k <= 0 {
        0
    } else if is_overlap(t, p, k) {
        k
    } else {
        overlap_upto(t, p, k - 1)
    }
}

/// How many characters at the end of `t` begin the pattern: the length of
/// the candidate that a text ending with `t` ends with.
pub open spec fn overlap(t: Seq<char>, p: Seq<char>) -> int {
    overlap_upto(t, p, t.len() as int)
}

pub proof fn lemma_overlap_upto(t: Seq<char>, p: Seq<char>, k: int)
    requires
        0 <= k <= t.len(),
    ensures
        is_overlap(t, p, overlap_upto(t, p, k)),
        0 <= overlap_upto(t, p, k) <= k,
        forall|j: int| overlap_upto(t, p, k) < j <= k ==> !is_overlap(t, p, j),
    decreases k,
{
    if k <= 0 {
        assert(t.skip(t.len() as int) =~= p.take(0));
    } else if !is_overlap(t, p, k) {
        lemma_overlap_upto(t, p, k - 1);
    }
}

/// `overlap` is an overlap and no overlap is longer.
pub proof fn lemma_overlap(t: Seq<char>, p: Seq<char>)
    ensures
        is_overlap(t, p, overlap(t, p)),
        forall|j: int| is_overlap(t, p, j) ==> j <= overlap(t, p),
{
    lemma_overlap_upto(t, p, t.len() as int);
}

/// The beginning of the pattern overlaps the pattern with all it has.
pub proof fn lemma_overlap_of_prefix(p: Seq<char>, h: int)
    requires
        0 <= h <= p.len(),
    ensures
        overlap(p.take(h), p) == h,
{
    let t = p.take(h);
    assert(t.skip(0) =~= p.take(h));
}

/// What a scan leaves unread is shorter than the pattern.
pub proof fn lemma_remainder_short(s: Seq<char>, p: Seq<char>)
    requires
        p.len() > 0,
    ensures
        remainder(s, p).len() < p.len(),
    decreases s.len(),
{
    if s.len() < p.len() {
    } else if s.subrange(0, p.len() as int) == p {
        lemma_remainder_short(s.skip(p.len() as int), p);
    } else {
        lemma_remainder_short(s.drop_first(), p);
    }
}

/// A scan of more text goes on from what the scan of the text before left
/// unread.
pub proof fn lemma_remainder_feed(c: Seq<char>, x: Seq<char>, p: Seq<char>)
    requires
        p.len() > 0,
    ensures
        remainder(c + x, p) == remainder(remainder(c, p) + x, p),
    decreases c.len(),
{
    let s = c + x;
    let n = p.len() as int;
    if c.len() >= p.len() {
        assert(s.subrange(0, n) =~= c.subrange(0, n));
        if c.subrange(0, n) == p {
            assert(s.skip(n) =~= c.skip(n) + x);
            lemma_remainder_feed(c.skip(n), x, p);
        } else {
            assert(s.drop_first() =~= c.drop_first() + x);
            lemma_remainder_feed(c.drop_first(), x, p);
        }
    }
}

/// Text in which no occurrence can begin, whatever comes behind, has no part
/// in the candidate that the text ends with.
pub proof fn lemma_overlap_skip(x: Seq<char>, y: Seq<char>, p: Seq<char>)
    requires
        p.len() > 0,
        forall|t: Seq<char>, j: int| 0 <= j < x.len() ==> !#[trigger] occurs_at(x + (y + t), p, j),
    ensures
        overlap(remainder(x + y, p), p) == overlap(remainder(y, p), p),
    decreases x.len(),
{
    let s = x + y;
    let e = Seq::<char>::empty();
    if x.len() == 0 {
    } else if s.len() >= p.len() {
        assert(!occurs_at(x + (y + e), p, 0));
        let x1 = x.drop_first();
        assert(s.drop_first() =~= x1 + y);
        assert forall|t: Seq<char>, j: int| 0 <= j < x1.len() implies !#[trigger] occurs_at(
            x1 + (y + t),
            p,
            j,
        ) by {
            assert(!occurs_at(x + (y + t), p, j + 1));
            if j + 1 + p.len() <= (x + (y + t)).len() {
                assert((x1 + (y + t)).subrange(j, j + p.len()) =~= (x + (y + t)).subrange(
                    j + 1,
                    j + 1 + p.len(),
                ));
            }
        }
        lemma_overlap_skip(x1, y, p);
    } else {
        lemma_overlap(s, p);
        lemma_overlap(y, p);
        let k = overlap(s, p);
        if k > y.len() {
            let j = s.len() - k;
            let t = p.skip(k);
            let whole = x + (y + t);
            assert(!occurs_at(whole, p, j));
            assert(whole.subrange(j, j + p.len()) =~= s.skip(j) + t);
            assert(p.take(k) + p.skip(k) =~= p);
        } else {
            assert(s.skip(s.len() - k) =~= y.skip(y.len() - k));
            assert(is_overlap(y, p, k));
        }
        let m = overlap(y, p);
        assert(s.skip(s.len() - m) =~= y.skip(y.len() - m));
        assert(is_overlap(s, p, m));
    }
}

/// What matters of the text read so far is the candidate it ends with: after
/// more text, the candidate is the one that the old candidate and the new
/// text give.
pub proof fn lemma_overlap_feed(c: Seq<char>, x: Seq<char>, p: Seq<char>)
    requires
        p.len() > 0,
    ensures
        overlap(remainder(c + x, p), p) == overlap(
            remainder(p.take(overlap(remainder(c, p), p)) + x, p),
            p,
        ),
{
    let t = remainder(c, p);
    let k = overlap(t, p);
    let junk = t.take(t.len() - k);
    let y = p.take(k) + x;
    lemma_remainder_feed(c, x, p);
    lemma_remainder_short(c, p);
    lemma_overlap(t, p);
    assert(junk + y =~= t + x);
    assert forall|u: Seq<char>, j: int| 0 <= j < junk.len() implies !#[trigger] occurs_at(
        junk + (y + u),
        p,
        j,
    ) by {
        let whole = junk + (y + u);
        if occurs_at(whole, p, j) {
            assert(whole.subrange(j, j + p.len()).take(t.len() - j) =~= t.skip(j));
            assert(is_overlap(t, p, t.len() - j));
        }
    }
    lemma_overlap_skip(junk, y, p);
}

/// The state of a scan that has read `seen`: it has put out `out` and still
/// holds `held`, undecided. Whatever text comes next, the scan of all the text
/// gives `out` and then what a scan of `held` and the coming text gives; and
/// `held` ends with the same candidate as `seen`.
#[verifier::opaque]
pub open spec fn carries(
    seen: Seq<char>,
    out: Seq<char>,
    held: Seq<char>,
    p: Seq<char>,
    r: Seq<char>,
) -> bool {
    &&& forall|t: Seq<char>| #[trigger]
        replace_all(seen + t, p, r) == out + replace_all(held + t, p, r)
    &&& overlap(remainder(seen, p), p) == overlap(remainder(held, p), p)
}

pub proof fn lemma_carries_start(p: Seq<char>, r: Seq<char>)
    ensures
        carries(Seq::empty(), Seq::empty(), Seq::empty(), p, r),
{
    reveal(carries);
    assert forall|t: Seq<char>| #[trigger]
        replace_all(Seq::<char>::empty() + t, p, r) == Seq::<char>::empty() + replace_all(
            Seq::<char>::empty() + t,
            p,
            r,
        ) by {
        assert(Seq::<char>::empty() + replace_all(Seq::<char>::empty() + t, p, r) =~= replace_all(
            Seq::<char>::empty() + t,
            p,
            r,
        ));
    }
}

/// Reading `x` adds it to what is held.
pub proof fn lemma_carries_feed(
    seen: Seq<char>,
    out: Seq<char>,
    held: Seq<char>,
    x: Seq<char>,
    p: Seq<char>,
    r: Seq<char>,
)
    requires
        p.len() > 0,
        carries(seen, out, held, p, r),
    ensures
        carries(seen + x, out, held + x, p, r),
{
    reveal(carries);
    assert forall|t: Seq<char>| #[trigger]
        replace_all((seen + x) + t, p, r) == out + replace_all((held + x) + t, p, r) by {
        assert((seen + x) + t =~= seen + (x + t));
        assert((held + x) + t =~= held + (x + t));
    }
    lemma_overlap_feed(seen, x, p);
    lemma_overlap_feed(held, x, p);
}

/// Held text in which no occurrence can begin, whatever comes next, is put
/// out as it is.
pub proof fn lemma_carries_literal(
    seen: Seq<char>,
    out: Seq<char>,
    u: Seq<char>,
    rest: Seq<char>,
    p: Seq<char>,
    r: Seq<char>,
)
    requires
        p.len() > 0,
        carries(seen, out, u + rest, p, r),
        forall|t: Seq<char>, j: int|
            0 <= j < u.len() ==> !#[trigger] occurs_at(u + (rest + t), p, j),
    ensures
        carries(seen, out + u, rest, p, r),
{
    reveal(carries);
    assert forall|t: Seq<char>| #[trigger]
        replace_all(seen + t, p, r) == (out + u) + replace_all(rest + t, p, r) by {
        assert((u + rest) + t =~= u + (rest + t));
        assert forall|j: int| 0 <= j < u.len() implies !occurs_at(u + (rest + t), p, j) by {
            assert(!occurs_at(u + (rest + t), p, j));
        }
        lemma_replace_all_skip(u, rest + t, p, r);
    }
    lemma_overlap_skip(u, rest, p);
}

/// A whole occurrence that is held is replaced.
pub proof fn lemma_carries_hit(
    seen: Seq<char>,
    out: Seq<char>,
    rest: Seq<char>,
    p: Seq<char>,
    r: Seq<char>,
)
    requires
        p.len() > 0,
        carries(seen, out, p + rest, p, r),
    ensures
        carries(seen, out + r, rest, p, r),
{
    reveal(carries);
    assert forall|t: Seq<char>| #[trigger]
        replace_all(seen + t, p, r) == (out + r) + replace_all(rest + t, p, r) by {
        assert((p + rest) + t =~= p + (rest + t));
        lemma_replace_all_hit(rest + t, p, r);
    }
    assert((p + rest).subrange(0, p.len() as int) =~= p);
    assert((p + rest).skip(p.len() as int) =~= rest);
}

/// At the end of the text, what is held and too short for an occurrence is
/// text of its own.
pub proof fn lemma_carries_end(
    seen: Seq<char>,
    out: Seq<char>,
    held: Seq<char>,
    p: Seq<char>,
    r: Seq<char>,
)
    requires
        carries(seen, out, held, p, r),
        held.len() < p.len(),
    ensures
        replace_all(seen, p, r) == out + held,
        overlap(remainder(seen, p), p) == overlap(held, p),
{
    reveal(carries);
    let e = Seq::<char>::empty();
    assert(seen + e =~= seen);
    assert(held + e =~= held);
    assert(replace_all(seen + e, p, r) == out + replace_all(held + e, p, r));
}

/// Replacing a pattern of one character is replacing that character.
pub proof fn lemma_single_char_pattern(s: Seq<char>, c: char, r: Seq<char>)
    ensures
        replace_all(s, seq![c], r) == replace_char(s, c, r),
    decreases s.len(),
{
    let p = seq![c];
    if s.len() > 0 {
        lemma_single_char_pattern(s.drop_first(), c, r);
        if s[0] == c {
            assert(s.subrange(0, 1) =~= p);
        } else {
            assert(s.subrange(0, 1)[0] != p[0]);
        }
    }
}

/// Replacing a pattern by itself changes nothing.
pub proof fn lemma_replace_by_itself(s: Seq<char>, p: Seq<char>)
    ensures
        replace_all(s, p, p) == s,
    decreases s.len(),
{
    if p.len() == 0 {
        assert(p =~= Seq::<char>::empty());
        lemma_spread_nothing(s);
    } else if s.len() < p.len() {
    } else if s.subrange(0, p.len() as int) == p {
        lemma_replace_by_itself(s.skip(p.len() as int), p);
    } else {
        lemma_replace_by_itself(s.drop_first(), p);
    }
}

/// Spreading the empty text changes nothing.
pub proof fn lemma_spread_nothing(s: Seq<char>)
    ensures
        spread(s, Seq::empty()) == s,
    decreases s.len(),
{
    if s.len() > 0 {
        lemma_spread_nothing(s.drop_first());
    }
}

/// Replacing the empty pattern, one character at a time: in the empty text
/// there is the replacement alone, and each further character brings itself
/// and one more replacement behind it.
pub proof fn lemma_empty_pattern(s: Seq<char>, c: char, r: Seq<char>)
    ensures
        replace_all(Seq::empty(), Seq::empty(), r) == r,
        replace_all(s.push(c), Seq::empty(), r) == replace_all(s, Seq::empty(), r) + seq![c] + r,
        replace_all(s, Seq::empty(), r).len() == (s.len() + 1) * r.len() + s.len(),
    decreases s.len(),
{
    assert(s.push(c) =~= s + seq![c]);
    lemma_spread_concat(s, seq![c], r);
    lemma_spread_one(c, r);
    if s.len() > 0 {
        let t = s.drop_last();
        lemma_empty_pattern(t, s.last(), r);
        assert(t.push(s.last()) =~= s);
        assert((t.len() + 1) * r.len() + r.len() == (s.len() + 1) * r.len()) by (nonlinear_arith)
            requires
                t.len() + 1 == s.len(),
        ;
    } else {
        assert((s.len() + 1) * r.len() == r.len()) by (nonlinear_arith)
            requires
                s.len() == 0,
        ;
    }
}

/// Text in which the pattern does not occur is left as it is.
pub proof fn lemma_pattern_absent(s: Seq<char>, p: Seq<char>, r: Seq<char>)
    requires
        p.len() > 0,
        forall|j: int| 0 <= j < s.len() ==> !occurs_at(s, p, j),
    ensures
        replace_all(s, p, r) == s,
{
    lemma_replace_all_skip(s, Seq::empty(), p, r);
}

} // verus!
