//! The replacer of a pattern of several characters.
//!
//! It is a search that keeps no text: of a candidate it holds the length
//! only, and where a candidate fails it falls back to the longest end of the
//! candidate that can begin another one. The text comes in chunks cut at any
//! character, and the pattern may lie across them.
use vstd::prelude::*;
use vstd::string::*;
use vstd::utf8::*;
use crate::matching::{
    carries, is_border, lemma_carries_end, lemma_carries_feed, lemma_carries_hit,
    lemma_carries_literal, lemma_carries_start, lemma_longest_border, lemma_overlap_of_prefix,
    longest_border, occurs_at, overlap, remainder, replace_all,
};
use crate::replace::Session;
use crate::sink::{Sink, WriteError};
use crate::text::{
    byte_len, chars_before, find_char, first_index, lemma_boundary_chars,
    lemma_chars_before_take, lemma_encode_concat, lemma_encoded_prefix,
    lemma_first_index, lemma_prefix_bytes_grow, lemma_take_bytes, split,
};

verus! {

/// Whether `n` bytes of `a` from its start equal `n` bytes of `b` from `from`.
fn bytes_match(a: &[u8], b: &[u8], from: usize, n: usize) -> (r: bool)
    requires
        n <= a@.len(),
        from + n <= b@.len(),
    ensures
        r == (a@.subrange(0, n as int) == b@.subrange(from as int, from + n)),
{
    let mut i: usize = 0;
    let total = b.len();
    while i < n
        invariant
            i <= n <= a@.len(),
            from + n <= b@.len(),
            total == b@.len(),
            forall|j: int| 0 <= j < i ==> a@[j] == b@[from + j],
        decreases n - i,
    {
        if a[i] != b[from + i] {
            proof {
                assert(a@.subrange(0, n as int)[i as int] != b@.subrange(
                    from as int,
                    from + n,
                )[i as int]);
            }
            return false;
        }
        i += 1;
    }
    proof {
        assert(a@.subrange(0, n as int) =~= b@.subrange(from as int, from + n));
    }
    true
}

/// A border of the pattern's first `h` characters, read off its bytes: the
/// bytes before `w` repeat from byte `o` on, and `o` begins a character.
spec fn byte_border(p: Seq<char>, w: int, o: int) -> bool {
    &&& 1 <= o <= w
    &&& is_char_boundary(encode_utf8(p), o)
    &&& encode_utf8(p).subrange(0, w - o) == encode_utf8(p).subrange(o, w)
}

proof fn lemma_border_to_bytes(p: Seq<char>, h: int, j: int)
    requires
        is_border(p, h, j),
    ensures
        byte_border(
            p,
            encode_utf8(p.take(h)).len() as int,
            encode_utf8(p.take(h - j)).len() as int,
        ),
        encode_utf8(p.take(h)).len() - encode_utf8(p.take(h - j)).len() == encode_utf8(
            p.take(j),
        ).len(),
{
    let bytes = encode_utf8(p);
    let ea = encode_utf8(p.take(h - j));
    let eb = encode_utf8(p.take(j));
    let w = encode_utf8(p.take(h)).len() as int;
    let o = ea.len() as int;
    assert(encode_utf8(p.take(h)) == ea + eb) by {
        lemma_prefix_bytes_grow(p, h - j, h);
    }
    assert(o >= 1);
    assert(is_char_boundary(bytes, o)) by {
        lemma_take_bytes(p, h - j);
    }
    assert(w <= bytes.len() && bytes.subrange(0, w) == ea + eb) by {
        lemma_take_bytes(p, h);
    }
    assert(bytes.subrange(0, eb.len() as int) == eb) by {
        lemma_take_bytes(p, j);
    }
    lemma_cut_second(bytes, ea, eb);
}

/// Where a sequence begins with `a + b`, `b` lies in it behind `a`.
proof fn lemma_cut_second(s: Seq<u8>, a: Seq<u8>, b: Seq<u8>)
    requires
        a.len() + b.len() <= s.len(),
        s.subrange(0, (a.len() + b.len()) as int) == a + b,
    ensures
        s.subrange(a.len() as int, (a.len() + b.len()) as int) == b,
{
    let n = (a.len() + b.len()) as int;
    assert(s.subrange(a.len() as int, n) =~= s.subrange(0, n).subrange(a.len() as int, n));
}

proof fn lemma_border_from_bytes(p: Seq<char>, h: int, o: int)
    requires
        0 < h <= p.len(),
        byte_border(p, encode_utf8(p.take(h)).len() as int, o),
    ensures
        is_border(p, h, h - chars_before(p, o)),
        encode_utf8(p.take(h - chars_before(p, o))).len() == encode_utf8(p.take(h)).len() - o,
        encode_utf8(p.take(chars_before(p, o))).len() == o,
{
    let bytes = encode_utf8(p);
    let w = encode_utf8(p.take(h)).len() as int;
    let c0 = chars_before(p, o);
    lemma_boundary_chars(p, o);
    if c0 > h {
        lemma_prefix_bytes_grow(p, h, c0);
    }
    lemma_prefix_bytes_grow(p, c0, h);
    lemma_take_bytes(p, h);
    let x = p.subrange(c0, h);
    assert(bytes.subrange(o, w) == encode_utf8(x)) by {
        lemma_cut_second(bytes, encode_utf8(p.take(c0)), encode_utf8(x));
    }
    lemma_encoded_prefix(x, p);
}

/// No occurrence begins in text that lacks the pattern's first character.
proof fn lemma_first_absent(u: Seq<char>, rest: Seq<char>, p: Seq<char>)
    requires
        p.len() > 0,
        forall|j: int| 0 <= j < u.len() ==> u[j] != p[0],
    ensures
        forall|t: Seq<char>, j: int|
            0 <= j < u.len() ==> !#[trigger] occurs_at(u + (rest + t), p, j),
{
    assert forall|t: Seq<char>, j: int| 0 <= j < u.len() implies !#[trigger] occurs_at(
        u + (rest + t),
        p,
        j,
    ) by {
        let s = u + (rest + t);
        if occurs_at(s, p, j) {
            assert(s.subrange(j, j + p.len())[0] == u[j]);
        }
    }
}

/// Where the coming bytes differ from the bytes that the pattern goes on
/// with, the candidate is no occurrence, whatever text follows.
proof fn lemma_mismatch(p: Seq<char>, h: int, rem: Seq<char>, t: Seq<char>, d: int)
    requires
        0 <= h < p.len(),
        0 <= d < encode_utf8(rem).len(),
        encode_utf8(p.take(h)).len() + d < encode_utf8(p).len(),
        encode_utf8(rem)[d] != encode_utf8(p)[encode_utf8(p.take(h)).len() + d],
    ensures
        !occurs_at(p.take(h) + (rem + t), p, 0),
{
    let s = p.take(h) + (rem + t);
    if occurs_at(s, p, 0) {
        let m = p.len() - h;
        assert((rem + t).take(m) =~= p.skip(h));
        lemma_take_bytes(rem + t, m);
        lemma_take_bytes(p, h);
        lemma_encode_concat(rem, t);
        let w = encode_utf8(p.take(h)).len() as int;
        let mid = encode_utf8(p.skip(h)).len() as int;
        assert(encode_utf8(rem + t).subrange(0, mid)[d] == encode_utf8(p).subrange(
            w,
            encode_utf8(p).len() as int,
        )[d]);
    }
}

/// After a failed candidate, the part of it before its longest border holds
/// the beginning of no occurrence.
proof fn lemma_backoff_literal(p: Seq<char>, h: int, rem: Seq<char>, d: int)
    requires
        0 < h < p.len(),
        0 <= d < encode_utf8(rem).len(),
        encode_utf8(p.take(h)).len() + d < encode_utf8(p).len(),
        encode_utf8(rem)[d] != encode_utf8(p)[encode_utf8(p.take(h)).len() + d],
    ensures
        ({
            let k = longest_border(p, h);
            &&& 0 <= k < h
            &&& p.take(h - k) + p.take(k) == p.take(h)
            &&& forall|t: Seq<char>, j: int|
                0 <= j < h - k ==> !#[trigger] occurs_at(
                    p.take(h - k) + ((p.take(k) + rem) + t),
                    p,
                    j,
                )
        }),
{
    let k = longest_border(p, h);
    lemma_longest_border(p, h);
    assert forall|t: Seq<char>, j: int| 0 <= j < h - k implies !#[trigger] occurs_at(
        p.take(h - k) + ((p.take(k) + rem) + t),
        p,
        j,
    ) by {
        let s = p.take(h - k) + ((p.take(k) + rem) + t);
        assert(s =~= p.take(h) + (rem + t));
        if j == 0 {
            lemma_mismatch(p, h, rem, t, d);
        } else if occurs_at(s, p, j) {
            assert(p.take(h - j) =~= p.subrange(j, h));
            assert(is_border(p, h, h - j));
        }
    }
}

/// Where the coming bytes agree with the bytes that the pattern goes on with,
/// as far as either reaches, the coming characters are the pattern's next
/// ones.
proof fn lemma_agree(p: Seq<char>, h: int, rem: Seq<char>, n: int) -> (cnt: int)
    requires
        0 <= h < p.len(),
        n == encode_utf8(rem).len() || n == encode_utf8(p).len() - encode_utf8(p.take(h)).len(),
        0 <= n <= encode_utf8(rem).len(),
        encode_utf8(p.take(h)).len() + n <= encode_utf8(p).len(),
        encode_utf8(rem).subrange(0, n) == encode_utf8(p).subrange(
            encode_utf8(p.take(h)).len() as int,
            encode_utf8(p.take(h)).len() + n,
        ),
    ensures
        0 <= cnt <= rem.len(),
        h + cnt <= p.len(),
        rem.take(cnt) == p.subrange(h, h + cnt),
        encode_utf8(rem.take(cnt)).len() == n,
        encode_utf8(p.take(h + cnt)).len() == encode_utf8(p.take(h)).len() + n,
        h + cnt == p.len() <==> encode_utf8(p.take(h)).len() + n == encode_utf8(p).len(),
{
    lemma_take_bytes(p, h);
    let cnt = if n == encode_utf8(rem).len() {
        let x = p.take(h) + rem;
        lemma_encode_concat(p.take(h), rem);
        assert(encode_utf8(rem) =~= encode_utf8(rem).subrange(0, n));
        lemma_encoded_prefix(x, p);
        assert(rem =~= p.subrange(h, h + rem.len())) by {
            assert(p.subrange(0, x.len() as int).skip(h) =~= rem);
        }
        assert(rem.take(rem.len() as int) =~= rem);
        rem.len() as int
    } else {
        let y = p.skip(h);
        lemma_encoded_prefix(y, rem);
        y.len() as int
    };
    lemma_prefix_bytes_grow(p, h + cnt, p.len() as int);
    assert(p.take(p.len() as int) =~= p);
    cnt
}

/// Replaces a pattern of one or more characters by a text.
///
/// Of the text written so far, the replacer has passed on all but the end
/// that may still grow into an occurrence: some bytes at the beginning of the
/// pattern, fewer than all of them, ending with a character. It keeps their
/// number only, since the pattern itself holds the bytes.
pub struct StrReplacer<'a, W> {
    dst: W,
    /// What is looked for.
    pattern: &'a str,
    /// What is written in its place.
    replacement: &'a str,
    /// How many bytes of the pattern are held back.
    withheld: usize,
    seen: Ghost<Seq<char>>,
    start: Ghost<Seq<char>>,
}

impl<'a, W: Sink> StrReplacer<'a, W> {
    /// The number of bytes held back.
    pub closed spec fn withheld(&self) -> nat {
        self.withheld as nat
    }

    /// The characters held back: the beginning of the pattern that the
    /// withheld bytes encode.
    pub closed spec fn held(&self) -> Seq<char> {
        self.pattern@.take(chars_before(self.pattern@, self.withheld as int))
    }

    /// Whether the withheld bytes end with a character of the pattern.
    pub closed spec fn aligned(&self) -> bool {
        is_char_boundary(encode_utf8(self.pattern@), self.withheld as int)
    }

    /// What is looked for.
    pub closed spec fn pattern(&self) -> Seq<char> {
        self.pattern@
    }

    /// What the inner sink has got since the session began.
    pub closed spec fn passed(&self) -> Seq<char> {
        self.dst.text().skip(self.start@.len() as int)
    }

    /// A replacer of `pattern` by `replacement` in front of `dst`. The
    /// pattern is not empty.
    pub fn new(dst: W, pattern: &'a str, replacement: &'a str) -> (r: Self)
        requires
            dst.inv(),
            pattern@.len() > 0,
        ensures
            r.inv(),
            r.text() == Seq::<char>::empty(),
            r.withheld() == 0,
            r.setup() == (Session {
                inner: dst.setup(),
                start: dst.text(),
                pattern: pattern@,
                replacement: replacement@,
            }),
    {
        let r = StrReplacer {
            dst,
            pattern,
            replacement,
            withheld: 0,
            seen: Ghost(Seq::empty()),
            start: Ghost(dst.text()),
        };
        proof {
            let p = pattern@;
            encode_utf8_valid_utf8(p);
            assert(p.take(0) =~= Seq::<char>::empty());
            assert(r.passed() =~= Seq::<char>::empty());
            lemma_carries_start(p, replacement@);
        }
        r
    }

    /// The number of bytes held back.
    pub fn withheld_len(&self) -> (n: usize)
        ensures
            n == self.withheld(),
    {
        self.withheld
    }

    /// After a candidate of `withheld` bytes has failed: how many of its last
    /// bytes can still begin an occurrence. That is the longest of its proper
    /// ends that the pattern begins with and that begins with a character.
    pub fn backoff(&self) -> (k: usize)
        requires
            self.aligned(),
        ensures
            k == encode_utf8(
                self.pattern().take(longest_border(self.pattern(), self.held().len() as int)),
            ).len(),
            self.withheld() > 0 ==> k < self.withheld(),
    {
        let pat = self.pattern;
        let w = self.withheld;
        let bytes = pat.as_bytes();
        let ghost p = pat@;
        let ghost h = chars_before(p, w as int);
        proof {
            encode_utf8_valid_utf8(p);
            lemma_boundary_chars(p, w as int);
            if h > 0 {
                lemma_longest_border(p, h);
            }
        }
        if w < 2 {
            proof {
                if h > 0 {
                    let lb = longest_border(p, h);
                    if lb > 0 {
                        lemma_border_to_bytes(p, h, lb);
                    }
                }
            }
            return 0;
        }
        let mut offset: usize = 1;
        while offset < w
            invariant
                1 <= offset <= w,
                w == encode_utf8(p.take(h)).len(),
                0 < h <= p.len(),
                pat == self.pattern,
                w == self.withheld,
                h == chars_before(p, w as int),
                p == pat@,
                bytes@ == encode_utf8(p),
                w <= bytes@.len(),
                forall|o: int| 1 <= o < offset ==> !byte_border(p, w as int, o),
            decreases w - offset,
        {
            if pat.is_char_boundary(offset) && bytes_match(bytes, bytes, offset, w - offset) {
                proof {
                    let o = offset as int;
                    lemma_longest_border(p, h);
                    lemma_border_from_bytes(p, h, o);
                    let j = h - chars_before(p, o);
                    let lb = longest_border(p, h);
                    if lb > j {
                        lemma_border_to_bytes(p, h, lb);
                        lemma_prefix_bytes_grow(p, h - lb, h - j);
                    }
                }
                return w - offset;
            }
            offset += 1;
        }
        proof {
            let lb = longest_border(p, h);
            if lb > 0 {
                lemma_border_to_bytes(p, h, lb);
            }
        }
        0
    }

    /// The state between two steps within a chunk: `rest` of the chunk is
    /// still to be read, and `seen` is all the text up to the chunk's end.
    #[verifier::opaque]
    spec fn scanning(&self, seen: Seq<char>, rest: Seq<char>) -> bool {
        &&& self.dst.inv()
        &&& self.pattern@.len() > 0
        &&& self.aligned()
        &&& self.held().len() < self.pattern@.len()
        &&& self.start@.is_prefix_of(self.dst.text())
        &&& carries(seen, self.passed(), self.held() + rest, self.pattern@, self.replacement@)
    }

    /// Whether `self` is `other` some steps later.
    spec fn same_session(&self, other: &Self) -> bool {
        &&& self.dst.setup() == other.dst.setup()
        &&& self.pattern == other.pattern
        &&& self.replacement == other.replacement
        &&& self.seen == other.seen
        &&& self.start == other.start
    }

    /// One step with nothing held back: passes on the text before the
    /// pattern's first character and holds that character back. Returns what
    /// is left of the chunk.
    fn seek<'b>(&mut self, rest: &'b str, Ghost(seen): Ghost<Seq<char>>) -> (r: Result<
        &'b str,
        WriteError,
    >)
        requires
            old(self).scanning(seen, rest@),
            old(self).withheld == 0,
            rest@.len() > 0,
        ensures
            r matches Ok(after) ==> final(self).scanning(seen, after@) && final(self).same_session(
                old(self),
            ) && encode_utf8(after@).len() < encode_utf8(rest@).len(),
            W::infallible() ==> r is Ok,
    {
        proof {
            reveal(StrReplacer::scanning);
        }
        let pat = self.pattern;
        let pat_len = byte_len(pat);
        let first = pat.get_char(0);
        let first_len = first.len_utf8();
        let ghost p = pat@;
        let ghost rep = self.replacement@;
        let ghost rem = rest@;
        let ghost start = self.start@;
        let ghost out = self.passed();
        proof {
            assert(p.take(0) =~= Seq::<char>::empty());
            assert(p.take(1) =~= seq![first]);
            lemma_first_index(rem, first);
            lemma_chars_before_take(p, 1);
        }
        match find_char(rest, first) {
            None => {
                proof {
                    lemma_first_absent(rem, Seq::empty(), p);
                    lemma_carries_literal(seen, out, rem, Seq::empty(), p, rep);
                    assert(rem.take(rem.len() as int) =~= rem);
                }
                self.dst.write_str(rest)?;
                let (_, after) = split(rest, byte_len(rest), Ghost(rem.len() as int));
                proof {
                    assert(self.passed() =~= out + rem);
                }
                Ok(after)
            },
            Some(i) => {
                let ghost n = first_index(rem, first)->0;
                let (head, tail) = split(rest, i, Ghost(n));
                proof {
                    assert(head@ + tail@ =~= rem);
                    lemma_first_absent(head@, tail@, p);
                    lemma_carries_literal(seen, out, head@, tail@, p, rep);
                    assert(tail@.take(1) =~= p.take(1));
                }
                self.dst.write_str(head)?;
                let (_, after) = split(tail, first_len, Ghost(1));
                proof {
                    assert(self.passed() =~= out + head@);
                    assert(tail@ =~= p.take(1) + after@);
                    lemma_encode_concat(head@, tail@);
                    lemma_prefix_bytes_grow(p, 1, p.len() as int);
                    assert(p.take(p.len() as int) =~= p);
                }
                if first_len == pat_len {
                    proof {
                        lemma_carries_hit(seen, out + head@, after@, p, rep);
                    }
                    self.dst.write_str(self.replacement)?;
                    proof {
                        assert(self.passed() =~= out + head@ + rep);
                    }
                } else {
                    self.withheld = first_len;
                }
                Ok(after)
            },
        }
    }

    /// One step with a candidate held back: reads on as far as the chunk
    /// agrees with the pattern, and replaces the candidate where that
    /// completes it; or, where they differ, passes on the part of the
    /// candidate that `backoff` gives up. Returns what is left of the chunk.
    fn grow<'b>(&mut self, rest: &'b str, Ghost(seen): Ghost<Seq<char>>) -> (r: Result<
        &'b str,
        WriteError,
    >)
        requires
            old(self).scanning(seen, rest@),
            old(self).withheld > 0,
            rest@.len() > 0,
        ensures
            r matches Ok(after) ==> final(self).scanning(seen, after@) && final(self).same_session(
                old(self),
            ) && (encode_utf8(after@).len() < encode_utf8(rest@).len() || (after@ == rest@
                && final(self).withheld < old(self).withheld)),
            W::infallible() ==> r is Ok,
    {
        let pat = self.pattern;
        let pat_len = byte_len(pat);
        let ghost p = pat@;
        let ghost rep = self.replacement@;
        let ghost rem = rest@;
        let ghost start = self.start@;
        let ghost out = self.passed();
        let ghost h = chars_before(p, self.withheld as int);
        proof {
            reveal(StrReplacer::scanning);
            lemma_boundary_chars(p, self.withheld as int);
            lemma_prefix_bytes_grow(p, h, p.len() as int);
            assert(p.take(p.len() as int) =~= p);
            lemma_chars_before_take(p, 0);
        }
        let avail = byte_len(rest);
        let need = pat_len - self.withheld;
        let n = if avail < need {
            avail
        } else {
            need
        };
        if bytes_match(rest.as_bytes(), pat.as_bytes(), self.withheld, n) {
            let ghost cnt = lemma_agree(p, h, rem, n as int);
            let (_, after) = split(rest, n, Ghost(cnt));
            proof {
                assert(rem =~= rem.take(cnt) + after@);
                assert(p.take(h) + rem =~= p.take(h + cnt) + after@);
                lemma_take_bytes(rem, cnt);
                lemma_chars_before_take(p, h + cnt);
            }
            self.withheld = self.withheld + n;
            if self.withheld == pat_len {
                proof {
                    lemma_carries_hit(seen, out, after@, p, rep);
                }
                self.withheld = 0;
                self.dst.write_str(self.replacement)?;
                proof {
                    assert(self.passed() =~= out + rep);
                }
            }
            Ok(after)
        } else {
            let ghost d = choose|d: int|
                0 <= d < n && encode_utf8(rem)[d] != encode_utf8(p)[self.withheld + d];
            proof {
                if forall|d: int|
                    0 <= d < n ==> encode_utf8(rem)[d] == encode_utf8(p)[self.withheld + d] {
                    assert(encode_utf8(rem).subrange(0, n as int) =~= encode_utf8(p).subrange(
                        self.withheld as int,
                        self.withheld + n,
                    ));
                }
                lemma_backoff_literal(p, h, rem, d);
            }
            let k = self.backoff();
            let ghost kc = longest_border(p, h);
            proof {
                lemma_prefix_bytes_grow(p, h - kc, h);
                lemma_longest_border(p, h);
                assert((p.take(h - kc) + p.take(kc)) + rem =~= p.take(h - kc) + (p.take(kc)
                    + rem));
                lemma_carries_literal(seen, out, p.take(h - kc), p.take(kc) + rem, p, rep);
                lemma_chars_before_take(p, kc);
            }
            let (lit, _) = split(pat, self.withheld - k, Ghost(h - kc));
            self.dst.write_str(lit)?;
            self.withheld = k;
            proof {
                assert(self.passed() =~= out + p.take(h - kc));
            }
            Ok(rest)
        }
    }

    /// The sink inside.
    pub closed spec fn inner(&self) -> W {
        self.dst
    }

    /// What a session in good order holds between two chunks. The inner sink
    /// has the text it began with and then what was passed on. Fewer bytes
    /// than the pattern has are held back, and they end with a character.
    /// What was passed on and what is held back make up, in this order, the
    /// replaced text of all that was seen: were the text to end here, the
    /// held characters would be text of their own. And no more is held back
    /// than the candidate that the text ends with, behind its last replaced
    /// occurrence: all that is decided has been passed on.
    pub proof fn lemma_session(&self)
        requires
            self.inv(),
        ensures
            self.inner().inv(),
            self.inner().setup() == self.setup().inner,
            self.inner().text() == self.setup().start + self.passed(),
            self.aligned(),
            self.withheld() == encode_utf8(self.held()).len(),
            self.withheld() < encode_utf8(self.pattern()).len(),
            self.held().len() < self.pattern().len(),
            self.held() == self.pattern().take(self.held().len() as int),
            self.pattern() == self.setup().pattern,
            replace_all(self.text(), self.setup().pattern, self.setup().replacement)
                == self.passed() + self.held(),
            self.held().len() == overlap(remainder(self.text(), self.pattern()), self.pattern()),
    {
        let p = self.pattern@;
        let h = chars_before(p, self.withheld as int);
        lemma_boundary_chars(p, self.withheld as int);
        lemma_prefix_bytes_grow(p, h, p.len() as int);
        assert(p.take(p.len() as int) =~= p);
        lemma_carries_end(self.seen@, self.passed(), self.held(), p, self.replacement@);
        lemma_overlap_of_prefix(p, h);
    }

    /// Gives the inner sink back as it is, without what is held back.
    pub fn abandon(self) -> (r: W)
        ensures
            r == self.inner(),
    {
        self.dst
    }

    /// Ends the session: passes on what is still held back, which has not
    /// grown into an occurrence, and gives the inner sink back.
    pub fn finish(self) -> (r: (W, Result<(), WriteError>))
        requires
            self.inv(),
        ensures
            r.1 is Ok ==> r.0.inv(),
            r.1 is Ok ==> r.0.setup() == self.setup().inner,
            r.1 is Ok ==> r.0.text() == self.setup().start + replace_all(
                self.text(),
                self.setup().pattern,
                self.setup().replacement,
            ),
            W::infallible() ==> r.1 is Ok,
    {
        let ghost p = self.pattern@;
        let ghost h = chars_before(p, self.withheld as int);
        let mut dst = self.dst;
        proof {
            lemma_boundary_chars(p, self.withheld as int);
            lemma_carries_end(self.seen@, self.passed(), p.take(h), p, self.replacement@);
            lemma_prefix_bytes_grow(p, h, p.len() as int);
            assert(p.take(p.len() as int) =~= p);
        }
        let r = if self.withheld == byte_len(self.pattern) {
            dst.write_str(self.replacement)
        } else {
            let (lit, _) = split(self.pattern, self.withheld, Ghost(h));
            dst.write_str(lit)
        };
        proof {
            assert(self.start@ + self.passed() + p.take(h) =~= self.start@ + (self.passed()
                + p.take(h)));
        }
        (dst, r)
    }
}

impl<'a, W: Sink> Sink for StrReplacer<'a, W> {
    type Setup = Session<W::Setup>;

    closed spec fn inv(&self) -> bool {
        &&& self.dst.inv()
        &&& self.pattern@.len() > 0
        &&& self.aligned()
        &&& self.held().len() < self.pattern@.len()
        &&& self.start@.is_prefix_of(self.dst.text())
        &&& carries(self.seen@, self.passed(), self.held(), self.pattern@, self.replacement@)
    }

    closed spec fn setup(&self) -> Session<W::Setup> {
        Session {
            inner: self.dst.setup(),
            start: self.start@,
            pattern: self.pattern@,
            replacement: self.replacement@,
        }
    }

    closed spec fn text(&self) -> Seq<char> {
        self.seen@
    }

    open spec fn infallible() -> bool {
        W::infallible()
    }

    fn write_str(&mut self, s: &str) -> (r: Result<(), WriteError>) {
        let ghost seen = self.seen@ + s@;
        let mut rest: &str = s;
        proof {
            reveal(StrReplacer::scanning);
            lemma_carries_feed(
                self.seen@,
                self.passed(),
                self.held(),
                s@,
                self.pattern@,
                self.replacement@,
            );
        }
        while !rest.is_empty()
            invariant
                self.scanning(seen, rest@),
                self.same_session(old(self)),
                seen == old(self).seen@ + s@,
            decreases encode_utf8(rest@).len(), self.withheld,
        {
            if self.withheld == 0 {
                rest = self.seek(rest, Ghost(seen))?;
            } else {
                rest = self.grow(rest, Ghost(seen))?;
            }
        }
        self.seen = Ghost(seen);
        Ok(())
    }
}

} // verus!
