//! How the characters of a string lie in its UTF-8 bytes.
//!
//! Contracts speak of characters; the matchers count and compare bytes. The
//! lemmas here carry facts from one side to the other, and the helpers cut a
//! string slice at a byte offset that is known to end a character.
use vstd::prelude::*;
use vstd::string::*;
use vstd::utf8::*;

verus! {

/// Encoding distributes over concatenation.
pub proof fn lemma_encode_concat(a: Seq<char>, b: Seq<char>)
    ensures
        encode_utf8(a + b) == encode_utf8(a) + encode_utf8(b),
    decreases a.len(),
{
    if a.len() > 0 {
        lemma_encode_concat(a.drop_first(), b);
        assert((a + b).drop_first() =~= a.drop_first() + b);
    }
}

/// Two texts with the same bytes are the same text.
pub proof fn lemma_encode_injective(a: Seq<char>, b: Seq<char>)
    requires
        encode_utf8(a) == encode_utf8(b),
    ensures
        a == b,
{
    encode_utf8_decode_utf8(a);
    encode_utf8_decode_utf8(b);
}

/// A longer prefix of a text has more bytes.
pub proof fn lemma_prefix_bytes_grow(t: Seq<char>, m: int, n: int)
    requires
        0 <= m <= n <= t.len(),
    ensures
        encode_utf8(t.take(m)).len() <= encode_utf8(t.take(n)).len(),
        m < n ==> encode_utf8(t.take(m)).len() < encode_utf8(t.take(n)).len(),
        encode_utf8(t.take(n)) == encode_utf8(t.take(m)) + encode_utf8(t.subrange(m, n)),
{
    assert(t.take(n) =~= t.take(m) + t.subrange(m, n));
    lemma_encode_concat(t.take(m), t.subrange(m, n));
}

/// The bytes of `a` end on a character boundary of the bytes of `a + b`.
pub proof fn lemma_prefix_boundary(a: Seq<char>, b: Seq<char>)
    ensures
        is_char_boundary(encode_utf8(a + b), encode_utf8(a).len() as int),
    decreases a.len(),
{
    let bytes = encode_utf8(a + b);
    encode_utf8_valid_utf8(a + b);
    if a.len() > 0 {
        let rest = a.drop_first();
        encode_utf8_first_scalar(a + b);
        assert((a + b).drop_first() =~= rest + b);
        assert(pop_first_scalar(bytes) =~= encode_utf8(rest + b));
        lemma_prefix_boundary(rest, b);
    }
}

/// Cutting a text after `n` characters cuts its bytes at a character
/// boundary, and each side of the cut encodes its side of the text.
pub proof fn lemma_take_bytes(t: Seq<char>, n: int)
    requires
        0 <= n <= t.len(),
    ensures
        ({
            let bytes = encode_utf8(t);
            let mid = encode_utf8(t.take(n)).len() as int;
            &&& mid <= bytes.len()
            &&& is_char_boundary(bytes, mid)
            &&& bytes.subrange(0, mid) == encode_utf8(t.take(n))
            &&& bytes.subrange(mid, bytes.len() as int) == encode_utf8(t.skip(n))
        }),
{
    assert(t =~= t.take(n) + t.skip(n));
    lemma_encode_concat(t.take(n), t.skip(n));
    lemma_prefix_boundary(t.take(n), t.skip(n));
}

/// The number of characters that end at or before byte `i` of a text.
pub open spec fn chars_before(t: Seq<char>, i: int) -> int {
    decode_utf8(encode_utf8(t).subrange(0, i)).len() as int
}

/// A character boundary of the bytes is the end of a prefix of the text.
pub proof fn lemma_boundary_chars(t: Seq<char>, i: int)
    requires
        is_char_boundary(encode_utf8(t), i),
    ensures
        0 <= chars_before(t, i) <= t.len(),
        encode_utf8(t.take(chars_before(t, i))).len() == i,
{
    let bytes = encode_utf8(t);
    encode_utf8_valid_utf8(t);
    encode_utf8_decode_utf8(t);
    assert(0 <= i <= bytes.len());
    valid_utf8_split(bytes, i);
    decode_utf8_split(bytes, i);
    let head = bytes.subrange(0, i);
    assert(t.take(decode_utf8(head).len() as int) =~= decode_utf8(head));
    decode_utf8_encode_utf8(head);
}

/// The bytes of the first `n` characters end after `n` characters.
pub proof fn lemma_chars_before_take(t: Seq<char>, n: int)
    requires
        0 <= n <= t.len(),
    ensures
        chars_before(t, encode_utf8(t.take(n)).len() as int) == n,
        is_char_boundary(encode_utf8(t), encode_utf8(t.take(n)).len() as int),
{
    lemma_take_bytes(t, n);
    encode_utf8_decode_utf8(t.take(n));
}

/// A text whose bytes begin the bytes of `p` begins `p`.
pub proof fn lemma_encoded_prefix(x: Seq<char>, p: Seq<char>)
    requires
        encode_utf8(x).is_prefix_of(encode_utf8(p)),
    ensures
        x.is_prefix_of(p),
{
    let bytes = encode_utf8(p);
    let k = encode_utf8(x).len() as int;
    let head = bytes.subrange(0, k);
    let tail = bytes.subrange(k, bytes.len() as int);
    encode_utf8_valid_utf8(p);
    encode_utf8_valid_utf8(x);
    if !valid_utf8(tail) {
        partial_valid_partial_invalid_utf8(bytes, k);
    }
    let y = decode_utf8(tail);
    decode_utf8_encode_utf8(tail);
    lemma_encode_concat(x, y);
    assert(head + tail =~= bytes);
    lemma_encode_injective(x + y, p);
}

/// std's `char::len_utf8`: the number of bytes of the character's UTF-8
/// encoding.
pub assume_specification[ char::len_utf8 ](c: char) -> (r: usize)
    ensures
        r == encode_utf8(seq![c]).len(),
;

/// The position of the first `c` in `t`, if there is one.
pub open spec fn first_index(t: Seq<char>, c: char) -> Option<int>
    decreases t.len(),
{
    if t.len() == 0 {
        None
    } else if t[0] == c {
        Some(0)
    } else {
        match first_index(t.drop_first(), c) {
            Some(n) => Some(n + 1),
            None => None,
        }
    }
}

/// What `first_index` finds is the first occurrence; what it misses is not
/// there.
pub proof fn lemma_first_index(t: Seq<char>, c: char)
    ensures
        match first_index(t, c) {
            Some(n) => 0 <= n < t.len() && t[n] == c && forall|j: int| 0 <= j < n ==> t[j] != c,
            None => forall|j: int| 0 <= j < t.len() ==> t[j] != c,
        },
    decreases t.len(),
{
    if t.len() > 0 && t[0] != c {
        let rest = t.drop_first();
        lemma_first_index(rest, c);
        match first_index(rest, c) {
            Some(n) => {
                assert forall|j: int| 0 <= j < n + 1 implies t[j] != c by {
                    if j > 0 {
                        assert(t[j] == rest[j - 1]);
                    }
                }
            },
            None => {
                assert forall|j: int| 0 <= j < t.len() implies t[j] != c by {
                    if j > 0 {
                        assert(t[j] == rest[j - 1]);
                    }
                }
            },
        }
    }
}

/// std's `str::find` with a `char` as the pattern: the byte offset of the
/// first character of `s` that equals `c`, or `None` where no character does.
#[verifier::external_body]
pub(crate) fn find_char(s: &str, c: char) -> (r: Option<usize>)
    ensures
        match first_index(s@, c) {
            Some(n) => r is Some && r->0 == encode_utf8(s@.take(n)).len(),
            None => r is None,
        },
{
    s.find(c)
}

/// The length of a string slice in bytes.
pub(crate) fn byte_len(s: &str) -> (r: usize)
    ensures
        r == encode_utf8(s@).len(),
{
    s.as_bytes().len()
}

/// Cuts `s` at byte `mid`, which ends its first `n` characters.
pub(crate) fn split<'a>(s: &'a str, mid: usize, Ghost(n): Ghost<int>) -> (r: (&'a str, &'a str))
    requires
        0 <= n <= s@.len(),
        mid == encode_utf8(s@.take(n)).len(),
    ensures
        r.0@ == s@.take(n),
        r.1@ == s@.skip(n),
{
    proof {
        lemma_take_bytes(s@, n);
    }
    let r = s.split_at(mid);
    proof {
        lemma_encode_injective(r.0@, s@.take(n));
        lemma_encode_injective(r.1@, s@.skip(n));
    }
    r
}

} // verus!
