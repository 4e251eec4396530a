//! Small tools: a consuming iterator over a vector, cutting items into
//! chunks, bits of bytes, and stripping a prefix or suffix when present.
use vstd::prelude::*;
use vstd::arithmetic::div_mod::{
    lemma_basic_div_specific_divisor, lemma_div_plus_one, lemma_mod_add_multiples_vanish,
    lemma_mod_decreases, lemma_small_mod,
};
use vstd::utf8::encode_utf8;

use crate::text::{chars_of, string_of, strip_prefix, strip_prefix_chars, strip_suffix, strip_suffix_chars};

verus! {

// ---------------------------------------------------------------------------
// Iter
// ---------------------------------------------------------------------------

/// The items of a vector, handed out from the front.
pub struct Iter<T: Clone> {
    inner: Vec<T>,
}

impl<T: Clone> View for Iter<T> {
    type V = Seq<T>;

    /// The items not handed out yet.
    closed spec fn view(&self) -> Seq<T> {
        self.inner@
    }
}

impl<T: Clone> Iter<T> {
    /// An iterator over `items`.
    pub fn new(items: Vec<T>) -> (it: Iter<T>)
        ensures
            it@ == items@,
    {
        Iter { inner: items }
    }

    /// The first item not handed out yet, or `None` when all are.
    pub fn next(&mut self) -> (r: Option<T>)
        ensures
            old(self)@.len() == 0 ==> r is None && final(self)@ == old(self)@,
            old(self)@.len() > 0 ==> r == Some(old(self)@[0]) && final(self)@ == old(
                self,
            )@.drop_first(),
    {
        if self.inner.len() == 0 {
            None
        } else {
            Some(self.inner.remove(0))
        }
    }

    /// The number of items not handed out yet.
    pub fn len(&self) -> (n: usize)
        ensures
            n == self@.len(),
    {
        self.inner.len()
    }
}

// ---------------------------------------------------------------------------
// Chunked
// ---------------------------------------------------------------------------

/// `s` cut into consecutive pieces of `n` items; items left over that do
/// not fill a piece are dropped.
pub open spec fn chunks<A>(s: Seq<A>, n: nat) -> Seq<Seq<A>>
    decreases s.len(),
{
    if n == 0 || s.len() < n {
        Seq::empty()
    } else {
        seq![s.take(n as int)] + chunks(s.skip(n as int), n)
    }
}

/// The chunks put back together give the items back, all but the last
/// `len % n`, which no chunk holds; there are `len / n` chunks.
pub proof fn lemma_chunks_rejoin<A>(s: Seq<A>, n: nat)
    requires
        n > 0,
    ensures
        chunks(s, n).flatten() == s.take(s.len() - s.len() % n),
        chunks(s, n).len() == s.len() / n,
    decreases s.len(),
{
    if s.len() < n {
        lemma_small_mod(s.len(), n);
        lemma_basic_div_specific_divisor(n as int);
        assert(s.take(0) =~= Seq::<A>::empty());
    } else {
        let rest = s.skip(n as int);
        lemma_chunks_rejoin(rest, n);
        let c = chunks(s, n);
        assert(c.first() == s.take(n as int));
        assert(c.drop_first() =~= chunks(rest, n));
        lemma_mod_add_multiples_vanish(rest.len() as int, n as int);
        lemma_div_plus_one(rest.len() as int, n as int);
        lemma_mod_decreases(rest.len(), n);
        assert(rest.len() + n == s.len());
        let k = rest.len() - rest.len() % n;
        assert(s.take(n as int) + rest.take(k) =~= s.take(n + k));
    }
}

/// The item sequences held by a sequence of vectors.
pub open spec fn vecs_view<A>(v: Seq<Vec<A>>) -> Seq<Seq<A>> {
    Seq::new(v.len(), |i: int| v[i]@)
}

/// Taking items in chunks of a given size.
pub trait Chunked<T: Clone>: Sized {
    /// The items not taken yet.
    spec fn remaining(&self) -> Seq<T>;

    /// The next `size` items; `None` when fewer are left, which are then
    /// all taken.
    fn next_chunk_of(&mut self, size: usize) -> (r: Option<Vec<T>>)
        ensures
            old(self).remaining().len() >= size ==> r is Some && r->0@ == old(
                self,
            ).remaining().take(size as int) && final(self).remaining() == old(
                self,
            ).remaining().skip(size as int),
            old(self).remaining().len() < size ==> r is None && final(self).remaining()
                == Seq::<T>::empty(),
    ;

    /// All remaining items in chunks of `size`; the items left over are
    /// taken and dropped.
    fn chunks_of(&mut self, size: usize) -> (r: Iter<Vec<T>>)
        requires
            size > 0,
        ensures
            vecs_view(r@) == chunks(old(self).remaining(), size as nat),
            final(self).remaining() == Seq::<T>::empty(),
    ;
}

impl<T: Clone> Chunked<T> for Iter<T> {
    open spec fn remaining(&self) -> Seq<T> {
        self@
    }

    fn next_chunk_of(&mut self, size: usize) -> (r: Option<Vec<T>>) {
        let mut whole: Vec<T> = Vec::new();
        let ghost start = self@;
        let mut i: usize = 0;
        while i < size
            invariant
                start == old(self)@,
                i <= size,
                i <= start.len(),
                whole@ == start.take(i as int),
                self@ == start.skip(i as int),
            decreases size - i,
        {
            let next = self.next();
            match next {
                None => {
                    assert(start.len() == i);
                    return None;
                },
                Some(x) => {
                    whole.push(x);
                    assert(whole@ =~= start.take(i + 1));
                    assert(self@ =~= start.skip(i + 1));
                },
            }
            i = i + 1;
        }
        Some(whole)
    }

    fn chunks_of(&mut self, size: usize) -> (r: Iter<Vec<T>>) {
        let ghost start = self@;
        let mut ret: Vec<Vec<T>> = Vec::new();
        let mut chunk_opt = self.next_chunk_of(size);
        while chunk_opt.is_some()
            invariant
                size > 0,
                chunk_opt is Some ==> vecs_view(ret@) + seq![chunk_opt->0@] + chunks(self@, size as nat)
                    == chunks(start, size as nat),
                chunk_opt is None ==> vecs_view(ret@) == chunks(start, size as nat)
                    && self@ == Seq::<T>::empty(),
            decreases self@.len() + if chunk_opt is Some {
                1nat
            } else {
                0nat
            },
        {
            let ghost before = self@;
            let chunk = match chunk_opt {
                Some(c) => c,
                None => Vec::new(),
            };
            let ghost r0 = vecs_view(ret@);
            ret.push(chunk);
            assert(vecs_view(ret@) =~= r0.push(chunk@));
            chunk_opt = self.next_chunk_of(size);
            proof {
                if before.len() >= size {
                    assert(chunks(before, size as nat) == seq![before.take(size as int)] + chunks(
                        before.skip(size as int),
                        size as nat,
                    ));
                    assert(r0.push(chunk@) + (seq![before.take(size as int)] + chunks(
                        self@,
                        size as nat,
                    )) =~= r0 + seq![chunk@] + chunks(before, size as nat));
                    assert(vecs_view(ret@) + seq![chunk_opt->0@] + chunks(self@, size as nat) =~= r0
                        + seq![chunk@] + chunks(before, size as nat));
                } else {
                    assert(chunks(before, size as nat) =~= Seq::<Seq<T>>::empty());
                    assert(vecs_view(ret@) =~= r0 + seq![chunk@] + chunks(before, size as nat));
                }
            }
        }
        proof {
            if start.len() < size {
                assert(chunks(start, size as nat) =~= Seq::<Seq<T>>::empty());
            }
        }
        Iter::new(ret)
    }
}

// ---------------------------------------------------------------------------
// Bits
// ---------------------------------------------------------------------------

/// The seven highest bits of a byte, highest first (the lowest bit is not
/// among them).
pub open spec fn byte_bits(b: u8) -> Seq<u8> {
    seq![
        b >> 7u8,
        (b >> 6u8) & 1u8,
        (b >> 5u8) & 1u8,
        (b >> 4u8) & 1u8,
        (b >> 3u8) & 1u8,
        (b >> 2u8) & 1u8,
        (b >> 1u8) & 1u8,
    ]
}

/// The bits of each byte in turn.
pub open spec fn bytes_bits(bytes: Seq<u8>) -> Seq<u8>
    decreases bytes.len(),
{
    if bytes.len() == 0 {
        Seq::empty()
    } else {
        bytes_bits(bytes.drop_last()) + byte_bits(bytes.last())
    }
}

/// A value written as bits.
pub trait Bits {
    /// The bits of the value.
    spec fn spec_bits(&self) -> Seq<u8>;

    /// The bits of the value.
    fn to_bits(&self) -> (r: Vec<u8>)
        ensures
            r@ == self.spec_bits(),
    ;
}

impl Bits for u8 {
    open spec fn spec_bits(&self) -> Seq<u8> {
        byte_bits(*self)
    }

    fn to_bits(&self) -> (r: Vec<u8>) {
        let b = *self;
        let mut v: Vec<u8> = Vec::new();
        v.push(b >> 7u8);
        v.push((b << 1u8) >> 7u8);
        v.push((b << 2u8) >> 7u8);
        v.push((b << 3u8) >> 7u8);
        v.push((b << 4u8) >> 7u8);
        v.push((b << 5u8) >> 7u8);
        v.push((b << 6u8) >> 7u8);
        assert((b << 1u8) >> 7u8 == (b >> 6u8) & 1u8) by (bit_vector);
        assert((b << 2u8) >> 7u8 == (b >> 5u8) & 1u8) by (bit_vector);
        assert((b << 3u8) >> 7u8 == (b >> 4u8) & 1u8) by (bit_vector);
        assert((b << 4u8) >> 7u8 == (b >> 3u8) & 1u8) by (bit_vector);
        assert((b << 5u8) >> 7u8 == (b >> 2u8) & 1u8) by (bit_vector);
        assert((b << 6u8) >> 7u8 == (b >> 1u8) & 1u8) by (bit_vector);
        assert(v@ =~= byte_bits(b));
        v
    }
}

impl Bits for String {
    open spec fn spec_bits(&self) -> Seq<u8> {
        bytes_bits(encode_utf8(self@))
    }

    fn to_bits(&self) -> (r: Vec<u8>) {
        let bytes = self.as_str().as_bytes();
        let mut v: Vec<u8> = Vec::new();
        let mut i: usize = 0;
        while i < bytes.len()
            invariant
                i <= bytes.len(),
                bytes@ == encode_utf8(self@),
                v@ == bytes_bits(bytes@.take(i as int)),
            decreases bytes.len() - i,
        {
            let b = bytes[i];
            let bits = b.to_bits();
            let mut j: usize = 0;
            let ghost v0 = v@;
            while j < bits.len()
                invariant
                    j <= bits.len(),
                    bits@ == byte_bits(b),
                    v@ == v0 + bits@.take(j as int),
                decreases bits.len() - j,
            {
                v.push(bits[j]);
                j = j + 1;
                assert(v@ =~= v0 + bits@.take(j as int));
            }
            assert(bits@.take(bits.len() as int) == bits@);
            assert(bytes@.take(i + 1).drop_last() =~= bytes@.take(i as int));
            i = i + 1;
        }
        assert(bytes@.take(bytes.len() as int) =~= bytes@);
        v
    }
}

// ---------------------------------------------------------------------------
// STRIP
// ---------------------------------------------------------------------------

/// Removing a prefix or a suffix when it is there.
pub trait STRIP {
    /// The text of the value.
    spec fn text(&self) -> Seq<char>;

    /// The text without `pattern` at its front, when it is there; the text
    /// unchanged otherwise.
    fn try_strip_prefix(&self, pattern: &str) -> (r: String)
        ensures
            r@ == strip_prefix(self.text(), pattern@),
    ;

    /// The text without `pattern` at its end, when it is there; the text
    /// unchanged otherwise.
    fn try_strip_suffix(&self, pattern: &str) -> (r: String)
        ensures
            r@ == strip_suffix(self.text(), pattern@),
    ;
}

impl STRIP for String {
    open spec fn text(&self) -> Seq<char> {
        self@
    }

    fn try_strip_prefix(&self, pattern: &str) -> (r: String) {
        let s = chars_of(self.as_str());
        let p = chars_of(pattern);
        string_of(&strip_prefix_chars(&s, &p))
    }

    fn try_strip_suffix(&self, pattern: &str) -> (r: String) {
        let s = chars_of(self.as_str());
        let p = chars_of(pattern);
        string_of(&strip_suffix_chars(&s, &p))
    }
}

} // verus!
