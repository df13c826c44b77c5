use crate::common::bit_lemmas::{
    bit32, lemma_bit_after_set, lemma_bit_of_half, lemma_bit_of_xor, lemma_bit_of_zero,
    lemma_bit_test,
};
use crate::error::Error;
use vstd::arithmetic::power2::{lemma2_to64, lemma_pow2_strictly_increases, lemma_pow2_unfold, pow2};
use vstd::prelude::*;

verus! {

/// A growable sequence of bits, packed 32 to a word, least significant bit first.
///
/// The array has a capacity (32 times its word count) and a size, the count of valid bits.
/// Bits at or beyond the size can be set through [`BitArray::set`]; an array where none of
/// them is set is called clean.
#[derive(Clone)]
pub struct BitArray {
    bits: Vec<u32>,
    size: usize,
}

/// The number that `s` spells, most significant bit first.
pub open spec fn bits_value(s: Seq<bool>) -> nat
    decreases s.len(),
{
    if s.len() == 0 {
        0
    } else {
        2 * bits_value(s.drop_last()) + if s.last() {
            1nat
        } else {
            0nat
        }
    }
}

/// The `n` least significant bits of `value`, most significant of them first.
pub open spec fn low_bits(value: u32, n: nat) -> Seq<bool> {
    Seq::new(n, |j: int| bit32(value, (n - 1 - j) as u32))
}

/// A number of `s.len()` bits is below two to that power.
pub proof fn lemma_bits_value_bound(s: Seq<bool>)
    ensures
        bits_value(s) < pow2(s.len()),
    decreases s.len(),
{
    if s.len() == 0 {
        lemma2_to64();
    } else {
        lemma_bits_value_bound(s.drop_last());
        lemma_pow2_unfold(s.len());
    }
}

/// Appending one bit doubles the number and adds the bit.
pub proof fn lemma_bits_value_push(s: Seq<bool>, b: bool)
    ensures
        bits_value(s.push(b)) == 2 * bits_value(s) + if b {
            1nat
        } else {
            0nat
        },
{
    assert(s.push(b).drop_last() =~= s);
}

/// Reading back the `n` low bits of a number below `2^n` gives the number.
pub proof fn lemma_low_bits_value(value: u32, n: nat)
    requires
        n <= 32,
        value < pow2(n),
    ensures
        bits_value(low_bits(value, n)) == value,
    decreases n,
{
    if n == 0 {
        lemma2_to64();
    } else {
        let half: u32 = value >> 1u32;
        lemma_bit_of_half(value, 0);
        lemma_pow2_unfold(n);
        assert(half < pow2((n - 1) as nat));
        lemma_low_bits_value(half, (n - 1) as nat);
        let s = low_bits(value, n);
        let t = low_bits(half, (n - 1) as nat);
        assert(s.drop_last() =~= t) by {
            assert forall|j: int| 0 <= j < n - 1 implies s.drop_last()[j] == t[j] by {
                lemma_bit_of_half(value, (n - 2 - j) as u32);
            }
        }
        assert(s.last() == bit32(value, 0u32));
    }
}

impl View for BitArray {
    type V = Seq<bool>;

    /// The valid bits, in order.
    open spec fn view(&self) -> Seq<bool> {
        Seq::new(self.spec_size(), |i: int| self.bit(i))
    }
}

impl BitArray {
    /// The largest size an array can have.
    pub const MAX_SIZE: usize = 0x7FFF_FFFF;

    /// The number of bits the backing words hold.
    pub closed spec fn capacity(&self) -> nat {
        self.bits@.len() * 32
    }

    /// The count of valid bits.
    pub closed spec fn spec_size(&self) -> nat {
        self.size as nat
    }

    /// The stored bit at position `i`; false outside the capacity.
    pub closed spec fn bit(&self, i: int) -> bool {
        0 <= i < self.bits@.len() * 32 && bit32(self.bits@[i / 32], (i % 32) as u32)
    }

    /// The words cover the size, and the capacity is within the machine's reach.
    pub open spec fn wf(&self) -> bool {
        &&& self.spec_size() <= self.capacity()
        &&& self.capacity() <= 0x8000_0000
    }

    /// No bit is set at or beyond the size.
    pub open spec fn clean(&self) -> bool {
        forall|i: int| i >= self.spec_size() ==> !#[trigger] self.bit(i)
    }

    /// `post` is `pre` after the `n` low bits of `value` were appended, most significant
    /// first: the size has grown by `n`, and a bit is set where it was set before or where
    /// the appended field has a one.
    pub open spec fn appended(pre: BitArray, post: BitArray, value: u32, n: nat) -> bool {
        &&& post.spec_size() == pre.spec_size() + n
        &&& post.capacity() >= pre.capacity()
        &&& forall|i: int|
            #![trigger post.bit(i)]
            #![trigger pre.bit(i)]
            post.bit(i) == (pre.bit(i) || (pre.spec_size() <= i < pre.spec_size() + n && bit32(
                value,
                (pre.spec_size() + n - 1 - i) as u32,
            )))
    }

    /// An empty array of one word.
    pub fn new() -> (r: BitArray)
        ensures
            r.wf(),
            r.clean(),
            r.spec_size() == 0,
            r.capacity() == 32,
    {
        let r = BitArray { bits: vec![0u32], size: 0 };
        assert forall|i: int| !r.bit(i) by {
            if 0 <= i < 32 {
                lemma_bit_of_zero((i % 32) as u32);
            }
        }
        r
    }

    /// An empty array with room for `size` bits.
    pub fn new1(size: usize) -> (r: BitArray)
        requires
            size <= BitArray::MAX_SIZE,
        ensures
            r.wf(),
            r.clean(),
            r.spec_size() == 0,
            r.capacity() == (size + 31) / 32 * 32,
    {
        let r = BitArray { bits: BitArray::make_array(size), size: 0 };
        assert forall|i: int| !r.bit(i) by {
            if 0 <= i < r.bits@.len() * 32 {
                lemma_bit_of_zero((i % 32) as u32);
            }
        }
        r
    }

    fn make_array(size: usize) -> (v: Vec<u32>)
        requires
            size <= BitArray::MAX_SIZE,
        ensures
            v@.len() == (size + 31) / 32,
            forall|i: int| 0 <= i < v@.len() ==> v@[i] == 0,
    {
        let words: usize = (size + 31) / 32;
        vec![0u32; words]
    }

    /// Grows the backing words, if need be, to hold `size` bits. No bit changes.
    pub fn ensure_capacity(&mut self, size: usize)
        requires
            old(self).wf(),
            size <= BitArray::MAX_SIZE,
        ensures
            final(self).wf(),
            final(self).spec_size() == old(self).spec_size(),
            final(self).capacity() >= size,
            final(self).capacity() == if size > old(self).capacity() {
                ((size + 31) / 32 * 32) as nat
            } else {
                old(self).capacity()
            },
            forall|i: int|
                #![trigger final(self).bit(i)]
                #![trigger old(self).bit(i)]
                final(self).bit(i) == old(self).bit(i),
    {
        let ghost pre = *self;
        if size > self.bits.len() * 32 {
            let words: usize = (size + 31) / 32;
            while self.bits.len() < words
                invariant
                    self.size == pre.size,
                    pre.bits@.len() <= self.bits@.len() <= words,
                    words == (size + 31) / 32,
                    words <= 0x400_0000,
                    forall|w: int| 0 <= w < pre.bits@.len() ==> self.bits@[w] == pre.bits@[w],
                    forall|w: int| pre.bits@.len() <= w < self.bits@.len() ==> self.bits@[w] == 0,
                decreases words - self.bits@.len(),
            {
                self.bits.push(0u32);
            }
            assert forall|i: int| #![trigger self.bit(i)] #![trigger pre.bit(i)] self.bit(i) == pre.bit(i) by {
                if pre.bits@.len() * 32 <= i < self.bits@.len() * 32 {
                    lemma_bit_of_zero((i % 32) as u32);
                }
            }
        }
    }

    /// The count of valid bits.
    pub fn get_size(&self) -> (n: usize)
        ensures
            n == self.spec_size(),
            n == self@.len(),
    {
        self.size
    }

    /// Appends the `num_bits` least significant bits of `value`, most significant first.
    /// More than 32 bits are refused, and the array is left as it was.
    pub fn append_bits(&mut self, value: u32, num_bits: usize) -> (r: Result<(), Error>)
        requires
            old(self).wf(),
            num_bits <= 32 ==> old(self).spec_size() + num_bits <= BitArray::MAX_SIZE,
        ensures
            r is Err <==> num_bits > 32,
            r matches Err(e) ==> e is IllegalArgumentException && *final(self) == *old(self),
            r is Ok ==> final(self).wf() && BitArray::appended(
                *old(self),
                *final(self),
                value,
                num_bits as nat,
            ),
            r is Ok && old(self).clean() ==> final(self).clean() && final(self)@ == old(self)@
                + low_bits(value, num_bits as nat),
    {
        if num_bits > 32 {
            return Err(
                Error::IllegalArgumentException("Num bits must be between 0 and 32".to_owned()),
            );
        }
        let ghost pre = *self;
        let start = self.size;
        self.ensure_capacity(start + num_bits);
        let mut k: usize = 0;
        while k < num_bits
            invariant
                self.wf(),
                k <= num_bits <= 32,
                self.size == start,
                start == pre.size,
                start + num_bits <= self.capacity(),
                self.capacity() >= pre.capacity(),
                forall|i: int|
                    #![trigger self.bit(i)]
                    #![trigger pre.bit(i)]
                    self.bit(i) == (pre.bit(i) || (start <= i < start + k && bit32(
                        value,
                        (start + num_bits - 1 - i) as u32,
                    ))),
            decreases num_bits - k,
        {
            let shift: u32 = (num_bits - 1 - k) as u32;
            proof {
                lemma_bit_test(value, shift);
            }
            if value & (1u32 << shift) != 0 {
                self.set(start + k);
            }
            k += 1;
        }
        let ghost filled = *self;
        self.size = start + num_bits;
        proof {
            assert forall|i: int| #![trigger self.bit(i)] self.bit(i) == filled.bit(i) by {}
            if pre.clean() {
                assert(self@ =~= pre@ + low_bits(value, num_bits as nat));
            }
        }
        Ok(())
    }

    /// Appends every valid bit of `other`, in order.
    pub fn append_bit_array(&mut self, other: &BitArray)
        requires
            old(self).wf(),
            other.wf(),
            old(self).spec_size() + other.spec_size() <= BitArray::MAX_SIZE,
        ensures
            final(self).wf(),
            final(self).spec_size() == old(self).spec_size() + other.spec_size(),
            final(self).capacity() >= old(self).capacity(),
            forall|i: int|
                #![trigger final(self).bit(i)]
                #![trigger old(self).bit(i)]
                final(self).bit(i) == (old(self).bit(i) || (old(self).spec_size() <= i < old(
                    self,
                ).spec_size() + other.spec_size() && other.bit(i - old(self).spec_size()))),
            old(self).clean() ==> final(self).clean() && final(self)@ == old(self)@ + other@,
    {
        let ghost pre = *self;
        let other_size = other.get_size();
        let start = self.size;
        self.ensure_capacity(start + other_size);
        let mut k: usize = 0;
        while k < other_size
            invariant
                self.wf(),
                other.wf(),
                k <= other_size,
                other_size == other.spec_size(),
                start == pre.size,
                self.size == start + k,
                start + other_size <= self.capacity(),
                start + other_size <= BitArray::MAX_SIZE,
                self.capacity() >= pre.capacity(),
                forall|i: int|
                    #![trigger self.bit(i)]
                    #![trigger pre.bit(i)]
                    self.bit(i) == (pre.bit(i) || (start <= i < start + k && other.bit(i - start))),
            decreases other_size - k,
        {
            self.append_bit(other.get(k));
            k += 1;
        }
        proof {
            if pre.clean() {
                assert(self@ =~= pre@ + other@);
            }
        }
    }

    /// Appends one bit.
    pub fn append_bit(&mut self, bit: bool)
        requires
            old(self).wf(),
            old(self).spec_size() < BitArray::MAX_SIZE,
        ensures
            final(self).wf(),
            final(self).spec_size() == old(self).spec_size() + 1,
            final(self).capacity() >= old(self).capacity(),
            final(self).capacity() == if old(self).spec_size() + 1 > old(self).capacity() {
                ((old(self).spec_size() + 32) / 32 * 32) as nat
            } else {
                old(self).capacity()
            },
            forall|i: int|
                #![trigger final(self).bit(i)]
                #![trigger old(self).bit(i)]
                final(self).bit(i) == (old(self).bit(i) || (i == old(self).spec_size() && bit)),
            old(self).clean() ==> final(self).clean() && final(self)@ == old(self)@.push(bit),
    {
        let ghost pre = *self;
        self.ensure_capacity(self.size + 1);
        let ghost grown = *self;
        if bit {
            self.set(self.size);
        }
        let ghost filled = *self;
        self.size += 1;
        proof {
            assert forall|i: int| #![trigger self.bit(i)] self.bit(i) == (pre.bit(i) || (i
                == pre.spec_size() && bit)) by {
                assert(self.bit(i) == filled.bit(i));
                assert(grown.bit(i) == pre.bit(i));
            }
            if pre.clean() {
                assert(self@ =~= pre@.push(bit));
            }
        }
    }

    /// The bit at position `i`.
    pub fn get(&self, i: usize) -> (b: bool)
        requires
            self.wf(),
            i < self.spec_size(),
        ensures
            b == self.bit(i as int),
            b == self@[i as int],
    {
        let w: u32 = self.bits[i / 32];
        let k: u32 = (i % 32) as u32;
        proof {
            lemma_bit_test(w, k);
        }
        (w & (1u32 << k)) != 0
    }

    /// Sets the bit at position `i`, which lies within the capacity.
    pub fn set(&mut self, i: usize)
        requires
            old(self).wf(),
            i < old(self).capacity(),
        ensures
            final(self).wf(),
            final(self).spec_size() == old(self).spec_size(),
            final(self).capacity() == old(self).capacity(),
            forall|j: int|
                #![trigger final(self).bit(j)]
                #![trigger old(self).bit(j)]
                final(self).bit(j) == (old(self).bit(j) || j == i),
    {
        let ghost pre = *self;
        let w: u32 = self.bits[i / 32];
        let k: u32 = (i % 32) as u32;
        self.bits[i / 32] = w | (1u32 << k);
        assert forall|j: int| #![trigger self.bit(j)] #![trigger pre.bit(j)] self.bit(j) == (pre.bit(j) || j == i) by {
            if 0 <= j < self.bits@.len() * 32 {
                if j / 32 == i / 32 {
                    lemma_bit_after_set(w, k, (j % 32) as u32);
                }
            }
        }
    }

    /// The number of bytes that the valid bits fill, the last one perhaps in part.
    pub fn get_size_in_bytes(&self) -> (n: usize)
        requires
            self.wf(),
        ensures
            n == (self.spec_size() + 7) / 8,
    {
        (self.size + 7) / 8
    }

    /// Packs `num_bytes` bytes, starting at bit `bit_offset`, into `array` from `offset` on.
    /// Each byte takes eight bits, the first of them as its most significant.
    pub fn to_bytes(&self, bit_offset: usize, array: &mut Vec<u8>, offset: usize, num_bytes: usize)
        requires
            self.wf(),
            bit_offset + 8 * num_bytes <= self.spec_size(),
            offset + num_bytes <= old(array)@.len(),
        ensures
            final(array)@.len() == old(array)@.len(),
            forall|k: int|
                0 <= k < num_bytes ==> #[trigger] final(array)@[offset + k] == bits_value(
                    self@.subrange(bit_offset + 8 * k, bit_offset + 8 * k + 8),
                ),
            forall|p: int|
                0 <= p < old(array)@.len() && !(offset <= p < offset + num_bytes)
                    ==> final(array)@[p] == old(array)@[p],
    {
        let ghost pre = array@;
        let total: usize = array.len();
        let mut k: usize = 0;
        while k < num_bytes
            invariant
                self.wf(),
                k <= num_bytes,
                bit_offset + 8 * num_bytes <= self.spec_size(),
                offset + num_bytes <= array@.len(),
                array@.len() == pre.len(),
                total == pre.len(),
                forall|q: int|
                    0 <= q < k ==> #[trigger] array@[offset + q] == bits_value(
                        self@.subrange(bit_offset + 8 * q, bit_offset + 8 * q + 8),
                    ),
                forall|p: int|
                    0 <= p < pre.len() && !(offset <= p < offset + k) ==> array@[p] == pre[p],
            decreases num_bytes - k,
        {
            let start: usize = bit_offset + 8 * k;
            let mut the_byte: u32 = 0;
            let mut j: usize = 0;
            while j < 8
                invariant
                    self.wf(),
                    j <= 8,
                    start + 8 <= self.spec_size(),
                    the_byte == bits_value(self@.subrange(start as int, start + j)),
                decreases 8 - j,
            {
                let b = self.get(start + j);
                proof {
                    let s = self@.subrange(start as int, start + j);
                    lemma_bits_value_bound(s);
                    lemma_pow2_strictly_increases(j as nat, 8);
                    lemma2_to64();
                    lemma_bits_value_push(s, b);
                    assert(self@.subrange(start as int, start + j + 1) =~= s.push(b));
                }
                the_byte = 2 * the_byte + if b {
                    1
                } else {
                    0
                };
                j += 1;
            }
            proof {
                lemma_bits_value_bound(self@.subrange(start as int, start + 8));
                lemma2_to64();
            }
            array[offset + k] = the_byte as u8;
            k += 1;
        }
    }

    /// Exclusive-ors `other` into this array, bit by bit over this array's capacity.
    pub fn xor(&mut self, other: &BitArray)
        requires
            old(self).wf(),
            other.wf(),
            old(self).spec_size() == other.spec_size(),
        ensures
            final(self).wf(),
            final(self).spec_size() == old(self).spec_size(),
            final(self).capacity() == old(self).capacity(),
            forall|i: int|
                #![trigger final(self).bit(i)]
                #![trigger old(self).bit(i)]
                0 <= i < old(self).capacity() ==> final(self).bit(i) == (old(self).bit(i)
                    != other.bit(i)),
            final(self)@ == Seq::new(
                old(self).spec_size(),
                |i: int| old(self)@[i] != other@[i],
            ),
    {
        let ghost pre = *self;
        let n = self.bits.len();
        let m = other.bits.len();
        let mut w: usize = 0;
        while w < n
            invariant
                w <= n,
                n == self.bits@.len(),
                n == pre.bits@.len(),
                m == other.bits@.len(),
                self.size == pre.size,
                forall|q: int| w <= q < n ==> self.bits@[q] == pre.bits@[q],
                forall|q: int|
                    0 <= q < w && q < m ==> self.bits@[q] == pre.bits@[q] ^ other.bits@[q],
                forall|q: int| 0 <= q < w && q >= m ==> self.bits@[q] == pre.bits@[q],
            decreases n - w,
        {
            if w < m {
                let a: u32 = self.bits[w];
                let b: u32 = other.bits[w];
                self.bits[w] = a ^ b;
            }
            w += 1;
        }
        assert forall|i: int| #![trigger self.bit(i)] #![trigger pre.bit(i)] 0 <= i < pre.capacity() implies self.bit(i) == (pre.bit(i)
            != other.bit(i)) by {
            if i / 32 < m {
                lemma_bit_of_xor(pre.bits@[i / 32], other.bits@[i / 32], (i % 32) as u32);
            }
        }
        assert(self@ =~= Seq::new(pre.spec_size(), |i: int| pre@[i] != other@[i]));
    }

    /// Clears every bit; the size and the capacity stay.
    pub fn clear(&mut self)
        requires
            old(self).wf(),
        ensures
            final(self).wf(),
            final(self).clean(),
            final(self).spec_size() == old(self).spec_size(),
            final(self).capacity() == old(self).capacity(),
            forall|i: int| !final(self).bit(i),
    {
        let n = self.bits.len();
        self.bits = vec![0u32; n];
        assert forall|i: int| !self.bit(i) by {
            if 0 <= i < self.bits@.len() * 32 {
                lemma_bit_of_zero((i % 32) as u32);
            }
        }
    }
}

/// Appending a number of `n` bits to an array and reading those `n` bits back, most
/// significant first, gives the number again, where the array holds no bit behind its
/// size that the number does not have: the words are or-ed into, so that a bit that was
/// set within the capacity stays.
pub proof fn lemma_append_bits_round_trip(pre: BitArray, post: BitArray, value: u32, n: nat)
    requires
        pre.wf(),
        forall|i: int|
            pre.spec_size() <= i < pre.spec_size() + n && #[trigger] pre.bit(i) ==> bit32(
                value,
                (pre.spec_size() + n - 1 - i) as u32,
            ),
        0 < n <= 32,
        value < pow2(n),
        BitArray::appended(pre, post, value, n),
    ensures
        post@.len() == pre@.len() + n,
        bits_value(post@.subrange(pre@.len() as int, (pre@.len() + n) as int)) == value,
{
    lemma_low_bits_value(value, n);
    let read = post@.subrange(pre@.len() as int, (pre@.len() + n) as int);
    assert forall|j: int| 0 <= j < n implies read[j] == low_bits(value, n)[j] by {
        let i = pre.spec_size() + j;
        assert(post.bit(i) == (pre.bit(i) || bit32(value, (pre.spec_size() + n - 1 - i) as u32)));
    }
    assert(read =~= low_bits(value, n));
}

} // verus!
