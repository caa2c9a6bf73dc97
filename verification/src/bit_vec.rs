//! A growable sequence of bits, packed eight to a byte with the least
//! significant bit first, and an iterator over its bits.

use vstd::prelude::*;

verus! {

const BITS: usize = 8;

/// Whether bit `k` (counted from the least significant one) of `byte` is set.
pub open spec fn bit_set(byte: u8, k: u8) -> bool {
    (byte >> k) & 1 == 1
}

/// The number of bits held by a buffer whose last byte has `used` bits occupied.
spec fn unpacked_len(bytes: Seq<u8>, used: u8) -> nat {
    if bytes.len() == 0 {
        0
    } else {
        ((bytes.len() - 1) * 8 + used) as nat
    }
}

/// The bits held by a buffer, least significant bit of each byte first.
spec fn unpack(bytes: Seq<u8>, used: u8) -> Seq<bool> {
    Seq::new(unpacked_len(bytes, used), |i: int| bit_set(bytes[i / 8], (i % 8) as u8))
}

/// `bytes` is the packed form of `bits`: eight bits to a byte, least
/// significant first, the unused bits of the last byte cleared.
pub open spec fn is_packing_of(bytes: Seq<u8>, bits: Seq<bool>) -> bool {
    &&& bytes.len() == (bits.len() + 7) / 8
    &&& forall|i: int|
        0 <= i < bytes.len() * 8 ==> #[trigger] bit_set(bytes[i / 8], (i % 8) as u8) == (i
            < bits.len() && bits[i])
}

proof fn lemma_zero_byte(k: u8)
    by (bit_vector)
    requires
        k < 8,
    ensures
        !bit_set(0u8, k),
{
}

proof fn lemma_flip_bit(byte: u8, k: u8, j: u8)
    by (bit_vector)
    requires
        k < 8,
        j < 8,
    ensures
        bit_set(byte ^ (1u8 << k), j) == (if j == k {
            !bit_set(byte, j)
        } else {
            bit_set(byte, j)
        }),
{
}

/// A growable sequence of bits, packed eight to a byte.
///
/// Its view is the sequence of the bits pushed so far, in push order.
#[derive(Debug, Eq, PartialEq, Hash)]
pub struct BitVec {
    bit: u8,
    data: Vec<u8>,
}

impl View for BitVec {
    type V = Seq<bool>;

    closed spec fn view(&self) -> Seq<bool> {
        unpack(self.data@, self.bit)
    }
}

/// A buffer and the count of bits occupied in its last byte form a bit
/// sequence: the count is 8 while there is no byte, 1 to 8 otherwise, and
/// the bits of the last byte above it are clear.
spec fn well_packed(bytes: Seq<u8>, used: u8) -> bool {
    &&& 1 <= used <= 8
    &&& bytes.len() == 0 ==> used == 8
    &&& bytes.len() > 0 ==> forall|k: u8| used <= k < 8 ==> !#[trigger] bit_set(bytes.last(), k)
}

proof fn lemma_unpack_is_packing(bytes: Seq<u8>, used: u8)
    requires
        well_packed(bytes, used),
    ensures
        is_packing_of(bytes, unpack(bytes, used)),
{
    let bits = unpack(bytes, used);
    assert forall|i: int| 0 <= i < bytes.len() * 8 implies #[trigger] bit_set(
        bytes[i / 8],
        (i % 8) as u8,
    ) == (i < bits.len() && bits[i]) by {
        if i >= bits.len() {
            assert(i / 8 == bytes.len() - 1);
            assert(bytes[i / 8] == bytes.last());
        }
    }
}

/// The bits held after the bits of `more` were pushed, one by one, onto a
/// vector that held `start`.
pub open spec fn pushed(start: Seq<bool>, more: Seq<bool>) -> Seq<bool>
    decreases more.len(),
{
    if more.len() == 0 {
        start
    } else {
        pushed(start, more.drop_last()).push(more.last())
    }
}

/// Pushing bits one by one onto an empty vector gives a vector that holds
/// just these bits, as many as were pushed.
pub proof fn lemma_pushed_onto_empty(more: Seq<bool>)
    ensures
        pushed(Seq::empty(), more) == more,
        pushed(Seq::empty(), more).len() == more.len(),
    decreases more.len(),
{
    if more.len() > 0 {
        lemma_pushed_onto_empty(more.drop_last());
        assert(more.drop_last().push(more.last()) =~= more);
    }
}

/// Vec::capacity of std: the number of elements the vector can hold without
/// reallocating, which is never less than the number it holds.
#[verifier::external_body]
fn byte_capacity(data: &Vec<u8>) -> (n: usize)
    ensures
        n >= data@.len(),
{
    data.capacity()
}

impl Clone for BitVec {
    fn clone(&self) -> (v: BitVec)
        ensures
            v@ == self@,
    {
        proof {
            use_type_invariant(self);
        }
        let data = self.data.clone();
        assert(data@ =~= self.data@);
        BitVec { bit: self.bit, data }
    }
}

impl BitVec {
    #[verifier::type_invariant]
    spec fn inv(&self) -> bool {
        well_packed(self.data@, self.bit)
    }

    /// Constructs a new, empty `BitVec`.
    pub fn new() -> (v: BitVec)
        ensures
            v@ == Seq::<bool>::empty(),
    {
        Self::with_capacity(0)
    }

    /// Constructs a new, empty `BitVec` with room for `capacity` bits,
    /// rounded up to whole bytes.
    pub fn with_capacity(capacity: usize) -> (v: BitVec)
        requires
            capacity + 8 <= usize::MAX,
        ensures
            v@ == Seq::<bool>::empty(),
    {
        let bytes = Self::byte_pos(capacity + BITS - 1);
        let v = BitVec { bit: 8, data: Vec::with_capacity(bytes) };
        assert(v@ =~= Seq::<bool>::empty());
        v
    }

    #[inline]
    fn byte_pos(index: usize) -> (pos: usize)
        ensures
            pos == index / 8,
    {
        index / BITS
    }

    /// Returns the number of bits the vector can hold without reallocating,
    /// a multiple of 8, or `usize::MAX` where that number does not fit.
    pub fn capacity(&self) -> (n: usize)
        ensures
            n >= self@.len() || n == usize::MAX,
            n % 8 == 0 || n == usize::MAX,
    {
        proof {
            use_type_invariant(self);
        }
        let bytes = byte_capacity(&self.data);
        if bytes > usize::MAX / BITS {
            usize::MAX
        } else {
            bytes * BITS
        }
    }

    /// Returns the number of bits in the vector.
    pub fn len(&self) -> (n: usize)
        requires
            self@.len() <= usize::MAX,
        ensures
            n == self@.len(),
    {
        proof {
            use_type_invariant(self);
        }
        let bytes = self.data.len();
        if bytes == 0 {
            0
        } else {
            (bytes - 1) * BITS + self.bit as usize
        }
    }

    /// Appends a bit to the back of the vector.
    pub fn push(&mut self, value: bool)
        ensures
            final(self)@ == old(self)@.push(value),
    {
        // The parts are worked on by value, so that the buffer may grow
        // before the cursor is moved.
        let mut this = BitVec { bit: 8, data: Vec::new() };
        core::mem::swap(self, &mut this);
        proof {
            use_type_invariant(&this);
        }
        let ghost before = this@;
        let BitVec { mut bit, mut data } = this;
        if bit == 8 {
            data.push(0);
            bit = 0;
            proof {
                assert forall|k: u8| k < 8 implies !#[trigger] bit_set(data@.last(), k) by {
                    lemma_zero_byte(k);
                }
            }
        }
        let ghost bytes = data@;
        if value {
            let last = data.len() - 1;
            let byte = data[last];
            data.set(last, byte ^ (1u8 << bit));
            proof {
                assert forall|j: u8| j < 8 implies bit_set(data@.last(), j) == (if j == bit {
                    !bit_set(byte, j)
                } else {
                    bit_set(byte, j)
                }) by {
                    lemma_flip_bit(byte, bit, j);
                }
            }
        }
        proof {
            assert(!bit_set(bytes.last(), bit));
            assert(forall|j: u8| j < 8 && j != bit ==> bit_set(data@.last(), j) == bit_set(bytes.last(), j));
            assert(bit_set(data@.last(), bit) == value);
            assert forall|k: u8| bit + 1 <= k < 8 implies !#[trigger] bit_set(data@.last(), k) by {
                assert(!bit_set(bytes.last(), k));
            }
        }
        bit += 1;
        *self = BitVec { bit, data };
        assert(self@ =~= before.push(value));
    }

    /// Splits the vector in two: the whole bytes, and the bits of the last
    /// byte where it is only partly filled.
    pub fn split_rest(self) -> (parts: (BitVec, BitVec))
        ensures
            parts.0@ + parts.1@ == self@,
            parts.1@.len() == self@.len() % 8,
            self@.len() % 8 == 0 ==> parts.0@ == self@ && parts.1@ == Seq::<bool>::empty(),
    {
        proof {
            use_type_invariant(&self);
        }
        if self.bit == 8 {
            let last = BitVec::new();
            assert(self@ + last@ =~= self@);
            (self, last)
        } else {
            let ghost whole = self@;
            let BitVec { bit, mut data } = self;
            let mut last = BitVec::with_capacity(8);
            let b = data.pop().unwrap();
            let mut i: u8 = 0;
            while i < bit
                invariant
                    i <= bit < 8,
                    last@.len() == i,
                    forall|k: int| 0 <= k < i ==> last@[k] == bit_set(b, k as u8),
                decreases bit - i,
            {
                last.push((b >> i) & 1 == 1);
                i += 1;
            }
            let rest = BitVec { bit: 8, data };
            assert(rest@ + last@ =~= whole);
            (rest, last)
        }
    }

    /// Converts the vector into its packed bytes.
    pub fn into_bytes(self) -> (bytes: Vec<u8>)
        ensures
            is_packing_of(bytes@, self@),
            bytes@.len() == (self@.len() + 7) / 8,
    {
        proof {
            use_type_invariant(&self);
            lemma_unpack_is_packing(self.data@, self.bit);
        }
        self.data
    }

    /// Returns an iterator over the bits of the vector, in push order.
    pub fn iter(&self) -> (it: Iter<'_>)
        ensures
            it@ == self@,
    {
        proof {
            use_type_invariant(self);
        }
        let it = Iter { pos: 0, last_bit: self.bit, bit: 0, data: self.data.as_slice() };
        assert(it@ =~= self@);
        it
    }

    /// Builds a vector by pushing the given bits, one by one.
    fn from_bits(bits: &[bool]) -> (v: BitVec)
        ensures
            v@ == bits@,
    {
        let mut v = if bits.len() <= usize::MAX - BITS {
            BitVec::with_capacity(bits.len())
        } else {
            BitVec::new()
        };
        let mut i: usize = 0;
        while i < bits.len()
            invariant
                i <= bits.len(),
                v@ == pushed(Seq::empty(), bits@.take(i as int)),
            decreases bits.len() - i,
        {
            v.push(bits[i]);
            assert(bits@.take(i + 1).drop_last() =~= bits@.take(i as int));
            i += 1;
        }
        proof {
            assert(bits@.take(i as int) =~= bits@);
            lemma_pushed_onto_empty(bits@);
        }
        v
    }
}

impl From<Vec<bool>> for BitVec {
    fn from(bits: Vec<bool>) -> (v: BitVec)
        ensures
            v@ == bits@,
    {
        BitVec::from_bits(bits.as_slice())
    }
}

/// What `from` returns is stated by its own contract, over the views.
impl vstd::std_specs::convert::FromSpecImpl<Vec<bool>> for BitVec {
    open spec fn obeys_from_spec() -> bool {
        false
    }

    open spec fn from_spec(bits: Vec<bool>) -> BitVec {
        arbitrary()
    }
}

impl From<&[bool]> for BitVec {
    fn from(bits: &[bool]) -> (v: BitVec)
        ensures
            v@ == bits@,
    {
        BitVec::from_bits(bits)
    }
}

/// What `from` returns is stated by its own contract, over the views.
impl vstd::std_specs::convert::FromSpecImpl<&[bool]> for BitVec {
    open spec fn obeys_from_spec() -> bool {
        false
    }

    open spec fn from_spec(bits: &[bool]) -> BitVec {
        arbitrary()
    }
}

/// An iterator over the bits of a [`BitVec`].
///
/// Its view is the sequence of the bits it has yet to yield.
pub struct Iter<'a> {
    pos: usize,
    last_bit: u8,
    bit: u8,
    data: &'a [u8],
}

impl<'a> View for Iter<'a> {
    type V = Seq<bool>;

    closed spec fn view(&self) -> Seq<bool> {
        let bits = unpack(self.data@, self.last_bit);
        bits.subrange(self.offset(), bits.len() as int)
    }
}

impl<'a> Iter<'a> {
    #[verifier::type_invariant]
    spec fn inv(&self) -> bool {
        &&& 1 <= self.last_bit <= 8
        &&& self.bit <= 8
        &&& self.pos <= self.data@.len()
        &&& self.pos == self.data@.len() ==> self.bit == 0
        &&& self.pos + 1 == self.data@.len() ==> self.bit <= self.last_bit
    }

    /// The number of bits that lie before the cursor.
    spec fn offset(&self) -> int {
        let n = unpacked_len(self.data@, self.last_bit);
        if self.pos * 8 + self.bit <= n {
            self.pos * 8 + self.bit
        } else {
            n as int
        }
    }
}

impl<'a> Iterator for Iter<'a> {
    type Item = bool;

    fn next(&mut self) -> (r: Option<bool>)
        ensures
            old(self)@.len() == 0 ==> r is None && final(self)@ == old(self)@,
            old(self)@.len() > 0 ==> r == Some(old(self)@[0]) && final(self)@ == old(self)@.drop_first(),
    {
        proof {
            use_type_invariant(&*self);
        }
        let ghost before = self@;
        let bytes = self.data.len();
        if self.bit == BITS as u8 || bytes - self.pos == 1 && self.bit == self.last_bit {
            self.bit = 0;
            self.pos += 1;
        }
        assert(self@ =~= before);
        if self.pos == bytes {
            return None;
        }
        let b = (self.data[self.pos] >> self.bit) & 1;
        assert(self.offset() / 8 == self.pos && self.offset() % 8 == self.bit);
        self.bit += 1;
        assert(self@ =~= before.drop_first());
        Some(b == 1)
    }
}

impl<'a> vstd::std_specs::iter::IteratorSpecImpl for Iter<'a> {
    open spec fn obeys_prophetic_iter_laws(&self) -> bool {
        true
    }

    open spec fn remaining(&self) -> Seq<bool> {
        self@
    }

    open spec fn will_return_none(&self) -> bool {
        true
    }

    open spec fn decrease(&self) -> Option<nat> {
        Some(self@.len())
    }

    open spec fn initial_value_relation(&self, init: &Self) -> bool {
        init@ == self@
    }

    open spec fn peek(&self, index: int) -> Option<bool> {
        if 0 <= index < self@.len() {
            Some(self@[index])
        } else {
            None
        }
    }
}

} // verus!
