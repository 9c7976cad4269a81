//! A bitfield: a compact container of boolean values, one bit each.
//!
//! The number of bits is fixed at creation. The view of a bitfield is the
//! sequence of its bits.

use vstd::prelude::*;

verus! {

/// A container of boolean values, stored one bit each in a byte vector.
pub struct Bitfield {
    /// The bitfield's data.
    data: Vec<u8>,
    /// The number of bits in the bitfield.
    len: usize,
}

/// The value of bit `i` of byte `b`.
pub open spec fn byte_bit(b: u8, i: int) -> bool {
    (b >> (i as u8)) & 1 == 1
}

impl View for Bitfield {
    type V = Seq<bool>;

    /// The bits of the bitfield, in order.
    closed spec fn view(&self) -> Seq<bool> {
        Seq::new(self.len as nat, |i: int| byte_bit(self.data@[i / 8], i % 8))
    }
}

/// Setting one bit of a byte leaves the others as they are.
proof fn lemma_byte_set(b: u8, k: u8)
    requires
        k < 8,
    ensures
        byte_bit(b | (1u8 << k), k as int),
        forall|j: u8| j < 8 && j != k ==> byte_bit(b | (1u8 << k), j as int) == byte_bit(
            b,
            j as int,
        ),
{
    assert(((b | (1u8 << k)) >> k) & 1 == 1) by (bit_vector)
        requires
            k < 8,
    ;
    assert forall|j: u8| j < 8 && j != k
        implies byte_bit(b | (1u8 << k), j as int) == byte_bit(b, j as int) by {
        assert(((b | (1u8 << k)) >> j) & 1 == (b >> j) & 1) by (bit_vector)
            requires
                k < 8,
                j < 8,
                j != k,
        ;
    }
}

/// Clearing one bit of a byte leaves the others as they are.
proof fn lemma_byte_clear(b: u8, k: u8)
    requires
        k < 8,
    ensures
        !byte_bit(b & !(1u8 << k), k as int),
        forall|j: u8| j < 8 && j != k ==> byte_bit(b & !(1u8 << k), j as int) == byte_bit(
            b,
            j as int,
        ),
{
    assert(((b & !(1u8 << k)) >> k) & 1 == 0) by (bit_vector)
        requires
            k < 8,
    ;
    assert forall|j: u8| j < 8 && j != k
        implies byte_bit(b & !(1u8 << k), j as int) == byte_bit(b, j as int) by {
        assert(((b & !(1u8 << k)) >> j) & 1 == (b >> j) & 1) by (bit_vector)
            requires
                k < 8,
                j < 8,
                j != k,
        ;
    }
}

/// A zero byte has no bit set; a byte of ones has every bit set.
proof fn lemma_byte_consts(j: u8)
    requires
        j < 8,
    ensures
        !byte_bit(0, j as int),
        byte_bit(0xff, j as int),
{
    assert((0u8 >> j) & 1 == 0) by (bit_vector);
    assert((0xffu8 >> j) & 1 == 1) by (bit_vector)
        requires
            j < 8,
    ;
}

impl Bitfield {
    /// The byte vector is exactly large enough for the bits.
    pub closed spec fn wf(self) -> bool {
        self.data@.len() == (self.len + 7) / 8
    }

    /// Creates a new bitfield with the given number of bits `len`, all
    /// clear.
    pub fn new(len: usize) -> (r: Bitfield)
        requires
            len <= usize::MAX - 7,
        ensures
            r.wf(),
            r@.len() == len,
            forall|i: int| 0 <= i < len ==> !r@[i],
    {
        let size = (len + 7) / 8;
        let mut data: Vec<u8> = Vec::new();
        let mut i: usize = 0;
        while i < size
            invariant
                i <= size,
                data@.len() == i as int,
                forall|j: int| 0 <= j < i as int ==> data@[j] == 0u8,
            decreases size - i,
        {
            data.push(0);
            i = i + 1;
        }
        let r = Bitfield { data, len };
        proof {
            assert forall|i2: int| 0 <= i2 < len implies !r@[i2] by {
                lemma_byte_consts((i2 % 8) as u8);
            }
        }
        r
    }

    /// Returns the number of bits in the bitfield.
    pub fn len(&self) -> (r: usize)
        ensures
            r == self@.len(),
    {
        self.len
    }

    /// Returns an immutable reference to a slice containing the bitfield's
    /// bytes.
    pub fn as_slice(&self) -> (r: &[u8])
        ensures
            r@ == self.spec_data(),
    {
        self.data.as_slice()
    }

    /// The underlying bytes.
    pub closed spec fn spec_data(self) -> Seq<u8> {
        self.data@
    }

    /// Returns the size of the memory region of the bitfield in bytes.
    pub fn mem_size(&self) -> (r: usize)
        requires
            self@.len() <= usize::MAX - 7,
        ensures
            r == (self@.len() + 7) / 8,
    {
        (self.len + 7) / 8
    }

    /// Tells whether bit `index` is set.
    pub fn is_set(&self, index: usize) -> (r: bool)
        requires
            self.wf(),
            index < self@.len(),
        ensures
            r == self@[index as int],
    {
        let unit = self.data[index / 8];
        (unit >> ((index % 8) as u8)) & 1 == 1
    }

    /// Sets bit `index`.
    pub fn set(&mut self, index: usize)
        requires
            old(self).wf(),
            index < old(self)@.len(),
        ensures
            final(self).wf(),
            final(self)@ == old(self)@.update(index as int, true),
    {
        let bi = index / 8;
        let k = (index % 8) as u8;
        let unit = self.data[bi];
        let nb = unit | (1u8 << k);
        self.data.set(bi, nb);
        proof {
            lemma_byte_set(unit, k);
            assert forall|i: int| 0 <= i < self@.len()
                implies self@[i] == old(self)@.update(index as int, true)[i] by {
                if i / 8 == bi as int && i != index as int {
                    assert((i % 8) as u8 != k);
                }
            }
            assert(self@ =~= old(self)@.update(index as int, true));
        }
    }

    /// Clears bit `index`.
    pub fn clear(&mut self, index: usize)
        requires
            old(self).wf(),
            index < old(self)@.len(),
        ensures
            final(self).wf(),
            final(self)@ == old(self)@.update(index as int, false),
    {
        let bi = index / 8;
        let k = (index % 8) as u8;
        let unit = self.data[bi];
        let nb = unit & !(1u8 << k);
        self.data.set(bi, nb);
        proof {
            lemma_byte_clear(unit, k);
            assert forall|i: int| 0 <= i < self@.len()
                implies self@[i] == old(self)@.update(index as int, false)[i] by {
                if i / 8 == bi as int && i != index as int {
                    assert((i % 8) as u8 != k);
                }
            }
            assert(self@ =~= old(self)@.update(index as int, false));
        }
    }

    /// Finds a set bit and returns its offset, or `None` when every bit is
    /// clear.
    pub fn find_set(&self) -> (r: Option<usize>)
        requires
            self.wf(),
        ensures
            match r {
                Option::Some(i) => i < self@.len() && self@[i as int] && (forall|j: int|
                    0 <= j < i ==> !self@[j]),
                Option::None => forall|j: int| 0 <= j < self@.len() ==> !self@[j],
            },
    {
        let mut i: usize = 0;
        while i < self.len
            invariant
                self.wf(),
                i <= self@.len(),
                forall|j: int| 0 <= j < i as int ==> !self@[j],
            decreases self@.len() - i,
        {
            if self.is_set(i) {
                return Option::Some(i);
            }
            i = i + 1;
        }
        Option::None
    }

    /// Finds a clear bit and returns its offset, or `None` when every bit
    /// is set.
    pub fn find_clear(&self) -> (r: Option<usize>)
        requires
            self.wf(),
        ensures
            match r {
                Option::Some(i) => i < self@.len() && !self@[i as int] && (forall|j: int|
                    0 <= j < i ==> self@[j]),
                Option::None => forall|j: int| 0 <= j < self@.len() ==> self@[j],
            },
    {
        let mut i: usize = 0;
        while i < self.len
            invariant
                self.wf(),
                i <= self@.len(),
                forall|j: int| 0 <= j < i as int ==> self@[j],
            decreases self@.len() - i,
        {
            if !self.is_set(i) {
                return Option::Some(i);
            }
            i = i + 1;
        }
        Option::None
    }

    /// Clears every bit in the bitfield.
    pub fn clear_all(&mut self)
        requires
            old(self).wf(),
        ensures
            final(self).wf(),
            final(self)@.len() == old(self)@.len(),
            forall|i: int| 0 <= i < final(self)@.len() ==> !final(self)@[i],
    {
        let size = self.data.len();
        let mut i: usize = 0;
        while i < size
            invariant
                size == self.data@.len(),
                self.len == old(self).len,
                self.wf(),
                i <= size,
                forall|j: int| 0 <= j < i as int ==> self.spec_data()[j] == 0u8,
            decreases size - i,
        {
            let ghost prev = *self;
            self.data.set(i, 0);
            proof {
                assert forall|j: int| 0 <= j <= i as int
                    implies self.spec_data()[j] == 0u8 by {
                    if j < i as int {
                        assert(prev.spec_data()[j] == 0u8);
                    }
                }
            }
            i = i + 1;
        }
        proof {
            assert forall|i2: int| 0 <= i2 < self@.len() implies !self@[i2] by {
                assert(self.spec_data()[i2 / 8] == 0u8);
                lemma_byte_consts((i2 % 8) as u8);
            }
        }
    }

    /// Sets every bit in the bitfield.
    pub fn set_all(&mut self)
        requires
            old(self).wf(),
        ensures
            final(self).wf(),
            final(self)@.len() == old(self)@.len(),
            forall|i: int| 0 <= i < final(self)@.len() ==> final(self)@[i],
    {
        let size = self.data.len();
        let mut i: usize = 0;
        while i < size
            invariant
                size == self.data@.len(),
                self.len == old(self).len,
                self.wf(),
                i <= size,
                forall|j: int| 0 <= j < i as int ==> self.spec_data()[j] == 0xffu8,
            decreases size - i,
        {
            let ghost prev = *self;
            self.data.set(i, 0xff);
            proof {
                assert forall|j: int| 0 <= j <= i as int
                    implies self.spec_data()[j] == 0xffu8 by {
                    if j < i as int {
                        assert(prev.spec_data()[j] == 0xffu8);
                    }
                }
            }
            i = i + 1;
        }
        proof {
            assert forall|i2: int| 0 <= i2 < self@.len() implies self@[i2] by {
                assert(self.spec_data()[i2 / 8] == 0xffu8);
                lemma_byte_consts((i2 % 8) as u8);
            }
        }
    }

    /// Returns an iterator over the bitfield's bits.
    pub fn iter(&self) -> (r: BitfieldIterator)
        ensures
            r.cursor == 0,
    {
        BitfieldIterator { cursor: 0 }
    }
}

/// Law: the view and the byte slice describe the same store -- bit `i` of
/// the bitfield is bit `i % 8` of byte `i / 8` of the slice that
/// `as_slice` exposes, and the slice is exactly large enough for the bits.
pub proof fn lemma_bitfield_layout(b: Bitfield)
    requires
        b.wf(),
    ensures
        b.spec_data().len() == (b@.len() + 7) / 8,
        forall|i: int| 0 <= i < b@.len() ==> b@[i] == byte_bit(b.spec_data()[i / 8], i % 8),
{
}

/// A cursor over the bits of a bitfield, yielding each bit in order.
pub struct BitfieldIterator {
    /// The position of the next bit to yield.
    pub cursor: usize,
}

impl BitfieldIterator {
    /// Yields the bit under the cursor of `bitfield` and advances, or
    /// returns `None` past the end.
    pub fn next(&mut self, bitfield: &Bitfield) -> (r: Option<bool>)
        requires
            bitfield.wf(),
        ensures
            old(self).cursor < bitfield@.len() ==> r == Option::Some(
                bitfield@[old(self).cursor as int],
            ) && final(self).cursor == old(self).cursor + 1,
            old(self).cursor >= bitfield@.len() ==> r is None && final(self).cursor == old(
                self,
            ).cursor,
    {
        if self.cursor < bitfield.len() {
            let val = bitfield.is_set(self.cursor);
            self.cursor = self.cursor + 1;
            Option::Some(val)
        } else {
            Option::None
        }
    }
}

} // verus!
