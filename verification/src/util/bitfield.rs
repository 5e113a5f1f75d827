//! In-memory bit structs that fit into a 64-bit integer, read and written by field.

use vstd::prelude::*;

verus! {

/// A field of `mask`'s width at bit `shift`.
#[derive(Copy, Clone, PartialEq, Eq, Debug, Structural)]
pub struct Field {
    /// The field's bits, unshifted.
    pub mask: u64,
    /// The position of the field's lowest bit.
    pub shift: u64,
}

/// A set of field values: the bits covered, and their values.
#[derive(Copy, Clone, PartialEq, Eq, Debug, Structural)]
pub struct FieldValue {
    /// The bits the value covers.
    pub mask: u64,
    /// The bits' values.
    pub value: u64,
}

impl Field {
    /// The field of `mask`'s width at bit `shift`.
    pub fn new(mask: u64, shift: u64) -> (r: Field)
        requires
            shift < 64,
        ensures
            r.mask == mask,
            r.shift == shift,
    {
        Field { mask, shift }
    }

    /// The field holding `value` (truncated to the field's width).
    pub fn val(self, value: u64) -> (r: FieldValue)
        requires
            self.shift < 64,
        ensures
            r.mask == self.mask << self.shift,
            r.value == (value & self.mask) << self.shift,
    {
        FieldValue::new(self.mask, self.shift, value)
    }

    /// The field with all its bits set.
    pub fn set(self) -> (r: FieldValue)
        requires
            self.shift < 64,
        ensures
            r.mask == self.mask << self.shift,
            r.value == (self.mask & self.mask) << self.shift,
    {
        self.val(self.mask)
    }
}

impl FieldValue {
    /// The value `value` in the field of `mask`'s width at bit `shift`.
    pub fn new(mask: u64, shift: u64, value: u64) -> (r: FieldValue)
        requires
            shift < 64,
        ensures
            r.mask == mask << shift,
            r.value == (value & mask) << shift,
    {
        FieldValue { mask: mask << shift, value: (value & mask) << shift }
    }

    /// Both sets of field values together.
    pub fn plus(self, other: FieldValue) -> (r: FieldValue)
        ensures
            r.mask == self.mask | other.mask,
            r.value == self.value | other.value,
    {
        FieldValue { mask: self.mask | other.mask, value: self.value | other.value }
    }

    /// `val` with the covered bits replaced by these values.
    pub fn modify(self, val: u64) -> (r: u64)
        ensures
            r == (val & !self.mask) | self.value,
    {
        (val & !self.mask) | self.value
    }

    /// The bits covered.
    pub fn mask(self) -> (r: u64)
        ensures
            r == self.mask,
    {
        self.mask
    }
}

/// An in-memory bit struct that fits into a 64-bit integer.
#[derive(Copy, Clone, PartialEq, Eq, Debug, Structural)]
pub struct Bitfield {
    value: u64,
}

impl View for Bitfield {
    /// The aggregate value.
    type V = u64;

    closed spec fn view(&self) -> u64 {
        self.value
    }
}

impl Bitfield {
    /// New bitfield with given value.
    pub fn new(value: u64) -> (r: Self)
        ensures
            r@ == value,
    {
        Self { value }
    }

    /// New bitfield holding the field values.
    pub fn from_field_value(field: FieldValue) -> (r: Self)
        ensures
            r@ == field.value,
    {
        Self::new(field.value)
    }

    /// Retrieve the aggregate value.
    pub fn get(&self) -> (r: u64)
        ensures
            r == self@,
    {
        self.value
    }

    /// Set the aggregate value
    fn set(&mut self, value: u64)
        ensures
            final(self)@ == value,
    {
        self.value = value;
    }

    /// Read a field.
    pub fn read(&self, field: Field) -> (r: u64)
        requires
            field.shift < 64,
        ensures
            r == (self@ & (field.mask << field.shift)) >> field.shift,
    {
        (self.get() & (field.mask << field.shift)) >> field.shift
    }

    /// Set the aggregate value to the field values.
    pub fn write(&mut self, field: FieldValue)
        ensures
            final(self)@ == field.value,
    {
        self.set(field.value);
    }

    /// Change a set of field values.
    pub fn modify(&mut self, field: FieldValue)
        ensures
            final(self)@ == (old(self)@ & !field.mask) | field.value,
    {
        let v = field.modify(self.get());
        self.set(v);
    }

    /// Determine if a specific flag is set.
    pub fn is_set(&self, field: Field) -> (r: bool)
        requires
            field.shift < 64,
        ensures
            r == ((self@ & (field.mask << field.shift)) >> field.shift != 0),
    {
        self.read(field) != 0
    }

    /// Determine if any of a set of specific flags is set.
    pub fn matches_any(&self, field: FieldValue) -> (r: bool)
        ensures
            r == (self@ & field.mask != 0),
    {
        self.get() & field.mask() != 0
    }

    /// Determine if all of a set of specific flags is set.
    pub fn matches_all(&self, field: FieldValue) -> (r: bool)
        ensures
            r == (self@ & field.mask == field.value),
    {
        self.get() & field.mask() == field.value
    }
}

/// A value written into a field that fits in the word reads back from the field as
/// the value truncated to the field's width, and writing a field leaves the bits
/// outside it as they were.
pub proof fn lemma_field_write_then_read(word: u64, value: u64, mask: u64, shift: u64)
    by (bit_vector)
    requires
        shift < 64,
        mask <= 0xffff_ffff_ffff_ffffu64 >> shift,
    ensures
        ((((value & mask) << shift) & (mask << shift)) >> shift) == value & mask,
        (((word & !(mask << shift)) | ((value & mask) << shift)) & (mask << shift)) >> shift
            == value & mask,
        ((word & !(mask << shift)) | ((value & mask) << shift)) & !(mask << shift) == word & !(
        mask << shift),
{
}

} // verus!
