//! Page attributes: a set of flags.

use vstd::prelude::*;

verus! {

/// Flags for page attributes.
#[derive(Copy, Clone, PartialEq, Eq, Debug, Structural)]
pub enum AttributeField {
    /// Readable by user-space threads
    UserRead,
    /// Writeable by user-space threads
    UserWrite,
    /// Executable by user-space threads
    UserExec,
    /// Readable by privileged threads
    KernelRead,
    /// Writeable by privileged threads
    KernelWrite,
    /// Executable by privileged threads
    KernelExec,
    /// Strongly-ordered memory consistency
    Device,
    /// Don't allocate cache on writes
    StreamOut,
    /// Don't allocate cache on reads
    StreamIn,
    /// Allocate memory in blocks because pages can't fault individually
    Block,
    /// Back mapping with memory only when accessed
    OnDemand,
    /// Ensure access does not fault due to page entry flags
    Accessed,
    /// Do not mark the underlying page as mapped because the mapping is outside the frame table
    ///
    /// Specifically, the RAM mapping at the bottom of kernel memory bypasses the frame table and
    /// device memory is not backed by physical ram.
    SuppressMapCount,
}

/// The bit position of a field, in declaration order.
pub open spec fn field_bit(field: AttributeField) -> u64 {
    match field {
        AttributeField::UserRead => 0,
        AttributeField::UserWrite => 1,
        AttributeField::UserExec => 2,
        AttributeField::KernelRead => 3,
        AttributeField::KernelWrite => 4,
        AttributeField::KernelExec => 5,
        AttributeField::Device => 6,
        AttributeField::StreamOut => 7,
        AttributeField::StreamIn => 8,
        AttributeField::Block => 9,
        AttributeField::OnDemand => 10,
        AttributeField::Accessed => 11,
        AttributeField::SuppressMapCount => 12,
    }
}

impl AttributeField {
    /// The bit position of the field in attributes.
    pub fn bit(self) -> (r: u64)
        ensures
            r == field_bit(self),
            r < 13,
    {
        match self {
            AttributeField::UserRead => 0,
            AttributeField::UserWrite => 1,
            AttributeField::UserExec => 2,
            AttributeField::KernelRead => 3,
            AttributeField::KernelWrite => 4,
            AttributeField::KernelExec => 5,
            AttributeField::Device => 6,
            AttributeField::StreamOut => 7,
            AttributeField::StreamIn => 8,
            AttributeField::Block => 9,
            AttributeField::OnDemand => 10,
            AttributeField::Accessed => 11,
            AttributeField::SuppressMapCount => 12,
        }
    }
}

/// Bit flags for page attributes.
#[derive(Copy, Clone, PartialEq, Eq, Debug, Structural)]
pub struct Attributes {
    bits: u64,
}

impl View for Attributes {
    /// The flag bits.
    type V = u64;

    closed spec fn view(&self) -> u64 {
        self.bits
    }
}

/// True iff the flag bits include the field.
pub open spec fn has_field(bits: u64, field: AttributeField) -> bool {
    bits & (1u64 << field_bit(field)) != 0
}

/// The flag bits with the field added.
pub open spec fn with_field(bits: u64, field: AttributeField) -> u64 {
    bits | (1u64 << field_bit(field))
}

impl Attributes {
    /// Construct empty attributes.
    pub fn new() -> (r: Self)
        ensures
            r@ == 0,
    {
        Self { bits: 0 }
    }

    /// Read the presence of a specific attribute flag.
    pub fn is_set(self, field: AttributeField) -> (r: bool)
        ensures
            r == has_field(self@, field),
    {
        0 != (self.bits & (1u64 << field.bit()))
    }

    /// Set a specific attribute flag so it will be read as present.
    pub fn set(self, field: AttributeField) -> (r: Self)
        ensures
            r@ == with_field(self@, field),
    {
        Self { bits: self.bits | (1u64 << field.bit()) }
    }

    /// Attributes with the given flag bits.
    pub fn from_bits(bits: u64) -> (r: Self)
        ensures
            r@ == bits,
    {
        Self { bits }
    }

    /// For kernel-mapped copy of RAM
    pub fn ram() -> (r: Self)
        ensures
            r@ == with_field(
                with_field(
                    with_field(with_field(0, AttributeField::KernelRead), AttributeField::KernelWrite),
                    AttributeField::Block,
                ),
                AttributeField::SuppressMapCount,
            ),
    {
        Attributes::new().set(AttributeField::KernelRead).set(AttributeField::KernelWrite).set(
            AttributeField::Block,
        ).set(AttributeField::SuppressMapCount)
    }

    /// For kernel code
    pub fn kernel_exec() -> (r: Self)
        ensures
            r@ == with_field(0, AttributeField::KernelExec),
    {
        Attributes::new().set(AttributeField::KernelExec)
    }

    /// For kernel read-only data
    pub fn kernel_ro_data() -> (r: Self)
        ensures
            r@ == with_field(0, AttributeField::KernelRead),
    {
        Attributes::new().set(AttributeField::KernelRead)
    }

    /// For kernel stack and heap
    pub fn kernel_data() -> (r: Self)
        ensures
            r@ == with_field(
                with_field(with_field(0, AttributeField::KernelRead), AttributeField::KernelWrite),
                AttributeField::OnDemand,
            ),
    {
        Attributes::new().set(AttributeField::KernelRead).set(AttributeField::KernelWrite).set(
            AttributeField::OnDemand,
        )
    }

    /// For kernel identity map on init, and Branch tables
    pub fn kernel_rwx() -> (r: Self)
        ensures
            r@ == with_field(
                with_field(
                    with_field(with_field(0, AttributeField::KernelRead), AttributeField::KernelWrite),
                    AttributeField::KernelExec,
                ),
                AttributeField::Block,
            ),
    {
        Attributes::new().set(AttributeField::KernelRead).set(AttributeField::KernelWrite).set(
            AttributeField::KernelExec,
        ).set(AttributeField::Block)
    }

    /// For memory mapped devices
    pub fn device() -> (r: Self)
        ensures
            r@ == with_field(
                with_field(
                    with_field(
                        with_field(
                            with_field(0, AttributeField::KernelRead),
                            AttributeField::KernelWrite,
                        ),
                        AttributeField::Device,
                    ),
                    AttributeField::Block,
                ),
                AttributeField::SuppressMapCount,
            ),
    {
        Attributes::new().set(AttributeField::KernelRead).set(AttributeField::KernelWrite).set(
            AttributeField::Device,
        ).set(AttributeField::Block).set(AttributeField::SuppressMapCount)
    }

    /// For user-space branch tables
    pub fn user_rwx() -> (r: Self)
        ensures
            r@ == with_field(
                with_field(with_field(0, AttributeField::UserRead), AttributeField::UserWrite),
                AttributeField::UserExec,
            ),
    {
        Attributes::new().set(AttributeField::UserRead).set(AttributeField::UserWrite).set(
            AttributeField::UserExec,
        )
    }

    /// For user process code
    pub fn user_exec() -> (r: Self)
        ensures
            r@ == with_field(0, AttributeField::UserExec),
    {
        Attributes::new().set(AttributeField::UserExec)
    }

    /// For user process read-only data
    pub fn user_ro_data() -> (r: Self)
        ensures
            r@ == with_field(0, AttributeField::UserRead),
    {
        Attributes::new().set(AttributeField::UserRead)
    }

    /// For user process data
    pub fn user_data() -> (r: Self)
        ensures
            r@ == with_field(with_field(0, AttributeField::UserRead), AttributeField::UserWrite),
    {
        Attributes::new().set(AttributeField::UserRead).set(AttributeField::UserWrite)
    }
}

impl Attributes {
    /// The attributes with the given flag bits.
    pub closed spec fn spec_from_bits(bits: u64) -> Attributes {
        Attributes { bits }
    }
}

impl core::ops::BitOr<AttributeField> for Attributes {
    type Output = Self;

    /// The attributes with the flag set, as `set` gives them.
    fn bitor(self, field: AttributeField) -> (r: Self) {
        proof {
            lemma_spec_from_bits(with_field(self@, field));
        }
        let r = self.set(field);
        proof {
            lemma_attributes_ext(r, Attributes::spec_from_bits(with_field(self@, field)));
        }
        r
    }
}

impl vstd::std_specs::ops::BitOrSpecImpl<AttributeField> for Attributes {
    open spec fn obeys_bitor_spec() -> bool {
        true
    }

    open spec fn bitor_req(self, field: AttributeField) -> bool {
        true
    }

    open spec fn bitor_spec(self, field: AttributeField) -> Self {
        Attributes::spec_from_bits(with_field(self@, field))
    }
}

/// The attributes made of flag bits have them.
pub broadcast proof fn lemma_spec_from_bits(bits: u64)
    ensures
        #[trigger] Attributes::spec_from_bits(bits)@ == bits,
{
}

/// Attributes with the same flag bits are equal.
pub proof fn lemma_attributes_ext(a: Attributes, b: Attributes)
    requires
        a@ == b@,
    ensures
        a == b,
{
}

/// A set flag reads as present, and setting one flag leaves every other flag as it was.
pub proof fn lemma_set_then_is_set(bits: u64, f: AttributeField, g: AttributeField)
    ensures
        has_field(with_field(bits, f), f),
        f != g ==> has_field(with_field(bits, f), g) == has_field(bits, g),
{
    let a = field_bit(f);
    let b = field_bit(g);
    assert(a < 13 && b < 13);
    assert(((bits | (1u64 << a)) & (1u64 << a)) != 0) by (bit_vector)
        requires
            a < 13,
    ;
    if f != g {
        assert(a != b);
        assert(((bits | (1u64 << a)) & (1u64 << b) != 0) == (bits & (1u64 << b) != 0))
            by (bit_vector)
            requires
                a < 13,
                b < 13,
                a != b,
        ;
    }
}

/// Empty attributes hold no flag.
pub proof fn lemma_new_is_empty(f: AttributeField)
    ensures
        !has_field(0, f),
{
    let a = field_bit(f);
    assert(a < 13);
    assert(0u64 & (1u64 << a) == 0) by (bit_vector);
}

/// True iff the flag bits hold exactly the fields of a set.
pub open spec fn has_exactly(bits: u64, fields: Set<AttributeField>) -> bool {
    forall|f: AttributeField| #[trigger] has_field(bits, f) <==> fields.contains(f)
}

/// No flag bits hold no field.
pub proof fn lemma_has_exactly_empty()
    ensures
        has_exactly(0, Set::empty()),
{
    assert forall|f: AttributeField| #[trigger] has_field(0, f) <==> Set::<AttributeField>::empty().contains(f) by {
        lemma_new_is_empty(f);
    }
}

/// Adding a field to flag bits adds it to the set of fields they hold.
pub proof fn lemma_has_exactly_with(bits: u64, fields: Set<AttributeField>, f: AttributeField)
    requires
        has_exactly(bits, fields),
    ensures
        has_exactly(with_field(bits, f), fields.insert(f)),
{
    assert forall|g: AttributeField| #[trigger] has_field(with_field(bits, f), g) <==> fields.insert(f).contains(g) by {
        lemma_set_then_is_set(bits, f, g);
    }
}

} // verus!
