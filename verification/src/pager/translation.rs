//! Mapping virtual addresses to physical addresses, linearly or by policy.
//!
//! At different times during the boot sequence, accessible memory may be mapped
//! at the same or different virtual addresses.

use super::addr::Addr;
use super::phys_addr::PhysAddr;
use super::virt_addr::VirtAddr;
use crate::{Error, Result};
use vstd::prelude::*;

verus! {

/// Able to translate.
pub trait Translate {
    /// True iff `translate` is defined at the virtual address.
    spec fn translates(&self, virt_addr: usize) -> bool;

    /// The physical address `translate` gives for a virtual address.
    spec fn spec_translate(&self, virt_addr: usize) -> usize;

    /// The physical address `translate_maybe` gives for a virtual address, if any.
    spec fn spec_translate_maybe(&self, virt_addr: usize) -> Option<usize>;

    /// The virtual address `translate_phys` gives for a physical address, if defined.
    spec fn spec_translate_phys(&self, phys_addr: usize) -> Option<usize>;

    /// Translate a virtual address to a physical address.
    fn translate(&self, virt_addr: VirtAddr) -> (r: PhysAddr)
        requires
            self.translates(virt_addr.value()),
        ensures
            r.value() == self.spec_translate(virt_addr.value()),
    ;

    /// Translate a virtual address to an option physical address.
    fn translate_maybe(&self, virt_addr: VirtAddr) -> (r: Option<PhysAddr>)
        requires
            self.translates(virt_addr.value()),
        ensures
            r == (match self.spec_translate_maybe(virt_addr.value()) {
                Some(p) => Some(PhysAddr(p)),
                None => None,
            }),
    ;

    /// Reverse translate a physical address to a virtual address, if defined.
    fn translate_phys(&self, phys_addr: PhysAddr) -> (r: Result<VirtAddr>)
        ensures
            r == (match self.spec_translate_phys(phys_addr.value()) {
                Some(v) => Ok(VirtAddr(v)),
                None => Err(Error::Undefined),
            }),
    ;
}

/// Translation such that physical address is always null.
#[derive(Copy, Clone, Debug)]
pub struct NullTranslation;

impl NullTranslation {
    /// Construct a new null translation
    pub fn new() -> (r: Self) {
        Self {  }
    }
}

impl Translate for NullTranslation {
    open spec fn translates(&self, virt_addr: usize) -> bool {
        true
    }

    open spec fn spec_translate(&self, virt_addr: usize) -> usize {
        0
    }

    open spec fn spec_translate_maybe(&self, virt_addr: usize) -> Option<usize> {
        None
    }

    open spec fn spec_translate_phys(&self, phys_addr: usize) -> Option<usize> {
        None
    }

    fn translate(&self, _virt_addr: VirtAddr) -> (r: PhysAddr) {
        PhysAddr::null()
    }

    fn translate_maybe(&self, _virt_addr: VirtAddr) -> (r: Option<PhysAddr>) {
        None
    }

    fn translate_phys(&self, _phys_addr: PhysAddr) -> (r: Result<VirtAddr>) {
        Err(Error::Undefined)
    }
}

/// Translation such that physical address is same as virtual address
#[derive(Copy, Clone, Debug)]
pub struct Identity;

impl Identity {
    /// Construct a new identity translation
    pub fn new() -> (r: Self) {
        Self {  }
    }
}

impl Translate for Identity {
    open spec fn translates(&self, virt_addr: usize) -> bool {
        true
    }

    open spec fn spec_translate(&self, virt_addr: usize) -> usize {
        virt_addr
    }

    open spec fn spec_translate_maybe(&self, virt_addr: usize) -> Option<usize> {
        Some(virt_addr)
    }

    open spec fn spec_translate_phys(&self, phys_addr: usize) -> Option<usize> {
        Some(phys_addr)
    }

    fn translate(&self, virt_addr: VirtAddr) -> (r: PhysAddr) {
        PhysAddr::identity_mapped(virt_addr)
    }

    fn translate_maybe(&self, virt_addr: VirtAddr) -> (r: Option<PhysAddr>) {
        Some(self.translate(virt_addr))
    }

    fn translate_phys(&self, phys_addr: PhysAddr) -> (r: Result<VirtAddr>) {
        Ok(VirtAddr::identity_mapped(phys_addr))
    }
}

/// A policy defining the translation using a fixed offset.
///
/// This translates downward from higher virtual addresses to lower physical addresses
/// such as you would need kernel is at the top of the virtual address space.
#[derive(Copy, Clone, Debug)]
pub struct FixedOffset(usize);

impl View for FixedOffset {
    /// The number of bytes by which virtual addresses exceed physical addresses.
    type V = usize;

    closed spec fn view(&self) -> usize {
        self.0
    }
}

impl FixedOffset {
    /// Define translation as difference between reference physical and virtual addresses.
    ///
    /// The physical address must not be above the virtual address.
    pub fn new(phys_addr: PhysAddr, virt_addr: VirtAddr) -> (r: Self)
        requires
            phys_addr.value() <= virt_addr.value(),
        ensures
            r@ == virt_addr.value() - phys_addr.value(),
    {
        let nominal_phys_addr = VirtAddr::identity_mapped(phys_addr);
        Self(virt_addr.offset_above(nominal_phys_addr))
    }

    /// Create null fixed offset - identity mapping.
    pub fn identity() -> (r: Self)
        ensures
            r@ == 0,
    {
        Self(0)
    }

    /// The fixed offset equivalent to the identity translation.
    pub fn from_identity(_identity: Identity) -> (r: Self)
        ensures
            r@ == 0,
    {
        Self(0)
    }
}

impl FixedOffset {
    /// The fixed offset by `offset` bytes.
    pub closed spec fn spec_of(offset: usize) -> FixedOffset {
        FixedOffset(offset)
    }
}

/// The fixed offset made of an offset has it.
pub broadcast proof fn lemma_fixed_offset_of(offset: usize)
    ensures
        (#[trigger] FixedOffset::spec_of(offset))@ == offset,
{
}

/// Fixed offsets with the same offset are equal.
pub proof fn lemma_fixed_offset_ext(a: FixedOffset, b: FixedOffset)
    requires
        a@ == b@,
    ensures
        a == b,
{
}

impl Translate for FixedOffset {
    closed spec fn translates(&self, virt_addr: usize) -> bool {
        self.0 <= virt_addr
    }

    closed spec fn spec_translate(&self, virt_addr: usize) -> usize {
        (virt_addr - self.0) as usize
    }

    closed spec fn spec_translate_maybe(&self, virt_addr: usize) -> Option<usize> {
        Some((virt_addr - self.0) as usize)
    }

    closed spec fn spec_translate_phys(&self, phys_addr: usize) -> Option<usize> {
        if phys_addr + self.0 <= usize::MAX {
            Some((phys_addr + self.0) as usize)
        } else {
            Some(0)
        }
    }

    /// Calculate the physical address a fixed offset below the virtual address.
    fn translate(&self, virt_addr: VirtAddr) -> (r: PhysAddr) {
        PhysAddr::identity_mapped(virt_addr.decrement(self.0))
    }

    fn translate_maybe(&self, virt_addr: VirtAddr) -> (r: Option<PhysAddr>) {
        Some(self.translate(virt_addr))
    }

    fn translate_phys(&self, phys_addr: PhysAddr) -> (r: Result<VirtAddr>) {
        Ok(VirtAddr::identity_mapped(phys_addr).increment(self.0))
    }
}

/// What the fixed-offset translation is, in terms of its offset.
pub proof fn lemma_fixed_offset(t: FixedOffset, va: usize, pa: usize)
    ensures
        t.translates(va) == (t@ <= va),
        t.translates(va) ==> t.spec_translate(va) == va - t@,
        t.translates(va) ==> t.spec_translate_maybe(va) == Some((va - t@) as usize),
        pa + t@ <= usize::MAX ==> t.spec_translate_phys(pa) == Some((pa + t@) as usize),
        pa + t@ > usize::MAX ==> t.spec_translate_phys(pa) == Some(0usize),
{
}

/// A fixed offset translates the virtual address it gives for a physical address
/// back to that physical address (where no wrap past the top of memory occurs), and
/// gives for the physical address of a virtual address that virtual address.
pub proof fn lemma_fixed_offset_round_trip(t: FixedOffset, pa: usize, va: usize)
    ensures
        pa + t@ <= usize::MAX ==> ({
            let v = t.spec_translate_phys(pa).unwrap();
            t.translates(v) && t.spec_translate(v) == pa
        }),
        t.translates(va) ==> t.spec_translate_phys(t.spec_translate(va)) == Some(va),
{
}

/// The identity translates each way to the same address.
pub proof fn lemma_identity_round_trip(t: Identity, pa: usize)
    ensures
        t.spec_translate_phys(pa) == Some(pa),
        t.spec_translate(t.spec_translate_phys(pa).unwrap()) == pa,
{
}

} // verus!
