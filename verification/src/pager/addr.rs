//! Addresses and address ranges, shared by virtual and physical addresses.

use vstd::arithmetic::div_mod::{lemma_fundamental_div_mod, lemma_mod_multiples_basic};
use vstd::arithmetic::power2::{lemma2_to64, lemma_pow2_pos, pow2};
use vstd::bits::{lemma_usize_low_bits_mask_is_mod, lemma_usize_pow2_no_overflow, low_bits_mask};
use vstd::prelude::*;

verus! {

/// Number of bytes in a cluster-wide atomic page.
pub const PAGESIZE_BYTES: usize = 4096;

/// True iff `b` is a power of two that fits in a `usize`.
pub open spec fn is_power_of_two(b: usize) -> bool {
    exists|k: nat| k < usize::BITS && b == #[trigger] pow2(k)
}

/// The page size is a power of two.
pub proof fn lemma_page_size_is_power_of_two()
    ensures
        is_power_of_two(PAGESIZE_BYTES),
{
    lemma2_to64();
    assert(PAGESIZE_BYTES == pow2(12));
}

/// Masking with one less than a power of two gives the remainder modulo it, and
/// masking with the complement rounds down to a multiple of it.
pub proof fn lemma_mask_is_mod(v: usize, b: usize)
    requires
        is_power_of_two(b),
    ensures
        b > 0,
        v & ((b - 1) as usize) == v % b,
        v & !((b - 1) as usize) == v - v % b,
{
    let k = choose|k: nat| k < usize::BITS && b == #[trigger] pow2(k);
    lemma_pow2_pos(k);
    lemma_usize_pow2_no_overflow(k);
    lemma_usize_low_bits_mask_is_mod(v, k);
    assert(low_bits_mask(k) == b - 1);
    let m = (b - 1) as usize;
    assert((v & !m) + (v & m) == v) by (bit_vector);
}

/// Rounding down to a multiple of a positive divisor.
pub proof fn lemma_round_down(w: int, b: int)
    requires
        w >= 0,
        b > 0,
    ensures
        (w - w % b) % b == 0,
        w - b < w - w % b <= w,
{
    lemma_fundamental_div_mod(w, b);
    lemma_mod_multiples_basic(w / b, b);
    assert(w - w % b == (w / b) * b) by (nonlinear_arith)
        requires
            w == b * (w / b) + w % b,
    ;
}

/// The intersection of the half-open ranges `[b1, b1 + l1)` and `[b2, b2 + l2)`
/// as base and length, if they meet (ranges that only touch meet in an empty range).
pub open spec fn intersection_of(b1: int, l1: int, b2: int, l2: int) -> Option<(int, int)> {
    let start = if b1 <= b2 {
        b2
    } else {
        b1
    };
    let end = if b1 + l1 <= b2 + l2 {
        b1 + l1
    } else {
        b2 + l2
    };
    if start <= end {
        Some((start, end - start))
    } else {
        None
    }
}

/// The overlap of two ranges does not depend on their order.
pub proof fn lemma_intersection_symmetric(b1: int, l1: int, b2: int, l2: int)
    ensures
        intersection_of(b1, l1, b2, l2) == intersection_of(b2, l2, b1, l1),
{
}

/// A range overlaps itself in the whole range.
pub proof fn lemma_intersection_idempotent(b: int, l: int)
    requires
        l >= 0,
    ensures
        intersection_of(b, l, b, l) == Some((b, l)),
{
}

/// The overlap of two ranges lies within each of them.
pub proof fn lemma_intersection_within(b1: int, l1: int, b2: int, l2: int)
    requires
        l1 >= 0,
        l2 >= 0,
    ensures
        intersection_of(b1, l1, b2, l2) matches Some(bl) ==> {
            &&& bl.1 >= 0
            &&& b1 <= bl.0 && bl.0 + bl.1 <= b1 + l1
            &&& b2 <= bl.0 && bl.0 + bl.1 <= b2 + l2
        },
        intersection_of(b1, l1, b2, l2) is None <==> (b1 + l1 < b2 || b2 + l2 < b1),
{
}

/// A usize value representing either a virtual or physical address.
pub trait Addr: Sized + Copy {
    /// The address as an integer.
    spec fn value(&self) -> usize;

    /// Construct at literal address.
    fn at(addr: usize) -> (r: Self)
        ensures
            r.value() == addr,
    ;

    /// Get the offset from memory base in bytes.
    fn get(&self) -> (r: usize)
        ensures
            r == self.value(),
    ;

    /// Lowest possible address.
    fn null() -> (r: Self)
        ensures
            r.value() == 0,
    {
        Self::at(0)
    }

    /// Get the offset from memory base as a pair of u32 (high, low).
    fn hilo(&self) -> (r: (u32, u32))
        ensures
            r.0 == self.value() as int / 0x1_0000_0000int,
            r.1 == self.value() as int % 0x1_0000_0000int,
    {
        let p = self.get() as u64;
        proof {
            assert(p >> 32u64 == p / 0x1_0000_0000 && p >> 32u64 <= 0xffff_ffff) by (bit_vector);
            assert(p & 0xffff_ffff == p % 0x1_0000_0000) by (bit_vector);
        }
        ((p >> 32u64) as u32, (p & 0xffff_ffff) as u32)
    }

    /// Number of bytes above reference point.
    fn offset_above(&self, base: Self) -> (r: usize)
        requires
            base.value() <= self.value(),
        ensures
            r == self.value() - base.value(),
    {
        self.get() - base.get()
    }

    /// Number of bytes below reference point.
    fn offset_below(&self, top: Self) -> (r: usize)
        requires
            self.value() <= top.value(),
        ensures
            r == top.value() - self.value(),
    {
        top.get() - self.get()
    }

    /// An address that is lower than this by a given number of bytes.
    fn decrement(&self, offset: usize) -> (r: Self)
        requires
            offset <= self.value(),
        ensures
            r.value() == self.value() - offset,
    {
        Self::at(self.get() - offset)
    }

    /// An address that is higher than this by a given number of bytes, or null
    /// where that would be beyond the top of memory.
    fn increment(&self, offset: usize) -> (r: Self)
        ensures
            r.value() == (if self.value() + offset <= usize::MAX {
                self.value() + offset
            } else {
                0
            }),
    {
        match self.get().checked_add(offset) {
            Some(top) => Self::at(top),
            None => Self::null(),
        }
    }

    /// Aligned on a byte boundary.
    fn is_aligned(&self, boundary: usize) -> (r: bool)
        requires
            is_power_of_two(boundary),
        ensures
            r == (self.value() % boundary == 0),
    {
        proof {
            lemma_mask_is_mod(self.value(), boundary);
        }
        0 == self.get() & (boundary - 1)
    }

    /// Nearest higher address with given alignment.
    fn align_up(&self, boundary: usize) -> (r: Self)
        requires
            is_power_of_two(boundary),
            self.value() + boundary - 1 <= usize::MAX,
        ensures
            r.value() % boundary == 0,
            self.value() <= r.value() < self.value() + boundary,
    {
        proof {
            lemma_mask_is_mod((self.value() + boundary - 1) as usize, boundary);
            lemma_round_down(self.value() + boundary - 1, boundary as int);
        }
        Self::at((self.get() + (boundary - 1)) & !(boundary - 1))
    }

    /// Nearest lower address with given alignment.
    fn align_down(&self, boundary: usize) -> (r: Self)
        requires
            is_power_of_two(boundary),
        ensures
            r.value() % boundary == 0,
            r.value() <= self.value() < r.value() + boundary,
    {
        proof {
            lemma_mask_is_mod(self.value(), boundary);
            lemma_round_down(self.value() as int, boundary as int);
        }
        Self::at(self.get() & !(boundary - 1))
    }

    /// Address of page containing address.
    fn page_base(&self) -> (r: Self)
        ensures
            r.value() == self.value() - self.value() % PAGESIZE_BYTES,
    {
        proof {
            lemma_page_size_is_power_of_two();
            lemma_mask_is_mod(self.value(), PAGESIZE_BYTES);
        }
        Self::at(self.get() & !(PAGESIZE_BYTES - 1))
    }

    /// Addresses offset within page.
    fn page_offset(&self) -> (r: usize)
        ensures
            r == self.value() % PAGESIZE_BYTES,
    {
        proof {
            lemma_page_size_is_power_of_two();
            lemma_mask_is_mod(self.value(), PAGESIZE_BYTES);
        }
        self.get() & (PAGESIZE_BYTES - 1)
    }
}

/// A contiguous range bounded by two of either virtual or physical addresses.
pub trait AddrRange<A: Addr>: Sized + Copy {
    /// The base of the range as an integer.
    spec fn spec_base(&self) -> usize;

    /// The length of the range in bytes.
    spec fn spec_length(&self) -> usize;

    /// Construct from base and length.
    fn new(base: A, length: usize) -> (r: Self)
        ensures
            r.spec_base() == base.value(),
            r.spec_length() == length,
    ;

    /// Get the base of the range.
    fn base(&self) -> (r: A)
        ensures
            r.value() == self.spec_base(),
    ;

    /// Length of the range in bytes.
    fn length(&self) -> (r: usize)
        ensures
            r == self.spec_length(),
    ;

    /// Construct from base with one page width
    fn page_at(base: A) -> (r: Self)
        ensures
            r.spec_base() == base.value(),
            r.spec_length() == PAGESIZE_BYTES,
    {
        Self::new(base, PAGESIZE_BYTES)
    }

    /// Single page containing given address
    fn page_containing(addr: A) -> (r: Self)
        ensures
            r.spec_base() == addr.value() - addr.value() % PAGESIZE_BYTES,
            r.spec_length() == PAGESIZE_BYTES,
    {
        Self::page_at(addr.page_base())
    }

    /// Range between two addresses.
    fn between(base: A, top: A) -> (r: Self)
        requires
            base.value() <= top.value(),
        ensures
            r.spec_base() == base.value(),
            r.spec_length() == top.value() - base.value(),
    {
        Self::new(base, top.offset_above(base))
    }

    /// Address at the top of the range.
    fn top(&self) -> (r: A)
        requires
            self.spec_base() + self.spec_length() <= usize::MAX,
        ensures
            r.value() == self.spec_base() + self.spec_length(),
    {
        A::at(self.base().get() + self.length())
    }

    /// Is range aligned base and top aligned at boundary.
    fn is_aligned(&self, boundary: usize) -> (r: bool)
        requires
            boundary > 0,
        ensures
            r == ((self.spec_base() | self.spec_length()) & ((boundary - 1) as usize) == 0),
            is_power_of_two(boundary) ==> (r == (self.spec_base() % boundary == 0
                && self.spec_length() % boundary == 0)),
    {
        let b = self.base().get();
        let l = self.length();
        let m = boundary - 1;
        proof {
            assert(((b | l) & m == 0) == (b & m == 0 && l & m == 0)) by (bit_vector);
            if is_power_of_two(boundary) {
                lemma_mask_is_mod(b, boundary);
                lemma_mask_is_mod(l, boundary);
            }
        }
        0 == (b | l) & m
    }

    /// Range same base different length.
    fn resize(&self, length: usize) -> (r: Self)
        ensures
            r.spec_base() == self.spec_base(),
            r.spec_length() == length,
    {
        Self::new(self.base(), length)
    }

    /// The overlap of two ranges, if any.
    ///
    /// Written relative to length to avoid adding top and wrapping at top of memory.
    fn intersection(&self, other: &Self) -> (r: Option<Self>)
        ensures
            match intersection_of(
                self.spec_base() as int,
                self.spec_length() as int,
                other.spec_base() as int,
                other.spec_length() as int,
            ) {
                Some(bl) => r matches Some(x) && x.spec_base() == bl.0 && x.spec_length() == bl.1,
                None => r is None,
            },
    {
        let (lower, higher) = if self.base().get() <= other.base().get() {
            (self, other)
        } else {
            (other, self)
        };
        let distance_above = higher.base().get() - lower.base().get();
        if distance_above > lower.length() {
            return None;
        }
        let overlap_length = lower.length() - distance_above;
        let length = if higher.length() <= overlap_length {
            higher.length()
        } else {
            overlap_length
        };
        Some(Self::new(higher.base(), length))
    }

    /// Increment the range by its length (to null base where that passes the top of memory).
    fn step(&self) -> (r: Self)
        ensures
            r.spec_base() == (if self.spec_base() + self.spec_length() <= usize::MAX {
                self.spec_base() + self.spec_length()
            } else {
                0
            }),
            r.spec_length() == self.spec_length(),
    {
        Self::new(self.base().increment(self.length()), self.length())
    }

    /// True iff the range includes the address.
    fn contains(&self, addr: A) -> (r: bool)
        requires
            self.spec_base() + self.spec_length() <= usize::MAX,
        ensures
            r == (self.spec_base() <= addr.value() < self.spec_base() + self.spec_length()),
    {
        addr.get() >= self.base().get() && addr.get() < self.top().get()
    }

    /// True iff the range extends to at least the base and top of other.
    fn covers(&self, other: &Self) -> (r: bool)
        requires
            self.spec_base() + self.spec_length() <= usize::MAX,
            other.spec_base() + other.spec_length() <= usize::MAX,
        ensures
            r == (self.spec_base() <= other.spec_base() && other.spec_base()
                + other.spec_length() <= self.spec_base() + self.spec_length()),
    {
        self.base().get() <= other.base().get() && self.top().get() >= other.top().get()
    }
}

} // verus!
