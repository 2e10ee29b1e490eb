//! The SV39 page-table entry and the translation table.
//!
//! An entry holds the physical page number shifted right by two (so that a
//! page address `a` sits in bits 10 and up as `a >> 2`), and flag bits:
//! bit 0 valid, bit 1 readable, bit 2 writable, bit 3 executable,
//! bit 4 user-mode.

use vstd::prelude::*;

verus! {

pub const PTE_VALID: u64 = 1;
pub const PTE_READ: u64 = 2;
pub const PTE_WRITE: u64 = 4;
pub const PTE_EXECUTE: u64 = 8;
pub const PTE_USER: u64 = 16;
/// The read, write and execute bits together.
pub const PTE_RWX: u64 = 14;

/// The page address that an entry value refers to.
pub open spec fn pte_address(v: u64) -> u64 {
    (v << 2u64) & !0xfffu64
}

pub open spec fn pte_valid(v: u64) -> bool {
    v & PTE_VALID == PTE_VALID
}

pub open spec fn pte_readable(v: u64) -> bool {
    v & PTE_READ == PTE_READ
}

pub open spec fn pte_writable(v: u64) -> bool {
    v & PTE_WRITE == PTE_WRITE
}

pub open spec fn pte_executable(v: u64) -> bool {
    v & PTE_EXECUTE == PTE_EXECUTE
}

pub open spec fn pte_usermode(v: u64) -> bool {
    v & PTE_USER == PTE_USER
}

/// An entry with none of R, W, X set points to a next-level table.
pub open spec fn pte_branch(v: u64) -> bool {
    v & PTE_RWX == 0
}

/// The entry value that `set_address(a)` leaves.
pub open spec fn pte_with_address(a: u64) -> u64 {
    a >> 2u64
}

/// One SV39 page-table entry.
#[derive(Clone, Copy, Debug)]
pub struct TableEntry {
    pub val: u64,
}

impl TableEntry {
    /// An entry with every bit zero.
    pub fn new() -> (e: Self)
        ensures
            e.val == 0,
    {
        TableEntry { val: 0u64 }
    }

    /// Stores `address >> 2` as the whole entry value, which clears every
    /// flag bit when `address` is page aligned.
    pub fn set_address(&mut self, address: u64)
        ensures
            final(self).val == pte_with_address(address),
    {
        let new_addr = address >> 2;
        self.val = new_addr;
    }

    /// Ors the access bits into the entry.
    pub fn add_access_mask(&mut self, access_map: u64)
        ensures
            final(self).val == old(self).val | access_map,
    {
        self.val = self.val | access_map;
    }

    pub fn set_as_valid(&mut self)
        ensures
            final(self).val == old(self).val | PTE_VALID,
    {
        self.val = self.val | 1u64;
    }

    pub fn set_as_invalid(&mut self)
        ensures
            final(self).val == old(self).val & !PTE_VALID,
    {
        self.val = self.val & !1u64;
    }

    pub fn set_as_readable(&mut self)
        ensures
            final(self).val == old(self).val | PTE_READ,
    {
        self.val = self.val | 2u64;
    }

    pub fn set_as_non_readable(&mut self)
        ensures
            final(self).val == old(self).val & !PTE_READ,
    {
        self.val = self.val & !2u64;
    }

    pub fn set_as_writable(&mut self)
        ensures
            final(self).val == old(self).val | PTE_WRITE,
    {
        self.val = self.val | 4u64;
    }

    pub fn set_as_non_writable(&mut self)
        ensures
            final(self).val == old(self).val & !PTE_WRITE,
    {
        self.val = self.val & !4u64;
    }

    pub fn set_as_executable(&mut self)
        ensures
            final(self).val == old(self).val | PTE_EXECUTE,
    {
        self.val = self.val | 8u64;
    }

    pub fn set_as_non_executable(&mut self)
        ensures
            final(self).val == old(self).val & !PTE_EXECUTE,
    {
        self.val = self.val & !8u64;
    }

    pub fn set_as_usermode_only(&mut self)
        ensures
            final(self).val == old(self).val | PTE_USER,
    {
        self.val = self.val | 16u64;
    }

    pub fn get_val(&self) -> (v: u64)
        ensures
            v == self.val,
    {
        self.val
    }

    /// The physical page address the entry refers to.
    pub fn get_address(&self) -> (a: u64)
        ensures
            a == pte_address(self.val),
            a % 4096 == 0,
    {
        let val = self.get_val();
        let address = (val << 2) & !0b111111111111u64;
        assert(((val << 2u64) & !0xfffu64) % 4096 == 0) by (bit_vector);
        address
    }

    pub fn check_if_valid(&self) -> (b: bool)
        ensures
            b == pte_valid(self.val),
    {
        if self.val & 1u64 == 1u64 {
            return true;
        } else {
            return false;
        }
    }

    pub fn check_if_branch(&self) -> (b: bool)
        ensures
            b == pte_branch(self.val),
    {
        if self.val & 14u64 == 0 {
            return true;
        } else {
            return false;
        }
    }

    pub fn check_if_leaf(&self) -> (b: bool)
        ensures
            b == !pte_branch(self.val),
    {
        if self.val & 14u64 != 0 {
            return true;
        } else {
            return false;
        }
    }

    pub fn check_if_readable(&self) -> (b: bool)
        ensures
            b == pte_readable(self.val),
    {
        if self.val & 2u64 == 2u64 {
            true
        } else {
            false
        }
    }

    pub fn check_if_writable(&self) -> (b: bool)
        ensures
            b == pte_writable(self.val),
    {
        if self.val & 4u64 == 4u64 {
            true
        } else {
            false
        }
    }

    pub fn check_if_executable(&self) -> (b: bool)
        ensures
            b == pte_executable(self.val),
    {
        if self.val & 8u64 == 8u64 {
            true
        } else {
            false
        }
    }

    pub fn check_if_usermode_only(&self) -> (b: bool)
        ensures
            b == pte_usermode(self.val),
    {
        if self.val & 16u64 == 16u64 {
            true
        } else {
            false
        }
    }
}

/// Storing a page-aligned address in an entry gives that address back, and
/// leaves every flag bit clear.
pub proof fn lemma_set_address_round_trip(a: u64)
    requires
        a % 4096 == 0,
    ensures
        pte_address(pte_with_address(a)) == a,
        pte_with_address(a) & 0x3ffu64 == 0,
        !pte_valid(pte_with_address(a)),
        pte_branch(pte_with_address(a)),
{
    assert(((((a >> 2u64) << 2u64) & !0xfffu64) == a) && ((a >> 2u64) & 0x3ffu64 == 0)
        && ((a >> 2u64) & 1u64 != 1u64) && ((a >> 2u64) & 14u64 == 0)) by (bit_vector)
        requires
            a % 4096 == 0,
    ;
}

/// Changing any flag bit leaves the entry's page address unchanged.
pub proof fn lemma_flags_keep_address(v: u64, flags: u64)
    requires
        flags < 0x400,
    ensures
        pte_address(v | flags) == pte_address(v),
        pte_address(v & !flags) == pte_address(v),
{
    assert((((v | flags) << 2u64) & !0xfffu64) == ((v << 2u64) & !0xfffu64)
        && (((v & !flags) << 2u64) & !0xfffu64) == ((v << 2u64) & !0xfffu64)) by (bit_vector)
        requires
            flags < 0x400u64,
    ;
}

/// Setting one flag bit makes it read as set, clearing it makes it read as
/// clear, and the other flag bits keep their values.
pub proof fn lemma_flag_bits_independent(v: u64)
    ensures
        pte_valid(v | PTE_VALID),
        !pte_valid(v & !PTE_VALID),
        pte_readable(v | PTE_READ),
        !pte_readable(v & !PTE_READ),
        pte_writable(v | PTE_WRITE),
        !pte_writable(v & !PTE_WRITE),
        pte_executable(v | PTE_EXECUTE),
        !pte_executable(v & !PTE_EXECUTE),
        pte_usermode(v | PTE_USER),
        pte_readable(v | PTE_VALID) == pte_readable(v),
        pte_writable(v | PTE_VALID) == pte_writable(v),
        pte_executable(v | PTE_VALID) == pte_executable(v),
        pte_valid(v | PTE_READ) == pte_valid(v),
        pte_valid(v | PTE_WRITE) == pte_valid(v),
        pte_valid(v | PTE_EXECUTE) == pte_valid(v),
        pte_valid(v | PTE_USER) == pte_valid(v),
        pte_valid(v & !PTE_READ) == pte_valid(v),
        pte_valid(v & !PTE_WRITE) == pte_valid(v),
        pte_valid(v & !PTE_EXECUTE) == pte_valid(v),
        !pte_branch(v | PTE_READ),
        !pte_branch(v | PTE_WRITE),
        !pte_branch(v | PTE_EXECUTE),
{
    assert(
        ((v | 1u64) & 1u64 == 1u64)
        && ((v & !1u64) & 1u64 != 1u64)
        && ((v | 2u64) & 2u64 == 2u64)
        && ((v & !2u64) & 2u64 != 2u64)
        && ((v | 4u64) & 4u64 == 4u64)
        && ((v & !4u64) & 4u64 != 4u64)
        && ((v | 8u64) & 8u64 == 8u64)
        && ((v & !8u64) & 8u64 != 8u64)
        && ((v | 16u64) & 16u64 == 16u64)
        && (((v | 1u64) & 2u64 == 2u64) == (v & 2u64 == 2u64))
        && (((v | 1u64) & 4u64 == 4u64) == (v & 4u64 == 4u64))
        && (((v | 1u64) & 8u64 == 8u64) == (v & 8u64 == 8u64))
        && (((v | 2u64) & 1u64 == 1u64) == (v & 1u64 == 1u64))
        && (((v | 4u64) & 1u64 == 1u64) == (v & 1u64 == 1u64))
        && (((v | 8u64) & 1u64 == 1u64) == (v & 1u64 == 1u64))
        && (((v | 16u64) & 1u64 == 1u64) == (v & 1u64 == 1u64))
        && (((v & !2u64) & 1u64 == 1u64) == (v & 1u64 == 1u64))
        && (((v & !4u64) & 1u64 == 1u64) == (v & 1u64 == 1u64))
        && (((v & !8u64) & 1u64 == 1u64) == (v & 1u64 == 1u64))
        && ((v | 2u64) & 14u64 != 0)
        && ((v | 4u64) & 14u64 != 0)
        && ((v | 8u64) & 14u64 != 0)
    ) by (bit_vector);
}

/// An entry value after a run of flag updates, in order: `(true, mask)`
/// sets the bits of `mask`, as `add_access_mask` and the `set_as_*`
/// setters do, and `(false, mask)` clears them, as `set_as_invalid` and
/// the `set_as_non_*` clearers do.
pub open spec fn with_flag_updates(v: u64, updates: Seq<(bool, u64)>) -> u64
    decreases updates.len(),
{
    if updates.len() == 0 {
        v
    } else {
        let v1 = if updates[0].0 {
            v | updates[0].1
        } else {
            v & !updates[0].1
        };
        with_flag_updates(v1, updates.drop_first())
    }
}

/// Any run of updates of the flag bits, bits 0 to 9, leaves the entry's
/// page address as it was.
pub proof fn lemma_flag_updates_keep_address(v: u64, updates: Seq<(bool, u64)>)
    requires
        forall|i: int| 0 <= i < updates.len() ==> #[trigger] updates[i].1 < 0x400,
    ensures
        pte_address(with_flag_updates(v, updates)) == pte_address(v),
    decreases updates.len(),
{
    if updates.len() > 0 {
        lemma_flags_keep_address(v, updates[0].1);
        let v1 = if updates[0].0 {
            v | updates[0].1
        } else {
            v & !updates[0].1
        };
        let rest = updates.drop_first();
        assert forall|i: int| 0 <= i < rest.len() implies #[trigger] rest[i].1 < 0x400 by {
            assert(rest[i] == updates[i + 1]);
        }
        lemma_flag_updates_keep_address(v1, rest);
    }
}

/// After `set_address(a)` with a page-aligned `a`, whatever flag bits are
/// then set or cleared, `get_address` gives back `a`.
pub proof fn lemma_address_survives_flag_updates(a: u64, updates: Seq<(bool, u64)>)
    requires
        a % 4096 == 0,
        forall|i: int| 0 <= i < updates.len() ==> #[trigger] updates[i].1 < 0x400,
    ensures
        pte_address(with_flag_updates(pte_with_address(a), updates)) == a,
{
    lemma_set_address_round_trip(a);
    lemma_flag_updates_keep_address(pte_with_address(a), updates);
}

/// A translation table: 512 entries filling one page.
pub struct Table {
    pub content: [TableEntry; 512],
}

} // verus!
