//! The shape of the translation tables that `map` builds: a tree whose
//! tables are distinct heap pages held by allocations. Within such a tree,
//! mapping a page does not disturb the translation of any other page. And
//! once `unmap` has freed a root table that was allocated on its own,
//! nothing translates through it.

use vstd::prelude::*;

use super::{
    lemma_index_bounds,
    lemma_map_then_translate,
    lemma_next_table_entry,
    lemma_pointer_to_page,
    lemma_slot_in_table,
    lemma_slots_distinct,
    lemma_translate_within_page,
    leaf_index,
    leaf_value,
    map_spec,
    map_tables,
    mid_index,
    next_table,
    root_index,
    slot,
    table_pointer,
    translate_spec,
    MapOutcome,
    TranslateOutcome,
    unmap_leaves,
    unmap_mids,
    unmap_roots,
    unmap_spec,
};
use super::mmu_abstractions::{pte_address, pte_valid};
use crate::page_manager::{
    free_pages_zero,
    lemma_dealloc_keeps_free_pages_zero,
    lemma_alloc_gives_zero_pages,
    lemma_alloc_in_range,
    DescriptorValue,
    HeapModel,
};
use crate::page_manager::descriptor_rules::{first_fit, group_end, has_fit, lemma_group_end_shape};

verus! {

/// The index in the page contents of the word at address `a`.
pub open spec fn widx(m: HeapModel, a: int) -> int {
    (a - m.alloc_start) / 8
}

/// Page `a` is a heap page that an allocation holds.
pub open spec fn held_page(m: HeapModel, a: int) -> bool {
    m.held_page(a)
}

proof fn lemma_zero_invalid()
    ensures
        !pte_valid(0u64),
{
    assert(0u64 & 1u64 != 1u64) by (bit_vector);
}

/// Writing a word of a held page keeps free pages zero.
proof fn lemma_write_held_keeps_zero(m: HeapModel, t: u64, i: u64, v: u64)
    requires
        m.wf(),
        held_page(m, t as int),
        i < 512,
    ensures
        free_pages_zero(m.with_word(slot(t, i), v)),
{
    let a = slot(t, i);
    let w = widx(m, a);
    lemma_slot_in_table(m, t, i);
    assert(w / 512 == m.page_index(t as int)) by {
        assert((t - m.alloc_start) % 4096 == 0);
        assert(w == (t - m.alloc_start) / 8 + i);
        assert((t - m.alloc_start) / 8 == ((t - m.alloc_start) / 4096) * 512);
    }
}

/// Following an entry of a held table: either the entry is valid and
/// nothing changes, or a free page, all zero, becomes a held table that
/// the entry now names. Only that entry's word changes.
proof fn lemma_table_step(m: HeapModel, tbl: u64, idx: u64)
    requires
        m.wf(),
        m.layout.num_of_allocations_done + 1 <= usize::MAX,
        held_page(m, tbl as int),
        idx < 512,
        next_table(m, slot(tbl, idx)) is Some,
    ensures
        ({
            let s = slot(tbl, idx);
            let (m1, t) = next_table(m, s)->Some_0;
            &&& m1.wf()
            &&& free_pages_zero(m1)
            &&& m1.alloc_start == m.alloc_start
            &&& m1.num_pages == m.num_pages
            &&& m1.layout.num_of_allocations_done <= m.layout.num_of_allocations_done + 1
            &&& pte_valid(m1.word(s))
            &&& pte_address(m1.word(s)) == t
            &&& pte_valid(m.word(s)) ==> m1 == m && t == pte_address(m.word(s))
            &&& !pte_valid(m.word(s)) ==> {
                &&& held_page(m1, t as int)
                &&& !held_page(m, t as int)
                &&& forall|i: u64| i < 512 ==> #[trigger] m1.word(slot(t, i)) == 0
            }
            &&& forall|a: int| held_page(m, a) ==> #[trigger] held_page(m1, a)
            &&& forall|b: int|
                m.in_pages(b) && widx(m, b) != widx(m, s) ==> #[trigger] m1.word(b) == m.word(b)
        }),
{
    let s = slot(tbl, idx);
    lemma_slot_in_table(m, tbl, idx);
    lemma_next_table_entry(m, s);
    let (m1, t) = next_table(m, s)->Some_0;
    if !pte_valid(m.word(s)) {
        assert(has_fit(m.descs, 1));
        lemma_alloc_in_range(m, 1);
        lemma_alloc_gives_zero_pages(m, 1);
        let k = first_fit(m.descs, 1);
        let ma = m.alloc_spec(1).0;
        assert(t == m.page_addr(k) as u64);
        lemma_pointer_to_page(t);
        assert(m.descs[k] == DescriptorValue::Empty);
        assert(m.page_index(t as int) == k);
        assert(ma.descs[k] == DescriptorValue::FirstAndLast);
        assert(held_page(ma, tbl as int)) by {
            assert(m.page_index(tbl as int) != k);
        }
        lemma_write_held_keeps_zero(ma, tbl, idx, table_pointer(t));
        assert forall|i: u64| i < 512 implies #[trigger] m1.word(slot(t, i)) == 0 by {
            lemma_slot_in_table(ma, t, i);
            lemma_slots_distinct(ma, t, i, tbl, idx);
            assert(widx(m, slot(t, i)) == k * 512 + i);
        }
        assert forall|a: int| held_page(m, a) implies #[trigger] held_page(m1, a) by {
            assert(m.page_index(a) != k);
        }
    }
}

/// The place of a table in a translation tree.
pub ghost enum TableRole {
    Root,
    /// The mid table under this root entry.
    Mid(u64),
    /// The leaf table under this root entry and mid entry.
    Leaf(u64, u64),
}

/// The root table's entry `ri`.
pub open spec fn root_entry(m: HeapModel, root: u64, ri: u64) -> u64 {
    m.word(slot(root, ri))
}

/// The mid table that the root table's entry `ri` names.
pub open spec fn mid_of(m: HeapModel, root: u64, ri: u64) -> u64 {
    pte_address(root_entry(m, root, ri))
}

/// Entry `mi` of the mid table under root entry `ri`.
pub open spec fn mid_entry(m: HeapModel, root: u64, ri: u64, mi: u64) -> u64 {
    m.word(slot(mid_of(m, root, ri), mi))
}

/// The leaf table that mid entry `mi` under root entry `ri` names.
pub open spec fn leaf_of(m: HeapModel, root: u64, ri: u64, mi: u64) -> u64 {
    pte_address(mid_entry(m, root, ri, mi))
}

/// The tables rooted at `root` form a tree in which `role` names each
/// table's place: every table is a held heap page, and a page has one
/// place only, so that different places are different pages.
pub open spec fn tree_with_roles(m: HeapModel, root: u64, role: spec_fn(int) -> TableRole) -> bool {
    &&& held_page(m, root as int)
    &&& role(root as int) == TableRole::Root
    &&& forall|ri: u64|
        ri < 512 && pte_valid(#[trigger] root_entry(m, root, ri)) ==> {
            &&& held_page(m, mid_of(m, root, ri) as int)
            &&& role(mid_of(m, root, ri) as int) == TableRole::Mid(ri)
        }
    &&& forall|ri: u64, mi: u64|
        ri < 512 && mi < 512 && pte_valid(root_entry(m, root, ri)) && pte_valid(
            #[trigger] mid_entry(m, root, ri, mi),
        ) ==> {
            &&& held_page(m, leaf_of(m, root, ri, mi) as int)
            &&& role(leaf_of(m, root, ri, mi) as int) == TableRole::Leaf(ri, mi)
        }
}

/// The tables rooted at `root` form a tree of distinct held pages.
pub open spec fn table_tree(m: HeapModel, root: u64) -> bool {
    exists|role: spec_fn(int) -> TableRole| tree_with_roles(m, root, role)
}

/// A root table that is held and has no valid entry is a tree.
pub proof fn lemma_fresh_root_is_tree(m: HeapModel, root: u64)
    requires
        held_page(m, root as int),
        forall|ri: u64| ri < 512 ==> !pte_valid(#[trigger] root_entry(m, root, ri)),
    ensures
        table_tree(m, root),
{
    let role = |a: int| TableRole::Root;
    assert(tree_with_roles(m, root, role));
}

/// Following root entry `ri` keeps the tree, with the mid table it reaches
/// in the place `Mid(ri)`.
proof fn lemma_root_step(m: HeapModel, root: u64, role: spec_fn(int) -> TableRole, ri: u64) -> (role1:
    spec_fn(int) -> TableRole)
    requires
        m.wf(),
        m.layout.num_of_allocations_done + 1 <= usize::MAX,
        tree_with_roles(m, root, role),
        ri < 512,
        next_table(m, slot(root, ri)) is Some,
    ensures
        ({
            let s = slot(root, ri);
            let (m1, mid) = next_table(m, s)->Some_0;
            &&& m1.wf()
            &&& free_pages_zero(m1)
            &&& m1.alloc_start == m.alloc_start
            &&& m1.num_pages == m.num_pages
            &&& tree_with_roles(m1, root, role1)
            &&& pte_valid(root_entry(m1, root, ri))
            &&& mid_of(m1, root, ri) == mid
            &&& forall|a: int| held_page(m, a) ==> #[trigger] role1(a) == role(a)
            &&& forall|b: int|
                m.in_pages(b) && pte_valid(m.word(b)) ==> #[trigger] m1.word(b) == m.word(b)
        }),
{
    let s = slot(root, ri);
    lemma_table_step(m, root, ri);
    lemma_zero_invalid();
    let (m1, t) = next_table(m, s)->Some_0;
    let role1 = if pte_valid(m.word(s)) {
        role
    } else {
        |a: int| if a == t as int { TableRole::Mid(ri) } else { role(a) }
    };
    if !pte_valid(m.word(s)) {
        assert forall|ri2: u64|
            ri2 < 512 && pte_valid(#[trigger] root_entry(m1, root, ri2)) implies {
            &&& held_page(m1, mid_of(m1, root, ri2) as int)
            &&& role1(mid_of(m1, root, ri2) as int) == TableRole::Mid(ri2)
        } by {
            if ri2 != ri {
                lemma_slot_in_table(m, root, ri2);
                assert(widx(m, slot(root, ri2)) != widx(m, s));
                assert(root_entry(m1, root, ri2) == root_entry(m, root, ri2));
            }
        }
        assert forall|ri2: u64, mi2: u64|
            ri2 < 512 && mi2 < 512 && pte_valid(root_entry(m1, root, ri2)) && pte_valid(
                #[trigger] mid_entry(m1, root, ri2, mi2),
            ) implies {
            &&& held_page(m1, leaf_of(m1, root, ri2, mi2) as int)
            &&& role1(leaf_of(m1, root, ri2, mi2) as int) == TableRole::Leaf(ri2, mi2)
        } by {
            if ri2 == ri {
                assert(m1.word(slot(t, mi2)) == 0);
            } else {
                lemma_slot_in_table(m, root, ri2);
                assert(widx(m, slot(root, ri2)) != widx(m, s));
                assert(root_entry(m1, root, ri2) == root_entry(m, root, ri2));
                let mid2 = mid_of(m, root, ri2);
                assert(held_page(m, mid2 as int));
                assert(mid2 != root);
                lemma_slots_distinct(m, mid2, mi2, root, ri);
                lemma_slot_in_table(m, mid2, mi2);
                assert(mid_entry(m1, root, ri2, mi2) == mid_entry(m, root, ri2, mi2));
            }
        }
    }
    assert forall|b: int| m.in_pages(b) && pte_valid(m.word(b)) implies #[trigger] m1.word(b)
        == m.word(b) by {
        if !pte_valid(m.word(s)) && widx(m, b) == widx(m, s) {
            lemma_slot_in_table(m, root, ri);
        }
    }
    role1
}

/// Following entry `mi` of the mid table under root entry `ri` keeps the
/// tree, with the leaf table it reaches in the place `Leaf(ri, mi)`.
proof fn lemma_mid_step(
    m: HeapModel,
    root: u64,
    role: spec_fn(int) -> TableRole,
    ri: u64,
    mi: u64,
) -> (role1: spec_fn(int) -> TableRole)
    requires
        m.wf(),
        m.layout.num_of_allocations_done + 1 <= usize::MAX,
        tree_with_roles(m, root, role),
        ri < 512,
        mi < 512,
        pte_valid(root_entry(m, root, ri)),
        next_table(m, slot(mid_of(m, root, ri), mi)) is Some,
    ensures
        ({
            let s = slot(mid_of(m, root, ri), mi);
            let (m1, leaf) = next_table(m, s)->Some_0;
            &&& m1.wf()
            &&& free_pages_zero(m1)
            &&& m1.alloc_start == m.alloc_start
            &&& m1.num_pages == m.num_pages
            &&& tree_with_roles(m1, root, role1)
            &&& pte_valid(root_entry(m1, root, ri))
            &&& mid_of(m1, root, ri) == mid_of(m, root, ri)
            &&& pte_valid(mid_entry(m1, root, ri, mi))
            &&& leaf_of(m1, root, ri, mi) == leaf
            &&& forall|a: int| held_page(m, a) ==> #[trigger] role1(a) == role(a)
            &&& forall|b: int|
                m.in_pages(b) && pte_valid(m.word(b)) ==> #[trigger] m1.word(b) == m.word(b)
        }),
{
    let mid = mid_of(m, root, ri);
    let s = slot(mid, mi);
    lemma_table_step(m, mid, mi);
    lemma_zero_invalid();
    let (m1, t) = next_table(m, s)->Some_0;
    let role1 = if pte_valid(m.word(s)) {
        role
    } else {
        |a: int| if a == t as int { TableRole::Leaf(ri, mi) } else { role(a) }
    };
    assert(mid != root);
    lemma_slot_in_table(m, root, ri);
    lemma_slots_distinct(m, mid, mi, root, ri);
    if !pte_valid(m.word(s)) {
        assert forall|ri2: u64|
            ri2 < 512 && pte_valid(#[trigger] root_entry(m1, root, ri2)) implies {
            &&& held_page(m1, mid_of(m1, root, ri2) as int)
            &&& role1(mid_of(m1, root, ri2) as int) == TableRole::Mid(ri2)
        } by {
            lemma_slot_in_table(m, root, ri2);
            lemma_slots_distinct(m, mid, mi, root, ri2);
            assert(root_entry(m1, root, ri2) == root_entry(m, root, ri2));
        }
        assert forall|ri2: u64, mi2: u64|
            ri2 < 512 && mi2 < 512 && pte_valid(root_entry(m1, root, ri2)) && pte_valid(
                #[trigger] mid_entry(m1, root, ri2, mi2),
            ) implies {
            &&& held_page(m1, leaf_of(m1, root, ri2, mi2) as int)
            &&& role1(leaf_of(m1, root, ri2, mi2) as int) == TableRole::Leaf(ri2, mi2)
        } by {
            lemma_slot_in_table(m, root, ri2);
            lemma_slots_distinct(m, mid, mi, root, ri2);
            assert(root_entry(m1, root, ri2) == root_entry(m, root, ri2));
            let mid2 = mid_of(m, root, ri2);
            if ri2 != ri || mi2 != mi {
                lemma_slot_in_table(m, mid2, mi2);
                if ri2 != ri {
                    assert(role(mid2 as int) != role(mid as int));
                    lemma_slots_distinct(m, mid2, mi2, mid, mi);
                }
                assert(widx(m, slot(mid2, mi2)) != widx(m, s));
                assert(mid_entry(m1, root, ri2, mi2) == mid_entry(m, root, ri2, mi2));
            }
        }
    }
    assert forall|b: int| m.in_pages(b) && pte_valid(m.word(b)) implies #[trigger] m1.word(b)
        == m.word(b) by {
        if !pte_valid(m.word(s)) && widx(m, b) == widx(m, s) {
            lemma_slot_in_table(m, mid, mi);
        }
    }
    assert(root_entry(m1, root, ri) == root_entry(m, root, ri));
    role1
}

/// Mapping a page within a tree of tables: the tree stays a tree, the heap
/// stays consistent, every address in the page translates to the same
/// offset in the physical page it was mapped to, the page's leaf entry
/// carries exactly the access bits and the valid bit, and every other page
/// that translated keeps its translation.
#[verifier::spinoff_prover]
#[verifier::rlimit(40)]
pub proof fn lemma_map_in_tree(m: HeapModel, va: u64, pa: u64, access: u64, root: u64)
    requires
        m.wf(),
        m.layout.num_of_allocations_done + 2 <= usize::MAX,
        table_tree(m, root),
        map_spec(m, va, pa, access, root).1 == MapOutcome::Mapped,
    ensures
        ({
            let m3 = map_spec(m, va, pa, access, root).0;
            &&& m3.wf()
            &&& table_tree(m3, root)
            &&& translate_spec(m3, root, va) == TranslateOutcome::Translated(pa)
            &&& super::leaf_entry(m3, root, va) & 0x3ff == access | 1
            &&& forall|va2: u64|
                va <= va2 < va + 4096 && va2 <= super::MAX_VIRTUAL_ADDRESS
                    ==> #[trigger] translate_spec(m3, root, va2) == TranslateOutcome::Translated(
                    (pa + (va2 - va)) as u64,
                )
            &&& forall|va2: u64|
                #![trigger translate_spec(m3, root, va2)]
                translate_spec(m, root, va2) is Translated && (root_index(va2), mid_index(va2),
                    leaf_index(va2)) != (root_index(va), mid_index(va), leaf_index(va))
                    ==> translate_spec(m3, root, va2) == translate_spec(m, root, va2)
                    && super::leaf_entry(m3, root, va2) == super::leaf_entry(m, root, va2)
        }),
{
    let role = choose|role: spec_fn(int) -> TableRole| tree_with_roles(m, root, role);
    lemma_index_bounds(va);
    let ri = root_index(va);
    let mi = mid_index(va);
    let li = leaf_index(va);
    let rs = slot(root, ri);
    let role1 = lemma_root_step(m, root, role, ri);
    let (m1, mid) = next_table(m, rs)->Some_0;
    assert(m1.layout.num_of_allocations_done <= m.layout.num_of_allocations_done + 1) by {
        lemma_table_step(m, root, ri);
    }
    let ms = slot(mid, mi);
    let role2 = lemma_mid_step(m1, root, role1, ri, mi);
    let (m2, leaf) = next_table(m1, ms)->Some_0;
    let ls = slot(leaf, li);
    let lv = leaf_value(pa, access);
    let m3 = m2.with_word(ls, lv);
    assert(map_spec(m, va, pa, access, root).0 == m3);
    assert(map_tables(m, va, root) == (mid, leaf));
    assert(held_page(m2, root as int));
    assert(held_page(m2, mid as int));
    assert(held_page(m2, leaf as int));
    assert(role2(root as int) == TableRole::Root);
    assert(role2(mid as int) == TableRole::Mid(ri));
    assert(role2(leaf as int) == TableRole::Leaf(ri, mi));
    lemma_map_then_translate(m, va, pa, access, root);
    assert forall|va2: u64|
        va <= va2 < va + 4096 && va2 <= super::MAX_VIRTUAL_ADDRESS implies #[trigger] translate_spec(
        m3,
        root,
        va2,
    ) == TranslateOutcome::Translated((pa + (va2 - va)) as u64) by {
        lemma_translate_within_page(m3, root, va, (va2 - va) as u64, pa);
    }
    lemma_slot_in_table(m2, leaf, li);
    lemma_write_held_keeps_zero(m2, leaf, li, lv);
    assert(tree_with_roles(m3, root, role2)) by {
        assert forall|ri2: u64| ri2 < 512 implies #[trigger] root_entry(m3, root, ri2) == root_entry(
            m2,
            root,
            ri2,
        ) by {
            lemma_slot_in_table(m2, root, ri2);
            lemma_slots_distinct(m2, root, ri2, leaf, li);
        }
        assert forall|ri2: u64, mi2: u64|
            ri2 < 512 && mi2 < 512 && pte_valid(root_entry(m2, root, ri2)) implies #[trigger] mid_entry(
            m3,
            root,
            ri2,
            mi2,
        ) == mid_entry(m2, root, ri2, mi2) by {
            let mid2 = mid_of(m2, root, ri2);
            lemma_slot_in_table(m2, mid2, mi2);
            lemma_slots_distinct(m2, mid2, mi2, leaf, li);
        }
    }
    assert forall|va2: u64|
        #![trigger translate_spec(m3, root, va2)]
        translate_spec(m, root, va2) is Translated && (root_index(va2), mid_index(va2), leaf_index(
            va2,
        )) != (ri, mi, li) implies translate_spec(m3, root, va2) == translate_spec(m, root, va2)
        && super::leaf_entry(m3, root, va2) == super::leaf_entry(m, root, va2) by {
        lemma_index_bounds(va2);
        let ri2 = root_index(va2);
        let mi2 = mid_index(va2);
        let li2 = leaf_index(va2);
        let mid2 = mid_of(m, root, ri2);
        let leaf2 = leaf_of(m, root, ri2, mi2);
        let wr = slot(root, ri2);
        let wm = slot(mid2, mi2);
        let wl = slot(leaf2, li2);
        lemma_slot_in_table(m, root, ri2);
        assert(held_page(m, mid2 as int));
        lemma_slot_in_table(m, mid2, mi2);
        assert(held_page(m, leaf2 as int));
        lemma_slot_in_table(m, leaf2, li2);
        assert(pte_valid(m.word(wr)) && pte_valid(m.word(wm)) && pte_valid(m.word(wl)));
        assert(m1.word(wr) == m.word(wr) && m1.word(wm) == m.word(wm) && m1.word(wl) == m.word(wl));
        assert(m2.word(wr) == m.word(wr) && m2.word(wm) == m.word(wm) && m2.word(wl) == m.word(wl));
        assert(role2(mid2 as int) == TableRole::Mid(ri2));
        assert(role2(leaf2 as int) == TableRole::Leaf(ri2, mi2));
        lemma_slots_distinct(m2, root, ri2, leaf, li);
        lemma_slots_distinct(m2, mid2, mi2, leaf, li);
        if leaf2 != leaf {
            lemma_slots_distinct(m2, leaf2, li2, leaf, li);
        }
        assert(m3.word(wr) == m.word(wr) && m3.word(wm) == m.word(wm) && m3.word(wl) == m.word(wl));
    }
}

/// Within a tree of tables, `map` never meets a table outside the heap's
/// held pages: for a valid virtual page, physical page and access map, it
/// either maps the page or finds no free page for a table it must create.
pub proof fn lemma_map_in_tree_succeeds(m: HeapModel, va: u64, pa: u64, access: u64, root: u64)
    requires
        m.wf(),
        m.layout.num_of_allocations_done + 2 <= usize::MAX,
        table_tree(m, root),
        super::valid_virtual_address(va),
        super::valid_physical_address(pa),
        super::valid_access_map(access),
    ensures
        map_spec(m, va, pa, access, root).1 == MapOutcome::Mapped || map_spec(
            m,
            va,
            pa,
            access,
            root,
        ).1 == MapOutcome::OutOfPages,
{
    let role = choose|role: spec_fn(int) -> TableRole| tree_with_roles(m, root, role);
    lemma_index_bounds(va);
    let ri = root_index(va);
    let mi = mid_index(va);
    let rs = slot(root, ri);
    if next_table(m, rs) is Some {
        lemma_table_step(m, root, ri);
        let role1 = lemma_root_step(m, root, role, ri);
        let (m1, mid) = next_table(m, rs)->Some_0;
        assert(held_page(m1, mid as int));
        let ms = slot(mid, mi);
        if next_table(m1, ms) is Some {
            let role2 = lemma_mid_step(m1, root, role1, ri, mi);
            let (m2, leaf) = next_table(m1, ms)->Some_0;
            assert(held_page(m2, leaf as int));
        }
    }
}

/// Page `r` still leads an allocation of its own, or it has been freed
/// and all its words are zero.
pub open spec fn single_or_cleared(m: HeapModel, r: int) -> bool {
    ||| m.descs[r] == DescriptorValue::FirstAndLast
    ||| m.descs[r] == DescriptorValue::Empty && forall|w: int|
        r * 512 <= w < r * 512 + 512 ==> #[trigger] m.mem[w] == 0
}

proof fn lemma_dealloc_single_or_cleared(m: HeapModel, a: int, r: int)
    requires
        0 <= r < m.descs.len(),
        m.mem.len() == m.descs.len() * 512,
        single_or_cleared(m, r),
    ensures
        single_or_cleared(m.dealloc_spec(a).0, r),
        m.dealloc_spec(a).0.descs.len() == m.descs.len(),
        m.dealloc_spec(a).0.mem.len() == m.mem.len(),
        m.dealloc_spec(a).0.alloc_start == m.alloc_start,
        m.dealloc_spec(a).0.num_pages == m.num_pages,
        m.dealloc_spec(a).0.heap_end == m.heap_end,
        (m.descs[r] == DescriptorValue::FirstAndLast && a == m.alloc_start + 4096 * r && m.alloc_start
            <= a <= m.heap_end && a % 4096 == 0 && m.page_index(a) < m.num_pages)
            ==> m.dealloc_spec(a).0.descs[r] == DescriptorValue::Empty,
        m.descs[r] == DescriptorValue::Empty ==> m.dealloc_spec(a).0.descs[r]
            == DescriptorValue::Empty,
{
    let m1 = m.dealloc_spec(a).0;
    if let crate::page_manager::DeallocOutcome::Freed(_) = m.dealloc_spec(a).1 {
        let i = m.page_index(a);
        let e = group_end(m.descs, i)->Some_0;
        lemma_group_end_shape(m.descs, i);
        if i <= r <= e {
            if m.descs[i] == DescriptorValue::FirstAndTaken {
                assert(m.descs[r] != DescriptorValue::FirstAndLast);
            }
            assert(r == i && e == i);
        }
        assert forall|w: int| r * 512 <= w < r * 512 + 512 implies #[trigger] m1.mem[w] == if i <= r
            <= e {
            0
        } else {
            m.mem[w]
        } by {
            assert((i * 512 <= w < (e + 1) * 512) <==> (i <= r <= e)) by (nonlinear_arith)
                requires
                    r * 512 <= w < r * 512 + 512,
                    0 <= i,
                    i <= e,
            ;
        }
    }
    if m.descs[r] == DescriptorValue::FirstAndLast && a == m.alloc_start + 4096 * r
        && m.alloc_start <= a <= m.heap_end && a % 4096 == 0 && m.page_index(a) < m.num_pages {
        assert(m.page_index(a) == r);
        assert(group_end(m.descs, r) == Some(r));
    }
}

proof fn lemma_unmap_leaves_single(m: HeapModel, leaf: u64, k: int, r: int)
    requires
        0 <= r < m.descs.len(),
        m.mem.len() == m.descs.len() * 512,
        single_or_cleared(m, r),
    ensures
        single_or_cleared(unmap_leaves(m, leaf, k), r),
        unmap_leaves(m, leaf, k).descs.len() == m.descs.len(),
        unmap_leaves(m, leaf, k).mem.len() == m.mem.len(),
        unmap_leaves(m, leaf, k).alloc_start == m.alloc_start,
        unmap_leaves(m, leaf, k).num_pages == m.num_pages,
        unmap_leaves(m, leaf, k).heap_end == m.heap_end,
    decreases 512 - k,
{
    if 0 <= k < 512 {
        let e = m.word(slot(leaf, k as u64));
        let m1 = if pte_valid(e) {
            m.dealloc_spec((pte_address(e) as usize) as int).0
        } else {
            m
        };
        if pte_valid(e) {
            lemma_dealloc_single_or_cleared(m, (pte_address(e) as usize) as int, r);
        }
        lemma_unmap_leaves_single(m1, leaf, k + 1, r);
    }
}

proof fn lemma_unmap_mids_single(m: HeapModel, mid: u64, j: int, r: int)
    requires
        0 <= r < m.descs.len(),
        m.mem.len() == m.descs.len() * 512,
        single_or_cleared(m, r),
    ensures
        single_or_cleared(unmap_mids(m, mid, j), r),
        unmap_mids(m, mid, j).descs.len() == m.descs.len(),
        unmap_mids(m, mid, j).mem.len() == m.mem.len(),
        unmap_mids(m, mid, j).alloc_start == m.alloc_start,
        unmap_mids(m, mid, j).num_pages == m.num_pages,
        unmap_mids(m, mid, j).heap_end == m.heap_end,
    decreases 512 - j,
{
    if 0 <= j < 512 {
        let e = m.word(slot(mid, j as u64));
        if pte_valid(e) {
            let leaf = pte_address(e);
            let m_a = if m.is_page(leaf as int) {
                unmap_leaves(m, leaf, 0)
            } else {
                m
            };
            if m.is_page(leaf as int) {
                lemma_unmap_leaves_single(m, leaf, 0, r);
            }
            lemma_dealloc_single_or_cleared(m_a, (leaf as usize) as int, r);
            lemma_unmap_mids_single(m_a.dealloc_spec((leaf as usize) as int).0, mid, j + 1, r);
        } else {
            lemma_unmap_mids_single(m, mid, j + 1, r);
        }
    }
}

proof fn lemma_unmap_roots_single(m: HeapModel, root: u64, i: int, r: int)
    requires
        0 <= r < m.descs.len(),
        m.mem.len() == m.descs.len() * 512,
        single_or_cleared(m, r),
    ensures
        single_or_cleared(unmap_roots(m, root, i), r),
        unmap_roots(m, root, i).descs.len() == m.descs.len(),
        unmap_roots(m, root, i).mem.len() == m.mem.len(),
        unmap_roots(m, root, i).alloc_start == m.alloc_start,
        unmap_roots(m, root, i).num_pages == m.num_pages,
        unmap_roots(m, root, i).heap_end == m.heap_end,
    decreases 512 - i,
{
    if 0 <= i < 512 {
        let e = m.word(slot(root, i as u64));
        if pte_valid(e) {
            let mid = pte_address(e);
            let m_a = if m.is_page(mid as int) {
                unmap_mids(m, mid, 0)
            } else {
                m
            };
            if m.is_page(mid as int) {
                lemma_unmap_mids_single(m, mid, 0, r);
            }
            lemma_dealloc_single_or_cleared(m_a, (mid as usize) as int, r);
            lemma_unmap_roots_single(m_a.dealloc_spec((mid as usize) as int).0, root, i + 1, r);
        } else {
            lemma_unmap_roots_single(m, root, i + 1, r);
        }
    }
}

/// After `unmap`, nothing translates through the root table any more,
/// provided the root was a page allocated on its own: the root page ends up
/// freed, and freeing zeroes it.
#[verifier::spinoff_prover]
#[verifier::rlimit(40)]
pub proof fn lemma_unmap_clears_root(m: HeapModel, root: u64, va: u64)
    requires
        m.wf(),
        m.is_page(root as int),
        m.descs[m.page_index(root as int)] == DescriptorValue::FirstAndLast,
    ensures
        !(translate_spec(unmap_spec(m, root), root, va) is Translated),
        unmap_spec(m, root).descs[m.page_index(root as int)] == DescriptorValue::Empty,
{
    let r = m.page_index(root as int);
    assert(m.alloc_start + 4096 * r == root);
    assert((root as usize) as int == root);
    let m_a = unmap_roots(m, root, 0);
    lemma_unmap_roots_single(m, root, 0, r);
    lemma_dealloc_single_or_cleared(m_a, (root as usize) as int, r);
    let m2 = unmap_spec(m, root);
    assert(m2.descs[r] == DescriptorValue::Empty);
    if va <= super::MAX_VIRTUAL_ADDRESS {
        lemma_index_bounds(va);
        let ri = root_index(va);
        assert(widx(m2, slot(root, ri)) == r * 512 + ri);
        assert(m2.word(slot(root, ri)) == 0);
        lemma_zero_invalid();
    }
}

/// `map` writes only into pages that allocations hold, and takes its new
/// tables from free pages, which are zero: so free pages stay zero.
pub proof fn lemma_map_keeps_free_pages_zero(m: HeapModel, va: u64, pa: u64, access: u64, root: u64)
    requires
        m.wf(),
        m.layout.num_of_allocations_done + 2 <= usize::MAX,
    ensures
        free_pages_zero(map_spec(m, va, pa, access, root).0),
{
    lemma_index_bounds(va);
    let rs = slot(root, root_index(va));
    if super::valid_virtual_address(va) && super::valid_physical_address(pa)
        && super::valid_access_map(access) && held_page(m, root as int) {
        if next_table(m, rs) is Some {
            lemma_table_step(m, root, root_index(va));
            let (m1, mid) = next_table(m, rs)->Some_0;
            let ms = slot(mid, mid_index(va));
            if held_page(m1, mid as int) && next_table(m1, ms) is Some {
                lemma_table_step(m1, mid, mid_index(va));
                let (m2, leaf) = next_table(m1, ms)->Some_0;
                if held_page(m2, leaf as int) {
                    lemma_write_held_keeps_zero(m2, leaf, leaf_index(va), leaf_value(pa, access));
                }
            }
        }
    }
}

proof fn lemma_unmap_leaves_zero(m: HeapModel, leaf: u64, k: int)
    requires
        m.mem.len() == m.descs.len() * 512,
        free_pages_zero(m),
    ensures
        free_pages_zero(unmap_leaves(m, leaf, k)),
        unmap_leaves(m, leaf, k).mem.len() == unmap_leaves(m, leaf, k).descs.len() * 512,
    decreases 512 - k,
{
    if 0 <= k < 512 {
        let e = m.word(slot(leaf, k as u64));
        if pte_valid(e) {
            let a = (pte_address(e) as usize) as int;
            lemma_dealloc_keeps_free_pages_zero(m, a);
            lemma_unmap_leaves_zero(m.dealloc_spec(a).0, leaf, k + 1);
        } else {
            lemma_unmap_leaves_zero(m, leaf, k + 1);
        }
    }
}

proof fn lemma_unmap_mids_zero(m: HeapModel, mid: u64, j: int)
    requires
        m.mem.len() == m.descs.len() * 512,
        free_pages_zero(m),
    ensures
        free_pages_zero(unmap_mids(m, mid, j)),
        unmap_mids(m, mid, j).mem.len() == unmap_mids(m, mid, j).descs.len() * 512,
    decreases 512 - j,
{
    if 0 <= j < 512 {
        let e = m.word(slot(mid, j as u64));
        if pte_valid(e) {
            let leaf = pte_address(e);
            let m_a = if m.is_page(leaf as int) {
                unmap_leaves(m, leaf, 0)
            } else {
                m
            };
            if m.is_page(leaf as int) {
                lemma_unmap_leaves_zero(m, leaf, 0);
            }
            let a = (leaf as usize) as int;
            lemma_dealloc_keeps_free_pages_zero(m_a, a);
            lemma_unmap_mids_zero(m_a.dealloc_spec(a).0, mid, j + 1);
        } else {
            lemma_unmap_mids_zero(m, mid, j + 1);
        }
    }
}

/// `unmap` only frees pages, and freeing zeroes them: so free pages stay
/// zero.
pub proof fn lemma_unmap_keeps_free_pages_zero(m: HeapModel, root: u64)
    requires
        m.wf(),
    ensures
        free_pages_zero(unmap_spec(m, root)),
{
    lemma_unmap_roots_zero(m, root, 0);
    let m_a = if m.is_page(root as int) {
        unmap_roots(m, root, 0)
    } else {
        m
    };
    let a = (root as usize) as int;
    lemma_dealloc_keeps_free_pages_zero(m_a, a);
}

proof fn lemma_unmap_roots_zero(m: HeapModel, root: u64, i: int)
    requires
        m.mem.len() == m.descs.len() * 512,
        free_pages_zero(m),
    ensures
        free_pages_zero(unmap_roots(m, root, i)),
        unmap_roots(m, root, i).mem.len() == unmap_roots(m, root, i).descs.len() * 512,
    decreases 512 - i,
{
    if 0 <= i < 512 {
        let e = m.word(slot(root, i as u64));
        if pte_valid(e) {
            let mid = pte_address(e);
            let m_a = if m.is_page(mid as int) {
                unmap_mids(m, mid, 0)
            } else {
                m
            };
            if m.is_page(mid as int) {
                lemma_unmap_mids_zero(m, mid, 0);
            }
            let a = (mid as usize) as int;
            lemma_dealloc_keeps_free_pages_zero(m_a, a);
            lemma_unmap_roots_zero(m_a.dealloc_spec(a).0, root, i + 1);
        } else {
            lemma_unmap_roots_zero(m, root, i + 1);
        }
    }
}

} // verus!
