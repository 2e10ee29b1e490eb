//! What `unmap` frees. Within a tree of tables whose tables each lead a
//! single-page allocation, and whose mapped pages are neither tables nor
//! the first page of a longer allocation, `unmap` frees exactly the tables
//! and the mapped pages that lead single-page allocations, and leaves every
//! other page as it was.

use vstd::prelude::*;

use super::{lemma_slot_in_table, slot, unmap_leaves, unmap_mids, unmap_roots, unmap_spec};
use super::mmu_abstractions::{pte_address, pte_valid};
use super::table_tree::{leaf_of, mid_entry, mid_of, root_entry, tree_with_roles, table_tree, TableRole};
use crate::page_manager::{DescriptorValue, HeapModel};

verus! {

/// `m` is `m0` with the pages that `gone` picks freed: their descriptors
/// `Empty` and their words zero. Every other page is as in `m0`, and only
/// pages that led single-page allocations in `m0` are freed.
pub open spec fn freed_from(m0: HeapModel, m: HeapModel, gone: spec_fn(int) -> bool) -> bool {
    &&& m.alloc_start == m0.alloc_start
    &&& m.heap_start == m0.heap_start
    &&& m.heap_end == m0.heap_end
    &&& m.num_pages == m0.num_pages
    &&& m.descs.len() == m0.descs.len()
    &&& m.mem.len() == m0.mem.len()
    &&& forall|j: int|
        0 <= j < m0.descs.len() ==> #[trigger] m.descs[j] == if gone(j) {
            DescriptorValue::Empty
        } else {
            m0.descs[j]
        }
    &&& forall|w: int|
        0 <= w < m0.mem.len() ==> #[trigger] m.mem[w] == if gone(w / 512) {
            0u64
        } else {
            m0.mem[w]
        }
    &&& forall|j: int| #[trigger] gone(j) ==> 0 <= j < m0.descs.len() && m0.descs[j]
        == DescriptorValue::FirstAndLast
}

proof fn lemma_freed_from_same(
    m0: HeapModel,
    m: HeapModel,
    g1: spec_fn(int) -> bool,
    g2: spec_fn(int) -> bool,
)
    requires
        freed_from(m0, m, g1),
        forall|x: int| #[trigger] g1(x) == g2(x),
    ensures
        freed_from(m0, m, g2),
{
    assert forall|w: int| 0 <= w < m0.mem.len() implies #[trigger] m.mem[w] == if g2(w / 512) {
        0u64
    } else {
        m0.mem[w]
    } by {
        assert(g1(w / 512) == g2(w / 512));
    }
    assert forall|j: int| 0 <= j < m0.descs.len() implies #[trigger] m.descs[j] == if g2(j) {
        DescriptorValue::Empty
    } else {
        m0.descs[j]
    } by {
        assert(g1(j) == g2(j));
    }
    assert forall|j: int| #[trigger] g2(j) implies 0 <= j < m0.descs.len() && m0.descs[j]
        == DescriptorValue::FirstAndLast by {
        assert(g1(j));
    }
}

/// Freeing address `a` frees its page if that page led a single-page
/// allocation and was not freed yet, and changes nothing otherwise.
proof fn lemma_free_one(m0: HeapModel, m: HeapModel, gone: spec_fn(int) -> bool, a: int) -> (g1:
    spec_fn(int) -> bool)
    requires
        m0.wf(),
        freed_from(m0, m, gone),
        !(m0.is_page(a) && m0.descs[m0.page_index(a)] == DescriptorValue::FirstAndTaken),
    ensures
        freed_from(m0, m.dealloc_spec(a).0, g1),
        forall|x: int|
            #[trigger] g1(x) == (gone(x) || (m0.is_page(a) && x == m0.page_index(a) && m0.descs[x]
                == DescriptorValue::FirstAndLast)),
{
    let g1 = |x: int|
        gone(x) || (m0.is_page(a) && x == m0.page_index(a) && m0.descs[x]
            == DescriptorValue::FirstAndLast);
    let m1 = m.dealloc_spec(a).0;
    let i = m0.page_index(a);
    if m0.alloc_start <= a <= m0.heap_end && a % 4096 == 0 && i < m0.num_pages {
        assert(m0.alloc_start % 4096 == 0);
        assert(0 <= i);
        assert(m0.is_page(a));
        if m0.descs[i] == DescriptorValue::FirstAndLast && !gone(i) {
            assert(m.descs[i] == DescriptorValue::FirstAndLast);
            assert(m.page_index(a) == i);
            assert(crate::page_manager::descriptor_rules::group_end(m.descs, i) == Some(i));
            assert(m1 == m.after_dealloc(i, i));
            assert forall|w: int| 0 <= w < m0.mem.len() implies #[trigger] m1.mem[w] == if g1(
                w / 512,
            ) {
                0u64
            } else {
                m0.mem[w]
            } by {
                assert((i * 512 <= w < (i + 1) * 512) == (w / 512 == i)) by (nonlinear_arith)
                    requires
                        0 <= i,
                        0 <= w,
                ;
            }
        } else {
            assert(m1 == m);
        }
    } else {
        assert(m1 == m);
        assert(!m0.is_page(a)) by {
            if m0.is_page(a) {
                assert(m0.alloc_start + m0.num_pages * 4096 <= m0.heap_end + 1);
            }
        }
    }
    g1
}

/// A word of a table page that is not freed reads as in `m0`.
proof fn lemma_freed_word(m0: HeapModel, m: HeapModel, gone: spec_fn(int) -> bool, t: u64, i: u64)
    requires
        m0.wf(),
        freed_from(m0, m, gone),
        m0.is_page(t as int),
        i < 512,
        !gone(m0.page_index(t as int)),
    ensures
        m.word(slot(t, i)) == m0.word(slot(t, i)),
{
    lemma_slot_in_table(m0, t, i);
    let x = slot(t, i) - m0.alloc_start;
    vstd::arithmetic::div_mod::lemma_div_denominator(x as int, 8, 512);
    assert((x / 8) / 512 == m0.page_index(t as int));
}

/// The address that entry `k` of the table at `table` names, as `unmap`
/// hands it to `dealloc`.
pub open spec fn entry_target(m: HeapModel, table: u64, k: u64) -> int {
    (pte_address(m.word(slot(table, k))) as usize) as int
}

/// Entry `k` of the leaf table at `leaf` is valid and names the page with
/// index `x`, which leads a single-page allocation: freeing it frees `x`.
pub open spec fn frees_target(m0: HeapModel, leaf: u64, k: u64, x: int) -> bool {
    &&& pte_valid(m0.word(slot(leaf, k)))
    &&& m0.is_page(entry_target(m0, leaf, k))
    &&& x == m0.page_index(entry_target(m0, leaf, k))
    &&& m0.descs[x] == DescriptorValue::FirstAndLast
}

/// Entry `k` of the leaf table at `leaf`, if valid, names no heap page that
/// leads a longer allocation, and freeing what it names does not free the
/// leaf table itself.
pub open spec fn target_safe(m0: HeapModel, leaf: u64, k: u64) -> bool {
    &&& pte_valid(m0.word(slot(leaf, k))) && m0.is_page(entry_target(m0, leaf, k))
        ==> m0.descs[m0.page_index(entry_target(m0, leaf, k))] != DescriptorValue::FirstAndTaken
    &&& forall|x: int| #[trigger] frees_target(m0, leaf, k, x) ==> x != m0.page_index(leaf as int)
}

proof fn lemma_unmap_leaves_frees(
    m0: HeapModel,
    m: HeapModel,
    gone: spec_fn(int) -> bool,
    leaf: u64,
    k: int,
) -> (g: spec_fn(int) -> bool)
    requires
        m0.wf(),
        freed_from(m0, m, gone),
        m0.is_page(leaf as int),
        !gone(m0.page_index(leaf as int)),
        0 <= k <= 512,
        forall|kk: u64| k <= kk < 512 ==> #[trigger] target_safe(m0, leaf, kk),
    ensures
        freed_from(m0, unmap_leaves(m, leaf, k), g),
        forall|x: int| gone(x) ==> #[trigger] g(x),
        forall|x: int|
            #[trigger] g(x) ==> gone(x) || exists|kk: u64|
                k <= kk < 512 && #[trigger] frees_target(m0, leaf, kk, x),
        forall|kk: u64, x: int| k <= kk < 512 && #[trigger] frees_target(m0, leaf, kk, x) ==> g(x),
    decreases 512 - k,
{
    if k >= 512 {
        gone
    } else {
        let e = m.word(slot(leaf, k as u64));
        lemma_freed_word(m0, m, gone, leaf, k as u64);
        assert(target_safe(m0, leaf, k as u64));
        if pte_valid(e) {
            let a = entry_target(m0, leaf, k as u64);
            let g1 = lemma_free_one(m0, m, gone, a);
            let m1 = m.dealloc_spec(a).0;
            assert(!frees_target(m0, leaf, k as u64, m0.page_index(leaf as int)));
            assert(!g1(m0.page_index(leaf as int)));
            assert(unmap_leaves(m, leaf, k) == unmap_leaves(m1, leaf, k + 1));
            let g = lemma_unmap_leaves_frees(m0, m1, g1, leaf, k + 1);
            assert forall|x: int| #[trigger] g(x) implies gone(x) || exists|kk: u64|
                k <= kk < 512 && #[trigger] frees_target(m0, leaf, kk, x) by {
                if !gone(x) && g1(x) {
                    assert(frees_target(m0, leaf, k as u64, x));
                }
            }
            assert forall|kk: u64, x: int| k <= kk < 512 && #[trigger] frees_target(
                m0,
                leaf,
                kk,
                x,
            ) implies g(x) by {
                if kk == k {
                    assert(g1(x));
                }
            }
            g
        } else {
            assert(unmap_leaves(m, leaf, k) == unmap_leaves(m, leaf, k + 1));
            let g = lemma_unmap_leaves_frees(m0, m, gone, leaf, k + 1);
            assert forall|kk: u64, x: int| k <= kk < 512 && #[trigger] frees_target(
                m0,
                leaf,
                kk,
                x,
            ) implies g(x) by {
                if kk == k {
                    assert(!pte_valid(m0.word(slot(leaf, kk))));
                }
            }
            g
        }
    }
}

/// Page index `x` is that of one of the tables of the tree rooted at
/// `root`: the root, a mid table or a leaf table.
pub open spec fn table_page(m0: HeapModel, root: u64, x: int) -> bool {
    ||| x == m0.page_index(root as int)
    ||| exists|ri: u64|
        ri < 512 && pte_valid(#[trigger] root_entry(m0, root, ri)) && x == m0.page_index(
            mid_of(m0, root, ri) as int,
        )
    ||| exists|ri: u64, mi: u64|
        ri < 512 && mi < 512 && pte_valid(root_entry(m0, root, ri)) && pte_valid(
            #[trigger] mid_entry(m0, root, ri, mi),
        ) && x == m0.page_index(leaf_of(m0, root, ri, mi) as int)
}

/// The tree rooted at `root` can be taken down page by page: each table
/// leads a single-page allocation, no page it maps leads a longer
/// allocation, and no page it maps that would be freed is one of its
/// tables.
pub open spec fn unmap_safe(m0: HeapModel, root: u64) -> bool {
    &&& m0.descs[m0.page_index(root as int)] == DescriptorValue::FirstAndLast
    &&& forall|ri: u64|
        ri < 512 && pte_valid(#[trigger] root_entry(m0, root, ri)) ==> m0.descs[m0.page_index(
            mid_of(m0, root, ri) as int,
        )] == DescriptorValue::FirstAndLast
    &&& forall|ri: u64, mi: u64|
        ri < 512 && mi < 512 && pte_valid(root_entry(m0, root, ri)) && pte_valid(
            #[trigger] mid_entry(m0, root, ri, mi),
        ) ==> m0.descs[m0.page_index(leaf_of(m0, root, ri, mi) as int)]
            == DescriptorValue::FirstAndLast
    &&& forall|ri: u64, mi: u64, li: u64|
        ri < 512 && mi < 512 && li < 512 && pte_valid(root_entry(m0, root, ri)) && pte_valid(
            mid_entry(m0, root, ri, mi),
        ) && pte_valid(m0.word(slot(leaf_of(m0, root, ri, mi), li))) && m0.is_page(
            #[trigger] entry_target(m0, leaf_of(m0, root, ri, mi), li),
        ) ==> m0.descs[m0.page_index(entry_target(m0, leaf_of(m0, root, ri, mi), li))]
            != DescriptorValue::FirstAndTaken
    &&& forall|ri: u64, mi: u64, li: u64, x: int|
        ri < 512 && mi < 512 && li < 512 && pte_valid(root_entry(m0, root, ri)) && pte_valid(
            mid_entry(m0, root, ri, mi),
        ) && #[trigger] frees_target(m0, leaf_of(m0, root, ri, mi), li, x) ==> !table_page(
            m0,
            root,
            x,
        )
}

/// Page index `x` is that of a leaf table named by a valid entry `mi >= j`
/// of the mid table under root entry `ri`, or of a page that such a leaf
/// table maps and that unmapping frees.
pub open spec fn mid_frees(m0: HeapModel, root: u64, ri: u64, j: int, x: int) -> bool {
    exists|mi: u64|
        j <= mi < 512 && pte_valid(#[trigger] mid_entry(m0, root, ri, mi)) && (x == m0.page_index(
            leaf_of(m0, root, ri, mi) as int,
        ) || exists|li: u64| li < 512 && frees_target(m0, leaf_of(m0, root, ri, mi), li, x))
}

proof fn lemma_same_page(m: HeapModel, a: int, b: int)
    requires
        m.wf(),
        m.is_page(a),
        m.is_page(b),
        m.page_index(a) == m.page_index(b),
    ensures
        a == b,
{
    assert((a - m.alloc_start) % 4096 == 0);
    assert((b - m.alloc_start) % 4096 == 0);
}

#[verifier::spinoff_prover]
#[verifier::rlimit(40)]
proof fn lemma_unmap_mids_frees(
    m0: HeapModel,
    m: HeapModel,
    gone: spec_fn(int) -> bool,
    root: u64,
    role: spec_fn(int) -> TableRole,
    ri: u64,
    j: int,
) -> (g: spec_fn(int) -> bool)
    requires
        m0.wf(),
        tree_with_roles(m0, root, role),
        unmap_safe(m0, root),
        ri < 512,
        pte_valid(root_entry(m0, root, ri)),
        freed_from(m0, m, gone),
        0 <= j <= 512,
        !gone(m0.page_index(mid_of(m0, root, ri) as int)),
        forall|mi: u64|
            j <= mi < 512 && pte_valid(#[trigger] mid_entry(m0, root, ri, mi)) ==> !gone(
                m0.page_index(leaf_of(m0, root, ri, mi) as int),
            ),
    ensures
        freed_from(m0, unmap_mids(m, mid_of(m0, root, ri), j), g),
        forall|x: int| gone(x) ==> #[trigger] g(x),
        forall|x: int| #[trigger] g(x) ==> gone(x) || mid_frees(m0, root, ri, j, x),
        forall|x: int| #[trigger] mid_frees(m0, root, ri, j, x) ==> g(x),
    decreases 512 - j,
{
    let mid = mid_of(m0, root, ri);
    if j >= 512 {
        gone
    } else {
        let ju = j as u64;
        lemma_freed_word(m0, m, gone, mid, ju);
        let e = m.word(slot(mid, ju));
        assert(e == mid_entry(m0, root, ri, ju));
        if pte_valid(e) {
            let leaf = pte_address(e);
            assert(leaf == leaf_of(m0, root, ri, ju));
            assert(m0.is_page(leaf as int));
            assert(m.is_page(leaf as int) == m0.is_page(leaf as int));
            assert forall|kk: u64| 0 <= kk < 512 implies #[trigger] target_safe(m0, leaf, kk) by {
                assert forall|x: int| #[trigger] frees_target(m0, leaf, kk, x) implies x
                    != m0.page_index(leaf as int) by {
                    assert(!table_page(m0, root, x));
                    assert(pte_valid(mid_entry(m0, root, ri, ju)));
                }
                if pte_valid(m0.word(slot(leaf, kk))) && m0.is_page(entry_target(m0, leaf, kk)) {
                    assert(m0.is_page(entry_target(m0, leaf_of(m0, root, ri, ju), kk)));
                }
            }
            let ga = lemma_unmap_leaves_frees(m0, m, gone, leaf, 0);
            let ma = unmap_leaves(m, leaf, 0);
            assert(m0.alloc_start + m0.num_pages * 4096 <= m0.heap_end + 1);
            assert((leaf as usize) as int == leaf as int);
            let gb = lemma_free_one(m0, ma, ga, (leaf as usize) as int);
            let mb = ma.dealloc_spec((leaf as usize) as int).0;
            assert(unmap_mids(m, mid, j) == unmap_mids(mb, mid, j + 1));
            let pl = m0.page_index(leaf as int);
            assert(gb(pl));
            // the mid table is not freed here
            let pm = m0.page_index(mid as int);
            assert(!gb(pm)) by {
                assert(table_page(m0, root, pm));
                if ga(pm) && !gone(pm) {
                    let kk = choose|kk: u64| 0 <= kk < 512 && #[trigger] frees_target(
                        m0,
                        leaf,
                        kk,
                        pm,
                    );
                    assert(pte_valid(mid_entry(m0, root, ri, ju)));
                }
                if pm == pl {
                    lemma_same_page(m0, mid as int, leaf as int);
                }
            }
            assert forall|mi: u64|
                j + 1 <= mi < 512 && pte_valid(#[trigger] mid_entry(m0, root, ri, mi)) implies !gb(
                m0.page_index(leaf_of(m0, root, ri, mi) as int),
            ) by {
                let l2 = leaf_of(m0, root, ri, mi);
                let p2 = m0.page_index(l2 as int);
                assert(table_page(m0, root, p2));
                if ga(p2) && !gone(p2) {
                    let kk = choose|kk: u64| 0 <= kk < 512 && #[trigger] frees_target(
                        m0,
                        leaf,
                        kk,
                        p2,
                    );
                    assert(pte_valid(mid_entry(m0, root, ri, ju)));
                }
                if p2 == pl {
                    lemma_same_page(m0, l2 as int, leaf as int);
                }
            }
            let g = lemma_unmap_mids_frees(m0, mb, gb, root, role, ri, j + 1);
            assert forall|x: int| #[trigger] g(x) implies gone(x) || mid_frees(m0, root, ri, j, x) by {
                if !gone(x) && !mid_frees(m0, root, ri, j + 1, x) {
                    assert(gb(x));
                    if ga(x) {
                        let kk = choose|kk: u64| 0 <= kk < 512 && #[trigger] frees_target(
                            m0,
                            leaf,
                            kk,
                            x,
                        );
                        assert(pte_valid(mid_entry(m0, root, ri, ju)));
                    } else {
                        assert(pte_valid(mid_entry(m0, root, ri, ju)));
                    }
                } else if !gone(x) {
                    let mi = choose|mi: u64|
                        j + 1 <= mi < 512 && pte_valid(#[trigger] mid_entry(m0, root, ri, mi)) && (x
                            == m0.page_index(leaf_of(m0, root, ri, mi) as int) || exists|li: u64|
                            li < 512 && frees_target(m0, leaf_of(m0, root, ri, mi), li, x));
                    assert(pte_valid(mid_entry(m0, root, ri, mi)));
                }
            }
            assert forall|x: int| #[trigger] mid_frees(m0, root, ri, j, x) implies g(x) by {
                let mi = choose|mi: u64|
                    j <= mi < 512 && pte_valid(#[trigger] mid_entry(m0, root, ri, mi)) && (x
                        == m0.page_index(leaf_of(m0, root, ri, mi) as int) || exists|li: u64|
                        li < 512 && frees_target(m0, leaf_of(m0, root, ri, mi), li, x));
                if mi == ju {
                    if x != pl {
                        let li = choose|li: u64| li < 512 && frees_target(m0, leaf, li, x);
                        assert(ga(x));
                    }
                } else {
                    assert(pte_valid(mid_entry(m0, root, ri, mi)));
                    assert(mid_frees(m0, root, ri, j + 1, x));
                }
            }
            g
        } else {
            assert(unmap_mids(m, mid, j) == unmap_mids(m, mid, j + 1));
            let g = lemma_unmap_mids_frees(m0, m, gone, root, role, ri, j + 1);
            assert forall|x: int| #[trigger] g(x) implies gone(x) || mid_frees(m0, root, ri, j, x) by {
                if !gone(x) {
                    let mi = choose|mi: u64|
                        j + 1 <= mi < 512 && pte_valid(#[trigger] mid_entry(m0, root, ri, mi)) && (x
                            == m0.page_index(leaf_of(m0, root, ri, mi) as int) || exists|li: u64|
                            li < 512 && frees_target(m0, leaf_of(m0, root, ri, mi), li, x));
                    assert(pte_valid(mid_entry(m0, root, ri, mi)));
                }
            }
            assert forall|x: int| #[trigger] mid_frees(m0, root, ri, j, x) implies g(x) by {
                let mi = choose|mi: u64|
                    j <= mi < 512 && pte_valid(#[trigger] mid_entry(m0, root, ri, mi)) && (x
                        == m0.page_index(leaf_of(m0, root, ri, mi) as int) || exists|li: u64|
                        li < 512 && frees_target(m0, leaf_of(m0, root, ri, mi), li, x));
                assert(mi != ju);
                assert(mid_frees(m0, root, ri, j + 1, x));
            }
            g
        }
    }
}

/// Page index `x` is that of a mid table named by a valid root entry
/// `ri >= i`, or is freed under such a mid table.
pub open spec fn root_frees(m0: HeapModel, root: u64, i: int, x: int) -> bool {
    exists|ri: u64|
        i <= ri < 512 && pte_valid(#[trigger] root_entry(m0, root, ri)) && (x == m0.page_index(
            mid_of(m0, root, ri) as int,
        ) || mid_frees(m0, root, ri, 0, x))
}

/// Page index `x` is that of a page that a valid leaf entry of the tree
/// rooted at `root` maps and that leads a single-page allocation.
pub open spec fn mapped_single_page(m0: HeapModel, root: u64, x: int) -> bool {
    exists|ri: u64, mi: u64, li: u64|
        ri < 512 && mi < 512 && li < 512 && pte_valid(root_entry(m0, root, ri)) && pte_valid(
            mid_entry(m0, root, ri, mi),
        ) && #[trigger] frees_target(m0, leaf_of(m0, root, ri, mi), li, x)
}

/// Two tables of the tree in different places are different pages.
proof fn lemma_distinct_tables(m0: HeapModel, role: spec_fn(int) -> TableRole, a: u64, b: u64)
    requires
        m0.wf(),
        m0.held_page(a as int),
        m0.held_page(b as int),
        role(a as int) != role(b as int),
    ensures
        m0.page_index(a as int) != m0.page_index(b as int),
{
    if m0.page_index(a as int) == m0.page_index(b as int) {
        lemma_same_page(m0, a as int, b as int);
    }
}

/// A page that a leaf table under root entry `ri` maps and that unmapping
/// frees, or that leaf table itself, is none of the tables outside that
/// root entry's subtree, nor the root.
proof fn lemma_mid_frees_outside(
    m0: HeapModel,
    root: u64,
    role: spec_fn(int) -> TableRole,
    ri: u64,
    x: int,
)
    requires
        m0.wf(),
        tree_with_roles(m0, root, role),
        unmap_safe(m0, root),
        ri < 512,
        pte_valid(root_entry(m0, root, ri)),
        mid_frees(m0, root, ri, 0, x),
    ensures
        x != m0.page_index(root as int),
        x != m0.page_index(mid_of(m0, root, ri) as int),
        forall|ri2: u64|
            ri2 < 512 && ri2 != ri && pte_valid(#[trigger] root_entry(m0, root, ri2)) ==> x
                != m0.page_index(mid_of(m0, root, ri2) as int),
        forall|ri2: u64, mi2: u64|
            ri2 < 512 && ri2 != ri && mi2 < 512 && pte_valid(root_entry(m0, root, ri2)) && pte_valid(
                #[trigger] mid_entry(m0, root, ri2, mi2),
            ) ==> x != m0.page_index(leaf_of(m0, root, ri2, mi2) as int),
{
    let mi = choose|mi: u64|
        0 <= mi < 512 && pte_valid(#[trigger] mid_entry(m0, root, ri, mi)) && (x == m0.page_index(
            leaf_of(m0, root, ri, mi) as int,
        ) || exists|li: u64| li < 512 && frees_target(m0, leaf_of(m0, root, ri, mi), li, x));
    let leaf = leaf_of(m0, root, ri, mi);
    let mid = mid_of(m0, root, ri);
    if x == m0.page_index(leaf as int) {
        lemma_distinct_tables(m0, role, leaf, root);
        lemma_distinct_tables(m0, role, leaf, mid);
        assert forall|ri2: u64|
            ri2 < 512 && ri2 != ri && pte_valid(#[trigger] root_entry(m0, root, ri2)) implies x
            != m0.page_index(mid_of(m0, root, ri2) as int) by {
            lemma_distinct_tables(m0, role, leaf, mid_of(m0, root, ri2));
        }
        assert forall|ri2: u64, mi2: u64|
            ri2 < 512 && ri2 != ri && mi2 < 512 && pte_valid(root_entry(m0, root, ri2)) && pte_valid(
                #[trigger] mid_entry(m0, root, ri2, mi2),
            ) implies x != m0.page_index(leaf_of(m0, root, ri2, mi2) as int) by {
            lemma_distinct_tables(m0, role, leaf, leaf_of(m0, root, ri2, mi2));
        }
    } else {
        let li = choose|li: u64| li < 512 && frees_target(m0, leaf, li, x);
        assert(!table_page(m0, root, x));
        assert(x != m0.page_index(mid as int));
        assert forall|ri2: u64|
            ri2 < 512 && ri2 != ri && pte_valid(#[trigger] root_entry(m0, root, ri2)) implies x
            != m0.page_index(mid_of(m0, root, ri2) as int) by {}
        assert forall|ri2: u64, mi2: u64|
            ri2 < 512 && ri2 != ri && mi2 < 512 && pte_valid(root_entry(m0, root, ri2)) && pte_valid(
                #[trigger] mid_entry(m0, root, ri2, mi2),
            ) implies x != m0.page_index(leaf_of(m0, root, ri2, mi2) as int) by {}
    }
}

#[verifier::spinoff_prover]
#[verifier::rlimit(40)]
proof fn lemma_unmap_roots_frees(
    m0: HeapModel,
    m: HeapModel,
    gone: spec_fn(int) -> bool,
    root: u64,
    role: spec_fn(int) -> TableRole,
    i: int,
) -> (g: spec_fn(int) -> bool)
    requires
        m0.wf(),
        tree_with_roles(m0, root, role),
        unmap_safe(m0, root),
        freed_from(m0, m, gone),
        0 <= i <= 512,
        !gone(m0.page_index(root as int)),
        forall|ri: u64|
            i <= ri < 512 && pte_valid(#[trigger] root_entry(m0, root, ri)) ==> !gone(
                m0.page_index(mid_of(m0, root, ri) as int),
            ),
        forall|ri: u64, mi: u64|
            i <= ri < 512 && mi < 512 && pte_valid(root_entry(m0, root, ri)) && pte_valid(
                #[trigger] mid_entry(m0, root, ri, mi),
            ) ==> !gone(m0.page_index(leaf_of(m0, root, ri, mi) as int)),
    ensures
        freed_from(m0, unmap_roots(m, root, i), g),
        forall|x: int| gone(x) ==> #[trigger] g(x),
        forall|x: int| #[trigger] g(x) ==> gone(x) || root_frees(m0, root, i, x),
        forall|x: int| #[trigger] root_frees(m0, root, i, x) ==> g(x),
    decreases 512 - i,
{
    if i >= 512 {
        gone
    } else {
        let iu = i as u64;
        lemma_freed_word(m0, m, gone, root, iu);
        let e = m.word(slot(root, iu));
        assert(e == root_entry(m0, root, iu));
        if pte_valid(e) {
            let mid = pte_address(e);
            assert(mid == mid_of(m0, root, iu));
            assert(m.is_page(mid as int) == m0.is_page(mid as int));
            assert forall|mi: u64|
                0 <= mi < 512 && pte_valid(#[trigger] mid_entry(m0, root, iu, mi)) implies !gone(
                m0.page_index(leaf_of(m0, root, iu, mi) as int),
            ) by {
                assert(pte_valid(root_entry(m0, root, iu)));
            }
            let ga = lemma_unmap_mids_frees(m0, m, gone, root, role, iu, 0);
            let ma = unmap_mids(m, mid, 0);
            assert(m0.alloc_start + m0.num_pages * 4096 <= m0.heap_end + 1);
            assert((mid as usize) as int == mid as int);
            let gb = lemma_free_one(m0, ma, ga, (mid as usize) as int);
            let mb = ma.dealloc_spec((mid as usize) as int).0;
            assert(unmap_roots(m, root, i) == unmap_roots(mb, root, i + 1));
            let pmid = m0.page_index(mid as int);
            assert(gb(pmid));
            assert(!gb(m0.page_index(root as int))) by {
                lemma_distinct_tables(m0, role, root, mid);
                if ga(m0.page_index(root as int)) && !gone(m0.page_index(root as int)) {
                    lemma_mid_frees_outside(m0, root, role, iu, m0.page_index(root as int));
                }
            }
            assert forall|ri: u64|
                i + 1 <= ri < 512 && pte_valid(#[trigger] root_entry(m0, root, ri)) implies !gb(
                m0.page_index(mid_of(m0, root, ri) as int),
            ) by {
                let p2 = m0.page_index(mid_of(m0, root, ri) as int);
                lemma_distinct_tables(m0, role, mid_of(m0, root, ri), mid);
                if ga(p2) && !gone(p2) {
                    lemma_mid_frees_outside(m0, root, role, iu, p2);
                }
            }
            assert forall|ri: u64, mi: u64|
                i + 1 <= ri < 512 && mi < 512 && pte_valid(root_entry(m0, root, ri)) && pte_valid(
                    #[trigger] mid_entry(m0, root, ri, mi),
                ) implies !gb(m0.page_index(leaf_of(m0, root, ri, mi) as int)) by {
                let p2 = m0.page_index(leaf_of(m0, root, ri, mi) as int);
                lemma_distinct_tables(m0, role, leaf_of(m0, root, ri, mi), mid);
                if ga(p2) && !gone(p2) {
                    lemma_mid_frees_outside(m0, root, role, iu, p2);
                }
            }
            let g = lemma_unmap_roots_frees(m0, mb, gb, root, role, i + 1);
            assert forall|x: int| #[trigger] g(x) implies gone(x) || root_frees(m0, root, i, x) by {
                if !gone(x) && !root_frees(m0, root, i + 1, x) {
                    assert(gb(x));
                    assert(pte_valid(root_entry(m0, root, iu)));
                } else if !gone(x) {
                    let ri = choose|ri: u64|
                        i + 1 <= ri < 512 && pte_valid(#[trigger] root_entry(m0, root, ri)) && (x
                            == m0.page_index(mid_of(m0, root, ri) as int) || mid_frees(
                            m0,
                            root,
                            ri,
                            0,
                            x,
                        ));
                    assert(pte_valid(root_entry(m0, root, ri)));
                }
            }
            assert forall|x: int| #[trigger] root_frees(m0, root, i, x) implies g(x) by {
                let ri = choose|ri: u64|
                    i <= ri < 512 && pte_valid(#[trigger] root_entry(m0, root, ri)) && (x
                        == m0.page_index(mid_of(m0, root, ri) as int) || mid_frees(
                        m0,
                        root,
                        ri,
                        0,
                        x,
                    ));
                if ri == iu {
                    if x != pmid {
                        assert(ga(x));
                    }
                } else {
                    assert(pte_valid(root_entry(m0, root, ri)));
                    assert(root_frees(m0, root, i + 1, x));
                }
            }
            g
        } else {
            assert(unmap_roots(m, root, i) == unmap_roots(m, root, i + 1));
            let g = lemma_unmap_roots_frees(m0, m, gone, root, role, i + 1);
            assert forall|x: int| #[trigger] g(x) implies gone(x) || root_frees(m0, root, i, x) by {
                if !gone(x) {
                    let ri = choose|ri: u64|
                        i + 1 <= ri < 512 && pte_valid(#[trigger] root_entry(m0, root, ri)) && (x
                            == m0.page_index(mid_of(m0, root, ri) as int) || mid_frees(
                            m0,
                            root,
                            ri,
                            0,
                            x,
                        ));
                    assert(pte_valid(root_entry(m0, root, ri)));
                }
            }
            assert forall|x: int| #[trigger] root_frees(m0, root, i, x) implies g(x) by {
                let ri = choose|ri: u64|
                    i <= ri < 512 && pte_valid(#[trigger] root_entry(m0, root, ri)) && (x
                        == m0.page_index(mid_of(m0, root, ri) as int) || mid_frees(
                        m0,
                        root,
                        ri,
                        0,
                        x,
                    ));
                assert(ri != iu);
                assert(root_frees(m0, root, i + 1, x));
            }
            g
        }
    }
}

/// What `unmap` frees: within a tree of tables that can be taken down page
/// by page, it frees exactly the tables and the mapped pages that lead
/// single-page allocations. Their descriptors become `Empty` and their
/// words zero; every other page keeps its descriptor and its words. So the
/// pages held afterwards are those held before, less the tables and the
/// pages they map.
pub proof fn lemma_unmap_frees_tree(m0: HeapModel, root: u64)
    requires
        m0.wf(),
        table_tree(m0, root),
        unmap_safe(m0, root),
    ensures
        freed_from(
            m0,
            unmap_spec(m0, root),
            |x: int| table_page(m0, root, x) || mapped_single_page(m0, root, x),
        ),
        forall|x: int|
            0 <= x < m0.num_pages ==> (#[trigger] unmap_spec(m0, root).descs[x]
                == DescriptorValue::Empty) == (m0.descs[x] == DescriptorValue::Empty || table_page(
                m0,
                root,
                x,
            ) || mapped_single_page(m0, root, x)),
{
    let role = choose|role: spec_fn(int) -> TableRole| tree_with_roles(m0, root, role);
    let gone0 = |x: int| false;
    assert(freed_from(m0, m0, gone0));
    let g = lemma_unmap_roots_frees(m0, m0, gone0, root, role, 0);
    let ma = unmap_roots(m0, root, 0);
    assert(m0.alloc_start + m0.num_pages * 4096 <= m0.heap_end + 1);
    assert((root as usize) as int == root as int);
    let gf = lemma_free_one(m0, ma, g, (root as usize) as int);
    let want = |x: int| table_page(m0, root, x) || mapped_single_page(m0, root, x);
    assert forall|x: int| #[trigger] gf(x) == want(x) by {
        if gf(x) {
            if x != m0.page_index(root as int) {
                assert(g(x));
                let ri = choose|ri: u64|
                    0 <= ri < 512 && pte_valid(#[trigger] root_entry(m0, root, ri)) && (x
                        == m0.page_index(mid_of(m0, root, ri) as int) || mid_frees(
                        m0,
                        root,
                        ri,
                        0,
                        x,
                    ));
                if x != m0.page_index(mid_of(m0, root, ri) as int) {
                    let mi = choose|mi: u64|
                        0 <= mi < 512 && pte_valid(#[trigger] mid_entry(m0, root, ri, mi)) && (x
                            == m0.page_index(leaf_of(m0, root, ri, mi) as int) || exists|li: u64|
                            li < 512 && frees_target(m0, leaf_of(m0, root, ri, mi), li, x));
                    if x != m0.page_index(leaf_of(m0, root, ri, mi) as int) {
                        let li = choose|li: u64|
                            li < 512 && frees_target(m0, leaf_of(m0, root, ri, mi), li, x);
                        assert(mapped_single_page(m0, root, x));
                    } else {
                        assert(table_page(m0, root, x));
                    }
                } else {
                    assert(table_page(m0, root, x));
                }
            }
        }
        if want(x) {
            if x == m0.page_index(root as int) {
                assert(gf(x));
            } else if table_page(m0, root, x) {
                if exists|ri: u64|
                    ri < 512 && pte_valid(#[trigger] root_entry(m0, root, ri)) && x
                        == m0.page_index(mid_of(m0, root, ri) as int) {
                    let ri = choose|ri: u64|
                        ri < 512 && pte_valid(#[trigger] root_entry(m0, root, ri)) && x
                            == m0.page_index(mid_of(m0, root, ri) as int);
                    assert(root_frees(m0, root, 0, x));
                } else {
                    let (ri, mi) = choose|ri: u64, mi: u64|
                        ri < 512 && mi < 512 && pte_valid(root_entry(m0, root, ri)) && pte_valid(
                            #[trigger] mid_entry(m0, root, ri, mi),
                        ) && x == m0.page_index(leaf_of(m0, root, ri, mi) as int);
                    assert(mid_frees(m0, root, ri, 0, x));
                    assert(root_frees(m0, root, 0, x));
                }
            } else {
                let (ri, mi, li) = choose|ri: u64, mi: u64, li: u64|
                    ri < 512 && mi < 512 && li < 512 && pte_valid(root_entry(m0, root, ri))
                        && pte_valid(mid_entry(m0, root, ri, mi)) && #[trigger] frees_target(
                        m0,
                        leaf_of(m0, root, ri, mi),
                        li,
                        x,
                    );
                assert(mid_frees(m0, root, ri, 0, x));
                assert(root_frees(m0, root, 0, x));
            }
        }
    }
    assert(unmap_spec(m0, root) == ma.dealloc_spec((root as usize) as int).0);
    lemma_freed_from_same(m0, unmap_spec(m0, root), gf, want);
}

} // verus!
