//! Building page tables: the tree that the tables of an address space form
//! in RAM, and `map_page`, which is specified by what it does to lookups.

use crate::allocator::{AllocError, PageAllocator};
use crate::paging::{
    entry, is_frame, leaf_pte, lemma_leaf_pte, lemma_table_pte, lemma_vpn_indices, next_level,
    table_pte,
    pte_addr, pte_flags, pte_low_bits, pte_ppn, pte_valid, translate, vpn, vpn0, vpn1, vpn2, walk,
    PageFlags,
    PTE_V,
};
use crate::physmem::{lemma_word_of_zeros, lemma_word_same, PhysMemory};
use crate::utils::PAGE_SIZE;
use vstd::prelude::*;

verus! {

/// Whether `i` is an index into a table.
pub open spec fn is_index(i: int) -> bool {
    0 <= i < 512
}

/// Whether the frame at `a` is a middle table of the address space under `top`.
pub open spec fn is_l1_table(mem: &PhysMemory, top: int, a: int) -> bool {
    exists|i: int| is_index(i) && #[trigger] next_level(mem, top, i) == Some(a)
}

/// Whether the frame at `a` is a last-level table of the address space under `top`.
pub open spec fn is_l0_table(mem: &PhysMemory, top: int, a: int) -> bool {
    exists|t: int, j: int|
        is_l1_table(mem, top, t) && is_index(j) && #[trigger] next_level(mem, t, j) == Some(a)
}

/// Whether the frame at `a` is one of the tables of the address space under `top`.
pub open spec fn is_table(mem: &PhysMemory, top: int, a: int) -> bool {
    a == top || is_l1_table(mem, top, a) || is_l0_table(mem, top, a)
}

/// The address of the frame that holds the byte at `addr`.
pub open spec fn frame_of(addr: int) -> int {
    addr - addr % (PAGE_SIZE as int)
}

/// How many tables are missing on the way from `top` to the entry for `vaddr`.
pub open spec fn tables_missing(mem: &PhysMemory, top: int, vaddr: u64) -> int {
    match next_level(mem, top, vpn2(vaddr) as int) {
        None => 2,
        Some(t1) => match next_level(mem, t1, vpn1(vaddr) as int) {
            None => 1,
            Some(_) => 0,
        },
    }
}

/// The indices of the top table under which a middle table hangs.
pub open spec fn mid_tables(mem: &PhysMemory, top: int) -> Set<int> {
    Set::new(|i: int| is_index(i) && next_level(mem, top, i) is Some)
}

/// The pairs of indices under which a last-level table hangs, each pair
/// `(i, j)` as the number `512 * i + j`.
pub open spec fn last_tables(mem: &PhysMemory, top: int) -> Set<int> {
    Set::new(
        |key: int|
            is_index(key / 512) && next_level(mem, top, key / 512) is Some && next_level(
                mem,
                next_level(mem, top, key / 512).unwrap(),
                key % 512,
            ) is Some,
    )
}

/// The place of the middle table on the way to `vaddr`.
pub open spec fn mid_key(vaddr: u64) -> int {
    vpn2(vaddr) as int
}

/// The place of the last-level table on the way to `vaddr`.
pub open spec fn last_key(vaddr: u64) -> int {
    512 * vpn2(vaddr) + vpn1(vaddr)
}

/// How many tables have to be added to those at `mids` and `lasts` to reach
/// the entry for `vaddr`.
pub open spec fn page_missing(mids: Set<int>, lasts: Set<int>, vaddr: u64) -> int {
    (if mids.contains(mid_key(vaddr)) {
        0int
    } else {
        1int
    }) + (if lasts.contains(last_key(vaddr)) {
        0int
    } else {
        1int
    })
}

/// Counting the missing tables in RAM and over the places of the tables that
/// are there comes to the same.
pub proof fn lemma_tables_missing_by_place(mem: &PhysMemory, top: int, vaddr: u64)
    ensures
        tables_missing(mem, top, vaddr) == page_missing(
            mid_tables(mem, top),
            last_tables(mem, top),
            vaddr,
        ),
{
    lemma_vpn_indices(vaddr, vaddr);
    let i = vpn2(vaddr) as int;
    let j = vpn1(vaddr) as int;
    assert((512 * i + j) / 512 == i && (512 * i + j) % 512 == j);
}

/// `own` records the place of every table under `top`: its level, and the
/// indices that lead to it. A frame has one place only, so no table is
/// reachable in two ways, and all tables are frames that were handed out.
/// Every entry of a table is zero or valid, and an entry that leads to a
/// table has V alone set among its low ten bits.
pub open spec fn tree_ok(
    mem: &PhysMemory,
    alloc: &PageAllocator,
    top: int,
    own: Map<int, (int, int, int)>,
) -> bool {
    &&& alloc.wf()
    &&& alloc.within(mem)
    &&& own.contains_key(top)
    &&& own[top] == (2int, 0int, 0int)
    &&& forall|a: int| #[trigger] own.contains_key(a) ==> alloc.allocated(a)
    &&& forall|i: int|
        is_index(i) && pte_valid(#[trigger] entry(mem, top, i)) ==> own.contains_key(
            pte_addr(entry(mem, top, i)),
        ) && own[pte_addr(entry(mem, top, i))] == (1int, i, 0int) && pte_low_bits(
            entry(mem, top, i),
        ) == PTE_V
    &&& forall|a: int, j: int|
        own.contains_key(a) && own[a].0 == 1 && is_index(j) && pte_valid(
            #[trigger] entry(mem, a, j),
        ) ==> own.contains_key(pte_addr(entry(mem, a, j))) && own[pte_addr(entry(mem, a, j))] == (
            0int,
            own[a].1,
            j,
        ) && pte_low_bits(entry(mem, a, j)) == PTE_V
    &&& forall|a: int, n: int|
        own.contains_key(a) && is_index(n) && #[trigger] entry(mem, a, n) != 0 ==> pte_valid(
            entry(mem, a, n),
        )
}

/// The tables under `top` form a tree of frames that `alloc` has handed out.
pub open spec fn table_tree(mem: &PhysMemory, alloc: &PageAllocator, top: int) -> bool {
    exists|own: Map<int, (int, int, int)>| tree_ok(mem, alloc, top, own)
}

/// `m1` is `m0` with entry `idx` of the table at `table` set to `v`.
pub open spec fn entries_updated(m0: &PhysMemory, m1: &PhysMemory, table: int, idx: int, v: u64) -> bool {
    &&& m1.base == m0.base
    &&& m1.bytes@.len() == m0.bytes@.len()
    &&& forall|a: int, n: int|
        is_frame(m0, a) && is_index(n) ==> #[trigger] entry(m1, a, n) == if a == table && n == idx {
            v
        } else {
            entry(m0, a, n)
        }
}

/// `m1` is `m0` with the frame at `frame` filled with zeros.
pub open spec fn frame_zeroed(m0: &PhysMemory, m1: &PhysMemory, frame: int) -> bool {
    &&& m1.base == m0.base
    &&& m1.bytes@.len() == m0.bytes@.len()
    &&& forall|a: int, n: int|
        is_frame(m0, a) && is_index(n) ==> #[trigger] entry(m1, a, n) == if a == frame {
            0
        } else {
            entry(m0, a, n)
        }
}

/// Two distinct entries of page-aligned tables do not overlap.
proof fn lemma_entries_apart(a: int, n: int, b: int, m: int)
    requires
        a % 4096 == 0,
        b % 4096 == 0,
        is_index(n),
        is_index(m),
        a != b || n != m,
    ensures
        a + 8 * n + 8 <= b + 8 * m || b + 8 * m + 8 <= a + 8 * n,
{
    if a != b {
        assert(a - b >= 4096 || b - a >= 4096) by {
            assert(a == 4096 * (a / 4096) && b == 4096 * (b / 4096)) by {
                vstd::arithmetic::div_mod::lemma_fundamental_div_mod(a, 4096);
                vstd::arithmetic::div_mod::lemma_fundamental_div_mod(b, 4096);
            }
        }
    }
}

/// A byte of a frame lies in that frame and in no other.
pub proof fn lemma_frame_of(frame: int, addr: int)
    requires
        frame % 4096 == 0,
        frame <= addr < frame + 4096,
    ensures
        frame_of(addr) == frame,
{
    vstd::arithmetic::div_mod::lemma_fundamental_div_mod(frame, 4096);
    vstd::arithmetic::div_mod::lemma_fundamental_div_mod_converse(
        addr,
        4096,
        frame / 4096,
        addr - frame,
    );
}

/// Sets entry `idx` of the table at `table` to `v`.
fn set_entry(mem: &mut PhysMemory, table: u64, idx: u64, v: u64)
    requires
        old(mem).wf(),
        is_frame(old(mem), table as int),
        idx < 512,
    ensures
        final(mem).wf(),
        entries_updated(old(mem), final(mem), table as int, idx as int, v),
        final(mem).same_outside(old(mem), table + 8 * idx, table + 8 * idx + 8),
{
    mem.write_u64(table + 8 * idx, v);
    proof {
        assert forall|a: int, n: int| is_frame(old(mem), a) && is_index(n) implies #[trigger] entry(
            mem,
            a,
            n,
        ) == if a == table && n == idx {
            v
        } else {
            entry(old(mem), a, n)
        } by {
            if !(a == table && n == idx) {
                lemma_entries_apart(a, n, table as int, idx as int);
                lemma_word_same(mem, old(mem), a + 8 * n);
            }
        }
    }
}

/// After a frame was filled with zeros, its entries are zero and all other
/// frames hold what they held.
proof fn lemma_frame_zeroed(m0: &PhysMemory, m1: &PhysMemory, frame: int)
    requires
        is_frame(m0, frame),
        m1.same_outside(m0, frame, frame + 4096),
        forall|a: int| frame <= a < frame + 4096 ==> #[trigger] m1.byte(a) == 0,
    ensures
        frame_zeroed(m0, m1, frame),
{
    assert forall|a: int, n: int| is_frame(m0, a) && is_index(n) implies #[trigger] entry(m1, a, n)
        == if a == frame {
        0
    } else {
        entry(m0, a, n)
    } by {
        if a == frame {
            lemma_word_of_zeros(m1, a + 8 * n);
        } else {
            lemma_entries_apart(a, n, frame, 0);
            lemma_entries_apart(a, n, frame, 511);
            lemma_word_same(m1, m0, a + 8 * n);
        }
    }
}

/// Filling a frame that is not yet handed out with zeros, and handing it out,
/// leaves the tree and every lookup as they were.
proof fn lemma_fresh_frame_keeps_tree(
    m0: &PhysMemory,
    m1: &PhysMemory,
    al0: &PageAllocator,
    al1: &PageAllocator,
    top: int,
    own: Map<int, (int, int, int)>,
)
    requires
        tree_ok(m0, al0, top, own),
        al1.wf(),
        al1.within(m1),
        al1.start == al0.start,
        al1.end == al0.end,
        al1.next >= al0.next,
        m1.same_outside(m0, al0.next as int, al1.next as int),
    ensures
        tree_ok(m1, al1, top, own),
        forall|v: u64| #[trigger] walk(m1, top, v) == walk(m0, top, v),
        forall|a: int| #[trigger] is_table(m1, top, a) ==> is_table(m0, top, a),
        forall|v: u64| #[trigger] tables_missing(m1, top, v) == tables_missing(m0, top, v),
        forall|a: int, n: int|
            own.contains_key(a) && is_index(n) ==> #[trigger] entry(m1, a, n) == entry(m0, a, n),
        mid_tables(m1, top) == mid_tables(m0, top),
        last_tables(m1, top) == last_tables(m0, top),
{
    assert forall|a: int, n: int| own.contains_key(a) && is_index(n) implies #[trigger] entry(
        m1,
        a,
        n,
    ) == entry(m0, a, n) by {
        assert(al0.allocated(a));
        lemma_word_same(m1, m0, a + 8 * n);
    }
    lemma_same_entries_same_tree(m0, m1, al0, al1, top, own);
}

/// Two memories that hold the same entries in every table of a tree hold the
/// same tree and answer every lookup alike.
proof fn lemma_same_entries_same_tree(
    m0: &PhysMemory,
    m1: &PhysMemory,
    al0: &PageAllocator,
    al1: &PageAllocator,
    top: int,
    own: Map<int, (int, int, int)>,
)
    requires
        tree_ok(m0, al0, top, own),
        al1.wf(),
        al1.within(m1),
        al1.start == al0.start,
        al1.next >= al0.next,
        m1.base == m0.base,
        m1.bytes@.len() == m0.bytes@.len(),
        forall|a: int, n: int|
            own.contains_key(a) && is_index(n) ==> #[trigger] entry(m1, a, n) == entry(m0, a, n),
    ensures
        tree_ok(m1, al1, top, own),
        forall|v: u64| #[trigger] walk(m1, top, v) == walk(m0, top, v),
        forall|a: int| #[trigger] is_table(m1, top, a) ==> is_table(m0, top, a),
        forall|v: u64| #[trigger] tables_missing(m1, top, v) == tables_missing(m0, top, v),
        mid_tables(m1, top) == mid_tables(m0, top),
        last_tables(m1, top) == last_tables(m0, top),
{
    assert forall|i: int| is_index(i) implies #[trigger] next_level(m1, top, i) == next_level(
        m0,
        top,
        i,
    ) by {
        assert(entry(m1, top, i) == entry(m0, top, i));
    }
    assert forall|t: int, j: int|
        is_l1_table(m0, top, t) && is_index(j) implies #[trigger] next_level(m1, t, j)
        == next_level(m0, t, j) && own.contains_key(t) && own[t].0 == 1 by {
        let i = choose|i: int| is_index(i) && #[trigger] next_level(m0, top, i) == Some(t);
        assert(pte_valid(entry(m0, top, i)));
        assert(entry(m1, t, j) == entry(m0, t, j));
    }
    assert(mid_tables(m1, top) =~= mid_tables(m0, top));
    assert forall|key: int| last_tables(m1, top).contains(key) == last_tables(m0, top).contains(
        key,
    ) by {
        if is_index(key / 512) && next_level(m0, top, key / 512) is Some {
            let t = next_level(m0, top, key / 512).unwrap();
            assert(is_l1_table(m0, top, t));
            assert(next_level(m1, t, key % 512) == next_level(m0, t, key % 512));
        }
    }
    assert(last_tables(m1, top) =~= last_tables(m0, top));
    assert forall|v: u64|
        #![trigger walk(m1, top, v)]
        #![trigger tables_missing(m1, top, v)]
        walk(m1, top, v) == walk(m0, top, v) && tables_missing(m1, top, v) == tables_missing(
            m0,
            top,
            v,
        ) by {
        lemma_vpn_indices(v, v);
        let i = vpn2(v) as int;
        let j = vpn1(v) as int;
        let k = vpn0(v) as int;
        assert(next_level(m1, top, i) == next_level(m0, top, i));
        if let Some(t1) = next_level(m0, top, i) {
            assert(is_l1_table(m0, top, t1));
            assert(next_level(m1, t1, j) == next_level(m0, t1, j));
            if let Some(t0) = next_level(m0, t1, j) {
                assert(pte_valid(entry(m0, t1, j)));
                assert(own.contains_key(t0));
                assert(entry(m1, t0, k) == entry(m0, t0, k));
            }
        }
    }
    assert forall|a: int| #[trigger] is_table(m1, top, a) implies is_table(m0, top, a) by {
        if a == top {
        } else if is_l1_table(m1, top, a) {
            let i = choose|i: int| is_index(i) && #[trigger] next_level(m1, top, i) == Some(a);
            assert(next_level(m0, top, i) == Some(a));
        } else {
            let (t, j) = choose|t: int, j: int|
                is_l1_table(m1, top, t) && is_index(j) && #[trigger] next_level(m1, t, j) == Some(
                    a,
                );
            let i = choose|i: int| is_index(i) && #[trigger] next_level(m1, top, i) == Some(t);
            assert(next_level(m0, top, i) == Some(t));
            assert(is_l1_table(m0, top, t));
            assert(next_level(m0, t, j) == Some(a));
        }
    }
    assert forall|a: int, j: int|
        own.contains_key(a) && own[a].0 == 1 && is_index(j) && pte_valid(
            #[trigger] entry(m1, a, j),
        ) implies own.contains_key(pte_addr(entry(m1, a, j))) && own[pte_addr(entry(m1, a, j))] == (
        0int,
        own[a].1,
        j,
    ) by {
        assert(entry(m1, a, j) == entry(m0, a, j));
    }
    assert forall|i: int| is_index(i) && pte_valid(#[trigger] entry(m1, top, i)) implies own.contains_key(
        pte_addr(entry(m1, top, i)),
    ) && own[pte_addr(entry(m1, top, i))] == (1int, i, 0int) by {
        assert(entry(m1, top, i) == entry(m0, top, i));
    }
}

/// The zero word is not a valid entry.
proof fn lemma_zero_entry_invalid()
    ensures
        !pte_valid(0),
{
    assert(0u64 & 1 == 0) by (bit_vector);
}

/// Hanging an empty table into a free entry of the top table adds a table to
/// the tree and changes no lookup.
proof fn lemma_install_l1(
    m0: &PhysMemory,
    m1: &PhysMemory,
    al: &PageAllocator,
    top: int,
    own: Map<int, (int, int, int)>,
    x: int,
    fresh: int,
    e: u64,
)
    requires
        tree_ok(m0, al, top, own),
        is_index(x),
        !pte_valid(entry(m0, top, x)),
        al.allocated(fresh),
        !own.contains_key(fresh),
        forall|n: int| is_index(n) ==> #[trigger] entry(m0, fresh, n) == 0,
        pte_valid(e),
        pte_low_bits(e) == PTE_V,
        pte_addr(e) == fresh,
        entries_updated(m0, m1, top, x, e),
    ensures
        tree_ok(m1, al, top, own.insert(fresh, (1int, x, 0int))),
        forall|v: u64| #[trigger] walk(m1, top, v) == walk(m0, top, v),
        forall|a: int| #[trigger] is_table(m1, top, a) ==> is_table(m0, top, a) || a == fresh,
        mid_tables(m1, top) == mid_tables(m0, top).insert(x),
        last_tables(m1, top) == last_tables(m0, top),
{
    lemma_zero_entry_invalid();
    let own1 = own.insert(fresh, (1int, x, 0int));
    assert(al.allocated(top));
    assert forall|i: int| is_index(i) implies #[trigger] next_level(m1, top, i) == if i == x {
        Some(fresh)
    } else {
        next_level(m0, top, i)
    } by {
        assert(entry(m1, top, i) == if i == x {
            e
        } else {
            entry(m0, top, i)
        });
    }
    assert forall|t: int, j: int|
        is_l1_table(m1, top, t) && is_index(j) implies #[trigger] next_level(m1, t, j) == if t
        == fresh {
        None
    } else {
        next_level(m0, t, j)
    } && (t == fresh || is_l1_table(m0, top, t)) by {
        let i = choose|i: int| is_index(i) && #[trigger] next_level(m1, top, i) == Some(t);
        if t == fresh {
            assert(entry(m1, t, j) == entry(m0, t, j));
        } else {
            assert(next_level(m0, top, i) == Some(t));
            assert(pte_valid(entry(m0, top, i)));
            assert(own.contains_key(t));
            assert(al.allocated(t));
            assert(entry(m1, t, j) == entry(m0, t, j));
        }
    }
    assert(mid_tables(m1, top) =~= mid_tables(m0, top).insert(x));
    assert forall|key: int| last_tables(m1, top).contains(key) == last_tables(m0, top).contains(
        key,
    ) by {
        let i = key / 512;
        if is_index(i) {
            if i == x {
                assert(is_l1_table(m1, top, fresh));
                assert(next_level(m1, fresh, key % 512) is None);
            } else if next_level(m0, top, i) is Some {
                let t = next_level(m0, top, i).unwrap();
                assert(next_level(m1, top, i) == Some(t));
                assert(is_l1_table(m1, top, t));
                assert(next_level(m1, t, key % 512) == next_level(m0, t, key % 512));
            }
        }
    }
    assert(last_tables(m1, top) =~= last_tables(m0, top));
    assert forall|v: u64| #[trigger] walk(m1, top, v) == walk(m0, top, v) by {
        lemma_vpn_indices(v, v);
        let i = vpn2(v) as int;
        let j = vpn1(v) as int;
        let k = vpn0(v) as int;
        assert(next_level(m1, top, i) == if i == x {
            Some(fresh)
        } else {
            next_level(m0, top, i)
        });
        if i == x {
            assert(is_l1_table(m1, top, fresh));
            assert(next_level(m1, fresh, j) is None);
        } else if let Some(t1) = next_level(m0, top, i) {
            assert(is_l1_table(m1, top, t1));
            assert(pte_valid(entry(m0, top, i)));
            assert(next_level(m1, t1, j) == next_level(m0, t1, j));
            if let Some(t0) = next_level(m0, t1, j) {
                assert(pte_valid(entry(m0, t1, j)));
                assert(own.contains_key(t0));
                assert(al.allocated(t0));
                assert(entry(m1, t0, k) == entry(m0, t0, k));
            }
        }
    }
    assert forall|a: int| #[trigger] is_table(m1, top, a) implies is_table(m0, top, a) || a
        == fresh by {
        if a == top || a == fresh {
        } else if is_l1_table(m1, top, a) {
            let i = choose|i: int| is_index(i) && #[trigger] next_level(m1, top, i) == Some(a);
            assert(next_level(m0, top, i) == Some(a));
        } else {
            let (t, j) = choose|t: int, j: int|
                is_l1_table(m1, top, t) && is_index(j) && #[trigger] next_level(m1, t, j) == Some(
                    a,
                );
            assert(next_level(m0, t, j) == Some(a));
        }
    }
    assert forall|i: int| is_index(i) && pte_valid(#[trigger] entry(m1, top, i)) implies own1.contains_key(
        pte_addr(entry(m1, top, i)),
    ) && own1[pte_addr(entry(m1, top, i))] == (1int, i, 0int) by {
        assert(entry(m1, top, i) == if i == x {
            e
        } else {
            entry(m0, top, i)
        });
    }
    assert forall|a: int, j: int|
        own1.contains_key(a) && own1[a].0 == 1 && is_index(j) && pte_valid(
            #[trigger] entry(m1, a, j),
        ) implies own1.contains_key(pte_addr(entry(m1, a, j))) && own1[pte_addr(entry(m1, a, j))]
        == (0int, own1[a].1, j) by {
        assert(al.allocated(a));
        assert(entry(m1, a, j) == entry(m0, a, j));
    }
}

/// Hanging an empty table into a free entry of a middle table adds a table to
/// the tree and changes no lookup.
proof fn lemma_install_l0(
    m0: &PhysMemory,
    m1: &PhysMemory,
    al: &PageAllocator,
    top: int,
    own: Map<int, (int, int, int)>,
    i: int,
    t1: int,
    x: int,
    fresh: int,
    e: u64,
)
    requires
        tree_ok(m0, al, top, own),
        is_index(i),
        is_index(x),
        next_level(m0, top, i) == Some(t1),
        !pte_valid(entry(m0, t1, x)),
        al.allocated(fresh),
        !own.contains_key(fresh),
        forall|n: int| is_index(n) ==> #[trigger] entry(m0, fresh, n) == 0,
        pte_valid(e),
        pte_low_bits(e) == PTE_V,
        pte_addr(e) == fresh,
        entries_updated(m0, m1, t1, x, e),
    ensures
        tree_ok(m1, al, top, own.insert(fresh, (0int, i, x))),
        forall|v: u64| #[trigger] walk(m1, top, v) == walk(m0, top, v),
        forall|a: int| #[trigger] is_table(m1, top, a) ==> is_table(m0, top, a) || a == fresh,
        next_level(m1, top, i) == Some(t1),
        next_level(m1, t1, x) == Some(fresh),
        mid_tables(m1, top) == mid_tables(m0, top),
        last_tables(m1, top) == last_tables(m0, top).insert(512 * i + x),
{
    lemma_zero_entry_invalid();
    let own1 = own.insert(fresh, (0int, i, x));
    assert(al.allocated(top));
    assert(pte_valid(entry(m0, top, i)));
    assert(own.contains_key(t1) && own[t1] == (1int, i, 0int));
    assert(al.allocated(t1));
    assert forall|n: int| is_index(n) implies #[trigger] next_level(m1, top, n) == next_level(
        m0,
        top,
        n,
    ) by {
        assert(entry(m1, top, n) == entry(m0, top, n));
    }
    assert forall|t: int, j: int|
        is_l1_table(m0, top, t) && is_index(j) implies #[trigger] next_level(m1, t, j) == if t == t1
        && j == x {
        Some(fresh)
    } else {
        next_level(m0, t, j)
    } by {
        let n = choose|n: int| is_index(n) && #[trigger] next_level(m0, top, n) == Some(t);
        assert(pte_valid(entry(m0, top, n)));
        assert(own.contains_key(t));
        assert(al.allocated(t));
        assert(entry(m1, t, j) == if t == t1 && j == x {
            e
        } else {
            entry(m0, t, j)
        });
    }
    assert(entry(m1, t1, x) == e);
    assert(mid_tables(m1, top) =~= mid_tables(m0, top));
    assert forall|key: int|
        last_tables(m1, top).contains(key) == last_tables(m0, top).insert(512 * i + x).contains(
            key,
        ) by {
        let n = key / 512;
        if is_index(n) && next_level(m0, top, n) is Some {
            let t = next_level(m0, top, n).unwrap();
            assert(is_l1_table(m0, top, t));
            assert(pte_valid(entry(m0, top, n)));
            assert(own[t] == (1int, n, 0int));
            assert(next_level(m1, t, key % 512) == if t == t1 && key % 512 == x {
                Some(fresh)
            } else {
                next_level(m0, t, key % 512)
            });
        }
        assert((512 * i + x) / 512 == i && (512 * i + x) % 512 == x);
    }
    assert(last_tables(m1, top) =~= last_tables(m0, top).insert(512 * i + x));
    assert forall|v: u64| #[trigger] walk(m1, top, v) == walk(m0, top, v) by {
        lemma_vpn_indices(v, v);
        let i2 = vpn2(v) as int;
        let j = vpn1(v) as int;
        let k = vpn0(v) as int;
        assert(next_level(m1, top, i2) == next_level(m0, top, i2));
        if let Some(t) = next_level(m0, top, i2) {
            assert(is_l1_table(m0, top, t));
            assert(pte_valid(entry(m0, top, i2)));
            assert(own[t] == (1int, i2, 0int));
            if t == t1 && j == x {
                assert(next_level(m1, t, j) == Some(fresh));
                assert(entry(m1, fresh, k) == entry(m0, fresh, k));
            } else {
                assert(next_level(m1, t, j) == next_level(m0, t, j));
                if let Some(t0) = next_level(m0, t, j) {
                    assert(pte_valid(entry(m0, t, j)));
                    assert(own.contains_key(t0));
                    assert(al.allocated(t0));
                    assert(entry(m1, t0, k) == entry(m0, t0, k));
                }
            }
        }
    }
    assert forall|a: int| #[trigger] is_table(m1, top, a) implies is_table(m0, top, a) || a
        == fresh by {
        if a == top || a == fresh {
        } else if is_l1_table(m1, top, a) {
            let n = choose|n: int| is_index(n) && #[trigger] next_level(m1, top, n) == Some(a);
            assert(next_level(m0, top, n) == Some(a));
        } else {
            let (t, j) = choose|t: int, j: int|
                is_l1_table(m1, top, t) && is_index(j) && #[trigger] next_level(m1, t, j) == Some(
                    a,
                );
            let n = choose|n: int| is_index(n) && #[trigger] next_level(m1, top, n) == Some(t);
            assert(next_level(m0, top, n) == Some(t));
            assert(is_l1_table(m0, top, t));
            assert(next_level(m0, t, j) == Some(a));
        }
    }
    assert forall|n: int| is_index(n) && pte_valid(#[trigger] entry(m1, top, n)) implies own1.contains_key(
        pte_addr(entry(m1, top, n)),
    ) && own1[pte_addr(entry(m1, top, n))] == (1int, n, 0int) by {
        assert(entry(m1, top, n) == entry(m0, top, n));
    }
    assert forall|a: int, j: int|
        own1.contains_key(a) && own1[a].0 == 1 && is_index(j) && pte_valid(
            #[trigger] entry(m1, a, j),
        ) implies own1.contains_key(pte_addr(entry(m1, a, j))) && own1[pte_addr(entry(m1, a, j))]
        == (0int, own1[a].1, j) by {
        assert(al.allocated(a));
        assert(entry(m1, a, j) == if a == t1 && j == x {
            e
        } else {
            entry(m0, a, j)
        });
    }
}

/// Writing a valid entry into a last-level table changes the lookup of the
/// one page that the entry stands for, and nothing else.
proof fn lemma_write_leaf(
    m0: &PhysMemory,
    m1: &PhysMemory,
    al: &PageAllocator,
    top: int,
    own: Map<int, (int, int, int)>,
    i: int,
    j: int,
    k: int,
    t1: int,
    t0: int,
    leaf: u64,
)
    requires
        tree_ok(m0, al, top, own),
        is_index(i),
        is_index(j),
        is_index(k),
        next_level(m0, top, i) == Some(t1),
        next_level(m0, t1, j) == Some(t0),
        pte_valid(leaf),
        entries_updated(m0, m1, t0, k, leaf),
    ensures
        tree_ok(m1, al, top, own),
        forall|v: u64|
            #[trigger] walk(m1, top, v) == if vpn2(v) == i && vpn1(v) == j && vpn0(v) == k {
                Some(leaf)
            } else {
                walk(m0, top, v)
            },
        forall|a: int| #[trigger] is_table(m1, top, a) ==> is_table(m0, top, a),
        mid_tables(m1, top) == mid_tables(m0, top),
        last_tables(m1, top) == last_tables(m0, top),
{
    assert(al.allocated(top));
    assert(pte_valid(entry(m0, top, i)));
    assert(own.contains_key(t1) && own[t1] == (1int, i, 0int));
    assert(pte_valid(entry(m0, t1, j)));
    assert(own.contains_key(t0) && own[t0] == (0int, i, j));
    assert(al.allocated(t0));
    assert forall|n: int| is_index(n) implies #[trigger] next_level(m1, top, n) == next_level(
        m0,
        top,
        n,
    ) by {
        assert(entry(m1, top, n) == entry(m0, top, n));
    }
    assert forall|t: int, n: int|
        is_l1_table(m0, top, t) && is_index(n) implies #[trigger] next_level(m1, t, n)
        == next_level(m0, t, n) by {
        let c = choose|c: int| is_index(c) && #[trigger] next_level(m0, top, c) == Some(t);
        assert(pte_valid(entry(m0, top, c)));
        assert(own.contains_key(t));
        assert(al.allocated(t));
        assert(entry(m1, t, n) == entry(m0, t, n));
    }
    assert(mid_tables(m1, top) =~= mid_tables(m0, top));
    assert forall|key: int| last_tables(m1, top).contains(key) == last_tables(m0, top).contains(
        key,
    ) by {
        if is_index(key / 512) && next_level(m0, top, key / 512) is Some {
            let t = next_level(m0, top, key / 512).unwrap();
            assert(is_l1_table(m0, top, t));
            assert(next_level(m1, t, key % 512) == next_level(m0, t, key % 512));
        }
    }
    assert(last_tables(m1, top) =~= last_tables(m0, top));
    assert forall|v: u64|
        #[trigger] walk(m1, top, v) == if vpn2(v) == i && vpn1(v) == j && vpn0(v) == k {
            Some(leaf)
        } else {
            walk(m0, top, v)
        } by {
        lemma_vpn_indices(v, v);
        let i2 = vpn2(v) as int;
        let j2 = vpn1(v) as int;
        let k2 = vpn0(v) as int;
        assert(next_level(m1, top, i2) == next_level(m0, top, i2));
        if let Some(t) = next_level(m0, top, i2) {
            assert(is_l1_table(m0, top, t));
            assert(pte_valid(entry(m0, top, i2)));
            assert(own[t] == (1int, i2, 0int));
            assert(next_level(m1, t, j2) == next_level(m0, t, j2));
            if let Some(b) = next_level(m0, t, j2) {
                assert(pte_valid(entry(m0, t, j2)));
                assert(own.contains_key(b));
                assert(own[b] == (0int, i2, j2));
                assert(al.allocated(b));
                assert(entry(m1, b, k2) == if b == t0 && k2 == k {
                    leaf
                } else {
                    entry(m0, b, k2)
                });
            }
        }
    }
    assert forall|a: int| #[trigger] is_table(m1, top, a) implies is_table(m0, top, a) by {
        if a == top {
        } else if is_l1_table(m1, top, a) {
            let n = choose|n: int| is_index(n) && #[trigger] next_level(m1, top, n) == Some(a);
            assert(next_level(m0, top, n) == Some(a));
        } else {
            let (t, n) = choose|t: int, n: int|
                is_l1_table(m1, top, t) && is_index(n) && #[trigger] next_level(m1, t, n) == Some(
                    a,
                );
            let c = choose|c: int| is_index(c) && #[trigger] next_level(m1, top, c) == Some(t);
            assert(next_level(m0, top, c) == Some(t));
            assert(is_l1_table(m0, top, t));
            assert(next_level(m0, t, n) == Some(a));
        }
    }
    assert forall|n: int| is_index(n) && pte_valid(#[trigger] entry(m1, top, n)) implies own.contains_key(
        pte_addr(entry(m1, top, n)),
    ) && own[pte_addr(entry(m1, top, n))] == (1int, n, 0int) by {
        assert(entry(m1, top, n) == entry(m0, top, n));
    }
    assert forall|a: int, n: int|
        own.contains_key(a) && own[a].0 == 1 && is_index(n) && pte_valid(
            #[trigger] entry(m1, a, n),
        ) implies own.contains_key(pte_addr(entry(m1, a, n))) && own[pte_addr(entry(m1, a, n))] == (
        0int,
        own[a].1,
        n,
    ) by {
        assert(al.allocated(a));
        assert(entry(m1, a, n) == entry(m0, a, n));
    }
}

/// A frame that was just handed out and holds only zeros is the top table of
/// an address space that maps nothing.
pub proof fn lemma_empty_table_tree(mem: &PhysMemory, alloc: &PageAllocator, top: int)
    requires
        alloc.wf(),
        alloc.within(mem),
        alloc.allocated(top),
        forall|a: int| top <= a < top + PAGE_SIZE ==> #[trigger] mem.byte(a) == 0,
    ensures
        table_tree(mem, alloc, top),
        forall|v: u64| #[trigger] walk(mem, top, v) is None,
        forall|a: int| #[trigger] is_table(mem, top, a) ==> a == top,
        mid_tables(mem, top) == Set::<int>::empty(),
        last_tables(mem, top) == Set::<int>::empty(),
{
    lemma_zero_entry_invalid();
    let own = Map::<int, (int, int, int)>::empty().insert(top, (2int, 0int, 0int));
    assert forall|n: int| is_index(n) implies #[trigger] entry(mem, top, n) == 0 by {
        lemma_word_of_zeros(mem, top + 8 * n);
    }
    assert(tree_ok(mem, alloc, top, own));
    assert(mid_tables(mem, top) =~= Set::<int>::empty());
    assert(last_tables(mem, top) =~= Set::<int>::empty());
    assert forall|v: u64| #[trigger] walk(mem, top, v) is None by {
        lemma_vpn_indices(v, v);
        assert(entry(mem, top, vpn2(v) as int) == 0);
    }
    assert forall|a: int| #[trigger] is_table(mem, top, a) implies a == top by {
        if is_l1_table(mem, top, a) {
            let i = choose|i: int| is_index(i) && #[trigger] next_level(mem, top, i) == Some(a);
            assert(entry(mem, top, i) == 0);
        } else if is_l0_table(mem, top, a) {
            let (t, j) = choose|t: int, j: int|
                is_l1_table(mem, top, t) && is_index(j) && #[trigger] next_level(mem, t, j) == Some(
                    a,
                );
            let i = choose|i: int| is_index(i) && #[trigger] next_level(mem, top, i) == Some(t);
            assert(entry(mem, top, i) == 0);
        }
    }
}

/// `m1` answers every lookup under `top` as `m0` does, but for the page of
/// `vaddr`, which now leads to the leaf entry made of `paddr`, `flags` and V.
pub open spec fn page_mapped(
    m0: &PhysMemory,
    m1: &PhysMemory,
    top: int,
    vaddr: u64,
    paddr: u64,
    flags: PageFlags,
) -> bool {
    forall|v: u64|
        #[trigger] walk(m1, top, v) == if vpn(v) == vpn(vaddr) {
            Some(leaf_pte(paddr, flags.bits))
        } else {
            walk(m0, top, v)
        }
}

/// `m1` answers every lookup under `top` as `m0` does.
pub open spec fn same_mappings(m0: &PhysMemory, m1: &PhysMemory, top: int) -> bool {
    forall|v: u64| #[trigger] walk(m1, top, v) == walk(m0, top, v)
}

/// After a page was mapped, looking its address up finds a valid leaf entry
/// that holds the frame's page number and exactly the requested permissions.
pub proof fn lemma_mapped_page_walks_to_leaf(
    m0: &PhysMemory,
    m1: &PhysMemory,
    top: int,
    vaddr: u64,
    paddr: u64,
    flags: PageFlags,
)
    requires
        page_mapped(m0, m1, top, vaddr, paddr, flags),
        flags.wf(),
        paddr < 0x100_0000_0000_0000,
    ensures
        walk(m1, top, vaddr) is Some,
        pte_valid(walk(m1, top, vaddr).unwrap()),
        pte_ppn(walk(m1, top, vaddr).unwrap()) == paddr / PAGE_SIZE,
        pte_flags(walk(m1, top, vaddr).unwrap()) == flags.bits | PTE_V,
        paddr % PAGE_SIZE == 0 ==> translate(m1, top, vaddr) == Some(paddr + vaddr % PAGE_SIZE),
{
    assert(walk(m1, top, vaddr) == Some(leaf_pte(paddr, flags.bits)));
    lemma_leaf_pte(paddr, flags);
}

/// Mapping a page twice leaves the second mapping: the address space is the
/// one that the second call alone would have made.
pub proof fn lemma_remap_last_wins(
    m0: &PhysMemory,
    m1: &PhysMemory,
    m2: &PhysMemory,
    top: int,
    vaddr: u64,
    first_paddr: u64,
    first_flags: PageFlags,
    paddr: u64,
    flags: PageFlags,
)
    requires
        page_mapped(m0, m1, top, vaddr, first_paddr, first_flags),
        page_mapped(m1, m2, top, vaddr, paddr, flags),
    ensures
        walk(m2, top, vaddr) == Some(leaf_pte(paddr, flags.bits)),
        page_mapped(m0, m2, top, vaddr, paddr, flags),
{
    assert(walk(m2, top, vaddr) == Some(leaf_pte(paddr, flags.bits)));
    assert forall|v: u64|
        #[trigger] walk(m2, top, v) == if vpn(v) == vpn(vaddr) {
            Some(leaf_pte(paddr, flags.bits))
        } else {
            walk(m0, top, v)
        } by {
        assert(walk(m1, top, v) == if vpn(v) == vpn(vaddr) {
            Some(leaf_pte(first_paddr, first_flags.bits))
        } else {
            walk(m0, top, v)
        });
    }
}

/// Between `m0` and `m1` nothing changed in RAM but inside the tables under
/// `top` and inside the frames that were handed out meanwhile, and every
/// table that was added is one of those frames.
pub open spec fn only_tables_touched(
    m0: &PhysMemory,
    m1: &PhysMemory,
    al0: &PageAllocator,
    al1: &PageAllocator,
    top: int,
) -> bool {
    &&& m1.base == m0.base
    &&& m1.bytes@.len() == m0.bytes@.len()
    &&& al1.start == al0.start
    &&& al1.end == al0.end
    &&& al1.next >= al0.next
    &&& forall|a: int|
        #[trigger] is_table(m1, top, a) ==> is_table(m0, top, a) || al0.next <= a < al1.next
    &&& forall|a: int|
        m0.contains(a, 1) && !(al0.next <= a < al1.next) && !is_table(m0, top, frame_of(a))
            ==> #[trigger] m1.byte(a) == m0.byte(a)
}

/// A byte outside the frames `[lo, hi)` lies in a frame outside them.
pub proof fn lemma_frame_outside(lo: int, hi: int, a: int)
    requires
        lo % 4096 == 0,
        hi % 4096 == 0,
        0 <= lo,
        0 <= a,
        !(lo <= a < hi),
    ensures
        !(lo <= frame_of(a) < hi),
{
    vstd::arithmetic::div_mod::lemma_fundamental_div_mod(a, 4096);
    vstd::arithmetic::div_mod::lemma_fundamental_div_mod(lo, 4096);
    vstd::arithmetic::div_mod::lemma_fundamental_div_mod(hi, 4096);
    if lo <= frame_of(a) < hi {
        let fa = a / 4096;
        let fh = hi / 4096;
        assert(frame_of(a) == 4096 * fa);
        assert(a >= hi);
        assert(fa < fh);
        assert(4096 * fa + 4096 <= 4096 * fh);
    }
}

/// Two steps that each touch only tables and new frames make one such step.
pub proof fn lemma_only_tables_touched_twice(
    m0: &PhysMemory,
    m1: &PhysMemory,
    m2: &PhysMemory,
    al0: &PageAllocator,
    al1: &PageAllocator,
    al2: &PageAllocator,
    top: int,
)
    requires
        al0.wf(),
        al1.wf(),
        m0.wf(),
        only_tables_touched(m0, m1, al0, al1, top),
        only_tables_touched(m1, m2, al1, al2, top),
    ensures
        only_tables_touched(m0, m2, al0, al2, top),
{
    assert forall|a: int| #[trigger] is_table(m2, top, a) implies is_table(m0, top, a) || al0.next
        <= a < al2.next by {
        if is_table(m1, top, a) {
        }
    }
    assert forall|a: int|
        m0.contains(a, 1) && !(al0.next <= a < al2.next) && !is_table(
            m0,
            top,
            frame_of(a),
        ) implies #[trigger] m2.byte(a) == m0.byte(a) by {
        lemma_frame_outside(al0.next as int, al1.next as int, a);
        assert(!is_table(m1, top, frame_of(a)));
        assert(m1.byte(a) == m0.byte(a));
        assert(m1.contains(a, 1));
    }
}

/// Handing out frames, whatever is written into them, leaves an address
/// space as it was: its tables lie in frames that were handed out before.
pub proof fn lemma_new_frames_keep_space(
    m0: &PhysMemory,
    m1: &PhysMemory,
    al0: &PageAllocator,
    al1: &PageAllocator,
    top: int,
)
    requires
        table_tree(m0, al0, top),
        al1.wf(),
        al1.within(m1),
        al1.start == al0.start,
        al1.end == al0.end,
        al1.next >= al0.next,
        m1.same_outside(m0, al0.next as int, al1.next as int),
    ensures
        table_tree(m1, al1, top),
        same_mappings(m0, m1, top),
        only_tables_touched(m0, m1, al0, al1, top),
        forall|a: int| #[trigger] is_table(m1, top, a) ==> is_table(m0, top, a),
        mid_tables(m1, top) == mid_tables(m0, top),
        last_tables(m1, top) == last_tables(m0, top),
{
    let own = choose|own: Map<int, (int, int, int)>| tree_ok(m0, al0, top, own);
    lemma_fresh_frame_keeps_tree(m0, m1, al0, al1, top, own);
}

/// The places of the tables that can be reached from `top`, and of no other
/// frame.
proof fn lemma_reachable_tables(mem: &PhysMemory, alloc: &PageAllocator, top: int) -> (own: Map<
    int,
    (int, int, int),
>)
    requires
        table_tree(mem, alloc, top),
    ensures
        tree_ok(mem, alloc, top, own),
        forall|a: int| #[trigger] own.contains_key(a) ==> is_table(mem, top, a),
{
    let m0 = mem;
    let all = choose|own: Map<int, (int, int, int)>| tree_ok(m0, alloc, top, own);
    let own = all.restrict(Set::new(|a: int| is_table(m0, top, a)));
    assert(is_table(m0, top, top));
    assert forall|i: int| is_index(i) && pte_valid(#[trigger] entry(m0, top, i)) implies own.contains_key(
        pte_addr(entry(m0, top, i)),
    ) && own[pte_addr(entry(m0, top, i))] == (1int, i, 0int) by {
        assert(alloc.allocated(top));
        assert(next_level(m0, top, i) == Some(pte_addr(entry(m0, top, i))));
        assert(is_l1_table(m0, top, pte_addr(entry(m0, top, i))));
    }
    assert forall|a: int, j: int|
        own.contains_key(a) && own[a].0 == 1 && is_index(j) && pte_valid(
            #[trigger] entry(m0, a, j),
        ) implies own.contains_key(pte_addr(entry(m0, a, j))) && own[pte_addr(entry(m0, a, j))] == (
        0int,
        own[a].1,
        j,
    ) by {
        assert(all.contains_key(a) && all[a].0 == 1);
        assert(alloc.allocated(a));
        assert(next_level(m0, a, j) == Some(pte_addr(entry(m0, a, j))));
        assert(is_l1_table(m0, top, a)) by {
            if a == top {
            } else if is_l0_table(m0, top, a) {
                let (t, n) = choose|t: int, n: int|
                    is_l1_table(m0, top, t) && is_index(n) && #[trigger] next_level(m0, t, n)
                        == Some(a);
                let c = choose|c: int| is_index(c) && #[trigger] next_level(m0, top, c) == Some(t);
                assert(pte_valid(entry(m0, top, c)));
                assert(all[t].0 == 1);
                assert(pte_valid(entry(m0, t, n)));
            }
        }
        assert(is_l0_table(m0, top, pte_addr(entry(m0, a, j))));
    }
    assert(tree_ok(m0, alloc, top, own));
    own
}

/// Writing to RAM below every table of an address space leaves the address
/// space as it was.
pub proof fn lemma_changes_below_keep_space(
    m0: &PhysMemory,
    m1: &PhysMemory,
    alloc: &PageAllocator,
    top: int,
    hi: int,
)
    requires
        table_tree(m0, alloc, top),
        m1.base == m0.base,
        m1.bytes@.len() == m0.bytes@.len(),
        forall|a: int| m0.contains(a, 1) && hi <= a ==> #[trigger] m1.byte(a) == m0.byte(a),
        forall|a: int| #[trigger] is_table(m0, top, a) ==> hi <= a,
    ensures
        table_tree(m1, alloc, top),
        same_mappings(m0, m1, top),
        forall|a: int| #[trigger] is_table(m1, top, a) ==> is_table(m0, top, a),
        mid_tables(m1, top) == mid_tables(m0, top),
        last_tables(m1, top) == last_tables(m0, top),
{
    let own = lemma_reachable_tables(m0, alloc, top);
    assert forall|a: int, n: int| own.contains_key(a) && is_index(n) implies #[trigger] entry(
        m1,
        a,
        n,
    ) == entry(m0, a, n) by {
        assert(is_table(m0, top, a));
        assert(alloc.allocated(a));
        lemma_word_same(m1, m0, a + 8 * n);
    }
    lemma_same_entries_same_tree(m0, m1, alloc, alloc, top, own);
}

/// Writing to a frame that is no table of an address space leaves the address
/// space as it was.
pub proof fn lemma_changes_outside_tables_keep_space(
    m0: &PhysMemory,
    m1: &PhysMemory,
    alloc: &PageAllocator,
    top: int,
    frame: int,
)
    requires
        table_tree(m0, alloc, top),
        m1.base == m0.base,
        m1.bytes@.len() == m0.bytes@.len(),
        frame % (PAGE_SIZE as int) == 0,
        m1.same_outside(m0, frame, frame + PAGE_SIZE),
        !is_table(m0, top, frame),
    ensures
        table_tree(m1, alloc, top),
        same_mappings(m0, m1, top),
        forall|a: int| #[trigger] is_table(m1, top, a) ==> is_table(m0, top, a),
        mid_tables(m1, top) == mid_tables(m0, top),
        last_tables(m1, top) == last_tables(m0, top),
{
    let own = lemma_reachable_tables(m0, alloc, top);
    assert forall|a: int, n: int| own.contains_key(a) && is_index(n) implies #[trigger] entry(
        m1,
        a,
        n,
    ) == entry(m0, a, n) by {
        assert(is_table(m0, top, a));
        assert(alloc.allocated(a));
        lemma_entries_apart(a, n, frame, 0);
        lemma_entries_apart(a, n, frame, 511);
        lemma_word_same(m1, m0, a + 8 * n);
    }
    lemma_same_entries_same_tree(m0, m1, alloc, alloc, top, own);
}

/// Every entry of every table of a tree is zero or valid.
pub proof fn lemma_entries_zero_or_valid(
    mem: &PhysMemory,
    alloc: &PageAllocator,
    top: int,
    a: int,
    n: int,
)
    requires
        table_tree(mem, alloc, top),
        is_table(mem, top, a),
        is_index(n),
    ensures
        entry(mem, a, n) == 0 || pte_valid(entry(mem, a, n)),
{
    let own = choose|own: Map<int, (int, int, int)>| tree_ok(mem, alloc, top, own);
    if a == top {
    } else if is_l1_table(mem, top, a) {
        let i = choose|i: int| is_index(i) && #[trigger] next_level(mem, top, i) == Some(a);
        assert(pte_valid(entry(mem, top, i)));
    } else {
        let (t, j) = choose|t: int, j: int|
            is_l1_table(mem, top, t) && is_index(j) && #[trigger] next_level(mem, t, j) == Some(a);
        let i = choose|i: int| is_index(i) && #[trigger] next_level(mem, top, i) == Some(t);
        assert(pte_valid(entry(mem, top, i)));
        assert(own[t].0 == 1);
        assert(pte_valid(entry(mem, t, j)));
    }
}

/// Every table of a tree is a frame that was handed out.
pub proof fn lemma_tables_are_allocated(mem: &PhysMemory, alloc: &PageAllocator, top: int, a: int)
    requires
        table_tree(mem, alloc, top),
        is_table(mem, top, a),
    ensures
        alloc.allocated(a),
{
    let own = choose|own: Map<int, (int, int, int)>| tree_ok(mem, alloc, top, own);
    if a == top {
    } else if is_l1_table(mem, top, a) {
        let i = choose|i: int| is_index(i) && #[trigger] next_level(mem, top, i) == Some(a);
        assert(pte_valid(entry(mem, top, i)));
    } else {
        let (t, j) = choose|t: int, j: int|
            is_l1_table(mem, top, t) && is_index(j) && #[trigger] next_level(mem, t, j) == Some(a);
        let i = choose|i: int| is_index(i) && #[trigger] next_level(mem, top, i) == Some(t);
        assert(pte_valid(entry(mem, top, i)));
        assert(own[t].0 == 1);
        assert(pte_valid(entry(mem, t, j)));
    }
}

/// Whether the entries that lead to tables are in `m1` as they were in `m0`,
/// but for entry `x` of the table at `t`: the entries of the top table and
/// of every middle table.
pub open spec fn tables_kept(m0: &PhysMemory, m1: &PhysMemory, top: int, t: int, x: int) -> bool {
    forall|a: int, n: int|
        (a == top || is_l1_table(m0, top, a)) && is_index(n) && !(a == t && n == x)
            ==> #[trigger] entry(m1, a, n) == entry(m0, a, n)
}

/// Whether all entries of the table at `t` are zero, but for entry `x`.
pub open spec fn empty_but(mem: &PhysMemory, t: int, x: int) -> bool {
    forall|n: int| is_index(n) && n != x ==> #[trigger] entry(mem, t, n) == 0
}

/// What `map_page` has done to the tables on the way to `vaddr`, where `next`
/// is the frame that the allocator would hand out first.
///
/// The entries on the way are the table entries of the tables they lead to:
/// V is set and no other of the low ten bits, so R, W and X are clear. A
/// table that was missing lies in the first frame that was free, the middle
/// table before the last-level table, and all its entries are zero but for
/// the one on the way. An entry that led to a table before is as it was.
pub open spec fn way_built(m0: &PhysMemory, m1: &PhysMemory, next: int, top: int, vaddr: u64) -> bool {
    let i = vpn2(vaddr) as int;
    let j = vpn1(vaddr) as int;
    let k = vpn0(vaddr) as int;
    let t1 = pte_addr(entry(m1, top, i));
    let t0 = pte_addr(entry(m1, t1, j));
    let missing = tables_missing(m0, top, vaddr);
    &&& entry(m1, top, i) == table_pte(t1 as u64)
    &&& entry(m1, t1, j) == table_pte(t0 as u64)
    &&& forall|a: int, n: int|
        (a == top || is_l1_table(m0, top, a)) && is_index(n) && pte_valid(
            #[trigger] entry(m0, a, n),
        ) ==> entry(m1, a, n) == entry(m0, a, n)
    &&& missing == 2 ==> t1 == next && t0 == next + PAGE_SIZE && empty_but(m1, t1, j) && empty_but(
        m1,
        t0,
        k,
    )
    &&& missing == 1 ==> t0 == next && empty_but(m1, t0, k)
}

/// The three steps of `map_page`, taken one after the other, build the way.
proof fn lemma_way_built(
    m0: &PhysMemory,
    m1: &PhysMemory,
    m2: &PhysMemory,
    m3: &PhysMemory,
    next: int,
    top: int,
    vaddr: u64,
    t1: int,
    t0: int,
)
    requires
        m1.base == m0.base,
        m1.bytes@.len() == m0.bytes@.len(),
        m2.base == m0.base,
        m2.bytes@.len() == m0.bytes@.len(),
        m3.base == m0.base,
        m3.bytes@.len() == m0.bytes@.len(),
        m0.contains(top, PAGE_SIZE as int),
        next % (PAGE_SIZE as int) == 0,
        0 <= t1 <= u64::MAX,
        0 <= t0 <= u64::MAX,
        t1 % (PAGE_SIZE as int) == 0,
        t0 % (PAGE_SIZE as int) == 0,
        t1 != top,
        t0 != top,
        t0 != t1,
        next_level(m1, top, vpn2(vaddr) as int) == Some(t1),
        next_level(m2, t1, vpn1(vaddr) as int) == Some(t0),
        pte_low_bits(entry(m1, top, vpn2(vaddr) as int)) == PTE_V,
        pte_low_bits(entry(m2, t1, vpn1(vaddr) as int)) == PTE_V,
        tables_kept(m0, m1, top, top, vpn2(vaddr) as int),
        tables_kept(m1, m2, top, t1, vpn1(vaddr) as int),
        tables_kept(m2, m3, top, top, -1),
        next_level(m0, top, vpn2(vaddr) as int) is Some ==> m1.base == m0.base && m1.bytes@
            == m0.bytes@,
        next_level(m0, top, vpn2(vaddr) as int) is None ==> t1 == next && empty_but(m1, t1, -1),
        next_level(m1, t1, vpn1(vaddr) as int) is Some ==> m2.base == m1.base && m2.bytes@
            == m1.bytes@,
        next_level(m1, t1, vpn1(vaddr) as int) is None ==> empty_but(m2, t0, -1) && t0 == (
        if next_level(m0, top, vpn2(vaddr) as int) is None {
            next + PAGE_SIZE
        } else {
            next
        }),
        forall|n: int|
            is_index(n) && n != vpn0(vaddr) ==> #[trigger] entry(m3, t0, n) == entry(m2, t0, n),
    ensures
        way_built(m0, m3, next, top, vaddr),
{
    lemma_vpn_indices(vaddr, vaddr);
    let i = vpn2(vaddr) as int;
    let j = vpn1(vaddr) as int;
    let k = vpn0(vaddr) as int;
    assert(is_l1_table(m1, top, t1));
    assert forall|a: int| is_l1_table(m0, top, a) implies is_l1_table(m1, top, a) by {
        let c = choose|c: int| is_index(c) && #[trigger] next_level(m0, top, c) == Some(a);
        if c != i {
            assert(entry(m1, top, c) == entry(m0, top, c));
        }
        assert(next_level(m1, top, c) == Some(a));
    }
    assert forall|a: int| is_l1_table(m1, top, a) implies is_l1_table(m2, top, a) by {
        let c = choose|c: int| is_index(c) && #[trigger] next_level(m1, top, c) == Some(a);
        assert(entry(m2, top, c) == entry(m1, top, c));
        assert(next_level(m2, top, c) == Some(a));
    }
    assert(entry(m3, top, i) == entry(m2, top, i));
    assert(entry(m2, top, i) == entry(m1, top, i));
    assert(entry(m3, t1, j) == entry(m2, t1, j)) by {
        assert(is_l1_table(m2, top, t1));
    }
    lemma_table_pte(t1 as u64);
    lemma_table_pte(t0 as u64);
    assert forall|a: int, n: int|
        (a == top || is_l1_table(m0, top, a)) && is_index(n) && pte_valid(
            #[trigger] entry(m0, a, n),
        ) implies entry(m3, a, n) == entry(m0, a, n) by {
        assert(a == top || is_l1_table(m1, top, a));
        assert(a == top || is_l1_table(m2, top, a));
        if a == top && n == i {
            assert(m1.bytes@ == m0.bytes@);
        }
        assert(entry(m1, a, n) == entry(m0, a, n));
        if a == t1 && n == j {
            if next_level(m0, top, i) is None {
                assert(entry(m1, t1, j) == 0);
                lemma_zero_entry_invalid();
            }
            assert(pte_valid(entry(m1, t1, j)));
            assert(m1.contains(t1 + 8 * j, 8)) by {
                assert(next_level(m2, t1, j) is Some);
            }
            assert(m2.bytes@ == m1.bytes@);
        }
        assert(entry(m2, a, n) == entry(m1, a, n));
        assert(entry(m3, a, n) == entry(m2, a, n));
    }
    if next_level(m0, top, i) is None {
        assert(next_level(m1, t1, j) is None) by {
            assert(entry(m1, t1, j) == 0);
            lemma_zero_entry_invalid();
        }
        assert forall|n: int| is_index(n) && n != j implies #[trigger] entry(m3, t1, n) == 0 by {
            assert(entry(m1, t1, n) == 0);
            assert(is_l1_table(m2, top, t1));
            assert(entry(m2, t1, n) == entry(m1, t1, n));
            assert(entry(m3, t1, n) == entry(m2, t1, n));
        }
    }
    if next_level(m1, t1, j) is None {
        assert forall|n: int| is_index(n) && n != k implies #[trigger] entry(m3, t0, n) == 0 by {
            assert(entry(m2, t0, n) == 0);
        }
    }
    assert(tables_missing(m0, top, vaddr) == if next_level(m0, top, i) is None {
        2int
    } else if next_level(m1, t1, j) is None {
        1int
    } else {
        0int
    }) by {
        if next_level(m0, top, i) is Some {
            assert(m1.bytes@ == m0.bytes@);
            assert(entry(m1, top, i) == entry(m0, top, i));
            assert(entry(m1, t1, j) == entry(m0, t1, j));
        }
    }
}

/// Finds the middle table under entry `i` of the top table, and makes an
/// empty one from a fresh frame if there is none.
fn descend_top(mem: &mut PhysMemory, alloc: &mut PageAllocator, top: u64, i: u64) -> (r: Result<
    u64,
    AllocError,
>)
    requires
        table_tree(old(mem), old(alloc), top as int),
        i < 512,
    ensures
        table_tree(final(mem), final(alloc), top as int),
        only_tables_touched(old(mem), final(mem), old(alloc), final(alloc), top as int),
        same_mappings(old(mem), final(mem), top as int),
        match r {
            Ok(t1) => {
                &&& next_level(final(mem), top as int, i as int) == Some(t1 as int)
                &&& pte_low_bits(entry(final(mem), top as int, i as int)) == PTE_V
                &&& tables_kept(old(mem), final(mem), top as int, top as int, i as int)
                &&& t1 % PAGE_SIZE == 0
                &&& t1 != top
                &&& mid_tables(final(mem), top as int) == mid_tables(old(mem), top as int).insert(
                    i as int,
                )
                &&& last_tables(final(mem), top as int) == last_tables(old(mem), top as int)
                &&& if next_level(old(mem), top as int, i as int) is Some {
                    *final(mem) == *old(mem) && *final(alloc) == *old(alloc)
                } else {
                    &&& final(alloc).next == old(alloc).next + PAGE_SIZE
                    &&& t1 == old(alloc).next
                    &&& empty_but(final(mem), t1 as int, -1)
                    &&& forall|j: int|
                        is_index(j) ==> (#[trigger] next_level(final(mem), t1 as int, j)) is None
                }
            },
            Err(e) => {
                &&& e == AllocError::OutOfMemory
                &&& next_level(old(mem), top as int, i as int) is None
                &&& old(alloc).next + PAGE_SIZE > old(alloc).end
                &&& *final(mem) == *old(mem)
                &&& *final(alloc) == *old(alloc)
            },
        },
{
    let ghost m0 = *mem;
    let ghost al0 = *alloc;
    let ghost own0 = choose|own: Map<int, (int, int, int)>| tree_ok(&m0, &al0, top as int, own);
    proof {
        assert(al0.allocated(top as int));
    }
    let e2 = mem.read_u64(top + 8 * i);
    if e2 & PTE_V != 0 {
        proof {
            assert(pte_valid(entry(&m0, top as int, i as int)));
            assert(al0.allocated(pte_addr(e2)));
            assert(own0[pte_addr(e2)].0 == 1);
            assert(mid_tables(mem, top as int) =~= mid_tables(mem, top as int).insert(i as int));
        }
        return Ok((e2 >> 10) * PAGE_SIZE);
    }
    match alloc.alloc_pages(mem, 1) {
        Err(_) => Err(AllocError::OutOfMemory),
        Ok(fresh) => {
            let ghost m1 = *mem;
            let pte = ((fresh / PAGE_SIZE) << 10) | PTE_V;
            set_entry(mem, top, i, pte);
            proof {
                lemma_zero_entry_invalid();
                lemma_frame_zeroed(&m0, &m1, fresh as int);
                lemma_fresh_frame_keeps_tree(&m0, &m1, &al0, alloc, top as int, own0);
                lemma_table_pte(fresh);
                assert(entry(&m1, top as int, i as int) == entry(&m0, top as int, i as int));
                lemma_install_l1(&m1, mem, alloc, top as int, own0, i as int, fresh as int, pte);
                assert forall|j: int| is_index(j) implies (#[trigger] next_level(
                    mem,
                    fresh as int,
                    j,
                )) is None && #[trigger] entry(mem, fresh as int, j) == 0 by {
                    assert(entry(&m1, fresh as int, j) == 0);
                    assert(entry(mem, fresh as int, j) == entry(&m1, fresh as int, j));
                }
                assert(entry(mem, top as int, i as int) == pte);
                assert forall|a: int, n: int|
                    (a == top || is_l1_table(&m0, top as int, a)) && is_index(n) && !(a == top
                        && n == i) implies #[trigger] entry(mem, a, n) == entry(&m0, a, n) by {
                    if a != top {
                        lemma_tables_are_allocated(&m0, &al0, top as int, a);
                    }
                    assert(entry(&m1, a, n) == entry(&m0, a, n));
                    assert(entry(mem, a, n) == entry(&m1, a, n));
                }
                assert forall|a: int|
                    m0.contains(a, 1) && !(al0.next <= a < alloc.next) && !is_table(
                        &m0,
                        top as int,
                        frame_of(a),
                    ) implies #[trigger] mem.byte(a) == m0.byte(a) by {
                    if top + 8 * i <= a < top + 8 * i + 8 {
                        lemma_frame_of(top as int, a);
                    }
                    assert(m1.byte(a) == m0.byte(a));
                }
                assert forall|a: int| #[trigger] is_table(mem, top as int, a) implies is_table(
                    &m0,
                    top as int,
                    a,
                ) || al0.next <= a < alloc.next by {
                    if is_table(&m1, top as int, a) {
                    }
                }
            }
            Ok(fresh)
        },
    }
}

/// Finds the last-level table under entry `j` of the middle table `t1`, which
/// hangs under entry `i` of the top table, and makes an empty one from a fresh
/// frame if there is none.
fn descend_mid(
    mem: &mut PhysMemory,
    alloc: &mut PageAllocator,
    top: u64,
    i: u64,
    t1: u64,
    j: u64,
) -> (r: Result<u64, AllocError>)
    requires
        table_tree(old(mem), old(alloc), top as int),
        i < 512,
        j < 512,
        next_level(old(mem), top as int, i as int) == Some(t1 as int),
    ensures
        table_tree(final(mem), final(alloc), top as int),
        only_tables_touched(old(mem), final(mem), old(alloc), final(alloc), top as int),
        same_mappings(old(mem), final(mem), top as int),
        match r {
            Ok(t0) => {
                &&& next_level(final(mem), top as int, i as int) == Some(t1 as int)
                &&& next_level(final(mem), t1 as int, j as int) == Some(t0 as int)
                &&& pte_low_bits(entry(final(mem), t1 as int, j as int)) == PTE_V
                &&& tables_kept(old(mem), final(mem), top as int, t1 as int, j as int)
                &&& t0 % PAGE_SIZE == 0
                &&& t0 != top
                &&& t0 != t1
                &&& next_level(old(mem), t1 as int, j as int) is None ==> t0 == old(alloc).next
                    && empty_but(final(mem), t0 as int, -1)
                &&& mid_tables(final(mem), top as int) == mid_tables(old(mem), top as int)
                &&& last_tables(final(mem), top as int) == last_tables(old(mem), top as int).insert(
                    512 * i + j,
                )
                &&& if next_level(old(mem), t1 as int, j as int) is Some {
                    *final(mem) == *old(mem) && *final(alloc) == *old(alloc)
                } else {
                    final(alloc).next == old(alloc).next + PAGE_SIZE
                }
            },
            Err(e) => {
                &&& e == AllocError::OutOfMemory
                &&& next_level(old(mem), t1 as int, j as int) is None
                &&& old(alloc).next + PAGE_SIZE > old(alloc).end
                &&& *final(mem) == *old(mem)
                &&& *final(alloc) == *old(alloc)
            },
        },
{
    let ghost m0 = *mem;
    let ghost al0 = *alloc;
    let ghost own0 = choose|own: Map<int, (int, int, int)>| tree_ok(&m0, &al0, top as int, own);
    proof {
        assert(al0.allocated(top as int));
        assert(pte_valid(entry(&m0, top as int, i as int)));
        assert(own0.contains_key(t1 as int) && own0[t1 as int] == (1int, i as int, 0int));
        assert(al0.allocated(t1 as int));
    }
    let e1 = mem.read_u64(t1 + 8 * j);
    if e1 & PTE_V != 0 {
        proof {
            assert(pte_valid(entry(&m0, t1 as int, j as int)));
            assert(al0.allocated(pte_addr(e1)));
            assert(own0[pte_addr(e1)].0 == 0);
            assert((512 * i + j) / 512 == i && (512 * i + j) % 512 == j);
            assert(last_tables(mem, top as int) =~= last_tables(mem, top as int).insert(
                512 * i + j,
            ));
        }
        return Ok((e1 >> 10) * PAGE_SIZE);
    }
    match alloc.alloc_pages(mem, 1) {
        Err(_) => Err(AllocError::OutOfMemory),
        Ok(fresh) => {
            let ghost m1 = *mem;
            let pte = ((fresh / PAGE_SIZE) << 10) | PTE_V;
            set_entry(mem, t1, j, pte);
            proof {
                lemma_frame_zeroed(&m0, &m1, fresh as int);
                lemma_fresh_frame_keeps_tree(&m0, &m1, &al0, alloc, top as int, own0);
                lemma_table_pte(fresh);
                assert(entry(&m1, top as int, i as int) == entry(&m0, top as int, i as int));
                assert(entry(&m1, t1 as int, j as int) == entry(&m0, t1 as int, j as int));
                lemma_install_l0(
                    &m1,
                    mem,
                    alloc,
                    top as int,
                    own0,
                    i as int,
                    t1 as int,
                    j as int,
                    fresh as int,
                    pte,
                );
                assert(is_l1_table(&m0, top as int, t1 as int));
                assert(entry(mem, t1 as int, j as int) == pte);
                assert forall|n: int| is_index(n) implies #[trigger] entry(mem, fresh as int, n)
                    == 0 by {
                    assert(entry(&m1, fresh as int, n) == 0);
                    assert(entry(mem, fresh as int, n) == entry(&m1, fresh as int, n));
                }
                assert forall|a: int, n: int|
                    (a == top || is_l1_table(&m0, top as int, a)) && is_index(n) && !(a == t1
                        && n == j) implies #[trigger] entry(mem, a, n) == entry(&m0, a, n) by {
                    if a != top {
                        lemma_tables_are_allocated(&m0, &al0, top as int, a);
                    }
                    assert(entry(&m1, a, n) == entry(&m0, a, n));
                    assert(entry(mem, a, n) == entry(&m1, a, n));
                }
                assert forall|a: int|
                    m0.contains(a, 1) && !(al0.next <= a < alloc.next) && !is_table(
                        &m0,
                        top as int,
                        frame_of(a),
                    ) implies #[trigger] mem.byte(a) == m0.byte(a) by {
                    if t1 + 8 * j <= a < t1 + 8 * j + 8 {
                        lemma_frame_of(t1 as int, a);
                    }
                    assert(m1.byte(a) == m0.byte(a));
                }
                assert forall|a: int| #[trigger] is_table(mem, top as int, a) implies is_table(
                    &m0,
                    top as int,
                    a,
                ) || al0.next <= a < alloc.next by {
                    if is_table(&m1, top as int, a) {
                    }
                }
            }
            Ok(fresh)
        },
    }
}

/// Writes the entry `leaf` at index `k` of the last-level table `t0`, which
/// is reached from the top table by the indices `i` and `j`.
fn put_leaf(
    mem: &mut PhysMemory,
    alloc: &PageAllocator,
    top: u64,
    i: u64,
    j: u64,
    k: u64,
    t1: u64,
    t0: u64,
    leaf: u64,
)
    requires
        table_tree(old(mem), alloc, top as int),
        i < 512,
        j < 512,
        k < 512,
        next_level(old(mem), top as int, i as int) == Some(t1 as int),
        next_level(old(mem), t1 as int, j as int) == Some(t0 as int),
        pte_valid(leaf),
    ensures
        table_tree(final(mem), alloc, top as int),
        only_tables_touched(old(mem), final(mem), alloc, alloc, top as int),
        mid_tables(final(mem), top as int) == mid_tables(old(mem), top as int),
        last_tables(final(mem), top as int) == last_tables(old(mem), top as int),
        tables_kept(old(mem), final(mem), top as int, top as int, -1),
        forall|n: int|
            is_index(n) && n != k ==> #[trigger] entry(final(mem), t0 as int, n) == entry(
                old(mem),
                t0 as int,
                n,
            ),
        forall|v: u64|
            #[trigger] walk(final(mem), top as int, v) == if vpn2(v) == i && vpn1(v) == j && vpn0(v)
                == k {
                Some(leaf)
            } else {
                walk(old(mem), top as int, v)
            },
{
    let ghost m0 = *mem;
    let ghost own0 = choose|own: Map<int, (int, int, int)>| tree_ok(&m0, alloc, top as int, own);
    proof {
        assert(alloc.allocated(top as int));
        assert(pte_valid(entry(&m0, top as int, i as int)));
        assert(own0.contains_key(t1 as int) && own0[t1 as int] == (1int, i as int, 0int));
        assert(pte_valid(entry(&m0, t1 as int, j as int)));
        assert(own0.contains_key(t0 as int));
        assert(alloc.allocated(t0 as int));
    }
    set_entry(mem, t0, k, leaf);
    proof {
        lemma_write_leaf(
            &m0,
            mem,
            alloc,
            top as int,
            own0,
            i as int,
            j as int,
            k as int,
            t1 as int,
            t0 as int,
            leaf,
        );
        assert(is_l1_table(&m0, top as int, t1 as int));
        assert(is_l0_table(&m0, top as int, t0 as int));
        assert forall|a: int, n: int|
            (a == top || is_l1_table(&m0, top as int, a)) && is_index(
                n,
            ) implies #[trigger] entry(mem, a, n) == entry(&m0, a, n) by {
            if a != top {
                let c = choose|c: int|
                    is_index(c) && #[trigger] next_level(&m0, top as int, c) == Some(a);
                assert(pte_valid(entry(&m0, top as int, c)));
                assert(own0[a].0 == 1);
                lemma_tables_are_allocated(&m0, alloc, top as int, a);
            }
            assert(own0[t0 as int].0 == 0);
        }
        assert forall|a: int|
            m0.contains(a, 1) && !is_table(&m0, top as int, frame_of(a)) implies #[trigger] mem.byte(
            a,
        ) == m0.byte(a) by {
            if t0 + 8 * k <= a < t0 + 8 * k + 8 {
                lemma_frame_of(t0 as int, a);
            }
        }
    }
}

/// Maps the page at `vaddr` to the frame at `paddr` with `flags` in the
/// address space under `top`.
///
/// `paddr` lies below 2^56, so that its frame number fits the entry.
///
/// Tables that are missing on the way are taken from `alloc`, the middle one
/// first. The call succeeds exactly when `alloc` can supply them. Then
/// `vaddr`, and every address of the same page number, looks up to the leaf
/// entry made of `paddr`, `flags` and V, whatever was mapped there before;
/// every other lookup is as it was. The entries on the way hold the frame of
/// the table they lead to and V alone; a table made by the call is zero but
/// for the entry on the way, and an entry that led to a table before is
/// untouched. If a table cannot be had, no lookup changes. RAM changes only
/// inside the tables of this address space and inside frames handed out by
/// this call.
pub fn map_page(
    mem: &mut PhysMemory,
    alloc: &mut PageAllocator,
    top: u64,
    vaddr: u64,
    paddr: u64,
    flags: PageFlags,
) -> (r: Result<(), AllocError>)
    requires
        table_tree(old(mem), old(alloc), top as int),
        vaddr % PAGE_SIZE == 0,
        paddr % PAGE_SIZE == 0,
        paddr < 0x100_0000_0000_0000,
        flags.wf(),
    ensures
        table_tree(final(mem), final(alloc), top as int),
        only_tables_touched(old(mem), final(mem), old(alloc), final(alloc), top as int),
        r is Ok <==> tables_missing(old(mem), top as int, vaddr) <= old(alloc).free_pages(),
        r is Err ==> r == Err::<(), AllocError>(AllocError::OutOfMemory),
        final(alloc).next == old(alloc).next + PAGE_SIZE * (if r is Ok {
            tables_missing(old(mem), top as int, vaddr)
        } else {
            old(alloc).free_pages()
        }),
        match r {
            Ok(_) => {
                &&& page_mapped(old(mem), final(mem), top as int, vaddr, paddr, flags)
                &&& way_built(old(mem), final(mem), old(alloc).next as int, top as int, vaddr)
                &&& mid_tables(final(mem), top as int) == mid_tables(old(mem), top as int).insert(
                    mid_key(vaddr),
                )
                &&& last_tables(final(mem), top as int) == last_tables(old(mem), top as int).insert(
                    last_key(vaddr),
                )
            },
            Err(_) => same_mappings(old(mem), final(mem), top as int),
        },
{
    let ghost m0 = *mem;
    let ghost al0 = *alloc;
    proof {
        lemma_vpn_indices(vaddr, vaddr);
        let own = choose|own: Map<int, (int, int, int)>| tree_ok(&m0, &al0, top as int, own);
        assert(tree_ok(&m0, &al0, top as int, own));
    }
    let i = (vaddr >> 30) & 0x1ff;
    let j = (vaddr >> 21) & 0x1ff;
    let k = (vaddr >> 12) & 0x1ff;

    let t1 = match descend_top(mem, alloc, top, i) {
        Ok(t) => t,
        Err(e) => {
            return Err(e);
        },
    };
    let ghost m1 = *mem;
    let ghost al1 = *alloc;
    proof {
        let own = choose|own: Map<int, (int, int, int)>| tree_ok(&m1, &al1, top as int, own);
        assert(tree_ok(&m1, &al1, top as int, own));
    }
    let t0 = match descend_mid(mem, alloc, top, i, t1, j) {
        Ok(t) => t,
        Err(e) => {
            proof {
                lemma_only_tables_touched_twice(&m0, &m1, mem, &al0, &al1, alloc, top as int);
            }
            return Err(e);
        },
    };
    let ghost m2 = *mem;
    let ghost al2 = *alloc;
    proof {
        let own = choose|own: Map<int, (int, int, int)>| tree_ok(&m2, &al2, top as int, own);
        assert(tree_ok(&m2, &al2, top as int, own));
        lemma_only_tables_touched_twice(&m0, &m1, &m2, &al0, &al1, &al2, top as int);
        lemma_leaf_pte(paddr, flags);
    }
    let leaf = ((paddr / PAGE_SIZE) << 10) | flags.bits | PTE_V;
    put_leaf(mem, alloc, top, i, j, k, t1, t0, leaf);
    proof {
        lemma_only_tables_touched_twice(&m0, &m2, mem, &al0, &al2, alloc, top as int);
        assert forall|v: u64|
            #[trigger] walk(mem, top as int, v) == if vpn(v) == vpn(vaddr) {
                Some(leaf_pte(paddr, flags.bits))
            } else {
                walk(&m0, top as int, v)
            } by {
            lemma_vpn_indices(v, vaddr);
            assert(walk(&m2, top as int, v) == walk(&m1, top as int, v));
            assert(walk(&m1, top as int, v) == walk(&m0, top as int, v));
        }
        assert(page_mapped(&m0, mem, top as int, vaddr, paddr, flags));
        assert(al0.allocated(top as int));
        lemma_way_built(
            &m0,
            &m1,
            &m2,
            mem,
            al0.next as int,
            top as int,
            vaddr,
            t1 as int,
            t0 as int,
        );
    }
    Ok(())
}

} // verus!
