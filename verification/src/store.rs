//! Operations over the in-memory image of the work store: the selections
//! each pipeline phase runs, the per-item updates, and the laws that make
//! re-running the pipeline harmless.

use vstd::prelude::*;
use crate::bytes::bytes_eq;
use crate::bytes::bytes_clone;
use crate::item::{WorkItem, ItemView, YearState, pending, movable, materializable, marked_moved,
    with_year};

verus! {

/// Whether this item is awaiting year resolution in this collection.
pub fn is_pending(it: &WorkItem, root: &Vec<u8>) -> (r: bool)
    ensures
        r == pending(it@, root@),
{
    bytes_eq(&it.root, root) && matches!(it.year, YearState::Pending)
}

/// Whether the Move Executor must still relocate this item.
pub fn is_movable(it: &WorkItem, root: &Vec<u8>) -> (r: bool)
    ensures
        r == movable(it@, root@),
{
    if !bytes_eq(&it.root, root) || it.moved {
        return false;
    }
    match it.year {
        YearState::Resolved(y) => 1 <= y && y <= 3000 && y != it.source_year,
        _ => false,
    }
}

/// Whether this item demands a `<genre>-<year>` destination folder.
pub fn is_materializable(it: &WorkItem, root: &Vec<u8>) -> (r: bool)
    ensures
        r == materializable(it@, root@),
{
    if !bytes_eq(&it.root, root) || it.moved {
        return false;
    }
    match it.year {
        YearState::Resolved(y) => 1800 <= y && y <= 2500 && y != it.source_year,
        _ => false,
    }
}

proof fn lemma_push_contains(s: Seq<usize>, v: usize)
    ensures
        forall|x: usize| #[trigger] s.push(v).contains(x) <==> s.contains(x) || x == v,
{
    assert forall|x: usize| #[trigger] s.push(v).contains(x) implies s.contains(x) || x == v by {
        let w = choose|w: int| 0 <= w < s.push(v).len() && s.push(v)[w] == x;
        if w < s.len() {
            assert(s[w] == x);
        }
    }
    assert forall|x: usize| s.contains(x) || x == v implies #[trigger] s.push(v).contains(x) by {
        if s.contains(x) {
            let w = choose|w: int| 0 <= w < s.len() && s[w] == x;
            assert(s.push(v)[w] == x);
        } else {
            assert(s.push(v)[s.len() as int] == v);
        }
    }
}

proof fn lemma_insert_contains(s: Seq<usize>, p: int, v: usize)
    requires
        0 <= p <= s.len(),
    ensures
        forall|x: usize| #[trigger] s.insert(p, v).contains(x) <==> s.contains(x) || x == v,
{
    assert forall|x: usize| #[trigger] s.insert(p, v).contains(x) implies s.contains(x) || x == v by {
        let w = choose|w: int| 0 <= w < s.insert(p, v).len() && s.insert(p, v)[w] == x;
        if w < p {
            assert(s[w] == x);
        } else if w > p {
            assert(s[w - 1] == x);
        }
    }
    assert forall|x: usize| s.contains(x) || x == v implies #[trigger] s.insert(p, v).contains(x) by {
        if s.contains(x) {
            let w = choose|w: int| 0 <= w < s.len() && s[w] == x;
            if w < p {
                assert(s.insert(p, v)[w] == x);
            } else {
                assert(s.insert(p, v)[w + 1] == x);
            }
        } else {
            assert(s.insert(p, v)[p] == v);
        }
    }
}

/// Indices of all items awaiting year resolution, in store order.
pub fn select_pending(store: &Vec<WorkItem>, root: &Vec<u8>) -> (r: Vec<usize>)
    ensures
        forall|k: int| 0 <= k < r@.len() ==> (#[trigger] r@[k]) < store@.len()
            && pending(store@[r@[k] as int]@, root@),
        forall|i: int| 0 <= i < store@.len() && pending(store@[i]@, root@)
            ==> r@.contains(i as usize),
        forall|k1: int, k2: int| 0 <= k1 < k2 < r@.len() ==> r@[k1] < r@[k2],
{
    let mut r: Vec<usize> = Vec::new();
    let mut i: usize = 0;
    while i < store.len()
        invariant
            i <= store@.len(),
            forall|k: int| 0 <= k < r@.len() ==> (#[trigger] r@[k]) < i
                && pending(store@[r@[k] as int]@, root@),
            forall|j: int| 0 <= j < i && pending(store@[j]@, root@) ==> r@.contains(j as usize),
            forall|k1: int, k2: int| 0 <= k1 < k2 < r@.len() ==> r@[k1] < r@[k2],
        decreases store@.len() - i,
    {
        if is_pending(&store[i], root) {
            proof {
                lemma_push_contains(r@, i);
            }
            r.push(i);
        }
        i += 1;
    }
    r
}

/// Indices of all items the Move Executor must attempt, deepest first: a
/// parent directory comes after everything recorded inside it.
pub fn select_movable(store: &Vec<WorkItem>, root: &Vec<u8>) -> (r: Vec<usize>)
    ensures
        forall|k: int| 0 <= k < r@.len() ==> (#[trigger] r@[k]) < store@.len()
            && movable(store@[r@[k] as int]@, root@),
        forall|i: int| 0 <= i < store@.len() && movable(store@[i]@, root@)
            ==> r@.contains(i as usize),
        forall|k1: int, k2: int| 0 <= k1 < k2 < r@.len() ==> r@[k1] != r@[k2],
        forall|k1: int, k2: int| 0 <= k1 < k2 < r@.len()
            ==> store@[r@[k1] as int]@.depth >= store@[r@[k2] as int]@.depth,
{
    let mut r: Vec<usize> = Vec::new();
    let mut i: usize = 0;
    while i < store.len()
        invariant
            i <= store@.len(),
            forall|k: int| 0 <= k < r@.len() ==> (#[trigger] r@[k]) < i
                && movable(store@[r@[k] as int]@, root@),
            forall|j: int| 0 <= j < i && movable(store@[j]@, root@) ==> r@.contains(j as usize),
            forall|k1: int, k2: int| 0 <= k1 < k2 < r@.len() ==> r@[k1] != r@[k2],
            forall|k1: int, k2: int| 0 <= k1 < k2 < r@.len()
                ==> store@[r@[k1] as int]@.depth >= store@[r@[k2] as int]@.depth,
        decreases store@.len() - i,
    {
        if is_movable(&store[i], root) {
            let d = store[i].depth;
            let mut p: usize = r.len();
            let mut at_ge: bool = false;
            while p > 0 && !at_ge
                invariant
                    p <= r@.len(),
                    i < store@.len(),
                    d == store@[i as int]@.depth,
                    forall|k: int| 0 <= k < r@.len() ==> (#[trigger] r@[k]) < i
                        && movable(store@[r@[k] as int]@, root@),
                    forall|k1: int, k2: int| 0 <= k1 < k2 < r@.len()
                        ==> store@[r@[k1] as int]@.depth >= store@[r@[k2] as int]@.depth,
                    forall|k: int| p <= k < r@.len()
                        ==> store@[(#[trigger] r@[k]) as int]@.depth < d,
                    at_ge ==> p > 0 && store@[r@[p - 1] as int]@.depth >= d,
                decreases p, (if at_ge { 0int } else { 1int }),
            {
                let prev = r[p - 1];
                if store[prev].depth < d {
                    p -= 1;
                } else {
                    at_ge = true;
                }
            }
            proof {
                lemma_insert_contains(r@, p as int, i);
                let ins = r@.insert(p as int, i);
                assert forall|k1: int, k2: int| 0 <= k1 < k2 < ins.len()
                    implies store@[ins[k1] as int]@.depth >= store@[ins[k2] as int]@.depth by {
                    if k1 < p && k2 == p {
                        assert(store@[r@[p - 1] as int]@.depth >= d);
                        assert(store@[r@[k1] as int]@.depth >= store@[r@[p - 1] as int]@.depth);
                    } else if k1 == p && k2 > p {
                        assert(store@[r@[k2 - 1] as int]@.depth < d);
                    } else if k1 < p && k2 > p {
                        assert(ins[k1] == r@[k1]);
                        assert(ins[k2] == r@[k2 - 1]);
                    }
                }
                assert forall|k1: int, k2: int| 0 <= k1 < k2 < ins.len()
                    implies ins[k1] != ins[k2] by {
                    if k1 == p {
                        assert(ins[k2] == r@[k2 - 1] && r@[k2 - 1] < i);
                    } else if k2 == p {
                        assert(ins[k1] == r@[k1] && r@[k1] < i);
                    }
                }
            }
            r.insert(p, i);
        }
        i += 1;
    }
    r
}

/// Records the outcome of resolving one item's year. A year only ever moves
/// out of `Pending`, never back.
pub fn set_year(store: &mut Vec<WorkItem>, i: usize, y: YearState)
    requires
        i < old(store)@.len(),
        old(store)@[i as int]@.year is Pending,
        !(y is Pending),
    ensures
        final(store)@.len() == old(store)@.len(),
        final(store)@[i as int]@ == with_year(old(store)@[i as int]@, y),
        forall|j: int| 0 <= j < old(store)@.len() && j != i
            ==> final(store)@[j] == old(store)@[j],
{
    let mut it = store.remove(i);
    it.year = y;
    store.insert(i, it);
}

/// Records that the Move Executor has relocated one item. The flag only ever
/// rises, and only after a physical relocation succeeded.
pub fn mark_moved(store: &mut Vec<WorkItem>, i: usize)
    requires
        i < old(store)@.len(),
        !old(store)@[i as int]@.moved,
    ensures
        final(store)@.len() == old(store)@.len(),
        final(store)@[i as int]@ == marked_moved(old(store)@[i as int]@),
        forall|j: int| 0 <= j < old(store)@.len() && j != i
            ==> final(store)@[j] == old(store)@[j],
{
    let mut it = store.remove(i);
    it.moved = true;
    store.insert(i, it);
}

/// A `<genre>-<year>` destination the Materializer must ensure exists.
pub struct DestFolder {
    pub genre: Vec<u8>,
    pub year: i32,
}

/// The pair `(g, y)` already stands somewhere in `r`.
pub open spec fn covers(r: Seq<DestFolder>, g: Seq<u8>, y: i32) -> bool {
    exists|k: int| 0 <= k < r.len() && (#[trigger] r[k]).genre@ == g && r[k].year == y
}

/// Some item of this collection demands the pair `(g, y)`.
pub open spec fn demanded(store: Seq<WorkItem>, root: Seq<u8>, g: Seq<u8>, y: i32) -> bool {
    exists|i: int| 0 <= i < store.len() && materializable((#[trigger] store[i])@, root)
        && store[i]@.genre == g && store[i]@.year == YearState::Resolved(y)
}

fn covers_exec(r: &Vec<DestFolder>, g: &Vec<u8>, y: i32) -> (b: bool)
    ensures
        b == covers(r@, g@, y),
{
    let mut k: usize = 0;
    while k < r.len()
        invariant
            k <= r@.len(),
            forall|j: int| 0 <= j < k ==> !((#[trigger] r@[j]).genre@ == g@ && r@[j].year == y),
        decreases r@.len() - k,
    {
        if r[k].year == y && bytes_eq(&r[k].genre, g) {
            return true;
        }
        k += 1;
    }
    false
}

/// The distinct `(genre, year)` pairs among unmoved, misfiled items in the
/// release range: exactly the destination folders that must exist before any
/// move, each pair once.
pub fn folders_to_create(store: &Vec<WorkItem>, root: &Vec<u8>) -> (r: Vec<DestFolder>)
    ensures
        forall|k: int| 0 <= k < r@.len()
            ==> demanded(store@, root@, (#[trigger] r@[k]).genre@, r@[k].year),
        forall|i: int| 0 <= i < store@.len() && materializable((#[trigger] store@[i])@, root@)
            ==> (store@[i]@.year matches YearState::Resolved(y)
                && covers(r@, store@[i]@.genre, y)),
        forall|k1: int, k2: int| 0 <= k1 < k2 < r@.len()
            ==> !((#[trigger] r@[k1]).genre@ == (#[trigger] r@[k2]).genre@
                && r@[k1].year == r@[k2].year),
{
    let mut r: Vec<DestFolder> = Vec::new();
    let mut i: usize = 0;
    while i < store.len()
        invariant
            i <= store@.len(),
            forall|k: int| 0 <= k < r@.len()
                ==> demanded(store@, root@, (#[trigger] r@[k]).genre@, r@[k].year),
            forall|j: int| 0 <= j < i && materializable((#[trigger] store@[j])@, root@)
                ==> (store@[j]@.year matches YearState::Resolved(y)
                    && covers(r@, store@[j]@.genre, y)),
            forall|k1: int, k2: int| 0 <= k1 < k2 < r@.len()
                ==> !((#[trigger] r@[k1]).genre@ == (#[trigger] r@[k2]).genre@
                    && r@[k1].year == r@[k2].year),
        decreases store@.len() - i,
    {
        let it = &store[i];
        if is_materializable(it, root) {
            if let YearState::Resolved(y) = it.year {
                if !covers_exec(&r, &it.genre, y) {
                    let ghost r0 = r@;
                    r.push(DestFolder { genre: bytes_clone(&it.genre), year: y });
                    proof {
                        assert(r@[r0.len() as int].genre@ == store@[i as int]@.genre);
                        assert forall|k: int| 0 <= k < r@.len()
                            implies demanded(store@, root@, (#[trigger] r@[k]).genre@,
                                r@[k].year) by {
                            if k < r0.len() {
                                assert(r@[k] == r0[k]);
                            } else {
                                assert(materializable(store@[i as int]@, root@));
                            }
                        }
                        assert forall|j: int| 0 <= j < i + 1
                            && materializable((#[trigger] store@[j])@, root@)
                            implies (store@[j]@.year matches YearState::Resolved(yy)
                                && covers(r@, store@[j]@.genre, yy)) by {
                            if j < i {
                                let yy = choose|yy: i32|
                                    store@[j]@.year == YearState::Resolved(yy);
                                assert(covers(r0, store@[j]@.genre, yy));
                                let k = choose|k: int| 0 <= k < r0.len()
                                    && (#[trigger] r0[k]).genre@ == store@[j]@.genre
                                    && r0[k].year == yy;
                                assert(r@[k] == r0[k]);
                            }
                        }
                        assert forall|k1: int, k2: int| 0 <= k1 < k2 < r@.len()
                            implies !((#[trigger] r@[k1]).genre@ == (#[trigger] r@[k2]).genre@
                                && r@[k1].year == r@[k2].year) by {
                            if k2 == r0.len() {
                                assert(r@[k1] == r0[k1]);
                                assert(!covers(r0, store@[i as int]@.genre, y));
                            } else {
                                assert(r@[k1] == r0[k1] && r@[k2] == r0[k2]);
                            }
                        }
                    }
                }
            }
        }
        i += 1;
    }
    r
}

/// Law: one full Move Executor pass never has to be repeated. Every item it
/// marked is out of reach of the selection predicate afterwards, and every
/// item it left alone is exactly as unselectable as it was; so if a pass
/// marked everything it selected, a second pass over the same store selects
/// nothing and performs no further moves.
pub proof fn lemma_move_pass_idempotent(
    before: Seq<ItemView>,
    after: Seq<ItemView>,
    root: Seq<u8>,
    marked: Set<int>,
)
    requires
        after.len() == before.len(),
        forall|i: int| marked.contains(i)
            ==> 0 <= i < before.len() && movable(#[trigger] before[i], root),
        forall|i: int| #[trigger] marked.contains(i) ==> after[i] == marked_moved(before[i]),
        forall|i: int| 0 <= i < before.len() && !marked.contains(i)
            ==> #[trigger] after[i] == before[i],
    ensures
        forall|i: int| 0 <= i < after.len() && movable(#[trigger] after[i], root)
            ==> movable(before[i], root) && !marked.contains(i),
        (forall|i: int| 0 <= i < before.len() && movable(#[trigger] before[i], root)
            ==> marked.contains(i))
            ==> (forall|i: int| 0 <= i < after.len() ==> !movable(#[trigger] after[i], root)),
{
    assert forall|i: int| 0 <= i < after.len() && movable(#[trigger] after[i], root)
        implies movable(before[i], root) && !marked.contains(i) by {
        if marked.contains(i) {
            assert(after[i].moved);
        }
    }
}

/// Law: one full run settles the store. When the Year Resolver has handled
/// every pending item of the collection and the Move Executor has marked
/// everything it selected, nothing is left pending and nothing is left
/// movable: a second run over the unchanged collection selects nothing in
/// either phase and performs no further moves — every eligible item is
/// already marked moved, or was already filed under its own year and was
/// never selected at all.
pub proof fn lemma_pipeline_idempotent(
    loaded: Seq<ItemView>,
    resolved_store: Seq<ItemView>,
    moved_store: Seq<ItemView>,
    root: Seq<u8>,
    resolved: Set<int>,
    marked: Set<int>,
)
    requires
        resolved_store.len() == loaded.len(),
        moved_store.len() == resolved_store.len(),
        forall|i: int| resolved.contains(i)
            ==> 0 <= i < loaded.len() && pending(#[trigger] loaded[i], root),
        forall|i: int| #[trigger] resolved.contains(i)
            ==> !(resolved_store[i].year is Pending)
                && resolved_store[i].root == loaded[i].root,
        forall|i: int| 0 <= i < loaded.len() && !resolved.contains(i)
            ==> #[trigger] resolved_store[i] == loaded[i],
        forall|i: int| 0 <= i < loaded.len() && pending(#[trigger] loaded[i], root)
            ==> resolved.contains(i),
        forall|i: int| marked.contains(i)
            ==> 0 <= i < resolved_store.len() && movable(#[trigger] resolved_store[i], root),
        forall|i: int| #[trigger] marked.contains(i)
            ==> moved_store[i] == marked_moved(resolved_store[i]),
        forall|i: int| 0 <= i < resolved_store.len() && !marked.contains(i)
            ==> #[trigger] moved_store[i] == resolved_store[i],
        forall|i: int| 0 <= i < resolved_store.len()
            && movable(#[trigger] resolved_store[i], root) ==> marked.contains(i),
    ensures
        forall|i: int| 0 <= i < moved_store.len()
            ==> !pending(#[trigger] moved_store[i], root),
        forall|i: int| 0 <= i < moved_store.len()
            ==> !movable(#[trigger] moved_store[i], root),
{
    lemma_resolve_pass_idempotent(loaded, resolved_store, root, resolved);
    lemma_move_pass_idempotent(resolved_store, moved_store, root, marked);
    assert forall|i: int| 0 <= i < moved_store.len()
        implies !pending(#[trigger] moved_store[i], root) by {
        if marked.contains(i) {
            assert(moved_store[i].year == resolved_store[i].year);
            assert(moved_store[i].root == resolved_store[i].root);
        }
    }
}

/// Law: the Year Resolver finishes its work in one pass. It never leaves a
/// selected item pending, and never turns any item back to pending; so if a
/// pass resolved everything it selected, a second resolver pass over the
/// same store selects nothing.
pub proof fn lemma_resolve_pass_idempotent(
    before: Seq<ItemView>,
    after: Seq<ItemView>,
    root: Seq<u8>,
    resolved: Set<int>,
)
    requires
        after.len() == before.len(),
        forall|i: int| resolved.contains(i)
            ==> 0 <= i < before.len() && pending(#[trigger] before[i], root),
        forall|i: int| #[trigger] resolved.contains(i)
            ==> !(after[i].year is Pending) && after[i].root == before[i].root,
        forall|i: int| 0 <= i < before.len() && !resolved.contains(i)
            ==> #[trigger] after[i] == before[i],
        forall|i: int| 0 <= i < before.len() && pending(#[trigger] before[i], root)
            ==> resolved.contains(i),
    ensures
        forall|i: int| 0 <= i < after.len() ==> !pending(#[trigger] after[i], root),
{
}

} // verus!
