//! An order of the components of a program in which every component comes
//! after the components it instantiates.
use vstd::prelude::*;
use crate::ir::{Component, Prototype};

verus! {

/// The component has a cell that is an instance of the component named
/// `name`.
pub open spec fn instantiates(c: Component, name: Seq<char>) -> bool {
    exists|k: int| 0 <= k < c.cells@.len() && #[trigger] names_component(c.cells@[k], name)
}

/// The cell is an instance of the component named `name`.
pub open spec fn names_component(cell: crate::ir::Cell, name: Seq<char>) -> bool {
    cell.prototype matches Prototype::Component { name: n } && n@ == name
}

/// The component at position `j` instantiates the one at position `d`.
pub open spec fn depends(comps: Seq<Component>, j: int, d: int) -> bool {
    instantiates(comps[j], comps[d].name@)
}

/// `o` lists every position of `comps` once, and no component comes before
/// (or is) one that it instantiates.
pub open spec fn is_post_order(comps: Seq<Component>, o: Seq<usize>) -> bool {
    &&& forall|p: int| 0 <= p < o.len() ==> #[trigger] o[p] < comps.len()
    &&& forall|p: int, q: int| 0 <= p < q < o.len() ==> #[trigger] o[p] != #[trigger] o[q]
    &&& forall|j: int| 0 <= j < comps.len() ==> #[trigger] appears(o, j)
    &&& forall|p: int, q: int|
        0 <= p <= q < o.len() ==> !depends(comps, #[trigger] o[p] as int, #[trigger] o[q] as int)
}

/// `j` is among the positions listed in `o`.
pub open spec fn appears(o: Seq<usize>, j: int) -> bool {
    exists|p: int| 0 <= p < o.len() && #[trigger] o[p] == j
}

/// Every component that the one at position `j` instantiates is placed.
pub open spec fn ready(comps: Seq<Component>, placed: Seq<bool>, j: int) -> bool {
    forall|d: int| 0 <= d < comps.len() && #[trigger] depends(comps, j, d) ==> placed[d]
}

/// The number of positions not placed yet.
pub open spec fn count_unplaced(placed: Seq<bool>) -> nat
    decreases placed.len(),
{
    if placed.len() == 0 {
        0
    } else {
        count_unplaced(placed.drop_last()) + if placed.last() {
            0nat
        } else {
            1nat
        }
    }
}

proof fn lemma_count_unplaced_update(placed: Seq<bool>, j: int)
    requires
        0 <= j < placed.len(),
        !placed[j],
    ensures
        count_unplaced(placed.update(j, true)) + 1 == count_unplaced(placed),
    decreases placed.len(),
{
    if j < placed.len() - 1 {
        assert(placed.update(j, true).drop_last() =~= placed.drop_last().update(j, true));
        lemma_count_unplaced_update(placed.drop_last(), j);
    } else {
        assert(placed.update(j, true).drop_last() =~= placed.drop_last());
    }
}

/// Whether the component has a cell that is an instance of the component
/// named `name`.
fn instantiates_exec(c: &Component, name: &String) -> (r: bool)
    ensures
        r == instantiates(*c, name@),
{
    let n = c.cells.len();
    let mut k: usize = 0;
    while k < n
        invariant
            n == c.cells@.len(),
            k <= n,
            forall|k2: int| 0 <= k2 < k ==> !#[trigger] names_component(c.cells@[k2], name@),
        decreases n - k,
    {
        match &c.cells[k].prototype {
            Prototype::Component { name: m } => {
                if *m == *name {
                    assert(names_component(c.cells@[k as int], name@));
                    return true;
                }
            },
            _ => {},
        }
        k += 1;
    }
    false
}

/// Whether every component that the one at position `j` instantiates is
/// placed.
fn ready_exec(comps: &Vec<Component>, placed: &Vec<bool>, j: usize) -> (r: bool)
    requires
        j < comps@.len(),
        placed@.len() == comps@.len(),
    ensures
        r == ready(comps@, placed@, j as int),
{
    let n = comps.len();
    let mut d: usize = 0;
    while d < n
        invariant
            n == comps@.len(),
            placed@.len() == n,
            j < n,
            d <= n,
            forall|d2: int| 0 <= d2 < d && #[trigger] depends(comps@, j as int, d2) ==> placed@[d2],
        decreases n - d,
    {
        if !placed[d] && instantiates_exec(&comps[j], &comps[d].name) {
            assert(depends(comps@, j as int, d as int));
            return false;
        }
        d += 1;
    }
    true
}

/// The first position that is not placed and whose instantiated components
/// all are; `None` if there is none.
fn next_ready(comps: &Vec<Component>, placed: &Vec<bool>) -> (r: Option<usize>)
    requires
        placed@.len() == comps@.len(),
    ensures
        r matches Some(j) ==> j < comps@.len() && !placed@[j as int] && ready(
            comps@,
            placed@,
            j as int,
        ),
        r is None ==> forall|j: int|
            0 <= j < comps@.len() ==> #[trigger] placed@[j] || !ready(comps@, placed@, j),
{
    let n = comps.len();
    let mut j: usize = 0;
    while j < n
        invariant
            n == comps@.len(),
            placed@.len() == n,
            j <= n,
            forall|j2: int| 0 <= j2 < j ==> #[trigger] placed@[j2] || !ready(comps@, placed@, j2),
        decreases n - j,
    {
        if !placed[j] && ready_exec(comps, placed, j) {
            return Some(j);
        }
        j += 1;
    }
    None
}

/// Whether every position is placed.
fn all_placed(placed: &Vec<bool>) -> (r: bool)
    ensures
        r == forall|j: int| 0 <= j < placed@.len() ==> #[trigger] placed@[j],
{
    let n = placed.len();
    let mut j: usize = 0;
    while j < n
        invariant
            n == placed@.len(),
            j <= n,
            forall|j2: int| 0 <= j2 < j ==> #[trigger] placed@[j2],
        decreases n - j,
    {
        if !placed[j] {
            return false;
        }
        j += 1;
    }
    true
}

/// When no unplaced component is ready although one is unplaced, the
/// instances form a cycle: no post-order exists.
proof fn lemma_stuck_no_post_order(comps: Seq<Component>, placed: Seq<bool>, o: Seq<usize>, j0: int)
    requires
        placed.len() == comps.len(),
        0 <= j0 < comps.len(),
        !placed[j0],
        forall|j: int| 0 <= j < comps.len() ==> #[trigger] placed[j] || !ready(comps, placed, j),
    ensures
        !is_post_order(comps, o),
{
    if !is_post_order(comps, o) {
        return;
    }
    assert(appears(o, j0));
    let p0 = choose|p: int| 0 <= p < o.len() && #[trigger] o[p] == j0;
    let p = lemma_first_unplaced(comps, placed, o, p0);
    let r = o[p] as int;
    assert(!ready(comps, placed, r));
    let d = choose|d: int| 0 <= d < comps.len() && #[trigger] depends(comps, r, d) && !placed[d];
    assert(appears(o, d));
    let pd = choose|q: int| 0 <= q < o.len() && #[trigger] o[q] == d;
    if p <= pd {
        assert(!depends(comps, o[p] as int, o[pd] as int));
    } else {
        assert(placed[o[pd] as int]);
    }
}

/// There is a first position in `o` whose component is not placed.
proof fn lemma_first_unplaced(comps: Seq<Component>, placed: Seq<bool>, o: Seq<usize>, p0: int) -> (p: int)
    requires
        placed.len() == comps.len(),
        0 <= p0 < o.len(),
        forall|q: int| 0 <= q < o.len() ==> #[trigger] o[q] < comps.len(),
        !placed[o[p0] as int],
    ensures
        0 <= p <= p0,
        !placed[o[p] as int],
        forall|q: int| 0 <= q < p ==> placed[#[trigger] o[q] as int],
    decreases p0,
{
    if exists|q: int| 0 <= q < p0 && !placed[#[trigger] o[q] as int] {
        let q = choose|q: int| 0 <= q < p0 && !placed[#[trigger] o[q] as int];
        lemma_first_unplaced(comps, placed, o, q)
    } else {
        p0
    }
}

/// Orders the components so that each comes after the components it
/// instantiates, taking at each step the first one whose instantiated
/// components are all placed. `None` when the instances form a cycle.
pub fn post_order(comps: &Vec<Component>) -> (r: Option<Vec<usize>>)
    ensures
        r matches Some(o) ==> is_post_order(comps@, o@),
        r is None ==> forall|o: Seq<usize>| !is_post_order(comps@, o),
{
    let n = comps.len();
    let mut placed: Vec<bool> = Vec::new();
    let mut i: usize = 0;
    while i < n
        invariant
            i <= n,
            placed@.len() == i,
            forall|j: int| 0 <= j < i ==> !(#[trigger] placed@[j]),
        decreases n - i,
    {
        placed.push(false);
        i += 1;
    }
    let mut order: Vec<usize> = Vec::new();
    loop
        invariant
            n == comps@.len(),
            placed@.len() == n,
            forall|p: int| 0 <= p < order@.len() ==> #[trigger] order@[p] < n,
            forall|j: int|
                0 <= j < n ==> (#[trigger] placed@[j] <==> exists|p: int|
                    0 <= p < order@.len() && #[trigger] order@[p] == j),
            forall|p: int, q: int|
                0 <= p < q < order@.len() ==> #[trigger] order@[p] != #[trigger] order@[q],
            forall|p: int, q: int|
                0 <= p <= q < order@.len() ==> !depends(
                    comps@,
                    #[trigger] order@[p] as int,
                    #[trigger] order@[q] as int,
                ),
            forall|p: int, d: int|
                0 <= p < order@.len() && 0 <= d < n && #[trigger] depends(
                    comps@,
                    order@[p] as int,
                    d,
                ) ==> placed@[d],
        decreases count_unplaced(placed@),
    {
        if all_placed(&placed) {
            proof {
                assert forall|j: int| 0 <= j < n implies #[trigger] appears(order@, j) by {
                    assert(placed@[j]);
                }
            }
            return Some(order);
        }
        match next_ready(comps, &placed) {
            None => {
                proof {
                    let j0 = choose|j: int| 0 <= j < n && !(#[trigger] placed@[j]);
                    assert forall|o: Seq<usize>| !is_post_order(comps@, o) by {
                        lemma_stuck_no_post_order(comps@, placed@, o, j0);
                    }
                }
                return None;
            },
            Some(j) => {
                let ghost old_placed = placed@;
                let ghost old_order = order@;
                proof {
                    lemma_count_unplaced_update(placed@, j as int);
                }
                placed.set(j, true);
                order.push(j);
                proof {
                    assert forall|k: int|
                        0 <= k < n implies (#[trigger] placed@[k] <==> exists|p: int|
                            0 <= p < order@.len() && #[trigger] order@[p] == k) by {
                        if k == j {
                            assert(order@[order@.len() - 1] == k);
                        } else if old_placed[k] {
                            let p = choose|p: int| 0 <= p < old_order.len() && old_order[p] == k;
                            assert(order@[p] == k);
                        } else {
                            if exists|p: int| 0 <= p < order@.len() && #[trigger] order@[p] == k {
                                let p = choose|p: int| 0 <= p < order@.len() && order@[p] == k;
                                assert(old_order[p] == k);
                            }
                        }
                    }
                    assert forall|p: int, q: int| 0 <= p < q < order@.len() implies #[trigger] order@[p]
                        != #[trigger] order@[q] by {
                        if q == order@.len() - 1 {
                            assert(old_placed[old_order[p] as int]);
                        } else {
                            assert(old_order[p] != old_order[q]);
                        }
                    }
                    assert forall|p: int, q: int| 0 <= p <= q < order@.len() implies !depends(
                        comps@,
                        #[trigger] order@[p] as int,
                        #[trigger] order@[q] as int,
                    ) by {
                        if q == order@.len() - 1 {
                            if p < q {
                                if depends(comps@, old_order[p] as int, j as int) {
                                    assert(old_placed[j as int]);
                                }
                            } else {
                                if depends(comps@, j as int, j as int) {
                                    assert(old_placed[j as int]);
                                }
                            }
                        } else {
                            assert(!depends(comps@, old_order[p] as int, old_order[q] as int));
                        }
                    }
                    assert forall|p: int, d: int|
                        0 <= p < order@.len() && 0 <= d < n && #[trigger] depends(
                            comps@,
                            order@[p] as int,
                            d,
                        ) implies placed@[d] by {
                        if p < order@.len() - 1 {
                            assert(depends(comps@, old_order[p] as int, d));
                        }
                    }
                }
            },
        }
    }
}

} // verus!
