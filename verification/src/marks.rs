//! Arcs that carry a mark, a block flag or a penalty, and the working
//! copies of a network that the heuristics keep them in.

use crate::graph::{is_route, links, Edge, Network};
use vstd::prelude::*;

verus! {

/// The penalty at which an arc is no longer used.
pub const P_MAX: u32 = 1000000;

/// An arc together with the mark a heuristic keeps on it.
pub trait Marked {
    /// The arc itself: head, cost, resource.
    spec fn edge(self) -> Edge;

    /// By how much the arc scales the priority of an arrival through it.
    spec fn factor(self) -> u32;

    /// Whether a search may go through the arc.
    spec fn usable(self) -> bool;

    /// How much marking the arc can still take.
    spec fn slack(self) -> nat;

    /// Reads the arc, its factor and whether it is usable.
    fn parts(&self) -> (r: (Edge, u32, bool))
        ensures
            r.0 == self.edge(),
            r.1 == self.factor(),
            r.2 == self.usable(),
    ;
}

/// An arc without a mark: always usable, never scaled.
impl Marked for (usize, u32, u32) {
    open spec fn edge(self) -> Edge {
        self
    }

    open spec fn factor(self) -> u32 {
        1
    }

    open spec fn usable(self) -> bool {
        true
    }

    open spec fn slack(self) -> nat {
        0
    }

    fn parts(&self) -> (r: (Edge, u32, bool)) {
        (*self, 1, true)
    }
}

/// An arc with a block flag: usable until blocked, never scaled.
impl Marked for (usize, u32, u32, bool) {
    open spec fn edge(self) -> Edge {
        (self.0, self.1, self.2)
    }

    open spec fn factor(self) -> u32 {
        1
    }

    open spec fn usable(self) -> bool {
        !self.3
    }

    open spec fn slack(self) -> nat {
        if self.3 {
            0
        } else {
            1
        }
    }

    fn parts(&self) -> (r: (Edge, u32, bool)) {
        ((self.0, self.1, self.2), 1, !self.3)
    }
}

/// An arc with a penalty: scaled by it, and usable while it is below
/// `P_MAX`.
impl Marked for (usize, u32, u32, u32) {
    open spec fn edge(self) -> Edge {
        (self.0, self.1, self.2)
    }

    open spec fn factor(self) -> u32 {
        self.3
    }

    open spec fn usable(self) -> bool {
        self.3 < P_MAX
    }

    open spec fn slack(self) -> nat {
        if self.3 < P_MAX {
            (P_MAX - self.3) as nat
        } else {
            0
        }
    }

    fn parts(&self) -> (r: (Edge, u32, bool)) {
        ((self.0, self.1, self.2), self.3, self.3 < P_MAX)
    }
}

/// The marked adjacency lists of `graph` as a mathematical value.
pub open spec fn marked_network<A>(graph: &Vec<Vec<A>>) -> Seq<Seq<A>> {
    Seq::new(graph@.len(), |u: int| graph@[u]@)
}

/// The network that `ext` marks: the same arcs without their marks.
pub open spec fn plain<A: Marked>(ext: Seq<Seq<A>>) -> Network {
    Seq::new(ext.len(), |u: int| Seq::new(ext[u].len(), |k: int| ext[u][k].edge()))
}

/// Every arc of `ext` leads to a vertex of `ext`, and every usable arc
/// scales by at least one.
pub open spec fn sound<A: Marked>(ext: Seq<Seq<A>>) -> bool {
    forall|u: int, k: int|
        0 <= u < ext.len() && 0 <= k < ext[u].len() ==> {
            &&& (#[trigger] ext[u][k]).edge().0 < ext.len()
            &&& ext[u][k].usable() ==> ext[u][k].factor() >= 1
        }
}

/// No usable arc of `ext` scales priorities.
pub open spec fn unscaled<A: Marked>(ext: Seq<Seq<A>>) -> bool {
    forall|u: int, k: int|
        0 <= u < ext.len() && 0 <= k < ext[u].len() && (#[trigger] ext[u][k]).usable()
            ==> ext[u][k].factor() == 1
}

/// Every arc of `ext` is usable and scales by one: nothing was marked yet.
pub open spec fn untouched<A: Marked>(ext: Seq<Seq<A>>) -> bool {
    forall|u: int, k: int|
        0 <= u < ext.len() && 0 <= k < ext[u].len() ==> (#[trigger] ext[u][k]).usable()
            && ext[u][k].factor() == 1
}

/// Arc indices as mathematical integers.
pub open spec fn indices(arcs: Seq<usize>) -> Seq<int> {
    arcs.map_values(|k: usize| k as int)
}

/// Every arc of the route is usable.
pub open spec fn passable<A: Marked>(ext: Seq<Seq<A>>, verts: Seq<usize>, arcs: Seq<int>) -> bool {
    forall|i: int| 0 <= i < arcs.len() ==> (#[trigger] ext[verts[i] as int][arcs[i]]).usable()
}

/// Where nothing was marked yet, every route is passable.
pub proof fn lemma_all_passable<A: Marked>(ext: Seq<Seq<A>>, verts: Seq<usize>, arcs: Seq<int>)
    requires
        untouched(ext),
        is_route(plain(ext), verts, arcs),
    ensures
        passable(ext, verts, arcs),
{
    assert forall|i: int| 0 <= i < arcs.len() implies (#[trigger] ext[verts[i] as int][arcs[i]]).usable() by {
        assert(links(plain(ext), verts, arcs, i));
        assert(plain(ext)[verts[i] as int].len() == ext[verts[i] as int].len());
    }
}

/// Marking arcs leaves a working copy sound, as long as every usable arc
/// still scales by at least one.
pub proof fn lemma_marking_sound<A: Marked>(before: Seq<Seq<A>>, after: Seq<Seq<A>>)
    requires
        sound(before),
        plain(after) == plain(before),
        forall|u: int, k: int|
            0 <= u < after.len() && 0 <= k < after[u].len() && (#[trigger] after[u][k]).usable()
                ==> after[u][k].factor() >= 1,
    ensures
        sound(after),
{
    assert(plain(after).len() == after.len());
    assert(plain(before).len() == before.len());
    assert forall|u: int, k: int| 0 <= u < after.len() && 0 <= k < after[u].len() implies {
        &&& (#[trigger] after[u][k]).edge().0 < after.len()
        &&& after[u][k].usable() ==> after[u][k].factor() >= 1
    } by {
        assert(plain(after)[u] == plain(before)[u]);
        assert(plain(after)[u].len() == after[u].len());
        assert(plain(before)[u].len() == before[u].len());
        assert(plain(after)[u][k] == after[u][k].edge());
        assert(plain(before)[u][k] == before[u][k].edge());
    }
}

/// How much marking the arcs of one adjacency list can still take.
pub open spec fn row_room<A: Marked>(row: Seq<A>) -> nat
    decreases row.len(),
{
    if row.len() == 0 {
        0
    } else {
        row_room(row.drop_last()) + row.last().slack()
    }
}

/// How much marking the arcs of `ext` can still take, all together.
pub open spec fn room<A: Marked>(ext: Seq<Seq<A>>) -> nat
    decreases ext.len(),
{
    if ext.len() == 0 {
        0
    } else {
        room(ext.drop_last()) + row_room(ext.last())
    }
}

proof fn lemma_row_room_update<A: Marked>(row: Seq<A>, k: int, a: A)
    requires
        0 <= k < row.len(),
    ensures
        row_room(row.update(k, a)) == row_room(row) - row[k].slack() + a.slack(),
    decreases row.len(),
{
    let after = row.update(k, a);
    if k == row.len() - 1 {
        assert(after.drop_last() =~= row.drop_last());
    } else {
        assert(after.drop_last() =~= row.drop_last().update(k, a));
        lemma_row_room_update(row.drop_last(), k, a);
    }
}

proof fn lemma_room_update<A: Marked>(ext: Seq<Seq<A>>, u: int, row: Seq<A>)
    requires
        0 <= u < ext.len(),
    ensures
        room(ext.update(u, row)) == room(ext) - row_room(ext[u]) + row_room(row),
    decreases ext.len(),
{
    let after = ext.update(u, row);
    if u == ext.len() - 1 {
        assert(after.drop_last() =~= ext.drop_last());
    } else {
        assert(after.drop_last() =~= ext.drop_last().update(u, row));
        lemma_room_update(ext.drop_last(), u, row);
    }
}

/// Marking one arc changes the room by the change of that arc's slack.
pub proof fn lemma_room_mark<A: Marked>(ext: Seq<Seq<A>>, u: int, k: int, a: A)
    requires
        0 <= u < ext.len(),
        0 <= k < ext[u].len(),
    ensures
        room(ext.update(u, ext[u].update(k, a))) == room(ext) - ext[u][k].slack() + a.slack(),
{
    lemma_row_room_update(ext[u], k, a);
    lemma_room_update(ext, u, ext[u].update(k, a));
}

/// Arc `a` weighs more than arc `b`: it costs more, or as much and
/// consumes more.
pub open spec fn heavier(a: Edge, b: Edge) -> bool {
    a.1 > b.1 || (a.1 == b.1 && a.2 > b.2)
}

/// Step `i` of the route takes its heaviest arc: none of its arcs weighs
/// more, and every earlier one weighs less.
pub open spec fn is_heaviest(net: Network, path: Seq<usize>, arcs: Seq<int>, i: int) -> bool {
    &&& 0 <= i < arcs.len()
    &&& forall|j: int|
        0 <= j < arcs.len() ==> !heavier(
            #[trigger] net[path[j] as int][arcs[j]],
            net[path[i] as int][arcs[i]],
        )
    &&& forall|j: int|
        0 <= j < i ==> heavier(
            net[path[i] as int][arcs[i]],
            #[trigger] net[path[j] as int][arcs[j]],
        )
}

/// The step at which a route takes its heaviest arc.
pub open spec fn heaviest(net: Network, path: Seq<usize>, arcs: Seq<int>) -> int {
    choose|i: int| is_heaviest(net, path, arcs, i)
}

/// Only one step of a route takes its heaviest arc.
pub proof fn lemma_heaviest_unique(net: Network, path: Seq<usize>, arcs: Seq<int>, i: int, j: int)
    requires
        is_heaviest(net, path, arcs, i),
        is_heaviest(net, path, arcs, j),
    ensures
        i == j,
{
    if i < j {
        assert(heavier(net[path[j] as int][arcs[j]], net[path[i] as int][arcs[i]]));
        assert(!heavier(net[path[j] as int][arcs[j]], net[path[i] as int][arcs[i]]));
    }
    if j < i {
        assert(heavier(net[path[i] as int][arcs[i]], net[path[j] as int][arcs[j]]));
        assert(!heavier(net[path[i] as int][arcs[i]], net[path[j] as int][arcs[j]]));
    }
}

/// Among the first `n` arcs of a route, one is the heaviest.
proof fn lemma_heaviest_among(net: Network, path: Seq<usize>, arcs: Seq<int>, n: nat) -> (at: int)
    requires
        0 < n <= arcs.len(),
    ensures
        0 <= at < n,
        forall|j: int|
            0 <= j < n ==> !heavier(
                #[trigger] net[path[j] as int][arcs[j]],
                net[path[at] as int][arcs[at]],
            ),
        forall|j: int|
            0 <= j < at ==> heavier(
                net[path[at] as int][arcs[at]],
                #[trigger] net[path[j] as int][arcs[j]],
            ),
    decreases n,
{
    if n == 1 {
        0
    } else {
        let before = lemma_heaviest_among(net, path, arcs, (n - 1) as nat);
        let last = n - 1;
        if heavier(net[path[last] as int][arcs[last]], net[path[before] as int][arcs[before]]) {
            last
        } else {
            before
        }
    }
}

/// Every route with an arc has a heaviest arc.
pub proof fn lemma_heaviest_exists(net: Network, path: Seq<usize>, arcs: Seq<int>)
    requires
        arcs.len() > 0,
    ensures
        is_heaviest(net, path, arcs, heaviest(net, path, arcs)),
{
    let at = lemma_heaviest_among(net, path, arcs, arcs.len());
    assert(is_heaviest(net, path, arcs, at));
}

/// The step at which the route `(path, arcs)` takes its heaviest arc.
pub fn heaviest_arc<A: Marked>(graph: &Vec<Vec<A>>, path: &Vec<usize>, arcs: &Vec<usize>) -> (at:
    usize)
    requires
        is_route(plain(marked_network(graph)), path@, indices(arcs@)),
        arcs@.len() > 0,
    ensures
        is_heaviest(plain(marked_network(graph)), path@, indices(arcs@), at as int),
        at == heaviest(plain(marked_network(graph)), path@, indices(arcs@)),
{
    let ghost ext = marked_network(graph);
    let ghost net = plain(ext);
    let ghost ks = indices(arcs@);
    proof {
        assert(links(net, path@, ks, 0));
        assert(net[path@[0] as int].len() == ext[path@[0] as int].len());
    }
    let mut at: usize = 0;
    let (first, _, _) = graph[path[0]][arcs[0]].parts();
    let mut max_cost: u32 = first.1;
    let mut consumed: u32 = first.2;
    let mut i: usize = 1;
    while i < arcs.len()
        invariant
            ext == marked_network(graph),
            net == plain(ext),
            ks == indices(arcs@),
            is_route(net, path@, ks),
            1 <= i <= arcs.len(),
            at < i,
            max_cost == net[path@[at as int] as int][ks[at as int]].1,
            consumed == net[path@[at as int] as int][ks[at as int]].2,
            forall|j: int|
                0 <= j < i ==> !heavier(
                    #[trigger] net[path@[j] as int][ks[j]],
                    net[path@[at as int] as int][ks[at as int]],
                ),
            forall|j: int|
                0 <= j < at ==> heavier(
                    net[path@[at as int] as int][ks[at as int]],
                    #[trigger] net[path@[j] as int][ks[j]],
                ),
        decreases arcs.len() - i,
    {
        proof {
            assert(links(net, path@, ks, i as int));
            assert(net[path@[i as int] as int].len() == ext[path@[i as int] as int].len());
            assert(ks[i as int] == arcs@[i as int]);
        }
        let (edge, _, _) = graph[path[i]][arcs[i]].parts();
        if edge.1 > max_cost || (edge.1 == max_cost && edge.2 > consumed) {
            max_cost = edge.1;
            consumed = edge.2;
            at = i;
        }
        i += 1;
    }
    proof {
        assert(is_heaviest(net, path@, ks, at as int));
        lemma_heaviest_unique(net, path@, ks, at as int, heaviest(net, path@, ks));
    }
    at
}

} // verus!
