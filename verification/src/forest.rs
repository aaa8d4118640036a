//! Parent pointers and the way down from a root that they describe.

use vstd::prelude::*;

verus! {

/// Where each vertex was reached from: the tail and the arc's index.
pub type Parents = Seq<Option<(usize, usize)>>;

/// Every parent lies one step nearer to a root than its child.
pub open spec fn is_forest(parent: Parents, hops: Seq<nat>) -> bool {
    &&& hops.len() == parent.len()
    &&& forall|v: int|
        0 <= v < parent.len() ==> match #[trigger] parent[v] {
            Some((u, _)) => u < parent.len() && hops[v] == hops[u as int] + 1,
            None => true,
        }
}

/// Some count of steps to a root makes `parent` a forest: no chain of
/// parents runs in a circle.
pub open spec fn rooted(parent: Parents) -> bool {
    exists|hops: Seq<nat>| is_forest(parent, hops)
}

/// `path` climbs down from a root to `to`, each vertex being the parent of
/// the next through the arc that `arcs` names.
pub open spec fn is_descent(parent: Parents, path: Seq<usize>, arcs: Seq<usize>, to: usize) -> bool {
    &&& path.len() == arcs.len() + 1
    &&& path[path.len() - 1] == to
    &&& path[0] < parent.len()
    &&& parent[path[0] as int] is None
    &&& forall|i: int|
        0 <= i < arcs.len() ==> (#[trigger] path[i + 1]) < parent.len() && parent[path[i + 1] as int]
            == Some((path[i], arcs[i]))
}

/// Along a descent every step adds one to the count of steps from the root.
pub proof fn lemma_descent_counts(
    parent: Parents,
    hops: Seq<nat>,
    path: Seq<usize>,
    arcs: Seq<usize>,
    to: usize,
    i: int,
)
    requires
        is_forest(parent, hops),
        is_descent(parent, path, arcs, to),
        0 <= i < path.len(),
    ensures
        path[i] < parent.len(),
        hops[path[i] as int] == hops[path[0] as int] + i,
    decreases i,
{
    if i > 0 {
        lemma_descent_counts(parent, hops, path, arcs, to, i - 1);
        assert(path[(i - 1) + 1] < parent.len());
    }
}

/// A descent never passes a vertex twice.
pub proof fn lemma_descent_simple(parent: Parents, path: Seq<usize>, arcs: Seq<usize>, to: usize)
    requires
        rooted(parent),
        is_descent(parent, path, arcs, to),
    ensures
        path.no_duplicates(),
{
    let hops = choose|hops: Seq<nat>| is_forest(parent, hops);
    assert forall|i: int, j: int| 0 <= i < path.len() && 0 <= j < path.len() && i != j implies path[i]
        != path[j] by {
        lemma_descent_counts(parent, hops, path, arcs, to, i);
        lemma_descent_counts(parent, hops, path, arcs, to, j);
    }
}

/// Two descents to one vertex agree from their ends backwards.
proof fn lemma_descents_agree(
    parent: Parents,
    upper: Seq<usize>,
    upper_arcs: Seq<usize>,
    lower: Seq<usize>,
    lower_arcs: Seq<usize>,
    to: usize,
    j: int,
)
    requires
        is_descent(parent, upper, upper_arcs, to),
        is_descent(parent, lower, lower_arcs, to),
        0 <= j < upper.len(),
        j < lower.len(),
    ensures
        upper[upper.len() - 1 - j] == lower[lower.len() - 1 - j],
        j > 0 ==> upper_arcs[upper_arcs.len() - j] == lower_arcs[lower_arcs.len() - j],
    decreases j,
{
    if j > 0 {
        lemma_descents_agree(parent, upper, upper_arcs, lower, lower_arcs, to, j - 1);
        let upper_at = upper.len() - 1 - j;
        let lower_at = lower.len() - 1 - j;
        assert(parent[upper[upper_at + 1] as int] == Some((upper[upper_at], upper_arcs[upper_at])));
        assert(parent[lower[lower_at + 1] as int] == Some((lower[lower_at], lower_arcs[lower_at])));
    }
}

/// The parents allow one descent to a vertex and no other.
pub proof fn lemma_descent_unique(
    parent: Parents,
    upper: Seq<usize>,
    upper_arcs: Seq<usize>,
    lower: Seq<usize>,
    lower_arcs: Seq<usize>,
    to: usize,
)
    requires
        is_descent(parent, upper, upper_arcs, to),
        is_descent(parent, lower, lower_arcs, to),
    ensures
        upper == lower,
        upper_arcs == lower_arcs,
{
    let upper_len = upper.len() as int;
    let lower_len = lower.len() as int;
    if upper_len < lower_len {
        lemma_descents_agree(parent, upper, upper_arcs, lower, lower_arcs, to, upper_len - 1);
        let i = lower_len - upper_len;
        assert(parent[lower[(i - 1) + 1] as int] == Some((lower[i - 1], lower_arcs[i - 1])));
        assert(false);
    }
    if lower_len < upper_len {
        lemma_descents_agree(parent, upper, upper_arcs, lower, lower_arcs, to, lower_len - 1);
        let i = upper_len - lower_len;
        assert(parent[upper[(i - 1) + 1] as int] == Some((upper[i - 1], upper_arcs[i - 1])));
        assert(false);
    }
    assert forall|i: int| 0 <= i < upper_len implies upper[i] == lower[i] by {
        lemma_descents_agree(parent, upper, upper_arcs, lower, lower_arcs, to, upper_len - 1 - i);
    }
    assert forall|i: int| 0 <= i < upper_len - 1 implies upper_arcs[i] == lower_arcs[i] by {
        lemma_descents_agree(parent, upper, upper_arcs, lower, lower_arcs, to, upper_len - 1 - i);
    }
    assert(upper =~= lower);
    assert(upper_arcs =~= lower_arcs);
}

/// The items of `items` in the opposite order.
pub fn reversed(items: &Vec<usize>) -> (out: Vec<usize>)
    ensures
        out@.len() == items@.len(),
        forall|i: int| 0 <= i < out@.len() ==> out@[i] == items@[items@.len() - 1 - i],
{
    let mut out: Vec<usize> = Vec::new();
    let mut i: usize = items.len();
    while i > 0
        invariant
            i <= items.len(),
            out@.len() == items@.len() - i,
            forall|j: int| 0 <= j < out@.len() ==> out@[j] == items@[items@.len() - 1 - j],
        decreases i,
    {
        i -= 1;
        out.push(items[i]);
    }
    out
}

/// Follows the parents from `curr` up to a root and returns the way down:
/// the vertices from the root to `curr`, and the arcs between them.
pub fn get_path(parent: &Vec<Option<(usize, usize)>>, curr: usize) -> (r: (Vec<usize>, Vec<usize>))
    requires
        rooted(parent@),
        curr < parent.len(),
    ensures
        is_descent(parent@, r.0@, r.1@, curr),
{
    let ghost hops = choose|hops: Seq<nat>| is_forest(parent@, hops);
    let mut up: Vec<usize> = Vec::new();
    let mut via: Vec<usize> = Vec::new();
    up.push(curr);
    let mut at: usize = curr;
    loop
        invariant
            is_forest(parent@, hops),
            up@.len() == via@.len() + 1,
            up@[0] == curr,
            at == up@[up@.len() - 1],
            forall|i: int| 0 <= i < up@.len() ==> (#[trigger] up@[i]) < parent.len(),
            forall|i: int|
                0 <= i < via@.len() ==> parent@[(#[trigger] up@[i]) as int] == Some(
                    (up@[i + 1], via@[i]),
                ),
        ensures
            parent@[at as int] is None,
        decreases hops[at as int],
    {
        match parent[at] {
            None => {
                break ;
            },
            Some((u, k)) => {
                up.push(u);
                via.push(k);
                at = u;
            },
        }
    }
    let path = reversed(&up);
    let arcs = reversed(&via);
    proof {
        let n = via@.len() as int;
        assert forall|i: int| 0 <= i < arcs@.len() implies (#[trigger] path@[i + 1]) < parent.len()
            && parent@[path@[i + 1] as int] == Some((path@[i], arcs@[i])) by {
            let j = n - 1 - i;
            assert(path@[i + 1] == up@[j]);
            assert(path@[i] == up@[j + 1]);
            assert(arcs@[i] == via@[j]);
        }
        assert(path@[0] == up@[n]);
    }
    (path, arcs)
}

} // verus!
