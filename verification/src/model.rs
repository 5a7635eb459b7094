//! The adjacency listings of a node as plain values: what a forward and a
//! backward listing are, and what each operation of an index does to them.

use vstd::prelude::*;

verus! {

/// One forward connection as a plain value.
pub struct EdgeView<C> {
    /// The node that the connection points to.
    pub target: usize,
    /// The payload carried by the connection.
    pub data: C,
}

/// The targets of a forward listing, in stored order.
pub open spec fn targets<C>(edges: Seq<EdgeView<C>>) -> Seq<usize> {
    Seq::new(edges.len(), |i: int| edges[i].target)
}

/// Removal in constant time: the last element moves into position `i`.
pub open spec fn swap_remove<T>(s: Seq<T>, i: int) -> Seq<T>
    recommends
        0 <= i < s.len(),
{
    s.update(i, s.last()).drop_last()
}

/// The connection stored for `target`, if there is one.
pub open spec fn forward_get<C>(edges: Seq<EdgeView<C>>, target: usize) -> Option<EdgeView<C>> {
    if targets(edges).contains(target) {
        Some(edges[targets(edges).index_of(target)])
    } else {
        None
    }
}

/// Upsert: the payload of an existing connection is overwritten in place, a
/// new connection is appended.
pub open spec fn forward_set<C>(edges: Seq<EdgeView<C>>, target: usize, data: C) -> Seq<
    EdgeView<C>,
> {
    if targets(edges).contains(target) {
        edges.update(targets(edges).index_of(target), EdgeView { target, data })
    } else {
        edges.push(EdgeView { target, data })
    }
}

/// Removal of the connection to `target`; nothing changes where there is none.
pub open spec fn forward_remove<C>(edges: Seq<EdgeView<C>>, target: usize) -> Seq<EdgeView<C>> {
    if targets(edges).contains(target) {
        swap_remove(edges, targets(edges).index_of(target))
    } else {
        edges
    }
}

/// Insertion of a predecessor; nothing changes where it is recorded already.
pub open spec fn backward_create(sources: Seq<usize>, source: usize) -> Seq<usize> {
    if sources.contains(source) {
        sources
    } else {
        sources.push(source)
    }
}

/// Removal of a predecessor; nothing changes where it is not recorded.
pub open spec fn backward_delete(sources: Seq<usize>, source: usize) -> Seq<usize> {
    if sources.contains(source) {
        swap_remove(sources, sources.index_of(source))
    } else {
        sources
    }
}

/// In a listing without repeated keys, a key is found where it stands.
pub proof fn lemma_position_unique(keys: Seq<usize>, i: int)
    requires
        keys.no_duplicates(),
        0 <= i < keys.len(),
    ensures
        keys.contains(keys[i]),
        keys.index_of(keys[i]) == i,
{
    assert(keys.contains(keys[i]));
}

/// Swap-removal keeps the keys distinct and removes exactly the key at `i`.
pub proof fn lemma_swap_remove_distinct(keys: Seq<usize>, i: int)
    requires
        keys.no_duplicates(),
        0 <= i < keys.len(),
    ensures
        swap_remove(keys, i).no_duplicates(),
        swap_remove(keys, i).len() == keys.len() - 1,
        forall|k: usize| #[trigger]
            swap_remove(keys, i).contains(k) <==> (keys.contains(k) && k != keys[i]),
{
    let r = swap_remove(keys, i);
    assert forall|k: usize| #[trigger] r.contains(k) <==> (keys.contains(k) && k != keys[i]) by {
        if r.contains(k) {
            let j = choose|j: int| 0 <= j < r.len() && r[j] == k;
            if j == i {
                assert(keys[keys.len() - 1] == k);
            } else {
                assert(keys[j] == k);
            }
        }
        if keys.contains(k) && k != keys[i] {
            let j = choose|j: int| 0 <= j < keys.len() && keys[j] == k;
            if j == keys.len() - 1 {
                assert(r[i] == k);
            } else {
                assert(r[j] == k);
            }
        }
    }
}

/// The targets of a swap-removed listing are the swap-removed targets.
pub proof fn lemma_targets_swap_remove<C>(edges: Seq<EdgeView<C>>, i: int)
    requires
        0 <= i < edges.len(),
    ensures
        targets(swap_remove(edges, i)) == swap_remove(targets(edges), i),
{
    assert(targets(swap_remove(edges, i)) =~= swap_remove(targets(edges), i));
}

/// What an upsert does to a listing without repeated targets: the targets
/// stay distinct, `target` is added to them, `target` now carries `data`, and
/// every other connection is found as before.
pub proof fn lemma_forward_set<C>(edges: Seq<EdgeView<C>>, target: usize, data: C)
    requires
        targets(edges).no_duplicates(),
    ensures
        targets(forward_set(edges, target, data)).no_duplicates(),
        forall|k: usize| #[trigger]
            targets(forward_set(edges, target, data)).contains(k) <==> (targets(edges).contains(k)
                || k == target),
        forward_get(forward_set(edges, target, data), target) == Some(EdgeView { target, data }),
        forall|k: usize|
            k != target ==> #[trigger] forward_get(forward_set(edges, target, data), k)
                == forward_get(edges, k),
{
    let keys = targets(edges);
    let r = forward_set(edges, target, data);
    let rk = targets(r);
    if keys.contains(target) {
        let i = keys.index_of(target);
        assert(rk =~= keys);
        assert(r[i] == EdgeView { target, data });
        lemma_position_unique(rk, i);
        assert forall|k: usize| k != target implies #[trigger] forward_get(r, k) == forward_get(
            edges,
            k,
        ) by {
            if keys.contains(k) {
                let j = keys.index_of(k);
                assert(j != i);
            }
        }
    } else {
        assert(rk =~= keys.push(target));
        assert forall|a: int, b: int| 0 <= a < rk.len() && 0 <= b < rk.len() && a != b implies rk[a]
            != rk[b] by {
            if a == keys.len() {
                assert(keys[b] == rk[b]);
            } else if b == keys.len() {
                assert(keys[a] == rk[a]);
            } else {
                assert(keys[a] == rk[a] && keys[b] == rk[b]);
            }
        }
        assert forall|k: usize| #[trigger] rk.contains(k) <==> (keys.contains(k) || k == target) by {
            if rk.contains(k) {
                let j = choose|j: int| 0 <= j < rk.len() && rk[j] == k;
                if j < keys.len() {
                    assert(keys[j] == k);
                }
            }
            if keys.contains(k) {
                let j = choose|j: int| 0 <= j < keys.len() && keys[j] == k;
                assert(rk[j] == k);
            }
            if k == target {
                assert(rk[keys.len() as int] == k);
            }
        }
        lemma_position_unique(rk, keys.len() as int);
        assert forall|k: usize| k != target implies #[trigger] forward_get(r, k) == forward_get(
            edges,
            k,
        ) by {
            if keys.contains(k) {
                let j = keys.index_of(k);
                assert(rk[j] == k);
                lemma_position_unique(rk, j);
            }
        }
    }
}

/// What a removal does to a listing without repeated targets: the targets
/// stay distinct, exactly `target` leaves them, and every other connection,
/// the one that was moved included, is found under its own target as before.
pub proof fn lemma_forward_remove<C>(edges: Seq<EdgeView<C>>, target: usize)
    requires
        targets(edges).no_duplicates(),
    ensures
        targets(forward_remove(edges, target)).no_duplicates(),
        forall|k: usize| #[trigger]
            targets(forward_remove(edges, target)).contains(k) <==> (targets(edges).contains(k)
                && k != target),
        forward_get(forward_remove(edges, target), target) is None,
        forall|k: usize|
            k != target ==> #[trigger] forward_get(forward_remove(edges, target), k) == forward_get(
                edges,
                k,
            ),
        forward_remove(edges, target).len() == if targets(edges).contains(target) {
            edges.len() - 1
        } else {
            edges.len() as int
        },
{
    let keys = targets(edges);
    let r = forward_remove(edges, target);
    let rk = targets(r);
    if keys.contains(target) {
        let i = keys.index_of(target);
        lemma_targets_swap_remove(edges, i);
        lemma_swap_remove_distinct(keys, i);
        assert forall|k: usize| k != target implies #[trigger] forward_get(r, k) == forward_get(
            edges,
            k,
        ) by {
            if keys.contains(k) {
                let j = keys.index_of(k);
                assert(rk.contains(k));
                if j == keys.len() - 1 {
                    assert(rk[i] == k);
                    lemma_position_unique(rk, i);
                } else {
                    assert(rk[j] == k);
                    lemma_position_unique(rk, j);
                }
            }
        }
    }
}

/// Swap-removal of a connection that is not the last one: one connection
/// fewer is listed, the connection that was last stands where the removed one
/// stood, and it is found under its own target.
pub proof fn lemma_forward_remove_moves_last<C>(edges: Seq<EdgeView<C>>, target: usize)
    requires
        targets(edges).no_duplicates(),
        targets(edges).contains(target),
        targets(edges).index_of(target) != edges.len() - 1,
    ensures
        forward_remove(edges, target).len() == edges.len() - 1,
        forward_remove(edges, target)[targets(edges).index_of(target)] == edges.last(),
        forward_get(forward_remove(edges, target), edges.last().target) == Some(edges.last()),
        forward_get(forward_remove(edges, target), target) is None,
{
    let keys = targets(edges);
    let i = keys.index_of(target);
    let last = edges.last();
    lemma_forward_remove(edges, target);
    lemma_position_unique(keys, edges.len() - 1);
    assert(keys[edges.len() - 1] == last.target);
    assert(last.target != target);
    assert(forward_get(edges, last.target) == Some(last));
}

/// What recording a predecessor does to a listing without repetitions.
pub proof fn lemma_backward_create(sources: Seq<usize>, source: usize)
    requires
        sources.no_duplicates(),
    ensures
        backward_create(sources, source).no_duplicates(),
        forall|k: usize| #[trigger]
            backward_create(sources, source).contains(k) <==> (sources.contains(k) || k == source),
{
    let r = backward_create(sources, source);
    if !sources.contains(source) {
        assert forall|a: int, b: int| 0 <= a < r.len() && 0 <= b < r.len() && a != b implies r[a]
            != r[b] by {
            if a == sources.len() {
                assert(sources[b] == r[b]);
            } else if b == sources.len() {
                assert(sources[a] == r[a]);
            } else {
                assert(sources[a] == r[a] && sources[b] == r[b]);
            }
        }
        assert forall|k: usize| #[trigger] r.contains(k) <==> (sources.contains(k) || k
            == source) by {
            if r.contains(k) {
                let j = choose|j: int| 0 <= j < r.len() && r[j] == k;
                if j < sources.len() {
                    assert(sources[j] == k);
                }
            }
            if sources.contains(k) {
                let j = choose|j: int| 0 <= j < sources.len() && sources[j] == k;
                assert(r[j] == k);
            }
            if k == source {
                assert(r[sources.len() as int] == k);
            }
        }
    }
}

/// What dropping a predecessor does to a listing without repetitions.
pub proof fn lemma_backward_delete(sources: Seq<usize>, source: usize)
    requires
        sources.no_duplicates(),
    ensures
        backward_delete(sources, source).no_duplicates(),
        forall|k: usize| #[trigger]
            backward_delete(sources, source).contains(k) <==> (sources.contains(k) && k != source),
{
    if sources.contains(source) {
        lemma_swap_remove_distinct(sources, sources.index_of(source));
    }
}

/// Dropping a predecessor a second time changes nothing.
pub proof fn lemma_backward_delete_idempotent(sources: Seq<usize>, source: usize)
    requires
        sources.no_duplicates(),
    ensures
        backward_delete(backward_delete(sources, source), source) == backward_delete(
            sources,
            source,
        ),
{
    lemma_backward_delete(sources, source);
}

/// Distinct keys that are all at most `bound` are at most `bound + 1` many.
pub proof fn lemma_distinct_bounded(keys: Seq<usize>, bound: usize)
    requires
        keys.no_duplicates(),
        forall|i: int| 0 <= i < keys.len() ==> keys[i] <= bound,
    ensures
        keys.len() <= bound + 1,
{
    let ints = Seq::new(keys.len(), |i: int| keys[i] as int);
    assert forall|a: int, b: int| 0 <= a < ints.len() && 0 <= b < ints.len() && a != b implies ints[a]
        != ints[b] by {
        assert(keys[a] != keys[b]);
    }
    ints.unique_seq_to_set();
    let range = vstd::set_lib::set_int_range(0, bound + 1);
    vstd::set_lib::lemma_int_range(0, bound + 1);
    assert forall|x: int| ints.to_set().contains(x) implies range.contains(x) by {
        let j = choose|j: int| 0 <= j < ints.len() && ints[j] == x;
        assert(keys[j] <= bound);
    }
    vstd::set_lib::lemma_len_subset(ints.to_set(), range);
}

} // verus!
