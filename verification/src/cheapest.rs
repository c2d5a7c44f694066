//! Why the path that the search finds is the cheapest: what the search keeps about
//! total distances while it runs, and what follows from it at the end.
use vstd::prelude::*;
use crate::graph::Graph;
use crate::metric::PolySplit;
use crate::order::{
    at_most, lemma_at_most_chain, lemma_at_most_itself, lemma_exceeded_at_most,
    lemma_exceeds_chain, lemma_total_grows, lemma_total_keeps_order, ordered_on,
};
use crate::path::{is_path, is_path_prefix, path_cost, search_wf};
use crate::queue::{all_valid, first_in_line, goes_first, State};
use crate::reached::{is_child, lemma_pending_after_push, lemma_pending_after_remove, pending};

verus! {

/// Whether the distances of all vertices of the graph are among the valid ones.
pub open spec fn graph_valid<D>(graph: Graph<D>, valid: spec_fn(D) -> bool) -> bool {
    forall|vertex: int|
        0 <= vertex < graph.vertexes@.len() ==> valid(
            (#[trigger] graph.vertexes@[vertex]).distance_to,
        )
}

/// What is asked of the distances: the valid ones are ordered, and the distances of
/// the graph are valid.
pub open spec fn premises<P: PolySplit<D>, D: Copy>(
    graph: Graph<D>,
    valid: spec_fn(D) -> bool,
) -> bool {
    ordered_on::<P, D>(valid) && graph_valid(graph, valid)
}

/// Whether no path through the graph has a smaller total distance than `path`.
pub open spec fn cheapest<P: PolySplit<D>, D: Copy>(graph: Graph<D>, path: Seq<usize>) -> bool {
    forall|other: Seq<usize>| #[trigger]
        is_path(graph, other) ==> at_most::<P, D>(
            path_cost::<P, D>(graph, path),
            path_cost::<P, D>(graph, other),
        )
}

/// Whether `path` is a path prefix that ends at `vertex`.
pub open spec fn ends_at<D>(graph: Graph<D>, path: Seq<usize>, vertex: int) -> bool {
    is_path_prefix(graph, path) && path.len() >= 1 && path.last() == vertex
}

/// The first vertices of a path prefix are a path prefix.
pub proof fn lemma_prefix_take<D>(graph: Graph<D>, path: Seq<usize>, length: int)
    requires
        is_path_prefix(graph, path),
        0 <= length <= path.len(),
    ensures
        is_path_prefix(graph, path.take(length)),
{
    let shorter = path.take(length);
    assert forall|layer: int| 0 <= layer < shorter.len() implies graph.in_range(
        layer,
        #[trigger] shorter[layer] as int,
    ) by {
        assert(shorter[layer] == path[layer]);
    }
    assert forall|layer: int| 0 <= layer < shorter.len() - 1 implies graph.cut_of(
        #[trigger] shorter[layer] as int,
    ) <= graph.cut_of(shorter[layer + 1] as int) by {
        assert(shorter[layer] == path[layer]);
        assert(shorter[layer + 1] == path[layer + 1]);
    }
}

/// A path prefix with one more vertex that a path may step to is a path prefix, and
/// its total distance is that of the prefix and the distance of the vertex together.
pub proof fn lemma_prefix_push<P: PolySplit<D>, D: Copy>(
    graph: Graph<D>,
    path: Seq<usize>,
    child: usize,
)
    requires
        graph.wf(),
        is_path_prefix(graph, path),
        path.len() >= 1,
        is_child(graph, path.last() as int, child as int),
    ensures
        ends_at(graph, path.push(child), child as int),
        path_cost::<P, D>(graph, path.push(child)) == P::total(
            path_cost::<P, D>(graph, path),
            graph.vertexes@[child as int].distance_to,
        ),
{
    let longer = path.push(child);
    assert(graph.in_range(path.len() - 1, path[path.len() - 1] as int));
    assert(graph.layer_of(path.last() as int) == path.len() - 1);
    assert forall|layer: int| 0 <= layer < longer.len() implies graph.in_range(
        layer,
        #[trigger] longer[layer] as int,
    ) by {
        if layer < path.len() {
            assert(longer[layer] == path[layer]);
        }
    }
    assert forall|layer: int| 0 <= layer < longer.len() - 1 implies graph.cut_of(
        #[trigger] longer[layer] as int,
    ) <= graph.cut_of(longer[layer + 1] as int) by {
        assert(longer[layer] == path[layer]);
        if layer + 1 < path.len() {
            assert(longer[layer + 1] == path[layer + 1]);
        }
    }
    assert(longer.drop_last() == path);
}

/// The total distance of a path prefix is valid.
pub proof fn lemma_cost_valid<P: PolySplit<D>, D: Copy>(
    valid: spec_fn(D) -> bool,
    graph: Graph<D>,
    path: Seq<usize>,
)
    requires
        premises::<P, D>(graph, valid),
        graph.wf(),
        is_path_prefix(graph, path),
        path.len() >= 1,
    ensures
        valid(path_cost::<P, D>(graph, path)),
    decreases path.len(),
{
    assert(graph.in_range(path.len() - 1, path[path.len() - 1] as int));
    assert(graph.in_range(0, path[0] as int));
    if path.len() > 1 {
        lemma_prefix_take(graph, path, path.len() - 1);
        assert(path.take(path.len() - 1) == path.drop_last());
        lemma_cost_valid::<P, D>(valid, graph, path.drop_last());
        lemma_total_grows::<P, D>(
            valid,
            path_cost::<P, D>(graph, path.drop_last()),
            graph.vertexes@[path.last() as int].distance_to,
        );
    }
}

/// The total distance of the first vertices of a path prefix does not exceed that of
/// the whole.
pub proof fn lemma_cost_grows<P: PolySplit<D>, D: Copy>(
    valid: spec_fn(D) -> bool,
    graph: Graph<D>,
    path: Seq<usize>,
    length: int,
)
    requires
        premises::<P, D>(graph, valid),
        graph.wf(),
        is_path_prefix(graph, path),
        1 <= length <= path.len(),
    ensures
        at_most::<P, D>(
            path_cost::<P, D>(graph, path.take(length)),
            path_cost::<P, D>(graph, path),
        ),
        valid(path_cost::<P, D>(graph, path.take(length))),
        valid(path_cost::<P, D>(graph, path)),
    decreases path.len(),
{
    lemma_cost_valid::<P, D>(valid, graph, path);
    if length == path.len() {
        assert(path.take(length) == path);
        lemma_at_most_itself::<P, D>(valid, path_cost::<P, D>(graph, path));
    } else {
        let shorter = path.drop_last();
        lemma_prefix_take(graph, path, path.len() - 1);
        assert(path.take(path.len() - 1) == shorter);
        lemma_cost_grows::<P, D>(valid, graph, shorter, length);
        assert(shorter.take(length) == path.take(length));
        assert(graph.in_range(path.len() - 1, path[path.len() - 1] as int));
        lemma_total_grows::<P, D>(
            valid,
            path_cost::<P, D>(graph, shorter),
            graph.vertexes@[path.last() as int].distance_to,
        );
        lemma_at_most_chain::<P, D>(
            valid,
            path_cost::<P, D>(graph, path.take(length)),
            path_cost::<P, D>(graph, shorter),
            path_cost::<P, D>(graph, path),
        );
    }
}


/// The distance of a vertex from its reference point.
pub open spec fn distance_of<D>(graph: Graph<D>, vertex: int) -> D {
    graph.vertexes@[vertex].distance_to
}

/// Whether no path prefix that ends at `vertex` has a smaller total distance than
/// the one that the search knows for it.
pub open spec fn best_known<P: PolySplit<D>, D: Copy>(
    graph: Graph<D>,
    dist: Seq<Option<D>>,
    vertex: int,
) -> bool {
    dist[vertex] matches Some(known) && forall|path: Seq<usize>| #[trigger]
        ends_at(graph, path, vertex) ==> at_most::<P, D>(known, path_cost::<P, D>(graph, path))
}

/// Whether the search has passed on from `vertex` to the vertices before `upto`
/// that a path may step to: for each of them it knows a total distance that does
/// not exceed the one of `vertex` and the distance of the vertex together.
pub open spec fn passed_on<P: PolySplit<D>, D: Copy>(
    graph: Graph<D>,
    dist: Seq<Option<D>>,
    vertex: int,
    upto: int,
) -> bool {
    dist[vertex] matches Some(known) && forall|child: int| #[trigger]
        is_child(graph, vertex, child) && child < upto ==> (dist[child] matches Some(reached)
            && at_most::<P, D>(reached, P::total(known, distance_of(graph, child))))
}

/// Whether the search is done with `vertex`: it lies before the last layer, its
/// total distance is the least one, and the search has passed on from it.
pub open spec fn settled<P: PolySplit<D>, D: Copy>(
    graph: Graph<D>,
    dist: Seq<Option<D>>,
    vertex: int,
) -> bool {
    &&& graph.layer_of(vertex) + 1 < graph.layers()
    &&& best_known::<P, D>(graph, dist, vertex)
    &&& passed_on::<P, D>(graph, dist, vertex, dist.len() as int)
}

/// Whether the total distance known for `vertex` is reached by a path prefix.
pub open spec fn realized<P: PolySplit<D>, D: Copy>(
    graph: Graph<D>,
    dist: Seq<Option<D>>,
    vertex: int,
) -> bool {
    dist[vertex] matches Some(known) ==> exists|path: Seq<usize>| #[trigger]
        ends_at(graph, path, vertex) && at_most::<P, D>(path_cost::<P, D>(graph, path), known)
}

/// What the search keeps about total distances at every moment.
///
/// A vertex of the first layer has its own distance. Every known total distance is
/// valid and reached by a path prefix. A state in the queue holds the total distance
/// known for its vertex, or one that exceeds it. The total distance known for a
/// vertex is not less than the one known for its predecessor and its own distance
/// together.
pub open spec fn cheapest_base<P: PolySplit<D>, D: Copy>(
    valid: spec_fn(D) -> bool,
    graph: Graph<D>,
    dist: Seq<Option<D>>,
    prev: Seq<Option<usize>>,
    queue: Seq<State<D>>,
) -> bool {
    &&& forall|vertex: int| #[trigger]
        graph.in_range(0, vertex) ==> dist[vertex] == Some(distance_of(graph, vertex))
    &&& forall|vertex: int|
        0 <= vertex < dist.len() ==> (#[trigger] dist[vertex] matches Some(known) ==> valid(known)
            && realized::<P, D>(graph, dist, vertex))
    &&& forall|i: int|
        0 <= i < queue.len() ==> valid((#[trigger] queue[i]).distance_total) && (
        dist[queue[i].position as int] matches Some(known) && (queue[i].distance_total == known
            || P::exceeds(queue[i].distance_total, known)))
    &&& forall|to: int|
        0 <= to < prev.len() ==> (#[trigger] prev[to] matches Some(from) ==> (
        dist[from as int] matches Some(before) && dist[to] matches Some(after) && at_most::<P, D>(
            P::total(before, distance_of(graph, to)),
            after,
        )))
}

/// What the search keeps between two states taken from the queue: every reached
/// vertex either waits in the queue or is settled.
pub open spec fn cheapest_inv<P: PolySplit<D>, D: Copy>(
    valid: spec_fn(D) -> bool,
    graph: Graph<D>,
    dist: Seq<Option<D>>,
    prev: Seq<Option<usize>>,
    queue: Seq<State<D>>,
) -> bool {
    &&& cheapest_base::<P, D>(valid, graph, dist, prev, queue)
    &&& forall|vertex: int|
        0 <= vertex < dist.len() && (#[trigger] dist[vertex]) is Some ==> pending(
            dist,
            queue,
            vertex,
        ) || settled::<P, D>(graph, dist, vertex)
}

/// What the search keeps while it passes on from `parent`, which it took from the
/// queue with the total distance `popped`, having dealt with the vertices before
/// `upto`.
pub open spec fn cheapest_during<P: PolySplit<D>, D: Copy>(
    valid: spec_fn(D) -> bool,
    graph: Graph<D>,
    dist: Seq<Option<D>>,
    prev: Seq<Option<usize>>,
    queue: Seq<State<D>>,
    parent: int,
    popped: D,
    upto: int,
) -> bool {
    &&& cheapest_base::<P, D>(valid, graph, dist, prev, queue)
    &&& forall|vertex: int|
        0 <= vertex < dist.len() && (#[trigger] dist[vertex]) is Some && vertex != parent
            ==> pending(dist, queue, vertex) || settled::<P, D>(graph, dist, vertex)
    &&& dist[parent] == Some(popped)
    &&& best_known::<P, D>(graph, dist, parent)
    &&& passed_on::<P, D>(graph, dist, parent, upto)
}

/// For every path prefix there is a state in the queue, for one of its vertices,
/// whose total distance does not exceed that of the prefix up to this vertex; or the
/// last vertex of the prefix is settled, with a total distance that does not exceed
/// that of the prefix.
///
/// The result is the number of vertices up to the one in the queue together with
/// the index of the state, or zero where the last vertex is settled.
pub proof fn lemma_frontier<P: PolySplit<D>, D: Copy>(
    valid: spec_fn(D) -> bool,
    graph: Graph<D>,
    dist: Seq<Option<D>>,
    prev: Seq<Option<usize>>,
    queue: Seq<State<D>>,
    path: Seq<usize>,
) -> (found: (int, int))
    requires
        premises::<P, D>(graph, valid),
        graph.wf(),
        search_wf(graph, dist, prev, queue),
        cheapest_inv::<P, D>(valid, graph, dist, prev, queue),
        is_path_prefix(graph, path),
        path.len() >= 1,
    ensures
        found.0 == 0 ==> settled::<P, D>(graph, dist, path.last() as int) && (
        dist[path.last() as int] matches Some(known) && at_most::<P, D>(
            known,
            path_cost::<P, D>(graph, path),
        )),
        found.0 != 0 ==> 1 <= found.0 <= path.len() && 0 <= found.1 < queue.len()
            && queue[found.1].position == path[found.0 - 1] && at_most::<P, D>(
            queue[found.1].distance_total,
            path_cost::<P, D>(graph, path.take(found.0)),
        ),
    decreases path.len(),
{
    let last = path.last() as int;
    assert(graph.in_range(path.len() - 1, path[path.len() - 1] as int));
    assert(path.take(path.len() as int) == path);
    lemma_cost_valid::<P, D>(valid, graph, path);
    if path.len() == 1 {
        assert(dist[last] == Some(distance_of(graph, last)));
        lemma_at_most_itself::<P, D>(valid, distance_of(graph, last));
        if pending(dist, queue, last) {
            let i = choose|i: int|
                0 <= i < queue.len() && (#[trigger] queue[i]).position == last && dist[last]
                    == Some(queue[i].distance_total);
            (1, i)
        } else {
            (0, 0)
        }
    } else {
        let shorter = path.drop_last();
        lemma_prefix_take(graph, path, path.len() - 1);
        assert(path.take(path.len() - 1) == shorter);
        let found = lemma_frontier::<P, D>(valid, graph, dist, prev, queue, shorter);
        if found.0 != 0 {
            assert(shorter.take(found.0) == path.take(found.0));
            assert(shorter[found.0 - 1] == path[found.0 - 1]);
            found
        } else {
            let before = shorter.last() as int;
            assert(before == path[path.len() - 2]);
            assert(graph.in_range(path.len() - 2, before));
            assert(graph.cut_of(path[path.len() - 2] as int) <= graph.cut_of(
                path[path.len() - 2 + 1] as int,
            ));
            assert(is_child(graph, before, last));
            let known = dist[before].unwrap();
            let reached = dist[last].unwrap();
            lemma_cost_valid::<P, D>(valid, graph, shorter);
            lemma_total_keeps_order::<P, D>(
                valid,
                known,
                path_cost::<P, D>(graph, shorter),
                distance_of(graph, last),
            );
            lemma_at_most_chain::<P, D>(
                valid,
                reached,
                P::total(known, distance_of(graph, last)),
                path_cost::<P, D>(graph, path),
            );
            if pending(dist, queue, last) {
                let i = choose|i: int|
                    0 <= i < queue.len() && (#[trigger] queue[i]).position == last && dist[last]
                        == Some(queue[i].distance_total);
                (path.len() as int, i)
            } else {
                (0, 0)
            }
        }
    }
}


/// Before the first state is taken from the queue: the first layer is reached, each
/// of its vertices with its own distance, and waits in the queue.
pub proof fn lemma_cheapest_first<P: PolySplit<D>, D: Copy>(
    valid: spec_fn(D) -> bool,
    graph: Graph<D>,
    dist: Seq<Option<D>>,
    prev: Seq<Option<usize>>,
    queue: Seq<State<D>>,
)
    requires
        premises::<P, D>(graph, valid),
        graph.wf(),
        search_wf(graph, dist, prev, queue),
        forall|vertex: int| #[trigger] graph.in_range(0, vertex) ==> dist[vertex] is Some,
        forall|vertex: int|
            0 <= vertex < dist.len() && (#[trigger] dist[vertex]) is Some ==> graph.layer_of(vertex)
                == 0 && dist[vertex] == Some(distance_of(graph, vertex)) && pending(
                dist,
                queue,
                vertex,
            ),
        forall|i: int|
            0 <= i < queue.len() ==> dist[(#[trigger] queue[i]).position as int] == Some(
                queue[i].distance_total,
            ),
        forall|vertex: int| 0 <= vertex < prev.len() ==> (#[trigger] prev[vertex]) is None,
    ensures
        cheapest_inv::<P, D>(valid, graph, dist, prev, queue),
{
    assert forall|vertex: int| 0 <= vertex < dist.len() implies (
    #[trigger] dist[vertex] matches Some(known) ==> valid(known) && realized::<P, D>(
        graph,
        dist,
        vertex,
    )) by {
        if dist[vertex] is Some {
            let path = seq![vertex as usize];
            assert(graph.in_range(graph.layer_of(vertex), vertex));
            assert(ends_at(graph, path, vertex));
            lemma_at_most_itself::<P, D>(valid, distance_of(graph, vertex));
        }
    }
    assert forall|i: int| 0 <= i < queue.len() implies valid(
        (#[trigger] queue[i]).distance_total,
    ) by {
        assert(dist[queue[i].position as int] is Some);
    }
}

/// What the search keeps about total distances holds on when a state leaves the
/// queue.
pub proof fn lemma_base_after_remove<P: PolySplit<D>, D: Copy>(
    valid: spec_fn(D) -> bool,
    graph: Graph<D>,
    dist: Seq<Option<D>>,
    prev: Seq<Option<usize>>,
    queue: Seq<State<D>>,
    index: int,
)
    requires
        cheapest_base::<P, D>(valid, graph, dist, prev, queue),
        0 <= index < queue.len(),
    ensures
        cheapest_base::<P, D>(valid, graph, dist, prev, queue.remove(index)),
{
    let rest = queue.remove(index);
    queue.remove_ensures(index);
    assert forall|i: int| 0 <= i < rest.len() implies valid((#[trigger] rest[i]).distance_total)
        && (dist[rest[i].position as int] matches Some(known) && (rest[i].distance_total == known
        || P::exceeds(rest[i].distance_total, known))) by {
        if i < index {
            assert(rest[i] == queue[i]);
        } else {
            assert(rest[i] == queue[i + 1]);
        }
    }
}

/// Dropping a state that the search has overtaken.
pub proof fn lemma_cheapest_skip<P: PolySplit<D>, D: Copy>(
    valid: spec_fn(D) -> bool,
    graph: Graph<D>,
    dist: Seq<Option<D>>,
    prev: Seq<Option<usize>>,
    queue: Seq<State<D>>,
    index: int,
)
    requires
        premises::<P, D>(graph, valid),
        search_wf(graph, dist, prev, queue),
        cheapest_inv::<P, D>(valid, graph, dist, prev, queue),
        0 <= index < queue.len(),
        dist[queue[index].position as int] matches Some(known) && P::exceeds(
            queue[index].distance_total,
            known,
        ),
    ensures
        cheapest_inv::<P, D>(valid, graph, dist, prev, queue.remove(index)),
{
    let rest = queue.remove(index);
    lemma_base_after_remove::<P, D>(valid, graph, dist, prev, queue, index);
    let known = dist[queue[index].position as int].unwrap();
    lemma_at_most_itself::<P, D>(valid, known);
    assert forall|vertex: int|
        0 <= vertex < dist.len() && (#[trigger] dist[vertex]) is Some implies pending(
        dist,
        rest,
        vertex,
    ) || settled::<P, D>(graph, dist, vertex) by {
        if pending(dist, queue, vertex) {
            lemma_pending_after_remove(dist, queue, index, vertex);
        }
    }
}

/// The total distance of a state before which no state of the queue goes exceeds
/// that of no path prefix which ends at its vertex, where the search has not
/// overtaken the state.
pub proof fn lemma_popped_best<P: PolySplit<D>, D: Copy>(
    valid: spec_fn(D) -> bool,
    graph: Graph<D>,
    dist: Seq<Option<D>>,
    prev: Seq<Option<usize>>,
    queue: Seq<State<D>>,
    index: int,
    path: Seq<usize>,
)
    requires
        premises::<P, D>(graph, valid),
        graph.wf(),
        search_wf(graph, dist, prev, queue),
        cheapest_inv::<P, D>(valid, graph, dist, prev, queue),
        0 <= index < queue.len(),
        first_in_line::<P, D>(queue, index),
        dist[queue[index].position as int] == Some(queue[index].distance_total),
        ends_at(graph, path, queue[index].position as int),
    ensures
        at_most::<P, D>(queue[index].distance_total, path_cost::<P, D>(graph, path)),
{
    let popped = queue[index].distance_total;
    let found = lemma_frontier::<P, D>(valid, graph, dist, prev, queue, path);
    if found.0 != 0 {
        let waiting = queue[found.1].distance_total;
        assert(!goes_first::<P, D>(queue[found.1], queue[index]));
        lemma_cost_grows::<P, D>(valid, graph, path, found.0);
        lemma_at_most_chain::<P, D>(
            valid,
            popped,
            waiting,
            path_cost::<P, D>(graph, path.take(found.0)),
        );
        lemma_at_most_chain::<P, D>(
            valid,
            popped,
            path_cost::<P, D>(graph, path.take(found.0)),
            path_cost::<P, D>(graph, path),
        );
    }
}

/// Taking out of the queue a state before which none goes, where the search has
/// not overtaken it: the total distance known for its vertex is the least one.
pub proof fn lemma_cheapest_settle<P: PolySplit<D>, D: Copy>(
    valid: spec_fn(D) -> bool,
    graph: Graph<D>,
    dist: Seq<Option<D>>,
    prev: Seq<Option<usize>>,
    queue: Seq<State<D>>,
    index: int,
)
    requires
        premises::<P, D>(graph, valid),
        graph.wf(),
        search_wf(graph, dist, prev, queue),
        cheapest_inv::<P, D>(valid, graph, dist, prev, queue),
        0 <= index < queue.len(),
        first_in_line::<P, D>(queue, index),
        dist[queue[index].position as int] matches Some(known) && !P::exceeds(
            queue[index].distance_total,
            known,
        ),
    ensures
        cheapest_during::<P, D>(
            valid,
            graph,
            dist,
            prev,
            queue.remove(index),
            queue[index].position as int,
            queue[index].distance_total,
            graph.edges@[graph.layer_of(queue[index].position as int) + 1].0 as int,
        ),
{
    let parent = queue[index].position as int;
    let popped = queue[index].distance_total;
    let rest = queue.remove(index);
    lemma_base_after_remove::<P, D>(valid, graph, dist, prev, queue, index);
    assert(dist[parent] == Some(popped));
    assert forall|vertex: int|
        0 <= vertex < dist.len() && (#[trigger] dist[vertex]) is Some && vertex
            != parent implies pending(dist, rest, vertex) || settled::<P, D>(
        graph,
        dist,
        vertex,
    ) by {
        if pending(dist, queue, vertex) {
            lemma_pending_after_remove(dist, queue, index, vertex);
        }
    }
    assert forall|path: Seq<usize>| #[trigger] ends_at(graph, path, parent) implies at_most::<
        P,
        D,
    >(popped, path_cost::<P, D>(graph, path)) by {
        lemma_popped_best::<P, D>(valid, graph, dist, prev, queue, index, path);
    }
    assert forall|child: int| #[trigger]
        is_child(graph, parent, child) && child < graph.edges@[graph.layer_of(parent) + 1].0
        implies (dist[child] matches Some(reached) && at_most::<P, D>(
        reached,
        P::total(popped, distance_of(graph, child)),
    )) by {}
}

/// Passing on from `parent` to the vertex `child` of the next layer.
///
/// Either nothing changes, because no path may step from `parent` to `child` or
/// because the total distance known for `child` does not exceed the new one; or the
/// new total distance becomes the known one, `parent` the predecessor, and a state
/// for `child` joins the queue.
pub proof fn lemma_cheapest_step<P: PolySplit<D>, D: Copy>(
    valid: spec_fn(D) -> bool,
    graph: Graph<D>,
    dist: Seq<Option<D>>,
    prev: Seq<Option<usize>>,
    queue: Seq<State<D>>,
    parent: int,
    popped: D,
    child: int,
    new_dist: Seq<Option<D>>,
    new_prev: Seq<Option<usize>>,
    new_queue: Seq<State<D>>,
)
    requires
        premises::<P, D>(graph, valid),
        graph.wf(),
        search_wf(graph, dist, prev, queue),
        0 <= parent < dist.len(),
        graph.in_range(graph.layer_of(parent) + 1, child),
        cheapest_during::<P, D>(valid, graph, dist, prev, queue, parent, popped, child),
        ({
            let relaxed = P::total(popped, distance_of(graph, child));
            let improves = is_child(graph, parent, child) && (dist[child] matches Some(reached)
                ==> P::exceeds(reached, relaxed));
            if improves {
                &&& new_dist == dist.update(child, Some(relaxed))
                &&& new_prev == prev.update(child, Some(parent as usize))
                &&& new_queue == queue.push(
                    State { distance_total: relaxed, position: child as usize },
                )
            } else {
                new_dist == dist && new_prev == prev && new_queue == queue
            }
        }),
    ensures
        cheapest_during::<P, D>(
            valid,
            graph,
            new_dist,
            new_prev,
            new_queue,
            parent,
            popped,
            child + 1,
        ),
{
    let known = popped;
    let own = distance_of(graph, child);
    let relaxed = P::total(known, own);
    let improves = is_child(graph, parent, child) && (dist[child] matches Some(reached)
        ==> P::exceeds(reached, relaxed));
    assert(graph.layer_of(child) == graph.layer_of(parent) + 1);
    assert(valid(known));
    assert(valid(own));
    lemma_total_grows::<P, D>(valid, known, own);
    lemma_at_most_itself::<P, D>(valid, relaxed);
    if !improves {
        return ;
    }
    let state = State { distance_total: relaxed, position: child as usize };
    // What was known for the child before, if anything, exceeds the new total distance.
    if dist[child] is Some {
        lemma_exceeded_at_most::<P, D>(valid, dist[child].unwrap(), relaxed);
    }
    assert forall|vertex: int| #[trigger] graph.in_range(0, vertex) implies new_dist[vertex]
        == Some(distance_of(graph, vertex)) by {
        assert(graph.layer_of(vertex) == 0);
    }
    assert forall|vertex: int| 0 <= vertex < new_dist.len() implies (
    #[trigger] new_dist[vertex] matches Some(now) ==> valid(now) && realized::<P, D>(
        graph,
        new_dist,
        vertex,
    )) by {
        if vertex == child {
            let to_parent = choose|path: Seq<usize>| #[trigger]
                ends_at(graph, path, parent) && at_most::<P, D>(
                    path_cost::<P, D>(graph, path),
                    known,
                );
            lemma_prefix_push::<P, D>(graph, to_parent, child as usize);
            lemma_cost_valid::<P, D>(valid, graph, to_parent);
            lemma_total_keeps_order::<P, D>(
                valid,
                path_cost::<P, D>(graph, to_parent),
                known,
                own,
            );
            assert(ends_at(graph, to_parent.push(child as usize), child));
        } else if new_dist[vertex] is Some {
            assert(dist[vertex] is Some);
            let to_vertex = choose|path: Seq<usize>| #[trigger]
                ends_at(graph, path, vertex) && at_most::<P, D>(
                    path_cost::<P, D>(graph, path),
                    dist[vertex].unwrap(),
                );
            assert(ends_at(graph, to_vertex, vertex));
        }
    }
    assert forall|i: int| 0 <= i < new_queue.len() implies valid(
        (#[trigger] new_queue[i]).distance_total,
    ) && (new_dist[new_queue[i].position as int] matches Some(now) && (
    new_queue[i].distance_total == now || P::exceeds(new_queue[i].distance_total, now))) by {
        if i < queue.len() {
            assert(new_queue[i] == queue[i]);
            if queue[i].position == child {
                let before = dist[child].unwrap();
                if queue[i].distance_total != before {
                    lemma_exceeds_chain::<P, D>(valid, queue[i].distance_total, before, relaxed);
                }
            }
        }
    }
    assert forall|to: int| 0 <= to < new_prev.len() implies (
    #[trigger] new_prev[to] matches Some(from) ==> (new_dist[from as int] matches Some(before)
        && new_dist[to] matches Some(after) && at_most::<P, D>(
        P::total(before, distance_of(graph, to)),
        after,
    ))) by {
        if to != child {
            if prev[to] is Some {
                let from = prev[to].unwrap();
                if from == child {
                    let before = dist[child].unwrap();
                    let after = dist[to].unwrap();
                    assert(valid(distance_of(graph, to)));
                    lemma_total_keeps_order::<P, D>(
                        valid,
                        relaxed,
                        before,
                        distance_of(graph, to),
                    );
                    lemma_at_most_chain::<P, D>(
                        valid,
                        P::total(relaxed, distance_of(graph, to)),
                        P::total(before, distance_of(graph, to)),
                        after,
                    );
                }
            }
        }
    }
    assert forall|vertex: int|
        0 <= vertex < new_dist.len() && (#[trigger] new_dist[vertex]) is Some && vertex
            != parent implies pending(new_dist, new_queue, vertex) || settled::<P, D>(
        graph,
        new_dist,
        vertex,
    ) by {
        if vertex == child {
            assert(new_queue[queue.len() as int] == state);
        } else {
            assert(dist[vertex] is Some);
            if pending(dist, queue, vertex) {
                lemma_pending_after_push(dist, queue, state, vertex);
                let i = choose|i: int|
                    0 <= i < new_queue.len() && (#[trigger] new_queue[i]).position == vertex
                        && dist[vertex] == Some(new_queue[i].distance_total);
                assert(new_dist[vertex] == Some(new_queue[i].distance_total));
            } else {
                lemma_settled_kept::<P, D>(valid, graph, dist, vertex, child, relaxed);
            }
        }
    }
    assert(best_known::<P, D>(graph, new_dist, parent)) by {
        assert forall|path: Seq<usize>| #[trigger] ends_at(graph, path, parent) implies at_most::<
            P,
            D,
        >(known, path_cost::<P, D>(graph, path)) by {}
    }
    assert forall|next: int| #[trigger]
        is_child(graph, parent, next) && next < child + 1 implies (
    new_dist[next] matches Some(reached) && at_most::<P, D>(
        reached,
        P::total(known, distance_of(graph, next)),
    )) by {}
}

/// A settled vertex stays settled when the total distance known for another vertex
/// becomes smaller.
pub proof fn lemma_settled_kept<P: PolySplit<D>, D: Copy>(
    valid: spec_fn(D) -> bool,
    graph: Graph<D>,
    dist: Seq<Option<D>>,
    vertex: int,
    child: int,
    relaxed: D,
)
    requires
        ordered_on::<P, D>(valid),
        graph_valid(graph, valid),
        graph.wf(),
        dist.len() == graph.vertexes@.len(),
        0 <= vertex < dist.len(),
        0 <= child < dist.len(),
        vertex != child,
        settled::<P, D>(graph, dist, vertex),
        valid(relaxed),
        forall|other: int|
            0 <= other < dist.len() ==> (#[trigger] dist[other] matches Some(known) ==> valid(
                known,
            )),
        dist[child] matches Some(before) ==> at_most::<P, D>(relaxed, before),
    ensures
        settled::<P, D>(graph, dist.update(child, Some(relaxed)), vertex),
{
    let new_dist = dist.update(child, Some(relaxed));
    let known = dist[vertex].unwrap();
    assert(valid(known));
    assert forall|path: Seq<usize>| #[trigger] ends_at(graph, path, vertex) implies at_most::<
        P,
        D,
    >(known, path_cost::<P, D>(graph, path)) by {}
    assert forall|next: int| #[trigger]
        is_child(graph, vertex, next) && next < new_dist.len() implies (
    new_dist[next] matches Some(reached) && at_most::<P, D>(
        reached,
        P::total(known, distance_of(graph, next)),
    )) by {
        if next == child {
            let before = dist[child].unwrap();
            assert(valid(before));
            assert(valid(distance_of(graph, next)));
            lemma_total_grows::<P, D>(valid, known, distance_of(graph, next));
            lemma_at_most_chain::<P, D>(
                valid,
                relaxed,
                before,
                P::total(known, distance_of(graph, next)),
            );
        }
    }
}

/// Having passed on from `parent` to every vertex of the next layer.
pub proof fn lemma_cheapest_finish<P: PolySplit<D>, D: Copy>(
    valid: spec_fn(D) -> bool,
    graph: Graph<D>,
    dist: Seq<Option<D>>,
    prev: Seq<Option<usize>>,
    queue: Seq<State<D>>,
    parent: int,
    popped: D,
)
    requires
        graph.wf(),
        dist.len() == graph.vertexes@.len(),
        0 <= parent < dist.len(),
        graph.layer_of(parent) + 1 < graph.layers(),
        cheapest_during::<P, D>(
            valid,
            graph,
            dist,
            prev,
            queue,
            parent,
            popped,
            graph.edges@[graph.layer_of(parent) + 1].1 as int,
        ),
    ensures
        cheapest_inv::<P, D>(valid, graph, dist, prev, queue),
{
    let known = dist[parent].unwrap();
    assert forall|child: int| #[trigger]
        is_child(graph, parent, child) && child < dist.len() implies (
    dist[child] matches Some(reached) && at_most::<P, D>(
        reached,
        P::total(known, distance_of(graph, child)),
    )) by {}
}


/// Whether each vertex of `path` but the first has the vertex before it as its
/// predecessor.
pub open spec fn follows_back(prev: Seq<Option<usize>>, path: Seq<usize>) -> bool {
    forall|layer: int|
        0 <= layer < path.len() - 1 ==> prev[#[trigger] path[layer + 1] as int] == Some(path[layer])
}

/// The total distance along the predecessors of a vertex does not exceed the total
/// distance known for the vertex.
pub proof fn lemma_chain<P: PolySplit<D>, D: Copy>(
    valid: spec_fn(D) -> bool,
    graph: Graph<D>,
    dist: Seq<Option<D>>,
    prev: Seq<Option<usize>>,
    queue: Seq<State<D>>,
    path: Seq<usize>,
    length: int,
)
    requires
        premises::<P, D>(graph, valid),
        graph.wf(),
        search_wf(graph, dist, prev, queue),
        cheapest_base::<P, D>(valid, graph, dist, prev, queue),
        is_path_prefix(graph, path),
        follows_back(prev, path),
        1 <= length <= path.len(),
    ensures
        dist[path[length - 1] as int] matches Some(known) && valid(known) && at_most::<P, D>(
            path_cost::<P, D>(graph, path.take(length)),
            known,
        ),
    decreases length,
{
    let vertex = path[length - 1] as int;
    assert(graph.in_range(length - 1, path[length - 1] as int));
    lemma_prefix_take(graph, path, length);
    lemma_cost_valid::<P, D>(valid, graph, path.take(length));
    if length == 1 {
        assert(graph.in_range(0, path[0] as int));
        assert(path.take(1)[0] == path[0]);
        lemma_at_most_itself::<P, D>(valid, distance_of(graph, vertex));
    } else {
        lemma_chain::<P, D>(valid, graph, dist, prev, queue, path, length - 1);
        let from = path[length - 2] as int;
        assert(prev[path[length - 2 + 1] as int] == Some(path[length - 2]));
        let before = dist[from].unwrap();
        let after = dist[vertex].unwrap();
        assert(path.take(length).drop_last() == path.take(length - 1));
        assert(path.take(length).last() == path[length - 1]);
        lemma_prefix_take(graph, path, length - 1);
        lemma_cost_valid::<P, D>(valid, graph, path.take(length - 1));
        lemma_total_keeps_order::<P, D>(
            valid,
            path_cost::<P, D>(graph, path.take(length - 1)),
            before,
            distance_of(graph, vertex),
        );
        lemma_at_most_chain::<P, D>(
            valid,
            path_cost::<P, D>(graph, path.take(length)),
            P::total(before, distance_of(graph, vertex)),
            after,
        );
    }
}

/// When a state before which no state of the queue goes is one of the last layer,
/// the path that leads to its vertex along the predecessors is the cheapest.
pub proof fn lemma_cheapest_found<P: PolySplit<D>, D: Copy>(
    valid: spec_fn(D) -> bool,
    graph: Graph<D>,
    dist: Seq<Option<D>>,
    prev: Seq<Option<usize>>,
    queue: Seq<State<D>>,
    index: int,
    path: Seq<usize>,
)
    requires
        premises::<P, D>(graph, valid),
        graph.wf(),
        search_wf(graph, dist, prev, queue),
        cheapest_inv::<P, D>(valid, graph, dist, prev, queue),
        0 <= index < queue.len(),
        first_in_line::<P, D>(queue, index),
        is_path(graph, path),
        path.len() >= 1,
        follows_back(prev, path),
        path.last() == queue[index].position,
    ensures
        cheapest::<P, D>(graph, path),
{
    let popped = queue[index].distance_total;
    let last = path.last() as int;
    let known = dist[last].unwrap();
    lemma_chain::<P, D>(valid, graph, dist, prev, queue, path, path.len() as int);
    assert(path.take(path.len() as int) == path);
    if popped != known {
        lemma_exceeded_at_most::<P, D>(valid, popped, known);
    } else {
        lemma_at_most_itself::<P, D>(valid, known);
    }
    lemma_cost_valid::<P, D>(valid, graph, path);
    lemma_at_most_chain::<P, D>(valid, path_cost::<P, D>(graph, path), known, popped);
    assert forall|other: Seq<usize>| #[trigger] is_path(graph, other) implies at_most::<P, D>(
        path_cost::<P, D>(graph, path),
        path_cost::<P, D>(graph, other),
    ) by {
        let found = lemma_frontier::<P, D>(valid, graph, dist, prev, queue, other);
        assert(graph.in_range(other.len() - 1, other[other.len() - 1] as int));
        assert(found.0 != 0);
        let waiting = queue[found.1].distance_total;
        assert(!goes_first::<P, D>(queue[found.1], queue[index]));
        lemma_cost_grows::<P, D>(valid, graph, other, found.0);
        lemma_at_most_chain::<P, D>(
            valid,
            path_cost::<P, D>(graph, path),
            popped,
            waiting,
        );
        lemma_at_most_chain::<P, D>(
            valid,
            path_cost::<P, D>(graph, path),
            waiting,
            path_cost::<P, D>(graph, other.take(found.0)),
        );
        lemma_at_most_chain::<P, D>(
            valid,
            path_cost::<P, D>(graph, path),
            path_cost::<P, D>(graph, other.take(found.0)),
            path_cost::<P, D>(graph, other),
        );
    }
}


/// What the search keeps between two states taken from the queue, whichever
/// distances are taken as the valid ones.
pub open spec fn cheapest_kept<P: PolySplit<D>, D: Copy>(
    graph: Graph<D>,
    dist: Seq<Option<D>>,
    prev: Seq<Option<usize>>,
    queue: Seq<State<D>>,
) -> bool {
    forall|valid: spec_fn(D) -> bool| #[trigger]
        premises::<P, D>(graph, valid) ==> cheapest_inv::<P, D>(valid, graph, dist, prev, queue)
}

/// Whether the distances of all the states are valid, whichever distances are taken
/// as the valid ones.
pub open spec fn states_valid<P: PolySplit<D>, D: Copy>(
    graph: Graph<D>,
    states: Seq<State<D>>,
) -> bool {
    forall|valid: spec_fn(D) -> bool| #[trigger]
        premises::<P, D>(graph, valid) ==> all_valid(states, valid)
}

/// What the search keeps while it passes on from `parent`, whichever distances are
/// taken as the valid ones.
pub open spec fn cheapest_kept_during<P: PolySplit<D>, D: Copy>(
    graph: Graph<D>,
    dist: Seq<Option<D>>,
    prev: Seq<Option<usize>>,
    queue: Seq<State<D>>,
    parent: int,
    popped: D,
    upto: int,
) -> bool {
    forall|valid: spec_fn(D) -> bool| #[trigger]
        premises::<P, D>(graph, valid) ==> cheapest_during::<P, D>(
            valid,
            graph,
            dist,
            prev,
            queue,
            parent,
            popped,
            upto,
        )
}

} // verus!
