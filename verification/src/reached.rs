//! Why the search misses no path: every vertex that a path can pass is reached
//! before the queue runs empty.
use vstd::prelude::*;
use crate::graph::Graph;
use crate::metric::PolySplit;
use crate::path::is_path_prefix;
use crate::queue::State;

verus! {

/// Whether no distance exceeds itself.
pub open spec fn strict<P: PolySplit<D>, D: Copy>() -> bool {
    forall|distance: D| !#[trigger] P::exceeds(distance, distance)
}

/// Whether the queue holds the vertex with the total distance that the search knows
/// for it: the vertex is still waiting to be looked at.
pub open spec fn pending<D>(dist: Seq<Option<D>>, queue: Seq<State<D>>, vertex: int) -> bool {
    exists|i: int|
        0 <= i < queue.len() && (#[trigger] queue[i]).position == vertex && dist[vertex] == Some(
            queue[i].distance_total,
        )
}

/// Whether a path may step from `parent` to `child`.
pub open spec fn is_child<D>(graph: Graph<D>, parent: int, child: int) -> bool {
    &&& graph.in_range(graph.layer_of(parent) + 1, child)
    &&& graph.cut_of(parent) <= graph.cut_of(child)
}

/// Whether the search has reached every vertex that a path may step to from `vertex`.
pub open spec fn spread<D>(graph: Graph<D>, dist: Seq<Option<D>>, vertex: int) -> bool {
    forall|child: int| #[trigger] is_child(graph, vertex, child) ==> dist[child] is Some
}

/// What the search keeps between two states taken from the queue: the first layer is
/// reached, and every reached vertex either waits in the queue or lies before the
/// last layer and has passed the search on to the next one.
pub open spec fn reached_inv<D>(graph: Graph<D>, dist: Seq<Option<D>>, queue: Seq<State<D>>) -> bool {
    &&& forall|vertex: int| #[trigger] graph.in_range(0, vertex) ==> dist[vertex] is Some
    &&& forall|vertex: int|
        0 <= vertex < dist.len() && (#[trigger] dist[vertex]) is Some ==> pending(
            dist,
            queue,
            vertex,
        ) || (graph.layer_of(vertex) + 1 < graph.layers() && spread(graph, dist, vertex))
}

/// What the search keeps while it passes on from `parent` to the vertices of the
/// next layer, having dealt with those before `upto`.
pub open spec fn reached_during<D>(
    graph: Graph<D>,
    dist: Seq<Option<D>>,
    queue: Seq<State<D>>,
    parent: int,
    upto: int,
) -> bool {
    &&& forall|vertex: int| #[trigger] graph.in_range(0, vertex) ==> dist[vertex] is Some
    &&& forall|vertex: int|
        0 <= vertex < dist.len() && (#[trigger] dist[vertex]) is Some && vertex != parent
            ==> pending(dist, queue, vertex) || (graph.layer_of(vertex) + 1 < graph.layers()
            && spread(graph, dist, vertex))
    &&& forall|child: int| #[trigger] is_child(graph, parent, child) && child < upto ==> dist[child] is Some
}

/// A vertex that waits in the queue still waits after another state has left it.
pub proof fn lemma_pending_after_remove<D>(
    dist: Seq<Option<D>>,
    queue: Seq<State<D>>,
    index: int,
    vertex: int,
)
    requires
        0 <= index < queue.len(),
        pending(dist, queue, vertex),
        queue[index].position != vertex || dist[vertex] != Some(queue[index].distance_total),
    ensures
        pending(dist, queue.remove(index), vertex),
{
    let i = choose|i: int|
        0 <= i < queue.len() && (#[trigger] queue[i]).position == vertex && dist[vertex] == Some(
            queue[i].distance_total,
        );
    queue.remove_ensures(index);
    if i < index {
        assert(queue.remove(index)[i] == queue[i]);
    } else {
        assert(queue.remove(index)[i - 1] == queue[i]);
    }
}

/// A vertex that waits in the queue still waits after a state has joined the queue.
pub proof fn lemma_pending_after_push<D>(
    dist: Seq<Option<D>>,
    queue: Seq<State<D>>,
    state: State<D>,
    vertex: int,
)
    requires
        pending(dist, queue, vertex),
    ensures
        pending(dist, queue.push(state), vertex),
{
    let i = choose|i: int|
        0 <= i < queue.len() && (#[trigger] queue[i]).position == vertex && dist[vertex] == Some(
            queue[i].distance_total,
        );
    assert(queue.push(state)[i] == queue[i]);
}

/// Dropping a state that the search has overtaken keeps what the search keeps.
pub proof fn lemma_reached_skip<P: PolySplit<D>, D: Copy>(
    graph: Graph<D>,
    dist: Seq<Option<D>>,
    queue: Seq<State<D>>,
    index: int,
)
    requires
        strict::<P, D>(),
        reached_inv(graph, dist, queue),
        0 <= index < queue.len(),
        dist[queue[index].position as int] matches Some(known) && P::exceeds(
            queue[index].distance_total,
            known,
        ),
    ensures
        reached_inv(graph, dist, queue.remove(index)),
{
    assert forall|vertex: int|
        0 <= vertex < dist.len() && (#[trigger] dist[vertex]) is Some implies pending(
        dist,
        queue.remove(index),
        vertex,
    ) || (graph.layer_of(vertex) + 1 < graph.layers() && spread(graph, dist, vertex)) by {
        if pending(dist, queue, vertex) {
            lemma_pending_after_remove(dist, queue, index, vertex);
        }
    }
}

/// Taking a state out of the queue to pass on from its vertex.
pub proof fn lemma_reached_start<D>(
    graph: Graph<D>,
    dist: Seq<Option<D>>,
    queue: Seq<State<D>>,
    index: int,
)
    requires
        graph.wf(),
        reached_inv(graph, dist, queue),
        0 <= index < queue.len(),
        graph.layer_of(queue[index].position as int) + 1 < graph.layers(),
    ensures
        reached_during(
            graph,
            dist,
            queue.remove(index),
            queue[index].position as int,
            graph.edges@[graph.layer_of(queue[index].position as int) + 1].0 as int,
        ),
{
    let parent = queue[index].position as int;
    assert forall|vertex: int|
        0 <= vertex < dist.len() && (#[trigger] dist[vertex]) is Some && vertex
            != parent implies pending(dist, queue.remove(index), vertex) || (graph.layer_of(vertex)
        + 1 < graph.layers() && spread(graph, dist, vertex)) by {
        if pending(dist, queue, vertex) {
            lemma_pending_after_remove(dist, queue, index, vertex);
        }
    }
}

/// Passing on to a vertex of the next layer: the vertex is reached, and where its
/// total distance changes it joins the queue with the new one.
pub proof fn lemma_reached_step<D>(
    graph: Graph<D>,
    dist: Seq<Option<D>>,
    queue: Seq<State<D>>,
    parent: int,
    child: int,
    new_dist: Seq<Option<D>>,
    new_queue: Seq<State<D>>,
)
    requires
        graph.wf(),
        0 <= child < dist.len() == graph.vertexes@.len(),
        graph.in_range(graph.layer_of(parent) + 1, child),
        reached_during(graph, dist, queue, parent, child),
        new_dist == dist && new_queue == queue && (is_child(graph, parent, child)
            ==> dist[child] is Some) || exists|total: D|
            new_dist == dist.update(child, Some(total)) && new_queue == queue.push(
                State { distance_total: total, position: child as usize },
            ),
    ensures
        reached_during(graph, new_dist, new_queue, parent, child + 1),
{
    if new_dist == dist && new_queue == queue && (is_child(graph, parent, child)
        ==> dist[child] is Some) {
    } else {
        let total = choose|total: D|
            new_dist == dist.update(child, Some(total)) && new_queue == queue.push(
                State { distance_total: total, position: child as usize },
            );
        let state = State { distance_total: total, position: child as usize };
        assert forall|vertex: int|
            0 <= vertex < new_dist.len() && (#[trigger] new_dist[vertex]) is Some && vertex
                != parent implies pending(new_dist, new_queue, vertex) || (graph.layer_of(vertex)
            + 1 < graph.layers() && spread(graph, new_dist, vertex)) by {
            if vertex == child {
                assert(new_queue[queue.len() as int] == state);
            } else {
                assert(dist[vertex] is Some);
                if pending(dist, queue, vertex) {
                    lemma_pending_after_push(dist, queue, state, vertex);
                    let i = choose|i: int|
                        0 <= i < new_queue.len() && (#[trigger] new_queue[i]).position == vertex
                            && dist[vertex] == Some(new_queue[i].distance_total);
                    assert(new_dist[vertex] == Some(new_queue[i].distance_total));
                } else {
                    assert forall|next: int| #[trigger]
                        is_child(graph, vertex, next) implies new_dist[next] is Some by {
                        assert(dist[next] is Some);
                    }
                }
            }
        }
    }
}

/// Having passed on to every vertex of the next layer.
pub proof fn lemma_reached_finish<D>(
    graph: Graph<D>,
    dist: Seq<Option<D>>,
    queue: Seq<State<D>>,
    parent: int,
)
    requires
        graph.wf(),
        0 <= parent < dist.len(),
        graph.layer_of(parent) + 1 < graph.layers(),
        reached_during(
            graph,
            dist,
            queue,
            parent,
            graph.edges@[graph.layer_of(parent) + 1].1 as int,
        ),
    ensures
        reached_inv(graph, dist, queue),
{
    assert forall|vertex: int|
        0 <= vertex < dist.len() && (#[trigger] dist[vertex]) is Some implies pending(
        dist,
        queue,
        vertex,
    ) || (graph.layer_of(vertex) + 1 < graph.layers() && spread(graph, dist, vertex)) by {
        if vertex == parent {
            assert forall|child: int| #[trigger]
                is_child(graph, parent, child) implies dist[child] is Some by {}
        }
    }
}

/// With nothing left in the queue, the search has reached the last vertex of every
/// path prefix.
pub proof fn lemma_reached_all<D>(graph: Graph<D>, dist: Seq<Option<D>>, path: Seq<usize>)
    requires
        graph.wf(),
        dist.len() == graph.vertexes@.len(),
        reached_inv(graph, dist, Seq::<State<D>>::empty()),
        is_path_prefix(graph, path),
        path.len() >= 1,
    ensures
        dist[path.last() as int] is Some,
        graph.layer_of(path.last() as int) + 1 < graph.layers(),
    decreases path.len(),
{
    let last = path.last() as int;
    assert(graph.in_range(path.len() - 1, path[path.len() - 1] as int));
    if path.len() > 1 {
        let shorter = path.drop_last();
        assert forall|layer: int| 0 <= layer < shorter.len() implies graph.in_range(
            layer,
            #[trigger] shorter[layer] as int,
        ) by {
            assert(shorter[layer] == path[layer]);
        }
        assert forall|layer: int| 0 <= layer < shorter.len() - 1 implies graph.cut_of(
            #[trigger] shorter[layer] as int,
        ) <= graph.cut_of(shorter[layer + 1] as int) by {
            assert(shorter[layer] == path[layer]);
            assert(shorter[layer + 1] == path[layer + 1]);
        }
        lemma_reached_all(graph, dist, shorter);
        let before = shorter.last() as int;
        assert(before == path[path.len() - 2]);
        assert(graph.in_range(path.len() - 2, before));
        assert(!pending(dist, Seq::<State<D>>::empty(), before));
        assert(spread(graph, dist, before));
        assert(graph.cut_of(path[path.len() - 2] as int) <= graph.cut_of(
            path[path.len() - 2 + 1] as int,
        ));
        assert(is_child(graph, before, last));
    }
    assert(dist[last] is Some);
    assert(!pending(dist, Seq::<State<D>>::empty(), last));
}

/// With nothing left in the queue and nothing found, the graph has no path.
pub proof fn lemma_no_path<D>(graph: Graph<D>, dist: Seq<Option<D>>)
    requires
        graph.wf(),
        graph.layers() > 0,
        dist.len() == graph.vertexes@.len(),
        reached_inv(graph, dist, Seq::<State<D>>::empty()),
    ensures
        forall|path: Seq<usize>| !crate::path::is_path(graph, path),
{
    assert forall|path: Seq<usize>| !crate::path::is_path(graph, path) by {
        if crate::path::is_path(graph, path) {
            lemma_reached_all(graph, dist, path);
            assert(graph.in_range(path.len() - 1, path[path.len() - 1] as int));
        }
    }
}

} // verus!
