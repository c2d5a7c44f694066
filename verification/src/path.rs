//! The search for the cheapest way through the layered graph: one vertex in each
//! layer, never stepping back along the polyline.
use vstd::prelude::*;
use crate::cheapest::{
    cheapest, cheapest_during, cheapest_inv, cheapest_kept, cheapest_kept_during, distance_of,
    follows_back, lemma_cheapest_finish, lemma_cheapest_first, lemma_cheapest_found,
    lemma_cheapest_settle, lemma_cheapest_skip, lemma_cheapest_step, premises, states_valid,
};
use crate::error::{PolySplitError, PolySplitErrorKind};
use crate::graph::Graph;
use crate::metric::PolySplit;
use crate::queue::{all_valid, first_in_line, MinQueue, State};
use crate::reached::{
    lemma_no_path, lemma_reached_finish, lemma_reached_skip, lemma_reached_start,
    lemma_reached_step, pending, reached_during, reached_inv, strict,
};

verus! {

/// Whether `path` names one vertex of each of its layers, from the first layer on,
/// such that no vertex stands for an earlier catalog entry than the one before it.
pub open spec fn is_path_prefix<D>(graph: Graph<D>, path: Seq<usize>) -> bool {
    &&& path.len() <= graph.layers()
    &&& forall|layer: int| 0 <= layer < path.len() ==> graph.in_range(layer, #[trigger] path[layer] as int)
    &&& forall|layer: int|
        0 <= layer < path.len() - 1 ==> graph.cut_of(#[trigger] path[layer] as int) <= graph.cut_of(
            path[layer + 1] as int,
        )
}

/// Whether `path` is a way through the whole graph: a vertex of every layer, none of
/// which steps back.
pub open spec fn is_path<D>(graph: Graph<D>, path: Seq<usize>) -> bool {
    is_path_prefix(graph, path) && path.len() == graph.layers()
}

/// The total distance of a path: the distances of its vertices, added up from the
/// first to the last.
pub open spec fn path_cost<P: PolySplit<D>, D: Copy>(graph: Graph<D>, path: Seq<usize>) -> D
    decreases path.len(),
{
    if path.len() <= 1 {
        graph.vertexes@[path[0] as int].distance_to
    } else {
        P::total(
            path_cost::<P, D>(graph, path.drop_last()),
            graph.vertexes@[path.last() as int].distance_to,
        )
    }
}

/// An upper bound on the work that a state of a layer can still cause: itself, and
/// for each vertex of the graph one state of the next layer.
pub open spec fn weight(layers: int, size: int, layer: int) -> int
    decreases layers - layer,
{
    if layer + 1 >= layers {
        1
    } else {
        1 + size * weight(layers, size, layer + 1)
    }
}

/// The work that the states of a queue can still cause.
pub open spec fn queue_weight<D>(graph: Graph<D>, queue: Seq<State<D>>) -> int
    decreases queue.len(),
{
    if queue.len() == 0 {
        0
    } else {
        queue_weight(graph, queue.drop_last()) + weight(
            graph.layers(),
            graph.vertexes@.len() as int,
            graph.layer_of(queue.last().position as int),
        )
    }
}

/// Every state can cause some work.
proof fn lemma_weight_positive(layers: int, size: int, layer: int)
    requires
        0 <= size,
    ensures
        weight(layers, size, layer) >= 1,
    decreases layers - layer,
{
    if layer + 1 < layers {
        lemma_weight_positive(layers, size, layer + 1);
        assert(size * weight(layers, size, layer + 1) >= 0) by (nonlinear_arith)
            requires
                size >= 0,
                weight(layers, size, layer + 1) >= 1,
        ;
    }
}

/// The work that a queue can cause is not negative.
proof fn lemma_queue_weight_nonnegative<D>(graph: Graph<D>, queue: Seq<State<D>>)
    ensures
        queue_weight(graph, queue) >= 0,
    decreases queue.len(),
{
    if queue.len() > 0 {
        lemma_queue_weight_nonnegative(graph, queue.drop_last());
        lemma_weight_positive(
            graph.layers(),
            graph.vertexes@.len() as int,
            graph.layer_of(queue.last().position as int),
        );
    }
}

/// A state that joins the queue adds its work.
proof fn lemma_queue_weight_push<D>(graph: Graph<D>, queue: Seq<State<D>>, state: State<D>)
    ensures
        queue_weight(graph, queue.push(state)) == queue_weight(graph, queue) + weight(
            graph.layers(),
            graph.vertexes@.len() as int,
            graph.layer_of(state.position as int),
        ),
{
    assert(queue.push(state).drop_last() == queue);
}

/// A state that leaves the queue takes its work with it.
proof fn lemma_queue_weight_remove<D>(graph: Graph<D>, queue: Seq<State<D>>, index: int)
    requires
        0 <= index < queue.len(),
    ensures
        queue_weight(graph, queue.remove(index)) == queue_weight(graph, queue) - weight(
            graph.layers(),
            graph.vertexes@.len() as int,
            graph.layer_of(queue[index].position as int),
        ),
    decreases queue.len(),
{
    if index == queue.len() - 1 {
        assert(queue.remove(index) == queue.drop_last());
    } else {
        lemma_queue_weight_remove(graph, queue.drop_last(), index);
        assert(queue.remove(index).drop_last() == queue.drop_last().remove(index));
        assert(queue.remove(index).last() == queue.last());
    }
}

/// Whether the step from vertex `from` to vertex `to` is one that a path may take,
/// between two vertices that the search has reached.
pub open spec fn links<D>(graph: Graph<D>, dist: Seq<Option<D>>, from: int, to: int) -> bool {
    &&& 0 <= from < graph.vertexes@.len()
    &&& graph.layer_of(from) + 1 == graph.layer_of(to)
    &&& graph.cut_of(from) <= graph.cut_of(to)
    &&& dist[from] is Some
    &&& dist[to] is Some
}

/// What holds of the tables of the search at every moment: a vertex has a
/// predecessor exactly when it has been reached and does not lie in the first
/// layer, the step from the predecessor is one that a path may take, and the queue
/// holds reached vertices only.
pub open spec fn search_wf<D>(
    graph: Graph<D>,
    dist: Seq<Option<D>>,
    prev: Seq<Option<usize>>,
    queue: Seq<State<D>>,
) -> bool {
    &&& dist.len() == graph.vertexes@.len()
    &&& prev.len() == graph.vertexes@.len()
    &&& forall|to: int|
        0 <= to < prev.len() ==> (#[trigger] prev[to] matches Some(from) ==> links(
            graph,
            dist,
            from as int,
            to,
        ))
    &&& forall|to: int|
        0 <= to < dist.len() && (#[trigger] dist[to]) is Some && graph.layer_of(to) > 0
            ==> prev[to] is Some
    &&& forall|i: int|
        0 <= i < queue.len() ==> (#[trigger] queue[i]).position < dist.len()
            && dist[queue[i].position as int] is Some
}

/// Searches the cheapest path through the graph.
///
/// The search starts with the vertices of the first layer, each with its own
/// distance. It takes the state with the least total distance from the queue, drops
/// it where a smaller total distance is known for its vertex by now, and else passes
/// on to every vertex of the next layer that does not step back in the catalog: where
/// the total distance through the vertex taken is smaller than the one known, it
/// becomes the known one and a state for it joins the queue. The first state taken
/// that belongs to the last layer ends the search; the path leads back from its
/// vertex along the predecessors.
///
/// The path found is a path. Where distances are ordered, no path has a smaller
/// total distance. The search fails only where the queue runs empty; unless some
/// distance exceeds itself, the graph has no path then.
pub fn find_path<P: PolySplit<D>, D: Copy>(graph: &Graph<D>) -> (result: Result<
    Vec<usize>,
    PolySplitError,
>)
    requires
        graph.wf(),
        graph.layers() > 0,
    ensures
        match result {
            Ok(path) => {
                &&& is_path(*graph, path@)
                &&& forall|valid: spec_fn(D) -> bool| #[trigger]
                    premises::<P, D>(*graph, valid) ==> cheapest::<P, D>(*graph, path@)
            },
            Err(e) => {
                &&& e.wf()
                &&& e.kind == PolySplitErrorKind::CannotSplit
                &&& strict::<P, D>() ==> forall|path: Seq<usize>| !is_path(*graph, path)
            },
        },
{
    let vertexes_len = graph.vertexes.len();
    let layers = graph.edges.len();
    let mut dist: Vec<Option<D>> = Vec::new();
    let mut prev: Vec<Option<usize>> = Vec::new();
    let mut filled: usize = 0;
    while filled < vertexes_len
        invariant
            filled <= vertexes_len,
            dist@.len() == filled,
            prev@.len() == filled,
            forall|i: int| 0 <= i < filled ==> (#[trigger] dist@[i]) is None,
            forall|i: int| 0 <= i < filled ==> (#[trigger] prev@[i]) is None,
        decreases vertexes_len - filled,
    {
        dist.push(None);
        prev.push(None);
        filled = filled + 1;
    }
    let mut queue: MinQueue<D> = MinQueue::new::<P>();
    let (first_from, first_to) = graph.edges[0];
    let mut idx: usize = first_from;
    while idx < first_to
        invariant
            graph.wf(),
            graph.layers() > 0,
            vertexes_len == graph.vertexes@.len(),
            (first_from, first_to) == graph.edges@[0],
            first_from <= idx,
            queue.wf::<P>(),
            states_valid::<P, D>(*graph, queue.history()),
            dist@.len() == vertexes_len,
            prev@.len() == vertexes_len,
            forall|i: int| 0 <= i < vertexes_len ==> (#[trigger] prev@[i]) is None,
            forall|i: int|
                0 <= i < vertexes_len && (#[trigger] dist@[i]) is Some ==> graph.layer_of(i) == 0,
            forall|i: int|
                0 <= i < queue@.len() ==> (#[trigger] queue@[i]).position < vertexes_len
                    && dist@[queue@[i].position as int] is Some,
            forall|i: int| first_from <= i < idx && i < first_to ==> (#[trigger] dist@[i]) is Some,
            forall|i: int|
                0 <= i < vertexes_len && (#[trigger] dist@[i]) is Some ==> pending(
                    dist@,
                    queue@,
                    i,
                ) && dist@[i] == Some(distance_of(*graph, i)),
            forall|i: int|
                0 <= i < queue@.len() ==> dist@[(#[trigger] queue@[i]).position as int] == Some(
                    queue@[i].distance_total,
                ),
        decreases first_to - idx,
    {
        assert(graph.in_range(0, idx as int));
        let distance_to = graph.vertexes[idx].distance_to;
        let ghost dist_before = dist@;
        let ghost queue_before = queue@;
        let ghost history_before = queue.history();
        dist.set(idx, Some(distance_to));
        queue.push::<P>(State { distance_total: distance_to, position: idx });
        proof {
            assert forall|valid: spec_fn(D) -> bool| #[trigger]
                premises::<P, D>(*graph, valid) implies all_valid(queue.history(), valid) by {
                assert(all_valid(history_before, valid));
                assert forall|i: int| 0 <= i < queue.history().len() implies valid(
                    (#[trigger] queue.history()[i]).distance_total,
                ) by {
                    if i < history_before.len() {
                        assert(queue.history()[i] == history_before[i]);
                    } else {
                        assert(valid(graph.vertexes@[idx as int].distance_to));
                    }
                }
            }
            assert forall|i: int|
                0 <= i < queue@.len() implies dist@[(#[trigger] queue@[i]).position as int]
                == Some(queue@[i].distance_total) by {
                if i < queue_before.len() {
                    assert(queue@[i] == queue_before[i]);
                }
            }
            assert forall|i: int|
                0 <= i < vertexes_len && (#[trigger] dist@[i]) is Some implies pending(
                dist@,
                queue@,
                i,
            ) by {
                if i == idx {
                    assert(queue@[queue_before.len() as int].position == idx);
                } else {
                    assert(dist_before[i] is Some);
                    let at = choose|at: int|
                        0 <= at < queue_before.len() && (#[trigger] queue_before[at]).position == i
                            && dist_before[i] == Some(queue_before[at].distance_total);
                    assert(queue@[at] == queue_before[at]);
                }
            }
        }
        idx = idx + 1;
    }
    proof {
        assert forall|vertex: int| #[trigger] graph.in_range(0, vertex) implies dist@[vertex] is Some by {
            assert(dist@[vertex] is Some);
        }
        assert forall|valid: spec_fn(D) -> bool| #[trigger]
            premises::<P, D>(*graph, valid) implies cheapest_inv::<P, D>(
            valid,
            *graph,
            dist@,
            prev@,
            queue@,
        ) by {
            lemma_cheapest_first::<P, D>(valid, *graph, dist@, prev@, queue@);
        }
    }
    let ghost mut watched: Seq<State<D>> = queue@;
    let ghost mut taken: int = 0;
    let mut destination: Option<usize> = None;
    while !queue.is_empty::<P>()
        invariant_except_break
            destination is None,
            strict::<P, D>() ==> reached_inv(*graph, dist@, queue@),
            watched == queue@,
        invariant
            queue.wf::<P>(),
            states_valid::<P, D>(*graph, queue.history()),
            graph.wf(),
            graph.layers() > 0,
            layers == graph.layers(),
            vertexes_len == graph.vertexes@.len(),
            search_wf(*graph, dist@, prev@, queue@),
            destination matches Some(last) ==> last < vertexes_len && dist@[last as int] is Some
                && graph.layer_of(last as int) + 1 == layers && 0 <= taken < watched.len()
                && watched[taken].position == last && forall|valid: spec_fn(D) -> bool| #[trigger]
                premises::<P, D>(*graph, valid) ==> first_in_line::<P, D>(watched, taken),
            search_wf(*graph, dist@, prev@, watched),
            cheapest_kept::<P, D>(*graph, dist@, prev@, watched),
        ensures
            destination is None ==> queue@.len() == 0,
            destination is None && strict::<P, D>() ==> reached_inv(*graph, dist@, queue@),
        decreases queue_weight(*graph, queue@),
    {
        let ghost queue_before = queue@;
        let ghost history = queue.history();
        let popped = queue.pop::<P>();
        let state = popped.unwrap();
        let distance_total = state.distance_total;
        let position = state.position;
        let ghost index = choose|index: int|
            #![trigger queue_before[index]]
            {
                &&& 0 <= index < queue_before.len()
                &&& queue_before[index] == state
                &&& queue@ == queue_before.remove(index)
                &&& forall|valid: spec_fn(D) -> bool|
                    #[trigger] crate::order::ordered_on::<P, D>(valid) && all_valid(history, valid)
                        ==> first_in_line::<P, D>(queue_before, index)
            };
        proof {
            assert(state == queue_before[index]);
            assert forall|valid: spec_fn(D) -> bool| #[trigger]
                premises::<P, D>(*graph, valid) implies first_in_line::<P, D>(
                queue_before,
                index,
            ) by {
                assert(all_valid(history, valid));
                assert(crate::order::ordered_on::<P, D>(valid));
            }
            lemma_queue_weight_remove(*graph, queue_before, index);
            lemma_queue_weight_nonnegative(*graph, queue@);
            lemma_queue_weight_nonnegative(*graph, queue_before);
            lemma_weight_positive(layers as int, vertexes_len as int, graph.layer_of(position as int));
            assert(graph.in_range(graph.layer_of(position as int), position as int));
        }
        let current_layer = graph.vertexes[position].point_index;
        if current_layer + 1 == layers {
            destination = Some(position);
            proof {
                taken = index;
            }
            break;
        }
        let stale = match dist[position] {
            Some(d) => P::is_farther(distance_total, d),
            None => false,
        };
        if stale {
            proof {
                if strict::<P, D>() {
                    lemma_reached_skip::<P, D>(*graph, dist@, queue_before, index);
                }
                assert forall|valid: spec_fn(D) -> bool| #[trigger]
                    premises::<P, D>(*graph, valid) implies cheapest_inv::<P, D>(
                    valid,
                    *graph,
                    dist@,
                    prev@,
                    queue@,
                ) by {
                    lemma_cheapest_skip::<P, D>(valid, *graph, dist@, prev@, queue_before, index);
                }
                watched = queue@;
            }
            continue;
        }
        proof {
            if strict::<P, D>() {
                lemma_reached_start(*graph, dist@, queue_before, index);
            }
            assert forall|valid: spec_fn(D) -> bool| #[trigger]
                premises::<P, D>(*graph, valid) implies cheapest_during::<P, D>(
                valid,
                *graph,
                dist@,
                prev@,
                queue@,
                position as int,
                distance_total,
                graph.edges@[current_layer + 1].0 as int,
            ) by {
                lemma_cheapest_settle::<P, D>(valid, *graph, dist@, prev@, queue_before, index);
            }
        }
        let (from_idx, to_idx) = graph.edges[current_layer + 1];
        let current_cut = graph.vertexes[position].cut_point_index;
        let ghost base = queue_weight(*graph, queue@);
        let ghost step = weight(layers as int, vertexes_len as int, current_layer + 1);
        let mut idx: usize = from_idx;
        proof {
            assert(graph.edges@[current_layer + 1].1 <= vertexes_len);
            lemma_weight_positive(layers as int, vertexes_len as int, current_layer + 1);
            assert((idx - from_idx) * step == 0) by (nonlinear_arith)
                requires
                    idx == from_idx,
            ;
        }
        while idx < to_idx
            invariant
                graph.wf(),
                layers == graph.layers(),
                vertexes_len == graph.vertexes@.len(),
                search_wf(*graph, dist@, prev@, queue@),
                position < vertexes_len,
                dist@[position as int] is Some,
                current_layer == graph.layer_of(position as int),
                current_cut == graph.cut_of(position as int),
                current_layer + 1 < layers,
                (from_idx, to_idx) == graph.edges@[current_layer + 1],
                from_idx <= idx <= to_idx,
                to_idx <= vertexes_len,
                destination is None,
                step == weight(layers as int, vertexes_len as int, current_layer + 1),
                step >= 1,
                queue_weight(*graph, queue@) <= base + (idx - from_idx) * step,
                strict::<P, D>() ==> reached_during(*graph, dist@, queue@, position as int, idx as int),
                queue.wf::<P>(),
                states_valid::<P, D>(*graph, queue.history()),
                cheapest_kept_during::<P, D>(
                    *graph,
                    dist@,
                    prev@,
                    queue@,
                    position as int,
                    distance_total,
                    idx as int,
                ),
            decreases to_idx - idx,
        {
            assert(graph.in_range(current_layer + 1, idx as int));
            let ghost dist_before = dist@;
            let ghost prev_before = prev@;
            let ghost inner_queue_before = queue@;
            let ghost history_before = queue.history();
            let neighbour = &graph.vertexes[idx];
            if current_cut <= neighbour.cut_point_index {
                let relaxed = P::add_distances(distance_total, neighbour.distance_to);
                let improves = match dist[idx] {
                    None => true,
                    Some(d) => P::is_farther(d, relaxed),
                };
                if improves {
                    proof {
                        lemma_queue_weight_push(
                            *graph,
                            queue@,
                            State { distance_total: relaxed, position: idx },
                        );
                    }
                    dist.set(idx, Some(relaxed));
                    prev.set(idx, Some(position));
                    queue.push::<P>(State { distance_total: relaxed, position: idx });
                }
            }
            proof {
                assert((idx + 1 - from_idx) * step == (idx - from_idx) * step + step)
                    by (nonlinear_arith);
                if strict::<P, D>() {
                    lemma_reached_step(
                        *graph,
                        dist_before,
                        inner_queue_before,
                        position as int,
                        idx as int,
                        dist@,
                        queue@,
                    );
                }
                assert forall|valid: spec_fn(D) -> bool| #[trigger]
                    premises::<P, D>(*graph, valid) implies cheapest_during::<P, D>(
                    valid,
                    *graph,
                    dist@,
                    prev@,
                    queue@,
                    position as int,
                    distance_total,
                    idx + 1,
                ) by {
                    lemma_cheapest_step::<P, D>(
                        valid,
                        *graph,
                        dist_before,
                        prev_before,
                        inner_queue_before,
                        position as int,
                        distance_total,
                        idx as int,
                        dist@,
                        prev@,
                        queue@,
                    );
                }
                assert forall|valid: spec_fn(D) -> bool| #[trigger]
                    premises::<P, D>(*graph, valid) implies all_valid(queue.history(), valid) by {
                    assert(all_valid(history_before, valid));
                    assert(cheapest_during::<P, D>(
                        valid,
                        *graph,
                        dist@,
                        prev@,
                        queue@,
                        position as int,
                        distance_total,
                        idx + 1,
                    ));
                    assert forall|i: int| 0 <= i < queue.history().len() implies valid(
                        (#[trigger] queue.history()[i]).distance_total,
                    ) by {
                        if i < history_before.len() {
                            assert(queue.history()[i] == history_before[i]);
                        } else {
                            assert(queue.history()[i] == queue@[queue@.len() - 1]);
                        }
                    }
                }
            }
            idx = idx + 1;
        }
        proof {
            if strict::<P, D>() {
                lemma_reached_finish(*graph, dist@, queue@, position as int);
            }
            assert forall|valid: spec_fn(D) -> bool| #[trigger]
                premises::<P, D>(*graph, valid) implies cheapest_inv::<P, D>(
                valid,
                *graph,
                dist@,
                prev@,
                queue@,
            ) by {
                lemma_cheapest_finish::<P, D>(
                    valid,
                    *graph,
                    dist@,
                    prev@,
                    queue@,
                    position as int,
                    distance_total,
                );
            }
            watched = queue@;
        }
        proof {
            assert((idx - from_idx) * step <= vertexes_len * step) by (nonlinear_arith)
                requires
                    0 <= idx - from_idx <= vertexes_len,
                    step >= 1,
            ;
            assert(weight(layers as int, vertexes_len as int, current_layer as int) == 1
                + vertexes_len * step);
            assert(base == queue_weight(*graph, queue_before) - weight(
                layers as int,
                vertexes_len as int,
                current_layer as int,
            ));
            assert(queue_weight(*graph, queue@) <= queue_weight(*graph, queue_before) - 1);
            lemma_queue_weight_nonnegative(*graph, queue@);
        }
    }
    let last = match destination {
        Some(last) => last,
        None => {
            proof {
                if strict::<P, D>() {
                    assert(queue@ == Seq::<State<D>>::empty());
                    lemma_no_path(*graph, dist@);
                }
            }
            return Err(PolySplitError::new(PolySplitErrorKind::CannotSplit));
        },
    };
    // Walking back from the destination gives the path in reverse.
    let mut reversed: Vec<usize> = Vec::new();
    let mut current: Option<usize> = Some(last);
    while current.is_some()
        invariant
            graph.wf(),
            layers == graph.layers(),
            vertexes_len == graph.vertexes@.len(),
            search_wf(*graph, dist@, prev@, watched),
            current matches Some(idx) ==> idx < vertexes_len && dist@[idx as int] is Some
                && reversed@.len() + graph.layer_of(idx as int) + 1 == layers,
            reversed@.len() > 0 ==> reversed@[0] == last && current == prev@[reversed@.last() as int],
            reversed@.len() == 0 ==> current == Some(last),
            forall|j: int|
                0 <= j < reversed@.len() - 1 ==> prev@[#[trigger] reversed@[j] as int] == Some(
                    reversed@[j + 1],
                ),
            current is None ==> reversed@.len() == layers,
            forall|j: int|
                0 <= j < reversed@.len() ==> (#[trigger] reversed@[j]) < vertexes_len
                    && graph.layer_of(reversed@[j] as int) == layers - 1 - j,
            forall|j: int|
                0 <= j < reversed@.len() - 1 ==> graph.cut_of(reversed@[j + 1] as int)
                    <= graph.cut_of(#[trigger] reversed@[j] as int),
            current matches Some(idx) ==> reversed@.len() > 0 ==> graph.cut_of(idx as int)
                <= graph.cut_of(reversed@.last() as int),
        decreases
            match current {
                Some(idx) => graph.layer_of(idx as int) + 1,
                None => 0,
            },
    {
        let idx = current.unwrap();
        assert(graph.in_range(graph.layer_of(idx as int), idx as int));
        reversed.push(idx);
        current = prev[idx];
    }
    let mut path: Vec<usize> = Vec::new();
    let mut remaining: usize = reversed.len();
    while remaining > 0
        invariant
            remaining <= reversed@.len(),
            path@.len() == reversed@.len() - remaining,
            forall|j: int| 0 <= j < path@.len() ==> #[trigger] path@[j] == reversed@[reversed@.len() - 1 - j],
        decreases remaining,
    {
        remaining = remaining - 1;
        path.push(reversed[remaining]);
    }
    proof {
        assert forall|layer: int| 0 <= layer < path@.len() implies graph.in_range(
            layer,
            #[trigger] path@[layer] as int,
        ) by {
            let j = reversed@.len() - 1 - layer;
            assert(reversed@[j] < vertexes_len);
            assert(graph.in_range(graph.layer_of(reversed@[j] as int), reversed@[j] as int));
        }
        assert forall|layer: int| 0 <= layer < path@.len() - 1 implies graph.cut_of(
            #[trigger] path@[layer] as int,
        ) <= graph.cut_of(path@[layer + 1] as int) by {
            let j = reversed@.len() - 2 - layer;
            assert(graph.cut_of(reversed@[j + 1] as int) <= graph.cut_of(reversed@[j] as int));
        }
        assert forall|layer: int| 0 <= layer < path@.len() - 1 implies prev@[#[trigger] path@[layer
            + 1] as int] == Some(path@[layer]) by {
            let j = reversed@.len() - 2 - layer;
            assert(prev@[reversed@[j] as int] == Some(reversed@[j + 1]));
        }
        assert(follows_back(prev@, path@));
        assert(path@.last() == reversed@[0]);
        assert forall|valid: spec_fn(D) -> bool| #[trigger]
            premises::<P, D>(*graph, valid) implies cheapest::<P, D>(*graph, path@) by {
            lemma_cheapest_found::<P, D>(valid, *graph, dist@, prev@, watched, taken, path@);
        }
    }
    Ok(path)
}

} // verus!
