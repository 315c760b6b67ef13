//! Breadth-first search for a path between two nodes of a graph.
//!
//! The search walks the graph level by level over an explicit queue and
//! reports the chain of links from the start node to the node searched for.
//! By convention the first reported link leads from the start node to
//! itself at no cost, so a result always carries at least one link.

use vstd::prelude::*;

use crate::graph::Graph;
use crate::graph::Link;
use crate::graph::SearchResult;
use crate::graph::chain_end;
use crate::graph::discovered_count;
use crate::graph::is_chain;
use crate::graph::link_touches;
use crate::graph::other_end;
use crate::graph::sum_costs;
use crate::graph::lemma_chain_push;
use crate::graph::lemma_discovered_count_bounds;
use crate::graph::lemma_discovered_count_update;
use crate::graph::lemma_sum_costs_drop_first;
use crate::graph::lemma_sum_costs_linked;
use crate::graph::lemma_sum_costs_nonneg;
use crate::graph::lemma_sum_costs_take_le;

verus! {

/// What a search may hand back for the pair `(start, goal)` over the
/// stored links `links`: a chain of links leading from `start` to `goal`,
/// opened by the conventional zero-cost link from `start` to itself, every
/// later link actually stored, and the cost the sum over the chain.
pub open spec fn search_path_ok(r: SearchResult, links: Seq<Link>, start: isize, goal: isize) -> bool {
    &&& r.links@.len() >= 1
    &&& r.links@[0] == (Link { members: (start, start), cost: 0usize })
    &&& is_chain(r.links@, start)
    &&& chain_end(r.links@, start) == goal
    &&& (forall|t: int| 1 <= t < r.links@.len() ==> links.contains(#[trigger] r.links@[t]))
    &&& r.cost == sum_costs(r.links@)
}

/// The per-element invariant of the search queue: the queued path is a
/// chain from the start to the queued node, drawn from the stored links
/// after its conventional first element, and no longer than one more than
/// the number of discoveries made so far.
spec fn queue_elem_ok(e: (isize, Vec<Link>), links: Seq<Link>, count: int, n: int, start: isize) -> bool {
    &&& e.1@.len() >= 1
    &&& e.1@[0] == (Link { members: (start, start), cost: 0usize })
    &&& is_chain(e.1@, start)
    &&& chain_end(e.1@, start) == e.0
    &&& (forall|t: int| 1 <= t < e.1@.len() ==> links.contains(#[trigger] e.1@[t]))
    &&& e.1@.len() <= 1 + count
    &&& (e.0 == start || 0 <= e.0 < n)
}

/// An element-wise copy of a list of links.
fn copy_links(v: &Vec<Link>) -> (r: Vec<Link>)
    ensures
        r@ == v@,
{
    let n = v.len();
    let mut r: Vec<Link> = Vec::new();
    let mut i: usize = 0;
    while i < n
        invariant
            i <= n,
            n == v@.len(),
            r@ == v@.take(i as int),
        decreases n - i,
    {
        proof {
            assert(v@.take(i + 1) =~= v@.take(i as int).push(v@[i as int]));
        }
        r.push(v[i]);
        i += 1;
    }
    proof {
        assert(v@.take(n as int) =~= v@);
    }
    r
}

/// Searches for a path from `start_node_id` to `search_node_id` with a
/// breadth-first walk of the graph.
///
/// A result, if any, opens with the zero-cost link from the start node to
/// itself, continues with stored links chaining to the node searched for,
/// and carries the summed cost of its links.  Searching for the start node
/// itself always succeeds with just the conventional first link.
#[verifier::loop_isolation(false)]
pub fn bfs_search_node(mut graph: Graph, start_node_id: isize, search_node_id: isize) -> (result: Option<
    SearchResult,
>)
    requires
        (graph.node_list@.len() + 1) * sum_costs(graph.link_list@) <= usize::MAX,
    ensures
        match result {
            Some(r) => {
                &&& search_path_ok(r, graph.link_list@, start_node_id, search_node_id)
                &&& (start_node_id != search_node_id ==> 0 <= search_node_id < graph.node_list@.len())
            },
            None => start_node_id != search_node_id,
        },
{
    if start_node_id == search_node_id {
        let mut first: Vec<Link> = Vec::new();
        first.push(Link::new((start_node_id, search_node_id), 0));
        proof {
            assert(first@.drop_last() =~= Seq::<Link>::empty());
            assert(is_chain(Seq::<Link>::empty(), start_node_id));
            assert(chain_end(Seq::<Link>::empty(), start_node_id) == start_node_id);
            assert(sum_costs(Seq::<Link>::empty()) == 0);
            assert(is_chain(first@, start_node_id));
            assert(chain_end(first@, start_node_id) == search_node_id);
            assert(sum_costs(first@) == 0);
        }
        return Some(SearchResult::new().cost(0).links(first));
    }
    let ghost links0 = graph.link_list@;
    let ghost n0 = graph.node_list@.len() as int;

    let mut queue: Vec<(isize, Vec<Link>)> = Vec::new();
    let mut vector: Vec<Link> = Vec::new();
    vector.push(Link::new((start_node_id, start_node_id), 0));
    let ghost v0 = vector@;
    proof {
        assert(v0.drop_last() =~= Seq::<Link>::empty());
        assert(is_chain(Seq::<Link>::empty(), start_node_id));
        assert(chain_end(Seq::<Link>::empty(), start_node_id) == start_node_id);
        assert(is_chain(v0, start_node_id));
        assert(chain_end(v0, start_node_id) == start_node_id);
    }
    queue.push((start_node_id, vector));
    proof {
        assert(queue@[0].1@ == v0);
    }

    // Mark the start node as visited; without it there can be no path.
    if start_node_id < 0 {
        return None;
    }
    let si = start_node_id as usize;
    if si >= graph.node_list.len() {
        return None;
    }
    let mut start_node = graph.node_list[si];
    if !start_node.is_discovered {
        start_node.is_discovered = true;
        proof {
            lemma_discovered_count_update(graph.node_list@, si as int, start_node);
        }
        graph.node_list[si] = start_node;
    }
    proof {
        lemma_discovered_count_bounds(graph.node_list@);
    }

    while queue.len() > 0
        invariant
            graph.link_list@ == links0,
            graph.node_list@.len() == n0,
            (n0 + 1) * sum_costs(links0) <= usize::MAX,
            start_node_id != search_node_id,
            0 <= discovered_count(graph.node_list@) <= n0,
            forall|q: int|
                0 <= q < queue@.len() ==> queue_elem_ok(
                    #[trigger] queue@[q],
                    links0,
                    discovered_count(graph.node_list@),
                    n0,
                    start_node_id,
                ),
        decreases queue@.len() + n0 - discovered_count(graph.node_list@),
    {
        let ghost popped = queue@[0];
        let current_queue_element = queue.remove(0);
        let current_node = current_queue_element.0;
        let cur_path = current_queue_element.1;
        let ghost count_pop = discovered_count(graph.node_list@);
        let ghost metric_pop = queue@.len() + n0 - count_pop;
        proof {
            assert(queue_elem_ok(popped, links0, count_pop, n0, start_node_id));
        }

        if current_node == search_node_id {
            // The node searched for is found: sum up the chain's cost.
            proof {
                lemma_sum_costs_drop_first(cur_path@);
                assert forall|t: int| 0 <= t < cur_path@.drop_first().len() implies links0.contains(
                    #[trigger] cur_path@.drop_first()[t],
                ) by {
                    assert(cur_path@.drop_first()[t] == cur_path@[t + 1]);
                }
                lemma_sum_costs_linked(cur_path@.drop_first(), links0);
                lemma_sum_costs_nonneg(links0);
                assert(cur_path@.drop_first().len() * sum_costs(links0) <= (n0 + 1) * sum_costs(links0))
                    by (nonlinear_arith)
                    requires
                        0 <= cur_path@.drop_first().len() <= n0 + 1,
                        sum_costs(links0) >= 0,
                ;
            }
            let mut cost: usize = 0;
            let plen = cur_path.len();
            let mut t: usize = 0;
            proof {
                assert(cur_path@.take(0) =~= Seq::<Link>::empty());
            }
            while t < plen
                invariant
                    t <= plen,
                    plen == cur_path@.len(),
                    cost == sum_costs(cur_path@.take(t as int)),
                    sum_costs(cur_path@) <= usize::MAX,
                decreases plen - t,
            {
                proof {
                    assert(cur_path@.take(t + 1).drop_last() =~= cur_path@.take(t as int));
                    lemma_sum_costs_take_le(cur_path@, t + 1);
                    lemma_sum_costs_nonneg(cur_path@.take(t as int));
                }
                cost = cost + cur_path[t].cost;
                t += 1;
            }
            proof {
                assert(cur_path@.take(plen as int) =~= cur_path@);
                assert(queue_elem_ok(popped, links0, count_pop, n0, start_node_id));
                assert(0 <= search_node_id < n0);
                assert forall|t: int| 1 <= t < cur_path@.len() implies links0.contains(
                    #[trigger] cur_path@[t],
                ) by {
                    assert(links0.contains(popped.1@[t]));
                }
            }
            return Some(SearchResult::new().cost(cost).links(cur_path));
        } else {
            let links = graph.find_links_from_node(current_node);
            proof {
                assert forall|t: int| 0 <= t < links@.len() implies links0.contains(#[trigger] links@[t])
                    && link_touches(links@[t], current_node) by {
                    links0.lemma_filter_pred(|l: Link| link_touches(l, current_node), t);
                    assert(links0.filter(|l: Link| link_touches(l, current_node)).contains(links@[t]));
                    links0.lemma_filter_contains_rev(|l: Link| link_touches(l, current_node), links@[t]);
                }
            }
            let llen = links.len();
            let mut x: usize = 0;
            while x < llen
                invariant
                    x <= llen,
                    llen == links@.len(),
                    graph.link_list@ == links0,
                    graph.node_list@.len() == n0,
                    (n0 + 1) * sum_costs(links0) <= usize::MAX,
                    start_node_id != search_node_id,
                    forall|t: int|
                        0 <= t < links@.len() ==> links0.contains(#[trigger] links@[t]) && link_touches(
                            links@[t],
                            current_node,
                        ),
                    count_pop <= discovered_count(graph.node_list@) <= n0,
                    queue@.len() + n0 - discovered_count(graph.node_list@) <= metric_pop,
                    queue_elem_ok(popped, links0, count_pop, n0, start_node_id),
                    cur_path@ == popped.1@,
                    current_node == popped.0,
                    forall|q: int|
                        0 <= q < queue@.len() ==> queue_elem_ok(
                            #[trigger] queue@[q],
                            links0,
                            discovered_count(graph.node_list@),
                            n0,
                            start_node_id,
                        ),
                decreases llen - x,
            {
                let link = links[x];
                // ignore circular links (from a node to itself)
                if link.members.0 != link.members.1 {
                    let found_node: isize = if link.members.0 == current_node {
                        link.members.1
                    } else {
                        link.members.0
                    };
                    // if the node on the other end is part of the graph
                    if found_node >= 0 && (found_node as usize) < graph.node_list.len() {
                        let fi = found_node as usize;
                        let node = graph.node_list[fi];
                        // and it has not been discovered yet
                        if !node.is_discovered {
                            // extend the chain to it, enqueue it, and mark it
                            let mut new_vector = copy_links(&cur_path);
                            new_vector.push(link);
                            proof {
                                lemma_chain_push(cur_path@, start_node_id, link);
                                assert(other_end(link, current_node) == found_node);
                            }
                            let ghost pre_q = queue@;
                            let ghost pre_count = discovered_count(graph.node_list@);
                            let mut marked = node;
                            marked.is_discovered = true;
                            proof {
                                lemma_discovered_count_update(graph.node_list@, fi as int, marked);
                            }
                            graph.node_list[fi] = marked;
                            proof {
                                lemma_discovered_count_bounds(graph.node_list@);
                            }
                            queue.push((found_node, new_vector));
                            proof {
                                let cnt = discovered_count(graph.node_list@);
                                assert(cnt == pre_count + 1);
                                assert forall|q: int| 0 <= q < queue@.len() implies queue_elem_ok(
                                    #[trigger] queue@[q],
                                    links0,
                                    cnt,
                                    n0,
                                    start_node_id,
                                ) by {
                                    if q < pre_q.len() {
                                        assert(queue@[q] == pre_q[q]);
                                        assert(queue_elem_ok(pre_q[q], links0, pre_count, n0, start_node_id));
                                    } else {
                                        assert(queue@[q].0 == found_node);
                                        assert(queue@[q].1@ == cur_path@.push(link));
                                        assert(queue@[q].1@[0] == cur_path@[0]);
                                        assert(links0.contains(links@[x as int]));
                                        assert forall|t: int| 1 <= t < queue@[q].1@.len() implies links0.contains(
                                            #[trigger] queue@[q].1@[t],
                                        ) by {
                                            if t < cur_path@.len() {
                                                assert(queue@[q].1@[t] == cur_path@[t]);
                                            } else {
                                                assert(queue@[q].1@[t] == link);
                                            }
                                        }
                                    }
                                }
                            }
                        }
                    }
                }
                x += 1;
            }
        }
    }
    None
}

} // verus!
