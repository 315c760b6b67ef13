//! Depth-first search for a path between two nodes of a graph.
//!
//! The search recurses into each undiscovered neighbor in turn and reports
//! the chain of links from the start node to the node searched for.  By
//! convention the first reported link is a zero-cost placeholder, so a
//! result always carries at least one link.

use vstd::prelude::*;

use crate::graph::Graph;
use crate::graph::Link;
use crate::graph::SearchResult;
use crate::graph::chain_end;
use crate::graph::discovered_count;
use crate::graph::is_chain;
use crate::graph::link_touches;
use crate::graph::marks_monotone;
use crate::graph::other_end;
use crate::graph::sum_costs;
use crate::graph::lemma_chain_concat;
use crate::graph::lemma_discovered_count_bounds;
use crate::graph::lemma_discovered_count_monotone;
use crate::graph::lemma_discovered_count_strict;
use crate::graph::lemma_discovered_count_update;
use crate::graph::lemma_sum_costs_drop_first;
use crate::graph::lemma_sum_costs_linked;
use crate::graph::lemma_sum_costs_nonneg;
use crate::graph::lemma_sum_costs_take_le;

verus! {

/// The invariant of the neighbor stack: each entry pairs a stored link
/// touching the current start node with the node id on its other end,
/// which names a node that was undiscovered on entry and is marked by now.
spec fn stack_elem_ok(e: (Link, isize), links: Seq<Link>, ns0: Seq<crate::graph::Node>, ns: Seq<crate::graph::Node>, start: isize) -> bool {
    &&& links.contains(e.0)
    &&& link_touches(e.0, start)
    &&& e.1 == other_end(e.0, start)
    &&& 0 <= e.1 < ns0.len()
    &&& !ns0[e.1 as int].is_discovered
    &&& ns.len() == ns0.len() && ns[e.1 as int].is_discovered
}

/// An element-wise copy of a list of links.
fn copy_links(v: &Vec<Link>) -> (r: Vec<Link>)
    ensures
        r@ == v@,
{
    let n = v.len();
    let mut r: Vec<Link> = Vec::new();
    let mut i: usize = 0;
    while i < n
        invariant
            i <= n,
            n == v@.len(),
            r@ == v@.take(i as int),
        decreases n - i,
    {
        proof {
            assert(v@.take(i + 1) =~= v@.take(i as int).push(v@[i as int]));
        }
        r.push(v[i]);
        i += 1;
    }
    proof {
        assert(v@.take(n as int) =~= v@);
    }
    r
}

/// Extends `link_chain` with a chain of stored links from `start_node_id`
/// to `search_node_id`, recursing depth-first into every undiscovered
/// neighbor.  The recursion is bounded by the discovery marks: every
/// recursive call is preceded by a fresh mark.
#[verifier::loop_isolation(false)]
fn search_node_recursive(
    graph: &mut Graph,
    start_node_id: isize,
    search_node_id: isize,
    link_chain: Vec<Link>,
) -> (result: Option<SearchResult>)
    ensures
        final(graph).link_list@ == old(graph).link_list@,
        marks_monotone(old(graph).node_list@, final(graph).node_list@),
        match result {
            Some(r) => {
                &&& r.cost == 0
                &&& r.links@.len() >= link_chain@.len()
                &&& r.links@.take(link_chain@.len() as int) == link_chain@
                &&& is_chain(r.links@.skip(link_chain@.len() as int), start_node_id)
                &&& chain_end(r.links@.skip(link_chain@.len() as int), start_node_id) == search_node_id
                &&& (forall|t: int|
                    link_chain@.len() <= t < r.links@.len() ==> old(graph).link_list@.contains(
                        #[trigger] r.links@[t],
                    ))
                &&& r.links@.len() - link_chain@.len() <= discovered_count(final(graph).node_list@)
                    - discovered_count(old(graph).node_list@)
            },
            None => true,
        },
    decreases graph.node_list@.len() - discovered_count(graph.node_list@),
{
    proof {
        lemma_discovered_count_bounds(graph.node_list@);
    }
    // Abort condition: the current node is the one searched for.
    if start_node_id == search_node_id {
        proof {
            let cl = link_chain@.len() as int;
            assert(link_chain@.take(cl) =~= link_chain@);
            assert(link_chain@.skip(cl) =~= Seq::<Link>::empty());
            assert(is_chain(Seq::<Link>::empty(), start_node_id));
            assert(chain_end(Seq::<Link>::empty(), start_node_id) == start_node_id);
        }
        return Some(SearchResult::new().links(link_chain).cost(0));
    }

    let ghost ns0 = graph.node_list@;
    let ghost links0 = graph.link_list@;
    let ghost count0 = discovered_count(ns0);

    // Collect every link leaving the current node whose other end is an
    // undiscovered node, marking each as it is stacked.
    let mut stack: Vec<(Link, isize)> = Vec::new();
    let links = graph.find_links_from_node(start_node_id);
    proof {
        assert forall|t: int| 0 <= t < links@.len() implies links0.contains(#[trigger] links@[t])
            && link_touches(links@[t], start_node_id) by {
            links0.lemma_filter_pred(|l: Link| link_touches(l, start_node_id), t);
            assert(links0.filter(|l: Link| link_touches(l, start_node_id)).contains(links@[t]));
            links0.lemma_filter_contains_rev(|l: Link| link_touches(l, start_node_id), links@[t]);
        }
    }
    let llen = links.len();
    let mut x: usize = 0;
    while x < llen
        invariant
            x <= llen,
            graph.link_list@ == links0,
            marks_monotone(ns0, graph.node_list@),
            forall|s: int|
                0 <= s < stack@.len() ==> stack_elem_ok(
                    #[trigger] stack@[s],
                    links0,
                    ns0,
                    graph.node_list@,
                    start_node_id,
                ),
        decreases llen - x,
    {
        let link = links[x];
        let other_node: isize = if link.members.0 == start_node_id {
            link.members.1
        } else {
            link.members.0
        };
        // if a node is found on the other end of the link, stack it
        if other_node >= 0 && (other_node as usize) < graph.node_list.len() {
            let oi = other_node as usize;
            let node = graph.node_list[oi];
            if !node.is_discovered {
                let ghost pre = graph.node_list@;
                stack.push((link, other_node));
                let mut marked = node;
                marked.is_discovered = true;
                proof {
                    lemma_discovered_count_update(graph.node_list@, oi as int, marked);
                }
                graph.node_list[oi] = marked;
                proof {
                    assert(marks_monotone(ns0, graph.node_list@)) by {
                        assert forall|i: int| 0 <= i < ns0.len() implies {
                            &&& graph.node_list@[i].id == ns0[i].id
                            &&& graph.node_list@[i].name == ns0[i].name
                            &&& (ns0[i].is_discovered ==> graph.node_list@[i].is_discovered)
                        } by {
                            if i != oi as int {
                                assert(graph.node_list@[i] == pre[i]);
                            }
                        }
                    }
                }
            }
        }
        x += 1;
    }

    // Visit every stacked neighbor, recursing with the extended chain.
    while stack.len() > 0
        invariant
            graph.link_list@ == links0,
            marks_monotone(ns0, graph.node_list@),
            forall|s: int|
                0 <= s < stack@.len() ==> stack_elem_ok(
                    #[trigger] stack@[s],
                    links0,
                    ns0,
                    graph.node_list@,
                    start_node_id,
                ),
        decreases stack@.len(),
    {
        let ghost se = stack@[stack@.len() - 1];
        proof {
            assert(stack_elem_ok(se, links0, ns0, graph.node_list@, start_node_id));
        }
        let stack_element = stack.pop().unwrap();
        let link = stack_element.0;
        let next_node = stack_element.1;
        proof {
            assert(stack_element == se);
        }

        // extend a copy of the chain with the link to the new element
        let mut new_vector = copy_links(&link_chain);
        new_vector.push(link);

        let ghost ns_call = graph.node_list@;
        proof {
            lemma_discovered_count_strict(ns0, ns_call, next_node as int);
            lemma_discovered_count_bounds(ns_call);
        }
        let recursed = search_node_recursive(graph, next_node, search_node_id, new_vector);
        proof {
            assert(marks_monotone(ns0, graph.node_list@)) by {
                assert forall|i: int| 0 <= i < ns0.len() implies {
                    &&& graph.node_list@[i].id == ns0[i].id
                    &&& graph.node_list@[i].name == ns0[i].name
                    &&& (ns0[i].is_discovered ==> graph.node_list@[i].is_discovered)
                } by {
                    assert(marks_monotone(ns_call, graph.node_list@));
                }
            }
            lemma_discovered_count_monotone(ns_call, graph.node_list@);
        }
        if let Some(res) = recursed {
            proof {
                let cl = link_chain@.len() as int;
                let nl = new_vector@.len() as int;
                assert(res.links@.take(nl) == new_vector@);
                assert(res.links@.take(cl) =~= link_chain@);
                let ext = res.links@.skip(cl);
                let ext2 = res.links@.skip(nl);
                assert(res.links@.take(nl)[cl] == new_vector@[cl]);
                assert(new_vector@[cl] == link);
                assert(ext =~= seq![link] + ext2);
                assert(seq![link].drop_last() =~= Seq::<Link>::empty());
                assert(is_chain(Seq::<Link>::empty(), start_node_id));
                assert(chain_end(Seq::<Link>::empty(), start_node_id) == start_node_id);
                assert(chain_end(seq![link], start_node_id) == next_node);
                assert(is_chain(seq![link], start_node_id));
                lemma_chain_concat(seq![link], ext2, start_node_id);
                assert forall|t: int| cl <= t < res.links@.len() implies links0.contains(
                    #[trigger] res.links@[t],
                ) by {
                    if t == cl {
                        assert(res.links@[t] == ext[0]);
                        assert(ext[0] == link);
                    }
                }
            }
            return Some(res);
        }
    }

    // the stack is exhausted: every reachable node has been visited and the
    // node searched for was not among them
    None
}

/// Searches for a path from `start_node_id` to `search_node_id` with a
/// depth-first walk of the graph.
///
/// A result, if any, opens with a zero-cost placeholder link, continues
/// with stored links chaining from the start node to the node searched
/// for, and carries the summed cost of its links.  Searching for the start
/// node itself always succeeds with just the placeholder link.
#[verifier::loop_isolation(false)]
pub fn dfs_search_node(mut graph: Graph, start_node_id: isize, search_node_id: isize) -> (result: Option<
    SearchResult,
>)
    requires
        (graph.node_list@.len() + 1) * sum_costs(graph.link_list@) <= usize::MAX,
    ensures
        match result {
            Some(r) => {
                &&& r.links@.len() >= 1
                &&& is_chain(r.links@.skip(1), start_node_id)
                &&& chain_end(r.links@.skip(1), start_node_id) == search_node_id
                &&& (forall|t: int| 1 <= t < r.links@.len() ==> graph.link_list@.contains(
                    #[trigger] r.links@[t],
                ))
                &&& r.cost == sum_costs(r.links@)
                &&& r.links@[0] == (if start_node_id == search_node_id {
                    Link { members: (start_node_id, start_node_id), cost: 0usize }
                } else {
                    Link { members: (0isize, 0isize), cost: 0usize }
                })
            },
            None => start_node_id != search_node_id,
        },
{
    // if the start node is the node searched for, return a link to itself
    if start_node_id == search_node_id {
        let mut first: Vec<Link> = Vec::new();
        first.push(Link::new((start_node_id, search_node_id), 0));
        proof {
            assert(first@.drop_last() =~= Seq::<Link>::empty());
            assert(first@.skip(1) =~= Seq::<Link>::empty());
            assert(is_chain(Seq::<Link>::empty(), start_node_id));
            assert(chain_end(Seq::<Link>::empty(), start_node_id) == start_node_id);
            assert(sum_costs(Seq::<Link>::empty()) == 0);
            assert(sum_costs(first@) == 0);
        }
        return Some(SearchResult::new().links(first).cost(0));
    }

    // seed the chain with a placeholder link, then search recursively
    let mut seed: Vec<Link> = Vec::new();
    seed.push(Link::new((0, 0), 0));
    let ghost ns0 = graph.node_list@;
    let ghost links0 = graph.link_list@;
    let result = search_node_recursive(&mut graph, start_node_id, search_node_id, seed);

    // compute the total link cost and return the result
    match result {
        Some(res) => {
            proof {
                lemma_discovered_count_bounds(ns0);
                lemma_discovered_count_bounds(graph.node_list@);
                lemma_sum_costs_drop_first(res.links@);
                assert(res.links@[0] == (Link { members: (0isize, 0isize), cost: 0usize })) by {
                    assert(res.links@.take(1)[0] == res.links@[0]);
                }
                assert forall|t: int| 0 <= t < res.links@.drop_first().len() implies links0.contains(
                    #[trigger] res.links@.drop_first()[t],
                ) by {
                    assert(res.links@.drop_first()[t] == res.links@[t + 1]);
                }
                lemma_sum_costs_linked(res.links@.drop_first(), links0);
                lemma_sum_costs_nonneg(links0);
                assert(res.links@.drop_first().len() * sum_costs(links0) <= (ns0.len() + 1) * sum_costs(
                    links0,
                )) by (nonlinear_arith)
                    requires
                        0 <= res.links@.drop_first().len() <= ns0.len() + 1,
                        sum_costs(links0) >= 0,
                ;
            }
            let mut cost: usize = 0;
            let plen = res.links.len();
            let mut t: usize = 0;
            proof {
                assert(res.links@.take(0) =~= Seq::<Link>::empty());
            }
            while t < plen
                invariant
                    t <= plen,
                    plen == res.links@.len(),
                    cost == sum_costs(res.links@.take(t as int)),
                    sum_costs(res.links@) <= usize::MAX,
                decreases plen - t,
            {
                proof {
                    assert(res.links@.take(t + 1).drop_last() =~= res.links@.take(t as int));
                    lemma_sum_costs_take_le(res.links@, t + 1);
                    lemma_sum_costs_nonneg(res.links@.take(t as int));
                }
                cost = cost + res.links[t].cost;
                t += 1;
            }
            proof {
                assert(res.links@.take(plen as int) =~= res.links@);
            }
            Some(res.cost(cost))
        },
        None => None,
    }
}

} // verus!
