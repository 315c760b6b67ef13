//! A weighted undirected graph container.
//!
//! Nodes are registered by name and receive sequential ids equal to their
//! position in the node list; links join two node ids and carry a
//! non-negative path cost.  The container deduplicates both nodes (by name)
//! and links (by unordered id pair).  The search routines in the
//! neighboring modules walk these graphs and report their paths as
//! `SearchResult` values.

use vstd::prelude::*;

verus! {

/// A node which can be part of a graph; `is_discovered` is scratch state
/// for the search routines.
#[derive(Copy, Clone, Debug, PartialEq)]
pub struct Node {
    pub id: isize,
    pub name: &'static str,
    pub is_discovered: bool,
}

/// An undirected weighted edge between the two node ids in `members`.
#[derive(Copy, Clone, Debug, PartialEq)]
pub struct Link {
    pub members: (isize, isize),
    pub cost: usize,
}

/// A graph, consisting of nodes and links between them.
#[derive(Clone, Debug, Default)]
pub struct Graph {
    pub node_list: Vec<Node>,
    pub link_list: Vec<Link>,
}

/// A result of a search for a path between two nodes: the links walked, in
/// order but with their orientation as stored, and their summed cost.
#[derive(Default, Debug)]
pub struct SearchResult {
    pub links: Vec<Link>,
    pub cost: usize,
}

/// Whether the link `l` joins the node ids `a` and `b`, in either
/// orientation.
pub open spec fn link_joins(l: Link, a: isize, b: isize) -> bool {
    (l.members.0 == a && l.members.1 == b) || (l.members.0 == b && l.members.1 == a)
}

/// Whether the link `l` has the node id `id` as one of its endpoints.
pub open spec fn link_touches(l: Link, id: isize) -> bool {
    l.members.0 == id || l.members.1 == id
}

/// Whether some stored link joins the node ids `a` and `b`.
pub open spec fn has_link(links: Seq<Link>, a: isize, b: isize) -> bool {
    exists|i: int| 0 <= i < links.len() && link_joins(links[i], a, b)
}

/// Whether some stored node already carries the name.
pub open spec fn name_taken(ns: Seq<Node>, name: &'static str) -> bool {
    exists|i: int| 0 <= i < ns.len() && (#[trigger] ns[i]).name@ == name@
}

/// What `Graph::find_link` returns: the first stored link joining `a` and
/// `b`, or `None` when no stored link joins them.
pub open spec fn link_search_result(links: Seq<Link>, a: isize, b: isize, r: Option<Link>) -> bool {
    match r {
        Some(l) => exists|i: int|
            {
                &&& 0 <= i < links.len()
                &&& l == links[i]
                &&& link_joins(#[trigger] links[i], a, b)
                &&& forall|j: int| 0 <= j < i ==> !link_joins(#[trigger] links[j], a, b)
            },
        None => forall|i: int| 0 <= i < links.len() ==> !link_joins(#[trigger] links[i], a, b),
    }
}

/// Relies on str's `PartialEq`: two string slices are equal exactly when
/// their character sequences are.
#[verifier::external_body]
fn str_eq(a: &str, b: &str) -> (r: bool)
    ensures
        r == (a@ == b@),
{
    a == b
}

impl Node {
    /// Creates a node that is not yet part of any graph: its id stays a
    /// placeholder until `Graph::add_node` assigns the real one.
    pub fn new(name: &'static str) -> (n: Node)
        ensures
            n == (Node { id: -1isize, name, is_discovered: false }),
    {
        Node {
            id: -1,
            name,
            is_discovered: false,
        }
    }
}

impl Link {
    /// Creates a link between the two node ids in `members`.
    pub fn new(members: (isize, isize), cost: usize) -> (l: Link)
        ensures
            l == (Link { members, cost }),
    {
        Link { members, cost }
    }
}

impl Graph {
    /// The graph's registration invariant: every stored node's id equals
    /// its position in the node list.
    pub open spec fn wf(&self) -> bool {
        forall|i: int| 0 <= i < self.node_list@.len() ==> (#[trigger] self.node_list@[i]).id == i
    }

    /// Creates a graph with empty node and link lists.
    pub fn new() -> (g: Graph)
        ensures
            g.node_list@ == Seq::<Node>::empty(),
            g.link_list@ == Seq::<Link>::empty(),
            g.wf(),
    {
        Graph {
            node_list: Vec::new(),
            link_list: Vec::new(),
        }
    }

    /// Returns the first stored link, if any, between nodes `a` and `b`,
    /// identified by their ids and in either orientation.
    pub fn find_link(&mut self, a: isize, b: isize) -> (found_link: Option<Link>)
        ensures
            *final(self) == *old(self),
            link_search_result(final(self).link_list@, a, b, found_link),
            found_link.is_some() == has_link(final(self).link_list@, a, b),
    {
        let n = self.link_list.len();
        let mut i: usize = 0;
        while i < n
            invariant
                i <= n,
                n == self.link_list@.len(),
                *self == *old(self),
                forall|j: int| 0 <= j < i ==> !link_joins(#[trigger] self.link_list@[j], a, b),
            decreases n - i,
        {
            let l = self.link_list[i];
            if l.members.0 == a && l.members.1 == b || l.members.0 == b && l.members.1 == a {
                return Some(l);
            }
            i += 1;
        }
        None
    }

    /// Returns all stored links that have the node id `node_id` as one of
    /// their endpoints, without normalizing their orientation.
    pub fn find_links_from_node(&self, node_id: isize) -> (found: Vec<Link>)
        ensures
            found@ == self.link_list@.filter(|l: Link| link_touches(l, node_id)),
    {
        let n = self.link_list.len();
        let mut found: Vec<Link> = Vec::new();
        let mut i: usize = 0;
        proof {
            assert(self.link_list@.take(0).filter(|l: Link| link_touches(l, node_id)) =~= Seq::<Link>::empty());
        }
        while i < n
            invariant
                i <= n,
                n == self.link_list@.len(),
                found@ == self.link_list@.take(i as int).filter(|l: Link| link_touches(l, node_id)),
            decreases n - i,
        {
            let l = self.link_list[i];
            proof {
                assert(self.link_list@.take(i + 1) =~= self.link_list@.take(i as int).push(l));
                self.link_list@.take(i as int).lemma_filter_push(l, |l: Link| link_touches(l, node_id));
            }
            if l.members.0 == node_id || l.members.1 == node_id {
                found.push(l);
            }
            i += 1;
        }
        proof {
            assert(self.link_list@.take(n as int) =~= self.link_list@);
        }
        found
    }

    /// Adds a link to the graph unless a link between the same pair of node
    /// ids is already stored; a duplicate insert leaves the graph
    /// unchanged.
    pub fn add_link(&mut self, link: Link)
        ensures
            final(self).node_list == old(self).node_list,
            final(self).link_list@ == if has_link(old(self).link_list@, link.members.0, link.members.1) {
                old(self).link_list@
            } else {
                old(self).link_list@.push(link)
            },
    {
        if self.find_link(link.members.0, link.members.1).is_none() {
            self.link_list.push(link);
        }
    }

    /// Registers a node under its name and returns its id in the graph.  A
    /// name that is already registered resolves to the existing node's id
    /// and changes nothing; a new name is stored under the next sequential
    /// id.  The passed node's own id field is ignored.
    pub fn add_node(&mut self, node: Node) -> (id: isize)
        requires
            old(self).node_list@.len() <= isize::MAX,
        ensures
            final(self).link_list == old(self).link_list,
            old(self).wf() ==> final(self).wf(),
            name_taken(old(self).node_list@, node.name) ==> {
                &&& final(self).node_list == old(self).node_list
                &&& exists|i: int|
                    {
                        &&& 0 <= i < old(self).node_list@.len()
                        &&& (#[trigger] old(self).node_list@[i]).name@ == node.name@
                        &&& id == old(self).node_list@[i].id
                        &&& forall|j: int| 0 <= j < i ==> (#[trigger] old(self).node_list@[j]).name@ != node.name@
                    }
            },
            !name_taken(old(self).node_list@, node.name) ==> {
                &&& id == old(self).node_list@.len() as isize
                &&& final(self).node_list@ == old(self).node_list@.push(
                    Node { id: id, name: node.name, is_discovered: node.is_discovered },
                )
            },
    {
        let n = self.node_list.len();
        let mut i: usize = 0;
        while i < n
            invariant
                i <= n,
                n == self.node_list@.len(),
                *self == *old(self),
                forall|j: int| 0 <= j < i ==> (#[trigger] self.node_list@[j]).name@ != node.name@,
            decreases n - i,
        {
            if str_eq(self.node_list[i].name, node.name) {
                return self.node_list[i].id;
            }
            i += 1;
        }
        let id = n as isize;
        let mut stored = node;
        stored.id = id;
        self.node_list.push(stored);
        id
    }

    /// Retrieves a copy of the node with id `node_id`, or `None` when the
    /// id names no position in the graph.
    pub fn get_node(&self, node_id: isize) -> (found_node: Option<Node>)
        ensures
            found_node == if 0 <= node_id < self.node_list@.len() {
                Some(self.node_list@[node_id as int])
            } else {
                None::<Node>
            },
    {
        if node_id < 0 {
            return None;
        }
        let idx = node_id as usize;
        if idx >= self.node_list.len() {
            return None;
        }
        Some(self.node_list[idx])
    }
}

impl SearchResult {
    /// Creates an empty search result; the builder methods `links` and
    /// `cost` fill it in.
    pub fn new() -> (r: SearchResult)
        ensures
            r.links@ == Seq::<Link>::empty(),
            r.cost == 0,
    {
        SearchResult {
            links: Vec::<Link>::new(),
            cost: 0,
        }
    }

    /// Builder step replacing the list of links walked.
    pub fn links(self, links: Vec<Link>) -> (r: SearchResult)
        ensures
            r.links == links,
            r.cost == self.cost,
    {
        SearchResult { links, ..self }
    }

    /// Builder step replacing the summed path cost.
    pub fn cost(self, cost: usize) -> (r: SearchResult)
        ensures
            r.links == self.links,
            r.cost == cost,
    {
        SearchResult { cost, ..self }
    }
}

/// The id at the other end of the link `l` as seen from the node id `id`;
/// meaningful when `l` touches `id`.
pub open spec fn other_end(l: Link, id: isize) -> isize {
    if l.members.0 == id {
        l.members.1
    } else {
        l.members.0
    }
}

/// The summed cost of a list of links.
pub open spec fn sum_costs(path: Seq<Link>) -> int
    decreases path.len(),
{
    if path.len() == 0 {
        0
    } else {
        sum_costs(path.drop_last()) + path.last().cost
    }
}

/// The node id a chain of links ends at when walked from `start`, taking
/// the other end of each link in turn.
pub open spec fn chain_end(path: Seq<Link>, start: isize) -> isize
    decreases path.len(),
{
    if path.len() == 0 {
        start
    } else {
        other_end(path.last(), chain_end(path.drop_last(), start))
    }
}

/// Whether a list of links forms a chain when walked from `start`: each
/// link touches the node id reached so far.
pub open spec fn is_chain(path: Seq<Link>, start: isize) -> bool
    decreases path.len(),
{
    if path.len() == 0 {
        true
    } else {
        is_chain(path.drop_last(), start) && link_touches(path.last(), chain_end(path.drop_last(), start))
    }
}

/// How many stored nodes carry the `is_discovered` mark.
pub open spec fn discovered_count(ns: Seq<Node>) -> int
    decreases ns.len(),
{
    if ns.len() == 0 {
        0
    } else {
        discovered_count(ns.drop_last()) + if ns.last().is_discovered {
            1int
        } else {
            0int
        }
    }
}

/// Appending a link extends a chain exactly when the link touches the
/// chain's end, and moves the end to the link's other side.
pub proof fn lemma_chain_push(path: Seq<Link>, start: isize, l: Link)
    ensures
        chain_end(path.push(l), start) == other_end(l, chain_end(path, start)),
        is_chain(path.push(l), start) == (is_chain(path, start) && link_touches(l, chain_end(path, start))),
{
    assert(path.push(l).drop_last() =~= path);
}

/// Link costs are non-negative, so any sum of them is.
pub proof fn lemma_sum_costs_nonneg(path: Seq<Link>)
    ensures
        sum_costs(path) >= 0,
    decreases path.len(),
{
    if path.len() > 0 {
        lemma_sum_costs_nonneg(path.drop_last());
    }
}

/// A sum of link costs can also be peeled off at the front.
pub proof fn lemma_sum_costs_drop_first(path: Seq<Link>)
    requires
        path.len() >= 1,
    ensures
        sum_costs(path) == path[0].cost + sum_costs(path.drop_first()),
    decreases path.len(),
{
    if path.len() == 1 {
        assert(path.drop_first() =~= Seq::<Link>::empty());
        assert(path.drop_last() =~= Seq::<Link>::empty());
    } else {
        lemma_sum_costs_drop_first(path.drop_last());
        assert(path.drop_last().drop_first() =~= path.drop_first().drop_last());
        assert(path.drop_first().last() == path.last());
        assert(path.drop_last()[0] == path[0]);
    }
}

/// A prefix of a list of links costs no more than the whole list.
pub proof fn lemma_sum_costs_take_le(path: Seq<Link>, i: int)
    requires
        0 <= i <= path.len(),
    ensures
        sum_costs(path.take(i)) <= sum_costs(path),
    decreases path.len() - i,
{
    if i == path.len() {
        assert(path.take(i) =~= path);
    } else {
        assert(path.take(i + 1).drop_last() =~= path.take(i));
        lemma_sum_costs_take_le(path, i + 1);
    }
}

/// A single stored link costs no more than the sum of all stored links.
pub proof fn lemma_link_cost_le_sum(links: Seq<Link>, i: int)
    requires
        0 <= i < links.len(),
    ensures
        links[i].cost <= sum_costs(links),
    decreases links.len(),
{
    if i == links.len() - 1 {
        lemma_sum_costs_nonneg(links.drop_last());
    } else {
        lemma_link_cost_le_sum(links.drop_last(), i);
        assert(links.drop_last()[i] == links[i]);
    }
}

/// A list drawn from the stored links costs at most its length times the
/// sum of all stored link costs.
pub proof fn lemma_sum_costs_linked(path: Seq<Link>, links: Seq<Link>)
    requires
        forall|t: int| 0 <= t < path.len() ==> links.contains(#[trigger] path[t]),
    ensures
        sum_costs(path) <= path.len() * sum_costs(links),
    decreases path.len(),
{
    if path.len() == 0 {
    } else {
        assert forall|t: int| 0 <= t < path.drop_last().len() implies links.contains(
            #[trigger] path.drop_last()[t],
        ) by {
            assert(path.drop_last()[t] == path[t]);
        }
        lemma_sum_costs_linked(path.drop_last(), links);
        let l = path.last();
        assert(links.contains(l));
        let idx = choose|idx: int| 0 <= idx < links.len() && links[idx] == l;
        lemma_link_cost_le_sum(links, idx);
        assert((path.len() - 1) * sum_costs(links) + sum_costs(links) == path.len() * sum_costs(links))
            by (nonlinear_arith);
    }
}

/// The discovery count is bounded by the number of nodes.
pub proof fn lemma_discovered_count_bounds(ns: Seq<Node>)
    ensures
        0 <= discovered_count(ns) <= ns.len(),
    decreases ns.len(),
{
    if ns.len() > 0 {
        lemma_discovered_count_bounds(ns.drop_last());
    }
}

/// How a node list relates to an earlier version of itself under the
/// search routines: same nodes, and discovery marks are only ever added.
pub open spec fn marks_monotone(a: Seq<Node>, b: Seq<Node>) -> bool {
    &&& b.len() == a.len()
    &&& forall|i: int| #![auto] 0 <= i < a.len() ==> {
        &&& b[i].id == a[i].id
        &&& b[i].name == a[i].name
        &&& (a[i].is_discovered ==> b[i].is_discovered)
    }
}

/// Adding discovery marks can only raise the discovery count.
pub proof fn lemma_discovered_count_monotone(a: Seq<Node>, b: Seq<Node>)
    requires
        marks_monotone(a, b),
    ensures
        discovered_count(a) <= discovered_count(b),
    decreases a.len(),
{
    if a.len() > 0 {
        assert(marks_monotone(a.drop_last(), b.drop_last())) by {
            assert forall|i: int| 0 <= i < a.drop_last().len() implies {
                &&& b.drop_last()[i].id == a.drop_last()[i].id
                &&& b.drop_last()[i].name == a.drop_last()[i].name
                &&& (a.drop_last()[i].is_discovered ==> b.drop_last()[i].is_discovered)
            } by {
                assert(a.drop_last()[i] == a[i]);
                assert(b.drop_last()[i] == b[i]);
            }
        }
        lemma_discovered_count_monotone(a.drop_last(), b.drop_last());
    }
}

/// Adding discovery marks that include a node not marked before raises the
/// discovery count strictly.
pub proof fn lemma_discovered_count_strict(a: Seq<Node>, b: Seq<Node>, i: int)
    requires
        marks_monotone(a, b),
        0 <= i < a.len(),
        !a[i].is_discovered,
        b[i].is_discovered,
    ensures
        discovered_count(a) + 1 <= discovered_count(b),
    decreases a.len(),
{
    assert(marks_monotone(a.drop_last(), b.drop_last())) by {
        assert forall|j: int| 0 <= j < a.drop_last().len() implies {
            &&& b.drop_last()[j].id == a.drop_last()[j].id
            &&& b.drop_last()[j].name == a.drop_last()[j].name
            &&& (a.drop_last()[j].is_discovered ==> b.drop_last()[j].is_discovered)
        } by {
            assert(a.drop_last()[j] == a[j]);
            assert(b.drop_last()[j] == b[j]);
        }
    }
    if i == a.len() - 1 {
        lemma_discovered_count_monotone(a.drop_last(), b.drop_last());
    } else {
        assert(a.drop_last()[i] == a[i]);
        assert(b.drop_last()[i] == b[i]);
        lemma_discovered_count_strict(a.drop_last(), b.drop_last(), i);
    }
}

/// A chain can be assembled from two pieces: the second walked from where
/// the first ends.
pub proof fn lemma_chain_concat(s1: Seq<Link>, s2: Seq<Link>, a: isize)
    ensures
        chain_end(s1 + s2, a) == chain_end(s2, chain_end(s1, a)),
        is_chain(s1 + s2, a) == (is_chain(s1, a) && is_chain(s2, chain_end(s1, a))),
    decreases s2.len(),
{
    if s2.len() == 0 {
        assert(s1 + s2 =~= s1);
    } else {
        assert((s1 + s2).drop_last() =~= s1 + s2.drop_last());
        lemma_chain_concat(s1, s2.drop_last(), a);
        assert((s1 + s2).last() == s2.last());
    }
}

/// Marking an undiscovered node raises the discovery count by one.
pub proof fn lemma_discovered_count_update(ns: Seq<Node>, i: int, n2: Node)
    requires
        0 <= i < ns.len(),
        !ns[i].is_discovered,
        n2.is_discovered,
    ensures
        discovered_count(ns.update(i, n2)) == discovered_count(ns) + 1,
    decreases ns.len(),
{
    let ns2 = ns.update(i, n2);
    if i == ns.len() - 1 {
        assert(ns2.drop_last() =~= ns.drop_last());
        assert(ns2.last() == n2);
    } else {
        assert(ns2.drop_last() =~= ns.drop_last().update(i, n2));
        lemma_discovered_count_update(ns.drop_last(), i, n2);
        assert(ns2.last() == ns.last());
    }
}

} // verus!
