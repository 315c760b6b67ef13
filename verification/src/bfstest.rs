//! A spanning-tree variant whose nodes also carry a discovery mark, so
//! that the same topology can both run the root-election gossip and be
//! walked breadth-first by [`find_path_to_element`].
//!
//! The protocol parts mirror the `spanningtree` module: nodes gossip root
//! suggestions over weighted links, accepting a more senior root
//! unconditionally and a cheaper path to the shared root otherwise.

use vstd::prelude::*;

use crate::spanningtree::random_below;

verus! {

/// One participant: the root-election belief triple, the message counter,
/// and a discovery mark for the path search.
#[derive(Copy, Clone, Debug)]
pub struct Node {
    pub id: isize,
    pub name: &'static str,
    pub msg_count: usize,
    pub next_hop: Option<isize>,
    pub root_cost: usize,
    pub root_id: isize,
    pub is_discovered: bool,
}

/// An undirected weighted edge between the two node ids in `members`.
#[derive(Copy, Clone, Debug, PartialEq)]
pub struct Link {
    pub members: (isize, isize),
    pub cost: usize,
}

/// The topology store: owns the nodes and the links between them, and
/// tracks the lowest id inserted so far.
#[derive(Clone, Debug, Default)]
pub struct Tree {
    pub node_list: Vec<Node>,
    pub root_id: Option<isize>,
    pub link_list: Vec<Link>,
}

/// A result of a path search: the links walked and their summed cost.
#[derive(Default, Debug)]
pub struct SearchResult {
    pub links: Vec<Link>,
    pub cost: usize,
}

/// Whether the link `l` joins the node ids `a` and `b`, in either
/// orientation.
pub open spec fn link_joins(l: Link, a: isize, b: isize) -> bool {
    (l.members.0 == a && l.members.1 == b) || (l.members.0 == b && l.members.1 == a)
}

/// Whether the link `l` has the node id `id` as one of its endpoints.
pub open spec fn link_touches(l: Link, id: isize) -> bool {
    l.members.0 == id || l.members.1 == id
}

/// Whether some stored link joins the node ids `a` and `b`.
pub open spec fn has_link(links: Seq<Link>, a: isize, b: isize) -> bool {
    exists|i: int| 0 <= i < links.len() && link_joins(links[i], a, b)
}

/// Whether some stored node carries the id `id`.
pub open spec fn has_node(ns: Seq<Node>, id: isize) -> bool {
    exists|i: int| 0 <= i < ns.len() && ns[i].id == id
}

/// What `Tree::find_link` returns: the first stored link joining `a` and
/// `b`, or `None` when no stored link joins them.
pub open spec fn link_search_result(links: Seq<Link>, a: isize, b: isize, r: Option<Link>) -> bool {
    match r {
        Some(l) => exists|i: int|
            {
                &&& 0 <= i < links.len()
                &&& l == links[i]
                &&& link_joins(#[trigger] links[i], a, b)
                &&& forall|j: int| 0 <= j < i ==> !link_joins(#[trigger] links[j], a, b)
            },
        None => forall|i: int| 0 <= i < links.len() ==> !link_joins(#[trigger] links[i], a, b),
    }
}

/// What `Tree::get_node` returns: a copy of the first stored node with id
/// `id`, or `None` when the id is absent.
pub open spec fn node_search_result(ns: Seq<Node>, id: isize, r: Option<Node>) -> bool {
    match r {
        Some(n) => exists|i: int|
            {
                &&& 0 <= i < ns.len()
                &&& n == ns[i]
                &&& (#[trigger] ns[i]).id == id
                &&& forall|j: int| 0 <= j < i ==> (#[trigger] ns[j]).id != id
            },
        None => forall|i: int| 0 <= i < ns.len() ==> (#[trigger] ns[i]).id != id,
    }
}

/// The acceptance rule: a suggestion is accepted exactly when the
/// suggested root is strictly more senior, or the same root comes over a
/// strictly cheaper path.
pub open spec fn accepts_suggestion(n: Node, suggested_id: isize, root_cost: usize) -> bool {
    suggested_id < n.root_id || (suggested_id == n.root_id && root_cost < n.root_cost)
}

/// The state a node moves to on receiving a suggestion.
pub open spec fn with_suggestion(n: Node, suggested_id: isize, source_id: isize, root_cost: usize) -> Node {
    if suggested_id < n.root_id {
        Node {
            msg_count: (n.msg_count + 1) as usize,
            next_hop: Some(source_id),
            root_cost: root_cost,
            root_id: suggested_id,
            ..n
        }
    } else if suggested_id == n.root_id && root_cost < n.root_cost {
        Node {
            msg_count: (n.msg_count + 1) as usize,
            next_hop: Some(source_id),
            root_cost: root_cost,
            ..n
        }
    } else {
        Node { msg_count: (n.msg_count + 1) as usize, ..n }
    }
}

/// How one node compares to its earlier self under the gossip: identity
/// and discovery mark unchanged, message counter never down, belief only
/// towards a more senior root or a cheaper path.
pub open spec fn node_no_worse(a: Node, b: Node) -> bool {
    &&& b.id == a.id
    &&& b.name == a.name
    &&& b.is_discovered == a.is_discovered
    &&& b.msg_count >= a.msg_count
    &&& (b.root_id < a.root_id || (b.root_id == a.root_id && b.root_cost <= a.root_cost))
}

/// Element-wise `node_no_worse` over whole node lists of equal length.
pub open spec fn nodes_no_worse(a: Seq<Node>, b: Seq<Node>) -> bool {
    &&& b.len() == a.len()
    &&& forall|i: int| #![auto] 0 <= i < a.len() ==> node_no_worse(a[i], b[i])
}

/// Whether the triple `(k, i, j)` names a possible gossip event: along the
/// stored link `k`, the node at index `i` suggests its belief to the node
/// at index `j` on the other end; a link back to the same id is filtered.
pub open spec fn can_gossip(ns: Seq<Node>, links: Seq<Link>, k: int, i: int, j: int) -> bool {
    &&& 0 <= k < links.len()
    &&& 0 <= i < ns.len()
    &&& 0 <= j < ns.len()
    &&& link_joins(links[k], ns[i].id, ns[j].id)
    &&& ns[i].id != ns[j].id
}

/// The node list after the gossip event `(k, i, j)`.
pub open spec fn gossip_event(ns: Seq<Node>, links: Seq<Link>, k: int, i: int, j: int) -> Seq<Node> {
    ns.update(
        j,
        with_suggestion(ns[j], ns[i].root_id, ns[i].id, ((ns[i].root_cost + links[k].cost) as usize)),
    )
}

/// One in-bounds gossip event leads from `ns` to `ns2`.  An event whose
/// message counter or path-cost sum would leave the machine range cannot
/// occur: the engine does not deliver such a suggestion.
pub open spec fn gossip_step(ns: Seq<Node>, links: Seq<Link>, ns2: Seq<Node>) -> bool {
    exists|k: int, i: int, j: int|
        {
            &&& can_gossip(ns, links, k, i, j)
            &&& ns[j].msg_count < usize::MAX
            &&& ns[i].root_cost + links[k].cost <= usize::MAX
            &&& ns2 == #[trigger] gossip_event(ns, links, k, i, j)
        }
}

/// `ns2` is reached from `ns` by exactly `steps` gossip events.
pub open spec fn gossip_reaches_in(ns: Seq<Node>, links: Seq<Link>, ns2: Seq<Node>, steps: nat) -> bool
    decreases steps,
{
    if steps == 0 {
        ns2 == ns
    } else {
        exists|mid: Seq<Node>|
            gossip_reaches_in(ns, links, mid, (steps - 1) as nat) && #[trigger] gossip_step(mid, links, ns2)
    }
}

/// `ns2` is reached from `ns` by some number of gossip events.
pub open spec fn gossip_reachable(ns: Seq<Node>, links: Seq<Link>, ns2: Seq<Node>) -> bool {
    exists|steps: nat| gossip_reaches_in(ns, links, ns2, steps)
}

/// A node list is always gossip-reachable from itself.
pub proof fn lemma_gossip_reachable_refl(ns: Seq<Node>, links: Seq<Link>)
    ensures
        gossip_reachable(ns, links, ns),
{
    assert(gossip_reaches_in(ns, links, ns, 0));
}

/// Reachability extends by one further gossip event.
pub proof fn lemma_gossip_reachable_step(ns: Seq<Node>, links: Seq<Link>, mid: Seq<Node>, ns2: Seq<Node>)
    requires
        gossip_reachable(ns, links, mid),
        gossip_step(mid, links, ns2),
    ensures
        gossip_reachable(ns, links, ns2),
{
    let steps = choose|steps: nat| gossip_reaches_in(ns, links, mid, steps);
    assert(gossip_reaches_in(ns, links, ns2, steps + 1));
}

/// Reachability is transitive.
pub proof fn lemma_gossip_reachable_trans(ns: Seq<Node>, links: Seq<Link>, mid: Seq<Node>, ns2: Seq<Node>)
    requires
        gossip_reachable(ns, links, mid),
        gossip_reachable(mid, links, ns2),
    ensures
        gossip_reachable(ns, links, ns2),
{
    let steps = choose|steps: nat| gossip_reaches_in(mid, links, ns2, steps);
    lemma_gossip_reachable_trans_in(ns, links, mid, ns2, steps);
}

proof fn lemma_gossip_reachable_trans_in(ns: Seq<Node>, links: Seq<Link>, mid: Seq<Node>, ns2: Seq<Node>, steps: nat)
    requires
        gossip_reachable(ns, links, mid),
        gossip_reaches_in(mid, links, ns2, steps),
    ensures
        gossip_reachable(ns, links, ns2),
    decreases steps,
{
    if steps == 0 {
        assert(ns2 == mid);
    } else {
        let m2 = choose|m2: Seq<Node>|
            gossip_reaches_in(mid, links, m2, (steps - 1) as nat) && #[trigger] gossip_step(m2, links, ns2);
        lemma_gossip_reachable_trans_in(ns, links, mid, m2, (steps - 1) as nat);
        lemma_gossip_reachable_step(ns, links, m2, ns2);
    }
}

/// A single gossip event never makes any node's belief worse.
pub proof fn lemma_gossip_step_no_worse(ns: Seq<Node>, links: Seq<Link>, ns2: Seq<Node>)
    requires
        gossip_step(ns, links, ns2),
    ensures
        nodes_no_worse(ns, ns2),
{
    let (k, i, j) = choose|k: int, i: int, j: int|
        {
            &&& can_gossip(ns, links, k, i, j)
            &&& ns[j].msg_count < usize::MAX
            &&& ns[i].root_cost + links[k].cost <= usize::MAX
            &&& ns2 == #[trigger] gossip_event(ns, links, k, i, j)
        };
    assert(ns2 == gossip_event(ns, links, k, i, j));
}

/// No sequence of gossip events makes any node's belief worse.
pub proof fn lemma_gossip_reachable_no_worse(ns: Seq<Node>, links: Seq<Link>, ns2: Seq<Node>)
    requires
        gossip_reachable(ns, links, ns2),
    ensures
        nodes_no_worse(ns, ns2),
{
    let steps = choose|steps: nat| gossip_reaches_in(ns, links, ns2, steps);
    lemma_gossip_reachable_no_worse_in(ns, links, ns2, steps);
}

proof fn lemma_gossip_reachable_no_worse_in(ns: Seq<Node>, links: Seq<Link>, ns2: Seq<Node>, steps: nat)
    requires
        gossip_reaches_in(ns, links, ns2, steps),
    ensures
        nodes_no_worse(ns, ns2),
    decreases steps,
{
    if steps == 0 {
        assert(ns2 == ns);
    } else {
        let mid = choose|mid: Seq<Node>|
            gossip_reaches_in(ns, links, mid, (steps - 1) as nat) && #[trigger] gossip_step(mid, links, ns2);
        lemma_gossip_reachable_no_worse_in(ns, links, mid, (steps - 1) as nat);
        lemma_gossip_step_no_worse(mid, links, ns2);
    }
}

/// The id at the other end of the link `l` as seen from the node id `id`;
/// meaningful when `l` touches `id`.
pub open spec fn other_end(l: Link, id: isize) -> isize {
    if l.members.0 == id {
        l.members.1
    } else {
        l.members.0
    }
}

/// The smallest index whose node carries the id `id` (the node that
/// lookups by id resolve to); meaningful when such a node exists.
pub open spec fn first_node_index(ns: Seq<Node>, id: isize) -> int
    decreases ns.len(),
{
    if ns.len() == 0 {
        0
    } else if ns[0].id == id {
        0
    } else {
        1 + first_node_index(ns.drop_first(), id)
    }
}

/// The `first_node_index` lookup really is the first index carrying the id.
pub proof fn lemma_first_node_index(ns: Seq<Node>, id: isize)
    requires
        has_node(ns, id),
    ensures
        0 <= first_node_index(ns, id) < ns.len(),
        ns[first_node_index(ns, id)].id == id,
        forall|j: int| 0 <= j < first_node_index(ns, id) ==> (#[trigger] ns[j]).id != id,
    decreases ns.len(),
{
    if ns.len() == 0 {
    } else if ns[0].id == id {
    } else {
        let tail = ns.drop_first();
        assert(has_node(tail, id)) by {
            let w = choose|w: int| 0 <= w < ns.len() && ns[w].id == id;
            assert(tail[w - 1].id == id);
        }
        lemma_first_node_index(tail, id);
        assert forall|j: int| 0 <= j < first_node_index(ns, id) implies (#[trigger] ns[j]).id != id by {
            if j > 0 {
                assert(ns[j] == tail[j - 1]);
            }
        }
    }
}

/// The node list after the id `target_id` (resolved to the first node
/// carrying it, if any) receives the suggestion `(sroot, scost)` from
/// `src`; absent ids receive nothing, and neither does a node whose
/// message counter has no room left.
pub open spec fn apply_suggestion_by_id(ns: Seq<Node>, target_id: isize, sroot: isize, src: isize, scost: usize) -> Seq<Node> {
    if has_node(ns, target_id) && ns[first_node_index(ns, target_id)].msg_count < usize::MAX {
        ns.update(first_node_index(ns, target_id), with_suggestion(ns[first_node_index(ns, target_id)], sroot, src, scost))
    } else {
        ns
    }
}

/// One full neighbor sweep of the propagation engine, processing the
/// stored links from index `from` on; a suggestion whose cost sum would
/// leave the machine range is not delivered.
pub open spec fn sweep(ns: Seq<Node>, links: Seq<Link>, from: int, xid: isize, xroot: isize, xcost: usize) -> Seq<Node>
    decreases links.len() - from,
{
    if from < 0 || from >= links.len() {
        ns
    } else {
        let l = links[from];
        let target = other_end(l, xid);
        let ns1 = if link_touches(l, xid) && target != xid && xcost + l.cost <= usize::MAX {
            apply_suggestion_by_id(ns, target, xroot, xid, ((xcost + l.cost) as usize))
        } else {
            ns
        };
        sweep(ns1, links, from + 1, xid, xroot, xcost)
    }
}

/// What one non-recursive `Tree::run_calc` leaves behind: a single
/// neighbor sweep from the named node's snapshot belief.
pub open spec fn run_calc_once_model(ns: Seq<Node>, links: Seq<Link>, node_id: isize) -> Seq<Node> {
    if has_node(ns, node_id) {
        let x = ns[first_node_index(ns, node_id)];
        sweep(ns, links, 0, node_id, x.root_id, x.root_cost)
    } else {
        ns
    }
}

/// One link of a neighbor sweep, tracked together with the cascade
/// worklist: when the link is eligible (it touches the sweeping id, leads
/// to a different id that names a stored node, and neither the receiver's
/// message counter nor the cost sum would leave the machine range), the
/// node on the far end receives the snapshot belief, and an accepting
/// receiver is queued for recursive propagation.
pub open spec fn sweep_step_model(
    ns: Seq<Node>,
    wl: Seq<isize>,
    l: Link,
    xid: isize,
    xroot: isize,
    xcost: usize,
    recursive: bool,
) -> (Seq<Node>, Seq<isize>) {
    let target = other_end(l, xid);
    if link_touches(l, xid) && target != xid && xcost + l.cost <= usize::MAX && has_node(ns, target)
        && ns[first_node_index(ns, target)].msg_count < usize::MAX {
        let receiver = ns[first_node_index(ns, target)];
        let scost = (xcost + l.cost) as usize;
        let ns1 = ns.update(first_node_index(ns, target), with_suggestion(receiver, xroot, xid, scost));
        let wl1 = if accepts_suggestion(receiver, xroot, scost) && recursive {
            wl.push(target)
        } else {
            wl
        };
        (ns1, wl1)
    } else {
        (ns, wl)
    }
}

/// A full neighbor sweep from the snapshot belief `(xroot, xcost)` of the
/// id `xid`, processing the stored links from index `from` on and
/// collecting accepting neighbors on the worklist.
pub open spec fn sweep_wl_model(
    ns: Seq<Node>,
    wl: Seq<isize>,
    links: Seq<Link>,
    from: int,
    xid: isize,
    xroot: isize,
    xcost: usize,
    recursive: bool,
) -> (Seq<Node>, Seq<isize>)
    decreases links.len() - from,
{
    if from < 0 || from >= links.len() {
        (ns, wl)
    } else {
        let stepped = sweep_step_model(ns, wl, links[from], xid, xroot, xcost, recursive);
        sweep_wl_model(stepped.0, stepped.1, links, from + 1, xid, xroot, xcost, recursive)
    }
}

/// The breadth-first cascade over an explicit worklist, exactly as the
/// engine runs it: pop the id at `head`, sweep its neighbors from its
/// snapshot belief, queue the acceptors, and go on until the worklist or
/// the round budget is exhausted.
pub open spec fn cascade_model(
    ns: Seq<Node>,
    wl: Seq<isize>,
    links: Seq<Link>,
    head: int,
    fuel: nat,
    recursive: bool,
) -> Seq<Node>
    decreases fuel,
{
    if head < 0 || head >= wl.len() || fuel == 0 {
        ns
    } else {
        let x = wl[head];
        if has_node(ns, x) {
            let xe = ns[first_node_index(ns, x)];
            let swept = sweep_wl_model(ns, wl, links, 0, x, xe.root_id, xe.root_cost, recursive);
            cascade_model(swept.0, swept.1, links, head + 1, (fuel - 1) as nat, recursive)
        } else {
            cascade_model(ns, wl, links, head + 1, (fuel - 1) as nat, recursive)
        }
    }
}

/// What `Tree::run_calc` leaves behind, in either mode: the deterministic
/// cascade from the named node, under the engine's round budget.  An
/// absent id leaves the node list unchanged.
pub open spec fn run_calc_model(ns: Seq<Node>, links: Seq<Link>, node_id: isize, recursive: bool) -> Seq<Node> {
    cascade_model(ns, seq![node_id], links, 0, usize::MAX as nat, recursive)
}

/// One draw of the convergence driver: the id of some node stored in `ns1`
/// is propagated from, with the engine's full cascade semantics.
pub open spec fn driver_step(ns1: Seq<Node>, links: Seq<Link>, ns2: Seq<Node>, recursive: bool) -> bool {
    exists|x: isize| has_node(ns1, x) && ns2 == #[trigger] run_calc_model(ns1, links, x, recursive)
}

/// `ns2` is the result of exactly `k` driver draws from `ns1`: every
/// change the driver makes comes from whole propagation runs on stored
/// node ids, and a batch of `k` draws makes `k` of them.
pub open spec fn driver_batch(ns1: Seq<Node>, links: Seq<Link>, ns2: Seq<Node>, recursive: bool, k: nat) -> bool
    decreases k,
{
    if k == 0 {
        ns2 == ns1
    } else {
        exists|mid: Seq<Node>|
            driver_batch(ns1, links, mid, recursive, (k - 1) as nat) && #[trigger] driver_step(
                mid,
                links,
                ns2,
                recursive,
            )
    }
}

/// At least one stored node's full neighbor sweep has been carried out:
/// the state is gossip-reachable from the one-sweep model of some id that
/// was stored in `ns0`.
pub open spec fn swept_from_some(ns0: Seq<Node>, links: Seq<Link>, ns: Seq<Node>) -> bool {
    exists|x: isize|
        has_node(ns0, x) && gossip_reachable(#[trigger] run_calc_once_model(ns0, links, x), links, ns)
}

/// Returns the position of the first node carrying `id`, or `None` when
/// the id is absent.
fn node_position(ns: &Vec<Node>, id: isize) -> (r: Option<usize>)
    ensures
        match r {
            Some(i) => {
                &&& i < ns@.len()
                &&& ns@[i as int].id == id
                &&& forall|j: int| 0 <= j < i ==> (#[trigger] ns@[j]).id != id
            },
            None => !has_node(ns@, id),
        },
{
    let n = ns.len();
    let mut i: usize = 0;
    while i < n
        invariant
            i <= n,
            n == ns@.len(),
            forall|j: int| 0 <= j < i ==> (#[trigger] ns@[j]).id != id,
        decreases n - i,
    {
        if ns[i].id == id {
            return Some(i);
        }
        i += 1;
    }
    None
}

impl Node {
    /// Creates a node that believes itself to be the root and has not been
    /// discovered by any search.
    pub fn new(id: isize, name: &'static str) -> (n: Node)
        ensures
            n == (Node {
                id: id,
                name: name,
                msg_count: 0,
                next_hop: None::<isize>,
                root_cost: 0,
                root_id: id,
                is_discovered: false,
            }),
    {
        Node {
            id,
            name,
            msg_count: 0,
            next_hop: None,
            root_cost: 0,
            root_id: id,
            is_discovered: false,
        }
    }

    /// Receives a root suggestion; returns true exactly when it was
    /// accepted.  The message counter advances either way.
    pub fn receive_suggestion(&mut self, suggested_id: isize, source_id: isize, root_cost: usize) -> (accepted: bool)
        requires
            old(self).msg_count < usize::MAX,
        ensures
            accepted == accepts_suggestion(*old(self), suggested_id, root_cost),
            *final(self) == with_suggestion(*old(self), suggested_id, source_id, root_cost),
    {
        self.msg_count += 1;
        if suggested_id < self.root_id {
            self.root_cost = root_cost;
            self.next_hop = Some(source_id);
            self.root_id = suggested_id;
            return true;
        } else if suggested_id == self.root_id && root_cost < self.root_cost {
            self.root_cost = root_cost;
            self.next_hop = Some(source_id);
            return true;
        }
        false
    }
}

impl Link {
    /// Creates a link between the two node ids in `members`.
    pub fn new(members: (isize, isize), cost: usize) -> (l: Link)
        ensures
            l == (Link { members, cost }),
    {
        Link { members, cost }
    }
}

impl Tree {
    /// Creates an empty topology.
    pub fn new() -> (t: Tree)
        ensures
            t.node_list@ == Seq::<Node>::empty(),
            t.link_list@ == Seq::<Link>::empty(),
            t.root_id == None::<isize>,
    {
        Tree {
            node_list: Vec::new(),
            root_id: None,
            link_list: Vec::new(),
        }
    }

    /// Returns the first stored link, if any, between nodes `a` and `b`.
    pub fn find_link(&mut self, a: isize, b: isize) -> (found_link: Option<Link>)
        ensures
            *final(self) == *old(self),
            link_search_result(final(self).link_list@, a, b, found_link),
            found_link.is_some() == has_link(final(self).link_list@, a, b),
    {
        let n = self.link_list.len();
        let mut i: usize = 0;
        while i < n
            invariant
                i <= n,
                n == self.link_list@.len(),
                *self == *old(self),
                forall|j: int| 0 <= j < i ==> !link_joins(#[trigger] self.link_list@[j], a, b),
            decreases n - i,
        {
            let l = self.link_list[i];
            if l.members.0 == a && l.members.1 == b || l.members.0 == b && l.members.1 == a {
                return Some(l);
            }
            i += 1;
        }
        None
    }

    /// Returns all stored links that touch the node id `node_id`.
    pub fn find_links(&self, node_id: isize) -> (found: Vec<Link>)
        ensures
            found@ == self.link_list@.filter(|l: Link| link_touches(l, node_id)),
    {
        let n = self.link_list.len();
        let mut found: Vec<Link> = Vec::new();
        let mut i: usize = 0;
        proof {
            assert(self.link_list@.take(0).filter(|l: Link| link_touches(l, node_id)) =~= Seq::<Link>::empty());
        }
        while i < n
            invariant
                i <= n,
                n == self.link_list@.len(),
                found@ == self.link_list@.take(i as int).filter(|l: Link| link_touches(l, node_id)),
            decreases n - i,
        {
            let l = self.link_list[i];
            proof {
                assert(self.link_list@.take(i + 1) =~= self.link_list@.take(i as int).push(l));
                self.link_list@.take(i as int).lemma_filter_push(l, |l: Link| link_touches(l, node_id));
            }
            if l.members.0 == node_id || l.members.1 == node_id {
                found.push(l);
            }
            i += 1;
        }
        proof {
            assert(self.link_list@.take(n as int) =~= self.link_list@);
        }
        found
    }

    /// Adds a link unless one between the same pair is already stored.
    pub fn add_link(&mut self, link: Link)
        ensures
            final(self).node_list == old(self).node_list,
            final(self).root_id == old(self).root_id,
            final(self).link_list@ == if has_link(old(self).link_list@, link.members.0, link.members.1) {
                old(self).link_list@
            } else {
                old(self).link_list@.push(link)
            },
    {
        if self.find_link(link.members.0, link.members.1).is_none() {
            self.link_list.push(link);
        }
    }

    /// Adds a node unless its id is already taken, keeping `root_id` equal
    /// to the lowest id inserted so far.
    pub fn add_node(&mut self, node: Node)
        ensures
            final(self).link_list == old(self).link_list,
            final(self).node_list@ == if has_node(old(self).node_list@, node.id) {
                old(self).node_list@
            } else {
                old(self).node_list@.push(node)
            },
            final(self).root_id == if has_node(old(self).node_list@, node.id) {
                old(self).root_id
            } else {
                match old(self).root_id {
                    None => Some(node.id),
                    Some(r) => if node.id < r {
                        Some(node.id)
                    } else {
                        Some(r)
                    },
                }
            },
    {
        let n = self.node_list.len();
        let mut i: usize = 0;
        while i < n
            invariant
                i <= n,
                n == self.node_list@.len(),
                *self == *old(self),
                forall|j: int| 0 <= j < i ==> (#[trigger] self.node_list@[j]).id != node.id,
            decreases n - i,
        {
            if self.node_list[i].id == node.id {
                return;
            }
            i += 1;
        }
        if self.root_id.is_none() || (self.root_id.is_some() && node.id < self.root_id.unwrap()) {
            self.root_id = Some(node.id);
        }
        self.node_list.push(node);
    }

    /// Returns a copy of the node with id `node_id`, or `None` when the id
    /// is absent.
    pub fn get_node(&self, node_id: isize) -> (found_node: Option<Node>)
        ensures
            node_search_result(self.node_list@, node_id, found_node),
            found_node.is_some() == has_node(self.node_list@, node_id),
    {
        let n = self.node_list.len();
        let mut i: usize = 0;
        while i < n
            invariant
                i <= n,
                n == self.node_list@.len(),
                forall|j: int| 0 <= j < i ==> (#[trigger] self.node_list@[j]).id != node_id,
            decreases n - i,
        {
            if self.node_list[i].id == node_id {
                return Some(self.node_list[i]);
            }
            i += 1;
        }
        None
    }

    /// Propagates the named node's current belief to all of its neighbors:
    /// along every link that touches `node_id`, the node on the other end
    /// receives the snapshot belief plus the link cost.  With `recursive`
    /// set, every neighbor that accepted is afterwards propagated from in
    /// turn, as a breadth-first cascade over an explicit worklist.
    ///
    /// In either mode the result is exactly the cascade model over the
    /// explicit worklist; without `recursive` that collapses to the
    /// one-sweep model, and with it the full sweep still happens first and
    /// only further gossip events follow, so the final state is
    /// gossip-reachable from the swept one.  A suggestion that would push a message counter or a
    /// path-cost sum past the machine range is not delivered; real
    /// topologies are nowhere near those bounds.
    ///
    /// Changes nothing when `node_id` is absent from the topology; that is
    /// a recoverable outcome, not an error.
    pub fn run_calc(&mut self, node_id: isize, recursive: bool)
        ensures
            !has_node(old(self).node_list@, node_id) ==> *final(self) == *old(self),
            final(self).link_list == old(self).link_list,
            final(self).root_id == old(self).root_id,
            gossip_reachable(old(self).node_list@, old(self).link_list@, final(self).node_list@),
            nodes_no_worse(old(self).node_list@, final(self).node_list@),
            has_node(old(self).node_list@, node_id) ==> gossip_reachable(
                run_calc_once_model(old(self).node_list@, old(self).link_list@, node_id),
                old(self).link_list@,
                final(self).node_list@,
            ),
            !recursive ==> final(self).node_list@ == run_calc_once_model(
                old(self).node_list@,
                old(self).link_list@,
                node_id,
            ),
            final(self).node_list@ == run_calc_model(
                old(self).node_list@,
                old(self).link_list@,
                node_id,
                recursive,
            ),
    {
        if node_position(&self.node_list, node_id).is_none() {
            proof {
                lemma_gossip_reachable_refl(self.node_list@, self.link_list@);
                let wl = seq![node_id];
                assert(cascade_model(self.node_list@, wl, self.link_list@, 1, (usize::MAX - 1) as nat, recursive)
                    == self.node_list@);
                assert(run_calc_model(self.node_list@, self.link_list@, node_id, recursive) == self.node_list@);
                lemma_gossip_reachable_no_worse(self.node_list@, self.link_list@, self.node_list@);
            }
            return;
        }
        let mut worklist: Vec<isize> = Vec::new();
        worklist.push(node_id);
        proof {
            assert(worklist@ =~= seq![node_id]);
        }
        let mut head: usize = 0;
        // The cascade terminates because every acceptance strictly lowers a
        // belief in the seniority-then-cost order; the explicit budget makes
        // the loop carry a termination metric without that argument.
        let mut fuel: usize = usize::MAX;
        proof {
            lemma_gossip_reachable_refl(self.node_list@, self.link_list@);
        }
        while head < worklist.len() && fuel > 0
            invariant
                head <= worklist@.len(),
                head as int + fuel as int == usize::MAX as int,
                worklist@.len() >= 1,
                worklist@[0] == node_id,
                has_node(old(self).node_list@, node_id),
                self.link_list == old(self).link_list,
                self.root_id == old(self).root_id,
                gossip_reachable(old(self).node_list@, old(self).link_list@, self.node_list@),
                !recursive ==> worklist@.len() == 1,
                head == 0 ==> self.node_list@ == old(self).node_list@,
                head >= 1 ==> gossip_reachable(
                    run_calc_once_model(old(self).node_list@, old(self).link_list@, node_id),
                    old(self).link_list@,
                    self.node_list@,
                ),
                !recursive && head >= 1 ==> self.node_list@ == run_calc_once_model(
                    old(self).node_list@,
                    old(self).link_list@,
                    node_id,
                ),
                cascade_model(
                    self.node_list@,
                    worklist@,
                    old(self).link_list@,
                    head as int,
                    fuel as nat,
                    recursive,
                ) == run_calc_model(old(self).node_list@, old(self).link_list@, node_id, recursive),
            decreases fuel,
        {
            let ghost ns_pop = self.node_list@;
            let ghost wl_pop = worklist@;
            let ghost head_pop = head as int;
            let ghost fuel_pop = fuel as nat;
            fuel = fuel - 1;
            let current = worklist[head];
            head = head + 1;
            let ghost first = head == 1;
            let ghost once_model = run_calc_once_model(
                old(self).node_list@,
                old(self).link_list@,
                node_id,
            );
            if let Some(ci) = node_position(&self.node_list, current) {
                let snap_root = self.node_list[ci].root_id;
                let snap_cost = self.node_list[ci].root_cost;
                proof {
                    assert(has_node(ns_pop, current));
                    lemma_first_node_index(ns_pop, current);
                    assert(ci as int == first_node_index(ns_pop, current));
                }
                let nlinks = self.link_list.len();
                let mut li: usize = 0;
                while li < nlinks
                    invariant
                        li <= nlinks,
                        nlinks == self.link_list@.len(),
                        self.link_list == old(self).link_list,
                        self.root_id == old(self).root_id,
                        gossip_reachable(old(self).node_list@, old(self).link_list@, self.node_list@),
                        ci < self.node_list@.len(),
                        self.node_list@[ci as int].id == current,
                        self.node_list@[ci as int].root_id == snap_root,
                        self.node_list@[ci as int].root_cost == snap_cost,
                        worklist@.len() >= 1,
                        worklist@[0] == node_id,
                        head <= worklist@.len(),
                        !recursive ==> worklist@.len() == 1,
                        first ==> current == node_id && ns_pop == old(self).node_list@,
                        first ==> sweep(
                            self.node_list@,
                            self.link_list@,
                            li as int,
                            current,
                            snap_root,
                            snap_cost,
                        ) == sweep(ns_pop, self.link_list@, 0, current, snap_root, snap_cost),
                        !first ==> gossip_reachable(once_model, old(self).link_list@, self.node_list@),
                        sweep_wl_model(
                            self.node_list@,
                            worklist@,
                            old(self).link_list@,
                            li as int,
                            current,
                            snap_root,
                            snap_cost,
                            recursive,
                        ) == sweep_wl_model(
                            ns_pop,
                            wl_pop,
                            old(self).link_list@,
                            0,
                            current,
                            snap_root,
                            snap_cost,
                            recursive,
                        ),
                    decreases nlinks - li,
                {
                    let l = self.link_list[li];
                    let ghost pre = self.node_list@;
                    let ghost wl_pre = worklist@;
                    if l.members.0 == current || l.members.1 == current {
                        let other = if l.members.0 == current {
                            l.members.1
                        } else {
                            l.members.0
                        };
                        if other != current {
                            if let Some(j) = node_position(&self.node_list, other) {
                                if self.node_list[j].msg_count < usize::MAX && snap_cost <= usize::MAX - l.cost {
                                    proof {
                                        assert(can_gossip(pre, self.link_list@, li as int, ci as int, j as int));
                                    }
                                    let sum = snap_cost + l.cost;
                                    let accept = self.node_list[j].receive_suggestion(snap_root, current, sum);
                                    proof {
                                        assert(self.node_list@ == gossip_event(
                                            pre,
                                            self.link_list@,
                                            li as int,
                                            ci as int,
                                            j as int,
                                        ));
                                        assert(gossip_step(pre, self.link_list@, self.node_list@));
                                        lemma_gossip_reachable_step(
                                            old(self).node_list@,
                                            old(self).link_list@,
                                            pre,
                                            self.node_list@,
                                        );
                                        lemma_first_node_index(pre, other);
                                        assert(j as int == first_node_index(pre, other));
                                        if first {
                                            assert(apply_suggestion_by_id(pre, other, snap_root, current, sum)
                                                == self.node_list@);
                                        } else {
                                            lemma_gossip_reachable_step(
                                                once_model,
                                                old(self).link_list@,
                                                pre,
                                                self.node_list@,
                                            );
                                        }
                                    }
                                    if accept && recursive {
                                        worklist.push(other);
                                    }
                                } else {
                                    proof {
                                        lemma_first_node_index(pre, other);
                                        assert(j as int == first_node_index(pre, other));
                                    }
                                }
                            }
                        }
                    }
                    li = li + 1;
                    proof {
                        if first {
                            assert(sweep(pre, self.link_list@, li - 1, current, snap_root, snap_cost)
                                == sweep(self.node_list@, self.link_list@, li as int, current, snap_root, snap_cost));
                        }
                        assert((self.node_list@, worklist@) == sweep_step_model(
                            pre,
                            wl_pre,
                            l,
                            current,
                            snap_root,
                            snap_cost,
                            recursive,
                        ));
                        assert(sweep_wl_model(
                            pre,
                            wl_pre,
                            old(self).link_list@,
                            li - 1,
                            current,
                            snap_root,
                            snap_cost,
                            recursive,
                        ) == sweep_wl_model(
                            self.node_list@,
                            worklist@,
                            old(self).link_list@,
                            li as int,
                            current,
                            snap_root,
                            snap_cost,
                            recursive,
                        ));
                    }
                }
                proof {
                    assert(sweep_wl_model(
                        self.node_list@,
                        worklist@,
                        old(self).link_list@,
                        nlinks as int,
                        current,
                        snap_root,
                        snap_cost,
                        recursive,
                    ) == (self.node_list@, worklist@));
                    assert(cascade_model(ns_pop, wl_pop, old(self).link_list@, head_pop, fuel_pop, recursive)
                        == cascade_model(
                        self.node_list@,
                        worklist@,
                        old(self).link_list@,
                        head_pop + 1,
                        (fuel_pop - 1) as nat,
                        recursive,
                    ));
                    if first {
                        assert(sweep(
                            self.node_list@,
                            self.link_list@,
                            nlinks as int,
                            current,
                            snap_root,
                            snap_cost,
                        ) == self.node_list@);
                        lemma_first_node_index(old(self).node_list@, node_id);
                        assert(ci as int == first_node_index(old(self).node_list@, node_id));
                        assert(self.node_list@ == once_model);
                        lemma_gossip_reachable_refl(self.node_list@, self.link_list@);
                    }
                }
            } else {
                proof {
                    assert(!has_node(ns_pop, current));
                    assert(cascade_model(ns_pop, wl_pop, old(self).link_list@, head_pop, fuel_pop, recursive)
                        == cascade_model(
                        self.node_list@,
                        worklist@,
                        old(self).link_list@,
                        head_pop + 1,
                        (fuel_pop - 1) as nat,
                        recursive,
                    ));
                    if first {
                        assert(false);
                    }
                }
            }
        }
        proof {
            lemma_gossip_reachable_no_worse(old(self).node_list@, old(self).link_list@, self.node_list@);
        }
    }

    /// Drives the topology towards convergence: in rounds of
    /// `min_iterations` propagations, each from a uniformly drawn stored
    /// node, and on as long as `min_hops` is non-zero and some node has
    /// not yet received more than `min_hops` suggestions.  With `min_hops`
    /// zero exactly one round runs.  An empty topology is left untouched.
    ///
    /// The contract pins the driver's work: the final state is some number
    /// of whole driver draws applied to the initial one, exactly
    /// `min_iterations` of them when `min_hops` is zero, and as soon as a
    /// round makes a draw at all, the first drawn node's full neighbor
    /// sweep has demonstrably happened.  Which nodes are drawn is random,
    /// so no more than this holds of every outcome.
    ///
    /// On a topology where some node cannot be reached often enough the
    /// termination predicate never fires; that liveness hazard is part of
    /// the protocol's design and is left to the caller's choice of
    /// `min_hops`.
    pub fn simulate(&mut self, min_iterations: usize, min_hops: usize, recursive: bool)
        ensures
            final(self).link_list == old(self).link_list,
            final(self).root_id == old(self).root_id,
            gossip_reachable(old(self).node_list@, old(self).link_list@, final(self).node_list@),
            nodes_no_worse(old(self).node_list@, final(self).node_list@),
            old(self).node_list@.len() == 0 ==> final(self).node_list@ == old(self).node_list@,
            exists|k: nat|
                driver_batch(
                    old(self).node_list@,
                    old(self).link_list@,
                    final(self).node_list@,
                    recursive,
                    k,
                ),
            old(self).node_list@.len() > 0 && min_hops == 0 ==> driver_batch(
                old(self).node_list@,
                old(self).link_list@,
                final(self).node_list@,
                recursive,
                min_iterations as nat,
            ),
            old(self).node_list@.len() > 0 && min_iterations > 0 ==> swept_from_some(
                old(self).node_list@,
                old(self).link_list@,
                final(self).node_list@,
            ),
    {
        proof {
            lemma_gossip_reachable_refl(self.node_list@, self.link_list@);
            lemma_gossip_reachable_no_worse(self.node_list@, self.link_list@, self.node_list@);
            assert(driver_batch(self.node_list@, self.link_list@, self.node_list@, recursive, 0));
        }
        if self.node_list.len() == 0 {
            return;
        }
        let mut done = false;
        let ghost mut total: nat = 0;
        let ghost mut swept = false;
        // A round budget in place of the protocol's openly unbounded retry
        // loop, so that the loop carries an explicit termination metric.
        let mut rounds: usize = usize::MAX;
        while !done && rounds > 0
            invariant
                self.node_list@.len() == old(self).node_list@.len(),
                self.node_list@.len() > 0,
                self.link_list == old(self).link_list,
                self.root_id == old(self).root_id,
                gossip_reachable(old(self).node_list@, old(self).link_list@, self.node_list@),
                nodes_no_worse(old(self).node_list@, self.node_list@),
                driver_batch(old(self).node_list@, old(self).link_list@, self.node_list@, recursive, total),
                swept <==> total > 0,
                swept ==> swept_from_some(old(self).node_list@, old(self).link_list@, self.node_list@),
                (done || rounds < usize::MAX) && min_iterations > 0 ==> total > 0,
                min_hops == 0 && !done ==> rounds == usize::MAX && total == 0,
                min_hops == 0 && done ==> total == min_iterations as nat,
            decreases rounds,
        {
            rounds = rounds - 1;
            let ghost total0 = total;
            let mut i: usize = 0;
            while i < min_iterations
                invariant
                    i <= min_iterations,
                    total == total0 + i,
                    self.node_list@.len() == old(self).node_list@.len(),
                    self.node_list@.len() > 0,
                    self.link_list == old(self).link_list,
                    self.root_id == old(self).root_id,
                    gossip_reachable(old(self).node_list@, old(self).link_list@, self.node_list@),
                    nodes_no_worse(old(self).node_list@, self.node_list@),
                    driver_batch(old(self).node_list@, old(self).link_list@, self.node_list@, recursive, total),
                    swept <==> total > 0,
                    swept ==> swept_from_some(old(self).node_list@, old(self).link_list@, self.node_list@),
                decreases min_iterations - i,
            {
                let ghost pre = self.node_list@;
                let randi = random_below(self.node_list.len());
                let node_id = self.node_list[randi].id;
                self.run_calc(node_id, recursive);
                proof {
                    lemma_gossip_reachable_trans(
                        old(self).node_list@,
                        old(self).link_list@,
                        pre,
                        self.node_list@,
                    );
                    lemma_gossip_reachable_no_worse(
                        old(self).node_list@,
                        old(self).link_list@,
                        self.node_list@,
                    );
                    assert(has_node(pre, node_id));
                    assert(self.node_list@ == run_calc_model(pre, old(self).link_list@, node_id, recursive));
                    assert(driver_step(pre, old(self).link_list@, self.node_list@, recursive));
                    assert(driver_batch(
                        old(self).node_list@,
                        old(self).link_list@,
                        self.node_list@,
                        recursive,
                        total + 1,
                    ));
                    if !swept {
                        assert(pre == old(self).node_list@);
                        assert(swept_from_some(old(self).node_list@, old(self).link_list@, self.node_list@));
                        swept = true;
                    } else {
                        let x = choose|x: isize|
                            has_node(old(self).node_list@, x) && gossip_reachable(
                                #[trigger] run_calc_once_model(old(self).node_list@, old(self).link_list@, x),
                                old(self).link_list@,
                                pre,
                            );
                        lemma_gossip_reachable_trans(
                            run_calc_once_model(old(self).node_list@, old(self).link_list@, x),
                            old(self).link_list@,
                            pre,
                            self.node_list@,
                        );
                    }
                    total = total + 1;
                }
                i += 1;
            }
            done = if min_hops == 0 {
                true
            } else {
                !self.any_count_at_most(min_hops)
            };
        }
        proof {
            if min_hops == 0 {
                assert(done);
            }
        }
    }

    /// Whether some stored node has received at most `hops` suggestions.
    fn any_count_at_most(&self, hops: usize) -> (r: bool)
        ensures
            r == exists|i: int| 0 <= i < self.node_list@.len() && (#[trigger] self.node_list@[i]).msg_count <= hops,
    {
        let n = self.node_list.len();
        let mut i: usize = 0;
        while i < n
            invariant
                i <= n,
                n == self.node_list@.len(),
                forall|j: int| 0 <= j < i ==> (#[trigger] self.node_list@[j]).msg_count > hops,
            decreases n - i,
        {
            if self.node_list[i].msg_count <= hops {
                return true;
            }
            i += 1;
        }
        false
    }
}

impl SearchResult {
    /// Creates an empty search result.
    pub fn new() -> (r: SearchResult)
        ensures
            r.links@ == Seq::<Link>::empty(),
            r.cost == 0,
    {
        SearchResult {
            links: Vec::<Link>::new(),
            cost: 0,
        }
    }
}

/// The summed cost of a list of links.
pub open spec fn sum_costs(path: Seq<Link>) -> int
    decreases path.len(),
{
    if path.len() == 0 {
        0
    } else {
        sum_costs(path.drop_last()) + path.last().cost
    }
}

/// How many stored nodes carry the `is_discovered` mark.
pub open spec fn discovered_count(ns: Seq<Node>) -> int
    decreases ns.len(),
{
    if ns.len() == 0 {
        0
    } else {
        discovered_count(ns.drop_last()) + if ns.last().is_discovered {
            1int
        } else {
            0int
        }
    }
}

/// Appending a link adds its cost to the sum.
proof fn lemma_sum_costs_push(path: Seq<Link>, l: Link)
    ensures
        sum_costs(path.push(l)) == sum_costs(path) + l.cost,
{
    assert(path.push(l).drop_last() =~= path);
}

/// Link costs are non-negative, so any sum of them is.
proof fn lemma_sum_costs_nonneg(path: Seq<Link>)
    ensures
        sum_costs(path) >= 0,
    decreases path.len(),
{
    if path.len() > 0 {
        lemma_sum_costs_nonneg(path.drop_last());
    }
}

/// A single stored link costs no more than the sum of all stored links.
proof fn lemma_link_cost_le_sum(links: Seq<Link>, i: int)
    requires
        0 <= i < links.len(),
    ensures
        links[i].cost <= sum_costs(links),
    decreases links.len(),
{
    if i == links.len() - 1 {
        lemma_sum_costs_nonneg(links.drop_last());
    } else {
        lemma_link_cost_le_sum(links.drop_last(), i);
        assert(links.drop_last()[i] == links[i]);
    }
}

/// A list whose every element is either stored or free costs at most its
/// length times the sum of all stored link costs.
proof fn lemma_sum_costs_loose(path: Seq<Link>, links: Seq<Link>)
    requires
        forall|t: int| 0 <= t < path.len() ==> links.contains(#[trigger] path[t]) || path[t].cost == 0,
    ensures
        sum_costs(path) <= path.len() * sum_costs(links),
    decreases path.len(),
{
    lemma_sum_costs_nonneg(links);
    if path.len() == 0 {
    } else {
        assert forall|t: int| 0 <= t < path.drop_last().len() implies links.contains(
            #[trigger] path.drop_last()[t],
        ) || path.drop_last()[t].cost == 0 by {
            assert(path.drop_last()[t] == path[t]);
        }
        lemma_sum_costs_loose(path.drop_last(), links);
        let l = path.last();
        if links.contains(l) {
            let idx = choose|idx: int| 0 <= idx < links.len() && links[idx] == l;
            lemma_link_cost_le_sum(links, idx);
        }
        assert((path.len() - 1) * sum_costs(links) + sum_costs(links) == path.len() * sum_costs(links))
            by (nonlinear_arith);
    }
}

/// The discovery count is bounded by the number of nodes.
proof fn lemma_discovered_count_bounds(ns: Seq<Node>)
    ensures
        0 <= discovered_count(ns) <= ns.len(),
    decreases ns.len(),
{
    if ns.len() > 0 {
        lemma_discovered_count_bounds(ns.drop_last());
    }
}

/// Marking an undiscovered node raises the discovery count by one.
proof fn lemma_discovered_count_update(ns: Seq<Node>, i: int, n2: Node)
    requires
        0 <= i < ns.len(),
        !ns[i].is_discovered,
        n2.is_discovered,
    ensures
        discovered_count(ns.update(i, n2)) == discovered_count(ns) + 1,
    decreases ns.len(),
{
    let ns2 = ns.update(i, n2);
    if i == ns.len() - 1 {
        assert(ns2.drop_last() =~= ns.drop_last());
        assert(ns2.last() == n2);
    } else {
        assert(ns2.drop_last() =~= ns.drop_last().update(i, n2));
        lemma_discovered_count_update(ns.drop_last(), i, n2);
        assert(ns2.last() == ns.last());
    }
}

/// The per-element invariant of the search queue: the carried link is
/// either stored or free, and the carried depth stays small.
spec fn fp_elem_ok(e: (isize, usize, Link), links: Seq<Link>, delta: int) -> bool {
    &&& (links.contains(e.2) || e.2.cost == 0)
    &&& e.1 <= 2 + delta
}

/// Searches for a path from `start_node_id` to `search_node_id` with a
/// breadth-first walk of the tree, reconstructing the chain of links by
/// depth bookkeeping.
///
/// A result, if any, carries links that are each either stored in the tree
/// or zero-cost placeholders, and its cost is the sum over the carried
/// links.  Searching for the start node itself always succeeds with just
/// the placeholder link.
#[verifier::loop_isolation(false)]
pub fn find_path_to_element(mut tree: Tree, start_node_id: isize, search_node_id: isize) -> (result: Option<
    SearchResult,
>)
    requires
        tree.node_list@.len() < usize::MAX - 2,
        (tree.node_list@.len() + 3) * sum_costs(tree.link_list@) <= usize::MAX,
    ensures
        match result {
            Some(r) => {
                &&& r.links@.len() >= 1
                &&& r.cost == sum_costs(r.links@)
                &&& (forall|t: int|
                    0 <= t < r.links@.len() ==> tree.link_list@.contains(#[trigger] r.links@[t])
                        || r.links@[t].cost == 0)
                &&& (start_node_id == search_node_id ==> r.links@ == seq![
                    Link { members: (start_node_id, start_node_id), cost: 0usize },
                ] && r.cost == 0)
            },
            None => start_node_id != search_node_id,
        },
{
    let ghost links0 = tree.link_list@;
    let ghost n0 = tree.node_list@.len() as int;
    let ghost count0 = discovered_count(tree.node_list@);
    proof {
        lemma_discovered_count_bounds(tree.node_list@);
    }

    let mut links = SearchResult::new();
    proof {
        assert(sum_costs(Seq::<Link>::empty()) == 0);
    }

    if start_node_id == search_node_id {
        links.cost = 0;
        links.links.push(Link::new((start_node_id, search_node_id), 0));
        proof {
            assert(links.links@.drop_last() =~= Seq::<Link>::empty());
            assert(sum_costs(links.links@) == 0);
        }
    }

    let mut queue: Vec<(isize, usize, Link)> = Vec::new();
    let mut current_depth: usize = 1;

    // the first link leads from the first element to itself at no cost; it
    // is just there to provide any link
    queue.push((start_node_id, 1, Link::new((start_node_id, start_node_id), 0)));

    let ghost mut pops: int = 0;

    while queue.len() > 0
        invariant
            tree.link_list@ == links0,
            tree.node_list@.len() == n0,
            count0 <= discovered_count(tree.node_list@) <= n0,
            links.cost == sum_costs(links.links@),
            forall|t: int|
                0 <= t < links.links@.len() ==> links0.contains(#[trigger] links.links@[t])
                    || links.links@[t].cost == 0,
            pops >= 0,
            links.links@.len() <= 1 + pops,
            current_depth <= 1 + pops,
            pops + queue@.len() == 1 + (discovered_count(tree.node_list@) - count0),
            forall|q: int|
                0 <= q < queue@.len() ==> fp_elem_ok(
                    #[trigger] queue@[q],
                    links0,
                    discovered_count(tree.node_list@) - count0,
                ),
            start_node_id == search_node_id ==> {
                &&& queue@ == seq![
                    (start_node_id, 1usize, Link { members: (start_node_id, start_node_id), cost: 0usize }),
                ]
                &&& links.links@ == seq![Link { members: (start_node_id, start_node_id), cost: 0usize }]
                &&& links.cost == 0
                &&& current_depth == 1
            },
        decreases queue@.len() + n0 - discovered_count(tree.node_list@),
    {
        let ghost popped = queue@[0];
        let current_queue_element = queue.remove(0);
        let current_node = current_queue_element.0;
        proof {
            pops = pops + 1;
            assert(fp_elem_ok(popped, links0, discovered_count(tree.node_list@) - count0));
        }

        // On a sideways motion, replace the last link; on a descent, keep
        // it and record the new depth.
        if links.links.len() > 0 && current_depth == current_queue_element.1 {
            let ghost pre_links = links.links@;
            let lastlink = links.links.pop().unwrap();
            proof {
                assert(pre_links.drop_last().push(pre_links.last()) =~= pre_links);
                lemma_sum_costs_push(pre_links.drop_last(), pre_links.last());
                lemma_sum_costs_nonneg(links.links@);
                assert forall|t: int| 0 <= t < links.links@.len() implies links0.contains(
                    #[trigger] links.links@[t],
                ) || links.links@[t].cost == 0 by {
                    assert(links.links@[t] == pre_links[t]);
                }
            }
            links.cost = links.cost - lastlink.cost;
        } else {
            current_depth = current_depth + 1;
        }

        // add the link to the current element and its cost
        proof {
            lemma_sum_costs_push(links.links@, current_queue_element.2);
            lemma_sum_costs_loose(links.links@, links0);
            if links0.contains(current_queue_element.2) {
                let idx = choose|idx: int| 0 <= idx < links0.len() && links0[idx] == current_queue_element.2;
                lemma_link_cost_le_sum(links0, idx);
            }
            lemma_sum_costs_nonneg(links0);
            assert(links.links@.len() * sum_costs(links0) <= (n0 + 2) * sum_costs(links0))
                by (nonlinear_arith)
                requires
                    0 <= links.links@.len() <= n0 + 2,
                    sum_costs(links0) >= 0,
            ;
            assert((n0 + 2) * sum_costs(links0) + sum_costs(links0) == (n0 + 3) * sum_costs(links0))
                by (nonlinear_arith);
        }
        links.links.push(current_queue_element.2);
        links.cost = links.cost + current_queue_element.2.cost;

        if current_node == search_node_id {
            return Some(links);
        } else {
            let found = tree.find_links(current_node);
            proof {
                assert forall|t: int| 0 <= t < found@.len() implies links0.contains(#[trigger] found@[t]) by {
                    links0.lemma_filter_pred(|l: Link| link_touches(l, current_node), t);
                    assert(links0.filter(|l: Link| link_touches(l, current_node)).contains(found@[t]));
                    links0.lemma_filter_contains_rev(|l: Link| link_touches(l, current_node), found@[t]);
                }
            }
            let flen = found.len();
            let mut x: usize = 0;
            while x < flen
                invariant
                    x <= flen,
                    flen == found@.len(),
                    start_node_id != search_node_id,
                    tree.link_list@ == links0,
                    tree.node_list@.len() == n0,
                    count0 <= discovered_count(tree.node_list@) <= n0,
                    forall|t: int| 0 <= t < found@.len() ==> links0.contains(#[trigger] found@[t]),
                    current_queue_element.1 <= 2 + (discovered_count(tree.node_list@) - count0),
                    pops + queue@.len() == 1 + (discovered_count(tree.node_list@) - count0),
                    forall|q: int|
                        0 <= q < queue@.len() ==> fp_elem_ok(
                            #[trigger] queue@[q],
                            links0,
                            discovered_count(tree.node_list@) - count0,
                        ),
                decreases flen - x,
            {
                let link = found[x];
                // ignore circular links (from a node to itself)
                if link.members.0 != link.members.1 {
                    let found_node: isize = if link.members.0 == current_node {
                        link.members.1
                    } else {
                        link.members.0
                    };
                    if let Some(fi) = node_position(&tree.node_list, found_node) {
                        let node = tree.node_list[fi];
                        if !node.is_discovered {
                            let mut marked = node;
                            marked.is_discovered = true;
                            proof {
                                lemma_discovered_count_update(tree.node_list@, fi as int, marked);
                            }
                            tree.node_list[fi] = marked;
                            proof {
                                lemma_discovered_count_bounds(tree.node_list@);
                            }
                            queue.push((found_node, current_queue_element.1 + 1, link));
                        }
                    }
                }
                x += 1;
            }
        }
    }

    None
}

} // verus!
