//! A minimal spanning-tree root-election protocol.
//!
//! Participants (nodes) joined by weighted links gossip about which node
//! should be the root of the tree and what the cheapest known path cost to
//! that root is.  A node's belief is the triple `(root_id, root_cost,
//! next_hop)`; the acceptance rule is: a strictly lower suggested root id
//! always wins, and for the currently believed root a strictly cheaper path
//! wins.  The node with the lowest id in a connected component therefore
//! eventually becomes everyone's root.

use vstd::prelude::*;

verus! {

/// One participant of the spanning tree.
///
/// The id doubles as the node's weight for the root election: the lower the
/// id, the more senior the node.  Every node starts out believing itself to
/// be the root, at cost 0, with no next hop.
#[derive(Clone, Copy, Debug)]
pub struct Node {
    pub id: isize,
    pub name: &'static str,
    pub msg_count: usize,
    pub next_hop: Option<isize>,
    pub root_cost: usize,
    pub root_id: isize,
}

/// An undirected weighted edge between the two node ids in `members`.
#[derive(Clone, Copy, Debug)]
pub struct Link {
    pub members: (isize, isize),
    pub cost: usize,
}

/// The topology store: owns the nodes and the links between them.
///
/// `root_id` is informational bookkeeping only (the lowest node id inserted
/// so far); the authoritative belief about the root lives in each node.
#[derive(Default)]
pub struct Tree {
    pub node_list: Vec<Node>,
    pub root_id: Option<isize>,
    pub link_list: Vec<Link>,
}

/// The acceptance rule of the protocol: a suggestion `(suggested_id, cost)`
/// is accepted by a node exactly when the suggested root is strictly more
/// senior than the currently believed one, or it is the same root over a
/// strictly cheaper path.
pub open spec fn accepts_suggestion(n: Node, suggested_id: isize, root_cost: usize) -> bool {
    suggested_id < n.root_id || (suggested_id == n.root_id && root_cost < n.root_cost)
}

/// The state a node moves to on receiving a suggestion: the message counter
/// always advances, and the belief triple changes exactly when the
/// suggestion is accepted.
pub open spec fn with_suggestion(n: Node, suggested_id: isize, source_id: isize, root_cost: usize) -> Node {
    if suggested_id < n.root_id {
        Node {
            id: n.id,
            name: n.name,
            msg_count: (n.msg_count + 1) as usize,
            next_hop: Some(source_id),
            root_cost: root_cost,
            root_id: suggested_id,
        }
    } else if suggested_id == n.root_id && root_cost < n.root_cost {
        Node {
            id: n.id,
            name: n.name,
            msg_count: (n.msg_count + 1) as usize,
            next_hop: Some(source_id),
            root_cost: root_cost,
            root_id: n.root_id,
        }
    } else {
        Node {
            id: n.id,
            name: n.name,
            msg_count: (n.msg_count + 1) as usize,
            next_hop: n.next_hop,
            root_cost: n.root_cost,
            root_id: n.root_id,
        }
    }
}

/// Whether the link `l` joins the node ids `a` and `b`, in either
/// orientation.
pub open spec fn link_joins(l: Link, a: isize, b: isize) -> bool {
    (l.members.0 == a && l.members.1 == b) || (l.members.0 == b && l.members.1 == a)
}

/// Whether the link `l` has the node id `id` as one of its endpoints.
pub open spec fn link_touches(l: Link, id: isize) -> bool {
    l.members.0 == id || l.members.1 == id
}

/// Whether some stored link joins the node ids `a` and `b`.
pub open spec fn has_link(links: Seq<Link>, a: isize, b: isize) -> bool {
    exists|i: int| 0 <= i < links.len() && link_joins(links[i], a, b)
}

/// Whether some stored node carries the id `id`.
pub open spec fn has_node(ns: Seq<Node>, id: isize) -> bool {
    exists|i: int| 0 <= i < ns.len() && ns[i].id == id
}

/// What `Tree::find_link` returns: the first stored link joining `a` and
/// `b`, or `None` when no stored link joins them.
pub open spec fn link_search_result(links: Seq<Link>, a: isize, b: isize, r: Option<Link>) -> bool {
    match r {
        Some(l) => exists|i: int|
            {
                &&& 0 <= i < links.len()
                &&& l == links[i]
                &&& link_joins(#[trigger] links[i], a, b)
                &&& forall|j: int| 0 <= j < i ==> !link_joins(#[trigger] links[j], a, b)
            },
        None => forall|i: int| 0 <= i < links.len() ==> !link_joins(#[trigger] links[i], a, b),
    }
}

/// What `Tree::get_node` returns: a copy of the first stored node with id
/// `id`, or `None` when the id is absent.
pub open spec fn node_search_result(ns: Seq<Node>, id: isize, r: Option<Node>) -> bool {
    match r {
        Some(n) => exists|i: int|
            {
                &&& 0 <= i < ns.len()
                &&& n == ns[i]
                &&& (#[trigger] ns[i]).id == id
                &&& forall|j: int| 0 <= j < i ==> (#[trigger] ns[j]).id != id
            },
        None => forall|i: int| 0 <= i < ns.len() ==> (#[trigger] ns[i]).id != id,
    }
}

/// The link list after `Tree::add_link`: unchanged when a link between the
/// same pair is already stored, extended by the new link otherwise.
pub open spec fn add_link_model(links: Seq<Link>, link: Link) -> Seq<Link> {
    if has_link(links, link.members.0, link.members.1) {
        links
    } else {
        links.push(link)
    }
}

/// The node list after `Tree::add_node`: unchanged when the id is already
/// taken, extended by the new node otherwise.
pub open spec fn add_node_nodes_model(ns: Seq<Node>, node: Node) -> Seq<Node> {
    if has_node(ns, node.id) {
        ns
    } else {
        ns.push(node)
    }
}

/// The root-id bookkeeping after `Tree::add_node`: the lowest id inserted
/// so far.
pub open spec fn add_node_root_model(ns: Seq<Node>, root_id: Option<isize>, node: Node) -> Option<isize> {
    if has_node(ns, node.id) {
        root_id
    } else {
        match root_id {
            None => Some(node.id),
            Some(r) => if node.id < r { Some(node.id) } else { Some(r) },
        }
    }
}

/// The id at the other end of the link `l` as seen from the node id `id`;
/// meaningful when `l` touches `id`.
pub open spec fn other_end(l: Link, id: isize) -> isize {
    if l.members.0 == id {
        l.members.1
    } else {
        l.members.0
    }
}

/// The smallest index whose node carries the id `id` (the node that lookups
/// by id resolve to); meaningful when such a node exists.
pub open spec fn first_node_index(ns: Seq<Node>, id: isize) -> int
    decreases ns.len(),
{
    if ns.len() == 0 {
        0
    } else if ns[0].id == id {
        0
    } else {
        1 + first_node_index(ns.drop_first(), id)
    }
}

/// How one node compares to its earlier self: the belief may only move
/// towards a more senior root, or towards a cheaper path to the same root,
/// and the message counter and the identity never go backwards.
pub open spec fn node_no_worse(a: Node, b: Node) -> bool {
    &&& b.id == a.id
    &&& b.name == a.name
    &&& b.msg_count >= a.msg_count
    &&& (b.root_id < a.root_id || (b.root_id == a.root_id && b.root_cost <= a.root_cost))
}

/// Element-wise `node_no_worse` over whole node lists of equal length.
pub open spec fn nodes_no_worse(a: Seq<Node>, b: Seq<Node>) -> bool {
    &&& b.len() == a.len()
    &&& forall|i: int| #![auto] 0 <= i < a.len() ==> node_no_worse(a[i], b[i])
}

/// Whether the triple `(k, i, j)` names a possible gossip event: along the
/// stored link `k`, the node at index `i` suggests its belief to the node at
/// index `j` on the other end; a link back to the same id is filtered out.
pub open spec fn can_gossip(ns: Seq<Node>, links: Seq<Link>, k: int, i: int, j: int) -> bool {
    &&& 0 <= k < links.len()
    &&& 0 <= i < ns.len()
    &&& 0 <= j < ns.len()
    &&& link_joins(links[k], ns[i].id, ns[j].id)
    &&& ns[i].id != ns[j].id
}

/// The node list after the gossip event `(k, i, j)`: the receiver `j` runs
/// the acceptance rule on the sender's belief, at the sender's cost plus the
/// link cost.
pub open spec fn gossip_event(ns: Seq<Node>, links: Seq<Link>, k: int, i: int, j: int) -> Seq<Node> {
    ns.update(
        j,
        with_suggestion(ns[j], ns[i].root_id, ns[i].id, ((ns[i].root_cost + links[k].cost) as usize)),
    )
}

/// One in-bounds gossip event leads from `ns` to `ns2`.  An event whose
/// message counter or path-cost sum would leave the machine range cannot
/// occur: the engine does not deliver such a suggestion.
pub open spec fn gossip_step(ns: Seq<Node>, links: Seq<Link>, ns2: Seq<Node>) -> bool {
    exists|k: int, i: int, j: int|
        {
            &&& can_gossip(ns, links, k, i, j)
            &&& ns[j].msg_count < usize::MAX
            &&& ns[i].root_cost + links[k].cost <= usize::MAX
            &&& ns2 == #[trigger] gossip_event(ns, links, k, i, j)
        }
}

/// `ns2` is reached from `ns` by exactly `steps` gossip events.
pub open spec fn gossip_reaches_in(ns: Seq<Node>, links: Seq<Link>, ns2: Seq<Node>, steps: nat) -> bool
    decreases steps,
{
    if steps == 0 {
        ns2 == ns
    } else {
        exists|mid: Seq<Node>|
            gossip_reaches_in(ns, links, mid, (steps - 1) as nat) && #[trigger] gossip_step(mid, links, ns2)
    }
}

/// `ns2` is reached from `ns` by some number of gossip events.
pub open spec fn gossip_reachable(ns: Seq<Node>, links: Seq<Link>, ns2: Seq<Node>) -> bool {
    exists|steps: nat| gossip_reaches_in(ns, links, ns2, steps)
}

/// A node list is always gossip-reachable from itself (by zero events).
pub proof fn lemma_gossip_reachable_refl(ns: Seq<Node>, links: Seq<Link>)
    ensures
        gossip_reachable(ns, links, ns),
{
    assert(gossip_reaches_in(ns, links, ns, 0));
}

/// Reachability extends by one further gossip event.
pub proof fn lemma_gossip_reachable_step(ns: Seq<Node>, links: Seq<Link>, mid: Seq<Node>, ns2: Seq<Node>)
    requires
        gossip_reachable(ns, links, mid),
        gossip_step(mid, links, ns2),
    ensures
        gossip_reachable(ns, links, ns2),
{
    let steps = choose|steps: nat| gossip_reaches_in(ns, links, mid, steps);
    assert(gossip_reaches_in(ns, links, ns2, steps + 1));
}

/// Reachability is transitive.
pub proof fn lemma_gossip_reachable_trans(ns: Seq<Node>, links: Seq<Link>, mid: Seq<Node>, ns2: Seq<Node>)
    requires
        gossip_reachable(ns, links, mid),
        gossip_reachable(mid, links, ns2),
    ensures
        gossip_reachable(ns, links, ns2),
{
    let steps = choose|steps: nat| gossip_reaches_in(mid, links, ns2, steps);
    lemma_gossip_reachable_trans_in(ns, links, mid, ns2, steps);
}

proof fn lemma_gossip_reachable_trans_in(ns: Seq<Node>, links: Seq<Link>, mid: Seq<Node>, ns2: Seq<Node>, steps: nat)
    requires
        gossip_reachable(ns, links, mid),
        gossip_reaches_in(mid, links, ns2, steps),
    ensures
        gossip_reachable(ns, links, ns2),
    decreases steps,
{
    if steps == 0 {
        assert(ns2 == mid);
    } else {
        let m2 = choose|m2: Seq<Node>|
            gossip_reaches_in(mid, links, m2, (steps - 1) as nat) && #[trigger] gossip_step(m2, links, ns2);
        lemma_gossip_reachable_trans_in(ns, links, mid, m2, (steps - 1) as nat);
        lemma_gossip_reachable_step(ns, links, m2, ns2);
    }
}

/// A single gossip event never makes any node's belief worse.
pub proof fn lemma_gossip_step_no_worse(ns: Seq<Node>, links: Seq<Link>, ns2: Seq<Node>)
    requires
        gossip_step(ns, links, ns2),
    ensures
        nodes_no_worse(ns, ns2),
{
    let (k, i, j) = choose|k: int, i: int, j: int|
        {
            &&& can_gossip(ns, links, k, i, j)
            &&& ns[j].msg_count < usize::MAX
            &&& ns[i].root_cost + links[k].cost <= usize::MAX
            &&& ns2 == #[trigger] gossip_event(ns, links, k, i, j)
        };
    assert(ns2 == gossip_event(ns, links, k, i, j));
}

/// No sequence of gossip events makes any node's belief worse: the node set
/// is fixed, message counters only grow, and each belief triple only moves
/// down the seniority-then-cost order.
pub proof fn lemma_gossip_reachable_no_worse(ns: Seq<Node>, links: Seq<Link>, ns2: Seq<Node>)
    requires
        gossip_reachable(ns, links, ns2),
    ensures
        nodes_no_worse(ns, ns2),
{
    let steps = choose|steps: nat| gossip_reaches_in(ns, links, ns2, steps);
    lemma_gossip_reachable_no_worse_in(ns, links, ns2, steps);
}

proof fn lemma_gossip_reachable_no_worse_in(ns: Seq<Node>, links: Seq<Link>, ns2: Seq<Node>, steps: nat)
    requires
        gossip_reaches_in(ns, links, ns2, steps),
    ensures
        nodes_no_worse(ns, ns2),
    decreases steps,
{
    if steps == 0 {
        assert(ns2 == ns);
    } else {
        let mid = choose|mid: Seq<Node>|
            gossip_reaches_in(ns, links, mid, (steps - 1) as nat) && #[trigger] gossip_step(mid, links, ns2);
        lemma_gossip_reachable_no_worse_in(ns, links, mid, (steps - 1) as nat);
        lemma_gossip_step_no_worse(mid, links, ns2);
    }
}

/// The `first_node_index` lookup really is the first index carrying the id.
pub proof fn lemma_first_node_index(ns: Seq<Node>, id: isize)
    requires
        has_node(ns, id),
    ensures
        0 <= first_node_index(ns, id) < ns.len(),
        ns[first_node_index(ns, id)].id == id,
        forall|j: int| 0 <= j < first_node_index(ns, id) ==> (#[trigger] ns[j]).id != id,
    decreases ns.len(),
{
    if ns.len() == 0 {
    } else if ns[0].id == id {
    } else {
        let tail = ns.drop_first();
        assert(has_node(tail, id)) by {
            let w = choose|w: int| 0 <= w < ns.len() && ns[w].id == id;
            assert(tail[w - 1].id == id);
        }
        lemma_first_node_index(tail, id);
        assert forall|j: int| 0 <= j < first_node_index(ns, id) implies (#[trigger] ns[j]).id != id by {
            if j > 0 {
                assert(ns[j] == tail[j - 1]);
            }
        }
    }
}

/// The node list after the id `target_id` (resolved to the first node
/// carrying it, if any) receives the suggestion `(sroot, scost)` from
/// `src`; absent ids receive nothing, and neither does a node whose
/// message counter has no room left.
pub open spec fn apply_suggestion_by_id(ns: Seq<Node>, target_id: isize, sroot: isize, src: isize, scost: usize) -> Seq<Node> {
    if has_node(ns, target_id) && ns[first_node_index(ns, target_id)].msg_count < usize::MAX {
        ns.update(first_node_index(ns, target_id), with_suggestion(ns[first_node_index(ns, target_id)], sroot, src, scost))
    } else {
        ns
    }
}

/// One full neighbor sweep of the propagation engine, processing the stored
/// links from index `from` on: along every link that touches `xid` and
/// leads to a different id, the node on the other end receives the snapshot
/// belief `(xroot, xcost)` plus the link cost.  A suggestion whose cost sum
/// would leave the machine range is not delivered.
pub open spec fn sweep(ns: Seq<Node>, links: Seq<Link>, from: int, xid: isize, xroot: isize, xcost: usize) -> Seq<Node>
    decreases links.len() - from,
{
    if from < 0 || from >= links.len() {
        ns
    } else {
        let l = links[from];
        let target = other_end(l, xid);
        let ns1 = if link_touches(l, xid) && target != xid && xcost + l.cost <= usize::MAX {
            apply_suggestion_by_id(ns, target, xroot, xid, ((xcost + l.cost) as usize))
        } else {
            ns
        };
        sweep(ns1, links, from + 1, xid, xroot, xcost)
    }
}

/// What one non-recursive `Tree::run_calc` leaves behind: a single neighbor
/// sweep from the named node's snapshot belief, or nothing at all when the
/// id is absent.
pub open spec fn run_calc_once_model(ns: Seq<Node>, links: Seq<Link>, node_id: isize) -> Seq<Node> {
    if has_node(ns, node_id) {
        let x = ns[first_node_index(ns, node_id)];
        sweep(ns, links, 0, node_id, x.root_id, x.root_cost)
    } else {
        ns
    }
}

/// One link of a neighbor sweep, tracked together with the cascade
/// worklist: when the link is eligible (it touches the sweeping id, leads
/// to a different id that names a stored node, and neither the receiver's
/// message counter nor the cost sum would leave the machine range), the
/// node on the far end receives the snapshot belief, and an accepting
/// receiver is queued for recursive propagation.
pub open spec fn sweep_step_model(
    ns: Seq<Node>,
    wl: Seq<isize>,
    l: Link,
    xid: isize,
    xroot: isize,
    xcost: usize,
    recursive: bool,
) -> (Seq<Node>, Seq<isize>) {
    let target = other_end(l, xid);
    if link_touches(l, xid) && target != xid && xcost + l.cost <= usize::MAX && has_node(ns, target)
        && ns[first_node_index(ns, target)].msg_count < usize::MAX {
        let receiver = ns[first_node_index(ns, target)];
        let scost = (xcost + l.cost) as usize;
        let ns1 = ns.update(first_node_index(ns, target), with_suggestion(receiver, xroot, xid, scost));
        let wl1 = if accepts_suggestion(receiver, xroot, scost) && recursive {
            wl.push(target)
        } else {
            wl
        };
        (ns1, wl1)
    } else {
        (ns, wl)
    }
}

/// A full neighbor sweep from the snapshot belief `(xroot, xcost)` of the
/// id `xid`, processing the stored links from index `from` on and
/// collecting accepting neighbors on the worklist.
pub open spec fn sweep_wl_model(
    ns: Seq<Node>,
    wl: Seq<isize>,
    links: Seq<Link>,
    from: int,
    xid: isize,
    xroot: isize,
    xcost: usize,
    recursive: bool,
) -> (Seq<Node>, Seq<isize>)
    decreases links.len() - from,
{
    if from < 0 || from >= links.len() {
        (ns, wl)
    } else {
        let stepped = sweep_step_model(ns, wl, links[from], xid, xroot, xcost, recursive);
        sweep_wl_model(stepped.0, stepped.1, links, from + 1, xid, xroot, xcost, recursive)
    }
}

/// The breadth-first cascade over an explicit worklist, exactly as the
/// engine runs it: pop the id at `head`, sweep its neighbors from its
/// snapshot belief, queue the acceptors, and go on until the worklist or
/// the round budget is exhausted.
pub open spec fn cascade_model(
    ns: Seq<Node>,
    wl: Seq<isize>,
    links: Seq<Link>,
    head: int,
    fuel: nat,
    recursive: bool,
) -> Seq<Node>
    decreases fuel,
{
    if head < 0 || head >= wl.len() || fuel == 0 {
        ns
    } else {
        let x = wl[head];
        if has_node(ns, x) {
            let xe = ns[first_node_index(ns, x)];
            let swept = sweep_wl_model(ns, wl, links, 0, x, xe.root_id, xe.root_cost, recursive);
            cascade_model(swept.0, swept.1, links, head + 1, (fuel - 1) as nat, recursive)
        } else {
            cascade_model(ns, wl, links, head + 1, (fuel - 1) as nat, recursive)
        }
    }
}

/// What `Tree::run_calc` leaves behind, in either mode: the deterministic
/// cascade from the named node, under the engine's round budget.  An
/// absent id leaves the node list unchanged.
pub open spec fn run_calc_model(ns: Seq<Node>, links: Seq<Link>, node_id: isize, recursive: bool) -> Seq<Node> {
    cascade_model(ns, seq![node_id], links, 0, usize::MAX as nat, recursive)
}

/// One draw of the convergence driver: the id of some node stored in `ns1`
/// is propagated from, with the engine's full cascade semantics.
pub open spec fn driver_step(ns1: Seq<Node>, links: Seq<Link>, ns2: Seq<Node>, recursive: bool) -> bool {
    exists|x: isize| has_node(ns1, x) && ns2 == #[trigger] run_calc_model(ns1, links, x, recursive)
}

/// `ns2` is the result of exactly `k` driver draws from `ns1`: every
/// change the driver makes comes from whole propagation runs on stored
/// node ids, and a batch of `k` draws makes `k` of them.
pub open spec fn driver_batch(ns1: Seq<Node>, links: Seq<Link>, ns2: Seq<Node>, recursive: bool, k: nat) -> bool
    decreases k,
{
    if k == 0 {
        ns2 == ns1
    } else {
        exists|mid: Seq<Node>|
            driver_batch(ns1, links, mid, recursive, (k - 1) as nat) && #[trigger] driver_step(
                mid,
                links,
                ns2,
                recursive,
            )
    }
}

/// At least one stored node's full neighbor sweep has been carried out:
/// the state is gossip-reachable from the one-sweep model of some id that
/// was stored in `ns0`.
pub open spec fn swept_from_some(ns0: Seq<Node>, links: Seq<Link>, ns: Seq<Node>) -> bool {
    exists|x: isize|
        has_node(ns0, x) && gossip_reachable(#[trigger] run_calc_once_model(ns0, links, x), links, ns)
}

impl Node {
    /// Creates a node that believes itself to be the root.
    pub fn new(id: isize, name: &'static str) -> (n: Node)
        ensures
            n == (Node {
                id: id,
                name: name,
                msg_count: 0,
                next_hop: None::<isize>,
                root_cost: 0,
                root_id: id,
            }),
    {
        Node {
            id,
            name,
            msg_count: 0,
            next_hop: None,
            root_cost: 0,
            root_id: id,
        }
    }

    /// Receives a suggestion that the node with id `suggested_id` is the
    /// root, reachable through the neighbor `source_id` at cost `root_cost`.
    ///
    /// Returns true exactly when the suggestion was accepted, i.e. the
    /// belief triple changed.  The message counter advances either way.
    pub fn receive_suggestion(&mut self, suggested_id: isize, source_id: isize, root_cost: usize) -> (accepted: bool)
        requires
            old(self).msg_count < usize::MAX,
        ensures
            accepted == accepts_suggestion(*old(self), suggested_id, root_cost),
            *final(self) == with_suggestion(*old(self), suggested_id, source_id, root_cost),
    {
        self.msg_count += 1;
        if suggested_id < self.root_id {
            self.root_cost = root_cost;
            self.next_hop = Some(source_id);
            self.root_id = suggested_id;
            return true;
        } else if suggested_id == self.root_id && root_cost < self.root_cost {
            self.root_cost = root_cost;
            self.next_hop = Some(source_id);
            return true;
        }
        false
    }
}

/// Returns the position of the first node carrying `id`, or `None` when the
/// id is absent.
fn node_position(ns: &Vec<Node>, id: isize) -> (r: Option<usize>)
    ensures
        match r {
            Some(i) => {
                &&& i < ns@.len()
                &&& ns@[i as int].id == id
                &&& forall|j: int| 0 <= j < i ==> (#[trigger] ns@[j]).id != id
            },
            None => !has_node(ns@, id),
        },
{
    let n = ns.len();
    let mut i: usize = 0;
    while i < n
        invariant
            i <= n,
            n == ns@.len(),
            forall|j: int| 0 <= j < i ==> (#[trigger] ns@[j]).id != id,
        decreases n - i,
    {
        if ns[i].id == id {
            return Some(i);
        }
        i += 1;
    }
    None
}

impl Link {
    /// Creates a link between the two node ids in `members`.
    pub fn new(members: (isize, isize), cost: usize) -> (l: Link)
        ensures
            l == (Link { members, cost }),
    {
        Link { members, cost }
    }
}

impl Tree {
    /// Creates an empty topology.
    pub fn new() -> (t: Tree)
        ensures
            t.node_list@ == Seq::<Node>::empty(),
            t.link_list@ == Seq::<Link>::empty(),
            t.root_id == None::<isize>,
    {
        Tree {
            node_list: Vec::new(),
            root_id: None,
            link_list: Vec::new(),
        }
    }

    /// Returns the first stored link, if any, between nodes `a` and `b`,
    /// identified by their ids and in either orientation.
    pub fn find_link(&mut self, a: isize, b: isize) -> (found_link: Option<Link>)
        ensures
            *final(self) == *old(self),
            link_search_result(final(self).link_list@, a, b, found_link),
            found_link.is_some() == has_link(final(self).link_list@, a, b),
    {
        let n = self.link_list.len();
        let mut i: usize = 0;
        while i < n
            invariant
                i <= n,
                n == self.link_list@.len(),
                *self == *old(self),
                forall|j: int| 0 <= j < i ==> !link_joins(#[trigger] self.link_list@[j], a, b),
            decreases n - i,
        {
            let l = self.link_list[i];
            if l.members.0 == a && l.members.1 == b || l.members.0 == b && l.members.1 == a {
                return Some(l);
            }
            i += 1;
        }
        None
    }

    /// Returns all stored links that have the node id `node_id` as one of
    /// their endpoints, in storage order and with their orientation as
    /// stored.
    pub fn find_links(&self, node_id: isize) -> (found: Vec<Link>)
        ensures
            found@ == self.link_list@.filter(|l: Link| link_touches(l, node_id)),
    {
        let n = self.link_list.len();
        let mut found: Vec<Link> = Vec::new();
        let mut i: usize = 0;
        proof {
            assert(self.link_list@.take(0) =~= Seq::<Link>::empty());
            assert(self.link_list@.take(0).filter(|l: Link| link_touches(l, node_id)) =~= Seq::<Link>::empty());
        }
        while i < n
            invariant
                i <= n,
                n == self.link_list@.len(),
                found@ == self.link_list@.take(i as int).filter(|l: Link| link_touches(l, node_id)),
            decreases n - i,
        {
            let l = self.link_list[i];
            proof {
                assert(self.link_list@.take(i + 1) =~= self.link_list@.take(i as int).push(l));
                self.link_list@.take(i as int).lemma_filter_push(l, |l: Link| link_touches(l, node_id));
            }
            if l.members.0 == node_id || l.members.1 == node_id {
                found.push(l);
            }
            i += 1;
        }
        proof {
            assert(self.link_list@.take(n as int) =~= self.link_list@);
        }
        found
    }

    /// Adds a link to the tree unless a link between the same pair of node
    /// ids is already stored; a duplicate insert leaves the tree unchanged.
    pub fn add_link(&mut self, link: Link)
        ensures
            final(self).link_list@ == add_link_model(old(self).link_list@, link),
            final(self).node_list == old(self).node_list,
            final(self).root_id == old(self).root_id,
    {
        if self.find_link(link.members.0, link.members.1).is_none() {
            self.link_list.push(link);
        }
    }

    /// Adds a node to the tree unless its id is already taken; a duplicate
    /// insert leaves the tree unchanged.  Also keeps the informational
    /// `root_id` field equal to the lowest id inserted so far.
    pub fn add_node(&mut self, node: Node)
        ensures
            final(self).node_list@ == add_node_nodes_model(old(self).node_list@, node),
            final(self).root_id == add_node_root_model(old(self).node_list@, old(self).root_id, node),
            final(self).link_list == old(self).link_list,
    {
        let n = self.node_list.len();
        let mut i: usize = 0;
        while i < n
            invariant
                i <= n,
                n == self.node_list@.len(),
                *self == *old(self),
                forall|j: int| 0 <= j < i ==> (#[trigger] self.node_list@[j]).id != node.id,
            decreases n - i,
        {
            if self.node_list[i].id == node.id {
                return;
            }
            i += 1;
        }
        if self.root_id.is_none() || (self.root_id.is_some() && node.id < self.root_id.unwrap()) {
            self.root_id = Some(node.id);
        }
        self.node_list.push(node);
    }

    /// Returns a copy of the node with id `node_id`, or `None` when no such
    /// node is stored; an absent id is a normal, recoverable outcome.
    pub fn get_node(&self, node_id: isize) -> (found_node: Option<Node>)
        ensures
            node_search_result(self.node_list@, node_id, found_node),
            found_node.is_some() == has_node(self.node_list@, node_id),
    {
        let n = self.node_list.len();
        let mut i: usize = 0;
        while i < n
            invariant
                i <= n,
                n == self.node_list@.len(),
                forall|j: int| 0 <= j < i ==> (#[trigger] self.node_list@[j]).id != node_id,
            decreases n - i,
        {
            if self.node_list[i].id == node_id {
                return Some(self.node_list[i]);
            }
            i += 1;
        }
        None
    }

    /// Propagates the named node's current belief to all of its neighbors:
    /// along every link that touches `node_id`, the node on the other end
    /// receives the snapshot belief plus the link cost.  With `recursive`
    /// set, every neighbor that accepted is afterwards propagated from in
    /// turn, as a breadth-first cascade over an explicit worklist.
    ///
    /// In either mode the result is exactly the cascade model over the
    /// explicit worklist; without `recursive` that collapses to the
    /// one-sweep model, and with it the full sweep still happens first and
    /// only further gossip events follow, so the final state is
    /// gossip-reachable from the swept one.  A suggestion that would push a message counter or a
    /// path-cost sum past the machine range is not delivered; real
    /// topologies are nowhere near those bounds.
    ///
    /// Returns false, changing nothing, when `node_id` is absent from the
    /// topology; that is a recoverable outcome, not an error.
    pub fn run_calc(&mut self, node_id: isize, recursive: bool) -> (found: bool)
        ensures
            found == has_node(old(self).node_list@, node_id),
            !found ==> *final(self) == *old(self),
            final(self).link_list == old(self).link_list,
            final(self).root_id == old(self).root_id,
            gossip_reachable(old(self).node_list@, old(self).link_list@, final(self).node_list@),
            nodes_no_worse(old(self).node_list@, final(self).node_list@),
            found ==> gossip_reachable(
                run_calc_once_model(old(self).node_list@, old(self).link_list@, node_id),
                old(self).link_list@,
                final(self).node_list@,
            ),
            !recursive ==> final(self).node_list@ == run_calc_once_model(
                old(self).node_list@,
                old(self).link_list@,
                node_id,
            ),
            final(self).node_list@ == run_calc_model(
                old(self).node_list@,
                old(self).link_list@,
                node_id,
                recursive,
            ),
    {
        if node_position(&self.node_list, node_id).is_none() {
            proof {
                lemma_gossip_reachable_refl(self.node_list@, self.link_list@);
                let wl = seq![node_id];
                assert(cascade_model(self.node_list@, wl, self.link_list@, 1, (usize::MAX - 1) as nat, recursive)
                    == self.node_list@);
                assert(run_calc_model(self.node_list@, self.link_list@, node_id, recursive) == self.node_list@);
            }
            return false;
        }
        let mut worklist: Vec<isize> = Vec::new();
        worklist.push(node_id);
        proof {
            assert(worklist@ =~= seq![node_id]);
        }
        let mut head: usize = 0;
        // The cascade terminates because every acceptance strictly lowers a
        // belief in the seniority-then-cost order; the explicit budget makes
        // the loop carry a termination metric without that argument.
        let mut fuel: usize = usize::MAX;
        proof {
            lemma_gossip_reachable_refl(self.node_list@, self.link_list@);
        }
        while head < worklist.len() && fuel > 0
            invariant
                head <= worklist@.len(),
                head as int + fuel as int == usize::MAX as int,
                worklist@.len() >= 1,
                worklist@[0] == node_id,
                has_node(old(self).node_list@, node_id),
                self.link_list == old(self).link_list,
                self.root_id == old(self).root_id,
                gossip_reachable(old(self).node_list@, old(self).link_list@, self.node_list@),
                !recursive ==> worklist@.len() == 1,
                head == 0 ==> self.node_list@ == old(self).node_list@,
                head >= 1 ==> gossip_reachable(
                    run_calc_once_model(old(self).node_list@, old(self).link_list@, node_id),
                    old(self).link_list@,
                    self.node_list@,
                ),
                !recursive && head >= 1 ==> self.node_list@ == run_calc_once_model(
                    old(self).node_list@,
                    old(self).link_list@,
                    node_id,
                ),
                cascade_model(
                    self.node_list@,
                    worklist@,
                    old(self).link_list@,
                    head as int,
                    fuel as nat,
                    recursive,
                ) == run_calc_model(old(self).node_list@, old(self).link_list@, node_id, recursive),
            decreases fuel,
        {
            let ghost ns_pop = self.node_list@;
            let ghost wl_pop = worklist@;
            let ghost head_pop = head as int;
            let ghost fuel_pop = fuel as nat;
            fuel = fuel - 1;
            let current = worklist[head];
            head = head + 1;
            let ghost first = head == 1;
            let ghost once_model = run_calc_once_model(
                old(self).node_list@,
                old(self).link_list@,
                node_id,
            );
            if let Some(ci) = node_position(&self.node_list, current) {
                let snap_root = self.node_list[ci].root_id;
                let snap_cost = self.node_list[ci].root_cost;
                proof {
                    assert(has_node(ns_pop, current));
                    lemma_first_node_index(ns_pop, current);
                    assert(ci as int == first_node_index(ns_pop, current));
                }
                let nlinks = self.link_list.len();
                let mut li: usize = 0;
                while li < nlinks
                    invariant
                        li <= nlinks,
                        nlinks == self.link_list@.len(),
                        self.link_list == old(self).link_list,
                        self.root_id == old(self).root_id,
                        gossip_reachable(old(self).node_list@, old(self).link_list@, self.node_list@),
                        ci < self.node_list@.len(),
                        self.node_list@[ci as int].id == current,
                        self.node_list@[ci as int].root_id == snap_root,
                        self.node_list@[ci as int].root_cost == snap_cost,
                        worklist@.len() >= 1,
                        worklist@[0] == node_id,
                        head <= worklist@.len(),
                        !recursive ==> worklist@.len() == 1,
                        first ==> current == node_id && ns_pop == old(self).node_list@,
                        first ==> sweep(
                            self.node_list@,
                            self.link_list@,
                            li as int,
                            current,
                            snap_root,
                            snap_cost,
                        ) == sweep(ns_pop, self.link_list@, 0, current, snap_root, snap_cost),
                        !first ==> gossip_reachable(once_model, old(self).link_list@, self.node_list@),
                        sweep_wl_model(
                            self.node_list@,
                            worklist@,
                            old(self).link_list@,
                            li as int,
                            current,
                            snap_root,
                            snap_cost,
                            recursive,
                        ) == sweep_wl_model(
                            ns_pop,
                            wl_pop,
                            old(self).link_list@,
                            0,
                            current,
                            snap_root,
                            snap_cost,
                            recursive,
                        ),
                    decreases nlinks - li,
                {
                    let l = self.link_list[li];
                    let ghost pre = self.node_list@;
                    let ghost wl_pre = worklist@;
                    if l.members.0 == current || l.members.1 == current {
                        let other = if l.members.0 == current {
                            l.members.1
                        } else {
                            l.members.0
                        };
                        if other != current {
                            if let Some(j) = node_position(&self.node_list, other) {
                                if self.node_list[j].msg_count < usize::MAX && snap_cost <= usize::MAX - l.cost {
                                    proof {
                                        assert(can_gossip(pre, self.link_list@, li as int, ci as int, j as int));
                                    }
                                    let sum = snap_cost + l.cost;
                                    let accept = self.node_list[j].receive_suggestion(snap_root, current, sum);
                                    proof {
                                        assert(self.node_list@ == gossip_event(
                                            pre,
                                            self.link_list@,
                                            li as int,
                                            ci as int,
                                            j as int,
                                        ));
                                        assert(gossip_step(pre, self.link_list@, self.node_list@));
                                        lemma_gossip_reachable_step(
                                            old(self).node_list@,
                                            old(self).link_list@,
                                            pre,
                                            self.node_list@,
                                        );
                                        lemma_first_node_index(pre, other);
                                        assert(j as int == first_node_index(pre, other));
                                        if first {
                                            assert(apply_suggestion_by_id(pre, other, snap_root, current, sum)
                                                == self.node_list@);
                                        } else {
                                            lemma_gossip_reachable_step(
                                                once_model,
                                                old(self).link_list@,
                                                pre,
                                                self.node_list@,
                                            );
                                        }
                                    }
                                    if accept && recursive {
                                        worklist.push(other);
                                    }
                                } else {
                                    proof {
                                        lemma_first_node_index(pre, other);
                                        assert(j as int == first_node_index(pre, other));
                                    }
                                }
                            }
                        }
                    }
                    li = li + 1;
                    proof {
                        if first {
                            assert(sweep(pre, self.link_list@, li - 1, current, snap_root, snap_cost)
                                == sweep(self.node_list@, self.link_list@, li as int, current, snap_root, snap_cost));
                        }
                        assert((self.node_list@, worklist@) == sweep_step_model(
                            pre,
                            wl_pre,
                            l,
                            current,
                            snap_root,
                            snap_cost,
                            recursive,
                        ));
                        assert(sweep_wl_model(
                            pre,
                            wl_pre,
                            old(self).link_list@,
                            li - 1,
                            current,
                            snap_root,
                            snap_cost,
                            recursive,
                        ) == sweep_wl_model(
                            self.node_list@,
                            worklist@,
                            old(self).link_list@,
                            li as int,
                            current,
                            snap_root,
                            snap_cost,
                            recursive,
                        ));
                    }
                }
                proof {
                    assert(sweep_wl_model(
                        self.node_list@,
                        worklist@,
                        old(self).link_list@,
                        nlinks as int,
                        current,
                        snap_root,
                        snap_cost,
                        recursive,
                    ) == (self.node_list@, worklist@));
                    assert(cascade_model(ns_pop, wl_pop, old(self).link_list@, head_pop, fuel_pop, recursive)
                        == cascade_model(
                        self.node_list@,
                        worklist@,
                        old(self).link_list@,
                        head_pop + 1,
                        (fuel_pop - 1) as nat,
                        recursive,
                    ));
                    if first {
                        assert(sweep(
                            self.node_list@,
                            self.link_list@,
                            nlinks as int,
                            current,
                            snap_root,
                            snap_cost,
                        ) == self.node_list@);
                        lemma_first_node_index(old(self).node_list@, node_id);
                        assert(ci as int == first_node_index(old(self).node_list@, node_id));
                        assert(self.node_list@ == once_model);
                        lemma_gossip_reachable_refl(self.node_list@, self.link_list@);
                    }
                }
            } else {
                proof {
                    assert(!has_node(ns_pop, current));
                    assert(cascade_model(ns_pop, wl_pop, old(self).link_list@, head_pop, fuel_pop, recursive)
                        == cascade_model(
                        self.node_list@,
                        worklist@,
                        old(self).link_list@,
                        head_pop + 1,
                        (fuel_pop - 1) as nat,
                        recursive,
                    ));
                    if first {
                        assert(false);
                    }
                }
            }
        }
        proof {
            lemma_gossip_reachable_no_worse(old(self).node_list@, old(self).link_list@, self.node_list@);
        }
        true
    }

    /// Whether some stored node has received at most `hops` suggestions.
    fn any_count_at_most(&self, hops: usize) -> (r: bool)
        ensures
            r == exists|i: int| 0 <= i < self.node_list@.len() && (#[trigger] self.node_list@[i]).msg_count <= hops,
    {
        let n = self.node_list.len();
        let mut i: usize = 0;
        while i < n
            invariant
                i <= n,
                n == self.node_list@.len(),
                forall|j: int| 0 <= j < i ==> (#[trigger] self.node_list@[j]).msg_count > hops,
            decreases n - i,
        {
            if self.node_list[i].msg_count <= hops {
                return true;
            }
            i += 1;
        }
        false
    }

    /// Drives the topology towards convergence: in rounds of
    /// `min_iterations` propagations, each from a uniformly drawn stored
    /// node, and on as long as `min_hops` is non-zero and some node has
    /// not yet received more than `min_hops` suggestions.  With `min_hops`
    /// zero exactly one round runs.  An empty topology is left untouched.
    ///
    /// The contract pins the driver's work: the final state is some number
    /// of whole driver draws applied to the initial one, exactly
    /// `min_iterations` of them when `min_hops` is zero, and as soon as a
    /// round makes a draw at all, the first drawn node's full neighbor
    /// sweep has demonstrably happened.  Which nodes are drawn is random,
    /// so no more than this holds of every outcome.
    ///
    /// On a topology where some node cannot be reached often enough the
    /// termination predicate never fires; that liveness hazard is part of
    /// the protocol's design and is left to the caller's choice of
    /// `min_hops`.
    pub fn simulate(&mut self, min_iterations: usize, min_hops: usize, recursive: bool)
        ensures
            final(self).link_list == old(self).link_list,
            final(self).root_id == old(self).root_id,
            gossip_reachable(old(self).node_list@, old(self).link_list@, final(self).node_list@),
            nodes_no_worse(old(self).node_list@, final(self).node_list@),
            old(self).node_list@.len() == 0 ==> final(self).node_list@ == old(self).node_list@,
            exists|k: nat|
                driver_batch(
                    old(self).node_list@,
                    old(self).link_list@,
                    final(self).node_list@,
                    recursive,
                    k,
                ),
            old(self).node_list@.len() > 0 && min_hops == 0 ==> driver_batch(
                old(self).node_list@,
                old(self).link_list@,
                final(self).node_list@,
                recursive,
                min_iterations as nat,
            ),
            old(self).node_list@.len() > 0 && min_iterations > 0 ==> swept_from_some(
                old(self).node_list@,
                old(self).link_list@,
                final(self).node_list@,
            ),
    {
        proof {
            lemma_gossip_reachable_refl(self.node_list@, self.link_list@);
            lemma_gossip_reachable_no_worse(self.node_list@, self.link_list@, self.node_list@);
            assert(driver_batch(self.node_list@, self.link_list@, self.node_list@, recursive, 0));
        }
        if self.node_list.len() == 0 {
            return;
        }
        let mut done = false;
        let ghost mut total: nat = 0;
        let ghost mut swept = false;
        // A round budget in place of the protocol's openly unbounded retry
        // loop, so that the loop carries an explicit termination metric.
        let mut rounds: usize = usize::MAX;
        while !done && rounds > 0
            invariant
                self.node_list@.len() == old(self).node_list@.len(),
                self.node_list@.len() > 0,
                self.link_list == old(self).link_list,
                self.root_id == old(self).root_id,
                gossip_reachable(old(self).node_list@, old(self).link_list@, self.node_list@),
                nodes_no_worse(old(self).node_list@, self.node_list@),
                driver_batch(old(self).node_list@, old(self).link_list@, self.node_list@, recursive, total),
                swept <==> total > 0,
                swept ==> swept_from_some(old(self).node_list@, old(self).link_list@, self.node_list@),
                (done || rounds < usize::MAX) && min_iterations > 0 ==> total > 0,
                min_hops == 0 && !done ==> rounds == usize::MAX && total == 0,
                min_hops == 0 && done ==> total == min_iterations as nat,
            decreases rounds,
        {
            rounds = rounds - 1;
            let ghost total0 = total;
            let mut i: usize = 0;
            while i < min_iterations
                invariant
                    i <= min_iterations,
                    total == total0 + i,
                    self.node_list@.len() == old(self).node_list@.len(),
                    self.node_list@.len() > 0,
                    self.link_list == old(self).link_list,
                    self.root_id == old(self).root_id,
                    gossip_reachable(old(self).node_list@, old(self).link_list@, self.node_list@),
                    nodes_no_worse(old(self).node_list@, self.node_list@),
                    driver_batch(old(self).node_list@, old(self).link_list@, self.node_list@, recursive, total),
                    swept <==> total > 0,
                    swept ==> swept_from_some(old(self).node_list@, old(self).link_list@, self.node_list@),
                decreases min_iterations - i,
            {
                let ghost pre = self.node_list@;
                let randi = random_below(self.node_list.len());
                let node_id = self.node_list[randi].id;
                self.run_calc(node_id, recursive);
                proof {
                    lemma_gossip_reachable_trans(
                        old(self).node_list@,
                        old(self).link_list@,
                        pre,
                        self.node_list@,
                    );
                    lemma_gossip_reachable_no_worse(
                        old(self).node_list@,
                        old(self).link_list@,
                        self.node_list@,
                    );
                    assert(has_node(pre, node_id));
                    assert(self.node_list@ == run_calc_model(pre, old(self).link_list@, node_id, recursive));
                    assert(driver_step(pre, old(self).link_list@, self.node_list@, recursive));
                    assert(driver_batch(
                        old(self).node_list@,
                        old(self).link_list@,
                        self.node_list@,
                        recursive,
                        total + 1,
                    ));
                    if !swept {
                        assert(pre == old(self).node_list@);
                        assert(swept_from_some(old(self).node_list@, old(self).link_list@, self.node_list@));
                        swept = true;
                    } else {
                        let x = choose|x: isize|
                            has_node(old(self).node_list@, x) && gossip_reachable(
                                #[trigger] run_calc_once_model(old(self).node_list@, old(self).link_list@, x),
                                old(self).link_list@,
                                pre,
                            );
                        lemma_gossip_reachable_trans(
                            run_calc_once_model(old(self).node_list@, old(self).link_list@, x),
                            old(self).link_list@,
                            pre,
                            self.node_list@,
                        );
                    }
                    total = total + 1;
                }
                i += 1;
            }
            done = if min_hops == 0 {
                true
            } else {
                !self.any_count_at_most(min_hops)
            };
        }
        proof {
            if min_hops == 0 {
                assert(done);
            }
        }
    }
}

/// Repeating a suggestion that was just applied changes nothing further:
/// the second delivery of the same `(suggested_id, source_id, root_cost)`
/// is rejected and leaves the belief triple as it was, while the message
/// counter still advances (up to the machine range, where the counter can
/// no longer move).
pub proof fn lemma_receive_suggestion_idempotent(n: Node, suggested_id: isize, source_id: isize, root_cost: usize)
    ensures
        ({
            let once = with_suggestion(n, suggested_id, source_id, root_cost);
            let twice = with_suggestion(once, suggested_id, source_id, root_cost);
            &&& !accepts_suggestion(once, suggested_id, root_cost)
            &&& twice.id == once.id
            &&& twice.name == once.name
            &&& twice.root_id == once.root_id
            &&& twice.root_cost == once.root_cost
            &&& twice.next_hop == once.next_hop
            &&& (n.msg_count + 2 <= usize::MAX ==> twice.msg_count == once.msg_count + 1)
        }),
{
}

/// For a fixed believed root, the path cost never increases: whatever
/// suggestion arrives, a node that keeps its root keeps a cost no higher
/// than before.
pub proof fn lemma_root_cost_monotone(n: Node, suggested_id: isize, source_id: isize, root_cost: usize)
    ensures
        ({
            let n2 = with_suggestion(n, suggested_id, source_id, root_cost);
            n2.root_id == n.root_id ==> n2.root_cost <= n.root_cost
        }),
{
}

/// Inserting the same link twice yields the same stored links as inserting
/// it once: the duplicate insert is a no-op.
pub proof fn lemma_add_link_idempotent(links: Seq<Link>, link: Link)
    ensures
        add_link_model(add_link_model(links, link), link) == add_link_model(links, link),
{
    let once = add_link_model(links, link);
    if !has_link(links, link.members.0, link.members.1) {
        assert(once[links.len() as int] == link);
        assert(link_joins(once[links.len() as int], link.members.0, link.members.1));
        assert(has_link(once, link.members.0, link.members.1));
    }
}

/// Inserting the same node twice yields the same stored nodes and the same
/// root-id bookkeeping as inserting it once: the duplicate insert is a
/// no-op.
pub proof fn lemma_add_node_idempotent(ns: Seq<Node>, root_id: Option<isize>, node: Node)
    ensures
        add_node_nodes_model(add_node_nodes_model(ns, node), node) == add_node_nodes_model(ns, node),
        add_node_root_model(
            add_node_nodes_model(ns, node),
            add_node_root_model(ns, root_id, node),
            node,
        ) == add_node_root_model(ns, root_id, node),
{
    let once = add_node_nodes_model(ns, node);
    if !has_node(ns, node.id) {
        assert(once[ns.len() as int] == node);
        assert(has_node(once, node.id));
    }
}

/// `find_link` is symmetric in its two arguments: searching for the pair
/// `(a, b)` and for the pair `(b, a)` resolves to the same stored link.
pub proof fn lemma_find_link_symmetric(links: Seq<Link>, a: isize, b: isize, rab: Option<Link>, rba: Option<Link>)
    requires
        link_search_result(links, a, b, rab),
        link_search_result(links, b, a, rba),
    ensures
        rab == rba,
{
    assert(forall|l: Link| link_joins(l, a, b) == link_joins(l, b, a));
    match (rab, rba) {
        (Some(la), Some(lb)) => {
            let i1 = choose|i: int|
                {
                    &&& 0 <= i < links.len()
                    &&& la == links[i]
                    &&& link_joins(#[trigger] links[i], a, b)
                    &&& forall|j: int| 0 <= j < i ==> !link_joins(#[trigger] links[j], a, b)
                };
            let i2 = choose|i: int|
                {
                    &&& 0 <= i < links.len()
                    &&& lb == links[i]
                    &&& link_joins(#[trigger] links[i], b, a)
                    &&& forall|j: int| 0 <= j < i ==> !link_joins(#[trigger] links[j], b, a)
                };
            assert(!(i1 < i2) && !(i2 < i1));
        },
        (Some(la), None) => {
            let i1 = choose|i: int|
                {
                    &&& 0 <= i < links.len()
                    &&& la == links[i]
                    &&& link_joins(#[trigger] links[i], a, b)
                    &&& forall|j: int| 0 <= j < i ==> !link_joins(#[trigger] links[j], a, b)
                };
            assert(link_joins(links[i1], b, a));
        },
        (None, Some(lb)) => {
            let i2 = choose|i: int|
                {
                    &&& 0 <= i < links.len()
                    &&& lb == links[i]
                    &&& link_joins(#[trigger] links[i], b, a)
                    &&& forall|j: int| 0 <= j < i ==> !link_joins(#[trigger] links[j], b, a)
                };
            assert(link_joins(links[i2], a, b));
        },
        (None, None) => {},
    }
}

/// Every belief is well formed: it names a stored participant at least as
/// senior as the believer, and a node that still believes itself root is at
/// cost 0.  This holds of freshly built topologies and is preserved by the
/// gossip.
pub open spec fn beliefs_wf(ns: Seq<Node>) -> bool {
    forall|i: int| #![auto] 0 <= i < ns.len() ==> {
        &&& ns[i].root_id <= ns[i].id
        &&& has_node(ns, ns[i].root_id)
        &&& (ns[i].root_id == ns[i].id ==> ns[i].root_cost == 0)
    }
}

/// Whether the receiver of the gossip event `(k, i, j)` would reject it:
/// the sender's root is no more senior, and for the shared root the offered
/// path is no cheaper.
pub open spec fn rejects_gossip(ns: Seq<Node>, links: Seq<Link>, k: int, i: int, j: int) -> bool {
    &&& ns[i].root_id >= ns[j].root_id
    &&& (ns[i].root_id == ns[j].root_id ==> ns[i].root_cost + links[k].cost >= ns[j].root_cost)
}

/// A converged state: every gossip event that could possibly occur would be
/// rejected, so no amount of further propagation changes any belief.
pub open spec fn gossip_stable(ns: Seq<Node>, links: Seq<Link>) -> bool {
    forall|k: int, i: int, j: int| #[trigger] can_gossip(ns, links, k, i, j) ==> rejects_gossip(ns, links, k, i, j)
}

/// Whether the nodes at indices `i` and `j` are joined by a stored link
/// over which gossip can flow.
pub open spec fn adjacent(ns: Seq<Node>, links: Seq<Link>, i: int, j: int) -> bool {
    exists|k: int| can_gossip(ns, links, k, i, j)
}

/// Whether a chain of at most `hops` adjacent nodes leads from index `i` to
/// index `j`.
pub open spec fn connected_within(ns: Seq<Node>, links: Seq<Link>, i: int, j: int, hops: nat) -> bool
    decreases hops,
{
    i == j || (hops > 0 && exists|m: int|
        0 <= m < ns.len() && #[trigger] adjacent(ns, links, i, m) && connected_within(
            ns,
            links,
            m,
            j,
            (hops - 1) as nat,
        ))
}

/// Whether some chain of adjacent nodes leads from index `i` to index `j`.
pub open spec fn pair_connected(ns: Seq<Node>, links: Seq<Link>, i: int, j: int) -> bool {
    exists|hops: nat| connected_within(ns, links, i, j, hops)
}

/// A connected topology: every stored node can reach every other over the
/// stored links.
pub open spec fn connected(ns: Seq<Node>, links: Seq<Link>) -> bool {
    forall|i: int, j: int|
        0 <= i < ns.len() && 0 <= j < ns.len() ==> #[trigger] pair_connected(ns, links, i, j)
}

/// At a stable state, two adjacent nodes believe in the same root.
proof fn lemma_stable_adjacent_agree(ns: Seq<Node>, links: Seq<Link>, i: int, j: int)
    requires
        gossip_stable(ns, links),
        adjacent(ns, links, i, j),
    ensures
        ns[i].root_id == ns[j].root_id,
{
    let k = choose|k: int| can_gossip(ns, links, k, i, j);
    assert(can_gossip(ns, links, k, j, i));
}

/// At a stable state, two connected nodes believe in the same root.
proof fn lemma_stable_chain_agree(ns: Seq<Node>, links: Seq<Link>, i: int, j: int, hops: nat)
    requires
        gossip_stable(ns, links),
        connected_within(ns, links, i, j, hops),
    ensures
        ns[i].root_id == ns[j].root_id,
    decreases hops,
{
    if i != j {
        let m = choose|m: int|
            0 <= m < ns.len() && #[trigger] adjacent(ns, links, i, m) && connected_within(
                ns,
                links,
                m,
                j,
                (hops - 1) as nat,
            );
        lemma_stable_adjacent_agree(ns, links, i, m);
        lemma_stable_chain_agree(ns, links, m, j, (hops - 1) as nat);
    }
}

/// Root election converges to the most senior participant: at any stable
/// state of a connected topology, every node's believed root is the minimum
/// id present.  Here `m` is the index of a node of minimum id and `i` any
/// node index.
pub proof fn lemma_stable_connected_agreement(ns: Seq<Node>, links: Seq<Link>, i: int, m: int)
    requires
        beliefs_wf(ns),
        gossip_stable(ns, links),
        connected(ns, links),
        0 <= i < ns.len(),
        0 <= m < ns.len(),
        forall|j: int| 0 <= j < ns.len() ==> ns[m].id <= (#[trigger] ns[j]).id,
    ensures
        ns[i].root_id == ns[m].id,
{
    assert(pair_connected(ns, links, i, m));
    let hops = choose|hops: nat| connected_within(ns, links, i, m, hops);
    lemma_stable_chain_agree(ns, links, i, m, hops);
    assert(has_node(ns, ns[m].root_id));
    let w = choose|w: int| 0 <= w < ns.len() && ns[w].id == ns[m].root_id;
    assert(ns[m].id <= ns[w].id);
}

/// A chain of stored links leading from the node id `from` to the node id
/// `to`: each listed link touches the id reached so far, leads to a
/// different id, and both ends are stored nodes.
pub open spec fn route(ns: Seq<Node>, links: Seq<Link>, ks: Seq<int>, from: isize, to: isize) -> bool
    decreases ks.len(),
{
    if ks.len() == 0 {
        from == to
    } else {
        let k = ks[0];
        &&& 0 <= k < links.len()
        &&& link_touches(links[k], from)
        &&& other_end(links[k], from) != from
        &&& has_node(ns, from)
        &&& has_node(ns, other_end(links[k], from))
        &&& route(ns, links, ks.drop_first(), other_end(links[k], from), to)
    }
}

/// The summed cost of the listed links.
pub open spec fn route_cost(links: Seq<Link>, ks: Seq<int>) -> int
    decreases ks.len(),
{
    if ks.len() == 0 {
        0
    } else {
        (if 0 <= ks[0] < links.len() {
            links[ks[0]].cost as int
        } else {
            0
        }) + route_cost(links, ks.drop_first())
    }
}

/// At a stable state where all nodes already agree on the root, following
/// any chain of links can only add cost: the believed path cost of the node
/// at the end of a route is at most the believed cost at its start plus the
/// route's cost.
proof fn lemma_stable_cost_below_route(ns: Seq<Node>, links: Seq<Link>, ks: Seq<int>, from: isize, to: isize)
    requires
        gossip_stable(ns, links),
        forall|i: int, j: int|
            0 <= i < ns.len() && 0 <= j < ns.len() ==> (#[trigger] ns[i]).root_id == (#[trigger] ns[j]).root_id,
        route(ns, links, ks, from, to),
        has_node(ns, from),
    ensures
        has_node(ns, to),
        ns[first_node_index(ns, to)].root_cost
            <= ns[first_node_index(ns, from)].root_cost + route_cost(links, ks),
    decreases ks.len(),
{
    if ks.len() == 0 {
    } else {
        let k = ks[0];
        let mid = other_end(links[k], from);
        let fi = first_node_index(ns, from);
        let mi = first_node_index(ns, mid);
        lemma_first_node_index(ns, from);
        lemma_first_node_index(ns, mid);
        assert(link_joins(links[k], ns[fi].id, ns[mi].id));
        assert(can_gossip(ns, links, k, fi, mi));
        lemma_stable_cost_below_route(ns, links, ks.drop_first(), mid, to);
    }
}

/// Once converged, a node's believed path cost to the root is at most the
/// cost of any actual chain of links from the root to it: the gossip has
/// found a path no worse than any it could have explored.  Here `m` is the
/// index of a node of minimum id.
pub proof fn lemma_stable_root_cost_minimal(
    ns: Seq<Node>,
    links: Seq<Link>,
    ks: Seq<int>,
    to: isize,
    m: int,
)
    requires
        beliefs_wf(ns),
        gossip_stable(ns, links),
        connected(ns, links),
        0 <= m < ns.len(),
        forall|j: int| 0 <= j < ns.len() ==> ns[m].id <= (#[trigger] ns[j]).id,
        route(ns, links, ks, ns[m].id, to),
    ensures
        has_node(ns, to),
        ns[first_node_index(ns, to)].root_cost <= route_cost(links, ks),
{
    assert forall|i: int, j: int|
        0 <= i < ns.len() && 0 <= j < ns.len() implies (#[trigger] ns[i]).root_id == (#[trigger] ns[j]).root_id by {
        lemma_stable_connected_agreement(ns, links, i, m);
        lemma_stable_connected_agreement(ns, links, j, m);
    }
    let ri = first_node_index(ns, ns[m].id);
    assert(has_node(ns, ns[m].id));
    lemma_first_node_index(ns, ns[m].id);
    lemma_stable_connected_agreement(ns, links, ri, m);
    assert(ns[ri].root_cost == 0);
    lemma_stable_cost_below_route(ns, links, ks, ns[m].id, to);
}

/// Routes only look at which ids are stored: they carry over to any node
/// list that stores at least the same ids.
proof fn lemma_route_same_ids(ns: Seq<Node>, ns2: Seq<Node>, links: Seq<Link>, ks: Seq<int>, from: isize, to: isize)
    requires
        route(ns, links, ks, from, to),
        forall|x: isize| has_node(ns, x) ==> has_node(ns2, x),
    ensures
        route(ns2, links, ks, from, to),
    decreases ks.len(),
{
    if ks.len() == 0 {
    } else {
        assert(has_node(ns, from));
        assert(has_node(ns, other_end(links[ks[0]], from)));
        lemma_route_same_ids(ns, ns2, links, ks.drop_first(), other_end(links[ks[0]], from), to);
    }
}

/// A route still stands, at the same cost, after further links are stored
/// behind the ones it uses.
proof fn lemma_route_more_links(ns: Seq<Node>, links: Seq<Link>, links2: Seq<Link>, ks: Seq<int>, from: isize, to: isize)
    requires
        route(ns, links, ks, from, to),
        links.len() <= links2.len(),
        forall|j: int| 0 <= j < links.len() ==> links2[j] == links[j],
    ensures
        route(ns, links2, ks, from, to),
        route_cost(links2, ks) == route_cost(links, ks),
    decreases ks.len(),
{
    if ks.len() == 0 {
    } else {
        assert(links2[ks[0]] == links[ks[0]]);
        lemma_route_more_links(ns, links, links2, ks.drop_first(), other_end(links[ks[0]], from), to);
    }
}

/// A route extends by one further link hanging off its end.
proof fn lemma_route_snoc(ns: Seq<Node>, links: Seq<Link>, ks: Seq<int>, from: isize, to: isize, k: int)
    requires
        route(ns, links, ks, from, to),
        0 <= k < links.len(),
        link_touches(links[k], to),
        other_end(links[k], to) != to,
        has_node(ns, to),
        has_node(ns, other_end(links[k], to)),
    ensures
        route(ns, links, ks.push(k), from, other_end(links[k], to)),
        route_cost(links, ks.push(k)) == route_cost(links, ks) + links[k].cost,
    decreases ks.len(),
{
    if ks.len() == 0 {
        assert(ks.push(k).drop_first() =~= Seq::<int>::empty());
        assert(ks.push(k)[0] == k);
        assert(route(ns, links, Seq::<int>::empty(), other_end(links[k], to), other_end(links[k], to)));
        assert(route_cost(links, Seq::<int>::empty()) == 0);
        assert(route_cost(links, ks) == 0);
    } else {
        assert(ks.push(k).drop_first() =~= ks.drop_first().push(k));
        assert(ks.push(k)[0] == ks[0]);
        lemma_route_snoc(ns, links, ks.drop_first(), other_end(links[ks[0]], from), to, k);
        assert(route_cost(links, ks) == links[ks[0]].cost + route_cost(links, ks.drop_first()));
        assert(route_cost(links, ks.push(k)) == links[ks[0]].cost + route_cost(
            links,
            ks.drop_first().push(k),
        ));
        assert(route(ns, links, ks.push(k), from, other_end(links[k], to)));
    }
}

/// Every belief's path cost is realized: some actual chain of stored
/// links leads from the believed root to the believer at exactly that
/// cost.  This holds of freshly built topologies and is preserved by the
/// gossip, and it is what makes a converged cost the minimum over routes
/// rather than merely a lower bound of them.
pub open spec fn cost_realized_at(ns: Seq<Node>, links: Seq<Link>, i: int) -> bool {
    exists|ks: Seq<int>|
        route(ns, links, ks, ns[i].root_id, ns[i].id) && route_cost(links, ks) == ns[i].root_cost
}

pub open spec fn costs_realized(ns: Seq<Node>, links: Seq<Link>) -> bool {
    forall|i: int| 0 <= i < ns.len() ==> #[trigger] cost_realized_at(ns, links, i)
}

/// Inserting a freshly created node (its own root, at cost 0) keeps every
/// belief's cost realized.
pub proof fn lemma_add_node_preserves_costs_realized(ns: Seq<Node>, links: Seq<Link>, node: Node)
    requires
        costs_realized(ns, links),
        node.root_id == node.id,
        node.root_cost == 0,
    ensures
        costs_realized(add_node_nodes_model(ns, node), links),
{
    let ns2 = add_node_nodes_model(ns, node);
    if !has_node(ns, node.id) {
        assert forall|x: isize| has_node(ns, x) implies has_node(ns2, x) by {
            let w = choose|w: int| 0 <= w < ns.len() && ns[w].id == x;
            assert(ns2[w].id == x);
        }
        assert forall|i: int| 0 <= i < ns2.len() implies #[trigger] cost_realized_at(ns2, links, i) by {
            if i < ns.len() {
                assert(cost_realized_at(ns, links, i));
                let ks = choose|ks: Seq<int>|
                    route(ns, links, ks, ns[i].root_id, ns[i].id) && route_cost(links, ks) == ns[i].root_cost;
                lemma_route_same_ids(ns, ns2, links, ks, ns[i].root_id, ns[i].id);
                assert(route(ns2, links, ks, ns2[i].root_id, ns2[i].id) && route_cost(links, ks)
                    == ns2[i].root_cost);
            } else {
                let ks = Seq::<int>::empty();
                assert(route(ns2, links, ks, ns2[i].root_id, ns2[i].id) && route_cost(links, ks)
                    == ns2[i].root_cost);
            }
        }
    }
}

/// Storing a further link keeps every belief's cost realized.
pub proof fn lemma_add_link_preserves_costs_realized(ns: Seq<Node>, links: Seq<Link>, link: Link)
    requires
        costs_realized(ns, links),
    ensures
        costs_realized(ns, add_link_model(links, link)),
{
    let links2 = add_link_model(links, link);
    assert forall|i: int| 0 <= i < ns.len() implies #[trigger] cost_realized_at(ns, links2, i) by {
        assert(cost_realized_at(ns, links, i));
        let ks = choose|ks: Seq<int>|
            route(ns, links, ks, ns[i].root_id, ns[i].id) && route_cost(links, ks) == ns[i].root_cost;
        lemma_route_more_links(ns, links, links2, ks, ns[i].root_id, ns[i].id);
        assert(route(ns, links2, ks, ns[i].root_id, ns[i].id) && route_cost(links2, ks)
            == ns[i].root_cost);
    }
}

/// One gossip event keeps every belief's cost realized: an accepted cost
/// is the sender's realized cost plus the delivering link's.
pub proof fn lemma_gossip_step_preserves_costs_realized(ns: Seq<Node>, links: Seq<Link>, ns2: Seq<Node>)
    requires
        costs_realized(ns, links),
        gossip_step(ns, links, ns2),
    ensures
        costs_realized(ns2, links),
{
    let (k, i, j) = choose|k: int, i: int, j: int|
        {
            &&& can_gossip(ns, links, k, i, j)
            &&& ns[j].msg_count < usize::MAX
            &&& ns[i].root_cost + links[k].cost <= usize::MAX
            &&& ns2 == #[trigger] gossip_event(ns, links, k, i, j)
        };
    assert(ns2 == gossip_event(ns, links, k, i, j));
    assert forall|x: isize| has_node(ns, x) implies has_node(ns2, x) by {
        let w = choose|w: int| 0 <= w < ns.len() && ns[w].id == x;
        assert(ns2[w].id == x);
    }
    let scost = ((ns[i].root_cost + links[k].cost) as usize);
    assert forall|p: int| 0 <= p < ns2.len() implies #[trigger] cost_realized_at(ns2, links, p) by {
        if p == j && accepts_suggestion(ns[j], ns[i].root_id, scost) {
            assert(cost_realized_at(ns, links, i));
            let ks = choose|ks: Seq<int>|
                route(ns, links, ks, ns[i].root_id, ns[i].id) && route_cost(links, ks) == ns[i].root_cost;
            assert(other_end(links[k], ns[i].id) == ns[j].id);
            lemma_route_snoc(ns, links, ks, ns[i].root_id, ns[i].id, k);
            lemma_route_same_ids(ns, ns2, links, ks.push(k), ns[i].root_id, ns[j].id);
            assert(route(ns2, links, ks.push(k), ns2[p].root_id, ns2[p].id) && route_cost(links, ks.push(k))
                == ns2[p].root_cost);
        } else {
            assert(cost_realized_at(ns, links, p));
            let ks = choose|ks: Seq<int>|
                route(ns, links, ks, ns[p].root_id, ns[p].id) && route_cost(links, ks) == ns[p].root_cost;
            lemma_route_same_ids(ns, ns2, links, ks, ns[p].root_id, ns[p].id);
            assert(route(ns2, links, ks, ns2[p].root_id, ns2[p].id) && route_cost(links, ks)
                == ns2[p].root_cost);
        }
    }
}

/// Any amount of gossip keeps every belief's cost realized.
pub proof fn lemma_gossip_reachable_preserves_costs_realized(ns: Seq<Node>, links: Seq<Link>, ns2: Seq<Node>)
    requires
        costs_realized(ns, links),
        gossip_reachable(ns, links, ns2),
    ensures
        costs_realized(ns2, links),
{
    let steps = choose|steps: nat| gossip_reaches_in(ns, links, ns2, steps);
    lemma_gossip_reachable_preserves_costs_realized_in(ns, links, ns2, steps);
}

proof fn lemma_gossip_reachable_preserves_costs_realized_in(ns: Seq<Node>, links: Seq<Link>, ns2: Seq<Node>, steps: nat)
    requires
        costs_realized(ns, links),
        gossip_reaches_in(ns, links, ns2, steps),
    ensures
        costs_realized(ns2, links),
    decreases steps,
{
    if steps == 0 {
        assert(ns2 == ns);
    } else {
        let mid = choose|mid: Seq<Node>|
            gossip_reaches_in(ns, links, mid, (steps - 1) as nat) && #[trigger] gossip_step(mid, links, ns2);
        lemma_gossip_reachable_preserves_costs_realized_in(ns, links, mid, (steps - 1) as nat);
        lemma_gossip_step_preserves_costs_realized(mid, links, ns2);
    }
}

/// Once converged, a node's believed path cost is not merely a lower
/// bound of the routes from the elected root: it is itself the cost of
/// one such route, and together with `lemma_stable_root_cost_minimal` it
/// is therefore the minimum over them.  Here `m` is the index of a node
/// of minimum id.
pub proof fn lemma_stable_root_cost_is_route_cost(ns: Seq<Node>, links: Seq<Link>, to: isize, m: int)
    requires
        beliefs_wf(ns),
        gossip_stable(ns, links),
        connected(ns, links),
        costs_realized(ns, links),
        0 <= m < ns.len(),
        forall|j: int| 0 <= j < ns.len() ==> ns[m].id <= (#[trigger] ns[j]).id,
        has_node(ns, to),
    ensures
        exists|ks: Seq<int>|
            route(ns, links, ks, ns[m].id, to) && route_cost(links, ks) == ns[first_node_index(ns, to)].root_cost,
{
    let ti = first_node_index(ns, to);
    lemma_first_node_index(ns, to);
    lemma_stable_connected_agreement(ns, links, ti, m);
    assert(cost_realized_at(ns, links, ti));
    let ks = choose|ks: Seq<int>|
        route(ns, links, ks, ns[ti].root_id, ns[ti].id) && route_cost(links, ks) == ns[ti].root_cost;
    assert(route(ns, links, ks, ns[m].id, to) && route_cost(links, ks)
        == ns[first_node_index(ns, to)].root_cost);
}

/// Inserting a freshly created node (its own root, at cost 0) keeps the
/// beliefs well formed.
pub proof fn lemma_add_node_preserves_beliefs_wf(ns: Seq<Node>, node: Node)
    requires
        beliefs_wf(ns),
        node.root_id == node.id,
        node.root_cost == 0,
    ensures
        beliefs_wf(add_node_nodes_model(ns, node)),
{
    let ns2 = add_node_nodes_model(ns, node);
    if !has_node(ns, node.id) {
        assert forall|i: int| 0 <= i < ns2.len() implies {
            &&& ns2[i].root_id <= ns2[i].id
            &&& has_node(ns2, ns2[i].root_id)
            &&& (ns2[i].root_id == ns2[i].id ==> ns2[i].root_cost == 0)
        } by {
            if i < ns.len() {
                let w = choose|w: int| 0 <= w < ns.len() && ns[w].id == ns[i].root_id;
                assert(ns2[w].id == ns2[i].root_id);
            } else {
                assert(ns2[i] == node);
                assert(ns2[i].id == ns2[i].root_id);
            }
        }
    }
}

/// One gossip event keeps the beliefs well formed: an accepted root is the
/// sender's believed root, which already names a stored participant.
pub proof fn lemma_gossip_step_preserves_beliefs_wf(ns: Seq<Node>, links: Seq<Link>, ns2: Seq<Node>)
    requires
        beliefs_wf(ns),
        gossip_step(ns, links, ns2),
    ensures
        beliefs_wf(ns2),
{
    let (k, i, j) = choose|k: int, i: int, j: int|
        {
            &&& can_gossip(ns, links, k, i, j)
            &&& ns[j].msg_count < usize::MAX
            &&& ns[i].root_cost + links[k].cost <= usize::MAX
            &&& ns2 == #[trigger] gossip_event(ns, links, k, i, j)
        };
    assert(ns2 == gossip_event(ns, links, k, i, j));
    assert forall|p: int| 0 <= p < ns2.len() implies {
        &&& ns2[p].root_id <= ns2[p].id
        &&& has_node(ns2, ns2[p].root_id)
        &&& (ns2[p].root_id == ns2[p].id ==> ns2[p].root_cost == 0)
    } by {
        if p == j && accepts_suggestion(ns[j], ns[i].root_id, ((ns[i].root_cost + links[k].cost) as usize)) {
            let w = choose|w: int| 0 <= w < ns.len() && ns[w].id == ns[i].root_id;
            assert(ns2[w].id == ns2[p].root_id);
        } else {
            let w = choose|w: int| 0 <= w < ns.len() && ns[w].id == ns[p].root_id;
            assert(ns2[w].id == ns2[p].root_id);
        }
    }
}

/// Any amount of gossip keeps the beliefs well formed.
pub proof fn lemma_gossip_reachable_preserves_beliefs_wf(ns: Seq<Node>, links: Seq<Link>, ns2: Seq<Node>)
    requires
        beliefs_wf(ns),
        gossip_reachable(ns, links, ns2),
    ensures
        beliefs_wf(ns2),
{
    let steps = choose|steps: nat| gossip_reaches_in(ns, links, ns2, steps);
    lemma_gossip_reachable_preserves_beliefs_wf_in(ns, links, ns2, steps);
}

proof fn lemma_gossip_reachable_preserves_beliefs_wf_in(ns: Seq<Node>, links: Seq<Link>, ns2: Seq<Node>, steps: nat)
    requires
        beliefs_wf(ns),
        gossip_reaches_in(ns, links, ns2, steps),
    ensures
        beliefs_wf(ns2),
    decreases steps,
{
    if steps == 0 {
        assert(ns2 == ns);
    } else {
        let mid = choose|mid: Seq<Node>|
            gossip_reaches_in(ns, links, mid, (steps - 1) as nat) && #[trigger] gossip_step(mid, links, ns2);
        lemma_gossip_reachable_preserves_beliefs_wf_in(ns, links, mid, (steps - 1) as nat);
        lemma_gossip_step_preserves_beliefs_wf(mid, links, ns2);
    }
}

/// Relies on rand's `random_range`: a value uniformly drawn from the given
/// range, which must not be empty.
#[verifier::external_body]
pub(crate) fn random_below(n: usize) -> (r: usize)
    requires
        n > 0,
    ensures
        r < n,
{
    rand::random_range(0..n)
}

} // verus!
