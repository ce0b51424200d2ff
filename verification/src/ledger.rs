//! The books that the planner keeps on the rename graph, and the proofs
//! that they stay in order while cycles are broken and that the steps drawn
//! from the graph are a plan.

use crate::digraph::is_hop;
use crate::digraph::is_topological_order;
use crate::digraph::is_walk;
use crate::digraph::lists_node;
use crate::digraph::on_cycle;
use crate::digraph::swap_removed;
use crate::mapping::destinations;
use crate::mapping::is_rename_mapping;
use crate::mapping::sources;
use crate::mapping::Renames;
use crate::placeholder::placeholder_name;
use crate::placeholder::reported_used;
use crate::plan::deferred_steps;
use crate::plan::first_number;
use crate::plan::has_cycle;
use crate::plan::is_chain;
use crate::plan::is_deferred_step;
use crate::plan::is_fresh;
use crate::plan::is_link;
use crate::plan::is_numbered;
use crate::plan::is_plan_for;
use crate::plan::is_requested;
use crate::plan::is_served;
use crate::plan::is_unusable;
use crate::plan::leads;
use crate::plan::lemma_distinct_below_bound;
use crate::plan::main_steps;
use crate::plan::numbered_by;
use crate::plan::placeholders_numbered;
use crate::plan::serves;
use crate::text::Path;
use vstd::prelude::*;

verus! {

/// The books that the planner keeps while it works on the graph.
pub(crate) struct Ledger {
    /// The path of each node. The nodes of the mapping come first, then one
    /// node for each temporary name.
    pub(crate) nodes: Seq<Path>,
    /// The deferred steps so far.
    pub(crate) deferred: Renames,
    /// The edges of the graph.
    pub(crate) edges: Seq<(int, int)>,
    /// For each edge, the request that it stands for.
    pub(crate) pair_of: Seq<int>,
    /// For each request, the edge that stands for it.
    pub(crate) edge_of: Seq<int>,
    /// For each deferred step, the request that it completes.
    pub(crate) broken: Seq<int>,
    /// For each deferred step, the number in its temporary name.
    pub(crate) counters: Seq<nat>,
    /// The number from which the first temporary name is searched.
    pub(crate) start: nat,
}

impl Ledger {
    /// The number of nodes that stem from the mapping.
    pub(crate) open spec fn originals(self) -> int {
        self.nodes.len() - self.deferred.len()
    }

    /// Edge `e` stands for its request: it starts at the node of the
    /// request's source and ends at the node of its destination or at the
    /// node of the temporary name that leads there.
    pub(crate) open spec fn accounts(self, renames: Renames, e: int) -> bool {
        let i = self.pair_of[e];
        let a = self.edges[e].0;
        let b = self.edges[e].1;
        &&& 0 <= a < self.originals()
        &&& 0 <= b < self.nodes.len()
        &&& self.nodes[a] == renames[i].0
        &&& b < self.originals() ==> self.nodes[b] == renames[i].1
        &&& b >= self.originals() ==> self.broken[b - self.originals()] == i
    }

    /// The destination of request `i` is a node of the mapping.
    pub(crate) open spec fn has_destination(self, renames: Renames, i: int) -> bool {
        exists|b: int| 0 <= b < self.originals() && #[trigger] self.nodes[b] == renames[i].1
    }

    /// Node `b` holds a path of the mapping.
    pub(crate) open spec fn is_requested_node(self, renames: Renames, b: int) -> bool {
        !is_fresh(renames, self.nodes[b])
    }

    /// The number `c` was passed over in the search for the temporary name
    /// of the deferred step `t`, for cause: its name plays a part in the
    /// mapping, or is the temporary name of an earlier deferred step, or was
    /// reported as used.
    pub(crate) open spec fn passed_over<F: Fn(&String) -> bool>(
        self,
        is_taken: F,
        renames: Renames,
        t: int,
        c: nat,
    ) -> bool {
        let name = placeholder_name(renames[self.broken[t]].0, c);
        ||| !is_fresh(renames, name)
        ||| exists|u: int| 0 <= u < t && (#[trigger] self.deferred[u]).0 == name
        ||| reported_used(is_taken, name)
    }

    /// Every number between the start of the search and the number of the
    /// temporary name was passed over for cause, for each deferred step.
    pub(crate) open spec fn searched<F: Fn(&String) -> bool>(
        self,
        is_taken: F,
        renames: Renames,
    ) -> bool {
        forall|t: int, c: nat|
            0 <= t < self.deferred.len() && first_number(self.start, self.counters, t) <= c < self.counters[t]
                ==> #[trigger] self.passed_over(is_taken, renames, t, c)
    }

    /// Deferred step `t` leads from its temporary name, which is the node
    /// that the edge of its request ends at, to the destination of that
    /// request.
    pub(crate) open spec fn detours(self, renames: Renames, t: int) -> bool {
        let i = self.broken[t];
        &&& 0 <= i < renames.len()
        &&& self.edges[self.edge_of[i]].1 == self.originals() + t
        &&& self.deferred[t] == (self.nodes[self.originals() + t], renames[i].1)
        &&& self.deferred[t].0 == placeholder_name(renames[i].0, self.counters[t])
        &&& sources(renames).contains(renames[i].1)
        &&& is_fresh(renames, self.deferred[t].0)
        &&& leads(renames, renames[i].1, renames[i].0)
    }

    /// The destination of the deferred step `u` does not lead to that of
    /// the deferred step `t`.
    pub(crate) open spec fn apart(self, renames: Renames, t: int, u: int) -> bool {
        !leads(renames, self.deferred[u].1, self.deferred[t].1)
    }

    /// The books are in order.
    pub(crate) open spec fn balanced(self, renames: Renames) -> bool {
        let m = renames.len() as int;
        &&& self.originals() >= 0
        &&& self.nodes.no_duplicates()
        &&& self.edges.len() == m
        &&& self.pair_of.len() == m
        &&& self.edge_of.len() == m
        &&& self.broken.len() == self.deferred.len()
        &&& self.counters.len() == self.deferred.len()
        &&& forall|e: int|
            0 <= e < m ==> 0 <= #[trigger] self.pair_of[e] < m && self.edge_of[self.pair_of[e]] == e
        &&& forall|i: int|
            0 <= i < m ==> 0 <= #[trigger] self.edge_of[i] < m && self.pair_of[self.edge_of[i]] == i
        &&& forall|e: int| 0 <= e < m ==> #[trigger] self.accounts(renames, e)
        &&& forall|i: int| 0 <= i < m ==> #[trigger] self.has_destination(renames, i)
        &&& forall|b: int|
            0 <= b < self.originals() ==> #[trigger] self.is_requested_node(renames, b)
        &&& forall|t: int| 0 <= t < self.deferred.len() ==> #[trigger] self.detours(renames, t)
        &&& forall|t: int, u: int|
            0 <= t < u < self.deferred.len() ==> #[trigger] self.apart(renames, t, u)
        &&& forall|t: int|
            0 <= t < self.counters.len() ==> first_number(self.start, self.counters, t)
                <= #[trigger] self.counters[t]
    }

    /// The books after the edge `e` has been turned from its target to a
    /// new node with the temporary name `placeholder`, the way the graph does
    /// it: the edge is removed, the last edge takes its index, and the new
    /// edge is appended.
    pub(crate) open spec fn after_break(self, e: int, placeholder: Path, counter: nat) -> Ledger {
        let last = self.edges.len() - 1;
        let request = self.pair_of[e];
        let moved = self.pair_of[last];
        Ledger {
            nodes: self.nodes.push(placeholder),
            deferred: self.deferred.push((placeholder, self.nodes[self.edges[e].1])),
            edges: swap_removed(self.edges, e).push((self.edges[e].0, self.nodes.len() as int)),
            pair_of: self.pair_of.update(e, moved).update(last, request),
            edge_of: self.edge_of.update(moved, e).update(request, last),
            broken: self.broken.push(request),
            counters: self.counters.push(counter),
            start: self.start,
        }
    }
}

/// No two edges start at the same node.
pub(crate) proof fn lemma_one_edge_per_source(renames: Renames, ledger: Ledger, e: int, f: int)
    requires
        is_rename_mapping(renames),
        ledger.balanced(renames),
        0 <= e < renames.len(),
        0 <= f < renames.len(),
        ledger.edges[e].0 == ledger.edges[f].0,
    ensures
        e == f,
{
    assert(ledger.accounts(renames, e));
    assert(ledger.accounts(renames, f));
    let i = ledger.pair_of[e];
    let j = ledger.pair_of[f];
    assert(sources(renames)[i] == sources(renames)[j]);
}

/// Every path of the mapping is the path of a node.
pub(crate) proof fn lemma_paths_are_nodes(renames: Renames, ledger: Ledger, path: Path)
    requires
        ledger.balanced(renames),
        !is_fresh(renames, path),
    ensures
        ledger.nodes.contains(path),
{
    if sources(renames).contains(path) {
        let i = choose|i: int| 0 <= i < sources(renames).len() && sources(renames)[i] == path;
        let e = ledger.edge_of[i];
        assert(ledger.accounts(renames, e));
        assert(ledger.nodes[ledger.edges[e].0] == path);
    } else {
        let i = choose|i: int|
            0 <= i < destinations(renames).len() && destinations(renames)[i] == path;
        assert(ledger.has_destination(renames, i));
        let b = choose|b: int| 0 <= b < ledger.originals() && #[trigger] ledger.nodes[b] == renames[i].1;
        assert(ledger.nodes[b] == path);
    }
}

/// The nodes of a closed walk in the graph are nodes of the mapping, and
/// each of its hops stands for a request that is served without a detour.
pub(crate) proof fn lemma_hop_is_request(renames: Renames, ledger: Ledger, walk: Seq<int>, x: int) -> (i: int)
    requires
        is_rename_mapping(renames),
        ledger.balanced(renames),
        walk.len() >= 2,
        walk[0] == walk.last(),
        is_walk(ledger.edges, walk),
        0 <= x < walk.len() - 1,
    ensures
        0 <= i < renames.len(),
        0 <= walk[x] < ledger.originals(),
        0 <= walk[x + 1] < ledger.originals(),
        renames[i] == (ledger.nodes[walk[x]], ledger.nodes[walk[x + 1]]),
        ledger.edges[ledger.edge_of[i]] == (walk[x], walk[x + 1]),
{
    assert(is_hop(ledger.edges, walk, x));
    let f = choose|f: int| 0 <= f < ledger.edges.len() && ledger.edges[f] == (walk[x], walk[x + 1]);
    assert(ledger.accounts(renames, f));
    let next = if x + 1 < walk.len() - 1 {
        x + 1
    } else {
        0
    };
    assert(is_hop(ledger.edges, walk, next));
    let g = choose|g: int|
        0 <= g < ledger.edges.len() && ledger.edges[g] == (walk[next], walk[next + 1]);
    assert(ledger.accounts(renames, g));
    ledger.pair_of[f]
}

/// A chain of requested renames that begins on a closed walk of the graph
/// stays on it.
pub(crate) proof fn lemma_chain_stays_on_walk(
    renames: Renames,
    ledger: Ledger,
    walk: Seq<int>,
    chain: Seq<Path>,
    start: int,
    k: int,
) -> (x: int)
    requires
        is_rename_mapping(renames),
        ledger.balanced(renames),
        walk.len() >= 2,
        walk[0] == walk.last(),
        is_walk(ledger.edges, walk),
        is_chain(renames, chain),
        0 <= start < walk.len() - 1,
        chain[0] == ledger.nodes[walk[start]],
        0 <= k < chain.len(),
    ensures
        0 <= x < walk.len() - 1,
        chain[k] == ledger.nodes[walk[x]],
    decreases k,
{
    if k == 0 {
        start
    } else {
        let before = lemma_chain_stays_on_walk(renames, ledger, walk, chain, start, k - 1);
        let i = lemma_hop_is_request(renames, ledger, walk, before);
        assert(is_link(renames, chain, k - 1));
        let r = choose|r: int| 0 <= r < renames.len() && renames[r] == (chain[k - 1], chain[k]);
        assert(sources(renames)[i] == sources(renames)[r]);
        if before + 1 < walk.len() - 1 {
            before + 1
        } else {
            0
        }
    }
}

/// A node on a cycle of the graph starts an edge that ends at a node of the
/// mapping which starts an edge itself. From the path of that node a chain of
/// requested renames leads back to the path of the first, and to the
/// destination of no deferred step.
pub(crate) proof fn lemma_cycle_in_graph(renames: Renames, ledger: Ledger, n: int, e: int)
    requires
        is_rename_mapping(renames),
        ledger.balanced(renames),
        on_cycle(ledger.edges, n),
        0 <= e < renames.len(),
        ledger.edges[e].0 == n,
    ensures
        ledger.edges[e].1 < ledger.originals(),
        sources(renames).contains(ledger.nodes[ledger.edges[e].1]),
        leads(renames, ledger.nodes[ledger.edges[e].1], ledger.nodes[n]),
        forall|t: int|
            0 <= t < ledger.deferred.len() ==> !leads(
                renames,
                ledger.nodes[ledger.edges[e].1],
                (#[trigger] ledger.deferred[t]).1,
            ),
{
    let walk = choose|walk: Seq<int>|
        walk.len() >= 2 && walk[0] == n && walk.last() == n && #[trigger] is_walk(
            ledger.edges,
            walk,
        );
    let first = lemma_hop_is_request(renames, ledger, walk, 0);
    lemma_one_edge_per_source(renames, ledger, e, ledger.edge_of[first]);
    assert(walk.len() >= 3);
    let second = lemma_hop_is_request(renames, ledger, walk, 1);
    assert(sources(renames)[second] == ledger.nodes[walk[1]]);
    let chain = Seq::new((walk.len() - 1) as nat, |k: int| ledger.nodes[walk[k + 1]]);
    assert forall|k: int| 0 <= k < chain.len() - 1 implies #[trigger] is_link(
        renames,
        chain,
        k,
    ) by {
        let i = lemma_hop_is_request(renames, ledger, walk, k + 1);
    }
    assert(is_chain(renames, chain) && chain[0] == ledger.nodes[walk[1]] && chain.last()
        == ledger.nodes[n]);
    assert forall|t: int| 0 <= t < ledger.deferred.len() implies !leads(
        renames,
        ledger.nodes[ledger.edges[e].1],
        (#[trigger] ledger.deferred[t]).1,
    ) by {
        let wanted = ledger.deferred[t].1;
        if leads(renames, ledger.nodes[walk[1]], wanted) {
            let way = choose|way: Seq<Path>|
                #[trigger] is_chain(renames, way) && way[0] == ledger.nodes[walk[1]] && way.last()
                    == wanted;
            let x = lemma_chain_stays_on_walk(renames, ledger, walk, way, 1, way.len() - 1);
            let before = if x > 0 {
                x - 1
            } else {
                walk.len() - 2
            };
            let i = lemma_hop_is_request(renames, ledger, walk, before);
            assert(ledger.nodes[walk[before + 1]] == ledger.nodes[walk[x]]);
            assert(ledger.detours(renames, t));
            assert(destinations(renames)[i] == destinations(renames)[ledger.broken[t]]);
        }
    }
}

/// An edge that ends at a node of the mapping stands for a request that no
/// deferred step completes yet.
pub(crate) proof fn lemma_request_left(renames: Renames, ledger: Ledger, e: int)
    requires
        ledger.balanced(renames),
        0 <= e < renames.len(),
        ledger.edges[e].1 < ledger.originals(),
    ensures
        ledger.deferred.len() < renames.len(),
{
    let m = renames.len() as int;
    let request = ledger.pair_of[e];
    let more = ledger.broken.push(request);
    assert forall|t: int, u: int|
        0 <= t < more.len() && 0 <= u < more.len() && t != u implies more[t] != more[u] by {
        if t < ledger.broken.len() {
            assert(ledger.detours(renames, t));
        }
        if u < ledger.broken.len() {
            assert(ledger.detours(renames, u));
        }
    }
    assert forall|t: int| 0 <= t < more.len() implies 0 <= #[trigger] more[t] < m by {
        if t < ledger.broken.len() {
            assert(ledger.detours(renames, t));
        }
    }
    lemma_distinct_below_bound(more, m);
}

/// Breaking an edge that ends at a node of the mapping keeps the books in
/// order, and there was a request left to defer.
pub(crate) proof fn lemma_break_keeps_balance(
    renames: Renames,
    ledger: Ledger,
    e: int,
    placeholder: Path,
    counter: nat,
)
    requires
        is_rename_mapping(renames),
        ledger.balanced(renames),
        0 <= e < renames.len(),
        ledger.edges[e].1 < ledger.originals(),
        sources(renames).contains(ledger.nodes[ledger.edges[e].1]),
        leads(renames, ledger.nodes[ledger.edges[e].1], ledger.nodes[ledger.edges[e].0]),
        forall|t: int|
            0 <= t < ledger.deferred.len() ==> !leads(
                renames,
                ledger.nodes[ledger.edges[e].1],
                (#[trigger] ledger.deferred[t]).1,
            ),
        !ledger.nodes.contains(placeholder),
        placeholder == placeholder_name(ledger.nodes[ledger.edges[e].0], counter),
        first_number(ledger.start, ledger.counters, ledger.counters.len() as int) <= counter,
    ensures
        ledger.after_break(e, placeholder, counter).balanced(renames),
        ledger.deferred.len() < renames.len(),
{
    let m = renames.len() as int;
    let last = m - 1;
    let after = ledger.after_break(e, placeholder, counter);
    let request = ledger.pair_of[e];
    let moved = ledger.pair_of[last];
    let base = ledger.originals();
    assert(ledger.accounts(renames, e));
    assert(ledger.accounts(renames, last));
    assert(after.originals() == base);
    assert forall|t: int| 0 <= t < ledger.deferred.len() implies #[trigger] ledger.broken[t]
        != request && 0 <= ledger.broken[t] < m by {
        assert(ledger.detours(renames, t));
    }
    lemma_request_left(renames, ledger, e);
    assert forall|f: int| 0 <= f < m implies 0 <= #[trigger] after.pair_of[f] < m
        && after.edge_of[after.pair_of[f]] == f by {
        assert(0 <= ledger.pair_of[f] < m && ledger.edge_of[ledger.pair_of[f]] == f);
    }
    assert forall|i: int| 0 <= i < m implies 0 <= #[trigger] after.edge_of[i] < m
        && after.pair_of[after.edge_of[i]] == i by {
        assert(0 <= ledger.edge_of[i] < m && ledger.pair_of[ledger.edge_of[i]] == i);
    }
    assert forall|f: int| 0 <= f < m implies #[trigger] after.accounts(renames, f) by {
        if f == last {
        } else if f == e {
            assert(after.edges[f] == ledger.edges[last]);
        } else {
            assert(ledger.accounts(renames, f));
            assert(after.edges[f] == ledger.edges[f]);
        }
    }
    assert forall|b: int| 0 <= b < after.originals() implies #[trigger] after.is_requested_node(
        renames,
        b,
    ) by {
        assert(ledger.is_requested_node(renames, b));
    }
    assert forall|t: int| 0 <= t < after.counters.len() implies first_number(after.start, after.counters, t)
        <= #[trigger] after.counters[t] by {
        if t < ledger.counters.len() {
            assert(first_number(ledger.start, ledger.counters, t) <= ledger.counters[t]);
        }
    }
    assert forall|i: int| 0 <= i < m implies #[trigger] after.has_destination(renames, i) by {
        assert(ledger.has_destination(renames, i));
        let b = choose|b: int| 0 <= b < base && #[trigger] ledger.nodes[b] == renames[i].1;
        assert(after.nodes[b] == renames[i].1);
    }
    assert(is_fresh(renames, placeholder)) by {
        if !is_fresh(renames, placeholder) {
            lemma_paths_are_nodes(renames, ledger, placeholder);
        }
    }
    assert forall|t: int| 0 <= t < after.deferred.len() implies #[trigger] after.detours(
        renames,
        t,
    ) by {
        if t < ledger.deferred.len() {
            assert(ledger.detours(renames, t));
            let i = ledger.broken[t];
            assert(0 <= ledger.edge_of[i] < m && ledger.pair_of[ledger.edge_of[i]] == i);
            if i == moved {
                assert(ledger.edge_of[i] == last);
                assert(after.edges[after.edge_of[i]] == ledger.edges[last]);
            } else {
                assert(ledger.edge_of[i] != e && ledger.edge_of[i] != last);
                assert(after.edges[after.edge_of[i]] == ledger.edges[ledger.edge_of[i]]);
            }
        } else {
            assert(after.edge_of[request] == last);
        }
    }
    assert forall|t: int, u: int| 0 <= t < u < after.deferred.len() implies #[trigger] after.apart(
        renames,
        t,
        u,
    ) by {
        if u < ledger.deferred.len() {
            assert(ledger.apart(renames, t, u));
        }
    }
    assert(after.nodes.no_duplicates());
}

/// The search that ends with a break is on the books: the numbers that it
/// passed over gave names of nodes or names reported as used.
pub(crate) proof fn lemma_break_keeps_search<F: Fn(&String) -> bool>(
    is_taken: F,
    renames: Renames,
    ledger: Ledger,
    e: int,
    placeholder: Path,
    counter: nat,
)
    requires
        ledger.balanced(renames),
        ledger.searched(is_taken, renames),
        0 <= e < renames.len(),
        forall|c: nat|
            first_number(ledger.start, ledger.counters, ledger.counters.len() as int) <= c < counter
                ==> ledger.nodes.contains(
                #[trigger] placeholder_name(ledger.nodes[ledger.edges[e].0], c),
            ) || reported_used(is_taken, placeholder_name(ledger.nodes[ledger.edges[e].0], c)),
    ensures
        ledger.after_break(e, placeholder, counter).searched(is_taken, renames),
{
    let after = ledger.after_break(e, placeholder, counter);
    let last = ledger.deferred.len() as int;
    assert(ledger.accounts(renames, e));
    assert(after.deferred.take(last) =~= ledger.deferred);
    assert forall|t: int, c: nat|
        0 <= t < after.deferred.len() && first_number(after.start, after.counters, t) <= c
            < after.counters[t] implies #[trigger] after.passed_over(is_taken, renames, t, c) by {
        if t < last {
            assert(first_number(after.start, after.counters, t) == first_number(
                ledger.start,
                ledger.counters,
                t,
            ));
            assert(ledger.passed_over(is_taken, renames, t, c));
            assert(ledger.detours(renames, t));
            lemma_earlier_name_stays(
                ledger,
                after,
                t,
                placeholder_name(renames[ledger.broken[t]].0, c),
            );
        } else {
            let name = placeholder_name(ledger.nodes[ledger.edges[e].0], c);
            assert(first_number(after.start, after.counters, t) == first_number(
                ledger.start,
                ledger.counters,
                last,
            ));
            if ledger.nodes.contains(name) {
                lemma_node_is_known(renames, ledger, name);
                lemma_earlier_name_stays(ledger, after, last, name);
            }
        }
    }
}

/// A temporary name of an earlier deferred step stays one when the deferred
/// steps are extended.
proof fn lemma_earlier_name_stays(ledger: Ledger, after: Ledger, t: int, name: Path)
    requires
        0 <= t <= ledger.deferred.len(),
        after.deferred.len() >= ledger.deferred.len(),
        after.deferred.take(ledger.deferred.len() as int) == ledger.deferred,
    ensures
        (exists|u: int| 0 <= u < t && (#[trigger] ledger.deferred[u]).0 == name) ==> (exists|u: int|
            0 <= u < t && (#[trigger] after.deferred[u]).0 == name),
{
    if exists|u: int| 0 <= u < t && (#[trigger] ledger.deferred[u]).0 == name {
        let u = choose|u: int| 0 <= u < t && (#[trigger] ledger.deferred[u]).0 == name;
        assert(after.deferred.take(ledger.deferred.len() as int)[u] == after.deferred[u]);
        assert(after.deferred[u].0 == name);
    }
}

/// The path of a node plays a part in the mapping or is the temporary name
/// of a deferred step.
proof fn lemma_node_is_known(renames: Renames, ledger: Ledger, name: Path)
    requires
        ledger.balanced(renames),
        ledger.nodes.contains(name),
    ensures
        !is_fresh(renames, name) || (exists|u: int|
            0 <= u < ledger.deferred.len() && (#[trigger] ledger.deferred[u]).0 == name),
{
    let base = ledger.originals();
    let b = choose|b: int| 0 <= b < ledger.nodes.len() && ledger.nodes[b] == name;
    if b < base {
        assert(ledger.is_requested_node(renames, b));
    } else {
        assert(ledger.detours(renames, b - base));
        assert(ledger.deferred[b - base].0 == name);
    }
}

/// A request whose destination leads back to its source closes a cycle.
pub(crate) proof fn lemma_closed_chain(renames: Renames, from: Path, to: Path)
    requires
        leads(renames, from, to),
        renames.contains((to, from)),
    ensures
        has_cycle(renames),
{
    let chain = choose|chain: Seq<Path>|
        #[trigger] is_chain(renames, chain) && chain[0] == from && chain.last() == to;
    let round = chain.push(from);
    assert forall|i: int| 0 <= i < round.len() - 1 implies #[trigger] is_link(renames, round, i) by {
        if i < chain.len() - 1 {
            assert(is_link(renames, chain, i));
        }
    }
    assert(is_chain(renames, round) && round[0] == from && round.last() == from);
    assert(leads(renames, from, from));
}

/// The steps of the graph in the order of `order`, and which edge each step
/// stems from.
pub(crate) struct Steps {
    /// The steps, as pairs of paths.
    pub(crate) steps: Renames,
    /// For each step, the edge that it stems from.
    pub(crate) edge_of_step: Seq<int>,
    /// For each step, the place in the order of the node that it leaves.
    pub(crate) place_of_step: Seq<int>,
    /// For each edge, the step that stems from it, or `-1` where none does yet.
    pub(crate) step_of_edge: Seq<int>,
}

impl Steps {
    /// Step `x` stems from its edge: it leads from the path of the source of
    /// the edge to the path of its target, and the source is one of the first
    /// `p` nodes of the order.
    pub(crate) open spec fn stems(self, ledger: Ledger, order: Seq<usize>, p: int, x: int) -> bool {
        let e = self.edge_of_step[x];
        &&& 0 <= e < ledger.edges.len()
        &&& self.step_of_edge[e] == x
        &&& 0 <= self.place_of_step[x] < p
        &&& order[self.place_of_step[x]] == ledger.edges[e].0
        &&& self.steps[x] == (ledger.nodes[ledger.edges[e].0], ledger.nodes[ledger.edges[e].1])
    }

    /// The step of edge `e`, where it has one, stems from `e`.
    pub(crate) open spec fn points_back(self, e: int) -> bool {
        &&& -1 <= self.step_of_edge[e] < self.steps.len()
        &&& self.step_of_edge[e] >= 0 ==> self.edge_of_step[self.step_of_edge[e]] == e
    }

    /// Edge `e` has given its step if it starts at the node at place `q`.
    pub(crate) open spec fn reached(self, ledger: Ledger, order: Seq<usize>, e: int, q: int) -> bool {
        order[q] == ledger.edges[e].0 ==> self.step_of_edge[e] >= 0
    }

    /// The steps are those of the edges that start at one of the first `p`
    /// nodes of the order, in that order.
    pub(crate) open spec fn drawn_upto(self, ledger: Ledger, order: Seq<usize>, p: int) -> bool {
        &&& self.edge_of_step.len() == self.steps.len()
        &&& self.place_of_step.len() == self.steps.len()
        &&& self.step_of_edge.len() == ledger.edges.len()
        &&& forall|x: int| 0 <= x < self.steps.len() ==> #[trigger] self.stems(ledger, order, p, x)
        &&& forall|x: int, y: int|
            0 <= x < y < self.steps.len() ==> #[trigger] self.place_of_step[x]
                < #[trigger] self.place_of_step[y]
        &&& forall|e: int| 0 <= e < ledger.edges.len() ==> #[trigger] self.points_back(e)
        &&& forall|e: int, q: int|
            0 <= e < ledger.edges.len() && 0 <= q < p ==> #[trigger] self.reached(
                ledger,
                order,
                e,
                q,
            )
    }

    /// The steps with the step of edge `e`, which starts at the node at
    /// place `p`, added.
    pub(crate) open spec fn with_step(self, ledger: Ledger, e: int, p: int) -> Steps {
        Steps {
            steps: self.steps.push(
                (ledger.nodes[ledger.edges[e].0], ledger.nodes[ledger.edges[e].1]),
            ),
            edge_of_step: self.edge_of_step.push(e),
            place_of_step: self.place_of_step.push(p),
            step_of_edge: self.step_of_edge.update(e, self.steps.len() as int),
        }
    }

    /// Each edge has given one step, from the path of its source to the path
    /// of its target, and no step moves a file to a path that an earlier step
    /// vacates.
    pub(crate) open spec fn drawn_from(self, ledger: Ledger) -> bool {
        let m = ledger.edges.len() as int;
        &&& self.steps.len() == m
        &&& self.edge_of_step.len() == m
        &&& self.step_of_edge.len() == m
        &&& forall|x: int|
            0 <= x < m ==> {
                &&& 0 <= #[trigger] self.edge_of_step[x] < m
                &&& self.step_of_edge[self.edge_of_step[x]] == x
                &&& self.steps[x] == (
                    ledger.nodes[ledger.edges[self.edge_of_step[x]].0],
                    ledger.nodes[ledger.edges[self.edge_of_step[x]].1],
                )
            }
        &&& forall|e: int|
            0 <= e < m ==> 0 <= #[trigger] self.step_of_edge[e] < m
                && self.edge_of_step[self.step_of_edge[e]] == e
        &&& forall|x: int, y: int|
            0 <= x < y < m ==> ledger.edges[#[trigger] self.edge_of_step[y]].1
                != ledger.edges[#[trigger] self.edge_of_step[x]].0
    }
}

/// The node at place `p` starts the edge `e`: the step of `e` is drawn.
pub(crate) proof fn lemma_step_drawn(
    renames: Renames,
    ledger: Ledger,
    order: Seq<usize>,
    drawn: Steps,
    p: int,
    e: int,
)
    requires
        is_rename_mapping(renames),
        ledger.balanced(renames),
        is_topological_order(ledger.nodes.len(), ledger.edges, order),
        drawn.drawn_upto(ledger, order, p),
        0 <= p < order.len(),
        0 <= e < ledger.edges.len(),
        ledger.edges[e].0 == order[p],
    ensures
        drawn.with_step(ledger, e, p).drawn_upto(ledger, order, p + 1),
{
    let next = drawn.with_step(ledger, e, p);
    let last = drawn.steps.len() as int;
    assert(drawn.points_back(e));
    if drawn.step_of_edge[e] >= 0 {
        let x = drawn.step_of_edge[e];
        assert(drawn.stems(ledger, order, p, x));
        assert(order[drawn.place_of_step[x]] == order[p]);
    }
    assert forall|x: int| 0 <= x < next.steps.len() implies #[trigger] next.stems(
        ledger,
        order,
        p + 1,
        x,
    ) by {
        if x < last {
            assert(drawn.stems(ledger, order, p, x));
        }
    }
    assert forall|x: int, y: int| 0 <= x < y < next.steps.len() implies #[trigger] next.place_of_step[x]
        < #[trigger] next.place_of_step[y] by {
        assert(drawn.stems(ledger, order, p, x));
    }
    assert forall|f: int| 0 <= f < ledger.edges.len() implies #[trigger] next.points_back(f) by {
        assert(drawn.points_back(f));
        if f != e && drawn.step_of_edge[f] >= 0 {
            assert(drawn.stems(ledger, order, p, drawn.step_of_edge[f]));
        }
    }
    assert forall|f: int, q: int|
        0 <= f < ledger.edges.len() && 0 <= q < p + 1 implies #[trigger] next.reached(
        ledger,
        order,
        f,
        q,
    ) by {
        if q < p {
            assert(drawn.reached(ledger, order, f, q));
        } else if order[q] == ledger.edges[f].0 {
            lemma_one_edge_per_source(renames, ledger, f, e);
        }
    }
}

/// The node at place `p` starts no edge: nothing is drawn.
pub(crate) proof fn lemma_step_passed(ledger: Ledger, order: Seq<usize>, drawn: Steps, p: int)
    requires
        drawn.drawn_upto(ledger, order, p),
        0 <= p < order.len(),
        forall|e: int| 0 <= e < ledger.edges.len() ==> (#[trigger] ledger.edges[e]).0 != order[p],
    ensures
        drawn.drawn_upto(ledger, order, p + 1),
{
    assert forall|x: int| 0 <= x < drawn.steps.len() implies #[trigger] drawn.stems(
        ledger,
        order,
        p + 1,
        x,
    ) by {
        assert(drawn.stems(ledger, order, p, x));
    }
    assert forall|f: int, q: int|
        0 <= f < ledger.edges.len() && 0 <= q < p + 1 implies #[trigger] drawn.reached(
        ledger,
        order,
        f,
        q,
    ) by {
        if q < p {
            assert(drawn.reached(ledger, order, f, q));
        }
    }
}

/// When every node of the order has been visited, each edge has given one
/// step, and no step moves a file to a path that an earlier step vacates.
pub(crate) proof fn lemma_all_drawn(
    renames: Renames,
    ledger: Ledger,
    order: Seq<usize>,
    drawn: Steps,
)
    requires
        is_rename_mapping(renames),
        ledger.balanced(renames),
        is_topological_order(ledger.nodes.len(), ledger.edges, order),
        drawn.drawn_upto(ledger, order, order.len() as int),
    ensures
        drawn.drawn_from(ledger),
{
    let m = ledger.edges.len() as int;
    let n = order.len() as int;
    assert forall|x: int| 0 <= x < drawn.steps.len() implies 0 <= #[trigger] drawn.edge_of_step[x]
        < m by {
        assert(drawn.stems(ledger, order, n, x));
    }
    assert forall|x: int, y: int|
        0 <= x < drawn.steps.len() && 0 <= y < drawn.steps.len() && x != y implies drawn.edge_of_step[x]
        != drawn.edge_of_step[y] by {
        assert(drawn.stems(ledger, order, n, x));
        assert(drawn.stems(ledger, order, n, y));
    }
    lemma_distinct_below_bound(drawn.edge_of_step, m);
    assert forall|e: int| 0 <= e < m implies 0 <= #[trigger] drawn.step_of_edge[e]
        < drawn.steps.len() by {
        assert(ledger.accounts(renames, e));
        assert(drawn.points_back(e));
        let a = ledger.edges[e].0;
        assert(lists_node(order, a));
        let q = choose|q: int| 0 <= q < order.len() && #[trigger] order[q] == a;
        assert(drawn.reached(ledger, order, e, q));
    }
    assert forall|e: int, f: int| 0 <= e < m && 0 <= f < m && e != f implies drawn.step_of_edge[e]
        != drawn.step_of_edge[f] by {
        assert(drawn.points_back(e));
        assert(drawn.points_back(f));
    }
    lemma_distinct_below_bound(drawn.step_of_edge, drawn.steps.len() as int);
    assert forall|x: int| 0 <= x < m implies {
        &&& 0 <= #[trigger] drawn.edge_of_step[x] < m
        &&& drawn.step_of_edge[drawn.edge_of_step[x]] == x
        &&& drawn.steps[x] == (
            ledger.nodes[ledger.edges[drawn.edge_of_step[x]].0],
            ledger.nodes[ledger.edges[drawn.edge_of_step[x]].1],
        )
    } by {
        assert(drawn.stems(ledger, order, n, x));
    }
    assert forall|e: int| 0 <= e < m implies 0 <= #[trigger] drawn.step_of_edge[e] < m
        && drawn.edge_of_step[drawn.step_of_edge[e]] == e by {
        assert(drawn.points_back(e));
    }
    assert forall|x: int, y: int| 0 <= x < y < m implies ledger.edges[#[trigger] drawn.edge_of_step[y]].1
        != ledger.edges[#[trigger] drawn.edge_of_step[x]].0 by {
        assert(drawn.stems(ledger, order, n, x));
        assert(drawn.stems(ledger, order, n, y));
        let from = drawn.place_of_step[y];
        let to = drawn.place_of_step[x];
        assert(to < from);
        let later = ledger.edges[drawn.edge_of_step[y]];
        if later.1 == ledger.edges[drawn.edge_of_step[x]].0 {
            assert(later == (order[from] as int, order[to] as int));
            assert(ledger.edges.contains((order[from] as int, order[to] as int)));
        }
    }
}

/// The steps drawn from the graph, taken from the last to the first and
/// followed by the deferred steps, are a plan for the mapping.
pub(crate) proof fn lemma_plan_assembled<F: Fn(&String) -> bool>(
    is_taken: F,
    renames: Renames,
    ledger: Ledger,
    drawn: Steps,
    plan: Renames,
)
    requires
        is_rename_mapping(renames),
        ledger.balanced(renames),
        ledger.searched(is_taken, renames),
        drawn.drawn_from(ledger),
        plan == drawn.steps.reverse() + ledger.deferred,
    ensures
        is_plan_for(renames, plan),
        placeholders_numbered(is_taken, renames, plan, ledger.start),
{
    let m = renames.len() as int;
    let main = main_steps(renames, plan);
    let deferred = deferred_steps(renames, plan);
    let base = ledger.originals();
    assert(main =~= drawn.steps.reverse());
    assert(deferred =~= ledger.deferred);
    // The main step at `j` stems from this edge and stands for this request.
    let edge_at = |j: int| drawn.edge_of_step[m - 1 - j];
    let request_at = |j: int| ledger.pair_of[edge_at(j)];
    assert forall|j: int| 0 <= j < m implies {
        &&& 0 <= edge_at(j) < m
        &&& 0 <= request_at(j) < m
        &&& ledger.accounts(renames, edge_at(j))
        &&& #[trigger] main[j] == (
            ledger.nodes[ledger.edges[edge_at(j)].0],
            ledger.nodes[ledger.edges[edge_at(j)].1],
        )
        &&& serves(main[j], renames[request_at(j)], deferred)
    } by {
        let x = m - 1 - j;
        let e = drawn.edge_of_step[x];
        assert(main[j] == drawn.steps[x]);
        assert(ledger.accounts(renames, e));
        let i = ledger.pair_of[e];
        let b = ledger.edges[e].1;
        if b >= base {
            assert(ledger.detours(renames, b - base));
            assert(deferred[b - base] == (main[j].1, renames[i].1));
        }
    }
    assert forall|j: int, k: int| 0 <= j < m && 0 <= k < m && j != k implies sources(main)[j]
        != sources(main)[k] by {
        assert(main[j].0 == ledger.nodes[ledger.edges[edge_at(j)].0]);
        assert(main[k].0 == ledger.nodes[ledger.edges[edge_at(k)].0]);
        if sources(main)[j] == sources(main)[k] {
            lemma_one_edge_per_source(renames, ledger, edge_at(j), edge_at(k));
            assert(drawn.step_of_edge[drawn.edge_of_step[m - 1 - j]] == m - 1 - j);
            assert(drawn.step_of_edge[drawn.edge_of_step[m - 1 - k]] == m - 1 - k);
        }
    }
    assert forall|t: int, u: int|
        0 <= t < deferred.len() && 0 <= u < deferred.len() && t != u implies sources(deferred)[t]
        != sources(deferred)[u] by {
        assert(ledger.detours(renames, t));
        assert(ledger.detours(renames, u));
    }
    assert forall|i: int| 0 <= i < m implies is_served(#[trigger] renames[i], main, deferred) by {
        let e = ledger.edge_of[i];
        assert(ledger.pair_of[e] == i);
        let x = drawn.step_of_edge[e];
        let j = m - 1 - x;
        assert(edge_at(j) == e);
        assert(serves(main[j], renames[request_at(j)], deferred));
    }
    assert forall|j: int| 0 <= j < main.len() implies is_requested(
        #[trigger] main[j],
        renames,
        deferred,
    ) by {
        assert(serves(main[j], renames[request_at(j)], deferred));
    }
    // The main step that moves a file to the temporary name of the deferred step `t`.
    let detour_at = |t: int| m - 1 - drawn.step_of_edge[ledger.edge_of[ledger.broken[t]]];
    assert forall|t: int| 0 <= t < deferred.len() implies {
        &&& 0 <= #[trigger] detour_at(t) < m
        &&& main[detour_at(t)].1 == deferred[t].0
        &&& renames[ledger.broken[t]] == (main[detour_at(t)].0, deferred[t].1)
        &&& deferred[t].0 == placeholder_name(main[detour_at(t)].0, ledger.counters[t])
    } by {
        assert(ledger.detours(renames, t));
        let i = ledger.broken[t];
        let e = ledger.edge_of[i];
        assert(ledger.pair_of[e] == i);
        let j = detour_at(t);
        assert(edge_at(j) == e);
        assert(main[j] == (ledger.nodes[ledger.edges[e].0], ledger.nodes[ledger.edges[e].1]));
        assert(ledger.accounts(renames, e));
    }
    assert forall|t: int| 0 <= t < deferred.len() implies is_deferred_step(
        #[trigger] deferred[t],
        renames,
        main,
    ) by {
        assert(ledger.detours(renames, t));
        assert(0 <= detour_at(t) < m);
        assert(renames.contains((main[detour_at(t)].0, deferred[t].1)));
    }
    assert forall|t: int, u: int| 0 <= t < u < deferred.len() implies !#[trigger] leads(
        renames,
        deferred[u].1,
        deferred[t].1,
    ) by {
        assert(ledger.apart(renames, t, u));
    }
    assert forall|t: int| 0 <= t < ledger.counters.len() implies #[trigger] is_numbered(
        is_taken,
        renames,
        plan,
        ledger.start,
        ledger.counters,
        t,
    ) by {
        let j = detour_at(t);
        assert(0 <= j < m);
        assert(plan[j] == main[j]);
        assert(plan[m + t] == deferred[t]);
        let from = first_number(ledger.start, ledger.counters, t);
        assert forall|c: nat| from <= c < ledger.counters[t] implies #[trigger] is_unusable(
            is_taken,
            renames,
            plan,
            t,
            placeholder_name(plan[j].0, c),
        ) by {
            assert(ledger.passed_over(is_taken, renames, t, c));
            let name = placeholder_name(plan[j].0, c);
            if exists|u: int| 0 <= u < t && (#[trigger] ledger.deferred[u]).0 == name {
                let u = choose|u: int| 0 <= u < t && (#[trigger] ledger.deferred[u]).0 == name;
                assert(plan[m + u] == deferred[u]);
            }
        }
    }
    assert forall|j: int, k: int| 0 <= j < k < main.len() implies (#[trigger] main[j]).1 != (
    #[trigger] main[k]).0 by {
        let y = m - 1 - j;
        let x = m - 1 - k;
        assert(ledger.edges[drawn.edge_of_step[y]].1 != ledger.edges[drawn.edge_of_step[x]].0);
        assert(main[j].1 == ledger.nodes[ledger.edges[edge_at(j)].1]);
        assert(main[k].0 == ledger.nodes[ledger.edges[edge_at(k)].0]);
        assert(ledger.accounts(renames, edge_at(j)));
        assert(ledger.accounts(renames, edge_at(k)));
    }
    assert(numbered_by(is_taken, renames, plan, ledger.start, ledger.counters));
}

} // verus!
