//! Compiles a rename mapping into a plan: builds the rename graph, breaks
//! its cycles through temporary names, and orders the steps.

use crate::digraph::graph_add_edge;
use crate::digraph::graph_add_node;
use crate::digraph::graph_edges;
use crate::digraph::graph_new;
use crate::digraph::graph_node_count;
use crate::digraph::graph_out_edges;
use crate::digraph::graph_remove_edge;
use crate::digraph::graph_toposort;
use crate::digraph::graph_update_edge;
use crate::digraph::is_hop;
use crate::digraph::is_topological_order;
use crate::digraph::is_walk;
use crate::digraph::on_cycle;
use crate::digraph::swap_removed;
use crate::digraph::RenameGraph;
use crate::error::RenameError;
use crate::ledger::lemma_all_drawn;
use crate::ledger::lemma_break_keeps_balance;
use crate::ledger::lemma_break_keeps_search;
use crate::ledger::lemma_closed_chain;
use crate::ledger::lemma_cycle_in_graph;
use crate::ledger::lemma_plan_assembled;
use crate::ledger::lemma_request_left;
use crate::ledger::lemma_step_drawn;
use crate::ledger::lemma_step_passed;
use crate::ledger::Ledger;
use crate::ledger::Steps;
use crate::listing::find_path;
use crate::mapping::destinations;
use crate::mapping::is_rename_mapping;
use crate::mapping::sources;
use crate::mapping::Renames;
use crate::placeholder::free_placeholder;
use crate::placeholder::never_taken;
use crate::placeholder::reported_unused;
use crate::plan::first_number;
use crate::plan::has_cycle;
use crate::plan::is_fresh;
use crate::plan::is_plan_for;
use crate::plan::lemma_detour_needs_cycle;
use crate::plan::placeholders_numbered;
use crate::text::Path;
use vstd::prelude::*;

verus! {

/// The largest number of renames that one plan can hold: each takes up to
/// three nodes of the graph, whose indices are 32 bits wide.
pub const MAX_RENAMES: usize = 1_431_655_764;

/// The node of `path`, added to the graph where it is new.
fn node_for(graph: &mut RenameGraph, nodes: &mut Vec<String>, path: &String) -> (index: usize)
    requires
        graph_node_count(*old(graph)) == old(nodes).len(),
        old(nodes).len() < u32::MAX,
        old(nodes).deep_view().no_duplicates(),
    ensures
        graph_node_count(*final(graph)) == final(nodes).len(),
        graph_edges(*final(graph)) == graph_edges(*old(graph)),
        final(nodes).deep_view().no_duplicates(),
        index < final(nodes).len(),
        final(nodes).deep_view()[index as int] == path@,
        old(nodes).deep_view().contains(path@) ==> final(nodes).deep_view() == old(
            nodes,
        ).deep_view(),
        !old(nodes).deep_view().contains(path@) ==> final(nodes).deep_view() == old(
            nodes,
        ).deep_view().push(path@),
{
    match find_path(nodes, path) {
        Some(index) => {
            assert(nodes.deep_view()[index as int] == nodes[index as int]@);
            index
        },
        None => {
            let ghost before = nodes.deep_view();
            let index = graph_add_node(graph);
            nodes.push(path.clone());
            proof {
                assert(nodes.deep_view() =~= before.push(path@));
            }
            index
        },
    }
}

/// The graph of the mapping: one node per path, and for each request, at the
/// index of the request, the edge from its source to its destination.
fn build_graph(renames: &Vec<(String, String)>, Ghost(start): Ghost<nat>) -> (built: (
    RenameGraph,
    Vec<String>,
))
    requires
        is_rename_mapping(renames.deep_view()),
        renames.len() <= MAX_RENAMES,
    ensures
        graph_node_count(built.0) == built.1.len(),
        built.1.len() <= 2 * renames.len(),
        ({
            let ledger = Ledger {
                nodes: built.1.deep_view(),
                deferred: Seq::empty(),
                edges: graph_edges(built.0),
                pair_of: Seq::new(renames.len() as nat, |i: int| i),
                edge_of: Seq::new(renames.len() as nat, |i: int| i),
                broken: Seq::empty(),
                counters: Seq::empty(),
                start,
            };
            ledger.balanced(renames.deep_view())
        }),
{
    let mut graph = graph_new();
    let mut nodes: Vec<String> = Vec::new();
    let ghost pairs = renames.deep_view();
    let mut i: usize = 0;
    while i < renames.len()
        invariant
            0 <= i <= renames.len(),
            renames.len() <= MAX_RENAMES,
            pairs == renames.deep_view(),
            graph_node_count(graph) == nodes.len(),
            nodes.len() <= 2 * i,
            nodes.deep_view().no_duplicates(),
            forall|b: int| 0 <= b < nodes.len() ==> !is_fresh(pairs, #[trigger] nodes.deep_view()[b]),
            graph_edges(graph).len() == i,
            forall|e: int|
                0 <= e < i ==> {
                    &&& 0 <= (#[trigger] graph_edges(graph)[e]).0 < nodes.len()
                    &&& 0 <= graph_edges(graph)[e].1 < nodes.len()
                    &&& nodes.deep_view()[graph_edges(graph)[e].0] == pairs[e].0
                    &&& nodes.deep_view()[graph_edges(graph)[e].1] == pairs[e].1
                },
        decreases renames.len() - i,
    {
        let ghost edges = graph_edges(graph);
        let ghost before = nodes.deep_view();
        proof {
            assert(pairs[i as int] == (renames[i as int].0@, renames[i as int].1@));
        }
        let a = node_for(&mut graph, &mut nodes, &renames[i].0);
        let ghost between = nodes.deep_view();
        let b = node_for(&mut graph, &mut nodes, &renames[i].1);
        graph_add_edge(&mut graph, a, b);
        proof {
            let after = nodes.deep_view();
            assert(between.len() <= before.len() + 1);
            assert(after.len() <= between.len() + 1);
            assert(forall|k: int| 0 <= k < before.len() ==> between[k] == before[k]);
            assert(forall|k: int| 0 <= k < between.len() ==> after[k] == between[k]);
            assert(sources(pairs)[i as int] == pairs[i as int].0);
            assert(destinations(pairs)[i as int] == pairs[i as int].1);
            assert forall|b: int| 0 <= b < after.len() implies !is_fresh(
                pairs,
                #[trigger] after[b],
            ) by {
                if b < before.len() {
                    assert(after[b] == before[b]);
                } else if b < between.len() {
                    assert(after[b] == between[b]);
                }
            }
            assert forall|e: int| 0 <= e < i + 1 implies {
                &&& 0 <= (#[trigger] graph_edges(graph)[e]).0 < nodes.len()
                &&& 0 <= graph_edges(graph)[e].1 < nodes.len()
                &&& nodes.deep_view()[graph_edges(graph)[e].0] == pairs[e].0
                &&& nodes.deep_view()[graph_edges(graph)[e].1] == pairs[e].1
            } by {
                if e < i {
                    assert(graph_edges(graph)[e] == edges[e]);
                }
            }
        }
        i += 1;
    }
    proof {
        let ledger = Ledger {
            nodes: nodes.deep_view(),
            deferred: Seq::empty(),
            edges: graph_edges(graph),
            pair_of: Seq::new(renames.len() as nat, |i: int| i),
            edge_of: Seq::new(renames.len() as nat, |i: int| i),
            broken: Seq::empty(),
            counters: Seq::empty(),
            start,
        };
        assert forall|e: int| 0 <= e < pairs.len() implies #[trigger] ledger.accounts(pairs, e) by {
            assert(0 <= (#[trigger] graph_edges(graph)[e]).0 < nodes.len());
        }
        assert forall|b: int| 0 <= b < ledger.originals() implies #[trigger] ledger.is_requested_node(
            pairs,
            b,
        ) by {
            assert(!is_fresh(pairs, nodes.deep_view()[b]));
        }
        assert forall|k: int| 0 <= k < pairs.len() implies #[trigger] ledger.has_destination(
            pairs,
            k,
        ) by {
            let b = graph_edges(graph)[k].1;
            assert(ledger.nodes[b] == pairs[k].1);
        }
        assert(ledger.balanced(pairs));
    }
    (graph, nodes)
}

/// The planner's state once the graph has no cycle left.
struct Untangled {
    graph: RenameGraph,
    nodes: Vec<String>,
    deferred: Vec<(String, String)>,
    order: Vec<usize>,
    ledger: Ghost<Ledger>,
}

/// Breaks the cycles of the graph: as long as the topological sort finds a
/// node on a cycle, the edge that leaves this node is turned to a node with a
/// temporary name, and the step from that name to the old target is deferred.
fn break_cycles<F: Fn(&String) -> bool>(
    renames: &Vec<(String, String)>,
    is_taken: &F,
    start: u64,
) -> (done: Result<Untangled, RenameError>)
    requires
        is_rename_mapping(renames.deep_view()),
        renames.len() <= MAX_RENAMES,
        forall|path: &String| call_requires(is_taken, (path,)),
    ensures
        done matches Ok(state) ==> {
            &&& state.ledger@.start == start
            &&& state.ledger@.balanced(renames.deep_view())
            &&& state.ledger@.searched(*is_taken, renames.deep_view())
            &&& state.ledger@.nodes == state.nodes.deep_view()
            &&& state.ledger@.deferred == state.deferred.deep_view()
            &&& state.ledger@.edges == graph_edges(state.graph)
            &&& graph_node_count(state.graph) == state.nodes.len()
            &&& is_topological_order(
                graph_node_count(state.graph),
                graph_edges(state.graph),
                state.order@,
            )
            &&& forall|t: int|
                0 <= t < state.deferred.len() ==> reported_unused(
                    *is_taken,
                    (#[trigger] state.deferred.deep_view()[t]).0,
                )
        },
        never_taken(*is_taken) && start <= u32::MAX ==> done is Ok,
        done is Err ==> has_cycle(renames.deep_view()),
        done matches Err(e) ==> e matches RenameError::NoFreePlaceholder(path) && sources(
            renames.deep_view(),
        ).contains(path@),
{
    let ghost pairs = renames.deep_view();
    let (mut graph, mut nodes) = build_graph(renames, Ghost(start as nat));
    let mut deferred: Vec<(String, String)> = Vec::new();
    let mut counter: u64 = start;
    let ghost mut ledger = Ledger {
        nodes: nodes.deep_view(),
        deferred: Seq::empty(),
        edges: graph_edges(graph),
        pair_of: Seq::new(renames.len() as nat, |i: int| i),
        edge_of: Seq::new(renames.len() as nat, |i: int| i),
        broken: Seq::empty(),
        counters: Seq::empty(),
        start: start as nat,
    };
    proof {
        assert(deferred.deep_view() =~= Seq::<(Path, Path)>::empty());
    }
    let mut sorted = graph_toposort(&graph);
    while sorted.is_err()
        invariant
            is_rename_mapping(pairs),
            pairs == renames.deep_view(),
            renames.len() <= MAX_RENAMES,
            forall|path: &String| call_requires(is_taken, (path,)),
            ledger.start == start,
            ledger.balanced(pairs),
            ledger.searched(*is_taken, pairs),
            ledger.nodes == nodes.deep_view(),
            ledger.deferred == deferred.deep_view(),
            ledger.edges == graph_edges(graph),
            ledger.originals() <= 2 * renames.len(),
            graph_node_count(graph) == nodes.len(),
            counter == first_number(ledger.start, ledger.counters, ledger.counters.len() as int),
            forall|t: int|
                0 <= t < deferred.len() ==> reported_unused(
                    *is_taken,
                    (#[trigger] deferred.deep_view()[t]).0,
                ),
            never_taken(*is_taken) ==> counter <= start + deferred.len() * 0x1_0000_0000,
            sorted matches Ok(order) ==> is_topological_order(
                graph_node_count(graph),
                graph_edges(graph),
                order@,
            ),
            sorted matches Err(n) ==> n < graph_node_count(graph) && on_cycle(
                graph_edges(graph),
                n as int,
            ),
        decreases renames.len() - deferred.len(),
    {
        let n = match &sorted {
            Err(n) => *n,
            Ok(_) => 0,
        };
        let out = graph_out_edges(&graph, n);
        proof {
            let walk = choose|walk: Seq<int>|
                walk.len() >= 2 && walk[0] == n && walk.last() == n && #[trigger] is_walk(
                    ledger.edges,
                    walk,
                );
            assert(is_hop(ledger.edges, walk, 0));
            let f = choose|f: int|
                0 <= f < ledger.edges.len() && ledger.edges[f] == (walk[0], walk[1]);
            assert(ledger.edges[f].0 == n);
        }
        let e = out[0].0;
        let target = out[0].1;
        proof {
            assert(ledger.edges[e as int] == (n as int, target as int));
            lemma_cycle_in_graph(pairs, ledger, n as int, e as int);
            assert(ledger.accounts(pairs, e as int));
            lemma_closed_chain(pairs, ledger.nodes[target as int], ledger.nodes[n as int]);
            assert(nodes.deep_view()[n as int] == nodes[n as int]@);
            assert(nodes.deep_view()[target as int] == nodes[target as int]@);
            lemma_request_left(pairs, ledger, e as int);
        }
        let ghost begun = counter;
        let found = free_placeholder(is_taken, &nodes, &nodes[n], &mut counter);
        match found {
            None => {
                proof {
                    assert(sources(pairs)[ledger.pair_of[e as int]] == nodes[n as int]@);
                }
                return Err(RenameError::NoFreePlaceholder(nodes[n].clone()));
            },
            Some(placeholder) => {
                proof {
                    lemma_break_keeps_balance(
                        pairs,
                        ledger,
                        e as int,
                        placeholder@,
                        (counter - 1) as nat,
                    );
                    lemma_break_keeps_search(
                        *is_taken,
                        pairs,
                        ledger,
                        e as int,
                        placeholder@,
                        (counter - 1) as nat,
                    );
                }
                let ghost edges = graph_edges(graph);
                graph_remove_edge(&mut graph, e);
                let fresh = graph_add_node(&mut graph);
                proof {
                    let removed = swap_removed(edges, e as int);
                    if removed.contains((n as int, fresh as int)) {
                        let f = choose|f: int|
                            0 <= f < removed.len() && removed[f] == (n as int, fresh as int);
                        let g = if f == e {
                            edges.len() - 1
                        } else {
                            f
                        };
                        assert(0 <= g < edges.len());
                        assert(ledger.accounts(pairs, g));
                        assert(removed[f] == edges[g]);
                    }
                }
                graph_update_edge(&mut graph, n, fresh);
                let ghost steps = deferred.deep_view();
                let ghost paths = nodes.deep_view();
                let ghost was = deferred@;
                deferred.push((placeholder.clone(), nodes[target].clone()));
                nodes.push(placeholder);
                proof {
                    ledger = ledger.after_break(e as int, placeholder@, (counter - 1) as nat);
                    assert(deferred.deep_view() =~= steps.push((placeholder@, paths[target as int])));
                    assert(nodes.deep_view() =~= paths.push(placeholder@));
                    assert forall|t: int| 0 <= t < deferred.len() implies reported_unused(
                        *is_taken,
                        (#[trigger] deferred.deep_view()[t]).0,
                    ) by {
                        if t < was.len() {
                            assert(deferred.deep_view()[t] == steps[t]);
                        }
                    }
                }
            },
        }
        sorted = graph_toposort(&graph);
    }
    let order = sorted.unwrap();
    Ok(Untangled { graph, nodes, deferred, order, ledger: Ghost(ledger) })
}

/// Walks the nodes in topological order and takes from each node that starts
/// an edge the step along that edge.
fn steps_in_order(
    graph: &RenameGraph,
    nodes: &Vec<String>,
    order: &Vec<usize>,
    Ghost(renames): Ghost<Renames>,
    Ghost(ledger): Ghost<Ledger>,
) -> (drawn: (Vec<(String, String)>, Ghost<Steps>))
    requires
        is_rename_mapping(renames),
        ledger.balanced(renames),
        ledger.nodes == nodes.deep_view(),
        ledger.edges == graph_edges(*graph),
        graph_node_count(*graph) == nodes.len(),
        is_topological_order(graph_node_count(*graph), graph_edges(*graph), order@),
    ensures
        drawn.1@.steps == drawn.0.deep_view(),
        drawn.1@.drawn_from(ledger),
{
    let mut steps: Vec<(String, String)> = Vec::new();
    let ghost mut drawn = Steps {
        steps: Seq::empty(),
        edge_of_step: Seq::empty(),
        place_of_step: Seq::empty(),
        step_of_edge: Seq::new(ledger.edges.len(), |e: int| -1),
    };
    proof {
        assert(steps.deep_view() =~= drawn.steps);
    }
    let mut p: usize = 0;
    while p < order.len()
        invariant
            0 <= p <= order.len(),
            is_rename_mapping(renames),
            ledger.balanced(renames),
            ledger.nodes == nodes.deep_view(),
            ledger.edges == graph_edges(*graph),
            graph_node_count(*graph) == nodes.len(),
            is_topological_order(graph_node_count(*graph), graph_edges(*graph), order@),
            drawn.steps == steps.deep_view(),
            drawn.drawn_upto(ledger, order@, p as int),
        decreases order.len() - p,
    {
        let a = order[p];
        let out = graph_out_edges(graph, a);
        if out.len() > 0 {
            let e = out[0].0;
            let b = out[0].1;
            let ghost before = steps.deep_view();
            proof {
                assert(ledger.accounts(renames, e as int));
                assert(nodes.deep_view()[a as int] == nodes[a as int]@);
                assert(nodes.deep_view()[b as int] == nodes[b as int]@);
                lemma_step_drawn(renames, ledger, order@, drawn, p as int, e as int);
            }
            steps.push((nodes[a].clone(), nodes[b].clone()));
            proof {
                drawn = drawn.with_step(ledger, e as int, p as int);
                assert(steps.deep_view() =~= before.push(
                    (ledger.nodes[a as int], ledger.nodes[b as int]),
                ));
            }
        } else {
            proof {
                assert forall|e: int| 0 <= e < ledger.edges.len() implies (
                #[trigger] ledger.edges[e]).0 != order@[p as int] by {
                    if ledger.edges[e].0 == a {
                        let k = choose|k: int| 0 <= k < out@.len() && (#[trigger] out@[k]).0 == e;
                    }
                }
                lemma_step_passed(ledger, order@, drawn, p as int);
            }
        }
        p += 1;
    }
    proof {
        lemma_all_drawn(renames, ledger, order@, drawn);
    }
    (steps, Ghost(drawn))
}

/// Breaks the cycles of the rename mapping through temporary names and puts
/// the renames in an order in which they can be carried out one by one.
///
/// The mapping is taken as a graph with an edge from each source to its
/// destination. As long as the graph has a cycle, one rename of the cycle is
/// turned to a temporary name, and the rename from that name to the
/// destination is deferred. The steps of the acyclic graph are then taken
/// from the end of each chain to its start, followed by the deferred steps.
///
/// A temporary name is the path of the file followed by `.n`, a number and
/// `.tmp`. The numbers grow within one call. A name is used if it plays no
/// part in the graph and `is_taken` reports that no file has it.
pub fn break_cycles_and_fix_ordering<F: Fn(&String) -> bool>(
    renames: &Vec<(String, String)>,
    is_taken: F,
) -> (steps: Result<Vec<(String, String)>, RenameError>)
    requires
        is_rename_mapping(renames.deep_view()),
        renames.len() <= MAX_RENAMES,
        forall|path: &String| call_requires(is_taken, (path,)),
    ensures
        !has_cycle(renames.deep_view()) || never_taken(is_taken) ==> steps is Ok,
        steps matches Ok(plan) ==> {
            &&& is_plan_for(renames.deep_view(), plan.deep_view())
            &&& placeholders_numbered(is_taken, renames.deep_view(), plan.deep_view(), 0)
            &&& !has_cycle(renames.deep_view()) ==> plan.len() == renames.len()
            &&& forall|t: int|
                renames.len() <= t < plan.len() ==> reported_unused(
                    is_taken,
                    (#[trigger] plan.deep_view()[t]).0,
                )
        },
        steps matches Err(e) ==> e matches RenameError::NoFreePlaceholder(path) && sources(
            renames.deep_view(),
        ).contains(path@),
{
    break_cycles_and_fix_ordering_from(renames, is_taken, 0)
}

/// As [`break_cycles_and_fix_ordering`], with the temporary names numbered
/// from `first_number` on. The numbers end at the largest that a `u64`
/// holds; a search that comes there without a name that can be used fails.
pub fn break_cycles_and_fix_ordering_from<F: Fn(&String) -> bool>(
    renames: &Vec<(String, String)>,
    is_taken: F,
    first_number: u64,
) -> (steps: Result<Vec<(String, String)>, RenameError>)
    requires
        is_rename_mapping(renames.deep_view()),
        renames.len() <= MAX_RENAMES,
        forall|path: &String| call_requires(is_taken, (path,)),
    ensures
        !has_cycle(renames.deep_view()) || (never_taken(is_taken) && first_number <= u32::MAX)
            ==> steps is Ok,
        steps matches Ok(plan) ==> {
            &&& is_plan_for(renames.deep_view(), plan.deep_view())
            &&& placeholders_numbered(
                is_taken,
                renames.deep_view(),
                plan.deep_view(),
                first_number as nat,
            )
            &&& !has_cycle(renames.deep_view()) ==> plan.len() == renames.len()
            &&& forall|t: int|
                renames.len() <= t < plan.len() ==> reported_unused(
                    is_taken,
                    (#[trigger] plan.deep_view()[t]).0,
                )
        },
        steps matches Err(e) ==> e matches RenameError::NoFreePlaceholder(path) && sources(
            renames.deep_view(),
        ).contains(path@),
{
    let state = match break_cycles(renames, &is_taken, first_number) {
        Ok(state) => state,
        Err(e) => {
            return Err(e);
        },
    };
    let ghost pairs = renames.deep_view();
    let ghost ledger = state.ledger@;
    let mut deferred = state.deferred;
    let (mut drawn, Ghost(books)) = steps_in_order(
        &state.graph,
        &state.nodes,
        &state.order,
        Ghost(pairs),
        Ghost(ledger),
    );
    let ghost forward = drawn@;
    let mut plan: Vec<(String, String)> = Vec::new();
    while drawn.len() > 0
        invariant
            drawn.len() + plan.len() == forward.len(),
            drawn@ == forward.take(drawn.len() as int),
            forall|k: int| 0 <= k < plan.len() ==> plan[k] == forward[forward.len() - 1 - k],
        decreases drawn.len(),
    {
        let ghost n = drawn.len();
        let step = drawn.pop();
        match step {
            Some(step) => {
                plan.push(step);
            },
            None => {},
        }
        proof {
            assert(drawn@ =~= forward.take(n - 1));
        }
    }
    let ghost main = plan@;
    let ghost waiting = deferred@;
    plan.append(&mut deferred);
    proof {
        let m = pairs.len() as int;
        assert(plan.deep_view() =~= books.steps.reverse() + ledger.deferred) by {
            assert(plan@.len() == m + waiting.len());
            assert forall|k: int| 0 <= k < plan@.len() implies plan.deep_view()[k] == (
            books.steps.reverse() + ledger.deferred)[k] by {
                if k < m {
                    assert(plan@[k] == forward[m - 1 - k]);
                    assert(books.steps[m - 1 - k] == (forward[m - 1 - k].0@, forward[m - 1 - k].1@));
                } else {
                    assert(plan@[k] == waiting[k - m]);
                    assert(ledger.deferred[k - m] == (waiting[k - m].0@, waiting[k - m].1@));
                }
            }
        }
        lemma_plan_assembled(is_taken, pairs, ledger, books, plan.deep_view());
        if !has_cycle(pairs) {
            lemma_detour_needs_cycle(pairs, plan.deep_view());
        }
        assert forall|t: int| renames.len() <= t < plan.len() implies reported_unused(
            is_taken,
            (#[trigger] plan.deep_view()[t]).0,
        ) by {
            assert(plan[t] == waiting[t - m]);
            assert(plan.deep_view()[t] == ledger.deferred[t - m]);
        }
    }
    Ok(plan)
}

} // verus!
