//! Analyses of a netlist that are not part of its checks: the order in which its objects
//! can be evaluated, and the loops that stand in the way of such an order.
//!
//! An object depends on the objects that drive its input ports within one step of
//! evaluation. What is driven by a cell that holds state is driven from the step before,
//! and is no dependency.

use vstd::prelude::*;

use crate::circuit::{net_views, IdentifierView, Instantiable, Net};
use crate::error::{Error, ErrorView};
use crate::graph::{
    dependency_order, in_knot, is_ascending, is_dependency_order, is_edge, is_graph, is_knot,
    lemma_knot_step, lists,
};
use crate::netlist::{InstanceView, NetRef, Netlist, NetlistView, Object};

verus! {

/// Whether the handles in `order` name the slot `i`.
pub open spec fn orders(order: Seq<NetRef>, i: int) -> bool {
    exists|k: int| 0 <= k < order.len() && (#[trigger] order[k]).object == i
}

/// The names of the signals of the first `n` output ports of an instance.
pub open spec fn signal_names<I>(instance: InstanceView<I>, n: int) -> Seq<IdentifierView>
    decreases n,
{
    if n <= 0 {
        Seq::empty()
    } else {
        signal_names(instance, n - 1).push(instance.output_name(n - 1))
    }
}

impl<I: Instantiable> NetlistView<I> {
    /// Whether the object in slot `i` is an instance of a cell that holds state.
    pub open spec fn is_sequential(self, i: int) -> bool {
        self.is_instance(i) && self.instance(i).cell.sequential()
    }

    /// Whether the object in slot `i` depends on the object in slot `d`: it uses `d`, and
    /// `d` holds no state.
    pub open spec fn depends_on(self, i: int, d: int) -> bool {
        self.uses(i, d) && !self.is_sequential(d)
    }

    /// Whether `order` is an order of evaluation: it lists every object of the netlist
    /// once, each behind all objects that it depends on.
    pub open spec fn is_evaluation_order(self, order: Seq<NetRef>) -> bool {
        &&& forall|k: int| 0 <= k < order.len() ==> self.is_object((#[trigger] order[k]).object as int)
        &&& forall|j: int, k: int| 0 <= j < k < order.len() ==> order[j] != order[k]
        &&& forall|i: int| #[trigger] self.is_object(i) ==> orders(order, i)
        &&& forall|a: int, b: int|
            0 <= a < order.len() && 0 <= b < order.len() && #[trigger] self.depends_on(
                order[a].object as int,
                order[b].object as int,
            ) ==> b < a
    }

    /// Whether `knot` is a set of slots in which every object depends on an object of the
    /// set.
    #[verifier::opaque]
    pub open spec fn is_loop(self, knot: Set<int>) -> bool {
        forall|u: int| #[trigger]
            knot.contains(u) ==> exists|v: int| knot.contains(v) && self.depends_on(u, v)
    }

    /// Whether the dependencies of the object in slot `i` lead into a loop.
    pub open spec fn in_loop(self, i: int) -> bool {
        exists|knot: Set<int>| #[trigger] self.is_loop(knot) && knot.contains(i)
    }

    /// Whether `stuck` lists, in ascending order, the slots of the objects whose
    /// dependencies lead into a loop, and there is such an object.
    pub open spec fn is_stuck(self, stuck: Seq<usize>) -> bool {
        &&& stuck.len() > 0
        &&& is_ascending(stuck)
        &&& forall|i: int|
            0 <= i < self.slots.len() ==> (#[trigger] self.in_loop(i) <==> lists(stuck, i))
        &&& forall|k: int| 0 <= k < stuck.len() ==> (#[trigger] stuck[k]) < self.slots.len()
    }

    /// The names of the signals of the instances in the slots `stuck`, in order.
    pub open spec fn signals_of(self, stuck: Seq<usize>) -> Seq<IdentifierView>
        decreases stuck.len(),
    {
        if stuck.len() == 0 {
            Seq::empty()
        } else {
            self.signals_of(stuck.drop_last()) + signal_names(
                self.instance(stuck.last() as int),
                self.instance(stuck.last() as int).outputs.len() as int,
            )
        }
    }

    /// Whether `adj` stands for the dependencies of the netlist: node `i` has an edge to
    /// node `d` exactly if the object in slot `i` depends on the object in slot `d`.
    pub open spec fn is_dependencies(self, adj: Seq<Seq<usize>>) -> bool {
        &&& adj.len() == self.slots.len()
        &&& is_graph(adj)
        &&& forall|i: int, d: int| #[trigger] is_edge(adj, i, d) <==> self.depends_on(i, d)
    }

    /// From an object of a loop a dependency leads to an object of the loop.
    pub proof fn lemma_loop_step(self, knot: Set<int>, u: int) -> (v: int)
        requires
            self.is_loop(knot),
            knot.contains(u),
        ensures
            knot.contains(v),
            self.depends_on(u, v),
    {
        reveal(NetlistView::is_loop);
        choose|v: int| knot.contains(v) && self.depends_on(u, v)
    }

    /// The loops of a netlist are the knots of the graph of its dependencies.
    pub proof fn lemma_loops(self, adj: Seq<Seq<usize>>, i: int)
        requires
            self.is_dependencies(adj),
        ensures
            self.in_loop(i) <==> in_knot(adj, i),
    {
        if self.in_loop(i) {
            let knot = choose|knot: Set<int>| #[trigger] self.is_loop(knot) && knot.contains(i);
            assert(is_knot(adj, knot)) by {
                reveal(is_knot);
                assert forall|u: int| #[trigger] knot.contains(u) implies exists|v: int|
                    knot.contains(v) && is_edge(adj, u, v) by {
                    let v = self.lemma_loop_step(knot, u);
                    assert(is_edge(adj, u, v));
                }
            }
        }
        if in_knot(adj, i) {
            let knot = choose|knot: Set<int>| #[trigger] is_knot(adj, knot) && knot.contains(i);
            assert(self.is_loop(knot)) by {
                reveal(NetlistView::is_loop);
                assert forall|u: int| #[trigger] knot.contains(u) implies exists|v: int|
                    knot.contains(v) && self.depends_on(u, v) by {
                    let v = lemma_knot_step(adj, knot, u);
                    assert(self.depends_on(u, v));
                }
            }
        }
    }

    /// A netlist with a loop has no order of evaluation.
    pub proof fn lemma_loop_has_no_order(self, order: Seq<NetRef>, i: int)
        requires
            self.wf(),
            self.is_evaluation_order(order),
        ensures
            !self.in_loop(i),
    {
        if self.in_loop(i) {
            let knot = choose|knot: Set<int>| #[trigger] self.is_loop(knot) && knot.contains(i);
            let v = self.lemma_loop_step(knot, i);
            assert(self.operands(i).len() > 0);
            assert(orders(order, i));
            let k = choose|k: int| 0 <= k < order.len() && (#[trigger] order[k]).object == i;
            self.lemma_order_avoids_loop(order, knot, k);
        }
    }

    proof fn lemma_order_avoids_loop(self, order: Seq<NetRef>, knot: Set<int>, k: int)
        requires
            self.wf(),
            self.is_evaluation_order(order),
            self.is_loop(knot),
            0 <= k < order.len(),
        ensures
            !knot.contains(order[k].object as int),
        decreases k,
    {
        let u = order[k].object as int;
        if knot.contains(u) {
            let v = self.lemma_loop_step(knot, u);
            let p = choose|p: int|
                0 <= p < self.operands(u).len() && (#[trigger] self.operands(u)[p]) is Some
                    && self.operands(u)[p]->0.object == v;
            assert(self.is_net(self.operands(u)[p]->0));
            assert(self.is_object(v));
            assert(orders(order, v));
            let b = choose|b: int| 0 <= b < order.len() && (#[trigger] order[b]).object == v;
            assert(self.depends_on(order[k].object as int, order[b].object as int));
            self.lemma_order_avoids_loop(order, knot, b);
        }
    }
}

impl<I: Instantiable> Netlist<I> {
    /// The slots that the object in slot `i` depends on.
    fn dependencies_of(&self, i: usize) -> (r: Vec<usize>)
        requires
            self@.wf(),
        ensures
            forall|k: int| 0 <= k < r@.len() ==> (#[trigger] r@[k]) < self@.slots.len(),
            forall|d: int| self@.depends_on(i as int, d) <==> lists(r@, d),
    {
        let mut found: Vec<usize> = Vec::new();
        match self.get_object(i) {
            Some(Object::Instance(instance)) => {
                let ghost operands = self@.operands(i as int);
                let mut p: usize = 0;
                while p < instance.operand_count()
                    invariant
                        p <= operands.len(),
                        self@.wf(),
                        operands == self@.operands(i as int),
                        operands == instance@.operands,
                        forall|k: int| 0 <= k < found@.len() ==> (#[trigger] found@[k]) < self@.slots.len(),
                        forall|k: int|
                            0 <= k < found@.len() ==> self@.depends_on(
                                i as int,
                                (#[trigger] found@[k]) as int,
                            ),
                        forall|q: int|
                            0 <= q < p && (#[trigger] operands[q]) is Some && !self@.is_sequential(
                                operands[q]->0.object as int,
                            ) ==> lists(found@, operands[q]->0.object as int),
                    decreases operands.len() - p,
                {
                    match instance.operand(p) {
                        Some(net) => {
                            assert(operands[p as int] is Some);
                            assert(self@.is_net(operands[p as int]->0));
                            let sequential = match self.get_object(net.object) {
                                Some(Object::Instance(driver)) => driver.get_instance_type().is_seq(),
                                _ => false,
                            };
                            if !sequential {
                                let ghost before = found@;
                                found.push(net.object);
                                proof {
                                    assert(self@.uses(i as int, net.object as int));
                                    assert forall|q: int|
                                        0 <= q < p + 1 && (#[trigger] operands[q]) is Some
                                            && !self@.is_sequential(
                                            operands[q]->0.object as int,
                                        ) implies lists(found@, operands[q]->0.object as int) by {
                                        if q < p {
                                            assert(lists(before, operands[q]->0.object as int));
                                            let k = choose|k: int|
                                                0 <= k < before.len() && #[trigger] before[k]
                                                    == operands[q]->0.object;
                                            assert(found@[k] == before[k]);
                                        } else {
                                            assert(found@[found@.len() - 1] == net.object);
                                        }
                                    }
                                }
                            }
                        },
                        None => {},
                    }
                    p = p + 1;
                }
                proof {
                    assert forall|d: int| self@.depends_on(i as int, d) implies lists(found@, d) by {
                        let q = choose|q: int|
                            0 <= q < operands.len() && (#[trigger] operands[q]) is Some
                                && operands[q]->0.object == d;
                        assert(operands[q] is Some);
                    }
                    assert forall|d: int| lists(found@, d) implies self@.depends_on(i as int, d) by {
                        let k = choose|k: int| 0 <= k < found@.len() && #[trigger] found@[k] == d;
                        assert(self@.depends_on(i as int, found@[k] as int));
                    }
                }
            },
            _ => {
                assert(self@.operands(i as int).len() == 0);
            },
        }
        found
    }

    /// The dependencies of the netlist as a graph. Node `i` stands for slot `i` and has an
    /// edge to each slot that it depends on.
    pub fn dependencies(&self) -> (r: Vec<Vec<usize>>)
        requires
            self@.wf(),
        ensures
            self@.is_dependencies(r.deep_view()),
    {
        let n = self.slot_count();
        let mut adj: Vec<Vec<usize>> = Vec::new();
        let mut i: usize = 0;
        while i < n
            invariant
                i <= n,
                n == self@.slots.len(),
                self@.wf(),
                adj@.len() == i,
                forall|u: int, k: int|
                    0 <= u < i && 0 <= k < adj@[u]@.len() ==> (#[trigger] adj@[u]@[k]) < n,
                forall|u: int, d: int|
                    0 <= u < i ==> (#[trigger] self@.depends_on(u, d) <==> lists(adj@[u]@, d)),
            decreases n - i,
        {
            let found = self.dependencies_of(i);
            let ghost before = adj@;
            adj.push(found);
            proof {
                assert forall|u: int, d: int| 0 <= u < i + 1 implies (#[trigger] self@.depends_on(
                    u,
                    d,
                ) <==> lists(adj@[u]@, d)) by {
                    if u < i {
                        assert(adj@[u] == before[u]);
                    } else {
                        assert(adj@[u] == found);
                    }
                }
            }
            i = i + 1;
        }
        proof {
            let graph = adj.deep_view();
            assert(graph.len() == n);
            assert forall|u: int| 0 <= u < n implies #[trigger] graph[u] == adj@[u]@ by {}
            assert forall|u: int, d: int| #[trigger] is_edge(graph, u, d) <==> self@.depends_on(
                u,
                d,
            ) by {
                if 0 <= u < n {
                    assert(graph[u] == adj@[u]@);
                    assert(self@.depends_on(u, d) <==> lists(adj@[u]@, d));
                } else {
                    assert(self@.operands(u).len() == 0);
                }
            }
            assert(is_graph(graph)) by {
                assert forall|u: int, k: int|
                    0 <= u < graph.len() && 0 <= k < graph[u].len() implies (#[trigger] graph[u][k])
                    < graph.len() by {
                    assert(graph[u] == adj@[u]@);
                    assert(adj@[u]@[k] < n);
                }
            }
        }
        adj
    }

    /// The names of the signals of the instances in the slots `stuck`, in order.
    fn signals_of(&self, stuck: &Vec<usize>) -> (r: Vec<Net>)
        requires
            forall|k: int| 0 <= k < stuck@.len() ==> self@.is_instance((#[trigger] stuck@[k]) as int),
        ensures
            net_views(r@) == self@.signals_of(stuck@),
    {
        let mut nets: Vec<Net> = Vec::new();
        let mut k: usize = 0;
        proof {
            assert(stuck@.take(0) =~= Seq::empty());
            assert(net_views(nets@) =~= self@.signals_of(stuck@.take(0)));
        }
        while k < stuck.len()
            invariant
                k <= stuck@.len(),
                forall|j: int|
                    0 <= j < stuck@.len() ==> self@.is_instance((#[trigger] stuck@[j]) as int),
                net_views(nets@) == self@.signals_of(stuck@.take(k as int)),
            decreases stuck@.len() - k,
        {
            let ghost done = net_views(nets@);
            proof {
                assert(stuck@.take(k + 1).drop_last() =~= stuck@.take(k as int));
                assert(stuck@.take(k + 1).last() == stuck@[k as int]);
            }
            match self.get_object(stuck[k]) {
                Some(Object::Instance(instance)) => {
                    let mut p: usize = 0;
                    proof {
                        assert(net_views(nets@) =~= done + signal_names(instance@, 0));
                    }
                    while p < instance.output_count()
                        invariant
                            p <= instance@.outputs.len(),
                            net_views(nets@) == done + signal_names(instance@, p as int),
                        decreases instance@.outputs.len() - p,
                    {
                        let ghost before = net_views(nets@);
                        let name = instance.get_instance_name().concat(
                            instance.output_port(p).get_identifier(),
                        );
                        nets.push(Net::new_logic(name));
                        proof {
                            assert(net_views(nets@) =~= before.push(
                                instance@.output_name(p as int),
                            ));
                            assert(net_views(nets@) =~= done + signal_names(instance@, p + 1));
                        }
                        p = p + 1;
                    }
                },
                _ => {},
            }
            k = k + 1;
        }
        proof {
            assert(stuck@.take(stuck@.len() as int) =~= stuck@);
        }
        nets
    }

    /// Puts the objects of the netlist in an order of evaluation: every object behind all
    /// objects that it depends on. There is such an order exactly if the dependencies have
    /// no loop. Where they have one, the error names the signals of the instances whose
    /// dependencies lead into a loop, in the order of insertion.
    pub fn evaluation_order(&self) -> (r: Result<Vec<NetRef>, Error>)
        requires
            self@.wf(),
        ensures
            r is Ok <==> forall|i: int| !self@.in_loop(i),
            match r {
                Ok(order) => self@.is_evaluation_order(order@),
                Err(e) => exists|stuck: Seq<usize>| #[trigger]
                    self@.is_stuck(stuck) && e@ == ErrorView::CycleDetected(
                        self@.signals_of(stuck),
                    ),
            },
    {
        let adj = self.dependencies();
        let ghost graph = adj.deep_view();
        match dependency_order(&adj) {
            Ok(order) => {
                proof {
                    assert forall|i: int| !self@.in_loop(i) by {
                        self@.lemma_loops(graph, i);
                        if in_knot(graph, i) {
                            let knot = choose|knot: Set<int>|
                                #[trigger] is_knot(graph, knot) && knot.contains(i);
                            let v = lemma_knot_step(graph, knot, i);
                        }
                    }
                }
                let mut live: Vec<NetRef> = Vec::new();
                let ghost mut picked: Seq<int> = Seq::empty();
                let mut k: usize = 0;
                while k < order.len()
                    invariant
                        k <= order@.len(),
                        graph == adj.deep_view(),
                        self@.is_dependencies(graph),
                        is_dependency_order(graph, order@),
                        live@.len() == picked.len(),
                        forall|t: int| 0 <= t < picked.len() ==> 0 <= #[trigger] picked[t] < k,
                        forall|t: int|
                            0 <= t < picked.len() ==> (#[trigger] live@[t]).object
                                == order@[picked[t]] && self@.is_object(live@[t].object as int),
                        forall|s: int, t: int| 0 <= s < t < picked.len() ==> picked[s] < picked[t],
                        forall|j: int|
                            0 <= j < k && self@.is_object((#[trigger] order@[j]) as int)
                                ==> exists|t: int| 0 <= t < picked.len() && #[trigger] picked[t] == j,
                    decreases order@.len() - k,
                {
                    if self.get_object(order[k]).is_some() {
                        let ghost old_picked = picked;
                        live.push(NetRef { object: order[k] });
                        proof {
                            picked = picked.push(k as int);
                            assert forall|j: int|
                                0 <= j < k + 1 && self@.is_object((#[trigger] order@[j]) as int)
                                implies exists|t: int|
                                0 <= t < picked.len() && #[trigger] picked[t] == j by {
                                if j < k {
                                    let t = choose|t: int|
                                        0 <= t < old_picked.len() && #[trigger] old_picked[t] == j;
                                    assert(picked[t] == j);
                                } else {
                                    assert(picked[picked.len() - 1] == j);
                                }
                            }
                        }
                    }
                    k = k + 1;
                }
                proof {
                    assert forall|i: int| #[trigger] self@.is_object(i) implies orders(live@, i) by {
                        assert(lists(order@, i));
                        let j = choose|j: int| 0 <= j < order@.len() && #[trigger] order@[j] == i;
                        assert(self@.is_object(order@[j] as int));
                        let t = choose|t: int| 0 <= t < picked.len() && #[trigger] picked[t] == j;
                        assert(live@[t].object == i);
                    }
                    assert forall|s: int, t: int| 0 <= s < t < live@.len() implies live@[s]
                        != live@[t] by {
                        assert(picked[s] < picked[t]);
                        assert(order@[picked[s]] != order@[picked[t]]);
                    }
                    assert forall|a: int, b: int|
                        0 <= a < live@.len() && 0 <= b < live@.len() && #[trigger] self@.depends_on(
                            live@[a].object as int,
                            live@[b].object as int,
                        ) implies b < a by {
                        assert(is_edge(graph, order@[picked[a]] as int, order@[picked[b]] as int));
                        assert(picked[b] < picked[a]);
                        if a <= b {
                            if a < b {
                                assert(picked[a] < picked[b]);
                            }
                        }
                    }
                }
                Ok(live)
            },
            Err(stuck) => {
                proof {
                    assert forall|i: int| 0 <= i < self@.slots.len() implies (#[trigger] self@.in_loop(
                        i,
                    ) <==> lists(stuck@, i)) by {
                        self@.lemma_loops(graph, i);
                    }
                    assert forall|k: int| 0 <= k < stuck@.len() implies self@.is_instance(
                        (#[trigger] stuck@[k]) as int,
                    ) by {
                        let u = stuck@[k] as int;
                        assert(lists(stuck@, u));
                        assert(in_knot(graph, u));
                        let knot = choose|knot: Set<int>|
                            #[trigger] is_knot(graph, knot) && knot.contains(u);
                        let v = lemma_knot_step(graph, knot, u);
                        assert(self@.depends_on(u, v));
                        assert(self@.operands(u).len() > 0);
                    }
                }
                let nets = self.signals_of(&stuck);
                proof {
                    assert(self@.is_stuck(stuck@));
                    assert(lists(stuck@, stuck@[0] as int));
                    assert(self@.in_loop(stuck@[0] as int));
                }
                Err(Error::CycleDetected(nets))
            },
        }
    }
}

} // verus!
