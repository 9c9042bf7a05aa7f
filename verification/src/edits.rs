//! Edits of a netlist: removing what no output depends on, and rewiring the uses of a
//! signal.

use vstd::prelude::*;

use crate::circuit::{net_views, IdentifierView, Instantiable, Net};
use crate::error::{Error, ErrorView};
use crate::graph::{is_edge, is_graph, is_root, is_walk, reachable, reachable_from};
use crate::netlist::{
    DrivenNet, InstanceView, Netlist, NetlistView, Object, ObjectView, OutputView,
};

verus! {

impl<I> NetlistView<I> {
    /// Whether the object in slot `i` uses the object in slot `d`: one of its input ports
    /// is driven by a signal of `d`.
    pub open spec fn uses(self, i: int, d: int) -> bool {
        exists|p: int|
            0 <= p < self.operands(i).len() && (#[trigger] self.operands(i)[p]) is Some
                && self.operands(i)[p]->0.object == d
    }

    /// Whether a signal of the object in slot `i` is exposed as an output.
    pub open spec fn is_exposed(self, i: int) -> bool {
        exists|k: int| 0 <= k < self.outputs.len() && (#[trigger] self.outputs[k]).driver.object == i
    }

    /// Whether `chain` is a chain of uses: a list of slots, not empty, in which each object
    /// uses the next.
    pub open spec fn is_chain(self, chain: Seq<int>) -> bool {
        &&& chain.len() > 0
        &&& forall|k: int| 0 <= k < chain.len() - 1 ==> self.uses(#[trigger] chain[k], chain[k + 1])
    }

    /// Whether an output depends on the object in slot `i`: a chain of uses leads from an
    /// object that is exposed to `i`.
    pub open spec fn reachable(self, i: int) -> bool {
        exists|chain: Seq<int>|
            #[trigger] self.is_chain(chain) && self.is_exposed(chain[0]) && chain.last() == i
    }

    /// Whether cleaning keeps the object in slot `i`: it keeps every input, and every
    /// object that an output depends on.
    pub open spec fn keeps(self, i: int) -> bool {
        self.is_input(i) || self.reachable(i)
    }

    /// The netlist without the instances that no output depends on: their slots are empty.
    pub open spec fn cleaned(self) -> NetlistView<I> {
        NetlistView {
            slots: Seq::new(
                self.slots.len(),
                |i: int|
                    if self.keeps(i) {
                        self.slots[i]
                    } else {
                        None
                    },
            ),
            ..self
        }
    }

    /// Whether the netlist has an instance that no output depends on.
    pub open spec fn has_dead_instance(self) -> bool {
        exists|i: int| self.is_instance(i) && !self.reachable(i)
    }

    /// An object that is exposed is one that an output depends on.
    pub proof fn lemma_exposed_reachable(self, i: int)
        requires
            self.is_exposed(i),
        ensures
            self.reachable(i),
    {
        let chain = seq![i];
        assert(self.is_chain(chain));
        assert(chain[0] == i);
    }

    /// What is used by an object that an output depends on is something that an output
    /// depends on.
    pub proof fn lemma_reachable_uses(self, i: int, d: int)
        requires
            self.reachable(i),
            self.uses(i, d),
        ensures
            self.reachable(d),
    {
        let chain = choose|chain: Seq<int>|
            #[trigger] self.is_chain(chain) && self.is_exposed(chain[0]) && chain.last() == i;
        let longer = chain.push(d);
        assert forall|k: int| 0 <= k < longer.len() - 1 implies self.uses(
            #[trigger] longer[k],
            longer[k + 1],
        ) by {
            if k < chain.len() - 1 {
                assert(longer[k] == chain[k]);
                assert(longer[k + 1] == chain[k + 1]);
            }
        }
        assert(self.is_chain(longer));
        assert(longer[0] == chain[0]);
    }

    /// An output depends on an object only if the object is exposed, or is used by an
    /// object that an output depends on.
    pub proof fn lemma_reachable_unfold(self, i: int)
        requires
            self.reachable(i),
        ensures
            self.is_exposed(i) || exists|j: int| #[trigger] self.reachable(j) && self.uses(j, i),
    {
        let chain = choose|chain: Seq<int>|
            #[trigger] self.is_chain(chain) && self.is_exposed(chain[0]) && chain.last() == i;
        if chain.len() > 1 {
            let shorter = chain.drop_last();
            assert forall|k: int| 0 <= k < shorter.len() - 1 implies self.uses(
                #[trigger] shorter[k],
                shorter[k + 1],
            ) by {
                assert(shorter[k] == chain[k]);
                assert(shorter[k + 1] == chain[k + 1]);
            }
            assert(self.is_chain(shorter));
            assert(shorter[0] == chain[0]);
            let j = shorter.last();
            assert(self.reachable(j));
            assert(j == chain[chain.len() - 2]);
            assert(self.uses(chain[chain.len() - 2], chain[chain.len() - 2 + 1]));
        }
    }

    /// What an output depends on is an object of the netlist.
    pub proof fn lemma_reachable_is_object(self, i: int)
        requires
            self.wf(),
            self.reachable(i),
        ensures
            self.is_object(i),
    {
        self.lemma_reachable_unfold(i);
        if self.is_exposed(i) {
            let k = choose|k: int|
                0 <= k < self.outputs.len() && (#[trigger] self.outputs[k]).driver.object == i;
            assert(self.is_net(self.outputs[k].driver));
        } else {
            let j = choose|j: int| #[trigger] self.reachable(j) && self.uses(j, i);
            let p = choose|p: int|
                0 <= p < self.operands(j).len() && (#[trigger] self.operands(j)[p]) is Some
                    && self.operands(j)[p]->0.object == i;
            assert(self.is_net(self.operands(j)[p]->0));
        }
    }

    /// Cleaning keeps the invariant. It leaves every object that it keeps as it was, and a
    /// handle to a signal stays good exactly if its object is kept.
    pub proof fn lemma_cleaned_wf(self)
        requires
            self.wf(),
        ensures
            self.cleaned().wf(),
            forall|i: int|
                0 <= i < self.slots.len() && self.keeps(i) ==> #[trigger] self.cleaned().slots[i]
                    == self.slots[i],
            forall|net: DrivenNet|
                self.cleaned().is_net(net) <==> self.is_net(net) && self.keeps(net.object as int),
    {
        let after = self.cleaned();
        assert forall|net: DrivenNet| after.is_net(net) <==> self.is_net(net) && self.keeps(
            net.object as int,
        ) by {
            if self.keeps(net.object as int) {
                if self.reachable(net.object as int) {
                    self.lemma_reachable_is_object(net.object as int);
                }
            }
        }
        assert forall|i: int, p: int|
            0 <= p < after.operands(i).len() && (#[trigger] after.operands(i)[p]) is Some
            implies after.is_net(after.operands(i)[p]->0) by {
            assert(self.keeps(i));
            assert(after.operands(i) == self.operands(i));
            let net = self.operands(i)[p]->0;
            assert(self.is_net(net));
            assert(self.reachable(i));
            assert(self.uses(i, net.object as int));
            self.lemma_reachable_uses(i, net.object as int);
        }
        assert forall|i: int| after.is_instance(i) implies (#[trigger] after.instance(
            i,
        )).operands.len() == after.instance(i).inputs.len() by {
            assert(self.instance(i).operands.len() == self.instance(i).inputs.len());
        }
        assert forall|k: int| 0 <= k < after.outputs.len() implies after.is_net(
            (#[trigger] after.outputs[k]).driver,
        ) by {
            let net = self.outputs[k].driver;
            assert(self.is_net(net));
            assert(self.is_exposed(net.object as int));
            self.lemma_exposed_reachable(net.object as int);
        }
    }

    /// The outputs of a netlist depend on the same objects before and after cleaning.
    pub proof fn lemma_cleaned_reachable(self, i: int)
        requires
            self.wf(),
        ensures
            self.cleaned().reachable(i) <==> self.reachable(i),
    {
        let after = self.cleaned();
        if self.reachable(i) {
            let chain = choose|chain: Seq<int>|
                #[trigger] self.is_chain(chain) && self.is_exposed(chain[0]) && chain.last() == i;
            assert forall|k: int| 0 <= k < chain.len() - 1 implies after.uses(
                #[trigger] chain[k],
                chain[k + 1],
            ) by {
                self.lemma_chain_prefix(chain, k);
                self.lemma_reachable_is_object(chain[k]);
                assert(self.uses(chain[k], chain[k + 1]));
                assert(after.slots[chain[k]] == self.slots[chain[k]]);
                assert(after.operands(chain[k]) == self.operands(chain[k]));
                let p = choose|p: int|
                    0 <= p < self.operands(chain[k]).len() && (#[trigger] self.operands(
                        chain[k],
                    )[p]) is Some && self.operands(chain[k])[p]->0.object == chain[k + 1];
                assert(after.operands(chain[k])[p] is Some);
            }
            assert(after.is_chain(chain));
            let k0 = choose|k: int|
                0 <= k < self.outputs.len() && (#[trigger] self.outputs[k]).driver.object
                    == chain[0];
            assert(after.outputs[k0].driver.object == chain[0]);
            assert(after.is_exposed(chain[0]));
        }
        if after.reachable(i) {
            let chain = choose|chain: Seq<int>|
                #[trigger] after.is_chain(chain) && after.is_exposed(chain[0]) && chain.last()
                    == i;
            assert forall|k: int| 0 <= k < chain.len() - 1 implies self.uses(
                #[trigger] chain[k],
                chain[k + 1],
            ) by {
                assert(after.uses(chain[k], chain[k + 1]));
                let p = choose|p: int|
                    0 <= p < after.operands(chain[k]).len() && (#[trigger] after.operands(
                        chain[k],
                    )[p]) is Some && after.operands(chain[k])[p]->0.object == chain[k + 1];
                assert(after.is_instance(chain[k]));
                assert(after.operands(chain[k]) == self.operands(chain[k]));
                assert(self.operands(chain[k])[p] is Some);
            }
            assert(self.is_chain(chain));
            let k0 = choose|k: int|
                0 <= k < after.outputs.len() && (#[trigger] after.outputs[k]).driver.object
                    == chain[0];
            assert(self.outputs[k0].driver.object == chain[0]);
            assert(self.is_exposed(chain[0]));
        }
    }

    /// An output depends on every object of a chain that begins at an object that is
    /// exposed.
    pub proof fn lemma_chain_prefix(self, chain: Seq<int>, k: int)
        requires
            self.is_chain(chain),
            self.is_exposed(chain[0]),
            0 <= k < chain.len(),
        ensures
            self.reachable(chain[k]),
    {
        let prefix = chain.take(k + 1);
        assert forall|j: int| 0 <= j < prefix.len() - 1 implies self.uses(
            #[trigger] prefix[j],
            prefix[j + 1],
        ) by {
            assert(prefix[j] == chain[j]);
            assert(prefix[j + 1] == chain[j + 1]);
        }
        assert(self.is_chain(prefix));
        assert(prefix[0] == chain[0]);
        assert(prefix.last() == chain[k]);
    }

    /// Cleaning a netlist twice is cleaning it once: once a netlist is cleaned it has no
    /// instance that no output depends on, so that cleaning it again removes nothing.
    pub proof fn lemma_clean_idempotent(self)
        requires
            self.wf(),
        ensures
            !self.cleaned().has_dead_instance(),
            self.cleaned().cleaned() == self.cleaned(),
    {
        let after = self.cleaned();
        self.lemma_cleaned_wf();
        assert forall|i: int| after.is_instance(i) implies after.reachable(i) by {
            self.lemma_cleaned_reachable(i);
        }
        assert forall|i: int| 0 <= i < after.slots.len() implies #[trigger] after.cleaned().slots[i]
            == after.slots[i] by {
            self.lemma_cleaned_reachable(i);
        }
        assert(after.cleaned().slots =~= after.slots);
    }
}

/// Whether the lists `adj` and `roots` stand for the netlist as a graph: node `i` has an
/// edge to node `d` exactly if the object in slot `i` uses the object in slot `d`, and the
/// roots are the objects that are exposed.
pub open spec fn is_dependency_graph<I>(
    netlist: NetlistView<I>,
    adj: Seq<Seq<usize>>,
    roots: Seq<usize>,
) -> bool {
    &&& adj.len() == netlist.slots.len()
    &&& is_graph(adj)
    &&& forall|r: int| 0 <= r < roots.len() ==> (#[trigger] roots[r]) < adj.len()
    &&& forall|i: int, d: int| #[trigger] is_edge(adj, i, d) <==> netlist.uses(i, d)
    &&& forall|i: int| #[trigger] is_root(roots, i) <==> netlist.is_exposed(i)
}

/// An operand once the uses of `of` have gone over to `with`.
pub open spec fn swap_net(operand: Option<DrivenNet>, of: DrivenNet, with: DrivenNet) -> Option<
    DrivenNet,
> {
    if operand == Some(of) {
        Some(with)
    } else {
        operand
    }
}

/// Operands once the uses of `of` have gone over to `with`.
pub open spec fn swap_nets(operands: Seq<Option<DrivenNet>>, of: DrivenNet, with: DrivenNet) -> Seq<
    Option<DrivenNet>,
> {
    Seq::new(operands.len(), |p: int| swap_net(operands[p], of, with))
}

/// What a slot holds once the uses of `of` have gone over to `with`.
pub open spec fn swap_slot<I>(slot: Option<ObjectView<I>>, of: DrivenNet, with: DrivenNet) -> Option<
    ObjectView<I>,
> {
    match slot {
        Some(ObjectView::Instance(instance)) => Some(
            ObjectView::Instance(
                InstanceView { operands: swap_nets(instance.operands, of, with), ..instance },
            ),
        ),
        other => other,
    }
}

/// An output once the uses of `of` have gone over to `with`.
pub open spec fn swap_output(output: OutputView, of: DrivenNet, with: DrivenNet) -> OutputView {
    if output.driver == of {
        OutputView { driver: with, ..output }
    } else {
        output
    }
}

/// The names of the first `n` input ports of an instance that nothing drives.
pub open spec fn undriven_upto<I>(instance: InstanceView<I>, n: int) -> Seq<IdentifierView>
    decreases n,
{
    if n <= 0 {
        Seq::empty()
    } else if instance.operands[n - 1] is None {
        undriven_upto(instance, n - 1).push(instance.inputs[n - 1])
    } else {
        undriven_upto(instance, n - 1)
    }
}

impl<I> NetlistView<I> {
    /// The names of the input ports of the object in slot `i` that nothing drives, in the
    /// order of the ports.
    pub open spec fn undriven_ports(self, i: int) -> Seq<IdentifierView> {
        if self.is_instance(i) {
            undriven_upto(self.instance(i), self.instance(i).operands.len() as int)
        } else {
            Seq::empty()
        }
    }

    /// Whether every input port of the object in slot `i` is driven. An input has no input
    /// ports.
    pub open spec fn is_driven(self, i: int) -> bool {
        forall|p: int| 0 <= p < self.operands(i).len() ==> (#[trigger] self.operands(i)[p]) is Some
    }

    /// The netlist once every use of the signal `of`, by an input port or by an output,
    /// has gone over to the signal `with`.
    pub open spec fn rewired(self, of: DrivenNet, with: DrivenNet) -> NetlistView<I> {
        NetlistView {
            name: self.name,
            slots: Seq::new(self.slots.len(), |i: int| swap_slot(self.slots[i], of, with)),
            outputs: Seq::new(self.outputs.len(), |k: int| swap_output(self.outputs[k], of, with)),
        }
    }

    /// Why the uses of `of` cannot go over to `with`, if they cannot: a handle names no
    /// signal of the netlist, or `with` is not driven yet.
    pub open spec fn replace_error(self, of: DrivenNet, with: DrivenNet) -> Option<ErrorView> {
        if !self.is_net(of) {
            Some(ErrorView::NetNotFound(of.name()))
        } else if !self.is_net(with) {
            Some(ErrorView::NetNotFound(with.name()))
        } else if !self.is_driven(with.object as int) {
            Some(ErrorView::DanglingReference(self.undriven_ports(with.object as int)))
        } else {
            None
        }
    }

    /// An object has an input port that nothing drives exactly if the list of such ports
    /// is not empty.
    pub proof fn lemma_undriven_ports(self, i: int)
        requires
            self.wf(),
        ensures
            self.is_driven(i) <==> self.undriven_ports(i).len() == 0,
    {
        if self.is_instance(i) {
            lemma_undriven_upto(self.instance(i), self.instance(i).operands.len() as int);
        }
    }

    /// Rewiring keeps the invariant.
    pub proof fn lemma_rewired_wf(self, of: DrivenNet, with: DrivenNet)
        requires
            self.wf(),
            self.is_net(with),
        ensures
            self.rewired(of, with).wf(),
            forall|net: DrivenNet| self.is_net(net) <==> self.rewired(of, with).is_net(net),
            forall|i: int| self.is_object(i) <==> self.rewired(of, with).is_object(i),
            forall|i: int| self.is_instance(i) <==> self.rewired(of, with).is_instance(i),
    {
        let after = self.rewired(of, with);
        assert forall|i: int, p: int|
            0 <= p < after.operands(i).len() && (#[trigger] after.operands(i)[p]) is Some
            implies after.is_net(after.operands(i)[p]->0) by {
            assert(self.is_instance(i));
            if self.operands(i)[p] != Some(of) {
                assert(self.operands(i)[p] is Some);
                assert(self.is_net(self.operands(i)[p]->0));
            }
        }
        assert forall|i: int| after.is_instance(i) implies (#[trigger] after.instance(
            i,
        )).operands.len() == after.instance(i).inputs.len() by {
            assert(self.instance(i).operands.len() == self.instance(i).inputs.len());
        }
        assert forall|k: int| 0 <= k < after.outputs.len() implies after.is_net(
            (#[trigger] after.outputs[k]).driver,
        ) by {
            assert(self.is_net(self.outputs[k].driver));
        }
    }

    /// Rewiring moves every use. Once the uses of `of` have gone over to another signal
    /// `with`, no input port and no output uses `of`; what used `of` uses `with`; and what
    /// used another signal uses it still.
    pub proof fn lemma_rewired_uses(self, of: DrivenNet, with: DrivenNet)
        requires
            of != with,
        ensures
            forall|i: int, p: int|
                0 <= p < self.operands(i).len() ==> (#[trigger] self.rewired(of, with).operands(
                    i,
                )[p]) == swap_net(self.operands(i)[p], of, with) && self.rewired(
                    of,
                    with,
                ).operands(i)[p] != Some(of),
            forall|i: int| (#[trigger] self.rewired(of, with).operands(i)).len() == self.operands(i).len(),
            self.rewired(of, with).outputs.len() == self.outputs.len(),
            forall|k: int|
                0 <= k < self.outputs.len() ==> (#[trigger] self.rewired(of, with).outputs[k])
                    == swap_output(self.outputs[k], of, with) && self.rewired(
                    of,
                    with,
                ).outputs[k].driver != of,
    {
    }

    /// After the uses of a signal of an instance have gone over to another signal,
    /// cleaning removes the instance exactly if none of its signals is used any more by
    /// what counts: by an output, or by an object that an output depends on.
    pub proof fn lemma_rewired_then_cleaned(self, of: DrivenNet, with: DrivenNet)
        requires
            self.wf(),
            self.is_net(of),
            self.is_net(with),
            self.is_instance(of.object as int),
        ensures
            ({
                let after = self.rewired(of, with);
                let i = of.object as int;
                &&& after.wf()
                &&& after.is_instance(i)
                &&& !after.cleaned().is_object(i) <==> !after.is_exposed(i) && forall|j: int|
                    #[trigger] after.reachable(j) ==> !after.uses(j, i)
            }),
    {
        let after = self.rewired(of, with);
        let i = of.object as int;
        self.lemma_rewired_wf(of, with);
        if after.reachable(i) {
            after.lemma_reachable_unfold(i);
        }
        if after.is_exposed(i) {
            after.lemma_exposed_reachable(i);
        }
        if exists|j: int| #[trigger] after.reachable(j) && after.uses(j, i) {
            let j = choose|j: int| #[trigger] after.reachable(j) && after.uses(j, i);
            after.lemma_reachable_uses(j, i);
        }
    }
}

/// The list of the input ports that nothing drives is empty exactly if every port is
/// driven.
pub proof fn lemma_undriven_upto<I>(instance: InstanceView<I>, n: int)
    requires
        0 <= n <= instance.operands.len(),
    ensures
        undriven_upto(instance, n).len() == 0 <==> forall|p: int|
            0 <= p < n ==> (#[trigger] instance.operands[p]) is Some,
    decreases n,
{
    if n > 0 {
        lemma_undriven_upto(instance, n - 1);
        if undriven_upto(instance, n).len() == 0 {
            assert(instance.operands[n - 1] is Some);
        }
    }
}

impl<I: Instantiable> Netlist<I> {
    /// The input ports of the instance in slot `i` that nothing drives.
    pub fn undriven_ports(&self, i: usize) -> (r: Vec<Net>)
        requires
            self@.wf(),
        ensures
            net_views(r@) == self@.undriven_ports(i as int),
    {
        let mut found: Vec<Net> = Vec::new();
        match self.get_object(i) {
            Some(Object::Instance(instance)) => {
                assert(self@.instance(i as int).operands.len() == self@.instance(
                    i as int,
                ).inputs.len());
                let mut p: usize = 0;
                while p < instance.operand_count()
                    invariant
                        p <= instance@.operands.len(),
                        instance@.operands.len() == instance@.inputs.len(),
                        net_views(found@) == undriven_upto(instance@, p as int),
                    decreases instance@.operands.len() - p,
                {
                    if instance.operand(p).is_none() {
                        let ghost before = net_views(found@);
                        found.push(instance.input_port(p).clone());
                        assert(net_views(found@) =~= before.push(instance@.inputs[p as int]));
                    }
                    p = p + 1;
                }
            },
            _ => {
                assert(net_views(found@) =~= Seq::empty());
            },
        }
        found
    }

    /// Moves every use of the signal `of`, by an input port or by an output, over to the
    /// signal `with`. Either every use moves or none does.
    ///
    /// A signal can take over the uses of another only once it is driven: while its
    /// instance has an input port that nothing drives, nothing is rewired, and the error
    /// names those ports. The instance that drove `of` stays in the netlist.
    pub fn replace_net_uses(&mut self, of: DrivenNet, with: &DrivenNet) -> (r: Result<(), Error>)
        requires
            old(self)@.wf(),
            old(self)@.is_net(of),
            old(self)@.is_net(*with),
        ensures
            final(self)@.wf(),
            match r {
                Ok(()) => {
                    &&& old(self)@.is_driven(with.object as int)
                    &&& final(self)@ == old(self)@.rewired(of, *with)
                },
                Err(e) => {
                    &&& !old(self)@.is_driven(with.object as int)
                    &&& e@ == ErrorView::DanglingReference(
                        old(self)@.undriven_ports(with.object as int),
                    )
                    &&& final(self)@ == old(self)@
                },
            },
    {
        let with = *with;
        let undriven = self.undriven_ports(with.object);
        proof {
            self@.lemma_undriven_ports(with.object as int);
        }
        if undriven.len() > 0 {
            return Err(Error::DanglingReference(undriven));
        }
        let ghost before = self@;
        let ghost target = before.rewired(of, with);
        let n = self.slot_count();
        let mut i: usize = 0;
        while i < n
            invariant
                i <= n,
                n == before.slots.len(),
                before == old(self)@,
                target == before.rewired(of, with),
                before.wf(),
                before.is_net(with),
                self@.wf(),
                self@.slots.len() == n,
                self@.name == before.name,
                self@.outputs == before.outputs,
                forall|net: DrivenNet| before.is_net(net) <==> self@.is_net(net),
                forall|j: int| 0 <= j < i ==> #[trigger] self@.slots[j] == target.slots[j],
                forall|j: int| i <= j < n ==> #[trigger] self@.slots[j] == before.slots[j],
            decreases n - i,
        {
            let ghost current = self@;
            let mut rewired: Option<Vec<Option<DrivenNet>>> = None;
            match self.get_object(i) {
                Some(Object::Instance(instance)) => {
                    let ghost operands = instance@.operands;
                    let mut bound: Vec<Option<DrivenNet>> = Vec::new();
                    let mut p: usize = 0;
                    while p < instance.operand_count()
                        invariant
                            p <= operands.len(),
                            operands == instance@.operands,
                            bound@ == swap_nets(operands, of, with).take(p as int),
                        decreases operands.len() - p,
                    {
                        let operand = instance.operand(p);
                        let moved = match operand {
                            Some(net) => if net == of {
                                Some(with)
                            } else {
                                operand
                            },
                            None => None,
                        };
                        bound.push(moved);
                        proof {
                            let all = swap_nets(operands, of, with);
                            assert(all.take(p + 1) =~= all.take(p as int).push(
                                swap_net(operands[p as int], of, with),
                            ));
                        }
                        p = p + 1;
                    }
                    proof {
                        assert(swap_nets(operands, of, with).take(operands.len() as int)
                            =~= swap_nets(operands, of, with));
                    }
                    rewired = Some(bound);
                },
                _ => {},
            }
            match rewired {
                Some(bound) => {
                    proof {
                        assert(current.slots[i as int] == before.slots[i as int]);
                        assert forall|p: int|
                            0 <= p < bound@.len() && (#[trigger] bound@[p]) is Some
                            implies current.is_net(bound@[p]->0) by {
                            if before.operands(i as int)[p] != Some(of) {
                                assert(before.operands(i as int)[p] is Some);
                                assert(before.is_net(before.operands(i as int)[p]->0));
                            }
                        }
                    }
                    self.set_operands(i, bound);
                    proof {
                        assert forall|j: int| 0 <= j < i + 1 implies #[trigger] self@.slots[j]
                            == target.slots[j] by {
                            if j < i {
                                assert(current.slots[j] == target.slots[j]);
                            }
                        }
                        assert forall|j: int| i + 1 <= j < n implies #[trigger] self@.slots[j]
                            == before.slots[j] by {
                            assert(current.slots[j] == before.slots[j]);
                        }
                    }
                },
                None => {
                    assert(self@.slots[i as int] == target.slots[i as int]);
                },
            }
            i = i + 1;
        }
        let mut k: usize = 0;
        while k < self.output_count()
            invariant
                k <= before.outputs.len(),
                before.wf(),
                before.is_net(with),
                target == before.rewired(of, with),
                self@.wf(),
                self@.name == before.name,
                self@.slots =~= target.slots,
                self@.outputs.len() == before.outputs.len(),
                forall|net: DrivenNet| before.is_net(net) <==> self@.is_net(net),
                forall|j: int| 0 <= j < k ==> #[trigger] self@.outputs[j] == target.outputs[j],
                forall|j: int|
                    k <= j < before.outputs.len() ==> #[trigger] self@.outputs[j]
                        == before.outputs[j],
            decreases before.outputs.len() - k,
        {
            let ghost current = self@;
            if self.get_exposed(k).get_driver() == of {
                self.set_output_driver(k, with);
                proof {
                    assert forall|net: DrivenNet| before.is_net(net) <==> self@.is_net(net) by {
                        assert(self@.slots == current.slots);
                    }
                }
            }
            k = k + 1;
        }
        proof {
            assert(self@.outputs =~= target.outputs);
            before.lemma_rewired_wf(of, with);
        }
        Ok(())
    }

    /// Moves every use of the signal `of` over to the signal `with`, as `replace_net_uses`
    /// does, for handles of which the caller does not know whether they are good. A handle
    /// that names no signal of this netlist is an error, and nothing is rewired.
    pub fn replace_net_uses_driven(&mut self, of: DrivenNet, with: &DrivenNet) -> (r: Result<
        (),
        Error,
    >)
        requires
            old(self)@.wf(),
        ensures
            final(self)@.wf(),
            match old(self)@.replace_error(of, *with) {
                Some(error) => r matches Err(e) && e@ == error && final(self)@ == old(self)@,
                None => r is Ok && final(self)@ == old(self)@.rewired(of, *with),
            },
    {
        if !self.is_net(of) {
            return Err(Error::NetNotFound(of.describe()));
        }
        if !self.is_net(*with) {
            return Err(Error::NetNotFound(with.describe()));
        }
        self.replace_net_uses(of, with)
    }

    /// The slots that drive the input ports of the object in slot `i`.
    fn used_objects(&self, i: usize) -> (r: Vec<usize>)
        requires
            self@.wf(),
        ensures
            forall|k: int| 0 <= k < r@.len() ==> (#[trigger] r@[k]) < self@.slots.len(),
            forall|d: int|
                self@.uses(i as int, d) <==> exists|k: int|
                    0 <= k < r@.len() && #[trigger] r@[k] == d,
    {
        let mut used: Vec<usize> = Vec::new();
        match self.get_object(i) {
            Some(Object::Instance(instance)) => {
                let ghost operands = self@.operands(i as int);
                let mut p: usize = 0;
                while p < instance.operand_count()
                    invariant
                        p <= operands.len(),
                        self@.wf(),
                        operands == self@.operands(i as int),
                        operands == instance@.operands,
                        forall|k: int| 0 <= k < used@.len() ==> (#[trigger] used@[k]) < self@.slots.len(),
                        forall|k: int|
                            0 <= k < used@.len() ==> self@.uses(i as int, (#[trigger] used@[k]) as int),
                        forall|q: int|
                            0 <= q < p && (#[trigger] operands[q]) is Some ==> exists|k: int|
                                0 <= k < used@.len() && #[trigger] used@[k] == operands[q]->0.object,
                    decreases operands.len() - p,
                {
                    match instance.operand(p) {
                        Some(net) => {
                            let ghost before = used@;
                            used.push(net.object);
                            proof {
                                assert(operands[p as int] is Some);
                                assert(self@.is_net(operands[p as int]->0));
                                assert(self@.uses(i as int, net.object as int));
                                assert forall|q: int|
                                    0 <= q < p + 1 && (#[trigger] operands[q]) is Some
                                    implies exists|k: int|
                                    0 <= k < used@.len() && #[trigger] used@[k]
                                        == operands[q]->0.object by {
                                    if q < p {
                                        let k = choose|k: int|
                                            0 <= k < before.len() && #[trigger] before[k]
                                                == operands[q]->0.object;
                                        assert(used@[k] == before[k]);
                                    } else {
                                        assert(used@[used@.len() - 1] == net.object);
                                    }
                                }
                            }
                        },
                        None => {},
                    }
                    p = p + 1;
                }
                proof {
                    assert forall|d: int| self@.uses(i as int, d) implies exists|k: int|
                        0 <= k < used@.len() && #[trigger] used@[k] == d by {
                        let q = choose|q: int|
                            0 <= q < operands.len() && (#[trigger] operands[q]) is Some
                                && operands[q]->0.object == d;
                        assert(operands[q] is Some);
                    }
                }
            },
            _ => {
                assert(self@.operands(i as int).len() == 0);
            },
        }
        used
    }

    /// The netlist as a graph. Node `i` stands for slot `i` and has an edge to each slot
    /// that drives one of its input ports; the roots are the slots of the signals that are
    /// exposed.
    pub fn dependency_graph(&self) -> (r: (Vec<Vec<usize>>, Vec<usize>))
        requires
            self@.wf(),
        ensures
            is_dependency_graph(self@, r.0.deep_view(), r.1@),
    {
        let n = self.slot_count();
        let mut adj: Vec<Vec<usize>> = Vec::new();
        let mut i: usize = 0;
        while i < n
            invariant
                i <= n,
                n == self@.slots.len(),
                self@.wf(),
                adj@.len() == i,
                forall|u: int, k: int|
                    0 <= u < i && 0 <= k < adj@[u]@.len() ==> (#[trigger] adj@[u]@[k]) < n,
                forall|u: int, d: int|
                    0 <= u < i ==> (#[trigger] self@.uses(u, d) <==> exists|k: int|
                        0 <= k < adj@[u]@.len() && #[trigger] adj@[u]@[k] == d),
            decreases n - i,
        {
            let used = self.used_objects(i);
            let ghost before = adj@;
            adj.push(used);
            proof {
                assert forall|u: int, d: int| 0 <= u < i + 1 implies (#[trigger] self@.uses(u, d)
                    <==> exists|k: int| 0 <= k < adj@[u]@.len() && #[trigger] adj@[u]@[k] == d) by {
                    if u < i {
                        assert(adj@[u] == before[u]);
                    } else {
                        assert(adj@[u] == used);
                    }
                }
            }
            i = i + 1;
        }
        let mut roots: Vec<usize> = Vec::new();
        let mut k: usize = 0;
        while k < self.output_count()
            invariant
                k <= self@.outputs.len(),
                n == self@.slots.len(),
                self@.wf(),
                forall|r: int| 0 <= r < roots@.len() ==> (#[trigger] roots@[r]) < n,
                roots@.len() == k,
                forall|r: int| 0 <= r < k ==> #[trigger] roots@[r] == self@.outputs[r].driver.object,
            decreases self@.outputs.len() - k,
        {
            let driver = self.get_exposed(k).get_driver();
            assert(self@.is_net(self@.outputs[k as int].driver));
            roots.push(driver.object);
            k = k + 1;
        }
        proof {
            let graph = adj.deep_view();
            assert(graph.len() == n);
            assert forall|u: int| 0 <= u < n implies #[trigger] graph[u] == adj@[u]@ by {}
            assert forall|u: int, d: int| #[trigger] is_edge(graph, u, d) <==> self@.uses(u, d) by {
                if 0 <= u < n {
                    assert(graph[u] == adj@[u]@);
                } else {
                    assert(self@.operands(u).len() == 0);
                }
            }
            assert forall|v: int| #[trigger] is_root(roots@, v) <==> self@.is_exposed(v) by {
                if is_root(roots@, v) {
                    let r = choose|r: int| 0 <= r < roots@.len() && #[trigger] roots@[r] == v;
                    assert(self@.outputs[r].driver.object == v);
                }
                if self@.is_exposed(v) {
                    let r = choose|r: int|
                        0 <= r < self@.outputs.len() && (#[trigger] self@.outputs[r]).driver.object
                            == v;
                    assert(roots@[r] == v);
                }
            }
            assert(is_graph(graph)) by {
                assert forall|u: int, k: int|
                    0 <= u < graph.len() && 0 <= k < graph[u].len() implies (#[trigger] graph[u][k])
                    < graph.len() by {
                    assert(graph[u] == adj@[u]@);
                    assert(adj@[u]@[k] < n);
                }
            }
        }
        (adj, roots)
    }

    /// Removes every instance that no output depends on, and returns whether there was
    /// any. Every input stays, and every object that stays is as it was.
    pub fn clean(&mut self) -> (r: bool)
        requires
            old(self)@.wf(),
        ensures
            final(self)@.wf(),
            final(self)@ == old(self)@.cleaned(),
            r == old(self)@.has_dead_instance(),
    {
        let (adj, roots) = self.dependency_graph();
        let marks = reachable_from(&adj, &roots);
        let n = self.slot_count();
        let mut keep: Vec<bool> = Vec::new();
        let mut i: usize = 0;
        while i < n
            invariant
                i <= n,
                n == self@.slots.len(),
                marks@.len() == n,
                self@ == old(self)@,
                self@.wf(),
                is_dependency_graph(self@, adj.deep_view(), roots@),
                forall|v: int|
                    0 <= v < n ==> (#[trigger] marks@[v] <==> reachable(
                        adj.deep_view(),
                        roots@,
                        v,
                    )),
                keep@.len() == i,
                forall|v: int| 0 <= v < i ==> #[trigger] keep@[v] == self@.keeps(v),
            decreases n - i,
        {
            let input = match self.get_object(i) {
                Some(Object::Input(_)) => true,
                _ => false,
            };
            proof {
                lemma_dependency_graph(self@, adj.deep_view(), roots@, i as int);
            }
            keep.push(marks[i] || input);
            i = i + 1;
        }
        let removed = self.retain_objects(&keep);
        proof {
            let before = old(self)@;
            assert(before.retain(keep@).slots =~= before.cleaned().slots);
            before.lemma_cleaned_wf();
            if removed {
                let v = choose|v: int| before.is_object(v) && !keep@[v];
                assert(before.is_instance(v) && !before.reachable(v));
            }
            if before.has_dead_instance() {
                let v = choose|v: int| before.is_instance(v) && !before.reachable(v);
                assert(before.is_object(v) && !keep@[v]);
            }
        }
        removed
    }
}

/// An output of a netlist depends on an object exactly if the object can be reached from
/// a root in the graph that stands for the netlist.
pub proof fn lemma_dependency_graph<I>(
    netlist: NetlistView<I>,
    adj: Seq<Seq<usize>>,
    roots: Seq<usize>,
    i: int,
)
    requires
        netlist.wf(),
        is_dependency_graph(netlist, adj, roots),
    ensures
        netlist.reachable(i) <==> reachable(adj, roots, i),
{
    if netlist.reachable(i) {
        let chain = choose|chain: Seq<int>|
            #[trigger] netlist.is_chain(chain) && netlist.is_exposed(chain[0]) && chain.last()
                == i;
        assert forall|k: int| 0 <= k < chain.len() implies 0 <= #[trigger] chain[k]
            < adj.len() by {
            netlist.lemma_chain_prefix(chain, k);
            netlist.lemma_reachable_is_object(chain[k]);
        }
        assert forall|k: int| 0 <= k < chain.len() - 1 implies is_edge(
            adj,
            #[trigger] chain[k],
            chain[k + 1],
        ) by {
            assert(netlist.uses(chain[k], chain[k + 1]));
        }
        assert(is_walk(adj, chain));
        assert(is_root(roots, chain[0]));
    }
    if reachable(adj, roots, i) {
        let walk = choose|walk: Seq<int>|
            #[trigger] is_walk(adj, walk) && is_root(roots, walk[0]) && walk.last() == i;
        assert forall|k: int| 0 <= k < walk.len() - 1 implies netlist.uses(
            #[trigger] walk[k],
            walk[k + 1],
        ) by {
            assert(is_edge(adj, walk[k], walk[k + 1]));
        }
        assert(netlist.is_chain(walk));
        assert(netlist.is_exposed(walk[0]));
    }
}

} // verus!
