//! The netlist: the owner of inputs, instances and exposed outputs.
//!
//! A netlist keeps its objects in slots that are numbered in the order of insertion. A
//! slot is never used twice: an instance that is removed leaves its slot empty. What a
//! caller holds of a netlist are handles that name a slot, and a port of it. A handle stays
//! good for as long as its object is in the netlist.

use vstd::prelude::*;

use crate::attribute::{
    attribute_views, put_attribute, put_key, remove_attribute, remove_key, text_view,
    value_of_key, Attribute, AttributeView,
};
use crate::circuit::{bit_name, net_views, Identifier, IdentifierView, Instantiable, Net};
use crate::error::{Error, ErrorView};
use crate::logic::Logic;
use crate::text::{decimal, decimal_digits};
use vstd::string::StringExecFns;

pub use crate::gate::Gate;

verus! {

/// A handle to a signal that is driven: the output `port` of the object in slot `object`.
/// An input has the one output 0.
#[derive(Clone, Copy, Debug, PartialEq, Eq, Hash, Structural)]
pub struct DrivenNet {
    pub object: usize,
    pub port: usize,
}

impl DrivenNet {
    /// The name that stands for the handle where it names no signal: `net`, the slot and
    /// the port, joined by underscores.
    pub open spec fn name(self) -> IdentifierView {
        IdentifierView::parse(
            "net_"@ + decimal_digits(self.object as nat) + "_"@ + decimal_digits(self.port as nat),
        )
    }

    /// A net that stands for the handle where it names no signal.
    pub fn describe(&self) -> (r: Net)
        ensures
            r@ == self.name(),
    {
        let mut text = String::from_str("net_");
        text.append(decimal(self.object).as_str());
        text.append("_");
        text.append(decimal(self.port).as_str());
        Net::new_logic(Identifier::new(text))
    }
}

/// A handle to the input `port` of the instance in slot `object`.
#[derive(Clone, Copy, Debug, PartialEq, Eq, Hash, Structural)]
pub struct InputPort {
    pub object: usize,
    pub port: usize,
}

/// A handle to the object in slot `object`.
#[derive(Clone, Copy, Debug, PartialEq, Eq, Hash, Structural)]
pub struct NetRef {
    pub object: usize,
}

/// What an instance holds: its cell, its name, the names of its ports as they were when
/// the cell was placed, the driver of each input port, and its attributes.
pub struct InstanceView<I> {
    pub cell: I,
    pub id: IdentifierView,
    pub inputs: Seq<IdentifierView>,
    pub outputs: Seq<IdentifierView>,
    pub operands: Seq<Option<DrivenNet>>,
    pub attributes: Seq<AttributeView>,
}

/// What an object of a netlist is: a boundary input with its name, or an instance.
pub enum ObjectView<I> {
    Input(IdentifierView),
    Instance(InstanceView<I>),
}

/// What an output of a netlist is: a driven net, and the name under which it is exposed.
pub struct OutputView {
    pub driver: DrivenNet,
    pub name: IdentifierView,
}

/// What a netlist holds: its name, its slots in the order of insertion, and its outputs in
/// the order of exposure.
pub struct NetlistView<I> {
    pub name: Seq<char>,
    pub slots: Seq<Option<ObjectView<I>>>,
    pub outputs: Seq<OutputView>,
}

impl<I> InstanceView<I> {
    /// The name of the net that the output `port` drives: the name of the instance joined
    /// with the name of the port.
    pub open spec fn output_name(self, port: int) -> IdentifierView {
        self.id.concat(self.outputs[port])
    }
}

impl<I> NetlistView<I> {
    /// Whether slot `i` holds an object.
    pub open spec fn is_object(self, i: int) -> bool {
        0 <= i < self.slots.len() && self.slots[i] is Some
    }

    /// The object in slot `i`.
    pub open spec fn object(self, i: int) -> ObjectView<I> {
        self.slots[i]->0
    }

    /// Whether slot `i` holds an input.
    pub open spec fn is_input(self, i: int) -> bool {
        self.is_object(i) && self.object(i) is Input
    }

    /// Whether slot `i` holds an instance.
    pub open spec fn is_instance(self, i: int) -> bool {
        self.is_object(i) && self.object(i) is Instance
    }

    /// The instance in slot `i`.
    pub open spec fn instance(self, i: int) -> InstanceView<I> {
        self.object(i)->Instance_0
    }

    /// The drivers of the input ports of the object in slot `i`. Only an instance has
    /// input ports.
    pub open spec fn operands(self, i: int) -> Seq<Option<DrivenNet>> {
        if self.is_instance(i) {
            self.instance(i).operands
        } else {
            Seq::empty()
        }
    }

    /// The number of signals that the object in slot `i` drives: one for an input, one for
    /// each output port of an instance.
    pub open spec fn output_count(self, i: int) -> nat {
        if self.is_input(i) {
            1
        } else if self.is_instance(i) {
            self.instance(i).outputs.len()
        } else {
            0
        }
    }

    /// Whether the handle names a signal of this netlist.
    pub open spec fn is_net(self, net: DrivenNet) -> bool {
        net.port < self.output_count(net.object as int)
    }

    /// Whether the handle names an input port of this netlist.
    pub open spec fn is_port(self, port: InputPort) -> bool {
        port.port < self.operands(port.object as int).len()
    }

    /// The name of a signal: the name of the input, or the name of the instance joined
    /// with the name of the output port.
    pub open spec fn net_name(self, net: DrivenNet) -> IdentifierView {
        match self.object(net.object as int) {
            ObjectView::Input(name) => name,
            ObjectView::Instance(instance) => instance.output_name(net.port as int),
        }
    }

    /// The invariant of a netlist: every instance has one operand for each of its input
    /// ports, and every operand that is connected, and every output, names a signal of
    /// this netlist.
    pub open spec fn wf(self) -> bool {
        &&& forall|i: int|
            self.is_instance(i) ==> (#[trigger] self.instance(i)).operands.len()
                == self.instance(i).inputs.len()
        &&& forall|i: int, p: int|
            0 <= p < self.operands(i).len() && (#[trigger] self.operands(i)[p]) is Some
                ==> self.is_net(self.operands(i)[p]->0)
        &&& forall|k: int|
            0 <= k < self.outputs.len() ==> self.is_net((#[trigger] self.outputs[k]).driver)
    }

    /// The netlist with one more object in a new slot at the end.
    pub open spec fn push_object(self, object: ObjectView<I>) -> NetlistView<I> {
        NetlistView { slots: self.slots.push(Some(object)), ..self }
    }

    /// The netlist with the object in slot `i` replaced.
    pub open spec fn set_object(self, i: int, object: ObjectView<I>) -> NetlistView<I> {
        NetlistView { slots: self.slots.update(i, Some(object)), ..self }
    }

    /// The netlist with one more output at the end.
    pub open spec fn push_output(self, output: OutputView) -> NetlistView<I> {
        NetlistView { outputs: self.outputs.push(output), ..self }
    }

    /// A netlist without objects.
    pub open spec fn empty(name: Seq<char>) -> NetlistView<I> {
        NetlistView { name, slots: Seq::empty(), outputs: Seq::empty() }
    }

    /// Whether an object can be added to the netlist: an instance has one operand for each
    /// of its input ports, and its operands name signals of the netlist.
    pub open spec fn admits(self, object: ObjectView<I>) -> bool {
        object is Instance ==> {
            let instance = object->Instance_0;
            &&& instance.operands.len() == instance.inputs.len()
            &&& forall|p: int|
                0 <= p < instance.operands.len() && (#[trigger] instance.operands[p]) is Some
                    ==> self.is_net(instance.operands[p]->0)
        }
    }

    /// Adding an object keeps the invariant, and every handle stays good.
    pub proof fn lemma_push_object(self, object: ObjectView<I>)
        requires
            self.wf(),
            self.admits(object),
        ensures
            self.push_object(object).wf(),
            forall|net: DrivenNet| self.is_net(net) ==> self.push_object(object).is_net(net),
            forall|port: InputPort| self.is_port(port) ==> self.push_object(object).is_port(port),
    {
        let after = self.push_object(object);
        assert forall|i: int| 0 <= i < self.slots.len() implies after.slots[i] == self.slots[i] by {}
        assert forall|net: DrivenNet| self.is_net(net) implies after.is_net(net) by {
            assert(after.slots[net.object as int] == self.slots[net.object as int]);
        }
        assert forall|i: int, p: int|
            0 <= p < after.operands(i).len() && (#[trigger] after.operands(i)[p]) is Some
            implies after.is_net(after.operands(i)[p]->0) by {
            if i < self.slots.len() {
                assert(after.slots[i] == self.slots[i]);
                assert(self.operands(i)[p] is Some);
            }
        }
        assert forall|i: int| after.is_instance(i) implies (#[trigger] after.instance(
            i,
        )).operands.len() == after.instance(i).inputs.len() by {
            if i < self.slots.len() {
                assert(after.slots[i] == self.slots[i]);
                assert(self.instance(i).operands.len() == self.instance(i).inputs.len());
            }
        }
        assert forall|k: int| 0 <= k < after.outputs.len() implies after.is_net(
            (#[trigger] after.outputs[k]).driver,
        ) by {
            assert(self.is_net(self.outputs[k].driver));
        }
    }

    /// Exposing a signal of the netlist keeps the invariant.
    pub proof fn lemma_push_output(self, output: OutputView)
        requires
            self.wf(),
            self.is_net(output.driver),
        ensures
            self.push_output(output).wf(),
    {
        let after = self.push_output(output);
        assert forall|i: int, p: int|
            0 <= p < after.operands(i).len() && (#[trigger] after.operands(i)[p]) is Some
            implies after.is_net(after.operands(i)[p]->0) by {
            assert(self.operands(i)[p] is Some);
        }
        assert forall|i: int| after.is_instance(i) implies (#[trigger] after.instance(
            i,
        )).operands.len() == after.instance(i).inputs.len() by {
            assert(self.instance(i).operands.len() == self.instance(i).inputs.len());
        }
        assert forall|k: int| 0 <= k < after.outputs.len() implies after.is_net(
            (#[trigger] after.outputs[k]).driver,
        ) by {
            if k < self.outputs.len() {
                assert(self.is_net(self.outputs[k].driver));
            }
        }
    }
}

impl<I> NetlistView<I> {
    /// The netlist with the instance in slot `i` replaced.
    pub open spec fn set_instance(self, i: int, instance: InstanceView<I>) -> NetlistView<I> {
        self.set_object(i, ObjectView::Instance(instance))
    }

    /// The netlist with the input port `port` driven by `operand`, or by nothing.
    pub open spec fn with_operand(self, port: InputPort, operand: Option<DrivenNet>) -> NetlistView<
        I,
    > {
        let instance = self.instance(port.object as int);
        self.set_instance(
            port.object as int,
            InstanceView { operands: instance.operands.update(port.port as int, operand), ..instance },
        )
    }

    /// The netlist with the attributes of the instance in slot `i` replaced.
    pub open spec fn with_attributes(self, i: int, attributes: Seq<AttributeView>) -> NetlistView<
        I,
    > {
        self.set_instance(i, InstanceView { attributes, ..self.instance(i) })
    }

    /// The netlist with the cell of the instance in slot `i` replaced.
    pub open spec fn with_cell(self, i: int, cell: I) -> NetlistView<I> {
        self.set_instance(i, InstanceView { cell, ..self.instance(i) })
    }

    /// The netlist with the output `k` driven by `driver`.
    pub open spec fn with_output_driver(self, k: int, driver: DrivenNet) -> NetlistView<I> {
        NetlistView {
            outputs: self.outputs.update(k, OutputView { driver, ..self.outputs[k] }),
            ..self
        }
    }

    /// Replacing an instance by one with as many output ports, whose operands name signals
    /// of the netlist, keeps the invariant, and every handle stays good.
    pub proof fn lemma_set_instance(self, i: int, instance: InstanceView<I>)
        requires
            self.wf(),
            self.is_instance(i),
            instance.outputs.len() == self.instance(i).outputs.len(),
            self.admits(ObjectView::Instance(instance)),
        ensures
            self.set_instance(i, instance).wf(),
            forall|net: DrivenNet| self.is_net(net) <==> self.set_instance(i, instance).is_net(net),
            forall|j: int| self.is_object(j) <==> self.set_instance(i, instance).is_object(j),
            forall|j: int| self.is_instance(j) <==> self.set_instance(i, instance).is_instance(j),
            forall|j: int|
                0 <= j < self.slots.len() && j != i ==> self.set_instance(i, instance).slots[j]
                    == self.slots[j],
    {
        let after = self.set_instance(i, instance);
        assert forall|net: DrivenNet| self.is_net(net) <==> after.is_net(net) by {
            if net.object as int != i && 0 <= net.object < self.slots.len() {
                assert(after.slots[net.object as int] == self.slots[net.object as int]);
            }
        }
        assert forall|j: int, p: int|
            0 <= p < after.operands(j).len() && (#[trigger] after.operands(j)[p]) is Some
            implies after.is_net(after.operands(j)[p]->0) by {
            if j != i {
                assert(after.slots[j] == self.slots[j]);
                assert(self.operands(j)[p] is Some);
                assert(self.is_net(self.operands(j)[p]->0));
            } else {
                assert(instance.operands[p] is Some);
                assert(self.is_net(instance.operands[p]->0));
            }
        }
        assert forall|j: int| after.is_instance(j) implies (#[trigger] after.instance(
            j,
        )).operands.len() == after.instance(j).inputs.len() by {
            if j != i {
                assert(after.slots[j] == self.slots[j]);
                assert(self.instance(j).operands.len() == self.instance(j).inputs.len());
            }
        }
        assert forall|k: int| 0 <= k < after.outputs.len() implies after.is_net(
            (#[trigger] after.outputs[k]).driver,
        ) by {
            assert(self.is_net(self.outputs[k].driver));
        }
    }

    /// The attributes and the cell of an instance have no part in the invariant.
    pub proof fn lemma_with_attributes_and_cell(
        self,
        i: int,
        attributes: Seq<AttributeView>,
        cell: I,
    )
        requires
            self.wf(),
            self.is_instance(i),
        ensures
            self.with_attributes(i, attributes).wf(),
            self.with_cell(i, cell).wf(),
    {
        assert(self.instance(i).operands.len() == self.instance(i).inputs.len());
        assert forall|p: int|
            0 <= p < self.instance(i).operands.len() && (#[trigger] self.instance(
                i,
            ).operands[p]) is Some implies self.is_net(self.instance(i).operands[p]->0) by {
            assert(self.operands(i)[p] is Some);
        }
        self.lemma_set_instance(i, InstanceView { attributes, ..self.instance(i) });
        self.lemma_set_instance(i, InstanceView { cell, ..self.instance(i) });
    }

    /// Pointing an output at another signal of the netlist keeps the invariant.
    pub proof fn lemma_with_output_driver(self, k: int, driver: DrivenNet)
        requires
            self.wf(),
            0 <= k < self.outputs.len(),
            self.is_net(driver),
        ensures
            self.with_output_driver(k, driver).wf(),
    {
        let after = self.with_output_driver(k, driver);
        assert forall|j: int, p: int|
            0 <= p < after.operands(j).len() && (#[trigger] after.operands(j)[p]) is Some
            implies after.is_net(after.operands(j)[p]->0) by {
            assert(self.operands(j)[p] is Some);
        }
        assert forall|j: int| after.is_instance(j) implies (#[trigger] after.instance(
            j,
        )).operands.len() == after.instance(j).inputs.len() by {
            assert(self.instance(j).operands.len() == self.instance(j).inputs.len());
        }
        assert forall|j: int| 0 <= j < after.outputs.len() implies after.is_net(
            (#[trigger] after.outputs[j]).driver,
        ) by {
            if j != k {
                assert(self.is_net(self.outputs[j].driver));
            }
        }
    }
}

impl<I> NetlistView<I> {
    /// The handles to the objects in the first `n` slots, in the order of insertion.
    pub open spec fn objects_upto(self, n: int) -> Seq<NetRef>
        decreases n,
    {
        if n <= 0 {
            Seq::empty()
        } else if self.is_object(n - 1) {
            self.objects_upto(n - 1).push(NetRef { object: (n - 1) as usize })
        } else {
            self.objects_upto(n - 1)
        }
    }

    /// The handles to the objects of the netlist, in the order of insertion.
    pub open spec fn objects(self) -> Seq<NetRef> {
        self.objects_upto(self.slots.len() as int)
    }

    /// The handles to the signals of the inputs in the first `n` slots, in the order of
    /// insertion.
    pub open spec fn inputs_upto(self, n: int) -> Seq<DrivenNet>
        decreases n,
    {
        if n <= 0 {
            Seq::empty()
        } else if self.is_input(n - 1) {
            self.inputs_upto(n - 1).push(DrivenNet { object: (n - 1) as usize, port: 0 })
        } else {
            self.inputs_upto(n - 1)
        }
    }

    /// The handles to the signals of the inputs of the netlist, in the order of insertion.
    pub open spec fn inputs(self) -> Seq<DrivenNet> {
        self.inputs_upto(self.slots.len() as int)
    }

    /// Whether the output `k` goes by the name `name`: it is exposed under that name, or
    /// the signal that it exposes has that name.
    pub open spec fn output_named(self, k: int, name: IdentifierView) -> bool {
        self.outputs[k].name == name || self.net_name(self.outputs[k].driver) == name
    }

    /// The netlist without the objects that `keep` does not keep: their slots are empty.
    pub open spec fn retain(self, keep: Seq<bool>) -> NetlistView<I> {
        NetlistView {
            slots: Seq::new(
                self.slots.len(),
                |i: int|
                    if keep[i] {
                        self.slots[i]
                    } else {
                        None
                    },
            ),
            ..self
        }
    }

    /// Every handle in the list of objects names an object, and every object is in the
    /// list.
    pub proof fn lemma_objects_upto(self, n: int)
        requires
            0 <= n <= self.slots.len() <= usize::MAX,
        ensures
            forall|k: int|
                0 <= k < self.objects_upto(n).len() ==> self.is_object(
                    (#[trigger] self.objects_upto(n)[k]).object as int,
                ) && self.objects_upto(n)[k].object < n,
            forall|i: int|
                0 <= i < n && self.is_object(i) ==> self.objects_upto(n).contains(
                    NetRef { object: i as usize },
                ),
            forall|j: int, k: int|
                0 <= j < k < self.objects_upto(n).len() ==> self.objects_upto(n)[j].object
                    < self.objects_upto(n)[k].object,
        decreases n,
    {
        if n > 0 {
            self.lemma_objects_upto(n - 1);
            let before = self.objects_upto(n - 1);
            let now = self.objects_upto(n);
            assert forall|i: int| 0 <= i < n && self.is_object(i) implies now.contains(
                NetRef { object: i as usize },
            ) by {
                if i < n - 1 {
                    let k = choose|k: int|
                        0 <= k < before.len() && before[k] == (NetRef { object: i as usize });
                    assert(now[k] == before[k]);
                } else {
                    assert(now[now.len() - 1] == (NetRef { object: i as usize }));
                }
            }
        }
    }
}

impl<I> NetlistView<I> {
    /// The names that stand for those of the first `n` handles that name no signal of the
    /// netlist, in order.
    pub open spec fn dangling(self, nets: Seq<DrivenNet>, n: int) -> Seq<IdentifierView>
        decreases n,
    {
        if n <= 0 {
            Seq::empty()
        } else if self.is_net(nets[n - 1]) {
            self.dangling(nets, n - 1)
        } else {
            self.dangling(nets, n - 1).push(nets[n - 1].name())
        }
    }

    /// No handle dangles exactly if every handle names a signal of the netlist.
    pub proof fn lemma_dangling(self, nets: Seq<DrivenNet>, n: int)
        requires
            0 <= n <= nets.len(),
        ensures
            self.dangling(nets, n).len() == 0 <==> forall|k: int|
                0 <= k < n ==> self.is_net(#[trigger] nets[k]),
        decreases n,
    {
        if n > 0 {
            self.lemma_dangling(nets, n - 1);
            if self.dangling(nets, n).len() == 0 {
                assert(self.is_net(nets[n - 1]));
            }
        }
    }
}

impl<I: Instantiable> NetlistView<I> {
    /// Why an instance of `cell` cannot be added with its input ports connected to
    /// `operands`, if it cannot: the number of operands is not the number of input ports,
    /// or an operand names no signal of the netlist.
    pub open spec fn insert_error(self, cell: I, operands: Seq<DrivenNet>) -> Option<ErrorView> {
        if operands.len() != cell.input_ports().len() {
            Some(
                ErrorView::ArgumentMismatch(
                    cell.input_ports().len() as usize,
                    operands.len() as usize,
                ),
            )
        } else if self.dangling(operands, operands.len() as int).len() > 0 {
            Some(ErrorView::DanglingReference(self.dangling(operands, operands.len() as int)))
        } else {
            None
        }
    }
}

impl<I: Instantiable> InstanceView<I> {
    /// The instance that comes of placing `cell` under the name `id`: it takes its ports
    /// from the cell and has no attributes.
    pub open spec fn placed(cell: I, id: IdentifierView, operands: Seq<Option<DrivenNet>>) -> InstanceView<I> {
        InstanceView {
            cell,
            id,
            inputs: cell.input_ports(),
            outputs: cell.output_ports(),
            operands,
            attributes: Seq::empty(),
        }
    }
}

/// The operands of an instance whose input ports are all connected, each to one of `nets`.
pub open spec fn connected(nets: Seq<DrivenNet>) -> Seq<Option<DrivenNet>> {
    nets.map_values(|net: DrivenNet| Some(net))
}

/// The message of the error that says that there is no cell to drive `value`.
pub open spec fn unsupported_constant(value: Logic) -> Seq<char> {
    "Instantiable type does not support constant value "@ + value.literal()
}

/// The inputs that stand for the bits of the bus `name`, one slot for each bit.
pub open spec fn bus_inputs<I>(name: Seq<char>, width: nat) -> Seq<Option<ObjectView<I>>> {
    Seq::new(
        width,
        |k: int| Some(ObjectView::Input(IdentifierView::parse(bit_name(name, k as nat)))),
    )
}

/// The operands of an instance with `n` input ports of which none is connected.
pub open spec fn disconnected(n: nat) -> Seq<Option<DrivenNet>> {
    Seq::new(n, |p: int| None)
}

/// An instance of a cell in a netlist.
pub struct Instance<I> {
    cell: I,
    id: Identifier,
    inputs: Vec<Net>,
    outputs: Vec<Net>,
    operands: Vec<Option<DrivenNet>>,
    attributes: Vec<Attribute>,
}

impl<I> View for Instance<I> {
    type V = InstanceView<I>;

    closed spec fn view(&self) -> InstanceView<I> {
        InstanceView {
            cell: self.cell,
            id: self.id@,
            inputs: net_views(self.inputs@),
            outputs: net_views(self.outputs@),
            operands: self.operands@,
            attributes: attribute_views(self.attributes@),
        }
    }
}

impl<I> Instance<I> {
    /// The cell of the instance.
    pub fn get_instance_type(&self) -> (r: &I)
        ensures
            *r == self@.cell,
    {
        &self.cell
    }

    /// The name of the instance.
    pub fn get_instance_name(&self) -> (r: &Identifier)
        ensures
            r@ == self@.id,
    {
        &self.id
    }

    /// The number of input ports.
    pub fn input_count(&self) -> (r: usize)
        ensures
            r == self@.inputs.len(),
    {
        self.inputs.len()
    }

    /// The number of output ports.
    pub fn output_count(&self) -> (r: usize)
        ensures
            r == self@.outputs.len(),
    {
        self.outputs.len()
    }

    /// The number of operands.
    pub fn operand_count(&self) -> (r: usize)
        ensures
            r == self@.operands.len(),
    {
        self.operands.len()
    }

    /// The input port `port`.
    pub fn input_port(&self, port: usize) -> (r: &Net)
        requires
            port < self@.inputs.len(),
        ensures
            r@ == self@.inputs[port as int],
    {
        &self.inputs[port]
    }

    /// The output port `port`.
    pub fn output_port(&self, port: usize) -> (r: &Net)
        requires
            port < self@.outputs.len(),
        ensures
            r@ == self@.outputs[port as int],
    {
        &self.outputs[port]
    }

    /// The driver of the input port `port`, if the port is connected.
    pub fn operand(&self, port: usize) -> (r: Option<DrivenNet>)
        requires
            port < self@.operands.len(),
        ensures
            r == self@.operands[port as int],
    {
        self.operands[port]
    }

    /// The attributes of the instance.
    pub fn get_attributes(&self) -> (r: &Vec<Attribute>)
        ensures
            attribute_views(r@) == self@.attributes,
    {
        &self.attributes
    }
}

/// An object of a netlist: a boundary input, or an instance of a cell.
pub enum Object<I> {
    /// A boundary input, with the net that it drives.
    Input(Net),
    /// An instance of a cell.
    Instance(Instance<I>),
}

impl<I> View for Object<I> {
    type V = ObjectView<I>;

    open spec fn view(&self) -> ObjectView<I> {
        match self {
            Object::Input(net) => ObjectView::Input(net@),
            Object::Instance(instance) => ObjectView::Instance(instance@),
        }
    }
}

/// An exposed output of a netlist.
pub struct Output {
    driver: DrivenNet,
    name: Identifier,
}

impl View for Output {
    type V = OutputView;

    closed spec fn view(&self) -> OutputView {
        OutputView { driver: self.driver, name: self.name@ }
    }
}

impl Output {
    /// The signal that is exposed.
    pub fn get_driver(&self) -> (r: DrivenNet)
        ensures
            r == self@.driver,
    {
        self.driver
    }

    /// The name under which the signal is exposed.
    pub fn get_name(&self) -> (r: &Identifier)
        ensures
            r@ == self@.name,
    {
        &self.name
    }
}

/// What a slot holds.
pub open spec fn slot_view<I>(slot: Option<Object<I>>) -> Option<ObjectView<I>> {
    match slot {
        Some(object) => Some(object@),
        None => None,
    }
}

/// A netlist of cells of the family `I`.
pub struct Netlist<I: Instantiable> {
    name: String,
    slots: Vec<Option<Object<I>>>,
    outputs: Vec<Output>,
}

/// A netlist of primitive gates.
pub type GateNetlist = Netlist<Gate>;

impl<I: Instantiable> View for Netlist<I> {
    type V = NetlistView<I>;

    closed spec fn view(&self) -> NetlistView<I> {
        NetlistView {
            name: self.name@,
            slots: slot_views(self.slots@),
            outputs: self.outputs@.map_values(|output: Output| output@),
        }
    }
}

/// What a sequence of slots holds.
pub open spec fn slot_views<I>(slots: Seq<Option<Object<I>>>) -> Seq<Option<ObjectView<I>>> {
    slots.map_values(|slot: Option<Object<I>>| slot_view(slot))
}

impl<I: Instantiable> Netlist<I> {
    /// Creates an empty netlist with the given name.
    pub fn new(name: String) -> (r: Netlist<I>)
        ensures
            r@ == NetlistView::<I>::empty(name@),
            r@.wf(),
    {
        let r = Netlist { name, slots: Vec::new(), outputs: Vec::new() };
        proof {
            assert(r@.slots =~= Seq::empty());
            assert(r@.outputs =~= Seq::empty());
        }
        r
    }

    /// The name of the netlist.
    pub fn get_name(&self) -> (r: &String)
        ensures
            r@ == self@.name,
    {
        &self.name
    }

    /// The number of slots: the number of objects that were ever inserted.
    pub fn slot_count(&self) -> (r: usize)
        ensures
            r == self@.slots.len(),
    {
        self.slots.len()
    }

    /// The object in slot `i`, if the slot holds one.
    pub fn get_object(&self, i: usize) -> (r: Option<&Object<I>>)
        ensures
            match r {
                Some(object) => self@.is_object(i as int) && object@ == self@.object(i as int),
                None => !self@.is_object(i as int),
            },
    {
        if i < self.slots.len() {
            self.slots[i].as_ref()
        } else {
            None
        }
    }

    /// Whether the handle names a signal of this netlist.
    pub fn is_net(&self, net: DrivenNet) -> (r: bool)
        ensures
            r == self@.is_net(net),
    {
        match self.get_object(net.object) {
            Some(Object::Input(_)) => net.port == 0,
            Some(Object::Instance(instance)) => net.port < instance.output_count(),
            None => false,
        }
    }

    /// Whether the handle names an input port of this netlist.
    pub fn is_port(&self, port: InputPort) -> (r: bool)
        ensures
            r == self@.is_port(port),
    {
        match self.get_object(port.object) {
            Some(Object::Instance(instance)) => port.port < instance.operand_count(),
            _ => false,
        }
    }

    /// Whether the handle names an object of this netlist.
    pub fn is_object(&self, object: NetRef) -> (r: bool)
        ensures
            r == self@.is_object(object.object as int),
    {
        self.get_object(object.object).is_some()
    }

    /// Whether the handle names an instance of this netlist.
    pub fn is_instance(&self, object: NetRef) -> (r: bool)
        ensures
            r == self@.is_instance(object.object as int),
    {
        match self.get_object(object.object) {
            Some(Object::Instance(_)) => true,
            _ => false,
        }
    }

    fn push_object(&mut self, object: Object<I>) -> (r: usize)
        requires
            old(self)@.wf(),
            old(self)@.admits(object@),
        ensures
            final(self)@ == old(self)@.push_object(object@),
            final(self)@.wf(),
            r == old(self)@.slots.len(),
            forall|net: DrivenNet| old(self)@.is_net(net) ==> final(self)@.is_net(net),
            forall|port: InputPort| old(self)@.is_port(port) ==> final(self)@.is_port(port),
    {
        let slot = self.slots.len();
        self.slots.push(Some(object));
        proof {
            assert(self@.slots =~= old(self)@.slots.push(Some(object@)));
            old(self)@.lemma_push_object(object@);
        }
        slot
    }

    /// Adds a boundary input that drives `net`, and returns the handle to its signal.
    pub fn insert_input(&mut self, net: Net) -> (r: DrivenNet)
        requires
            old(self)@.wf(),
        ensures
            final(self)@ == old(self)@.push_object(ObjectView::Input(net@)),
            final(self)@.wf(),
            r.object == old(self)@.slots.len(),
            r.port == 0,
            final(self)@.is_net(r),
    {
        let object = self.push_object(Object::Input(net));
        DrivenNet { object, port: 0 }
    }

    /// The nets that stand for the handles among `nets` that name no signal of this
    /// netlist, in order.
    pub fn dangling_nets(&self, nets: &[DrivenNet]) -> (r: Vec<Net>)
        ensures
            net_views(r@) == self@.dangling(nets@, nets@.len() as int),
    {
        let mut found: Vec<Net> = Vec::new();
        let mut k: usize = 0;
        proof {
            assert(net_views(found@) =~= self@.dangling(nets@, 0));
        }
        while k < nets.len()
            invariant
                k <= nets@.len(),
                net_views(found@) == self@.dangling(nets@, k as int),
            decreases nets@.len() - k,
        {
            if !self.is_net(nets[k]) {
                let ghost before = net_views(found@);
                found.push(nets[k].describe());
                assert(net_views(found@) =~= before.push(nets@[k as int].name()));
            }
            k = k + 1;
        }
        found
    }

    /// Adds an instance of `cell` under the name `id`, with its input ports connected to
    /// `operands` in order. The number of operands has to be the number of input ports of
    /// the cell, and every operand has to name a signal of this netlist: otherwise nothing
    /// is added. The number is looked at first. The names of the instances of a netlist
    /// are not compared here.
    pub fn insert_gate(&mut self, cell: I, id: Identifier, operands: &[DrivenNet]) -> (r: Result<
        NetRef,
        Error,
    >)
        requires
            old(self)@.wf(),
        ensures
            final(self)@.wf(),
            r matches Err(e) && e@ is ArgumentMismatch <==> operands@.len()
                != cell.input_ports().len(),
            match old(self)@.insert_error(cell, operands@) {
                None => {
                    &&& r matches Ok(instance)
                    &&& instance.object == old(self)@.slots.len()
                    &&& final(self)@ == old(self)@.push_object(
                        ObjectView::Instance(InstanceView::placed(cell, id@, connected(operands@))),
                    )
                },
                Some(error) => {
                    &&& r matches Err(e)
                    &&& e@ == error
                    &&& final(self)@ == old(self)@
                },
            },
    {
        let inputs = cell.get_input_ports();
        if operands.len() != inputs.len() {
            return Err(Error::ArgumentMismatch(inputs.len(), operands.len()));
        }
        let dangling = self.dangling_nets(operands);
        proof {
            self@.lemma_dangling(operands@, operands@.len() as int);
        }
        if dangling.len() > 0 {
            return Err(Error::DanglingReference(dangling));
        }
        let outputs = cell.get_output_ports();
        let mut bound: Vec<Option<DrivenNet>> = Vec::new();
        let mut k: usize = 0;
        while k < operands.len()
            invariant
                k <= operands.len(),
                bound@ == connected(operands@).take(k as int),
            decreases operands.len() - k,
        {
            bound.push(Some(operands[k]));
            proof {
                assert(connected(operands@).take(k + 1) =~= connected(operands@).take(
                    k as int,
                ).push(Some(operands@[k as int])));
            }
            k = k + 1;
        }
        proof {
            assert(connected(operands@).take(operands@.len() as int) =~= connected(operands@));
        }
        let instance = Instance { cell, id, inputs, outputs, operands: bound, attributes: Vec::new() };
        proof {
            assert(instance@.attributes =~= Seq::empty());
            assert(instance@ == InstanceView::placed(cell, id@, connected(operands@)));
        }
        let object = self.push_object(Object::Instance(instance));
        Ok(NetRef { object })
    }

    /// Adds an instance of `cell` under the name `id` with none of its input ports
    /// connected.
    pub fn insert_gate_disconnected(&mut self, cell: I, id: Identifier) -> (r: NetRef)
        requires
            old(self)@.wf(),
        ensures
            final(self)@.wf(),
            final(self)@ == old(self)@.push_object(
                ObjectView::Instance(
                    InstanceView::placed(cell, id@, disconnected(cell.input_ports().len())),
                ),
            ),
            r.object == old(self)@.slots.len(),
    {
        let inputs = cell.get_input_ports();
        let outputs = cell.get_output_ports();
        let mut bound: Vec<Option<DrivenNet>> = Vec::new();
        let mut k: usize = 0;
        while k < inputs.len()
            invariant
                k <= inputs.len(),
                bound@ == disconnected(k as nat),
            decreases inputs.len() - k,
        {
            bound.push(None);
            proof {
                assert(bound@ =~= disconnected((k + 1) as nat));
            }
            k = k + 1;
        }
        let instance = Instance { cell, id, inputs, outputs, operands: bound, attributes: Vec::new() };
        proof {
            assert(instance@.attributes =~= Seq::empty());
            assert(instance@ == InstanceView::placed(
                cell,
                id@,
                disconnected(cell.input_ports().len()),
            ));
        }
        let object = self.push_object(Object::Instance(instance));
        NetRef { object }
    }

    /// Adds an instance of the cell that drives a constant, where there is one, and
    /// returns the handle to its first output. Without a cell, or with a cell that has no
    /// output port, nothing is added.
    pub fn insert_constant_cell(&mut self, cell: Option<I>, value: Logic, id: Identifier) -> (r:
        Result<DrivenNet, Error>)
        requires
            old(self)@.wf(),
        ensures
            final(self)@.wf(),
            match r {
                Ok(net) => {
                    &&& cell matches Some(c)
                    &&& c.output_ports().len() > 0
                    &&& final(self)@ == old(self)@.push_object(
                        ObjectView::Instance(
                            InstanceView::placed(c, id@, disconnected(c.input_ports().len())),
                        ),
                    )
                    &&& net.object == old(self)@.slots.len()
                    &&& net.port == 0
                    &&& final(self)@.is_net(net)
                },
                Err(e) => {
                    &&& cell matches Some(c) ==> c.output_ports().len() == 0
                    &&& e@ == ErrorView::InstantiableError(unsupported_constant(value))
                    &&& final(self)@ == old(self)@
                },
            },
    {
        match cell {
            Some(c) => {
                let outputs = c.get_output_ports();
                if outputs.len() > 0 {
                    let instance = self.insert_gate_disconnected(c, id);
                    return Ok(DrivenNet { object: instance.object, port: 0 });
                }
            },
            None => {},
        }
        let mut message = String::from_str("Instantiable type does not support constant value ");
        message.append(value.as_str());
        Err(Error::InstantiableError(message))
    }

    /// Adds an instance of the cell that drives the constant `value`, and returns the
    /// handle to its output. The family of cells decides whether there is such a cell:
    /// there is none for a value that is not definite. Without one nothing is added.
    pub fn insert_constant(&mut self, value: Logic, id: Identifier) -> (r: Result<DrivenNet, Error>)
        requires
            old(self)@.wf(),
        ensures
            final(self)@.wf(),
            !value.is_bool() ==> r is Err,
            match r {
                Ok(net) => {
                    &&& final(self)@.slots.len() == old(self)@.slots.len() + 1
                    &&& final(self)@ == old(self)@.push_object(
                        final(self)@.object(net.object as int),
                    )
                    &&& net.object == old(self)@.slots.len()
                    &&& net.port == 0
                    &&& final(self)@.is_net(net)
                    &&& final(self)@.is_instance(net.object as int)
                    &&& final(self)@.instance(net.object as int).id == id@
                    &&& final(self)@.instance(net.object as int).cell.constant() == Some(value)
                },
                Err(e) => {
                    &&& e@ == ErrorView::InstantiableError(unsupported_constant(value))
                    &&& final(self)@ == old(self)@
                },
            },
    {
        let cell = I::from_constant(value);
        let r = self.insert_constant_cell(cell, value, id);
        proof {
            if r is Ok {
                let slot = old(self)@.slots.len() as int;
                let placed = ObjectView::Instance(
                    InstanceView::placed(
                        cell->0,
                        id@,
                        disconnected(cell->0.input_ports().len()),
                    ),
                );
                assert(self@.slots[slot] == Some(placed));
                assert(self@.object(slot) == placed);
                assert(self@.slots == old(self)@.slots.push(Some(self@.object(slot))));
            }
        }
        r
    }

    /// Adds `width` boundary inputs, one for each bit of the bus `name`, and returns the
    /// handles to their signals in the order of the bits. Bit `k` is named `name[k]`.
    pub fn insert_input_escaped_logic_bus(&mut self, name: String, width: usize) -> (r: Vec<
        DrivenNet,
    >)
        requires
            old(self)@.wf(),
        ensures
            final(self)@.wf(),
            final(self)@ == (NetlistView {
                slots: old(self)@.slots + bus_inputs::<I>(name@, width as nat),
                ..old(self)@
            }),
            r@.len() == width,
            forall|k: int|
                0 <= k < width ==> (#[trigger] r@[k]).object == old(self)@.slots.len() + k
                    && r@[k].port == 0 && final(self)@.is_net(r@[k]),
    {
        let mut nets: Vec<DrivenNet> = Vec::new();
        let mut k: usize = 0;
        while k < width
            invariant
                k <= width,
                self@.wf(),
                self@ == (NetlistView {
                    slots: old(self)@.slots + bus_inputs::<I>(name@, k as nat),
                    ..old(self)@
                }),
                nets@.len() == k,
                forall|j: int|
                    0 <= j < k ==> (#[trigger] nets@[j]).object == old(self)@.slots.len() + j
                        && nets@[j].port == 0 && self@.is_net(nets@[j]),
            decreases width - k,
        {
            let ghost before = self@;
            let bit = Net::new_logic(Identifier::new_bit(name.as_str(), k));
            let net = self.insert_input(bit);
            nets.push(net);
            proof {
                assert(self@.slots =~= old(self)@.slots + bus_inputs::<I>(name@, (k + 1) as nat));
                before.lemma_push_object(ObjectView::Input(bit@));
            }
            k = k + 1;
        }
        proof {
            assert(old(self)@.slots + bus_inputs::<I>(name@, 0) =~= old(self)@.slots);
        }
        nets
    }

    /// Exposes a signal as an output under the given name, and returns the handle to the
    /// signal. The names of the outputs of a netlist are not compared here.
    pub fn expose_with_name(&mut self, net: DrivenNet, name: Identifier) -> (r: DrivenNet)
        requires
            old(self)@.wf(),
            old(self)@.is_net(net),
        ensures
            final(self)@.wf(),
            final(self)@ == old(self)@.push_output(OutputView { driver: net, name: name@ }),
            r == net,
    {
        self.outputs.push(Output { driver: net, name });
        proof {
            assert(self@.outputs =~= old(self)@.outputs.push(
                OutputView { driver: net, name: name@ },
            ));
            old(self)@.lemma_push_output(OutputView { driver: net, name: name@ });
        }
        net
    }

    /// The name of a signal.
    pub fn get_net_name(&self, net: DrivenNet) -> (r: Identifier)
        requires
            self@.is_net(net),
        ensures
            r@ == self@.net_name(net),
    {
        match self.get_object(net.object) {
            Some(Object::Input(input)) => input.get_identifier().clone(),
            Some(Object::Instance(instance)) => instance.get_instance_name().concat(
                instance.output_port(net.port).get_identifier(),
            ),
            None => Identifier::new(String::new()),
        }
    }

    /// Exposes a signal as an output under its own name. An input cannot be exposed so: it
    /// needs another name to be an output. A handle that names no signal of this netlist
    /// is an error too.
    pub fn expose_net(&mut self, net: DrivenNet) -> (r: Result<DrivenNet, Error>)
        requires
            old(self)@.wf(),
        ensures
            final(self)@.wf(),
            match r {
                Ok(exposed) => {
                    &&& old(self)@.is_net(net)
                    &&& old(self)@.is_instance(net.object as int)
                    &&& final(self)@ == old(self)@.push_output(
                        OutputView { driver: net, name: old(self)@.net_name(net) },
                    )
                    &&& exposed == net
                },
                Err(e) => {
                    &&& !old(self)@.is_net(net) || old(self)@.is_input(net.object as int)
                    &&& e@ == (if old(self)@.is_net(net) {
                        ErrorView::InputNeedsAlias(old(self)@.net_name(net))
                    } else {
                        ErrorView::NetNotFound(net.name())
                    })
                    &&& final(self)@ == old(self)@
                },
            },
    {
        if !self.is_net(net) {
            return Err(Error::NetNotFound(net.describe()));
        }
        let name = self.get_net_name(net);
        if self.is_instance(NetRef { object: net.object }) {
            Ok(self.expose_with_name(net, name))
        } else {
            Err(Error::InputNeedsAlias(Net::new_logic(name)))
        }
    }

    /// Drives the input port `port` by `operand`, or by nothing.
    pub(crate) fn set_operand(&mut self, port: InputPort, operand: Option<DrivenNet>)
        requires
            old(self)@.wf(),
            old(self)@.is_port(port),
            operand matches Some(net) ==> old(self)@.is_net(net),
        ensures
            final(self)@ == old(self)@.with_operand(port, operand),
            final(self)@.wf(),
            forall|net: DrivenNet| old(self)@.is_net(net) <==> final(self)@.is_net(net),
            forall|other: InputPort| old(self)@.is_port(other) <==> final(self)@.is_port(other),
            forall|j: int| old(self)@.is_object(j) <==> final(self)@.is_object(j),
            forall|j: int| old(self)@.is_instance(j) <==> final(self)@.is_instance(j),
    {
        let ghost before = old(self)@.instance(port.object as int);
        let ghost after = InstanceView {
            operands: before.operands.update(port.port as int, operand),
            ..before
        };
        match &mut self.slots[port.object] {
            Some(Object::Instance(instance)) => {
                instance.operands[port.port] = operand;
            },
            _ => {},
        }
        proof {
            assert(self@.slots =~= old(self)@.slots.update(
                port.object as int,
                Some(ObjectView::Instance(after)),
            ));
            assert(before.operands.len() == before.inputs.len());
            assert forall|p: int|
                0 <= p < after.operands.len() && (#[trigger] after.operands[p]) is Some
                implies old(self)@.is_net(after.operands[p]->0) by {
                if p != port.port {
                    assert(old(self)@.operands(port.object as int)[p] is Some);
                }
            }
            old(self)@.lemma_set_instance(port.object as int, after);
            assert forall|other: InputPort| old(self)@.is_port(other) <==> self@.is_port(other) by {
                if other.object != port.object && other.object < old(self)@.slots.len() {
                    assert(self@.slots[other.object as int] == old(self)@.slots[other.object as int]);
                }
            }
        }
    }

    /// Replaces the drivers of all input ports of the instance in slot `i`.
    pub(crate) fn set_operands(&mut self, i: usize, operands: Vec<Option<DrivenNet>>)
        requires
            old(self)@.wf(),
            old(self)@.is_instance(i as int),
            operands@.len() == old(self)@.instance(i as int).operands.len(),
            forall|p: int|
                0 <= p < operands@.len() && (#[trigger] operands@[p]) is Some ==> old(
                    self,
                )@.is_net(operands@[p]->0),
        ensures
            final(self)@ == old(self)@.set_instance(
                i as int,
                InstanceView { operands: operands@, ..old(self)@.instance(i as int) },
            ),
            final(self)@.wf(),
            forall|net: DrivenNet| old(self)@.is_net(net) <==> final(self)@.is_net(net),
            forall|j: int| old(self)@.is_instance(j) <==> final(self)@.is_instance(j),
    {
        let ghost before = old(self)@.instance(i as int);
        let ghost after = InstanceView { operands: operands@, ..before };
        match &mut self.slots[i] {
            Some(Object::Instance(instance)) => {
                instance.operands = operands;
            },
            _ => {},
        }
        proof {
            assert(self@.slots =~= old(self)@.slots.update(
                i as int,
                Some(ObjectView::Instance(after)),
            ));
            assert(before.operands.len() == before.inputs.len());
            old(self)@.lemma_set_instance(i as int, after);
        }
    }

    /// Points the exposed output `k` at `driver`.
    pub(crate) fn set_output_driver(&mut self, k: usize, driver: DrivenNet)
        requires
            old(self)@.wf(),
            k < old(self)@.outputs.len(),
            old(self)@.is_net(driver),
        ensures
            final(self)@ == old(self)@.with_output_driver(k as int, driver),
            final(self)@.wf(),
    {
        self.outputs[k].driver = driver;
        proof {
            assert(self@.outputs =~= old(self)@.outputs.update(
                k as int,
                OutputView { driver, ..old(self)@.outputs[k as int] },
            ));
            old(self)@.lemma_with_output_driver(k as int, driver);
        }
    }

    /// Connects an input port that nothing drives to a signal.
    pub fn connect(&mut self, port: InputPort, net: DrivenNet)
        requires
            old(self)@.wf(),
            old(self)@.is_port(port),
            old(self)@.operands(port.object as int)[port.port as int] is None,
            old(self)@.is_net(net),
        ensures
            final(self)@ == old(self)@.with_operand(port, Some(net)),
            final(self)@.wf(),
    {
        self.set_operand(port, Some(net));
    }

    /// Takes the driver off an input port and returns it, if there was one.
    pub fn disconnect(&mut self, port: InputPort) -> (r: Option<DrivenNet>)
        requires
            old(self)@.wf(),
            old(self)@.is_port(port),
        ensures
            r == old(self)@.operands(port.object as int)[port.port as int],
            final(self)@ == old(self)@.with_operand(port, None),
            final(self)@.wf(),
    {
        let driver = self.get_driver(port);
        self.set_operand(port, None);
        driver
    }

    /// The driver of an input port, if the port is connected.
    pub fn get_driver(&self, port: InputPort) -> (r: Option<DrivenNet>)
        requires
            self@.is_port(port),
        ensures
            r == self@.operands(port.object as int)[port.port as int],
    {
        match self.get_object(port.object) {
            Some(Object::Instance(instance)) => instance.operand(port.port),
            _ => None,
        }
    }

    /// The handle to the output `index` of an object. An input has the one output 0.
    pub fn get_output(&self, object: NetRef, index: usize) -> (r: DrivenNet)
        requires
            index < self@.output_count(object.object as int),
        ensures
            r == (DrivenNet { object: object.object, port: index }),
            self@.is_net(r),
    {
        DrivenNet { object: object.object, port: index }
    }

    /// The handle to the input port `index` of an instance.
    pub fn get_input(&self, instance: NetRef, index: usize) -> (r: InputPort)
        requires
            index < self@.operands(instance.object as int).len(),
        ensures
            r == (InputPort { object: instance.object, port: index }),
            self@.is_port(r),
    {
        InputPort { object: instance.object, port: index }
    }

    /// The handle to the first input port of an instance that has the given name. An
    /// object that is no instance of this netlist has no input ports.
    pub fn find_input(&self, instance: NetRef, name: &Identifier) -> (r: Option<InputPort>)
        requires
            self@.wf(),
        ensures
            match r {
                Some(port) => {
                    &&& self@.is_port(port)
                    &&& port.object == instance.object
                    &&& self@.instance(instance.object as int).inputs[port.port as int] == name@
                    &&& forall|p: int|
                        0 <= p < port.port ==> self@.instance(instance.object as int).inputs[p]
                            != name@
                },
                None => !self@.is_instance(instance.object as int) || forall|p: int|
                    0 <= p < self@.instance(instance.object as int).inputs.len() ==> self@.instance(
                        instance.object as int,
                    ).inputs[p] != name@,
            },
    {
        match self.get_object(instance.object) {
            Some(Object::Instance(found)) => {
                assert(self@.instance(instance.object as int).operands.len() == self@.instance(
                    instance.object as int,
                ).inputs.len());
                let mut p: usize = 0;
                while p < found.input_count()
                    invariant
                        p <= found@.inputs.len(),
                        self@.is_instance(instance.object as int),
                        found@ == self@.instance(instance.object as int),
                        found@.operands.len() == found@.inputs.len(),
                        forall|q: int| 0 <= q < p ==> found@.inputs[q] != name@,
                    decreases found@.inputs.len() - p,
                {
                    if *found.input_port(p).get_identifier() == *name {
                        return Some(InputPort { object: instance.object, port: p });
                    }
                    p = p + 1;
                }
                None
            },
            _ => None,
        }
    }

    /// The cell of an instance. An object that is no instance of this netlist has none.
    pub fn get_instance_type(&self, instance: NetRef) -> (r: Option<&I>)
        ensures
            match r {
                Some(cell) => self@.is_instance(instance.object as int) && *cell == self@.instance(
                    instance.object as int,
                ).cell,
                None => !self@.is_instance(instance.object as int),
            },
    {
        match self.get_object(instance.object) {
            Some(Object::Instance(found)) => Some(found.get_instance_type()),
            _ => None,
        }
    }

    /// The name of an instance. An object that is no instance of this netlist has none.
    pub fn get_instance_name(&self, instance: NetRef) -> (r: Option<&Identifier>)
        ensures
            match r {
                Some(id) => self@.is_instance(instance.object as int) && id@ == self@.instance(
                    instance.object as int,
                ).id,
                None => !self@.is_instance(instance.object as int),
            },
    {
        match self.get_object(instance.object) {
            Some(Object::Instance(found)) => Some(found.get_instance_name()),
            _ => None,
        }
    }

    /// The cell of an instance, to be changed in place. An object that is no instance of
    /// this netlist has none. The ports of the instance stay as they were when the cell
    /// was placed.
    pub fn get_instance_type_mut(&mut self, instance: NetRef) -> (r: Option<&mut I>)
        ensures
            match r {
                Some(cell) => {
                    &&& old(self)@.is_instance(instance.object as int)
                    &&& *cell == old(self)@.instance(instance.object as int).cell
                    &&& final(self)@ == old(self)@.with_cell(instance.object as int, *final(cell))
                },
                None => !old(self)@.is_instance(instance.object as int) && final(self)@ == old(
                    self,
                )@,
            },
            old(self)@.wf() ==> final(self)@.wf(),
    {
        if !self.is_instance(instance) {
            return None;
        }
        proof {
            let i = instance.object as int;
            let slots = self.slots@;
            assert forall|slot: Option<Object<I>>| #[trigger]
                slot_views(slots.update(i, slot)) == slot_views(slots).update(
                    i,
                    slot_view(slot),
                ) by {
                assert(slot_views(slots.update(i, slot)) =~= slot_views(slots).update(
                    i,
                    slot_view(slot),
                ));
            }
            if self@.wf() && self@.is_instance(i) {
                assert forall|cell: I| (#[trigger] self@.with_cell(i, cell)).wf() by {
                    self@.lemma_with_attributes_and_cell(i, Seq::empty(), cell);
                }
            }
        }
        match &mut self.slots[instance.object] {
            Some(Object::Instance(found)) => Some(&mut found.cell),
            _ => None,
        }
    }

    /// Sets a flag on an instance: an attribute without a value.
    pub fn set_attribute(&mut self, instance: NetRef, key: String)
        requires
            old(self)@.wf(),
            old(self)@.is_instance(instance.object as int),
        ensures
            final(self)@.wf(),
            final(self)@ == old(self)@.with_attributes(
                instance.object as int,
                put_key(old(self)@.instance(instance.object as int).attributes, key@, None),
            ),
    {
        let _ = self.put_instance_attribute(instance, key, None);
    }

    /// Gives the attribute `key` of an instance the value `value`, and returns the value
    /// that it had, if the instance had the attribute.
    pub fn insert_attribute(&mut self, instance: NetRef, key: String, value: String) -> (r: Option<
        Option<String>,
    >)
        requires
            old(self)@.wf(),
            old(self)@.is_instance(instance.object as int),
        ensures
            final(self)@.wf(),
            final(self)@ == old(self)@.with_attributes(
                instance.object as int,
                put_key(old(self)@.instance(instance.object as int).attributes, key@, Some(value@)),
            ),
            match r {
                Some(previous) => value_of_key(
                    old(self)@.instance(instance.object as int).attributes,
                    key@,
                ) == Some(text_view(previous)),
                None => value_of_key(old(self)@.instance(instance.object as int).attributes, key@)
                    is None,
            },
    {
        self.put_instance_attribute(instance, key, Some(value))
    }

    fn put_instance_attribute(&mut self, instance: NetRef, key: String, value: Option<String>) -> (r:
        Option<Option<String>>)
        requires
            old(self)@.wf(),
            old(self)@.is_instance(instance.object as int),
        ensures
            final(self)@.wf(),
            final(self)@ == old(self)@.with_attributes(
                instance.object as int,
                put_key(
                    old(self)@.instance(instance.object as int).attributes,
                    key@,
                    text_view(value),
                ),
            ),
            match r {
                Some(previous) => value_of_key(
                    old(self)@.instance(instance.object as int).attributes,
                    key@,
                ) == Some(text_view(previous)),
                None => value_of_key(old(self)@.instance(instance.object as int).attributes, key@)
                    is None,
            },
    {
        let ghost before = old(self)@.instance(instance.object as int);
        let ghost attributes = put_key(before.attributes, key@, text_view(value));
        let mut previous: Option<Option<String>> = None;
        match &mut self.slots[instance.object] {
            Some(Object::Instance(found)) => {
                previous = put_attribute(&mut found.attributes, key, value);
            },
            _ => {},
        }
        proof {
            assert(self@.slots =~= old(self)@.with_attributes(
                instance.object as int,
                attributes,
            ).slots);
            old(self)@.lemma_with_attributes_and_cell(
                instance.object as int,
                attributes,
                before.cell,
            );
        }
        previous
    }

    /// Takes the attribute `key` off an instance, and returns the value that it had, if the
    /// instance had the attribute.
    pub fn clear_attribute(&mut self, instance: NetRef, key: &String) -> (r: Option<Option<String>>)
        requires
            old(self)@.wf(),
            old(self)@.is_instance(instance.object as int),
        ensures
            final(self)@.wf(),
            final(self)@ == old(self)@.with_attributes(
                instance.object as int,
                remove_key(old(self)@.instance(instance.object as int).attributes, key@),
            ),
            match r {
                Some(previous) => value_of_key(
                    old(self)@.instance(instance.object as int).attributes,
                    key@,
                ) == Some(text_view(previous)),
                None => value_of_key(old(self)@.instance(instance.object as int).attributes, key@)
                    is None,
            },
    {
        let ghost before = old(self)@.instance(instance.object as int);
        let ghost attributes = remove_key(before.attributes, key@);
        let mut previous: Option<Option<String>> = None;
        match &mut self.slots[instance.object] {
            Some(Object::Instance(found)) => {
                previous = remove_attribute(&mut found.attributes, key);
            },
            _ => {},
        }
        proof {
            assert(self@.slots =~= old(self)@.with_attributes(
                instance.object as int,
                attributes,
            ).slots);
            old(self)@.lemma_with_attributes_and_cell(
                instance.object as int,
                attributes,
                before.cell,
            );
        }
        previous
    }

    /// Exposes the one signal of an object as an output under the given name. An instance
    /// with more than one output port, or with none, has no such signal: its outputs are
    /// to be exposed one by one. A handle that names no object of this netlist names
    /// nothing with a signal.
    pub fn expose_instance_with_name(&mut self, object: NetRef, name: Identifier) -> (r: Result<
        DrivenNet,
        Error,
    >)
        requires
            old(self)@.wf(),
        ensures
            final(self)@.wf(),
            match r {
                Ok(net) => {
                    &&& old(self)@.output_count(object.object as int) == 1
                    &&& net == (DrivenNet { object: object.object, port: 0 })
                    &&& final(self)@ == old(self)@.push_output(
                        OutputView { driver: net, name: name@ },
                    )
                },
                Err(e) => {
                    &&& old(self)@.output_count(object.object as int) != 1
                    &&& e@ == ErrorView::ArgumentMismatch(
                        1,
                        old(self)@.output_count(object.object as int) as usize,
                    )
                    &&& final(self)@ == old(self)@
                },
            },
    {
        let count = match self.get_object(object.object) {
            Some(Object::Instance(instance)) => instance.output_count(),
            Some(Object::Input(_)) => 1,
            None => 0,
        };
        if count == 1 {
            Ok(self.expose_with_name(DrivenNet { object: object.object, port: 0 }, name))
        } else {
            Err(Error::ArgumentMismatch(1, count))
        }
    }

    /// The handles to the objects of the netlist, in the order of insertion.
    pub fn objects(&self) -> (r: Vec<NetRef>)
        ensures
            r@ == self@.objects(),
    {
        let mut found: Vec<NetRef> = Vec::new();
        let mut i: usize = 0;
        while i < self.slots.len()
            invariant
                i <= self.slots@.len(),
                self@.slots.len() == self.slots@.len(),
                found@ == self@.objects_upto(i as int),
            decreases self.slots@.len() - i,
        {
            if self.get_object(i).is_some() {
                found.push(NetRef { object: i });
            }
            i = i + 1;
        }
        found
    }

    /// The handles to the signals of the inputs of the netlist, in the order of insertion.
    pub fn inputs(&self) -> (r: Vec<DrivenNet>)
        ensures
            r@ == self@.inputs(),
    {
        let mut found: Vec<DrivenNet> = Vec::new();
        let mut i: usize = 0;
        while i < self.slots.len()
            invariant
                i <= self.slots@.len(),
                self@.slots.len() == self.slots@.len(),
                found@ == self@.inputs_upto(i as int),
            decreases self.slots@.len() - i,
        {
            match self.get_object(i) {
                Some(Object::Input(_)) => {
                    found.push(DrivenNet { object: i, port: 0 });
                },
                _ => {},
            }
            i = i + 1;
        }
        found
    }

    /// The handle to the first object of the netlist, in the order of insertion.
    pub fn first(&self) -> (r: Option<NetRef>)
        ensures
            match r {
                Some(object) => self@.objects().len() > 0 && object == self@.objects().first(),
                None => self@.objects().len() == 0,
            },
    {
        let found = self.objects();
        if found.len() > 0 {
            Some(found[0])
        } else {
            None
        }
    }

    /// The handle to the last object of the netlist, in the order of insertion.
    pub fn last(&self) -> (r: Option<NetRef>)
        ensures
            match r {
                Some(object) => self@.objects().len() > 0 && object == self@.objects().last(),
                None => self@.objects().len() == 0,
            },
    {
        let found = self.objects();
        if found.len() > 0 {
            Some(found[found.len() - 1])
        } else {
            None
        }
    }

    /// The signal of the first output that goes by the given name: that is exposed under
    /// the name, or that exposes a signal of that name.
    pub fn find_net(&self, name: &Identifier) -> (r: Option<DrivenNet>)
        requires
            self@.wf(),
        ensures
            match r {
                Some(net) => exists|k: int|
                    {
                        &&& 0 <= k < self@.outputs.len()
                        &&& #[trigger] self@.output_named(k, name@)
                        &&& net == self@.outputs[k].driver
                        &&& forall|j: int| 0 <= j < k ==> !self@.output_named(j, name@)
                    },
                None => forall|k: int|
                    0 <= k < self@.outputs.len() ==> !self@.output_named(k, name@),
            },
    {
        let mut k: usize = 0;
        while k < self.outputs.len()
            invariant
                k <= self@.outputs.len(),
                self@.wf(),
                self@.outputs.len() == self.outputs@.len(),
                forall|j: int| 0 <= j < k ==> !self@.output_named(j, name@),
            decreases self.outputs@.len() - k,
        {
            let output = self.get_exposed(k);
            assert(self@.is_net(self@.outputs[k as int].driver));
            let exposed = *output.get_name() == *name;
            if exposed || self.get_net_name(output.get_driver()) == *name {
                assert(self@.output_named(k as int, name@));
                return Some(output.get_driver());
            }
            k = k + 1;
        }
        None
    }

    /// Empties the slots of the objects that `keep` does not keep, and returns whether
    /// there was any such object.
    pub(crate) fn retain_objects(&mut self, keep: &Vec<bool>) -> (r: bool)
        requires
            keep@.len() == old(self)@.slots.len(),
        ensures
            final(self)@ == old(self)@.retain(keep@),
            r == exists|i: int| old(self)@.is_object(i) && !keep@[i],
    {
        let mut removed = false;
        let mut i: usize = 0;
        while i < self.slots.len()
            invariant
                i <= self.slots@.len(),
                keep@.len() == self.slots@.len(),
                self.slots@.len() == old(self).slots@.len(),
                self.name == old(self).name,
                self.outputs == old(self).outputs,
                forall|j: int| i <= j < self.slots@.len() ==> self.slots@[j] == old(self).slots@[j],
                forall|j: int|
                    0 <= j < i ==> slot_view(#[trigger] self.slots@[j]) == old(self)@.retain(
                        keep@,
                    ).slots[j],
                removed == exists|j: int| 0 <= j < i && old(self)@.is_object(j) && !keep@[j],
            decreases self.slots@.len() - i,
        {
            let ghost before = removed;
            if !keep[i] && self.slots[i].is_some() {
                self.slots[i] = None;
                removed = true;
            }
            proof {
                if before {
                    let j = choose|j: int| 0 <= j < i && old(self)@.is_object(j) && !keep@[j];
                    assert(0 <= j < i + 1 && old(self)@.is_object(j) && !keep@[j]);
                }
                if removed && !before {
                    assert(old(self)@.is_object(i as int) && !keep@[i as int]);
                }
            }
            i = i + 1;
        }
        proof {
            assert(self@.slots =~= old(self)@.retain(keep@).slots);
        }
        removed
    }

    /// The number of exposed outputs.
    pub fn output_count(&self) -> (r: usize)
        ensures
            r == self@.outputs.len(),
    {
        self.outputs.len()
    }

    /// The exposed output `k`.
    pub fn get_exposed(&self, k: usize) -> (r: &Output)
        requires
            k < self@.outputs.len(),
        ensures
            r@ == self@.outputs[k as int],
    {
        &self.outputs[k]
    }
}

} // verus!
