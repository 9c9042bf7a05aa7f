//! A primitive gate: a name with input and output ports, and nothing else.

use vstd::prelude::*;
use vstd::string::StringExecFns;

use crate::attribute::{Parameter, ParameterView};
use crate::circuit::{
    copy_nets, net_views, nets_named, Identifier, IdentifierView, Instantiable, Net,
};
use crate::logic::Logic;

verus! {

/// A primitive gate in a digital circuit, such as AND, OR or NOT. It has no parameters and
/// holds no state.
#[derive(Debug)]
pub struct Gate {
    name: Identifier,
    inputs: Vec<Net>,
    outputs: Vec<Net>,
}

/// What a gate holds.
pub struct GateView {
    pub name: IdentifierView,
    pub inputs: Seq<IdentifierView>,
    pub outputs: Seq<IdentifierView>,
}

/// The name of the primitive that drives a constant one.
pub open spec fn power_name() -> IdentifierView {
    IdentifierView { name: "VDD"@, escaped: false }
}

/// The name of the primitive that drives a constant zero.
pub open spec fn ground_name() -> IdentifierView {
    IdentifierView { name: "GND"@, escaped: false }
}

/// The name of the output port of a primitive that drives a constant.
pub open spec fn constant_port_name() -> IdentifierView {
    IdentifierView { name: "Y"@, escaped: false }
}

impl GateView {
    /// A gate that drives the definite value `val`: it is named `VDD` for one and `GND`
    /// for zero, has no inputs, and has the one output `Y`.
    pub open spec fn driving(val: Logic) -> GateView {
        GateView {
            name: if val == Logic::True {
                power_name()
            } else {
                ground_name()
            },
            inputs: Seq::empty(),
            outputs: seq![constant_port_name()],
        }
    }

    /// The constant that a gate drives: a gate named `VDD` drives one, a gate named `GND`
    /// drives zero, and no other gate drives a constant.
    pub open spec fn constant(self) -> Option<Logic> {
        if self.name == power_name() {
            Some(Logic::True)
        } else if self.name == ground_name() {
            Some(Logic::False)
        } else {
            None
        }
    }
}

impl View for Gate {
    type V = GateView;

    closed spec fn view(&self) -> GateView {
        GateView {
            name: self.name@,
            inputs: net_views(self.inputs@),
            outputs: net_views(self.outputs@),
        }
    }
}

impl Gate {
    /// Creates a gate with the given name, input ports and single output port.
    pub fn new_logical(name: Identifier, inputs: Vec<Identifier>, output: Identifier) -> (r: Gate)
        ensures
            r@ == (GateView {
                name: name@,
                inputs: crate::circuit::identifier_views(inputs@),
                outputs: seq![output@],
            }),
    {
        let inputs = nets_named(&inputs);
        let mut outputs: Vec<Net> = Vec::new();
        outputs.push(Net::new_logic(output));
        proof {
            assert(net_views(outputs@) =~= seq![output@]);
        }
        Gate { name, inputs, outputs }
    }

    /// Creates a gate with the given name, input ports and output ports.
    pub fn new_logical_multi(
        name: Identifier,
        inputs: Vec<Identifier>,
        outputs: Vec<Identifier>,
    ) -> (r: Gate)
        ensures
            r@ == (GateView {
                name: name@,
                inputs: crate::circuit::identifier_views(inputs@),
                outputs: crate::circuit::identifier_views(outputs@),
            }),
    {
        let inputs = nets_named(&inputs);
        let outputs = nets_named(&outputs);
        Gate { name, inputs, outputs }
    }
}

impl Clone for Gate {
    fn clone(&self) -> (r: Gate)
        ensures
            r@ == self@,
    {
        Gate {
            name: self.name.clone(),
            inputs: copy_nets(&self.inputs),
            outputs: copy_nets(&self.outputs),
        }
    }
}

impl Instantiable for Gate {
    open spec fn name(&self) -> IdentifierView {
        self@.name
    }

    open spec fn input_ports(&self) -> Seq<IdentifierView> {
        self@.inputs
    }

    open spec fn output_ports(&self) -> Seq<IdentifierView> {
        self@.outputs
    }

    open spec fn parameter(&self, id: IdentifierView) -> Option<ParameterView> {
        None
    }

    open spec fn constant(&self) -> Option<Logic> {
        self@.constant()
    }

    open spec fn sequential(&self) -> bool {
        false
    }

    fn get_name(&self) -> (r: &Identifier) {
        &self.name
    }

    fn get_input_ports(&self) -> (r: Vec<Net>) {
        copy_nets(&self.inputs)
    }

    fn get_output_ports(&self) -> (r: Vec<Net>) {
        copy_nets(&self.outputs)
    }

    fn has_parameter(&self, id: &Identifier) -> (r: bool) {
        false
    }

    fn get_parameter(&self, id: &Identifier) -> (r: Option<Parameter>) {
        None
    }

    fn set_parameter(&mut self, id: &Identifier, val: Parameter) -> (r: Option<Parameter>) {
        None
    }

    fn parameters(&self) -> (r: Vec<(Identifier, Parameter)>) {
        Vec::new()
    }

    fn from_constant(val: Logic) -> (r: Option<Gate>)
        ensures
            r is Some <==> val.is_bool(),
            r matches Some(gate) ==> gate@ == GateView::driving(val),
    {
        proof {
            lemma_constant_names();
        }
        let name = match val {
            Logic::True => Identifier::new(String::from_str("VDD")),
            Logic::False => Identifier::new(String::from_str("GND")),
            _ => {
                return None;
            },
        };
        let inputs: Vec<Identifier> = Vec::new();
        proof {
            assert(crate::circuit::identifier_views(inputs@) =~= Seq::empty());
        }
        Some(Gate::new_logical(name, inputs, Identifier::new(String::from_str("Y"))))
    }

    fn get_constant(&self) -> (r: Option<Logic>) {
        proof {
            lemma_constant_names();
        }
        let power = Identifier::new(String::from_str("VDD"));
        let ground = Identifier::new(String::from_str("GND"));
        if self.name == power {
            Some(Logic::True)
        } else if self.name == ground {
            Some(Logic::False)
        } else {
            None
        }
    }

    fn is_seq(&self) -> (r: bool) {
        false
    }
}

/// The three names of the constant primitives are read from their texts as they stand:
/// none of them needs to be escaped.
pub proof fn lemma_constant_names()
    ensures
        IdentifierView::parse("VDD"@) == power_name(),
        IdentifierView::parse("GND"@) == ground_name(),
        IdentifierView::parse("Y"@) == constant_port_name(),
        power_name() != ground_name(),
{
    reveal_strlit("VDD");
    reveal_strlit("GND");
    reveal_strlit("Y");
    assert("VDD"@[0] == 'V');
    assert("GND"@[0] == 'G');
}

} // verus!
