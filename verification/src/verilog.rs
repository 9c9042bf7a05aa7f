//! Writing a netlist out as a Verilog module.
//!
//! The module lists its ports, inputs before outputs. It declares each input and each
//! output, and a wire for each output port of each instance. Then come the instances in
//! the order of insertion, each behind its attributes, and an assignment for each output.
//! An instance that stands for a constant is not written: where its signal is used, the
//! literal of the constant stands.

use vstd::prelude::*;
use vstd::string::StringExecFns;

use crate::attribute::{
    attribute_views, key_index, lemma_clear_after_insert, put_key, remove_key, Attribute,
    AttributeView,
};
use crate::circuit::{Identifier, IdentifierView, Instantiable, Net};
use crate::error::{Error, ErrorView};
use crate::netlist::{DrivenNet, Instance, InstanceView, Netlist, NetlistView, Object};
use crate::text::{append_comma_lines, comma_lines, text_views};

verus! {

/// The declaration of an input.
pub open spec fn input_declaration(name: IdentifierView) -> Seq<char> {
    "  input "@ + name.render() + ";\n  wire "@ + name.render() + ";\n"@
}

/// The declaration of an output.
pub open spec fn output_declaration(name: IdentifierView) -> Seq<char> {
    "  output "@ + name.render() + ";\n  wire "@ + name.render() + ";\n"@
}

/// The declaration of a wire.
pub open spec fn wire_declaration(name: IdentifierView) -> Seq<char> {
    "  wire "@ + name.render() + ";\n"@
}

/// The connection of a port to what it is bound to.
pub open spec fn connection(port: IdentifierView, bound: Seq<char>) -> Seq<char> {
    "."@ + port.render() + "("@ + bound + ")"@
}

/// The assignment that drives an output.
pub open spec fn assignment(name: IdentifierView, driver: Seq<char>) -> Seq<char> {
    "  assign "@ + name.render() + " = "@ + driver + ";\n"@
}

/// The lines of the first `n` attributes.
pub open spec fn attribute_lines(attributes: Seq<AttributeView>, n: int) -> Seq<char>
    decreases n,
{
    if n <= 0 {
        Seq::empty()
    } else {
        attribute_lines(attributes, n - 1) + "  "@ + attributes[n - 1].render() + "\n"@
    }
}

/// The lines of the first `n` attributes are the same in two lists that begin with the
/// same `n` attributes.
pub proof fn lemma_attribute_lines_prefix(a: Seq<AttributeView>, b: Seq<AttributeView>, n: int)
    requires
        0 <= n <= a.len(),
        n <= b.len(),
        forall|k: int| 0 <= k < n ==> a[k] == b[k],
    ensures
        attribute_lines(a, n) == attribute_lines(b, n),
    decreases n,
{
    if n > 0 {
        lemma_attribute_lines_prefix(a, b, n - 1);
    }
}

/// The declarations of the wires of the first `n` output ports of an instance.
pub open spec fn wire_lines<I>(instance: InstanceView<I>, n: int) -> Seq<char>
    decreases n,
{
    if n <= 0 {
        Seq::empty()
    } else {
        wire_lines(instance, n - 1) + wire_declaration(instance.output_name(n - 1))
    }
}

impl<I: Instantiable> NetlistView<I> {
    /// Whether the object in slot `i` is written as an instance: it is an instance that
    /// does not stand for a constant.
    pub open spec fn is_emitted(self, i: int) -> bool {
        self.is_instance(i) && self.instance(i).cell.constant() is None
    }

    /// The text that stands for a signal where it is used: the literal of the constant
    /// for a signal of a constant, the name of the signal for any other.
    pub open spec fn signal_text(self, net: DrivenNet) -> Seq<char> {
        if self.is_instance(net.object as int) && self.instance(
            net.object as int,
        ).cell.constant() is Some {
            self.instance(net.object as int).cell.constant()->0.literal()
        } else {
            self.net_name(net).render()
        }
    }

    /// The written names of the inputs in the first `n` slots.
    pub open spec fn input_ports_upto(self, n: int) -> Seq<Seq<char>>
        decreases n,
    {
        if n <= 0 {
            Seq::empty()
        } else if self.is_input(n - 1) {
            self.input_ports_upto(n - 1).push(self.object(n - 1)->Input_0.render())
        } else {
            self.input_ports_upto(n - 1)
        }
    }

    /// The written names of the first `n` outputs.
    pub open spec fn output_ports_upto(self, n: int) -> Seq<Seq<char>>
        decreases n,
    {
        if n <= 0 {
            Seq::empty()
        } else {
            self.output_ports_upto(n - 1).push(self.outputs[n - 1].name.render())
        }
    }

    /// The written names of the ports of the module: the inputs, then the outputs.
    pub open spec fn module_ports(self) -> Seq<Seq<char>> {
        self.input_ports_upto(self.slots.len() as int) + self.output_ports_upto(
            self.outputs.len() as int,
        )
    }

    /// The declarations of the inputs in the first `n` slots.
    pub open spec fn input_declarations(self, n: int) -> Seq<char>
        decreases n,
    {
        if n <= 0 {
            Seq::empty()
        } else if self.is_input(n - 1) {
            self.input_declarations(n - 1) + input_declaration(self.object(n - 1)->Input_0)
        } else {
            self.input_declarations(n - 1)
        }
    }

    /// The declarations of the first `n` outputs.
    pub open spec fn output_declarations(self, n: int) -> Seq<char>
        decreases n,
    {
        if n <= 0 {
            Seq::empty()
        } else {
            self.output_declarations(n - 1) + output_declaration(self.outputs[n - 1].name)
        }
    }

    /// The declarations of the wires of the instances in the first `n` slots.
    pub open spec fn wire_declarations(self, n: int) -> Seq<char>
        decreases n,
    {
        if n <= 0 {
            Seq::empty()
        } else if self.is_emitted(n - 1) {
            self.wire_declarations(n - 1) + wire_lines(
                self.instance(n - 1),
                self.instance(n - 1).outputs.len() as int,
            )
        } else {
            self.wire_declarations(n - 1)
        }
    }

    /// The connections of the first `n` input ports of the instance in slot `i`.
    pub open spec fn input_connections(self, i: int, n: int) -> Seq<Seq<char>>
        decreases n,
    {
        if n <= 0 {
            Seq::empty()
        } else {
            self.input_connections(i, n - 1).push(
                connection(
                    self.instance(i).inputs[n - 1],
                    self.signal_text(self.instance(i).operands[n - 1]->0),
                ),
            )
        }
    }

    /// The connections of the first `n` output ports of the instance in slot `i`.
    pub open spec fn output_connections(self, i: int, n: int) -> Seq<Seq<char>>
        decreases n,
    {
        if n <= 0 {
            Seq::empty()
        } else {
            self.output_connections(i, n - 1).push(
                connection(
                    self.instance(i).outputs[n - 1],
                    self.instance(i).output_name(n - 1).render(),
                ),
            )
        }
    }

    /// The connections of the instance in slot `i`: its input ports, then its output
    /// ports.
    pub open spec fn connections(self, i: int) -> Seq<Seq<char>> {
        self.input_connections(i, self.instance(i).operands.len() as int)
            + self.output_connections(i, self.instance(i).outputs.len() as int)
    }

    /// The statement of the instance in slot `i`: one line for each attribute, then the
    /// name of the cell, the name of the instance, and the connections in brackets.
    pub open spec fn instance_statement(self, i: int) -> Seq<char> {
        attribute_lines(self.instance(i).attributes, self.instance(i).attributes.len() as int)
            + "  "@ + self.instance(i).cell.name().render() + " "@ + self.instance(i).id.render()
            + " (\n"@ + comma_lines("    "@, self.connections(i)) + "  );\n"@
    }

    /// The statements of the instances in the first `n` slots.
    pub open spec fn instance_statements(self, n: int) -> Seq<char>
        decreases n,
    {
        if n <= 0 {
            Seq::empty()
        } else if self.is_emitted(n - 1) {
            self.instance_statements(n - 1) + self.instance_statement(n - 1)
        } else {
            self.instance_statements(n - 1)
        }
    }

    /// The assignments of the first `n` outputs.
    pub open spec fn assignments(self, n: int) -> Seq<char>
        decreases n,
    {
        if n <= 0 {
            Seq::empty()
        } else {
            self.assignments(n - 1) + assignment(
                self.outputs[n - 1].name,
                self.signal_text(self.outputs[n - 1].driver),
            )
        }
    }

    /// The netlist as a Verilog module.
    pub open spec fn render(self) -> Seq<char> {
        "module "@ + self.name + " (\n"@ + comma_lines("  "@, self.module_ports()) + ");\n"@
            + self.input_declarations(self.slots.len() as int) + self.output_declarations(
            self.outputs.len() as int,
        ) + self.wire_declarations(self.slots.len() as int) + self.instance_statements(
            self.slots.len() as int,
        ) + self.assignments(self.outputs.len() as int) + "endmodule\n"@
    }

    /// The first input port of an instance that is written, among the first `n` slots,
    /// that nothing drives.
    pub open spec fn first_undriven(self, n: int) -> Option<IdentifierView>
        decreases n,
    {
        if n <= 0 {
            None
        } else if self.first_undriven(n - 1) is Some {
            self.first_undriven(n - 1)
        } else if self.is_emitted(n - 1) && self.undriven_ports(n - 1).len() > 0 {
            Some(self.undriven_ports(n - 1)[0])
        } else {
            None
        }
    }

    /// Why the netlist cannot be written out, if it cannot: an instance that is written
    /// has an input port that nothing drives.
    pub open spec fn emit_error(self) -> Option<ErrorView> {
        match self.first_undriven(self.slots.len() as int) {
            Some(port) => Some(ErrorView::NetNotFound(port)),
            None => None,
        }
    }

    /// The statement of the instance in slot `i` without the lines of its attributes.
    pub open spec fn instance_body(self, i: int) -> Seq<char> {
        "  "@ + self.instance(i).cell.name().render() + " "@ + self.instance(i).id.render()
            + " (\n"@ + comma_lines("    "@, self.connections(i)) + "  );\n"@
    }

    /// The attributes of an instance have no part in what stands for a signal.
    pub proof fn lemma_signal_text_without_attributes(
        self,
        i: int,
        attributes: Seq<AttributeView>,
        net: DrivenNet,
    )
        requires
            self.is_instance(i),
            self.is_net(net),
        ensures
            self.with_attributes(i, attributes).signal_text(net) == self.signal_text(net),
    {
        let after = self.with_attributes(i, attributes);
        let d = net.object as int;
        if d != i {
            assert(after.slots[d] == self.slots[d]);
        }
    }

    /// The attributes of an instance have no part in the connections of any instance.
    pub proof fn lemma_connections_without_attributes(
        self,
        i: int,
        attributes: Seq<AttributeView>,
        j: int,
        n: int,
    )
        requires
            self.wf(),
            self.is_instance(i),
            self.is_instance(j),
            self.is_driven(j),
            n <= self.instance(j).operands.len(),
        ensures
            self.with_attributes(i, attributes).input_connections(j, n) == self.input_connections(
                j,
                n,
            ),
            self.with_attributes(i, attributes).output_connections(j, n)
                == self.output_connections(j, n),
        decreases n,
    {
        let after = self.with_attributes(i, attributes);
        if j != i {
            assert(after.slots[j] == self.slots[j]);
        }
        if n > 0 {
            self.lemma_connections_without_attributes(i, attributes, j, n - 1);
            assert(self.operands(j)[n - 1] is Some);
            assert(self.is_net(self.operands(j)[n - 1]->0));
            self.lemma_signal_text_without_attributes(
                i,
                attributes,
                self.instance(j).operands[n - 1]->0,
            );
        }
    }

    /// The attributes of an instance have no part in the connections of the output ports
    /// of any instance.
    pub proof fn lemma_output_connections_without_attributes(
        self,
        i: int,
        attributes: Seq<AttributeView>,
        j: int,
        n: int,
    )
        requires
            self.is_instance(i),
            self.is_instance(j),
        ensures
            self.with_attributes(i, attributes).output_connections(j, n)
                == self.output_connections(j, n),
        decreases n,
    {
        let after = self.with_attributes(i, attributes);
        if j != i {
            assert(after.slots[j] == self.slots[j]);
        }
        if n > 0 {
            self.lemma_output_connections_without_attributes(i, attributes, j, n - 1);
        }
    }

    /// A flag that is set on an instance is written on one line of its own, behind the
    /// attributes that the instance had and right before the rest of its statement, which
    /// stays as it was.
    pub proof fn lemma_flag_is_written(self, i: int, key: Seq<char>)
        requires
            self.wf(),
            self.is_instance(i),
            self.is_driven(i),
            key_index(self.instance(i).attributes, key) is None,
        ensures
            self.with_attributes(
                i,
                put_key(self.instance(i).attributes, key, None),
            ).instance_statement(i) == attribute_lines(
                self.instance(i).attributes,
                self.instance(i).attributes.len() as int,
            ) + "  (* "@ + key + " *)\n"@ + self.instance_body(i),
    {
        let before = self.instance(i).attributes;
        let flag = AttributeView { key, value: None };
        let attributes = put_key(before, key, None);
        let after = self.with_attributes(i, attributes);
        assert(attributes == before.push(flag));
        lemma_attribute_lines_prefix(before, attributes, before.len() as int);
        self.lemma_connections_without_attributes(
            i,
            attributes,
            i,
            self.instance(i).operands.len() as int,
        );
        self.lemma_output_connections_without_attributes(
            i,
            attributes,
            i,
            self.instance(i).outputs.len() as int,
        );
        assert(after.connections(i) == self.connections(i));
        assert(after.instance_body(i) == self.instance_body(i));
        assert(flag.render() == "(* "@ + key + " *)"@);
        assert("  (* "@ =~= "  "@ + "(* "@) by {
            reveal_strlit("  (* ");
            reveal_strlit("  ");
            reveal_strlit("(* ");
        }
        assert(" *)\n"@ =~= " *)"@ + "\n"@) by {
            reveal_strlit(" *)\n");
            reveal_strlit(" *)");
            reveal_strlit("\n");
        }
        assert(after.instance_statement(i) =~= attribute_lines(before, before.len() as int)
            + "  (* "@ + key + " *)\n"@ + self.instance_body(i));
    }

    /// An attribute that is added to an instance under a new key and then cleared leaves
    /// the netlist, and so the text that is written, as it was.
    pub proof fn lemma_cleared_attribute_leaves_no_trace(
        self,
        i: int,
        key: Seq<char>,
        value: Option<Seq<char>>,
    )
        requires
            self.is_instance(i),
            key_index(self.instance(i).attributes, key) is None,
        ensures
            ({
                let added = self.with_attributes(
                    i,
                    put_key(self.instance(i).attributes, key, value),
                );
                let cleared = added.with_attributes(
                    i,
                    remove_key(added.instance(i).attributes, key),
                );
                cleared == self && cleared.render() == self.render()
            }),
    {
        let before = self.instance(i).attributes;
        let added = self.with_attributes(i, put_key(before, key, value));
        let cleared = added.with_attributes(i, remove_key(added.instance(i).attributes, key));
        lemma_clear_after_insert(before, key, value);
        assert(cleared.slots =~= self.slots);
    }

    /// The first input port that nothing drives stays the first when more slots are
    /// searched.
    pub proof fn lemma_first_undriven_stays(self, n: int, m: int)
        requires
            0 <= n <= m,
            self.first_undriven(n) is Some,
        ensures
            self.first_undriven(m) == self.first_undriven(n),
        decreases m,
    {
        if n < m {
            self.lemma_first_undriven_stays(n, m - 1);
        }
    }

    /// Where no input port of the instances that are written is left without a driver,
    /// every such instance is driven.
    pub proof fn lemma_first_undriven(self, n: int, i: int)
        requires
            self.wf(),
            self.first_undriven(n) is None,
            0 <= i < n,
            self.is_emitted(i),
        ensures
            self.is_driven(i),
        decreases n,
    {
        if i < n - 1 {
            self.lemma_first_undriven(n - 1, i);
        } else {
            self.lemma_undriven_ports(i);
        }
    }
}

fn input_declaration_text(name: &Identifier) -> (r: String)
    ensures
        r@ == input_declaration(name@),
{
    let written = name.emit_name();
    let mut out = String::from_str("  input ");
    out.append(written.as_str());
    out.append(";\n  wire ");
    out.append(written.as_str());
    out.append(";\n");
    out
}

fn output_declaration_text(name: &Identifier) -> (r: String)
    ensures
        r@ == output_declaration(name@),
{
    let written = name.emit_name();
    let mut out = String::from_str("  output ");
    out.append(written.as_str());
    out.append(";\n  wire ");
    out.append(written.as_str());
    out.append(";\n");
    out
}

fn wire_declaration_text(name: &Identifier) -> (r: String)
    ensures
        r@ == wire_declaration(name@),
{
    let mut out = String::from_str("  wire ");
    out.append(name.emit_name().as_str());
    out.append(";\n");
    out
}

fn connection_text(port: &Identifier, bound: &String) -> (r: String)
    ensures
        r@ == connection(port@, bound@),
{
    let mut out = String::from_str(".");
    out.append(port.emit_name().as_str());
    out.append("(");
    out.append(bound.as_str());
    out.append(")");
    out
}

fn assignment_text(name: &Identifier, driver: &String) -> (r: String)
    ensures
        r@ == assignment(name@, driver@),
{
    let mut out = String::from_str("  assign ");
    out.append(name.emit_name().as_str());
    out.append(" = ");
    out.append(driver.as_str());
    out.append(";\n");
    out
}

fn append_attribute_lines(out: &mut String, attributes: &Vec<Attribute>)
    ensures
        final(out)@ == old(out)@ + attribute_lines(
            attribute_views(attributes@),
            attributes@.len() as int,
        ),
{
    let ghost views = attribute_views(attributes@);
    let mut k: usize = 0;
    proof {
        assert(out@ =~= old(out)@ + attribute_lines(views, 0));
    }
    while k < attributes.len()
        invariant
            k <= attributes@.len(),
            views == attribute_views(attributes@),
            out@ == old(out)@ + attribute_lines(views, k as int),
        decreases attributes@.len() - k,
    {
        out.append("  ");
        out.append(attributes[k].render().as_str());
        out.append("\n");
        proof {
            assert(out@ =~= old(out)@ + attribute_lines(views, k + 1));
        }
        k = k + 1;
    }
}

fn append_wire_lines<I>(out: &mut String, instance: &Instance<I>)
    ensures
        final(out)@ == old(out)@ + wire_lines(instance@, instance@.outputs.len() as int),
{
    let mut p: usize = 0;
    proof {
        assert(out@ =~= old(out)@ + wire_lines(instance@, 0));
    }
    while p < instance.output_count()
        invariant
            p <= instance@.outputs.len(),
            out@ == old(out)@ + wire_lines(instance@, p as int),
        decreases instance@.outputs.len() - p,
    {
        let name = instance.get_instance_name().concat(instance.output_port(p).get_identifier());
        out.append(wire_declaration_text(&name).as_str());
        proof {
            assert(out@ =~= old(out)@ + wire_lines(instance@, p + 1));
        }
        p = p + 1;
    }
}

impl<I: Instantiable> Netlist<I> {
    /// Whether the object in slot `i` is written as an instance.
    pub fn is_emitted(&self, i: usize) -> (r: bool)
        ensures
            r == self@.is_emitted(i as int),
    {
        match self.get_object(i) {
            Some(Object::Instance(instance)) => instance.get_instance_type().get_constant().is_none(),
            _ => false,
        }
    }

    /// The text that stands for a signal where it is used.
    pub fn signal_text(&self, net: DrivenNet) -> (r: String)
        requires
            self@.is_net(net),
        ensures
            r@ == self@.signal_text(net),
    {
        match self.get_object(net.object) {
            Some(Object::Instance(instance)) => {
                match instance.get_instance_type().get_constant() {
                    Some(value) => value.to_string(),
                    None => self.get_net_name(net).emit_name(),
                }
            },
            _ => self.get_net_name(net).emit_name(),
        }
    }

    /// The written names of the ports of the module: the inputs, then the outputs.
    pub fn module_ports(&self) -> (r: Vec<String>)
        ensures
            text_views(r@) == self@.module_ports(),
    {
        let mut ports: Vec<String> = Vec::new();
        let mut i: usize = 0;
        proof {
            assert(text_views(ports@) =~= self@.input_ports_upto(0));
        }
        while i < self.slot_count()
            invariant
                i <= self@.slots.len(),
                text_views(ports@) == self@.input_ports_upto(i as int),
            decreases self@.slots.len() - i,
        {
            match self.get_object(i) {
                Some(Object::Input(net)) => {
                    let ghost before = text_views(ports@);
                    ports.push(net.get_identifier().emit_name());
                    assert(text_views(ports@) =~= before.push(net@.render()));
                },
                _ => {},
            }
            i = i + 1;
        }
        let ghost inputs = text_views(ports@);
        let mut k: usize = 0;
        proof {
            assert(text_views(ports@) =~= inputs + self@.output_ports_upto(0));
        }
        while k < self.output_count()
            invariant
                k <= self@.outputs.len(),
                inputs == self@.input_ports_upto(self@.slots.len() as int),
                text_views(ports@) == inputs + self@.output_ports_upto(k as int),
            decreases self@.outputs.len() - k,
        {
            let ghost before = text_views(ports@);
            ports.push(self.get_exposed(k).get_name().emit_name());
            proof {
                assert(text_views(ports@) =~= before.push(self@.outputs[k as int].name.render()));
                assert(text_views(ports@) =~= inputs + self@.output_ports_upto(k + 1));
            }
            k = k + 1;
        }
        ports
    }

    fn append_input_declarations(&self, out: &mut String)
        ensures
            final(out)@ == old(out)@ + self@.input_declarations(self@.slots.len() as int),
    {
        let mut i: usize = 0;
        proof {
            assert(out@ =~= old(out)@ + self@.input_declarations(0));
        }
        while i < self.slot_count()
            invariant
                i <= self@.slots.len(),
                out@ == old(out)@ + self@.input_declarations(i as int),
            decreases self@.slots.len() - i,
        {
            match self.get_object(i) {
                Some(Object::Input(net)) => {
                    out.append(input_declaration_text(net.get_identifier()).as_str());
                    proof {
                        assert(out@ =~= old(out)@ + self@.input_declarations(i + 1));
                    }
                },
                _ => {},
            }
            i = i + 1;
        }
    }

    fn append_output_declarations(&self, out: &mut String)
        ensures
            final(out)@ == old(out)@ + self@.output_declarations(self@.outputs.len() as int),
    {
        let mut k: usize = 0;
        proof {
            assert(out@ =~= old(out)@ + self@.output_declarations(0));
        }
        while k < self.output_count()
            invariant
                k <= self@.outputs.len(),
                out@ == old(out)@ + self@.output_declarations(k as int),
            decreases self@.outputs.len() - k,
        {
            out.append(output_declaration_text(self.get_exposed(k).get_name()).as_str());
            proof {
                assert(out@ =~= old(out)@ + self@.output_declarations(k + 1));
            }
            k = k + 1;
        }
    }

    fn append_wire_declarations(&self, out: &mut String)
        ensures
            final(out)@ == old(out)@ + self@.wire_declarations(self@.slots.len() as int),
    {
        let mut i: usize = 0;
        proof {
            assert(out@ =~= old(out)@ + self@.wire_declarations(0));
        }
        while i < self.slot_count()
            invariant
                i <= self@.slots.len(),
                out@ == old(out)@ + self@.wire_declarations(i as int),
            decreases self@.slots.len() - i,
        {
            if self.is_emitted(i) {
                match self.get_object(i) {
                    Some(Object::Instance(instance)) => {
                        append_wire_lines(out, instance);
                        proof {
                            assert(out@ =~= old(out)@ + self@.wire_declarations(i + 1));
                        }
                    },
                    _ => {},
                }
            }
            i = i + 1;
        }
    }

    /// The connections of the instance in slot `i`: its input ports, then its output
    /// ports. Every input port has to be driven.
    pub fn connections(&self, i: usize) -> (r: Vec<String>)
        requires
            self@.wf(),
            self@.is_instance(i as int),
            self@.is_driven(i as int),
        ensures
            text_views(r@) == self@.connections(i as int),
    {
        let mut items: Vec<String> = Vec::new();
        match self.get_object(i) {
            Some(Object::Instance(instance)) => {
                assert(self@.instance(i as int).operands.len() == self@.instance(
                    i as int,
                ).inputs.len());
                let mut p: usize = 0;
                proof {
                    assert(text_views(items@) =~= self@.input_connections(i as int, 0));
                }
                while p < instance.operand_count()
                    invariant
                        p <= instance@.operands.len(),
                        self@.wf(),
                        self@.is_instance(i as int),
                        self@.is_driven(i as int),
                        instance@ == self@.instance(i as int),
                        instance@.operands.len() == instance@.inputs.len(),
                        text_views(items@) == self@.input_connections(i as int, p as int),
                    decreases instance@.operands.len() - p,
                {
                    assert(self@.operands(i as int)[p as int] is Some);
                    assert(self@.is_net(self@.operands(i as int)[p as int]->0));
                    let bound = match instance.operand(p) {
                        Some(net) => self.signal_text(net),
                        None => String::new(),
                    };
                    let ghost before = text_views(items@);
                    items.push(connection_text(instance.input_port(p).get_identifier(), &bound));
                    proof {
                        assert(text_views(items@) =~= before.push(
                            connection(instance@.inputs[p as int], bound@),
                        ));
                    }
                    p = p + 1;
                }
                let ghost inputs = text_views(items@);
                let mut q: usize = 0;
                proof {
                    assert(text_views(items@) =~= inputs + self@.output_connections(i as int, 0));
                }
                while q < instance.output_count()
                    invariant
                        q <= instance@.outputs.len(),
                        instance@ == self@.instance(i as int),
                        inputs == self@.input_connections(
                            i as int,
                            instance@.operands.len() as int,
                        ),
                        text_views(items@) == inputs + self@.output_connections(
                            i as int,
                            q as int,
                        ),
                    decreases instance@.outputs.len() - q,
                {
                    let name = instance.get_instance_name().concat(
                        instance.output_port(q).get_identifier(),
                    );
                    let bound = name.emit_name();
                    let ghost before = text_views(items@);
                    items.push(connection_text(instance.output_port(q).get_identifier(), &bound));
                    proof {
                        assert(text_views(items@) =~= before.push(
                            connection(instance@.outputs[q as int], bound@),
                        ));
                        assert(text_views(items@) =~= inputs + self@.output_connections(
                            i as int,
                            q + 1,
                        ));
                    }
                    q = q + 1;
                }
            },
            _ => {},
        }
        items
    }

    fn append_instance_statement(&self, out: &mut String, i: usize)
        requires
            self@.wf(),
            self@.is_instance(i as int),
            self@.is_driven(i as int),
        ensures
            final(out)@ == old(out)@ + self@.instance_statement(i as int),
    {
        match self.get_object(i) {
            Some(Object::Instance(instance)) => {
                let mut text = String::new();
                append_attribute_lines(&mut text, instance.get_attributes());
                text.append("  ");
                text.append(instance.get_instance_type().get_name().emit_name().as_str());
                text.append(" ");
                text.append(instance.get_instance_name().emit_name().as_str());
                text.append(" (\n");
                let items = self.connections(i);
                append_comma_lines(&mut text, "    ", &items);
                text.append("  );\n");
                proof {
                    assert(text@ =~= self@.instance_statement(i as int));
                }
                out.append(text.as_str());
            },
            _ => {},
        }
    }

    fn append_instance_statements(&self, out: &mut String)
        requires
            self@.wf(),
            self@.emit_error() is None,
        ensures
            final(out)@ == old(out)@ + self@.instance_statements(self@.slots.len() as int),
    {
        let mut i: usize = 0;
        proof {
            assert(out@ =~= old(out)@ + self@.instance_statements(0));
        }
        while i < self.slot_count()
            invariant
                i <= self@.slots.len(),
                self@.wf(),
                self@.emit_error() is None,
                out@ == old(out)@ + self@.instance_statements(i as int),
            decreases self@.slots.len() - i,
        {
            if self.is_emitted(i) {
                proof {
                    self@.lemma_first_undriven(self@.slots.len() as int, i as int);
                }
                self.append_instance_statement(out, i);
                proof {
                    assert(out@ =~= old(out)@ + self@.instance_statements(i + 1));
                }
            }
            i = i + 1;
        }
    }

    fn append_assignments(&self, out: &mut String)
        requires
            self@.wf(),
        ensures
            final(out)@ == old(out)@ + self@.assignments(self@.outputs.len() as int),
    {
        let mut k: usize = 0;
        proof {
            assert(out@ =~= old(out)@ + self@.assignments(0));
        }
        while k < self.output_count()
            invariant
                k <= self@.outputs.len(),
                self@.wf(),
                out@ == old(out)@ + self@.assignments(k as int),
            decreases self@.outputs.len() - k,
        {
            let output = self.get_exposed(k);
            assert(self@.is_net(self@.outputs[k as int].driver));
            let driver = self.signal_text(output.get_driver());
            out.append(assignment_text(output.get_name(), &driver).as_str());
            proof {
                assert(out@ =~= old(out)@ + self@.assignments(k + 1));
            }
            k = k + 1;
        }
    }

    /// The first input port of an instance that is written that nothing drives.
    fn find_undriven(&self) -> (r: Option<Net>)
        requires
            self@.wf(),
        ensures
            match r {
                Some(port) => self@.first_undriven(self@.slots.len() as int) == Some(port@),
                None => self@.first_undriven(self@.slots.len() as int) is None,
            },
    {
        let mut i: usize = 0;
        while i < self.slot_count()
            invariant
                i <= self@.slots.len(),
                self@.wf(),
                self@.first_undriven(i as int) is None,
            decreases self@.slots.len() - i,
        {
            if self.is_emitted(i) {
                let mut undriven = self.undriven_ports(i);
                if undriven.len() > 0 {
                    let port = undriven.swap_remove(0);
                    proof {
                        self@.lemma_first_undriven_stays(i + 1, self@.slots.len() as int);
                    }
                    return Some(port);
                }
            }
            i = i + 1;
        }
        None
    }

    /// Writes the netlist out as a Verilog module. An instance that is written cannot
    /// have an input port that nothing drives: the error names the first such port.
    pub fn to_verilog(&self) -> (r: Result<String, Error>)
        requires
            self@.wf(),
        ensures
            match self@.emit_error() {
                Some(error) => r matches Err(e) && e@ == error,
                None => r matches Ok(text) && text@ == self@.render(),
            },
    {
        match self.find_undriven() {
            Some(port) => {
                return Err(Error::NetNotFound(port));
            },
            None => {},
        }
        let mut out = String::from_str("module ");
        out.append(self.get_name().as_str());
        out.append(" (\n");
        let ports = self.module_ports();
        append_comma_lines(&mut out, "  ", &ports);
        out.append(");\n");
        self.append_input_declarations(&mut out);
        self.append_output_declarations(&mut out);
        self.append_wire_declarations(&mut out);
        self.append_instance_statements(&mut out);
        self.append_assignments(&mut out);
        out.append("endmodule\n");
        Ok(out)
    }
}

} // verus!
