//! Names of signals and instances, and the nets they label.

use std::ops::Add;
use vstd::prelude::*;
use vstd::std_specs::cmp::PartialEqSpecImpl;
use vstd::std_specs::convert::FromSpecImpl;
use vstd::std_specs::ops::AddSpecImpl;
use vstd::string::StringExecFns;

use crate::attribute::{Parameter, ParameterView};
use crate::logic::Logic;
use crate::text::push_char;

verus! {

/// The character that marks an escaped identifier in emitted text.
pub open spec fn escape_marker() -> char {
    '\\'
}

/// Whether `c` is a decimal digit.
pub open spec fn is_digit(c: char) -> bool {
    '0' <= c <= '9'
}

/// Whether `c` may stand in an identifier that is written bare: a letter, a digit or an
/// underscore.
pub open spec fn is_bare_char(c: char) -> bool {
    ('a' <= c <= 'z') || ('A' <= c <= 'Z') || is_digit(c) || c == '_'
}

/// Whether every character of `s` may stand in a bare identifier.
pub open spec fn all_bare(s: Seq<char>) -> bool {
    forall|i: int| 0 <= i < s.len() ==> is_bare_char(#[trigger] s[i])
}

/// Whether a name cannot be written bare: it holds a character outside the bare set, or it
/// begins with a digit.
pub open spec fn needs_escape(s: Seq<char>) -> bool {
    !all_bare(s) || (s.len() > 0 && is_digit(s[0]))
}

/// A name with its bracketed indices flattened: every `[` becomes an underscore and every
/// `]` is dropped, so that `id[1]` becomes `id_1`.
pub open spec fn flatten(s: Seq<char>) -> Seq<char>
    decreases s.len(),
{
    if s.len() == 0 {
        Seq::empty()
    } else if s.last() == '[' {
        flatten(s.drop_last()).push('_')
    } else if s.last() == ']' {
        flatten(s.drop_last())
    } else {
        flatten(s.drop_last()).push(s.last())
    }
}

/// What an identifier is: its name without any escape marker, and whether it has to be
/// escaped when it is written out.
pub struct IdentifierView {
    pub name: Seq<char>,
    pub escaped: bool,
}

impl IdentifierView {
    /// An identifier that is not marked as escaped can be written bare.
    pub open spec fn wf(self) -> bool {
        !self.escaped ==> !needs_escape(self.name)
    }

    /// The identifier read from the text `s`. A leading escape marker is taken off and
    /// marks the identifier as escaped; any other text is escaped exactly when it cannot be
    /// written bare.
    pub open spec fn parse(s: Seq<char>) -> IdentifierView {
        if s.len() > 0 && s[0] == escape_marker() {
            IdentifierView { name: s.subrange(1, s.len() as int), escaped: true }
        } else {
            IdentifierView { name: s, escaped: needs_escape(s) }
        }
    }

    /// The two names, each flattened, joined by an underscore. The result is escaped if
    /// either operand is.
    pub open spec fn concat(self, rhs: IdentifierView) -> IdentifierView {
        IdentifierView {
            name: flatten(self.name) + seq!['_'] + flatten(rhs.name),
            escaped: self.escaped || rhs.escaped,
        }
    }

    /// The identifier as it is written in emitted text: the name, behind the escape marker
    /// if the identifier is escaped.
    pub open spec fn render(self) -> Seq<char> {
        if self.escaped {
            seq![escape_marker()] + self.name
        } else {
            self.name
        }
    }
}

/// A name for a signal, a port, a cell or an instance.
#[derive(Debug, Hash)]
pub struct Identifier {
    name: String,
    escaped: bool,
}

impl View for Identifier {
    type V = IdentifierView;

    closed spec fn view(&self) -> IdentifierView {
        IdentifierView { name: self.name@, escaped: self.escaped }
    }
}

fn bare_char(c: char) -> (r: bool)
    ensures
        r == is_bare_char(c),
{
    (c >= 'a' && c <= 'z') || (c >= 'A' && c <= 'Z') || (c >= '0' && c <= '9') || c == '_'
}

fn scan_all_bare(s: &str) -> (r: bool)
    ensures
        r == all_bare(s@),
{
    let mut bare = true;
    for c in it: s.chars()
        invariant
            it.seq() == s@,
            bare == all_bare(s@.take(it.index())),
    {
        let ghost k = it.index();
        if !bare_char(c) {
            bare = false;
        }
        proof {
            assert(s@.take(k + 1)[k] == c);
            if all_bare(s@.take(k)) && is_bare_char(c) {
                assert forall|i: int| 0 <= i < k + 1 implies is_bare_char(
                    #[trigger] s@.take(k + 1)[i],
                ) by {
                    if i < k {
                        assert(s@.take(k)[i] == s@.take(k + 1)[i]);
                    }
                }
            }
            if !all_bare(s@.take(k)) {
                let i = choose|i: int| 0 <= i < k && !is_bare_char(#[trigger] s@.take(k)[i]);
                assert(s@.take(k + 1)[i] == s@.take(k)[i]);
            }
        }
    }
    proof {
        assert(s@.take(s@.len() as int) =~= s@);
    }
    bare
}

fn scan_needs_escape(s: &str) -> (r: bool)
    ensures
        r == needs_escape(s@),
{
    let bare = scan_all_bare(s);
    if !bare {
        true
    } else if s.unicode_len() > 0 {
        let c = s.get_char(0);
        c >= '0' && c <= '9'
    } else {
        false
    }
}

fn flatten_text(s: &str) -> (r: String)
    ensures
        r@ == flatten(s@),
{
    let mut out = String::new();
    for c in it: s.chars()
        invariant
            it.seq() == s@,
            out@ == flatten(s@.take(it.index())),
    {
        let ghost k = it.index();
        proof {
            assert(s@.take(k + 1).drop_last() =~= s@.take(k));
            assert(s@.take(k + 1).last() == c);
        }
        if c == '[' {
            push_char(&mut out, '_');
        } else if c != ']' {
            push_char(&mut out, c);
        }
    }
    proof {
        assert(s@.take(s@.len() as int) =~= s@);
    }
    out
}

impl Identifier {
    /// Reads an identifier from its text. A leading escape marker is taken off and marks
    /// the identifier as escaped.
    pub fn new(name: String) -> (r: Identifier)
        ensures
            r@ == IdentifierView::parse(name@),
            r@.wf(),
    {
        let text = name.as_str();
        let len = text.unicode_len();
        if len > 0 && text.get_char(0) == '\\' {
            let root = String::from_str(text.substring_char(1, len));
            Identifier { name: root, escaped: true }
        } else {
            let escaped = scan_needs_escape(text);
            Identifier { name, escaped }
        }
    }

    /// The identifier of bit `index` of the bus `name`: the text `name[index]`, which is
    /// always escaped.
    pub fn new_bit(name: &str, index: usize) -> (r: Identifier)
        ensures
            r@ == IdentifierView::parse(bit_name(name@, index as nat)),
            r@.escaped,
            r@.wf(),
    {
        let mut text = String::from_str(name);
        push_char(&mut text, '[');
        let number = crate::text::decimal(index);
        text.append(number.as_str());
        push_char(&mut text, ']');
        proof {
            let t = bit_name(name@, index as nat);
            assert(text@ =~= t);
            assert(t.last() == ']');
            assert(!is_bare_char(t[t.len() - 1]));
        }
        Identifier::new(text)
    }

    /// Whether the identifier has to be escaped when it is written out.
    pub fn is_escaped(&self) -> (r: bool)
        ensures
            r == self@.escaped,
    {
        self.escaped
    }

    /// The name, without any escape marker.
    pub fn get_name(&self) -> (r: &str)
        ensures
            r@ == self@.name,
    {
        self.name.as_str()
    }

    /// The identifier as it is written in emitted text.
    pub fn emit_name(&self) -> (r: String)
        ensures
            r@ == self@.render(),
    {
        if self.escaped {
            let mut out = String::new();
            push_char(&mut out, '\\');
            out.append(self.name.as_str());
            proof {
                assert(out@ =~= seq![escape_marker()] + self@.name);
            }
            out
        } else {
            self.name.clone()
        }
    }

    /// Joins two identifiers with an underscore, flattening bracketed indices in both.
    pub fn concat(&self, rhs: &Identifier) -> (r: Identifier)
        ensures
            r@ == self@.concat(rhs@),
            self@.wf() && rhs@.wf() ==> r@.wf(),
    {
        proof {
            if self@.wf() && rhs@.wf() {
                lemma_concat_wf(self@, rhs@);
            }
        }
        let mut name = flatten_text(self.name.as_str());
        push_char(&mut name, '_');
        let right = flatten_text(rhs.name.as_str());
        name.append(right.as_str());
        proof {
            assert(name@ =~= flatten(self@.name) + seq!['_'] + flatten(rhs@.name));
        }
        Identifier { name, escaped: self.escaped || rhs.escaped }
    }
}

/// The text that names bit `index` of the bus `name`.
pub open spec fn bit_name(name: Seq<char>, index: nat) -> Seq<char> {
    ((name.push('[')) + crate::text::decimal_digits(index)).push(']')
}

impl Clone for Identifier {
    fn clone(&self) -> (r: Identifier)
        ensures
            r@ == self@,
    {
        Identifier { name: self.name.clone(), escaped: self.escaped }
    }
}

impl PartialEq for Identifier {
    fn eq(&self, other: &Identifier) -> (r: bool) {
        self.name == other.name && self.escaped == other.escaped
    }
}

impl PartialEqSpecImpl for Identifier {
    open spec fn obeys_eq_spec() -> bool {
        true
    }

    open spec fn eq_spec(&self, other: &Identifier) -> bool {
        self@ == other@
    }
}

impl Eq for Identifier {

}

impl Add for Identifier {
    type Output = Identifier;

    /// Joins two identifiers as `concat` does.
    fn add(self, rhs: Identifier) -> (r: Identifier)
        ensures
            r@ == self@.concat(rhs@),
    {
        self.concat(&rhs)
    }
}

/// The sum of two identifiers is known by what it holds, which `add` states: no value
/// of the type can be named for it here.
impl AddSpecImpl for Identifier {
    open spec fn obeys_add_spec() -> bool {
        false
    }

    open spec fn add_req(self, rhs: Identifier) -> bool {
        true
    }

    open spec fn add_spec(self, rhs: Identifier) -> Identifier {
        self
    }
}

impl<'a> From<&'a str> for Identifier {
    /// Reads an identifier from its text as `new` does.
    fn from(name: &'a str) -> (r: Identifier)
        ensures
            r@ == IdentifierView::parse(name@),
            r@.wf(),
    {
        Identifier::new(String::from_str(name))
    }
}

/// The identifier read from a text is known by what it holds, which `from` states.
impl<'a> FromSpecImpl<&'a str> for Identifier {
    open spec fn obeys_from_spec() -> bool {
        false
    }

    open spec fn from_spec(name: &'a str) -> Identifier {
        arbitrary()
    }
}

/// Flattening leaves a name without brackets as it is.
pub proof fn lemma_flatten_bare(s: Seq<char>)
    requires
        all_bare(s),
    ensures
        flatten(s) == s,
    decreases s.len(),
{
    if s.len() > 0 {
        assert(is_bare_char(s[s.len() - 1]));
        assert forall|i: int| 0 <= i < s.drop_last().len() implies is_bare_char(
            #[trigger] s.drop_last()[i],
        ) by {
            assert(s.drop_last()[i] == s[i]);
        }
        lemma_flatten_bare(s.drop_last());
        assert(s.drop_last().push(s.last()) =~= s);
    } else {
        assert(s =~= Seq::empty());
    }
}

/// Joining two identifiers that can both be written bare gives one that can be written
/// bare: an identifier that is not marked as escaped never needs the marker.
pub proof fn lemma_concat_wf(a: IdentifierView, b: IdentifierView)
    requires
        a.wf(),
        b.wf(),
    ensures
        a.concat(b).wf(),
{
    if !a.escaped && !b.escaped {
        lemma_flatten_bare(a.name);
        lemma_flatten_bare(b.name);
        let joined = a.concat(b).name;
        assert forall|i: int| 0 <= i < joined.len() implies is_bare_char(#[trigger] joined[i]) by {
            if i < a.name.len() {
                assert(joined[i] == a.name[i]);
            } else if i > a.name.len() {
                assert(joined[i] == b.name[i - a.name.len() - 1]);
            }
        }
        if a.name.len() > 0 {
            assert(joined[0] == a.name[0]);
        }
    }
}

/// Escaping carries over to a concatenation: where at least one operand is escaped, the
/// result is escaped, and its written form begins with the escape marker.
pub proof fn lemma_concat_escaped(a: IdentifierView, b: IdentifierView)
    requires
        a.escaped || b.escaped,
    ensures
        a.concat(b).escaped,
        a.concat(b).render().len() > 0,
        a.concat(b).render()[0] == escape_marker(),
{
}

/// Two identifiers are written the same way only if they are the same identifier: to
/// compare identifiers is to compare their written forms.
pub proof fn lemma_render_injective(a: IdentifierView, b: IdentifierView)
    requires
        a.wf(),
        b.wf(),
        a.render() == b.render(),
    ensures
        a == b,
{
    if a.escaped && b.escaped {
        assert(a.name =~= a.render().subrange(1, a.render().len() as int));
        assert(b.name =~= b.render().subrange(1, b.render().len() as int));
    } else if a.escaped {
        assert(b.name[0] == escape_marker());
        assert(!is_bare_char(b.name[0]));
    } else if b.escaped {
        assert(a.name[0] == escape_marker());
        assert(!is_bare_char(a.name[0]));
    }
}

/// A single-bit signal, known by its name. As a port of a cell it is a template: it names
/// the port and is bound to a signal only once the cell is placed in a netlist.
#[derive(Debug, Hash)]
pub struct Net {
    identifier: Identifier,
}

impl View for Net {
    type V = IdentifierView;

    closed spec fn view(&self) -> IdentifierView {
        self.identifier@
    }
}

impl Net {
    /// A single-bit net with the given name, driven by nothing yet.
    pub fn new_logic(name: Identifier) -> (r: Net)
        ensures
            r@ == name@,
    {
        Net { identifier: name }
    }

    /// The name of the net.
    pub fn get_identifier(&self) -> (r: &Identifier)
        ensures
            r@ == self@,
    {
        &self.identifier
    }

    /// Gives the name of the net away.
    pub fn take_identifier(self) -> (r: Identifier)
        ensures
            r@ == self@,
    {
        self.identifier
    }
}

impl Clone for Net {
    fn clone(&self) -> (r: Net)
        ensures
            r@ == self@,
    {
        Net { identifier: self.identifier.clone() }
    }
}

impl PartialEq for Net {
    fn eq(&self, other: &Net) -> (r: bool) {
        self.identifier == other.identifier
    }
}

impl PartialEqSpecImpl for Net {
    open spec fn obeys_eq_spec() -> bool {
        true
    }

    open spec fn eq_spec(&self, other: &Net) -> bool {
        self@ == other@
    }
}

impl Eq for Net {

}

impl<'a> From<&'a str> for Net {
    /// A single-bit net with the name read from the text.
    fn from(name: &'a str) -> (r: Net)
        ensures
            r@ == IdentifierView::parse(name@),
    {
        Net::new_logic(Identifier::new(String::from_str(name)))
    }
}

/// The net read from a text is known by what it holds, which `from` states.
impl<'a> FromSpecImpl<&'a str> for Net {
    open spec fn obeys_from_spec() -> bool {
        false
    }

    open spec fn from_spec(name: &'a str) -> Net {
        arbitrary()
    }
}

/// What an optional parameter holds.
pub open spec fn parameter_view(p: Option<Parameter>) -> Option<ParameterView> {
    match p {
        Some(value) => Some(value@),
        None => None,
    }
}

/// What can be placed in a netlist as a cell: a primitive with named ports and
/// parameters.
///
/// A netlist reads from its cells only what this interface gives. It takes the ports of a
/// cell when the cell is inserted, and it asks for the name of the cell, and whether the
/// cell stands for a constant, each time that it writes the cell out.
///
/// The first six items say what a cell is; the methods give it out. A cell that is to be
/// verified defines the six for itself. They have bodies here so that a cell which is not
/// verified can leave them out: nothing is known of what its methods give.
pub trait Instantiable: Sized {
    /// The name of the primitive.
    open spec fn name(&self) -> IdentifierView {
        arbitrary()
    }

    /// The names of the input ports, in order.
    open spec fn input_ports(&self) -> Seq<IdentifierView> {
        arbitrary()
    }

    /// The names of the output ports, in order.
    open spec fn output_ports(&self) -> Seq<IdentifierView> {
        arbitrary()
    }

    /// The value of the parameter `id`, if the primitive has such a parameter.
    open spec fn parameter(&self, id: IdentifierView) -> Option<ParameterView> {
        arbitrary()
    }

    /// The constant that the primitive drives, if it stands for one.
    open spec fn constant(&self) -> Option<Logic> {
        arbitrary()
    }

    /// Whether the primitive holds state.
    open spec fn sequential(&self) -> bool {
        arbitrary()
    }

    /// Returns the name of the primitive.
    fn get_name(&self) -> (r: &Identifier)
        ensures
            r@ == self.name(),
    ;

    /// Returns the input ports of the primitive.
    fn get_input_ports(&self) -> (r: Vec<Net>)
        ensures
            net_views(r@) == self.input_ports(),
    ;

    /// Returns the output ports of the primitive.
    fn get_output_ports(&self) -> (r: Vec<Net>)
        ensures
            net_views(r@) == self.output_ports(),
    ;

    /// Returns whether the primitive has the parameter `id`.
    fn has_parameter(&self, id: &Identifier) -> (r: bool)
        ensures
            r == self.parameter(id@).is_some(),
    ;

    /// Returns the value of the parameter `id`, if the primitive has such a parameter.
    fn get_parameter(&self, id: &Identifier) -> (r: Option<Parameter>)
        ensures
            parameter_view(r) == self.parameter(id@),
    ;

    /// Gives the parameter `id` the value `val` and returns the value that it had. Where
    /// the primitive has no such parameter nothing changes. A value for a parameter that
    /// is there has to be of the kind of the value that it replaces.
    fn set_parameter(&mut self, id: &Identifier, val: Parameter) -> (r: Option<Parameter>)
        requires
            old(self).parameter(id@) matches Some(current) ==> current.same_kind(val@),
        ensures
            parameter_view(r) == old(self).parameter(id@),
            old(self).parameter(id@) is None ==> *final(self) == *old(self),
            old(self).parameter(id@) is Some ==> final(self).parameter(id@) == Some(val@),
            forall|other: IdentifierView|
                other != id@ ==> #[trigger] final(self).parameter(other) == old(self).parameter(
                    other,
                ),
            final(self).name() == old(self).name(),
            final(self).input_ports() == old(self).input_ports(),
            final(self).output_ports() == old(self).output_ports(),
    ;

    /// Returns every parameter of the primitive with its value.
    fn parameters(&self) -> (r: Vec<(Identifier, Parameter)>)
        ensures
            forall|k: int|
                0 <= k < r@.len() ==> self.parameter((#[trigger] r@[k]).0@) == Some(r@[k].1@),
            forall|id: IdentifierView|
                (#[trigger] self.parameter(id)) is Some ==> exists|k: int|
                    0 <= k < r@.len() && (#[trigger] r@[k]).0@ == id,
    ;

    /// Creates the primitive that drives the constant `val`, where the family of
    /// primitives has one. Only a definite value can be driven.
    fn from_constant(val: Logic) -> (r: Option<Self>)
        ensures
            !val.is_bool() ==> r is None,
            r matches Some(cell) ==> cell.constant() == Some(val),
    ;

    /// Returns the constant that the primitive drives, if it stands for one.
    fn get_constant(&self) -> (r: Option<Logic>)
        ensures
            r == self.constant(),
    ;

    /// Returns whether the primitive holds state.
    fn is_seq(&self) -> (r: bool)
        ensures
            r == self.sequential(),
    ;
}

/// The names of a sequence of nets.
pub open spec fn net_views(nets: Seq<Net>) -> Seq<IdentifierView> {
    nets.map_values(|n: Net| n@)
}

/// What a sequence of identifiers holds.
pub open spec fn identifier_views(ids: Seq<Identifier>) -> Seq<IdentifierView> {
    ids.map_values(|id: Identifier| id@)
}

/// Nets with the given names, in order.
pub fn nets_named(names: &Vec<Identifier>) -> (r: Vec<Net>)
    ensures
        net_views(r@) == identifier_views(names@),
{
    let ghost all = identifier_views(names@);
    let mut nets: Vec<Net> = Vec::new();
    let mut i: usize = 0;
    while i < names.len()
        invariant
            i <= names.len(),
            all == identifier_views(names@),
            net_views(nets@) == all.take(i as int),
        decreases names.len() - i,
    {
        let ghost done = net_views(nets@);
        nets.push(Net::new_logic(names[i].clone()));
        proof {
            assert(net_views(nets@) =~= done.push(names@[i as int]@));
            assert(all.take(i + 1) =~= all.take(i as int).push(names@[i as int]@));
        }
        i = i + 1;
    }
    proof {
        assert(all.take(names.len() as int) =~= all);
    }
    nets
}

/// A copy of a list of nets.
pub fn copy_nets(nets: &Vec<Net>) -> (r: Vec<Net>)
    ensures
        net_views(r@) == net_views(nets@),
{
    let mut out: Vec<Net> = Vec::new();
    let mut i: usize = 0;
    while i < nets.len()
        invariant
            i <= nets.len(),
            net_views(out@) == net_views(nets@).take(i as int),
        decreases nets.len() - i,
    {
        let ghost done = net_views(out@);
        out.push(nets[i].clone());
        proof {
            assert(net_views(out@) =~= done.push(nets@[i as int]@));
            assert(net_views(nets@).take(i + 1) =~= net_views(nets@).take(i as int).push(
                nets@[i as int]@,
            ));
        }
        i = i + 1;
    }
    proof {
        assert(net_views(nets@).take(nets.len() as int) =~= net_views(nets@));
    }
    out
}

/// The written forms of `names`, separated by a comma and a space.
pub open spec fn render_names(names: Seq<IdentifierView>) -> Seq<char>
    decreases names.len(),
{
    if names.len() == 0 {
        Seq::empty()
    } else if names.len() == 1 {
        names[0].render()
    } else {
        render_names(names.drop_last()) + ", "@ + names.last().render()
    }
}

/// Appends the written forms of the names of `nets` to `out`, separated by commas.
pub fn append_net_names(out: &mut String, nets: &Vec<Net>)
    ensures
        final(out)@ == old(out)@ + render_names(net_views(nets@)),
{
    let ghost names = net_views(nets@);
    let mut i: usize = 0;
    while i < nets.len()
        invariant
            i <= nets.len(),
            names == net_views(nets@),
            out@ == old(out)@ + render_names(names.take(i as int)),
        decreases nets.len() - i,
    {
        let text = nets[i].get_identifier().emit_name();
        proof {
            assert(names.take(i + 1).drop_last() =~= names.take(i as int));
            assert(names.take(i + 1).last() == nets@[i as int]@);
        }
        if i > 0 {
            out.append(", ");
        }
        out.append(text.as_str());
        proof {
            if i == 0 {
                assert(render_names(names.take(0)) =~= Seq::<char>::empty());
                assert(out@ =~= old(out)@ + render_names(names.take(1)));
            } else {
                assert(out@ =~= old(out)@ + render_names(names.take(i + 1)));
            }
        }
        i = i + 1;
    }
    proof {
        assert(names.take(nets.len() as int) =~= names);
        if nets.len() == 0 {
            assert(out@ =~= old(out)@ + render_names(names));
        }
    }
}

/// Appends the written forms of `ids` to `out`, separated by commas.
pub fn append_identifier_names(out: &mut String, ids: &Vec<Identifier>)
    ensures
        final(out)@ == old(out)@ + render_names(identifier_views(ids@)),
{
    let ghost names = identifier_views(ids@);
    let mut i: usize = 0;
    while i < ids.len()
        invariant
            i <= ids.len(),
            names == identifier_views(ids@),
            out@ == old(out)@ + render_names(names.take(i as int)),
        decreases ids.len() - i,
    {
        let text = ids[i].emit_name();
        proof {
            assert(names.take(i + 1).drop_last() =~= names.take(i as int));
            assert(names.take(i + 1).last() == ids@[i as int]@);
        }
        if i > 0 {
            out.append(", ");
        }
        out.append(text.as_str());
        proof {
            if i == 0 {
                assert(render_names(names.take(0)) =~= Seq::<char>::empty());
                assert(out@ =~= old(out)@ + render_names(names.take(1)));
            } else {
                assert(out@ =~= old(out)@ + render_names(names.take(i + 1)));
            }
        }
        i = i + 1;
    }
    proof {
        assert(names.take(ids.len() as int) =~= names);
        if ids.len() == 0 {
            assert(out@ =~= old(out)@ + render_names(names));
        }
    }
}

} // verus!
