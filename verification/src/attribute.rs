//! Parameters of cells and attributes of instances.

use vstd::prelude::*;
use vstd::std_specs::cmp::PartialEqSpecImpl;
use vstd::string::StringExecFns;

use crate::logic::Logic;
use crate::text::{decimal, decimal_digits, decimal_u64, push_char};

verus! {

/// A value that configures a cell.
#[derive(Debug)]
pub enum Parameter {
    /// An unsigned integer
    Integer(u64),
    /// A vector of bits, the least significant bit first
    BitVec(Vec<bool>),
    /// A four-state logic value
    Logic(Logic),
}

/// What a parameter holds.
pub enum ParameterView {
    Integer(u64),
    BitVec(Seq<bool>),
    Logic(Logic),
}

/// The bits of a vector as they are written: the most significant bit first.
pub open spec fn render_bits(bits: Seq<bool>) -> Seq<char>
    decreases bits.len(),
{
    if bits.len() == 0 {
        Seq::empty()
    } else {
        seq![if bits.last() { '1' } else { '0' }] + render_bits(bits.drop_last())
    }
}

impl ParameterView {
    /// Whether two values are of the same kind.
    pub open spec fn same_kind(self, other: ParameterView) -> bool {
        match (self, other) {
            (ParameterView::Integer(_), ParameterView::Integer(_)) => true,
            (ParameterView::BitVec(_), ParameterView::BitVec(_)) => true,
            (ParameterView::Logic(_), ParameterView::Logic(_)) => true,
            _ => false,
        }
    }

    /// The value as it is written: an integer as a decimal numeral, a bit vector as its
    /// width, `'b` and its bits, a logic value as its literal.
    pub open spec fn render(self) -> Seq<char> {
        match self {
            ParameterView::Integer(n) => decimal_digits(n as nat),
            ParameterView::BitVec(bits) => decimal_digits(bits.len()) + "'b"@ + render_bits(bits),
            ParameterView::Logic(value) => value.literal(),
        }
    }
}

impl View for Parameter {
    type V = ParameterView;

    open spec fn view(&self) -> ParameterView {
        match self {
            Parameter::Integer(n) => ParameterView::Integer(*n),
            Parameter::BitVec(bits) => ParameterView::BitVec(bits@),
            Parameter::Logic(value) => ParameterView::Logic(*value),
        }
    }
}

fn same_bits(a: &Vec<bool>, b: &Vec<bool>) -> (r: bool)
    ensures
        r == (a@ == b@),
{
    if a.len() != b.len() {
        return false;
    }
    let mut i: usize = 0;
    while i < a.len()
        invariant
            i <= a.len(),
            a.len() == b.len(),
            a@.take(i as int) == b@.take(i as int),
        decreases a.len() - i,
    {
        if a[i] != b[i] {
            return false;
        }
        proof {
            assert(a@.take(i + 1) =~= a@.take(i as int).push(a@[i as int]));
            assert(b@.take(i + 1) =~= b@.take(i as int).push(b@[i as int]));
        }
        i = i + 1;
    }
    proof {
        assert(a@.take(a.len() as int) =~= a@);
        assert(b@.take(b.len() as int) =~= b@);
    }
    true
}

fn copy_bits(bits: &Vec<bool>) -> (r: Vec<bool>)
    ensures
        r@ == bits@,
{
    let mut out: Vec<bool> = Vec::new();
    let mut i: usize = 0;
    while i < bits.len()
        invariant
            i <= bits.len(),
            out@ == bits@.take(i as int),
        decreases bits.len() - i,
    {
        out.push(bits[i]);
        proof {
            assert(bits@.take(i + 1) =~= bits@.take(i as int).push(bits@[i as int]));
        }
        i = i + 1;
    }
    proof {
        assert(bits@.take(bits.len() as int) =~= bits@);
    }
    out
}

impl Parameter {
    /// A logic parameter that holds a definite value.
    pub fn from_bool(b: bool) -> (r: Parameter)
        ensures
            r@ == ParameterView::Logic(Logic::of_bool(b)),
    {
        Parameter::Logic(Logic::from_bool(b))
    }

    /// The value as it is written.
    pub fn render(&self) -> (r: String)
        ensures
            r@ == self@.render(),
    {
        match self {
            Parameter::Integer(n) => decimal_u64(*n),
            Parameter::BitVec(bits) => {
                let mut out = decimal(bits.len());
                out.append("'b");
                let ghost head = out@;
                let mut i: usize = bits.len();
                proof {
                    assert(bits@.take(bits.len() as int) =~= bits@);
                }
                while i > 0
                    invariant
                        i <= bits.len(),
                        out@ + render_bits(bits@.take(i as int)) == head + render_bits(bits@),
                    decreases i,
                {
                    i = i - 1;
                    proof {
                        assert(bits@.take(i + 1).drop_last() =~= bits@.take(i as int));
                        assert(bits@.take(i + 1).last() == bits@[i as int]);
                        let c = if bits@[i as int] {
                            '1'
                        } else {
                            '0'
                        };
                        assert(out@.push(c) + render_bits(bits@.take(i as int)) =~= out@
                            + render_bits(bits@.take(i + 1)));
                    }
                    if bits[i] {
                        push_char(&mut out, '1');
                    } else {
                        push_char(&mut out, '0');
                    }
                }
                proof {
                    assert(render_bits(bits@.take(0)) =~= Seq::<char>::empty());
                    assert(out@ =~= out@ + render_bits(bits@.take(0)));
                }
                out
            },
            Parameter::Logic(value) => value.to_string(),
        }
    }
}

impl Clone for Parameter {
    fn clone(&self) -> (r: Parameter)
        ensures
            r@ == self@,
    {
        match self {
            Parameter::Integer(n) => Parameter::Integer(*n),
            Parameter::BitVec(bits) => Parameter::BitVec(copy_bits(bits)),
            Parameter::Logic(value) => Parameter::Logic(*value),
        }
    }
}

impl PartialEq for Parameter {
    fn eq(&self, other: &Parameter) -> (r: bool) {
        match (self, other) {
            (Parameter::Integer(a), Parameter::Integer(b)) => *a == *b,
            (Parameter::BitVec(a), Parameter::BitVec(b)) => same_bits(a, b),
            (Parameter::Logic(a), Parameter::Logic(b)) => *a == *b,
            _ => false,
        }
    }
}

impl PartialEqSpecImpl for Parameter {
    open spec fn obeys_eq_spec() -> bool {
        true
    }

    open spec fn eq_spec(&self, other: &Parameter) -> bool {
        self@ == other@
    }
}

impl Eq for Parameter {

}

/// The key of an attribute.
pub type AttributeKey = String;

/// The value of an attribute. A flag has none.
pub type AttributeValue = Option<String>;

/// A piece of metadata on an instance: a flag, or a key with a value.
#[derive(Debug)]
pub struct Attribute {
    key: String,
    value: Option<String>,
}

/// What an attribute holds.
pub struct AttributeView {
    pub key: Seq<char>,
    pub value: Option<Seq<char>>,
}

/// What an optional text holds.
pub open spec fn text_view(text: Option<String>) -> Option<Seq<char>> {
    match text {
        Some(t) => Some(t@),
        None => None,
    }
}

impl AttributeView {
    /// The attribute as it is written: `(* key *)` for a flag, `(* key = value *)` for a
    /// key with a value.
    pub open spec fn render(self) -> Seq<char> {
        match self.value {
            Some(value) => "(* "@ + self.key + " = "@ + value + " *)"@,
            None => "(* "@ + self.key + " *)"@,
        }
    }
}

impl View for Attribute {
    type V = AttributeView;

    closed spec fn view(&self) -> AttributeView {
        AttributeView { key: self.key@, value: text_view(self.value) }
    }
}

impl Attribute {
    /// An attribute with the given key and value.
    pub fn new(key: String, value: Option<String>) -> (r: Attribute)
        ensures
            r@ == (AttributeView { key: key@, value: text_view(value) }),
    {
        Attribute { key, value }
    }

    /// The key of the attribute.
    pub fn get_key(&self) -> (r: &String)
        ensures
            r@ == self@.key,
    {
        &self.key
    }

    /// The value of the attribute. A flag has none.
    pub fn get_value(&self) -> (r: &Option<String>)
        ensures
            text_view(*r) == self@.value,
    {
        &self.value
    }

    /// The attribute as it is written.
    pub fn render(&self) -> (r: String)
        ensures
            r@ == self@.render(),
    {
        let mut out = String::from_str("(* ");
        out.append(self.key.as_str());
        match &self.value {
            Some(value) => {
                out.append(" = ");
                out.append(value.as_str());
            },
            None => {},
        }
        out.append(" *)");
        out
    }
}

/// What a list of attributes holds.
pub open spec fn attribute_views(attrs: Seq<Attribute>) -> Seq<AttributeView> {
    attrs.map_values(|a: Attribute| a@)
}

/// The place of the first attribute with the given key.
pub open spec fn key_index(attrs: Seq<AttributeView>, key: Seq<char>) -> Option<int>
    decreases attrs.len(),
{
    if attrs.len() == 0 {
        None
    } else {
        match key_index(attrs.drop_last(), key) {
            Some(i) => Some(i),
            None => if attrs.last().key == key {
                Some(attrs.len() - 1)
            } else {
                None
            },
        }
    }
}

/// The list once `key` has been given `value`: the attribute with that key is replaced
/// where it stands, or a new one is added at the end.
pub open spec fn put_key(attrs: Seq<AttributeView>, key: Seq<char>, value: Option<Seq<char>>) -> Seq<
    AttributeView,
> {
    match key_index(attrs, key) {
        Some(i) => attrs.update(i, AttributeView { key, value }),
        None => attrs.push(AttributeView { key, value }),
    }
}

/// The list without the first attribute that has the given key.
pub open spec fn remove_key(attrs: Seq<AttributeView>, key: Seq<char>) -> Seq<AttributeView> {
    match key_index(attrs, key) {
        Some(i) => attrs.remove(i),
        None => attrs,
    }
}

/// The value that `key` has in the list, if the list has the key.
pub open spec fn value_of_key(attrs: Seq<AttributeView>, key: Seq<char>) -> Option<Option<Seq<char>>> {
    match key_index(attrs, key) {
        Some(i) => Some(attrs[i].value),
        None => None,
    }
}

/// What `key_index` finds is the first attribute with the key, and it finds one whenever
/// there is one.
pub proof fn lemma_key_index(attrs: Seq<AttributeView>, key: Seq<char>)
    ensures
        match key_index(attrs, key) {
            Some(i) => 0 <= i < attrs.len() && attrs[i].key == key && forall|j: int|
                0 <= j < i ==> (#[trigger] attrs[j]).key != key,
            None => forall|j: int| 0 <= j < attrs.len() ==> (#[trigger] attrs[j]).key != key,
        },
    decreases attrs.len(),
{
    if attrs.len() > 0 {
        lemma_key_index(attrs.drop_last(), key);
        assert forall|j: int| 0 <= j < attrs.len() - 1 implies attrs.drop_last()[j] == attrs[j] by {}
        match key_index(attrs.drop_last(), key) {
            Some(i) => {
                assert(attrs.drop_last()[i] == attrs[i]);
                assert forall|j: int| 0 <= j < i implies (#[trigger] attrs[j]).key != key by {
                    assert(attrs.drop_last()[j] == attrs[j]);
                }
            },
            None => {
                assert forall|j: int| 0 <= j < attrs.len() - 1 implies (#[trigger] attrs[j]).key
                    != key by {
                    assert(attrs.drop_last()[j] == attrs[j]);
                }
            },
        }
    }
}

/// An attribute that is added under a new key and then cleared leaves the list as it was.
pub proof fn lemma_clear_after_insert(
    attrs: Seq<AttributeView>,
    key: Seq<char>,
    value: Option<Seq<char>>,
)
    requires
        key_index(attrs, key) is None,
    ensures
        remove_key(put_key(attrs, key, value), key) == attrs,
{
    let added = put_key(attrs, key, value);
    assert(added.drop_last() =~= attrs);
    assert(key_index(added, key) == Some(attrs.len() as int));
    assert(added.remove(attrs.len() as int) =~= attrs);
}

/// The place of the first attribute with the given key.
pub fn find_attribute(attrs: &Vec<Attribute>, key: &String) -> (r: Option<usize>)
    ensures
        match r {
            Some(i) => i < attrs@.len() && key_index(attribute_views(attrs@), key@) == Some(
                i as int,
            ),
            None => key_index(attribute_views(attrs@), key@) is None,
        },
{
    let ghost views = attribute_views(attrs@);
    let mut i: usize = 0;
    while i < attrs.len()
        invariant
            i <= attrs.len(),
            views == attribute_views(attrs@),
            forall|j: int| 0 <= j < i ==> (#[trigger] views[j]).key != key@,
        decreases attrs.len() - i,
    {
        if attrs[i].key == *key {
            proof {
                lemma_key_index(views, key@);
                assert(views[i as int].key == key@);
            }
            return Some(i);
        }
        i = i + 1;
    }
    proof {
        lemma_key_index(views, key@);
    }
    None
}

/// Gives `key` the value `value`, and returns the value that it had, if it was there.
pub fn put_attribute(attrs: &mut Vec<Attribute>, key: String, value: Option<String>) -> (r: Option<
    Option<String>,
>)
    ensures
        attribute_views(final(attrs)@) == put_key(
            attribute_views(old(attrs)@),
            key@,
            text_view(value),
        ),
        match r {
            Some(previous) => value_of_key(attribute_views(old(attrs)@), key@) == Some(
                text_view(previous),
            ),
            None => value_of_key(attribute_views(old(attrs)@), key@) is None,
        },
{
    let ghost before = attribute_views(attrs@);
    match find_attribute(attrs, &key) {
        Some(i) => {
            let previous = attrs.remove(i);
            attrs.insert(i, Attribute { key, value });
            proof {
                assert(attribute_views(attrs@) =~= before.update(
                    i as int,
                    AttributeView { key: key@, value: text_view(value) },
                ));
                assert(previous@ == before[i as int]);
            }
            Some(previous.value)
        },
        None => {
            attrs.push(Attribute { key, value });
            proof {
                assert(attribute_views(attrs@) =~= before.push(
                    AttributeView { key: key@, value: text_view(value) },
                ));
            }
            None
        },
    }
}

/// Takes the first attribute with the given key out of the list, and returns the value
/// that it had, if it was there.
pub fn remove_attribute(attrs: &mut Vec<Attribute>, key: &String) -> (r: Option<Option<String>>)
    ensures
        attribute_views(final(attrs)@) == remove_key(attribute_views(old(attrs)@), key@),
        match r {
            Some(previous) => value_of_key(attribute_views(old(attrs)@), key@) == Some(
                text_view(previous),
            ),
            None => value_of_key(attribute_views(old(attrs)@), key@) is None,
        },
{
    let ghost before = attribute_views(attrs@);
    match find_attribute(attrs, key) {
        Some(i) => {
            let previous = attrs.remove(i);
            proof {
                assert(attribute_views(attrs@) =~= before.remove(i as int));
                assert(previous@ == before[i as int]);
            }
            Some(previous.value)
        },
        None => None,
    }
}

} // verus!
