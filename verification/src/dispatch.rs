//! Dispatch for a closed family of cells.
//!
//! An enum whose variants each wrap one kind of cell is a cell itself: every operation of
//! the cell interface goes to the cell that the variant wraps. This module decides
//! whether an enum can be such a family, and writes the implementation of the interface
//! for it. At most one variant can be marked as the one that constants are made of.
//!
//! The enum is described by plain values: its name, and for each variant its name, the
//! shape of its fields and its attributes.

use vstd::prelude::*;
use vstd::string::StringExecFns;

use crate::text::{append_comma_lines, comma_lines, text_views};

verus! {

/// An attribute on a variant: its path, and the paths of the items in its brackets. The
/// items are `None` where the attribute has none that can be read.
pub struct AttributeInput {
    pub path: String,
    pub items: Option<Vec<String>>,
}

/// A variant of the enum: its name, the number of its unnamed fields where its fields are
/// unnamed, and its attributes in order.
pub struct VariantInput {
    pub name: String,
    pub unnamed_fields: Option<usize>,
    pub attributes: Vec<AttributeInput>,
}

/// The item that the interface is to be implemented for: its name, and its variants
/// where it is an enum.
pub struct EnumInput {
    pub name: String,
    pub variants: Option<Vec<VariantInput>>,
}

/// Why the interface cannot be implemented for an item.
#[derive(Clone, Copy, Debug, PartialEq, Eq, Structural)]
pub enum DeriveError {
    /// The item is no enum.
    NotAnEnum,
    /// The variant at this place does not wrap exactly one unnamed field.
    BadVariant(usize),
    /// The variant at the first place has, at the second place among its attributes, an
    /// `instantiable` attribute that says anything but `constant`, or says it of a second
    /// variant.
    BadAttribute(usize, usize),
}

/// How the interface is implemented for an enum: the name of the enum, the names of its
/// variants in order, and the place of the variant that constants are made of.
#[derive(Debug)]
pub struct DispatchPlan {
    pub name: String,
    pub variants: Vec<String>,
    pub constant: Option<usize>,
}

/// What a plan holds.
pub struct DispatchPlanView {
    pub name: Seq<char>,
    pub variants: Seq<Seq<char>>,
    pub constant: Option<usize>,
}

impl View for DispatchPlan {
    type V = DispatchPlanView;

    open spec fn view(&self) -> DispatchPlanView {
        DispatchPlanView {
            name: self.name@,
            variants: text_views(self.variants@),
            constant: self.constant,
        }
    }
}

/// The variant that is marked after the first `j` items of an attribute on the variant at
/// place `v`, given the variant that was marked before. `None` where an item is not
/// `constant`, or marks a second variant.
pub open spec fn scan_items(items: Seq<String>, marked: Option<usize>, v: usize, j: int) -> Option<
    Option<usize>,
>
    decreases j,
{
    if j <= 0 {
        Some(marked)
    } else {
        match scan_items(items, marked, v, j - 1) {
            None => None,
            Some(before) => if items[j - 1]@ == "constant"@ && before is None {
                Some(Some(v))
            } else {
                None
            },
        }
    }
}

/// The variant that is marked after the first `m` attributes of the variant at place `v`,
/// or the place of the first `instantiable` attribute among them that cannot be taken.
pub open spec fn scan_attributes(
    attributes: Seq<AttributeInput>,
    marked: Option<usize>,
    v: usize,
    m: int,
) -> Result<Option<usize>, usize>
    decreases m,
{
    if m <= 0 {
        Ok(marked)
    } else {
        match scan_attributes(attributes, marked, v, m - 1) {
            Err(place) => Err(place),
            Ok(before) => if attributes[m - 1].path@ != "instantiable"@ {
                Ok(before)
            } else {
                match attributes[m - 1].items {
                    None => Err((m - 1) as usize),
                    Some(items) => match scan_items(items@, before, v, items@.len() as int) {
                        None => Err((m - 1) as usize),
                        Some(after) => Ok(after),
                    },
                }
            },
        }
    }
}

/// The variant that is marked after the first `n` variants, or the first error among
/// them. A variant is looked at as a whole before the next: first its fields, then its
/// attributes in order.
pub open spec fn scan_variants(variants: Seq<VariantInput>, n: int) -> Result<
    Option<usize>,
    DeriveError,
>
    decreases n,
{
    if n <= 0 {
        Ok(None)
    } else {
        match scan_variants(variants, n - 1) {
            Err(error) => Err(error),
            Ok(before) => if variants[n - 1].unnamed_fields != Some(1usize) {
                Err(DeriveError::BadVariant((n - 1) as usize))
            } else {
                match scan_attributes(
                    variants[n - 1].attributes@,
                    before,
                    (n - 1) as usize,
                    variants[n - 1].attributes@.len() as int,
                ) {
                    Err(place) => Err(DeriveError::BadAttribute((n - 1) as usize, place)),
                    Ok(after) => Ok(after),
                }
            },
        }
    }
}

/// The names of the variants, in order.
pub open spec fn variant_names(variants: Seq<VariantInput>) -> Seq<Seq<char>> {
    variants.map_values(|variant: VariantInput| variant.name@)
}

/// The plan for an item, or the reason why there is none.
pub open spec fn plan_of(input: EnumInput) -> Result<DispatchPlanView, DeriveError> {
    match input.variants {
        None => Err(DeriveError::NotAnEnum),
        Some(variants) => match scan_variants(variants@, variants@.len() as int) {
            Err(error) => Err(error),
            Ok(constant) => Ok(
                DispatchPlanView { name: input.name@, variants: variant_names(variants@), constant },
            ),
        },
    }
}

/// The message of an error.
pub open spec fn error_message(error: DeriveError) -> Seq<char> {
    match error {
        DeriveError::NotAnEnum => "Instantiable can only be derived for enums"@,
        DeriveError::BadVariant(_) => "Each enum variant must have exactly one unnamed field"@,
        DeriveError::BadAttribute(_, _) => "Failed to parse #[instantiable] attribute"@,
    }
}

impl DeriveError {
    /// The message of the error.
    pub fn message(&self) -> (r: &'static str)
        ensures
            r@ == error_message(*self),
    {
        match self {
            DeriveError::NotAnEnum => "Instantiable can only be derived for enums",
            DeriveError::BadVariant(_) => "Each enum variant must have exactly one unnamed field",
            DeriveError::BadAttribute(_, _) => "Failed to parse #[instantiable] attribute",
        }
    }
}

fn take_items(items: &Vec<String>, marked: Option<usize>, v: usize) -> (r: Option<Option<usize>>)
    ensures
        r == scan_items(items@, marked, v, items@.len() as int),
{
    let constant = String::from_str("constant");
    let mut state = marked;
    let mut j: usize = 0;
    while j < items.len()
        invariant
            j <= items@.len(),
            constant@ == "constant"@,
            scan_items(items@, marked, v, j as int) == Some(state),
        decreases items@.len() - j,
    {
        if items[j] == constant && state.is_none() {
            state = Some(v);
        } else {
            proof {
                lemma_scan_items_fails(items@, marked, v, j + 1, items@.len() as int);
            }
            return None;
        }
        j = j + 1;
    }
    Some(state)
}

/// Once an item cannot be taken, the attribute cannot be taken.
proof fn lemma_scan_items_fails(items: Seq<String>, marked: Option<usize>, v: usize, j: int, n: int)
    requires
        0 <= j <= n,
        scan_items(items, marked, v, j) is None,
    ensures
        scan_items(items, marked, v, n) is None,
    decreases n,
{
    if j < n {
        lemma_scan_items_fails(items, marked, v, j, n - 1);
    }
}

/// Once an attribute cannot be taken, the error stays with it.
proof fn lemma_scan_attributes_fails(
    attributes: Seq<AttributeInput>,
    marked: Option<usize>,
    v: usize,
    m: int,
    n: int,
)
    requires
        0 <= m <= n,
        scan_attributes(attributes, marked, v, m) is Err,
    ensures
        scan_attributes(attributes, marked, v, n) == scan_attributes(attributes, marked, v, m),
    decreases n,
{
    if m < n {
        lemma_scan_attributes_fails(attributes, marked, v, m, n - 1);
    }
}

/// Once a variant cannot be taken, the error stays with it.
proof fn lemma_scan_variants_fails(variants: Seq<VariantInput>, m: int, n: int)
    requires
        0 <= m <= n,
        scan_variants(variants, m) is Err,
    ensures
        scan_variants(variants, n) == scan_variants(variants, m),
    decreases n,
{
    if m < n {
        lemma_scan_variants_fails(variants, m, n - 1);
    }
}

fn take_attributes(attributes: &Vec<AttributeInput>, marked: Option<usize>, v: usize) -> (r: Result<
    Option<usize>,
    usize,
>)
    ensures
        r == scan_attributes(attributes@, marked, v, attributes@.len() as int),
{
    let instantiable = String::from_str("instantiable");
    let mut state = marked;
    let mut m: usize = 0;
    while m < attributes.len()
        invariant
            m <= attributes@.len(),
            instantiable@ == "instantiable"@,
            scan_attributes(attributes@, marked, v, m as int) == Ok::<Option<usize>, usize>(state),
        decreases attributes@.len() - m,
    {
        if attributes[m].path == instantiable {
            let taken = match &attributes[m].items {
                Some(items) => take_items(items, state, v),
                None => None,
            };
            match taken {
                Some(after) => {
                    state = after;
                },
                None => {
                    proof {
                        lemma_scan_attributes_fails(
                            attributes@,
                            marked,
                            v,
                            m + 1,
                            attributes@.len() as int,
                        );
                    }
                    return Err(m);
                },
            }
        }
        m = m + 1;
    }
    Ok(state)
}

/// Decides whether the interface can be implemented for an item, and how.
pub fn plan_dispatch(input: &EnumInput) -> (r: Result<DispatchPlan, DeriveError>)
    ensures
        match plan_of(*input) {
            Ok(plan) => r matches Ok(made) && made@ == plan,
            Err(error) => r matches Err(e) && e == error,
        },
{
    let variants = match &input.variants {
        Some(variants) => variants,
        None => {
            return Err(DeriveError::NotAnEnum);
        },
    };
    let mut names: Vec<String> = Vec::new();
    let mut constant: Option<usize> = None;
    let mut n: usize = 0;
    proof {
        assert(text_views(names@) =~= variant_names(variants@).take(0));
    }
    while n < variants.len()
        invariant
            n <= variants@.len(),
            input.variants == Some(*variants),
            scan_variants(variants@, n as int) == Ok::<Option<usize>, DeriveError>(constant),
            text_views(names@) == variant_names(variants@).take(n as int),
        decreases variants@.len() - n,
    {
        let variant = &variants[n];
        let single = match variant.unnamed_fields {
            Some(count) => count == 1,
            None => false,
        };
        if !single {
            proof {
                assert(scan_variants(variants@, n + 1) == Err::<Option<usize>, DeriveError>(
                    DeriveError::BadVariant(n),
                ));
                lemma_scan_variants_fails(variants@, n + 1, variants@.len() as int);
            }
            return Err(DeriveError::BadVariant(n));
        }
        match take_attributes(&variant.attributes, constant, n) {
            Ok(after) => {
                constant = after;
            },
            Err(place) => {
                proof {
                    assert(scan_variants(variants@, n + 1) == Err::<Option<usize>, DeriveError>(
                        DeriveError::BadAttribute(n, place),
                    ));
                    lemma_scan_variants_fails(variants@, n + 1, variants@.len() as int);
                }
                return Err(DeriveError::BadAttribute(n, place));
            },
        }
        let ghost before = text_views(names@);
        names.push(variant.name.clone());
        proof {
            assert(text_views(names@) =~= before.push(variant.name@));
            assert(variant_names(variants@).take(n + 1) =~= variant_names(variants@).take(
                n as int,
            ).push(variant.name@));
        }
        n = n + 1;
    }
    proof {
        assert(variant_names(variants@).take(variants@.len() as int) =~= variant_names(variants@));
    }
    Ok(DispatchPlan { name: input.name.clone(), variants: names, constant })
}

/// One arm of a match: the variant `variant` of the enum `name` hands `call` on to the
/// cell that it wraps.
pub open spec fn arm(name: Seq<char>, variant: Seq<char>, call: Seq<char>) -> Seq<char> {
    name + "::"@ + variant + "(inner) => inner."@ + call
}

/// The arms for the first `n` variants.
pub open spec fn arms(name: Seq<char>, variants: Seq<Seq<char>>, call: Seq<char>, n: int) -> Seq<
    Seq<char>,
>
    decreases n,
{
    if n <= 0 {
        Seq::empty()
    } else {
        arms(name, variants, call, n - 1).push(arm(name, variants[n - 1], call))
    }
}

/// A method that hands on to the cell that the variant wraps.
pub open spec fn method(
    signature: Seq<char>,
    name: Seq<char>,
    variants: Seq<Seq<char>>,
    call: Seq<char>,
) -> Seq<char> {
    "    fn "@ + signature + " {\n        match self {\n"@ + comma_lines(
        "            "@,
        arms(name, variants, call, variants.len() as int),
    ) + "        }\n    }\n"@
}

/// The method that makes the cell of a constant: of the marked variant, where there is
/// one, and only for a definite value.
pub open spec fn constant_method(plan: DispatchPlanView) -> Seq<char> {
    match plan.constant {
        Some(place) =>
            "    fn from_constant(val: Logic) -> Option<Self> {\n        if (val == Logic::True) || (val == Logic::False) {\n            return "@
                + plan.variants[place as int] + "::from_constant(val).map("@ + plan.name + "::"@
                + plan.variants[place as int]
                + ");\n        } else {\n            return None;\n        }\n    }\n"@,
        None => "    fn from_constant(_val: Logic) -> Option<Self> {\n        None\n    }\n"@,
    }
}

impl DispatchPlanView {
    /// Whether the marked variant is a variant of the plan.
    pub open spec fn wf(self) -> bool {
        self.constant matches Some(place) ==> place < self.variants.len()
    }

    /// The head of the implementation, and the methods that come before the one that
    /// makes the cell of a constant.
    pub open spec fn render_head(self) -> Seq<char> {
        "impl Instantiable for "@ + self.name + " {\n"@ + method(
            "get_name(&self) -> &Identifier"@,
            self.name,
            self.variants,
            "get_name()"@,
        ) + method(
            "get_input_ports(&self) -> Vec<Net>"@,
            self.name,
            self.variants,
            "get_input_ports()"@,
        ) + method(
            "get_output_ports(&self) -> Vec<Net>"@,
            self.name,
            self.variants,
            "get_output_ports()"@,
        ) + method(
            "has_parameter(&self, id: &Identifier) -> bool"@,
            self.name,
            self.variants,
            "has_parameter(id)"@,
        )
    }

    /// The methods on parameters that take or give values.
    pub open spec fn render_parameters(self) -> Seq<char> {
        method(
            "get_parameter(&self, id: &Identifier) -> Option<Parameter>"@,
            self.name,
            self.variants,
            "get_parameter(id)"@,
        ) + method(
            "set_parameter(&mut self, id: &Identifier, val: Parameter) -> Option<Parameter>"@,
            self.name,
            self.variants,
            "set_parameter(id, val)"@,
        ) + method(
            "parameters(&self) -> Vec<(Identifier, Parameter)>"@,
            self.name,
            self.variants,
            "parameters()"@,
        )
    }

    /// The methods that come behind the one that makes the cell of a constant, and the
    /// end of the implementation.
    pub open spec fn render_tail(self) -> Seq<char> {
        method(
            "get_constant(&self) -> Option<Logic>"@,
            self.name,
            self.variants,
            "get_constant()"@,
        ) + method("is_seq(&self) -> bool"@, self.name, self.variants, "is_seq()"@) + "}\n"@
    }

    /// The implementation of the interface as Rust source text, one method for each
    /// operation of the interface, in the order in which the interface declares them.
    pub open spec fn render(self) -> Seq<char> {
        self.render_head() + self.render_parameters() + constant_method(self) + self.render_tail()
    }
}

/// The plan of an item names a variant of the item as the one that constants are made of.
pub proof fn lemma_plan_wf(input: EnumInput)
    requires
        plan_of(input) is Ok,
    ensures
        plan_of(input)->Ok_0.wf(),
{
    let variants = input.variants->0;
    lemma_scan_variants_marks(variants@, variants@.len() as int);
}

proof fn lemma_scan_variants_marks(variants: Seq<VariantInput>, n: int)
    requires
        0 <= n <= variants.len(),
    ensures
        scan_variants(variants, n) matches Ok(Some(place)) ==> place < n,
    decreases n,
{
    if n > 0 {
        lemma_scan_variants_marks(variants, n - 1);
        if scan_variants(variants, n) is Ok {
            let before = scan_variants(variants, n - 1)->Ok_0;
            lemma_scan_attributes_marks(
                variants[n - 1].attributes@,
                before,
                (n - 1) as usize,
                variants[n - 1].attributes@.len() as int,
            );
        }
    }
}

proof fn lemma_scan_attributes_marks(
    attributes: Seq<AttributeInput>,
    marked: Option<usize>,
    v: usize,
    m: int,
)
    requires
        0 <= m <= attributes.len(),
    ensures
        scan_attributes(attributes, marked, v, m) matches Ok(Some(place)) ==> place == v
            || marked == Some(place),
    decreases m,
{
    if m > 0 {
        lemma_scan_attributes_marks(attributes, marked, v, m - 1);
        if scan_attributes(attributes, marked, v, m) is Ok && attributes[m - 1].path@
            == "instantiable"@ {
            let before = scan_attributes(attributes, marked, v, m - 1)->Ok_0;
            let items = attributes[m - 1].items->0;
            lemma_scan_items_marks(items@, before, v, items@.len() as int);
        }
    }
}

proof fn lemma_scan_items_marks(items: Seq<String>, marked: Option<usize>, v: usize, j: int)
    requires
        0 <= j <= items.len(),
    ensures
        scan_items(items, marked, v, j) matches Some(Some(place)) ==> place == v || marked == Some(
            place,
        ),
    decreases j,
{
    if j > 0 {
        lemma_scan_items_marks(items, marked, v, j - 1);
    }
}

fn method_text(signature: &str, name: &String, variants: &Vec<String>, call: &str) -> (r: String)
    ensures
        r@ == method(signature@, name@, text_views(variants@), call@),
{
    let ghost names = text_views(variants@);
    let mut items: Vec<String> = Vec::new();
    let mut k: usize = 0;
    proof {
        assert(text_views(items@) =~= arms(name@, names, call@, 0));
    }
    while k < variants.len()
        invariant
            k <= variants@.len(),
            names == text_views(variants@),
            text_views(items@) == arms(name@, names, call@, k as int),
        decreases variants@.len() - k,
    {
        let mut item = name.clone();
        item.append("::");
        item.append(variants[k].as_str());
        item.append("(inner) => inner.");
        item.append(call);
        let ghost before = text_views(items@);
        items.push(item);
        proof {
            assert(text_views(items@) =~= before.push(arm(name@, names[k as int], call@)));
        }
        k = k + 1;
    }
    let mut out = String::from_str("    fn ");
    out.append(signature);
    out.append(" {\n        match self {\n");
    append_comma_lines(&mut out, "            ", &items);
    out.append("        }\n    }\n");
    out
}

impl DispatchPlan {
    fn render_head(&self) -> (r: String)
        ensures
            r@ == self@.render_head(),
    {
        let mut out = String::from_str("impl Instantiable for ");
        out.append(self.name.as_str());
        out.append(" {\n");
        out.append(
            method_text(
                "get_name(&self) -> &Identifier",
                &self.name,
                &self.variants,
                "get_name()",
            ).as_str(),
        );
        out.append(
            method_text(
                "get_input_ports(&self) -> Vec<Net>",
                &self.name,
                &self.variants,
                "get_input_ports()",
            ).as_str(),
        );
        out.append(
            method_text(
                "get_output_ports(&self) -> Vec<Net>",
                &self.name,
                &self.variants,
                "get_output_ports()",
            ).as_str(),
        );
        out.append(
            method_text(
                "has_parameter(&self, id: &Identifier) -> bool",
                &self.name,
                &self.variants,
                "has_parameter(id)",
            ).as_str(),
        );
        out
    }

    fn render_parameters(&self) -> (r: String)
        ensures
            r@ == self@.render_parameters(),
    {
        let mut out = method_text(
            "get_parameter(&self, id: &Identifier) -> Option<Parameter>",
            &self.name,
            &self.variants,
            "get_parameter(id)",
        );
        out.append(
            method_text(
                "set_parameter(&mut self, id: &Identifier, val: Parameter) -> Option<Parameter>",
                &self.name,
                &self.variants,
                "set_parameter(id, val)",
            ).as_str(),
        );
        out.append(
            method_text(
                "parameters(&self) -> Vec<(Identifier, Parameter)>",
                &self.name,
                &self.variants,
                "parameters()",
            ).as_str(),
        );
        out
    }

    fn render_constant(&self) -> (r: String)
        requires
            self@.wf(),
        ensures
            r@ == constant_method(self@),
    {
        match self.constant {
            Some(place) => {
                let variant = &self.variants[place];
                let mut out = String::from_str(
                    "    fn from_constant(val: Logic) -> Option<Self> {\n        if (val == Logic::True) || (val == Logic::False) {\n            return ",
                );
                out.append(variant.as_str());
                out.append("::from_constant(val).map(");
                out.append(self.name.as_str());
                out.append("::");
                out.append(variant.as_str());
                out.append(");\n        } else {\n            return None;\n        }\n    }\n");
                out
            },
            None => String::from_str(
                "    fn from_constant(_val: Logic) -> Option<Self> {\n        None\n    }\n",
            ),
        }
    }

    fn render_tail(&self) -> (r: String)
        ensures
            r@ == self@.render_tail(),
    {
        let mut out = method_text(
            "get_constant(&self) -> Option<Logic>",
            &self.name,
            &self.variants,
            "get_constant()",
        );
        out.append(
            method_text("is_seq(&self) -> bool", &self.name, &self.variants, "is_seq()").as_str(),
        );
        out.append("}\n");
        out
    }

    /// Writes the implementation of the interface as Rust source text.
    pub fn render(&self) -> (r: String)
        requires
            self@.wf(),
        ensures
            r@ == self@.render(),
    {
        let mut out = self.render_head();
        out.append(self.render_parameters().as_str());
        out.append(self.render_constant().as_str());
        out.append(self.render_tail().as_str());
        out
    }
}

/// Writes the implementation of the interface for an item, where it has one.
pub fn derive_instantiable(input: &EnumInput) -> (r: Result<String, DeriveError>)
    ensures
        match plan_of(*input) {
            Ok(plan) => r matches Ok(text) && text@ == plan.render(),
            Err(error) => r matches Err(e) && e == error,
        },
{
    match plan_dispatch(input) {
        Ok(plan) => {
            proof {
                lemma_plan_wf(*input);
            }
            Ok(plan.render())
        },
        Err(error) => Err(error),
    }
}

} // verus!
