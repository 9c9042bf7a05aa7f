use proc_macro2::TokenStream;
use safety_net::dispatch::{
    derive_instantiable, plan_dispatch, AttributeInput, DeriveError, EnumInput, VariantInput,
};

fn variant(name: &str, attributes: Vec<AttributeInput>) -> VariantInput {
    VariantInput {
        name: name.to_string(),
        unnamed_fields: Some(1),
        attributes,
    }
}

fn marker(items: &[&str]) -> AttributeInput {
    AttributeInput {
        path: "instantiable".to_string(),
        items: Some(items.iter().map(|item| item.to_string()).collect()),
    }
}

fn simple_cell(variants: Vec<VariantInput>) -> EnumInput {
    EnumInput {
        name: "SimpleCell".to_string(),
        variants: Some(variants),
    }
}

fn assert_tokens_eq(actual: &str, expected: &str) {
    let actual: TokenStream = actual.parse().unwrap();
    let expected: TokenStream = expected.parse().unwrap();
    assert_eq!(actual.to_string(), expected.to_string());
}

#[test]
fn test_simple_enum_tokenstream() {
    let input = simple_cell(vec![
        variant("Lut", vec![]),
        variant("Gate", vec![marker(&["constant"])]),
    ]);

    let output = derive_instantiable(&input).unwrap();

    let expected = "
        impl Instantiable for SimpleCell {
            fn get_name(&self) -> &Identifier {
                match self {
                    SimpleCell::Lut(inner) => inner.get_name(),
                    SimpleCell::Gate(inner) => inner.get_name()
                }
            }

            fn get_input_ports(&self) -> Vec<Net> {
                match self {
                    SimpleCell::Lut(inner) => inner.get_input_ports(),
                    SimpleCell::Gate(inner) => inner.get_input_ports()
                }
            }

            fn get_output_ports(&self) -> Vec<Net> {
                match self {
                    SimpleCell::Lut(inner) => inner.get_output_ports(),
                    SimpleCell::Gate(inner) => inner.get_output_ports()
                }
            }

            fn has_parameter(&self, id: &Identifier) -> bool {
                match self {
                    SimpleCell::Lut(inner) => inner.has_parameter(id),
                    SimpleCell::Gate(inner) => inner.has_parameter(id)
                }
            }

            fn get_parameter(&self, id: &Identifier) -> Option<Parameter> {
                match self {
                    SimpleCell::Lut(inner) => inner.get_parameter(id),
                    SimpleCell::Gate(inner) => inner.get_parameter(id)
                }
            }

            fn set_parameter(&mut self, id: &Identifier, val: Parameter) -> Option<Parameter> {
                match self {
                    SimpleCell::Lut(inner) => inner.set_parameter(id, val),
                    SimpleCell::Gate(inner) => inner.set_parameter(id, val)
                }
            }

            fn parameters(&self) -> Vec<(Identifier, Parameter)> {
                match self {
                    SimpleCell::Lut(inner) => inner.parameters(),
                    SimpleCell::Gate(inner) => inner.parameters()
                }
            }

            fn from_constant(val: Logic) -> Option<Self> {
                if (val == Logic::True) || (val == Logic::False) {
                    return Gate::from_constant(val).map(SimpleCell::Gate);
                } else {
                    return None;
                }
            }

            fn get_constant(&self) -> Option<Logic> {
                match self {
                    SimpleCell::Lut(inner) => inner.get_constant(),
                    SimpleCell::Gate(inner) => inner.get_constant()
                }
            }

            fn is_seq(&self) -> bool {
                match self {
                    SimpleCell::Lut(inner) => inner.is_seq(),
                    SimpleCell::Gate(inner) => inner.is_seq()
                }
            }
        }
    ";

    assert_tokens_eq(&output, expected);
}

#[test]
fn test_no_constant_variant_tokenstream() {
    let input = simple_cell(vec![variant("Lut", vec![]), variant("Gate", vec![])]);

    let output = derive_instantiable(&input).unwrap();

    let expected = "
        impl Instantiable for SimpleCell {
            fn get_name(&self) -> &Identifier {
                match self {
                    SimpleCell::Lut(inner) => inner.get_name(),
                    SimpleCell::Gate(inner) => inner.get_name()
                }
            }

            fn get_input_ports(&self) -> Vec<Net> {
                match self {
                    SimpleCell::Lut(inner) => inner.get_input_ports(),
                    SimpleCell::Gate(inner) => inner.get_input_ports()
                }
            }

            fn get_output_ports(&self) -> Vec<Net> {
                match self {
                    SimpleCell::Lut(inner) => inner.get_output_ports(),
                    SimpleCell::Gate(inner) => inner.get_output_ports()
                }
            }

            fn has_parameter(&self, id: &Identifier) -> bool {
                match self {
                    SimpleCell::Lut(inner) => inner.has_parameter(id),
                    SimpleCell::Gate(inner) => inner.has_parameter(id)
                }
            }

            fn get_parameter(&self, id: &Identifier) -> Option<Parameter> {
                match self {
                    SimpleCell::Lut(inner) => inner.get_parameter(id),
                    SimpleCell::Gate(inner) => inner.get_parameter(id)
                }
            }

            fn set_parameter(&mut self, id: &Identifier, val: Parameter) -> Option<Parameter> {
                match self {
                    SimpleCell::Lut(inner) => inner.set_parameter(id, val),
                    SimpleCell::Gate(inner) => inner.set_parameter(id, val)
                }
            }

            fn parameters(&self) -> Vec<(Identifier, Parameter)> {
                match self {
                    SimpleCell::Lut(inner) => inner.parameters(),
                    SimpleCell::Gate(inner) => inner.parameters()
                }
            }

            fn from_constant(_val: Logic) -> Option<Self> {
                None
            }

            fn get_constant(&self) -> Option<Logic> {
                match self {
                    SimpleCell::Lut(inner) => inner.get_constant(),
                    SimpleCell::Gate(inner) => inner.get_constant()
                }
            }

            fn is_seq(&self) -> bool {
                match self {
                    SimpleCell::Lut(inner) => inner.is_seq(),
                    SimpleCell::Gate(inner) => inner.is_seq()
                }
            }
        }
    ";

    assert_tokens_eq(&output, expected);
}

#[test]
fn exact_text_of_one_variant() {
    let input = EnumInput {
        name: "One".to_string(),
        variants: Some(vec![variant("Gate", vec![marker(&["constant"])])]),
    };
    let text = derive_instantiable(&input).unwrap();
    assert!(text.starts_with(
        "impl Instantiable for One {\n    fn get_name(&self) -> &Identifier {\n        match self \
         {\n            One::Gate(inner) => inner.get_name()\n        }\n    }\n"
    ));
    assert!(text.contains(
        "    fn from_constant(val: Logic) -> Option<Self> {\n        if (val == Logic::True) || \
         (val == Logic::False) {\n            return \
         Gate::from_constant(val).map(One::Gate);\n        } else {\n            return \
         None;\n        }\n    }\n"
    ));
    assert!(text.ends_with(
        "    fn is_seq(&self) -> bool {\n        match self {\n            One::Gate(inner) => \
         inner.is_seq()\n        }\n    }\n}\n"
    ));
}

#[test]
fn only_enums_are_families() {
    let input = EnumInput {
        name: "Plain".to_string(),
        variants: None,
    };
    assert_eq!(
        plan_dispatch(&input).unwrap_err(),
        DeriveError::NotAnEnum
    );
    assert_eq!(
        DeriveError::NotAnEnum.message(),
        "Instantiable can only be derived for enums"
    );
}

#[test]
fn every_variant_wraps_one_unnamed_field() {
    for fields in [None, Some(0), Some(2)] {
        let mut bad = variant("Bad", vec![marker(&["nonsense"])]);
        bad.unnamed_fields = fields;
        let input = simple_cell(vec![variant("Lut", vec![]), bad, variant("Gate", vec![])]);
        let error = derive_instantiable(&input).unwrap_err();
        assert_eq!(error, DeriveError::BadVariant(1));
        assert_eq!(
            error.message(),
            "Each enum variant must have exactly one unnamed field"
        );
    }
}

#[test]
fn only_one_variant_is_marked() {
    let twice = simple_cell(vec![
        variant("Lut", vec![marker(&["constant"])]),
        variant("Gate", vec![marker(&[]), marker(&["constant"])]),
    ]);
    let error = plan_dispatch(&twice).unwrap_err();
    assert_eq!(error, DeriveError::BadAttribute(1, 1));
    assert_eq!(error.message(), "Failed to parse #[instantiable] attribute");
    let twice_at_once = simple_cell(vec![variant(
        "Lut",
        vec![marker(&["constant", "constant"])],
    )]);
    assert_eq!(
        plan_dispatch(&twice_at_once).unwrap_err(),
        DeriveError::BadAttribute(0, 0)
    );
    let unknown = simple_cell(vec![variant("Lut", vec![marker(&["variable"])])]);
    assert_eq!(
        plan_dispatch(&unknown).unwrap_err(),
        DeriveError::BadAttribute(0, 0)
    );
    let unreadable = simple_cell(vec![variant(
        "Lut",
        vec![AttributeInput {
            path: "instantiable".to_string(),
            items: None,
        }],
    )]);
    assert_eq!(
        plan_dispatch(&unreadable).unwrap_err(),
        DeriveError::BadAttribute(0, 0)
    );
}

#[test]
fn other_attributes_are_passed_over() {
    let input = simple_cell(vec![
        variant(
            "Lut",
            vec![AttributeInput {
                path: "doc".to_string(),
                items: None,
            }],
        ),
        variant(
            "Gate",
            vec![
                AttributeInput {
                    path: "allow".to_string(),
                    items: Some(vec!["dead_code".to_string()]),
                },
                marker(&["constant"]),
            ],
        ),
    ]);
    let plan = plan_dispatch(&input).unwrap();
    assert_eq!(plan.name, "SimpleCell");
    assert_eq!(plan.variants, vec!["Lut".to_string(), "Gate".to_string()]);
    assert_eq!(plan.constant, Some(1));
}
