use ontolex::lexer::{self, Datatype, Token};
use ontolex::parser::{
    self, Class, ClassDecl, ClassIdentifier, Data, DataDescription, Literal, ObjectDescription,
    ParserErr, Property, PropertyDescription, Restriction, RestrictionType,
};
use ontolex::span::{Located, Source};
use ontolex::table::{PropertyType, SymbolTable, Type};

fn source(content: &str) -> Source {
    Source {
        filename: "test.txt".to_string(),
        content: content.to_string(),
    }
}

fn parse_ok(content: &str) -> (SymbolTable, Vec<Located<ClassDecl>>) {
    let (mut table, tokens) = lexer::parse(&source(content)).expect("lexing should succeed");
    let decls = parser::parse(&tokens, &mut table).expect("parsing should succeed");
    (table, decls)
}

fn parse_fail(content: &str) -> (SymbolTable, Vec<Located<Token>>, ParserErr) {
    let (mut table, tokens) = lexer::parse(&source(content)).expect("lexing should succeed");
    match parser::parse(&tokens, &mut table) {
        Ok(_) => panic!("parsing should fail"),
        Err(e) => (table, tokens, e),
    }
}

#[test]
fn parses_defined_class_with_data_value() {
    let (table, decls) = parse_ok("Person AND hasAge VALUE \"42\"");
    assert_eq!(decls.len(), 1);
    assert_eq!(
        decls[0].value,
        ClassDecl::Defined(
            ClassIdentifier { index: 0 },
            vec![Property {
                index: 1,
                description: PropertyDescription::Data(DataDescription::ValueOf(Literal {
                    index: 2
                })),
            }]
        )
    );
    // The property's kind was fixed to data by this use.
    assert!(matches!(
        table.symbols()[1].type_(),
        Type::Property(Some(PropertyType::Data))
    ));
}

#[test]
fn parses_enumerated_class_in_order() {
    let (table, decls) = parse_ok("{ Red, Green, Blue }");
    assert_eq!(decls.len(), 1);
    assert_eq!(
        decls[0].value,
        ClassDecl::Enumerated(vec![
            ClassIdentifier { index: 0 },
            ClassIdentifier { index: 1 },
            ClassIdentifier { index: 2 },
        ])
    );
    assert_eq!(table.symbols()[0].id(), "Red");
    assert_eq!(table.symbols()[1].id(), "Green");
    assert_eq!(table.symbols()[2].id(), "Blue");
}

#[test]
fn repeated_disjoint_class_fails() {
    let (_, _, err) = parse_fail("Animal OR Animal");
    assert!(matches!(err, ParserErr::RepeatedClass(c) if c.value.index == 0));
}

#[test]
fn repeated_enumerated_class_fails() {
    let (_, _, err) = parse_fail("{ Red, Green, Red }");
    assert!(matches!(err, ParserErr::RepeatedClass(c) if c.value.index == 0));
}

#[test]
fn kind_fixed_by_first_use_causes_type_mismatch() {
    let (table, _, err) = parse_fail("Car hasOwner SOME Person Car hasOwner SOME INTEGER");
    match err {
        ParserErr::TypeMismatch { expected, found, .. } => {
            assert!(matches!(
                expected,
                Type::Property(Some(PropertyType::Object))
            ));
            assert!(matches!(found, Type::Property(Some(PropertyType::Data))));
        }
        other => panic!("expected a type mismatch, got {:?}", other),
    }
    // The kind stayed as the first use fixed it.
    assert!(matches!(
        table.symbols()[1].type_(),
        Type::Property(Some(PropertyType::Object))
    ));
}

#[test]
fn same_kind_used_twice_succeeds() {
    let (table, decls) = parse_ok("Car hasOwner SOME Person Bus hasOwner SOME Company");
    assert_eq!(decls.len(), 2);
    assert!(matches!(
        table.symbols()[1].type_(),
        Type::Property(Some(PropertyType::Object))
    ));
}

#[test]
fn parses_min_with_restricted_decimal() {
    let (_, decls) = parse_ok("Item hasPrice MIN 3 DECIMAL[<= \"100\"]");
    assert_eq!(decls.len(), 1);
    assert_eq!(
        decls[0].value,
        ClassDecl::Primitive(
            ClassIdentifier { index: 0 },
            vec![Property {
                index: 1,
                description: PropertyDescription::Data(DataDescription::MinOf(
                    3,
                    Data {
                        datatype: Datatype::Decimal,
                        restriction: Some(Restriction(
                            RestrictionType::LessThanEqual,
                            Literal { index: 2 }
                        )),
                    }
                )),
            }]
        )
    );
}

#[test]
fn backtracks_between_object_and_data_targets() {
    // A class-identifier target parses as an object description.
    let (_, decls) = parse_ok("Car hasOwner SOME Person");
    assert_eq!(
        decls[0].value,
        ClassDecl::Primitive(
            ClassIdentifier { index: 0 },
            vec![Property {
                index: 1,
                description: PropertyDescription::Object(ObjectDescription::SomeOf(
                    Class::Identifier(ClassIdentifier { index: 2 })
                )),
            }]
        )
    );
    // A datatype target parses as a data description of the same shape.
    let (_, decls) = parse_ok("Car hasOwner SOME INTEGER");
    assert_eq!(
        decls[0].value,
        ClassDecl::Primitive(
            ClassIdentifier { index: 0 },
            vec![Property {
                index: 1,
                description: PropertyDescription::Data(DataDescription::SomeOf(Data {
                    datatype: Datatype::Integer,
                    restriction: None,
                })),
            }]
        )
    );
}

#[test]
fn parses_primitive_class_with_concatenated_properties() {
    let (_, decls) = parse_ok("Person hasAge SOME INTEGER hasName SOME STRING");
    match &decls[0].value {
        ClassDecl::Primitive(ci, props) => {
            assert_eq!(*ci, ClassIdentifier { index: 0 });
            assert_eq!(props.len(), 2);
        }
        other => panic!("expected a primitive class, got {:?}", other),
    }
}

#[test]
fn parses_disjoint_chain() {
    let (_, decls) = parse_ok("Dog OR Cat OR Fish");
    assert_eq!(
        decls[0].value,
        ClassDecl::Disjoint(vec![
            ClassIdentifier { index: 0 },
            ClassIdentifier { index: 1 },
            ClassIdentifier { index: 2 },
        ])
    );
}

#[test]
fn repeated_property_in_and_chain_fails() {
    let (_, _, err) = parse_fail("Person AND hasAge VALUE \"42\" AND hasAge VALUE \"42\"");
    assert!(matches!(err, ParserErr::RepeatedProperty(_)));
}

#[test]
fn same_property_different_literal_is_not_repeated() {
    let (_, decls) = parse_ok("Person AND hasAge VALUE \"42\" AND hasAge VALUE \"43\"");
    match &decls[0].value {
        ClassDecl::Defined(_, props) => assert_eq!(props.len(), 2),
        other => panic!("expected a defined class, got {:?}", other),
    }
}

#[test]
fn parses_parenthesized_property_and_nested_class() {
    let (_, decls) = parse_ok("Person AND (hasPet SOME (Dog OR Cat))");
    match &decls[0].value {
        ClassDecl::Defined(_, props) => {
            assert_eq!(props.len(), 1);
            match &props[0].description {
                PropertyDescription::Object(ObjectDescription::SomeOf(Class::Disjoint(cs))) => {
                    assert_eq!(cs.len(), 2);
                }
                other => panic!("expected a nested disjoint class, got {:?}", other),
            }
        }
        other => panic!("expected a defined class, got {:?}", other),
    }
}

#[test]
fn parses_enumerated_property_target() {
    let (_, decls) = parse_ok("Flag hasColor ONLY { Red, Green }");
    match &decls[0].value {
        ClassDecl::Primitive(_, props) => match &props[0].description {
            PropertyDescription::Object(ObjectDescription::OnlyOf(Class::Enumerated(cs))) => {
                assert_eq!(cs.len(), 2);
            }
            other => panic!("expected an enumerated target, got {:?}", other),
        },
        other => panic!("expected a primitive class, got {:?}", other),
    }
}

#[test]
fn truncated_input_is_unexpected_end() {
    let (_, _, err) = parse_fail("Person AND");
    assert!(matches!(err, ParserErr::UnexpectedEndOfInput));
}

#[test]
fn unimplemented_keyword_is_rejected_by_parser() {
    // `NOT` lexes but has no grammar production.
    let (_, _, err) = parse_fail("Person AND NOT hasAge VALUE \"42\"");
    assert!(matches!(err, ParserErr::UnrecognizedToken { .. }));
}

#[test]
fn missing_cardinality_fails() {
    let (_, _, err) = parse_fail("Item hasPrice MIN DECIMAL");
    assert!(matches!(err, ParserErr::UnexpectedEndOfInput));
}

#[test]
fn empty_token_sequence_parses_to_nothing() {
    let mut table = SymbolTable::new();
    let tokens: Vec<Located<Token>> = Vec::new();
    let decls = parser::parse(&tokens, &mut table).expect("empty input should parse");
    assert!(decls.is_empty());
}

#[test]
fn declaration_span_fragment_is_exact() {
    let content = "  Person  AND  hasAge VALUE \"42\"  ";
    let src = source(content);
    let (mut table, tokens) = lexer::parse(&src).expect("lexing should succeed");
    let decls = parser::parse(&tokens, &mut table).expect("parsing should succeed");
    assert_eq!(
        decls[0].span.fragment(&src),
        "Person  AND  hasAge VALUE \"42\""
    );
}

#[test]
fn value_with_class_target_is_object() {
    let (_, decls) = parse_ok("Car hasOwner VALUE Person");
    match &decls[0].value {
        ClassDecl::Primitive(_, props) => {
            assert_eq!(
                props[0].description,
                PropertyDescription::Object(ObjectDescription::ValueOf(ClassIdentifier {
                    index: 2
                }))
            );
        }
        other => panic!("expected a primitive class, got {:?}", other),
    }
}

#[test]
fn parses_exactly_with_object_target() {
    let (_, decls) = parse_ok("Car hasWheel EXACTLY 4 Wheel");
    match &decls[0].value {
        ClassDecl::Primitive(_, props) => {
            assert_eq!(
                props[0].description,
                PropertyDescription::Object(ObjectDescription::ExactlyOf(
                    4,
                    Class::Identifier(ClassIdentifier { index: 2 })
                ))
            );
        }
        other => panic!("expected a primitive class, got {:?}", other),
    }
}

#[test]
fn parses_parenthesized_class_target() {
    let (_, decls) = parse_ok("Car hasOwner ONLY (Person)");
    match &decls[0].value {
        ClassDecl::Primitive(_, props) => {
            assert_eq!(
                props[0].description,
                PropertyDescription::Object(ObjectDescription::OnlyOf(Class::Identifier(
                    ClassIdentifier { index: 2 }
                )))
            );
        }
        other => panic!("expected a primitive class, got {:?}", other),
    }
}

#[test]
fn parses_several_declarations_in_order() {
    let (_, decls) = parse_ok("{ Red, Green } Dog OR Cat Person AND hasAge SOME INTEGER");
    assert_eq!(decls.len(), 3);
    assert!(matches!(decls[0].value, ClassDecl::Enumerated(_)));
    assert!(matches!(decls[1].value, ClassDecl::Disjoint(_)));
    assert!(matches!(decls[2].value, ClassDecl::Defined(_, _)));
}

#[test]
fn parenthesized_property_starts_a_primitive_chain() {
    let (_, decls) = parse_ok("Person (hasAge VALUE \"42\")");
    match &decls[0].value {
        ClassDecl::Primitive(ci, props) => {
            assert_eq!(*ci, ClassIdentifier { index: 0 });
            assert_eq!(props.len(), 1);
        }
        other => panic!("expected a primitive class, got {:?}", other),
    }
}

#[test]
fn parenthesized_property_continues_a_primitive_chain() {
    let (_, decls) = parse_ok("Person hasAge SOME INTEGER (hasName SOME STRING)");
    match &decls[0].value {
        ClassDecl::Primitive(_, props) => assert_eq!(props.len(), 2),
        other => panic!("expected a primitive class, got {:?}", other),
    }
}

#[test]
fn lone_class_identifier_is_incomplete() {
    let (_, _, err) = parse_fail("Person");
    assert!(matches!(err, ParserErr::UnexpectedEndOfInput));
}

#[test]
fn property_kind_is_derived_from_description() {
    let object = Property {
        index: 0,
        description: PropertyDescription::Object(ObjectDescription::ValueOf(ClassIdentifier {
            index: 1,
        })),
    };
    let data = Property {
        index: 0,
        description: PropertyDescription::Data(DataDescription::ValueOf(Literal { index: 1 })),
    };
    assert_eq!(object.type_(), PropertyType::Object);
    assert_eq!(data.type_(), PropertyType::Data);
}
