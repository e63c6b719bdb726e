use ontolex::lexer::{self, Datatype, Keyword, LexerErr, Punctuation, Token};
use ontolex::span::{Located, Source};
use ontolex::table::{PropertyType, SymbolTable, Type};

fn source(content: &str) -> Source {
    Source {
        filename: "test.txt".to_string(),
        content: content.to_string(),
    }
}

fn lex(content: &str) -> (SymbolTable, Vec<Located<Token>>) {
    lexer::parse(&source(content)).expect("lexing should succeed")
}

fn lex_err(content: &str) -> Located<LexerErr> {
    match lexer::parse(&source(content)) {
        Ok(_) => panic!("lexing should fail"),
        Err(e) => e,
    }
}

fn values(tokens: &[Located<Token>]) -> Vec<Token> {
    tokens.iter().map(|t| t.value).collect()
}

#[test]
fn lexes_example_declaration() {
    let (table, tokens) = lex("Person AND hasAge VALUE \"42\"");
    assert_eq!(
        values(&tokens),
        vec![
            Token::ClassIdentifier { index: 0 },
            Token::Keyword(Keyword::AND),
            Token::PropertyIdentifier { index: 1 },
            Token::Keyword(Keyword::VALUE),
            Token::Literal { index: 2 },
        ]
    );
    let symbols = table.symbols();
    assert_eq!(symbols.len(), 3);
    assert_eq!(symbols[0].id(), "Person");
    assert!(matches!(symbols[0].type_(), Type::Class));
    assert_eq!(symbols[1].id(), "hasAge");
    assert!(matches!(symbols[1].type_(), Type::Property(None)));
    assert_eq!(symbols[2].id(), "42");
    assert!(matches!(symbols[2].type_(), Type::Literal));
}

#[test]
fn lexes_keywords_in_both_casings_only() {
    let (_, tokens) = lex("SOME some ONLY only");
    assert_eq!(
        values(&tokens),
        vec![
            Token::Keyword(Keyword::SOME),
            Token::Keyword(Keyword::SOME),
            Token::Keyword(Keyword::ONLY),
            Token::Keyword(Keyword::ONLY),
        ]
    );
    // Mixed case is not a keyword; this shape is a class identifier.
    let (table, tokens) = lex("SoMe");
    assert!(matches!(tokens[0].value, Token::ClassIdentifier { index: 0 }));
    assert_eq!(table.symbols()[0].id(), "SoMe");
}

#[test]
fn keyword_needs_boundary() {
    // `SOMEthing` is neither a keyword (runs into letters) nor a valid
    // identifier shape (uppercase run), so lexing fails.
    let err = lex_err("SOMEthing");
    assert!(matches!(err.value, LexerErr::UnrecognizedToken));
    assert_eq!(err.span.start, 0);
}

#[test]
fn lexes_datatypes_and_punctuation() {
    let (_, tokens) = lex("INTEGER DECIMAL FLOAT STRING ( ) { } [ ] , <= >= < >");
    assert_eq!(
        values(&tokens),
        vec![
            Token::Datatype(Datatype::Integer),
            Token::Datatype(Datatype::Decimal),
            Token::Datatype(Datatype::Float),
            Token::Datatype(Datatype::Str),
            Token::Punctuation(Punctuation::OpenParen),
            Token::Punctuation(Punctuation::CloseParen),
            Token::Punctuation(Punctuation::OpenBrace),
            Token::Punctuation(Punctuation::CloseBrace),
            Token::Punctuation(Punctuation::OpenBracket),
            Token::Punctuation(Punctuation::CloseBracket),
            Token::Punctuation(Punctuation::Comma),
            Token::Punctuation(Punctuation::LessThanEqual),
            Token::Punctuation(Punctuation::GreaterThanEqual),
            Token::Punctuation(Punctuation::LessThan),
            Token::Punctuation(Punctuation::GreaterThan),
        ]
    );
}

#[test]
fn lexes_property_identifiers() {
    let (table, tokens) = lex("hasAge isPartOf");
    assert_eq!(
        values(&tokens),
        vec![
            Token::PropertyIdentifier { index: 0 },
            Token::PropertyIdentifier { index: 1 },
        ]
    );
    assert_eq!(table.symbols()[0].id(), "hasAge");
    assert_eq!(table.symbols()[1].id(), "isPartOf");
}

#[test]
fn is_property_must_end_in_of() {
    // `isPart` has the `is` prefix but no `Of` suffix and no other rule
    // accepts it.
    let err = lex_err("isPart");
    assert!(matches!(err.value, LexerErr::UnrecognizedToken));
}

#[test]
fn lexes_cardinality() {
    let (_, tokens) = lex("MIN 3 MAX 42");
    assert_eq!(
        values(&tokens),
        vec![
            Token::Keyword(Keyword::MIN),
            Token::Cardinality(3),
            Token::Keyword(Keyword::MAX),
            Token::Cardinality(42),
        ]
    );
}

#[test]
fn oversized_cardinality_is_rejected() {
    let err = lex_err("99999999999999999999999999");
    assert!(matches!(err.value, LexerErr::UnrecognizedToken));
}

#[test]
fn lexes_literal_without_quotes_in_text() {
    let (table, tokens) = lex("\"hello world\"");
    assert!(matches!(tokens[0].value, Token::Literal { index: 0 }));
    assert_eq!(table.symbols()[0].id(), "hello world");
    // The span includes the quotes.
    assert_eq!(tokens[0].span.start, 0);
    assert_eq!(tokens[0].span.end, 13);
}

#[test]
fn unterminated_literal_fails() {
    let err = lex_err("\"abc\nrest");
    assert!(matches!(err.value, LexerErr::UnrecognizedToken));
    assert_eq!(err.span.start, 0);
}

#[test]
fn interning_is_a_round_trip() {
    let (_, tokens) = lex("Person Person hasAge hasAge \"x\" \"x\" Other");
    let idx = |t: &Located<Token>| match t.value {
        Token::ClassIdentifier { index } => index,
        Token::PropertyIdentifier { index } => index,
        Token::Literal { index } => index,
        _ => panic!("expected an interned token"),
    };
    assert_eq!(idx(&tokens[0]), idx(&tokens[1]));
    assert_eq!(idx(&tokens[2]), idx(&tokens[3]));
    assert_eq!(idx(&tokens[4]), idx(&tokens[5]));
    assert_ne!(idx(&tokens[0]), idx(&tokens[6]));
}

#[test]
fn same_text_shares_one_symbol_across_categories() {
    // The literal "Red" has the same text as the class Red: one symbol,
    // whose category is set by the first sighting.
    let (table, tokens) = lex("Red \"Red\"");
    let first = match tokens[0].value {
        Token::ClassIdentifier { index } => index,
        _ => panic!("expected a class identifier"),
    };
    let second = match tokens[1].value {
        Token::Literal { index } => index,
        _ => panic!("expected a literal"),
    };
    assert_eq!(first, second);
    assert!(matches!(table.symbols()[first].type_(), Type::Class));
}

#[test]
fn token_spans_cover_exact_fragments() {
    let content = "Person  AND\n hasAge";
    let (_, tokens) = lex(content);
    let src = source(content);
    assert_eq!(tokens[0].span.fragment(&src), "Person");
    assert_eq!(tokens[1].span.fragment(&src), "AND");
    assert_eq!(tokens[2].span.fragment(&src), "hasAge");
}

#[test]
fn error_position_points_at_offender() {
    let err = lex_err("Person ???");
    assert_eq!(err.span.start, 7);
    assert_eq!(err.span.end, 10);
}

#[test]
fn empty_and_blank_input_lex_to_nothing() {
    let (table, tokens) = lex("");
    assert!(tokens.is_empty());
    assert_eq!(table.symbols().len(), 0);
    let (_, tokens) = lex("  \n\t ");
    assert!(tokens.is_empty());
}

#[test]
fn class_identifier_shapes() {
    // PascalCase with underscores follows the continuation rule.
    let (table, _) = lex("Fire_Truck");
    assert_eq!(table.symbols()[0].id(), "Fire_Truck");
    // An all-uppercase run stops after the first character and fails the
    // boundary check.
    let err = lex_err("ABC");
    assert!(matches!(err.value, LexerErr::UnrecognizedToken));
}

#[test]
fn property_suffix_may_hold_underscores() {
    // The suffix after `has`/`is` follows the same PascalCase rule as a
    // class identifier, underscores included.
    let (table, tokens) = lex("hasFuel_Type");
    assert!(matches!(tokens[0].value, Token::PropertyIdentifier { index: 0 }));
    assert_eq!(table.symbols()[0].id(), "hasFuel_Type");
}

#[test]
fn identifiers_may_hold_unicode_letters() {
    let (table, tokens) = lex("Émile");
    assert!(matches!(tokens[0].value, Token::ClassIdentifier { index: 0 }));
    assert_eq!(table.symbols()[0].id(), "Émile");
    // Offsets count characters, not bytes.
    assert_eq!(tokens[0].span.start, 0);
    assert_eq!(tokens[0].span.end, 5);
}

#[test]
fn update_property_type_refines_once() {
    let (mut table, _) = lex("hasAge Person");
    assert!(matches!(table.symbols()[0].type_(), Type::Property(None)));
    // First refinement succeeds.
    assert!(table.update_property_type(0, PropertyType::Object));
    assert!(matches!(
        table.symbols()[0].type_(),
        Type::Property(Some(PropertyType::Object))
    ));
    // A second refinement, or one of a non-property, is a no-op.
    assert!(!table.update_property_type(0, PropertyType::Data));
    assert!(!table.update_property_type(1, PropertyType::Data));
    assert!(!table.update_property_type(99, PropertyType::Data));
    assert!(matches!(
        table.symbols()[0].type_(),
        Type::Property(Some(PropertyType::Object))
    ));
}

#[test]
fn get_or_insert_reuses_index_for_same_text() {
    let mut table = SymbolTable::new();
    let a = table.get_or_insert(Type::Class, "Person".to_string());
    let b = table.get_or_insert(Type::Literal, "Person".to_string());
    let c = table.get_or_insert(Type::Class, "Animal".to_string());
    assert_eq!(a, 0);
    assert_eq!(b, 0);
    assert_eq!(c, 1);
    assert!(matches!(table.get(0), Some(s) if s.id() == "Person"));
    assert!(matches!(table.get(1), Some(s) if s.id() == "Animal"));
    assert!(table.get(2).is_none());
}
