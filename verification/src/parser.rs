//! Recursive-descent parser: consumes the token sequence and the mutable
//! symbol table to build class declarations, enforcing grammar rules,
//! property-kind consistency across the whole file, and no-duplicate
//! constraints, attaching a source span to every node.
//!
//! The cursor is a plain index into the token sequence; backtracking is
//! re-entering a production from an earlier index, so a failed attempt
//! consumes nothing.

use crate::lexer::{Datatype, Keyword, Punctuation, Token};
use crate::span::{Located, Span};
use crate::table::{
    lemma_table_refines_trans, table_refines, PropertyType, Symbol, SymbolTable, Type,
};
use vstd::prelude::*;

verus! {

/// A class name, by symbol index; equality is by index.
#[derive(Debug, Clone, Copy, PartialEq, Eq, Structural)]
pub struct ClassIdentifier {
    pub index: usize,
}

/// A literal, by symbol index; equality is by index.
#[derive(Debug, Clone, Copy, PartialEq, Eq, Structural)]
pub struct Literal {
    pub index: usize,
}

/// Comparator of a datatype restriction.
#[derive(Debug, Clone, Copy, PartialEq, Eq, Structural)]
pub enum RestrictionType {
    LessThanEqual,
    GreaterThanEqual,
    LessThan,
    GreaterThan,
}

/// A comparator with its bounding literal.
#[derive(Debug, Clone, Copy, PartialEq, Eq, Structural)]
pub struct Restriction(pub RestrictionType, pub Literal);

/// A primitive datatype, optionally restricted.
#[derive(Debug, Clone, Copy, PartialEq, Eq)]
pub struct Data {
    pub datatype: Datatype,
    pub restriction: Option<Restriction>,
}

/// A class as it appears inside property targets: a bare name, a nested
/// defined class, an enumeration, or a disjoint set.
#[derive(Debug, PartialEq, Eq)]
pub enum Class {
    Identifier(ClassIdentifier),
    Defined(ClassIdentifier, Vec<Property>),
    Enumerated(Vec<ClassIdentifier>),
    Disjoint(Vec<ClassIdentifier>),
}

/// A property applied to a class, with how it restricts its values.
#[derive(Debug, PartialEq, Eq)]
pub struct Property {
    pub index: usize,
    pub description: PropertyDescription,
}

/// Object-valued or data-valued description.
#[derive(Debug, PartialEq, Eq)]
pub enum PropertyDescription {
    Object(ObjectDescription),
    Data(DataDescription),
}

/// Restriction forms whose target is a class.
#[derive(Debug, PartialEq, Eq)]
pub enum ObjectDescription {
    SomeOf(Class),
    OnlyOf(Class),
    ValueOf(ClassIdentifier),
    MinOf(usize, Class),
    MaxOf(usize, Class),
    ExactlyOf(usize, Class),
}

/// Restriction forms whose target is a primitive datatype.
#[derive(Debug, PartialEq, Eq)]
pub enum DataDescription {
    SomeOf(Data),
    OnlyOf(Data),
    ValueOf(Literal),
    MinOf(usize, Data),
    MaxOf(usize, Data),
    ExactlyOf(usize, Data),
}

/// One top-level class declaration.
#[derive(Debug, PartialEq, Eq)]
pub enum ClassDecl {
    Defined(ClassIdentifier, Vec<Property>),
    Primitive(ClassIdentifier, Vec<Property>),
    Enumerated(Vec<ClassIdentifier>),
    Disjoint(Vec<ClassIdentifier>),
}

/// Why a parse stopped; the first error aborts the whole file.
#[derive(Debug)]
pub enum ParserErr {
    UnexpectedEndOfInput,
    RepeatedProperty(Located<Property>),
    RepeatedClass(Located<ClassIdentifier>),
    UnrecognizedToken { expected: &'static str, found: Located<Token> },
    TypeMismatch { location: Span, expected: Type, found: Type },
}

/// Structural equality of restricted datatypes.
pub open spec fn spec_data_eq(a: Data, b: Data) -> bool {
    &&& a.datatype == b.datatype
    &&& match (a.restriction, b.restriction) {
        (None, None) => true,
        (Some(r1), Some(r2)) => r1.0 == r2.0 && r1.1 == r2.1,
        _ => false,
    }
}

/// Structural equality of classes.
pub open spec fn spec_class_eq(a: Class, b: Class) -> bool
    decreases a,
{
    match (a, b) {
        (Class::Identifier(c1), Class::Identifier(c2)) => c1 == c2,
        (Class::Defined(c1, ps1), Class::Defined(c2, ps2)) => c1 == c2 && ps1@.len()
            == ps2@.len() && forall|i: int|
            0 <= i < ps1@.len() ==> spec_prop_eq(#[trigger] ps1@[i], ps2@[i]),
        (Class::Enumerated(cs1), Class::Enumerated(cs2)) => cs1@ == cs2@,
        (Class::Disjoint(cs1), Class::Disjoint(cs2)) => cs1@ == cs2@,
        _ => false,
    }
}

/// Structural equality of object descriptions.
pub open spec fn spec_obj_eq(a: ObjectDescription, b: ObjectDescription) -> bool
    decreases a,
{
    match (a, b) {
        (ObjectDescription::SomeOf(c1), ObjectDescription::SomeOf(c2)) => spec_class_eq(c1, c2),
        (ObjectDescription::OnlyOf(c1), ObjectDescription::OnlyOf(c2)) => spec_class_eq(c1, c2),
        (ObjectDescription::ValueOf(c1), ObjectDescription::ValueOf(c2)) => c1 == c2,
        (ObjectDescription::MinOf(n1, c1), ObjectDescription::MinOf(n2, c2)) => n1 == n2
            && spec_class_eq(c1, c2),
        (ObjectDescription::MaxOf(n1, c1), ObjectDescription::MaxOf(n2, c2)) => n1 == n2
            && spec_class_eq(c1, c2),
        (ObjectDescription::ExactlyOf(n1, c1), ObjectDescription::ExactlyOf(n2, c2)) => n1 == n2
            && spec_class_eq(c1, c2),
        _ => false,
    }
}

/// Structural equality of data descriptions.
pub open spec fn spec_data_desc_eq(a: DataDescription, b: DataDescription) -> bool {
    match (a, b) {
        (DataDescription::SomeOf(d1), DataDescription::SomeOf(d2)) => spec_data_eq(d1, d2),
        (DataDescription::OnlyOf(d1), DataDescription::OnlyOf(d2)) => spec_data_eq(d1, d2),
        (DataDescription::ValueOf(l1), DataDescription::ValueOf(l2)) => l1 == l2,
        (DataDescription::MinOf(n1, d1), DataDescription::MinOf(n2, d2)) => n1 == n2
            && spec_data_eq(d1, d2),
        (DataDescription::MaxOf(n1, d1), DataDescription::MaxOf(n2, d2)) => n1 == n2
            && spec_data_eq(d1, d2),
        (DataDescription::ExactlyOf(n1, d1), DataDescription::ExactlyOf(n2, d2)) => n1 == n2
            && spec_data_eq(d1, d2),
        _ => false,
    }
}

/// Structural equality of property descriptions.
pub open spec fn spec_desc_eq(a: PropertyDescription, b: PropertyDescription) -> bool
    decreases a,
{
    match (a, b) {
        (PropertyDescription::Object(o1), PropertyDescription::Object(o2)) => spec_obj_eq(o1, o2),
        (PropertyDescription::Data(d1), PropertyDescription::Data(d2)) => spec_data_desc_eq(
            d1,
            d2,
        ),
        _ => false,
    }
}

/// Structural equality of properties: same symbol and same description.
pub open spec fn spec_prop_eq(a: Property, b: Property) -> bool
    decreases a,
{
    a.index == b.index && spec_desc_eq(a.description, b.description)
}

/// No two structurally equal properties.
pub open spec fn props_distinct(ps: Seq<Property>) -> bool {
    forall|i: int, j: int| 0 <= i < j < ps.len() ==> !spec_prop_eq(ps[i], ps[j])
}

/// No two equal class identifiers.
pub open spec fn ids_distinct(cs: Seq<ClassIdentifier>) -> bool {
    forall|i: int, j: int| 0 <= i < j < cs.len() ==> cs[i] != cs[j]
}

/// Well-formed class node: chains are non-empty and duplicate-free, a
/// disjoint set names at least two classes, and nested nodes are
/// well-formed in turn.
pub open spec fn class_wf(c: Class) -> bool
    decreases c,
{
    match c {
        Class::Identifier(_) => true,
        Class::Defined(_, ps) => ps@.len() >= 1 && props_distinct(ps@) && forall|i: int|
            0 <= i < ps@.len() ==> prop_wf(#[trigger] ps@[i]),
        Class::Enumerated(cs) => cs@.len() >= 1 && ids_distinct(cs@),
        Class::Disjoint(cs) => cs@.len() >= 2 && ids_distinct(cs@),
    }
}

/// Well-formed property node.
pub open spec fn prop_wf(p: Property) -> bool
    decreases p,
{
    match p.description {
        PropertyDescription::Object(o) => match o {
            ObjectDescription::SomeOf(c) => class_wf(c),
            ObjectDescription::OnlyOf(c) => class_wf(c),
            ObjectDescription::ValueOf(_) => true,
            ObjectDescription::MinOf(_, c) => class_wf(c),
            ObjectDescription::MaxOf(_, c) => class_wf(c),
            ObjectDescription::ExactlyOf(_, c) => class_wf(c),
        },
        PropertyDescription::Data(_) => true,
    }
}

/// Well-formed top-level declaration.
pub open spec fn class_decl_wf(d: ClassDecl) -> bool {
    match d {
        ClassDecl::Defined(_, ps) => ps@.len() >= 1 && props_distinct(ps@) && forall|i: int|
            0 <= i < ps@.len() ==> prop_wf(#[trigger] ps@[i]),
        ClassDecl::Primitive(_, ps) => ps@.len() >= 1 && props_distinct(ps@) && forall|i: int|
            0 <= i < ps@.len() ==> prop_wf(#[trigger] ps@[i]),
        ClassDecl::Enumerated(cs) => cs@.len() >= 1 && ids_distinct(cs@),
        ClassDecl::Disjoint(cs) => cs@.len() >= 2 && ids_distinct(cs@),
    }
}

/// The table records this property's kind: its symbol, when it exists, is a
/// property whose kind is exactly the kind of this use.
pub open spec fn prop_kind_recorded(syms: Seq<Symbol>, p: Property) -> bool {
    p.index < syms.len() ==> syms[p.index as int].spec_type() == Type::Property(
        Some(p.spec_kind()),
    )
}

/// Every property of the declaration's chain has its kind recorded.
pub open spec fn decl_kinds_recorded(syms: Seq<Symbol>, d: ClassDecl) -> bool {
    match d {
        ClassDecl::Defined(_, ps) => forall|i: int|
            0 <= i < ps@.len() ==> prop_kind_recorded(syms, #[trigger] ps@[i]),
        ClassDecl::Primitive(_, ps) => forall|i: int|
            0 <= i < ps@.len() ==> prop_kind_recorded(syms, #[trigger] ps@[i]),
        ClassDecl::Enumerated(_) => true,
        ClassDecl::Disjoint(_) => true,
    }
}

// The grammar as a mathematical function. The spec functions below parse
// the token sequence exactly as the code does — same productions, same
// backtracking, same kind checks threaded through the symbol state — and
// every parse function's contract ties its result to them, so success,
// failure, the chosen error, and the returned tree are all pinned down.
// Lists are `Seq`s here, so the tree has spec-level twins of the node types.

/// A property as the grammar sees it.
pub struct SpecProperty {
    pub index: usize,
    pub description: SpecPropertyDescription,
}

pub enum SpecPropertyDescription {
    Object(SpecObjectDescription),
    Data(DataDescription),
}

pub enum SpecObjectDescription {
    SomeOf(SpecClass),
    OnlyOf(SpecClass),
    ValueOf(ClassIdentifier),
    MinOf(usize, SpecClass),
    MaxOf(usize, SpecClass),
    ExactlyOf(usize, SpecClass),
}

pub enum SpecClass {
    Identifier(ClassIdentifier),
    Defined(ClassIdentifier, Seq<SpecProperty>),
    Enumerated(Seq<ClassIdentifier>),
    Disjoint(Seq<ClassIdentifier>),
}

pub enum SpecClassDecl {
    Defined(ClassIdentifier, Seq<SpecProperty>),
    Primitive(ClassIdentifier, Seq<SpecProperty>),
    Enumerated(Seq<ClassIdentifier>),
    Disjoint(Seq<ClassIdentifier>),
}

/// A parse error as the grammar sees it; the unrecognized-token error keeps
/// only the offending token (the accompanying description of what was
/// expected is display text, not contract).
pub enum SpecParseErr {
    UnexpectedEndOfInput,
    RepeatedProperty(SpecProperty, Span),
    RepeatedClass(Located<ClassIdentifier>),
    UnrecognizedToken(Located<Token>),
    TypeMismatch { location: Span, expected: Type, found: Type },
}

/// Which kind of property a description makes.
pub open spec fn spec_property_kind(p: SpecProperty) -> PropertyType {
    match p.description {
        SpecPropertyDescription::Object(_) => PropertyType::Object,
        SpecPropertyDescription::Data(_) => PropertyType::Data,
    }
}

/// A returned property equals its grammar twin.
pub open spec fn prop_corresponds(p: Property, sp: SpecProperty) -> bool
    decreases p,
{
    p.index == sp.index && desc_corresponds(p.description, sp.description)
}

pub open spec fn desc_corresponds(d: PropertyDescription, sd: SpecPropertyDescription) -> bool
    decreases d,
{
    match (d, sd) {
        (PropertyDescription::Object(o), SpecPropertyDescription::Object(so)) => obj_corresponds(
            o,
            so,
        ),
        (PropertyDescription::Data(x), SpecPropertyDescription::Data(sx)) => x == sx,
        _ => false,
    }
}

pub open spec fn obj_corresponds(o: ObjectDescription, so: SpecObjectDescription) -> bool
    decreases o,
{
    match (o, so) {
        (ObjectDescription::SomeOf(c), SpecObjectDescription::SomeOf(sc)) => class_corresponds(
            c,
            sc,
        ),
        (ObjectDescription::OnlyOf(c), SpecObjectDescription::OnlyOf(sc)) => class_corresponds(
            c,
            sc,
        ),
        (ObjectDescription::ValueOf(ci), SpecObjectDescription::ValueOf(sci)) => ci == sci,
        (ObjectDescription::MinOf(n, c), SpecObjectDescription::MinOf(sn, sc)) => n == sn
            && class_corresponds(c, sc),
        (ObjectDescription::MaxOf(n, c), SpecObjectDescription::MaxOf(sn, sc)) => n == sn
            && class_corresponds(c, sc),
        (ObjectDescription::ExactlyOf(n, c), SpecObjectDescription::ExactlyOf(sn, sc)) => n == sn
            && class_corresponds(c, sc),
        _ => false,
    }
}

pub open spec fn class_corresponds(c: Class, sc: SpecClass) -> bool
    decreases c,
{
    match (c, sc) {
        (Class::Identifier(a), SpecClass::Identifier(b)) => a == b,
        (Class::Defined(a, ps), SpecClass::Defined(b, sps)) => a == b && ps@.len() == sps.len()
            && forall|i: int| 0 <= i < ps@.len() ==> prop_corresponds(#[trigger] ps@[i], sps[i]),
        (Class::Enumerated(cs), SpecClass::Enumerated(scs)) => cs@ == scs,
        (Class::Disjoint(cs), SpecClass::Disjoint(scs)) => cs@ == scs,
        _ => false,
    }
}

pub open spec fn decl_corresponds(d: ClassDecl, sd: SpecClassDecl) -> bool {
    match (d, sd) {
        (ClassDecl::Defined(a, ps), SpecClassDecl::Defined(b, sps)) => a == b && ps@.len()
            == sps.len() && forall|i: int|
            0 <= i < ps@.len() ==> prop_corresponds(#[trigger] ps@[i], sps[i]),
        (ClassDecl::Primitive(a, ps), SpecClassDecl::Primitive(b, sps)) => a == b && ps@.len()
            == sps.len() && forall|i: int|
            0 <= i < ps@.len() ==> prop_corresponds(#[trigger] ps@[i], sps[i]),
        (ClassDecl::Enumerated(cs), SpecClassDecl::Enumerated(scs)) => cs@ == scs,
        (ClassDecl::Disjoint(cs), SpecClassDecl::Disjoint(scs)) => cs@ == scs,
        _ => false,
    }
}

/// A returned error equals its grammar twin; the `expected` display text of
/// an unrecognized-token error is the one part left open.
pub open spec fn err_corresponds(e: ParserErr, se: SpecParseErr) -> bool {
    match (e, se) {
        (ParserErr::UnexpectedEndOfInput, SpecParseErr::UnexpectedEndOfInput) => true,
        (ParserErr::RepeatedProperty(lp), SpecParseErr::RepeatedProperty(sp, sspan)) => lp.span
            == sspan && prop_corresponds(lp.value, sp),
        (ParserErr::RepeatedClass(lc), SpecParseErr::RepeatedClass(slc)) => lc == slc,
        (
            ParserErr::UnrecognizedToken { expected: _, found },
            SpecParseErr::UnrecognizedToken(sfound),
        ) => found == sfound,
        (
            ParserErr::TypeMismatch { location, expected, found },
            SpecParseErr::TypeMismatch { location: sl, expected: se_, found: sf },
        ) => location == sl && expected == se_ && found == sf,
        _ => false,
    }
}

/// The whole-file kind check on one freshly parsed property: an unknown
/// property kind is fixed to this use's kind; a known one must agree.
pub open spec fn spec_check_property(p: SpecProperty, span: Span, syms: Seq<Symbol>) -> (
    Seq<Symbol>,
    Result<(), SpecParseErr>,
) {
    let idx = p.index as int;
    let k = spec_property_kind(p);
    if idx >= syms.len() {
        (syms, Ok(()))
    } else {
        match syms[idx].spec_type() {
            Type::Property(ko) => {
                if ko is None {
                    (syms.update(idx, Symbol { type_: Type::Property(Some(k)), id: syms[idx].id }),
                    Ok(()))
                } else if ko->0 == k {
                    (syms, Ok(()))
                } else {
                    (
                        syms,
                        Err(SpecParseErr::TypeMismatch {
                            location: span,
                            expected: Type::Property(ko),
                            found: Type::Property(Some(k)),
                        }),
                    )
                }
            },
            t => (
                syms,
                Err(SpecParseErr::TypeMismatch {
                    location: span,
                    expected: t,
                    found: Type::Property(Some(k)),
                }),
            ),
        }
    }
}

/// One class identifier token.
pub open spec fn spec_parse_class_identifier(tokens: Seq<Located<Token>>, pos: int) -> Result<
    (int, Located<ClassIdentifier>),
    SpecParseErr,
> {
    if !(0 <= pos < tokens.len()) {
        Err(SpecParseErr::UnexpectedEndOfInput)
    } else {
        match tokens[pos].value {
            Token::ClassIdentifier { index } => Ok(
                (pos + 1, Located { value: ClassIdentifier { index }, span: tokens[pos].span }),
            ),
            _ => Err(SpecParseErr::UnrecognizedToken(tokens[pos])),
        }
    }
}

/// One literal token.
pub open spec fn spec_parse_literal(tokens: Seq<Located<Token>>, pos: int) -> Result<
    (int, Located<Literal>),
    SpecParseErr,
> {
    if !(0 <= pos < tokens.len()) {
        Err(SpecParseErr::UnexpectedEndOfInput)
    } else {
        match tokens[pos].value {
            Token::Literal { index } => Ok(
                (pos + 1, Located { value: Literal { index }, span: tokens[pos].span }),
            ),
            _ => Err(SpecParseErr::UnrecognizedToken(tokens[pos])),
        }
    }
}

/// A datatype, optionally followed by `[ comparator literal ]`.
pub open spec fn spec_parse_data(tokens: Seq<Located<Token>>, pos: int) -> Result<
    (int, Located<Data>),
    SpecParseErr,
> {
    if !(0 <= pos < tokens.len()) {
        Err(SpecParseErr::UnexpectedEndOfInput)
    } else {
        match tokens[pos].value {
            Token::Datatype(dt) => {
                if pos + 1 < tokens.len() && tokens[pos + 1].value == Token::Punctuation(
                    Punctuation::OpenBracket,
                ) {
                    if pos + 2 >= tokens.len() {
                        Err(SpecParseErr::UnexpectedEndOfInput)
                    } else {
                        match comparator_of(tokens[pos + 2].value) {
                            None => Err(SpecParseErr::UnrecognizedToken(tokens[pos + 2])),
                            Some(rt) => match spec_parse_literal(tokens, pos + 3) {
                                Err(e) => Err(e),
                                Ok((after, lit)) => {
                                    if after >= tokens.len() {
                                        Err(SpecParseErr::UnexpectedEndOfInput)
                                    } else if tokens[after].value == Token::Punctuation(
                                        Punctuation::CloseBracket,
                                    ) {
                                        Ok(
                                            (
                                                after + 1,
                                                Located {
                                                    value: Data {
                                                        datatype: dt,
                                                        restriction: Some(
                                                            Restriction(rt, lit.value),
                                                        ),
                                                    },
                                                    span: Span {
                                                        start: tokens[pos].span.start,
                                                        end: tokens[after].span.end,
                                                    },
                                                },
                                            ),
                                        )
                                    } else {
                                        Err(SpecParseErr::UnrecognizedToken(tokens[after]))
                                    }
                                },
                            },
                        }
                    }
                } else {
                    Ok(
                        (
                            pos + 1,
                            Located {
                                value: Data { datatype: dt, restriction: None },
                                span: tokens[pos].span,
                            },
                        ),
                    )
                }
            },
            _ => Err(SpecParseErr::UnrecognizedToken(tokens[pos])),
        }
    }
}

/// The members of an enumeration after its first: while a comma follows,
/// one more identifier, rejected when already listed.
pub open spec fn spec_enum_tail(
    tokens: Seq<Located<Token>>,
    pos: int,
    acc: Seq<ClassIdentifier>,
) -> Result<(int, Seq<ClassIdentifier>), SpecParseErr>
    decreases tokens.len() - pos,
{
    if 0 <= pos < tokens.len() && tokens[pos].value == Token::Punctuation(Punctuation::Comma) {
        match spec_parse_class_identifier(tokens, pos + 1) {
            Err(e) => Err(e),
            Ok((np, c)) => {
                if acc.contains(c.value) {
                    Err(SpecParseErr::RepeatedClass(c))
                } else {
                    spec_enum_tail(tokens, np, acc.push(c.value))
                }
            },
        }
    } else {
        Ok((pos, acc))
    }
}

/// `{ ClassIdentifier (, ClassIdentifier)* }`.
pub open spec fn spec_parse_enumerated(tokens: Seq<Located<Token>>, pos: int) -> Result<
    (int, Span, Seq<ClassIdentifier>),
    SpecParseErr,
> {
    if !(0 <= pos < tokens.len()) {
        Err(SpecParseErr::UnexpectedEndOfInput)
    } else if tokens[pos].value != Token::Punctuation(Punctuation::OpenBrace) {
        Err(SpecParseErr::UnrecognizedToken(tokens[pos]))
    } else {
        match spec_parse_class_identifier(tokens, pos + 1) {
            Err(e) => Err(e),
            Ok((np, c)) => match spec_enum_tail(tokens, np, seq![c.value]) {
                Err(e) => Err(e),
                Ok((after, members)) => {
                    if after >= tokens.len() {
                        Err(SpecParseErr::UnexpectedEndOfInput)
                    } else if tokens[after].value == Token::Punctuation(Punctuation::CloseBrace) {
                        Ok(
                            (
                                after + 1,
                                Span { start: tokens[pos].span.start, end: tokens[after].span.end },
                                members,
                            ),
                        )
                    } else {
                        Err(SpecParseErr::UnrecognizedToken(tokens[after]))
                    }
                },
            },
        }
    }
}

/// The members of a disjoint chain after those already read: while an `OR`
/// follows, one more identifier, rejected when already listed.
pub open spec fn spec_or_tail(
    tokens: Seq<Located<Token>>,
    pos: int,
    acc: Seq<ClassIdentifier>,
) -> Result<(int, Seq<ClassIdentifier>), SpecParseErr>
    decreases tokens.len() - pos,
{
    if 0 <= pos < tokens.len() && tokens[pos].value == Token::Keyword(Keyword::OR) {
        match spec_parse_class_identifier(tokens, pos + 1) {
            Err(e) => Err(e),
            Ok((np, c)) => {
                if acc.contains(c.value) {
                    Err(SpecParseErr::RepeatedClass(c))
                } else {
                    spec_or_tail(tokens, np, acc.push(c.value))
                }
            },
        }
    } else {
        Ok((pos, acc))
    }
}

/// A disjoint chain after its head and first `OR`: `pos` is at the second
/// identifier; repeating the head is rejected at once.
pub open spec fn spec_or_chain(
    tokens: Seq<Located<Token>>,
    pos: int,
    first: ClassIdentifier,
) -> Result<(int, Seq<ClassIdentifier>), SpecParseErr> {
    match spec_parse_class_identifier(tokens, pos) {
        Err(e) => Err(e),
        Ok((np, c)) => {
            if c.value == first {
                Err(SpecParseErr::RepeatedClass(c))
            } else {
                spec_or_tail(tokens, np, seq![first, c.value])
            }
        },
    }
}

/// The object description an operator builds around a class target.
pub open spec fn spec_obj_desc(op: Keyword, n: usize, c: SpecClass) -> SpecObjectDescription {
    match op {
        Keyword::SOME => SpecObjectDescription::SomeOf(c),
        Keyword::ONLY => SpecObjectDescription::OnlyOf(c),
        Keyword::MIN => SpecObjectDescription::MinOf(n, c),
        Keyword::MAX => SpecObjectDescription::MaxOf(n, c),
        _ => SpecObjectDescription::ExactlyOf(n, c),
    }
}

/// The data description an operator builds around a datatype target.
pub open spec fn spec_data_desc(op: Keyword, n: usize, d: Data) -> DataDescription {
    match op {
        Keyword::SOME => DataDescription::SomeOf(d),
        Keyword::ONLY => DataDescription::OnlyOf(d),
        Keyword::MIN => DataDescription::MinOf(n, d),
        Keyword::MAX => DataDescription::MaxOf(n, d),
        _ => DataDescription::ExactlyOf(n, d),
    }
}

/// One property production: either `( Property )` with a widened span, or
/// a property identifier, an operator, and a target.
pub open spec fn spec_parse_property(tokens: Seq<Located<Token>>, pos: int, syms: Seq<Symbol>) -> (
    Seq<Symbol>,
    Result<(int, Span, SpecProperty), SpecParseErr>,
)
    decreases tokens.len() - pos, 3int,
{
    if !(0 <= pos < tokens.len()) {
        (syms, Err(SpecParseErr::UnexpectedEndOfInput))
    } else {
        match tokens[pos].value {
            Token::Punctuation(Punctuation::OpenParen) => {
                let (syms1, r1) = spec_parse_property(tokens, pos + 1, syms);
                match r1 {
                    Err(e) => (syms1, Err(e)),
                    Ok((np, _pspan, p)) => {
                        if np >= tokens.len() {
                            (syms1, Err(SpecParseErr::UnexpectedEndOfInput))
                        } else if tokens[np].value == Token::Punctuation(Punctuation::CloseParen) {
                            (
                                syms1,
                                Ok(
                                    (
                                        np + 1,
                                        Span {
                                            start: tokens[pos].span.start,
                                            end: tokens[np].span.end,
                                        },
                                        p,
                                    ),
                                ),
                            )
                        } else {
                            (syms1, Err(SpecParseErr::UnrecognizedToken(tokens[np])))
                        }
                    },
                }
            },
            Token::PropertyIdentifier { index } => {
                if pos + 1 >= tokens.len() {
                    (syms, Err(SpecParseErr::UnexpectedEndOfInput))
                } else {
                    match tokens[pos + 1].value {
                        Token::Keyword(Keyword::SOME) => spec_target(
                            tokens,
                            pos,
                            pos + 2,
                            index,
                            Keyword::SOME,
                            0,
                            syms,
                        ),
                        Token::Keyword(Keyword::ONLY) => spec_target(
                            tokens,
                            pos,
                            pos + 2,
                            index,
                            Keyword::ONLY,
                            0,
                            syms,
                        ),
                        Token::Keyword(Keyword::VALUE) => {
                            match spec_parse_class_identifier(tokens, pos + 2) {
                                Ok((np, c)) => (
                                    syms,
                                    Ok(
                                        (
                                            np,
                                            Span {
                                                start: tokens[pos].span.start,
                                                end: c.span.end,
                                            },
                                            SpecProperty {
                                                index,
                                                description: SpecPropertyDescription::Object(
                                                    SpecObjectDescription::ValueOf(c.value),
                                                ),
                                            },
                                        ),
                                    ),
                                ),
                                Err(e) => {
                                    if e matches SpecParseErr::UnrecognizedToken(_) {
                                        match spec_parse_literal(tokens, pos + 2) {
                                            Ok((np, l)) => (
                                                syms,
                                                Ok(
                                                    (
                                                        np,
                                                        Span {
                                                            start: tokens[pos].span.start,
                                                            end: l.span.end,
                                                        },
                                                        SpecProperty {
                                                            index,
                                                            description:
                                                                SpecPropertyDescription::Data(
                                                                DataDescription::ValueOf(l.value),
                                                            ),
                                                        },
                                                    ),
                                                ),
                                            ),
                                            Err(e2) => (syms, Err(e2)),
                                        }
                                    } else {
                                        (syms, Err(e))
                                    }
                                },
                            }
                        },
                        Token::Keyword(Keyword::MIN) => spec_card_target(
                            tokens,
                            pos,
                            index,
                            Keyword::MIN,
                            syms,
                        ),
                        Token::Keyword(Keyword::MAX) => spec_card_target(
                            tokens,
                            pos,
                            index,
                            Keyword::MAX,
                            syms,
                        ),
                        Token::Keyword(Keyword::EXACTLY) => spec_card_target(
                            tokens,
                            pos,
                            index,
                            Keyword::EXACTLY,
                            syms,
                        ),
                        _ => (syms, Err(SpecParseErr::UnrecognizedToken(tokens[pos + 1]))),
                    }
                }
            },
            _ => (syms, Err(SpecParseErr::UnrecognizedToken(tokens[pos]))),
        }
    }
}

/// A cardinality operator's tail: the cardinality token, then the target;
/// a missing or malformed cardinality ends the input's usefulness.
pub open spec fn spec_card_target(
    tokens: Seq<Located<Token>>,
    pos: int,
    index: usize,
    op: Keyword,
    syms: Seq<Symbol>,
) -> (Seq<Symbol>, Result<(int, Span, SpecProperty), SpecParseErr>)
    decreases tokens.len() - pos, 2int,
{
    if pos + 2 >= tokens.len() {
        (syms, Err(SpecParseErr::UnexpectedEndOfInput))
    } else {
        match tokens[pos + 2].value {
            Token::Cardinality(n) => spec_target(tokens, pos, pos + 3, index, op, n, syms),
            _ => (syms, Err(SpecParseErr::UnexpectedEndOfInput)),
        }
    }
}

/// An operator's target: first attempted as a class; only an
/// unrecognized-token failure there makes the grammar retry the same
/// position as a datatype, on the symbol state the attempt left behind.
/// Any other failure propagates unchanged.
pub open spec fn spec_target(
    tokens: Seq<Located<Token>>,
    start_pos: int,
    tpos: int,
    index: usize,
    op: Keyword,
    n: usize,
    syms: Seq<Symbol>,
) -> (Seq<Symbol>, Result<(int, Span, SpecProperty), SpecParseErr>)
    decreases tokens.len() - tpos, 1int,
{
    if !(0 <= tpos <= tokens.len()) {
        (syms, Err(SpecParseErr::UnexpectedEndOfInput))
    } else {
        let (syms1, cres) = spec_parse_class(tokens, tpos, syms);
        match cres {
            Ok((np, cspan, c)) => (
                syms1,
                Ok(
                    (
                        np,
                        Span { start: tokens[start_pos].span.start, end: cspan.end },
                        SpecProperty {
                            index,
                            description: SpecPropertyDescription::Object(spec_obj_desc(op, n, c)),
                        },
                    ),
                ),
            ),
            Err(e) => {
                if e matches SpecParseErr::UnrecognizedToken(_) {
                    match spec_parse_data(tokens, tpos) {
                        Ok((np, d)) => (
                            syms1,
                            Ok(
                                (
                                    np,
                                    Span { start: tokens[start_pos].span.start, end: d.span.end },
                                    SpecProperty {
                                        index,
                                        description: SpecPropertyDescription::Data(
                                            spec_data_desc(op, n, d.value),
                                        ),
                                    },
                                ),
                            ),
                        ),
                        Err(e2) => (syms1, Err(e2)),
                    }
                } else {
                    (syms1, Err(e))
                }
            },
        }
    }
}

/// A chain `Property (AND Property)*` from its first property on: each
/// property is checked against the symbol state, and a structural repeat is
/// rejected.
pub open spec fn spec_and_chain(tokens: Seq<Located<Token>>, pos: int, syms: Seq<Symbol>) -> (
    Seq<Symbol>,
    Result<(int, Seq<SpecProperty>), SpecParseErr>,
)
    decreases tokens.len() - pos, 4int,
{
    if !(0 <= pos <= tokens.len()) {
        (syms, Err(SpecParseErr::UnexpectedEndOfInput))
    } else {
        let (syms1, r1) = spec_parse_property(tokens, pos, syms);
        match r1 {
            Err(e) => (syms1, Err(e)),
            Ok((np, pspan, p)) => {
                let (syms2, chk) = spec_check_property(p, pspan, syms1);
                match chk {
                    Err(e) => (syms2, Err(e)),
                    Ok(_) => {
                        if !(pos < np <= tokens.len()) {
                            (syms2, Err(SpecParseErr::UnexpectedEndOfInput))
                        } else {
                            spec_and_tail(tokens, np, seq![p], syms2)
                        }
                    },
                }
            },
        }
    }
}

/// The rest of an `AND` chain after its members so far.
pub open spec fn spec_and_tail(
    tokens: Seq<Located<Token>>,
    pos: int,
    acc: Seq<SpecProperty>,
    syms: Seq<Symbol>,
) -> (Seq<Symbol>, Result<(int, Seq<SpecProperty>), SpecParseErr>)
    decreases tokens.len() - pos, 4int,
{
    if 0 <= pos < tokens.len() && tokens[pos].value == Token::Keyword(Keyword::AND) {
        let (syms1, r1) = spec_parse_property(tokens, pos + 1, syms);
        match r1 {
            Err(e) => (syms1, Err(e)),
            Ok((np, pspan, p)) => {
                let (syms2, chk) = spec_check_property(p, pspan, syms1);
                match chk {
                    Err(e) => (syms2, Err(e)),
                    Ok(_) => {
                        if acc.contains(p) {
                            (syms2, Err(SpecParseErr::RepeatedProperty(p, pspan)))
                        } else if !(pos + 1 < np <= tokens.len()) {
                            (syms2, Err(SpecParseErr::UnexpectedEndOfInput))
                        } else {
                            spec_and_tail(tokens, np, acc.push(p), syms2)
                        }
                    },
                }
            },
        }
    } else {
        (syms, Ok((pos, acc)))
    }
}

/// A chain of properties written one after the other, from its first on.
pub open spec fn spec_prop_chain(tokens: Seq<Located<Token>>, pos: int, syms: Seq<Symbol>) -> (
    Seq<Symbol>,
    Result<(int, Seq<SpecProperty>), SpecParseErr>,
)
    decreases tokens.len() - pos, 4int,
{
    if !(0 <= pos <= tokens.len()) {
        (syms, Err(SpecParseErr::UnexpectedEndOfInput))
    } else {
        let (syms1, r1) = spec_parse_property(tokens, pos, syms);
        match r1 {
            Err(e) => (syms1, Err(e)),
            Ok((np, pspan, p)) => {
                let (syms2, chk) = spec_check_property(p, pspan, syms1);
                match chk {
                    Err(e) => (syms2, Err(e)),
                    Ok(_) => {
                        if !(pos < np <= tokens.len()) {
                            (syms2, Err(SpecParseErr::UnexpectedEndOfInput))
                        } else {
                            spec_prop_tail(tokens, np, seq![p], syms2)
                        }
                    },
                }
            },
        }
    }
}

/// The rest of a concatenated property chain after its members so far.
pub open spec fn spec_prop_tail(
    tokens: Seq<Located<Token>>,
    pos: int,
    acc: Seq<SpecProperty>,
    syms: Seq<Symbol>,
) -> (Seq<Symbol>, Result<(int, Seq<SpecProperty>), SpecParseErr>)
    decreases tokens.len() - pos, 4int,
{
    if 0 <= pos < tokens.len() && property_start(tokens[pos].value) {
        let (syms1, r1) = spec_parse_property(tokens, pos, syms);
        match r1 {
            Err(e) => (syms1, Err(e)),
            Ok((np, pspan, p)) => {
                let (syms2, chk) = spec_check_property(p, pspan, syms1);
                match chk {
                    Err(e) => (syms2, Err(e)),
                    Ok(_) => {
                        if acc.contains(p) {
                            (syms2, Err(SpecParseErr::RepeatedProperty(p, pspan)))
                        } else if !(pos < np <= tokens.len()) {
                            (syms2, Err(SpecParseErr::UnexpectedEndOfInput))
                        } else {
                            spec_prop_tail(tokens, np, acc.push(p), syms2)
                        }
                    },
                }
            },
        }
    } else {
        (syms, Ok((pos, acc)))
    }
}

/// One class production: a bare identifier, an identifier with an `AND` or
/// `OR` chain, a parenthesized class, or an enumeration.
pub open spec fn spec_parse_class(tokens: Seq<Located<Token>>, pos: int, syms: Seq<Symbol>) -> (
    Seq<Symbol>,
    Result<(int, Span, SpecClass), SpecParseErr>,
)
    decreases tokens.len() - pos, 0int,
{
    if !(0 <= pos < tokens.len()) {
        (syms, Err(SpecParseErr::UnexpectedEndOfInput))
    } else {
        match tokens[pos].value {
            Token::ClassIdentifier { index } => {
                let ci = ClassIdentifier { index };
                if pos + 1 < tokens.len() && tokens[pos + 1].value == Token::Keyword(
                    Keyword::AND,
                ) {
                    let (syms1, r1) = spec_and_chain(tokens, pos + 2, syms);
                    match r1 {
                        Err(e) => (syms1, Err(e)),
                        Ok((np, props)) => (
                            syms1,
                            Ok(
                                (
                                    np,
                                    Span {
                                        start: tokens[pos].span.start,
                                        end: tokens[np - 1].span.end,
                                    },
                                    SpecClass::Defined(ci, props),
                                ),
                            ),
                        ),
                    }
                } else if pos + 1 < tokens.len() && tokens[pos + 1].value == Token::Keyword(
                    Keyword::OR,
                ) {
                    match spec_or_chain(tokens, pos + 2, ci) {
                        Err(e) => (syms, Err(e)),
                        Ok((np, cs)) => (
                            syms,
                            Ok(
                                (
                                    np,
                                    Span {
                                        start: tokens[pos].span.start,
                                        end: tokens[np - 1].span.end,
                                    },
                                    SpecClass::Disjoint(cs),
                                ),
                            ),
                        ),
                    }
                } else {
                    (syms, Ok((pos + 1, tokens[pos].span, SpecClass::Identifier(ci))))
                }
            },
            Token::Punctuation(Punctuation::OpenParen) => {
                let (syms1, r1) = spec_parse_class(tokens, pos + 1, syms);
                match r1 {
                    Err(e) => (syms1, Err(e)),
                    Ok((np, _cspan, c)) => {
                        if np >= tokens.len() {
                            (syms1, Err(SpecParseErr::UnexpectedEndOfInput))
                        } else if tokens[np].value == Token::Punctuation(Punctuation::CloseParen) {
                            (
                                syms1,
                                Ok(
                                    (
                                        np + 1,
                                        Span {
                                            start: tokens[pos].span.start,
                                            end: tokens[np].span.end,
                                        },
                                        c,
                                    ),
                                ),
                            )
                        } else {
                            (syms1, Err(SpecParseErr::UnrecognizedToken(tokens[np])))
                        }
                    },
                }
            },
            Token::Punctuation(Punctuation::OpenBrace) => {
                match spec_parse_enumerated(tokens, pos) {
                    Err(e) => (syms, Err(e)),
                    Ok((np, espan, members)) => (
                        syms,
                        Ok((np, espan, SpecClass::Enumerated(members))),
                    ),
                }
            },
            _ => (syms, Err(SpecParseErr::UnrecognizedToken(tokens[pos]))),
        }
    }
}

/// One top-level declaration.
pub open spec fn spec_parse_decl(tokens: Seq<Located<Token>>, pos: int, syms: Seq<Symbol>) -> (
    Seq<Symbol>,
    Result<(int, Span, SpecClassDecl), SpecParseErr>,
)
    decreases tokens.len() - pos, 5int,
{
    if !(0 <= pos < tokens.len()) {
        (syms, Err(SpecParseErr::UnexpectedEndOfInput))
    } else {
        match tokens[pos].value {
            Token::ClassIdentifier { index } => {
                let ci = ClassIdentifier { index };
                if pos + 1 >= tokens.len() {
                    (syms, Err(SpecParseErr::UnexpectedEndOfInput))
                } else if tokens[pos + 1].value == Token::Keyword(Keyword::AND) {
                    let (syms1, r1) = spec_and_chain(tokens, pos + 2, syms);
                    match r1 {
                        Err(e) => (syms1, Err(e)),
                        Ok((np, props)) => (
                            syms1,
                            Ok(
                                (
                                    np,
                                    Span {
                                        start: tokens[pos].span.start,
                                        end: tokens[np - 1].span.end,
                                    },
                                    SpecClassDecl::Defined(ci, props),
                                ),
                            ),
                        ),
                    }
                } else if tokens[pos + 1].value == Token::Keyword(Keyword::OR) {
                    match spec_or_chain(tokens, pos + 2, ci) {
                        Err(e) => (syms, Err(e)),
                        Ok((np, cs)) => (
                            syms,
                            Ok(
                                (
                                    np,
                                    Span {
                                        start: tokens[pos].span.start,
                                        end: tokens[np - 1].span.end,
                                    },
                                    SpecClassDecl::Disjoint(cs),
                                ),
                            ),
                        ),
                    }
                } else if property_start(tokens[pos + 1].value) {
                    let (syms1, r1) = spec_prop_chain(tokens, pos + 1, syms);
                    match r1 {
                        Err(e) => (syms1, Err(e)),
                        Ok((np, props)) => (
                            syms1,
                            Ok(
                                (
                                    np,
                                    Span {
                                        start: tokens[pos].span.start,
                                        end: tokens[np - 1].span.end,
                                    },
                                    SpecClassDecl::Primitive(ci, props),
                                ),
                            ),
                        ),
                    }
                } else {
                    (syms, Err(SpecParseErr::UnrecognizedToken(tokens[pos + 1])))
                }
            },
            Token::Punctuation(Punctuation::OpenBrace) => {
                match spec_parse_enumerated(tokens, pos) {
                    Err(e) => (syms, Err(e)),
                    Ok((np, espan, members)) => (
                        syms,
                        Ok((np, espan, SpecClassDecl::Enumerated(members))),
                    ),
                }
            },
            _ => (syms, Err(SpecParseErr::UnrecognizedToken(tokens[pos]))),
        }
    }
}

/// A whole file: declarations one after the other until the tokens are
/// exhausted; the first error ends the parse.
pub open spec fn spec_parse_all(tokens: Seq<Located<Token>>, pos: int, syms: Seq<Symbol>) -> (
    Seq<Symbol>,
    Result<Seq<(Span, SpecClassDecl)>, SpecParseErr>,
)
    decreases tokens.len() - pos, 6int,
{
    if !(0 <= pos < tokens.len()) {
        (syms, Ok(Seq::empty()))
    } else {
        let (syms1, dres) = spec_parse_decl(tokens, pos, syms);
        match dres {
            Err(e) => (syms1, Err(e)),
            Ok((np, dspan, d)) => {
                if !(pos < np <= tokens.len()) {
                    (syms1, Err(SpecParseErr::UnexpectedEndOfInput))
                } else {
                    let (syms2, rest) = spec_parse_all(tokens, np, syms1);
                    match rest {
                        Err(e) => (syms2, Err(e)),
                        Ok(ds) => (syms2, Ok(seq![(dspan, d)] + ds)),
                    }
                }
            },
        }
    }
}

/// A corresponding property carries the same symbol index and kind.
pub proof fn lemma_kind_corresponds(p: Property, sp: SpecProperty)
    requires
        prop_corresponds(p, sp),
    ensures
        sp.index == p.index,
        spec_property_kind(sp) == p.spec_kind(),
{
}

/// Corresponding values are equal exactly when their originals are
/// structurally equal.
pub proof fn lemma_class_eq_corresponds(a: Class, b: Class, sa: SpecClass, sb: SpecClass)
    requires
        class_corresponds(a, sa),
        class_corresponds(b, sb),
    ensures
        spec_class_eq(a, b) <==> sa == sb,
    decreases a,
{
    match (a, b, sa, sb) {
        (
            Class::Defined(_, ps_a),
            Class::Defined(_, ps_b),
            SpecClass::Defined(_, sps_a),
            SpecClass::Defined(_, sps_b),
        ) => {
            if spec_class_eq(a, b) {
                assert forall|i: int| 0 <= i < sps_a.len() implies sps_a[i] == sps_b[i] by {
                    lemma_prop_eq_corresponds(ps_a@[i], ps_b@[i], sps_a[i], sps_b[i]);
                }
                assert(sps_a =~= sps_b);
            }
            if sa == sb {
                assert forall|i: int|
                    0 <= i < ps_a@.len() implies spec_prop_eq(#[trigger] ps_a@[i], ps_b@[i]) by {
                    lemma_prop_eq_corresponds(ps_a@[i], ps_b@[i], sps_a[i], sps_b[i]);
                }
            }
        },
        _ => {},
    }
}

pub proof fn lemma_obj_eq_corresponds(
    a: ObjectDescription,
    b: ObjectDescription,
    sa: SpecObjectDescription,
    sb: SpecObjectDescription,
)
    requires
        obj_corresponds(a, sa),
        obj_corresponds(b, sb),
    ensures
        spec_obj_eq(a, b) <==> sa == sb,
    decreases a,
{
    match (a, b, sa, sb) {
        (
            ObjectDescription::SomeOf(c1),
            ObjectDescription::SomeOf(c2),
            SpecObjectDescription::SomeOf(sc1),
            SpecObjectDescription::SomeOf(sc2),
        ) => lemma_class_eq_corresponds(c1, c2, sc1, sc2),
        (
            ObjectDescription::OnlyOf(c1),
            ObjectDescription::OnlyOf(c2),
            SpecObjectDescription::OnlyOf(sc1),
            SpecObjectDescription::OnlyOf(sc2),
        ) => lemma_class_eq_corresponds(c1, c2, sc1, sc2),
        (
            ObjectDescription::MinOf(_, c1),
            ObjectDescription::MinOf(_, c2),
            SpecObjectDescription::MinOf(_, sc1),
            SpecObjectDescription::MinOf(_, sc2),
        ) => lemma_class_eq_corresponds(c1, c2, sc1, sc2),
        (
            ObjectDescription::MaxOf(_, c1),
            ObjectDescription::MaxOf(_, c2),
            SpecObjectDescription::MaxOf(_, sc1),
            SpecObjectDescription::MaxOf(_, sc2),
        ) => lemma_class_eq_corresponds(c1, c2, sc1, sc2),
        (
            ObjectDescription::ExactlyOf(_, c1),
            ObjectDescription::ExactlyOf(_, c2),
            SpecObjectDescription::ExactlyOf(_, sc1),
            SpecObjectDescription::ExactlyOf(_, sc2),
        ) => lemma_class_eq_corresponds(c1, c2, sc1, sc2),
        _ => {},
    }
}

pub proof fn lemma_prop_eq_corresponds(
    a: Property,
    b: Property,
    sa: SpecProperty,
    sb: SpecProperty,
)
    requires
        prop_corresponds(a, sa),
        prop_corresponds(b, sb),
    ensures
        spec_prop_eq(a, b) <==> sa == sb,
    decreases a,
{
    match (a.description, b.description, sa.description, sb.description) {
        (
            PropertyDescription::Object(o1),
            PropertyDescription::Object(o2),
            SpecPropertyDescription::Object(so1),
            SpecPropertyDescription::Object(so2),
        ) => lemma_obj_eq_corresponds(o1, o2, so1, so2),
        _ => {},
    }
}

/// A list membership test agrees across the correspondence.
pub proof fn lemma_contains_corresponds(
    ps: Seq<Property>,
    sps: Seq<SpecProperty>,
    p: Property,
    sp: SpecProperty,
)
    requires
        ps.len() == sps.len(),
        forall|i: int| 0 <= i < ps.len() ==> prop_corresponds(#[trigger] ps[i], sps[i]),
        prop_corresponds(p, sp),
    ensures
        (exists|i: int| 0 <= i < ps.len() && spec_prop_eq(#[trigger] ps[i], p)) <==> sps.contains(
            sp,
        ),
{
    if exists|i: int| 0 <= i < ps.len() && spec_prop_eq(#[trigger] ps[i], p) {
        let i = choose|i: int| 0 <= i < ps.len() && spec_prop_eq(#[trigger] ps[i], p);
        lemma_prop_eq_corresponds(ps[i], p, sps[i], sp);
        assert(sps[i] == sp);
    }
    if sps.contains(sp) {
        let i = choose|i: int| 0 <= i < sps.len() && sps[i] == sp;
        lemma_prop_eq_corresponds(ps[i], p, sps[i], sp);
        assert(spec_prop_eq(ps[i], p));
    }
}

/// Structural equality of restricted datatypes, decided in code.
fn data_eq(a: &Data, b: &Data) -> (r: bool)
    ensures
        r == spec_data_eq(*a, *b),
{
    let dt_eq = a.datatype == b.datatype;
    let restr_eq = match (&a.restriction, &b.restriction) {
        (None, None) => true,
        (Some(r1), Some(r2)) => r1.0 == r2.0 && r1.1 == r2.1,
        _ => false,
    };
    dt_eq && restr_eq
}

/// Structural equality of classes, decided in code.
#[verifier::loop_isolation(false)]
fn class_eq(a: &Class, b: &Class) -> (r: bool)
    ensures
        r == spec_class_eq(*a, *b),
    decreases *a,
{
    match (a, b) {
        (Class::Identifier(c1), Class::Identifier(c2)) => c1 == c2,
        (Class::Defined(c1, ps1), Class::Defined(c2, ps2)) => {
            if !(c1 == c2) || ps1.len() != ps2.len() {
                return false;
            }
            let n = ps1.len();
            let mut i: usize = 0;
            while i < n
                invariant
                    0 <= i <= n,
                    n == ps1@.len() == ps2@.len(),
                    forall|k: int| 0 <= k < i ==> spec_prop_eq(#[trigger] ps1@[k], ps2@[k]),
                decreases n - i,
            {
                if !prop_eq(&ps1[i], &ps2[i]) {
                    return false;
                }
                i = i + 1;
            }
            true
        },
        (Class::Enumerated(cs1), Class::Enumerated(cs2)) => ids_eq(cs1, cs2),
        (Class::Disjoint(cs1), Class::Disjoint(cs2)) => ids_eq(cs1, cs2),
        _ => false,
    }
}

/// Equality of identifier lists, decided in code.
fn ids_eq(a: &Vec<ClassIdentifier>, b: &Vec<ClassIdentifier>) -> (r: bool)
    ensures
        r == (a@ == b@),
{
    if a.len() != b.len() {
        proof {
            assert(a@.len() != b@.len());
        }
        return false;
    }
    let n = a.len();
    let mut i: usize = 0;
    while i < n
        invariant
            0 <= i <= n,
            n == a@.len() == b@.len(),
            forall|k: int| 0 <= k < i ==> a@[k] == b@[k],
        decreases n - i,
    {
        if !(a[i] == b[i]) {
            proof {
                assert(a@[i as int] != b@[i as int]);
            }
            return false;
        }
        i = i + 1;
    }
    proof {
        assert(a@ =~= b@);
    }
    true
}

/// Structural equality of properties, decided in code.
fn prop_eq(a: &Property, b: &Property) -> (r: bool)
    ensures
        r == spec_prop_eq(*a, *b),
    decreases *a,
{
    if a.index != b.index {
        return false;
    }
    match (&a.description, &b.description) {
        (PropertyDescription::Object(o1), PropertyDescription::Object(o2)) => match (o1, o2) {
            (ObjectDescription::SomeOf(c1), ObjectDescription::SomeOf(c2)) => class_eq(c1, c2),
            (ObjectDescription::OnlyOf(c1), ObjectDescription::OnlyOf(c2)) => class_eq(c1, c2),
            (ObjectDescription::ValueOf(c1), ObjectDescription::ValueOf(c2)) => c1 == c2,
            (ObjectDescription::MinOf(n1, c1), ObjectDescription::MinOf(n2, c2)) => n1 == n2
                && class_eq(c1, c2),
            (ObjectDescription::MaxOf(n1, c1), ObjectDescription::MaxOf(n2, c2)) => n1 == n2
                && class_eq(c1, c2),
            (ObjectDescription::ExactlyOf(n1, c1), ObjectDescription::ExactlyOf(n2, c2)) => n1
                == n2 && class_eq(c1, c2),
            _ => false,
        },
        (PropertyDescription::Data(d1), PropertyDescription::Data(d2)) => match (d1, d2) {
            (DataDescription::SomeOf(x1), DataDescription::SomeOf(x2)) => data_eq(x1, x2),
            (DataDescription::OnlyOf(x1), DataDescription::OnlyOf(x2)) => data_eq(x1, x2),
            (DataDescription::ValueOf(l1), DataDescription::ValueOf(l2)) => l1 == l2,
            (DataDescription::MinOf(n1, x1), DataDescription::MinOf(n2, x2)) => n1 == n2
                && data_eq(x1, x2),
            (DataDescription::MaxOf(n1, x1), DataDescription::MaxOf(n2, x2)) => n1 == n2
                && data_eq(x1, x2),
            (DataDescription::ExactlyOf(n1, x1), DataDescription::ExactlyOf(n2, x2)) => n1 == n2
                && data_eq(x1, x2),
            _ => false,
        },
        _ => false,
    }
}

/// Whether the list already holds a structurally equal property.
fn contains_prop(ps: &Vec<Property>, p: &Property) -> (r: bool)
    ensures
        r == exists|i: int| 0 <= i < ps@.len() && spec_prop_eq(#[trigger] ps@[i], *p),
{
    let n = ps.len();
    let mut i: usize = 0;
    while i < n
        invariant
            0 <= i <= n,
            n == ps@.len(),
            forall|k: int| 0 <= k < i ==> !spec_prop_eq(#[trigger] ps@[k], *p),
        decreases n - i,
    {
        if prop_eq(&ps[i], p) {
            return true;
        }
        i = i + 1;
    }
    false
}

/// Whether the list already holds this class identifier.
fn contains_id(cs: &Vec<ClassIdentifier>, c: &ClassIdentifier) -> (r: bool)
    ensures
        r == exists|i: int| 0 <= i < cs@.len() && (#[trigger] cs@[i]) == *c,
{
    let n = cs.len();
    let mut i: usize = 0;
    while i < n
        invariant
            0 <= i <= n,
            n == cs@.len(),
            forall|k: int| 0 <= k < i ==> (#[trigger] cs@[k]) != *c,
        decreases n - i,
    {
        if cs[i] == *c {
            return true;
        }
        i = i + 1;
    }
    false
}

impl Property {
    /// Which kind of property this description makes it.
    pub open spec fn spec_kind(self) -> PropertyType {
        match self.description {
            PropertyDescription::Object(_) => PropertyType::Object,
            PropertyDescription::Data(_) => PropertyType::Data,
        }
    }

    pub fn type_(&self) -> (r: PropertyType)
        ensures
            r == self.spec_kind(),
    {
        match &self.description {
            PropertyDescription::Object(_) => PropertyType::Object,
            PropertyDescription::Data(_) => PropertyType::Data,
        }
    }
}

/// At `t` stands a lone class-identifier target: one not continued by an
/// `AND` or `OR` chain.
pub open spec fn bare_class_target(tokens: Seq<Located<Token>>, t: int) -> bool {
    &&& 0 <= t < tokens.len()
    &&& (tokens[t].value matches Token::ClassIdentifier { .. })
    &&& (t + 1 >= tokens.len() || (tokens[t + 1].value != Token::Keyword(Keyword::AND)
        && tokens[t + 1].value != Token::Keyword(Keyword::OR)))
}

/// At `t` stands a lone datatype target: one without a restriction bracket.
pub open spec fn bare_data_target(tokens: Seq<Located<Token>>, t: int) -> bool {
    &&& 0 <= t < tokens.len()
    &&& (tokens[t].value matches Token::Datatype(_))
    &&& (t + 1 >= tokens.len() || tokens[t + 1].value != Token::Punctuation(
        Punctuation::OpenBracket,
    ))
}

/// The operators that require a cardinality.
pub open spec fn card_operator(t: Token) -> bool {
    ||| t == Token::Keyword(Keyword::MIN)
    ||| t == Token::Keyword(Keyword::MAX)
    ||| t == Token::Keyword(Keyword::EXACTLY)
}

/// A token that can begin a class production.
pub open spec fn is_class_start(t: Token) -> bool {
    ||| t matches Token::ClassIdentifier { .. }
    ||| t == Token::Punctuation(Punctuation::OpenParen)
    ||| t == Token::Punctuation(Punctuation::OpenBrace)
}

/// The comparator a punctuation token denotes inside a restriction.
pub open spec fn comparator_of(t: Token) -> Option<RestrictionType> {
    match t {
        Token::Punctuation(Punctuation::LessThanEqual) => Some(RestrictionType::LessThanEqual),
        Token::Punctuation(Punctuation::GreaterThanEqual) => Some(
            RestrictionType::GreaterThanEqual,
        ),
        Token::Punctuation(Punctuation::LessThan) => Some(RestrictionType::LessThan),
        Token::Punctuation(Punctuation::GreaterThan) => Some(RestrictionType::GreaterThan),
        _ => None,
    }
}

/// An "unexpected token" error naming the token at `pos`.
fn found_at(tokens: &Vec<Located<Token>>, pos: usize, expected: &'static str) -> (r: ParserErr)
    requires
        pos < tokens@.len(),
    ensures
        r matches ParserErr::UnrecognizedToken { expected: _, found } && found.value
            == tokens@[pos as int].value && found.span == tokens@[pos as int].span,
{
    ParserErr::UnrecognizedToken {
        expected,
        found: Located::new(tokens[pos].value, tokens[pos].span),
    }
}

/// Checks a freshly parsed property against the symbol table: an unknown
/// kind is fixed to this use's kind; a known kind must agree, else the use
/// fails with a type mismatch and the table is unchanged.
pub fn assert_property(property: &Located<Property>, table: &mut SymbolTable) -> (r: Result<
    (),
    ParserErr,
>)
    ensures
        table_refines(old(table)@, final(table)@),
        old(table).wf() ==> final(table).wf(),
        ({
            let idx = property.value.index as int;
            let k = property.value.spec_kind();
            if idx >= old(table)@.len() {
                r is Ok && final(table)@ == old(table)@
            } else {
                match old(table)@[idx].spec_type() {
                    Type::Property(ko) => {
                        if ko is None {
                            &&& r is Ok
                            &&& final(table)@ == old(table)@.update(
                                idx,
                                Symbol {
                                    type_: Type::Property(Some(k)),
                                    id: old(table)@[idx].id,
                                },
                            )
                            &&& final(table)@[idx].spec_type() == Type::Property(Some(k))
                        } else {
                            &&& final(table)@ == old(table)@
                            &&& if ko->0 == k {
                                r is Ok
                            } else {
                                r matches Err(ParserErr::TypeMismatch {
                                    location,
                                    expected,
                                    found,
                                }) && location == property.span && expected == Type::Property(ko)
                                    && found == Type::Property(Some(k))
                            }
                        }
                    },
                    t => {
                        &&& final(table)@ == old(table)@
                        &&& r matches Err(ParserErr::TypeMismatch { location, expected, found })
                            && location == property.span && expected == t && found
                            == Type::Property(Some(k))
                    },
                }
            }
        }),
{
    let idx = property.value.index;
    let symbol_type: Option<Type> = match table.get(idx) {
        Some(symbol) => Some(symbol.type_()),
        None => None,
    };
    match symbol_type {
        Some(Type::Property(opt)) => {
            let k = property.value.type_();
            match opt {
                None => {
                    table.update_property_type(idx, k);
                    Ok(())
                },
                Some(k0) => {
                    if k0 == k {
                        Ok(())
                    } else {
                        Err(ParserErr::TypeMismatch {
                            location: property.span,
                            expected: Type::Property(Some(k0)),
                            found: Type::Property(Some(k)),
                        })
                    }
                },
            }
        },
        Some(t) => Err(ParserErr::TypeMismatch {
            location: property.span,
            expected: t,
            found: Type::Property(Some(property.value.type_())),
        }),
        None => Ok(()),
    }
}

/// Consumes exactly one class identifier token.
pub fn parse_class_identifier(tokens: &Vec<Located<Token>>, pos: usize) -> (r: Result<
    (usize, Located<ClassIdentifier>),
    ParserErr,
>)
    requires
        pos <= tokens@.len(),
    ensures
        match r {
            Ok((np, c)) => {
                &&& pos < tokens@.len()
                &&& np == pos + 1
                &&& tokens@[pos as int].value == (Token::ClassIdentifier {
                    index: c.value.index,
                })
                &&& c.span == tokens@[pos as int].span
            },
            Err(e) => {
                &&& if pos == tokens@.len() {
                    e is UnexpectedEndOfInput
                } else {
                    !(tokens@[pos as int].value matches Token::ClassIdentifier { .. })
                        && e matches ParserErr::UnrecognizedToken { .. }
                }
            },
        },
        match (r, spec_parse_class_identifier(tokens@, pos as int)) {
            (Ok((np, c)), Ok((snp, sc))) => np == snp && c == sc,
            (Err(e), Err(se)) => err_corresponds(e, se),
            _ => false,
        },
{
    if pos >= tokens.len() {
        return Err(ParserErr::UnexpectedEndOfInput);
    }
    match tokens[pos].value {
        Token::ClassIdentifier { index } => Ok(
            (pos + 1, Located::new(ClassIdentifier { index }, tokens[pos].span)),
        ),
        _ => Err(found_at(tokens, pos, "ClassIdentifier")),
    }
}

/// Consumes exactly one literal token.
pub fn parse_literal(tokens: &Vec<Located<Token>>, pos: usize) -> (r: Result<
    (usize, Located<Literal>),
    ParserErr,
>)
    requires
        pos <= tokens@.len(),
    ensures
        match r {
            Ok((np, l)) => {
                &&& pos < tokens@.len()
                &&& np == pos + 1
                &&& tokens@[pos as int].value == (Token::Literal { index: l.value.index })
                &&& l.span == tokens@[pos as int].span
            },
            Err(e) => {
                &&& if pos == tokens@.len() {
                    e is UnexpectedEndOfInput
                } else {
                    !(tokens@[pos as int].value matches Token::Literal { .. })
                        && e matches ParserErr::UnrecognizedToken { .. }
                }
            },
        },
        match (r, spec_parse_literal(tokens@, pos as int)) {
            (Ok((np, l)), Ok((snp, sl))) => np == snp && l == sl,
            (Err(e), Err(se)) => err_corresponds(e, se),
            _ => false,
        },
{
    if pos >= tokens.len() {
        return Err(ParserErr::UnexpectedEndOfInput);
    }
    match tokens[pos].value {
        Token::Literal { index } => Ok(
            (pos + 1, Located::new(Literal { index }, tokens[pos].span)),
        ),
        _ => Err(found_at(tokens, pos, "Literal")),
    }
}

/// Consumes a datatype, optionally followed by `[ comparator literal ]`.
pub fn parse_data(tokens: &Vec<Located<Token>>, pos: usize) -> (r: Result<
    (usize, Located<Data>),
    ParserErr,
>)
    requires
        pos <= tokens@.len(),
    ensures
        match r {
            Ok((np, d)) => {
                &&& pos < tokens@.len()
                &&& tokens@[pos as int].value == Token::Datatype(d.value.datatype)
                &&& d.span.start == tokens@[pos as int].span.start
                &&& if np == pos + 1 {
                    &&& d.value.restriction is None
                    &&& (pos + 1 == tokens@.len() || tokens@[pos + 1].value != Token::Punctuation(
                        Punctuation::OpenBracket,
                    ))
                    &&& d.span == tokens@[pos as int].span
                } else {
                    &&& np == pos + 5 <= tokens@.len()
                    &&& tokens@[pos + 1].value == Token::Punctuation(Punctuation::OpenBracket)
                    &&& comparator_of(tokens@[pos + 2].value) is Some
                    &&& d.value.restriction matches Some(Restriction(rt, lit)) && Some(rt)
                        == comparator_of(tokens@[pos + 2].value) && tokens@[pos + 3].value == (
                    Token::Literal { index: lit.index })
                    &&& tokens@[pos + 4].value == Token::Punctuation(Punctuation::CloseBracket)
                    &&& d.span.end == tokens@[pos + 4].span.end
                }
            },
            Err(e) => {
                if pos >= tokens@.len() {
                    e is UnexpectedEndOfInput
                } else if !(tokens@[pos as int].value matches Token::Datatype(_)) {
                    e matches ParserErr::UnrecognizedToken { .. }
                } else {
                    &&& pos + 1 < tokens@.len()
                    &&& tokens@[pos + 1].value == Token::Punctuation(Punctuation::OpenBracket)
                    &&& if pos + 2 >= tokens@.len() {
                        e is UnexpectedEndOfInput
                    } else if comparator_of(tokens@[pos + 2].value) is None {
                        e matches ParserErr::UnrecognizedToken { .. }
                    } else if pos + 3 >= tokens@.len() {
                        e is UnexpectedEndOfInput
                    } else if !(tokens@[pos + 3].value matches Token::Literal { .. }) {
                        e matches ParserErr::UnrecognizedToken { .. }
                    } else if pos + 4 >= tokens@.len() {
                        e is UnexpectedEndOfInput
                    } else {
                        tokens@[pos + 4].value != Token::Punctuation(Punctuation::CloseBracket)
                            && e matches ParserErr::UnrecognizedToken { .. }
                    }
                }
            },
        },
        match (r, spec_parse_data(tokens@, pos as int)) {
            (Ok((np, d)), Ok((snp, sd))) => np == snp && d == sd,
            (Err(e), Err(se)) => err_corresponds(e, se),
            _ => false,
        },
{
    if pos >= tokens.len() {
        return Err(ParserErr::UnexpectedEndOfInput);
    }
    let datatype = match tokens[pos].value {
        Token::Datatype(datatype) => datatype,
        _ => {
            return Err(found_at(tokens, pos, "Datatype"));
        },
    };
    let start_span = tokens[pos].span;
    if pos + 1 < tokens.len() && matches!(
        tokens[pos + 1].value,
        Token::Punctuation(Punctuation::OpenBracket),
    ) {
        if pos + 2 >= tokens.len() {
            return Err(ParserErr::UnexpectedEndOfInput);
        }
        let restriction = match tokens[pos + 2].value {
            Token::Punctuation(Punctuation::LessThanEqual) => RestrictionType::LessThanEqual,
            Token::Punctuation(Punctuation::LessThan) => RestrictionType::LessThan,
            Token::Punctuation(Punctuation::GreaterThanEqual) => RestrictionType::GreaterThanEqual,
            Token::Punctuation(Punctuation::GreaterThan) => RestrictionType::GreaterThan,
            _ => {
                return Err(found_at(tokens, pos + 2, "'<' or '<=' or '>' or '>='"));
            },
        };
        let (after_lit, literal) = match parse_literal(tokens, pos + 3) {
            Ok(x) => x,
            Err(e) => {
                return Err(e);
            },
        };
        if after_lit >= tokens.len() {
            return Err(ParserErr::UnexpectedEndOfInput);
        }
        match tokens[after_lit].value {
            Token::Punctuation(Punctuation::CloseBracket) => {
                let data = Data {
                    datatype,
                    restriction: Some(Restriction(restriction, literal.value)),
                };
                Ok(
                    (
                        after_lit + 1,
                        Located::new(
                            data,
                            Span { start: start_span.start, end: tokens[after_lit].span.end },
                        ),
                    ),
                )
            },
            _ => Err(found_at(tokens, after_lit, "']'")),
        }
    } else {
        Ok((pos + 1, Located::new(Data { datatype, restriction: None }, start_span)))
    }
}

/// The token at `pos` is this keyword.
fn has_kw_at(tokens: &Vec<Located<Token>>, pos: usize, kw: Keyword) -> (r: bool)
    ensures
        r == (pos < tokens@.len() && tokens@[pos as int].value == Token::Keyword(kw)),
{
    if pos < tokens.len() {
        match tokens[pos].value {
            Token::Keyword(k2) => k2 == kw,
            _ => false,
        }
    } else {
        false
    }
}

/// The token at `pos` is a comma.
fn has_comma_at(tokens: &Vec<Located<Token>>, pos: usize) -> (r: bool)
    ensures
        r == (pos < tokens@.len() && tokens@[pos as int].value == Token::Punctuation(
            Punctuation::Comma,
        )),
{
    if pos < tokens.len() {
        match tokens[pos].value {
            Token::Punctuation(Punctuation::Comma) => true,
            _ => false,
        }
    } else {
        false
    }
}

/// A token that can begin a property production: a property identifier or
/// an opening parenthesis.
pub open spec fn property_start(t: Token) -> bool {
    ||| t matches Token::PropertyIdentifier { .. }
    ||| t == Token::Punctuation(Punctuation::OpenParen)
}

/// The token at `pos` can begin a property production.
fn has_property_start_at(tokens: &Vec<Located<Token>>, pos: usize) -> (r: bool)
    ensures
        r == (pos < tokens@.len() && property_start(tokens@[pos as int].value)),
{
    if pos < tokens.len() {
        match tokens[pos].value {
            Token::PropertyIdentifier { .. } => true,
            Token::Punctuation(Punctuation::OpenParen) => true,
            _ => false,
        }
    } else {
        false
    }
}

/// The enumeration at `pos` holds exactly one member: `{ ClassIdentifier }`.
pub open spec fn lone_enum_member(tokens: Seq<Located<Token>>, pos: int) -> bool {
    &&& 0 <= pos
    &&& pos + 2 < tokens.len()
    &&& tokens[pos].value == Token::Punctuation(Punctuation::OpenBrace)
    &&& (tokens[pos + 1].value matches Token::ClassIdentifier { .. })
    &&& tokens[pos + 2].value == Token::Punctuation(Punctuation::CloseBrace)
}

/// The token shape of the first `m` members of an enumeration at `pos`:
/// an opening brace, then `m` class identifiers separated by commas.
pub open spec fn enum_prefix(tokens: Seq<Located<Token>>, pos: int, m: int) -> bool {
    &&& m >= 1
    &&& 0 <= pos
    &&& pos + 2 * m - 1 < tokens.len()
    &&& tokens[pos].value == Token::Punctuation(Punctuation::OpenBrace)
    &&& forall|k: int|
        0 <= k < m ==> ((#[trigger] tokens[pos + 1 + 2 * k]).value matches Token::ClassIdentifier {
            ..
        })
    &&& forall|k: int|
        0 <= k < m - 1 ==> (#[trigger] tokens[pos + 2 + 2 * k]).value == Token::Punctuation(
            Punctuation::Comma,
        )
}

/// Consumes `{ ClassIdentifier (, ClassIdentifier)* }`; naming the same
/// class twice is a repeated-class error.
#[verifier::loop_isolation(false)]
pub fn parse_enumerated_class(tokens: &Vec<Located<Token>>, pos: usize) -> (r: Result<
    (usize, Located<Vec<ClassIdentifier>>),
    ParserErr,
>)
    requires
        pos <= tokens@.len(),
    ensures
        match r {
            Ok((np, cs)) => {
                let m = cs.value@.len() as int;
                &&& m >= 1
                &&& enum_prefix(tokens@, pos as int, m)
                &&& np == pos + 2 * m + 1
                &&& np <= tokens@.len()
                &&& tokens@[np - 1].value == Token::Punctuation(Punctuation::CloseBrace)
                &&& forall|k: int|
                    0 <= k < m ==> (#[trigger] tokens@[pos + 1 + 2 * k]).value == (
                    Token::ClassIdentifier { index: cs.value@[k].index })
                &&& ids_distinct(cs.value@)
                &&& cs.span.start == tokens@[pos as int].span.start
                &&& cs.span.end == tokens@[np - 1].span.end
            },
            Err(e) => {
                e matches ParserErr::RepeatedClass(lc) ==> exists|j: int, k: int|
                    0 <= k < j && pos + 1 + 2 * j < tokens@.len() && (#[trigger] tokens@[pos + 1 + 2
                        * j]).value == (Token::ClassIdentifier { index: lc.value.index }) && (
                    #[trigger] tokens@[pos + 1 + 2 * k]).value == (Token::ClassIdentifier {
                        index: lc.value.index,
                    })
            },
        },
        lone_enum_member(tokens@, pos as int) ==> (r matches Ok((np, cs)) && np == pos + 3
            && cs.value@.len() == 1),
        match (r, spec_parse_enumerated(tokens@, pos as int)) {
            (Ok((np, cs)), Ok((snp, sspan, sms))) => np == snp && cs.span == sspan && cs.value@
                == sms,
            (Err(e), Err(se)) => err_corresponds(e, se),
            _ => false,
        },
{
    if pos >= tokens.len() {
        return Err(ParserErr::UnexpectedEndOfInput);
    }
    match tokens[pos].value {
        Token::Punctuation(Punctuation::OpenBrace) => {},
        _ => {
            return Err(found_at(tokens, pos, "'{'"));
        },
    }
    let (mut cur, first) = match parse_class_identifier(tokens, pos + 1) {
        Ok(x) => x,
        Err(e) => {
            return Err(e);
        },
    };
    let mut classes: Vec<ClassIdentifier> = Vec::new();
    classes.push(first.value);
    proof {
        assert(seq![first.value] =~= classes@);
    }
    while has_comma_at(tokens, cur)
        invariant
            spec_enum_tail(tokens@, (pos + 2) as int, seq![first.value]) == spec_enum_tail(
                tokens@,
                cur as int,
                classes@,
            ),
            lone_enum_member(tokens@, pos as int) ==> (classes@.len() == 1 && cur == pos + 2),
            pos + 2 <= cur <= tokens@.len(),
            pos + 2 <= tokens@.len(),
            classes@.len() >= 1,
            cur == pos + 2 * classes@.len(),
            enum_prefix(tokens@, pos as int, classes@.len() as int),
            forall|k: int|
                0 <= k < classes@.len() ==> (#[trigger] tokens@[pos + 1 + 2 * k]).value == (
                Token::ClassIdentifier { index: classes@[k].index }),
            ids_distinct(classes@),
        decreases tokens@.len() - cur,
    {
        let _n = tokens.len();
        let (nc, class) = match parse_class_identifier(tokens, cur + 1) {
            Ok(x) => x,
            Err(e) => {
                return Err(e);
            },
        };
        if contains_id(&classes, &class.value) {
            proof {
                let ghost m = classes@.len() as int;
                let ghost kk = choose|k: int|
                    0 <= k < classes@.len() && (#[trigger] classes@[k]) == class.value;
                assert(tokens@[pos + 1 + 2 * m].value == (Token::ClassIdentifier {
                    index: class.value.index,
                }));
                assert(tokens@[pos + 1 + 2 * kk].value == (Token::ClassIdentifier {
                    index: class.value.index,
                }));
            }
            return Err(ParserErr::RepeatedClass(class));
        }
        let ghost old_classes = classes@;
        classes.push(class.value);
        cur = nc;
        proof {
            let m = classes@.len() as int;
            assert(classes@[m - 1] == class.value);
            assert(forall|k: int|
                0 <= k < m - 1 ==> (#[trigger] classes@[k]) == old_classes[k]);
            assert(forall|i: int, j: int|
                0 <= i < j < m ==> classes@[i] != classes@[j]) by {
                assert(forall|i: int|
                    0 <= i < m - 1 ==> (#[trigger] classes@[i]) != classes@[m - 1]);
            }
        }
    }
    if cur >= tokens.len() {
        return Err(ParserErr::UnexpectedEndOfInput);
    }
    match tokens[cur].value {
        Token::Punctuation(Punctuation::CloseBrace) => {
            let close_span = tokens[cur].span;
            let open_span = tokens[pos].span;
            Ok(
                (
                    cur + 1,
                    Located::new(
                        classes,
                        Span { start: open_span.start, end: close_span.end },
                    ),
                ),
            )
        },
        _ => Err(found_at(tokens, cur, "'}'")),
    }
}

/// The chain starting at `pos` holds exactly one more identifier, different
/// from the head of the chain.
pub open spec fn lone_second_id(
    tokens: Seq<Located<Token>>,
    pos: int,
    first: ClassIdentifier,
) -> bool {
    &&& 0 <= pos < tokens.len()
    &&& (pos + 1 >= tokens.len() || tokens[pos + 1].value != Token::Keyword(Keyword::OR))
    &&& (tokens[pos].value matches Token::ClassIdentifier { index } && (ClassIdentifier { index })
        != first)
}

/// Consumes `ClassIdentifier (OR ClassIdentifier)+` after the first
/// identifier and its `OR`: `pos` points at the second identifier.
/// Naming the same class twice is a repeated-class error.
#[verifier::loop_isolation(false)]
fn parse_or_chain(tokens: &Vec<Located<Token>>, pos: usize, first: ClassIdentifier) -> (r: Result<
    (usize, Vec<ClassIdentifier>),
    ParserErr,
>)
    requires
        pos <= tokens@.len(),
    ensures
        match r {
            Ok((np, cs)) => {
                &&& pos < np <= tokens@.len()
                &&& cs@.len() >= 2
                &&& np == pos + 2 * (cs@.len() - 1) - 1
                &&& ids_distinct(cs@)
                &&& cs@[0] == first
                &&& forall|k: int|
                    1 <= k < cs@.len() ==> (#[trigger] tokens@[pos + 2 * (k - 1)]).value == (
                    Token::ClassIdentifier { index: cs@[k].index })
                &&& tokens@[np - 1].value == (Token::ClassIdentifier {
                    index: cs@[cs@.len() - 1].index,
                })
            },
            Err(e) => {
                e matches ParserErr::RepeatedClass(lc) ==> exists|j: int|
                    1 <= j && pos + 2 * (j - 1) < tokens@.len() && (#[trigger] tokens@[pos + 2 * (j
                        - 1)]).value == (Token::ClassIdentifier { index: lc.value.index }) && (
                    lc.value == first || exists|k: int|
                        1 <= k < j && (#[trigger] tokens@[pos + 2 * (k - 1)]).value == (
                        Token::ClassIdentifier { index: lc.value.index }))
            },
        },
        (pos < tokens@.len() && (pos + 1 >= tokens@.len() || tokens@[pos + 1].value
            != Token::Keyword(Keyword::OR))) ==> (tokens@[pos as int].value
            matches Token::ClassIdentifier { index } ==> ((ClassIdentifier { index }) != first
            ==> (r matches Ok((np, cs)) && np == pos + 1 && cs@.len() == 2 && cs@[1] == (
        ClassIdentifier { index })))),
        match (r, spec_or_chain(tokens@, pos as int, first)) {
            (Ok((np, cs)), Ok((snp, sms))) => np == snp && cs@ == sms,
            (Err(e), Err(se)) => err_corresponds(e, se),
            _ => false,
        },
{
    let (mut cur, class) = match parse_class_identifier(tokens, pos) {
        Ok(x) => x,
        Err(e) => {
            return Err(e);
        },
    };
    if first == class.value {
        proof {
            assert(tokens@[pos + 2 * (1 - 1)].value == (Token::ClassIdentifier {
                index: class.value.index,
            }));
        }
        return Err(ParserErr::RepeatedClass(class));
    }
    let mut classes: Vec<ClassIdentifier> = Vec::new();
    classes.push(first);
    classes.push(class.value);
    proof {
        assert(seq![first, class.value] =~= classes@);
    }
    while has_kw_at(tokens, cur, Keyword::OR)
        invariant
            spec_or_tail(tokens@, (pos + 1) as int, seq![first, class.value]) == spec_or_tail(
                tokens@,
                cur as int,
                classes@,
            ),
            pos < cur <= tokens@.len(),
            classes@.len() >= 2,
            cur == pos + 2 * (classes@.len() - 1) - 1,
            lone_second_id(tokens@, pos as int, first) ==> (classes@.len() == 2 && cur == pos
                + 1),
            ids_distinct(classes@),
            classes@[0] == first,
            forall|k: int|
                1 <= k < classes@.len() ==> (#[trigger] tokens@[pos + 2 * (k - 1)]).value == (
                Token::ClassIdentifier { index: classes@[k].index }),
            tokens@[cur - 1].value == (Token::ClassIdentifier {
                index: classes@[classes@.len() - 1].index,
            }),
        decreases tokens@.len() - cur,
    {
        let _n = tokens.len();
        let (nc, class) = match parse_class_identifier(tokens, cur + 1) {
            Ok(x) => x,
            Err(e) => {
                return Err(e);
            },
        };
        if contains_id(&classes, &class.value) {
            proof {
                let m = classes@.len() as int;
                assert(cur + 1 == pos + 2 * (m - 1));
                assert(tokens@[pos + 2 * (m - 1)].value == (Token::ClassIdentifier {
                    index: class.value.index,
                }));
                assert(pos + 2 * (m - 1) < tokens@.len());
                let kk = choose|k: int|
                    0 <= k < classes@.len() && (#[trigger] classes@[k]) == class.value;
                if kk == 0 {
                    assert(class.value == first);
                } else {
                    assert(tokens@[pos + 2 * (kk - 1)].value == (Token::ClassIdentifier {
                        index: class.value.index,
                    }));
                }
            }
            return Err(ParserErr::RepeatedClass(class));
        }
        let ghost old_classes = classes@;
        classes.push(class.value);
        cur = nc;
        proof {
            let m = classes@.len() as int;
            assert(forall|i: int, j: int|
                0 <= i < j < m ==> classes@[i] != classes@[j]) by {
                assert(forall|i: int|
                    0 <= i < m - 1 ==> (#[trigger] classes@[i]) == old_classes[i]);
                assert(forall|i: int|
                    0 <= i < m - 1 ==> (#[trigger] classes@[i]) != classes@[m - 1]);
            }
        }
    }
    Ok((cur, classes))
}

/// Consumes a chain `Property (AND Property)*` whose first property starts
/// at `pos`; each property is checked against the table, and a structurally
/// repeated property is an error.
#[verifier::loop_isolation(false)]
fn parse_and_chain(tokens: &Vec<Located<Token>>, pos: usize, table: &mut SymbolTable) -> (r:
    Result<(usize, Vec<Property>), ParserErr>)
    requires
        pos <= tokens@.len(),
        old(table).wf(),
    ensures
        final(table).wf(),
        table_refines(old(table)@, final(table)@),
        match r {
            Ok((np, ps)) => {
                &&& pos < np <= tokens@.len()
                &&& ps@.len() >= 1
                &&& props_distinct(ps@)
                &&& forall|i: int| 0 <= i < ps@.len() ==> prop_wf(#[trigger] ps@[i])
                &&& forall|i: int|
                    0 <= i < ps@.len() ==> prop_kind_recorded(final(table)@, #[trigger] ps@[i])
            },
            Err(_) => true,
        },
        ({
            let (ssyms, sres) = spec_and_chain(tokens@, pos as int, old(table)@);
            &&& final(table)@ == ssyms
            &&& match (r, sres) {
                (Ok((np, ps)), Ok((snp, sps))) => np == snp && ps@.len() == sps.len() && (
                forall|i: int|
                    0 <= i < ps@.len() ==> prop_corresponds(#[trigger] ps@[i], sps[i])),
                (Err(e), Err(se)) => err_corresponds(e, se),
                _ => false,
            }
        }),
    decreases tokens@.len() - pos, 1int,
{
    let ghost t0 = table@;
    let (first_np, property) = match parse_property(tokens, pos, table) {
        Ok(x) => x,
        Err(e) => {
            return Err(e);
        },
    };
    let ghost t1 = table@;
    let ghost sp0 = (spec_parse_property(tokens@, pos as int, t0).1)->Ok_0.2;
    proof {
        lemma_kind_corresponds(property.value, sp0);
    }
    match assert_property(&property, table) {
        Ok(()) => {},
        Err(e) => {
            proof {
                lemma_table_refines_trans(t0, t1, table@);
            }
            return Err(e);
        },
    }
    proof {
        lemma_table_refines_trans(t0, t1, table@);
    }
    let mut properties: Vec<Property> = Vec::new();
    properties.push(property.value);
    let ghost mut sprops: Seq<SpecProperty> = seq![sp0];
    let mut cur = first_np;
    while has_kw_at(tokens, cur, Keyword::AND)
        invariant
            spec_and_chain(tokens@, pos as int, t0) == spec_and_tail(
                tokens@,
                cur as int,
                sprops,
                table@,
            ),
            pos < cur <= tokens@.len(),
            table.wf(),
            table_refines(t0, table@),
            properties@.len() >= 1,
            properties@.len() == sprops.len(),
            forall|i: int|
                0 <= i < properties@.len() ==> prop_corresponds(
                    #[trigger] properties@[i],
                    sprops[i],
                ),
            props_distinct(properties@),
            forall|i: int| 0 <= i < properties@.len() ==> prop_wf(#[trigger] properties@[i]),
            forall|i: int|
                0 <= i < properties@.len() ==> prop_kind_recorded(
                    table@,
                    #[trigger] properties@[i],
                ),
        decreases tokens@.len() - cur,
    {
        let _n = tokens.len();
        let ghost ta = table@;
        let (np, property) = match parse_property(tokens, cur + 1, table) {
            Ok(x) => x,
            Err(e) => {
                proof {
                    lemma_table_refines_trans(t0, ta, table@);
                }
                return Err(e);
            },
        };
        let ghost tb = table@;
        let ghost sp = (spec_parse_property(tokens@, (cur + 1) as int, ta).1)->Ok_0.2;
        proof {
            lemma_table_refines_trans(t0, ta, tb);
            lemma_kind_corresponds(property.value, sp);
        }
        match assert_property(&property, table) {
            Ok(()) => {},
            Err(e) => {
                proof {
                    lemma_table_refines_trans(t0, tb, table@);
                }
                return Err(e);
            },
        }
        proof {
            lemma_table_refines_trans(t0, tb, table@);
            lemma_contains_corresponds(properties@, sprops, property.value, sp);
        }
        if contains_prop(&properties, &property.value) {
            return Err(ParserErr::RepeatedProperty(property));
        }
        let ghost old_props = properties@;
        properties.push(property.value);
        proof {
            sprops = sprops.push(sp);
        }
        cur = np;
        proof {
            let m = properties@.len() as int;
            assert(forall|i: int, j: int|
                0 <= i < j < m ==> !spec_prop_eq(properties@[i], properties@[j])) by {
                assert(forall|i: int|
                    0 <= i < m - 1 ==> (#[trigger] properties@[i]) == old_props[i]);
                assert(forall|i: int|
                    0 <= i < m - 1 ==> !spec_prop_eq(#[trigger] properties@[i], properties@[m
                        - 1]));
            }
        }
    }
    Ok((cur, properties))
}

/// Consumes a chain of properties written one after the other, the first
/// starting at `pos`; checks and duplicate rules as for an `AND` chain.
#[verifier::loop_isolation(false)]
fn parse_prop_chain(tokens: &Vec<Located<Token>>, pos: usize, table: &mut SymbolTable) -> (r:
    Result<(usize, Vec<Property>), ParserErr>)
    requires
        pos <= tokens@.len(),
        old(table).wf(),
    ensures
        final(table).wf(),
        table_refines(old(table)@, final(table)@),
        match r {
            Ok((np, ps)) => {
                &&& pos < np <= tokens@.len()
                &&& ps@.len() >= 1
                &&& props_distinct(ps@)
                &&& forall|i: int| 0 <= i < ps@.len() ==> prop_wf(#[trigger] ps@[i])
                &&& forall|i: int|
                    0 <= i < ps@.len() ==> prop_kind_recorded(final(table)@, #[trigger] ps@[i])
            },
            Err(_) => true,
        },
        ({
            let (ssyms, sres) = spec_prop_chain(tokens@, pos as int, old(table)@);
            &&& final(table)@ == ssyms
            &&& match (r, sres) {
                (Ok((np, ps)), Ok((snp, sps))) => np == snp && ps@.len() == sps.len() && (
                forall|i: int|
                    0 <= i < ps@.len() ==> prop_corresponds(#[trigger] ps@[i], sps[i])),
                (Err(e), Err(se)) => err_corresponds(e, se),
                _ => false,
            }
        }),
    decreases tokens@.len() - pos, 1int,
{
    let ghost t0 = table@;
    let (first_np, property) = match parse_property(tokens, pos, table) {
        Ok(x) => x,
        Err(e) => {
            return Err(e);
        },
    };
    let ghost t1 = table@;
    let ghost sp0 = (spec_parse_property(tokens@, pos as int, t0).1)->Ok_0.2;
    proof {
        lemma_kind_corresponds(property.value, sp0);
    }
    match assert_property(&property, table) {
        Ok(()) => {},
        Err(e) => {
            proof {
                lemma_table_refines_trans(t0, t1, table@);
            }
            return Err(e);
        },
    }
    proof {
        lemma_table_refines_trans(t0, t1, table@);
    }
    let mut properties: Vec<Property> = Vec::new();
    properties.push(property.value);
    let ghost mut sprops: Seq<SpecProperty> = seq![sp0];
    let mut cur = first_np;
    while has_property_start_at(tokens, cur)
        invariant
            spec_prop_chain(tokens@, pos as int, t0) == spec_prop_tail(
                tokens@,
                cur as int,
                sprops,
                table@,
            ),
            pos < cur <= tokens@.len(),
            table.wf(),
            table_refines(t0, table@),
            properties@.len() >= 1,
            properties@.len() == sprops.len(),
            forall|i: int|
                0 <= i < properties@.len() ==> prop_corresponds(
                    #[trigger] properties@[i],
                    sprops[i],
                ),
            props_distinct(properties@),
            forall|i: int| 0 <= i < properties@.len() ==> prop_wf(#[trigger] properties@[i]),
            forall|i: int|
                0 <= i < properties@.len() ==> prop_kind_recorded(
                    table@,
                    #[trigger] properties@[i],
                ),
        decreases tokens@.len() - cur,
    {
        let ghost ta = table@;
        let (np, property) = match parse_property(tokens, cur, table) {
            Ok(x) => x,
            Err(e) => {
                proof {
                    lemma_table_refines_trans(t0, ta, table@);
                }
                return Err(e);
            },
        };
        let ghost tb = table@;
        let ghost sp = (spec_parse_property(tokens@, cur as int, ta).1)->Ok_0.2;
        proof {
            lemma_table_refines_trans(t0, ta, tb);
            lemma_kind_corresponds(property.value, sp);
        }
        match assert_property(&property, table) {
            Ok(()) => {},
            Err(e) => {
                proof {
                    lemma_table_refines_trans(t0, tb, table@);
                }
                return Err(e);
            },
        }
        proof {
            lemma_table_refines_trans(t0, tb, table@);
            lemma_contains_corresponds(properties@, sprops, property.value, sp);
        }
        if contains_prop(&properties, &property.value) {
            return Err(ParserErr::RepeatedProperty(property));
        }
        let ghost old_props = properties@;
        properties.push(property.value);
        proof {
            sprops = sprops.push(sp);
        }
        cur = np;
        proof {
            let m = properties@.len() as int;
            assert(forall|i: int, j: int|
                0 <= i < j < m ==> !spec_prop_eq(properties@[i], properties@[j])) by {
                assert(forall|i: int|
                    0 <= i < m - 1 ==> (#[trigger] properties@[i]) == old_props[i]);
                assert(forall|i: int|
                    0 <= i < m - 1 ==> !spec_prop_eq(#[trigger] properties@[i], properties@[m
                        - 1]));
            }
        }
    }
    Ok((cur, properties))
}

/// The description an operator builds around an executable class target.
pub open spec fn op_object_description(op: Keyword, n: usize, c: Class) -> ObjectDescription {
    match op {
        Keyword::SOME => ObjectDescription::SomeOf(c),
        Keyword::ONLY => ObjectDescription::OnlyOf(c),
        Keyword::MIN => ObjectDescription::MinOf(n, c),
        Keyword::MAX => ObjectDescription::MaxOf(n, c),
        _ => ObjectDescription::ExactlyOf(n, c),
    }
}

/// The description an operator builds around an executable datatype target.
pub open spec fn op_data_description(op: Keyword, n: usize, d: Data) -> DataDescription {
    match op {
        Keyword::SOME => DataDescription::SomeOf(d),
        Keyword::ONLY => DataDescription::OnlyOf(d),
        Keyword::MIN => DataDescription::MinOf(n, d),
        Keyword::MAX => DataDescription::MaxOf(n, d),
        _ => DataDescription::ExactlyOf(n, d),
    }
}

/// Parses an operator's target: first attempted as a class; only an
/// "unexpected token" failure there makes the parser retry the same
/// position as a datatype, on the symbol state the attempt left behind.
/// Any other failure propagates unchanged, so a real grammar violation
/// inside the class attempt is never swallowed.
fn parse_target(
    tokens: &Vec<Located<Token>>,
    start_pos: usize,
    tpos: usize,
    index: usize,
    op: Keyword,
    n: usize,
    table: &mut SymbolTable,
) -> (r: Result<(usize, Located<Property>), ParserErr>)
    requires
        start_pos < tokens@.len(),
        tpos <= tokens@.len(),
        old(table).wf(),
    ensures
        final(table).wf(),
        table_refines(old(table)@, final(table)@),
        match r {
            Ok((np, p)) => {
                &&& tpos < np <= tokens@.len()
                &&& p.span.start == tokens@[start_pos as int].span.start
                &&& p.span.end == tokens@[np - 1].span.end
                &&& prop_wf(p.value)
                &&& p.value.index == index
                &&& tpos < tokens@.len()
                &&& ((p.value.description matches PropertyDescription::Object(_))
                    <==> is_class_start(tokens@[tpos as int].value))
                &&& ((p.value.description matches PropertyDescription::Data(_)) ==> (
                tokens@[tpos as int].value matches Token::Datatype(_)))
            },
            Err(_) => true,
        },
        bare_class_target(tokens@, tpos as int) ==> (r matches Ok((np, p)) && np == tpos + 1 && (
        tokens@[tpos as int].value matches Token::ClassIdentifier { index: ti }
            ==> p.value.description == PropertyDescription::Object(
            op_object_description(op, n, Class::Identifier(ClassIdentifier { index: ti })),
        ))),
        bare_data_target(tokens@, tpos as int) ==> (r matches Ok((np, p)) && np == tpos + 1 && (
        tokens@[tpos as int].value matches Token::Datatype(dt) ==> p.value.description
            == PropertyDescription::Data(
            op_data_description(op, n, Data { datatype: dt, restriction: None }),
        ))),
        ({
            let (ssyms, sres) = spec_target(
                tokens@,
                start_pos as int,
                tpos as int,
                index,
                op,
                n,
                old(table)@,
            );
            &&& final(table)@ == ssyms
            &&& match (r, sres) {
                (Ok((np, p)), Ok((snp, sspan, sp))) => np == snp && p.span == sspan
                    && prop_corresponds(p.value, sp),
                (Err(e), Err(se)) => err_corresponds(e, se),
                _ => false,
            }
        }),
    decreases tokens@.len() - tpos, 3int,
{
    let start_span = tokens[start_pos].span;
    match parse_class(tokens, tpos, table) {
        Ok((np, class)) => {
            let description = PropertyDescription::Object(
                match op {
                    Keyword::SOME => ObjectDescription::SomeOf(class.value),
                    Keyword::ONLY => ObjectDescription::OnlyOf(class.value),
                    Keyword::MIN => ObjectDescription::MinOf(n, class.value),
                    Keyword::MAX => ObjectDescription::MaxOf(n, class.value),
                    _ => ObjectDescription::ExactlyOf(n, class.value),
                },
            );
            let property = Property { index, description };
            Ok(
                (
                    np,
                    Located::new(
                        property,
                        Span { start: start_span.start, end: class.span.end },
                    ),
                ),
            )
        },
        Err(e) => {
            if matches!(e, ParserErr::UnrecognizedToken { .. }) {
                match parse_data(tokens, tpos) {
                    Ok((np, data)) => {
                        let description = PropertyDescription::Data(
                            match op {
                                Keyword::SOME => DataDescription::SomeOf(data.value),
                                Keyword::ONLY => DataDescription::OnlyOf(data.value),
                                Keyword::MIN => DataDescription::MinOf(n, data.value),
                                Keyword::MAX => DataDescription::MaxOf(n, data.value),
                                _ => DataDescription::ExactlyOf(n, data.value),
                            },
                        );
                        let property = Property { index, description };
                        Ok(
                            (
                                np,
                                Located::new(
                                    property,
                                    Span { start: start_span.start, end: data.span.end },
                                ),
                            ),
                        )
                    },
                    Err(e2) => Err(e2),
                }
            } else {
                Err(e)
            }
        },
    }
}

/// Parses one property: a parenthesized property, or a property identifier
/// followed by an operator and its target. The target is first attempted as
/// a class; only an "unexpected token" failure there makes the parser retry
/// it as a datatype (or, after `VALUE`, as a literal) from the same
/// position, so the target's leading token decides the branch.
#[verifier::rlimit(100)]
pub fn parse_property(tokens: &Vec<Located<Token>>, pos: usize, table: &mut SymbolTable) -> (r:
    Result<(usize, Located<Property>), ParserErr>)
    requires
        pos <= tokens@.len(),
        old(table).wf(),
    ensures
        final(table).wf(),
        table_refines(old(table)@, final(table)@),
        match r {
            Ok((np, p)) => {
                &&& pos < np <= tokens@.len()
                &&& p.span.start == tokens@[pos as int].span.start
                &&& p.span.end == tokens@[np - 1].span.end
                &&& prop_wf(p.value)
                &&& (tokens@[pos as int].value matches Token::PropertyIdentifier { index } ==> {
                    &&& p.value.index == index
                    &&& pos + 1 < tokens@.len()
                    &&& ((tokens@[pos + 1].value == Token::Keyword(Keyword::SOME) || tokens@[pos
                        + 1].value == Token::Keyword(Keyword::ONLY)) ==> {
                        &&& pos + 2 < tokens@.len()
                        &&& ((p.value.description matches PropertyDescription::Object(_))
                            <==> is_class_start(tokens@[pos + 2].value))
                        &&& ((p.value.description matches PropertyDescription::Data(_))
                            ==> (tokens@[pos + 2].value matches Token::Datatype(_)))
                    })
                    &&& (tokens@[pos + 1].value == Token::Keyword(Keyword::VALUE) ==> {
                        &&& pos + 2 < tokens@.len()
                        &&& ((p.value.description matches PropertyDescription::Object(_))
                            <==> (tokens@[pos + 2].value matches Token::ClassIdentifier { .. }))
                        &&& ((p.value.description matches PropertyDescription::Data(_))
                            ==> (tokens@[pos + 2].value matches Token::Literal { .. }))
                    })
                    &&& ((tokens@[pos + 1].value == Token::Keyword(Keyword::MIN) || tokens@[pos
                        + 1].value == Token::Keyword(Keyword::MAX) || tokens@[pos + 1].value
                        == Token::Keyword(Keyword::EXACTLY)) ==> {
                        &&& pos + 3 < tokens@.len()
                        &&& (tokens@[pos + 2].value matches Token::Cardinality(_))
                        &&& ((p.value.description matches PropertyDescription::Object(_))
                            <==> is_class_start(tokens@[pos + 3].value))
                        &&& ((p.value.description matches PropertyDescription::Data(_))
                            ==> (tokens@[pos + 3].value matches Token::Datatype(_)))
                    })
                })
            },
            Err(e) => {
                pos >= tokens@.len() ==> e is UnexpectedEndOfInput
            },
        },
        (pos + 2 < tokens@.len() && (tokens@[pos as int].value matches Token::PropertyIdentifier {
            ..
        }) && tokens@[pos + 1].value == Token::Keyword(Keyword::SOME) && (tokens@[pos
            + 2].value matches Token::ClassIdentifier { .. }) && (pos + 3 == tokens@.len() || (
        tokens@[pos + 3].value != Token::Keyword(Keyword::AND) && tokens@[pos + 3].value
            != Token::Keyword(Keyword::OR)))) ==> (r matches Ok((np, p)) && np == pos + 3 && (
        tokens@[pos + 2].value matches Token::ClassIdentifier { index } ==> p.value.description
            == PropertyDescription::Object(
            ObjectDescription::SomeOf(Class::Identifier(ClassIdentifier { index })),
        ))),
        (pos + 2 < tokens@.len() && (tokens@[pos as int].value matches Token::PropertyIdentifier {
            ..
        }) && tokens@[pos + 1].value == Token::Keyword(Keyword::SOME) && (tokens@[pos
            + 2].value matches Token::Datatype(_)) && (pos + 3 == tokens@.len() || tokens@[pos
            + 3].value != Token::Punctuation(Punctuation::OpenBracket))) ==> (r matches Ok(
            (np, p),
        ) && np == pos + 3 && (tokens@[pos + 2].value matches Token::Datatype(dt)
            ==> p.value.description == PropertyDescription::Data(
            DataDescription::SomeOf(Data { datatype: dt, restriction: None }),
        ))),
        (pos + 2 < tokens@.len() && (tokens@[pos as int].value matches Token::PropertyIdentifier {
            ..
        }) && (tokens@[pos + 1].value == Token::Keyword(Keyword::SOME) || tokens@[pos + 1].value
            == Token::Keyword(Keyword::ONLY)) && (bare_class_target(tokens@, pos + 2)
            || bare_data_target(tokens@, pos + 2))) ==> (r matches Ok((np, p)) && np == pos + 3),
        (pos + 2 < tokens@.len() && (tokens@[pos as int].value matches Token::PropertyIdentifier {
            ..
        }) && tokens@[pos + 1].value == Token::Keyword(Keyword::VALUE) && ((tokens@[pos
            + 2].value matches Token::ClassIdentifier { .. }) || (tokens@[pos
            + 2].value matches Token::Literal { .. }))) ==> (r matches Ok((np, p)) && np == pos
            + 3),
        (pos + 3 < tokens@.len() && (tokens@[pos as int].value matches Token::PropertyIdentifier {
            ..
        }) && card_operator(tokens@[pos + 1].value) && (tokens@[pos
            + 2].value matches Token::Cardinality(_)) && (bare_class_target(tokens@, pos + 3)
            || bare_data_target(tokens@, pos + 3))) ==> (r matches Ok((np, p)) && np == pos + 4),
        ({
            let (ssyms, sres) = spec_parse_property(tokens@, pos as int, old(table)@);
            &&& final(table)@ == ssyms
            &&& match (r, sres) {
                (Ok((np, p)), Ok((snp, sspan, sp))) => np == snp && p.span == sspan
                    && prop_corresponds(p.value, sp),
                (Err(e), Err(se)) => err_corresponds(e, se),
                _ => false,
            }
        }),
    decreases tokens@.len() - pos, 0int,
{
    proof {
        reveal_with_fuel(spec_card_target, 2);
    }
    if pos >= tokens.len() {
        return Err(ParserErr::UnexpectedEndOfInput);
    }
    let start_span = tokens[pos].span;
    match tokens[pos].value {
        Token::Punctuation(Punctuation::OpenParen) => {
            let (cur, property) = match parse_property(tokens, pos + 1, table) {
                Ok(x) => x,
                Err(e) => {
                    return Err(e);
                },
            };
            if cur >= tokens.len() {
                return Err(ParserErr::UnexpectedEndOfInput);
            }
            match tokens[cur].value {
                Token::Punctuation(Punctuation::CloseParen) => Ok(
                    (
                        cur + 1,
                        Located::new(
                            property.value,
                            Span { start: start_span.start, end: tokens[cur].span.end },
                        ),
                    ),
                ),
                _ => Err(found_at(tokens, cur, "')'")),
            }
        },
        Token::PropertyIdentifier { index } => {
            if pos + 1 >= tokens.len() {
                return Err(ParserErr::UnexpectedEndOfInput);
            }
            match tokens[pos + 1].value {
                Token::Keyword(Keyword::SOME) => parse_target(
                    tokens,
                    pos,
                    pos + 2,
                    index,
                    Keyword::SOME,
                    0,
                    table,
                ),
                Token::Keyword(Keyword::ONLY) => parse_target(
                    tokens,
                    pos,
                    pos + 2,
                    index,
                    Keyword::ONLY,
                    0,
                    table,
                ),
                Token::Keyword(Keyword::VALUE) => match parse_class_identifier(tokens, pos + 2) {
                    Ok((np, class)) => {
                        let description = PropertyDescription::Object(
                            ObjectDescription::ValueOf(class.value),
                        );
                        let property = Property { index, description };
                        Ok(
                            (
                                np,
                                Located::new(
                                    property,
                                    Span { start: start_span.start, end: class.span.end },
                                ),
                            ),
                        )
                    },
                    Err(e) => {
                        if matches!(e, ParserErr::UnrecognizedToken { .. }) {
                            match parse_literal(tokens, pos + 2) {
                                Ok((np, lit)) => {
                                    let description = PropertyDescription::Data(
                                        DataDescription::ValueOf(lit.value),
                                    );
                                    let property = Property { index, description };
                                    Ok(
                                        (
                                            np,
                                            Located::new(
                                                property,
                                                Span {
                                                    start: start_span.start,
                                                    end: lit.span.end,
                                                },
                                            ),
                                        ),
                                    )
                                },
                                Err(e2) => Err(e2),
                            }
                        } else {
                            Err(e)
                        }
                    },
                },
                Token::Keyword(Keyword::MIN) => {
                    if pos + 2 >= tokens.len() {
                        proof {
                            assert(spec_card_target(
                                tokens@,
                                pos as int,
                                index,
                                Keyword::MIN,
                                old(table)@,
                            ) == (
                                old(table)@,
                                Result::<(int, Span, SpecProperty), SpecParseErr>::Err(
                                    SpecParseErr::UnexpectedEndOfInput,
                                ),
                            ));
                        }
                        return Err(ParserErr::UnexpectedEndOfInput);
                    }
                    let n = match tokens[pos + 2].value {
                        Token::Cardinality(n) => n,
                        _ => {
                            proof {
                                assert(spec_card_target(
                                    tokens@,
                                    pos as int,
                                    index,
                                    Keyword::MIN,
                                    old(table)@,
                                ) == (
                                    old(table)@,
                                    Result::<(int, Span, SpecProperty), SpecParseErr>::Err(
                                        SpecParseErr::UnexpectedEndOfInput,
                                    ),
                                ));
                            }
                            return Err(ParserErr::UnexpectedEndOfInput);
                        },
                    };
                    proof {
                        assert(spec_card_target(tokens@, pos as int, index, Keyword::MIN, old(table)@)
                            == spec_target(
                            tokens@,
                            pos as int,
                            (pos + 3) as int,
                            index,
                            Keyword::MIN,
                            n,
                            old(table)@,
                        ));
                    }
                    parse_target(tokens, pos, pos + 3, index, Keyword::MIN, n, table)
                },
                Token::Keyword(Keyword::MAX) => {
                    if pos + 2 >= tokens.len() {
                        proof {
                            assert(spec_card_target(
                                tokens@,
                                pos as int,
                                index,
                                Keyword::MAX,
                                old(table)@,
                            ) == (
                                old(table)@,
                                Result::<(int, Span, SpecProperty), SpecParseErr>::Err(
                                    SpecParseErr::UnexpectedEndOfInput,
                                ),
                            ));
                        }
                        return Err(ParserErr::UnexpectedEndOfInput);
                    }
                    let n = match tokens[pos + 2].value {
                        Token::Cardinality(n) => n,
                        _ => {
                            proof {
                                assert(spec_card_target(
                                    tokens@,
                                    pos as int,
                                    index,
                                    Keyword::MAX,
                                    old(table)@,
                                ) == (
                                    old(table)@,
                                    Result::<(int, Span, SpecProperty), SpecParseErr>::Err(
                                        SpecParseErr::UnexpectedEndOfInput,
                                    ),
                                ));
                            }
                            return Err(ParserErr::UnexpectedEndOfInput);
                        },
                    };
                    proof {
                        assert(spec_card_target(tokens@, pos as int, index, Keyword::MAX, old(table)@)
                            == spec_target(
                            tokens@,
                            pos as int,
                            (pos + 3) as int,
                            index,
                            Keyword::MAX,
                            n,
                            old(table)@,
                        ));
                    }
                    parse_target(tokens, pos, pos + 3, index, Keyword::MAX, n, table)
                },
                Token::Keyword(Keyword::EXACTLY) => {
                    if pos + 2 >= tokens.len() {
                        proof {
                            assert(spec_card_target(
                                tokens@,
                                pos as int,
                                index,
                                Keyword::EXACTLY,
                                old(table)@,
                            ) == (
                                old(table)@,
                                Result::<(int, Span, SpecProperty), SpecParseErr>::Err(
                                    SpecParseErr::UnexpectedEndOfInput,
                                ),
                            ));
                        }
                        return Err(ParserErr::UnexpectedEndOfInput);
                    }
                    let n = match tokens[pos + 2].value {
                        Token::Cardinality(n) => n,
                        _ => {
                            proof {
                                assert(spec_card_target(
                                    tokens@,
                                    pos as int,
                                    index,
                                    Keyword::EXACTLY,
                                    old(table)@,
                                ) == (
                                    old(table)@,
                                    Result::<(int, Span, SpecProperty), SpecParseErr>::Err(
                                        SpecParseErr::UnexpectedEndOfInput,
                                    ),
                                ));
                            }
                            return Err(ParserErr::UnexpectedEndOfInput);
                        },
                    };
                    proof {
                        assert(spec_card_target(tokens@, pos as int, index, Keyword::EXACTLY, old(table)@)
                            == spec_target(
                            tokens@,
                            pos as int,
                            (pos + 3) as int,
                            index,
                            Keyword::EXACTLY,
                            n,
                            old(table)@,
                        ));
                    }
                    parse_target(tokens, pos, pos + 3, index, Keyword::EXACTLY, n, table)
                },
                _ => Err(
                    found_at(
                        tokens,
                        pos + 1,
                        "'SOME' or 'ONLY' or 'VALUE' or 'MIN' or 'MAX' or 'EXACTLY'",
                    ),
                ),
            }
        },
        _ => Err(found_at(tokens, pos, "'(' or PropertyIdentifier")),
    }
}

/// Parses a class production: a bare identifier, an identifier followed by
/// an `AND` chain or an `OR` chain, a parenthesized class, or an
/// enumeration.
pub fn parse_class(tokens: &Vec<Located<Token>>, pos: usize, table: &mut SymbolTable) -> (r:
    Result<(usize, Located<Class>), ParserErr>)
    requires
        pos <= tokens@.len(),
        old(table).wf(),
    ensures
        final(table).wf(),
        table_refines(old(table)@, final(table)@),
        match r {
            Ok((np, c)) => {
                &&& pos < np <= tokens@.len()
                &&& c.span.start == tokens@[pos as int].span.start
                &&& c.span.end == tokens@[np - 1].span.end
                &&& class_wf(c.value)
                &&& is_class_start(tokens@[pos as int].value)
            },
            Err(e) => {
                &&& (pos >= tokens@.len() ==> e is UnexpectedEndOfInput)
                &&& ((pos < tokens@.len() && !is_class_start(tokens@[pos as int].value))
                    ==> e matches ParserErr::UnrecognizedToken { .. })
            },
        },
        (pos < tokens@.len() && (tokens@[pos as int].value matches Token::ClassIdentifier { .. })
            && (pos + 1 >= tokens@.len() || (tokens@[pos + 1].value != Token::Keyword(Keyword::AND)
            && tokens@[pos + 1].value != Token::Keyword(Keyword::OR)))) ==> (r matches Ok(
            (np, c),
        ) && np == pos + 1 && (tokens@[pos as int].value matches Token::ClassIdentifier { index }
            ==> c.value == Class::Identifier(ClassIdentifier { index }))),
        ({
            let (ssyms, sres) = spec_parse_class(tokens@, pos as int, old(table)@);
            &&& final(table)@ == ssyms
            &&& match (r, sres) {
                (Ok((np, c)), Ok((snp, sspan, sc))) => np == snp && c.span == sspan
                    && class_corresponds(c.value, sc),
                (Err(e), Err(se)) => err_corresponds(e, se),
                _ => false,
            }
        }),
    decreases tokens@.len() - pos, 2int,
{
    if pos >= tokens.len() {
        return Err(ParserErr::UnexpectedEndOfInput);
    }
    let start_span = tokens[pos].span;
    match tokens[pos].value {
        Token::ClassIdentifier { index } => {
            let class_identifier = ClassIdentifier { index };
            if has_kw_at(tokens, pos + 1, Keyword::AND) {
                let (np, properties) = match parse_and_chain(tokens, pos + 2, table) {
                    Ok(x) => x,
                    Err(e) => {
                        return Err(e);
                    },
                };
                let end = tokens[np - 1].span.end;
                Ok(
                    (
                        np,
                        Located::new(
                            Class::Defined(class_identifier, properties),
                            Span { start: start_span.start, end },
                        ),
                    ),
                )
            } else if has_kw_at(tokens, pos + 1, Keyword::OR) {
                let (np, classes) = match parse_or_chain(tokens, pos + 2, class_identifier) {
                    Ok(x) => x,
                    Err(e) => {
                        return Err(e);
                    },
                };
                let end = tokens[np - 1].span.end;
                Ok(
                    (
                        np,
                        Located::new(
                            Class::Disjoint(classes),
                            Span { start: start_span.start, end },
                        ),
                    ),
                )
            } else {
                Ok((pos + 1, Located::new(Class::Identifier(class_identifier), start_span)))
            }
        },
        Token::Punctuation(Punctuation::OpenParen) => {
            let (cur, class) = match parse_class(tokens, pos + 1, table) {
                Ok(x) => x,
                Err(e) => {
                    return Err(e);
                },
            };
            if cur >= tokens.len() {
                return Err(ParserErr::UnexpectedEndOfInput);
            }
            match tokens[cur].value {
                Token::Punctuation(Punctuation::CloseParen) => Ok(
                    (
                        cur + 1,
                        Located::new(
                            class.value,
                            Span { start: start_span.start, end: tokens[cur].span.end },
                        ),
                    ),
                ),
                _ => Err(found_at(tokens, cur, "')'")),
            }
        },
        Token::Punctuation(Punctuation::OpenBrace) => {
            match parse_enumerated_class(tokens, pos) {
                Ok((np, classes)) => {
                    let sp = classes.span;
                    Ok((np, Located::new(Class::Enumerated(classes.value), sp)))
                },
                Err(e) => Err(e),
            }
        },
        _ => Err(found_at(tokens, pos, "ClassIdentifier or '(' or '{'")),
    }
}

/// Parses one top-level declaration: a class defined by an `AND` chain, a
/// primitive class with concatenated properties, a disjoint `OR` set, or an
/// enumeration in braces.
pub fn parse_decl(tokens: &Vec<Located<Token>>, pos: usize, table: &mut SymbolTable) -> (r: Result<
    (usize, Located<ClassDecl>),
    ParserErr,
>)
    requires
        pos <= tokens@.len(),
        old(table).wf(),
    ensures
        final(table).wf(),
        table_refines(old(table)@, final(table)@),
        match r {
            Ok((np, d)) => {
                &&& pos < np <= tokens@.len()
                &&& d.span.start == tokens@[pos as int].span.start
                &&& d.span.end == tokens@[np - 1].span.end
                &&& class_decl_wf(d.value)
                &&& (d.value matches ClassDecl::Defined(ci, _) ==> (tokens@[pos as int].value == (
                Token::ClassIdentifier { index: ci.index }) && pos + 1 < tokens@.len()
                    && tokens@[pos + 1].value == Token::Keyword(Keyword::AND)))
                &&& (d.value matches ClassDecl::Primitive(ci, _) ==> (tokens@[pos as int].value
                    == (Token::ClassIdentifier { index: ci.index }) && pos + 1 < tokens@.len()
                    && property_start(tokens@[pos + 1].value)))
                &&& (d.value matches ClassDecl::Disjoint(cs) ==> (cs@.len() >= 2
                    && tokens@[pos as int].value == (Token::ClassIdentifier {
                    index: cs@[0].index,
                }) && pos + 1 < tokens@.len() && tokens@[pos + 1].value == Token::Keyword(
                    Keyword::OR,
                )))
                &&& (d.value matches ClassDecl::Enumerated(_) ==> tokens@[pos as int].value
                    == Token::Punctuation(Punctuation::OpenBrace))
                &&& decl_kinds_recorded(final(table)@, d.value)
            },
            Err(e) => {
                pos >= tokens@.len() ==> e is UnexpectedEndOfInput
            },
        },
        lone_enum_member(tokens@, pos as int) ==> (r matches Ok((np, d)) && np == pos + 3 && (
        d.value matches ClassDecl::Enumerated(cs) && cs@.len() == 1)),
        (pos + 2 < tokens@.len() && tokens@[pos + 1].value == Token::Keyword(Keyword::OR) && (pos
            + 3 >= tokens@.len() || tokens@[pos + 3].value != Token::Keyword(Keyword::OR)))
            ==> (tokens@[pos as int].value matches Token::ClassIdentifier { index: a } ==> (
        tokens@[pos + 2].value matches Token::ClassIdentifier { index: b } ==> (a != b ==> (
        r matches Ok((np, d)) && np == pos + 3 && (d.value matches ClassDecl::Disjoint(cs)
            && cs@.len() == 2 && cs@[0] == (ClassIdentifier { index: a }) && cs@[1] == (
        ClassIdentifier { index: b })))))),
        ({
            let (ssyms, sres) = spec_parse_decl(tokens@, pos as int, old(table)@);
            &&& final(table)@ == ssyms
            &&& match (r, sres) {
                (Ok((np, d)), Ok((snp, sspan, sd))) => np == snp && d.span == sspan
                    && decl_corresponds(d.value, sd),
                (Err(e), Err(se)) => err_corresponds(e, se),
                _ => false,
            }
        }),
    decreases tokens@.len() - pos, 4int,
{
    if pos >= tokens.len() {
        return Err(ParserErr::UnexpectedEndOfInput);
    }
    let start_span = tokens[pos].span;
    match tokens[pos].value {
        Token::ClassIdentifier { index } => {
            let class_identifier = ClassIdentifier { index };
            if pos + 1 >= tokens.len() {
                return Err(ParserErr::UnexpectedEndOfInput);
            }
            match tokens[pos + 1].value {
                Token::Keyword(Keyword::AND) => {
                    let (np, properties) = match parse_and_chain(tokens, pos + 2, table) {
                        Ok(x) => x,
                        Err(e) => {
                            return Err(e);
                        },
                    };
                    let end = tokens[np - 1].span.end;
                    Ok(
                        (
                            np,
                            Located::new(
                                ClassDecl::Defined(class_identifier, properties),
                                Span { start: start_span.start, end },
                            ),
                        ),
                    )
                },
                Token::Keyword(Keyword::OR) => {
                    let (np, classes) = match parse_or_chain(tokens, pos + 2, class_identifier) {
                        Ok(x) => x,
                        Err(e) => {
                            return Err(e);
                        },
                    };
                    let end = tokens[np - 1].span.end;
                    Ok(
                        (
                            np,
                            Located::new(
                                ClassDecl::Disjoint(classes),
                                Span { start: start_span.start, end },
                            ),
                        ),
                    )
                },
                Token::PropertyIdentifier { .. } | Token::Punctuation(Punctuation::OpenParen) => {
                    let (np, properties) = match parse_prop_chain(tokens, pos + 1, table) {
                        Ok(x) => x,
                        Err(e) => {
                            return Err(e);
                        },
                    };
                    let end = tokens[np - 1].span.end;
                    Ok(
                        (
                            np,
                            Located::new(
                                ClassDecl::Primitive(class_identifier, properties),
                                Span { start: start_span.start, end },
                            ),
                        ),
                    )
                },
                _ => Err(found_at(tokens, pos + 1, "'AND' or 'OR' or '(' or PropertyIdentifier")),
            }
        },
        Token::Punctuation(Punctuation::OpenBrace) => {
            match parse_enumerated_class(tokens, pos) {
                Ok((np, classes)) => {
                    let sp = classes.span;
                    Ok((np, Located::new(ClassDecl::Enumerated(classes.value), sp)))
                },
                Err(e) => Err(e),
            }
        },
        _ => Err(found_at(tokens, pos, "ClassIdentifier or '(' or '{'")),
    }
}

/// The whole file is one single-member enumeration.
pub open spec fn lone_enum_file(tokens: Seq<Located<Token>>) -> bool {
    tokens.len() == 3 && lone_enum_member(tokens, 0)
}

/// Parses a whole token sequence into declarations, one after the other,
/// refining property kinds in the table as it goes; the first error aborts
/// the parse.
pub fn parse(tokens: &Vec<Located<Token>>, table: &mut SymbolTable) -> (r: Result<
    Vec<Located<ClassDecl>>,
    ParserErr,
>)
    requires
        old(table).wf(),
    ensures
        final(table).wf(),
        table_refines(old(table)@, final(table)@),
        match r {
            Ok(decls) => {
                &&& (decls@.len() == 0 <==> tokens@.len() == 0)
                &&& forall|i: int|
                    0 <= i < decls@.len() ==> class_decl_wf((#[trigger] decls@[i]).value)
                &&& (decls@.len() > 0 ==> decls@[0].span.start == tokens@[0].span.start
                    && decls@[decls@.len() - 1].span.end == tokens@[tokens@.len()
                    - 1].span.end)
                &&& forall|i: int|
                    0 <= i < decls@.len() ==> decl_kinds_recorded(
                        final(table)@,
                        (#[trigger] decls@[i]).value,
                    )
            },
            Err(_) => true,
        },
        tokens@.len() == 0 ==> r is Ok,
        lone_enum_file(tokens@) ==> r is Ok,
        ({
            let (ssyms, sres) = spec_parse_all(tokens@, 0, old(table)@);
            &&& final(table)@ == ssyms
            &&& match (r, sres) {
                (Ok(decls), Ok(sds)) => decls@.len() == sds.len() && forall|i: int|
                    0 <= i < decls@.len() ==> ((#[trigger] decls@[i]).span == sds[i].0
                        && decl_corresponds(decls@[i].value, sds[i].1)),
                (Err(e), Err(se)) => err_corresponds(e, se),
                _ => false,
            }
        }),
{
    let ghost t0 = table@;
    let mut decls: Vec<Located<ClassDecl>> = Vec::new();
    let ghost mut sdecls: Seq<(Span, SpecClassDecl)> = Seq::empty();
    let mut cur: usize = 0;
    while cur < tokens.len()
        invariant
            lone_enum_file(tokens@) ==> (cur == 0 || cur == 3),
            cur <= tokens@.len(),
            t0 == old(table)@,
            table.wf(),
            table_refines(t0, table@),
            forall|i: int| 0 <= i < decls@.len() ==> class_decl_wf((#[trigger] decls@[i]).value),
            forall|i: int|
                0 <= i < decls@.len() ==> decl_kinds_recorded(
                    table@,
                    (#[trigger] decls@[i]).value,
                ),
            decls@.len() == 0 <==> cur == 0,
            decls@.len() > 0 ==> decls@[0].span.start == tokens@[0].span.start
                && decls@[decls@.len() - 1].span.end == tokens@[cur - 1].span.end,
            decls@.len() == sdecls.len(),
            forall|i: int|
                0 <= i < decls@.len() ==> ((#[trigger] decls@[i]).span == sdecls[i].0
                    && decl_corresponds(decls@[i].value, sdecls[i].1)),
            ({
                let (s_all, r_all) = spec_parse_all(tokens@, 0, t0);
                let (s_rest, r_rest) = spec_parse_all(tokens@, cur as int, table@);
                &&& s_all == s_rest
                &&& match r_rest {
                    Ok(ds) => r_all == Result::<Seq<(Span, SpecClassDecl)>, SpecParseErr>::Ok(
                        sdecls + ds,
                    ),
                    Err(e) => r_all == Result::<Seq<(Span, SpecClassDecl)>, SpecParseErr>::Err(e),
                }
            }),
        decreases tokens@.len() - cur,
    {
        let ghost ta = table@;
        match parse_decl(tokens, cur, table) {
            Ok((np, decl)) => {
                proof {
                    lemma_table_refines_trans(t0, ta, table@);
                }
                let ghost sd = (spec_parse_decl(tokens@, cur as int, ta).1)->Ok_0.2;
                let ghost dspan = (spec_parse_decl(tokens@, cur as int, ta).1)->Ok_0.1;
                proof {
                    let old_sdecls = sdecls;
                    sdecls = sdecls.push((dspan, sd));
                    match spec_parse_all(tokens@, np as int, table@).1 {
                        Ok(ds) => {
                            assert(old_sdecls + (seq![(dspan, sd)] + ds) =~= sdecls + ds);
                        },
                        Err(_) => {},
                    }
                }
                decls.push(decl);
                cur = np;
            },
            Err(e) => {
                proof {
                    lemma_table_refines_trans(t0, ta, table@);
                }
                return Err(e);
            },
        }
    }
    proof {
        assert(sdecls + Seq::<(Span, SpecClassDecl)>::empty() =~= sdecls);
    }
    Ok(decls)
}

} // verus!
