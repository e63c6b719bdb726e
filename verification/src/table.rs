//! Symbol table: interns identifier/literal text to stable sequential
//! indices and tracks each symbol's coarse category, refining a property's
//! kind (object vs. data) the first time the parser resolves it.

use vstd::prelude::*;

verus! {

/// The resolved kind of a property symbol.
#[derive(Debug, Clone, Copy, PartialEq, Eq, Structural)]
pub enum PropertyType {
    Object,
    Data,
}

/// A symbol's coarse category; a property's kind starts unknown.
#[derive(Debug, Clone, Copy, PartialEq, Eq, Structural)]
pub enum Type {
    Class,
    Property(Option<PropertyType>),
    Literal,
}

/// An interned symbol: its category and its exact text.
#[derive(Debug, Clone)]
pub struct Symbol {
    pub type_: Type,
    pub id: String,
}

impl Symbol {
    /// The symbol's category.
    pub open spec fn spec_type(self) -> Type {
        self.type_
    }

    /// The symbol's interned text.
    pub open spec fn text(self) -> Seq<char> {
        self.id@
    }

    pub fn new(type_: Type, id: String) -> (r: Symbol)
        ensures
            r.spec_type() == type_,
            r.text() == id@,
    {
        Symbol { type_, id }
    }

    pub fn type_(&self) -> (r: Type)
        ensures
            r == self.spec_type(),
    {
        self.type_
    }

    pub fn id(&self) -> (r: &str)
        ensures
            r@ == self.text(),
    {
        self.id.as_str()
    }
}

/// `new` keeps `old`'s symbols: same text everywhere, and each category
/// either unchanged or refined from a property of unknown kind to a known one.
pub open spec fn table_refines(old_syms: Seq<Symbol>, new_syms: Seq<Symbol>) -> bool {
    &&& new_syms.len() == old_syms.len()
    &&& forall|i: int|
        0 <= i < old_syms.len() ==> {
            &&& (#[trigger] new_syms[i]).text() == old_syms[i].text()
            &&& (new_syms[i].spec_type() == old_syms[i].spec_type() || (old_syms[i].spec_type()
                == Type::Property(None) && new_syms[i].spec_type() matches Type::Property(
                Some(_),
            )))
        }
}

pub proof fn lemma_table_refines_trans(a: Seq<Symbol>, b: Seq<Symbol>, c: Seq<Symbol>)
    requires
        table_refines(a, b),
        table_refines(b, c),
    ensures
        table_refines(a, c),
{
}

/// Once a property's kind is fixed, no refinement step changes it.
pub proof fn lemma_kind_fixed_persists(
    old_syms: Seq<Symbol>,
    new_syms: Seq<Symbol>,
    index: int,
    k0: PropertyType,
)
    requires
        table_refines(old_syms, new_syms),
        0 <= index < old_syms.len(),
        old_syms[index].spec_type() == Type::Property(Some(k0)),
    ensures
        new_syms[index].spec_type() == Type::Property(Some(k0)),
{
}

/// Interned symbols, indexed 0-based in insertion order.
pub struct SymbolTable {
    pub symbols: Vec<Symbol>,
}

impl View for SymbolTable {
    type V = Seq<Symbol>;

    open spec fn view(&self) -> Seq<Symbol> {
        self.symbols@
    }
}

impl SymbolTable {
    /// No two symbols share their text.
    pub open spec fn wf(self) -> bool {
        forall|i: int, j: int|
            0 <= i < j < self@.len() ==> (#[trigger] self@[i]).text() != (#[trigger] self@[j]).text()
    }

    /// Some symbol already holds this text.
    pub open spec fn contains_text(self, text: Seq<char>) -> bool {
        exists|i: int| 0 <= i < self@.len() && (#[trigger] self@[i]).text() == text
    }

    pub fn new() -> (r: SymbolTable)
        ensures
            r@ =~= Seq::<Symbol>::empty(),
            r.wf(),
    {
        SymbolTable { symbols: Vec::new() }
    }

    /// The symbol at `index`, if any.
    pub fn get(&self, index: usize) -> (r: Option<&Symbol>)
        ensures
            index < self@.len() ==> r == Some(&self@[index as int]),
            index >= self@.len() ==> r is None,
    {
        if index < self.symbols.len() {
            Some(&self.symbols[index])
        } else {
            None
        }
    }

    /// Index of the symbol with exactly this text, inserting it with the
    /// given category when no prior symbol holds the text.
    pub fn get_or_insert(&mut self, type_: Type, id: String) -> (index: usize)
        requires
            old(self).wf(),
        ensures
            final(self).wf(),
            index < final(self)@.len(),
            final(self)@[index as int].text() == id@,
            old(self).contains_text(id@) ==> {
                &&& final(self)@ == old(self)@
            },
            !old(self).contains_text(id@) ==> {
                &&& final(self)@ == old(self)@.push(
                    Symbol { type_, id: id },
                )
                &&& index == old(self)@.len()
            },
    {
        let n = self.symbols.len();
        let mut i: usize = 0;
        while i < n
            invariant
                n == self@.len(),
                i <= n,
                self.wf(),
                forall|k: int| 0 <= k < i ==> (#[trigger] self@[k]).text() != id@,
            decreases n - i,
        {
            if self.symbols[i].id == id {
                return i;
            }
            i = i + 1;
        }
        self.symbols.push(Symbol { type_, id });
        n
    }

    /// Fixes a property's kind; a no-op returning false unless the symbol at
    /// `index` is a property of still-unknown kind.
    pub fn update_property_type(&mut self, index: usize, type_: PropertyType) -> (r: bool)
        ensures
            r == (index < old(self)@.len() && old(self)@[index as int].spec_type()
                == Type::Property(None)),
            r ==> final(self)@ =~= old(self)@.update(
                index as int,
                Symbol {
                    type_: Type::Property(Some(type_)),
                    id: old(self)@[index as int].id,
                },
            ),
            !r ==> final(self)@ == old(self)@,
            table_refines(old(self)@, final(self)@),
            old(self).wf() ==> final(self).wf(),
    {
        if index < self.symbols.len() {
            match self.symbols[index].type_ {
                Type::Property(None) => {
                    let id = self.symbols[index].id.clone();
                    self.symbols.set(
                        index,
                        Symbol { type_: Type::Property(Some(type_)), id },
                    );
                    true
                },
                _ => false,
            }
        } else {
            false
        }
    }

    /// All symbols, in index order; for inspection only.
    pub fn symbols(&self) -> (r: &Vec<Symbol>)
        ensures
            r@ == self@,
    {
        &self.symbols
    }
}

} // verus!
