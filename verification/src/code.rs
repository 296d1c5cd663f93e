use crate::object::{Object, Value};
use vstd::prelude::*;

verus! {

/// One instruction of the virtual machine. A jump's operand counts the
/// instructions to pass over, forward from the one after the jump.
#[derive(PartialEq, Eq, Debug)]
pub enum Code {
    Constant(Object),
    Pop,
    Add,
    Sub,
    Mul,
    Div,
    True,
    False,
    Equal,
    NotEqual,
    GreaterThan,
    LessThan,
    Minus,
    Bang,
    JumpNotTruthy(usize),
    Jump(usize),
    Null,
    SetGlobal(usize),
    GetGlobal(usize),
    Array(usize),
    Index,
    ReturnValue,
    Return,
    Call(usize),
    SetLocal(usize),
    GetLocal(usize),
}

/// The mathematical value of a [`Code`].
pub enum Instr {
    Constant(Value),
    Pop,
    Add,
    Sub,
    Mul,
    Div,
    True,
    False,
    Equal,
    NotEqual,
    GreaterThan,
    LessThan,
    Minus,
    Bang,
    JumpNotTruthy(usize),
    Jump(usize),
    Null,
    SetGlobal(usize),
    GetGlobal(usize),
    Array(usize),
    Index,
    ReturnValue,
    Return,
    Call(usize),
    SetLocal(usize),
    GetLocal(usize),
}

impl Code {
    /// The value of this instruction.
    pub open spec fn model(&self) -> Instr
        decreases self,
    {
        match self {
            Code::Constant(o) => Instr::Constant(o.model()),
            Code::Pop => Instr::Pop,
            Code::Add => Instr::Add,
            Code::Sub => Instr::Sub,
            Code::Mul => Instr::Mul,
            Code::Div => Instr::Div,
            Code::True => Instr::True,
            Code::False => Instr::False,
            Code::Equal => Instr::Equal,
            Code::NotEqual => Instr::NotEqual,
            Code::GreaterThan => Instr::GreaterThan,
            Code::LessThan => Instr::LessThan,
            Code::Minus => Instr::Minus,
            Code::Bang => Instr::Bang,
            Code::JumpNotTruthy(n) => Instr::JumpNotTruthy(*n),
            Code::Jump(n) => Instr::Jump(*n),
            Code::Null => Instr::Null,
            Code::SetGlobal(n) => Instr::SetGlobal(*n),
            Code::GetGlobal(n) => Instr::GetGlobal(*n),
            Code::Array(n) => Instr::Array(*n),
            Code::Index => Instr::Index,
            Code::ReturnValue => Instr::ReturnValue,
            Code::Return => Instr::Return,
            Code::Call(n) => Instr::Call(*n),
            Code::SetLocal(n) => Instr::SetLocal(*n),
            Code::GetLocal(n) => Instr::GetLocal(*n),
        }
    }

    /// A deep copy of this instruction.
    pub fn duplicate(&self) -> (r: Code)
        ensures
            r@ == self@,
        decreases self,
    {
        match self {
            Code::Constant(o) => Code::Constant(o.duplicate()),
            Code::Pop => Code::Pop,
            Code::Add => Code::Add,
            Code::Sub => Code::Sub,
            Code::Mul => Code::Mul,
            Code::Div => Code::Div,
            Code::True => Code::True,
            Code::False => Code::False,
            Code::Equal => Code::Equal,
            Code::NotEqual => Code::NotEqual,
            Code::GreaterThan => Code::GreaterThan,
            Code::LessThan => Code::LessThan,
            Code::Minus => Code::Minus,
            Code::Bang => Code::Bang,
            Code::JumpNotTruthy(n) => Code::JumpNotTruthy(*n),
            Code::Jump(n) => Code::Jump(*n),
            Code::Null => Code::Null,
            Code::SetGlobal(n) => Code::SetGlobal(*n),
            Code::GetGlobal(n) => Code::GetGlobal(*n),
            Code::Array(n) => Code::Array(*n),
            Code::Index => Code::Index,
            Code::ReturnValue => Code::ReturnValue,
            Code::Return => Code::Return,
            Code::Call(n) => Code::Call(*n),
            Code::SetLocal(n) => Code::SetLocal(*n),
            Code::GetLocal(n) => Code::GetLocal(*n),
        }
    }
}

/// The values of a list of instructions, in order.
pub open spec fn codes_view(cs: Seq<Code>) -> Seq<Instr>
    decreases cs,
{
    Seq::new(cs.len(), |i: int| if 0 <= i < cs.len() { cs[i].model() } else { arbitrary() })
}

/// A deep copy of a list of instructions.
pub fn duplicate_codes(cs: &Vec<Code>) -> (r: Vec<Code>)
    ensures
        codes_view(r@) == codes_view(cs@),
    decreases cs,
{
    let mut out: Vec<Code> = Vec::new();
    let mut i: usize = 0;
    while i < cs.len()
        invariant
            i <= cs.len(),
            out.len() == i,
            forall|j: int| 0 <= j < i ==> out[j]@ == cs[j]@,
        decreases cs.len() - i,
    {
        out.push(cs[i].duplicate());
        i += 1;
    }
    assert(codes_view(out@) =~= codes_view(cs@));
    out
}

/// Where a name lives: among the globals, or in the frame of a call.
#[derive(PartialEq, Eq, Debug, Clone, Copy, Structural)]
pub enum Scope {
    Global,
    Local,
}

/// What the compiler knows of a name: its scope and its slot.
#[derive(PartialEq, Eq, Debug)]
pub struct Symbol {
    pub name: String,
    pub scope: Scope,
    pub index: usize,
}

/// The mathematical value of a [`Symbol`].
pub struct Sym {
    pub name: Seq<char>,
    pub scope: Scope,
    pub index: usize,
}

impl View for Symbol {
    type V = Sym;

    open spec fn view(&self) -> Sym {
        Sym { name: self.name@, scope: self.scope, index: self.index }
    }
}

impl Clone for Symbol {
    fn clone(&self) -> (r: Symbol)
        ensures
            r@ == self@,
    {
        Symbol { name: self.name.clone(), scope: self.scope, index: self.index }
    }
}

/// The value of an optional symbol.
pub open spec fn symbol_option_view(s: Option<Symbol>) -> Option<Sym> {
    match s {
        Some(s) => Some(s@),
        None => None,
    }
}

/// The names of one lexical scope, and the table of the scope around it.
pub struct SymbolTable {
    outer: Option<Box<SymbolTable>>,
    symbols: Vec<Symbol>,
    num_definitions: usize,
}

/// The mathematical value of a [`SymbolTable`].
pub struct Table {
    pub outer: Option<Box<Table>>,
    pub bindings: Map<Seq<char>, Sym>,
    pub num_definitions: nat,
}

impl Table {
    /// The table of a scope in which nothing is defined yet.
    pub open spec fn empty(outer: Option<Box<Table>>) -> Table {
        Table { outer, bindings: Map::empty(), num_definitions: 0 }
    }

    /// The scope of the names that this table defines: local inside another
    /// table, global in the outermost one.
    pub open spec fn scope(self) -> Scope {
        if self.outer is Some {
            Scope::Local
        } else {
            Scope::Global
        }
    }

    /// The symbol that `define` gives to `name`: the next free slot of this
    /// table.
    pub open spec fn next_symbol(self, name: Seq<char>) -> Sym {
        Sym { name, scope: self.scope(), index: self.num_definitions as usize }
    }

    /// The table after `name` is defined: the name is bound to the next
    /// slot, whatever it was bound to before, and the slot is used up.
    pub open spec fn define(self, name: Seq<char>) -> Table {
        Table {
            outer: self.outer,
            bindings: self.bindings.insert(name, self.next_symbol(name)),
            num_definitions: self.num_definitions + 1,
        }
    }

    /// The table after each of `names` is defined, in order.
    pub open spec fn define_all(self, names: Seq<Seq<char>>) -> Table
        decreases names.len(),
    {
        if names.len() == 0 {
            self
        } else {
            self.define_all(names.drop_last()).define(names.last())
        }
    }

    /// The symbol of `name`: that of the innermost table that binds it.
    pub open spec fn resolve(self, name: Seq<char>) -> Option<Sym>
        decreases self,
    {
        if self.bindings.contains_key(name) {
            Some(self.bindings[name])
        } else {
            match self.outer {
                Some(o) => o.resolve(name),
                None => None,
            }
        }
    }

    /// What holds of the bindings of this one table: each symbol is stored
    /// under its own name, has this table's scope and a slot that was given
    /// out, and no slot is stored under two names.
    pub open spec fn bindings_wf(self) -> bool {
        &&& self.num_definitions <= usize::MAX
        &&& self.bindings.dom().finite()
        &&& forall|n: Seq<char>| #[trigger]
            self.bindings.contains_key(n) ==> {
                &&& self.bindings[n].name == n
                &&& self.bindings[n].scope == self.scope()
                &&& self.bindings[n].index < self.num_definitions
            }
        &&& forall|n: Seq<char>, m: Seq<char>|
            #![trigger self.bindings[n], self.bindings[m]]
            self.bindings.contains_key(n) && self.bindings.contains_key(m) && n != m
                ==> self.bindings[n].index != self.bindings[m].index
    }

    /// What holds of a table and of every table around it.
    pub open spec fn wf(self) -> bool
        decreases self,
    {
        &&& self.bindings_wf()
        &&& match self.outer {
            Some(o) => o.wf(),
            None => true,
        }
    }
}

impl SymbolTable {
    /// Whether one of the stored symbols has the name `name`.
    pub closed spec fn has(&self, name: Seq<char>) -> bool {
        exists|i: int| 0 <= i < self.symbols.len() && #[trigger] self.symbols[i].name@ == name
    }

    /// The place of a stored symbol with the name `name`.
    pub closed spec fn place(&self, name: Seq<char>) -> int {
        choose|i: int| 0 <= i < self.symbols.len() && #[trigger] self.symbols[i].name@ == name
    }

    /// The value of this table.
    pub closed spec fn model(&self) -> Table
        decreases self,
    {
        Table {
            outer: match self.outer {
                Some(o) => Some(Box::new(o.model())),
                None => None,
            },
            bindings: Map::new(
                |n: Seq<char>| self.has(n),
                |n: Seq<char>| self.symbols[self.place(n)]@,
            ),
            num_definitions: self.num_definitions as nat,
        }
    }

    /// The stored symbols have pairwise different names, each was made by
    /// this table, and the value of each table around this one is well
    /// formed.
    #[verifier::type_invariant]
    closed spec fn inv(&self) -> bool {
        &&& forall|i: int, j: int|
            0 <= i < j < self.symbols.len() ==> self.symbols[i].name@ != self.symbols[j].name@
        &&& forall|i: int, j: int|
            0 <= i < j < self.symbols.len() ==> self.symbols[i].index != self.symbols[j].index
        &&& forall|i: int|
            0 <= i < self.symbols.len() ==> {
                &&& (#[trigger] self.symbols[i]).index < self.num_definitions
                &&& self.symbols[i].scope == self.model().scope()
            }
        &&& match self.outer {
            Some(o) => o.model().wf(),
            None => true,
        }
    }

    /// The value of a table that meets its invariant is well formed.
    proof fn lemma_inv_wf(&self)
        requires
            self.inv(),
        ensures
            self@.wf(),
    {
        let t = self@;
        assert(t.bindings.dom().finite()) by {
            let names = Seq::new(self.symbols.len() as nat, |i: int| self.symbols[i].name@);
            assert forall|n: Seq<char>| t.bindings.dom().contains(n) implies names.to_set().contains(
                n,
            ) by {
                let i = self.place(n);
                assert(names[i] == n);
            }
            vstd::seq_lib::seq_to_set_is_finite(names);
            vstd::set_lib::lemma_len_subset(t.bindings.dom(), names.to_set());
        }
        assert forall|n: Seq<char>, m: Seq<char>|
            #![trigger t.bindings[n], t.bindings[m]]
            t.bindings.contains_key(n) && t.bindings.contains_key(m) && n != m implies t.bindings[n].index
            != t.bindings[m].index by {
            let i = self.place(n);
            let j = self.place(m);
            assert(i != j);
        }
    }

    /// A table without names inside `outer`, or an outermost one.
    pub fn new(outer: Option<Box<SymbolTable>>) -> (r: SymbolTable)
        ensures
            r@ == Table::empty(table_option_view(outer)),
            r@.wf(),
    {
        proof {
            match &outer {
                Some(o) => {
                    use_type_invariant(&**o);
                    o.lemma_inv_wf();
                },
                None => {},
            }
        }
        let r = SymbolTable { outer, symbols: Vec::new(), num_definitions: 0 };
        proof {
            assert(r@.bindings =~= Map::empty());
            r.lemma_inv_wf();
        }
        r
    }

    /// The table around this one, if there is one.
    pub fn get_outer(self) -> (r: Option<Box<SymbolTable>>)
        ensures
            table_option_view(r) == self@.outer,
            self@.wf(),
    {
        proof {
            use_type_invariant(&self);
            self.lemma_inv_wf();
        }
        self.outer
    }

    /// How many definitions this table has seen.
    pub fn num_definitions(&self) -> (r: usize)
        ensures
            r == self@.num_definitions,
            self@.wf(),
    {
        proof {
            use_type_invariant(self);
            self.lemma_inv_wf();
        }
        self.num_definitions
    }

    /// Whether this is the outermost table.
    pub fn is_global(&self) -> (r: bool)
        ensures
            r == (self@.scope() == Scope::Global),
            self@.wf(),
    {
        proof {
            use_type_invariant(self);
            self.lemma_inv_wf();
        }
        self.outer.is_none()
    }

    /// The place of the stored symbol named `name`, if there is one.
    fn find(&self, name: &String) -> (r: Option<usize>)
        ensures
            match r {
                Some(i) => i < self.symbols.len() && self.symbols[i as int].name@ == name@,
                None => !self.has(name@),
            },
    {
        let mut i: usize = 0;
        while i < self.symbols.len()
            invariant
                i <= self.symbols.len(),
                forall|j: int| 0 <= j < i ==> self.symbols[j].name@ != name@,
            decreases self.symbols.len() - i,
        {
            if self.symbols[i].name == *name {
                return Some(i);
            }
            i += 1;
        }
        None
    }

    /// Binds `name` to the next slot of this table, in place of what it was
    /// bound to here, and returns the new symbol.
    pub fn define(&mut self, name: &str) -> (r: Symbol)
        requires
            old(self)@.num_definitions < usize::MAX,
        ensures
            final(self)@ == old(self)@.define(name@),
            r@ == old(self)@.next_symbol(name@),
            old(self)@.wf(),
            final(self)@.wf(),
    {
        proof {
            use_type_invariant(&*self);
            self.lemma_inv_wf();
        }
        let key = String::from_str(name);
        let scope = if self.outer.is_some() {
            Scope::Local
        } else {
            Scope::Global
        };
        let index = self.num_definitions;
        let symbol = Symbol { name: key.clone(), scope, index };
        let stored = Symbol { name: key.clone(), scope, index };
        let found = self.find(&key);
        let ghost before = *self;
        self.num_definitions = index + 1;
        let mut symbols: Vec<Symbol> = Vec::new();
        core::mem::swap(&mut self.symbols, &mut symbols);
        match found {
            Some(i) => {
                symbols.set(i, stored);
            },
            None => {
                symbols.push(stored);
            },
        }
        self.symbols = symbols;
        proof {
            let k: int = match found {
                Some(i) => i as int,
                None => before.symbols.len() as int,
            };
            assert(self.symbols[k].name@ == name@);
            assert forall|n: Seq<char>| self.has(n) == (before.has(n) || n == name@) by {
                if before.has(n) {
                    let i = before.place(n);
                    assert(self.symbols[i].name@ == n);
                }
                if self.has(n) && n != name@ {
                    let i = self.place(n);
                    assert(before.symbols[i].name@ == n);
                }
            }
            assert forall|n: Seq<char>| self.has(n) implies self.symbols[self.place(n)]@
                == before@.define(name@).bindings[n] by {
                let i = self.place(n);
                if n == name@ {
                    assert(i == k);
                } else {
                    assert(before.symbols[i].name@ == n);
                    let j = before.place(n);
                    assert(i == j);
                }
            }
            assert(self@.bindings =~= before@.define(name@).bindings);
            self.lemma_inv_wf();
        }
        symbol
    }

    /// The symbol of `name`: that of the innermost table that binds it.
    pub fn resolve(&self, name: &str) -> (r: Option<Symbol>)
        ensures
            symbol_option_view(r) == self@.resolve(name@),
            self@.wf(),
        decreases self,
    {
        proof {
            use_type_invariant(self);
            self.lemma_inv_wf();
        }
        let key = String::from_str(name);
        match self.find(&key) {
            Some(i) => {
                proof {
                    let j = self.place(name@);
                    assert(j == i);
                }
                Some(self.symbols[i].clone())
            },
            None => match &self.outer {
                Some(outer) => outer.resolve(name),
                None => None,
            },
        }
    }

    /// A deep copy of this table.
    pub fn duplicate(&self) -> (r: SymbolTable)
        ensures
            r@ == self@,
            self@.wf(),
        decreases self,
    {
        proof {
            use_type_invariant(self);
            self.lemma_inv_wf();
        }
        let mut symbols: Vec<Symbol> = Vec::new();
        let mut i: usize = 0;
        while i < self.symbols.len()
            invariant
                i <= self.symbols.len(),
                symbols.len() == i,
                forall|j: int| 0 <= j < i ==> symbols[j]@ == self.symbols[j]@,
            decreases self.symbols.len() - i,
        {
            symbols.push(self.symbols[i].clone());
            i += 1;
        }
        let outer = match &self.outer {
            Some(o) => Some(Box::new(o.duplicate())),
            None => None,
        };
        let r = SymbolTable { outer, symbols, num_definitions: self.num_definitions };
        proof {
            assert forall|n: Seq<char>| r.has(n) == self.has(n) by {
                if r.has(n) {
                    let i = r.place(n);
                    assert(self.symbols[i].name@ == n);
                }
                if self.has(n) {
                    let i = self.place(n);
                    assert(r.symbols[i].name@ == n);
                }
            }
            assert forall|n: Seq<char>| r.has(n) implies r.symbols[r.place(n)]@
                == self.symbols[self.place(n)]@ by {
                let i = r.place(n);
                let j = self.place(n);
                assert(self.symbols[i].name@ == n);
                assert(i == j);
            }
            assert(r@.bindings =~= self@.bindings);
        }
        r
    }
}

/// Defining a name in a well-formed table with a free slot leaves the table
/// well formed: every stored symbol has a slot below the number of
/// definitions, and no two names share a slot.
pub proof fn define_keeps_well_formed(t: Table, name: Seq<char>)
    requires
        t.wf(),
        t.num_definitions < usize::MAX,
    ensures
        t.define(name).wf(),
        t.define(name).num_definitions == t.num_definitions + 1,
        t.define(name).outer == t.outer,
        t.define(name).resolve(name) == Some(t.next_symbol(name)),
{
    let d = t.define(name);
    assert(d.bindings.dom() =~= t.bindings.dom().insert(name));
    assert forall|n: Seq<char>, m: Seq<char>|
        #![trigger d.bindings[n], d.bindings[m]]
        d.bindings.contains_key(n) && d.bindings.contains_key(m) && n != m implies d.bindings[n].index
        != d.bindings[m].index by {
        if n != name {
            assert(t.bindings.contains_key(n));
        }
        if m != name {
            assert(t.bindings.contains_key(m));
        }
    }
}

/// After any sequence of definitions in one table, the number of
/// definitions has grown by the length of the sequence, the definitions got
/// the slots from the old number upwards, one each, and the table is well
/// formed: every stored symbol has a slot below the number of definitions.
pub proof fn definitions_are_counted(t: Table, names: Seq<Seq<char>>)
    requires
        t.wf(),
        t.num_definitions + names.len() <= usize::MAX,
    ensures
        t.define_all(names).wf(),
        t.define_all(names).num_definitions == t.num_definitions + names.len(),
        t.define_all(names).outer == t.outer,
        forall|i: int|
            0 <= i < names.len() ==> (#[trigger] t.define_all(names.take(i))).next_symbol(
                names[i],
            ).index == t.num_definitions + i,
        forall|n: Seq<char>| #[trigger]
            t.define_all(names).bindings.contains_key(n) ==> t.define_all(names).bindings[n].index
                < t.num_definitions + names.len(),
    decreases names.len(),
{
    if names.len() > 0 {
        let front = names.drop_last();
        definitions_are_counted(t, front);
        define_keeps_well_formed(t.define_all(front), names.last());
        assert forall|i: int| 0 <= i < names.len() implies (#[trigger] t.define_all(
            names.take(i),
        )).next_symbol(names[i]).index == t.num_definitions + i by {
            if i < names.len() - 1 {
                assert(names.take(i) =~= front.take(i));
            } else {
                assert(names.take(i) =~= front);
            }
        }
    } else {
        assert forall|i: int| 0 <= i < names.len() implies (#[trigger] t.define_all(
            names.take(i),
        )).next_symbol(names[i]).index == t.num_definitions + i by {}
    }
}

/// The value of an optional boxed table.
pub open spec fn table_option_view(t: Option<Box<SymbolTable>>) -> Option<Box<Table>> {
    match t {
        Some(t) => Some(Box::new(t@)),
        None => None,
    }
}

impl Clone for SymbolTable {
    fn clone(&self) -> (r: SymbolTable)
        ensures
            r@ == self@,
    {
        self.duplicate()
    }
}

impl View for SymbolTable {
    type V = Table;

    closed spec fn view(&self) -> Table {
        self.model()
    }
}

impl View for Code {
    type V = Instr;

    open spec fn view(&self) -> Instr {
        self.model()
    }
}

impl Clone for Code {
    fn clone(&self) -> (r: Code)
        ensures
            r@ == self@,
    {
        self.duplicate()
    }
}

} // verus!
