use crate::ast::{
    duplicate_expressions, expressions_view, Expr, Expression, Statement, Stmt,
};
use crate::code::{codes_view, duplicate_codes, Code, Instr};
use vstd::prelude::*;

verus! {

/// A runtime value.
#[derive(PartialEq, Eq, Debug)]
pub enum Object {
    Int(i32),
    Str(String),
    Bool(bool),
    Null,
    Return(Box<Object>),
    Array(Vec<Box<Object>>),
    Function { parameters: Vec<Box<Expression>>, body: Box<Statement>, env: Environment },
    CompiledFunction { instructions: Vec<Code>, num_locals: usize, num_paras: usize },
}

/// The variables of one scope of the tree-walking evaluator, and the scope
/// around it. No name occurs twice among the variables of one scope.
#[derive(PartialEq, Eq, Debug)]
pub struct Environment {
    env: Vec<(String, Object)>,
    outer: Option<Box<Environment>>,
}

/// The mathematical value of an [`Object`].
pub enum Value {
    Int(i32),
    Str(Seq<char>),
    Bool(bool),
    Null,
    Return(Box<Value>),
    Array(Seq<Value>),
    Function { parameters: Seq<Expr>, body: Box<Stmt>, env: Env },
    CompiledFunction { instructions: Seq<Instr>, num_locals: usize, num_paras: usize },
}

/// The mathematical value of an [`Environment`]: the variables of the
/// innermost scope in the order of their first definition, and the scope
/// around it.
pub struct Env {
    pub vars: Seq<(Seq<char>, Value)>,
    pub outer: Option<Box<Env>>,
}

/// The place of the first variable named `key` among `vars`, if there is
/// one.
pub open spec fn variable_place(vars: Seq<(Seq<char>, Value)>, key: Seq<char>) -> Option<int>
    decreases vars.len(),
{
    if vars.len() == 0 {
        None
    } else {
        match variable_place(vars.drop_last(), key) {
            Some(i) => Some(i),
            None => if vars.last().0 == key {
                Some(vars.len() - 1)
            } else {
                None
            },
        }
    }
}

/// The first variable named `key` stands at its place, and nowhere before.
pub proof fn variable_place_is_first(vars: Seq<(Seq<char>, Value)>, key: Seq<char>)
    ensures
        match variable_place(vars, key) {
            Some(i) => 0 <= i < vars.len() && vars[i].0 == key && forall|j: int|
                0 <= j < i ==> (#[trigger] vars[j]).0 != key,
            None => forall|j: int| 0 <= j < vars.len() ==> (#[trigger] vars[j]).0 != key,
        },
    decreases vars.len(),
{
    if vars.len() > 0 {
        variable_place_is_first(vars.drop_last(), key);
        match variable_place(vars.drop_last(), key) {
            Some(i) => {
                assert(vars.drop_last()[i] == vars[i]);
                assert forall|j: int| 0 <= j < i implies (#[trigger] vars[j]).0 != key by {
                    assert(vars.drop_last()[j] == vars[j]);
                }
            },
            None => {
                assert forall|j: int| 0 <= j < vars.len() - 1 implies (#[trigger] vars[j]).0
                    != key by {
                    assert(vars.drop_last()[j] == vars[j]);
                }
            },
        }
    }
}

impl Env {
    /// The outermost scope, with no variables.
    pub open spec fn empty() -> Env {
        Env { vars: Seq::empty(), outer: None }
    }

    /// A scope without variables inside `outer`.
    pub open spec fn inside(outer: Env) -> Env {
        Env { vars: Seq::empty(), outer: Some(Box::new(outer)) }
    }

    /// The value of the variable `key`: that of the innermost scope that
    /// has one of that name.
    pub open spec fn lookup(self, key: Seq<char>) -> Option<Value>
        decreases self,
    {
        match variable_place(self.vars, key) {
            Some(i) => Some(self.vars[i].1),
            None => match self.outer {
                Some(o) => o.lookup(key),
                None => None,
            },
        }
    }

    /// The environment in which the variable `key` of the innermost scope is set
    /// to `value`: in place, where the scope has the variable, and as a new
    /// variable where not.
    pub open spec fn set(self, key: Seq<char>, value: Value) -> Env {
        Env {
            vars: match variable_place(self.vars, key) {
                Some(i) => self.vars.update(i, (key, value)),
                None => self.vars.push((key, value)),
            },
            outer: self.outer,
        }
    }
}

/// A variable that has been set has the value that it was set to.
pub proof fn set_then_lookup(env: Env, key: Seq<char>, value: Value)
    ensures
        env.set(key, value).lookup(key) == Some(value),
{
    let after = env.set(key, value);
    variable_place_is_first(env.vars, key);
    variable_place_is_first(after.vars, key);
    let place: int = match variable_place(env.vars, key) {
        Some(i) => i,
        None => env.vars.len() as int,
    };
    assert(after.vars[place] == (key, value));
    match variable_place(after.vars, key) {
        Some(j) => {
            if j < place {
                assert(env.vars[j].0 != key);
                assert(after.vars[j] == env.vars[j]);
            }
        },
        None => {},
    }
}

/// Setting a variable leaves the variables of other names as they are.
pub proof fn set_keeps_others(env: Env, key: Seq<char>, value: Value, other: Seq<char>)
    requires
        other != key,
    ensures
        env.set(key, value).lookup(other) == env.lookup(other),
{
    let after = env.set(key, value);
    variable_place_is_first(env.vars, key);
    variable_place_is_first(env.vars, other);
    variable_place_is_first(after.vars, other);
    match variable_place(env.vars, other) {
        Some(i) => {
            assert(after.vars[i].0 == other);
            match variable_place(after.vars, other) {
                Some(j) => {
                    if j < i {
                        assert(env.vars[j].0 != other);
                    }
                },
                None => {},
            }
        },
        None => {
            match variable_place(after.vars, other) {
                Some(j) => {
                    if j < env.vars.len() {
                        assert(env.vars[j].0 != other);
                    }
                },
                None => {},
            }
        },
    }
}

/// The digits that write the number `n` in base ten.
pub open spec fn digits_text(n: nat) -> Seq<char>
    decreases n,
{
    if n < 10 {
        seq![('0' as int + n) as char]
    } else {
        digits_text(n / 10).push(('0' as int + n % 10) as char)
    }
}

/// The integer `n` written in base ten, with a minus sign where it is
/// negative.
pub open spec fn int_text(n: int) -> Seq<char> {
    if n < 0 {
        seq!['-'] + digits_text((-n) as nat)
    } else {
        digits_text(n as nat)
    }
}

/// The texts of the first `n` of `items`, `n` being one at least, with a
/// comma and a space between them.
pub open spec fn joined_text(items: Seq<Value>, n: nat) -> Seq<char>
    decreases items, n,
{
    if n == 0 || n > items.len() {
        Seq::empty()
    } else if n == 1 {
        items[0].text()
    } else {
        joined_text(items, (n - 1) as nat) + seq![',', ' '] + items[n - 1].text()
    }
}

impl Value {
    /// The text that shows this value. An array shows its items in square
    /// brackets, with the one exception that an empty array shows as the
    /// closing bracket alone.
    pub open spec fn text(self) -> Seq<char>
        decreases self,
    {
        match self {
            Value::Int(n) => int_text(n as int),
            Value::Str(s) => s,
            Value::Bool(b) => if b {
                seq!['t', 'r', 'u', 'e']
            } else {
                seq!['f', 'a', 'l', 's', 'e']
            },
            Value::Null => seq!['N', 'u', 'l', 'l'],
            Value::Return(inner) => inner.text(),
            Value::Array(items) => if items.len() == 0 {
                seq![']']
            } else {
                seq!['['] + joined_text(items, items.len()) + seq![']']
            },
            Value::Function { .. } => seq!['f', 'u', 'n', 'c', 't', 'i', 'o', 'n'],
            Value::CompiledFunction { .. } => seq![
                'c',
                'o',
                'm',
                'p',
                'i',
                'l',
                'e',
                'd',
                ' ',
                'f',
                'u',
                'n',
                'c',
                't',
                'i',
                'o',
                'n',
            ],
        }
    }
}

/// Writes a 32-bit integer in base ten.
pub fn i32_to_text(n: i32) -> (r: String)
    ensures
        r@ == int_text(n as int),
{
    let wide: i64 = n as i64;
    let mut rest: u64 = if wide < 0 {
        (-wide) as u64
    } else {
        wide as u64
    };
    let ghost whole = rest as nat;
    // The digits, the last one first.
    let mut digits: Vec<char> = Vec::new();
    let last: u8 = (rest % 10) as u8;
    digits.push((48 + last) as char);
    rest = rest / 10;
    let ghost mut tail: Seq<char> = seq![('0' as int + whole % 10) as char];
    while rest > 0
        invariant
            digits@.len() > 0,
            digits@.reverse() == tail,
            digits_text(whole) == (if rest > 0 {
                digits_text(rest as nat) + tail
            } else {
                tail
            }),
        decreases rest,
    {
        let d: u8 = (rest % 10) as u8;
        let ghost r0 = rest as nat;
        digits.push((48 + d) as char);
        rest = rest / 10;
        proof {
            let c = ('0' as int + r0 % 10) as char;
            assert(digits@.reverse() =~= seq![c] + tail);
            if rest > 0 {
                assert(digits_text(r0) == digits_text(rest as nat).push(c));
                assert(digits_text(rest as nat).push(c) + tail =~= digits_text(rest as nat) + (
                    seq![c] + tail));
            } else {
                assert(digits_text(r0) == seq![c]);
            }
            tail = seq![c] + tail;
        }
    }
    let mut text = String::new();
    if wide < 0 {
        text.push('-');
    }
    let ghost sign = text@;
    let mut i: usize = digits.len();
    while i > 0
        invariant
            i <= digits.len(),
            text@ == sign + digits@.reverse().take(digits.len() - i),
        decreases i,
    {
        i -= 1;
        text.push(digits[i]);
        assert(digits@.reverse().take(digits.len() - i) =~= digits@.reverse().take(
            digits.len() - i - 1,
        ).push(digits@[i as int]));
    }
    assert(digits@.reverse().take(digits.len() as int) =~= digits@.reverse());
    assert(Seq::<char>::empty() + tail =~= tail);
    text
}

/// The texts of the objects of a list, with a comma and a space between
/// them.
pub fn join_texts(vec: &Vec<Box<Object>>) -> (r: String)
    requires
        vec.len() > 0,
    ensures
        r@ == joined_text(boxed_objects_view(vec@), vec.len() as nat),
    decreases vec,
{
    proof {
        reveal_strlit(", ");
        assert(", "@ =~= seq![',', ' ']);
    }
    let ghost items = boxed_objects_view(vec@);
    let mut s = vec[0].to_text();
    let mut i: usize = 1;
    while i < vec.len()
        invariant
            1 <= i <= vec.len(),
            items == boxed_objects_view(vec@),
            s@ == joined_text(items, i as nat),
            ", "@ == seq![',', ' '],
        decreases vec.len() - i,
    {
        s.append(", ");
        let item = vec[i].to_text();
        s.append(item.as_str());
        i += 1;
    }
    s
}

impl Object {
    /// The text that shows this object.
    pub fn to_text(&self) -> (r: String)
        ensures
            r@ == self@.text(),
        decreases self,
    {
        proof {
            reveal_strlit("true");
            reveal_strlit("false");
            reveal_strlit("Null");
            reveal_strlit("function");
            reveal_strlit("compiled function");
            reveal_strlit("]");
            reveal_strlit("[");
            reveal_strlit(", ");
            assert("true"@ =~= seq!['t', 'r', 'u', 'e']);
            assert("false"@ =~= seq!['f', 'a', 'l', 's', 'e']);
            assert("Null"@ =~= seq!['N', 'u', 'l', 'l']);
            assert("function"@ =~= seq!['f', 'u', 'n', 'c', 't', 'i', 'o', 'n']);
            assert("compiled function"@ =~= seq![
                'c',
                'o',
                'm',
                'p',
                'i',
                'l',
                'e',
                'd',
                ' ',
                'f',
                'u',
                'n',
                'c',
                't',
                'i',
                'o',
                'n',
            ]);
            assert("]"@ =~= seq![']']);
            assert("["@ =~= seq!['[']);
            assert(", "@ =~= seq![',', ' ']);
        }
        match self {
            Object::Int(v) => i32_to_text(*v),
            Object::Str(s) => s.clone(),
            Object::Bool(v) => if *v {
                String::from_str("true")
            } else {
                String::from_str("false")
            },
            Object::Null => String::from_str("Null"),
            Object::Return(obj) => obj.to_text(),
            Object::Array(vec) => {
                assert(boxed_objects_view(vec@).len() == vec.len());
                if vec.len() == 0 {
                    return String::from_str("]");
                }
                let mut s = String::from_str("[");
                let items = join_texts(vec);
                s.append(items.as_str());
                s.append("]");
                s
            },
            Object::Function { .. } => String::from_str("function"),
            Object::CompiledFunction { .. } => String::from_str("compiled function"),
        }
    }

    /// The value of this object.
    pub open spec fn model(&self) -> Value
        decreases self,
    {
        match self {
            Object::Int(v) => Value::Int(*v),
            Object::Str(s) => Value::Str(s@),
            Object::Bool(b) => Value::Bool(*b),
            Object::Null => Value::Null,
            Object::Return(o) => Value::Return(Box::new(o.model())),
            Object::Array(os) => Value::Array(boxed_objects_view(os@)),
            Object::Function { parameters, body, env } => Value::Function {
                parameters: expressions_view(parameters@),
                body: Box::new(body@),
                env: env.model(),
            },
            Object::CompiledFunction { instructions, num_locals, num_paras } => {
                Value::CompiledFunction {
                    instructions: codes_view(instructions@),
                    num_locals: *num_locals,
                    num_paras: *num_paras,
                }
            },
        }
    }

    /// A deep copy of this object.
    pub fn duplicate(&self) -> (r: Object)
        ensures
            r@ == self@,
        decreases self,
    {
        match self {
            Object::Int(v) => Object::Int(*v),
            Object::Str(s) => Object::Str(s.clone()),
            Object::Bool(b) => Object::Bool(*b),
            Object::Null => Object::Null,
            Object::Return(o) => Object::Return(Box::new(o.duplicate())),
            Object::Array(os) => Object::Array(duplicate_boxed_objects(os)),
            Object::Function { parameters, body, env } => Object::Function {
                parameters: duplicate_expressions(parameters),
                body: Box::new(body.duplicate()),
                env: env.duplicate(),
            },
            Object::CompiledFunction { instructions, num_locals, num_paras } => {
                Object::CompiledFunction {
                    instructions: duplicate_codes(instructions),
                    num_locals: *num_locals,
                    num_paras: *num_paras,
                }
            },
        }
    }
}

/// The value of an optional object.
pub open spec fn object_option_view(o: Option<Object>) -> Option<Value> {
    match o {
        Some(o) => Some(o@),
        None => None,
    }
}

/// The values of a list of boxed objects, in order.
pub open spec fn boxed_objects_view(os: Seq<Box<Object>>) -> Seq<Value>
    decreases os,
{
    Seq::new(os.len(), |i: int| if 0 <= i < os.len() { os[i].model() } else { arbitrary() })
}

/// The values of a list of objects, in order.
pub open spec fn objects_view(os: Seq<Object>) -> Seq<Value>
    decreases os,
{
    Seq::new(os.len(), |i: int| if 0 <= i < os.len() { os[i].model() } else { arbitrary() })
}

/// The values of a list of named objects, in order.
pub open spec fn bindings_view(vars: Seq<(String, Object)>) -> Seq<(Seq<char>, Value)>
    decreases vars,
{
    Seq::new(
        vars.len(),
        |i: int| if 0 <= i < vars.len() { (vars[i].0@, vars[i].1.model()) } else { arbitrary() },
    )
}

/// A deep copy of a list of boxed objects.
pub fn duplicate_boxed_objects(os: &Vec<Box<Object>>) -> (r: Vec<Box<Object>>)
    ensures
        boxed_objects_view(r@) == boxed_objects_view(os@),
    decreases os,
{
    let mut out: Vec<Box<Object>> = Vec::new();
    let mut i: usize = 0;
    while i < os.len()
        invariant
            i <= os.len(),
            out.len() == i,
            forall|j: int| 0 <= j < i ==> out[j]@ == os[j]@,
        decreases os.len() - i,
    {
        out.push(Box::new(os[i].duplicate()));
        i += 1;
    }
    assert(boxed_objects_view(out@) =~= boxed_objects_view(os@));
    out
}

/// A deep copy of a list of named objects.
pub fn duplicate_bindings(vars: &Vec<(String, Object)>) -> (r: Vec<(String, Object)>)
    ensures
        bindings_view(r@) == bindings_view(vars@),
    decreases vars,
{
    let mut out: Vec<(String, Object)> = Vec::new();
    let mut i: usize = 0;
    while i < vars.len()
        invariant
            i <= vars.len(),
            out.len() == i,
            forall|j: int| 0 <= j < i ==> out[j].0@ == vars[j].0@ && out[j].1@ == vars[j].1@,
        decreases vars.len() - i,
    {
        out.push((vars[i].0.clone(), vars[i].1.duplicate()));
        i += 1;
    }
    assert(bindings_view(out@) =~= bindings_view(vars@));
    out
}

impl Environment {
    /// The value of the environment.
    pub closed spec fn model(&self) -> Env
        decreases self,
    {
        Env {
            vars: bindings_view(self.env@),
            outer: match self.outer {
                Some(o) => Some(Box::new(o.model())),
                None => None,
            },
        }
    }

    /// The outermost scope, with no variables.
    pub fn new() -> (r: Environment)
        ensures
            r@ == Env::empty(),
    {
        let r = Environment { env: Vec::new(), outer: None };
        assert(bindings_view(r.env@) =~= Seq::<(Seq<char>, Value)>::empty());
        r
    }

    /// A scope without variables inside `outer`.
    pub fn init(outer: Environment) -> (r: Environment)
        ensures
            r@ == Env::inside(outer@),
    {
        let r = Environment { env: Vec::new(), outer: Some(Box::new(outer)) };
        assert(bindings_view(r.env@) =~= Seq::<(Seq<char>, Value)>::empty());
        r
    }

    /// The variables of the innermost scope are the values of the stored
    /// ones.
    proof fn lemma_vars(&self)
        ensures
            self@.vars.len() == self.env.len(),
            forall|i: int|
                0 <= i < self.env.len() ==> #[trigger] self@.vars[i] == (
                    self.env[i].0@,
                    self.env[i].1@,
                ),
    {
        assert(self@.vars == bindings_view(self.env@));
    }

    /// The place of the variable named `key` in the innermost scope, if it
    /// has one.
    fn place(&self, key: &String) -> (r: Option<usize>)
        ensures
            match r {
                Some(i) => variable_place(self@.vars, key@) == Some(i as int) && i
                    < self.env.len(),
                None => variable_place(self@.vars, key@) is None,
            },
    {
        let mut i: usize = 0;
        proof {
            variable_place_is_first(self@.vars, key@);
            self.lemma_vars();
        }
        while i < self.env.len()
            invariant
                i <= self.env.len(),
                self@.vars.len() == self.env.len(),
                forall|j: int|
                    0 <= j < self.env.len() ==> #[trigger] self@.vars[j] == (
                        self.env[j].0@,
                        self.env[j].1@,
                    ),
                forall|j: int| 0 <= j < i ==> (#[trigger] self@.vars[j]).0 != key@,
                match variable_place(self@.vars, key@) {
                    Some(k) => 0 <= k < self@.vars.len() && self@.vars[k].0 == key@ && forall|j: int|
                        0 <= j < k ==> (#[trigger] self@.vars[j]).0 != key@,
                    None => forall|j: int|
                        0 <= j < self@.vars.len() ==> (#[trigger] self@.vars[j]).0 != key@,
                },
            decreases self.env.len() - i,
        {
            if self.env[i].0 == *key {
                assert(self@.vars[i as int].0 == key@);
                return Some(i);
            }
            assert(self@.vars[i as int].0 != key@);
            i += 1;
        }
        None
    }

    /// A copy of the value of the variable `key`, if a scope has one of
    /// that name.
    pub fn lookup(&self, key: &String) -> (r: Option<Object>)
        ensures
            object_option_view(r) == self@.lookup(key@),
        decreases self,
    {
        proof {
            self.lemma_vars();
        }
        match self.place(key) {
            Some(i) => Some(self.env[i].1.duplicate()),
            None => match &self.outer {
                Some(outer) => outer.lookup(key),
                None => None,
            },
        }
    }

    /// A copy of the value of the variable `key`, which a scope must have.
    pub fn get(&self, key: &String) -> (r: Option<Object>)
        requires
            self@.lookup(key@) is Some,
        ensures
            object_option_view(r) == self@.lookup(key@),
    {
        self.lookup(key)
    }

    /// Sets the variable `key` of the innermost scope to `value`.
    pub fn set(&mut self, key: String, value: Object)
        ensures
            final(self)@ == old(self)@.set(key@, value@),
    {
        proof {
            self.lemma_vars();
        }
        match self.place(&key) {
            Some(i) => {
                self.env.set(i, (key, value));
                proof {
                    self.lemma_vars();
                }
                assert(self@.vars =~= old(self)@.vars.update(i as int, (key@, value@)));
            },
            None => {
                self.env.push((key, value));
                proof {
                    self.lemma_vars();
                }
                assert(self@.vars =~= old(self)@.vars.push((key@, value@)));
            },
        }
    }

    /// A deep copy of the environment.
    pub fn duplicate(&self) -> (r: Environment)
        ensures
            r@ == self@,
        decreases self,
    {
        Environment {
            env: duplicate_bindings(&self.env),
            outer: match &self.outer {
                Some(o) => Some(Box::new(o.duplicate())),
                None => None,
            },
        }
    }
}

impl View for Object {
    type V = Value;

    open spec fn view(&self) -> Value {
        self.model()
    }
}

impl View for Environment {
    type V = Env;

    open spec fn view(&self) -> Env {
        self.model()
    }
}

impl Clone for Object {
    fn clone(&self) -> (r: Object)
        ensures
            r@ == self@,
    {
        self.duplicate()
    }
}

impl Clone for Environment {
    fn clone(&self) -> (r: Environment)
        ensures
            r@ == self@,
    {
        self.duplicate()
    }
}

} // verus!
