use crate::code::Instr;
use crate::object::Value;
use vstd::prelude::*;

verus! {

/// Why the virtual machine stopped before the end of its program.
#[derive(PartialEq, Eq, Debug, Clone, Copy, Structural)]
pub enum Fault {
    /// An instruction needs more values than the stack holds.
    StackUnderflow,
    /// An operand is of a kind that the instruction does not take.
    TypeMismatch,
    /// A division by zero.
    DivisionByZero,
    /// The result of an operation on integers is no 32-bit integer.
    Overflow,
    /// A global is read that has not been written.
    MissingGlobal,
    /// A local slot lies above the stack.
    MissingLocal,
    /// The value that is called is no compiled function.
    NotAFunction,
    /// A function is called with another number of arguments than it has
    /// parameters.
    ArityMismatch,
    /// A function has fewer local slots than parameters.
    MalformedFunction,
    /// A return outside any call.
    NoFrame,
    /// The instructions of a function have run out without a return.
    MissingReturn,
}

/// What a call has put aside: the instructions that the caller has left to
/// run, and the place on the stack where the local slots of the callee begin.
pub struct Saved {
    pub code: Seq<Instr>,
    pub base: nat,
}

/// The state of the virtual machine.
pub struct Machine {
    /// One entry for each call that has not returned, innermost last.
    pub frames: Seq<Saved>,
    /// The instructions that are left of the current function, or of the
    /// main program.
    pub code: Seq<Instr>,
    /// The value stack, top last.
    pub stack: Seq<Value>,
    /// The value that the last `Pop` took off the stack.
    pub last_popped: Option<Value>,
    /// How many of the next instructions are passed over.
    pub jump: nat,
    /// The global variables, by their slot.
    pub globals: Map<usize, Value>,
}

/// The quotient of two integers, rounded toward zero.
pub open spec fn quotient(l: int, r: int) -> int {
    if l >= 0 && r > 0 {
        l / r
    } else if l >= 0 {
        -(l / (-r))
    } else if r > 0 {
        -((-l) / r)
    } else {
        (-l) / (-r)
    }
}

/// The integer `n` as a value, where it is a 32-bit integer.
pub open spec fn int_value(n: int) -> Result<Value, Fault> {
    if i32::MIN <= n <= i32::MAX {
        Ok(Value::Int(n as i32))
    } else {
        Err(Fault::Overflow)
    }
}

/// What `Add`, `Sub`, `Mul` or `Div` makes of two operands: integers are
/// added, subtracted, multiplied or divided, and texts are joined by `Add`.
pub open spec fn arithmetic(op: Instr, left: Value, right: Value) -> Result<Value, Fault> {
    match (left, right) {
        (Value::Int(l), Value::Int(r)) => match op {
            Instr::Add => int_value(l + r),
            Instr::Sub => int_value(l - r),
            Instr::Mul => int_value(l * r),
            _ => if r == 0 {
                Err(Fault::DivisionByZero)
            } else {
                int_value(quotient(l as int, r as int))
            },
        },
        (Value::Str(l), Value::Str(r)) => match op {
            Instr::Add => Ok(Value::Str(l + r)),
            _ => Err(Fault::TypeMismatch),
        },
        _ => Err(Fault::TypeMismatch),
    }
}

/// What `Equal`, `NotEqual`, `GreaterThan` or `LessThan` makes of two
/// operands: integers are compared by any of them, booleans by the first
/// two.
pub open spec fn comparison(op: Instr, left: Value, right: Value) -> Result<Value, Fault> {
    match (left, right) {
        (Value::Int(l), Value::Int(r)) => match op {
            Instr::Equal => Ok(Value::Bool(l == r)),
            Instr::NotEqual => Ok(Value::Bool(l != r)),
            Instr::GreaterThan => Ok(Value::Bool(l > r)),
            _ => Ok(Value::Bool(l < r)),
        },
        (Value::Bool(l), Value::Bool(r)) => match op {
            Instr::Equal => Ok(Value::Bool(l == r)),
            Instr::NotEqual => Ok(Value::Bool(l != r)),
            _ => Err(Fault::TypeMismatch),
        },
        _ => Err(Fault::TypeMismatch),
    }
}

/// What `Minus` or `Bang` makes of its operand: `Minus` negates an
/// integer; `Bang` negates a boolean and makes `true` of `Null`.
pub open spec fn prefix(op: Instr, operand: Value) -> Result<Value, Fault> {
    match op {
        Instr::Minus => match operand {
            Value::Int(v) => int_value(-v),
            _ => Err(Fault::TypeMismatch),
        },
        _ => match operand {
            Value::Bool(b) => Ok(Value::Bool(!b)),
            Value::Null => Ok(Value::Bool(true)),
            _ => Err(Fault::TypeMismatch),
        },
    }
}

/// Whether a conditional jump passes `v` by: all values but `false` and
/// `Null` do.
pub open spec fn truthy(v: Value) -> bool {
    v != Value::Bool(false) && v != Value::Null
}

/// The element of `items` at `index`, or `Null` where there is none.
pub open spec fn element(items: Seq<Value>, index: i32) -> Value {
    if 0 <= index < items.len() {
        items[index as int]
    } else {
        Value::Null
    }
}

/// A stack of `n` times `Null`.
pub open spec fn nulls(n: nat) -> Seq<Value> {
    Seq::new(n, |i: int| Value::Null)
}

impl Machine {
    /// The machine before the first instruction of `code`.
    pub open spec fn start(code: Seq<Instr>, globals: Map<usize, Value>) -> Machine {
        Machine {
            frames: Seq::empty(),
            code,
            stack: Seq::empty(),
            last_popped: None,
            jump: 0,
            globals,
        }
    }

    /// Whether the machine has run its program to the end.
    pub open spec fn halted(self) -> bool {
        self.code.len() == 0 && self.frames.len() == 0
    }

    /// Where the local slots of the current call begin on the stack.
    pub open spec fn base(self) -> nat {
        if self.frames.len() == 0 {
            0
        } else {
            self.frames.last().base
        }
    }

    /// This machine with `v` on top of the stack.
    pub open spec fn push(self, v: Value) -> Machine {
        Machine { stack: self.stack.push(v), ..self }
    }

    /// This machine with the two topmost values replaced by what `f` makes
    /// of them.
    pub open spec fn binary(self, r: Result<Value, Fault>) -> Result<Machine, Fault> {
        match r {
            Ok(v) => Ok(Machine { stack: self.stack.drop_last().drop_last().push(v), ..self }),
            Err(f) => Err(f),
        }
    }

    /// The machine after the innermost call is given up: all that lay on
    /// the stack from its local slots upwards is gone, and the caller goes
    /// on.
    pub open spec fn unwind(self) -> Machine {
        let saved = self.frames.last();
        let kept = if self.stack.len() > saved.base {
            self.stack.take(saved.base as int)
        } else {
            self.stack
        };
        Machine { frames: self.frames.drop_last(), code: saved.code, stack: kept, ..self }
    }

    /// The machine after a return with the value `v`: the innermost call is
    /// given up, and `v` lies on top of the stack.
    pub open spec fn leave(self, v: Value) -> Machine {
        self.unwind().push(v)
    }

    /// The machine after the instruction `i`, which is not passed over.
    pub open spec fn execute(self, i: Instr) -> Result<Machine, Fault> {
        let n = self.stack.len() as int;
        match i {
            Instr::Constant(v) => Ok(self.push(v)),
            Instr::True => Ok(self.push(Value::Bool(true))),
            Instr::False => Ok(self.push(Value::Bool(false))),
            Instr::Null => Ok(self.push(Value::Null)),
            Instr::Pop => if n < 1 {
                Err(Fault::StackUnderflow)
            } else {
                Ok(
                    Machine {
                        stack: self.stack.drop_last(),
                        last_popped: Some(self.stack.last()),
                        ..self
                    },
                )
            },
            Instr::Add | Instr::Sub | Instr::Mul | Instr::Div => if n < 2 {
                Err(Fault::StackUnderflow)
            } else {
                self.binary(arithmetic(i, self.stack[n - 2], self.stack[n - 1]))
            },
            Instr::Equal | Instr::NotEqual | Instr::GreaterThan | Instr::LessThan => if n < 2 {
                Err(Fault::StackUnderflow)
            } else {
                self.binary(comparison(i, self.stack[n - 2], self.stack[n - 1]))
            },
            Instr::Minus | Instr::Bang => if n < 1 {
                Err(Fault::StackUnderflow)
            } else {
                match prefix(i, self.stack.last()) {
                    Ok(v) => Ok(Machine { stack: self.stack.drop_last().push(v), ..self }),
                    Err(f) => Err(f),
                }
            },
            Instr::JumpNotTruthy(offset) => if n < 1 {
                Err(Fault::StackUnderflow)
            } else {
                Ok(
                    Machine {
                        stack: self.stack.drop_last(),
                        jump: if truthy(self.stack.last()) {
                            0
                        } else {
                            offset as nat
                        },
                        ..self
                    },
                )
            },
            Instr::Jump(offset) => Ok(Machine { jump: offset as nat, ..self }),
            Instr::SetGlobal(index) => if n < 1 {
                Err(Fault::StackUnderflow)
            } else {
                Ok(
                    Machine {
                        stack: self.stack.drop_last(),
                        globals: self.globals.insert(index, self.stack.last()),
                        ..self
                    },
                )
            },
            Instr::GetGlobal(index) => if self.globals.contains_key(index) {
                Ok(self.push(self.globals[index]))
            } else {
                Err(Fault::MissingGlobal)
            },
            Instr::SetLocal(index) => if n < 1 {
                Err(Fault::StackUnderflow)
            } else if self.base() + index >= n - 1 {
                Err(Fault::MissingLocal)
            } else {
                Ok(
                    Machine {
                        stack: self.stack.drop_last().update(
                            self.base() + index,
                            self.stack.last(),
                        ),
                        ..self
                    },
                )
            },
            Instr::GetLocal(index) => if self.base() + index >= n {
                Err(Fault::MissingLocal)
            } else {
                Ok(self.push(self.stack[self.base() + index]))
            },
            Instr::Array(size) => if n < size {
                Err(Fault::StackUnderflow)
            } else {
                Ok(
                    Machine {
                        stack: self.stack.take(n - size).push(Value::Array(self.stack.skip(n - size))),
                        ..self
                    },
                )
            },
            Instr::Index => if n < 2 {
                Err(Fault::StackUnderflow)
            } else {
                match (self.stack[n - 2], self.stack[n - 1]) {
                    (Value::Array(items), Value::Int(index)) => Ok(
                        Machine {
                            stack: self.stack.drop_last().drop_last().push(element(items, index)),
                            ..self
                        },
                    ),
                    _ => Err(Fault::TypeMismatch),
                }
            },
            Instr::Call(num_args) => if n < num_args + 1 {
                Err(Fault::StackUnderflow)
            } else {
                match self.stack[n - num_args - 1] {
                    Value::CompiledFunction { instructions, num_locals, num_paras } => if num_args
                        != num_paras {
                        Err(Fault::ArityMismatch)
                    } else if num_locals < num_paras {
                        Err(Fault::MalformedFunction)
                    } else {
                        Ok(
                            Machine {
                                frames: self.frames.push(
                                    Saved { code: self.code, base: (n - num_args - 1) as nat },
                                ),
                                code: instructions,
                                stack: self.stack.remove(n - num_args - 1) + nulls(
                                    (num_locals - num_paras) as nat,
                                ),
                                ..self
                            },
                        )
                    },
                    _ => Err(Fault::NotAFunction),
                }
            },
            Instr::ReturnValue => if n < 1 {
                Err(Fault::StackUnderflow)
            } else if self.frames.len() == 0 {
                Err(Fault::NoFrame)
            } else {
                Ok(Machine { stack: self.stack.drop_last(), ..self }.leave(self.stack.last()))
            },
            Instr::Return => if self.frames.len() == 0 {
                Err(Fault::NoFrame)
            } else {
                Ok(self.leave(Value::Null))
            },
        }
    }

    /// The machine one instruction further: the next instruction is passed
    /// over where a jump asks for it, and executed where not.
    pub open spec fn step(self) -> Result<Machine, Fault> {
        if self.code.len() == 0 {
            Err(Fault::MissingReturn)
        } else {
            let next = Machine { code: self.code.drop_first(), ..self };
            if self.jump > 0 {
                Ok(Machine { jump: (self.jump - 1) as nat, ..next })
            } else {
                next.execute(self.code[0])
            }
        }
    }

    /// The machine after `n` instructions, or at the end of its program if
    /// that comes earlier.
    pub open spec fn after(self, n: nat) -> Result<Machine, Fault>
        decreases n,
    {
        if n == 0 || self.halted() {
            Ok(self)
        } else {
            match self.step() {
                Ok(m) => m.after((n - 1) as nat),
                Err(f) => Err(f),
            }
        }
    }

    /// Whether the machine comes to the end of its program within `n`
    /// instructions, without a fault.
    pub open spec fn halts_within(self, n: nat) -> bool {
        match self.after(n) {
            Ok(m) => m.halted(),
            Err(_) => false,
        }
    }

    /// Whether the machine comes to the end of its program without a fault.
    pub open spec fn halts(self) -> bool {
        exists|n: nat| self.halts_within(n)
    }

    /// The machine at the end of its program, if it comes there.
    pub open spec fn end(self) -> Machine {
        self.after(choose|n: nat| self.halts_within(n))->Ok_0
    }

    /// What a run reports at its end: the top of the stack, or `Null` for
    /// an empty stack; the value that the last `Pop` took; the globals.
    pub open spec fn report(self) -> (Value, Option<Value>, Map<usize, Value>) {
        (
            if self.stack.len() > 0 {
                self.stack.last()
            } else {
                Value::Null
            },
            self.last_popped,
            self.globals,
        )
    }
}

/// A machine that comes to its end within `n` instructions is at the same
/// end after any larger number of them.
pub proof fn end_is_unique(m: Machine, n: nat, k: nat)
    requires
        m.halts_within(n),
        n <= k,
    ensures
        m.after(k) == m.after(n),
        m.halts_within(k),
    decreases n,
{
    if n == 0 || m.halted() {
    } else {
        end_is_unique(m.step()->Ok_0, (n - 1) as nat, (k - 1) as nat);
    }
}

/// The end of a machine that halts is the state after any number of
/// instructions within which it halts.
pub proof fn end_is_reached(m: Machine, n: nat)
    requires
        m.halts_within(n),
    ensures
        m.halts(),
        m.end() == m.after(n)->Ok_0,
        m.end().halted(),
{
    let c = choose|c: nat| m.halts_within(c);
    if c <= n {
        end_is_unique(m, c, n);
    } else {
        end_is_unique(m, n, c);
    }
}


/// A call and the return from it. The call of a function with as many
/// arguments as it has parameters takes the function from under its
/// arguments and opens a frame there. When the function returns a value
/// from that frame, with the stack no lower than the frame's base, the
/// caller goes on where it was, and its stack is one value taller than it
/// was under the function: what lay under the function, and the value.
pub proof fn return_restores_caller(m: Machine, num_args: usize, inside: Machine)
    requires
        m.execute(Instr::Call(num_args)) is Ok,
        inside.frames == m.execute(Instr::Call(num_args))->Ok_0.frames,
        inside.stack.len() > m.stack.len() - num_args - 1,
    ensures
        ({
            let under = m.stack.len() - num_args - 1;
            let entered = m.execute(Instr::Call(num_args))->Ok_0;
            let back = inside.execute(Instr::ReturnValue);
            &&& under >= 0
            &&& entered.base() == under
            &&& entered.jump == m.jump
            &&& entered.stack.take(under) == m.stack.take(under)
            &&& back is Ok
            &&& back->Ok_0.frames == m.frames
            &&& back->Ok_0.code == m.code
            &&& back->Ok_0.stack.len() == under + 1
            &&& back->Ok_0.stack == inside.stack.take(under).push(inside.stack.last())
        }),
{
    let under = m.stack.len() - num_args - 1;
    let entered = m.execute(Instr::Call(num_args))->Ok_0;
    let back = inside.execute(Instr::ReturnValue)->Ok_0;
    assert(entered.frames.last() == Saved { code: m.code, base: under as nat });
    assert(entered.frames.drop_last() =~= m.frames);
    assert(entered.stack.take(under) =~= m.stack.take(under));
    assert(inside.stack.drop_last().take(under) =~= inside.stack.take(under));
    if inside.stack.drop_last().len() == under {
        assert(inside.stack.drop_last() =~= inside.stack.take(under));
    }
}

} // verus!
