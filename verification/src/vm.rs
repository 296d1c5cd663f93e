use crate::code::{codes_view, Code, Instr};
use crate::machine::{
    arithmetic, comparison, element, end_is_reached, int_value, nulls, prefix, quotient, truthy,
    Fault, Machine, Saved,
};
use crate::object::{boxed_objects_view, object_option_view, objects_view, Object, Value};
use std::collections::HashMap;
use vstd::prelude::*;

verus! {

broadcast use vstd::std_specs::hash::group_hash_axioms;

/// What a call has put aside: the instructions of the caller with the place
/// of its next instruction, and the place on the stack where the local
/// slots of the callee begin.
struct Frame {
    instructions: Vec<Code>,
    pc: usize,
    base: usize,
}

/// The instructions that are left of `instructions` from the place `pc`
/// on; none where the place lies behind them.
pub open spec fn remaining(instructions: Seq<Code>, pc: usize) -> Seq<Instr> {
    if pc <= instructions.len() {
        codes_view(instructions).skip(pc as int)
    } else {
        Seq::empty()
    }
}

/// The values of the globals, by their slot.
pub open spec fn globals_view(globals: Map<usize, Object>) -> Map<usize, Value> {
    Map::new(|k: usize| globals.contains_key(k), |k: usize| globals[k]@)
}

/// The values of what a run reports.
pub open spec fn report_view(r: (Object, Option<Object>, HashMap<usize, Object>)) -> (
    Value,
    Option<Value>,
    Map<usize, Value>,
) {
    (r.0@, object_option_view(r.1), globals_view(r.2@))
}

/// The quotient of two 32-bit integers, rounded toward zero.
fn divide(l: i32, r: i32) -> (q: Result<i32, Fault>)
    requires
        r != 0,
    ensures
        match int_value(quotient(l as int, r as int)) {
            Ok(v) => q is Ok && Value::Int(q->Ok_0) == v,
            Err(f) => q == Err::<i32, Fault>(f),
        },
{
    let a: i64 = l as i64;
    let b: i64 = r as i64;
    let ua: u64 = if a < 0 {
        (-a) as u64
    } else {
        a as u64
    };
    let ub: u64 = if b < 0 {
        (-b) as u64
    } else {
        b as u64
    };
    let uq: u64 = ua / ub;
    assert(uq <= ua) by (nonlinear_arith)
        requires
            uq == ua / ub,
            ub >= 1,
    ;
    let q: i64 = if (a < 0) != (b < 0) {
        -(uq as i64)
    } else {
        uq as i64
    };
    if q > 2147483647 {
        Err(Fault::Overflow)
    } else {
        Ok(q as i32)
    }
}

/// A stack machine that runs the instructions of the compiler.
pub struct VM {
    frames: Vec<Frame>,
    instructions: Vec<Code>,
    pc: usize,
    stack: Vec<Object>,
    last_popped: Option<Object>,
    jump: usize,
    globals: HashMap<usize, Object>,
}

impl Frame {
    /// The value of this frame.
    spec fn model(&self) -> Saved {
        Saved { code: remaining(self.instructions@, self.pc), base: self.base as nat }
    }
}

impl VM {
    /// The state of this machine.
    pub closed spec fn model(&self) -> Machine {
        Machine {
            frames: Seq::new(self.frames.len() as nat, |i: int| self.frames[i].model()),
            code: remaining(self.instructions@, self.pc),
            stack: objects_view(self.stack@),
            last_popped: object_option_view(self.last_popped),
            jump: self.jump as nat,
            globals: globals_view(self.globals@),
        }
    }

    /// A machine before the first of `instructions`, with the globals that
    /// an earlier run has left.
    pub fn new(instructions: Vec<Code>, globals: HashMap<usize, Object>) -> (r: VM)
        ensures
            r@ == Machine::start(codes_view(instructions@), globals_view(globals@)),
    {
        let r = VM {
            frames: Vec::new(),
            instructions,
            pc: 0,
            stack: Vec::new(),
            last_popped: None,
            jump: 0,
            globals,
        };
        assert(r@.frames =~= Seq::<Saved>::empty());
        assert(r@.stack =~= Seq::<Value>::empty());
        assert(r@.code =~= codes_view(instructions@));
        r
    }

    /// Whether the program has run to its end.
    pub fn halted(&self) -> (r: bool)
        ensures
            r == self@.halted(),
    {
        self.pc >= self.instructions.len() && self.frames.len() == 0
    }

    /// Puts `value` on the stack.
    fn push(&mut self, value: Object)
        ensures
            final(self)@ == old(self)@.push(value@),
    {
        self.stack.push(value);
        assert(self@.stack =~= old(self)@.stack.push(value@));
        assert(self@.frames =~= old(self)@.frames);
    }

    /// Takes the topmost value off the stack.
    fn pop(&mut self) -> (r: Object)
        requires
            old(self)@.stack.len() > 0,
        ensures
            r@ == old(self)@.stack.last(),
            final(self)@ == (Machine { stack: old(self)@.stack.drop_last(), ..old(self)@ }),
    {
        let r = self.stack.pop().unwrap();
        assert(self@.stack =~= old(self)@.stack.drop_last());
        assert(self@.frames =~= old(self)@.frames);
        r
    }

    /// How many values lie on the stack.
    fn depth(&self) -> (r: usize)
        ensures
            r == self@.stack.len(),
    {
        self.stack.len()
    }

    /// Where the local slots of the current call begin on the stack.
    fn base(&self) -> (r: usize)
        ensures
            r == self@.base(),
    {
        let n = self.frames.len();
        if n == 0 {
            0
        } else {
            self.frames[n - 1].base
        }
    }

    /// What a step with the result `r` has to achieve: where the
    /// instruction leads to a machine, the step succeeds and this is that
    /// machine; where it leads to a fault, the step fails with it.
    pub open spec fn achieves(&self, r: Result<(), Fault>, spec: Result<Machine, Fault>) -> bool {
        match spec {
            Ok(m) => r is Ok && self@ == m,
            Err(f) => r == Err::<(), Fault>(f),
        }
    }

    /// Runs the next instruction, or passes it over where a jump asks for
    /// it.
    pub fn step(&mut self) -> (r: Result<(), Fault>)
        ensures
            final(self).achieves(r, old(self)@.step()),
    {
        let pc = self.pc;
        if pc >= self.instructions.len() {
            return Err(Fault::MissingReturn);
        }
        self.pc = pc + 1;
        assert(self@.code =~= old(self)@.code.drop_first());
        assert(self@.frames =~= old(self)@.frames);
        if self.jump > 0 {
            self.jump = self.jump - 1;
            assert(self@.frames =~= old(self)@.frames);
            Ok(())
        } else {
            let code = self.instructions[pc].duplicate();
            self.execute(code)
        }
    }

    /// What the machine reports as it stands: the top of the stack, or
    /// `Null` for an empty stack; the value that the last `Pop` took; the
    /// globals.
    pub fn finish(self) -> (r: (Object, Option<Object>, HashMap<usize, Object>))
        ensures
            report_view(r) == self@.report(),
    {
        let mut stack = self.stack;
        let top = match stack.pop() {
            Some(value) => value,
            None => Object::Null,
        };
        (top, self.last_popped, self.globals)
    }

    /// Runs the program to its end and reports the top of the stack, the
    /// value that the last `Pop` took, and the globals.
    pub fn run(self) -> (r: (Object, Option<Object>, HashMap<usize, Object>))
        requires
            self@.halts(),
        ensures
            report_view(r) == self@.end().report(),
    {
        let mut vm = self;
        let ghost mut left: nat = choose|n: nat| self@.halts_within(n);
        proof {
            end_is_reached(self@, left);
        }
        while !vm.halted()
            invariant
                vm@.halts_within(left),
                vm@.after(left) == Ok::<Machine, Fault>(self@.end()),
            decreases left,
        {
            let _ = vm.step();
            proof {
                left = (left - 1) as nat;
            }
        }
        vm.finish()
    }

    /// Executes one instruction.
    fn execute(&mut self, code: Code) -> (r: Result<(), Fault>)
        ensures
            final(self).achieves(r, old(self)@.execute(code@)),
    {
        match code {
            Code::Constant(obj) => {
                self.push(obj);
                Ok(())
            },
            Code::Add => self.execute_arithmetic(Code::Add),
            Code::Sub => self.execute_arithmetic(Code::Sub),
            Code::Mul => self.execute_arithmetic(Code::Mul),
            Code::Div => self.execute_arithmetic(Code::Div),
            Code::Equal => self.execute_comparison(Code::Equal),
            Code::NotEqual => self.execute_comparison(Code::NotEqual),
            Code::GreaterThan => self.execute_comparison(Code::GreaterThan),
            Code::LessThan => self.execute_comparison(Code::LessThan),
            Code::True => {
                self.push(Object::Bool(true));
                Ok(())
            },
            Code::False => {
                self.push(Object::Bool(false));
                Ok(())
            },
            Code::Minus => self.execute_prefix(Code::Minus),
            Code::Bang => self.execute_prefix(Code::Bang),
            Code::Pop => {
                if self.depth() < 1 {
                    return Err(Fault::StackUnderflow);
                }
                let value = self.pop();
                self.last_popped = Some(value);
                assert(self@.frames =~= old(self)@.frames);
                Ok(())
            },
            Code::JumpNotTruthy(offset) => self.execute_jump_not_truthy(offset),
            Code::Jump(offset) => {
                self.execute_jump(offset);
                Ok(())
            },
            Code::Null => {
                self.push(Object::Null);
                Ok(())
            },
            Code::SetGlobal(index) => {
                if self.depth() < 1 {
                    return Err(Fault::StackUnderflow);
                }
                let value = self.pop();
                self.globals.insert(index, value);
                assert(self@.globals =~= old(self)@.globals.insert(index, value@));
                assert(self@.frames =~= old(self)@.frames);
                Ok(())
            },
            Code::GetGlobal(index) => {
                let value = match self.globals.get(&index) {
                    Some(value) => value.duplicate(),
                    None => {
                        return Err(Fault::MissingGlobal);
                    },
                };
                self.push(value);
                Ok(())
            },
            Code::Array(size) => self.execute_array(size),
            Code::Index => self.execute_index(),
            Code::ReturnValue => self.execute_return_value(),
            Code::Return => self.execute_return(),
            Code::Call(num_args) => self.execute_call(num_args),
            Code::SetLocal(index) => {
                if self.depth() < 1 {
                    return Err(Fault::StackUnderflow);
                }
                let slot = match self.base().checked_add(index) {
                    Some(slot) => slot,
                    None => {
                        return Err(Fault::MissingLocal);
                    },
                };
                if slot >= self.depth() - 1 {
                    return Err(Fault::MissingLocal);
                }
                let value = self.pop();
                let ghost v = value@;
                self.stack.set(slot, value);
                assert(self@.stack =~= old(self)@.stack.drop_last().update(slot as int, v));
                assert(self@.frames =~= old(self)@.frames);
                Ok(())
            },
            Code::GetLocal(index) => {
                let depth = self.depth();
                let slot = match self.base().checked_add(index) {
                    Some(slot) => slot,
                    None => {
                        return Err(Fault::MissingLocal);
                    },
                };
                if slot >= depth {
                    return Err(Fault::MissingLocal);
                }
                let value = self.stack[slot].duplicate();
                self.push(value);
                Ok(())
            },
        }
    }

    /// Puts the instructions of the caller aside and takes up
    /// `instructions`, those of a function whose local slots begin at `base`.
    fn push_frame(&mut self, instructions: Vec<Code>, base: usize)
        ensures
            final(self)@ == (Machine {
                frames: old(self)@.frames.push(Saved { code: old(self)@.code, base: base as nat }),
                code: codes_view(instructions@),
                ..old(self)@
            }),
    {
        let mut callee = instructions;
        core::mem::swap(&mut self.instructions, &mut callee);
        self.frames.push(Frame { instructions: callee, pc: self.pc, base });
        self.pc = 0;
        assert(self@.frames =~= old(self)@.frames.push(
            Saved { code: old(self)@.code, base: base as nat },
        ));
        assert(self@.code =~= codes_view(instructions@));
    }

    /// Ends the innermost call: takes up the instructions of the caller and
    /// drops all that lies on the stack from the local slots upwards.
    fn pop_frame(&mut self)
        requires
            old(self)@.frames.len() > 0,
        ensures
            final(self)@ == old(self)@.unwind(),
    {
        let frame = self.frames.pop().unwrap();
        self.instructions = frame.instructions;
        self.pc = frame.pc;
        self.stack.truncate(frame.base);
        assert(self@.frames =~= old(self)@.frames.drop_last());
        assert(old(self)@.frames.last() == frame.model());
        assert(self@.stack =~= if old(self)@.stack.len() > frame.base {
            old(self)@.stack.take(frame.base as int)
        } else {
            old(self)@.stack
        });
    }

    /// Executes `Add`, `Sub`, `Mul` or `Div` on the two topmost values.
    fn execute_arithmetic(&mut self, op: Code) -> (r: Result<(), Fault>)
        requires
            op is Add || op is Sub || op is Mul || op is Div,
        ensures
            final(self).achieves(r, old(self)@.execute(op@)),
    {
        if self.depth() < 2 {
            return Err(Fault::StackUnderflow);
        }
        let right = self.pop();
        let left = self.pop();
        let ghost spec = arithmetic(op@, left@, right@);
        let computed: Result<Object, Fault> = match (left, right) {
            (Object::Int(l), Object::Int(r)) => {
                let value: Option<i32> = match op {
                    Code::Add => l.checked_add(r),
                    Code::Sub => l.checked_sub(r),
                    Code::Mul => l.checked_mul(r),
                    _ => {
                        if r == 0 {
                            return Err(Fault::DivisionByZero);
                        }
                        match divide(l, r) {
                            Ok(q) => Some(q),
                            Err(_) => None,
                        }
                    },
                };
                match value {
                    Some(v) => Ok(Object::Int(v)),
                    None => Err(Fault::Overflow),
                }
            },
            (Object::Str(l), Object::Str(r)) => match op {
                Code::Add => Ok(Object::Str(l.concat(r.as_str()))),
                _ => Err(Fault::TypeMismatch),
            },
            _ => Err(Fault::TypeMismatch),
        };
        match computed {
            Ok(value) => {
                assert(spec == Ok::<Value, Fault>(value@));
                self.push(value);
                Ok(())
            },
            Err(f) => {
                assert(spec == Err::<Value, Fault>(f));
                Err(f)
            },
        }
    }

    /// Executes `Equal`, `NotEqual`, `GreaterThan` or `LessThan` on the two
    /// topmost values.
    fn execute_comparison(&mut self, op: Code) -> (r: Result<(), Fault>)
        requires
            op is Equal || op is NotEqual || op is GreaterThan || op is LessThan,
        ensures
            final(self).achieves(r, old(self)@.execute(op@)),
    {
        if self.depth() < 2 {
            return Err(Fault::StackUnderflow);
        }
        let right = self.pop();
        let left = self.pop();
        let ghost spec = comparison(op@, left@, right@);
        let computed: Result<bool, Fault> = match (left, right) {
            (Object::Int(l), Object::Int(r)) => match op {
                Code::Equal => Ok(l == r),
                Code::NotEqual => Ok(l != r),
                Code::GreaterThan => Ok(l > r),
                _ => Ok(l < r),
            },
            (Object::Bool(l), Object::Bool(r)) => match op {
                Code::Equal => Ok(l == r),
                Code::NotEqual => Ok(l != r),
                _ => Err(Fault::TypeMismatch),
            },
            _ => Err(Fault::TypeMismatch),
        };
        match computed {
            Ok(value) => {
                assert(spec == Ok::<Value, Fault>(Value::Bool(value)));
                self.push(Object::Bool(value));
                Ok(())
            },
            Err(f) => {
                assert(spec == Err::<Value, Fault>(f));
                Err(f)
            },
        }
    }

    /// Executes `Minus` or `Bang` on the topmost value.
    fn execute_prefix(&mut self, operator: Code) -> (r: Result<(), Fault>)
        requires
            operator is Minus || operator is Bang,
        ensures
            final(self).achieves(r, old(self)@.execute(operator@)),
    {
        if self.depth() < 1 {
            return Err(Fault::StackUnderflow);
        }
        let operand = self.pop();
        let ghost spec = prefix(operator@, operand@);
        let computed: Result<Object, Fault> = match operator {
            Code::Minus => match operand {
                Object::Int(v) => if v == i32::MIN {
                    Err(Fault::Overflow)
                } else {
                    Ok(Object::Int(-v))
                },
                _ => Err(Fault::TypeMismatch),
            },
            _ => match operand {
                Object::Bool(v) => Ok(Object::Bool(!v)),
                Object::Null => Ok(Object::Bool(true)),
                _ => Err(Fault::TypeMismatch),
            },
        };
        match computed {
            Ok(value) => {
                assert(spec == Ok::<Value, Fault>(value@));
                self.push(value);
                Ok(())
            },
            Err(f) => {
                assert(spec == Err::<Value, Fault>(f));
                Err(f)
            },
        }
    }

    /// Takes the topmost value and passes `offset` instructions over where it
    /// is `false` or `Null`.
    fn execute_jump_not_truthy(&mut self, offset: usize) -> (r: Result<(), Fault>)
        ensures
            final(self).achieves(r, old(self)@.execute(Instr::JumpNotTruthy(offset))),
    {
        if self.depth() < 1 {
            return Err(Fault::StackUnderflow);
        }
        let truthy = match self.pop() {
            Object::Bool(false) => false,
            Object::Null => false,
            _ => true,
        };
        if truthy {
            self.execute_jump(0);
        } else {
            self.execute_jump(offset);
        }
        Ok(())
    }

    /// Passes `offset` instructions over.
    fn execute_jump(&mut self, offset: usize)
        ensures
            final(self)@ == (Machine { jump: offset as nat, ..old(self)@ }),
    {
        self.jump = offset;
        assert(self@.frames =~= old(self)@.frames);
    }

    /// Makes an array of the `size` topmost values, in the order in which they
    /// came.
    fn execute_array(&mut self, size: usize) -> (r: Result<(), Fault>)
        ensures
            final(self).achieves(r, old(self)@.execute(Instr::Array(size))),
    {
        let n = self.depth();
        if n < size {
            return Err(Fault::StackUnderflow);
        }
        let ghost before = self@.stack;
        let mut reversed: Vec<Box<Object>> = Vec::new();
        let mut i: usize = 0;
        assert(before.take(n as int) =~= before);
        while i < size
            invariant
                i <= size <= n,
                before.len() == n,
                self@ == (Machine { stack: before.take(n - i), ..old(self)@ }),
                reversed.len() == i,
                forall|j: int| 0 <= j < i ==> reversed[j]@ == before[n - 1 - j],
            decreases size - i,
        {
            let value = self.pop();
            reversed.push(Box::new(value));
            assert(before.take(n - i).drop_last() =~= before.take(n - i - 1));
            i += 1;
        }
        let ghost turned = reversed@;
        let mut array: Vec<Box<Object>> = Vec::new();
        let mut k: usize = 0;
        while k < size
            invariant
                k <= size <= n,
                before.len() == n,
                turned.len() == size,
                reversed@ == turned.take(size - k),
                array.len() == k,
                forall|j: int| 0 <= j < size ==> turned[j]@ == before[n - 1 - j],
                forall|j: int| 0 <= j < k ==> array[j]@ == before[n - size + j],
            decreases size - k,
        {
            let value = reversed.pop().unwrap();
            assert(reversed@ =~= turned.take(size - k - 1));
            array.push(value);
            k += 1;
        }
        assert(boxed_objects_view(array@) =~= before.skip(n - size));
        self.push(Object::Array(array));
        Ok(())
    }

    /// Takes an index and an array and leaves the element at the index, or
    /// `Null` where there is none.
    fn execute_index(&mut self) -> (r: Result<(), Fault>)
        ensures
            final(self).achieves(r, old(self)@.execute(Instr::Index)),
    {
        if self.depth() < 2 {
            return Err(Fault::StackUnderflow);
        }
        let index = self.pop();
        let array = self.pop();
        match (array, index) {
            (Object::Array(items), Object::Int(i)) => {
                let value = if i >= 0 && (i as usize) < items.len() {
                    items[i as usize].duplicate()
                } else {
                    Object::Null
                };
                assert(value@ == element(boxed_objects_view(items@), i));
                self.push(value);
                Ok(())
            },
            _ => Err(Fault::TypeMismatch),
        }
    }

    /// Calls the function that lies under its `num_args` arguments.
    fn execute_call(&mut self, num_args: usize) -> (r: Result<(), Fault>)
        ensures
            final(self).achieves(r, old(self)@.execute(Instr::Call(num_args))),
    {
        let n = self.depth();
        if n <= num_args {
            return Err(Fault::StackUnderflow);
        }
        let place = n - num_args - 1;
        let func = self.stack.remove(place);
        assert(func@ == old(self)@.stack[place as int]);
        assert(self@.stack =~= old(self)@.stack.remove(place as int));
        assert(self@.frames =~= old(self)@.frames);
        let (instructions, num_locals, num_paras) = match func {
            Object::CompiledFunction { instructions, num_locals, num_paras } => (
                instructions,
                num_locals,
                num_paras,
            ),
            _ => {
                return Err(Fault::NotAFunction);
            },
        };
        if num_args != num_paras {
            return Err(Fault::ArityMismatch);
        }
        if num_locals < num_paras {
            return Err(Fault::MalformedFunction);
        }
        self.push_frame(instructions, place);
        let ghost entered = self@;
        let extra = num_locals - num_paras;
        let mut i: usize = 0;
        while i < extra
            invariant
                i <= extra,
                self@ == (Machine { stack: entered.stack + nulls(i as nat), ..entered }),
            decreases extra - i,
        {
            self.push(Object::Null);
            assert(entered.stack + nulls((i + 1) as nat) =~= (entered.stack + nulls(i as nat)).push(
                Value::Null,
            ));
            i += 1;
        }
        Ok(())
    }

    /// Returns the topmost value from the innermost call.
    fn execute_return_value(&mut self) -> (r: Result<(), Fault>)
        ensures
            final(self).achieves(r, old(self)@.execute(Instr::ReturnValue)),
    {
        if self.depth() < 1 {
            return Err(Fault::StackUnderflow);
        }
        if self.frames.len() == 0 {
            return Err(Fault::NoFrame);
        }
        let value = self.pop();
        self.pop_frame();
        self.push(value);
        Ok(())
    }

    /// Returns `Null` from the innermost call.
    fn execute_return(&mut self) -> (r: Result<(), Fault>)
        ensures
            final(self).achieves(r, old(self)@.execute(Instr::Return)),
    {
        if self.frames.len() == 0 {
            return Err(Fault::NoFrame);
        }
        self.pop_frame();
        self.push(Object::Null);
        Ok(())
    }
}

impl View for VM {
    type V = Machine;

    closed spec fn view(&self) -> Machine {
        self.model()
    }
}

} // verus!
