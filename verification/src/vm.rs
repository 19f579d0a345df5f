//! A stack machine for bytecode.
//!
//! Opcodes: `0 hi lo` pushes constant number `hi * 256 + lo`; `1` pops the
//! right then the left operand and pushes their sum; `2` likewise their
//! difference; `3` pops and discards. Integers are `i32`. A float is kept as
//! the bit pattern of an `f32`; float sums and differences are computed by the
//! caller: `run` stops and hands over the operands, and `push_result` takes
//! the answer back.

use vstd::prelude::*;

verus! {

#[derive(Debug, Clone, Copy, PartialEq, Eq, Structural)]
pub enum Object {
    Integer(i32),
    /// The IEEE-754 bit pattern of an `f32`.
    Float(u32),
}

/// Float arithmetic the machine asks its caller to do.
#[derive(Debug, Clone, Copy, PartialEq, Eq, Structural)]
pub enum FloatOp {
    Add,
    Sub,
}

/// Why `run` returned: the program ended, or float arithmetic is due (its
/// operands already popped; the caller pushes the result and runs on).
#[derive(Debug, Clone, Copy, PartialEq, Eq, Structural)]
pub enum RunOutcome {
    Halted,
    FloatArith { op: FloatOp, left: u32, right: u32 },
}

pub struct VirtualMachine {
    pub instructions: Vec<u8>,
    pub constants: Vec<Object>,
    pub stack: Vec<Object>,
    pub ip: usize,
}

/// Where running from a state leads: a fault (the machine would panic), the
/// end of the program, or a float operation to be done by the caller. The
/// stack and instruction pointer are those at that point.
pub enum VmEnd {
    Fault,
    Halt(Seq<Object>, int),
    Float(FloatOp, u32, u32, Seq<Object>, int),
}

/// One arithmetic opcode on two popped operands (`op` is 1 or 2).
pub open spec fn arith(
    ins: Seq<u8>,
    consts: Seq<Object>,
    op: u8,
    left: Object,
    right: Object,
    rest: Seq<Object>,
    ip: int,
) -> VmEnd
    decreases ins.len() - ip + 1, 0int,
{
    if !(0 <= ip <= ins.len()) {
        VmEnd::Fault
    } else {
        match (left, right) {
        (Object::Integer(l), Object::Integer(r)) => {
            let v: int = if op == 1 {
                l + r
            } else {
                l - r
            };
            if i32::MIN <= v <= i32::MAX {
                vm_run(ins, consts, rest.push(Object::Integer(v as i32)), ip)
            } else {
                VmEnd::Fault
            }
        },
        (Object::Float(l), Object::Float(r)) => VmEnd::Float(
            if op == 1 {
                FloatOp::Add
            } else {
                FloatOp::Sub
            },
            l,
            r,
            rest,
            ip,
        ),
        _ => VmEnd::Fault,
        }
    }
}

/// Running the program `ins` with constants `consts` from stack `stack` at
/// instruction `ip`, up to the end or the next float operation.
pub open spec fn vm_run(ins: Seq<u8>, consts: Seq<Object>, stack: Seq<Object>, ip: int) -> VmEnd
    decreases ins.len() - ip, 1int,
{
    if ip < 0 {
        VmEnd::Fault
    } else if ip >= ins.len() {
        VmEnd::Halt(stack, ip)
    } else {
        let op = ins[ip];
        if op == 0 {
            if ip + 2 >= ins.len() {
                VmEnd::Fault
            } else {
                let idx = ins[ip + 1] * 256 + ins[ip + 2];
                if idx >= consts.len() {
                    VmEnd::Fault
                } else {
                    vm_run(ins, consts, stack.push(consts[idx]), ip + 3)
                }
            }
        } else if op == 1 || op == 2 {
            if stack.len() < 2 {
                VmEnd::Fault
            } else {
                arith(
                    ins,
                    consts,
                    op,
                    stack[stack.len() - 2],
                    stack.last(),
                    stack.drop_last().drop_last(),
                    ip + 1,
                )
            }
        } else if op == 3 {
            if stack.len() < 1 {
                VmEnd::Fault
            } else {
                vm_run(ins, consts, stack.drop_last(), ip + 1)
            }
        } else {
            VmEnd::Fault
        }
    }
}

impl VirtualMachine {
    /// Where running this machine leads (see `vm_run`).
    pub open spec fn outcome(&self) -> VmEnd {
        vm_run(self.instructions@, self.constants@, self.stack@, self.ip as int)
    }

    /// A machine at the first instruction with an empty stack.
    pub fn new(instructions: Vec<u8>, constants: Vec<Object>) -> (vm: Self)
        ensures
            vm.instructions@ == instructions@,
            vm.constants@ == constants@,
            vm.stack@ == Seq::<Object>::empty(),
            vm.ip == 0,
    {
        VirtualMachine { instructions, constants, stack: Vec::with_capacity(2048), ip: 0 }
    }

    fn push(&mut self, obj: Object)
        ensures
            final(self).stack@ == old(self).stack@.push(obj),
            final(self).instructions == old(self).instructions,
            final(self).constants == old(self).constants,
            final(self).ip == old(self).ip,
    {
        self.stack.push(obj);
    }

    fn pop(&mut self) -> (obj: Object)
        requires
            old(self).stack@.len() > 0,
        ensures
            obj == old(self).stack@.last(),
            final(self).stack@ == old(self).stack@.drop_last(),
            final(self).instructions == old(self).instructions,
            final(self).constants == old(self).constants,
            final(self).ip == old(self).ip,
    {
        self.stack.pop().expect("Stack is empty")
    }

    /// The top of the stack, if any.
    pub fn stack_top(&self) -> (r: Option<&Object>)
        ensures
            r == if self.stack@.len() > 0 {
                Some(&self.stack@.last())
            } else {
                None
            },
    {
        if self.stack.len() > 0 {
            Some(&self.stack[self.stack.len() - 1])
        } else {
            None
        }
    }

    /// Hands back the result of float arithmetic: pushes it.
    pub fn push_result(&mut self, obj: Object)
        ensures
            final(self).stack@ == old(self).stack@.push(obj),
            final(self).instructions == old(self).instructions,
            final(self).constants == old(self).constants,
            final(self).ip == old(self).ip,
    {
        self.push(obj);
    }

    /// Whether running this machine would fault before it halts or reaches
    /// float arithmetic: a constant index or operand out of range, mixed
    /// operand types, an integer overflow or an unknown opcode. The machine
    /// is left as it is.
    pub fn would_fault(&self) -> (r: bool)
        ensures
            r == (self.outcome() is Fault),
    {
        let mut stack: Vec<Object> = self.stack.clone();
        let mut ip: usize = self.ip;
        let n = self.instructions.len();
        proof {
            assert(stack@ =~= self.stack@);
        }
        while ip < n
            invariant
                n == self.instructions@.len(),
                vm_run(self.instructions@, self.constants@, stack@, ip as int) == self.outcome(),
            decreases n - ip,
        {
            proof {
                reveal_with_fuel(vm_run, 2);
                reveal_with_fuel(arith, 2);
            }
            let opcode = self.instructions[ip];
            if opcode == 0 {
                if n - ip <= 2 {
                    return true;
                }
                let const_index = (self.instructions[ip + 1] as usize) * 256
                    + (self.instructions[ip + 2] as usize);
                if const_index >= self.constants.len() {
                    return true;
                }
                stack.push(self.constants[const_index]);
                ip = ip + 3;
            } else if opcode == 1 || opcode == 2 {
                if stack.len() < 2 {
                    return true;
                }
                let right = stack.pop().unwrap();
                let left = stack.pop().unwrap();
                match (left, right) {
                    (Object::Integer(l), Object::Integer(r)) => {
                        let v: i64 = if opcode == 1 {
                            l as i64 + r as i64
                        } else {
                            l as i64 - r as i64
                        };
                        if v < i32::MIN as i64 || v > i32::MAX as i64 {
                            return true;
                        }
                        stack.push(Object::Integer(v as i32));
                    },
                    (Object::Float(_), Object::Float(_)) => {
                        return false;
                    },
                    _ => {
                        return true;
                    },
                }
                ip = ip + 1;
            } else if opcode == 3 {
                if stack.len() < 1 {
                    return true;
                }
                stack.pop();
                ip = ip + 1;
            } else {
                return true;
            }
        }
        proof {
            reveal_with_fuel(vm_run, 2);
        }
        false
    }

    /// Runs to the end of the program, or until float arithmetic is due.
    /// The machine must not fault on the way (a constant index or operand
    /// out of range, mixed operand types, an integer overflow, an unknown
    /// opcode); `would_fault` tells.
    pub fn run(&mut self) -> (r: RunOutcome)
        requires
            !(old(self).outcome() is Fault),
        ensures
            final(self).instructions == old(self).instructions,
            final(self).constants == old(self).constants,
            match old(self).outcome() {
                VmEnd::Halt(st, ip) => r == RunOutcome::Halted && final(self).stack@ == st
                    && final(self).ip == ip,
                VmEnd::Float(op, l, rt, st, ip) => r == (RunOutcome::FloatArith {
                    op,
                    left: l,
                    right: rt,
                }) && final(self).stack@ == st && final(self).ip == ip,
                VmEnd::Fault => false,
            },
    {
        let ghost target = self.outcome();
        while self.ip < self.instructions.len()
            invariant
                self.instructions == old(self).instructions,
                self.constants == old(self).constants,
                self.outcome() == target,
                target == old(self).outcome(),
                !(target is Fault),
            decreases self.instructions@.len() - self.ip,
        {
            proof {
                reveal_with_fuel(vm_run, 2);
                reveal_with_fuel(arith, 2);
            }
            let opcode = self.instructions[self.ip];
            self.ip = self.ip + 1;
            if opcode == 0 {
                let hi = self.instructions[self.ip];
                let lo = self.instructions[self.ip + 1];
                self.ip = self.ip + 2;
                let const_index = (hi as usize) * 256 + (lo as usize);
                let constant_value = self.constants[const_index];
                self.push(constant_value);
            } else if opcode == 1 || opcode == 2 {
                let right = self.pop();
                let left = self.pop();
                match (left, right) {
                    (Object::Integer(l), Object::Integer(r)) => {
                        if opcode == 1 {
                            self.push(Object::Integer(l + r));
                        } else {
                            self.push(Object::Integer(l - r));
                        }
                    },
                    (Object::Float(l), Object::Float(r)) => {
                        let op = if opcode == 1 {
                            FloatOp::Add
                        } else {
                            FloatOp::Sub
                        };
                        return RunOutcome::FloatArith { op, left: l, right: r };
                    },
                    _ => {
                        proof {
                            assert(false);
                        }
                        return RunOutcome::Halted;
                    },
                }
            } else if opcode == 3 {
                self.pop();
            } else {
                proof {
                    assert(false);
                }
                return RunOutcome::Halted;
            }
        }
        RunOutcome::Halted
    }
}

/// A run that halts stops exactly at the end of the program.
pub proof fn law_halts_at_end(ins: Seq<u8>, consts: Seq<Object>, stack: Seq<Object>, ip: int)
    requires
        0 <= ip <= ins.len(),
    ensures
        vm_run(ins, consts, stack, ip) matches VmEnd::Halt(_, end) ==> end == ins.len(),
    decreases ins.len() - ip,
{
    reveal_with_fuel(vm_run, 2);
    reveal_with_fuel(arith, 2);
    if ip < ins.len() {
        let op = ins[ip];
        if op == 0 {
            if ip + 2 < ins.len() {
                let idx = ins[ip + 1] * 256 + ins[ip + 2];
                if idx < consts.len() {
                    law_halts_at_end(ins, consts, stack.push(consts[idx]), ip + 3);
                }
            }
        } else if op == 1 || op == 2 {
            if stack.len() >= 2 {
                let left = stack[stack.len() - 2];
                let right = stack.last();
                let rest = stack.drop_last().drop_last();
                match (left, right) {
                    (Object::Integer(l), Object::Integer(r)) => {
                        let v: int = if op == 1 {
                            l + r
                        } else {
                            l - r
                        };
                        law_halts_at_end(ins, consts, rest.push(Object::Integer(v as i32)), ip + 1);
                    },
                    _ => {},
                }
            }
        } else if op == 3 {
            if stack.len() >= 1 {
                law_halts_at_end(ins, consts, stack.drop_last(), ip + 1);
            }
        }
    }
}

/// Running again after a run that halted changes nothing: it halts at once,
/// with the same stack at the same position.
pub proof fn law_halted_run_is_final(
    ins: Seq<u8>,
    consts: Seq<Object>,
    stack: Seq<Object>,
    ip: int,
)
    requires
        0 <= ip <= ins.len(),
    ensures
        vm_run(ins, consts, stack, ip) matches VmEnd::Halt(st, end) ==> vm_run(ins, consts, st, end)
            == VmEnd::Halt(st, end),
{
    law_halts_at_end(ins, consts, stack, ip);
}

/// Opcode `0 hi lo` pushes constant number `hi * 256 + lo` and goes on three
/// bytes later.
pub proof fn law_push_constant(
    ins: Seq<u8>,
    consts: Seq<Object>,
    stack: Seq<Object>,
    ip: int,
)
    requires
        0 <= ip,
        ip + 2 < ins.len(),
        ins[ip] == 0,
        ins[ip + 1] * 256 + ins[ip + 2] < consts.len(),
    ensures
        vm_run(ins, consts, stack, ip) == vm_run(
            ins,
            consts,
            stack.push(consts[ins[ip + 1] * 256 + ins[ip + 2]]),
            ip + 3,
        ),
{
}

/// Opcode `1` on two integers, the right one on top, replaces them by their
/// sum, when it fits in `i32`; opcode `2` by the left minus the right.
pub proof fn law_integer_arithmetic(
    ins: Seq<u8>,
    consts: Seq<Object>,
    stack: Seq<Object>,
    ip: int,
    l: i32,
    r: i32,
)
    requires
        0 <= ip < ins.len(),
        ins[ip] == 1 || ins[ip] == 2,
    ensures
        ins[ip] == 1 && i32::MIN <= l + r <= i32::MAX ==> vm_run(
            ins,
            consts,
            stack.push(Object::Integer(l)).push(Object::Integer(r)),
            ip,
        ) == vm_run(ins, consts, stack.push(Object::Integer((l + r) as i32)), ip + 1),
        ins[ip] == 2 && i32::MIN <= l - r <= i32::MAX ==> vm_run(
            ins,
            consts,
            stack.push(Object::Integer(l)).push(Object::Integer(r)),
            ip,
        ) == vm_run(ins, consts, stack.push(Object::Integer((l - r) as i32)), ip + 1),
        ins[ip] == 1 && !(i32::MIN <= l + r <= i32::MAX) ==> vm_run(
            ins,
            consts,
            stack.push(Object::Integer(l)).push(Object::Integer(r)),
            ip,
        ) is Fault,
        ins[ip] == 2 && !(i32::MIN <= l - r <= i32::MAX) ==> vm_run(
            ins,
            consts,
            stack.push(Object::Integer(l)).push(Object::Integer(r)),
            ip,
        ) is Fault,
{
    reveal_with_fuel(vm_run, 2);
    reveal_with_fuel(arith, 2);
    let st = stack.push(Object::Integer(l)).push(Object::Integer(r));
    assert(st.drop_last().drop_last() =~= stack);
    assert(st[st.len() - 2] == Object::Integer(l));
    assert(st.last() == Object::Integer(r));
}

/// Opcodes `1` and `2` on two floats stop the run and hand the caller the
/// operation and its operands, left then right, the rest of the stack, and
/// the next instruction.
pub proof fn law_float_arithmetic(
    ins: Seq<u8>,
    consts: Seq<Object>,
    stack: Seq<Object>,
    ip: int,
    l: u32,
    r: u32,
)
    requires
        0 <= ip < ins.len(),
        ins[ip] == 1 || ins[ip] == 2,
    ensures
        vm_run(ins, consts, stack.push(Object::Float(l)).push(Object::Float(r)), ip)
            == VmEnd::Float(
            if ins[ip] == 1 {
                FloatOp::Add
            } else {
                FloatOp::Sub
            },
            l,
            r,
            stack,
            ip + 1,
        ),
{
    reveal_with_fuel(vm_run, 2);
    reveal_with_fuel(arith, 2);
    let st = stack.push(Object::Float(l)).push(Object::Float(r));
    assert(st.drop_last().drop_last() =~= stack);
    assert(st[st.len() - 2] == Object::Float(l));
    assert(st.last() == Object::Float(r));
}

/// Arithmetic on an integer and a float, in either order, faults.
pub proof fn law_mixed_operands_fault(
    ins: Seq<u8>,
    consts: Seq<Object>,
    stack: Seq<Object>,
    ip: int,
    i: i32,
    f: u32,
)
    requires
        0 <= ip < ins.len(),
        ins[ip] == 1 || ins[ip] == 2,
    ensures
        vm_run(ins, consts, stack.push(Object::Integer(i)).push(Object::Float(f)), ip) is Fault,
        vm_run(ins, consts, stack.push(Object::Float(f)).push(Object::Integer(i)), ip) is Fault,
{
    reveal_with_fuel(vm_run, 2);
    reveal_with_fuel(arith, 2);
    let a = stack.push(Object::Integer(i)).push(Object::Float(f));
    let b = stack.push(Object::Float(f)).push(Object::Integer(i));
    assert(a[a.len() - 2] == Object::Integer(i) && a.last() == Object::Float(f));
    assert(b[b.len() - 2] == Object::Float(f) && b.last() == Object::Integer(i));
}

/// Opcode `3` discards the top of the stack; any opcode above `3` faults.
pub proof fn law_pop_and_unknown(
    ins: Seq<u8>,
    consts: Seq<Object>,
    stack: Seq<Object>,
    ip: int,
    x: Object,
)
    requires
        0 <= ip < ins.len(),
    ensures
        ins[ip] == 3 ==> vm_run(ins, consts, stack.push(x), ip) == vm_run(
            ins,
            consts,
            stack,
            ip + 1,
        ),
        ins[ip] > 3 ==> vm_run(ins, consts, stack, ip) is Fault,
{
    assert(stack.push(x).drop_last() =~= stack);
}

/// Pushing `l`, pushing `r` and subtracting leaves exactly `l - r`, when it
/// fits in `i32`; adding leaves `l + r`. Such a program never faults.
pub proof fn law_two_constant_programs(l: i32, r: i32)
    ensures
        i32::MIN <= l - r <= i32::MAX ==> vm_run(
            seq![0u8, 0, 0, 0, 0, 1, 2],
            seq![Object::Integer(l), Object::Integer(r)],
            Seq::<Object>::empty(),
            0,
        ) == VmEnd::Halt(seq![Object::Integer((l - r) as i32)], 7),
        i32::MIN <= l + r <= i32::MAX ==> vm_run(
            seq![0u8, 0, 0, 0, 0, 1, 1],
            seq![Object::Integer(l), Object::Integer(r)],
            Seq::<Object>::empty(),
            0,
        ) == VmEnd::Halt(seq![Object::Integer((l + r) as i32)], 7),
{
    let e = Seq::<Object>::empty();
    let consts = seq![Object::Integer(l), Object::Integer(r)];
    let sub = seq![0u8, 0, 0, 0, 0, 1, 2];
    let add = seq![0u8, 0, 0, 0, 0, 1, 1];
    assert(sub[0] == 0 && sub[1] == 0 && sub[2] == 0 && sub[3] == 0 && sub[4] == 0 && sub[5] == 1
        && sub[6] == 2);
    assert(add[0] == 0 && add[1] == 0 && add[2] == 0 && add[3] == 0 && add[4] == 0 && add[5] == 1
        && add[6] == 1);
    assert(consts[0] == Object::Integer(l) && consts[1] == Object::Integer(r));
    let one = e.push(Object::Integer(l));
    law_push_constant(sub, consts, e, 0);
    law_push_constant(sub, consts, one, 3);
    law_integer_arithmetic(sub, consts, e, 6, l, r);
    law_push_constant(add, consts, e, 0);
    law_push_constant(add, consts, one, 3);
    law_integer_arithmetic(add, consts, e, 6, l, r);
    assert(e.push(Object::Integer((l - r) as i32)) =~= seq![Object::Integer((l - r) as i32)]);
    assert(e.push(Object::Integer((l + r) as i32)) =~= seq![Object::Integer((l + r) as i32)]);
}

} // verus!
