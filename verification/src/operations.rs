//! The command model of the calculator: the operations that mutate the
//! value stack, their exact mathematical step semantics, and the `Command`
//! capability they all share.
//!
//! A binary operation pops the right operand first, then the left one; when
//! the stack holds fewer than two values it is a silent no-op. Division
//! truncates toward zero; a zero divisor, like an arithmetic result outside
//! the signed 64-bit range, is a fault that the executing actor must treat
//! as fatal to itself. A `Terminate` step asks the owning process to end.

use vstd::prelude::*;

verus! {

/// One arithmetic operator.
#[derive(Clone, Copy, PartialEq, Eq, Structural, Debug)]
pub enum Operation {
    Add,
    Sub,
    Mul,
    Div,
}

/// What one executed command asks of the actor that ran it: keep going,
/// stop this actor for good (a fault), or end the whole process.
#[derive(Clone, Copy, PartialEq, Eq, Structural, Debug)]
pub enum Outcome {
    Continue,
    Fault,
    Terminate,
}

/// A queued command, owned by the queue until the worker executes it.
#[derive(Clone, Copy, PartialEq, Eq, Structural, Debug)]
pub enum Cmd {
    InsertLiteral(i64),
    Add,
    Sub,
    Mul,
    Div,
    Terminate,
}

/// Integer division truncating toward zero, as the `/` operator of the
/// executable code computes it (spec-level `/` is Euclidean).
pub open spec fn div_trunc(x: int, d: int) -> int
    recommends
        d != 0,
{
    if x == 0 {
        0
    } else if x > 0 && d > 0 {
        x / d
    } else if x < 0 && d < 0 {
        (x * -1) / (d * -1)
    } else if x < 0 {
        ((x * -1) / d) * -1
    } else {
        (x / (d * -1)) * -1
    }
}

/// The exact value `left <op> right`, over unbounded integers.
pub open spec fn op_val(op: Operation, left: int, right: int) -> int {
    match op {
        Operation::Add => left + right,
        Operation::Sub => left - right,
        Operation::Mul => left * right,
        Operation::Div => div_trunc(left, right),
    }
}

/// One binary operation applied to the stack: a silent no-op when fewer
/// than two values are present; a fault on a zero divisor or when the exact
/// result does not fit in an `i64`; otherwise both operands are replaced by
/// the result.
pub open spec fn step_binop(stack: Seq<i64>, op: Operation) -> (Seq<i64>, Outcome) {
    if stack.len() < 2 {
        (stack, Outcome::Continue)
    } else {
        let right = stack.last();
        let left = stack[stack.len() - 2];
        let rest = stack.take(stack.len() - 2);
        if op is Div && right == 0 {
            (rest, Outcome::Fault)
        } else {
            let v = op_val(op, left as int, right as int);
            if i64::MIN <= v <= i64::MAX {
                (rest.push(v as i64), Outcome::Continue)
            } else {
                (rest, Outcome::Fault)
            }
        }
    }
}

/// The effect of one queued command on the stack.
pub open spec fn step_cmd(stack: Seq<i64>, c: Cmd) -> (Seq<i64>, Outcome) {
    match c {
        Cmd::InsertLiteral(v) => (stack.push(v), Outcome::Continue),
        Cmd::Add => step_binop(stack, Operation::Add),
        Cmd::Sub => step_binop(stack, Operation::Sub),
        Cmd::Mul => step_binop(stack, Operation::Mul),
        Cmd::Div => step_binop(stack, Operation::Div),
        Cmd::Terminate => (stack, Outcome::Terminate),
    }
}

/// The capability "execute against a stack". `step` is the command's exact
/// effect; `execute` realises it and reports how the actor must go on.
pub trait Command {
    spec fn step(&self, stack: Seq<i64>) -> (Seq<i64>, Outcome);

    fn execute(&self, stack: &mut Vec<i64>) -> (o: Outcome)
        ensures
            final(stack)@ == self.step(old(stack)@).0,
            o == self.step(old(stack)@).1,
    ;
}

/// Pushes a fixed literal value.
pub struct Insert {
    num: i64,
}

impl Insert {
    /// The literal this command will push.
    pub closed spec fn value(&self) -> i64 {
        self.num
    }

    pub fn new(num: i64) -> (r: Self)
        ensures
            r.value() == num,
    {
        Self { num }
    }
}

pub struct Add {}

pub struct Sub {}

pub struct Mul {}

pub struct Div {}

pub struct Exit {}

impl Command for Insert {
    open spec fn step(&self, stack: Seq<i64>) -> (Seq<i64>, Outcome) {
        (stack.push(self.value()), Outcome::Continue)
    }

    fn execute(&self, stack: &mut Vec<i64>) -> (o: Outcome) {
        stack.push(self.num);
        Outcome::Continue
    }
}

/// Pops the right operand, then the left one. Called only with at least two
/// values on the stack; both are removed and handed back as `(left, right)`.
pub fn get_operand_from_stack(stack: &mut Vec<i64>) -> (r: Option<(i64, i64)>)
    requires
        old(stack)@.len() >= 2,
    ensures
        r == Some((old(stack)@[old(stack)@.len() - 2], old(stack)@.last())),
        final(stack)@ == old(stack)@.take(old(stack)@.len() - 2),
{
    let right = match stack.pop() {
        Some(num) => num,
        None => {
            proof {
                assert(false);
            }
            return None;
        },
    };
    let left = match stack.pop() {
        Some(num) => num,
        None => {
            proof {
                assert(false);
            }
            return None;
        },
    };
    proof {
        assert(final(stack)@ =~= old(stack)@.take(old(stack)@.len() - 2));
    }
    Some((left, right))
}

impl Command for Add {
    open spec fn step(&self, stack: Seq<i64>) -> (Seq<i64>, Outcome) {
        step_binop(stack, Operation::Add)
    }

    fn execute(&self, stack: &mut Vec<i64>) -> (o: Outcome) {
        if stack.len() < 2 {
            return Outcome::Continue;
        }
        let (left, right) = match get_operand_from_stack(stack) {
            Some(op) => (op.0, op.1),
            None => {
                proof {
                    assert(false);
                }
                return Outcome::Continue;
            },
        };
        match left.checked_add(right) {
            Some(v) => {
                stack.push(v);
                Outcome::Continue
            },
            None => Outcome::Fault,
        }
    }
}

impl Command for Sub {
    open spec fn step(&self, stack: Seq<i64>) -> (Seq<i64>, Outcome) {
        step_binop(stack, Operation::Sub)
    }

    fn execute(&self, stack: &mut Vec<i64>) -> (o: Outcome) {
        if stack.len() < 2 {
            return Outcome::Continue;
        }
        let (left, right) = match get_operand_from_stack(stack) {
            Some(op) => (op.0, op.1),
            None => {
                proof {
                    assert(false);
                }
                return Outcome::Continue;
            },
        };
        match left.checked_sub(right) {
            Some(v) => {
                stack.push(v);
                Outcome::Continue
            },
            None => Outcome::Fault,
        }
    }
}

impl Command for Mul {
    open spec fn step(&self, stack: Seq<i64>) -> (Seq<i64>, Outcome) {
        step_binop(stack, Operation::Mul)
    }

    fn execute(&self, stack: &mut Vec<i64>) -> (o: Outcome) {
        if stack.len() < 2 {
            return Outcome::Continue;
        }
        let (left, right) = match get_operand_from_stack(stack) {
            Some(op) => (op.0, op.1),
            None => {
                proof {
                    assert(false);
                }
                return Outcome::Continue;
            },
        };
        match left.checked_mul(right) {
            Some(v) => {
                stack.push(v);
                Outcome::Continue
            },
            None => Outcome::Fault,
        }
    }
}

impl Command for Div {
    open spec fn step(&self, stack: Seq<i64>) -> (Seq<i64>, Outcome) {
        step_binop(stack, Operation::Div)
    }

    fn execute(&self, stack: &mut Vec<i64>) -> (o: Outcome) {
        if stack.len() < 2 {
            return Outcome::Continue;
        }
        let (left, right) = match get_operand_from_stack(stack) {
            Some(op) => (op.0, op.1),
            None => {
                proof {
                    assert(false);
                }
                return Outcome::Continue;
            },
        };
        match left.checked_div(right) {
            Some(v) => {
                stack.push(v);
                Outcome::Continue
            },
            None => Outcome::Fault,
        }
    }
}

impl Command for Exit {
    open spec fn step(&self, stack: Seq<i64>) -> (Seq<i64>, Outcome) {
        (stack, Outcome::Terminate)
    }

    fn execute(&self, _stack: &mut Vec<i64>) -> (o: Outcome) {
        Outcome::Terminate
    }
}

impl Command for Cmd {
    open spec fn step(&self, stack: Seq<i64>) -> (Seq<i64>, Outcome) {
        step_cmd(stack, *self)
    }

    fn execute(&self, stack: &mut Vec<i64>) -> (o: Outcome) {
        match self {
            Cmd::InsertLiteral(v) => Insert::new(*v).execute(stack),
            Cmd::Add => (Add {}).execute(stack),
            Cmd::Sub => (Sub {}).execute(stack),
            Cmd::Mul => (Mul {}).execute(stack),
            Cmd::Div => (Div {}).execute(stack),
            Cmd::Terminate => (Exit {}).execute(stack),
        }
    }
}

} // verus!
