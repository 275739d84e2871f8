//! Operations, their mathematical model, and what running them does to a stack.
use std::rc::Rc;
use vstd::prelude::*;

verus! {

/// The values held on the stack.
pub type Value = i32;

/// Why an evaluation stopped.
#[derive(Debug, Clone, Copy, PartialEq, Eq, Structural)]
pub enum Error {
    DivisionByZero,
    StackUnderflow,
    UnknownWord,
    InvalidWord,
}

/// One step of a word's body.
pub enum Op {
    /// A primitive, named by its upper-case name.
    Word(String),
    /// A literal to push.
    Num(i32),
    /// The body of another word, as it stood when it was captured.
    Ref(Rc<Vec<Op>>),
}

/// The eight primitive operations.
#[derive(Debug, Clone, Copy, PartialEq, Eq, Structural)]
pub enum Prim {
    Add,
    Sub,
    Mul,
    Div,
    Dup,
    Drop,
    Swap,
    Over,
}

/// What an `Op` stands for, with shared bodies unfolded into plain sequences.
pub ghost enum Instr {
    Lit(i32),
    Prim(Seq<char>),
    Call(Seq<Instr>),
}

pub open spec fn instr_of(op: Op) -> Instr
    decreases op,
{
    match op {
        Op::Num(n) => Instr::Lit(n),
        Op::Word(w) => Instr::Prim(w@),
        Op::Ref(body) => Instr::Call(instrs_of(body@)),
    }
}

pub open spec fn instrs_of(ops: Seq<Op>) -> Seq<Instr>
    decreases ops,
{
    if ops.len() == 0 {
        seq![]
    } else {
        instrs_of(ops.drop_last()).push(instr_of(ops.last()))
    }
}

/// The primitive that an (upper-case) name denotes.
pub open spec fn prim_of(w: Seq<char>) -> Option<Prim> {
    if w == seq!['+'] {
        Some(Prim::Add)
    } else if w == seq!['-'] {
        Some(Prim::Sub)
    } else if w == seq!['*'] {
        Some(Prim::Mul)
    } else if w == seq!['/'] {
        Some(Prim::Div)
    } else if w == seq!['D', 'U', 'P'] {
        Some(Prim::Dup)
    } else if w == seq!['D', 'R', 'O', 'P'] {
        Some(Prim::Drop)
    } else if w == seq!['S', 'W', 'A', 'P'] {
        Some(Prim::Swap)
    } else if w == seq!['O', 'V', 'E', 'R'] {
        Some(Prim::Over)
    } else {
        None
    }
}

/// Division truncated toward zero, on mathematical integers.
pub open spec fn trunc_div(a: int, b: int) -> int {
    let q = (vstd::math::abs(a) / vstd::math::abs(b)) as int;
    if (a < 0) == (b < 0) {
        q
    } else {
        -q
    }
}

/// 32-bit division truncated toward zero; the one quotient that does not fit wraps.
pub open spec fn quot(a: i32, b: i32) -> i32 {
    if a == i32::MIN && b == -1 {
        i32::MIN
    } else {
        trunc_div(a as int, b as int) as i32
    }
}

/// A stack and, where one occurred, the error that stopped execution there.
pub type Outcome = (Seq<i32>, Option<Error>);

/// Applies the primitive named `w` to `st`.
///
/// The top operand is popped first and the one below it second, so `-` and `/`
/// compute `below op top`. Operands popped before a failure stay popped.
pub open spec fn apply_prim(w: Seq<char>, st: Seq<i32>) -> Outcome {
    if st.len() == 0 {
        (st, Some(Error::StackUnderflow))
    } else {
        let b = st.last();
        let s1 = st.drop_last();
        if prim_of(w) == Some(Prim::Dup) {
            (s1.push(b).push(b), None)
        } else if prim_of(w) == Some(Prim::Drop) {
            (s1, None)
        } else if s1.len() == 0 {
            (s1, Some(Error::StackUnderflow))
        } else {
            let a = s1.last();
            let s2 = s1.drop_last();
            match prim_of(w) {
                Some(Prim::Add) => (s2.push(vstd::wrapping::i32_specs::wrapping_add(a, b)), None),
                Some(Prim::Sub) => (s2.push(vstd::wrapping::i32_specs::wrapping_sub(a, b)), None),
                Some(Prim::Mul) => (s2.push(vstd::wrapping::i32_specs::wrapping_mul(a, b)), None),
                Some(Prim::Div) => if b == 0 {
                    (s2, Some(Error::DivisionByZero))
                } else {
                    (s2.push(quot(a, b)), None)
                },
                Some(Prim::Swap) => (s2.push(b).push(a), None),
                Some(Prim::Over) => (s2.push(a).push(b).push(a), None),
                _ => (s2, Some(Error::InvalidWord)),
            }
        }
    }
}

/// Runs one instruction on `st`.
pub open spec fn run(i: Instr, st: Seq<i32>) -> Outcome
    decreases i,
{
    match i {
        Instr::Lit(n) => (st.push(n), None),
        Instr::Prim(w) => apply_prim(w, st),
        Instr::Call(body) => run_all(body, st),
    }
}

/// Runs instructions in order, stopping at the first error.
pub open spec fn run_all(body: Seq<Instr>, st: Seq<i32>) -> Outcome
    decreases body,
{
    if body.len() == 0 {
        (st, None)
    } else {
        let prev = run_all(body.drop_last(), st);
        if prev.1 is Some {
            prev
        } else {
            run(body.last(), prev.0)
        }
    }
}

pub open spec fn as_result(e: Option<Error>) -> Result<(), Error> {
    match e {
        Some(err) => Err(err),
        None => Ok(()),
    }
}

pub proof fn lemma_instrs_of(ops: Seq<Op>)
    ensures
        instrs_of(ops).len() == ops.len(),
        forall|i: int| 0 <= i < ops.len() ==> #[trigger] instrs_of(ops)[i] == instr_of(ops[i]),
    decreases ops.len(),
{
    if ops.len() > 0 {
        lemma_instrs_of(ops.drop_last());
    }
}

/// Once a prefix of a body has failed, the whole body fails the same way.
pub proof fn lemma_run_all_stops(body: Seq<Instr>, st: Seq<i32>, k: int)
    requires
        0 <= k <= body.len(),
        run_all(body.take(k), st).1 is Some,
    ensures
        run_all(body, st) == run_all(body.take(k), st),
    decreases body.len() - k,
{
    if k < body.len() {
        let next = body.take(k + 1);
        assert(next.drop_last() =~= body.take(k));
        lemma_run_all_stops(body, st, k + 1);
    } else {
        assert(body.take(k) =~= body);
    }
}

/// The primitive that `name` denotes, found without allocating.
pub fn prim_named(name: &str) -> (r: Option<Prim>)
    ensures
        r == prim_of(name@),
{
    let n = name.unicode_len();
    if n == 1 {
        let c = name.get_char(0);
        if c == '+' {
            assert(name@ =~= seq!['+']);
            Some(Prim::Add)
        } else if c == '-' {
            assert(name@ =~= seq!['-']);
            Some(Prim::Sub)
        } else if c == '*' {
            assert(name@ =~= seq!['*']);
            Some(Prim::Mul)
        } else if c == '/' {
            assert(name@ =~= seq!['/']);
            Some(Prim::Div)
        } else {
            None
        }
    } else if n == 3 {
        if name.get_char(0) == 'D' && name.get_char(1) == 'U' && name.get_char(2) == 'P' {
            assert(name@ =~= seq!['D', 'U', 'P']);
            Some(Prim::Dup)
        } else {
            None
        }
    } else if n == 4 {
        let c0 = name.get_char(0);
        let c1 = name.get_char(1);
        let c2 = name.get_char(2);
        let c3 = name.get_char(3);
        if c0 == 'D' && c1 == 'R' && c2 == 'O' && c3 == 'P' {
            assert(name@ =~= seq!['D', 'R', 'O', 'P']);
            Some(Prim::Drop)
        } else if c0 == 'S' && c1 == 'W' && c2 == 'A' && c3 == 'P' {
            assert(name@ =~= seq!['S', 'W', 'A', 'P']);
            Some(Prim::Swap)
        } else if c0 == 'O' && c1 == 'V' && c2 == 'E' && c3 == 'R' {
            assert(name@ =~= seq!['O', 'V', 'E', 'R']);
            Some(Prim::Over)
        } else {
            None
        }
    } else {
        None
    }
}

/// `a / b` truncated toward zero, wrapping on the one quotient that overflows.
pub fn div_wrapping(a: i32, b: i32) -> (r: i32)
    requires
        b != 0,
    ensures
        r == quot(a, b),
{
    proof {
        lemma_quot_fits(a, b);
    }
    match a.checked_div(b) {
        Some(q) => q,
        None => i32::MIN,
    }
}

proof fn lemma_quot_fits(a: i32, b: i32)
    requires
        b != 0,
    ensures
        a == i32::MIN && b == -1 ==> trunc_div(a as int, b as int) == 0x8000_0000,
        !(a == i32::MIN && b == -1) ==> i32::MIN <= trunc_div(a as int, b as int) <= i32::MAX,
{
    let x = vstd::math::abs(a as int) as int;
    let d = vstd::math::abs(b as int) as int;
    vstd::arithmetic::div_mod::lemma_div_pos_is_pos(x, d);
    vstd::arithmetic::div_mod::lemma_div_nonincreasing(x, d);
    vstd::arithmetic::div_mod::lemma_div_basics(x);
    if d >= 2 {
        vstd::arithmetic::div_mod::lemma_div_is_ordered_by_denominator(x, 2, d);
        assert(x / 2 <= 0x4000_0000) by (nonlinear_arith)
            requires
                x <= 0x8000_0000,
        ;
    }
}

/// Applies the primitive named `name` to `stack`.
pub fn apply_word(stack: &mut Vec<i32>, name: &String) -> (r: Result<(), Error>)
    ensures
        final(stack)@ == apply_prim(name@, old(stack)@).0,
        r == as_result(apply_prim(name@, old(stack)@).1),
{
    let prim = prim_named(name.as_str());
    match stack.pop() {
        None => Err(Error::StackUnderflow),
        Some(b) => {
            match prim {
                Some(Prim::Dup) => {
                    stack.push(b);
                    stack.push(b);
                    Ok(())
                },
                Some(Prim::Drop) => Ok(()),
                _ => match stack.pop() {
                    None => Err(Error::StackUnderflow),
                    Some(a) => match prim {
                        Some(Prim::Add) => {
                            stack.push(a.wrapping_add(b));
                            Ok(())
                        },
                        Some(Prim::Sub) => {
                            stack.push(a.wrapping_sub(b));
                            Ok(())
                        },
                        Some(Prim::Mul) => {
                            stack.push(a.wrapping_mul(b));
                            Ok(())
                        },
                        Some(Prim::Div) => {
                            if b == 0 {
                                Err(Error::DivisionByZero)
                            } else {
                                stack.push(div_wrapping(a, b));
                                Ok(())
                            }
                        },
                        Some(Prim::Swap) => {
                            stack.push(b);
                            stack.push(a);
                            Ok(())
                        },
                        Some(Prim::Over) => {
                            stack.push(a);
                            stack.push(b);
                            stack.push(a);
                            Ok(())
                        },
                        _ => Err(Error::InvalidWord),
                    },
                },
            }
        },
    }
}

} // verus!
