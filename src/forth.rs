//! The interpreter: its stack, its table of words, and evaluation of input.
use std::rc::Rc;
use vstd::prelude::*;

use crate::op::{
    apply_prim, apply_word, as_result, instr_of, instrs_of, lemma_instrs_of, lemma_run_all_stops,
    run, run_all, Error, Instr, Op, Value,
};
use crate::token::{
    ascii_upper, chars_of, parse_i32, parse_number, split_tokens, to_upper, words_of, TokenType,
};

verus! {

/// Where the evaluator stands between two tokens.
#[derive(Debug, Clone, Copy, PartialEq, Eq, Structural)]
pub enum WordReadState {
    /// Running tokens as they come.
    NotReading,
    /// Just after `:`, waiting for the name of the word to define.
    ToreadWord,
    /// Collecting the body of the word being defined.
    ToreadDef,
}

/// An interpreter: a stack of integers and a table of words.
pub struct Forth {
    stack: Vec<i32>,
    words: Vec<(Vec<char>, Rc<Vec<Op>>)>,
    dict: Ghost<Map<Seq<char>, Seq<Instr>>>,
}

/// The evaluator's state between two tokens.
pub ghost struct Scan {
    pub stack: Seq<i32>,
    pub dict: Map<Seq<char>, Seq<Instr>>,
    pub mode: WordReadState,
    pub name: Seq<char>,
    pub body: Seq<Instr>,
}

pub open spec fn colon() -> Seq<char> {
    seq![':']
}

pub open spec fn semicolon() -> Seq<char> {
    seq![';']
}

pub open spec fn builtin(w: Seq<char>) -> Seq<Instr> {
    seq![Instr::Prim(w)]
}

/// The table that a new interpreter starts with: each primitive under its own name.
pub open spec fn builtin_dict() -> Map<Seq<char>, Seq<Instr>> {
    Map::empty().insert(seq!['+'], builtin(seq!['+'])).insert(seq!['-'], builtin(seq!['-'])).insert(
        seq!['*'],
        builtin(seq!['*']),
    ).insert(seq!['/'], builtin(seq!['/'])).insert(
        seq!['D', 'U', 'P'],
        builtin(seq!['D', 'U', 'P']),
    ).insert(seq!['D', 'R', 'O', 'P'], builtin(seq!['D', 'R', 'O', 'P'])).insert(
        seq!['S', 'W', 'A', 'P'],
        builtin(seq!['S', 'W', 'A', 'P']),
    ).insert(seq!['O', 'V', 'E', 'R'], builtin(seq!['O', 'V', 'E', 'R']))
}

/// The effect of one token on the evaluator's state, and the error it raises, if any.
pub open spec fn step(s: Scan, tok: Seq<char>) -> (Scan, Option<Error>) {
    match parse_i32(tok) {
        Some(n) => match s.mode {
            WordReadState::NotReading => (Scan { stack: s.stack.push(n), ..s }, None),
            WordReadState::ToreadWord => (s, Some(Error::InvalidWord)),
            WordReadState::ToreadDef => (Scan { body: s.body.push(Instr::Lit(n)), ..s }, None),
        },
        None => {
            let w = ascii_upper(tok);
            match s.mode {
                WordReadState::NotReading => if w == colon() {
                    (Scan { mode: WordReadState::ToreadWord, ..s }, None)
                } else if w == semicolon() {
                    (s, Some(Error::InvalidWord))
                } else if s.dict.contains_key(w) {
                    let o = run_all(s.dict[w], s.stack);
                    (Scan { stack: o.0, ..s }, o.1)
                } else {
                    (s, Some(Error::UnknownWord))
                },
                WordReadState::ToreadWord => if w == colon() || w == semicolon() {
                    (s, Some(Error::InvalidWord))
                } else {
                    (Scan { mode: WordReadState::ToreadDef, name: w, body: seq![], ..s }, None)
                },
                WordReadState::ToreadDef => if w == semicolon() {
                    if s.body.len() == 0 {
                        (s, Some(Error::InvalidWord))
                    } else {
                        (
                            Scan {
                                dict: s.dict.insert(s.name, s.body),
                                mode: WordReadState::NotReading,
                                name: seq![],
                                body: seq![],
                                ..s
                            },
                            None,
                        )
                    }
                } else if w == colon() {
                    (s, Some(Error::InvalidWord))
                } else if s.dict.contains_key(w) {
                    (Scan { body: s.body.push(Instr::Call(s.dict[w])), ..s }, None)
                } else {
                    (s, Some(Error::UnknownWord))
                },
            }
        },
    }
}

/// The tokens run in order from `s`, stopping at the first error.
pub open spec fn run_tokens(s: Scan, toks: Seq<Seq<char>>) -> (Scan, Option<Error>)
    decreases toks.len(),
{
    if toks.len() == 0 {
        (s, None)
    } else {
        let prev = run_tokens(s, toks.drop_last());
        if prev.1 is Some {
            prev
        } else {
            step(prev.0, toks.last())
        }
    }
}

pub open spec fn start(stack: Seq<i32>, dict: Map<Seq<char>, Seq<Instr>>) -> Scan {
    Scan { stack, dict, mode: WordReadState::NotReading, name: seq![], body: seq![] }
}

/// The state after evaluating `input`, and the result: the first error, or
/// `InvalidWord` where a definition is left open at the end.
pub open spec fn eval_outcome(
    stack: Seq<i32>,
    dict: Map<Seq<char>, Seq<Instr>>,
    input: Seq<char>,
) -> (Scan, Result<(), Error>) {
    let o = run_tokens(start(stack, dict), words_of(input));
    (
        o.0,
        match o.1 {
            Some(e) => Err(e),
            None => if o.0.mode == WordReadState::NotReading {
                Ok(())
            } else {
                Err(Error::InvalidWord)
            },
        },
    )
}

pub proof fn lemma_run_tokens_next(s: Scan, toks: Seq<Seq<char>>, i: int)
    requires
        0 <= i < toks.len(),
        run_tokens(s, toks.take(i)).1 is None,
    ensures
        run_tokens(s, toks.take(i + 1)) == step(run_tokens(s, toks.take(i)).0, toks[i]),
{
    assert(toks.take(i + 1).drop_last() =~= toks.take(i));
}

/// Once a prefix of the tokens has failed, the whole run fails the same way.
pub proof fn lemma_run_tokens_stops(s: Scan, toks: Seq<Seq<char>>, k: int)
    requires
        0 <= k <= toks.len(),
        run_tokens(s, toks.take(k)).1 is Some,
    ensures
        run_tokens(s, toks) == run_tokens(s, toks.take(k)),
    decreases toks.len() - k,
{
    if k < toks.len() {
        assert(toks.take(k + 1).drop_last() =~= toks.take(k));
        lemma_run_tokens_stops(s, toks, k + 1);
    } else {
        assert(toks.take(k) =~= toks);
    }
}

/// Whether two character vectors are equal.
fn same_chars(a: &Vec<char>, b: &Vec<char>) -> (r: bool)
    ensures
        r == (a@ == b@),
{
    if a.len() != b.len() {
        return false;
    }
    let mut i: usize = 0;
    while i < a.len()
        invariant
            a@.len() == b@.len(),
            i <= a@.len(),
            forall|j: int| 0 <= j < i ==> a@[j] == b@[j],
        decreases a@.len() - i,
    {
        if a[i] != b[i] {
            return false;
        }
        i = i + 1;
    }
    assert(a@ =~= b@);
    true
}

impl Default for Forth {
    fn default() -> (r: Forth)
        ensures
            r.wf(),
            r.values() == Seq::<i32>::empty(),
            r.words() == builtin_dict(),
    {
        Forth::new()
    }
}

impl Forth {
    /// The stack, bottom first.
    pub closed spec fn values(&self) -> Seq<i32> {
        self.stack@
    }

    /// The table of words: each upper-case name with the instructions of its body.
    pub closed spec fn words(&self) -> Map<Seq<char>, Seq<Instr>> {
        self.dict@
    }

    /// The entries have distinct names and agree with the table.
    pub closed spec fn wf(&self) -> bool {
        &&& forall|i: int, j: int|
            0 <= i < j < self.words@.len() ==> (#[trigger] self.words@[i]).0@ != (
            #[trigger] self.words@[j]).0@
        &&& forall|k: Seq<char>|
            #[trigger] self.dict@.contains_key(k) ==> exists|i: int|
                0 <= i < self.words@.len() && (#[trigger] self.words@[i]).0@ == k
        &&& forall|i: int|
            0 <= i < self.words@.len() ==> #[trigger] self.dict@.contains_key(
                self.words@[i].0@,
            ) && self.dict@[self.words@[i].0@] == instrs_of(self.words@[i].1@)
    }

    /// An interpreter with an empty stack and the eight primitives defined.
    pub fn new() -> (r: Forth)
        ensures
            r.wf(),
            r.values() == Seq::<i32>::empty(),
            r.words() == builtin_dict(),
    {
        let mut f = Forth { stack: Vec::new(), words: Vec::new(), dict: Ghost(Map::empty()) };
        proof {
            reveal_strlit("+");
            reveal_strlit("-");
            reveal_strlit("*");
            reveal_strlit("/");
            reveal_strlit("DUP");
            reveal_strlit("DROP");
            reveal_strlit("SWAP");
            reveal_strlit("OVER");
            assert("+"@ =~= seq!['+']);
            assert("-"@ =~= seq!['-']);
            assert("*"@ =~= seq!['*']);
            assert("/"@ =~= seq!['/']);
            assert("DUP"@ =~= seq!['D', 'U', 'P']);
            assert("DROP"@ =~= seq!['D', 'R', 'O', 'P']);
            assert("SWAP"@ =~= seq!['S', 'W', 'A', 'P']);
            assert("OVER"@ =~= seq!['O', 'V', 'E', 'R']);
        }
        f.define_builtin("+");
        f.define_builtin("-");
        f.define_builtin("*");
        f.define_builtin("/");
        f.define_builtin("DUP");
        f.define_builtin("DROP");
        f.define_builtin("SWAP");
        f.define_builtin("OVER");
        assert(f.dict@ =~= builtin_dict());
        f
    }

    /// Enters the primitive `name` under its own name.
    fn define_builtin(&mut self, name: &str)
        requires
            old(self).wf(),
        ensures
            final(self).wf(),
            final(self).stack@ == old(self).stack@,
            final(self).dict@ == old(self).dict@.insert(name@, builtin(name@)),
    {
        let mut body: Vec<Op> = Vec::new();
        body.push(Op::Word(String::from_str(name)));
        proof {
            lemma_instrs_of(body@);
            assert(instrs_of(body@) =~= builtin(name@));
        }
        self.define(chars_of(name), body);
    }

    /// The stack, bottom first.
    pub fn stack(&self) -> (r: &[Value])
        ensures
            r@ == self.values(),
    {
        self.stack.as_slice()
    }

    /// Classifies a token: a base-10 signed 32-bit integer is a number, anything
    /// else a word, in upper case.
    pub fn evaluate_token_type(token: &str) -> (r: TokenType)
        ensures
            match r {
                TokenType::Num(n) => parse_i32(token@) == Some(n),
                TokenType::Word(w) => parse_i32(token@) is None && w@ == ascii_upper(token@),
            },
    {
        match parse_number(&chars_of(token)) {
            Some(n) => TokenType::Num(n),
            None => TokenType::Word(to_upper(token)),
        }
    }

    /// Runs one operation on the stack. Operations run before a failure keep
    /// their effect.
    pub fn push_in_stack(&mut self, token: &Op) -> (r: Result<(), Error>)
        requires
            old(self).wf(),
        ensures
            final(self).wf(),
            final(self).words() == old(self).words(),
            final(self).values() == run(instr_of(*token), old(self).values()).0,
            r == as_result(run(instr_of(*token), old(self).values()).1),
        decreases instr_of(*token),
    {
        match token {
            Op::Word(name) => self.apply_prim_word(name),
            Op::Num(n) => {
                let ghost before = *self;
                self.stack.push(*n);
                proof {
                    Self::lemma_wf_same_table(before, *self);
                }
                Ok(())
            },
            Op::Ref(ops) => {
                let ghost st0 = self.stack@;
                let ghost body = instrs_of(ops@);
                proof {
                    lemma_instrs_of(ops@);
                }
                let n = ops.len();
                let mut i: usize = 0;
                while i < n
                    invariant
                        self.wf(),
                        self.dict@ == old(self).dict@,
                        st0 == old(self).stack@,
                        instr_of(*token) == Instr::Call(body),
                        n == ops@.len(),
                        body == instrs_of(ops@),
                        body.len() == n,
                        forall|j: int| 0 <= j < n ==> #[trigger] body[j] == instr_of(ops@[j]),
                        i <= n,
                        self.stack@ == run_all(body.take(i as int), st0).0,
                        run_all(body.take(i as int), st0).1 is None,
                    decreases n - i,
                {
                    proof {
                        assert(body.take(i + 1).drop_last() =~= body.take(i as int));
                        assert(body.take(i + 1).last() == instr_of(ops@[i as int]));
                        assert(decreases_to!(instr_of(*token) => body[i as int]));
                    }
                    let r = self.push_in_stack(&ops[i]);
                    match r {
                        Err(e) => {
                            proof {
                                assert(run_all(body.take(i + 1), st0) == run(
                                    body[i as int],
                                    run_all(body.take(i as int), st0).0,
                                ));
                                lemma_run_all_stops(body, st0, i + 1);
                            }
                            return Err(e);
                        },
                        Ok(()) => {},
                    }
                    i = i + 1;
                }
                assert(body.take(n as int) =~= body);
                Ok(())
            },
        }
    }

    /// Applies the primitive named `name` to the stack.
    fn apply_prim_word(&mut self, name: &String) -> (r: Result<(), Error>)
        requires
            old(self).wf(),
        ensures
            final(self).wf(),
            final(self).dict@ == old(self).dict@,
            final(self).stack@ == apply_prim(name@, old(self).stack@).0,
            r == as_result(apply_prim(name@, old(self).stack@).1),
    {
        let ghost before = *self;
        let r = apply_word(&mut self.stack, name);
        proof {
            Self::lemma_wf_same_table(before, *self);
        }
        r
    }

    proof fn lemma_wf_same_table(a: Forth, b: Forth)
        requires
            a.wf(),
            a.words@ == b.words@,
            a.dict@ == b.dict@,
        ensures
            b.wf(),
    {
    }

    /// Evaluates the whitespace-separated tokens of `input` in order, stopping
    /// at the first error. The stack and the table keep what was done before an
    /// error; a definition still open at the end is an error.
    pub fn eval(&mut self, input: &str) -> (r: Result<(), Error>)
        requires
            old(self).wf(),
        ensures
            final(self).wf(),
            ({
                let o = eval_outcome(old(self).values(), old(self).words(), input@);
                &&& final(self).values() == o.0.stack
                &&& final(self).words() == o.0.dict
                &&& r == o.1
            }),
    {
        let tokens = split_tokens(input);
        let ghost toks = words_of(input@);
        let ghost s0 = start(self.stack@, self.dict@);
        let mut state = WordReadState::NotReading;
        let mut temp_key: Vec<char> = Vec::new();
        let mut temp_value: Vec<Op> = Vec::new();
        proof {
            assert(toks.take(0) =~= Seq::<Seq<char>>::empty());
            lemma_instrs_of(temp_value@);
            assert(instrs_of(temp_value@) =~= Seq::<Instr>::empty());
        }
        let mut i: usize = 0;
        while i < tokens.len()
            invariant
                self.wf(),
                s0 == start(old(self).stack@, old(self).dict@),
                toks == words_of(input@),
                tokens@.len() == toks.len(),
                forall|j: int| 0 <= j < toks.len() ==> (#[trigger] tokens@[j])@ == toks[j],
                i <= tokens@.len(),
                run_tokens(s0, toks.take(i as int)).1 is None,
                run_tokens(s0, toks.take(i as int)).0 == (Scan {
                    stack: self.stack@,
                    dict: self.dict@,
                    mode: state,
                    name: temp_key@,
                    body: instrs_of(temp_value@),
                }),
            decreases tokens@.len() - i,
        {
            proof {
                lemma_run_tokens_next(s0, toks, i as int);
            }
            let r = self.step_token(tokens[i], &mut state, &mut temp_key, &mut temp_value);
            match r {
                Err(e) => {
                    proof {
                        lemma_run_tokens_stops(s0, toks, i + 1);
                    }
                    return Err(e);
                },
                Ok(()) => {},
            }
            i = i + 1;
        }
        proof {
            assert(toks.take(toks.len() as int) =~= toks);
        }
        match state {
            WordReadState::NotReading => Ok(()),
            _ => Err(Error::InvalidWord),
        }
    }

    /// Handles one token: the executable counterpart of `step`.
    fn step_token(
        &mut self,
        token: &str,
        state: &mut WordReadState,
        key: &mut Vec<char>,
        body: &mut Vec<Op>,
    ) -> (r: Result<(), Error>)
        requires
            old(self).wf(),
        ensures
            final(self).wf(),
            ({
                let o = step(
                    Scan {
                        stack: old(self).stack@,
                        dict: old(self).dict@,
                        mode: *old(state),
                        name: old(key)@,
                        body: instrs_of(old(body)@),
                    },
                    token@,
                );
                &&& o.0 == (Scan {
                    stack: final(self).stack@,
                    dict: final(self).dict@,
                    mode: *final(state),
                    name: final(key)@,
                    body: instrs_of(final(body)@),
                })
                &&& r == as_result(o.1)
            }),
    {
        let ghost before = *self;
        match Self::evaluate_token_type(token) {
            TokenType::Num(n) => match *state {
                WordReadState::NotReading => {
                    self.stack.push(n);
                    proof {
                        Self::lemma_wf_same_table(before, *self);
                    }
                    Ok(())
                },
                WordReadState::ToreadWord => Err(Error::InvalidWord),
                WordReadState::ToreadDef => {
                    let ghost b = body@;
                    let lit = Op::Num(n);
                    assert(instr_of(lit) == Instr::Lit(n));
                    body.push(lit);
                    assert(body@.drop_last() =~= b);
                    assert(instrs_of(body@) == instrs_of(b).push(Instr::Lit(n)));
                    Ok(())
                },
            },
            TokenType::Word(w) => {
                let wc = chars_of(w.as_str());
                let is_colon = wc.len() == 1 && wc[0] == ':';
                let is_semicolon = wc.len() == 1 && wc[0] == ';';
                proof {
                    if wc@.len() == 1 {
                        if wc@[0] == ':' {
                            assert(wc@ =~= colon());
                        }
                        if wc@[0] == ';' {
                            assert(wc@ =~= semicolon());
                        }
                    }
                }
                match *state {
                    WordReadState::NotReading => {
                        if is_colon {
                            *state = WordReadState::ToreadWord;
                            Ok(())
                        } else if is_semicolon {
                            Err(Error::InvalidWord)
                        } else {
                            match self.find(&wc) {
                                Some(i) => {
                                    let def = Op::Ref(Rc::clone(&self.words[i].1));
                                    self.push_in_stack(&def)
                                },
                                None => Err(Error::UnknownWord),
                            }
                        }
                    },
                    WordReadState::ToreadWord => {
                        if is_colon || is_semicolon {
                            Err(Error::InvalidWord)
                        } else {
                            *key = wc;
                            *body = Vec::new();
                            *state = WordReadState::ToreadDef;
                            proof {
                                lemma_instrs_of(body@);
                                assert(instrs_of(body@) =~= Seq::<Instr>::empty());
                            }
                            Ok(())
                        }
                    },
                    WordReadState::ToreadDef => {
                        if is_semicolon {
                            if body.len() == 0 {
                                proof {
                                    lemma_instrs_of(body@);
                                }
                                Err(Error::InvalidWord)
                            } else {
                                proof {
                                    lemma_instrs_of(body@);
                                }
                                let mut k: Vec<char> = Vec::new();
                                let mut b: Vec<Op> = Vec::new();
                                std::mem::swap(&mut k, key);
                                std::mem::swap(&mut b, body);
                                self.define(k, b);
                                *state = WordReadState::NotReading;
                                proof {
                                    lemma_instrs_of(body@);
                                    assert(instrs_of(body@) =~= Seq::<Instr>::empty());
                                    assert(key@ =~= Seq::<char>::empty());
                                }
                                Ok(())
                            }
                        } else if is_colon {
                            Err(Error::InvalidWord)
                        } else {
                            match self.find(&wc) {
                                Some(i) => {
                                    let ghost b = body@;
                                    let def = Op::Ref(Rc::clone(&self.words[i].1));
                                    assert(instr_of(def) == Instr::Call(self.dict@[wc@]));
                                    body.push(def);
                                    assert(body@.drop_last() =~= b);
                                    assert(instrs_of(body@) == instrs_of(b).push(instr_of(def)));
                                    Ok(())
                                },
                                None => Err(Error::UnknownWord),
                            }
                        }
                    },
                }
            },
        }
    }

    /// The index of the entry named `name`.
    fn find(&self, name: &Vec<char>) -> (r: Option<usize>)
        requires
            self.wf(),
        ensures
            match r {
                Some(i) => i < self.words@.len() && self.words@[i as int].0@ == name@
                    && self.dict@.contains_key(name@),
                None => !self.dict@.contains_key(name@),
            },
    {
        let mut i: usize = 0;
        while i < self.words.len()
            invariant
                self.wf(),
                i <= self.words@.len(),
                forall|j: int| 0 <= j < i ==> (#[trigger] self.words@[j]).0@ != name@,
            decreases self.words@.len() - i,
        {
            if same_chars(&self.words[i].0, name) {
                return Some(i);
            }
            i = i + 1;
        }
        None
    }

    /// Enters `body` under `name`, replacing any earlier entry of that name.
    fn define(&mut self, name: Vec<char>, body: Vec<Op>)
        requires
            old(self).wf(),
        ensures
            final(self).wf(),
            final(self).stack@ == old(self).stack@,
            final(self).dict@ == old(self).dict@.insert(name@, instrs_of(body@)),
    {
        let ghost key = name@;
        let ghost val = instrs_of(body@);
        let found = self.find(&name);
        let rc = Rc::new(body);
        match found {
            Some(i) => {
                self.words[i] = (name, rc);
            },
            None => {
                self.words.push((name, rc));
            },
        }
        self.dict = Ghost(self.dict@.insert(key, val));
        assert forall|k: Seq<char>| #[trigger] self.dict@.contains_key(k) implies exists|i: int|
            0 <= i < self.words@.len() && (#[trigger] self.words@[i]).0@ == k by {
            if k == key {
                match found {
                    Some(i) => assert(self.words@[i as int].0@ == k),
                    None => assert(self.words@[self.words@.len() - 1].0@ == k),
                }
            } else {
                let i = choose|i: int|
                    0 <= i < old(self).words@.len() && (#[trigger] old(self).words@[i]).0@ == k;
                assert(self.words@[i].0@ == k);
            }
        }
    }
}

} // verus!
