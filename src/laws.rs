//! Properties of evaluation that hold for every state and every token.
use vstd::prelude::*;

use crate::forth::{
    colon, eval_outcome, run_tokens, semicolon, start, step, Scan, WordReadState,
};
use crate::op::{apply_prim, Error, Instr};
use crate::token::{
    all_digits, ascii_upper, is_digit, parse_i32, signed_value, upper_char, words_of,
};

verus! {

proof fn lemma_upper_char_fixes_number_chars(c: char)
    requires
        is_digit(upper_char(c)) || upper_char(c) == '-' || upper_char(c) == '+',
    ensures
        upper_char(c) == c,
{
    if 'a' <= c <= 'z' {
        let u = upper_char(c);
        assert(u as u32 == (c as u32) - 32);
        assert('A' <= u <= 'Z');
    }
}

/// A token that upper-casing turns into a number was that number already.
proof fn lemma_upper_keeps_numbers(t: Seq<char>)
    requires
        signed_value(ascii_upper(t)) is Some,
    ensures
        ascii_upper(t) == t,
{
    let u = ascii_upper(t);
    assert forall|i: int| 0 <= i < t.len() implies #[trigger] u[i] == t[i] by {
        if i == 0 {
            lemma_upper_char_fixes_number_chars(t[0]);
        } else {
            if u[0] == '-' || u[0] == '+' {
                assert(u.drop_first()[i - 1] == u[i]);
                assert(is_digit(u[i]));
            } else {
                assert(all_digits(u));
                assert(is_digit(u[i]));
            }
            lemma_upper_char_fixes_number_chars(t[i]);
        }
    }
    assert(u =~= t);
}

/// Upper-casing a token does not change the number it spells, if any.
pub proof fn lemma_parse_ignores_case(t: Seq<char>)
    ensures
        parse_i32(ascii_upper(t)) == parse_i32(t),
{
    if signed_value(ascii_upper(t)) is Some {
        lemma_upper_keeps_numbers(t);
    } else if signed_value(t) is Some {
        let u = ascii_upper(t);
        assert forall|i: int| 0 <= i < t.len() implies #[trigger] u[i] == t[i] by {
            if i == 0 {
                assert(is_digit(t[0]) || t[0] == '-' || t[0] == '+') by {
                    if !(t[0] == '-' || t[0] == '+') {
                        assert(all_digits(t));
                    }
                }
            } else {
                if t[0] == '-' || t[0] == '+' {
                    assert(t.drop_first()[i - 1] == t[i]);
                } else {
                    assert(all_digits(t));
                }
                assert(is_digit(t[i]));
            }
        }
        assert(u =~= t);
    }
}

/// Tokens that differ only in the case of ASCII letters have the same effect
/// on every state: built-in and user words alike are named without regard to case.
pub proof fn lemma_step_ignores_case(s: Scan, t1: Seq<char>, t2: Seq<char>)
    requires
        ascii_upper(t1) == ascii_upper(t2),
    ensures
        step(s, t1) == step(s, t2),
{
    lemma_parse_ignores_case(t1);
    lemma_parse_ignores_case(t2);
}

/// Two token sequences that agree up to the case of ASCII letters run the same way.
pub proof fn lemma_run_ignores_case(s: Scan, a: Seq<Seq<char>>, b: Seq<Seq<char>>)
    requires
        a.len() == b.len(),
        forall|i: int| 0 <= i < a.len() ==> ascii_upper(#[trigger] a[i]) == ascii_upper(b[i]),
    ensures
        run_tokens(s, a) == run_tokens(s, b),
    decreases a.len(),
{
    if a.len() > 0 {
        let (a0, b0) = (a.drop_last(), b.drop_last());
        assert forall|i: int| 0 <= i < a0.len() implies ascii_upper(#[trigger] a0[i])
            == ascii_upper(b0[i]) by {
            assert(a0[i] == a[i] && b0[i] == b[i]);
        }
        lemma_run_ignores_case(s, a0, b0);
        let prev = run_tokens(s, a0);
        if prev.1 is None {
            lemma_step_ignores_case(prev.0, a.last(), b.last());
        }
    }
}

/// Two inputs whose tokens agree up to the case of ASCII letters evaluate alike.
pub proof fn lemma_eval_ignores_case(
    stack: Seq<i32>,
    dict: Map<Seq<char>, Seq<Instr>>,
    a: Seq<char>,
    b: Seq<char>,
)
    requires
        words_of(a).len() == words_of(b).len(),
        forall|i: int|
            0 <= i < words_of(a).len() ==> ascii_upper(#[trigger] words_of(a)[i]) == ascii_upper(
                words_of(b)[i],
            ),
    ensures
        eval_outcome(stack, dict, a) == eval_outcome(stack, dict, b),
{
    lemma_run_ignores_case(start(stack, dict), words_of(a), words_of(b));
}

/// A token changes the table at most under the name being defined: redefining
/// one word leaves every other word's body as it was, including the bodies it
/// captured from the word redefined.
pub proof fn lemma_step_keeps_other_words(s: Scan, t: Seq<char>, k: Seq<char>)
    requires
        k != s.name,
    ensures
        step(s, t).0.dict.contains_key(k) == s.dict.contains_key(k),
        s.dict.contains_key(k) ==> step(s, t).0.dict[k] == s.dict[k],
{
}

/// Naming a word inside a definition captures its current body, so a word whose
/// new body names itself runs its previous definition there.
pub proof fn lemma_capture_previous_body(s: Scan, t: Seq<char>)
    requires
        s.mode == WordReadState::ToreadDef,
        parse_i32(t) is None,
        ascii_upper(t) != colon(),
        ascii_upper(t) != semicolon(),
        s.dict.contains_key(ascii_upper(t)),
    ensures
        step(s, t) == (
            Scan { body: s.body.push(Instr::Call(s.dict[ascii_upper(t)])), ..s },
            None::<Error>,
        ),
{
}

/// While a body is captured, each token that does not close or break the
/// definition adds exactly one instruction: bodies are never expanded.
pub proof fn lemma_capture_one_per_token(s: Scan, t: Seq<char>)
    requires
        s.mode == WordReadState::ToreadDef,
        ascii_upper(t) != semicolon(),
        step(s, t).1 is None,
    ensures
        step(s, t).0.mode == WordReadState::ToreadDef,
        step(s, t).0.body.len() == s.body.len() + 1,
        step(s, t).0.dict == s.dict,
{
}

/// Dividing by zero fails with both operands popped.
pub proof fn lemma_division_by_zero(st: Seq<i32>, a: i32)
    ensures
        apply_prim(seq!['/'], st.push(a).push(0)) == (st, Some(Error::DivisionByZero)),
{
    assert(st.push(a).push(0).drop_last() =~= st.push(a));
    assert(st.push(a).drop_last() =~= st);
    assert(seq!['/'] != seq!['+'] && seq!['/'] != seq!['-'] && seq!['/'] != seq!['*']) by {
        assert(seq!['/'][0] != seq!['+'][0]);
        assert(seq!['/'][0] != seq!['-'][0]);
        assert(seq!['/'][0] != seq!['*'][0]);
    }
}

/// `OVER` copies the second value to the top; `SWAP` exchanges the top two.
pub proof fn lemma_over_and_swap(st: Seq<i32>, a: i32, b: i32)
    ensures
        apply_prim(seq!['O', 'V', 'E', 'R'], st.push(a).push(b)) == (
            st.push(a).push(b).push(a),
            None::<Error>,
        ),
        apply_prim(seq!['S', 'W', 'A', 'P'], st.push(a).push(b)) == (
            st.push(b).push(a),
            None::<Error>,
        ),
{
    assert(st.push(a).push(b).drop_last() =~= st.push(a));
    assert(st.push(a).drop_last() =~= st);
    assert(seq!['O', 'V', 'E', 'R'] != seq!['D', 'U', 'P']);
    assert(seq!['O', 'V', 'E', 'R'] != seq!['D', 'R', 'O', 'P']);
    assert(seq!['O', 'V', 'E', 'R'] != seq!['+']);
    assert(seq!['S', 'W', 'A', 'P'] != seq!['D', 'U', 'P']);
    assert(seq!['S', 'W', 'A', 'P'] != seq!['D', 'R', 'O', 'P']);
    assert(seq!['S', 'W', 'A', 'P'] != seq!['+']);
}

/// A number where a definition's name is expected is rejected.
pub proof fn lemma_numeric_name_rejected(s: Scan, t: Seq<char>)
    requires
        s.mode == WordReadState::ToreadWord,
        parse_i32(t) is Some,
    ensures
        step(s, t) == (s, Some(Error::InvalidWord)),
{
}

/// A word with no entry in the table is unknown, and nothing changes.
pub proof fn lemma_unknown_word(s: Scan, t: Seq<char>)
    requires
        s.mode == WordReadState::NotReading,
        parse_i32(t) is None,
        ascii_upper(t) != colon(),
        ascii_upper(t) != semicolon(),
        !s.dict.contains_key(ascii_upper(t)),
    ensures
        step(s, t) == (s, Some(Error::UnknownWord)),
{
}

/// Input that ends inside a definition is invalid.
pub proof fn lemma_unterminated_definition(
    stack: Seq<i32>,
    dict: Map<Seq<char>, Seq<Instr>>,
    input: Seq<char>,
)
    requires
        run_tokens(start(stack, dict), words_of(input)).1 is None,
        run_tokens(start(stack, dict), words_of(input)).0.mode != WordReadState::NotReading,
    ensures
        eval_outcome(stack, dict, input).1 == Err::<(), Error>(Error::InvalidWord),
{
}

} // verus!
