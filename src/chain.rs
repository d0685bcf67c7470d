use vstd::prelude::*;

use crate::interpreter::{evaluate_line, fold_rest};
use crate::lexer::{at_end, decimal_value, digit_run, is_digit, lex, skip_spaces};
use crate::token::{EvalError, Operation, Token};

verus! {

/// `k` space characters.
pub open spec fn spaces(k: nat) -> Seq<char> {
    Seq::new(k, |i: int| ' ')
}

/// A non-empty run of decimal digits.
pub open spec fn is_numeral(d: Seq<char>) -> bool {
    d.len() > 0 && forall|i: int| 0 <= i < d.len() ==> is_digit(#[trigger] d[i])
}

/// The character that stands for `op`.
pub open spec fn operator_char(op: Operation) -> char {
    match op {
        Operation::Sum => '+',
        Operation::Difference => '-',
        Operation::Product => '*',
        Operation::Division => '/',
    }
}

/// The text `g0 op1 g1 n1 g2 op2 g3 n2 ... g(2k)` where each `gi` is a run of
/// `gaps[i]` spaces, each `opi` the character of `ops[i - 1]` and each `ni`
/// the numeral `nums[i - 1]`.
pub open spec fn tail_text(ops: Seq<Operation>, nums: Seq<Seq<char>>, gaps: Seq<nat>) -> Seq<
    char,
>
    decreases ops.len(),
{
    if ops.len() == 0 || nums.len() == 0 || gaps.len() < 2 {
        spaces(if gaps.len() > 0 {
            gaps[0]
        } else {
            0
        })
    } else {
        spaces(gaps[0]) + (seq![operator_char(ops[0])] + (spaces(gaps[1]) + (nums[0] + tail_text(
            ops.drop_first(),
            nums.drop_first(),
            gaps.skip(2),
        ))))
    }
}

/// A whole chain: `gaps[0]` spaces, the numeral `first`, then the operators
/// and numerals of `tail_text` with the remaining gaps.
pub open spec fn chain_text(
    first: Seq<char>,
    ops: Seq<Operation>,
    nums: Seq<Seq<char>>,
    gaps: Seq<nat>,
) -> Seq<char> {
    spaces(gaps[0]) + (first + tail_text(ops, nums, gaps.drop_first()))
}

/// The left-to-right fold of `ops` over `acc` and `vals`, stopping at the
/// first operation that fails.
pub open spec fn fold_chain(acc: u32, ops: Seq<Operation>, vals: Seq<u32>) -> Result<u32, EvalError>
    decreases ops.len(),
{
    if ops.len() == 0 || vals.len() == 0 {
        Ok(acc)
    } else {
        match ops[0].spec_calculate(acc, vals[0]) {
            Ok(x) => fold_chain(x, ops.drop_first(), vals.drop_first()),
            Err(e) => Err(e),
        }
    }
}

/// The values of the numerals `nums`, as `u32`.
pub open spec fn numeral_values(nums: Seq<Seq<char>>) -> Seq<u32> {
    Seq::new(nums.len(), |i: int| decimal_value(nums[i]) as u32)
}

proof fn lemma_skip_leading_spaces(k: nat, s: Seq<char>)
    ensures
        skip_spaces(spaces(k) + s) == skip_spaces(s),
        lex(spaces(k) + s) == lex(s),
        at_end(spaces(k) + s) == at_end(s),
    decreases k,
{
    if k > 0 {
        let t = spaces(k) + s;
        assert(t[0] == ' ');
        assert(t.drop_first() =~= spaces((k - 1) as nat) + s);
        lemma_skip_leading_spaces((k - 1) as nat, s);
    } else {
        assert(spaces(k) + s =~= s);
    }
}

proof fn lemma_digit_run_of_numeral(d: Seq<char>, rest: Seq<char>)
    requires
        forall|i: int| 0 <= i < d.len() ==> is_digit(#[trigger] d[i]),
        rest.len() == 0 || !is_digit(rest[0]),
    ensures
        digit_run(d + rest) == d.len(),
    decreases d.len(),
{
    if d.len() > 0 {
        assert((d + rest)[0] == d[0]);
        assert((d + rest).drop_first() =~= d.drop_first() + rest);
        lemma_digit_run_of_numeral(d.drop_first(), rest);
    } else {
        assert(d + rest =~= rest);
    }
}

proof fn lemma_lex_numeral(d: Seq<char>, rest: Seq<char>)
    requires
        is_numeral(d),
        decimal_value(d) <= u32::MAX,
        rest.len() == 0 || !is_digit(rest[0]),
    ensures
        lex(d + rest) == (Ok::<Token, EvalError>(Token::Integer(decimal_value(d) as u32)), rest),
{
    let t = d + rest;
    assert(t[0] == d[0]);
    assert(skip_spaces(t) == t);
    lemma_digit_run_of_numeral(d, rest);
    assert(t.take(d.len() as int) =~= d);
    assert(t.skip(d.len() as int) =~= rest);
}

proof fn lemma_lex_operator(op: Operation, rest: Seq<char>)
    ensures
        lex(seq![operator_char(op)] + rest) == (Ok::<Token, EvalError>(Token::Op(op)), rest),
        !at_end(seq![operator_char(op)] + rest),
{
    let t = seq![operator_char(op)] + rest;
    assert(t[0] == operator_char(op));
    assert(skip_spaces(t) == t);
    assert(t.drop_first() =~= rest);
}

proof fn lemma_tail_starts_without_digit(ops: Seq<Operation>, nums: Seq<Seq<char>>, gaps: Seq<nat>)
    ensures
        tail_text(ops, nums, gaps).len() == 0 || !is_digit(tail_text(ops, nums, gaps)[0]),
{
    let t = tail_text(ops, nums, gaps);
    if ops.len() == 0 || nums.len() == 0 || gaps.len() < 2 {
    } else if gaps[0] > 0 {
        assert(t[0] == ' ');
    } else {
        assert(spaces(gaps[0]) =~= Seq::<char>::empty());
        assert(t[0] == operator_char(ops[0]));
    }
}

proof fn lemma_fold_tail(acc: u32, ops: Seq<Operation>, nums: Seq<Seq<char>>, gaps: Seq<nat>)
    requires
        nums.len() == ops.len(),
        gaps.len() == 2 * ops.len() + 1,
        forall|i: int|
            0 <= i < nums.len() ==> is_numeral(#[trigger] nums[i]) && decimal_value(nums[i])
                <= u32::MAX,
    ensures
        fold_rest(tail_text(ops, nums, gaps), acc) == fold_chain(acc, ops, numeral_values(nums)),
    decreases ops.len(),
{
    let vals = numeral_values(nums);
    if ops.len() == 0 {
        assert(spaces(gaps[0]) + Seq::<char>::empty() =~= spaces(gaps[0]));
        lemma_skip_leading_spaces(gaps[0], Seq::<char>::empty());
    } else {
        let rest = tail_text(ops.drop_first(), nums.drop_first(), gaps.skip(2));
        let after_op = spaces(gaps[1]) + (nums[0] + rest);
        let s = spaces(gaps[0]) + (seq![operator_char(ops[0])] + after_op);
        assert(tail_text(ops, nums, gaps) == s);
        lemma_skip_leading_spaces(gaps[0], seq![operator_char(ops[0])] + after_op);
        lemma_lex_operator(ops[0], after_op);
        lemma_skip_leading_spaces(gaps[1], nums[0] + rest);
        lemma_tail_starts_without_digit(ops.drop_first(), nums.drop_first(), gaps.skip(2));
        assert(is_numeral(nums[0]));
        lemma_lex_numeral(nums[0], rest);
        assert(vals[0] == decimal_value(nums[0]) as u32);
        assert(numeral_values(nums.drop_first()) =~= vals.drop_first());
        match ops[0].spec_calculate(acc, vals[0]) {
            Ok(x) => {
                lemma_fold_tail(x, ops.drop_first(), nums.drop_first(), gaps.skip(2));
            },
            Err(e) => {},
        }
    }
}

/// A line made of numerals joined by operators, with any runs of spaces
/// around them, evaluates to the left-to-right fold of its operators over
/// the numerals' values; the first operation that fails gives the error.
pub proof fn lemma_chain_folds_left_to_right(
    first: Seq<char>,
    ops: Seq<Operation>,
    nums: Seq<Seq<char>>,
    gaps: Seq<nat>,
)
    requires
        is_numeral(first),
        decimal_value(first) <= u32::MAX,
        nums.len() == ops.len(),
        gaps.len() == 2 * ops.len() + 2,
        forall|i: int|
            0 <= i < nums.len() ==> is_numeral(#[trigger] nums[i]) && decimal_value(nums[i])
                <= u32::MAX,
    ensures
        evaluate_line(chain_text(first, ops, nums, gaps)) == fold_chain(
            decimal_value(first) as u32,
            ops,
            numeral_values(nums),
        ),
{
    let tail = tail_text(ops, nums, gaps.drop_first());
    lemma_skip_leading_spaces(gaps[0], first + tail);
    lemma_tail_starts_without_digit(ops, nums, gaps.drop_first());
    lemma_lex_numeral(first, tail);
    lemma_fold_tail(decimal_value(first) as u32, ops, nums, gaps.drop_first());
}

} // verus!
