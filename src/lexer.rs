use vstd::prelude::*;

use crate::token::{EvalError, Operation, Token};

verus! {

/// The one character that separates tokens without meaning anything.
pub open spec fn is_space(c: char) -> bool {
    c == ' '
}

pub open spec fn is_digit(c: char) -> bool {
    '0' <= c && c <= '9'
}

pub open spec fn digit_value(c: char) -> nat {
    (c as int - '0' as int) as nat
}

/// The operator bound to `c`, if any.
pub open spec fn operation_of(c: char) -> Option<Operation> {
    if c == '+' {
        Some(Operation::Sum)
    } else if c == '-' {
        Some(Operation::Difference)
    } else if c == '*' {
        Some(Operation::Product)
    } else if c == '/' {
        Some(Operation::Division)
    } else {
        None
    }
}

/// `s` without its leading run of spaces.
pub open spec fn skip_spaces(s: Seq<char>) -> Seq<char>
    decreases s.len(),
{
    if s.len() > 0 && is_space(s[0]) {
        skip_spaces(s.drop_first())
    } else {
        s
    }
}

/// The length of the leading run of decimal digits of `s`.
pub open spec fn digit_run(s: Seq<char>) -> nat
    decreases s.len(),
{
    if s.len() > 0 && is_digit(s[0]) {
        1 + digit_run(s.drop_first())
    } else {
        0
    }
}

/// Base-10 accumulation of the digits `d`, read first to last, starting
/// from `acc`: each digit turns `acc` into `acc * 10 + digit`.
pub open spec fn accumulate_digits(acc: nat, d: Seq<char>) -> nat
    decreases d.len(),
{
    if d.len() == 0 {
        acc
    } else {
        accumulate_digits(acc * 10 + digit_value(d[0]), d.drop_first())
    }
}

/// The value of the decimal numeral `d`.
pub open spec fn decimal_value(d: Seq<char>) -> nat {
    accumulate_digits(0, d)
}

/// The next token of the input `s`, and the input that is left after it.
///
/// Spaces before the token are skipped. An operator takes one character, an
/// integer the whole run of digits. A character that starts no token is an
/// error and stays in the input; a numeral beyond `u32` is an error after
/// its digits.
pub open spec fn lex(s: Seq<char>) -> (Result<Token, EvalError>, Seq<char>) {
    let t = skip_spaces(s);
    if t.len() == 0 {
        (Ok(Token::Eof), t)
    } else if operation_of(t[0]) is Some {
        (Ok(Token::Op(operation_of(t[0]).unwrap())), t.drop_first())
    } else if is_digit(t[0]) {
        let n = digit_run(t);
        let v = decimal_value(t.take(n as int));
        if v <= u32::MAX {
            (Ok(Token::Integer(v as u32)), t.skip(n as int))
        } else {
            (Err(EvalError::ArithmeticOverflow), t.skip(n as int))
        }
    } else {
        (Err(EvalError::InvalidToken), t)
    }
}

/// Whether nothing but spaces is left of `s`.
pub open spec fn at_end(s: Seq<char>) -> bool {
    skip_spaces(s).len() == 0
}

pub proof fn lemma_skip_spaces_suffix(s: Seq<char>)
    ensures
        skip_spaces(s).len() <= s.len(),
        skip_spaces(s) == s.skip(s.len() - skip_spaces(s).len()),
    decreases s.len(),
{
    if s.len() > 0 && is_space(s[0]) {
        lemma_skip_spaces_suffix(s.drop_first());
        assert(s.drop_first().skip(s.len() - 1 - skip_spaces(s).len()) =~= s.skip(
            s.len() - skip_spaces(s).len(),
        ));
    } else {
        assert(s.skip(0) =~= s);
    }
}

pub proof fn lemma_digit_run_bound(s: Seq<char>)
    ensures
        digit_run(s) <= s.len(),
        forall|i: int| 0 <= i < digit_run(s) ==> is_digit(#[trigger] s[i]),
        digit_run(s) < s.len() ==> !is_digit(s[digit_run(s) as int]),
    decreases s.len(),
{
    if s.len() > 0 && is_digit(s[0]) {
        lemma_digit_run_bound(s.drop_first());
        assert forall|i: int| 0 <= i < digit_run(s) implies is_digit(#[trigger] s[i]) by {
            if i > 0 {
                assert(s[i] == s.drop_first()[i - 1]);
            }
        }
    }
}

/// Once the input is used up, reading again yields `Token::Eof` again and
/// leaves the input as it is.
pub proof fn lemma_eof_repeats(s: Seq<char>)
    requires
        lex(s).0 == Ok::<Token, EvalError>(Token::Eof),
    ensures
        lex(lex(s).1) == lex(s),
{
}

/// Reading a token only ever drops a prefix of the input: what is left is a
/// suffix of what was there.
pub proof fn lemma_lex_leaves_suffix(s: Seq<char>)
    ensures
        lex(s).1.len() <= s.len(),
        lex(s).1 == s.skip(s.len() - lex(s).1.len()),
{
    lemma_skip_spaces_suffix(s);
    let t = skip_spaces(s);
    if t.len() > 0 {
        let k = s.len() - t.len();
        if operation_of(t[0]) is Some {
            assert(t.drop_first() =~= s.skip(k + 1));
        } else if is_digit(t[0]) {
            lemma_digit_run_bound(t);
            let n = digit_run(t) as int;
            assert(t.skip(n) =~= s.skip(k + n));
        }
    }
}

/// Every token but `Token::Eof` takes at least one character of the input.
pub proof fn lemma_lex_shrinks(s: Seq<char>)
    ensures
        lex(s).0 is Ok && lex(s).0 != Ok::<Token, EvalError>(Token::Eof) ==> lex(s).1.len()
            < s.len(),
{
    lemma_skip_spaces_suffix(s);
    let t = skip_spaces(s);
    if t.len() > 0 && operation_of(t[0]) is None && is_digit(t[0]) {
        lemma_digit_run_bound(t);
    }
}

/// A lexer over one line: the line's characters and a cursor that only
/// moves forward.
pub struct Lexer {
    chars: Vec<char>,
    pos: usize,
}

impl View for Lexer {
    /// The input that is still to be read.
    type V = Seq<char>;

    closed spec fn view(&self) -> Seq<char> {
        self.chars@.skip(self.pos as int)
    }
}

impl Lexer {
    #[verifier::type_invariant]
    closed spec fn cursor_in_line(&self) -> bool {
        self.pos <= self.chars.len()
    }

    /// A lexer at the start of `text`.
    pub fn new(text: &str) -> (r: Lexer)
        ensures
            r@ == text@,
    {
        let mut chars: Vec<char> = Vec::new();
        for c in it: text.chars()
            invariant
                chars@ == it.seq().take(it.index()),
        {
            chars.push(c);
        }
        assert(chars@.skip(0) =~= chars@);
        Lexer { chars, pos: 0 }
    }

    /// The position of the first character at or after the cursor that is
    /// not a space.
    fn next_non_space(&self) -> (r: usize)
        ensures
            self.pos <= r <= self.chars.len(),
            self.chars@.skip(r as int) == skip_spaces(self@),
    {
        proof {
            use_type_invariant(self);
        }
        let mut i: usize = self.pos;
        while i < self.chars.len() && self.chars[i] == ' '
            invariant
                self.pos <= i <= self.chars.len(),
                skip_spaces(self.chars@.skip(i as int)) == skip_spaces(self@),
            decreases self.chars.len() - i,
        {
            assert(self.chars@.skip(i as int).drop_first() =~= self.chars@.skip(i + 1));
            i = i + 1;
        }
        i
    }

    /// Moves the cursor over the run of spaces in front of it.
    pub fn skip_spaces(&mut self)
        ensures
            final(self)@ == skip_spaces(old(self)@),
    {
        self.pos = self.next_non_space();
    }

    /// Reads the rest of a numeral whose first digit, `first_digit`, was
    /// just consumed: the cursor moves over the whole run of digits in front
    /// of it. The result is the numeral's value, or `None` where it exceeds
    /// `u32`.
    pub fn extract_complete_integer(&mut self, first_digit: u32) -> (r: Option<u32>)
        ensures
            final(self)@ == old(self)@.skip(digit_run(old(self)@) as int),
            ({
                let v = accumulate_digits(
                    first_digit as nat,
                    old(self)@.take(digit_run(old(self)@) as int),
                );
                r == if v <= u32::MAX {
                    Some(v as u32)
                } else {
                    None::<u32>
                }
            }),
    {
        proof {
            use_type_invariant(&*self);
            lemma_digit_run_bound(old(self)@);
        }
        let ghost start = self.pos as int;
        let ghost n = digit_run(old(self)@) as int;
        let ghost total = accumulate_digits(first_digit as nat, old(self)@.take(n));
        let ghost mut acc: nat = first_digit as nat;
        let mut val: Option<u32> = Some(first_digit);
        proof {
            assert forall|i: int| start <= i < start + n implies is_digit(
                #[trigger] self.chars@[i],
            ) by {
                assert(self.chars@[i] == old(self)@[i - start]);
            }
            if start + n < self.chars.len() {
                assert(self.chars@[start + n] == old(self)@[n]);
            }
            assert(old(self)@.take(n).skip(0) =~= old(self)@.take(n));
        }
        while self.pos < self.chars.len() && '0' <= self.chars[self.pos] && self.chars[self.pos]
            <= '9'
            invariant
                0 <= start <= self.pos <= start + n,
                0 <= n,
                start + n <= self.chars.len(),
                self.chars@ == old(self).chars@,
                forall|i: int| start <= i < start + n ==> is_digit(#[trigger] self.chars@[i]),
                start + n < self.chars.len() ==> !is_digit(self.chars@[start + n]),
                old(self)@ == self.chars@.skip(start),
                old(self)@.len() == self.chars.len() - start,
                total == accumulate_digits(first_digit as nat, old(self)@.take(n)),
                accumulate_digits(acc, old(self)@.take(n).skip(self.pos - start)) == total,
                val is Some ==> val.unwrap() == acc,
                val is None ==> acc > u32::MAX,
            decreases self.chars.len() - self.pos,
        {
            let c = self.chars[self.pos];
            let d = (c as u32) - ('0' as u32);
            proof {
                let k = self.pos - start;
                let rest = old(self)@.take(n).skip(k);
                assert(self.chars@.skip(start)[k] == self.chars@[start + k]);
                assert(rest[0] == c);
                assert(rest.drop_first() =~= old(self)@.take(n).skip(k + 1));
            }
            val = match val {
                Some(v) => match v.checked_mul(10) {
                    Some(m) => m.checked_add(d),
                    None => None,
                },
                None => None,
            };
            proof {
                acc = (acc * 10 + d) as nat;
            }
            self.pos = self.pos + 1;
        }
        proof {
            assert(old(self)@.take(n).skip(n) =~= Seq::<char>::empty());
            assert(self.chars@.skip(self.pos as int) =~= old(self)@.skip(n));
        }
        val
    }

    /// Reads the next token and moves the cursor past it. At the end of the
    /// line every call yields `Token::Eof`.
    pub fn get_next_token(&mut self) -> (r: Result<Token, EvalError>)
        ensures
            (r, final(self)@) == lex(old(self)@),
    {
        self.skip_spaces();
        let ghost t = self@;
        proof {
            use_type_invariant(&*self);
        }
        if self.pos == self.chars.len() {
            return Ok(Token::Eof);
        }
        let c = self.chars[self.pos];
        proof {
            assert(t[0] == c);
        }
        let op = if c == '+' {
            Some(Operation::Sum)
        } else if c == '-' {
            Some(Operation::Difference)
        } else if c == '*' {
            Some(Operation::Product)
        } else if c == '/' {
            Some(Operation::Division)
        } else {
            None
        };
        if let Some(o) = op {
            self.pos = self.pos + 1;
            assert(self@ =~= t.drop_first());
            return Ok(Token::Op(o));
        }
        if '0' <= c && c <= '9' {
            self.pos = self.pos + 1;
            let ghost u = self@;
            proof {
                assert(u =~= t.drop_first());
            }
            let first_digit = (c as u32) - ('0' as u32);
            let value = self.extract_complete_integer(first_digit);
            proof {
                let m = digit_run(u) as int;
                let n = digit_run(t) as int;
                lemma_digit_run_bound(u);
                assert(n == m + 1);
                assert(t.take(n)[0] == c);
                assert(t.take(n).drop_first() =~= u.take(m));
                assert(t.skip(n) =~= u.skip(m));
                assert(decimal_value(t.take(n)) == accumulate_digits(first_digit as nat, u.take(m)));
            }
            match value {
                Some(v) => Ok(Token::Integer(v)),
                None => Err(EvalError::ArithmeticOverflow),
            }
        } else {
            Err(EvalError::InvalidToken)
        }
    }

    /// Whether the next token, if it were read now, would be `Token::Eof`.
    /// Moves nothing.
    pub fn is_next_token_eof(&self) -> (r: bool)
        ensures
            r == at_end(self@),
            r == (lex(self@).0 == Ok::<Token, EvalError>(Token::Eof)),
    {
        self.next_non_space() == self.chars.len()
    }
}

} // verus!
