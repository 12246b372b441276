//! From infix to postfix notation: one scan over the characters, with a stack
//! of pending operators.

use crate::error::ErrorKind;
use crate::expression::Expression;
use crate::text::{chars_of, string_of};
use vstd::prelude::*;

verus! {

/// The decimal digits.
pub open spec fn is_digit(c: char) -> bool {
    '0' <= c && c <= '9'
}

/// The four operators that stand between their operands.
pub open spec fn is_binary_operator(c: char) -> bool {
    c == '+' || c == '-' || c == '*' || c == '/'
}

/// How strongly an operator binds. Everything that is no binary operator, the
/// opening parenthesis among it, binds weakest.
pub open spec fn precedence_of(c: char) -> u8 {
    if c == '+' || c == '-' {
        1
    } else if c == '*' || c == '/' {
        2
    } else {
        0
    }
}

/// The tokens of `tokens`, each followed by one space but the last.
pub open spec fn join_tokens(tokens: Seq<Seq<char>>) -> Seq<char>
    decreases tokens.len(),
{
    if tokens.len() == 0 {
        Seq::empty()
    } else if tokens.len() == 1 {
        tokens[0]
    } else {
        join_tokens(tokens.drop_last()) + seq![' '] + tokens.last()
    }
}

/// What the converter holds between two characters.
pub struct Scan {
    /// The postfix tokens emitted so far.
    pub output: Seq<Seq<char>>,
    /// The operators and opening parentheses that wait, the latest last.
    pub operators: Seq<char>,
    /// The digits of a number that may still grow.
    pub number: Seq<char>,
}

impl Scan {
    /// Nothing read yet.
    pub open spec fn start() -> Scan {
        Scan { output: Seq::empty(), operators: Seq::empty(), number: Seq::empty() }
    }

    /// The pending number, if there is one, becomes a token.
    pub open spec fn flush(self) -> Scan {
        Scan {
            output: if self.number.len() > 0 {
                self.output.push(self.number)
            } else {
                self.output
            },
            number: Seq::empty(),
            ..self
        }
    }

    /// The latest waiting operator becomes a token.
    pub open spec fn emit_top(self) -> Scan
        recommends
            self.operators.len() > 0,
    {
        Scan {
            output: self.output.push(seq![self.operators.last()]),
            operators: self.operators.drop_last(),
            ..self
        }
    }

    /// Emits the waiting operators that bind strictly stronger than
    /// `incoming`, down to the first that does not or to an opening
    /// parenthesis.
    pub open spec fn pop_higher(self, incoming: char) -> Scan
        decreases self.operators.len(),
    {
        if self.operators.len() > 0 && self.operators.last() != '(' && precedence_of(
            self.operators.last(),
        ) > precedence_of(incoming) {
            self.emit_top().pop_higher(incoming)
        } else {
            self
        }
    }

    /// Emits the waiting operators down to the latest opening parenthesis,
    /// which is dropped. Where none waits, every operator is emitted.
    pub open spec fn close_group(self) -> Scan
        decreases self.operators.len(),
    {
        if self.operators.len() == 0 {
            self
        } else if self.operators.last() == '(' {
            Scan { operators: self.operators.drop_last(), ..self }
        } else {
            self.emit_top().close_group()
        }
    }

    /// Emits every waiting operator, unless an opening parenthesis still
    /// waits.
    pub open spec fn drain(self) -> Result<Seq<Seq<char>>, ErrorKind>
        decreases self.operators.len(),
    {
        if self.operators.len() == 0 {
            Ok(self.output)
        } else if self.operators.last() == '(' {
            Err(ErrorKind::MalformedExpression)
        } else {
            self.emit_top().drain()
        }
    }

    /// The state after one more character.
    pub open spec fn step(self, c: char) -> Result<Scan, ErrorKind> {
        if is_digit(c) {
            Ok(Scan { number: self.number.push(c), ..self })
        } else if c == '!' {
            Ok(Scan { output: self.flush().output.push(seq!['!']), ..self.flush() })
        } else if c == ' ' {
            Ok(self.flush())
        } else if is_binary_operator(c) {
            let popped = self.flush().pop_higher(c);
            Ok(Scan { operators: popped.operators.push(c), ..popped })
        } else if c == '(' {
            Ok(Scan { operators: self.operators.push(c), ..self })
        } else if c == ')' {
            Ok(self.flush().close_group())
        } else {
            Err(ErrorKind::InvalidExpression)
        }
    }

    /// The tokens once the input has ended.
    pub open spec fn finish(self) -> Result<Seq<Seq<char>>, ErrorKind> {
        self.flush().drain()
    }
}

/// The state after the characters of `infix`, or the first failure.
pub open spec fn scan(infix: Seq<char>) -> Result<Scan, ErrorKind>
    decreases infix.len(),
{
    if infix.len() == 0 {
        Ok(Scan::start())
    } else {
        match scan(infix.drop_last()) {
            Ok(state) => state.step(infix.last()),
            Err(kind) => Err(kind),
        }
    }
}

/// A failure ends the scan: what follows the failing character changes
/// nothing.
pub proof fn lemma_scan_failure_persists(infix: Seq<char>, n: int)
    requires
        0 <= n <= infix.len(),
        scan(infix.take(n)) is Err,
    ensures
        scan(infix) == scan(infix.take(n)),
    decreases infix.len() - n,
{
    if n == infix.len() {
        assert(infix.take(n) == infix);
    } else {
        assert(infix.take(n + 1).drop_last() == infix.take(n));
        lemma_scan_failure_persists(infix, n + 1);
    }
}

/// The postfix tokens of `infix`.
pub open spec fn postfix_tokens(infix: Seq<char>) -> Result<Seq<Seq<char>>, ErrorKind> {
    match scan(infix) {
        Ok(state) => state.finish(),
        Err(kind) => Err(kind),
    }
}

/// The postfix notation of `infix`: its postfix tokens, joined by spaces.
pub open spec fn postfix_text(infix: Seq<char>) -> Result<Seq<char>, ErrorKind> {
    match postfix_tokens(infix) {
        Ok(tokens) => Ok(join_tokens(tokens)),
        Err(kind) => Err(kind),
    }
}

/// The character sequences that a vector of tokens holds.
pub open spec fn token_views(tokens: Seq<Vec<char>>) -> Seq<Seq<char>> {
    Seq::new(tokens.len(), |i: int| tokens[i]@)
}

/// The converter's state as its three vectors hold it.
pub open spec fn scan_of(output: Seq<Vec<char>>, stack: Seq<char>, number: Seq<char>) -> Scan {
    Scan { output: token_views(output), operators: stack, number }
}

/// The text of `tokens`, joined by single spaces.
fn join_with_spaces(tokens: &Vec<Vec<char>>) -> (text: Vec<char>)
    ensures
        text@ == join_tokens(token_views(tokens@)),
{
    let mut text: Vec<char> = Vec::new();
    let mut i: usize = 0;
    while i < tokens.len()
        invariant
            i <= tokens.len(),
            text@ == join_tokens(token_views(tokens@).take(i as int)),
        decreases tokens.len() - i,
    {
        let ghost before = text@;
        let ghost views = token_views(tokens@);
        if i > 0 {
            text.push(' ');
        }
        let ghost separated = text@;
        let token = &tokens[i];
        let mut j: usize = 0;
        while j < token.len()
            invariant
                j <= token.len(),
                text@ == separated + token@.take(j as int),
            decreases token.len() - j,
        {
            text.push(token[j]);
            j += 1;
        }
        proof {
            assert(token@.take(j as int) == token@);
            assert(views.take(i + 1).drop_last() == views.take(i as int));
            assert(views.take(i + 1).last() == token@);
            if i == 0 {
                assert(views.take(1)[0] == token@);
                assert(before + token@ == token@);
            }
        }
        i += 1;
    }
    proof {
        assert(token_views(tokens@).take(i as int) == token_views(tokens@));
    }
    text
}

impl Expression {
    /// How strongly `operator` binds: 1 for `+` and `-`, 2 for `*` and `/`,
    /// 0 for everything else.
    pub fn precedence(operator: char) -> (p: u8)
        ensures
            p == precedence_of(operator),
    {
        if operator == '+' || operator == '-' {
            1
        } else if operator == '*' || operator == '/' {
            2
        } else {
            0
        }
    }

    /// Whether `op1` binds strictly stronger than `op2`.
    pub fn has_higher_precedence(op1: char, op2: char) -> (higher: bool)
        ensures
            higher == (precedence_of(op1) > precedence_of(op2)),
    {
        Self::precedence(op1) > Self::precedence(op2)
    }

    /// Moves the pending number, if there is one, to the end of the output.
    fn flush_num_buffer(number_buffer: &mut Vec<char>, output: &mut Vec<Vec<char>>)
        ensures
            final(number_buffer)@ == Seq::<char>::empty(),
            token_views(final(output)@) == if old(number_buffer)@.len() > 0 {
                token_views(old(output)@).push(old(number_buffer)@)
            } else {
                token_views(old(output)@)
            },
    {
        if number_buffer.len() > 0 {
            let mut number: Vec<char> = Vec::new();
            std::mem::swap(&mut number, number_buffer);
            output.push(number);
            assert(token_views(output@) == token_views(old(output)@).push(old(number_buffer)@));
        }
    }

    /// Rewrites `expr` into postfix notation and stores it in `post_fix`.
    ///
    /// Digits gather into numbers; a space ends a number; `!` follows its
    /// operand at once; a binary operator first sends the waiting operators
    /// that bind strictly stronger to the output; `)` sends them down to the
    /// latest `(`. Any other character fails with `InvalidExpression`, and a
    /// `(` that is still open at the end with `MalformedExpression`. On
    /// failure nothing is stored.
    pub fn infix_to_postfix(&mut self) -> (result: Result<(), ErrorKind>)
        ensures
            old(self).processes_to(false, *final(self), result),
    {
        let tokens = chars_of(self.expr.as_str());
        let mut output: Vec<Vec<char>> = Vec::new();
        let mut stack: Vec<char> = Vec::new();
        let mut number_buffer: Vec<char> = Vec::new();

        assert(token_views(output@) == Seq::<Seq<char>>::empty());
        let mut i: usize = 0;
        while i < tokens.len()
            invariant
                i <= tokens.len(),
                scan(tokens@.take(i as int)) == Ok::<Scan, ErrorKind>(
                    scan_of(output@, stack@, number_buffer@),
                ),
                tokens@ == self.expr@,
                *self == *old(self),
            decreases tokens.len() - i,
        {
            let ch = tokens[i];
            let ghost before = scan_of(output@, stack@, number_buffer@);
            proof {
                assert(tokens@.take(i + 1).drop_last() == tokens@.take(i as int));
                assert(tokens@.take(i + 1).last() == ch);
            }
            if ch >= '0' && ch <= '9' {
                number_buffer.push(ch);
            } else if ch == '!' {
                Self::flush_num_buffer(&mut number_buffer, &mut output);
                let mut token: Vec<char> = Vec::new();
                token.push('!');
                output.push(token);
                assert(token_views(output@) == before.flush().output.push(seq!['!']));
            } else if ch == ' ' {
                Self::flush_num_buffer(&mut number_buffer, &mut output);
            } else if ch == '+' || ch == '-' || ch == '*' || ch == '/' {
                Self::flush_num_buffer(&mut number_buffer, &mut output);
                while stack.len() > 0 && stack[stack.len() - 1] != '('
                    && Self::has_higher_precedence(stack[stack.len() - 1], ch)
                    invariant
                        scan_of(output@, stack@, number_buffer@).pop_higher(ch)
                            == before.flush().pop_higher(ch),
                    decreases stack.len(),
                {
                    let ghost current = scan_of(output@, stack@, number_buffer@);
                    let operation = stack[stack.len() - 1];
                    stack.pop();
                    let mut token: Vec<char> = Vec::new();
                    token.push(operation);
                    output.push(token);
                    assert(token_views(output@) == current.output.push(seq![operation]));
                    assert(scan_of(output@, stack@, number_buffer@) == current.emit_top());
                }
                stack.push(ch);
            } else if ch == '(' {
                stack.push(ch);
            } else if ch == ')' {
                Self::flush_num_buffer(&mut number_buffer, &mut output);
                let mut open = false;
                while !open && stack.len() > 0
                    invariant
                        !open ==> scan_of(output@, stack@, number_buffer@).close_group()
                            == before.flush().close_group(),
                        open ==> scan_of(output@, stack@, number_buffer@)
                            == before.flush().close_group(),
                    decreases stack.len() + if open { 0int } else { 1int },
                {
                    let ghost current = scan_of(output@, stack@, number_buffer@);
                    let op = stack[stack.len() - 1];
                    stack.pop();
                    if op == '(' {
                        open = true;
                    } else {
                        let mut token: Vec<char> = Vec::new();
                        token.push(op);
                        output.push(token);
                        assert(token_views(output@) == current.output.push(seq![op]));
                        assert(scan_of(output@, stack@, number_buffer@) == current.emit_top());
                    }
                }
            } else {
                proof {
                    lemma_scan_failure_persists(tokens@, i + 1);
                }
                return Err(ErrorKind::InvalidExpression);
            }
            i += 1;
        }
        proof {
            assert(tokens@.take(i as int) == tokens@);
        }
        let ghost scanned = scan_of(output@, stack@, number_buffer@);
        Self::flush_num_buffer(&mut number_buffer, &mut output);

        while stack.len() > 0
            invariant
                scan_of(output@, stack@, number_buffer@).drain() == scanned.finish(),
                postfix_tokens(self.expr@) == scanned.finish(),
                *self == *old(self),
            decreases stack.len(),
        {
            let ghost current = scan_of(output@, stack@, number_buffer@);
            let op = stack[stack.len() - 1];
            stack.pop();
            if op == '(' {
                return Err(ErrorKind::MalformedExpression);
            }
            let mut token: Vec<char> = Vec::new();
            token.push(op);
            output.push(token);
            assert(token_views(output@) == current.output.push(seq![op]));
            assert(scan_of(output@, stack@, number_buffer@) == current.emit_top());
        }

        let text = join_with_spaces(&output);
        self.post_fix = string_of(&text);
        Ok(())
    }
}

} // verus!
