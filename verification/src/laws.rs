//! What holds of every expression: when a conversion succeeds, what its
//! output looks like, and how converting and evaluating fit together.

use crate::error::ErrorKind;
use crate::eval::{all_digits, eval_result, evaluate_postfix, is_whitespace, words};
use crate::expression::Expression;
use crate::postfix::{
    is_binary_operator, is_digit, join_tokens, postfix_text, postfix_tokens, scan, Scan,
};
use vstd::prelude::*;

verus! {

/// The characters that an infix expression is made of.
pub open spec fn is_expression_char(c: char) -> bool {
    is_digit(c) || is_binary_operator(c) || c == '!' || c == ' ' || c == '(' || c == ')'
}

/// Whether `infix` holds no other characters than those of the language.
pub open spec fn all_expression_chars(infix: Seq<char>) -> bool {
    forall|i: int| 0 <= i < infix.len() ==> is_expression_char(#[trigger] infix[i])
}

/// The number of opening parentheses of `infix` that no closing one has
/// answered. A closing parenthesis that answers none is passed over.
pub open spec fn open_groups(infix: Seq<char>) -> nat
    decreases infix.len(),
{
    if infix.len() == 0 {
        0
    } else {
        let before = open_groups(infix.drop_last());
        if infix.last() == '(' {
            before + 1
        } else if infix.last() == ')' && before > 0 {
            (before - 1) as nat
        } else {
            before
        }
    }
}

/// The opening parentheses of `infix` less its closing ones.
pub open spec fn depth(infix: Seq<char>) -> int
    decreases infix.len(),
{
    if infix.len() == 0 {
        0
    } else if infix.last() == '(' {
        depth(infix.drop_last()) + 1
    } else if infix.last() == ')' {
        depth(infix.drop_last()) - 1
    } else {
        depth(infix.drop_last())
    }
}

/// Whether every parenthesis of `infix` has its partner: no closing one comes
/// before its opening one, and none stays open.
pub open spec fn balanced(infix: Seq<char>) -> bool {
    &&& depth(infix) == 0
    &&& forall|n: int| 0 <= n <= infix.len() ==> depth(#[trigger] infix.take(n)) >= 0
}

/// The number of opening parentheses among the waiting operators.
spec fn waiting_groups(operators: Seq<char>) -> nat
    decreases operators.len(),
{
    if operators.len() == 0 {
        0
    } else if operators.last() == '(' {
        waiting_groups(operators.drop_last()) + 1
    } else {
        waiting_groups(operators.drop_last())
    }
}

proof fn lemma_waiting_groups_push(operators: Seq<char>, c: char)
    ensures
        waiting_groups(operators.push(c)) == waiting_groups(operators) + if c == '(' {
            1nat
        } else {
            0nat
        },
{
    assert(operators.push(c).drop_last() == operators);
}

proof fn lemma_pop_higher_keeps_groups(state: Scan, incoming: char)
    ensures
        waiting_groups(state.pop_higher(incoming).operators) == waiting_groups(state.operators),
    decreases state.operators.len(),
{
    if state.pop_higher(incoming) != state {
        lemma_pop_higher_keeps_groups(state.emit_top(), incoming);
    }
}

proof fn lemma_close_group_answers_one(state: Scan)
    ensures
        waiting_groups(state.close_group().operators) == if waiting_groups(state.operators) > 0 {
            waiting_groups(state.operators) - 1
        } else {
            0
        },
    decreases state.operators.len(),
{
    if state.operators.len() > 0 && state.operators.last() != '(' {
        lemma_close_group_answers_one(state.emit_top());
    }
}

proof fn lemma_drain_fails_on_open_group(state: Scan)
    ensures
        waiting_groups(state.operators) > 0 ==> state.drain() == Err::<
            Seq<Seq<char>>,
            ErrorKind,
        >(ErrorKind::MalformedExpression),
        waiting_groups(state.operators) == 0 ==> state.drain() is Ok,
    decreases state.operators.len(),
{
    if state.operators.len() > 0 && state.operators.last() != '(' {
        lemma_drain_fails_on_open_group(state.emit_top());
    }
}

proof fn lemma_scan_outcome(infix: Seq<char>)
    ensures
        all_expression_chars(infix) ==> scan(infix) is Ok && waiting_groups(
            scan(infix)->Ok_0.operators,
        ) == open_groups(infix),
        !all_expression_chars(infix) ==> scan(infix) == Err::<Scan, ErrorKind>(
            ErrorKind::InvalidExpression,
        ),
    decreases infix.len(),
{
    if infix.len() > 0 {
        let front = infix.drop_last();
        let c = infix.last();
        lemma_scan_outcome(front);
        if all_expression_chars(front) {
            let state = scan(front)->Ok_0;
            if is_expression_char(c) {
                assert forall|i: int| 0 <= i < infix.len() implies is_expression_char(
                    #[trigger] infix[i],
                ) by {
                    if i < front.len() {
                        assert(infix[i] == front[i]);
                    }
                }
                lemma_pop_higher_keeps_groups(state.flush(), c);
                lemma_close_group_answers_one(state.flush());
                lemma_waiting_groups_push(state.flush().pop_higher(c).operators, c);
                lemma_waiting_groups_push(state.operators, c);
            } else {
                assert(!is_expression_char(infix[infix.len() - 1]));
            }
        } else {
            let i = choose|i: int| 0 <= i < front.len() && !is_expression_char(#[trigger] front[i]);
            assert(!is_expression_char(infix[i]));
        }
    }
}

proof fn lemma_open_groups_of_ordered(infix: Seq<char>)
    requires
        forall|n: int| 0 <= n <= infix.len() ==> depth(#[trigger] infix.take(n)) >= 0,
    ensures
        open_groups(infix) == depth(infix),
    decreases infix.len(),
{
    if infix.len() > 0 {
        let front = infix.drop_last();
        assert forall|n: int| 0 <= n <= front.len() implies depth(#[trigger] front.take(n))
            >= 0 by {
            assert(front.take(n) == infix.take(n));
        }
        lemma_open_groups_of_ordered(front);
        assert(infix.take(infix.len() as int) == infix);
        assert(front == infix.take(infix.len() - 1));
    }
}

/// A conversion fails in two cases and no other: a character that is none
/// of the language fails with `InvalidExpression`, and where there is none,
/// an opening parenthesis that is still open at the end fails with
/// `MalformedExpression`.
pub proof fn lemma_conversion_outcome(infix: Seq<char>)
    ensures
        !all_expression_chars(infix) ==> postfix_text(infix) == Err::<Seq<char>, ErrorKind>(
            ErrorKind::InvalidExpression,
        ),
        all_expression_chars(infix) && open_groups(infix) > 0 ==> postfix_text(infix) == Err::<
            Seq<char>,
            ErrorKind,
        >(ErrorKind::MalformedExpression),
        all_expression_chars(infix) && open_groups(infix) == 0 ==> postfix_text(infix) is Ok,
{
    lemma_scan_outcome(infix);
    if all_expression_chars(infix) {
        lemma_drain_fails_on_open_group(scan(infix)->Ok_0.flush());
    }
}

/// An expression over the characters of the language whose parentheses are
/// balanced has a postfix notation.
pub proof fn lemma_balanced_expression_converts(infix: Seq<char>)
    requires
        all_expression_chars(infix),
        balanced(infix),
    ensures
        postfix_text(infix) is Ok,
{
    lemma_open_groups_of_ordered(infix);
    lemma_conversion_outcome(infix);
}

/// What the converter emits: a number, a binary operator or `!`.
pub open spec fn is_postfix_token(token: Seq<char>) -> bool {
    ||| token.len() > 0 && all_digits(token)
    ||| token.len() == 1 && (is_binary_operator(token[0]) || token[0] == '!')
}

/// Whether `token` can stand between spaces: it is not empty and holds no
/// whitespace.
pub open spec fn is_word(token: Seq<char>) -> bool {
    &&& token.len() > 0
    &&& forall|i: int| 0 <= i < token.len() ==> !is_whitespace(#[trigger] token[i])
}

/// Between two characters the converter holds tokens in its output, binary
/// operators and opening parentheses on its stack, and digits in its number.
spec fn tidy(state: Scan) -> bool {
    &&& forall|i: int| 0 <= i < state.output.len() ==> is_postfix_token(#[trigger] state.output[i])
    &&& forall|i: int|
        0 <= i < state.operators.len() ==> is_binary_operator(#[trigger] state.operators[i])
            || state.operators[i] == '('
    &&& all_digits(state.number)
}

proof fn lemma_emit_top_is_tidy(state: Scan)
    requires
        tidy(state),
        state.operators.len() > 0,
        state.operators.last() != '(',
    ensures
        tidy(state.emit_top()),
{
    let top = state.operators.last();
    assert(is_binary_operator(top));
    assert(is_postfix_token(seq![top]));
}

proof fn lemma_pop_higher_is_tidy(state: Scan, incoming: char)
    requires
        tidy(state),
    ensures
        tidy(state.pop_higher(incoming)),
    decreases state.operators.len(),
{
    if state.pop_higher(incoming) != state {
        lemma_emit_top_is_tidy(state);
        lemma_pop_higher_is_tidy(state.emit_top(), incoming);
    }
}

proof fn lemma_close_group_is_tidy(state: Scan)
    requires
        tidy(state),
    ensures
        tidy(state.close_group()),
    decreases state.operators.len(),
{
    if state.operators.len() > 0 && state.operators.last() != '(' {
        lemma_emit_top_is_tidy(state);
        lemma_close_group_is_tidy(state.emit_top());
    }
}

proof fn lemma_drain_emits_tokens(state: Scan)
    requires
        tidy(state),
    ensures
        state.drain() matches Ok(tokens) ==> forall|i: int|
            0 <= i < tokens.len() ==> is_postfix_token(#[trigger] tokens[i]),
    decreases state.operators.len(),
{
    if state.operators.len() > 0 && state.operators.last() != '(' {
        lemma_emit_top_is_tidy(state);
        lemma_drain_emits_tokens(state.emit_top());
    }
}

proof fn lemma_step_is_tidy(state: Scan, c: char)
    requires
        tidy(state),
    ensures
        state.step(c) matches Ok(next) ==> tidy(next),
{
    let flushed = state.flush();
    assert(tidy(flushed)) by {
        if state.number.len() > 0 {
            assert(is_postfix_token(state.number));
        }
    }
    if is_digit(c) {
    } else if c == '!' {
        assert(is_postfix_token(seq!['!']));
    } else if c == ' ' {
    } else if is_binary_operator(c) {
        lemma_pop_higher_is_tidy(flushed, c);
    } else if c == '(' {
    } else if c == ')' {
        lemma_close_group_is_tidy(flushed);
    }
}

proof fn lemma_scan_is_tidy(infix: Seq<char>)
    ensures
        scan(infix) matches Ok(state) ==> tidy(state),
    decreases infix.len(),
{
    if infix.len() > 0 {
        lemma_scan_is_tidy(infix.drop_last());
        if let Ok(state) = scan(infix.drop_last()) {
            lemma_step_is_tidy(state, infix.last());
        }
    }
}

/// Every token of a postfix notation is a number, a binary operator or `!`.
pub proof fn lemma_postfix_tokens_shape(infix: Seq<char>)
    ensures
        postfix_tokens(infix) matches Ok(tokens) ==> forall|i: int|
            0 <= i < tokens.len() ==> is_postfix_token(#[trigger] tokens[i]),
{
    lemma_scan_is_tidy(infix);
    if let Ok(state) = scan(infix) {
        lemma_step_is_tidy(state, ' ');
        lemma_drain_emits_tokens(state.flush());
    }
}

/// A word that follows whitespace, or stands first, is one more word.
proof fn lemma_words_extend(base: Seq<char>, word: Seq<char>)
    requires
        base.len() == 0 || is_whitespace(base.last()),
        is_word(word),
    ensures
        words(base + word) == words(base).push(word),
    decreases word.len(),
{
    let text = base + word;
    assert(text.last() == word.last());
    if word.len() == 1 {
        assert(text.drop_last() == base);
        assert(word == seq![word.last()]);
        if base.len() > 0 {
            assert(text[text.len() - 2] == base.last());
        }
    } else {
        let front = word.drop_last();
        assert(text.drop_last() == base + front);
        assert(is_word(front)) by {
            assert forall|i: int| 0 <= i < front.len() implies !is_whitespace(
                #[trigger] front[i],
            ) by {
                assert(front[i] == word[i]);
            }
        }
        lemma_words_extend(base, front);
        assert(text[text.len() - 2] == word[word.len() - 2]);
        assert(words(base).push(front).drop_last() == words(base));
        assert(front.push(word.last()) == word);
    }
}

/// Splitting undoes joining: words that were joined by single spaces are
/// found again, each as it was.
pub proof fn lemma_words_of_joined(tokens: Seq<Seq<char>>)
    requires
        forall|i: int| 0 <= i < tokens.len() ==> is_word(#[trigger] tokens[i]),
    ensures
        words(join_tokens(tokens)) == tokens,
    decreases tokens.len(),
{
    if tokens.len() == 0 {
    } else if tokens.len() == 1 {
        let empty = Seq::<char>::empty();
        lemma_words_extend(empty, tokens[0]);
        assert(empty + tokens[0] == tokens[0]);
        assert(Seq::<Seq<char>>::empty().push(tokens[0]) == tokens);
    } else {
        let front = tokens.drop_last();
        assert forall|i: int| 0 <= i < front.len() implies is_word(#[trigger] front[i]) by {
            assert(front[i] == tokens[i]);
        }
        lemma_words_of_joined(front);
        let base = join_tokens(front) + seq![' '];
        assert(base.drop_last() == join_tokens(front));
        assert(words(base) == front);
        lemma_words_extend(base, tokens.last());
        assert(front.push(tokens.last()) == tokens);
    }
}

/// The evaluator reads a postfix notation as the converter meant it: the
/// words of the text are the tokens that were joined, so the value of the
/// text is the value of the token sequence.
pub proof fn lemma_postfix_text_keeps_its_tokens(infix: Seq<char>)
    ensures
        postfix_tokens(infix) matches Ok(tokens) ==> {
            &&& postfix_text(infix) == Ok::<Seq<char>, ErrorKind>(join_tokens(tokens))
            &&& words(join_tokens(tokens)) == tokens
            &&& evaluate_postfix(join_tokens(tokens)) == eval_result(tokens)
        },
{
    lemma_postfix_tokens_shape(infix);
    if let Ok(tokens) = postfix_tokens(infix) {
        assert forall|i: int| 0 <= i < tokens.len() implies is_word(#[trigger] tokens[i]) by {
            assert(is_postfix_token(tokens[i]));
        }
        lemma_words_of_joined(tokens);
    }
}

/// Evaluating a second time, with the postfix text as it was, gives the
/// outcome of the first time and leaves the expression as the first time
/// left it.
pub proof fn lemma_evaluation_repeats(
    before: Expression,
    once: Expression,
    twice: Expression,
    first: Result<(), ErrorKind>,
    second: Result<(), ErrorKind>,
)
    requires
        before.evaluates_to(once, first),
        once.evaluates_to(twice, second),
    ensures
        second == first,
        twice.result == once.result,
        twice.post_fix@ == once.post_fix@,
        twice.expr@ == once.expr@,
{
}

/// Processing an expression that has no value yet, over the characters of
/// the language and with balanced parentheses, stores its postfix notation
/// and ends in a value or in a failure, never in both: it reports success
/// exactly where it leaves a value, and a failure leaves none.
pub proof fn lemma_balanced_expression_is_processed(
    before: Expression,
    after: Expression,
    outcome: Result<(), ErrorKind>,
)
    requires
        before.result is Err,
        all_expression_chars(before.expr@),
        balanced(before.expr@),
        before.processes_to(true, after, outcome),
    ensures
        postfix_text(before.expr@) == Ok::<Seq<char>, ErrorKind>(after.post_fix@),
        outcome is Ok <==> after.result is Ok,
        outcome is Ok ==> evaluate_postfix(after.post_fix@) == after.result,
        outcome matches Err(kind) ==> evaluate_postfix(after.post_fix@) == Err::<i64, ErrorKind>(
            kind,
        ) && after.result == before.result,
{
    lemma_balanced_expression_converts(before.expr@);
}

} // verus!
