use crate::builder::{appended, building_of, is_closer, is_opener, parsed, Building};
use crate::error::LispError;
use crate::lexer::{
    is_paren, is_space, lemma_tokens_are_well_made, lemma_tokens_push, padded, pending, tokens_of,
};
use crate::lispies::{classify, Value};
use vstd::prelude::*;

verus! {

/// The larger of two numbers.
pub open spec fn larger(a: int, b: int) -> int {
    if a >= b {
        a
    } else {
        b
    }
}

/// How deep a list nests: 1 for a list that holds no list, else one more than
/// the deepest list it holds.
pub open spec fn depth_of(list: Seq<Value>) -> int
    decreases list,
{
    if list.len() == 0 {
        1
    } else {
        larger(
            depth_of(list.drop_last()),
            match list.last() {
                Value::List(inner) => 1 + depth_of(inner),
                _ => 1,
            },
        )
    }
}

/// By how much `token` changes the number of open parentheses.
pub open spec fn step_of(token: Seq<char>) -> int {
    if is_opener(token) {
        1
    } else if is_closer(token) {
        -1
    } else {
        0
    }
}

/// How many parentheses are open behind `tokens`: opening ones less closing
/// ones.
pub open spec fn level_of(tokens: Seq<Seq<char>>) -> int
    decreases tokens.len(),
{
    if tokens.len() == 0 {
        0
    } else {
        level_of(tokens.drop_last()) + step_of(tokens.last())
    }
}

/// The most parentheses that are open at once anywhere in `tokens`.
pub open spec fn peak_of(tokens: Seq<Seq<char>>) -> int
    decreases tokens.len(),
{
    if tokens.len() == 0 {
        0
    } else {
        larger(peak_of(tokens.drop_last()), level_of(tokens))
    }
}

/// Whether `tokens` are one parenthesized expression: they begin with an
/// opening parenthesis that only the last token closes.
pub open spec fn wrapped(tokens: Seq<Seq<char>>) -> bool {
    &&& tokens.len() > 0
    &&& is_opener(tokens[0])
    &&& level_of(tokens) == 0
    &&& forall|k: int| 0 < k < tokens.len() ==> level_of(#[trigger] tokens.take(k)) >= 1
}

/// How deep the open lists reach, each counted from the level it stands at.
spec fn reach_of(open: Seq<Seq<Value>>) -> int
    decreases open.len(),
{
    if open.len() == 0 {
        0
    } else {
        larger(reach_of(open.drop_last()), open.len() + depth_of(open.last()))
    }
}

/// How deep the tree under construction reaches.
spec fn reach(root: Seq<Value>, open: Seq<Seq<Value>>) -> int {
    larger(depth_of(root), reach_of(open))
}

proof fn lemma_depth_push(list: Seq<Value>, value: Value)
    ensures
        depth_of(list) >= 1,
        depth_of(list.push(value)) == larger(
            depth_of(list),
            match value {
                Value::List(inner) => 1 + depth_of(inner),
                _ => 1,
            },
        ),
    decreases list.len(),
{
    assert(list.push(value).drop_last() == list);
    if list.len() > 0 {
        lemma_depth_push(list.drop_last(), list.last());
        assert(list.drop_last().push(list.last()) == list);
    }
}

proof fn lemma_reach_push(open: Seq<Seq<Value>>, frame: Seq<Value>)
    ensures
        reach_of(open.push(frame)) == larger(reach_of(open), open.len() + 1 + depth_of(frame)),
        reach_of(open) >= 0,
    decreases open.len(),
{
    assert(open.push(frame).drop_last() == open);
    if open.len() > 0 {
        lemma_reach_push(open.drop_last(), open.last());
    }
}

/// Appending a value that is no list, or a list that was open one level
/// further in, leaves the reach of the tree as it was.
proof fn lemma_reach_appended(root: Seq<Value>, open: Seq<Seq<Value>>, value: Value, was: int)
    requires
        match value {
            Value::List(inner) => was == larger(
                reach(root, open),
                open.len() + 1 + depth_of(inner),
            ),
            _ => was == reach(root, open),
        },
    ensures
        appended(root, open, value) matches Building::Reading { root: grown, open: still }
            && still.len() == open.len() && reach(grown, still) == was,
{
    lemma_depth_push(root, value);
    if open.len() > 0 {
        let last = open.last();
        let rest = open.drop_last();
        lemma_depth_push(last, value);
        let still = open.update(open.len() - 1, last.push(value));
        assert(still == rest.push(last.push(value)));
        assert(open == rest.push(last));
        lemma_reach_push(rest, last);
        lemma_reach_push(rest, last.push(value));
    }
}

proof fn lemma_peak_bounds(tokens: Seq<Seq<char>>)
    ensures
        peak_of(tokens) >= level_of(tokens),
        peak_of(tokens) >= 0,
    decreases tokens.len(),
{
    if tokens.len() > 0 {
        lemma_peak_bounds(tokens.drop_last());
    }
}

/// While the one expression of `tokens` is being read, as many lists are open
/// as parentheses, and the tree reaches as deep as the parentheses have.
proof fn lemma_reading(tokens: Seq<Seq<char>>, k: int)
    requires
        wrapped(tokens),
        0 < k < tokens.len(),
    ensures
        match building_of(tokens.take(k)) {
            Ok(Building::Reading { root, open }) => open.len() + 1 == level_of(tokens.take(k))
                && reach(root, open) == peak_of(tokens.take(k)),
            Ok(Building::Waiting) => false,
            Err(error) => error == LispError::NumericParseFailure,
        },
    decreases k,
{
    let read = tokens.take(k);
    let before = read.drop_last();
    let token = read.last();
    assert(token == tokens[k - 1]);
    if k == 1 {
        assert(before.len() == 0);
        assert(building_of(before) == Ok::<Building, LispError>(Building::Waiting));
        assert(level_of(before) == 0 && peak_of(before) == 0);
        assert(depth_of(Seq::<Value>::empty()) == 1);
        assert(reach_of(Seq::<Seq<Value>>::empty()) == 0);
    } else {
        assert(before == tokens.take(k - 1));
        lemma_reading(tokens, k - 1);
        lemma_peak_bounds(before);
        match building_of(before) {
            Ok(Building::Reading { root, open }) => {
                if is_opener(token) {
                    lemma_reach_push(open, Seq::<Value>::empty());
                    assert(depth_of(Seq::<Value>::empty()) == 1);
                } else if is_closer(token) {
                    assert(open.len() > 0);
                    let rest = open.drop_last();
                    let inner = open.last();
                    assert(open == rest.push(inner));
                    lemma_reach_push(rest, inner);
                    lemma_reach_appended(
                        root,
                        rest,
                        Value::List(inner),
                        reach(root, open),
                    );
                } else {
                    match classify(token) {
                        Ok(value) => {
                            lemma_reach_appended(root, open, value, reach(root, open));
                        },
                        Err(error) => {},
                    }
                }
            },
            _ => {},
        }
    }
}

/// Where the tokens are one parenthesized expression, reading them can fail
/// only on a token that looks numeric and is no number; otherwise no list is
/// left open at the end, and the top-level list nests exactly as deep as the
/// parentheses do.
pub proof fn lemma_wrapped_is_closed(tokens: Seq<Seq<char>>)
    requires
        wrapped(tokens),
    ensures
        match building_of(tokens) {
            Ok(Building::Reading { root, open }) => open.len() == 0 && depth_of(root) == peak_of(
                tokens,
            ),
            Ok(Building::Waiting) => false,
            Err(error) => error == LispError::NumericParseFailure,
        },
{
    let k = tokens.len() - 1;
    assert(k > 0) by {
        if k == 0 {
            assert(tokens.drop_last().len() == 0);
            assert(level_of(tokens.drop_last()) == 0);
            assert(tokens.last() == tokens[0]);
            assert(step_of(tokens[0]) == 1);
        }
    }
    assert(tokens.drop_last() == tokens.take(k));
    lemma_reading(tokens, k);
    lemma_peak_bounds(tokens.take(k));
    match building_of(tokens.take(k)) {
        Ok(Building::Reading { root, open }) => {
            assert(open.len() == 0);
            assert(reach_of(open) == 0);
            lemma_depth_push(root, Value::Nil);
        },
        _ => {},
    }
}

/// Where the tokens are one parenthesized expression, reading them can fail
/// only on a token that looks numeric and is no number; otherwise they give a
/// list, and it nests exactly as deep as the parentheses do.
pub proof fn lemma_nesting_depth(tokens: Seq<Seq<char>>)
    requires
        wrapped(tokens),
    ensures
        match parsed(tokens) {
            Ok(Some(list)) => depth_of(list) == peak_of(tokens),
            Ok(None) => false,
            Err(error) => error == LispError::NumericParseFailure,
        },
{
    lemma_wrapped_is_closed(tokens);
}

/// By how much `c` changes the number of open parentheses.
pub open spec fn paren_step(c: char) -> int {
    if c == '(' {
        1
    } else if c == ')' {
        -1
    } else {
        0
    }
}

/// How many parentheses are open behind `text`.
pub open spec fn text_level(text: Seq<char>) -> int
    decreases text.len(),
{
    if text.len() == 0 {
        0
    } else {
        text_level(text.drop_last()) + paren_step(text.last())
    }
}

/// The most parentheses that are open at once anywhere in `text`.
pub open spec fn text_peak(text: Seq<char>) -> int
    decreases text.len(),
{
    if text.len() == 0 {
        0
    } else {
        larger(text_peak(text.drop_last()), text_level(text))
    }
}

/// Whether `text` holds spaces only.
pub open spec fn is_blank(text: Seq<char>) -> bool {
    forall|i: int| 0 <= i < text.len() ==> is_space(#[trigger] text[i])
}

/// Whether a parenthesis is open behind every part of `text` that reaches
/// from its beginning to past its first character that is no space.
pub open spec fn text_inside(text: Seq<char>) -> bool
    decreases text.len(),
{
    text.len() == 0 || (text_inside(text.drop_last()) && (text_level(text) >= 1 || is_blank(
        text,
    )))
}

/// Whether `text` is one parenthesized expression: behind spaces, if any, an
/// opening parenthesis, which stays open until a closing parenthesis closes
/// it, and behind that one nothing but spaces.
pub open spec fn text_wrapped(text: Seq<char>) -> bool
    decreases text.len(),
{
    text.len() > 0 && if is_space(text.last()) {
        text_wrapped(text.drop_last())
    } else {
        text.last() == ')' && text_inside(text.drop_last()) && text_level(text.drop_last()) == 1
    }
}

/// Whether at least one parenthesis is open behind every token.
pub open spec fn inside(tokens: Seq<Seq<char>>) -> bool
    decreases tokens.len(),
{
    tokens.len() == 0 || (inside(tokens.drop_last()) && level_of(tokens) >= 1)
}

proof fn lemma_inside_prefix(tokens: Seq<Seq<char>>, k: int)
    requires
        inside(tokens),
        0 < k <= tokens.len(),
    ensures
        level_of(tokens.take(k)) >= 1,
    decreases tokens.len(),
{
    if k == tokens.len() {
        assert(tokens.take(k) == tokens);
    } else {
        assert(tokens.take(k) == tokens.drop_last().take(k));
        lemma_inside_prefix(tokens.drop_last(), k);
    }
}

proof fn lemma_text_peak_bounds(text: Seq<char>)
    ensures
        text_peak(text) >= text_level(text),
        text_peak(text) >= 0,
    decreases text.len(),
{
    if text.len() > 0 {
        lemma_text_peak_bounds(text.drop_last());
    }
}

/// The tokens of a text have its parentheses: as many are open behind them,
/// and as many at once; and they are none exactly where the text is blank.
pub proof fn lemma_tokens_keep_levels(text: Seq<char>)
    ensures
        level_of(tokens_of(text)) == text_level(text),
        peak_of(tokens_of(text)) == text_peak(text),
        is_blank(text) <==> tokens_of(text).len() == 0,
        text_inside(text) ==> inside(tokens_of(text)),
    decreases text.len(),
{
    if text.len() == 0 {
        assert(padded(text).len() == 0);
    } else {
        let shorter = text.drop_last();
        let c = text.last();
        assert(shorter.push(c) == text);
        lemma_tokens_keep_levels(shorter);
        lemma_tokens_push(shorter, c);
        lemma_tokens_are_well_made(shorter);
        lemma_text_peak_bounds(shorter);
        lemma_peak_bounds(tokens_of(shorter));
        let old = tokens_of(shorter);
        let new = tokens_of(text);
        assert(is_blank(text) <==> is_blank(shorter) && is_space(c)) by {
            if is_blank(text) {
                assert(is_space(text[text.len() - 1]));
                assert forall|i: int| 0 <= i < shorter.len() implies is_space(
                    #[trigger] shorter[i],
                ) by {
                    assert(shorter[i] == text[i]);
                }
            }
            if is_blank(shorter) && is_space(c) {
                assert forall|i: int| 0 <= i < text.len() implies is_space(#[trigger] text[i]) by {
                    if i < shorter.len() {
                        assert(text[i] == shorter[i]);
                    }
                }
            }
        }
        if is_paren(c) {
            assert(new.drop_last() == old);
            assert(seq![c][0] == c);
            assert(step_of(seq![c]) == paren_step(c));
        } else if is_space(c) {
        } else if pending(shorter).len() == 0 {
            assert(new.drop_last() == old);
            assert(seq![c][0] == c);
            assert(step_of(seq![c]) == 0);
        } else {
            let word = pending(shorter);
            assert(new.drop_last() == old.drop_last());
            assert(word[0] != '(' && word[0] != ')');
            assert(word.push(c)[0] == word[0]);
            assert(step_of(word) == 0 && step_of(word.push(c)) == 0);
        }
    }
}

/// The tokens of one parenthesized expression are one parenthesized
/// expression.
pub proof fn lemma_tokens_wrapped(text: Seq<char>)
    requires
        text_wrapped(text),
    ensures
        wrapped(tokens_of(text)),
    decreases text.len(),
{
    let shorter = text.drop_last();
    let c = text.last();
    assert(shorter.push(c) == text);
    lemma_tokens_push(shorter, c);
    if is_space(c) {
        lemma_tokens_wrapped(shorter);
    } else {
        lemma_tokens_keep_levels(shorter);
        let body = tokens_of(shorter);
        let tokens = tokens_of(text);
        assert(tokens.drop_last() == body);
        assert(body.len() > 0);
        assert(step_of(seq![')']) == -1) by {
            assert(seq![')'][0] != seq!['('][0]);
        }
        assert forall|k: int| 0 < k < tokens.len() implies level_of(#[trigger] tokens.take(k))
            >= 1 by {
            assert(tokens.take(k) == body.take(k));
            lemma_inside_prefix(body, k);
        }
        assert(tokens.last() == seq![')']);
        assert(level_of(tokens) == 0);
        let first = tokens.take(1);
        assert(level_of(first) >= 1);
        assert(first.drop_last().len() == 0);
        assert(level_of(first.drop_last()) == 0);
        assert(first.last() == tokens[0]);
        assert(step_of(tokens[0]) >= 1);
        assert(is_opener(tokens[0]));
    }
}

/// Whether `read` is what reading one parenthesized expression with the
/// parentheses of `text` may give: a list that nests exactly as deep as they
/// do, or the failure of a token that looks numeric and is no number.
pub open spec fn nests_as(text: Seq<char>, read: Result<Option<Seq<Value>>, LispError>) -> bool {
    match read {
        Ok(Some(list)) => depth_of(list) == text_peak(text),
        Ok(None) => false,
        Err(error) => error == LispError::NumericParseFailure,
    }
}

/// Where the text is one parenthesized expression, reading it can fail only
/// on a token that looks numeric and is no number; otherwise it gives a list,
/// and the list nests exactly as deep as the parentheses of the text do.
pub proof fn lemma_text_nesting_depth(text: Seq<char>)
    requires
        text_wrapped(text),
    ensures
        nests_as(text, parsed(tokens_of(text))),
{
    lemma_tokens_wrapped(text);
    lemma_tokens_keep_levels(text);
    lemma_nesting_depth(tokens_of(text));
}

/// `count` closing parentheses in a row.
pub open spec fn closers(count: nat) -> Seq<char> {
    Seq::new(count, |i: int| ')')
}

/// Closing parentheses behind one parenthesized expression are dropped: the
/// text reads as it does without them.
pub proof fn lemma_text_stray_closers(text: Seq<char>, count: nat)
    requires
        text_wrapped(text),
    ensures
        building_of(tokens_of(text + closers(count))) == building_of(tokens_of(text)),
        parsed(tokens_of(text + closers(count))) == parsed(tokens_of(text)),
    decreases count,
{
    if count == 0 {
        assert(text + closers(0) == text);
    } else {
        let fewer = (count - 1) as nat;
        let shorter = text + closers(fewer);
        lemma_text_stray_closers(text, fewer);
        assert(text + closers(count) == shorter.push(')'));
        lemma_tokens_push(shorter, ')');
        let tokens = tokens_of(shorter);
        assert(tokens.push(seq![')']).drop_last() == tokens);
        lemma_tokens_wrapped(text);
        lemma_wrapped_is_closed(tokens_of(text));
        assert(seq![')'][0] != seq!['('][0]);
    }
}

} // verus!
