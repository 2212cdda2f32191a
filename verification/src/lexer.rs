use vstd::prelude::*;

verus! {

/// Whether `c` separates tokens: space, tab, line feed, form feed or carriage
/// return.
pub open spec fn is_space(c: char) -> bool {
    c == ' ' || c == '\t' || c == '\n' || c == '\x0C' || c == '\r'
}

/// Whether `c` is a parenthesis.
pub open spec fn is_paren(c: char) -> bool {
    c == '(' || c == ')'
}

/// What stands for `c` once parentheses are set apart: a parenthesis with a
/// space on either side, any other character alone.
pub open spec fn padded_char(c: char) -> Seq<char> {
    if is_paren(c) {
        seq![' ', c, ' ']
    } else {
        seq![c]
    }
}

/// `text` with its parentheses set apart.
pub open spec fn padded(text: Seq<char>) -> Seq<char>
    decreases text.len(),
{
    if text.len() == 0 {
        Seq::empty()
    } else {
        padded(text.drop_last()) + padded_char(text.last())
    }
}

/// A split under way: the words that are complete, and the one being read,
/// empty between words.
pub ghost struct Split {
    pub words: Seq<Seq<char>>,
    pub word: Seq<char>,
}

/// The split once `c` is read: a space ends the word being read, any other
/// character extends it.
pub open spec fn split_step(before: Split, c: char) -> Split {
    if !is_space(c) {
        Split { words: before.words, word: before.word.push(c) }
    } else if before.word.len() > 0 {
        Split { words: before.words.push(before.word), word: Seq::empty() }
    } else {
        before
    }
}

/// The split once all of `text` is read.
pub open spec fn split_of(text: Seq<char>) -> Split
    decreases text.len(),
{
    if text.len() == 0 {
        Split { words: Seq::empty(), word: Seq::empty() }
    } else {
        split_step(split_of(text.drop_last()), text.last())
    }
}

/// The words of `text`: its longest runs of characters that are not spaces.
pub open spec fn words_of(text: Seq<char>) -> Seq<Seq<char>> {
    let split = split_of(text);
    if split.word.len() > 0 {
        split.words.push(split.word)
    } else {
        split.words
    }
}

/// The tokens of `text`: the words of `text` with its parentheses set apart.
pub open spec fn tokens_of(text: Seq<char>) -> Seq<Seq<char>> {
    words_of(padded(text))
}

/// Reading one character more is one step of the split.
pub proof fn lemma_split_push(text: Seq<char>, c: char)
    ensures
        split_of(text.push(c)) == split_step(split_of(text), c),
{
    assert(text.push(c).drop_last() == text);
}

/// Setting the parentheses of a longer text apart extends what the shorter
/// text gave.
pub proof fn lemma_padded_push(text: Seq<char>, c: char)
    ensures
        padded(text.push(c)) == padded(text) + padded_char(c),
{
    assert(text.push(c).drop_last() == text);
}

/// The word that is being read at the end of `text`, empty behind a space or
/// a parenthesis.
pub open spec fn pending(text: Seq<char>) -> Seq<char> {
    split_of(padded(text)).word
}

/// What one character more does to the tokens of a text: a parenthesis is a
/// new token by itself, a space adds nothing, and any other character begins a
/// new token behind a space or a parenthesis and extends the last token
/// elsewhere.
pub proof fn lemma_tokens_push(text: Seq<char>, c: char)
    ensures
        is_paren(c) ==> tokens_of(text.push(c)) == tokens_of(text).push(seq![c]) && pending(
            text.push(c),
        ).len() == 0,
        is_space(c) ==> tokens_of(text.push(c)) == tokens_of(text) && pending(text.push(c)).len()
            == 0,
        !is_paren(c) && !is_space(c) && pending(text).len() == 0 ==> tokens_of(text.push(c))
            == tokens_of(text).push(seq![c]) && pending(text.push(c)) == seq![c],
        !is_paren(c) && !is_space(c) && pending(text).len() > 0 ==> tokens_of(text).len() > 0
            && tokens_of(text).last() == pending(text) && tokens_of(text.push(c)) == tokens_of(
            text,
        ).drop_last().push(pending(text).push(c)) && pending(text.push(c)) == pending(text).push(
            c,
        ),
{
    let before = padded(text);
    let split = split_of(before);
    let after = split_of(padded(text.push(c)));
    lemma_padded_push(text, c);
    if is_paren(c) {
        assert(before + seq![' ', c, ' '] == before.push(' ').push(c).push(' '));
        lemma_split_push(before, ' ');
        lemma_split_push(before.push(' '), c);
        lemma_split_push(before.push(' ').push(c), ' ');
        let spaced = split_step(split, ' ');
        assert(spaced.words == tokens_of(text) && spaced.word.len() == 0);
        let read = split_step(spaced, c);
        assert(read.word =~= seq![c]);
        assert(after == split_step(read, ' '));
        assert(after.words == tokens_of(text).push(seq![c]));
    } else {
        assert(before + seq![c] == before.push(c));
        lemma_split_push(before, c);
        assert(after == split_step(split, c));
        if !is_space(c) {
            if split.word.len() == 0 {
                assert(after.word =~= seq![c]);
                assert(tokens_of(text.push(c)) == split.words.push(after.word));
            } else {
                assert(split.words.push(split.word).drop_last() =~= split.words);
            }
        }
    }
}

/// Whether `token` is well made: it holds a character and no space, and it is
/// one parenthesis or holds none.
pub open spec fn is_token(token: Seq<char>) -> bool {
    &&& token.len() > 0
    &&& forall|j: int| 0 <= j < token.len() ==> !is_space(#[trigger] token[j])
    &&& token == seq!['('] || token == seq![')'] || forall|j: int|
        0 <= j < token.len() ==> !is_paren(#[trigger] token[j])
}

/// Every token of a text is well made: no token is empty or holds a space,
/// and every parenthesis is a token by itself.
pub proof fn lemma_tokens_are_well_made(text: Seq<char>)
    ensures
        forall|i: int| 0 <= i < tokens_of(text).len() ==> is_token(#[trigger] tokens_of(text)[i]),
        forall|j: int|
            0 <= j < pending(text).len() ==> !is_paren(#[trigger] pending(text)[j]) && !is_space(
                pending(text)[j],
            ),
    decreases text.len(),
{
    if text.len() > 0 {
        let shorter = text.drop_last();
        let c = text.last();
        assert(shorter.push(c) == text);
        lemma_tokens_are_well_made(shorter);
        lemma_tokens_push(shorter, c);
        let old = tokens_of(shorter);
        let new = tokens_of(text);
        assert forall|i: int| 0 <= i < new.len() implies is_token(#[trigger] new[i]) by {
            if i < new.len() - 1 {
                assert(new[i] == old[i]);
            } else if is_paren(c) {
                assert(new[i] == seq![c]);
                assert(seq![c][0] == c);
            } else if is_space(c) {
                assert(new[i] == old[i]);
            } else if pending(shorter).len() == 0 {
                assert(new[i] == seq![c]);
                assert(seq![c][0] == c);
            } else {
                assert(new[i] == pending(shorter).push(c));
                assert(pending(shorter)[0] != '(' && pending(shorter)[0] != ')');
            }
        }
    } else {
        assert(padded(text).len() == 0);
    }
}

/// How often `c` occurs in `text`.
pub open spec fn occurrences(text: Seq<char>, c: char) -> nat
    decreases text.len(),
{
    if text.len() == 0 {
        0
    } else if text.last() == c {
        occurrences(text.drop_last(), c) + 1
    } else {
        occurrences(text.drop_last(), c)
    }
}

/// How many of `tokens` are `token`.
pub open spec fn copies(tokens: Seq<Seq<char>>, token: Seq<char>) -> nat
    decreases tokens.len(),
{
    if tokens.len() == 0 {
        0
    } else if tokens.last() == token {
        copies(tokens.drop_last(), token) + 1
    } else {
        copies(tokens.drop_last(), token)
    }
}

/// A text has as many tokens that are the parenthesis `c` as it has
/// characters `c`.
pub proof fn lemma_parens_counted(text: Seq<char>, c: char)
    requires
        is_paren(c),
    ensures
        copies(tokens_of(text), seq![c]) == occurrences(text, c),
    decreases text.len(),
{
    if text.len() > 0 {
        let shorter = text.drop_last();
        let last = text.last();
        assert(shorter.push(last) == text);
        lemma_parens_counted(shorter, c);
        lemma_tokens_push(shorter, last);
        lemma_tokens_are_well_made(shorter);
        let old = tokens_of(shorter);
        let new = tokens_of(text);
        if is_paren(last) {
            assert(new.drop_last() == old);
            assert(seq![last][0] == last && seq![c][0] == c);
        } else if is_space(last) {
        } else if pending(shorter).len() == 0 {
            assert(new.drop_last() == old);
            assert(seq![last][0] == last && seq![c][0] == c);
        } else {
            assert(new.drop_last() == old.drop_last());
            let word = pending(shorter);
            assert(word[0] != c);
            assert(seq![c][0] == c);
            assert(word.push(last)[0] == word[0]);
        }
    } else {
        assert(padded(text).len() == 0);
    }
}

} // verus!
