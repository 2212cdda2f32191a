use crate::builder::{appended, building_of, parsed, Building};
use crate::error::LispError;
use crate::lexer::{
    copies, is_space, is_token, lemma_padded_push, lemma_parens_counted, lemma_split_push,
    lemma_tokens_are_well_made, occurrences, padded, split_of, split_step, tokens_of, Split,
};
use crate::lispies::{lemma_list_view, Lisper, Lispies, Value};
use crate::nesting::{lemma_text_nesting_depth, nests_as, text_wrapped};
use crate::text::{chars_of, push_char};
use std::collections::VecDeque;
use vstd::prelude::*;

verus! {

/// The content of each of `tokens`, in order.
pub open spec fn texts_of(tokens: Seq<String>) -> Seq<Seq<char>> {
    Seq::new(tokens.len(), |i: int| tokens[i]@)
}

/// Whether `c` separates tokens.
fn space(c: char) -> (yes: bool)
    ensures
        yes == is_space(c),
{
    c == ' ' || c == '\t' || c == '\n' || c == '\x0C' || c == '\r'
}

/// Reads `c` into the split held by `tokens` and `token`.
fn read_char(tokens: &mut Vec<String>, token: &mut String, c: char)
    ensures
        (Split { words: texts_of(final(tokens)@), word: final(token)@ }) == split_step(
            Split { words: texts_of(old(tokens)@), word: old(token)@ },
            c,
        ),
{
    if !space(c) {
        push_char(token, c);
    } else if !token.as_str().is_empty() {
        let ghost before = texts_of(tokens@);
        let mut word = String::new();
        std::mem::swap(token, &mut word);
        tokens.push(word);
        assert(texts_of(tokens@) =~= before.push(word@));
    }
}

/// The content of each of `frames`, from the back of the stack to its front:
/// the outermost open list first, the innermost last.
pub open spec fn frames_of(frames: Seq<Lisper>) -> Seq<Seq<Value>> {
    Seq::new(frames.len(), |i: int| frames[frames.len() - 1 - i]@)
}

/// The tree that `root` and `open` hold.
pub open spec fn building(root: Option<Lisper>, open: Seq<Lisper>) -> Building {
    match root {
        Some(list) => Building::Reading { root: list@, open: frames_of(open) },
        None => Building::Waiting,
    }
}

/// The content of what parsing returned.
pub open spec fn parse_of(result: Result<Option<Lisper>, LispError>) -> Result<
    Option<Seq<Value>>,
    LispError,
> {
    match result {
        Ok(Some(list)) => Ok(Some(list@)),
        Ok(None) => Ok(None),
        Err(error) => Err(error),
    }
}

/// Whether `token` is the one character `c`.
fn is_char(token: &str, c: char) -> (yes: bool)
    ensures
        yes == (token@ == seq![c]),
{
    let chars = chars_of(token);
    let yes = chars.len() == 1 && chars[0] == c;
    assert(yes ==> token@ =~= seq![c]);
    yes
}

/// Appends `value` to the innermost list: the front of `open`, or `root`
/// where none is open.
fn append(root: Lisper, open: &mut VecDeque<Lisper>, value: Lispies) -> (grown: Lisper)
    ensures
        building(Some(grown), final(open)@) == appended(root@, frames_of(old(open)@), value@),
{
    let ghost before = frames_of(open@);
    match open.pop_front() {
        Some(mut innermost) => {
            innermost.push(value);
            open.push_front(innermost);
            assert(frames_of(open@) =~= before.update(
                before.len() - 1,
                before.last().push(value@),
            ));
            root
        },
        None => {
            let mut grown = root;
            grown.push(value);
            assert(frames_of(open@) =~= before);
            grown
        },
    }
}

/// Reading text into tokens and tokens into a tree.
pub trait Parser {
    /// The tokens of the text.
    fn vectorize(&self) -> Vec<String>;

    /// The tree that the text's tokens spell, if they spell one.
    fn tokenize(&self) -> Result<Option<Lisper>, LispError>;
}

impl Parser for str {
    /// The tokens of the text: every parenthesis by itself, and each run of
    /// other characters between spaces and parentheses.
    fn vectorize(&self) -> (tokens: Vec<String>)
        ensures
            texts_of(tokens@) == tokens_of(self@),
            forall|i: int| 0 <= i < tokens.len() ==> is_token(#[trigger] tokens[i]@),
            copies(texts_of(tokens@), seq!['(']) == occurrences(self@, '('),
            copies(texts_of(tokens@), seq![')']) == occurrences(self@, ')'),
    {
        let chars = chars_of(self);
        let mut tokens: Vec<String> = Vec::new();
        let mut token = String::new();
        let mut i: usize = 0;
        assert(texts_of(tokens@) =~= Seq::<Seq<char>>::empty());
        assert(chars@.take(0) =~= Seq::<char>::empty());
        while i < chars.len()
            invariant
                0 <= i <= chars.len(),
                chars@ == self@,
                (Split { words: texts_of(tokens@), word: token@ }) == split_of(
                    padded(chars@.take(i as int)),
                ),
            decreases chars.len() - i,
        {
            let c = chars[i];
            proof {
                let read = chars@.take(i as int);
                assert(chars@.take(i + 1) == read.push(c));
                lemma_padded_push(read, c);
                if c == '(' || c == ')' {
                    assert(padded(read) + seq![' ', c, ' '] == padded(read).push(' ').push(
                        c,
                    ).push(' '));
                    lemma_split_push(padded(read), ' ');
                    lemma_split_push(padded(read).push(' '), c);
                    lemma_split_push(padded(read).push(' ').push(c), ' ');
                } else {
                    assert(padded(read) + seq![c] == padded(read).push(c));
                    lemma_split_push(padded(read), c);
                }
            }
            if c == '(' || c == ')' {
                read_char(&mut tokens, &mut token, ' ');
                read_char(&mut tokens, &mut token, c);
                read_char(&mut tokens, &mut token, ' ');
            } else {
                read_char(&mut tokens, &mut token, c);
            }
            i += 1;
        }
        assert(chars@.take(i as int) == chars@);
        if !token.as_str().is_empty() {
            let ghost before = texts_of(tokens@);
            tokens.push(token);
            assert(texts_of(tokens@) =~= before.push(token@));
        }
        proof {
            lemma_tokens_are_well_made(self@);
            lemma_parens_counted(self@, '(');
            lemma_parens_counted(self@, ')');
            assert forall|i: int| 0 <= i < tokens.len() implies is_token(
                #[trigger] tokens[i]@,
            ) by {
                assert(tokens[i]@ == texts_of(tokens@)[i]);
            }
        }
        tokens
    }

    /// The tree that the text's tokens spell: nothing where the text holds no
    /// opening parenthesis, the top-level list otherwise, or the first error
    /// met on the way. Where the text is one parenthesized expression, the
    /// list nests as deep as its parentheses do.
    fn tokenize(&self) -> (tree: Result<Option<Lisper>, LispError>)
        ensures
            parse_of(tree) == parsed(tokens_of(self@)),
            text_wrapped(self@) ==> nests_as(self@, parse_of(tree)),
    {
        proof {
            if text_wrapped(self@) {
                lemma_text_nesting_depth(self@);
            }
        }
        let tokens = self.vectorize();
        let mut open: VecDeque<Lisper> = VecDeque::new();
        let mut root: Option<Lisper> = None;
        let mut i: usize = 0;
        assert(texts_of(tokens@).take(0) =~= Seq::<Seq<char>>::empty());
        while i < tokens.len()
            invariant
                0 <= i <= tokens.len(),
                texts_of(tokens@) == tokens_of(self@),
                text_wrapped(self@) ==> nests_as(self@, parsed(tokens_of(self@))),
                root is None ==> open.len() == 0,
                building_of(texts_of(tokens@).take(i as int)) == Ok::<Building, LispError>(
                    building(root, open@),
                ),
            decreases tokens.len() - i,
        {
            let token = tokens[i].as_str();
            proof {
                let read = texts_of(tokens@).take(i + 1);
                assert(read.drop_last() == texts_of(tokens@).take(i as int));
                assert(read.last() == token@);
            }
            if is_char(token, '(') {
                match root {
                    Some(list) => {
                        let ghost frames = frames_of(open@);
                        let inner = Lisper::new();
                        open.push_front(inner);
                        assert(frames_of(open@) =~= frames.push(Seq::empty()));
                        root = Some(list);
                    },
                    None => {
                        assert(frames_of(open@) =~= Seq::<Seq<Value>>::empty());
                        root = Some(Lisper::new());
                    },
                }
            } else if is_char(token, ')') {
                match root {
                    Some(list) => {
                        let ghost frames = frames_of(open@);
                        match open.pop_front() {
                            Some(innermost) => {
                                proof {
                                    lemma_list_view(innermost);
                                    assert(frames_of(open@) =~= frames.drop_last());
                                }
                                let grown = append(list, &mut open, Lispies::List(innermost));
                                root = Some(grown);
                            },
                            None => {
                                root = Some(list);
                            },
                        }
                    },
                    None => {},
                }
            } else {
                match root {
                    Some(list) => {
                        match Lispies::from_token(token) {
                            Ok(value) => {
                                let grown = append(list, &mut open, value);
                                root = Some(grown);
                            },
                            Err(error) => {
                                proof {
                                    lemma_building_fails(texts_of(tokens@), i + 1);
                                }
                                return Err(error);
                            },
                        }
                    },
                    None => {
                        proof {
                            lemma_building_fails(texts_of(tokens@), i + 1);
                        }
                        return Err(LispError::MalformedInput);
                    },
                }
            }
            i += 1;
        }
        assert(texts_of(tokens@).take(i as int) == texts_of(tokens@));
        Ok(root)
    }
}

/// Once reading a prefix of the tokens has failed, reading them all fails in
/// the same way.
pub proof fn lemma_building_fails(tokens: Seq<Seq<char>>, read: int)
    requires
        0 <= read <= tokens.len(),
        building_of(tokens.take(read)) is Err,
    ensures
        building_of(tokens) == building_of(tokens.take(read)),
    decreases tokens.len() - read,
{
    if read == tokens.len() {
        assert(tokens.take(read) == tokens);
    } else {
        assert(tokens.take(read + 1).drop_last() == tokens.take(read));
        lemma_building_fails(tokens, read + 1);
    }
}

} // verus!
