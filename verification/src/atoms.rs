use crate::builder::{appended, building_of, is_closer, is_opener, parsed, Building};
use crate::lexer::{copies, tokens_of};
use crate::lispies::{classify, Value};
use crate::nesting::{lemma_tokens_wrapped, lemma_wrapped_is_closed, text_wrapped, wrapped};
use vstd::prelude::*;

verus! {

/// The values in `value` that are no lists, read depth-first from left to
/// right: `value` itself where it is no list.
pub open spec fn atoms_in(value: Value) -> Seq<Value>
    decreases value,
{
    match value {
        Value::List(inner) => atoms_of(inner),
        _ => seq![value],
    }
}

/// The values in `list` that are no lists, read depth-first from left to
/// right.
pub open spec fn atoms_of(list: Seq<Value>) -> Seq<Value>
    decreases list,
{
    if list.len() == 0 {
        Seq::empty()
    } else {
        atoms_of(list.drop_last()) + atoms_in(list.last())
    }
}

/// How many lists `value` is and holds, at any depth.
pub open spec fn lists_in(value: Value) -> nat
    decreases value,
{
    match value {
        Value::List(inner) => 1 + lists_of(inner),
        _ => 0,
    }
}

/// How many lists `list` holds, at any depth.
pub open spec fn lists_of(list: Seq<Value>) -> nat
    decreases list,
{
    if list.len() == 0 {
        0
    } else {
        lists_of(list.drop_last()) + lists_in(list.last())
    }
}

/// What the tokens that are no parentheses stand for, in order; a token that
/// stands for nothing is left out.
pub open spec fn atom_values(tokens: Seq<Seq<char>>) -> Seq<Value>
    decreases tokens.len(),
{
    if tokens.len() == 0 {
        Seq::empty()
    } else if is_opener(tokens.last()) || is_closer(tokens.last()) {
        atom_values(tokens.drop_last())
    } else {
        match classify(tokens.last()) {
            Ok(value) => atom_values(tokens.drop_last()).push(value),
            Err(_) => atom_values(tokens.drop_last()),
        }
    }
}

/// The values that are no lists in the open lists, the outermost first.
spec fn open_atoms(open: Seq<Seq<Value>>) -> Seq<Value>
    decreases open.len(),
{
    if open.len() == 0 {
        Seq::empty()
    } else {
        open_atoms(open.drop_last()) + atoms_of(open.last())
    }
}

/// How many lists the open lists hold.
spec fn open_lists(open: Seq<Seq<Value>>) -> nat
    decreases open.len(),
{
    if open.len() == 0 {
        0
    } else {
        open_lists(open.drop_last()) + lists_of(open.last())
    }
}

proof fn lemma_list_push(list: Seq<Value>, value: Value)
    ensures
        atoms_of(list.push(value)) == atoms_of(list) + atoms_in(value),
        lists_of(list.push(value)) == lists_of(list) + lists_in(value),
{
    assert(list.push(value).drop_last() == list);
}

proof fn lemma_open_push(open: Seq<Seq<Value>>, frame: Seq<Value>)
    ensures
        open_atoms(open.push(frame)) == open_atoms(open) + atoms_of(frame),
        open_lists(open.push(frame)) == open_lists(open) + lists_of(frame),
{
    assert(open.push(frame).drop_last() == open);
}

/// Appending a value to the innermost list appends its atoms to those of the
/// tree and adds its lists to those of the tree.
proof fn lemma_appended_keeps(root: Seq<Value>, open: Seq<Seq<Value>>, value: Value)
    ensures
        appended(root, open, value) matches Building::Reading { root: grown, open: still }
            && still.len() == open.len() && atoms_of(grown) + open_atoms(still) == atoms_of(root)
            + open_atoms(open) + atoms_in(value) && lists_of(grown) + open_lists(still)
            == lists_of(root) + open_lists(open) + lists_in(value),
{
    lemma_list_push(root, value);
    if open.len() == 0 {
        assert(atoms_of(root.push(value)) + open_atoms(open) =~= atoms_of(root) + open_atoms(open)
            + atoms_in(value));
    } else {
        let last = open.last();
        let rest = open.drop_last();
        let still = open.update(open.len() - 1, last.push(value));
        assert(still == rest.push(last.push(value)));
        assert(open == rest.push(last));
        lemma_list_push(last, value);
        lemma_open_push(rest, last);
        lemma_open_push(rest, last.push(value));
        assert(atoms_of(root) + open_atoms(still) =~= atoms_of(root) + open_atoms(open)
            + atoms_in(value));
    }
}

/// While tokens are read, no atom is lost, added or moved, and every opening
/// parenthesis but the first has begun one list: the atoms of the tree so
/// far, with those of the lists still open, are what the tokens read stand
/// for, in their order.
proof fn lemma_building_keeps(tokens: Seq<Seq<char>>)
    ensures
        match building_of(tokens) {
            Ok(Building::Reading { root, open }) => atoms_of(root) + open_atoms(open)
                == atom_values(tokens) && lists_of(root) + open_lists(open) + open.len() + 1
                == copies(tokens, seq!['(']),
            Ok(Building::Waiting) => atom_values(tokens).len() == 0 && copies(tokens, seq!['('])
                == 0,
            Err(_) => true,
        },
    decreases tokens.len(),
{
    if tokens.len() > 0 {
        let before = tokens.drop_last();
        let token = tokens.last();
        lemma_building_keeps(before);
        assert(seq![')'][0] != seq!['('][0]);
        match building_of(before) {
            Ok(Building::Reading { root, open }) => {
                if is_opener(token) {
                    lemma_open_push(open, Seq::<Value>::empty());
                    assert(atoms_of(Seq::<Value>::empty()).len() == 0);
                    assert(atoms_of(root) + open_atoms(open.push(Seq::empty())) =~= atoms_of(root)
                        + open_atoms(open));
                } else if is_closer(token) {
                    if open.len() > 0 {
                        let rest = open.drop_last();
                        let inner = open.last();
                        assert(open == rest.push(inner));
                        lemma_open_push(rest, inner);
                        lemma_appended_keeps(root, rest, Value::List(inner));
                        assert(atoms_of(root) + open_atoms(rest) + atoms_of(inner) =~= atoms_of(
                            root,
                        ) + open_atoms(open));
                    }
                } else {
                    match classify(token) {
                        Ok(value) => {
                            lemma_appended_keeps(root, open, value);
                            assert(atoms_in(value) == seq![value]);
                            assert(atom_values(before) + seq![value] =~= atom_values(before).push(
                                value,
                            ));
                        },
                        Err(_) => {},
                    }
                }
            },
            Ok(Building::Waiting) => {
                if is_opener(token) {
                    assert(atoms_of(Seq::<Value>::empty()) + open_atoms(
                        Seq::<Seq<Value>>::empty(),
                    ) =~= Seq::<Value>::empty());
                }
            },
            Err(_) => {},
        }
    }
}

/// Where the tokens are one parenthesized expression and give a list, no
/// atom is lost, added or moved: the values of the list that are no lists,
/// read depth-first from left to right, are what the tokens that are no
/// parentheses stand for, in their order; and the list holds one list for
/// every opening parenthesis but the first.
pub proof fn lemma_atoms_kept(tokens: Seq<Seq<char>>)
    requires
        wrapped(tokens),
    ensures
        parsed(tokens) matches Ok(Some(list)) ==> atoms_of(list) == atom_values(tokens)
            && lists_of(list) + 1 == copies(tokens, seq!['(']),
{
    lemma_wrapped_is_closed(tokens);
    lemma_building_keeps(tokens);
    match building_of(tokens) {
        Ok(Building::Reading { root, open }) => {
            assert(open_atoms(open).len() == 0);
            assert(atoms_of(root) + open_atoms(open) =~= atoms_of(root));
        },
        _ => {},
    }
}

/// Where the text is one parenthesized expression and gives a list, the
/// values of the list that are no lists are what the tokens of the text that
/// are no parentheses stand for, in their order, and the list holds one list
/// for every opening parenthesis of the text but the first.
pub proof fn lemma_text_atoms_kept(text: Seq<char>)
    requires
        text_wrapped(text),
    ensures
        parsed(tokens_of(text)) matches Ok(Some(list)) ==> atoms_of(list) == atom_values(
            tokens_of(text),
        ) && lists_of(list) + 1 == copies(tokens_of(text), seq!['(']),
{
    lemma_tokens_wrapped(text);
    lemma_atoms_kept(tokens_of(text));
}

} // verus!
