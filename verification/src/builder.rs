use crate::error::LispError;
use crate::lispies::{classify, Value};
use vstd::prelude::*;

verus! {

/// Whether `token` is the opening parenthesis.
pub open spec fn is_opener(token: Seq<char>) -> bool {
    token == seq!['(']
}

/// Whether `token` is the closing parenthesis.
pub open spec fn is_closer(token: Seq<char>) -> bool {
    token == seq![')']
}

/// How far the tree has been built.
pub ghost enum Building {
    /// No opening parenthesis has been met yet.
    Waiting,
    /// The top-level list so far, and the lists that are open inside it, the
    /// innermost last.
    Reading { root: Seq<Value>, open: Seq<Seq<Value>> },
}

/// The frames with `value` appended to the innermost of them: to the last of
/// `open`, or to `root` where none is open.
pub open spec fn appended(root: Seq<Value>, open: Seq<Seq<Value>>, value: Value) -> Building {
    if open.len() == 0 {
        Building::Reading { root: root.push(value), open }
    } else {
        Building::Reading { root, open: open.update(open.len() - 1, open.last().push(value)) }
    }
}

/// The tree once `token` is read.
///
/// An opening parenthesis starts the top-level list if there is none, else a
/// list inside the innermost one. A closing parenthesis ends the innermost
/// open list, which becomes an element of the one around it; where none is
/// open it changes nothing. Any other token is read as a value and appended to
/// the innermost list; before the first opening parenthesis it is an error.
pub open spec fn build_step(before: Building, token: Seq<char>) -> Result<Building, LispError> {
    match before {
        Building::Waiting => if is_opener(token) {
            Ok(Building::Reading { root: Seq::empty(), open: Seq::empty() })
        } else if is_closer(token) {
            Ok(Building::Waiting)
        } else {
            Err(LispError::MalformedInput)
        },
        Building::Reading { root, open } => if is_opener(token) {
            Ok(Building::Reading { root, open: open.push(Seq::empty()) })
        } else if is_closer(token) {
            if open.len() == 0 {
                Ok(before)
            } else {
                Ok(appended(root, open.drop_last(), Value::List(open.last())))
            }
        } else {
            match classify(token) {
                Ok(value) => Ok(appended(root, open, value)),
                Err(error) => Err(error),
            }
        },
    }
}

/// The tree once all of `tokens` are read, or the first error met on the way.
pub open spec fn building_of(tokens: Seq<Seq<char>>) -> Result<Building, LispError>
    decreases tokens.len(),
{
    if tokens.len() == 0 {
        Ok(Building::Waiting)
    } else {
        match building_of(tokens.drop_last()) {
            Ok(before) => build_step(before, tokens.last()),
            Err(error) => Err(error),
        }
    }
}

/// What `tokens` parse to: nothing where they hold no opening parenthesis,
/// else the top-level list. Lists still open at the end are left out.
pub open spec fn parsed(tokens: Seq<Seq<char>>) -> Result<Option<Seq<Value>>, LispError> {
    match building_of(tokens) {
        Ok(Building::Waiting) => Ok(None),
        Ok(Building::Reading { root, open }) => Ok(Some(root)),
        Err(error) => Err(error),
    }
}

/// A closing parenthesis met while no list is open inside the top-level one,
/// or before any list was begun, is dropped: the tree stays as it was.
pub proof fn lemma_stray_closer_dropped(tokens: Seq<Seq<char>>)
    requires
        match building_of(tokens) {
            Ok(Building::Waiting) => true,
            Ok(Building::Reading { root, open }) => open.len() == 0,
            Err(_) => false,
        },
    ensures
        building_of(tokens.push(seq![')'])) == building_of(tokens),
        parsed(tokens.push(seq![')'])) == parsed(tokens),
{
    let closer = seq![')'];
    assert(tokens.push(closer).drop_last() == tokens);
    assert(closer[0] != seq!['('][0]);
}

} // verus!
