//! What a store holds after a history of commands.

use crate::command::CommandView;
use vstd::prelude::*;

verus! {

/// What a store that holds `held` holds after `cmd`.
pub open spec fn apply(held: Map<Seq<char>, Seq<char>>, cmd: CommandView) -> Map<
    Seq<char>,
    Seq<char>,
> {
    match cmd {
        CommandView::SetValue { key, value } => held.insert(key, value),
        CommandView::Remove { key } => held.remove(key),
    }
}

/// What a store that holds `held` holds after the commands of `history`,
/// in order.
pub open spec fn apply_all(held: Map<Seq<char>, Seq<char>>, history: Seq<CommandView>) -> Map<
    Seq<char>,
    Seq<char>,
>
    decreases history.len(),
{
    if history.len() == 0 {
        held
    } else {
        apply(apply_all(held, history.drop_last()), history.last())
    }
}

/// The value that `held` has for `key`, if any.
pub open spec fn lookup(held: Map<Seq<char>, Seq<char>>, key: Seq<char>) -> Option<Seq<char>> {
    if held.contains_key(key) {
        Some(held[key])
    } else {
        None
    }
}

/// The value that the latest command about `key` leaves: the value of a
/// `Set`, none after a `Remove`, and what `held` has where no command of
/// the history is about `key`.
pub open spec fn latest(held: Map<Seq<char>, Seq<char>>, history: Seq<CommandView>, key: Seq<char>)
    -> Option<Seq<char>>
    decreases history.len(),
{
    if history.len() == 0 {
        lookup(held, key)
    } else if history.last().key() == key {
        match history.last() {
            CommandView::SetValue { value, .. } => Some(value),
            CommandView::Remove { .. } => None,
        }
    } else {
        latest(held, history.drop_last(), key)
    }
}

/// After any history of `set` and `remove`, a key has the value of
/// the latest `set` of it that no `remove` of it follows, and no value
/// where there is no such `set`.
pub proof fn lemma_latest_write_wins(
    held: Map<Seq<char>, Seq<char>>,
    history: Seq<CommandView>,
    key: Seq<char>,
)
    ensures
        lookup(apply_all(held, history), key) == latest(held, history, key),
    decreases history.len(),
{
    if history.len() > 0 {
        lemma_latest_write_wins(held, history.drop_last(), key);
    }
}

} // verus!
