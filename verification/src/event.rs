//! The one kind of message that the main loop of the program waits for:
//! a key, a mouse event, a new size of the terminal, an answer of git, or
//! a change in the repository.
use vstd::prelude::*;

use crate::git::Resp;
use crate::keys::Key;

verus! {

pub enum Msg {
    /// A key press.
    Key(Key),
    Mouse,
    Resize,
    Git(Resp),
    /// Something in the repository changed.
    Refresh,
    /// Files of the work tree changed: their names, or None when which
    /// ones is not known.
    Dirty(Option<Vec<String>>),
}

} // verus!
