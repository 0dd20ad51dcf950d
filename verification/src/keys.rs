//! The keys of the program and the actions they stand for.
use vstd::prelude::*;

verus! {

/// What the user asks for.
#[derive(Clone, Copy, PartialEq, Eq, Structural)]
pub enum Action {
    Quit,
    NextPanel,
    PrevPanel,
    FocusPanel(usize),
    Up,
    Down,
    PageUp,
    PageDown,
    Top,
    Bottom,
    /// Scroll the diff by this many lines; a negative number scrolls up.
    DiffScroll(i16),
    ZoomGraph,
    Help,
    ToggleLog,
    Refresh,
    // Files panel
    ToggleStage,
    StageAll,
    CommitPrompt,
    CommitEditor,
    StashPrompt,
    EnterHunks,
    TakeOurs,
    TakeTheirs,
    // Branches panel
    Checkout,
    NewBranchPrompt,
    DeleteBranch,
    Push,
    Pull,
    Fetch,
    // Stash panel
    ApplyStash,
    PopStash,
    DropStash,
}

/// A key the way the program reads it. The terminal library has more
/// keys; the program around the library maps those it does not know to
/// `Other`.
#[derive(Clone, Copy, PartialEq, Eq, Structural)]
pub enum Key {
    Char(char),
    Tab,
    BackTab,
    Up,
    Down,
    Enter,
    Esc,
    Backspace,
    Other,
}

/// The keys that mean the same in every panel.
pub open spec fn global_action(key: Key) -> Option<Action> {
    match key {
        Key::Char('q') => Some(Action::Quit),
        Key::Tab => Some(Action::NextPanel),
        Key::BackTab => Some(Action::PrevPanel),
        Key::Char(c) => if '1' <= c && c <= '5' {
            Some(Action::FocusPanel((c as usize - '1' as usize) as usize))
        } else if c == 'j' {
            Some(Action::Down)
        } else if c == 'k' {
            Some(Action::Up)
        } else if c == 'r' {
            Some(Action::Refresh)
        } else {
            None
        },
        Key::Down => Some(Action::Down),
        Key::Up => Some(Action::Up),
        _ => None,
    }
}

/// The keys of one panel: the files (1), the branches (2) and the stashes
/// (4).
pub open spec fn panel_action(focus: usize, key: Key) -> Option<Action> {
    match (focus, key) {
        (1, Key::Char(' ')) => Some(Action::ToggleStage),
        (1, Key::Char('a')) => Some(Action::StageAll),
        (1, Key::Char('c')) => Some(Action::CommitPrompt),
        (1, Key::Char('C')) => Some(Action::CommitEditor),
        (1, Key::Char('s')) => Some(Action::StashPrompt),
        (1, Key::Enter) => Some(Action::EnterHunks),
        (1, Key::Char('o')) => Some(Action::TakeOurs),
        (1, Key::Char('t')) => Some(Action::TakeTheirs),
        (2, Key::Enter) => Some(Action::Checkout),
        (2, Key::Char('n')) => Some(Action::NewBranchPrompt),
        (2, Key::Char('d')) => Some(Action::DeleteBranch),
        (2, Key::Char('P')) => Some(Action::Push),
        (2, Key::Char('p')) => Some(Action::Pull),
        (2, Key::Char('f')) => Some(Action::Fetch),
        (4, Key::Enter) => Some(Action::ApplyStash),
        (4, Key::Char('a')) => Some(Action::ApplyStash),
        (4, Key::Char('p')) => Some(Action::PopStash),
        (4, Key::Char('d')) => Some(Action::DropStash),
        _ => None,
    }
}

/// Map a key to an action. Global keys come first. Panel keys depend on the
/// panel in focus.
pub fn action_for(key: Key, focus: usize) -> (r: Option<Action>)
    ensures
        r == (if global_action(key) is Some {
            global_action(key)
        } else {
            panel_action(focus, key)
        }),
        r == key_action(key, focus),
{
    let global = match key {
        Key::Char('q') => Some(Action::Quit),
        Key::Tab => Some(Action::NextPanel),
        Key::BackTab => Some(Action::PrevPanel),
        Key::Char(c) => if '1' <= c && c <= '5' {
            Some(Action::FocusPanel(c as usize - '1' as usize))
        } else if c == 'j' {
            Some(Action::Down)
        } else if c == 'k' {
            Some(Action::Up)
        } else if c == 'r' {
            Some(Action::Refresh)
        } else {
            None
        },
        Key::Down => Some(Action::Down),
        Key::Up => Some(Action::Up),
        _ => None,
    };
    if global.is_some() {
        return global;
    }
    match (focus, key) {
        (1, Key::Char(' ')) => Some(Action::ToggleStage),
        (1, Key::Char('a')) => Some(Action::StageAll),
        (1, Key::Char('c')) => Some(Action::CommitPrompt),
        (1, Key::Char('C')) => Some(Action::CommitEditor),
        (1, Key::Char('s')) => Some(Action::StashPrompt),
        (1, Key::Enter) => Some(Action::EnterHunks),
        (1, Key::Char('o')) => Some(Action::TakeOurs),
        (1, Key::Char('t')) => Some(Action::TakeTheirs),
        (2, Key::Enter) => Some(Action::Checkout),
        (2, Key::Char('n')) => Some(Action::NewBranchPrompt),
        (2, Key::Char('d')) => Some(Action::DeleteBranch),
        (2, Key::Char('P')) => Some(Action::Push),
        (2, Key::Char('p')) => Some(Action::Pull),
        (2, Key::Char('f')) => Some(Action::Fetch),
        (4, Key::Enter) => Some(Action::ApplyStash),
        (4, Key::Char('a')) => Some(Action::ApplyStash),
        (4, Key::Char('p')) => Some(Action::PopStash),
        (4, Key::Char('d')) => Some(Action::DropStash),
        _ => None,
    }
}

/// The action of a key in a panel, as `action_for` gives it.
pub open spec fn key_action(key: Key, focus: usize) -> Option<Action> {
    if global_action(key) is Some {
        global_action(key)
    } else {
        panel_action(focus, key)
    }
}

/// The keys of the program, as its help lists them: what each key does in
/// every panel, and what each panel key does in its panel. On the branches
/// panel `P` pushes and `p` pulls; on the stash panel `p` pops.
pub proof fn lemma_key_table(focus: usize)
    ensures
        key_action(Key::Char('q'), focus) == Some(Action::Quit),
        key_action(Key::Tab, focus) == Some(Action::NextPanel),
        key_action(Key::BackTab, focus) == Some(Action::PrevPanel),
        key_action(Key::Char('1'), focus) == Some(Action::FocusPanel(0)),
        key_action(Key::Char('2'), focus) == Some(Action::FocusPanel(1)),
        key_action(Key::Char('3'), focus) == Some(Action::FocusPanel(2)),
        key_action(Key::Char('4'), focus) == Some(Action::FocusPanel(3)),
        key_action(Key::Char('5'), focus) == Some(Action::FocusPanel(4)),
        key_action(Key::Char('j'), focus) == Some(Action::Down),
        key_action(Key::Down, focus) == Some(Action::Down),
        key_action(Key::Char('k'), focus) == Some(Action::Up),
        key_action(Key::Up, focus) == Some(Action::Up),
        key_action(Key::Char('r'), focus) == Some(Action::Refresh),
        focus == 1 ==> key_action(Key::Char(' '), focus) == Some(Action::ToggleStage),
        focus == 1 ==> key_action(Key::Char('a'), focus) == Some(Action::StageAll),
        focus == 1 ==> key_action(Key::Char('c'), focus) == Some(Action::CommitPrompt),
        focus == 1 ==> key_action(Key::Char('C'), focus) == Some(Action::CommitEditor),
        focus == 1 ==> key_action(Key::Char('s'), focus) == Some(Action::StashPrompt),
        focus == 1 ==> key_action(Key::Enter, focus) == Some(Action::EnterHunks),
        focus == 1 ==> key_action(Key::Char('o'), focus) == Some(Action::TakeOurs),
        focus == 1 ==> key_action(Key::Char('t'), focus) == Some(Action::TakeTheirs),
        focus == 2 ==> key_action(Key::Enter, focus) == Some(Action::Checkout),
        focus == 2 ==> key_action(Key::Char('n'), focus) == Some(Action::NewBranchPrompt),
        focus == 2 ==> key_action(Key::Char('d'), focus) == Some(Action::DeleteBranch),
        focus == 2 ==> key_action(Key::Char('P'), focus) == Some(Action::Push),
        focus == 2 ==> key_action(Key::Char('p'), focus) == Some(Action::Pull),
        focus == 2 ==> key_action(Key::Char('f'), focus) == Some(Action::Fetch),
        focus == 4 ==> key_action(Key::Enter, focus) == Some(Action::ApplyStash),
        focus == 4 ==> key_action(Key::Char('a'), focus) == Some(Action::ApplyStash),
        focus == 4 ==> key_action(Key::Char('p'), focus) == Some(Action::PopStash),
        focus == 4 ==> key_action(Key::Char('d'), focus) == Some(Action::DropStash),
        focus != 1 && focus != 2 && focus != 4 ==> key_action(Key::Enter, focus) is None,
{
}

/// No other key does anything: a key has an action only when the table
/// above lists it, for that panel.
pub proof fn lemma_keys_listed(key: Key, focus: usize)
    ensures
        key_action(key, focus) is Some ==> {
            ||| key == Key::Tab
            ||| key == Key::BackTab
            ||| key == Key::Down
            ||| key == Key::Up
            ||| key == Key::Char('q')
            ||| key == Key::Char('j')
            ||| key == Key::Char('k')
            ||| key == Key::Char('r')
            ||| key == Key::Char('1')
            ||| key == Key::Char('2')
            ||| key == Key::Char('3')
            ||| key == Key::Char('4')
            ||| key == Key::Char('5')
            ||| (focus == 1 && (key == Key::Char(' ') || key == Key::Char('a') || key == Key::Char(
                'c',
            ) || key == Key::Char('C') || key == Key::Char('s') || key == Key::Enter || key
                == Key::Char('o') || key == Key::Char('t')))
            ||| (focus == 2 && (key == Key::Enter || key == Key::Char('n') || key == Key::Char('d')
                || key == Key::Char('P') || key == Key::Char('p') || key == Key::Char('f')))
            ||| (focus == 4 && (key == Key::Enter || key == Key::Char('a') || key == Key::Char('p')
                || key == Key::Char('d')))
        },
{
    if let Key::Char(c) = key {
        if '1' <= c && c <= '5' {
            assert(c == '1' || c == '2' || c == '3' || c == '4' || c == '5');
        }
    }
}

} // verus!
