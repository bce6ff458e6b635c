//! Key mapping: a pure function from the focused pane, a key and the
//! pending-`g` / search-input state to an `Action`.

use vstd::prelude::*;
use crate::app::Focus;

verus! {

/// The keys the viewer distinguishes; every other key is `Other`.
#[derive(Debug, Clone, Copy, PartialEq, Eq, Structural)]
pub enum KeyCode {
    Char(char),
    Enter,
    Esc,
    Backspace,
    Tab,
    Up,
    Down,
    PageUp,
    PageDown,
    Other,
}

/// A key press: the key and whether Control was held.
#[derive(Debug, Clone, Copy, PartialEq, Eq, Structural)]
pub struct KeyEvent {
    pub code: KeyCode,
    pub ctrl: bool,
}

/// What the user asked for.
#[derive(Debug, Clone, Copy, PartialEq, Eq, Structural)]
pub enum Action {
    Quit,
    ToggleFocus,
    BrowserUp,
    BrowserDown,
    BrowserTop,
    BrowserBottom,
    OpenSelected,
    CollapseOrParent,
    ContentUp(usize),
    ContentDown(usize),
    ContentTop,
    ContentBottom,
    SearchStart,
    SearchInput(char),
    SearchBackspace,
    SearchCommit,
    SearchCancel,
    SearchNext,
    SearchPrev,
    EditCurrentPage,
    EditCurrentBlock,
}

/// A printable ASCII character (space through `~`).
pub open spec fn printable_ascii(c: char) -> bool {
    ' ' <= c <= '~'
}

/// Keys while typing a search query (either pane): Ctrl-C quits, Enter
/// commits, Esc cancels, Backspace deletes, printable ASCII is typed.
pub open spec fn search_key(code: KeyCode, ctrl: bool) -> Option<Action> {
    match code {
        KeyCode::Char(c) => if c == 'c' && ctrl {
            Some(Action::Quit)
        } else if printable_ascii(c) {
            Some(Action::SearchInput(c))
        } else {
            None
        },
        KeyCode::Enter => Some(Action::SearchCommit),
        KeyCode::Esc => Some(Action::SearchCancel),
        KeyCode::Backspace => Some(Action::SearchBackspace),
        _ => None,
    }
}

/// The key map: the action for `key`, and whether a `g` is now pending
/// (the first half of `gg`).
pub open spec fn key_action(
    focus: Focus,
    key: KeyEvent,
    pending_g: bool,
    search_input_active: bool,
    browser_has_committed_search: bool,
) -> (Option<Action>, bool) {
    let code = key.code;
    if search_input_active {
        (search_key(code, key.ctrl), false)
    } else if code == KeyCode::Char('q') || (code == KeyCode::Char('c') && key.ctrl) {
        (Some(Action::Quit), false)
    } else {
        match focus {
            Focus::Browser => match code {
                KeyCode::Char('/') => (Some(Action::SearchStart), false),
                KeyCode::Char('n') if browser_has_committed_search => (Some(Action::SearchNext), false),
                KeyCode::Char('N') if browser_has_committed_search => (Some(Action::SearchPrev), false),
                KeyCode::Tab => (Some(Action::ToggleFocus), false),
                KeyCode::Down | KeyCode::Char('j') => (Some(Action::BrowserDown), false),
                KeyCode::Up | KeyCode::Char('k') => (Some(Action::BrowserUp), false),
                KeyCode::Enter | KeyCode::Char('l') => (Some(Action::OpenSelected), false),
                KeyCode::Char('h') => (Some(Action::CollapseOrParent), false),
                KeyCode::Char('G') => (Some(Action::BrowserBottom), false),
                KeyCode::Char('g') => if pending_g {
                    (Some(Action::BrowserTop), false)
                } else {
                    (None, true)
                },
                _ => (None, false),
            },
            Focus::Content => match code {
                KeyCode::Tab | KeyCode::Char('h') => (Some(Action::ToggleFocus), false),
                KeyCode::Down | KeyCode::Char('j') => (Some(Action::ContentDown(1)), false),
                KeyCode::Up | KeyCode::Char('k') => (Some(Action::ContentUp(1)), false),
                KeyCode::PageDown => (Some(Action::ContentDown(20)), false),
                KeyCode::PageUp => (Some(Action::ContentUp(20)), false),
                KeyCode::Char('G') => (Some(Action::ContentBottom), false),
                KeyCode::Char('g') => if pending_g {
                    (Some(Action::ContentTop), false)
                } else {
                    (None, true)
                },
                KeyCode::Char('/') => (Some(Action::SearchStart), false),
                KeyCode::Char('n') => (Some(Action::SearchNext), false),
                KeyCode::Char('N') => (Some(Action::SearchPrev), false),
                _ => (None, false),
            },
        }
    }
}

/// Key handling while a search query is being typed (either pane).
fn map_key_search(code: KeyCode, ctrl: bool) -> (r: (Option<Action>, bool))
    ensures
        r == (search_key(code, ctrl), false),
{
    // Ctrl-C still quits even while typing a search query.
    if let KeyCode::Char('c') = code {
        if ctrl {
            return (Some(Action::Quit), false);
        }
    }
    match code {
        KeyCode::Enter => (Some(Action::SearchCommit), false),
        KeyCode::Esc => (Some(Action::SearchCancel), false),
        KeyCode::Backspace => (Some(Action::SearchBackspace), false),
        KeyCode::Char(c) => {
            if ' ' <= c && c <= '~' {
                (Some(Action::SearchInput(c)), false)
            } else {
                (None, false)
            }
        },
        _ => (None, false),
    }
}

/// Maps a key press to an action; returns it with the next pending-`g`
/// state.
///
/// - `q` and Ctrl-C quit (while typing a search query `q` is typed; Ctrl-C
///   still quits).
/// - Browser: Tab toggles focus, Down/`j` and Up/`k` move, Enter/`l` opens,
///   `h` collapses or goes to the parent, `G` and `gg` go to the bottom and
///   top, `/` starts the filter, `n`/`N` step through a committed search.
/// - Content: Tab/`h` toggle focus, Down/`j` and Up/`k` move one block,
///   PageDown/PageUp twenty, `G` and `gg` go to the last and first block,
///   `/` starts a search, `n`/`N` go to the next and previous match.
/// - Typing a query (`search_input_active`): printable characters are
///   typed, Backspace deletes, Enter commits, Esc cancels.
pub fn map_key(
    focus: Focus,
    key: KeyEvent,
    pending_g: bool,
    search_input_active: bool,
    browser_has_committed_search: bool,
) -> (r: (Option<Action>, bool))
    ensures
        r == key_action(focus, key, pending_g, search_input_active, browser_has_committed_search),
{
    let code = key.code;
    if search_input_active {
        return map_key_search(code, key.ctrl);
    }
    if let KeyCode::Char('q') = code {
        return (Some(Action::Quit), false);
    }
    if let KeyCode::Char('c') = code {
        if key.ctrl {
            return (Some(Action::Quit), false);
        }
    }
    let action = match focus {
        Focus::Browser => {
            if let KeyCode::Char('/') = code {
                return (Some(Action::SearchStart), false);
            }
            if browser_has_committed_search {
                match code {
                    KeyCode::Char('n') => return (Some(Action::SearchNext), false),
                    KeyCode::Char('N') => return (Some(Action::SearchPrev), false),
                    _ => {},
                }
            }
            match code {
                KeyCode::Tab => Some(Action::ToggleFocus),
                KeyCode::Down | KeyCode::Char('j') => Some(Action::BrowserDown),
                KeyCode::Up | KeyCode::Char('k') => Some(Action::BrowserUp),
                KeyCode::Enter | KeyCode::Char('l') => Some(Action::OpenSelected),
                KeyCode::Char('h') => Some(Action::CollapseOrParent),
                KeyCode::Char('G') => Some(Action::BrowserBottom),
                KeyCode::Char('g') => {
                    if pending_g {
                        Some(Action::BrowserTop)
                    } else {
                        return (None, true);
                    }
                },
                _ => None,
            }
        },
        Focus::Content => match code {
            KeyCode::Tab | KeyCode::Char('h') => Some(Action::ToggleFocus),
            KeyCode::Down | KeyCode::Char('j') => Some(Action::ContentDown(1)),
            KeyCode::Up | KeyCode::Char('k') => Some(Action::ContentUp(1)),
            KeyCode::PageDown => Some(Action::ContentDown(20)),
            KeyCode::PageUp => Some(Action::ContentUp(20)),
            KeyCode::Char('G') => Some(Action::ContentBottom),
            KeyCode::Char('g') => {
                if pending_g {
                    Some(Action::ContentTop)
                } else {
                    return (None, true);
                }
            },
            KeyCode::Char('/') => Some(Action::SearchStart),
            KeyCode::Char('n') => Some(Action::SearchNext),
            KeyCode::Char('N') => Some(Action::SearchPrev),
            _ => None,
        },
    };
    (action, false)
}

/// Ctrl-C quits in every mode, in either pane, with no `g` pending after.
pub proof fn lemma_ctrl_c_quits(
    focus: Focus,
    pending_g: bool,
    search_input_active: bool,
    browser_has_committed_search: bool,
)
    ensures
        key_action(
            focus,
            KeyEvent { code: KeyCode::Char('c'), ctrl: true },
            pending_g,
            search_input_active,
            browser_has_committed_search,
        ) == (Some(Action::Quit), false),
{
}

/// While a query is being typed every printable ASCII character, `q`
/// included, is typed into it rather than acting as a command.
pub proof fn lemma_typing_inserts(focus: Focus, c: char, pending_g: bool, committed: bool)
    requires
        printable_ascii(c),
    ensures
        key_action(focus, KeyEvent { code: KeyCode::Char(c), ctrl: false }, pending_g, true, committed)
            == (Some(Action::SearchInput(c)), false),
{
}

/// Only a `g` outside search input leaves a `g` pending; it never comes
/// with an action.
pub proof fn lemma_pending_g(
    focus: Focus,
    key: KeyEvent,
    pending_g: bool,
    search_input_active: bool,
    committed: bool,
)
    ensures
        ({
            let r = key_action(focus, key, pending_g, search_input_active, committed);
            r.1 ==> r.0 is None && key.code == KeyCode::Char('g') && !pending_g
                && !search_input_active
        }),
{
}

} // verus!
