//! What a key press does to the monitor, while typing a search and
//! otherwise.
use vstd::prelude::*;
use crate::domain::SortMode;
use crate::state::{moved_down, moved_up, resorted, toggled_current, App};

verus! {

/// A key pressed at the terminal.
#[derive(Clone, Copy, Debug, PartialEq, Eq, Structural)]
pub enum Key {
    Esc,
    Enter,
    Backspace,
    Up,
    Down,
    Char(char),
    Other,
}

/// Appends `c` with `String::push`; the string gains that character at
/// its end.
#[verifier::external_body]
fn push_char(s: &mut String, c: char)
    ensures
        final(s)@ == old(s)@.push(c),
{
    s.push(c);
}

/// Removes the last character with `String::pop`; an empty string stays
/// empty, another loses its last character.
#[verifier::external_body]
fn pop_char(s: &mut String) -> (r: Option<char>)
    ensures
        old(s)@.len() == 0 ==> final(s)@ == old(s)@ && r is None,
        old(s)@.len() > 0 ==> final(s)@ == old(s)@.drop_last() && r == Some(old(s)@.last()),
{
    s.pop()
}

/// `new` is `old` but for the search filter, whether the search is being
/// typed, and the selection.
pub open spec fn same_but_search(old: &App, new: &App) -> bool {
    &&& new.system == old.system
    &&& new.groups == old.groups
    &&& new.expanded_pids == old.expanded_pids
    &&& new.sort_mode == old.sort_mode
    &&& new.sort_ascending == old.sort_ascending
}

/// What a key does while the search is being typed: Esc clears the
/// filter and ends the search, Enter ends the search keeping the filter,
/// Backspace deletes the filter's last character, a character is added to
/// the filter; each change of the filter selects the first row. Other keys
/// do nothing.
pub open spec fn search_key_effect(old: &App, new: &App, key: Key) -> bool {
    match key {
        Key::Esc => {
            &&& same_but_search(old, new)
            &&& new.filter_text@.len() == 0
            &&& !new.search_active
            &&& new.table_state@ == Some(0usize)
        },
        Key::Enter => {
            &&& same_but_search(old, new)
            &&& new.filter_text == old.filter_text
            &&& !new.search_active
            &&& new.table_state == old.table_state
        },
        Key::Backspace => {
            &&& same_but_search(old, new)
            &&& new.filter_text@ == (if old.filter_text@.len() == 0 {
                old.filter_text@
            } else {
                old.filter_text@.drop_last()
            })
            &&& new.search_active == old.search_active
            &&& new.table_state@ == Some(0usize)
        },
        Key::Char(c) => {
            &&& same_but_search(old, new)
            &&& new.filter_text@ == old.filter_text@.push(c)
            &&& new.search_active == old.search_active
            &&& new.table_state@ == Some(0usize)
        },
        _ => *new == *old,
    }
}

/// What a key does otherwise, and whether it quits: q quits; Esc clears a
/// filter (selecting the first row), or quits when there is none; Down or
/// j and Up or k move the selection; space or x expands or collapses the
/// selected group; c, m, d and n sort by CPU, memory, disk and name; s
/// starts a search. Other keys do nothing.
pub open spec fn normal_key_effect(old: &App, new: &App, key: Key, quit: bool) -> bool {
    match key {
        Key::Char('q') => quit && *new == *old,
        Key::Esc => if old.filter_text@.len() > 0 {
            &&& !quit
            &&& same_but_search(old, new)
            &&& new.filter_text@.len() == 0
            &&& new.search_active == old.search_active
            &&& new.table_state@ == Some(0usize)
        } else {
            quit && *new == *old
        },
        Key::Down | Key::Char('j') => !quit && moved_down(old, new),
        Key::Up | Key::Char('k') => !quit && moved_up(old, new),
        Key::Char(' ') | Key::Char('x') => !quit && toggled_current(old, new),
        Key::Char('c') => !quit && resorted(old, new, SortMode::Cpu),
        Key::Char('m') => !quit && resorted(old, new, SortMode::Memory),
        Key::Char('d') => !quit && resorted(old, new, SortMode::DiskIo),
        Key::Char('n') => !quit && resorted(old, new, SortMode::Name),
        Key::Char('s') => {
            &&& !quit
            &&& same_but_search(old, new)
            &&& new.filter_text == old.filter_text
            &&& new.search_active
            &&& new.table_state == old.table_state
        },
        _ => !quit && *new == *old,
    }
}

/// Handles a key while the search is being typed.
pub fn handle_search_input(app: &mut App, key: Key)
    requires
        old(app).wf(),
    ensures
        final(app).wf(),
        search_key_effect(old(app), final(app), key),
{
    match key {
        Key::Esc => {
            app.filter_text = String::new();
            app.search_active = false;
            app.table_state.select(Some(0));
        },
        Key::Enter => {
            app.search_active = false;
        },
        Key::Backspace => {
            pop_char(&mut app.filter_text);
            app.table_state.select(Some(0));
        },
        Key::Char(c) => {
            push_char(&mut app.filter_text, c);
            app.table_state.select(Some(0));
        },
        _ => {},
    }
}

/// Handles a key when no search is being typed; returns whether the
/// monitor should quit.
pub fn handle_normal_input(app: &mut App, key: Key) -> (quit: bool)
    requires
        old(app).wf(),
    ensures
        final(app).wf(),
        normal_key_effect(old(app), final(app), key, quit),
{
    match key {
        Key::Char('q') => {
            return true;
        },
        Key::Esc => {
            if app.filter_text.as_str().is_empty() {
                return true;
            } else {
                app.filter_text = String::new();
                app.table_state.select(Some(0));
            }
        },
        Key::Down | Key::Char('j') => app.next(),
        Key::Up | Key::Char('k') => app.previous(),
        Key::Char(' ') | Key::Char('x') => app.toggle_current(),
        Key::Char('c') => app.toggle_sort_mode(SortMode::Cpu),
        Key::Char('m') => app.toggle_sort_mode(SortMode::Memory),
        Key::Char('d') => app.toggle_sort_mode(SortMode::DiskIo),
        Key::Char('n') => app.toggle_sort_mode(SortMode::Name),
        Key::Char('s') => {
            app.search_active = true;
        },
        _ => {},
    }
    false
}

} // verus!
