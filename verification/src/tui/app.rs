//! The state of the interactive editor.
use crate::secret;
use crate::secret::SecretChars;
use crate::text;
use crate::vault;
use crate::vault::EnvVault;
use std::collections::HashSet;
use vstd::prelude::*;

verus! {

broadcast use vstd::std_specs::hash::group_hash_axioms;

/// What the editor is doing.
#[derive(Clone, Copy, Debug, PartialEq, Eq, Structural)]
pub enum Mode {
    /// Browsing the entries.
    Browse,
    /// Typing the key of a new entry.
    AddKey,
    /// Typing the value of a new entry.
    AddValue,
    /// Editing the value of the selected entry.
    EditValue,
    /// Asking whether to delete the selected entry.
    ConfirmDelete,
    /// Asking whether to quit with unsaved changes.
    ConfirmQuit,
}

impl Mode {
    /// Whether text is being typed.
    pub open spec fn typing(self) -> bool {
        self == Mode::AddKey || self == Mode::AddValue || self == Mode::EditValue
    }
}

/// The editor.
pub struct App {
    pub vault: EnvVault,
    pub label: String,
    pub selected: usize,
    pub revealed: HashSet<usize>,
    pub dirty: bool,
    pub mode: Mode,
    pub input: String,
    pub pending_key: Option<String>,
    pub status: String,
    pub should_quit: bool,
}

/// What the editor holds.
#[verifier::ext_equal]
pub struct AppView {
    pub entries: Seq<(Seq<char>, Seq<char>)>,
    pub label: Seq<char>,
    pub selected: usize,
    pub revealed: Set<usize>,
    pub dirty: bool,
    pub mode: Mode,
    pub input: Seq<char>,
    pub pending_key: Option<Seq<char>>,
    pub status: Seq<char>,
    pub should_quit: bool,
}

impl View for App {
    type V = AppView;

    open spec fn view(&self) -> AppView {
        AppView {
            entries: self.vault@,
            label: self.label@,
            selected: self.selected,
            revealed: self.revealed@,
            dirty: self.dirty,
            mode: self.mode,
            input: self.input@,
            pending_key: match self.pending_key {
                Some(k) => Some(k@),
                None => None,
            },
            status: self.status@,
            should_quit: self.should_quit,
        }
    }
}

impl AppView {
    /// The entries can be counted, one is selected if there is any, shown values belong to entries, an
    /// entry that is edited or about to be deleted exists, and a value is asked
    /// for only with a valid key at hand.
    pub open spec fn wf(self) -> bool {
        &&& self.entries.len() <= usize::MAX
        &&& self.selected < self.entries.len() || (self.selected == 0 && self.entries.len() == 0)
        &&& forall|i: usize| #[trigger] self.revealed.contains(i) ==> i < self.entries.len()
        &&& self.mode == Mode::EditValue || self.mode == Mode::ConfirmDelete ==> self.entries.len()
            > 0
        &&& self.mode == Mode::AddValue ==> self.pending_key is Some
        &&& self.pending_key is Some ==> vault::valid_key(self.pending_key->0)
    }

    /// The editor with nothing done yet.
    pub open spec fn fresh(entries: Seq<(Seq<char>, Seq<char>)>, label: Seq<char>) -> AppView {
        AppView {
            entries,
            label,
            selected: 0,
            revealed: Set::empty(),
            dirty: false,
            mode: Mode::Browse,
            input: Seq::empty(),
            pending_key: None,
            status: Seq::empty(),
            should_quit: false,
        }
    }

    pub open spec fn after_select_next(self) -> AppView {
        if self.selected + 1 < self.entries.len() {
            AppView { selected: (self.selected + 1) as usize, ..self }
        } else {
            self
        }
    }

    pub open spec fn after_select_prev(self) -> AppView {
        if self.selected > 0 {
            AppView { selected: (self.selected - 1) as usize, ..self }
        } else {
            self
        }
    }

    pub open spec fn after_begin_add(self) -> AppView {
        AppView {
            mode: Mode::AddKey,
            input: Seq::empty(),
            pending_key: None,
            status: Seq::empty(),
            ..self
        }
    }

    pub open spec fn after_begin_edit(self) -> AppView {
        if self.entries.len() == 0 {
            AppView { status: "nothing to edit — press 'a' to add an entry"@, ..self }
        } else {
            AppView {
                mode: Mode::EditValue,
                input: self.entries[self.selected as int].1,
                status: Seq::empty(),
                ..self
            }
        }
    }

    pub open spec fn after_begin_delete(self) -> AppView {
        if self.entries.len() == 0 {
            self
        } else {
            AppView { mode: Mode::ConfirmDelete, ..self }
        }
    }

    pub open spec fn after_toggle_reveal(self) -> AppView {
        if self.entries.len() == 0 {
            self
        } else if self.revealed.contains(self.selected) {
            AppView { revealed: self.revealed.remove(self.selected), ..self }
        } else {
            AppView { revealed: self.revealed.insert(self.selected), ..self }
        }
    }

    /// The selected entry is gone, everything is hidden, and the selection stays
    /// in range.
    pub open spec fn after_delete(self) -> AppView {
        let rest = self.entries.remove(self.selected as int);
        AppView {
            entries: rest,
            selected: if rest.len() == 0 {
                0
            } else if self.selected >= rest.len() {
                (rest.len() - 1) as usize
            } else {
                self.selected
            },
            revealed: Set::empty(),
            dirty: true,
            mode: Mode::Browse,
            status: "deleted "@ + self.entries[self.selected as int].0,
            ..self
        }
    }

    /// `key` has the value `value` and is selected.
    pub open spec fn after_set(self, key: Seq<char>, value: Seq<char>) -> AppView {
        AppView {
            entries: vault::with_value(self.entries, key, value),
            selected: text::first_index(vault::keys(self.entries), key) as usize,
            dirty: true,
            status: "added "@ + key,
            input: Seq::empty(),
            mode: Mode::Browse,
            ..self
        }
    }

    pub open spec fn after_bad_key(self, key: Seq<char>) -> AppView {
        AppView { status: "invalid key: "@ + vault::key_error(key).text(), ..self }
    }

    /// A key was typed: a whole `KEY=VALUE` is set at once, a bare key asks for
    /// its value.
    pub open spec fn after_key_typed(self) -> AppView {
        let n = text::first_index(self.input, '=');
        if n < self.input.len() {
            let key = text::trimmed(self.input.take(n));
            let value = vault::unquoted(text::trimmed(self.input.skip(n + 1)));
            if vault::valid_key(key) {
                self.after_set(key, value)
            } else {
                self.after_bad_key(key)
            }
        } else {
            let key = text::trimmed(self.input);
            if !vault::valid_key(key) {
                self.after_bad_key(key)
            } else {
                AppView {
                    pending_key: Some(key),
                    input: Seq::empty(),
                    mode: Mode::AddValue,
                    status: if vault::keys(self.entries).contains(key) {
                        "'"@ + key + "' already exists — editing its value"@
                    } else {
                        self.status
                    },
                    ..self
                }
            }
        }
    }

    pub open spec fn after_submit(self) -> AppView {
        match self.mode {
            Mode::AddKey => self.after_key_typed(),
            Mode::AddValue => match self.pending_key {
                Some(key) => AppView { pending_key: None, ..self.after_set(key, self.input) },
                None => AppView { input: Seq::empty(), mode: Mode::Browse, ..self },
            },
            Mode::EditValue => AppView {
                entries: self.entries.update(
                    self.selected as int,
                    (self.entries[self.selected as int].0, self.input),
                ),
                dirty: true,
                status: "value updated"@,
                input: Seq::empty(),
                mode: Mode::Browse,
                ..self
            },
            _ => self,
        }
    }

    pub open spec fn after_cancel_input(self) -> AppView {
        AppView {
            input: Seq::empty(),
            pending_key: None,
            mode: Mode::Browse,
            status: "cancelled"@,
            ..self
        }
    }

    pub open spec fn after_paste(self, pasted: Seq<char>) -> AppView {
        if self.mode.typing() {
            AppView { input: self.input + one_line(pasted), ..self }
        } else {
            self
        }
    }

    pub open spec fn after_backspace(self) -> AppView {
        if self.input.len() > 0 {
            AppView { input: self.input.drop_last(), ..self }
        } else {
            self
        }
    }

    pub open spec fn after_request_quit(self) -> AppView {
        if self.dirty {
            AppView { mode: Mode::ConfirmQuit, ..self }
        } else {
            AppView { should_quit: true, ..self }
        }
    }
}

/// A text without its line feeds and carriage returns.
pub open spec fn one_line(s: Seq<char>) -> Seq<char>
    decreases s.len(),
{
    if s.len() == 0 {
        s
    } else {
        let rest = one_line(s.drop_last());
        if s.last() == '\n' || s.last() == '\r' {
            rest
        } else {
            rest.push(s.last())
        }
    }
}

impl App {
    pub fn new(vault: EnvVault, label: String) -> (r: Self)
        ensures
            r@ == AppView::fresh(vault@, label@),
            r@.wf(),
    {
        proof {
            vault.lemma_len_fits();
        }
        App {
            vault,
            label,
            selected: 0,
            revealed: HashSet::new(),
            dirty: false,
            mode: Mode::Browse,
            // Room to type in: a buffer that has to grow leaves a copy behind.
            input: String::with_capacity(256),
            pending_key: None,
            status: String::new(),
            should_quit: false,
        }
    }

    fn set_status(&mut self, message: String)
        ensures
            final(self)@ == (AppView { status: message@, ..old(self)@ }),
    {
        self.status = message;
    }

    /// Overwrites and empties the input buffer.
    fn clear_input(&mut self)
        ensures
            final(self)@ == (AppView { input: Seq::empty(), ..old(self)@ }),
    {
        secret::wipe_text(&mut self.input);
    }

    /// Whether an entry's value is shown.
    pub fn is_revealed(&self, index: usize) -> (r: bool)
        ensures
            r == self@.revealed.contains(index),
    {
        self.revealed.contains(&index)
    }

    pub fn vault_label(&self) -> (r: &str)
        ensures
            r@ == self@.label,
    {
        self.label.as_str()
    }

    pub fn select_next(&mut self)
        requires
            old(self)@.wf(),
        ensures
            final(self)@ == old(self)@.after_select_next(),
            final(self)@.wf(),
    {
        if self.vault.len() > 1 && self.selected < self.vault.len() - 1 {
            self.selected = self.selected + 1;
        }
    }

    pub fn select_prev(&mut self)
        requires
            old(self)@.wf(),
        ensures
            final(self)@ == old(self)@.after_select_prev(),
            final(self)@.wf(),
    {
        if self.selected > 0 {
            self.selected = self.selected - 1;
        }
    }

    pub fn begin_add(&mut self)
        requires
            old(self)@.wf(),
        ensures
            final(self)@ == old(self)@.after_begin_add(),
            final(self)@.wf(),
    {
        self.mode = Mode::AddKey;
        self.clear_input();
        self.pending_key = None;
        self.set_status(String::new());
    }

    pub fn begin_edit(&mut self)
        requires
            old(self)@.wf(),
        ensures
            final(self)@ == old(self)@.after_begin_edit(),
            final(self)@.wf(),
    {
        if self.vault.is_empty() {
            self.set_status("nothing to edit — press 'a' to add an entry".to_owned());
            return;
        }
        self.clear_input();
        let entries = self.vault.entries();
        assert(vault::pairs(entries@)[self.selected as int] == entries@[self.selected as int]@);
        self.input.append(entries[self.selected].value.as_str());
        self.mode = Mode::EditValue;
        self.set_status(String::new());
        assert(self@ =~= old(self)@.after_begin_edit());
    }

    pub fn begin_delete(&mut self)
        requires
            old(self)@.wf(),
        ensures
            final(self)@ == old(self)@.after_begin_delete(),
            final(self)@.wf(),
    {
        if !self.vault.is_empty() {
            self.mode = Mode::ConfirmDelete;
        }
    }

    pub fn toggle_reveal(&mut self)
        requires
            old(self)@.wf(),
        ensures
            final(self)@ == old(self)@.after_toggle_reveal(),
            final(self)@.wf(),
    {
        if self.vault.is_empty() {
            return;
        }
        let selected = self.selected;
        if !self.revealed.remove(&selected) {
            self.revealed.insert(selected);
        }
        assert(self@ =~= old(self)@.after_toggle_reveal());
    }

    pub fn confirm_delete(&mut self)
        requires
            old(self)@.wf(),
            old(self)@.entries.len() > 0,
        ensures
            final(self)@ == old(self)@.after_delete(),
            final(self)@.wf(),
    {
        let mut message = String::new();
        message.append("deleted ");
        let entries = self.vault.entries();
        assert(vault::pairs(entries@)[self.selected as int] == entries@[self.selected as int]@);
        message.append(entries[self.selected].key.as_str());
        let selected = self.selected;
        self.vault.remove_at(selected);
        self.revealed.clear();
        if self.vault.is_empty() {
            self.selected = 0;
        } else if self.selected >= self.vault.len() {
            self.selected = self.vault.len() - 1;
        }
        self.dirty = true;
        self.mode = Mode::Browse;
        self.set_status(message);
        assert(self@ =~= old(self)@.after_delete());
    }

    /// Sets `key` and selects it.
    fn store(&mut self, key: &str, value: &str)
        requires
            old(self)@.wf(),
        ensures
            final(self)@ == old(self)@.after_set(key@, value@),
            final(self)@.wf(),
    {
        let index = self.vault.set(key, value);
        proof {
            self.vault.lemma_len_fits();
        }
        self.selected = index;
        self.dirty = true;
        let mut message = String::new();
        message.append("added ");
        message.append(key);
        self.set_status(message);
        self.clear_input();
        self.mode = Mode::Browse;
        assert(self@ =~= old(self)@.after_set(key@, value@));
    }

    fn reject_key(&mut self, e: vault::KeyError, key: Ghost<Seq<char>>)
        requires
            old(self)@.wf(),
            e == vault::key_error(key@),
        ensures
            final(self)@ == old(self)@.after_bad_key(key@),
            final(self)@.wf(),
    {
        let mut message = String::new();
        message.append("invalid key: ");
        message.append(e.message());
        self.set_status(message);
        assert(self@ =~= old(self)@.after_bad_key(key@));
    }

    /// Takes the typed key, or the whole `KEY=VALUE`.
    fn submit_key(&mut self)
        requires
            old(self)@.wf(),
        ensures
            final(self)@ == old(self)@.after_key_typed(),
            final(self)@.wf(),
    {
        proof {
            text::lemma_first_index(self.input@, '=');
        }
        if let Some((key, value)) = vault::split_assignment(self.input.as_str()) {
            let value = secret::SecretText::new(value);
            match vault::validate_key(key.as_str()) {
                Err(e) => self.reject_key(e, Ghost(key@)),
                Ok(_) => self.store(key.as_str(), value.as_str()),
            }
            return;
        }
        assert(text::first_index(self.input@, '=') == self.input@.len()) by {
            let n = text::first_index(self.input@, '=');
            if n < self.input@.len() {
                assert(self.input@[n] == '=');
            }
        }
        let chars = SecretChars::of(self.input.as_str());
        let key = text::string_of(text::trim(chars.as_slice()));
        match vault::validate_key(key.as_str()) {
            Err(e) => {
                self.reject_key(e, Ghost(key@));
            },
            Ok(_) => {
                if self.vault.contains(key.as_str()) {
                    let mut message = String::new();
                    message.append("'");
                    message.append(key.as_str());
                    message.append("' already exists — editing its value");
                    assert(message@ =~= "'"@ + key@ + "' already exists — editing its value"@);
                    self.set_status(message);
                }
                self.pending_key = Some(key);
                self.clear_input();
                self.mode = Mode::AddValue;
                assert(self@ =~= old(self)@.after_key_typed());
            },
        }
    }

    /// Takes what was typed, by what it was typed for.
    pub fn submit_input(&mut self)
        requires
            old(self)@.wf(),
        ensures
            final(self)@ == old(self)@.after_submit(),
            final(self)@.wf(),
    {
        match self.mode {
            Mode::AddKey => self.submit_key(),
            Mode::AddValue => {
                if let Some(key) = self.pending_key.take() {
                    let value = secret::SecretText::new(self.input.clone());
                    self.mode = Mode::Browse;
                    self.store(key.as_str(), value.as_str());
                } else {
                    self.clear_input();
                    self.mode = Mode::Browse;
                }
                assert(self@ =~= old(self)@.after_submit());
            },
            Mode::EditValue => {
                let selected = self.selected;
                let value = secret::SecretText::new(self.input.clone());
                self.vault.set_value_at(selected, value.as_str());
                self.dirty = true;
                self.set_status("value updated".to_owned());
                self.clear_input();
                self.mode = Mode::Browse;
                assert(self@ =~= old(self)@.after_submit());
            },
            _ => {},
        }
    }

    pub fn cancel_input(&mut self)
        requires
            old(self)@.wf(),
        ensures
            final(self)@ == old(self)@.after_cancel_input(),
            final(self)@.wf(),
    {
        self.clear_input();
        self.pending_key = None;
        self.mode = Mode::Browse;
        self.set_status("cancelled".to_owned());
    }

    pub fn push_char(&mut self, c: char)
        requires
            old(self)@.wf(),
        ensures
            final(self)@ == (AppView { input: old(self)@.input.push(c), ..old(self)@ }),
            final(self)@.wf(),
    {
        self.input.push(c);
    }

    /// Puts pasted text, without its line breaks, into the input. Returns whether
    /// there was an input to put it in.
    pub fn paste(&mut self, pasted: &str) -> (r: bool)
        requires
            old(self)@.wf(),
        ensures
            r == old(self)@.mode.typing(),
            final(self)@ == old(self)@.after_paste(pasted@),
            final(self)@.wf(),
    {
        let typing = match self.mode {
            Mode::AddKey | Mode::AddValue | Mode::EditValue => true,
            _ => false,
        };
        if !typing {
            return false;
        }
        let chars = SecretChars::of(pasted);
        let s = chars.as_slice();
        let mut i: usize = 0;
        assert(s@.take(0) == Seq::<char>::empty());
        assert(old(self)@.input + one_line(s@.take(0)) =~= old(self)@.input);
        assert(self@ =~= AppView {
            input: old(self)@.input + one_line(s@.take(0)),
            ..old(self)@
        });
        while i < s.len()
            invariant
                i <= s@.len(),
                self@ == (AppView {
                    input: old(self)@.input + one_line(s@.take(i as int)),
                    ..old(self)@
                }),
            decreases s.len() - i,
        {
            let c = s[i];
            assert(s@.take(i + 1).drop_last() == s@.take(i as int));
            assert(s@.take(i + 1).last() == c);
            if c != '\n' && c != '\r' {
                let ghost before = self@.input;
                self.input.push(c);
                assert(self@.input =~= old(self)@.input + one_line(s@.take(i + 1)));
            }
            i += 1;
        }
        assert(s@.take(s@.len() as int) == s@);
        true
    }

    pub fn backspace(&mut self)
        requires
            old(self)@.wf(),
        ensures
            final(self)@ == old(self)@.after_backspace(),
            final(self)@.wf(),
    {
        self.input.pop();
    }

    /// Everything is saved.
    pub fn mark_saved(&mut self)
        requires
            old(self)@.wf(),
        ensures
            final(self)@ == (AppView { dirty: false, status: "saved"@, ..old(self)@ }),
            final(self)@.wf(),
    {
        self.dirty = false;
        self.set_status("saved".to_owned());
    }

    /// Quits, or asks first if there are unsaved changes.
    pub fn request_quit(&mut self)
        requires
            old(self)@.wf(),
        ensures
            final(self)@ == old(self)@.after_request_quit(),
            final(self)@.wf(),
    {
        if self.dirty {
            self.mode = Mode::ConfirmQuit;
        } else {
            self.should_quit = true;
        }
    }

    pub fn quit_discarding(&mut self)
        requires
            old(self)@.wf(),
        ensures
            final(self)@ == (AppView { should_quit: true, ..old(self)@ }),
            final(self)@.wf(),
    {
        self.should_quit = true;
    }

    pub fn cancel_quit(&mut self)
        requires
            old(self)@.wf(),
        ensures
            final(self)@ == (AppView { mode: Mode::Browse, ..old(self)@ }),
            final(self)@.wf(),
    {
        self.mode = Mode::Browse;
    }

    /// What a key press does. The caller carries out the action, and reports a
    /// save with [`App::finish_save`].
    pub fn handle_key(&mut self, key: Key) -> (r: Action)
        requires
            old(self)@.wf(),
        ensures
            final(self)@ == old(self)@.after_key(key).0,
            r == old(self)@.after_key(key).1,
            final(self)@.wf(),
    {
        match self.mode {
            Mode::Browse => match key {
                Key::Char('q') | Key::Esc => self.request_quit(),
                Key::Down | Key::Char('j') => self.select_next(),
                Key::Up | Key::Char('k') => self.select_prev(),
                Key::Char('a') => self.begin_add(),
                Key::Char('e') | Key::Enter => self.begin_edit(),
                Key::Char('d') => self.begin_delete(),
                Key::Char('s') => self.toggle_reveal(),
                Key::Char('w') => {
                    return Action::Save;
                },
                _ => {},
            },
            Mode::AddKey | Mode::AddValue | Mode::EditValue => match key {
                Key::Enter => self.submit_input(),
                Key::Esc => self.cancel_input(),
                Key::Backspace => self.backspace(),
                Key::Char(c) => self.push_char(c),
                _ => {},
            },
            Mode::ConfirmDelete => match key {
                Key::Char('y') => self.confirm_delete(),
                Key::Char('n') | Key::Esc => self.cancel_quit(),
                _ => {},
            },
            Mode::ConfirmQuit => match key {
                Key::Char('s') => {
                    return Action::SaveAndQuit;
                },
                Key::Char('d') => self.quit_discarding(),
                Key::Char('c') | Key::Esc => self.cancel_quit(),
                _ => {},
            },
        }
        if self.should_quit {
            Action::Quit
        } else {
            Action::Nothing
        }
    }

    /// Reports how a save went: `error` says what went wrong. A save on the way
    /// out quits if it went well, and otherwise stays so that the error is seen.
    pub fn finish_save(&mut self, error: Option<&str>, quitting: bool) -> (r: Action)
        requires
            old(self)@.wf(),
        ensures
            final(self)@ == old(self)@.after_save(
                match error {
                    Some(e) => Some(e@),
                    None => None,
                },
                quitting,
            ),
            r == (if final(self)@.should_quit {
                Action::Quit
            } else {
                Action::Nothing
            }),
            final(self)@.wf(),
    {
        match error {
            None => {
                self.mark_saved();
                if quitting {
                    self.should_quit = true;
                }
            },
            Some(e) => {
                let mut message = String::new();
                message.append("save failed: ");
                message.append(e);
                self.set_status(message);
                if quitting {
                    if !self.dirty {
                        self.should_quit = true;
                    } else {
                        self.cancel_quit();
                    }
                }
            },
        }
        assert(self@ =~= old(self)@.after_save(
            match error {
                Some(e) => Some(e@),
                None => None,
            },
            quitting,
        ));
        if self.should_quit {
            Action::Quit
        } else {
            Action::Nothing
        }
    }

    /// Says what became of the clipboard after a paste.
    pub fn note_paste(&mut self, clipboard: &Clipboard)
        requires
            old(self)@.wf(),
        ensures
            final(self)@ == (AppView { status: clipboard.note(), ..old(self)@ }),
            final(self)@.wf(),
    {
        let mut message = String::new();
        match clipboard {
            Clipboard::Cleared => message.append("pasted — clipboard cleared"),
            Clipboard::Stuck(e) => {
                message.append("pasted — could not clear clipboard: ");
                message.append(e.as_str());
            },
            Clipboard::Unavailable => message.append("pasted — clipboard unavailable to clear"),
        }
        assert(message@ =~= clipboard.note());
        self.set_status(message);
    }
}

/// A key of the keyboard, as far as the editor knows it.
#[derive(Clone, Copy, Debug, PartialEq, Eq, Structural)]
pub enum Key {
    Char(char),
    Enter,
    Esc,
    Backspace,
    Up,
    Down,
    Other,
}

/// What is to be done after a key press.
#[derive(Clone, Copy, Debug, PartialEq, Eq, Structural)]
pub enum Action {
    Nothing,
    /// Encrypt and write the vault.
    Save,
    /// Encrypt and write the vault, on the way out.
    SaveAndQuit,
    /// Leave.
    Quit,
}

/// What became of the clipboard after a paste.
pub enum Clipboard {
    Cleared,
    Stuck(String),
    Unavailable,
}

impl Clipboard {
    pub open spec fn note(&self) -> Seq<char> {
        match self {
            Clipboard::Cleared => "pasted — clipboard cleared"@,
            Clipboard::Stuck(e) => "pasted — could not clear clipboard: "@ + e@,
            Clipboard::Unavailable => "pasted — clipboard unavailable to clear"@,
        }
    }
}

impl AppView {
    /// What a key does while browsing.
    pub open spec fn browse_key(self, key: Key) -> AppView {
        match key {
            Key::Char('q') | Key::Esc => self.after_request_quit(),
            Key::Down | Key::Char('j') => self.after_select_next(),
            Key::Up | Key::Char('k') => self.after_select_prev(),
            Key::Char('a') => self.after_begin_add(),
            Key::Char('e') | Key::Enter => self.after_begin_edit(),
            Key::Char('d') => self.after_begin_delete(),
            Key::Char('s') => self.after_toggle_reveal(),
            _ => self,
        }
    }

    /// What a key does while typing.
    pub open spec fn typing_key(self, key: Key) -> AppView {
        match key {
            Key::Enter => self.after_submit(),
            Key::Esc => self.after_cancel_input(),
            Key::Backspace => self.after_backspace(),
            Key::Char(c) => AppView { input: self.input.push(c), ..self },
            _ => self,
        }
    }

    /// What a key does while a question is asked.
    pub open spec fn question_key(self, key: Key) -> AppView {
        if self.mode == Mode::ConfirmDelete {
            match key {
                Key::Char('y') => self.after_delete(),
                Key::Char('n') | Key::Esc => AppView { mode: Mode::Browse, ..self },
                _ => self,
            }
        } else {
            match key {
                Key::Char('d') => AppView { should_quit: true, ..self },
                Key::Char('c') | Key::Esc => AppView { mode: Mode::Browse, ..self },
                _ => self,
            }
        }
    }

    /// The editor after a key press, and what is to be done.
    pub open spec fn after_key(self, key: Key) -> (AppView, Action) {
        let next = if self.mode == Mode::Browse {
            self.browse_key(key)
        } else if self.mode.typing() {
            self.typing_key(key)
        } else {
            self.question_key(key)
        };
        let action = if self.mode == Mode::Browse && key == Key::Char('w') {
            Action::Save
        } else if self.mode == Mode::ConfirmQuit && key == Key::Char('s') {
            Action::SaveAndQuit
        } else if next.should_quit {
            Action::Quit
        } else {
            Action::Nothing
        };
        (next, action)
    }

    /// The editor after a save that went well, or failed with an error.
    pub open spec fn after_save(self, error: Option<Seq<char>>, quitting: bool) -> AppView {
        let noted = match error {
            None => AppView { dirty: false, status: "saved"@, ..self },
            Some(e) => AppView { status: "save failed: "@ + e, ..self },
        };
        if !quitting {
            noted
        } else if !noted.dirty {
            AppView { should_quit: true, ..noted }
        } else {
            AppView { mode: Mode::Browse, ..noted }
        }
    }
}

/// A change to the entries always marks them as unsaved, and an editor with
/// unsaved changes quits on no key but the explicit discard.
pub proof fn law_changes_are_not_lost(app: AppView, key: Key)
    requires
        app.wf(),
        !app.should_quit,
    ensures
        ({
            let next = app.after_key(key).0;
            &&& next.entries != app.entries ==> next.dirty
            &&& app.dirty ==> next.dirty
            &&& next.should_quit && app.dirty ==> app.mode == Mode::ConfirmQuit && key == Key::Char(
                'd',
            )
        }),
{
}

proof fn lemma_one_line(s: Seq<char>)
    ensures
        !one_line(s).contains('\n'),
        !one_line(s).contains('\r'),
    decreases s.len(),
{
    if s.len() > 0 {
        lemma_one_line(s.drop_last());
    }
}

/// Pasting brings no line end into the input: it stays one line.
pub proof fn law_paste_stays_on_one_line(app: AppView, pasted: Seq<char>)
    requires
        !app.input.contains('\n'),
        !app.input.contains('\r'),
    ensures
        !app.after_paste(pasted).input.contains('\n'),
        !app.after_paste(pasted).input.contains('\r'),
{
    lemma_one_line(pasted);
    let line = one_line(pasted);
    let all = app.input + line;
    assert forall|i: int| 0 <= i < all.len() implies all[i] != '\n' && all[i] != '\r' by {
        if i < app.input.len() {
            assert(all[i] == app.input[i]);
        } else {
            assert(all[i] == line[i - app.input.len()]);
        }
    }
}

/// A save that fails on the way out keeps the editor open with its changes.
pub proof fn law_failed_save_stays(app: AppView, error: Seq<char>)
    requires
        app.wf(),
        app.dirty,
        !app.should_quit,
    ensures
        ({
            let next = app.after_save(Some(error), true);
            &&& next.dirty
            &&& !next.should_quit
            &&& next.entries == app.entries
        }),
{
}

impl Drop for App {
    /// Overwrites what the editor still holds of secrets; the entries see to
    /// themselves.
    fn drop(&mut self)
        opens_invariants none
        no_unwind
    {
        secret::wipe_text(&mut self.input);
        secret::wipe_text(&mut self.status);
        if let Some(key) = &mut self.pending_key {
            secret::wipe_text(key);
        }
    }
}

/// An editor starts with the entries as they are: all hidden, nothing changed, the
/// first one selected.
pub proof fn law_editor_starts_clean(entries: Seq<(Seq<char>, Seq<char>)>, label: Seq<char>)
    requires
        entries.len() <= usize::MAX,
    ensures
        ({
            let app = AppView::fresh(entries, label);
            &&& app.wf()
            &&& app.entries == entries && app.label == label && app.selected == 0
            &&& forall|i: usize| !#[trigger] app.revealed.contains(i)
            &&& !app.dirty && !app.should_quit && app.mode == Mode::Browse
            &&& app.input.len() == 0 && app.pending_key is None && app.status.len() == 0
        }),
{
}

/// The arrows, and `j` and `k`, move the selection by one within the entries and touch
/// nothing else; where there is room, one undoes the other.
pub proof fn law_selection_moves_by_one(app: AppView)
    requires
        app.wf(),
        app.mode == Mode::Browse,
    ensures
        ({
            let down = app.after_key(Key::Down).0;
            let up = app.after_key(Key::Up).0;
            &&& down == app.after_key(Key::Char('j')).0
            &&& up == app.after_key(Key::Char('k')).0
            &&& down == (AppView { selected: down.selected, ..app })
            &&& up == (AppView { selected: up.selected, ..app })
            &&& app.selected + 1 < app.entries.len() ==> down.selected == app.selected + 1
                && down.after_key(Key::Up).0 == app
            &&& app.selected + 1 >= app.entries.len() ==> down == app
            &&& app.selected > 0 ==> up.selected == app.selected - 1 && up.after_key(Key::Down).0
                == app
            &&& app.selected == 0 ==> up == app
        }),
{
}

/// Editing starts from the selected value; without an entry there is nothing to edit.
pub proof fn law_editing_starts_from_the_value(app: AppView)
    requires
        app.wf(),
        app.mode == Mode::Browse,
    ensures
        ({
            let next = app.after_key(Key::Char('e')).0;
            &&& next == app.after_key(Key::Enter).0
            &&& next.entries == app.entries && next.selected == app.selected && next.dirty
                == app.dirty && next.revealed == app.revealed && next.should_quit == app.should_quit
            &&& app.entries.len() > 0 ==> next.mode == Mode::EditValue && next.input
                == app.entries[app.selected as int].1
            &&& app.entries.len() == 0 ==> next.mode == Mode::Browse && next.input == app.input
        }),
{
}

/// Submitting an edited value changes that value and no other entry.
pub proof fn law_editing_changes_one_value(app: AppView)
    requires
        app.wf(),
        app.mode == Mode::EditValue,
    ensures
        ({
            let next = app.after_key(Key::Enter).0;
            let n = app.selected as int;
            &&& next.entries.len() == app.entries.len()
            &&& next.entries[n] == (app.entries[n].0, app.input)
            &&& forall|i: int|
                0 <= i < app.entries.len() && i != n ==> #[trigger] next.entries[i]
                    == app.entries[i]
            &&& next.dirty && next.mode == Mode::Browse && next.input.len() == 0
            &&& next.selected == app.selected && next.revealed == app.revealed && next.should_quit
                == app.should_quit
        }),
{
}

/// Deleting takes a yes: it takes out the selected entry and no other, keeps their
/// order, hides all values and selects what came to stand there. A no, `Esc` and any
/// other key leave the entries as they are.
pub proof fn law_deleting_takes_out_the_selected(app: AppView, key: Key)
    requires
        app.wf(),
        app.mode == Mode::ConfirmDelete,
    ensures
        ({
            let next = app.after_key(Key::Char('y')).0;
            let n = app.selected as int;
            &&& next.entries.len() == app.entries.len() - 1
            &&& forall|i: int|
                0 <= i < next.entries.len() ==> #[trigger] next.entries[i] == (if i < n {
                    app.entries[i]
                } else {
                    app.entries[i + 1]
                })
            &&& forall|i: usize| !#[trigger] next.revealed.contains(i)
            &&& next.dirty && next.mode == Mode::Browse
            &&& next.selected == app.selected || n == app.entries.len() - 1 && (next.selected == n
                - 1 || n == 0 && next.selected == 0)
            &&& n < app.entries.len() - 1 ==> next.selected == n
            &&& next.wf()
            &&& key != Key::Char('y') ==> app.after_key(key).0 == (AppView {
                mode: app.after_key(key).0.mode,
                ..app
            })
            &&& app.after_key(key).0.mode == Mode::Browse <==> key == Key::Char('y') || key
                == Key::Char('n') || key == Key::Esc
        }),
{
}

/// A key is asked about before it is deleted, if there is any.
pub proof fn law_deleting_asks_first(app: AppView)
    requires
        app.wf(),
        app.mode == Mode::Browse,
    ensures
        ({
            let next = app.after_key(Key::Char('d')).0;
            &&& next == (AppView { mode: next.mode, ..app })
            &&& next.mode == (if app.entries.len() > 0 {
                Mode::ConfirmDelete
            } else {
                Mode::Browse
            })
        }),
{
}

/// Showing a value concerns the selected one only, and doing it twice undoes it.
pub proof fn law_showing_twice_hides(app: AppView, i: usize)
    requires
        app.wf(),
        app.mode == Mode::Browse,
    ensures
        ({
            let once = app.after_key(Key::Char('s')).0;
            let twice = once.after_key(Key::Char('s')).0;
            &&& twice == app
            &&& once == (AppView { revealed: once.revealed, ..app })
            &&& i != app.selected ==> (once.revealed.contains(i) <==> app.revealed.contains(i))
            &&& app.entries.len() > 0 ==> (once.revealed.contains(app.selected)
                <==> !app.revealed.contains(app.selected))
        }),
{
    let once = app.after_key(Key::Char('s')).0;
    let twice = once.after_key(Key::Char('s')).0;
    assert(twice.revealed =~= app.revealed);
}

/// Adding starts with an empty input and changes nothing yet.
pub proof fn law_adding_starts_empty(app: AppView)
    requires
        app.wf(),
        app.mode == Mode::Browse,
    ensures
        ({
            let next = app.after_key(Key::Char('a')).0;
            &&& next.mode == Mode::AddKey && next.input.len() == 0 && next.pending_key is None
            &&& next.entries == app.entries && next.selected == app.selected && next.dirty
                == app.dirty && next.revealed == app.revealed && next.should_quit == app.should_quit
        }),
{
}

/// A typed key without `=` is taken without the white space around it: a valid one
/// asks for its value, any other is refused; the entries stay.
pub proof fn law_typed_key_asks_for_its_value(app: AppView)
    requires
        app.wf(),
        app.mode == Mode::AddKey,
        !app.input.contains('='),
    ensures
        ({
            let key = text::trimmed(app.input);
            let next = app.after_key(Key::Enter).0;
            &&& next.entries == app.entries && next.dirty == app.dirty && next.selected
                == app.selected && next.revealed == app.revealed && next.should_quit
                == app.should_quit
            &&& vault::valid_key(key) ==> next.mode == Mode::AddValue && next.pending_key == Some(
                key,
            ) && next.input.len() == 0
            &&& !vault::valid_key(key) ==> next.mode == Mode::AddKey && next.input == app.input
                && next.pending_key == app.pending_key
        }),
{
    text::lemma_first_index(app.input, '=');
    let n = text::first_index(app.input, '=');
    if n < app.input.len() {
        assert(app.input[n] == '=');
    }
}

/// A valid key gets the value: the first entry of that key has it afterwards, or a new
/// last one where there was none; it is selected, and no other entry changes.
pub proof fn law_added_value_is_there(app: AppView, key: Seq<char>, value: Seq<char>)
    requires
        app.wf(),
        app.entries.len() < usize::MAX,
    ensures
        ({
            let next = app.after_set(key, value);
            let n = next.selected as int;
            &&& next.dirty && next.mode == Mode::Browse && next.input.len() == 0
            &&& next.revealed == app.revealed && next.should_quit == app.should_quit
            &&& 0 <= n < next.entries.len()
            &&& next.entries[n] == (key, value)
            &&& forall|i: int| 0 <= i < n ==> (#[trigger] app.entries[i]).0 != key
            &&& forall|i: int|
                0 <= i < app.entries.len() && i != n ==> #[trigger] next.entries[i]
                    == app.entries[i]
            &&& n < app.entries.len() ==> app.entries[n].0 == key && next.entries.len()
                == app.entries.len()
            &&& n >= app.entries.len() ==> next.entries.len() == app.entries.len() + 1
        }),
{
    let ks = vault::keys(app.entries);
    text::lemma_first_index(ks, key);
    let n = text::first_index(ks, key);
    if n < ks.len() {
        assert(ks[n] == key);
    }
    assert forall|i: int| 0 <= i < n implies (#[trigger] app.entries[i]).0 != key by {
        assert(ks[i] == app.entries[i].0);
    }
}

/// A whole assignment is taken at once, its sides without the white space around them
/// and the value without its quotes; with a key that is not valid it is refused.
pub proof fn law_typed_assignment_is_taken(app: AppView, left: Seq<char>, right: Seq<char>)
    requires
        app.wf(),
        app.mode == Mode::AddKey,
        !left.contains('='),
        app.input == left + seq!['='] + right,
    ensures
        ({
            let key = text::trimmed(left);
            let value = vault::unquoted(text::trimmed(right));
            let next = app.after_key(Key::Enter).0;
            &&& vault::valid_key(key) ==> next == app.after_set(key, value)
            &&& !vault::valid_key(key) ==> next == (AppView { status: next.status, ..app })
        }),
{
    text::law_first_place(left, '=', right);
    let n = left.len() as int;
    text::lemma_first_index_unique(app.input, '=', n);
    assert(app.input.take(n) =~= left);
    assert(app.input.skip(n + 1) =~= right);
}

/// The value that is typed for a pending key is given to it as it is.
pub proof fn law_typed_value_is_taken(app: AppView, key: Seq<char>)
    requires
        app.wf(),
        app.mode == Mode::AddValue,
        app.pending_key == Some(key),
    ensures
        app.after_key(Key::Enter).0 == (AppView {
            pending_key: None,
            ..app.after_set(key, app.input)
        }),
{
}

/// What is typed goes to the end of the input, one character a key; backspace takes the
/// last one away, `Esc` gives all of it up, and the entries stay.
pub proof fn law_typing_fills_the_input(app: AppView, c: char)
    requires
        app.wf(),
        app.mode.typing(),
    ensures
        ({
            let typed = app.after_key(Key::Char(c)).0;
            let back = app.after_key(Key::Backspace).0;
            let off = app.after_key(Key::Esc).0;
            &&& typed.input == app.input + seq![c]
            &&& typed == (AppView { input: typed.input, ..app })
            &&& typed.after_key(Key::Backspace).0 == app
            &&& app.input.len() == 0 ==> back == app
            &&& off.mode == Mode::Browse && off.input.len() == 0 && off.pending_key is None
            &&& off.entries == app.entries && off.dirty == app.dirty && off.selected == app.selected
                && off.revealed == app.revealed && off.should_quit == app.should_quit
            &&& app.after_key(Key::Up).0 == app && app.after_key(Key::Down).0 == app
                && app.after_key(Key::Other).0 == app
        }),
{
    let typed = app.after_key(Key::Char(c)).0;
    assert(typed.input =~= app.input + seq![c]);
    assert(typed.input.drop_last() =~= app.input);
}

/// Quitting takes a second thought only where something is unsaved: then it is asked
/// whether to save, to discard or to go on.
pub proof fn law_quitting_asks_where_unsaved(app: AppView)
    requires
        app.wf(),
        app.mode == Mode::Browse,
        !app.should_quit,
    ensures
        ({
            let next = app.after_key(Key::Char('q'));
            &&& next == app.after_key(Key::Esc)
            &&& !app.dirty ==> next == ((AppView { should_quit: true, ..app }), Action::Quit)
            &&& app.dirty ==> next == ((AppView { mode: Mode::ConfirmQuit, ..app }), Action::Nothing)
        }),
{
}

/// The answers to that question: `s` saves and quits, `d` quits, `c` and `Esc` go on,
/// and nothing else is an answer.
pub proof fn law_quitting_is_answered(app: AppView, key: Key)
    requires
        app.wf(),
        app.mode == Mode::ConfirmQuit,
        !app.should_quit,
    ensures
        app.after_key(key) == (if key == Key::Char('s') {
            (app, Action::SaveAndQuit)
        } else if key == Key::Char('d') {
            ((AppView { should_quit: true, ..app }), Action::Quit)
        } else if key == Key::Char('c') || key == Key::Esc {
            ((AppView { mode: Mode::Browse, ..app }), Action::Nothing)
        } else {
            (app, Action::Nothing)
        }),
{
}

/// While browsing, `w` saves, and a key without a meaning does nothing.
pub proof fn law_other_keys_do_nothing(app: AppView, key: Key)
    requires
        app.wf(),
        app.mode == Mode::Browse,
        !app.should_quit,
    ensures
        app.after_key(Key::Char('w')) == (app, Action::Save),
        key == Key::Backspace || key == Key::Other || (key matches Key::Char(c) && c != 'q' && c
            != 'j' && c != 'k' && c != 'a' && c != 'e' && c != 'd' && c != 's' && c != 'w')
            ==> app.after_key(key) == (app, Action::Nothing),
        app.after_key(key).1 == Action::Save <==> key == Key::Char('w'),
{
}

/// A save that went well leaves nothing unsaved and quits if it was on the way out; one
/// that failed keeps what is unsaved. Neither touches the entries.
pub proof fn law_saving_settles_changes(app: AppView, error: Seq<char>, quitting: bool)
    requires
        app.wf(),
        !app.should_quit,
    ensures
        ({
            let good = app.after_save(None, quitting);
            let bad = app.after_save(Some(error), quitting);
            &&& !good.dirty && good.should_quit == quitting && good.mode == app.mode
            &&& bad.dirty == app.dirty && (bad.should_quit <==> quitting && !app.dirty)
            &&& bad.mode == (if quitting && app.dirty {
                Mode::Browse
            } else {
                app.mode
            })
            &&& good == (AppView {
                dirty: good.dirty,
                status: good.status,
                should_quit: good.should_quit,
                ..app
            })
            &&& bad == (AppView {
                mode: bad.mode,
                status: bad.status,
                should_quit: bad.should_quit,
                ..app
            })
        }),
{
}

/// What is pasted into an input is what was copied without its line ends, in order,
/// behind what is there; where nothing is being typed nothing happens.
pub proof fn law_pasting_keeps_the_rest(app: AppView, a: Seq<char>, c: char, b: Seq<char>)
    requires
        app.wf(),
    ensures
        one_line(a + b) == one_line(a) + one_line(b),
        one_line(seq![c]) == (if c as int == 0xa || c as int == 0xd {
            Seq::<char>::empty()
        } else {
            seq![c]
        }),
        app.mode.typing() ==> app.after_paste(a) == (AppView {
            input: app.input + one_line(a),
            ..app
        }),
        !app.mode.typing() ==> app.after_paste(a) == app,
        app.mode.typing() <==> app.mode == Mode::AddKey || app.mode == Mode::AddValue || app.mode
            == Mode::EditValue,
    decreases b.len(),
{
    let none = Seq::<char>::empty();
    assert(seq![c].drop_last() =~= none);
    assert(one_line(none) =~= none);
    assert(one_line(seq![c]) =~= (if c as int == 0xa || c as int == 0xd {
        none
    } else {
        seq![c]
    }));
    if b.len() == 0 {
        assert(a + b =~= a);
        assert(one_line(a) + one_line(b) =~= one_line(a));
    } else {
        law_pasting_keeps_the_rest(app, a, c, b.drop_last());
        assert((a + b).drop_last() =~= a + b.drop_last());
        assert(one_line(a + b) =~= one_line(a) + one_line(b));
    }
}

/// The status line tells what was done, and to which key.
pub proof fn law_status_tells_what_was_done(
    app: AppView,
    key: Seq<char>,
    value: Seq<char>,
    error: Seq<char>,
    quitting: bool,
)
    requires
        app.wf(),
    ensures
        app.after_set(key, value).status == "added "@ + key,
        app.after_save(None, quitting).status == "saved"@,
        app.after_save(Some(error), quitting).status == "save failed: "@ + error,
        app.mode == Mode::EditValue ==> app.after_key(Key::Enter).0.status == "value updated"@,
        app.mode == Mode::ConfirmDelete ==> app.after_key(Key::Char('y')).0.status == "deleted "@
            + app.entries[app.selected as int].0,
        app.mode.typing() ==> app.after_key(Key::Esc).0.status == "cancelled"@,
        app.mode == Mode::Browse && app.entries.len() == 0 ==> app.after_key(
            Key::Char('e'),
        ).0.status == "nothing to edit — press 'a' to add an entry"@,
        app.mode == Mode::AddKey && !app.input.contains('=') ==> {
            let typed = text::trimmed(app.input);
            let next = app.after_key(Key::Enter).0;
            &&& !vault::valid_key(typed) ==> next.status == "invalid key: "@ + vault::key_error(
                typed,
            ).text()
            &&& vault::valid_key(typed) && vault::keys(app.entries).contains(typed) ==> next.status
                == "'"@ + typed + "' already exists — editing its value"@
            &&& vault::valid_key(typed) && !vault::keys(app.entries).contains(typed)
                ==> next.status == app.status
        },
{
    text::lemma_first_index(app.input, '=');
    let n = text::first_index(app.input, '=');
    if n < app.input.len() {
        assert(app.input[n] == '=');
    }
}

/// After a paste the status line tells whether the clipboard was cleared, and why not.
pub proof fn law_paste_tells_of_the_clipboard(clipboard: Clipboard)
    ensures
        clipboard is Cleared ==> clipboard.note() == "pasted — clipboard cleared"@,
        clipboard is Unavailable ==> clipboard.note() == "pasted — clipboard unavailable to clear"@,
        clipboard matches Clipboard::Stuck(e) ==> clipboard.note()
            == "pasted — could not clear clipboard: "@ + e@,
{
}

} // verus!
