use envvault::tui::app::{Action, App, Clipboard, Key, Mode};
use envvault::tui::{footer_text, mask, overlay, shown_value, title_text, Overlay};
use envvault::vault::EnvVault;

fn app(text: &str) -> App {
    App::new(EnvVault::parse(text), "work.vault".to_string())
}

fn type_in(app: &mut App, text: &str) {
    for c in text.chars() {
        assert_eq!(app.handle_key(Key::Char(c)), Action::Nothing);
    }
}

#[test]
fn an_editor_starts_clean() {
    let app = app("A=1\n");
    assert_eq!(app.mode, Mode::Browse);
    assert_eq!(app.selected, 0);
    assert_eq!(app.vault_label(), "work.vault");
    assert!(!app.dirty && !app.should_quit && app.input.is_empty() && app.status.is_empty());
}

#[test]
fn the_selection_stays_inside() {
    let mut app = app("A=1\nB=2\n");
    app.handle_key(Key::Char('k'));
    assert_eq!(app.selected, 0);
    app.handle_key(Key::Down);
    app.handle_key(Key::Char('j'));
    assert_eq!(app.selected, 1);
    app.handle_key(Key::Up);
    assert_eq!(app.selected, 0);
}

#[test]
fn adding_in_two_steps() {
    let mut app = app("");
    app.handle_key(Key::Char('a'));
    assert_eq!(app.mode, Mode::AddKey);
    type_in(&mut app, " TOKEN ");
    app.handle_key(Key::Enter);
    assert_eq!(app.mode, Mode::AddValue);
    type_in(&mut app, "s3crex");
    app.handle_key(Key::Backspace);
    type_in(&mut app, "t");
    app.handle_key(Key::Enter);
    assert_eq!(app.mode, Mode::Browse);
    assert_eq!(app.status, "added TOKEN");
    assert!(app.dirty);
    assert_eq!(app.vault.entries()[0].key, "TOKEN");
    assert_eq!(app.vault.entries()[0].value, "s3cret");
    assert!(app.input.is_empty());
}

#[test]
fn adding_in_one_line() {
    let mut app = app("A=1\n");
    app.begin_add();
    assert!(app.paste("B=\"two\r\n words\""));
    app.submit_input();
    assert_eq!(app.mode, Mode::Browse);
    assert_eq!(app.selected, 1);
    assert_eq!(app.vault.entries()[1].value, "two words");
}

#[test]
fn bad_keys_are_refused_in_place() {
    let mut app = app("A=1\n");
    app.begin_add();
    type_in(&mut app, "1x");
    app.submit_input();
    assert_eq!(app.mode, Mode::AddKey);
    assert_eq!(
        app.status,
        "invalid key: key must start with a letter or underscore"
    );
    assert_eq!(app.input, "1x");
    app.handle_key(Key::Esc);
    assert_eq!(app.mode, Mode::Browse);
    assert_eq!(app.status, "cancelled");
    app.begin_add();
    type_in(&mut app, "=v");
    app.submit_input();
    assert_eq!(app.status, "invalid key: key cannot be empty");
    assert!(!app.dirty);
}

#[test]
fn an_existing_key_is_edited() {
    let mut app = app("A=1\nB=2\n");
    app.begin_add();
    type_in(&mut app, "A");
    app.submit_input();
    assert_eq!(app.status, "'A' already exists — editing its value");
    type_in(&mut app, "9");
    app.submit_input();
    assert_eq!(app.vault.len(), 2);
    assert_eq!(app.vault.entries()[0].value, "9");
    assert_eq!(app.selected, 0);
}

#[test]
fn editing_starts_from_the_value() {
    let mut app = app("A=1\n");
    app.handle_key(Key::Enter);
    assert_eq!(app.mode, Mode::EditValue);
    assert_eq!(app.input, "1");
    type_in(&mut app, "2");
    app.handle_key(Key::Enter);
    assert_eq!(app.vault.entries()[0].value, "12");
    assert_eq!(app.status, "value updated");
    assert!(app.dirty);
}

#[test]
fn nothing_can_be_edited_in_an_empty_vault() {
    let mut app = app("");
    app.handle_key(Key::Char('e'));
    assert_eq!(app.mode, Mode::Browse);
    assert_eq!(app.status, "nothing to edit — press 'a' to add an entry");
    app.handle_key(Key::Char('d'));
    assert_eq!(app.mode, Mode::Browse);
    app.handle_key(Key::Char('s'));
    assert!(!app.is_revealed(0));
}

#[test]
fn deleting_asks_first() {
    let mut app = app("A=1\nB=2\n");
    app.select_next();
    app.toggle_reveal();
    assert!(app.is_revealed(1));
    app.handle_key(Key::Char('d'));
    assert_eq!(app.mode, Mode::ConfirmDelete);
    app.handle_key(Key::Char('n'));
    assert_eq!(app.vault.len(), 2);
    app.handle_key(Key::Char('d'));
    app.handle_key(Key::Char('y'));
    assert_eq!(app.vault.len(), 1);
    assert_eq!(app.selected, 0);
    assert_eq!(app.status, "deleted B");
    assert!(!app.is_revealed(1));
    assert!(app.dirty);
}

#[test]
fn revealing_toggles() {
    let mut app = app("A=1\n");
    app.handle_key(Key::Char('s'));
    assert!(app.is_revealed(0));
    app.handle_key(Key::Char('s'));
    assert!(!app.is_revealed(0));
}

#[test]
fn unsaved_changes_are_asked_about() {
    let mut app = app("A=1\n");
    app.begin_delete();
    app.confirm_delete();
    assert_eq!(app.handle_key(Key::Char('q')), Action::Nothing);
    assert_eq!(app.mode, Mode::ConfirmQuit);
    assert_eq!(app.handle_key(Key::Char('c')), Action::Nothing);
    assert_eq!(app.mode, Mode::Browse);
    app.handle_key(Key::Esc);
    assert_eq!(app.handle_key(Key::Char('s')), Action::SaveAndQuit);
    assert_eq!(app.finish_save(Some("disk full"), true), Action::Nothing);
    assert_eq!(app.status, "save failed: disk full");
    assert_eq!(app.mode, Mode::Browse);
    assert!(app.dirty && !app.should_quit);
    assert_eq!(app.handle_key(Key::Char('w')), Action::Save);
    assert_eq!(app.finish_save(None, false), Action::Nothing);
    assert_eq!(app.status, "saved");
    assert_eq!(app.handle_key(Key::Char('q')), Action::Quit);
    assert!(app.should_quit);
}

#[test]
fn discarding_and_saving_leave() {
    let mut app1 = app("A=1\n");
    app1.begin_delete();
    app1.confirm_delete();
    app1.request_quit();
    assert_eq!(app1.handle_key(Key::Char('d')), Action::Quit);
    let mut app2 = app("A=1\n");
    app2.begin_delete();
    app2.confirm_delete();
    app2.request_quit();
    assert_eq!(app2.handle_key(Key::Char('s')), Action::SaveAndQuit);
    assert_eq!(app2.finish_save(None, true), Action::Quit);
}

#[test]
fn pasting_goes_into_input_fields_only() {
    let mut app = app("A=1\n");
    assert!(!app.paste("x"));
    app.begin_edit();
    assert!(app.paste("\r\n23\n"));
    assert_eq!(app.input, "123");
    app.note_paste(&Clipboard::Cleared);
    assert_eq!(app.status, "pasted — clipboard cleared");
    app.note_paste(&Clipboard::Stuck("busy".to_string()));
    assert_eq!(app.status, "pasted — could not clear clipboard: busy");
    app.note_paste(&Clipboard::Unavailable);
    assert_eq!(app.status, "pasted — clipboard unavailable to clear");
}

#[test]
fn values_are_masked() {
    assert_eq!(mask(""), "(empty)");
    assert_eq!(mask("é!"), "••");
    assert_eq!(mask(&"x".repeat(100)), "•".repeat(24));
    assert_eq!(mask("one of 24 characters....").chars().count(), 24);
    assert_eq!(shown_value("plain", true), "plain");
    assert_eq!(shown_value("plain", false), "•••••");
    assert_eq!(mask("abcde"), mask("fghij"));
}

#[test]
fn the_frame_says_what_is_going_on() {
    let keys = "↑/↓ move  a add  e edit  d delete  s show/hide  w save  q quit";
    assert_eq!(title_text("w.vault", false), " envvault — w.vault ");
    assert_eq!(title_text("w.vault", true), " envvault — w.vault * ");
    assert_eq!(footer_text(""), keys);
    assert_eq!(footer_text("saved"), format!("saved   |   {keys}"));
}

#[test]
fn each_mode_has_its_overlay() {
    assert!(matches!(overlay(Mode::Browse, ""), Overlay::Nothing));
    assert!(matches!(
        overlay(Mode::AddKey, ""),
        Overlay::Input("New entry — key name, or KEY=VALUE")
    ));
    assert!(matches!(overlay(Mode::AddValue, ""), Overlay::Input("Value")));
    assert!(matches!(overlay(Mode::EditValue, ""), Overlay::Input("Edit value")));
    match overlay(Mode::ConfirmDelete, "KEY") {
        Overlay::Confirm(text) => assert_eq!(text, "Delete 'KEY'?  [y]es / [n]o"),
        _ => panic!("a deletion is confirmed"),
    }
    match overlay(Mode::ConfirmQuit, "KEY") {
        Overlay::Confirm(text) => assert_eq!(
            text,
            "Unsaved changes — [s]ave & quit / [d]iscard / [c]ancel"
        ),
        _ => panic!("leaving is confirmed"),
    }
}
