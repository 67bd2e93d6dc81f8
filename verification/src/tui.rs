//! The interactive editor: its state, what keys do to it, and what it shows.
use crate::secret::SecretChars;
use app::Mode;
use vstd::prelude::*;

pub mod app;

verus! {

/// How many dots a hidden value shows at most.
pub const MAX_DOTS: usize = 24;

/// How a hidden value is shown: one dot per character, up to `MAX_DOTS`.
pub open spec fn masked(value: Seq<char>) -> Seq<char> {
    if value.len() == 0 {
        "(empty)"@
    } else {
        Seq::new(
            if value.len() < MAX_DOTS {
                value.len()
            } else {
                MAX_DOTS as nat
            },
            |i: int| '•',
        )
    }
}

/// How a hidden value is shown.
pub fn mask(value: &str) -> (r: String)
    ensures
        r@ == masked(value@),
{
    if value.is_empty() {
        return "(empty)".to_owned();
    }
    let chars = SecretChars::of(value);
    let n = if chars.as_slice().len() < MAX_DOTS {
        chars.as_slice().len()
    } else {
        MAX_DOTS
    };
    let mut r = String::new();
    let mut i: usize = 0;
    while i < n
        invariant
            i <= n,
            r@ == Seq::new(i as nat, |k: int| '•'),
        decreases n - i,
    {
        r.push('•');
        i += 1;
        assert(r@ =~= Seq::new(i as nat, |k: int| '•'));
    }
    assert(r@ =~= masked(value@));
    r
}

/// A hidden value shows nothing but how long it is, and that only up to
/// `MAX_DOTS`.
pub proof fn law_mask_hides(a: Seq<char>, b: Seq<char>)
    requires
        a.len() == b.len() || (a.len() >= MAX_DOTS && b.len() >= MAX_DOTS),
    ensures
        masked(a) == masked(b),
{
    assert(masked(a) =~= masked(b));
}

/// How a value is shown in the list.
pub fn shown_value(value: &str, revealed: bool) -> (r: String)
    ensures
        r@ == (if revealed {
            value@
        } else {
            masked(value@)
        }),
{
    if revealed {
        value.to_owned()
    } else {
        mask(value)
    }
}

/// The title line; a star marks unsaved changes.
pub fn title_text(label: &str, dirty: bool) -> (r: String)
    ensures
        r@ == " envvault — "@ + label@ + (if dirty {
            " * "@
        } else {
            " "@
        }),
{
    let mut r = String::new();
    r.append(" envvault — ");
    r.append(label);
    if dirty {
        r.append(" * ");
    } else {
        r.append(" ");
    }
    assert(r@ =~= " envvault — "@ + label@ + (if dirty {
        " * "@
    } else {
        " "@
    }));
    r
}

/// The keys that browsing knows.
pub open spec fn key_help() -> Seq<char> {
    "↑/↓ move  a add  e edit  d delete  s show/hide  w save  q quit"@
}

/// The footer line: the keys, behind the status if there is one.
pub fn footer_text(status: &str) -> (r: String)
    ensures
        r@ == (if status@.len() == 0 {
            key_help()
        } else {
            status@ + "   |   "@ + key_help()
        }),
{
    let mut r = String::new();
    if !status.is_empty() {
        r.append(status);
        r.append("   |   ");
    }
    r.append("↑/↓ move  a add  e edit  d delete  s show/hide  w save  q quit");
    assert(r@ =~= (if status@.len() == 0 {
        key_help()
    } else {
        status@ + "   |   "@ + key_help()
    }));
    r
}

/// The box that is drawn over the list.
pub enum Overlay {
    Nothing,
    /// A field for typing, with its title.
    Input(&'static str),
    /// A question.
    Confirm(String),
}

/// What an overlay shows.
pub enum OverlayView {
    Nothing,
    Input(Seq<char>),
    Confirm(Seq<char>),
}

impl View for Overlay {
    type V = OverlayView;

    open spec fn view(&self) -> OverlayView {
        match self {
            Overlay::Nothing => OverlayView::Nothing,
            Overlay::Input(t) => OverlayView::Input(t@),
            Overlay::Confirm(q) => OverlayView::Confirm(q@),
        }
    }
}

/// The overlay of a mode, for a selected key.
pub open spec fn overlay_of(mode: Mode, key: Seq<char>) -> OverlayView {
    match mode {
        Mode::Browse => OverlayView::Nothing,
        Mode::AddKey => OverlayView::Input("New entry — key name, or KEY=VALUE"@),
        Mode::AddValue => OverlayView::Input("Value"@),
        Mode::EditValue => OverlayView::Input("Edit value"@),
        Mode::ConfirmDelete => OverlayView::Confirm("Delete '"@ + key + "'?  [y]es / [n]o"@),
        Mode::ConfirmQuit => OverlayView::Confirm(
            "Unsaved changes — [s]ave & quit / [d]iscard / [c]ancel"@,
        ),
    }
}

/// The overlay of a mode, for a selected key.
pub fn overlay(mode: Mode, key: &str) -> (r: Overlay)
    ensures
        r@ == overlay_of(mode, key@),
{
    match mode {
        Mode::Browse => Overlay::Nothing,
        Mode::AddKey => Overlay::Input("New entry — key name, or KEY=VALUE"),
        Mode::AddValue => Overlay::Input("Value"),
        Mode::EditValue => Overlay::Input("Edit value"),
        Mode::ConfirmDelete => {
            let mut q = String::new();
            q.append("Delete '");
            q.append(key);
            q.append("'?  [y]es / [n]o");
            assert(q@ =~= "Delete '"@ + key@ + "'?  [y]es / [n]o"@);
            Overlay::Confirm(q)
        },
        Mode::ConfirmQuit => {
            Overlay::Confirm("Unsaved changes — [s]ave & quit / [d]iscard / [c]ancel".to_owned())
        },
    }
}

/// A hidden value shows a dot for each of its characters, but no more than twenty-four;
/// one that is empty says so.
pub proof fn law_mask_is_dots(value: Seq<char>, i: int)
    ensures
        value.len() == 0 ==> masked(value) == "(empty)"@,
        0 < value.len() <= 24 ==> masked(value).len() == value.len(),
        value.len() > 24 ==> masked(value).len() == 24,
        value.len() > 0 && 0 <= i < masked(value).len() ==> masked(value)[i] == '•',
{
}

/// A field is drawn exactly where something is typed and a question exactly where one is
/// asked; that about deleting names the key.
pub proof fn law_overlay_follows_mode(mode: Mode, key: Seq<char>)
    ensures
        overlay_of(mode, key) is Nothing <==> mode == Mode::Browse,
        overlay_of(mode, key) is Input <==> mode == Mode::AddKey || mode == Mode::AddValue || mode
            == Mode::EditValue,
        overlay_of(mode, key) is Confirm <==> mode == Mode::ConfirmDelete || mode
            == Mode::ConfirmQuit,
        mode == Mode::ConfirmDelete ==> exists|before: Seq<char>, after: Seq<char>|
            overlay_of(mode, key) == OverlayView::Confirm(#[trigger] (before + key + after)),
{
    if mode == Mode::ConfirmDelete {
        let before = "Delete '"@;
        let after = "'?  [y]es / [n]o"@;
        assert(overlay_of(mode, key) == OverlayView::Confirm(before + key + after));
    }
}

} // verus!
