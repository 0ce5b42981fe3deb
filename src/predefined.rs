//! Menu items whose action the platform defines.
use vstd::prelude::*;
use crate::accelerator::{Accelerator, Code, Modifiers};

verus! {

/// The kinds of predefined items.
#[derive(Debug, Clone, Copy, PartialEq, Eq, Structural)]
pub enum PredefinedKind {
    Separator,
    Copy,
    Cut,
    Paste,
    SelectAll,
    Undo,
    Redo,
    CloseWindow,
    Quit,
    About,
}

/// The control-key accelerator on the letter at `letter` (`0` is `A`).
pub open spec fn control_letter(letter: u8) -> Accelerator {
    Accelerator {
        modifiers: Modifiers { shift: false, control: true, alt: false, meta: false },
        key: Code::Letter(letter),
    }
}

/// The accelerator that a predefined kind carries.
pub open spec fn default_accelerator_spec(kind: PredefinedKind) -> Option<Accelerator> {
    match kind {
        PredefinedKind::Copy => Some(control_letter(2)),
        PredefinedKind::Cut => Some(control_letter(23)),
        PredefinedKind::Paste => Some(control_letter(21)),
        PredefinedKind::SelectAll => Some(control_letter(0)),
        PredefinedKind::Undo => Some(control_letter(25)),
        PredefinedKind::Redo => Some(
            Accelerator {
                modifiers: Modifiers { shift: true, control: true, alt: false, meta: false },
                key: Code::Letter(25),
            },
        ),
        PredefinedKind::CloseWindow => Some(control_letter(22)),
        PredefinedKind::Quit => Some(control_letter(16)),
        _ => None,
    }
}

/// The text an item of `kind` shows when none is given.
pub open spec fn default_text_spec(kind: PredefinedKind) -> Seq<char> {
    match kind {
        PredefinedKind::Separator => seq![],
        PredefinedKind::Copy => seq!['&', 'C', 'o', 'p', 'y'],
        PredefinedKind::Cut => seq!['C', 'u', '&', 't'],
        PredefinedKind::Paste => seq!['&', 'P', 'a', 's', 't', 'e'],
        PredefinedKind::SelectAll => seq!['S', 'e', 'l', 'e', 'c', 't', ' ', '&', 'A', 'l', 'l'],
        PredefinedKind::Undo => seq!['&', 'U', 'n', 'd', 'o'],
        PredefinedKind::Redo => seq!['&', 'R', 'e', 'd', 'o'],
        PredefinedKind::CloseWindow => seq!['C', '&', 'l', 'o', 's', 'e', ' ', 'W', 'i', 'n', 'd', 'o', 'w'],
        PredefinedKind::Quit => seq!['&', 'Q', 'u', 'i', 't'],
        PredefinedKind::About => seq!['&', 'A', 'b', 'o', 'u', 't'],
    }
}

impl PredefinedKind {
    /// The text the item shows when none is given.
    pub fn default_text(&self) -> (r: &'static str)
        ensures
            r@ == default_text_spec(*self),
    {
        proof {
            reveal_strlit("");
            reveal_strlit("&Copy");
            reveal_strlit("Cu&t");
            reveal_strlit("&Paste");
            reveal_strlit("Select &All");
            reveal_strlit("&Undo");
            reveal_strlit("&Redo");
            reveal_strlit("C&lose Window");
            reveal_strlit("&Quit");
            reveal_strlit("&About");
        }
        match self {
            PredefinedKind::Separator => "",
            PredefinedKind::Copy => "&Copy",
            PredefinedKind::Cut => "Cu&t",
            PredefinedKind::Paste => "&Paste",
            PredefinedKind::SelectAll => "Select &All",
            PredefinedKind::Undo => "&Undo",
            PredefinedKind::Redo => "&Redo",
            PredefinedKind::CloseWindow => "C&lose Window",
            PredefinedKind::Quit => "&Quit",
            PredefinedKind::About => "&About",
        }
    }

    /// The accelerator the item carries.
    pub fn default_accelerator(&self) -> (r: Option<Accelerator>)
        ensures
            r == default_accelerator_spec(*self),
    {
        let control = Modifiers { shift: false, control: true, alt: false, meta: false };
        match self {
            PredefinedKind::Copy => Some(Accelerator { modifiers: control, key: Code::Letter(2) }),
            PredefinedKind::Cut => Some(Accelerator { modifiers: control, key: Code::Letter(23) }),
            PredefinedKind::Paste => Some(Accelerator { modifiers: control, key: Code::Letter(21) }),
            PredefinedKind::SelectAll => Some(
                Accelerator { modifiers: control, key: Code::Letter(0) },
            ),
            PredefinedKind::Undo => Some(Accelerator { modifiers: control, key: Code::Letter(25) }),
            PredefinedKind::Redo => Some(
                Accelerator {
                    modifiers: Modifiers { shift: true, control: true, alt: false, meta: false },
                    key: Code::Letter(25),
                },
            ),
            PredefinedKind::CloseWindow => Some(
                Accelerator { modifiers: control, key: Code::Letter(22) },
            ),
            PredefinedKind::Quit => Some(Accelerator { modifiers: control, key: Code::Letter(16) }),
            _ => None,
        }
    }

    /// The key sequence that the clipboard items synthesise when activated,
    /// in the notation of the key-synthesis tool; empty for the other kinds.
    pub fn xdo_keys(&self) -> &'static str {
        match self {
            PredefinedKind::Copy => "ctrl+c",
            PredefinedKind::Cut => "ctrl+X",
            PredefinedKind::Paste => "ctrl+v",
            PredefinedKind::SelectAll => "ctrl+a",
            _ => "",
        }
    }
}

} // verus!
