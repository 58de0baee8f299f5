//! Where overlays stand on the screen.

use vstd::prelude::*;

verus! {

/// The overlays that cover the lower part of the screen.
#[derive(Debug, Clone, Copy, PartialEq, Eq, Structural)]
pub enum Panel {
    Todo,
    Ai,
    Spell,
    Filter,
    Help,
}

/// Rows of a panel on a screen of `height` rows: two thirds or a half of it, and
/// no fewer than it needs.
pub open spec fn panel_height(panel: Panel, height: int) -> int {
    let (part, least) = match panel {
        Panel::Todo => (height * 2 / 3, 10int),
        Panel::Ai => (height / 2, 10int),
        Panel::Spell => (height / 2, 12int),
        Panel::Filter => (height * 2 / 3, 12int),
        Panel::Help => (height * 2 / 3, 12int),
    };
    if part > least {
        part
    } else {
        least
    }
}

/// The first row and the number of rows of a panel at the bottom of a screen.
pub fn panel_rows(panel: Panel, height: u16) -> (r: (u16, u16))
    ensures
        r.1 == panel_height(panel, height as int),
        r.0 == if height >= r.1 {
            height - r.1
        } else {
            0
        },
{
    let h: u32 = height as u32;
    let (part, least): (u32, u32) = match panel {
        Panel::Todo => (h * 2 / 3, 10),
        Panel::Ai => (h / 2, 10),
        Panel::Spell => (h / 2, 12),
        Panel::Filter => (h * 2 / 3, 12),
        Panel::Help => (h * 2 / 3, 12),
    };
    let rows: u16 = (if part > least {
        part
    } else {
        least
    }) as u16;
    let top: u16 = if height >= rows {
        height - rows
    } else {
        0
    };
    (top, rows)
}

/// A panel ends with the screen wherever it fits on it.
pub proof fn law_panel_at_the_bottom(panel: Panel, height: int)
    requires
        height >= 12,
    ensures
        0 < panel_height(panel, height) <= height,
{
}

} // verus!
