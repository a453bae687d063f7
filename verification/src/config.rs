//! The compiled-in configuration: layouts, rules and default settings.
use vstd::prelude::*;

verus! {

/// The ways of arranging the tiled clients of a monitor.
#[derive(Clone, Copy, PartialEq, Eq, Structural, Debug)]
pub enum LayoutKind {
    Tile,
    Monocle,
    Spiral,
    Dwindle,
    Deck,
    Bstack,
    BstackHoriz,
    Grid,
    NRowGrid,
    HorizGrid,
    GaplessGrid,
    CenteredMaster,
    CenteredFloatingMaster,
    Floating,
}

/// Number of entries in the layout table.
pub const NUM_LAYOUTS: usize = 14;

/// Index of the floating layout (the one that arranges nothing), the last entry.
pub const FLOATING_LAYOUT: usize = 13;

/// The layout at position `i` of the layout table.
pub open spec fn spec_layout_kind(i: usize) -> LayoutKind {
    if i == 0 {
        LayoutKind::Tile
    } else if i == 1 {
        LayoutKind::Monocle
    } else if i == 2 {
        LayoutKind::Spiral
    } else if i == 3 {
        LayoutKind::Dwindle
    } else if i == 4 {
        LayoutKind::Deck
    } else if i == 5 {
        LayoutKind::Bstack
    } else if i == 6 {
        LayoutKind::BstackHoriz
    } else if i == 7 {
        LayoutKind::Grid
    } else if i == 8 {
        LayoutKind::NRowGrid
    } else if i == 9 {
        LayoutKind::HorizGrid
    } else if i == 10 {
        LayoutKind::GaplessGrid
    } else if i == 11 {
        LayoutKind::CenteredMaster
    } else if i == 12 {
        LayoutKind::CenteredFloatingMaster
    } else {
        LayoutKind::Floating
    }
}

/// The layout at position `i` of the layout table.
pub fn layout_kind(i: usize) -> (k: LayoutKind)
    requires
        i < NUM_LAYOUTS,
    ensures
        k == spec_layout_kind(i),
{
    if i == 0 {
        LayoutKind::Tile
    } else if i == 1 {
        LayoutKind::Monocle
    } else if i == 2 {
        LayoutKind::Spiral
    } else if i == 3 {
        LayoutKind::Dwindle
    } else if i == 4 {
        LayoutKind::Deck
    } else if i == 5 {
        LayoutKind::Bstack
    } else if i == 6 {
        LayoutKind::BstackHoriz
    } else if i == 7 {
        LayoutKind::Grid
    } else if i == 8 {
        LayoutKind::NRowGrid
    } else if i == 9 {
        LayoutKind::HorizGrid
    } else if i == 10 {
        LayoutKind::GaplessGrid
    } else if i == 11 {
        LayoutKind::CenteredMaster
    } else if i == 12 {
        LayoutKind::CenteredFloatingMaster
    } else {
        LayoutKind::Floating
    }
}

/// The bar symbol of the layout at position `i` of the layout table, as characters.
pub open spec fn spec_layout_symbol(i: usize) -> Seq<char> {
    if i == 0 {
        seq!['[', ']', '=']
    } else if i == 1 {
        seq!['[', 'M', ']']
    } else if i == 2 {
        seq!['[', '@', ']']
    } else if i == 3 {
        seq!['[', '\\', ']']
    } else if i == 4 {
        seq!['H', '[', ']']
    } else if i == 5 {
        seq!['T', 'T', 'T']
    } else if i == 6 {
        seq!['=', '=', '=']
    } else if i == 7 {
        seq!['H', 'H', 'H']
    } else if i == 8 {
        seq!['#', '#', '#']
    } else if i == 9 {
        seq!['-', '-', '-']
    } else if i == 10 {
        seq![':', ':', ':']
    } else if i == 11 {
        seq!['|', 'M', '|']
    } else if i == 12 {
        seq!['>', 'M', '>']
    } else {
        seq!['>', '<', '>']
    }
}

/// The bar symbol of the layout at position `i` of the layout table.
pub fn layout_symbol(i: usize) -> (r: &'static str)
    requires
        i < NUM_LAYOUTS,
    ensures
        r@ == spec_layout_symbol(i),
{
    if i == 0 {
        proof {
            reveal_strlit("[]=");
        }
        "[]="
    } else if i == 1 {
        proof {
            reveal_strlit("[M]");
        }
        "[M]"
    } else if i == 2 {
        proof {
            reveal_strlit("[@]");
        }
        "[@]"
    } else if i == 3 {
        proof {
            reveal_strlit("[\\]");
        }
        "[\\]"
    } else if i == 4 {
        proof {
            reveal_strlit("H[]");
        }
        "H[]"
    } else if i == 5 {
        proof {
            reveal_strlit("TTT");
        }
        "TTT"
    } else if i == 6 {
        proof {
            reveal_strlit("===");
        }
        "==="
    } else if i == 7 {
        proof {
            reveal_strlit("HHH");
        }
        "HHH"
    } else if i == 8 {
        proof {
            reveal_strlit("###");
        }
        "###"
    } else if i == 9 {
        proof {
            reveal_strlit("---");
        }
        "---"
    } else if i == 10 {
        proof {
            reveal_strlit(":::");
        }
        ":::"
    } else if i == 11 {
        proof {
            reveal_strlit("|M|");
        }
        "|M|"
    } else if i == 12 {
        proof {
            reveal_strlit(">M>");
        }
        ">M>"
    } else {
        proof {
            reveal_strlit("><>");
        }
        "><>"
    }
}

/// Whether the layout at position `i` arranges clients (all but the floating one do).
pub open spec fn arranges(i: usize) -> bool {
    i != FLOATING_LAYOUT
}

/// Default border width of windows, in pixels.
pub const BORDER_PX_DEFAULT: u32 = 3;
/// Default snap distance, in pixels.
pub const SNAP_DEFAULT: u32 = 32;
/// Whether a bar is shown by default.
pub const SHOW_BAR_DEFAULT: bool = true;
/// Whether the bar is at the top by default.
pub const TOP_BAR_DEFAULT: bool = true;
/// Default gaps between windows and at the screen edges.
pub const GAPP_IH_DEFAULT: u32 = 20;
pub const GAPP_IV_DEFAULT: u32 = 20;
pub const GAPP_OH_DEFAULT: u32 = 20;
pub const GAPP_OV_DEFAULT: u32 = 20;
/// Whether the outer gaps vanish when a single client is tiled.
pub const SMART_GAPS_DEFAULT: bool = false;
/// The nrowgrid layout always splits two clients side by side.
pub const FORCE_VSPLIT: bool = true;
/// Default number of clients in the master area.
pub const N_MASTER_DEFAULT: u32 = 1;
/// Whether size hints are respected in tiled layouts by default.
pub const RESIZE_HINTS_DEFAULT: bool = false;
/// Focus stays on a fullscreen window.
pub const LOCK_FULLSCREEN: bool = true;
/// Motion events handled per second while moving or resizing with the mouse.
pub const REFRESH_RATE: u32 = 120;

/// The argument of `focusstack`/`pushstack` that names the previously selected client.
pub const PREV_SEL: i32 = 3000;

} // verus!
