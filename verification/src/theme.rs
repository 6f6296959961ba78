//! Colour palette derived from the ilseon / myeon palette.
//!
//! Palette:
//!   MutedTeal   #5A9B80 — accent / focus
//!   QuietAmber  #C08A3E — medium priority / secondary accent
//!   MutedRed    #B35F5F — errors / urgency
//!   DarkGrey    #121212 — OLED-friendly deep background
//!
//! Colours are opaque sRGB values packed as `0xRRGGBB`.
use vstd::prelude::*;

verus! {

pub open spec fn red_of(c: u32) -> int {
    c as int / 0x10000 % 0x100
}

pub open spec fn green_of(c: u32) -> int {
    c as int / 0x100 % 0x100
}

pub open spec fn blue_of(c: u32) -> int {
    c as int % 0x100
}

/// The colour with the given channels, packed as `0xRRGGBB`.
pub fn rgb(r: u8, g: u8, b: u8) -> (c: u32)
    ensures
        c < 0x100_0000,
        red_of(c) == r,
        green_of(c) == g,
        blue_of(c) == b,
{
    let c: u32 = (r as u32) * 0x10000 + (g as u32) * 0x100 + (b as u32);
    proof {
        assert(c as int / 0x10000 % 0x100 == r) by (nonlinear_arith)
            requires
                c == r * 0x10000 + g * 0x100 + b,
                r < 0x100,
                g < 0x100,
                b < 0x100,
        ;
        assert(c as int / 0x100 % 0x100 == g) by (nonlinear_arith)
            requires
                c == r * 0x10000 + g * 0x100 + b,
                r < 0x100,
                g < 0x100,
                b < 0x100,
        ;
        assert(c as int % 0x100 == b) by (nonlinear_arith)
            requires
                c == r * 0x10000 + g * 0x100 + b,
                r < 0x100,
                g < 0x100,
                b < 0x100,
        ;
    }
    c
}

/// The red, green and blue channels of a packed colour.
pub trait Channels {
    spec fn spec_red(&self) -> int;

    spec fn spec_green(&self) -> int;

    spec fn spec_blue(&self) -> int;

    fn r(&self) -> (v: u8)
        ensures
            v == self.spec_red(),
    ;

    fn g(&self) -> (v: u8)
        ensures
            v == self.spec_green(),
    ;

    fn b(&self) -> (v: u8)
        ensures
            v == self.spec_blue(),
    ;
}

impl Channels for u32 {
    open spec fn spec_red(&self) -> int {
        red_of(*self)
    }

    open spec fn spec_green(&self) -> int {
        green_of(*self)
    }

    open spec fn spec_blue(&self) -> int {
        blue_of(*self)
    }

    fn r(&self) -> (v: u8) {
        (*self / 0x10000 % 0x100) as u8
    }

    fn g(&self) -> (v: u8) {
        (*self / 0x100 % 0x100) as u8
    }

    fn b(&self) -> (v: u8) {
        (*self % 0x100) as u8
    }
}

// ── Palette constants ────────────────────────────────────────────────────────

pub const DARK_BG: u32 = 0x121212;
pub const PANEL_BG: u32 = 0x1A1A1A;
pub const SURFACE: u32 = 0x222222;
pub const SURFACE_HOVER: u32 = 0x2C2C2C;

pub const MUTED_TEAL: u32 = 0x5A9B80;
pub const QUIET_AMBER: u32 = 0xC08A3E;
pub const MUTED_RED: u32 = 0xB35F5F;

pub const TEXT_PRIMARY: u32 = 0xE0E0E0;
pub const TEXT_SECONDARY: u32 = 0x909090;
pub const TEXT_MUTED: u32 = 0x606060;

/// Background surfaces grow lighter from the deep background up to the
/// hovered surface: `DARK_BG < PANEL_BG < SURFACE < SURFACE_HOVER`.
pub proof fn lemma_surfaces_ordered()
    ensures
        red_of(DARK_BG) < red_of(PANEL_BG),
        red_of(PANEL_BG) < red_of(SURFACE),
        red_of(SURFACE) < red_of(SURFACE_HOVER),
{
}

/// Text tiers grow lighter: `TEXT_MUTED < TEXT_SECONDARY < TEXT_PRIMARY`,
/// and primary text stands at least 150 brightness units above the background.
pub proof fn lemma_text_tiers_ordered()
    ensures
        red_of(TEXT_MUTED) < red_of(TEXT_SECONDARY),
        red_of(TEXT_SECONDARY) < red_of(TEXT_PRIMARY),
        red_of(TEXT_PRIMARY) - red_of(DARK_BG) >= 150,
{
}

} // verus!
