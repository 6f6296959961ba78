//! Palette invariants, checked on the packed colour values.

use diamem::theme::{
    rgb, Channels, DARK_BG, MUTED_RED, MUTED_TEAL, PANEL_BG, QUIET_AMBER, SURFACE, SURFACE_HOVER,
    TEXT_MUTED, TEXT_PRIMARY, TEXT_SECONDARY,
};

#[test]
fn palette_dark_bg_matches_spec() {
    assert_eq!(DARK_BG, rgb(0x12, 0x12, 0x12));
}

#[test]
fn palette_muted_teal_matches_spec() {
    assert_eq!(MUTED_TEAL, rgb(0x5A, 0x9B, 0x80));
}

#[test]
fn palette_quiet_amber_matches_spec() {
    assert_eq!(QUIET_AMBER, rgb(0xC0, 0x8A, 0x3E));
}

#[test]
fn palette_muted_red_matches_spec() {
    assert_eq!(MUTED_RED, rgb(0xB3, 0x5F, 0x5F));
}

#[test]
fn surface_tones_are_ordered() {
    // DARK_BG < PANEL_BG < SURFACE < SURFACE_HOVER (by lightness)
    assert!(DARK_BG.r() < PANEL_BG.r());
    assert!(PANEL_BG.r() < SURFACE.r());
    assert!(SURFACE.r() < SURFACE_HOVER.r());
}

#[test]
fn text_tiers_are_ordered() {
    // TEXT_MUTED < TEXT_SECONDARY < TEXT_PRIMARY
    assert!(TEXT_MUTED.r() < TEXT_SECONDARY.r());
    assert!(TEXT_SECONDARY.r() < TEXT_PRIMARY.r());
}

#[test]
fn rgb_packs_channels_in_order() {
    let c = rgb(0x01, 0x02, 0x03);
    assert_eq!(c, 0x010203);
    assert_eq!((c.r(), c.g(), c.b()), (0x01, 0x02, 0x03));
}
