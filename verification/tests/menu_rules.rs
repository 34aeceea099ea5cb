//! The start menu's labels, gating and accessibility toggles.

use slavia_core::menu::{flip, is_on, label, nav_enabled, MenuView, Setting, UiSettings};

#[test]
fn every_view_has_its_title_subtitle_and_shortcut() {
    assert_eq!(
        label(MenuView::Continue),
        ("Continue the Chronicle", "Return to the unstable bridge", 'C')
    );
    assert_eq!(label(MenuView::Bond), ("Anya & Donna", "The bond that lets the world answer", 'B'));
    assert_eq!(label(MenuView::Credits).2, 'I');
    assert_eq!(label(MenuView::Chapters).0, "Chapter Map");
}

#[test]
fn continuing_needs_a_save_and_nothing_else_does() {
    assert!(!nav_enabled(MenuView::Continue, false));
    assert!(nav_enabled(MenuView::Continue, true));
    assert!(nav_enabled(MenuView::NewChronicle, false));
    assert!(nav_enabled(MenuView::Settings, false));
}

#[test]
fn a_toggle_flips_alone_and_back() {
    let mut s = UiSettings::default();
    assert!(!is_on(&s, Setting::LargeText));
    flip(&mut s, Setting::LargeText);
    assert!(is_on(&s, Setting::LargeText));
    assert!(!is_on(&s, Setting::ReducedMotion));
    assert!(!is_on(&s, Setting::HighContrast));
    assert!(!is_on(&s, Setting::Captions));
    flip(&mut s, Setting::LargeText);
    assert_eq!(s, UiSettings::default());
}
