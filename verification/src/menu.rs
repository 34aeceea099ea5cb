//! The start menu's rules: its eight views and how each is labelled, when a
//! view can be chosen, and the accessibility toggles. Drawing them is the
//! renderer's business.
use vstd::prelude::*;

verus! {

/// The panels the menu can show.
#[derive(Clone, Copy, PartialEq, Eq, Debug, Structural)]
pub enum MenuView {
    Continue,
    NewChronicle,
    Chapters,
    WorldBook,
    Bond,
    Ums,
    Settings,
    Credits,
}

/// Title, subtitle and shortcut letter of each view.
pub open spec fn label_spec(view: MenuView) -> (Seq<char>, Seq<char>, char) {
    match view {
        MenuView::Continue => ("Continue the Chronicle"@, "Return to the unstable bridge"@, 'C'),
        MenuView::NewChronicle => ("Begin a New Chronicle"@, "Start again at the first tear"@, 'N'),
        MenuView::Chapters => ("Chapter Map"@, "Places, memories and unfinished paths"@, 'M'),
        MenuView::WorldBook => ("The World Book"@, "Folklore, remedies and remembered choices"@, 'W'),
        MenuView::Bond => ("Anya & Donna"@, "The bond that lets the world answer"@, 'B'),
        MenuView::Ums => ("Universal Modding Studio"@, "Open this world for authoring"@, 'U'),
        MenuView::Settings => ("Settings & Accessibility"@, "Motion, reading, sound and assistance"@, 'S'),
        MenuView::Credits => ("Credits & Provenance"@, "People, sources and licences"@, 'I'),
    }
}

/// The title, subtitle and keyboard shortcut of a view's menu button.
pub fn label(view: MenuView) -> (r: (&'static str, &'static str, char))
    ensures
        (r.0@, r.1@, r.2) == label_spec(view),
{
    match view {
        MenuView::Continue => ("Continue the Chronicle", "Return to the unstable bridge", 'C'),
        MenuView::NewChronicle => ("Begin a New Chronicle", "Start again at the first tear", 'N'),
        MenuView::Chapters => ("Chapter Map", "Places, memories and unfinished paths", 'M'),
        MenuView::WorldBook => ("The World Book", "Folklore, remedies and remembered choices", 'W'),
        MenuView::Bond => ("Anya & Donna", "The bond that lets the world answer", 'B'),
        MenuView::Ums => ("Universal Modding Studio", "Open this world for authoring", 'U'),
        MenuView::Settings => ("Settings & Accessibility", "Motion, reading, sound and assistance", 'S'),
        MenuView::Credits => ("Credits & Provenance", "People, sources and licences", 'I'),
    }
}

/// Whether a view's button can be chosen: "Continue" needs a saved
/// chronicle; every other view is always open.
pub fn nav_enabled(view: MenuView, has_save: bool) -> (r: bool)
    ensures
        r == (view != MenuView::Continue || has_save),
{
    match view {
        MenuView::Continue => has_save,
        _ => true,
    }
}

/// The accessibility toggles of the Settings panel.
#[derive(Clone, Copy, PartialEq, Eq, Debug, Structural)]
pub enum Setting {
    ReducedMotion,
    HighContrast,
    LargeText,
    Captions,
}

/// The state of the accessibility toggles; all off to begin with.
#[derive(Clone, Copy, PartialEq, Eq, Debug, Default, Structural)]
pub struct UiSettings {
    pub reduced_motion: bool,
    pub high_contrast: bool,
    pub large_text: bool,
    pub captions: bool,
}

/// The toggle `which` in `s`.
pub open spec fn setting_of(s: UiSettings, which: Setting) -> bool {
    match which {
        Setting::ReducedMotion => s.reduced_motion,
        Setting::HighContrast => s.high_contrast,
        Setting::LargeText => s.large_text,
        Setting::Captions => s.captions,
    }
}

/// Whether the toggle `which` is on.
pub fn is_on(s: &UiSettings, which: Setting) -> (r: bool)
    ensures
        r == setting_of(*s, which),
{
    match which {
        Setting::ReducedMotion => s.reduced_motion,
        Setting::HighContrast => s.high_contrast,
        Setting::LargeText => s.large_text,
        Setting::Captions => s.captions,
    }
}

/// Flip the toggle `which`, leaving the others as they were.
pub fn flip(s: &mut UiSettings, which: Setting)
    ensures
        setting_of(*final(s), which) == !setting_of(*old(s), which),
        forall|other: Setting| other != which ==> setting_of(*final(s), other) == setting_of(*old(s), other),
{
    match which {
        Setting::ReducedMotion => s.reduced_motion = !s.reduced_motion,
        Setting::HighContrast => s.high_contrast = !s.high_contrast,
        Setting::LargeText => s.large_text = !s.large_text,
        Setting::Captions => s.captions = !s.captions,
    }
}

/// Each toggle names its own field: Reduced motion is `reduced_motion`, High
/// contrast `high_contrast`, Large text `large_text`, Captions `captions`.
pub proof fn lemma_each_toggle_names_its_field(s: UiSettings)
    ensures
        setting_of(s, Setting::ReducedMotion) == s.reduced_motion,
        setting_of(s, Setting::HighContrast) == s.high_contrast,
        setting_of(s, Setting::LargeText) == s.large_text,
        setting_of(s, Setting::Captions) == s.captions,
{
}

/// Flipping a toggle twice leaves every toggle as it was.
pub proof fn lemma_flip_twice_restores(s: UiSettings, t: UiSettings, u: UiSettings, which: Setting)
    requires
        setting_of(t, which) == !setting_of(s, which),
        forall|other: Setting| other != which ==> setting_of(t, other) == setting_of(s, other),
        setting_of(u, which) == !setting_of(t, which),
        forall|other: Setting| other != which ==> setting_of(u, other) == setting_of(t, other),
    ensures
        u == s,
{
    assert(setting_of(u, Setting::ReducedMotion) == setting_of(s, Setting::ReducedMotion));
    assert(setting_of(u, Setting::HighContrast) == setting_of(s, Setting::HighContrast));
    assert(setting_of(u, Setting::LargeText) == setting_of(s, Setting::LargeText));
    assert(setting_of(u, Setting::Captions) == setting_of(s, Setting::Captions));
}

} // verus!
