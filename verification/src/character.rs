//! Characters and the signature gift that belongs to Anya and Donna alone.
use vstd::prelude::*;

verus! {

/// The direction an attuned character bends **taxis** — the rate and
/// direction of a living thing's responsive motion.
///
/// Anya *raises* it (quickens, emboldens, dispels panic); Donna *lowers* it
/// (calms, settles). Both act *with* an animal's nature: this is attunement,
/// not domination.
#[derive(Debug, Clone, Copy, PartialEq, Eq, Structural)]
pub enum Taxis {
    /// Quicken, embolden, give confidence. (Anya.)
    Raise,
    /// Calm, settle, steady, reassure. (Donna.)
    Lower,
}

/// A character in the world.
///
/// `attunement` is a **signature gift of Anya and Donna only**; everyone else
/// has `None`.
#[derive(Debug, Clone, PartialEq, Eq)]
pub struct Character {
    pub id: String,
    pub name: String,
    pub attunement: Option<Taxis>,
}

} // verus!
