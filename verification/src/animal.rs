//! Animals ("living taxis") and the heart of the emotional grammar: how an
//! animal answers a character's attunement.
use vstd::prelude::*;

use crate::character::Taxis;

verus! {

/// An animal's own nature. "The animal's own nature determines the result."
///
/// Only [`Nature::Natural`] animals answer the girls normally. Every other
/// nature is a *diagnostic signal*: an animal that does not respond naturally
/// is telling you something.
#[derive(Debug, Clone, Copy, PartialEq, Eq, Structural)]
pub enum Nature {
    Natural,
    Possessed,
    Corrupted,
    False,
    Enchanted,
    /// Afraid beyond normal fear.
    AfraidBeyond,
    /// Masking another presence.
    Masking,
    /// Connected to the Rift.
    RiftTouched,
}

impl Nature {
    /// Whether this animal answers the girls the way an untroubled creature would.
    pub fn is_natural(self) -> (b: bool)
        ensures
            b == (self == Nature::Natural),
    {
        matches!(self, Nature::Natural)
    }
}

/// A creature in the world.
#[derive(Debug, Clone, PartialEq, Eq)]
pub struct Animal {
    pub id: String,
    pub species: String,
    pub nature: Nature,
    /// Where the animal lives, if the spec pins it to a place.
    pub location: Option<String>,
}

/// How an animal answers a character reaching out to it.
#[derive(Debug, Clone, Copy, PartialEq, Eq, Structural)]
pub enum Response {
    /// A natural animal whose taxis was raised — quickened, emboldened.
    Stirred,
    /// A natural animal whose taxis was lowered — calmed, settled.
    Settled,
    /// The reaching character has no attunement, so nothing of the gift
    /// touches the animal.
    Unmoved,
    /// The animal did not answer naturally. Carries the nature that broke the
    /// expectation, so the game can act on *why*.
    Unnatural(Nature),
    /// The Rift has awakened; the animal no longer answers normally at all,
    /// whoever reaches out.
    Disrupted,
}

/// The base emotional grammar: the answer of an animal of nature `nature` to
/// an attunement, given whether the Rift is active.
///
/// The Rift overrides everything; then a non-natural nature betrays itself;
/// then a natural animal answers the attunement (raised → stirred, lowered →
/// settled, none → unmoved).
pub open spec fn answer(nature: Nature, attunement: Option<Taxis>, rift_active: bool) -> Response {
    if rift_active {
        Response::Disrupted
    } else if nature != Nature::Natural {
        Response::Unnatural(nature)
    } else {
        match attunement {
            Some(Taxis::Raise) => Response::Stirred,
            Some(Taxis::Lower) => Response::Settled,
            None => Response::Unmoved,
        }
    }
}

impl Animal {
    /// Resolve how this animal answers a character's `attunement`, given
    /// whether the Rift is active. Ordering is deliberate: the Rift first,
    /// then the animal's nature, then the attunement.
    pub fn respond(&self, attunement: Option<Taxis>, rift_active: bool) -> (r: Response)
        ensures
            r == answer(self.nature, attunement, rift_active),
    {
        if rift_active {
            return Response::Disrupted;
        }
        if !self.nature.is_natural() {
            return Response::Unnatural(self.nature);
        }
        match attunement {
            Some(Taxis::Raise) => Response::Stirred,
            Some(Taxis::Lower) => Response::Settled,
            None => Response::Unmoved,
        }
    }
}

/// Once the Rift has woken, every animal answers every reach with
/// [`Response::Disrupted`], whatever its nature and whoever reaches.
pub proof fn lemma_rift_interrupts_every_answer(nature: Nature, attunement: Option<Taxis>)
    ensures
        answer(nature, attunement, true) == Response::Disrupted,
{
}

/// Before the Rift, a non-natural animal never answers naturally — whatever
/// the attunement, the answer names its nature.
pub proof fn lemma_unnatural_betrays_itself(nature: Nature, attunement: Option<Taxis>)
    requires
        nature != Nature::Natural,
    ensures
        answer(nature, attunement, false) == Response::Unnatural(nature),
{
}

/// Before the Rift, a natural animal is stirred by a raising gift, settled by
/// a lowering one, and unmoved by an actor without the gift.
pub proof fn lemma_nature_answers_the_gift()
    ensures
        answer(Nature::Natural, Some(Taxis::Raise), false) == Response::Stirred,
        answer(Nature::Natural, Some(Taxis::Lower), false) == Response::Settled,
        answer(Nature::Natural, None, false) == Response::Unmoved,
{
}

} // verus!
