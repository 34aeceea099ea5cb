//! The live world: which girl is active, what the Rift has done, and the
//! handful of state transitions that make up Zone A.
use vstd::prelude::*;

use crate::animal::{answer, Response};
use crate::character::{Character, Taxis};
use crate::error::CrossError;
use crate::spec::{character_ids, first_match, no_match, Spec};

verus! {

/// The mutable state of a play session over a [`Spec`].
///
/// Everything the renderer wants to *show* it reads back off these fields;
/// everything it wants to *do* goes through these methods, so the rules can
/// never be bypassed.
#[derive(Debug, Clone)]
pub struct World {
    spec: Spec,
    active_id: String,
    /// Whether the Rift has awakened (the Fracture beat).
    pub rift_active: bool,
    /// Whether the bridge has been steadied by a settling character.
    pub bridge_stable: bool,
    /// Whether a character has crossed the steadied bridge.
    pub crossed: bool,
}

impl World {
    /// The spec this world plays.
    pub closed spec fn spec_of(&self) -> Spec {
        self.spec
    }

    /// The id of the character the player controls.
    pub closed spec fn active_id_of(&self) -> Seq<char> {
        self.active_id@
    }

    /// Whether the Rift has awakened.
    pub closed spec fn rift_of(&self) -> bool {
        self.rift_active
    }

    /// Whether the bridge has been steadied.
    pub closed spec fn stable_of(&self) -> bool {
        self.bridge_stable
    }

    /// Whether someone has crossed.
    pub closed spec fn crossed_of(&self) -> bool {
        self.crossed
    }

    /// The active id names a character of the spec.
    pub open spec fn has_active(&self) -> bool {
        !no_match(character_ids(self.spec_of().characters@), self.active_id_of())
    }

    /// The character the player controls, as a lookup of the active id finds it.
    pub open spec fn active_spec(&self) -> Character {
        self.spec_of().character_spec(self.active_id_of()).unwrap()
    }

    /// How the animal `animal_id` answers the active character now, if there
    /// is such an animal.
    pub open spec fn approach_spec(&self, animal_id: Seq<char>) -> Option<Response> {
        match self.spec_of().animal_spec(animal_id) {
            Some(a) => Some(answer(a.nature, self.active_spec().attunement, self.rift_of())),
            None => None,
        }
    }

    /// Begin a session. The first character in the spec starts active; the
    /// Rift sleeps, the bridge is unsteadied and nobody has crossed.
    pub fn new(spec: Spec) -> (w: World)
        ensures
            w.spec_of() == spec,
            spec.characters.len() > 0 ==> w.active_id_of() == spec.characters@[0].id@,
            spec.characters.len() == 0 ==> w.active_id_of() == Seq::<char>::empty(),
            w.has_active() <==> spec.characters.len() > 0,
            !w.rift_of(),
            !w.stable_of(),
            !w.crossed_of(),
    {
        let active_id = if spec.characters.len() > 0 {
            spec.characters[0].id.clone()
        } else {
            String::new()
        };
        let w = World { spec, active_id, rift_active: false, bridge_stable: false, crossed: false };
        proof {
            let ids = character_ids(w.spec.characters@);
            if w.spec.characters.len() > 0 {
                assert(ids[0] == w.active_id@);
            }
        }
        w
    }

    /// The spec this world is playing.
    pub fn spec(&self) -> (s: &Spec)
        ensures
            *s == self.spec_of(),
    {
        &self.spec
    }

    /// The character the player currently controls.
    pub fn active(&self) -> (c: &Character)
        requires
            self.has_active(),
        ensures
            *c == self.active_spec(),
    {
        match self.spec.character(self.active_id.as_str()) {
            Some(c) => c,
            None => {
                assert(false);
                &self.spec.characters[0]
            },
        }
    }

    /// Switch control to another character. Returns `false` (and changes
    /// nothing) if no such character exists.
    pub fn switch_to(&mut self, id: &str) -> (ok: bool)
        ensures
            ok <==> !no_match(character_ids(old(self).spec_of().characters@), id@),
            final(self).spec_of() == old(self).spec_of(),
            final(self).active_id_of() == (if ok { id@ } else { old(self).active_id_of() }),
            final(self).rift_of() == old(self).rift_of(),
            final(self).stable_of() == old(self).stable_of(),
            final(self).crossed_of() == old(self).crossed_of(),
            old(self).has_active() ==> final(self).has_active(),
            ok ==> final(self).has_active(),
    {
        if self.spec.character(id).is_some() {
            self.active_id = String::from_str(id);
            true
        } else {
            false
        }
    }

    /// The active character reaches out to an animal. `None` if there is no
    /// such animal; otherwise the animal's [`Response`] under the current
    /// world state (notably whether the Rift is active).
    pub fn approach(&self, animal_id: &str) -> (r: Option<Response>)
        requires
            self.spec_of().animal_spec(animal_id@) is Some ==> self.has_active(),
        ensures
            r == self.approach_spec(animal_id@),
    {
        match self.spec.animal(animal_id) {
            Some(animal) => Some(animal.respond(self.active().attunement, self.rift_active)),
            None => None,
        }
    }

    /// Steady the bridge. Only a *settling* character can — this is Donna's
    /// act. Returns `false` (and changes nothing) otherwise.
    pub fn stabilize_bridge(&mut self) -> (ok: bool)
        requires
            old(self).has_active(),
        ensures
            ok == (old(self).active_spec().attunement == Some(Taxis::Lower)),
            final(self).stable_of() == (old(self).stable_of() || ok),
            final(self).spec_of() == old(self).spec_of(),
            final(self).active_id_of() == old(self).active_id_of(),
            final(self).rift_of() == old(self).rift_of(),
            final(self).crossed_of() == old(self).crossed_of(),
    {
        let settles = match self.active().attunement {
            Some(Taxis::Lower) => true,
            _ => false,
        };
        if settles {
            self.bridge_stable = true;
            true
        } else {
            false
        }
    }

    /// Cross the bridge. Crossing is not itself a gift: anyone crosses what a
    /// settling character has already steadied — "Donna steadies what Anya
    /// crosses."
    pub fn cross(&mut self) -> (r: Result<(), CrossError>)
        ensures
            old(self).stable_of() ==> r is Ok && final(self).crossed_of(),
            !old(self).stable_of() ==> r == Err::<(), CrossError>(CrossError::BridgeUnstable)
                && final(self).crossed_of() == old(self).crossed_of(),
            final(self).spec_of() == old(self).spec_of(),
            final(self).active_id_of() == old(self).active_id_of(),
            final(self).rift_of() == old(self).rift_of(),
            final(self).stable_of() == old(self).stable_of(),
    {
        if !self.bridge_stable {
            return Err(CrossError::BridgeUnstable);
        }
        self.crossed = true;
        Ok(())
    }

    /// The Fracture: the Rift awakens. From here, animals stop answering
    /// normally.
    pub fn awaken_rift(&mut self)
        ensures
            final(self).rift_of(),
            final(self).spec_of() == old(self).spec_of(),
            final(self).active_id_of() == old(self).active_id_of(),
            final(self).stable_of() == old(self).stable_of(),
            final(self).crossed_of() == old(self).crossed_of(),
    {
        self.rift_active = true;
    }

    /// Whether the active id names a character of the spec, so that
    /// [`World::active`] can be asked.
    pub fn has_active_character(&self) -> (r: bool)
        ensures
            r == self.has_active(),
    {
        self.spec.character(self.active_id.as_str()).is_some()
    }

    /// Whether the Rift has awakened.
    pub fn rift_is_active(&self) -> (r: bool)
        ensures
            r == self.rift_of(),
    {
        self.rift_active
    }
}

/// The Rift interrupts the answer: once it has woken, every animal there is
/// answers every character with [`Response::Disrupted`].
pub proof fn lemma_rift_interrupts_the_answer(w: World, animal_id: Seq<char>)
    requires
        w.rift_of(),
    ensures
        w.approach_spec(animal_id) is None || w.approach_spec(animal_id) == Some(Response::Disrupted),
{
}

/// Nature answers the gift: before the Rift, a natural animal is stirred by
/// an active character who raises taxis and settled by one who lowers it.
pub proof fn lemma_nature_answers_them(w: World, animal_id: Seq<char>)
    requires
        !w.rift_of(),
        w.spec_of().animal_spec(animal_id) matches Some(a) && a.nature == crate::animal::Nature::Natural,
    ensures
        w.active_spec().attunement == Some(Taxis::Raise) ==> w.approach_spec(animal_id) == Some(Response::Stirred),
        w.active_spec().attunement == Some(Taxis::Lower) ==> w.approach_spec(animal_id) == Some(Response::Settled),
        w.active_spec().attunement is None ==> w.approach_spec(animal_id) == Some(Response::Unmoved),
{
}

/// What one world operation does to the active character: a `switch_to(id)`
/// (`Some(id)`) makes `id` active if the spec has such a character and
/// otherwise changes nothing; every other operation (`None`: `approach`,
/// `stabilize_bridge`, `cross`, `awaken_rift`) leaves it. No operation
/// changes the spec. Each operation's `ensures` states this step.
pub open spec fn world_step(w: World, w2: World, switch: Option<Seq<char>>) -> bool {
    &&& w2.spec_of() == w.spec_of()
    &&& match switch {
        Some(id) => w2.active_id_of() == (if !no_match(character_ids(w.spec_of().characters@), id) {
            id
        } else {
            w.active_id_of()
        }),
        None => w2.active_id_of() == w.active_id_of(),
    }
}

/// The active id after the operations `ops`, starting from `start`: the id
/// of the last `switch_to` that found its character, or `start` if none did.
pub open spec fn active_after(ids: Seq<Seq<char>>, start: Seq<char>, ops: Seq<Option<Seq<char>>>) -> Seq<char>
    decreases ops.len(),
{
    if ops.len() == 0 {
        start
    } else {
        match ops.last() {
            Some(id) => if !no_match(ids, id) {
                id
            } else {
                active_after(ids, start, ops.drop_last())
            },
            None => active_after(ids, start, ops.drop_last()),
        }
    }
}

/// After any sequence of world operations the active character stays
/// defined, the spec is unchanged, and the active id is that of the last
/// successful `switch_to` (the starting one if there was none).
pub proof fn lemma_active_tracks_last_switch(ws: Seq<World>, ops: Seq<Option<Seq<char>>>)
    requires
        ws.len() == ops.len() + 1,
        ws[0].has_active(),
        forall|i: int| 0 <= i < ops.len() ==> world_step(#[trigger] ws[i], ws[i + 1], ops[i]),
    ensures
        forall|i: int|
            0 <= i < ws.len() ==> {
                &&& (#[trigger] ws[i]).has_active()
                &&& ws[i].spec_of() == ws[0].spec_of()
                &&& ws[i].active_id_of() == active_after(
                    character_ids(ws[0].spec_of().characters@),
                    ws[0].active_id_of(),
                    ops.take(i),
                )
            },
    decreases ops.len(),
{
    if ops.len() > 0 {
        let n = ops.len() - 1;
        lemma_active_tracks_last_switch(ws.drop_last(), ops.drop_last());
        assert forall|i: int| 0 <= i < ws.len() implies {
            &&& (#[trigger] ws[i]).has_active()
            &&& ws[i].spec_of() == ws[0].spec_of()
            &&& ws[i].active_id_of() == active_after(
                character_ids(ws[0].spec_of().characters@),
                ws[0].active_id_of(),
                ops.take(i),
            )
        } by {
            if i < ws.len() - 1 {
                assert(ws.drop_last()[i] == ws[i]);
                assert(ops.drop_last().take(i) =~= ops.take(i));
            } else {
                assert(ws.drop_last()[n] == ws[n]);
                assert(ops.drop_last().take(n) =~= ops.take(n));
                assert(world_step(ws[n], ws[n + 1], ops[n]));
                assert(ops.take(i).drop_last() =~= ops.take(n));
                assert(ops.take(i).last() == ops[n]);
                let ids = character_ids(ws[0].spec_of().characters@);
                match ops[n] {
                    Some(id) => {
                        if !no_match(ids, id) {
                            assert(ws[i].has_active());
                        }
                    },
                    None => {},
                }
            }
        }
    }
}

} // verus!
