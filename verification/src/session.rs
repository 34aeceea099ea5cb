//! Zone A's five understanding-beats and the location-gated interactions of
//! a play session: reaching the grove birds, settling the crossing, crossing.
//!
//! A renderer tracks *where* each girl stands; it hands the id of the beat
//! the active girl stands at to these functions, which decide what happens.
use vstd::prelude::*;

use crate::animal::Response;
use crate::character::Taxis;
use crate::error::CrossError;
use crate::spec::{character_ids, no_match};
use crate::text::str_eq;
use crate::world::World;

verus! {

/// The visible mood of the grove birds, from the last time a girl reached them.
#[derive(Debug, Clone, Copy, PartialEq, Eq, Structural)]
pub enum BirdState {
    Neutral,
    Stirred,
    Settled,
    Disrupted,
}

/// The birds' mood after an answer: stirred, settled and disrupted show;
/// anything else leaves them neutral.
pub open spec fn mood(r: Response) -> BirdState {
    match r {
        Response::Stirred => BirdState::Stirred,
        Response::Settled => BirdState::Settled,
        Response::Disrupted => BirdState::Disrupted,
        _ => BirdState::Neutral,
    }
}

impl BirdState {
    /// The birds' mood after answering with `r`.
    pub fn from_response(r: &Response) -> (b: BirdState)
        ensures
            b == mood(*r),
    {
        match r {
            Response::Stirred => BirdState::Stirred,
            Response::Settled => BirdState::Settled,
            Response::Disrupted => BirdState::Disrupted,
            _ => BirdState::Neutral,
        }
    }
}

/// The five things a player should come to understand in Zone A, tracked as
/// they actually happen.
#[derive(Debug, Default, Clone, Copy, PartialEq, Eq, Structural)]
pub struct Beats {
    pub anya_stirred: bool,
    pub donna_settled: bool,
    pub crossed: bool,
    pub rift_disrupted: bool,
}

pub open spec fn one_if(b: bool) -> nat {
    if b { 1 } else { 0 }
}

impl Beats {
    /// No beat has happened yet.
    pub fn none() -> (b: Beats)
        ensures
            !b.anya_stirred && !b.donna_settled && !b.crossed && !b.rift_disrupted,
    {
        Beats { anya_stirred: false, donna_settled: false, crossed: false, rift_disrupted: false }
    }

    /// Nature answered them: both the stirring and the settling happened.
    pub fn nature_answered(&self) -> (r: bool)
        ensures
            r == (self.anya_stirred && self.donna_settled),
    {
        self.anya_stirred && self.donna_settled
    }

    /// All five beats have happened.
    pub fn all(&self) -> (r: bool)
        ensures
            r == (self.anya_stirred && self.donna_settled && self.crossed && self.rift_disrupted),
    {
        self.anya_stirred && self.donna_settled && self.crossed && self.rift_disrupted
    }

    /// How many of the five beats have happened: Anya stirred, Donna settled,
    /// nature answered (both of those), crossed, the Rift disrupted.
    pub fn count(&self) -> (n: usize)
        ensures
            n == one_if(self.anya_stirred) + one_if(self.donna_settled) + one_if(
                self.anya_stirred && self.donna_settled,
            ) + one_if(self.crossed) + one_if(self.rift_disrupted),
    {
        let flags = [
            self.anya_stirred,
            self.donna_settled,
            self.nature_answered(),
            self.crossed,
            self.rift_disrupted,
        ];
        let mut n: usize = 0;
        let mut i: usize = 0;
        while i < 5
            invariant
                i <= 5,
                n <= i,
                flags@ == seq![
                    self.anya_stirred,
                    self.donna_settled,
                    self.anya_stirred && self.donna_settled,
                    self.crossed,
                    self.rift_disrupted,
                ],
                n == count_true(flags@.take(i as int)),
            decreases 5 - i,
        {
            assert(flags@.take(i + 1).drop_last() =~= flags@.take(i as int));
            if flags[i] {
                n = n + 1;
            }
            i = i + 1;
        }
        assert(flags@.take(5) =~= flags@);
        proof {
            reveal_with_fuel(count_true, 6);
        }
        n
    }
}

/// How many of `flags` are set.
pub open spec fn count_true(flags: Seq<bool>) -> nat
    decreases flags.len(),
{
    if flags.len() == 0 {
        0
    } else {
        count_true(flags.drop_last()) + one_if(flags.last())
    }
}

/// All five beats happened exactly when the count reaches five.
pub proof fn lemma_all_beats_count_five(b: Beats)
    ensures
        (b.anya_stirred && b.donna_settled && b.crossed && b.rift_disrupted) == (one_if(b.anya_stirred)
            + one_if(b.donna_settled) + one_if(b.anya_stirred && b.donna_settled) + one_if(b.crossed)
            + one_if(b.rift_disrupted) == 5),
{
}

/// Outcome of trying to settle the crossing.
#[derive(Debug, Clone, Copy, PartialEq, Eq, Structural)]
pub enum Settle {
    /// Donna lowered the crossing's unsteady motion — it is now passable.
    Settled,
    /// The active girl cannot settle (she raises taxis, she does not lower).
    WrongGift,
    /// Not standing at the crossing.
    NotHere,
}

/// Outcome of trying to cross.
#[derive(Debug, Clone, Copy, PartialEq, Eq, Structural)]
pub enum Crossing {
    Crossed,
    /// The crossing has not been made passable yet.
    Unpassable,
    /// Not standing at the crossing.
    NotHere,
}

/// The rules side of a play session: the world, the birds' mood and the
/// beats that have happened. Where the girls stand is the renderer's.
pub struct Progress {
    pub world: World,
    /// Grove-bird mood (view state).
    pub birds: BirdState,
    /// Which of the five success-condition beats have happened.
    pub beats: Beats,
}

impl Progress {
    /// A fresh session over `world`: the birds neutral, no beat happened.
    pub fn new(world: World) -> (p: Progress)
        ensures
            p.world == world,
            p.birds == BirdState::Neutral,
            p.beats == Beats::none_spec(),
    {
        Progress { world, birds: BirdState::Neutral, beats: Beats::none() }
    }

    /// Reach out to the grove birds — only possible while standing at the
    /// grove. `None` means there are no birds here.
    pub fn approach_birds(&mut self, at_beat: &str) -> (r: Option<Response>)
        requires
            at_beat@ == "bird-grove"@ ==> old(self).world.has_active() && old(self).world.spec_of().animal_spec(
                "grove-birds"@,
            ) is Some,
        ensures
            final(self).world == old(self).world,
            at_beat@ != "bird-grove"@ ==> r is None && final(self).birds == old(self).birds && final(self).beats == old(self).beats,
            at_beat@ == "bird-grove"@ ==> {
                let a = old(self).world.approach_spec("grove-birds"@).unwrap();
                &&& r == Some(a)
                &&& final(self).birds == mood(a)
                &&& final(self).beats.anya_stirred == (old(self).beats.anya_stirred || a == Response::Stirred)
                &&& final(self).beats.donna_settled == (old(self).beats.donna_settled || a == Response::Settled)
                &&& final(self).beats.rift_disrupted == (old(self).beats.rift_disrupted || a == Response::Disrupted)
                &&& final(self).beats.crossed == old(self).beats.crossed
            },
    {
        if !str_eq(at_beat, "bird-grove") {
            return None;
        }
        let r = match self.world.approach("grove-birds") {
            Some(r) => r,
            None => {
                assert(false);
                Response::Unmoved
            },
        };
        self.birds = BirdState::from_response(&r);
        match r {
            Response::Stirred => self.beats.anya_stirred = true,
            Response::Settled => self.beats.donna_settled = true,
            Response::Disrupted => self.beats.rift_disrupted = true,
            _ => {},
        }
        Some(r)
    }

    /// Settle the crossing — only at the bridge, and only a lowering gift
    /// (Donna).
    pub fn settle_crossing(&mut self, at_beat: &str) -> (s: Settle)
        requires
            old(self).world.has_active(),
        ensures
            final(self).birds == old(self).birds,
            final(self).beats == old(self).beats,
            final(self).world.spec_of() == old(self).world.spec_of(),
            final(self).world.active_id_of() == old(self).world.active_id_of(),
            final(self).world.rift_of() == old(self).world.rift_of(),
            final(self).world.crossed_of() == old(self).world.crossed_of(),
            at_beat@ != "stream-bridge"@ ==> s == Settle::NotHere && final(self).world.stable_of() == old(self).world.stable_of(),
            at_beat@ == "stream-bridge"@ ==> {
                let settles = old(self).world.active_spec().attunement == Some(Taxis::Lower);
                &&& s == (if settles { Settle::Settled } else { Settle::WrongGift })
                &&& final(self).world.stable_of() == (old(self).world.stable_of() || settles)
            },
    {
        if !str_eq(at_beat, "stream-bridge") {
            return Settle::NotHere;
        }
        if self.world.stabilize_bridge() {
            Settle::Settled
        } else {
            Settle::WrongGift
        }
    }

    /// Cross — only at the bridge, and only once it has been made passable.
    pub fn cross(&mut self, at_beat: &str) -> (c: Crossing)
        ensures
            final(self).birds == old(self).birds,
            final(self).world.spec_of() == old(self).world.spec_of(),
            final(self).world.active_id_of() == old(self).world.active_id_of(),
            final(self).world.rift_of() == old(self).world.rift_of(),
            final(self).world.stable_of() == old(self).world.stable_of(),
            final(self).beats.anya_stirred == old(self).beats.anya_stirred,
            final(self).beats.donna_settled == old(self).beats.donna_settled,
            final(self).beats.rift_disrupted == old(self).beats.rift_disrupted,
            at_beat@ != "stream-bridge"@ ==> c == Crossing::NotHere && final(self).beats == old(self).beats
                && final(self).world.crossed_of() == old(self).world.crossed_of(),
            at_beat@ == "stream-bridge"@ && old(self).world.stable_of() ==> c == Crossing::Crossed
                && final(self).beats.crossed && final(self).world.crossed_of(),
            at_beat@ == "stream-bridge"@ && !old(self).world.stable_of() ==> c == Crossing::Unpassable
                && final(self).beats == old(self).beats && final(self).world.crossed_of() == old(self).world.crossed_of(),
    {
        if !str_eq(at_beat, "stream-bridge") {
            return Crossing::NotHere;
        }
        match self.world.cross() {
            Ok(()) => {
                self.beats.crossed = true;
                Crossing::Crossed
            },
            Err(CrossError::BridgeUnstable) => Crossing::Unpassable,
        }
    }

    /// Switch to another girl: the first character of the spec whose id is
    /// not the active one. Nothing changes if there is none.
    pub fn toggle_character(&mut self)
        requires
            old(self).world.has_active(),
        ensures
            final(self).birds == old(self).birds,
            final(self).beats == old(self).beats,
            final(self).world.spec_of() == old(self).world.spec_of(),
            final(self).world.rift_of() == old(self).world.rift_of(),
            final(self).world.stable_of() == old(self).world.stable_of(),
            final(self).world.crossed_of() == old(self).world.crossed_of(),
            final(self).world.has_active(),
            match other_character(character_ids(old(self).world.spec_of().characters@), old(self).world.active_id_of()) {
                Some(i) => final(self).world.active_id_of() == old(self).world.spec_of().characters@[i].id@,
                None => final(self).world.active_id_of() == old(self).world.active_id_of(),
            },
    {
        let n = self.world.spec().characters.len();
        let mut i: usize = 0;
        let ghost ids = character_ids(self.world.spec_of().characters@);
        let ghost active = self.world.active_id_of();
        while i < n
            invariant
                i <= n,
                n == self.world.spec_of().characters.len(),
                ids == character_ids(self.world.spec_of().characters@),
                active == self.world.active_id_of(),
                self.world.has_active(),
                self.world.spec_of() == old(self).world.spec_of(),
                self.world.active_id_of() == old(self).world.active_id_of(),
                self.world.rift_of() == old(self).world.rift_of(),
                self.world.stable_of() == old(self).world.stable_of(),
                self.world.crossed_of() == old(self).world.crossed_of(),
                self.birds == old(self).birds,
                self.beats == old(self).beats,
                forall|j: int| 0 <= j < i ==> ids[j] == active,
            decreases n - i,
        {
            let id = self.world.spec().characters[i].id.clone();
            let active_id = self.world.active().id.clone();
            proof {
                assert(ids[i as int] == id@);
                assert(active_id@ == active) by {
                    crate::spec::lemma_first_match_exists(ids, active);
                    let k = choose|k: int| crate::spec::first_match(ids, active, k);
                    crate::spec::lemma_first_match_unique(ids, active, k);
                }
            }
            if !str_eq(id.as_str(), active_id.as_str()) {
                proof {
                    assert(other_character(ids, active) == Some(i as int)) by {
                        assert(exists|k: int| first_other(ids, active, k)) by {
                            assert(first_other(ids, active, i as int));
                        }
                        lemma_first_other_unique(ids, active, i as int);
                    }
                    assert(!no_match(ids, id@)) by {
                        assert(ids[i as int] == id@);
                    }
                }
                self.world.switch_to(id.as_str());
                return;
            }
            i = i + 1;
        }
        proof {
            assert(!exists|k: int| first_other(ids, active, k));
        }
    }
}

/// What working the crossing came to: the one action at the bridge, which
/// steadies it for a settling girl and crosses it for any other.
#[derive(Debug, Clone, Copy, PartialEq, Eq, Structural)]
pub enum CrossingWork {
    /// Donna steadied the crossing; it is passable now.
    Steadied,
    /// The girl crossed the steadied crossing.
    Crossed,
    /// The crossing is still unsteady: nobody can cross it yet.
    StillUnsteady,
    /// Not standing at the crossing.
    NothingHere,
}

impl Progress {
    /// Work the crossing: a girl who settles steadies it; any other girl
    /// crosses it, once it has been steadied.
    pub fn work_crossing(&mut self, at_beat: &str) -> (w: CrossingWork)
        requires
            old(self).world.has_active(),
        ensures
            final(self).birds == old(self).birds,
            final(self).world.spec_of() == old(self).world.spec_of(),
            final(self).world.active_id_of() == old(self).world.active_id_of(),
            final(self).world.rift_of() == old(self).world.rift_of(),
            final(self).beats.anya_stirred == old(self).beats.anya_stirred,
            final(self).beats.donna_settled == old(self).beats.donna_settled,
            final(self).beats.rift_disrupted == old(self).beats.rift_disrupted,
            at_beat@ != "stream-bridge"@ ==> w == CrossingWork::NothingHere && final(self).beats == old(self).beats
                && final(self).world.stable_of() == old(self).world.stable_of()
                && final(self).world.crossed_of() == old(self).world.crossed_of(),
            at_beat@ == "stream-bridge"@ && old(self).world.active_spec().attunement == Some(Taxis::Lower) ==> w
                == CrossingWork::Steadied && final(self).world.stable_of() && final(self).beats == old(self).beats
                && final(self).world.crossed_of() == old(self).world.crossed_of(),
            at_beat@ == "stream-bridge"@ && old(self).world.active_spec().attunement != Some(Taxis::Lower)
                && old(self).world.stable_of() ==> w == CrossingWork::Crossed && final(self).beats.crossed
                && final(self).world.crossed_of() && final(self).world.stable_of(),
            at_beat@ == "stream-bridge"@ && old(self).world.active_spec().attunement != Some(Taxis::Lower)
                && !old(self).world.stable_of() ==> w == CrossingWork::StillUnsteady && final(self).beats == old(
                self).beats && !final(self).world.stable_of() && final(self).world.crossed_of() == old(
                self).world.crossed_of(),
    {
        match self.settle_crossing(at_beat) {
            Settle::Settled => CrossingWork::Steadied,
            Settle::NotHere => CrossingWork::NothingHere,
            Settle::WrongGift => match self.cross(at_beat) {
                Crossing::Crossed => CrossingWork::Crossed,
                Crossing::Unpassable => CrossingWork::StillUnsteady,
                Crossing::NotHere => CrossingWork::NothingHere,
            },
        }
    }

    /// Whether the progress pip `i` is lit: the first for Anya's stirring,
    /// the second for Donna's settling, the third for the awakened Rift.
    pub fn pip_lit(&self, i: usize) -> (r: bool)
        ensures
            r == (if i == 0 {
                self.beats.anya_stirred
            } else if i == 1 {
                self.beats.donna_settled
            } else if i == 2 {
                self.world.rift_of()
            } else {
                false
            }),
    {
        match i {
            0 => self.beats.anya_stirred,
            1 => self.beats.donna_settled,
            2 => self.world.rift_is_active(),
            _ => false,
        }
    }
}

/// How many of the five beats `b` records.
pub open spec fn beat_count(b: Beats) -> nat {
    one_if(b.anya_stirred) + one_if(b.donna_settled) + one_if(b.anya_stirred && b.donna_settled) + one_if(
        b.crossed,
    ) + one_if(b.rift_disrupted)
}

/// A line of narration as understanding comes in.
#[derive(Debug, Clone, Copy, PartialEq, Eq, Structural)]
pub enum ProgressNote {
    /// All five beats: Zone A's answer is complete.
    Complete,
    /// Nature has answered; this many beats are understood.
    NatureAnswered(usize),
    /// This many beats are understood.
    Understood(usize),
}

/// What to narrate now that `beats` is the progress and `last_count` beats
/// were understood when last narrated: nothing if the count has not changed.
pub fn progress_note(beats: &Beats, last_count: usize) -> (r: Option<ProgressNote>)
    ensures
        beat_count(*beats) == last_count ==> r is None,
        beat_count(*beats) != last_count ==> r == Some(
            if beats.anya_stirred && beats.donna_settled && beats.crossed && beats.rift_disrupted {
                ProgressNote::Complete
            } else if beats.anya_stirred && beats.donna_settled {
                ProgressNote::NatureAnswered(beat_count(*beats) as usize)
            } else {
                ProgressNote::Understood(beat_count(*beats) as usize)
            },
        ),
{
    let count = beats.count();
    if count == last_count {
        None
    } else if beats.all() {
        Some(ProgressNote::Complete)
    } else if beats.nature_answered() {
        Some(ProgressNote::NatureAnswered(count))
    } else {
        Some(ProgressNote::Understood(count))
    }
}

/// `i` is the first position in `ids` whose id differs from `active`.
pub open spec fn first_other(ids: Seq<Seq<char>>, active: Seq<char>, i: int) -> bool {
    &&& 0 <= i < ids.len()
    &&& ids[i] != active
    &&& forall|j: int| 0 <= j < i ==> ids[j] == active
}

/// The first character whose id differs from `active`, if any.
pub open spec fn other_character(ids: Seq<Seq<char>>, active: Seq<char>) -> Option<int> {
    if exists|i: int| first_other(ids, active, i) {
        Some(choose|i: int| first_other(ids, active, i))
    } else {
        None
    }
}

proof fn lemma_first_other_unique(ids: Seq<Seq<char>>, active: Seq<char>, i: int)
    requires
        first_other(ids, active, i),
    ensures
        (choose|k: int| first_other(ids, active, k)) == i,
{
    let k = choose|k: int| first_other(ids, active, k);
    if k < i {
        assert(ids[k] == active);
    } else if k > i {
        assert(ids[i] == active);
    }
}

impl Beats {
    pub open spec fn none_spec() -> Beats {
        Beats { anya_stirred: false, donna_settled: false, crossed: false, rift_disrupted: false }
    }
}

/// Which of `n` beats are revealed when a walk begins: only the first, where
/// both girls start.
pub fn first_revealed(n: usize) -> (v: Vec<bool>)
    ensures
        v@.len() == n,
        forall|i: int| 0 <= i < n ==> v@[i] == (i == 0),
{
    let mut v: Vec<bool> = Vec::new();
    let mut i: usize = 0;
    while i < n
        invariant
            i <= n,
            v@.len() == i,
            forall|j: int| 0 <= j < i ==> v@[j] == (j == 0),
        decreases n - i,
    {
        v.push(i == 0);
        i = i + 1;
    }
    v
}

/// Record that the active girl moved from the beat at index `before` to the
/// one at `after`: a beat reached anew is revealed. Returns the index of the
/// newly reached beat, if the move changed beats.
pub fn reveal_reached(revealed: &mut Vec<bool>, before: usize, after: usize) -> (r: Option<usize>)
    requires
        after < old(revealed).len(),
    ensures
        before != after ==> r == Some(after) && final(revealed)@ == old(revealed)@.update(after as int, true),
        before == after ==> r is None && final(revealed)@ == old(revealed)@,
{
    if after != before {
        revealed.set(after, true);
        Some(after)
    } else {
        None
    }
}

} // verus!
