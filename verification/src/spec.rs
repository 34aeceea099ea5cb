//! The Slavia Game Spec (SGS) — a declarative description of a zone that the
//! rules core interprets and a renderer draws.
use vstd::prelude::*;

use crate::animal::Animal;
use crate::character::Character;
use crate::text::str_eq;

verus! {

/// Where in the Chronicle this spec sits.
#[derive(Debug, Clone)]
pub struct Meta {
    pub level: String,
    pub zone: String,
    pub name: String,
}

/// One story beat within a zone. The core reads beats as ordered data; how a
/// beat is staged is the renderer's business.
#[derive(Debug, Clone)]
pub struct Beat {
    pub id: String,
    pub title: String,
    /// What the player is meant to learn here, if anything.
    pub teaches: Option<String>,
    /// Text the beat surfaces (a shrine inscription, a line of narration).
    pub text: Option<String>,
}

/// A complete, renderer-agnostic description of one zone.
#[derive(Debug, Clone)]
pub struct Spec {
    pub meta: Meta,
    pub characters: Vec<Character>,
    pub animals: Vec<Animal>,
    pub beats: Vec<Beat>,
}

/// `i` is the first position in `ids` holding `id`.
pub open spec fn first_match(ids: Seq<Seq<char>>, id: Seq<char>, i: int) -> bool {
    &&& 0 <= i < ids.len()
    &&& ids[i] == id
    &&& forall|j: int| 0 <= j < i ==> ids[j] != id
}

/// No position in `ids` holds `id`.
pub open spec fn no_match(ids: Seq<Seq<char>>, id: Seq<char>) -> bool {
    forall|j: int| 0 <= j < ids.len() ==> ids[j] != id
}

pub open spec fn character_ids(cs: Seq<Character>) -> Seq<Seq<char>> {
    cs.map_values(|c: Character| c.id@)
}

pub open spec fn animal_ids(xs: Seq<Animal>) -> Seq<Seq<char>> {
    xs.map_values(|a: Animal| a.id@)
}

pub open spec fn beat_ids(xs: Seq<Beat>) -> Seq<Seq<char>> {
    xs.map_values(|b: Beat| b.id@)
}

impl Spec {
    /// The character a lookup of `id` finds: the first one with that id.
    pub open spec fn character_spec(&self, id: Seq<char>) -> Option<Character> {
        let ids = character_ids(self.characters@);
        if exists|i: int| first_match(ids, id, i) {
            Some(self.characters@[choose|i: int| first_match(ids, id, i)])
        } else {
            None
        }
    }

    /// The animal a lookup of `id` finds: the first one with that id.
    pub open spec fn animal_spec(&self, id: Seq<char>) -> Option<Animal> {
        let ids = animal_ids(self.animals@);
        if exists|i: int| first_match(ids, id, i) {
            Some(self.animals@[choose|i: int| first_match(ids, id, i)])
        } else {
            None
        }
    }

    /// Look up a character by id.
    pub fn character(&self, id: &str) -> (r: Option<&Character>)
        ensures
            match r { Some(c) => self.character_spec(id@) == Some(*c), None => self.character_spec(id@) is None },
            r is None <==> no_match(character_ids(self.characters@), id@),
    {
        let ghost ids = character_ids(self.characters@);
        let mut i: usize = 0;
        while i < self.characters.len()
            invariant
                i <= self.characters.len(),
                ids == character_ids(self.characters@),
                forall|j: int| 0 <= j < i ==> ids[j] != id@,
            decreases self.characters.len() - i,
        {
            if str_eq(self.characters[i].id.as_str(), id) {
                proof {
                    lemma_first_match_unique(ids, id@, i as int);
                }
                return Some(&self.characters[i]);
            }
            i = i + 1;
        }
        None
    }

    /// Look up an animal by id.
    pub fn animal(&self, id: &str) -> (r: Option<&Animal>)
        ensures
            match r { Some(a) => self.animal_spec(id@) == Some(*a), None => self.animal_spec(id@) is None },
            r is None <==> no_match(animal_ids(self.animals@), id@),
    {
        let ghost ids = animal_ids(self.animals@);
        let mut i: usize = 0;
        while i < self.animals.len()
            invariant
                i <= self.animals.len(),
                ids == animal_ids(self.animals@),
                forall|j: int| 0 <= j < i ==> ids[j] != id@,
            decreases self.animals.len() - i,
        {
            if str_eq(self.animals[i].id.as_str(), id) {
                proof {
                    lemma_first_match_unique(ids, id@, i as int);
                }
                return Some(&self.animals[i]);
            }
            i = i + 1;
        }
        None
    }

    /// Look up a beat by id.
    pub fn beat(&self, id: &str) -> (r: Option<&Beat>)
        ensures
            match r {
                Some(b) => exists|i: int| first_match(beat_ids(self.beats@), id@, i) && *b == self.beats@[i],
                None => no_match(beat_ids(self.beats@), id@),
            },
    {
        let ghost ids = beat_ids(self.beats@);
        let mut i: usize = 0;
        while i < self.beats.len()
            invariant
                i <= self.beats.len(),
                ids == beat_ids(self.beats@),
                forall|j: int| 0 <= j < i ==> ids[j] != id@,
            decreases self.beats.len() - i,
        {
            if str_eq(self.beats[i].id.as_str(), id) {
                assert(first_match(ids, id@, i as int));
                return Some(&self.beats[i]);
            }
            i = i + 1;
        }
        None
    }
}

/// There is at most one first match, and a first match exists exactly when
/// some position matches.
pub proof fn lemma_first_match_unique(ids: Seq<Seq<char>>, id: Seq<char>, i: int)
    requires
        first_match(ids, id, i),
    ensures
        forall|k: int| first_match(ids, id, k) ==> k == i,
        (choose|k: int| first_match(ids, id, k)) == i,
{
    assert forall|k: int| first_match(ids, id, k) implies k == i by {
        if k < i {
            assert(ids[k] != id);
        } else if k > i {
            assert(ids[i] != id);
        }
    }
}

/// Some position matches exactly when there is a first match.
pub proof fn lemma_first_match_exists(ids: Seq<Seq<char>>, id: Seq<char>)
    requires
        !no_match(ids, id),
    ensures
        exists|i: int| first_match(ids, id, i),
    decreases ids.len(),
{
    let j = choose|j: int| 0 <= j < ids.len() && ids[j] == id;
    if ids[0] == id {
        assert(first_match(ids, id, 0));
    } else {
        let rest = ids.drop_first();
        assert(rest[j - 1] == id);
        lemma_first_match_exists(rest, id);
        let k = choose|k: int| first_match(rest, id, k);
        assert(first_match(ids, id, k + 1)) by {
            assert forall|m: int| 0 <= m < k + 1 implies ids[m] != id by {
                if m > 0 {
                    assert(ids[m] == rest[m - 1]);
                }
            }
        }
    }
}

} // verus!
