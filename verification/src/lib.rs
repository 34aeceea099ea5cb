//! # slavia_core — the Slavia rules core
//!
//! The emotional grammar that governs how the world answers the two girls:
//! Anya stirs, Donna settles, the animal's own nature determines the result,
//! Donna steadies what Anya crosses, and the Rift interrupts the answer.
use vstd::prelude::*;
use vstd::string::*;

pub mod animal;
pub mod character;
pub mod error;
pub mod menu;
pub mod esm;
pub mod session;
pub mod spec;
pub mod text;
pub mod world;

pub use animal::{Animal, Nature, Response};
pub use character::{Character, Taxis};
pub use error::CrossError;
pub use spec::{Beat, Meta, Spec};
pub use world::World;

verus! {

/// The bundled Zone A spec: the two girls, the grove birds and the seven
/// beats of the forest walk.
pub fn zone_a() -> (s: Spec)
    ensures
        s.meta.level@ == "1"@,
        s.meta.zone@ == "A"@,
        s.meta.name@ == "Two Lands"@,
        s.characters.len() == 2,
        s.characters@[0].id@ == "anya"@,
        s.characters@[0].name@ == "Anya"@,
        s.characters@[0].attunement == Some(Taxis::Raise),
        s.characters@[1].id@ == "donna"@,
        s.characters@[1].name@ == "Donna"@,
        s.characters@[1].attunement == Some(Taxis::Lower),
        s.animals.len() == 1,
        s.animals@[0].id@ == "grove-birds"@,
        s.animals@[0].species@ == "birds"@,
        s.animals@[0].nature == Nature::Natural,
        s.animals@[0].location matches Some(l) && l@ == "bird-grove"@,
        s.beats.len() == 7,
        s.beats@[0].id@ == "forest-entrance"@,
        s.beats@[1].id@ == "bird-grove"@,
        s.beats@[2].id@ == "shrine"@,
        s.beats@[3].id@ == "stream-bridge"@,
        s.beats@[4].id@ == "ridge-path"@,
        s.beats@[5].id@ == "overlook"@,
        s.beats@[6].id@ == "fracture"@,
        s.beats@[0].title@ == "Forest Entrance"@,
        s.beats@[1].title@ == "Bird Grove"@,
        s.beats@[2].title@ == "Shrine"@,
        s.beats@[3].title@ == "Stream Bridge"@,
        s.beats@[4].title@ == "Ridge Path"@,
        s.beats@[5].title@ == "Overlook"@,
        s.beats@[6].title@ == "Fracture Prelude"@,
        s.beats@[1].teaches matches Some(t) && t@ == "Anya stirs; Donna settles; nature answers them."@,
        s.beats@[2].text matches Some(t) && t@ == "Two lands, one heart."@,
        s.beats@[3].teaches matches Some(t) && t@ == "Donna steadies what Anya crosses."@,
        s.beats@[6].teaches matches Some(t) && t@ == "The Rift interrupts the answer."@,
        s.beats@[0].teaches is None && s.beats@[0].text is None,
        s.beats@[1].text is None,
        s.beats@[2].teaches is None,
        s.beats@[3].text is None,
        s.beats@[4].teaches is None && s.beats@[4].text is None,
        s.beats@[5].teaches is None && s.beats@[5].text is None,
        s.beats@[6].text is None,
{
    let characters = vec![
        Character { id: String::from_str("anya"), name: String::from_str("Anya"), attunement: Some(Taxis::Raise) },
        Character { id: String::from_str("donna"), name: String::from_str("Donna"), attunement: Some(Taxis::Lower) },
    ];
    let animals = vec![
        Animal {
            id: String::from_str("grove-birds"),
            species: String::from_str("birds"),
            nature: Nature::Natural,
            location: Some(String::from_str("bird-grove")),
        },
    ];
    let beats = vec![
        Beat { id: String::from_str("forest-entrance"), title: String::from_str("Forest Entrance"), teaches: None, text: None },
        Beat {
            id: String::from_str("bird-grove"),
            title: String::from_str("Bird Grove"),
            teaches: Some(String::from_str("Anya stirs; Donna settles; nature answers them.")),
            text: None,
        },
        Beat {
            id: String::from_str("shrine"),
            title: String::from_str("Shrine"),
            teaches: None,
            text: Some(String::from_str("Two lands, one heart.")),
        },
        Beat {
            id: String::from_str("stream-bridge"),
            title: String::from_str("Stream Bridge"),
            teaches: Some(String::from_str("Donna steadies what Anya crosses.")),
            text: None,
        },
        Beat { id: String::from_str("ridge-path"), title: String::from_str("Ridge Path"), teaches: None, text: None },
        Beat { id: String::from_str("overlook"), title: String::from_str("Overlook"), teaches: None, text: None },
        Beat {
            id: String::from_str("fracture"),
            title: String::from_str("Fracture Prelude"),
            teaches: Some(String::from_str("The Rift interrupts the answer.")),
            text: None,
        },
    ];
    Spec {
        meta: Meta { level: String::from_str("1"), zone: String::from_str("A"), name: String::from_str("Two Lands") },
        characters,
        animals,
        beats,
    }
}

} // verus!
