//! The rules side of a play session, walked beat by beat.

use slavia_core::session::{
    first_revealed, progress_note, reveal_reached, BirdState, Beats, Crossing, CrossingWork, Progress, ProgressNote,
    Settle,
};
use slavia_core::{zone_a, CrossError, Nature, Response, World};

fn progress() -> Progress {
    Progress::new(World::new(zone_a()))
}

#[test]
fn a_new_session_starts_neutral_with_no_beat() {
    let p = progress();
    assert_eq!(p.birds, BirdState::Neutral);
    assert_eq!(p.beats, Beats::none());
    assert_eq!(p.beats.count(), 0);
    assert!(!p.beats.all());
    assert_eq!(p.world.active().id, "anya");
}

#[test]
fn the_birds_answer_only_at_the_grove() {
    let mut p = progress();
    assert_eq!(p.approach_birds("forest-entrance"), None);
    assert_eq!(p.birds, BirdState::Neutral);
    assert_eq!(p.approach_birds("bird-grove"), Some(Response::Stirred));
    assert_eq!(p.birds, BirdState::Stirred);
    assert!(p.beats.anya_stirred);
    assert!(!p.beats.donna_settled);
    assert_eq!(p.beats.count(), 1);
}

#[test]
fn toggling_switches_between_the_two_girls() {
    let mut p = progress();
    p.toggle_character();
    assert_eq!(p.world.active().id, "donna");
    p.toggle_character();
    assert_eq!(p.world.active().id, "anya");
}

#[test]
fn anya_cannot_settle_the_crossing_and_nobody_settles_it_elsewhere() {
    let mut p = progress();
    assert_eq!(p.settle_crossing("stream-bridge"), Settle::WrongGift);
    assert_eq!(p.cross("stream-bridge"), Crossing::Unpassable);
    p.toggle_character();
    assert_eq!(p.settle_crossing("overlook"), Settle::NotHere);
    assert_eq!(p.cross("overlook"), Crossing::NotHere);
    assert_eq!(p.cross("stream-bridge"), Crossing::Unpassable);
}

#[test]
fn the_full_walk_reaches_all_five_beats() {
    let mut p = progress();
    assert_eq!(p.approach_birds("bird-grove"), Some(Response::Stirred));
    p.toggle_character();
    assert_eq!(p.approach_birds("bird-grove"), Some(Response::Settled));
    assert_eq!(p.birds, BirdState::Settled);
    assert!(p.beats.nature_answered());
    assert_eq!(p.beats.count(), 3);
    assert_eq!(p.settle_crossing("stream-bridge"), Settle::Settled);
    p.toggle_character();
    assert_eq!(p.cross("stream-bridge"), Crossing::Crossed);
    assert!(p.world.crossed);
    assert_eq!(p.beats.count(), 4);
    p.world.awaken_rift();
    assert_eq!(p.approach_birds("bird-grove"), Some(Response::Disrupted));
    assert_eq!(p.birds, BirdState::Disrupted);
    assert!(p.beats.all());
    assert_eq!(p.beats.count(), 5);
}

#[test]
fn bird_mood_follows_the_answer() {
    assert_eq!(BirdState::from_response(&Response::Stirred), BirdState::Stirred);
    assert_eq!(BirdState::from_response(&Response::Settled), BirdState::Settled);
    assert_eq!(BirdState::from_response(&Response::Disrupted), BirdState::Disrupted);
    assert_eq!(BirdState::from_response(&Response::Unmoved), BirdState::Neutral);
    assert_eq!(
        BirdState::from_response(&Response::Unnatural(Nature::Corrupted)),
        BirdState::Neutral
    );
}

#[test]
fn all_beats_is_exactly_a_count_of_five() {
    let b = Beats { anya_stirred: true, donna_settled: true, crossed: true, rift_disrupted: true };
    assert!(b.all());
    assert_eq!(b.count(), 5);
    let c = Beats { anya_stirred: true, donna_settled: false, crossed: true, rift_disrupted: true };
    assert!(!c.all());
    assert!(!c.nature_answered());
    assert_eq!(c.count(), 3);
}

#[test]
fn moving_to_a_new_beat_reveals_it_once() {
    let mut revealed = vec![true, false, false];
    assert_eq!(reveal_reached(&mut revealed, 0, 2), Some(2));
    assert_eq!(revealed, vec![true, false, true]);
    assert_eq!(reveal_reached(&mut revealed, 2, 2), None);
    assert_eq!(revealed, vec![true, false, true]);
}

#[test]
fn crossing_too_early_reports_the_unstable_bridge() {
    let mut w = World::new(zone_a());
    assert_eq!(w.cross(), Err(CrossError::BridgeUnstable));
    assert_eq!(
        CrossError::BridgeUnstable.message(),
        "the crossing has not been made passable"
    );
    assert!(!w.crossed);
}

#[test]
fn switching_to_an_unknown_girl_changes_nothing() {
    let mut w = World::new(zone_a());
    assert!(!w.switch_to("boris"));
    assert_eq!(w.active().id, "anya");
    assert!(w.switch_to("donna"));
    assert_eq!(w.active().id, "donna");
}

#[test]
fn lookups_of_unknown_ids_find_nothing() {
    let s = zone_a();
    assert!(s.character("boris").is_none());
    assert!(s.animal("wolves").is_none());
    assert!(s.beat("cellar").is_none());
    assert_eq!(s.beat("shrine").unwrap().text.as_deref(), Some("Two lands, one heart."));
    let w = World::new(zone_a());
    assert_eq!(w.approach("wolves"), None);
}

#[test]
fn working_the_crossing_steadies_as_donna_and_crosses_as_anya() {
    let mut p = progress();
    assert_eq!(p.work_crossing("shrine"), CrossingWork::NothingHere);
    assert_eq!(p.work_crossing("stream-bridge"), CrossingWork::StillUnsteady);
    p.toggle_character();
    assert_eq!(p.work_crossing("stream-bridge"), CrossingWork::Steadied);
    assert!(!p.beats.crossed);
    p.toggle_character();
    assert_eq!(p.work_crossing("stream-bridge"), CrossingWork::Crossed);
    assert!(p.beats.crossed);
}

#[test]
fn the_fracture_wakes_the_rift_and_the_birds_darken_when_reached() {
    let mut p = progress();
    assert!(!p.pip_lit(2));
    p.world.awaken_rift();
    assert!(p.world.rift_active);
    assert!(p.world.rift_is_active());
    assert_eq!(p.birds, BirdState::Neutral);
    assert!(p.pip_lit(2));
    assert!(!p.pip_lit(0));
    assert!(!p.pip_lit(7));
    assert_eq!(p.approach_birds("bird-grove"), Some(Response::Disrupted));
    assert_eq!(p.birds, BirdState::Disrupted);
}

#[test]
fn narration_speaks_only_when_understanding_grows() {
    let none = Beats::none();
    assert_eq!(progress_note(&none, 0), None);
    let one = Beats { anya_stirred: true, donna_settled: false, crossed: false, rift_disrupted: false };
    assert_eq!(progress_note(&one, 0), Some(ProgressNote::Understood(1)));
    assert_eq!(progress_note(&one, 1), None);
    let answered = Beats { anya_stirred: true, donna_settled: true, crossed: false, rift_disrupted: false };
    assert_eq!(progress_note(&answered, 1), Some(ProgressNote::NatureAnswered(3)));
    let all = Beats { anya_stirred: true, donna_settled: true, crossed: true, rift_disrupted: true };
    assert_eq!(progress_note(&all, 4), Some(ProgressNote::Complete));
}

#[test]
fn a_walk_begins_with_only_the_entrance_revealed() {
    assert_eq!(first_revealed(3), vec![true, false, false]);
    assert!(first_revealed(0).is_empty());
    assert_eq!(first_revealed(zone_a().beats.len()).len(), 7);
}

#[test]
fn reaching_for_a_missing_animal_needs_no_girl() {
    let empty = slavia_core::Spec {
        meta: slavia_core::Meta { level: "1".to_string(), zone: "A".to_string(), name: "Empty".to_string() },
        characters: vec![],
        animals: vec![],
        beats: vec![],
    };
    let w = World::new(empty);
    assert_eq!(w.approach("grove-birds"), None);
    let mut p = Progress::new(w);
    assert_eq!(p.approach_birds("overlook"), None);
    assert_eq!(p.birds, BirdState::Neutral);
}

#[test]
fn the_active_girl_is_known_exactly_when_the_spec_has_her() {
    let w = World::new(zone_a());
    assert!(w.has_active_character());
    let empty = slavia_core::Spec {
        meta: slavia_core::Meta { level: "1".to_string(), zone: "A".to_string(), name: "Empty".to_string() },
        characters: vec![],
        animals: vec![],
        beats: vec![],
    };
    assert!(!World::new(empty).has_active_character());
}
