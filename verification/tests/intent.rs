//! What does this mind think the player is doing?

use slavia_core::esm::belief::{Baseline, Fact, Mind};
use slavia_core::esm::intent::{read_intent, Read};

fn f(pred: &str, args: &[&str]) -> Fact {
    Fact::new(pred, args)
}

/// Two things lie north; the guard knows both. He cannot tell which.
#[test]
fn two_plausible_targets_read_as_ambiguous() {
    let base = Baseline::new(vec![
        f("lies-toward", &["usb-stick", "north"]),
        f("lies-toward", &["secret-note", "north"]),
    ]);
    let guard = Mind::new("guard");

    let read = read_intent(&guard, &base, "north", &["usb-stick", "secret-note"]);
    assert_eq!(
        read,
        Read::Ambiguous(vec!["secret-note".into(), "usb-stick".into()])
    );
}

/// Only one candidate lies that way: certainty, and an interception.
#[test]
fn a_single_plausible_target_reads_as_unified() {
    let base = Baseline::new(vec![
        f("lies-toward", &["usb-stick", "north"]),
        f("lies-toward", &["secret-note", "south"]),
    ]);
    let guard = Mind::new("guard");

    let read = read_intent(&guard, &base, "north", &["usb-stick", "secret-note"]);
    assert_eq!(read, Read::Unified("usb-stick".into()));
}

/// Nothing he believes lies that way. The assumption broke: he's been tricked.
#[test]
fn no_plausible_target_reads_as_contradiction() {
    let base = Baseline::new(vec![f("lies-toward", &["usb-stick", "north"])]);
    let guard = Mind::new("guard");

    let read = read_intent(&guard, &base, "west", &["usb-stick"]);
    assert_eq!(read, Read::Contradiction);
}

/// Ignorance is local. Same world, same heading, two different readings —
/// because one guard was told and the other never was.
#[test]
fn what_a_guard_has_not_learned_he_cannot_deduce() {
    let base = Baseline::new(vec![]);
    let told = {
        let mut m = Mind::new("told");
        m.learn(f("lies-toward", &["usb-stick", "north"]));
        m
    };
    let ignorant = Mind::new("ignorant");

    assert_eq!(
        read_intent(&told, &base, "north", &["usb-stick"]),
        Read::Unified("usb-stick".into())
    );
    assert_eq!(
        read_intent(&ignorant, &base, "north", &["usb-stick"]),
        Read::Contradiction
    );
}

/// Learning a second possibility *reduces* certainty.
#[test]
fn learning_more_can_widen_a_read_from_unified_to_ambiguous() {
    let base = Baseline::new(vec![f("lies-toward", &["usb-stick", "north"])]);
    let mut guard = Mind::new("guard");
    assert_eq!(
        read_intent(&guard, &base, "north", &["usb-stick", "secret-note"]),
        Read::Unified("usb-stick".into())
    );

    guard.learn(f("lies-toward", &["secret-note", "north"]));
    assert!(matches!(
        read_intent(&guard, &base, "north", &["usb-stick", "secret-note"]),
        Read::Ambiguous(_)
    ));
}

#[test]
fn duplicate_routes_to_one_target_do_not_fake_ambiguity() {
    // Believed twice via baseline and delta; still one candidate.
    let base = Baseline::new(vec![f("lies-toward", &["usb-stick", "north"])]);
    let mut guard = Mind::new("guard");
    guard.learn(f("lies-toward", &["usb-stick", "north"]));

    assert_eq!(
        read_intent(&guard, &base, "north", &["usb-stick"]),
        Read::Unified("usb-stick".into())
    );
}
