//! Global baseline plus per-entity deltas.

use slavia_core::esm::belief::{holds, Baseline, Fact, Mind};
use slavia_core::esm::kanren::{run, Term};

fn f(pred: &str, args: &[&str]) -> Fact {
    Fact::new(pred, args)
}

#[test]
fn a_fact_renders_as_the_design_docs_write_it() {
    assert_eq!(
        f("is-hiding-secret", &["hostage"]).to_term().to_string(),
        "(is-hiding-secret hostage)"
    );
}

#[test]
fn an_untouched_mind_believes_exactly_the_baseline() {
    let base = Baseline::new(vec![f("at", &["artifact", "vault"])]);
    let mind = Mind::new("guard");
    assert!(mind.believes(&base, &f("at", &["artifact", "vault"])));
    assert_eq!(mind.beliefs(&base).len(), 1);
}

#[test]
fn observing_overrides_the_baseline_for_that_mind_only() {
    let base = Baseline::new(vec![f("at", &["artifact", "vault"])]);
    let mut seen = Mind::new("guard-who-looked");
    let blind = Mind::new("guard-who-did-not");

    seen.unlearn(f("at", &["artifact", "vault"]));
    seen.learn(f("gone", &["artifact"]));

    assert!(!seen.believes(&base, &f("at", &["artifact", "vault"])));
    assert!(seen.believes(&base, &f("gone", &["artifact"])));
    assert!(blind.believes(&base, &f("at", &["artifact", "vault"])));
    assert!(!blind.believes(&base, &f("gone", &["artifact"])));
}

#[test]
fn later_observations_override_earlier_ones() {
    let base = Baseline::new(vec![]);
    let mut mind = Mind::new("guard");
    mind.learn(f("at", &["player", "corridor"]));
    mind.unlearn(f("at", &["player", "corridor"]));
    mind.learn(f("at", &["player", "corridor"]));
    assert!(mind.believes(&base, &f("at", &["player", "corridor"])));
}

#[test]
fn holds_finds_a_believed_fact_and_binds_its_argument() {
    let base = Baseline::new(vec![f("lies-toward", &["usb-stick", "north"])]);
    let mind = Mind::new("guard");
    let beliefs = mind.beliefs(&base);

    let answers = run(None, |q| {
        holds(
            &beliefs,
            Term::list(vec![Term::atom("lies-toward"), q, Term::atom("north")]),
        )
    });
    assert_eq!(answers, vec![Term::atom("usb-stick")]);
}

#[test]
fn a_mind_believing_nothing_concludes_nothing() {
    let beliefs: Vec<Fact> = Vec::new();
    let answers = run(None, |q| holds(&beliefs, q));
    assert!(answers.is_empty());
}
