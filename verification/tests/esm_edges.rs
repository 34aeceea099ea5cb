//! Edge cases of the solver, the beliefs, the reads and the forgetting.

use std::rc::Rc;

use slavia_core::esm::belief::{Baseline, Delta, Fact, Mind};
use slavia_core::esm::decay::{retained_instructions, Rng};
use slavia_core::esm::intent::{classify, Read};
use slavia_core::esm::kanren::{
    disj_any, eq, fail, fresh, run, succeed, unify, Subst, Term, Var,
};
use slavia_core::{Animal, Nature, Response, Taxis};

fn a(s: &str) -> Term {
    Term::atom(s)
}

fn f(pred: &str, args: &[&str]) -> Fact {
    Fact::new(pred, args)
}

#[test]
fn terms_render_variables_nil_and_dotted_tails() {
    assert_eq!(Term::Var(Var(3)).to_string(), "_3");
    assert_eq!(Term::Nil.to_string(), "()");
    assert_eq!(Term::list(vec![]).to_string(), "()");
    let dotted = Term::Pair(Rc::new(a("a")), Rc::new(a("b")));
    assert_eq!(dotted.to_string(), "(a . b)");
    let nested = Term::list(vec![a("x"), Term::list(vec![a("y"), a("z")])]);
    assert_eq!(nested.to_string(), "(x (y z))");
}

#[test]
fn a_cloned_term_equals_its_original() {
    let t = Term::list(vec![a("lies-toward"), a("chapel"), a("east")]);
    let u = t.clone();
    assert_eq!(t, u);
    assert_eq!(u.to_string(), "(lies-toward chapel east)");
    assert_eq!(a("north").as_atom(), Some("north"));
    assert_eq!(Term::Nil.as_atom(), None);
}

#[test]
fn two_variables_unified_walk_to_the_same_end() {
    let s = Subst::new();
    let x = Term::Var(Var(0));
    let y = Term::Var(Var(1));
    let s1 = unify(&x, &y, &s).unwrap();
    let s2 = unify(&y, &a("gate"), &s1).unwrap();
    assert_eq!(s2.walk(&x), a("gate"));
    assert_eq!(s2.reify(&Term::list(vec![x, y])), Term::list(vec![a("gate"), a("gate")]));
    // An unbound variable walks to itself.
    assert_eq!(s.walk(&Term::Var(Var(7))), Term::Var(Var(7)));
}

#[test]
fn succeed_keeps_and_fail_drops_the_state() {
    assert_eq!(run(None, |q| disj_any(vec![eq(q, a("a")), succeed()])).len(), 2);
    assert!(run(None, |_q| fail()).is_empty());
    assert!(run(None, |_q| disj_any(vec![])).is_empty());
    assert_eq!(run(Some(0), |q| eq(q, a("a"))), Vec::<Term>::new());
}

#[test]
fn nested_fresh_variables_stay_apart() {
    let answers = run(None, |q| {
        fresh(move |x| {
            let q = q.clone();
            fresh(move |y| {
                slavia_core::esm::kanren::conj_all(vec![
                    eq(x.clone(), a("left")),
                    eq(y.clone(), a("right")),
                    eq(q.clone(), Term::list(vec![x.clone(), y.clone()])),
                ])
            })
        })
    });
    assert_eq!(answers, vec![Term::list(vec![a("left"), a("right")])]);
}

#[test]
fn classify_ignores_non_atoms_and_duplicates() {
    let r = classify(vec![a("b"), Term::Var(Var(0)), a("a"), a("b"), Term::Nil]);
    assert_eq!(r, Read::Ambiguous(vec!["a".to_string(), "b".to_string()]));
    assert_eq!(classify(vec![a("x"), a("x")]), Read::Unified("x".to_string()));
    assert_eq!(classify(vec![Term::Var(Var(2))]), Read::Contradiction);
    assert_eq!(classify(vec![]), Read::Contradiction);
}

#[test]
fn a_baseline_holds_each_fact_once_in_order() {
    let b = Baseline::new(vec![
        f("lies-toward", &["well", "south"]),
        f("is-hiding-secret", &["hostage"]),
        f("lies-toward", &["well", "south"]),
    ]);
    assert_eq!(b.facts().len(), 2);
    assert_eq!(b.facts()[0], f("is-hiding-secret", &["hostage"]));
    assert_eq!(b.facts()[1], f("lies-toward", &["well", "south"]));
    assert!(b.contains(&f("is-hiding-secret", &["hostage"])));
    assert!(!b.contains(&f("is-hiding-secret", &["guard"])));
}

#[test]
fn unlearning_then_relearning_restores_a_belief() {
    let base = Baseline::new(vec![f("in-vault", &["artifact"])]);
    let mut m = Mind::new("boris");
    m.unlearn(f("in-vault", &["artifact"]));
    assert!(!m.believes(&base, &f("in-vault", &["artifact"])));
    assert!(m.beliefs(&base).is_empty());
    m.observe(Delta::Learned(f("in-vault", &["artifact"])));
    assert!(m.believes(&base, &f("in-vault", &["artifact"])));
    assert_eq!(m.deltas().len(), 2);
    assert_eq!(m.beliefs(&base), vec![f("in-vault", &["artifact"])]);
}

#[test]
fn beliefs_come_out_sorted() {
    let base = Baseline::new(vec![f("b", &[]), f("a", &["z"])]);
    let mut m = Mind::new("ivo");
    m.learn(f("a", &["y"]));
    assert_eq!(m.beliefs(&base), vec![f("a", &["y"]), f("a", &["z"]), f("b", &[])]);
}

#[test]
fn the_generator_follows_splitmix() {
    let mut r = Rng::seeded(0);
    assert_eq!(r.next_u64(), 0xE220_A839_7B1D_CDAF);
    let mut s = Rng::seeded(0);
    assert_eq!(s.below(0), 0);
    assert_eq!(s.below(1), 0);
    // below(0) drew nothing, so the next value is still the first of the sequence.
    let mut t = Rng::seeded(0);
    assert_eq!(t.below(0), 0);
    assert_eq!(t.next_u64(), 0xE220_A839_7B1D_CDAF);
}

#[test]
fn a_single_errand_is_never_forgotten() {
    let full = vec!["bar the door".to_string()];
    for seed in 0..20u64 {
        let mut rng = Rng::seeded(seed);
        assert_eq!(retained_instructions(1000, &full, &mut rng), full);
    }
}

#[test]
fn every_nature_but_the_natural_one_betrays_itself() {
    for nature in [
        Nature::Possessed,
        Nature::Corrupted,
        Nature::False,
        Nature::Enchanted,
        Nature::AfraidBeyond,
        Nature::Masking,
        Nature::RiftTouched,
    ] {
        assert!(!nature.is_natural());
        let animal = Animal {
            id: "x".to_string(),
            species: "crows".to_string(),
            nature,
            location: None,
        };
        assert_eq!(animal.respond(Some(Taxis::Raise), false), Response::Unnatural(nature));
        assert_eq!(animal.respond(None, true), Response::Disrupted);
    }
    assert!(Nature::Natural.is_natural());
}

#[test]
fn an_unattuned_girl_leaves_a_natural_animal_unmoved() {
    let animal = Animal {
        id: "deer".to_string(),
        species: "deer".to_string(),
        nature: Nature::Natural,
        location: None,
    };
    assert_eq!(animal.respond(None, false), Response::Unmoved);
    assert_eq!(animal.respond(Some(Taxis::Lower), false), Response::Settled);
    assert_eq!(animal.respond(Some(Taxis::Lower), true), Response::Disrupted);
}

fn splitmix(state: u64) -> u64 {
    let z = (state ^ (state >> 30)).wrapping_mul(0xBF58_476D_1CE4_E5B9);
    let z = (z ^ (z >> 27)).wrapping_mul(0x94D0_49BB_1331_11EB);
    z ^ (z >> 31)
}

#[test]
fn the_kth_draw_has_a_closed_form() {
    let gamma: u64 = 0x9E37_79B9_7F4A_7C15;
    let seed: u64 = 0xFFFF_FFFF_FFFF_FFF0;
    let mut r = Rng::seeded(seed);
    assert_eq!(r.next_u64(), splitmix(seed.wrapping_add(gamma)));
    assert_eq!(r.below(0), 0);
    assert_eq!(r.below(10), splitmix(seed.wrapping_add(gamma.wrapping_mul(2))) % 10);
    assert_eq!(r.next_u64(), splitmix(seed.wrapping_add(gamma.wrapping_mul(3))));
    let mut a = Rng::seeded(42);
    let mut b = Rng::seeded(42);
    for n in [0u64, 3, 7, 0, 100] {
        assert_eq!(a.below(n), b.below(n));
        assert_eq!(a.next_u64(), b.next_u64());
    }
}

#[test]
fn unifying_with_a_ground_term_keeps_old_bindings_and_resolves_to_it() {
    let s = unify(&Term::Var(Var(5)), &a("kept"), &Subst::new()).unwrap();
    let pattern = Term::list(vec![Term::Var(Var(0)), a("north"), Term::Var(Var(1))]);
    let ground = Term::list(vec![a("cellar"), a("north"), Term::list(vec![a("x")])]);
    let s2 = unify(&pattern, &ground, &s).unwrap();
    assert_eq!(s2.reify(&pattern), ground);
    assert_eq!(s2.reify(&ground), ground);
    assert_eq!(s2.walk(&Term::Var(Var(5))), a("kept"));
    assert_eq!(s2.reify(&s2.reify(&pattern)), s2.reify(&pattern));
}

#[test]
fn asking_for_one_of_some_ground_items_gives_them_back_in_order() {
    let items = vec![a("b"), a("a"), a("b"), Term::list(vec![a("c")])];
    let answers = run(None, |q| slavia_core::esm::kanren::membero(q, items.clone()));
    assert_eq!(answers, items);
}

#[test]
fn unifying_two_open_lists_makes_them_reify_alike() {
    let x = Term::Var(Var(0));
    let y = Term::Var(Var(1));
    let z = Term::Var(Var(2));
    let u = Term::list(vec![x.clone(), a("mid"), y.clone()]);
    let v = Term::list(vec![z.clone(), z.clone(), a("end")]);
    let s = unify(&u, &v, &Subst::new()).unwrap();
    assert_eq!(s.reify(&u), s.reify(&v));
    assert_eq!(s.reify(&u), Term::list(vec![a("mid"), a("mid"), a("end")]));
    // Terms that already agree leave the substitution as it was.
    let again = unify(&u, &v, &s).unwrap();
    assert_eq!(again.reify(&x), s.reify(&x));
}
