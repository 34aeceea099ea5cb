//! The relational solver: unify / fresh / conj / disj / run.

use slavia_core::esm::kanren::{
    conj, conj_all, eq, fresh, membero, run, succeed, unify, Subst, Term,
};

fn a(s: &str) -> Term {
    Term::atom(s)
}

#[test]
fn an_atom_unifies_only_with_itself() {
    let s = Subst::new();
    assert!(unify(&a("north"), &a("north"), &s).is_some());
    assert!(unify(&a("north"), &a("south"), &s).is_none());
}

#[test]
fn a_variable_takes_the_value_it_is_unified_with() {
    let answers = run(None, |q| eq(q, a("usb-stick")));
    assert_eq!(answers, vec![a("usb-stick")]);
}

#[test]
fn unification_is_structural_through_lists() {
    // (lies-toward ?x north) against (lies-toward usb-stick north) binds ?x.
    let answers = run(None, |q| {
        eq(
            Term::list(vec![a("lies-toward"), q, a("north")]),
            Term::list(vec![a("lies-toward"), a("usb-stick"), a("north")]),
        )
    });
    assert_eq!(answers, vec![a("usb-stick")]);
}

#[test]
fn a_mismatch_anywhere_in_the_structure_fails_the_whole_unification() {
    let answers = run(None, |q| {
        eq(
            Term::list(vec![a("lies-toward"), q, a("north")]),
            Term::list(vec![a("lies-toward"), a("usb-stick"), a("south")]),
        )
    });
    assert!(
        answers.is_empty(),
        "south != north must fail the list unify"
    );
}

#[test]
fn conj_narrows_and_disj_widens() {
    // One answer: the two constraints agree only on "b".
    let unified = run(None, |q| {
        conj(
            membero(q.clone(), vec![a("a"), a("b")]),
            membero(q, vec![a("b"), a("c")]),
        )
    });
    assert_eq!(unified, vec![a("b")]);

    // Three answers: alternatives accumulate.
    let ambiguous = run(None, |q| membero(q, vec![a("a"), a("b"), a("c")]));
    assert_eq!(ambiguous.len(), 3);
}

#[test]
fn contradictory_constraints_yield_no_answers_at_all() {
    let none = run(None, |q| conj(eq(q.clone(), a("a")), eq(q, a("b"))));
    assert!(none.is_empty());
}

#[test]
fn a_variable_bound_transitively_still_walks_to_ground() {
    // q = x, x = north  =>  q reifies to north.
    let answers = run(None, |q| {
        fresh(move |x| conj(eq(q.clone(), x.clone()), eq(x, a("north"))))
    });
    assert_eq!(answers, vec![a("north")]);
}

#[test]
fn fresh_variables_do_not_collide() {
    // Two independent fresh vars must not be forced equal to each other.
    let answers = run(None, |q| {
        fresh(move |x| {
            let q = q.clone();
            fresh(move |y| {
                conj_all(vec![
                    eq(x.clone(), a("one")),
                    eq(y.clone(), a("two")),
                    eq(q.clone(), Term::list(vec![x.clone(), y])),
                ])
            })
        })
    });
    assert_eq!(answers, vec![Term::list(vec![a("one"), a("two")])]);
}

#[test]
fn limit_caps_the_answers() {
    let two = run(Some(2), |q| membero(q, vec![a("a"), a("b"), a("c")]));
    assert_eq!(two.len(), 2);
}

#[test]
fn reify_renders_as_the_design_docs_write_it() {
    let t = Term::list(vec![a("is-hiding-secret"), a("hostage")]);
    assert_eq!(t.to_string(), "(is-hiding-secret hostage)");
}

#[test]
fn an_unbound_query_reports_as_a_variable_not_a_lie() {
    let answers = run(None, |_q| succeed());
    assert_eq!(answers.len(), 1);
    assert!(
        matches!(answers[0], Term::Var(_)),
        "unbound must stay visible"
    );
}
