//! # Intent — what does this mind think the player is doing?
//!
//! **The number of solutions the solver returns *is* the confidence signal**,
//! and [`Read`] is just that count, named:
//!
//! | Answers | [`Read`] | What the guard does |
//! |---|---|---|
//! | many | [`Read::Ambiguous`] | Can't tell — covers a bottleneck serving all of them |
//! | one | [`Read::Unified`] | Certain — intercepts |
//! | zero | [`Read::Contradiction`] | *"Wait — I've been tricked!"* |
//!
//! A contradiction is not an error: it is the moment the NPC **discovers he
//! was deceived**, produced by the player actually deceiving him.
use vstd::prelude::*;
use vstd::string::*;

use super::belief::{
    believed, facts_v, fact_term, fact_terms, holds, holds_goal, Baseline, DeltaV, FactV, Mind,
};
use super::kanren::{
    answers, atom_bound, bind, conj, depth, disj_fold, eq_each, fresh_count, ground, inst,
    lemma_bind_members, lemma_disj_any_concatenates, lemma_unify_against_ground,
    lemma_walk_atom_bound, list_v, membero, reify, run, solve, solve_each, unify_spec, views, walk,
    Goal, GoalV, StateV, Term, TermV,
};
use crate::text::{insert_name, names_ascending, texts};

verus! {

broadcast use vstd::seq_lib::group_seq_properties;

/// A mind's reading of the player's intent — the solution count, named.
#[derive(Clone, Debug, PartialEq, Eq)]
pub enum Read {
    /// Zero solutions (`failo`). A prior assumption just broke.
    Contradiction,
    /// Exactly one solution. High confidence.
    Unified(String),
    /// Several solutions. Genuinely does not know which.
    ///
    /// Sorted and de-duplicated, so this is stable to compare and to display.
    Ambiguous(Vec<String>),
}

/// The texts of the atoms among `answers`.
pub open spec fn atom_names(answers: Seq<TermV>) -> Set<Seq<char>> {
    Set::new(|n: Seq<char>| exists|i: int| 0 <= i < answers.len() && answers[i] == TermV::Atom(n))
}

/// The read of a set of candidate names: none is a contradiction, exactly one
/// is unified on it, several are ambiguous between all of them, listed in
/// ascending order.
pub open spec fn read_of(r: Read, names: Set<Seq<char>>) -> bool {
    match r {
        Read::Contradiction => names == Set::<Seq<char>>::empty(),
        Read::Unified(n) => names == Set::<Seq<char>>::empty().insert(n@),
        Read::Ambiguous(v) => {
            &&& v.len() >= 2
            &&& names_ascending(texts(v@))
            &&& texts(v@).to_set() == names
        },
    }
}

/// Turn raw solver answers into a [`Read`].
///
/// Non-atom answers are dropped: an unbound or structured answer is not a
/// target name, and keeping it would fake a confidence we do not have.
/// De-duplicates, because several believed facts may point at the same target
/// and that is one candidate, not two.
pub fn classify(answers: Vec<Term>) -> (r: Read)
    ensures
        read_of(r, atom_names(views(answers@))),
{
    let ghost all = views(answers@);
    let mut names: Vec<String> = Vec::new();
    let mut i: usize = 0;
    proof {
        assert(texts(names@).to_set() =~= Set::<Seq<char>>::empty());
        assert(atom_names(all.take(0)) =~= Set::<Seq<char>>::empty());
    }
    while i < answers.len()
        invariant
            i <= answers.len(),
            all == views(answers@),
            names_ascending(texts(names@)),
            texts(names@).to_set() == atom_names(all.take(i as int)),
        decreases answers.len() - i,
    {
        let ghost prev = atom_names(all.take(i as int));
        assert(all[i as int] == answers@[i as int]@);
        match answers[i].as_atom() {
            Some(s) => {
                insert_name(&mut names, String::from_str(s));
                proof {
                    assert(atom_names(all.take(i + 1)) =~= prev.insert(s@)) by {
                        assert forall|n: Seq<char>| #[trigger] atom_names(all.take(i + 1)).contains(n)
                            == prev.insert(s@).contains(n) by {
                            if atom_names(all.take(i + 1)).contains(n) {
                                let k = choose|k: int| 0 <= k < all.take(i + 1).len() && #[trigger] all.take(i + 1)[k] == TermV::Atom(n);
                                if k < i {
                                    assert(all.take(i as int)[k] == TermV::Atom(n));
                                }
                            }
                            if prev.contains(n) {
                                let k = choose|k: int| 0 <= k < all.take(i as int).len() && #[trigger] all.take(i as int)[k] == TermV::Atom(n);
                                assert(all.take(i + 1)[k] == TermV::Atom(n));
                            }
                            if n == s@ {
                                assert(all.take(i + 1)[i as int] == TermV::Atom(n));
                            }
                        }
                    }
                }
            },
            None => {
                proof {
                    assert(atom_names(all.take(i + 1)) =~= prev) by {
                        assert forall|n: Seq<char>| #[trigger] atom_names(all.take(i + 1)).contains(n)
                            == prev.contains(n) by {
                            if atom_names(all.take(i + 1)).contains(n) {
                                let k = choose|k: int| 0 <= k < all.take(i + 1).len() && #[trigger] all.take(i + 1)[k] == TermV::Atom(n);
                                if k < i {
                                    assert(all.take(i as int)[k] == TermV::Atom(n));
                                }
                            }
                            if prev.contains(n) {
                                let k = choose|k: int| 0 <= k < all.take(i as int).len() && #[trigger] all.take(i as int)[k] == TermV::Atom(n);
                                assert(all.take(i + 1)[k] == TermV::Atom(n));
                            }
                        }
                    }
                }
            },
        }
        i = i + 1;
    }
    assert(all.take(answers.len() as int) =~= all);
    if names.len() == 0 {
        assert(texts(names@).to_set() =~= Set::<Seq<char>>::empty());
        Read::Contradiction
    } else if names.len() == 1 {
        let ghost t = texts(names@);
        assert(t.to_set() =~= Set::<Seq<char>>::empty().insert(t[0])) by {
            assert forall|x: Seq<char>| #[trigger] t.to_set().contains(x) == Set::<Seq<char>>::empty().insert(t[0]).contains(x) by {
                if t.contains(x) {
                    let k = choose|k: int| 0 <= k < t.len() && #[trigger] t[k] == x;
                }
            }
        }
        let n = names.remove(0);
        Read::Unified(n)
    } else {
        Read::Ambiguous(names)
    }
}

} // verus!

verus! {

/// The fact `(lies-toward target heading)`.
pub open spec fn lies_toward(target: Seq<char>, heading: Seq<char>) -> FactV {
    FactV { predicate: "lies-toward"@, args: seq![target, heading] }
}

/// The pattern `(lies-toward q heading)`.
pub open spec fn toward_pattern(q: TermV, heading: Seq<char>) -> TermV {
    list_v(seq![TermV::Atom("lies-toward"@), q, TermV::Atom(heading)])
}

pub open spec fn atoms_v(names: Seq<Seq<char>>) -> Seq<TermV> {
    names.map_values(|n: Seq<char>| TermV::Atom(n))
}

/// The question [`read_intent`] puts to the solver: `q` is one of the
/// candidates, and the mind believes `q` lies toward the heading.
pub open spec fn intent_goal(q: TermV, candidates: Seq<Seq<char>>, beliefs: Seq<FactV>, heading: Seq<char>) -> GoalV {
    GoalV::Conj(
        Box::new(disj_fold(eq_each(q, atoms_v(candidates)))),
        Box::new(holds_goal(beliefs, toward_pattern(q, heading))),
    )
}

/// The candidates the mind believes lie toward the heading.
pub open spec fn targets(candidates: Seq<Seq<char>>, beliefs: Set<FactV>, heading: Seq<char>) -> Set<Seq<char>> {
    Set::new(|c: Seq<char>| candidates.contains(c) && beliefs.contains(lies_toward(c, heading)))
}

/// Learning never narrows a read: every target a mind could read toward a
/// heading before it learned a fact it can still read after; and unlearning
/// a fact can only take targets away.
pub proof fn lemma_learning_never_narrows(
    base: Set<FactV>,
    ds: Seq<DeltaV>,
    f: FactV,
    candidates: Seq<Seq<char>>,
    heading: Seq<char>,
)
    ensures
        targets(candidates, believed(base, ds), heading).subset_of(
            targets(candidates, believed(base, ds.push(DeltaV::Learned(f))), heading),
        ),
        targets(candidates, believed(base, ds.push(DeltaV::Unlearned(f))), heading).subset_of(
            targets(candidates, believed(base, ds), heading),
        ),
{
    assert(ds.push(DeltaV::Learned(f)).drop_last() =~= ds);
    assert(ds.push(DeltaV::Unlearned(f)).drop_last() =~= ds);
}

/// The terms of the given atoms.
fn atoms_of(names: &[&str]) -> (v: Vec<Term>)
    ensures
        views(v@) == atoms_v(names@.map_values(|n: &str| n@)),
{
    let ghost want = atoms_v(names@.map_values(|n: &str| n@));
    let mut v: Vec<Term> = Vec::new();
    let mut i: usize = 0;
    while i < names.len()
        invariant
            i <= names.len(),
            want == atoms_v(names@.map_values(|n: &str| n@)),
            views(v@) == want.take(i as int),
        decreases names.len() - i,
    {
        let ghost before = v@;
        v.push(Term::atom(names[i]));
        proof {
            assert(views(before).len() == before.len());
            assert forall|j: int| 0 <= j < i + 1 implies #[trigger] views(v@)[j] == want.take(i + 1)[j] by {
                if j < i {
                    assert(v@[j] == before[j]);
                    assert(views(before)[j] == want.take(i as int)[j]);
                }
            }
            assert(views(v@) =~= want.take(i + 1));
        }
        i = i + 1;
    }
    assert(want.take(names.len() as int) =~= want);
    v
}

/// Which of `candidates` does `mind` consider consistent with the player
/// heading `heading`?
///
/// Reasons **only** from what `mind` believes — from facts of the form
/// `(lies-toward <target> <heading>)`. A guard who has never learned which
/// way the vault lies cannot deduce you are going there, and that asymmetry is
/// the feature. The `lies-toward` facts are content supplied by the scene.
pub fn read_intent(mind: &Mind, baseline: &Baseline, heading: &str, candidates: &[&str]) -> (r: Read)
    ensures
        read_of(r, targets(candidates@.map_values(|c: &str| c@), mind.belief_set(baseline@), heading@)),
{
    let beliefs = mind.beliefs(baseline);
    let ghost bv = facts_v(beliefs@);
    let ghost cv = candidates@.map_values(|c: &str| c@);
    let ghost hv = heading@;
    let goal_for = |q: Term| -> (g: Goal)
        ensures
            g@ == intent_goal(q@, candidates@.map_values(|c: &str| c@), facts_v(beliefs@), heading@),
        {
            let cands = atoms_of(candidates);
            let lt = Term::atom("lies-toward");
            let at = Term::atom(heading);
            let ghost qv = q@;
            let items = vec![lt, q.clone(), at];
            proof {
                reveal_strlit("lies-toward");
                assert(views(items@) =~= seq![TermV::Atom("lies-toward"@), qv, TermV::Atom(heading@)]);
            }
            let pat = Term::list(items);
            conj(membero(q, cands), holds(&beliefs, pat))
        };
    proof {
        assert forall|t: Term, g: Goal| goal_for.ensures((t,), g) implies 1 + fresh_count(g@) <= usize::MAX by {
            lemma_intent_goal_no_fresh(t@, cv, bv, hv);
        }
    }
    let answers = run(None, goal_for);
    proof {
        lemma_intent_names(cv, bv, hv);
    }
    classify(answers)
}

proof fn lemma_disj_fold_no_fresh(gs: Seq<GoalV>)
    requires
        forall|i: int| 0 <= i < gs.len() ==> #[trigger] gs[i] is Eq,
    ensures
        fresh_count(disj_fold(gs)) == 0,
    decreases gs.len(),
{
    if gs.len() > 0 {
        lemma_disj_fold_no_fresh(gs.drop_last());
        assert(gs[gs.len() - 1] is Eq);
        assert(fresh_count(gs.last()) == 0);
    }
}

proof fn lemma_intent_goal_no_fresh(q: TermV, cv: Seq<Seq<char>>, bv: Seq<FactV>, hv: Seq<char>)
    ensures
        fresh_count(intent_goal(q, cv, bv, hv)) == 0,
{
    lemma_disj_fold_no_fresh(eq_each(q, atoms_v(cv)));
    lemma_disj_fold_no_fresh(eq_each(toward_pattern(q, hv), fact_terms(bv)));
}

/// The state in which the query variable is bound to the atom `c`.
pub open spec fn bound_to(c: Seq<char>) -> StateV {
    StateV { subst: Map::<usize, TermV>::empty().insert(0, TermV::Atom(c)), next: 1 }
}

pub open spec fn start() -> StateV {
    StateV { subst: Map::<usize, TermV>::empty(), next: 1 }
}

/// Choosing among candidate atoms yields one state per candidate, binding the
/// query variable to it.
proof fn lemma_choose_candidate(items: Seq<Seq<char>>)
    ensures
        solve_each(eq_each(TermV::Var(0), atoms_v(items)), start()) == items.map_values(|c: Seq<char>| bound_to(c)),
    decreases items.len(),
{
    let gs = eq_each(TermV::Var(0), atoms_v(items));
    if items.len() > 0 {
        let p = items.drop_last();
        lemma_choose_candidate(p);
        assert(gs.drop_last() =~= eq_each(TermV::Var(0), atoms_v(p)));
        let c = items.last();
        assert(gs.last() == GoalV::Eq(TermV::Var(0), TermV::Atom(c)));
        let e = Map::<usize, TermV>::empty();
        assert(e.dom() =~= Set::<usize>::empty());
        assert(walk(e, TermV::Var(0)) == TermV::Var(0));
        assert(walk(e, TermV::Atom(c)) == TermV::Atom(c));
        assert(unify_spec(TermV::Var(0), TermV::Atom(c), e) == Some(e.insert(0, TermV::Atom(c))));
        assert(solve(gs.last(), start()) =~= seq![bound_to(c)]);
        assert(items.map_values(|c: Seq<char>| bound_to(c)) =~= p.map_values(|c: Seq<char>| bound_to(c)).push(bound_to(c)));
    } else {
        assert(items.map_values(|c: Seq<char>| bound_to(c)) =~= Seq::<StateV>::empty());
    }
}

proof fn lemma_list3(a: TermV, b: TermV, c: TermV)
    ensures
        list_v(seq![a, b, c]) == TermV::Pair(
            Box::new(a),
            Box::new(TermV::Pair(Box::new(b), Box::new(TermV::Pair(Box::new(c), Box::new(TermV::Nil))))),
        ),
{
    assert(seq![a, b, c].drop_first() =~= seq![b, c]);
    assert(seq![b, c].drop_first() =~= seq![c]);
    assert(seq![c].drop_first() =~= Seq::<TermV>::empty());
    assert(list_v(Seq::<TermV>::empty()) == TermV::Nil);
    assert(list_v(seq![c]) == TermV::Pair(Box::new(c), Box::new(TermV::Nil)));
    assert(list_v(seq![b, c]) == TermV::Pair(Box::new(b), Box::new(list_v(seq![c]))));
}

proof fn lemma_list_v_injective(a: Seq<TermV>, b: Seq<TermV>)
    requires
        list_v(a) == list_v(b),
    ensures
        a == b,
    decreases a.len(),
{
    if a.len() > 0 && b.len() > 0 {
        lemma_list_v_injective(a.drop_first(), b.drop_first());
        assert(a =~= seq![a[0]] + a.drop_first());
        assert(b =~= seq![b[0]] + b.drop_first());
    } else {
        assert(a =~= b);
    }
}

proof fn lemma_list_v_ground(a: Seq<TermV>)
    requires
        forall|i: int| 0 <= i < a.len() ==> ground(#[trigger] a[i]),
    ensures
        ground(list_v(a)),
    decreases a.len(),
{
    if a.len() > 0 {
        lemma_list_v_ground(a.drop_first());
    }
}

/// A fact's term is `(lies-toward c h)` exactly when the fact is.
proof fn lemma_fact_term_toward(f: FactV, c: Seq<char>, h: Seq<char>)
    ensures
        (fact_term(f) == list_v(seq![TermV::Atom("lies-toward"@), TermV::Atom(c), TermV::Atom(h)]))
            == (f == lies_toward(c, h)),
{
    let items = seq![TermV::Atom(f.predicate)] + f.args.map_values(|a: Seq<char>| TermV::Atom(a));
    let want = seq![TermV::Atom("lies-toward"@), TermV::Atom(c), TermV::Atom(h)];
    if fact_term(f) == list_v(want) {
        lemma_list_v_injective(items, want);
        assert(items[0] == want[0]);
        assert(items.len() == 3);
        assert(f.args.len() == 2);
        assert(items[1] == TermV::Atom(f.args[0]));
        assert(items[2] == TermV::Atom(f.args[1]));
        assert(f.args =~= seq![c, h]);
    }
    if f == lies_toward(c, h) {
        assert(items =~= want);
    }
}

/// Asking whether a mind believes `(lies-toward c heading)` of a state that
/// binds the query to `c` keeps that state once per matching fact, and only
/// that state.
proof fn lemma_holds_toward(bv: Seq<FactV>, c: Seq<char>, h: Seq<char>)
    ensures
        forall|k: int|
            0 <= k < solve_each(
                eq_each(toward_pattern(TermV::Var(0), h), fact_terms(bv)),
                bound_to(c),
            ).len() ==> #[trigger] solve_each(
                eq_each(toward_pattern(TermV::Var(0), h), fact_terms(bv)),
                bound_to(c),
            )[k] == bound_to(c),
        (solve_each(
            eq_each(toward_pattern(TermV::Var(0), h), fact_terms(bv)),
            bound_to(c),
        ).len() > 0) == bv.contains(lies_toward(c, h)),
    decreases bv.len(),
{
    let pat = toward_pattern(TermV::Var(0), h);
    let gs = eq_each(pat, fact_terms(bv));
    let r = solve_each(gs, bound_to(c));
    if bv.len() == 0 {
        assert(!bv.contains(lies_toward(c, h)));
    } else {
        let p = bv.drop_last();
        lemma_holds_toward(p, c, h);
        let gp = eq_each(pat, fact_terms(p));
        assert(gs.drop_last() =~= gp);
        let f = bv.last();
        assert(gs.last() == GoalV::Eq(pat, fact_term(f)));
        let sc = bound_to(c).subst;
        assert(sc.dom() =~= set![0usize]);
        // The pattern's only variable is bound to an atom.
        lemma_list3(TermV::Atom("lies-toward"@), TermV::Var(0), TermV::Atom(h));
        lemma_list3(TermV::Atom("lies-toward"@), TermV::Atom(c), TermV::Atom(h));
        assert(sc.contains_key(0) && sc[0] == TermV::Atom(c));
        assert(atom_bound(sc, pat)) by {
            reveal_with_fuel(atom_bound, 4);
        }
        assert(inst(sc, pat) == list_v(seq![TermV::Atom("lies-toward"@), TermV::Atom(c), TermV::Atom(h)])) by {
            reveal_with_fuel(inst, 4);
        }
        assert(depth(pat) <= usize::MAX) by {
            reveal_with_fuel(depth, 4);
        }
        let fitems = seq![TermV::Atom(f.predicate)] + f.args.map_values(|a: Seq<char>| TermV::Atom(a));
        lemma_list_v_ground(fitems);
        lemma_unify_against_ground(pat, fact_term(f), sc, usize::MAX as nat);
        lemma_fact_term_toward(f, c, h);
        let last = solve(gs.last(), bound_to(c));
        assert(r == solve_each(gp, bound_to(c)) + last);
        if f == lies_toward(c, h) {
            assert(last =~= seq![bound_to(c)]);
            assert(bv.contains(lies_toward(c, h))) by {
                assert(bv[bv.len() - 1] == f);
            }
        } else {
            assert(last =~= Seq::<StateV>::empty());
            assert(bv.contains(lies_toward(c, h)) == p.contains(lies_toward(c, h))) by {
                if bv.contains(lies_toward(c, h)) {
                    let k = choose|k: int| 0 <= k < bv.len() && #[trigger] bv[k] == lies_toward(c, h);
                    assert(k != bv.len() - 1);
                    assert(p[k] == bv[k]);
                }
                if p.contains(lies_toward(c, h)) {
                    let k = choose|k: int| 0 <= k < p.len() && #[trigger] p[k] == lies_toward(c, h);
                    assert(bv[k] == p[k]);
                }
            }
        }
        let rp = solve_each(gp, bound_to(c));
        assert forall|k: int| 0 <= k < r.len() implies #[trigger] r[k] == bound_to(c) by {
            if k < rp.len() {
                assert(r[k] == rp[k]);
            } else {
                assert(r[k] == last[k - rp.len()]);
            }
        }
    }
}

/// The names in what [`read_intent`] asks the solver are exactly the
/// candidates the mind believes lie toward the heading.
proof fn lemma_intent_names(cv: Seq<Seq<char>>, bv: Seq<FactV>, h: Seq<char>)
    ensures
        atom_names(answers(intent_goal(TermV::Var(0), cv, bv, h), None)) == targets(cv, bv.to_set(), h),
{
    let g = intent_goal(TermV::Var(0), cv, bv, h);
    let m = disj_fold(eq_each(TermV::Var(0), atoms_v(cv)));
    let hg = holds_goal(bv, toward_pattern(TermV::Var(0), h));
    lemma_disj_any_concatenates(eq_each(TermV::Var(0), atoms_v(cv)), start());
    lemma_choose_candidate(cv);
    let states = cv.map_values(|c: Seq<char>| bound_to(c));
    assert(solve(m, start()) == states);
    let b = bind(states, hg);
    assert(solve(g, start()) == b);
    lemma_bind_members(states, hg);
    let ans = b.map_values(|s: StateV| reify(s.subst, TermV::Var(0)));
    assert(answers(g, None) == ans);
    let alts = eq_each(toward_pattern(TermV::Var(0), h), fact_terms(bv));
    assert forall|c: Seq<char>| #[trigger] solve(hg, bound_to(c)) == solve_each(alts, bound_to(c)) by {
        lemma_disj_any_concatenates(alts, bound_to(c));
    }
    assert forall|c: Seq<char>| #[trigger] reify(bound_to(c).subst, TermV::Var(0)) == TermV::Atom(c) by {
        let sc = bound_to(c).subst;
        assert(sc.dom() =~= set![0usize]);
        lemma_walk_atom_bound(sc, TermV::Var(0));
    }
    assert forall|n: Seq<char>| #[trigger] atom_names(ans).contains(n) == targets(cv, bv.to_set(), h).contains(n) by {
        if atom_names(ans).contains(n) {
            let k = choose|k: int| 0 <= k < ans.len() && ans[k] == TermV::Atom(n);
            assert(b.contains(b[k]));
            let i = choose|i: int| 0 <= i < states.len() && #[trigger] solve(hg, states[i]).contains(b[k]);
            let c = cv[i];
            assert(states[i] == bound_to(c));
            lemma_holds_toward(bv, c, h);
            let r = solve(hg, bound_to(c));
            let mm = choose|mm: int| 0 <= mm < r.len() && #[trigger] r[mm] == b[k];
            assert(b[k] == bound_to(c));
            assert(ans[k] == TermV::Atom(c));
            assert(n == c);
            assert(cv.contains(c));
        }
        if targets(cv, bv.to_set(), h).contains(n) {
            let i = choose|i: int| 0 <= i < cv.len() && cv[i] == n;
            lemma_holds_toward(bv, n, h);
            let r = solve(hg, bound_to(n));
            assert(r.len() > 0);
            assert(r[0] == bound_to(n));
            assert(states[i] == bound_to(n));
            assert(solve(hg, states[i]).contains(bound_to(n)));
            assert(b.contains(bound_to(n)));
            let k = choose|k: int| 0 <= k < b.len() && b[k] == bound_to(n);
            assert(ans[k] == TermV::Atom(n));
        }
    }
    assert(atom_names(ans) =~= targets(cv, bv.to_set(), h));
}

} // verus!
