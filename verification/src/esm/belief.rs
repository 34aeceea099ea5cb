//! # Belief — global baseline plus per-entity deltas
//!
//! One [`Baseline`] of facts that are simply true of the world, plus, per
//! entity, a list of [`Delta`]s — the deviations *that entity actually
//! acquired*, by seeing, hearing, or being told.
//!
//! ```text
//! belief(entity) = baseline + entity's own deltas
//! ```
//!
//! And nothing else. Two guards in the same room may hold contradictory
//! beliefs; that is the design working. Asymmetric memory simply *is*
//! per-entity deltas: a [`Mind`] is private.
//!
//! Baseline contents and a mind's starting deltas are *content*, supplied by
//! the scene; nothing here enumerates a specific fact.
use vstd::prelude::*;
use vstd::string::*;

use super::kanren::{
    disj_any, disj_fold, eq, eq_each, goals_v, list_v, views, Goal, GoalV, Term, TermV,
};
use crate::text::{chars_lt, compare_strings, lemma_chars_lt_irreflexive, lemma_chars_lt_transitive,
    lemma_chars_lt_trichotomy, Cmp};

verus! {

broadcast use vstd::seq_lib::group_seq_properties;

/// A single proposition: a predicate applied to ground arguments.
///
/// `Fact::new("is-hiding-secret", &["hostage"])` is `(is-hiding-secret hostage)`.
#[derive(Debug, PartialEq, Eq, PartialOrd, Ord, Hash)]
pub struct Fact {
    pub predicate: String,
    pub args: Vec<String>,
}

/// The mathematical value of a [`Fact`].
pub struct FactV {
    pub predicate: Seq<char>,
    pub args: Seq<Seq<char>>,
}

pub open spec fn strings_v(ss: Seq<String>) -> Seq<Seq<char>> {
    ss.map_values(|s: String| s@)
}

impl View for Fact {
    type V = FactV;

    open spec fn view(&self) -> FactV {
        FactV { predicate: self.predicate@, args: strings_v(self.args@) }
    }
}

pub open spec fn facts_v(fs: Seq<Fact>) -> Seq<FactV> {
    fs.map_values(|f: Fact| f@)
}

/// The solver term of a fact: the proper list `(predicate arg…)` of atoms.
pub open spec fn fact_term(f: FactV) -> TermV {
    list_v(seq![TermV::Atom(f.predicate)] + f.args.map_values(|a: Seq<char>| TermV::Atom(a)))
}

// ---------------------------------------------------------------------------
// The order facts are kept in
// ---------------------------------------------------------------------------

/// Lexicographic order on argument lists, element by element.
pub open spec fn args_lt(a: Seq<Seq<char>>, b: Seq<Seq<char>>) -> bool
    decreases a.len(),
{
    if a.len() == 0 {
        b.len() > 0
    } else if b.len() == 0 {
        false
    } else if a[0] != b[0] {
        chars_lt(a[0], b[0])
    } else {
        args_lt(a.drop_first(), b.drop_first())
    }
}

/// Facts are ordered by predicate, then by arguments — the order of a sorted
/// set of facts.
pub open spec fn fact_lt(a: FactV, b: FactV) -> bool {
    chars_lt(a.predicate, b.predicate) || (a.predicate == b.predicate && args_lt(a.args, b.args))
}

/// Strictly ascending: sorted, with nothing twice.
pub open spec fn ascending(s: Seq<FactV>) -> bool {
    forall|i: int, j: int| 0 <= i < j < s.len() ==> fact_lt(#[trigger] s[i], #[trigger] s[j])
}

proof fn lemma_args_lt_order(a: Seq<Seq<char>>, b: Seq<Seq<char>>)
    ensures
        a == b || args_lt(a, b) || args_lt(b, a),
        !(args_lt(a, b) && args_lt(b, a)),
        !args_lt(a, a),
    decreases a.len(),
{
    if a.len() > 0 && b.len() > 0 {
        lemma_args_lt_order(a.drop_first(), b.drop_first());
        lemma_chars_lt_trichotomy(a[0], b[0]);
        if a[0] == b[0] && a.drop_first() == b.drop_first() {
            assert(a =~= b) by {
                assert forall|i: int| 0 <= i < a.len() implies a[i] == b[i] by {
                    if i > 0 {
                        assert(a[i] == a.drop_first()[i - 1]);
                        assert(b[i] == b.drop_first()[i - 1]);
                    }
                }
            }
        }
    } else if a.len() == 0 && b.len() == 0 {
        assert(a =~= b);
    }
    if a.len() > 0 {
        lemma_args_lt_order(a.drop_first(), a.drop_first());
    }
}

proof fn lemma_args_lt_transitive(a: Seq<Seq<char>>, b: Seq<Seq<char>>, c: Seq<Seq<char>>)
    requires
        args_lt(a, b),
        args_lt(b, c),
    ensures
        args_lt(a, c),
    decreases a.len(),
{
    if a.len() > 0 && b.len() > 0 && c.len() > 0 {
        if a[0] == b[0] && b[0] == c[0] {
            lemma_args_lt_transitive(a.drop_first(), b.drop_first(), c.drop_first());
        } else if a[0] == b[0] {
            assert(chars_lt(b[0], c[0]));
        } else if b[0] == c[0] {
            assert(chars_lt(a[0], b[0]));
        } else {
            lemma_chars_lt_transitive(a[0], b[0], c[0]);
            if a[0] == c[0] {
                lemma_chars_lt_trichotomy(a[0], b[0]);
            }
        }
    }
}

/// `fact_lt` is a strict total order.
pub proof fn lemma_fact_lt_order(a: FactV, b: FactV)
    ensures
        a == b || fact_lt(a, b) || fact_lt(b, a),
        !(fact_lt(a, b) && fact_lt(b, a)),
        !fact_lt(a, a),
{
    lemma_chars_lt_trichotomy(a.predicate, b.predicate);
    lemma_chars_lt_irreflexive(a.predicate);
    lemma_args_lt_order(a.args, b.args);
    lemma_args_lt_order(a.args, a.args);
}

pub proof fn lemma_fact_lt_transitive(a: FactV, b: FactV, c: FactV)
    requires
        fact_lt(a, b),
        fact_lt(b, c),
    ensures
        fact_lt(a, c),
{
    if chars_lt(a.predicate, b.predicate) && chars_lt(b.predicate, c.predicate) {
        lemma_chars_lt_transitive(a.predicate, b.predicate, c.predicate);
    } else if a.predicate == b.predicate && b.predicate == c.predicate {
        lemma_args_lt_transitive(a.args, b.args, c.args);
    }
}

/// Compare two facts in the order they are kept in.
pub fn compare_facts(a: &Fact, b: &Fact) -> (c: Cmp)
    ensures
        (c == Cmp::Less) == fact_lt(a@, b@),
        (c == Cmp::Equal) == (a@ == b@),
        (c == Cmp::Greater) == fact_lt(b@, a@),
{
    proof {
        lemma_fact_lt_order(a@, b@);
    }
    match compare_strings(&a.predicate, &b.predicate) {
        Cmp::Less => return Cmp::Less,
        Cmp::Greater => return Cmp::Greater,
        Cmp::Equal => {},
    }
    let ghost x = strings_v(a.args@);
    let ghost y = strings_v(b.args@);
    assert(x.subrange(0, x.len() as int) =~= x);
    assert(y.subrange(0, y.len() as int) =~= y);
    let mut i: usize = 0;
    while i < a.args.len() && i < b.args.len()
        invariant
            a.predicate@ == b.predicate@,
            x == strings_v(a.args@),
            y == strings_v(b.args@),
            i <= a.args.len(),
            i <= b.args.len(),
            x.subrange(0, i as int) == y.subrange(0, i as int),
            args_lt(x, y) == args_lt(x.subrange(i as int, x.len() as int), y.subrange(i as int, y.len() as int)),
            args_lt(y, x) == args_lt(y.subrange(i as int, y.len() as int), x.subrange(i as int, x.len() as int)),
        decreases a.args.len() - i,
    {
        let ghost xs = x.subrange(i as int, x.len() as int);
        let ghost ys = y.subrange(i as int, y.len() as int);
        assert(xs[0] == a.args@[i as int]@);
        assert(ys[0] == b.args@[i as int]@);
        match compare_strings(&a.args[i], &b.args[i]) {
            Cmp::Less => {
                proof {
                    lemma_chars_lt_trichotomy(xs[0], ys[0]);
                    assert(xs[0] != ys[0]);
                    assert(args_lt(xs, ys));
                    assert(!args_lt(ys, xs));
                    assert(fact_lt(a@, b@));
                    lemma_chars_lt_irreflexive(b@.predicate);
                    assert(!fact_lt(b@, a@));
                }
                return Cmp::Less;
            },
            Cmp::Greater => {
                proof {
                    lemma_chars_lt_trichotomy(xs[0], ys[0]);
                    assert(xs[0] != ys[0]);
                    assert(args_lt(ys, xs));
                    assert(!args_lt(xs, ys));
                    assert(fact_lt(b@, a@));
                    lemma_chars_lt_irreflexive(b@.predicate);
                    assert(!fact_lt(a@, b@));
                }
                return Cmp::Greater;
            },
            Cmp::Equal => {},
        }
        proof {
            assert(xs.drop_first() =~= x.subrange(i + 1, x.len() as int));
            assert(ys.drop_first() =~= y.subrange(i + 1, y.len() as int));
            assert(x.subrange(0, i + 1) =~= x.subrange(0, i as int).push(xs[0]));
            assert(y.subrange(0, i + 1) =~= y.subrange(0, i as int).push(ys[0]));
        }
        i = i + 1;
    }
    proof {
        if a.args.len() == b.args.len() {
            assert(x =~= x.subrange(0, i as int));
            assert(y =~= y.subrange(0, i as int));
        }
        if a.args.len() < b.args.len() {
            assert(x.subrange(i as int, x.len() as int).len() == 0);
        }
        if a.args.len() > b.args.len() {
            assert(y.subrange(i as int, y.len() as int).len() == 0);
        }
    }
    if a.args.len() < b.args.len() {
        Cmp::Less
    } else if a.args.len() == b.args.len() {
        Cmp::Equal
    } else {
        Cmp::Greater
    }
}

impl Clone for Fact {
    fn clone(&self) -> (r: Self)
        ensures
            r@ == self@,
    {
        let mut args: Vec<String> = Vec::new();
        let mut i: usize = 0;
        while i < self.args.len()
            invariant
                i <= self.args.len(),
                strings_v(args@) == strings_v(self.args@).take(i as int),
            decreases self.args.len() - i,
        {
            let ghost before = args@;
            args.push(self.args[i].clone());
            proof {
                assert(strings_v(before).len() == before.len());
                assert forall|j: int| 0 <= j < i + 1 implies #[trigger] strings_v(args@)[j]
                    == strings_v(self.args@).take(i + 1)[j] by {
                    if j < i {
                        assert(args@[j] == before[j]);
                        assert(strings_v(before)[j] == strings_v(self.args@).take(i as int)[j]);
                    }
                }
                assert(strings_v(args@) =~= strings_v(self.args@).take(i + 1));
            }
            i = i + 1;
        }
        assert(strings_v(self.args@).take(self.args.len() as int) =~= strings_v(self.args@));
        Fact { predicate: self.predicate.clone(), args }
    }
}

impl Fact {
    /// A fact: `predicate` applied to `args`.
    pub fn new(predicate: &str, args: &[&str]) -> (f: Fact)
        ensures
            f@.predicate == predicate@,
            f@.args == args@.map_values(|a: &str| a@),
    {
        let ghost want = args@.map_values(|a: &str| a@);
        let mut v: Vec<String> = Vec::new();
        let mut i: usize = 0;
        while i < args.len()
            invariant
                i <= args.len(),
                want == args@.map_values(|a: &str| a@),
                strings_v(v@) == want.take(i as int),
            decreases args.len() - i,
        {
            let ghost before = v@;
            v.push(String::from_str(args[i]));
            proof {
                assert(strings_v(before).len() == before.len());
                assert forall|j: int| 0 <= j < i + 1 implies #[trigger] strings_v(v@)[j] == want.take(i + 1)[j] by {
                    if j < i {
                        assert(v@[j] == before[j]);
                        assert(strings_v(before)[j] == want.take(i as int)[j]);
                    }
                }
                assert(strings_v(v@) =~= want.take(i + 1));
            }
            i = i + 1;
        }
        assert(want.take(args.len() as int) =~= want);
        Fact { predicate: String::from_str(predicate), args: v }
    }

    /// As a solver term: a proper list `(predicate arg…)`.
    pub fn to_term(&self) -> (t: Term)
        ensures
            t@ == fact_term(self@),
    {
        let ghost want = seq![TermV::Atom(self@.predicate)] + self@.args.map_values(|a: Seq<char>| TermV::Atom(a));
        let mut items: Vec<Term> = Vec::new();
        items.push(Term::atom(self.predicate.as_str()));
        let mut i: usize = 0;
        while i < self.args.len()
            invariant
                i <= self.args.len(),
                want == seq![TermV::Atom(self@.predicate)] + self@.args.map_values(|a: Seq<char>| TermV::Atom(a)),
                views(items@) == want.take(i + 1),
            decreases self.args.len() - i,
        {
            let ghost before = items@;
            items.push(Term::atom(self.args[i].as_str()));
            proof {
                assert(views(before).len() == before.len());
                assert(want[i + 1] == TermV::Atom(self@.args[i as int]));
                assert forall|j: int| 0 <= j < i + 2 implies #[trigger] views(items@)[j] == want.take(i + 2)[j] by {
                    if j < i + 1 {
                        assert(items@[j] == before[j]);
                        assert(views(before)[j] == want.take(i + 1)[j]);
                    }
                }
                assert(views(items@) =~= want.take(i + 2));
            }
            i = i + 1;
        }
        assert(want.take(self.args.len() + 1) =~= want);
        Term::list(items)
    }
}

} // verus!

verus! {

// ---------------------------------------------------------------------------
// Ascending fact lists as sets
// ---------------------------------------------------------------------------

/// An independent copy of a list of facts.
pub fn copy_facts(v: &Vec<Fact>) -> (r: Vec<Fact>)
    ensures
        facts_v(r@) == facts_v(v@),
{
    let mut r: Vec<Fact> = Vec::new();
    let mut i: usize = 0;
    while i < v.len()
        invariant
            i <= v.len(),
            facts_v(r@) == facts_v(v@).take(i as int),
        decreases v.len() - i,
    {
        let ghost before = r@;
        r.push(v[i].clone());
        proof {
            assert(facts_v(before).len() == before.len());
            assert forall|j: int| 0 <= j < i + 1 implies #[trigger] facts_v(r@)[j] == facts_v(v@).take(i + 1)[j] by {
                if j < i {
                    assert(r@[j] == before[j]);
                    assert(facts_v(before)[j] == facts_v(v@).take(i as int)[j]);
                }
            }
            assert(facts_v(r@) =~= facts_v(v@).take(i + 1));
        }
        i = i + 1;
    }
    assert(facts_v(v@).take(v.len() as int) =~= facts_v(v@));
    r
}

/// Add `f` to an ascending list, keeping it ascending.
fn insert_fact(v: &mut Vec<Fact>, f: Fact)
    requires
        ascending(facts_v(old(v)@)),
    ensures
        ascending(facts_v(final(v)@)),
        facts_v(final(v)@).to_set() == facts_v(old(v)@).to_set().insert(f@),
{
    let ghost old_s = facts_v(v@);
    let mut i: usize = 0;
    let mut stop = false;
    while i < v.len() && !stop
        invariant
            i <= v.len(),
            old_s == facts_v(v@),
            ascending(old_s),
            forall|j: int| 0 <= j < i ==> fact_lt(#[trigger] old_s[j], f@),
            stop ==> i < v.len() && fact_lt(f@, old_s[i as int]),
        decreases v.len() - i, if stop { 0nat } else { 1nat },
    {
        match compare_facts(&v[i], &f) {
            Cmp::Less => {
                i = i + 1;
            },
            Cmp::Equal => {
                assert(old_s.to_set().insert(f@) =~= old_s.to_set()) by {
                    assert(old_s.contains(f@)) by {
                        assert(old_s[i as int] == f@);
                    }
                }
                return;
            },
            Cmp::Greater => {
                stop = true;
            },
        }
    }
    let ghost fv = f@;
    proof {
        if i < v.len() {
            assert forall|j: int| i <= j < old_s.len() implies fact_lt(fv, #[trigger] old_s[j]) by {
                if j > i {
                    lemma_fact_lt_transitive(fv, old_s[i as int], old_s[j]);
                }
            }
        }
    }
    v.insert(i, f);
    proof {
        let new_s = facts_v(v@);
        assert(new_s =~= old_s.insert(i as int, fv));
        assert forall|a: int, b: int| 0 <= a < b < new_s.len() implies fact_lt(#[trigger] new_s[a], #[trigger] new_s[b]) by {
            if b < i {
                assert(new_s[a] == old_s[a]);
                assert(new_s[b] == old_s[b]);
            } else if a < i && b == i {
                assert(new_s[a] == old_s[a]);
            } else if a < i && b > i {
                assert(new_s[a] == old_s[a]);
                assert(new_s[b] == old_s[b - 1]);
            } else if a == i {
                assert(new_s[b] == old_s[b - 1]);
            } else {
                assert(new_s[a] == old_s[a - 1]);
                assert(new_s[b] == old_s[b - 1]);
            }
        }
        assert forall|x: FactV| #[trigger] new_s.to_set().contains(x) == old_s.to_set().insert(fv).contains(x) by {
            if new_s.contains(x) {
                let k = choose|k: int| 0 <= k < new_s.len() && #[trigger] new_s[k] == x;
                if k < i {
                    assert(old_s[k] == x);
                } else if k > i {
                    assert(old_s[k - 1] == x);
                }
            }
            if old_s.contains(x) {
                let k = choose|k: int| 0 <= k < old_s.len() && #[trigger] old_s[k] == x;
                if k < i {
                    assert(new_s[k] == x);
                } else {
                    assert(new_s[k + 1] == x);
                }
            }
            if x == fv {
                assert(new_s[i as int] == x);
            }
        }
        assert(new_s.to_set() =~= old_s.to_set().insert(fv));
    }
}

/// Take `f` out of an ascending list, keeping it ascending.
fn remove_fact(v: &mut Vec<Fact>, f: &Fact)
    requires
        ascending(facts_v(old(v)@)),
    ensures
        ascending(facts_v(final(v)@)),
        facts_v(final(v)@).to_set() == facts_v(old(v)@).to_set().remove(f@),
{
    let ghost old_s = facts_v(v@);
    let mut i: usize = 0;
    let mut stop = false;
    let mut found = false;
    while i < v.len() && !stop
        invariant
            i <= v.len(),
            old_s == facts_v(v@),
            ascending(old_s),
            forall|j: int| 0 <= j < i ==> fact_lt(#[trigger] old_s[j], f@),
            stop ==> i < v.len() && (if found { old_s[i as int] == f@ } else { fact_lt(f@, old_s[i as int]) }),
            !stop ==> !found,
        decreases v.len() - i, if stop { 0nat } else { 1nat },
    {
        match compare_facts(&v[i], f) {
            Cmp::Less => {
                i = i + 1;
            },
            Cmp::Equal => {
                stop = true;
                found = true;
            },
            Cmp::Greater => {
                stop = true;
            },
        }
    }
    if found {
        v.remove(i);
        proof {
            let new_s = facts_v(v@);
            assert(new_s =~= old_s.remove(i as int));
            assert forall|a: int, b: int| 0 <= a < b < new_s.len() implies fact_lt(#[trigger] new_s[a], #[trigger] new_s[b]) by {
                if b < i {
                    assert(new_s[a] == old_s[a]);
                    assert(new_s[b] == old_s[b]);
                } else if a < i {
                    assert(new_s[a] == old_s[a]);
                    assert(new_s[b] == old_s[b + 1]);
                } else {
                    assert(new_s[a] == old_s[a + 1]);
                    assert(new_s[b] == old_s[b + 1]);
                }
            }
            assert forall|x: FactV| #[trigger] new_s.to_set().contains(x) == old_s.to_set().remove(f@).contains(x) by {
                if new_s.contains(x) {
                    let k = choose|k: int| 0 <= k < new_s.len() && #[trigger] new_s[k] == x;
                    if k < i {
                        assert(old_s[k] == x);
                        lemma_fact_lt_order(x, f@);
                    } else {
                        assert(old_s[k + 1] == x);
                        assert(fact_lt(old_s[i as int], old_s[k + 1]));
                        lemma_fact_lt_order(x, f@);
                    }
                }
                if old_s.contains(x) && x != f@ {
                    let k = choose|k: int| 0 <= k < old_s.len() && #[trigger] old_s[k] == x;
                    if k < i {
                        assert(new_s[k] == x);
                    } else if k > i {
                        assert(new_s[k - 1] == x);
                    }
                }
            }
            assert(new_s.to_set() =~= old_s.to_set().remove(f@));
        }
    } else {
        proof {
            assert forall|x: FactV| #[trigger] old_s.to_set().contains(x) == old_s.to_set().remove(f@).contains(x) by {
                if x == f@ && old_s.contains(x) {
                    let k = choose|k: int| 0 <= k < old_s.len() && #[trigger] old_s[k] == x;
                    if k < i {
                        lemma_fact_lt_order(x, f@);
                    } else if k > i {
                        assert(fact_lt(old_s[i as int], old_s[k]));
                        lemma_fact_lt_order(old_s[i as int], f@);
                        lemma_fact_lt_order(x, f@);
                    } else {
                        lemma_fact_lt_order(x, f@);
                    }
                }
            }
            assert(old_s.to_set() =~= old_s.to_set().remove(f@));
        }
    }
}

/// Whether an ascending list holds `f`.
fn find_fact(v: &Vec<Fact>, f: &Fact) -> (r: bool)
    ensures
        r == facts_v(v@).contains(f@),
{
    let mut i: usize = 0;
    while i < v.len()
        invariant
            i <= v.len(),
            forall|j: int| 0 <= j < i ==> facts_v(v@)[j] != f@,
        decreases v.len() - i,
    {
        match compare_facts(&v[i], f) {
            Cmp::Equal => {
                assert(facts_v(v@)[i as int] == f@);
                return true;
            },
            _ => {
                i = i + 1;
            },
        }
    }
    false
}

// ---------------------------------------------------------------------------
// Baseline, deltas, minds
// ---------------------------------------------------------------------------

/// The facts that are true of the world, before anyone's private experience.
///
/// The baseline is *truth*, not *common knowledge* — an entity believes a
/// baseline fact because nothing in its own history contradicts it.
///
/// The facts are kept as a set ordered by [`compare_facts`]: an ascending
/// `Vec` in which no fact occurs twice (the type invariant). A `BTreeSet<Fact>`
/// would order them by `Fact`'s derived `Ord`, an impl the verifier does not
/// read, so nothing about the order in which its facts come out, or which of
/// them it holds, could be proved; a fact is no integer key, so neither could
/// be keyed by one. The order here is the one the derived `Ord` gives:
/// predicate first, then the arguments in turn.
#[derive(Debug, PartialEq, Eq)]
pub struct Baseline {
    facts: Vec<Fact>,
}

impl View for Baseline {
    type V = Seq<FactV>;

    /// The baseline facts, in ascending order, each once.
    closed spec fn view(&self) -> Seq<FactV> {
        facts_v(self.facts@)
    }
}

impl Baseline {
    #[verifier::type_invariant]
    spec fn ascending_inv(self) -> bool {
        ascending(facts_v(self.facts@))
    }

    /// The baseline holding exactly the given facts (a fact given twice is
    /// held once).
    pub fn new(facts: Vec<Fact>) -> (b: Baseline)
        ensures
            ascending(b@),
            b@.to_set() == facts_v(facts@).to_set(),
    {
        let ghost all = facts_v(facts@);
        let n = facts.len();
        let mut v: Vec<Fact> = Vec::new();
        let mut facts = facts;
        let mut i: usize = 0;
        proof {
            assert(facts_v(v@).to_set() =~= all.take(0).to_set());
            assert(facts@.len() == n);
        }
        while facts.len() > 0
            invariant
                i + facts@.len() == all.len(),
                all.len() <= usize::MAX,
                facts_v(facts@) == all.subrange(i as int, all.len() as int),
                ascending(facts_v(v@)),
                facts_v(v@).to_set() == all.take(i as int).to_set(),
            decreases facts.len(),
        {
            let ghost before = facts@;
            let f = facts.remove(0);
            proof {
                assert(facts_v(before)[0] == f@);
                assert(all[i as int] == f@) by {
                    assert(all.subrange(i as int, all.len() as int)[0] == all[i as int]);
                }
                assert(facts@ =~= before.subrange(1, before.len() as int));
                assert forall|j: int| 0 <= j < facts@.len() implies #[trigger] facts_v(facts@)[j] == all[i + 1 + j] by {
                    assert(facts@[j] == before[j + 1]);
                    assert(facts_v(before)[j + 1] == all.subrange(i as int, all.len() as int)[j + 1]);
                }
                assert(facts_v(facts@) =~= all.subrange(i + 1, all.len() as int));
                let t1 = all.take(i + 1);
                let t0 = all.take(i as int);
                assert(t1.to_set() =~= t0.to_set().insert(all[i as int])) by {
                    assert forall|x: FactV| #[trigger] t1.to_set().contains(x)
                        == t0.to_set().insert(all[i as int]).contains(x) by {
                        if t1.contains(x) {
                            let k = choose|k: int| 0 <= k < t1.len() && #[trigger] t1[k] == x;
                            if k < i {
                                assert(t0[k] == x);
                            }
                        }
                        if t0.contains(x) {
                            let k = choose|k: int| 0 <= k < t0.len() && #[trigger] t0[k] == x;
                            assert(t1[k] == x);
                        }
                        if x == all[i as int] {
                            assert(t1[i as int] == x);
                        }
                    }
                }
            }
            insert_fact(&mut v, f);
            i = i + 1;
        }
        assert(all.take(all.len() as int) =~= all);
        Baseline { facts: v }
    }

    /// Whether `f` is a baseline fact.
    pub fn contains(&self, f: &Fact) -> (r: bool)
        ensures
            r == self@.contains(f@),
    {
        find_fact(&self.facts, f)
    }

    /// The baseline facts, in ascending order, each once.
    pub fn facts(&self) -> (r: &Vec<Fact>)
        ensures
            facts_v(r@) == self@,
            ascending(self@),
    {
        proof { use_type_invariant(self); }
        &self.facts
    }
}

impl Clone for Baseline {
    fn clone(&self) -> (r: Self)
        ensures
            r@ == self@,
    {
        proof { use_type_invariant(self); }
        Baseline { facts: copy_facts(&self.facts) }
    }
}

impl Default for Baseline {
    fn default() -> (b: Self)
        ensures
            b@ == Seq::<FactV>::empty(),
    {
        let v: Vec<Fact> = Vec::new();
        assert(facts_v(v@) =~= Seq::<FactV>::empty());
        Baseline { facts: v }
    }
}

} // verus!

verus! {

/// One deviation from the baseline, acquired by an individual.
///
/// [`Delta::Unlearned`] is not "forgot" — it is *came to believe otherwise*:
/// he looked in the vault and the artifact was **gone**.
#[derive(Debug, PartialEq, Eq)]
pub enum Delta {
    Learned(Fact),
    Unlearned(Fact),
}

/// The mathematical value of a [`Delta`].
pub enum DeltaV {
    Learned(FactV),
    Unlearned(FactV),
}

impl View for Delta {
    type V = DeltaV;

    open spec fn view(&self) -> DeltaV {
        match self {
            Delta::Learned(f) => DeltaV::Learned(f@),
            Delta::Unlearned(f) => DeltaV::Unlearned(f@),
        }
    }
}

impl Clone for Delta {
    fn clone(&self) -> (r: Self)
        ensures
            r@ == self@,
    {
        match self {
            Delta::Learned(f) => Delta::Learned(f.clone()),
            Delta::Unlearned(f) => Delta::Unlearned(f.clone()),
        }
    }
}

pub open spec fn deltas_v(ds: Seq<Delta>) -> Seq<DeltaV> {
    ds.map_values(|d: Delta| d@)
}

/// What one delta does to a set of beliefs.
pub open spec fn apply_delta(beliefs: Set<FactV>, d: DeltaV) -> Set<FactV> {
    match d {
        DeltaV::Learned(f) => beliefs.insert(f),
        DeltaV::Unlearned(f) => beliefs.remove(f),
    }
}

/// `base` with `ds` applied in order: a later delta overrides an earlier one.
pub open spec fn believed(base: Set<FactV>, ds: Seq<DeltaV>) -> Set<FactV>
    decreases ds.len(),
{
    if ds.len() == 0 {
        base
    } else {
        apply_delta(believed(base, ds.drop_last()), ds.last())
    }
}

/// One entity's private epistemic state.
///
/// Deltas are kept **in order** and applied in order, so a later observation
/// overrides an earlier one — which is what makes being tricked, and then
/// discovering it, expressible.
#[derive(Debug)]
pub struct Mind {
    pub id: String,
    deltas: Vec<Delta>,
}

impl Clone for Mind {
    fn clone(&self) -> (r: Self)
        ensures
            r.id_of() == self.id_of(),
            r.deltas_of() == self.deltas_of(),
    {
        let mut ds: Vec<Delta> = Vec::new();
        let mut i: usize = 0;
        while i < self.deltas.len()
            invariant
                i <= self.deltas.len(),
                deltas_v(ds@) == deltas_v(self.deltas@).take(i as int),
            decreases self.deltas.len() - i,
        {
            let ghost before = ds@;
            ds.push(self.deltas[i].clone());
            proof {
                assert(deltas_v(before).len() == before.len());
                assert forall|j: int| 0 <= j < i + 1 implies #[trigger] deltas_v(ds@)[j]
                    == deltas_v(self.deltas@).take(i + 1)[j] by {
                    if j < i {
                        assert(ds@[j] == before[j]);
                        assert(deltas_v(before)[j] == deltas_v(self.deltas@).take(i as int)[j]);
                    }
                }
                assert(deltas_v(ds@) =~= deltas_v(self.deltas@).take(i + 1));
            }
            i = i + 1;
        }
        assert(deltas_v(self.deltas@).take(self.deltas.len() as int) =~= deltas_v(self.deltas@));
        Mind { id: self.id.clone(), deltas: ds }
    }
}

impl Mind {
    /// This mind's id.
    pub closed spec fn id_of(&self) -> Seq<char> {
        self.id@
    }

    /// The deltas this mind has acquired, in order.
    pub closed spec fn deltas_of(&self) -> Seq<DeltaV> {
        deltas_v(self.deltas@)
    }

    /// What this mind believes over `baseline`.
    pub open spec fn belief_set(&self, baseline: Seq<FactV>) -> Set<FactV> {
        believed(baseline.to_set(), self.deltas_of())
    }

    /// A mind that has acquired nothing yet.
    pub fn new(id: &str) -> (m: Mind)
        ensures
            m.id_of() == id@,
            m.deltas_of() == Seq::<DeltaV>::empty(),
    {
        let m = Mind { id: String::from_str(id), deltas: Vec::new() };
        assert(m.deltas_of() =~= Seq::<DeltaV>::empty());
        m
    }

    /// Record an epistemic event. This is the *only* way belief changes.
    pub fn observe(&mut self, delta: Delta)
        ensures
            final(self).id_of() == old(self).id_of(),
            final(self).deltas_of() == old(self).deltas_of().push(delta@),
    {
        let ghost before = self.deltas@;
        let ghost dv = delta@;
        self.deltas.push(delta);
        assert(deltas_v(self.deltas@) =~= deltas_v(before).push(dv)) by {
            assert(self.deltas@ =~= before.push(self.deltas@.last()));
        }
    }

    /// Came to believe `f`.
    pub fn learn(&mut self, f: Fact)
        ensures
            final(self).id_of() == old(self).id_of(),
            final(self).deltas_of() == old(self).deltas_of().push(DeltaV::Learned(f@)),
    {
        self.observe(Delta::Learned(f));
    }

    /// Came to believe `f` is *not* so.
    pub fn unlearn(&mut self, f: Fact)
        ensures
            final(self).id_of() == old(self).id_of(),
            final(self).deltas_of() == old(self).deltas_of().push(DeltaV::Unlearned(f@)),
    {
        self.observe(Delta::Unlearned(f));
    }

    /// The deltas this mind has acquired, in order.
    pub fn deltas(&self) -> (r: &[Delta])
        ensures
            deltas_v(r@) == self.deltas_of(),
    {
        self.deltas.as_slice()
    }

    /// Everything this entity currently believes: `baseline + own deltas`,
    /// in ascending order, each fact once.
    pub fn beliefs(&self, baseline: &Baseline) -> (r: Vec<Fact>)
        ensures
            ascending(facts_v(r@)),
            facts_v(r@).to_set() == self.belief_set(baseline@),
    {
        let base = baseline.facts();
        let mut set = copy_facts(base);
        let ghost ds = self.deltas_of();
        let mut i: usize = 0;
        assert(ds.take(0) =~= Seq::<DeltaV>::empty());
        while i < self.deltas.len()
            invariant
                i <= self.deltas.len(),
                ds == deltas_v(self.deltas@),
                ascending(facts_v(set@)),
                facts_v(set@).to_set() == believed(baseline@.to_set(), ds.take(i as int)),
            decreases self.deltas.len() - i,
        {
            proof {
                assert(ds.take(i + 1).drop_last() =~= ds.take(i as int));
                assert(ds.take(i + 1).last() == self.deltas@[i as int]@);
            }
            match &self.deltas[i] {
                Delta::Learned(f) => insert_fact(&mut set, f.clone()),
                Delta::Unlearned(f) => remove_fact(&mut set, f),
            }
            i = i + 1;
        }
        assert(ds.take(self.deltas.len() as int) =~= ds);
        set
    }

    /// Whether this entity currently believes `f`.
    pub fn believes(&self, baseline: &Baseline, f: &Fact) -> (r: bool)
        ensures
            r == self.belief_set(baseline@).contains(f@),
    {
        let b = self.beliefs(baseline);
        find_fact(&b, f)
    }
}

/// The goal that `pattern` unifies with one of `beliefs`: one alternative
/// per fact, in order.
pub open spec fn holds_goal(beliefs: Seq<FactV>, pattern: TermV) -> GoalV {
    disj_fold(eq_each(pattern, fact_terms(beliefs)))
}

/// The solver terms of a list of facts.
pub open spec fn fact_terms(fs: Seq<FactV>) -> Seq<TermV> {
    fs.map_values(|f: FactV| fact_term(f))
}

/// Goal: `pattern` unifies with *something this mind believes*.
///
/// The bridge from belief into the solver. Take the belief list from
/// [`Mind::beliefs`] once and reuse it — this builds one alternative per
/// fact, in the beliefs' ascending order, so its answers come one per
/// believed fact that unifies with `pattern`, in that order. A mind believing
/// nothing yields a goal that always fails, which is correct: it can conclude
/// nothing.
pub fn holds(beliefs: &Vec<Fact>, pattern: Term) -> (g: Goal)
    requires
        ascending(facts_v(beliefs@)),
    ensures
        g@ == holds_goal(facts_v(beliefs@), pattern@),
{
    let ghost want = eq_each(pattern@, fact_terms(facts_v(beliefs@)));
    let mut goals: Vec<Goal> = Vec::new();
    let mut i: usize = 0;
    while i < beliefs.len()
        invariant
            i <= beliefs.len(),
            want == eq_each(pattern@, fact_terms(facts_v(beliefs@))),
            goals_v(goals@) == want.take(i as int),
        decreases beliefs.len() - i,
    {
        let ghost before = goals@;
        goals.push(eq(pattern.clone(), beliefs[i].to_term()));
        proof {
            assert(goals_v(before).len() == before.len());
            assert(want[i as int] == GoalV::Eq(pattern@, fact_term(beliefs@[i as int]@)));
            assert forall|j: int| 0 <= j < i + 1 implies #[trigger] goals_v(goals@)[j] == want.take(i + 1)[j] by {
                if j < i {
                    assert(goals@[j] == before[j]);
                    assert(goals_v(before)[j] == want.take(i as int)[j]);
                }
            }
            assert(goals_v(goals@) =~= want.take(i + 1));
        }
        i = i + 1;
    }
    assert(want.take(beliefs.len() as int) =~= want);
    disj_any(goals)
}

/// An untouched mind believes exactly the baseline.
pub proof fn lemma_untouched_mind_believes_the_baseline(base: Set<FactV>)
    ensures
        believed(base, Seq::<DeltaV>::empty()) == base,
{
}

/// A later observation overrides every earlier one: having just learned `f`,
/// a mind believes it; having just come to believe otherwise, it does not.
pub proof fn lemma_latest_observation_wins(base: Set<FactV>, ds: Seq<DeltaV>, f: FactV)
    ensures
        believed(base, ds.push(DeltaV::Learned(f))).contains(f),
        !believed(base, ds.push(DeltaV::Unlearned(f))).contains(f),
{
    assert(ds.push(DeltaV::Learned(f)).drop_last() =~= ds);
    assert(ds.push(DeltaV::Unlearned(f)).drop_last() =~= ds);
}

/// Each observation changes the belief in its own fact alone: after learning
/// `f` a mind believes exactly what it believed before, and `f`; after coming
/// to believe otherwise about `f`, exactly what it believed before, but `f`.
pub proof fn lemma_an_observation_touches_one_fact(base: Set<FactV>, ds: Seq<DeltaV>, f: FactV, x: FactV)
    ensures
        believed(base, ds.push(DeltaV::Learned(f))).contains(x) == (x == f || believed(base, ds).contains(x)),
        believed(base, ds.push(DeltaV::Unlearned(f))).contains(x) == (x != f && believed(base, ds).contains(x)),
{
    assert(ds.push(DeltaV::Learned(f)).drop_last() =~= ds);
    assert(ds.push(DeltaV::Unlearned(f)).drop_last() =~= ds);
}

/// The delta `d` is about the fact `f`.
pub open spec fn mentions(d: DeltaV, f: FactV) -> bool {
    match d {
        DeltaV::Learned(g) => g == f,
        DeltaV::Unlearned(g) => g == f,
    }
}

/// Belief is baseline plus the mind's own deltas, and nothing else: on a fact
/// none of its deltas mention, a mind believes exactly what the baseline says.
pub proof fn lemma_unmentioned_facts_follow_the_baseline(base: Set<FactV>, ds: Seq<DeltaV>, f: FactV)
    requires
        forall|i: int| 0 <= i < ds.len() ==> !mentions(#[trigger] ds[i], f),
    ensures
        believed(base, ds).contains(f) == base.contains(f),
    decreases ds.len(),
{
    if ds.len() > 0 {
        lemma_unmentioned_facts_follow_the_baseline(base, ds.drop_last(), f);
        assert(!mentions(ds[ds.len() - 1], f));
    }
}

} // verus!
