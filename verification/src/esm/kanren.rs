//! # microKanren — the relational solver
//!
//! A small, complete relational engine: `unify` / `fresh` / `conj` / `disj` /
//! `run`. It is the reasoning substrate the ESM thinks with.
//!
//! **The number of answers is the confidence signal**: many answers read as
//! *ambiguous*, one as *unified*, none as *contradiction*.
//!
//! * A [`Term`] is a variable, an atom, a pair, or nil; pairs and nil build
//!   lists, and lists represent facts such as `(lies-toward usb-stick north)`.
//! * A [`Subst`] maps variables to terms; [`Subst::walk`] follows a variable
//!   through its bindings until it reaches something that is not a bound
//!   variable.
//! * [`unify`] answers "can these two terms be made equal?" with an extended
//!   substitution, or `None`.
//! * A [`Goal`] takes one state to *zero or more* states. [`conj`] chains
//!   goals; [`disj`] offers alternatives. Goals are data: [`Goal::solve`]
//!   evaluates one, eagerly, in the order the alternatives were given.
//!
//! `run` makes a fresh query variable, runs the goal, and reports what that
//! variable became in each surviving state.
//!
//! There is no occurs check in [`unify`]: the cyclic terms it guards against
//! cannot arise from the finite, ground facts a scene supplies. Recursion
//! through such a cycle is cut off after `usize::MAX` nested steps, a depth
//! no machine stack reaches.
use vstd::prelude::*;
use vstd::string::*;

use std::collections::HashMap;
use std::rc::Rc;

use crate::text::{decimal, push_decimal};

verus! {

broadcast use vstd::std_specs::hash::group_hash_axioms;

/// A logic variable. Just an index; meaning comes from the [`Subst`].
#[derive(Clone, Copy, PartialEq, Eq, Hash, Debug, PartialOrd, Ord, Structural)]
pub struct Var(pub usize);

/// A term: the thing the solver reasons about.
///
/// Facts are represented as proper lists of atoms, e.g.
/// `(is-hiding-secret hostage)` — build them with [`Term::list`].
#[derive(Debug)]
pub enum Term {
    /// An unknown, to be solved for.
    Var(Var),
    /// A ground symbol: `"usb-stick"`, `"north"`, `"expose-secret"`.
    Atom(String),
    /// Cons cell. `Pair(head, tail)`.
    Pair(Rc<Term>, Rc<Term>),
    /// The empty list; terminates a proper list.
    Nil,
}

/// The mathematical value of a [`Term`].
pub enum TermV {
    Var(usize),
    Atom(Seq<char>),
    Pair(Box<TermV>, Box<TermV>),
    Nil,
}

pub open spec fn term_view(t: Term) -> TermV
    decreases t,
{
    match t {
        Term::Var(v) => TermV::Var(v.0),
        Term::Atom(s) => TermV::Atom(s@),
        Term::Pair(h, tl) => TermV::Pair(Box::new(term_view(*h)), Box::new(term_view(*tl))),
        Term::Nil => TermV::Nil,
    }
}

impl View for Term {
    type V = TermV;

    open spec fn view(&self) -> TermV {
        term_view(*self)
    }
}

/// The views of a sequence of terms.
pub open spec fn views(ts: Seq<Term>) -> Seq<TermV> {
    ts.map_values(|t: Term| t@)
}

/// The proper list `(t0 t1 …)` of the given terms.
pub open spec fn list_v(items: Seq<TermV>) -> TermV
    decreases items.len(),
{
    if items.len() == 0 {
        TermV::Nil
    } else {
        TermV::Pair(Box::new(items[0]), Box::new(list_v(items.drop_first())))
    }
}

/// Scheme-ish rendering of a term, as the design docs write it.
pub open spec fn render(t: TermV) -> Seq<char>
    decreases t, 0nat,
{
    match t {
        TermV::Var(n) => seq!['_'] + decimal(n as nat),
        TermV::Atom(s) => s,
        TermV::Nil => seq!['(', ')'],
        TermV::Pair(h, tl) => seq!['('] + render(*h) + render_tail(*tl) + seq![')'],
    }
}

/// The rest of a list after its first element: ` b c` for a proper list, and
/// a dotted tail ` . x` for an improper one.
pub open spec fn render_tail(t: TermV) -> Seq<char>
    decreases t, 1nat,
{
    match t {
        TermV::Nil => Seq::empty(),
        TermV::Pair(h, tl) => seq![' '] + render(*h) + render_tail(*tl),
        _ => seq![' ', '.', ' '] + render(t),
    }
}

/// Copy of a shared sub-term handle.
///
/// Trusted: `Rc::clone` hands back a pointer to the same allocation, so the
/// value it points to is the same value.
#[verifier::external_body]
fn share(r: &Rc<Term>) -> (c: Rc<Term>)
    ensures
        *c == **r,
{
    Rc::clone(r)
}

impl Clone for Term {
    fn clone(&self) -> (c: Self)
        ensures
            c == *self,
    {
        match self {
            Term::Var(v) => Term::Var(*v),
            Term::Atom(s) => Term::Atom(s.clone()),
            Term::Pair(h, t) => Term::Pair(share(h), share(t)),
            Term::Nil => Term::Nil,
        }
    }
}

/// Structural equality of two terms, by value.
fn terms_equal(a: &Term, b: &Term) -> (r: bool)
    ensures
        r == (a@ == b@),
    decreases a,
{
    match a {
        Term::Var(x) => match b {
            Term::Var(y) => {
                x.0 == y.0
            },
            _ => false,
        },
        Term::Atom(x) => match b {
            Term::Atom(y) => {
                *x == *y
            },
            _ => false,
        },
        Term::Nil => match b {
            Term::Nil => true,
            _ => false,
        },
        Term::Pair(ah, at) => match b {
            Term::Pair(bh, bt) => {
                let ah: &Term = &**ah;
                let at: &Term = &**at;
                let bh: &Term = &**bh;
                let bt: &Term = &**bt;
                terms_equal(ah, bh) && terms_equal(at, bt)
            },
            _ => false,
        },
    }
}

impl PartialEq for Term {
    fn eq(&self, other: &Self) -> (r: bool) {
        terms_equal(self, other)
    }
}

impl vstd::std_specs::cmp::PartialEqSpecImpl for Term {
    open spec fn obeys_eq_spec() -> bool {
        true
    }

    open spec fn eq_spec(&self, other: &Self) -> bool {
        self@ == other@
    }
}

impl Eq for Term {}

impl Term {
    /// A ground symbol.
    pub fn atom(s: &str) -> (t: Term)
        ensures
            t@ == TermV::Atom(s@),
    {
        Term::Atom(String::from_str(s))
    }

    /// Build a proper list: `list([a, b])` is `(a b)`, i.e.
    /// `Pair(a, Pair(b, Nil))`.
    pub fn list(items: Vec<Term>) -> (t: Term)
        ensures
            t@ == list_v(views(items@)),
    {
        let ghost all = views(items@);
        let mut items = items;
        let mut acc = Term::Nil;
        while items.len() > 0
            invariant
                items@.len() <= all.len(),
                views(items@) == all.subrange(0, items@.len() as int),
                acc@ == list_v(all.subrange(items@.len() as int, all.len() as int)),
            decreases items.len(),
        {
            let ghost k = items@.len() as int;
            let ghost before = items@;
            let head = items.pop().unwrap();
            proof {
                assert(before =~= items@.push(head));
                assert(views(before)[k - 1] == head@);
                assert(all[k - 1] == head@);
                assert(views(items@) =~= all.subrange(0, k - 1)) by {
                    assert(views(before).subrange(0, k - 1) =~= views(items@));
                }
                assert(all.subrange(k - 1, all.len() as int).drop_first() =~= all.subrange(k, all.len() as int));
            }
            acc = Term::Pair(Rc::new(head), Rc::new(acc));
        }
        assert(all.subrange(0, all.len() as int) =~= all);
        acc
    }

    /// The atom's text, if this is an atom. Convenience for reading answers out.
    pub fn as_atom(&self) -> (r: Option<&str>)
        ensures
            match self@ {
                TermV::Atom(s) => r matches Some(x) && x@ == s,
                _ => r is None,
            },
    {
        match self {
            Term::Atom(s) => Some(s.as_str()),
            _ => None,
        }
    }

    /// Renders in Scheme-ish notation so output matches the design docs:
    /// `(is-hiding-secret hostage)`, `_3` for a variable, `()` for nil.
    pub fn to_string(&self) -> (s: String)
        ensures
            s@ == render(self@),
    {
        let mut out = String::new();
        self.render_into(&mut out);
        out
    }

    fn render_into(&self, out: &mut String)
        ensures
            final(out)@ == old(out)@ + render(self@),
        decreases self, 0nat,
    {
        match self {
            Term::Var(v) => {
                proof { reveal_strlit("_"); }
                out.append("_");
                push_decimal(out, v.0);
                assert(out@ =~= old(out)@ + render(self@));
            },
            Term::Atom(s) => {
                out.append(s.as_str());
            },
            Term::Nil => {
                proof { reveal_strlit("()"); }
                out.append("()");
                assert(out@ =~= old(out)@ + render(self@));
            },
            Term::Pair(h, t) => {
                proof { reveal_strlit("("); reveal_strlit(")"); }
                let h: &Term = &**h;
                let t: &Term = &**t;
                out.append("(");
                h.render_into(out);
                t.render_tail_into(out);
                out.append(")");
                assert(out@ =~= old(out)@ + render(self@));
            },
        }
    }

    fn render_tail_into(&self, out: &mut String)
        ensures
            final(out)@ == old(out)@ + render_tail(self@),
        decreases self, 1nat,
    {
        match self {
            Term::Nil => {
                assert(out@ =~= old(out)@ + render_tail(self@));
            },
            Term::Pair(h, t) => {
                proof { reveal_strlit(" "); }
                let h: &Term = &**h;
                let t: &Term = &**t;
                out.append(" ");
                h.render_into(out);
                t.render_tail_into(out);
                assert(out@ =~= old(out)@ + render_tail(self@));
            },
            _ => {
                proof { reveal_strlit(" . "); }
                out.append(" . ");
                self.render_into(out);
                assert(out@ =~= old(out)@ + render_tail(self@));
            },
        }
    }
}

} // verus!

verus! {

// ---------------------------------------------------------------------------
// Substitutions
// ---------------------------------------------------------------------------

/// Follow bindings from `t` for at most `fuel` steps.
pub open spec fn walk_n(s: Map<usize, TermV>, t: TermV, fuel: nat) -> TermV
    decreases fuel,
{
    match t {
        TermV::Var(v) => if fuel > 0 && s.contains_key(v) {
            walk_n(s, s[v], (fuel - 1) as nat)
        } else {
            t
        },
        _ => t,
    }
}

/// Follow `t` through the bindings of `s` until it is no longer a bound
/// variable. A chain of variable bindings is never longer than the number of
/// bindings (see [`chains_ranked`]).
pub open spec fn walk(s: Map<usize, TermV>, t: TermV) -> TermV {
    walk_n(s, t, s.dom().len())
}

/// `t` is a variable that `s` binds.
pub open spec fn is_bound(s: Map<usize, TermV>, t: TermV) -> bool {
    t matches TermV::Var(v) && s.contains_key(v)
}

/// Every variable-to-variable binding points to a variable bound later: the
/// ranks `ts` strictly increase along every chain, so chains end.
pub open spec fn chains_ranked(s: Map<usize, TermV>, ts: spec_fn(usize) -> nat) -> bool {
    forall|x: usize|
        #![trigger s.contains_key(x)]
        s.contains_key(x) ==> ts(x) < s.dom().len() && (is_bound(s, s[x]) ==> ts(x) < ts(
            s[x]->Var_0,
        ))
}

/// The bindings of `s` form no chain of variables that loops back on itself.
pub open spec fn chains_end(s: Map<usize, TermV>) -> bool {
    &&& s.dom().finite()
    &&& exists|ts: spec_fn(usize) -> nat| chains_ranked(s, ts)
}

/// How many steps a walk from `t` may still take, under ranks `ts`.
pub open spec fn steps_left(s: Map<usize, TermV>, ts: spec_fn(usize) -> nat, t: TermV) -> nat {
    if is_bound(s, t) {
        (s.dom().len() - ts(t->Var_0)) as nat
    } else {
        0
    }
}

proof fn lemma_walk_settles(s: Map<usize, TermV>, ts: spec_fn(usize) -> nat, t: TermV, k: nat)
    requires
        chains_ranked(s, ts),
        k >= steps_left(s, ts, t),
    ensures
        walk_n(s, t, k) == walk_n(s, t, steps_left(s, ts, t)),
        !is_bound(s, walk_n(s, t, k)),
    decreases k,
{
    if is_bound(s, t) {
        let v = t->Var_0;
        assert(s.contains_key(v));
        let next = s[v];
        lemma_walk_settles(s, ts, next, (k - 1) as nat);
        lemma_walk_settles(s, ts, next, (steps_left(s, ts, t) - 1) as nat);
    }
}

/// Walking ends at something that is not a bound variable, and walking a
/// bound variable is walking what it is bound to.
pub proof fn lemma_walk_facts(s: Map<usize, TermV>, t: TermV)
    requires
        chains_end(s),
    ensures
        !is_bound(s, walk(s, t)),
        is_bound(s, t) ==> walk(s, t) == walk(s, s[t->Var_0]),
        !is_bound(s, t) ==> walk(s, t) == t,
{
    let ts = choose|ts: spec_fn(usize) -> nat| chains_ranked(s, ts);
    lemma_walk_settles(s, ts, t, s.dom().len());
    if is_bound(s, t) {
        let next = s[t->Var_0];
        assert(s.contains_key(t->Var_0));
        lemma_walk_settles(s, ts, next, (s.dom().len() - 1) as nat);
        lemma_walk_settles(s, ts, next, s.dom().len());
    }
}

/// A substitution: what each variable has been bound to so far.
#[derive(Debug)]
pub struct Subst(HashMap<usize, Term>);

impl View for Subst {
    type V = Map<usize, TermV>;

    closed spec fn view(&self) -> Map<usize, TermV> {
        self.0@.map_values(|t: Term| t@)
    }
}

impl Subst {
    #[verifier::type_invariant]
    spec fn chains_end_inv(self) -> bool {
        chains_end(self@)
    }

    /// The empty substitution: nothing is bound.
    pub fn new() -> (s: Subst)
        ensures
            s@ == Map::<usize, TermV>::empty(),
    {
        let m: HashMap<usize, Term> = HashMap::new();
        proof {
            let e = m@.map_values(|t: Term| t@);
            assert(e =~= Map::<usize, TermV>::empty());
            let ts = |x: usize| 0nat;
            assert(chains_ranked(e, ts));
        }
        Subst(m)
    }

    /// Follow a term through variable bindings until it is no longer a
    /// *bound* variable. Returns either a non-variable term, or an unbound
    /// variable. This is shallow: it does not walk inside pairs.
    pub fn walk(&self, t: &Term) -> (r: Term)
        ensures
            r@ == walk(self@, t@),
            !is_bound(self@, r@),
    {
        proof {
            use_type_invariant(self);
            lemma_walk_facts(self@, t@);
        }
        let ghost s = self@;
        let ghost ts = choose|ts: spec_fn(usize) -> nat| chains_ranked(s, ts);
        let mut cur = t.clone();
        loop
            invariant
                s == self@,
                chains_end(s),
                chains_ranked(s, ts),
                walk(s, cur@) == walk(s, t@),
            decreases steps_left(s, ts, cur@),
        {
            let key = match &cur {
                Term::Var(v) => v.0,
                _ => {
                    proof { lemma_walk_facts(s, cur@); }
                    return cur;
                },
            };
            match self.0.get(&key) {
                Some(next) => {
                    proof {
                        lemma_walk_facts(s, cur@);
                        assert(s.contains_key(key));
                        assert(s[key] == next@);
                        if is_bound(s, next@) {
                            assert(s.contains_key(next@->Var_0));
                        }
                    }
                    cur = next.clone();
                },
                None => {
                    proof { lemma_walk_facts(s, cur@); }
                    return cur;
                },
            }
        }
    }

    /// A copy of this substitution with one more binding. Never mutates in
    /// place: a failed unification must leave the caller's substitution
    /// untouched.
    fn extend(&self, v: Var, t: Term) -> (r: Subst)
        requires
            !self@.contains_key(v.0),
            !is_bound(self@, t@),
            t@ != TermV::Var(v.0),
        ensures
            r@ == self@.insert(v.0, t@),
    {
        proof { use_type_invariant(self); }
        let ghost s = self@;
        let ghost ts = choose|ts: spec_fn(usize) -> nat| chains_ranked(s, ts);
        let mut m = self.0.clone();
        let ghost tv = t@;
        m.insert(v.0, t);
        proof {
            let r = m@.map_values(|t: Term| t@);
            assert(r =~= s.insert(v.0, tv));
            let n = s.dom().len();
            assert(r.dom() =~= s.dom().insert(v.0));
            assert(r.dom().len() == n + 1);
            let ts2 = |x: usize| if x == v.0 { n } else { ts(x) };
            assert forall|x: usize| #[trigger] r.contains_key(x) implies ts2(x) < r.dom().len() && (
            is_bound(r, r[x]) ==> ts2(x) < ts2(r[x]->Var_0)) by {
                if x != v.0 {
                    assert(s.contains_key(x));
                    if is_bound(r, r[x]) {
                        let w = r[x]->Var_0;
                        if w != v.0 {
                            assert(s.contains_key(w));
                        }
                    }
                }
            }
            assert(chains_ranked(r, ts2));
        }
        Subst(m)
    }
}

} // verus!

verus! {

/// Resolve a term as far as possible, including inside pairs, descending at
/// most `depth` pairs deep. Unbound variables are left as variables.
pub open spec fn reify_n(s: Map<usize, TermV>, t: TermV, depth: nat) -> TermV
    decreases depth,
{
    let w = walk(s, t);
    match w {
        TermV::Pair(h, tl) => if depth > 0 {
            TermV::Pair(
                Box::new(reify_n(s, *h, (depth - 1) as nat)),
                Box::new(reify_n(s, *tl, (depth - 1) as nat)),
            )
        } else {
            w
        },
        _ => w,
    }
}

/// Resolve a term as far as possible, *including inside pairs*.
pub open spec fn reify(s: Map<usize, TermV>, t: TermV) -> TermV {
    reify_n(s, t, usize::MAX as nat)
}

/// Can `u` and `v` be made equal under `s`, recursing at most `depth` pairs
/// deep? The extended substitution if so, `None` if not.
pub open spec fn unify_n(u: TermV, v: TermV, s: Map<usize, TermV>, depth: nat) -> Option<
    Map<usize, TermV>,
>
    decreases depth,
{
    let u = walk(s, u);
    let v = walk(s, v);
    if u is Var && v is Var && u->Var_0 == v->Var_0 {
        Some(s)
    } else if u is Var {
        Some(s.insert(u->Var_0, v))
    } else if v is Var {
        Some(s.insert(v->Var_0, u))
    } else if u is Atom && v is Atom && u->Atom_0 == v->Atom_0 {
        Some(s)
    } else if u is Nil && v is Nil {
        Some(s)
    } else if u is Pair && v is Pair && depth > 0 {
        match unify_n(*u->Pair_0, *v->Pair_0, s, (depth - 1) as nat) {
            Some(s1) => unify_n(*u->Pair_1, *v->Pair_1, s1, (depth - 1) as nat),
            None => None,
        }
    } else {
        None
    }
}

/// No variable of `t` is bound by `s`.
pub open spec fn free_of_bindings(s: Map<usize, TermV>, t: TermV) -> bool
    decreases t,
{
    match t {
        TermV::Var(x) => !s.contains_key(x),
        TermV::Pair(h, tl) => free_of_bindings(s, *h) && free_of_bindings(s, *tl),
        _ => true,
    }
}

/// A term that mentions no bound variable reifies to itself; in particular a
/// ground term is left unchanged.
pub proof fn lemma_reify_fixes_unbound_terms(s: Map<usize, TermV>, t: TermV, d: nat)
    requires
        free_of_bindings(s, t) || ground(t),
        depth(t) <= d,
    ensures
        free_of_bindings(s, t),
        reify_n(s, t, d) == t,
    decreases t,
{
    match t {
        TermV::Pair(h, tl) => {
            lemma_reify_fixes_unbound_terms(s, *h, (d - 1) as nat);
            lemma_reify_fixes_unbound_terms(s, *tl, (d - 1) as nat);
        },
        _ => {},
    }
    assert(walk(s, t) == t) by {
        assert(walk_n(s, t, s.dom().len()) == t);
    }
}

/// Reifying leaves only unbound variables, unless the result nests `d`
/// pairs deep (with `d` as deep as a `usize` counts, for [`Subst::reify`]).
pub proof fn lemma_reify_leaves_only_unbound(s: Map<usize, TermV>, t: TermV, d: nat)
    requires
        chains_end(s),
    ensures
        free_of_bindings(s, reify_n(s, t, d)) || depth(reify_n(s, t, d)) >= d,
    decreases d,
{
    lemma_walk_facts(s, t);
    let w = walk(s, t);
    match w {
        TermV::Pair(h, tl) => {
            if d > 0 {
                lemma_reify_leaves_only_unbound(s, *h, (d - 1) as nat);
                lemma_reify_leaves_only_unbound(s, *tl, (d - 1) as nat);
            }
        },
        _ => {},
    }
}

/// Reifying twice is reifying once: what [`Subst::reify`] returns is already
/// resolved, unless it nests as deep as a `usize` counts.
pub proof fn lemma_reify_idempotent(s: Map<usize, TermV>, t: TermV)
    requires
        chains_end(s),
        depth(reify(s, t)) < usize::MAX,
    ensures
        reify(s, reify(s, t)) == reify(s, t),
{
    lemma_reify_leaves_only_unbound(s, t, usize::MAX as nat);
    lemma_reify_fixes_unbound_terms(s, reify(s, t), usize::MAX as nat);
}

proof fn lemma_walk_extends_ranked(
    s: Map<usize, TermV>,
    s2: Map<usize, TermV>,
    ts: spec_fn(usize) -> nat,
    t: TermV,
)
    requires
        chains_ranked(s, ts),
        chains_end(s),
        chains_end(s2),
        s.submap_of(s2),
    ensures
        walk(s2, t) == walk(s2, walk(s, t)),
    decreases steps_left(s, ts, t),
{
    lemma_walk_facts(s, t);
    if is_bound(s, t) {
        let x = t->Var_0;
        let n = s[x];
        assert(s.dom().contains(x));
        assert(s2.contains_key(x) && s2[x] == n);
        lemma_walk_facts(s2, t);
        lemma_walk_extends_ranked(s, s2, ts, n);
    }
}

/// Walking in a larger substitution first walks as far as the smaller one
/// goes.
proof fn lemma_walk_extends(s: Map<usize, TermV>, s2: Map<usize, TermV>, t: TermV)
    requires
        chains_end(s),
        chains_end(s2),
        s.submap_of(s2),
    ensures
        walk(s2, t) == walk(s2, walk(s, t)),
{
    let ts = choose|ts: spec_fn(usize) -> nat| chains_ranked(s, ts);
    lemma_walk_extends_ranked(s, s2, ts, t);
}

/// Reifying in a larger substitution is reifying what the smaller one gave.
proof fn lemma_reify_extends(s: Map<usize, TermV>, s2: Map<usize, TermV>, t: TermV, k: nat)
    requires
        chains_end(s),
        chains_end(s2),
        s.submap_of(s2),
    ensures
        reify_n(s2, t, k) == reify_n(s2, reify_n(s, t, k), k),
    decreases k,
{
    let w = walk(s, t);
    lemma_walk_extends(s, s2, t);
    match w {
        TermV::Pair(h, tl) => {
            assert(walk(s2, w) == w) by {
                assert(walk_n(s2, w, s2.dom().len()) == w);
            }
            if k > 0 {
                lemma_reify_extends(s, s2, *h, (k - 1) as nat);
                lemma_reify_extends(s, s2, *tl, (k - 1) as nat);
                let r = reify_n(s, t, k);
                assert(walk(s2, r) == r) by {
                    assert(walk_n(s2, r, s2.dom().len()) == r);
                }
            }
        },
        _ => {},
    }
}

/// Binding an unbound variable to a term that is not a variable keeps every
/// chain of bindings finite.
proof fn lemma_bind_to_value_keeps_chains(s: Map<usize, TermV>, a: usize, g: TermV)
    requires
        chains_end(s),
        !s.contains_key(a),
        !is_bound(s.insert(a, g), g),
    ensures
        chains_end(s.insert(a, g)),
{
    let ts = choose|ts: spec_fn(usize) -> nat| chains_ranked(s, ts);
    let s2 = s.insert(a, g);
    let n = s.dom().len();
    let ts2 = |x: usize| if x == a { n } else { ts(x) };
    assert(s2.dom() =~= s.dom().insert(a));
    assert(s2.dom().len() == n + 1);
    assert forall|x: usize| #![trigger s2.contains_key(x)] s2.contains_key(x) implies ts2(x) < s2.dom().len() && (
    is_bound(s2, s2[x]) ==> ts2(x) < ts2(s2[x]->Var_0)) by {
        if x != a {
            assert(s.contains_key(x));
            if is_bound(s2, s2[x]) {
                let y = s[x]->Var_0;
                if y != a {
                    assert(is_bound(s, s[x]));
                }
            }
        }
    }
    assert(chains_ranked(s2, ts2));
}

/// Under `s`, `u` and `v` resolve alike for `k` pairs deep: they walk to the
/// same non-pair term, or both to pairs whose parts resolve alike one pair
/// less deep.
pub open spec fn same_upto(s: Map<usize, TermV>, u: TermV, v: TermV, k: nat) -> bool
    decreases k,
{
    let wu = walk(s, u);
    let wv = walk(s, v);
    if wu is Pair && wv is Pair {
        k == 0 || (same_upto(s, *wu->Pair_0, *wv->Pair_0, (k - 1) as nat) && same_upto(
            s,
            *wu->Pair_1,
            *wv->Pair_1,
            (k - 1) as nat,
        ))
    } else {
        wu == wv
    }
}

proof fn lemma_same_upto_refl(s: Map<usize, TermV>, u: TermV, v: TermV, k: nat)
    requires
        walk(s, u) == walk(s, v),
    ensures
        same_upto(s, u, v, k),
    decreases k,
{
    let w = walk(s, u);
    if w is Pair && k > 0 {
        lemma_same_upto_refl(s, *w->Pair_0, *w->Pair_0, (k - 1) as nat);
        lemma_same_upto_refl(s, *w->Pair_1, *w->Pair_1, (k - 1) as nat);
    }
}

proof fn lemma_same_upto_extends(s: Map<usize, TermV>, s2: Map<usize, TermV>, u: TermV, v: TermV, k: nat)
    requires
        chains_end(s),
        chains_end(s2),
        s.submap_of(s2),
        same_upto(s, u, v, k),
    ensures
        same_upto(s2, u, v, k),
    decreases k,
{
    lemma_walk_extends(s, s2, u);
    lemma_walk_extends(s, s2, v);
    let wu = walk(s, u);
    let wv = walk(s, v);
    if wu is Pair && wv is Pair {
        assert(walk(s2, wu) == wu) by {
            assert(walk_n(s2, wu, s2.dom().len()) == wu);
        }
        assert(walk(s2, wv) == wv) by {
            assert(walk_n(s2, wv, s2.dom().len()) == wv);
        }
        if k > 0 {
            lemma_same_upto_extends(s, s2, *wu->Pair_0, *wv->Pair_0, (k - 1) as nat);
            lemma_same_upto_extends(s, s2, *wu->Pair_1, *wv->Pair_1, (k - 1) as nat);
        }
    } else {
        lemma_same_upto_refl(s2, u, v, k);
    }
}

/// Terms that resolve alike reify alike, unless the reified term nests `k`
/// pairs deep.
proof fn lemma_same_upto_reify(s: Map<usize, TermV>, u: TermV, v: TermV, k: nat)
    requires
        same_upto(s, u, v, k),
        depth(reify_n(s, u, k)) < k,
    ensures
        reify_n(s, u, k) == reify_n(s, v, k),
    decreases k,
{
    let wu = walk(s, u);
    let wv = walk(s, v);
    if wu is Pair && wv is Pair {
        let j = (k - 1) as nat;
        let ru = reify_n(s, u, k);
        assert(ru == TermV::Pair(
            Box::new(reify_n(s, *wu->Pair_0, j)),
            Box::new(reify_n(s, *wu->Pair_1, j)),
        ));
        assert(depth(reify_n(s, *wu->Pair_0, j)) < j);
        assert(depth(reify_n(s, *wu->Pair_1, j)) < j);
        lemma_same_upto_reify(s, *wu->Pair_0, *wv->Pair_0, j);
        lemma_same_upto_reify(s, *wu->Pair_1, *wv->Pair_1, j);
    }
}

proof fn lemma_unify_resolves_alike(u: TermV, v: TermV, s: Map<usize, TermV>, d: nat)
    requires
        chains_end(s),
    ensures
        unify_n(u, v, s, d) matches Some(s2) ==> {
            &&& chains_end(s2)
            &&& s.submap_of(s2)
            &&& forall|k: nat| #[trigger] same_upto(s2, u, v, k)
        },
    decreases d,
{
    lemma_walk_facts(s, u);
    lemma_walk_facts(s, v);
    let u1 = walk(s, u);
    let v1 = walk(s, v);
    if let Some(s2) = unify_n(u, v, s, d) {
        if u1 is Var && v1 is Var && u1->Var_0 == v1->Var_0 {
            assert forall|k: nat| #[trigger] same_upto(s2, u, v, k) by {
                lemma_same_upto_refl(s2, u, v, k);
            }
        } else if u1 is Var || v1 is Var {
            let (a, g) = if u1 is Var { (u1->Var_0, v1) } else { (v1->Var_0, u1) };
            assert(s2 == s.insert(a, g));
            lemma_bind_to_value_keeps_chains(s, a, g);
            assert(s.submap_of(s2));
            lemma_walk_extends(s, s2, u);
            lemma_walk_extends(s, s2, v);
            lemma_walk_facts(s2, TermV::Var(a));
            lemma_walk_facts(s2, g);
            assert(walk(s2, u) == walk(s2, v));
            assert forall|k: nat| #[trigger] same_upto(s2, u, v, k) by {
                lemma_same_upto_refl(s2, u, v, k);
            }
        } else if u1 is Pair && v1 is Pair {
            let ua = *u1->Pair_0;
            let ud = *u1->Pair_1;
            let va = *v1->Pair_0;
            let vd = *v1->Pair_1;
            let s1 = unify_n(ua, va, s, (d - 1) as nat)->Some_0;
            lemma_unify_resolves_alike(ua, va, s, (d - 1) as nat);
            lemma_unify_resolves_alike(ud, vd, s1, (d - 1) as nat);
            assert(unify_n(ua, va, s, (d - 1) as nat) == Some(s1));
            assert(unify_n(ud, vd, s1, (d - 1) as nat) == Some(s2));
            assert(s.submap_of(s1));
            assert(s1.submap_of(s2));
            vstd::map_lib::lemma_submap_of_trans(s, s1, s2);
            lemma_walk_extends(s, s2, u);
            lemma_walk_extends(s, s2, v);
            assert(walk(s2, u1) == u1) by {
                assert(walk_n(s2, u1, s2.dom().len()) == u1);
            }
            assert(walk(s2, v1) == v1) by {
                assert(walk_n(s2, v1, s2.dom().len()) == v1);
            }
            assert forall|k: nat| #[trigger] same_upto(s2, u, v, k) by {
                if k > 0 {
                    let j = (k - 1) as nat;
                    assert(same_upto(s1, ua, va, j));
                    lemma_same_upto_extends(s1, s2, ua, va, j);
                    assert(same_upto(s2, ud, vd, j));
                }
            }
        } else {
            assert(s2 == s);
            assert(u1 == v1);
            assert forall|k: nat| #[trigger] same_upto(s2, u, v, k) by {
                lemma_same_upto_refl(s2, u, v, k);
            }
        }
    }
}

proof fn lemma_unify_equal_terms_n(u: TermV, v: TermV, s: Map<usize, TermV>, k: nat, d: nat)
    requires
        chains_end(s),
        reify_n(s, u, k) == reify_n(s, v, k),
        depth(reify_n(s, u, k)) < k,
        d >= k,
    ensures
        unify_n(u, v, s, d) == Some(s),
    decreases k,
{
    lemma_walk_facts(s, u);
    lemma_walk_facts(s, v);
    let u1 = walk(s, u);
    let v1 = walk(s, v);
    if u1 is Pair && v1 is Pair {
        let j = (k - 1) as nat;
        assert(reify_n(s, u, k) == TermV::Pair(
            Box::new(reify_n(s, *u1->Pair_0, j)),
            Box::new(reify_n(s, *u1->Pair_1, j)),
        ));
        assert(reify_n(s, v, k) == TermV::Pair(
            Box::new(reify_n(s, *v1->Pair_0, j)),
            Box::new(reify_n(s, *v1->Pair_1, j)),
        ));
        lemma_unify_equal_terms_n(*u1->Pair_0, *v1->Pair_0, s, j, (d - 1) as nat);
        lemma_unify_equal_terms_n(*u1->Pair_1, *v1->Pair_1, s, j, (d - 1) as nat);
    } else if u1 is Pair {
        assert(reify_n(s, u, k) is Pair);
    } else if v1 is Pair {
        assert(reify_n(s, v, k) is Pair);
    } else {
        assert(u1 == v1);
    }
}

/// Terms that already reify alike need nothing new: unifying them succeeds
/// and leaves the substitution as it was (for terms nesting less deeply than
/// a `usize` counts).
pub proof fn lemma_unify_equal_terms(u: TermV, v: TermV, s: Map<usize, TermV>)
    requires
        chains_end(s),
        reify(s, u) == reify(s, v),
        depth(reify(s, u)) < usize::MAX,
    ensures
        unify_spec(u, v, s) == Some(s),
{
    lemma_unify_equal_terms_n(u, v, s, usize::MAX as nat, usize::MAX as nat);
}

proof fn lemma_same_upto_sym(s: Map<usize, TermV>, a: TermV, b: TermV, k: nat)
    requires
        same_upto(s, a, b, k),
    ensures
        same_upto(s, b, a, k),
    decreases k,
{
    let wa = walk(s, a);
    let wb = walk(s, b);
    if wa is Pair && wb is Pair && k > 0 {
        lemma_same_upto_sym(s, *wa->Pair_0, *wb->Pair_0, (k - 1) as nat);
        lemma_same_upto_sym(s, *wa->Pair_1, *wb->Pair_1, (k - 1) as nat);
    }
}

proof fn lemma_same_upto_trans(s: Map<usize, TermV>, a: TermV, b: TermV, c: TermV, k: nat)
    requires
        same_upto(s, a, b, k),
        same_upto(s, b, c, k),
    ensures
        same_upto(s, a, c, k),
    decreases k,
{
    let wa = walk(s, a);
    let wb = walk(s, b);
    let wc = walk(s, c);
    if wa is Pair && wb is Pair && wc is Pair && k > 0 {
        lemma_same_upto_trans(s, *wa->Pair_0, *wb->Pair_0, *wc->Pair_0, (k - 1) as nat);
        lemma_same_upto_trans(s, *wa->Pair_1, *wb->Pair_1, *wc->Pair_1, (k - 1) as nat);
    }
}

/// `s2` respects `s`: every variable `s` binds resolves under `s2` alike with
/// what `s` binds it to.
pub open spec fn respects(s2: Map<usize, TermV>, s: Map<usize, TermV>) -> bool {
    forall|x: usize, k: nat| #[trigger] s.contains_key(x) ==> #[trigger] same_upto(s2, TermV::Var(x), s[x], k)
}

proof fn lemma_extension_respects(s: Map<usize, TermV>, s2: Map<usize, TermV>)
    requires
        chains_end(s2),
        s.submap_of(s2),
    ensures
        respects(s2, s),
{
    assert forall|x: usize, k: nat| #[trigger] s.contains_key(x) implies #[trigger] same_upto(
        s2,
        TermV::Var(x),
        s[x],
        k,
    ) by {
        assert(s.dom().contains(x));
        lemma_walk_facts(s2, TermV::Var(x));
        lemma_same_upto_refl(s2, TermV::Var(x), s[x], k);
    }
}

proof fn lemma_walk_respected_ranked(
    s: Map<usize, TermV>,
    s2: Map<usize, TermV>,
    ts: spec_fn(usize) -> nat,
    t: TermV,
    k: nat,
)
    requires
        chains_ranked(s, ts),
        chains_end(s),
        respects(s2, s),
    ensures
        same_upto(s2, t, walk(s, t), k),
    decreases steps_left(s, ts, t),
{
    lemma_walk_facts(s, t);
    if is_bound(s, t) {
        let x = t->Var_0;
        let n = s[x];
        assert(s.contains_key(x));
        assert(same_upto(s2, TermV::Var(x), n, k));
        lemma_walk_respected_ranked(s, s2, ts, n, k);
        lemma_same_upto_trans(s2, t, n, walk(s, n), k);
    } else {
        lemma_same_upto_refl(s2, t, t, k);
    }
}

proof fn lemma_reify_equal_same_upto(s: Map<usize, TermV>, u: TermV, v: TermV, kk: nat, k: nat)
    requires
        reify_n(s, u, kk) == reify_n(s, v, kk),
        depth(reify_n(s, u, kk)) < kk,
    ensures
        same_upto(s, u, v, k),
    decreases kk,
{
    let wu = walk(s, u);
    let wv = walk(s, v);
    if wu is Pair && wv is Pair {
        let j = (kk - 1) as nat;
        assert(reify_n(s, u, kk) == TermV::Pair(
            Box::new(reify_n(s, *wu->Pair_0, j)),
            Box::new(reify_n(s, *wu->Pair_1, j)),
        ));
        assert(reify_n(s, v, kk) == TermV::Pair(
            Box::new(reify_n(s, *wv->Pair_0, j)),
            Box::new(reify_n(s, *wv->Pair_1, j)),
        ));
        if k > 0 {
            lemma_reify_equal_same_upto(s, *wu->Pair_0, *wv->Pair_0, j, (k - 1) as nat);
            lemma_reify_equal_same_upto(s, *wu->Pair_1, *wv->Pair_1, j, (k - 1) as nat);
        }
    } else if wu is Pair {
        assert(reify_n(s, u, kk) is Pair);
    } else if wv is Pair {
        assert(reify_n(s, v, kk) is Pair);
    }
}

proof fn lemma_unify_finds_respected(
    u: TermV,
    v: TermV,
    s: Map<usize, TermV>,
    w: Map<usize, TermV>,
    kk: nat,
    d: nat,
)
    requires
        chains_end(s),
        chains_end(w),
        respects(w, s),
        forall|k: nat| #[trigger] same_upto(w, u, v, k),
        depth(reify_n(w, u, kk)) < kk,
        d >= kk,
    ensures
        unify_n(u, v, s, d) matches Some(s2) && respects(w, s2) && chains_end(s2),
    decreases kk,
{
    let ts = choose|ts: spec_fn(usize) -> nat| chains_ranked(s, ts);
    lemma_walk_facts(s, u);
    lemma_walk_facts(s, v);
    let u1 = walk(s, u);
    let v1 = walk(s, v);
    assert forall|k: nat| #[trigger] same_upto(w, u1, v1, k) by {
        lemma_walk_respected_ranked(s, w, ts, u, k);
        lemma_walk_respected_ranked(s, w, ts, v, k);
        lemma_same_upto_sym(w, u, u1, k);
        lemma_same_upto_trans(w, u1, u, v, k);
        lemma_same_upto_trans(w, u1, v, v1, k);
    }
    lemma_unify_resolves_alike(u, v, s, d);
    if u1 is Var && v1 is Var && u1->Var_0 == v1->Var_0 {
    } else if u1 is Var || v1 is Var {
        let (a, g) = if u1 is Var { (u1->Var_0, v1) } else { (v1->Var_0, u1) };
        let s2 = s.insert(a, g);
        assert(unify_n(u, v, s, d) == Some(s2));
        assert forall|x: usize, k: nat| #[trigger] s2.contains_key(x) implies #[trigger] same_upto(
            w,
            TermV::Var(x),
            s2[x],
            k,
        ) by {
            if x == a {
                assert(same_upto(w, u1, v1, k));
                if u1 is Var {
                    assert(u1 == TermV::Var(a));
                } else {
                    assert(v1 == TermV::Var(a));
                    lemma_same_upto_sym(w, u1, v1, k);
                }
            } else {
                assert(s.contains_key(x));
            }
        }
    } else {
        assert(walk(w, u1) == u1) by {
            assert(walk_n(w, u1, w.dom().len()) == u1);
        }
        assert(walk(w, v1) == v1) by {
            assert(walk_n(w, v1, w.dom().len()) == v1);
        }
        assert(same_upto(w, u1, v1, 1));
        if u1 is Pair && v1 is Pair {
            let j = (kk - 1) as nat;
            let ua = *u1->Pair_0;
            let ud = *u1->Pair_1;
            let va = *v1->Pair_0;
            let vd = *v1->Pair_1;
            assert(same_upto(w, u, u1, kk)) by {
                lemma_walk_respected_ranked(s, w, ts, u, kk);
            }
            lemma_same_upto_reify(w, u, u1, kk);
            assert(reify_n(w, u1, kk) == TermV::Pair(
                Box::new(reify_n(w, ua, j)),
                Box::new(reify_n(w, ud, j)),
            ));
            assert forall|k: nat| #[trigger] same_upto(w, ua, va, k) && same_upto(w, ud, vd, k) by {
                assert(same_upto(w, u1, v1, k + 1));
            }
            assert forall|k: nat| #[trigger] same_upto(w, ua, va, k) by {
                assert(same_upto(w, ua, va, k) && same_upto(w, ud, vd, k));
            }
            assert forall|k: nat| #[trigger] same_upto(w, ud, vd, k) by {
                assert(same_upto(w, ua, va, k) && same_upto(w, ud, vd, k));
            }
            lemma_unify_finds_respected(ua, va, s, w, j, (d - 1) as nat);
            let s1 = unify_n(ua, va, s, (d - 1) as nat)->Some_0;
            lemma_unify_finds_respected(ud, vd, s1, w, j, (d - 1) as nat);
        } else {
            assert(u1 == v1);
        }
    }
}

/// Unification is complete: if some substitution extending `s`, with its
/// chains of bindings finite, makes `u` and `v` reify to the same term
/// (nesting less deeply than a `usize` counts), unification from `s`
/// succeeds. So it fails only when no such extension of `s` equates them.
pub proof fn lemma_unify_is_complete(u: TermV, v: TermV, s: Map<usize, TermV>, wider: Map<usize, TermV>)
    requires
        chains_end(s),
        chains_end(wider),
        s.submap_of(wider),
        reify(wider, u) == reify(wider, v),
        depth(reify(wider, u)) < usize::MAX,
    ensures
        unify_spec(u, v, s) is Some,
{
    lemma_extension_respects(s, wider);
    assert forall|k: nat| #[trigger] same_upto(wider, u, v, k) by {
        lemma_reify_equal_same_upto(wider, u, v, usize::MAX as nat, k);
    }
    lemma_unify_finds_respected(u, v, s, wider, usize::MAX as nat, usize::MAX as nat);
}

/// Unification is sound: when it succeeds, the substitution keeps every
/// binding it started with, binds only variables left unbound, keeps every
/// chain of bindings finite, and under it `u` and `v` reify to the same
/// term — unless that term nests as deep as a `usize` counts (as it does when
/// a variable was bound to a term containing itself, there being no occurs
/// check).
pub proof fn lemma_unify_is_sound(u: TermV, v: TermV, s: Map<usize, TermV>)
    requires
        chains_end(s),
    ensures
        unify_spec(u, v, s) matches Some(s2) ==> {
            &&& s.submap_of(s2)
            &&& chains_end(s2)
            &&& depth(reify(s2, u)) < usize::MAX ==> reify(s2, u) == reify(s2, v)
        },
{
    lemma_unify_resolves_alike(u, v, s, usize::MAX as nat);
    if let Some(s2) = unify_spec(u, v, s) {
        if depth(reify(s2, u)) < usize::MAX {
            assert(same_upto(s2, u, v, usize::MAX as nat));
            lemma_same_upto_reify(s2, u, v, usize::MAX as nat);
        }
    }
}

proof fn lemma_unify_with_ground(u: TermV, v: TermV, s: Map<usize, TermV>, d: nat)
    requires
        chains_end(s),
        ground(v),
    ensures
        unify_n(u, v, s, d) matches Some(s2) ==> {
            &&& chains_end(s2)
            &&& s.submap_of(s2)
            &&& forall|k: nat| k >= depth(v) ==> #[trigger] reify_n(s2, u, k) == v
        },
    decreases d,
{
    lemma_walk_facts(s, u);
    lemma_walk_facts(s, v);
    let u1 = walk(s, u);
    assert(walk(s, v) == v);
    if let Some(s2) = unify_n(u, v, s, d) {
        if u1 is Var {
            let a = u1->Var_0;
            assert(s2 == s.insert(a, v));
            lemma_bind_to_value_keeps_chains(s, a, v);
            assert(s.submap_of(s2));
            lemma_walk_extends(s, s2, u);
            lemma_walk_facts(s2, u1);
            lemma_walk_facts(s2, v);
            assert(walk(s2, u) == v);
            assert forall|k: nat| k >= depth(v) implies #[trigger] reify_n(s2, u, k) == v by {
                lemma_reify_fixes_unbound_terms(s2, v, k);
                assert(reify_n(s2, v, k) == v);
            }
        } else if u1 is Pair {
            let ua = *u1->Pair_0;
            let ud = *u1->Pair_1;
            let vh = *v->Pair_0;
            let vt = *v->Pair_1;
            let s1 = unify_n(ua, vh, s, (d - 1) as nat)->Some_0;
            lemma_unify_with_ground(ua, vh, s, (d - 1) as nat);
            lemma_unify_with_ground(ud, vt, s1, (d - 1) as nat);
            assert(unify_n(ua, vh, s, (d - 1) as nat) == Some(s1));
            assert(unify_n(ud, vt, s1, (d - 1) as nat) == Some(s2));
            assert(s.submap_of(s1));
            assert(s1.submap_of(s2));
            vstd::map_lib::lemma_submap_of_trans(s, s1, s2);
            lemma_walk_extends(s, s2, u);
            assert(walk(s2, u1) == u1) by {
                assert(walk_n(s2, u1, s2.dom().len()) == u1);
            }
            assert forall|k: nat| k >= depth(v) implies #[trigger] reify_n(s2, u, k) == v by {
                let j = (k - 1) as nat;
                assert(reify_n(s1, ua, j) == vh);
                lemma_reify_extends(s1, s2, ua, j);
                lemma_reify_fixes_unbound_terms(s2, vh, j);
                assert(reify_n(s2, ud, j) == vt);
            }
        } else {
            assert(s2 == s);
            assert(u1 == v);
            assert forall|k: nat| k >= depth(v) implies #[trigger] reify_n(s2, u, k) == v by {}
        }
    }
}

/// Unifying with a ground term is sound: when it succeeds, the substitution
/// keeps every binding it started with, and under it `u` resolves to `v`
/// exactly (for terms nesting less deeply than a `usize` counts).
pub proof fn lemma_unify_with_ground_is_sound(u: TermV, v: TermV, s: Map<usize, TermV>)
    requires
        chains_end(s),
        ground(v),
        depth(v) < usize::MAX,
    ensures
        unify_spec(u, v, s) matches Some(s2) ==> s.submap_of(s2) && reify(s2, u) == v && reify(s2, v) == v,
{
    lemma_unify_with_ground(u, v, s, usize::MAX as nat);
    if let Some(s2) = unify_spec(u, v, s) {
        assert(reify_n(s2, u, usize::MAX as nat) == v);
        lemma_reify_fixes_unbound_terms(s2, v, usize::MAX as nat);
    }
}

/// Unification: the substitution under which `u` and `v` are equal.
pub open spec fn unify_spec(u: TermV, v: TermV, s: Map<usize, TermV>) -> Option<Map<usize, TermV>> {
    unify_n(u, v, s, usize::MAX as nat)
}

impl Subst {
    /// Resolve a term as far as possible, *including inside pairs*.
    ///
    /// Unbound variables are left as [`Term::Var`] — the caller can spot them.
    pub fn reify(&self, t: &Term) -> (r: Term)
        ensures
            r@ == reify(self@, t@),
    {
        self.reify_depth(t, usize::MAX)
    }

    fn reify_depth(&self, t: &Term, depth: usize) -> (r: Term)
        ensures
            r@ == reify_n(self@, t@, depth as nat),
        decreases depth,
    {
        let w = self.walk(t);
        match &w {
            Term::Pair(h, tl) => if depth > 0 {
                let h: &Term = &**h;
                let tl: &Term = &**tl;
                let rh = self.reify_depth(h, depth - 1);
                let rt = self.reify_depth(tl, depth - 1);
                Term::Pair(Rc::new(rh), Rc::new(rt))
            } else {
                w.clone()
            },
            _ => w.clone(),
        }
    }
}

/// Can `u` and `v` be made equal? If so, at what cost to the substitution?
///
/// Returns the extended substitution, or `None` for "these can never be
/// equal" — which is the solver's `failo`.
///
/// Unification keeps what was known: every binding of `s` stands unchanged in
/// the result, which adds bindings only for variables `s` left unbound.
pub fn unify(u: &Term, v: &Term, s: &Subst) -> (r: Option<Subst>)
    ensures
        match r {
            Some(s2) => unify_spec(u@, v@, s@) == Some(s2@) && s@.submap_of(s2@),
            None => unify_spec(u@, v@, s@) is None,
        },
{
    unify_depth(u, v, s, usize::MAX)
}

fn unify_depth(u: &Term, v: &Term, s: &Subst, depth: usize) -> (r: Option<Subst>)
    ensures
        match r {
            Some(s2) => unify_n(u@, v@, s@, depth as nat) == Some(s2@) && s@.submap_of(s2@),
            None => unify_n(u@, v@, s@, depth as nat) is None,
        },
    decreases depth,
{
    let u = s.walk(u);
    let v = s.walk(v);
    match (&u, &v) {
        (Term::Var(a), Term::Var(b)) => {
            if a.0 == b.0 {
                Some(s.copy())
            } else {
                let s2 = s.extend(*a, v.clone());
                assert(s@.submap_of(s2@));
                Some(s2)
            }
        },
        (Term::Var(a), _) => {
            let s2 = s.extend(*a, v.clone());
            assert(s@.submap_of(s2@));
            Some(s2)
        },
        (_, Term::Var(b)) => {
            let s2 = s.extend(*b, u.clone());
            assert(s@.submap_of(s2@));
            Some(s2)
        },
        (Term::Atom(a), Term::Atom(b)) => {
            if *a == *b {
                Some(s.copy())
            } else {
                None
            }
        },
        (Term::Nil, Term::Nil) => Some(s.copy()),
        (Term::Pair(ua, ud), Term::Pair(va, vd)) => {
            if depth == 0 {
                return None;
            }
            let ua: &Term = &**ua;
            let ud: &Term = &**ud;
            let va: &Term = &**va;
            let vd: &Term = &**vd;
            match unify_depth(ua, va, s, depth - 1) {
                Some(s1) => {
                    let r = unify_depth(ud, vd, &s1, depth - 1);
                    proof {
                        if let Some(s2) = &r {
                            assert(s@.submap_of(s1@));
                            assert(s1@.submap_of(s2@));
                            assert forall|k: usize| #[trigger] s@.dom().contains(k) implies s2@.dom().contains(k)
                                && s2@[k] == s@[k] by {
                                assert(s1@.dom().contains(k));
                            }
                            assert(s@.submap_of(s2@));
                        }
                    }
                    r
                },
                None => None,
            }
        },
        _ => None,
    }
}

impl Subst {
    /// An independent copy of this substitution.
    pub fn copy(&self) -> (r: Subst)
        ensures
            r@ == self@,
    {
        proof { use_type_invariant(self); }
        let m = self.0.clone();
        proof {
            assert(m@.map_values(|t: Term| t@) =~= self@);
        }
        Subst(m)
    }
}

impl Clone for Subst {
    fn clone(&self) -> (r: Self)
        ensures
            r@ == self@,
    {
        self.copy()
    }
}

} // verus!

verus! {

// ---------------------------------------------------------------------------
// States and goals
// ---------------------------------------------------------------------------

/// The mathematical value of a [`State`].
pub struct StateV {
    pub subst: Map<usize, TermV>,
    pub next: usize,
}

/// A point in the search: what is known, and where the next fresh variable
/// starts.
#[derive(Debug)]
pub struct State {
    pub subst: Subst,
    /// Counter for handing out fresh variables. Threaded through so that goals
    /// stay pure functions of a state rather than needing shared mutation.
    next: usize,
}

impl View for State {
    type V = StateV;

    closed spec fn view(&self) -> StateV {
        StateV { subst: self.subst@, next: self.next }
    }
}

impl Clone for State {
    fn clone(&self) -> (r: Self)
        ensures
            r@ == self@,
    {
        State { subst: self.subst.copy(), next: self.next }
    }
}

impl State {
    /// The empty state: nothing known, no variable handed out yet.
    pub fn new() -> (st: State)
        ensures
            st@ == (StateV { subst: Map::empty(), next: 0 }),
    {
        State { subst: Subst::new(), next: 0 }
    }

    /// A copy of this state, plus a brand-new variable nothing has bound yet.
    pub fn with_fresh(&self) -> (r: (State, Var))
        requires
            self@.next < usize::MAX,
        ensures
            r.0@ == (StateV { subst: self@.subst, next: (self@.next + 1) as usize }),
            r.1 == Var(self@.next),
    {
        let v = Var(self.next);
        (State { subst: self.subst.copy(), next: self.next + 1 }, v)
    }
}

/// Every variable of `t` is numbered below `n`.
pub open spec fn term_vars_below(t: TermV, n: usize) -> bool
    decreases t,
{
    match t {
        TermV::Var(x) => x < n,
        TermV::Pair(h, tl) => term_vars_below(*h, n) && term_vars_below(*tl, n),
        _ => true,
    }
}

/// Every variable `s` binds, and every variable in what it binds them to, is
/// numbered below `n`: the state a goal reaches from [`State::new`] through
/// variables handed out by [`State::with_fresh`] keeps its substitution below
/// its counter.
pub open spec fn subst_below(s: Map<usize, TermV>, n: usize) -> bool {
    forall|k: usize| #[trigger] s.contains_key(k) ==> k < n && term_vars_below(s[k], n)
}

proof fn lemma_below_not_mentioned(t: TermV, n: usize)
    requires
        term_vars_below(t, n),
    ensures
        !term_mentions(t, n),
        term_vars_below(t, (n + 1) as usize) || n == usize::MAX,
    decreases t,
{
    match t {
        TermV::Pair(h, tl) => {
            lemma_below_not_mentioned(*h, n);
            lemma_below_not_mentioned(*tl, n);
        },
        _ => {},
    }
}

/// The variable [`State::with_fresh`] hands out is new: from a state whose
/// substitution lies below its counter, that variable is neither bound nor
/// mentioned in any binding, it walks to itself, and the state it leaves
/// still lies below the advanced counter.
pub proof fn lemma_fresh_variable_is_new(st: StateV)
    requires
        subst_below(st.subst, st.next),
        st.next < usize::MAX,
    ensures
        !st.subst.contains_key(st.next),
        forall|k: usize| #[trigger] st.subst.contains_key(k) ==> !term_mentions(st.subst[k], st.next),
        walk(st.subst, TermV::Var(st.next)) == TermV::Var(st.next),
        subst_below(st.subst, (st.next + 1) as usize),
{
    assert forall|k: usize| #[trigger] st.subst.contains_key(k) implies !term_mentions(st.subst[k], st.next)
        && term_vars_below(st.subst[k], (st.next + 1) as usize) by {
        lemma_below_not_mentioned(st.subst[k], st.next);
    }
}

/// The empty state lies below its counter.
pub proof fn lemma_new_state_is_below()
    ensures
        subst_below(Map::<usize, TermV>::empty(), 0),
{
}

/// A goal: from one state, produce every state in which the goal holds.
///
/// Goals are data, built with [`eq`], [`succeed`], [`fail`], [`fresh`],
/// [`conj`], [`disj`] and their derived forms, and evaluated by
/// [`Goal::solve`]. An empty result is failure; several results are several
/// ways of being true. **That count is the confidence signal** the whole
/// design leans on.
///
/// A [`Goal::Fresh`] binder `k` stands for the variable `Var(usize::MAX - k)`
/// in its body until the goal is solved, when a fresh variable replaces it.
///
/// Goals are a closed set of forms rather than arbitrary closures over a
/// state: a relation is written by combining these forms, and the closures
/// given to [`fresh`] and [`run`] run when the goal is built, not when it is
/// solved (see [`fresh`]).
#[derive(Debug)]
pub enum Goal {
    Eq(Term, Term),
    Succeed,
    Fail,
    Fresh(usize, Box<Goal>),
    Conj(Box<Goal>, Box<Goal>),
    Disj(Box<Goal>, Box<Goal>),
}

/// The mathematical value of a [`Goal`].
pub enum GoalV {
    Eq(TermV, TermV),
    Succeed,
    Fail,
    Fresh(usize, Box<GoalV>),
    Conj(Box<GoalV>, Box<GoalV>),
    Disj(Box<GoalV>, Box<GoalV>),
}

pub open spec fn goal_view(g: Goal) -> GoalV
    decreases g,
{
    match g {
        Goal::Eq(u, v) => GoalV::Eq(u@, v@),
        Goal::Succeed => GoalV::Succeed,
        Goal::Fail => GoalV::Fail,
        Goal::Fresh(k, b) => GoalV::Fresh(k, Box::new(goal_view(*b))),
        Goal::Conj(a, b) => GoalV::Conj(Box::new(goal_view(*a)), Box::new(goal_view(*b))),
        Goal::Disj(a, b) => GoalV::Disj(Box::new(goal_view(*a)), Box::new(goal_view(*b))),
    }
}

impl View for Goal {
    type V = GoalV;

    open spec fn view(&self) -> GoalV {
        goal_view(*self)
    }
}

/// The variable a binder `k` stands for before it is opened.
pub open spec fn marker(k: usize) -> usize {
    (usize::MAX - k) as usize
}

/// `t` with every occurrence of variable `from` replaced by variable `to`.
pub open spec fn rename(t: TermV, from: usize, to: usize) -> TermV
    decreases t,
{
    match t {
        TermV::Var(x) => if x == from { TermV::Var(to) } else { t },
        TermV::Pair(h, tl) => TermV::Pair(Box::new(rename(*h, from, to)), Box::new(rename(*tl, from, to))),
        _ => t,
    }
}

/// `g` with binder `k`'s variable replaced by `to`, except inside an inner
/// binder of the same number, which shadows it.
pub open spec fn open_goal(g: GoalV, k: usize, to: usize) -> GoalV
    decreases g,
{
    match g {
        GoalV::Eq(u, v) => GoalV::Eq(rename(u, marker(k), to), rename(v, marker(k), to)),
        GoalV::Fresh(j, b) => if j == k { g } else { GoalV::Fresh(j, Box::new(open_goal(*b, k, to))) },
        GoalV::Conj(a, b) => GoalV::Conj(Box::new(open_goal(*a, k, to)), Box::new(open_goal(*b, k, to))),
        GoalV::Disj(a, b) => GoalV::Disj(Box::new(open_goal(*a, k, to)), Box::new(open_goal(*b, k, to))),
        _ => g,
    }
}

pub open spec fn goal_size(g: GoalV) -> nat
    decreases g,
{
    match g {
        GoalV::Fresh(_, b) => 1 + goal_size(*b),
        GoalV::Conj(a, b) => 1 + goal_size(*a) + goal_size(*b),
        GoalV::Disj(a, b) => 1 + goal_size(*a) + goal_size(*b),
        _ => 1,
    }
}

/// How many fresh variables solving `g` can hand out, at most.
pub open spec fn fresh_count(g: GoalV) -> nat
    decreases g,
{
    match g {
        GoalV::Fresh(_, b) => 1 + fresh_count(*b),
        GoalV::Conj(a, b) => fresh_count(*a) + fresh_count(*b),
        GoalV::Disj(a, b) => fresh_count(*a) + fresh_count(*b),
        _ => 0,
    }
}

/// The largest binder number in `g` (0 if it has none).
pub open spec fn max_binder(g: GoalV) -> usize
    decreases g,
{
    match g {
        GoalV::Fresh(k, b) => if k >= max_binder(*b) { k } else { max_binder(*b) },
        GoalV::Conj(a, b) => if max_binder(*a) >= max_binder(*b) { max_binder(*a) } else { max_binder(*b) },
        GoalV::Disj(a, b) => if max_binder(*a) >= max_binder(*b) { max_binder(*a) } else { max_binder(*b) },
        _ => 0,
    }
}

pub proof fn lemma_open_keeps_shape(g: GoalV, k: usize, to: usize)
    ensures
        goal_size(open_goal(g, k, to)) == goal_size(g),
        fresh_count(open_goal(g, k, to)) == fresh_count(g),
    decreases g,
{
    match g {
        GoalV::Fresh(j, b) => {
            if j != k {
                lemma_open_keeps_shape(*b, k, to);
            }
        },
        GoalV::Conj(a, b) => {
            lemma_open_keeps_shape(*a, k, to);
            lemma_open_keeps_shape(*b, k, to);
        },
        GoalV::Disj(a, b) => {
            lemma_open_keeps_shape(*a, k, to);
            lemma_open_keeps_shape(*b, k, to);
        },
        _ => {},
    }
}

/// Every state in which `g` holds, starting from `st`, in order.
///
/// * `Eq(u, v)`: one state if `u` and `v` unify, none otherwise.
/// * `Succeed`: `st` itself; `Fail`: nothing.
/// * `Fresh(k, body)`: `body` with a brand-new variable for its binder.
/// * `Conj(a, b)`: every state of `b` from every state of `a`, in order.
/// * `Disj(a, b)`: the states of `a`, then the states of `b`.
pub open spec fn solve(g: GoalV, st: StateV) -> Seq<StateV>
    decreases goal_size(g), 0nat,
{
    match g {
        GoalV::Eq(u, v) => match unify_spec(u, v, st.subst) {
            Some(s) => seq![StateV { subst: s, next: st.next }],
            None => Seq::empty(),
        },
        GoalV::Succeed => seq![st],
        GoalV::Fail => Seq::empty(),
        GoalV::Fresh(k, b) => {
            proof {
                lemma_open_keeps_shape(*b, k, st.next);
            }
            solve(open_goal(*b, k, st.next), StateV { subst: st.subst, next: (st.next + 1) as usize })
        },
        GoalV::Conj(a, b) => bind(solve(*a, st), *b),
        GoalV::Disj(a, b) => solve(*a, st) + solve(*b, st),
    }
}

/// The states of `b` from each of `states`, concatenated in order.
pub open spec fn bind(states: Seq<StateV>, b: GoalV) -> Seq<StateV>
    decreases goal_size(b), states.len(),
{
    if states.len() == 0 {
        Seq::empty()
    } else {
        bind(states.drop_last(), b) + solve(b, states.last())
    }
}

pub open spec fn states_v(v: Seq<State>) -> Seq<StateV> {
    v.map_values(|s: State| s@)
}

/// Solving never hands out more fresh variables than the goal holds binders.
pub proof fn lemma_solve_next_bound(g: GoalV, st: StateV)
    requires
        st.next + fresh_count(g) <= usize::MAX,
    ensures
        forall|i: int| 0 <= i < solve(g, st).len() ==> st.next <= #[trigger] solve(g, st)[i].next
            && solve(g, st)[i].next <= st.next + fresh_count(g),
    decreases goal_size(g), 0nat,
{
    match g {
        GoalV::Fresh(k, b) => {
            lemma_open_keeps_shape(*b, k, st.next);
            let st2 = StateV { subst: st.subst, next: (st.next + 1) as usize };
            assert(st2.next == st.next + 1);
            assert(solve(g, st) == solve(open_goal(*b, k, st.next), st2));
            lemma_solve_next_bound(open_goal(*b, k, st.next), st2);
            let r = solve(g, st);
            let r2 = solve(open_goal(*b, k, st.next), st2);
            assert forall|i: int| 0 <= i < r.len() implies st.next <= #[trigger] r[i].next && r[i].next
                <= st.next + fresh_count(g) by {
                assert(r[i] == r2[i]);
            }
        },
        GoalV::Conj(a, b) => {
            lemma_solve_next_bound(*a, st);
            lemma_bind_next_bound(solve(*a, st), *b, st.next as nat, (st.next + fresh_count(*a)) as nat);
            let r = solve(g, st);
            let r2 = bind(solve(*a, st), *b);
            assert(r == r2);
            assert forall|i: int| 0 <= i < r.len() implies st.next <= #[trigger] r[i].next && r[i].next
                <= st.next + fresh_count(g) by {
                assert(r[i] == r2[i]);
            }
        },
        GoalV::Disj(a, b) => {
            lemma_solve_next_bound(*a, st);
            lemma_solve_next_bound(*b, st);
            let r = solve(g, st);
            assert forall|i: int| 0 <= i < r.len() implies st.next <= #[trigger] r[i].next && r[i].next
                <= st.next + fresh_count(g) by {
                if i >= solve(*a, st).len() {
                    assert(r[i] == solve(*b, st)[i - solve(*a, st).len()]);
                }
            }
        },
        GoalV::Eq(u, v) => {
            let r = solve(g, st);
            assert forall|i: int| 0 <= i < r.len() implies st.next <= #[trigger] r[i].next && r[i].next
                <= st.next + fresh_count(g) by {
                assert(r[i].next == st.next);
            }
        },
        GoalV::Succeed => {
            assert(solve(g, st)[0] == st);
        },
        GoalV::Fail => {},
    }
}

pub proof fn lemma_bind_next_bound(states: Seq<StateV>, b: GoalV, lo: nat, hi: nat)
    requires
        hi + fresh_count(b) <= usize::MAX,
        forall|i: int| 0 <= i < states.len() ==> lo <= #[trigger] states[i].next && states[i].next <= hi,
    ensures
        forall|i: int| 0 <= i < bind(states, b).len() ==> lo <= #[trigger] bind(states, b)[i].next
            && bind(states, b)[i].next <= hi + fresh_count(b),
    decreases goal_size(b), states.len(),
{
    if states.len() > 0 {
        lemma_bind_next_bound(states.drop_last(), b, lo, hi);
        lemma_solve_next_bound(b, states.last());
        let r = bind(states, b);
        let p = bind(states.drop_last(), b);
        assert forall|i: int| 0 <= i < r.len() implies lo <= #[trigger] r[i].next && r[i].next <= hi
            + fresh_count(b) by {
            if i >= p.len() {
                assert(r[i] == solve(b, states.last())[i - p.len()]);
            } else {
                assert(r[i] == p[i]);
            }
        }
    }
}

} // verus!

verus! {

/// `t` with every occurrence of variable `from` replaced by variable `to`.
fn rename_term(t: &Term, from: usize, to: usize) -> (r: Term)
    ensures
        r@ == rename(t@, from, to),
    decreases t,
{
    match t {
        Term::Var(x) => if x.0 == from {
            Term::Var(Var(to))
        } else {
            Term::Var(*x)
        },
        Term::Pair(h, tl) => {
            let h: &Term = &**h;
            let tl: &Term = &**tl;
            Term::Pair(Rc::new(rename_term(h, from, to)), Rc::new(rename_term(tl, from, to)))
        },
        _ => t.clone(),
    }
}

impl Goal {
    /// This goal with binder `k` opened onto the variable `to`.
    fn open(&self, k: usize, to: usize) -> (r: Goal)
        ensures
            r@ == open_goal(self@, k, to),
        decreases self,
    {
        match self {
            Goal::Eq(u, v) => Goal::Eq(rename_term(u, marker_of(k), to), rename_term(v, marker_of(k), to)),
            Goal::Succeed => Goal::Succeed,
            Goal::Fail => Goal::Fail,
            Goal::Fresh(j, b) => if *j == k {
                Goal::Fresh(*j, Box::new(b.copy()))
            } else {
                Goal::Fresh(*j, Box::new(b.open(k, to)))
            },
            Goal::Conj(a, b) => Goal::Conj(Box::new(a.open(k, to)), Box::new(b.open(k, to))),
            Goal::Disj(a, b) => Goal::Disj(Box::new(a.open(k, to)), Box::new(b.open(k, to))),
        }
    }

    /// An independent copy of this goal.
    pub fn copy(&self) -> (r: Goal)
        ensures
            r@ == self@,
        decreases self,
    {
        match self {
            Goal::Eq(u, v) => Goal::Eq(u.clone(), v.clone()),
            Goal::Succeed => Goal::Succeed,
            Goal::Fail => Goal::Fail,
            Goal::Fresh(j, b) => Goal::Fresh(*j, Box::new(b.copy())),
            Goal::Conj(a, b) => Goal::Conj(Box::new(a.copy()), Box::new(b.copy())),
            Goal::Disj(a, b) => Goal::Disj(Box::new(a.copy()), Box::new(b.copy())),
        }
    }

    /// The largest binder number in this goal (0 if it has none).
    fn max_binder(&self) -> (m: usize)
        ensures
            m == max_binder(self@),
        decreases self,
    {
        match self {
            Goal::Fresh(k, b) => {
                let mb = b.max_binder();
                if *k >= mb { *k } else { mb }
            },
            Goal::Conj(a, b) | Goal::Disj(a, b) => {
                let ma = a.max_binder();
                let mb = b.max_binder();
                if ma >= mb { ma } else { mb }
            },
            _ => 0,
        }
    }

    /// Every state in which this goal holds, starting from `st`, in order.
    pub fn solve(&self, st: &State) -> (r: Vec<State>)
        requires
            st@.next + fresh_count(self@) <= usize::MAX,
        ensures
            states_v(r@) == solve(self@, st@),
        decreases goal_size(self@),
    {
        match self {
            Goal::Eq(u, v) => match unify(u, v, &st.subst) {
                Some(s) => {
                    let out = vec![State { subst: s, next: st.next }];
                    assert(states_v(out@) =~= solve(self@, st@));
                    out
                },
                None => {
                    let out: Vec<State> = Vec::new();
                    assert(states_v(out@) =~= solve(self@, st@));
                    out
                },
            },
            Goal::Succeed => {
                let out = vec![st.clone()];
                assert(states_v(out@) =~= solve(self@, st@));
                out
            },
            Goal::Fail => {
                let out: Vec<State> = Vec::new();
                assert(states_v(out@) =~= solve(self@, st@));
                out
            },
            Goal::Fresh(k, b) => {
                let opened = b.open(*k, st.next);
                proof {
                    lemma_open_keeps_shape(b@, *k, st@.next);
                }
                let st2 = State { subst: st.subst.copy(), next: st.next + 1 };
                opened.solve(&st2)
            },
            Goal::Conj(a, b) => {
                let sa = a.solve(st);
                proof {
                    lemma_solve_next_bound(a@, st@);
                }
                let ghost sav = states_v(sa@);
                let mut out: Vec<State> = Vec::new();
                let mut i: usize = 0;
                while i < sa.len()
                    invariant
                        i <= sa.len(),
                        sav == states_v(sa@),
                        sav == solve(a@, st@),
                        self@ == GoalV::Conj(Box::new(a@), Box::new(b@)),
                        st@.next + fresh_count(a@) + fresh_count(b@) <= usize::MAX,
                        forall|j: int| 0 <= j < sav.len() ==> #[trigger] sav[j].next <= st@.next + fresh_count(a@),
                        states_v(out@) == bind(sav.take(i as int), b@),
                    decreases sa.len() - i,
                {
                    assert(sav[i as int] == sa@[i as int]@);
                    let mut sub = b.solve(&sa[i]);
                    proof {
                        assert(sav.take(i + 1).drop_last() =~= sav.take(i as int));
                        assert(sav.take(i + 1).last() == sav[i as int]);
                    }
                    let ghost before = out@;
                    let ghost subv = sub@;
                    out.append(&mut sub);
                    proof {
                        assert(states_v(out@) =~= states_v(before) + states_v(subv)) by {
                            assert(out@ =~= before + subv);
                        }
                    }
                    i = i + 1;
                }
                assert(sav.take(sav.len() as int) =~= sav);
                out
            },
            Goal::Disj(a, b) => {
                let mut x = a.solve(st);
                let mut y = b.solve(st);
                let ghost xv = x@;
                let ghost yv = y@;
                x.append(&mut y);
                assert(states_v(x@) =~= states_v(xv) + states_v(yv)) by {
                    assert(x@ =~= xv + yv);
                }
                x
            },
        }
    }
}

/// The variable a binder `k` stands for before it is opened.
fn marker_of(k: usize) -> (m: usize)
    ensures
        m == marker(k),
{
    usize::MAX - k
}

} // verus!

verus! {

// ---------------------------------------------------------------------------
// Building goals
// ---------------------------------------------------------------------------

pub open spec fn goals_v(gs: Seq<Goal>) -> Seq<GoalV> {
    gs.map_values(|g: Goal| g@)
}

/// `Conj` folded over `gs` from the left, starting from `Succeed`.
pub open spec fn conj_fold(gs: Seq<GoalV>) -> GoalV
    decreases gs.len(),
{
    if gs.len() == 0 {
        GoalV::Succeed
    } else {
        GoalV::Conj(Box::new(conj_fold(gs.drop_last())), Box::new(gs.last()))
    }
}

/// `Disj` folded over `gs` from the left, starting from `Fail`.
pub open spec fn disj_fold(gs: Seq<GoalV>) -> GoalV
    decreases gs.len(),
{
    if gs.len() == 0 {
        GoalV::Fail
    } else {
        GoalV::Disj(Box::new(disj_fold(gs.drop_last())), Box::new(gs.last()))
    }
}

/// One `Eq(x, item)` goal per item.
pub open spec fn eq_each(x: TermV, items: Seq<TermV>) -> Seq<GoalV> {
    items.map_values(|it: TermV| GoalV::Eq(x, it))
}

/// `u` and `v` are the same thing. The primitive goal; everything builds on it.
pub fn eq(u: Term, v: Term) -> (g: Goal)
    ensures
        g@ == GoalV::Eq(u@, v@),
{
    Goal::Eq(u, v)
}

/// Always succeeds, changing nothing. Identity for [`conj_all`].
pub fn succeed() -> (g: Goal)
    ensures
        g@ == GoalV::Succeed,
{
    Goal::Succeed
}

/// Always fails. Identity for [`disj_any`].
pub fn fail() -> (g: Goal)
    ensures
        g@ == GoalV::Fail,
{
    Goal::Fail
}

/// Both goals hold. Each state `a` produces is fed through `b`.
pub fn conj(a: Goal, b: Goal) -> (g: Goal)
    ensures
        g@ == GoalV::Conj(Box::new(a@), Box::new(b@)),
{
    Goal::Conj(Box::new(a), Box::new(b))
}

/// Either goal holds. The results are concatenated, `a`'s first: there is no
/// interleaving to reason about.
pub fn disj(a: Goal, b: Goal) -> (g: Goal)
    ensures
        g@ == GoalV::Disj(Box::new(a@), Box::new(b@)),
{
    Goal::Disj(Box::new(a), Box::new(b))
}

/// All of these goals hold. Empty = [`succeed`].
pub fn conj_all(goals: Vec<Goal>) -> (g: Goal)
    ensures
        g@ == conj_fold(goals_v(goals@)),
{
    let ghost all = goals_v(goals@);
    let n = goals.len();
    assert(all.len() == n);
    let mut goals = goals;
    let mut acc = succeed();
    let mut i: usize = 0;
    while goals.len() > 0
        invariant
            i + goals@.len() == all.len(),
            all.len() <= usize::MAX,
            goals_v(goals@) == all.subrange(i as int, all.len() as int),
            acc@ == conj_fold(all.take(i as int)),
        decreases goals.len(),
    {
        let ghost before = goals@;
        let g = goals.remove(0);
        proof {
            assert(goals_v(before)[0] == g@);
            assert(all[i as int] == g@) by {
                assert(all.subrange(i as int, all.len() as int)[0] == all[i as int]);
            }
            assert(goals@ =~= before.subrange(1, before.len() as int));
            assert forall|j: int| 0 <= j < goals@.len() implies #[trigger] goals_v(goals@)[j] == all[i + 1 + j] by {
                assert(goals@[j] == before[j + 1]);
                assert(goals_v(before)[j + 1] == all.subrange(i as int, all.len() as int)[j + 1]);
            }
            assert(goals_v(goals@) =~= all.subrange(i + 1, all.len() as int));
            assert(all.take(i + 1).drop_last() =~= all.take(i as int));
        }
        acc = conj(acc, g);
        i = i + 1;
    }
    assert(all.take(all.len() as int) =~= all);
    acc
}

/// Any of these goals holds. Empty = [`fail`]. This is `conde`, for a finite
/// set.
pub fn disj_any(goals: Vec<Goal>) -> (g: Goal)
    ensures
        g@ == disj_fold(goals_v(goals@)),
{
    let ghost all = goals_v(goals@);
    let n = goals.len();
    assert(all.len() == n);
    let mut goals = goals;
    let mut acc = fail();
    let mut i: usize = 0;
    while goals.len() > 0
        invariant
            i + goals@.len() == all.len(),
            all.len() <= usize::MAX,
            goals_v(goals@) == all.subrange(i as int, all.len() as int),
            acc@ == disj_fold(all.take(i as int)),
        decreases goals.len(),
    {
        let ghost before = goals@;
        let g = goals.remove(0);
        proof {
            assert(goals_v(before)[0] == g@);
            assert(all[i as int] == g@) by {
                assert(all.subrange(i as int, all.len() as int)[0] == all[i as int]);
            }
            assert(goals@ =~= before.subrange(1, before.len() as int));
            assert forall|j: int| 0 <= j < goals@.len() implies #[trigger] goals_v(goals@)[j] == all[i + 1 + j] by {
                assert(goals@[j] == before[j + 1]);
                assert(goals_v(before)[j + 1] == all.subrange(i as int, all.len() as int)[j + 1]);
            }
            assert(goals_v(goals@) =~= all.subrange(i + 1, all.len() as int));
            assert(all.take(i + 1).drop_last() =~= all.take(i as int));
        }
        acc = disj(acc, g);
        i = i + 1;
    }
    assert(all.take(all.len() as int) =~= all);
    acc
}

/// `x` is one of `items`: one alternative `eq(x, item)` per item, in order.
pub fn membero(x: Term, items: Vec<Term>) -> (g: Goal)
    ensures
        g@ == disj_fold(eq_each(x@, views(items@))),
{
    let mut goals: Vec<Goal> = Vec::new();
    let mut i: usize = 0;
    while i < items.len()
        invariant
            i <= items.len(),
            goals_v(goals@) == eq_each(x@, views(items@)).take(i as int),
        decreases items.len() - i,
    {
        let ghost before = goals@;
        goals.push(eq(x.clone(), items[i].clone()));
        proof {
            let e = eq_each(x@, views(items@));
            assert(e.len() == items@.len());
            assert(goals_v(before).len() == before.len());
            assert(before.len() == i);
            assert(goals@.len() == i + 1);
            assert forall|j: int| 0 <= j < i + 1 implies #[trigger] goals_v(goals@)[j] == e.take(i + 1)[j] by {
                if j < i {
                    assert(goals@[j] == before[j]);
                    assert(goals_v(before)[j] == e.take(i as int)[j]);
                }
            }
            assert(goals_v(goals@) =~= e.take(i + 1));
        }
        i = i + 1;
    }
    assert(eq_each(x@, views(items@)).take(items.len() as int) =~= eq_each(x@, views(items@)));
    disj_any(goals)
}

/// The binder `fresh` gives a body whose probe holds binders up to
/// `max_binder(probe)`: one more than any of them.
pub open spec fn binder_after(probe: GoalV) -> usize {
    if max_binder(probe) < usize::MAX {
        (max_binder(probe) + 1) as usize
    } else {
        max_binder(probe)
    }
}

/// Whether variable `n` occurs in `t`.
pub open spec fn term_mentions(t: TermV, n: usize) -> bool
    decreases t,
{
    match t {
        TermV::Var(x) => x == n,
        TermV::Pair(h, tl) => term_mentions(*h, n) || term_mentions(*tl, n),
        _ => false,
    }
}

/// Whether variable `n` occurs anywhere in `g`, inner binders' bodies included.
pub open spec fn goal_mentions(g: GoalV, n: usize) -> bool
    decreases g,
{
    match g {
        GoalV::Eq(u, v) => term_mentions(u, n) || term_mentions(v, n),
        GoalV::Fresh(_, b) => goal_mentions(*b, n),
        GoalV::Conj(a, b) => goal_mentions(*a, n) || goal_mentions(*b, n),
        GoalV::Disj(a, b) => goal_mentions(*a, n) || goal_mentions(*b, n),
        _ => false,
    }
}

/// The body `b` a closure built over the binder after its probe `p` mentions
/// that binder's variable only where the probe mentions its own argument: the
/// probe never names the binder's variable, and moving the argument back from
/// the binder's variable to the probe's turns the body into the probe. So no
/// variable the closure makes up itself is taken for the new unknown.
pub open spec fn built_over_argument(p: GoalV, b: GoalV) -> bool {
    &&& !goal_mentions(p, marker(binder_after(p)))
    &&& open_goal(b, binder_after(p), marker(0)) == p
}

/// Introduce a new unknown, then build a goal that talks about it.
///
/// ```ignore
/// fresh(|x| eq(x, Term::atom("north")))
/// ```
///
/// Goals are data, so `f` runs here, when the goal is built, not when it is
/// solved: `f` is applied twice, once to learn which binder numbers the goal
/// it builds already uses, and once to build the body over a binder numbered
/// above all of them, so nested unknowns never collide. A relation that calls
/// itself through `fresh` therefore unfolds completely while it is built; one
/// that recurses without end is not cut short by a failing unification and
/// never finishes building.
///
/// The binder's variable is numbered from the top of the range
/// (`usize::MAX - k`). `f` must build its goal over its argument only: a
/// variable it makes up itself with the binder's number would be taken for
/// the new unknown, so that is ruled out.
pub fn fresh<F>(f: F) -> (g: Goal)
    where
        F: Fn(Term) -> Goal + 'static,
    requires
        forall|t: Term| f.requires((t,)),
        forall|p: Goal, b: Goal|
            #![trigger f.ensures((Term::Var(Var(marker(0))),), p), f.ensures((Term::Var(Var(marker(binder_after(p@)))),), b)]
            f.ensures((Term::Var(Var(marker(0))),), p) && f.ensures(
                (Term::Var(Var(marker(binder_after(p@)))),),
                b,
            ) ==> built_over_argument(p@, b@),
    ensures
        exists|probe: Goal, body: Goal|
            {
                &&& f.ensures((Term::Var(Var(marker(0))),), probe)
                &&& f.ensures((Term::Var(Var(marker(binder_after(probe@)))),), body)
                &&& g@ == GoalV::Fresh(binder_after(probe@), Box::new(body@))
            },
{
    let probe = f(Term::Var(Var(marker_of(0))));
    let m = probe.max_binder();
    let k = if m < usize::MAX { m + 1 } else { m };
    let body = f(Term::Var(Var(marker_of(k))));
    let g = Goal::Fresh(k, Box::new(body));
    assert(binder_after(probe@) == k);
    assert(g@ == GoalV::Fresh(binder_after(probe@), Box::new(body@)));
    g
}

/// What the query variable became in each answer of `g`, solved from a
/// state that has handed out only the query variable `Var(0)`; at most
/// `limit` of them when a limit is given.
pub open spec fn answers(g: GoalV, limit: Option<usize>) -> Seq<TermV> {
    let all = solve(g, StateV { subst: Map::empty(), next: 1 }).map_values(
        |s: StateV| reify(s.subst, TermV::Var(0)),
    );
    match limit {
        Some(n) => if n < all.len() {
            all.take(n as int)
        } else {
            all
        },
        None => all,
    }
}

/// Solve for one query variable, and report what it became in each answer.
///
/// `limit` caps the answers returned; `None` means all of them (`run*`).
pub fn run<F>(limit: Option<usize>, f: F) -> (r: Vec<Term>)
    where
        F: Fn(Term) -> Goal,
    requires
        forall|t: Term| f.requires((t,)),
        forall|t: Term, g: Goal| f.ensures((t,), g) ==> 1 + fresh_count(g@) <= usize::MAX,
    ensures
        exists|g: Goal| f.ensures((Term::Var(Var(0)),), g) && views(r@) == answers(g@, limit),
{
    let (st, q) = State::new().with_fresh();
    let query = Term::Var(q);
    let goal = f(query.clone());
    let states = goal.solve(&st);
    let ghost sv = states_v(states@);
    let ghost all = sv.map_values(|s: StateV| reify(s.subst, TermV::Var(0)));
    let mut out: Vec<Term> = Vec::new();
    let mut i: usize = 0;
    while i < states.len()
        invariant
            i <= states.len(),
            sv == states_v(states@),
            all == sv.map_values(|s: StateV| reify(s.subst, TermV::Var(0))),
            query@ == TermV::Var(0),
            views(out@) == all.take(i as int),
        decreases states.len() - i,
    {
        let ghost before = out@;
        let a = states[i].subst.reify(&query);
        out.push(a);
        proof {
            assert(sv[i as int] == states@[i as int]@);
            assert(all.len() == states@.len());
            assert(views(before).len() == before.len());
            assert(before.len() == i);
            assert(out@.len() == i + 1);
            assert forall|j: int| 0 <= j < i + 1 implies #[trigger] views(out@)[j] == all.take(i + 1)[j] by {
                if j < i {
                    assert(out@[j] == before[j]);
                    assert(views(before)[j] == all.take(i as int)[j]);
                }
            }
            assert(views(out@) =~= all.take(i + 1));
        }
        i = i + 1;
    }
    assert(all.take(all.len() as int) =~= all);
    match limit {
        Some(n) => {
            if n < out.len() {
                let ghost before = out@;
                out.truncate(n);
                assert(views(out@) =~= all.take(n as int)) by {
                    assert(out@ =~= before.subrange(0, n as int));
                }
            }
        },
        None => {},
    }
    out
}

} // verus!

verus! {

// ---------------------------------------------------------------------------
// Laws of the solver
// ---------------------------------------------------------------------------

/// The states of each goal in `gs` from `st`, concatenated in order.
pub open spec fn solve_each(gs: Seq<GoalV>, st: StateV) -> Seq<StateV>
    decreases gs.len(),
{
    if gs.len() == 0 {
        Seq::empty()
    } else {
        solve_each(gs.drop_last(), st) + solve(gs.last(), st)
    }
}

/// `disj_any` widens: its answers are the answers of each alternative, in
/// the order the alternatives were given. With no alternatives it fails.
pub proof fn lemma_disj_any_concatenates(gs: Seq<GoalV>, st: StateV)
    ensures
        solve(disj_fold(gs), st) == solve_each(gs, st),
    decreases gs.len(),
{
    if gs.len() > 0 {
        lemma_disj_any_concatenates(gs.drop_last(), st);
    }
}

/// Every variable of `t` is numbered below `n` or is one of `allowed`.
pub open spec fn term_vars_within(t: TermV, n: usize, allowed: Set<usize>) -> bool
    decreases t,
{
    match t {
        TermV::Var(x) => x < n || allowed.contains(x),
        TermV::Pair(h, tl) => term_vars_within(*h, n, allowed) && term_vars_within(*tl, n, allowed),
        _ => true,
    }
}

/// Every variable of `g` is numbered below `n`, or is the variable of a
/// binder around it, or one of `allowed`.
pub open spec fn goal_vars_within(g: GoalV, n: usize, allowed: Set<usize>) -> bool
    decreases g,
{
    match g {
        GoalV::Eq(u, v) => term_vars_within(u, n, allowed) && term_vars_within(v, n, allowed),
        GoalV::Fresh(k, b) => goal_vars_within(*b, n, allowed.insert(marker(k))),
        GoalV::Conj(a, b) => goal_vars_within(*a, n, allowed) && goal_vars_within(*b, n, allowed),
        GoalV::Disj(a, b) => goal_vars_within(*a, n, allowed) && goal_vars_within(*b, n, allowed),
        _ => true,
    }
}

/// The variables `g` talks about, apart from its binders' own, were all
/// handed out before the counter reached `n`.
pub open spec fn goal_vars_below(g: GoalV, n: usize) -> bool {
    goal_vars_within(g, n, Set::empty())
}

proof fn lemma_term_within_widens(t: TermV, n: usize, a: Set<usize>, n2: usize, a2: Set<usize>)
    requires
        term_vars_within(t, n, a),
        n <= n2,
        a.subset_of(a2),
    ensures
        term_vars_within(t, n2, a2),
    decreases t,
{
    if let TermV::Pair(h, tl) = t {
        lemma_term_within_widens(*h, n, a, n2, a2);
        lemma_term_within_widens(*tl, n, a, n2, a2);
    }
}

proof fn lemma_goal_within_widens(g: GoalV, n: usize, a: Set<usize>, n2: usize, a2: Set<usize>)
    requires
        goal_vars_within(g, n, a),
        n <= n2,
        a.subset_of(a2),
    ensures
        goal_vars_within(g, n2, a2),
    decreases g,
{
    match g {
        GoalV::Eq(u, v) => {
            lemma_term_within_widens(u, n, a, n2, a2);
            lemma_term_within_widens(v, n, a, n2, a2);
        },
        GoalV::Fresh(k, b) => {
            lemma_goal_within_widens(*b, n, a.insert(marker(k)), n2, a2.insert(marker(k)));
        },
        GoalV::Conj(x, y) => {
            lemma_goal_within_widens(*x, n, a, n2, a2);
            lemma_goal_within_widens(*y, n, a, n2, a2);
        },
        GoalV::Disj(x, y) => {
            lemma_goal_within_widens(*x, n, a, n2, a2);
            lemma_goal_within_widens(*y, n, a, n2, a2);
        },
        _ => {},
    }
}

proof fn lemma_term_within_below(t: TermV, n: usize)
    requires
        term_vars_within(t, n, Set::empty()),
    ensures
        term_vars_below(t, n),
    decreases t,
{
    if let TermV::Pair(h, tl) = t {
        lemma_term_within_below(*h, n);
        lemma_term_within_below(*tl, n);
    }
}

proof fn lemma_rename_within(t: TermV, n: usize, a: Set<usize>, m: usize)
    requires
        term_vars_within(t, n, a.insert(m)),
        n < usize::MAX,
    ensures
        term_vars_within(rename(t, m, n), (n + 1) as usize, a),
    decreases t,
{
    if let TermV::Pair(h, tl) = t {
        lemma_rename_within(*h, n, a, m);
        lemma_rename_within(*tl, n, a, m);
    }
}

proof fn lemma_open_within(b: GoalV, k: usize, n: usize, a: Set<usize>)
    requires
        goal_vars_within(b, n, a.insert(marker(k))),
        n < usize::MAX,
    ensures
        goal_vars_within(open_goal(b, k, n), (n + 1) as usize, a),
    decreases b,
{
    match b {
        GoalV::Eq(u, v) => {
            lemma_rename_within(u, n, a, marker(k));
            lemma_rename_within(v, n, a, marker(k));
        },
        GoalV::Fresh(j, c) => {
            if j == k {
                assert(a.insert(marker(k)).insert(marker(k)) =~= a.insert(marker(k)));
                lemma_goal_within_widens(
                    *c,
                    n,
                    a.insert(marker(k)).insert(marker(k)),
                    (n + 1) as usize,
                    a.insert(marker(k)),
                );
            } else {
                assert(a.insert(marker(k)).insert(marker(j)) =~= a.insert(marker(j)).insert(marker(k)));
                lemma_open_within(*c, k, n, a.insert(marker(j)));
            }
        },
        GoalV::Conj(x, y) => {
            lemma_open_within(*x, k, n, a);
            lemma_open_within(*y, k, n, a);
        },
        GoalV::Disj(x, y) => {
            lemma_open_within(*x, k, n, a);
            lemma_open_within(*y, k, n, a);
        },
        _ => {},
    }
}

proof fn lemma_walk_n_below(s: Map<usize, TermV>, t: TermV, fuel: nat, n: usize)
    requires
        subst_below(s, n),
        term_vars_below(t, n),
    ensures
        term_vars_below(walk_n(s, t, fuel), n),
    decreases fuel,
{
    if let TermV::Var(x) = t {
        if fuel > 0 && s.contains_key(x) {
            lemma_walk_n_below(s, s[x], (fuel - 1) as nat, n);
        }
    }
}

proof fn lemma_unify_keeps_below(u: TermV, v: TermV, s: Map<usize, TermV>, d: nat, n: usize)
    requires
        subst_below(s, n),
        term_vars_below(u, n),
        term_vars_below(v, n),
    ensures
        unify_n(u, v, s, d) matches Some(s2) ==> subst_below(s2, n),
    decreases d,
{
    lemma_walk_n_below(s, u, s.dom().len(), n);
    lemma_walk_n_below(s, v, s.dom().len(), n);
    let u1 = walk(s, u);
    let v1 = walk(s, v);
    if let Some(s2) = unify_n(u, v, s, d) {
        if u1 is Var && v1 is Var && u1->Var_0 == v1->Var_0 {
        } else if u1 is Var {
            assert(s2 == s.insert(u1->Var_0, v1));
        } else if v1 is Var {
            assert(s2 == s.insert(v1->Var_0, u1));
        } else if u1 is Pair && v1 is Pair {
            let s1 = unify_n(*u1->Pair_0, *v1->Pair_0, s, (d - 1) as nat)->Some_0;
            lemma_unify_keeps_below(*u1->Pair_0, *v1->Pair_0, s, (d - 1) as nat, n);
            lemma_unify_keeps_below(*u1->Pair_1, *v1->Pair_1, s1, (d - 1) as nat, n);
        }
    }
}

/// Solving keeps every state below its counter: from a state whose
/// substitution lies below its counter, a goal whose variables (apart from
/// its binders') were all handed out already reaches only states whose
/// substitution lies below their own counter, so the next variable
/// [`State::with_fresh`] hands out is new there too (see
/// [`lemma_fresh_variable_is_new`]).
pub proof fn lemma_solve_keeps_below(g: GoalV, st: StateV)
    requires
        subst_below(st.subst, st.next),
        goal_vars_below(g, st.next),
        st.next + fresh_count(g) <= usize::MAX,
    ensures
        forall|i: int|
            0 <= i < solve(g, st).len() ==> subst_below(#[trigger] solve(g, st)[i].subst, solve(g, st)[i].next),
    decreases goal_size(g),
{
    lemma_solve_next_bound(g, st);
    match g {
        GoalV::Eq(u, v) => {
            lemma_term_within_below(u, st.next);
            lemma_term_within_below(v, st.next);
            lemma_unify_keeps_below(u, v, st.subst, usize::MAX as nat, st.next);
            if let Some(s2) = unify_spec(u, v, st.subst) {
                assert(solve(g, st) == seq![StateV { subst: s2, next: st.next }]);
                assert(solve(g, st)[0].subst == s2);
            }
        },
        GoalV::Fresh(k, b) => {
            lemma_open_keeps_shape(*b, k, st.next);
            assert(Set::<usize>::empty().insert(marker(k)) =~= Set::<usize>::empty().insert(marker(k)));
            lemma_open_within(*b, k, st.next, Set::empty());
            let st2 = StateV { subst: st.subst, next: (st.next + 1) as usize };
            assert forall|x: usize| #[trigger] st.subst.contains_key(x) implies x < st2.next && term_vars_below(
                st.subst[x],
                st2.next,
            ) by {
                lemma_below_not_mentioned(st.subst[x], st.next);
            }
            assert(st2.next == st.next + 1);
            assert(goal_vars_below(open_goal(*b, k, st.next), st2.next));
            assert(subst_below(st2.subst, st2.next));
            lemma_solve_keeps_below(open_goal(*b, k, st.next), st2);
            assert(solve(g, st) == solve(open_goal(*b, k, st.next), st2));
        },
        GoalV::Conj(a, b) => {
            lemma_solve_keeps_below(*a, st);
            let sa = solve(*a, st);
            lemma_bind_members(sa, *b);
            assert forall|i: int| 0 <= i < solve(g, st).len() implies subst_below(
                #[trigger] solve(g, st)[i].subst,
                solve(g, st)[i].next,
            ) by {
                let x = solve(g, st)[i];
                assert(bind(sa, *b).contains(x));
                let j = choose|j: int| 0 <= j < sa.len() && #[trigger] solve(*b, sa[j]).contains(x);
                lemma_solve_next_bound(*a, st);
                assert(st.next <= sa[j].next && sa[j].next <= st.next + fresh_count(*a));
                lemma_goal_within_widens(*b, st.next, Set::empty(), sa[j].next, Set::empty());
                lemma_solve_keeps_below(*b, sa[j]);
                let m = choose|m: int| 0 <= m < solve(*b, sa[j]).len() && solve(*b, sa[j])[m] == x;
                assert(subst_below(solve(*b, sa[j])[m].subst, solve(*b, sa[j])[m].next));
            }
        },
        GoalV::Disj(a, b) => {
            lemma_solve_keeps_below(*a, st);
            lemma_solve_keeps_below(*b, st);
            let sa = solve(*a, st);
            let sb = solve(*b, st);
            assert forall|i: int| 0 <= i < solve(g, st).len() implies subst_below(
                #[trigger] solve(g, st)[i].subst,
                solve(g, st)[i].next,
            ) by {
                if i < sa.len() {
                    assert(solve(g, st)[i] == sa[i]);
                } else {
                    assert(solve(g, st)[i] == sb[i - sa.len()]);
                }
            }
        },
        _ => {},
    }
}

proof fn lemma_bind_flattens(states: Seq<StateV>, b: GoalV)
    ensures
        bind(states, b) == states.map_values(|x: StateV| solve(b, x)).flatten(),
    decreases states.len(),
{
    if states.len() > 0 {
        lemma_bind_flattens(states.drop_last(), b);
        let f = |x: StateV| solve(b, x);
        assert(states.map_values(f) =~= states.drop_last().map_values(f).push(solve(b, states.last())));
        states.drop_last().map_values(f).lemma_flatten_push(solve(b, states.last()));
    } else {
        assert(states.map_values(|x: StateV| solve(b, x)) =~= Seq::<Seq<StateV>>::empty());
    }
}

/// `conj` feeds each answer of its first goal, in order, through its second:
/// its answers are, for each state of `a` in turn, the states of `b` from it,
/// concatenated. So a conjunction with a goal that always holds answers just
/// as its first goal does, in the same order.
pub proof fn lemma_conj_feeds_in_order(a: GoalV, b: GoalV, st: StateV)
    ensures
        solve(GoalV::Conj(Box::new(a), Box::new(b)), st) == solve(a, st).map_values(
            |x: StateV| solve(b, x),
        ).flatten(),
        solve(GoalV::Conj(Box::new(a), Box::new(GoalV::Succeed)), st) == solve(a, st),
{
    lemma_bind_flattens(solve(a, st), b);
    let sa = solve(a, st);
    lemma_bind_flattens(sa, GoalV::Succeed);
    lemma_flatten_singletons(sa);
    assert(sa.map_values(|x: StateV| solve(GoalV::Succeed, x)) =~= sa.map_values(|x: StateV| seq![x]));
}

proof fn lemma_flatten_singletons(xs: Seq<StateV>)
    ensures
        xs.map_values(|x: StateV| seq![x]).flatten() == xs,
    decreases xs.len(),
{
    if xs.len() > 0 {
        lemma_flatten_singletons(xs.drop_last());
        let f = |x: StateV| seq![x];
        assert(xs.map_values(f) =~= xs.drop_last().map_values(f).push(seq![xs.last()]));
        xs.drop_last().map_values(f).lemma_flatten_push(seq![xs.last()]);
        assert(xs.drop_last() + seq![xs.last()] =~= xs);
    } else {
        assert(xs.map_values(|x: StateV| seq![x]) =~= Seq::<Seq<StateV>>::empty());
    }
}

/// The start state of [`run`]: only the query variable handed out.
pub open spec fn run_start() -> StateV {
    StateV { subst: Map::empty(), next: 1 }
}

proof fn lemma_query_takes_ground_item(it: TermV)
    requires
        ground(it),
        depth(it) < usize::MAX,
    ensures
        solve(GoalV::Eq(TermV::Var(0), it), run_start()) == seq![
            StateV { subst: Map::<usize, TermV>::empty().insert(0, it), next: 1 },
        ],
        reify(Map::<usize, TermV>::empty().insert(0, it), TermV::Var(0)) == it,
{
    let e = Map::<usize, TermV>::empty();
    assert(e.dom() =~= Set::<usize>::empty());
    assert(walk(e, TermV::Var(0)) == TermV::Var(0));
    assert(!(it is Var));
    assert(walk(e, it) == it);
    let s = e.insert(0, it);
    assert(s.dom() =~= set![0usize]);
    assert(s.dom().len() == 1);
    assert(walk_n(s, it, 0) == it);
    assert(walk(s, TermV::Var(0)) == it);
    match it {
        TermV::Pair(h, tl) => {
            lemma_reify_fixes_unbound_terms(s, *h, (usize::MAX - 1) as nat);
            lemma_reify_fixes_unbound_terms(s, *tl, (usize::MAX - 1) as nat);
        },
        _ => {},
    }
}

proof fn lemma_query_over_ground_items(items: Seq<TermV>)
    requires
        forall|i: int| 0 <= i < items.len() ==> ground(#[trigger] items[i]) && depth(items[i]) < usize::MAX,
    ensures
        solve_each(eq_each(TermV::Var(0), items), run_start()).map_values(
            |st: StateV| reify(st.subst, TermV::Var(0)),
        ) == items,
    decreases items.len(),
{
    let gs = eq_each(TermV::Var(0), items);
    if items.len() > 0 {
        let front = items.drop_last();
        assert(gs.drop_last() =~= eq_each(TermV::Var(0), front));
        lemma_query_over_ground_items(front);
        let it = items.last();
        assert(ground(items[items.len() - 1]));
        lemma_query_takes_ground_item(it);
        let a = solve_each(gs.drop_last(), run_start());
        let b = solve(gs.last(), run_start());
        let f = |st: StateV| reify(st.subst, TermV::Var(0));
        assert((a + b).map_values(f) =~= a.map_values(f) + b.map_values(f));
        assert(b.map_values(f) =~= seq![it]);
        assert(items =~= front + seq![it]);
    } else {
        assert(solve_each(gs, run_start()).map_values(|st: StateV| reify(st.subst, TermV::Var(0))) =~= items);
    }
}

/// Asking for a query variable that is one of some ground items answers
/// exactly those items, in order, repeats kept: `run(None, |q| membero(q,
/// items))` gives back `items`.
pub proof fn lemma_membero_of_ground_items(items: Seq<TermV>)
    requires
        forall|i: int| 0 <= i < items.len() ==> ground(#[trigger] items[i]) && depth(items[i]) < usize::MAX,
    ensures
        answers(disj_fold(eq_each(TermV::Var(0), items)), None) == items,
{
    lemma_disj_any_concatenates(eq_each(TermV::Var(0), items), run_start());
    lemma_query_over_ground_items(items);
}

/// `conj_all` of no goals succeeds once, changing nothing; of one more goal,
/// it feeds every earlier answer through that goal.
pub proof fn lemma_conj_all_chains(gs: Seq<GoalV>, st: StateV)
    ensures
        gs.len() == 0 ==> solve(conj_fold(gs), st) == seq![st],
        gs.len() > 0 ==> solve(conj_fold(gs), st) == bind(solve(conj_fold(gs.drop_last()), st), gs.last()),
{
}

/// `conj` narrows: every answer of `conj(a, b)` is an answer of `b` from an
/// answer of `a`, and every such answer is one of `conj(a, b)`'s.
pub proof fn lemma_bind_members(states: Seq<StateV>, b: GoalV)
    ensures
        forall|x: StateV|
            #![trigger bind(states, b).contains(x)]
            bind(states, b).contains(x) <==> exists|i: int|
                0 <= i < states.len() && #[trigger] solve(b, states[i]).contains(x),
    decreases states.len(),
{
    if states.len() > 0 {
        let p = states.drop_last();
        lemma_bind_members(p, b);
        let bp = bind(p, b);
        let last = solve(b, states.last());
        let all = bind(states, b);
        assert(all == bp + last);
        assert forall|x: StateV| #[trigger] all.contains(x) <==> exists|i: int|
            0 <= i < states.len() && #[trigger] solve(b, states[i]).contains(x) by {
            if all.contains(x) {
                let k = choose|k: int| 0 <= k < all.len() && #[trigger] all[k] == x;
                if k < bp.len() {
                    assert(bp[k] == x);
                    assert(bp.contains(x));
                    let i = choose|i: int| 0 <= i < p.len() && #[trigger] solve(b, p[i]).contains(x);
                    assert(p[i] == states[i]);
                } else {
                    assert(last[k - bp.len()] == x);
                    assert(last.contains(x));
                    assert(states[states.len() - 1] == states.last());
                }
            }
            if exists|i: int| 0 <= i < states.len() && #[trigger] solve(b, states[i]).contains(x) {
                let i = choose|i: int| 0 <= i < states.len() && #[trigger] solve(b, states[i]).contains(x);
                if i < p.len() {
                    assert(p[i] == states[i]);
                    assert(bp.contains(x));
                    let k = choose|k: int| 0 <= k < bp.len() && #[trigger] bp[k] == x;
                    assert(all[k] == x);
                } else {
                    assert(states[i] == states.last());
                    let m = choose|m: int| 0 <= m < last.len() && #[trigger] last[m] == x;
                    assert(all[bp.len() + m] == x);
                }
            }
        }
    }
}

/// `t` holds no variable.
pub open spec fn ground(t: TermV) -> bool
    decreases t,
{
    match t {
        TermV::Var(_) => false,
        TermV::Pair(h, tl) => ground(*h) && ground(*tl),
        _ => true,
    }
}

/// Every variable of `t` is bound by `s` to an atom.
pub open spec fn atom_bound(s: Map<usize, TermV>, t: TermV) -> bool
    decreases t,
{
    match t {
        TermV::Var(v) => s.contains_key(v) && s[v] is Atom,
        TermV::Pair(h, tl) => atom_bound(s, *h) && atom_bound(s, *tl),
        _ => true,
    }
}

/// `t` with each variable replaced by what `s` binds it to.
pub open spec fn inst(s: Map<usize, TermV>, t: TermV) -> TermV
    decreases t,
{
    match t {
        TermV::Var(v) => s[v],
        TermV::Pair(h, tl) => TermV::Pair(Box::new(inst(s, *h)), Box::new(inst(s, *tl))),
        _ => t,
    }
}

/// How many pairs deep `t` nests.
pub open spec fn depth(t: TermV) -> nat
    decreases t,
{
    match t {
        TermV::Pair(h, tl) => 1 + if depth(*h) >= depth(*tl) { depth(*h) } else { depth(*tl) },
        _ => 0,
    }
}

pub proof fn lemma_walk_atom_bound(s: Map<usize, TermV>, t: TermV)
    requires
        s.dom().finite(),
        t is Var ==> s.contains_key(t->Var_0) && s[t->Var_0] is Atom,
    ensures
        t is Var ==> walk(s, t) == s[t->Var_0],
        !(t is Var) ==> walk(s, t) == t,
{
    if t is Var {
        let v = t->Var_0;
        assert(s.dom().contains(v));
        vstd::set_lib::lemma_set_empty_equivalency_len(s.dom());
        assert(s.dom().len() > 0);
        let n = s.dom().len();
        assert(walk_n(s, s[v], (n - 1) as nat) == s[v]);
        assert(walk_n(s, t, n) == walk_n(s, s[v], (n - 1) as nat));
    }
}

/// A term whose variables are all bound to atoms unifies with a ground term
/// exactly when, once its variables are replaced, the two are equal — and
/// then it binds nothing new.
pub proof fn lemma_unify_against_ground(u: TermV, v: TermV, s: Map<usize, TermV>, d: nat)
    requires
        s.dom().finite(),
        atom_bound(s, u),
        ground(v),
        d >= depth(u),
    ensures
        unify_n(u, v, s, d) == (if inst(s, u) == v { Some(s) } else { None::<Map<usize, TermV>> }),
    decreases u,
{
    lemma_walk_atom_bound(s, u);
    lemma_walk_atom_bound(s, v);
    match u {
        TermV::Pair(uh, ut) => {
            match v {
                TermV::Pair(vh, vt) => {
                    lemma_unify_against_ground(*uh, *vh, s, (d - 1) as nat);
                    lemma_unify_against_ground(*ut, *vt, s, (d - 1) as nat);
                },
                _ => {},
            }
        },
        _ => {},
    }
}

/// `limit` caps the answers: at most `n` of them, and they are the first
/// `n` of all the answers.
pub proof fn lemma_limit_caps_the_answers(g: GoalV, n: usize)
    ensures
        answers(g, Some(n)).len() <= n,
        answers(g, Some(n)) == answers(g, None).take(answers(g, Some(n)).len() as int),
{
    let all = answers(g, None);
    if n >= all.len() {
        assert(all.take(all.len() as int) =~= all);
    }
}

} // verus!
