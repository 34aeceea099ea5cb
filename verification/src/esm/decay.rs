//! # Decay — memory eroding with motion
//!
//! Instructions given to a companion NPC decay over distance walked. The
//! **first instruction survives longest; the tail erodes**:
//!
//! ```scheme
//! (defrel (retained-instructions StepsRemaining FullList RetainedList)
//!   (conde
//!     [(== StepsRemaining 0) (== RetainedList FullList)]
//!     [(> StepsRemaining 0)
//!      (fresh (head tail decayed-tail)
//!        (== FullList (cons head tail))
//!        (decay-chance StepsRemaining tail decayed-tail)
//!        (== RetainedList (cons head decayed-tail)))]))
//! ```
//!
//! `decay-chance` is stochastic, so randomness is *injected*, never ambient:
//! same seed and same inputs give the same memory, always. [`Rng`] is not
//! cryptographic and must never be used as though it were.
use vstd::prelude::*;

use crate::text::texts;

verus! {

/// The SplitMix64 increment.
pub const GOLDEN_GAMMA: u64 = 0x9E37_79B9_7F4A_7C15;

/// The state after one SplitMix64 step.
pub open spec fn advance(s: u64) -> u64 {
    s.wrapping_add(GOLDEN_GAMMA)
}

/// The state after `n` steps.
pub open spec fn advance_n(s: u64, n: nat) -> u64
    decreases n,
{
    if n == 0 {
        s
    } else {
        advance(advance_n(s, (n - 1) as nat))
    }
}

/// The SplitMix64 output for a (freshly advanced) state.
pub open spec fn mix(s: u64) -> u64 {
    let z1 = (s ^ (s >> 30u64)).wrapping_mul(0xBF58_476D_1CE4_E5B9);
    let z2 = (z1 ^ (z1 >> 27u64)).wrapping_mul(0x94D0_49BB_1331_11EB);
    z2 ^ (z2 >> 31u64)
}

/// A small, fast, fully deterministic PRNG (SplitMix64).
///
/// Not cryptographic. Its only jobs are to be reproducible from a seed and to
/// need no dependency.
#[derive(Clone, Debug)]
pub struct Rng {
    state: u64,
}

impl Rng {
    /// The generator's state.
    pub closed spec fn state(&self) -> u64 {
        self.state
    }

    /// Seed it. The same seed always replays the same sequence.
    pub fn seeded(seed: u64) -> (r: Rng)
        ensures
            r.state() == seed,
    {
        Rng { state: seed }
    }

    /// The next value of the sequence.
    pub fn next_u64(&mut self) -> (x: u64)
        ensures
            final(self).state() == advance(old(self).state()),
            x == mix(final(self).state()),
    {
        self.state = self.state.wrapping_add(GOLDEN_GAMMA);
        let mut z = self.state;
        z = (z ^ (z >> 30u64)).wrapping_mul(0xBF58_476D_1CE4_E5B9);
        z = (z ^ (z >> 27u64)).wrapping_mul(0x94D0_49BB_1331_11EB);
        z ^ (z >> 31u64)
    }

    /// A value in `0..n` (for `n > 0`; `0` for `n == 0`, drawing nothing). Has
    /// a negligible modulo bias, which does not matter for forgetting an
    /// errand.
    pub fn below(&mut self, n: u64) -> (x: u64)
        ensures
            n == 0 ==> x == 0 && final(self).state() == old(self).state(),
            n > 0 ==> final(self).state() == advance(old(self).state()) && x == mix(final(self).state()) % n,
    {
        if n == 0 {
            return 0;
        }
        self.next_u64() % n
    }
}

/// Never forget *everything* — an NPC who has lost the plot entirely is a bug
/// report, not a character.
pub const FORGET_CEILING_PCT: u64 = 95;

/// The chance, in percent, that the instruction at `depth` is lost after
/// walking `steps`: pressure compounds with distance and with depth, up to
/// the ceiling.
pub open spec fn chance_pct(steps: u32, depth: nat) -> nat {
    if steps * depth >= FORGET_CEILING_PCT {
        FORGET_CEILING_PCT as nat
    } else {
        (steps * depth) as nat
    }
}

/// Whether the instruction at `depth` is kept, given the generator's state
/// `s` before the walk began: the `depth`-th draw decides it. The head
/// (`depth` 0) is always kept.
pub open spec fn kept_at(steps: u32, depth: nat, s: u64) -> bool {
    depth == 0 || mix(advance_n(s, depth)) % 100 >= chance_pct(steps, depth)
}

/// Which of `n` instructions are kept.
pub open spec fn keep_mask(steps: u32, n: nat, s: u64) -> Seq<bool> {
    Seq::new(n, |i: int| kept_at(steps, i as nat, s))
}

/// The items of `xs` whose flag in `keep` is set, in their original order.
pub open spec fn pick<A>(xs: Seq<A>, keep: Seq<bool>) -> Seq<A>
    decreases xs.len(),
{
    if xs.len() == 0 {
        Seq::empty()
    } else {
        pick(xs.drop_last(), keep.drop_last()) + if keep.last() {
            seq![xs.last()]
        } else {
            Seq::<A>::empty()
        }
    }
}

/// What a companion still remembers of `full` after walking `steps`, from a
/// generator in state `s`: everything when standing still, else the head and
/// each later instruction its draw spares, in order.
pub open spec fn retained(steps: u32, full: Seq<Seq<char>>, s: u64) -> Seq<Seq<char>> {
    if steps == 0 {
        full
    } else {
        pick(full, keep_mask(steps, full.len(), s))
    }
}

/// `decay-chance`, made concrete: draws once from `rng`.
///
/// The curve is a placeholder for design tuning, kept a pure function of
/// `(steps, depth, rng)` so that replacing it cannot break determinism.
fn forgets(rng: &mut Rng, steps: u32, depth: usize) -> (f: bool)
    ensures
        final(rng).state() == advance(old(rng).state()),
        f == !(mix(final(rng).state()) % 100 >= chance_pct(steps, depth as nat)),
{
    assert((steps as u128) * (depth as u128) <= u128::MAX) by (nonlinear_arith)
        requires
            steps <= u32::MAX,
            depth <= usize::MAX,
            usize::MAX <= u64::MAX,
    ;
    let product: u128 = (steps as u128) * (depth as u128);
    let chance: u64 = if product >= FORGET_CEILING_PCT as u128 {
        FORGET_CEILING_PCT
    } else {
        product as u64
    };
    rng.below(100) < chance
}

/// Which instructions does the companion still have, after walking `steps`?
///
/// The head always survives; each later instruction is likelier to be lost
/// the deeper it sits and the further we walked. Order is preserved.
/// `steps == 0` retains everything, and draws nothing.
pub fn retained_instructions(steps: u32, full: &[String], rng: &mut Rng) -> (r: Vec<String>)
    ensures
        texts(r@) == retained(steps, texts(full@), old(rng).state()),
        final(rng).state() == (if steps == 0 || full.len() == 0 {
            old(rng).state()
        } else {
            advance_n(old(rng).state(), (full.len() - 1) as nat)
        }),
{
    let ghost s0 = rng.state();
    let ghost all = texts(full@);
    let ghost mask = keep_mask(steps, full@.len(), s0);
    if steps == 0 || full.len() == 0 {
        let mut v: Vec<String> = Vec::new();
        let mut i: usize = 0;
        while i < full.len()
            invariant
                i <= full.len(),
                all == texts(full@),
                texts(v@) == all.take(i as int),
            decreases full.len() - i,
        {
            let ghost before = v@;
            v.push(full[i].clone());
            proof {
                assert(texts(before).len() == before.len());
                assert forall|j: int| 0 <= j < i + 1 implies #[trigger] texts(v@)[j] == all.take(i + 1)[j] by {
                    if j < i {
                        assert(v@[j] == before[j]);
                        assert(texts(before)[j] == all.take(i as int)[j]);
                    }
                }
                assert(texts(v@) =~= all.take(i + 1));
            }
            i = i + 1;
        }
        proof {
            assert(all.take(full.len() as int) =~= all);
            if steps != 0 {
                assert(all.len() == 0);
                assert(pick(all, mask) =~= all);
            }
        }
        return v;
    }
    let mut retained_v: Vec<String> = Vec::new();
    retained_v.push(full[0].clone());
    proof {
        assert(all.take(1).drop_last() =~= Seq::<Seq<char>>::empty());
        assert(mask.take(1).drop_last() =~= Seq::<bool>::empty());
        assert(mask.take(1).last() == kept_at(steps, 0, s0));
        assert(pick(all.take(1).drop_last(), mask.take(1).drop_last()) =~= Seq::<Seq<char>>::empty());
        assert(all.take(1).last() == all[0]);
        assert(all[0] == full@[0]@);
        assert(texts(retained_v@) =~= seq![full@[0]@]);
        assert(texts(retained_v@) =~= pick(all.take(1), mask.take(1)));
    }
    let mut depth: usize = 1;
    while depth < full.len()
        invariant
            1 <= depth <= full.len(),
            steps > 0,
            all == texts(full@),
            mask == keep_mask(steps, full@.len(), s0),
            rng.state() == advance_n(s0, (depth - 1) as nat),
            texts(retained_v@) == pick(all.take(depth as int), mask.take(depth as int)),
        decreases full.len() - depth,
    {
        let lost = forgets(rng, steps, depth);
        proof {
            assert(rng.state() == advance_n(s0, depth as nat));
            assert(mask[depth as int] == kept_at(steps, depth as nat, s0));
            assert(all.take(depth + 1).drop_last() =~= all.take(depth as int));
            assert(mask.take(depth + 1).drop_last() =~= mask.take(depth as int));
            assert(all.take(depth + 1).last() == all[depth as int]);
            assert(mask.take(depth + 1).last() == mask[depth as int]);
        }
        if !lost {
            let ghost before = retained_v@;
            retained_v.push(full[depth].clone());
            proof {
                assert(texts(retained_v@) =~= texts(before).push(all[depth as int])) by {
                    assert(retained_v@ =~= before.push(retained_v@.last()));
                }
                assert(texts(retained_v@) =~= pick(all.take(depth + 1), mask.take(depth + 1)));
            }
        } else {
            proof {
                assert(texts(retained_v@) =~= pick(all.take(depth + 1), mask.take(depth + 1)));
            }
        }
        depth = depth + 1;
    }
    proof {
        assert(all.take(full.len() as int) =~= all);
        assert(mask.take(full.len() as int) =~= mask);
    }
    retained_v
}

} // verus!

verus! {

proof fn lemma_pick_head<A>(xs: Seq<A>, keep: Seq<bool>)
    requires
        xs.len() > 0,
        keep.len() == xs.len(),
        keep[0],
    ensures
        pick(xs, keep).len() > 0,
        pick(xs, keep)[0] == xs[0],
    decreases xs.len(),
{
    if xs.len() == 1 {
        assert(xs.drop_last().len() == 0);
        assert(pick(xs.drop_last(), keep.drop_last()) =~= Seq::<A>::empty());
        assert(keep.last() == keep[0]);
    } else {
        lemma_pick_head(xs.drop_last(), keep.drop_last());
    }
}

/// `sub` is `full` with some entries dropped: entry `k` of `sub` is entry
/// `idx[k]` of `full`, and the places `idx` strictly increase.
pub open spec fn taken_in_order(idx: Seq<int>, sub: Seq<Seq<char>>, full: Seq<Seq<char>>) -> bool {
    &&& idx.len() == sub.len()
    &&& forall|k: int| 0 <= k < idx.len() ==> 0 <= #[trigger] idx[k] < full.len() && sub[k] == full[idx[k]]
    &&& forall|j: int, k: int| 0 <= j < k < idx.len() ==> #[trigger] idx[j] < #[trigger] idx[k]
}

proof fn lemma_pick_order<A>(xs: Seq<A>, keep: Seq<bool>) -> (idx: Seq<int>)
    requires
        keep.len() == xs.len(),
    ensures
        idx.len() == pick(xs, keep).len(),
        forall|k: int| 0 <= k < idx.len() ==> 0 <= #[trigger] idx[k] < xs.len() && pick(xs, keep)[k] == xs[idx[k]],
        forall|j: int, k: int| 0 <= j < k < idx.len() ==> #[trigger] idx[j] < #[trigger] idx[k],
    decreases xs.len(),
{
    if xs.len() == 0 {
        Seq::empty()
    } else {
        let front = xs.drop_last();
        let rec = lemma_pick_order(front, keep.drop_last());
        let p = pick(front, keep.drop_last());
        if keep.last() {
            let idx = rec.push(xs.len() - 1);
            assert(pick(xs, keep) == p + seq![xs.last()]);
            assert forall|k: int| 0 <= k < idx.len() implies 0 <= #[trigger] idx[k] < xs.len() && pick(xs, keep)[k] == xs[idx[k]] by {
                if k < rec.len() {
                    assert(idx[k] == rec[k]);
                    assert(pick(xs, keep)[k] == p[k]);
                    assert(front[rec[k]] == xs[rec[k]]);
                }
            }
            assert forall|j: int, k: int| 0 <= j < k < idx.len() implies #[trigger] idx[j] < #[trigger] idx[k] by {
                assert(idx[j] == rec[j]);
                if k < rec.len() {
                    assert(idx[k] == rec[k]);
                }
            }
            idx
        } else {
            assert(pick(xs, keep) =~= p);
            assert forall|k: int| 0 <= k < rec.len() implies 0 <= #[trigger] rec[k] < xs.len() && pick(xs, keep)[k] == xs[rec[k]] by {
                assert(front[rec[k]] == xs[rec[k]]);
            }
            rec
        }
    }
}

proof fn lemma_pick_len<A>(xs: Seq<A>, keep: Seq<bool>)
    ensures
        pick(xs, keep).len() <= xs.len(),
    decreases xs.len(),
{
    if xs.len() > 0 {
        lemma_pick_len(xs.drop_last(), keep.drop_last());
    }
}

/// One call on the generator: [`Rng::next_u64`], or [`Rng::below`] with its
/// bound.
pub enum Draw {
    Next,
    Below(u64),
}

/// Whether a draw moves the generator: every draw but `below(0)` does.
pub open spec fn takes_step(d: Draw) -> nat {
    match d {
        Draw::Below(n) => if n == 0 { 0 } else { 1 },
        Draw::Next => 1,
    }
}

/// What a draw returns once the generator has moved to state `st`.
pub open spec fn draw_value(d: Draw, st: u64) -> u64 {
    match d {
        Draw::Next => mix(st),
        Draw::Below(n) => if n == 0 { 0 } else { mix(st) % n },
    }
}

/// One draw from state `s`: what it returns, and the state it leaves, as
/// [`Rng::next_u64`] and [`Rng::below`] state them.
pub open spec fn draw_step(s: u64, d: Draw) -> (u64, u64) {
    let st = advance_n(s, takes_step(d));
    (draw_value(d, st), st)
}

/// What the draws `ds` return, one after another, from state `s`.
pub open spec fn draws_output(s: u64, ds: Seq<Draw>) -> Seq<u64>
    decreases ds.len(),
{
    if ds.len() == 0 {
        Seq::empty()
    } else {
        seq![draw_step(s, ds[0]).0] + draws_output(draw_step(s, ds[0]).1, ds.drop_first())
    }
}

/// The state the draws `ds` leave, from state `s`.
pub open spec fn draws_state(s: u64, ds: Seq<Draw>) -> u64
    decreases ds.len(),
{
    if ds.len() == 0 {
        s
    } else {
        draws_state(draw_step(s, ds[0]).1, ds.drop_first())
    }
}

/// How many steps the draws `ds` move the generator.
pub open spec fn steps_taken(ds: Seq<Draw>) -> nat
    decreases ds.len(),
{
    if ds.len() == 0 {
        0
    } else {
        takes_step(ds[0]) + steps_taken(ds.drop_first())
    }
}

/// The state `k` steps after `s`, in closed form: `s + k·γ` modulo 2⁶⁴.
pub open spec fn state_after(s: u64, k: nat) -> u64 {
    ((s + k * GOLDEN_GAMMA) % 0x1_0000_0000_0000_0000int) as u64
}

proof fn lemma_advance_n_shift(s: u64, m: nat)
    ensures
        advance_n(advance(s), m) == advance_n(s, m + 1),
    decreases m,
{
    if m > 0 {
        lemma_advance_n_shift(s, (m - 1) as nat);
        assert(advance_n(advance(s), m) == advance(advance_n(advance(s), (m - 1) as nat)));
        assert(advance_n(s, m + 1) == advance(advance_n(s, m)));
    } else {
        assert(advance_n(s, 1) == advance(advance_n(s, 0)));
    }
}

/// Stepping the generator `k` times from `s` adds `k·γ`, wrapping.
pub proof fn lemma_steps_in_closed_form(s: u64, k: nat)
    ensures
        advance_n(s, k) == state_after(s, k),
    decreases k,
{
    let m: int = 0x1_0000_0000_0000_0000int;
    if k > 0 {
        lemma_steps_in_closed_form(s, (k - 1) as nat);
        let x: int = s + (k - 1) * GOLDEN_GAMMA;
        assert(x + GOLDEN_GAMMA == s + k * GOLDEN_GAMMA) by (nonlinear_arith)
            requires
                x == s + (k - 1) * GOLDEN_GAMMA,
                k > 0,
        ;
        vstd::arithmetic::div_mod::lemma_add_mod_noop(x, GOLDEN_GAMMA as int, m);
        assert((GOLDEN_GAMMA as int) % m == GOLDEN_GAMMA as int);
        assert(0 <= x % m < m) by {
            vstd::arithmetic::div_mod::lemma_mod_bound(x, m);
        }
        assert(x >= 0) by (nonlinear_arith)
            requires
                x == s + (k - 1) * GOLDEN_GAMMA,
                k > 0,
                s >= 0,
        ;
    } else {
        assert((s as int) % 0x1_0000_0000_0000_0000int == s as int);
    }
}

proof fn lemma_draws_stepwise(s: u64, ds: Seq<Draw>)
    ensures
        draws_state(s, ds) == advance_n(s, steps_taken(ds)),
        draws_output(s, ds).len() == ds.len(),
        forall|j: int|
            0 <= j < ds.len() ==> #[trigger] draws_output(s, ds)[j] == draw_value(
                ds[j],
                advance_n(s, steps_taken(ds.take(j)) + 1),
            ),
    decreases ds.len(),
{
    if ds.len() > 0 {
        let d = ds[0];
        let s2 = draw_step(s, d).1;
        let rest = ds.drop_first();
        lemma_draws_stepwise(s2, rest);
        if takes_step(d) == 1 {
            assert forall|m: nat| #[trigger] advance_n(s2, m) == advance_n(s, m + 1) by {
                assert(advance_n(s, 1) == advance(advance_n(s, 0)));
                assert(s2 == advance(s));
                lemma_advance_n_shift(s, m);
            }
        } else {
            assert(s2 == s);
        }
        assert forall|j: int| 0 <= j < ds.len() implies #[trigger] draws_output(s, ds)[j] == draw_value(
            ds[j],
            advance_n(s, steps_taken(ds.take(j)) + 1),
        ) by {
            if j == 0 {
                assert(ds.take(0).len() == 0);
                if takes_step(d) == 1 {
                    assert(advance_n(s, 1) == advance(advance_n(s, 0)));
                }
            } else {
                assert(ds.take(j).drop_first() =~= rest.take(j - 1));
                assert(ds.take(j)[0] == d);
                assert(draws_output(s, ds)[j] == draws_output(s2, rest)[j - 1]);
                assert(rest[j - 1] == ds[j]);
            }
        }
    }
}

/// The same seed always replays the same sequence: whatever calls are made
/// on a generator seeded with `s`, each returns a value fixed by `s` and the
/// calls before it alone — the value for the generator `s + k·γ` (wrapping)
/// after the `k` steps taken so far, plus one — and the generator ends in
/// the state `s + n·γ` after all `n` steps.
pub proof fn lemma_same_seed_replays(s: u64, ds: Seq<Draw>)
    ensures
        draws_state(s, ds) == state_after(s, steps_taken(ds)),
        draws_output(s, ds).len() == ds.len(),
        forall|j: int|
            0 <= j < ds.len() ==> #[trigger] draws_output(s, ds)[j] == draw_value(
                ds[j],
                state_after(s, steps_taken(ds.take(j)) + 1),
            ),
{
    lemma_draws_stepwise(s, ds);
    lemma_steps_in_closed_form(s, steps_taken(ds));
    assert forall|j: int| 0 <= j < ds.len() implies #[trigger] draws_output(s, ds)[j] == draw_value(
        ds[j],
        state_after(s, steps_taken(ds.take(j)) + 1),
    ) by {
        lemma_steps_in_closed_form(s, steps_taken(ds.take(j)) + 1);
    }
}

/// Whether the draw for the instruction at `depth` spares it: the generator's
/// value after `depth` steps from `s`, modulo 100, is not below the chance of
/// losing it.
pub open spec fn draw_spares(steps: u32, depth: nat, s: u64) -> bool {
    mix(advance_n(s, depth)) % 100 >= chance_pct(steps, depth)
}

/// Each instruction's fate is its own: in a list of any length, the
/// instruction at depth `d` is kept exactly when it is the first or its own
/// draw spares it.
pub proof fn lemma_each_instruction_has_its_own_draw(steps: u32, n: nat, s: u64, d: int)
    requires
        0 <= d < n,
    ensures
        keep_mask(steps, n, s).len() == n,
        keep_mask(steps, n, s)[d] == (d == 0 || draw_spares(steps, d as nat, s)),
{
}

/// A later instruction never changes what happens to earlier ones: giving a
/// companion one more errand keeps what was remembered of the others, and
/// adds the new one exactly when nothing was walked, it is the first, or its
/// own draw spares it.
pub proof fn lemma_one_more_errand(steps: u32, full: Seq<Seq<char>>, x: Seq<char>, s: u64)
    ensures
        retained(steps, full.push(x), s) == retained(steps, full, s) + (if steps == 0 || full.len() == 0
            || draw_spares(steps, full.len(), s) {
            seq![x]
        } else {
            Seq::<Seq<char>>::empty()
        }),
{
    if steps > 0 {
        let m = keep_mask(steps, full.len() + 1, s);
        assert(m.drop_last() =~= keep_mask(steps, full.len(), s));
        assert(full.push(x).drop_last() =~= full);
        assert(m.last() == kept_at(steps, full.len(), s));
    }
}

/// Standing still forgets nothing.
pub proof fn lemma_standing_still_forgets_nothing(full: Seq<Seq<char>>, s: u64)
    ensures
        retained(0, full, s) == full,
{
}

/// However far the companion walks, the first instruction survives, and
/// nothing is remembered that was not given: what is kept is the list with
/// some later entries dropped, in order.
pub proof fn lemma_first_instruction_survives(steps: u32, full: Seq<Seq<char>>, s: u64)
    requires
        full.len() > 0,
    ensures
        retained(steps, full, s).len() > 0,
        retained(steps, full, s)[0] == full[0],
        retained(steps, full, s).len() <= full.len(),
{
    if steps > 0 {
        let m = keep_mask(steps, full.len(), s);
        assert(m[0] == kept_at(steps, 0, s));
        lemma_pick_head(full, m);
        lemma_pick_len(full, m);
    }
}

/// What survives stays in order: what a companion still remembers is the
/// errand list with some entries dropped, the rest in their given order.
pub proof fn lemma_what_survives_stays_in_order(steps: u32, full: Seq<Seq<char>>, s: u64)
    ensures
        exists|idx: Seq<int>| taken_in_order(idx, retained(steps, full, s), full),
{
    if steps == 0 {
        let idx = Seq::new(full.len(), |i: int| i);
        assert(taken_in_order(idx, retained(steps, full, s), full));
    } else {
        let idx = lemma_pick_order(full, keep_mask(steps, full.len(), s));
        assert(taken_in_order(idx, retained(steps, full, s), full));
    }
}

/// Forgetting is never certain: whatever the walk and the depth, the chance
/// of losing an instruction stays at or under the ceiling, below 100%.
pub proof fn lemma_forgetting_never_certain(steps: u32, depth: nat)
    ensures
        chance_pct(steps, depth) <= FORGET_CEILING_PCT,
        FORGET_CEILING_PCT < 100,
{
}

/// Walking further, or sitting deeper in the list, never makes an
/// instruction safer.
pub proof fn lemma_further_and_deeper_erode_more(s1: u32, s2: u32, d1: nat, d2: nat)
    requires
        s1 <= s2,
        d1 <= d2,
    ensures
        chance_pct(s1, d1) <= chance_pct(s2, d2),
{
    assert(s1 * d1 <= s2 * d2) by (nonlinear_arith)
        requires
            s1 <= s2,
            d1 <= d2,
            0 <= s1,
            0 <= d1,
    ;
}

} // verus!
