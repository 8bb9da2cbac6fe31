//! The resource economy: a ledger of per-cargo stored amount and capacity
//! (in thousandths of a unit) plus the energy balance, rebuilt every tick
//! from the structure population, with conversion flows between cargo
//! kinds. Stored amounts are clamped into `[0, capacity]` after every
//! mutation; conversions conserve resources exactly at their fixed ratio.

use vstd::prelude::*;
use vstd::arithmetic::div_mod::{
    lemma_div_is_ordered, lemma_div_multiples_vanish,
    lemma_div_pos_is_pos, lemma_fundamental_div_mod,
};
use vstd::arithmetic::mul::lemma_mul_inequality;
use crate::kind::{
    lemma_rules_wf, rule_wf, spec_cargo_index, spec_cargo_of_index, spec_conversion_rules,
    spec_energy_gen, spec_energy_use, spec_capacity_contribution, Cargo, ConvRule, MapNode,
    CARGO_KINDS,
};
use crate::map::{layer_wf, Entry, MapState};

verus! {

/// Largest value a single capacity slot can reach: every structure
/// contributes at most `MAX_CAPACITY_CONTRIBUTION` and a layer holds at
/// most `MAX_CELLS` structures.
pub const CAP_LIMIT: u64 = 10000000000;

/// Largest value the energy tallies can reach.
pub const ENERGY_LIMIT: u64 = 205000000;

/// Largest tick length, in milliseconds, that the economy accepts; keeps
/// rate times delta arithmetic in range.
pub const MAX_TICK_MS: u64 = 1000000000000;

/// The aggregate numeric ledger: per-cargo stored amount and capacity, both
/// in thousandths of a unit, and the energy balance in whole units.
pub struct Ledger {
    pub current: Vec<u64>,
    pub capacity: Vec<u64>,
    pub energy_available: u64,
    pub energy_in_use: u64,
}

impl Ledger {
    /// Well-formed ledger: one slot per cargo kind, nothing stored beyond
    /// capacity, and all tallies within the ranges the population bound
    /// guarantees.
    pub open spec fn wf(&self) -> bool {
        &&& self.current@.len() == CARGO_KINDS
        &&& self.capacity@.len() == CARGO_KINDS
        &&& forall|i: int|
            0 <= i < CARGO_KINDS ==> #[trigger] self.current@[i] <= self.capacity@[i]
        &&& forall|i: int| 0 <= i < CARGO_KINDS ==> #[trigger] self.capacity@[i] <= CAP_LIMIT
        &&& self.energy_available <= ENERGY_LIMIT
        &&& self.energy_in_use <= ENERGY_LIMIT
    }

    /// An empty ledger: nothing stored, no capacity, no energy.
    pub fn new() -> (r: Ledger)
        ensures
            r.wf(),
            r.current@ == Seq::new(CARGO_KINDS as nat, |i: int| 0u64),
            r.capacity@ == Seq::new(CARGO_KINDS as nat, |i: int| 0u64),
            r.energy_available == 0,
            r.energy_in_use == 0,
    {
        let current = zero_slots();
        let capacity = zero_slots();
        Ledger { current, capacity, energy_available: 0, energy_in_use: 0 }
    }
}

/// One zeroed slot per cargo kind.
fn zero_slots() -> (r: Vec<u64>)
    ensures
        r@ == Seq::new(CARGO_KINDS as nat, |i: int| 0u64),
{
    let mut r: Vec<u64> = Vec::new();
    let mut i: usize = 0;
    while i < CARGO_KINDS
        invariant
            i <= CARGO_KINDS,
            r@.len() == i,
            forall|j: int| 0 <= j < i ==> #[trigger] r@[j] == 0,
        decreases CARGO_KINDS - i,
    {
        r.push(0);
        i = i + 1;
    }
    proof {
        assert(r@ =~= Seq::new(CARGO_KINDS as nat, |i: int| 0u64));
    }
    r
}

/// A value clamped into `[0, cap]`.
pub open spec fn spec_clamp(v: int, cap: int) -> int {
    if v < 0 {
        0
    } else if v > cap {
        cap
    } else {
        v
    }
}

/// Capacity clamp law: a clamped value lies in `[0, cap]`, and clamping is
/// idempotent — clamping again (for instance after a capacity shrink
/// already accounted for) changes nothing.
pub proof fn lemma_clamp_idempotent(v: int, cap: int)
    requires
        0 <= cap,
    ensures
        0 <= spec_clamp(v, cap) <= cap,
        spec_clamp(spec_clamp(v, cap), cap) == spec_clamp(v, cap),
{
}

/// The energy ratio in thousandths: how much of the available energy is
/// left after use, zero when nothing is available (not a division fault)
/// or when use meets or exceeds availability.
pub open spec fn spec_energy_ratio_permille(avail: int, in_use: int) -> int {
    if avail <= 0 {
        0
    } else if in_use >= avail {
        0
    } else {
        (avail - in_use) * 1000 / avail
    }
}

/// Energy made available by a population of structures.
pub open spec fn total_gen(s: Seq<Entry>) -> int
    decreases s.len(),
{
    if s.len() == 0 {
        0
    } else {
        total_gen(s.drop_last()) + spec_energy_gen(s.last().1)
    }
}

/// Energy consumed by a population of structures.
pub open spec fn total_use(s: Seq<Entry>) -> int
    decreases s.len(),
{
    if s.len() == 0 {
        0
    } else {
        total_use(s.drop_last()) + spec_energy_use(s.last().1)
    }
}

/// Storage capacity for cargo kind `c` contributed by a population.
pub open spec fn total_cap(s: Seq<Entry>, c: Cargo) -> int
    decreases s.len(),
{
    if s.len() == 0 {
        0
    } else {
        total_cap(s.drop_last(), c) + spec_capacity_contribution(s.last().1, c)
    }
}

/// Energy tallies grow by at most the largest per-structure contribution
/// per entry.
pub proof fn lemma_total_energy_bounds(s: Seq<Entry>)
    ensures
        0 <= total_gen(s) <= s.len() * 205,
        0 <= total_use(s) <= s.len() * 205,
    decreases s.len(),
{
    if s.len() == 0 {
    } else {
        lemma_total_energy_bounds(s.drop_last());
        assert((s.len() - 1) * 205 + 205 == s.len() * 205) by (nonlinear_arith);
    }
}

/// Capacity tallies grow by at most the largest per-structure contribution
/// per entry.
pub proof fn lemma_total_cap_bounds(s: Seq<Entry>, c: Cargo)
    ensures
        0 <= total_cap(s, c) <= s.len() * 10000,
    decreases s.len(),
{
    if s.len() == 0 {
    } else {
        lemma_total_cap_bounds(s.drop_last(), c);
        assert((s.len() - 1) * 10000 + 10000 == s.len() * 10000) by (nonlinear_arith);
    }
}

/// The capacity table a population yields, one slot per cargo kind.
pub open spec fn caps_of(s: Seq<Entry>) -> Seq<u64> {
    Seq::new(CARGO_KINDS as nat, |i: int| total_cap(s, spec_cargo_of_index(i)) as u64)
}

/// Every stored amount cut down to its capacity.
pub open spec fn clamp_all(cur: Seq<u64>, cap: Seq<u64>) -> Seq<u64> {
    Seq::new(
        cur.len(),
        |i: int|
            if cur[i] > cap[i] {
                cap[i]
            } else {
                cur[i]
            },
    )
}

/// Clamp-pass law: a clamped ledger stores nothing beyond capacity (and,
/// being unsigned, nothing negative), and repeating the clamp — as a tick
/// after a capacity shrink does — changes no stored amount.
pub proof fn lemma_clamp_all_idempotent(cur: Seq<u64>, cap: Seq<u64>)
    requires
        cur.len() == cap.len(),
    ensures
        forall|i: int| 0 <= i < cur.len() ==> #[trigger] clamp_all(cur, cap)[i] <= cap[i],
        clamp_all(clamp_all(cur, cap), cap) == clamp_all(cur, cap),
{
    assert(clamp_all(clamp_all(cur, cap), cap) =~= clamp_all(cur, cap));
}

/// The structure kinds of a population, in entry order.
pub open spec fn kinds_of(s: Seq<Entry>) -> Seq<MapNode> {
    s.map_values(|e: Entry| e.1)
}

/// The scarcest input of a conversion rule.
pub open spec fn rule_in_min(cur: Seq<u64>, r: ConvRule) -> int {
    let a = cur[spec_cargo_index(r.input_a)] as int;
    match r.input_b {
        Some(b) => vstd::math::min(a, cur[spec_cargo_index(b)] as int),
        None => a,
    }
}

/// Input budget of one conversion step: the rate over the tick, cut down
/// to the scarcest input.
pub open spec fn rule_budget(cur: Seq<u64>, r: ConvRule, dt_ms: int) -> int {
    vstd::math::min(r.rate_milli * dt_ms / 1000, rule_in_min(cur, r))
}

/// Output of one conversion step: the budget at the rule's ratio, cut down
/// to the output's remaining capacity.
pub open spec fn rule_out(cur: Seq<u64>, cap: Seq<u64>, r: ConvRule, dt_ms: int) -> int {
    vstd::math::min(
        rule_budget(cur, r, dt_ms) / (r.ratio_den as int),
        cap[spec_cargo_index(r.output)] - cur[spec_cargo_index(r.output)],
    )
}

/// One conversion step: each input loses `ratio_den` units per unit of
/// output produced.
pub open spec fn apply_rule(cur: Seq<u64>, cap: Seq<u64>, r: ConvRule, dt_ms: int) -> Seq<u64> {
    let add = rule_out(cur, cap, r, dt_ms);
    let sub = add * r.ratio_den;
    let ia = spec_cargo_index(r.input_a);
    let c1 = cur.update(ia, (cur[ia] - sub) as u64);
    let c2 = match r.input_b {
        Some(b) => c1.update(spec_cargo_index(b), (c1[spec_cargo_index(b)] - sub) as u64),
        None => c1,
    };
    let io = spec_cargo_index(r.output);
    c2.update(io, (c2[io] + add) as u64)
}

/// A structure's conversion rules applied in table order.
pub open spec fn apply_rules(cur: Seq<u64>, cap: Seq<u64>, rules: Seq<ConvRule>, dt_ms: int) -> Seq<
    u64,
>
    decreases rules.len(),
{
    if rules.len() == 0 {
        cur
    } else {
        apply_rules(apply_rule(cur, cap, rules[0], dt_ms), cap, rules.skip(1), dt_ms)
    }
}

/// Every structure's conversions applied in population order.
pub open spec fn run_conversions(
    cur: Seq<u64>,
    cap: Seq<u64>,
    kinds: Seq<MapNode>,
    dt_ms: int,
) -> Seq<u64>
    decreases kinds.len(),
{
    if kinds.len() == 0 {
        cur
    } else {
        run_conversions(
            apply_rules(cur, cap, spec_conversion_rules(kinds[0]), dt_ms),
            cap,
            kinds.skip(1),
            dt_ms,
        )
    }
}

/// Distinct cargo kinds sit at distinct ledger positions.
pub proof fn lemma_cargo_index_injective(a: Cargo, b: Cargo)
    ensures
        a != b ==> spec_cargo_index(a) != spec_cargo_index(b),
{
}

/// Conversion conservation law: one conversion step produces `add` units
/// of output and consumes exactly `ratio_den * add` of each input — no
/// input is consumed without output being produced. The amount moved never
/// exceeds the rate over the tick, the scarcest input, or the output's
/// remaining capacity, and every other slot is untouched.
pub proof fn lemma_conversion_conserves(cur: Seq<u64>, cap: Seq<u64>, r: ConvRule, dt_ms: int)
    requires
        rule_wf(r),
        cur.len() == CARGO_KINDS,
        cap.len() == CARGO_KINDS,
        forall|i: int| 0 <= i < CARGO_KINDS ==> #[trigger] cur[i] <= cap[i],
        0 <= dt_ms,
    ensures
        ({
            let add = rule_out(cur, cap, r, dt_ms);
            let res = apply_rule(cur, cap, r, dt_ms);
            let ia = spec_cargo_index(r.input_a);
            let io = spec_cargo_index(r.output);
            &&& 0 <= add
            &&& res.len() == CARGO_KINDS
            &&& res[io] == cur[io] + add
            &&& res[ia] == cur[ia] - add * r.ratio_den
            &&& add * r.ratio_den <= rule_in_min(cur, r)
            &&& add * r.ratio_den <= r.rate_milli * dt_ms / 1000
            &&& cur[io] + add <= cap[io]
            &&& (r.input_b matches Some(b) ==> res[spec_cargo_index(b)] == cur[spec_cargo_index(b)]
                - add * r.ratio_den)
            &&& forall|i: int|
                0 <= i < CARGO_KINDS && i != ia && i != io && (r.input_b matches Some(b)
                    ==> i != spec_cargo_index(b)) ==> res[i] == cur[i]
        }),
{
    let ia = spec_cargo_index(r.input_a);
    let io = spec_cargo_index(r.output);
    let in_min = rule_in_min(cur, r);
    let budget = rule_budget(cur, r, dt_ms);
    let den = r.ratio_den as int;
    let q = budget / den;
    let add = rule_out(cur, cap, r, dt_ms);
    let sub = add * den;
    assert(0 <= r.rate_milli * dt_ms) by (nonlinear_arith)
        requires
            0 <= dt_ms,
            0 < r.rate_milli,
    ;
    lemma_div_pos_is_pos(r.rate_milli * dt_ms, 1000);
    assert(0 <= in_min);
    assert(0 <= budget);
    lemma_div_pos_is_pos(budget, den);
    assert(0 <= q);
    assert(0 <= add);
    // `add * den` stays within the budget, hence within every input and the
    // rate.
    lemma_fundamental_div_mod(budget, den);
    assert(den * q <= budget);
    lemma_mul_inequality(add, q, den);
    assert(add * den <= q * den);
    assert(q * den == den * q) by (nonlinear_arith);
    assert(sub <= budget);
    lemma_cargo_index_injective(r.input_a, r.output);
    match r.input_b {
        Some(b) => {
            lemma_cargo_index_injective(b, r.output);
            lemma_cargo_index_injective(r.input_a, b);
        },
        None => {},
    }
}

impl MapState {
    /// The stored amount and capacity for a cargo kind, both in
    /// thousandths.
    pub fn cargo_count(&self, cargo: Cargo) -> (r: (u64, u64))
        requires
            self.wf(),
        ensures
            r.0 == self.ledger.current@[spec_cargo_index(cargo)],
            r.1 == self.ledger.capacity@[spec_cargo_index(cargo)],
    {
        let i = cargo.index();
        (self.ledger.current[i], self.ledger.capacity[i])
    }

    /// Adds `count` (which may be negative) to a cargo's stored amount,
    /// clamped into `[0, capacity]`.
    pub fn harvest(&mut self, cargo: Cargo, count: i64)
        requires
            old(self).wf(),
        ensures
            final(self).wf(),
            final(self).main@ == old(self).main@,
            final(self).build@ == old(self).build@,
            final(self).bounds_min == old(self).bounds_min,
            final(self).bounds_max == old(self).bounds_max,
            final(self).ledger.capacity@ == old(self).ledger.capacity@,
            final(self).ledger.energy_available == old(self).ledger.energy_available,
            final(self).ledger.energy_in_use == old(self).ledger.energy_in_use,
            final(self).ledger.current@ == old(self).ledger.current@.update(
                spec_cargo_index(cargo),
                spec_clamp(
                    old(self).ledger.current@[spec_cargo_index(cargo)] + count,
                    old(self).ledger.capacity@[spec_cargo_index(cargo)] as int,
                ) as u64,
            ),
    {
        let i = cargo.index();
        let cur = self.ledger.current[i];
        let cap = self.ledger.capacity[i];
        let s: i128 = cur as i128 + count as i128;
        let newv: u64 = if s < 0 {
            0
        } else if s > cap as i128 {
            cap
        } else {
            s as u64
        };
        self.ledger.current[i] = newv;
    }

    /// The energy ratio in thousandths: the clamped share of available
    /// energy left after use; zero when none is available.
    pub fn energy_ratio(&self) -> (r: u64)
        requires
            self.wf(),
        ensures
            r == spec_energy_ratio_permille(
                self.ledger.energy_available as int,
                self.ledger.energy_in_use as int,
            ),
            r <= 1000,
    {
        let avail = self.ledger.energy_available;
        let in_use = self.ledger.energy_in_use;
        if avail == 0 || in_use >= avail {
            0
        } else {
            let r = (avail - in_use) * 1000 / avail;
            proof {
                let a = avail as int;
                let u = in_use as int;
                assert((a - u) * 1000 <= a * 1000) by (nonlinear_arith)
                    requires
                        0 < a,
                        0 <= a - u <= a,
                ;
                lemma_div_is_ordered((a - u) * 1000, a * 1000, a);
                assert(a * 1000 == 1000 * a) by (nonlinear_arith);
                lemma_div_multiples_vanish(1000, a);
            }
            r
        }
    }
}

/// Runs one conversion rule against the ledger.
fn process(led: &mut Ledger, r: ConvRule, dt_ms: u64)
    requires
        old(led).wf(),
        rule_wf(r),
        dt_ms <= MAX_TICK_MS,
    ensures
        final(led).wf(),
        final(led).current@ == apply_rule(old(led).current@, old(led).capacity@, r, dt_ms as int),
        final(led).capacity@ == old(led).capacity@,
        final(led).energy_available == old(led).energy_available,
        final(led).energy_in_use == old(led).energy_in_use,
{
    proof {
        lemma_conversion_conserves(led.current@, led.capacity@, r, dt_ms as int);
    }
    let ghost cur0 = led.current@;
    let ghost cap0 = led.capacity@;
    let ia = r.input_a.index();
    let io = r.output.index();
    let space = led.capacity[io] - led.current[io];
    let cur_a = led.current[ia];
    let in_min = match r.input_b {
        Some(b) => {
            let ib = b.index();
            let cur_b = led.current[ib];
            if cur_b < cur_a {
                cur_b
            } else {
                cur_a
            }
        },
        None => cur_a,
    };
    proof {
        assert(r.rate_milli * dt_ms <= 500 * (MAX_TICK_MS as int)) by (nonlinear_arith)
            requires
                0 < r.rate_milli <= 500,
                0 <= dt_ms <= MAX_TICK_MS,
        ;
        lemma_div_is_ordered(r.rate_milli * dt_ms, 500 * (MAX_TICK_MS as int), 1000);
        assert(0 <= r.rate_milli * dt_ms) by (nonlinear_arith)
            requires
                0 < r.rate_milli,
                0 <= dt_ms,
        ;
        lemma_div_pos_is_pos(r.rate_milli * dt_ms, 1000);
    }
    let budget_raw: u128 = (r.rate_milli as u128) * (dt_ms as u128) / 1000;
    let budget: u64 = if budget_raw < in_min as u128 {
        budget_raw as u64
    } else {
        in_min
    };
    proof {
        assert(budget as int == rule_budget(cur0, r, dt_ms as int));
    }
    let q = budget / r.ratio_den;
    let add = if q < space {
        q
    } else {
        space
    };
    proof {
        assert(add as int == rule_out(cur0, cap0, r, dt_ms as int));
        lemma_fundamental_div_mod(budget as int, r.ratio_den as int);
        assert((r.ratio_den as int) * (q as int) <= budget);
        lemma_mul_inequality(add as int, q as int, r.ratio_den as int);
        assert((add as int) * (r.ratio_den as int) == (r.ratio_den as int) * (add as int))
            by (nonlinear_arith);
        assert((q as int) * (r.ratio_den as int) == (r.ratio_den as int) * (q as int))
            by (nonlinear_arith);
        assert((add as int) * (r.ratio_den as int) <= budget);
    }
    let sub = add * r.ratio_den;
    let t1 = led.current[ia];
    led.current[ia] = t1 - sub;
    match r.input_b {
        Some(b) => {
            let ib = b.index();
            proof {
                lemma_cargo_index_injective(r.input_a, b);
            }
            let t2 = led.current[ib];
            led.current[ib] = t2 - sub;
        },
        None => {},
    }
    proof {
        lemma_cargo_index_injective(r.input_a, r.output);
        match r.input_b {
            Some(b) => {
                lemma_cargo_index_injective(b, r.output);
            },
            None => {},
        }
    }
    let t3 = led.current[io];
    led.current[io] = t3 + add;
    proof {
        assert(led.current@ =~= apply_rule(cur0, cap0, r, dt_ms as int));
        assert forall|i: int| 0 <= i < CARGO_KINDS implies #[trigger] led.current@[i]
            <= led.capacity@[i] by {
            let res = apply_rule(cur0, cap0, r, dt_ms as int);
            if i == spec_cargo_index(r.output) {
            } else if i == spec_cargo_index(r.input_a) {
            } else {
                match r.input_b {
                    Some(b) => {},
                    None => {},
                }
            }
        }
    }
}

impl MapState {
    /// One economy tick: rebuilds the energy balance and the capacity table
    /// from the `Main` population, clamps every stored amount to the new
    /// capacities, and — while energy is not browned out — runs every
    /// structure's conversion rules in population order.
    pub fn tick(&mut self, delta_ms: u64)
        requires
            old(self).wf(),
            delta_ms <= MAX_TICK_MS,
        ensures
            final(self).wf(),
            final(self).main@ == old(self).main@,
            final(self).build@ == old(self).build@,
            final(self).bounds_min == old(self).bounds_min,
            final(self).bounds_max == old(self).bounds_max,
            final(self).ledger.energy_available == total_gen(old(self).main@),
            final(self).ledger.energy_in_use == total_use(old(self).main@),
            final(self).ledger.capacity@ == caps_of(old(self).main@),
            final(self).ledger.current@ == ({
                let clamped = clamp_all(old(self).ledger.current@, caps_of(old(self).main@));
                if total_gen(old(self).main@) > total_use(old(self).main@) {
                    run_conversions(
                        clamped,
                        caps_of(old(self).main@),
                        kinds_of(old(self).main@),
                        delta_ms as int,
                    )
                } else {
                    clamped
                }
            }),
    {
        let ghost main0 = self.main@;
        let ghost cur0 = self.ledger.current@;
        // Rebuild the energy balance.
        let mut energy_gen_total: u64 = 0;
        let mut energy_use_total: u64 = 0;
        let mut i: usize = 0;
        while i < self.main.len()
            invariant
                self.main@ == main0,
                layer_wf(main0),
                i <= main0.len(),
                energy_gen_total == total_gen(main0.subrange(0, i as int)),
                energy_use_total == total_use(main0.subrange(0, i as int)),
                energy_gen_total <= i * 205,
                energy_use_total <= i * 205,
            decreases main0.len() - i,
        {
            let e = self.main[i];
            proof {
                assert(i * 205 + 205 == (i + 1) * 205) by (nonlinear_arith);
                assert((i + 1) * 205 <= 1000000 * 205) by (nonlinear_arith)
                    requires
                        i + 1 <= 1000000,
                ;
                assert(main0.subrange(0, i + 1).drop_last() =~= main0.subrange(0, i as int));
                assert(main0.subrange(0, i + 1).last() == main0[i as int]);
            }
            energy_gen_total = energy_gen_total + e.1.energy_gen();
            energy_use_total = energy_use_total + e.1.energy_use();
            i = i + 1;
        }
        proof {
            assert(main0.subrange(0, main0.len() as int) =~= main0);
        }
        // Rebuild the capacity table.
        let mut caps = zero_slots();
        let mut i: usize = 0;
        proof {
            assert forall|j: int| 0 <= j < CARGO_KINDS implies caps@[j] == total_cap(
                main0.subrange(0, 0),
                spec_cargo_of_index(j),
            ) by {
                assert(main0.subrange(0, 0) =~= Seq::<Entry>::empty());
            }
        }
        while i < self.main.len()
            invariant
                self.main@ == main0,
                layer_wf(main0),
                i <= main0.len(),
                caps@.len() == CARGO_KINDS,
                forall|j: int|
                    0 <= j < CARGO_KINDS ==> #[trigger] caps@[j] == total_cap(
                        main0.subrange(0, i as int),
                        spec_cargo_of_index(j),
                    ),
            decreases main0.len() - i,
        {
            let e = self.main[i];
            let mut j: usize = 0;
            while j < CARGO_KINDS
                invariant
                    self.main@ == main0,
                    layer_wf(main0),
                    i < main0.len(),
                    e == main0[i as int],
                    j <= CARGO_KINDS,
                    caps@.len() == CARGO_KINDS,
                    forall|j2: int|
                        0 <= j2 < j ==> #[trigger] caps@[j2] == total_cap(
                            main0.subrange(0, i + 1),
                            spec_cargo_of_index(j2),
                        ),
                    forall|j2: int|
                        j <= j2 < CARGO_KINDS ==> #[trigger] caps@[j2] == total_cap(
                            main0.subrange(0, i as int),
                            spec_cargo_of_index(j2),
                        ),
                decreases CARGO_KINDS - j,
            {
                let c = Cargo::of_index(j);
                proof {
                    lemma_total_cap_bounds(main0.subrange(0, i as int), c);
                    assert((i as int) * 10000 + 10000 <= 1000000 * 10000) by (nonlinear_arith)
                        requires
                            i + 1 <= 1000000,
                    ;
                    assert(main0.subrange(0, i + 1).drop_last() =~= main0.subrange(0, i as int));
                    assert(main0.subrange(0, i + 1).last() == main0[i as int]);
                }
                let t = caps[j];
                caps[j] = t + e.1.capacity_contribution(c);
                j = j + 1;
            }
            i = i + 1;
        }
        proof {
            assert(main0.subrange(0, main0.len() as int) =~= main0);
            assert forall|j: int| 0 <= j < CARGO_KINDS implies #[trigger] caps@[j] <= CAP_LIMIT by {
                lemma_total_cap_bounds(main0, spec_cargo_of_index(j));
                assert(main0.len() * 10000 <= 1000000 * 10000) by (nonlinear_arith)
                    requires
                        main0.len() <= 1000000,
                ;
            }
            assert(caps@ =~= caps_of(main0));
        }
        // Clamp stored amounts to the new capacities.
        let mut j: usize = 0;
        while j < CARGO_KINDS
            invariant
                self.main@ == main0,
                self.build@ == old(self).build@,
                self.bounds_min == old(self).bounds_min,
                self.bounds_max == old(self).bounds_max,
                j <= CARGO_KINDS,
                self.ledger.current@.len() == CARGO_KINDS,
                caps@ == caps_of(main0),
                caps@.len() == CARGO_KINDS,
                forall|j2: int|
                    0 <= j2 < j ==> #[trigger] self.ledger.current@[j2] == (
                    if cur0[j2] > caps@[j2] {
                        caps@[j2]
                    } else {
                        cur0[j2]
                    }),
                forall|j2: int|
                    j <= j2 < CARGO_KINDS ==> #[trigger] self.ledger.current@[j2] == cur0[j2],
            decreases CARGO_KINDS - j,
        {
            let cu = self.ledger.current[j];
            let ca = caps[j];
            if cu > ca {
                self.ledger.current[j] = ca;
            }
            j = j + 1;
        }
        self.ledger.capacity = caps;
        self.ledger.energy_available = energy_gen_total;
        self.ledger.energy_in_use = energy_use_total;
        proof {
            lemma_total_energy_bounds(main0);
            assert(main0.len() * 205 <= 1000000 * 205) by (nonlinear_arith)
                requires
                    main0.len() <= 1000000,
            ;
            assert(self.ledger.current@ =~= clamp_all(cur0, caps_of(main0)));
        }
        let ghost clamped = self.ledger.current@;
        let ghost capsv = self.ledger.capacity@;
        let ghost kinds = kinds_of(main0);
        if energy_gen_total <= energy_use_total {
            return ;
        }
        // Run every structure's conversion rules.
        proof {
            assert(kinds.skip(0) =~= kinds);
        }
        let mut i: usize = 0;
        while i < self.main.len()
            invariant
                self.main@ == main0,
                self.build@ == old(self).build@,
                self.bounds_min == old(self).bounds_min,
                self.bounds_max == old(self).bounds_max,
                layer_wf(main0),
                i <= main0.len(),
                self.ledger.wf(),
                self.ledger.capacity@ == capsv,
                self.ledger.energy_available == energy_gen_total,
                self.ledger.energy_in_use == energy_use_total,
                kinds == kinds_of(main0),
                delta_ms <= MAX_TICK_MS,
                run_conversions(self.ledger.current@, capsv, kinds.skip(i as int), delta_ms as int)
                    == run_conversions(clamped, capsv, kinds, delta_ms as int),
            decreases main0.len() - i,
        {
            let e = self.main[i];
            let rules = e.1.conversion_rules();
            let ghost cur_entry = self.ledger.current@;
            proof {
                assert(rules@.skip(0) =~= rules@);
            }
            let mut jr: usize = 0;
            while jr < rules.len()
                invariant
                    self.main@ == main0,
                    self.build@ == old(self).build@,
                    self.bounds_min == old(self).bounds_min,
                    self.bounds_max == old(self).bounds_max,
                    i < main0.len(),
                    e == main0[i as int],
                    rules@ == spec_conversion_rules(e.1),
                    jr <= rules@.len(),
                    self.ledger.wf(),
                    self.ledger.capacity@ == capsv,
                    self.ledger.energy_available == energy_gen_total,
                    self.ledger.energy_in_use == energy_use_total,
                    delta_ms <= MAX_TICK_MS,
                    apply_rules(self.ledger.current@, capsv, rules@.skip(jr as int), delta_ms as int)
                        == apply_rules(cur_entry, capsv, rules@, delta_ms as int),
                decreases rules@.len() - jr,
            {
                let r = rules[jr];
                proof {
                    lemma_rules_wf(e.1);
                }
                let ghost cur_prev = self.ledger.current@;
                process(&mut self.ledger, r, delta_ms);
                proof {
                    assert(rules@.skip(jr as int)[0] == r);
                    assert(rules@.skip(jr as int).skip(1) =~= rules@.skip(jr + 1));
                    assert(apply_rules(cur_prev, capsv, rules@.skip(jr as int), delta_ms as int)
                        == apply_rules(self.ledger.current@, capsv, rules@.skip(jr + 1), delta_ms as int));
                }
                jr = jr + 1;
            }
            proof {
                assert(rules@.skip(rules@.len() as int) =~= Seq::<ConvRule>::empty());
                assert(kinds.skip(i as int)[0] == e.1);
                assert(kinds.skip(i as int).skip(1) =~= kinds.skip(i + 1));
                assert(apply_rules(self.ledger.current@, capsv, Seq::<ConvRule>::empty(), delta_ms as int)
                    == self.ledger.current@);
                assert(run_conversions(cur_entry, capsv, kinds.skip(i as int), delta_ms as int)
                    == run_conversions(self.ledger.current@, capsv, kinds.skip(i + 1), delta_ms as int));
            }
            i = i + 1;
        }
        proof {
            assert(kinds.skip(kinds.len() as int) =~= Seq::<MapNode>::empty());
        }
    }
}

} // verus!
