use std::sync::Arc;
use vstd::prelude::*;

use crate::domain::economy::resource::{ResourceMap, ResourceType};
use crate::domain::economy::resource_allocation::DemandRequest;

verus! {

broadcast use {ResourceMap::lemma_set, ResourceMap::lemma_empty, ResourceMap::lemma_from_entries};

/// Needs are counted in millionths of a unit per inhabitant; this value
/// stands for one unit.
pub const PER_CAPITA_SCALE: u64 = 1_000_000;

/// Satisfaction is counted in millionths; this value stands for 100%.
pub const SATISFACTION_SCALE: u64 = 1_000_000;

/// How pressing a group of needs is, weakest first.
#[derive(Debug, Clone, Copy, PartialEq, Eq, Structural)]
pub enum Priority {
    Luxury,
    Comfort,
    Industry,
    Military,
    Survival,
    CriticalOverride,
}

/// How well a turn's grants met the population's needs.
#[derive(Debug)]
pub struct ConsumptionResult {
    /// What was consumed over what was needed, in millionths.
    pub satisfaction: u64,
    /// The needed resources that fell short, in `resource_order()`.
    pub missing_resources: Vec<ResourceType>,
}

/// A group of needs that a population has from a given size on.
#[derive(Debug, Clone, Copy)]
pub struct NeedTier {
    pub min_population: u32,
    pub priority: Priority,
    /// Per inhabitant, in millionths of a unit.
    pub needs_per_capita: ResourceMap,
}

/// The need tiers, largest threshold first.
#[derive(Debug)]
pub struct NeedRegistry {
    tiers: Vec<NeedTier>,
}

/// The tiers of `s` whose threshold is `k`, in order.
pub open spec fn with_min(s: Seq<NeedTier>, k: u32) -> Seq<NeedTier>
    decreases s.len(),
{
    if s.len() == 0 {
        Seq::empty()
    } else if s.last().min_population == k {
        with_min(s.drop_last(), k).push(s.last())
    } else {
        with_min(s.drop_last(), k)
    }
}

/// Thresholds never grow along `s`.
pub open spec fn descending(s: Seq<NeedTier>) -> bool {
    forall|i: int, j: int|
        0 <= i < j < s.len() ==> (#[trigger] s[i]).min_population >= (#[trigger] s[j]).min_population
}

/// The tiers of `s` that a population of `population` has reached, in order.
pub open spec fn active_tiers(s: Seq<NeedTier>, population: u32) -> Seq<NeedTier>
    decreases s.len(),
{
    if s.len() == 0 {
        Seq::empty()
    } else if population >= s.last().min_population {
        active_tiers(s.drop_last(), population).push(s.last())
    } else {
        active_tiers(s.drop_last(), population)
    }
}

/// `need` millionths per inhabitant for `population` inhabitants, rounded
/// down and capped at `u32::MAX`.
pub open spec fn per_capita(need: nat, population: nat) -> nat {
    let v = need * population / (PER_CAPITA_SCALE as nat);
    if v <= u32::MAX {
        v
    } else {
        u32::MAX as nat
    }
}

/// What one tier asks of `population` inhabitants.
pub open spec fn tier_demand(t: NeedTier, population: u32) -> ResourceMap {
    ResourceMap::from_entries(
        |r: ResourceType|
            match t.needs_per_capita.at(r) {
                Some(a) => Some(per_capita(a as nat, population as nat) as u32),
                None => None,
            },
    )
}

/// One request per tier, under the population's id 0.
pub open spec fn tier_requests(tiers: Seq<NeedTier>, population: u32) -> Seq<DemandRequest>
    decreases tiers.len(),
{
    if tiers.len() == 0 {
        Seq::empty()
    } else {
        tier_requests(tiers.drop_last(), population).push(
            DemandRequest { entity_id: 0, demand: tier_demand(tiers.last(), population) },
        )
    }
}

/// The summed need of `tiers` for resource `r`.
pub open spec fn need_total(tiers: Seq<NeedTier>, population: u32, r: ResourceType) -> nat
    decreases tiers.len(),
{
    if tiers.len() == 0 {
        0
    } else {
        need_total(tiers.drop_last(), population, r) + per_capita(
            tiers.last().needs_per_capita.amount(r),
            population as nat,
        )
    }
}

/// Some tier of `tiers` lists resource `r`.
pub open spec fn needs_listed(tiers: Seq<NeedTier>, r: ResourceType) -> bool {
    exists|i: int| 0 <= i < tiers.len() && (#[trigger] tiers[i]).needs_per_capita.has(r)
}

/// `v` when `r` is listed by some tier, 0 otherwise.
pub open spec fn listed_part(tiers: Seq<NeedTier>, r: ResourceType, v: nat) -> nat {
    if needs_listed(tiers, r) {
        v
    } else {
        0
    }
}

/// The listed needs of `tiers`, summed over every resource.
pub open spec fn demanded_total(tiers: Seq<NeedTier>, population: u32) -> nat {
    listed_part(tiers, ResourceType::Wood, need_total(tiers, population, ResourceType::Wood))
        + listed_part(tiers, ResourceType::Stone, need_total(tiers, population, ResourceType::Stone))
        + listed_part(tiers, ResourceType::Grain, need_total(tiers, population, ResourceType::Grain))
        + listed_part(tiers, ResourceType::Labour, need_total(tiers, population, ResourceType::Labour))
}

/// What `granted` gives of the listed needs of `tiers`, summed.
pub open spec fn consumed_total(tiers: Seq<NeedTier>, granted: ResourceMap) -> nat {
    listed_part(tiers, ResourceType::Wood, granted.amount(ResourceType::Wood)) + listed_part(
        tiers,
        ResourceType::Stone,
        granted.amount(ResourceType::Stone),
    ) + listed_part(tiers, ResourceType::Grain, granted.amount(ResourceType::Grain)) + listed_part(
        tiers,
        ResourceType::Labour,
        granted.amount(ResourceType::Labour),
    )
}

/// `r` is listed and `granted` gives less of it than needed.
pub open spec fn short_of(tiers: Seq<NeedTier>, population: u32, granted: ResourceMap, r: ResourceType) -> bool {
    needs_listed(tiers, r) && granted.amount(r) < need_total(tiers, population, r)
}

/// The resources that fell short, in `resource_order()`.
pub open spec fn shortfalls(tiers: Seq<NeedTier>, population: u32, granted: ResourceMap) -> Seq<ResourceType> {
    let s0: Seq<ResourceType> = Seq::empty();
    let s1 = if short_of(tiers, population, granted, ResourceType::Wood) {
        s0.push(ResourceType::Wood)
    } else {
        s0
    };
    let s2 = if short_of(tiers, population, granted, ResourceType::Stone) {
        s1.push(ResourceType::Stone)
    } else {
        s1
    };
    let s3 = if short_of(tiers, population, granted, ResourceType::Grain) {
        s2.push(ResourceType::Grain)
    } else {
        s2
    };
    if short_of(tiers, population, granted, ResourceType::Labour) {
        s3.push(ResourceType::Labour)
    } else {
        s3
    }
}

/// Consumed over demanded in millionths, normalised to at most full;
/// full when nothing is demanded.
pub open spec fn satisfaction_of(consumed: nat, demanded: nat) -> nat {
    if demanded > 0 && consumed * (SATISFACTION_SCALE as nat) / demanded < SATISFACTION_SCALE as nat {
        consumed * (SATISFACTION_SCALE as nat) / demanded
    } else {
        SATISFACTION_SCALE as nat
    }
}

impl Default for NeedRegistry {
    fn default() -> (r: Self)
        ensures
            r.tiers().len() == 0,
    {
        NeedRegistry { tiers: Vec::new() }
    }
}

impl NeedRegistry {
    /// The tiers, largest threshold first.
    pub closed spec fn tiers(&self) -> Seq<NeedTier> {
        self.tiers@
    }

    /// Keeps `tiers` ordered by threshold, largest first; tiers with the
    /// same threshold keep their given order.
    pub fn new(tiers: Vec<NeedTier>) -> (r: NeedRegistry)
        ensures
            descending(r.tiers()),
            forall|k: u32| #[trigger] with_min(r.tiers(), k) == with_min(tiers@, k),
    {
        let mut sorted: Vec<NeedTier> = Vec::new();
        let mut i: usize = 0;
        proof {
            assert(tiers@.take(0) =~= Seq::<NeedTier>::empty());
        }
        while i < tiers.len()
            invariant
                i <= tiers@.len(),
                descending(sorted@),
                forall|k: u32| #[trigger] with_min(sorted@, k) == with_min(tiers@.take(i as int), k),
            decreases tiers@.len() - i,
        {
            let t = tiers[i];
            let mut p: usize = 0;
            while p < sorted.len() && sorted[p].min_population >= t.min_population
                invariant
                    p <= sorted@.len(),
                    forall|q: int| 0 <= q < p ==> (#[trigger] sorted@[q]).min_population >= t.min_population,
                decreases sorted@.len() - p,
            {
                p = p + 1;
            }
            let ghost before = sorted@;
            proof {
                assert(p < before.len() ==> before[p as int].min_population < t.min_population);
                lemma_insert_sorted(before, p as int, t, tiers@.take(i as int));
                assert(tiers@.take(i as int + 1) =~= tiers@.take(i as int).push(t));
            }
            sorted.insert(p, t);
            i = i + 1;
        }
        proof {
            assert(tiers@.take(tiers@.len() as int) =~= tiers@);
        }
        NeedRegistry { tiers: sorted }
    }

    /// The tiers a population of `population` has reached, largest
    /// threshold first.
    pub fn get_active_tiers(&self, population: u32) -> (active: Vec<NeedTier>)
        ensures
            active@ == active_tiers(self.tiers(), population),
    {
        let mut active: Vec<NeedTier> = Vec::new();
        let mut i: usize = 0;
        while i < self.tiers.len()
            invariant
                i <= self.tiers@.len(),
                active@ == active_tiers(self.tiers@.take(i as int), population),
            decreases self.tiers@.len() - i,
        {
            proof {
                assert(self.tiers@.take(i as int + 1).drop_last() =~= self.tiers@.take(i as int));
            }
            if population >= self.tiers[i].min_population {
                active.push(self.tiers[i]);
            }
            i = i + 1;
        }
        proof {
            assert(self.tiers@.take(self.tiers@.len() as int) =~= self.tiers@);
        }
        active
    }
}

/// Inserting `t` after every tier with a threshold at least its own keeps
/// the order, and adds `t` last among the tiers of its threshold.
proof fn lemma_insert_sorted(before: Seq<NeedTier>, p: int, t: NeedTier, prior: Seq<NeedTier>)
    requires
        descending(before),
        0 <= p <= before.len(),
        forall|q: int| 0 <= q < p ==> (#[trigger] before[q]).min_population >= t.min_population,
        p < before.len() ==> before[p].min_population < t.min_population,
        forall|k: u32| #[trigger] with_min(before, k) == with_min(prior, k),
    ensures
        descending(before.insert(p, t)),
        forall|k: u32| #[trigger] with_min(before.insert(p, t), k) == with_min(prior.push(t), k),
{
    let pre = before.take(p);
    let post = before.skip(p);
    lemma_post_below(before, p, t);
    lemma_insert_descending(before, p, t);
    assert(before =~= pre + post);
    assert(before.insert(p, t) =~= pre + seq![t] + post);
    assert forall|k: u32| #[trigger] with_min(before.insert(p, t), k) == with_min(prior.push(t), k) by {
        lemma_with_min_concat(pre, post, k);
        lemma_with_min_concat(pre + seq![t], post, k);
        lemma_with_min_concat(pre, seq![t], k);
        lemma_with_min_single(t, k);
        assert(prior.push(t).drop_last() =~= prior);
        if t.min_population == k {
            lemma_with_min_none(post, k);
            assert(with_min(post, k) + Seq::<NeedTier>::empty() =~= with_min(post, k));
        }
    }
}

/// The tiers from position `p` on all sit below `t`'s threshold.
proof fn lemma_post_below(before: Seq<NeedTier>, p: int, t: NeedTier)
    requires
        descending(before),
        0 <= p <= before.len(),
        p < before.len() ==> before[p].min_population < t.min_population,
    ensures
        forall|q: int| 0 <= q < before.skip(p).len() ==> (#[trigger] before.skip(p)[q]).min_population
            < t.min_population,
{
    assert forall|q: int| 0 <= q < before.skip(p).len() implies (
    #[trigger] before.skip(p)[q]).min_population < t.min_population by {
        assert(before.skip(p)[q] == before[p + q]);
        if q > 0 {
            assert(before[p].min_population >= before[p + q].min_population);
        }
    }
}

proof fn lemma_insert_descending(before: Seq<NeedTier>, p: int, t: NeedTier)
    requires
        descending(before),
        0 <= p <= before.len(),
        forall|q: int| 0 <= q < p ==> (#[trigger] before[q]).min_population >= t.min_population,
        p < before.len() ==> before[p].min_population < t.min_population,
    ensures
        descending(before.insert(p, t)),
{
    let after = before.insert(p, t);
    assert forall|a: int, b: int| 0 <= a < b < after.len() implies (
    #[trigger] after[a]).min_population >= (#[trigger] after[b]).min_population by {
        if a < p && b > p {
            assert(after[a] == before[a]);
            assert(after[b] == before[b - 1]);
        } else if a < p && b == p {
            assert(after[a] == before[a]);
        } else if a == p {
            assert(after[b] == before[b - 1]);
            if b - 1 > p {
                assert(before[p].min_population >= before[b - 1].min_population);
            }
        } else if b < p {
            assert(after[a] == before[a]);
            assert(after[b] == before[b]);
        } else {
            assert(after[a] == before[a - 1]);
            assert(after[b] == before[b - 1]);
        }
    }
}

proof fn lemma_with_min_single(t: NeedTier, k: u32)
    ensures
        t.min_population == k ==> with_min(seq![t], k) == seq![t],
        t.min_population != k ==> with_min(seq![t], k) == Seq::<NeedTier>::empty(),
{
    let s = seq![t];
    assert(s.len() == 1);
    assert(s.last() == t);
    assert(s.drop_last() =~= Seq::<NeedTier>::empty());
    assert(with_min(s.drop_last(), k) =~= Seq::<NeedTier>::empty());
    if t.min_population == k {
        assert(Seq::<NeedTier>::empty().push(t) =~= s);
    }
}

/// The population of a settlement and the needs it has by size.
#[derive(Debug)]
pub struct PopulationManager {
    pub population: u32,
    pub registry: Arc<NeedRegistry>,
}

impl PopulationManager {
    /// The tiers this population has reached.
    pub open spec fn active(self) -> Seq<NeedTier> {
        active_tiers(self.registry.tiers(), self.population)
    }

    /// The requests of this population: none for an empty settlement,
    /// otherwise one per reached tier.
    pub open spec fn requests(self) -> Seq<DemandRequest> {
        if self.population == 0 {
            Seq::empty()
        } else {
            tier_requests(self.active(), self.population)
        }
    }

    /// What a turn with `granted` gives this population.
    pub open spec fn consumption(self, granted: ResourceMap) -> (nat, Seq<ResourceType>) {
        (
            satisfaction_of(
                consumed_total(self.active(), granted),
                demanded_total(self.active(), self.population),
            ),
            shortfalls(self.active(), self.population, granted),
        )
    }

    pub fn new(population: u32, registry: Arc<NeedRegistry>) -> (m: PopulationManager)
        ensures
            m.population == population,
            m.registry == registry,
    {
        PopulationManager { population, registry }
    }

    /// `need` millionths per inhabitant for the whole population.
    fn need_for(need: u32, population: u32) -> (v: u32)
        ensures
            v == per_capita(need as nat, population as nat),
    {
        assert((need as u64) * (population as u64) <= u64::MAX) by (nonlinear_arith);
        let v: u64 = (need as u64) * (population as u64) / PER_CAPITA_SCALE;
        if v > 0xffff_ffffu64 {
            u32::MAX
        } else {
            v as u32
        }
    }

    /// What one tier asks of this population.
    fn tier_demand_of(&self, tier: &NeedTier) -> (d: ResourceMap)
        ensures
            d == tier_demand(*tier, self.population),
    {
        let mut d = ResourceMap::new();
        if let Some(a) = tier.needs_per_capita.get(&ResourceType::Wood) {
            d.insert(ResourceType::Wood, Self::need_for(*a, self.population));
        }
        if let Some(a) = tier.needs_per_capita.get(&ResourceType::Stone) {
            d.insert(ResourceType::Stone, Self::need_for(*a, self.population));
        }
        if let Some(a) = tier.needs_per_capita.get(&ResourceType::Grain) {
            d.insert(ResourceType::Grain, Self::need_for(*a, self.population));
        }
        if let Some(a) = tier.needs_per_capita.get(&ResourceType::Labour) {
            d.insert(ResourceType::Labour, Self::need_for(*a, self.population));
        }
        proof {
            let target = tier_demand(*tier, self.population);
            assert forall|r: ResourceType| #[trigger] d.at(r) == target.at(r) by {}
            ResourceMap::lemma_ext(d, target);
        }
        d
    }

    /// One request per reached tier, each under id 0; none for an empty
    /// settlement.
    pub fn generate_requests(&self) -> (reqs: Vec<DemandRequest>)
        ensures
            reqs@ == self.requests(),
    {
        let mut requests: Vec<DemandRequest> = Vec::new();
        if self.population == 0 {
            return requests;
        }
        let active = self.registry.get_active_tiers(self.population);
        let mut i: usize = 0;
        while i < active.len()
            invariant
                i <= active@.len(),
                active@ == self.active(),
                requests@ == tier_requests(active@.take(i as int), self.population),
            decreases active@.len() - i,
        {
            proof {
                assert(active@.take(i as int + 1).drop_last() =~= active@.take(i as int));
            }
            let demand = self.tier_demand_of(&active[i]);
            requests.push(DemandRequest { entity_id: 0, demand });
            i = i + 1;
        }
        proof {
            assert(active@.take(active@.len() as int) =~= active@);
        }
        requests
    }

    /// The summed need of `tiers` for `r`, and whether some tier lists it.
    fn expected_need(&self, tiers: &Vec<NeedTier>, r: ResourceType) -> (res: (u64, bool))
        requires
            tiers@.len() <= u32::MAX,
        ensures
            res.0 == need_total(tiers@, self.population, r),
            res.1 == needs_listed(tiers@, r),
            res.0 <= tiers@.len() * (u32::MAX as nat),
    {
        let mut total: u64 = 0;
        let mut listed = false;
        let mut i: usize = 0;
        while i < tiers.len()
            invariant
                i <= tiers@.len(),
                tiers@.len() <= u32::MAX,
                total == need_total(tiers@.take(i as int), self.population, r),
                total <= i * (u32::MAX as nat),
                listed == needs_listed(tiers@.take(i as int), r),
            decreases tiers@.len() - i,
        {
            proof {
                assert(tiers@.take(i as int + 1).drop_last() =~= tiers@.take(i as int));
                assert(tiers@.take(i as int + 1).last() == tiers@[i as int]);
                assert((i + 1) * (u32::MAX as nat) <= u32::MAX * (u32::MAX as nat)) by (nonlinear_arith)
                    requires
                        i + 1 <= u32::MAX,
                ;
                assert(i * (u32::MAX as nat) + u32::MAX == (i + 1) * (u32::MAX as nat)) by (nonlinear_arith);
            }
            let tier = &tiers[i];
            let need = Self::need_for(tier.needs_per_capita.amount_of(r), self.population);
            total = total + need as u64;
            if tier.needs_per_capita.contains_key(&r) {
                listed = true;
            }
            proof {
                lemma_listed_push(tiers@, i as int, r);
            }
            i = i + 1;
        }
        proof {
            assert(tiers@.take(tiers@.len() as int) =~= tiers@);
        }
        (total, listed)
    }

    /// Adds the need for `r` and its grant to the running totals when some
    /// reached tier lists `r`, and records `r` as missing when it fell short.
    fn tally_need(
        &self,
        active: &Vec<NeedTier>,
        granted: &ResourceMap,
        r: ResourceType,
        totals: &mut (u128, u128),
        missing: &mut Vec<ResourceType>,
    )
        requires
            active@.len() <= u32::MAX,
            old(totals).0 <= 3 * 0x1_0000_0000_0000_0000,
            old(totals).1 <= 3 * 0x1_0000_0000,
        ensures
            final(totals).0 == old(totals).0 + listed_part(
                active@,
                r,
                need_total(active@, self.population, r),
            ),
            final(totals).1 == old(totals).1 + listed_part(active@, r, granted.amount(r)),
            final(totals).0 <= old(totals).0 + 0x1_0000_0000_0000_0000,
            final(totals).1 <= old(totals).1 + 0x1_0000_0000,
            final(missing)@ == if short_of(active@, self.population, *granted, r) {
                old(missing)@.push(r)
            } else {
                old(missing)@
            },
    {
        let (need, listed) = self.expected_need(active, r);
        if listed {
            let got = granted.amount_of(r);
            totals.0 = totals.0 + need as u128;
            totals.1 = totals.1 + got as u128;
            if (got as u64) < need {
                missing.push(r);
            }
        }
    }

    /// Compares what was granted with what the reached tiers need.
    /// Satisfaction is the listed grants over the listed needs, normalised
    /// to at most full (and full when nothing is needed); a listed resource
    /// granted below its need is missing.
    pub fn process_allocation(&self, granted_resources: Option<&ResourceMap>) -> (result: ConsumptionResult)
        requires
            self.registry.tiers().len() <= u32::MAX,
        ensures
            result.satisfaction <= SATISFACTION_SCALE,
            (result.satisfaction as nat, result.missing_resources@) == self.consumption(
                match granted_resources {
                    Some(g) => *g,
                    None => ResourceMap::empty(),
                },
            ),
    {
        let empty_grants = ResourceMap::new();
        let granted = match granted_resources {
            Some(g) => g,
            None => &empty_grants,
        };
        let active = self.registry.get_active_tiers(self.population);
        proof {
            lemma_active_len(self.registry.tiers(), self.population);
        }
        let mut totals: (u128, u128) = (0, 0);
        let mut missing_resources: Vec<ResourceType> = Vec::new();
        self.tally_need(&active, granted, ResourceType::Wood, &mut totals, &mut missing_resources);
        self.tally_need(&active, granted, ResourceType::Stone, &mut totals, &mut missing_resources);
        self.tally_need(&active, granted, ResourceType::Grain, &mut totals, &mut missing_resources);
        self.tally_need(&active, granted, ResourceType::Labour, &mut totals, &mut missing_resources);
        let total_demanded = totals.0;
        let total_consumed = totals.1;
        proof {
            assert(missing_resources@ =~= shortfalls(active@, self.population, *granted));
        }
        let satisfaction: u64 = if total_demanded > 0 {
            let v: u128 = total_consumed * (SATISFACTION_SCALE as u128) / total_demanded;
            assert(v <= total_consumed * 1_000_000) by (nonlinear_arith)
                requires
                    total_demanded > 0,
                    v == (total_consumed * 1_000_000) as int / total_demanded as int,
            ;
            if v < (SATISFACTION_SCALE as u128) {
                v as u64
            } else {
                SATISFACTION_SCALE
            }
        } else {
            SATISFACTION_SCALE
        };
        ConsumptionResult { satisfaction, missing_resources }
    }
}

/// Some tier of the first `i + 1` lists `r` exactly when one of the first
/// `i` does or tier `i` does.
proof fn lemma_listed_push(tiers: Seq<NeedTier>, i: int, r: ResourceType)
    requires
        0 <= i < tiers.len(),
    ensures
        needs_listed(tiers.take(i + 1), r) == (needs_listed(tiers.take(i), r)
            || tiers[i].needs_per_capita.has(r)),
{
    if tiers[i].needs_per_capita.has(r) {
        assert(tiers.take(i + 1)[i] == tiers[i]);
    }
    if needs_listed(tiers.take(i), r) {
        let k = choose|k: int| 0 <= k < tiers.take(i).len() && (#[trigger] tiers.take(i)[k]).needs_per_capita.has(r);
        assert(tiers.take(i + 1)[k] == tiers.take(i)[k]);
    }
    if needs_listed(tiers.take(i + 1), r) && !tiers[i].needs_per_capita.has(r) {
        let k = choose|k: int| 0 <= k < tiers.take(i + 1).len() && (#[trigger] tiers.take(i + 1)[k]).needs_per_capita.has(r);
        assert(tiers.take(i)[k] == tiers.take(i + 1)[k]);
    }
}

proof fn lemma_active_len(s: Seq<NeedTier>, population: u32)
    ensures
        active_tiers(s, population).len() <= s.len(),
    decreases s.len(),
{
    if s.len() > 0 {
        lemma_active_len(s.drop_last(), population);
    }
}

proof fn lemma_need_total_zero(tiers: Seq<NeedTier>, r: ResourceType)
    ensures
        need_total(tiers, 0, r) == 0,
    decreases tiers.len(),
{
    if tiers.len() > 0 {
        lemma_need_total_zero(tiers.drop_last(), r);
    }
}

/// Satisfaction is the consumed share of the demand, normalised: with
/// nothing demanded it is full; when consumption covers the demand it is
/// full; otherwise it is the largest whole number of millionths `v` with
/// `v * demanded <= consumed * SATISFACTION_SCALE`, which is below full.
/// More consumption never lowers it.
pub proof fn law_satisfaction_is_share(consumed: nat, more: nat, demanded: nat)
    requires
        consumed <= more,
    ensures
        satisfaction_of(consumed, demanded) <= SATISFACTION_SCALE,
        demanded == 0 || consumed >= demanded ==> satisfaction_of(consumed, demanded) == SATISFACTION_SCALE,
        demanded > 0 && consumed < demanded ==> satisfaction_of(consumed, demanded) < SATISFACTION_SCALE
            && satisfaction_of(consumed, demanded) * demanded <= consumed * SATISFACTION_SCALE < (
            satisfaction_of(consumed, demanded) + 1) * demanded,
        satisfaction_of(consumed, demanded) <= satisfaction_of(more, demanded),
{
    let sc = SATISFACTION_SCALE as nat;
    if demanded > 0 {
        let q = consumed * sc / demanded;
        let q2 = more * sc / demanded;
        assert(q * demanded <= consumed * sc < (q + 1) * demanded) by (nonlinear_arith)
            requires
                demanded > 0,
                q == consumed * sc / demanded,
        ;
        assert(q <= q2) by (nonlinear_arith)
            requires
                demanded > 0,
                consumed <= more,
                q == consumed * sc / demanded,
                q2 == more * sc / demanded,
        ;
        if consumed >= demanded {
            assert(q >= sc) by (nonlinear_arith)
                requires
                    demanded > 0,
                    consumed >= demanded,
                    q == consumed * sc / demanded,
                    sc > 0,
            ;
        } else {
            assert(q < sc) by (nonlinear_arith)
                requires
                    demanded > 0,
                    consumed < demanded,
                    q * demanded <= consumed * sc,
                    sc > 0,
            ;
        }
    }
}

/// A need given per capita in millionths scales with the population: it is
/// the largest whole number `v` with `v * PER_CAPITA_SCALE <= need *
/// population`, capped at `u32::MAX`, and a larger population never needs
/// less.
pub proof fn law_need_scales_with_population(need: nat, population: nat, larger: nat)
    requires
        population <= larger,
    ensures
        per_capita(need, population) <= u32::MAX,
        per_capita(need, population) < u32::MAX ==> per_capita(need, population) * (PER_CAPITA_SCALE as nat)
            <= need * population < (per_capita(need, population) + 1) * (PER_CAPITA_SCALE as nat),
        per_capita(need, population) <= per_capita(need, larger),
{
    let sc = PER_CAPITA_SCALE as nat;
    let q = need * population / sc;
    let q2 = need * larger / sc;
    assert(q * sc <= need * population < (q + 1) * sc) by (nonlinear_arith)
        requires
            sc > 0,
            q == need * population / sc,
    ;
    assert(q <= q2) by (nonlinear_arith)
        requires
            sc > 0,
            population <= larger,
            q == need * population / sc,
            q2 == need * larger / sc,
    ;
}

/// An empty settlement needs nothing: it is fully satisfied whatever it
/// is granted, and misses nothing.
pub proof fn law_empty_settlement_satisfied(m: PopulationManager, granted: ResourceMap)
    requires
        m.population == 0,
    ensures
        m.requests() == Seq::<DemandRequest>::empty(),
        m.consumption(granted) == (SATISFACTION_SCALE as nat, Seq::<ResourceType>::empty()),
{
    let t = m.active();
    lemma_need_total_zero(t, ResourceType::Wood);
    lemma_need_total_zero(t, ResourceType::Stone);
    lemma_need_total_zero(t, ResourceType::Grain);
    lemma_need_total_zero(t, ResourceType::Labour);
    assert(shortfalls(t, 0, granted) =~= Seq::<ResourceType>::empty());
}

/// A grant that covers every listed need in full satisfies the
/// population fully and leaves nothing missing.
pub proof fn law_needs_met_full_satisfaction(m: PopulationManager, granted: ResourceMap)
    requires
        forall|r: ResourceType|
            needs_listed(m.active(), r) ==> granted.amount(r) >= #[trigger] need_total(
                m.active(),
                m.population,
                r,
            ),
    ensures
        m.consumption(granted).0 == SATISFACTION_SCALE,
        m.consumption(granted).1 == Seq::<ResourceType>::empty(),
{
    let t = m.active();
    let p = m.population;
    assert(need_total(t, p, ResourceType::Wood) == need_total(t, p, ResourceType::Wood));
    assert(need_total(t, p, ResourceType::Stone) == need_total(t, p, ResourceType::Stone));
    assert(need_total(t, p, ResourceType::Grain) == need_total(t, p, ResourceType::Grain));
    assert(need_total(t, p, ResourceType::Labour) == need_total(t, p, ResourceType::Labour));
    let c = consumed_total(t, granted);
    let d = demanded_total(t, p);
    assert(c >= d);
    if d > 0 {
        assert(c * 1_000_000 / d >= 1_000_000) by (nonlinear_arith)
            requires
                c >= d,
                d > 0,
        ;
    }
    assert(shortfalls(t, p, granted) =~= Seq::<ResourceType>::empty());
}

/// Splitting a sequence splits its tiers of each threshold.
proof fn lemma_with_min_concat(a: Seq<NeedTier>, b: Seq<NeedTier>, k: u32)
    ensures
        with_min(a + b, k) == with_min(a, k) + with_min(b, k),
    decreases b.len(),
{
    if b.len() == 0 {
        assert(a + b =~= a);
        assert(with_min(a, k) + with_min(b, k) =~= with_min(a, k));
    } else {
        assert((a + b).drop_last() =~= a + b.drop_last());
        assert((a + b).last() == b.last());
        lemma_with_min_concat(a, b.drop_last(), k);
        if b.last().min_population == k {
            assert(with_min(a, k) + with_min(b.drop_last(), k).push(b.last()) =~= (with_min(a, k)
                + with_min(b.drop_last(), k)).push(b.last()));
        }
    }
}

/// A sequence with no tier of threshold `k` has none to give.
proof fn lemma_with_min_none(s: Seq<NeedTier>, k: u32)
    requires
        forall|q: int| 0 <= q < s.len() ==> (#[trigger] s[q]).min_population != k,
    ensures
        with_min(s, k) == Seq::<NeedTier>::empty(),
    decreases s.len(),
{
    if s.len() > 0 {
        assert(s[s.len() - 1] == s.last());
        assert forall|q: int| 0 <= q < s.drop_last().len() implies (
        #[trigger] s.drop_last()[q]).min_population != k by {
            assert(s.drop_last()[q] == s[q]);
        }
        lemma_with_min_none(s.drop_last(), k);
    }
}

} // verus!
