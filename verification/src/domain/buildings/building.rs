use std::sync::Arc;
use vstd::prelude::*;

use crate::domain::buildings::factory::{BuildingBehavior, BuildingDefinition};
use crate::domain::economy::resource::{ResourceMap, ResourceType};
use crate::domain::world_data::point::Point;

verus! {

broadcast use {
    ResourceMap::lemma_set,
    ResourceMap::lemma_unset,
    ResourceMap::lemma_empty,
    ResourceMap::lemma_from_entries,
};

/// Efficiencies are counted in millionths: this value stands for 100%.
pub const EFFICIENCY_SCALE: u64 = 1_000_000;

/// Where a building may stand: the settlement centre or its territory.
#[derive(Debug, Clone, Copy, PartialEq, Eq, Structural)]
pub enum BuildingLocation {
    Hub,
    Spoke,
}

/// What a production run made, and what of the grant it left untouched.
#[derive(Debug)]
pub struct ProductionResult {
    pub produced: ResourceMap,
    pub unused: ResourceMap,
}

/// Everything a building reports back after a turn.
#[derive(Debug)]
pub struct BuildingUpdateResult {
    pub production: ProductionResult,
}

/// A building standing on the map, sharing its blueprint with every other
/// building of its kind.
#[derive(Debug)]
pub struct Building {
    pub instance_id: u32,
    pub position: Point,
    pub location: BuildingLocation,
    pub definition: Arc<BuildingDefinition>,
    /// The share of full staffing the building asks for, in millionths.
    pub target_efficiency: u32,
    pub is_active: bool,
    pub current_workers: u32,
}

/// `amount` scaled by an efficiency in millionths, rounded down and capped
/// at `u32::MAX`.
pub open spec fn scaled_by_efficiency(amount: nat, efficiency: nat) -> nat {
    let v = amount * efficiency / (EFFICIENCY_SCALE as nat);
    if v <= u32::MAX {
        v
    } else {
        u32::MAX as nat
    }
}

/// Scaling by an efficiency takes that share of the amount, rounded down:
/// below the cap it is the largest whole number `v` with
/// `v * EFFICIENCY_SCALE <= amount * efficiency`; full efficiency keeps the
/// amount, and a higher efficiency never gives less.
pub proof fn law_efficiency_share(amount: nat, efficiency: nat, higher: nat)
    requires
        efficiency <= higher,
    ensures
        scaled_by_efficiency(amount, efficiency) <= u32::MAX,
        scaled_by_efficiency(amount, efficiency) < u32::MAX ==> scaled_by_efficiency(amount, efficiency)
            * (EFFICIENCY_SCALE as nat) <= amount * efficiency < (scaled_by_efficiency(amount, efficiency)
            + 1) * (EFFICIENCY_SCALE as nat),
        amount <= u32::MAX ==> scaled_by_efficiency(amount, EFFICIENCY_SCALE as nat) == amount,
        scaled_by_efficiency(amount, efficiency) <= scaled_by_efficiency(amount, higher),
{
    let sc = EFFICIENCY_SCALE as nat;
    let q = amount * efficiency / sc;
    let q2 = amount * higher / sc;
    assert(q * sc <= amount * efficiency < (q + 1) * sc) by (nonlinear_arith)
        requires
            sc > 0,
            q == amount * efficiency / sc,
    ;
    assert(q <= q2) by (nonlinear_arith)
        requires
            sc > 0,
            efficiency <= higher,
            q == amount * efficiency / sc,
            q2 == amount * higher / sc,
    ;
    assert(amount * sc / sc == amount) by (nonlinear_arith)
        requires
            sc > 0,
    ;
}

/// The inputs of a behaviour; a stat modifier has none.
pub open spec fn behavior_inputs(b: BuildingBehavior) -> Seq<(ResourceType, u32)> {
    match b {
        BuildingBehavior::Production { inputs, .. } => inputs@,
        BuildingBehavior::StatModifier { .. } => Seq::empty(),
    }
}

/// What the inputs in `inputs` ask of resource `r` at `efficiency`.
pub open spec fn inputs_demand(inputs: Seq<(ResourceType, u32)>, r: ResourceType, efficiency: nat) -> nat
    decreases inputs.len(),
{
    if inputs.len() == 0 {
        0
    } else {
        inputs_demand(inputs.drop_last(), r, efficiency) + if inputs.last().0 == r {
            scaled_by_efficiency(inputs.last().1 as nat, efficiency)
        } else {
            0
        }
    }
}

/// What the behaviours in `bs` ask of resource `r` at `efficiency`.
pub open spec fn behaviors_demand(bs: Seq<BuildingBehavior>, r: ResourceType, efficiency: nat) -> nat
    decreases bs.len(),
{
    if bs.len() == 0 {
        0
    } else {
        behaviors_demand(bs.drop_last(), r, efficiency) + inputs_demand(
            behavior_inputs(bs.last()),
            r,
            efficiency,
        )
    }
}

/// Some input in `inputs` names resource `r`.
pub open spec fn inputs_mention(inputs: Seq<(ResourceType, u32)>, r: ResourceType) -> bool {
    exists|j: int| 0 <= j < inputs.len() && #[trigger] inputs[j].0 == r
}

/// Some production behaviour in `bs` takes resource `r` as input.
pub open spec fn behaviors_mention(bs: Seq<BuildingBehavior>, r: ResourceType) -> bool {
    exists|i: int| 0 <= i < bs.len() && inputs_mention(behavior_inputs(#[trigger] bs[i]), r)
}

/// A demand entry: present when some input names the resource, or when
/// the labour asked for is positive.
pub open spec fn demand_entry_from(labour: nat, inputs_total: nat, mentioned: bool) -> Option<u32> {
    if mentioned {
        Some((labour + inputs_total) as u32)
    } else if labour > 0 {
        Some(labour as u32)
    } else {
        None
    }
}


/// The scale of one production run as a fraction `num / den`: the
/// staffing `w / m`, lowered to `granted / base` by every input with a
/// positive base whose grant covers less than that.
pub open spec fn scale_of(inputs: Seq<(ResourceType, u32)>, granted: ResourceMap, w: nat, m: nat) -> (
    nat,
    nat,
)
    decreases inputs.len(),
{
    if inputs.len() == 0 {
        (w, m)
    } else {
        let prev = scale_of(inputs.drop_last(), granted, w, m);
        let r = inputs.last().0;
        let base = inputs.last().1 as nat;
        if base > 0 && granted.amount(r) * prev.1 < prev.0 * base {
            (granted.amount(r), base)
        } else {
            prev
        }
    }
}

/// `base * s`, rounded up.
pub open spec fn ceil_scaled(base: nat, s: (nat, nat)) -> nat {
    ((base * s.0 + s.1 - 1) / (s.1 as int)) as nat
}

/// `base * s`, rounded down.
pub open spec fn floor_scaled(base: nat, s: (nat, nat)) -> nat {
    base * s.0 / s.1
}

/// `v`, or `u32::MAX` when it is larger.
pub open spec fn capped(v: nat) -> nat {
    if v <= u32::MAX {
        v
    } else {
        u32::MAX as nat
    }
}

/// What is left of `unused` after taking `inputs` at scale `s`; an input
/// with no entry takes nothing. `None` when an input takes more than is
/// left of it.
pub open spec fn after_consuming(inputs: Seq<(ResourceType, u32)>, s: (nat, nat), unused: ResourceMap) -> Option<
    ResourceMap,
>
    decreases inputs.len(),
{
    if inputs.len() == 0 {
        Some(unused)
    } else {
        match after_consuming(inputs.drop_last(), s, unused) {
            None => None,
            Some(u) => {
                let r = inputs.last().0;
                let c = ceil_scaled(inputs.last().1 as nat, s);
                match u.at(r) {
                    None => Some(u),
                    Some(v) => if c <= v {
                        Some(u.set(r, (v - c) as u32))
                    } else {
                        None
                    },
                }
            },
        }
    }
}

/// `produced` with `outputs` at scale `s` added to it. `None` when an
/// entry would pass `u32::MAX`.
pub open spec fn after_producing(outputs: Seq<(ResourceType, u32)>, s: (nat, nat), produced: ResourceMap) -> Option<
    ResourceMap,
>
    decreases outputs.len(),
{
    if outputs.len() == 0 {
        Some(produced)
    } else {
        match after_producing(outputs.drop_last(), s, produced) {
            None => None,
            Some(p) => {
                let r = outputs.last().0;
                let t = p.amount(r) + capped(floor_scaled(outputs.last().1 as nat, s));
                if t <= u32::MAX {
                    Some(p.set(r, t as u32))
                } else {
                    None
                }
            },
        }
    }
}

/// One behaviour run on `(produced, unused)` with `w` of `m` workers and
/// `granted` as the grant that sets the scale. A production run whose
/// scale is zero is skipped.
pub open spec fn run_one(
    b: BuildingBehavior,
    granted: ResourceMap,
    w: nat,
    m: nat,
    acc: (ResourceMap, ResourceMap),
) -> Option<(ResourceMap, ResourceMap)> {
    match b {
        BuildingBehavior::Production { inputs, outputs } => {
            let s = scale_of(inputs@, granted, w, m);
            if s.0 == 0 {
                Some(acc)
            } else {
                match after_consuming(inputs@, s, acc.1) {
                    None => None,
                    Some(u) => match after_producing(outputs@, s, acc.0) {
                        None => None,
                        Some(p) => Some((p, u)),
                    },
                }
            }
        },
        BuildingBehavior::StatModifier { .. } => Some(acc),
    }
}

/// `(produced, unused)` after every behaviour of `bs` ran in turn,
/// starting from nothing produced and the whole grant unused.
pub open spec fn run_behaviors(bs: Seq<BuildingBehavior>, granted: ResourceMap, w: nat, m: nat) -> Option<
    (ResourceMap, ResourceMap),
>
    decreases bs.len(),
{
    if bs.len() == 0 {
        Some((ResourceMap::empty(), granted))
    } else {
        match run_behaviors(bs.drop_last(), granted, w, m) {
            None => None,
            Some(acc) => run_one(bs.last(), granted, w, m, acc),
        }
    }
}

/// The grant as a plain value.
pub open spec fn grant_view(granted: Option<&ResourceMap>) -> Option<ResourceMap> {
    match granted {
        Some(g) => Some(*g),
        None => None,
    }
}

/// The material part of a grant: everything but labour.
pub open spec fn materials(granted: Option<ResourceMap>) -> ResourceMap {
    match granted {
        Some(g) => g.unset(ResourceType::Labour),
        None => ResourceMap::empty(),
    }
}

impl Building {
    /// The workers asked for: full staffing scaled by the target efficiency.
    pub open spec fn labour_wanted(self) -> nat {
        scaled_by_efficiency(self.definition.max_workers as nat, self.target_efficiency as nat)
    }

    /// The labour part of the demand for resource `r`.
    pub open spec fn labour_part(self, r: ResourceType) -> nat {
        if r == ResourceType::Labour {
            self.labour_wanted()
        } else {
            0
        }
    }

    /// The entry for `r` of what the building asks for this turn.
    pub open spec fn demand_entry(self, r: ResourceType) -> Option<u32> {
        if !self.is_active {
            None
        } else {
            demand_entry_from(
                self.labour_part(r),
                behaviors_demand(self.definition.behaviors@, r, self.target_efficiency as nat),
                behaviors_mention(self.definition.behaviors@, r),
            )
        }
    }

    /// What the building asks for this turn.
    pub open spec fn demand_map(self) -> ResourceMap {
        ResourceMap::from_entries(|r: ResourceType| self.demand_entry(r))
    }

    /// Every entry of the demand fits in a `u32`.
    pub open spec fn demand_in_range(self) -> bool {
        self.is_active ==> forall|r: ResourceType|
            self.labour_part(r) + behaviors_demand(
                self.definition.behaviors@,
                r,
                self.target_efficiency as nat,
            ) <= u32::MAX
    }

    pub fn new(
        instance_id: u32,
        position: Point,
        location: BuildingLocation,
        definition: Arc<BuildingDefinition>,
    ) -> (b: Building)
        ensures
            b.instance_id == instance_id,
            b.position == position,
            b.location == location,
            b.definition == definition,
            b.target_efficiency == 0,
            b.is_active,
            b.current_workers == 0,
    {
        Building {
            instance_id,
            position,
            location,
            definition,
            target_efficiency: 0,
            is_active: true,
            current_workers: 0,
        }
    }

    /// Swaps the blueprint; nothing else about the building changes.
    pub fn upgrade(&mut self, new_definition: Arc<BuildingDefinition>)
        ensures
            *final(self) == (Building { definition: new_definition, ..*old(self) }),
    {
        self.definition = new_definition;
    }

    /// `amount` scaled by `efficiency` (in millionths), rounded down and
    /// capped at `u32::MAX`.
    fn scale_amount(amount: u32, efficiency: u32) -> (v: u32)
        ensures
            v == scaled_by_efficiency(amount as nat, efficiency as nat),
    {
        assert((amount as u64) * (efficiency as u64) <= u64::MAX) by (nonlinear_arith);
        let v: u64 = (amount as u64) * (efficiency as u64) / EFFICIENCY_SCALE;
        if v > 0xffff_ffffu64 {
            u32::MAX
        } else {
            v as u32
        }
    }

    /// What the building asks of the settlement this turn: its labour at
    /// the target efficiency and the inputs of every production behaviour
    /// scaled the same way. An inactive building asks for nothing.
    pub fn calculate_demand(&self) -> (demand: ResourceMap)
        requires
            self.demand_in_range(),
        ensures
            demand == self.demand_map(),
    {
        let mut demand = ResourceMap::new();
        if !self.is_active {
            proof {
                assert forall|r: ResourceType| #[trigger] demand.at(r) == self.demand_map().at(r) by {}
                ResourceMap::lemma_ext(demand, self.demand_map());
            }
            return demand;
        }
        let efficiency = self.target_efficiency;
        let ghost eff = efficiency as nat;
        let labor_needed = Self::scale_amount(self.definition.max_workers, efficiency);
        if labor_needed > 0 {
            demand.insert(ResourceType::Labour, labor_needed);
        }
        let behaviors = &self.definition.behaviors;
        let ghost bs = behaviors@;
        let mut i: usize = 0;
        while i < behaviors.len()
            invariant
                i <= bs.len(),
                bs == self.definition.behaviors@,
                behaviors@ == bs,
                eff == self.target_efficiency,
                efficiency == self.target_efficiency,
                self.is_active,
                self.demand_in_range(),
                forall|r: ResourceType|
                    #[trigger] demand.at(r) == demand_entry_from(
                        self.labour_part(r),
                        behaviors_demand(bs.take(i as int), r, eff),
                        behaviors_mention(bs.take(i as int), r),
                    ),
            decreases bs.len() - i,
        {
            proof {
                assert(bs.take(i as int + 1).drop_last() =~= bs.take(i as int));
                assert(bs.take(i as int + 1).last() == bs[i as int]);
            }
            match &behaviors[i] {
                BuildingBehavior::Production { inputs, .. } => {
                    let ghost ins = inputs@;
                    let mut j: usize = 0;
                    while j < inputs.len()
                        invariant
                            j <= ins.len(),
                            inputs@ == ins,
                            ins == behavior_inputs(bs[i as int]),
                            i < bs.len(),
                            bs == self.definition.behaviors@,
                            eff == self.target_efficiency,
                            efficiency == self.target_efficiency,
                            self.is_active,
                            self.demand_in_range(),
                            forall|r: ResourceType|
                                #[trigger] demand.at(r) == demand_entry_from(
                                    self.labour_part(r),
                                    behaviors_demand(bs.take(i as int), r, eff) + inputs_demand(
                                        ins.take(j as int),
                                        r,
                                        eff,
                                    ),
                                    behaviors_mention(bs.take(i as int), r) || inputs_mention(
                                        ins.take(j as int),
                                        r,
                                    ),
                                ),
                        decreases ins.len() - j,
                    {
                        let (res, amount) = inputs[j];
                        let add = Self::scale_amount(amount, efficiency);
                        proof {
                            assert(ins.take(j as int + 1).drop_last() =~= ins.take(j as int));
                            assert(ins.take(j as int + 1).last() == ins[j as int]);
                            lemma_inputs_prefix_le(ins, j as int + 1, res, eff);
                            lemma_behaviors_prefix_le(bs, i as int, res, eff);
                            assert(bs.take(i as int + 1).drop_last() =~= bs.take(i as int));
                            assert(self.labour_part(res) + behaviors_demand(bs, res, eff) <= u32::MAX);
                            if !inputs_mention(ins.take(j as int), res) {
                                lemma_unmentioned_inputs(ins.take(j as int), res, eff);
                            }
                            if !behaviors_mention(bs.take(i as int), res) {
                                lemma_unmentioned_behaviors(bs.take(i as int), res, eff);
                            }
                        }
                        let cur = demand.amount_of(res);
                        proof {
                            assert(ins.take(j as int + 1).last() == (res, amount));
                        }
                        demand.insert(res, cur + add);
                        proof {
                            assert forall|r: ResourceType| #[trigger] demand.at(r)
                                == demand_entry_from(
                                self.labour_part(r),
                                behaviors_demand(bs.take(i as int), r, eff) + inputs_demand(
                                    ins.take(j as int + 1),
                                    r,
                                    eff,
                                ),
                                behaviors_mention(bs.take(i as int), r) || inputs_mention(
                                    ins.take(j as int + 1),
                                    r,
                                ),
                            ) by {
                                lemma_mention_push(ins, j as int, r);
                            }
                        }
                        j = j + 1;
                    }
                    proof {
                        assert(ins.take(ins.len() as int) =~= ins);
                    }
                },
                BuildingBehavior::StatModifier { .. } => {
                    proof {
                        assert(behavior_inputs(bs[i as int]) =~= Seq::<(ResourceType, u32)>::empty());
                    }
                },
            }
            proof {
                assert forall|r: ResourceType|
                    #![trigger behaviors_mention(bs.take(i as int + 1), r)]
                    behaviors_mention(bs.take(i as int + 1), r) == (behaviors_mention(
                        bs.take(i as int),
                        r,
                    ) || inputs_mention(behavior_inputs(bs[i as int]), r)) by {
                    lemma_behaviors_mention_push(bs, i as int, r);
                }
            }
            i = i + 1;
        }
        proof {
            assert(bs.take(bs.len() as int) =~= bs);
            assert forall|r: ResourceType| #[trigger] demand.at(r) == self.demand_map().at(r) by {}
            ResourceMap::lemma_ext(demand, self.demand_map());
        }
        demand
    }

    /// `(produced, unused)` of a production run on `granted`. A building
    /// that is inactive or has no workers produces nothing and leaves the
    /// whole grant unused.
    pub open spec fn production_of(self, granted: ResourceMap) -> Option<(ResourceMap, ResourceMap)> {
        if !self.is_active || self.current_workers == 0 {
            Some((ResourceMap::empty(), granted))
        } else {
            run_behaviors(
                self.definition.behaviors@,
                granted,
                self.current_workers as nat,
                self.definition.max_workers as nat,
            )
        }
    }

    /// The workers a grant gives: its labour, when the building is active
    /// and has work places; none otherwise.
    pub open spec fn workers_after(self, granted: Option<ResourceMap>) -> u32 {
        if self.is_active && self.definition.max_workers > 0 {
            match granted {
                Some(g) => g.amount(ResourceType::Labour) as u32,
                None => 0,
            }
        } else {
            0
        }
    }

    /// The building once a grant has set its workers.
    pub open spec fn staffed(self, granted: Option<ResourceMap>) -> Building {
        Building { current_workers: self.workers_after(granted), ..self }
    }

    /// The production run on `granted` consumes no more of any input than
    /// is left of it and no output passes `u32::MAX`.
    pub open spec fn allocation_fits(self, granted: Option<ResourceMap>) -> bool {
        self.staffed(granted).production_of(materials(granted)) is Some
    }

    /// Takes the labour of the grant as its workers (none when inactive or
    /// without work places), drops labour from the grant, and runs
    /// production on the rest.
    pub fn resolve_allocation(&mut self, granted: Option<&ResourceMap>) -> (result: BuildingUpdateResult)
        requires
            old(self).allocation_fits(grant_view(granted)),
        ensures
            *final(self) == old(self).staffed(grant_view(granted)),
            final(self).production_of(materials(grant_view(granted))) == Some(
                (result.production.produced, result.production.unused),
            ),
            !result.production.unused.has(ResourceType::Labour),
            forall|r: ResourceType|
                #[trigger] result.production.unused.amount(r) <= materials(
                    grant_view(granted),
                ).amount(r),
            forall|r: ResourceType|
                #[trigger] result.production.produced.amount(r) == if final(self).is_active
                    && final(self).current_workers > 0 {
                    behaviors_output(
                        final(self).definition.behaviors@,
                        materials(grant_view(granted)),
                        final(self).current_workers as nat,
                        final(self).definition.max_workers as nat,
                        r,
                    )
                } else {
                    0
                },
    {
        let mut material_grants = match granted {
            Some(g) => *g,
            None => ResourceMap::new(),
        };
        if self.is_active && self.definition.max_workers > 0 {
            let labor = match material_grants.remove(&ResourceType::Labour) {
                Some(l) => l,
                None => 0,
            };
            self.current_workers = labor;
        } else {
            self.current_workers = 0;
            material_grants.remove(&ResourceType::Labour);
        }
        proof {
            let target = materials(grant_view(granted));
            assert forall|q: ResourceType| #[trigger] material_grants.at(q) == target.at(q) by {}
            ResourceMap::lemma_ext(material_grants, target);
        }
        let production = self.execute_production(Some(&material_grants));
        proof {
            if self.is_active && self.current_workers > 0 {
                lemma_run_keeps_absent(
                    self.definition.behaviors@,
                    material_grants,
                    self.current_workers as nat,
                    self.definition.max_workers as nat,
                    ResourceType::Labour,
                );
                assert forall|r: ResourceType| #[trigger] production.unused.amount(r) <= material_grants.amount(r) by {
                    lemma_run_unused_within(
                        self.definition.behaviors@,
                        material_grants,
                        self.current_workers as nat,
                        self.definition.max_workers as nat,
                        r,
                    );
                }
                assert(materials_or_empty(Some(material_grants)) == material_grants);
                assert(run_behaviors(
                    self.definition.behaviors@,
                    material_grants,
                    self.current_workers as nat,
                    self.definition.max_workers as nat,
                ) == Some((production.produced, production.unused)));
                law_production_adds_up(
                    self.definition.behaviors@,
                    material_grants,
                    self.current_workers as nat,
                    self.definition.max_workers as nat,
                );
                assert forall|r: ResourceType| #[trigger] production.produced.amount(r) == behaviors_output(
                    self.definition.behaviors@,
                    material_grants,
                    self.current_workers as nat,
                    self.definition.max_workers as nat,
                    r,
                ) by {
                    assert((run_behaviors(
                        self.definition.behaviors@,
                        material_grants,
                        self.current_workers as nat,
                        self.definition.max_workers as nat,
                    )->0).0.amount(r) == behaviors_output(
                        self.definition.behaviors@,
                        material_grants,
                        self.current_workers as nat,
                        self.definition.max_workers as nat,
                        r,
                    ));
                }
            } else {
                assert forall|r: ResourceType| #[trigger] production.produced.amount(r) == 0 by {
                    assert(ResourceMap::empty().at(r) == None::<u32>) by {
                        ResourceMap::lemma_empty(r);
                    }
                }
            }
        }
        BuildingUpdateResult { production }
    }

    /// Runs every behaviour in turn on the grant.
    fn execute_production(&self, granted: Option<&ResourceMap>) -> (result: ProductionResult)
        requires
            self.is_active && self.current_workers > 0 ==> self.definition.max_workers > 0,
            self.production_of(materials_or_empty(grant_view(granted))) is Some,
        ensures
            self.production_of(materials_or_empty(grant_view(granted))) == Some(
                (result.produced, result.unused),
            ),
    {
        let empty_grants = ResourceMap::new();
        let granted_ref = match granted {
            Some(g) => g,
            None => &empty_grants,
        };
        let mut produced = ResourceMap::new();
        let mut unused = *granted_ref;
        if !self.is_active || self.current_workers == 0 {
            return ProductionResult { produced, unused };
        }
        let w = self.current_workers;
        let m = self.definition.max_workers;
        let behaviors = &self.definition.behaviors;
        let ghost bs = behaviors@;
        let ghost g = *granted_ref;
        proof {
            assert(bs.take(0) =~= Seq::<BuildingBehavior>::empty());
        }
        let mut i: usize = 0;
        while i < behaviors.len()
            invariant
                i <= bs.len(),
                behaviors@ == bs,
                g == *granted_ref,
                m > 0,
                run_behaviors(bs, g, w as nat, m as nat) is Some,
                run_behaviors(bs.take(i as int), g, w as nat, m as nat) == Some((produced, unused)),
            decreases bs.len() - i,
        {
            proof {
                assert(bs.take(i as int + 1).drop_last() =~= bs.take(i as int));
                assert(bs.take(i as int + 1).last() == bs[i as int]);
                lemma_run_prefix(bs, i as int + 1, g, w as nat, m as nat);
            }
            match &behaviors[i] {
                BuildingBehavior::Production { inputs, outputs } => {
                    let scale = Self::calculate_bottleneck(inputs, granted_ref, w, m);
                    if scale.0 > 0 {
                        Self::consume_inputs(inputs, &mut unused, scale);
                        Self::generate_outputs(outputs, &mut produced, scale);
                    }
                },
                BuildingBehavior::StatModifier { .. } => {},
            }
            i = i + 1;
        }
        proof {
            assert(bs.take(bs.len() as int) =~= bs);
        }
        ProductionResult { produced, unused }
    }

    /// The scale of a production run, as `(num, den)`.
    fn calculate_bottleneck(inputs: &Vec<(ResourceType, u32)>, granted: &ResourceMap, w: u32, m: u32) -> (s: (
        u64,
        u64,
    ))
        requires
            m > 0,
        ensures
            (s.0 as nat, s.1 as nat) == scale_of(inputs@, *granted, w as nat, m as nat),
            0 < s.1 <= u32::MAX,
            s.0 <= u32::MAX,
    {
        let mut num: u64 = w as u64;
        let mut den: u64 = m as u64;
        let mut j: usize = 0;
        while j < inputs.len()
            invariant
                j <= inputs@.len(),
                m > 0,
                (num as nat, den as nat) == scale_of(inputs@.take(j as int), *granted, w as nat, m as nat),
                0 < den <= u32::MAX,
                num <= u32::MAX,
            decreases inputs@.len() - j,
        {
            let (res, base) = inputs[j];
            let available = granted.amount_of(res);
            proof {
                assert(inputs@.take(j as int + 1).drop_last() =~= inputs@.take(j as int));
                assert(inputs@.take(j as int + 1).last() == (res, base));
                assert((available as u64) * den <= u64::MAX) by (nonlinear_arith)
                    requires
                        available <= u32::MAX,
                        den <= u32::MAX,
                ;
                assert(num * (base as u64) <= u64::MAX) by (nonlinear_arith)
                    requires
                        num <= u32::MAX,
                        base <= u32::MAX,
                ;
            }
            if base > 0 && (available as u64) * den < num * (base as u64) {
                num = available as u64;
                den = base as u64;
            }
            j = j + 1;
        }
        proof {
            assert(inputs@.take(inputs@.len() as int) =~= inputs@);
        }
        (num, den)
    }

    /// Takes every input at scale `s` out of `unused`.
    fn consume_inputs(inputs: &Vec<(ResourceType, u32)>, unused: &mut ResourceMap, s: (u64, u64))
        requires
            0 < s.1 <= u32::MAX,
            s.0 <= u32::MAX,
            after_consuming(inputs@, (s.0 as nat, s.1 as nat), *old(unused)) is Some,
        ensures
            after_consuming(inputs@, (s.0 as nat, s.1 as nat), *old(unused)) == Some(*final(unused)),
    {
        let ghost sc = (s.0 as nat, s.1 as nat);
        let ghost u0 = *unused;
        proof {
            assert(inputs@.take(0) =~= Seq::<(ResourceType, u32)>::empty());
        }
        let mut j: usize = 0;
        while j < inputs.len()
            invariant
                j <= inputs@.len(),
                sc == (s.0 as nat, s.1 as nat),
                0 < s.1 <= u32::MAX,
                s.0 <= u32::MAX,
                after_consuming(inputs@, sc, u0) is Some,
                after_consuming(inputs@.take(j as int), sc, u0) == Some(*unused),
            decreases inputs@.len() - j,
        {
            let (res, base) = inputs[j];
            proof {
                assert(inputs@.take(j as int + 1).drop_last() =~= inputs@.take(j as int));
                assert(inputs@.take(j as int + 1).last() == (res, base));
                lemma_consume_prefix(inputs@, j as int + 1, sc, u0);
                assert((base as u64) * s.0 <= 0xffff_fffe_0000_0001u64) by (nonlinear_arith)
                    requires
                        base <= u32::MAX,
                        s.0 <= u32::MAX,
                ;
            }
            let to_consume: u64 = ((base as u64) * s.0 + s.1 - 1) / s.1;
            assert(to_consume as nat == ceil_scaled(base as nat, sc));
            match unused.get(&res) {
                Some(leftover) => {
                    let leftover = *leftover;
                    let ghost before = *unused;
                    unused.insert(res, ((leftover as u64) - to_consume) as u32);
                    proof {
                        let expected = before.set(res, (leftover - to_consume) as u32);
                        assert forall|q: ResourceType| #[trigger] unused.at(q) == expected.at(q) by {}
                        ResourceMap::lemma_ext(*unused, expected);
                    }
                },
                None => {},
            }
            j = j + 1;
        }
        proof {
            assert(inputs@.take(inputs@.len() as int) =~= inputs@);
        }
    }

    /// Adds every output at scale `s` to `produced`.
    fn generate_outputs(outputs: &Vec<(ResourceType, u32)>, produced: &mut ResourceMap, s: (u64, u64))
        requires
            0 < s.1 <= u32::MAX,
            s.0 <= u32::MAX,
            after_producing(outputs@, (s.0 as nat, s.1 as nat), *old(produced)) is Some,
        ensures
            after_producing(outputs@, (s.0 as nat, s.1 as nat), *old(produced)) == Some(*final(produced)),
    {
        let ghost sc = (s.0 as nat, s.1 as nat);
        let ghost p0 = *produced;
        proof {
            assert(outputs@.take(0) =~= Seq::<(ResourceType, u32)>::empty());
        }
        let mut j: usize = 0;
        while j < outputs.len()
            invariant
                j <= outputs@.len(),
                sc == (s.0 as nat, s.1 as nat),
                0 < s.1 <= u32::MAX,
                s.0 <= u32::MAX,
                after_producing(outputs@, sc, p0) is Some,
                after_producing(outputs@.take(j as int), sc, p0) == Some(*produced),
            decreases outputs@.len() - j,
        {
            let (res, base) = outputs[j];
            proof {
                assert(outputs@.take(j as int + 1).drop_last() =~= outputs@.take(j as int));
                assert(outputs@.take(j as int + 1).last() == (res, base));
                lemma_produce_prefix(outputs@, j as int + 1, sc, p0);
                assert((base as u64) * s.0 <= 0xffff_fffe_0000_0001u64) by (nonlinear_arith)
                    requires
                        base <= u32::MAX,
                        s.0 <= u32::MAX,
                ;
            }
            let amount: u64 = (base as u64) * s.0 / s.1;
            let to_produce: u32 = if amount > 0xffff_ffffu64 {
                u32::MAX
            } else {
                amount as u32
            };
            assert(to_produce as nat == capped(floor_scaled(base as nat, sc)));
            let cur = produced.amount_of(res);
            let ghost before = *produced;
            produced.insert(res, cur + to_produce);
            proof {
                let expected = before.set(res, (cur + to_produce) as u32);
                assert forall|q: ResourceType| #[trigger] produced.at(q) == expected.at(q) by {}
                ResourceMap::lemma_ext(*produced, expected);
            }
            j = j + 1;
        }
        proof {
            assert(outputs@.take(outputs@.len() as int) =~= outputs@);
        }
    }

}

/// The scale is the bottleneck: it is the staffing `w / m` itself or the
/// share `granted / base` of one of the inputs, and (with
/// `law_scale_within_supply`) no larger than any of them, so it is the
/// least of them.
pub proof fn law_scale_is_bottleneck(inputs: Seq<(ResourceType, u32)>, g: ResourceMap, w: nat, m: nat)
    ensures
        scale_of(inputs, g, w, m) == (w, m) || exists|j: int|
            0 <= j < inputs.len() && (#[trigger] inputs[j]).1 > 0 && scale_of(inputs, g, w, m) == (
                g.amount(inputs[j].0),
                inputs[j].1 as nat,
            ),
    decreases inputs.len(),
{
    if inputs.len() > 0 {
        law_scale_is_bottleneck(inputs.drop_last(), g, w, m);
        let prev = scale_of(inputs.drop_last(), g, w, m);
        if scale_of(inputs, g, w, m) != prev {
            assert(inputs[inputs.len() - 1] == inputs.last());
        } else if prev != (w, m) {
            let j = choose|j: int|
                0 <= j < inputs.drop_last().len() && (#[trigger] inputs.drop_last()[j]).1 > 0 && prev == (
                    g.amount(inputs.drop_last()[j].0),
                    inputs.drop_last()[j].1 as nat,
                );
            assert(inputs[j] == inputs.drop_last()[j]);
        }
    }
}

/// Rounding at a scale `n / d`: the floor is the largest whole number whose
/// multiple of `d` stays within `base * n`, and the ceiling the smallest
/// whose multiple of `d` reaches it.
pub proof fn law_scaled_rounding(base: nat, s: (nat, nat))
    requires
        s.1 > 0,
    ensures
        floor_scaled(base, s) * s.1 <= base * s.0 < (floor_scaled(base, s) + 1) * s.1,
        ceil_scaled(base, s) * s.1 >= base * s.0,
        ceil_scaled(base, s) == 0 || (ceil_scaled(base, s) - 1) * s.1 < base * s.0,
{
    let f = floor_scaled(base, s);
    let c = ceil_scaled(base, s);
    let x = base * s.0;
    assert(f * s.1 <= x < (f + 1) * s.1) by (nonlinear_arith)
        requires
            f == x / s.1,
            s.1 > 0,
    ;
    assert(c * s.1 >= x && (c == 0 || (c - 1) * s.1 < x)) by (nonlinear_arith)
        requires
            c == (x + s.1 - 1) / (s.1 as int),
            s.1 > 0,
            x >= 0,
    ;
}

/// The amount of `r` that `inputs` take at scale `s`: the sum, over every
/// input naming `r`, of its base amount times the scale, rounded up.
pub open spec fn inputs_taken(inputs: Seq<(ResourceType, u32)>, s: (nat, nat), r: ResourceType) -> nat
    decreases inputs.len(),
{
    if inputs.len() == 0 {
        0
    } else {
        inputs_taken(inputs.drop_last(), s, r) + if inputs.last().0 == r {
            ceil_scaled(inputs.last().1 as nat, s)
        } else {
            0
        }
    }
}

/// Consumption subtracts: after taking `inputs` from `unused`, a resource
/// with an entry holds what it held less the sum of every input naming it,
/// and a resource without an entry still has none.
pub proof fn law_inputs_subtract(inputs: Seq<(ResourceType, u32)>, s: (nat, nat), unused: ResourceMap)
    requires
        after_consuming(inputs, s, unused) is Some,
    ensures
        forall|r: ResourceType|
            #[trigger] after_consuming(inputs, s, unused)->0.has(r) == unused.has(r),
        forall|r: ResourceType|
            unused.has(r) ==> #[trigger] after_consuming(inputs, s, unused)->0.amount(r) + inputs_taken(
                inputs,
                s,
                r,
            ) == unused.amount(r),
    decreases inputs.len(),
{
    broadcast use ResourceMap::lemma_set;

    if inputs.len() > 0 {
        law_inputs_subtract(inputs.drop_last(), s, unused);
        let u = after_consuming(inputs.drop_last(), s, unused)->0;
        assert forall|r: ResourceType| #[trigger] after_consuming(inputs, s, unused)->0.has(r) == unused.has(r) by {
            assert(u.has(r) == unused.has(r));
        }
        assert forall|r: ResourceType|
            unused.has(r) implies #[trigger] after_consuming(inputs, s, unused)->0.amount(r) + inputs_taken(
            inputs,
            s,
            r,
        ) == unused.amount(r) by {
            assert(u.has(r));
            assert(u.amount(r) + inputs_taken(inputs.drop_last(), s, r) == unused.amount(r));
        }
    }
}

/// The amount of `r` that `outputs` yield at scale `s`: the sum, over
/// every output naming `r`, of its base amount times the scale, rounded
/// down and capped at `u32::MAX`.
pub open spec fn outputs_total(outputs: Seq<(ResourceType, u32)>, s: (nat, nat), r: ResourceType) -> nat
    decreases outputs.len(),
{
    if outputs.len() == 0 {
        0
    } else {
        outputs_total(outputs.drop_last(), s, r) + if outputs.last().0 == r {
            capped(floor_scaled(outputs.last().1 as nat, s))
        } else {
            0
        }
    }
}

/// The amount of `r` that the production behaviours of `bs` yield with
/// `w` of `m` workers on `granted`: each production behaviour yields its
/// outputs at its own scale, and one whose scale is zero yields nothing.
pub open spec fn behaviors_output(bs: Seq<BuildingBehavior>, granted: ResourceMap, w: nat, m: nat, r: ResourceType) -> nat
    decreases bs.len(),
{
    if bs.len() == 0 {
        0
    } else {
        behaviors_output(bs.drop_last(), granted, w, m, r) + match bs.last() {
            BuildingBehavior::Production { inputs, outputs } => {
                let s = scale_of(inputs@, granted, w, m);
                if s.0 == 0 {
                    0
                } else {
                    outputs_total(outputs@, s, r)
                }
            },
            BuildingBehavior::StatModifier { .. } => 0,
        }
    }
}

/// Outputs add up: after producing `outputs` on top of `produced`, each
/// resource holds what it held plus the sum of every output naming it;
/// no output lowers what is already there.
pub proof fn law_outputs_add_up(outputs: Seq<(ResourceType, u32)>, s: (nat, nat), produced: ResourceMap)
    requires
        after_producing(outputs, s, produced) is Some,
    ensures
        forall|r: ResourceType|
            #[trigger] after_producing(outputs, s, produced)->0.amount(r) == produced.amount(r)
                + outputs_total(outputs, s, r),
    decreases outputs.len(),
{
    broadcast use ResourceMap::lemma_set;

    if outputs.len() > 0 {
        law_outputs_add_up(outputs.drop_last(), s, produced);
        let p = after_producing(outputs.drop_last(), s, produced)->0;
        let r0 = outputs.last().0;
        let t = p.amount(r0) + capped(floor_scaled(outputs.last().1 as nat, s));
        assert(after_producing(outputs, s, produced)->0 == p.set(r0, t as u32));
        assert forall|r: ResourceType|
            #[trigger] after_producing(outputs, s, produced)->0.amount(r) == produced.amount(r)
                + outputs_total(outputs, s, r) by {
            assert(after_producing(outputs.drop_last(), s, produced)->0.amount(r) == produced.amount(r)
                + outputs_total(outputs.drop_last(), s, r));
        }
    }
}

/// Production adds up over the behaviours: what a run produces of each
/// resource is the sum, over every production behaviour and every output
/// naming it, of the base amount times that behaviour's scale (rounded
/// down); a behaviour whose scale is zero adds nothing.
pub proof fn law_production_adds_up(bs: Seq<BuildingBehavior>, granted: ResourceMap, w: nat, m: nat)
    requires
        run_behaviors(bs, granted, w, m) is Some,
    ensures
        forall|r: ResourceType|
            #[trigger] (run_behaviors(bs, granted, w, m)->0).0.amount(r) == behaviors_output(bs, granted, w, m, r),
    decreases bs.len(),
{
    broadcast use ResourceMap::lemma_empty;

    if bs.len() == 0 {
        assert forall|r: ResourceType|
            #[trigger] (run_behaviors(bs, granted, w, m)->0).0.amount(r) == behaviors_output(bs, granted, w, m, r) by {
            assert(ResourceMap::empty().at(r) == None::<u32>);
        }
    } else {
        law_production_adds_up(bs.drop_last(), granted, w, m);
        let acc = run_behaviors(bs.drop_last(), granted, w, m)->0;
        match bs.last() {
            BuildingBehavior::Production { inputs, outputs } => {
                let s = scale_of(inputs@, granted, w, m);
                if s.0 != 0 {
                    law_outputs_add_up(outputs@, s, acc.0);
                }
            },
            BuildingBehavior::StatModifier { .. } => {},
        }
        assert forall|r: ResourceType|
            #[trigger] (run_behaviors(bs, granted, w, m)->0).0.amount(r) == behaviors_output(bs, granted, w, m, r) by {
            assert(acc.0.amount(r) == behaviors_output(bs.drop_last(), granted, w, m, r));
        }
    }
}

/// The grant handed to a production run: the given one, or nothing.
pub open spec fn materials_or_empty(granted: Option<ResourceMap>) -> ResourceMap {
    match granted {
        Some(g) => g,
        None => ResourceMap::empty(),
    }
}

proof fn lemma_run_prefix(bs: Seq<BuildingBehavior>, i: int, g: ResourceMap, w: nat, m: nat)
    requires
        0 <= i <= bs.len(),
        run_behaviors(bs, g, w, m) is Some,
    ensures
        run_behaviors(bs.take(i), g, w, m) is Some,
    decreases bs.len(),
{
    if i < bs.len() {
        assert(bs.drop_last().take(i) =~= bs.take(i));
        lemma_run_prefix(bs.drop_last(), i, g, w, m);
    } else {
        assert(bs.take(i) =~= bs);
    }
}

proof fn lemma_consume_prefix(s: Seq<(ResourceType, u32)>, j: int, sc: (nat, nat), u: ResourceMap)
    requires
        0 <= j <= s.len(),
        after_consuming(s, sc, u) is Some,
    ensures
        after_consuming(s.take(j), sc, u) is Some,
    decreases s.len(),
{
    if j < s.len() {
        assert(s.drop_last().take(j) =~= s.take(j));
        lemma_consume_prefix(s.drop_last(), j, sc, u);
    } else {
        assert(s.take(j) =~= s);
    }
}

proof fn lemma_produce_prefix(s: Seq<(ResourceType, u32)>, j: int, sc: (nat, nat), p: ResourceMap)
    requires
        0 <= j <= s.len(),
        after_producing(s, sc, p) is Some,
    ensures
        after_producing(s.take(j), sc, p) is Some,
    decreases s.len(),
{
    if j < s.len() {
        assert(s.drop_last().take(j) =~= s.take(j));
        lemma_produce_prefix(s.drop_last(), j, sc, p);
    } else {
        assert(s.take(j) =~= s);
    }
}

/// Consuming never creates an entry and never raises one.
proof fn lemma_consume_shrinks(s: Seq<(ResourceType, u32)>, sc: (nat, nat), u: ResourceMap, r: ResourceType)
    requires
        after_consuming(s, sc, u) is Some,
    ensures
        u.at(r) is None ==> after_consuming(s, sc, u).unwrap().at(r) is None,
        after_consuming(s, sc, u).unwrap().amount(r) <= u.amount(r),
    decreases s.len(),
{
    if s.len() > 0 {
        lemma_consume_shrinks(s.drop_last(), sc, u, r);
    }
}

/// A run of behaviours never creates an unused entry.
proof fn lemma_run_keeps_absent(bs: Seq<BuildingBehavior>, g: ResourceMap, w: nat, m: nat, r: ResourceType)
    requires
        run_behaviors(bs, g, w, m) is Some,
        g.at(r) is None,
    ensures
        run_behaviors(bs, g, w, m).unwrap().1.at(r) is None,
    decreases bs.len(),
{
    if bs.len() > 0 {
        lemma_run_keeps_absent(bs.drop_last(), g, w, m, r);
        let acc = run_behaviors(bs.drop_last(), g, w, m).unwrap();
        match bs.last() {
            BuildingBehavior::Production { inputs, outputs } => {
                let sc = scale_of(inputs@, g, w, m);
                if sc.0 != 0 {
                    lemma_consume_shrinks(inputs@, sc, acc.1, r);
                }
            },
            BuildingBehavior::StatModifier { .. } => {},
        }
    }
}

/// A run of behaviours leaves unused at most what was granted.
proof fn lemma_run_unused_within(bs: Seq<BuildingBehavior>, g: ResourceMap, w: nat, m: nat, r: ResourceType)
    requires
        run_behaviors(bs, g, w, m) is Some,
    ensures
        run_behaviors(bs, g, w, m).unwrap().1.amount(r) <= g.amount(r),
    decreases bs.len(),
{
    if bs.len() > 0 {
        lemma_run_unused_within(bs.drop_last(), g, w, m, r);
        let acc = run_behaviors(bs.drop_last(), g, w, m).unwrap();
        match bs.last() {
            BuildingBehavior::Production { inputs, outputs } => {
                let sc = scale_of(inputs@, g, w, m);
                if sc.0 != 0 {
                    lemma_consume_shrinks(inputs@, sc, acc.1, r);
                }
            },
            BuildingBehavior::StatModifier { .. } => {},
        }
    }
}

/// The scale of a production run never exceeds the staffing `w / m`, nor,
/// for any input with a positive base, the share `granted / base` of it.
pub proof fn law_scale_within_supply(inputs: Seq<(ResourceType, u32)>, g: ResourceMap, w: nat, m: nat)
    requires
        m > 0,
    ensures
        scale_of(inputs, g, w, m).1 > 0,
        scale_of(inputs, g, w, m).0 * m <= w * scale_of(inputs, g, w, m).1,
        forall|j: int|
            0 <= j < inputs.len() ==> (#[trigger] inputs[j]).1 * scale_of(inputs, g, w, m).0
                <= g.amount(inputs[j].0) * scale_of(inputs, g, w, m).1,
    decreases inputs.len(),
{
    if inputs.len() > 0 {
        let prev = scale_of(inputs.drop_last(), g, w, m);
        law_scale_within_supply(inputs.drop_last(), g, w, m);
        let r = inputs.last().0;
        let base = inputs.last().1 as nat;
        let a = g.amount(r);
        let s = scale_of(inputs, g, w, m);
        if base > 0 && a * prev.1 < prev.0 * base {
            assert(a * m <= w * base) by (nonlinear_arith)
                requires
                    a * prev.1 < prev.0 * base,
                    prev.0 * m <= w * prev.1,
                    prev.1 > 0,
                    m > 0,
            ;
            assert forall|j: int| 0 <= j < inputs.len() implies (#[trigger] inputs[j]).1 * s.0
                <= g.amount(inputs[j].0) * s.1 by {
                if j < inputs.len() - 1 {
                    assert(inputs[j] == inputs.drop_last()[j]);
                    let bj = inputs[j].1 as nat;
                    let gj = g.amount(inputs[j].0);
                    assert(bj * a <= gj * base) by (nonlinear_arith)
                        requires
                            a * prev.1 < prev.0 * base,
                            bj * prev.0 <= gj * prev.1,
                            prev.1 > 0,
                    ;
                } else {
                    assert(inputs[j] == inputs.last());
                    assert(base * a == a * base) by (nonlinear_arith);
                }
            }
        } else {
            assert forall|j: int| 0 <= j < inputs.len() implies (#[trigger] inputs[j]).1 * s.0
                <= g.amount(inputs[j].0) * s.1 by {
                if j < inputs.len() - 1 {
                    assert(inputs[j] == inputs.drop_last()[j]);
                } else {
                    assert(inputs[j] == inputs.last());
                    if base == 0 {
                        assert(base * prev.0 == 0) by (nonlinear_arith)
                            requires
                                base == 0,
                        ;
                    } else {
                        assert(base * prev.0 == prev.0 * base) by (nonlinear_arith);
                        assert(a * prev.1 == g.amount(inputs[j].0) * prev.1);
                    }
                }
            }
        }
    }
}

/// A share of `base * n / d` that is within `a` rounds up to at most `a`.
proof fn lemma_ceil_within(base: nat, n: nat, d: nat, a: nat)
    requires
        d > 0,
        base * n <= a * d,
    ensures
        ceil_scaled(base, (n, d)) <= a,
{
    assert(((base * n + d - 1) / (d as int)) <= a) by (nonlinear_arith)
        requires
            d > 0,
            base * n <= a * d,
    ;
}

/// Inputs whose shares each fit in the grant, naming distinct resources,
/// are all taken without running short; resources they do not name keep
/// their entries.
proof fn lemma_consume_fits(inputs: Seq<(ResourceType, u32)>, sc: (nat, nat), g: ResourceMap)
    requires
        sc.1 > 0,
        forall|j: int|
            0 <= j < inputs.len() ==> (#[trigger] inputs[j]).1 * sc.0 <= g.amount(inputs[j].0)
                * sc.1,
        forall|j: int, k: int|
            0 <= j < k < inputs.len() ==> (#[trigger] inputs[j]).0 != (#[trigger] inputs[k]).0,
    ensures
        after_consuming(inputs, sc, g) is Some,
        forall|r: ResourceType|
            !inputs_mention(inputs, r) ==> #[trigger] after_consuming(inputs, sc, g).unwrap().at(r)
                == g.at(r),
    decreases inputs.len(),
{
    if inputs.len() > 0 {
        let init = inputs.drop_last();
        assert forall|j: int| 0 <= j < init.len() implies (#[trigger] init[j]).1 * sc.0 <= g.amount(
            init[j].0,
        ) * sc.1 by {
            assert(init[j] == inputs[j]);
        }
        assert forall|j: int, k: int| 0 <= j < k < init.len() implies (#[trigger] init[j]).0 != (
        #[trigger] init[k]).0 by {
            assert(init[j] == inputs[j]);
            assert(init[k] == inputs[k]);
        }
        lemma_consume_fits(init, sc, g);
        let r = inputs.last().0;
        assert(!inputs_mention(init, r)) by {
            if inputs_mention(init, r) {
                let k = choose|k: int| 0 <= k < init.len() && #[trigger] init[k].0 == r;
                assert(inputs[k] == init[k]);
                assert(inputs[inputs.len() - 1] == inputs.last());
            }
        }
        assert(inputs[inputs.len() - 1] == inputs.last());
        lemma_ceil_within(inputs.last().1 as nat, sc.0, sc.1, g.amount(r));
        assert forall|q: ResourceType| !inputs_mention(inputs, q) implies #[trigger] after_consuming(
            inputs,
            sc,
            g,
        ).unwrap().at(q) == g.at(q) by {
            assert(!inputs_mention(init, q)) by {
                if inputs_mention(init, q) {
                    let k = choose|k: int| 0 <= k < init.len() && #[trigger] init[k].0 == q;
                    assert(inputs[k] == init[k]);
                }
            }
            assert(q != r);
        }
    }
}

/// A production run whose inputs name distinct resources never takes more
/// of an input than was granted of it: the bottleneck keeps every share
/// within its grant.
pub proof fn law_run_within_grant(inputs: Seq<(ResourceType, u32)>, g: ResourceMap, w: nat, m: nat)
    requires
        m > 0,
        forall|j: int, k: int|
            0 <= j < k < inputs.len() ==> (#[trigger] inputs[j]).0 != (#[trigger] inputs[k]).0,
    ensures
        after_consuming(inputs, scale_of(inputs, g, w, m), g) is Some,
{
    law_scale_within_supply(inputs, g, w, m);
    lemma_consume_fits(inputs, scale_of(inputs, g, w, m), g);
}

/// Fully staffed and fully supplied, a production run works at full
/// scale: every output comes out at its base amount.
pub proof fn law_full_supply_full_output(inputs: Seq<(ResourceType, u32)>, g: ResourceMap, m: nat, base: nat)
    requires
        m > 0,
        forall|j: int| 0 <= j < inputs.len() ==> (#[trigger] inputs[j]).1 <= g.amount(inputs[j].0),
    ensures
        scale_of(inputs, g, m, m) == (m, m),
        floor_scaled(base, scale_of(inputs, g, m, m)) == base,
    decreases inputs.len(),
{
    if inputs.len() > 0 {
        assert forall|j: int| 0 <= j < inputs.drop_last().len() implies (
        #[trigger] inputs.drop_last()[j]).1 <= g.amount(inputs.drop_last()[j].0) by {
            assert(inputs.drop_last()[j] == inputs[j]);
        }
        law_full_supply_full_output(inputs.drop_last(), g, m, base);
        assert(inputs[inputs.len() - 1] == inputs.last());
        let a = g.amount(inputs.last().0);
        let b = inputs.last().1 as nat;
        assert(!(a * m < m * b)) by (nonlinear_arith)
            requires
                b <= a,
        ;
    }
    assert(base * m / m == base) by (nonlinear_arith)
        requires
            m > 0,
    ;
}

proof fn lemma_inputs_prefix_le(s: Seq<(ResourceType, u32)>, j: int, r: ResourceType, eff: nat)
    requires
        0 <= j <= s.len(),
    ensures
        inputs_demand(s.take(j), r, eff) <= inputs_demand(s, r, eff),
    decreases s.len(),
{
    if j < s.len() {
        assert(s.drop_last().take(j) =~= s.take(j));
        lemma_inputs_prefix_le(s.drop_last(), j, r, eff);
    } else {
        assert(s.take(j) =~= s);
    }
}

/// The demand of the first `i + 1` behaviours is within the whole demand.
proof fn lemma_behaviors_prefix_le(bs: Seq<BuildingBehavior>, i: int, r: ResourceType, eff: nat)
    requires
        0 <= i < bs.len(),
    ensures
        behaviors_demand(bs.take(i), r, eff) + inputs_demand(behavior_inputs(bs[i]), r, eff)
            <= behaviors_demand(bs, r, eff),
    decreases bs.len(),
{
    assert(bs.take(i + 1).drop_last() =~= bs.take(i));
    assert(bs.take(i + 1).last() == bs[i]);
    if i + 1 < bs.len() {
        assert(bs.drop_last().take(i + 1) =~= bs.take(i + 1));
        assert(bs.drop_last().take(i) =~= bs.take(i));
        lemma_behaviors_prefix_le(bs.drop_last(), i, r, eff);
    } else {
        assert(bs.take(i + 1) =~= bs);
    }
}

proof fn lemma_unmentioned_inputs(s: Seq<(ResourceType, u32)>, r: ResourceType, eff: nat)
    requires
        !inputs_mention(s, r),
    ensures
        inputs_demand(s, r, eff) == 0,
    decreases s.len(),
{
    if s.len() > 0 {
        assert(s.last().0 != r) by {
            assert(s[s.len() - 1].0 == s.last().0);
        }
        assert forall|k: int| 0 <= k < s.drop_last().len() implies #[trigger] s.drop_last()[k].0 != r by {
            assert(s[k].0 == s.drop_last()[k].0);
        }
        lemma_unmentioned_inputs(s.drop_last(), r, eff);
    }
}

proof fn lemma_unmentioned_behaviors(bs: Seq<BuildingBehavior>, r: ResourceType, eff: nat)
    requires
        !behaviors_mention(bs, r),
    ensures
        behaviors_demand(bs, r, eff) == 0,
    decreases bs.len(),
{
    if bs.len() > 0 {
        assert(!inputs_mention(behavior_inputs(bs[bs.len() - 1]), r));
        lemma_unmentioned_inputs(behavior_inputs(bs.last()), r, eff);
        assert forall|k: int| 0 <= k < bs.drop_last().len() implies !inputs_mention(
            behavior_inputs(#[trigger] bs.drop_last()[k]),
            r,
        ) by {
            assert(bs[k] == bs.drop_last()[k]);
        }
        lemma_unmentioned_behaviors(bs.drop_last(), r, eff);
    }
}

proof fn lemma_mention_push(s: Seq<(ResourceType, u32)>, j: int, r: ResourceType)
    requires
        0 <= j < s.len(),
    ensures
        inputs_mention(s.take(j + 1), r) == (inputs_mention(s.take(j), r) || s[j].0 == r),
{
    if s[j].0 == r {
        assert(s.take(j + 1)[j].0 == r);
    }
    if inputs_mention(s.take(j + 1), r) && s[j].0 != r {
        let k = choose|k: int| 0 <= k < s.take(j + 1).len() && #[trigger] s.take(j + 1)[k].0 == r;
        assert(s.take(j)[k].0 == r);
    }
    if inputs_mention(s.take(j), r) {
        let k = choose|k: int| 0 <= k < s.take(j).len() && #[trigger] s.take(j)[k].0 == r;
        assert(s.take(j + 1)[k].0 == r);
    }
}

proof fn lemma_behaviors_mention_push(bs: Seq<BuildingBehavior>, i: int, r: ResourceType)
    requires
        0 <= i < bs.len(),
    ensures
        behaviors_mention(bs.take(i + 1), r) == (behaviors_mention(bs.take(i), r) || inputs_mention(
            behavior_inputs(bs[i]),
            r,
        )),
{
    if inputs_mention(behavior_inputs(bs[i]), r) {
        assert(bs.take(i + 1)[i] == bs[i]);
    }
    if behaviors_mention(bs.take(i + 1), r) && !inputs_mention(behavior_inputs(bs[i]), r) {
        let k = choose|k: int|
            0 <= k < bs.take(i + 1).len() && inputs_mention(
                behavior_inputs(#[trigger] bs.take(i + 1)[k]),
                r,
            );
        assert(bs.take(i)[k] == bs.take(i + 1)[k]);
    }
    if behaviors_mention(bs.take(i), r) {
        let k = choose|k: int|
            0 <= k < bs.take(i).len() && inputs_mention(behavior_inputs(#[trigger] bs.take(i)[k]), r);
        assert(bs.take(i + 1)[k] == bs.take(i)[k]);
    }
}

} // verus!
