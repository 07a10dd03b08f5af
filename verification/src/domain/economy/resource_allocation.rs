use std::collections::HashMap;
use vstd::prelude::*;

use crate::domain::economy::resource::{
    all_resources, resource_order, ResourceInventory, ResourceMap, ResourceType,
};

verus! {

broadcast use vstd::std_specs::hash::group_hash_axioms;

/// What one consumer (a building, a project, the population under id 0)
/// asks of the settlement's store this turn.
#[derive(Debug, Clone)]
pub struct DemandRequest {
    pub entity_id: u32,
    pub demand: ResourceMap,
}

/// Per consumer id, the goods it was granted.
pub type AllocationResult = HashMap<u32, ResourceMap>;

pub struct AllocationEngine;

/// Position of a resource in `resource_order()`.
pub open spec fn resource_index(r: ResourceType) -> int {
    match r {
        ResourceType::Wood => 0,
        ResourceType::Stone => 1,
        ResourceType::Grain => 2,
        ResourceType::Labour => 3,
    }
}

/// Sum of what the first `n` requests ask of `r`.
pub open spec fn demand_upto(reqs: Seq<DemandRequest>, n: int, r: ResourceType) -> nat
    decreases n,
{
    if n <= 0 {
        0
    } else {
        demand_upto(reqs, n - 1, r) + reqs[n - 1].demand.amount(r)
    }
}

/// Sum of what all requests ask of `r`.
pub open spec fn total_demand(reqs: Seq<DemandRequest>, r: ResourceType) -> nat {
    demand_upto(reqs, reqs.len() as int, r)
}

/// Some request holds an entry (maybe zero) for `r`.
pub open spec fn mentioned(reqs: Seq<DemandRequest>, r: ResourceType) -> bool {
    exists|j: int| 0 <= j < reqs.len() && #[trigger] reqs[j].demand.has(r)
}

/// The part of `needed` granted when `available` units face a total demand
/// of `total`: everything when supply covers demand, else the same fraction
/// `available / total` for everyone, rounded down.
pub open spec fn fair_share(needed: nat, available: nat, total: nat) -> nat {
    if total == 0 {
        0
    } else if available >= total {
        needed
    } else {
        needed * available / total
    }
}

/// What request `k` is granted of `r`, given the store `stock`.
pub open spec fn grant(reqs: Seq<DemandRequest>, k: int, r: ResourceType, stock: ResourceMap) -> nat {
    fair_share(reqs[k].demand.amount(r), stock.amount(r), total_demand(reqs, r))
}

/// What consumer `e` is granted of `r` by the first `n` requests.
pub open spec fn granted_upto(
    reqs: Seq<DemandRequest>,
    n: int,
    e: u32,
    r: ResourceType,
    stock: ResourceMap,
) -> nat
    decreases n,
{
    if n <= 0 {
        0
    } else {
        granted_upto(reqs, n - 1, e, r, stock) + if reqs[n - 1].entity_id == e {
            grant(reqs, n - 1, r, stock)
        } else {
            0
        }
    }
}

/// What all consumers are granted of `r` by the first `n` requests.
pub open spec fn handed_out_upto(
    reqs: Seq<DemandRequest>,
    n: int,
    r: ResourceType,
    stock: ResourceMap,
) -> nat
    decreases n,
{
    if n <= 0 {
        0
    } else {
        handed_out_upto(reqs, n - 1, r, stock) + grant(reqs, n - 1, r, stock)
    }
}

/// What consumer `e` is granted of `r` over all requests.
pub open spec fn allocation_of(
    reqs: Seq<DemandRequest>,
    e: u32,
    r: ResourceType,
    stock: ResourceMap,
) -> nat {
    granted_upto(reqs, reqs.len() as int, e, r, stock)
}

/// What all consumers are granted of `r`.
pub open spec fn handed_out(reqs: Seq<DemandRequest>, r: ResourceType, stock: ResourceMap) -> nat {
    handed_out_upto(reqs, reqs.len() as int, r, stock)
}

/// Sum of what consumer `e`'s requests ask of `r`.
pub open spec fn requested_by(reqs: Seq<DemandRequest>, n: int, e: u32, r: ResourceType) -> nat
    decreases n,
{
    if n <= 0 {
        0
    } else {
        requested_by(reqs, n - 1, e, r) + if reqs[n - 1].entity_id == e {
            reqs[n - 1].demand.amount(r)
        } else {
            0
        }
    }
}

/// An entry holding `n`, or no entry when `n` is zero.
pub open spec fn positive_entry(n: nat) -> Option<u32> {
    if n > 0 {
        Some(n as u32)
    } else {
        None
    }
}

/// Consumer `e` got something of some resource.
pub open spec fn got_anything(reqs: Seq<DemandRequest>, e: u32, stock: ResourceMap) -> bool {
    allocation_of(reqs, e, ResourceType::Wood, stock) > 0 || allocation_of(
        reqs,
        e,
        ResourceType::Stone,
        stock,
    ) > 0 || allocation_of(reqs, e, ResourceType::Grain, stock) > 0 || allocation_of(
        reqs,
        e,
        ResourceType::Labour,
        stock,
    ) > 0
}

/// The grants the engine hands out for `reqs` against `stock`.
pub open spec fn allocation_matches(
    result: Map<u32, ResourceMap>,
    reqs: Seq<DemandRequest>,
    stock: ResourceMap,
) -> bool {
    &&& forall|e: u32| #[trigger] result.contains_key(e) <==> got_anything(reqs, e, stock)
    &&& forall|e: u32, r: ResourceType|
        result.contains_key(e) ==> #[trigger] result[e].at(r) == positive_entry(
            allocation_of(reqs, e, r, stock),
        )
}

/// Every resource's total demand fits in a `u32`.
pub open spec fn demand_fits(reqs: Seq<DemandRequest>) -> bool {
    forall|r: ResourceType| #[trigger] total_demand(reqs, r) <= u32::MAX
}

// ---------------------------------------------------------------------------
// The amounts seen part-way through a request: resources before position
// `k` of `resource_order()` already carry request `i`'s grant.

spec fn stage_granted(
    reqs: Seq<DemandRequest>,
    i: int,
    k: int,
    e: u32,
    r: ResourceType,
    stock: ResourceMap,
) -> nat {
    granted_upto(reqs, i, e, r, stock) + if resource_index(r) < k && reqs[i].entity_id == e {
        grant(reqs, i, r, stock)
    } else {
        0
    }
}

spec fn stage_handed(reqs: Seq<DemandRequest>, i: int, k: int, r: ResourceType, stock: ResourceMap) -> nat {
    handed_out_upto(reqs, i, r, stock) + if resource_index(r) < k {
        grant(reqs, i, r, stock)
    } else {
        0
    }
}

spec fn stage_any(reqs: Seq<DemandRequest>, i: int, k: int, e: u32, stock: ResourceMap) -> bool {
    stage_granted(reqs, i, k, e, ResourceType::Wood, stock) > 0 || stage_granted(
        reqs,
        i,
        k,
        e,
        ResourceType::Stone,
        stock,
    ) > 0 || stage_granted(reqs, i, k, e, ResourceType::Grain, stock) > 0 || stage_granted(
        reqs,
        i,
        k,
        e,
        ResourceType::Labour,
        stock,
    ) > 0
}

spec fn result_at_stage(
    result: Map<u32, ResourceMap>,
    reqs: Seq<DemandRequest>,
    i: int,
    k: int,
    stock: ResourceMap,
) -> bool {
    &&& forall|e: u32| #[trigger] result.contains_key(e) <==> stage_any(reqs, i, k, e, stock)
    &&& forall|e: u32, r: ResourceType|
        result.contains_key(e) ==> #[trigger] result[e].at(r) == positive_entry(
            stage_granted(reqs, i, k, e, r, stock),
        )
}

spec fn store_at_stage(
    store: ResourceMap,
    reqs: Seq<DemandRequest>,
    i: int,
    k: int,
    stock: ResourceMap,
) -> bool {
    &&& store.at(ResourceType::Labour) == stock.at(ResourceType::Labour)
    &&& forall|r: ResourceType|
        r != ResourceType::Labour ==> #[trigger] store.at(r) == match stock.at(r) {
            Some(v) => Some((v - stage_handed(reqs, i, k, r, stock)) as u32),
            None => None::<u32>,
        }
}

// ---------------------------------------------------------------------------
// Arithmetic facts about shares.

proof fn lemma_share_le_needed(needed: nat, available: nat, total: nat)
    ensures
        fair_share(needed, available, total) <= needed,
{
    if total != 0 && available < total {
        assert(needed * available <= needed * total) by (nonlinear_arith)
            requires
                available < total,
        ;
        assert(needed * available / total <= needed) by (nonlinear_arith)
            requires
                needed * available <= needed * total,
                total > 0,
        ;
    }
}

proof fn lemma_floor_sum(x: nat, y: nat, t: nat)
    requires
        t > 0,
    ensures
        x / t + y / t <= (x + y) / t,
{
    assert(x / t + y / t <= (x + y) / t) by (nonlinear_arith)
        requires
            t > 0,
    {
        let q1 = x / t;
        let q2 = y / t;
        assert(q1 * t <= x) by {
            vstd::arithmetic::div_mod::lemma_fundamental_div_mod(x as int, t as int);
        }
        assert(q2 * t <= y) by {
            vstd::arithmetic::div_mod::lemma_fundamental_div_mod(y as int, t as int);
        }
        assert((q1 + q2) * t <= x + y);
        vstd::arithmetic::div_mod::lemma_div_is_ordered(
            ((q1 + q2) * t) as int,
            (x + y) as int,
            t as int,
        );
        vstd::arithmetic::div_mod::lemma_div_multiples_vanish((q1 + q2) as int, t as int);
    }
}

proof fn lemma_demand_upto_mono(reqs: Seq<DemandRequest>, n: int, m: int, r: ResourceType)
    requires
        0 <= n <= m,
    ensures
        demand_upto(reqs, n, r) <= demand_upto(reqs, m, r),
    decreases m - n,
{
    if n < m {
        lemma_demand_upto_mono(reqs, n, m - 1, r);
    }
}

/// What the first `n` requests are handed never exceeds their fair part
/// of the stock.
proof fn lemma_handed_bound(reqs: Seq<DemandRequest>, n: int, r: ResourceType, stock: ResourceMap)
    requires
        0 <= n <= reqs.len(),
    ensures
        total_demand(reqs, r) > 0 && stock.amount(r) < total_demand(reqs, r) ==> handed_out_upto(
            reqs,
            n,
            r,
            stock,
        ) <= demand_upto(reqs, n, r) * stock.amount(r) / total_demand(reqs, r),
        handed_out_upto(reqs, n, r, stock) <= demand_upto(reqs, n, r),
    decreases n,
{
    let t = total_demand(reqs, r);
    let a = stock.amount(r);
    if n > 0 {
        lemma_handed_bound(reqs, n - 1, r, stock);
        let d = reqs[n - 1].demand.amount(r);
        lemma_share_le_needed(d, a, t);
        if t > 0 && a < t {
            lemma_floor_sum(demand_upto(reqs, n - 1, r) * a, d * a, t);
            assert(demand_upto(reqs, n - 1, r) * a + d * a == (demand_upto(reqs, n - 1, r) + d)
                * a) by (nonlinear_arith);
        }
    }
}

/// A share is proportional: when `available` units face a total demand of
/// `total`, a request for `needed` gets the largest whole number `g` with
/// `g * total <= needed * min(available, total)`; so a request covered in
/// full gets all it asked for, and a larger request never gets less.
pub proof fn law_share_is_proportional(needed: nat, bigger: nat, available: nat, total: nat)
    requires
        total > 0,
        needed <= bigger,
    ensures
        fair_share(needed, available, total) * total <= needed * (if available < total {
            available
        } else {
            total
        }),
        needed * (if available < total {
            available
        } else {
            total
        }) < (fair_share(needed, available, total) + 1) * total,
        fair_share(needed, available, total) <= fair_share(bigger, available, total),
{
    let a = if available < total {
        available
    } else {
        total
    };
    let g = fair_share(needed, available, total);
    if available >= total {
        assert(g * total == needed * total);
        assert(needed * total < (needed + 1) * total) by (nonlinear_arith)
            requires
                total > 0,
        ;
    } else {
        assert(g * total <= needed * a && needed * a < (g + 1) * total) by (nonlinear_arith)
            requires
                g == needed * a / total,
                total > 0,
        ;
        assert(needed * a / total <= bigger * a / total) by (nonlinear_arith)
            requires
                needed <= bigger,
                total > 0,
        ;
    }
}

/// The requests are handed no more of `r` than the stock holds.
pub proof fn law_handed_out_within_stock(reqs: Seq<DemandRequest>, r: ResourceType, stock: ResourceMap)
    ensures
        handed_out(reqs, r, stock) <= stock.amount(r),
{
    let t = total_demand(reqs, r);
    let a = stock.amount(r);
    lemma_handed_bound(reqs, reqs.len() as int, r, stock);
    if t > 0 && a < t {
        assert(t * a / t == a) by {
            vstd::arithmetic::div_mod::lemma_div_multiples_vanish(a as int, t as int);
            assert(t * a == a * t) by (nonlinear_arith);
        }
    } else if t == 0 {
        lemma_handed_zero(reqs, reqs.len() as int, r, stock);
    }
}

proof fn lemma_handed_zero(reqs: Seq<DemandRequest>, n: int, r: ResourceType, stock: ResourceMap)
    requires
        total_demand(reqs, r) == 0,
    ensures
        handed_out_upto(reqs, n, r, stock) == 0,
    decreases n,
{
    if n > 0 {
        lemma_handed_zero(reqs, n - 1, r, stock);
    }
}

proof fn lemma_granted_le_handed(
    reqs: Seq<DemandRequest>,
    n: int,
    e: u32,
    r: ResourceType,
    stock: ResourceMap,
)
    ensures
        granted_upto(reqs, n, e, r, stock) <= handed_out_upto(reqs, n, r, stock),
    decreases n,
{
    if n > 0 {
        lemma_granted_le_handed(reqs, n - 1, e, r, stock);
    }
}

proof fn lemma_granted_le_requested(
    reqs: Seq<DemandRequest>,
    n: int,
    e: u32,
    r: ResourceType,
    stock: ResourceMap,
)
    ensures
        granted_upto(reqs, n, e, r, stock) <= requested_by(reqs, n, e, r),
    decreases n,
{
    if n > 0 {
        lemma_granted_le_requested(reqs, n - 1, e, r, stock);
        lemma_share_le_needed(
            reqs[n - 1].demand.amount(r),
            stock.amount(r),
            total_demand(reqs, r),
        );
    }
}

/// No consumer is granted more than it asked for.
pub proof fn law_grant_within_request(
    reqs: Seq<DemandRequest>,
    e: u32,
    r: ResourceType,
    stock: ResourceMap,
)
    ensures
        allocation_of(reqs, e, r, stock) <= requested_by(reqs, reqs.len() as int, e, r),
{
    lemma_granted_le_requested(reqs, reqs.len() as int, e, r, stock);
}

proof fn lemma_full_supply(
    reqs: Seq<DemandRequest>,
    n: int,
    e: u32,
    r: ResourceType,
    stock: ResourceMap,
)
    requires
        stock.amount(r) >= total_demand(reqs, r),
        total_demand(reqs, r) > 0,
    ensures
        granted_upto(reqs, n, e, r, stock) == requested_by(reqs, n, e, r),
    decreases n,
{
    if n > 0 {
        lemma_full_supply(reqs, n - 1, e, r, stock);
    }
}

/// When the stock covers the total demand for `r`, every consumer gets
/// exactly what it asked for.
pub proof fn law_full_supply_grants_everything(
    reqs: Seq<DemandRequest>,
    e: u32,
    r: ResourceType,
    stock: ResourceMap,
)
    requires
        stock.amount(r) >= total_demand(reqs, r),
    ensures
        allocation_of(reqs, e, r, stock) == requested_by(reqs, reqs.len() as int, e, r),
{
    if total_demand(reqs, r) > 0 {
        lemma_full_supply(reqs, reqs.len() as int, e, r, stock);
    } else {
        lemma_requested_zero(reqs, reqs.len() as int, e, r);
        lemma_granted_le_requested(reqs, reqs.len() as int, e, r, stock);
    }
}

proof fn lemma_requested_le_demand(reqs: Seq<DemandRequest>, n: int, e: u32, r: ResourceType)
    ensures
        requested_by(reqs, n, e, r) <= demand_upto(reqs, n, r),
    decreases n,
{
    if n > 0 {
        lemma_requested_le_demand(reqs, n - 1, e, r);
    }
}

proof fn lemma_requested_zero(reqs: Seq<DemandRequest>, n: int, e: u32, r: ResourceType)
    requires
        demand_upto(reqs, n, r) == 0,
    ensures
        requested_by(reqs, n, e, r) == 0,
{
    lemma_requested_le_demand(reqs, n, e, r);
}

// ---------------------------------------------------------------------------

impl AllocationEngine {
    /// Hands out the store's goods to the requests. Each resource is shared
    /// in proportion to what was asked: when the stock covers the total
    /// demand everyone gets all they asked for, otherwise everyone gets the
    /// same fraction `stock / total demand` of their request, rounded down.
    /// Granted goods leave the store; labour is granted but stays.
    pub fn execute(inventory: &mut ResourceInventory, requests: Vec<DemandRequest>) -> (result:
        AllocationResult)
        requires
            demand_fits(requests@),
        ensures
            allocation_matches(result@, requests@, old(inventory).resources),
            final(inventory).max_capacity == old(inventory).max_capacity,
            final(inventory).resources.at(ResourceType::Labour) == old(inventory).resources.at(
                ResourceType::Labour,
            ),
            forall|r: ResourceType|
                r != ResourceType::Labour ==> #[trigger] final(inventory).resources.at(r)
                    == match old(inventory).resources.at(r) {
                    Some(v) => Some((v - handed_out(requests@, r, old(inventory).resources)) as u32),
                    None => None::<u32>,
                },
            old(inventory).wf() ==> final(inventory).wf(),
    {
        let total_demand = Self::calculate_global_demand(&requests);
        let global_ratios = Self::calculate_fulfillment_ratios(inventory, &total_demand);
        Self::distribute_resources(inventory, requests, &global_ratios, &total_demand)
    }

    /// Per resource, the sum of what all requests ask. A resource has an
    /// entry when some request mentions it.
    pub fn calculate_global_demand(requests: &Vec<DemandRequest>) -> (totals: ResourceMap)
        requires
            demand_fits(requests@),
        ensures
            forall|r: ResourceType| #[trigger]
                totals.amount(r) == total_demand(requests@, r),
            forall|r: ResourceType| #[trigger] totals.has(r) == mentioned(requests@, r),
    {
        let mut totals = ResourceMap::new();
        let all = all_resources();
        let mut i: usize = 0;
        while i < requests.len()
            invariant
                i <= requests.len(),
                demand_fits(requests@),
                all@ == resource_order(),
                forall|r: ResourceType| #[trigger]
                    totals.amount(r) == demand_upto(requests@, i as int, r),
                forall|r: ResourceType| #[trigger]
                    totals.has(r) == (exists|j: int|
                        0 <= j < i && #[trigger] requests@[j].demand.has(r)),
            decreases requests.len() - i,
        {
            let req = &requests[i];
            let mut k: usize = 0;
            while k < 4
                invariant
                    i < requests.len(),
                    k <= 4,
                    req == requests@[i as int],
                    demand_fits(requests@),
                    all@ == resource_order(),
                    forall|r: ResourceType| #[trigger]
                        totals.amount(r) == demand_upto(requests@, i as int, r) + if resource_index(
                            r,
                        ) < k {
                            req.demand.amount(r)
                        } else {
                            0
                        },
                    forall|r: ResourceType| #[trigger]
                        totals.has(r) == ((exists|j: int|
                            0 <= j < i && #[trigger] requests@[j].demand.has(r)) || (resource_index(
                            r,
                        ) < k && req.demand.has(r))),
                decreases 4 - k,
            {
                let r = all[k];
                assert(resource_index(r) == k);
                let ghost before = totals;
                assert(forall|q: ResourceType| #[trigger]
                    before.amount(q) == demand_upto(requests@, i as int, q) + if resource_index(q)
                        < k {
                        req.demand.amount(q)
                    } else {
                        0
                    });
                assert(forall|q: ResourceType| #[trigger]
                    before.has(q) == ((exists|j: int|
                        0 <= j < i && #[trigger] requests@[j].demand.has(q)) || (resource_index(q)
                        < k && req.demand.has(q))));
                assert(before.amount(r) == demand_upto(requests@, i as int, r));
                assert(before.has(r) == (exists|j: int|
                    0 <= j < i && #[trigger] requests@[j].demand.has(r)));
                if let Some(amount) = req.demand.get(&r) {
                    proof {
                        lemma_demand_upto_mono(
                            requests@,
                            i as int + 1,
                            requests@.len() as int,
                            r,
                        );
                        assert(total_demand(requests@, r) <= u32::MAX);
                    }
                    let current = totals.amount_of(r);
                    totals.insert(r, current + *amount);
                }
                proof {
                    assert forall|q: ResourceType| #[trigger]
                        totals.amount(q) == demand_upto(requests@, i as int, q) + if resource_index(
                            q,
                        ) < k + 1 {
                            req.demand.amount(q)
                        } else {
                            0
                        } by {
                        if q != r {
                            assert(totals.at(q) == before.at(q));
                            assert(totals.amount(q) == before.amount(q));
                            assert(resource_index(q) != k) by {
                                lemma_index_distinct(q, r);
                            }
                        } else {
                            assert(totals.amount(r) == before.amount(r) + req.demand.amount(r));
                            assert(resource_index(r) < k + 1);
                        }
                    }
                    assert forall|q: ResourceType| #[trigger]
                        totals.has(q) == ((exists|j: int|
                            0 <= j < i && #[trigger] requests@[j].demand.has(q)) || (resource_index(
                            q,
                        ) < k + 1 && req.demand.has(q))) by {
                        if q != r {
                            assert(totals.at(q) == before.at(q));
                            assert(totals.has(q) == before.has(q));
                            assert(resource_index(q) != k) by {
                                lemma_index_distinct(q, r);
                            }
                        }
                    }
                }
                k = k + 1;
            }
            proof {
                assert forall|r: ResourceType| #[trigger]
                    totals.has(r) == (exists|j: int|
                        0 <= j < i + 1 && #[trigger] requests@[j].demand.has(r)) by {
                    if req.demand.has(r) {
                        assert(requests@[i as int].demand.has(r));
                    }
                    if exists|j: int| 0 <= j < i + 1 && #[trigger] requests@[j].demand.has(r) {
                        let j = choose|j: int|
                            0 <= j < i + 1 && #[trigger] requests@[j].demand.has(r);
                        if j < i {
                        } else {
                            assert(j == i);
                        }
                    }
                }
            }
            i = i + 1;
        }
        totals
    }

    /// Per resource with positive total demand, the granted part of the
    /// demand: the whole demand when the store covers it, else the stock.
    /// The fraction granted to everyone is this entry over the total demand.
    fn calculate_fulfillment_ratios(inventory: &ResourceInventory, total_demand: &ResourceMap) -> (ratios:
        ResourceMap)
        ensures
            forall|r: ResourceType| #[trigger]
                ratios.at(r) == if total_demand.amount(r) > 0 {
                    Some(
                        if inventory.resources.amount(r) >= total_demand.amount(r) {
                            total_demand.amount(r) as u32
                        } else {
                            inventory.resources.amount(r) as u32
                        },
                    )
                } else {
                    None::<u32>
                },
    {
        let mut ratios = ResourceMap::new();
        let all = all_resources();
        let mut k: usize = 0;
        while k < 4
            invariant
                k <= 4,
                all@ == resource_order(),
                forall|r: ResourceType| #[trigger]
                    ratios.at(r) == if resource_index(r) < k && total_demand.amount(r) > 0 {
                        Some(
                            if inventory.resources.amount(r) >= total_demand.amount(r) {
                                total_demand.amount(r) as u32
                            } else {
                                inventory.resources.amount(r) as u32
                            },
                        )
                    } else {
                        None::<u32>
                    },
            decreases 4 - k,
        {
            let r = all[k];
            assert(resource_index(r) == k);
            let total_needed = total_demand.amount_of(r);
            if total_needed > 0 {
                let available = inventory.resources.amount_of(r);
                let covered = if available >= total_needed {
                    total_needed
                } else {
                    available
                };
                ratios.insert(r, covered);
            }
            k = k + 1;
        }
        ratios
    }

    /// `needed` scaled by the fraction `covered / total`, rounded down.
    fn scaled_share(needed: u32, covered: u32, total: u32) -> (s: u32)
        requires
            total > 0,
            covered <= total,
        ensures
            s == (needed as nat) * (covered as nat) / (total as nat),
            s <= needed,
    {
        proof {
            assert((needed as u64) * (covered as u64) <= u64::MAX) by (nonlinear_arith)
                requires
                    needed <= u32::MAX,
                    covered <= u32::MAX,
            ;
        }
        let prod: u64 = (needed as u64) * (covered as u64);
        proof {
            assert(needed * covered <= needed * total) by (nonlinear_arith)
                requires
                    covered <= total,
            ;
            assert((needed as nat) * (covered as nat) / (total as nat) <= needed) by (nonlinear_arith)
                requires
                    needed * covered <= needed * total,
                    total > 0,
            ;
        }
        (prod / (total as u64)) as u32
    }

    /// Records that consumer `e` is granted `amount` more of `r`, taking it
    /// out of the store unless it is labour.
    fn apply_grant(
        result: &mut AllocationResult,
        inventory: &mut ResourceInventory,
        e: u32,
        r: ResourceType,
        amount: u32,
    )
        requires
            amount > 0,
            r != ResourceType::Labour ==> old(inventory).resources.has(r) && old(
                inventory,
            ).resources.amount(r) >= amount,
            old(result)@.contains_key(e) ==> old(result)@[e].amount(r) + amount <= u32::MAX,
        ensures
            forall|e2: u32| #[trigger]
                final(result)@.contains_key(e2) <==> (old(result)@.contains_key(e2) || e2 == e),
            forall|e2: u32, q: ResourceType|
                final(result)@.contains_key(e2) ==> #[trigger] final(result)@[e2].at(q) == if e2
                    == e && q == r {
                    Some(
                        (if old(result)@.contains_key(e) {
                            old(result)@[e].amount(r)
                        } else {
                            0
                        } + amount) as u32,
                    )
                } else if old(result)@.contains_key(e2) {
                    old(result)@[e2].at(q)
                } else {
                    None::<u32>
                },
            final(inventory).max_capacity == old(inventory).max_capacity,
            r == ResourceType::Labour ==> final(inventory).resources == old(inventory).resources,
            r != ResourceType::Labour ==> {
                &&& final(inventory).resources.at(r) == Some(
                    (old(inventory).resources.amount(r) - amount) as u32,
                )
                &&& final(inventory).resources.same_except(old(inventory).resources, r)
            },
    {
        if r != ResourceType::Labour {
            inventory.consume(r, amount);
        }
        let mut entry = match result.get(&e) {
            Some(m) => *m,
            None => ResourceMap::new(),
        };
        let current = entry.amount_of(r);
        entry.insert(r, current + amount);
        result.insert(e, entry);
    }

    /// Hands each request its share of every resource it asks for.
    fn distribute_resources(
        inventory: &mut ResourceInventory,
        requests: Vec<DemandRequest>,
        global_ratios: &ResourceMap,
        total_demand: &ResourceMap,
    ) -> (result: AllocationResult)
        requires
            demand_fits(requests@),
            forall|r: ResourceType| #[trigger]
                total_demand.amount(r) == crate::domain::economy::resource_allocation::total_demand(
                    requests@,
                    r,
                ),
            forall|r: ResourceType| #[trigger]
                global_ratios.at(r) == if total_demand.amount(r) > 0 {
                    Some(
                        if old(inventory).resources.amount(r) >= total_demand.amount(r) {
                            total_demand.amount(r) as u32
                        } else {
                            old(inventory).resources.amount(r) as u32
                        },
                    )
                } else {
                    None::<u32>
                },
        ensures
            allocation_matches(result@, requests@, old(inventory).resources),
            final(inventory).max_capacity == old(inventory).max_capacity,
            store_at_stage(
                final(inventory).resources,
                requests@,
                requests@.len() as int,
                0,
                old(inventory).resources,
            ),
            old(inventory).wf() ==> final(inventory).wf(),
    {
        let ghost stock = inventory.resources;
        let ghost reqs = requests@;
        let mut final_allocations: AllocationResult = HashMap::new();
        let all = all_resources();
        let mut i: usize = 0;
        proof {
            assert forall|e: u32, r: ResourceType| #[trigger]
                stage_granted(reqs, 0, 0, e, r, stock) == 0 by {}
            assert forall|r: ResourceType| #[trigger] stage_handed(reqs, 0, 0, r, stock) == 0 by {}
        }
        while i < requests.len()
            invariant
                i <= requests.len(),
                reqs == requests@,
                all@ == resource_order(),
                demand_fits(reqs),
                inventory.max_capacity == old(inventory).max_capacity,
                stock == old(inventory).resources,
                forall|r: ResourceType| #[trigger]
                    total_demand.amount(r) == crate::domain::economy::resource_allocation::total_demand(
                        reqs,
                        r,
                    ),
                forall|r: ResourceType| #[trigger]
                    global_ratios.at(r) == if total_demand.amount(r) > 0 {
                        Some(
                            if stock.amount(r) >= total_demand.amount(r) {
                                total_demand.amount(r) as u32
                            } else {
                                stock.amount(r) as u32
                            },
                        )
                    } else {
                        None::<u32>
                    },
                result_at_stage(final_allocations@, reqs, i as int, 0, stock),
                store_at_stage(inventory.resources, reqs, i as int, 0, stock),
            decreases requests.len() - i,
        {
            let req = &requests[i];
            let mut k: usize = 0;
            while k < 4
                invariant
                    i < requests.len(),
                    k <= 4,
                    reqs == requests@,
                    req == reqs[i as int],
                    all@ == resource_order(),
                    demand_fits(reqs),
                    inventory.max_capacity == old(inventory).max_capacity,
                    stock == old(inventory).resources,
                    forall|r: ResourceType| #[trigger]
                        total_demand.amount(r) == crate::domain::economy::resource_allocation::total_demand(
                            reqs,
                            r,
                        ),
                    forall|r: ResourceType| #[trigger]
                        global_ratios.at(r) == if total_demand.amount(r) > 0 {
                            Some(
                                if stock.amount(r) >= total_demand.amount(r) {
                                    total_demand.amount(r) as u32
                                } else {
                                    stock.amount(r) as u32
                                },
                            )
                        } else {
                            None::<u32>
                        },
                    result_at_stage(final_allocations@, reqs, i as int, k as int, stock),
                    store_at_stage(inventory.resources, reqs, i as int, k as int, stock),
                decreases 4 - k,
            {
                let r = all[k];
                assert(resource_index(r) == k);
                let ghost before_result = final_allocations@;
                let ghost before_store = inventory.resources;
                if let Some(needed) = req.demand.get(&r) {
                    let allocated = match global_ratios.get(&r) {
                        Some(covered) => Self::scaled_share(
                            *needed,
                            *covered,
                            total_demand.amount_of(r),
                        ),
                        None => 0,
                    };
                    proof {
                        assert(allocated == grant(reqs, i as int, r, stock)) by {
                            let t = crate::domain::economy::resource_allocation::total_demand(
                                reqs,
                                r,
                            );
                            if t > 0 && stock.amount(r) >= t {
                                assert((*needed as nat) * t / t == *needed) by {
                                    vstd::arithmetic::div_mod::lemma_div_multiples_vanish(
                                        *needed as int,
                                        t as int,
                                    );
                                    vstd::arithmetic::mul::lemma_mul_is_commutative(
                                        *needed as int,
                                        t as int,
                                    );
                                }
                            }
                        }
                    }
                    if allocated > 0 {
                        proof {
                            self::lemma_stage_step_facts(reqs, i as int, r, stock);
                            let e = req.entity_id;
                            if stock.amount(r) == 0 {
                                assert(grant(reqs, i as int, r, stock) == 0);
                            }
                            assert(stage_handed(reqs, i as int, k as int, r, stock)
                                == handed_out_upto(reqs, i as int, r, stock));
                            assert(stage_granted(reqs, i as int, k as int, e, r, stock)
                                == granted_upto(reqs, i as int, e, r, stock));
                            assert(granted_upto(reqs, i as int + 1, e, r, stock) == granted_upto(
                                reqs,
                                i as int,
                                e,
                                r,
                                stock,
                            ) + allocated);
                            assert(handed_out_upto(reqs, i as int + 1, r, stock) == handed_out_upto(
                                reqs,
                                i as int,
                                r,
                                stock,
                            ) + allocated);
                            assert(granted_upto(reqs, i as int + 1, e, r, stock) <= u32::MAX);
                            if final_allocations@.contains_key(e) {
                                assert(final_allocations@[e].at(r) == positive_entry(
                                    stage_granted(reqs, i as int, k as int, e, r, stock),
                                ));
                            }
                            if r != ResourceType::Labour {
                                assert(inventory.resources.at(r) == match stock.at(r) {
                                    Some(v) => Some(
                                        (v - stage_handed(reqs, i as int, k as int, r, stock)) as u32,
                                    ),
                                    None => None::<u32>,
                                });
                            }
                        }
                        Self::apply_grant(
                            &mut final_allocations,
                            inventory,
                            req.entity_id,
                            r,
                            allocated,
                        );
                    }
                } else {
                    assert(grant(reqs, i as int, r, stock) == 0);
                }
                proof {
                    self::lemma_stage_step_facts(reqs, i as int, r, stock);
                    self::lemma_result_advance(
                        before_result,
                        final_allocations@,
                        reqs,
                        i as int,
                        k as int,
                        r,
                        stock,
                    );
                    self::lemma_store_advance(
                        before_store,
                        inventory.resources,
                        reqs,
                        i as int,
                        k as int,
                        r,
                        stock,
                    );
                }
                k = k + 1;
            }
            proof {
                self::lemma_stage_wrap(
                    final_allocations@,
                    inventory.resources,
                    reqs,
                    i as int,
                    stock,
                );
            }
            i = i + 1;
        }
        proof {
            assert forall|r: ResourceType| r != ResourceType::Labour implies #[trigger]
                inventory.resources.at(r) == match stock.at(r) {
                    Some(v) => Some((v - handed_out(reqs, r, stock)) as u32),
                    None => None::<u32>,
                } by {
                assert(inventory.resources.at(r) == match stock.at(r) {
                    Some(v) => Some((v - stage_handed(reqs, reqs.len() as int, 0, r, stock)) as u32),
                    None => None::<u32>,
                });
            }
            if old(inventory).wf() {
                law_handed_out_within_stock(reqs, ResourceType::Wood, stock);
                law_handed_out_within_stock(reqs, ResourceType::Stone, stock);
                law_handed_out_within_stock(reqs, ResourceType::Grain, stock);
                assert(inventory.resources.amount(ResourceType::Wood) <= stock.amount(
                    ResourceType::Wood,
                ));
                assert(inventory.resources.amount(ResourceType::Stone) <= stock.amount(
                    ResourceType::Stone,
                ));
                assert(inventory.resources.amount(ResourceType::Grain) <= stock.amount(
                    ResourceType::Grain,
                ));
            }
            assert forall|e: u32| #[trigger]
                final_allocations@.contains_key(e) <==> got_anything(reqs, e, stock) by {
                assert(stage_any(reqs, reqs.len() as int, 0, e, stock) == got_anything(
                    reqs,
                    e,
                    stock,
                ));
            }
        }
        final_allocations
    }
}

proof fn lemma_index_distinct(q: ResourceType, r: ResourceType)
    requires
        q != r,
    ensures
        resource_index(q) != resource_index(r),
{
}

/// Facts needed before granting request `i` its share of `r`.
proof fn lemma_stage_step_facts(reqs: Seq<DemandRequest>, i: int, r: ResourceType, stock: ResourceMap)
    requires
        0 <= i < reqs.len(),
    ensures
        handed_out_upto(reqs, i + 1, r, stock) <= stock.amount(r),
        forall|e: u32| #[trigger]
            granted_upto(reqs, i + 1, e, r, stock) <= total_demand(reqs, r),
{
    law_handed_out_within_stock(reqs, r, stock);
    lemma_handed_mono(reqs, i + 1, reqs.len() as int, r, stock);
    assert forall|e: u32| #[trigger]
        granted_upto(reqs, i + 1, e, r, stock) <= total_demand(reqs, r) by {
        lemma_granted_le_handed(reqs, i + 1, e, r, stock);
        lemma_handed_bound(reqs, i + 1, r, stock);
        lemma_demand_upto_mono(reqs, i + 1, reqs.len() as int, r);
    }
}

proof fn lemma_handed_mono(
    reqs: Seq<DemandRequest>,
    n: int,
    m: int,
    r: ResourceType,
    stock: ResourceMap,
)
    requires
        0 <= n <= m,
    ensures
        handed_out_upto(reqs, n, r, stock) <= handed_out_upto(reqs, m, r, stock),
    decreases m - n,
{
    if n < m {
        lemma_handed_mono(reqs, n, m - 1, r, stock);
    }
}

/// Handling resource `r` (at position `k`) of request `i` adds its grant to
/// exactly one consumer and one resource.
proof fn lemma_stage_shift(reqs: Seq<DemandRequest>, i: int, k: int, r: ResourceType, stock: ResourceMap)
    requires
        0 <= i < reqs.len(),
        resource_index(r) == k,
    ensures
        forall|e2: u32, q: ResourceType| #[trigger]
            stage_granted(reqs, i, k + 1, e2, q, stock) == stage_granted(reqs, i, k, e2, q, stock)
                + if e2 == reqs[i].entity_id && q == r {
                grant(reqs, i, r, stock)
            } else {
                0
            },
        forall|q: ResourceType| #[trigger]
            stage_handed(reqs, i, k + 1, q, stock) == stage_handed(reqs, i, k, q, stock) + if q
                == r {
                grant(reqs, i, r, stock)
            } else {
                0
            },
        stage_granted(reqs, i, k, reqs[i].entity_id, r, stock) == granted_upto(
            reqs,
            i,
            reqs[i].entity_id,
            r,
            stock,
        ),
        stage_handed(reqs, i, k, r, stock) == handed_out_upto(reqs, i, r, stock),
{
    assert forall|e2: u32, q: ResourceType| #[trigger]
        stage_granted(reqs, i, k + 1, e2, q, stock) == stage_granted(reqs, i, k, e2, q, stock)
            + if e2 == reqs[i].entity_id && q == r {
            grant(reqs, i, r, stock)
        } else {
            0
        } by {
        if q != r {
            lemma_index_distinct(q, r);
        }
    }
    assert forall|q: ResourceType| #[trigger]
        stage_handed(reqs, i, k + 1, q, stock) == stage_handed(reqs, i, k, q, stock) + if q == r {
            grant(reqs, i, r, stock)
        } else {
            0
        } by {
        if q != r {
            lemma_index_distinct(q, r);
        }
    }
}

/// One resource of request `i` handled: the grants move from stage `k` to
/// stage `k + 1`.
proof fn lemma_result_advance(
    before_result: Map<u32, ResourceMap>,
    after_result: Map<u32, ResourceMap>,
    reqs: Seq<DemandRequest>,
    i: int,
    k: int,
    r: ResourceType,
    stock: ResourceMap,
)
    requires
        0 <= i < reqs.len(),
        0 <= k < 4,
        resource_index(r) == k,
        result_at_stage(before_result, reqs, i, k, stock),
        granted_upto(reqs, i + 1, reqs[i].entity_id, r, stock) <= u32::MAX,
        grant(reqs, i, r, stock) == 0 ==> after_result == before_result,
        grant(reqs, i, r, stock) > 0 ==> {
            let e = reqs[i].entity_id;
            let amount = grant(reqs, i, r, stock);
            &&& forall|e2: u32| #[trigger]
                after_result.contains_key(e2) <==> (before_result.contains_key(e2) || e2 == e)
            &&& forall|e2: u32, q: ResourceType|
                after_result.contains_key(e2) ==> #[trigger] after_result[e2].at(q) == if e2 == e
                    && q == r {
                    Some(
                        (if before_result.contains_key(e) {
                            before_result[e].amount(r)
                        } else {
                            0
                        } + amount) as u32,
                    )
                } else if before_result.contains_key(e2) {
                    before_result[e2].at(q)
                } else {
                    None::<u32>
                }
        },
    ensures
        result_at_stage(after_result, reqs, i, k + 1, stock),
{
    let e = reqs[i].entity_id;
    let g = grant(reqs, i, r, stock);
    lemma_stage_shift(reqs, i, k, r, stock);
    if g > 0 {
        assert forall|e2: u32| #[trigger]
            after_result.contains_key(e2) <==> stage_any(reqs, i, k + 1, e2, stock) by {
            if e2 == e {
                assert(stage_granted(reqs, i, k + 1, e2, r, stock) > 0);
            }
        }
        assert forall|e2: u32, q: ResourceType|
            after_result.contains_key(e2) implies #[trigger] after_result[e2].at(q)
            == positive_entry(stage_granted(reqs, i, k + 1, e2, q, stock)) by {
            if e2 == e && q == r {
                if before_result.contains_key(e) {
                    assert(before_result[e].at(r) == positive_entry(
                        stage_granted(reqs, i, k, e, r, stock),
                    ));
                } else {
                    assert(!stage_any(reqs, i, k, e, stock));
                }
            } else if before_result.contains_key(e2) {
            } else {
                assert(!stage_any(reqs, i, k, e2, stock));
                assert(stage_granted(reqs, i, k, e2, q, stock) == 0);
            }
        }
    } else {
        assert forall|e2: u32| #[trigger]
            after_result.contains_key(e2) <==> stage_any(reqs, i, k + 1, e2, stock) by {
            assert(stage_any(reqs, i, k + 1, e2, stock) == stage_any(reqs, i, k, e2, stock));
        }
    }
}

/// One resource of request `i` handled: the store moves from stage `k` to
/// stage `k + 1`.
proof fn lemma_store_advance(
    before_store: ResourceMap,
    after_store: ResourceMap,
    reqs: Seq<DemandRequest>,
    i: int,
    k: int,
    r: ResourceType,
    stock: ResourceMap,
)
    requires
        0 <= i < reqs.len(),
        0 <= k < 4,
        resource_index(r) == k,
        store_at_stage(before_store, reqs, i, k, stock),
        handed_out_upto(reqs, i + 1, r, stock) <= stock.amount(r),
        grant(reqs, i, r, stock) == 0 ==> after_store == before_store,
        grant(reqs, i, r, stock) > 0 ==> {
            let amount = grant(reqs, i, r, stock);
            &&& r == ResourceType::Labour ==> after_store == before_store
            &&& r != ResourceType::Labour ==> {
                &&& after_store.at(r) == Some((before_store.amount(r) - amount) as u32)
                &&& after_store.same_except(before_store, r)
            }
        },
    ensures
        store_at_stage(after_store, reqs, i, k + 1, stock),
{
    lemma_stage_shift(reqs, i, k, r, stock);
    if grant(reqs, i, r, stock) > 0 && r != ResourceType::Labour {
        assert forall|q: ResourceType| q != ResourceType::Labour implies #[trigger] after_store.at(q)
            == match stock.at(q) {
            Some(v) => Some((v - stage_handed(reqs, i, k + 1, q, stock)) as u32),
            None => None::<u32>,
        } by {
            if q == r {
                assert(before_store.at(r) == match stock.at(r) {
                    Some(v) => Some((v - stage_handed(reqs, i, k, r, stock)) as u32),
                    None => None::<u32>,
                });
            }
        }
    }
}

/// After the last resource of request `i` the stage is `(i + 1, 0)`.
proof fn lemma_stage_wrap(
    result: Map<u32, ResourceMap>,
    store: ResourceMap,
    reqs: Seq<DemandRequest>,
    i: int,
    stock: ResourceMap,
)
    requires
        0 <= i < reqs.len(),
        result_at_stage(result, reqs, i, 4, stock),
        store_at_stage(store, reqs, i, 4, stock),
    ensures
        result_at_stage(result, reqs, i + 1, 0, stock),
        store_at_stage(store, reqs, i + 1, 0, stock),
{
    assert forall|e: u32, r: ResourceType| #[trigger]
        stage_granted(reqs, i + 1, 0, e, r, stock) == stage_granted(reqs, i, 4, e, r, stock) by {
        assert(resource_index(r) < 4);
    }
    assert forall|r: ResourceType| #[trigger]
        stage_handed(reqs, i + 1, 0, r, stock) == stage_handed(reqs, i, 4, r, stock) by {
        assert(resource_index(r) < 4);
    }
    assert forall|e: u32| #[trigger] result.contains_key(e) <==> stage_any(reqs, i + 1, 0, e, stock) by {
        assert(stage_any(reqs, i + 1, 0, e, stock) == stage_any(reqs, i, 4, e, stock));
    }
}

} // verus!
