use std::collections::{HashMap, HashSet};
use vstd::prelude::*;

use crate::domain::world_data::point::{Point, PointMap, PointSet};

verus! {

broadcast use vstd::std_specs::hash::group_hash_axioms;

/// Who owns which tile: provinces own tiles for good, settlements hold
/// tiles of influence that can change hands.
#[derive(Debug)]
pub struct TerritoryManager {
    pub tile_to_province: PointMap,
    pub tile_to_influence: PointMap,
    pub province_tiles: HashMap<u32, Vec<Point>>,
    pub settlement_influence: HashMap<u32, PointSet>,
    pub settlement_to_province: HashMap<u32, u32>,
    pub province_settlements: HashMap<u32, HashSet<u32>>,
}

/// The settlements' influence zones as sets of tiles.
pub open spec fn influence_sets(m: Map<u32, PointSet>) -> Map<u32, Set<Point>> {
    m.map_values(|s: PointSet| s@)
}

/// The zones after `pos` leaves the zone of `owner` (when that zone exists).
pub open spec fn zones_without(zones: Map<u32, Set<Point>>, owner: u32, pos: Point) -> Map<
    u32,
    Set<Point>,
> {
    if zones.contains_key(owner) {
        zones.insert(owner, zones[owner].remove(pos))
    } else {
        zones
    }
}

/// The zones after `pos` joins the zone of `sid` (created when missing).
pub open spec fn zones_with(zones: Map<u32, Set<Point>>, sid: u32, pos: Point) -> Map<
    u32,
    Set<Point>,
> {
    if zones.contains_key(sid) {
        zones.insert(sid, zones[sid].insert(pos))
    } else {
        zones.insert(sid, Set::empty().insert(pos))
    }
}

/// The zones after `pos` leaves the zone of `owner`, the zone being
/// dropped when it becomes empty.
pub open spec fn zones_released(zones: Map<u32, Set<Point>>, owner: u32, pos: Point) -> Map<
    u32,
    Set<Point>,
> {
    if zones.contains_key(owner) {
        if zones[owner].remove(pos).is_empty() {
            zones.remove(owner)
        } else {
            zones.insert(owner, zones[owner].remove(pos))
        }
    } else {
        zones
    }
}

/// The zone of `sid`, empty when it has none.
pub open spec fn zone_of(zones: Map<u32, Set<Point>>, sid: u32) -> Set<Point> {
    if zones.contains_key(sid) {
        zones[sid]
    } else {
        Set::empty()
    }
}

/// `pos` lies in the zone of `sid`.
pub open spec fn in_zone(zones: Map<u32, Set<Point>>, sid: u32, pos: Point) -> bool {
    zones.contains_key(sid) && zones[sid].contains(pos)
}

/// A tile records holder `sid` exactly when it lies in the zone of `sid`.
pub open spec fn consistent_zones(holders: Map<Point, u32>, zones: Map<u32, Set<Point>>) -> bool {
    &&& forall|pos: Point| #[trigger]
        holders.contains_key(pos) ==> in_zone(zones, holders[pos], pos)
    &&& forall|sid: u32, pos: Point| #[trigger]
        in_zone(zones, sid, pos) ==> holders.contains_key(pos) && holders[pos] == sid
}

/// The zones after `sid` claims `pos`: unchanged when `sid` already holds
/// it, else the tile moves from its previous holder's zone to `sid`'s.
pub open spec fn zones_after_claim(
    holders: Map<Point, u32>,
    zones: Map<u32, Set<Point>>,
    pos: Point,
    sid: u32,
) -> Map<u32, Set<Point>> {
    if holders.contains_key(pos) && holders[pos] == sid {
        zones
    } else if holders.contains_key(pos) {
        zones_with(zones_without(zones, holders[pos], pos), sid, pos)
    } else {
        zones_with(zones, sid, pos)
    }
}

/// The zones once every tile of `sid`'s zone is freed: a non-empty zone is
/// dropped, an empty one stays.
pub open spec fn released_zone(zones: Map<u32, Set<Point>>, sid: u32) -> Map<u32, Set<Point>> {
    if zones.contains_key(sid) && !zones[sid].is_empty() {
        zones.remove(sid)
    } else {
        zones
    }
}

/// The tiles of `freed` that `holders` gives to `h`.
pub open spec fn lost_by(freed: Set<Point>, holders: Map<Point, u32>, h: u32) -> Set<Point> {
    freed.filter(|p: Point| holders.contains_key(p) && holders[p] == h)
}

/// Zone `h` has lost some of its tiles and has none left.
pub open spec fn emptied(zones: Map<u32, Set<Point>>, holders: Map<Point, u32>, freed: Set<Point>, h: u32) -> bool {
    (exists|p: Point| #[trigger] lost_by(freed, holders, h).contains(p)) && zones[h].difference(
        lost_by(freed, holders, h),
    ) == Set::<Point>::empty()
}

/// The zones once every tile of `freed` is freed from the zone that
/// `holders` gives it to: each zone loses those tiles, and a zone that
/// lost some and has none left is dropped.
pub open spec fn zones_after_release(
    zones: Map<u32, Set<Point>>,
    holders: Map<Point, u32>,
    freed: Set<Point>,
) -> Map<u32, Set<Point>> {
    Map::new(
        |h: u32| zones.contains_key(h) && !emptied(zones, holders, freed, h),
        |h: u32| zones[h].difference(lost_by(freed, holders, h)),
    )
}

/// The first `k + 1` tiles of `tiles` as a set: the first `k` and tile `k`.
proof fn lemma_take_push_set(tiles: Seq<Point>, k: int)
    requires
        0 <= k < tiles.len(),
    ensures
        tiles.take(k + 1).to_set() == tiles.take(k).to_set().insert(tiles[k]),
{
    let t1 = tiles.take(k + 1);
    let t0 = tiles.take(k);
    assert forall|x: Point| #[trigger] t1.to_set().contains(x) == t0.to_set().insert(tiles[k]).contains(x) by {
        if t1.contains(x) {
            let j = choose|j: int| 0 <= j < t1.len() && t1[j] == x;
            if j < k {
                assert(t0[j] == x);
            }
        }
        if t0.contains(x) {
            let j = choose|j: int| 0 <= j < t0.len() && t0[j] == x;
            assert(t1[j] == x);
        }
        if x == tiles[k] {
            assert(t1[k] == x);
        }
    }
    assert(t1.to_set() =~= t0.to_set().insert(tiles[k]));
}

/// Freeing nothing leaves the zones as they are.
proof fn lemma_release_none(zones: Map<u32, Set<Point>>, holders: Map<Point, u32>)
    ensures
        zones_after_release(zones, holders, Set::empty()) == zones,
{
    let r = zones_after_release(zones, holders, Set::empty());
    assert forall|h: u32| #[trigger] r.contains_key(h) == zones.contains_key(h) by {
        if zones.contains_key(h) {
            assert(!(exists|p: Point| #[trigger] lost_by(Set::<Point>::empty(), holders, h).contains(p)));
        }
    }
    assert forall|h: u32| r.contains_key(h) implies #[trigger] r[h] == zones[h] by {
        assert(lost_by(Set::<Point>::empty(), holders, h) =~= Set::<Point>::empty());
        assert(zones[h].difference(Set::<Point>::empty()) =~= zones[h]);
    }
    assert(r =~= zones);
}

/// Freeing one more tile `pos`, from the zone its holder gives it to,
/// extends the release by that tile.
proof fn lemma_release_more(
    zones: Map<u32, Set<Point>>,
    holders: Map<Point, u32>,
    freed: Set<Point>,
    pos: Point,
    before: Map<u32, Set<Point>>,
    after: Map<u32, Set<Point>>,
)
    requires
        !freed.contains(pos),
        before == zones_after_release(zones, holders, freed),
        after == if holders.contains_key(pos) {
            zones_released(before, holders[pos], pos)
        } else {
            before
        },
    ensures
        after == zones_after_release(zones, holders, freed.insert(pos)),
{
    let f2 = freed.insert(pos);
    let target = zones_after_release(zones, holders, f2);
    assert forall|h: u32| !(holders.contains_key(pos) && holders[pos] == h) implies #[trigger] lost_by(f2, holders, h)
        == lost_by(freed, holders, h) by {
        assert(lost_by(f2, holders, h) =~= lost_by(freed, holders, h));
    }
    if holders.contains_key(pos) {
        let h0 = holders[pos];
        assert(lost_by(f2, holders, h0) =~= lost_by(freed, holders, h0).insert(pos));
        assert(lost_by(f2, holders, h0).contains(pos));
        if zones.contains_key(h0) {
            let rest = zones[h0].difference(lost_by(f2, holders, h0));
            assert(zones[h0].difference(lost_by(freed, holders, h0)).remove(pos) =~= rest);
            if emptied(zones, holders, freed, h0) {
                let p = choose|p: Point| #[trigger] lost_by(freed, holders, h0).contains(p);
                assert(lost_by(f2, holders, h0).contains(p));
                assert(rest =~= Set::<Point>::empty()) by {
                    assert forall|x: Point| !rest.contains(x) by {
                        assert(!zones[h0].difference(lost_by(freed, holders, h0)).contains(x));
                    }
                }
                assert(emptied(zones, holders, f2, h0));
            } else {
                assert(before.contains_key(h0));
                if rest.is_empty() {
                    assert(rest =~= Set::<Point>::empty());
                    assert(emptied(zones, holders, f2, h0));
                } else {
                    assert(!(rest =~= Set::<Point>::empty()));
                    assert(!emptied(zones, holders, f2, h0));
                }
            }
        }
        assert forall|h: u32| h != h0 implies (#[trigger] target.contains_key(h)) == before.contains_key(h) by {
            assert(lost_by(f2, holders, h) == lost_by(freed, holders, h));
        }
    } else {
        assert forall|h: u32| (#[trigger] target.contains_key(h)) == before.contains_key(h) by {
            assert(lost_by(f2, holders, h) == lost_by(freed, holders, h));
        }
    }
    assert(after =~= target);
}

/// One more tile of `sid`'s zone freed while destroying `sid`.
proof fn lemma_release_step(
    holders0: Map<Point, u32>,
    zones0: Map<u32, Set<Point>>,
    sid: u32,
    zone: Set<Point>,
    tiles: Seq<Point>,
    k: int,
    holders_before: Map<Point, u32>,
    zones_before: Map<u32, Set<Point>>,
    holders_after: Map<Point, u32>,
    zones_after: Map<u32, Set<Point>>,
)
    requires
        0 <= k < tiles.len(),
        tiles.to_set() == zone,
        tiles.no_duplicates(),
        zone.len() > 0 ==> zones0.contains_key(sid) && zones0[sid] == zone,
        consistent_zones(holders0, zones0),
        holders_before == holders0.remove_keys(tiles.take(k).to_set()),
        zones_before == if k == 0 {
            zones0
        } else if k == tiles.len() {
            zones0.remove(sid)
        } else {
            zones0.insert(sid, zone.difference(tiles.take(k).to_set()))
        },
        consistent_zones(holders_before, zones_before),
        holders_after == holders_before.remove(tiles[k]),
        zones_after == if holders_before.contains_key(tiles[k]) {
            zones_released(zones_before, holders_before[tiles[k]], tiles[k])
        } else {
            zones_before
        },
        consistent_zones(holders_after, zones_after),
    ensures
        holders_after == holders0.remove_keys(tiles.take(k + 1).to_set()),
        zones_after == if k + 1 == tiles.len() {
            zones0.remove(sid)
        } else {
            zones0.insert(sid, zone.difference(tiles.take(k + 1).to_set()))
        },
{
    let pos = tiles[k];
    let t0 = tiles.take(k);
    let t1 = tiles.take(k + 1);
    let done0 = t0.to_set();
    let done1 = t1.to_set();
    assert(zone.contains(pos));
    assert(zone.len() > 0) by {
        vstd::set_lib::lemma_set_empty_equivalency_len(zone);
    }
    assert(done1 =~= done0.insert(pos)) by {
        assert(tiles.take(k + 1) =~= tiles.take(k).push(pos));
        vstd::seq_lib::lemma_seq_contains_after_push(tiles.take(k), pos, pos);
        assert forall|q: Point| done1.contains(q) == (done0.contains(q) || q == pos) by {
            if done1.contains(q) {
                let j = choose|j: int| 0 <= j < t1.len() && t1[j] == q;
                if j < k {
                    assert(t0[j] == q);
                }
            }
            if done0.contains(q) {
                let j = choose|j: int| 0 <= j < t0.len() && t0[j] == q;
                assert(t1[j] == q);
            }
            if q == pos {
                assert(t1[k] == q);
            }
        }
    }
    assert(!done0.contains(pos)) by {
        if done0.contains(pos) {
            let j = choose|j: int| 0 <= j < t0.len() && t0[j] == pos;
            assert(tiles[j] == tiles[k]);
        }
    }
    assert(in_zone(zones0, sid, pos));
    assert(holders0.contains_key(pos) && holders0[pos] == sid);
    assert(holders_before.contains_key(pos) && holders_before[pos] == sid);
    assert(holders_after =~= holders0.remove_keys(done1));
    let rest0 = zone.difference(done0);
    let rest1 = zone.difference(done1);
    assert(rest1 =~= rest0.remove(pos));
    assert(zones_before.contains_key(sid) && zones_before[sid] =~= rest0) by {
        if k == 0 {
            assert(rest0 =~= zone);
        }
    }
    if k + 1 == tiles.len() {
        assert(tiles.take(k + 1) =~= tiles);
        assert(rest1 =~= Set::<Point>::empty());
        assert(rest1.is_empty());
        assert(zones_after =~= zones0.remove(sid));
    } else {
        let nxt = tiles[k + 1];
        assert(zone.contains(nxt));
        assert(!done1.contains(nxt)) by {
            if done1.contains(nxt) {
                let j = choose|j: int| 0 <= j < t1.len() && t1[j] == nxt;
                assert(tiles[j] == tiles[k + 1]);
            }
        }
        assert(rest1.contains(nxt));
        assert(!rest1.is_empty());
        assert(zones_after =~= zones0.insert(sid, rest1));
    }
}

/// The error of a registration on a tile outside every province.
pub const NO_PROVINCE: &'static str = "No province for this tile.";

/// The error of a registration in a province that already lists the
/// settlement.
pub const ALREADY_REGISTERED: &'static str = "Settlement already exists in this province.";

/// Province `pid` already lists settlement `sid`.
pub open spec fn already_registered(provinces: Map<u32, HashSet<u32>>, pid: u32, sid: u32) -> bool {
    provinces.contains_key(pid) && provinces[pid]@.contains(sid)
}

impl TerritoryManager {
    /// A tile is in a settlement's zone exactly when the tile records that
    /// settlement as its holder.
    pub open spec fn influence_consistent(&self) -> bool {
        consistent_zones(self.tile_to_influence@, influence_sets(self.settlement_influence@))
    }

    /// Every tile's province lists the tile.
    pub open spec fn provinces_consistent(&self) -> bool {
        forall|pos: Point|
            #[trigger] self.tile_to_province@.contains_key(pos) ==> {
                let pid = self.tile_to_province@[pos];
                &&& self.province_tiles@.contains_key(pid)
                &&& self.province_tiles@[pid]@.contains(pos)
            }
    }

    /// Every settlement's province lists the settlement.
    pub open spec fn settlements_consistent(&self) -> bool {
        forall|sid: u32|
            #[trigger] self.settlement_to_province@.contains_key(sid) ==> {
                let pid = self.settlement_to_province@[sid];
                &&& self.province_settlements@.contains_key(pid)
                &&& self.province_settlements@[pid]@.contains(sid)
            }
    }

    /// Every tile listed under a province records that province.
    pub open spec fn tiles_listed_consistent(&self) -> bool {
        forall|pid: u32, pos: Point|
            #![trigger self.province_tiles@[pid]@.contains(pos)]
            self.province_tiles@.contains_key(pid) && self.province_tiles@[pid]@.contains(pos) ==> {
                &&& self.tile_to_province@.contains_key(pos)
                &&& self.tile_to_province@[pos] == pid
            }
    }

    /// Tiles and provinces agree both ways: a tile records a province
    /// exactly when that province lists it.
    pub open spec fn provinces_two_way(&self) -> bool {
        self.provinces_consistent() && self.tiles_listed_consistent()
    }

    pub open spec fn consistent(&self) -> bool {
        self.influence_consistent() && self.provinces_consistent() && self.settlements_consistent()
    }

    pub fn new() -> (m: TerritoryManager)
        ensures
            m.tile_to_province@ == Map::<Point, u32>::empty(),
            m.tile_to_influence@ == Map::<Point, u32>::empty(),
            m.province_tiles@ == Map::<u32, Vec<Point>>::empty(),
            m.settlement_influence@ == Map::<u32, PointSet>::empty(),
            m.settlement_to_province@ == Map::<u32, u32>::empty(),
            m.province_settlements@ == Map::<u32, HashSet<u32>>::empty(),
            m.consistent(),
    {
        let m = TerritoryManager {
            tile_to_province: PointMap::new(),
            tile_to_influence: PointMap::new(),
            province_tiles: HashMap::new(),
            settlement_influence: HashMap::new(),
            settlement_to_province: HashMap::new(),
            province_settlements: HashMap::new(),
        };
        assert(influence_sets(m.settlement_influence@) =~= Map::<u32, Set<Point>>::empty());
        m
    }

    /// Records that `pos` belongs to province `province_id`.
    pub fn assign_to_province(&mut self, pos: Point, province_id: u32)
        ensures
            final(self).tile_to_province@ == old(self).tile_to_province@.insert(pos, province_id),
            final(self).province_tiles@.contains_key(province_id),
            final(self).province_tiles@[province_id]@ == if old(self).province_tiles@.contains_key(
                province_id,
            ) {
                old(self).province_tiles@[province_id]@.push(pos)
            } else {
                seq![pos]
            },
            forall|pid: u32|
                pid != province_id ==> #[trigger] final(self).province_tiles@.contains_key(pid)
                    == old(self).province_tiles@.contains_key(pid) && (
                final(self).province_tiles@.contains_key(pid) ==> final(self).province_tiles@[pid]
                    == old(self).province_tiles@[pid]),
            final(self).tile_to_influence == old(self).tile_to_influence,
            final(self).settlement_influence == old(self).settlement_influence,
            final(self).settlement_to_province == old(self).settlement_to_province,
            final(self).province_settlements == old(self).province_settlements,
            old(self).provinces_consistent() ==> final(self).provinces_consistent(),
            old(self).tiles_listed_consistent() && !old(self).tile_to_province@.contains_key(pos)
                ==> final(self).tiles_listed_consistent(),
            old(self).provinces_two_way() && !old(self).tile_to_province@.contains_key(pos)
                ==> final(self).provinces_two_way(),
    {
        self.tile_to_province.insert(pos, province_id);
        let mut tiles = match self.province_tiles.remove(&province_id) {
            Some(t) => t,
            None => Vec::new(),
        };
        tiles.push(pos);
        self.province_tiles.insert(province_id, tiles);
        proof {
            if old(self).provinces_consistent() {
                assert forall|p: Point| #[trigger] self.tile_to_province@.contains_key(p) implies {
                    let pid = self.tile_to_province@[p];
                    &&& self.province_tiles@.contains_key(pid)
                    &&& self.province_tiles@[pid]@.contains(p)
                } by {
                    let pid = self.tile_to_province@[p];
                    if p == pos {
                        assert(self.province_tiles@[pid]@.last() == pos);
                    } else if pid == province_id {
                        let old_tiles = old(self).province_tiles@[pid]@;
                        assert(old_tiles.contains(p));
                        let j = choose|j: int| 0 <= j < old_tiles.len() && old_tiles[j] == p;
                        assert(self.province_tiles@[pid]@[j] == p);
                    }
                }
            }
            if old(self).tiles_listed_consistent() && !old(self).tile_to_province@.contains_key(pos) {
                assert forall|pid: u32, q: Point|
                    self.province_tiles@.contains_key(pid) && #[trigger] self.province_tiles@[pid]@.contains(q) implies {
                    &&& self.tile_to_province@.contains_key(q)
                    &&& self.tile_to_province@[q] == pid
                } by {
                    if q != pos {
                        if pid == province_id && old(self).province_tiles@.contains_key(pid) {
                            let old_tiles = old(self).province_tiles@[pid]@;
                            let j = choose|j: int| 0 <= j < self.province_tiles@[pid]@.len() && self.province_tiles@[pid]@[j] == q;
                            assert(j < old_tiles.len());
                            assert(old_tiles[j] == q);
                            assert(old_tiles.contains(q));
                        } else if pid == province_id {
                            assert(self.province_tiles@[pid]@ == seq![pos]);
                            assert(self.province_tiles@[pid]@[0] == pos);
                        } else {
                            assert(old(self).province_tiles@[pid]@.contains(q));
                        }
                    } else if pid != province_id {
                        assert(old(self).province_tiles@[pid]@.contains(q));
                    }
                }
            }
        }
    }

    /// Puts `pos` in the zone of `settlement_id`, taking it from the zone
    /// of its previous holder; nothing changes when it already holds it.
    pub fn claim_influence(&mut self, pos: Point, settlement_id: u32)
        ensures
            final(self).tile_to_influence@ == old(self).tile_to_influence@.insert(pos, settlement_id),
            influence_sets(final(self).settlement_influence@) == zones_after_claim(
                old(self).tile_to_influence@,
                influence_sets(old(self).settlement_influence@),
                pos,
                settlement_id,
            ),
            final(self).tile_to_province == old(self).tile_to_province,
            final(self).province_tiles == old(self).province_tiles,
            final(self).settlement_to_province == old(self).settlement_to_province,
            final(self).province_settlements == old(self).province_settlements,
            old(self).influence_consistent() ==> final(self).influence_consistent(),
            old(self).influence_consistent() ==> in_zone(
                influence_sets(final(self).settlement_influence@),
                settlement_id,
                pos,
            ) && forall|s: u32|
                s != settlement_id ==> !#[trigger] in_zone(influence_sets(final(self).settlement_influence@), s, pos),
            old(self).consistent() ==> final(self).consistent(),
    {
        let ghost zones0 = influence_sets(self.settlement_influence@);
        if let Some(old_settlement) = self.tile_to_influence.get(&pos) {
            let old_settlement = *old_settlement;
            if old_settlement != settlement_id {
                if let Some(mut tiles) = self.settlement_influence.remove(&old_settlement) {
                    tiles.remove(&pos);
                    self.settlement_influence.insert(old_settlement, tiles);
                }
                proof {
                    assert(influence_sets(self.settlement_influence@) =~= zones_without(
                        zones0,
                        old_settlement,
                        pos,
                    ));
                }
            } else {
                proof {
                    assert(self.tile_to_influence@ =~= old(self).tile_to_influence@.insert(
                        pos,
                        settlement_id,
                    ));
                }
                return;
            }
        } else {
            assert(influence_sets(self.settlement_influence@) =~= zones0);
        }
        let ghost zones1 = influence_sets(self.settlement_influence@);
        self.tile_to_influence.insert(pos, settlement_id);
        let mut tiles = match self.settlement_influence.remove(&settlement_id) {
            Some(t) => t,
            None => PointSet::new(),
        };
        tiles.insert(pos);
        self.settlement_influence.insert(settlement_id, tiles);
        proof {
            assert(influence_sets(self.settlement_influence@) =~= zones_with(
                zones1,
                settlement_id,
                pos,
            ));
            if old(self).influence_consistent() {
                let zones = influence_sets(self.settlement_influence@);
                let holders = self.tile_to_influence@;
                assert forall|p: Point| #[trigger] holders.contains_key(p) implies in_zone(
                    zones,
                    holders[p],
                    p,
                ) by {
                    if p != pos {
                        let o = old(self).tile_to_influence@[p];
                        assert(in_zone(zones0, o, p));
                    }
                }
                assert forall|s: u32, p: Point| #[trigger] in_zone(zones, s, p) implies holders.contains_key(
                    p,
                ) && holders[p] == s by {
                    if !(p == pos && s == settlement_id) {
                        assert(in_zone(zones0, s, p));
                    }
                }
            }
        }
    }

    /// Registers settlement `settlement_id` with its centre at `center`: it
    /// joins the province of that tile and claims the tile. Fails, changing
    /// nothing, when the tile belongs to no province, or when the province
    /// already lists the settlement.
    pub fn register_settlement(&mut self, settlement_id: u32, center: Point) -> (r: Result<
        (),
        &'static str,
    >)
        ensures
            !old(self).tile_to_province@.contains_key(center) ==> r == Err::<(), &'static str>(NO_PROVINCE),
            old(self).tile_to_province@.contains_key(center) ==> (r.is_err() == already_registered(
                old(self).province_settlements@,
                old(self).tile_to_province@[center],
                settlement_id,
            )),
            old(self).tile_to_province@.contains_key(center) && r.is_err() ==> r == Err::<(), &'static str>(
                ALREADY_REGISTERED,
            ),
            r.is_err() ==> *final(self) == *old(self),
            r.is_ok() ==> {
                let pid = old(self).tile_to_province@[center];
                &&& final(self).settlement_to_province@ == old(self).settlement_to_province@.insert(
                    settlement_id,
                    pid,
                )
                &&& final(self).province_settlements@.contains_key(pid)
                &&& final(self).province_settlements@[pid]@ == if old(self).province_settlements@.contains_key(pid) {
                    old(self).province_settlements@[pid]@.insert(settlement_id)
                } else {
                    Set::<u32>::empty().insert(settlement_id)
                }
                &&& forall|q: u32|
                    q != pid ==> #[trigger] final(self).province_settlements@.contains_key(q) == old(self).province_settlements@.contains_key(q) && (
                    final(self).province_settlements@.contains_key(q)
                        ==> final(self).province_settlements@[q] == old(self).province_settlements@[q])
                &&& final(self).tile_to_influence@ == old(self).tile_to_influence@.insert(
                    center,
                    settlement_id,
                )
                &&& influence_sets(final(self).settlement_influence@) == zones_after_claim(
                    old(self).tile_to_influence@,
                    influence_sets(old(self).settlement_influence@),
                    center,
                    settlement_id,
                )
                &&& final(self).tile_to_province == old(self).tile_to_province
                &&& final(self).province_tiles == old(self).province_tiles
            },
            old(self).consistent() ==> final(self).consistent(),
    {
        let province_id = match self.tile_to_province.get(&center) {
            Some(id) => *id,
            None => return Err(NO_PROVINCE),
        };
        let known = match self.province_settlements.get(&province_id) {
            Some(members) => members.contains(&settlement_id),
            None => false,
        };
        if known {
            return Err(ALREADY_REGISTERED);
        }
        self.settlement_to_province.insert(settlement_id, province_id);
        let mut members = match self.province_settlements.remove(&province_id) {
            Some(m) => m,
            None => HashSet::new(),
        };
        members.insert(settlement_id);
        self.province_settlements.insert(province_id, members);
        let ghost mid = *self;
        proof {
            if old(self).settlements_consistent() {
                assert forall|sid: u32| #[trigger] self.settlement_to_province@.contains_key(sid) implies {
                    let pid = self.settlement_to_province@[sid];
                    &&& self.province_settlements@.contains_key(pid)
                    &&& self.province_settlements@[pid]@.contains(sid)
                } by {
                    if sid != settlement_id {
                        let pid = old(self).settlement_to_province@[sid];
                        assert(old(self).province_settlements@[pid]@.contains(sid));
                    }
                }
            }
        }
        self.claim_influence(center, settlement_id);
        Ok(())
    }

    /// Removes settlement `settlement_id`: it leaves its province, and every
    /// tile of its zone is freed from the zone its holder record names (a
    /// zone that loses tiles and has none left is dropped).
    pub fn destroy_settlement(&mut self, settlement_id: u32)
        ensures
            final(self).settlement_to_province@ == old(self).settlement_to_province@.remove(
                settlement_id,
            ),
            old(self).settlement_to_province@.contains_key(settlement_id) && old(self).province_settlements@.contains_key(
                old(self).settlement_to_province@[settlement_id],
            ) ==> {
                let pid = old(self).settlement_to_province@[settlement_id];
                &&& final(self).province_settlements@.contains_key(pid)
                &&& final(self).province_settlements@[pid]@ == old(self).province_settlements@[pid]@.remove(settlement_id)
                &&& forall|q: u32|
                    q != pid ==> #[trigger] final(self).province_settlements@.contains_key(q) == old(self).province_settlements@.contains_key(q) && (
                    final(self).province_settlements@.contains_key(q)
                        ==> final(self).province_settlements@[q] == old(self).province_settlements@[q])
            },
            !(old(self).settlement_to_province@.contains_key(settlement_id) && old(self).province_settlements@.contains_key(
                old(self).settlement_to_province@[settlement_id],
            )) ==> final(self).province_settlements@ == old(self).province_settlements@,
            final(self).tile_to_province == old(self).tile_to_province,
            final(self).province_tiles == old(self).province_tiles,
            final(self).tile_to_influence@ == old(self).tile_to_influence@.remove_keys(
                zone_of(influence_sets(old(self).settlement_influence@), settlement_id),
            ),
            influence_sets(final(self).settlement_influence@) == zones_after_release(
                influence_sets(old(self).settlement_influence@),
                old(self).tile_to_influence@,
                zone_of(influence_sets(old(self).settlement_influence@), settlement_id),
            ),
            old(self).influence_consistent() ==> {
                &&& forall|pos: Point| #[trigger]
                    final(self).tile_to_influence@.contains_key(pos) == (old(self).tile_to_influence@.contains_key(pos) && old(self).tile_to_influence@[pos]
                        != settlement_id)
                &&& forall|pos: Point| #[trigger]
                    final(self).tile_to_influence@.contains_key(pos) ==> final(self).tile_to_influence@[pos] == old(self).tile_to_influence@[pos]
                &&& influence_sets(final(self).settlement_influence@) == released_zone(
                    influence_sets(old(self).settlement_influence@),
                    settlement_id,
                )
            },
            old(self).consistent() ==> final(self).consistent(),
    {
        if let Some(province_id) = self.settlement_to_province.remove(&settlement_id) {
            if let Some(mut members) = self.province_settlements.remove(&province_id) {
                members.remove(&settlement_id);
                self.province_settlements.insert(province_id, members);
            }
        }
        proof {
            if old(self).settlements_consistent() {
                assert forall|sid: u32| #[trigger] self.settlement_to_province@.contains_key(sid) implies {
                    let pid = self.settlement_to_province@[sid];
                    &&& self.province_settlements@.contains_key(pid)
                    &&& self.province_settlements@[pid]@.contains(sid)
                } by {
                    let pid = old(self).settlement_to_province@[sid];
                    assert(old(self).province_settlements@[pid]@.contains(sid));
                }
            }
        }
        assert(old(self).settlement_to_province@.contains_key(settlement_id) && old(
            self,
        ).province_settlements@.contains_key(old(self).settlement_to_province@[settlement_id])
            || self.province_settlements@ =~= old(self).province_settlements@);
        let ghost s2p1 = self.settlement_to_province;
        let ghost ps1 = self.province_settlements;
        let tiles_to_clear: Vec<Point> = match self.settlement_influence.get(&settlement_id) {
            Some(tiles) => tiles.to_vec(),
            None => Vec::new(),
        };
        let ghost zones0 = influence_sets(self.settlement_influence@);
        let ghost holders0 = self.tile_to_influence@;
        let ghost zone: Set<Point> = zone_of(zones0, settlement_id);
        proof {
            assert(tiles_to_clear@.to_set() =~= zone);
            assert(tiles_to_clear@.take(0).to_set() =~= Set::<Point>::empty());
            lemma_release_none(zones0, holders0);
        }
        let mut k: usize = 0;
        while k < tiles_to_clear.len()
            invariant
                k <= tiles_to_clear@.len(),
                tiles_to_clear@.to_set() == zone,
                tiles_to_clear@.no_duplicates(),
                zone.len() > 0 ==> zones0.contains_key(settlement_id) && zones0[settlement_id] == zone,
                self.tile_to_province == old(self).tile_to_province,
                self.province_tiles == old(self).province_tiles,
                self.settlement_to_province@ == old(self).settlement_to_province@.remove(
                    settlement_id,
                ),
                self.province_settlements == ps1,
                self.settlement_to_province == s2p1,
                old(self).settlements_consistent() ==> self.settlements_consistent(),
                zones0 == influence_sets(old(self).settlement_influence@),
                holders0 == old(self).tile_to_influence@,
                self.tile_to_influence@ == holders0.remove_keys(tiles_to_clear@.take(k as int).to_set()),
                influence_sets(self.settlement_influence@) == zones_after_release(
                    zones0,
                    holders0,
                    tiles_to_clear@.take(k as int).to_set(),
                ),
                old(self).influence_consistent() ==> {
                    &&& influence_sets(self.settlement_influence@) == if k == 0 {
                        zones0
                    } else if k == tiles_to_clear@.len() {
                        zones0.remove(settlement_id)
                    } else {
                        zones0.insert(
                            settlement_id,
                            zone.difference(tiles_to_clear@.take(k as int).to_set()),
                        )
                    }
                    &&& self.influence_consistent()
                },
            decreases tiles_to_clear.len() - k,
        {
            let ghost before = *self;
            let pos = tiles_to_clear[k];
            self.remove_influence(&pos);
            proof {
                let t0 = tiles_to_clear@.take(k as int).to_set();
                if t0.contains(pos) {
                    let j = choose|j: int| 0 <= j < k && tiles_to_clear@.take(k as int)[j] == pos;
                    assert(tiles_to_clear@[j] == tiles_to_clear@[k as int]);
                }
                lemma_release_more(
                    zones0,
                    holders0,
                    t0,
                    pos,
                    influence_sets(before.settlement_influence@),
                    influence_sets(self.settlement_influence@),
                );
                lemma_take_push_set(tiles_to_clear@, k as int);
                assert(tiles_to_clear@.take(k + 1) =~= tiles_to_clear@.take(k as int).push(pos));
                let t1 = tiles_to_clear@.take(k + 1);
                let t0 = tiles_to_clear@.take(k as int);
                assert forall|x: Point| #[trigger] t1.to_set().contains(x) == t0.to_set().insert(pos).contains(x) by {
                    if t1.contains(x) {
                        let j = choose|j: int| 0 <= j < t1.len() && t1[j] == x;
                        if j < k {
                            assert(t0[j] == x);
                        }
                    }
                    if t0.contains(x) {
                        let j = choose|j: int| 0 <= j < t0.len() && t0[j] == x;
                        assert(t1[j] == x);
                    }
                    if x == pos {
                        assert(t1[k as int] == x);
                    }
                }
                assert(t1.to_set() =~= t0.to_set().insert(pos));
                assert(self.tile_to_influence@ =~= holders0.remove_keys(tiles_to_clear@.take(k + 1).to_set()));
                if old(self).influence_consistent() {
                    lemma_release_step(
                        holders0,
                        zones0,
                        settlement_id,
                        zone,
                        tiles_to_clear@,
                        k as int,
                        before.tile_to_influence@,
                        influence_sets(before.settlement_influence@),
                        self.tile_to_influence@,
                        influence_sets(self.settlement_influence@),
                    );
                }
            }
            k = k + 1;
        }
        proof {
            assert(tiles_to_clear@.take(tiles_to_clear@.len() as int) =~= tiles_to_clear@);
            if old(self).influence_consistent() {
                let removed = tiles_to_clear@.take(tiles_to_clear@.len() as int).to_set();
                assert(tiles_to_clear@.take(tiles_to_clear@.len() as int) =~= tiles_to_clear@);
                assert forall|pos: Point| #[trigger]
                    self.tile_to_influence@.contains_key(pos) == (holders0.contains_key(pos)
                        && holders0[pos] != settlement_id) by {
                    if holders0.contains_key(pos) && holders0[pos] == settlement_id {
                        assert(in_zone(zones0, settlement_id, pos));
                        assert(removed.contains(pos));
                    }
                    if removed.contains(pos) {
                        assert(zone.contains(pos));
                        assert(in_zone(zones0, settlement_id, pos));
                    }
                }
                if tiles_to_clear@.len() == 0 {
                    if zones0.contains_key(settlement_id) {
                        assert(zone.is_empty());
                    }
                } else {
                    assert(zone.contains(tiles_to_clear@[0]));
                }
            }
        }
    }

    /// Frees `pos` from the zone holding it; a zone left empty is dropped.
    pub fn remove_influence(&mut self, pos: &Point)
        ensures
            final(self).tile_to_influence@ == old(self).tile_to_influence@.remove(*pos),
            influence_sets(final(self).settlement_influence@) == if old(self).tile_to_influence@.contains_key(*pos) {
                zones_released(
                    influence_sets(old(self).settlement_influence@),
                    old(self).tile_to_influence@[*pos],
                    *pos,
                )
            } else {
                influence_sets(old(self).settlement_influence@)
            },
            final(self).tile_to_province == old(self).tile_to_province,
            final(self).province_tiles == old(self).province_tiles,
            final(self).settlement_to_province == old(self).settlement_to_province,
            final(self).province_settlements == old(self).province_settlements,
            old(self).influence_consistent() ==> final(self).influence_consistent(),
            old(self).consistent() ==> final(self).consistent(),
    {
        let ghost zones0 = influence_sets(self.settlement_influence@);
        if let Some(settlement_id) = self.tile_to_influence.remove(pos) {
            if let Some(mut tiles) = self.settlement_influence.remove(&settlement_id) {
                tiles.remove(pos);
                if !tiles.is_empty() {
                    self.settlement_influence.insert(settlement_id, tiles);
                }
            }
            proof {
                assert(influence_sets(self.settlement_influence@) =~= zones_released(
                    zones0,
                    settlement_id,
                    *pos,
                ));
            }
        } else {
            assert(influence_sets(self.settlement_influence@) =~= zones0);
        }
        proof {
            if old(self).influence_consistent() {
                let zones = influence_sets(self.settlement_influence@);
                let holders = self.tile_to_influence@;
                assert forall|p: Point| #[trigger] holders.contains_key(p) implies in_zone(
                    zones,
                    holders[p],
                    p,
                ) by {
                    let o = old(self).tile_to_influence@[p];
                    assert(in_zone(zones0, o, p));
                    assert(zones0[o].remove(*pos).contains(p));
                }
                assert forall|s: u32, p: Point| #[trigger] in_zone(zones, s, p) implies holders.contains_key(
                    p,
                ) && holders[p] == s by {
                    assert(in_zone(zones0, s, p));
                }
            }
        }
    }
}

} // verus!
