use vstd::prelude::*;

verus! {

/// The kinds of goods a settlement stores. `Labour` is the renewable
/// work force: it lives in inventories but never counts against capacity.
#[derive(Debug, Clone, Copy, PartialEq, Eq, Hash, Structural)]
pub enum ResourceType {
    Wood,
    Stone,
    Grain,
    Labour,
}

/// Every resource type, in the order in which a `ResourceMap` is walked.
pub open spec fn resource_order() -> Seq<ResourceType> {
    seq![ResourceType::Wood, ResourceType::Stone, ResourceType::Grain, ResourceType::Labour]
}

/// Every resource type, in the order in which a `ResourceMap` is walked.
pub fn all_resources() -> (r: [ResourceType; 4])
    ensures
        r@ == resource_order(),
{
    [ResourceType::Wood, ResourceType::Stone, ResourceType::Grain, ResourceType::Labour]
}

/// A finite map from resource type to an amount. At most one entry per
/// resource type; an entry may hold the amount 0 (it is then still present).
#[derive(Debug, Clone, Copy)]
pub struct ResourceMap {
    wood: Option<u32>,
    stone: Option<u32>,
    grain: Option<u32>,
    labour: Option<u32>,
}

impl ResourceMap {
    /// The entry stored for `r`, if any.
    pub closed spec fn at(self, r: ResourceType) -> Option<u32> {
        match r {
            ResourceType::Wood => self.wood,
            ResourceType::Stone => self.stone,
            ResourceType::Grain => self.grain,
            ResourceType::Labour => self.labour,
        }
    }

    /// The amount stored for `r`, an absent entry counting as zero.
    pub open spec fn amount(self, r: ResourceType) -> nat {
        match self.at(r) {
            Some(v) => v as nat,
            None => 0,
        }
    }

    pub open spec fn has(self, r: ResourceType) -> bool {
        self.at(r) is Some
    }

    pub open spec fn empty_map(self) -> bool {
        forall|r: ResourceType| !#[trigger] self.has(r)
    }

    /// The number of entries.
    pub open spec fn count(self) -> nat {
        (if self.has(ResourceType::Wood) { 1nat } else { 0nat }) + (if self.has(
            ResourceType::Stone,
        ) {
            1nat
        } else {
            0nat
        }) + (if self.has(ResourceType::Grain) {
            1nat
        } else {
            0nat
        }) + (if self.has(ResourceType::Labour) {
            1nat
        } else {
            0nat
        })
    }

    /// Sum of the stored amounts of everything but labour.
    pub open spec fn material_total(self) -> nat {
        self.amount(ResourceType::Wood) + self.amount(ResourceType::Stone) + self.amount(
            ResourceType::Grain,
        )
    }

    /// `self` with the entry for `r` set to `v`.
    pub closed spec fn set(self, r: ResourceType, v: u32) -> ResourceMap {
        match r {
            ResourceType::Wood => ResourceMap { wood: Some(v), ..self },
            ResourceType::Stone => ResourceMap { stone: Some(v), ..self },
            ResourceType::Grain => ResourceMap { grain: Some(v), ..self },
            ResourceType::Labour => ResourceMap { labour: Some(v), ..self },
        }
    }

    pub broadcast proof fn lemma_set(m: ResourceMap, r: ResourceType, v: u32, q: ResourceType)
        ensures
            #[trigger] m.set(r, v).at(q) == if q == r {
                Some(v)
            } else {
                m.at(q)
            },
    {
    }

    /// `self` without an entry for `r`.
    pub closed spec fn unset(self, r: ResourceType) -> ResourceMap {
        match r {
            ResourceType::Wood => ResourceMap { wood: None, ..self },
            ResourceType::Stone => ResourceMap { stone: None, ..self },
            ResourceType::Grain => ResourceMap { grain: None, ..self },
            ResourceType::Labour => ResourceMap { labour: None, ..self },
        }
    }

    pub broadcast proof fn lemma_unset(m: ResourceMap, r: ResourceType, q: ResourceType)
        ensures
            #[trigger] m.unset(r).at(q) == if q == r {
                None
            } else {
                m.at(q)
            },
    {
    }

    /// The map whose entry for each resource `r` is `f(r)`.
    pub closed spec fn from_entries(f: spec_fn(ResourceType) -> Option<u32>) -> ResourceMap {
        ResourceMap {
            wood: f(ResourceType::Wood),
            stone: f(ResourceType::Stone),
            grain: f(ResourceType::Grain),
            labour: f(ResourceType::Labour),
        }
    }

    pub broadcast proof fn lemma_from_entries(f: spec_fn(ResourceType) -> Option<u32>, q: ResourceType)
        ensures
            #[trigger] ResourceMap::from_entries(f).at(q) == f(q),
    {
    }

    /// `self` and `other` agree on every resource but `r`.
    pub open spec fn same_except(self, other: ResourceMap, r: ResourceType) -> bool {
        forall|q: ResourceType| q != r ==> #[trigger] self.at(q) == other.at(q)
    }

    /// Two maps with the same entries are the same map.
    pub proof fn lemma_ext(a: ResourceMap, b: ResourceMap)
        requires
            forall|r: ResourceType| #[trigger] a.at(r) == b.at(r),
        ensures
            a == b,
    {
        assert(a.at(ResourceType::Wood) == b.at(ResourceType::Wood));
        assert(a.at(ResourceType::Stone) == b.at(ResourceType::Stone));
        assert(a.at(ResourceType::Grain) == b.at(ResourceType::Grain));
        assert(a.at(ResourceType::Labour) == b.at(ResourceType::Labour));
    }

    /// The map with no entry.
    pub closed spec fn empty() -> ResourceMap {
        ResourceMap { wood: None, stone: None, grain: None, labour: None }
    }

    pub broadcast proof fn lemma_empty(r: ResourceType)
        ensures
            #[trigger] ResourceMap::empty().at(r) == None::<u32>,
    {
    }

    pub fn new() -> (m: ResourceMap)
        ensures
            forall|r: ResourceType| #[trigger] m.at(r) == None::<u32>,
            m == ResourceMap::empty(),
    {
        ResourceMap { wood: None, stone: None, grain: None, labour: None }
    }

    pub fn get(&self, r: &ResourceType) -> (o: Option<&u32>)
        ensures
            match o {
                Some(v) => self.at(*r) == Some(*v),
                None => self.at(*r) is None,
            },
    {
        match r {
            ResourceType::Wood => self.wood.as_ref(),
            ResourceType::Stone => self.stone.as_ref(),
            ResourceType::Grain => self.grain.as_ref(),
            ResourceType::Labour => self.labour.as_ref(),
        }
    }

    /// The stored amount, zero when there is no entry.
    pub fn amount_of(&self, r: ResourceType) -> (v: u32)
        ensures
            v == self.amount(r),
    {
        match self.get(&r) {
            Some(v) => *v,
            None => 0,
        }
    }

    pub fn contains_key(&self, r: &ResourceType) -> (b: bool)
        ensures
            b == self.has(*r),
    {
        self.get(r).is_some()
    }

    /// Sets the entry for `r`, returning the previous one.
    pub fn insert(&mut self, r: ResourceType, v: u32) -> (prev: Option<u32>)
        ensures
            final(self).at(r) == Some(v),
            final(self).same_except(*old(self), r),
            prev == old(self).at(r),
    {
        let prev = self.slot(r);
        self.set_slot(r, Some(v));
        prev
    }

    /// Drops the entry for `r`, returning it.
    pub fn remove(&mut self, r: &ResourceType) -> (prev: Option<u32>)
        ensures
            final(self).at(*r) is None,
            final(self).same_except(*old(self), *r),
            prev == old(self).at(*r),
    {
        let prev = self.slot(*r);
        self.set_slot(*r, None);
        prev
    }

    pub fn is_empty(&self) -> (b: bool)
        ensures
            b == self.empty_map(),
    {
        let b = self.wood.is_none() && self.stone.is_none() && self.grain.is_none()
            && self.labour.is_none();
        proof {
            if !b {
                if self.wood.is_some() {
                    assert(self.has(ResourceType::Wood));
                } else if self.stone.is_some() {
                    assert(self.has(ResourceType::Stone));
                } else if self.grain.is_some() {
                    assert(self.has(ResourceType::Grain));
                } else {
                    assert(self.has(ResourceType::Labour));
                }
            }
        }
        b
    }

    pub fn len(&self) -> (n: usize)
        ensures
            n == self.count(),
    {
        let mut n: usize = 0;
        if self.wood.is_some() {
            n = n + 1;
        }
        if self.stone.is_some() {
            n = n + 1;
        }
        if self.grain.is_some() {
            n = n + 1;
        }
        if self.labour.is_some() {
            n = n + 1;
        }
        n
    }

    /// The entries, walked in `resource_order()`.
    pub fn entries(&self) -> (v: Vec<(ResourceType, u32)>)
        ensures
            forall|i: int|
                0 <= i < v.len() ==> self.at(#[trigger] v[i].0) == Some(v[i].1),
            forall|r: ResourceType|
                #[trigger] self.has(r) ==> exists|i: int| 0 <= i < v.len() && v[i].0 == r,
            v.len() == self.count(),
    {
        let mut v: Vec<(ResourceType, u32)> = Vec::new();
        if let Some(x) = self.wood {
            v.push((ResourceType::Wood, x));
        }
        let ghost n1 = v.len();
        if let Some(x) = self.stone {
            v.push((ResourceType::Stone, x));
        }
        let ghost n2 = v.len();
        if let Some(x) = self.grain {
            v.push((ResourceType::Grain, x));
        }
        let ghost n3 = v.len();
        if let Some(x) = self.labour {
            v.push((ResourceType::Labour, x));
        }
        proof {
            assert forall|r: ResourceType| #[trigger] self.has(r) implies exists|i: int|
                0 <= i < v.len() && v[i].0 == r by {
                match r {
                    ResourceType::Wood => assert(v[0].0 == r),
                    ResourceType::Stone => assert(v[n1 as int].0 == r),
                    ResourceType::Grain => assert(v[n2 as int].0 == r),
                    ResourceType::Labour => assert(v[n3 as int].0 == r),
                }
            }
        }
        v
    }

    fn slot(&self, r: ResourceType) -> (o: Option<u32>)
        ensures
            o == self.at(r),
    {
        match r {
            ResourceType::Wood => self.wood,
            ResourceType::Stone => self.stone,
            ResourceType::Grain => self.grain,
            ResourceType::Labour => self.labour,
        }
    }

    fn set_slot(&mut self, r: ResourceType, o: Option<u32>)
        ensures
            final(self).at(r) == o,
            final(self).same_except(*old(self), r),
    {
        match r {
            ResourceType::Wood => self.wood = o,
            ResourceType::Stone => self.stone = o,
            ResourceType::Grain => self.grain = o,
            ResourceType::Labour => self.labour = o,
        }
    }
}


/// A settlement's store of goods with a capacity for everything but labour.
#[derive(Debug)]
pub struct ResourceInventory {
    pub resources: ResourceMap,
    pub max_capacity: u32,
}

impl ResourceInventory {
    /// The stored amount that counts against capacity: all but labour.
    pub open spec fn total(self) -> nat {
        self.resources.material_total()
    }

    /// The store holds no more than its capacity.
    pub open spec fn wf(self) -> bool {
        self.total() <= self.max_capacity
    }

    /// Free room left for goods that count against capacity.
    pub open spec fn space(self) -> nat {
        if self.total() <= self.max_capacity {
            (self.max_capacity - self.total()) as nat
        } else {
            0
        }
    }

    pub fn new(max_capacity: u32) -> (inv: ResourceInventory)
        ensures
            inv.max_capacity == max_capacity,
            inv.resources.empty_map(),
            inv.total() == 0,
            inv.wf(),
    {
        ResourceInventory { resources: ResourceMap::new(), max_capacity }
    }

    /// Sum of everything stored but labour.
    pub fn total_amount(&self) -> (t: u32)
        requires
            self.total() <= u32::MAX,
        ensures
            t == self.total(),
    {
        let w = self.resources.amount_of(ResourceType::Wood);
        let s = self.resources.amount_of(ResourceType::Stone);
        let g = self.resources.amount_of(ResourceType::Grain);
        w + s + g
    }

    /// Stores as much of `amount` as the free room allows. When the store
    /// is full nothing changes and no entry is created.
    pub fn add(&mut self, res_type: ResourceType, amount: u32)
        requires
            old(self).wf(),
            res_type == ResourceType::Labour ==> old(self).resources.amount(res_type) + min_nat(
                amount as nat,
                old(self).space(),
            ) <= u32::MAX,
        ensures
            *final(self) == added(*old(self), res_type, amount),
            final(self).wf(),
            final(self).resources.amount(res_type) == old(self).resources.amount(res_type) + (if (amount as nat)
                <= old(self).space() {
                amount as nat
            } else {
                old(self).space()
            }),
            final(self).resources.same_except(old(self).resources, res_type),
    {
        proof {
            law_add_keeps_and_grows(*old(self), res_type, amount);
        }
        let available_space = self.max_capacity - self.total_amount();
        if available_space == 0 {
            return;
        }
        let amount_to_add = if amount < available_space {
            amount
        } else {
            available_space
        };
        let current = self.resources.amount_of(res_type);
        let ghost before = self.resources;
        self.resources.insert(res_type, current + amount_to_add);
        proof {
            let target = before.set(res_type, (current + amount_to_add) as u32);
            assert forall|q: ResourceType| #[trigger] self.resources.at(q) == target.at(q) by {
                ResourceMap::lemma_set(before, res_type, (current + amount_to_add) as u32, q);
            }
            ResourceMap::lemma_ext(self.resources, target);
        }
    }

    /// Adds every entry of `items` in turn, walking `resource_order()`.
    pub(crate) fn add_all(&mut self, items: &ResourceMap)
        requires
            old(self).wf(),
            old(self).resources.amount(ResourceType::Labour) + items.amount(ResourceType::Labour)
                <= u32::MAX,
        ensures
            *final(self) == added_all(*old(self), *items),
            final(self).wf(),
    {
        broadcast use ResourceMap::lemma_set;

        if let Some(a) = items.get(&ResourceType::Wood) {
            self.add(ResourceType::Wood, *a);
        }
        if let Some(a) = items.get(&ResourceType::Stone) {
            self.add(ResourceType::Stone, *a);
        }
        if let Some(a) = items.get(&ResourceType::Grain) {
            self.add(ResourceType::Grain, *a);
        }
        if let Some(a) = items.get(&ResourceType::Labour) {
            self.add(ResourceType::Labour, *a);
        }
    }

    /// Takes `amount` of `res_type` out when at least that much is stored;
    /// otherwise changes nothing and answers false.
    pub fn consume(&mut self, res_type: ResourceType, amount: u32) -> (ok: bool)
        ensures
            final(self).max_capacity == old(self).max_capacity,
            ok == (old(self).resources.has(res_type) && old(self).resources.amount(res_type)
                >= amount),
            ok ==> {
                &&& final(self).resources.at(res_type) == Some(
                    (old(self).resources.amount(res_type) - amount) as u32,
                )
                &&& final(self).resources.same_except(old(self).resources, res_type)
            },
            !ok ==> final(self).resources == old(self).resources,
            old(self).wf() ==> final(self).wf(),
    {
        match self.resources.get(&res_type) {
            Some(current) => {
                let current = *current;
                if current >= amount {
                    self.resources.insert(res_type, current - amount);
                    true
                } else {
                    false
                }
            },
            None => false,
        }
    }
}

/// The store after `add(res, amount)`: when there is free room, the
/// entry for `res` grows by `amount` or by the free room, whichever is less.
pub open spec fn added(inv: ResourceInventory, res: ResourceType, amount: u32) -> ResourceInventory {
    if inv.space() == 0 {
        inv
    } else {
        ResourceInventory {
            resources: inv.resources.set(
                res,
                (inv.resources.amount(res) + min_nat(amount as nat, inv.space())) as u32,
            ),
            max_capacity: inv.max_capacity,
        }
    }
}

/// The store after adding the entry of `items` for `r`, if there is one.
pub open spec fn added_entry(inv: ResourceInventory, items: ResourceMap, r: ResourceType) -> ResourceInventory {
    match items.at(r) {
        Some(a) => added(inv, r, a),
        None => inv,
    }
}

/// The store after adding every entry of `items`, in `resource_order()`.
pub open spec fn added_all(inv: ResourceInventory, items: ResourceMap) -> ResourceInventory {
    added_entry(
        added_entry(
            added_entry(added_entry(inv, items, ResourceType::Wood), items, ResourceType::Stone),
            items,
            ResourceType::Grain,
        ),
        items,
        ResourceType::Labour,
    )
}

/// Adding keeps what was stored and grows it: the entry for `res` rises
/// by `amount` or by the free room, whichever is less (nothing when the
/// store is full), every other entry and the capacity stay, and for goods
/// other than labour the stored total rises by the same amount and stays
/// within capacity.
pub proof fn law_add_keeps_and_grows(inv: ResourceInventory, res: ResourceType, amount: u32)
    requires
        inv.wf(),
        res == ResourceType::Labour ==> inv.resources.amount(res) + (if (amount as nat) <= inv.space() {
            amount as nat
        } else {
            inv.space()
        }) <= u32::MAX,
    ensures
        added(inv, res, amount).resources.amount(res) == inv.resources.amount(res) + (if (amount as nat)
            <= inv.space() {
            amount as nat
        } else {
            inv.space()
        }),
        added(inv, res, amount).resources.same_except(inv.resources, res),
        added(inv, res, amount).max_capacity == inv.max_capacity,
        res != ResourceType::Labour ==> added(inv, res, amount).total() == inv.total() + (if (amount as nat)
            <= inv.space() {
            amount as nat
        } else {
            inv.space()
        }),
        added(inv, res, amount).wf(),
{
    broadcast use ResourceMap::lemma_set;

    if inv.space() > 0 {
        assert(inv.resources.amount(res) + inv.space() <= u32::MAX || res == ResourceType::Labour);
    }
}

pub open spec fn min_nat(a: nat, b: nat) -> nat {
    if a < b {
        a
    } else {
        b
    }
}

} // verus!
