use std::sync::Arc;
use vstd::prelude::*;

use crate::domain::economy::resource::ResourceType;
use crate::domain::settlement::projects::ProjectCost;
use crate::domain::settlement::stat::StatType;

verus! {

/// What a building does each turn with its workers.
#[derive(Debug, Clone)]
pub enum BuildingBehavior {
    /// Turns `inputs` into `outputs`, both given at full staffing.
    Production { inputs: Vec<(ResourceType, u32)>, outputs: Vec<(ResourceType, u32)> },
    /// Raises a settlement statistic.
    StatModifier { stat: StatType, base_amount: u32, per_worker_amount: u32 },
}

/// The shared, immutable blueprint of a kind of building.
#[derive(Debug)]
pub struct BuildingDefinition {
    pub id: String,
    pub name: String,
    pub tier: u8,
    pub max_workers: u32,
    pub behaviors: Vec<BuildingBehavior>,
    pub construction_cost: ProjectCost,
}

/// The first blueprint in `reg` whose id is `id`.
pub open spec fn lookup(reg: Seq<Arc<BuildingDefinition>>, id: Seq<char>) -> Option<
    BuildingDefinition,
>
    decreases reg.len(),
{
    if reg.len() == 0 {
        None
    } else if reg[0].id@ == id {
        Some(*reg[0])
    } else {
        lookup(reg.drop_first(), id)
    }
}

/// The registry of blueprints, keyed by blueprint id.
pub struct BuildingFactory {
    pub registry: Vec<Arc<BuildingDefinition>>,
}

/// `<str as PartialEq>::eq`: true exactly when both strings hold the same
/// characters.
#[verifier::external_body]
fn str_matches(a: &str, b: &str) -> (r: bool)
    ensures
        r == (a@ == b@),
{
    a == b
}

/// `<Arc<T> as Clone>::clone`: a new handle to the same blueprint.
#[verifier::external_body]
pub(crate) fn share(def: &Arc<BuildingDefinition>) -> (r: Arc<BuildingDefinition>)
    ensures
        r == *def,
{
    Arc::clone(def)
}

impl Default for BuildingFactory {
    fn default() -> (f: Self)
        ensures
            f.registry@.len() == 0,
    {
        BuildingFactory { registry: Vec::new() }
    }
}

proof fn lemma_lookup_index(reg: Seq<Arc<BuildingDefinition>>, id: Seq<char>, i: int)
    requires
        0 <= i < reg.len(),
        reg[i].id@ == id,
        forall|j: int| 0 <= j < i ==> reg[j].id@ != id,
    ensures
        lookup(reg, id) == Some(*reg[i]),
    decreases i,
{
    if i > 0 {
        lemma_lookup_index(reg.drop_first(), id, i - 1);
    }
}

proof fn lemma_lookup_none(reg: Seq<Arc<BuildingDefinition>>, id: Seq<char>)
    requires
        forall|j: int| 0 <= j < reg.len() ==> reg[j].id@ != id,
    ensures
        lookup(reg, id) is None,
    decreases reg.len(),
{
    if reg.len() > 0 {
        lemma_lookup_none(reg.drop_first(), id);
    }
}

impl BuildingFactory {
    /// The blueprint registered under `id`.
    pub open spec fn blueprint(&self, id: Seq<char>) -> Option<BuildingDefinition> {
        lookup(self.registry@, id)
    }

    /// Position of the first blueprint with id `id`, if any.
    fn position_of(&self, id: &str) -> (p: Option<usize>)
        ensures
            match p {
                Some(i) => {
                    &&& i < self.registry@.len()
                    &&& self.registry@[i as int].id@ == id@
                    &&& forall|j: int| 0 <= j < i ==> self.registry@[j].id@ != id@
                },
                None => forall|j: int|
                    0 <= j < self.registry@.len() ==> self.registry@[j].id@ != id@,
            },
    {
        let mut i: usize = 0;
        while i < self.registry.len()
            invariant
                i <= self.registry@.len(),
                forall|j: int| 0 <= j < i ==> self.registry@[j].id@ != id@,
            decreases self.registry.len() - i,
        {
            if str_matches(self.registry[i].id.as_str(), id) {
                return Some(i);
            }
            i = i + 1;
        }
        None
    }

    /// Registers `definition` under its id, replacing a blueprint with the
    /// same id.
    pub fn register(&mut self, definition: BuildingDefinition)
        ensures
            final(self).blueprint(definition.id@) == Some(definition),
            forall|other: Seq<char>|
                other != definition.id@ ==> #[trigger] final(self).blueprint(other) == old(
                    self,
                ).blueprint(other),
    {
        let ghost key = definition.id@;
        let pos = self.position_of(definition.id.as_str());
        let def = Arc::new(definition);
        match pos {
            Some(i) => {
                let ghost before = self.registry@;
                self.registry.set(i, def);
                proof {
                    lemma_lookup_index(self.registry@, key, i as int);
                    assert forall|other: Seq<char>|
                        other != key implies #[trigger] lookup(self.registry@, other) == lookup(
                            before,
                            other,
                        ) by {
                        lemma_lookup_replaced(before, self.registry@, i as int, other);
                    }
                }
            },
            None => {
                let ghost before = self.registry@;
                self.registry.push(def);
                proof {
                    lemma_lookup_index(self.registry@, key, before.len() as int);
                    assert forall|other: Seq<char>|
                        other != key implies #[trigger] lookup(self.registry@, other) == lookup(
                            before,
                            other,
                        ) by {
                        lemma_lookup_pushed(before, self.registry@, other);
                    }
                }
            },
        }
    }

    /// A shared handle to the blueprint registered under `id`.
    pub fn get_blueprint(&self, id: &str) -> (r: Option<Arc<BuildingDefinition>>)
        ensures
            match r {
                Some(d) => self.blueprint(id@) == Some(*d),
                None => self.blueprint(id@) is None,
            },
    {
        match self.position_of(id) {
            Some(i) => {
                proof {
                    lemma_lookup_index(self.registry@, id@, i as int);
                }
                Some(share(&self.registry[i]))
            },
            None => {
                proof {
                    lemma_lookup_none(self.registry@, id@);
                }
                None
            },
        }
    }
}

proof fn lemma_lookup_replaced(
    before: Seq<Arc<BuildingDefinition>>,
    after: Seq<Arc<BuildingDefinition>>,
    i: int,
    other: Seq<char>,
)
    requires
        0 <= i < before.len(),
        after.len() == before.len(),
        forall|j: int| 0 <= j < before.len() && j != i ==> after[j] == before[j],
        after[i].id@ == before[i].id@,
        before[i].id@ != other,
    ensures
        lookup(after, other) == lookup(before, other),
    decreases before.len(),
{
    if before.len() > 0 {
        if i > 0 {
            assert(after[0] == before[0]);
            lemma_lookup_replaced(before.drop_first(), after.drop_first(), i - 1, other);
        } else {
            assert(after.drop_first() =~= before.drop_first());
        }
    }
}

proof fn lemma_lookup_pushed(
    before: Seq<Arc<BuildingDefinition>>,
    after: Seq<Arc<BuildingDefinition>>,
    other: Seq<char>,
)
    requires
        after.len() == before.len() + 1,
        forall|j: int| 0 <= j < before.len() ==> after[j] == before[j],
        after[before.len() as int].id@ != other,
    ensures
        lookup(after, other) == lookup(before, other),
    decreases before.len(),
{
    if before.len() > 0 {
        assert(after[0] == before[0]);
        lemma_lookup_pushed(before.drop_first(), after.drop_first(), other);
    } else {
        assert(after[0].id@ != other);
        assert(after.drop_first().len() == 0);
        assert(lookup(after.drop_first(), other) is None);
    }
}

} // verus!
