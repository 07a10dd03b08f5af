use vstd::prelude::*;

use crate::domain::economy::resource::ResourceMap;
use crate::domain::economy::resource_allocation::{AllocationResult, DemandRequest};
use crate::domain::settlement::projects::{resolved, Project};

verus! {

broadcast use vstd::std_specs::hash::group_hash_axioms;

/// The projects a settlement is working on, in the order they were queued.
#[derive(Debug)]
pub struct ProjectManager {
    pub active_projects: Vec<Project>,
}

/// The completed projects of `s`, in order.
pub open spec fn finished(s: Seq<Project>) -> Seq<Project>
    decreases s.len(),
{
    if s.len() == 0 {
        Seq::empty()
    } else if s.last().done() {
        finished(s.drop_last()).push(s.last())
    } else {
        finished(s.drop_last())
    }
}

/// The projects of `s` that are not completed, in order.
pub open spec fn unfinished(s: Seq<Project>) -> Seq<Project>
    decreases s.len(),
{
    if s.len() == 0 {
        Seq::empty()
    } else if s.last().done() {
        unfinished(s.drop_last())
    } else {
        unfinished(s.drop_last()).push(s.last())
    }
}

/// The demand requests of the projects in `s` that still owe some
/// resource, in order.
pub open spec fn project_requests(s: Seq<Project>) -> Seq<DemandRequest>
    decreases s.len(),
{
    if s.len() == 0 {
        Seq::empty()
    } else if s.last().remaining_cost.needed_resources.empty_map() {
        project_requests(s.drop_last())
    } else {
        project_requests(s.drop_last()).push(
            DemandRequest { entity_id: s.last().id, demand: s.last().remaining_cost.needed_resources },
        )
    }
}

/// What `allocations` grants to consumer `id`.
pub open spec fn grants_for(allocations: Map<u32, ResourceMap>, id: u32) -> Option<ResourceMap> {
    if allocations.contains_key(id) {
        Some(allocations[id])
    } else {
        None
    }
}

impl ProjectManager {
    pub fn new() -> (m: ProjectManager)
        ensures
            m.active_projects@.len() == 0,
    {
        ProjectManager { active_projects: Vec::new() }
    }

    pub fn add_project(&mut self, project: Project)
        ensures
            final(self).active_projects@ == old(self).active_projects@.push(project),
    {
        self.active_projects.push(project);
    }

    /// One request per project that still owes resources, asking for all
    /// of it under the project's id.
    pub fn generate_requests(&self) -> (reqs: Vec<DemandRequest>)
        ensures
            reqs@ == project_requests(self.active_projects@),
    {
        let mut reqs: Vec<DemandRequest> = Vec::new();
        let mut i: usize = 0;
        while i < self.active_projects.len()
            invariant
                i <= self.active_projects@.len(),
                reqs@ == project_requests(self.active_projects@.take(i as int)),
            decreases self.active_projects.len() - i,
        {
            let request = self.active_projects[i].as_demand_request();
            proof {
                assert(self.active_projects@.take(i as int + 1).drop_last()
                    =~= self.active_projects@.take(i as int));
            }
            if !request.demand.is_empty() {
                reqs.push(request);
            }
            i = i + 1;
        }
        proof {
            assert(self.active_projects@.take(self.active_projects@.len() as int)
                =~= self.active_projects@);
        }
        reqs
    }

    /// Every project takes the grants made to its id and spends a turn.
    pub fn process_allocation(&mut self, allocations: &AllocationResult)
        ensures
            final(self).active_projects@.len() == old(self).active_projects@.len(),
            forall|i: int|
                0 <= i < old(self).active_projects@.len() ==> resolved(
                    #[trigger] old(self).active_projects@[i],
                    final(self).active_projects@[i],
                    grants_for(allocations@, old(self).active_projects@[i].id),
                ),
    {
        let mut i: usize = 0;
        while i < self.active_projects.len()
            invariant
                i <= self.active_projects@.len(),
                self.active_projects@.len() == old(self).active_projects@.len(),
                forall|j: int|
                    0 <= j < i ==> resolved(
                        #[trigger] old(self).active_projects@[j],
                        self.active_projects@[j],
                        grants_for(allocations@, old(self).active_projects@[j].id),
                    ),
                forall|j: int|
                    i <= j < self.active_projects@.len() ==> #[trigger] self.active_projects@[j]
                        == old(self).active_projects@[j],
            decreases self.active_projects.len() - i,
        {
            let id = self.active_projects[i].id;
            let grants = allocations.get(&id);
            let ghost before = self.active_projects@;
            self.active_projects[i].resolve_allocation(grants);
            proof {
                assert(grants_for(allocations@, id) == match grants {
                    Some(g) => Some(*g),
                    None => None::<ResourceMap>,
                });
                assert forall|j: int|
                    i + 1 <= j < self.active_projects@.len() implies #[trigger] self.active_projects@[j]
                    == old(self).active_projects@[j] by {
                    assert(self.active_projects@[j] == before[j]);
                }
                assert forall|j: int|
                    0 <= j < i + 1 implies resolved(
                    #[trigger] old(self).active_projects@[j],
                    self.active_projects@[j],
                    grants_for(allocations@, old(self).active_projects@[j].id),
                ) by {
                    if j < i {
                        assert(self.active_projects@[j] == before[j]);
                    }
                }
            }
            i = i + 1;
        }
    }

    /// Takes the completed projects out, keeping the others queued; both
    /// keep their order.
    pub fn extract_completed(&mut self) -> (completed: Vec<Project>)
        ensures
            completed@ == finished(old(self).active_projects@),
            final(self).active_projects@ == unfinished(old(self).active_projects@),
    {
        let ghost start = self.active_projects@;
        let mut completed: Vec<Project> = Vec::new();
        let mut i: usize = 0;
        while i < self.active_projects.len()
            invariant
                i <= self.active_projects@.len(),
                i + completed@.len() <= start.len(),
                self.active_projects@ == unfinished(start.take(i + completed@.len())) + start.skip(
                    i + completed@.len(),
                ),
                i == unfinished(start.take(i + completed@.len())).len(),
                completed@ == finished(start.take(i + completed@.len())),
            decreases self.active_projects.len() - i,
        {
            let ghost j = i + completed@.len();
            proof {
                assert(self.active_projects@[i as int] == start[j as int]);
                assert(start.take(j + 1).drop_last() =~= start.take(j as int));
                assert(start.take(j + 1).last() == start[j as int]);
            }
            if self.active_projects[i].is_completed() {
                let p = self.active_projects.remove(i);
                completed.push(p);
                proof {
                    assert(self.active_projects@ =~= unfinished(start.take(j + 1)) + start.skip(
                        j + 1,
                    ));
                }
            } else {
                proof {
                    assert(self.active_projects@ =~= unfinished(start.take(j + 1)) + start.skip(
                        j + 1,
                    ));
                }
                i = i + 1;
            }
        }
        proof {
            assert(start.take(start.len() as int) =~= start);
        }
        completed
    }
}

} // verus!
