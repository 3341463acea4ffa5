//! The registry of data cells and of the principals allowed to register them.
use vstd::prelude::*;
use crate::types::{CellRegistration, PrincipalId, QueryError};

verus! {

/// Position of the last registration for `id` in `cells`, or -1 when there is none.
pub open spec fn cell_index(cells: Seq<CellRegistration>, id: Seq<char>) -> int
    decreases cells.len(),
{
    if cells.len() == 0 {
        -1
    } else if cells.last().cell_id@ == id {
        cells.len() - 1
    } else {
        cell_index(cells.drop_last(), id)
    }
}

/// No two registrations share an identity.
pub open spec fn ids_distinct(cells: Seq<CellRegistration>) -> bool {
    forall|i: int, j: int|
        0 <= i < cells.len() && 0 <= j < cells.len() && i != j ==> cells[i].cell_id@ != cells[j].cell_id@
}

pub proof fn lemma_cell_index(cells: Seq<CellRegistration>, id: Seq<char>)
    ensures
        -1 <= cell_index(cells, id) < cells.len(),
        cell_index(cells, id) >= 0 ==> cells[cell_index(cells, id)].cell_id@ == id,
        cell_index(cells, id) == -1 <==> forall|i: int| 0 <= i < cells.len() ==> cells[i].cell_id@ != id,
    decreases cells.len(),
{
    if cells.len() > 0 {
        lemma_cell_index(cells.drop_last(), id);
        if cells.last().cell_id@ != id && cell_index(cells, id) == -1 {
            assert forall|i: int| 0 <= i < cells.len() implies cells[i].cell_id@ != id by {
                if i < cells.len() - 1 {
                    assert(cells.drop_last()[i] == cells[i]);
                }
            }
        }
    }
}

/// Under distinct identities, the registration found for `id` is the one at `k`.
pub proof fn lemma_cell_index_at(cells: Seq<CellRegistration>, id: Seq<char>, k: int)
    requires
        ids_distinct(cells),
        0 <= k < cells.len(),
        cells[k].cell_id@ == id,
    ensures
        cell_index(cells, id) == k,
{
    lemma_cell_index(cells, id);
}

/// What the registry hands over across an upgrade.
pub struct CoordinationSnapshot {
    pub cells: Vec<CellRegistration>,
    pub managers: Vec<PrincipalId>,
}

/// Registry of cells keyed by identity, with the set of authorized managers.
pub struct Coordination {
    cells: Vec<CellRegistration>,
    managers: Vec<PrincipalId>,
}

impl Coordination {
    pub closed spec fn registrations(&self) -> Seq<CellRegistration> {
        self.cells@
    }

    pub closed spec fn managers(&self) -> Seq<PrincipalId> {
        self.managers@
    }

    pub open spec fn wf(&self) -> bool {
        ids_distinct(self.registrations())
    }

    pub open spec fn registered(&self, id: Seq<char>) -> bool {
        cell_index(self.registrations(), id) >= 0
    }

    pub open spec fn registration(&self, id: Seq<char>) -> CellRegistration {
        self.registrations()[cell_index(self.registrations(), id)]
    }

    pub open spec fn authorized(&self, caller: Seq<char>) -> bool {
        exists|i: int| 0 <= i < self.managers().len() && self.managers()[i]@ == caller
    }

    /// Every identity keeps its registration, but `id`'s.
    pub open spec fn same_except(&self, other: &Coordination, id: Seq<char>) -> bool {
        forall|x: Seq<char>|
            x != id ==> (#[trigger] self.registered(x) == other.registered(x) && (self.registered(x)
                ==> self.registration(x) == other.registration(x)))
    }

    /// An empty registry with no authorized manager.
    pub fn new() -> (r: Coordination)
        ensures
            r.wf(),
            r.registrations().len() == 0,
            r.managers().len() == 0,
    {
        Coordination { cells: Vec::new(), managers: Vec::new() }
    }

    /// Position of `id`'s registration.
    fn find_cell(&self, id: &PrincipalId) -> (r: Option<usize>)
        ensures
            match r {
                Some(i) => i as int == cell_index(self.registrations(), id@),
                None => cell_index(self.registrations(), id@) == -1,
            },
    {
        let mut i: usize = self.cells.len();
        assert(self.cells@.subrange(0, i as int) =~= self.cells@);
        while i > 0
            invariant
                i <= self.cells@.len(),
                cell_index(self.cells@, id@) == cell_index(self.cells@.subrange(0, i as int), id@),
            decreases i,
        {
            let ghost pre = self.cells@.subrange(0, i as int);
            assert(pre.drop_last() =~= self.cells@.subrange(0, i - 1));
            if self.cells[i - 1].cell_id.same_as(id) {
                return Some(i - 1);
            }
            i -= 1;
        }
        None
    }

    /// Stores `reg`, replacing any registration with the same identity.
    fn store_registration(&mut self, reg: CellRegistration)
        requires
            old(self).wf(),
        ensures
            final(self).wf(),
            final(self).managers() == old(self).managers(),
            final(self).registered(reg.cell_id@),
            final(self).registration(reg.cell_id@) == reg,
            final(self).same_except(old(self), reg.cell_id@),
    {
        let ghost old_cells = self.cells@;
        let ghost id = reg.cell_id@;
        proof {
            lemma_cell_index(old_cells, id);
        }
        let pos: usize;
        match self.find_cell(&reg.cell_id) {
            Some(i) => {
                self.cells.set(i, reg);
                pos = i;
            },
            None => {
                pos = self.cells.len();
                self.cells.push(reg);
            },
        }
        proof {
            let new_cells = self.cells@;
            assert forall|a: int, b: int|
                0 <= a < new_cells.len() && 0 <= b < new_cells.len() && a != b
                    implies new_cells[a].cell_id@ != new_cells[b].cell_id@ by {
                if a != pos && b != pos {
                    assert(new_cells[a] == old_cells[a] && new_cells[b] == old_cells[b]);
                } else if a == pos {
                    assert(new_cells[b] == old_cells[b]);
                } else {
                    assert(new_cells[a] == old_cells[a]);
                }
            }
            lemma_cell_index_at(new_cells, id, pos as int);
            assert forall|x: Seq<char>| x != id implies #[trigger] self.registered(x) == old(self).registered(x)
                && (self.registered(x) ==> self.registration(x) == old(self).registration(x)) by {
                lemma_cell_index(old_cells, x);
                lemma_cell_index(new_cells, x);
                let k = cell_index(old_cells, x);
                if k >= 0 {
                    assert(new_cells[k] == old_cells[k]);
                    lemma_cell_index_at(new_cells, x, k);
                } else {
                    assert forall|j: int| 0 <= j < new_cells.len() implies new_cells[j].cell_id@ != x by {
                        if j != pos {
                            assert(new_cells[j] == old_cells[j]);
                        }
                    }
                }
            }
        }
    }
    /// A registry holding `cells`; a later registration of an identity
    /// replaces an earlier one.
    pub fn init(cells: Vec<CellRegistration>) -> (r: Coordination)
        ensures
            r.wf(),
            r.managers().len() == 0,
            forall|id: Seq<char>|
                #[trigger] r.registered(id) == (cell_index(cells@, id) >= 0) && (r.registered(id)
                    ==> r.registration(id) == cells@[cell_index(cells@, id)]),
    {
        let mut r = Coordination::new();
        let mut rest = cells;
        let ghost all = rest@;
        let ghost mut taken: int = 0;
        assert(all.subrange(0, 0).len() == 0);
        while rest.len() > 0
            invariant
                r.wf(),
                r.managers().len() == 0,
                0 <= taken <= all.len(),
                rest@ == all.subrange(taken, all.len() as int),
                forall|id: Seq<char>|
                    #[trigger] r.registered(id) == (cell_index(all.subrange(0, taken), id) >= 0) && (
                    r.registered(id) ==> r.registration(id) == all.subrange(0, taken)[cell_index(
                        all.subrange(0, taken),
                        id,
                    )]),
            decreases rest@.len(),
        {
            let reg = rest.remove(0);
            let ghost prev = r;
            let ghost id0 = reg.cell_id@;
            r.store_registration(reg);
            proof {
                let next = all.subrange(0, taken + 1);
                assert(next.drop_last() =~= all.subrange(0, taken));
                assert(next.last() == reg);
                assert forall|id: Seq<char>|
                    #[trigger] r.registered(id) == (cell_index(next, id) >= 0) && (r.registered(id)
                        ==> r.registration(id) == next[cell_index(next, id)]) by {
                    if id != id0 {
                        assert(prev.registered(id) == r.registered(id));
                        lemma_cell_index(all.subrange(0, taken), id);
                        if cell_index(next, id) >= 0 {
                            assert(next[cell_index(next, id)] == all.subrange(0, taken)[cell_index(
                                all.subrange(0, taken),
                                id,
                            )]);
                        }
                    }
                }
                taken = taken + 1;
                assert(rest@ =~= all.subrange(taken, all.len() as int));
            }
        }
        assert(all.subrange(0, taken) =~= all);
        r
    }

    /// Registers `registration` on behalf of `caller`, replacing any earlier
    /// registration of the same cell. Only authorized managers may register.
    pub fn register_cell(&mut self, caller: &PrincipalId, registration: CellRegistration) -> (r: Result<
        (),
        QueryError,
    >)
        requires
            old(self).wf(),
        ensures
            final(self).wf(),
            final(self).managers() == old(self).managers(),
            r is Ok <==> old(self).authorized(caller@),
            r is Ok ==> final(self).registered(registration.cell_id@) && final(self).registration(
                registration.cell_id@,
            ) == registration && final(self).same_except(old(self), registration.cell_id@),
            r is Err ==> (r matches Err(QueryError::RegistrationFailed(_)) && *final(self) == *old(self)),
    {
        if !self.is_authorized_manager(caller) {
            return Err(QueryError::RegistrationFailed("caller is not an authorized manager".to_string()));
        }
        self.store_registration(registration);
        Ok(())
    }

    /// Allows `manager` to register cells.
    pub fn add_authorized_manager(&mut self, manager: PrincipalId)
        requires
            old(self).wf(),
        ensures
            final(self).wf(),
            final(self).registrations() == old(self).registrations(),
            final(self).authorized(manager@),
            forall|x: Seq<char>|
                x != manager@ ==> #[trigger] final(self).authorized(x) == old(self).authorized(x),
    {
        let ghost m = manager@;
        if !self.is_authorized_manager(&manager) {
            self.managers.push(manager);
            proof {
                let n = self.managers@.len() - 1;
                assert(self.managers()[n]@ == m);
                assert(self.authorized(m));
                assert forall|x: Seq<char>| x != m implies #[trigger] self.authorized(x) == old(
                    self,
                ).authorized(x) by {
                    if old(self).authorized(x) {
                        let i = choose|i: int|
                            0 <= i < old(self).managers().len() && old(self).managers()[i]@ == x;
                        assert(self.managers()[i] == old(self).managers()[i]);
                    }
                }
            }
        }
    }

    /// Whether `caller` may register cells.
    pub fn is_authorized_manager(&self, caller: &PrincipalId) -> (r: bool)
        ensures
            r == self.authorized(caller@),
    {
        let mut i: usize = 0;
        while i < self.managers.len()
            invariant
                i <= self.managers@.len(),
                forall|j: int| 0 <= j < i ==> self.managers@[j]@ != caller@,
            decreases self.managers@.len() - i,
        {
            if self.managers[i].same_as(caller) {
                assert(self.managers()[i as int]@ == caller@);
                return true;
            }
            i += 1;
        }
        false
    }

    /// Whether a cell with identity `id` is registered.
    pub fn is_registered(&self, id: &PrincipalId) -> (r: bool)
        ensures
            r == self.registered(id@),
    {
        self.find_cell(id).is_some()
    }

    /// The registration of the cell `id`, if any.
    pub fn lookup(&self, id: &PrincipalId) -> (r: Option<&CellRegistration>)
        ensures
            match r {
                Some(reg) => self.registered(id@) && *reg == self.registration(id@),
                None => !self.registered(id@),
            },
    {
        proof {
            lemma_cell_index(self.registrations(), id@);
        }
        match self.find_cell(id) {
            Some(i) => Some(&self.cells[i]),
            None => None,
        }
    }

    /// Number of registered cells (saturating at `u32::MAX`).
    pub fn get_registered_cell_count(&self) -> (r: u32)
        ensures
            r as int == if self.registrations().len() <= u32::MAX {
                self.registrations().len() as int
            } else {
                u32::MAX as int
            },
    {
        if self.cells.len() <= u32::MAX as usize {
            self.cells.len() as u32
        } else {
            u32::MAX
        }
    }

    /// Whether every cell of `cell_ids` is registered.
    pub fn validate_cell_access(&self, cell_ids: &Vec<PrincipalId>) -> (r: bool)
        ensures
            r == forall|k: int| 0 <= k < cell_ids@.len() ==> self.registered(#[trigger] cell_ids@[k]@),
    {
        self.first_unavailable(cell_ids).is_none()
    }

    /// Position of the first cell of `cell_ids` that is not registered.
    pub fn first_unavailable(&self, cell_ids: &Vec<PrincipalId>) -> (r: Option<usize>)
        ensures
            match r {
                Some(k) => k < cell_ids@.len() && !self.registered(cell_ids@[k as int]@) && forall|j: int|
                    0 <= j < k ==> self.registered(#[trigger] cell_ids@[j]@),
                None => forall|k: int| 0 <= k < cell_ids@.len() ==> self.registered(#[trigger] cell_ids@[k]@),
            },
    {
        let mut i: usize = 0;
        while i < cell_ids.len()
            invariant
                i <= cell_ids@.len(),
                forall|j: int| 0 <= j < i ==> self.registered(#[trigger] cell_ids@[j]@),
            decreases cell_ids@.len() - i,
        {
            if !self.is_registered(&cell_ids[i]) {
                return Some(i);
            }
            i += 1;
        }
        None
    }

    /// Checks the targets of a query: there must be at least one, and every
    /// one must be registered; the first that is not is reported.
    pub fn check_targets(&self, cell_ids: &Vec<PrincipalId>) -> (r: Result<(), QueryError>)
        ensures
            r is Ok <==> cell_ids@.len() > 0 && forall|k: int|
                0 <= k < cell_ids@.len() ==> self.registered(#[trigger] cell_ids@[k]@),
            cell_ids@.len() == 0 ==> r matches Err(QueryError::InvalidQuery(_)),
            cell_ids@.len() > 0 && r is Err ==> (r matches Err(QueryError::CellUnavailable(id)) && exists|k: int|
                0 <= k < cell_ids@.len() && cell_ids@[k]@ == id@ && !self.registered(id@) && forall|j: int|
                    0 <= j < k ==> self.registered(#[trigger] cell_ids@[j]@)),
    {
        if cell_ids.len() == 0 {
            return Err(QueryError::InvalidQuery("a query needs at least one target cell".to_string()));
        }
        match self.first_unavailable(cell_ids) {
            Some(k) => Err(QueryError::CellUnavailable(cell_ids[k].duplicate())),
            None => Ok(()),
        }
    }
    /// Sum of the declared typical response times of the registered cells among `ids`.
    pub open spec fn latency_total(&self, ids: Seq<PrincipalId>) -> int
        decreases ids.len(),
    {
        if ids.len() == 0 {
            0
        } else {
            self.latency_total(ids.drop_last()) + if self.registered(ids.last()@) {
                self.registration(ids.last()@).performance_hints.typical_response_time_ms as int
            } else {
                0
            }
        }
    }

    /// Mean declared latency over `ids`; an unregistered cell counts as 0.
    pub open spec fn mean_latency(&self, ids: Seq<PrincipalId>) -> int {
        if ids.len() == 0 {
            0
        } else {
            self.latency_total(ids) / ids.len() as int
        }
    }

    /// Mean of the typical response times that the cells `ids` declared.
    pub fn estimated_latency(&self, ids: &Vec<PrincipalId>) -> (r: u64)
        ensures
            r as int == self.mean_latency(ids@),
    {
        let mut total: u128 = 0;
        let mut i: usize = 0;
        while i < ids.len()
            invariant
                i <= ids@.len(),
                total as int == self.latency_total(ids@.subrange(0, i as int)),
                total <= i * (u32::MAX as int),
            decreases ids@.len() - i,
        {
            assert(ids@.subrange(0, i + 1).drop_last() =~= ids@.subrange(0, i as int));
            proof {
                lemma_cell_index(self.registrations(), ids@[i as int]@);
            }
            match self.lookup(&ids[i]) {
                Some(reg) => {
                    total = total + reg.performance_hints.typical_response_time_ms as u128;
                },
                None => {},
            }
            i += 1;
        }
        assert(ids@.subrange(0, i as int) =~= ids@);
        if ids.len() == 0 {
            0
        } else {
            proof {
                assert((total as int) / (ids@.len() as int) <= u32::MAX) by (nonlinear_arith)
                    requires
                        total <= ids@.len() * (u32::MAX as int),
                        ids@.len() > 0,
                ;
            }
            (total / ids.len() as u128) as u64
        }
    }
    /// Hands the registry's content over before an upgrade.
    pub fn pre_upgrade(self) -> (r: CoordinationSnapshot)
        ensures
            r.cells@ == self.registrations(),
            r.managers@ == self.managers(),
    {
        CoordinationSnapshot { cells: self.cells, managers: self.managers }
    }

    /// Rebuilds the registry after an upgrade. A later registration of an
    /// identity replaces an earlier one, so a snapshot of a registry gives
    /// back the same registrations.
    pub fn post_upgrade(snapshot: CoordinationSnapshot) -> (r: Coordination)
        ensures
            r.wf(),
            r.managers() == snapshot.managers@,
            forall|id: Seq<char>|
                #[trigger] r.registered(id) == (cell_index(snapshot.cells@, id) >= 0) && (r.registered(id)
                    ==> r.registration(id) == snapshot.cells@[cell_index(snapshot.cells@, id)]),
    {
        let CoordinationSnapshot { cells, managers } = snapshot;
        let mut r = Self::init(cells);
        let ghost before = r;
        r.managers = managers;
        assert forall|id: Seq<char>|
            #[trigger] r.registered(id) == (cell_index(snapshot.cells@, id) >= 0) && (r.registered(id)
                ==> r.registration(id) == snapshot.cells@[cell_index(snapshot.cells@, id)]) by {
            assert(before.registered(id) == r.registered(id));
        }
        r
    }
}

} // verus!
