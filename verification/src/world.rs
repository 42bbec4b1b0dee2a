//! The world: tables keyed by archetype identity, the entity-identity map,
//! and named singleton resources.
//!
//! Entities are stable handles.  The world maps each live handle to the pair
//! (archetype identity, row index); despawning swap-removes the row and
//! repoints the one handle whose row was moved into the vacated slot, so
//! every other live handle keeps resolving to the same values.

use vstd::prelude::*;

use crate::query::{all_match, Columns, ColumnsMut, ColumnsOptional, Filter, With};
use crate::table::{Archetype, RowIndex, Table};
use crate::value::{copy_values, TypeTag, Value};

verus! {

/// A stable handle to a live entity, independent of its current row.
/// Handles are assigned from a monotonically increasing counter and are
/// never reused.
#[derive(Clone, Copy, Debug, PartialEq, Eq, Structural, Hash)]
pub struct EntityId(pub u64);

/// The top-level container: all tables, the entity-identity map, and the
/// resource registry.
pub struct World {
    pub next_id: u64,
    pub entities: Vec<(EntityId, TypeTag, RowIndex)>,
    pub archetypes: Vec<(TypeTag, Table)>,
    pub resources: Vec<(TypeTag, Vec<Value>)>,
}

/// The type of the identity map: one entry per live entity.
pub type EntityMap = Seq<(EntityId, TypeTag, RowIndex)>;

/// The type of the table registry, in registration order.
pub type TableMap = Seq<(TypeTag, Table)>;

/// Whether `ts` has a table registered under `arch`.
pub open spec fn regd(ts: TableMap, arch: TypeTag) -> bool {
    exists|t: int| 0 <= t < ts.len() && ts[t].0 == arch
}

/// The index of the table registered under `arch` (unique when keys are
/// distinct).
pub open spec fn t_ix(ts: TableMap, arch: TypeTag) -> int {
    choose|t: int| 0 <= t < ts.len() && ts[t].0 == arch
}

/// The table registered under `arch`.
pub open spec fn t_of(ts: TableMap, arch: TypeTag) -> Table {
    ts[t_ix(ts, arch)].1
}

/// Whether `id` appears in the identity map `es`.
pub open spec fn lives_in(es: EntityMap, id: EntityId) -> bool {
    exists|e: int| 0 <= e < es.len() && es[e].0 == id
}

/// The position of `id` in `es` (unique when handles are distinct).
pub open spec fn e_ix(es: EntityMap, id: EntityId) -> int {
    choose|e: int| 0 <= e < es.len() && es[e].0 == id
}

/// Whether some entry of `es` occupies row `r` of the table keyed `a`.
pub open spec fn owned_in(es: EntityMap, a: TypeTag, r: int) -> bool {
    exists|e: int| 0 <= e < es.len() && (#[trigger] es[e]).1 == a && es[e].2.0 == r
}

impl World {
    /// Whether a table is registered under `arch`.
    pub open spec fn registered(&self, arch: TypeTag) -> bool {
        regd(self.archetypes@, arch)
    }

    /// The index of the table registered under `arch` (unique under
    /// [`World::wf`]).
    pub open spec fn table_ix(&self, arch: TypeTag) -> int {
        t_ix(self.archetypes@, arch)
    }

    /// The table registered under `arch`.
    pub open spec fn table_of(&self, arch: TypeTag) -> Table {
        t_of(self.archetypes@, arch)
    }

    /// Whether `id` is a live entity.
    pub open spec fn lives(&self, id: EntityId) -> bool {
        lives_in(self.entities@, id)
    }

    /// The position of `id` in the identity map (unique under
    /// [`World::wf`]).
    pub open spec fn ent_ix(&self, id: EntityId) -> int {
        e_ix(self.entities@, id)
    }

    /// The archetype identity a live `id` belongs to.
    pub open spec fn arch_of(&self, id: EntityId) -> TypeTag {
        self.entities@[self.ent_ix(id)].1
    }

    /// The current row of a live `id` within its table.
    pub open spec fn row_of(&self, id: EntityId) -> int {
        self.entities@[self.ent_ix(id)].2.0 as int
    }

    /// The component value of identity `ty` held by entity `id`: `None`
    /// when `id` is not live or its table has no such column.
    pub open spec fn component_of(&self, id: EntityId, ty: TypeTag) -> Option<Value> {
        spec_component(self.entities@, self.archetypes@, id, ty)
    }

    /// The stored resource value for identity `ty`, if one was inserted.
    pub open spec fn res_of(&self, ty: TypeTag) -> Option<Seq<Value>> {
        res_look(self.resources@, ty)
    }

    /// Tables are keyed by distinct archetype identities and each is
    /// internally well formed.
    pub open spec fn tables_wf(&self) -> bool {
        spec_tables_wf(self.archetypes@)
    }

    /// Every identity-map entry names a distinct live handle below the
    /// counter and points into a registered table at a valid row.
    pub open spec fn entities_wf(&self) -> bool {
        spec_entities_wf(self.entities@, self.archetypes@, self.next_id)
    }

    /// No two live handles occupy the same row of the same table.
    pub open spec fn placement_injective(&self) -> bool {
        spec_placement_injective(self.entities@)
    }

    /// Every row of every table is owned by some live handle.
    pub open spec fn placement_complete(&self) -> bool {
        spec_placement_complete(self.entities@, self.archetypes@)
    }

    /// Resource identities are distinct.
    pub open spec fn resources_wf(&self) -> bool {
        spec_resources_wf(self.resources@)
    }
}

/// The component value of identity `ty` held by the entity `id` of `es`,
/// looked up in the tables `ts`.
pub open spec fn spec_component(es: EntityMap, ts: TableMap, id: EntityId, ty: TypeTag) -> Option<
    Value,
> {
    if lives_in(es, id) && regd(ts, es[e_ix(es, id)].1) && t_of(
        ts,
        es[e_ix(es, id)].1,
    ).spec_has_column(ty) && es[e_ix(es, id)].2.0 < t_of(ts, es[e_ix(es, id)].1).col(ty).len() {
        Some(t_of(ts, es[e_ix(es, id)].1).col(ty)[es[e_ix(es, id)].2.0 as int])
    } else {
        None
    }
}

/// The resource stored under `ty` in the registry `rs`.
pub open spec fn res_look(rs: Seq<(TypeTag, Vec<Value>)>, ty: TypeTag) -> Option<Seq<Value>> {
    if exists|i: int| 0 <= i < rs.len() && rs[i].0 == ty {
        Some(rs[choose|i: int| 0 <= i < rs.len() && rs[i].0 == ty].1@)
    } else {
        None
    }
}

/// Distinct archetype identities, each table internally well formed.
pub open spec fn spec_tables_wf(ts: TableMap) -> bool {
    &&& forall|i: int, j: int| 0 <= i < j < ts.len() ==> ts[i].0 != ts[j].0
    &&& forall|t: int| 0 <= t < ts.len() ==> (#[trigger] ts[t].1).wf()
}

/// Distinct handles below the counter, each pointing into a registered
/// table at a valid row.
pub open spec fn spec_entities_wf(es: EntityMap, ts: TableMap, next_id: u64) -> bool {
    &&& forall|i: int, j: int| 0 <= i < j < es.len() ==> es[i].0 != es[j].0
    &&& forall|e: int| 0 <= e < es.len() ==> regd(ts, (#[trigger] es[e]).1)
    &&& forall|e: int| 0 <= e < es.len() ==> (#[trigger] es[e]).2.0 < t_of(ts, es[e].1).length
    &&& forall|e: int| 0 <= e < es.len() ==> (#[trigger] es[e]).0.0 < next_id
}

/// No two entries occupy the same row of the same table.
pub open spec fn spec_placement_injective(es: EntityMap) -> bool {
    forall|i: int, j: int|
        0 <= i < j < es.len() ==> !(es[i].1 == es[j].1 && es[i].2.0 == es[j].2.0)
}

/// Every row of every table is owned by some entry.
pub open spec fn spec_placement_complete(es: EntityMap, ts: TableMap) -> bool {
    forall|t: int, r: int|
        0 <= t < ts.len() && 0 <= r < ts[t].1.length ==> #[trigger] owned_in(es, ts[t].0, r)
}

/// Distinct resource identities.
pub open spec fn spec_resources_wf(rs: Seq<(TypeTag, Vec<Value>)>) -> bool {
    forall|i: int, j: int| 0 <= i < j < rs.len() ==> rs[i].0 != rs[j].0
}

impl World {
    /// The world invariant, established by the constructor and preserved by
    /// every operation.
    pub open spec fn wf(&self) -> bool {
        &&& self.tables_wf()
        &&& self.entities_wf()
        &&& self.placement_injective()
        &&& self.placement_complete()
        &&& self.resources_wf()
    }

    /// Creates an empty world: no tables, no entities, no resources.
    pub fn new() -> (r: Self)
        ensures
            r.wf(),
            r.next_id == 0,
            r.entities@ =~= Seq::<(EntityId, TypeTag, RowIndex)>::empty(),
            r.archetypes@ =~= Seq::<(TypeTag, Table)>::empty(),
            r.resources@ =~= Seq::<(TypeTag, Vec<Value>)>::empty(),
    {
        Self { next_id: 0, entities: Vec::new(), archetypes: Vec::new(), resources: Vec::new() }
    }

    /// Applies a build step to the world; builder chains read as
    /// `world.with(step_a).with(step_b)`.
    pub fn with<F: FnOnce(Self) -> Self>(self, f: F) -> (r: Self)
        requires
            call_requires(f, (self,)),
        ensures
            call_ensures(f, (self,), r),
    {
        f(self)
    }

    /// Registers `archetype`, creating its (initially empty) table, which
    /// participates in scene save and load.  Registering the same identity
    /// twice is a composition bug and is excluded by precondition.
    pub fn register(self, archetype: &Archetype) -> (r: Self)
        requires
            self.wf(),
            archetype.wf(),
            !self.registered(archetype.id),
        ensures
            r.wf(),
            r.archetypes@ == self.archetypes@.push((archetype.id, r.archetypes@.last().1)),
            r.archetypes@.len() == self.archetypes@.len() + 1,
            r.archetypes@.last().0 == archetype.id,
            r.archetypes@.last().1.schema() == archetype.components@,
            r.archetypes@.last().1.length == 0,
            r.archetypes@.last().1.saved,
            r.registered(archetype.id),
            r.entities == self.entities,
            r.resources == self.resources,
            r.next_id == self.next_id,
    {
        self.install(archetype, Table::new(archetype))
    }

    /// Registers `archetype` with a table excluded from scene save and
    /// load.
    pub fn register_unsaved(self, archetype: &Archetype) -> (r: Self)
        requires
            self.wf(),
            archetype.wf(),
            !self.registered(archetype.id),
        ensures
            r.wf(),
            r.archetypes@ == self.archetypes@.push((archetype.id, r.archetypes@.last().1)),
            r.archetypes@.len() == self.archetypes@.len() + 1,
            r.archetypes@.last().0 == archetype.id,
            r.archetypes@.last().1.schema() == archetype.components@,
            r.archetypes@.last().1.length == 0,
            !r.archetypes@.last().1.saved,
            r.registered(archetype.id),
            r.entities == self.entities,
            r.resources == self.resources,
            r.next_id == self.next_id,
    {
        self.install(archetype, Table::new_unsaved(archetype))
    }

    fn install(self, archetype: &Archetype, table: Table) -> (r: Self)
        requires
            self.wf(),
            !self.registered(archetype.id),
            table.wf(),
            table.length == 0,
            table.schema() == archetype.components@,
        ensures
            r.wf(),
            r.archetypes@ == self.archetypes@.push((archetype.id, table)),
            r.registered(archetype.id),
            r.entities == self.entities,
            r.resources == self.resources,
            r.next_id == self.next_id,
    {
        let ghost prev = self;
        let mut w = self;
        w.archetypes.push((archetype.id, table));
        proof {
            let n = prev.archetypes@.len() as int;
            let ts0 = prev.archetypes@;
            let ts1 = w.archetypes@;
            assert(ts1[n] == (archetype.id, table));
            assert(forall|t: int| 0 <= t < n ==> ts1[t] == ts0[t]);
            assert(regd(ts1, archetype.id));
            assert forall|i: int, j: int| 0 <= i < j < ts1.len() implies ts1[i].0 != ts1[j].0 by {
                assert(ts1[i] == ts0[i]);
                if j < n {
                    assert(ts1[j] == ts0[j]);
                } else {
                    if ts0[i].0 == archetype.id {
                        assert(regd(ts0, archetype.id));
                    }
                }
            }
            assert forall|t: int| 0 <= t < ts1.len() implies (#[trigger] ts1[t].1).wf() by {
                if t < n {
                    assert(ts1[t] == ts0[t]);
                    assert(ts0[t].1.wf());
                }
            }
            assert forall|e: int| 0 <= e < w.entities@.len() implies regd(
                ts1,
                (#[trigger] w.entities@[e]).1,
            ) && t_of(ts1, w.entities@[e].1) == t_of(ts0, w.entities@[e].1) by {
                let a = w.entities@[e].1;
                assert(regd(ts0, a));
                let t0 = t_ix(ts0, a);
                assert(0 <= t0 < n && ts0[t0].0 == a);
                assert(ts1[t0].0 == a);
                assert(regd(ts1, a));
                let t1 = t_ix(ts1, a);
                assert(0 <= t1 <= n && ts1[t1].0 == a);
                if a == archetype.id {
                    assert(regd(ts0, archetype.id));
                }
                assert(t1 != n);
                if t1 != t0 {
                    assert(ts0[t1].0 == a);
                    assert(false);
                }
            }
            assert forall|t: int, r: int|
                0 <= t < ts1.len() && 0 <= r < ts1[t].1.length implies #[trigger] owned_in(
                w.entities@,
                ts1[t].0,
                r,
            ) by {
                if t < n {
                    assert(ts1[t] == ts0[t]);
                    assert(owned_in(prev.entities@, ts0[t].0, r));
                }
            }
        }
        w
    }

    /// The registry index of the table registered under `arch`, if any.
    fn arch_index(&self, arch: TypeTag) -> (r: Option<usize>)
        ensures
            r matches Some(i) ==> i < self.archetypes@.len() && self.archetypes@[i as int].0
                == arch,
            r is None <==> !self.registered(arch),
    {
        let n = self.archetypes.len();
        for t in 0..n
            invariant
                n == self.archetypes@.len(),
                forall|j: int| 0 <= j < t ==> (#[trigger] self.archetypes@[j]).0 != arch,
        {
            if self.archetypes[t].0 == arch {
                return Some(t);
            }
        }
        None
    }

    /// Adds `entity` (one value per component, in schema order) as a new
    /// row of the table registered under `arch`, allocates the next entity
    /// handle, maps it to the new row, and returns it.
    ///
    /// Spawning an unregistered archetype is a composition bug and is
    /// excluded by precondition.
    pub fn spawn(&mut self, arch: TypeTag, entity: &Vec<Value>) -> (r: EntityId)
        requires
            old(self).wf(),
            old(self).registered(arch),
            entity@.len() == old(self).table_of(arch).schema().len(),
            old(self).table_of(arch).length < u32::MAX,
            old(self).next_id < u64::MAX,
        ensures
            final(self).wf(),
            r == EntityId(old(self).next_id),
            !old(self).lives(r),
            final(self).lives(r),
            final(self).next_id == old(self).next_id + 1,
            final(self).entities@ == old(self).entities@.push(
                (r, arch, RowIndex(old(self).table_of(arch).length as u32)),
            ),
            final(self).arch_of(r) == arch,
            final(self).row_of(r) == old(self).table_of(arch).length,
            final(self).resources == old(self).resources,
            final(self).archetypes@.len() == old(self).archetypes@.len(),
            forall|t: int|
                0 <= t < old(self).archetypes@.len() && t != old(self).table_ix(arch)
                    ==> #[trigger] final(self).archetypes@[t] == old(self).archetypes@[t],
            final(self).table_ix(arch) == old(self).table_ix(arch),
            final(self).table_of(arch).length == old(self).table_of(arch).length + 1,
            final(self).table_of(arch).schema() == old(self).table_of(arch).schema(),
            final(self).table_of(arch).saved == old(self).table_of(arch).saved,
            forall|i: int|
                0 <= i < entity@.len() ==> #[trigger] final(self).table_of(arch).col_at(i) == old(
                    self,
                ).table_of(arch).col_at(i).push(entity@[i]),
            final(self).table_of(arch).row(old(self).table_of(arch).length as int) =~= entity@,
            forall|a: TypeTag| #[trigger] final(self).registered(a) <==> old(self).registered(a),
            forall|a: TypeTag|
                old(self).registered(a) && a != arch ==> #[trigger] final(self).table_of(a) == old(
                    self,
                ).table_of(a),
            forall|id2: EntityId, ty: TypeTag|
                id2 != r ==> #[trigger] final(self).component_of(id2, ty) == old(
                    self,
                ).component_of(id2, ty),
            forall|ty: TypeTag|
                #[trigger] final(self).component_of(r, ty) == if old(self).table_of(
                    arch,
                ).spec_has_column(ty) {
                    Some(entity@[old(self).table_of(arch).col_ix(ty)])
                } else {
                    None
                },
    {
        let ghost es0 = self.entities@;
        let ghost ts0 = self.archetypes@;
        let ghost oldw = *self;
        let found = self.arch_index(arch);
        let ix = match found {
            Some(ix) => ix,
            None => {
                proof {
                    assert(false);
                }
                0
            },
        };
        proof {
            assert(t_ix(ts0, arch) == ix as int) by {
                let t1 = t_ix(ts0, arch);
                assert(0 <= t1 < ts0.len() && ts0[t1].0 == arch);
                if t1 != ix as int {
                    assert(false);
                }
            }
        }
        let slot = crate::idx_mut(&mut self.archetypes, ix);
        let row = slot.1.add(entity);
        proof {
            assert(self.archetypes@ == ts0.update(ix as int, (ts0[ix as int].0, self.archetypes@[ix as int].1)));
            lemma_t_of_update(ts0, self.archetypes@, ix as int);
        }
        let id = EntityId(self.next_id);
        self.next_id = self.next_id + 1;
        self.entities.push((id, arch, row));
        proof {
            let ts1 = self.archetypes@;
            let es1 = self.entities@;
            let oldlen = t_of(ts0, arch).length as int;
            assert(forall|e: int| 0 <= e < es0.len() ==> es1[e] == es0[e]);
            assert(es1[es0.len() as int] == (id, arch, row));
            assert(row.0 == oldlen);
            if lives_in(es0, id) {
                let e = e_ix(es0, id);
                assert(0 <= e < es0.len() && es0[e].0 == id);
                assert(es0[e].0.0 < oldw.next_id);
                assert(false);
            }
            assert(lives_in(es1, id));
            assert(e_ix(es1, id) == es0.len() as int) by {
                let e = e_ix(es1, id);
                assert(0 <= e < es1.len() && es1[e].0 == id);
                if e < es0.len() {
                    assert(es0[e].0.0 < oldw.next_id);
                    assert(false);
                }
            }
            assert forall|i: int, j: int| 0 <= i < j < es1.len() implies es1[i].0 != es1[j].0 by {
                if j < es0.len() {
                    assert(es0[i].0 != es0[j].0);
                } else {
                    assert(es1[i].0.0 < oldw.next_id);
                }
            }
            assert forall|e: int| 0 <= e < es1.len() implies regd(ts1, (#[trigger] es1[e]).1)
                && es1[e].2.0 < t_of(ts1, es1[e].1).length && es1[e].0.0 < self.next_id by {
                if e < es0.len() {
                    assert(es1[e] == es0[e]);
                    assert(regd(ts0, es0[e].1));
                    assert(es0[e].2.0 < t_of(ts0, es0[e].1).length);
                    if es0[e].1 == arch {
                        assert(t_of(ts1, arch).length == oldlen + 1);
                    } else {
                        assert(t_of(ts1, es0[e].1) == t_of(ts0, es0[e].1));
                    }
                }
            }
            assert forall|i: int, j: int|
                0 <= i < j < es1.len() implies !(es1[i].1 == es1[j].1 && es1[i].2.0
                == es1[j].2.0) by {
                if j < es0.len() {
                    assert(!(es0[i].1 == es0[j].1 && es0[i].2.0 == es0[j].2.0));
                } else {
                    if es1[i].1 == arch {
                        assert(es0[i].2.0 < t_of(ts0, arch).length);
                    }
                }
            }
            assert forall|t: int, r2: int|
                0 <= t < ts1.len() && 0 <= r2 < ts1[t].1.length implies #[trigger] owned_in(
                es1,
                ts1[t].0,
                r2,
            ) by {
                if t == ix as int && r2 == oldlen {
                    assert(es1[es0.len() as int].1 == ts1[t].0 && es1[es0.len() as int].2.0 == r2);
                } else {
                    if t == ix as int {
                        assert(ts0[t].1.length == ts1[t].1.length - 1);
                    } else {
                        assert(ts1[t] == ts0[t]);
                    }
                    assert(owned_in(es0, ts0[t].0, r2));
                    let e = choose|e: int|
                        0 <= e < es0.len() && (#[trigger] es0[e]).1 == ts0[t].0 && es0[e].2.0
                            == r2;
                    assert(es1[e].1 == ts1[t].0 && es1[e].2.0 == r2);
                }
            }
            let t0 = ts0[ix as int].1;
            let t1 = ts1[ix as int].1;
            crate::table::lemma_col_ix_same(t0, t1);
            assert forall|id2: EntityId, ty: TypeTag| id2 != id implies #[trigger] spec_component(
                es1,
                ts1,
                id2,
                ty,
            ) == spec_component(es0, ts0, id2, ty) by {
                if lives_in(es0, id2) {
                    let k = e_ix(es0, id2);
                    assert(0 <= k < es0.len() && es0[k].0 == id2);
                    assert(es1[k] == es0[k]);
                    lemma_e_ix_unique(es1, k);
                    assert(e_ix(es1, id2) == k);
                    let a2 = es0[k].1;
                    assert(regd(ts0, a2));
                    if a2 == arch {
                        if t0.spec_has_column(ty) {
                            assert(t1.col_ix(ty) == t0.col_ix(ty));
                            assert(0 <= t0.col_ix(ty) < t0.columns@.len()) by {
                                let ci = t0.col_ix(ty);
                                assert(0 <= ci < t0.schema().len() && t0.schema()[ci] == ty);
                            }
                            assert(t1.col(ty) == t0.col(ty).push(entity@[t0.col_ix(ty)]));
                            assert(t0.col(ty).len() == t0.length);
                            let r2 = es0[k].2.0 as int;
                            assert(r2 < t0.length);
                            assert(t1.col(ty)[r2] == t0.col(ty)[r2]);
                        } else {
                            assert(!t1.spec_has_column(ty));
                        }
                    } else {
                        assert(t_of(ts1, a2) == t_of(ts0, a2));
                    }
                } else {
                    if lives_in(es1, id2) {
                        let k = e_ix(es1, id2);
                        assert(0 <= k < es1.len() && es1[k].0 == id2);
                        if k < es0.len() {
                            assert(es0[k].0 == id2);
                            assert(false);
                        } else {
                            assert(es1[k].0 == id);
                            assert(false);
                        }
                    }
                }
            }
            assert forall|ty: TypeTag| #[trigger] spec_component(es1, ts1, id, ty) == (if t_of(
                ts0,
                arch,
            ).spec_has_column(ty) {
                Some(entity@[t_of(ts0, arch).col_ix(ty)])
            } else {
                None
            }) by {
                assert(e_ix(es1, id) == es0.len() as int);
                assert(es1[es0.len() as int].1 == arch);
                assert(es1[es0.len() as int].2.0 == oldlen);
                if t0.spec_has_column(ty) {
                    assert(t1.col_ix(ty) == t0.col_ix(ty));
                    assert(0 <= t0.col_ix(ty) < t0.columns@.len()) by {
                        let ci = t0.col_ix(ty);
                        assert(0 <= ci < t0.schema().len() && t0.schema()[ci] == ty);
                    }
                    assert(t1.col(ty) == t0.col(ty).push(entity@[t0.col_ix(ty)]));
                    assert(t0.col(ty).len() == t0.length);
                    assert(t1.col(ty)[oldlen] == entity@[t0.col_ix(ty)]);
                } else {
                    assert(!t1.spec_has_column(ty));
                }
            }
        }
        id
    }

    /// The identity-map index of `id`, if it is live.
    fn ent_index(&self, id: EntityId) -> (r: Option<usize>)
        ensures
            r matches Some(e) ==> e < self.entities@.len() && self.entities@[e as int].0 == id,
            r is None <==> !self.lives(id),
    {
        let n = self.entities.len();
        for e in 0..n
            invariant
                n == self.entities@.len(),
                forall|j: int| 0 <= j < e ==> (#[trigger] self.entities@[j]).0 != id,
        {
            if self.entities[e].0 == id {
                return Some(e);
            }
        }
        None
    }

    /// Removes `id` from the world, if it is live: its mapping is dropped,
    /// its table row is swap-removed, and the one entity whose row was
    /// swapped into the vacated slot is repointed there.  Every other live
    /// entity keeps resolving to the values it held before.  Despawning a
    /// dead handle is a silent no-op; naming the wrong archetype for a live
    /// handle is a composition bug and is excluded by precondition.
    pub fn despawn(&mut self, arch: TypeTag, id: EntityId)
        requires
            old(self).wf(),
            old(self).lives(id) ==> old(self).arch_of(id) == arch,
        ensures
            final(self).wf(),
            final(self).next_id == old(self).next_id,
            final(self).resources == old(self).resources,
            !old(self).lives(id) ==> *final(self) == *old(self),
            !final(self).lives(id),
            forall|id2: EntityId|
                id2 != id ==> (#[trigger] final(self).lives(id2) <==> old(self).lives(id2)),
            forall|id2: EntityId|
                id2 != id && old(self).lives(id2) ==> #[trigger] final(self).arch_of(id2) == old(
                    self,
                ).arch_of(id2),
            forall|id2: EntityId|
                id2 != id && old(self).lives(id2) ==> #[trigger] final(self).row_of(id2) == (
                if old(self).lives(id) && old(self).arch_of(id2) == arch && old(self).row_of(id2)
                    == old(self).table_of(arch).length - 1 {
                    old(self).row_of(id)
                } else {
                    old(self).row_of(id2)
                }),
            forall|id2: EntityId, ty: TypeTag|
                id2 != id ==> #[trigger] final(self).component_of(id2, ty) == old(
                    self,
                ).component_of(id2, ty),
            forall|a: TypeTag| #[trigger] final(self).registered(a) <==> old(self).registered(a),
            forall|a: TypeTag|
                old(self).registered(a) && a != arch ==> #[trigger] final(self).table_of(a) == old(
                    self,
                ).table_of(a),
            old(self).lives(id) ==> final(self).entities@.len() == old(self).entities@.len() - 1,
            old(self).lives(id) ==> final(self).table_of(arch).length == old(self).table_of(
                arch,
            ).length - 1,
            old(self).lives(id) ==> final(self).table_of(arch).schema() == old(self).table_of(
                arch,
            ).schema(),
            old(self).lives(id) ==> final(self).table_of(arch).saved == old(self).table_of(
                arch,
            ).saved,
    {
        let ghost oldw = *self;
        let ghost es0 = self.entities@;
        let ghost ts0 = self.archetypes@;
        let found_e = self.ent_index(id);
        let e = match found_e {
            Some(e) => e,
            None => {
                return ;
            },
        };
        proof {
            lemma_e_ix_unique(es0, e as int);
        }
        let trip = self.entities[e];
        let row = trip.2;
        proof {
            assert(trip == es0[e as int]);
            assert(trip.1 == arch);
        }
        let _ = self.entities.swap_remove(e);
        let ghost es1 = self.entities@;
        let found_t = self.arch_index(arch);
        let ix = match found_t {
            Some(ix) => ix,
            None => {
                proof {
                    assert(regd(ts0, arch));
                    assert(false);
                }
                0
            },
        };
        proof {
            assert(t_ix(ts0, arch) == ix as int) by {
                let t1 = t_ix(ts0, arch);
                assert(0 <= t1 < ts0.len() && ts0[t1].0 == arch);
                if t1 != ix as int {
                    assert(false);
                }
            }
            assert(row.0 < ts0[ix as int].1.length);
        }
        let slot = crate::idx_mut(&mut self.archetypes, ix);
        let oldlen = slot.1.len();
        slot.1.remove(row);
        let last: u32 = (oldlen - 1) as u32;
        let ghost ts1 = self.archetypes@;
        proof {
            assert(ts1 == ts0.update(ix as int, (ts0[ix as int].0, ts1[ix as int].1)));
            lemma_t_of_update(ts0, ts1, ix as int);
            crate::table::lemma_col_ix_same(ts0[ix as int].1, ts1[ix as int].1);
        }
        let m = self.entities.len();
        let ghost pre_fix = *self;
        let mut fixed: Option<usize> = None;
        let mut j: usize = 0;
        while j < m
            invariant_except_break
                *self == pre_fix,
                fixed is None,
            invariant
                m == pre_fix.entities@.len(),
                j <= m,
                forall|k: int|
                    0 <= k < j ==> !((#[trigger] pre_fix.entities@[k]).1 == arch
                        && pre_fix.entities@[k].2.0 == last),
            ensures
                fixed matches Some(fj) ==> {
                    &&& (fj as int) < m
                    &&& pre_fix.entities@[fj as int].1 == arch
                    &&& pre_fix.entities@[fj as int].2.0 == last
                    &&& self.entities@ == pre_fix.entities@.update(
                        fj as int,
                        (pre_fix.entities@[fj as int].0, arch, row),
                    )
                    &&& self.archetypes == pre_fix.archetypes
                    &&& self.resources == pre_fix.resources
                    &&& self.next_id == pre_fix.next_id
                },
                fixed is None ==> *self == pre_fix && forall|k: int|
                    0 <= k < m ==> !((#[trigger] pre_fix.entities@[k]).1 == arch
                        && pre_fix.entities@[k].2.0 == last),
            decreases m - j,
        {
            if self.entities[j].1 == arch && self.entities[j].2.0 == last {
                let ent = self.entities[j];
                let slot2 = crate::idx_mut(&mut self.entities, j);
                *slot2 = (ent.0, ent.1, row);
                fixed = Some(j);
                break ;
            }
            j = j + 1;
        }
        proof {
            let ghost es1c = pre_fix.entities@;
            assert(es1c == es1);
            if fixed is Some {
                let fj = fixed->0 as int;
                assert(self.entities@ == es1.update(fj, (es1[fj].0, arch, row)));
                assert(es1[fj].1 == arch && es1[fj].2.0 == last);
                lemma_despawn_restores(
                    oldw,
                    *self,
                    id,
                    arch,
                    e as int,
                    ix as int,
                    row.0 as int,
                    last as int,
                    Some(fj),
                );
            } else {
                assert(self.entities@ == es1);
                assert(forall|k: int|
                    0 <= k < es1.len() ==> !((#[trigger] es1[k]).1 == arch && es1[k].2.0 == last));
                lemma_despawn_restores(
                    oldw,
                    *self,
                    id,
                    arch,
                    e as int,
                    ix as int,
                    row.0 as int,
                    last as int,
                    None,
                );
            }
        }
    }

    /// The component value of identity `ty` held by entity `id`: `None`
    /// when `id` is not live or its table has no column for `ty`.
    pub fn get_component(&self, id: EntityId, ty: TypeTag) -> (r: Option<Value>)
        requires
            self.wf(),
        ensures
            r == self.component_of(id, ty),
    {
        let found_e = self.ent_index(id);
        let e = match found_e {
            Some(e) => e,
            None => {
                return None;
            },
        };
        proof {
            lemma_e_ix_unique(self.entities@, e as int);
        }
        let trip = self.entities[e];
        let found_t = self.arch_index(trip.1);
        let ix = match found_t {
            Some(ix) => ix,
            None => {
                proof {
                    assert(regd(self.archetypes@, self.entities@[e as int].1));
                    assert(false);
                }
                return None;
            },
        };
        proof {
            assert(t_ix(self.archetypes@, trip.1) == ix as int) by {
                let t1 = t_ix(self.archetypes@, trip.1);
                assert(0 <= t1 < self.archetypes@.len() && self.archetypes@[t1].0 == trip.1);
                if t1 != ix as int {
                    assert(false);
                }
            }
            assert(self.archetypes@[ix as int].1.wf());
            assert((trip.2.0 as int) < t_of(self.archetypes@, trip.1).length);
        }
        let table = &self.archetypes[ix].1;
        match table.column(ty) {
            Some(col) => {
                proof {
                    let ci = table.col_ix(ty);
                    assert(0 <= ci < table.schema().len() && table.schema()[ci] == ty);
                    assert(table.col_at(ci).len() == table.length);
                }
                Some(col[trip.2.0 as usize])
            },
            None => None,
        }
    }

    /// Overwrites the component value of identity `ty` held by entity `id`;
    /// reports whether it did.  A dead handle or a missing column is a
    /// silent no-op.
    pub fn set_component(&mut self, id: EntityId, ty: TypeTag, item: Value) -> (r: bool)
        requires
            old(self).wf(),
        ensures
            final(self).wf(),
            r <==> old(self).component_of(id, ty) is Some,
            r ==> final(self).component_of(id, ty) == Some(item),
            !r ==> *final(self) == *old(self),
            forall|id2: EntityId, ty2: TypeTag|
                !(id2 == id && ty2 == ty) ==> #[trigger] final(self).component_of(id2, ty2) == old(
                    self,
                ).component_of(id2, ty2),
            final(self).entities == old(self).entities,
            final(self).resources == old(self).resources,
            final(self).next_id == old(self).next_id,
            forall|a: TypeTag| #[trigger] final(self).registered(a) <==> old(self).registered(a),
            forall|a: TypeTag|
                #[trigger] old(self).registered(a) ==> final(self).table_of(a).length == old(
                    self,
                ).table_of(a).length && final(self).table_of(a).schema() == old(self).table_of(
                    a,
                ).schema() && final(self).table_of(a).saved == old(self).table_of(a).saved,
    {
        let ghost oldw = *self;
        let ghost es0 = self.entities@;
        let ghost ts0 = self.archetypes@;
        let found_e = self.ent_index(id);
        let e = match found_e {
            Some(e) => e,
            None => {
                return false;
            },
        };
        proof {
            lemma_e_ix_unique(es0, e as int);
        }
        let trip = self.entities[e];
        let arch = trip.1;
        let found_t = self.arch_index(arch);
        let ix = match found_t {
            Some(ix) => ix,
            None => {
                proof {
                    assert(regd(ts0, es0[e as int].1));
                    assert(false);
                }
                return false;
            },
        };
        proof {
            assert(t_ix(ts0, arch) == ix as int) by {
                let t1 = t_ix(ts0, arch);
                assert(0 <= t1 < ts0.len() && ts0[t1].0 == arch);
                if t1 != ix as int {
                    assert(false);
                }
            }
            assert((trip.2.0 as int) < t_of(ts0, arch).length);
        }
        if !self.archetypes[ix].1.has_column(ty) {
            proof {
                assert(spec_component(es0, ts0, id, ty) is None);
            }
            return false;
        }
        let slot = crate::idx_mut(&mut self.archetypes, ix);
        let hit = slot.1.set_at(ty, trip.2, item);
        proof {
            assert(hit);
            let ts1 = self.archetypes@;
            let t0 = ts0[ix as int].1;
            let t1 = ts1[ix as int].1;
            assert(forall|t: int| 0 <= t < ts0.len() && t != ix ==> ts1[t] == ts0[t]);
            lemma_t_of_update(ts0, ts1, ix as int);
            crate::table::lemma_col_ix_same(t0, t1);
            assert(hit <==> (t0.spec_has_column(ty) && (trip.2.0 as int) < t0.length));
            assert(hit <==> spec_component(es0, ts0, id, ty) is Some);
            assert forall|k: int| 0 <= k < es0.len() implies regd(ts1, (#[trigger] es0[k]).1)
                && es0[k].2.0 < t_of(ts1, es0[k].1).length by {
                assert(regd(ts0, es0[k].1));
                assert(es0[k].2.0 < t_of(ts0, es0[k].1).length);
                if es0[k].1 == arch {
                    assert(t_of(ts1, arch).length == t0.length);
                } else {
                    assert(t_of(ts1, es0[k].1) == t_of(ts0, es0[k].1));
                }
            }
            assert forall|t: int, r2: int|
                0 <= t < ts1.len() && 0 <= r2 < ts1[t].1.length implies #[trigger] owned_in(
                es0,
                ts1[t].0,
                r2,
            ) by {
                if t == ix as int {
                    assert(ts1[t].1.length == ts0[t].1.length);
                } else {
                    assert(ts1[t] == ts0[t]);
                }
                assert(owned_in(es0, ts0[t].0, r2));
            }
            if hit {
                assert(t1.col(ty) == t0.col(ty).update(trip.2.0 as int, item));
                assert(spec_component(es0, ts1, id, ty) == Some(item)) by {
                    assert(e_ix(es0, id) == e as int);
                    assert(t0.col(ty).len() == t0.length) by {
                        let ci = t0.col_ix(ty);
                        assert(0 <= ci < t0.schema().len() && t0.schema()[ci] == ty);
                    }
                }
            }
            assert forall|id2: EntityId, ty2: TypeTag|
                !(id2 == id && ty2 == ty) implies #[trigger] spec_component(es0, ts1, id2, ty2)
                == spec_component(es0, ts0, id2, ty2) by {
                if lives_in(es0, id2) {
                    let k = e_ix(es0, id2);
                    assert(0 <= k < es0.len() && es0[k].0 == id2);
                    let a2 = es0[k].1;
                    assert(regd(ts0, a2));
                    if a2 == arch {
                        assert(t_of(ts1, arch) == t1);
                        if t0.spec_has_column(ty2) {
                            assert(t1.col_ix(ty2) == t0.col_ix(ty2));
                            assert(t0.col(ty2).len() == t0.length) by {
                                let ci = t0.col_ix(ty2);
                                assert(0 <= ci < t0.schema().len() && t0.schema()[ci] == ty2);
                            }
                            if hit {
                                if ty2 == ty {
                                    assert(id2 != id);
                                    assert(k != e as int);
                                    let r2 = es0[k].2.0 as int;
                                    if k < e as int {
                                        assert(!(es0[k].1 == es0[e as int].1 && es0[k].2.0
                                            == es0[e as int].2.0));
                                    } else {
                                        assert(!(es0[e as int].1 == es0[k].1 && es0[e as int].2.0
                                            == es0[k].2.0));
                                    }
                                    assert(r2 != trip.2.0 as int);
                                    assert(t1.col(ty2)[r2] == t0.col(ty2)[r2]);
                                } else {
                                    assert(t1.col_ix(ty2) != t0.col_ix(ty)) by {
                                        let ci = t0.col_ix(ty2);
                                        let cj = t0.col_ix(ty);
                                        assert(t0.schema()[ci] == ty2);
                                        assert(t0.schema()[cj] == ty);
                                    }
                                    assert(t1.columns@[t0.col_ix(ty2)] == t0.columns@[t0.col_ix(
                                        ty2,
                                    )]);
                                }
                            }
                        } else {
                            assert(!t1.spec_has_column(ty2));
                        }
                    } else {
                        assert(t_of(ts1, a2) == t_of(ts0, a2));
                    }
                }
            }
        }
        hit
    }

    /// Selects, from the first `n` registered tables in registration
    /// order, the `ty` columns of those tables that have such a column and
    /// satisfy every filter.
    pub open spec fn read_sel(ts: TableMap, ty: TypeTag, fs: Seq<Filter>, n: int) -> Seq<
        Seq<Value>,
    >
        decreases n,
    {
        if n <= 0 {
            Seq::empty()
        } else {
            let pre = Self::read_sel(ts, ty, fs, n - 1);
            if ts[n - 1].1.spec_has_column(ty) && all_match(fs, ts[n - 1].0, ts[n - 1].1) {
                pre.push(ts[n - 1].1.col(ty))
            } else {
                pre
            }
        }
    }

    /// Selects, from the first `n` registered tables, the per-row options
    /// of every table satisfying the filters: the `ty` column's values
    /// where present, one `None` per row where absent.
    pub open spec fn opt_sel(ts: TableMap, ty: TypeTag, fs: Seq<Filter>, n: int) -> Seq<
        Seq<Option<Value>>,
    >
        decreases n,
    {
        if n <= 0 {
            Seq::empty()
        } else {
            let pre = Self::opt_sel(ts, ty, fs, n - 1);
            if all_match(fs, ts[n - 1].0, ts[n - 1].1) {
                if ts[n - 1].1.spec_has_column(ty) {
                    pre.push(ts[n - 1].1.col(ty).map_values(|v: Value| Some(v)))
                } else {
                    pre.push(Seq::new(ts[n - 1].1.length as nat, |i: int| None::<Value>))
                }
            } else {
                pre
            }
        }
    }

    /// The handle that owns row `r` of the table keyed `a` (unique under
    /// [`World::wf`]).
    pub open spec fn owner_in(es: EntityMap, a: TypeTag, r: int) -> EntityId {
        es[choose|e: int| 0 <= e < es.len() && (#[trigger] es[e]).1 == a && es[e].2.0 == r].0
    }

    /// The handles owning rows `0 .. len` of the table keyed `a`, in row
    /// order.
    pub open spec fn owners_of(es: EntityMap, a: TypeTag, len: int) -> Seq<EntityId> {
        Seq::new(len as nat, |r: int| Self::owner_in(es, a, r))
    }

    /// The handles of all entities in tables satisfying the filters, in
    /// registration order and, within one table, in row order.
    pub open spec fn ent_sel(es: EntityMap, ts: TableMap, fs: Seq<Filter>, n: int) -> Seq<EntityId>
        decreases n,
    {
        if n <= 0 {
            Seq::empty()
        } else {
            let pre = Self::ent_sel(es, ts, fs, n - 1);
            if all_match(fs, ts[n - 1].0, ts[n - 1].1) {
                pre + Self::owners_of(es, ts[n - 1].0, ts[n - 1].1.length as int)
            } else {
                pre
            }
        }
    }

    /// Copies out the selected `ty` columns of all tables that have the
    /// column and satisfy every filter, in registration order.
    fn select_chunks(&self, ty: TypeTag, filters: &Vec<Filter>) -> (r: Vec<Vec<Value>>)
        requires
            self.wf(),
        ensures
            r@.map_values(|c: Vec<Value>| c@) == Self::read_sel(
                self.archetypes@,
                ty,
                filters@,
                self.archetypes@.len() as int,
            ),
    {
        let mut chunks: Vec<Vec<Value>> = Vec::new();
        let n = self.archetypes.len();
        for t in 0..n
            invariant
                self.wf(),
                n == self.archetypes@.len(),
                chunks@.map_values(|c: Vec<Value>| c@) == Self::read_sel(
                    self.archetypes@,
                    ty,
                    filters@,
                    t as int,
                ),
        {
            let ghost pre = chunks@.map_values(|c: Vec<Value>| c@);
            let matched = self.archetypes[t].1.has_column(ty) && crate::query::filters_match(
                filters,
                self.archetypes[t].0,
                &self.archetypes[t].1,
            );
            if matched {
                match self.archetypes[t].1.column(ty) {
                    Some(col) => {
                        let copy = copy_values(col);
                        chunks.push(copy);
                        proof {
                            assert(chunks@.map_values(|c: Vec<Value>| c@) =~= pre.push(
                                self.archetypes@[t as int].1.col(ty),
                            ));
                        }
                    },
                    None => {
                        proof {
                            assert(false);
                        }
                    },
                }
            }
        }
        chunks
    }

    /// All values of component `ty` across every table that has the column
    /// and satisfies the filters, as one concatenated read-only view in
    /// registration order.
    pub fn query(&self, ty: TypeTag, filters: &Vec<Filter>) -> (r: Columns)
        requires
            self.wf(),
        ensures
            r.chunks@.map_values(|c: Vec<Value>| c@) == Self::read_sel(
                self.archetypes@,
                ty,
                filters@,
                self.archetypes@.len() as int,
            ),
    {
        Columns { chunks: self.select_chunks(ty, filters) }
    }

    /// The same selection as [`World::query`], as an editable view whose
    /// edits [`World::commit`] writes back.
    pub fn query_mut(&self, ty: TypeTag, filters: &Vec<Filter>) -> (r: ColumnsMut)
        requires
            self.wf(),
        ensures
            r.chunks@.map_values(|c: Vec<Value>| c@) == Self::read_sel(
                self.archetypes@,
                ty,
                filters@,
                self.archetypes@.len() as int,
            ),
    {
        ColumnsMut { chunks: self.select_chunks(ty, filters) }
    }

    /// Writes an edited view back: the `ty` column of each table selected
    /// by [`World::query_mut`] is replaced by the corresponding chunk.  The
    /// view must still have one value per row of each selected table.
    pub fn commit(&mut self, ty: TypeTag, filters: &Vec<Filter>, cols: &ColumnsMut)
        requires
            old(self).wf(),
            cols.chunks@.map_values(|c: Vec<Value>| c@.len()) == Self::read_sel(
                old(self).archetypes@,
                ty,
                filters@,
                old(self).archetypes@.len() as int,
            ).map_values(|s: Seq<Value>| s.len()),
        ensures
            final(self).wf(),
            Self::read_sel(
                final(self).archetypes@,
                ty,
                filters@,
                final(self).archetypes@.len() as int,
            ) == cols.chunks@.map_values(|c: Vec<Value>| c@),
            final(self).entities == old(self).entities,
            final(self).resources == old(self).resources,
            final(self).next_id == old(self).next_id,
            final(self).archetypes@.len() == old(self).archetypes@.len(),
            forall|t: int|
                0 <= t < old(self).archetypes@.len() ==> (#[trigger] final(self).archetypes@[t]).0
                    == old(self).archetypes@[t].0 && final(self).archetypes@[t].1.length == old(
                    self,
                ).archetypes@[t].1.length && final(self).archetypes@[t].1.schema() == old(
                    self,
                ).archetypes@[t].1.schema() && final(self).archetypes@[t].1.saved == old(
                    self,
                ).archetypes@[t].1.saved,
            forall|t: int|
                0 <= t < old(self).archetypes@.len() && !(old(
                    self,
                ).archetypes@[t].1.spec_has_column(ty) && all_match(
                    filters@,
                    old(self).archetypes@[t].0,
                    old(self).archetypes@[t].1,
                )) ==> #[trigger] final(self).archetypes@[t] == old(self).archetypes@[t],
    {
        let ghost ts0 = self.archetypes@;
        let ghost fs = filters@;
        let ghost colsv = cols.chunks@.map_values(|c: Vec<Value>| c@);
        proof {
            lemma_read_sel_extends(ts0, ty, fs, ts0.len() as int);
        }
        let mut k: usize = 0;
        let n = self.archetypes.len();
        for t in 0..n
            invariant
                n == self.archetypes@.len(),
                n == ts0.len(),
                fs == filters@,
                cols.chunks@.map_values(|c: Vec<Value>| c@.len()) =~= Self::read_sel(
                    ts0,
                    ty,
                    fs,
                    n as int,
                ).map_values(|s: Seq<Value>| s.len()),
                colsv == cols.chunks@.map_values(|c: Vec<Value>| c@),
                k as int == Self::read_sel(ts0, ty, fs, t as int).len(),
                k <= cols.chunks@.len(),
                forall|t2: int| t <= t2 < n ==> #[trigger] self.archetypes@[t2] == ts0[t2],
                forall|t2: int|
                    0 <= t2 < n ==> (#[trigger] self.archetypes@[t2]).0 == ts0[t2].0
                        && self.archetypes@[t2].1.wf() && self.archetypes@[t2].1.length
                        == ts0[t2].1.length && self.archetypes@[t2].1.schema()
                        == ts0[t2].1.schema() && self.archetypes@[t2].1.saved == ts0[t2].1.saved,
                Self::read_sel(self.archetypes@, ty, fs, t as int) == colsv.take(k as int),
                spec_tables_wf(ts0),
                self.entities == old(self).entities,
                self.resources == old(self).resources,
                self.next_id == old(self).next_id,
                spec_entities_wf(self.entities@, ts0, self.next_id),
                spec_placement_injective(self.entities@),
                spec_placement_complete(self.entities@, ts0),
                spec_resources_wf(self.resources@),
                forall|t2: int|
                    0 <= t2 < t && !(ts0[t2].1.spec_has_column(ty) && all_match(
                        fs,
                        ts0[t2].0,
                        ts0[t2].1,
                    )) ==> #[trigger] self.archetypes@[t2] == ts0[t2],
        {
            let ghost ts_pre = self.archetypes@;
            let matched = self.archetypes[t].1.has_column(ty) && crate::query::filters_match(
                filters,
                self.archetypes[t].0,
                &self.archetypes[t].1,
            );
            if matched {
                proof {
                    assert(self.archetypes@[t as int] == ts0[t as int]);
                    assert(ts0[t as int].1.spec_has_column(ty));
                    assert(all_match(fs, ts0[t as int].0, ts0[t as int].1));
                    assert(Self::read_sel(ts0, ty, fs, t as int + 1) == Self::read_sel(
                        ts0,
                        ty,
                        fs,
                        t as int,
                    ).push(ts0[t as int].1.col(ty)));
                    lemma_read_sel_take(ts0, ty, fs, t as int + 1, n as int);
                    assert(Self::read_sel(ts0, ty, fs, t as int + 1).len() == k as int + 1);
                    assert(Self::read_sel(ts0, ty, fs, n as int).take(k as int + 1)
                        == Self::read_sel(ts0, ty, fs, t as int + 1));
                    assert(Self::read_sel(ts0, ty, fs, n as int).take(k as int + 1)[k as int]
                        == Self::read_sel(ts0, ty, fs, n as int)[k as int]);
                    assert(Self::read_sel(ts0, ty, fs, n as int)[k as int] == ts0[t as int].1.col(
                        ty,
                    ));
                    assert(cols.chunks@.map_values(|c: Vec<Value>| c@.len()).len()
                        == Self::read_sel(ts0, ty, fs, n as int).map_values(
                        |s: Seq<Value>| s.len(),
                    ).len());
                    assert(k < cols.chunks@.len());
                    assert(cols.chunks@.map_values(|c: Vec<Value>| c@.len())[k as int]
                        == Self::read_sel(ts0, ty, fs, n as int).map_values(
                        |s: Seq<Value>| s.len(),
                    )[k as int]);
                    assert(colsv[k as int].len() == ts0[t as int].1.col(ty).len());
                    assert(ts0[t as int].1.col(ty).len() == ts0[t as int].1.length) by {
                        let ci = ts0[t as int].1.col_ix(ty);
                        assert(0 <= ci < ts0[t as int].1.schema().len() && ts0[t as int].1.schema()[ci] == ty);
                        assert(ts0[t as int].1.wf());
                    }
                }
                let ghost snap = *self;
                let chunk = &cols.chunks[k];
                let slot = crate::idx_mut(&mut self.archetypes, t);
                let hit = slot.1.set_column(ty, chunk);
                proof {
                    assert(hit);
                    assert(self.archetypes@[t as int].1.col(ty) == colsv[k as int]);
                    assert(forall|t2: int|
                        0 <= t2 < n && t2 != t ==> #[trigger] self.archetypes@[t2]
                            == snap.archetypes@[t2]);
                    lemma_read_sel_prefix_eq(self.archetypes@, ts_pre, ty, fs, t as int);
                    assert(Self::read_sel(self.archetypes@, ty, fs, t as int + 1)
                        == Self::read_sel(self.archetypes@, ty, fs, t as int).push(
                        self.archetypes@[t as int].1.col(ty),
                    )) by {
                        crate::table::lemma_col_ix_same(ts0[t as int].1, self.archetypes@[t as int].1);
                        assert(self.archetypes@[t as int].1.spec_has_column(ty));
                        assert(all_match(fs, self.archetypes@[t as int].0, self.archetypes@[t as int].1)) by {
                            lemma_all_match_same_cols(fs, ts0[t as int].0, ts0[t as int].1, self.archetypes@[t as int].1);
                        }
                    }
                    assert(colsv.take(k as int + 1) =~= colsv.take(k as int).push(
                        colsv[k as int],
                    ));
                }
                let total = cols.chunks.len();
                proof {
                    assert(k < total);
                }
                k = k + 1;
            } else {
                proof {
                    assert(Self::read_sel(self.archetypes@, ty, fs, t as int + 1)
                        == Self::read_sel(self.archetypes@, ty, fs, t as int)) by {
                        assert(self.archetypes@[t as int] == ts0[t as int]);
                    }
                }
            }
        }
        proof {
            let ts1 = self.archetypes@;
            assert(colsv.take(k as int) =~= colsv) by {
                assert(k as int == Self::read_sel(ts0, ty, fs, n as int).len());
                assert(colsv.len() == Self::read_sel(ts0, ty, fs, n as int).map_values(
                    |s: Seq<Value>| s.len(),
                ).len());
            }
            lemma_t_same_keys(ts0, ts1);
            let es = self.entities@;
            assert forall|e: int| 0 <= e < es.len() implies regd(ts1, (#[trigger] es[e]).1)
                && es[e].2.0 < t_of(ts1, es[e].1).length by {
                assert(regd(ts0, es[e].1));
                assert(t_ix(ts1, es[e].1) == t_ix(ts0, es[e].1));
                assert(es[e].2.0 < t_of(ts0, es[e].1).length);
                assert(ts1[t_ix(ts0, es[e].1)].1.length == ts0[t_ix(ts0, es[e].1)].1.length);
            }
            assert forall|t: int, r2: int|
                0 <= t < ts1.len() && 0 <= r2 < ts1[t].1.length implies #[trigger] owned_in(
                es,
                ts1[t].0,
                r2,
            ) by {
                assert(ts1[t].1.length == ts0[t].1.length);
                assert(ts1[t].0 == ts0[t].0);
                assert(owned_in(es, ts0[t].0, r2));
            }
        }
    }

    /// The values of component `ty` across every table satisfying the
    /// filters, tolerating tables that lack the column: those contribute
    /// one `None` per row, so positions stay aligned with the other
    /// components of the same query.
    pub fn query_opt(&self, ty: TypeTag, filters: &Vec<Filter>) -> (r: ColumnsOptional)
        requires
            self.wf(),
        ensures
            r.chunks@.map_values(|c: Result<Vec<Value>, usize>| crate::query::chunk_opts(c))
                == Self::opt_sel(self.archetypes@, ty, filters@, self.archetypes@.len() as int),
    {
        let mut chunks: Vec<Result<Vec<Value>, usize>> = Vec::new();
        let n = self.archetypes.len();
        for t in 0..n
            invariant
                self.wf(),
                n == self.archetypes@.len(),
                chunks@.map_values(|c: Result<Vec<Value>, usize>| crate::query::chunk_opts(c))
                    == Self::opt_sel(self.archetypes@, ty, filters@, t as int),
        {
            let ghost pre = chunks@.map_values(
                |c: Result<Vec<Value>, usize>| crate::query::chunk_opts(c),
            );
            if crate::query::filters_match(filters, self.archetypes[t].0, &self.archetypes[t].1) {
                match self.archetypes[t].1.column(ty) {
                    Some(col) => {
                        chunks.push(Ok(copy_values(col)));
                        proof {
                            assert(chunks@.map_values(
                                |c: Result<Vec<Value>, usize>| crate::query::chunk_opts(c),
                            ) =~= pre.push(
                                self.archetypes@[t as int].1.col(ty).map_values(
                                    |v: Value| Some(v),
                                ),
                            ));
                        }
                    },
                    None => {
                        chunks.push(Err(self.archetypes[t].1.len()));
                        proof {
                            assert(chunks@.map_values(
                                |c: Result<Vec<Value>, usize>| crate::query::chunk_opts(c),
                            ) =~= pre.push(
                                Seq::new(
                                    self.archetypes@[t as int].1.length as nat,
                                    |i: int| None::<Value>,
                                ),
                            ));
                        }
                    },
                }
            }
        }
        ColumnsOptional { chunks }
    }

    /// The handle owning row `r` of the table keyed `a`, found by scanning
    /// the identity map.
    fn owner_index(&self, a: TypeTag, r: u32) -> (res: EntityId)
        requires
            self.wf(),
            owned_in(self.entities@, a, r as int),
        ensures
            res == Self::owner_in(self.entities@, a, r as int),
    {
        let n = self.entities.len();
        for e in 0..n
            invariant
                self.wf(),
                n == self.entities@.len(),
                owned_in(self.entities@, a, r as int),
                forall|j: int|
                    0 <= j < e ==> !((#[trigger] self.entities@[j]).1 == a
                        && self.entities@[j].2.0 == r),
        {
            if self.entities[e].1 == a && self.entities[e].2.0 == r {
                proof {
                    let k = choose|k: int|
                        0 <= k < self.entities@.len() && (#[trigger] self.entities@[k]).1 == a
                            && self.entities@[k].2.0 == r;
                    if k < e as int {
                        assert(false);
                    } else if k > e as int {
                        assert(!(self.entities@[e as int].1 == self.entities@[k].1
                            && self.entities@[e as int].2.0 == self.entities@[k].2.0));
                        assert(false);
                    }
                }
                return self.entities[e].0;
            }
        }
        proof {
            let k = choose|k: int|
                0 <= k < self.entities@.len() && (#[trigger] self.entities@[k]).1 == a
                    && self.entities@[k].2.0 == r;
            assert(false);
        }
        EntityId(0)
    }

    /// The handles of all entities whose tables satisfy the filters, in
    /// registration order and, within one table, in row order.
    pub fn query_entities(&self, filters: &Vec<Filter>) -> (r: Vec<EntityId>)
        requires
            self.wf(),
        ensures
            r@ == Self::ent_sel(
                self.entities@,
                self.archetypes@,
                filters@,
                self.archetypes@.len() as int,
            ),
    {
        let mut out: Vec<EntityId> = Vec::new();
        let n = self.archetypes.len();
        for t in 0..n
            invariant
                self.wf(),
                n == self.archetypes@.len(),
                out@ == Self::ent_sel(self.entities@, self.archetypes@, filters@, t as int),
        {
            let ghost pre = out@;
            if crate::query::filters_match(filters, self.archetypes[t].0, &self.archetypes[t].1) {
                let a = self.archetypes[t].0;
                let m = self.archetypes[t].1.len();
                proof {
                    assert(m <= u32::MAX) by {
                        assert(self.archetypes@[t as int].1.wf());
                    }
                }
                for i in 0..m
                    invariant
                        self.wf(),
                        n == self.archetypes@.len(),
                        t < n,
                        a == self.archetypes@[t as int].0,
                        m == self.archetypes@[t as int].1.length,
                        m <= u32::MAX,
                        out@ == pre + Self::owners_of(self.entities@, a, i as int),
                {
                    proof {
                        assert(owned_in(self.entities@, a, i as int)) by {
                            assert(0 <= t < self.archetypes@.len() && 0 <= i
                                < self.archetypes@[t as int].1.length);
                        }
                    }
                    let owner = self.owner_index(a, i as u32);
                    out.push(owner);
                    proof {
                        assert(pre + Self::owners_of(self.entities@, a, i + 1) =~= (pre
                            + Self::owners_of(self.entities@, a, i as int)).push(
                            Self::owner_in(self.entities@, a, i as int),
                        ));
                    }
                }
            }
        }
        out
    }

    /// The first registered table that satisfies the filters, has a `ty`
    /// column and holds at least one row, by index; `-1` when none does.
    pub open spec fn qone_from(ts: TableMap, ty: TypeTag, fs: Seq<Filter>, t: int) -> int
        decreases ts.len() - t,
    {
        if t < 0 || t >= ts.len() {
            -1
        } else if ts[t].1.spec_has_column(ty) && all_match(fs, ts[t].0, ts[t].1) && ts[t].1.length
            > 0 {
            t
        } else {
            Self::qone_from(ts, ty, fs, t + 1)
        }
    }

    /// The value of component `ty` in the first row of the first table
    /// that satisfies the filters, has the column, and holds a row.  Meant
    /// for archetypes of which exactly one instance exists; calling it when
    /// no table qualifies is a composition bug and is excluded by
    /// precondition.
    pub fn query_one(&self, ty: TypeTag, filters: &Vec<Filter>) -> (r: Value)
        requires
            self.wf(),
            Self::qone_from(self.archetypes@, ty, filters@, 0) >= 0,
        ensures
            r == self.archetypes@[Self::qone_from(self.archetypes@, ty, filters@, 0)].1.col(
                ty,
            )[0],
    {
        let n = self.archetypes.len();
        for t in 0..n
            invariant
                self.wf(),
                n == self.archetypes@.len(),
                Self::qone_from(self.archetypes@, ty, filters@, 0) == Self::qone_from(
                    self.archetypes@,
                    ty,
                    filters@,
                    t as int,
                ),
                Self::qone_from(self.archetypes@, ty, filters@, 0) >= 0,
        {
            let matched = self.archetypes[t].1.has_column(ty) && crate::query::filters_match(
                filters,
                self.archetypes[t].0,
                &self.archetypes[t].1,
            ) && self.archetypes[t].1.len() > 0;
            if matched {
                proof {
                    assert(Self::qone_from(self.archetypes@, ty, filters@, t as int) == t as int);
                }
                match self.archetypes[t].1.column(ty) {
                    Some(col) => {
                        proof {
                            let tb = self.archetypes@[t as int].1;
                            let ci = tb.col_ix(ty);
                            assert(0 <= ci < tb.schema().len() && tb.schema()[ci] == ty);
                            assert(tb.col_at(ci).len() == tb.length);
                        }
                        return col[0];
                    },
                    None => {
                        proof {
                            assert(false);
                        }
                    },
                }
            }
        }
        proof {
            assert(Self::qone_from(self.archetypes@, ty, filters@, n as int) == -1);
            assert(false);
        }
        Value::Bool(false)
    }

    /// Where entity `id` currently lives: its archetype identity and row,
    /// or `None` for a dead handle.
    pub fn place(&self, id: EntityId) -> (r: Option<(TypeTag, RowIndex)>)
        requires
            self.wf(),
        ensures
            r is Some <==> self.lives(id),
            r matches Some(p) ==> p.0 == self.arch_of(id) && p.1.0 == self.row_of(id) && (
            p.1.0 as int) < self.table_of(p.0).length,
    {
        match self.ent_index(id) {
            Some(e) => {
                proof {
                    lemma_e_ix_unique(self.entities@, e as int);
                }
                let trip = self.entities[e];
                Some((trip.1, trip.2))
            },
            None => None,
        }
    }

    /// The table registered under `arch`, or `None` when the identity was
    /// never registered.
    pub fn table(&self, arch: TypeTag) -> (r: Option<&Table>)
        requires
            self.wf(),
        ensures
            r is Some <==> self.registered(arch),
            r matches Some(t) ==> *t == self.table_of(arch),
    {
        match self.arch_index(arch) {
            Some(ix) => {
                proof {
                    let t1 = t_ix(self.archetypes@, arch);
                    assert(0 <= t1 < self.archetypes@.len() && self.archetypes@[t1].0 == arch);
                    if t1 != ix as int {
                        assert(false);
                    }
                }
                Some(&self.archetypes[ix].1)
            },
            None => None,
        }
    }

    /// The slot index holding identity `ty`, if any.
    fn res_index(&self, ty: TypeTag) -> (r: Option<usize>)
        ensures
            r matches Some(i) ==> i < self.resources@.len() && self.resources@[i as int].0 == ty,
            r is None ==> forall|j: int|
                0 <= j < self.resources@.len() ==> (#[trigger] self.resources@[j]).0 != ty,
            r is None <==> self.res_of(ty) is None,
    {
        let n = self.resources.len();
        for i in 0..n
            invariant
                n == self.resources@.len(),
                forall|j: int| 0 <= j < i ==> (#[trigger] self.resources@[j]).0 != ty,
        {
            if self.resources[i].0 == ty {
                return Some(i);
            }
        }
        None
    }

    /// Inserts a resource under identity `ty`, overwriting any prior value
    /// stored under the same identity.
    pub fn with_resource(self, ty: TypeTag, value: Vec<Value>) -> (r: Self)
        requires
            self.wf(),
        ensures
            r.wf(),
            r.res_of(ty) == Some(value@),
            forall|ty2: TypeTag| ty2 != ty ==> #[trigger] r.res_of(ty2) == self.res_of(ty2),
            r.entities == self.entities,
            r.archetypes == self.archetypes,
            r.next_id == self.next_id,
    {
        let ghost rs0 = self.resources@;
        let found = self.res_index(ty);
        let mut w = self;
        match found {
            Some(i) => {
                let slot = crate::idx_mut(&mut w.resources, i);
                *slot = (ty, value);
                proof {
                    assert(w.resources@[i as int] == (ty, value));
                    lemma_res_points(rs0, w.resources@, ty, i as int);
                }
                w
            },
            None => {
                w.resources.push((ty, value));
                proof {
                    let n2 = rs0.len() as int;
                    assert(w.resources@[n2] == (ty, value));
                    lemma_res_points(rs0, w.resources@, ty, n2);
                }
                w
            },
        }
    }

    /// The resource stored under identity `ty`, or `None` if none was
    /// inserted.
    pub fn get(&self, ty: TypeTag) -> (r: Option<&Vec<Value>>)
        requires
            self.wf(),
        ensures
            r is Some <==> self.res_of(ty) is Some,
            r matches Some(v) ==> self.res_of(ty) == Some(v@),
    {
        match self.res_index(ty) {
            Some(i) => {
                proof {
                    lemma_res_at(self.resources@, ty, i as int);
                }
                Some(&self.resources[i].1)
            },
            None => None,
        }
    }

    /// Overwrites the resource stored under identity `ty`; reports whether
    /// one was there to overwrite.
    pub fn set_resource(&mut self, ty: TypeTag, value: Vec<Value>) -> (r: bool)
        requires
            old(self).wf(),
        ensures
            final(self).wf(),
            r <==> old(self).res_of(ty) is Some,
            r ==> final(self).res_of(ty) == Some(value@),
            !r ==> *final(self) == *old(self),
            forall|ty2: TypeTag|
                ty2 != ty ==> #[trigger] final(self).res_of(ty2) == old(self).res_of(ty2),
            final(self).entities == old(self).entities,
            final(self).archetypes == old(self).archetypes,
            final(self).next_id == old(self).next_id,
    {
        let ghost rs0 = self.resources@;
        let found = self.res_index(ty);
        match found {
            Some(i) => {
                let slot = crate::idx_mut(&mut self.resources, i);
                *slot = (ty, value);
                proof {
                    assert(self.resources@[i as int] == (ty, value));
                    lemma_res_points(rs0, self.resources@, ty, i as int);
                }
                true
            },
            None => false,
        }
    }

    /// Takes the resource stored under identity `ty` out of the world and
    /// returns it, or `None` if none was inserted.
    pub fn remove(&mut self, ty: TypeTag) -> (r: Option<Vec<Value>>)
        requires
            old(self).wf(),
        ensures
            final(self).wf(),
            r is Some <==> old(self).res_of(ty) is Some,
            r matches Some(v) ==> old(self).res_of(ty) == Some(v@),
            final(self).res_of(ty) is None,
            forall|ty2: TypeTag|
                ty2 != ty ==> #[trigger] final(self).res_of(ty2) == old(self).res_of(ty2),
            final(self).entities == old(self).entities,
            final(self).archetypes == old(self).archetypes,
            final(self).next_id == old(self).next_id,
    {
        let ghost rs0 = self.resources@;
        let found = self.res_index(ty);
        match found {
            Some(i) => {
                proof {
                    lemma_res_at(rs0, ty, i as int);
                }
                let slot = self.resources.remove(i);
                proof {
                    lemma_res_gone(rs0, self.resources@, ty, i as int);
                }
                Some(slot.1)
            },
            None => None,
        }
    }
}

/// When identities are distinct and slot `i` holds `ty`, `res_look(ty)`
/// reads slot `i`.
proof fn lemma_res_at(rs: Seq<(TypeTag, Vec<Value>)>, ty: TypeTag, i: int)
    requires
        spec_resources_wf(rs),
        0 <= i < rs.len(),
        rs[i].0 == ty,
    ensures
        res_look(rs, ty) == Some(rs[i].1@),
{
    let j = choose|j: int| 0 <= j < rs.len() && rs[j].0 == ty;
    assert(0 <= j < rs.len() && rs[j].0 == ty);
    if j != i {
        assert(false);
    }
}

/// Writing `ty` into slot `i` of a registry whose identities are distinct
/// (and where any pre-existing slot `i` already held `ty`) changes what
/// `res_look` reads for `ty` and nothing else.
proof fn lemma_res_points(
    rs0: Seq<(TypeTag, Vec<Value>)>,
    rs1: Seq<(TypeTag, Vec<Value>)>,
    ty: TypeTag,
    i: int,
)
    requires
        spec_resources_wf(rs0),
        0 <= i < rs1.len(),
        rs1.len() == rs0.len() || (rs1.len() == rs0.len() + 1 && i == rs0.len()),
        rs1[i].0 == ty,
        i < rs0.len() ==> rs0[i].0 == ty,
        forall|j: int| 0 <= j < rs0.len() && j != i ==> #[trigger] rs1[j] == rs0[j],
        i == rs0.len() ==> forall|j: int| 0 <= j < rs0.len() ==> (#[trigger] rs0[j]).0 != ty,
    ensures
        spec_resources_wf(rs1),
        res_look(rs1, ty) == Some(rs1[i].1@),
        forall|ty2: TypeTag| ty2 != ty ==> #[trigger] res_look(rs1, ty2) == res_look(rs0, ty2),
{
    assert forall|j: int| 0 <= j < rs0.len() && j != i implies rs0[j].0 != ty by {
        if i < rs0.len() {
            if j < i {
                assert(rs0[j].0 != rs0[i].0);
            } else {
                assert(rs0[i].0 != rs0[j].0);
            }
        }
    }
    assert forall|a: int, b: int| 0 <= a < b < rs1.len() implies rs1[a].0 != rs1[b].0 by {
        if a != i && b != i {
            assert(rs1[a] == rs0[a]);
            assert(rs1[b] == rs0[b]);
        } else if a == i {
            assert(rs1[b] == rs0[b]);
        } else {
            assert(rs1[a] == rs0[a]);
        }
    }
    lemma_res_at(rs1, ty, i);
    assert forall|ty2: TypeTag| ty2 != ty implies #[trigger] res_look(rs1, ty2) == res_look(
        rs0,
        ty2,
    ) by {
        if exists|j: int| 0 <= j < rs0.len() && rs0[j].0 == ty2 {
            let j = choose|j: int| 0 <= j < rs0.len() && rs0[j].0 == ty2;
            assert(j != i);
            assert(rs1[j] == rs0[j]);
            lemma_res_at(rs1, ty2, j);
            lemma_res_at(rs0, ty2, j);
        } else {
            assert forall|j: int| 0 <= j < rs1.len() implies (#[trigger] rs1[j]).0 != ty2 by {
                if j != i {
                    assert(rs1[j] == rs0[j]);
                }
            }
            assert(res_look(rs1, ty2) is None);
        }
    }
}

/// Removing slot `i`, which held `ty`, clears `ty` and leaves every other
/// identity's resource unchanged.
proof fn lemma_res_gone(
    rs0: Seq<(TypeTag, Vec<Value>)>,
    rs1: Seq<(TypeTag, Vec<Value>)>,
    ty: TypeTag,
    i: int,
)
    requires
        spec_resources_wf(rs0),
        0 <= i < rs0.len(),
        rs0[i].0 == ty,
        rs1 == rs0.remove(i),
    ensures
        spec_resources_wf(rs1),
        res_look(rs1, ty) is None,
        forall|ty2: TypeTag| ty2 != ty ==> #[trigger] res_look(rs1, ty2) == res_look(rs0, ty2),
{
    assert forall|j: int| 0 <= j < rs1.len() implies (#[trigger] rs1[j]).0 != ty by {
        let j0 = if j < i {
            j
        } else {
            j + 1
        };
        assert(rs1[j] == rs0[j0]);
        if j0 < i {
            assert(rs0[j0].0 != rs0[i].0);
        } else {
            assert(rs0[i].0 != rs0[j0].0);
        }
    }
    assert forall|a: int, b: int| 0 <= a < b < rs1.len() implies rs1[a].0 != rs1[b].0 by {
        let a0 = if a < i {
            a
        } else {
            a + 1
        };
        let b0 = if b < i {
            b
        } else {
            b + 1
        };
        assert(rs1[a] == rs0[a0]);
        assert(rs1[b] == rs0[b0]);
    }
    assert(res_look(rs1, ty) is None);
    assert forall|ty2: TypeTag| ty2 != ty implies #[trigger] res_look(rs1, ty2) == res_look(
        rs0,
        ty2,
    ) by {
        if exists|j: int| 0 <= j < rs0.len() && rs0[j].0 == ty2 {
            let j = choose|j: int| 0 <= j < rs0.len() && rs0[j].0 == ty2;
            assert(j != i);
            let j2 = if j < i {
                j
            } else {
                j - 1
            };
            assert(rs1[j2] == rs0[j]);
            lemma_res_at(rs1, ty2, j2);
            lemma_res_at(rs0, ty2, j);
        } else {
            assert forall|j: int| 0 <= j < rs1.len() implies (#[trigger] rs1[j]).0 != ty2 by {
                let j0 = if j < i {
                    j
                } else {
                    j + 1
                };
                assert(rs1[j] == rs0[j0]);
            }
        }
    }
}


/// Updating the table at one registry slot, keeping every key, preserves
/// which identities are registered and where they point.
proof fn lemma_t_of_update(ts0: TableMap, ts1: TableMap, ix: int)
    requires
        spec_tables_wf(ts0),
        0 <= ix < ts0.len(),
        ts1.len() == ts0.len(),
        forall|t: int| 0 <= t < ts0.len() ==> (#[trigger] ts1[t]).0 == ts0[t].0,
        forall|t: int| 0 <= t < ts0.len() && t != ix ==> #[trigger] ts1[t] == ts0[t],
        ts1[ix].1.wf(),
    ensures
        spec_tables_wf(ts1),
        forall|a: TypeTag| #[trigger] regd(ts1, a) <==> regd(ts0, a),
        forall|a: TypeTag| #[trigger] regd(ts0, a) ==> t_ix(ts1, a) == t_ix(ts0, a),
        forall|a: TypeTag|
            regd(ts0, a) && a != ts0[ix].0 ==> #[trigger] t_of(ts1, a) == t_of(ts0, a),
        t_ix(ts0, ts0[ix].0) == ix,
        t_of(ts1, ts0[ix].0) == ts1[ix].1,
{
    assert forall|i: int, j: int| 0 <= i < j < ts1.len() implies ts1[i].0 != ts1[j].0 by {
        assert(ts0[i].0 != ts0[j].0);
    }
    assert forall|t: int| 0 <= t < ts1.len() implies (#[trigger] ts1[t].1).wf() by {
        if t != ix {
            assert(ts1[t] == ts0[t]);
            assert(ts0[t].1.wf());
        }
    }
    assert forall|a: TypeTag| #[trigger] regd(ts1, a) <==> regd(ts0, a) by {
        if regd(ts1, a) {
            let t = choose|t: int| 0 <= t < ts1.len() && ts1[t].0 == a;
            assert(ts0[t].0 == a);
        }
        if regd(ts0, a) {
            let t = choose|t: int| 0 <= t < ts0.len() && ts0[t].0 == a;
            assert(ts1[t].0 == a);
        }
    }
    assert forall|a: TypeTag| #[trigger] regd(ts0, a) implies t_ix(ts1, a) == t_ix(ts0, a) by {
        let t0 = t_ix(ts0, a);
        assert(0 <= t0 < ts0.len() && ts0[t0].0 == a);
        assert(ts1[t0].0 == a);
        assert(regd(ts1, a));
        let t1 = t_ix(ts1, a);
        assert(0 <= t1 < ts1.len() && ts1[t1].0 == a);
        assert(ts0[t1].0 == a);
        if t1 != t0 {
            assert(false);
        }
    }
    assert(regd(ts0, ts0[ix].0));
    assert(t_ix(ts0, ts0[ix].0) == ix) by {
        let t = t_ix(ts0, ts0[ix].0);
        assert(0 <= t < ts0.len() && ts0[t].0 == ts0[ix].0);
        if t != ix {
            assert(false);
        }
    }
    assert forall|a: TypeTag|
        regd(ts0, a) && a != ts0[ix].0 implies #[trigger] t_of(ts1, a) == t_of(ts0, a) by {
        let t0 = t_ix(ts0, a);
        assert(0 <= t0 < ts0.len() && ts0[t0].0 == a);
        assert(t0 != ix);
        assert(ts1[t0] == ts0[t0]);
    }
}


impl Default for World {
    /// A fresh world is empty, exactly as [`World::new`] builds it.
    fn default() -> (r: Self)
        ensures
            r.wf(),
            r.next_id == 0,
            r.entities@.len() == 0,
            r.archetypes@.len() == 0,
            r.resources@.len() == 0,
    {
        Self::new()
    }
}

/// Each entry of a map with distinct handles is found at its own index.
proof fn lemma_e_ix_unique(es: EntityMap, e: int)
    requires
        forall|i: int, j: int| 0 <= i < j < es.len() ==> es[i].0 != es[j].0,
        0 <= e < es.len(),
    ensures
        lives_in(es, es[e].0),
        e_ix(es, es[e].0) == e,
{
    assert(lives_in(es, es[e].0));
    let e2 = e_ix(es, es[e].0);
    assert(0 <= e2 < es.len() && es[e2].0 == es[e].0);
    if e2 != e {
        assert(false);
    }
}


/// After a despawn — entry `e` dropped from the identity map by
/// swap-remove, row `row` of table `ix` compacted by swap-remove, and the
/// one entry that pointed at the former last row `last` repointed to `row`
/// — the world invariant holds again and every other entity resolves to
/// the values it held before.
#[verifier::spinoff_prover]
#[verifier::rlimit(100)]
proof fn lemma_despawn_restores(
    w0: World,
    w2: World,
    id: EntityId,
    arch: TypeTag,
    e: int,
    ix: int,
    row: int,
    last: int,
    fix: Option<int>,
)
    requires
        w0.wf(),
        0 <= e < w0.entities@.len(),
        w0.entities@[e].0 == id,
        w0.entities@[e].1 == arch,
        w0.entities@[e].2.0 == row,
        0 <= ix < w0.archetypes@.len(),
        w0.archetypes@[ix].0 == arch,
        t_ix(w0.archetypes@, arch) == ix,
        last == w0.archetypes@[ix].1.length - 1,
        0 <= row <= last,
        w2.next_id == w0.next_id,
        w2.resources == w0.resources,
        w2.archetypes@.len() == w0.archetypes@.len(),
        forall|t: int|
            0 <= t < w0.archetypes@.len() && t != ix ==> #[trigger] w2.archetypes@[t]
                == w0.archetypes@[t],
        w2.archetypes@[ix].0 == arch,
        w2.archetypes@[ix].1.wf(),
        w2.archetypes@[ix].1.length == last,
        w2.archetypes@[ix].1.schema() == w0.archetypes@[ix].1.schema(),
        w2.archetypes@[ix].1.saved == w0.archetypes@[ix].1.saved,
        forall|i: int|
            0 <= i < w0.archetypes@[ix].1.columns@.len() ==> #[trigger] w2.archetypes@[ix].1.col_at(
                i,
            ) == w0.archetypes@[ix].1.col_at(i).update(
                row,
                w0.archetypes@[ix].1.col_at(i).last(),
            ).drop_last(),
        w2.entities@.len() == w0.entities@.len() - 1,
        forall|k: int|
            0 <= k < w0.entities@.len() - 1 && k != e ==> #[trigger] w2.entities@[k].0
                == w0.entities@[k].0 && w2.entities@[k].1 == w0.entities@[k].1,
        e < w0.entities@.len() - 1 ==> w2.entities@[e].0 == w0.entities@.last().0
            && w2.entities@[e].1 == w0.entities@.last().1,
        fix matches Some(fj) ==> {
            let es1 = w0.entities@.update(e, w0.entities@.last()).drop_last();
            &&& 0 <= fj < es1.len()
            &&& es1[fj].1 == arch
            &&& es1[fj].2.0 == last
            &&& w2.entities@ =~= es1.update(fj, (es1[fj].0, arch, RowIndex(row as u32)))
            &&& row <= u32::MAX
        },
        fix is None ==> {
            let es1 = w0.entities@.update(e, w0.entities@.last()).drop_last();
            &&& w2.entities@ =~= es1
            &&& forall|k: int|
                0 <= k < es1.len() ==> !((#[trigger] es1[k]).1 == arch && es1[k].2.0 == last)
        },
    ensures
        w2.wf(),
        !w2.lives(id),
        forall|id2: EntityId| id2 != id ==> (#[trigger] w2.lives(id2) <==> w0.lives(id2)),
        forall|id2: EntityId|
            id2 != id && w0.lives(id2) ==> #[trigger] w2.arch_of(id2) == w0.arch_of(id2),
        forall|id2: EntityId|
            id2 != id && w0.lives(id2) ==> #[trigger] w2.row_of(id2) == (if w0.arch_of(id2)
                == arch && w0.row_of(id2) == w0.table_of(arch).length - 1 {
                w0.row_of(id)
            } else {
                w0.row_of(id2)
            }),
        forall|id2: EntityId, ty: TypeTag|
            id2 != id ==> #[trigger] w2.component_of(id2, ty) == w0.component_of(id2, ty),
        forall|a: TypeTag| #[trigger] w2.registered(a) <==> w0.registered(a),
        forall|a: TypeTag|
            w0.registered(a) && a != arch ==> #[trigger] w2.table_of(a) == w0.table_of(a),
        w2.table_of(arch).length == w0.table_of(arch).length - 1,
        w2.table_of(arch).schema() == w0.table_of(arch).schema(),
        w2.table_of(arch).saved == w0.table_of(arch).saved,
{
    let es0 = w0.entities@;
    let ts0 = w0.archetypes@;
    let es2 = w2.entities@;
    let ts1 = w2.archetypes@;
    let len0 = es0.len() as int;
    let es1 = es0.update(e, es0.last()).drop_last();
    let t0 = ts0[ix].1;
    let t1 = ts1[ix].1;
    lemma_e_ix_unique(es0, e);
    assert(forall|t: int| 0 <= t < ts0.len() ==> (#[trigger] ts1[t]).0 == ts0[t].0);
    lemma_t_of_update(ts0, ts1, ix);
    crate::table::lemma_col_ix_same(t0, t1);
    assert(t_of(ts0, arch) == t0);
    assert(t_of(ts1, arch) == t1);
    assert(t0.wf());

    // Characterize es1 entrywise.
    assert(es1.len() == len0 - 1);
    assert forall|k: int| 0 <= k < len0 - 1 implies #[trigger] es1[k] == (if k == e {
        es0[len0 - 1]
    } else {
        es0[k]
    }) by {}
    // The image of each surviving original index.
    let img = |k0: int| if k0 == len0 - 1 { e } else { k0 };
    assert forall|k0: int| 0 <= k0 < len0 && k0 != e implies 0 <= img(k0) < len0 - 1 && es1[img(
        k0,
    )] == es0[k0] by {
        if k0 == len0 - 1 {
            assert(e < len0 - 1);
        }
    }
    // fix is the unique entry owning (arch, last), if any.
    if fix is Some {
        let fj = fix->0;
        assert(es2 =~= es1.update(fj, (es1[fj].0, arch, RowIndex(row as u32))));
        // row != last: otherwise es1[fj] and es0[e] both place (arch, last).
        let k0 = if fj == e { len0 - 1 } else { fj };
        assert(es1[fj] == es0[k0]);
        assert(k0 != e);
        if row == last {
            if k0 < e {
                assert(!(es0[k0].1 == es0[e].1 && es0[k0].2.0 == es0[e].2.0));
            } else {
                assert(!(es0[e].1 == es0[k0].1 && es0[e].2.0 == es0[k0].2.0));
            }
            assert(false);
        }
    }
    // Every entry of es2 keeps its handle and archetype from es0.
    assert forall|k: int| 0 <= k < len0 - 1 implies (#[trigger] es2[k]).0 == es1[k].0 && es2[k].1
        == es1[k].1 && (es2[k].2 == es1[k].2 || (fix == Some(k) && es2[k].2.0 == row)) by {
        if fix is Some {
            let fj = fix->0;
            if k != fj {
                assert(es2[k] == es1[k]);
            }
        }
    }
    // Rows of arch entries other than the fixed one avoid row and last.
    assert forall|k: int|
        0 <= k < len0 - 1 && es1[k].1 == arch && fix != Some(k) implies 0 <= (
    #[trigger] es1[k]).2.0 < last && es1[k].2.0 != row by {
        let k0 = img(if k == e {
            len0 - 1
        } else {
            k
        });
        let k0 = if k == e { len0 - 1 } else { k };
        assert(es1[k] == es0[k0]);
        assert(k0 != e);
        assert(es0[k0].2.0 < t_of(ts0, arch).length);
        // distinct from the removed entry's row
        if k0 < e {
            assert(!(es0[k0].1 == es0[e].1 && es0[k0].2.0 == es0[e].2.0));
        } else {
            assert(!(es0[e].1 == es0[k0].1 && es0[e].2.0 == es0[k0].2.0));
        }
        assert(es1[k].2.0 != row);
        // not the moved row either
        if es1[k].2.0 == last {
            if fix is Some {
                let fj = fix->0;
                let kj = if fj == e { len0 - 1 } else { fj };
                assert(es1[fj] == es0[kj]);
                if k0 < kj {
                    assert(!(es0[k0].1 == es0[kj].1 && es0[k0].2.0 == es0[kj].2.0));
                } else if kj < k0 {
                    assert(!(es0[kj].1 == es0[k0].1 && es0[kj].2.0 == es0[k0].2.0));
                } else {
                    assert(k == fix->0);
                }
                assert(false);
            } else {
                assert(false);
            }
        }
    }
    // Distinct handles in es2.
    assert forall|i: int, j: int| 0 <= i < j < len0 - 1 implies es2[i].0 != es2[j].0 by {
        let i0 = if i == e { len0 - 1 } else { i };
        let j0 = if j == e { len0 - 1 } else { j };
        assert(es2[i].0 == es0[i0].0);
        assert(es2[j].0 == es0[j0].0);
        if i0 < j0 {
            assert(es0[i0].0 != es0[j0].0);
        } else {
            assert(es0[j0].0 != es0[i0].0);
        }
    }
    // id is gone.
    assert(!lives_in(es2, id)) by {
        if lives_in(es2, id) {
            let k = e_ix(es2, id);
            let k0 = if k == e { len0 - 1 } else { k };
            assert(es2[k].0 == es0[k0].0);
            assert(k0 != e);
            if k0 < e {
                assert(es0[k0].0 != es0[e].0);
            } else {
                assert(es0[e].0 != es0[k0].0);
            }
            assert(false);
        }
    }
    // entities_wf.
    assert forall|k: int| 0 <= k < len0 - 1 implies regd(ts1, (#[trigger] es2[k]).1) && es2[k].2.0
        < t_of(ts1, es2[k].1).length && es2[k].0.0 < w2.next_id by {
        let k0 = if k == e { len0 - 1 } else { k };
        assert(es2[k].0 == es0[k0].0 && es2[k].1 == es0[k0].1);
        assert(regd(ts0, es0[k0].1));
        if es2[k].1 == arch {
            if fix == Some(k) {
                assert(es2[k].2.0 == row);
                assert(row < last);
            } else {
                assert(es2[k].2 == es1[k].2);
                assert(es1[k].2.0 < last);
            }
            assert(t_of(ts1, arch).length == last);
        } else {
            assert(es2[k].2 == es1[k].2);
            assert(es1[k] == es0[k0]);
            assert(es0[k0].2.0 < t_of(ts0, es0[k0].1).length);
            assert(t_of(ts1, es2[k].1) == t_of(ts0, es0[k0].1));
        }
    }
    // placement_injective.
    assert forall|i: int, j: int|
        0 <= i < j < len0 - 1 implies !(es2[i].1 == es2[j].1 && es2[i].2.0 == es2[j].2.0) by {
        if es2[i].1 == es2[j].1 {
            if es2[i].1 == arch {
                if fix == Some(i) {
                    assert(es2[i].2.0 == row && es1[j].2.0 != row);
                } else if fix == Some(j) {
                    assert(es2[j].2.0 == row && es1[i].2.0 != row);
                } else {
                    let i0 = if i == e { len0 - 1 } else { i };
                    let j0 = if j == e { len0 - 1 } else { j };
                    assert(es2[i].2 == es0[i0].2 && es2[j].2 == es0[j0].2);
                    if i0 < j0 {
                        assert(!(es0[i0].1 == es0[j0].1 && es0[i0].2.0 == es0[j0].2.0));
                    } else {
                        assert(!(es0[j0].1 == es0[i0].1 && es0[j0].2.0 == es0[i0].2.0));
                    }
                }
            } else {
                let i0 = if i == e { len0 - 1 } else { i };
                let j0 = if j == e { len0 - 1 } else { j };
                assert(es2[i].2 == es0[i0].2 && es2[j].2 == es0[j0].2);
                if i0 < j0 {
                    assert(!(es0[i0].1 == es0[j0].1 && es0[i0].2.0 == es0[j0].2.0));
                } else {
                    assert(!(es0[j0].1 == es0[i0].1 && es0[j0].2.0 == es0[i0].2.0));
                }
            }
        }
    }
    // placement_complete.
    assert forall|t: int, r2: int|
        0 <= t < ts1.len() && 0 <= r2 < ts1[t].1.length implies #[trigger] owned_in(
        es2,
        ts1[t].0,
        r2,
    ) by {
        if t == ix {
            if r2 == row {
                if fix is Some {
                    let fj = fix->0;
                    assert(es2[fj].1 == arch && es2[fj].2.0 == r2);
                } else {
                    // fix is None although row < last: the owner of
                    // (arch, last) in es0 would have survived into es1.
                    assert(owned_in(es0, arch, last));
                    let k0 = choose|k0: int|
                        0 <= k0 < len0 && (#[trigger] es0[k0]).1 == arch && es0[k0].2.0 == last;
                    assert(k0 != e);
                    let k = if k0 == len0 - 1 { e } else { k0 };
                    assert(es1[k] == es0[k0]);
                    assert(false);
                }
            } else {
                assert(owned_in(es0, arch, r2));
                let k0 = choose|k0: int|
                    0 <= k0 < len0 && (#[trigger] es0[k0]).1 == arch && es0[k0].2.0 == r2;
                assert(k0 != e);
                let k = if k0 == len0 - 1 { e } else { k0 };
                assert(es1[k] == es0[k0]);
                if fix == Some(k) {
                    assert(es1[k].2.0 == last);
                    assert(false);
                }
                assert(es2[k] == es1[k]);
                assert(es2[k].1 == arch && es2[k].2.0 == r2);
            }
        } else {
            assert(ts1[t] == ts0[t]);
            assert(owned_in(es0, ts0[t].0, r2));
            let k0 = choose|k0: int|
                0 <= k0 < len0 && (#[trigger] es0[k0]).1 == ts0[t].0 && es0[k0].2.0 == r2;
            assert(ts0[t].0 != arch);
            assert(k0 != e);
            let k = if k0 == len0 - 1 { e } else { k0 };
            assert(es1[k] == es0[k0]);
            if fix == Some(k) {
                assert(es1[k].1 == arch);
                assert(false);
            }
            assert(es2[k] == es1[k]);
            assert(es2[k].1 == ts1[t].0 && es2[k].2.0 == r2);
        }
    }
    // Liveness and values of the others.
    assert forall|id2: EntityId| id2 != id implies (#[trigger] lives_in(es2, id2) <==> lives_in(
        es0,
        id2,
    )) by {
        if lives_in(es2, id2) {
            let k = e_ix(es2, id2);
            let k0 = if k == e { len0 - 1 } else { k };
            assert(es2[k].0 == es0[k0].0);
            assert(lives_in(es0, id2));
        }
        if lives_in(es0, id2) {
            let k0 = e_ix(es0, id2);
            assert(es0[k0].0 == id2);
            assert(k0 != e);
            let k = if k0 == len0 - 1 { e } else { k0 };
            assert(es2[k].0 == es0[k0].0);
            assert(lives_in(es2, id2));
        }
    }
    assert forall|id2: EntityId, ty: TypeTag| id2 != id implies #[trigger] spec_component(
        es2,
        ts1,
        id2,
        ty,
    ) == spec_component(es0, ts0, id2, ty) by {
        if lives_in(es0, id2) {
            let k0 = e_ix(es0, id2);
            assert(0 <= k0 < len0 && es0[k0].0 == id2);
            assert(k0 != e);
            let k = if k0 == len0 - 1 { e } else { k0 };
            assert(es1[k] == es0[k0]);
            assert(es2[k].0 == id2);
            lemma_e_ix_unique(es2, k);
            assert(e_ix(es2, id2) == k);
            let a2 = es0[k0].1;
            assert(es2[k].1 == a2);
            assert(regd(ts0, a2) && regd(ts1, a2));
            if a2 == arch {
                let c0 = t0.col(ty);
                let c1 = t1.col(ty);
                if t0.spec_has_column(ty) {
                    assert(t1.col_ix(ty) == t0.col_ix(ty));
                    assert(0 <= t0.col_ix(ty) < t0.columns@.len()) by {
                        let ci = t0.col_ix(ty);
                        assert(0 <= ci < t0.schema().len() && t0.schema()[ci] == ty);
                    }
                    assert(c1 == c0.update(row, c0.last()).drop_last());
                    assert(c0.len() == t0.length);
                    assert(c1.len() == last);
                    if fix == Some(k) {
                        assert(es0[k0].2.0 == last);
                        assert(es2[k].2.0 == row);
                        assert(row < last);
                        assert(c1[row] == c0[last]);
                        assert(spec_component(es2, ts1, id2, ty) == Some(c1[row]));
                        assert(spec_component(es0, ts0, id2, ty) == Some(c0[last]));
                    } else {
                        let r2 = es1[k].2.0 as int;
                        assert(es2[k].2 == es1[k].2);
                        assert(0 <= r2 < last && r2 != row);
                        assert(c1[r2] == c0[r2]);
                        assert(spec_component(es2, ts1, id2, ty) == Some(c1[r2]));
                        assert(spec_component(es0, ts0, id2, ty) == Some(c0[r2]));
                    }
                } else {
                    assert(!t1.spec_has_column(ty));
                    assert(spec_component(es2, ts1, id2, ty) is None);
                    assert(spec_component(es0, ts0, id2, ty) is None);
                }
            } else {
                assert(t_of(ts1, a2) == t_of(ts0, a2));
                if fix == Some(k) {
                    assert(es1[k].1 == arch);
                    assert(false);
                }
                assert(es2[k] == es1[k]);
                assert(es2[k] == es0[k0]);
                assert(spec_component(es2, ts1, id2, ty) == spec_component(es0, ts0, id2, ty));
            }
        } else {
            assert(!lives_in(es2, id2));
            assert(spec_component(es2, ts1, id2, ty) is None);
            assert(spec_component(es0, ts0, id2, ty) is None);
        }
    }
    assert forall|id2: EntityId| id2 != id && lives_in(es0, id2) implies #[trigger] es2[e_ix(
        es2,
        id2,
    )].1 == es0[e_ix(es0, id2)].1 && es2[e_ix(es2, id2)].2.0 == (if es0[e_ix(es0, id2)].1 == arch
        && es0[e_ix(es0, id2)].2.0 == last {
        row
    } else {
        es0[e_ix(es0, id2)].2.0 as int
    }) by {
        let k0 = e_ix(es0, id2);
        assert(0 <= k0 < len0 && es0[k0].0 == id2);
        assert(k0 != e);
        let k = if k0 == len0 - 1 { e } else { k0 };
        assert(es2[k].0 == id2 && es2[k].1 == es0[k0].1);
        lemma_e_ix_unique(es2, k);
        assert(es1[k] == es0[k0]);
        if fix == Some(k) {
            assert(es2[k].2.0 == row);
            assert(es1[k].1 == arch && es1[k].2.0 == last);
        } else {
            assert(es2[k].2 == es1[k].2);
            if es0[k0].1 == arch && es0[k0].2.0 == last {
                assert(0 <= k < len0 - 1 && es1[k].1 == arch && fix != Some(k));
                assert(es1[k].2.0 < last);
                assert(false);
            }
        }
    }
}


/// A conjunction of filters cannot tell two tables apart that have the
/// same schema.
proof fn lemma_all_match_same_cols(fs: Seq<Filter>, a: TypeTag, t0: Table, t1: Table)
    requires
        t0.wf(),
        t1.schema() == t0.schema(),
        all_match(fs, a, t0),
    ensures
        all_match(fs, a, t1),
{
    crate::table::lemma_col_ix_same(t0, t1);
    assert forall|k: int| 0 <= k < fs.len() implies #[trigger] fs[k].spec_matches(a, t1) by {
        assert(fs[k].spec_matches(a, t0));
    }
}

/// `read_sel` up to `t` depends only on the first `t` tables.
proof fn lemma_read_sel_prefix_eq(ts1: TableMap, ts0: TableMap, ty: TypeTag, fs: Seq<Filter>, t: int)
    requires
        forall|t2: int| 0 <= t2 < t ==> #[trigger] ts1[t2] == ts0[t2],
    ensures
        World::read_sel(ts1, ty, fs, t) == World::read_sel(ts0, ty, fs, t),
    decreases t,
{
    if t > 0 {
        lemma_read_sel_prefix_eq(ts1, ts0, ty, fs, t - 1);
    }
}

/// Each `read_sel` prefix extends the previous one by at most one column,
/// so the selection up to `t` is a prefix of the full selection.
proof fn lemma_read_sel_take(ts: TableMap, ty: TypeTag, fs: Seq<Filter>, t: int, n: int)
    requires
        0 <= t <= n,
    ensures
        World::read_sel(ts, ty, fs, t).len() <= World::read_sel(ts, ty, fs, n).len(),
        World::read_sel(ts, ty, fs, n).take(World::read_sel(ts, ty, fs, t).len() as int)
            == World::read_sel(ts, ty, fs, t),
    decreases n - t,
{
    if t < n {
        lemma_read_sel_take(ts, ty, fs, t + 1, n);
        assert(World::read_sel(ts, ty, fs, n).take(World::read_sel(ts, ty, fs, t).len() as int)
            =~= World::read_sel(ts, ty, fs, t));
    } else {
        assert(World::read_sel(ts, ty, fs, n).take(World::read_sel(ts, ty, fs, n).len() as int)
            =~= World::read_sel(ts, ty, fs, n));
    }
}

/// The selection never holds more chunks than there are tables.
proof fn lemma_read_sel_extends(ts: TableMap, ty: TypeTag, fs: Seq<Filter>, n: int)
    ensures
        World::read_sel(ts, ty, fs, n).len() <= if n <= 0 { 0 } else { n },
    decreases n,
{
    if n > 0 {
        lemma_read_sel_extends(ts, ty, fs, n - 1);
    }
}

/// Tables whose keys all stay the same keep the same registration map.
proof fn lemma_t_same_keys(ts0: TableMap, ts1: TableMap)
    requires
        spec_tables_wf(ts0),
        ts1.len() == ts0.len(),
        forall|t: int| 0 <= t < ts0.len() ==> (#[trigger] ts1[t]).0 == ts0[t].0,
        forall|t: int| 0 <= t < ts1.len() ==> (#[trigger] ts1[t].1).wf(),
    ensures
        spec_tables_wf(ts1),
        forall|a: TypeTag| #[trigger] regd(ts1, a) <==> regd(ts0, a),
        forall|a: TypeTag| #[trigger] regd(ts0, a) ==> t_ix(ts1, a) == t_ix(ts0, a),
{
    assert forall|i: int, j: int| 0 <= i < j < ts1.len() implies ts1[i].0 != ts1[j].0 by {
        assert(ts0[i].0 != ts0[j].0);
    }
    assert forall|a: TypeTag| #[trigger] regd(ts1, a) <==> regd(ts0, a) by {
        if regd(ts1, a) {
            let t = choose|t: int| 0 <= t < ts1.len() && ts1[t].0 == a;
            assert(ts0[t].0 == a);
        }
        if regd(ts0, a) {
            let t = choose|t: int| 0 <= t < ts0.len() && ts0[t].0 == a;
            assert(ts1[t].0 == a);
        }
    }
    assert forall|a: TypeTag| #[trigger] regd(ts0, a) implies t_ix(ts1, a) == t_ix(ts0, a) by {
        let t0 = t_ix(ts0, a);
        assert(0 <= t0 < ts0.len() && ts0[t0].0 == a);
        assert(ts1[t0].0 == a);
        assert(regd(ts1, a));
        let t1 = t_ix(ts1, a);
        assert(0 <= t1 < ts1.len() && ts1[t1].0 == a);
        assert(ts0[t1].0 == a);
        if t1 != t0 {
            assert(false);
        }
    }
}


/// Query correctness over a two-table world: with table `t1` holding
/// components `a` and `b` and table `t2` holding `a` only, a query for
/// `a`'s data among tables that also have `b` returns exactly `t1`'s
/// column, one value per row of `t1`; while an entity query filtered only
/// on the presence of `a` spans both tables, one handle per row of each.
pub proof fn lemma_query_two_tables(w: World, a: TypeTag, b: TypeTag)
    requires
        w.wf(),
        w.archetypes@.len() == 2,
        w.archetypes@[0].1.spec_has_column(a),
        w.archetypes@[0].1.spec_has_column(b),
        w.archetypes@[1].1.spec_has_column(a),
        !w.archetypes@[1].1.spec_has_column(b),
    ensures
        World::read_sel(w.archetypes@, a, seq![Filter::With(With(b))], 2) == seq![
            w.archetypes@[0].1.col(a),
        ],
        World::read_sel(w.archetypes@, a, seq![Filter::With(With(b))], 2).flatten().len()
            == w.archetypes@[0].1.length,
        World::ent_sel(w.entities@, w.archetypes@, seq![Filter::With(With(a))], 2).len()
            == w.archetypes@[0].1.length + w.archetypes@[1].1.length,
{
    let fs_b = seq![Filter::With(With(b))];
    let fs_a = seq![Filter::With(With(a))];
    let ts = w.archetypes@;
    assert(fs_b[0] == Filter::With(With(b)));
    assert(fs_a[0] == Filter::With(With(a)));
    assert(all_match(fs_b, ts[0].0, ts[0].1)) by {
        assert(fs_b[0].spec_matches(ts[0].0, ts[0].1));
        assert forall|k: int| 0 <= k < fs_b.len() implies #[trigger] fs_b[k].spec_matches(
            ts[0].0,
            ts[0].1,
        ) by {
            assert(k == 0);
        }
    }
    assert(!all_match(fs_b, ts[1].0, ts[1].1)) by {
        assert(!fs_b[0].spec_matches(ts[1].0, ts[1].1));
    }
    assert(all_match(fs_a, ts[0].0, ts[0].1)) by {
        assert forall|k: int| 0 <= k < fs_a.len() implies #[trigger] fs_a[k].spec_matches(
            ts[0].0,
            ts[0].1,
        ) by {
            assert(k == 0);
        }
    }
    assert(all_match(fs_a, ts[1].0, ts[1].1)) by {
        assert forall|k: int| 0 <= k < fs_a.len() implies #[trigger] fs_a[k].spec_matches(
            ts[1].0,
            ts[1].1,
        ) by {
            assert(k == 0);
        }
    }
    assert(World::read_sel(ts, a, fs_b, 0) == Seq::<Seq<Value>>::empty());
    assert(World::read_sel(ts, a, fs_b, 1) == Seq::<Seq<Value>>::empty().push(ts[0].1.col(a)));
    assert(World::read_sel(ts, a, fs_b, 2) == World::read_sel(ts, a, fs_b, 1));
    assert(World::read_sel(ts, a, fs_b, 2) =~= seq![ts[0].1.col(a)]);
    broadcast use vstd::prelude::Seq::lemma_flatten_singleton;

    assert(seq![ts[0].1.col(a)].flatten() == ts[0].1.col(a));
    assert(ts[0].1.col(a).len() == ts[0].1.length) by {
        let ci = ts[0].1.col_ix(a);
        assert(0 <= ci < ts[0].1.schema().len() && ts[0].1.schema()[ci] == a);
        assert(ts[0].1.wf());
    }
    assert(World::ent_sel(w.entities@, ts, fs_a, 0) == Seq::<EntityId>::empty());
    assert(World::ent_sel(w.entities@, ts, fs_a, 1) == Seq::<EntityId>::empty() + World::owners_of(
        w.entities@,
        ts[0].0,
        ts[0].1.length as int,
    ));
    assert(World::ent_sel(w.entities@, ts, fs_a, 2) == World::ent_sel(w.entities@, ts, fs_a, 1)
        + World::owners_of(w.entities@, ts[1].0, ts[1].1.length as int));
}

} // verus!
