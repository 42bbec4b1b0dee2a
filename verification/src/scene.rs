//! Scenes: capturing a set of live entities as plain rows of values, keyed
//! by archetype identity, and replaying them into a world.
//!
//! Saving resolves each recorded entity to its table and row, groups the
//! rows by archetype in registration order, and keys each group by a stable
//! hash of the archetype identity.  Loading finds the registered table for
//! each key, feeds the rows back through it, and mints a fresh handle per
//! row; a key with no matching registered archetype is a hard error, never
//! a silent drop.

use vstd::prelude::*;

use crate::table::Table;
use crate::value::{copy_values, TypeTag, Value};
use crate::world::{regd, t_ix, t_of, EntityId, World};

verus! {

/// The stable key under which an archetype's rows are stored in a saved
/// scene: its identity, which the composition root already chose to be a
/// stable integer.
pub open spec fn key_of(arch: TypeTag) -> u64 {
    arch.0
}

/// A recorded set of live entities, ready to be saved.
#[derive(Clone, Debug)]
pub struct Scene {
    pub entities: Vec<EntityId>,
}

/// A saved scene: for each archetype that had recorded entities, its key
/// and the captured rows.
pub struct SceneData {
    pub groups: Vec<(u64, Vec<Vec<Value>>)>,
}

impl SceneData {
    /// The groups as mathematical sequences.
    pub open spec fn view_groups(&self) -> Seq<(u64, Seq<Seq<Value>>)> {
        self.groups@.map_values(
            |g: (u64, Vec<Vec<Value>>)| (g.0, g.1@.map_values(|row: Vec<Value>| row@)),
        )
    }
}

/// Why a scene could not be loaded.
#[derive(Clone, Copy, Debug, PartialEq, Eq, Structural)]
pub enum SceneError {
    /// A key names an archetype that is not registered in the target
    /// world.
    UnknownArchetype(u64),
    /// A key names an archetype that was registered without scene support.
    UnsavedArchetype(u64),
    /// A row does not hold exactly one value per column of its table.
    RowShape(u64),
    /// The same archetype key occurs twice; a scene is a map.
    DuplicateArchetype(u64),
    /// A group holds more rows than its table can still index.
    TableOverflow(u64),
    /// The world cannot mint that many fresh handles.
    IdExhausted,
}

/// The rows captured for archetype `a` from the first `n` recorded
/// entities: one full table row per recorded entity that is live in `a`,
/// in recording order.
pub open spec fn rows_for(scene: Seq<EntityId>, w: World, a: TypeTag, n: int) -> Seq<Seq<Value>>
    decreases n,
{
    if n <= 0 {
        Seq::empty()
    } else {
        let pre = rows_for(scene, w, a, n - 1);
        if w.lives(scene[n - 1]) && w.arch_of(scene[n - 1]) == a {
            pre.push(w.table_of(a).row(w.row_of(scene[n - 1])))
        } else {
            pre
        }
    }
}

/// The saved groups over the first `t` registered tables, in registration
/// order; a table with no recorded entities contributes no group.
pub open spec fn save_spec(scene: Seq<EntityId>, w: World, t: int) -> Seq<(u64, Seq<Seq<Value>>)>
    decreases t,
{
    if t <= 0 {
        Seq::empty()
    } else {
        let pre = save_spec(scene, w, t - 1);
        let rows = rows_for(scene, w, w.archetypes@[t - 1].0, scene.len() as int);
        if rows.len() > 0 {
            pre.push((key_of(w.archetypes@[t - 1].0), rows))
        } else {
            pre
        }
    }
}

/// Whether one saved group can be loaded into `w`: its key names a
/// registered, scene-enabled archetype and every row has one value per
/// column.
pub open spec fn group_ok(w: World, g: (u64, Seq<Seq<Value>>)) -> bool {
    &&& regd(w.archetypes@, TypeTag(g.0))
    &&& t_of(w.archetypes@, TypeTag(g.0)).saved
    &&& forall|j: int|
        0 <= j < g.1.len() ==> (#[trigger] g.1[j]).len() == t_of(
            w.archetypes@,
            TypeTag(g.0),
        ).schema().len()
}

/// Whether an earlier group carries the same key.
pub open spec fn dup_before(gs: Seq<(u64, Seq<Seq<Value>>)>, i: int) -> bool {
    exists|j: int| 0 <= j < i && (#[trigger] gs[j]).0 == gs[i].0
}

/// Whether group `i` can be loaded: a fresh key naming a registered,
/// scene-enabled archetype, well-shaped rows, and few enough of them for
/// the table's row index.
pub open spec fn ok_at(w: World, gs: Seq<(u64, Seq<Seq<Value>>)>, i: int) -> bool {
    &&& !dup_before(gs, i)
    &&& group_ok(w, gs[i])
    &&& t_of(w.archetypes@, TypeTag(gs[i].0)).length + gs[i].1.len() <= u32::MAX
}

/// The error reported for a group that cannot be loaded, checked in the
/// order the loader checks them.
pub open spec fn error_at(w: World, gs: Seq<(u64, Seq<Seq<Value>>)>, i: int) -> SceneError {
    if dup_before(gs, i) {
        SceneError::DuplicateArchetype(gs[i].0)
    } else if !regd(w.archetypes@, TypeTag(gs[i].0)) {
        SceneError::UnknownArchetype(gs[i].0)
    } else if !t_of(w.archetypes@, TypeTag(gs[i].0)).saved {
        SceneError::UnsavedArchetype(gs[i].0)
    } else if exists|j: int|
        0 <= j < gs[i].1.len() && (#[trigger] gs[i].1[j]).len() != t_of(
            w.archetypes@,
            TypeTag(gs[i].0),
        ).schema().len() {
        SceneError::RowShape(gs[i].0)
    } else {
        SceneError::TableOverflow(gs[i].0)
    }
}

/// The index of the first group, from `i` on, that cannot be loaded; `-1`
/// when all can.
pub open spec fn first_bad(w: World, gs: Seq<(u64, Seq<Seq<Value>>)>, i: int) -> int
    decreases gs.len() - i,
{
    if i < 0 || i >= gs.len() {
        -1
    } else if !ok_at(w, gs, i) {
        i
    } else {
        first_bad(w, gs, i + 1)
    }
}

/// Whether a whole scene can be loaded into `w`: every group can, and the
/// handle counter has room for every row.
pub open spec fn scene_ok(w: World, gs: Seq<(u64, Seq<Seq<Value>>)>) -> bool {
    &&& forall|i: int| 0 <= i < gs.len() ==> #[trigger] ok_at(w, gs, i)
    &&& w.next_id + total_rows(gs) <= u64::MAX
}

/// The total number of rows across all groups.
pub open spec fn total_rows(gs: Seq<(u64, Seq<Seq<Value>>)>) -> int
    decreases gs.len(),
{
    if gs.len() == 0 {
        0
    } else {
        total_rows(gs.drop_last()) + gs.last().1.len()
    }
}

impl Scene {
    /// An empty recording.
    pub fn new() -> (r: Self)
        ensures
            r.entities@.len() == 0,
    {
        Self { entities: Vec::new() }
    }

    /// Records one entity.
    pub fn add(&mut self, entity: EntityId)
        ensures
            final(self).entities@ == old(self).entities@.push(entity),
    {
        self.entities.push(entity);
    }

    /// Records every live entity of `world`, in identity-map order.
    pub fn from_world(&mut self, world: &World)
        ensures
            final(self).entities@.len() == old(self).entities@.len() + world.entities@.len(),
            forall|i: int|
                0 <= i < old(self).entities@.len() ==> #[trigger] final(self).entities@[i] == old(
                    self,
                ).entities@[i],
            forall|i: int|
                0 <= i < world.entities@.len() ==> #[trigger] final(self).entities@[old(
                    self,
                ).entities@.len() + i] == world.entities@[i].0,
    {
        let n = world.entities.len();
        for i in 0..n
            invariant
                n == world.entities@.len(),
                self.entities@.len() == old(self).entities@.len() + i,
                forall|j: int|
                    0 <= j < old(self).entities@.len() ==> #[trigger] self.entities@[j] == old(
                        self,
                    ).entities@[j],
                forall|j: int|
                    0 <= j < i ==> #[trigger] self.entities@[old(self).entities@.len() + j]
                        == world.entities@[j].0,
        {
            self.entities.push(world.entities[i].0);
        }
    }

    /// Captures the recorded entities of `world` as plain rows, grouped by
    /// archetype in registration order and keyed by each archetype's
    /// stable key.  Recorded handles that are no longer live are skipped;
    /// every recorded live entity must belong to a scene-enabled table.
    pub fn save(&self, world: &World) -> (r: SceneData)
        requires
            world.wf(),
            forall|i: int|
                0 <= i < self.entities@.len() && world.lives(#[trigger] self.entities@[i])
                    ==> world.table_of(world.arch_of(self.entities@[i])).saved,
        ensures
            r.view_groups() == save_spec(self.entities@, *world, world.archetypes@.len() as int),
    {
        let mut groups: Vec<(u64, Vec<Vec<Value>>)> = Vec::new();
        let nt = world.archetypes.len();
        for t in 0..nt
            invariant
                world.wf(),
                nt == world.archetypes@.len(),
                forall|i: int|
                    0 <= i < self.entities@.len() && world.lives(#[trigger] self.entities@[i])
                        ==> world.table_of(world.arch_of(self.entities@[i])).saved,
                groups@.map_values(
                    |g: (u64, Vec<Vec<Value>>)| (g.0, g.1@.map_values(|row: Vec<Value>| row@)),
                ) == save_spec(self.entities@, *world, t as int),
        {
            let ghost pre = groups@.map_values(
                |g: (u64, Vec<Vec<Value>>)| (g.0, g.1@.map_values(|row: Vec<Value>| row@)),
            );
            let a = world.archetypes[t].0;
            let mut rows: Vec<Vec<Value>> = Vec::new();
            let ne = self.entities.len();
            for i in 0..ne
                invariant
                    world.wf(),
                    nt == world.archetypes@.len(),
                    t < nt,
                    a == world.archetypes@[t as int].0,
                    ne == self.entities@.len(),
                    rows@.map_values(|row: Vec<Value>| row@) == rows_for(
                        self.entities@,
                        *world,
                        a,
                        i as int,
                    ),
            {
                let ghost rpre = rows@.map_values(|row: Vec<Value>| row@);
                match world.place(self.entities[i]) {
                    Some(p) => {
                        if p.0 == a {
                            match world.table(a) {
                                Some(table) => {
                                    let row = table.get(p.1);
                                    rows.push(row);
                                    proof {
                                        assert(rows@.map_values(|row: Vec<Value>| row@)
                                            =~= rpre.push(
                                            world.table_of(a).row(
                                                world.row_of(self.entities@[i as int]),
                                            ),
                                        ));
                                    }
                                },
                                None => {
                                    proof {
                                        assert(false);
                                    }
                                },
                            }
                        }
                    },
                    None => {},
                }
            }
            if rows.len() > 0 {
                groups.push((a.0, rows));
                proof {
                    assert(groups@.map_values(
                        |g: (u64, Vec<Vec<Value>>)| (g.0, g.1@.map_values(|row: Vec<Value>| row@)),
                    ) =~= pre.push(
                        (
                            key_of(a),
                            rows_for(self.entities@, *world, a, self.entities@.len() as int),
                        ),
                    ));
                }
            }
        }
        SceneData { groups }
    }

    /// Replays a saved scene into `world`: for each group, the registered
    /// archetype with the matching key receives the group's rows as new
    /// entities, each under a freshly minted handle, and the scene of
    /// those handles is returned.  The input is untrusted: a key with no
    /// registered archetype, a key whose archetype is not scene-enabled, a
    /// misshapen row, a repeated key, or more rows than the row index or
    /// the handle counter can absorb is a hard error, and the world is
    /// left untouched.
    pub fn load(world: &mut World, data: &SceneData) -> (r: Result<Scene, SceneError>)
        requires
            old(world).wf(),
        ensures
            final(world).wf(),
            r is Ok <==> scene_ok(*old(world), data.view_groups()),
            r matches Err(e) ==> {
                let b = first_bad(*old(world), data.view_groups(), 0);
                &&& e == (if b >= 0 {
                    error_at(*old(world), data.view_groups(), b)
                } else {
                    SceneError::IdExhausted
                })
                &&& *final(world) == *old(world)
            },
            r matches Ok(scene) ==> {
                let gs = data.view_groups();
                &&& scene.entities@.len() == total_rows(gs)
                &&& (forall|j: int|
                    0 <= j < scene.entities@.len() ==> (#[trigger] scene.entities@[j])
                        == EntityId((old(world).next_id + j) as u64))
                &&& (forall|j: int|
                    0 <= j < scene.entities@.len() ==> final(world).lives(
                        #[trigger] scene.entities@[j],
                    ))
                &&& final(world).next_id == old(world).next_id + total_rows(gs)
                &&& final(world).resources == old(world).resources
                &&& (forall|a: TypeTag|
                    #[trigger] final(world).registered(a) <==> old(world).registered(a))
                &&& (forall|i: int|
                    0 <= i < gs.len() ==> {
                        let a = TypeTag((#[trigger] gs[i]).0);
                        &&& final(world).table_of(a).length == old(world).table_of(a).length
                            + gs[i].1.len()
                        &&& final(world).table_of(a).schema() == old(world).table_of(a).schema()
                        &&& (forall|j: int|
                            0 <= j < gs[i].1.len() ==> final(world).table_of(a).row(
                                old(world).table_of(a).length + j,
                            ) == #[trigger] gs[i].1[j])
                    })
                &&& (forall|a: TypeTag|
                    old(world).registered(a) && !(exists|i: int|
                        0 <= i < gs.len() && (#[trigger] gs[i]).0 == a.0) ==> final(world).table_of(
                        a,
                    ) == old(world).table_of(a))
                &&& (forall|id2: EntityId, ty: TypeTag|
                    old(world).lives(id2) ==> #[trigger] final(world).component_of(id2, ty) == old(
                        world,
                    ).component_of(id2, ty))
            },
    {
        let ghost w0 = *world;
        let ghost gs = data.view_groups();
        // Validation pass: find the first group that cannot be loaded.
        let ng = data.groups.len();
        for g in 0..ng
            invariant
                *world == w0,
                w0.wf(),
                gs == data.view_groups(),
                ng == data.groups@.len(),
                first_bad(w0, gs, 0) == first_bad(w0, gs, g as int),
                forall|i: int| 0 <= i < g ==> #[trigger] ok_at(w0, gs, i),
        {
            let key = data.groups[g].0;
            let arch = TypeTag(key);
            proof {
                assert(gs[g as int] == (
                    data.groups@[g as int].0,
                    data.groups@[g as int].1@.map_values(|row: Vec<Value>| row@),
                ));
            }
            for j2 in 0..g
                invariant
                    *world == w0,
                    w0.wf(),
                    gs == data.view_groups(),
                    ng == data.groups@.len(),
                    g < ng,
                    key == gs[g as int].0,
                    first_bad(w0, gs, 0) == first_bad(w0, gs, g as int),
                    forall|i: int| 0 <= i < j2 ==> (#[trigger] gs[i]).0 != key,
            {
                proof {
                    assert(gs[j2 as int] == (
                        data.groups@[j2 as int].0,
                        data.groups@[j2 as int].1@.map_values(|row: Vec<Value>| row@),
                    ));
                }
                if data.groups[j2].0 == key {
                    proof {
                        assert(dup_before(gs, g as int));
                        assert(!ok_at(w0, gs, g as int));
                        assert(first_bad(w0, gs, g as int) == g as int);
                    }
                    return Err(SceneError::DuplicateArchetype(key));
                }
            }
            proof {
                assert(!dup_before(gs, g as int));
            }
            match world.table(arch) {
                Some(table) => {
                    if !table.saved {
                        proof {
                            assert(!group_ok(w0, gs[g as int]));
                            assert(!ok_at(w0, gs, g as int));
                            assert(first_bad(w0, gs, g as int) == g as int);
                        }
                        return Err(SceneError::UnsavedArchetype(key));
                    }
                    let width = table.columns.len();
                    let nr = data.groups[g].1.len();
                    for j in 0..nr
                        invariant
                            *world == w0,
                            w0.wf(),
                            gs == data.view_groups(),
                            ng == data.groups@.len(),
                            g < ng,
                            key == gs[g as int].0,
                            nr == gs[g as int].1.len(),
                            width == t_of(w0.archetypes@, TypeTag(gs[g as int].0)).schema().len(),
                            regd(w0.archetypes@, TypeTag(gs[g as int].0)),
                            t_of(w0.archetypes@, TypeTag(gs[g as int].0)).saved,
                            !dup_before(gs, g as int),
                            first_bad(w0, gs, 0) == first_bad(w0, gs, g as int),
                            forall|j2: int|
                                0 <= j2 < j ==> (#[trigger] gs[g as int].1[j2]).len() == width,
                    {
                        proof {
                            assert(gs[g as int] == (
                                data.groups@[g as int].0,
                                data.groups@[g as int].1@.map_values(|row: Vec<Value>| row@),
                            ));
                        }
                        if data.groups[g].1[j].len() != width {
                            proof {
                                assert(gs[g as int].1[j as int].len() != width);
                                assert(!group_ok(w0, gs[g as int]));
                                assert(!ok_at(w0, gs, g as int));
                                assert(first_bad(w0, gs, g as int) == g as int);
                            }
                            return Err(SceneError::RowShape(key));
                        }
                    }
                    let nrows = data.groups[g].1.len();
                    proof {
                        let tx = t_ix(w0.archetypes@, TypeTag(gs[g as int].0));
                        assert(0 <= tx < w0.archetypes@.len() && w0.archetypes@[tx].0 == TypeTag(
                            gs[g as int].0,
                        ));
                        assert(w0.archetypes@[tx].1.wf());
                        assert(table.length <= u32::MAX);
                    }
                    if (nrows as u64) > (u32::MAX as u64) || (table.len() as u64) + (nrows
                        as u64) > (u32::MAX as u64) {
                        proof {
                            assert(t_of(w0.archetypes@, TypeTag(gs[g as int].0)).length
                                + gs[g as int].1.len() > u32::MAX);
                            assert(!ok_at(w0, gs, g as int));
                            assert(first_bad(w0, gs, g as int) == g as int);
                            assert(group_ok(w0, gs[g as int]));
                            assert(error_at(w0, gs, g as int) == SceneError::TableOverflow(key));
                        }
                        return Err(SceneError::TableOverflow(key));
                    }
                    proof {
                        assert(group_ok(w0, gs[g as int]));
                        assert(ok_at(w0, gs, g as int));
                    }
                },
                None => {
                    proof {
                        assert(!group_ok(w0, gs[g as int]));
                        assert(!ok_at(w0, gs, g as int));
                        assert(first_bad(w0, gs, g as int) == g as int);
                    }
                    return Err(SceneError::UnknownArchetype(key));
                },
            }
        }
        // Counter pass: the handle counter must have room for every row.
        proof {
            assert(first_bad(w0, gs, ng as int) == -1);
        }
        let mut total: u64 = 0;
        for g in 0..ng
            invariant
                *world == w0,
                w0.wf(),
                gs == data.view_groups(),
                ng == data.groups@.len(),
                forall|i: int| 0 <= i < ng ==> #[trigger] ok_at(w0, gs, i),
                first_bad(w0, gs, 0) == -1,
                total == total_rows(gs.take(g as int)),
        {
            proof {
                assert(gs[g as int] == (
                    data.groups@[g as int].0,
                    data.groups@[g as int].1@.map_values(|row: Vec<Value>| row@),
                ));
                lemma_total_rows_step(gs, g as int);
            }
            let count = data.groups[g].1.len() as u64;
            if total > u64::MAX - count {
                proof {
                    lemma_total_rows_bounds(gs, g as int + 1);
                    assert(w0.next_id + total_rows(gs) > u64::MAX);
                    assert(!scene_ok(w0, gs));
                }
                return Err(SceneError::IdExhausted);
            }
            total = total + count;
        }
        proof {
            assert(gs.take(ng as int) =~= gs);
        }
        if world.next_id > u64::MAX - total {
            proof {
                assert(w0.next_id + total_rows(gs) > u64::MAX);
                assert(!scene_ok(w0, gs));
            }
            return Err(SceneError::IdExhausted);
        }
        proof {
            assert(w0.next_id + total_rows(gs) <= u64::MAX);
            assert forall|i: int, j: int| 0 <= i < j < gs.len() implies gs[i].0 != gs[j].0 by {
                assert(ok_at(w0, gs, j));
                if gs[i].0 == gs[j].0 {
                    assert(dup_before(gs, j));
                }
            }
            assert forall|i: int| 0 <= i < ng implies group_ok(w0, #[trigger] gs[i]) by {
                assert(ok_at(w0, gs, i));
            }
            assert forall|i: int|
                0 <= i < gs.len() && regd(
                    w0.archetypes@,
                    TypeTag((#[trigger] gs[i]).0),
                ) implies t_of(w0.archetypes@, TypeTag(gs[i].0)).length + gs[i].1.len()
                <= u32::MAX by {
                assert(ok_at(w0, gs, i));
            }
            lemma_total_rows_bounds(gs, 0);
        }
        // Application pass: every group is loadable; feed the rows back.
        let mut minted: Vec<EntityId> = Vec::new();
        for g in 0..ng
            invariant
                world.wf(),
                w0.wf(),
                gs == data.view_groups(),
                ng == data.groups@.len(),
                forall|i: int| 0 <= i < ng ==> group_ok(w0, #[trigger] gs[i]),
                forall|i: int, j: int| 0 <= i < j < gs.len() ==> gs[i].0 != gs[j].0,
                w0.next_id + total_rows(gs) <= u64::MAX,
                forall|i: int|
                    0 <= i < gs.len() && regd(w0.archetypes@, TypeTag((#[trigger] gs[i]).0))
                        ==> t_of(w0.archetypes@, TypeTag(gs[i].0)).length + gs[i].1.len()
                        <= u32::MAX,
                minted@.len() == total_rows(gs.take(g as int)),
                world.next_id == w0.next_id + minted@.len(),
                forall|j: int|
                    0 <= j < minted@.len() ==> (#[trigger] minted@[j]) == EntityId(
                        (w0.next_id + j) as u64,
                    ),
                forall|j: int| 0 <= j < minted@.len() ==> world.lives(#[trigger] minted@[j]),
                world.resources == w0.resources,
                forall|a: TypeTag| #[trigger] world.registered(a) <==> w0.registered(a),
                forall|i: int|
                    0 <= i < g ==> {
                        let a = TypeTag((#[trigger] gs[i]).0);
                        &&& world.table_of(a).length == w0.table_of(a).length + gs[i].1.len()
                        &&& world.table_of(a).schema() == w0.table_of(a).schema()
                        &&& (forall|j: int|
                            0 <= j < gs[i].1.len() ==> world.table_of(a).row(
                                w0.table_of(a).length + j,
                            ) == #[trigger] gs[i].1[j])
                    },
                forall|a: TypeTag|
                    w0.registered(a) && !(exists|i: int|
                        0 <= i < g && (#[trigger] gs[i]).0 == a.0) ==> world.table_of(a)
                        == w0.table_of(a),
                forall|id2: EntityId, ty: TypeTag|
                    w0.lives(id2) ==> #[trigger] world.component_of(id2, ty) == w0.component_of(
                        id2,
                        ty,
                    ),
                forall|id2: EntityId| w0.lives(id2) ==> (#[trigger] world.lives(id2)),
        {
            let key = data.groups[g].0;
            let arch = TypeTag(key);
            let ghost gpre = *world;
            let nr = data.groups[g].1.len();
            proof {
                lemma_total_rows_step(gs, g as int);
                lemma_total_rows_bounds(gs, g as int + 1);
                assert(regd(w0.archetypes@, arch));
                assert(world.table_of(arch) == w0.table_of(arch));
            }
            for j in 0..nr
                invariant
                    world.wf(),
                    w0.wf(),
                    gpre.wf(),
                    gs == data.view_groups(),
                    ng == data.groups@.len(),
                    g < ng,
                    key == gs[g as int].0,
                    arch == TypeTag(key),
                    nr == gs[g as int].1.len(),
                    group_ok(w0, gs[g as int]),
                    regd(w0.archetypes@, arch),
                    gpre.table_of(arch) == w0.table_of(arch),
                    w0.table_of(arch).length + nr <= u32::MAX,
                    minted@.len() == total_rows(gs.take(g as int)) + j,
                    w0.next_id + total_rows(gs.take(g as int)) + nr <= u64::MAX,
                    world.next_id == w0.next_id + minted@.len(),
                    forall|j2: int|
                        0 <= j2 < minted@.len() ==> (#[trigger] minted@[j2]) == EntityId(
                            (w0.next_id + j2) as u64,
                        ),
                    forall|j2: int| 0 <= j2 < minted@.len() ==> world.lives(#[trigger] minted@[j2]),
                    world.resources == gpre.resources,
                    forall|a: TypeTag| #[trigger] world.registered(a) <==> gpre.registered(a),
                    world.table_of(arch).length == w0.table_of(arch).length + j,
                    world.table_of(arch).schema() == w0.table_of(arch).schema(),
                    forall|j2: int|
                        0 <= j2 < j ==> world.table_of(arch).row(w0.table_of(arch).length + j2)
                            == #[trigger] gs[g as int].1[j2],
                    forall|a: TypeTag|
                        gpre.registered(a) && a != arch ==> #[trigger] world.table_of(a)
                            == gpre.table_of(a),
                    forall|id2: EntityId, ty: TypeTag|
                        gpre.lives(id2) ==> #[trigger] world.component_of(id2, ty)
                            == gpre.component_of(id2, ty),
                    forall|id2: EntityId| gpre.lives(id2) ==> (#[trigger] world.lives(id2)),
                    world.registered(arch),
            {
                let row = copy_values(&data.groups[g].1[j]);
                proof {
                    assert(gs[g as int] == (
                        data.groups@[g as int].0,
                        data.groups@[g as int].1@.map_values(|row2: Vec<Value>| row2@),
                    ));
                    assert(gs[g as int].1[j as int] == data.groups@[g as int].1@[j as int]@);
                    assert(row@.len() == world.table_of(arch).schema().len());
                }
                let ghost wpre = *world;
                let id = world.spawn(arch, &row);
                minted.push(id);
                proof {
                    assert forall|id2: EntityId| wpre.lives(id2) implies world.lives(id2) by {
                        let k = choose|k: int|
                            0 <= k < wpre.entities@.len() && (#[trigger] wpre.entities@[k]).0
                                == id2;
                        assert(world.entities@[k].0 == id2);
                    }
                    assert forall|id2: EntityId| gpre.lives(id2) implies world.lives(id2) by {
                        assert(wpre.lives(id2));
                    }
                    assert(world.table_of(arch).row(w0.table_of(arch).length + j)
                        =~= gs[g as int].1[j as int]);
                    assert(wpre.table_of(arch).columns@.len() == wpre.table_of(
                        arch,
                    ).schema().len());
                    assert forall|j2: int|
                        0 <= j2 < j implies world.table_of(arch).row(
                        w0.table_of(arch).length + j2,
                    ) == #[trigger] gs[g as int].1[j2] by {
                        lemma_row_preserved(
                            wpre.table_of(arch),
                            world.table_of(arch),
                            row@,
                            w0.table_of(arch).length + j2,
                        );
                        assert(wpre.table_of(arch).row(w0.table_of(arch).length + j2)
                            == gs[g as int].1[j2]);
                    }
                }
            }
            proof {
                assert(gs.take(g as int + 1).drop_last() =~= gs.take(g as int));
                assert(gs.take(g as int + 1).last() == gs[g as int]);
                assert forall|i: int|
                    0 <= i < g + 1 implies {
                    let a = TypeTag((#[trigger] gs[i]).0);
                    &&& world.table_of(a).length == w0.table_of(a).length + gs[i].1.len()
                    &&& world.table_of(a).schema() == w0.table_of(a).schema()
                    &&& (forall|j: int|
                        0 <= j < gs[i].1.len() ==> world.table_of(a).row(
                            w0.table_of(a).length + j,
                        ) == #[trigger] gs[i].1[j])
                } by {
                    if i < g {
                        let a = TypeTag(gs[i].0);
                        assert(gs[i].0 != gs[g as int].0);
                        assert(a != arch);
                        assert(regd(w0.archetypes@, a));
                        assert(world.table_of(a) == gpre.table_of(a));
                    }
                }
            }
        }
        proof {
            assert(gs.take(ng as int) =~= gs);
        }
        Ok(Scene { entities: minted })
    }
}

/// Group totals accumulate one group at a time.
proof fn lemma_total_rows_step(gs: Seq<(u64, Seq<Seq<Value>>)>, g: int)
    requires
        0 <= g < gs.len(),
    ensures
        total_rows(gs.take(g + 1)) == total_rows(gs.take(g)) + gs[g].1.len(),
{
    assert(gs.take(g + 1).drop_last() =~= gs.take(g));
    assert(gs.take(g + 1).last() == gs[g]);
}

/// A prefix never holds more rows than the whole, and no fewer than none.
proof fn lemma_total_rows_bounds(gs: Seq<(u64, Seq<Seq<Value>>)>, g: int)
    requires
        0 <= g <= gs.len(),
    ensures
        0 <= total_rows(gs.take(g)) <= total_rows(gs),
    decreases gs.len() - g,
{
    if g == gs.len() {
        assert(gs.take(g) =~= gs);
        lemma_total_rows_nonneg(gs);
    } else {
        lemma_total_rows_step(gs, g);
        lemma_total_rows_bounds(gs, g + 1);
        lemma_total_rows_nonneg(gs.take(g));
    }
}

proof fn lemma_total_rows_nonneg(gs: Seq<(u64, Seq<Seq<Value>>)>)
    ensures
        total_rows(gs) >= 0,
    decreases gs.len(),
{
    if gs.len() > 0 {
        lemma_total_rows_nonneg(gs.drop_last());
    }
}

/// Appending one value to every column leaves every pre-existing row as
/// it was.
proof fn lemma_row_preserved(t1: Table, t2: Table, vals: Seq<Value>, r: int)
    requires
        t1.wf(),
        t2.columns@.len() == t1.columns@.len(),
        vals.len() == t1.columns@.len(),
        forall|i: int|
            0 <= i < t1.columns@.len() ==> #[trigger] t2.col_at(i) == t1.col_at(i).push(vals[i]),
        0 <= r < t1.length,
    ensures
        t2.row(r) == t1.row(r),
{
    assert forall|i: int| 0 <= i < t1.columns@.len() implies t2.col_at(i)[r] == t1.col_at(i)[r] by {
        assert(t2.col_at(i) == t1.col_at(i).push(vals[i]));
        assert(t1.col_at(i).len() == t1.length);
    }
    assert(t2.row(r) =~= t1.row(r));
}


/// Non-empty captures come from some recorded live entity of that
/// archetype.
proof fn lemma_rows_source(scene: Seq<EntityId>, w: World, a: TypeTag, n: int)
    requires
        rows_for(scene, w, a, n).len() > 0,
    ensures
        exists|i: int| 0 <= i < n && w.lives(#[trigger] scene[i]) && w.arch_of(scene[i]) == a,
    decreases n,
{
    if n > 0 {
        if w.lives(scene[n - 1]) && w.arch_of(scene[n - 1]) == a {
            assert(0 <= n - 1 < n && w.lives(scene[n - 1]) && w.arch_of(scene[n - 1]) == a);
        } else {
            lemma_rows_source(scene, w, a, n - 1);
        }
    }
}

/// Every captured row holds one value per column of its table.
proof fn lemma_rows_arity(scene: Seq<EntityId>, w: World, a: TypeTag, n: int)
    ensures
        forall|j: int|
            0 <= j < rows_for(scene, w, a, n).len() ==> (#[trigger] rows_for(scene, w, a, n)[j]).len()
                == w.table_of(a).schema().len(),
    decreases n,
{
    if n > 0 {
        lemma_rows_arity(scene, w, a, n - 1);
        let pre = rows_for(scene, w, a, n - 1);
        let cur = rows_for(scene, w, a, n);
        assert forall|j: int| 0 <= j < cur.len() implies (#[trigger] cur[j]).len() == w.table_of(
            a,
        ).schema().len() by {
            if j < pre.len() {
                assert(cur[j] == pre[j]);
                assert(pre[j].len() == w.table_of(a).schema().len());
            } else {
                assert(cur[j] == w.table_of(a).row(w.row_of(scene[n - 1])));
            }
        }
    }
}

/// Saving then loading reconstructs the scene: the groups a save captures
/// from `w` carry distinct keys, and each passes every archetype and
/// shape check of [`Scene::load`] against any world `w2` in which the
/// same archetypes are registered with the same schemas — so, whenever
/// `w2`'s row and handle counters also have room for the captured rows, a
/// load of the saved data succeeds and, by the contract of
/// [`Scene::load`], appends rows field-wise equal to the captured ones,
/// under fresh entity handles.
pub proof fn lemma_scene_round_trip(scene: Scene, w: World, w2: World)
    requires
        w.wf(),
        w2.wf(),
        forall|a: TypeTag| #[trigger] w2.registered(a) <==> w.registered(a),
        forall|a: TypeTag|
            #[trigger] w.registered(a) ==> w2.table_of(a).schema() == w.table_of(a).schema()
                && w2.table_of(a).saved == w.table_of(a).saved,
        forall|i: int|
            0 <= i < scene.entities@.len() && w.lives(#[trigger] scene.entities@[i])
                ==> w.table_of(w.arch_of(scene.entities@[i])).saved,
    ensures
        forall|i: int, j: int|
            0 <= i < j < save_spec(scene.entities@, w, w.archetypes@.len() as int).len()
                ==> save_spec(scene.entities@, w, w.archetypes@.len() as int)[i].0 != save_spec(
                scene.entities@,
                w,
                w.archetypes@.len() as int,
            )[j].0,
        forall|i: int|
            0 <= i < save_spec(scene.entities@, w, w.archetypes@.len() as int).len() ==> group_ok(
                w2,
                #[trigger] save_spec(scene.entities@, w, w.archetypes@.len() as int)[i],
            ),
        forall|i: int|
            0 <= i < save_spec(scene.entities@, w, w.archetypes@.len() as int).len()
                ==> !(#[trigger] dup_before(
                save_spec(scene.entities@, w, w.archetypes@.len() as int),
                i,
            )),
{
    lemma_save_groups_ok(scene.entities@, w, w2, w.archetypes@.len() as int);
    let gs = save_spec(scene.entities@, w, w.archetypes@.len() as int);
    assert forall|i: int| 0 <= i < gs.len() implies !(#[trigger] dup_before(gs, i)) by {
        if dup_before(gs, i) {
            let j = choose|j: int| 0 <= j < i && (#[trigger] gs[j]).0 == gs[i].0;
            assert(gs[j].0 != gs[i].0);
        }
    }
}

/// The inductive core of the round trip, over save prefixes.
proof fn lemma_save_groups_ok(scene: Seq<EntityId>, w: World, w2: World, t: int)
    requires
        w.wf(),
        w2.wf(),
        0 <= t <= w.archetypes@.len(),
        forall|a: TypeTag| #[trigger] w2.registered(a) <==> w.registered(a),
        forall|a: TypeTag|
            #[trigger] w.registered(a) ==> w2.table_of(a).schema() == w.table_of(a).schema()
                && w2.table_of(a).saved == w.table_of(a).saved,
        forall|i: int|
            0 <= i < scene.len() && w.lives(#[trigger] scene[i]) ==> w.table_of(
                w.arch_of(scene[i]),
            ).saved,
    ensures
        forall|i: int|
            0 <= i < save_spec(scene, w, t).len() ==> exists|t2: int|
                0 <= t2 < t && (#[trigger] save_spec(scene, w, t)[i]).0 == key_of(
                    w.archetypes@[t2].0,
                ),
        forall|i: int, j: int|
            0 <= i < j < save_spec(scene, w, t).len() ==> save_spec(scene, w, t)[i].0 != save_spec(
                scene,
                w,
                t,
            )[j].0,
        forall|i: int|
            0 <= i < save_spec(scene, w, t).len() ==> group_ok(
                w2,
                #[trigger] save_spec(scene, w, t)[i],
            ),
    decreases t,
{
    if t > 0 {
        lemma_save_groups_ok(scene, w, w2, t - 1);
        let pre = save_spec(scene, w, t - 1);
        let gs = save_spec(scene, w, t);
        let a = w.archetypes@[t - 1].0;
        let rows = rows_for(scene, w, a, scene.len() as int);
        if rows.len() > 0 {
            assert(gs == pre.push((key_of(a), rows)));
            assert(regd(w.archetypes@, a));
            assert(t_ix(w.archetypes@, a) == t - 1) by {
                let tx = t_ix(w.archetypes@, a);
                assert(0 <= tx < w.archetypes@.len() && w.archetypes@[tx].0 == a);
                if tx != t - 1 {
                    assert(false);
                }
            }
            assert(group_ok(w2, (key_of(a), rows))) by {
                assert(TypeTag(key_of(a)) == a);
                assert(w.registered(a));
                assert(w2.registered(a));
                lemma_rows_source(scene, w, a, scene.len() as int);
                let i = choose|i: int|
                    0 <= i < scene.len() && w.lives(#[trigger] scene[i]) && w.arch_of(scene[i])
                        == a;
                assert(w.table_of(a).saved);
                assert(w2.table_of(a).saved);
                lemma_rows_arity(scene, w, a, scene.len() as int);
                assert forall|j: int| 0 <= j < rows.len() implies (#[trigger] rows[j]).len()
                    == t_of(w2.archetypes@, a).schema().len() by {
                    assert(rows[j].len() == w.table_of(a).schema().len());
                }
            }
            assert forall|i: int| 0 <= i < gs.len() implies exists|t2: int|
                0 <= t2 < t && (#[trigger] gs[i]).0 == key_of(w.archetypes@[t2].0) by {
                if i < pre.len() {
                    assert(gs[i] == pre[i]);
                    let t2 = choose|t2: int|
                        0 <= t2 < t - 1 && (#[trigger] pre[i]).0 == key_of(w.archetypes@[t2].0);
                    assert(0 <= t2 < t && gs[i].0 == key_of(w.archetypes@[t2].0));
                } else {
                    assert(gs[i].0 == key_of(w.archetypes@[t - 1].0));
                }
            }
            assert forall|i: int, j: int| 0 <= i < j < gs.len() implies gs[i].0 != gs[j].0 by {
                if j < pre.len() {
                    assert(pre[i].0 != pre[j].0);
                } else {
                    assert(gs[i] == pre[i]);
                    let t2 = choose|t2: int|
                        0 <= t2 < t - 1 && (#[trigger] pre[i]).0 == key_of(w.archetypes@[t2].0);
                    assert(w.archetypes@[t2].0 != w.archetypes@[t - 1].0);
                    assert(w.archetypes@[t2].0.0 != w.archetypes@[t - 1].0.0);
                }
            }
            assert forall|i: int| 0 <= i < gs.len() implies group_ok(w2, #[trigger] gs[i]) by {
                if i < pre.len() {
                    assert(gs[i] == pre[i]);
                    assert(group_ok(w2, pre[i]));
                }
            }
        }
    }
}

} // verus!
