//! Tables: the storage backing one archetype.
//!
//! A table owns one [`Column`] per declared component identity plus a shared
//! row count.  Its invariant is that every column always holds exactly
//! `length` values.  Rows are appended by [`Table::add`], removed (with
//! swap-remove compaction) by [`Table::remove`], and read back whole by
//! [`Table::get`].

use vstd::prelude::*;

use crate::value::{TypeTag, Value};
use crate::vecany::VecAny;

verus! {

/// The current physical offset of a row within a table.  Rows move on
/// compaction, so a `RowIndex` is not an entity identity.
#[derive(Clone, Copy, Debug, PartialEq, Eq, Structural)]
pub struct RowIndex(pub u32);

/// One component column of a table.
pub struct Column {
    pub data: VecAny,
}

impl Column {
    /// Creates an empty column bound to `ty`.
    pub fn new(ty: TypeTag) -> (r: Self)
        ensures
            r.data.ty == ty,
            r.data@ =~= Seq::<Value>::empty(),
    {
        Self { data: VecAny::new_uninit(ty) }
    }

    /// The value at `index`, or `None` on an identity mismatch or an index
    /// past the end.
    pub fn get(&self, ty: TypeTag, index: RowIndex) -> (r: Option<Value>)
        ensures
            r is Some <==> (self.data.ty == ty && (index.0 as int) < self.data@.len()),
            r matches Some(v) ==> v == self.data@[index.0 as int],
    {
        self.data.get(ty, index.0 as usize)
    }

    /// Overwrites the value at `index`; reports whether it did.
    pub fn set(&mut self, ty: TypeTag, index: RowIndex, item: Value) -> (r: bool)
        ensures
            r <==> (old(self).data.ty == ty && (index.0 as int) < old(self).data@.len()),
            r ==> final(self).data@ == old(self).data@.update(index.0 as int, item),
            !r ==> *final(self) == *old(self),
            final(self).data.ty == old(self).data.ty,
    {
        self.data.set(ty, index.0 as usize, item)
    }
}

/// The declared schema of one archetype: its own identity plus the ordered
/// list of its component identities.
///
/// Component identities within one archetype are distinct; the well-
/// formedness predicate [`Archetype::wf`] records that.
pub struct Archetype {
    pub id: TypeTag,
    pub components: Vec<TypeTag>,
}

impl Archetype {
    /// Distinct component identities, and few enough columns to index.
    pub open spec fn wf(&self) -> bool {
        forall|i: int, j: int|
            0 <= i < j < self.components@.len() ==> self.components@[i] != self.components@[j]
    }

    pub fn new(id: TypeTag, components: Vec<TypeTag>) -> (r: Self)
        ensures
            r.id == id,
            r.components == components,
    {
        Self { id, components }
    }
}

/// The storage backing one archetype: one column per component identity and
/// a shared row count.  Tables built by [`Table::new`] participate in scene
/// save and load; tables built by [`Table::new_unsaved`] do not.
pub struct Table {
    pub length: usize,
    pub columns: Vec<Column>,
    pub saved: bool,
}

impl Table {
    /// The ordered component identities of this table's columns.
    pub open spec fn schema(&self) -> Seq<TypeTag> {
        self.columns@.map_values(|c: Column| c.data.ty)
    }

    /// The contents of column `i`.
    pub open spec fn col_at(&self, i: int) -> Seq<Value> {
        self.columns@[i].data@
    }

    /// All columns hold exactly `length` values, the row count fits a
    /// `RowIndex`, and component identities are distinct.
    pub open spec fn wf(&self) -> bool {
        &&& forall|i: int|
            0 <= i < self.columns@.len() ==> #[trigger] self.col_at(i).len() == self.length
        &&& self.length <= u32::MAX
        &&& forall|i: int, j: int|
            0 <= i < j < self.schema().len() ==> self.schema()[i] != self.schema()[j]
    }

    /// Whether some column is bound to `ty`.
    pub open spec fn spec_has_column(&self, ty: TypeTag) -> bool {
        exists|i: int| 0 <= i < self.schema().len() && self.schema()[i] == ty
    }

    /// The index of the column bound to `ty` (unique under [`Table::wf`]).
    pub open spec fn col_ix(&self, ty: TypeTag) -> int {
        choose|i: int| 0 <= i < self.schema().len() && self.schema()[i] == ty
    }

    /// The contents of the column bound to `ty`.
    pub open spec fn col(&self, ty: TypeTag) -> Seq<Value> {
        self.col_at(self.col_ix(ty))
    }

    /// The row at offset `r`: one value per column, in schema order.
    pub open spec fn row(&self, r: int) -> Seq<Value> {
        Seq::new(self.columns@.len() as nat, |i: int| self.col_at(i)[r])
    }

    /// Builds an empty table for `archetype`, excluded from scene save and
    /// load.
    pub fn new_unsaved(archetype: &Archetype) -> (r: Self)
        requires
            archetype.wf(),
        ensures
            r.wf(),
            r.length == 0,
            r.schema() =~= archetype.components@,
            !r.saved,
    {
        Self::build(archetype, false)
    }

    /// Builds an empty table for `archetype` that participates in scene
    /// save and load.
    pub fn new(archetype: &Archetype) -> (r: Self)
        requires
            archetype.wf(),
        ensures
            r.wf(),
            r.length == 0,
            r.schema() =~= archetype.components@,
            r.saved,
    {
        Self::build(archetype, true)
    }

    fn build(archetype: &Archetype, saved: bool) -> (r: Self)
        requires
            archetype.wf(),
        ensures
            r.wf(),
            r.length == 0,
            r.schema() =~= archetype.components@,
            r.saved == saved,
    {
        let mut columns: Vec<Column> = Vec::new();
        let n = archetype.components.len();
        for i in 0..n
            invariant
                n == archetype.components@.len(),
                columns@.len() == i,
                forall|j: int|
                    0 <= j < i ==> #[trigger] columns@[j].data.ty == archetype.components@[j],
                forall|j: int| 0 <= j < i ==> #[trigger] columns@[j].data@.len() == 0,
        {
            columns.push(Column::new(archetype.components[i]));
        }
        let r = Self { length: 0, columns, saved };
        proof {
            assert(r.schema() =~= archetype.components@);
        }
        r
    }

    /// Whether this table has a column bound to `ty`.
    pub fn has_column(&self, ty: TypeTag) -> (r: bool)
        ensures
            r <==> self.spec_has_column(ty),
    {
        let n = self.columns.len();
        for i in 0..n
            invariant
                n == self.columns@.len(),
                forall|j: int| 0 <= j < i ==> self.schema()[j] != ty,
        {
            if self.columns[i].data.ty() == ty {
                proof {
                    assert(self.schema()[i as int] == ty);
                }
                return true;
            }
        }
        false
    }

    /// The full contents of the column bound to `ty`, or `None` when this
    /// table has no such column.
    pub fn column(&self, ty: TypeTag) -> (r: Option<&Vec<Value>>)
        requires
            self.wf(),
        ensures
            r is Some <==> self.spec_has_column(ty),
            r matches Some(v) ==> v@ == self.col(ty),
    {
        let n = self.columns.len();
        for i in 0..n
            invariant
                n == self.columns@.len(),
                forall|j: int| 0 <= j < i ==> self.schema()[j] != ty,
                self.wf(),
        {
            if self.columns[i].data.ty() == ty {
                proof {
                    assert(self.schema()[i as int] == ty);
                    assert(self.col_ix(ty) == i as int);
                }
                let r = self.columns[i].data.downcast_ref(ty);
                match r {
                    Some(v) => {
                        return Some(v);
                    },
                    None => {
                        proof {
                            assert(false);
                        }
                    },
                }
            }
        }
        None
    }

    /// The current row count.
    pub fn len(&self) -> (r: usize)
        ensures
            r == self.length,
    {
        self.length
    }

    /// Whether the table holds no rows.
    pub fn is_empty(&self) -> (r: bool)
        ensures
            r <==> self.length == 0,
    {
        self.length == 0
    }

    /// Appends `row` as a new row: one value per column, in schema order.
    /// Returns the new row's index, which is the previous row count.
    pub fn add(&mut self, row: &Vec<Value>) -> (r: RowIndex)
        requires
            old(self).wf(),
            row@.len() == old(self).schema().len(),
            old(self).length < u32::MAX,
        ensures
            final(self).wf(),
            final(self).length == old(self).length + 1,
            final(self).schema() == old(self).schema(),
            final(self).saved == old(self).saved,
            final(self).columns@.len() == old(self).columns@.len(),
            forall|i: int|
                0 <= i < old(self).columns@.len() ==> #[trigger] final(self).col_at(i)
                    == old(self).col_at(i).push(row@[i]),
            r.0 == old(self).length,
            final(self).row(old(self).length as int) =~= row@,
    {
        let ghost prev = *self;
        let index = RowIndex(self.length as u32);
        self.length = self.length + 1;
        let n = self.columns.len();
        for i in 0..n
            invariant
                n == self.columns@.len(),
                n == prev.columns@.len(),
                row@.len() == n,
                self.length == prev.length + 1,
                self.saved == prev.saved,
                self.schema() == prev.schema(),
                forall|j: int|
                    0 <= j < i ==> #[trigger] self.col_at(j) == prev.col_at(j).push(row@[j]),
                forall|j: int| i <= j < n ==> #[trigger] self.columns@[j] == prev.columns@[j],
                prev.wf(),
        {
            let ghost snap = *self;
            let ty = self.columns[i].data.ty();
            proof {
                assert(self.columns@[i as int] == prev.columns@[i as int]);
            }
            let item = row[i];
            let c = crate::idx_mut(&mut self.columns, i);
            c.data.push(ty, item);
            proof {
                assert(self.columns@[i as int].data@ == prev.columns@[i as int].data@.push(
                    row@[i as int],
                ));
                assert(forall|j: int|
                    0 <= j < n && j != i ==> self.columns@[j] == snap.columns@[j]);
                assert(self.schema() =~= snap.schema());
                assert forall|j: int| 0 <= j <= i implies #[trigger] self.col_at(j)
                    == prev.col_at(j).push(row@[j]) by {
                    if j != i {
                        assert(self.columns@[j] == snap.columns@[j]);
                        assert(snap.col_at(j) == prev.col_at(j).push(row@[j]));
                    }
                }
            }
        }
        proof {
            assert forall|i: int| 0 <= i < n implies #[trigger] self.col_at(i).len()
                == self.length by {
                assert(self.col_at(i) == prev.col_at(i).push(row@[i]));
            }
        }
        index
    }

    /// Removes the row at `row` by swap-remove: every column moves its last
    /// value into slot `row` and drops its last slot.  The caller is
    /// responsible for repointing whatever identity referred to the former
    /// last row.
    pub fn remove(&mut self, row: RowIndex)
        requires
            old(self).wf(),
            (row.0 as int) < old(self).length,
        ensures
            final(self).wf(),
            final(self).length == old(self).length - 1,
            final(self).schema() == old(self).schema(),
            final(self).saved == old(self).saved,
            final(self).columns@.len() == old(self).columns@.len(),
            forall|i: int|
                0 <= i < old(self).columns@.len() ==> #[trigger] final(self).col_at(i)
                    == old(self).col_at(i).update(row.0 as int, old(self).col_at(i).last()).drop_last(),
    {
        let ghost prev = *self;
        self.length = self.length - 1;
        let n = self.columns.len();
        for i in 0..n
            invariant
                n == self.columns@.len(),
                n == prev.columns@.len(),
                self.length == prev.length - 1,
                self.saved == prev.saved,
                (row.0 as int) < prev.length,
                self.schema() == prev.schema(),
                forall|j: int|
                    0 <= j < i ==> #[trigger] self.col_at(j) == prev.col_at(j).update(
                        row.0 as int,
                        prev.col_at(j).last(),
                    ).drop_last(),
                forall|j: int| i <= j < n ==> #[trigger] self.columns@[j] == prev.columns@[j],
                prev.wf(),
        {
            let ghost snap = *self;
            let ty = self.columns[i].data.ty();
            proof {
                assert(self.columns@[i as int] == prev.columns@[i as int]);
                assert(prev.col_at(i as int).len() == prev.length);
            }
            let c = crate::idx_mut(&mut self.columns, i);
            let _ = c.data.swap_remove(ty, row.0 as usize);
            proof {
                assert(self.columns@[i as int].data@ == prev.col_at(i as int).update(
                    row.0 as int,
                    prev.col_at(i as int).last(),
                ).drop_last());
                assert(forall|j: int|
                    0 <= j < n && j != i ==> self.columns@[j] == snap.columns@[j]);
                assert(self.schema() =~= snap.schema());
                assert forall|j: int| 0 <= j <= i implies #[trigger] self.col_at(j)
                    == prev.col_at(j).update(row.0 as int, prev.col_at(j).last()).drop_last() by {
                    if j != i {
                        assert(self.columns@[j] == snap.columns@[j]);
                        assert(snap.col_at(j) == prev.col_at(j).update(
                            row.0 as int,
                            prev.col_at(j).last(),
                        ).drop_last());
                    }
                }
            }
        }
        proof {
            assert forall|i: int| 0 <= i < n implies #[trigger] self.col_at(i).len()
                == self.length by {
                assert(self.col_at(i) == prev.col_at(i).update(
                    row.0 as int,
                    prev.col_at(i).last(),
                ).drop_last());
            }
        }
    }

    /// Reads back the whole row at `row`, one value per column in schema
    /// order.
    pub fn get(&self, row: RowIndex) -> (r: Vec<Value>)
        requires
            self.wf(),
            (row.0 as int) < self.length,
        ensures
            r@ =~= self.row(row.0 as int),
    {
        let mut out: Vec<Value> = Vec::new();
        let n = self.columns.len();
        for i in 0..n
            invariant
                n == self.columns@.len(),
                out@.len() == i,
                (row.0 as int) < self.length,
                self.wf(),
                forall|j: int| 0 <= j < i ==> out@[j] == self.col_at(j)[row.0 as int],
        {
            proof {
                assert(self.col_at(i as int).len() == self.length);
            }
            match self.columns[i].data.get(self.columns[i].data.ty(), row.0 as usize) {
                Some(v) => out.push(v),
                None => {
                    proof {
                        assert(false);
                    }
                },
            }
        }
        out
    }
}


impl Table {
    /// Replaces the full contents of the column bound to `ty`; the
    /// replacement must hold exactly one value per row.
    pub fn set_column(&mut self, ty: TypeTag, values: &Vec<Value>) -> (r: bool)
        requires
            old(self).wf(),
            values@.len() == old(self).length,
        ensures
            r <==> old(self).spec_has_column(ty),
            final(self).wf(),
            final(self).length == old(self).length,
            final(self).schema() == old(self).schema(),
            final(self).saved == old(self).saved,
            final(self).columns@.len() == old(self).columns@.len(),
            r ==> final(self).col(ty) == values@,
            r ==> forall|i: int|
                0 <= i < old(self).columns@.len() && i != old(self).col_ix(ty)
                    ==> #[trigger] final(self).columns@[i] == old(self).columns@[i],
            !r ==> *final(self) == *old(self),
    {
        let n = self.columns.len();
        for i in 0..n
            invariant
                *self == *old(self),
                n == self.columns@.len(),
                values@.len() == self.length,
                self.wf(),
                forall|j: int| 0 <= j < i ==> self.schema()[j] != ty,
        {
            if self.columns[i].data.ty() == ty {
                proof {
                    assert(self.schema()[i as int] == ty);
                    assert(self.col_ix(ty) == i as int);
                }
                let ghost snap = *self;
                let fresh = crate::vecany::VecAny::from_vec(ty, crate::value::copy_values(values));
                proof {
                    assert(fresh@ == values@);
                }
                let c = crate::idx_mut(&mut self.columns, i);
                c.data = fresh;
                proof {
                    assert(self.columns@ == snap.columns@.update(i as int, self.columns@[i as int]));
                    assert(self.columns@[i as int].data@ == values@);
                    assert(self.col_at(i as int) == values@);
                    assert(self.col_at(i as int).len() == self.length);
                    assert(self.schema() =~= old(self).schema());
                    assert(self.col_ix(ty) == i as int);
                    assert forall|j: int| 0 <= j < n implies #[trigger] self.col_at(j).len()
                        == self.length by {
                        if j != i {
                            assert(self.columns@[j] == snap.columns@[j]);
                            assert(snap.col_at(j).len() == snap.length);
                            assert(self.col_at(j) == snap.col_at(j));
                        }
                    }
                }
                return true;
            }
        }
        false
    }
}


impl Table {
    /// Overwrites the value of component `ty` in row `row`; reports whether
    /// it did.  A missing column or an out-of-range row is a silent no-op.
    pub fn set_at(&mut self, ty: TypeTag, row: RowIndex, item: Value) -> (r: bool)
        requires
            old(self).wf(),
        ensures
            final(self).wf(),
            r <==> (old(self).spec_has_column(ty) && (row.0 as int) < old(self).length),
            final(self).length == old(self).length,
            final(self).schema() == old(self).schema(),
            final(self).saved == old(self).saved,
            final(self).columns@.len() == old(self).columns@.len(),
            r ==> final(self).col(ty) == old(self).col(ty).update(row.0 as int, item),
            r ==> forall|i: int|
                0 <= i < old(self).columns@.len() && i != old(self).col_ix(ty)
                    ==> #[trigger] final(self).columns@[i] == old(self).columns@[i],
            !r ==> *final(self) == *old(self),
    {
        let n = self.columns.len();
        for i in 0..n
            invariant
                *self == *old(self),
                n == self.columns@.len(),
                self.wf(),
                forall|j: int| 0 <= j < i ==> self.schema()[j] != ty,
        {
            if self.columns[i].data.ty() == ty {
                proof {
                    assert(self.schema()[i as int] == ty);
                    assert(self.col_ix(ty) == i as int);
                    assert(self.col_at(i as int).len() == self.length);
                }
                if (row.0 as usize) < self.length {
                    let ghost snap = *self;
                    let c = crate::idx_mut(&mut self.columns, i);
                    let hit = c.set(ty, row, item);
                    proof {
                        assert(hit);
                        assert(self.columns@[i as int].data@ == snap.col_at(i as int).update(
                            row.0 as int,
                            item,
                        ));
                        assert(forall|j: int|
                            0 <= j < n && j != i ==> self.columns@[j] == snap.columns@[j]);
                        assert(self.schema() =~= snap.schema());
                        assert(self.col_ix(ty) == i as int);
                        assert forall|j: int| 0 <= j < n implies #[trigger] self.col_at(j).len()
                            == self.length by {
                            if j != i {
                                assert(self.columns@[j] == snap.columns@[j]);
                                assert(snap.col_at(j).len() == snap.length);
                            }
                        }
                    }
                    return true;
                } else {
                    return false;
                }
            }
        }
        false
    }
}

/// Two tables with the same schema agree on which columns exist and where
/// each component identity's column sits.
pub proof fn lemma_col_ix_same(t0: Table, t1: Table)
    requires
        t0.wf(),
        t1.schema() == t0.schema(),
    ensures
        forall|ty: TypeTag| #[trigger] t1.spec_has_column(ty) <==> t0.spec_has_column(ty),
        forall|ty: TypeTag| #[trigger] t0.spec_has_column(ty) ==> t1.col_ix(ty) == t0.col_ix(ty),
{
    assert forall|ty: TypeTag| #[trigger] t1.spec_has_column(ty) <==> t0.spec_has_column(ty) by {
        if t1.spec_has_column(ty) {
            let i = choose|i: int| 0 <= i < t1.schema().len() && t1.schema()[i] == ty;
            assert(t0.schema()[i] == ty);
        }
        if t0.spec_has_column(ty) {
            let i = choose|i: int| 0 <= i < t0.schema().len() && t0.schema()[i] == ty;
            assert(t1.schema()[i] == ty);
        }
    }
    assert forall|ty: TypeTag| #[trigger] t0.spec_has_column(ty) implies t1.col_ix(ty) == t0.col_ix(
        ty,
    ) by {
        let i0 = t0.col_ix(ty);
        assert(0 <= i0 < t0.schema().len() && t0.schema()[i0] == ty);
        assert(t1.schema()[i0] == ty);
        assert(t1.spec_has_column(ty));
        let i1 = t1.col_ix(ty);
        assert(0 <= i1 < t1.schema().len() && t1.schema()[i1] == ty);
        assert(t0.schema()[i1] == ty);
        if i1 != i0 {
            assert(false);
        }
    }
}

} // verus!
