//! The query algebra: per-table filters and concatenated column views.
//!
//! A query names one component identity whose data it reads, plus a
//! conjunction of [`Filter`]s that decide which tables qualify.  The world
//! evaluates the filters against every registered table in registration
//! order and hands back the qualifying tables' columns as one concatenated
//! view: a [`Columns`] (read-only), [`ColumnsMut`] (to be edited and written
//! back), or [`ColumnsOptional`] (tolerating tables that lack the column).

use vstd::prelude::*;
use vstd::seq_lib::lemma_flatten_concat;

use crate::table::Table;
use crate::value::{TypeTag, Value};

verus! {

/// Qualifies tables that have a column bound to the given identity,
/// producing no data.
#[derive(Clone, Copy, Debug)]
pub struct With(pub TypeTag);

/// Qualifies tables that have no column bound to the given identity.
#[derive(Clone, Copy, Debug)]
pub struct Without(pub TypeTag);

/// Qualifies exactly the table of the archetype with the given identity.
#[derive(Clone, Copy, Debug)]
pub struct Is(pub TypeTag);

impl With {
    /// Whether `table` qualifies: it has a column bound to the identity.
    pub fn matches(&self, table: &Table) -> (r: bool)
        ensures
            r <==> table.spec_has_column(self.0),
    {
        table.has_column(self.0)
    }
}

impl Without {
    /// Whether `table` qualifies: it has no column bound to the identity.
    pub fn matches(&self, table: &Table) -> (r: bool)
        ensures
            r <==> !table.spec_has_column(self.0),
    {
        !table.has_column(self.0)
    }
}

impl Is {
    /// Whether the table registered under `arch` qualifies: `arch` is the
    /// named archetype identity.
    pub fn matches(&self, arch: TypeTag) -> (r: bool)
        ensures
            r <==> arch == self.0,
    {
        arch == self.0
    }
}

/// One conjunct of a query's table predicate.
#[derive(Clone, Copy, Debug)]
pub enum Filter {
    With(With),
    Without(Without),
    Is(Is),
}

impl Filter {
    /// Whether the table registered under `arch` qualifies.
    pub open spec fn spec_matches(&self, arch: TypeTag, table: Table) -> bool {
        match self {
            Filter::With(w) => table.spec_has_column(w.0),
            Filter::Without(w) => !table.spec_has_column(w.0),
            Filter::Is(i) => arch == i.0,
        }
    }

    /// Evaluates this filter against one table.
    pub fn matches(&self, arch: TypeTag, table: &Table) -> (r: bool)
        ensures
            r <==> self.spec_matches(arch, *table),
    {
        match self {
            Filter::With(w) => w.matches(table),
            Filter::Without(w) => w.matches(table),
            Filter::Is(i) => i.matches(arch),
        }
    }
}

/// Whether the table registered under `arch` satisfies every filter.
pub open spec fn all_match(fs: Seq<Filter>, arch: TypeTag, table: Table) -> bool {
    forall|k: int| 0 <= k < fs.len() ==> #[trigger] fs[k].spec_matches(arch, table)
}

/// Evaluates a conjunction of filters against one table.
pub fn filters_match(fs: &Vec<Filter>, arch: TypeTag, table: &Table) -> (r: bool)
    ensures
        r <==> all_match(fs@, arch, *table),
{
    let n = fs.len();
    for k in 0..n
        invariant
            n == fs@.len(),
            forall|j: int| 0 <= j < k ==> #[trigger] fs@[j].spec_matches(arch, *table),
    {
        if !fs[k].matches(arch, table) {
            return false;
        }
    }
    true
}

/// The concatenation of a sequence of column contents.
pub open spec fn flat_of(chunks: Seq<Seq<Value>>) -> Seq<Value> {
    chunks.flatten()
}

/// A read-only view spanning all qualifying tables' columns for one
/// component identity, one chunk per table in registration order.
pub struct Columns {
    pub chunks: Vec<Vec<Value>>,
}

impl Columns {
    /// The concatenated contents, in table order.
    pub open spec fn flat(&self) -> Seq<Value> {
        flat_of(self.chunks@.map_values(|c: Vec<Value>| c@))
    }

    /// Copies out the concatenated contents, in table order.
    pub fn iter(&self) -> (r: Vec<Value>)
        ensures
            r@ == self.flat(),
    {
        concat_chunks(&self.chunks)
    }

    /// The total number of values across all chunks.
    pub fn len(&self) -> (r: usize)
        requires
            self.flat().len() <= usize::MAX,
        ensures
            r == self.flat().len(),
    {
        chunks_len(&self.chunks)
    }
}

/// An exclusive view spanning all qualifying tables' columns for one
/// component identity.  Edits land in the view; the world writes them back
/// with its `commit` operation.
pub struct ColumnsMut {
    pub chunks: Vec<Vec<Value>>,
}

impl ColumnsMut {
    /// The concatenated contents, in table order.
    pub open spec fn flat(&self) -> Seq<Value> {
        flat_of(self.chunks@.map_values(|c: Vec<Value>| c@))
    }

    /// The chunk lengths, which every edit preserves.
    pub open spec fn shape(&self) -> Seq<nat> {
        self.chunks@.map_values(|c: Vec<Value>| c@.len())
    }

    /// Copies out the concatenated contents, in table order.
    pub fn iter(&self) -> (r: Vec<Value>)
        ensures
            r@ == self.flat(),
    {
        concat_chunks(&self.chunks)
    }

    /// The total number of values across all chunks.
    pub fn len(&self) -> (r: usize)
        requires
            self.flat().len() <= usize::MAX,
        ensures
            r == self.flat().len(),
    {
        chunks_len(&self.chunks)
    }
}

/// A presence-tolerant view: each qualifying table contributes either its
/// column or a placeholder recording how many rows it has, so positional
/// alignment with the other components of the same query is preserved.
pub struct ColumnsOptional {
    pub chunks: Vec<Result<Vec<Value>, usize>>,
}

/// The per-row options one chunk contributes: `Some` for each value of a
/// present column, `None` repeated for every row of an absent one.
pub open spec fn chunk_opts(chunk: Result<Vec<Value>, usize>) -> Seq<Option<Value>> {
    match chunk {
        Ok(c) => c@.map_values(|v: Value| Some(v)),
        Err(n) => Seq::new(n as nat, |i: int| None::<Value>),
    }
}

impl ColumnsOptional {
    /// The concatenated per-row options, in table order.
    pub open spec fn flat(&self) -> Seq<Option<Value>> {
        self.chunks@.map_values(|c: Result<Vec<Value>, usize>| chunk_opts(c)).flatten()
    }

    /// Copies out the concatenated per-row options, in table order.
    pub fn iter(&self) -> (r: Vec<Option<Value>>)
        ensures
            r@ == self.flat(),
    {
        let mut out: Vec<Option<Value>> = Vec::new();
        let n = self.chunks.len();
        for k in 0..n
            invariant
                n == self.chunks@.len(),
                out@ == flat_prefix_opts(self.chunks@, k as int),
        {
            let ghost pre = out@;
            match &self.chunks[k] {
                Ok(c) => {
                    let m = c.len();
                    for i in 0..m
                        invariant
                            m == c@.len(),
                            out@ == pre + c@.map_values(|v: Value| Some(v)).take(i as int),
                    {
                        proof {
                            assert(c@.map_values(|v: Value| Some(v)).take(i + 1)
                                =~= c@.map_values(|v: Value| Some(v)).take(i as int).push(
                                Some(c@[i as int]),
                            ));
                        }
                        out.push(Some(c[i]));
                    }
                    proof {
                        assert(c@.map_values(|v: Value| Some(v)).take(m as int) =~= chunk_opts(
                            self.chunks@[k as int],
                        ));
                    }
                },
                Err(sz) => {
                    let m = *sz;
                    for i in 0..m
                        invariant
                            out@.len() == pre.len() + i,
                            out@ == pre + Seq::new(i as nat, |j: int| None::<Value>),
                    {
                        proof {
                            assert(Seq::new((i + 1) as nat, |j: int| None::<Value>) =~= Seq::new(
                                i as nat,
                                |j: int| None::<Value>,
                            ).push(None));
                        }
                        out.push(None);
                    }
                    proof {
                        assert(Seq::new(m as nat, |j: int| None::<Value>) =~= chunk_opts(
                            self.chunks@[k as int],
                        ));
                    }
                },
            }
            proof {
                lemma_flat_prefix_opts_step(self.chunks@, k as int);
            }
        }
        proof {
            lemma_flat_prefix_opts_all(self.chunks@);
        }
        out
    }
}

/// The options contributed by the first `k` chunks.
pub open spec fn flat_prefix_opts(chunks: Seq<Result<Vec<Value>, usize>>, k: int) -> Seq<
    Option<Value>,
> {
    chunks.take(k).map_values(|c: Result<Vec<Value>, usize>| chunk_opts(c)).flatten()
}

proof fn lemma_flat_prefix_opts_step(chunks: Seq<Result<Vec<Value>, usize>>, k: int)
    requires
        0 <= k < chunks.len(),
    ensures
        flat_prefix_opts(chunks, k + 1) == flat_prefix_opts(chunks, k) + chunk_opts(chunks[k]),
{
    let f = |c: Result<Vec<Value>, usize>| chunk_opts(c);
    assert(chunks.take(k + 1) =~= chunks.take(k).push(chunks[k]));
    assert(chunks.take(k + 1).map_values(f) =~= chunks.take(k).map_values(f).push(f(chunks[k])));
    broadcast use vstd::prelude::Seq::lemma_flatten_push;

    assert(flat_prefix_opts(chunks, k + 1) =~= flat_prefix_opts(chunks, k) + chunk_opts(chunks[k]));
}

proof fn lemma_flat_prefix_opts_all(chunks: Seq<Result<Vec<Value>, usize>>)
    ensures
        flat_prefix_opts(chunks, chunks.len() as int) == chunks.map_values(
            |c: Result<Vec<Value>, usize>| chunk_opts(c),
        ).flatten(),
{
    assert(chunks.take(chunks.len() as int) =~= chunks);
}

/// The values contributed by the first `k` chunks.
pub open spec fn flat_prefix(chunks: Seq<Vec<Value>>, k: int) -> Seq<Value> {
    chunks.take(k).map_values(|c: Vec<Value>| c@).flatten()
}

proof fn lemma_flat_prefix_step(chunks: Seq<Vec<Value>>, k: int)
    requires
        0 <= k < chunks.len(),
    ensures
        flat_prefix(chunks, k + 1) == flat_prefix(chunks, k) + chunks[k]@,
{
    let f = |c: Vec<Value>| c@;
    assert(chunks.take(k + 1) =~= chunks.take(k).push(chunks[k]));
    assert(chunks.take(k + 1).map_values(f) =~= chunks.take(k).map_values(f).push(f(chunks[k])));
    broadcast use vstd::prelude::Seq::lemma_flatten_push;

    assert(flat_prefix(chunks, k + 1) =~= flat_prefix(chunks, k) + chunks[k]@);
}

proof fn lemma_flat_prefix_all(chunks: Seq<Vec<Value>>)
    ensures
        flat_prefix(chunks, chunks.len() as int) == flat_of(
            chunks.map_values(|c: Vec<Value>| c@),
        ),
{
    assert(chunks.take(chunks.len() as int) =~= chunks);
}

/// Copies out the concatenation of a vector of chunks.
fn concat_chunks(chunks: &Vec<Vec<Value>>) -> (r: Vec<Value>)
    ensures
        r@ == flat_of(chunks@.map_values(|c: Vec<Value>| c@)),
{
    let mut out: Vec<Value> = Vec::new();
    let n = chunks.len();
    for k in 0..n
        invariant
            n == chunks@.len(),
            out@ == flat_prefix(chunks@, k as int),
    {
        let ghost pre = out@;
        let c = &chunks[k];
        let m = c.len();
        for i in 0..m
            invariant
                m == c@.len(),
                out@ == pre + c@.take(i as int),
        {
            proof {
                assert(c@.take(i + 1) =~= c@.take(i as int).push(c@[i as int]));
            }
            out.push(c[i]);
        }
        proof {
            assert(c@.take(m as int) =~= c@);
            lemma_flat_prefix_step(chunks@, k as int);
        }
    }
    proof {
        lemma_flat_prefix_all(chunks@);
    }
    out
}

/// Sums the chunk lengths.
fn chunks_len(chunks: &Vec<Vec<Value>>) -> (r: usize)
    requires
        flat_of(chunks@.map_values(|c: Vec<Value>| c@)).len() <= usize::MAX,
    ensures
        r == flat_of(chunks@.map_values(|c: Vec<Value>| c@)).len(),
{
    let ghost whole = chunks@.map_values(|c: Vec<Value>| c@);
    let mut total: usize = 0;
    let n = chunks.len();
    for k in 0..n
        invariant
            n == chunks@.len(),
            total == flat_prefix(chunks@, k as int).len(),
            flat_of(chunks@.map_values(|c: Vec<Value>| c@)).len() <= usize::MAX,
    {
        proof {
            lemma_flat_prefix_step(chunks@, k as int);
            lemma_flat_prefix_bound(chunks@, k + 1);
        }
        total = total + chunks[k].len();
    }
    proof {
        lemma_flat_prefix_all(chunks@);
    }
    total
}

proof fn lemma_flat_prefix_bound(chunks: Seq<Vec<Value>>, k: int)
    requires
        0 <= k <= chunks.len(),
    ensures
        flat_prefix(chunks, k).len() <= flat_of(chunks.map_values(|c: Vec<Value>| c@)).len(),
    decreases chunks.len() - k,
{
    if k == chunks.len() {
        lemma_flat_prefix_all(chunks);
    } else {
        lemma_flat_prefix_step(chunks, k);
        lemma_flat_prefix_bound(chunks, k + 1);
    }
}


/// The number of values contributed by the first `k` inner sequences.
pub open spec fn pre_len<A>(s: Seq<Seq<A>>, k: int) -> int {
    s.take(k).flatten().len() as int
}

proof fn lemma_pre_len_step<A>(s: Seq<Seq<A>>, k: int)
    requires
        0 <= k < s.len(),
    ensures
        pre_len(s, k + 1) == pre_len(s, k) + s[k].len(),
{
    broadcast use vstd::prelude::Seq::lemma_flatten_push;

    assert(s.take(k + 1) =~= s.take(k).push(s[k]));
}

proof fn lemma_flatten_decompose<A>(s: Seq<Seq<A>>, k: int)
    requires
        0 <= k <= s.len(),
    ensures
        s.flatten() == s.take(k).flatten() + s.skip(k).flatten(),
{
    assert(s =~= s.take(k) + s.skip(k));
    lemma_flatten_concat(s.take(k), s.skip(k));
}

/// Element `i` of inner sequence `k` sits at position `pre_len(s, k) + i`
/// of the flattened sequence.
proof fn lemma_flatten_index<A>(s: Seq<Seq<A>>, k: int, i: int)
    requires
        0 <= k < s.len(),
        0 <= i < s[k].len(),
    ensures
        0 <= pre_len(s, k) + i < s.flatten().len(),
        s.flatten()[pre_len(s, k) + i] == s[k][i],
{
    lemma_flatten_decompose(s, k);
    let tail = s.skip(k);
    assert(tail.len() > 0);
    assert(tail.first() == s[k]);
    assert(tail.flatten() == tail.first() + tail.drop_first().flatten());
    assert(s.flatten()[pre_len(s, k) + i] == tail.flatten()[i]);
}

/// Updating element `i` of inner sequence `k` updates position
/// `pre_len(s, k) + i` of the flattened sequence and nothing else.
proof fn lemma_flatten_update<A>(s: Seq<Seq<A>>, k: int, i: int, v: A)
    requires
        0 <= k < s.len(),
        0 <= i < s[k].len(),
    ensures
        s.update(k, s[k].update(i, v)).flatten() == s.flatten().update(pre_len(s, k) + i, v),
{
    let s2 = s.update(k, s[k].update(i, v));
    lemma_flatten_decompose(s, k);
    lemma_flatten_decompose(s2, k);
    assert(s2.take(k) =~= s.take(k));
    let tail = s.skip(k);
    let tail2 = s2.skip(k);
    assert(tail.len() > 0);
    assert(tail.first() == s[k]);
    assert(tail2.first() == s[k].update(i, v));
    assert(tail2.drop_first() =~= tail.drop_first());
    assert(tail.flatten() == tail.first() + tail.drop_first().flatten());
    assert(tail2.flatten() == tail2.first() + tail2.drop_first().flatten());
    lemma_flatten_index(s, k, i);
    assert(s2.flatten() =~= s.flatten().update(pre_len(s, k) + i, v));
}

/// What it means for `res` to be a left fold of `f` over `s` from `init`:
/// some chain of intermediate accumulators, each a possible output of `f`
/// on its predecessor and the next value, ends in `res`.
pub open spec fn folds<A, F: FnOnce(A, Value) -> A>(f: F, init: A, s: Seq<Value>, res: A) -> bool
    decreases s.len(),
{
    if s.len() == 0 {
        res == init
    } else {
        exists|mid: A|
            #[trigger] call_ensures(f, (init, s[0]), mid) && folds(f, mid, s.skip(1), res)
    }
}

proof fn lemma_folds_push<A, F: FnOnce(A, Value) -> A>(
    f: F,
    init: A,
    s: Seq<Value>,
    mid: A,
    x: Value,
    res: A,
)
    requires
        folds(f, init, s, mid),
        call_ensures(f, (mid, x), res),
    ensures
        folds(f, init, s.push(x), res),
    decreases s.len(),
{
    if s.len() == 0 {
        assert(s.push(x)[0] == x);
        assert(s.push(x).skip(1) =~= Seq::<Value>::empty());
        assert(folds(f, res, s.push(x).skip(1), res));
    } else {
        let mid1 = choose|mid1: A|
            #[trigger] call_ensures(f, (init, s[0]), mid1) && folds(f, mid1, s.skip(1), mid);
        lemma_folds_push(f, mid1, s.skip(1), mid, x, res);
        assert(s.push(x).skip(1) =~= s.skip(1).push(x));
        assert(s.push(x)[0] == s[0]);
        assert(call_ensures(f, (init, s.push(x)[0]), mid1) && folds(
            f,
            mid1,
            s.push(x).skip(1),
            res,
        ));
    }
}

/// The values carried by the `Some` entries of `os`, in order.
pub open spec fn somes<O>(os: Seq<Option<O>>) -> Seq<O>
    decreases os.len(),
{
    if os.len() == 0 {
        Seq::empty()
    } else {
        match os.last() {
            Some(v) => somes(os.drop_last()).push(v),
            None => somes(os.drop_last()),
        }
    }
}

impl ColumnsMut {
    /// The first value of the concatenated view, which may sit in any
    /// chunk; `None` only when the view holds no values at all.
    pub fn first(&self) -> (r: Option<Value>)
        ensures
            r == if self.flat().len() > 0 {
                Some(self.flat()[0])
            } else {
                None::<Value>
            },
    {
        let ghost s0 = self.chunks@.map_values(|c: Vec<Value>| c@);
        let n = self.chunks.len();
        for k in 0..n
            invariant
                n == self.chunks@.len(),
                s0 == self.chunks@.map_values(|c: Vec<Value>| c@),
                pre_len(s0, k as int) == 0,
        {
            if self.chunks[k].len() > 0 {
                proof {
                    lemma_flatten_index(s0, k as int, 0);
                }
                return Some(self.chunks[k][0]);
            }
            proof {
                lemma_pre_len_step(s0, k as int);
            }
        }
        proof {
            assert(s0.take(n as int) =~= s0);
        }
        None
    }

    /// The value at concatenated position `index`, which may sit in any
    /// chunk; `None` past the end.
    pub fn get(&self, index: usize) -> (r: Option<Value>)
        ensures
            r is Some <==> index < self.flat().len(),
            r matches Some(v) ==> v == self.flat()[index as int],
    {
        let all = concat_chunks(&self.chunks);
        if index < all.len() {
            Some(all[index])
        } else {
            None
        }
    }

    /// Overwrites the value at concatenated position `index`; reports
    /// whether it did.  An index past the end is a silent no-op.
    pub fn set(&mut self, index: usize, item: Value) -> (r: bool)
        ensures
            r <==> index < old(self).flat().len(),
            r ==> final(self).flat() == old(self).flat().update(index as int, item),
            !r ==> *final(self) == *old(self),
            final(self).shape() == old(self).shape(),
    {
        let ghost s0 = old(self).chunks@.map_values(|c: Vec<Value>| c@);
        let mut k: usize = 0;
        let mut idx: usize = index;
        let n = self.chunks.len();
        while k < n
            invariant
                *self == *old(self),
                n == self.chunks@.len(),
                s0 == self.chunks@.map_values(|c: Vec<Value>| c@),
                k <= n,
                pre_len(s0, k as int) <= index,
                idx == index - pre_len(s0, k as int),
            decreases n - k,
        {
            let m = self.chunks[k].len();
            if idx < m {
                proof {
                    lemma_flatten_index(s0, k as int, idx as int);
                    lemma_flatten_update(s0, k as int, idx as int, item);
                }
                let c = crate::idx_mut(&mut self.chunks, k);
                let e = crate::idx_mut(c, idx);
                *e = item;
                proof {
                    assert(self.chunks@.map_values(|c: Vec<Value>| c@) =~= s0.update(
                        k as int,
                        s0[k as int].update(idx as int, item),
                    ));
                    assert(self.shape() =~= old(self).shape());
                }
                return true;
            }
            proof {
                lemma_pre_len_step(s0, k as int);
            }
            idx = idx - m;
            k = k + 1;
        }
        proof {
            assert(s0.take(n as int) =~= s0);
        }
        false
    }

    /// Replaces every value `v` with an output of `f(v)`, in place, across
    /// all chunks.
    pub fn for_each<F: Fn(Value) -> Value>(&mut self, f: F)
        requires
            forall|k: int, i: int|
                0 <= k < old(self).chunks@.len() && 0 <= i < old(self).chunks@[k]@.len()
                    ==> call_requires(f, (#[trigger] old(self).chunks@[k]@[i],)),
        ensures
            final(self).chunks@.len() == old(self).chunks@.len(),
            forall|k: int|
                0 <= k < old(self).chunks@.len() ==> #[trigger] final(self).chunks@[k]@.len()
                    == old(self).chunks@[k]@.len(),
            forall|k: int, i: int|
                0 <= k < old(self).chunks@.len() && 0 <= i < old(self).chunks@[k]@.len()
                    ==> call_ensures(
                    f,
                    (old(self).chunks@[k]@[i],),
                    #[trigger] final(self).chunks@[k]@[i],
                ),
            final(self).shape() == old(self).shape(),
    {
        let n = self.chunks.len();
        for k in 0..n
            invariant
                n == self.chunks@.len(),
                n == old(self).chunks@.len(),
                forall|k2: int, i2: int|
                    0 <= k2 < n && 0 <= i2 < old(self).chunks@[k2]@.len() ==> call_requires(
                        f,
                        (#[trigger] old(self).chunks@[k2]@[i2],),
                    ),
                forall|k2: int|
                    0 <= k2 < n ==> #[trigger] self.chunks@[k2]@.len()
                        == old(self).chunks@[k2]@.len(),
                forall|k2: int, i2: int|
                    0 <= k2 < k && 0 <= i2 < old(self).chunks@[k2]@.len() ==> call_ensures(
                        f,
                        (old(self).chunks@[k2]@[i2],),
                        #[trigger] self.chunks@[k2]@[i2],
                    ),
                forall|k2: int| k <= k2 < n ==> #[trigger] self.chunks@[k2] == old(self).chunks@[k2],
        {
            let m = self.chunks[k].len();
            for i in 0..m
                invariant
                    n == self.chunks@.len(),
                    n == old(self).chunks@.len(),
                    k < n,
                    m == old(self).chunks@[k as int]@.len(),
                    forall|k2: int, i2: int|
                        0 <= k2 < n && 0 <= i2 < old(self).chunks@[k2]@.len() ==> call_requires(
                            f,
                            (#[trigger] old(self).chunks@[k2]@[i2],),
                        ),
                    forall|k2: int|
                        0 <= k2 < n ==> #[trigger] self.chunks@[k2]@.len()
                            == old(self).chunks@[k2]@.len(),
                    forall|k2: int, i2: int|
                        0 <= k2 < k && 0 <= i2 < old(self).chunks@[k2]@.len() ==> call_ensures(
                            f,
                            (old(self).chunks@[k2]@[i2],),
                            #[trigger] self.chunks@[k2]@[i2],
                        ),
                    forall|i2: int|
                        0 <= i2 < i ==> call_ensures(
                            f,
                            (old(self).chunks@[k as int]@[i2],),
                            #[trigger] self.chunks@[k as int]@[i2],
                        ),
                    forall|i2: int|
                        i <= i2 < m ==> #[trigger] self.chunks@[k as int]@[i2] == old(
                            self,
                        ).chunks@[k as int]@[i2],
                    forall|k2: int|
                        k < k2 < n ==> #[trigger] self.chunks@[k2] == old(self).chunks@[k2],
            {
                let ghost snap = *self;
                let cur = self.chunks[k][i];
                let newv = f(cur);
                let c = crate::idx_mut(&mut self.chunks, k);
                let e = crate::idx_mut(c, i);
                *e = newv;
                proof {
                    assert(self.chunks@[k as int]@ == snap.chunks@[k as int]@.update(
                        i as int,
                        newv,
                    ));
                    assert(forall|k2: int|
                        0 <= k2 < n && k2 != k ==> #[trigger] self.chunks@[k2]
                            == snap.chunks@[k2]);
                }
            }
        }
        proof {
            assert(final(self).shape() =~= old(self).shape());
        }
    }

    /// Applies `f` to every value in concatenated order, collecting the
    /// outputs.
    pub fn map<O, F: Fn(Value) -> O>(&self, f: F) -> (r: Vec<O>)
        requires
            forall|j: int|
                0 <= j < self.flat().len() ==> call_requires(f, (#[trigger] self.flat()[j],)),
        ensures
            r@.len() == self.flat().len(),
            forall|j: int|
                0 <= j < r@.len() ==> call_ensures(f, (self.flat()[j],), #[trigger] r@[j]),
    {
        let ghost s0 = self.chunks@.map_values(|c: Vec<Value>| c@);
        let mut out: Vec<O> = Vec::new();
        let n = self.chunks.len();
        for k in 0..n
            invariant
                n == self.chunks@.len(),
                s0 == self.chunks@.map_values(|c: Vec<Value>| c@),
                forall|j: int|
                    0 <= j < self.flat().len() ==> call_requires(f, (#[trigger] self.flat()[j],)),
                out@.len() == pre_len(s0, k as int),
                pre_len(s0, k as int) <= self.flat().len(),
                forall|j: int|
                    0 <= j < out@.len() ==> call_ensures(f, (self.flat()[j],), #[trigger] out@[j]),
        {
            let m = self.chunks[k].len();
            for i in 0..m
                invariant
                    n == self.chunks@.len(),
                    s0 == self.chunks@.map_values(|c: Vec<Value>| c@),
                    k < n,
                    m == s0[k as int].len(),
                    forall|j: int|
                        0 <= j < self.flat().len() ==> call_requires(
                            f,
                            (#[trigger] self.flat()[j],),
                        ),
                    out@.len() == pre_len(s0, k as int) + i,
                    forall|j: int|
                        0 <= j < out@.len() ==> call_ensures(
                            f,
                            (self.flat()[j],),
                            #[trigger] out@[j],
                        ),
            {
                let v = self.chunks[k][i];
                proof {
                    lemma_flatten_index(s0, k as int, i as int);
                    assert(s0[k as int] == self.chunks@[k as int]@);
                    assert(self.flat()[pre_len(s0, k as int) + i] == v);
                }
                out.push(f(v));
            }
            proof {
                lemma_pre_len_step(s0, k as int);
                lemma_pre_len_bound(s0, k + 1);
            }
        }
        proof {
            assert(s0.take(n as int) =~= s0);
        }
        out
    }

    /// Left-folds `f` over every value in concatenated order.
    pub fn fold<A, F: Fn(A, Value) -> A>(&self, init: A, f: F) -> (r: A)
        requires
            forall|a: A, v: Value| call_requires(f, (a, v)),
        ensures
            folds(f, init, self.flat(), r),
    {
        let ghost s0 = self.chunks@.map_values(|c: Vec<Value>| c@);
        let mut acc = init;
        let n = self.chunks.len();
        for k in 0..n
            invariant
                n == self.chunks@.len(),
                s0 == self.chunks@.map_values(|c: Vec<Value>| c@),
                forall|a: A, v: Value| call_requires(f, (a, v)),
                pre_len(s0, k as int) <= self.flat().len(),
                folds(f, init, self.flat().take(pre_len(s0, k as int)), acc),
        {
            let m = self.chunks[k].len();
            for i in 0..m
                invariant
                    n == self.chunks@.len(),
                    s0 == self.chunks@.map_values(|c: Vec<Value>| c@),
                    k < n,
                    m == s0[k as int].len(),
                    forall|a: A, v: Value| call_requires(f, (a, v)),
                    pre_len(s0, k as int) + i <= self.flat().len(),
                    folds(f, init, self.flat().take(pre_len(s0, k as int) + i), acc),
            {
                let v = self.chunks[k][i];
                proof {
                    lemma_flatten_index(s0, k as int, i as int);
                    assert(s0[k as int] == self.chunks@[k as int]@);
                    assert(self.flat()[pre_len(s0, k as int) + i] == v);
                }
                let ghost prev = acc;
                acc = f(acc, v);
                proof {
                    let ghost pos = pre_len(s0, k as int) + i;
                    assert(self.flat().take(pos + 1) =~= self.flat().take(pos).push(
                        self.flat()[pos],
                    ));
                    lemma_folds_push(f, init, self.flat().take(pos), prev, self.flat()[pos], acc);
                }
            }
            proof {
                lemma_pre_len_step(s0, k as int);
                lemma_pre_len_bound(s0, k + 1);
            }
        }
        proof {
            assert(s0.take(n as int) =~= s0);
            assert(self.flat().take(self.flat().len() as int) =~= self.flat());
        }
        acc
    }

    /// Applies `f` to every value in concatenated order and collects the
    /// values of the `Some` outputs, in order.
    pub fn filter_map<O, F: Fn(Value) -> Option<O>>(&self, f: F) -> (r: Vec<O>)
        requires
            forall|j: int|
                0 <= j < self.flat().len() ==> call_requires(f, (#[trigger] self.flat()[j],)),
        ensures
            exists|os: Seq<Option<O>>|
                {
                    &&& os.len() == self.flat().len()
                    &&& (forall|j: int|
                        0 <= j < os.len() ==> call_ensures(f, (self.flat()[j],), #[trigger] os[j]))
                    &&& r@ == somes(os)
                },
    {
        let ghost s0 = self.chunks@.map_values(|c: Vec<Value>| c@);
        let ghost mut os: Seq<Option<O>> = Seq::empty();
        let mut out: Vec<O> = Vec::new();
        let n = self.chunks.len();
        for k in 0..n
            invariant
                n == self.chunks@.len(),
                s0 == self.chunks@.map_values(|c: Vec<Value>| c@),
                forall|j: int|
                    0 <= j < self.flat().len() ==> call_requires(f, (#[trigger] self.flat()[j],)),
                os.len() == pre_len(s0, k as int),
                pre_len(s0, k as int) <= self.flat().len(),
                forall|j: int|
                    0 <= j < os.len() ==> call_ensures(f, (self.flat()[j],), #[trigger] os[j]),
                out@ == somes(os),
        {
            let m = self.chunks[k].len();
            for i in 0..m
                invariant
                    n == self.chunks@.len(),
                    s0 == self.chunks@.map_values(|c: Vec<Value>| c@),
                    k < n,
                    m == s0[k as int].len(),
                    forall|j: int|
                        0 <= j < self.flat().len() ==> call_requires(
                            f,
                            (#[trigger] self.flat()[j],),
                        ),
                    os.len() == pre_len(s0, k as int) + i,
                    forall|j: int|
                        0 <= j < os.len() ==> call_ensures(f, (self.flat()[j],), #[trigger] os[j]),
                    out@ == somes(os),
            {
                let v = self.chunks[k][i];
                proof {
                    lemma_flatten_index(s0, k as int, i as int);
                    assert(s0[k as int] == self.chunks@[k as int]@);
                    assert(self.flat()[pre_len(s0, k as int) + i] == v);
                }
                let o = f(v);
                proof {
                    let os_prev = os;
                    os = os.push(o);
                    assert(os.drop_last() =~= os_prev);
                    assert(os.last() == o);
                }
                match o {
                    Some(x) => out.push(x),
                    None => {},
                }
            }
            proof {
                lemma_pre_len_step(s0, k as int);
                lemma_pre_len_bound(s0, k + 1);
            }
        }
        proof {
            assert(s0.take(n as int) =~= s0);
        }
        out
    }
}

proof fn lemma_pre_len_bound<A>(s: Seq<Seq<A>>, k: int)
    requires
        0 <= k <= s.len(),
    ensures
        pre_len(s, k) <= s.flatten().len(),
{
    lemma_flatten_decompose(s, k);
}

} // verus!
