//! Task progress: tag queries over gathering and crafting statistics.

use vstd::prelude::*;

use crate::item::{ItemKind, RecipeOutput, Tag};

verus! {

/// A quantity of things gathered or crafted.
pub type Quantity = u32;

/// A conjunction of tags; a thing matches when it carries every one.
#[derive(Clone, Debug)]
pub struct Query {
    pub tags: Vec<Tag>,
}

impl Query {
    /// Whether every queried tag occurs in `tags`.
    pub open spec fn spec_query(&self, tags: Seq<Tag>) -> bool {
        forall|k: int| 0 <= k < self.tags@.len() ==> tags.contains(#[trigger] self.tags@[k])
    }

    /// Whether every queried tag occurs in `tags`.
    pub fn query(&self, tags: &Vec<Tag>) -> (r: bool)
        ensures
            r <==> self.spec_query(tags@),
    {
        let n = self.tags.len();
        for k in 0..n
            invariant
                n == self.tags@.len(),
                forall|j: int| 0 <= j < k ==> tags@.contains(#[trigger] self.tags@[j]),
        {
            if !contains_tag(tags, self.tags[k]) {
                return false;
            }
        }
        true
    }
}

/// Whether `tag` occurs in `tags`.
fn contains_tag(tags: &Vec<Tag>, tag: Tag) -> (r: bool)
    ensures
        r <==> tags@.contains(tag),
{
    let n = tags.len();
    for i in 0..n
        invariant
            n == tags@.len(),
            forall|j: int| 0 <= j < i ==> tags@[j] != tag,
    {
        if tags[i] == tag {
            return true;
        }
    }
    false
}

/// One countable accomplishment.
#[derive(Clone, Copy, Debug, PartialEq, Eq, Structural, Hash)]
pub enum Statistic {
    Gathered(ItemKind),
    Crafted(RecipeOutput),
}

impl Statistic {
    /// The categories the counted thing belongs to.
    pub open spec fn spec_tags(&self) -> Seq<Tag> {
        match self {
            Statistic::Gathered(item) => item.spec_tags(),
            Statistic::Crafted(output) => output.spec_tags(),
        }
    }

    /// The categories the counted thing belongs to.
    pub fn tags(&self) -> (r: Vec<Tag>)
        ensures
            r@ =~= self.spec_tags(),
    {
        match self {
            Statistic::Gathered(item) => item.tags(),
            Statistic::Crafted(output) => output.tags(),
        }
    }
}

/// The total quantity of the entries of `s` whose tags match `q`.
pub open spec fn tally(s: Seq<(Statistic, Quantity)>, q: Query) -> int
    decreases s.len(),
{
    if s.len() == 0 {
        0
    } else {
        tally(s.drop_last(), q) + if q.spec_query(s.last().0.spec_tags()) {
            s.last().1 as int
        } else {
            0
        }
    }
}

/// The total quantity of all entries of `s`.
pub open spec fn tally_all(s: Seq<(Statistic, Quantity)>) -> int
    decreases s.len(),
{
    if s.len() == 0 {
        0
    } else {
        tally_all(s.drop_last()) + s.last().1 as int
    }
}

/// Everything counted so far, one entry per statistic.
pub struct Statistics(pub Vec<(Statistic, Quantity)>);

impl Statistics {
    /// The total quantity counted across all statistics matching `query`.
    pub fn with_tags(&self, query: &Query) -> (r: Quantity)
        requires
            tally_all(self.0@) <= u32::MAX,
        ensures
            r == tally(self.0@, *query),
    {
        let mut total: u32 = 0;
        let n = self.0.len();
        proof {
            lemma_tally_all_step(self.0@, 0);
            lemma_tally_bounds(self.0@.take(0), *query);
        }
        for i in 0..n
            invariant
                n == self.0@.len(),
                total == tally(self.0@.take(i as int), *query),
                tally_all(self.0@) <= u32::MAX,
                tally(self.0@.take(i as int), *query) <= tally_all(self.0@.take(i as int)),
                tally_all(self.0@.take(i as int)) <= tally_all(self.0@),
        {
            let ghost pre = self.0@.take(i as int);
            proof {
                assert(self.0@.take(i + 1).drop_last() =~= pre);
                assert(self.0@.take(i + 1).last() == self.0@[i as int]);
                lemma_tally_bounds(self.0@.take(i + 1), *query);
                lemma_tally_all_step(self.0@, i + 1);
            }
            let tags = self.0[i].0.tags();
            if query.query(&tags) {
                total = total + self.0[i].1;
            }
        }
        proof {
            assert(self.0@.take(n as int) =~= self.0@);
        }
        total
    }
}

/// A filtered tally never exceeds the full tally.
proof fn lemma_tally_bounds(s: Seq<(Statistic, Quantity)>, q: Query)
    ensures
        0 <= tally(s, q) <= tally_all(s),
    decreases s.len(),
{
    if s.len() > 0 {
        lemma_tally_bounds(s.drop_last(), q);
    }
}

/// The full tally of a prefix never exceeds the full tally of the whole.
proof fn lemma_tally_all_step(s: Seq<(Statistic, Quantity)>, i: int)
    requires
        0 <= i <= s.len(),
    ensures
        tally_all(s.take(i)) <= tally_all(s),
    decreases s.len() - i,
{
    if i == s.len() {
        assert(s.take(i) =~= s);
    } else {
        lemma_tally_all_step(s, i + 1);
        assert(s.take(i + 1).drop_last() =~= s.take(i));
        assert(s.take(i + 1).last() == s[i]);
    }
}

} // verus!
