//! Categorised centroids, merged across ingested areas without duplicate sources.
use vstd::prelude::*;
use crate::geometry::GeoPoint;

verus! {

/// A weighted point standing for the people of a building or block.
#[derive(Clone, Copy, Debug, PartialEq, Eq, Structural)]
pub struct Centroid {
    /// Identifier of the source map object; unique within a category.
    pub id: u64,
    /// The category (layer type) the centroid belongs to.
    pub category: u32,
    pub point: GeoPoint,
    /// Estimated occupancy.
    pub weight: u64,
}

/// Two centroids come from the same source object.
pub open spec fn same_source(a: Centroid, b: Centroid) -> bool {
    a.category == b.category && a.id == b.id
}

/// `s` holds a centroid from the same source as `c`.
pub open spec fn has_source(s: Seq<Centroid>, c: Centroid) -> bool {
    exists|i: int| 0 <= i < s.len() && same_source(#[trigger] s[i], c)
}

/// No two entries of `s` come from the same source.
pub open spec fn sources_unique(s: Seq<Centroid>) -> bool {
    forall|i: int, j: int|
        0 <= i < s.len() && 0 <= j < s.len() && i != j ==> !same_source(#[trigger] s[i], #[trigger] s[j])
}

/// `a` followed by the entries of `b` whose source is not yet present, first occurrence winning.
pub open spec fn merged(a: Seq<Centroid>, b: Seq<Centroid>) -> Seq<Centroid>
    decreases b.len(),
{
    if b.len() == 0 {
        a
    } else {
        let m = merged(a, b.drop_last());
        if has_source(m, b.last()) {
            m
        } else {
            m.push(b.last())
        }
    }
}

/// The entries of `s` in category `cat`, in order.
pub open spec fn in_category(s: Seq<Centroid>, cat: u32) -> Seq<Centroid> {
    s.filter(|c: Centroid| c.category == cat)
}

/// Categorised centroids from all ingested areas, without duplicate sources.
pub struct LayerSet {
    pub centroids: Vec<Centroid>,
}

impl View for LayerSet {
    type V = Seq<Centroid>;

    open spec fn view(&self) -> Seq<Centroid> {
        self.centroids@
    }
}

impl LayerSet {
    pub open spec fn wf(&self) -> bool {
        sources_unique(self@)
    }

    pub fn new() -> (r: LayerSet)
        ensures
            r.wf(),
            r@ == Seq::<Centroid>::empty(),
    {
        LayerSet { centroids: Vec::new() }
    }

    /// Whether a centroid from the same source is already held.
    pub fn contains_source(&self, c: &Centroid) -> (r: bool)
        ensures
            r == has_source(self@, *c),
    {
        let mut i: usize = 0;
        while i < self.centroids.len()
            invariant
                i <= self@.len(),
                forall|k: int| 0 <= k < i ==> !same_source(#[trigger] self@[k], *c),
            decreases self@.len() - i,
        {
            if self.centroids[i].category == c.category && self.centroids[i].id == c.id {
                return true;
            }
            i += 1;
        }
        false
    }

    /// Adds a centroid unless one from the same source is held already.
    pub fn insert(&mut self, c: Centroid)
        requires
            old(self).wf(),
        ensures
            final(self).wf(),
            final(self)@ == (if has_source(old(self)@, c) { old(self)@ } else { old(self)@.push(c) }),
    {
        if !self.contains_source(&c) {
            self.centroids.push(c);
        }
    }

    /// This set followed by the centroids of `other` whose source is new, first occurrence winning.
    pub fn merge(&self, other: &LayerSet) -> (r: LayerSet)
        requires
            self.wf(),
        ensures
            r.wf(),
            r@ == merged(self@, other@),
    {
        let mut r = LayerSet { centroids: self.centroids.clone() };
        let mut i: usize = 0;
        while i < other.centroids.len()
            invariant
                i <= other@.len(),
                r.wf(),
                r@ == merged(self@, other@.subrange(0, i as int)),
            decreases other@.len() - i,
        {
            assert(other@.subrange(0, i + 1).drop_last() == other@.subrange(0, i as int));
            r.insert(other.centroids[i]);
            i += 1;
        }
        assert(other@.subrange(0, other@.len() as int) == other@);
        r
    }

    /// The centroids of one category, in order.
    pub fn centroids(&self, category: u32) -> (r: Vec<Centroid>)
        ensures
            r@ == in_category(self@, category),
    {
        let mut r: Vec<Centroid> = Vec::new();
        let mut i: usize = 0;
        while i < self.centroids.len()
            invariant
                i <= self@.len(),
                r@ == in_category(self@.subrange(0, i as int), category),
            decreases self@.len() - i,
        {
            proof {
                let s = self@.subrange(0, i + 1);
                assert(s.drop_last() == self@.subrange(0, i as int));
                reveal(Seq::filter);
            }
            if self.centroids[i].category == category {
                r.push(self.centroids[i]);
            }
            i += 1;
        }
        assert(self@.subrange(0, self@.len() as int) == self@);
        r
    }

    /// Every centroid of every category.
    pub fn all_centroids(&self) -> (r: Vec<Centroid>)
        ensures
            r@ == self@,
    {
        self.centroids.clone()
    }
}

/// Every prefix of a duplicate-free set merges into the set unchanged.
proof fn lemma_merge_prefix(a: Seq<Centroid>, n: int)
    requires
        0 <= n <= a.len(),
    ensures
        merged(a, a.subrange(0, n)) == a,
    decreases n,
{
    if n > 0 {
        let b = a.subrange(0, n);
        assert(b.drop_last() == a.subrange(0, n - 1));
        lemma_merge_prefix(a, n - 1);
        assert(same_source(a[n - 1], b.last()));
        assert(has_source(a, b.last()));
    }
}

/// Merging a layer set with itself gives it back unchanged.
pub proof fn lemma_merge_idempotent(l: LayerSet)
    requires
        l.wf(),
    ensures
        merged(l@, l@) == l@,
{
    lemma_merge_prefix(l@, l@.len() as int);
    assert(l@.subrange(0, l@.len() as int) == l@);
}

} // verus!
