//! The id/category allocator: issues globally unique ids (auction ids and
//! category ids draw from the same counter), keeps per-category item
//! counts, and holds the minimum-deposit and auction-delay policy
//! parameters.

use vstd::prelude::*;
use crate::types::{Balance, BlockNumber, Error, GlobalId};

verus! {

#[derive(Clone, Copy, Debug, PartialEq, Eq, Structural)]
struct CatEntry {
    id: GlobalId,
    count: u128,
}

/// The allocator: the next unissued id, the policy parameters, and an
/// association list of category counters with pairwise distinct ids.
pub struct Allocator {
    next_id: GlobalId,
    min_deposit: Balance,
    delay: BlockNumber,
    cats: Vec<CatEntry>,
}

spec fn cats_as_map(s: Seq<CatEntry>) -> Map<GlobalId, u128>
    decreases s.len(),
{
    if s.len() == 0 {
        Map::empty()
    } else {
        cats_as_map(s.drop_last()).insert(s.last().id, s.last().count)
    }
}

spec fn cat_ids_unique(s: Seq<CatEntry>) -> bool {
    forall|i: int, j: int| 0 <= i < j < s.len() ==> s[i].id != s[j].id
}

proof fn lemma_cats_map_contains(s: Seq<CatEntry>, k: GlobalId)
    ensures
        cats_as_map(s).contains_key(k) <==> exists|i: int| 0 <= i < s.len() && s[i].id == k,
    decreases s.len(),
{
    if s.len() > 0 {
        lemma_cats_map_contains(s.drop_last(), k);
        if cats_as_map(s).contains_key(k) {
            if s.last().id == k {
                assert(s[s.len() - 1].id == k);
            } else {
                let i = choose|i: int| 0 <= i < s.drop_last().len() && s.drop_last()[i].id == k;
                assert(s[i].id == k);
            }
        }
        if exists|i: int| 0 <= i < s.len() && s[i].id == k {
            let i = choose|i: int| 0 <= i < s.len() && s[i].id == k;
            if i < s.len() - 1 {
                assert(s.drop_last()[i].id == k);
            }
        }
    }
}

proof fn lemma_cats_map_index(s: Seq<CatEntry>, i: int)
    requires
        cat_ids_unique(s),
        0 <= i < s.len(),
    ensures
        cats_as_map(s).contains_key(s[i].id),
        cats_as_map(s)[s[i].id] == s[i].count,
    decreases s.len(),
{
    if i == s.len() - 1 {
    } else {
        assert(cat_ids_unique(s.drop_last()));
        assert(s.drop_last()[i] == s[i]);
        lemma_cats_map_index(s.drop_last(), i);
        assert(s[s.len() - 1].id != s[i].id);
    }
}

proof fn lemma_cats_map_update(s: Seq<CatEntry>, i: int, e: CatEntry)
    requires
        cat_ids_unique(s),
        0 <= i < s.len(),
        e.id == s[i].id,
    ensures
        cats_as_map(s.update(i, e)) == cats_as_map(s).insert(e.id, e.count),
        cat_ids_unique(s.update(i, e)),
    decreases s.len(),
{
    let t = s.update(i, e);
    assert(forall|x: int, y: int| 0 <= x < y < t.len() ==> t[x].id != t[y].id);
    if i == s.len() - 1 {
        assert(t.drop_last() =~= s.drop_last());
        assert(t.last() == e);
        assert(cats_as_map(t) =~= cats_as_map(s).insert(e.id, e.count));
    } else {
        assert(cat_ids_unique(s.drop_last()));
        assert(s.drop_last()[i] == s[i]);
        lemma_cats_map_update(s.drop_last(), i, e);
        assert(t.drop_last() =~= s.drop_last().update(i, e));
        assert(t.last() == s.last());
        assert(s.last().id != e.id);
        assert(cats_as_map(t) =~= cats_as_map(s).insert(e.id, e.count));
    }
}

proof fn lemma_cats_map_push(s: Seq<CatEntry>, e: CatEntry)
    requires
        cat_ids_unique(s),
        forall|i: int| 0 <= i < s.len() ==> s[i].id != e.id,
    ensures
        cats_as_map(s.push(e)) == cats_as_map(s).insert(e.id, e.count),
        cat_ids_unique(s.push(e)),
{
    assert(s.push(e).drop_last() =~= s);
    assert(s.push(e).last() == e);
}

/// In a well-formed allocator, every existing category's id was issued.
pub proof fn lemma_cat_ids_bounded(a: &Allocator, g: GlobalId)
    requires
        a.wf(),
        a.cats_m().contains_key(g),
    ensures
        g < a.next_id_spec(),
{
    lemma_cats_map_contains(a.cats@, g);
    let i = choose|i: int| 0 <= i < a.cats@.len() && a.cats@[i].id == g;
    assert(a.cats@[i].id < a.next_id_spec());
}

impl Allocator {
    /// The category counters as a map from category id to item count.
    pub closed spec fn cats_m(&self) -> Map<GlobalId, u128> {
        cats_as_map(self.cats@)
    }

    /// Well-formed: category ids are pairwise distinct and every category
    /// id was issued by this allocator.
    pub closed spec fn wf(&self) -> bool {
        &&& cat_ids_unique(self.cats@)
        &&& forall|i: int| 0 <= i < self.cats@.len() ==> #[trigger] self.cats@[i].id < self.next_id
    }

    /// The next id this allocator will issue.
    pub closed spec fn next_id_spec(&self) -> GlobalId {
        self.next_id
    }

    /// The minimum-deposit policy parameter.
    pub closed spec fn min_deposit_spec(&self) -> Balance {
        self.min_deposit
    }

    /// The auction-delay policy parameter.
    pub closed spec fn delay_spec(&self) -> BlockNumber {
        self.delay
    }

    /// Whether a category with id `g` exists.
    pub open spec fn has_category(&self, g: GlobalId) -> bool {
        self.cats_m().contains_key(g)
    }

    /// The item count of category `g`; zero for an absent category.
    pub open spec fn count_of(&self, g: GlobalId) -> u128 {
        if self.cats_m().contains_key(g) {
            self.cats_m()[g]
        } else {
            0
        }
    }

    /// A fresh allocator with the given policy parameters.
    pub fn new(min_deposit: Balance, delay: BlockNumber) -> (r: Allocator)
        ensures
            r.wf(),
            r.cats_m() == Map::<GlobalId, u128>::empty(),
            r.next_id_spec() == 0,
            r.min_deposit_spec() == min_deposit,
            r.delay_spec() == delay,
    {
        Allocator { next_id: 0, min_deposit, delay, cats: Vec::new() }
    }

    /// The minimum-deposit policy parameter.
    pub fn get_min_order_deposit(&self) -> (r: Balance)
        ensures
            r == self.min_deposit_spec(),
    {
        self.min_deposit
    }

    /// The auction-delay policy parameter.
    pub fn auction_delay(&self) -> (r: BlockNumber)
        ensures
            r == self.delay_spec(),
    {
        self.delay
    }

    /// The next id this allocator will issue.
    pub fn peek_next_id(&self) -> (r: GlobalId)
        ensures
            r == self.next_id_spec(),
    {
        self.next_id
    }

    /// Issue the next id. Fails if and only if the id space is exhausted.
    pub fn get_then_inc_id(&mut self) -> (r: Result<GlobalId, Error>)
        requires
            old(self).wf(),
        ensures
            final(self).wf(),
            r is Ok <==> old(self).next_id_spec() < u64::MAX,
            r is Ok ==> r == Ok::<GlobalId, Error>(old(self).next_id_spec()),
            r is Ok ==> final(self).next_id_spec() == old(self).next_id_spec() + 1,
            r is Err ==> *final(self) == *old(self) && r == Err::<GlobalId, Error>(
                Error::ArithmeticOverflow,
            ),
            final(self).cats_m() == old(self).cats_m(),
            final(self).min_deposit_spec() == old(self).min_deposit_spec(),
            final(self).delay_spec() == old(self).delay_spec(),
    {
        if self.next_id == u64::MAX {
            return Err(Error::ArithmeticOverflow);
        }
        let id = self.next_id;
        self.next_id = self.next_id + 1;
        Ok(id)
    }

    fn find_cat(&self, g: GlobalId) -> (r: Option<usize>)
        requires
            cat_ids_unique(self.cats@),
        ensures
            match r {
                Some(i) => {
                    &&& i < self.cats@.len()
                    &&& self.cats@[i as int].id == g
                    &&& self.cats_m().contains_key(g)
                    &&& self.cats_m()[g] == self.cats@[i as int].count
                },
                None => !self.cats_m().contains_key(g),
            },
    {
        let n = self.cats.len();
        let mut i: usize = 0;
        while i < n
            invariant
                n == self.cats@.len(),
                i <= n,
                cat_ids_unique(self.cats@),
                forall|j: int| 0 <= j < i ==> self.cats@[j].id != g,
            decreases n - i,
        {
            if self.cats[i].id == g {
                proof {
                    lemma_cats_map_index(self.cats@, i as int);
                }
                return Some(i);
            }
            i = i + 1;
        }
        proof {
            lemma_cats_map_contains(self.cats@, g);
        }
        None
    }

    /// Whether a category with id `g` exists.
    pub fn category_exists(&self, g: GlobalId) -> (r: bool)
        requires
            self.wf(),
        ensures
            r == self.has_category(g),
    {
        self.find_cat(g).is_some()
    }

    /// The item count of category `g`, if it exists.
    pub fn category_count(&self, g: GlobalId) -> (r: Option<u128>)
        requires
            self.wf(),
        ensures
            self.has_category(g) ==> r == Some::<u128>(self.count_of(g)),
            !self.has_category(g) ==> r is None,
    {
        match self.find_cat(g) {
            Some(i) => Some(self.cats[i].count),
            None => None,
        }
    }

    /// Create a new category with a zero item count, issuing its id. Fails
    /// if and only if the id space is exhausted.
    pub fn create_category(&mut self) -> (r: Result<GlobalId, Error>)
        requires
            old(self).wf(),
        ensures
            final(self).wf(),
            r is Ok <==> old(self).next_id_spec() < u64::MAX,
            r is Ok ==> r == Ok::<GlobalId, Error>(old(self).next_id_spec())
                && final(self).cats_m() == old(self).cats_m().insert(old(self).next_id_spec(), 0)
                && final(self).next_id_spec() == old(self).next_id_spec() + 1,
            r is Err ==> *final(self) == *old(self) && r == Err::<GlobalId, Error>(
                Error::ArithmeticOverflow,
            ),
            final(self).min_deposit_spec() == old(self).min_deposit_spec(),
            final(self).delay_spec() == old(self).delay_spec(),
    {
        if self.next_id == u64::MAX {
            return Err(Error::ArithmeticOverflow);
        }
        let id = self.next_id;
        self.next_id = self.next_id + 1;
        let e = CatEntry { id, count: 0 };
        proof {
            lemma_cats_map_push(self.cats@, e);
        }
        self.cats.push(e);
        Ok(id)
    }

    /// Add one to the item count of category `g`. The category must exist
    /// and its count must not be at the bound.
    pub fn inc_count_in_category(&mut self, g: GlobalId)
        requires
            old(self).wf(),
            old(self).has_category(g),
            old(self).count_of(g) < u128::MAX,
        ensures
            final(self).wf(),
            final(self).cats_m() == old(self).cats_m().insert(
                g,
                (old(self).count_of(g) + 1) as u128,
            ),
            final(self).next_id_spec() == old(self).next_id_spec(),
            final(self).min_deposit_spec() == old(self).min_deposit_spec(),
            final(self).delay_spec() == old(self).delay_spec(),
    {
        let i = match self.find_cat(g) {
            Some(i) => i,
            None => {
                proof {
                    assert(false);
                }
                return ;
            },
        };
        let e = CatEntry { id: g, count: self.cats[i].count + 1 };
        proof {
            lemma_cats_map_update(self.cats@, i as int, e);
        }
        self.cats[i] = e;
    }

    /// Take one from the item count of category `g`. The category must
    /// exist and its count must be positive.
    pub fn dec_count_in_category(&mut self, g: GlobalId)
        requires
            old(self).wf(),
            old(self).has_category(g),
            old(self).count_of(g) > 0,
        ensures
            final(self).wf(),
            final(self).cats_m() == old(self).cats_m().insert(
                g,
                (old(self).count_of(g) - 1) as u128,
            ),
            final(self).next_id_spec() == old(self).next_id_spec(),
            final(self).min_deposit_spec() == old(self).min_deposit_spec(),
            final(self).delay_spec() == old(self).delay_spec(),
    {
        let i = match self.find_cat(g) {
            Some(i) => i,
            None => {
                proof {
                    assert(false);
                }
                return ;
            },
        };
        let e = CatEntry { id: g, count: self.cats[i].count - 1 };
        proof {
            lemma_cats_map_update(self.cats@, i as int, e);
        }
        self.cats[i] = e;
    }
}

} // verus!
