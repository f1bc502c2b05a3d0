//! Prefix search on case-folded names: positions ordered by folded name, the
//! matches of a prefix found as one block by bisection. When two records fold
//! to the same name, the record loaded last stands for it.
use vstd::prelude::*;
use crate::search::{in_bounds, is_latest, key_at, lemma_filter_block, lemma_last_of_run, prefix_block};
use crate::sort::{arranges, key_seqs, ordered_by, sort_positions};
use crate::store::{folded_names, RecordStore};
use crate::text::{folded, lower_of, same_chars, starts_with};

verus! {

/// Position `p` answers a prefix query for folded prefix `f`: its key starts
/// with `f` and no later record shares its key.
pub open spec fn prefix_hit(ks: Seq<Seq<char>>, f: Seq<char>) -> spec_fn(usize) -> bool {
    |p: usize| starts_with(ks[p as int], f) && is_latest(ks, p as int)
}

pub struct OrderedNameIndex {
    keys: Vec<Vec<char>>,
    order: Vec<usize>,
}

impl OrderedNameIndex {
    /// The folded names, by position.
    pub closed spec fn keys(&self) -> Seq<Seq<char>> {
        key_seqs(self.keys@)
    }

    /// The positions in ascending order of folded name.
    pub closed spec fn ranking(&self) -> Seq<usize> {
        self.order@
    }

    pub closed spec fn wf(&self) -> bool {
        &&& ordered_by(self.keys(), self.order@)
        &&& arranges(self.order@, self.keys.len() as int)
    }

    pub fn build(store: &RecordStore) -> (r: OrderedNameIndex)
        ensures
            r.wf(),
            r.keys() == folded_names(store@),
            ordered_by(r.keys(), r.ranking()),
            arranges(r.ranking(), store@.len() as int),
    {
        let keys = store.name_keys();
        assert(key_seqs(keys@).len() == folded_names(store@).len());
        let order = sort_positions(&keys);
        OrderedNameIndex { keys, order }
    }

    /// The positions whose folded name starts with the folded `prefix`, in
    /// ascending order of folded name, one per distinct name.
    pub fn range_query(&self, prefix: &str) -> (r: Vec<usize>)
        requires
            self.wf(),
        ensures
            r@ == self.ranking().filter(prefix_hit(self.keys(), lower_of(prefix@))),
            forall|k: int| 0 <= k < r.len() ==> (#[trigger] r@[k] as int) < self.keys().len(),
    {
        let ghost ks = self.keys();
        let f = folded(prefix);
        let ghost pred = prefix_hit(ks, f@);
        let n = self.order.len();
        proof {
            assert forall|k: int| 0 <= k < n implies (#[trigger] self.order@[k] as int) < ks.len() by {
                assert(self.order@.contains(self.order@[k]));
            }
        }
        let (lo, hi) = prefix_block(&self.keys, &self.order, &f);
        let mut r: Vec<usize> = Vec::new();
        let mut t: usize = lo;
        while t < hi
            invariant
                self.wf(),
                ks == self.keys(),
                pred == prefix_hit(ks, f@),
                n == self.order.len(),
                n == ks.len(),
                in_bounds(self.order@, ks.len() as int),
                lo <= t <= hi <= n,
                forall|u: int|
                    0 <= u < n ==> ((lo <= u < hi) <==> starts_with(
                        #[trigger] key_at(ks, self.order@, u),
                        f@,
                    )),
                r@ == self.order@.subrange(lo as int, t as int).filter(pred),
                forall|k: int| 0 <= k < r.len() ==> (#[trigger] r@[k] as int) < ks.len(),
            decreases hi - t,
        {
            let p = self.order[t];
            let last = t + 1 == n || !same_chars(&self.keys[self.order[t + 1]], &self.keys[p]);
            proof {
                lemma_last_of_run(ks, self.order@, t as int);
                assert(self.order@.subrange(lo as int, t + 1) =~= self.order@.subrange(
                    lo as int,
                    t as int,
                ).push(p));
                self.order@.subrange(lo as int, t as int).lemma_filter_push(p, pred);
                assert(starts_with(key_at(ks, self.order@, t as int), f@));
                assert(pred(p) == last);
            }
            if last {
                r.push(p);
            }
            t = t + 1;
        }
        proof {
            assert forall|u: int| 0 <= u < n && !(lo <= u < hi) implies !pred(
                #[trigger] self.order@[u],
            ) by {
                assert(!starts_with(key_at(ks, self.order@, u), f@));
            }
            lemma_filter_block(self.order@, lo as int, hi as int, pred);
        }
        r
    }
}

} // verus!
