//! Exact lookup by code: positions ordered by code, searched by bisection.
//! When codes repeat, the record loaded last wins.
use vstd::prelude::*;
use crate::search::{in_bounds, key_at, latest_position, lemma_antisymmetric, lemma_last_of_run, lemma_latest_is, lemma_latest_absent, lemma_ordered_le, lower_bound};
use crate::sort::{arranges, key_seqs, ordered_by, sort_positions};
use crate::store::{codes_of, RecordStore};
use crate::text::{chars_of, same_chars, lemma_lex_irreflexive};

verus! {

pub struct ExactCodeIndex {
    codes: Vec<Vec<char>>,
    order: Vec<usize>,
}

impl ExactCodeIndex {
    /// The indexed codes, by position.
    pub closed spec fn keys(&self) -> Seq<Seq<char>> {
        key_seqs(self.codes@)
    }

    pub closed spec fn wf(&self) -> bool {
        &&& ordered_by(self.keys(), self.order@)
        &&& arranges(self.order@, self.codes.len() as int)
    }

    pub fn build(store: &RecordStore) -> (r: ExactCodeIndex)
        ensures
            r.wf(),
            r.keys() == codes_of(store@),
    {
        let codes = store.code_keys();
        let order = sort_positions(&codes);
        ExactCodeIndex { codes, order }
    }

    /// The position of the last record whose code is exactly `code`.
    pub fn lookup(&self, code: &str) -> (r: Option<usize>)
        requires
            self.wf(),
        ensures
            match r {
                Some(p) => latest_position(self.keys(), code@) == Some(p as int),
                None => latest_position(self.keys(), code@) is None,
            },
    {
        let ghost ks = self.keys();
        let c = chars_of(code);
        let n = self.order.len();
        proof {
            assert forall|k: int| 0 <= k < n implies (#[trigger] self.order@[k] as int) < ks.len() by {
                assert(self.order@.contains(self.order@[k]));
            }
        }
        let lo = lower_bound(&self.codes, &self.order, &c);
        if lo == n || !same_chars(&self.codes[self.order[lo]], &c) {
            proof {
                assert forall|q: int| 0 <= q < ks.len() implies #[trigger] ks[q] != c@ by {
                    assert(self.order@.contains(q as usize));
                    let u = choose|u: int| 0 <= u < n && self.order@[u] == q as usize;
                    assert(key_at(ks, self.order@, u) == ks[q]);
                    if u < lo {
                        assert(crate::text::lex_lt(key_at(ks, self.order@, u), c@));
                        lemma_lex_irreflexive(c@);
                    } else if ks[q] == c@ {
                        assert(!crate::text::lex_lt(key_at(ks, self.order@, lo as int), c@));
                        lemma_ordered_le(ks, self.order@, lo as int, u);
                        lemma_antisymmetric(key_at(ks, self.order@, lo as int), c@);
                    }
                }
                lemma_latest_absent(ks, c@);
            }
            return None;
        }
        let mut t: usize = lo;
        while t + 1 < n && same_chars(&self.codes[self.order[t + 1]], &c)
            invariant
                self.wf(),
                ks == self.keys(),
                n == self.order.len(),
                in_bounds(self.order@, ks.len() as int),
                lo <= t < n,
                key_at(ks, self.order@, t as int) == c@,
            decreases n - t,
        {
            t = t + 1;
        }
        proof {
            lemma_last_of_run(ks, self.order@, t as int);
            lemma_latest_is(ks, c@, self.order@[t as int] as int);
        }
        Some(self.order[t])
    }
}

} // verus!
