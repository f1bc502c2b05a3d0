//! The query engine: built once from a record store, it answers lookup by
//! code, name search under the strategy chosen at construction, full
//! listings, and first-letter filtering.
use vstd::prelude::*;
use crate::code_index::ExactCodeIndex;
use crate::name_index::{prefix_hit, OrderedNameIndex};
use crate::projections::{initial_is, initials_of, SortedProjections};
use crate::search::latest_position;
use crate::sort::{arranges, key_seqs, ordered_by};
use crate::store::{codes_of, folded_names, Produto, RecordStore};
use crate::text::{chars_of, folded, has_infix, lower_of, occurs_in};
use crate::word_index::{all_owners, all_words, dedup, word_starts, construir_indice_invertido, InvertedWordIndex};

verus! {

/// How `find_by_name` matches a term against names.
#[derive(Clone, Copy, Debug, PartialEq, Eq)]
pub enum NameSearch {
    /// The folded term occurs anywhere in the folded name.
    LinearScan,
    /// The folded name starts with the folded term.
    OrderedRangePrefix,
    /// A word of the folded name starts with the folded term.
    InvertedWordPrefix,
}

/// The order of a full listing.
#[derive(Clone, Copy, Debug, PartialEq, Eq)]
pub enum ListOrder {
    ByName,
    ByCode,
}

#[derive(Clone, Copy, Debug, PartialEq, Eq)]
pub enum QueryError {
    /// A query argument is malformed: an empty search term, or a letter
    /// filter that is not exactly one character.
    InvalidInput,
    /// The store holds no records, so there is nothing to serve.
    EmptyStore,
}

/// The positions `0..n`, in order.
pub open spec fn all_positions(n: nat) -> Seq<usize> {
    Seq::new(n, |i: int| i as usize)
}

/// Position `p`'s folded name contains the folded term `f`.
pub open spec fn name_contains(ns: Seq<Seq<char>>, f: Seq<char>) -> spec_fn(usize) -> bool {
    |p: usize| occurs_in(ns[p as int], f)
}

/// The records at positions `ps`.
pub open spec fn records_at(rs: Seq<(Seq<char>, Seq<char>)>, ps: Seq<usize>) -> Seq<(Seq<char>, Seq<char>)> {
    ps.map_values(|p: usize| rs[p as int])
}

pub struct QueryEngine {
    store: RecordStore,
    strategy: NameSearch,
    names: Vec<Vec<char>>,
    codes: ExactCodeIndex,
    name_index: OrderedNameIndex,
    words: InvertedWordIndex,
    projections: SortedProjections,
}

impl QueryEngine {
    /// The records, in load order.
    pub closed spec fn records(&self) -> Seq<(Seq<char>, Seq<char>)> {
        self.store@
    }

    pub closed spec fn strategy(&self) -> NameSearch {
        self.strategy
    }

    pub closed spec fn code_index(&self) -> ExactCodeIndex {
        self.codes
    }

    pub closed spec fn name_index(&self) -> OrderedNameIndex {
        self.name_index
    }

    pub closed spec fn word_index(&self) -> InvertedWordIndex {
        self.words
    }

    pub closed spec fn projections(&self) -> SortedProjections {
        self.projections
    }

    /// Everything the engine holds is derived from its records.
    pub open spec fn wf(&self) -> bool {
        let rs = self.records();
        &&& rs.len() > 0
        &&& self.code_index().wf()
        &&& self.code_index().keys() == codes_of(rs)
        &&& self.name_index().wf()
        &&& self.name_index().keys() == folded_names(rs)
        &&& ordered_by(folded_names(rs), self.name_index().ranking())
        &&& arranges(self.name_index().ranking(), rs.len() as int)
        &&& self.word_index().wf()
        &&& self.word_index().words() == all_words(folded_names(rs))
        &&& self.word_index().owners() == all_owners(folded_names(rs))
        &&& self.word_index().record_count() == rs.len()
        &&& ordered_by(self.word_index().words(), self.word_index().ranking())
        &&& ordered_by(folded_names(rs), self.projections().by_name())
        &&& arranges(self.projections().by_name(), rs.len() as int)
        &&& ordered_by(codes_of(rs), self.projections().by_code())
        &&& arranges(self.projections().by_code(), rs.len() as int)
        &&& self.projections().initials() == initials_of(rs)
        &&& self.names_ok()
    }

    /// The folded names held for scanning are those of the records.
    pub closed spec fn names_ok(&self) -> bool {
        key_seqs(self.names@) == folded_names(self.store@)
    }

    /// The positions that `find_by_name` answers for term `t` under the
    /// engine's strategy, in the order returned.
    pub open spec fn name_hits(&self, t: Seq<char>) -> Seq<usize> {
        let rs = self.records();
        let f = lower_of(t);
        match self.strategy() {
            NameSearch::LinearScan => all_positions(rs.len()).filter(
                name_contains(folded_names(rs), f),
            ),
            NameSearch::OrderedRangePrefix => self.name_index().ranking().filter(
                prefix_hit(folded_names(rs), f),
            ),
            NameSearch::InvertedWordPrefix => dedup(
                self.word_index().ranking().filter(word_starts(self.word_index().words(), f)).map_values(
                    |e: usize| self.word_index().owners()[e as int],
                ),
            ),
        }
    }

    /// Builds every index once from `store`; an empty store is refused.
    pub fn new(store: RecordStore, strategy: NameSearch) -> (r: Result<QueryEngine, QueryError>)
        ensures
            store@.len() == 0 <==> r is Err,
            r is Err ==> r == Err::<QueryEngine, QueryError>(QueryError::EmptyStore),
            r matches Ok(e) ==> e.wf() && e.records() == store@ && e.strategy() == strategy,
    {
        if store.is_empty() {
            return Err(QueryError::EmptyStore);
        }
        let names = store.name_keys();
        let codes = ExactCodeIndex::build(&store);
        let name_index = OrderedNameIndex::build(&store);
        let words = construir_indice_invertido(&store);
        let projections = SortedProjections::build(&store);
        Ok(QueryEngine { store, strategy, names, codes, name_index, words, projections })
    }

    /// Copies of the records at positions `ps`.
    fn products_at(&self, ps: &Vec<usize>) -> (r: Vec<Produto>)
        requires
            forall|k: int| 0 <= k < ps.len() ==> (#[trigger] ps@[k] as int) < self.records().len(),
        ensures
            crate::store::product_views(r@) == records_at(self.records(), ps@),
    {
        let mut r: Vec<Produto> = Vec::new();
        let mut i: usize = 0;
        while i < ps.len()
            invariant
                i <= ps.len(),
                forall|k: int| 0 <= k < ps.len() ==> (#[trigger] ps@[k] as int) < self.records().len(),
                crate::store::product_views(r@) == records_at(self.records(), ps@.subrange(0, i as int)),
            decreases ps.len() - i,
        {
            let ghost r0 = r@;
            let p = self.store.get(ps[i]).duplicate();
            r.push(p);
            assert(crate::store::product_views(r@) =~= crate::store::product_views(r0).push(p@));
            assert(records_at(self.records(), ps@.subrange(0, i + 1)) =~= records_at(
                self.records(),
                ps@.subrange(0, i as int),
            ).push(self.records()[ps@[i as int] as int]));
            i = i + 1;
        }
        assert(ps@.subrange(0, i as int) =~= ps@);
        r
    }

    /// The record whose code is exactly `code` (the last loaded, should
    /// codes repeat); `None` when there is none.
    pub fn find_by_code(&self, code: &str) -> (r: Option<Produto>)
        requires
            self.wf(),
        ensures
            match latest_position(codes_of(self.records()), code@) {
                Some(p) => r matches Some(x) && x@ == self.records()[p],
                None => r is None,
            },
    {
        match self.codes.lookup(code) {
            Some(p) => {
                proof {
                    crate::search::lemma_latest_position(codes_of(self.records()), code@);
                }
                Some(self.store.get(p).duplicate())
            },
            None => None,
        }
    }

    /// Searches names for `term` under the engine's strategy; an empty term
    /// is refused.
    pub fn find_by_name(&self, term: &str) -> (r: Result<Vec<Produto>, QueryError>)
        requires
            self.wf(),
        ensures
            term@.len() == 0 <==> r is Err,
            r is Err ==> r == Err::<Vec<Produto>, QueryError>(QueryError::InvalidInput),
            r matches Ok(v) ==> crate::store::product_views(v@) == records_at(
                self.records(),
                self.name_hits(term@),
            ),
    {
        let cs = chars_of(term);
        if cs.len() == 0 {
            return Err(QueryError::InvalidInput);
        }
        let hits = match self.strategy {
            NameSearch::LinearScan => self.scan_names(term),
            NameSearch::OrderedRangePrefix => self.name_index.range_query(term),
            NameSearch::InvertedWordPrefix => self.words.prefix_word_query(term),
        };
        Ok(self.products_at(&hits))
    }

    /// The positions whose folded name contains the folded `term`, in load
    /// order.
    fn scan_names(&self, term: &str) -> (r: Vec<usize>)
        requires
            self.wf(),
        ensures
            r@ == all_positions(self.records().len()).filter(
                name_contains(folded_names(self.records()), lower_of(term@)),
            ),
            forall|k: int| 0 <= k < r.len() ==> (#[trigger] r@[k] as int) < self.records().len(),
    {
        let f = folded(term);
        let ghost ns = folded_names(self.records());
        let ghost pred = name_contains(ns, f@);
        let n = self.names.len();
        assert(key_seqs(self.names@).len() == ns.len());
        let mut r: Vec<usize> = Vec::new();
        let mut i: usize = 0;
        while i < n
            invariant
                self.wf(),
                ns == folded_names(self.records()),
                pred == name_contains(ns, f@),
                n == self.names.len(),
                n == ns.len(),
                i <= n,
                r@ == all_positions(i as nat).filter(pred),
                forall|k: int| 0 <= k < r.len() ==> (#[trigger] r@[k] as int) < n,
            decreases n - i,
        {
            proof {
                assert(all_positions((i + 1) as nat) =~= all_positions(i as nat).push(i));
                all_positions(i as nat).lemma_filter_push(i, pred);
                assert(self.names@[i as int]@ == key_seqs(self.names@)[i as int]);
            }
            if has_infix(&self.names[i], &f) {
                r.push(i);
            }
            i = i + 1;
        }
        r
    }

    /// Every record, sorted by case-folded name or by code; ties keep load
    /// order.
    pub fn list_all(&self, order: ListOrder) -> (r: Vec<Produto>)
        requires
            self.wf(),
        ensures
            crate::store::product_views(r@) == records_at(
                self.records(),
                match order {
                    ListOrder::ByName => self.projections().by_name(),
                    ListOrder::ByCode => self.projections().by_code(),
                },
            ),
    {
        let ps = match order {
            ListOrder::ByName => self.projections.sorted_by_name(),
            ListOrder::ByCode => self.projections.sorted_by_code(),
        };
        proof {
            assert forall|k: int| 0 <= k < ps.len() implies (#[trigger] ps@[k] as int) < self.records().len() by {
                assert(ps@.contains(ps@[k]));
            }
        }
        self.products_at(ps)
    }

    /// The name listing restricted to records whose case-folded first
    /// character is the case-folded `letter`; `letter` must be exactly one
    /// character.
    pub fn filter_by_first_letter(&self, letter: &str) -> (r: Result<Vec<Produto>, QueryError>)
        requires
            self.wf(),
        ensures
            letter@.len() != 1 <==> r is Err,
            r is Err ==> r == Err::<Vec<Produto>, QueryError>(QueryError::InvalidInput),
            r matches Ok(v) ==> crate::store::product_views(v@) == records_at(
                self.records(),
                self.projections().by_name().filter(
                    initial_is(initials_of(self.records()), lower_of(letter@)),
                ),
            ),
    {
        match self.projections.first_letter_filter(letter) {
            Ok(ps) => Ok(self.products_at(&ps)),
            Err(e) => Err(e),
        }
    }

    /// The number of records served.
    pub fn len(&self) -> (r: usize)
        requires
            self.wf(),
        ensures
            r == self.records().len(),
    {
        self.store.len()
    }
}

} // verus!
