//! Properties that relate the engine's queries to its records.
use vstd::prelude::*;
use crate::engine::QueryEngine;
use crate::name_index::prefix_hit;
use crate::search::{is_latest, latest_position, lemma_latest_is};
use crate::sort::{arranges, key_before, lemma_before_irreflexive, ordered_by};
use crate::store::{codes_of, folded_names};
use crate::text::{lex_lt, lower_of, starts_with, lemma_lex_asymmetric, lemma_lex_irreflexive};

verus! {

/// Looking up the code of a record finds that record, provided no record
/// loaded after it carries the same code (a later one would win).
pub proof fn law_code_lookup_finds_record(e: &QueryEngine, i: int)
    requires
        e.wf(),
        0 <= i < e.records().len(),
        forall|j: int| i < j < e.records().len() ==> #[trigger] e.records()[j].0 != e.records()[i].0,
    ensures
        latest_position(codes_of(e.records()), e.records()[i].0) == Some(i),
{
    let ks = codes_of(e.records());
    assert forall|q: int| i < q < ks.len() implies #[trigger] ks[q] != ks[i] by {
        assert(ks[q] == e.records()[q].0);
    }
    lemma_latest_is(ks, e.records()[i].0, i);
}

/// A prefix query on the name index answers a record exactly when its folded
/// name starts with the folded prefix and no later record folds to the same
/// name.
pub proof fn law_prefix_query_members(e: &QueryEngine, prefix: Seq<char>, x: usize)
    requires
        e.wf(),
    ensures
        e.name_index().ranking().filter(prefix_hit(folded_names(e.records()), lower_of(prefix))).contains(x)
            <==> ((x as int) < e.records().len() && starts_with(
            folded_names(e.records())[x as int],
            lower_of(prefix),
        ) && is_latest(folded_names(e.records()), x as int)),
{
    let o = e.name_index().ranking();
    let pred = prefix_hit(folded_names(e.records()), lower_of(prefix));
    if o.filter(pred).contains(x) {
        o.lemma_filter_contains_rev(pred, x);
        #[allow(deprecated)]
        o.filter_lemma(pred);
        let k = choose|k: int| 0 <= k < o.filter(pred).len() && o.filter(pred)[k] == x;
        assert(pred(o.filter(pred)[k]));
    }
    if (x as int) < e.records().len() && pred(x) {
        assert(o.contains(x));
        let k = choose|k: int| 0 <= k < o.len() && o[k] == x;
        o.lemma_filter_contains(pred, k);
    }
}

/// A listing arranged by `o` holds every record once, its keys never
/// decrease, and records with equal keys keep their load order.
pub open spec fn sorted_listing(ks: Seq<Seq<char>>, o: Seq<usize>) -> bool {
    &&& arranges(o, ks.len() as int)
    &&& forall|a: int, b: int|
        0 <= a < b < o.len() ==> !lex_lt(#[trigger] ks[o[b] as int], #[trigger] ks[o[a] as int])
    &&& forall|a: int, b: int|
        0 <= a < b < o.len() && ks[o[a] as int] == ks[o[b] as int] ==> #[trigger] o[a] < #[trigger] o[b]
}

proof fn lemma_ordered_listing(ks: Seq<Seq<char>>, o: Seq<usize>)
    requires
        ordered_by(ks, o),
        arranges(o, ks.len() as int),
    ensures
        sorted_listing(ks, o),
{
    assert forall|a: int, b: int| 0 <= a < b < o.len() implies !lex_lt(
        #[trigger] ks[o[b] as int],
        #[trigger] ks[o[a] as int],
    ) by {
        assert(key_before(ks, o[a] as int, o[b] as int));
        if lex_lt(ks[o[a] as int], ks[o[b] as int]) {
            lemma_lex_asymmetric(ks[o[a] as int], ks[o[b] as int]);
        } else {
            lemma_lex_irreflexive(ks[o[a] as int]);
        }
    }
    assert forall|a: int, b: int|
        0 <= a < b < o.len() && ks[o[a] as int] == ks[o[b] as int] implies #[trigger] o[a]
        < #[trigger] o[b] by {
        assert(key_before(ks, o[a] as int, o[b] as int));
        lemma_lex_irreflexive(ks[o[a] as int]);
    }
}

/// The listing by name is a permutation of the records, non-decreasing by
/// case-folded name, with ties in load order.
pub proof fn law_sorted_by_name(e: &QueryEngine)
    requires
        e.wf(),
    ensures
        sorted_listing(folded_names(e.records()), e.projections().by_name()),
{
    lemma_ordered_listing(folded_names(e.records()), e.projections().by_name());
}

/// The listing by code is a permutation of the records, non-decreasing by
/// code, with ties in load order.
pub proof fn law_sorted_by_code(e: &QueryEngine)
    requires
        e.wf(),
    ensures
        sorted_listing(codes_of(e.records()), e.projections().by_code()),
{
    lemma_ordered_listing(codes_of(e.records()), e.projections().by_code());
}

/// Two lists that hold the same positions, each strictly increasing in the
/// order (key, position), are the same list: a stable sort has one result.
pub proof fn law_ordering_unique(ks: Seq<Seq<char>>, o1: Seq<usize>, o2: Seq<usize>)
    requires
        ordered_by(ks, o1),
        ordered_by(ks, o2),
        o1.len() == o2.len(),
        forall|x: usize| #[trigger] o1.contains(x) <==> o2.contains(x),
    ensures
        o1 == o2,
    decreases o1.len(),
{
    if o1.len() > 0 {
        assert(o1.contains(o1[0]));
        assert(o2.contains(o2[0]));
        assert(o2.contains(o1[0]));
        assert(o1.contains(o2[0]));
        let j = choose|j: int| 0 <= j < o2.len() && o2[j] == o1[0];
        let i = choose|i: int| 0 <= i < o1.len() && o1[i] == o2[0];
        if i > 0 && j > 0 {
            assert(key_before(ks, o1[0] as int, o1[i] as int));
            assert(key_before(ks, o2[0] as int, o2[j] as int));
            if lex_lt(ks[o1[0] as int], ks[o2[0] as int]) {
                lemma_lex_asymmetric(ks[o1[0] as int], ks[o2[0] as int]);
            } else {
                lemma_lex_irreflexive(ks[o1[0] as int]);
            }
        }
        assert(o1[0] == o2[0]);
        let t1 = o1.drop_first();
        let t2 = o2.drop_first();
        assert forall|x: usize| #[trigger] t1.contains(x) <==> t2.contains(x) by {
            if t1.contains(x) {
                let k = choose|k: int| 0 <= k < t1.len() && t1[k] == x;
                assert(o1[k + 1] == x);
                lemma_before_irreflexive(ks, x as int);
                assert(o1.contains(x));
                assert(o2.contains(x));
                let m = choose|m: int| 0 <= m < o2.len() && o2[m] == x;
                assert(m != 0);
                assert(t2[m - 1] == x);
            }
            if t2.contains(x) {
                let k = choose|k: int| 0 <= k < t2.len() && t2[k] == x;
                assert(o2[k + 1] == x);
                lemma_before_irreflexive(ks, x as int);
                assert(o2.contains(x));
                assert(o1.contains(x));
                let m = choose|m: int| 0 <= m < o1.len() && o1[m] == x;
                assert(m != 0);
                assert(t1[m - 1] == x);
            }
        }
        law_ordering_unique(ks, t1, t2);
        assert(o1 =~= o2) by {
            assert forall|k: int| 0 <= k < o1.len() implies o1[k] == o2[k] by {
                if k > 0 {
                    assert(t1[k - 1] == t2[k - 1]);
                }
            }
        }
    }
}

} // verus!
