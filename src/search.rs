//! Range queries over a list of positions ordered by key: the block of
//! positions whose key starts with a prefix, found by binary search.
use vstd::prelude::*;
use crate::sort::{key_seqs, ordered_by, key_before};
use crate::text::{key_less, has_prefix, lex_lt, starts_with, lemma_lex_irreflexive, lemma_lex_transitive, lemma_lex_asymmetric, lemma_prefix_not_below, lemma_prefix_interval};

verus! {

/// The key at rank `t` of the ordered list `o`.
pub open spec fn key_at(ks: Seq<Seq<char>>, o: Seq<usize>, t: int) -> Seq<char> {
    ks[o[t] as int]
}

/// All positions listed are positions of keys.
pub open spec fn in_bounds(o: Seq<usize>, n: int) -> bool {
    forall|k: int| 0 <= k < o.len() ==> (#[trigger] o[k] as int) < n
}

/// Along an ordered list keys never decrease.
pub proof fn lemma_ordered_le(ks: Seq<Seq<char>>, o: Seq<usize>, t: int, u: int)
    requires
        ordered_by(ks, o),
        0 <= t <= u < o.len(),
    ensures
        !lex_lt(key_at(ks, o, u), key_at(ks, o, t)),
{
    if t < u {
        assert(key_before(ks, o[t] as int, o[u] as int));
        if lex_lt(key_at(ks, o, t), key_at(ks, o, u)) {
            lemma_lex_asymmetric(key_at(ks, o, t), key_at(ks, o, u));
        } else {
            lemma_lex_irreflexive(key_at(ks, o, t));
        }
    } else {
        lemma_lex_irreflexive(key_at(ks, o, t));
    }
}

/// The first rank whose key is not below `f`.
pub fn lower_bound(keys: &Vec<Vec<char>>, order: &Vec<usize>, f: &Vec<char>) -> (r: usize)
    requires
        ordered_by(key_seqs(keys@), order@),
        in_bounds(order@, keys.len() as int),
    ensures
        r <= order.len(),
        forall|t: int| 0 <= t < r ==> lex_lt(#[trigger] key_at(key_seqs(keys@), order@, t), f@),
        forall|t: int|
            r <= t < order.len() ==> !lex_lt(#[trigger] key_at(key_seqs(keys@), order@, t), f@),
{
    let ghost ks = key_seqs(keys@);
    let mut lo: usize = 0;
    let mut hi: usize = order.len();
    while lo < hi
        invariant
            ks == key_seqs(keys@),
            ordered_by(ks, order@),
            in_bounds(order@, keys.len() as int),
            lo <= hi <= order.len(),
            forall|t: int| 0 <= t < lo ==> lex_lt(#[trigger] key_at(ks, order@, t), f@),
            forall|t: int| hi <= t < order.len() ==> !lex_lt(#[trigger] key_at(ks, order@, t), f@),
        decreases hi - lo,
    {
        let mid = lo + (hi - lo) / 2;
        let p = order[mid];
        if key_less(&keys[p], f) {
            proof {
                assert forall|t: int| 0 <= t < mid + 1 implies lex_lt(
                    #[trigger] key_at(ks, order@, t),
                    f@,
                ) by {
                    lemma_ordered_le(ks, order@, t, mid as int);
                    if key_at(ks, order@, t) != key_at(ks, order@, mid as int) {
                        lemma_lex_transitive(
                            key_at(ks, order@, t),
                            key_at(ks, order@, mid as int),
                            f@,
                        );
                    }
                }
            }
            lo = mid + 1;
        } else {
            proof {
                assert forall|t: int| mid <= t < order.len() implies !lex_lt(
                    #[trigger] key_at(ks, order@, t),
                    f@,
                ) by {
                    lemma_ordered_le(ks, order@, mid as int, t);
                    if lex_lt(key_at(ks, order@, t), f@) && key_at(ks, order@, t) != key_at(
                        ks,
                        order@,
                        mid as int,
                    ) {
                        crate::text::lemma_lex_total(
                            key_at(ks, order@, t),
                            key_at(ks, order@, mid as int),
                        );
                        lemma_lex_transitive(
                            key_at(ks, order@, mid as int),
                            key_at(ks, order@, t),
                            f@,
                        );
                    }
                }
            }
            hi = mid;
        }
    }
    lo
}

/// The ranks `lo..hi` of the ordered list are exactly those whose key starts
/// with `f`.
pub fn prefix_block(keys: &Vec<Vec<char>>, order: &Vec<usize>, f: &Vec<char>) -> (r: (
    usize,
    usize,
))
    requires
        ordered_by(key_seqs(keys@), order@),
        in_bounds(order@, keys.len() as int),
    ensures
        r.0 <= r.1 <= order.len(),
        forall|t: int|
            0 <= t < order.len() ==> ((r.0 <= t < r.1) <==> starts_with(
                #[trigger] key_at(key_seqs(keys@), order@, t),
                f@,
            )),
        forall|t: int|
            0 <= t < r.0 ==> lex_lt(#[trigger] key_at(key_seqs(keys@), order@, t), f@),
{
    let ghost ks = key_seqs(keys@);
    let start = lower_bound(keys, order, f);
    let mut lo: usize = start;
    let mut hi: usize = order.len();
    while lo < hi
        invariant
            ks == key_seqs(keys@),
            ordered_by(ks, order@),
            in_bounds(order@, keys.len() as int),
            start <= lo <= hi <= order.len(),
            forall|t: int| 0 <= t < start ==> lex_lt(#[trigger] key_at(ks, order@, t), f@),
            forall|t: int|
                start <= t < order.len() ==> !lex_lt(#[trigger] key_at(ks, order@, t), f@),
            forall|t: int| start <= t < lo ==> starts_with(#[trigger] key_at(ks, order@, t), f@),
            forall|t: int|
                hi <= t < order.len() ==> !starts_with(#[trigger] key_at(ks, order@, t), f@),
        decreases hi - lo,
    {
        let mid = lo + (hi - lo) / 2;
        let p = order[mid];
        if has_prefix(&keys[p], f) {
            proof {
                assert forall|t: int| start <= t < mid + 1 implies starts_with(
                    #[trigger] key_at(ks, order@, t),
                    f@,
                ) by {
                    lemma_ordered_le(ks, order@, t, mid as int);
                    lemma_prefix_interval(
                        f@,
                        key_at(ks, order@, t),
                        key_at(ks, order@, mid as int),
                    );
                }
            }
            lo = mid + 1;
        } else {
            proof {
                assert forall|t: int| mid <= t < order.len() implies !starts_with(
                    #[trigger] key_at(ks, order@, t),
                    f@,
                ) by {
                    lemma_ordered_le(ks, order@, mid as int, t);
                    if starts_with(key_at(ks, order@, t), f@) {
                        lemma_prefix_interval(
                            f@,
                            key_at(ks, order@, mid as int),
                            key_at(ks, order@, t),
                        );
                    }
                }
            }
            hi = mid;
        }
    }
    proof {
        assert forall|t: int| 0 <= t < start implies !starts_with(
            #[trigger] key_at(ks, order@, t),
            f@,
        ) by {
            if starts_with(key_at(ks, order@, t), f@) {
                lemma_prefix_not_below(key_at(ks, order@, t), f@);
            }
        }
    }
    (start, lo)
}

/// Filtering a list that holds no match outside ranks `lo..hi` is filtering
/// that block.
pub proof fn lemma_filter_block(s: Seq<usize>, lo: int, hi: int, pred: spec_fn(usize) -> bool)
    requires
        0 <= lo <= hi <= s.len(),
        forall|t: int| 0 <= t < s.len() && !(lo <= t < hi) ==> !pred(#[trigger] s[t]),
    ensures
        s.filter(pred) == s.subrange(lo, hi).filter(pred),
{
    broadcast use Seq::filter_distributes_over_add;

    assert(s =~= s.subrange(0, lo) + s.subrange(lo, hi) + s.subrange(hi, s.len() as int));
    lemma_filter_none(s.subrange(0, lo), pred);
    lemma_filter_none(s.subrange(hi, s.len() as int), pred);
    assert(s.subrange(0, lo).filter(pred) + s.subrange(lo, hi).filter(pred) =~= s.subrange(
        lo,
        hi,
    ).filter(pred));
    assert(s.subrange(lo, hi).filter(pred) + s.subrange(hi, s.len() as int).filter(pred)
        =~= s.subrange(lo, hi).filter(pred));
}

/// Filtering a list that holds no match gives the empty list.
pub proof fn lemma_filter_none(s: Seq<usize>, pred: spec_fn(usize) -> bool)
    requires
        forall|t: int| 0 <= t < s.len() ==> !pred(#[trigger] s[t]),
    ensures
        s.filter(pred) == Seq::<usize>::empty(),
    decreases s.len(),
{
    reveal(Seq::filter);
    if s.len() > 0 {
        lemma_filter_none(s.drop_last(), pred);
    }
    assert(s.filter(pred) =~= Seq::<usize>::empty());
}

/// No later position holds the same key as `p`: `p` is the record that a
/// later-insert-wins map keeps for its key.
pub open spec fn is_latest(ks: Seq<Seq<char>>, p: int) -> bool {
    forall|q: int| p < q < ks.len() ==> #[trigger] ks[q] != ks[p]
}

/// The last position whose key is `c`, if any.
pub open spec fn latest_position(ks: Seq<Seq<char>>, c: Seq<char>) -> Option<int>
    decreases ks.len(),
{
    if ks.len() == 0 {
        None
    } else if ks.last() == c {
        Some(ks.len() - 1)
    } else {
        latest_position(ks.drop_last(), c)
    }
}

pub proof fn lemma_latest_position(ks: Seq<Seq<char>>, c: Seq<char>)
    ensures
        match latest_position(ks, c) {
            Some(p) => 0 <= p < ks.len() && ks[p] == c && is_latest(ks, p),
            None => forall|q: int| 0 <= q < ks.len() ==> #[trigger] ks[q] != c,
        },
    decreases ks.len(),
{
    if ks.len() > 0 && ks.last() != c {
        lemma_latest_position(ks.drop_last(), c);
        assert forall|q: int| 0 <= q < ks.len() - 1 implies #[trigger] ks[q] == ks.drop_last()[q] by {
        }
    }
}

/// The positions holding key `c` are exactly the ones below and at `p`
/// whose key is `c`; `latest_position` names the last of them.
pub proof fn lemma_latest_is(ks: Seq<Seq<char>>, c: Seq<char>, p: int)
    requires
        0 <= p < ks.len(),
        ks[p] == c,
        is_latest(ks, p),
    ensures
        latest_position(ks, c) == Some(p),
{
    lemma_latest_position(ks, c);
    match latest_position(ks, c) {
        Some(q) => {
            if q < p {
                assert(ks[p] != ks[q]);
            } else if q > p {
                assert(ks[q] != ks[p]);
            }
        },
        None => {
            assert(ks[p] != c);
        },
    }
}

/// No latest position holds `c` when no position does.
pub proof fn lemma_latest_absent(ks: Seq<Seq<char>>, c: Seq<char>)
    requires
        forall|q: int| 0 <= q < ks.len() ==> #[trigger] ks[q] != c,
    ensures
        latest_position(ks, c) is None,
{
    lemma_latest_position(ks, c);
}

pub proof fn lemma_antisymmetric(a: Seq<char>, b: Seq<char>)
    requires
        !lex_lt(a, b),
        !lex_lt(b, a),
    ensures
        a == b,
{
    if a != b {
        crate::text::lemma_lex_total(a, b);
    }
}

/// In an ordered arrangement of all positions, the entry at rank `t` is the
/// latest of its key exactly when the next rank holds another key.
pub proof fn lemma_last_of_run(ks: Seq<Seq<char>>, o: Seq<usize>, t: int)
    requires
        ordered_by(ks, o),
        o.len() == ks.len(),
        ks.len() <= usize::MAX,
        forall|x: usize| #[trigger] o.contains(x) <==> (x as int) < ks.len(),
        0 <= t < o.len(),
    ensures
        is_latest(ks, o[t] as int) <==> (t + 1 == o.len() || key_at(ks, o, t + 1) != key_at(
            ks,
            o,
            t,
        )),
{
    if t + 1 < o.len() && key_at(ks, o, t + 1) == key_at(ks, o, t) {
        assert(key_before(ks, o[t] as int, o[t + 1] as int));
        lemma_lex_irreflexive(key_at(ks, o, t));
        assert(ks[o[t + 1] as int] == ks[o[t] as int]);
        assert(o.contains(o[t + 1]));
        assert(o[t] < o[t + 1]);
        assert(!is_latest(ks, o[t] as int));
    }
    if t + 1 == o.len() || key_at(ks, o, t + 1) != key_at(ks, o, t) {
        assert forall|q: int| o[t] < q < ks.len() implies #[trigger] ks[q] != ks[o[t] as int] by {
            if ks[q] == ks[o[t] as int] {
                assert(o.contains(q as usize));
                let u = choose|u: int| 0 <= u < o.len() && o[u] == q as usize;
                if u < t {
                    assert(key_before(ks, o[u] as int, o[t] as int));
                    lemma_lex_irreflexive(ks[q]);
                } else if u > t {
                    lemma_ordered_le(ks, o, t, t + 1);
                    lemma_ordered_le(ks, o, t + 1, u);
                    assert(key_at(ks, o, u) == key_at(ks, o, t));
                    lemma_antisymmetric(key_at(ks, o, t), key_at(ks, o, t + 1));
                }
            }
        }
    }
}

} // verus!
