//! Stable sorting of positions by a character-sequence key: a merge sort
//! whose result is strictly increasing in the order (key, position).
use vstd::prelude::*;
use crate::text::{key_less, lex_lt, lemma_lex_irreflexive, lemma_lex_transitive, lemma_lex_total};

verus! {

/// The character sequences held by a vector of keys.
pub open spec fn key_seqs(keys: Seq<Vec<char>>) -> Seq<Seq<char>> {
    keys.map_values(|k: Vec<char>| k@)
}

/// Position `i` comes before position `j`: its key is smaller, or the keys are
/// equal and `i` was loaded first.
pub open spec fn key_before(ks: Seq<Seq<char>>, i: int, j: int) -> bool {
    lex_lt(ks[i], ks[j]) || (ks[i] == ks[j] && i < j)
}

/// `o` lists positions strictly increasing in the order `key_before`.
pub open spec fn ordered_by(ks: Seq<Seq<char>>, o: Seq<usize>) -> bool {
    forall|a: int, b: int|
        0 <= a < b < o.len() ==> key_before(ks, #[trigger] o[a] as int, #[trigger] o[b] as int)
}

/// `o` lists each position below `n` exactly once.
pub open spec fn arranges(o: Seq<usize>, n: int) -> bool {
    &&& o.len() == n
    &&& o.no_duplicates()
    &&& forall|x: usize| #[trigger] o.contains(x) <==> (x as int) < n
}

pub proof fn lemma_before_irreflexive(ks: Seq<Seq<char>>, i: int)
    ensures
        !key_before(ks, i, i),
{
    lemma_lex_irreflexive(ks[i]);
}

pub proof fn lemma_before_transitive(ks: Seq<Seq<char>>, i: int, j: int, k: int)
    requires
        key_before(ks, i, j),
        key_before(ks, j, k),
    ensures
        key_before(ks, i, k),
{
    if lex_lt(ks[i], ks[j]) && lex_lt(ks[j], ks[k]) {
        lemma_lex_transitive(ks[i], ks[j], ks[k]);
    }
}

pub proof fn lemma_before_total(ks: Seq<Seq<char>>, i: int, j: int)
    requires
        i != j,
    ensures
        key_before(ks, i, j) || key_before(ks, j, i),
{
    if ks[i] != ks[j] {
        lemma_lex_total(ks[i], ks[j]);
    }
}

/// A strictly ordered list holds no position twice.
pub proof fn lemma_ordered_distinct(ks: Seq<Seq<char>>, o: Seq<usize>)
    requires
        ordered_by(ks, o),
    ensures
        o.no_duplicates(),
{
    assert forall|a: int, b: int| 0 <= a < o.len() && 0 <= b < o.len() && a != b implies o[a]
        != o[b] by {
        if a < b {
            lemma_before_irreflexive(ks, o[a] as int);
        } else {
            lemma_before_irreflexive(ks, o[b] as int);
        }
    }
}

pub proof fn lemma_push_contains(s: Seq<usize>, v: usize, x: usize)
    ensures
        s.push(v).contains(x) <==> (s.contains(x) || x == v),
{
    if s.contains(x) {
        let k = choose|k: int| 0 <= k < s.len() && s[k] == x;
        assert(s.push(v)[k] == x);
    }
    if x == v {
        assert(s.push(v)[s.len() as int] == x);
    }
    if s.push(v).contains(x) && x != v {
        let k = choose|k: int| 0 <= k < s.len() + 1 && s.push(v)[k] == x;
        assert(s[k] == x);
    }
}

/// Whether position `i` comes before position `j`.
fn before(keys: &Vec<Vec<char>>, i: usize, j: usize) -> (r: bool)
    requires
        i < keys.len(),
        j < keys.len(),
    ensures
        r == key_before(key_seqs(keys@), i as int, j as int),
{
    if key_less(&keys[i], &keys[j]) {
        true
    } else if key_less(&keys[j], &keys[i]) {
        false
    } else {
        proof {
            if keys@[i as int]@ != keys@[j as int]@ {
                lemma_lex_total(keys@[i as int]@, keys@[j as int]@);
            }
        }
        i < j
    }
}

/// Merges two disjoint ordered lists into one.
fn merge(keys: &Vec<Vec<char>>, a: Vec<usize>, b: Vec<usize>) -> (r: Vec<usize>)
    requires
        ordered_by(key_seqs(keys@), a@),
        ordered_by(key_seqs(keys@), b@),
        forall|k: int| 0 <= k < a.len() ==> a@[k] < keys.len(),
        forall|k: int| 0 <= k < b.len() ==> b@[k] < keys.len(),
        forall|x: usize| a@.contains(x) ==> !b@.contains(x),
    ensures
        ordered_by(key_seqs(keys@), r@),
        r.len() == a.len() + b.len(),
        forall|x: usize| r@.contains(x) <==> (a@.contains(x) || b@.contains(x)),
{
    let ghost ks = key_seqs(keys@);
    let mut r: Vec<usize> = Vec::new();
    let mut i: usize = 0;
    let mut j: usize = 0;
    while i < a.len() || j < b.len()
        invariant
            ks == key_seqs(keys@),
            ordered_by(ks, a@),
            ordered_by(ks, b@),
            forall|k: int| 0 <= k < a.len() ==> a@[k] < keys.len(),
            forall|k: int| 0 <= k < b.len() ==> b@[k] < keys.len(),
            forall|x: usize| a@.contains(x) ==> !b@.contains(x),
            i <= a.len(),
            j <= b.len(),
            r.len() == i + j,
            ordered_by(ks, r@),
            forall|x: usize|
                r@.contains(x) <==> (a@.subrange(0, i as int).contains(x) || b@.subrange(
                    0,
                    j as int,
                ).contains(x)),
            forall|k: int|
                0 <= k < r.len() && i < a.len() ==> key_before(
                    ks,
                    #[trigger] r@[k] as int,
                    a@[i as int] as int,
                ),
            forall|k: int|
                0 <= k < r.len() && j < b.len() ==> key_before(
                    ks,
                    #[trigger] r@[k] as int,
                    b@[j as int] as int,
                ),
        decreases a.len() + b.len() - i - j,
    {
        let take_a = if i < a.len() && j < b.len() {
            before(keys, a[i], b[j])
        } else {
            i < a.len()
        };
        let ghost old_r = r@;
        if take_a {
            let x = a[i];
            proof {
                if j < b.len() {
                    assert(a@.contains(x));
                    assert(b@.contains(b@[j as int]));
                }
            }
            r.push(x);
            proof {
                assert forall|y: usize|
                    r@.contains(y) <==> (a@.subrange(0, i + 1).contains(y) || b@.subrange(
                        0,
                        j as int,
                    ).contains(y)) by {
                    lemma_push_contains(old_r, x, y);
                    assert(a@.subrange(0, i + 1) =~= a@.subrange(0, i as int).push(x));
                    lemma_push_contains(a@.subrange(0, i as int), x, y);
                }
                assert forall|k: int|
                    0 <= k < r.len() && i + 1 < a.len() implies key_before(
                    ks,
                    #[trigger] r@[k] as int,
                    a@[i + 1] as int,
                ) by {
                    assert(key_before(ks, x as int, a@[i + 1] as int));
                    if k < old_r.len() {
                        lemma_before_transitive(ks, r@[k] as int, x as int, a@[i + 1] as int);
                    }
                }
                assert forall|k: int|
                    0 <= k < r.len() && j < b.len() implies key_before(
                    ks,
                    #[trigger] r@[k] as int,
                    b@[j as int] as int,
                ) by {
                }
            }
            i = i + 1;
        } else {
            let x = b[j];
            proof {
                if i < a.len() {
                    assert(a@.contains(a@[i as int]));
                    assert(b@.contains(x));
                    lemma_before_total(ks, a@[i as int] as int, x as int);
                }
            }
            r.push(x);
            proof {
                assert forall|y: usize|
                    r@.contains(y) <==> (a@.subrange(0, i as int).contains(y) || b@.subrange(
                        0,
                        j + 1,
                    ).contains(y)) by {
                    lemma_push_contains(old_r, x, y);
                    assert(b@.subrange(0, j + 1) =~= b@.subrange(0, j as int).push(x));
                    lemma_push_contains(b@.subrange(0, j as int), x, y);
                }
                assert forall|k: int|
                    0 <= k < r.len() && j + 1 < b.len() implies key_before(
                    ks,
                    #[trigger] r@[k] as int,
                    b@[j + 1] as int,
                ) by {
                    assert(key_before(ks, x as int, b@[j + 1] as int));
                    if k < old_r.len() {
                        lemma_before_transitive(ks, r@[k] as int, x as int, b@[j + 1] as int);
                    }
                }
            }
            j = j + 1;
        }
    }
    assert(a@.subrange(0, a.len() as int) =~= a@);
    assert(b@.subrange(0, b.len() as int) =~= b@);
    r
}

/// Sorts the positions `lo..hi`.
fn sort_range(keys: &Vec<Vec<char>>, lo: usize, hi: usize) -> (r: Vec<usize>)
    requires
        lo <= hi <= keys.len(),
    ensures
        ordered_by(key_seqs(keys@), r@),
        r.len() == hi - lo,
        forall|x: usize| r@.contains(x) <==> lo <= x < hi,
    decreases hi - lo,
{
    if hi - lo == 0 {
        Vec::new()
    } else if hi - lo == 1 {
        let r = vec![lo];
        proof {
            assert forall|x: usize| r@.contains(x) <==> lo <= x < hi by {
                if x == lo {
                    assert(r@[0] == x);
                }
            }
        }
        r
    } else {
        let mid = lo + (hi - lo) / 2;
        let a = sort_range(keys, lo, mid);
        let b = sort_range(keys, mid, hi);
        proof {
            assert forall|k: int| 0 <= k < a.len() implies a@[k] < keys.len() by {
                assert(a@.contains(a@[k]));
            }
            assert forall|k: int| 0 <= k < b.len() implies b@[k] < keys.len() by {
                assert(b@.contains(b@[k]));
            }
        }
        merge(keys, a, b)
    }
}

/// The positions of `keys`, sorted stably by key: strictly increasing in the
/// order (key, position), each position once.
pub fn sort_positions(keys: &Vec<Vec<char>>) -> (r: Vec<usize>)
    ensures
        ordered_by(key_seqs(keys@), r@),
        arranges(r@, keys.len() as int),
{
    let r = sort_range(keys, 0, keys.len());
    proof {
        lemma_ordered_distinct(key_seqs(keys@), r@);
    }
    r
}

} // verus!
