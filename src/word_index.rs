//! Word search: every case-folded name is split on white space into words,
//! and each occurrence of a word is an entry that points back to its record.
//! Entries are ordered by word, so a word, or all words with a prefix, form
//! one block found by bisection.
use vstd::prelude::*;
use crate::search::{in_bounds, key_at, lemma_filter_block, prefix_block};
use crate::sort::{arranges, key_seqs, lemma_push_contains, ordered_by, sort_positions};
use crate::store::{folded_names, is_space, is_space_char, RecordStore};
use crate::text::{folded, lower_of, same_chars, starts_with};

verus! {

/// The words of `s`: its maximal runs of characters that are not white space.
pub open spec fn split_words(s: Seq<char>) -> Seq<Seq<char>>
    decreases s.len(),
{
    if s.len() == 0 {
        Seq::empty()
    } else {
        let init = s.drop_last();
        let c = s.last();
        if is_space(c) {
            split_words(init)
        } else if init.len() == 0 || is_space(init.last()) {
            split_words(init).push(seq![c])
        } else {
            let w = split_words(init);
            w.update(w.len() - 1, w.last().push(c))
        }
    }
}

/// The words of all names, name after name, each occurrence once.
pub open spec fn all_words(ns: Seq<Seq<char>>) -> Seq<Seq<char>>
    decreases ns.len(),
{
    if ns.len() == 0 {
        Seq::empty()
    } else {
        all_words(ns.drop_last()) + split_words(ns.last())
    }
}

/// For each entry of `all_words(ns)`, the position of the name it came from.
pub open spec fn all_owners(ns: Seq<Seq<char>>) -> Seq<usize>
    decreases ns.len(),
{
    if ns.len() == 0 {
        Seq::empty()
    } else {
        all_owners(ns.drop_last()) + Seq::new(
            split_words(ns.last()).len(),
            |_i: int| (ns.len() - 1) as usize,
        )
    }
}

/// Entry `e` holds exactly the word `f`.
pub open spec fn word_is(ws: Seq<Seq<char>>, f: Seq<char>) -> spec_fn(usize) -> bool {
    |e: usize| ws[e as int] == f
}

/// Entry `e` holds a word that starts with `f`.
pub open spec fn word_starts(ws: Seq<Seq<char>>, f: Seq<char>) -> spec_fn(usize) -> bool {
    |e: usize| starts_with(ws[e as int], f)
}

/// `s` with every repeated value after its first occurrence removed.
pub open spec fn dedup(s: Seq<usize>) -> Seq<usize>
    decreases s.len(),
{
    if s.len() == 0 {
        s
    } else {
        let d = dedup(s.drop_last());
        if d.contains(s.last()) {
            d
        } else {
            d.push(s.last())
        }
    }
}

/// Appends the words of `s` to `tokens`, and `owner` once for each of them to
/// `owners`.
fn push_words(s: &Vec<char>, owner: usize, tokens: &mut Vec<Vec<char>>, owners: &mut Vec<usize>)
    ensures
        key_seqs(final(tokens)@) == key_seqs(old(tokens)@) + split_words(s@),
        final(owners)@ == old(owners)@ + Seq::new(split_words(s@).len(), |_i: int| owner),
{
    let ghost t0 = key_seqs(tokens@);
    let ghost o0 = owners@;
    let mut cur: Vec<char> = Vec::new();
    let mut i: usize = 0;
    while i < s.len()
        invariant
            i <= s.len(),
            ({
                let w = split_words(s@.subrange(0, i as int));
                &&& cur@.len() == 0 ==> key_seqs(tokens@) == t0 + w
                &&& cur@.len() > 0 ==> w.len() > 0 && w.last() == cur@ && key_seqs(tokens@)
                    == t0 + w.drop_last()
            }),
            cur@.len() == 0 ==> (i == 0 || is_space(s@[i - 1])),
            cur@.len() > 0 ==> i > 0 && !is_space(s@[i - 1]),
            tokens@.len() >= t0.len(),
            owners@ == o0 + Seq::new((tokens@.len() - t0.len()) as nat, |_i: int| owner),
        decreases s.len() - i,
    {
        let c = s[i];
        let ghost w = split_words(s@.subrange(0, i as int));
        assert(s@.subrange(0, i + 1).drop_last() =~= s@.subrange(0, i as int));
        assert(s@.subrange(0, i + 1).last() == c);
        let ghost tk = tokens@;
        if is_space_char(c) {
            if cur.len() > 0 {
                let ghost cv = cur@;
                tokens.push(cur);
                owners.push(owner);
                cur = Vec::new();
                assert(key_seqs(tokens@) =~= key_seqs(tk).push(cv));
                assert(w.drop_last().push(cv) =~= w);
                assert(owners@ =~= o0 + Seq::new((tokens@.len() - t0.len()) as nat, |_i: int| owner));
            }
        } else {
            if cur.len() > 0 {
                assert(s@.subrange(0, i as int).last() == s@[i - 1]);
            }
            cur.push(c);
        }
        i = i + 1;
    }
    assert(s@.subrange(0, s.len() as int) =~= s@);
    if cur.len() > 0 {
        let ghost cv = cur@;
        let ghost tk = tokens@;
        tokens.push(cur);
        owners.push(owner);
        assert(key_seqs(tokens@) =~= key_seqs(tk).push(cv));
        assert(split_words(s@).drop_last().push(cv) =~= split_words(s@));
    }
    assert(owners@ =~= o0 + Seq::new(split_words(s@).len(), |_i: int| owner));
}

pub struct InvertedWordIndex {
    tokens: Vec<Vec<char>>,
    owners: Vec<usize>,
    order: Vec<usize>,
    records: usize,
}

impl InvertedWordIndex {
    /// The word of each entry, in the order the entries were made.
    pub closed spec fn words(&self) -> Seq<Seq<char>> {
        key_seqs(self.tokens@)
    }

    /// The record position of each entry.
    pub closed spec fn owners(&self) -> Seq<usize> {
        self.owners@
    }

    /// The entries in vocabulary order: by word, then in the order made.
    pub closed spec fn ranking(&self) -> Seq<usize> {
        self.order@
    }

    /// The number of records indexed.
    pub closed spec fn record_count(&self) -> nat {
        self.records as nat
    }

    pub closed spec fn wf(&self) -> bool {
        &&& ordered_by(self.words(), self.order@)
        &&& arranges(self.order@, self.tokens.len() as int)
        &&& self.owners@.len() == self.tokens@.len()
        &&& forall|k: int| 0 <= k < self.owners@.len() ==> self.owners@[k] < self.records
    }

}

/// Builds the word index of a store: every word of every case-folded name,
/// with the position of its record.
pub fn construir_indice_invertido(store: &RecordStore) -> (r: InvertedWordIndex)
    ensures
        r.wf(),
        r.words() == all_words(folded_names(store@)),
        r.owners() == all_owners(folded_names(store@)),
        r.record_count() == store@.len(),
        ordered_by(r.words(), r.ranking()),
{
    let names = store.name_keys();
    let ghost ns = key_seqs(names@);
    assert(ns.len() == store@.len());
    let mut tokens: Vec<Vec<char>> = Vec::new();
    let mut owners: Vec<usize> = Vec::new();
    let mut i: usize = 0;
    while i < names.len()
        invariant
            i <= names.len(),
            ns == key_seqs(names@),
            key_seqs(tokens@) == all_words(ns.subrange(0, i as int)),
            owners@ == all_owners(ns.subrange(0, i as int)),
            forall|k: int| 0 <= k < owners@.len() ==> owners@[k] < i,
            owners@.len() == tokens@.len(),
        decreases names.len() - i,
    {
        let ghost o0 = owners@;
        push_words(&names[i], i, &mut tokens, &mut owners);
        assert(key_seqs(tokens@).len() == tokens@.len());
        let ghost sub = ns.subrange(0, i + 1);
        assert(sub.drop_last() =~= ns.subrange(0, i as int));
        assert(sub.last() == names@[i as int]@);
        assert(owners@ =~= all_owners(sub));
        assert forall|k: int| 0 <= k < owners@.len() implies owners@[k] < i + 1 by {
            if k >= o0.len() {
                assert(owners@[k] == i);
            }
        }
        i = i + 1;
    }
    assert(ns.subrange(0, i as int) =~= ns);
    let order = sort_positions(&tokens);
    InvertedWordIndex { tokens, owners, order, records: names.len() }
}

impl InvertedWordIndex {
    /// The record of every entry whose word is exactly the folded `term`, in
    /// the order the entries were made.
    pub fn exact_word_query(&self, term: &str) -> (r: Vec<usize>)
        requires
            self.wf(),
        ensures
            r@ == self.ranking().filter(word_is(self.words(), lower_of(term@))).map_values(
                |e: usize| self.owners()[e as int],
            ),
            forall|k: int| 0 <= k < r.len() ==> #[trigger] r@[k] < self.record_count(),
    {
        let ghost ws = self.words();
        let f = folded(term);
        let ghost pred = word_is(ws, f@);
        let ghost own = |e: usize| self.owners@[e as int];
        let n = self.order.len();
        proof {
            assert forall|k: int| 0 <= k < n implies (#[trigger] self.order@[k] as int) < ws.len() by {
                assert(self.order@.contains(self.order@[k]));
            }
        }
        let (lo, hi) = prefix_block(&self.tokens, &self.order, &f);
        let mut r: Vec<usize> = Vec::new();
        let mut t: usize = lo;
        while t < hi
            invariant
                self.wf(),
                ws == self.words(),
                pred == word_is(ws, f@),
                own == (|e: usize| self.owners@[e as int]),
                n == self.order.len(),
                n == ws.len(),
                in_bounds(self.order@, ws.len() as int),
                lo <= t <= hi <= n,
                r@ == self.order@.subrange(lo as int, t as int).filter(pred).map_values(own),
                forall|k: int| 0 <= k < r.len() ==> #[trigger] r@[k] < self.records,
            decreases hi - t,
        {
            let e = self.order[t];
            let ghost m = self.order@.subrange(lo as int, t as int).filter(pred);
            proof {
                assert(self.order@.subrange(lo as int, t + 1) =~= self.order@.subrange(
                    lo as int,
                    t as int,
                ).push(e));
                self.order@.subrange(lo as int, t as int).lemma_filter_push(e, pred);
            }
            if same_chars(&self.tokens[e], &f) {
                r.push(self.owners[e]);
                assert(m.push(e).map_values(own) =~= m.map_values(own).push(own(e)));
            }
            t = t + 1;
        }
        proof {
            assert forall|u: int| 0 <= u < n && !(lo <= u < hi) implies !pred(
                #[trigger] self.order@[u],
            ) by {
                if pred(self.order@[u]) {
                    assert(key_at(ws, self.order@, u) == f@);
                    assert(f@.subrange(0, f@.len() as int) =~= f@);
                }
            }
            lemma_filter_block(self.order@, lo as int, hi as int, pred);
        }
        r
    }

    /// The records of all entries whose word starts with the folded `term`,
    /// in vocabulary order, each record once (at its first entry).
    pub fn prefix_word_query(&self, term: &str) -> (r: Vec<usize>)
        requires
            self.wf(),
        ensures
            r@ == dedup(
                self.ranking().filter(word_starts(self.words(), lower_of(term@))).map_values(
                    |e: usize| self.owners()[e as int],
                ),
            ),
            forall|k: int| 0 <= k < r.len() ==> #[trigger] r@[k] < self.record_count(),
    {
        let ghost ws = self.words();
        let f = folded(term);
        let ghost pred = word_starts(ws, f@);
        let ghost own = |e: usize| self.owners@[e as int];
        let n = self.order.len();
        proof {
            assert forall|k: int| 0 <= k < n implies (#[trigger] self.order@[k] as int) < ws.len() by {
                assert(self.order@.contains(self.order@[k]));
            }
        }
        let (lo, hi) = prefix_block(&self.tokens, &self.order, &f);
        let mut seen: Vec<bool> = Vec::new();
        while seen.len() < self.records
            invariant
                seen.len() <= self.records,
                forall|x: int| 0 <= x < seen.len() ==> !seen@[x],
            decreases self.records - seen.len(),
        {
            seen.push(false);
        }
        let mut r: Vec<usize> = Vec::new();
        let mut t: usize = lo;
        while t < hi
            invariant
                self.wf(),
                ws == self.words(),
                pred == word_starts(ws, f@),
                own == (|e: usize| self.owners@[e as int]),
                n == self.order.len(),
                n == ws.len(),
                in_bounds(self.order@, ws.len() as int),
                lo <= t <= hi <= n,
                forall|u: int|
                    0 <= u < n ==> ((lo <= u < hi) <==> starts_with(
                        #[trigger] key_at(ws, self.order@, u),
                        f@,
                    )),
                seen.len() == self.records,
                forall|x: usize| x < self.records ==> (seen@[x as int] <==> r@.contains(x)),
                r@ == dedup(self.order@.subrange(lo as int, t as int).filter(pred).map_values(own)),
                forall|k: int| 0 <= k < r.len() ==> #[trigger] r@[k] < self.records,
            decreases hi - t,
        {
            let e = self.order[t];
            let o = self.owners[e];
            let ghost m = self.order@.subrange(lo as int, t as int).filter(pred).map_values(own);
            proof {
                assert(self.order@.subrange(lo as int, t + 1) =~= self.order@.subrange(
                    lo as int,
                    t as int,
                ).push(e));
                self.order@.subrange(lo as int, t as int).lemma_filter_push(e, pred);
                assert(starts_with(key_at(ws, self.order@, t as int), f@));
                assert(self.order@.subrange(lo as int, t as int).filter(pred).push(e).map_values(own)
                    =~= m.push(o));
                assert(m.push(o).drop_last() =~= m);
            }
            if !seen[o] {
                let ghost r0 = r@;
                r.push(o);
                seen[o] = true;
                proof {
                    assert forall|x: usize| x < self.records implies (seen@[x as int] <==> r@.contains(x)) by {
                        lemma_push_contains(r0, o, x);
                    }
                }
            }
            t = t + 1;
        }
        proof {
            assert forall|u: int| 0 <= u < n && !(lo <= u < hi) implies !pred(
                #[trigger] self.order@[u],
            ) by {
                assert(!starts_with(key_at(ws, self.order@, u), f@));
            }
            lemma_filter_block(self.order@, lo as int, hi as int, pred);
        }
        r
    }
}

} // verus!
