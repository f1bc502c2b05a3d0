//! The full record set listed by name and by code, and the name listing
//! filtered by first letter.
use vstd::prelude::*;
use crate::engine::QueryError;
use crate::sort::{arranges, key_seqs, ordered_by, sort_positions};
use crate::store::{codes_of, folded_names, RecordStore};
use crate::text::{chars_of, folded, lower_of, same_chars, string_of};

verus! {

/// The case-folded first character of a name (empty for an empty name).
pub open spec fn initial_of(name: Seq<char>) -> Seq<char> {
    if name.len() == 0 {
        Seq::empty()
    } else {
        lower_of(seq![name[0]])
    }
}

/// The case-folded first characters of the records' names.
pub open spec fn initials_of(rs: Seq<(Seq<char>, Seq<char>)>) -> Seq<Seq<char>> {
    rs.map_values(|r: (Seq<char>, Seq<char>)| initial_of(r.1))
}

/// Position `p` has the case-folded first character `f`.
pub open spec fn initial_is(is: Seq<Seq<char>>, f: Seq<char>) -> spec_fn(usize) -> bool {
    |p: usize| is[p as int] == f
}

pub struct SortedProjections {
    by_name: Vec<usize>,
    by_code: Vec<usize>,
    initials: Vec<Vec<char>>,
}

/// The case-folded first character of `name`.
fn initial(name: &str) -> (r: Vec<char>)
    ensures
        r@ == initial_of(name@),
{
    let cs = chars_of(name);
    if cs.len() == 0 {
        return Vec::new();
    }
    let mut one: Vec<char> = Vec::new();
    one.push(cs[0]);
    assert(one@ =~= seq![name@[0]]);
    let s = string_of(one.as_slice());
    folded(s.as_str())
}

impl SortedProjections {
    /// Positions sorted stably by case-folded name.
    pub closed spec fn by_name(&self) -> Seq<usize> {
        self.by_name@
    }

    /// Positions sorted stably by code.
    pub closed spec fn by_code(&self) -> Seq<usize> {
        self.by_code@
    }

    /// The case-folded first character of each record's name.
    pub closed spec fn initials(&self) -> Seq<Seq<char>> {
        key_seqs(self.initials@)
    }

    pub fn build(store: &RecordStore) -> (r: SortedProjections)
        ensures
            ordered_by(folded_names(store@), r.by_name()),
            arranges(r.by_name(), store@.len() as int),
            ordered_by(codes_of(store@), r.by_code()),
            arranges(r.by_code(), store@.len() as int),
            r.initials() == initials_of(store@),
    {
        let names = store.name_keys();
        assert(key_seqs(names@).len() == store@.len());
        let by_name = sort_positions(&names);
        let codes = store.code_keys();
        assert(key_seqs(codes@).len() == store@.len());
        let by_code = sort_positions(&codes);
        let mut initials: Vec<Vec<char>> = Vec::new();
        let mut i: usize = 0;
        while i < store.len()
            invariant
                i <= store@.len(),
                key_seqs(initials@) == initials_of(store@).subrange(0, i as int),
            decreases store@.len() - i,
        {
            let ghost old_i = initials@;
            let k = initial(store.get(i).nome.as_str());
            initials.push(k);
            assert(key_seqs(initials@) =~= key_seqs(old_i).push(k@));
            assert(key_seqs(initials@) =~= initials_of(store@).subrange(0, i + 1));
            i = i + 1;
        }
        assert(initials_of(store@).subrange(0, i as int) =~= initials_of(store@));
        SortedProjections { by_name, by_code, initials }
    }

    /// The name listing restricted to the records whose case-folded first
    /// character is the case-folded `letter`; `letter` must be exactly one
    /// character.
    pub fn first_letter_filter(&self, letter: &str) -> (r: Result<Vec<usize>, QueryError>)
        requires
            self.initials().len() == self.by_name().len(),
            forall|x: usize| #[trigger] self.by_name().contains(x) ==> (x as int) < self.by_name().len(),
        ensures
            letter@.len() != 1 <==> r is Err,
            r is Err ==> r == Err::<Vec<usize>, QueryError>(QueryError::InvalidInput),
            r matches Ok(v) ==> v@ == self.by_name().filter(
                initial_is(self.initials(), lower_of(letter@)),
            ),
            r matches Ok(v) ==> forall|k: int|
                0 <= k < v.len() ==> (#[trigger] v@[k] as int) < self.by_name().len(),
    {
        let cs = chars_of(letter);
        if cs.len() != 1 {
            return Err(QueryError::InvalidInput);
        }
        let f = folded(letter);
        let ghost is = self.initials();
        let ghost pred = initial_is(is, f@);
        let n = self.by_name.len();
        let mut r: Vec<usize> = Vec::new();
        let mut t: usize = 0;
        while t < n
            invariant
                is == self.initials(),
                pred == initial_is(is, f@),
                n == self.by_name@.len(),
                is.len() == n,
                forall|x: usize| #[trigger] self.by_name@.contains(x) ==> (x as int) < n,
                t <= n,
                r@ == self.by_name@.subrange(0, t as int).filter(pred),
                forall|k: int| 0 <= k < r.len() ==> (#[trigger] r@[k] as int) < n,
            decreases n - t,
        {
            let p = self.by_name[t];
            proof {
                assert(self.by_name@.contains(p));
                assert(self.by_name@.subrange(0, t + 1) =~= self.by_name@.subrange(
                    0,
                    t as int,
                ).push(p));
                self.by_name@.subrange(0, t as int).lemma_filter_push(p, pred);
            }
            if same_chars(&self.initials[p], &f) {
                r.push(p);
            }
            t = t + 1;
        }
        assert(self.by_name@.subrange(0, n as int) =~= self.by_name@);
        Ok(r)
    }

    /// All positions, sorted by name.
    pub fn sorted_by_name(&self) -> (r: &Vec<usize>)
        ensures
            r@ == self.by_name(),
    {
        &self.by_name
    }

    /// All positions, sorted by code.
    pub fn sorted_by_code(&self) -> (r: &Vec<usize>)
        ensures
            r@ == self.by_code(),
    {
        &self.by_code
    }
}

} // verus!
