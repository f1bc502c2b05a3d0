//! Products, the store that owns them, and the `code;name` record format.
use vstd::prelude::*;
use crate::text::{chars_of, string_of, folded, lower_of};
use crate::sort::key_seqs;

verus! {

/// A catalog entry: a fixed-width numeric code and a free-text name.
#[derive(Debug, Clone, PartialEq, Eq)]
pub struct Produto {
    pub codigo: String,
    pub nome: String,
}

impl View for Produto {
    type V = (Seq<char>, Seq<char>);

    open spec fn view(&self) -> (Seq<char>, Seq<char>) {
        (self.codigo@, self.nome@)
    }
}

impl Produto {
    pub fn new(codigo: &str, nome: &str) -> (r: Produto)
        ensures
            r.codigo@ == codigo@,
            r.nome@ == nome@,
    {
        Produto { codigo: codigo.to_owned(), nome: nome.to_owned() }
    }

    /// A copy with the same code and name.
    pub fn duplicate(&self) -> (r: Produto)
        ensures
            r@ == self@,
    {
        Produto { codigo: self.codigo.clone(), nome: self.nome.clone() }
    }
}

/// The views of a sequence of products.
pub open spec fn product_views(ps: Seq<Produto>) -> Seq<(Seq<char>, Seq<char>)> {
    ps.map_values(|p: Produto| p@)
}

/// The codes of a sequence of records.
pub open spec fn codes_of(rs: Seq<(Seq<char>, Seq<char>)>) -> Seq<Seq<char>> {
    rs.map_values(|r: (Seq<char>, Seq<char>)| r.0)
}

/// The case-folded names of a sequence of records: the keys of name search.
pub open spec fn folded_names(rs: Seq<(Seq<char>, Seq<char>)>) -> Seq<Seq<char>> {
    rs.map_values(|r: (Seq<char>, Seq<char>)| lower_of(r.1))
}

/// The immutable sequence of records loaded at startup, in load order.
pub struct RecordStore {
    records: Vec<Produto>,
}

impl View for RecordStore {
    type V = Seq<(Seq<char>, Seq<char>)>;

    closed spec fn view(&self) -> Seq<(Seq<char>, Seq<char>)> {
        product_views(self.records@)
    }
}

impl RecordStore {
    pub fn new(records: Vec<Produto>) -> (r: RecordStore)
        ensures
            r@ == product_views(records@),
    {
        RecordStore { records }
    }

    pub fn len(&self) -> (r: usize)
        ensures
            r == self@.len(),
    {
        self.records.len()
    }

    pub fn is_empty(&self) -> (r: bool)
        ensures
            r == (self@.len() == 0),
    {
        self.records.len() == 0
    }

    /// The codes of the records, as characters, in load order.
    pub fn code_keys(&self) -> (r: Vec<Vec<char>>)
        ensures
            key_seqs(r@) == codes_of(self@),
    {
        let mut r: Vec<Vec<char>> = Vec::new();
        let mut i: usize = 0;
        while i < self.records.len()
            invariant
                i <= self.records.len(),
                key_seqs(r@) == codes_of(self@).subrange(0, i as int),
            decreases self.records.len() - i,
        {
            let ghost old_r = r@;
            let key = chars_of(self.records[i].codigo.as_str());
            r.push(key);
            assert(self@[i as int] == self.records@[i as int]@);
            assert(key_seqs(r@) =~= key_seqs(old_r).push(key@));
            assert(key_seqs(r@) =~= codes_of(self@).subrange(0, i + 1));
            i = i + 1;
        }
        assert(codes_of(self@).subrange(0, i as int) =~= codes_of(self@));
        r
    }

    /// The case-folded names of the records, as characters, in load order.
    pub fn name_keys(&self) -> (r: Vec<Vec<char>>)
        ensures
            key_seqs(r@) == folded_names(self@),
    {
        let mut r: Vec<Vec<char>> = Vec::new();
        let mut i: usize = 0;
        while i < self.records.len()
            invariant
                i <= self.records.len(),
                key_seqs(r@) == folded_names(self@).subrange(0, i as int),
            decreases self.records.len() - i,
        {
            let ghost old_r = r@;
            let key = folded(self.records[i].nome.as_str());
            r.push(key);
            assert(self@[i as int] == self.records@[i as int]@);
            assert(key_seqs(r@) =~= key_seqs(old_r).push(key@));
            assert(key_seqs(r@) =~= folded_names(self@).subrange(0, i + 1));
            i = i + 1;
        }
        assert(folded_names(self@).subrange(0, i as int) =~= folded_names(self@));
        r
    }

    pub fn get(&self, i: usize) -> (r: &Produto)
        requires
            i < self@.len(),
        ensures
            r@ == self@[i as int],
    {
        &self.records[i]
    }
}

/// Unicode white space, as `char::is_whitespace` defines it.
pub open spec fn is_space(c: char) -> bool {
    ('\t' <= c && c <= '\r') || c == ' ' || c == '\u{85}' || c == '\u{a0}' || c == '\u{1680}'
        || ('\u{2000}' <= c && c <= '\u{200a}') || c == '\u{2028}' || c == '\u{2029}' || c
        == '\u{202f}' || c == '\u{205f}' || c == '\u{3000}'
}

pub fn is_space_char(c: char) -> (r: bool)
    ensures
        r == is_space(c),
{
    ('\t' <= c && c <= '\r') || c == ' ' || c == '\u{85}' || c == '\u{a0}' || c == '\u{1680}'
        || ('\u{2000}' <= c && c <= '\u{200a}') || c == '\u{2028}' || c == '\u{2029}' || c
        == '\u{202f}' || c == '\u{205f}' || c == '\u{3000}'
}

/// The number of white-space characters that `s` begins with.
pub open spec fn leading_space(s: Seq<char>) -> int
    decreases s.len(),
{
    if s.len() == 0 {
        0
    } else if is_space(s[0]) {
        1 + leading_space(s.drop_first())
    } else {
        0
    }
}

/// The number of white-space characters that `s` ends with.
pub open spec fn trailing_space(s: Seq<char>) -> int
    decreases s.len(),
{
    if s.len() == 0 {
        0
    } else if is_space(s.last()) {
        1 + trailing_space(s.drop_last())
    } else {
        0
    }
}

/// `s` without leading and trailing white space.
pub open spec fn trimmed(s: Seq<char>) -> Seq<char> {
    if leading_space(s) >= s.len() {
        Seq::empty()
    } else {
        s.subrange(leading_space(s), s.len() - trailing_space(s))
    }
}

/// The index of the first `c` in `s`, or the length of `s` when there is none.
pub open spec fn index_of(s: Seq<char>, c: char) -> int
    decreases s.len(),
{
    if s.len() == 0 {
        0
    } else if s[0] == c {
        0
    } else {
        1 + index_of(s.drop_first(), c)
    }
}

/// The record that a line describes: split at its first semicolon, both parts
/// trimmed and non-empty.
pub open spec fn record_of_line(s: Seq<char>) -> Option<(Seq<char>, Seq<char>)> {
    let k = index_of(s, ';');
    if k >= s.len() {
        None
    } else {
        let code = trimmed(s.subrange(0, k));
        let name = trimmed(s.subrange(k + 1, s.len() as int));
        if code.len() == 0 || name.len() == 0 {
            None
        } else {
            Some((code, name))
        }
    }
}

/// The records that a sequence of lines describes, skipping malformed lines.
pub open spec fn records_of_lines(lines: Seq<Seq<char>>) -> Seq<(Seq<char>, Seq<char>)>
    decreases lines.len(),
{
    if lines.len() == 0 {
        Seq::empty()
    } else {
        match record_of_line(lines.last()) {
            Some(r) => records_of_lines(lines.drop_last()).push(r),
            None => records_of_lines(lines.drop_last()),
        }
    }
}

/// `cs[lo..hi]` without leading and trailing white space, as a range.
fn trim_range(cs: &Vec<char>, lo: usize, hi: usize) -> (r: (usize, usize))
    requires
        lo <= hi <= cs.len(),
    ensures
        r.0 <= r.1 <= cs.len(),
        cs@.subrange(r.0 as int, r.1 as int) == trimmed(cs@.subrange(lo as int, hi as int)),
{
    let ghost s = cs@.subrange(lo as int, hi as int);
    let mut i: usize = lo;
    assert(s.skip(0) =~= s);
    while i < hi && is_space_char(cs[i])
        invariant
            lo <= i <= hi <= cs.len(),
            s == cs@.subrange(lo as int, hi as int),
            leading_space(s) == (i - lo) + leading_space(s.skip(i - lo)),
        decreases hi - i,
    {
        assert(s.skip(i - lo).drop_first() =~= s.skip(i - lo + 1));
        i = i + 1;
    }
    if i == hi {
        assert(s.skip(i - lo).len() == 0);
        return (i, i);
    }
    assert(s.skip(i - lo)[0] == cs@[i as int]);
    let mut j: usize = hi;
    assert(s.take(s.len() as int) =~= s);
    while j > i + 1 && is_space_char(cs[j - 1])
        invariant
            lo <= i < j <= hi <= cs.len(),
            !is_space(cs@[i as int]),
            s == cs@.subrange(lo as int, hi as int),
            leading_space(s) == i - lo,
            trailing_space(s) == (hi - j) + trailing_space(s.take(j - lo)),
        decreases j,
    {
        assert(s.take(j - lo).drop_last() =~= s.take(j - 1 - lo));
        j = j - 1;
    }
    if j > i + 1 {
        assert(!is_space(s.take(j - lo).last()));
    } else {
        assert(!is_space(s.take(j - lo).last()));
    }
    assert(cs@.subrange(i as int, j as int) =~= s.subrange(i - lo, s.len() - trailing_space(s)));
    (i, j)
}

/// Parses one `code;name` line; `None` for a malformed line.
pub fn parse_line(line: &str) -> (r: Option<Produto>)
    ensures
        match r {
            Some(p) => record_of_line(line@) == Some(p@),
            None => record_of_line(line@) is None,
        },
{
    let cs = chars_of(line);
    let ghost s = cs@;
    let mut k: usize = 0;
    assert(s.skip(0) =~= s);
    while k < cs.len() && cs[k] != ';'
        invariant
            k <= cs.len(),
            s == cs@,
            index_of(s, ';') == k + index_of(s.skip(k as int), ';'),
        decreases cs.len() - k,
    {
        assert(s.skip(k as int).drop_first() =~= s.skip(k + 1));
        k = k + 1;
    }
    if k == cs.len() {
        return None;
    }
    assert(s.skip(k as int)[0] == ';');
    let (a, b) = trim_range(&cs, 0, k);
    let (c, d) = trim_range(&cs, k + 1, cs.len());
    if a == b || c == d {
        return None;
    }
    let code = string_of(slice_of(&cs, a, b).as_slice());
    let name = string_of(slice_of(&cs, c, d).as_slice());
    Some(Produto { codigo: code, nome: name })
}

/// The characters `cs[lo..hi]`.
fn slice_of(cs: &Vec<char>, lo: usize, hi: usize) -> (r: Vec<char>)
    requires
        lo <= hi <= cs.len(),
    ensures
        r@ == cs@.subrange(lo as int, hi as int),
{
    let mut r: Vec<char> = Vec::new();
    let mut i: usize = lo;
    while i < hi
        invariant
            lo <= i <= hi <= cs.len(),
            r@ == cs@.subrange(lo as int, i as int),
        decreases hi - i,
    {
        r.push(cs[i]);
        assert(cs@.subrange(lo as int, i + 1) =~= cs@.subrange(lo as int, i as int).push(
            cs@[i as int],
        ));
        i = i + 1;
    }
    r
}

/// The records that `lines` describe, in order; malformed lines are skipped.
pub fn load_records(lines: &Vec<String>) -> (r: Vec<Produto>)
    ensures
        product_views(r@) == records_of_lines(lines@.map_values(|l: String| l@)),
{
    let ghost ls = lines@.map_values(|l: String| l@);
    let mut r: Vec<Produto> = Vec::new();
    let mut i: usize = 0;
    while i < lines.len()
        invariant
            i <= lines.len(),
            ls == lines@.map_values(|l: String| l@),
            product_views(r@) == records_of_lines(ls.subrange(0, i as int)),
        decreases lines.len() - i,
    {
        assert(ls.subrange(0, i + 1).drop_last() =~= ls.subrange(0, i as int));
        assert(ls.subrange(0, i + 1).last() == lines@[i as int]@);
        let ghost old_r = r@;
        match parse_line(lines[i].as_str()) {
            Some(p) => {
                r.push(p);
                assert(product_views(r@) =~= product_views(old_r).push(p@));
            },
            None => {},
        }
        i = i + 1;
    }
    assert(ls.subrange(0, lines.len() as int) =~= ls);
    r
}

} // verus!
