//! The seed almanac: maps from source numbers to destination numbers, given
//! as lines of `destination source length`, applied to single numbers and to
//! whole ranges of numbers, and chained from seeds to locations.
use vstd::prelude::*;
use crate::sort::{lemma_sort_by_key, sort_by_key, stable_sort};
use crate::text::{
    lines, lines_spec, parse_i64, parse_i64_spec, split, split_spec, string_of, to_chars, trim,
    trim_spec, views,
};

verus! {

/// An inclusive range of numbers, from `.0` to `.1`; empty where `.1 < .0`.
#[derive(Debug, PartialEq, Eq, Clone, Copy, Structural)]
pub struct Range(pub i64, pub i64);

impl Range {
    /// Whether `i` lies in the range.
    pub open spec fn has(self, i: int) -> bool {
        self.0 <= i <= self.1
    }

    /// Whether `i` lies in the range.
    pub fn includes(&self, i: i64) -> (res: bool)
        ensures
            res == self.has(i as int),
    {
        i >= self.0 && i <= self.1
    }

    /// Whether both ends of `range` lie in this range.
    pub fn includes_range(&self, range: &Self) -> (res: bool)
        ensures
            res == (self.has(range.0 as int) && self.has(range.1 as int)),
    {
        self.includes(range.0) && self.includes(range.1)
    }

    /// The range moved by `offset`.
    pub fn offset(&self, offset: i64) -> (res: Self)
        requires
            i64::MIN <= self.0 + offset <= i64::MAX,
            i64::MIN <= self.1 + offset <= i64::MAX,
        ensures
            res.0 == self.0 + offset,
            res.1 == self.1 + offset,
    {
        Range(self.0 + offset, self.1 + offset)
    }

    /// Whether one of the ends of `other` lies in this range.
    pub fn intersect(&self, other: &Self) -> (res: bool)
        ensures
            res == (self.has(other.0 as int) || self.has(other.1 as int)),
    {
        self.includes(other.0) || self.includes(other.1)
    }

    /// Widens the range to take in the ends of `other`.
    pub fn expand(&mut self, other: &Self)
        ensures
            final(self).0 == if other.0 < old(self).0 { other.0 } else { old(self).0 },
            final(self).1 == if other.1 > old(self).1 { other.1 } else { old(self).1 },
    {
        if other.0 < self.0 {
            self.0 = other.0;
        }
        if other.1 > self.1 {
            self.1 = other.1;
        }
    }
}

/// The text of an almanac line that could not be read.
#[derive(Debug, PartialEq)]
pub struct ParseAlmanacEntryError(pub String);

/// One line of an almanac map: the numbers of `src` go to themselves plus
/// `offset`.
#[derive(Debug, PartialEq, Eq, Clone, Copy, Structural)]
pub struct AlmanacEntry {
    pub src: Range,
    pub offset: i64,
}

/// The numbers of an entry line: its pieces between single spaces, each
/// trimmed and read as an `i64`; `None` where a piece is no number.
pub open spec fn line_numbers(s: Seq<char>) -> Option<Seq<i64>> {
    let parts = split_spec(s, ' ');
    if forall|i: int| 0 <= i < parts.len() ==> (#[trigger] parse_i64_spec(trim_spec(parts[i]))) is Some {
        Some(Seq::new(parts.len(), |i: int| parse_i64_spec(trim_spec(parts[i]))->0))
    } else {
        None
    }
}

/// Whether the sums that an entry `destination source length` needs stay
/// within `i64`: the end `source + length - 1` and the offset
/// `destination - source`.
pub open spec fn entry_sums_fit(dst: i64, src: i64, len: i64) -> bool {
    &&& i64::MIN <= src + len <= i64::MAX
    &&& i64::MIN <= src + len - 1
    &&& i64::MIN <= dst - src <= i64::MAX
}

/// The entry `destination source length`.
pub open spec fn entry_of(dst: i64, src: i64, len: i64) -> AlmanacEntry {
    AlmanacEntry { src: Range(src, (src + len - 1) as i64), offset: (dst - src) as i64 }
}

/// What reading an entry line gives: `Some(Some(e))` for an entry,
/// `Some(None)` where the line holds a piece that is no number or fewer than
/// three numbers (numbers past the third are not read), and `None` where the
/// sums of the entry leave `i64`.
pub open spec fn read_entry(s: Seq<char>) -> Option<Option<AlmanacEntry>> {
    match line_numbers(s) {
        Some(n) => if n.len() >= 3 {
            if entry_sums_fit(n[0], n[1], n[2]) {
                Some(Some(entry_of(n[0], n[1], n[2])))
            } else {
                None
            }
        } else {
            Some(None)
        },
        None => Some(None),
    }
}

/// The numbers of an entry line.
fn numbers_of(line: &Vec<char>) -> (res: Option<Vec<i64>>)
    ensures
        match res {
            Some(v) => line_numbers(line@) == Some(v@),
            None => line_numbers(line@) is None,
        },
{
    let parts = split(line, ' ');
    let ghost sp = split_spec(line@, ' ');
    let mut nums: Vec<i64> = Vec::new();
    let mut i: usize = 0;
    while i < parts.len()
        invariant
            i <= parts.len(),
            views(parts@) == sp,
            sp == split_spec(line@, ' '),
            nums@.len() == i,
            forall|k: int| 0 <= k < i ==> parse_i64_spec(trim_spec(sp[k])) == Some(#[trigger] nums@[k]),
        decreases parts.len() - i,
    {
        assert(parts@[i as int]@ == sp[i as int]);
        let t = trim(&parts[i]);
        match parse_i64(&t) {
            Some(x) => {
                nums.push(x);
            },
            None => {
                assert(parse_i64_spec(trim_spec(sp[i as int])) is None);
                return None;
            },
        }
        i = i + 1;
    }
    assert(forall|k: int| 0 <= k < sp.len() ==> (#[trigger] parse_i64_spec(trim_spec(sp[k]))) is Some) by {
        assert forall|k: int| 0 <= k < sp.len() implies (#[trigger] parse_i64_spec(trim_spec(sp[k]))) is Some by {
            assert(parse_i64_spec(trim_spec(sp[k])) == Some(nums@[k]));
        }
    }
    assert(nums@ == Seq::new(sp.len(), |k: int| parse_i64_spec(trim_spec(sp[k]))->0));
    Some(nums)
}

/// Reads an entry line; `None` where its sums leave `i64`.
fn read_entry_chars(line: &Vec<char>) -> (res: Option<Option<AlmanacEntry>>)
    ensures
        res == read_entry(line@),
{
    match numbers_of(line) {
        Some(nums) => {
            if nums.len() < 3 {
                return Some(None);
            }
            let dst = nums[0];
            let src = nums[1];
            let len = nums[2];
            let end = match src.checked_add(len) {
                Some(e) => e,
                None => return None,
            };
            let last = match end.checked_sub(1) {
                Some(l) => l,
                None => return None,
            };
            let offset = match dst.checked_sub(src) {
                Some(o) => o,
                None => return None,
            };
            Some(Some(AlmanacEntry { src: Range(src, last), offset }))
        },
        None => Some(None),
    }
}

impl AlmanacEntry {
    /// Reads the entry line `destination source length`.
    pub fn from_str(s: &str) -> (res: Result<AlmanacEntry, ParseAlmanacEntryError>)
        requires
            read_entry(s@) is Some,
        ensures
            match res {
                Ok(e) => read_entry(s@) == Some(Some(e)),
                Err(err) => read_entry(s@) == Some(None::<AlmanacEntry>) && err.0@ == s@,
            },
    {
        let chars = to_chars(s);
        match read_entry_chars(&chars) {
            Some(Some(e)) => Ok(e),
            _ => Err(ParseAlmanacEntryError(s.to_owned())),
        }
    }
}


/// The lines of a map text that hold entries: each line trimmed, the empty
/// ones left out.
pub open spec fn entry_lines(ls: Seq<Seq<char>>) -> Seq<Seq<char>>
    decreases ls.len(),
{
    if ls.len() == 0 {
        Seq::empty()
    } else {
        let t = trim_spec(ls.last());
        let prev = entry_lines(ls.drop_last());
        if t.len() == 0 {
            prev
        } else {
            prev.push(t)
        }
    }
}

/// What reading entry lines in order gives: the entries, or the first line
/// that is no entry; `None` where an entry read before that line has sums
/// that leave `i64`.
pub open spec fn read_entries(ls: Seq<Seq<char>>) -> Option<Result<Seq<AlmanacEntry>, Seq<char>>>
    decreases ls.len(),
{
    if ls.len() == 0 {
        Some(Ok(Seq::empty()))
    } else {
        match read_entries(ls.drop_last()) {
            Some(Ok(es)) => match read_entry(ls.last()) {
                Some(Some(e)) => Some(Ok(es.push(e))),
                Some(None) => Some(Err(ls.last())),
                None => None,
            },
            other => other,
        }
    }
}

/// Entries keyed by the start of their source range.
pub open spec fn keyed_entries(es: Seq<AlmanacEntry>) -> Seq<(i64, AlmanacEntry)> {
    es.map_values(|e: AlmanacEntry| (e.src.0, e))
}

/// Entries stably sorted by the start of their source range.
pub open spec fn sort_entries(es: Seq<AlmanacEntry>) -> Seq<AlmanacEntry> {
    sort_by_key(keyed_entries(es)).map_values(|p: (i64, AlmanacEntry)| p.1)
}

/// What reading a map text gives: its entries sorted by source start, or the
/// first line that is no entry; `None` where an entry's sums leave `i64`.
pub open spec fn read_map(text: Seq<char>) -> Option<Result<Seq<AlmanacEntry>, Seq<char>>> {
    match read_entries(entry_lines(lines_spec(text))) {
        Some(Ok(es)) => Some(Ok(sort_entries(es))),
        other => other,
    }
}

/// Whether the source ranges of `es` start in order.
pub open spec fn entries_sorted(es: Seq<AlmanacEntry>) -> bool {
    forall|i: int, j: int| 0 <= i <= j < es.len() ==> es[i].src.0 <= es[j].src.0
}

/// Where `p` goes under the entries `es`: the first entry whose source range
/// holds `p` moves it by its offset; where none does, `p` stays.
pub open spec fn map_point(es: Seq<AlmanacEntry>, p: int) -> int
    decreases es.len(),
{
    if es.len() == 0 {
        p
    } else if es[0].src.has(p) {
        p + es[0].offset
    } else {
        map_point(es.drop_first(), p)
    }
}

/// A map from source numbers to destination numbers.
pub struct AlmanacMap {
    pub ranges: Vec<AlmanacEntry>,
}

/// Sorting entries by source start sorts them.
pub proof fn lemma_sort_entries(es: Seq<AlmanacEntry>)
    ensures
        entries_sorted(sort_entries(es)),
        sort_entries(es).len() == es.len(),
{
    broadcast use vstd::seq_lib::group_to_multiset_ensures;
    lemma_sort_by_key(keyed_entries(es));
    let s = sort_by_key(keyed_entries(es));
    assert forall|k: int| 0 <= k < s.len() implies #[trigger] s[k].0 == s[k].1.src.0 by {
        assert(s.to_multiset().count(s[k]) > 0);
        assert(keyed_entries(es).to_multiset().count(s[k]) > 0);
        assert(keyed_entries(es).contains(s[k]));
    }
}

/// Reads the entry lines of `text`, in order.
fn read_entry_list(text: &Vec<char>) -> (res: Option<Result<Vec<AlmanacEntry>, Vec<char>>>)
    ensures
        match res {
            Some(Ok(v)) => read_entries(entry_lines(lines_spec(text@))) == Some(Ok::<Seq<AlmanacEntry>, Seq<char>>(v@)),
            Some(Err(l)) => read_entries(entry_lines(lines_spec(text@))) == Some(Err::<Seq<AlmanacEntry>, Seq<char>>(l@)),
            None => read_entries(entry_lines(lines_spec(text@))) is None,
        },
{
    let ls = lines(text);
    let ghost lsv = lines_spec(text@);
    let mut es: Vec<AlmanacEntry> = Vec::new();
    let mut i: usize = 0;
    while i < ls.len()
        invariant
            i <= ls.len(),
            views(ls@) == lsv,
            lsv == lines_spec(text@),
            read_entries(entry_lines(lsv.take(i as int))) == Some(Ok::<Seq<AlmanacEntry>, Seq<char>>(es@)),
        decreases ls.len() - i,
    {
        assert(lsv.take(i + 1).drop_last() == lsv.take(i as int));
        assert(lsv.take(i + 1).last() == ls@[i as int]@);
        let t = trim(&ls[i]);
        let ghost before = entry_lines(lsv.take(i as int));
        if t.len() > 0 {
            assert(entry_lines(lsv.take(i + 1)) == before.push(t@));
            assert(before.push(t@).drop_last() == before);
            match read_entry_chars(&t) {
                Some(Some(e)) => {
                    es.push(e);
                },
                Some(None) => {
                    proof {
                        lemma_read_entries_stops(lsv, i as int);
                    }
                    return Some(Err(t));
                },
                None => {
                    proof {
                        lemma_read_entries_stops(lsv, i as int);
                    }
                    return None;
                },
            }
        }
        i = i + 1;
    }
    assert(lsv.take(ls@.len() as int) == lsv);
    Some(Ok(es))
}

/// Once reading stops at a line, the lines after it change nothing.
proof fn lemma_read_entries_stops(lsv: Seq<Seq<char>>, i: int)
    requires
        0 <= i < lsv.len(),
        !(read_entries(entry_lines(lsv.take(i + 1))) matches Some(Ok(_))),
    ensures
        read_entries(entry_lines(lsv)) == read_entries(entry_lines(lsv.take(i + 1))),
    decreases lsv.len() - i,
{
    if i + 1 < lsv.len() {
        assert(lsv.drop_last().take(i + 1) == lsv.take(i + 1));
        lemma_read_entries_stops(lsv.drop_last(), i);
        let prev = entry_lines(lsv.drop_last());
        let t = trim_spec(lsv.last());
        if t.len() > 0 {
            assert(prev.push(t).drop_last() == prev);
        }
    } else {
        assert(lsv.take(i + 1) == lsv);
    }
}

/// Reads a map text; `None` where an entry's sums leave `i64`.
fn read_map_str(s: &str) -> (res: Option<Result<AlmanacMap, ParseAlmanacEntryError>>)
    ensures
        match res {
            Some(Ok(m)) => read_map(s@) == Some(Ok::<Seq<AlmanacEntry>, Seq<char>>(m.ranges@))
                && entries_sorted(m.ranges@),
            Some(Err(e)) => read_map(s@) == Some(Err::<Seq<AlmanacEntry>, Seq<char>>(e.0@)),
            None => read_map(s@) is None,
        },
{
    let chars = to_chars(s);
    match read_entry_list(&chars) {
        Some(Ok(es)) => {
            let sorted = sort_entry_vec(&es);
            proof {
                lemma_sort_entries(es@);
            }
            Some(Ok(AlmanacMap { ranges: sorted }))
        },
        Some(Err(l)) => Some(Err(ParseAlmanacEntryError(string_of(&l)))),
        None => None,
    }
}

impl AlmanacMap {
    /// Reads a map text: one entry per line, empty lines left out, the
    /// entries sorted by the start of their source range.
    pub fn from_str(s: &str) -> (res: Result<AlmanacMap, ParseAlmanacEntryError>)
        requires
            read_map(s@) is Some,
        ensures
            match res {
                Ok(m) => read_map(s@) == Some(Ok::<Seq<AlmanacEntry>, Seq<char>>(m.ranges@))
                    && entries_sorted(m.ranges@),
                Err(e) => read_map(s@) == Some(Err::<Seq<AlmanacEntry>, Seq<char>>(e.0@)),
            },
    {
        match read_map_str(s) {
            Some(r) => r,
            None => Err(ParseAlmanacEntryError(s.to_owned())),
        }
    }
}

/// Sorts entries stably by the start of their source range.
fn sort_entry_vec(es: &Vec<AlmanacEntry>) -> (res: Vec<AlmanacEntry>)
    ensures
        res@ == sort_entries(es@),
{
    let mut keyed: Vec<(i64, AlmanacEntry)> = Vec::new();
    let mut i: usize = 0;
    while i < es.len()
        invariant
            i <= es.len(),
            keyed@ == keyed_entries(es@.take(i as int)),
        decreases es.len() - i,
    {
        let e = es[i];
        keyed.push((e.src.0, e));
        i = i + 1;
        assert(keyed@ =~= keyed_entries(es@.take(i as int)));
    }
    assert(es@.take(es@.len() as int) == es@);
    let sorted = stable_sort(&keyed);
    let mut res: Vec<AlmanacEntry> = Vec::new();
    let mut k: usize = 0;
    while k < sorted.len()
        invariant
            k <= sorted.len(),
            sorted@ == sort_by_key(keyed_entries(es@)),
            res@ == sorted@.take(k as int).map_values(|p: (i64, AlmanacEntry)| p.1),
        decreases sorted.len() - k,
    {
        res.push(sorted[k].1);
        k = k + 1;
        assert(res@ =~= sorted@.take(k as int).map_values(|p: (i64, AlmanacEntry)| p.1));
    }
    assert(sorted@.take(sorted@.len() as int) == sorted@);
    res
}


/// Whether one of the ranges `rs` holds `p`.
pub open spec fn covers(rs: Seq<Range>, p: int) -> bool {
    exists|k: int| 0 <= k < rs.len() && (#[trigger] rs[k]).has(p)
}

/// Whether `rs` is a sorted list of non-empty ranges with a gap between
/// each two that follow each other: the one way to write a set of numbers
/// as ranges.
pub open spec fn normalized(rs: Seq<Range>) -> bool {
    &&& forall|k: int| 0 <= k < rs.len() ==> (#[trigger] rs[k]).0 <= rs[k].1
    &&& forall|k: int| 0 <= k < rs.len() - 1 ==> (#[trigger] rs[k]).1 + 1 < rs[k + 1].0
}

/// Whether every number of the ranges `src` goes to a number within `i64`.
pub open spec fn image_fits(es: Seq<AlmanacEntry>, src: Seq<Range>) -> bool {
    forall|p: int| covers(src, p) ==> i64::MIN <= #[trigger] map_point(es, p) <= i64::MAX
}

/// Whether the range `o`, if there is one, holds `p`.
pub open spec fn opt_has(o: Option<Range>, p: int) -> bool {
    match o {
        Some(b) => b.has(p),
        None => false,
    }
}

/// The first entry that holds `p` decides where it goes.
proof fn lemma_map_point_first(es: Seq<AlmanacEntry>, k: int, p: int)
    requires
        0 <= k < es.len(),
        es[k].src.has(p),
        forall|j: int| 0 <= j < k ==> !(#[trigger] es[j]).src.has(p),
    ensures
        map_point(es, p) == p + es[k].offset,
    decreases k,
{
    if k > 0 {
        assert(!es[0].src.has(p));
        assert forall|j: int| 0 <= j < k - 1 implies !(#[trigger] es.drop_first()[j]).src.has(p) by {
            assert(es.drop_first()[j] == es[j + 1]);
        }
        lemma_map_point_first(es.drop_first(), k - 1, p);
    }
}

/// Where no entry holds `p`, it stays.
proof fn lemma_map_point_none(es: Seq<AlmanacEntry>, p: int)
    requires
        forall|j: int| 0 <= j < es.len() ==> !(#[trigger] es[j]).src.has(p),
    ensures
        map_point(es, p) == p,
    decreases es.len(),
{
    if es.len() > 0 {
        assert(!es[0].src.has(p));
        assert forall|j: int| 0 <= j < es.len() - 1 implies !(#[trigger] es.drop_first()[j]).src.has(p) by {
            assert(es.drop_first()[j] == es[j + 1]);
        }
        lemma_map_point_none(es.drop_first(), p);
    }
}

/// A number below the start of the `k`-th source range is held by no entry
/// from `k` on, where the entries are sorted.
proof fn lemma_below_entry(es: Seq<AlmanacEntry>, k: int, p: int)
    requires
        entries_sorted(es),
        0 <= k < es.len(),
        p < es[k].src.0,
        forall|j: int| 0 <= j < k ==> !(#[trigger] es[j]).src.has(p),
    ensures
        map_point(es, p) == p,
{
    assert forall|j: int| 0 <= j < es.len() implies !(#[trigger] es[j]).src.has(p) by {
        if j >= k {
            assert(es[k].src.0 <= es[j].src.0);
        }
    }
    lemma_map_point_none(es, p);
}

proof fn lemma_covers_push(rs: Seq<Range>, r: Range, q: int)
    ensures
        covers(rs.push(r), q) <==> (covers(rs, q) || r.has(q)),
{
    if covers(rs, q) {
        let k = choose|k: int| 0 <= k < rs.len() && (#[trigger] rs[k]).has(q);
        assert(rs.push(r)[k] == rs[k]);
    }
    if r.has(q) {
        assert(rs.push(r)[rs.len() as int] == r);
    }
    if covers(rs.push(r), q) {
        let k = choose|k: int| 0 <= k < rs.push(r).len() && (#[trigger] rs.push(r)[k]).has(q);
        if k < rs.len() {
            assert(rs.push(r)[k] == rs[k]);
        }
    }
}

impl AlmanacMap {
    /// Where `idx` goes: moved by the offset of the first entry whose source
    /// range holds it, or left as it is.
    pub fn get(&self, idx: i64) -> (res: i64)
        requires
            i64::MIN <= map_point(self.ranges@, idx as int) <= i64::MAX,
        ensures
            res == map_point(self.ranges@, idx as int),
    {
        let mut i: usize = 0;
        assert(self.ranges@.skip(0) == self.ranges@);
        while i < self.ranges.len()
            invariant
                i <= self.ranges.len(),
                i64::MIN <= map_point(self.ranges@, idx as int) <= i64::MAX,
                map_point(self.ranges@, idx as int) == map_point(self.ranges@.skip(i as int), idx as int),
            decreases self.ranges.len() - i,
        {
            let e = self.ranges[i];
            assert(self.ranges@.skip(i as int)[0] == e);
            if e.src.includes(idx) {
                assert(map_point(self.ranges@.skip(i as int), idx as int) == idx + e.offset);
                return e.offset + idx;
            }
            assert(self.ranges@.skip(i as int).drop_first() == self.ranges@.skip(i + 1));
            i = i + 1;
        }
        idx
    }

    /// Maps the range `b` through the `k`-th entry, all of whose numbers no
    /// earlier entry holds: appends to `out` what of `b` is settled (the part
    /// before the entry's source range, which no later entry holds either,
    /// and the part inside it, moved by its offset) and gives back the part
    /// after it, if any, for the later entries.
    fn map_piece(&self, k: usize, b: Range, out: &mut Vec<Range>) -> (res: Option<Option<Range>>)
        requires
            k < self.ranges@.len(),
            entries_sorted(self.ranges@),
            b.0 <= b.1,
            forall|p: int| #[trigger] b.has(p) ==> forall|j: int| 0 <= j < k ==> !(#[trigger] self.ranges@[j]).src.has(p),
            forall|i: int| 0 <= i < old(out)@.len() ==> (#[trigger] old(out)@[i]).0 <= old(out)@[i].1,
        ensures
            forall|i: int| 0 <= i < final(out)@.len() ==> (#[trigger] final(out)@[i]).0 <= final(out)@[i].1,
            res is None ==> exists|p: int| b.has(p) && !(i64::MIN <= #[trigger] map_point(self.ranges@, p) <= i64::MAX),
            res matches Some(rest) ==> forall|q: int| #[trigger] covers(final(out)@, q) <==> (covers(old(out)@, q) || exists|p: int|
                b.has(p) && !opt_has(rest, p) && #[trigger] map_point(self.ranges@, p) == q),
            res matches Some(rest) ==> match rest {
                Some(r) => r.0 <= r.1 && forall|p: int| #[trigger] r.has(p) ==> b.has(p) && forall|j: int|
                    0 <= j <= k ==> !(#[trigger] self.ranges@[j]).src.has(p),
                None => true,
            },
    {
        let ghost es = self.ranges@;
        let ghost out0 = out@;
        let entry = self.ranges[k];
        let range_a = entry.src;
        let range_b = b;
        if range_a.1 < range_a.0 {
            assert forall|q: int| #[trigger] covers(out@, q) <==> (covers(out0, q) || exists|p: int|
                b.has(p) && !opt_has(Some(b), p) && #[trigger] map_point(es, p) == q) by {}
            return Some(Some(b));
        }
        if !(range_a.intersect(&range_b) || range_b.intersect(&range_a)) {
            if range_b.0 < range_a.0 {
                out.push(range_b);
                assert forall|q: int| #[trigger] covers(out@, q) <==> (covers(out0, q) || exists|p: int|
                    b.has(p) && !opt_has(None, p) && #[trigger] map_point(es, p) == q) by {
                    lemma_covers_push(out0, b, q);
                    if b.has(q) {
                        lemma_below_entry(es, k as int, q);
                    }
                    if exists|p: int| b.has(p) && #[trigger] map_point(es, p) == q {
                        let p = choose|p: int| b.has(p) && #[trigger] map_point(es, p) == q;
                        lemma_below_entry(es, k as int, p);
                    }
                }
                return Some(None);
            }
            assert forall|q: int| #[trigger] covers(out@, q) <==> (covers(out0, q) || exists|p: int|
                b.has(p) && !opt_has(Some(b), p) && #[trigger] map_point(es, p) == q) by {}
            return Some(Some(b));
        }
        // `b` and the entry's source range share numbers.
        let off = entry.offset;
        let lo = if range_b.0 > range_a.0 { range_b.0 } else { range_a.0 };
        let hi = if range_b.1 < range_a.1 { range_b.1 } else { range_a.1 };
        assert(lo <= hi);
        assert forall|p: int| lo <= p <= hi implies map_point(es, p) == p + off by {
            assert(b.has(p));
            lemma_map_point_first(es, k as int, p);
        }
        assert(b.has(lo as int) && b.has(hi as int));
        if lo.checked_add(off).is_none() {
            assert(!(i64::MIN <= map_point(es, lo as int) <= i64::MAX));
            return None;
        }
        if hi.checked_add(off).is_none() {
            assert(!(i64::MIN <= map_point(es, hi as int) <= i64::MAX));
            return None;
        }
        let mapped = Range(lo, hi).offset(off);
        let before = if range_b.0 < range_a.0 { Range(range_b.0, range_a.0 - 1) } else { Range(0, -1) };
        if range_b.0 < range_a.0 {
            out.push(before);
        }
        let ghost out1 = out@;
        out.push(mapped);
        let rest = if range_b.1 > range_a.1 {
            Some(Range(range_a.1 + 1, range_b.1))
        } else {
            None
        };
        assert forall|q: int| #[trigger] covers(out@, q) <==> (covers(out0, q) || exists|p: int|
            b.has(p) && !opt_has(rest, p) && #[trigger] map_point(es, p) == q) by {
            lemma_covers_push(out1, mapped, q);
            if range_b.0 < range_a.0 {
                lemma_covers_push(out0, before, q);
                if b.0 <= q < range_a.0 {
                    assert(b.has(q));
                    lemma_below_entry(es, k as int, q);
                }
            }
            if mapped.has(q) {
                assert(map_point(es, q - off) == q);
                assert(b.has(q - off) && !opt_has(rest, q - off));
            }
            if exists|p: int| b.has(p) && !opt_has(rest, p) && #[trigger] map_point(es, p) == q {
                let p = choose|p: int| b.has(p) && !opt_has(rest, p) && #[trigger] map_point(es, p) == q;
                if p < range_a.0 {
                    lemma_below_entry(es, k as int, p);
                    lemma_covers_push(out0, before, q);
                }
            }
        }
        Some(rest)
    }
}


/// Ranges keyed by their start.
pub open spec fn keyed_ranges(rs: Seq<Range>) -> Seq<(i64, Range)> {
    rs.map_values(|r: Range| (r.0, r))
}

/// Whether the ranges `rs` start in order.
pub open spec fn starts_sorted(rs: Seq<Range>) -> bool {
    forall|i: int, j: int| 0 <= i <= j < rs.len() ==> rs[i].0 <= rs[j].0
}

/// Sorts ranges stably by their start.
fn sort_ranges(rs: &Vec<Range>) -> (res: Vec<Range>)
    requires
        forall|i: int| 0 <= i < rs@.len() ==> (#[trigger] rs@[i]).0 <= rs@[i].1,
    ensures
        starts_sorted(res@),
        forall|i: int| 0 <= i < res@.len() ==> (#[trigger] res@[i]).0 <= res@[i].1,
        forall|q: int| #[trigger] covers(res@, q) <==> covers(rs@, q),
{
    broadcast use vstd::seq_lib::group_to_multiset_ensures;
    let mut keyed: Vec<(i64, Range)> = Vec::new();
    let mut i: usize = 0;
    while i < rs.len()
        invariant
            i <= rs.len(),
            keyed@ == keyed_ranges(rs@.take(i as int)),
        decreases rs.len() - i,
    {
        let r = rs[i];
        keyed.push((r.0, r));
        i = i + 1;
        assert(keyed@ =~= keyed_ranges(rs@.take(i as int)));
    }
    assert(rs@.take(rs@.len() as int) == rs@);
    let sorted = stable_sort(&keyed);
    proof {
        lemma_sort_by_key(keyed@);
    }
    let mut res: Vec<Range> = Vec::new();
    let mut k: usize = 0;
    while k < sorted.len()
        invariant
            k <= sorted.len(),
            res@ == sorted@.take(k as int).map_values(|p: (i64, Range)| p.1),
        decreases sorted.len() - k,
    {
        res.push(sorted[k].1);
        k = k + 1;
        assert(res@ =~= sorted@.take(k as int).map_values(|p: (i64, Range)| p.1));
    }
    assert(sorted@.take(sorted@.len() as int) == sorted@);
    let ghost ks = keyed_ranges(rs@);
    assert forall|j: int| 0 <= j < sorted@.len() implies ks.contains(#[trigger] sorted@[j]) by {
        assert(sorted@.to_multiset().count(sorted@[j]) > 0);
    }
    assert forall|j: int| 0 <= j < rs@.len() implies sorted@.contains(#[trigger] ks[j]) by {
        assert(ks.to_multiset().count(ks[j]) > 0);
    }
    assert forall|j: int| 0 <= j < res@.len() implies (#[trigger] res@[j]).0 == sorted@[j].0
        && res@[j].0 <= res@[j].1 by {
        let m = choose|m: int| 0 <= m < ks.len() && ks[m] == sorted@[j];
        assert(ks[m] == (rs@[m].0, rs@[m]));
    }
    assert forall|q: int| #[trigger] covers(res@, q) <==> covers(rs@, q) by {
        if covers(res@, q) {
            let j = choose|j: int| 0 <= j < res@.len() && (#[trigger] res@[j]).has(q);
            let m = choose|m: int| 0 <= m < ks.len() && ks[m] == sorted@[j];
            assert(ks[m] == (rs@[m].0, rs@[m]));
            assert(rs@[m].has(q));
        }
        if covers(rs@, q) {
            let m = choose|m: int| 0 <= m < rs@.len() && (#[trigger] rs@[m]).has(q);
            assert(ks[m] == (rs@[m].0, rs@[m]));
            let j = choose|j: int| 0 <= j < sorted@.len() && sorted@[j] == ks[m];
            assert(res@[j] == rs@[m]);
        }
    }
    res
}

/// Joins ranges sorted by start that overlap or touch, keeping the numbers
/// they hold.
fn merge_ranges(rs: &Vec<Range>) -> (res: Vec<Range>)
    requires
        starts_sorted(rs@),
        forall|i: int| 0 <= i < rs@.len() ==> (#[trigger] rs@[i]).0 <= rs@[i].1,
    ensures
        normalized(res@),
        forall|q: int| #[trigger] covers(res@, q) <==> covers(rs@, q),
{
    let mut acc: Vec<Range> = Vec::new();
    let mut i: usize = 0;
    while i < rs.len()
        invariant
            i <= rs.len(),
            starts_sorted(rs@),
            forall|j: int| 0 <= j < rs@.len() ==> (#[trigger] rs@[j]).0 <= rs@[j].1,
            normalized(acc@),
            acc@.len() == 0 <==> i == 0,
            acc@.len() > 0 ==> forall|j: int| i <= j < rs@.len() ==> acc@.last().0 <= (#[trigger] rs@[j]).0,
            forall|q: int| #[trigger] covers(acc@, q) <==> covers(rs@.take(i as int), q),
        decreases rs.len() - i,
    {
        let x = rs[i];
        let ghost old_acc = acc@;
        assert forall|q: int| covers(rs@.take(i + 1), q) <==> covers(rs@.take(i as int), q) || x.has(q) by {
            assert(rs@.take(i + 1) == rs@.take(i as int).push(x));
            lemma_covers_push(rs@.take(i as int), x, q);
        }
        let n = acc.len();
        if n == 0 {
            acc.push(x);
            assert forall|q: int| #[trigger] covers(acc@, q) <==> covers(rs@.take(i + 1), q) by {
                lemma_covers_push(old_acc, x, q);
            }
        } else {
            let mut last = acc[n - 1];
            if last.intersect(&x) || (last.1 < i64::MAX && last.1 + 1 == x.0) {
                let ghost old_last = last;
                assert(old_acc.last() == old_last);
                assert(old_last.0 <= rs@[i as int].0);
                assert(x.0 <= old_last.1 + 1);
                last.expand(&x);
                acc.set(n - 1, last);
                assert forall|q: int| #[trigger] covers(acc@, q) <==> covers(rs@.take(i + 1), q) by {
                    assert(old_acc == old_acc.drop_last().push(old_last));
                    assert(acc@ == old_acc.drop_last().push(last));
                    lemma_covers_push(old_acc.drop_last(), old_last, q);
                    lemma_covers_push(old_acc.drop_last(), last, q);
                    assert(last.has(q) <==> old_last.has(q) || x.has(q));
                    assert(covers(old_acc, q) <==> covers(rs@.take(i as int), q));
                    assert(covers(rs@.take(i + 1), q) <==> covers(rs@.take(i as int), q) || x.has(q));
                }
            } else {
                acc.push(x);
                assert forall|q: int| #[trigger] covers(acc@, q) <==> covers(rs@.take(i + 1), q) by {
                    lemma_covers_push(old_acc, x, q);
                }
            }
        }
        i = i + 1;
    }
    assert(rs@.take(rs@.len() as int) == rs@);
    acc
}

impl AlmanacMap {
    /// Where the numbers of the ranges `src_ranges` go, as ranges: the
    /// numbers that some number of the given ranges goes to, and no other,
    /// written as sorted ranges with gaps between them.
    pub fn get_ranges(&self, src_ranges: &[Range]) -> (res: Vec<Range>)
        requires
            entries_sorted(self.ranges@),
            image_fits(self.ranges@, src_ranges@),
        ensures
            normalized(res@),
            forall|q: int| #[trigger] covers(res@, q) <==> exists|p: int| covers(src_ranges@, p)
                && #[trigger] map_point(self.ranges@, p) == q,
    {
        match self.image_ranges(src_ranges) {
            Some(v) => v,
            None => Vec::new(),
        }
    }

    /// Where the numbers of the ranges `src_ranges` go, as ranges; `None`
    /// where one of them goes past the ends of `i64`.
    pub fn image_ranges(&self, src_ranges: &[Range]) -> (res: Option<Vec<Range>>)
        requires
            entries_sorted(self.ranges@),
        ensures
            res is None <==> !image_fits(self.ranges@, src_ranges@),
            res matches Some(v) ==> normalized(v@),
            res matches Some(v) ==> forall|q: int| #[trigger] covers(v@, q) <==> exists|p: int| covers(src_ranges@, p)
                && #[trigger] map_point(self.ranges@, p) == q,
    {
        let ghost es = self.ranges@;
        let mut ranges: Vec<Range> = Vec::new();
        let mut i: usize = 0;
        while i < src_ranges.len()
            invariant
                i <= src_ranges@.len(),
                es == self.ranges@,
                entries_sorted(es),
                forall|j: int| 0 <= j < ranges@.len() ==> (#[trigger] ranges@[j]).0 <= ranges@[j].1,
                forall|q: int| #[trigger] covers(ranges@, q) <==> exists|p: int|
                    covers(src_ranges@.take(i as int), p) && #[trigger] map_point(es, p) == q,
            decreases src_ranges@.len() - i,
        {
            let range = src_ranges[i];
            let ghost before = ranges@;
            assert forall|p: int| covers(src_ranges@.take(i + 1), p) <==> covers(src_ranges@.take(i as int), p)
                || range.has(p) by {
                assert(src_ranges@.take(i + 1) == src_ranges@.take(i as int).push(range));
                lemma_covers_push(src_ranges@.take(i as int), range, p);
            }
            if range.0 <= range.1 {
                let mut unexamined: Option<Range> = Some(range);
                let mut k: usize = 0;
                while k < self.ranges.len() && unexamined.is_some()
                    invariant
                        k <= self.ranges@.len(),
                        es == self.ranges@,
                        entries_sorted(es),
                        i < src_ranges@.len(),
                        range == src_ranges@[i as int],
                        forall|j: int| 0 <= j < ranges@.len() ==> (#[trigger] ranges@[j]).0 <= ranges@[j].1,
                        forall|q: int| #[trigger] covers(ranges@, q) <==> (covers(before, q) || exists|p: int|
                            range.has(p) && !opt_has(unexamined, p) && #[trigger] map_point(es, p) == q),
                        match unexamined {
                            Some(b) => b.0 <= b.1 && forall|p: int| #[trigger] b.has(p) ==> range.has(p)
                                && forall|j: int| 0 <= j < k ==> !(#[trigger] es[j]).src.has(p),
                            None => true,
                        },
                    decreases self.ranges@.len() - k,
                {
                    let b = match unexamined {
                        Some(b) => b,
                        None => Range(0, -1),
                    };
                    let ghost mid = ranges@;
                    let ghost old_un = unexamined;
                    unexamined = match self.map_piece(k, b, &mut ranges) {
                        Some(rest) => rest,
                        None => {
                            proof {
                                let p = choose|p: int| b.has(p) && !(i64::MIN <= #[trigger] map_point(es, p) <= i64::MAX);
                                assert(range.has(p));
                                assert(src_ranges@[i as int].has(p));
                                assert(covers(src_ranges@, p));
                            }
                            return None;
                        },
                    };
                    assert forall|q: int| #[trigger] covers(ranges@, q) <==> (covers(before, q) || exists|p: int|
                        range.has(p) && !opt_has(unexamined, p) && #[trigger] map_point(es, p) == q) by {
                        if exists|p: int| range.has(p) && !opt_has(unexamined, p) && #[trigger] map_point(es, p) == q {
                            let p = choose|p: int| range.has(p) && !opt_has(unexamined, p) && #[trigger] map_point(es, p) == q;
                            if b.has(p) {
                                assert(b.has(p) && !opt_has(unexamined, p) && map_point(es, p) == q);
                            } else {
                                assert(range.has(p) && !opt_has(old_un, p) && map_point(es, p) == q);
                            }
                        }
                        if exists|p: int| range.has(p) && !opt_has(old_un, p) && #[trigger] map_point(es, p) == q {
                            let p = choose|p: int| range.has(p) && !opt_has(old_un, p) && #[trigger] map_point(es, p) == q;
                            assert(range.has(p) && !opt_has(unexamined, p) && map_point(es, p) == q);
                        }
                        if exists|p: int| b.has(p) && !opt_has(unexamined, p) && #[trigger] map_point(es, p) == q {
                            let p = choose|p: int| b.has(p) && !opt_has(unexamined, p) && #[trigger] map_point(es, p) == q;
                            assert(range.has(p) && !opt_has(unexamined, p) && map_point(es, p) == q);
                        }
                    }
                    k = k + 1;
                }
                let ghost mid = ranges@;
                if let Some(b) = unexamined {
                    ranges.push(b);
                    assert forall|q: int| #[trigger] covers(ranges@, q) <==> (covers(before, q) || exists|p: int|
                        range.has(p) && #[trigger] map_point(es, p) == q) by {
                        lemma_covers_push(mid, b, q);
                        if b.has(q) {
                            assert forall|j: int| 0 <= j < es.len() implies !(#[trigger] es[j]).src.has(q) by {}
                            lemma_map_point_none(es, q);
                        }
                        if exists|p: int| range.has(p) && #[trigger] map_point(es, p) == q {
                            let p = choose|p: int| range.has(p) && #[trigger] map_point(es, p) == q;
                            if b.has(p) {
                                assert forall|j: int| 0 <= j < es.len() implies !(#[trigger] es[j]).src.has(p) by {}
                                lemma_map_point_none(es, p);
                            }
                        }
                    }
                }
            }
            assert forall|q: int| #[trigger] covers(ranges@, q) <==> exists|p: int|
                covers(src_ranges@.take(i + 1), p) && #[trigger] map_point(es, p) == q by {
                if exists|p: int| covers(src_ranges@.take(i + 1), p) && #[trigger] map_point(es, p) == q {
                    let p = choose|p: int| covers(src_ranges@.take(i + 1), p) && #[trigger] map_point(es, p) == q;
                    if !range.has(p) {
                        assert(covers(src_ranges@.take(i as int), p) && map_point(es, p) == q);
                    }
                }
                if exists|p: int| covers(src_ranges@.take(i as int), p) && #[trigger] map_point(es, p) == q {
                    let p = choose|p: int| covers(src_ranges@.take(i as int), p) && #[trigger] map_point(es, p) == q;
                    assert(covers(src_ranges@.take(i + 1), p));
                }
                if exists|p: int| range.has(p) && #[trigger] map_point(es, p) == q {
                    let p = choose|p: int| range.has(p) && #[trigger] map_point(es, p) == q;
                    assert(covers(src_ranges@.take(i + 1), p));
                }
            }
            i = i + 1;
        }
        assert(src_ranges@.take(src_ranges@.len() as int) == src_ranges@);
        let sorted = sort_ranges(&ranges);
        let merged = merge_ranges(&sorted);
        assert forall|p: int| covers(src_ranges@, p) implies i64::MIN <= #[trigger] map_point(es, p) <= i64::MAX by {
            assert(covers(merged@, map_point(es, p)));
            let k = choose|k: int| 0 <= k < merged@.len() && (#[trigger] merged@[k]).has(map_point(es, p));
        }
        Some(merged)
    }
}


impl AlmanacMap {
    /// Where `idx` goes; `None` where that is past the ends of `i64`.
    pub fn get_checked(&self, idx: i64) -> (res: Option<i64>)
        ensures
            res is None <==> !(i64::MIN <= map_point(self.ranges@, idx as int) <= i64::MAX),
            res matches Some(v) ==> v == map_point(self.ranges@, idx as int),
    {
        let mut i: usize = 0;
        assert(self.ranges@.skip(0) == self.ranges@);
        while i < self.ranges.len()
            invariant
                i <= self.ranges.len(),
                map_point(self.ranges@, idx as int) == map_point(self.ranges@.skip(i as int), idx as int),
            decreases self.ranges.len() - i,
        {
            let e = self.ranges[i];
            assert(self.ranges@.skip(i as int)[0] == e);
            if e.src.includes(idx) {
                assert(map_point(self.ranges@.skip(i as int), idx as int) == idx + e.offset);
                return e.offset.checked_add(idx);
            }
            assert(self.ranges@.skip(i as int).drop_first() == self.ranges@.skip(i + 1));
            i = i + 1;
        }
        Some(idx)
    }
}

/// The texts of the seven maps of an almanac, from seed to location.
pub open spec fn texts7(
    a: Seq<char>,
    b: Seq<char>,
    c: Seq<char>,
    d: Seq<char>,
    e: Seq<char>,
    f: Seq<char>,
    g: Seq<char>,
) -> Seq<Seq<char>> {
    seq![a, b, c, d, e, f, g]
}

/// What reading the map texts in order gives: their entries, or the first
/// line that is no entry; `None` where an entry read before it has sums that
/// leave `i64`.
pub open spec fn read_maps(texts: Seq<Seq<char>>) -> Option<Result<Seq<Seq<AlmanacEntry>>, Seq<char>>>
    decreases texts.len(),
{
    if texts.len() == 0 {
        Some(Ok(Seq::empty()))
    } else {
        match read_maps(texts.drop_last()) {
            Some(Ok(ms)) => match read_map(texts.last()) {
                Some(Ok(m)) => Some(Ok(ms.push(m))),
                Some(Err(l)) => Some(Err(l)),
                None => None,
            },
            other => other,
        }
    }
}

/// Where `p` goes through the maps `ms`, one after another.
pub open spec fn chain(ms: Seq<Seq<AlmanacEntry>>, p: int) -> int
    decreases ms.len(),
{
    if ms.len() == 0 {
        p
    } else {
        map_point(ms.last(), chain(ms.drop_last(), p))
    }
}

/// Whether `p` stays within `i64` at every step through the maps `ms`.
pub open spec fn chain_fits(ms: Seq<Seq<AlmanacEntry>>, p: int) -> bool {
    forall|k: int| 1 <= k <= ms.len() ==> i64::MIN <= #[trigger] chain(ms.take(k), p) <= i64::MAX
}

/// The entries of each map.
pub open spec fn map_views(ms: Seq<AlmanacMap>) -> Seq<Seq<AlmanacEntry>> {
    ms.map_values(|m: AlmanacMap| m.ranges@)
}

/// The texts of some strings.
pub open spec fn str_views(ts: Seq<&str>) -> Seq<Seq<char>> {
    ts.map_values(|t: &str| t@)
}

/// Reads the map texts in order.
fn read_all_maps(texts: &Vec<&str>) -> (res: Option<Result<Vec<AlmanacMap>, ParseAlmanacEntryError>>)
    ensures
        match res {
            Some(Ok(ms)) => read_maps(str_views(texts@)) == Some(Ok::<Seq<Seq<AlmanacEntry>>, Seq<char>>(map_views(ms@)))
                && forall|k: int| 0 <= k < ms@.len() ==> entries_sorted(#[trigger] ms@[k].ranges@),
            Some(Err(e)) => read_maps(str_views(texts@)) == Some(Err::<Seq<Seq<AlmanacEntry>>, Seq<char>>(e.0@)),
            None => read_maps(str_views(texts@)) is None,
        },
{
    let ghost tv = str_views(texts@);
    let mut ms: Vec<AlmanacMap> = Vec::new();
    let mut i: usize = 0;
    assert(tv.take(0) == Seq::<Seq<char>>::empty());
    assert(map_views(ms@) == Seq::<Seq<AlmanacEntry>>::empty());
    while i < texts.len()
        invariant
            i <= texts.len(),
            tv == str_views(texts@),
            read_maps(tv.take(i as int)) == Some(Ok::<Seq<Seq<AlmanacEntry>>, Seq<char>>(map_views(ms@))),
            forall|k: int| 0 <= k < ms@.len() ==> entries_sorted(#[trigger] ms@[k].ranges@),
        decreases texts.len() - i,
    {
        assert(tv.take(i + 1).drop_last() == tv.take(i as int));
        assert(tv.take(i + 1).last() == texts@[i as int]@);
        match read_map_str(texts[i]) {
            Some(Ok(m)) => {
                let ghost old_ms = ms@;
                ms.push(m);
                assert(map_views(ms@) == map_views(old_ms).push(m.ranges@));
            },
            Some(Err(e)) => {
                proof {
                    lemma_read_maps_stops(tv, i as int);
                }
                return Some(Err(e));
            },
            None => {
                proof {
                    lemma_read_maps_stops(tv, i as int);
                }
                return None;
            },
        }
        i = i + 1;
    }
    assert(tv.take(texts@.len() as int) == tv);
    Some(Ok(ms))
}

/// Once reading stops at a map, the maps after it change nothing.
proof fn lemma_read_maps_stops(tv: Seq<Seq<char>>, i: int)
    requires
        0 <= i < tv.len(),
        !(read_maps(tv.take(i + 1)) matches Some(Ok(_))),
    ensures
        read_maps(tv) == read_maps(tv.take(i + 1)),
    decreases tv.len() - i,
{
    if i + 1 < tv.len() {
        assert(tv.drop_last().take(i + 1) == tv.take(i + 1));
        lemma_read_maps_stops(tv.drop_last(), i);
    } else {
        assert(tv.take(i + 1) == tv);
    }
}

/// One more map takes one more step.
proof fn lemma_chain_step(ms: Seq<Seq<AlmanacEntry>>, k: int, p: int)
    requires
        0 <= k < ms.len(),
    ensures
        chain(ms.take(k + 1), p) == map_point(ms[k], chain(ms.take(k), p)),
{
    assert(ms.take(k + 1).drop_last() == ms.take(k));
    assert(ms.take(k + 1).last() == ms[k]);
}

/// Where `seed` goes through the maps; `None` where a step leaves `i64`.
fn locate(maps: &Vec<AlmanacMap>, seed: i64) -> (res: Option<i64>)
    ensures
        res is None <==> !chain_fits(map_views(maps@), seed as int),
        res matches Some(v) ==> v == chain(map_views(maps@), seed as int),
{
    let ghost mv = map_views(maps@);
    let mut cur = seed;
    let mut k: usize = 0;
    assert(mv.take(0) == Seq::<Seq<AlmanacEntry>>::empty());
    while k < maps.len()
        invariant
            k <= maps.len(),
            mv == map_views(maps@),
            cur == chain(mv.take(k as int), seed as int),
            forall|j: int| 1 <= j <= k ==> i64::MIN <= #[trigger] chain(mv.take(j), seed as int) <= i64::MAX,
        decreases maps.len() - k,
    {
        proof {
            lemma_chain_step(mv, k as int, seed as int);
        }
        assert(mv[k as int] == maps@[k as int].ranges@);
        match maps[k].get_checked(cur) {
            Some(v) => {
                cur = v;
            },
            None => {
                assert(!(i64::MIN <= chain(mv.take(k + 1), seed as int) <= i64::MAX));
                return None;
            },
        }
        k = k + 1;
    }
    assert(mv.take(mv.len() as int) == mv);
    Some(cur)
}

/// Where the numbers of `r` go through the maps, as ranges; `None` where
/// one of them leaves `i64` at some step.
fn locate_range(maps: &Vec<AlmanacMap>, r: Range) -> (res: Option<Vec<Range>>)
    requires
        r.0 <= r.1,
        forall|k: int| 0 <= k < maps@.len() ==> entries_sorted(#[trigger] maps@[k].ranges@),
    ensures
        res is None <==> exists|p: int| r.has(p) && !chain_fits(map_views(maps@), p),
        res matches Some(v) ==> normalized(v@),
        res matches Some(v) ==> forall|q: int| #[trigger] covers(v@, q) <==> exists|p: int| r.has(p)
            && #[trigger] chain(map_views(maps@), p) == q,
{
    let ghost mv = map_views(maps@);
    let mut cur: Vec<Range> = Vec::new();
    cur.push(r);
    let mut k: usize = 0;
    assert(mv.take(0) == Seq::<Seq<AlmanacEntry>>::empty());
    assert forall|q: int| #[trigger] covers(cur@, q) <==> exists|p: int| r.has(p)
        && #[trigger] chain(mv.take(0), p) == q by {
        assert(cur@[0] == r);
        if r.has(q) {
            assert(chain(mv.take(0), q) == q);
        }
    }
    while k < maps.len()
        invariant
            k <= maps.len(),
            mv == map_views(maps@),
            forall|j: int| 0 <= j < maps@.len() ==> entries_sorted(#[trigger] maps@[j].ranges@),
            forall|q: int| #[trigger] covers(cur@, q) <==> exists|p: int| r.has(p)
                && #[trigger] chain(mv.take(k as int), p) == q,
            forall|p: int, j: int| r.has(p) && 1 <= j <= k ==> i64::MIN <= #[trigger] chain(mv.take(j), p) <= i64::MAX,
            r.0 <= r.1,
            normalized(cur@),
        decreases maps.len() - k,
    {
        assert(mv[k as int] == maps@[k as int].ranges@);
        assert(entries_sorted(maps@[k as int].ranges@));
        match maps[k].image_ranges(cur.as_slice()) {
            Some(v) => {
                assert forall|q: int| #[trigger] covers(v@, q) <==> exists|p: int| r.has(p)
                    && #[trigger] chain(mv.take(k + 1), p) == q by {
                    if covers(v@, q) {
                        let c = choose|c: int| covers(cur@, c) && #[trigger] map_point(mv[k as int], c) == q;
                        let p = choose|p: int| r.has(p) && #[trigger] chain(mv.take(k as int), p) == c;
                        lemma_chain_step(mv, k as int, p);
                    }
                    if exists|p: int| r.has(p) && #[trigger] chain(mv.take(k + 1), p) == q {
                        let p = choose|p: int| r.has(p) && #[trigger] chain(mv.take(k + 1), p) == q;
                        lemma_chain_step(mv, k as int, p);
                        assert(covers(cur@, chain(mv.take(k as int), p)));
                    }
                }
                assert forall|p: int, j: int| r.has(p) && 1 <= j <= k + 1 implies i64::MIN
                    <= #[trigger] chain(mv.take(j), p) <= i64::MAX by {
                    if j == k + 1 {
                        lemma_chain_step(mv, k as int, p);
                        assert(covers(cur@, chain(mv.take(k as int), p)));
                        let q = chain(mv.take(k + 1), p);
                        assert(covers(v@, q));
                        let m = choose|m: int| 0 <= m < v@.len() && (#[trigger] v@[m]).has(q);
                    }
                }
                cur = v;
            },
            None => {
                proof {
                    let c = choose|c: int| covers(cur@, c) && !(i64::MIN <= #[trigger] map_point(mv[k as int], c) <= i64::MAX);
                    let p = choose|p: int| r.has(p) && #[trigger] chain(mv.take(k as int), p) == c;
                    lemma_chain_step(mv, k as int, p);
                    assert(!(i64::MIN <= chain(mv.take(k + 1), p) <= i64::MAX));
                    assert(!chain_fits(mv, p));
                }
                return None;
            },
        }
        k = k + 1;
    }
    assert(mv.take(mv.len() as int) == mv);
    assert forall|p: int| r.has(p) implies chain_fits(mv, p) by {
        assert forall|j: int| 1 <= j <= mv.len() implies i64::MIN <= #[trigger] chain(mv.take(j), p) <= i64::MAX by {
        }
    }
    Some(cur)
}


/// Whether `v` is the lowest place that one of the seeds goes to through
/// the maps `ms`.
pub open spec fn lowest_location(ms: Seq<Seq<AlmanacEntry>>, seeds: Seq<i64>, v: int) -> bool {
    &&& exists|i: int| 0 <= i < seeds.len() && #[trigger] chain(ms, seeds[i] as int) == v
    &&& forall|i: int| 0 <= i < seeds.len() ==> v <= #[trigger] chain(ms, seeds[i] as int)
}

/// Whether working out the lowest location of `seeds` through the map texts
/// goes through: the texts are read without an entry whose sums leave
/// `i64`, and where they are all read, there is a seed and no seed leaves
/// `i64` on its way.
pub open spec fn almanac_defined(seeds: Seq<i64>, texts: Seq<Seq<char>>) -> bool {
    match read_maps(texts) {
        Some(Ok(ms)) => seeds.len() > 0 && forall|i: int| 0 <= i < seeds.len() ==> chain_fits(ms, #[trigger] seeds[i] as int),
        Some(Err(_)) => true,
        None => false,
    }
}

/// Whether the seed range `(start, length)` holds `p`.
pub open spec fn seed_range_has(sr: (i64, i64), p: int) -> bool {
    sr.0 <= p <= sr.0 + sr.1 - 1
}

/// Whether `v` is the lowest place that a seed of one of the seed ranges
/// goes to through the maps `ms`.
pub open spec fn lowest_range_location(ms: Seq<Seq<AlmanacEntry>>, srs: Seq<(i64, i64)>, v: int) -> bool {
    &&& exists|i: int, p: int| 0 <= i < srs.len() && #[trigger] seed_range_has(srs[i], p) && chain(ms, p) == v
    &&& forall|i: int, p: int| 0 <= i < srs.len() && #[trigger] seed_range_has(srs[i], p) ==> v <= chain(ms, p)
}

/// Whether working out the lowest location of the seed ranges through the
/// map texts goes through: the texts are read without an entry whose sums
/// leave `i64`, and where they are all read, there is a seed range, each
/// has a length of at least one and an end within `i64`, and no seed of
/// them leaves `i64` on its way.
pub open spec fn almanac_range_defined(srs: Seq<(i64, i64)>, texts: Seq<Seq<char>>) -> bool {
    match read_maps(texts) {
        Some(Ok(ms)) => {
            &&& srs.len() > 0
            &&& forall|i: int| 0 <= i < srs.len() ==> (#[trigger] srs[i]).1 >= 1 && srs[i].0 + srs[i].1 <= i64::MAX
            &&& forall|i: int, p: int| 0 <= i < srs.len() && #[trigger] seed_range_has(srs[i], p) ==> chain_fits(ms, p)
        },
        Some(Err(_)) => true,
        None => false,
    }
}

/// The entries of a map text that reads without a fault.
pub open spec fn entries_of(text: Seq<char>) -> Seq<AlmanacEntry> {
    match read_map(text) {
        Some(Ok(m)) => m,
        _ => Seq::empty(),
    }
}

/// Whether a map text reads without a fault.
pub open spec fn map_reads(text: Seq<char>) -> bool {
    read_map(text) matches Some(Ok(_))
}

/// Where `p` goes through the maps of the texts `t1` to `t7`: first `t1`,
/// then `t2`, and so on, `t7` last.
pub open spec fn location_of(
    t1: Seq<char>,
    t2: Seq<char>,
    t3: Seq<char>,
    t4: Seq<char>,
    t5: Seq<char>,
    t6: Seq<char>,
    t7: Seq<char>,
    p: int,
) -> int {
    map_point(entries_of(t7), map_point(entries_of(t6), map_point(entries_of(t5), map_point(entries_of(t4),
        map_point(entries_of(t3), map_point(entries_of(t2), map_point(entries_of(t1), p)))))))
}

/// Reading the seven map texts reads each of them, in the order of the
/// texts, and a number goes through the maps read in that order: through
/// the first text's map first, through the last text's map last.
pub proof fn lemma_almanac_order(
    t1: Seq<char>,
    t2: Seq<char>,
    t3: Seq<char>,
    t4: Seq<char>,
    t5: Seq<char>,
    t6: Seq<char>,
    t7: Seq<char>,
    ms: Seq<Seq<AlmanacEntry>>,
)
    requires
        read_maps(texts7(t1, t2, t3, t4, t5, t6, t7)) == Some(Ok::<Seq<Seq<AlmanacEntry>>, Seq<char>>(ms)),
    ensures
        map_reads(t1) && map_reads(t2) && map_reads(t3) && map_reads(t4) && map_reads(t5) && map_reads(t6)
            && map_reads(t7),
        ms == seq![entries_of(t1), entries_of(t2), entries_of(t3), entries_of(t4), entries_of(t5), entries_of(t6),
            entries_of(t7)],
        forall|p: int| #[trigger] chain(ms, p) == location_of(t1, t2, t3, t4, t5, t6, t7, p),
{
    let tv = texts7(t1, t2, t3, t4, t5, t6, t7);
    lemma_read_maps_all(tv, ms);
    assert(tv[0] == t1 && tv[1] == t2 && tv[2] == t3 && tv[3] == t4 && tv[4] == t5 && tv[5] == t6 && tv[6] == t7);
    assert(ms =~= seq![entries_of(t1), entries_of(t2), entries_of(t3), entries_of(t4), entries_of(t5), entries_of(t6),
        entries_of(t7)]);
    assert forall|p: int| #[trigger] chain(ms, p) == location_of(t1, t2, t3, t4, t5, t6, t7, p) by {
        assert(ms.take(0) =~= Seq::<Seq<AlmanacEntry>>::empty());
        lemma_chain_step(ms, 0, p);
        lemma_chain_step(ms, 1, p);
        lemma_chain_step(ms, 2, p);
        lemma_chain_step(ms, 3, p);
        lemma_chain_step(ms, 4, p);
        lemma_chain_step(ms, 5, p);
        lemma_chain_step(ms, 6, p);
        assert(ms.take(7) == ms);
    }
}

/// Reading map texts that read without a fault gives the entries of each
/// text, in order.
proof fn lemma_read_maps_all(tv: Seq<Seq<char>>, ms: Seq<Seq<AlmanacEntry>>)
    requires
        read_maps(tv) == Some(Ok::<Seq<Seq<AlmanacEntry>>, Seq<char>>(ms)),
    ensures
        ms.len() == tv.len(),
        forall|k: int| 0 <= k < tv.len() ==> map_reads(#[trigger] tv[k]) && ms[k] == entries_of(tv[k]),
    decreases tv.len(),
{
    if tv.len() > 0 {
        match read_maps(tv.drop_last()) {
            Some(Ok(ms0)) => {
                lemma_read_maps_all(tv.drop_last(), ms0);
                assert(map_reads(tv.last()));
                assert(ms == ms0.push(entries_of(tv.last())));
                assert forall|k: int| 0 <= k < tv.len() implies map_reads(#[trigger] tv[k]) && ms[k] == entries_of(tv[k]) by {
                    if k < tv.len() - 1 {
                        assert(tv[k] == tv.drop_last()[k]);
                    }
                }
            },
            _ => {},
        }
    }
}

/// A seed range `(start, length)` holds the seeds from `start` up to
/// `start + length - 1` and no others: its lowest location is where one of
/// those seeds goes, and no seed of them goes lower.
pub proof fn lemma_range_seeds(ms: Seq<Seq<AlmanacEntry>>, srs: Seq<(i64, i64)>, v: int)
    requires
        lowest_range_location(ms, srs, v),
    ensures
        exists|i: int, p: int|
            #![trigger srs[i], chain(ms, p)]
            0 <= i < srs.len() && srs[i].0 <= p < srs[i].0 + srs[i].1 && chain(ms, p) == v,
        forall|i: int, p: int|
            #![trigger srs[i], chain(ms, p)]
            0 <= i < srs.len() && srs[i].0 <= p < srs[i].0 + srs[i].1 ==> v <= chain(ms, p),
{
    let (i, p) = choose|i: int, p: int| 0 <= i < srs.len() && #[trigger] seed_range_has(srs[i], p) && chain(ms, p) == v;
    assert(srs[i].0 <= p < srs[i].0 + srs[i].1 && chain(ms, p) == v);
    assert forall|j: int, q: int| #![trigger srs[j], chain(ms, q)] 0 <= j < srs.len() && srs[j].0 <= q < srs[j].0 + srs[j].1 implies v <= chain(ms, q) by {
        assert(seed_range_has(srs[j], q));
    }
}

/// Whether `v` is the lowest place that one of the seeds goes to through the
/// maps of the texts `t1` to `t7`, taken in that order.
pub open spec fn lowest_seed_location(
    seeds: Seq<i64>,
    t1: Seq<char>,
    t2: Seq<char>,
    t3: Seq<char>,
    t4: Seq<char>,
    t5: Seq<char>,
    t6: Seq<char>,
    t7: Seq<char>,
    v: int,
) -> bool {
    &&& exists|i: int| 0 <= i < seeds.len() && #[trigger] location_of(t1, t2, t3, t4, t5, t6, t7, seeds[i] as int) == v
    &&& forall|i: int| 0 <= i < seeds.len() ==> v <= #[trigger] location_of(t1, t2, t3, t4, t5, t6, t7, seeds[i] as int)
}

/// Whether `v` is the lowest place that a seed `p` with
/// `start <= p <= start + length - 1` of one of the seed ranges
/// `(start, length)` goes to through the maps of the texts `t1` to `t7`,
/// taken in that order.
pub open spec fn lowest_seed_range_location(
    srs: Seq<(i64, i64)>,
    t1: Seq<char>,
    t2: Seq<char>,
    t3: Seq<char>,
    t4: Seq<char>,
    t5: Seq<char>,
    t6: Seq<char>,
    t7: Seq<char>,
    v: int,
) -> bool {
    &&& exists|i: int, p: int|
        #![trigger srs[i], location_of(t1, t2, t3, t4, t5, t6, t7, p)]
        0 <= i < srs.len() && srs[i].0 <= p <= srs[i].0 + srs[i].1 - 1 && location_of(t1, t2, t3, t4, t5, t6, t7, p) == v
    &&& forall|i: int, p: int|
        #![trigger srs[i], location_of(t1, t2, t3, t4, t5, t6, t7, p)]
        0 <= i < srs.len() && srs[i].0 <= p <= srs[i].0 + srs[i].1 - 1 ==> v <= location_of(t1, t2, t3, t4, t5, t6, t7, p)
}

/// The lowest location of seeds through the maps read from the seven texts
/// is the lowest place the seeds go to through the texts' maps in order.
proof fn lemma_lowest_seed(
    ms: Seq<Seq<AlmanacEntry>>,
    seeds: Seq<i64>,
    t1: Seq<char>,
    t2: Seq<char>,
    t3: Seq<char>,
    t4: Seq<char>,
    t5: Seq<char>,
    t6: Seq<char>,
    t7: Seq<char>,
    v: int,
)
    requires
        read_maps(texts7(t1, t2, t3, t4, t5, t6, t7)) == Some(Ok::<Seq<Seq<AlmanacEntry>>, Seq<char>>(ms)),
        lowest_location(ms, seeds, v),
    ensures
        lowest_seed_location(seeds, t1, t2, t3, t4, t5, t6, t7, v),
{
    lemma_almanac_order(t1, t2, t3, t4, t5, t6, t7, ms);
    let k = choose|k: int| 0 <= k < seeds.len() && #[trigger] chain(ms, seeds[k] as int) == v;
    assert(location_of(t1, t2, t3, t4, t5, t6, t7, seeds[k] as int) == v);
    assert forall|i: int| 0 <= i < seeds.len() implies v <= #[trigger] location_of(t1, t2, t3, t4, t5, t6, t7, seeds[i] as int) by {
        assert(v <= chain(ms, seeds[i] as int));
    }
}

/// The lowest location of seed ranges through the maps read from the seven
/// texts is the lowest place their seeds go to through the texts' maps in
/// order.
proof fn lemma_lowest_seed_range(
    ms: Seq<Seq<AlmanacEntry>>,
    srs: Seq<(i64, i64)>,
    t1: Seq<char>,
    t2: Seq<char>,
    t3: Seq<char>,
    t4: Seq<char>,
    t5: Seq<char>,
    t6: Seq<char>,
    t7: Seq<char>,
    v: int,
)
    requires
        read_maps(texts7(t1, t2, t3, t4, t5, t6, t7)) == Some(Ok::<Seq<Seq<AlmanacEntry>>, Seq<char>>(ms)),
        lowest_range_location(ms, srs, v),
    ensures
        lowest_seed_range_location(srs, t1, t2, t3, t4, t5, t6, t7, v),
{
    lemma_almanac_order(t1, t2, t3, t4, t5, t6, t7, ms);
    lemma_range_seeds(ms, srs, v);
    let (k, q) = choose|k: int, q: int| #![trigger srs[k], chain(ms, q)] 0 <= k < srs.len()
        && srs[k].0 <= q < srs[k].0 + srs[k].1 && chain(ms, q) == v;
    assert(location_of(t1, t2, t3, t4, t5, t6, t7, q) == v);
    assert forall|i: int, p: int| #![trigger srs[i], location_of(t1, t2, t3, t4, t5, t6, t7, p)]
        0 <= i < srs.len() && srs[i].0 <= p <= srs[i].0 + srs[i].1 - 1 implies v <= location_of(t1, t2, t3, t4, t5, t6, t7, p) by {
        assert(chain(ms, p) == location_of(t1, t2, t3, t4, t5, t6, t7, p));
    }
}

/// The lowest location of the seeds through the seven maps, from seed to
/// soil on to humidity to location; `None` where the work does not go
/// through (see `almanac_defined`).
pub fn try_calculate_almanac(
    seeds: &[i64],
    seed_to_soil_data: &str,
    soil_to_fertilizer_data: &str,
    fertilizer_to_water_data: &str,
    water_to_light_data: &str,
    light_to_temperature_data: &str,
    temperature_to_humidity_data: &str,
    humidity_to_location_data: &str,
) -> (res: Option<Result<i64, ParseAlmanacEntryError>>)
    ensures
        res is Some <==> almanac_defined(seeds@, texts7(seed_to_soil_data@, soil_to_fertilizer_data@,
            fertilizer_to_water_data@, water_to_light_data@, light_to_temperature_data@,
            temperature_to_humidity_data@, humidity_to_location_data@)),
        res matches Some(Ok(v)) ==> read_maps(texts7(seed_to_soil_data@, soil_to_fertilizer_data@,
            fertilizer_to_water_data@, water_to_light_data@, light_to_temperature_data@,
            temperature_to_humidity_data@, humidity_to_location_data@)) matches Some(Ok(ms))
            && lowest_location(ms, seeds@, v as int),
        res matches Some(Err(e)) ==> read_maps(texts7(seed_to_soil_data@, soil_to_fertilizer_data@,
            fertilizer_to_water_data@, water_to_light_data@, light_to_temperature_data@,
            temperature_to_humidity_data@, humidity_to_location_data@)) == Some(Err::<Seq<Seq<AlmanacEntry>>, Seq<char>>(e.0@)),
        res matches Some(Ok(v)) ==> lowest_seed_location(seeds@, seed_to_soil_data@, soil_to_fertilizer_data@, fertilizer_to_water_data@, water_to_light_data@,
            light_to_temperature_data@, temperature_to_humidity_data@, humidity_to_location_data@, v as int),
{
    let texts = vec![
        seed_to_soil_data,
        soil_to_fertilizer_data,
        fertilizer_to_water_data,
        water_to_light_data,
        light_to_temperature_data,
        temperature_to_humidity_data,
        humidity_to_location_data,
    ];
    let ghost tv = texts7(seed_to_soil_data@, soil_to_fertilizer_data@, fertilizer_to_water_data@,
        water_to_light_data@, light_to_temperature_data@, temperature_to_humidity_data@,
        humidity_to_location_data@);
    assert(str_views(texts@) =~= tv);
    let maps = match read_all_maps(&texts) {
        Some(Ok(ms)) => ms,
        Some(Err(e)) => {
            return Some(Err(e));
        },
        None => {
            return None;
        },
    };
    let ghost mv = map_views(maps@);
    if seeds.len() == 0 {
        return None;
    }
    let mut best = match locate(&maps, seeds[0]) {
        Some(v) => v,
        None => {
            assert(!chain_fits(mv, seeds@[0] as int));
            assert(read_maps(tv) == Some(Ok::<Seq<Seq<AlmanacEntry>>, Seq<char>>(mv)));
            assert(!almanac_defined(seeds@, tv));
            return None;
        },
    };
    let mut i: usize = 1;
    while i < seeds.len()
        invariant
            1 <= i <= seeds@.len(),
            mv == map_views(maps@),
            tv == texts7(seed_to_soil_data@, soil_to_fertilizer_data@, fertilizer_to_water_data@,
                water_to_light_data@, light_to_temperature_data@, temperature_to_humidity_data@,
                humidity_to_location_data@),
            read_maps(tv) == Some(Ok::<Seq<Seq<AlmanacEntry>>, Seq<char>>(mv)),
            forall|j: int| 0 <= j < i ==> #[trigger] chain_fits(mv, seeds@[j] as int),
            exists|j: int| 0 <= j < i && #[trigger] chain(mv, seeds@[j] as int) == best,
            forall|j: int| 0 <= j < i ==> best <= #[trigger] chain(mv, seeds@[j] as int),
        decreases seeds@.len() - i,
    {
        let loc = match locate(&maps, seeds[i]) {
            Some(v) => v,
            None => {
                assert(!chain_fits(mv, seeds@[i as int] as int));
                return None;
            },
        };
        if loc < best {
            best = loc;
        }
        i = i + 1;
    }
    proof {
        lemma_lowest_seed(mv, seeds@, seed_to_soil_data@, soil_to_fertilizer_data@, fertilizer_to_water_data@, water_to_light_data@, light_to_temperature_data@, temperature_to_humidity_data@, humidity_to_location_data@, best as int);
    }
    Some(Ok(best))
}

/// The lowest location of the seeds through the seven maps, from seed to
/// soil on to humidity to location, or the first line of the maps that is
/// no entry.
pub fn calculate_almanac(
    seeds: &[i64],
    seed_to_soil_data: &str,
    soil_to_fertilizer_data: &str,
    fertilizer_to_water_data: &str,
    water_to_light_data: &str,
    light_to_temperature_data: &str,
    temperature_to_humidity_data: &str,
    humidity_to_location_data: &str,
) -> (res: Result<i64, ParseAlmanacEntryError>)
    requires
        almanac_defined(seeds@, texts7(seed_to_soil_data@, soil_to_fertilizer_data@,
            fertilizer_to_water_data@, water_to_light_data@, light_to_temperature_data@,
            temperature_to_humidity_data@, humidity_to_location_data@)),
    ensures
        res matches Ok(v) ==> read_maps(texts7(seed_to_soil_data@, soil_to_fertilizer_data@,
            fertilizer_to_water_data@, water_to_light_data@, light_to_temperature_data@,
            temperature_to_humidity_data@, humidity_to_location_data@)) matches Some(Ok(ms))
            && lowest_location(ms, seeds@, v as int),
        res matches Err(e) ==> read_maps(texts7(seed_to_soil_data@, soil_to_fertilizer_data@,
            fertilizer_to_water_data@, water_to_light_data@, light_to_temperature_data@,
            temperature_to_humidity_data@, humidity_to_location_data@)) == Some(Err::<Seq<Seq<AlmanacEntry>>, Seq<char>>(e.0@)),
        res matches Ok(v) ==> lowest_seed_location(seeds@, seed_to_soil_data@, soil_to_fertilizer_data@, fertilizer_to_water_data@, water_to_light_data@,
            light_to_temperature_data@, temperature_to_humidity_data@, humidity_to_location_data@, v as int),
{
    match try_calculate_almanac(seeds, seed_to_soil_data, soil_to_fertilizer_data,
        fertilizer_to_water_data, water_to_light_data, light_to_temperature_data,
        temperature_to_humidity_data, humidity_to_location_data) {
        Some(r) => r,
        None => Ok(0),
    }
}

/// The lowest place that the numbers of `r` go to through the maps;
/// `None` where one of them leaves `i64` on its way.
fn lowest_of_range(maps: &Vec<AlmanacMap>, r: Range) -> (res: Option<i64>)
    requires
        r.0 <= r.1,
        forall|k: int| 0 <= k < maps@.len() ==> entries_sorted(#[trigger] maps@[k].ranges@),
    ensures
        res is None <==> exists|p: int| r.has(p) && !chain_fits(map_views(maps@), p),
        res matches Some(v) ==> exists|p: int| r.has(p) && #[trigger] chain(map_views(maps@), p) == v,
        res matches Some(v) ==> forall|p: int| #[trigger] r.has(p) ==> v <= chain(map_views(maps@), p),
{
    let ghost mv = map_views(maps@);
    let location = match locate_range(maps, r) {
        Some(v) => v,
        None => {
            return None;
        },
    };
    assert(covers(location@, chain(mv, r.0 as int)));
    let mut m = location[0].0;
    let mut i: usize = 1;
    while i < location.len()
        invariant
            1 <= i <= location@.len(),
            normalized(location@),
            exists|j: int| 0 <= j < i && (#[trigger] location@[j]).0 == m,
            forall|j: int| 0 <= j < i ==> m <= (#[trigger] location@[j]).0,
        decreases location@.len() - i,
    {
        if location[i].0 < m {
            m = location[i].0;
        }
        i = i + 1;
    }
    let ghost j = choose|j: int| 0 <= j < location@.len() && (#[trigger] location@[j]).0 == m;
    assert(location@[j].has(m as int));
    assert(covers(location@, m as int));
    assert forall|p: int| #[trigger] r.has(p) implies m <= chain(mv, p) by {
        assert(covers(location@, chain(mv, p)));
        let k = choose|k: int| 0 <= k < location@.len() && (#[trigger] location@[k]).has(chain(mv, p));
    }
    Some(m)
}

/// Seed ranges of length one give the same lowest location as the seeds
/// that they start at.
pub proof fn lemma_single_seed_ranges(ms: Seq<Seq<AlmanacEntry>>, seeds: Seq<i64>, srs: Seq<(i64, i64)>, v: int)
    requires
        srs.len() == seeds.len(),
        forall|i: int| 0 <= i < srs.len() ==> #[trigger] srs[i] == (seeds[i], 1i64),
    ensures
        lowest_range_location(ms, srs, v) <==> lowest_location(ms, seeds, v),
{
    assert forall|i: int, p: int| 0 <= i < srs.len() implies #[trigger] seed_range_has(srs[i], p) <==> p == seeds[i] by {
        assert(srs[i] == (seeds[i], 1i64));
    }
    if lowest_location(ms, seeds, v) {
        let i = choose|i: int| 0 <= i < seeds.len() && #[trigger] chain(ms, seeds[i] as int) == v;
        assert(seed_range_has(srs[i], seeds[i] as int));
        assert forall|j: int, p: int| 0 <= j < srs.len() && #[trigger] seed_range_has(srs[j], p) implies v <= chain(ms, p) by {
            assert(p == seeds[j]);
        }
    }
    if lowest_range_location(ms, srs, v) {
        let (i, p) = choose|i: int, p: int| 0 <= i < srs.len() && #[trigger] seed_range_has(srs[i], p) && chain(ms, p) == v;
        assert(p == seeds[i]);
        assert forall|j: int| 0 <= j < seeds.len() implies v <= #[trigger] chain(ms, seeds[j] as int) by {
            assert(seed_range_has(srs[j], seeds[j] as int));
        }
    }
}

/// The lowest location of the seeds of the seed ranges `(start, length)`
/// through the seven maps; `None` where the work does not go through (see
/// `almanac_range_defined`).
pub fn try_calculate_almanac_range(
    seeds_range: &[(i64, i64)],
    seed_to_soil_data: &str,
    soil_to_fertilizer_data: &str,
    fertilizer_to_water_data: &str,
    water_to_light_data: &str,
    light_to_temperature_data: &str,
    temperature_to_humidity_data: &str,
    humidity_to_location_data: &str,
) -> (res: Option<Result<i64, ParseAlmanacEntryError>>)
    ensures
        res is Some <==> almanac_range_defined(seeds_range@, texts7(seed_to_soil_data@,
            soil_to_fertilizer_data@, fertilizer_to_water_data@, water_to_light_data@,
            light_to_temperature_data@, temperature_to_humidity_data@, humidity_to_location_data@)),
        res matches Some(Ok(v)) ==> read_maps(texts7(seed_to_soil_data@, soil_to_fertilizer_data@,
            fertilizer_to_water_data@, water_to_light_data@, light_to_temperature_data@,
            temperature_to_humidity_data@, humidity_to_location_data@)) matches Some(Ok(ms))
            && lowest_range_location(ms, seeds_range@, v as int),
        res matches Some(Err(e)) ==> read_maps(texts7(seed_to_soil_data@, soil_to_fertilizer_data@,
            fertilizer_to_water_data@, water_to_light_data@, light_to_temperature_data@,
            temperature_to_humidity_data@, humidity_to_location_data@)) == Some(Err::<Seq<Seq<AlmanacEntry>>, Seq<char>>(e.0@)),
        res matches Some(Ok(v)) ==> lowest_seed_range_location(seeds_range@, seed_to_soil_data@, soil_to_fertilizer_data@, fertilizer_to_water_data@, water_to_light_data@,
            light_to_temperature_data@, temperature_to_humidity_data@, humidity_to_location_data@, v as int),
{
    let texts = vec![
        seed_to_soil_data,
        soil_to_fertilizer_data,
        fertilizer_to_water_data,
        water_to_light_data,
        light_to_temperature_data,
        temperature_to_humidity_data,
        humidity_to_location_data,
    ];
    let ghost tv = texts7(seed_to_soil_data@, soil_to_fertilizer_data@, fertilizer_to_water_data@,
        water_to_light_data@, light_to_temperature_data@, temperature_to_humidity_data@,
        humidity_to_location_data@);
    assert(str_views(texts@) =~= tv);
    let maps = match read_all_maps(&texts) {
        Some(Ok(ms)) => ms,
        Some(Err(e)) => {
            return Some(Err(e));
        },
        None => {
            return None;
        },
    };
    let ghost mv = map_views(maps@);
    let ghost srs = seeds_range@;
    let mut best: i64 = 0;
    let mut i: usize = 0;
    while i < seeds_range.len()
        invariant
            i <= srs.len(),
            srs == seeds_range@,
            mv == map_views(maps@),
            tv == texts7(seed_to_soil_data@, soil_to_fertilizer_data@, fertilizer_to_water_data@,
                water_to_light_data@, light_to_temperature_data@, temperature_to_humidity_data@,
                humidity_to_location_data@),
            read_maps(tv) == Some(Ok::<Seq<Seq<AlmanacEntry>>, Seq<char>>(mv)),
            forall|k: int| 0 <= k < maps@.len() ==> entries_sorted(#[trigger] maps@[k].ranges@),
            forall|j: int| 0 <= j < i ==> (#[trigger] srs[j]).1 >= 1 && srs[j].0 + srs[j].1 <= i64::MAX,
            forall|j: int, p: int| 0 <= j < i && #[trigger] seed_range_has(srs[j], p) ==> chain_fits(mv, p),
            i > 0 ==> exists|j: int, p: int| 0 <= j < i && #[trigger] seed_range_has(srs[j], p) && chain(mv, p) == best,
            forall|j: int, p: int| 0 <= j < i && #[trigger] seed_range_has(srs[j], p) ==> best <= chain(mv, p),
        decreases srs.len() - i,
    {
        let (start, len) = seeds_range[i];
        if len < 1 {
            assert(srs[i as int].1 < 1);
            return None;
        }
        let end = match start.checked_add(len) {
            Some(e) => e,
            None => {
                assert(srs[i as int].0 + srs[i as int].1 > i64::MAX);
                return None;
            },
        };
        let range = Range(start, end - 1);
        assert forall|p: int| range.has(p) <==> seed_range_has(srs[i as int], p) by {}
        let low = match lowest_of_range(&maps, range) {
            Some(v) => v,
            None => {
                proof {
                    let p = choose|p: int| range.has(p) && !chain_fits(mv, p);
                    assert(seed_range_has(srs[i as int], p));
                }
                return None;
            },
        };
        if i == 0 || low < best {
            best = low;
        }
        proof {
            let p = choose|p: int| range.has(p) && #[trigger] chain(mv, p) == low;
            assert(seed_range_has(srs[i as int], p));
            assert forall|j: int, q: int| 0 <= j < i + 1 && #[trigger] seed_range_has(srs[j], q) implies
                chain_fits(mv, q) && best <= chain(mv, q) by {
                if j == i {
                    assert(range.has(q));
                }
            }
        }
        i = i + 1;
    }
    if seeds_range.len() == 0 {
        return None;
    }
    proof {
        lemma_lowest_seed_range(mv, seeds_range@, seed_to_soil_data@, soil_to_fertilizer_data@, fertilizer_to_water_data@, water_to_light_data@, light_to_temperature_data@, temperature_to_humidity_data@, humidity_to_location_data@, best as int);
    }
    Some(Ok(best))
}

/// The lowest location of the seeds of the seed ranges `(start, length)`
/// through the seven maps, or the first line of the maps that is no entry.
pub fn calculate_almanac_range(
    seeds_range: &[(i64, i64)],
    seed_to_soil_data: &str,
    soil_to_fertilizer_data: &str,
    fertilizer_to_water_data: &str,
    water_to_light_data: &str,
    light_to_temperature_data: &str,
    temperature_to_humidity_data: &str,
    humidity_to_location_data: &str,
) -> (res: Result<i64, ParseAlmanacEntryError>)
    requires
        almanac_range_defined(seeds_range@, texts7(seed_to_soil_data@, soil_to_fertilizer_data@,
            fertilizer_to_water_data@, water_to_light_data@, light_to_temperature_data@,
            temperature_to_humidity_data@, humidity_to_location_data@)),
    ensures
        res matches Ok(v) ==> read_maps(texts7(seed_to_soil_data@, soil_to_fertilizer_data@,
            fertilizer_to_water_data@, water_to_light_data@, light_to_temperature_data@,
            temperature_to_humidity_data@, humidity_to_location_data@)) matches Some(Ok(ms))
            && lowest_range_location(ms, seeds_range@, v as int),
        res matches Err(e) ==> read_maps(texts7(seed_to_soil_data@, soil_to_fertilizer_data@,
            fertilizer_to_water_data@, water_to_light_data@, light_to_temperature_data@,
            temperature_to_humidity_data@, humidity_to_location_data@)) == Some(Err::<Seq<Seq<AlmanacEntry>>, Seq<char>>(e.0@)),
        res matches Ok(v) ==> lowest_seed_range_location(seeds_range@, seed_to_soil_data@, soil_to_fertilizer_data@, fertilizer_to_water_data@, water_to_light_data@,
            light_to_temperature_data@, temperature_to_humidity_data@, humidity_to_location_data@, v as int),
{
    match try_calculate_almanac_range(seeds_range, seed_to_soil_data, soil_to_fertilizer_data,
        fertilizer_to_water_data, water_to_light_data, light_to_temperature_data,
        temperature_to_humidity_data, humidity_to_location_data) {
        Some(r) => r,
        None => Ok(0),
    }
}

} // verus!
