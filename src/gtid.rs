//! GTID sets: for each source UUID, the sorted, disjoint, non-touching list of
//! transaction-number ranges it has executed; parsed from and printed to the
//! canonical `uuid:a-b:c,uuid2:d` text.

use vstd::prelude::*;
use crate::error::CdcError;
use crate::text::{
    chars_of, compare_text, dec, find_char, find_spec, is_space, parse_u64, parse_u64_spec,
    split_chars, split_spec, string_from_chars, text_lt, trim, trim_range, u64_digits,
    lemma_text_lt_irreflexive, lemma_text_lt_transitive,
};

verus! {

/// A closed interval `[start, end]` of transaction numbers.
#[derive(Debug, Clone, Copy, PartialEq, Eq, Structural)]
pub struct GtidRange {
    pub start: u64,
    pub end: u64,
}

impl GtidRange {
    pub open spec fn has(self, n: int) -> bool {
        self.start <= n <= self.end
    }

    /// Two ranges merge when they overlap or touch.
    pub open spec fn touches(self, o: GtidRange) -> bool {
        self.end + 1 >= o.start && o.end + 1 >= self.start
    }

    pub open spec fn valid(self) -> bool {
        1 <= self.start <= self.end
    }

    /// The range `[start, end]`; an error unless `1 <= start <= end`.
    pub fn new(start: u64, end: u64) -> (r: Result<GtidRange, CdcError>)
        ensures
            (1 <= start <= end) ==> r == Ok::<GtidRange, CdcError>(GtidRange { start, end }),
            !(1 <= start <= end) ==> r is Err && r->Err_0 is GtidError,
    {
        if start == 0 || start > end {
            return Err(CdcError::GtidError("invalid range: need 1 <= start <= end".to_owned()));
        }
        Ok(GtidRange { start, end })
    }

    pub fn contains(&self, value: u64) -> (r: bool)
        ensures
            r == self.has(value as int),
    {
        value >= self.start && value <= self.end
    }

    /// The union of the two ranges when they overlap or touch, else `None`.
    pub fn merge(&self, other: &GtidRange) -> (r: Option<GtidRange>)
        ensures
            self.touches(*other) ==> r == Some(
                GtidRange {
                    start: if self.start <= other.start { self.start } else { other.start },
                    end: if self.end >= other.end { self.end } else { other.end },
                },
            ),
            !self.touches(*other) ==> r is None,
    {
        let a = self.end == u64::MAX || self.end + 1 >= other.start;
        let b = other.end == u64::MAX || other.end + 1 >= self.start;
        if a && b {
            Some(
                GtidRange {
                    start: if self.start <= other.start { self.start } else { other.start },
                    end: if self.end >= other.end { self.end } else { other.end },
                },
            )
        } else {
            None
        }
    }
}

/// `n` lies in one of the ranges.
pub open spec fn in_ranges(rs: Seq<GtidRange>, n: int) -> bool {
    exists|k: int| 0 <= k < rs.len() && (#[trigger] rs[k]).has(n)
}

/// `n` lies in one of the ranges with index in `[lo, hi)`.
pub open spec fn in_ranges_between(rs: Seq<GtidRange>, lo: int, hi: int, n: int) -> bool {
    exists|k: int| lo <= k < hi && (#[trigger] rs[k]).has(n)
}

/// Valid ranges in ascending order, neither overlapping nor touching.
pub open spec fn canonical(rs: Seq<GtidRange>) -> bool {
    &&& forall|k: int| 0 <= k < rs.len() ==> (#[trigger] rs[k]).valid()
    &&& forall|i: int, j: int| 0 <= i < j < rs.len() ==> rs[i].end + 1 < rs[j].start
}

/// Inserts range `a` into a canonical list, merging what it overlaps or touches.
#[verifier::rlimit(60)]
fn insert_range(rs: &Vec<GtidRange>, a: GtidRange) -> (r: Vec<GtidRange>)
    requires
        canonical(rs@),
        a.valid(),
    ensures
        canonical(r@),
        forall|n: int| #[trigger] in_ranges(r@, n) <==> (in_ranges(rs@, n) || a.has(n)),
{
    let len = rs.len();
    let mut out: Vec<GtidRange> = Vec::new();
    let mut i: usize = 0;
    while i < len && rs[i].end < a.start - 1
        invariant
            len == rs@.len(),
            i <= len,
            a.valid(),
            canonical(rs@),
            out@ == rs@.subrange(0, i as int),
            forall|k: int| 0 <= k < i ==> rs@[k].end + 1 < a.start,
        decreases len - i,
    {
        out.push(rs[i]);
        i = i + 1;
        assert(out@ =~= rs@.subrange(0, i as int));
    }
    let first = i;
    let mut lo = a.start;
    let mut hi = a.end;
    while i < len && rs[i].start - 1 <= hi
        invariant
            len == rs@.len(),
            first <= i <= len,
            a.valid(),
            canonical(rs@),
            out@ == rs@.subrange(0, first as int),
            1 <= lo <= a.start,
            a.end <= hi,
            forall|k: int| 0 <= k < first ==> rs@[k].end + 1 < a.start,
            forall|k: int| 0 <= k < first ==> rs@[k].end + 1 < lo,
            first < len ==> rs@[first as int].end + 1 >= a.start,
            i > first ==> lo <= rs@[first as int].start,
            forall|k: int| first <= k < i ==> rs@[k].end <= hi,
            forall|n: int|
                (lo <= n <= hi) <==> (a.has(n) || #[trigger] in_ranges_between(
                    rs@,
                    first as int,
                    i as int,
                    n,
                )),
        decreases len - i,
    {
        let s = rs[i].start;
        let e = rs[i].end;
        assert(e + 1 >= lo) by {
            if i > first {
                assert(rs@[first as int].end + 1 < rs@[i as int].start);
            }
        }
        proof {
            assert forall|n: int|
                ((if s < lo { s } else { lo }) <= n <= (if e > hi { e } else { hi })) <==> (a.has(n)
                    || in_ranges_between(rs@, first as int, i + 1, n)) by {
                if in_ranges_between(rs@, first as int, i + 1, n) && !in_ranges_between(
                    rs@,
                    first as int,
                    i as int,
                    n,
                ) {
                    let k = choose|k: int| first <= k < i + 1 && (#[trigger] rs@[k]).has(n);
                    assert(k == i);
                }
                if in_ranges_between(rs@, first as int, i as int, n) {
                    let k = choose|k: int| first <= k < i && (#[trigger] rs@[k]).has(n);
                    assert(first <= k < i + 1 && rs@[k].has(n));
                }
                if rs@[i as int].has(n) {
                    assert(first <= i < i + 1 && rs@[i as int].has(n));
                }
            }
        }
        if s < lo {
            lo = s;
        }
        if e > hi {
            hi = e;
        }
        i = i + 1;
    }
    let m = GtidRange { start: lo, end: hi };
    out.push(m);
    let mid = i;
    let ghost head = out@;
    while i < len
        invariant
            len == rs@.len(),
            mid <= i <= len,
            head == rs@.subrange(0, first as int).push(m),
            out@ == head + rs@.subrange(mid as int, i as int),
        decreases len - i,
    {
        out.push(rs[i]);
        i = i + 1;
        assert(out@ =~= head + rs@.subrange(mid as int, i as int));
    }
    proof {
        let o = out@;
        assert(o.len() == first + 1 + (len - mid));
        assert forall|k: int| 0 <= k < o.len() implies (k < first ==> o[k] == rs@[k]) && (k
            == first ==> o[k] == m) && (k > first ==> o[k] == rs@[k - first - 1 + mid]) by {
            if k < first {
                assert(o[k] == head[k]);
            } else if k == first {
                assert(o[k] == head[k]);
            } else {
                assert(o[k] == rs@.subrange(mid as int, len as int)[k - first - 1]);
            }
        }
        assert forall|p: int, q: int| 0 <= p < q < o.len() implies o[p].end + 1 < o[q].start by {
            if q > first {
                assert(mid < len);
                assert(!(rs@[mid as int].start - 1 <= hi));
                if q - first - 1 + mid > mid {
                    assert(rs@[mid as int].end + 1 < rs@[q - first - 1 + mid].start);
                }
            }
            if p < first && q == first {
            }
        }
        assert forall|k: int| 0 <= k < o.len() implies (#[trigger] o[k]).valid() by {}
        assert forall|n: int| #[trigger] in_ranges(o, n) <==> (in_ranges(rs@, n) || a.has(n)) by {
            if in_ranges(o, n) {
                let k = choose|k: int| 0 <= k < o.len() && (#[trigger] o[k]).has(n);
                if k < first {
                    assert(rs@[k].has(n));
                } else if k == first {
                    if !a.has(n) {
                        assert(in_ranges_between(rs@, first as int, mid as int, n));
                        let j = choose|j: int| first <= j < mid && (#[trigger] rs@[j]).has(n);
                        assert(rs@[j].has(n));
                    }
                } else {
                    assert(rs@[k - first - 1 + mid].has(n));
                }
            }
            if in_ranges(rs@, n) {
                let k = choose|k: int| 0 <= k < rs@.len() && (#[trigger] rs@[k]).has(n);
                if k < first {
                    assert(o[k].has(n));
                } else if k < mid {
                    assert(in_ranges_between(rs@, first as int, mid as int, n));
                    assert(o[first as int].has(n));
                } else {
                    assert(o[k + first + 1 - mid].has(n));
                }
            }
            if a.has(n) {
                assert(o[first as int].has(n));
            }
        }
    }
    out
}

/// Removes range `b` from a canonical list; a covered range may split in two.
#[verifier::rlimit(60)]
fn subtract_range(rs: &Vec<GtidRange>, b: GtidRange) -> (r: Vec<GtidRange>)
    requires
        canonical(rs@),
        b.valid(),
    ensures
        canonical(r@),
        forall|n: int| #[trigger] in_ranges(r@, n) <==> (in_ranges(rs@, n) && !b.has(n)),
{
    let len = rs.len();
    let mut out: Vec<GtidRange> = Vec::new();
    let mut i: usize = 0;
    while i < len
        invariant
            len == rs@.len(),
            i <= len,
            canonical(rs@),
            b.valid(),
            canonical(out@),
            forall|k: int, j: int|
                #![trigger out@[k], rs@[j]]
                0 <= k < out@.len() && i <= j < len ==> out@[k].end + 1 < rs@[j].start,
            forall|n: int|
                #[trigger] in_ranges(out@, n) <==> (in_ranges_between(rs@, 0, i as int, n) && !b.has(
                    n,
                )),
        decreases len - i,
    {
        let r = rs[i];
        let ghost before = out@;
        assert(forall|k: int| 0 <= k < before.len() ==> before[k].end + 1 < rs@[i as int].start);
        if r.end < b.start || r.start > b.end {
            out.push(r);
        } else {
            if r.start < b.start {
                out.push(GtidRange { start: r.start, end: b.start - 1 });
            }
            if r.end > b.end {
                out.push(GtidRange { start: b.end + 1, end: r.end });
            }
        }
        proof {
            assert forall|k: int| 0 <= k < out@.len() implies (#[trigger] out@[k]).valid()
                && (k >= before.len() ==> r.start <= out@[k].start && out@[k].end <= r.end) by {
                if k < before.len() {
                    assert(out@[k] == before[k]);
                }
            }
            assert forall|p: int, q: int| 0 <= p < q < out@.len() implies out@[p].end + 1
                < out@[q].start by {
                if q < before.len() {
                    assert(out@[p] == before[p] && out@[q] == before[q]);
                } else if p < before.len() {
                    assert(out@[p] == before[p]);
                    assert(before[p].end + 1 < rs@[i as int].start);
                }
            }
            assert forall|k: int, j: int|
                #![trigger out@[k], rs@[j]]
                0 <= k < out@.len() && i + 1 <= j < len implies out@[k].end + 1 < rs@[j].start by {
                if k < before.len() {
                    assert(out@[k] == before[k]);
                } else {
                    assert(rs@[i as int].end + 1 < rs@[j].start);
                }
            }
            assert forall|n: int|
                #[trigger] in_ranges(out@, n) <==> (in_ranges_between(rs@, 0, i + 1, n) && !b.has(n)) by {
                if in_ranges(out@, n) {
                    let k = choose|k: int| 0 <= k < out@.len() && (#[trigger] out@[k]).has(n);
                    if k < before.len() {
                        assert(before[k].has(n));
                        assert(in_ranges(before, n));
                        assert(in_ranges_between(rs@, 0, i as int, n));
                        let j = choose|j: int| 0 <= j < i && (#[trigger] rs@[j]).has(n);
                        assert(0 <= j < i + 1);
                    } else {
                        assert(rs@[i as int].has(n));
                    }
                }
                if in_ranges_between(rs@, 0, i + 1, n) && !b.has(n) {
                    let j = choose|j: int| 0 <= j < i + 1 && (#[trigger] rs@[j]).has(n);
                    if j < i {
                        assert(in_ranges_between(rs@, 0, i as int, n));
                        assert(in_ranges(before, n));
                        let k = choose|k: int| 0 <= k < before.len() && (#[trigger] before[k]).has(n);
                        assert(out@[k] == before[k]);
                    } else {
                        if r.end < b.start || r.start > b.end {
                            assert(out@[before.len() as int].has(n));
                        } else if n < b.start {
                            assert(out@[before.len() as int].has(n));
                        } else {
                            assert(out@[out@.len() - 1].has(n));
                        }
                    }
                }
            }
        }
        i = i + 1;
    }
    proof {
        assert forall|n: int| #[trigger] in_ranges(rs@, n) <==> in_ranges_between(rs@, 0, len as int, n) by {
            if in_ranges(rs@, n) {
                let k = choose|k: int| 0 <= k < rs@.len() && (#[trigger] rs@[k]).has(n);
                assert(0 <= k < len);
            }
        }
    }
    out
}

/// Copies a list of ranges.
fn copy_ranges(rs: &Vec<GtidRange>) -> (r: Vec<GtidRange>)
    ensures
        r@ == rs@,
{
    let mut out: Vec<GtidRange> = Vec::new();
    let mut i: usize = 0;
    while i < rs.len()
        invariant
            i <= rs@.len(),
            out@ == rs@.subrange(0, i as int),
        decreases rs@.len() - i,
    {
        out.push(rs[i]);
        i = i + 1;
        assert(out@ =~= rs@.subrange(0, i as int));
    }
    assert(out@ =~= rs@);
    out
}

/// Text of one range: `N` for a singleton, else `N-M`.
pub open spec fn range_text(r: GtidRange) -> Seq<char> {
    if r.start == r.end {
        dec(r.start as nat)
    } else {
        dec(r.start as nat) + seq!['-'] + dec(r.end as nat)
    }
}

/// Texts of the ranges, separated by `:`.
pub open spec fn ranges_text(rs: Seq<GtidRange>) -> Seq<char>
    decreases rs.len(),
{
    if rs.len() == 0 {
        Seq::empty()
    } else if rs.len() == 1 {
        range_text(rs[0])
    } else {
        ranges_text(rs.drop_last()) + seq![':'] + range_text(rs.last())
    }
}

fn push_chars(out: &mut Vec<char>, src: &Vec<char>)
    ensures
        final(out)@ == old(out)@ + src@,
{
    let mut i: usize = 0;
    while i < src.len()
        invariant
            i <= src@.len(),
            out@ == old(out)@ + src@.subrange(0, i as int),
        decreases src@.len() - i,
    {
        out.push(src[i]);
        i = i + 1;
        assert(out@ =~= old(out)@ + src@.subrange(0, i as int));
    }
    assert(src@.subrange(0, src@.len() as int) =~= src@);
}

fn push_range_text(out: &mut Vec<char>, r: GtidRange)
    ensures
        final(out)@ == old(out)@ + range_text(r),
{
    let a = u64_digits(r.start);
    push_chars(out, &a);
    if r.start != r.end {
        out.push('-');
        let b = u64_digits(r.end);
        push_chars(out, &b);
        assert(final(out)@ =~= old(out)@ + range_text(r));
    }
}

fn push_ranges_text(out: &mut Vec<char>, rs: &Vec<GtidRange>)
    ensures
        final(out)@ == old(out)@ + ranges_text(rs@),
{
    let ghost start = out@;
    let mut i: usize = 0;
    while i < rs.len()
        invariant
            i <= rs@.len(),
            out@ == start + ranges_text(rs@.subrange(0, i as int)),
            start == old(out)@,
        decreases rs@.len() - i,
    {
        let ghost pre = rs@.subrange(0, i as int);
        assert(rs@.subrange(0, i + 1).drop_last() =~= pre);
        if i > 0 {
            out.push(':');
        }
        push_range_text(out, rs[i]);
        proof {
            if i == 0 {
                assert(pre =~= Seq::<GtidRange>::empty());
            }
        }
        assert(out@ =~= start + ranges_text(rs@.subrange(0, i + 1)));
        i = i + 1;
    }
    assert(rs@.subrange(0, rs@.len() as int) =~= rs@);
}

/// The ranges executed for one source UUID.
#[derive(Debug, Clone)]
pub struct UUIDGtidSet {
    pub uuid: String,
    pub ranges: Vec<GtidRange>,
}

impl UUIDGtidSet {
    pub open spec fn wf(&self) -> bool {
        canonical(self.ranges@)
    }

    pub open spec fn has(&self, n: int) -> bool {
        in_ranges(self.ranges@, n)
    }

    pub fn new(uuid: String) -> (r: UUIDGtidSet)
        ensures
            r.uuid == uuid,
            r.ranges@.len() == 0,
            r.wf(),
    {
        UUIDGtidSet { uuid, ranges: Vec::new() }
    }

    /// Adds transaction `sequence`, merging with the ranges it touches.
    /// Sequence numbers start at 1: zero is refused.
    pub fn add_gtid(&mut self, sequence: u64) -> (r: Result<(), CdcError>)
        requires
            old(self).wf(),
        ensures
            final(self).wf(),
            final(self).uuid == old(self).uuid,
            sequence == 0 ==> r is Err && r->Err_0 is GtidError && final(self).ranges@ == old(
                self,
            ).ranges@,
            sequence > 0 ==> r is Ok && forall|n: int|
                #[trigger] final(self).has(n) <==> (old(self).has(n) || n == sequence),
    {
        if sequence == 0 {
            return Err(CdcError::GtidError("transaction number 0 is not valid".to_owned()));
        }
        let g = GtidRange { start: sequence, end: sequence };
        assert(forall|n: int| g.has(n) <==> n == sequence);
        let merged = insert_range(&self.ranges, g);
        self.ranges = merged;
        Ok(())
    }

    /// Binary search over the ascending ranges.
    pub fn contains(&self, sequence: u64) -> (r: bool)
        requires
            self.wf(),
        ensures
            r == self.has(sequence as int),
    {
        let mut lo: usize = 0;
        let mut hi: usize = self.ranges.len();
        while lo < hi
            invariant
                self.wf(),
                lo <= hi <= self.ranges@.len(),
                forall|k: int| 0 <= k < lo ==> (#[trigger] self.ranges@[k]).end < sequence,
                forall|k: int| hi <= k < self.ranges@.len() ==> (#[trigger] self.ranges@[k]).start
                    > sequence,
            decreases hi - lo,
        {
            let mid = lo + (hi - lo) / 2;
            let r = self.ranges[mid];
            if r.end < sequence {
                assert forall|k: int| 0 <= k < mid + 1 implies (#[trigger] self.ranges@[k]).end
                    < sequence by {
                    if k < mid {
                        assert(self.ranges@[k].end + 1 < self.ranges@[mid as int].start);
                    }
                }
                lo = mid + 1;
            } else if r.start > sequence {
                assert forall|k: int| mid <= k < self.ranges@.len() implies (
                #[trigger] self.ranges@[k]).start > sequence by {
                    if k > mid {
                        assert(self.ranges@[mid as int].end + 1 < self.ranges@[k].start);
                    }
                }
                hi = mid;
            } else {
                assert(self.ranges@[mid as int].has(sequence as int));
                return true;
            }
        }
        false
    }

    /// The ranges as text, `:`-separated, singletons as `N`.
    pub fn to_string(&self) -> (r: String)
        ensures
            r@ == ranges_text(self.ranges@),
    {
        let mut out: Vec<char> = Vec::new();
        push_ranges_text(&mut out, &self.ranges);
        string_from_chars(&out)
    }
}

/// A source UUID as it may stand in GTID text: non-empty, without `:`, `,`
/// or white space.
pub open spec fn valid_uuid(u: Seq<char>) -> bool {
    u.len() > 0 && forall|i: int|
        0 <= i < u.len() ==> (#[trigger] u[i]) != ':' && u[i] != ',' && !is_space(u[i])
}

fn is_valid_uuid(u: &Vec<char>) -> (r: bool)
    ensures
        r == valid_uuid(u@),
{
    if u.len() == 0 {
        return false;
    }
    let mut i: usize = 0;
    while i < u.len()
        invariant
            i <= u@.len(),
            forall|j: int|
                0 <= j < i ==> (#[trigger] u@[j]) != ':' && u@[j] != ',' && !is_space(u@[j]),
        decreases u@.len() - i,
    {
        let c = u[i];
        if c == ':' || c == ',' || c == ' ' || c == '\t' || c == '\n' || c == '\r' {
            return false;
        }
        i = i + 1;
    }
    true
}

/// Some entry of `ss` for UUID `u` holds `n`.
pub open spec fn has_in(ss: Seq<UUIDGtidSet>, u: Seq<char>, n: int) -> bool {
    exists|i: int| 0 <= i < ss.len() && ss[i].uuid@ == u && (#[trigger] ss[i]).has(n)
}

/// Entries in ascending UUID order, each canonical and non-empty.
pub open spec fn entries_wf(ss: Seq<UUIDGtidSet>) -> bool {
    &&& forall|i: int|
        0 <= i < ss.len() ==> (#[trigger] ss[i]).wf() && ss[i].ranges@.len() > 0 && valid_uuid(
            ss[i].uuid@,
        )
    &&& forall|i: int, j: int| 0 <= i < j < ss.len() ==> text_lt(ss[i].uuid@, ss[j].uuid@)
}

/// Text of one entry: `uuid:ranges`.
pub open spec fn entry_text(e: UUIDGtidSet) -> Seq<char> {
    e.uuid@ + seq![':'] + ranges_text(e.ranges@)
}

/// Texts of the entries, separated by `,`.
pub open spec fn entries_text(ss: Seq<UUIDGtidSet>) -> Seq<char>
    decreases ss.len(),
{
    if ss.len() == 0 {
        Seq::empty()
    } else if ss.len() == 1 {
        entry_text(ss[0])
    } else {
        entries_text(ss.drop_last()) + seq![','] + entry_text(ss.last())
    }
}

/// `uuid:n` read from a single GTID text: exactly one `:`, a valid UUID and a
/// transaction number of at least 1, spaces around either part ignored.
pub open spec fn gtid_spec(s: Seq<char>) -> Option<(Seq<char>, u64)> {
    let parts = split_spec(s, ':');
    if parts.len() == 2 && valid_uuid(trim(parts[0])) && parse_u64_spec(trim(parts[1])) is Some
        && parse_u64_spec(trim(parts[1]))->Some_0 >= 1 {
        Some((trim(parts[0]), parse_u64_spec(trim(parts[1]))->Some_0))
    } else {
        None
    }
}

/// Reads `uuid:n`.
fn read_gtid(gtid: &str) -> (r: Option<(Vec<char>, u64)>)
    ensures
        match gtid_spec(gtid@) {
            Some((u, n)) => r is Some && r->Some_0.0@ == u && r->Some_0.1 == n,
            None => r is None,
        },
{
    let cs = chars_of(gtid);
    let parts = split_chars(&cs, 0, cs.len(), ':');
    assert(cs@.subrange(0, cs@.len() as int) =~= cs@);
    if parts.len() != 2 {
        return None;
    }
    let head_part = &parts[0];
    let tail_part = &parts[1];
    assert(head_part@.subrange(0, head_part@.len() as int) =~= head_part@);
    assert(tail_part@.subrange(0, tail_part@.len() as int) =~= tail_part@);
    let u = trim_range(head_part, 0, head_part.len());
    let num = trim_range(tail_part, 0, tail_part.len());
    if !is_valid_uuid(&u) {
        return None;
    }
    match parse_u64(num.as_slice()) {
        Some(n) => {
            if n >= 1 {
                Some((u, n))
            } else {
                None
            }
        },
        None => None,
    }
}

/// A set of GTIDs: for each source UUID, in ascending UUID order, the
/// canonical list of its executed transaction ranges.
#[derive(Debug, Clone)]
pub struct GtidSet {
    pub sets: Vec<UUIDGtidSet>,
}

impl GtidSet {
    pub open spec fn wf(&self) -> bool {
        entries_wf(self.sets@)
    }

    /// The set holds transaction `n` of source `u`.
    pub open spec fn has(&self, u: Seq<char>, n: int) -> bool {
        has_in(self.sets@, u, n)
    }

    /// Canonical text of the set.
    pub open spec fn text(&self) -> Seq<char> {
        entries_text(self.sets@)
    }

    /// Reads GTID-set text such as `uuid:1-100:200,uuid2:5`. Empty text and
    /// `NULL` read as the empty set; any token that does not read fails the
    /// whole text.
    #[verifier::rlimit(60)]
    pub fn parse(gtid_str: &str) -> (r: Result<GtidSet, CdcError>)
        ensures
            match parse_spec(gtid_str@) {
                Some(items) => r is Ok && r->Ok_0.wf() && forall|u: Seq<char>, n: int|
                    #[trigger] r->Ok_0.has(u, n) <==> items.contains((u, n)),
                None => r is Err && r->Err_0 is GtidError,
            },
    {
        let s = chars_of(gtid_str);
        assert(s@.subrange(0, s@.len() as int) =~= s@);
        let t = trim_range(&s, 0, s.len());
        if t.len() == 0 || (t.len() == 4 && t[0] == 'N' && t[1] == 'U' && t[2] == 'L' && t[3]
            == 'L') {
            proof {
                if t@.len() == 4 {
                    assert(t@ =~= seq!['N', 'U', 'L', 'L']);
                }
            }
            return Ok(GtidSet::new());
        }
        assert(t@ != seq!['N', 'U', 'L', 'L']);
        let tokens = split_chars(&s, 0, s.len(), ',');
        let ghost ts = split_spec(s@, ',');
        assert(tokens@.len() == ts.len());
        match read_tokens(&tokens, Ghost(ts)) {
            Some(g) => Ok(g),
            None => Err(CdcError::GtidError("GTID set text does not read".to_owned())),
        }
    }

    pub fn new() -> (r: GtidSet)
        ensures
            r.wf(),
            r.sets@.len() == 0,
            forall|u: Seq<char>, n: int| !r.has(u, n),
    {
        GtidSet { sets: Vec::new() }
    }

    /// Position of UUID `u`: every entry before it has a smaller UUID, and
    /// the flag says whether the entry there is `u` itself.
    fn find_uuid(&self, u: &Vec<char>) -> (r: (usize, bool))
        requires
            self.wf(),
        ensures
            r.0 <= self.sets@.len(),
            forall|i: int| 0 <= i < r.0 ==> text_lt(self.sets@[i].uuid@, u@),
            r.1 ==> r.0 < self.sets@.len() && self.sets@[r.0 as int].uuid@ == u@,
            !r.1 ==> forall|i: int| r.0 <= i < self.sets@.len() ==> text_lt(u@, self.sets@[i].uuid@),
            !r.1 ==> forall|i: int| 0 <= i < self.sets@.len() ==> self.sets@[i].uuid@ != u@,
            r.1 ==> forall|i: int|
                0 <= i < self.sets@.len() && i != r.0 ==> self.sets@[i].uuid@ != u@,
    {
        let mut i: usize = 0;
        while i < self.sets.len()
            invariant
                self.wf(),
                i <= self.sets@.len(),
                forall|j: int| 0 <= j < i ==> text_lt(self.sets@[j].uuid@, u@),
            decreases self.sets@.len() - i,
        {
            let cu = chars_of(self.sets[i].uuid.as_str());
            let c = compare_text(&cu, u);
            if c == 0 {
                proof {
                    assert forall|j: int|
                        0 <= j < self.sets@.len() && j != i implies self.sets@[j].uuid@ != u@ by {
                        lemma_text_lt_irreflexive(u@);
                        if j > i {
                            assert(text_lt(self.sets@[i as int].uuid@, self.sets@[j].uuid@));
                        }
                    }
                }
                return (i, true);
            }
            if c > 0 {
                proof {
                    assert forall|j: int| i <= j < self.sets@.len() implies text_lt(
                        u@,
                        self.sets@[j].uuid@,
                    ) by {
                        if j > i {
                            lemma_text_lt_transitive(
                                u@,
                                self.sets@[i as int].uuid@,
                                self.sets@[j].uuid@,
                            );
                        }
                    }
                    assert forall|j: int| 0 <= j < self.sets@.len() implies self.sets@[j].uuid@
                        != u@ by {
                        lemma_text_lt_irreflexive(u@);
                    }
                }
                return (i, false);
            }
            i = i + 1;
        }
        proof {
            assert forall|j: int| 0 <= j < self.sets@.len() implies self.sets@[j].uuid@ != u@ by {
                lemma_text_lt_irreflexive(u@);
            }
        }
        (i, false)
    }

    /// Adds range `rg` of source `u`.
    #[verifier::rlimit(60)]
    fn add_range(&mut self, u: &Vec<char>, rg: GtidRange)
        requires
            old(self).wf(),
            valid_uuid(u@),
            rg.valid(),
        ensures
            final(self).wf(),
            forall|u2: Seq<char>, n: int|
                #[trigger] final(self).has(u2, n) <==> (old(self).has(u2, n) || (u2 == u@ && rg.has(
                    n,
                ))),
    {
        let (k, found) = self.find_uuid(u);
        let ghost old_sets = self.sets@;
        if found {
            let mut e = self.sets.remove(k);
            let merged = insert_range(&e.ranges, rg);
            e.ranges = merged;
            self.sets.insert(k, e);
            let ghost ns = self.sets@;
            assert(ns =~= old_sets.update(k as int, e));
            proof {
                assert forall|i: int| 0 <= i < ns.len() implies (#[trigger] ns[i]).wf()
                    && ns[i].ranges@.len() > 0 && valid_uuid(ns[i].uuid@) by {
                    if i == k {
                        assert(in_ranges(ns[i].ranges@, rg.start as int));
                    }
                }
                assert forall|u2: Seq<char>, n: int|
                    #[trigger] has_in(ns, u2, n) <==> (has_in(old_sets, u2, n) || (u2 == u@
                        && rg.has(n))) by {
                    if has_in(ns, u2, n) {
                        let i = choose|i: int|
                            0 <= i < ns.len() && ns[i].uuid@ == u2 && (#[trigger] ns[i]).has(n);
                        if i != k {
                            assert(old_sets[i] == ns[i]);
                        } else if !rg.has(n) {
                            assert(old_sets[i].has(n));
                        }
                    }
                    if has_in(old_sets, u2, n) {
                        let i = choose|i: int|
                            0 <= i < old_sets.len() && old_sets[i].uuid@ == u2 && (
                            #[trigger] old_sets[i]).has(n);
                        if i != k {
                            assert(old_sets[i] == ns[i]);
                        } else {
                            assert(ns[i].has(n));
                        }
                    }
                    if u2 == u@ && rg.has(n) {
                        assert(ns[k as int].has(n));
                    }
                }
            }
        } else {
            let mut rs: Vec<GtidRange> = Vec::new();
            rs.push(rg);
            let e = UUIDGtidSet { uuid: string_from_chars(u), ranges: rs };
            assert(e.ranges@[0] == rg);
            assert(e.ranges@[0].has(rg.start as int));
            assert(e.has(rg.start as int));
            self.sets.insert(k, e);
            let ghost ns = self.sets@;
            assert(ns =~= old_sets.insert(k as int, e));
            proof {
                assert forall|i: int| 0 <= i < ns.len() implies (#[trigger] ns[i]).wf()
                    && ns[i].ranges@.len() > 0 && valid_uuid(ns[i].uuid@) by {
                    if i < k {
                        assert(ns[i] == old_sets[i]);
                    } else if i > k {
                        assert(ns[i] == old_sets[i - 1]);
                    }
                }
                assert forall|i: int, j: int| 0 <= i < j < ns.len() implies text_lt(
                    ns[i].uuid@,
                    ns[j].uuid@,
                ) by {
                    if j < k {
                        assert(ns[i] == old_sets[i] && ns[j] == old_sets[j]);
                    } else if j == k {
                        assert(ns[i] == old_sets[i]);
                    } else if i < k {
                        assert(ns[i] == old_sets[i] && ns[j] == old_sets[j - 1]);
                        lemma_text_lt_transitive(old_sets[i].uuid@, u@, old_sets[j - 1].uuid@);
                    } else if i == k {
                        assert(ns[j] == old_sets[j - 1]);
                    } else {
                        assert(ns[i] == old_sets[i - 1] && ns[j] == old_sets[j - 1]);
                    }
                }
                assert forall|u2: Seq<char>, n: int|
                    #[trigger] has_in(ns, u2, n) <==> (has_in(old_sets, u2, n) || (u2 == u@
                        && rg.has(n))) by {
                    if has_in(ns, u2, n) {
                        let i = choose|i: int|
                            0 <= i < ns.len() && ns[i].uuid@ == u2 && (#[trigger] ns[i]).has(n);
                        if i < k {
                            assert(old_sets[i] == ns[i]);
                        } else if i > k {
                            assert(old_sets[i - 1] == ns[i]);
                        } else {
                            let q = choose|q: int| 0 <= q < ns[i].ranges@.len() && (
                            #[trigger] ns[i].ranges@[q]).has(n);
                            assert(q == 0);
                        }
                    }
                    if has_in(old_sets, u2, n) {
                        let i = choose|i: int|
                            0 <= i < old_sets.len() && old_sets[i].uuid@ == u2 && (
                            #[trigger] old_sets[i]).has(n);
                        if i < k {
                            assert(old_sets[i] == ns[i]);
                        } else {
                            assert(old_sets[i] == ns[i + 1]);
                        }
                    }
                    if u2 == u@ && rg.has(n) {
                        assert(ns[k as int].ranges@[0].has(n));
                        assert(ns[k as int].has(n));
                    }
                }
            }
        }
    }

    /// Adds one GTID given as `uuid:n`. A GTID already in the set leaves it
    /// unchanged; text of another shape is refused.
    pub fn add_gtid(&mut self, gtid: &str) -> (r: Result<(), CdcError>)
        requires
            old(self).wf(),
        ensures
            final(self).wf(),
            match gtid_spec(gtid@) {
                Some((u, n)) => {
                    &&& r is Ok
                    &&& final(self).has(u, n as int)
                    &&& forall|u2: Seq<char>, n2: int|
                        #[trigger] final(self).has(u2, n2) <==> (old(self).has(u2, n2) || (u2 == u
                            && n2 == n))
                    &&& old(self).has(u, n as int) ==> final(self).sets@ == old(self).sets@
                },
                None => r is Err && r->Err_0 is GtidError && final(self).sets@ == old(self).sets@,
            },
    {
        match read_gtid(gtid) {
            None => Err(CdcError::GtidError("GTID must read uuid:number".to_owned())),
            Some((u, n)) => {
                let (k, found) = self.find_uuid(&u);
                if found && self.sets[k].contains(n) {
                    assert(self.has(u@, n as int));
                    return Ok(());
                }
                let rg = GtidRange { start: n, end: n };
                self.add_range(&u, rg);
                assert(self.has(u@, n as int));
                Ok(())
            },
        }
    }

    /// Adds every GTID of `other`, merging ranges per UUID.
    pub fn merge(&mut self, other: &GtidSet)
        requires
            old(self).wf(),
            other.wf(),
        ensures
            final(self).wf(),
            forall|u: Seq<char>, n: int|
                #[trigger] final(self).has(u, n) <==> (old(self).has(u, n) || other.has(u, n)),
    {
        let mut i: usize = 0;
        while i < other.sets.len()
            invariant
                self.wf(),
                other.wf(),
                i <= other.sets@.len(),
                forall|u: Seq<char>, n: int|
                    #[trigger] self.has(u, n) <==> (old(self).has(u, n) || has_in(
                        other.sets@.subrange(0, i as int),
                        u,
                        n,
                    )),
            decreases other.sets@.len() - i,
        {
            let e = &other.sets[i];
            let u = chars_of(e.uuid.as_str());
            let ghost before = *self;
            let mut j: usize = 0;
            while j < e.ranges.len()
                invariant
                    self.wf(),
                    other.wf(),
                    i < other.sets@.len(),
                    *e == other.sets@[i as int],
                    u@ == e.uuid@,
                    valid_uuid(u@),
                    j <= e.ranges@.len(),
                    forall|u2: Seq<char>, n: int|
                        #[trigger] self.has(u2, n) <==> (before.has(u2, n) || (u2 == u@
                            && in_ranges_between(e.ranges@, 0, j as int, n))),
                decreases e.ranges@.len() - j,
            {
                let rg = e.ranges[j];
                assert(rg.valid());
                self.add_range(&u, rg);
                proof {
                    assert forall|n: int|
                        #[trigger] in_ranges_between(e.ranges@, 0, j + 1, n) == (in_ranges_between(
                            e.ranges@,
                            0,
                            j as int,
                            n,
                        ) || rg.has(n)) by {
                        if in_ranges_between(e.ranges@, 0, j + 1, n) {
                            let k = choose|k: int| 0 <= k < j + 1 && (#[trigger] e.ranges@[k]).has(n);
                            if k < j {
                                assert(in_ranges_between(e.ranges@, 0, j as int, n));
                            }
                        }
                        if in_ranges_between(e.ranges@, 0, j as int, n) {
                            let k = choose|k: int| 0 <= k < j && (#[trigger] e.ranges@[k]).has(n);
                            assert(0 <= k < j + 1);
                        }
                    }
                }
                j = j + 1;
            }
            proof {
                let pre = other.sets@.subrange(0, i as int);
                let nxt = other.sets@.subrange(0, i + 1);
                assert forall|u2: Seq<char>, n: int|
                    #[trigger] has_in(nxt, u2, n) == (has_in(pre, u2, n) || (u2 == e.uuid@ && e.has(n))) by {
                    if has_in(nxt, u2, n) {
                        let k = choose|k: int| 0 <= k < nxt.len() && nxt[k].uuid@ == u2 && (#[trigger] nxt[k]).has(n);
                        if k < i {
                            assert(pre[k] == nxt[k]);
                            assert(has_in(pre, u2, n));
                        }
                    }
                    if has_in(pre, u2, n) {
                        let k = choose|k: int| 0 <= k < pre.len() && pre[k].uuid@ == u2 && (#[trigger] pre[k]).has(n);
                        assert(nxt[k] == pre[k]);
                    }
                    if u2 == e.uuid@ && e.has(n) {
                        assert(nxt[i as int] == *e);
                    }
                }
                assert forall|n: int| #[trigger] e.has(n) == in_ranges_between(e.ranges@, 0, e.ranges@.len() as int, n) by {
                    if e.has(n) {
                        let k = choose|k: int| 0 <= k < e.ranges@.len() && (#[trigger] e.ranges@[k]).has(n);
                        assert(0 <= k < e.ranges@.len());
                    }
                }
            }
            i = i + 1;
        }
        assert(other.sets@.subrange(0, other.sets@.len() as int) =~= other.sets@);
    }

    /// Whether the GTID `uuid:n` is in the set; false for text of another shape.
    pub fn contains(&self, gtid: &str) -> (r: bool)
        requires
            self.wf(),
        ensures
            r == match gtid_spec(gtid@) {
                Some((u, n)) => self.has(u, n as int),
                None => false,
            },
    {
        match read_gtid(gtid) {
            None => false,
            Some((u, n)) => {
                let (k, found) = self.find_uuid(&u);
                if !found {
                    return false;
                }
                let r = self.sets[k].contains(n);
                proof {
                    if self.has(u@, n as int) {
                        let i = choose|i: int|
                            0 <= i < self.sets@.len() && self.sets@[i].uuid@ == u@ && (
                            #[trigger] self.sets@[i]).has(n as int);
                        assert(i == k);
                    }
                }
                r
            },
        }
    }

    /// True when the set holds no GTID.
    pub fn is_empty(&self) -> (r: bool)
        requires
            self.wf(),
        ensures
            r == (self.sets@.len() == 0),
            r <==> forall|u: Seq<char>, n: int| !self.has(u, n),
    {
        proof {
            if self.sets@.len() > 0 {
                let e = self.sets@[0];
                assert(e.ranges@[0].valid());
                assert(e.has(e.ranges@[0].start as int));
                assert(self.has(e.uuid@, e.ranges@[0].start as int));
            }
        }
        self.sets.len() == 0
    }

    /// The GTIDs of `self` that are not in `other`.
    #[verifier::rlimit(60)]
    pub fn subtract(&self, other: &GtidSet) -> (r: GtidSet)
        requires
            self.wf(),
            other.wf(),
        ensures
            r.wf(),
            forall|u: Seq<char>, n: int|
                #[trigger] r.has(u, n) <==> (self.has(u, n) && !other.has(u, n)),
    {
        let mut out: Vec<UUIDGtidSet> = Vec::new();
        let mut i: usize = 0;
        while i < self.sets.len()
            invariant
                self.wf(),
                other.wf(),
                i <= self.sets@.len(),
                entries_wf(out@),
                forall|k: int, j: int|
                    #![trigger out@[k], self.sets@[j]]
                    0 <= k < out@.len() && i <= j < self.sets@.len() ==> text_lt(
                        out@[k].uuid@,
                        self.sets@[j].uuid@,
                    ),
                forall|u: Seq<char>, n: int|
                    #[trigger] has_in(out@, u, n) <==> (has_in(self.sets@.subrange(0, i as int), u, n)
                        && !other.has(u, n)),
            decreases self.sets@.len() - i,
        {
            let e = &self.sets[i];
            let uc = chars_of(e.uuid.as_str());
            let (k, found) = other.find_uuid(&uc);
            let mut ranges = copy_ranges(&e.ranges);
            if found {
                let theirs = &other.sets[k].ranges;
                let mut j: usize = 0;
                while j < theirs.len()
                    invariant
                        other.wf(),
                        k < other.sets@.len(),
                        theirs@ == other.sets@[k as int].ranges@,
                        j <= theirs@.len(),
                        canonical(ranges@),
                        forall|n: int|
                            #[trigger] in_ranges(ranges@, n) <==> (in_ranges(e.ranges@, n)
                                && !in_ranges_between(theirs@, 0, j as int, n)),
                    decreases theirs@.len() - j,
                {
                    assert(theirs@[j as int].valid());
                    ranges = subtract_range(&ranges, theirs[j]);
                    proof {
                        assert forall|n: int|
                            #[trigger] in_ranges_between(theirs@, 0, j + 1, n) <==> (
                            in_ranges_between(theirs@, 0, j as int, n) || theirs@[j as int].has(
                                n,
                            )) by {
                            if in_ranges_between(theirs@, 0, j + 1, n) {
                                let q = choose|q: int| 0 <= q < j + 1 && (#[trigger] theirs@[q]).has(n);
                                if q < j {
                                    assert(in_ranges_between(theirs@, 0, j as int, n));
                                }
                            }
                            if in_ranges_between(theirs@, 0, j as int, n) {
                                let q = choose|q: int| 0 <= q < j && (#[trigger] theirs@[q]).has(n);
                                assert(0 <= q < j + 1);
                            }
                        }
                    }
                    j = j + 1;
                }
                proof {
                    assert forall|n: int|
                        #[trigger] in_ranges(theirs@, n) <==> in_ranges_between(theirs@, 0, theirs@.len() as int, n) by {
                        if in_ranges(theirs@, n) {
                            let q = choose|q: int| 0 <= q < theirs@.len() && (#[trigger] theirs@[q]).has(n);
                            assert(0 <= q < theirs@.len());
                        }
                    }
                }
            }
            let ghost before = out@;
            let ghost e_v = *e;
            assert(forall|u: Seq<char>, n: int|
                #[trigger] other.has(u, n) ==> exists|q: int|
                    0 <= q < other.sets@.len() && other.sets@[q].uuid@ == u && (#[trigger] other.sets@[q]).has(n));
            if ranges.len() > 0 {
                let ne = UUIDGtidSet { uuid: e.uuid.clone(), ranges };
                out.push(ne);
            }
            proof {
                let pre = self.sets@.subrange(0, i as int);
                let nxt = self.sets@.subrange(0, i + 1);
                assert forall|k2: int, j: int|
                    #![trigger out@[k2], self.sets@[j]]
                    0 <= k2 < out@.len() && i + 1 <= j < self.sets@.len() implies text_lt(
                        out@[k2].uuid@,
                        self.sets@[j].uuid@,
                    ) by {
                    if k2 < before.len() {
                        assert(out@[k2] == before[k2]);
                    }
                }
                assert forall|p: int, q: int| 0 <= p < q < out@.len() implies text_lt(
                    out@[p].uuid@,
                    out@[q].uuid@,
                ) by {
                    if q < before.len() {
                        assert(out@[p] == before[p] && out@[q] == before[q]);
                    } else {
                        assert(out@[p] == before[p]);
                    }
                }
                assert forall|q: int| 0 <= q < out@.len() implies (#[trigger] out@[q]).wf()
                    && out@[q].ranges@.len() > 0 && valid_uuid(out@[q].uuid@) by {
                    if q < before.len() {
                        assert(out@[q] == before[q]);
                    }
                }
                assert forall|u: Seq<char>, n: int|
                    #[trigger] has_in(out@, u, n) <==> (has_in(nxt, u, n) && !other.has(u, n)) by {
                    if has_in(out@, u, n) {
                        let q = choose|q: int|
                            0 <= q < out@.len() && out@[q].uuid@ == u && (#[trigger] out@[q]).has(n);
                        if q < before.len() {
                            assert(out@[q] == before[q]);
                            assert(has_in(before, u, n));
                            assert(has_in(pre, u, n));
                            let w = choose|w: int|
                                0 <= w < pre.len() && pre[w].uuid@ == u && (#[trigger] pre[w]).has(n);
                            assert(nxt[w] == pre[w]);
                        } else {
                            assert(e_v.has(n));
                            assert(nxt[i as int] == e_v);
                            if other.has(u, n) {
                                let w = choose|w: int|
                                    0 <= w < other.sets@.len() && other.sets@[w].uuid@ == u && (
                                    #[trigger] other.sets@[w]).has(n);
                                assert(w == k);
                            }
                        }
                    }
                    if has_in(nxt, u, n) && !other.has(u, n) {
                        let w = choose|w: int|
                            0 <= w < nxt.len() && nxt[w].uuid@ == u && (#[trigger] nxt[w]).has(n);
                        if w < i {
                            assert(pre[w] == nxt[w]);
                            assert(has_in(pre, u, n));
                            assert(has_in(before, u, n));
                            let q = choose|q: int|
                                0 <= q < before.len() && before[q].uuid@ == u && (#[trigger] before[q]).has(n);
                            assert(out@[q] == before[q]);
                        } else {
                            assert(nxt[w] == e_v);
                            if found {
                                if in_ranges(other.sets@[k as int].ranges@, n) {
                                    assert(other.sets@[k as int].has(n));
                                }
                            }
                            assert(in_ranges(ranges@, n));
                            assert(out@[out@.len() - 1].has(n));
                        }
                    }
                }
            }
            i = i + 1;
        }
        assert(self.sets@.subrange(0, self.sets@.len() as int) =~= self.sets@);
        GtidSet { sets: out }
    }

    /// Canonical text: entries `uuid:ranges` in ascending UUID order,
    /// separated by `,`; ranges ascending and separated by `:`; a single
    /// transaction printed as `N`.
    pub fn to_string(&self) -> (r: String)
        ensures
            r@ == self.text(),
    {
        let mut out: Vec<char> = Vec::new();
        let mut i: usize = 0;
        while i < self.sets.len()
            invariant
                i <= self.sets@.len(),
                out@ == entries_text(self.sets@.subrange(0, i as int)),
            decreases self.sets@.len() - i,
        {
            let ghost pre = self.sets@.subrange(0, i as int);
            assert(self.sets@.subrange(0, i + 1).drop_last() =~= pre);
            let ghost before = out@;
            if i > 0 {
                out.push(',');
            }
            let uc = chars_of(self.sets[i].uuid.as_str());
            push_chars(&mut out, &uc);
            out.push(':');
            push_ranges_text(&mut out, &self.sets[i].ranges);
            proof {
                if i == 0 {
                    assert(pre =~= Seq::<UUIDGtidSet>::empty());
                    assert(out@ =~= entry_text(self.sets@[0]));
                } else {
                    assert(out@ =~= before + seq![','] + entry_text(self.sets@[i as int]));
                }
            }
            i = i + 1;
        }
        assert(self.sets@.subrange(0, self.sets@.len() as int) =~= self.sets@);
        string_from_chars(&out)
    }
}

/// A range token: `N`, or `N-M` with `N <= M`; numbers at least 1, spaces
/// around them ignored.
pub open spec fn range_spec(t0: Seq<char>) -> Option<GtidRange> {
    let t = trim(t0);
    match find_spec(t, '-') {
        Some(k) => {
            let a = parse_u64_spec(trim(t.subrange(0, k)));
            let b = parse_u64_spec(trim(t.subrange(k + 1, t.len() as int)));
            if a is Some && b is Some && 1 <= a->Some_0 <= b->Some_0 {
                Some(GtidRange { start: a->Some_0, end: b->Some_0 })
            } else {
                None
            }
        },
        None => match parse_u64_spec(t) {
            Some(a) => if a >= 1 {
                Some(GtidRange { start: a, end: a })
            } else {
                None
            },
            None => None,
        },
    }
}

/// The GTIDs of range `r` of source `u`.
pub open spec fn range_items(u: Seq<char>, r: GtidRange) -> Set<(Seq<char>, int)> {
    Set::new(|p: (Seq<char>, int)| p.0 == u && r.has(p.1))
}

/// The GTIDs named by range tokens of source `u`, if every token reads.
pub open spec fn ranges_items(u: Seq<char>, ts: Seq<Seq<char>>) -> Option<Set<(Seq<char>, int)>>
    decreases ts.len(),
{
    if ts.len() == 0 {
        Some(Set::empty())
    } else {
        match (ranges_items(u, ts.drop_last()), range_spec(ts.last())) {
            (Some(s), Some(r)) => Some(s + range_items(u, r)),
            _ => None,
        }
    }
}

/// One `,`-separated token, trimmed: `uuid:range[:range]*` starts a source;
/// a bare range continues the current one.
pub open spec fn token_step(
    t: Seq<char>,
    items: Set<(Seq<char>, int)>,
    cur: Option<Seq<char>>,
) -> Option<(Set<(Seq<char>, int)>, Option<Seq<char>>)> {
    match find_spec(t, ':') {
        Some(k) => {
            let u = trim(t.subrange(0, k));
            if valid_uuid(u) {
                match ranges_items(u, split_spec(t.subrange(k + 1, t.len() as int), ':')) {
                    Some(s) => Some((items + s, Some(u))),
                    None => None,
                }
            } else {
                None
            }
        },
        None => match cur {
            Some(u) => match range_spec(t) {
                Some(r) => Some((items + range_items(u, r), cur)),
                None => None,
            },
            None => None,
        },
    }
}

/// The GTIDs named by the tokens and the source current after them.
pub open spec fn tokens_items(ts: Seq<Seq<char>>) -> Option<
    (Set<(Seq<char>, int)>, Option<Seq<char>>),
>
    decreases ts.len(),
{
    if ts.len() == 0 {
        Some((Set::empty(), None))
    } else {
        match tokens_items(ts.drop_last()) {
            Some((items, cur)) => token_step(trim(ts.last()), items, cur),
            None => None,
        }
    }
}

/// The GTIDs that a GTID-set text names, or `None` when it does not read.
/// Empty text and `NULL` name none.
pub open spec fn parse_spec(s: Seq<char>) -> Option<Set<(Seq<char>, int)>> {
    let t = trim(s);
    if t.len() == 0 || t == seq!['N', 'U', 'L', 'L'] {
        Some(Set::empty())
    } else {
        match tokens_items(split_spec(s, ',')) {
            Some((items, _)) => Some(items),
            None => None,
        }
    }
}

proof fn lemma_ranges_items_fail(u: Seq<char>, ts: Seq<Seq<char>>, i: int)
    requires
        0 <= i <= ts.len(),
        ranges_items(u, ts.subrange(0, i)) is None,
    ensures
        ranges_items(u, ts) is None,
    decreases ts.len() - i,
{
    if i < ts.len() {
        assert(ts.subrange(0, i + 1).drop_last() =~= ts.subrange(0, i));
        lemma_ranges_items_fail(u, ts, i + 1);
    } else {
        assert(ts.subrange(0, i) =~= ts);
    }
}

proof fn lemma_tokens_items_fail(ts: Seq<Seq<char>>, i: int)
    requires
        0 <= i <= ts.len(),
        tokens_items(ts.subrange(0, i)) is None,
    ensures
        tokens_items(ts) is None,
    decreases ts.len() - i,
{
    if i < ts.len() {
        assert(ts.subrange(0, i + 1).drop_last() =~= ts.subrange(0, i));
        lemma_tokens_items_fail(ts, i + 1);
    } else {
        assert(ts.subrange(0, i) =~= ts);
    }
}

pub open spec fn opt_text(o: Option<Vec<char>>) -> Option<Seq<char>> {
    match o {
        Some(c) => Some(c@),
        None => None,
    }
}

/// Reading a token does not depend on what was read before it.
proof fn lemma_token_step_shift(
    t: Seq<char>,
    items: Set<(Seq<char>, int)>,
    cur: Option<Seq<char>>,
)
    ensures
        token_step(t, items, cur) == match token_step(t, Set::empty(), cur) {
            Some((a, c)) => Some((items + a, c)),
            None => None,
        },
{
    match find_spec(t, ':') {
        Some(k) => {
            let u = trim(t.subrange(0, k));
            match ranges_items(u, split_spec(t.subrange(k + 1, t.len() as int), ':')) {
                Some(s) => {
                    assert(Set::<(Seq<char>, int)>::empty() + s =~= s);
                },
                None => {},
            }
        },
        None => match cur {
            Some(u) => match range_spec(t) {
                Some(r) => {
                    assert(Set::<(Seq<char>, int)>::empty() + range_items(u, r) =~= range_items(u, r));
                },
                None => {},
            },
            None => {},
        },
    }
}

/// Reads one trimmed token into `g`; `None` when it does not read.
#[verifier::rlimit(60)]
fn apply_token(g: &mut GtidSet, tok: &Vec<char>, cur: Option<Vec<char>>) -> (r: Option<
    Option<Vec<char>>,
>)
    requires
        old(g).wf(),
        opt_text(cur) matches Some(c) ==> valid_uuid(c),
    ensures
        final(g).wf(),
        r is None <==> token_step(tok@, Set::empty(), opt_text(cur)) is None,
        r matches Some(nc) ==> {
            &&& token_step(tok@, Set::empty(), opt_text(cur))->Some_0.1 == opt_text(nc)
            &&& (opt_text(nc) matches Some(c) ==> valid_uuid(c))
            &&& forall|u: Seq<char>, n: int|
                #[trigger] final(g).has(u, n) <==> (old(g).has(u, n) || token_step(
                    tok@,
                    Set::empty(),
                    opt_text(cur),
                )->Some_0.0.contains((u, n)))
        },
{
    match find_char(tok, ':') {
        Some(k) => {
            let u = trim_range(tok, 0, k);
            if !is_valid_uuid(&u) {
                return None;
            }
            let tl = tok.len();
            let parts = split_chars(tok, k + 1, tl, ':');
            let ghost ps = split_spec(tok@.subrange(k + 1, tok@.len() as int), ':');
            let mut j: usize = 0;
            assert(ps.subrange(0, 0) =~= Seq::<Seq<char>>::empty());
            while j < parts.len()
                invariant
                    parts@.len() == ps.len(),
                    forall|q: int| 0 <= q < parts@.len() ==> #[trigger] parts@[q]@ == ps[q],
                    j <= parts@.len(),
                    k < tok@.len(),
                    find_spec(tok@, ':') == Some(k as int),
                    ps == split_spec(tok@.subrange(k + 1, tok@.len() as int), ':'),
                    u@ == trim(tok@.subrange(0, k as int)),
                    g.wf(),
                    valid_uuid(u@),
                    ranges_items(u@, ps.subrange(0, j as int)) is Some,
                    forall|u2: Seq<char>, n: int|
                        #[trigger] g.has(u2, n) <==> (old(g).has(u2, n) || ranges_items(
                            u@,
                            ps.subrange(0, j as int),
                        )->Some_0.contains((u2, n))),
                decreases parts@.len() - j,
            {
                assert(ps.subrange(0, j + 1).drop_last() =~= ps.subrange(0, j as int));
                assert(ps.subrange(0, j + 1).last() == ps[j as int]);
                match parse_range(&parts[j]) {
                    None => {
                        assert(range_spec(ps.subrange(0, j + 1).last()) is None);
                        assert(ranges_items(u@, ps.subrange(0, j + 1)) is None);
                        proof {
                            lemma_ranges_items_fail(u@, ps, j + 1);
                        }
                        assert(find_spec(tok@, ':') == Some(k as int));
                        assert(ranges_items(u@, split_spec(tok@.subrange(k + 1, tok@.len() as int), ':')) is None);
                        return None;
                    },
                    Some(rg) => {
                        g.add_range(&u, rg);
                    },
                }
                j = j + 1;
            }
            assert(ps.subrange(0, ps.len() as int) =~= ps);
            assert(Set::<(Seq<char>, int)>::empty() + ranges_items(u@, ps)->Some_0 =~= ranges_items(
                u@,
                ps,
            )->Some_0);
            Some(Some(u))
        },
        None => {
            match cur {
                None => None,
                Some(u) => {
                    match parse_range(tok) {
                        None => None,
                        Some(rg) => {
                            g.add_range(&u, rg);
                            assert(Set::<(Seq<char>, int)>::empty() + range_items(u@, rg)
                                =~= range_items(u@, rg));
                            Some(Some(u))
                        },
                    }
                },
            }
        },
    }
}

/// Reads the `,`-separated tokens of GTID-set text.
#[verifier::rlimit(60)]
fn read_tokens(tokens: &Vec<Vec<char>>, Ghost(ts): Ghost<Seq<Seq<char>>>) -> (r: Option<GtidSet>)
    requires
        tokens@.len() == ts.len(),
        forall|k: int| 0 <= k < tokens@.len() ==> #[trigger] tokens@[k]@ == ts[k],
    ensures
        match tokens_items(ts) {
            Some((items, _)) => r is Some && r->Some_0.wf() && forall|u: Seq<char>, n: int|
                #[trigger] r->Some_0.has(u, n) <==> items.contains((u, n)),
            None => r is None,
        },
{
    let mut g = GtidSet::new();
    let mut cur: Option<Vec<char>> = None;
    let ghost mut items: Set<(Seq<char>, int)> = Set::empty();
    let mut i: usize = 0;
    assert(ts.subrange(0, 0) =~= Seq::<Seq<char>>::empty());
    while i < tokens.len()
        invariant
            tokens@.len() == ts.len(),
            forall|k: int| 0 <= k < tokens@.len() ==> #[trigger] tokens@[k]@ == ts[k],
            i <= tokens@.len(),
            g.wf(),
            tokens_items(ts.subrange(0, i as int)) == Some((items, opt_text(cur))),
            opt_text(cur) matches Some(c) ==> valid_uuid(c),
            forall|u: Seq<char>, n: int| #[trigger] g.has(u, n) <==> items.contains((u, n)),
        decreases tokens@.len() - i,
    {
        assert(ts.subrange(0, i + 1).drop_last() =~= ts.subrange(0, i as int));
        assert(ts.subrange(0, i + 1).last() == ts[i as int]);
        let tok0 = &tokens[i];
        assert(tok0@.subrange(0, tok0@.len() as int) =~= tok0@);
        let tok = trim_range(tok0, 0, tok0.len());
        assert(tok@ == trim(ts[i as int]));
        proof {
            lemma_token_step_shift(tok@, items, opt_text(cur));
        }
        match apply_token(&mut g, &tok, cur) {
            None => {
                proof {
                    lemma_tokens_items_fail(ts, i + 1);
                }
                return None;
            },
            Some(nc) => {
                proof {
                    let added = token_step(tok@, Set::empty(), opt_text(cur))->Some_0.0;
                    items = items + added;
                }
                cur = nc;
            },
        }
        i = i + 1;
    }
    assert(ts.subrange(0, ts.len() as int) =~= ts);
    Some(g)
}

/// Reads a range token.
fn parse_range(t0: &Vec<char>) -> (r: Option<GtidRange>)
    ensures
        r == range_spec(t0@),
{
    assert(t0@.subrange(0, t0@.len() as int) =~= t0@);
    let t = trim_range(t0, 0, t0.len());
    match find_char(&t, '-') {
        Some(k) => {
            let a = trim_range(&t, 0, k);
            let b = trim_range(&t, k + 1, t.len());
            let pa = parse_u64(a.as_slice());
            let pb = parse_u64(b.as_slice());
            match (pa, pb) {
                (Some(x), Some(y)) => {
                    if 1 <= x && x <= y {
                        Some(GtidRange { start: x, end: y })
                    } else {
                        None
                    }
                },
                _ => None,
            }
        },
        None => match parse_u64(t.as_slice()) {
            Some(x) => {
                if x >= 1 {
                    Some(GtidRange { start: x, end: x })
                } else {
                    None
                }
            },
            None => None,
        },
    }
}

proof fn lemma_canonical_order(rs: Seq<GtidRange>)
    requires
        canonical(rs),
        rs.len() > 0,
    ensures
        forall|k: int| 0 <= k < rs.len() ==> (#[trigger] rs[k]).start >= rs[0].start,
        forall|k: int| 1 <= k < rs.len() ==> (#[trigger] rs[k]).start > rs[0].end + 1,
        canonical(rs.drop_first()),
        forall|n: int|
            #[trigger] in_ranges(rs, n) == (rs[0].has(n) || in_ranges(rs.drop_first(), n)),
        forall|n: int| in_ranges(rs.drop_first(), n) ==> n > rs[0].end + 1,
{
    let t = rs.drop_first();
    assert forall|k: int| 0 <= k < rs.len() implies (#[trigger] rs[k]).start >= rs[0].start by {
        if k > 0 {
            assert(rs[0].end + 1 < rs[k].start);
        }
    }
    assert forall|k: int| 1 <= k < rs.len() implies (#[trigger] rs[k]).start > rs[0].end + 1 by {
        assert(rs[0].end + 1 < rs[k].start);
    }
    assert forall|k: int| 0 <= k < t.len() implies (#[trigger] t[k]).valid() by {
        assert(t[k] == rs[k + 1]);
    }
    assert forall|i: int, j: int| 0 <= i < j < t.len() implies t[i].end + 1 < t[j].start by {
        assert(t[i] == rs[i + 1] && t[j] == rs[j + 1]);
    }
    assert forall|n: int| #[trigger] in_ranges(rs, n) == (rs[0].has(n) || in_ranges(t, n)) by {
        if in_ranges(rs, n) {
            let k = choose|k: int| 0 <= k < rs.len() && (#[trigger] rs[k]).has(n);
            if k > 0 {
                assert(t[k - 1].has(n));
            }
        }
        if in_ranges(t, n) {
            let k = choose|k: int| 0 <= k < t.len() && (#[trigger] t[k]).has(n);
            assert(rs[k + 1].has(n));
        }
        if rs[0].has(n) {
            assert(rs[0].has(n));
        }
    }
    assert forall|n: int| in_ranges(t, n) implies n > rs[0].end + 1 by {
        let k = choose|k: int| 0 <= k < t.len() && (#[trigger] t[k]).has(n);
        assert(t[k] == rs[k + 1]);
    }
}

/// Two canonical range lists holding the same numbers are the same list.
#[verifier::rlimit(60)]
pub proof fn lemma_canonical_unique(r1: Seq<GtidRange>, r2: Seq<GtidRange>)
    requires
        canonical(r1),
        canonical(r2),
        forall|n: int| #[trigger] in_ranges(r1, n) == in_ranges(r2, n),
    ensures
        r1 == r2,
    decreases r1.len() + r2.len(),
{
    if r1.len() == 0 || r2.len() == 0 {
        if r2.len() > 0 {
            assert(r2[0].has(r2[0].start as int));
            assert(in_ranges(r2, r2[0].start as int));
            assert(in_ranges(r1, r2[0].start as int));
        }
        if r1.len() > 0 {
            assert(r1[0].has(r1[0].start as int));
            assert(in_ranges(r1, r1[0].start as int));
            assert(in_ranges(r2, r1[0].start as int));
        }
        assert(r1 =~= r2);
    } else {
        lemma_canonical_order(r1);
        lemma_canonical_order(r2);
        let a = r1[0];
        let b = r2[0];
        assert(a.start == b.start) by {
            assert(a.has(a.start as int));
            assert(in_ranges(r1, a.start as int));
            assert(in_ranges(r2, a.start as int));
            let k = choose|k: int| 0 <= k < r2.len() && (#[trigger] r2[k]).has(a.start as int);
            assert(b.has(b.start as int));
            assert(in_ranges(r2, b.start as int));
            assert(in_ranges(r1, b.start as int));
            let j = choose|j: int| 0 <= j < r1.len() && (#[trigger] r1[j]).has(b.start as int);
        }
        assert(a.end == b.end) by {
            if a.end < b.end {
                let n = a.end + 1;
                assert(b.has(n));
                assert(r2[0].has(n));
                assert(in_ranges(r2, n));
                assert(in_ranges(r1, n));
                assert(!in_ranges(r1.drop_first(), n));
            }
            if b.end < a.end {
                let n = b.end + 1;
                assert(a.has(n));
                assert(r1[0].has(n));
                assert(in_ranges(r1, n));
                assert(in_ranges(r2, n));
                assert(!in_ranges(r2.drop_first(), n));
            }
        }
        let t1 = r1.drop_first();
        let t2 = r2.drop_first();
        assert forall|n: int| #[trigger] in_ranges(t1, n) == in_ranges(t2, n) by {
            assert(in_ranges(r1, n) == in_ranges(r2, n));
            if in_ranges(t1, n) {
                assert(!a.has(n));
            }
            if in_ranges(t2, n) {
                assert(!b.has(n));
            }
        }
        lemma_canonical_unique(t1, t2);
        assert(r1 =~= seq![a] + t1);
        assert(r2 =~= seq![b] + t2);
    }
}

/// The entries agree in UUID text and ranges, position by position.
pub open spec fn same_entries(s1: Seq<UUIDGtidSet>, s2: Seq<UUIDGtidSet>) -> bool {
    &&& s1.len() == s2.len()
    &&& forall|i: int|
        0 <= i < s1.len() ==> (#[trigger] s1[i]).uuid@ == s2[i].uuid@ && s1[i].ranges@
            == s2[i].ranges@
}

proof fn lemma_entries_order(ss: Seq<UUIDGtidSet>)
    requires
        entries_wf(ss),
        ss.len() > 0,
    ensures
        entries_wf(ss.drop_first()),
        forall|u: Seq<char>, n: int|
            #[trigger] has_in(ss, u, n) == ((u == ss[0].uuid@ && ss[0].has(n)) || has_in(
                ss.drop_first(),
                u,
                n,
            )),
        forall|u: Seq<char>, n: int|
            #[trigger] has_in(ss.drop_first(), u, n) ==> text_lt(ss[0].uuid@, u),
        forall|n: int| #[trigger] ss[0].has(n) ==> has_in(ss, ss[0].uuid@, n),
{
    let t = ss.drop_first();
    assert forall|i: int| 0 <= i < t.len() implies (#[trigger] t[i]).wf() && t[i].ranges@.len()
        > 0 && valid_uuid(t[i].uuid@) by {
        assert(t[i] == ss[i + 1]);
    }
    assert forall|i: int, j: int| 0 <= i < j < t.len() implies text_lt(t[i].uuid@, t[j].uuid@) by {
        assert(t[i] == ss[i + 1] && t[j] == ss[j + 1]);
    }
    assert forall|u: Seq<char>, n: int|
        #[trigger] has_in(ss, u, n) == ((u == ss[0].uuid@ && ss[0].has(n)) || has_in(t, u, n)) by {
        if has_in(ss, u, n) {
            let i = choose|i: int| 0 <= i < ss.len() && ss[i].uuid@ == u && (#[trigger] ss[i]).has(n);
            if i > 0 {
                assert(t[i - 1] == ss[i]);
            }
        }
        if has_in(t, u, n) {
            let i = choose|i: int| 0 <= i < t.len() && t[i].uuid@ == u && (#[trigger] t[i]).has(n);
            assert(ss[i + 1] == t[i]);
        }
    }
    assert forall|u: Seq<char>, n: int| #[trigger] has_in(t, u, n) implies text_lt(ss[0].uuid@, u) by {
        let i = choose|i: int| 0 <= i < t.len() && t[i].uuid@ == u && (#[trigger] t[i]).has(n);
        assert(ss[i + 1] == t[i]);
    }
    assert forall|n: int| #[trigger] ss[0].has(n) implies has_in(ss, ss[0].uuid@, n) by {
        assert(ss[0].has(n));
    }
}

#[verifier::rlimit(60)]
proof fn lemma_entries_unique(s1: Seq<UUIDGtidSet>, s2: Seq<UUIDGtidSet>)
    requires
        entries_wf(s1),
        entries_wf(s2),
        forall|u: Seq<char>, n: int| #[trigger] has_in(s1, u, n) == has_in(s2, u, n),
    ensures
        same_entries(s1, s2),
    decreases s1.len() + s2.len(),
{
    if s1.len() == 0 || s2.len() == 0 {
        if s2.len() > 0 {
            let e = s2[0];
            assert(e.ranges@[0].has(e.ranges@[0].start as int));
            assert(e.has(e.ranges@[0].start as int));
            assert(has_in(s2, e.uuid@, e.ranges@[0].start as int));
            assert(has_in(s1, e.uuid@, e.ranges@[0].start as int));
        }
        if s1.len() > 0 {
            let e = s1[0];
            assert(e.ranges@[0].has(e.ranges@[0].start as int));
            assert(e.has(e.ranges@[0].start as int));
            assert(has_in(s1, e.uuid@, e.ranges@[0].start as int));
            assert(has_in(s2, e.uuid@, e.ranges@[0].start as int));
        }
        assert(s1 =~= s2);
    } else {
        lemma_entries_order(s1);
        lemma_entries_order(s2);
        let e1 = s1[0];
        let e2 = s2[0];
        let u1 = e1.uuid@;
        let u2 = e2.uuid@;
        let n1 = e1.ranges@[0].start as int;
        let n2 = e2.ranges@[0].start as int;
        assert(e1.ranges@[0].has(n1));
        assert(e1.has(n1));
        assert(e2.ranges@[0].has(n2));
        assert(e2.has(n2));
        lemma_text_lt_irreflexive(u1);
        lemma_text_lt_irreflexive(u2);
        assert(u1 == u2) by {
            crate::text::lemma_text_lt_total(u1, u2);
            if text_lt(u1, u2) {
                assert(has_in(s1, u1, n1));
                assert(has_in(s2, u1, n1));
                if !(u1 == u2 && e2.has(n1)) {
                    assert(has_in(s2.drop_first(), u1, n1));
                    lemma_text_lt_transitive(u1, u2, u1);
                }
            }
            if text_lt(u2, u1) {
                assert(has_in(s2, u2, n2));
                assert(has_in(s1, u2, n2));
                if !(u2 == u1 && e1.has(n2)) {
                    assert(has_in(s1.drop_first(), u2, n2));
                    lemma_text_lt_transitive(u2, u1, u2);
                }
            }
        }
        assert forall|n: int| #[trigger] in_ranges(e1.ranges@, n) == in_ranges(e2.ranges@, n) by {
            if e1.has(n) {
                assert(has_in(s1, u1, n));
                assert(has_in(s2, u1, n));
                if !e2.has(n) {
                    assert(has_in(s2.drop_first(), u1, n));
                }
            }
            if e2.has(n) {
                assert(has_in(s2, u2, n));
                assert(has_in(s1, u2, n));
                if !e1.has(n) {
                    assert(has_in(s1.drop_first(), u2, n));
                }
            }
        }
        lemma_canonical_unique(e1.ranges@, e2.ranges@);
        let t1 = s1.drop_first();
        let t2 = s2.drop_first();
        assert forall|u: Seq<char>, n: int| #[trigger] has_in(t1, u, n) == has_in(t2, u, n) by {
            assert(has_in(s1, u, n) == has_in(s2, u, n));
            if has_in(t1, u, n) {
                assert(text_lt(u1, u));
                assert(u != u1);
            }
            if has_in(t2, u, n) {
                assert(text_lt(u2, u));
                assert(u != u2);
            }
        }
        lemma_entries_unique(t1, t2);
        assert forall|i: int| 0 <= i < s1.len() implies (#[trigger] s1[i]).uuid@ == s2[i].uuid@
            && s1[i].ranges@ == s2[i].ranges@ by {
            if i > 0 {
                assert(s1[i] == t1[i - 1] && s2[i] == t2[i - 1]);
            }
        }
    }
}

proof fn lemma_entries_text_same(s1: Seq<UUIDGtidSet>, s2: Seq<UUIDGtidSet>)
    requires
        same_entries(s1, s2),
    ensures
        entries_text(s1) == entries_text(s2),
    decreases s1.len(),
{
    if s1.len() > 1 {
        lemma_entries_text_same(s1.drop_last(), s2.drop_last());
    }
}

/// The canonical text of the GTIDs that text `s` names: the text of a
/// well-formed set holding exactly those GTIDs.
pub open spec fn canonicalize(s: Seq<char>) -> Seq<char> {
    (choose|g: GtidSet|
        g.wf() && forall|u: Seq<char>, n: int|
            #[trigger] g.has(u, n) <==> parse_spec(s)->Some_0.contains((u, n))).text()
}

/// Serialization depends only on which GTIDs a set holds: two well-formed
/// sets with the same GTIDs print the same text.
pub proof fn lemma_text_determined_by_gtids(g1: GtidSet, g2: GtidSet)
    requires
        g1.wf(),
        g2.wf(),
        forall|u: Seq<char>, n: int| #[trigger] g1.has(u, n) == g2.has(u, n),
    ensures
        g1.text() == g2.text(),
{
    assert forall|u: Seq<char>, n: int| #[trigger] has_in(g1.sets@, u, n) == has_in(g2.sets@, u, n) by {
        assert(g1.has(u, n) == g2.has(u, n));
    }
    lemma_entries_unique(g1.sets@, g2.sets@);
    lemma_entries_text_same(g1.sets@, g2.sets@);
}

/// What `parse` returns for text `s` serializes to the canonical text of
/// `s`: ranges merged and ascending, singletons as `N`, UUIDs ascending.
pub proof fn lemma_parse_serialize_canonical(s: Seq<char>, g: GtidSet)
    requires
        parse_spec(s) is Some,
        g.wf(),
        forall|u: Seq<char>, n: int| #[trigger] g.has(u, n) <==> parse_spec(s)->Some_0.contains((u, n)),
    ensures
        g.text() == canonicalize(s),
{
    let c = choose|h: GtidSet|
        h.wf() && forall|u: Seq<char>, n: int|
            #[trigger] h.has(u, n) <==> parse_spec(s)->Some_0.contains((u, n));
    assert forall|u: Seq<char>, n: int| #[trigger] g.has(u, n) == c.has(u, n) by {
        assert(g.has(u, n) <==> parse_spec(s)->Some_0.contains((u, n)));
        assert(c.has(u, n) <==> parse_spec(s)->Some_0.contains((u, n)));
    }
    lemma_text_determined_by_gtids(g, c);
}

} // verus!
