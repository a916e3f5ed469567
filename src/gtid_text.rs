//! Reading back the canonical text of a GTID set names exactly its GTIDs,
//! so printing a set, reading the text and printing again gives the same
//! text.

use vstd::prelude::*;
use crate::gtid::{
    canonicalize, entries_text, entries_wf, entry_text, has_in, in_ranges, lemma_parse_serialize_canonical,
    lemma_text_determined_by_gtids, parse_spec, range_items, range_spec, range_text, ranges_items,
    ranges_text, token_step, tokens_items, valid_uuid, GtidRange, GtidSet, UUIDGtidSet,
};
use crate::text::{
    all_digits, dec, find_spec, is_digit, is_space, lead_spaces, lemma_dec_digits, parse_u64_spec,
    split_spec, trail_spaces, trim,
};

verus! {

#[verifier::rlimit(100)]
proof fn lemma_split_concat(a: Seq<char>, b: Seq<char>, c: char)
    ensures
        split_spec(a + seq![c] + b, c) == split_spec(a, c) + split_spec(b, c),
    decreases b.len(),
{
    let w = a + seq![c] + b;
    if b.len() == 0 {
        assert(w.drop_last() =~= a);
        assert(split_spec(b, c) =~= seq![Seq::<char>::empty()]);
        assert(split_spec(w, c) =~= split_spec(a, c) + split_spec(b, c));
    } else {
        let b2 = b.drop_last();
        lemma_split_concat(a, b2, c);
        assert(w.drop_last() =~= a + seq![c] + b2);
        crate::text::lemma_split_nonempty(b2, c);
        crate::text::lemma_split_nonempty(a, c);
        let p = split_spec(a, c);
        let q = split_spec(b2, c);
        if b.last() == c {
            assert(split_spec(w, c) =~= (p + q).push(Seq::empty()));
            assert(split_spec(b, c) =~= q.push(Seq::empty()));
            assert((p + q).push(Seq::empty()) =~= p + q.push(Seq::empty()));
        } else {
            let pq = p + q;
            assert(split_spec(w, c) =~= pq.update(pq.len() - 1, pq.last().push(b.last())));
            assert(split_spec(b, c) =~= q.update(q.len() - 1, q.last().push(b.last())));
            assert(pq.update(pq.len() - 1, pq.last().push(b.last())) =~= p + q.update(
                q.len() - 1,
                q.last().push(b.last()),
            ));
        }
    }
}

proof fn lemma_split_single(w: Seq<char>, c: char)
    requires
        forall|i: int| 0 <= i < w.len() ==> w[i] != c,
    ensures
        split_spec(w, c) == seq![w],
    decreases w.len(),
{
    if w.len() > 0 {
        lemma_split_single(w.drop_last(), c);
        assert(w.drop_last().push(w.last()) =~= w);
        assert(split_spec(w, c) =~= seq![w]);
    } else {
        assert(w =~= Seq::<char>::empty());
    }
}

proof fn lemma_trim_id(w: Seq<char>)
    requires
        w.len() > 0,
        !is_space(w[0]),
        !is_space(w.last()),
    ensures
        trim(w) == w,
{
    assert(lead_spaces(w) == 0);
    assert(w.subrange(0, w.len() as int) =~= w);
    assert(trail_spaces(w) == 0);
    assert(w.subrange(0, w.len() as int) =~= w);
}

proof fn lemma_find_first(w: Seq<char>, c: char, k: int)
    requires
        0 <= k < w.len(),
        w[k] == c,
        forall|j: int| 0 <= j < k ==> w[j] != c,
    ensures
        find_spec(w, c) == Some(k),
{
    let q = choose|q: int| 0 <= q < w.len() && w[q] == c && forall|j: int| 0 <= j < q ==> w[j] != c;
    assert(q == k) by {
        if q < k {
        } else if q > k {
            assert(w[k] == c);
        }
    }
}

proof fn lemma_find_none(w: Seq<char>, c: char)
    requires
        forall|j: int| 0 <= j < w.len() ==> w[j] != c,
    ensures
        find_spec(w, c) is None,
{
}

proof fn lemma_dec_facts(n: nat)
    ensures
        dec(n).len() > 0,
        all_digits(dec(n)),
        n <= u64::MAX ==> parse_u64_spec(dec(n)) == Some(n as u64),
        forall|i: int| 0 <= i < dec(n).len() ==> !is_space(#[trigger] dec(n)[i]) && dec(n)[i] != ':'
            && dec(n)[i] != ',' && dec(n)[i] != '-',
{
    lemma_dec_digits(n);
    assert forall|i: int| 0 <= i < dec(n).len() implies !is_space(#[trigger] dec(n)[i])
        && dec(n)[i] != ':' && dec(n)[i] != ',' && dec(n)[i] != '-' by {
        assert(is_digit(dec(n)[i]));
    }
}

#[verifier::rlimit(100)]
proof fn lemma_range_text(r: GtidRange)
    requires
        r.valid(),
    ensures
        range_spec(range_text(r)) == Some(r),
        range_text(r).len() > 0,
        forall|i: int| 0 <= i < range_text(r).len() ==> (#[trigger] range_text(r)[i]) != ':'
            && range_text(r)[i] != ',',
        !is_space(range_text(r)[0]),
        !is_space(range_text(r).last()),
{
    let a = dec(r.start as nat);
    let b = dec(r.end as nat);
    lemma_dec_facts(r.start as nat);
    lemma_dec_facts(r.end as nat);
    let t = range_text(r);
    if r.start == r.end {
        lemma_trim_id(t);
        lemma_find_none(t, '-');
    } else {
        assert(t == a + seq!['-'] + b);
        assert(t[0] == a[0]);
        assert(t.last() == b.last());
        lemma_trim_id(t);
        lemma_find_first(t, '-', a.len() as int);
        assert(t.subrange(0, a.len() as int) =~= a);
        assert(t.subrange(a.len() as int + 1, t.len() as int) =~= b);
        lemma_trim_id(a);
        lemma_trim_id(b);
        assert forall|i: int| 0 <= i < t.len() implies (#[trigger] t[i]) != ':' && t[i] != ',' by {
            if i < a.len() {
                assert(t[i] == a[i]);
            } else if i > a.len() {
                assert(t[i] == b[i - a.len() - 1]);
            }
        }
    }
}

#[verifier::rlimit(100)]
proof fn lemma_ranges_text_split(rs: Seq<GtidRange>)
    requires
        rs.len() > 0,
        forall|k: int| 0 <= k < rs.len() ==> (#[trigger] rs[k]).valid(),
    ensures
        split_spec(ranges_text(rs), ':') == rs.map_values(|r: GtidRange| range_text(r)),
        !is_space(ranges_text(rs).last()),
        ranges_text(rs).len() > 0,
        forall|i: int| 0 <= i < ranges_text(rs).len() ==> (#[trigger] ranges_text(rs)[i]) != ',',
    decreases rs.len(),
{
    lemma_range_text(rs.last());
    if rs.len() == 1 {
        assert(rs.last() == rs[0]);
        lemma_split_single(range_text(rs[0]), ':');
        assert(rs.map_values(|r: GtidRange| range_text(r)) =~= seq![range_text(rs[0])]);
    } else {
        let d = rs.drop_last();
        assert forall|k: int| 0 <= k < d.len() implies (#[trigger] d[k]).valid() by {
            assert(d[k] == rs[k]);
        }
        lemma_ranges_text_split(d);
        lemma_split_concat(ranges_text(d), range_text(rs.last()), ':');
        lemma_split_single(range_text(rs.last()), ':');
        assert(rs.map_values(|r: GtidRange| range_text(r)) =~= d.map_values(
            |r: GtidRange| range_text(r),
        ) + seq![range_text(rs.last())]);
        let t = ranges_text(rs);
        assert(t == ranges_text(d) + seq![':'] + range_text(rs.last()));
        assert(t.last() == range_text(rs.last()).last());
        assert forall|i: int| 0 <= i < t.len() implies (#[trigger] t[i]) != ',' by {
            let x = ranges_text(d);
            if i < x.len() {
                assert(t[i] == x[i]);
            } else if i > x.len() {
                assert(t[i] == range_text(rs.last())[i - x.len() - 1]);
            }
        }
    }
}

/// The GTIDs of source `u` in ranges `rs`.
pub open spec fn items_of(u: Seq<char>, rs: Seq<GtidRange>) -> Set<(Seq<char>, int)> {
    Set::new(|p: (Seq<char>, int)| p.0 == u && in_ranges(rs, p.1))
}

#[verifier::rlimit(100)]
proof fn lemma_items_of_push(u: Seq<char>, rs: Seq<GtidRange>)
    requires
        rs.len() > 0,
    ensures
        items_of(u, rs.drop_last()) + range_items(u, rs.last()) == items_of(u, rs),
{
    let d = rs.drop_last();
    assert forall|p: (Seq<char>, int)| #[trigger] items_of(u, rs).contains(p) implies (items_of(u, d)
        + range_items(u, rs.last())).contains(p) by {
        let k = choose|k: int| 0 <= k < rs.len() && (#[trigger] rs[k]).has(p.1);
        if k < rs.len() - 1 {
            assert(d[k].has(p.1));
        }
    }
    assert forall|p: (Seq<char>, int)| #[trigger] (items_of(u, d) + range_items(u, rs.last())).contains(
        p,
    ) implies items_of(u, rs).contains(p) by {
        if items_of(u, d).contains(p) {
            let k = choose|k: int| 0 <= k < d.len() && (#[trigger] d[k]).has(p.1);
            assert(rs[k].has(p.1));
        } else {
            assert(rs[rs.len() - 1].has(p.1));
        }
    }
    assert(items_of(u, d) + range_items(u, rs.last()) =~= items_of(u, rs));
}

#[verifier::rlimit(100)]
proof fn lemma_ranges_items(u: Seq<char>, rs: Seq<GtidRange>)
    requires
        forall|k: int| 0 <= k < rs.len() ==> (#[trigger] rs[k]).valid(),
    ensures
        ranges_items(u, rs.map_values(|r: GtidRange| range_text(r))) == Some(items_of(u, rs)),
    decreases rs.len(),
{
    let ts = rs.map_values(|r: GtidRange| range_text(r));
    if rs.len() == 0 {
        assert(items_of(u, rs) =~= Set::empty());
    } else {
        let d = rs.drop_last();
        assert forall|k: int| 0 <= k < d.len() implies (#[trigger] d[k]).valid() by {
            assert(d[k] == rs[k]);
        }
        lemma_ranges_items(u, d);
        assert(ts.drop_last() =~= d.map_values(|r: GtidRange| range_text(r)));
        assert(ts.last() == range_text(rs.last()));
        lemma_range_text(rs.last());
        lemma_items_of_push(u, rs);
    }
}

#[verifier::rlimit(100)]
proof fn lemma_entry_text(e: UUIDGtidSet)
    requires
        e.wf(),
        e.ranges@.len() > 0,
        valid_uuid(e.uuid@),
    ensures
        token_step(entry_text(e), Set::empty(), None) == Some(
            (items_of(e.uuid@, e.ranges@), Some(e.uuid@)),
        ),
        forall|cur: Option<Seq<char>>, items: Set<(Seq<char>, int)>|
            #[trigger] token_step(entry_text(e), items, cur) == Some(
                (items + items_of(e.uuid@, e.ranges@), Some(e.uuid@)),
            ),
        entry_text(e).len() > 0,
        !is_space(entry_text(e)[0]),
        !is_space(entry_text(e).last()),
        forall|i: int| 0 <= i < entry_text(e).len() ==> (#[trigger] entry_text(e)[i]) != ',',
        trim(entry_text(e)) == entry_text(e),
{
    let u = e.uuid@;
    let rs = e.ranges@;
    let t = entry_text(e);
    let rt = ranges_text(rs);
    assert forall|k: int| 0 <= k < rs.len() implies (#[trigger] rs[k]).valid() by {}
    lemma_ranges_text_split(rs);
    lemma_ranges_items(u, rs);
    assert(t == u + seq![':'] + rt);
    assert(t[0] == u[0]);
    assert(t.last() == rt.last());
    lemma_find_first(t, ':', u.len() as int);
    assert(t.subrange(0, u.len() as int) =~= u);
    assert(t.subrange(u.len() as int + 1, t.len() as int) =~= rt);
    lemma_trim_id(u);
    lemma_trim_id(t);
    assert(Set::<(Seq<char>, int)>::empty() + items_of(u, rs) =~= items_of(u, rs));
    assert forall|i: int| 0 <= i < t.len() implies (#[trigger] t[i]) != ',' by {
        if i < u.len() {
            assert(t[i] == u[i]);
        } else if i > u.len() {
            assert(t[i] == rt[i - u.len() - 1]);
        }
    }
}

/// The GTIDs of entries `ss`.
pub open spec fn entries_items(ss: Seq<UUIDGtidSet>) -> Set<(Seq<char>, int)> {
    Set::new(|p: (Seq<char>, int)| has_in(ss, p.0, p.1))
}

#[verifier::rlimit(100)]
proof fn lemma_entries_items_push(ss: Seq<UUIDGtidSet>)
    requires
        ss.len() > 0,
    ensures
        entries_items(ss.drop_last()) + items_of(ss.last().uuid@, ss.last().ranges@) == entries_items(ss),
{
    let d = ss.drop_last();
    let last = ss.last();
    assert forall|p: (Seq<char>, int)| #[trigger] entries_items(ss).contains(p) implies (entries_items(d)
        + items_of(last.uuid@, last.ranges@)).contains(p) by {
        let i = choose|i: int| 0 <= i < ss.len() && ss[i].uuid@ == p.0 && (#[trigger] ss[i]).has(p.1);
        if i < ss.len() - 1 {
            assert(d[i] == ss[i]);
            assert(has_in(d, p.0, p.1));
        }
    }
    assert forall|p: (Seq<char>, int)| #[trigger] (entries_items(d) + items_of(
        last.uuid@,
        last.ranges@,
    )).contains(p) implies entries_items(ss).contains(p) by {
        if entries_items(d).contains(p) {
            let i = choose|i: int| 0 <= i < d.len() && d[i].uuid@ == p.0 && (#[trigger] d[i]).has(p.1);
            assert(ss[i] == d[i]);
        } else {
            assert(ss[ss.len() - 1].has(p.1));
        }
    }
    assert(entries_items(d) + items_of(last.uuid@, last.ranges@) =~= entries_items(ss));
}

proof fn lemma_entries_wf_prefix(ss: Seq<UUIDGtidSet>)
    requires
        ss.len() > 0,
        entries_wf(ss),
    ensures
        entries_wf(ss.drop_last()),
        ss.last().wf(),
        ss.last().ranges@.len() > 0,
        valid_uuid(ss.last().uuid@),
{
    let d = ss.drop_last();
    assert(ss.last() == ss[ss.len() - 1]);
    assert forall|i: int| 0 <= i < d.len() implies (#[trigger] d[i]).wf() && d[i].ranges@.len() > 0
        && valid_uuid(d[i].uuid@) by {
        assert(d[i] == ss[i]);
    }
    assert forall|i: int, j: int| 0 <= i < j < d.len() implies crate::text::text_lt(
        d[i].uuid@,
        d[j].uuid@,
    ) by {
        assert(d[i] == ss[i] && d[j] == ss[j]);
    }
}

#[verifier::rlimit(100)]
proof fn lemma_entries_text_chars(ss: Seq<UUIDGtidSet>)
    requires
        ss.len() > 0,
        entries_wf(ss),
    ensures
        split_spec(entries_text(ss), ',') == ss.map_values(|e: UUIDGtidSet| entry_text(e)),
        !is_space(entries_text(ss)[0]),
        !is_space(entries_text(ss).last()),
        entries_text(ss).len() > 0,
        exists|i: int| 0 <= i < entries_text(ss).len() && entries_text(ss)[i] == ':',
    decreases ss.len(),
{
    lemma_entries_wf_prefix(ss);
    let last = ss.last();
    lemma_entry_text(last);
    let ts = ss.map_values(|e: UUIDGtidSet| entry_text(e));
    let lt = entry_text(last);
    assert(lt[last.uuid@.len() as int] == ':');
    lemma_split_single(lt, ',');
    if ss.len() == 1 {
        assert(ts =~= seq![lt]);
        assert(entries_text(ss) == lt);
    } else {
        let d = ss.drop_last();
        lemma_entries_text_chars(d);
        let dt = entries_text(d);
        lemma_split_concat(dt, lt, ',');
        assert(ts =~= d.map_values(|e: UUIDGtidSet| entry_text(e)) + seq![lt]);
        let whole = entries_text(ss);
        assert(whole == dt + seq![','] + lt);
        assert(whole[0] == dt[0]);
        assert(whole.last() == lt.last());
        assert(whole[dt.len() as int + 1 + last.uuid@.len() as int] == ':');
    }
}

proof fn lemma_token_step_entry(e: UUIDGtidSet, items: Set<(Seq<char>, int)>, cur: Option<Seq<char>>)
    requires
        e.wf(),
        e.ranges@.len() > 0,
        valid_uuid(e.uuid@),
    ensures
        token_step(trim(entry_text(e)), items, cur) == Some(
            (items + items_of(e.uuid@, e.ranges@), Some(e.uuid@)),
        ),
{
    lemma_entry_text(e);
    assert(token_step(entry_text(e), items, cur) == Some(
        (items + items_of(e.uuid@, e.ranges@), Some(e.uuid@)),
    ));
}

#[verifier::rlimit(100)]
proof fn lemma_entries_tokens(ss: Seq<UUIDGtidSet>)
    requires
        ss.len() > 0,
        entries_wf(ss),
    ensures
        tokens_items(ss.map_values(|e: UUIDGtidSet| entry_text(e))) == Some(
            (entries_items(ss), Some(ss.last().uuid@)),
        ),
    decreases ss.len(),
{
    lemma_entries_wf_prefix(ss);
    let last = ss.last();
    let ts = ss.map_values(|e: UUIDGtidSet| entry_text(e));
    assert(ts.last() == entry_text(last));
    lemma_entries_items_push(ss);
    let d = ss.drop_last();
    let prev_items = entries_items(d);
    let prev_cur: Option<Seq<char>> = if d.len() == 0 { None } else { Some(d.last().uuid@) };
    if ss.len() == 1 {
        assert(ts.drop_last() =~= Seq::<Seq<char>>::empty());
        assert(d =~= Seq::<UUIDGtidSet>::empty());
        assert(prev_items =~= Set::<(Seq<char>, int)>::empty());
        assert(tokens_items(ts.drop_last()) == Some((prev_items, prev_cur)));
    } else {
        lemma_entries_tokens(d);
        assert(ts.drop_last() =~= d.map_values(|e: UUIDGtidSet| entry_text(e)));
        assert(tokens_items(ts.drop_last()) == Some((prev_items, prev_cur)));
    }
    lemma_token_step_entry(last, prev_items, prev_cur);
    assert(tokens_items(ts) == token_step(trim(ts.last()), prev_items, prev_cur));
}

/// Reading the canonical text of a well-formed set names exactly its
/// GTIDs, so its canonical text is that text again: parse then serialize
/// reproduces a canonical string byte for byte.
#[verifier::rlimit(100)]
pub proof fn lemma_canonical_text_stable(g: GtidSet)
    requires
        g.wf(),
    ensures
        parse_spec(g.text()) is Some,
        forall|u: Seq<char>, n: int|
            #[trigger] parse_spec(g.text())->Some_0.contains((u, n)) <==> g.has(u, n),
        canonicalize(g.text()) == g.text(),
{
    let ss = g.sets@;
    let t = g.text();
    if ss.len() == 0 {
        assert(t =~= Seq::<char>::empty());
        assert(trim(t) =~= Seq::<char>::empty());
    } else {
        lemma_entries_text_chars(ss);
        lemma_entries_tokens(ss);
        lemma_trim_id(t);
        let i = choose|i: int| 0 <= i < t.len() && t[i] == ':';
        assert(t != seq!['N', 'U', 'L', 'L']) by {
            if t == seq!['N', 'U', 'L', 'L'] {
                assert(t[i] != ':');
            }
        }
        assert(parse_spec(t) == Some(entries_items(ss)));
    }
    assert forall|u: Seq<char>, n: int|
        #[trigger] parse_spec(t)->Some_0.contains((u, n)) <==> g.has(u, n) by {
        if ss.len() == 0 {
            if g.has(u, n) {
                let k = choose|k: int| 0 <= k < ss.len() && ss[k].uuid@ == u && (#[trigger] ss[k]).has(n);
            }
        }
    }
    lemma_parse_serialize_canonical(t, g);
}

} // verus!
