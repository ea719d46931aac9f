//! The persistent store's flat record format: one record per line, six
//! fields separated by a single tab, in fixed order — id, title, link,
//! published (decimal seconds, or empty when absent), feed title,
//! summary (empty when absent). Field content is sanitized before
//! writing so the framing is never broken; a malformed line is skipped
//! on load rather than failing the whole collection.
use vstd::prelude::*;
use crate::entry::{Entry, EntryView, views};
use crate::text::{
    spec_sanitize,
    spec_sanitize_byte,
    spec_find_byte,
    sanitize_field,
    lemma_find_byte_is,
    lemma_find_byte_range,
};
use crate::decimal::{spec_dec_i64, spec_dec_u64, spec_parse_i64};
use crate::normalize::spec_strip_cr;

verus! {

/// The published field: the decimal instant, or empty when absent.
pub open spec fn spec_pub_field(p: Option<int>) -> Seq<u8> {
    match p {
        Some(t) => spec_dec_i64(t),
        None => seq![],
    }
}

/// One record, without its terminating newline.
pub open spec fn spec_record(e: EntryView) -> Seq<u8> {
    spec_sanitize(e.id) + seq![9u8] + spec_sanitize(e.title) + seq![9u8] + spec_sanitize(e.link)
        + seq![9u8] + spec_pub_field(e.published) + seq![9u8] + spec_sanitize(e.feed_title)
        + seq![9u8] + (match e.summary {
        Some(s) => spec_sanitize(s),
        None => seq![],
    })
}

/// A whole collection: one newline-terminated record per entry.
pub open spec fn spec_serialize_entries(s: Seq<EntryView>) -> Seq<u8>
    decreases s.len(),
{
    if s.len() == 0 {
        seq![]
    } else {
        spec_record(s[0]) + seq![10u8] + spec_serialize_entries(s.skip(1))
    }
}

/// One line parsed back to an entry: at least five tabs, the sixth field
/// keeping everything past the fifth; a line with fewer fields is
/// corrupt and yields nothing. An unparsable published field leaves the
/// instant absent; an empty summary field means no summary.
pub open spec fn spec_parse_record(line: Seq<u8>) -> Option<EntryView> {
    let t1 = spec_find_byte(line, 9, 0);
    let t2 = spec_find_byte(line, 9, t1 + 1);
    let t3 = spec_find_byte(line, 9, t2 + 1);
    let t4 = spec_find_byte(line, 9, t3 + 1);
    let t5 = spec_find_byte(line, 9, t4 + 1);
    if t5 >= line.len() {
        None
    } else {
        let f5 = line.skip(t5 + 1);
        Some(
            EntryView {
                id: line.subrange(0, t1),
                title: line.subrange(t1 + 1, t2),
                link: line.subrange(t2 + 1, t3),
                published: spec_parse_i64(line.subrange(t3 + 1, t4)),
                feed_title: line.subrange(t4 + 1, t5),
                summary: if f5.len() == 0 {
                    None
                } else {
                    Some(f5)
                },
            },
        )
    }
}

/// A whole stream parsed back: split at newlines, a trailing carriage
/// return dropped from each line, corrupt lines skipped.
pub open spec fn spec_parse_entries(s: Seq<u8>) -> Seq<EntryView>
    decreases s.len(),
{
    if s.len() == 0 {
        seq![]
    } else {
        let j0 = spec_find_byte(s, 10, 0);
        let j = if 0 <= j0 <= s.len() {
            j0
        } else {
            s.len() as int
        };
        let line = spec_strip_cr(s.subrange(0, j));
        let rest = if j < s.len() {
            s.skip(j + 1)
        } else {
            Seq::<u8>::empty()
        };
        (match spec_parse_record(line) {
            Some(e) => seq![e],
            None => seq![],
        }) + spec_parse_entries(rest)
    }
}

/// Serialize one entry as a tab-separated record, newline excluded.
fn serialize_record(e: &Entry) -> (r: Vec<u8>)
    ensures
        r@ == spec_record(e@),
{
    let mut r: Vec<u8> = Vec::new();
    let mut f = sanitize_field(e.id.as_slice());
    r.append(&mut f);
    r.push(9);
    let mut f = sanitize_field(e.title.as_slice());
    r.append(&mut f);
    r.push(9);
    let mut f = sanitize_field(e.link.as_slice());
    r.append(&mut f);
    r.push(9);
    match &e.published {
        Some(t) => {
            let mut f = crate::decimal::i64_to_dec(*t);
            r.append(&mut f);
        },
        None => {},
    }
    r.push(9);
    let mut f = sanitize_field(e.feed_title.as_slice());
    r.append(&mut f);
    r.push(9);
    match &e.summary {
        Some(s) => {
            let mut f = sanitize_field(s.as_slice());
            r.append(&mut f);
        },
        None => {},
    }
    proof {
        assert(r@ =~= spec_record(e@));
    }
    r
}

/// Serialize a collection for the record file, one line per entry.
pub fn serialize_entries(entries: &Vec<Entry>) -> (r: Vec<u8>)
    ensures
        r@ == spec_serialize_entries(views(entries@)),
{
    let mut r: Vec<u8> = Vec::new();
    let mut i: usize = 0;
    let ghost vall = views(entries@);
    proof {
        assert(vall.skip(0) =~= vall);
        assert(r@ + spec_serialize_entries(vall) =~= spec_serialize_entries(vall));
    }
    while i < entries.len()
        invariant
            i <= entries@.len(),
            vall == views(entries@),
            r@ + spec_serialize_entries(vall.skip(i as int)) == spec_serialize_entries(vall),
        decreases entries@.len() - i,
    {
        proof {
            assert(vall.skip(i as int)[0] == vall[i as int]);
            assert(vall.skip(i as int).skip(1) =~= vall.skip(i as int + 1));
        }
        let mut rec = serialize_record(&entries[i]);
        r.append(&mut rec);
        r.push(10);
        i += 1;
        proof {
            assert(r@ + spec_serialize_entries(vall.skip(i as int)) =~= spec_serialize_entries(
                vall,
            ));
        }
    }
    proof {
        assert(vall.skip(vall.len() as int) =~= Seq::<EntryView>::empty());
        assert(r@ + spec_serialize_entries(vall.skip(vall.len() as int)) =~= r@);
    }
    r
}

/// Parse one line of the record file.
fn parse_record(line: &[u8]) -> (r: Option<Entry>)
    ensures
        (match r {
            Some(e) => Some(e@),
            None => None,
        }) == spec_parse_record(line@),
{
    let t1 = crate::text::find_byte(line, 9, 0);
    proof {
        lemma_find_byte_range(line@, 9, 0);
    }
    if t1 >= line.len() {
        return None;
    }
    let t2 = crate::text::find_byte(line, 9, t1 + 1);
    proof {
        lemma_find_byte_range(line@, 9, t1 as int + 1);
    }
    if t2 >= line.len() {
        return None;
    }
    let t3 = crate::text::find_byte(line, 9, t2 + 1);
    proof {
        lemma_find_byte_range(line@, 9, t2 as int + 1);
    }
    if t3 >= line.len() {
        return None;
    }
    let t4 = crate::text::find_byte(line, 9, t3 + 1);
    proof {
        lemma_find_byte_range(line@, 9, t3 as int + 1);
    }
    if t4 >= line.len() {
        return None;
    }
    let t5 = crate::text::find_byte(line, 9, t4 + 1);
    proof {
        lemma_find_byte_range(line@, 9, t4 as int + 1);
    }
    if t5 >= line.len() {
        return None;
    }
    let id = crate::text::slice_to_vec_u8(&line[0..t1]);
    let title = crate::text::slice_to_vec_u8(&line[t1 + 1..t2]);
    let link = crate::text::slice_to_vec_u8(&line[t2 + 1..t3]);
    let published = crate::decimal::parse_i64_dec(&line[t3 + 1..t4]);
    let feed_title = crate::text::slice_to_vec_u8(&line[t4 + 1..t5]);
    let f5 = crate::text::slice_to_vec_u8(&line[t5 + 1..line.len()]);
    proof {
        assert(f5@ =~= line@.skip(t5 as int + 1));
    }
    let summary: Option<Vec<u8>> = if f5.len() == 0 {
        None
    } else {
        Some(f5)
    };
    Some(Entry { id, title, link, published, feed_title, summary })
}

/// Parse a whole record file; a missing file is an empty input and
/// yields an empty collection.
pub fn parse_entries(data: &[u8]) -> (r: Vec<Entry>)
    ensures
        views(r@) == spec_parse_entries(data@),
{
    let mut r: Vec<Entry> = Vec::new();
    let mut pos: usize = 0;
    let ghost whole = data@;
    proof {
        assert(whole.skip(0) =~= whole);
        assert(views(r@) + spec_parse_entries(whole) =~= spec_parse_entries(whole));
    }
    while pos < data.len()
        invariant
            pos <= data@.len(),
            whole == data@,
            views(r@) + spec_parse_entries(whole.skip(pos as int)) == spec_parse_entries(whole),
        decreases data@.len() - pos,
    {
        let ghost seg = whole.skip(pos as int);
        let j = crate::text::find_byte(data, 10, pos);
        proof {
            lemma_find_byte_range(whole, 10, pos as int);
            lemma_find_byte_skip(whole, 10, pos as int);
            assert(whole.subrange(pos as int, j as int) =~= seg.subrange(
                0,
                spec_find_byte(seg, 10, 0),
            ));
        }
        let mut line = crate::text::slice_to_vec_u8(&data[pos..j]);
        if line.len() > 0 && line[line.len() - 1] == 13 {
            line.pop();
        }
        proof {
            assert(line@ == spec_strip_cr(seg.subrange(0, spec_find_byte(seg, 10, 0))));
        }
        match parse_record(line.as_slice()) {
            Some(e) => {
                r.push(e);
                proof {
                    assert(views(r@) =~= views(r@.drop_last()).push(e@));
                }
            },
            None => {},
        }
        let next = if j < data.len() {
            j + 1
        } else {
            j
        };
        proof {
            if (j as int) < seg.len() + pos {
                assert(whole.skip(j as int + 1) =~= seg.skip(j - pos as int + 1));
            }
            assert(whole.skip(next as int).len() == 0 ==> whole.skip(next as int)
                =~= Seq::<u8>::empty());
        }
        pos = next;
        proof {
            assert(views(r@) + spec_parse_entries(whole.skip(pos as int)) =~= spec_parse_entries(
                whole,
            ));
        }
    }
    proof {
        assert(whole.skip(whole.len() as int) =~= Seq::<u8>::empty());
        assert(views(r@) + spec_parse_entries(whole.skip(whole.len() as int)) =~= views(r@));
    }
    r
}

/// An entry with each text field sanitized; what a round trip through
/// the record file preserves of an entry.
pub open spec fn spec_sanitize_entry(e: EntryView) -> EntryView {
    EntryView {
        id: spec_sanitize(e.id),
        title: spec_sanitize(e.title),
        link: spec_sanitize(e.link),
        published: e.published,
        feed_title: spec_sanitize(e.feed_title),
        summary: match e.summary {
            Some(s) => Some(spec_sanitize(s)),
            None => None,
        },
    }
}

proof fn lemma_sanitize_free(s: Seq<u8>)
    ensures
        spec_sanitize(s).len() == s.len(),
        forall|i: int|
            0 <= i < s.len() ==> #[trigger] spec_sanitize(s)[i] != 9 && spec_sanitize(s)[i] != 10,
{
}

proof fn lemma_dec_free(t: int)
    requires
        -0x8000000000000000 <= t <= 0x7fffffffffffffff,
    ensures
        forall|i: int|
            0 <= i < spec_dec_i64(t).len() ==> #[trigger] spec_dec_i64(t)[i] != 9 && spec_dec_i64(
                t,
            )[i] != 10 && spec_dec_i64(t)[i] != 13,
{
    if t >= 0 {
        crate::decimal::lemma_dec_u64_props(t as nat);
    } else {
        crate::decimal::lemma_dec_u64_props((-t) as nat);
        assert(forall|i: int|
            1 <= i < spec_dec_i64(t).len() ==> #[trigger] spec_dec_i64(t)[i] == spec_dec_u64(
                (-t) as nat,
            )[i - 1]);
    }
}

/// Serializing one entry and reading its line back yields the entry,
/// fields sanitized: the record framing survives any field content.
#[verifier::rlimit(60)]
pub proof fn lemma_record_round_trip(e: EntryView)
    requires
        e.published matches Some(t) ==> -0x8000000000000000 <= t <= 0x7fffffffffffffff,
        e.summary matches Some(s) ==> s.len() > 0 && s.last() != 13,
    ensures
        spec_record(e).len() >= 5,
        spec_record(e).last() != 13,
        forall|i: int| 0 <= i < spec_record(e).len() ==> #[trigger] spec_record(e)[i] != 10,
        spec_parse_record(spec_record(e)) == Some(spec_sanitize_entry(e)),
{
    let a = spec_sanitize(e.id);
    let b = spec_sanitize(e.title);
    let c = spec_sanitize(e.link);
    let d = spec_pub_field(e.published);
    let f = spec_sanitize(e.feed_title);
    let g = match e.summary {
        Some(s) => spec_sanitize(s),
        None => Seq::<u8>::empty(),
    };
    let r = spec_record(e);
    lemma_sanitize_free(e.id);
    lemma_sanitize_free(e.title);
    lemma_sanitize_free(e.link);
    lemma_sanitize_free(e.feed_title);
    match e.published {
        Some(t) => lemma_dec_free(t),
        None => {},
    }
    match e.summary {
        Some(s) => lemma_sanitize_free(s),
        None => {},
    }
    let t1 = a.len() as int;
    let t2 = t1 + 1 + b.len();
    let t3 = t2 + 1 + c.len();
    let t4 = t3 + 1 + d.len();
    let t5 = t4 + 1 + f.len();
    assert(r =~= a + seq![9u8] + b + seq![9u8] + c + seq![9u8] + d + seq![9u8] + f + seq![9u8] + g);
    assert(r.len() == t5 + 1 + g.len());
    assert(r[t1] == 9 && r[t2] == 9 && r[t3] == 9 && r[t4] == 9 && r[t5] == 9);
    assert(r.subrange(0, t1) =~= a);
    assert(r.subrange(t1 + 1, t2) =~= b);
    assert(r.subrange(t2 + 1, t3) =~= c);
    assert(r.subrange(t3 + 1, t4) =~= d);
    assert(r.subrange(t4 + 1, t5) =~= f);
    assert(r.skip(t5 + 1) =~= g);
    lemma_find_byte_is(r, 9, 0, t1);
    lemma_find_byte_is(r, 9, t1 + 1, t2);
    lemma_find_byte_is(r, 9, t2 + 1, t3);
    lemma_find_byte_is(r, 9, t3 + 1, t4);
    lemma_find_byte_is(r, 9, t4 + 1, t5);
    match e.published {
        Some(t) => {
            crate::decimal::lemma_dec_i64_round_trip(t);
        },
        None => {
            assert(spec_parse_i64(Seq::<u8>::empty()) is None);
        },
    }
    match e.summary {
        Some(s) => {
            assert(g.len() > 0);
            assert(g.last() != 13);
            assert(r.last() == g.last());
        },
        None => {
            assert(r.last() == 9);
        },
    }
    assert(spec_parse_record(r) == Some(spec_sanitize_entry(e)));
}

/// Saving a collection and loading it back yields the same collection,
/// fields sanitized; for fields already free of the delimiter and
/// line-break bytes, the identical collection.
pub proof fn lemma_store_round_trip(es: Seq<EntryView>)
    requires
        forall|k: int|
            0 <= k < es.len() ==> ((#[trigger] es[k]).published matches Some(t)
                ==> -0x8000000000000000 <= t <= 0x7fffffffffffffff),
        forall|k: int|
            0 <= k < es.len() ==> ((#[trigger] es[k]).summary matches Some(s) ==> s.len() > 0
                && s.last() != 13),
    ensures
        spec_parse_entries(spec_serialize_entries(es)) == es.map_values(
            |e: EntryView| spec_sanitize_entry(e),
        ),
    decreases es.len(),
{
    let m = es.map_values(|e: EntryView| spec_sanitize_entry(e));
    if es.len() == 0 {
        assert(spec_parse_entries(spec_serialize_entries(es)) =~= m);
    } else {
        let e = es[0];
        let r = spec_record(e);
        lemma_record_round_trip(e);
        let tail = spec_serialize_entries(es.skip(1));
        let s = spec_serialize_entries(es);
        assert(s =~= r + seq![10u8] + tail);
        assert(forall|i: int| 0 <= i < r.len() ==> #[trigger] s[i] == r[i]);
        assert(s[r.len() as int] == 10);
        lemma_find_byte_is(s, 10, 0, r.len() as int);
        assert(s.subrange(0, r.len() as int) =~= r);
        assert(spec_strip_cr(r) == r);
        assert(s.skip(r.len() as int + 1) =~= tail);
        assert(forall|k: int| 0 <= k < es.skip(1).len() ==> #[trigger] es.skip(1)[k] == es[k + 1]);
        lemma_store_round_trip(es.skip(1));
        assert(spec_parse_entries(s) =~= seq![spec_sanitize_entry(e)] + es.skip(1).map_values(
            |e2: EntryView| spec_sanitize_entry(e2),
        ));
        assert(spec_parse_entries(s) =~= m);
    }
}

/// A field free of the delimiter and line-break bytes.
pub open spec fn spec_field_clean(s: Seq<u8>) -> bool {
    forall|i: int| 0 <= i < s.len() ==> s[i] != 9 && #[trigger] s[i] != 10
}

/// For entries whose fields are already free of the delimiter and
/// line-break bytes, saving and loading yields the identical collection.
pub proof fn lemma_store_round_trip_clean(es: Seq<EntryView>)
    requires
        forall|k: int|
            0 <= k < es.len() ==> ((#[trigger] es[k]).published matches Some(t)
                ==> -0x8000000000000000 <= t <= 0x7fffffffffffffff),
        forall|k: int|
            0 <= k < es.len() ==> ((#[trigger] es[k]).summary matches Some(s) ==> s.len() > 0
                && s.last() != 13 && spec_field_clean(s)),
        forall|k: int|
            0 <= k < es.len() ==> spec_field_clean((#[trigger] es[k]).id) && spec_field_clean(
                es[k].title,
            ) && spec_field_clean(es[k].link) && spec_field_clean(es[k].feed_title),
    ensures
        spec_parse_entries(spec_serialize_entries(es)) == es,
{
    lemma_store_round_trip(es);
    assert forall|k: int| 0 <= k < es.len() implies es.map_values(
        |e: EntryView| spec_sanitize_entry(e),
    )[k] == es[k] by {
        let e = es[k];
        assert(spec_sanitize(e.id) =~= e.id);
        assert(spec_sanitize(e.title) =~= e.title);
        assert(spec_sanitize(e.link) =~= e.link);
        assert(spec_sanitize(e.feed_title) =~= e.feed_title);
        match e.summary {
            Some(s) => {
                assert(spec_sanitize(s) =~= s);
            },
            None => {},
        }
    }
    assert(es.map_values(|e: EntryView| spec_sanitize_entry(e)) =~= es);
}

/// The search for a byte in a suffix mirrors the search in the whole.
pub proof fn lemma_find_byte_skip(s: Seq<u8>, b: u8, from: int)
    requires
        0 <= from <= s.len(),
    ensures
        spec_find_byte(s, b, from) == from + spec_find_byte(s.skip(from), b, 0),
{
    lemma_find_byte_range(s, b, from);
    let k = spec_find_byte(s, b, from);
    lemma_find_byte_is(s.skip(from), b, 0, k - from);
}

} // verus!
