//! The entry normalizer: a raw item plus its source feed's URL and
//! resolved title become one canonical entry. First-value-wins field
//! policy is the parser's; here each field is made canonical.
use vstd::prelude::*;
use crate::entry::{Entry, EntryView, RawEntry, RawEntryView};
use crate::text::{spec_find_byte, spec_strip_html};
use crate::timestamp::{spec_parse_timestamp, spec_trim};

verus! {

/// A line with one trailing carriage return removed.
pub open spec fn spec_strip_cr(s: Seq<u8>) -> Seq<u8> {
    if s.len() > 0 && s.last() == 13 {
        s.drop_last()
    } else {
        s
    }
}

/// The first two lines of `s`, joined by a single space; one line stays
/// as it is, and a line keeps no trailing carriage return.
pub open spec fn spec_first_two_lines(s: Seq<u8>) -> Seq<u8> {
    let j = spec_find_byte(s, 10, 0);
    let l1 = spec_strip_cr(s.subrange(0, j));
    if j + 1 < s.len() {
        let k = spec_find_byte(s, 10, j + 1);
        l1 + seq![32u8] + spec_strip_cr(s.subrange(j + 1, k))
    } else {
        l1
    }
}

/// A UTF-8 continuation byte: not the start of a character.
pub open spec fn spec_is_cont_byte(b: u8) -> bool {
    128 <= b < 192
}

/// The number of characters in a text: its non-continuation bytes.
pub open spec fn spec_char_count(s: Seq<u8>) -> int
    decreases s.len(),
{
    if s.len() == 0 {
        0
    } else {
        spec_char_count(s.drop_last()) + (if spec_is_cont_byte(s.last()) {
            0int
        } else {
            1int
        })
    }
}

/// The first `n` characters of a text: the cut falls before a character
/// start, never inside a multi-byte sequence.
pub open spec fn spec_take_chars(s: Seq<u8>, n: int) -> Seq<u8>
    decreases s.len(),
{
    if s.len() == 0 {
        s
    } else if !spec_is_cont_byte(s[0]) && n <= 0 {
        seq![]
    } else {
        seq![s[0]] + spec_take_chars(
            s.skip(1),
            if spec_is_cont_byte(s[0]) {
                n
            } else {
                n - 1
            },
        )
    }
}

fn char_count(s: &[u8]) -> (r: usize)
    ensures
        r == spec_char_count(s@),
        r <= s@.len(),
{
    let mut cnt: usize = 0;
    let mut i: usize = 0;
    proof {
        assert(s@.take(0) =~= Seq::<u8>::empty());
    }
    while i < s.len()
        invariant
            i <= s@.len(),
            cnt <= i,
            cnt == spec_char_count(s@.take(i as int)),
        decreases s@.len() - i,
    {
        let b = s[i];
        if !(128 <= b && b < 192) {
            cnt += 1;
        }
        i += 1;
        proof {
            assert(s@.take(i as int).drop_last() =~= s@.take(i as int - 1));
            assert(s@.take(i as int).last() == b);
        }
    }
    proof {
        assert(s@.take(s@.len() as int) =~= s@);
    }
    cnt
}

fn take_chars(s: &[u8], n: usize) -> (r: Vec<u8>)
    ensures
        r@ == spec_take_chars(s@, n as int),
{
    let mut r: Vec<u8> = Vec::new();
    let mut i: usize = 0;
    let mut rem: usize = n;
    proof {
        assert(s@.skip(0) =~= s@);
        assert(r@ + spec_take_chars(s@, n as int) =~= spec_take_chars(s@, n as int));
    }
    while i < s.len()
        invariant
            i <= s@.len(),
            rem <= n,
            r@ + spec_take_chars(s@.skip(i as int), rem as int) == spec_take_chars(s@, n as int),
        decreases s@.len() - i,
    {
        let b = s[i];
        proof {
            assert(s@.skip(i as int)[0] == b);
            assert(s@.skip(i as int).skip(1) =~= s@.skip(i as int + 1));
        }
        if 128 <= b && b < 192 {
            r.push(b);
        } else if rem > 0 {
            r.push(b);
            rem -= 1;
        } else {
            proof {
                assert(r@ + spec_take_chars(s@.skip(i as int), rem as int) =~= r@);
            }
            return r;
        }
        i += 1;
        proof {
            assert(r@ + spec_take_chars(s@.skip(i as int), rem as int) =~= spec_take_chars(
                s@,
                n as int,
            ));
        }
    }
    proof {
        assert(s@.skip(s@.len() as int) =~= Seq::<u8>::empty());
        assert(r@ + spec_take_chars(s@.skip(s@.len() as int), rem as int) =~= r@);
    }
    r
}

/// The noise marker: a summary exactly equal to it is discarded.
pub open spec fn spec_noise_marker() -> Seq<u8> {
    seq![67u8, 111u8, 109u8, 109u8, 101u8, 110u8, 116u8, 115u8]
}

/// The canonical summary of raw summary text: markup stripped, character
/// references decoded, surrounding whitespace trimmed, the first two
/// lines joined by a space; text beyond 200 characters is hard-truncated
/// to its first 197 characters plus a three-character ellipsis marker,
/// so the result never exceeds 200 characters and never splits a
/// multi-byte sequence; absent when empty or equal to the noise marker.
pub open spec fn spec_normalize_summary(s: Seq<u8>) -> Option<Seq<u8>> {
    let tw = spec_first_two_lines(spec_trim(spec_strip_html(s)));
    let out = if spec_char_count(tw) > 200 {
        spec_take_chars(tw, 197) + seq![46u8, 46u8, 46u8]
    } else {
        tw
    };
    if out.len() == 0 || out == spec_noise_marker() {
        None
    } else {
        Some(out)
    }
}

/// The placeholder title for an item whose source title is empty.
pub open spec fn spec_untitled() -> Seq<u8> {
    seq![40u8, 117u8, 110u8, 116u8, 105u8, 116u8, 108u8, 101u8, 100u8, 41u8]
}

/// The composite dedup key: source URL, a `#` separator, then the item's
/// own id, or its link when the id is empty.
pub open spec fn spec_entry_id(url: Seq<u8>, raw: RawEntryView) -> Seq<u8> {
    url + seq![35u8] + (if raw.id.len() > 0 {
        raw.id
    } else {
        raw.link
    })
}

/// The canonical entry for one raw item from the given source.
pub open spec fn spec_normalize_entry(url: Seq<u8>, feed_title: Seq<u8>, raw: RawEntryView)
    -> EntryView {
    EntryView {
        id: spec_entry_id(url, raw),
        title: if raw.title.len() == 0 {
            spec_untitled()
        } else {
            raw.title
        },
        link: raw.link,
        published: match raw.published {
            Some(p) => spec_parse_timestamp(p),
            None => None,
        },
        feed_title: feed_title,
        summary: match raw.summary {
            Some(s) => spec_normalize_summary(s),
            None => None,
        },
    }
}

fn normalize_summary(s: &[u8]) -> (r: Option<Vec<u8>>)
    ensures
        (match r {
            Some(v) => Some(v@),
            None => None,
        }) == spec_normalize_summary(s@),
{
    let stripped = crate::text::strip_html(s);
    let st = crate::timestamp::trim_bytes(stripped.as_slice());
    let j = crate::text::find_byte(st.as_slice(), 10, 0);
    proof {
        crate::text::lemma_find_byte_range(st@, 10, 0);
    }
    let mut tw: Vec<u8> = crate::text::slice_to_vec_u8(&st.as_slice()[0..j]);
    if tw.len() > 0 && tw[tw.len() - 1] == 13 {
        tw.pop();
    }
    proof {
        assert(tw@ == spec_strip_cr(st@.subrange(0, j as int)));
    }
    if st.len() > 0 && j < st.len() - 1 {
        let k = crate::text::find_byte(st.as_slice(), 10, j + 1);
        proof {
            crate::text::lemma_find_byte_range(st@, 10, j as int + 1);
        }
        let mut l2: Vec<u8> = crate::text::slice_to_vec_u8(&st.as_slice()[j + 1..k]);
        if l2.len() > 0 && l2[l2.len() - 1] == 13 {
            l2.pop();
        }
        proof {
            assert(l2@ == spec_strip_cr(st@.subrange(j as int + 1, k as int)));
        }
        tw.push(32);
        tw.append(&mut l2);
        proof {
            assert(tw@ =~= spec_first_two_lines(st@));
        }
    }
    proof {
        assert(tw@ == spec_first_two_lines(st@));
    }
    let mut out: Vec<u8> = if char_count(tw.as_slice()) > 200 {
        let mut cut = take_chars(tw.as_slice(), 197);
        cut.push(46);
        cut.push(46);
        cut.push(46);
        proof {
            assert(cut@ =~= spec_take_chars(tw@, 197) + seq![46u8, 46u8, 46u8]);
        }
        cut
    } else {
        tw
    };
    let marker: [u8; 8] = [67, 111, 109, 109, 101, 110, 116, 115];
    if out.len() == 0 || crate::text::bytes_eq(out.as_slice(), marker.as_slice()) {
        None
    } else {
        Some(out)
    }
}

/// Normalize one raw item against its source feed's URL and resolved
/// title.
pub fn normalize_entry(url: &[u8], feed_title: &[u8], raw: RawEntry) -> (e: Entry)
    ensures
        e@ == spec_normalize_entry(url@, feed_title@, raw@),
{
    let mut id: Vec<u8> = crate::text::slice_to_vec_u8(url);
    id.push(35);
    if raw.id.len() > 0 {
        id.extend_from_slice(raw.id.as_slice());
    } else {
        id.extend_from_slice(raw.link.as_slice());
    }
    proof {
        assert(id@ =~= spec_entry_id(url@, raw@));
    }
    let title: Vec<u8> = if raw.title.len() == 0 {
        let t: [u8; 10] = [40, 117, 110, 116, 105, 116, 108, 101, 100, 41];
        crate::text::slice_to_vec_u8(t.as_slice())
    } else {
        raw.title
    };
    proof {
        assert(title@ == (if raw@.title.len() == 0 {
            spec_untitled()
        } else {
            raw@.title
        }));
    }
    let published: Option<i64> = match &raw.published {
        Some(p) => crate::timestamp::parse_timestamp(p.as_slice()),
        None => None,
    };
    let summary: Option<Vec<u8>> = match raw.summary {
        Some(s) => normalize_summary(s.as_slice()),
        None => None,
    };
    Entry {
        id,
        title,
        link: raw.link,
        published,
        feed_title: crate::text::slice_to_vec_u8(feed_title),
        summary,
    }
}

/// One feed document, parsed and normalized: the raw bytes of the
/// document become canonical entries, in document order, against the
/// feed's resolved display name; the flag reports a structural parse
/// fault, after which the entries closed before the fault still stand.
pub fn process_feed(url: &[u8], xml: &[u8]) -> (r: (Vec<Entry>, bool))
    requires
        xml@.len() < 0x4000000000000000,
    ensures
        ({
            let (t, items, fault) = crate::parser::spec_parse_feed(xml@);
            let resolved = if t.len() == 0 {
                url@
            } else {
                t
            };
            r.0@.len() == items.len() && r.1 == fault && (forall|k: int|
                0 <= k < r.0@.len() ==> (#[trigger] r.0@[k])@ == spec_normalize_entry(
                    url@,
                    resolved,
                    items[k],
                ))
        }),
{
    let (title, raws, fault) = crate::parser::parse_feed(xml);
    let resolved = resolve_feed_title(url, title.as_slice());
    let ghost items = crate::parser::spec_parse_feed(xml@).1;
    proof {
        assert(items == raws@.map_values(|e: RawEntry| e@));
    }
    let r = normalize_feed(url, resolved.as_slice(), raws);
    proof {
        assert forall|k: int| 0 <= k < r@.len() implies (#[trigger] r@[k])@ == spec_normalize_entry(
            url@,
            (if crate::parser::spec_parse_feed(xml@).0.len() == 0 {
                url@
            } else {
                crate::parser::spec_parse_feed(xml@).0
            }),
            items[k],
        ) by {
            assert(items[k] == raws@[k]@);
        }
    }
    (r, fault)
}

/// The feed's display name: its own title, or its URL when the document
/// supplied none.
pub fn resolve_feed_title(url: &[u8], title: &[u8]) -> (r: Vec<u8>)
    ensures
        r@ == (if title@.len() == 0 {
            url@
        } else {
            title@
        }),
{
    if title.len() == 0 {
        crate::text::slice_to_vec_u8(url)
    } else {
        crate::text::slice_to_vec_u8(title)
    }
}

/// Entries normalized from two distinct feeds carry distinct ids, even
/// when the items' own ids are the same literal text: the composite id
/// incorporates the source URL. This holds for source URLs free of the
/// `#` separator byte; a URL containing `#` could collide with another.
pub proof fn lemma_distinct_feeds_distinct_ids(
    u1: Seq<u8>,
    f1: Seq<u8>,
    r1: RawEntryView,
    u2: Seq<u8>,
    f2: Seq<u8>,
    r2: RawEntryView,
)
    requires
        u1 != u2,
        forall|i: int| 0 <= i < u1.len() ==> u1[i] != 35,
        forall|i: int| 0 <= i < u2.len() ==> u2[i] != 35,
    ensures
        spec_normalize_entry(u1, f1, r1).id != spec_normalize_entry(u2, f2, r2).id,
{
    let x1 = if r1.id.len() > 0 {
        r1.id
    } else {
        r1.link
    };
    let x2 = if r2.id.len() > 0 {
        r2.id
    } else {
        r2.link
    };
    let id1 = u1 + seq![35u8] + x1;
    let id2 = u2 + seq![35u8] + x2;
    if id1 == id2 {
        if u1.len() == u2.len() {
            assert(u1 =~= u2) by {
                assert forall|i: int| 0 <= i < u1.len() implies u1[i] == u2[i] by {
                    assert(id1[i] == u1[i]);
                    assert(id2[i] == u2[i]);
                }
            }
        } else if u1.len() < u2.len() {
            assert(id1[u1.len() as int] == 35);
            assert(id2[u1.len() as int] == u2[u1.len() as int]);
        } else {
            assert(id2[u2.len() as int] == 35);
            assert(id1[u2.len() as int] == u1[u2.len() as int]);
        }
    }
}

/// Normalize every raw item of one feed document, in document order.
pub fn normalize_feed(url: &[u8], feed_title: &[u8], raws: Vec<RawEntry>) -> (r: Vec<Entry>)
    ensures
        r@.len() == raws@.len(),
        forall|k: int|
            0 <= k < r@.len() ==> (#[trigger] r@[k])@ == spec_normalize_entry(
                url@,
                feed_title@,
                raws@[k]@,
            ),
{
    let mut r: Vec<Entry> = Vec::new();
    let mut rest = raws;
    let ghost all = rest@;
    proof {
        assert(all.skip(0) =~= all);
    }
    while rest.len() > 0
        invariant
            r@.len() + rest@.len() == all.len(),
            rest@ == all.skip(r@.len() as int),
            forall|k: int|
                0 <= k < r@.len() ==> (#[trigger] r@[k])@ == spec_normalize_entry(
                    url@,
                    feed_title@,
                    all[k]@,
                ),
        decreases rest@.len(),
    {
        let ghost i = r@.len() as int;
        let raw = rest.remove(0);
        proof {
            assert(all.skip(i)[0] == all[i]);
            assert(raw == all[i]);
            assert(rest@ =~= all.skip(i + 1));
        }
        let e = normalize_entry(url, feed_title, raw);
        r.push(e);
        proof {
            assert(r@[i] == e);
        }
    }
    r
}

} // verus!
