//! The streaming markup parser: one forward pass over a feed document's
//! bytes, producing the feed title and one raw item per item/entry
//! element, in document order. Tag roles are matched on the local name
//! (any namespace prefix up to the last colon ignored). A structural
//! fault stops the scan; everything closed before the fault is kept.
use vstd::prelude::*;
use crate::entry::{RawEntry, RawEntryView};
use crate::text::{
    spec_find_byte,
    spec_find_sub,
    spec_starts_with_at,
    find_byte,
    find_sub,
    starts_with_at,
    slice_to_vec_u8,
    lemma_find_byte_range,
    lemma_find_sub_range,
};
use crate::timestamp::{spec_is_ws, spec_trim, trim_bytes};

verus! {

/// First whitespace byte at or after `from`, or `s.len()`.
pub open spec fn spec_find_ws(s: Seq<u8>, from: int) -> int
    decreases s.len() - from,
{
    if from < 0 || from >= s.len() {
        s.len() as int
    } else if spec_is_ws(s[from]) {
        from
    } else {
        spec_find_ws(s, from + 1)
    }
}

proof fn lemma_find_ws_range(s: Seq<u8>, from: int)
    requires
        0 <= from <= s.len(),
    ensures
        from <= spec_find_ws(s, from) <= s.len(),
    decreases s.len() - from,
{
    if from < s.len() && !spec_is_ws(s[from]) {
        lemma_find_ws_range(s, from + 1);
    }
}

fn find_ws(s: &[u8], from: usize) -> (r: usize)
    requires
        from <= s@.len(),
    ensures
        r == spec_find_ws(s@, from as int),
{
    let mut i: usize = from;
    while i < s.len()
        invariant
            from <= i <= s@.len(),
            spec_find_ws(s@, from as int) == spec_find_ws(s@, i as int),
        decreases s@.len() - i,
    {
        let b = s[i];
        if b == 32 || b == 9 || b == 10 || b == 13 {
            return i;
        }
        i += 1;
    }
    i
}

/// One parsing event of the forward pass.
pub enum MarkupEvent {
    /// Character data between tags, raw and undecoded.
    Text(Vec<u8>),
    /// A raw unescaped text block.
    CData(Vec<u8>),
    /// An opening tag: its name, its attribute region, and whether the
    /// element closes itself.
    Start { name: Vec<u8>, attrs: Vec<u8>, empty: bool },
    /// A closing tag and its name.
    End(Vec<u8>),
    /// Markup with no role here: a comment, an instruction, a
    /// declaration.
    Skip,
    /// A structural fault: the scan stops, keeping what was closed.
    Fault,
}

pub enum MarkupEventView {
    Text(Seq<u8>),
    CData(Seq<u8>),
    Start { name: Seq<u8>, attrs: Seq<u8>, empty: bool },
    End(Seq<u8>),
    Skip,
    Fault,
}

impl View for MarkupEvent {
    type V = MarkupEventView;

    open spec fn view(&self) -> MarkupEventView {
        match self {
            MarkupEvent::Text(t) => MarkupEventView::Text(t@),
            MarkupEvent::CData(t) => MarkupEventView::CData(t@),
            MarkupEvent::Start { name, attrs, empty } => MarkupEventView::Start {
                name: name@,
                attrs: attrs@,
                empty: *empty,
            },
            MarkupEvent::End(t) => MarkupEventView::End(t@),
            MarkupEvent::Skip => MarkupEventView::Skip,
            MarkupEvent::Fault => MarkupEventView::Fault,
        }
    }
}

pub open spec fn spec_comment_open() -> Seq<u8> {
    seq![60u8, 33u8, 45u8, 45u8]
}

pub open spec fn spec_comment_close() -> Seq<u8> {
    seq![45u8, 45u8, 62u8]
}

pub open spec fn spec_cdata_open() -> Seq<u8> {
    seq![60u8, 33u8, 91u8, 67u8, 68u8, 65u8, 84u8, 65u8, 91u8]
}

pub open spec fn spec_cdata_close() -> Seq<u8> {
    seq![93u8, 93u8, 62u8]
}

pub open spec fn spec_pi_close() -> Seq<u8> {
    seq![63u8, 62u8]
}

/// The event beginning at `pos`, and the position just past it.
pub open spec fn spec_next_event(s: Seq<u8>, pos: int) -> (MarkupEventView, int) {
    if s[pos] != 60 {
        let j = spec_find_byte(s, 60, pos);
        (MarkupEventView::Text(s.subrange(pos, j)), j)
    } else if pos + 1 >= s.len() {
        (MarkupEventView::Fault, s.len() as int)
    } else if s[pos + 1] == 33 {
        if spec_starts_with_at(s, spec_comment_open(), pos) {
            let c = spec_find_sub(s, spec_comment_close(), pos + 4);
            if c < s.len() {
                (MarkupEventView::Skip, c + 3)
            } else {
                (MarkupEventView::Fault, s.len() as int)
            }
        } else if spec_starts_with_at(s, spec_cdata_open(), pos) {
            let c = spec_find_sub(s, spec_cdata_close(), pos + 9);
            if c < s.len() {
                (MarkupEventView::CData(s.subrange(pos + 9, c)), c + 3)
            } else {
                (MarkupEventView::Fault, s.len() as int)
            }
        } else {
            let j = spec_find_byte(s, 62, pos);
            if j < s.len() {
                (MarkupEventView::Skip, j + 1)
            } else {
                (MarkupEventView::Fault, s.len() as int)
            }
        }
    } else if s[pos + 1] == 63 {
        let c = spec_find_sub(s, spec_pi_close(), pos + 2);
        if c < s.len() {
            (MarkupEventView::Skip, c + 2)
        } else {
            (MarkupEventView::Fault, s.len() as int)
        }
    } else if s[pos + 1] == 47 {
        let j = spec_find_byte(s, 62, pos);
        if j < s.len() {
            (MarkupEventView::End(spec_trim(s.subrange(pos + 2, j))), j + 1)
        } else {
            (MarkupEventView::Fault, s.len() as int)
        }
    } else {
        let j = spec_find_byte(s, 62, pos);
        if j >= s.len() {
            (MarkupEventView::Fault, s.len() as int)
        } else {
            let inner0 = s.subrange(pos + 1, j);
            let et = inner0.len() > 0 && inner0.last() == 47;
            let inner = if et {
                inner0.drop_last()
            } else {
                inner0
            };
            let k = spec_find_ws(inner, 0);
            (
                MarkupEventView::Start {
                    name: inner.subrange(0, k),
                    attrs: inner.skip(k),
                    empty: et,
                },
                j + 1,
            )
        }
    }
}

/// Scan the event beginning at `pos`.
fn next_event(s: &[u8], pos: usize) -> (r: (MarkupEvent, usize))
    requires
        pos < s@.len(),
    ensures
        (r.0@, r.1 as int) == spec_next_event(s@, pos as int),
        pos < r.1 <= s@.len() || (r.0@ is Fault && r.1 == s@.len()),
{
    let comment_open: [u8; 4] = [60, 33, 45, 45];
    let comment_close: [u8; 3] = [45, 45, 62];
    let cdata_open: [u8; 9] = [60, 33, 91, 67, 68, 65, 84, 65, 91];
    let cdata_close: [u8; 3] = [93, 93, 62];
    let pi_close: [u8; 2] = [63, 62];
    if s[pos] != 60 {
        let j = find_byte(s, 60, pos);
        proof {
            lemma_find_byte_range(s@, 60, pos as int);
            crate::text::lemma_find_byte_is(s@, 60, pos as int, spec_find_byte(s@, 60, pos as int));
        }
        let t = slice_to_vec_u8(&s[pos..j]);
        proof {
            assert(spec_find_byte(s@, 60, pos as int) != pos);
        }
        (MarkupEvent::Text(t), j)
    } else if pos + 1 >= s.len() {
        (MarkupEvent::Fault, s.len())
    } else if s[pos + 1] == 33 {
        if starts_with_at(s, comment_open.as_slice(), pos) {
            let c = find_sub(s, comment_close.as_slice(), pos + 4);
            proof {
                lemma_find_sub_range(s@, spec_comment_close(), pos as int + 4);
            }
            if c < s.len() {
                (MarkupEvent::Skip, c + 3)
            } else {
                (MarkupEvent::Fault, s.len())
            }
        } else if starts_with_at(s, cdata_open.as_slice(), pos) {
            let c = find_sub(s, cdata_close.as_slice(), pos + 9);
            proof {
                lemma_find_sub_range(s@, spec_cdata_close(), pos as int + 9);
            }
            if c < s.len() {
                let t = slice_to_vec_u8(&s[pos + 9..c]);
                (MarkupEvent::CData(t), c + 3)
            } else {
                (MarkupEvent::Fault, s.len())
            }
        } else {
            let j = find_byte(s, 62, pos);
            proof {
                lemma_find_byte_range(s@, 62, pos as int);
            }
            if j < s.len() {
                (MarkupEvent::Skip, j + 1)
            } else {
                (MarkupEvent::Fault, s.len())
            }
        }
    } else if s[pos + 1] == 63 {
        let c = find_sub(s, pi_close.as_slice(), pos + 2);
        proof {
            lemma_find_sub_range(s@, spec_pi_close(), pos as int + 2);
        }
        if c < s.len() {
            (MarkupEvent::Skip, c + 2)
        } else {
            (MarkupEvent::Fault, s.len())
        }
    } else if s[pos + 1] == 47 {
        let j = find_byte(s, 62, pos);
        proof {
            lemma_find_byte_range(s@, 62, pos as int);
        }
        if j < s.len() {
            let name = trim_bytes(&s[pos + 2..j]);
            (MarkupEvent::End(name), j + 1)
        } else {
            (MarkupEvent::Fault, s.len())
        }
    } else {
        let j = find_byte(s, 62, pos);
        proof {
            lemma_find_byte_range(s@, 62, pos as int);
        }
        if j >= s.len() {
            (MarkupEvent::Fault, s.len())
        } else {
            let mut inner = slice_to_vec_u8(&s[pos + 1..j]);
            let ghost inner0 = s@.subrange(pos as int + 1, j as int);
            let et = inner.len() > 0 && inner[inner.len() - 1] == 47;
            if et {
                inner.pop();
            }
            proof {
                assert(inner@ == (if inner0.len() > 0 && inner0.last() == 47 {
                    inner0.drop_last()
                } else {
                    inner0
                }));
                lemma_find_ws_range(inner@, 0);
            }
            let k = find_ws(inner.as_slice(), 0);
            let name = slice_to_vec_u8(&inner.as_slice()[0..k]);
            let attrs = slice_to_vec_u8(&inner.as_slice()[k..inner.len()]);
            proof {
                assert(attrs@ =~= inner@.skip(k as int));
            }
            (MarkupEvent::Start { name, attrs, empty: et }, j + 1)
        }
    }
}

/// The local tag name: the text after the last colon, if any; the tag
/// role ignores any namespace prefix.
pub open spec fn spec_rfind_colon(s: Seq<u8>) -> int
    decreases s.len(),
{
    if s.len() == 0 {
        -1
    } else if s.last() == 58 {
        s.len() - 1
    } else {
        spec_rfind_colon(s.drop_last())
    }
}

pub open spec fn spec_local_name(n: Seq<u8>) -> Seq<u8> {
    n.skip(spec_rfind_colon(n) + 1)
}

proof fn lemma_rfind_colon_is(s: Seq<u8>, k: int)
    requires
        0 <= k <= s.len(),
        forall|i: int| k <= i < s.len() ==> s[i] != 58,
        k > 0 ==> s[k - 1] == 58,
    ensures
        spec_rfind_colon(s) == k - 1,
    decreases s.len(),
{
    if k < s.len() {
        assert(s.last() != 58);
        assert forall|i: int| k <= i < s.drop_last().len() implies s.drop_last()[i] != 58 by {
            assert(s.drop_last()[i] == s[i]);
        }
        if k > 0 {
            assert(s.drop_last()[k - 1] == s[k - 1]);
        }
        lemma_rfind_colon_is(s.drop_last(), k);
    }
}

/// Strip any namespace prefix: the text after the last colon.
pub fn local_name(name: &[u8]) -> (r: Vec<u8>)
    ensures
        r@ == spec_local_name(name@),
{
    let mut k: usize = name.len();
    while k > 0 && name[k - 1] != 58
        invariant
            k <= name@.len(),
            forall|i: int| k <= i < name@.len() ==> name@[i] != 58,
        decreases k,
    {
        k -= 1;
    }
    proof {
        lemma_rfind_colon_is(name@, k as int);
    }
    slice_to_vec_u8(&name[k..name.len()])
}

/// First occurrence of `p` in `s` that begins an attribute name: at the
/// region's start or right after whitespace.
pub open spec fn spec_find_attr(s: Seq<u8>, p: Seq<u8>, from: int) -> int
    decreases s.len() - from,
{
    if from < 0 || from >= s.len() {
        s.len() as int
    } else if spec_starts_with_at(s, p, from) && (from == 0 || spec_is_ws(s[from - 1])) {
        from
    } else {
        spec_find_attr(s, p, from + 1)
    }
}

proof fn lemma_find_attr_range(s: Seq<u8>, p: Seq<u8>, from: int)
    requires
        0 <= from <= s.len(),
    ensures
        from <= spec_find_attr(s, p, from) <= s.len(),
        spec_find_attr(s, p, from) < s.len() ==> spec_starts_with_at(
            s,
            p,
            spec_find_attr(s, p, from),
        ),
    decreases s.len() - from,
{
    if from < s.len() && !(spec_starts_with_at(s, p, from) && (from == 0 || spec_is_ws(
        s[from - 1],
    ))) {
        lemma_find_attr_range(s, p, from + 1);
    }
}

fn find_attr(s: &[u8], p: &[u8], from: usize) -> (r: usize)
    requires
        from <= s@.len(),
    ensures
        r == spec_find_attr(s@, p@, from as int),
{
    let mut i: usize = from;
    while i < s.len()
        invariant
            from <= i <= s@.len(),
            spec_find_attr(s@, p@, from as int) == spec_find_attr(s@, p@, i as int),
        decreases s@.len() - i,
    {
        let anchored = i == 0 || {
            let b = s[i - 1];
            b == 32 || b == 9 || b == 10 || b == 13
        };
        if anchored && starts_with_at(s, p, i) {
            return i;
        }
        i += 1;
    }
    i
}

pub open spec fn spec_href_dq() -> Seq<u8> {
    seq![104u8, 114u8, 101u8, 102u8, 61u8, 34u8]
}

pub open spec fn spec_href_sq() -> Seq<u8> {
    seq![104u8, 114u8, 101u8, 102u8, 61u8, 39u8]
}

/// The value of an `href` attribute in a tag's attribute region: the
/// text between `href="` (or `href='`) and the next matching quote. The
/// match is anchored at an attribute-name start — the region's start or
/// after whitespace — so a longer name merely ending in `href` is not
/// taken.
pub open spec fn spec_attr_href(a: Seq<u8>) -> Option<Seq<u8>> {
    let p1 = spec_find_attr(a, spec_href_dq(), 0);
    let p2 = spec_find_attr(a, spec_href_sq(), 0);
    if p1 < a.len() {
        let st = if p1 + 6 <= a.len() {
            p1 + 6
        } else {
            a.len() as int
        };
        let v0 = spec_find_byte(a, 34, st);
        let v = if st <= v0 <= a.len() {
            v0
        } else {
            st
        };
        Some(a.subrange(st, v))
    } else if p2 < a.len() {
        let st = if p2 + 6 <= a.len() {
            p2 + 6
        } else {
            a.len() as int
        };
        let v0 = spec_find_byte(a, 39, st);
        let v = if st <= v0 <= a.len() {
            v0
        } else {
            st
        };
        Some(a.subrange(st, v))
    } else {
        None
    }
}

/// Extract an `href` attribute value from a tag's attribute region.
pub fn attr_value(a: &[u8]) -> (r: Option<Vec<u8>>)
    ensures
        (match r {
            Some(v) => Some(v@),
            None => None,
        }) == spec_attr_href(a@),
{
    let href_dq: [u8; 6] = [104, 114, 101, 102, 61, 34];
    let href_sq: [u8; 6] = [104, 114, 101, 102, 61, 39];
    let p1 = find_attr(a, href_dq.as_slice(), 0);
    proof {
        lemma_find_attr_range(a@, spec_href_dq(), 0);
    }
    if p1 < a.len() {
        let v = find_byte(a, 34, p1 + 6);
        proof {
            lemma_find_byte_range(a@, 34, p1 as int + 6);
        }
        Some(slice_to_vec_u8(&a[p1 + 6..v]))
    } else {
        let p2 = find_attr(a, href_sq.as_slice(), 0);
        proof {
            lemma_find_attr_range(a@, spec_href_sq(), 0);
        }
        if p2 < a.len() {
            let v = find_byte(a, 39, p2 + 6);
            proof {
                lemma_find_byte_range(a@, 39, p2 as int + 6);
            }
            Some(slice_to_vec_u8(&a[p2 + 6..v]))
        } else {
            None
        }
    }
}

/// The parser's running state: the feed title found so far, the items
/// completed so far, the nesting depth, and the open item's fields.
pub struct ParseState {
    pub title: Vec<u8>,
    pub got_title: bool,
    pub items: Vec<RawEntry>,
    pub depth: i64,
    pub in_entry: bool,
    pub in_feed_title: bool,
    pub cur_tag: Vec<u8>,
    pub e_id: Vec<u8>,
    pub e_title: Vec<u8>,
    pub e_link: Vec<u8>,
    pub e_pub: Option<Vec<u8>>,
    pub e_sum: Option<Vec<u8>>,
}

pub struct ParseStateView {
    pub title: Seq<u8>,
    pub got_title: bool,
    pub items: Seq<RawEntryView>,
    pub depth: int,
    pub in_entry: bool,
    pub in_feed_title: bool,
    pub cur_tag: Seq<u8>,
    pub e_id: Seq<u8>,
    pub e_title: Seq<u8>,
    pub e_link: Seq<u8>,
    pub e_pub: Option<Seq<u8>>,
    pub e_sum: Option<Seq<u8>>,
}

impl View for ParseState {
    type V = ParseStateView;

    open spec fn view(&self) -> ParseStateView {
        ParseStateView {
            title: self.title@,
            got_title: self.got_title,
            items: self.items@.map_values(|r: RawEntry| r@),
            depth: self.depth as int,
            in_entry: self.in_entry,
            in_feed_title: self.in_feed_title,
            cur_tag: self.cur_tag@,
            e_id: self.e_id@,
            e_title: self.e_title@,
            e_link: self.e_link@,
            e_pub: match self.e_pub {
                Some(p) => Some(p@),
                None => None,
            },
            e_sum: match self.e_sum {
                Some(p) => Some(p@),
                None => None,
            },
        }
    }
}

pub open spec fn tag_item() -> Seq<u8> {
    seq![105u8, 116u8, 101u8, 109u8]
}

pub open spec fn tag_entry() -> Seq<u8> {
    seq![101u8, 110u8, 116u8, 114u8, 121u8]
}

pub open spec fn tag_title() -> Seq<u8> {
    seq![116u8, 105u8, 116u8, 108u8, 101u8]
}

pub open spec fn tag_link() -> Seq<u8> {
    seq![108u8, 105u8, 110u8, 107u8]
}

pub open spec fn tag_id() -> Seq<u8> {
    seq![105u8, 100u8]
}

pub open spec fn tag_guid() -> Seq<u8> {
    seq![103u8, 117u8, 105u8, 100u8]
}

pub open spec fn tag_published() -> Seq<u8> {
    seq![112u8, 117u8, 98u8, 108u8, 105u8, 115u8, 104u8, 101u8, 100u8]
}

pub open spec fn tag_pubdate() -> Seq<u8> {
    seq![112u8, 117u8, 98u8, 68u8, 97u8, 116u8, 101u8]
}

pub open spec fn tag_updated() -> Seq<u8> {
    seq![117u8, 112u8, 100u8, 97u8, 116u8, 101u8, 100u8]
}

pub open spec fn tag_date() -> Seq<u8> {
    seq![100u8, 97u8, 116u8, 101u8]
}

pub open spec fn tag_summary() -> Seq<u8> {
    seq![115u8, 117u8, 109u8, 109u8, 97u8, 114u8, 121u8]
}

pub open spec fn tag_description() -> Seq<u8> {
    seq![100u8, 101u8, 115u8, 99u8, 114u8, 105u8, 112u8, 116u8, 105u8, 111u8, 110u8]
}

pub open spec fn tag_content() -> Seq<u8> {
    seq![99u8, 111u8, 110u8, 116u8, 101u8, 110u8, 116u8]
}

pub open spec fn tag_encoded() -> Seq<u8> {
    seq![101u8, 110u8, 99u8, 111u8, 100u8, 101u8, 100u8]
}

/// The date-bearing tags, in the first-value-wins order.
pub open spec fn spec_is_date_tag(t: Seq<u8>) -> bool {
    t == tag_published() || t == tag_pubdate() || t == tag_updated() || t == tag_date()
}

/// The summary-bearing tags, literal or encoded.
pub open spec fn spec_is_summary_tag(t: Seq<u8>) -> bool {
    t == tag_summary() || t == tag_description() || t == tag_content() || t == tag_encoded()
}

/// The fields of the open item, as one raw item.
pub open spec fn spec_current_item(st: ParseStateView) -> RawEntryView {
    RawEntryView {
        id: st.e_id,
        title: st.e_title,
        link: st.e_link,
        published: st.e_pub,
        summary: st.e_sum,
    }
}

/// One transition of the parser state on one event. Field population
/// inside an item is first-value-wins per field; an item closes when
/// its end tag is reached and is appended at once.
pub open spec fn spec_step(st: ParseStateView, ev: MarkupEventView) -> ParseStateView {
    match ev {
        MarkupEventView::Start { name, attrs, empty } => {
            let local = spec_local_name(name);
            if empty {
                if st.in_entry && local == tag_link() && st.e_link.len() == 0 {
                    match spec_attr_href(attrs) {
                        Some(h) => ParseStateView { e_link: h, ..st },
                        None => st,
                    }
                } else {
                    st
                }
            } else {
                let st1 = ParseStateView { depth: st.depth + 1, ..st };
                if !st.in_entry {
                    if local == tag_item() || local == tag_entry() {
                        ParseStateView {
                            in_entry: true,
                            e_id: seq![],
                            e_title: seq![],
                            e_link: seq![],
                            e_pub: None,
                            e_sum: None,
                            ..st1
                        }
                    } else if local == tag_title() && st1.depth <= 3 && !st.got_title {
                        ParseStateView { in_feed_title: true, cur_tag: tag_title(), ..st1 }
                    } else {
                        st1
                    }
                } else {
                    let st2 = ParseStateView { cur_tag: local, ..st1 };
                    if local == tag_link() && st.e_link.len() == 0 {
                        match spec_attr_href(attrs) {
                            Some(h) => ParseStateView { e_link: h, ..st2 },
                            None => st2,
                        }
                    } else {
                        st2
                    }
                }
            }
        },
        MarkupEventView::Text(raw) => {
            let txt = crate::text::spec_decode_entities(spec_trim(raw));
            if txt.len() == 0 {
                st
            } else if st.in_feed_title && !st.in_entry {
                ParseStateView { title: txt, got_title: true, in_feed_title: false, ..st }
            } else if st.in_entry {
                if st.cur_tag == tag_title() {
                    if st.e_title.len() == 0 {
                        ParseStateView { e_title: txt, ..st }
                    } else {
                        st
                    }
                } else if st.cur_tag == tag_link() {
                    if st.e_link.len() == 0 {
                        ParseStateView { e_link: txt, ..st }
                    } else {
                        st
                    }
                } else if st.cur_tag == tag_id() || st.cur_tag == tag_guid() {
                    if st.e_id.len() == 0 {
                        ParseStateView { e_id: txt, ..st }
                    } else {
                        st
                    }
                } else if spec_is_date_tag(st.cur_tag) {
                    if st.e_pub is None {
                        ParseStateView { e_pub: Some(txt), ..st }
                    } else {
                        st
                    }
                } else if spec_is_summary_tag(st.cur_tag) {
                    if st.e_sum is None {
                        ParseStateView { e_sum: Some(txt), ..st }
                    } else {
                        st
                    }
                } else {
                    st
                }
            } else {
                st
            }
        },
        MarkupEventView::CData(raw) => {
            if st.in_entry {
                if spec_is_summary_tag(st.cur_tag) {
                    if st.e_sum is None {
                        ParseStateView { e_sum: Some(raw), ..st }
                    } else {
                        st
                    }
                } else if st.cur_tag == tag_title() {
                    if st.e_title.len() == 0 {
                        ParseStateView { e_title: raw, ..st }
                    } else {
                        st
                    }
                } else {
                    st
                }
            } else {
                st
            }
        },
        MarkupEventView::End(name) => {
            let local = spec_local_name(name);
            let st1 = ParseStateView { depth: st.depth - 1, ..st };
            let st2 = if local == tag_title() {
                ParseStateView { in_feed_title: false, ..st1 }
            } else {
                st1
            };
            let st3 = if st.in_entry && (local == tag_item() || local == tag_entry()) {
                ParseStateView {
                    in_entry: false,
                    items: st2.items.push(spec_current_item(st)),
                    ..st2
                }
            } else {
                st2
            };
            ParseStateView { cur_tag: seq![], ..st3 }
        },
        MarkupEventView::Skip => st,
        MarkupEventView::Fault => st,
    }
}

/// Apply one event to the parser state.
fn step(st: ParseState, ev: MarkupEvent) -> (r: ParseState)
    requires
        -0x4000000000000000 < st@.depth < 0x4000000000000000,
    ensures
        r@ == spec_step(st@, ev@),
{
    let t_item: [u8; 4] = [105, 116, 101, 109];
    let t_entry: [u8; 5] = [101, 110, 116, 114, 121];
    let t_title: [u8; 5] = [116, 105, 116, 108, 101];
    let t_link: [u8; 4] = [108, 105, 110, 107];
    let t_id: [u8; 2] = [105, 100];
    let t_guid: [u8; 4] = [103, 117, 105, 100];
    let t_published: [u8; 9] = [112, 117, 98, 108, 105, 115, 104, 101, 100];
    let t_pubdate: [u8; 7] = [112, 117, 98, 68, 97, 116, 101];
    let t_updated: [u8; 7] = [117, 112, 100, 97, 116, 101, 100];
    let t_date: [u8; 4] = [100, 97, 116, 101];
    let t_summary: [u8; 7] = [115, 117, 109, 109, 97, 114, 121];
    let t_description: [u8; 11] = [100, 101, 115, 99, 114, 105, 112, 116, 105, 111, 110];
    let t_content: [u8; 7] = [99, 111, 110, 116, 101, 110, 116];
    let t_encoded: [u8; 7] = [101, 110, 99, 111, 100, 101, 100];
    let ghost st0 = st@;
    let mut st = st;
    match ev {
        MarkupEvent::Start { name, attrs, empty } => {
            let local = local_name(name.as_slice());
            let is_item = crate::text::bytes_eq(local.as_slice(), t_item.as_slice());
            let is_entry = crate::text::bytes_eq(local.as_slice(), t_entry.as_slice());
            let is_title = crate::text::bytes_eq(local.as_slice(), t_title.as_slice());
            let is_link = crate::text::bytes_eq(local.as_slice(), t_link.as_slice());
            if empty {
                if st.in_entry && is_link && st.e_link.len() == 0 {
                    match attr_value(attrs.as_slice()) {
                        Some(h) => {
                            st.e_link = h;
                        },
                        None => {},
                    }
                }
            } else {
                st.depth = st.depth + 1;
                if !st.in_entry {
                    if is_item || is_entry {
                        st.in_entry = true;
                        st.e_id = Vec::new();
                        st.e_title = Vec::new();
                        st.e_link = Vec::new();
                        st.e_pub = None;
                        st.e_sum = None;
                    } else if is_title && st.depth <= 3 && !st.got_title {
                        st.in_feed_title = true;
                        st.cur_tag = slice_to_vec_u8(t_title.as_slice());
                    }
                } else {
                    let had_link = st.e_link.len() == 0;
                    st.cur_tag = local;
                    if is_link && had_link {
                        match attr_value(attrs.as_slice()) {
                            Some(h) => {
                                st.e_link = h;
                            },
                            None => {},
                        }
                    }
                }
            }
        },
        MarkupEvent::Text(raw) => {
            let trimmed = trim_bytes(raw.as_slice());
            let txt = crate::text::decode_entities(trimmed.as_slice());
            if txt.len() == 0 {
            } else if st.in_feed_title && !st.in_entry {
                st.title = txt;
                st.got_title = true;
                st.in_feed_title = false;
            } else if st.in_entry {
                let ct = st.cur_tag.as_slice();
                let is_title = crate::text::bytes_eq(ct, t_title.as_slice());
                let is_link = crate::text::bytes_eq(ct, t_link.as_slice());
                let is_id = crate::text::bytes_eq(ct, t_id.as_slice()) || crate::text::bytes_eq(
                    ct,
                    t_guid.as_slice(),
                );
                let is_date = crate::text::bytes_eq(ct, t_published.as_slice())
                    || crate::text::bytes_eq(ct, t_pubdate.as_slice()) || crate::text::bytes_eq(
                    ct,
                    t_updated.as_slice(),
                ) || crate::text::bytes_eq(ct, t_date.as_slice());
                let is_sum = crate::text::bytes_eq(ct, t_summary.as_slice())
                    || crate::text::bytes_eq(ct, t_description.as_slice())
                    || crate::text::bytes_eq(ct, t_content.as_slice()) || crate::text::bytes_eq(
                    ct,
                    t_encoded.as_slice(),
                );
                if is_title {
                    if st.e_title.len() == 0 {
                        st.e_title = txt;
                    }
                } else if is_link {
                    if st.e_link.len() == 0 {
                        st.e_link = txt;
                    }
                } else if is_id {
                    if st.e_id.len() == 0 {
                        st.e_id = txt;
                    }
                } else if is_date {
                    if st.e_pub.is_none() {
                        st.e_pub = Some(txt);
                    }
                } else if is_sum {
                    if st.e_sum.is_none() {
                        st.e_sum = Some(txt);
                    }
                }
            }
        },
        MarkupEvent::CData(raw) => {
            if st.in_entry {
                let ct = st.cur_tag.as_slice();
                let is_title = crate::text::bytes_eq(ct, t_title.as_slice());
                let is_sum = crate::text::bytes_eq(ct, t_summary.as_slice())
                    || crate::text::bytes_eq(ct, t_description.as_slice())
                    || crate::text::bytes_eq(ct, t_content.as_slice()) || crate::text::bytes_eq(
                    ct,
                    t_encoded.as_slice(),
                );
                if is_sum {
                    if st.e_sum.is_none() {
                        st.e_sum = Some(raw);
                    }
                } else if is_title {
                    if st.e_title.len() == 0 {
                        st.e_title = raw;
                    }
                }
            }
        },
        MarkupEvent::End(name) => {
            let local = local_name(name.as_slice());
            let is_item = crate::text::bytes_eq(local.as_slice(), t_item.as_slice());
            let is_entry = crate::text::bytes_eq(local.as_slice(), t_entry.as_slice());
            let is_title = crate::text::bytes_eq(local.as_slice(), t_title.as_slice());
            let was_in_entry = st.in_entry;
            st.depth = st.depth - 1;
            if is_title {
                st.in_feed_title = false;
            }
            if was_in_entry && (is_item || is_entry) {
                st.in_entry = false;
                let ghost olditems = st.items@;
                let item = RawEntry {
                    id: slice_to_vec_u8(st.e_id.as_slice()),
                    title: slice_to_vec_u8(st.e_title.as_slice()),
                    link: slice_to_vec_u8(st.e_link.as_slice()),
                    published: match &st.e_pub {
                        Some(p) => Some(slice_to_vec_u8(p.as_slice())),
                        None => None,
                    },
                    summary: match &st.e_sum {
                        Some(p) => Some(slice_to_vec_u8(p.as_slice())),
                        None => None,
                    },
                };
                proof {
                    assert(item@ == spec_current_item(st0));
                }
                st.items.push(item);
                proof {
                    assert(st.items@.map_values(|r: RawEntry| r@) =~= olditems.map_values(
                        |r: RawEntry| r@,
                    ).push(spec_current_item(st0)));
                }
            }
            st.cur_tag = Vec::new();
        },
        MarkupEvent::Skip => {},
        MarkupEvent::Fault => {},
    }
    st
}

/// The parser's starting state.
pub open spec fn spec_init_state() -> ParseStateView {
    ParseStateView {
        title: seq![],
        got_title: false,
        items: seq![],
        depth: 0,
        in_entry: false,
        in_feed_title: false,
        cur_tag: seq![],
        e_id: seq![],
        e_title: seq![],
        e_link: seq![],
        e_pub: None,
        e_sum: None,
    }
}

/// The whole scan from `pos` in state `st`: the feed title, the items
/// — one per recognized item/entry element, in document order — and
/// whether a structural fault stopped the scan where it stood.
pub open spec fn spec_run(s: Seq<u8>, pos: int, st: ParseStateView) -> (
    Seq<u8>,
    Seq<RawEntryView>,
    bool,
)
    decreases s.len() - pos,
{
    if pos < 0 || pos >= s.len() {
        (st.title, st.items, false)
    } else {
        let (ev, n0) = spec_next_event(s, pos);
        if ev is Fault {
            (st.title, st.items, true)
        } else {
            let n1 = if n0 <= pos {
                pos + 1
            } else {
                n0
            };
            let n2 = if n1 > s.len() {
                s.len() as int
            } else {
                n1
            };
            spec_run(s, n2, spec_step(st, ev))
        }
    }
}

/// The title, raw items, and fault flag of one feed document.
pub open spec fn spec_parse_feed(s: Seq<u8>) -> (Seq<u8>, Seq<RawEntryView>, bool) {
    spec_run(s, 0, spec_init_state())
}

/// Scan one feed document: its title (empty when none was found), its
/// items in document order, and whether a structural fault stopped the
/// scan — a non-fatal diagnostic for the caller. All items completed
/// before a fault are still returned.
pub fn parse_feed(xml: &[u8]) -> (r: (Vec<u8>, Vec<RawEntry>, bool))
    requires
        xml@.len() < 0x4000000000000000,
    ensures
        (r.0@, r.1@.map_values(|e: RawEntry| e@), r.2) == spec_parse_feed(xml@),
{
    let mut st = ParseState {
        title: Vec::new(),
        got_title: false,
        items: Vec::new(),
        depth: 0,
        in_entry: false,
        in_feed_title: false,
        cur_tag: Vec::new(),
        e_id: Vec::new(),
        e_title: Vec::new(),
        e_link: Vec::new(),
        e_pub: None,
        e_sum: None,
    };
    let mut pos: usize = 0;
    proof {
        assert(st@.items =~= spec_init_state().items);
        assert(st@ == spec_init_state());
    }
    while pos < xml.len()
        invariant
            pos <= xml@.len(),
            xml@.len() < 0x4000000000000000,
            -(pos as int) <= st@.depth <= pos as int,
            spec_run(xml@, pos as int, st@) == spec_parse_feed(xml@),
        decreases xml@.len() - pos,
    {
        let ghost stv = st@;
        let (ev, nxt) = next_event(xml, pos);
        if let MarkupEvent::Fault = ev {
            proof {
                assert(spec_run(xml@, pos as int, st@) == (st@.title, st@.items, true));
            }
            let ParseState { title, items, .. } = st;
            proof {
                assert((title@, items@.map_values(|e: RawEntry| e@), true) == spec_parse_feed(
                    xml@,
                ));
            }
            return (title, items, true);
        }
        let ghost evv = ev@;
        st = step(st, ev);
        proof {
            assert(st@ == spec_step(stv, evv));
            assert(st@.depth - stv.depth <= 1 && stv.depth - st@.depth <= 1);
            assert(spec_run(xml@, nxt as int, st@) == spec_parse_feed(xml@));
        }
        pos = nxt;
    }
    proof {
        assert(spec_run(xml@, pos as int, st@) == (st@.title, st@.items, false));
    }
    let ParseState { title, items, .. } = st;
    (title, items, false)
}

proof fn lemma_find_ws_is(s: Seq<u8>, from: int, k: int)
    requires
        0 <= from <= k <= s.len(),
        forall|i: int| from <= i < k ==> !spec_is_ws(s[i]),
        k < s.len() ==> spec_is_ws(s[k]),
    ensures
        spec_find_ws(s, from) == k,
    decreases k - from,
{
    if from < k {
        lemma_find_ws_is(s, from + 1, k);
    }
}

proof fn lemma_local_name_item()
    ensures
        spec_local_name(tag_item()) == tag_item(),
{
    let t = tag_item();
    assert(t.drop_last() =~= seq![105u8, 116u8, 101u8]);
    assert(seq![105u8, 116u8, 101u8].drop_last() =~= seq![105u8, 116u8]);
    assert(seq![105u8, 116u8].drop_last() =~= seq![105u8]);
    assert(seq![105u8].drop_last() =~= Seq::<u8>::empty());
    assert(spec_rfind_colon(Seq::<u8>::empty()) == -1);
    assert(spec_rfind_colon(seq![105u8]) == -1);
    assert(spec_rfind_colon(seq![105u8, 116u8]) == -1);
    assert(spec_rfind_colon(seq![105u8, 116u8, 101u8]) == -1);
    assert(spec_rfind_colon(t) == -1);
    assert(t.skip(0) =~= t);
}

/// The bytes of a plain `<item>` opening tag.
pub open spec fn spec_item_open() -> Seq<u8> {
    seq![60u8, 105u8, 116u8, 101u8, 109u8, 62u8]
}

/// The bytes of the matching `</item>` closing tag.
pub open spec fn spec_item_close() -> Seq<u8> {
    seq![60u8, 47u8, 105u8, 116u8, 101u8, 109u8, 62u8]
}

/// Scanning at a plain `<item>` tag yields its start event and moves
/// just past the tag.
proof fn lemma_open_item_event(s: Seq<u8>, pos: int, st: ParseStateView)
    requires
        spec_starts_with_at(s, spec_item_open(), pos),
    ensures
        spec_run(s, pos, st) == spec_run(
            s,
            pos + 6,
            spec_step(
                st,
                MarkupEventView::Start { name: tag_item(), attrs: seq![], empty: false },
            ),
        ),
{
    assert forall|i: int| 0 <= i < 6 implies s[pos + i] == spec_item_open()[i] by {
        assert(s.subrange(pos, pos + 6)[i] == s[pos + i]);
    }
    crate::text::lemma_find_byte_is(s, 62, pos, pos + 5);
    let inner = s.subrange(pos + 1, pos + 5);
    assert(inner =~= tag_item());
    lemma_find_ws_is(inner, 0, 4);
    assert(inner.subrange(0, 4) =~= tag_item());
    assert(inner.skip(4) =~= Seq::<u8>::empty());
    assert(spec_next_event(s, pos) == (
        MarkupEventView::Start { name: tag_item(), attrs: seq![], empty: false },
        pos + 6,
    ));
}

/// Scanning at text that runs, free of `<`, up to `end` yields one text
/// event and moves to `end`.
proof fn lemma_text_event(s: Seq<u8>, pos: int, end: int, st: ParseStateView)
    requires
        0 <= pos < end <= s.len(),
        forall|i: int| pos <= i < end ==> s[i] != 60,
        end < s.len() ==> s[end] == 60,
    ensures
        spec_run(s, pos, st) == spec_run(
            s,
            end,
            spec_step(st, MarkupEventView::Text(s.subrange(pos, end))),
        ),
{
    crate::text::lemma_find_byte_is(s, 60, pos, end);
}

/// Scanning at a plain `</item>` tag yields its end event and moves
/// just past the tag.
proof fn lemma_close_item_event(s: Seq<u8>, pos: int, st: ParseStateView)
    requires
        spec_starts_with_at(s, spec_item_close(), pos),
    ensures
        spec_run(s, pos, st) == spec_run(
            s,
            pos + 7,
            spec_step(st, MarkupEventView::End(tag_item())),
        ),
{
    assert forall|i: int| 0 <= i < 7 implies s[pos + i] == spec_item_close()[i] by {
        assert(s.subrange(pos, pos + 7)[i] == s[pos + i]);
    }
    crate::text::lemma_find_byte_is(s, 62, pos, pos + 6);
    assert(s.subrange(pos + 2, pos + 6) =~= tag_item());
    assert(spec_trim(tag_item()) == tag_item());
    assert(spec_next_event(s, pos) == (MarkupEventView::End(tag_item()), pos + 7));
}

/// One event appends at most one item, never drops or changes one, and
/// appends exactly when a closing item/entry tag ends the open item —
/// the appended item being the open item's fields.
pub proof fn lemma_step_items(st: ParseStateView, ev: MarkupEventView)
    ensures
        st.items.len() <= spec_step(st, ev).items.len() <= st.items.len() + 1,
        spec_step(st, ev).items.take(st.items.len() as int) == st.items,
        (spec_step(st, ev).items.len() == st.items.len() + 1) <==> (ev matches MarkupEventView::End(
            n,
        ) && st.in_entry && (spec_local_name(n) == tag_item() || spec_local_name(n)
            == tag_entry())),
        (spec_step(st, ev).items.len() == st.items.len() + 1) ==> spec_step(st, ev).items.last()
            == spec_current_item(st),
{
    match ev {
        MarkupEventView::End(n) => {
            if st.in_entry && (spec_local_name(n) == tag_item() || spec_local_name(n)
                == tag_entry()) {
                assert(spec_step(st, ev).items == st.items.push(spec_current_item(st)));
                assert(st.items.push(spec_current_item(st)).take(st.items.len() as int)
                    =~= st.items);
            } else {
                assert(spec_step(st, ev).items.take(st.items.len() as int) =~= st.items);
            }
        },
        _ => {
            assert(spec_step(st, ev).items.take(st.items.len() as int) =~= st.items);
        },
    }
}

/// A run of plain item elements: one `<item>` element per body, the
/// body text free of `<`.
pub open spec fn spec_item_blocks(bodies: Seq<Seq<u8>>) -> Seq<u8>
    decreases bodies.len(),
{
    if bodies.len() == 0 {
        seq![]
    } else {
        spec_item_open() + bodies[0] + spec_item_close() + spec_item_blocks(bodies.skip(1))
    }
}

pub open spec fn spec_plain_body(b: Seq<u8>) -> bool {
    forall|i: int| 0 <= i < b.len() ==> b[i] != 60
}

/// Scanning across a run of plain item elements, with no item open,
/// emits exactly one item per element and ends with no item open.
proof fn lemma_run_plain_items(s: Seq<u8>, pos: int, st: ParseStateView, bodies: Seq<Seq<u8>>)
    requires
        0 <= pos,
        pos + spec_item_blocks(bodies).len() <= s.len(),
        s.subrange(pos, pos + spec_item_blocks(bodies).len()) == spec_item_blocks(bodies),
        forall|k: int| 0 <= k < bodies.len() ==> spec_plain_body(#[trigger] bodies[k]),
        !st.in_entry,
    ensures
        exists|st2: ParseStateView|
            spec_run(s, pos, st) == #[trigger] spec_run(
                s,
                pos + spec_item_blocks(bodies).len(),
                st2,
            ) && st2.items.len() == st.items.len() + bodies.len() && !st2.in_entry,
    decreases bodies.len(),
{
    let blocks = spec_item_blocks(bodies);
    if bodies.len() == 0 {
        assert(spec_run(s, pos, st) == spec_run(s, pos + blocks.len(), st));
        assert(spec_run(s, pos, st) == spec_run(s, pos + spec_item_blocks(bodies).len(), st)
            && st.items.len() == st.items.len() + bodies.len() && !st.in_entry);
    } else {
        let body = bodies[0];
        let blk = spec_item_open() + body + spec_item_close();
        let rest = spec_item_blocks(bodies.skip(1));
        assert(blocks == blk + rest);
        assert(blk.len() == 13 + body.len());
        assert forall|i: int| 0 <= i < blk.len() implies s[pos + i] == blk[i] by {
            assert(s.subrange(pos, pos + blocks.len())[i] == s[pos + i]);
            assert(blocks[i] == blk[i]);
        }
        let p_body = pos + 6;
        let p_close = p_body + body.len();
        let p_next = p_close + 7;
        assert(s.subrange(pos, pos + 6) =~= spec_item_open());
        lemma_open_item_event(s, pos, st);
        lemma_local_name_item();
        let st1 = spec_step(
            st,
            MarkupEventView::Start { name: tag_item(), attrs: seq![], empty: false },
        );
        assert(st1.in_entry && st1.items == st.items);
        assert forall|i: int| 0 <= i < 7 implies s[p_close + i] == spec_item_close()[i] by {
            assert(s[pos + (6 + body.len() + i)] == blk[6 + body.len() + i]);
            assert(blk[6 + body.len() + i] == spec_item_close()[i]);
        }
        let st2 = if body.len() > 0 {
            assert forall|i: int| p_body <= i < p_close implies s[i] != 60 by {
                assert(s[pos + (i - pos)] == blk[i - pos]);
                assert(blk[i - pos] == body[i - p_body]);
            }
            assert(s[p_close + 0] == spec_item_close()[0]);
            assert(s[p_close] == 60);
            lemma_text_event(s, p_body, p_close, st1);
            spec_step(st1, MarkupEventView::Text(s.subrange(p_body, p_close)))
        } else {
            st1
        };
        assert(st2.in_entry && st2.items == st1.items);
        assert(s.subrange(p_close, p_close + 7) =~= spec_item_close());
        lemma_close_item_event(s, p_close, st2);
        let st3 = spec_step(st2, MarkupEventView::End(tag_item()));
        assert(!st3.in_entry && st3.items.len() == st.items.len() + 1);
        assert(spec_run(s, pos, st) == spec_run(s, p_next, st3));
        assert(s.subrange(p_next, p_next + rest.len()) =~= rest) by {
            assert forall|i: int| 0 <= i < rest.len() implies s.subrange(
                p_next,
                p_next + rest.len(),
            )[i] == rest[i] by {
                assert(s.subrange(pos, pos + blocks.len())[blk.len() + i] == s[p_next + i]);
                assert(blocks[blk.len() + i] == rest[i]);
            }
        }
        assert(forall|k: int|
            0 <= k < bodies.skip(1).len() ==> spec_plain_body(#[trigger] bodies.skip(1)[k]));
        lemma_run_plain_items(s, p_next, st3, bodies.skip(1));
        let w = choose|w: ParseStateView|
            spec_run(s, p_next, st3) == #[trigger] spec_run(s, p_next + rest.len(), w)
                && w.items.len() == st3.items.len() + bodies.skip(1).len() && !w.in_entry;
        assert(p_next + rest.len() == pos + blocks.len());
        assert(spec_run(s, pos, st) == spec_run(s, pos + spec_item_blocks(bodies).len(), w)
            && w.items.len() == st.items.len() + bodies.len() && !w.in_entry);
    }
}

/// A document that is exactly a run of N plain item elements yields
/// exactly N raw items: one per recognized element, in document order.
pub proof fn lemma_parse_feed_counts_plain_items(bodies: Seq<Seq<u8>>)
    requires
        forall|k: int| 0 <= k < bodies.len() ==> spec_plain_body(#[trigger] bodies[k]),
    ensures
        spec_parse_feed(spec_item_blocks(bodies)).1.len() == bodies.len(),
{
    let s = spec_item_blocks(bodies);
    assert(s.subrange(0, s.len() as int) =~= s);
    lemma_run_plain_items(s, 0, spec_init_state(), bodies);
    let w = choose|w: ParseStateView|
        spec_run(s, 0, spec_init_state()) == #[trigger] spec_run(s, s.len() as int, w)
            && w.items.len() == spec_init_state().items.len() + bodies.len() && !w.in_entry;
    assert(spec_run(s, s.len() as int, w) == (w.title, w.items, false));
}

/// An item opened but never closed contributes nothing: the scan over
/// the opening tag and trailing text ends keeping exactly the items
/// completed before it.
proof fn lemma_run_open_item_unclosed(s: Seq<u8>, pos: int, st: ParseStateView, tail: Seq<u8>)
    requires
        0 <= pos <= s.len(),
        s.skip(pos) == spec_item_open() + tail,
        spec_plain_body(tail),
        !st.in_entry,
    ensures
        spec_run(s, pos, st).1 == st.items,
{
    assert(s.skip(pos).len() == 6 + tail.len());
    assert(s.len() == pos + 6 + tail.len());
    assert forall|i: int| 0 <= i < 6 + tail.len() implies s[pos + i] == (spec_item_open()
        + tail)[i] by {
        assert(s.skip(pos)[i] == s[pos + i]);
    }
    assert(s.subrange(pos, pos + 6) =~= spec_item_open());
    lemma_open_item_event(s, pos, st);
    lemma_local_name_item();
    let st1 = spec_step(
        st,
        MarkupEventView::Start { name: tag_item(), attrs: seq![], empty: false },
    );
    assert(st1.items == st.items);
    let p_body = pos + 6;
    if tail.len() > 0 {
        assert forall|i: int| p_body <= i < s.len() implies s[i] != 60 by {
            assert((spec_item_open() + tail)[i - pos] == tail[i - p_body]);
        }
        lemma_text_event(s, p_body, s.len() as int, st1);
        let st2 = spec_step(st1, MarkupEventView::Text(s.subrange(p_body, s.len() as int)));
        assert(st2.items == st1.items);
        assert(spec_run(s, s.len() as int, st2) == (st2.title, st2.items, false));
    } else {
        assert(spec_run(s, p_body, st1) == (st1.title, st1.items, false));
    }
}

/// A truncated document — a run of K plain item elements, then an item
/// opened but never closed — yields exactly the K completed items.
pub proof fn lemma_parse_feed_truncated(bodies: Seq<Seq<u8>>, tail: Seq<u8>)
    requires
        forall|k: int| 0 <= k < bodies.len() ==> spec_plain_body(#[trigger] bodies[k]),
        spec_plain_body(tail),
    ensures
        spec_parse_feed(
            spec_item_blocks(bodies) + spec_item_open() + tail,
        ).1.len() == bodies.len(),
{
    let blocks = spec_item_blocks(bodies);
    let s = blocks + spec_item_open() + tail;
    assert(s.subrange(0, blocks.len() as int) =~= blocks);
    lemma_run_plain_items(s, 0, spec_init_state(), bodies);
    let w = choose|w: ParseStateView|
        spec_run(s, 0, spec_init_state()) == #[trigger] spec_run(s, blocks.len() as int, w)
            && w.items.len() == spec_init_state().items.len() + bodies.len() && !w.in_entry;
    assert(s.skip(blocks.len() as int) =~= spec_item_open() + tail);
    lemma_run_open_item_unclosed(s, blocks.len() as int, w, tail);
}

/// The scan never discards a completed item: whatever the rest of the
/// document holds — truncation and faults included — every item already
/// completed is in the result, unchanged, in its place.
pub proof fn lemma_run_keeps_completed_items(s: Seq<u8>, pos: int, st: ParseStateView)
    ensures
        spec_run(s, pos, st).1.len() >= st.items.len(),
        spec_run(s, pos, st).1.take(st.items.len() as int) == st.items,
    decreases s.len() - pos,
{
    if pos < 0 || pos >= s.len() {
        assert(st.items.take(st.items.len() as int) =~= st.items);
    } else {
        let (ev, n0) = spec_next_event(s, pos);
        if ev is Fault {
            assert(st.items.take(st.items.len() as int) =~= st.items);
        } else {
            let n1 = if n0 <= pos {
                pos + 1
            } else {
                n0
            };
            let n2 = if n1 > s.len() {
                s.len() as int
            } else {
                n1
            };
            let st2 = spec_step(st, ev);
            lemma_step_items(st, ev);
            lemma_run_keeps_completed_items(s, n2, st2);
            let out = spec_run(s, n2, st2).1;
            assert(out.take(st2.items.len() as int) == st2.items);
            assert(out.take(st.items.len() as int) =~= st.items) by {
                assert(forall|k: int|
                    0 <= k < st.items.len() ==> out[k] == out.take(st2.items.len() as int)[k]);
                assert(forall|k: int|
                    0 <= k < st.items.len() ==> st2.items[k] == st2.items.take(
                        st.items.len() as int,
                    )[k]);
            }
        }
    }
}

} // verus!
