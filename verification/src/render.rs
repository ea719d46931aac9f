//! Rendering entries to markup fragments: a relative-age label and one
//! block per entry, optionally grouped into pages.
use vstd::prelude::*;
use vstd::string::StringSliceAdditionalSpecFns;
use crate::entry::{Entry, EntryView, views};
use crate::text::{spec_escape, escape_html};
use crate::decimal::{spec_dec_u64, u64_to_dec};

verus! {

/// The relative-age label for an instant `ts` seen from `now`: minutes,
/// hours or days ago, never negative.
pub open spec fn spec_format_relative(now: int, ts: int) -> Seq<u8> {
    let secs = if now - ts > 0 {
        now - ts
    } else {
        0
    };
    let mins = secs / 60;
    let hours = mins / 60;
    let days = hours / 24;
    if mins < 1 {
        "just now".spec_bytes()
    } else if mins < 60 {
        spec_dec_u64(mins as nat) + "m ago".spec_bytes()
    } else if hours < 24 {
        spec_dec_u64(hours as nat) + "h ago".spec_bytes()
    } else {
        spec_dec_u64(days as nat) + "d ago".spec_bytes()
    }
}

/// Render how long ago an instant was, at minute resolution and below.
pub fn format_relative(now: i64, ts: i64) -> (r: Vec<u8>)
    ensures
        r@ == spec_format_relative(now as int, ts as int),
{
    let diff: i128 = (now as i128) - (ts as i128);
    let secs: u64 = if diff > 0 {
        diff as u64
    } else {
        0
    };
    let mins: u64 = secs / 60;
    let hours: u64 = mins / 60;
    let days: u64 = hours / 24;
    if mins < 1 {
        crate::text::slice_to_vec_u8("just now".as_bytes())
    } else if mins < 60 {
        let mut r = u64_to_dec(mins);
        r.extend_from_slice("m ago".as_bytes());
        r
    } else if hours < 24 {
        let mut r = u64_to_dec(hours);
        r.extend_from_slice("h ago".as_bytes());
        r
    } else {
        let mut r = u64_to_dec(days);
        r.extend_from_slice("d ago".as_bytes());
        r
    }
}

/// One entry's markup block: header line with the escaped link, title,
/// age and feed name. The summary is not part of the block.
pub open spec fn spec_render_entry(e: EntryView, now: int) -> Seq<u8> {
    let ago = match e.published {
        Some(ts) => spec_format_relative(now, ts),
        None => "unknown".spec_bytes(),
    };
    "<div class=\"entry\">\n  <div class=\"header\"><a href=\"".spec_bytes() + spec_escape(e.link)
        + "\">".spec_bytes() + spec_escape(e.title)
        + "</a><span class=\"meta\">".spec_bytes() + spec_escape(ago)
        + " &mdash; ".spec_bytes() + spec_escape(e.feed_title)
        + "</span></div>\n</div>\n".spec_bytes()
}

fn render_entry(html: &mut Vec<u8>, e: &Entry, now: i64)
    ensures
        final(html)@ == old(html)@ + spec_render_entry(e@, now as int),
{
    html.extend_from_slice("<div class=\"entry\">\n  <div class=\"header\"><a href=\"".as_bytes());
    let mut f = escape_html(e.link.as_slice());
    html.append(&mut f);
    html.extend_from_slice("\">".as_bytes());
    let mut f = escape_html(e.title.as_slice());
    html.append(&mut f);
    html.extend_from_slice("</a><span class=\"meta\">".as_bytes());
    let ago: Vec<u8> = match &e.published {
        Some(ts) => format_relative(now, *ts),
        None => crate::text::slice_to_vec_u8("unknown".as_bytes()),
    };
    let mut f = escape_html(ago.as_slice());
    html.append(&mut f);
    html.extend_from_slice(" &mdash; ".as_bytes());
    let mut f = escape_html(e.feed_title.as_slice());
    html.append(&mut f);
    html.extend_from_slice("</span></div>\n</div>\n".as_bytes());
    proof {
        assert(html@ =~= old(html)@ + spec_render_entry(e@, now as int));
    }
}

/// The blocks of a run of entries, in order.
pub open spec fn spec_render_list(s: Seq<EntryView>, now: int) -> Seq<u8>
    decreases s.len(),
{
    if s.len() == 0 {
        seq![]
    } else {
        spec_render_entry(s[0], now) + spec_render_list(s.skip(1), now)
    }
}

/// Pages of `n` entries each, wrapped in numbered page blocks.
pub open spec fn spec_render_pages(s: Seq<EntryView>, now: int, n: int, pageno: int) -> Seq<u8>
    decreases s.len(),
{
    if s.len() == 0 || n < 1 {
        seq![]
    } else {
        let take = if n <= s.len() {
            n
        } else {
            s.len() as int
        };
        "<div class=\"page\" data-page=\"".spec_bytes() + spec_dec_u64(pageno as nat)
            + "\">\n".spec_bytes() + spec_render_list(s.take(take), now) + "</div>\n".spec_bytes()
            + spec_render_pages(s.skip(take), now, n, pageno + 1)
    }
}

/// What rendering a collection appends: plain blocks, or numbered pages
/// of `n` entries when a page size is given.
pub open spec fn spec_render_entries(s: Seq<EntryView>, now: int, page: Option<int>) -> Seq<u8> {
    match page {
        None => spec_render_list(s, now),
        Some(n) => spec_render_pages(s, now, n, 1),
    }
}

/// Append the rendered collection to `html`, whole or in pages.
#[verifier::rlimit(80)]
pub fn render_entries(html: &mut Vec<u8>, entries: &Vec<Entry>, now: i64, page_size: Option<usize>)
    requires
        page_size matches Some(n) ==> 1 <= n,
        entries@.len() < 0x8000000000000000,
    ensures
        final(html)@ == old(html)@ + spec_render_entries(
            views(entries@),
            now as int,
            match page_size {
                Some(n) => Some(n as int),
                None => None,
            },
        ),
{
    let ghost vall = views(entries@);
    match page_size {
        None => {
            let mut i: usize = 0;
            proof {
                assert(vall.skip(0) =~= vall);
                assert(html@ + spec_render_list(vall, now as int) =~= old(html)@ + spec_render_list(
                    vall,
                    now as int,
                ));
            }
            while i < entries.len()
                invariant
                    i <= entries@.len(),
                    vall == views(entries@),
                    html@ + spec_render_list(vall.skip(i as int), now as int) == old(html)@
                        + spec_render_list(vall, now as int),
                decreases entries@.len() - i,
            {
                proof {
                    assert(vall.skip(i as int)[0] == vall[i as int]);
                    assert(vall.skip(i as int).skip(1) =~= vall.skip(i as int + 1));
                }
                render_entry(html, &entries[i], now);
                i += 1;
                proof {
                    assert(html@ + spec_render_list(vall.skip(i as int), now as int) =~= old(html)@
                        + spec_render_list(vall, now as int));
                }
            }
            proof {
                assert(vall.skip(vall.len() as int) =~= Seq::<EntryView>::empty());
                assert(html@ + spec_render_list(vall.skip(vall.len() as int), now as int) =~= html@);
            }
        },
        Some(n) => {
            let mut i: usize = 0;
            let mut pageno: u64 = 1;
            proof {
                assert(vall.skip(0) =~= vall);
                assert(html@ + spec_render_pages(vall, now as int, n as int, 1) =~= old(html)@
                    + spec_render_pages(vall, now as int, n as int, 1));
            }
            while i < entries.len()
                invariant
                    1 <= n,
                    i <= entries@.len(),
                    entries@.len() < 0x8000000000000000,
                    vall == views(entries@),
                    1 <= pageno <= 1 + i,
                    html@ + spec_render_pages(vall.skip(i as int), now as int, n as int, pageno as int)
                        == old(html)@ + spec_render_pages(vall, now as int, n as int, 1),
                decreases entries@.len() - i,
            {
                let ghost seg = vall.skip(i as int);
                let take: usize = if n <= entries.len() - i {
                    n
                } else {
                    entries.len() - i
                };
                proof {
                    assert(seg.len() == vall.len() - i);
                    assert(take as int == (if (n as int) <= seg.len() {
                        n as int
                    } else {
                        seg.len() as int
                    }));
                }
                html.extend_from_slice("<div class=\"page\" data-page=\"".as_bytes());
                let mut d = u64_to_dec(pageno);
                html.append(&mut d);
                html.extend_from_slice("\">\n".as_bytes());
                let ghost html_before_list = html@;
                let mut k: usize = 0;
                proof {
                    assert(seg.take(take as int).skip(0) =~= seg.take(take as int));
                    assert(html@ + spec_render_list(seg.take(take as int), now as int)
                        =~= html_before_list + spec_render_list(seg.take(take as int), now as int));
                }
                while k < take
                    invariant
                        k <= take,
                        i + take <= entries@.len(),
                        entries@.len() < 0x8000000000000000,
                        entries@.len() <= usize::MAX,
                        vall == views(entries@),
                        seg == vall.skip(i as int),
                        html@ + spec_render_list(seg.take(take as int).skip(k as int), now as int)
                            == html_before_list + spec_render_list(
                            seg.take(take as int),
                            now as int,
                        ),
                    decreases take - k,
                {
                    proof {
                        assert(i + k < entries@.len());
                        assert(seg.take(take as int).skip(k as int)[0] == vall[i as int + k as int]);
                        assert(seg.take(take as int).skip(k as int).skip(1) =~= seg.take(
                            take as int,
                        ).skip(k as int + 1));
                    }
                    render_entry(html, &entries[i + k], now);
                    k += 1;
                    proof {
                        assert(html@ + spec_render_list(
                            seg.take(take as int).skip(k as int),
                            now as int,
                        ) =~= html_before_list + spec_render_list(seg.take(take as int), now as int));
                    }
                }
                proof {
                    assert(seg.take(take as int).skip(take as int) =~= Seq::<EntryView>::empty());
                    assert(html@ + spec_render_list(
                        seg.take(take as int).skip(take as int),
                        now as int,
                    ) =~= html@);
                }
                html.extend_from_slice("</div>\n".as_bytes());
                i += take;
                pageno += 1;
                proof {
                    assert(seg.skip(take as int) =~= vall.skip(i as int));
                    assert(html@ + spec_render_pages(
                        vall.skip(i as int),
                        now as int,
                        n as int,
                        pageno as int,
                    ) =~= old(html)@ + spec_render_pages(vall, now as int, n as int, 1));
                }
            }
            proof {
                assert(vall.skip(vall.len() as int) =~= Seq::<EntryView>::empty());
                assert(html@ + spec_render_pages(
                    vall.skip(vall.len() as int),
                    now as int,
                    n as int,
                    pageno as int,
                ) =~= html@);
            }
        },
    }
}

} // verus!
