//! The dedup and ordering engine: entries collected across all feeds of
//! one category are deduplicated by id (first encountered wins) and
//! ordered by publication instant, newest first, undated entries last.
use vstd::prelude::*;
use vstd::multiset::Multiset;
use crate::entry::{Entry, EntryView, spec_rank_ge, views};

verus! {

/// Some entry in `s` carries this id.
pub open spec fn spec_has_id(s: Seq<EntryView>, id: Seq<u8>) -> bool {
    exists|i: int| 0 <= i < s.len() && (#[trigger] s[i]).id == id
}

/// The id of every entry, in order.
pub open spec fn spec_ids(s: Seq<EntryView>) -> Seq<Seq<u8>> {
    s.map_values(|e: EntryView| e.id)
}

/// First-encountered-wins deduplication: an entry is kept exactly when
/// no earlier entry carries its id.
pub open spec fn spec_dedup(s: Seq<EntryView>) -> Seq<EntryView>
    decreases s.len(),
{
    if s.len() == 0 {
        seq![]
    } else {
        let front = spec_dedup(s.drop_last());
        if spec_has_id(s.drop_last(), s.last().id) {
            front
        } else {
            front.push(s.last())
        }
    }
}

proof fn lemma_has_id_push(s: Seq<EntryView>, e: EntryView, id: Seq<u8>)
    ensures
        spec_has_id(s.push(e), id) == (spec_has_id(s, id) || e.id == id),
{
    if spec_has_id(s, id) {
        let i = choose|i: int| 0 <= i < s.len() && (#[trigger] s[i]).id == id;
        assert(s.push(e)[i].id == id);
    }
    if e.id == id {
        assert(s.push(e)[s.len() as int].id == id);
    }
    if spec_has_id(s.push(e), id) {
        let i = choose|i: int| 0 <= i < s.push(e).len() && (#[trigger] s.push(e)[i]).id == id;
        if i < s.len() {
            assert(s[i].id == id);
        }
    }
}

/// Deduplicated output carries an id exactly when the input did.
pub proof fn lemma_dedup_keeps_every_id(s: Seq<EntryView>, id: Seq<u8>)
    ensures
        spec_has_id(spec_dedup(s), id) == spec_has_id(s, id),
    decreases s.len(),
{
    if s.len() > 0 {
        lemma_dedup_keeps_every_id(s.drop_last(), id);
        assert(s.drop_last().push(s.last()) =~= s);
        lemma_has_id_push(s.drop_last(), s.last(), id);
        if !spec_has_id(s.drop_last(), s.last().id) {
            lemma_has_id_push(spec_dedup(s.drop_last()), s.last(), id);
        }
    }
}

/// Deduplicated output has pairwise distinct ids: exactly one entry per
/// distinct id of the input.
pub proof fn lemma_dedup_unique_ids(s: Seq<EntryView>)
    ensures
        forall|i: int, j: int|
            0 <= i < j < spec_dedup(s).len() ==> (#[trigger] spec_dedup(s)[i]).id != (
            #[trigger] spec_dedup(s)[j]).id,
    decreases s.len(),
{
    if s.len() > 0 {
        lemma_dedup_unique_ids(s.drop_last());
        let front = spec_dedup(s.drop_last());
        if !spec_has_id(s.drop_last(), s.last().id) {
            lemma_dedup_keeps_every_id(s.drop_last(), s.last().id);
            assert(!spec_has_id(front, s.last().id));
            assert forall|i: int, j: int| 0 <= i < j < spec_dedup(s).len() implies (
            #[trigger] spec_dedup(s)[i]).id != (#[trigger] spec_dedup(s)[j]).id by {
                if j < front.len() {
                    assert(front[i].id != front[j].id);
                } else {
                    assert(spec_dedup(s)[j] == s.last());
                    assert(spec_dedup(s)[i] == front[i]);
                    if front[i].id == s.last().id {
                        assert(spec_has_id(front, s.last().id));
                    }
                }
            }
        }
    }
}

/// Every kept entry is the first-encountered occurrence of its id: it
/// equals an input entry no earlier occurrence of whose id exists.
pub proof fn lemma_dedup_first_occurrence_wins(s: Seq<EntryView>)
    ensures
        forall|j: int|
            0 <= j < spec_dedup(s).len() ==> exists|i: int|
                0 <= i < s.len() && s[i] == (#[trigger] spec_dedup(s)[j]) && (forall|k: int|
                    0 <= k < i ==> (#[trigger] s[k]).id != spec_dedup(s)[j].id),
    decreases s.len(),
{
    if s.len() > 0 {
        lemma_dedup_first_occurrence_wins(s.drop_last());
        let front = spec_dedup(s.drop_last());
        assert forall|j: int| 0 <= j < spec_dedup(s).len() implies exists|i: int|
            0 <= i < s.len() && s[i] == (#[trigger] spec_dedup(s)[j]) && (forall|k: int|
                0 <= k < i ==> (#[trigger] s[k]).id != spec_dedup(s)[j].id) by {
            if j < front.len() {
                let i = choose|i: int|
                    0 <= i < s.drop_last().len() && s.drop_last()[i] == front[j] && (forall|k: int|
                        0 <= k < i ==> (#[trigger] s.drop_last()[k]).id != front[j].id);
                assert(s[i] == front[j]);
                assert forall|k: int| 0 <= k < i implies (#[trigger] s[k]).id != front[j].id by {
                    assert(s.drop_last()[k] == s[k]);
                }
                assert(spec_dedup(s)[j] == front[j]);
            } else {
                assert(spec_dedup(s)[j] == s.last());
                let i = s.len() - 1;
                assert(!spec_has_id(s.drop_last(), s.last().id));
                assert forall|k: int| 0 <= k < i implies (#[trigger] s[k]).id != s.last().id by {
                    assert(s.drop_last()[k] == s[k]);
                }
            }
        }
    }
}

fn contains_id(es: &Vec<Entry>, id: &[u8]) -> (r: bool)
    ensures
        r == spec_has_id(views(es@), id@),
{
    let mut k: usize = 0;
    while k < es.len()
        invariant
            k <= es@.len(),
            forall|i: int| 0 <= i < k ==> (#[trigger] views(es@)[i]).id != id@,
        decreases es@.len() - k,
    {
        if crate::text::bytes_eq(es[k].id.as_slice(), id) {
            proof {
                assert(views(es@)[k as int].id == id@);
            }
            return true;
        }
        k += 1;
    }
    false
}

/// Keep the first entry for each id, in encounter order.
pub fn dedup_entries(entries: Vec<Entry>) -> (r: Vec<Entry>)
    ensures
        views(r@) == spec_dedup(views(entries@)),
{
    let mut out: Vec<Entry> = Vec::new();
    let mut rest = entries;
    let ghost all = rest@;
    let ghost vall = views(all);
    proof {
        assert(all.skip(0) =~= all);
        assert(vall.take(0) =~= Seq::<EntryView>::empty());
    }
    while rest.len() > 0
        invariant
            rest@.len() <= all.len(),
            rest@ == all.skip(all.len() - rest@.len()),
            views(out@) == spec_dedup(vall.take(all.len() - rest@.len())),
            vall == views(all),
            forall|idq: Seq<u8>|
                spec_has_id(views(out@), idq) == spec_has_id(
                    vall.take(all.len() - rest@.len()),
                    idq,
                ),
        decreases rest@.len(),
    {
        let ghost i = all.len() - rest@.len();
        let x = rest.remove(0);
        proof {
            assert(all.skip(i)[0] == all[i]);
            assert(x == all[i]);
            assert(rest@ =~= all.skip(i + 1));
            assert(vall.take(i + 1).drop_last() =~= vall.take(i));
            assert(vall.take(i + 1).last() == vall[i]);
            assert(vall[i] == all[i]@);
        }
        let dup = contains_id(&out, x.id.as_slice());
        proof {
            assert(dup == spec_has_id(vall.take(i), x@.id));
        }
        if !dup {
            out.push(x);
            proof {
                assert(views(out@) =~= spec_dedup(vall.take(i)).push(x@));
                assert forall|idq: Seq<u8>|
                    spec_has_id(views(out@), idq) == spec_has_id(vall.take(i + 1), idq) by {
                    lemma_has_id_push(spec_dedup(vall.take(i)), x@, idq);
                    lemma_has_id_push(vall.take(i), x@, idq);
                    assert(views(out@) == spec_dedup(vall.take(i)).push(x@));
                    assert(vall.take(i + 1) == vall.take(i).push(x@));
                    lemma_dedup_keeps_every_id(vall.take(i), idq);
                }
            }
        } else {
            proof {
                assert forall|idq: Seq<u8>|
                    spec_has_id(views(out@), idq) == spec_has_id(vall.take(i + 1), idq) by {
                    lemma_has_id_push(vall.take(i), x@, idq);
                    assert(vall.take(i + 1) == vall.take(i).push(x@));
                    if x@.id == idq {
                        assert(spec_has_id(vall.take(i), idq));
                    }
                }
            }
        }
    }
    proof {
        assert(vall.take(all.len() as int) =~= vall);
    }
    out
}

/// Entries of the output are ordered: dated before undated, and more
/// recent before older among the dated.
pub open spec fn spec_sorted(s: Seq<EntryView>) -> bool {
    forall|i: int, j: int|
        0 <= i < j < s.len() ==> spec_rank_ge(#[trigger] s[i].published, #[trigger] s[j].published)
}

pub open spec fn spec_opt_int(o: Option<i64>) -> Option<int> {
    match o {
        Some(v) => Some(v as int),
        None => None,
    }
}

/// The index the ordering takes next: the leftmost of the maxima under
/// the rank order among `s`, scanning from `j` with `best` the leftmost
/// maximum so far.
pub open spec fn spec_best_from(s: Seq<EntryView>, best: int, j: int) -> int
    decreases s.len() - j,
{
    if j < 0 || j >= s.len() || best < 0 || best >= s.len() {
        best
    } else if !spec_rank_ge(s[best].published, s[j].published) {
        spec_best_from(s, j, j + 1)
    } else {
        spec_best_from(s, best, j + 1)
    }
}

pub open spec fn spec_best_index(s: Seq<EntryView>) -> int {
    spec_best_from(s, 0, 1)
}

/// The stable ordering: repeatedly take the leftmost maximal entry. The
/// output is a function of the input sequence alone — deterministic and
/// reproducible — and entries with equal publication instants keep their
/// encounter order.
pub open spec fn spec_sort_stable(s: Seq<EntryView>) -> Seq<EntryView>
    decreases s.len(),
{
    if s.len() == 0 {
        seq![]
    } else {
        let m0 = spec_best_index(s);
        let m = if 0 <= m0 < s.len() {
            m0
        } else {
            0
        };
        seq![s[m]] + spec_sort_stable(s.remove(m))
    }
}

fn rank_ge(a: &Option<i64>, b: &Option<i64>) -> (r: bool)
    ensures
        r == spec_rank_ge(spec_opt_int(*a), spec_opt_int(*b)),
{
    match a {
        Some(x) => match b {
            Some(y) => *x >= *y,
            None => true,
        },
        None => b.is_none(),
    }
}

/// Order entries newest first, dated entries before undated ones. The
/// output is a permutation of the input, of entries and of ids alike,
/// and exactly the stable ordering: ties among equal instants keep
/// encounter order, so the result is deterministic and reproducible.
pub fn sort_entries(entries: Vec<Entry>) -> (r: Vec<Entry>)
    ensures
        r@.len() == entries@.len(),
        spec_sorted(views(r@)),
        views(r@) == spec_sort_stable(views(entries@)),
        views(r@).to_multiset() == views(entries@).to_multiset(),
        spec_ids(views(r@)).to_multiset() == spec_ids(views(entries@)).to_multiset(),
{
    let mut out: Vec<Entry> = Vec::new();
    let mut rest = entries;
    let ghost all = rest@;
    proof {
        broadcast use vstd::seq_lib::group_to_multiset_ensures;

        assert(views(out@) + views(rest@) =~= views(all));
        assert(spec_ids(views(out@)) + spec_ids(views(rest@)) =~= spec_ids(views(all)));
        assert(views(out@) + spec_sort_stable(views(rest@)) =~= spec_sort_stable(views(all)));
    }
    while rest.len() > 0
        invariant
            out@.len() + rest@.len() == all.len(),
            spec_sorted(views(out@)),
            views(out@) + spec_sort_stable(views(rest@)) == spec_sort_stable(views(all)),
            forall|i: int, j: int|
                0 <= i < out@.len() && 0 <= j < rest@.len() ==> spec_rank_ge(
                    #[trigger] views(out@)[i].published,
                    #[trigger] views(rest@)[j].published,
                ),
            views(out@).to_multiset().add(views(rest@).to_multiset()) == views(all).to_multiset(),
            spec_ids(views(out@)).to_multiset().add(spec_ids(views(rest@)).to_multiset())
                == spec_ids(views(all)).to_multiset(),
        decreases rest@.len(),
    {
        let mut best: usize = 0;
        let mut j: usize = 1;
        while j < rest.len()
            invariant
                rest@.len() > 0,
                1 <= j <= rest@.len(),
                best < j,
                spec_best_from(views(rest@), best as int, j as int) == spec_best_index(
                    views(rest@),
                ),
                forall|k: int|
                    0 <= k < j ==> spec_rank_ge(
                        views(rest@)[best as int].published,
                        #[trigger] views(rest@)[k].published,
                    ),
            decreases rest@.len() - j,
        {
            proof {
                assert(views(rest@)[best as int].published == spec_opt_int(
                    rest@[best as int].published,
                ));
                assert(views(rest@)[j as int].published == spec_opt_int(rest@[j as int].published));
            }
            if !rank_ge(&rest[best].published, &rest[j].published) {
                best = j;
            }
            j += 1;
        }
        let ghost oldrest = rest@;
        let e = rest.remove(best);
        proof {
            broadcast use vstd::seq_lib::group_to_multiset_ensures;

            assert(e == oldrest[best as int]);
            assert(views(rest@) =~= views(oldrest).remove(best as int));
            assert(spec_ids(views(rest@)) =~= spec_ids(views(oldrest)).remove(best as int));
            assert(views(oldrest).remove(best as int).to_multiset() == views(
                oldrest,
            ).to_multiset().remove(views(oldrest)[best as int]));
            assert(spec_ids(views(oldrest)).remove(best as int).to_multiset() == spec_ids(
                views(oldrest),
            ).to_multiset().remove(spec_ids(views(oldrest))[best as int]));
        }
        let ghost oldout = out@;
        out.push(e);
        proof {
            broadcast use vstd::seq_lib::group_to_multiset_ensures;
            broadcast use vstd::multiset::group_multiset_axioms;

            assert(views(out@) =~= views(oldout).push(e@));
            assert(spec_ids(views(out@)) =~= spec_ids(views(oldout)).push(e@.id));
            assert(views(out@).to_multiset() =~= views(oldout).to_multiset().insert(e@));
            assert(spec_ids(views(out@)).to_multiset() =~= spec_ids(
                views(oldout),
            ).to_multiset().insert(e@.id));
            assert(views(oldrest)[best as int] == e@);
            assert(spec_ids(views(oldrest))[best as int] == e@.id);
            assert(views(oldrest).contains(e@));
            assert(spec_ids(views(oldrest)).contains(e@.id));
            assert(views(oldrest).to_multiset().count(e@) > 0);
            assert(spec_ids(views(oldrest)).to_multiset().count(e@.id) > 0);
            assert(views(out@).to_multiset().add(views(rest@).to_multiset()) =~= views(
                all,
            ).to_multiset());
            assert(spec_ids(views(out@)).to_multiset().add(spec_ids(views(rest@)).to_multiset())
                =~= spec_ids(views(all)).to_multiset());
            assert(best as int == spec_best_index(views(oldrest)));
            assert(spec_sort_stable(views(oldrest)) == seq![e@] + spec_sort_stable(
                views(oldrest).remove(best as int),
            ));
            assert(spec_sort_stable(views(rest@)) == spec_sort_stable(
                views(oldrest).remove(best as int),
            ));
            assert(views(out@) + spec_sort_stable(views(rest@)) =~= views(oldout)
                + spec_sort_stable(views(oldrest)));
            assert forall|i: int, j2: int|
                0 <= i < out@.len() && 0 <= j2 < rest@.len() implies spec_rank_ge(
                #[trigger] views(out@)[i].published,
                #[trigger] views(rest@)[j2].published,
            ) by {
                let src = if j2 < best {
                    j2
                } else {
                    j2 + 1
                };
                assert(views(rest@)[j2] == views(oldrest)[src]);
                if i < out@.len() - 1 {
                    assert(spec_rank_ge(views(out@)[i].published, e@.published));
                }
                assert(spec_rank_ge(e@.published, views(oldrest)[src].published));
            }
        }
    }
    proof {
        broadcast use vstd::seq_lib::group_to_multiset_ensures;

        assert(views(rest@).to_multiset() =~= Multiset::<EntryView>::empty());
        assert(spec_ids(views(rest@)).to_multiset() =~= Multiset::<Seq<u8>>::empty());
        assert(views(out@).to_multiset() =~= views(all).to_multiset());
        assert(spec_ids(views(out@)).to_multiset() =~= spec_ids(views(all)).to_multiset());
        assert(views(out@).to_multiset().len() == views(all).to_multiset().len());
        assert(spec_sort_stable(views(rest@)) == Seq::<EntryView>::empty());
        assert(views(out@) + spec_sort_stable(views(rest@)) =~= views(out@));
        assert(views(out@) =~= spec_sort_stable(views(all)));
    }
    out
}

/// Merge one category's entries, as collected across its feeds in
/// encounter order: keep the first entry for each id, then order newest
/// first with undated entries after all dated ones, stably — the output
/// is a function of the input ordering alone, deterministic and
/// reproducible.
pub fn merge_entries(entries: Vec<Entry>) -> (r: Vec<Entry>)
    ensures
        spec_sorted(views(r@)),
        views(r@) == spec_sort_stable(spec_dedup(views(entries@))),
        views(r@).to_multiset() == spec_dedup(views(entries@)).to_multiset(),
        crate::entry::spec_collection_wf(views(r@)),
{
    let d = dedup_entries(entries);
    let ghost dv = views(d@);
    let ghost ev = views(entries@);
    let r = sort_entries(d);
    proof {
        lemma_dedup_unique_ids(ev);
        assert(spec_ids(dv).no_duplicates()) by {
            assert forall|i: int, j: int|
                0 <= i < spec_ids(dv).len() && 0 <= j < spec_ids(dv).len() && i != j implies
                spec_ids(dv)[i] != spec_ids(dv)[j] by {
                assert(spec_ids(dv)[i] == dv[i].id);
                assert(spec_ids(dv)[j] == dv[j].id);
            }
        }
        spec_ids(dv).lemma_multiset_has_no_duplicates();
        assert(forall|x: Seq<u8>|
            spec_ids(views(r@)).to_multiset().contains(x) ==> spec_ids(
                views(r@),
            ).to_multiset().count(x) == 1);
        spec_ids(views(r@)).lemma_multiset_has_no_duplicates_conv();
        assert forall|i: int, j: int| 0 <= i < j < views(r@).len() implies (
        #[trigger] views(r@)[i]).id != (#[trigger] views(r@)[j]).id by {
            assert(spec_ids(views(r@))[i] == views(r@)[i].id);
            assert(spec_ids(views(r@))[j] == views(r@)[j].id);
        }
    }
    r
}

} // verus!
