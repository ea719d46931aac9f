//! The canonical entry model: the parser's raw item, the normalized
//! entry, and the published pair of entry collections.
use vstd::prelude::*;

verus! {

/// Parser output for one item/entry element, before normalization.
/// No uniqueness constraints; any field may be empty or absent.
pub struct RawEntry {
    pub id: Vec<u8>,
    pub title: Vec<u8>,
    pub link: Vec<u8>,
    pub published: Option<Vec<u8>>,
    pub summary: Option<Vec<u8>>,
}

pub struct RawEntryView {
    pub id: Seq<u8>,
    pub title: Seq<u8>,
    pub link: Seq<u8>,
    pub published: Option<Seq<u8>>,
    pub summary: Option<Seq<u8>>,
}

impl View for RawEntry {
    type V = RawEntryView;

    open spec fn view(&self) -> RawEntryView {
        RawEntryView {
            id: self.id@,
            title: self.title@,
            link: self.link@,
            published: match self.published {
                Some(p) => Some(p@),
                None => None,
            },
            summary: match self.summary {
                Some(s) => Some(s@),
                None => None,
            },
        }
    }
}

/// A canonical entry, immutable once constructed.
pub struct Entry {
    pub id: Vec<u8>,
    pub title: Vec<u8>,
    pub link: Vec<u8>,
    pub published: Option<i64>,
    pub feed_title: Vec<u8>,
    pub summary: Option<Vec<u8>>,
}

pub struct EntryView {
    pub id: Seq<u8>,
    pub title: Seq<u8>,
    pub link: Seq<u8>,
    pub published: Option<int>,
    pub feed_title: Seq<u8>,
    pub summary: Option<Seq<u8>>,
}

impl View for Entry {
    type V = EntryView;

    open spec fn view(&self) -> EntryView {
        EntryView {
            id: self.id@,
            title: self.title@,
            link: self.link@,
            published: match self.published {
                Some(t) => Some(t as int),
                None => None,
            },
            feed_title: self.feed_title@,
            summary: match self.summary {
                Some(s) => Some(s@),
                None => None,
            },
        }
    }
}

/// The views of a sequence of entries.
pub open spec fn views(s: Seq<Entry>) -> Seq<EntryView> {
    s.map_values(|e: Entry| e@)
}

/// An entry some collection may hold: a non-empty title, and a summary
/// that is absent rather than empty.
pub open spec fn spec_entry_wf(e: EntryView) -> bool {
    &&& e.title.len() > 0
    &&& (e.summary matches Some(s) ==> s.len() > 0)
}

/// Entry `a` ranks no later than `b`: a known publication instant ranks
/// before an unknown one, and between known instants the larger (more
/// recent) ranks first.
pub open spec fn spec_rank_ge(a: Option<int>, b: Option<int>) -> bool {
    match a {
        Some(x) => match b {
            Some(y) => x >= y,
            None => true,
        },
        None => b is None,
    }
}

/// A published collection: ids pairwise distinct, ordered by publication
/// instant descending with undated entries after all dated ones.
pub open spec fn spec_collection_wf(s: Seq<EntryView>) -> bool {
    &&& forall|i: int, j: int| 0 <= i < j < s.len() ==> s[i].id != s[j].id
    &&& forall|i: int, j: int|
        0 <= i < j < s.len() ==> spec_rank_ge(#[trigger] s[i].published, #[trigger] s[j].published)
}

/// The pair of published collections, replaced wholesale by each refresh
/// cycle and never mutated in place.
pub struct FeedState {
    pub main: Vec<Entry>,
    pub noisy: Vec<Entry>,
}

impl FeedState {
    /// Both collections satisfy the published-collection invariant.
    pub open spec fn wf(&self) -> bool {
        &&& spec_collection_wf(views(self.main@))
        &&& spec_collection_wf(views(self.noisy@))
    }
}

} // verus!
