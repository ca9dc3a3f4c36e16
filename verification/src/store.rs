//! The record of where the reader has been: history and bookmarks.
//!
//! Both are lists of entries identified by archive and path. Reading and
//! writing the file they are kept in is left to the application.

use vstd::prelude::*;
use vstd::string::StringExecFns;
use crate::chars::str_eq;

verus! {

/// How many visits to keep.
pub const HISTORY_LIMIT: usize = 500;

/// One entry, in one archive, as it was seen. `archive_title` is kept so that
/// a row can say which archive it came from after the archive is closed.
#[derive(Debug, Clone, PartialEq, Eq)]
pub struct Visit {
    pub uuid: String,
    pub path: String,
    pub title: String,
    pub archive_title: String,
    /// Seconds since the Unix epoch; 0 when the clock was unavailable.
    pub at: u64,
}

/// A visit as plain values.
pub struct VisitView {
    pub uuid: Seq<char>,
    pub path: Seq<char>,
    pub title: Seq<char>,
    pub archive_title: Seq<char>,
    pub at: u64,
}

impl View for Visit {
    type V = VisitView;

    open spec fn view(&self) -> VisitView {
        VisitView {
            uuid: self.uuid@,
            path: self.path@,
            title: self.title@,
            archive_title: self.archive_title@,
            at: self.at,
        }
    }
}

pub open spec fn visit_views(s: Seq<Visit>) -> Seq<VisitView> {
    s.map_values(|v: Visit| v@)
}

/// Whether two visits refer to the same entry, whenever and under whatever
/// title they were seen.
pub open spec fn same_entry(a: VisitView, b: VisitView) -> bool {
    a.uuid == b.uuid && a.path == b.path
}

/// `s` without the visits to the entry of `v`, in order.
pub open spec fn without_entry(s: Seq<VisitView>, v: VisitView) -> Seq<VisitView>
    decreases s.len(),
{
    if s.len() == 0 {
        s
    } else {
        let w = without_entry(s.drop_last(), v);
        if same_entry(s.last(), v) { w } else { w.push(s.last()) }
    }
}

/// History after a visit: the visit first, any earlier visit to the same entry
/// dropped, at most `HISTORY_LIMIT` kept.
pub open spec fn spec_record(h: Seq<VisitView>, v: VisitView) -> Seq<VisitView> {
    let r = seq![v] + without_entry(h, v);
    if r.len() > HISTORY_LIMIT { r.take(HISTORY_LIMIT as int) } else { r }
}

/// Whether a list holds a visit to the entry `uuid`/`path`.
pub open spec fn spec_is_bookmarked(b: Seq<VisitView>, uuid: Seq<char>, path: Seq<char>) -> bool {
    exists|i: int| 0 <= i < b.len() && #[trigger] b[i].uuid == uuid && b[i].path == path
}

/// Bookmarks after toggling the entry of `v`: removed when present, added
/// first otherwise.
pub open spec fn spec_toggle(b: Seq<VisitView>, v: VisitView) -> Seq<VisitView> {
    if spec_is_bookmarked(b, v.uuid, v.path) { without_entry(b, v) } else { seq![v] + b }
}

/// At most one visit per entry, and at most `HISTORY_LIMIT` visits.
pub open spec fn history_wf(h: Seq<VisitView>) -> bool {
    &&& h.len() <= HISTORY_LIMIT
    &&& forall|i: int, j: int| 0 <= i < j < h.len() ==> !same_entry(h[i], h[j])
}

impl Visit {
    /// The line under a saved row's title: which archive the entry came from
    /// and where in it.
    pub fn subtitle(&self) -> (r: String)
        ensures r@ == self.archive_title@ + " · "@ + self.path@,
    {
        String::from_str(self.archive_title.as_str()).concat(" · ").concat(self.path.as_str())
    }
}

/// History and bookmarks.
pub struct Store {
    history: Vec<Visit>,
    bookmarks: Vec<Visit>,
}

pub struct StoreView {
    pub history: Seq<VisitView>,
    pub bookmarks: Seq<VisitView>,
}

impl View for Store {
    type V = StoreView;

    closed spec fn view(&self) -> StoreView {
        StoreView { history: visit_views(self.history@), bookmarks: visit_views(self.bookmarks@) }
    }
}

/// Drops every visit to the entry of `v` from `list`.
fn remove_entry(list: &mut Vec<Visit>, v: &Visit)
    ensures visit_views(final(list)@) == without_entry(visit_views(old(list)@), v@),
{
    let mut rest: Vec<Visit> = Vec::new();
    std::mem::swap(&mut rest, list);
    let ghost orig = rest@;
    let ghost mut n: int = 0;
    while rest.len() > 0
        invariant
            0 <= n <= orig.len(),
            rest@ == orig.skip(n),
            visit_views(list@) == without_entry(visit_views(orig.take(n)), v@),
        decreases rest.len(),
    {
        let e = rest.remove(0);
        proof {
            assert(e == orig[n]);
            assert(visit_views(orig.take(n + 1)) =~= visit_views(orig.take(n)).push(e@));
            assert(visit_views(orig.take(n + 1)).drop_last() =~= visit_views(orig.take(n)));
            n = n + 1;
            assert(rest@ =~= orig.skip(n));
        }
        if !(str_eq(e.uuid.as_str(), v.uuid.as_str()) && str_eq(e.path.as_str(), v.path.as_str())) {
            let ghost before = list@;
            list.push(e);
            assert(visit_views(list@) =~= visit_views(before).push(e@));
        }
    }
    assert(orig.take(n) =~= orig);
}

impl Store {
    /// An empty store.
    pub fn new() -> (r: Self)
        ensures
            r@.history == Seq::<VisitView>::empty(),
            r@.bookmarks == Seq::<VisitView>::empty(),
    {
        let r = Store { history: Vec::new(), bookmarks: Vec::new() };
        assert(visit_views(r.history@) =~= Seq::<VisitView>::empty());
        assert(visit_views(r.bookmarks@) =~= Seq::<VisitView>::empty());
        r
    }

    /// A store holding the given lists as they are, as read back from disk.
    pub fn from_lists(history: Vec<Visit>, bookmarks: Vec<Visit>) -> (r: Self)
        ensures
            r@.history == visit_views(history@),
            r@.bookmarks == visit_views(bookmarks@),
    {
        Store { history, bookmarks }
    }

    /// Most recent first.
    pub fn history(&self) -> (r: &[Visit])
        ensures visit_views(r@) == self@.history,
    {
        self.history.as_slice()
    }

    /// Most recently added first.
    pub fn bookmarks(&self) -> (r: &[Visit])
        ensures visit_views(r@) == self@.bookmarks,
    {
        self.bookmarks.as_slice()
    }

    /// Record a visit, moving an entry already seen to the front rather than
    /// letting a page revisited ten times fill ten rows.
    pub fn record(&mut self, visit: Visit)
        ensures
            final(self)@.history == spec_record(old(self)@.history, visit@),
            final(self)@.bookmarks == old(self)@.bookmarks,
    {
        remove_entry(&mut self.history, &visit);
        let ghost w = visit_views(self.history@);
        self.history.insert(0, visit);
        assert(visit_views(self.history@) =~= seq![visit@] + w);
        let ghost r = self.history@;
        self.history.truncate(HISTORY_LIMIT);
        proof {
            if r.len() > HISTORY_LIMIT {
                assert(visit_views(self.history@) =~= visit_views(r).take(HISTORY_LIMIT as int));
            } else {
                assert(self.history@ =~= r);
            }
        }
    }

    /// Whether the entry `uuid`/`path` is bookmarked.
    pub fn is_bookmarked(&self, uuid: &str, path: &str) -> (r: bool)
        ensures r == spec_is_bookmarked(self@.bookmarks, uuid@, path@),
    {
        let mut i: usize = 0;
        while i < self.bookmarks.len()
            invariant
                i <= self.bookmarks.len(),
                forall|k: int| 0 <= k < i ==> !(#[trigger] self@.bookmarks[k].uuid == uuid@
                    && self@.bookmarks[k].path == path@),
            decreases self.bookmarks.len() - i,
        {
            let b = &self.bookmarks[i];
            assert(self@.bookmarks[i as int] == b@);
            if str_eq(b.uuid.as_str(), uuid) && str_eq(b.path.as_str(), path) {
                assert(self@.bookmarks[i as int].uuid == uuid@ && self@.bookmarks[i as int].path == path@);
                return true;
            }
            i = i + 1;
        }
        false
    }

    /// Add or remove a bookmark for this entry. Returns whether it is now
    /// bookmarked.
    pub fn toggle_bookmark(&mut self, visit: Visit) -> (r: bool)
        ensures
            final(self)@.bookmarks == spec_toggle(old(self)@.bookmarks, visit@),
            final(self)@.history == old(self)@.history,
            r == !spec_is_bookmarked(old(self)@.bookmarks, visit@.uuid, visit@.path),
            r == spec_is_bookmarked(final(self)@.bookmarks, visit@.uuid, visit@.path),
    {
        if self.is_bookmarked(visit.uuid.as_str(), visit.path.as_str()) {
            remove_entry(&mut self.bookmarks, &visit);
            proof { lemma_without_entry(visit_views(old(self).bookmarks@), visit@); }
            false
        } else {
            let ghost b = visit_views(self.bookmarks@);
            self.bookmarks.insert(0, visit);
            assert(visit_views(self.bookmarks@) =~= seq![visit@] + b);
            assert(visit_views(self.bookmarks@)[0] == visit@);
            true
        }
    }

    /// Forget every visit; bookmarks stay.
    pub fn clear_history(&mut self)
        ensures
            final(self)@.history == Seq::<VisitView>::empty(),
            final(self)@.bookmarks == old(self)@.bookmarks,
    {
        self.history.clear();
        assert(visit_views(self.history@) =~= Seq::<VisitView>::empty());
    }
}

impl Default for Store {
    fn default() -> (r: Self)
        ensures
            r@.history == Seq::<VisitView>::empty(),
            r@.bookmarks == Seq::<VisitView>::empty(),
    {
        Store::new()
    }
}

pub proof fn lemma_without_entry(s: Seq<VisitView>, v: VisitView)
    ensures
        without_entry(s, v).len() <= s.len(),
        forall|i: int| 0 <= i < without_entry(s, v).len() ==> !same_entry(#[trigger] without_entry(s, v)[i], v),
        forall|i: int| 0 <= i < without_entry(s, v).len() ==> s.contains(#[trigger] without_entry(s, v)[i]),
        !spec_is_bookmarked(without_entry(s, v), v.uuid, v.path),
        (forall|i: int| 0 <= i < s.len() ==> !same_entry(#[trigger] s[i], v)) ==> without_entry(s, v) == s,
    decreases s.len(),
{
    if s.len() > 0 {
        let d = s.drop_last();
        lemma_without_entry(d, v);
        let w = without_entry(d, v);
        assert forall|i: int| 0 <= i < without_entry(s, v).len() implies s.contains(#[trigger] without_entry(s, v)[i]) by {
            if i < w.len() {
                assert(d.contains(w[i]));
                let j = choose|j: int| 0 <= j < d.len() && d[j] == w[i];
                assert(s[j] == w[i]);
            } else {
                assert(s[s.len() - 1] == s.last());
            }
        }
        if forall|i: int| 0 <= i < s.len() ==> !same_entry(#[trigger] s[i], v) {
            assert forall|i: int| 0 <= i < d.len() implies !same_entry(#[trigger] d[i], v) by {
                assert(d[i] == s[i]);
            }
            assert(s.last() == s[s.len() - 1]);
            assert(s =~= d.push(s.last()));
        }
    }
    let r = without_entry(s, v);
    if spec_is_bookmarked(r, v.uuid, v.path) {
        let i = choose|i: int| 0 <= i < r.len() && #[trigger] r[i].uuid == v.uuid && r[i].path == v.path;
        assert(!same_entry(r[i], v));
    }
}

proof fn lemma_without_entry_wf(s: Seq<VisitView>, v: VisitView)
    requires forall|i: int, j: int| 0 <= i < j < s.len() ==> !same_entry(s[i], s[j]),
    ensures
        forall|i: int, j: int| 0 <= i < j < without_entry(s, v).len()
            ==> !same_entry(without_entry(s, v)[i], without_entry(s, v)[j]),
    decreases s.len(),
{
    if s.len() > 0 {
        let d = s.drop_last();
        lemma_without_entry_wf(d, v);
        lemma_without_entry(d, v);
        let w = without_entry(d, v);
        if !same_entry(s.last(), v) {
            let r = w.push(s.last());
            assert forall|i: int, j: int| 0 <= i < j < r.len() implies !same_entry(r[i], r[j]) by {
                if j == r.len() - 1 {
                    assert(d.contains(w[i]));
                    let k = choose|k: int| 0 <= k < d.len() && d[k] == w[i];
                    assert(s[k] == d[k]);
                    assert(s[s.len() - 1] == s.last());
                }
            }
        }
    }
}

/// Recording keeps the history at most `HISTORY_LIMIT` long, with at most one
/// visit per entry; the newest visit comes first.
pub proof fn law_record_wf(h: Seq<VisitView>, v: VisitView)
    requires history_wf(h),
    ensures
        history_wf(spec_record(h, v)),
        spec_record(h, v)[0] == v,
{
    lemma_without_entry(h, v);
    lemma_without_entry_wf(h, v);
    let w = without_entry(h, v);
    let r = seq![v] + w;
    assert forall|i: int, j: int| 0 <= i < j < r.len() implies !same_entry(r[i], r[j]) by {
        if i == 0 {
            assert(r[j] == w[j - 1]);
        } else {
            assert(r[i] == w[i - 1]);
            assert(r[j] == w[j - 1]);
        }
    }
    assert(r[0] == v);
}

proof fn lemma_without_entry_prepended(b: Seq<VisitView>, v: VisitView)
    ensures without_entry(seq![v] + b, v) == without_entry(b, v),
    decreases b.len(),
{
    let s = seq![v] + b;
    if b.len() == 0 {
        assert(s.drop_last() =~= Seq::<VisitView>::empty());
        assert(s.last() == v);
        assert(without_entry(s.drop_last(), v) == Seq::<VisitView>::empty());
        assert(without_entry(s, v) == without_entry(s.drop_last(), v));
        assert(b =~= Seq::<VisitView>::empty());
    } else {
        assert(s.drop_last() =~= seq![v] + b.drop_last());
        assert(s.last() == b.last());
        lemma_without_entry_prepended(b.drop_last(), v);
        assert(without_entry(s.drop_last(), v) == without_entry(b.drop_last(), v));
    }
}

/// Toggling a bookmark that is not there, then toggling it again, leaves the
/// bookmarks as they were.
pub proof fn law_toggle_twice_restores(b: Seq<VisitView>, v: VisitView)
    requires !spec_is_bookmarked(b, v.uuid, v.path),
    ensures spec_toggle(spec_toggle(b, v), v) == b,
{
    let t = seq![v] + b;
    assert(t[0] == v);
    assert(spec_is_bookmarked(t, v.uuid, v.path));
    lemma_without_entry_prepended(b, v);
    assert forall|i: int| 0 <= i < b.len() implies !same_entry(#[trigger] b[i], v) by {
        if same_entry(b[i], v) {
            assert(b[i].uuid == v.uuid && b[i].path == v.path);
        }
    }
    lemma_without_entry(b, v);
}

/// Bookmarking an entry that is not bookmarked yet puts it first, ahead of
/// every earlier bookmark in its old order; toggling one that is bookmarked
/// takes every bookmark of its entry away, keeps no other visit than those it
/// had, and leaves the rest no longer.
pub proof fn law_toggle_adds_first_and_removes_all(b: Seq<VisitView>, v: VisitView)
    ensures
        !spec_is_bookmarked(b, v.uuid, v.path) ==> {
            &&& spec_toggle(b, v).len() == b.len() + 1
            &&& spec_toggle(b, v)[0] == v
            &&& forall|k: int| 0 <= k < b.len() ==> #[trigger] spec_toggle(b, v)[k + 1] == b[k]
        },
        spec_is_bookmarked(b, v.uuid, v.path) ==> {
            &&& !spec_is_bookmarked(spec_toggle(b, v), v.uuid, v.path)
            &&& spec_toggle(b, v).len() < b.len()
            &&& forall|k: int| 0 <= k < spec_toggle(b, v).len() ==> b.contains(#[trigger] spec_toggle(b, v)[k])
        },
{
    lemma_without_entry(b, v);
    if spec_is_bookmarked(b, v.uuid, v.path) {
        lemma_without_entry_shorter(b, v);
    }
}

proof fn lemma_without_entry_shorter(s: Seq<VisitView>, v: VisitView)
    requires spec_is_bookmarked(s, v.uuid, v.path),
    ensures without_entry(s, v).len() < s.len(),
    decreases s.len(),
{
    let d = s.drop_last();
    lemma_without_entry(d, v);
    if !same_entry(s.last(), v) {
        let i = choose|i: int| 0 <= i < s.len() && #[trigger] s[i].uuid == v.uuid && s[i].path == v.path;
        assert(i != s.len() - 1);
        assert(d[i] == s[i]);
        assert(spec_is_bookmarked(d, v.uuid, v.path));
        lemma_without_entry_shorter(d, v);
    }
}

} // verus!
