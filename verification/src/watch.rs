//! Change-watch decisions: which debounced filesystem events re-trigger a
//! folder job, and the debouncer model itself — raw events for one path are
//! coalesced into a single pending notice that a later flush delivers once
//! the quiet period has passed. Registering the OS watch and waiting for
//! events is I/O and happens outside the library.

use vstd::prelude::*;
use crate::naming::{ext_of, get_ext, str_eq};

verus! {

/// The raw event kinds the watcher distinguishes.
#[derive(Clone, Copy, PartialEq, Eq, Structural, Debug)]
pub enum WatchEventKind {
    /// A file was created.
    CreateFile,
    /// A file's extended metadata changed.
    ModifyMetadataExtended,
    /// Any other kind of filesystem event.
    Other,
}

/// Whether an event of `kind` on `path` re-triggers the folder job of a
/// source expecting extension `ext`: file creations and extended-metadata
/// changes on paths whose final dot-segment is `ext`, nothing else.
pub open spec fn event_selects(kind: WatchEventKind, path: Seq<char>, ext: Seq<char>) -> bool {
    (kind is CreateFile || kind is ModifyMetadataExtended) && ext_of(path) == ext
}

/// Decide whether a delivered event re-triggers the folder job for a source
/// with extension `ext`.
pub fn event_triggers(kind: WatchEventKind, path: &str, ext: &str) -> (r: bool)
    ensures
        r == event_selects(kind, path@, ext@),
{
    match kind {
        WatchEventKind::CreateFile | WatchEventKind::ModifyMetadataExtended => {
            let path_ext = get_ext(path);
            str_eq(path_ext.as_str(), ext)
        },
        WatchEventKind::Other => false,
    }
}

/// Mathematical model of one pending notice.
#[verifier::ext_equal]
pub ghost struct NoticeV {
    pub path: Seq<char>,
    pub last_seen: u64,
}

/// One coalesced notification waiting for its quiet period to pass: the
/// path and the time of the last raw event seen for it.
pub struct PendingNotice {
    pub path: String,
    pub last_seen: u64,
}

impl View for PendingNotice {
    type V = NoticeV;

    open spec fn view(&self) -> NoticeV {
        NoticeV { path: self.path@, last_seen: self.last_seen }
    }
}

impl DeepView for PendingNotice {
    type V = NoticeV;

    open spec fn deep_view(&self) -> NoticeV {
        self@
    }
}

impl PendingNotice {
    /// A copy of this notice, equal under the model.
    pub fn duplicate(&self) -> (r: PendingNotice)
        ensures
            r@ == self@,
    {
        PendingNotice { path: self.path.clone(), last_seen: self.last_seen }
    }
}

/// No two pending notices share a path.
pub open spec fn distinct_paths(s: Seq<NoticeV>) -> bool {
    forall|i: int, j: int| 0 <= i < j < s.len() ==> (#[trigger] s[i].path) != (#[trigger] s[j].path)
}

/// Whether a notice for `path` is pending.
pub open spec fn has_notice(s: Seq<NoticeV>, path: Seq<char>) -> bool {
    exists|i: int| 0 <= i < s.len() && s[i].path == path
}

/// Time of the last raw event seen for `path` (first matching notice;
/// meaningful only under `has_notice`).
pub open spec fn seen_of(s: Seq<NoticeV>, path: Seq<char>) -> u64
    decreases s.len(),
{
    if s.len() == 0 {
        0
    } else if s[0].path == path {
        s[0].last_seen
    } else {
        seen_of(s.drop_first(), path)
    }
}

/// How many pending notices name `path`.
pub open spec fn count_notices(s: Seq<NoticeV>, path: Seq<char>) -> nat
    decreases s.len(),
{
    if s.len() == 0 {
        0
    } else {
        count_notices(s.drop_first(), path) + if s[0].path == path {
            1nat
        } else {
            0nat
        }
    }
}

/// Under distinct paths, the notice at any index is the one `seen_of` reads.
proof fn lemma_seen_at(s: Seq<NoticeV>, i: int)
    requires
        distinct_paths(s),
        0 <= i < s.len(),
    ensures
        has_notice(s, s[i].path),
        seen_of(s, s[i].path) == s[i].last_seen,
    decreases s.len(),
{
    if i > 0 {
        assert(s[0].path != s[i].path);
        assert(distinct_paths(s.drop_first())) by {
            assert(forall|k: int, l: int|
                0 <= k < l < s.drop_first().len() ==> s.drop_first()[k] == s[k + 1]
                    && s.drop_first()[l] == s[l + 1]);
        }
        lemma_seen_at(s.drop_first(), i - 1);
        assert(s.drop_first()[i - 1] == s[i]);
    }
}

/// Under distinct paths, a pending path has exactly one notice; an absent
/// one has none.
pub proof fn lemma_count_notices(s: Seq<NoticeV>, path: Seq<char>)
    requires
        distinct_paths(s),
    ensures
        count_notices(s, path) == if has_notice(s, path) {
            1nat
        } else {
            0nat
        },
    decreases s.len(),
{
    if s.len() > 0 {
        assert(distinct_paths(s.drop_first())) by {
            assert(forall|k: int, l: int|
                0 <= k < l < s.drop_first().len() ==> s.drop_first()[k] == s[k + 1]
                    && s.drop_first()[l] == s[l + 1]);
        }
        lemma_count_notices(s.drop_first(), path);
        if s[0].path == path {
            assert(!has_notice(s.drop_first(), path)) by {
                if has_notice(s.drop_first(), path) {
                    let k = choose|k: int|
                        0 <= k < s.drop_first().len() && s.drop_first()[k].path == path;
                    assert(s[k + 1].path == path);
                }
            }
        } else {
            assert(has_notice(s, path) == has_notice(s.drop_first(), path)) by {
                if has_notice(s, path) {
                    let k = choose|k: int| 0 <= k < s.len() && s[k].path == path;
                    assert(s.drop_first()[k - 1].path == path);
                }
                if has_notice(s.drop_first(), path) {
                    let k = choose|k: int|
                        0 <= k < s.drop_first().len() && s.drop_first()[k].path == path;
                    assert(s[k + 1].path == path);
                }
            }
        }
    }
}

/// No two delivered paths are equal.
pub open spec fn distinct_strings(s: Seq<Seq<char>>) -> bool {
    forall|i: int, j: int| 0 <= i < j < s.len() ==> s[i] != s[j]
}

/// How many delivered notifications name `path`.
pub open spec fn count_delivered(s: Seq<Seq<char>>, path: Seq<char>) -> nat
    decreases s.len(),
{
    if s.len() == 0 {
        0
    } else {
        count_delivered(s.drop_first(), path) + if s[0] == path {
            1nat
        } else {
            0nat
        }
    }
}

/// Distinct delivered paths name a path exactly once when they contain it,
/// never otherwise.
pub proof fn lemma_count_delivered(s: Seq<Seq<char>>, path: Seq<char>)
    requires
        distinct_strings(s),
    ensures
        count_delivered(s, path) == if s.contains(path) {
            1nat
        } else {
            0nat
        },
    decreases s.len(),
{
    if s.len() > 0 {
        assert(distinct_strings(s.drop_first())) by {
            assert(forall|k: int, l: int|
                0 <= k < l < s.drop_first().len() ==> s.drop_first()[k] == s[k + 1]
                    && s.drop_first()[l] == s[l + 1]);
        }
        lemma_count_delivered(s.drop_first(), path);
        if s[0] == path {
            assert(!s.drop_first().contains(path)) by {
                if s.drop_first().contains(path) {
                    let k = choose|k: int|
                        0 <= k < s.drop_first().len() && s.drop_first()[k] == path;
                    assert(s[k + 1] == path);
                }
            }
        } else {
            assert(s.contains(path) == s.drop_first().contains(path)) by {
                if s.contains(path) {
                    let k = choose|k: int| 0 <= k < s.len() && s[k] == path;
                    assert(s.drop_first()[k - 1] == path);
                }
                if s.drop_first().contains(path) {
                    let k = choose|k: int|
                        0 <= k < s.drop_first().len() && s.drop_first()[k] == path;
                    assert(s[k + 1] == path);
                }
            }
        }
    }
}

/// What recording one raw event for `path` at time `now` does to the pending
/// notices: the path's notice is (re)stamped to `now` — coalescing the burst
/// so far into one notice — and every other path is untouched.
pub open spec fn records_step(
    pre: Seq<NoticeV>,
    post: Seq<NoticeV>,
    path: Seq<char>,
    now: u64,
) -> bool {
    &&& distinct_paths(post)
    &&& has_notice(post, path)
    &&& seen_of(post, path) == now
    &&& forall|q: Seq<char>|
        q != path ==> #[trigger] has_notice(post, q) == has_notice(pre, q) && (has_notice(pre, q)
            ==> seen_of(post, q) == seen_of(pre, q))
}

/// Debounced change watcher state: raw events are recorded as pending
/// notices, one per path; a flush delivers the paths whose quiet period has
/// passed.
pub struct Debouncer {
    /// Quiet period: a notice is delivered once this much time has passed
    /// since the last raw event for its path.
    pub quiet: u64,
    /// The pending notices, one per path.
    pub pending: Vec<PendingNotice>,
}

impl Debouncer {
    /// Well-formed: no path has two pending notices.
    pub open spec fn wf(&self) -> bool {
        distinct_paths(self.pending.deep_view())
    }

    /// A fresh debouncer with quiet period `quiet` and nothing pending.
    pub fn new(quiet: u64) -> (d: Debouncer)
        ensures
            d.wf(),
            d.quiet == quiet,
            d.pending.deep_view() == Seq::<NoticeV>::empty(),
    {
        let d = Debouncer { quiet, pending: Vec::new() };
        proof {
            assert(d.pending.deep_view() =~= Seq::<NoticeV>::empty());
        }
        d
    }

    /// Record one raw event for `path` at time `now`: a burst of raw events
    /// for one path keeps a single pending notice, stamped with the last
    /// event's time.
    pub fn record(&mut self, path: String, now: u64)
        requires
            old(self).wf(),
        ensures
            final(self).wf(),
            final(self).quiet == old(self).quiet,
            records_step(
                old(self).pending.deep_view(),
                final(self).pending.deep_view(),
                path@,
                now,
            ),
    {
        let ghost pv = self.pending.deep_view();
        let n = self.pending.len();
        let mut i: usize = 0;
        let mut found: Option<usize> = Option::None;
        while i < n
            invariant
                i <= n,
                n == self.pending.len(),
                pv == self.pending.deep_view(),
                pv.len() == n,
                match found {
                    Option::Some(k) => k < n && pv[k as int].path == path@,
                    Option::None => forall|j: int| 0 <= j < i ==> pv[j].path != path@,
                },
            decreases n - i,
        {
            if matches!(found, Option::None) {
                if str_eq(self.pending[i].path.as_str(), path.as_str()) {
                    found = Option::Some(i);
                }
            }
            i = i + 1;
        }
        let ghost pview = path@;
        match found {
            Option::Some(k) => {
                let ghost sv0 = self.pending@;
                self.pending.remove(k);
                let ghost rv = self.pending.deep_view();
                proof {
                    sv0.remove_ensures(k as int);
                    pv.remove_ensures(k as int);
                    assert(forall|j: int| 0 <= j < k ==> rv[j] == pv[j]);
                    assert(forall|j: int| k <= j < rv.len() ==> rv[j] == pv[j + 1]);
                    assert(rv =~= pv.remove(k as int));
                    assert(forall|j: int| 0 <= j < rv.len() ==> rv[j].path != pview);
                    assert(distinct_paths(rv));
                }
                self.pending.push(PendingNotice { path, last_seen: now });
                proof {
                    assert(self.pending.deep_view() =~= rv.push(
                        NoticeV { path: pview, last_seen: now },
                    ));
                    Self::lemma_append_notice(
                        pv,
                        rv,
                        self.pending.deep_view(),
                        pview,
                        now,
                        k as int,
                    );
                }
            },
            Option::None => {
                let ghost rv = self.pending.deep_view();
                proof {
                    assert(rv == pv);
                    assert(forall|j: int| 0 <= j < rv.len() ==> rv[j].path != pview);
                }
                self.pending.push(PendingNotice { path, last_seen: now });
                proof {
                    assert(self.pending.deep_view() =~= rv.push(
                        NoticeV { path: pview, last_seen: now },
                    ));
                    Self::lemma_append_notice(pv, rv, self.pending.deep_view(), pview, now, -1);
                }
            },
        }
    }

    /// Appending a notice for a path absent from `rv` — where `rv` is `pv`
    /// with that path's notices gone and nothing else changed — realizes one
    /// recording step from `pv`.
    proof fn lemma_append_notice(
        pv: Seq<NoticeV>,
        rv: Seq<NoticeV>,
        nv: Seq<NoticeV>,
        path: Seq<char>,
        now: u64,
        removed: int,
    )
        requires
            distinct_paths(pv),
            distinct_paths(rv),
            forall|j: int| 0 <= j < rv.len() ==> rv[j].path != path,
            nv == rv.push(NoticeV { path, last_seen: now }),
            removed < 0 ==> rv == pv,
            removed >= 0 ==> 0 <= removed < pv.len() && pv[removed].path == path && rv == pv.remove(
                removed,
            ),
        ensures
            distinct_paths(nv),
            records_step(pv, nv, path, now),
    {
        if removed >= 0 {
            pv.remove_ensures(removed);
        }
        assert(forall|j: int| 0 <= j < rv.len() ==> nv[j] == rv[j]);
        assert(nv.last() == (NoticeV { path, last_seen: now }));
        assert(distinct_paths(nv));
        lemma_seen_at(nv, nv.len() - 1);
        assert forall|q: Seq<char>| q != path implies #[trigger] has_notice(nv, q) == has_notice(
            pv,
            q,
        ) && (has_notice(pv, q) ==> seen_of(nv, q) == seen_of(pv, q)) by {
            if has_notice(pv, q) {
                let k = choose|k: int| 0 <= k < pv.len() && pv[k].path == q;
                assert(pv[k].path == q);
                let kr: int = if removed < 0 {
                    k
                } else if k < removed {
                    k
                } else {
                    k - 1
                };
                if removed >= 0 {
                    assert(k != removed);
                    if k > removed {
                        assert(rv[k - 1] == pv.remove(removed)[k - 1]);
                    }
                }
                assert(rv[kr] == pv[k]);
                assert(nv[kr] == pv[k]);
                lemma_seen_at(nv, kr);
                lemma_seen_at(pv, k);
            }
            if has_notice(nv, q) {
                let k = choose|k: int| 0 <= k < nv.len() && nv[k].path == q;
                assert(k < rv.len());
                let kp: int = if removed < 0 {
                    k
                } else if k < removed {
                    k
                } else {
                    k + 1
                };
                assert(pv[kp] == rv[k]);
                assert(pv[kp].path == q);
                assert(has_notice(pv, q));
            }
        }
        assert(records_step(pv, nv, path, now));
    }

    /// Deliver every pending notice whose quiet period has passed at `now`:
    /// each due path exactly once, the rest kept untouched.
    pub fn flush(&mut self, now: u64) -> (delivered: Vec<String>)
        requires
            old(self).wf(),
        ensures
            final(self).wf(),
            final(self).quiet == old(self).quiet,
            distinct_strings(delivered.deep_view()),
            forall|k: int|
                0 <= k < delivered.deep_view().len() ==> has_notice(
                    old(self).pending.deep_view(),
                    #[trigger] delivered.deep_view()[k],
                ) && seen_of(old(self).pending.deep_view(), delivered.deep_view()[k]) + old(
                    self,
                ).quiet <= now,
            forall|q: Seq<char>|
                #[trigger] has_notice(old(self).pending.deep_view(), q) && seen_of(
                    old(self).pending.deep_view(),
                    q,
                ) + old(self).quiet <= now ==> delivered.deep_view().contains(q),
            forall|q: Seq<char>|
                #[trigger] has_notice(final(self).pending.deep_view(), q) <==> (has_notice(
                    old(self).pending.deep_view(),
                    q,
                ) && seen_of(old(self).pending.deep_view(), q) + old(self).quiet > now),
            forall|q: Seq<char>|
                #[trigger] has_notice(final(self).pending.deep_view(), q) ==> seen_of(
                    final(self).pending.deep_view(),
                    q,
                ) == seen_of(old(self).pending.deep_view(), q),
    {
        let ghost pv = self.pending.deep_view();
        let mut keep: Vec<PendingNotice> = Vec::new();
        let mut delivered: Vec<String> = Vec::new();
        let n = self.pending.len();
        let mut i: usize = 0;
        while i < n
            invariant
                i <= n,
                n == self.pending.len(),
                pv == self.pending.deep_view(),
                pv.len() == n,
                self.quiet == old(self).quiet,
                distinct_paths(pv),
                distinct_strings(delivered.deep_view()),
                distinct_paths(keep.deep_view()),
                forall|k: int|
                    0 <= k < delivered.deep_view().len() ==> has_notice(
                        pv.take(i as int),
                        #[trigger] delivered.deep_view()[k],
                    ) && seen_of(pv.take(i as int), delivered.deep_view()[k]) + self.quiet <= now,
                forall|q: Seq<char>|
                    #[trigger] has_notice(pv.take(i as int), q) && seen_of(pv.take(i as int), q)
                        + self.quiet <= now ==> delivered.deep_view().contains(q),
                forall|k: int|
                    0 <= k < keep.deep_view().len() ==> has_notice(
                        pv.take(i as int),
                        (#[trigger] keep.deep_view()[k]).path,
                    ) && seen_of(pv.take(i as int), keep.deep_view()[k].path)
                        == keep.deep_view()[k].last_seen && keep.deep_view()[k].last_seen
                        + self.quiet > now,
                forall|q: Seq<char>|
                    #[trigger] has_notice(pv.take(i as int), q) && seen_of(pv.take(i as int), q)
                        + self.quiet > now ==> has_notice(keep.deep_view(), q),
            decreases n - i,
        {
            let ghost pre = pv.take(i as int);
            let ghost post = pv.take(i as int + 1);
            proof {
                assert(post.drop_last() =~= pre);
                assert(post =~= pre.push(pv[i as int]));
                assert(forall|j: int| 0 <= j < pre.len() ==> pre[j] == pv[j]);
                assert(forall|j: int|
                    0 <= j < pre.len() ==> #[trigger] pre[j].path != pv[i as int].path);
                assert(distinct_paths(pre));
                assert(!has_notice(pre, pv[i as int].path)) by {
                    if has_notice(pre, pv[i as int].path) {
                        let j = choose|j: int| 0 <= j < pre.len() && pre[j].path == pv[i as int].path;
                    }
                }
                Self::lemma_append_notice(pre, pre, post, pv[i as int].path, pv[i as int].last_seen, -1);
            }
            let notice = &self.pending[i];
            let due = notice.last_seen <= now && now - notice.last_seen >= self.quiet;
            proof {
                assert(notice@ == pv[i as int]);
                assert(due == (pv[i as int].last_seen + self.quiet <= now));
            }
            if due {
                let ghost dv = delivered.deep_view();
                proof {
                    assert(!dv.contains(pv[i as int].path)) by {
                        if dv.contains(pv[i as int].path) {
                            let k = choose|k: int|
                                0 <= k < dv.len() && dv[k] == pv[i as int].path;
                            assert(has_notice(pre, dv[k]));
                            let j = choose|j: int| 0 <= j < pre.len() && pre[j].path == dv[k];
                            assert(pv[j].path == pv[i as int].path);
                        }
                    }
                }
                delivered.push(notice.path.clone());
                proof {
                    assert(delivered.deep_view() =~= dv.push(pv[i as int].path));
                    assert(forall|k: int| 0 <= k < dv.len() ==> delivered.deep_view()[k] == dv[k]);
                    assert(delivered.deep_view().last() == pv[i as int].path);
                    assert(distinct_strings(delivered.deep_view()));
                    assert forall|q: Seq<char>|
                        #[trigger] has_notice(post, q) && seq_due(post, q, self.quiet, now) implies
                        delivered.deep_view().contains(q) by {
                        if q == pv[i as int].path {
                            assert(delivered.deep_view()[dv.len() as int] == q);
                        } else {
                            assert(dv.contains(q));
                            let k = choose|k: int| 0 <= k < dv.len() && dv[k] == q;
                            assert(delivered.deep_view()[k] == q);
                        }
                    }
                    assert forall|k: int|
                        0 <= k < delivered.deep_view().len() implies has_notice(
                        post,
                        #[trigger] delivered.deep_view()[k],
                    ) by {
                        if k < dv.len() {
                            assert(delivered.deep_view()[k] == dv[k]);
                            assert(has_notice(pre, dv[k]));
                            assert(dv[k] != pv[i as int].path);
                        } else {
                            assert(delivered.deep_view()[k] == pv[i as int].path);
                        }
                    }
                    assert forall|k: int|
                        0 <= k < delivered.deep_view().len() implies seen_of(
                        post,
                        #[trigger] delivered.deep_view()[k],
                    ) + self.quiet <= now by {
                        if k < dv.len() {
                            assert(delivered.deep_view()[k] == dv[k]);
                            assert(has_notice(pre, dv[k]));
                            assert(dv[k] != pv[i as int].path);
                        } else {
                            assert(delivered.deep_view()[k] == pv[i as int].path);
                        }
                    }
                    assert forall|k: int|
                        0 <= k < keep.deep_view().len() implies has_notice(
                        post,
                        (#[trigger] keep.deep_view()[k]).path,
                    ) && seen_of(post, keep.deep_view()[k].path) == keep.deep_view()[k].last_seen
                        && keep.deep_view()[k].last_seen + self.quiet > now by {
                        assert(has_notice(pre, keep.deep_view()[k].path));
                        assert(keep.deep_view()[k].path != pv[i as int].path);
                    }
                    assert forall|q: Seq<char>|
                        #[trigger] has_notice(post, q) && seen_of(post, q) + self.quiet
                        > now implies has_notice(keep.deep_view(), q) by {
                        if q == pv[i as int].path {
                            assert(seen_of(post, q) == pv[i as int].last_seen);
                        } else {
                            assert(has_notice(pre, q) && seen_of(pre, q) == seen_of(post, q));
                        }
                    }
                }
            } else {
                let ghost kv = keep.deep_view();
                keep.push(notice.duplicate());
                proof {
                    assert(keep.deep_view() =~= kv.push(pv[i as int]));
                    assert(forall|j: int| 0 <= j < kv.len() ==> keep.deep_view()[j] == kv[j]);
                    assert(keep.deep_view().last() == pv[i as int]);
                    assert(forall|j: int|
                        0 <= j < kv.len() ==> has_notice(pre, (#[trigger] kv[j]).path));
                    assert forall|j: int| 0 <= j < kv.len() implies (#[trigger] kv[j]).path != pv[
                        i as int
                    ].path by {
                        let l = choose|l: int| 0 <= l < pre.len() && pre[l].path == kv[j].path;
                    }
                    assert(distinct_paths(keep.deep_view()));
                    assert forall|q: Seq<char>|
                        #[trigger] has_notice(post, q) && !seq_due(post, q, self.quiet, now) implies
                        has_notice(keep.deep_view(), q) by {
                        if q == pv[i as int].path {
                            assert(keep.deep_view()[kv.len() as int].path == q);
                        } else {
                            assert(has_notice(pre, q) && seen_of(pre, q) == seen_of(post, q));
                            assert(has_notice(kv, q));
                            let k = choose|k: int| 0 <= k < kv.len() && kv[k].path == q;
                            assert(keep.deep_view()[k].path == q);
                        }
                    }
                    assert forall|k: int|
                        0 <= k < keep.deep_view().len() implies has_notice(
                        post,
                        (#[trigger] keep.deep_view()[k]).path,
                    ) && seen_of(post, keep.deep_view()[k].path) == keep.deep_view()[k].last_seen
                        && keep.deep_view()[k].last_seen + self.quiet > now by {
                        if k < kv.len() {
                            assert(keep.deep_view()[k] == kv[k]);
                            assert(has_notice(pre, kv[k].path));
                            assert(kv[k].path != pv[i as int].path);
                        } else {
                            assert(keep.deep_view()[k] == pv[i as int]);
                        }
                    }
                    assert forall|k: int|
                        0 <= k < delivered.deep_view().len() implies has_notice(
                        post,
                        #[trigger] delivered.deep_view()[k],
                    ) by {
                        assert(has_notice(pre, delivered.deep_view()[k]));
                        assert(delivered.deep_view()[k] != pv[i as int].path);
                    }
                    assert forall|k: int|
                        0 <= k < delivered.deep_view().len() implies seen_of(
                        post,
                        #[trigger] delivered.deep_view()[k],
                    ) + self.quiet <= now by {
                        assert(has_notice(pre, delivered.deep_view()[k]));
                        assert(delivered.deep_view()[k] != pv[i as int].path);
                    }
                    assert forall|q: Seq<char>|
                        #[trigger] has_notice(post, q) && seen_of(post, q) + self.quiet
                        <= now implies delivered.deep_view().contains(q) by {
                        if q == pv[i as int].path {
                            assert(seen_of(post, q) == pv[i as int].last_seen);
                        } else {
                            assert(has_notice(pre, q) && seen_of(pre, q) == seen_of(post, q));
                        }
                    }
                }
            }
            i = i + 1;
        }
        proof {
            assert(pv.take(n as int) =~= pv);
        }
        self.pending = keep;
        proof {
            assert forall|q: Seq<char>|
                #[trigger] has_notice(self.pending.deep_view(), q) implies (has_notice(pv, q)
                && seen_of(pv, q) + self.quiet > now) && seen_of(self.pending.deep_view(), q)
                == seen_of(pv, q) by {
                let kv = self.pending.deep_view();
                let k = choose|k: int| 0 <= k < kv.len() && kv[k].path == q;
                lemma_seen_at(kv, k);
            }
        }
        delivered
    }
}

/// Whether the notice `seen_of` reads for `path` is due; meaningful only
/// under `has_notice`.
pub open spec fn seq_due(s: Seq<NoticeV>, path: Seq<char>, quiet: u64, now: u64) -> bool {
    seen_of(s, path) + quiet <= now
}

/// Debounce coalescing: a burst of raw events for one path — however many,
/// at whatever times — leaves exactly one pending notice for that path,
/// stamped with the last event's time; one flush after the quiet period
/// therefore delivers exactly one notification for it.
pub proof fn lemma_burst_coalesces(states: Seq<Seq<NoticeV>>, path: Seq<char>, times: Seq<u64>)
    requires
        times.len() >= 1,
        states.len() == times.len() + 1,
        forall|k: int|
            0 <= k < times.len() ==> records_step(
                #[trigger] states[k],
                states[k + 1],
                path,
                times[k],
            ),
    ensures
        has_notice(states.last(), path),
        seen_of(states.last(), path) == times.last(),
        count_notices(states.last(), path) == 1,
{
    let n = times.len() as int;
    assert(records_step(states[n - 1], states[n], path, times[n - 1]));
    assert(states[n] == states.last());
    lemma_count_notices(states.last(), path);
}

} // verus!
