//! The decisions of a vault's index writer: what a running rebuild or sync does with
//! commands that arrive meanwhile, how it walks its work in batches, what it reports,
//! and the cache of indexed notes that it keeps in step with every write.
use vstd::prelude::*;
use vstd::string::StringExecFns;
use crate::model::{IndexNoteMeta, IndexProgressEvent};
use crate::sync::IndexResult;
use crate::text::has_at;

verus! {

/// The kinds of command a vault's writer receives.
#[derive(Debug, Clone, Copy, PartialEq, Eq)]
pub enum CommandKind {
    UpsertNote,
    RemoveNote,
    RemoveNotes,
    RemoveNotesByPrefix,
    RenamePaths,
    RenamePath,
    Rebuild,
    Sync,
    Shutdown,
}

/// Whether a command changes the index right away.
pub open spec fn is_mutation(k: CommandKind) -> bool {
    !(k == CommandKind::Rebuild || k == CommandKind::Sync || k == CommandKind::Shutdown)
}

/// What a running rebuild or sync does with a command found in the queue.
#[derive(Debug, Clone, Copy, PartialEq, Eq)]
pub enum YieldAction {
    /// Keep it for after the run.
    Defer,
    /// Raise the run's cancel flag and apply the command now; when
    /// `queue_follow_up_sync` holds, also keep a fresh sync for after the run.
    DispatchNow { queue_follow_up_sync: bool },
}

/// What a run remembers between yields.
#[derive(Debug, Clone, Copy, PartialEq, Eq)]
pub struct YieldState {
    pub follow_up_queued: bool,
}

/// A fresh run has queued no follow-up sync yet.
pub fn new_yield_state() -> (r: YieldState)
    ensures
        !r.follow_up_queued,
{
    YieldState { follow_up_queued: false }
}

/// Rebuilds, syncs and shutdowns wait until the run is over; a mutation cancels the
/// run, is applied at once, and the first one queues a single follow-up sync, so the
/// index comes back in line with the disk however often the run is interrupted.
pub fn on_yield_command(state: &mut YieldState, kind: CommandKind) -> (r: YieldAction)
    ensures
        !is_mutation(kind) ==> r == YieldAction::Defer && *final(state) == *old(state),
        is_mutation(kind) ==> r == (YieldAction::DispatchNow {
            queue_follow_up_sync: !old(state).follow_up_queued,
        }) && final(state).follow_up_queued,
{
    match kind {
        CommandKind::Rebuild | CommandKind::Sync | CommandKind::Shutdown => YieldAction::Defer,
        _ => {
            let first = !state.follow_up_queued;
            state.follow_up_queued = true;
            YieldAction::DispatchNow { queue_follow_up_sync: first }
        },
    }
}

/// How many follow-up syncs a run queues while it sees `kinds`, from `queued`.
pub open spec fn follow_ups(kinds: Seq<CommandKind>, queued: bool) -> nat
    decreases kinds.len(),
{
    if kinds.len() == 0 {
        0
    } else if is_mutation(kinds[0]) && !queued {
        1 + follow_ups(kinds.drop_first(), true)
    } else {
        follow_ups(kinds.drop_first(), queued || is_mutation(kinds[0]))
    }
}

/// A run that sees any mutation queues exactly one follow-up sync; one that sees
/// none queues none.
pub proof fn lemma_exactly_one_follow_up(kinds: Seq<CommandKind>)
    ensures
        follow_ups(kinds, false) == (if exists|i: int| 0 <= i < kinds.len() && is_mutation(#[trigger] kinds[i]) {
            1nat
        } else {
            0nat
        }),
    decreases kinds.len(),
{
    if kinds.len() > 0 {
        lemma_follow_ups_after(kinds.drop_first());
        lemma_exactly_one_follow_up(kinds.drop_first());
        if !is_mutation(kinds[0]) {
            if exists|i: int| 0 <= i < kinds.len() && is_mutation(#[trigger] kinds[i]) {
                let i = choose|i: int| 0 <= i < kinds.len() && is_mutation(#[trigger] kinds[i]);
                assert(kinds.drop_first()[i - 1] == kinds[i]);
            }
            if exists|i: int| 0 <= i < kinds.drop_first().len() && is_mutation(#[trigger] kinds.drop_first()[i]) {
                let i = choose|i: int| 0 <= i < kinds.drop_first().len() && is_mutation(#[trigger] kinds.drop_first()[i]);
                assert(kinds[i + 1] == kinds.drop_first()[i]);
            }
        } else {
            assert(is_mutation(kinds[0]));
        }
    }
}

/// Once a follow-up is queued, no other is.
proof fn lemma_follow_ups_after(kinds: Seq<CommandKind>)
    ensures
        follow_ups(kinds, true) == 0,
    decreases kinds.len(),
{
    if kinds.len() > 0 {
        lemma_follow_ups_after(kinds.drop_first());
    }
}

/// Whether the first progress report of a run has gone out.
#[derive(Debug, Clone, Copy, PartialEq, Eq)]
pub struct ProgressState {
    pub started: bool,
}

/// A run that has reported nothing yet.
pub fn new_progress_state() -> (r: ProgressState)
    ensures
        !r.started,
{
    ProgressState { started: false }
}

/// The event for a progress point: the first one of a run announces its total,
/// later ones report how far it got.
pub fn progress_event(state: &mut ProgressState, vault_id: &str, indexed: usize, total: usize) -> (r:
    IndexProgressEvent)
    ensures
        final(state).started,
        !old(state).started ==> (r matches IndexProgressEvent::Started { vault_id: v, total: t } && v@
            == vault_id@ && t == total),
        old(state).started ==> (r matches IndexProgressEvent::Progress { vault_id: v, indexed: n, total: t }
            && v@ == vault_id@ && n == indexed && t == total),
{
    if !state.started {
        state.started = true;
        IndexProgressEvent::Started { vault_id: String::from_str(vault_id), total }
    } else {
        IndexProgressEvent::Progress { vault_id: String::from_str(vault_id), indexed, total }
    }
}

/// The event that ends a run: how many notes were indexed, or the error.
pub fn completion_event(vault_id: &str, result: Result<IndexResult, String>, elapsed_ms: u64) -> (r:
    IndexProgressEvent)
    ensures
        result matches Ok(res) ==> (r matches IndexProgressEvent::Completed {
            vault_id: v,
            indexed: n,
            elapsed_ms: e,
        } && v@ == vault_id@ && n == res.indexed && e == elapsed_ms),
        result matches Err(err) ==> (r matches IndexProgressEvent::Failed { vault_id: v, error: x } && v@
            == vault_id@ && x@ == err@),
{
    match result {
        Ok(res) => IndexProgressEvent::Completed {
            vault_id: String::from_str(vault_id),
            indexed: res.indexed,
            elapsed_ms,
        },
        Err(error) => IndexProgressEvent::Failed { vault_id: String::from_str(vault_id), error },
    }
}

/// The number of notes in one batch of a rebuild or sync.
pub const BATCH_SIZE: usize = 100;

/// A rebuild or sync working through `total` notes in batches.
#[derive(Debug, Clone, Copy, PartialEq, Eq)]
pub struct IndexRun {
    pub total: usize,
    pub next: usize,
    pub cancelled: bool,
}

impl IndexRun {
    /// The run has not gone past its total.
    pub open spec fn wf(self) -> bool {
        self.next <= self.total
    }

    /// A run over `total` notes, at its start.
    pub fn new(total: usize) -> (r: IndexRun)
        ensures
            r.wf(),
            r.total == total,
            r.next == 0,
            !r.cancelled,
    {
        IndexRun { total, next: 0, cancelled: false }
    }

    /// The next batch `[start, end)` of at most `BATCH_SIZE` notes, checked at the
    /// batch boundary against the cancel flag: `None` once cancelled or done.
    pub fn next_batch(&mut self, cancel_requested: bool) -> (r: Option<(usize, usize)>)
        requires
            old(self).wf(),
        ensures
            final(self).wf(),
            final(self).total == old(self).total,
            final(self).cancelled == (old(self).cancelled || cancel_requested),
            match r {
                Some((start, end)) => {
                    &&& !final(self).cancelled
                    &&& start == old(self).next
                    &&& start < end <= old(self).total
                    &&& end - start == if old(self).total - start < BATCH_SIZE {
                        old(self).total - start
                    } else {
                        BATCH_SIZE as int
                    }
                    &&& final(self).next == end
                },
                None => (final(self).cancelled || old(self).next == old(self).total) && final(self).next
                    == old(self).next,
            },
    {
        if cancel_requested {
            self.cancelled = true;
        }
        if self.cancelled || self.next == self.total {
            return None;
        }
        let start = self.next;
        let end = if self.total - start < BATCH_SIZE {
            self.total
        } else {
            start + BATCH_SIZE
        };
        self.next = end;
        Some((start, end))
    }

    /// What the run reports: how many notes it covered out of the total. A run
    /// that was not cancelled and has no batch left covered them all.
    pub fn result(&self) -> (r: IndexResult)
        requires
            self.wf(),
        ensures
            r.total == self.total,
            r.indexed == self.next,
            r.indexed <= r.total,
    {
        IndexResult { total: self.total, indexed: self.next }
    }
}

/// Where the note at `p` stands in the cache.
pub open spec fn cache_find(s: Seq<IndexNoteMeta>, p: Seq<char>) -> Option<int>
    decreases s.len(),
{
    if s.len() == 0 {
        None
    } else if s.last().path@ == p {
        Some(s.len() - 1)
    } else {
        cache_find(s.drop_last(), p)
    }
}

/// The cache after indexing `m`: its entry is replaced, or added at the end.
pub open spec fn cache_upsert(s: Seq<IndexNoteMeta>, m: IndexNoteMeta) -> Seq<IndexNoteMeta> {
    match cache_find(s, m.path@) {
        Some(i) => s.update(i, m),
        None => s.push(m),
    }
}

/// The cache without the notes for which `drop` holds.
pub open spec fn cache_filter(s: Seq<IndexNoteMeta>, drop: spec_fn(Seq<char>) -> bool) -> Seq<IndexNoteMeta>
    decreases s.len(),
{
    if s.len() == 0 {
        s
    } else if drop(s.last().path@) {
        cache_filter(s.drop_last(), drop)
    } else {
        cache_filter(s.drop_last(), drop).push(s.last())
    }
}

/// No two cached notes share a path.
pub open spec fn cache_wf(s: Seq<IndexNoteMeta>) -> bool {
    forall|i: int, j: int|
        0 <= i < s.len() && 0 <= j < s.len() && (#[trigger] s[i]).path@ == (#[trigger] s[j]).path@
            ==> i == j
}

proof fn lemma_upsert_wf(s: Seq<IndexNoteMeta>, m: IndexNoteMeta)
    requires
        cache_wf(s),
    ensures
        cache_wf(cache_upsert(s, m)),
{
    lemma_cache_find(s, m.path@);
    let t = cache_upsert(s, m);
    match cache_find(s, m.path@) {
        Some(k) => {
            assert forall|i: int, j: int|
                0 <= i < t.len() && 0 <= j < t.len() && (#[trigger] t[i]).path@ == (#[trigger] t[j]).path@
                    implies i == j by {
                if i != k && j != k {
                    assert(s[i].path@ == s[j].path@);
                } else if i == k && j != k {
                    assert(s[j].path@ == s[k].path@);
                } else if j == k && i != k {
                    assert(s[i].path@ == s[k].path@);
                }
            }
        },
        None => {
            assert forall|i: int, j: int|
                0 <= i < t.len() && 0 <= j < t.len() && (#[trigger] t[i]).path@ == (#[trigger] t[j]).path@
                    implies i == j by {
                if i < s.len() && j < s.len() {
                    assert(s[i].path@ == s[j].path@);
                } else if i < s.len() {
                    assert(s[i].path@ == m.path@);
                } else if j < s.len() {
                    assert(s[j].path@ == m.path@);
                }
            }
        },
    }
}

proof fn lemma_filter_wf(s: Seq<IndexNoteMeta>, drop: spec_fn(Seq<char>) -> bool)
    requires
        cache_wf(s),
    ensures
        cache_wf(cache_filter(s, drop)),
        forall|x: IndexNoteMeta| #[trigger] cache_filter(s, drop).contains(x) ==> s.contains(x),
    decreases s.len(),
{
    if s.len() > 0 {
        let init = s.drop_last();
        assert forall|i: int, j: int|
            0 <= i < init.len() && 0 <= j < init.len() && (#[trigger] init[i]).path@ == (#[trigger] init[j]).path@
                implies i == j by {
            assert(s[i] == init[i] && s[j] == init[j]);
        }
        lemma_filter_wf(init, drop);
        let f = cache_filter(init, drop);
        assert forall|x: IndexNoteMeta| #[trigger] cache_filter(s, drop).contains(x) implies s.contains(x) by {
            let k = choose|k: int| 0 <= k < cache_filter(s, drop).len() && cache_filter(s, drop)[k] == x;
            if k < f.len() {
                assert(f[k] == x);
                assert(f.contains(x));
                let n = choose|n: int| 0 <= n < init.len() && init[n] == x;
                assert(s[n] == x);
            } else {
                assert(s[s.len() - 1] == x);
            }
        }
        if !drop(s.last().path@) {
            let t = f.push(s.last());
            assert forall|i: int, j: int|
                0 <= i < t.len() && 0 <= j < t.len() && (#[trigger] t[i]).path@ == (#[trigger] t[j]).path@
                    implies i == j by {
                if i < f.len() && j == f.len() {
                    assert(f.contains(f[i]));
                    let n = choose|n: int| 0 <= n < init.len() && init[n] == f[i];
                    assert(s[n].path@ == s[s.len() - 1].path@);
                } else if j < f.len() && i == f.len() {
                    assert(f.contains(f[j]));
                    let n = choose|n: int| 0 <= n < init.len() && init[n] == f[j];
                    assert(s[n].path@ == s[s.len() - 1].path@);
                }
            }
        }
    }
}

/// The notes the writer has indexed, by path, kept in step with every write. The
/// entries sit in a vector whose paths are kept unique (`wf`), since vstd gives no
/// contracts to a map keyed by `String`.
#[derive(Debug, Clone, PartialEq, Eq)]
pub struct NotesCache {
    pub entries: Vec<IndexNoteMeta>,
}

proof fn lemma_cache_find(s: Seq<IndexNoteMeta>, p: Seq<char>)
    ensures
        cache_find(s, p) matches Some(i) ==> 0 <= i < s.len() && s[i].path@ == p,
        cache_find(s, p) is None ==> forall|j: int| 0 <= j < s.len() ==> (#[trigger] s[j]).path@ != p,
    decreases s.len(),
{
    if s.len() > 0 {
        lemma_cache_find(s.drop_last(), p);
        assert forall|j: int| 0 <= j < s.len() - 1 implies s.drop_last()[j] == s[j] by {}
    }
}

/// Indexing the same note twice leaves the cache as indexing it once.
pub proof fn lemma_cache_upsert_idempotent(s: Seq<IndexNoteMeta>, m: IndexNoteMeta)
    ensures
        cache_upsert(cache_upsert(s, m), m) == cache_upsert(s, m),
{
    lemma_cache_find(s, m.path@);
    let t = cache_upsert(s, m);
    lemma_cache_find(t, m.path@);
    match cache_find(s, m.path@) {
        Some(i) => {
            lemma_find_unique_after_update(s, i, m);
            assert(t.update(i, m) =~= t);
        },
        None => {
            lemma_find_last(s, m);
            assert(t.update(t.len() - 1, m) =~= t);
        },
    }
}

proof fn lemma_find_last(s: Seq<IndexNoteMeta>, m: IndexNoteMeta)
    ensures
        cache_find(s.push(m), m.path@) == Some(s.len() as int),
{
    assert(s.push(m).last() == m);
}

proof fn lemma_find_unique_after_update(s: Seq<IndexNoteMeta>, i: int, m: IndexNoteMeta)
    requires
        cache_find(s, m.path@) == Some(i),
    ensures
        cache_find(s.update(i, m), m.path@) == Some(i),
    decreases s.len(),
{
    if s.last().path@ == m.path@ {
        assert(s.update(i, m).last() == m);
    } else {
        lemma_cache_find(s, m.path@);
        lemma_find_unique_after_update(s.drop_last(), i, m);
        assert(s.update(i, m).drop_last() =~= s.drop_last().update(i, m));
    }
}


fn copy_meta(m: &IndexNoteMeta) -> (r: IndexNoteMeta)
    ensures
        r == *m,
{
    IndexNoteMeta {
        id: m.id.clone(),
        path: m.path.clone(),
        title: m.title.clone(),
        name: m.name.clone(),
        mtime_ms: m.mtime_ms,
        size_bytes: m.size_bytes,
    }
}

impl NotesCache {
    /// No two cached notes share a path.
    pub open spec fn wf(&self) -> bool {
        cache_wf(self.entries@)
    }

    /// An empty cache.
    pub fn new() -> (r: NotesCache)
        ensures
            r.entries@.len() == 0,
            r.wf(),
    {
        NotesCache { entries: Vec::new() }
    }

    fn find(&self, path: &String) -> (r: Option<usize>)
        ensures
            match r {
                Some(i) => cache_find(self.entries@, path@) == Some(i as int),
                None => cache_find(self.entries@, path@) is None,
            },
    {
        let mut n: usize = self.entries.len();
        assert(self.entries@.take(n as int) =~= self.entries@);
        while n > 0
            invariant
                n <= self.entries@.len(),
                cache_find(self.entries@, path@) == cache_find(self.entries@.take(n as int), path@),
            decreases n,
        {
            assert(self.entries@.take(n as int).drop_last() =~= self.entries@.take(n - 1));
            assert(self.entries@.take(n as int).last() == self.entries@[n - 1]);
            if self.entries[n - 1].path == *path {
                return Some(n - 1);
            }
            n -= 1;
        }
        None
    }

    /// The cached note at `path`.
    pub fn get(&self, path: &String) -> (r: Option<&IndexNoteMeta>)
        ensures
            match cache_find(self.entries@, path@) {
                Some(i) => r == Some(&self.entries@[i]),
                None => r is None,
            },
    {
        proof {
            lemma_cache_find(self.entries@, path@);
        }
        match self.find(path) {
            Some(i) => Some(&self.entries[i]),
            None => None,
        }
    }

    /// Records `meta` after it was indexed.
    pub fn upsert(&mut self, meta: IndexNoteMeta)
        ensures
            final(self).entries@ == cache_upsert(old(self).entries@, meta),
            old(self).wf() ==> final(self).wf(),
    {
        proof {
            lemma_cache_find(self.entries@, meta.path@);
            if self.wf() {
                lemma_upsert_wf(self.entries@, meta);
            }
        }
        match self.find(&meta.path) {
            Some(i) => {
                self.entries.set(i, meta);
            },
            None => {
                self.entries.push(meta);
            },
        }
    }

    /// Forgets the note at `path`.
    pub fn remove(&mut self, path: &String)
        ensures
            final(self).entries@ == cache_filter(old(self).entries@, |p: Seq<char>| p == path@),
            old(self).wf() ==> final(self).wf(),
    {
        proof {
            if self.wf() {
                lemma_filter_wf(self.entries@, |p: Seq<char>| p == path@);
            }
        }
        self.remove_where(path, false);
    }

    /// Forgets every note whose path starts with `prefix`.
    pub fn remove_prefix(&mut self, prefix: &String)
        ensures
            final(self).entries@ == cache_filter(old(self).entries@, |p: Seq<char>| has_at(p, 0, prefix@)),
            old(self).wf() ==> final(self).wf(),
    {
        proof {
            if self.wf() {
                lemma_filter_wf(self.entries@, |p: Seq<char>| has_at(p, 0, prefix@));
            }
        }
        self.remove_where(prefix, true);
    }

    fn remove_where(&mut self, key: &String, by_prefix: bool)
        ensures
            by_prefix ==> final(self).entries@ == cache_filter(
                old(self).entries@,
                |p: Seq<char>| has_at(p, 0, key@),
            ),
            !by_prefix ==> final(self).entries@ == cache_filter(
                old(self).entries@,
                |p: Seq<char>| p == key@,
            ),
    {
        let ghost drop = if by_prefix {
            |p: Seq<char>| has_at(p, 0, key@)
        } else {
            |p: Seq<char>| p == key@
        };
        let ghost start = self.entries@;
        let k = crate::text::chars_of(key.as_str());
        let mut kept: Vec<IndexNoteMeta> = Vec::new();
        let mut i: usize = 0;
        let n = self.entries.len();
        assert(start.take(0) =~= Seq::<IndexNoteMeta>::empty());
        while i < n
            invariant
                n == start.len(),
                i <= n,
                self.entries@ == start,
                k@ == key@,
                kept@ == cache_filter(start.take(i as int), drop),
                drop == (if by_prefix {
                    |p: Seq<char>| has_at(p, 0, key@)
                } else {
                    |p: Seq<char>| p == key@
                }),
            decreases n - i,
        {
            assert(start.take(i + 1).drop_last() =~= start.take(i as int));
            assert(start.take(i + 1).last() == start[i as int]);
            let p = crate::text::chars_of(self.entries[i].path.as_str());
            let hit = if by_prefix {
                crate::text::matches_at(&p, 0, &k)
            } else {
                crate::text::chars_eq(&p, &k)
            };
            assert(hit == drop(start[i as int].path@));
            if !hit {
                kept.push(copy_meta(&self.entries[i]));
            }
            i += 1;
        }
        assert(start.take(n as int) =~= start);
        self.entries = kept;
    }

    /// Moves the cached note at `old_path` to `new_path` (path and id), replacing
    /// any note already cached there; nothing happens when `old_path` is not cached.
    pub fn rename(&mut self, old_path: &String, new_path: &String)
        ensures
            match cache_find(old(self).entries@, old_path@) {
                Some(i) => final(self).entries@ == cache_upsert(
                    cache_filter(old(self).entries@, |p: Seq<char>| p == old_path@),
                    relocated(old(self).entries@[i], *new_path),
                ),
                None => final(self).entries@ == old(self).entries@,
            },
            old(self).wf() ==> final(self).wf(),
    {
        proof {
            lemma_cache_find(self.entries@, old_path@);
        }
        match self.find(old_path) {
            Some(i) => {
                let moved = relocate(&self.entries[i], new_path);
                self.remove(old_path);
                self.upsert(moved);
            },
            None => {},
        }
    }

    /// Moves every cached note under `old_prefix` to the same place under
    /// `new_prefix` (path and id), one after another in cache order.
    pub fn rename_prefix(&mut self, old_prefix: &String, new_prefix: &String)
        ensures
            cache_view(final(self).entries@) == cache_move_all(
                cache_view(cache_filter(old(self).entries@, |p: Seq<char>| has_at(p, 0, old_prefix@))),
                cache_view(moved_under(old(self).entries@, old_prefix@)),
                old_prefix@,
                new_prefix@,
            ),
            old(self).wf() ==> final(self).wf(),
    {
        let ghost start = self.entries@;
        let ghost was_wf = self.wf();
        let old_chars = crate::text::chars_of(old_prefix.as_str());
        let new_chars = crate::text::chars_of(new_prefix.as_str());
        let mut moving: Vec<IndexNoteMeta> = Vec::new();
        let mut i: usize = 0;
        assert(start.take(0) =~= Seq::<IndexNoteMeta>::empty());
        while i < self.entries.len()
            invariant
                i <= start.len(),
                self.entries@ == start,
                old_chars@ == old_prefix@,
                moving@ == moved_under(start.take(i as int), old_prefix@),
            decreases start.len() - i,
        {
            assert(start.take(i + 1).drop_last() =~= start.take(i as int));
            assert(start.take(i + 1).last() == start[i as int]);
            let p = crate::text::chars_of(self.entries[i].path.as_str());
            if crate::text::matches_at(&p, 0, &old_chars) {
                moving.push(copy_meta(&self.entries[i]));
            }
            i += 1;
        }
        assert(start.take(i as int) =~= start);
        self.remove_prefix(old_prefix);
        let ghost base = self.entries@;
        let mut j: usize = 0;
        assert(cache_view(moving@).take(0) =~= Seq::<MetaView>::empty());
        while j < moving.len()
            invariant
                j <= moving@.len(),
                old_chars@ == old_prefix@,
                new_chars@ == new_prefix@,
                moving@ == moved_under(start, old_prefix@),
                cache_view(self.entries@) == cache_move_all(
                    cache_view(base),
                    cache_view(moving@).take(j as int),
                    old_prefix@,
                    new_prefix@,
                ),
                was_wf ==> self.wf(),
            decreases moving@.len() - j,
        {
            let ghost mv = cache_view(moving@);
            assert(mv.take(j + 1).drop_last() =~= mv.take(j as int));
            assert(mv.take(j + 1).last() == meta_view(moving@[j as int]));
            proof {
                lemma_moved_has_prefix(start, old_prefix@, j as int);
            }
            let p = crate::text::chars_of(moving[j].path.as_str());
            let mut np = crate::text::slice_chars(&new_chars, 0, new_chars.len());
            crate::text::extend_chars(&mut np, &crate::text::slice_chars(&p, old_chars.len(), p.len()));
            assert(np@ =~= new_prefix@ + moving@[j as int].path@.skip(old_prefix@.len() as int));
            let np_s = crate::text::string_of(&np);
            let m = relocate(&moving[j], &np_s);
            let ghost before = self.entries@;
            self.upsert(m);
            proof {
                lemma_upsert_view(before, m);
            }
            j += 1;
        }
        assert(cache_view(moving@).take(j as int) =~= cache_view(moving@));
    }
}

/// A cached note as plain values: id, path, title, name, time, size.
pub type MetaView = (Seq<char>, Seq<char>, Seq<char>, Seq<char>, i64, i64);

/// The plain values of a cached note.
pub open spec fn meta_view(m: IndexNoteMeta) -> MetaView {
    (m.id@, m.path@, m.title@, m.name@, m.mtime_ms, m.size_bytes)
}

/// The plain values of the cached notes, in order.
pub open spec fn cache_view(s: Seq<IndexNoteMeta>) -> Seq<MetaView> {
    s.map_values(|m: IndexNoteMeta| meta_view(m))
}

/// Where the note at `p` stands, over plain values.
pub open spec fn view_find(s: Seq<MetaView>, p: Seq<char>) -> Option<int>
    decreases s.len(),
{
    if s.len() == 0 {
        None
    } else if s.last().1 == p {
        Some(s.len() - 1)
    } else {
        view_find(s.drop_last(), p)
    }
}

/// Indexing `m`, over plain values.
pub open spec fn view_upsert(s: Seq<MetaView>, m: MetaView) -> Seq<MetaView> {
    match view_find(s, m.1) {
        Some(i) => s.update(i, m),
        None => s.push(m),
    }
}

proof fn lemma_find_view(s: Seq<IndexNoteMeta>, p: Seq<char>)
    ensures
        view_find(cache_view(s), p) == cache_find(s, p),
    decreases s.len(),
{
    if s.len() > 0 {
        assert(cache_view(s).drop_last() =~= cache_view(s.drop_last()));
        lemma_find_view(s.drop_last(), p);
    }
}

proof fn lemma_upsert_view(s: Seq<IndexNoteMeta>, m: IndexNoteMeta)
    ensures
        cache_view(cache_upsert(s, m)) == view_upsert(cache_view(s), meta_view(m)),
{
    lemma_find_view(s, m.path@);
    lemma_cache_find(s, m.path@);
    assert(cache_view(cache_upsert(s, m)) =~= view_upsert(cache_view(s), meta_view(m)));
}

/// `m` moved to `path`: its path and id become `path`.
pub open spec fn relocated(m: IndexNoteMeta, path: String) -> IndexNoteMeta {
    IndexNoteMeta { id: path, path, ..m }
}

fn relocate(m: &IndexNoteMeta, path: &String) -> (r: IndexNoteMeta)
    ensures
        r == relocated(*m, *path),
{
    IndexNoteMeta {
        id: path.clone(),
        path: path.clone(),
        title: m.title.clone(),
        name: m.name.clone(),
        mtime_ms: m.mtime_ms,
        size_bytes: m.size_bytes,
    }
}

/// The cached notes under `prefix`, in cache order.
pub open spec fn moved_under(s: Seq<IndexNoteMeta>, prefix: Seq<char>) -> Seq<IndexNoteMeta>
    decreases s.len(),
{
    if s.len() == 0 {
        s
    } else if has_at(s.last().path@, 0, prefix) {
        moved_under(s.drop_last(), prefix).push(s.last())
    } else {
        moved_under(s.drop_last(), prefix)
    }
}

proof fn lemma_moved_has_prefix(s: Seq<IndexNoteMeta>, prefix: Seq<char>, j: int)
    requires
        0 <= j < moved_under(s, prefix).len(),
    ensures
        has_at(moved_under(s, prefix)[j].path@, 0, prefix),
    decreases s.len(),
{
    if s.len() > 0 {
        if has_at(s.last().path@, 0, prefix) {
            if j < moved_under(s.drop_last(), prefix).len() {
                lemma_moved_has_prefix(s.drop_last(), prefix, j);
            }
        } else {
            lemma_moved_has_prefix(s.drop_last(), prefix, j);
        }
    }
}

/// `base` after the notes `moving` are put, one after another, under `new_prefix`
/// in place of `old_prefix`, each with its id set to its new path.
pub open spec fn cache_move_all(
    base: Seq<MetaView>,
    moving: Seq<MetaView>,
    old_prefix: Seq<char>,
    new_prefix: Seq<char>,
) -> Seq<MetaView>
    decreases moving.len(),
{
    if moving.len() == 0 {
        base
    } else {
        let m = moving.last();
        let p = new_prefix + m.1.skip(old_prefix.len() as int);
        view_upsert(cache_move_all(base, moving.drop_last(), old_prefix, new_prefix), (p, p, m.2, m.3, m.4, m.5))
    }
}

} // verus!
