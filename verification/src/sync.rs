//! The decision logic of the folder/FTP synchroniser: which file version is
//! the newest, which files disappeared since the previous scan, and what each
//! location must do to catch up. Directory walks, FTP traffic and file copies
//! are performed by the caller, which reports what it saw.

use vstd::prelude::*;
use crate::registry::Registry;

verus! {

/// A modification time, in nanoseconds relative to the Unix epoch
/// (negative before it).
pub type Timestamp = i128;

/// Where the newest version of a file lives.
#[derive(Debug, Clone, Copy, PartialEq, Eq, Structural)]
pub enum Source {
    /// The local folder with this position in the caller's folder list.
    Folder(usize),
    /// The FTP location with this position in the caller's FTP list.
    Ftp(usize),
}

/// What is known of one relative path across all locations.
#[derive(Debug, Clone, Copy, PartialEq, Eq, Structural)]
pub struct FileInfo {
    /// The location that holds the newest version.
    pub source: Source,
    /// The modification time of that version.
    pub modified: Timestamp,
    /// The file disappeared from a location and is to be deleted everywhere.
    pub delete: bool,
}

impl FileInfo {
    /// Whether the newest version lives on an FTP server.
    pub open spec fn spec_is_ftp(self) -> bool {
        self.source is Ftp
    }

    /// Whether the newest version lives on an FTP server.
    pub fn is_ftp(&self) -> (r: bool)
        ensures
            r == self.spec_is_ftp(),
    {
        match self.source {
            Source::Ftp(_) => true,
            Source::Folder(_) => false,
        }
    }
}

/// The tracker entry after a location reports `rel` with time `modified`:
/// a new path is recorded; a known one takes the new version only when it is
/// strictly newer and the path is not marked for deletion.
pub open spec fn observed(
    m: Map<Seq<char>, FileInfo>,
    rel: Seq<char>,
    modified: Timestamp,
    source: Source,
) -> Map<Seq<char>, FileInfo> {
    let fresh = FileInfo { source, modified, delete: false };
    if m.contains_key(rel) {
        if m[rel].modified < modified && !m[rel].delete {
            m.insert(rel, fresh)
        } else {
            m
        }
    } else {
        m.insert(rel, fresh)
    }
}

/// The tracker after `rel` is found missing from the location `source` at
/// time `now`: a known path is marked for deletion; an unknown one is recorded
/// as such.
pub open spec fn marked_deleted(
    m: Map<Seq<char>, FileInfo>,
    rel: Seq<char>,
    source: Source,
    now: Timestamp,
) -> Map<Seq<char>, FileInfo> {
    if m.contains_key(rel) {
        m.insert(rel, FileInfo { delete: true, ..m[rel] })
    } else {
        m.insert(rel, FileInfo { source, modified: now, delete: true })
    }
}

/// Observing a version never forgets a path and touches only `rel`; for a
/// path not marked deleted, the tracker keeps the newest modification time
/// seen; a path marked deleted stays as it is.
pub proof fn lemma_observe_keeps_newest(m: Map<Seq<char>, FileInfo>, rel: Seq<char>, modified: Timestamp, source: Source)
    ensures
        ({
            let r = observed(m, rel, modified, source);
            &&& r.dom() == m.dom().insert(rel)
            &&& forall|k: Seq<char>| k != rel && #[trigger] m.contains_key(k) ==> r[k] == m[k]
            &&& !m.contains_key(rel) ==> r[rel] == FileInfo { source, modified, delete: false }
            &&& m.contains_key(rel) && !m[rel].delete ==> !r[rel].delete && r[rel].modified == if m[rel].modified < modified {
                modified
            } else {
                m[rel].modified
            }
            &&& m.contains_key(rel) && m[rel].delete ==> r[rel] == m[rel]
        }),
{
    assert(observed(m, rel, modified, source).dom() =~= m.dom().insert(rel));
}

/// Reporting the same version of a file again changes nothing, whichever
/// location reports it.
pub proof fn lemma_observe_idempotent(
    m: Map<Seq<char>, FileInfo>,
    rel: Seq<char>,
    modified: Timestamp,
    source: Source,
    other: Source,
)
    ensures
        observed(observed(m, rel, modified, source), rel, modified, other) == observed(m, rel, modified, source),
{
}

/// Marking a path deleted touches only that path and leaves it marked.
pub proof fn lemma_mark_deleted_marks(m: Map<Seq<char>, FileInfo>, rel: Seq<char>, source: Source, now: Timestamp)
    ensures
        ({
            let r = marked_deleted(m, rel, source, now);
            &&& r.dom() == m.dom().insert(rel)
            &&& r[rel].delete
            &&& forall|k: Seq<char>| k != rel && #[trigger] m.contains_key(k) ==> r[k] == m[k]
        }),
{
    assert(marked_deleted(m, rel, source, now).dom() =~= m.dom().insert(rel));
}

/// Relative path -> what is known of it.
pub struct FileTracker {
    files: Registry<FileInfo>,
}

impl View for FileTracker {
    type V = Map<Seq<char>, FileInfo>;

    closed spec fn view(&self) -> Map<Seq<char>, FileInfo> {
        self.files@
    }
}

impl FileTracker {
    /// The tracker is well formed.
    pub closed spec fn wf(&self) -> bool {
        self.files.wf()
    }

    /// A well-formed tracker holds finitely many paths.
    pub proof fn lemma_finite(&self)
        requires
            self.wf(),
        ensures
            self@.dom().finite(),
    {
        self.files.lemma_keys();
    }

    /// An empty tracker.
    pub fn new() -> (r: FileTracker)
        ensures
            r.wf(),
            r@ == Map::<Seq<char>, FileInfo>::empty(),
            r@.dom().finite(),
    {
        FileTracker { files: Registry::new() }
    }

    /// The tracked paths, in the order `entry` lists them.
    pub closed spec fn paths(&self) -> Seq<Seq<char>> {
        self.files.keys()
    }

    /// Each tracked path is listed exactly once.
    pub proof fn lemma_paths(&self)
        requires
            self.wf(),
        ensures
            self.paths().len() == self@.len(),
            self.paths().no_duplicates(),
            self.paths().to_set() == self@.dom(),
    {
        self.files.lemma_keys();
    }

    /// The number of tracked paths.
    pub fn len(&self) -> (r: usize)
        requires
            self.wf(),
        ensures
            r == self@.len(),
            r == self.paths().len(),
    {
        proof {
            self.files.lemma_keys();
        }
        self.files.len()
    }

    /// The `i`-th tracked path and what is known of it.
    pub fn entry(&self, i: usize) -> (r: (&String, FileInfo))
        requires
            self.wf(),
            i < self@.len(),
        ensures
            r.0@ == self.paths()[i as int],
            self@.contains_key(r.0@),
            self@[r.0@] == r.1,
    {
        proof {
            self.files.lemma_keys();
        }
        let (k, v) = self.files.at(i);
        (k, *v)
    }

    /// What is known of `rel`, if anything.
    pub fn get(&self, rel: &String) -> (r: Option<FileInfo>)
        requires
            self.wf(),
        ensures
            r == (if self@.contains_key(rel@) { Some(self@[rel@]) } else { None::<FileInfo> }),
    {
        match self.files.find(rel) {
            Some(i) => Some(*self.files.at(i).1),
            None => None,
        }
    }

    /// Records that the location `source` holds `rel`, last modified at `modified`.
    pub fn observe(&mut self, rel: String, modified: Timestamp, source: Source)
        requires
            old(self).wf(),
        ensures
            final(self).wf(),
            final(self)@ == observed(old(self)@, rel@, modified, source),

            final(self)@.dom().finite(),
    {
        proof {
            self.lemma_finite();
        }
        let fresh = FileInfo { source, modified, delete: false };
        match self.files.find(&rel) {
            Some(i) => {
                let current = *self.files.at(i).1;
                if current.modified < modified && !current.delete {
                    self.files.replace_at(i, Ghost(rel@), fresh);
                }
            },
            None => {
                self.files.add(rel, fresh);
            },
        }
    }

    /// Records that `rel` disappeared from the location `source`, noticed at `now`.
    pub fn mark_deleted(&mut self, rel: String, source: Source, now: Timestamp)
        requires
            old(self).wf(),
        ensures
            final(self).wf(),
            final(self)@ == marked_deleted(old(self)@, rel@, source, now),

            final(self)@.dom().finite(),
    {
        proof {
            self.lemma_finite();
        }
        match self.files.find(&rel) {
            Some(i) => {
                let current = *self.files.at(i).1;
                self.files.replace_at(i, Ghost(rel@), FileInfo { delete: true, ..current });
            },
            None => {
                self.files.add(rel, FileInfo { source, modified: now, delete: true });
            },
        }
    }
}


/// The texts of a list of strings.
pub open spec fn texts(v: Seq<String>) -> Seq<Seq<char>> {
    v.map_values(|s: String| s@)
}

/// The test that keeps every name but `e`.
pub open spec fn other_than(e: Seq<char>) -> spec_fn(Seq<char>) -> bool {
    |x: Seq<char>| x != e
}

/// The names seen at one location by the previous scan and by the current one.
pub struct Watcher {
    pub previous: Vec<String>,
    pub current: Vec<String>,
}

/// A watcher's lists, as texts.
pub ghost struct WatchState {
    pub previous: Seq<Seq<char>>,
    pub current: Seq<Seq<char>>,
}

impl View for Watcher {
    type V = WatchState;

    open spec fn view(&self) -> WatchState {
        WatchState { previous: texts(self.previous@), current: texts(self.current@) }
    }
}

/// `i` is the first position of `w.previous` whose name is not in `w.current`.
pub open spec fn is_first_vanished(w: WatchState, i: int) -> bool {
    &&& 0 <= i < w.previous.len()
    &&& !w.current.contains(w.previous[i])
    &&& forall|k: int| 0 <= k < i ==> w.current.contains(#[trigger] w.previous[k])
}

/// The first name of the previous scan that the current scan did not see.
pub open spec fn first_vanished(w: WatchState) -> Option<Seq<char>> {
    if exists|i: int| 0 <= i < w.previous.len() && !w.current.contains(#[trigger] w.previous[i]) {
        Some(w.previous[choose|i: int| is_first_vanished(w, i)])
    } else {
        None
    }
}

/// `w` with the name `e` dropped from its current list.
pub open spec fn forget_current(w: WatchState, e: Seq<char>) -> WatchState {
    WatchState { previous: w.previous, current: w.current.filter(other_than(e)) }
}

/// The watchers once the scan of `key` is over: the first vanished name of
/// `key`, if any, is dropped from the current list of every location; then the
/// current list of `key` becomes its previous list.
pub open spec fn finished(h: Map<Seq<char>, WatchState>, key: Seq<char>) -> Map<Seq<char>, WatchState> {
    if !h.contains_key(key) {
        h
    } else {
        let h2 = match first_vanished(h[key]) {
            None => h,
            Some(e) => h.map_values(|w: WatchState| forget_current(w, e)),
        };
        h2.insert(key, WatchState { previous: h2[key].current, current: h2[key].current })
    }
}

/// Once a scan of a known location is finished, its previous list equals its
/// current list, and it holds only names that the scan reported (no name is
/// added by finishing).
pub proof fn lemma_finished_rolls_over(h: Map<Seq<char>, WatchState>, key: Seq<char>)
    requires
        h.contains_key(key),
    ensures
        finished(h, key).contains_key(key),
        finished(h, key)[key].previous == finished(h, key)[key].current,
        forall|i: int|
            0 <= i < finished(h, key)[key].current.len() ==> h[key].current.contains(
                #[trigger] finished(h, key)[key].current[i],
            ),
{
    match first_vanished(h[key]) {
        None => {},
        Some(e) => {
            let cur = h[key].current;
            let kept = cur.filter(other_than(e));
            assert forall|i: int| 0 <= i < kept.len() implies cur.contains(#[trigger] kept[i]) by {
                assert(kept.contains(kept[i]));
                cur.lemma_filter_contains_rev(other_than(e), kept[i]);
            }
        },
    }
}

/// A scan that reports every name of the previous scan finds nothing vanished.
pub proof fn lemma_rescan_finds_nothing_vanished(h: Map<Seq<char>, WatchState>, key: Seq<char>, names: Seq<Seq<char>>)
    requires
        h.contains_key(key),
        forall|i: int| 0 <= i < h[key].previous.len() ==> names.contains(#[trigger] h[key].previous[i]),
    ensures
        first_vanished(scanned(h, key, names)[key]) is None,
{
}

/// A copy of a list of strings.
fn clone_strings(v: &Vec<String>) -> (r: Vec<String>)
    ensures
        r@ == v@,
{
    let mut r: Vec<String> = Vec::new();
    let mut i: usize = 0;
    while i < v.len()
        invariant
            i <= v@.len(),
            r@ == v@.take(i as int),
        decreases v@.len() - i,
    {
        r.push(v[i].clone());
        assert(v@.take(i + 1) == v@.take(i as int).push(v@[i as int]));
        i = i + 1;
    }
    assert(v@.take(v@.len() as int) == v@);
    r
}

/// `v` without the strings equal to `e`.
fn without(v: &Vec<String>, e: &String) -> (r: Vec<String>)
    ensures
        texts(r@) == texts(v@).filter(other_than(e@)),
{
    let ghost keep = other_than(e@);
    let mut r: Vec<String> = Vec::new();
    let mut i: usize = 0;
    assert(texts(v@).take(0).filter(keep) =~= Seq::<Seq<char>>::empty()) by {
        reveal(Seq::filter);
    }
    assert(texts(r@) =~= Seq::<Seq<char>>::empty());
    while i < v.len()
        invariant
            i <= v@.len(),
            keep == other_than(e@),
            texts(r@) == texts(v@).take(i as int).filter(keep),
        decreases v@.len() - i,
    {
        let ghost t = texts(v@).take(i + 1);
        let ghost r0 = r@;
        assert(t.drop_last() =~= texts(v@).take(i as int));
        assert(t.last() == v@[i as int]@);
        if v[i] != *e {
            assert(t.filter(keep) == t.drop_last().filter(keep).push(t.last())) by {
                reveal(Seq::filter);
                assert(keep(t.last()));
            }
            r.push(v[i].clone());
            assert(texts(r@) =~= texts(r0).push(v@[i as int]@));
        } else {
            assert(t.filter(keep) == t.drop_last().filter(keep)) by {
                reveal(Seq::filter);
                assert(!keep(t.last()));
            }
        }
        i = i + 1;
    }
    assert(texts(v@).take(v@.len() as int) =~= texts(v@));
    r
}

/// Whether `s` occurs in `v`.
fn contains_string(v: &Vec<String>, s: &String) -> (r: bool)
    ensures
        r == texts(v@).contains(s@),
{
    let mut i: usize = 0;
    while i < v.len()
        invariant
            i <= v@.len(),
            forall|k: int| 0 <= k < i ==> v@[k]@ != s@,
        decreases v@.len() - i,
    {
        if v[i] == *s {
            assert(texts(v@)[i as int] == s@);
            return true;
        }
        i = i + 1;
    }
    assert(!texts(v@).contains(s@)) by {
        if texts(v@).contains(s@) {
            let k = choose|k: int| 0 <= k < texts(v@).len() && texts(v@)[k] == s@;
            assert(v@[k]@ == s@);
        }
    }
    false
}

/// The first name of the previous scan that the current scan did not see.
fn find_first_vanished(w: &Watcher) -> (r: Option<String>)
    ensures
        match r {
            Some(e) => first_vanished(w@) == Some(e@),
            None => first_vanished(w@) is None,
        },
{
    let ghost ws = w@;
    let mut i: usize = 0;
    while i < w.previous.len()
        invariant
            ws == w@,
            i <= w.previous@.len(),
            forall|k: int| 0 <= k < i ==> ws.current.contains(#[trigger] ws.previous[k]),
        decreases w.previous@.len() - i,
    {
        if !contains_string(&w.current, &w.previous[i]) {
            proof {
                assert(ws.previous[i as int] == w.previous@[i as int]@);
                assert(is_first_vanished(ws, i as int));
                let j = choose|j: int| is_first_vanished(ws, j);
                if j < i {
                    assert(ws.current.contains(ws.previous[j]));
                }
                if i < j {
                    assert(ws.current.contains(ws.previous[i as int]));
                }
            }
            return Some(w.previous[i].clone());
        }
        assert(ws.previous[i as int] == w.previous@[i as int]@);
        i = i + 1;
    }
    None
}

/// Location key -> its watcher.
pub struct FileHistory {
    watchers: Registry<Watcher>,
}

impl View for FileHistory {
    type V = Map<Seq<char>, WatchState>;

    closed spec fn view(&self) -> Map<Seq<char>, WatchState> {
        self.watchers@.map_values(|w: Watcher| w@)
    }
}

impl FileHistory {
    /// The history is well formed.
    pub closed spec fn wf(&self) -> bool {
        self.watchers.wf()
    }

    /// A well-formed history knows finitely many locations.
    pub proof fn lemma_finite(&self)
        requires
            self.wf(),
        ensures
            self@.dom().finite(),
    {
        self.watchers.lemma_keys();
        assert(self@.dom() =~= self.watchers@.dom());
    }

    /// No location seen yet.
    pub fn new() -> (r: FileHistory)
        ensures
            r.wf(),
            r@ == Map::<Seq<char>, WatchState>::empty(),
            r@.dom().finite(),
    {
        let r = FileHistory { watchers: Registry::new() };
        assert(r@ =~= Map::<Seq<char>, WatchState>::empty());
        r
    }

    /// The watcher of `key`, if the location was seen.
    pub fn get(&self, key: &String) -> (r: Option<&Watcher>)
        requires
            self.wf(),
        ensures
            match r {
                Some(w) => self@.contains_key(key@) && self@[key@] == w@,
                None => !self@.contains_key(key@),
            },
    {
        match self.watchers.find(key) {
            Some(i) => Some(self.watchers.at(i).1),
            None => None,
        }
    }

    /// Starts a scan of `key`: its current list is emptied (a new location
    /// starts with both lists empty).
    pub fn begin_scan(&mut self, key: &String)
        requires
            old(self).wf(),
        ensures
            final(self).wf(),
            old(self)@.contains_key(key@) ==> final(self)@ == old(self)@.insert(
                key@,
                WatchState { previous: old(self)@[key@].previous, current: Seq::empty() },
            ),
            !old(self)@.contains_key(key@) ==> final(self)@ == old(self)@.insert(
                key@,
                WatchState { previous: Seq::empty(), current: Seq::empty() },
            ),
            final(self)@.dom().finite(),
    {
        proof {
            self.lemma_finite();
        }
        let fresh = Watcher { previous: Vec::new(), current: Vec::new() };
        match self.watchers.find(key) {
            Some(i) => {
                let w = self.watchers.swap_at(i, Ghost(key@), fresh);
                let ghost p = w@.previous;
                let next = Watcher { previous: w.previous, current: Vec::new() };
                assert(texts(next.current@) =~= Seq::<Seq<char>>::empty());
                self.watchers.replace_at(i, Ghost(key@), next);
                assert(self@ =~= old(self)@.insert(key@, WatchState { previous: p, current: Seq::empty() }));
            },
            None => {
                assert(fresh@ == WatchState { previous: Seq::empty(), current: Seq::empty() }) by {
                    assert(texts(fresh.previous@) =~= Seq::<Seq<char>>::empty());
                    assert(texts(fresh.current@) =~= Seq::<Seq<char>>::empty());
                }
                self.watchers.add(key.clone(), fresh);
                assert(self@ =~= old(self)@.insert(key@, WatchState { previous: Seq::empty(), current: Seq::empty() }));
            },
        }
    }

    /// Records that the scan of `key` saw `name` (nothing happens for a
    /// location whose scan was never started).
    pub fn record(&mut self, key: &String, name: String)
        requires
            old(self).wf(),
        ensures
            final(self).wf(),
            old(self)@.contains_key(key@) ==> final(self)@ == old(self)@.insert(
                key@,
                WatchState { previous: old(self)@[key@].previous, current: old(self)@[key@].current.push(name@) },
            ),
            !old(self)@.contains_key(key@) ==> final(self)@ == old(self)@,
            final(self)@.dom().finite(),
    {
        proof {
            self.lemma_finite();
        }
        match self.watchers.find(key) {
            Some(i) => {
                let placeholder = Watcher { previous: Vec::new(), current: Vec::new() };
                let w = self.watchers.swap_at(i, Ghost(key@), placeholder);
                let ghost before = w@;
                let mut current = w.current;
                let ghost c0 = current@;
                current.push(name);
                assert(texts(current@) =~= texts(c0).push(name@));
                let next = Watcher { previous: w.previous, current };
                self.watchers.replace_at(i, Ghost(key@), next);
                assert(self@ =~= old(self)@.insert(
                    key@,
                    WatchState { previous: before.previous, current: before.current.push(name@) },
                ));
            },
            None => {},
        }
    }

    /// Drops the name `e` from the current list of every location.
    fn forget_everywhere(&mut self, e: &String)
        requires
            old(self).wf(),
        ensures
            final(self).wf(),
            final(self)@ == old(self)@.map_values(|w: WatchState| forget_current(w, e@)),
    {
        let ghost h0 = old(self).watchers@;
        proof {
            self.watchers.lemma_keys();
        }
        let n = self.watchers.len();
        let mut i: usize = 0;
        while i < n
            invariant
                self.wf(),
                old(self).wf(),
                i <= n,
                n == self.watchers@.len(),
                n == old(self).watchers@.len(),
                self.watchers@.dom() == h0.dom(),
                forall|j: int| 0 <= j < n ==> #[trigger] self.watchers.key_at(j) == old(self).watchers.key_at(j),
                forall|j: int| 0 <= j < n ==> h0.contains_key(#[trigger] old(self).watchers.key_at(j)),
                forall|j: int|
                    #![trigger old(self).watchers.key_at(j)]
                    0 <= j < n ==> self.watchers@[old(self).watchers.key_at(j)]@ == if j < i {
                        forget_current(h0[old(self).watchers.key_at(j)]@, e@)
                    } else {
                        h0[old(self).watchers.key_at(j)]@
                    },
            decreases n - i,
        {
            let ghost key = self.watchers.key_at(i as int);
            let placeholder = Watcher { previous: Vec::new(), current: Vec::new() };
            let w = self.watchers.swap_at(i, Ghost(key), placeholder);
            let current = without(&w.current, e);
            let next = Watcher { previous: w.previous, current };
            self.watchers.replace_at(i, Ghost(key), next);
            proof {
                assert forall|j: int|
                    #![trigger old(self).watchers.key_at(j)]
                    0 <= j < n implies self.watchers@[old(self).watchers.key_at(j)]@ == if j < i + 1 {
                        forget_current(h0[old(self).watchers.key_at(j)]@, e@)
                    } else {
                        h0[old(self).watchers.key_at(j)]@
                    } by {
                    if j != i {
                        old(self).watchers.lemma_key_at_distinct(i as int, j);
                    }
                }
                assert(self.watchers@.dom() =~= h0.dom());
            }
            i = i + 1;
        }
        proof {
            old(self).watchers.lemma_keys();
            assert(self@ =~= old(self)@.map_values(|w: WatchState| forget_current(w, e@))) by {
                assert forall|k: Seq<char>| #[trigger] self@.contains_key(k) implies self@[k] == forget_current(old(self)@[k], e@) by {
                    let j = old(self).watchers.lemma_key_position(k);
                }
            }
        }
    }

    /// Ends the scan of `key`. The first name of its previous scan that this
    /// scan did not see, if any, is marked deleted in `tracker` (as vanished
    /// from `source`, at `now`) and dropped from the current list of every
    /// location; then the current list of `key` becomes its previous list.
    pub fn finish_scan(&mut self, key: &String, source: Source, tracker: &mut FileTracker, now: Timestamp)
        requires
            old(self).wf(),
            old(tracker).wf(),
        ensures
            final(self).wf(),
            final(tracker).wf(),
            final(self)@ == finished(old(self)@, key@),
            final(tracker)@ == (if old(self)@.contains_key(key@) && first_vanished(old(self)@[key@]) is Some {
                marked_deleted(old(tracker)@, first_vanished(old(self)@[key@])->0, source, now)
            } else {
                old(tracker)@
            }),
            final(self)@.dom().finite(),
            final(tracker)@.dom().finite(),
    {
        proof {
            self.lemma_finite();
            tracker.lemma_finite();
        }
        let i = match self.watchers.find(key) {
            None => return,
            Some(i) => i,
        };
        let ghost h = old(self)@;
        let vanished = find_first_vanished(self.watchers.at(i).1);
        match vanished {
            Some(e) => {
                tracker.mark_deleted(e.clone(), source, now);
                self.forget_everywhere(&e);
            },
            None => {},
        }
        let ghost h2 = self@;
        assert(h2 == match first_vanished(h[key@]) {
            None => h,
            Some(e) => h.map_values(|w: WatchState| forget_current(w, e)),
        });
        assert(h2.contains_key(key@));
        let j = match self.watchers.find(key) {
            None => {
                assert(false);
                return;
            },
            Some(j) => j,
        };
        let placeholder = Watcher { previous: Vec::new(), current: Vec::new() };
        let w = self.watchers.swap_at(j, Ghost(key@), placeholder);
        let previous = clone_strings(&w.current);
        let next = Watcher { previous, current: w.current };
        self.watchers.replace_at(j, Ghost(key@), next);
        assert(self@ =~= h2.insert(key@, WatchState { previous: h2[key@].current, current: h2[key@].current }));
        proof {
            self.lemma_finite();
        }
    }
}


/// One file reported by a scan: its relative path, and its modification time
/// when the location could tell it.
pub type Listed = (String, Option<Timestamp>);

/// A scan report, as texts.
pub open spec fn listing_view(l: Seq<Listed>) -> Seq<(Seq<char>, Option<Timestamp>)> {
    l.map_values(|e: Listed| (e.0@, e.1))
}

/// The tracker after every timed entry of a scan of `source` is observed, in order.
pub open spec fn observed_all(
    m: Map<Seq<char>, FileInfo>,
    listing: Seq<(Seq<char>, Option<Timestamp>)>,
    source: Source,
) -> Map<Seq<char>, FileInfo>
    decreases listing.len(),
{
    if listing.len() == 0 {
        m
    } else {
        let before = observed_all(m, listing.drop_last(), source);
        match listing.last().1 {
            Some(t) => observed(before, listing.last().0, t, source),
            None => before,
        }
    }
}

/// The watchers once a scan of `key` has reported `names`: its current list
/// holds exactly those names, its previous list is kept (empty for a new location).
pub open spec fn scanned(h: Map<Seq<char>, WatchState>, key: Seq<char>, names: Seq<Seq<char>>) -> Map<Seq<char>, WatchState> {
    let previous = if h.contains_key(key) { h[key].previous } else { Seq::empty() };
    h.insert(key, WatchState { previous, current: names })
}

/// The tracker once a scan ends: the first name that vanished from `key`
/// since its previous scan, if any, is marked deleted.
pub open spec fn vanished_applied(
    t: Map<Seq<char>, FileInfo>,
    h: Map<Seq<char>, WatchState>,
    key: Seq<char>,
    source: Source,
    now: Timestamp,
) -> Map<Seq<char>, FileInfo> {
    match first_vanished(h[key]) {
        Some(e) => marked_deleted(t, e, source, now),
        None => t,
    }
}

/// Takes in a complete scan of the location `key` (whose files live at
/// `source`), reported at time `now`: every reported path is remembered as
/// seen there, every timed one is observed by the tracker, and then the scan
/// is finished (see `FileHistory::finish_scan`).
pub fn collect_listing(
    tracker: &mut FileTracker,
    history: &mut FileHistory,
    key: &String,
    source: Source,
    listing: &Vec<Listed>,
    now: Timestamp,
)
    requires
        old(tracker).wf(),
        old(history).wf(),
    ensures
        final(tracker).wf(),
        final(history).wf(),
        final(tracker)@.dom().finite(),
        final(history)@.dom().finite(),
        ({
            let names = listing_view(listing@).map_values(|e: (Seq<char>, Option<Timestamp>)| e.0);
            let h1 = scanned(old(history)@, key@, names);
            &&& final(history)@ == finished(h1, key@)
            &&& final(tracker)@ == vanished_applied(
                observed_all(old(tracker)@, listing_view(listing@), source),
                h1,
                key@,
                source,
                now,
            )
        }),
{
    let ghost lv = listing_view(listing@);
    let ghost names = lv.map_values(|e: (Seq<char>, Option<Timestamp>)| e.0);
    let ghost t0 = tracker@;
    let ghost h0 = history@;
    let ghost previous = if h0.contains_key(key@) { h0[key@].previous } else { Seq::<Seq<char>>::empty() };
    history.begin_scan(key);
    let mut i: usize = 0;
    assert(lv.take(0) =~= Seq::<(Seq<char>, Option<Timestamp>)>::empty());
    assert(names.take(0) =~= Seq::<Seq<char>>::empty());
    while i < listing.len()
        invariant
            tracker.wf(),
            history.wf(),
            i <= listing@.len(),
            lv == listing_view(listing@),
            names == lv.map_values(|e: (Seq<char>, Option<Timestamp>)| e.0),
            tracker@ == observed_all(t0, lv.take(i as int), source),
            history@ == h0.insert(key@, WatchState { previous, current: names.take(i as int) }),
        decreases listing@.len() - i,
    {
        let name = listing[i].0.clone();
        let stamp = listing[i].1;
        assert(lv.take(i + 1).drop_last() =~= lv.take(i as int));
        assert(lv.take(i + 1).last() == (name@, stamp));
        match stamp {
            Some(t) => {
                tracker.observe(listing[i].0.clone(), t, source);
            },
            None => {},
        }
        history.record(key, name);
        assert(names.take(i + 1) =~= names.take(i as int).push(listing@[i as int].0@));
        assert(history@ =~= h0.insert(key@, WatchState { previous, current: names.take(i + 1) }));
        i = i + 1;
    }
    assert(lv.take(listing@.len() as int) =~= lv);
    assert(names.take(listing@.len() as int) =~= names);
    let ghost h1 = history@;
    assert(h1 == scanned(h0, key@, names));
    history.finish_scan(key, source, tracker, now);
}

/// The last modification time in a scan report, if any entry has one.
pub open spec fn last_time(listing: Seq<(Seq<char>, Option<Timestamp>)>) -> Option<Timestamp>
    decreases listing.len(),
{
    if listing.len() == 0 {
        None
    } else {
        match listing.last().1 {
            Some(t) => Some(t),
            None => last_time(listing.drop_last()),
        }
    }
}

/// The modification time of the last timed entry of a scan report, which the
/// FTP location keeps as its own.
pub fn last_listed_time(listing: &Vec<Listed>) -> (r: Option<Timestamp>)
    ensures
        r == last_time(listing_view(listing@)),
{
    let ghost lv = listing_view(listing@);
    let mut r: Option<Timestamp> = None;
    let mut i: usize = 0;
    while i < listing.len()
        invariant
            i <= listing@.len(),
            lv == listing_view(listing@),
            r == last_time(lv.take(i as int)),
        decreases listing@.len() - i,
    {
        assert(lv.take(i + 1).drop_last() =~= lv.take(i as int));
        if let Some(t) = listing[i].1 {
            r = Some(t);
        }
        i = i + 1;
    }
    assert(lv.take(listing@.len() as int) =~= lv);
    r
}


/// Whether there are enough locations to synchronise: at least two in all.
pub fn can_synchronise(folders: usize, ftps: usize) -> (r: bool)
    ensures
        r == (folders + ftps >= 2),
{
    folders >= 2 || ftps >= 2 || (folders >= 1 && ftps >= 1)
}

/// What a local folder must do about one tracked path.
#[derive(Debug, Clone, Copy, PartialEq, Eq, Structural)]
pub enum FolderAction {
    /// Delete its copy, if it has one.
    Delete,
    /// Copy the file from the folder with this position.
    CopyFromFolder(usize),
    /// Download the file from the FTP location with this position.
    DownloadFromFtp(usize),
    /// Nothing to do.
    Keep,
}

/// A location whose copy is at least as new as the newest version, of a
/// path not marked deleted, is left alone; a path marked deleted is deleted
/// everywhere; a location without a copy always receives one.
pub proof fn lemma_actions_converge(info: FileInfo, t: Timestamp)
    ensures
        !info.delete && info.modified <= t ==> spec_folder_action(info, Some(t)) == FolderAction::Keep
            && spec_ftp_action(info, Some(t)) == FtpAction::Keep,
        info.delete ==> spec_folder_action(info, Some(t)) == FolderAction::Delete && spec_ftp_action(info, Some(t))
            == FtpAction::Delete,
        !info.delete ==> spec_folder_action(info, None) != FolderAction::Keep && spec_ftp_action(info, None)
            != FtpAction::Keep,
{
}

/// A location whose copy is missing or older than the newest version of a
/// path not marked deleted receives that version from the location holding
/// it: a folder copies from a folder source and downloads from an FTP
/// source; an FTP location takes an upload from a folder source and a
/// transfer from an FTP source. Such a location is never left alone.
pub proof fn lemma_stale_copies_are_refreshed(info: FileInfo, own: Option<Timestamp>)
    requires
        !info.delete,
        own is None || own->0 < info.modified,
    ensures
        forall|i: usize| info.source == Source::Folder(i) ==> spec_folder_action(info, own) == FolderAction::CopyFromFolder(i)
            && spec_ftp_action(info, own) == FtpAction::UploadFromFolder(i),
        forall|j: usize| info.source == Source::Ftp(j) ==> spec_folder_action(info, own) == FolderAction::DownloadFromFtp(j)
            && spec_ftp_action(info, own) == FtpAction::CopyFromFtp(j),
        spec_folder_action(info, own) != FolderAction::Keep,
        spec_ftp_action(info, own) != FtpAction::Keep,
{
}

/// What an FTP location must do about one tracked path.
#[derive(Debug, Clone, Copy, PartialEq, Eq, Structural)]
pub enum FtpAction {
    /// Delete its copy.
    Delete,
    /// Upload the file from the folder with this position.
    UploadFromFolder(usize),
    /// Transfer the file from the FTP location with this position.
    CopyFromFtp(usize),
    /// Nothing to do.
    Keep,
}

/// The folder's action: delete a file marked deleted; otherwise fetch the
/// newest version when the folder has no copy or an older one.
pub open spec fn spec_folder_action(info: FileInfo, dest_modified: Option<Timestamp>) -> FolderAction {
    if info.delete {
        FolderAction::Delete
    } else if dest_modified is None || dest_modified->0 < info.modified {
        match info.source {
            Source::Folder(i) => FolderAction::CopyFromFolder(i),
            Source::Ftp(j) => FolderAction::DownloadFromFtp(j),
        }
    } else {
        FolderAction::Keep
    }
}

/// What a folder must do about a tracked path, given the modification time
/// of its own copy (`None` when it has none).
pub fn folder_action(info: FileInfo, dest_modified: Option<Timestamp>) -> (r: FolderAction)
    ensures
        r == spec_folder_action(info, dest_modified),
{
    if info.delete {
        return FolderAction::Delete;
    }
    let stale = match dest_modified {
        None => true,
        Some(t) => t < info.modified,
    };
    if stale {
        match info.source {
            Source::Folder(i) => FolderAction::CopyFromFolder(i),
            Source::Ftp(j) => FolderAction::DownloadFromFtp(j),
        }
    } else {
        FolderAction::Keep
    }
}

/// The FTP location's action: delete a file marked deleted; otherwise send it
/// the newest version when it has no copy or an older one.
pub open spec fn spec_ftp_action(info: FileInfo, remote_modified: Option<Timestamp>) -> FtpAction {
    if info.delete {
        FtpAction::Delete
    } else if remote_modified is None || remote_modified->0 < info.modified {
        match info.source {
            Source::Folder(i) => FtpAction::UploadFromFolder(i),
            Source::Ftp(j) => FtpAction::CopyFromFtp(j),
        }
    } else {
        FtpAction::Keep
    }
}

/// What an FTP location must do about a tracked path, given the modification
/// time of its own copy (`None` when it was not found there).
pub fn ftp_action(info: FileInfo, remote_modified: Option<Timestamp>) -> (r: FtpAction)
    ensures
        r == spec_ftp_action(info, remote_modified),
{
    if info.delete {
        return FtpAction::Delete;
    }
    let stale = match remote_modified {
        None => true,
        Some(t) => t < info.modified,
    };
    if stale {
        match info.source {
            Source::Folder(i) => FtpAction::UploadFromFolder(i),
            Source::Ftp(j) => FtpAction::CopyFromFtp(j),
        }
    } else {
        FtpAction::Keep
    }
}

} // verus!
