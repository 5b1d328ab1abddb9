//! Versioned content map: immutable snapshots of build output, keyed by path,
//! with a version token per path that only grows.

use vstd::prelude::*;
use crate::bytes::{bytes_eq, copy_bytes};

verus! {

/// All the snapshots ever written to one path, oldest first. The snapshot at
/// position `k` carries version token `k + 1`.
pub struct PathHistory {
    pub path: Vec<u8>,
    pub versions: Vec<Vec<u8>>,
}

impl PathHistory {
    /// The snapshots as a sequence of byte strings.
    pub open spec fn contents(&self) -> Seq<Seq<u8>> {
        Seq::new(self.versions@.len(), |k: int| self.versions@[k]@)
    }
}

/// What `get` hands out: the latest bytes of a path, its version token, and
/// whether a delta from the version the reader named can be computed.
pub struct Snapshot {
    pub bytes: Vec<u8>,
    pub version: u64,
    pub diff_eligible: bool,
}

/// Whether a delta from version `since` to version `latest` can be computed:
/// every snapshot is retained, so this asks that `since` is a token that was
/// handed out.
pub open spec fn diff_eligible(latest: nat, since: nat) -> bool {
    1 <= since <= latest
}

/// The snapshots of every path that was ever written, one entry for each path.
pub struct VersionedContentMap {
    pub entries: Vec<PathHistory>,
}

impl VersionedContentMap {
    /// No path occurs twice, and a path that is present has been written.
    pub open spec fn wf(&self) -> bool {
        &&& forall|i: int, j: int|
            0 <= i < j < self.entries@.len() ==> self.entries@[i].path@ != self.entries@[j].path@
        &&& forall|i: int| 0 <= i < self.entries@.len() ==> #[trigger] self.entries@[i].versions@.len() > 0
    }

    /// Whether `path` has ever been written.
    pub open spec fn has(&self, path: Seq<u8>) -> bool {
        exists|i: int| 0 <= i < self.entries@.len() && #[trigger] self.entries@[i].path@ == path
    }

    /// The snapshots written to `path`, oldest first; empty for a path never written.
    pub open spec fn history(&self, path: Seq<u8>) -> Seq<Seq<u8>> {
        if self.has(path) {
            let i = choose|i: int| 0 <= i < self.entries@.len() && #[trigger] self.entries@[i].path@ == path;
            self.entries@[i].contents()
        } else {
            Seq::empty()
        }
    }

    /// The version token of the latest snapshot of `path`; 0 for a path never written.
    pub open spec fn latest(&self, path: Seq<u8>) -> nat {
        self.history(path).len()
    }

    /// In a well-formed map the history of a path is that of the one entry that names it.
    pub proof fn lemma_history_at(&self, i: int)
        requires
            self.wf(),
            0 <= i < self.entries@.len(),
        ensures
            self.has(self.entries@[i].path@),
            self.history(self.entries@[i].path@) == self.entries@[i].contents(),
    {
        let path = self.entries@[i].path@;
        assert(self.entries@[i].path@ == path);
        let c = choose|c: int| 0 <= c < self.entries@.len() && #[trigger] self.entries@[c].path@ == path;
        assert(c == i);
    }

    /// Tokens of one path strictly increase from write to write, and a reader
    /// that names a token handed out earlier is, after any later write, given
    /// the latest bytes and told that a delta can be computed.
    pub proof fn lemma_later_write_is_diff_eligible(
        before: Self,
        written: Self,
        later: Self,
        path: Seq<u8>,
        first: Seq<u8>,
        second: Seq<u8>,
    )
        requires
            written.history(path) == before.history(path).push(first),
            later.history(path) == written.history(path).push(second),
        ensures
            before.latest(path) < written.latest(path) < later.latest(path),
            diff_eligible(later.latest(path), written.latest(path)),
            later.history(path).last() == second,
    {
    }

    /// A map in which no path has been written.
    pub fn new() -> (m: Self)
        ensures
            m.wf(),
            forall|p: Seq<u8>| m.history(p) == Seq::<Seq<u8>>::empty(),
    {
        VersionedContentMap { entries: Vec::new() }
    }

    /// The position of the entry for `path`, if it was ever written.
    fn find(&self, path: &[u8]) -> (r: Option<usize>)
        requires
            self.wf(),
        ensures
            match r {
                Some(i) => i < self.entries@.len() && self.entries@[i as int].path@ == path@,
                None => !self.has(path@),
            },
    {
        let mut i: usize = 0;
        while i < self.entries.len()
            invariant
                i <= self.entries@.len(),
                forall|k: int| 0 <= k < i ==> self.entries@[k].path@ != path@,
            decreases self.entries@.len() - i,
        {
            if bytes_eq(self.entries[i].path.as_slice(), path) {
                return Some(i);
            }
            i += 1;
        }
        None
    }

    /// Records `bytes` as the next snapshot of `path` and returns its version
    /// token: one more than the latest token of that path, 1 for the first
    /// write. No other path changes.
    pub fn put(&mut self, path: &[u8], bytes: &[u8]) -> (version: u64)
        requires
            old(self).wf(),
        ensures
            final(self).wf(),
            version == old(self).latest(path@) + 1,
            version == final(self).latest(path@),
            final(self).history(path@) == old(self).history(path@).push(bytes@),
            forall|q: Seq<u8>| q != path@ ==> final(self).history(q) == old(self).history(q),
    {
        let content = copy_bytes(bytes);
        let found = self.find(path);
        match found {
            Some(i) => {
                proof {
                    self.lemma_history_at(i as int);
                }
                let ghost before = *self;
                let mut entry = self.entries.remove(i);
                entry.versions.push(content);
                let version: u64 = entry.versions.len() as u64;
                self.entries.insert(i, entry);
                proof {
                    assert(self.entries@.len() == before.entries@.len());
                    assert forall|k: int| 0 <= k < self.entries@.len() implies #[trigger] self.entries@[k].path@
                        == before.entries@[k].path@ by {}
                    assert forall|k: int| 0 <= k < self.entries@.len() && k != i implies #[trigger] self.entries@[k]
                        == before.entries@[k] by {}
                    assert(self.wf());
                    self.lemma_history_at(i as int);
                    assert(self.entries@[i as int].contents() =~= before.entries@[i as int].contents().push(
                        bytes@,
                    ));
                    assert forall|q: Seq<u8>| q != path@ implies self.history(q) == before.history(q) by {
                        if before.has(q) {
                            let c = choose|c: int|
                                0 <= c < before.entries@.len() && #[trigger] before.entries@[c].path@ == q;
                            assert(self.entries@[c].path@ == q);
                            self.lemma_history_at(c);
                            before.lemma_history_at(c);
                        } else if self.has(q) {
                            let c = choose|c: int|
                                0 <= c < self.entries@.len() && #[trigger] self.entries@[c].path@ == q;
                            assert(before.entries@[c].path@ == q);
                        }
                    }
                }
                version
            },
            None => {
                let ghost before = *self;
                let mut versions: Vec<Vec<u8>> = Vec::new();
                versions.push(content);
                let entry = PathHistory { path: copy_bytes(path), versions };
                self.entries.push(entry);
                proof {
                    let n = before.entries@.len() as int;
                    assert forall|k: int| 0 <= k < n implies #[trigger] self.entries@[k] == before.entries@[k] by {}
                    assert forall|k: int| 0 <= k < n implies #[trigger] self.entries@[k].path@ != path@ by {
                        assert(before.entries@[k].path@ != path@);
                    }
                    assert(self.wf());
                    self.lemma_history_at(n);
                    assert(self.entries@[n].contents() =~= Seq::<Seq<u8>>::empty().push(bytes@));
                    assert forall|q: Seq<u8>| q != path@ implies self.history(q) == before.history(q) by {
                        if before.has(q) {
                            let c = choose|c: int|
                                0 <= c < before.entries@.len() && #[trigger] before.entries@[c].path@ == q;
                            assert(self.entries@[c].path@ == q);
                            self.lemma_history_at(c);
                            before.lemma_history_at(c);
                        } else if self.has(q) {
                            let c = choose|c: int|
                                0 <= c < self.entries@.len() && #[trigger] self.entries@[c].path@ == q;
                            assert(before.entries@[c].path@ == q);
                        }
                    }
                }
                1
            },
        }
    }

    /// The version token of the latest snapshot of `path`, 0 if it was never written.
    pub fn latest_version(&self, path: &[u8]) -> (version: u64)
        requires
            self.wf(),
        ensures
            version == self.latest(path@),
    {
        match self.find(path) {
            Some(i) => {
                proof {
                    self.lemma_history_at(i as int);
                }
                self.entries[i].versions.len() as u64
            },
            None => 0,
        }
    }

    /// The latest snapshot of `path`, or `None` if it was never written. The
    /// map retains every snapshot, so a delta can be computed from
    /// `since_version` exactly when that token has been handed out for this
    /// path: when it lies between 1 and the latest token.
    pub fn get(&self, path: &[u8], since_version: u64) -> (r: Option<Snapshot>)
        requires
            self.wf(),
        ensures
            r.is_none() <==> self.latest(path@) == 0,
            r matches Some(s) ==> {
                &&& s.bytes@ == self.history(path@).last()
                &&& s.version == self.latest(path@)
                &&& s.diff_eligible == diff_eligible(self.latest(path@), since_version as nat)
            },
    {
        match self.find(path) {
            Some(i) => {
                proof {
                    self.lemma_history_at(i as int);
                }
                let versions = &self.entries[i].versions;
                let n = versions.len();
                let bytes = copy_bytes(versions[n - 1].as_slice());
                let version: u64 = n as u64;
                Some(Snapshot { bytes, version, diff_eligible: 1 <= since_version && since_version <= version })
            },
            None => None,
        }
    }
}

/// One consumer's place in the sequence of version changes of one path. It
/// never ends by itself: `next` can be asked again after every write, until
/// the subscription is cancelled.
pub struct Subscription {
    pub path: Vec<u8>,
    pub seen: u64,
    pub cancelled: bool,
}

impl Subscription {
    /// A subscription to `path` that has seen everything written so far.
    pub fn subscribe(map: &VersionedContentMap, path: &[u8]) -> (s: Self)
        requires
            map.wf(),
        ensures
            s.path@ == path@,
            s.seen == map.latest(path@),
            !s.cancelled,
    {
        Subscription { path: copy_bytes(path), seen: map.latest_version(path), cancelled: false }
    }

    /// The next notification, if one is due: the latest token of the path when
    /// it is newer than the last one this subscription reported. A cancelled
    /// subscription reports nothing and does not move.
    pub fn next(&mut self, map: &VersionedContentMap) -> (r: Option<u64>)
        requires
            map.wf(),
        ensures
            final(self).path == old(self).path,
            final(self).cancelled == old(self).cancelled,
            r.is_some() <==> !old(self).cancelled && map.latest(old(self).path@) > old(self).seen,
            r matches Some(v) ==> v == map.latest(old(self).path@) && final(self).seen == v,
            r.is_none() ==> final(self).seen == old(self).seen,
    {
        if self.cancelled {
            return None;
        }
        let latest = map.latest_version(self.path.as_slice());
        if latest > self.seen {
            self.seen = latest;
            Some(latest)
        } else {
            None
        }
    }

    /// Ends the subscription.
    pub fn cancel(&mut self)
        ensures
            final(self).cancelled,
            final(self).path == old(self).path,
            final(self).seen == old(self).seen,
    {
        self.cancelled = true;
    }
}

} // verus!
