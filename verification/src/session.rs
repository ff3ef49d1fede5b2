//! Stream sessions: one serving helper per session identifier.
//!
//! A caller opens a stream under a session identifier of its own choosing;
//! opening the same identifier again replaces that session's helper, and a
//! session can be stopped alone or all at once. The registry maps each
//! identifier to the caller's handle for the helper process; spawning and
//! killing the processes is the caller's I/O.

use vstd::prelude::*;
use vstd::slice::slice_to_vec;

use crate::encode::{encode_path_spec, percent_encode_path, SLASH};
use crate::resolve::{serve_base_url, serve_base_url_spec, trim_start_slashes_spec};

verus! {

/// A started stream session: its identifier, the helper's base URL, and
/// the URL of the requested file below it.
pub struct StreamSession {
    /// The caller's identifier for the session.
    pub session_id: Vec<u8>,
    /// The helper's base URL.
    pub serve_url: Vec<u8>,
    /// The URL under which the helper serves the requested file.
    pub file_url: Vec<u8>,
}

/// One subtitle track of a probed media file.
pub struct SubtitleTrack {
    /// The track's index within the file.
    pub index: u32,
    /// The track's language tag, when the file names one.
    pub language: Option<String>,
    /// The track's title, when the file names one.
    pub title: Option<String>,
}

/// The URL of a session's file: the helper's base URL, one slash, and the
/// percent-encoded path with its leading slashes dropped. The path encoder
/// escapes every byte outside the unreserved set — a space as `%20` — so
/// the helper resolves the URL back to the file it names.
pub open spec fn session_file_url_spec(port: u16, file_path: Seq<u8>) -> Seq<u8> {
    serve_base_url_spec(port) + seq![SLASH] + trim_start_slashes_spec(
        encode_path_spec(file_path),
    )
}

/// Build the URL under which the helper on `port` serves a session's file.
pub fn build_session_file_url(port: u16, file_path: &[u8]) -> (r: Vec<u8>)
    ensures
        r@ == session_file_url_spec(port, file_path@),
{
    let enc = percent_encode_path(file_path);
    proof {
        crate::bytes::lemma_leading_run_props(enc@, SLASH);
    }
    let k = crate::bytes::leading_run_len(enc.as_slice(), SLASH);
    let mut out = serve_base_url(port);
    out.push(SLASH);
    let mut tail = slice_to_vec(vstd::slice::slice_subrange(enc.as_slice(), k, enc.len()));
    out.append(&mut tail);
    proof {
        assert(enc@.subrange(k as int, enc@.len() as int) =~= trim_start_slashes_spec(enc@));
        assert(out@ =~= session_file_url_spec(port, file_path@));
    }
    out
}

/// The helper of the session with this identifier, scanning in registry
/// order.
pub open spec fn spec_lookup(es: Seq<(Vec<u8>, u64)>, k: Seq<u8>) -> Option<u64>
    decreases es.len(),
{
    if es.len() == 0 {
        None
    } else if es[0].0@ == k {
        Some(es[0].1)
    } else {
        spec_lookup(es.drop_first(), k)
    }
}

/// What `spec_lookup` means: the first entry under the identifier, if any.
pub proof fn lemma_lookup_props(es: Seq<(Vec<u8>, u64)>, k: Seq<u8>)
    ensures
        match spec_lookup(es, k) {
            Some(p) => exists|i: int|
                #![trigger es[i]]
                0 <= i < es.len() && es[i].0@ == k && es[i].1 == p,
            None => forall|i: int| #![trigger es[i]] 0 <= i < es.len() ==> es[i].0@ != k,
        },
    decreases es.len(),
{
    if es.len() > 0 && es[0].0@ != k {
        lemma_lookup_props(es.drop_first(), k);
        match spec_lookup(es.drop_first(), k) {
            Some(p) => {
                let i = choose|i: int|
                    #![trigger es.drop_first()[i]]
                    0 <= i < es.drop_first().len() && es.drop_first()[i].0@ == k
                        && es.drop_first()[i].1 == p;
                assert(es[i + 1].0@ == k && es[i + 1].1 == p);
            },
            None => {
                assert forall|i: int| 0 <= i < es.len() implies #[trigger] es[i].0@ != k by {
                    if i > 0 {
                        assert(es.drop_first()[i - 1].0@ != k);
                    }
                }
            },
        }
    }
}

/// Every session identifier holds at most one entry.
pub open spec fn keys_distinct(es: Seq<(Vec<u8>, u64)>) -> bool {
    forall|i: int, j: int|
        #![trigger es[i], es[j]]
        0 <= i < j < es.len() ==> es[i].0@ != es[j].0@
}

/// Removing an entry removes exactly its identifier from lookups.
proof fn lemma_lookup_remove(es: Seq<(Vec<u8>, u64)>, idx: int, k: Seq<u8>)
    requires
        keys_distinct(es),
        0 <= idx < es.len(),
    ensures
        spec_lookup(es.remove(idx), k) == (if k == es[idx].0@ {
            None
        } else {
            spec_lookup(es, k)
        }),
    decreases es.len(),
{
    let removed = es.remove(idx);
    if idx == 0 {
        assert(removed =~= es.drop_first());
        if k == es[0].0@ {
            lemma_lookup_props(es.drop_first(), k);
            if spec_lookup(es.drop_first(), k) is Some {
                let i = choose|i: int|
                    #![trigger es.drop_first()[i]]
                    0 <= i < es.drop_first().len() && es.drop_first()[i].0@ == k;
                assert(es[i + 1].0@ == es[0].0@);
                assert(false);
            }
        }
    } else {
        assert(removed[0] == es[0]);
        assert(removed.drop_first() =~= es.drop_first().remove(idx - 1));
        assert(keys_distinct(es.drop_first())) by {
            assert forall|i: int, j: int|
                0 <= i < j < es.drop_first().len() implies #[trigger] es.drop_first()[i].0@
                != #[trigger] es.drop_first()[j].0@ by {
                assert(es[i + 1].0@ != es[j + 1].0@);
            }
        }
        lemma_lookup_remove(es.drop_first(), idx - 1, k);
        assert(es.drop_first()[idx - 1] == es[idx]);
    }
}

/// Appending a fresh entry adds exactly its identifier to lookups.
proof fn lemma_lookup_push(es: Seq<(Vec<u8>, u64)>, e: (Vec<u8>, u64), k: Seq<u8>)
    ensures
        spec_lookup(es.push(e), k) == (if spec_lookup(es, k) is Some {
            spec_lookup(es, k)
        } else if k == e.0@ {
            Some(e.1)
        } else {
            None
        }),
    decreases es.len(),
{
    if es.len() == 0 {
        assert(es.push(e)[0] == e);
        assert(es.push(e).drop_first() =~= Seq::<(Vec<u8>, u64)>::empty());
        assert(spec_lookup(Seq::<(Vec<u8>, u64)>::empty(), k) is None);
        if e.0@ == k {
            assert(spec_lookup(es.push(e), k) == Some(e.1));
        } else {
            assert(spec_lookup(es.push(e), k) == spec_lookup(es.push(e).drop_first(), k));
        }
    } else {
        assert(es.push(e)[0] == es[0]);
        assert(es.push(e).drop_first() =~= es.drop_first().push(e));
        lemma_lookup_push(es.drop_first(), e, k);
        if es[0].0@ == k {
            assert(spec_lookup(es.push(e), k) == Some(es[0].1));
            assert(spec_lookup(es, k) == Some(es[0].1));
        } else {
            assert(spec_lookup(es.push(e), k) == spec_lookup(es.drop_first().push(e), k));
            assert(spec_lookup(es, k) == spec_lookup(es.drop_first(), k));
        }
    }
}

/// The registry of live sessions: each identifier maps to the caller's
/// handle for that session's helper process.
pub struct SessionRegistry {
    /// The live sessions, in start order.
    pub entries: Vec<(Vec<u8>, u64)>,
}

impl SessionRegistry {
    /// Every identifier holds at most one session.
    pub open spec fn wf(self) -> bool {
        keys_distinct(self.entries@)
    }

    /// The helper registered under an identifier.
    pub open spec fn lookup(self, k: Seq<u8>) -> Option<u64> {
        spec_lookup(self.entries@, k)
    }

    /// An empty registry.
    pub fn new() -> (r: SessionRegistry)
        ensures
            r.wf(),
            r.entries@.len() == 0,
    {
        SessionRegistry { entries: Vec::new() }
    }

    /// Take the session under this identifier out of the registry: the
    /// caller kills the returned helper. Opening a session anew first takes
    /// the old one out, so an identifier never runs two helpers.
    pub fn take_session(&mut self, session_id: &[u8]) -> (r: Option<u64>)
        requires
            old(self).wf(),
        ensures
            final(self).wf(),
            r == old(self).lookup(session_id@),
            forall|k: Seq<u8>|
                #[trigger] final(self).lookup(k) == (if k == session_id@ {
                    None
                } else {
                    old(self).lookup(k)
                }),
    {
        let ghost es0 = self.entries@;
        let mut i: usize = 0;
        while i < self.entries.len()
            invariant
                es0 == old(self).entries@,
                self.entries@ == es0,
                keys_distinct(es0),
                i <= es0.len(),
                forall|j: int| #![trigger es0[j]] 0 <= j < i ==> es0[j].0@ != session_id@,
            decreases es0.len() - i,
        {
            let hit = crate::bytes::slice_eq(self.entries[i].0.as_slice(), session_id);
            if hit {
                let (_, pid) = self.entries.remove(i);
                proof {
                    lemma_lookup_unique(es0, i as int, session_id@);
                    assert forall|k: Seq<u8>|
                        #[trigger] spec_lookup(self.entries@, k) == (if k == session_id@ {
                            None::<u64>
                        } else {
                            spec_lookup(es0, k)
                        }) by {
                        lemma_lookup_remove(es0, i as int, k);
                    }
                    assert forall|a: int, b: int|
                        0 <= a < b < self.entries@.len() implies #[trigger] self.entries@[a].0@
                        != #[trigger] self.entries@[b].0@ by {
                        let m = if a < i { a } else { a + 1 };
                        let n = if b < i { b } else { b + 1 };
                        assert(self.entries@[a] == es0[m]);
                        assert(self.entries@[b] == es0[n]);
                    }
                }
                return Some(pid);
            }
            i = i + 1;
        }
        proof {
            lemma_lookup_props(es0, session_id@);
            if spec_lookup(es0, session_id@) is Some {
                let j = choose|j: int|
                    #![trigger es0[j]]
                    0 <= j < es0.len() && es0[j].0@ == session_id@;
                assert(es0[j].0@ != session_id@);
            }
            assert forall|k: Seq<u8>|
                #[trigger] spec_lookup(self.entries@, k) == (if k == session_id@ {
                    None::<u64>
                } else {
                    spec_lookup(es0, k)
                }) by {}
        }
        None
    }

    /// Register a freshly spawned session helper under an identifier that
    /// holds none — the caller has just taken any old one out.
    pub fn insert_session(&mut self, session_id: Vec<u8>, pid: u64)
        requires
            old(self).wf(),
            old(self).lookup(session_id@) is None,
        ensures
            final(self).wf(),
            forall|k: Seq<u8>|
                #[trigger] final(self).lookup(k) == (if k == session_id@ {
                    Some(pid)
                } else {
                    old(self).lookup(k)
                }),
    {
        let ghost es0 = self.entries@;
        let ghost sid = session_id@;
        self.entries.push((session_id, pid));
        proof {
            assert(self.entries@.last().0@ == sid);
            assert forall|k: Seq<u8>|
                #[trigger] spec_lookup(self.entries@, k) == (if k == sid {
                    Some(pid)
                } else {
                    spec_lookup(es0, k)
                }) by {
                lemma_lookup_push(es0, self.entries@.last(), k);
                if k != sid && spec_lookup(es0, k) is None {
                }
                if k == sid {
                    lemma_lookup_props(es0, k);
                }
            }
            lemma_lookup_props(es0, sid);
            assert forall|a: int, b: int|
                0 <= a < b < self.entries@.len() implies #[trigger] self.entries@[a].0@
                != #[trigger] self.entries@[b].0@ by {
                if b == self.entries@.len() - 1 {
                    assert(self.entries@[a] == es0[a]);
                    assert(es0[a].0@ != sid);
                } else {
                    assert(self.entries@[a] == es0[a]);
                    assert(self.entries@[b] == es0[b]);
                }
            }
        }
    }

    /// Take every session out of the registry, in start order: the caller
    /// kills each returned helper, as on shutdown.
    pub fn drain_all(&mut self) -> (r: Vec<u64>)
        requires
            old(self).wf(),
        ensures
            final(self).wf(),
            final(self).entries@.len() == 0,
            r@.len() == old(self).entries@.len(),
            forall|i: int| 0 <= i < r@.len() ==> r@[i] == old(self).entries@[i].1,
    {
        let mut pids: Vec<u64> = Vec::new();
        let mut i: usize = 0;
        while i < self.entries.len()
            invariant
                self.entries@ == old(self).entries@,
                i <= self.entries@.len(),
                pids@.len() == i,
                forall|j: int| 0 <= j < i ==> pids@[j] == self.entries@[j].1,
            decreases self.entries@.len() - i,
        {
            pids.push(self.entries[i].1);
            i = i + 1;
        }
        self.entries.clear();
        pids
    }
}

/// The first entry under an identifier, when nothing before it matches, is
/// the lookup's result.
proof fn lemma_lookup_unique(es: Seq<(Vec<u8>, u64)>, i: int, k: Seq<u8>)
    requires
        0 <= i < es.len(),
        es[i].0@ == k,
        forall|j: int| #![trigger es[j]] 0 <= j < i ==> es[j].0@ != k,
    ensures
        spec_lookup(es, k) == Some(es[i].1),
    decreases es.len(),
{
    if es[0].0@ != k {
        assert(es.drop_first()[i - 1] == es[i]);
        assert(forall|j: int|
            #![trigger es.drop_first()[j]]
            0 <= j < i - 1 ==> es.drop_first()[j] == es[j + 1]);
        lemma_lookup_unique(es.drop_first(), i - 1, k);
    }
}

} // verus!
