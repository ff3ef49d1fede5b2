//! The serve-process supervisor.
//!
//! The supervisor owns at most one file-serving helper process at a time,
//! as a slot holding the handle of the live helper. Replacing the helper
//! always takes the old handle out for termination before the new one is
//! installed, and a helper that never became ready is not installed at all.
//! A ghost history of handle events backs the invariant: the slot names
//! exactly the live helper, so no two helpers are ever live at once.

use vstd::prelude::*;

verus! {

/// Deadline for the helper to accept TCP connections, in milliseconds.
pub const READY_TIMEOUT_MS: u64 = 10000;

/// Milliseconds between two connection attempts while waiting.
pub const READY_POLL_INTERVAL_MS: u64 = 100;

/// Exclusive ownership of one helper process: its identifier and the
/// loopback port it serves on.
#[derive(Clone, Copy, PartialEq, Eq, Structural, Debug)]
pub struct ServeHandle {
    /// The caller's identifier for the process, such as its pid.
    pub pid: u64,
    /// The loopback TCP port the helper was bound to.
    pub port: u16,
}

/// One step in the supervisor's history. A kill is recorded when the handle
/// leaves the slot: the caller terminates that process before any later
/// handle is installed, so the record's order is the processes' order.
#[derive(Clone, Copy, PartialEq, Eq, Structural, Debug)]
pub enum SupervisorEvent {
    /// A ready helper became the registered handle.
    Spawned(u64),
    /// The registered helper was taken out to be terminated.
    Killed(u64),
}

/// The live helper after a history: a spawn makes its process live, the
/// matching kill makes none live.
pub open spec fn alive_after(t: Seq<SupervisorEvent>) -> Option<u64>
    decreases t.len(),
{
    if t.len() == 0 {
        None
    } else {
        let prev = alive_after(t.drop_last());
        match t.last() {
            SupervisorEvent::Spawned(p) => Some(p),
            SupervisorEvent::Killed(p) => if prev == Some(p) {
                None
            } else {
                prev
            },
        }
    }
}

/// A history the supervisor can produce: a helper is spawned only while
/// none is live, and killed only while it is the live one.
pub open spec fn wf_trace(t: Seq<SupervisorEvent>) -> bool
    decreases t.len(),
{
    if t.len() == 0 {
        true
    } else {
        wf_trace(t.drop_last()) && match t.last() {
            SupervisorEvent::Spawned(_) => alive_after(t.drop_last()) is None,
            SupervisorEvent::Killed(p) => alive_after(t.drop_last()) == Some(p),
        }
    }
}

/// Why no served URL could be produced.
#[derive(Clone, Copy, PartialEq, Eq, Structural, Debug)]
pub enum SuperviseError {
    /// No free loopback port was available.
    NoFreePort,
    /// The helper process could not be started.
    SpawnFailed,
    /// The helper never accepted connections before the deadline.
    ReadyTimeout,
}

/// The verdict of one readiness-wait decision.
#[derive(Clone, Copy, PartialEq, Eq, Structural, Debug)]
pub enum WaitVerdict {
    /// The helper accepted a connection: the URL can be handed out.
    Ready,
    /// Not ready yet: try again after the poll interval.
    Retry,
    /// The deadline passed without a connection.
    TimedOut,
}

/// One decision of the readiness wait, from the time elapsed since the
/// spawn and whether a TCP connection just succeeded: past the deadline
/// nothing more is tried; before it, a connection means ready and anything
/// else means another attempt after the poll interval.
pub fn wait_step(elapsed_ms: u64, connected: bool) -> (r: WaitVerdict)
    ensures
        r == (if elapsed_ms >= READY_TIMEOUT_MS {
            WaitVerdict::TimedOut
        } else if connected {
            WaitVerdict::Ready
        } else {
            WaitVerdict::Retry
        }),
        r is TimedOut <==> elapsed_ms >= READY_TIMEOUT_MS,
        r is Ready <==> elapsed_ms < READY_TIMEOUT_MS && connected,
{
    if elapsed_ms >= READY_TIMEOUT_MS {
        WaitVerdict::TimedOut
    } else if connected {
        WaitVerdict::Ready
    } else {
        WaitVerdict::Retry
    }
}

/// Relies on portpicker::pick_unused_port: it probes the machine for an
/// ephemeral port that was free to bind and reports it, or nothing when
/// none was. Which port comes back depends on the machine and the moment,
/// so nothing is promised of the value.
#[verifier::external_body]
fn probe_free_port() -> (r: Option<u16>) {
    portpicker::pick_unused_port()
}

/// Pick the loopback port for a fresh helper: some free port of the
/// machine, or the resource-exhaustion error when none is free. Which port
/// comes back depends on the machine, so a caller learns the port only
/// from the result.
pub fn choose_serve_port() -> (r: Result<u16, SuperviseError>)
    ensures
        r is Err ==> r == Err::<u16, SuperviseError>(SuperviseError::NoFreePort),
{
    match probe_free_port() {
        Some(port) => Ok(port),
        None => Err(SuperviseError::NoFreePort),
    }
}

/// The supervisor: the slot for the single live helper, with the ghost
/// history of every handle it ever held.
pub struct Supervisor {
    /// The live helper's handle, if one is registered.
    pub slot: Option<ServeHandle>,
    /// Every spawn and kill, in order.
    pub history: Ghost<Seq<SupervisorEvent>>,
}

impl Supervisor {
    /// The recorded history.
    pub open spec fn history(self) -> Seq<SupervisorEvent> {
        self.history@
    }

    /// The registered handle, if any.
    pub open spec fn current(self) -> Option<ServeHandle> {
        self.slot
    }

    /// The slot names exactly the helper the history leaves live.
    pub open spec fn wf(self) -> bool {
        wf_trace(self.history@) && match self.slot {
            Some(h) => alive_after(self.history@) == Some(h.pid),
            None => alive_after(self.history@) is None,
        }
    }

    /// A supervisor holding no helper.
    pub fn new() -> (s: Supervisor)
        ensures
            s.wf(),
            s.current() is None,
            s.history() == Seq::<SupervisorEvent>::empty(),
    {
        Supervisor { slot: None, history: Ghost(Seq::empty()) }
    }

    /// The registered helper's port, if one is registered.
    pub fn current_port(&self) -> (r: Option<u16>)
        ensures
            r == match self.current() {
                Some(h) => Some(h.port),
                None => None::<u16>,
            },
    {
        match &self.slot {
            Some(h) => Some(h.port),
            None => None,
        }
    }

    /// Take the current handle out for termination. The caller kills that
    /// process before it spawns any replacement; the slot is empty when
    /// this returns, so the old helper's termination precedes the next
    /// helper's registration.
    pub fn take_for_kill(&mut self) -> (r: Option<ServeHandle>)
        requires
            old(self).wf(),
        ensures
            final(self).wf(),
            r == old(self).current(),
            final(self).current() is None,
            final(self).history() == match r {
                Some(h) => old(self).history().push(SupervisorEvent::Killed(h.pid)),
                None => old(self).history(),
            },
    {
        let r = self.slot.take();
        match &r {
            Some(h) => {
                proof {
                    let t0 = self.history@;
                    let t1 = t0.push(SupervisorEvent::Killed(h.pid));
                    assert(t1.drop_last() =~= t0);
                    assert(wf_trace(t1));
                }
                self.history = Ghost(self.history@.push(SupervisorEvent::Killed(h.pid)));
            },
            None => {},
        }
        r
    }

    /// Register the helper the caller just spawned into the empty slot, but
    /// only if it became ready before the deadline: the timeout path of an
    /// open registers nothing, so no handle is left behind.
    pub fn install_if_ready(&mut self, h: ServeHandle, ready: bool) -> (r: Result<
        ServeHandle,
        SuperviseError,
    >)
        requires
            old(self).wf(),
            old(self).current() is None,
        ensures
            final(self).wf(),
            ready ==> r == Ok::<ServeHandle, SuperviseError>(h) && final(self).current() == Some(h)
                && final(self).history() == old(self).history().push(
                SupervisorEvent::Spawned(h.pid),
            ),
            !ready ==> r == Err::<ServeHandle, SuperviseError>(SuperviseError::ReadyTimeout)
                && final(self).current() is None && final(self).history() == old(self).history(),
    {
        if ready {
            proof {
                let t0 = self.history@;
                let t1 = t0.push(SupervisorEvent::Spawned(h.pid));
                assert(t1.drop_last() =~= t0);
                assert(wf_trace(t1));
            }
            self.history = Ghost(self.history@.push(SupervisorEvent::Spawned(h.pid)));
            self.slot = Some(h);
            Ok(h)
        } else {
            Err(SuperviseError::ReadyTimeout)
        }
    }
}

/// `p` is live in history `t`: it was spawned and never killed afterwards.
pub open spec fn live_in(t: Seq<SupervisorEvent>, p: u64) -> bool {
    exists|k: int|
        #![trigger t[k]]
        0 <= k < t.len() && t[k] == SupervisorEvent::Spawned(p) && (forall|m: int|
            #![trigger t[m]]
            k < m < t.len() ==> t[m] != SupervisorEvent::Killed(p))
}

/// In any history the supervisor can produce, the live helper is the one
/// `alive_after` names — so at any instant at most one helper is live.
pub proof fn lemma_live_iff_alive(t: Seq<SupervisorEvent>, p: u64)
    requires
        wf_trace(t),
    ensures
        live_in(t, p) <==> alive_after(t) == Some(p),
    decreases t.len(),
{
    if t.len() == 0 {
    } else {
        let t0 = t.drop_last();
        lemma_live_iff_alive(t0, p);
        match t.last() {
            SupervisorEvent::Spawned(q) => {
                assert(alive_after(t0) is None);
                assert(alive_after(t) == Some(q));
                if p == q {
                    assert(t[t.len() - 1] == SupervisorEvent::Spawned(p));
                    assert(live_in(t, p));
                } else {
                    if live_in(t, p) {
                        let k = choose|k: int|
                            #![trigger t[k]]
                            0 <= k < t.len() && t[k] == SupervisorEvent::Spawned(p) && (forall|
                                m: int,
                            |
                                #![trigger t[m]]
                                k < m < t.len() ==> t[m] != SupervisorEvent::Killed(p));
                        assert(k < t.len() - 1);
                        assert(t0[k] == SupervisorEvent::Spawned(p));
                        assert(forall|m: int|
                            #![trigger t0[m]]
                            k < m < t0.len() ==> t0[m] != SupervisorEvent::Killed(p));
                        assert(live_in(t0, p));
                        assert(false);
                    }
                }
            },
            SupervisorEvent::Killed(q) => {
                assert(alive_after(t0) == Some(q));
                assert(alive_after(t) is None);
                if live_in(t, p) {
                    let k = choose|k: int|
                        #![trigger t[k]]
                        0 <= k < t.len() && t[k] == SupervisorEvent::Spawned(p) && (forall|m: int|
                            #![trigger t[m]]
                            k < m < t.len() ==> t[m] != SupervisorEvent::Killed(p));
                    assert(k < t.len() - 1);
                    assert(t[t.len() - 1] != SupervisorEvent::Killed(p));
                    assert(p != q);
                    assert(t0[k] == SupervisorEvent::Spawned(p));
                    assert(forall|m: int|
                        #![trigger t0[m]]
                        k < m < t0.len() ==> t0[m] != SupervisorEvent::Killed(p));
                    assert(live_in(t0, p));
                    assert(false);
                }
            },
        }
    }
}

/// Two helpers are never live at once.
pub proof fn lemma_at_most_one_live(t: Seq<SupervisorEvent>, p: u64, q: u64)
    requires
        wf_trace(t),
        live_in(t, p),
        live_in(t, q),
    ensures
        p == q,
{
    lemma_live_iff_alive(t, p);
    lemma_live_iff_alive(t, q);
}

/// Every prefix of a history the supervisor can produce is itself such a
/// history.
pub proof fn lemma_wf_prefix(t: Seq<SupervisorEvent>, n: int)
    requires
        wf_trace(t),
        0 <= n <= t.len(),
    ensures
        wf_trace(t.take(n)),
    decreases t.len(),
{
    if n == t.len() {
        assert(t.take(n) =~= t);
    } else {
        let t0 = t.drop_last();
        assert(wf_trace(t0));
        lemma_wf_prefix(t0, n);
        assert(t0.take(n) =~= t.take(n));
    }
}

/// While no kill of `p` occurs, `p` stays the live helper, and the history
/// admits no other event at all in that span.
proof fn lemma_alive_persists(t: Seq<SupervisorEvent>, i: int, j: int, p: u64)
    requires
        wf_trace(t),
        0 <= i <= j <= t.len(),
        alive_after(t.take(i)) == Some(p),
        forall|k: int| #![trigger t[k]] i <= k < j ==> t[k] != SupervisorEvent::Killed(p),
    ensures
        alive_after(t.take(j)) == Some(p),
    decreases j - i,
{
    if j > i {
        lemma_alive_persists(t, i, j - 1, p);
        lemma_wf_prefix(t, j);
        let u = t.take(j);
        assert(u.drop_last() =~= t.take(j - 1));
        assert(u.last() == t[j - 1]);
        match t[j - 1] {
            SupervisorEvent::Spawned(_) => {
                assert(alive_after(u.drop_last()) is None);
                assert(false);
            },
            SupervisorEvent::Killed(r) => {
                assert(alive_after(u.drop_last()) == Some(r));
                assert(r == p);
                assert(false);
            },
        }
    }
}

/// The old helper's termination happens before the new helper's spawn:
/// between the registrations of any two helpers, the earlier one is taken
/// out and killed — there is no overlap window.
pub proof fn lemma_kill_before_respawn(t: Seq<SupervisorEvent>, i: int, j: int, p: u64, q: u64)
    requires
        wf_trace(t),
        0 <= i < j < t.len(),
        t[i] == SupervisorEvent::Spawned(p),
        t[j] == SupervisorEvent::Spawned(q),
    ensures
        exists|k: int| #![trigger t[k]] i < k < j && t[k] == SupervisorEvent::Killed(p),
{
    lemma_wf_prefix(t, i + 1);
    assert(t.take(i + 1).drop_last() =~= t.take(i));
    assert(t.take(i + 1).last() == SupervisorEvent::Spawned(p));
    assert(alive_after(t.take(i + 1)) == Some(p));
    if forall|k: int| #![trigger t[k]] i < k < j ==> t[k] != SupervisorEvent::Killed(p) {
        assert(forall|k: int|
            #![trigger t[k]]
            i + 1 <= k < j ==> t[k] != SupervisorEvent::Killed(p));
        lemma_alive_persists(t, i + 1, j, p);
        lemma_wf_prefix(t, j + 1);
        assert(t.take(j + 1).drop_last() =~= t.take(j));
        assert(t.take(j + 1).last() == SupervisorEvent::Spawned(q));
        assert(alive_after(t.take(j)) is None);
        assert(false);
    }
}

} // verus!
