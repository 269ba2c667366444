//! What one daemon is running. Every bound is a count and a quantity: the count says how
//! many, and the bytes what they may hold between them.

use std::collections::HashMap;
use vstd::prelude::*;

use crate::ids::{GridSize, SessionId};
use crate::limits::{FORWARD_SESSION_BYTES, MEMORY_BUDGET, MILLI, SESSION_BYTES, SESSION_LIMIT};

verus! {

broadcast use vstd::std_specs::hash::group_hash_axioms;

/// A zero timeout means none at all, so the time left never rounds to it.
pub const LEAST_TIMEOUT: u64 = MILLI;

/// What a session costs: it is charged before its actor exists and refunded one
/// destructor after it is gone.
#[derive(Clone, Copy, Debug, PartialEq, Eq, Structural)]
pub enum SessionKind {
    Terminal,
    Forward,
}

impl SessionKind {
    pub open spec fn charge(self) -> int {
        match self {
            SessionKind::Terminal => SESSION_BYTES as int,
            SessionKind::Forward => FORWARD_SESSION_BYTES as int,
        }
    }

    pub fn bytes(self) -> (bytes: usize)
        ensures
            bytes == self.charge(),
    {
        match self {
            SessionKind::Terminal => SESSION_BYTES,
            SessionKind::Forward => FORWARD_SESSION_BYTES,
        }
    }
}

/// A bounded count of things there may be at once.
#[derive(Clone, Copy, Debug)]
pub struct Slots {
    pub live: usize,
    pub limit: usize,
}

impl Slots {
    pub fn new(limit: usize) -> (slots: Self)
        ensures
            slots == (Slots { live: 0, limit }),
    {
        Slots { live: 0, limit }
    }

    /// Take one, if there is one.
    pub fn take(&mut self) -> (taken: bool)
        ensures
            taken == (old(self).live < old(self).limit),
            *final(self) == (Slots {
                live: (if taken { (old(self).live + 1) as usize } else { old(self).live }),
                ..*old(self)
            }),
    {
        if self.live < self.limit {
            self.live = self.live + 1;
            true
        } else {
            false
        }
    }

    /// Give one back.
    pub fn release(&mut self)
        ensures
            *final(self) == (Slots {
                live: (if old(self).live > 0 { (old(self).live - 1) as usize } else { 0 }),
                ..*old(self)
            }),
    {
        self.live = self.live.saturating_sub(1);
    }
}

/// A running session: what it was charged as, and what the program around it keeps.
pub struct SessionHandle<H> {
    /// So that removing the entry gives back what it took.
    pub kind: SessionKind,
    pub handle: H,
}

/// The sessions of one daemon.
#[verifier::reject_recursive_types(H)]
pub struct Registry<H> {
    sessions: HashMap<u128, SessionHandle<H>>,
    /// Sessions admitted whose actor does not exist yet. Without a reservation, any
    /// number of arrivals would all see the same free slot and all take it.
    starting: HashMap<u128, SessionKind>,
    /// Carried rather than derived: what a session costs is a property of the session.
    bytes: usize,
}

/// The registry as plain values.
#[verifier::ext_equal]
pub struct Admitted<H> {
    pub sessions: Map<u128, SessionHandle<H>>,
    pub starting: Map<u128, SessionKind>,
    pub bytes: int,
}

pub open spec fn less(bytes: int, charge: int) -> int {
    if bytes > charge { bytes - charge } else { 0 }
}

impl<H> Admitted<H> {
    /// The counts are finite and the bytes are within the budget.
    pub open spec fn well_formed(self) -> bool {
        &&& self.sessions.dom().finite()
        &&& self.starting.dom().finite()
        &&& self.admitted() <= usize::MAX
        &&& 0 <= self.bytes <= MEMORY_BUDGET
    }

    /// How many sessions there are, running or starting.
    pub open spec fn admitted(self) -> int {
        (self.sessions.dom().len() + self.starting.dom().len()) as int
    }

    /// There is room for one more session of `kind`.
    pub open spec fn has_room(self, kind: SessionKind) -> bool {
        self.admitted() < SESSION_LIMIT && self.bytes + kind.charge() <= MEMORY_BUDGET
    }

    pub open spec fn reserved(self, id: SessionId, kind: SessionKind) -> Admitted<H> {
        Admitted { starting: self.starting.insert(id.0, kind), bytes: self.bytes + kind.charge(), ..self }
    }

    pub open spec fn installed(self, id: SessionId, handle: SessionHandle<H>) -> Admitted<H> {
        Admitted {
            sessions: self.sessions.insert(id.0, handle),
            starting: self.starting.remove(id.0),
            ..self
        }
    }

    pub open spec fn released(self, id: SessionId) -> Admitted<H> {
        if self.starting.dom().contains(id.0) {
            Admitted {
                starting: self.starting.remove(id.0),
                bytes: less(self.bytes, self.starting[id.0].charge()),
                ..self
            }
        } else {
            self
        }
    }

    pub open spec fn removed(self, id: SessionId) -> Admitted<H> {
        if self.sessions.dom().contains(id.0) {
            Admitted {
                sessions: self.sessions.remove(id.0),
                bytes: less(self.bytes, self.sessions[id.0].kind.charge()),
                ..self
            }
        } else {
            self
        }
    }
}

impl<H> View for Registry<H> {
    type V = Admitted<H>;

    closed spec fn view(&self) -> Admitted<H> {
        Admitted { sessions: self.sessions@, starting: self.starting@, bytes: self.bytes as int }
    }
}

impl<H> Registry<H> {
    pub fn new() -> (registry: Self)
        ensures
            registry@ == (Admitted::<H> { sessions: Map::empty(), starting: Map::empty(), bytes: 0 }),
            registry@.well_formed(),
    {
        Registry { sessions: HashMap::new(), starting: HashMap::new(), bytes: 0 }
    }

    pub fn admitted(&self) -> (count: usize)
        requires
            self@.well_formed(),
        ensures
            count == self@.admitted(),
    {
        self.sessions.len() + self.starting.len()
    }

    /// Bytes charged against the budget.
    pub fn bytes(&self) -> (bytes: usize)
        ensures
            bytes == self@.bytes,
    {
        self.bytes
    }

    /// Reserve room for one session before anything about it is started. The count is the
    /// same bound for either kind, while the charge is what the kind costs.
    pub fn reserve(&mut self, kind: SessionKind, id: SessionId) -> (room: bool)
        requires
            old(self)@.well_formed(),
        ensures
            final(self)@.well_formed(),
            room == old(self)@.has_room(kind),
            final(self)@ == (if room { old(self)@.reserved(id, kind) } else { old(self)@ }),
    {
        let bytes = kind.bytes();
        if self.admitted() >= SESSION_LIMIT || self.bytes.saturating_add(bytes) > MEMORY_BUDGET {
            return false;
        }
        let _ = self.starting.insert(id.0, kind);
        self.bytes = self.bytes + bytes;
        true
    }

    /// Name the actor of a session that has started: reserved and running under one
    /// transition, so the count never dips between the two.
    pub fn install(&mut self, id: SessionId, handle: SessionHandle<H>)
        requires
            old(self)@.well_formed(),
            old(self)@.admitted() < usize::MAX,
        ensures
            final(self)@.well_formed(),
            final(self)@ == old(self)@.installed(id, handle),
    {
        let _ = self.starting.remove(&id.0);
        let _ = self.sessions.insert(id.0, handle);
        assert(self@.starting =~= old(self)@.starting.remove(id.0));
    }

    /// Give back a reservation that was never traded for a running session.
    pub fn release_reservation(&mut self, id: SessionId)
        requires
            old(self)@.well_formed(),
        ensures
            final(self)@.well_formed(),
            final(self)@ == old(self)@.released(id),
    {
        if let Some(kind) = self.starting.remove(&id.0) {
            self.bytes = self.bytes.saturating_sub(kind.bytes());
            assert(self@.starting =~= old(self)@.starting.remove(id.0));
        } else {
            assert(self@.starting =~= old(self)@.starting);
        }
    }

    /// Forget a session that is over, refunding it at its own kind's rate.
    pub fn remove(&mut self, id: SessionId)
        requires
            old(self)@.well_formed(),
        ensures
            final(self)@.well_formed(),
            final(self)@ == old(self)@.removed(id),
    {
        if let Some(handle) = self.sessions.remove(&id.0) {
            self.bytes = self.bytes.saturating_sub(handle.kind.bytes());
            assert(self@.sessions =~= old(self)@.sessions.remove(id.0));
        } else {
            assert(self@.sessions =~= old(self)@.sessions);
        }
    }

    /// A running session.
    pub fn get(&self, id: SessionId) -> (found: Option<&SessionHandle<H>>)
        ensures
            match found {
                Some(handle) => self@.sessions.dom().contains(id.0) && *handle == self@.sessions[id.0],
                None => !self@.sessions.dom().contains(id.0),
            },
    {
        self.sessions.get(&id.0)
    }

    /// Every running session, in no order.
    pub fn ids(&self) -> (ids: Vec<SessionId>)
        ensures
            forall|id: SessionId| ids@.contains(id) <==> #[trigger] self@.sessions.dom().contains(id.0),
            ids@.len() == self@.sessions.dom().len(),
            ids@.no_duplicates(),
    {
        let mut ids: Vec<SessionId> = Vec::new();
        for key in keys: self.sessions.keys()
            invariant
                ids@.len() == keys.index(),
                forall|i: int| 0 <= i < ids@.len() ==> (#[trigger] ids@[i]).0 == *keys.seq()[i],
        {
            ids.push(SessionId(*key));
        }
        proof {
            let all = vstd::std_specs::iter::IteratorSpec::remaining(&self.sessions.keys());
            assert(all.unref().to_set() == self.sessions@.dom());
            assert forall|id: SessionId| ids@.contains(id) <==> #[trigger] self@.sessions.dom().contains(id.0) by {
                if ids@.contains(id) {
                    let i = choose|i: int| 0 <= i < ids@.len() && ids@[i] == id;
                    assert(all.unref()[i] == id.0);
                    assert(all.unref().contains(id.0));
                }
                if self@.sessions.dom().contains(id.0) {
                    assert(all.unref().contains(id.0));
                    let i = choose|i: int| 0 <= i < all.unref().len() && all.unref()[i] == id.0;
                    assert(ids@[i] == id);
                }
            }
        }
        ids
    }

    /// Charge `bytes` for something that is not a session, if there is room for them.
    pub fn charge(&mut self, bytes: usize) -> (room: bool)
        requires
            old(self)@.well_formed(),
        ensures
            final(self)@.well_formed(),
            room == (old(self)@.bytes + bytes <= MEMORY_BUDGET),
            final(self)@ == (if room {
                Admitted { bytes: old(self)@.bytes + bytes, ..old(self)@ }
            } else {
                old(self)@
            }),
    {
        if self.bytes.saturating_add(bytes) > MEMORY_BUDGET {
            return false;
        }
        self.bytes = self.bytes + bytes;
        true
    }

    /// Give back what [`Self::charge`] took.
    pub fn refund(&mut self, bytes: usize)
        requires
            old(self)@.well_formed(),
        ensures
            final(self)@.well_formed(),
            final(self)@ == (Admitted { bytes: less(old(self)@.bytes, bytes as int), ..old(self)@ }),
    {
        self.bytes = self.bytes.saturating_sub(bytes);
    }

    /// Reserve room for one forward. Two bounds because a forward costs two unrelated
    /// things: the count bounds its sockets and threads, the bytes the buffers behind
    /// them.
    pub fn reserve_forward(&mut self, forwards: &mut Slots, bytes: usize) -> (room: bool)
        requires
            old(self)@.well_formed(),
        ensures
            final(self)@.well_formed(),
            room == (old(forwards).live < old(forwards).limit && old(self)@.bytes + bytes <= MEMORY_BUDGET),
            final(self)@ == (if room {
                Admitted { bytes: old(self)@.bytes + bytes, ..old(self)@ }
            } else {
                old(self)@
            }),
            *final(forwards) == (if room {
                Slots { live: (old(forwards).live + 1) as usize, ..*old(forwards) }
            } else {
                *old(forwards)
            }),
    {
        if !forwards.take() {
            return false;
        }
        if !self.charge(bytes) {
            forwards.release();
            return false;
        }
        true
    }

    /// Give back what [`Self::reserve_forward`] took.
    pub fn release_forward(&mut self, forwards: &mut Slots, bytes: usize)
        requires
            old(self)@.well_formed(),
        ensures
            final(self)@.well_formed(),
            final(self)@ == (Admitted { bytes: less(old(self)@.bytes, bytes as int), ..old(self)@ }),
            *final(forwards) == (Slots {
                live: (if old(forwards).live > 0 { (old(forwards).live - 1) as usize } else { 0 }),
                ..*old(forwards)
            }),
    {
        self.refund(bytes);
        forwards.release();
    }
}

/// How long the next read of a first frame may take, if the frame's deadline has not
/// passed: a deadline on the frame rather than a timeout on each read, which a peer
/// dribbling one byte at a time would never meet.
pub fn arm(expires: u64, now: u64) -> (timeout: Option<u64>)
    ensures
        timeout == (if expires <= now {
            None
        } else if expires - now > LEAST_TIMEOUT {
            Some((expires - now) as u64)
        } else {
            Some(LEAST_TIMEOUT)
        }),
{
    let left = expires.saturating_sub(now);
    if left == 0 {
        None
    } else if left > LEAST_TIMEOUT {
        Some(left)
    } else {
        Some(LEAST_TIMEOUT)
    }
}

/// What a list of sessions reads without reaching the session itself, which is often the
/// one that is busy.
#[derive(Debug)]
pub struct SessionInfo {
    pub command: String,
    /// Empty until something names the session.
    pub name: String,
    pub size: GridSize,
    /// A session is shared rather than owned, so this is a count.
    pub attachments: u16,
    /// Wall clock, because this is printed to a human.
    pub active_unix: u64,
}

/// One line of a list of sessions.
#[derive(Debug)]
pub struct SessionSummary {
    pub session_id: SessionId,
    pub size: GridSize,
    pub attachments: u16,
    pub active_unix: u64,
    pub command: String,
}

/// The name of one session.
#[derive(Debug)]
pub struct SessionName {
    pub session_id: SessionId,
    pub name: String,
}

impl SessionInfo {
    pub fn new(command: String, size: GridSize, now_unix: u64) -> (info: Self)
        ensures
            info.command@ == command@,
            info.name@ == Seq::<char>::empty(),
            info.size == size,
            info.attachments == 0,
            info.active_unix == now_unix,
    {
        SessionInfo { command, name: String::new(), size, attachments: 0, active_unix: now_unix }
    }

    /// Something happened in the session.
    pub fn touch(&mut self, now_unix: u64)
        ensures
            *final(self) == (SessionInfo { active_unix: now_unix, ..*old(self) }),
    {
        self.active_unix = now_unix;
    }

    pub fn resized(&mut self, size: GridSize)
        ensures
            *final(self) == (SessionInfo { size, ..*old(self) }),
    {
        self.size = size;
    }

    /// As many clients as can be counted here.
    pub fn attached(&mut self, count: usize)
        ensures
            *final(self) == (SessionInfo {
                attachments: (if count <= u16::MAX { count as u16 } else { u16::MAX }),
                ..*old(self)
            }),
    {
        self.attachments = if count <= u16::MAX as usize { count as u16 } else { u16::MAX };
    }

    pub fn summarize(&self, session_id: SessionId) -> (summary: SessionSummary)
        ensures
            summary.session_id == session_id,
            summary.size == self.size,
            summary.attachments == self.attachments,
            summary.active_unix == self.active_unix,
            summary.command@ == self.command@,
    {
        SessionSummary {
            session_id,
            size: self.size,
            attachments: self.attachments,
            active_unix: self.active_unix,
            command: self.command.clone(),
        }
    }

    pub fn rename(&mut self, name: String)
        ensures
            *final(self) == (SessionInfo { name, ..*old(self) }),
    {
        self.name = name;
    }

    /// The session's name, where something has named it.
    pub fn named(&self, session_id: SessionId) -> (name: Option<SessionName>)
        ensures
            name is Some <==> self.name@.len() > 0,
            name matches Some(name) ==> name.session_id == session_id && name.name@ == self.name@,
    {
        if self.name.as_str().is_empty() {
            return None;
        }
        Some(SessionName { session_id, name: self.name.clone() })
    }
}

/// A session that never started gives back all it took.
pub proof fn a_session_that_never_started_costs_nothing<H>(registry: Admitted<H>, id: SessionId, kind: SessionKind)
    requires
        registry.well_formed(),
        !registry.starting.dom().contains(id.0),
    ensures
        registry.reserved(id, kind).released(id) == registry,
{
    assert(registry.starting.insert(id.0, kind).remove(id.0) =~= registry.starting);
}

/// The charge travels with the handle and is refunded at the rate its kind costs.
pub proof fn a_session_is_charged_and_refunded_for_what_its_kind_holds<H>(registry: Admitted<H>, id: SessionId, handle: SessionHandle<H>)
    requires
        registry.well_formed(),
        !registry.starting.dom().contains(id.0),
        !registry.sessions.dom().contains(id.0),
    ensures
        ({
            let running = registry.reserved(id, handle.kind).installed(id, handle);
            &&& running.bytes == registry.bytes + handle.kind.charge()
            &&& running.admitted() == registry.admitted() + 1
            &&& running.removed(id) == registry
        }),
{
    let running = registry.reserved(id, handle.kind).installed(id, handle);
    assert(registry.starting.insert(id.0, handle.kind).remove(id.0) =~= registry.starting);
    assert(running.removed(id).sessions =~= registry.sessions);
}

/// However many arrive, no more sessions are admitted than the daemon has room for, and
/// they are charged no more than it will hold.
pub proof fn admissions_cannot_exceed_the_bounds<H>(registry: Admitted<H>, id: SessionId, kind: SessionKind)
    requires
        registry.well_formed(),
        registry.has_room(kind),
    ensures
        registry.reserved(id, kind).admitted() <= SESSION_LIMIT,
        registry.reserved(id, kind).bytes <= MEMORY_BUDGET,
{
}

/// Trading a reservation for a running session moves neither bound.
pub proof fn starting_a_session_moves_no_bound<H>(registry: Admitted<H>, id: SessionId, handle: SessionHandle<H>)
    requires
        registry.well_formed(),
        registry.starting.dom().contains(id.0),
        !registry.sessions.dom().contains(id.0),
    ensures
        registry.installed(id, handle).admitted() == registry.admitted(),
        registry.installed(id, handle).bytes == registry.bytes,
{
}

/// One more session is let in exactly while fewer than sixty-four are held and its own charge
/// fits what is left of half a gibibyte.
pub proof fn room_is_a_count_and_a_quantity<H>(registry: Admitted<H>, kind: SessionKind)
    ensures
        SessionKind::Terminal.charge() == 2 * 8_388_608 + 1_048_576 + 2 * 65_536,
        SessionKind::Forward.charge() == 32 * 32_768,
        registry.admitted() == registry.sessions.dom().len() + registry.starting.dom().len(),
        registry.has_room(kind) <==> registry.admitted() < 64 && registry.bytes + kind.charge() <= 512 * 1_048_576,
{
}

/// A session that is reserved, named, given up or forgotten moves no other, and what it was
/// charged is what is given back.
pub proof fn one_session_moves_no_other<H>(registry: Admitted<H>, id: SessionId, kind: SessionKind, handle: SessionHandle<H>, other: u128)
    requires
        other != id.0,
    ensures
        registry.reserved(id, kind).starting.dom().contains(id.0) && registry.reserved(id, kind).starting[id.0] == kind,
        registry.reserved(id, kind).sessions == registry.sessions,
        registry.reserved(id, kind).bytes - registry.bytes == kind.charge(),
        registry.reserved(id, kind).starting.dom().contains(other) <==> registry.starting.dom().contains(other),
        registry.installed(id, handle).sessions.dom().contains(id.0) && registry.installed(id, handle).sessions[id.0] == handle,
        !registry.installed(id, handle).starting.dom().contains(id.0),
        registry.installed(id, handle).bytes == registry.bytes,
        registry.installed(id, handle).sessions.dom().contains(other) <==> registry.sessions.dom().contains(other),
        !registry.released(id).starting.dom().contains(id.0),
        registry.released(id).sessions == registry.sessions,
        registry.released(id).starting.dom().contains(other) <==> registry.starting.dom().contains(other),
        registry.starting.dom().contains(id.0) && registry.bytes >= registry.starting[id.0].charge() ==> registry.bytes
            - registry.released(id).bytes == registry.starting[id.0].charge(),
        !registry.starting.dom().contains(id.0) ==> registry.released(id) == registry,
        !registry.removed(id).sessions.dom().contains(id.0),
        registry.removed(id).starting == registry.starting,
        registry.removed(id).sessions.dom().contains(other) <==> registry.sessions.dom().contains(other),
        registry.sessions.dom().contains(id.0) && registry.bytes >= registry.sessions[id.0].kind.charge() ==> registry.bytes
            - registry.removed(id).bytes == registry.sessions[id.0].kind.charge(),
        !registry.sessions.dom().contains(id.0) ==> registry.removed(id) == registry,
{
}

} // verus!
