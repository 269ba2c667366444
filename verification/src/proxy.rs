//! The process at the far end of an ssh hop: it finds or starts a daemon and relays to
//! it, and it answers for the daemon where there is none.

use vstd::prelude::*;

use crate::ids::SessionId;
use crate::limits::LENGTH_PREFIX;
use crate::notice::Offer;
use crate::registry::SessionSummary;
use crate::text;
use crate::text::is_white;

verus! {

/// How long a caller that has just started a daemon first waits for it to bind. Backing
/// off from here rather than on a flat grid: a daemon that binds in a millisecond would
/// otherwise go unnoticed for nine.
pub const START_FIRST: u64 = 250_000;

/// The longest of those waits.
pub const START_LONGEST: u64 = 10_000_000;

/// All of them together.
pub const START_BUDGET: u64 = 1_000_000_000;

/// An address of this host.
#[derive(Clone, Copy, Debug)]
pub enum Address {
    V4([u8; 4]),
    V6([u8; 16]),
}

/// Every byte is zero.
pub open spec fn zeroed(bytes: Seq<u8>) -> bool {
    forall|i: int| 0 <= i < bytes.len() ==> #[trigger] bytes[i] == 0
}

fn all_zero(bytes: &[u8]) -> (yes: bool)
    ensures
        yes == zeroed(bytes@),
{
    let mut at: usize = 0;
    while at < bytes.len()
        invariant
            at <= bytes@.len(),
            forall|i: int| 0 <= i < at ==> #[trigger] bytes@[i] == 0,
        decreases bytes@.len() - at,
    {
        if bytes[at] != 0 {
            return false;
        }
        at = at + 1;
    }
    true
}

/// The sixteen bytes an address travels in: an address of four in the mapped range.
pub open spec fn offered(address: Address) -> Seq<u8> {
    match address {
        Address::V4(v4) => seq![
            0u8, 0u8, 0u8, 0u8, 0u8, 0u8, 0u8, 0u8, 0u8, 0u8, 0xffu8, 0xffu8, v4@[0], v4@[1], v4@[2], v4@[3],
        ],
        Address::V6(v6) => v6@,
    }
}

/// Where the first word of `line` at or after `at` begins.
pub open spec fn word_start(line: Seq<char>, at: int) -> int
    decreases line.len() - at,
{
    if at >= line.len() || !text::white(line[at]) { at } else { word_start(line, at + 1) }
}

/// Where the word of `line` that `at` stands in ends.
pub open spec fn word_end(line: Seq<char>, at: int) -> int
    decreases line.len() - at,
{
    if at >= line.len() || text::white(line[at]) { at } else { word_end(line, at + 1) }
}

/// The word of `text` that `skipped` others come before, from `at` on.
pub open spec fn word(text: Seq<char>, at: int, skipped: nat) -> Option<Seq<char>>
    decreases skipped,
{
    let start = word_start(text, at);
    let end = word_end(text, start);
    if start >= text.len() {
        None
    } else if skipped == 0 {
        Some(text.subrange(start, end))
    } else {
        word(text, end, (skipped - 1) as nat)
    }
}

/// The server's own address, as text, out of
/// `"<client ip> <client port> <server ip> <server port>"`.
pub fn reached_address(connection: &str) -> (address: Option<&str>)
    ensures
        address is Some == (word(connection@, 0, 2) is Some),
        address matches Some(text) ==> word(connection@, 0, 2) == Some(text@),
{
    let len = connection.unicode_len();
    let mut at: usize = 0;
    let mut skipped: usize = 0;
    while skipped <= 2
        invariant
            at <= len,
            len == connection@.len(),
            skipped <= 2,
            word(connection@, 0, 2) == word(connection@, at as int, (2 - skipped) as nat),
        decreases 2 - skipped,
    {
        let ghost from = at;
        while at < len && is_white(connection.get_char(at))
            invariant
                from <= at <= len,
                len == connection@.len(),
                word_start(connection@, from as int) == word_start(connection@, at as int),
            decreases len - at,
        {
            at = at + 1;
        }
        if at == len {
            return None;
        }
        let start = at;
        assert(word_start(connection@, from as int) == start);
        while at < len && !is_white(connection.get_char(at))
            invariant
                start <= at <= len,
                len == connection@.len(),
                word_end(connection@, start as int) == word_end(connection@, at as int),
            decreases len - at,
        {
            at = at + 1;
        }
        assert(word_end(connection@, start as int) == at);
        if skipped == 2 {
            return Some(connection.substring_char(start, at));
        }
        skipped = skipped + 1;
    }
    None
}

/// The address a session was reached on, as an offer carries it. A zeroed address is what
/// "not known" already means on the wire, and it is tested before the mapping that would
/// make it something else.
pub fn offer_address(address: Option<Address>) -> (offer: Option<[u8; 16]>)
    ensures
        match address {
            None => offer is None,
            Some(Address::V4(v4)) => offer is None <==> zeroed(v4@),
            Some(Address::V6(v6)) => offer is None <==> zeroed(v6@),
        },
        offer matches Some(bytes) ==> bytes@ == offered(address->0),
{
    match address {
        None => None,
        Some(Address::V4(v4)) => {
            if all_zero(v4.as_slice()) {
                return None;
            }
            let bytes: [u8; 16] = [0, 0, 0, 0, 0, 0, 0, 0, 0, 0, 0xff, 0xff, v4[0], v4[1], v4[2], v4[3]];
            assert(bytes@ =~= offered(Address::V4(v4)));
            Some(bytes)
        },
        Some(Address::V6(v6)) => {
            if all_zero(v6.as_slice()) {
                return None;
            }
            Some(v6)
        },
    }
}

/// What a daemon answered the first message of a hop with.
#[derive(Clone, Copy, Debug, PartialEq, Eq)]
pub enum DaemonReply {
    /// The greeting of a session over a terminal.
    Hello { offer: Option<Offer> },
    /// Anything else, and what could not be read.
    Other,
}

/// What a hop does with that answer.
#[derive(Clone, Copy, Debug, PartialEq, Eq)]
pub enum Readdress {
    /// Write it again, with this offer and the rest of it as it was.
    Rewrite { offer: Option<Offer> },
    /// Relay it byte for byte.
    Verbatim,
}

/// What a hop reached on `reached` does with `reply`. An offer whose address is not known is
/// no offer.
pub open spec fn readdressed(reply: DaemonReply, reached: Option<[u8; 16]>) -> Readdress {
    match reply {
        DaemonReply::Hello { offer: Some(offer) } => Readdress::Rewrite {
            offer: match reached {
                Some(ip) => Some(Offer { ip, ..offer }),
                None => None,
            },
        },
        _ => Readdress::Verbatim,
    }
}

/// Put the address the client reached into the daemon's offer: the daemon holds one socket
/// and no idea which of this host's addresses a session arrived on, and this process is the
/// only part of the system that was told.
pub fn addressed_offer(reply: DaemonReply, reached: Option<[u8; 16]>) -> (what: Readdress)
    ensures
        what == readdressed(reply, reached),
{
    match reply {
        DaemonReply::Hello { offer: Some(offer) } => Readdress::Rewrite {
            offer: match reached {
                Some(ip) => Some(Offer { ip, port: offer.port, cid: offer.cid, secret: offer.secret }),
                None => None,
            },
        },
        _ => Readdress::Verbatim,
    }
}

/// The payload a hop answers with: that of the frame a rewritten greeting was encoded into,
/// or the daemon's own where there is none or it holds nothing.
pub fn relayed(response: Vec<u8>, refilled: Option<Vec<u8>>) -> (payload: Vec<u8>)
    ensures
        payload@ == (match refilled {
            Some(frame) => if frame@.len() > LENGTH_PREFIX {
                frame@.skip(LENGTH_PREFIX as int)
            } else {
                response@
            },
            None => response@,
        }),
{
    match refilled {
        Some(frame) => {
            if frame.len() <= LENGTH_PREFIX {
                return response;
            }
            let mut frame = frame;
            frame.split_off(LENGTH_PREFIX)
        },
        None => response,
    }
}

/// Nothing but a greeting that carries an offer is written again, and nothing of the offer
/// but its address: that becomes the one the session was reached on, and without one there
/// is no offer.
pub proof fn only_the_address_of_an_offer_is_rewritten(reply: DaemonReply, reached: Option<[u8; 16]>)
    ensures
        readdressed(reply, reached) is Rewrite <==> reply matches DaemonReply::Hello { offer: Some(_) },
        readdressed(reply, reached) matches Readdress::Rewrite { offer } ==> {
            &&& offer is Some <==> reached is Some
            &&& offer is Some ==> {
                &&& Some((offer->0).ip) == reached
                &&& (offer->0).port == (reply->offer->0).port
                &&& (offer->0).cid == (reply->offer->0).cid
                &&& (offer->0).secret == (reply->offer->0).secret
            }
        },
{
}

/// An address that is known is never sent as the zeroes that mean it is not.
pub proof fn a_known_address_is_never_zeroed(address: Address)
    ensures
        match address {
            Address::V4(_) => !zeroed(offered(address)),
            Address::V6(v6) => zeroed(offered(address)) <==> zeroed(v6@),
        },
{
    if let Address::V4(_) = address {
        assert(offered(address)[10] == 0xffu8);
    }
}

/// When something about a session last happened, and which session it was.
#[derive(Clone, Copy, Debug)]
pub struct Recent {
    pub active_unix: u64,
    pub session_id: SessionId,
}

/// `a` comes no later than `b` in a list of the newest first. Ties are broken by
/// identifier, so the answer never depends on the order of a hash map.
pub open spec fn no_later(a: Recent, b: Recent) -> bool {
    a.active_unix > b.active_unix || (a.active_unix == b.active_unix && a.session_id.0 <= b.session_id.0)
}

/// Something that can be listed by how recent it is.
pub trait Dated {
    spec fn dated(&self) -> Recent;

    fn recent(&self) -> (recent: Recent)
        ensures
            recent == self.dated(),
    ;
}

impl Dated for SessionSummary {
    open spec fn dated(&self) -> Recent {
        Recent { active_unix: self.active_unix, session_id: self.session_id }
    }

    fn recent(&self) -> (recent: Recent) {
        Recent { active_unix: self.active_unix, session_id: self.session_id }
    }
}

impl Dated for Recent {
    open spec fn dated(&self) -> Recent {
        *self
    }

    fn recent(&self) -> (recent: Recent) {
        *self
    }
}

/// `entries` are in the order of a list.
pub open spec fn listed<T: Dated>(entries: Seq<T>) -> bool {
    forall|i: int, j: int| 0 <= i < j < entries.len() ==> no_later(#[trigger] entries[i].dated(), #[trigger] entries[j].dated())
}

/// Put `entries` in the order of a list.
pub fn newest_first<T: Dated>(entries: Vec<T>) -> (sorted: Vec<T>)
    ensures
        listed(sorted@),
        sorted@.to_multiset() == entries@.to_multiset(),
        sorted@.len() == entries@.len(),
{
    let mut rest = entries;
    let mut sorted: Vec<T> = Vec::new();
    let ghost all = rest@;
    proof {
        broadcast use vstd::seq_lib::group_to_multiset_ensures;

        assert(Seq::<T>::empty().to_multiset() =~= vstd::multiset::Multiset::empty());
        assert(all.to_multiset().add(Seq::<T>::empty().to_multiset()) =~= all.to_multiset());
    }
    while rest.len() > 0
        invariant
            listed(sorted@),
            rest@.to_multiset().add(sorted@.to_multiset()) == all.to_multiset(),
            rest@.len() + sorted@.len() == all.len(),
        decreases rest@.len(),
    {
        let ghost before = sorted@;
        let ghost left = rest@;
        let entry = rest.remove(rest.len() - 1);
        let recent = entry.recent();
        let mut at: usize = 0;
        while at < sorted.len() && earlier(&sorted[at].recent(), &recent)
            invariant
                at <= sorted@.len(),
                forall|i: int| 0 <= i < at ==> no_later(#[trigger] sorted@[i].dated(), recent),
            decreases sorted@.len() - at,
        {
            at = at + 1;
        }
        proof {
            broadcast use vstd::seq_lib::group_to_multiset_ensures;

            assert(left =~= rest@.push(entry));
            assert(rest@.push(entry).to_multiset() =~= rest@.to_multiset().insert(entry));
            vstd::seq_lib::to_multiset_insert(before, at as int, entry);
            assert(before.insert(at as int, entry).to_multiset() =~= before.to_multiset().insert(entry));
            assert(rest@.to_multiset().insert(entry).add(before.to_multiset()) =~= rest@.to_multiset().add(
                before.to_multiset().insert(entry),
            ));
        }
        sorted.insert(at, entry);
        proof {
            assert(sorted@ =~= before.insert(at as int, entry));
            assert forall|i: int, j: int| 0 <= i < j < sorted@.len() implies no_later(
                #[trigger] sorted@[i].dated(),
                #[trigger] sorted@[j].dated(),
            ) by {
                let a = if i < at { i } else { i - 1 };
                let b = if j < at { j } else { j - 1 };
                if i == at {
                    assert(sorted@[j] == before[b]);
                    assert(no_later(before[at as int].dated(), before[b].dated()) || b == at);
                    assert(!no_later(before[at as int].dated(), recent) || no_later(recent, before[at as int].dated()));
                } else if j == at {
                    assert(sorted@[i] == before[a]);
                } else {
                    assert(sorted@[i] == before[a] && sorted@[j] == before[b]);
                }
            }
        }
    }
    proof {
        broadcast use vstd::seq_lib::group_to_multiset_ensures;

        assert(rest@ =~= Seq::empty());
        assert(Seq::<T>::empty().to_multiset() =~= vstd::multiset::Multiset::empty());
        assert(vstd::multiset::Multiset::<T>::empty().add(sorted@.to_multiset()) =~= sorted@.to_multiset());
    }
    sorted
}

fn earlier(a: &Recent, b: &Recent) -> (yes: bool)
    ensures
        yes == no_later(*a, *b),
{
    a.active_unix > b.active_unix || (a.active_unix == b.active_unix && a.session_id.0 <= b.session_id.0)
}

/// A list does not depend on the order it was gathered in: the same sessions are listed the
/// same way.
pub proof fn a_list_does_not_depend_on_the_order_it_was_gathered_in<T: Dated>(a: Seq<T>, b: Seq<T>)
    requires
        listed(a),
        listed(b),
        a.to_multiset() == b.to_multiset(),
        forall|i: int, j: int| 0 <= i < j < a.len() ==> #[trigger] a[i].dated().session_id != #[trigger] a[j].dated().session_id,
    ensures
        a == b,
    decreases a.len(),
{
    a.to_multiset_ensures();
    b.to_multiset_ensures();
    if a.len() == 0 {
        assert(a =~= b);
    } else {
        let first = a[0];
        let other = b[0];
        assert(a.to_multiset().count(first) > 0) by {
            assert(a.contains(first));
        }
        assert(b.contains(first));
        assert(b.to_multiset().count(other) > 0) by {
            assert(b.contains(other));
        }
        assert(a.contains(other));
        let j = choose|j: int| 0 <= j < b.len() && b[j] == first;
        let k = choose|k: int| 0 <= k < a.len() && a[k] == other;
        if k > 0 {
            assert(no_later(a[0].dated(), a[k].dated()));
            if j > 0 {
                assert(no_later(b[0].dated(), b[j].dated()));
            }
            assert(a[0].dated().session_id != a[k].dated().session_id);
        }
        assert(first == other);
        let rest_a = a.drop_first();
        let rest_b = b.drop_first();
        assert(a =~= seq![first] + rest_a);
        assert(b =~= seq![first] + rest_b);
        vstd::seq_lib::lemma_multiset_commutative(seq![first], rest_a);
        vstd::seq_lib::lemma_multiset_commutative(seq![first], rest_b);
        assert(rest_a.to_multiset() =~= rest_b.to_multiset()) by {
            assert forall|x: T| rest_a.to_multiset().count(x) == rest_b.to_multiset().count(x) by {
                assert(a.to_multiset().count(x) == seq![first].to_multiset().count(x) + rest_a.to_multiset().count(x));
                assert(b.to_multiset().count(x) == seq![first].to_multiset().count(x) + rest_b.to_multiset().count(x));
            }
        }
        assert(listed(rest_a)) by {
            assert forall|i: int, j: int| 0 <= i < j < rest_a.len() implies no_later(#[trigger] rest_a[i].dated(), #[trigger] rest_a[j].dated()) by {
                assert(no_later(a[i + 1].dated(), a[j + 1].dated()));
            }
        }
        assert(listed(rest_b)) by {
            assert forall|i: int, j: int| 0 <= i < j < rest_b.len() implies no_later(#[trigger] rest_b[i].dated(), #[trigger] rest_b[j].dated()) by {
                assert(no_later(b[i + 1].dated(), b[j + 1].dated()));
            }
        }
        assert forall|i: int, j: int| 0 <= i < j < rest_a.len() implies #[trigger] rest_a[i].dated().session_id != #[trigger] rest_a[j].dated().session_id by {
            assert(a[i + 1].dated().session_id != a[j + 1].dated().session_id);
        }
        a_list_does_not_depend_on_the_order_it_was_gathered_in(rest_a, rest_b);
    }
}

/// `list` is the newest `max` of `gathered`, newest first.
pub open spec fn newest_of(list: Seq<SessionSummary>, gathered: Seq<SessionSummary>, max: usize) -> bool {
    exists|sorted: Seq<SessionSummary>| #[trigger] listed(sorted) && sorted.to_multiset() == gathered.to_multiset() && list
        == sorted.take(if max < sorted.len() { max as int } else { sorted.len() as int })
}

/// The newest `max` of `summaries`.
pub fn session_list(summaries: Vec<SessionSummary>, max: usize) -> (list: Vec<SessionSummary>)
    ensures
        newest_of(list@, summaries@, max),
{
    let mut list = newest_first(summaries);
    let ghost sorted = list@;
    if max < list.len() {
        list.truncate(max);
    }
    assert(list@ =~= sorted.take(if max < sorted.len() { max as int } else { sorted.len() as int }));
    assert(listed(sorted));
    list
}

/// What was found on the daemon's socket. Only a socket nothing is listening on is a
/// candidate for unlinking.
#[derive(Clone, Copy, Debug, PartialEq, Eq, Structural)]
pub enum Probe {
    Answered,
    /// Nothing there, or a connection the kernel refused outright.
    Unanswered,
    /// The attempt failed for a reason that says nothing about the daemon.
    Unknown,
}

/// What is on the socket's path.
#[derive(Clone, Copy, Debug, PartialEq, Eq, Structural)]
pub enum Inode {
    Missing,
    Unreadable,
    /// It belongs to another user.
    Foreign,
    Own,
}

/// How a connection to it went.
#[derive(Clone, Copy, Debug, PartialEq, Eq, Structural)]
pub enum Connect {
    Connected,
    NotFound,
    Refused,
    Failed,
}

/// What the path says before a connection is tried, if it says anything.
pub fn probe_inode(inode: Inode) -> (found: Option<Probe>)
    ensures
        found == (match inode {
            Inode::Missing => Some(Probe::Unanswered),
            Inode::Unreadable => Some(Probe::Unknown),
            // Not this user's daemon, and so not this user's to unlink either.
            Inode::Foreign => Some(Probe::Unknown),
            Inode::Own => None,
        }),
{
    match inode {
        Inode::Missing => Some(Probe::Unanswered),
        Inode::Unreadable => Some(Probe::Unknown),
        Inode::Foreign => Some(Probe::Unknown),
        Inode::Own => None,
    }
}

/// What a caller that means to use the daemon does with its socket's path.
#[derive(Clone, Copy, Debug, PartialEq, Eq, Structural)]
pub enum Approach {
    /// There is no daemon.
    Absent,
    /// Connect, and take a connection that fails for no daemon.
    Connect,
    /// Fail: another user's socket would be handed the whole session.
    Foreign,
    /// Fail, for the reason the path could not be read.
    Unreadable,
}

/// Whether a daemon's socket is connected to. What the path is comes first: it can stand in
/// a directory others may write to.
pub fn connect_in_private_dir(inode: Inode) -> (approach: Approach)
    ensures
        approach == (match inode {
            Inode::Missing => Approach::Absent,
            Inode::Unreadable => Approach::Unreadable,
            Inode::Foreign => Approach::Foreign,
            Inode::Own => Approach::Connect,
        }),
{
    match inode {
        Inode::Missing => Approach::Absent,
        Inode::Unreadable => Approach::Unreadable,
        Inode::Foreign => Approach::Foreign,
        Inode::Own => Approach::Connect,
    }
}

/// What a connection says.
pub fn open_daemon_socket(connect: Connect) -> (found: Probe)
    ensures
        found == (match connect {
            Connect::Connected => Probe::Answered,
            Connect::NotFound => Probe::Unanswered,
            Connect::Refused => Probe::Unanswered,
            Connect::Failed => Probe::Unknown,
        }),
{
    match connect {
        Connect::Connected => Probe::Answered,
        Connect::NotFound => Probe::Unanswered,
        Connect::Refused => Probe::Unanswered,
        Connect::Failed => Probe::Unknown,
    }
}

/// Why a daemon could not be asked.
#[derive(Clone, Copy, Debug, PartialEq, Eq, Structural)]
pub enum Silence {
    NotPrivate,
    NotOpened,
    NotAnswered,
    KillNotAnswered,
}

/// What asking a daemon needs next.
#[derive(Debug)]
pub enum AskStep {
    /// Prove the state directory private: someone else's daemon may be holding sessions.
    ProvePrivate,
    Probe,
    /// Take the daemon's own lock, which is what tells a dead inode from a daemon that is
    /// merely busy.
    TakeLock,
    Unlink,
    List,
    Kill(SessionId),
    /// The answer.
    Sessions(Vec<SessionSummary>),
    /// A host that never started a daemon holds nothing.
    Absent,
    /// A daemon that could not be asked holds an unknown number, and the two must not
    /// look alike.
    Silent(Silence),
}

/// What became of the step asked for last.
#[derive(Debug)]
pub enum AskEvent {
    Private(bool),
    Found(Probe),
    Locked(bool),
    Unlinked,
    /// The daemon answered with the sessions it holds.
    Listed(Vec<SessionSummary>),
    NoAnswer,
}

/// `wanted` is among `sessions`.
pub open spec fn holds(sessions: Seq<SessionSummary>, wanted: SessionId) -> bool {
    exists|i: int| 0 <= i < sessions.len() && (#[trigger] sessions[i]).session_id == wanted
}

/// What follows `event`, the answer to `asked`, before a list is put in order.
pub open spec fn ask_after(asked: AskStep, event: AskEvent, kill: Option<SessionId>) -> AskStep {
    match (asked, event) {
        (AskStep::ProvePrivate, AskEvent::Private(true)) => AskStep::Probe,
        (AskStep::ProvePrivate, _) => AskStep::Silent(Silence::NotPrivate),
        (AskStep::Probe, AskEvent::Found(Probe::Answered)) => AskStep::List,
        (AskStep::Probe, AskEvent::Found(Probe::Unanswered)) => AskStep::TakeLock,
        (AskStep::TakeLock, AskEvent::Locked(true)) => AskStep::Unlink,
        (AskStep::TakeLock, _) => AskStep::Absent,
        (AskStep::Unlink, _) => AskStep::Absent,
        (AskStep::List, AskEvent::Listed(sessions)) => match kill {
            Some(wanted) => if holds(sessions@, wanted) { AskStep::Kill(wanted) } else { AskStep::Sessions(sessions) },
            None => AskStep::Sessions(sessions),
        },
        (AskStep::List, _) => AskStep::Silent(Silence::NotAnswered),
        (AskStep::Kill(_), AskEvent::Listed(remaining)) => AskStep::Sessions(remaining),
        (AskStep::Kill(_), _) => AskStep::Silent(Silence::KillNotAnswered),
        _ => AskStep::Silent(Silence::NotOpened),
    }
}

fn is_held(sessions: &Vec<SessionSummary>, wanted: SessionId) -> (yes: bool)
    ensures
        yes == holds(sessions@, wanted),
{
    let mut at: usize = 0;
    while at < sessions.len()
        invariant
            at <= sessions@.len(),
            forall|i: int| 0 <= i < at ==> (#[trigger] sessions@[i]).session_id != wanted,
        decreases sessions@.len() - at,
    {
        if sessions[at].session_id == wanted {
            assert(sessions@[at as int].session_id == wanted);
            return true;
        }
        at = at + 1;
    }
    false
}

/// Ask a daemon for its sessions, killing one of them first where it holds it. The answer
/// is the newest `max` of them.
pub fn ask_daemon(asked: AskStep, event: AskEvent, kill: Option<SessionId>, max: usize) -> (next: AskStep)
    ensures
        match ask_after(asked, event, kill) {
            AskStep::Sessions(gathered) => next is Sessions && newest_of(next->Sessions_0@, gathered@, max),
            after => next == after,
        },
{
    match (asked, event) {
        (AskStep::ProvePrivate, AskEvent::Private(true)) => AskStep::Probe,
        (AskStep::ProvePrivate, _) => AskStep::Silent(Silence::NotPrivate),
        (AskStep::Probe, AskEvent::Found(Probe::Answered)) => AskStep::List,
        (AskStep::Probe, AskEvent::Found(Probe::Unanswered)) => AskStep::TakeLock,
        (AskStep::TakeLock, AskEvent::Locked(true)) => AskStep::Unlink,
        (AskStep::TakeLock, _) => AskStep::Absent,
        (AskStep::Unlink, _) => AskStep::Absent,
        (AskStep::List, AskEvent::Listed(sessions)) => {
            if let Some(wanted) = kill {
                if is_held(&sessions, wanted) {
                    return AskStep::Kill(wanted);
                }
            }
            AskStep::Sessions(session_list(sessions, max))
        },
        (AskStep::List, _) => AskStep::Silent(Silence::NotAnswered),
        (AskStep::Kill(_), AskEvent::Listed(remaining)) => AskStep::Sessions(session_list(remaining, max)),
        (AskStep::Kill(_), _) => AskStep::Silent(Silence::KillNotAnswered),
        _ => AskStep::Silent(Silence::NotOpened),
    }
}

/// A socket is unlinked only where nothing answers on it and nothing holds the daemon's
/// lock: a live daemon keeps that lock for its whole life, so a socket unlinked under it
/// could never be bound again.
pub proof fn only_a_socket_nothing_answers_is_unlinked(asked: AskStep, event: AskEvent, kill: Option<SessionId>)
    ensures
        ask_after(asked, event, kill) is Unlink ==> asked is TakeLock && event == AskEvent::Locked(true),
        ask_after(asked, event, kill) is TakeLock ==> asked is Probe && event == AskEvent::Found(Probe::Unanswered),
        ask_after(asked, event, kill) is Absent ==> asked is TakeLock || asked is Unlink,
{
}

/// A session is killed only where the daemon said it holds it, and none but the one asked
/// for.
pub proof fn only_a_session_the_daemon_holds_is_killed(asked: AskStep, event: AskEvent, kill: Option<SessionId>)
    ensures
        ask_after(asked, event, kill) matches AskStep::Kill(named) ==> kill == Some(named) && asked is List && event is Listed
            && holds(event->Listed_0@, named),
{
}

/// How the process at the end of an ssh hop serves what it is asked.
#[derive(Clone, Copy, Debug, PartialEq, Eq, Structural)]
pub enum ServerStep {
    /// Read the next message.
    ReadMessage,
    /// Ask the daemon, and answer with its list.
    Manage(Option<SessionId>),
    /// Answer with the daemon's list, or with none where there is no daemon.
    AnswerList,
    /// Connect to a daemon if there is one: a question is not a reason to start one.
    Connect,
    /// Answer a search over nothing.
    AnswerEmptySearch,
    /// Connect to a daemon, starting one where there is none.
    ConnectOrStart,
    /// Hand the message over and relay both ways.
    Relay,
    Done,
    Fail,
}

/// What a message asks for.
#[derive(Clone, Copy, Debug, PartialEq, Eq, Structural)]
pub enum Asked {
    List,
    Kill(SessionId),
    Search,
    /// Anything else is the daemon's to answer.
    Other,
}

/// What became of the step asked for last.
#[derive(Clone, Copy, Debug, PartialEq, Eq, Structural)]
pub enum ServerEvent {
    Message(Asked),
    /// The far end hung up.
    HungUp,
    /// The daemon answered, or there is none; or it is silent.
    Managed { answered: bool },
    Answered(bool),
    Connected(bool),
    /// The step failed for a reason of this host.
    Failed,
}

/// What follows `event`, the answer to `asked`. `first` is whether no message has been
/// answered yet.
pub open spec fn server_after(asked: ServerStep, event: ServerEvent, first: bool) -> ServerStep {
    match (asked, event) {
        (ServerStep::ReadMessage, ServerEvent::Message(Asked::List)) => ServerStep::Manage(None),
        (ServerStep::ReadMessage, ServerEvent::Message(Asked::Kill(session_id))) => ServerStep::Manage(Some(session_id)),
        (ServerStep::ReadMessage, ServerEvent::Message(Asked::Search)) => ServerStep::Connect,
        (ServerStep::ReadMessage, ServerEvent::Message(Asked::Other)) => ServerStep::ConnectOrStart,
        // A connection that asked about sessions stays one that does until it hangs up.
        (ServerStep::ReadMessage, ServerEvent::HungUp) => if first { ServerStep::Fail } else { ServerStep::Done },
        (ServerStep::Manage(_), ServerEvent::Managed { answered: true }) => ServerStep::AnswerList,
        (ServerStep::AnswerList, ServerEvent::Answered(true)) => ServerStep::ReadMessage,
        (ServerStep::Connect, ServerEvent::Connected(true)) => ServerStep::Relay,
        (ServerStep::Connect, ServerEvent::Connected(false)) => ServerStep::AnswerEmptySearch,
        (ServerStep::AnswerEmptySearch, ServerEvent::Answered(true)) => ServerStep::Done,
        (ServerStep::ConnectOrStart, ServerEvent::Connected(true)) => ServerStep::Relay,
        (ServerStep::Relay, ServerEvent::HungUp) => ServerStep::Done,
        _ => ServerStep::Fail,
    }
}

/// Serve the far end of an ssh hop.
pub fn run_server(asked: ServerStep, event: ServerEvent, first: bool) -> (next: ServerStep)
    ensures
        next == server_after(asked, event, first),
{
    match (asked, event) {
        (ServerStep::ReadMessage, ServerEvent::Message(message)) => match message {
            Asked::List => ServerStep::Manage(None),
            Asked::Kill(session_id) => ServerStep::Manage(Some(session_id)),
            Asked::Search => ServerStep::Connect,
            Asked::Other => ServerStep::ConnectOrStart,
        },
        (ServerStep::ReadMessage, ServerEvent::HungUp) => if first { ServerStep::Fail } else { ServerStep::Done },
        (ServerStep::Manage(_), ServerEvent::Managed { answered: true }) => ServerStep::AnswerList,
        (ServerStep::AnswerList, ServerEvent::Answered(true)) => ServerStep::ReadMessage,
        (ServerStep::Connect, ServerEvent::Connected(reached)) => if reached {
            ServerStep::Relay
        } else {
            ServerStep::AnswerEmptySearch
        },
        (ServerStep::AnswerEmptySearch, ServerEvent::Answered(true)) => ServerStep::Done,
        (ServerStep::ConnectOrStart, ServerEvent::Connected(true)) => ServerStep::Relay,
        (ServerStep::Relay, ServerEvent::HungUp) => ServerStep::Done,
        _ => ServerStep::Fail,
    }
}

/// A daemon is started only for a message that needs one, and a daemon that did not answer
/// is never reported as one holding nothing.
pub proof fn a_question_starts_no_daemon_and_silence_is_a_failure(asked: ServerStep, event: ServerEvent, first: bool)
    ensures
        server_after(asked, event, first) == ServerStep::ConnectOrStart ==> event == ServerEvent::Message(Asked::Other),
        (asked matches ServerStep::Manage(_) && event == (ServerEvent::Managed { answered: false })) ==> server_after(
            asked,
            event,
            first,
        ) == ServerStep::Fail,
{
}

/// Waiting for a daemon that was just started.
#[derive(Clone, Copy, Debug)]
pub struct Starting {
    pub nap: u64,
    pub waited: u64,
}

impl Starting {
    pub open spec fn well_formed(self) -> bool {
        START_FIRST <= self.nap <= START_LONGEST && self.waited <= START_BUDGET + START_LONGEST
    }

    pub fn new() -> (starting: Self)
        ensures
            starting == (Starting { nap: START_FIRST, waited: 0 }),
            starting.well_formed(),
    {
        Starting { nap: START_FIRST, waited: 0 }
    }

    /// How long to sleep before the next attempt, while there is time left for one.
    pub fn next_nap(&mut self) -> (nap: Option<u64>)
        requires
            old(self).well_formed(),
        ensures
            final(self).well_formed(),
            nap == (if old(self).waited < START_BUDGET { Some(old(self).nap) } else { None }),
            *final(self) == (if old(self).waited < START_BUDGET {
                Starting {
                    waited: (old(self).waited + old(self).nap) as u64,
                    nap: (if old(self).nap * 2 < START_LONGEST { (old(self).nap * 2) as u64 } else { START_LONGEST }),
                }
            } else {
                *old(self)
            }),
    {
        if self.waited >= START_BUDGET {
            return None;
        }
        let nap = self.nap;
        self.waited = self.waited + nap;
        let doubled: u64 = nap * 2;
        self.nap = if doubled < START_LONGEST { doubled } else { START_LONGEST };
        Some(nap)
    }
}

/// No character of `text` is white space, and there is one.
pub open spec fn is_word(text: Seq<char>) -> bool {
    text.len() > 0 && forall|i: int| 0 <= i < text.len() ==> !text::white(#[trigger] text[i])
}

/// White space, and some of it.
pub open spec fn is_gap(text: Seq<char>) -> bool {
    text.len() > 0 && forall|i: int| 0 <= i < text.len() ==> text::white(#[trigger] text[i])
}

proof fn lemma_word_start(line: Seq<char>, at: int, end: int)
    requires
        0 <= at <= end <= line.len(),
        forall|i: int| at <= i < end ==> text::white(#[trigger] line[i]),
        end == line.len() || !text::white(line[end]),
    ensures
        word_start(line, at) == end,
    decreases end - at,
{
    if at < end {
        lemma_word_start(line, at + 1, end);
    }
}

proof fn lemma_word_end(line: Seq<char>, at: int, end: int)
    requires
        0 <= at <= end <= line.len(),
        forall|i: int| at <= i < end ==> !text::white(#[trigger] line[i]),
        end == line.len() || text::white(line[end]),
    ensures
        word_end(line, at) == end,
    decreases end - at,
{
    if at < end {
        lemma_word_end(line, at + 1, end);
    }
}

proof fn lemma_next_word(line: Seq<char>, at: int, from: int, to: int, skipped: nat)
    requires
        0 <= at <= from < to <= line.len(),
        forall|i: int| at <= i < from ==> text::white(#[trigger] line[i]),
        forall|i: int| from <= i < to ==> !text::white(#[trigger] line[i]),
        to == line.len() || text::white(line[to]),
    ensures
        skipped == 0 ==> word(line, at, skipped) == Some(line.subrange(from, to)),
        skipped > 0 ==> word(line, at, skipped) == word(line, to, (skipped - 1) as nat),
{
    lemma_word_start(line, at, from);
    lemma_word_end(line, from, to);
}

/// The address of the server is the third word of the line, whichever the others are, however
/// far they stand apart and whatever follows it.
pub proof fn the_third_word_is_the_servers_address(client: Seq<char>, first: Seq<char>, port: Seq<char>, second: Seq<char>, server: Seq<char>, rest: Seq<char>)
    requires
        is_word(client),
        is_gap(first),
        is_word(port),
        is_gap(second),
        is_word(server),
        rest.len() == 0 || text::white(rest[0]),
    ensures
        word(client + first + port + second + server + rest, 0, 2) == Some(server),
{
    let line = client + first + port + second + server + rest;
    let a = client.len() as int;
    let b = a + first.len();
    let c = b + port.len();
    let d = c + second.len();
    let e = d + server.len();
    assert forall|i: int| 0 <= i < a implies !text::white(#[trigger] line[i]) by {
        assert(line[i] == client[i]);
    }
    assert forall|i: int| a <= i < b implies text::white(#[trigger] line[i]) by {
        assert(line[i] == first[i - a]);
    }
    assert forall|i: int| b <= i < c implies !text::white(#[trigger] line[i]) by {
        assert(line[i] == port[i - b]);
    }
    assert forall|i: int| c <= i < d implies text::white(#[trigger] line[i]) by {
        assert(line[i] == second[i - c]);
    }
    assert forall|i: int| d <= i < e implies !text::white(#[trigger] line[i]) by {
        assert(line[i] == server[i - d]);
    }
    if rest.len() > 0 {
        assert(line[e] == rest[0]);
    }
    lemma_next_word(line, 0, 0, a, 2);
    lemma_next_word(line, a, b, c, 1);
    lemma_next_word(line, c, d, e, 0);
    assert(line.subrange(d, e) =~= server);
}

/// A line of two words names no address.
pub proof fn two_words_name_no_address(client: Seq<char>, gap: Seq<char>, port: Seq<char>)
    requires
        is_word(client),
        is_gap(gap),
        is_word(port),
    ensures
        word(client + gap + port, 0, 2) is None,
{
    let line = client + gap + port;
    let a = client.len() as int;
    let b = a + gap.len();
    assert forall|i: int| 0 <= i < a implies !text::white(#[trigger] line[i]) by {
        assert(line[i] == client[i]);
    }
    assert forall|i: int| a <= i < b implies text::white(#[trigger] line[i]) by {
        assert(line[i] == gap[i - a]);
    }
    assert forall|i: int| b <= i < line.len() implies !text::white(#[trigger] line[i]) by {
        assert(line[i] == port[i - b]);
    }
    lemma_next_word(line, 0, 0, a, 2);
    lemma_next_word(line, a, b, line.len() as int, 1);
    lemma_word_start(line, line.len() as int, line.len() as int);
}

/// An address of sixteen bytes travels as it is; one of four in the last four of sixteen,
/// behind two of all ones and ten zeroes.
pub proof fn an_address_travels_in_sixteen_bytes(address: Address)
    ensures
        offered(address).len() == 16,
        address matches Address::V6(v6) ==> offered(address) == v6@,
        address matches Address::V4(v4) ==> {
            &&& offered(address).skip(12) == v4@
            &&& offered(address)[10] == 255 && offered(address)[11] == 255
            &&& forall|i: int| 0 <= i < 10 ==> #[trigger] offered(address)[i] == 0
        },
{
    if let Address::V4(v4) = address {
        assert(offered(address).skip(12) =~= v4@);
    }
}

/// In a list a session comes before another where something happened in it later, and among
/// those where it happened at the same time, where its number is smaller.
pub proof fn a_list_is_newest_first<T: Dated>(entries: Seq<T>, i: int, j: int)
    requires
        listed(entries),
        0 <= i < j < entries.len(),
    ensures
        entries[i].dated().active_unix >= entries[j].dated().active_unix,
        entries[i].dated().active_unix == entries[j].dated().active_unix ==> entries[i].dated().session_id.0
            <= entries[j].dated().session_id.0,
{
    assert(no_later(entries[i].dated(), entries[j].dated()));
}

/// A daemon is asked only behind a directory proved private and a socket that answers; a host
/// without one is told so only where nothing answered and its lock said no more. A list is
/// the daemon's own, taken after the kill where there was one to kill, and every silence says
/// at which step it fell.
pub proof fn a_daemon_is_asked_one_step_after_the_other(event: AskEvent, kill: Option<SessionId>, named: SessionId)
    ensures
        event == AskEvent::Private(true) ==> ask_after(AskStep::ProvePrivate, event, kill) is Probe,
        event != AskEvent::Private(true) ==> ask_after(AskStep::ProvePrivate, event, kill) == AskStep::Silent(
            Silence::NotPrivate,
        ),
        event == AskEvent::Found(Probe::Answered) ==> ask_after(AskStep::Probe, event, kill) is List,
        event == AskEvent::Found(Probe::Unanswered) ==> ask_after(AskStep::Probe, event, kill) is TakeLock,
        event == AskEvent::Found(Probe::Unknown) ==> ask_after(AskStep::Probe, event, kill) == AskStep::Silent(
            Silence::NotOpened,
        ),
        event == AskEvent::Locked(true) ==> ask_after(AskStep::TakeLock, event, kill) is Unlink,
        event != AskEvent::Locked(true) ==> ask_after(AskStep::TakeLock, event, kill) is Absent,
        ask_after(AskStep::Unlink, event, kill) is Absent,
        event matches AskEvent::Listed(sessions) ==> {
            let held = exists|i: int| 0 <= i < sessions@.len() && (#[trigger] sessions@[i]).session_id == kill->0;
            &&& kill is Some && held ==> ask_after(AskStep::List, event, kill) == AskStep::Kill(kill->0)
            &&& kill is None || !held ==> ask_after(AskStep::List, event, kill) == AskStep::Sessions(sessions)
            &&& ask_after(AskStep::Kill(named), event, kill) == AskStep::Sessions(sessions)
        },
        !(event is Listed) ==> ask_after(AskStep::List, event, kill) == AskStep::Silent(Silence::NotAnswered),
        !(event is Listed) ==> ask_after(AskStep::Kill(named), event, kill) == AskStep::Silent(Silence::KillNotAnswered),
{
}

/// Whether `event` is an answer to `asked`.
pub open spec fn server_answers(asked: ServerStep, event: ServerEvent) -> bool {
    match asked {
        ServerStep::ReadMessage => event is Message || event is HungUp || event is Failed,
        ServerStep::Manage(_) => event is Managed || event is Failed,
        ServerStep::AnswerList => event is Answered || event is Failed,
        ServerStep::Connect => event is Connected || event is Failed,
        ServerStep::AnswerEmptySearch => event is Answered || event is Failed,
        ServerStep::ConnectOrStart => event is Connected || event is Failed,
        ServerStep::Relay => event is HungUp || event is Failed,
        ServerStep::Done => false,
        ServerStep::Fail => false,
    }
}

/// A list and a kill are answered with the daemon's list, and then the next message is read; a
/// search is relayed to a daemon that runs, and answered with nothing where none does; anything
/// else is relayed, to a daemon started for it if need be. A far end that hangs up is done with
/// once it asked something.
pub proof fn a_hop_answers_what_it_is_asked(asked: ServerStep, event: ServerEvent, first: bool)
    requires
        server_answers(asked, event),
    ensures
        ({
            let next = server_after(asked, event, first);
            let reads = asked == ServerStep::ReadMessage;
            &&& next == ServerStep::Manage(None) <==> event == ServerEvent::Message(Asked::List)
            &&& (event matches ServerEvent::Message(Asked::Kill(id)) ==> next == ServerStep::Manage(Some(id)))
            &&& (next matches ServerStep::Manage(Some(id)) ==> event == ServerEvent::Message(Asked::Kill(id)))
            &&& next == ServerStep::Connect <==> event == ServerEvent::Message(Asked::Search)
            &&& next == ServerStep::ConnectOrStart <==> event == ServerEvent::Message(Asked::Other)
            &&& next == ServerStep::AnswerList <==> event == (ServerEvent::Managed { answered: true })
            &&& next == ServerStep::ReadMessage <==> asked == ServerStep::AnswerList && event == ServerEvent::Answered(true)
            &&& next == ServerStep::Relay <==> event == ServerEvent::Connected(true)
            &&& next == ServerStep::AnswerEmptySearch <==> asked == ServerStep::Connect && event == ServerEvent::Connected(false)
            &&& next == ServerStep::Done <==> asked == ServerStep::AnswerEmptySearch && event == ServerEvent::Answered(true)
                || asked == ServerStep::Relay && event is HungUp || reads && event is HungUp && !first
        }),
{
}

/// A daemon that was just started is given a second to bind, looked for first after a quarter
/// of a millisecond and then at most ten apart.
pub proof fn a_started_daemon_is_given_a_second()
    ensures
        START_FIRST == 250_000 && START_LONGEST == 10_000_000 && START_BUDGET == 1_000_000_000,
{
}

/// A list cut short keeps the newest: it is as long as it may be, in order, and nothing left out
/// of it is newer than anything in it.
pub proof fn a_list_cut_short_keeps_the_newest(list: Seq<SessionSummary>, gathered: Seq<SessionSummary>, max: usize, other: SessionSummary)
    requires
        newest_of(list, gathered, max),
        gathered.contains(other),
    ensures
        list.len() == (if max < gathered.len() { max as int } else { gathered.len() as int }),
        listed(list),
        forall|i: int| 0 <= i < list.len() ==> gathered.contains(#[trigger] list[i]),
        !list.contains(other) ==> forall|i: int|
            0 <= i < list.len() ==> (#[trigger] list[i]).active_unix >= other.active_unix,
{
    let sorted = choose|sorted: Seq<SessionSummary>| #[trigger] listed(sorted) && sorted.to_multiset()
        == gathered.to_multiset() && list == sorted.take(if max < sorted.len() { max as int } else { sorted.len() as int });
    sorted.to_multiset_ensures();
    gathered.to_multiset_ensures();
    assert(sorted.len() == gathered.len());
    assert(gathered.to_multiset().count(other) > 0);
    assert(sorted.contains(other));
    assert forall|i: int, j: int| 0 <= i < j < list.len() implies no_later(
        #[trigger] list[i].dated(),
        #[trigger] list[j].dated(),
    ) by {
        assert(no_later(sorted[i].dated(), sorted[j].dated()));
    }
    assert forall|i: int| 0 <= i < list.len() implies gathered.contains(#[trigger] list[i]) by {
        assert(sorted.contains(sorted[i]));
        assert(sorted.to_multiset().count(sorted[i]) > 0);
    }
    if !list.contains(other) {
        let k = choose|k: int| 0 <= k < sorted.len() && sorted[k] == other;
        if k < list.len() {
            assert(list[k] == other);
        }
        assert forall|i: int| 0 <= i < list.len() implies (#[trigger] list[i]).active_unix >= other.active_unix by {
            assert(no_later(sorted[i].dated(), sorted[k].dated()));
        }
    }
}

} // verus!
