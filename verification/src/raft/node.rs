//! The role state machine: a node is a follower, a candidate or a leader,
//! and moves between the roles on messages and logical clock ticks. The
//! node never sends on a wire itself: every outbound message goes into its
//! outbox, which the driver drains and hands to the transport.

use crate::raft::log::{clone_entry, has_entry, term_at, Entry, EntryView, Log};
use crate::raft::state::State;
use crate::raft::transport::{
    clone_event, event_call_id, message_valid, normalized, Event, EventView, Message, MessageView,
};
use crate::store::{bytes_eq, clone_bytes, str_eq, Store};
use crate::Error;
use rand::Rng;
use vstd::prelude::*;
use vstd::string::StringExecFns;

verus! {

/// The interval between leader heartbeats, in ticks.
pub const HEARTBEAT_INTERVAL: u64 = 1;

/// The smallest election timeout, in ticks.
pub const ELECTION_TIMEOUT_MIN: u64 = 8 * HEARTBEAT_INTERVAL;

/// The largest election timeout, in ticks; the timeout is drawn fresh from
/// the inclusive window for each election cycle.
pub const ELECTION_TIMEOUT_MAX: u64 = 15 * HEARTBEAT_INTERVAL;

/// Relies on rand's `Rng::gen_range` over `thread_rng`: the drawn value lies
/// in the half-open range. The call panics only on an empty range, though
/// initializing the thread-local generator can also fail if the system's
/// entropy source does — an environmental fault of the same kind as
/// allocation failure.
#[verifier::external_body]
fn random_timeout(lo: u64, hi: u64) -> (r: u64)
    requires
        lo < hi,
    ensures
        lo <= r < hi,
{
    rand::thread_rng().gen_range(lo..hi)
}

/// The characters behind an optional node name.
pub open spec fn os_view(o: Option<String>) -> Option<Seq<char>> {
    match o {
        Some(s) => Some(s@),
        None => None,
    }
}

/// Copies an optional node name.
fn clone_opt_string(o: &Option<String>) -> (r: Option<String>)
    ensures
        os_view(r) == os_view(*o),
{
    match o {
        Some(s) => Some(s.clone()),
        None => None,
    }
}

// ---------------------------------------------------------------------------
// The proxy-call table
// ---------------------------------------------------------------------------

/// The mapping held by a call table: call ID to originator, where `None`
/// marks a local caller.
pub open spec fn calls_map(ps: Seq<(Vec<u8>, Option<String>)>) -> Map<Seq<u8>, Option<Seq<char>>>
    decreases ps.len(),
{
    if ps.len() == 0 {
        Map::empty()
    } else {
        calls_map(ps.drop_last()).insert(ps.last().0@, os_view(ps.last().1))
    }
}

/// No call ID occurs twice in the table.
pub open spec fn calls_unique(ps: Seq<(Vec<u8>, Option<String>)>) -> bool {
    forall|i: int, j: int|
        #![trigger ps[i], ps[j]]
        0 <= i < j < ps.len() ==> ps[i].0@ != ps[j].0@
}

/// Some row holds the call ID.
pub open spec fn calls_has(ps: Seq<(Vec<u8>, Option<String>)>, k: Seq<u8>) -> bool {
    exists|i: int| 0 <= i < ps.len() && (#[trigger] ps[i]).0@ == k
}

/// On a duplicate-free table the mapping holds exactly the rows.
pub proof fn lemma_calls_map(ps: Seq<(Vec<u8>, Option<String>)>)
    requires
        calls_unique(ps),
    ensures
        forall|k: Seq<u8>| #[trigger] calls_map(ps).contains_key(k) <==> calls_has(ps, k),
        forall|i: int|
            0 <= i < ps.len() ==> calls_map(ps)[(#[trigger] ps[i]).0@] == os_view(ps[i].1),
    decreases ps.len(),
{
    if ps.len() > 0 {
        let pre = ps.drop_last();
        assert(forall|i: int| 0 <= i < pre.len() ==> pre[i] == ps[i]);
        lemma_calls_map(pre);
        assert forall|k: Seq<u8>| #[trigger] calls_map(ps).contains_key(k) implies calls_has(
            ps,
            k,
        ) by {
            if k == ps.last().0@ {
                assert((ps[ps.len() - 1]).0@ == k);
            } else {
                assert(calls_map(pre).contains_key(k));
                assert(calls_has(pre, k));
                let i = choose|i: int| 0 <= i < pre.len() && (#[trigger] pre[i]).0@ == k;
                assert((ps[i]).0@ == k);
            }
        }
        assert forall|k: Seq<u8>| calls_has(ps, k) implies #[trigger] calls_map(ps).contains_key(
            k,
        ) by {
            let i = choose|i: int| 0 <= i < ps.len() && (#[trigger] ps[i]).0@ == k;
            if i < ps.len() - 1 {
                assert((pre[i]).0@ == k);
            }
        }
        assert forall|i: int| 0 <= i < ps.len() implies calls_map(ps)[(#[trigger] ps[i]).0@]
            == os_view(ps[i].1) by {
            if i < ps.len() - 1 {
                assert(ps[i].0@ != ps[ps.len() - 1].0@);
                assert((pre[i]).0@ == ps[i].0@);
            }
        }
    }
}

/// Binds a call ID to an originator, replacing any earlier binding.
fn calls_insert(ps: &mut Vec<(Vec<u8>, Option<String>)>, k: Vec<u8>, v: Option<String>)
    requires
        calls_unique(old(ps)@),
    ensures
        calls_unique(final(ps)@),
        calls_map(final(ps)@) == calls_map(old(ps)@).insert(k@, os_view(v)),
{
    proof {
        lemma_calls_map(ps@);
    }
    let ghost orig = ps@;
    let mut i: usize = 0;
    let mut found: bool = false;
    loop
        invariant
            ps@ == orig,
            calls_unique(orig),
            0 <= i <= orig.len(),
            !found ==> forall|j: int| 0 <= j < i ==> (#[trigger] orig[j]).0@ != k@,
            found ==> i < orig.len() && orig[i as int].0@ == k@,
        ensures
            ps@ == orig,
            !found ==> forall|j: int| 0 <= j < orig.len() ==> (#[trigger] orig[j]).0@ != k@,
            found ==> i < orig.len() && orig[i as int].0@ == k@,
        decreases orig.len() + 1 - i - (if found {
            1int
        } else {
            0int
        }),
    {
        if i == ps.len() {
            break;
        }
        if bytes_eq(&ps[i].0, &k) {
            found = true;
            break;
        }
        i = i + 1;
    }
    if found {
        ps.remove(i);
        proof {
            lemma_calls_map_remove(orig, i as int);
            lemma_calls_map(ps@);
        }
    }
    let ghost mid = ps@;
    ps.push((k, v));
    proof {
        assert(ps@.drop_last() =~= mid);
        assert forall|a: int, b: int|
            #![trigger ps@[a], ps@[b]]
            0 <= a < b < ps@.len() implies ps@[a].0@ != ps@[b].0@ by {
            if b == ps@.len() - 1 {
                assert(ps@[a] == mid[a]);
            } else {
                assert(ps@[a] == mid[a] && ps@[b] == mid[b]);
            }
        }
        lemma_calls_map(mid);
        assert(calls_map(ps@) =~= calls_map(orig).insert(ps@.last().0@, os_view(ps@.last().1)));
    }
}

/// Removing a row removes its key from the mapping and keeps the others.
proof fn lemma_calls_map_remove(ps: Seq<(Vec<u8>, Option<String>)>, at: int)
    requires
        calls_unique(ps),
        0 <= at < ps.len(),
    ensures
        calls_unique(ps.remove(at)),
        calls_map(ps.remove(at)) == calls_map(ps).remove(ps[at].0@),
{
    let rest = ps.remove(at);
    assert forall|a: int, b: int|
        #![trigger rest[a], rest[b]]
        0 <= a < b < rest.len() implies rest[a].0@ != rest[b].0@ by {
        let ra = if a < at {
            a
        } else {
            a + 1
        };
        let rb = if b < at {
            b
        } else {
            b + 1
        };
        assert(rest[a] == ps[ra] && rest[b] == ps[rb]);
    }
    lemma_calls_map(ps);
    lemma_calls_map(rest);
    assert forall|k: Seq<u8>| #[trigger] calls_map(rest).contains_key(k) implies calls_map(
        ps,
    ).remove(ps[at].0@).contains_key(k) && calls_map(rest)[k] == calls_map(ps).remove(
        ps[at].0@,
    )[k] by {
        let i = choose|i: int| 0 <= i < rest.len() && (#[trigger] rest[i]).0@ == k;
        let ri = if i < at {
            i
        } else {
            i + 1
        };
        assert(rest[i] == ps[ri]);
        assert((ps[ri]).0@ == k);
        assert(ps[at].0@ != k);
    }
    assert forall|k: Seq<u8>| #[trigger] calls_map(ps).remove(ps[at].0@).contains_key(
        k,
    ) implies calls_map(rest).contains_key(k) by {
        let i = choose|i: int| 0 <= i < ps.len() && (#[trigger] ps[i]).0@ == k;
        assert(i != at);
        let ri = if i < at {
            i
        } else {
            i - 1
        };
        assert(rest[ri] == ps[i]);
        assert((rest[ri]).0@ == k);
    }
    assert(calls_map(rest) =~= calls_map(ps).remove(ps[at].0@));
}

/// Takes the originator bound to a call ID out of the table, if any.
fn calls_take(ps: &mut Vec<(Vec<u8>, Option<String>)>, k: &Vec<u8>) -> (r: Option<Option<String>>)
    requires
        calls_unique(old(ps)@),
    ensures
        calls_unique(final(ps)@),
        calls_map(final(ps)@) == calls_map(old(ps)@).remove(k@),
        r matches Some(v) ==> calls_map(old(ps)@).contains_key(k@) && os_view(v) == calls_map(
            old(ps)@,
        )[k@],
        r is None ==> !calls_map(old(ps)@).contains_key(k@),
{
    proof {
        lemma_calls_map(ps@);
    }
    let ghost orig = ps@;
    let mut i: usize = 0;
    while i < ps.len()
        invariant
            orig == old(ps)@,
            ps@ == orig,
            calls_unique(orig),
            0 <= i <= orig.len(),
            forall|j: int| 0 <= j < i ==> (#[trigger] orig[j]).0@ != k@,
        decreases orig.len() - i,
    {
        if bytes_eq(&ps[i].0, &k) {
            proof {
                assert((orig[i as int]).0@ == k@);
                assert(calls_has(orig, k@));
            }
            let row = ps.remove(i);
            proof {
                lemma_calls_map(orig);
                lemma_calls_map_remove(orig, i as int);
                assert(calls_map(orig).contains_key(k@));
                assert(calls_map(orig)[(orig[i as int]).0@] == os_view(orig[i as int].1));
            }
            return Some(row.1);
        }
        i = i + 1;
    }
    proof {
        assert(calls_map(orig).remove(k@) =~= calls_map(orig));
    }
    None
}

// ---------------------------------------------------------------------------
// Roles
// ---------------------------------------------------------------------------

/// A follower replicates state from a leader and votes in elections.
#[derive(Debug)]
pub struct Follower {
    /// The leader, or `None` right after initialization.
    leader: Option<String>,
    /// Ticks since the last message from the leader.
    leader_seen_ticks: u64,
    /// The randomized timeout before the follower starts an election.
    leader_seen_timeout: u64,
    /// The node voted for in the current term, if any.
    voted_for: Option<String>,
    /// The outstanding calls proxied to the leader: call ID to originator.
    proxy_calls: Vec<(Vec<u8>, Option<String>)>,
}

impl Follower {
    /// The follower's well-formedness: the tick counter stays under the
    /// timeout, which was drawn from the configured window.
    pub closed spec fn wf(&self) -> bool {
        &&& ELECTION_TIMEOUT_MIN <= self.leader_seen_timeout <= ELECTION_TIMEOUT_MAX
        &&& self.leader_seen_ticks < self.leader_seen_timeout
        &&& calls_unique(self.proxy_calls@)
    }

    /// The leader the follower follows, if it knows one.
    pub closed spec fn leader_view(&self) -> Option<Seq<char>> {
        os_view(self.leader)
    }

    /// The vote cast in the current term, if any.
    pub closed spec fn voted_view(&self) -> Option<Seq<char>> {
        os_view(self.voted_for)
    }

    /// The outstanding proxied calls.
    pub closed spec fn proxy_view(&self) -> Map<Seq<u8>, Option<Seq<char>>> {
        calls_map(self.proxy_calls@)
    }

    /// Ticks since the last message from the leader.
    pub closed spec fn seen_ticks(&self) -> u64 {
        self.leader_seen_ticks
    }

    /// The timeout before the follower starts an election.
    pub closed spec fn seen_timeout(&self) -> u64 {
        self.leader_seen_timeout
    }

    /// Creates a fresh follower state with a newly drawn election timeout.
    pub fn new(leader: Option<String>, voted_for: Option<String>) -> (r: Self)
        ensures
            r.wf(),
            r.leader_view() == os_view(leader),
            r.voted_view() == os_view(voted_for),
            r.seen_ticks() == 0,
            r.proxy_view() == Map::<Seq<u8>, Option<Seq<char>>>::empty(),
    {
        Follower {
            leader,
            leader_seen_ticks: 0,
            leader_seen_timeout: random_timeout(ELECTION_TIMEOUT_MIN, ELECTION_TIMEOUT_MAX + 1),
            voted_for,
            proxy_calls: Vec::new(),
        }
    }
}

/// A candidate campaigns to become leader.
#[derive(Debug)]
pub struct Candidate {
    /// The nodes that granted their vote, the candidate itself included.
    votes: Vec<String>,
    /// Ticks since the election began.
    election_ticks: u64,
    /// The randomized timeout before the election restarts.
    election_timeout: u64,
}

impl Candidate {
    /// The candidate's well-formedness.
    pub closed spec fn wf(&self) -> bool {
        &&& ELECTION_TIMEOUT_MIN <= self.election_timeout <= ELECTION_TIMEOUT_MAX
        &&& self.election_ticks < self.election_timeout
    }

    /// The number of votes received so far.
    pub closed spec fn vote_count(&self) -> int {
        self.votes@.len() as int
    }

    /// Creates a fresh candidate state holding the node's own vote.
    pub fn new(self_id: &str) -> (r: Self)
        ensures
            r.wf(),
            r.vote_count() == 1,
    {
        let mut votes: Vec<String> = Vec::new();
        votes.push(self_id.to_owned());
        Candidate {
            votes,
            election_ticks: 0,
            election_timeout: random_timeout(ELECTION_TIMEOUT_MIN, ELECTION_TIMEOUT_MAX + 1),
        }
    }
}

/// A leader replicates its log to the peers and serves client calls.
#[derive(Debug)]
pub struct Leader {
    /// For each peer, by position in the node's peer list: the next entry to
    /// replicate to it.
    next_index: Vec<u64>,
    /// For each peer, by position: the highest entry known replicated to it.
    match_index: Vec<u64>,
    /// Ticks since the last heartbeat broadcast.
    heartbeat_ticks: u64,
    /// The in-flight mutations: log index, call ID, originator.
    calls: Vec<(u64, Vec<u8>, Option<String>)>,
    /// The in-flight reads: call ID, originator, command, the committed index
    /// captured when the read arrived, and the peers that confirmed it.
    reads: Vec<ReadTracker>,
}

/// An in-flight linearizable read at the leader.
#[derive(Debug)]
pub struct ReadTracker {
    call_id: Vec<u8>,
    from: Option<String>,
    command: Vec<u8>,
    commit_index: u64,
    confirmed: Vec<String>,
}

/// The mathematical shape of an in-flight read.
pub ghost struct ReadView {
    pub call_id: Seq<u8>,
    pub from: Option<Seq<char>>,
    pub command: Seq<u8>,
    pub commit_index: u64,
    pub confirmed: Seq<Seq<char>>,
}

impl View for ReadTracker {
    type V = ReadView;

    closed spec fn view(&self) -> ReadView {
        ReadView {
            call_id: self.call_id@,
            from: os_view(self.from),
            command: self.command@,
            commit_index: self.commit_index,
            confirmed: self.confirmed@.map_values(|p: String| p@),
        }
    }
}

/// The read after a peer's confirmation at the leader's captured committed
/// index is counted; any other read is untouched.
pub open spec fn read_confirmed(row: ReadView, peer: Seq<char>, ci: u64) -> ReadView {
    if row.commit_index == ci && !row.confirmed.contains(peer) {
        ReadView { confirmed: row.confirmed.push(peer), ..row }
    } else {
        row
    }
}

/// Whether a read at the captured index has a quorum behind it: the peers
/// that confirmed, plus the leader itself.
pub open spec fn read_ready(row: ReadView, ci: u64, quorum: int) -> bool {
    row.commit_index == ci && row.confirmed.len() + 1 >= quorum
}

/// The reads still pending after a peer's confirmation is counted: each
/// matching read gains the peer, and the ones a quorum now backs leave.
pub open spec fn kept_reads(rs: Seq<ReadView>, peer: Seq<char>, ci: u64, quorum: int) -> Seq<
    ReadView,
>
    decreases rs.len(),
{
    if rs.len() == 0 {
        Seq::empty()
    } else {
        let rest = kept_reads(rs.drop_last(), peer, ci, quorum);
        let row = read_confirmed(rs.last(), peer, ci);
        if read_ready(row, ci, quorum) {
            rest
        } else {
            rest.push(row)
        }
    }
}

/// The reads a peer's confirmation completes, in order: these are answered.
pub open spec fn answered_reads(rs: Seq<ReadView>, peer: Seq<char>, ci: u64, quorum: int) -> Seq<
    ReadView,
>
    decreases rs.len(),
{
    if rs.len() == 0 {
        Seq::empty()
    } else {
        let rest = answered_reads(rs.drop_last(), peer, ci, quorum);
        let row = read_confirmed(rs.last(), peer, ci);
        if read_ready(row, ci, quorum) {
            rest.push(row)
        } else {
            rest
        }
    }
}

impl Leader {
    /// The leader's well-formedness against its node's peer count.
    pub closed spec fn wf(&self, n_peers: int) -> bool {
        &&& self.next_index@.len() == n_peers
        &&& self.match_index@.len() == n_peers
        &&& self.heartbeat_ticks < HEARTBEAT_INTERVAL
    }

    /// The next entry to replicate, per peer.
    pub closed spec fn next_view(&self) -> Seq<u64> {
        self.next_index@
    }

    /// The in-flight client mutations.
    pub closed spec fn calls_seq(&self) -> Seq<(u64, Vec<u8>, Option<String>)> {
        self.calls@
    }

    /// The highest entry known replicated, per peer.
    pub closed spec fn match_view(&self) -> Seq<u64> {
        self.match_index@
    }

    /// Creates a fresh leader state: every peer is replicated from just above
    /// the leader's last stored index, and nothing is known matched.
    pub fn new(n_peers: usize, last_index: u64) -> (r: Self)
        requires
            last_index < u64::MAX,
        ensures
            r.wf(n_peers as int),
            forall|i: int| 0 <= i < n_peers ==> r.next_view()[i] == last_index + 1,
            forall|i: int| 0 <= i < n_peers ==> r.match_view()[i] == 0,
            r.calls_seq() == Seq::<(u64, Vec<u8>, Option<String>)>::empty(),
    {
        let mut next_index: Vec<u64> = Vec::new();
        let mut match_index: Vec<u64> = Vec::new();
        let mut i: usize = 0;
        while i < n_peers
            invariant
                i <= n_peers,
                last_index < u64::MAX,
                next_index@.len() == i,
                match_index@.len() == i,
                forall|j: int| 0 <= j < i ==> next_index@[j] == last_index + 1,
                forall|j: int| 0 <= j < i ==> match_index@[j] == 0,
            decreases n_peers - i,
        {
            next_index.push(last_index + 1);
            match_index.push(0);
            i = i + 1;
        }
        let r = Leader {
            next_index,
            match_index,
            heartbeat_ticks: 0,
            calls: Vec::new(),
            reads: Vec::new(),
        };
        proof {
            assert(r.calls_seq() =~= Seq::<(u64, Vec<u8>, Option<String>)>::empty());
        }
        r
    }
}

// ---------------------------------------------------------------------------
// The role envelope
// ---------------------------------------------------------------------------

/// A message a node sends: stamped with its term and name.
pub open spec fn sent_msg(
    term: u64,
    from: Seq<char>,
    to: Option<Seq<char>>,
    event: EventView,
) -> MessageView {
    MessageView { term, from: Some(from), to, event }
}

/// The messages a broadcast pushes: one per peer, in peer order.
pub open spec fn broadcast_msgs(
    term: u64,
    from: Seq<char>,
    peers: Seq<Seq<char>>,
    event: EventView,
) -> Seq<MessageView> {
    peers.map_values(|p: Seq<char>| sent_msg(term, from, Some(p), event))
}

/// A respond event, closing out a client call.
pub open spec fn is_respond(e: EventView) -> bool {
    e matches EventView::RespondState { .. } || e matches EventView::RespondError { .. }
}

/// A Raft node in some role: the shared envelope around the log, the state
/// machine, the peer list and the outbox of unsent messages.
#[derive(Debug)]
pub struct RoleNode<R, L: Store, M: State> {
    id: String,
    peers: Vec<String>,
    term: u64,
    log: Log<L>,
    state: M,
    outbox: Vec<Message>,
    role: R,
}

/// The local Raft node state machine.
#[derive(Debug)]
pub enum Node<L: Store, M: State> {
    Candidate(RoleNode<Candidate, L, M>),
    Follower(RoleNode<Follower, L, M>),
    Leader(RoleNode<Leader, L, M>),
}

impl<R, L: Store, M: State> RoleNode<R, L, M> {
    /// The node's name.
    pub closed spec fn id_view(&self) -> Seq<char> {
        self.id@
    }

    /// The peers' names, in order.
    pub closed spec fn peers_view(&self) -> Seq<Seq<char>> {
        self.peers@.map_values(|p: String| p@)
    }

    /// The node's current term.
    pub closed spec fn term_spec(&self) -> u64 {
        self.term
    }

    /// The log's entries.
    pub closed spec fn entries(&self) -> Seq<EntryView> {
        self.log@
    }

    /// The log's committed watermark.
    pub closed spec fn committed(&self) -> u64 {
        self.log.committed()
    }

    /// The log's applied watermark.
    pub closed spec fn applied(&self) -> u64 {
        self.log.applied()
    }

    /// The unsent outbound messages.
    pub closed spec fn msgs(&self) -> Seq<MessageView> {
        self.outbox@.map_values(|m: Message| m@)
    }

    /// The contents of the node's log store.
    pub closed spec fn store_view(&self) -> Map<Seq<u8>, Seq<u8>> {
        self.log.store_view()
    }

    /// The envelope's well-formedness: a sound log and a sane peer count.
    pub closed spec fn envelope_inv(&self) -> bool {
        &&& self.log.inv()
        &&& self.peers@.len() < u64::MAX
    }

    /// Queues an event to a peer, or to a local caller when `to` is `None`.
    fn send(&mut self, to: Option<&str>, event: Event)
        ensures
            *final(self) == (RoleNode { outbox: final(self).outbox, ..*old(self) }),
            final(self).msgs() == old(self).msgs().push(
                sent_msg(
                    old(self).term,
                    old(self).id@,
                    match to {
                        Some(t) => Some(t@),
                        None => None,
                    },
                    event@,
                ),
            ),
    {
        let ghost prev = self.outbox@;
        let to_owned: Option<String> = match to {
            Some(t) => Some(t.to_owned()),
            None => None,
        };
        let msg = Message { term: self.term, from: Some(self.id.clone()), to: to_owned, event };
        self.outbox.push(msg);
        proof {
            assert(self.outbox@.drop_last() =~= prev);
            assert(self.msgs() =~= prev.map_values(|m: Message| m@).push(self.outbox@.last()@));
        }
    }

    /// Queues an event to every peer, in peer order.
    fn broadcast(&mut self, event: Event)
        ensures
            *final(self) == (RoleNode { outbox: final(self).outbox, ..*old(self) }),
            final(self).msgs() == old(self).msgs() + broadcast_msgs(
                old(self).term,
                old(self).id@,
                old(self).peers_view(),
                event@,
            ),
    {
        let ghost orig = *self;
        let mut i: usize = 0;
        while i < self.peers.len()
            invariant
                *self == (RoleNode { outbox: self.outbox, ..orig }),
                0 <= i <= orig.peers@.len(),
                self.peers == orig.peers,
                self.term == orig.term,
                self.id == orig.id,
                self.msgs() == orig.msgs() + broadcast_msgs(
                    orig.term,
                    orig.id@,
                    orig.peers_view().take(i as int),
                    event@,
                ),
            decreases self.peers@.len() - i,
        {
            let peer = self.peers[i].clone();
            self.send(Some(peer.as_str()), clone_event(&event));
            i = i + 1;
            proof {
                assert(self.msgs() =~= orig.msgs() + broadcast_msgs(
                    orig.term,
                    orig.id@,
                    orig.peers_view().take(i as int),
                    event@,
                ));
            }
        }
        proof {
            assert(orig.peers_view().take(orig.peers_view().len() as int) =~= orig.peers_view());
            assert(final(self).msgs() =~= old(self).msgs() + broadcast_msgs(
                old(self).term,
                old(self).id@,
                old(self).peers_view(),
                event@,
            ));
        }
    }

    /// The quorum size of the cluster: a majority of the peers and the node.
    fn quorum(&self) -> (r: u64)
        requires
            self.peers@.len() < u64::MAX,
        ensures
            r == (self.peers_view().len() + 1) / 2 + 1,
    {
        ((self.peers.len() as u64) + 1) / 2 + 1
    }

    /// Persists and adopts a term and vote.
    fn save_term(&mut self, term: u64, voted_for: Option<&str>) -> (r: Result<(), Error>)
        requires
            old(self).log.inv(),
        ensures
            final(self).log.inv(),
            final(self).log@ == old(self).log@,
            final(self).log.committed() == old(self).log.committed(),
            final(self).log.applied() == old(self).log.applied(),
            r is Ok ==> *final(self) == (RoleNode {
                term,
                log: final(self).log,
                ..*old(self)
            }) && final(self).log.store_view() == crate::raft::log::saved_term_view(
                old(self).log.store_view(),
                term,
                match voted_for {
                    Some(v) => Some(v@),
                    None => None,
                },
            ),
            r is Err ==> *final(self) == (RoleNode { log: final(self).log, ..*old(self) }),
    {
        match self.log.save_term(term, voted_for) {
            Ok(()) => {
                self.term = term;
                Ok(())
            },
            Err(e) => Err(e),
        }
    }
}

// ---------------------------------------------------------------------------
// The node
// ---------------------------------------------------------------------------

impl<L: Store, M: State> Node<L, M> {
    /// The node's well-formedness: a sound envelope and a sound role.
    pub closed spec fn inv(&self) -> bool {
        match self {
            Node::Follower(n) => n.envelope_inv() && n.role.wf(),
            Node::Candidate(n) => n.envelope_inv() && n.role.wf(),
            Node::Leader(n) => n.envelope_inv() && n.role.wf(n.peers@.len() as int),
        }
    }

    /// The node is a follower.
    pub closed spec fn is_follower_spec(&self) -> bool {
        self matches Node::Follower(_)
    }

    /// The node is a candidate.
    pub closed spec fn is_candidate_spec(&self) -> bool {
        self matches Node::Candidate(_)
    }

    /// The node is a leader.
    pub closed spec fn is_leader_spec(&self) -> bool {
        self matches Node::Leader(_)
    }

    /// The node's name.
    pub closed spec fn id_view(&self) -> Seq<char> {
        match self {
            Node::Follower(n) => n.id@,
            Node::Candidate(n) => n.id@,
            Node::Leader(n) => n.id@,
        }
    }

    /// The peers' names, in order.
    pub closed spec fn peers_view(&self) -> Seq<Seq<char>> {
        match self {
            Node::Follower(n) => n.peers_view(),
            Node::Candidate(n) => n.peers_view(),
            Node::Leader(n) => n.peers_view(),
        }
    }

    /// The node's current term.
    pub closed spec fn term_view(&self) -> u64 {
        match self {
            Node::Follower(n) => n.term,
            Node::Candidate(n) => n.term,
            Node::Leader(n) => n.term,
        }
    }

    /// The unsent outbound messages.
    pub closed spec fn msgs(&self) -> Seq<MessageView> {
        match self {
            Node::Follower(n) => n.msgs(),
            Node::Candidate(n) => n.msgs(),
            Node::Leader(n) => n.msgs(),
        }
    }

    /// The log's entries.
    pub closed spec fn entries(&self) -> Seq<EntryView> {
        match self {
            Node::Follower(n) => n.log@,
            Node::Candidate(n) => n.log@,
            Node::Leader(n) => n.log@,
        }
    }

    /// The log's committed watermark.
    pub closed spec fn committed(&self) -> u64 {
        match self {
            Node::Follower(n) => n.log.committed(),
            Node::Candidate(n) => n.log.committed(),
            Node::Leader(n) => n.log.committed(),
        }
    }

    /// The log's applied watermark.
    pub closed spec fn applied(&self) -> u64 {
        match self {
            Node::Follower(n) => n.log.applied(),
            Node::Candidate(n) => n.log.applied(),
            Node::Leader(n) => n.log.applied(),
        }
    }

    /// The leader a follower follows, if any.
    pub closed spec fn leader_view(&self) -> Option<Seq<char>> {
        match self {
            Node::Follower(n) => n.role.leader_view(),
            _ => None,
        }
    }

    /// The vote a follower cast in the current term, if any.
    pub closed spec fn voted_view(&self) -> Option<Seq<char>> {
        match self {
            Node::Follower(n) => n.role.voted_view(),
            _ => None,
        }
    }

    /// A leader's per-peer replication watermarks.
    pub closed spec fn match_view(&self) -> Seq<u64> {
        match self {
            Node::Leader(n) => n.role.match_view(),
            _ => Seq::empty(),
        }
    }

    /// A leader's per-peer next entries to replicate.
    pub closed spec fn next_view(&self) -> Seq<u64> {
        match self {
            Node::Leader(n) => n.role.next_view(),
            _ => Seq::empty(),
        }
    }

    /// A leader's in-flight client mutations.
    pub closed spec fn calls_view(&self) -> Seq<(u64, Seq<u8>, Option<Seq<char>>)> {
        match self {
            Node::Leader(n) => n.calls_view(),
            _ => Seq::empty(),
        }
    }

    /// A leader's in-flight linearizable reads.
    pub closed spec fn reads_view(&self) -> Seq<ReadView> {
        match self {
            Node::Leader(n) => n.reads_view(),
            _ => Seq::empty(),
        }
    }

    /// Ticks a follower has waited since it last heard from its leader.
    pub closed spec fn seen_ticks_view(&self) -> u64 {
        match self {
            Node::Follower(n) => n.role.seen_ticks(),
            _ => 0,
        }
    }

    /// The election timeout a follower or candidate is running, if any.
    pub closed spec fn election_timeout_view(&self) -> Option<u64> {
        match self {
            Node::Follower(n) => Some(n.role.seen_timeout()),
            Node::Candidate(n) => Some(n.election_timeout_spec()),
            Node::Leader(_) => None,
        }
    }

    /// A follower's outstanding proxied calls.
    pub closed spec fn proxy_view(&self) -> Map<Seq<u8>, Option<Seq<char>>> {
        match self {
            Node::Follower(n) => n.role.proxy_view(),
            _ => Map::empty(),
        }
    }
}

/// A borrowed view of an optional node name.
fn opt_str(o: &Option<String>) -> (r: Option<&str>)
    ensures
        match r {
            Some(s) => os_view(*o) == Some(s@),
            None => os_view(*o) is None,
        },
{
    match o {
        Some(s) => Some(s.as_str()),
        None => None,
    }
}

/// Whether a vote is granted: the solicitor must be the one already voted
/// for, if any, and its log must be at least as up to date as the local one.
pub open spec fn grant_ok(
    voted: Option<Seq<char>>,
    from: Option<Seq<char>>,
    cand_index: u64,
    cand_term: u64,
    local_index: u64,
    local_term: u64,
) -> bool {
    &&& from is Some
    &&& (voted is None || voted == from)
    &&& !(cand_term < local_term)
    &&& !(cand_term == local_term && cand_index < local_index)
}

// What a follower's discovery pass leaves, before the event itself is
// handled: a message from a higher term resets the role under its sender; a
// first sender becomes the leader; any other message changes nothing.

/// The follower's term after discovery.
pub open spec fn discovered_term<L: Store, M: State>(
    pre: RoleNode<Follower, L, M>,
    nm: MessageView,
) -> u64 {
    if nm.from is Some && nm.term > pre.term_spec() {
        nm.term
    } else {
        pre.term_spec()
    }
}

/// The follower's leader after discovery.
pub open spec fn discovered_leader<L: Store, M: State>(
    pre: RoleNode<Follower, L, M>,
    nm: MessageView,
) -> Option<Seq<char>> {
    if nm.from is Some && (nm.term > pre.term_spec() || pre.leader_view() is None) {
        nm.from
    } else {
        pre.leader_view()
    }
}

/// The follower's vote after discovery: a new term clears it.
pub open spec fn discovered_voted<L: Store, M: State>(
    pre: RoleNode<Follower, L, M>,
    nm: MessageView,
) -> Option<Seq<char>> {
    if nm.from is Some && nm.term > pre.term_spec() {
        None
    } else {
        pre.voted_view()
    }
}

/// The follower's proxy table after discovery: a role reset drops it.
pub open spec fn discovered_proxy<L: Store, M: State>(
    pre: RoleNode<Follower, L, M>,
    nm: MessageView,
) -> Map<Seq<u8>, Option<Seq<char>>> {
    if nm.from is Some && (nm.term > pre.term_spec() || pre.leader_view() is None) {
        Map::empty()
    } else {
        pre.proxy_view()
    }
}

/// The follower's leader-seen tick count after discovery: a role reset
/// starts it over.
pub open spec fn discovered_ticks<L: Store, M: State>(
    pre: RoleNode<Follower, L, M>,
    nm: MessageView,
) -> u64 {
    if nm.from is Some && (nm.term > pre.term_spec() || pre.leader_view() is None) {
        0
    } else {
        pre.seen_ticks()
    }
}

/// The follower's store after discovery: a new term is persisted with the
/// vote cleared.
pub open spec fn discovered_store<L: Store, M: State>(
    pre: RoleNode<Follower, L, M>,
    nm: MessageView,
) -> Map<Seq<u8>, Seq<u8>> {
    if nm.from is Some && nm.term > pre.term_spec() {
        crate::raft::log::saved_term_view(pre.store_view(), nm.term, None)
    } else {
        pre.store_view()
    }
}

/// Everything a follower's step leaves behind, per event, after discovery.
/// An invalid message changes nothing at all; every valid event leaves the
/// entries, watermarks, role state, outbox and store as spelled out here.
pub open spec fn follower_step_post<L: Store, M: State>(
    pre: RoleNode<Follower, L, M>,
    m: MessageView,
    n: Node<L, M>,
) -> bool {
    let nm = normalized(m, pre.id_view(), pre.term_spec());
    let dt = discovered_term(pre, nm);
    let dl = discovered_leader(pre, nm);
    let dv = discovered_voted(pre, nm);
    let dp = discovered_proxy(pre, nm);
    let ds = discovered_store(pre, nm);
    let from_leader = dl is Some && nm.from == dl;
    &&& n.inv()
    &&& n.is_follower_spec()
    &&& n.term_view() == if message_valid(nm, pre.id_view(), pre.term_spec()) {
        dt
    } else {
        pre.term_spec()
    }
    &&& n.applied() == pre.applied()
    &&& (message_valid(nm, pre.id_view(), pre.term_spec()) ==> n.seen_ticks_view() == if from_leader {
        0u64
    } else {
        discovered_ticks(pre, nm)
    })
    &&& (message_valid(nm, pre.id_view(), pre.term_spec()) && !(nm.from is Some && (nm.term
        > pre.term_spec() || pre.leader_view() is None)) ==> n.election_timeout_view() == Some(
        pre.seen_timeout(),
    ))
    &&& (!message_valid(nm, pre.id_view(), pre.term_spec()) ==> n == Node::<L, M>::Follower(pre))
    &&& (message_valid(nm, pre.id_view(), pre.term_spec()) ==> match nm.event {
        EventView::Heartbeat { commit_index, commit_term } => {
            &&& n.entries() == pre.entries()
            &&& n.leader_view() == dl
            &&& n.voted_view() == dv
            &&& n.proxy_view() == dp
            &&& n.store_view() == ds
            &&& if from_leader {
                let has = has_entry(pre.entries(), commit_index, commit_term);
                &&& n.msgs() == pre.msgs().push(
                    sent_msg(
                        dt,
                        pre.id_view(),
                        nm.from,
                        EventView::ConfirmLeader { commit_index, has_committed: has },
                    ),
                )
                &&& n.committed() == if has {
                    crate::raft::log::clamped_commit(
                        pre.entries(),
                        pre.committed(),
                        commit_index,
                    )
                } else {
                    pre.committed()
                }
            } else {
                n.msgs() == pre.msgs() && n.committed() == pre.committed()
            }
        },
        EventView::SolicitVote { last_index, last_term } => {
            let granted = grant_ok(
                dv,
                nm.from,
                last_index,
                last_term,
                pre.entries().len() as u64,
                term_at(pre.entries(), pre.entries().len() as u64),
            );
            &&& n.entries() == pre.entries()
            &&& n.committed() == pre.committed()
            &&& n.leader_view() == dl
            &&& n.proxy_view() == dp
            &&& if granted {
                &&& n.msgs() == pre.msgs().push(
                    sent_msg(dt, pre.id_view(), nm.from, EventView::GrantVote),
                )
                &&& n.voted_view() == nm.from
                &&& n.store_view() == crate::raft::log::saved_term_view(ds, dt, nm.from)
            } else {
                &&& n.msgs() == pre.msgs()
                &&& n.voted_view() == dv
                &&& n.store_view() == ds
            }
        },
        EventView::ReplicateEntries { base_index, base_term, entries } => {
            &&& n.leader_view() == dl
            &&& n.voted_view() == dv
            &&& n.proxy_view() == dp
            &&& n.committed() == pre.committed()
            &&& n.entries().take(pre.committed() as int) == pre.entries().take(
                pre.committed() as int,
            )
            &&& if from_leader {
                if !has_entry(pre.entries(), base_index, base_term) {
                    &&& n.entries() == pre.entries()
                    &&& n.msgs() == pre.msgs().push(
                        sent_msg(dt, pre.id_view(), nm.from, EventView::RejectEntries),
                    )
                } else {
                    let target = crate::raft::log::splice_result(
                        pre.entries(),
                        base_index,
                        entries,
                    );
                    &&& n.entries() == target
                    &&& n.msgs() == pre.msgs().push(
                        sent_msg(
                            dt,
                            pre.id_view(),
                            nm.from,
                            EventView::AcceptEntries { last_index: target.len() as u64 },
                        ),
                    )
                }
            } else {
                n.entries() == pre.entries() && n.msgs() == pre.msgs()
            }
        },
        EventView::ReadState { call_id, command } => {
            &&& n.entries() == pre.entries()
            &&& n.committed() == pre.committed()
            &&& n.leader_view() == dl
            &&& n.voted_view() == dv
            &&& n.store_view() == ds
            &&& n.proxy_view() == dp.insert(call_id, nm.from)
            &&& n.msgs() == pre.msgs().push(sent_msg(dt, pre.id_view(), dl, nm.event))
        },
        EventView::MutateState { call_id, command } => {
            &&& n.entries() == pre.entries()
            &&& n.committed() == pre.committed()
            &&& n.leader_view() == dl
            &&& n.voted_view() == dv
            &&& n.store_view() == ds
            &&& n.proxy_view() == dp.insert(call_id, nm.from)
            &&& n.msgs() == pre.msgs().push(sent_msg(dt, pre.id_view(), dl, nm.event))
        },
        EventView::RespondState { call_id, response } => {
            &&& n.entries() == pre.entries()
            &&& n.committed() == pre.committed()
            &&& n.leader_view() == dl
            &&& n.voted_view() == dv
            &&& n.store_view() == ds
            &&& n.proxy_view() == dp.remove(call_id)
            &&& (dp.contains_key(call_id) ==> n.msgs() == pre.msgs().push(
                sent_msg(dt, pre.id_view(), dp[call_id], nm.event),
            ))
            &&& (!dp.contains_key(call_id) ==> n.msgs() == pre.msgs())
        },
        EventView::RespondError { call_id, error } => {
            &&& n.entries() == pre.entries()
            &&& n.committed() == pre.committed()
            &&& n.leader_view() == dl
            &&& n.voted_view() == dv
            &&& n.store_view() == ds
            &&& n.proxy_view() == dp.remove(call_id)
            &&& (dp.contains_key(call_id) ==> n.msgs() == pre.msgs().push(
                sent_msg(dt, pre.id_view(), dp[call_id], nm.event),
            ))
            &&& (!dp.contains_key(call_id) ==> n.msgs() == pre.msgs())
        },
        _ => {
            &&& n.entries() == pre.entries()
            &&& n.committed() == pre.committed()
            &&& n.msgs() == pre.msgs()
            &&& n.leader_view() == dl
            &&& n.voted_view() == dv
            &&& n.proxy_view() == dp
            &&& n.store_view() == ds
        },
    })
}

/// The inputs on which a follower's step cannot fail: nothing needs to be
/// persisted, so no store write can be refused. Only adopting a higher term,
/// voting and splicing write to the store.
pub open spec fn follower_step_infallible<L: Store, M: State>(
    pre: RoleNode<Follower, L, M>,
    m: MessageView,
) -> bool {
    let nm = normalized(m, pre.id_view(), pre.term_spec());
    ||| !message_valid(nm, pre.id_view(), pre.term_spec())
    ||| {
        &&& !(nm.from is Some && nm.term > pre.term_spec())
        &&& !(nm.event matches EventView::SolicitVote { .. })
        &&& !(nm.event matches EventView::ReplicateEntries { .. })
    }
}

/// The store after every committed entry was applied: the applied watermark
/// now reads as the committed one; nothing else moved.
pub open spec fn drained_store(
    store: Map<Seq<u8>, Seq<u8>>,
    applied: u64,
    committed: u64,
) -> Map<Seq<u8>, Seq<u8>> {
    if applied == committed {
        store
    } else {
        store.insert(crate::raft::log::apply_key(), crate::codec::enc_u64(committed))
    }
}

/// Everything a follower's tick leaves behind: all committed entries are
/// applied, and the node either keeps waiting or starts an election.
pub open spec fn follower_tick_post<L: Store, M: State>(
    pre: RoleNode<Follower, L, M>,
    n: Node<L, M>,
) -> bool {
    let drained = drained_store(pre.store_view(), pre.applied(), pre.committed());
    &&& n.inv()
    &&& n.entries() == pre.entries()
    &&& n.committed() == pre.committed()
    &&& n.applied() == n.committed()
    &&& (pre.seen_ticks() + 1 < pre.seen_timeout() ==> {
        &&& n.is_follower_spec()
        &&& n.term_view() == pre.term_spec()
        &&& n.msgs() == pre.msgs()
        &&& n.leader_view() == pre.leader_view()
        &&& n.voted_view() == pre.voted_view()
        &&& n.proxy_view() == pre.proxy_view()
        &&& n.store_view() == drained
        &&& n.seen_ticks_view() == pre.seen_ticks() + 1
        &&& n.election_timeout_view() == Some(pre.seen_timeout())
    })
    &&& (pre.seen_ticks() + 1 >= pre.seen_timeout() ==> {
        &&& n.is_candidate_spec()
        &&& n.term_view() == pre.term_spec() + 1
        &&& n.store_view() == crate::raft::log::saved_term_view(
            drained,
            (pre.term_spec() + 1) as u64,
            None,
        )
        &&& n.msgs() == pre.msgs() + broadcast_msgs(
            (pre.term_spec() + 1) as u64,
            pre.id_view(),
            pre.peers_view(),
            EventView::SolicitVote {
                last_index: pre.entries().len() as u64,
                last_term: term_at(pre.entries(), pre.entries().len() as u64),
            },
        )
    })
}

/// The inputs on which a follower's tick cannot fail: nothing left to apply
/// and no election due, so nothing is written anywhere.
pub open spec fn follower_tick_infallible<L: Store, M: State>(
    pre: RoleNode<Follower, L, M>,
) -> bool {
    pre.applied() == pre.committed() && pre.seen_ticks() + 1 < pre.seen_timeout()
}

impl<L: Store, M: State> RoleNode<Follower, L, M> {
    /// The follower role's well-formedness.
    pub closed spec fn role_wf(&self) -> bool {
        self.role.wf()
    }

    /// The leader this follower follows, if known.
    pub closed spec fn leader_view(&self) -> Option<Seq<char>> {
        self.role.leader_view()
    }

    /// The vote cast in the current term, if any.
    pub closed spec fn voted_view(&self) -> Option<Seq<char>> {
        self.role.voted_view()
    }

    /// The outstanding proxied calls.
    pub closed spec fn proxy_view(&self) -> Map<Seq<u8>, Option<Seq<char>>> {
        self.role.proxy_view()
    }

    /// Ticks since the last message from the leader.
    pub closed spec fn seen_ticks(&self) -> u64 {
        self.role.seen_ticks()
    }

    /// The timeout before an election starts.
    pub closed spec fn seen_timeout(&self) -> u64 {
        self.role.seen_timeout()
    }

    /// Whether the message sender is the known leader.
    fn is_from_leader(&self, from: &Option<String>) -> (r: bool)
        ensures
            r == (self.role.leader_view() is Some && os_view(*from) == self.role.leader_view()),
    {
        match (&self.role.leader, from) {
            (Some(leader), Some(claimer)) => str_eq(claimer.as_str(), leader.as_str()),
            _ => false,
        }
    }

    /// A heartbeat from the current leader: report whether the leader's
    /// committed entry is stored, and commit up to it when it is.
    fn on_heartbeat(&mut self, from: &Option<String>, commit_index: u64, commit_term: u64)
        requires
            old(self).envelope_inv(),
        ensures
            final(self).envelope_inv(),
            final(self).role == old(self).role,
            final(self).term == old(self).term,
            final(self).id == old(self).id,
            final(self).peers == old(self).peers,
            final(self).log@ == old(self).log@,
            final(self).log.applied() == old(self).log.applied(),
            final(self).log.store_view() == old(self).log.store_view(),
            !(old(self).role.leader_view() is Some && os_view(*from) == old(
                self,
            ).role.leader_view()) ==> *final(self) == *old(self),
            old(self).role.leader_view() is Some && os_view(*from) == old(self).role.leader_view()
                ==> {
                let has = has_entry(old(self).log@, commit_index, commit_term);
                &&& final(self).msgs() == old(self).msgs().push(
                    sent_msg(
                        old(self).term,
                        old(self).id@,
                        os_view(*from),
                        EventView::ConfirmLeader { commit_index, has_committed: has },
                    ),
                )
                &&& final(self).log.committed() == if has {
                    crate::raft::log::clamped_commit(
                        old(self).log@,
                        old(self).log.committed(),
                        commit_index,
                    )
                } else {
                    old(self).log.committed()
                }
            },
    {
        if self.is_from_leader(from) {
            let has = match self.log.has(commit_index, commit_term) {
                Ok(b) => b,
                Err(_) => {
                    proof {
                        assert(false);
                    }
                    false
                },
            };
            self.send(opt_str(from), Event::ConfirmLeader { commit_index, has_committed: has });
            if has {
                match self.log.commit(commit_index) {
                    Ok(_) => {},
                    Err(_) => {
                        proof {
                            assert(false);
                        }
                    },
                }
            }
        }
    }

    /// A vote solicitation: grant it when no other vote was cast this term
    /// and the candidate's log is at least as up to date as the local one.
    fn on_solicit_vote(&mut self, from: &Option<String>, last_index: u64, last_term: u64) -> (r:
        Result<(), Error>)
        requires
            old(self).envelope_inv(),
            old(self).role.wf(),
        ensures
            final(self).envelope_inv(),
            final(self).role.wf(),
            final(self).term == old(self).term,
            final(self).role.seen_ticks() == old(self).role.seen_ticks(),
            final(self).role.seen_timeout() == old(self).role.seen_timeout(),
            final(self).log@ == old(self).log@,
            final(self).log.committed() == old(self).log.committed(),
            final(self).log.applied() == old(self).log.applied(),
            ({
                let granted = grant_ok(
                    old(self).role.voted_view(),
                    os_view(*from),
                    last_index,
                    last_term,
                    old(self).log@.len() as u64,
                    term_at(old(self).log@, old(self).log@.len() as u64),
                );
                &&& (!granted ==> *final(self) == *old(self) && r is Ok)
                &&& (granted && r is Ok ==> final(self).msgs() == old(self).msgs().push(
                    sent_msg(
                        old(self).term,
                        old(self).id@,
                        os_view(*from),
                        EventView::GrantVote,
                    ),
                ) && final(self).role.voted_view() == os_view(*from)
                    && final(self).role.leader_view() == old(self).role.leader_view()
                    && final(self).role.proxy_view() == old(self).role.proxy_view()
                    && final(self).log.store_view() == crate::raft::log::saved_term_view(
                    old(self).log.store_view(),
                    old(self).term,
                    os_view(*from),
                ))
            }),
    {
        if let Some(voted_for) = &self.role.voted_for {
            if let Some(sender) = from {
                if !str_eq(voted_for.as_str(), sender.as_str()) {
                    return Ok(());
                }
            }
        }
        let (local_last_index, local_last_term) = self.log.get_last();
        if last_term < local_last_term {
            return Ok(());
        }
        if last_term == local_last_term && last_index < local_last_index {
            return Ok(());
        }
        if let Some(sender) = from {
            let sender = sender.clone();
            self.send(Some(sender.as_str()), Event::GrantVote);
            match self.log.save_term(self.term, Some(sender.as_str())) {
                Ok(()) => {},
                Err(e) => {
                    return Err(e);
                },
            }
            self.role.voted_for = Some(sender);
        }
        Ok(())
    }

    /// Replicated entries from the current leader: splice them in and accept,
    /// or reject when the base is not stored.
    fn on_replicate(
        &mut self,
        from: &Option<String>,
        base_index: u64,
        base_term: u64,
        entries: Vec<Entry>,
    ) -> (r: Result<(), Error>)
        requires
            old(self).envelope_inv(),
            old(self).role.wf(),
        ensures
            final(self).envelope_inv(),
            final(self).role == old(self).role,
            final(self).term == old(self).term,
            final(self).log.applied() == old(self).log.applied(),
            final(self).log.committed() == old(self).log.committed(),
            final(self).log@.take(old(self).log.committed() as int) == old(self).log@.take(
                old(self).log.committed() as int,
            ),
            !(old(self).role.leader_view() is Some && os_view(*from) == old(
                self,
            ).role.leader_view()) ==> *final(self) == *old(self) && r is Ok,
            old(self).role.leader_view() is Some && os_view(*from) == old(self).role.leader_view()
                ==> {
                let es = entries@.map_values(|e: Entry| e@);
                &&& (!has_entry(old(self).log@, base_index, base_term) ==> final(self).log@ == old(
                    self,
                ).log@ && final(self).msgs() == old(self).msgs().push(
                    sent_msg(
                        old(self).term,
                        old(self).id@,
                        os_view(*from),
                        EventView::RejectEntries,
                    ),
                ) && r is Ok)
                &&& (has_entry(old(self).log@, base_index, base_term) && r is Ok ==> {
                    let target = crate::raft::log::splice_result(old(self).log@, base_index, es);
                    final(self).log@ == target && final(self).msgs() == old(self).msgs().push(
                        sent_msg(
                            old(self).term,
                            old(self).id@,
                            os_view(*from),
                            EventView::AcceptEntries { last_index: target.len() as u64 },
                        ),
                    )
                })
            },
    {
        if !self.is_from_leader(from) {
            return Ok(());
        }
        match self.log.splice(base_index, base_term, entries) {
            Ok(last_index) => {
                self.send(opt_str(from), Event::AcceptEntries { last_index });
                Ok(())
            },
            Err(Error::RaftBaseNotFound { .. }) => {
                self.send(opt_str(from), Event::RejectEntries);
                Ok(())
            },
            Err(e) => Err(e),
        }
    }

    /// Adopts newly discovered terms and leaders from an inbound message.
    fn discover(&mut self, msg: &Message) -> (r: Result<(), Error>)
        requires
            old(self).envelope_inv(),
            old(self).role.wf(),
        ensures
            final(self).envelope_inv(),
            final(self).role.wf(),
            final(self).id == old(self).id,
            final(self).peers == old(self).peers,
            final(self).log@ == old(self).log@,
            final(self).log.committed() == old(self).log.committed(),
            final(self).log.applied() == old(self).log.applied(),
            final(self).msgs() == old(self).msgs(),
            msg@.from is None || msg@.term <= old(self).term ==> r is Ok,
            r is Err ==> final(self).term == old(self).term && final(self).role == old(self).role,
            r is Ok ==> {
                if msg@.from is Some && msg@.term > old(self).term {
                    &&& final(self).term == msg@.term
                    &&& final(self).role.leader_view() == msg@.from
                    &&& final(self).role.voted_view() is None
                    &&& final(self).role.proxy_view() == Map::<Seq<u8>, Option<Seq<char>>>::empty()
                    &&& final(self).log.store_view() == crate::raft::log::saved_term_view(
                        old(self).log.store_view(),
                        msg@.term,
                        None,
                    )
                } else if old(self).role.leader_view() is None && msg@.from is Some {
                    &&& final(self).term == old(self).term
                    &&& final(self).role.leader_view() == msg@.from
                    &&& final(self).role.voted_view() == old(self).role.voted_view()
                    &&& final(self).role.proxy_view() == Map::<Seq<u8>, Option<Seq<char>>>::empty()
                    &&& final(self).log.store_view() == old(self).log.store_view()
                } else {
                    *final(self) == *old(self)
                }
            },
    {
        if let Some(from) = &msg.from {
            if msg.term > self.term {
                match self.log.save_term(msg.term, None) {
                    Ok(()) => {},
                    Err(e) => {
                        return Err(e);
                    },
                }
                self.term = msg.term;
                self.role = Follower::new(Some(from.clone()), None);
                return Ok(());
            }
            if self.role.leader.is_none() {
                let voted = clone_opt_string(&self.role.voted_for);
                self.role = Follower::new(Some(from.clone()), voted);
            }
        }
        Ok(())
    }
}

impl<L: Store, M: State> RoleNode<Follower, L, M> {
    /// Starts an election: the node becomes a candidate at the next term,
    /// votes for itself, and solicits votes from every peer.
    fn become_candidate(self) -> (r: Result<Node<L, M>, Error>)
        requires
            self.envelope_inv(),
        ensures
            r matches Ok(n) ==> {
                &&& n.inv()
                &&& n.is_candidate_spec()
                &&& n.term_view() == self.term_spec() + 1
                &&& n.entries() == self.entries()
                &&& n.committed() == self.committed()
                &&& n.applied() == self.applied()
                &&& n.store_view() == crate::raft::log::saved_term_view(
                    self.store_view(),
                    (self.term_spec() + 1) as u64,
                    None,
                )
                &&& n.msgs() == self.msgs() + broadcast_msgs(
                    (self.term_spec() + 1) as u64,
                    self.id_view(),
                    self.peers_view(),
                    EventView::SolicitVote {
                        last_index: self.entries().len() as u64,
                        last_term: term_at(self.entries(), self.entries().len() as u64),
                    },
                )
            },
    {
        if self.term == u64::MAX {
            return Err(Error::Internal("the term cannot grow any further".to_owned()));
        }
        let role = Candidate::new(self.id.as_str());
        let mut node = RoleNode {
            id: self.id,
            peers: self.peers,
            term: self.term,
            log: self.log,
            state: self.state,
            outbox: self.outbox,
            role,
        };
        let next_term = node.term + 1;
        match node.save_term(next_term, None) {
            Ok(()) => {},
            Err(e) => {
                return Err(e);
            },
        }
        let (last_index, last_term) = node.log.get_last();
        node.broadcast(Event::SolicitVote { last_index, last_term });
        Ok(Node::Candidate(node))
    }

    /// Processes an inbound message as a follower.
    pub fn step(self, msg: Message) -> (r: Result<Node<L, M>, Error>)
        requires
            self.envelope_inv(),
            self.role_wf(),
        ensures
            follower_step_infallible(self, msg@) ==> r is Ok,
            r matches Ok(n) ==> follower_step_post(self, msg@, n),
    {
        let mut this = self;
        let mut msg = msg;
        let node_id = this.id.clone();
        msg.normalize(node_id.as_str(), this.term);
        match msg.validate(node_id.as_str(), this.term) {
            Ok(()) => {},
            Err(_) => {
                return Ok(Node::Follower(this));
            },
        }
        match this.discover(&msg) {
            Ok(()) => {},
            Err(e) => {
                return Err(e);
            },
        }
        if this.is_from_leader(&msg.from) {
            this.role.leader_seen_ticks = 0;
        }
        match msg.event {
            Event::Heartbeat { commit_index, commit_term } => {
                this.on_heartbeat(&msg.from, commit_index, commit_term);
            },
            Event::SolicitVote { last_index, last_term } => {
                match this.on_solicit_vote(&msg.from, last_index, last_term) {
                    Ok(()) => {},
                    Err(e) => {
                        return Err(e);
                    },
                }
            },
            Event::ReplicateEntries { base_index, base_term, entries } => {
                match this.on_replicate(&msg.from, base_index, base_term, entries) {
                    Ok(()) => {},
                    Err(e) => {
                        return Err(e);
                    },
                }
            },
            Event::ReadState { call_id, command } => {
                let cid = clone_bytes(&call_id);
                let originator = clone_opt_string(&msg.from);
                calls_insert(&mut this.role.proxy_calls, cid, originator);
                let leader = clone_opt_string(&this.role.leader);
                this.send(opt_str(&leader), Event::ReadState { call_id, command });
            },
            Event::MutateState { call_id, command } => {
                let cid = clone_bytes(&call_id);
                let originator = clone_opt_string(&msg.from);
                calls_insert(&mut this.role.proxy_calls, cid, originator);
                let leader = clone_opt_string(&this.role.leader);
                this.send(opt_str(&leader), Event::MutateState { call_id, command });
            },
            Event::RespondState { call_id, response } => {
                match calls_take(&mut this.role.proxy_calls, &call_id) {
                    Some(to) => {
                        this.send(opt_str(&to), Event::RespondState { call_id, response });
                    },
                    None => {},
                }
            },
            Event::RespondError { call_id, error } => {
                match calls_take(&mut this.role.proxy_calls, &call_id) {
                    Some(to) => {
                        this.send(opt_str(&to), Event::RespondError { call_id, error });
                    },
                    None => {},
                }
            },
            Event::ConfirmLeader { .. } => {},
            Event::GrantVote => {},
            Event::AcceptEntries { .. } => {},
            Event::RejectEntries => {},
        }
        Ok(Node::Follower(this))
    }

    /// Moves time forward by a tick: applies every committed entry, and
    /// starts an election when the leader has been quiet for too long.
    pub fn tick(self) -> (r: Result<Node<L, M>, Error>)
        requires
            self.envelope_inv(),
            self.role_wf(),
        ensures
            follower_tick_infallible(self) ==> r is Ok,
            r matches Ok(n) ==> follower_tick_post(self, n),
    {
        let mut this = self;
        let ghost orig = this;
        loop
            invariant
                orig == self,
                this.envelope_inv(),
                this.role.wf(),
                this == (RoleNode { log: this.log, state: this.state, ..orig }),
                this.log@ == orig.log@,
                this.log.committed() == orig.log.committed(),
                this.log.applied() >= orig.log.applied(),
                this.log.store_view() == drained_store(
                    orig.store_view(),
                    orig.log.applied(),
                    this.log.applied(),
                ),
            ensures
                this.envelope_inv(),
                this.role.wf(),
                this == (RoleNode { log: this.log, state: this.state, ..orig }),
                this.log@ == orig.log@,
                this.log.committed() == orig.log.committed(),
                this.log.applied() == this.log.committed(),
                this.log.store_view() == drained_store(
                    orig.store_view(),
                    orig.log.applied(),
                    orig.log.committed(),
                ),
            decreases this.log.committed() - this.log.applied(),
        {
            let ghost before = this.log.store_view();
            match this.log.apply_pending(&mut this.state) {
                Ok(Some(_)) => {
                    proof {
                        if orig.log.applied() < this.log.applied() - 1 {
                            assert(this.log.store_view() =~= orig.store_view().insert(
                                crate::raft::log::apply_key(),
                                crate::codec::enc_u64(this.log.applied()),
                            ));
                        }
                    }
                },
                Ok(None) => {
                    proof {
                        this.log.lemma_watermarks_ordered();
                    }
                    break;
                },
                Err(e) => {
                    return Err(e);
                },
            }
        }
        this.role.leader_seen_ticks = this.role.leader_seen_ticks + 1;
        if this.role.leader_seen_ticks >= this.role.leader_seen_timeout {
            this.become_candidate()
        } else {
            Ok(Node::Follower(this))
        }
    }
}

// ---------------------------------------------------------------------------
// Candidate
// ---------------------------------------------------------------------------

/// The quorum size of a cluster with the given number of peers.
pub open spec fn quorum_of(n_peers: int) -> int {
    (n_peers + 1) / 2 + 1
}

/// Some listed voter carries the name.
pub open spec fn has_vote(votes: Seq<Seq<char>>, name: Option<Seq<char>>) -> bool {
    name matches Some(v) && exists|i: int| 0 <= i < votes.len() && votes[i] == v
}

/// Everything a candidate's step leaves behind. An invalid message changes
/// nothing; a higher term or a leader's message turns the candidate into a
/// follower; a vote is counted once per voter and a quorum makes the node
/// the leader, anchored by a noop entry and announced with a heartbeat.
pub open spec fn candidate_step_post<L: Store, M: State>(
    pre: RoleNode<Candidate, L, M>,
    m: MessageView,
    n: Node<L, M>,
) -> bool {
    let nm = normalized(m, pre.id_view(), pre.term_spec());
    let valid = message_valid(nm, pre.id_view(), pre.term_spec());
    let bump = nm.from is Some && nm.term > pre.term_spec();
    &&& n.inv()
    &&& n.term_view() >= pre.term_spec()
    &&& (!valid ==> n == Node::<L, M>::Candidate(pre))
    &&& (valid && bump ==> n.is_follower_spec() && n.term_view() >= nm.term)
    &&& (valid && !bump ==> match nm.event {
        EventView::Heartbeat { .. } => n.is_follower_spec() && n.term_view() == pre.term_spec(),
        EventView::ReplicateEntries { .. } => n.is_follower_spec(),
        EventView::GrantVote => {
            if nm.from is None {
                n == Node::<L, M>::Candidate(pre)
            } else {
                let counted = if has_vote(pre.votes_view(), nm.from) {
                    pre.votes_view().len() as int
                } else {
                    pre.votes_view().len() + 1int
                };
                if counted >= quorum_of(pre.peers_view().len() as int) {
                    &&& n.is_leader_spec()
                    &&& n.term_view() == pre.term_spec()
                    &&& n.entries() == pre.entries().push(
                        EntryView { term: pre.term_spec(), command: None },
                    )
                    &&& n.committed() == pre.committed()
                    &&& n.applied() == pre.applied()
                    &&& n.msgs() == pre.msgs() + broadcast_msgs(
                        pre.term_spec(),
                        pre.id_view(),
                        pre.peers_view(),
                        EventView::Heartbeat {
                            commit_index: pre.committed(),
                            commit_term: term_at(pre.entries(), pre.committed()),
                        },
                    )
                } else {
                    &&& n.is_candidate_spec()
                    &&& n.term_view() == pre.term_spec()
                    &&& n.entries() == pre.entries()
                    &&& n.committed() == pre.committed()
                    &&& n.msgs() == pre.msgs()
                    &&& n.store_view() == pre.store_view()
                }
            }
        },
        _ => n == Node::<L, M>::Candidate(pre),
    })
}

/// The inputs on which a candidate's step cannot fail: nothing is persisted
/// and no log is spliced, so no store write can be refused.
pub open spec fn candidate_step_infallible<L: Store, M: State>(
    pre: RoleNode<Candidate, L, M>,
    m: MessageView,
) -> bool {
    let nm = normalized(m, pre.id_view(), pre.term_spec());
    let valid = message_valid(nm, pre.id_view(), pre.term_spec());
    let bump = nm.from is Some && nm.term > pre.term_spec();
    ||| !valid
    ||| (!bump && match nm.event {
        EventView::Heartbeat { .. } => true,
        EventView::ReplicateEntries { .. } => false,
        EventView::GrantVote => {
            let counted = if has_vote(pre.votes_view(), nm.from) {
                pre.votes_view().len() as int
            } else {
                pre.votes_view().len() + 1int
            };
            nm.from is None || counted < quorum_of(pre.peers_view().len() as int)
        },
        _ => true,
    })
}

/// Everything a candidate's tick leaves behind: all committed entries are
/// applied, and a stale election restarts at the next term.
pub open spec fn candidate_tick_post<L: Store, M: State>(
    pre: RoleNode<Candidate, L, M>,
    n: Node<L, M>,
) -> bool {
    let drained = drained_store(pre.store_view(), pre.applied(), pre.committed());
    &&& n.inv()
    &&& n.is_candidate_spec()
    &&& n.entries() == pre.entries()
    &&& n.committed() == pre.committed()
    &&& n.applied() == n.committed()
    &&& (pre.election_ticks_spec() + 1 < pre.election_timeout_spec() ==> {
        &&& n.term_view() == pre.term_spec()
        &&& n.msgs() == pre.msgs()
        &&& n.store_view() == drained
    })
    &&& (pre.election_ticks_spec() + 1 >= pre.election_timeout_spec() ==> {
        &&& n.term_view() == pre.term_spec() + 1
        &&& n.store_view() == crate::raft::log::saved_term_view(
            drained,
            (pre.term_spec() + 1) as u64,
            None,
        )
        &&& n.msgs() == pre.msgs() + broadcast_msgs(
            (pre.term_spec() + 1) as u64,
            pre.id_view(),
            pre.peers_view(),
            EventView::SolicitVote {
                last_index: pre.entries().len() as u64,
                last_term: term_at(pre.entries(), pre.entries().len() as u64),
            },
        )
    })
}

/// The inputs on which a candidate's tick cannot fail: nothing left to apply
/// and no election restart due.
pub open spec fn candidate_tick_infallible<L: Store, M: State>(
    pre: RoleNode<Candidate, L, M>,
) -> bool {
    pre.applied() == pre.committed() && pre.election_ticks_spec() + 1
        < pre.election_timeout_spec()
}

impl<L: Store, M: State> RoleNode<Candidate, L, M> {
    /// The candidate role's well-formedness.
    pub closed spec fn role_wf(&self) -> bool {
        self.role.wf()
    }

    /// The voters that granted this candidacy, the node itself included.
    pub closed spec fn votes_view(&self) -> Seq<Seq<char>> {
        self.role.votes@.map_values(|p: String| p@)
    }

    /// Ticks since the election began.
    pub closed spec fn election_ticks_spec(&self) -> u64 {
        self.role.election_ticks
    }

    /// The timeout before the election restarts.
    pub closed spec fn election_timeout_spec(&self) -> u64 {
        self.role.election_timeout
    }

    /// Becomes a follower of the given leader in the current term.
    fn into_follower(self, leader: Option<String>, voted_for: Option<String>) -> (r: RoleNode<
        Follower,
        L,
        M,
    >)
        requires
            self.envelope_inv(),
        ensures
            r.envelope_inv(),
            r.role_wf(),
            r.term_spec() == self.term_spec(),
            r.msgs() == self.msgs(),
    {
        RoleNode {
            id: self.id,
            peers: self.peers,
            term: self.term,
            log: self.log,
            state: self.state,
            outbox: self.outbox,
            role: Follower::new(leader, voted_for),
        }
    }

    /// Becomes the leader: anchors commit progression with a noop entry at
    /// the new term and announces itself with a heartbeat.
    fn become_leader(self) -> (r: Result<Node<L, M>, Error>)
        requires
            self.envelope_inv(),
        ensures
            r matches Ok(n) ==> {
                &&& n.inv()
                &&& n.is_leader_spec()
                &&& n.term_view() == self.term_spec()
                &&& n.entries() == self.entries().push(
                    EntryView { term: self.term_spec(), command: None },
                )
                &&& n.committed() == self.committed()
                &&& n.applied() == self.applied()
                &&& n.msgs() == self.msgs() + broadcast_msgs(
                    self.term_spec(),
                    self.id_view(),
                    self.peers_view(),
                    EventView::Heartbeat {
                        commit_index: self.committed(),
                        commit_term: term_at(self.entries(), self.committed()),
                    },
                )
            },
    {
        proof {
            self.log.lemma_watermarks_ordered();
        }
        let (last_index, _) = self.log.get_last();
        if last_index == u64::MAX {
            return Err(Error::Internal("the log is full".to_owned()));
        }
        let role = Leader::new(self.peers.len(), last_index);
        let mut node = RoleNode {
            id: self.id,
            peers: self.peers,
            term: self.term,
            log: self.log,
            state: self.state,
            outbox: self.outbox,
            role,
        };
        match node.log.append(Entry { term: node.term, command: None }) {
            Ok(_) => {},
            Err(e) => {
                return Err(e);
            },
        }
        proof {
            node.log.lemma_watermarks_ordered();
            assert(node.log@ == self.entries().push(
                EntryView { term: self.term_spec(), command: None },
            ));
            assert(node.log.committed() == self.committed());
            if 1 <= node.log.committed() <= self.entries().len() {
                assert(node.log@[node.log.committed() - 1] == self.entries()[node.log.committed()
                    - 1]);
            }
            assert(term_at(node.log@, node.log.committed()) == term_at(
                self.entries(),
                self.committed(),
            ));
        }
        let (commit_index, commit_term) = node.log.get_committed();
        node.broadcast(Event::Heartbeat { commit_index, commit_term });
        Ok(Node::Leader(node))
    }

    /// Processes an inbound message as a candidate.
    pub fn step(self, msg: Message) -> (r: Result<Node<L, M>, Error>)
        requires
            self.envelope_inv(),
            self.role_wf(),
        ensures
            candidate_step_infallible(self, msg@) ==> r is Ok,
            r matches Ok(n) ==> candidate_step_post(self, msg@, n),
    {
        let mut this = self;
        let mut msg = msg;
        let node_id = this.id.clone();
        msg.normalize(node_id.as_str(), this.term);
        match msg.validate(node_id.as_str(), this.term) {
            Ok(()) => {},
            Err(_) => {
                return Ok(Node::Candidate(this));
            },
        }
        // A newer term turns the candidate into a follower of the sender.
        if msg.from.is_some() && msg.term > this.term {
            let from = clone_opt_string(&msg.from);
            match this.log.save_term(msg.term, None) {
                Ok(()) => {},
                Err(e) => {
                    return Err(e);
                },
            }
            this.term = msg.term;
            return this.into_follower(from, None).step(msg);
        }
        match msg.event {
            Event::Heartbeat { .. } => {
                let from = clone_opt_string(&msg.from);
                return this.into_follower(from, None).step(msg);
            },
            Event::ReplicateEntries { .. } => {
                let from = clone_opt_string(&msg.from);
                return this.into_follower(from, None).step(msg);
            },
            Event::GrantVote => {
                if let Some(from) = &msg.from {
                    let mut known: bool = false;
                    let mut i: usize = 0;
                    while i < this.role.votes.len()
                        invariant
                            this == self,
                            i <= this.role.votes@.len(),
                            os_view(msg.from) == Some(from@),
                            known == exists|j: int|
                                0 <= j < i && (#[trigger] this.role.votes@[j])@ == from@,
                        decreases this.role.votes@.len() - i,
                    {
                        if str_eq(this.role.votes[i].as_str(), from.as_str()) {
                            known = true;
                            proof {
                                assert((this.role.votes@[i as int])@ == from@);
                            }
                        }
                        i = i + 1;
                    }
                    proof {
                        assert(forall|j: int|
                            0 <= j < this.role.votes@.len() ==> self.votes_view()[j] == (
                            #[trigger] this.role.votes@[j])@);
                        if known {
                            let j = choose|j: int|
                                0 <= j < i && (#[trigger] this.role.votes@[j])@ == from@;
                            assert(self.votes_view()[j] == from@);
                        } else {
                            if has_vote(self.votes_view(), Some(from@)) {
                                let j = choose|j: int|
                                    0 <= j < self.votes_view().len() && self.votes_view()[j]
                                        == from@;
                                assert((this.role.votes@[j])@ == from@);
                            }
                        }
                        assert(known == has_vote(self.votes_view(), Some(from@)));
                    }
                    if !known {
                        let ghost prev = this.role.votes@;
                        this.role.votes.push(from.clone());
                        proof {
                            assert(forall|j: int|
                                0 <= j < prev.len() ==> #[trigger] this.role.votes@[j] == prev[
                                j]);
                            assert(this.votes_view() =~= prev.map_values(|p: String| p@).push(
                                from@,
                            ));
                        }
                    }
                    let votes = this.role.votes.len();
                    let quorum = this.quorum();
                    if votes as u64 >= quorum {
                        return this.become_leader();
                    }
                }
            },
            _ => {},
        }
        Ok(Node::Candidate(this))
    }

    /// Moves time forward by a tick: applies committed entries and restarts
    /// the election when it has dragged on for too long.
    pub fn tick(self) -> (r: Result<Node<L, M>, Error>)
        requires
            self.envelope_inv(),
            self.role_wf(),
        ensures
            candidate_tick_infallible(self) ==> r is Ok,
            r matches Ok(n) ==> candidate_tick_post(self, n),
    {
        let mut this = self;
        let ghost orig = this;
        loop
            invariant
                orig == self,
                this.envelope_inv(),
                this.role.wf(),
                this == (RoleNode { log: this.log, state: this.state, ..orig }),
                this.log@ == orig.log@,
                this.log.committed() == orig.log.committed(),
                this.log.applied() >= orig.log.applied(),
                this.log.store_view() == drained_store(
                    orig.store_view(),
                    orig.log.applied(),
                    this.log.applied(),
                ),
            ensures
                this.envelope_inv(),
                this.role.wf(),
                this == (RoleNode { log: this.log, state: this.state, ..orig }),
                this.log@ == orig.log@,
                this.log.committed() == orig.log.committed(),
                this.log.applied() == this.log.committed(),
                this.log.store_view() == drained_store(
                    orig.store_view(),
                    orig.log.applied(),
                    orig.log.committed(),
                ),
            decreases this.log.committed() - this.log.applied(),
        {
            match this.log.apply_pending(&mut this.state) {
                Ok(Some(_)) => {
                    proof {
                        if orig.log.applied() < this.log.applied() - 1 {
                            assert(this.log.store_view() =~= orig.store_view().insert(
                                crate::raft::log::apply_key(),
                                crate::codec::enc_u64(this.log.applied()),
                            ));
                        }
                    }
                },
                Ok(None) => {
                    proof {
                        this.log.lemma_watermarks_ordered();
                    }
                    break;
                },
                Err(e) => {
                    return Err(e);
                },
            }
        }
        this.role.election_ticks = this.role.election_ticks + 1;
        if this.role.election_ticks >= this.role.election_timeout {
            // Restart the election at the next term.
            if this.term == u64::MAX {
                return Err(Error::Internal("the term cannot grow any further".to_owned()));
            }
            let next_term = this.term + 1;
            match this.save_term(next_term, None) {
                Ok(()) => {},
                Err(e) => {
                    return Err(e);
                },
            }
            this.role = Candidate::new(this.id.clone().as_str());
            let (last_index, last_term) = this.log.get_last();
            this.broadcast(Event::SolicitVote { last_index, last_term });
        }
        Ok(Node::Candidate(this))
    }
}

// ---------------------------------------------------------------------------
// Leader
// ---------------------------------------------------------------------------

/// How many peers report a match at or above an index.
pub open spec fn count_matched(ms: Seq<u64>, n: u64) -> int
    decreases ms.len(),
{
    if ms.len() == 0 {
        0
    } else {
        count_matched(ms.drop_last(), n) + if ms.last() >= n {
            1int
        } else {
            0int
        }
    }
}

/// No more peers report a match than there are peers.
proof fn lemma_count_matched_bound(ms: Seq<u64>, n: u64)
    ensures
        0 <= count_matched(ms, n) <= ms.len(),
    decreases ms.len(),
{
    if ms.len() > 0 {
        lemma_count_matched_bound(ms.drop_last(), n);
    }
}

/// Counts the peers whose reported match is at or above an index.
fn count_matched_exec(ms: &Vec<u64>, n: u64) -> (r: usize)
    ensures
        r == count_matched(ms@, n),
{
    let mut count: usize = 0;
    let mut i: usize = 0;
    while i < ms.len()
        invariant
            i <= ms@.len(),
            count == count_matched(ms@.take(i as int), n),
            count <= i,
        decreases ms@.len() - i,
    {
        proof {
            assert(ms@.take(i + 1).drop_last() =~= ms@.take(i as int));
        }
        if ms[i] >= n {
            count = count + 1;
        }
        i = i + 1;
    }
    proof {
        assert(ms@.take(ms@.len() as int) =~= ms@);
    }
    count
}

/// The position of the first listed name equal to `name`, or -1.
pub open spec fn peer_index_of(peers: Seq<Seq<char>>, name: Seq<char>) -> int
    decreases peers.len(),
{
    if peers.len() == 0 {
        -1
    } else if peers[0] == name {
        0
    } else {
        let rest = peer_index_of(peers.skip(1), name);
        if rest < 0 {
            -1
        } else {
            rest + 1
        }
    }
}

/// What `peer_index_of` finds: the least matching position, if any.
pub proof fn lemma_peer_index_of(peers: Seq<Seq<char>>, name: Seq<char>, i: int)
    requires
        0 <= i <= peers.len(),
        forall|j: int| 0 <= j < i ==> peers[j] != name,
        i < peers.len() ==> peers[i] == name,
    ensures
        peer_index_of(peers, name) == if i < peers.len() {
            i
        } else {
            -1int
        },
    decreases peers.len(),
{
    if peers.len() > 0 && i > 0 {
        assert(forall|j: int| 0 <= j < i - 1 ==> #[trigger] peers.skip(1)[j] == peers[j + 1]);
        lemma_peer_index_of(peers.skip(1), name, i - 1);
    }
}

/// The position of the first in-flight call row at a log index, or -1.
pub open spec fn calls_find(
    cs: Seq<(u64, Seq<u8>, Option<Seq<char>>)>,
    index: u64,
) -> int
    decreases cs.len(),
{
    if cs.len() == 0 {
        -1
    } else if cs[0].0 == index {
        0
    } else {
        let rest = calls_find(cs.skip(1), index);
        if rest < 0 {
            -1
        } else {
            rest + 1
        }
    }
}

/// What `calls_find` finds: the least matching row, if any.
pub proof fn lemma_calls_find(cs: Seq<(u64, Seq<u8>, Option<Seq<char>>)>, index: u64, i: int)
    requires
        0 <= i <= cs.len(),
        forall|j: int| 0 <= j < i ==> (#[trigger] cs[j]).0 != index,
        i < cs.len() ==> cs[i].0 == index,
    ensures
        calls_find(cs, index) == if i < cs.len() {
            i
        } else {
            -1int
        },
    decreases cs.len(),
{
    if cs.len() > 0 && i > 0 {
        assert(forall|j: int| 0 <= j < i - 1 ==> #[trigger] cs.skip(1)[j] == cs[j + 1]);
        lemma_calls_find(cs.skip(1), index, i - 1);
    }
}

/// The replication message a leader sends a peer whose next expected entry
/// is `next`: everything from `next` on, onto the entry just below it.
pub open spec fn replication_to(
    entries: Seq<EntryView>,
    term: u64,
    from: Seq<char>,
    peer: Seq<char>,
    next: u64,
) -> MessageView {
    let base = if next > 0 {
        (next - 1) as u64
    } else {
        0
    };
    sent_msg(
        term,
        from,
        Some(peer),
        EventView::ReplicateEntries {
            base_index: base,
            base_term: term_at(entries, base),
            entries: entries.skip(crate::raft::log::range_start(next, entries.len() as u64)),
        },
    )
}

/// What `calls_find` means, spelled out: the least matching row, or none.
pub proof fn lemma_calls_find_props(cs: Seq<(u64, Seq<u8>, Option<Seq<char>>)>, index: u64)
    ensures
        calls_find(cs, index) >= 0 ==> 0 <= calls_find(cs, index) < cs.len() && cs[calls_find(
            cs,
            index,
        )].0 == index,
        calls_find(cs, index) < 0 ==> forall|j: int|
            0 <= j < cs.len() ==> (#[trigger] cs[j]).0 != index,
    decreases cs.len(),
{
    if cs.len() > 0 && cs[0].0 != index {
        lemma_calls_find_props(cs.skip(1), index);
        if calls_find(cs, index) < 0 {
            assert forall|j: int| 0 <= j < cs.len() implies (#[trigger] cs[j]).0 != index by {
                if j >= 1 {
                    assert(cs[j] == cs.skip(1)[j - 1]);
                }
            }
        }
    }
}

/// Exactly one message was queued on top of the earlier ones: a respond
/// event closing out the given call, stamped and addressed as stated.
pub open spec fn pushed_respond(
    pre_msgs: Seq<MessageView>,
    post_msgs: Seq<MessageView>,
    term: u64,
    from: Seq<char>,
    to: Option<Seq<char>>,
    call_id: Seq<u8>,
) -> bool {
    &&& post_msgs.len() == pre_msgs.len() + 1
    &&& post_msgs.take(pre_msgs.len() as int) == pre_msgs
    &&& post_msgs.last().term == term
    &&& post_msgs.last().from == Some(from)
    &&& post_msgs.last().to == to
    &&& is_respond(post_msgs.last().event)
    &&& event_call_id(post_msgs.last().event) == Some(call_id)
}

/// A single committed entry was applied and its in-flight call, if any, was
/// answered with one respond event.
pub open spec fn one_respond_done<L: Store, M: State>(
    pre: RoleNode<Leader, L, M>,
    post: RoleNode<Leader, L, M>,
) -> bool {
    let cs = pre.calls_view();
    let j = calls_find(cs, pre.committed());
    &&& (j >= 0 ==> exists|ev: EventView|
        #![trigger event_call_id(ev)]
        is_respond(ev) && event_call_id(ev) == Some(cs[j].1) && post.msgs() == pre.msgs().push(
            sent_msg(pre.term_spec(), pre.id_view(), cs[j].2, ev),
        ) && post.calls_view() == cs.remove(j))
    &&& (j < 0 ==> post.msgs() == pre.msgs() && post.calls_view() == cs)
}

/// One replication message per peer, in peer order.
pub open spec fn replications_all(
    entries: Seq<EntryView>,
    term: u64,
    from: Seq<char>,
    peers: Seq<Seq<char>>,
    nexts: Seq<u64>,
) -> Seq<MessageView> {
    Seq::new(peers.len(), |i: int| replication_to(entries, term, from, peers[i], nexts[i]))
}

/// Everything a leader's step leaves behind, per event. An invalid message
/// changes nothing; a higher term steps the leader down; acceptances move
/// the peer's watermarks and drive the quorum commit rule; mutations are
/// appended and answered; reads are answered at once or held for a quorum.
pub open spec fn leader_step_post<L: Store, M: State>(
    pre: RoleNode<Leader, L, M>,
    m: MessageView,
    n: Node<L, M>,
) -> bool {
    let nm = normalized(m, pre.id_view(), pre.term_spec());
    let valid = message_valid(nm, pre.id_view(), pre.term_spec());
    let bump = nm.from is Some && nm.term > pre.term_spec();
    &&& n.inv()
    &&& n.term_view() >= pre.term_spec()
    &&& (!valid ==> n == Node::<L, M>::Leader(pre))
    &&& (valid && bump ==> n.is_follower_spec() && n.term_view() >= nm.term)
    &&& (valid && !bump ==> match nm.event {
        EventView::ConfirmLeader { commit_index, has_committed } => {
            &&& n.is_leader_spec()
            &&& n.term_view() == pre.term_spec()
            &&& n.entries() == pre.entries()
            &&& n.committed() == pre.committed()
            &&& n.applied() == pre.applied()
            &&& n.match_view() == pre.match_view()
            &&& n.calls_view() == pre.calls_view()
            &&& (!has_committed ==> match nm.from {
                Some(name) => {
                    let i = peer_index_of(pre.peers_view(), name);
                    if i >= 0 && pre.match_view()[i] < u64::MAX {
                        let next = (pre.match_view()[i] + 1) as u64;
                        &&& n.next_view() == pre.next_view().update(i, next)
                        &&& n.msgs() == pre.msgs().push(
                            replication_to(
                                pre.entries(),
                                pre.term_spec(),
                                pre.id_view(),
                                pre.peers_view()[i],
                                next,
                            ),
                        )
                    } else if i < 0 {
                        n == Node::<L, M>::Leader(pre)
                    } else {
                        true
                    }
                },
                None => true,
            })
            &&& (has_committed ==> n.next_view() == pre.next_view() && (match nm.from {
                Some(peer) => {
                    let quorum = quorum_of(pre.peers_view().len() as int);
                    let answered = answered_reads(pre.reads_view(), peer, commit_index, quorum);
                    &&& n.reads_view() == kept_reads(
                        pre.reads_view(),
                        peer,
                        commit_index,
                        quorum,
                    )
                    &&& n.msgs().len() == pre.msgs().len() + answered.len()
                    &&& n.msgs().take(pre.msgs().len() as int) == pre.msgs()
                    &&& forall|k: int|
                        0 <= k < answered.len() ==> {
                            let mv = #[trigger] n.msgs()[pre.msgs().len() + k];
                            &&& mv.term == pre.term_spec()
                            &&& mv.from == Some(pre.id_view())
                            &&& mv.to == answered[k].from
                            &&& is_respond(mv.event)
                            &&& event_call_id(mv.event) == Some(answered[k].call_id)
                        }
                },
                None => true,
            }))
        },
        EventView::AcceptEntries { last_index } => {
            &&& n.is_leader_spec()
            &&& n.term_view() == pre.term_spec()
            &&& n.entries() == pre.entries()
            &&& n.committed() >= pre.committed()
            &&& n.applied() == n.committed()
            &&& (pre.applied() == pre.committed() && n.committed() == pre.committed() ==> n.msgs()
                == pre.msgs() && n.calls_view() == pre.calls_view())
            &&& (pre.applied() == pre.committed() && n.committed() == pre.committed() + 1 ==> {
                let cs = pre.calls_view();
                let j = calls_find(cs, (pre.committed() + 1) as u64);
                &&& (j >= 0 ==> exists|ev: EventView|
                    #![trigger event_call_id(ev)]
                    is_respond(ev) && event_call_id(ev) == Some(cs[j].1) && n.msgs()
                        == pre.msgs().push(
                        sent_msg(pre.term_spec(), pre.id_view(), cs[j].2, ev),
                    ) && n.calls_view() == cs.remove(j))
                &&& (j < 0 ==> n.msgs() == pre.msgs() && n.calls_view() == cs)
            })
            &&& (match nm.from {
                Some(name) => {
                    let i = peer_index_of(pre.peers_view(), name);
                    if i >= 0 {
                        let matched = crate::raft::log::min_u64(
                            last_index,
                            pre.entries().len() as u64,
                        );
                        let m2 = pre.match_view().update(i, matched);
                        &&& n.match_view() == m2
                        &&& forall|q: u64|
                            1 <= q <= pre.entries().len() && term_at(pre.entries(), q)
                                == pre.term_spec() && count_matched(m2, q) + 1 >= quorum_of(
                                pre.peers_view().len() as int,
                            ) ==> n.committed() >= q
                    } else {
                        &&& n.match_view() == pre.match_view()
                        &&& forall|q: u64|
                            1 <= q <= pre.entries().len() && term_at(pre.entries(), q)
                                == pre.term_spec() && count_matched(pre.match_view(), q) + 1
                                >= quorum_of(pre.peers_view().len() as int) ==> n.committed() >= q
                    }
                },
                None => true,
            })
        },
        EventView::RejectEntries => {
            &&& n.is_leader_spec()
            &&& n.term_view() == pre.term_spec()
            &&& n.entries() == pre.entries()
            &&& n.committed() == pre.committed()
            &&& n.applied() == pre.applied()
            &&& n.match_view() == pre.match_view()
            &&& n.calls_view() == pre.calls_view()
            &&& (match nm.from {
                Some(name) => {
                    let i = peer_index_of(pre.peers_view(), name);
                    if i >= 0 {
                        let next = if pre.next_view()[i] > 1 {
                            (pre.next_view()[i] - 1) as u64
                        } else {
                            pre.next_view()[i]
                        };
                        &&& n.next_view() == pre.next_view().update(i, next)
                        &&& n.msgs() == pre.msgs().push(
                            replication_to(
                                pre.entries(),
                                pre.term_spec(),
                                pre.id_view(),
                                pre.peers_view()[i],
                                next,
                            ),
                        )
                    } else {
                        n == Node::<L, M>::Leader(pre)
                    }
                },
                None => true,
            })
        },
        EventView::MutateState { call_id, command } => {
            let appended = pre.entries().push(
                EntryView { term: pre.term_spec(), command: Some(command) },
            );
            &&& n.is_leader_spec()
            &&& n.term_view() == pre.term_spec()
            &&& n.committed() >= pre.committed()
            &&& (n.entries() == appended || (n.entries() == pre.entries() && pushed_respond(
                pre.msgs(),
                n.msgs(),
                pre.term_spec(),
                pre.id_view(),
                nm.from,
                call_id,
            )))
            &&& (pre.peers_view().len() == 0 && pre.applied() == pre.committed()
                && pre.committed() == pre.entries().len() && calls_find(
                pre.calls_view(),
                (pre.entries().len() + 1) as u64,
            ) < 0 && n.entries() == appended ==> {
                &&& n.committed() == pre.entries().len() + 1
                &&& n.applied() == n.committed()
                &&& pushed_respond(
                    pre.msgs(),
                    n.msgs(),
                    pre.term_spec(),
                    pre.id_view(),
                    nm.from,
                    call_id,
                )
            })
        },
        EventView::ReadState { call_id, command } => {
            &&& n.is_leader_spec()
            &&& n.term_view() == pre.term_spec()
            &&& n.entries() == pre.entries()
            &&& n.committed() == pre.committed()
            &&& n.applied() == pre.applied()
            &&& n.match_view() == pre.match_view()
            &&& n.next_view() == pre.next_view()
            &&& (pre.peers_view().len() == 0 ==> pushed_respond(
                pre.msgs(),
                n.msgs(),
                pre.term_spec(),
                pre.id_view(),
                nm.from,
                call_id,
            ) && n.reads_view() == pre.reads_view())
            &&& (pre.peers_view().len() > 0 ==> n.msgs() == pre.msgs() + broadcast_msgs(
                pre.term_spec(),
                pre.id_view(),
                pre.peers_view(),
                EventView::Heartbeat {
                    commit_index: pre.committed(),
                    commit_term: term_at(pre.entries(), pre.committed()),
                },
            ) && n.reads_view() == pre.reads_view().push(
                ReadView {
                    call_id,
                    from: nm.from,
                    command,
                    commit_index: pre.committed(),
                    confirmed: Seq::empty(),
                },
            ))
        },
        _ => n == Node::<L, M>::Leader(pre),
    })
}

/// The inputs on which a leader's step cannot fail: nothing is appended or
/// applied, so neither the store nor the state machine is asked to work.
pub open spec fn leader_step_infallible<L: Store, M: State>(
    pre: RoleNode<Leader, L, M>,
    m: MessageView,
) -> bool {
    let nm = normalized(m, pre.id_view(), pre.term_spec());
    let valid = message_valid(nm, pre.id_view(), pre.term_spec());
    let bump = nm.from is Some && nm.term > pre.term_spec();
    ||| !valid
    ||| (!bump && match nm.event {
        EventView::AcceptEntries { .. } => false,
        EventView::MutateState { .. } => false,
        _ => true,
    })
}

/// Everything a leader's tick leaves behind: committed entries are applied,
/// and the periodic heartbeat goes out to every peer.
pub open spec fn leader_tick_post<L: Store, M: State>(
    pre: RoleNode<Leader, L, M>,
    n: Node<L, M>,
) -> bool {
    &&& n.inv()
    &&& n.is_leader_spec()
    &&& n.term_view() == pre.term_spec()
    &&& n.entries() == pre.entries()
    &&& n.committed() == pre.committed()
    &&& n.applied() == n.committed()
    &&& n.match_view() == pre.match_view()
    &&& n.next_view() == pre.next_view()
    &&& (pre.applied() == pre.committed() ==> {
        &&& (pre.heartbeat_ticks_spec() + 1 >= HEARTBEAT_INTERVAL ==> n.msgs() == pre.msgs()
            + broadcast_msgs(
            pre.term_spec(),
            pre.id_view(),
            pre.peers_view(),
            EventView::Heartbeat {
                commit_index: pre.committed(),
                commit_term: term_at(pre.entries(), pre.committed()),
            },
        ))
        &&& (pre.heartbeat_ticks_spec() + 1 < HEARTBEAT_INTERVAL ==> n.msgs() == pre.msgs())
    })
}

/// The inputs on which a leader's tick cannot fail: nothing left to apply.
pub open spec fn leader_tick_infallible<L: Store, M: State>(
    pre: RoleNode<Leader, L, M>,
) -> bool {
    pre.applied() == pre.committed()
}

impl<L: Store, M: State> RoleNode<Leader, L, M> {
    /// The leader role's well-formedness.
    pub closed spec fn role_wf(&self) -> bool {
        self.role.wf(self.peers@.len() as int)
    }

    /// The highest entry known replicated, per peer.
    pub closed spec fn match_view(&self) -> Seq<u64> {
        self.role.match_view()
    }

    /// The next entry to replicate, per peer.
    pub closed spec fn next_view(&self) -> Seq<u64> {
        self.role.next_view()
    }

    /// The in-flight client mutations: log index, call ID, originator.
    pub closed spec fn calls_view(&self) -> Seq<(u64, Seq<u8>, Option<Seq<char>>)> {
        self.role.calls@.map_values(
            |c: (u64, Vec<u8>, Option<String>)| (c.0, c.1@, os_view(c.2)),
        )
    }

    /// Ticks since the last heartbeat broadcast.
    pub closed spec fn heartbeat_ticks_spec(&self) -> u64 {
        self.role.heartbeat_ticks
    }

    /// The in-flight linearizable reads, oldest first.
    pub closed spec fn reads_view(&self) -> Seq<ReadView> {
        self.role.reads@.map_values(|r: ReadTracker| r@)
    }

    /// Becomes a follower of the given leader in the current term.
    fn into_follower(self, leader: Option<String>, voted_for: Option<String>) -> (r: RoleNode<
        Follower,
        L,
        M,
    >)
        requires
            self.envelope_inv(),
        ensures
            r.envelope_inv(),
            r.role_wf(),
            r.term_spec() == self.term_spec(),
            r.msgs() == self.msgs(),
    {
        RoleNode {
            id: self.id,
            peers: self.peers,
            term: self.term,
            log: self.log,
            state: self.state,
            outbox: self.outbox,
            role: Follower::new(leader, voted_for),
        }
    }

    /// The position of a peer in the peer list, if the sender is a peer:
    /// exactly the first listed name that matches.
    fn peer_index(&self, from: &Option<String>) -> (r: Option<usize>)
        ensures
            match os_view(*from) {
                Some(name) => {
                    let at = peer_index_of(self.peers_view(), name);
                    &&& (r matches Some(i) ==> at == i && i < self.peers_view().len()
                        && self.peers_view()[i as int] == name)
                    &&& (r is None ==> at < 0)
                },
                None => r is None,
            },
    {
        if let Some(name) = from {
            let mut i: usize = 0;
            while i < self.peers.len()
                invariant
                    i <= self.peers@.len(),
                    os_view(*from) == Some(name@),
                    forall|j: int| 0 <= j < i ==> self.peers_view()[j] != name@,
                decreases self.peers@.len() - i,
            {
                if str_eq(self.peers[i].as_str(), name.as_str()) {
                    proof {
                        assert(self.peers_view()[i as int] == self.peers@[i as int]@);
                        lemma_peer_index_of(self.peers_view(), name@, i as int);
                    }
                    return Some(i);
                }
                proof {
                    assert(self.peers_view()[i as int] == self.peers@[i as int]@);
                }
                i = i + 1;
            }
            proof {
                lemma_peer_index_of(self.peers_view(), name@, self.peers@.len() as int);
            }
        }
        None
    }

    /// Replicates the log to a peer, starting just above its next index's
    /// base.
    fn replicate_to(&mut self, peer: usize)
        requires
            old(self).envelope_inv(),
            old(self).role_wf(),
            peer < old(self).peers@.len(),
        ensures
            final(self).envelope_inv(),
            final(self).role_wf(),
            final(self).log == old(self).log,
            final(self).term == old(self).term,
            final(self).role == old(self).role,
            final(self).peers == old(self).peers,
            final(self).id == old(self).id,
            final(self).state == old(self).state,
            final(self).msgs() == old(self).msgs().push(
                replication_to(
                    old(self).entries(),
                    old(self).term,
                    old(self).id@,
                    old(self).peers_view()[peer as int],
                    old(self).next_view()[peer as int],
                ),
            ),
    {
        let next = self.role.next_index[peer];
        let base_index = if next > 0 {
            next - 1
        } else {
            0
        };
        let base_term = match self.log.get(base_index) {
            Ok(Some(e)) => e.term,
            Ok(None) => 0,
            Err(_) => {
                proof {
                    assert(false);
                }
                0
            },
        };
        let entries = match self.log.range(next) {
            Ok(es) => es,
            Err(_) => {
                proof {
                    assert(false);
                }
                Vec::new()
            },
        };
        let peer_name = self.peers[peer].clone();
        proof {
            assert(base_term == term_at(self.entries(), base_index));
        }
        self.send(Some(peer_name.as_str()), Event::ReplicateEntries {
            base_index,
            base_term,
            entries,
        });
        proof {
            assert(final(self).msgs() =~= old(self).msgs().push(
                replication_to(
                    old(self).entries(),
                    old(self).term,
                    old(self).id@,
                    old(self).peers_view()[peer as int],
                    old(self).next_view()[peer as int],
                ),
            ));
        }
    }

    /// Replicates the log to every peer.
    fn replicate_all(&mut self)
        requires
            old(self).envelope_inv(),
            old(self).role_wf(),
        ensures
            final(self).envelope_inv(),
            final(self).role_wf(),
            final(self).log == old(self).log,
            final(self).term == old(self).term,
            final(self).role == old(self).role,
            final(self).peers == old(self).peers,
            final(self).id == old(self).id,
            final(self).state == old(self).state,
            final(self).msgs() == old(self).msgs() + replications_all(
                old(self).entries(),
                old(self).term,
                old(self).id@,
                old(self).peers_view(),
                old(self).next_view(),
            ),
    {
        let mut i: usize = 0;
        while i < self.peers.len()
            invariant
                self.envelope_inv(),
                self.role_wf(),
                self.log == old(self).log,
                self.term == old(self).term,
                self.role == old(self).role,
                self.peers == old(self).peers,
                self.id == old(self).id,
                self.state == old(self).state,
                i <= self.peers@.len(),
                self.msgs() == old(self).msgs() + replications_all(
                    old(self).entries(),
                    old(self).term,
                    old(self).id@,
                    old(self).peers_view(),
                    old(self).next_view(),
                ).take(i as int),
            decreases self.peers@.len() - i,
        {
            self.replicate_to(i);
            i = i + 1;
            proof {
                assert(self.msgs() =~= old(self).msgs() + replications_all(
                    old(self).entries(),
                    old(self).term,
                    old(self).id@,
                    old(self).peers_view(),
                    old(self).next_view(),
                ).take(i as int));
            }
        }
        proof {
            assert(final(self).msgs() =~= old(self).msgs() + replications_all(
                old(self).entries(),
                old(self).term,
                old(self).id@,
                old(self).peers_view(),
                old(self).next_view(),
            ));
        }
    }

    /// Advances the committed watermark to the highest index that a quorum
    /// stores and that belongs to the leader's own term.
    pub fn advance_commit(&mut self)
        requires
            old(self).envelope_inv(),
            old(self).role_wf(),
        ensures
            final(self).envelope_inv(),
            final(self).role_wf(),
            final(self).entries() == old(self).entries(),
            final(self).applied() == old(self).applied(),
            final(self).term_spec() == old(self).term_spec(),
            final(self).match_view() == old(self).match_view(),
            final(self).next_view() == old(self).next_view(),
            final(self).calls_view() == old(self).calls_view(),
            final(self).peers_view() == old(self).peers_view(),
            final(self).id_view() == old(self).id_view(),
            final(self).msgs() == old(self).msgs(),
            final(self).committed() >= old(self).committed(),
            forall|n: u64|
                1 <= n <= old(self).entries().len() && term_at(old(self).entries(), n) == old(
                    self,
                ).term_spec() && count_matched(old(self).match_view(), n) + 1 >= (old(
                    self,
                ).peers_view().len() + 1) / 2 + 1 ==> final(self).committed() >= n,
    {
        let quorum = self.quorum();
        let (commit_index, _) = self.log.get_committed();
        let (last_index, _) = self.log.get_last();
        proof {
            self.log.lemma_watermarks_ordered();
        }
        let ghost orig = *self;
        let mut best: u64 = commit_index;
        let mut n: u64 = commit_index;
        while n < last_index
            invariant
                *self == orig,
                self.envelope_inv(),
                self.role_wf(),
                quorum == (self.peers_view().len() + 1) / 2 + 1,
                last_index == self.entries().len(),
                self.committed() <= best <= last_index,
                self.committed() <= n <= last_index,
                forall|m: u64|
                    1 <= m <= n && term_at(self.entries(), m) == self.term_spec() && count_matched(
                        self.match_view(),
                        m,
                    ) + 1 >= quorum ==> best >= m,
            decreases last_index - n,
        {
            let candidate = n + 1;
            let term_ok = match self.log.get(candidate) {
                Ok(Some(e)) => e.term == self.term,
                _ => false,
            };
            if term_ok {
                let matched = count_matched_exec(&self.role.match_index, candidate);
                proof {
                    lemma_count_matched_bound(self.match_view(), candidate);
                }
                if matched as u64 + 1 >= quorum {
                    best = candidate;
                }
            }
            n = candidate;
        }
        match self.log.commit(best) {
            Ok(_) => {},
            Err(_) => {
                proof {
                    assert(false);
                }
            },
        }
        proof {
            assert(self.committed() == best);
        }
    }

    /// Applies every committed entry and answers the client calls whose
    /// entries were applied.
    fn apply_and_respond(&mut self) -> (r: Result<(), Error>)
        requires
            old(self).envelope_inv(),
            old(self).role_wf(),
        ensures
            final(self).envelope_inv(),
            final(self).role_wf(),
            final(self).term == old(self).term,
            final(self).peers == old(self).peers,
            final(self).id == old(self).id,
            final(self).entries() == old(self).entries(),
            final(self).committed() == old(self).committed(),
            final(self).next_view() == old(self).next_view(),
            final(self).match_view() == old(self).match_view(),
            r is Ok ==> final(self).applied() == final(self).committed(),
            old(self).applied() == old(self).committed() ==> r is Ok && *final(self) == *old(
                self,
            ),
            old(self).committed() == old(self).applied() + 1 ==> (r is Ok ==> {
                let cs = old(self).calls_view();
                let j = calls_find(cs, old(self).committed());
                &&& (j >= 0 ==> exists|ev: EventView|
                    #![trigger event_call_id(ev)]
                    is_respond(ev) && event_call_id(ev) == Some(cs[j].1) && final(self).msgs()
                        == old(self).msgs().push(
                        sent_msg(old(self).term, old(self).id@, cs[j].2, ev),
                    ) && final(self).calls_view() == cs.remove(j))
                &&& (j < 0 ==> final(self).msgs() == old(self).msgs() && final(self).calls_view()
                    == cs)
            }),
    {
        let ghost orig = *self;
        loop
            invariant
                orig == *old(self),
                self.envelope_inv(),
                self.role_wf(),
                self.term == orig.term,
                self.peers == orig.peers,
                self.id == orig.id,
                self.entries() == orig.entries(),
                self.committed() == orig.committed(),
                self.next_view() == orig.next_view(),
                self.match_view() == orig.match_view(),
                self.applied() >= orig.applied(),
                orig.applied() == orig.committed() ==> *self == orig,
                orig.committed() == orig.applied() + 1 ==> (*self == orig || (self.applied()
                    == orig.committed() && one_respond_done(orig, *self))),
            ensures
                self.envelope_inv(),
                self.role_wf(),
                self.term == orig.term,
                self.peers == orig.peers,
                self.id == orig.id,
                self.entries() == orig.entries(),
                self.committed() == orig.committed(),
                self.next_view() == orig.next_view(),
                self.match_view() == orig.match_view(),
                self.applied() == self.committed(),
                orig.applied() == orig.committed() ==> *self == orig,
                orig.committed() == orig.applied() + 1 ==> one_respond_done(orig, *self),
            decreases self.log.committed() - self.log.applied(),
        {
            proof {
                self.log.lemma_watermarks_ordered();
            }
            let ghost pre_iter = *self;
            let (apply_index, _) = self.log.get_applied();
            let (commit_index, _) = self.log.get_committed();
            if apply_index >= commit_index {
                break;
            }
            match self.log.apply_pending(&mut self.state) {
                Ok(Some((index, outcome))) => {
                    let ghost outcomev = outcome;
                    self.respond_applied(index, outcome);
                    proof {
                        if orig.committed() == orig.applied() + 1 && pre_iter == orig {
                            let cs = orig.calls_view();
                            let j = calls_find(cs, orig.committed());
                            if j >= 0 {
                                let ev = match outcomev {
                                    Ok(v) => EventView::RespondState {
                                        call_id: cs[j].1,
                                        response: v@,
                                    },
                                    Err(e) => EventView::RespondError {
                                        call_id: cs[j].1,
                                        error: e.message_view(),
                                    },
                                };
                                assert(is_respond(ev) && event_call_id(ev) == Some(cs[j].1)
                                    && self.msgs() == orig.msgs().push(
                                    sent_msg(orig.term_spec(), orig.id_view(), cs[j].2, ev),
                                ) && self.calls_view() == cs.remove(j));
                            }
                        }
                    }
                },
                Ok(None) => {
                    proof {
                        self.log.lemma_watermarks_ordered();
                    }
                    break;
                },
                Err(e) => {
                    return Err(e);
                },
            }
        }
        Ok(())
    }

    /// Routes the outcome of an applied entry back to the caller that
    /// proposed it, if any: the first in-flight call at the entry's index is
    /// taken out and answered with the mutation's output or error.
    fn respond_applied(&mut self, index: u64, outcome: Result<Vec<u8>, Error>)
        requires
            old(self).envelope_inv(),
            old(self).role_wf(),
        ensures
            final(self).envelope_inv(),
            final(self).role_wf(),
            final(self).log == old(self).log,
            final(self).term == old(self).term,
            final(self).peers == old(self).peers,
            final(self).id == old(self).id,
            final(self).state == old(self).state,
            final(self).next_view() == old(self).next_view(),
            final(self).match_view() == old(self).match_view(),
            ({
                let cs = old(self).calls_view();
                let j = calls_find(cs, index);
                if j >= 0 {
                    &&& final(self).calls_view() == cs.remove(j)
                    &&& final(self).msgs() == old(self).msgs().push(
                        sent_msg(old(self).term, old(self).id@, cs[j].2, match outcome {
                            Ok(o) => EventView::RespondState { call_id: cs[j].1, response: o@ },
                            Err(e) => EventView::RespondError {
                                call_id: cs[j].1,
                                error: e.message_view(),
                            },
                        }),
                    )
                } else {
                    *final(self) == *old(self)
                }
            }),
    {
        let ghost cs = self.calls_view();
        let mut i: usize = 0;
        while i < self.role.calls.len()
            invariant
                *self == *old(self),
                cs == old(self).calls_view(),
                self.envelope_inv(),
                self.role_wf(),
                i <= self.role.calls@.len(),
                forall|k: int| 0 <= k < i ==> (#[trigger] self.role.calls@[k]).0 != index,
            decreases self.role.calls@.len() - i,
        {
            if self.role.calls[i].0 == index {
                proof {
                    lemma_calls_find(cs, index, i as int);
                }
                let ghost prev = self.role.calls@;
                let row = self.role.calls.remove(i);
                proof {
                    assert(self.calls_view() =~= cs.remove(i as int));
                    assert(row == prev[i as int]);
                }
                let to = row.2;
                match outcome {
                    Ok(response) => {
                        self.send(opt_str(&to), Event::RespondState {
                            call_id: row.1,
                            response,
                        });
                    },
                    Err(e) => {
                        self.send(opt_str(&to), Event::RespondError {
                            call_id: row.1,
                            error: e.message(),
                        });
                    },
                }
                return;
            }
            i = i + 1;
        }
        proof {
            lemma_calls_find(cs, index, self.role.calls@.len() as int);
        }
    }

    /// Processes an inbound message as the leader.
    pub fn step(self, msg: Message) -> (r: Result<Node<L, M>, Error>)
        requires
            self.envelope_inv(),
            self.role_wf(),
        ensures
            leader_step_infallible(self, msg@) ==> r is Ok,
            r matches Ok(n) ==> leader_step_post(self, msg@, n),
    {
        let mut this = self;
        let mut msg = msg;
        let node_id = this.id.clone();
        msg.normalize(node_id.as_str(), this.term);
        match msg.validate(node_id.as_str(), this.term) {
            Ok(()) => {},
            Err(_) => {
                return Ok(Node::Leader(this));
            },
        }
        // A newer term turns the leader into a follower of the sender.
        if msg.from.is_some() && msg.term > this.term {
            let from = clone_opt_string(&msg.from);
            match this.log.save_term(msg.term, None) {
                Ok(()) => {},
                Err(e) => {
                    return Err(e);
                },
            }
            this.term = msg.term;
            return this.into_follower(from, None).step(msg);
        }
        match msg.event {
            Event::ConfirmLeader { commit_index, has_committed } => {
                if !has_committed {
                    if let Some(i) = this.peer_index(&msg.from) {
                        let matched = this.role.match_index[i];
                        let next = if matched < u64::MAX {
                            matched + 1
                        } else {
                            matched
                        };
                        this.role.next_index.set(i, next);
                        this.replicate_to(i);
                    }
                } else {
                    this.confirm_read(&msg.from, commit_index);
                }
            },
            Event::AcceptEntries { last_index } => {
                if let Some(i) = this.peer_index(&msg.from) {
                    let (log_last, _) = this.log.get_last();
                    let matched = if last_index > log_last {
                        log_last
                    } else {
                        last_index
                    };
                    let next = if matched < u64::MAX {
                        matched + 1
                    } else {
                        matched
                    };
                    this.role.match_index.set(i, matched);
                    this.role.next_index.set(i, next);
                }
                this.advance_commit();
                let ghost before_drain = this;
                match this.apply_and_respond() {
                    Ok(()) => {},
                    Err(e) => {
                        return Err(e);
                    },
                }
                proof {
                    if self.applied() == self.committed() && before_drain.committed()
                        == self.committed() + 1 {
                        let cs = self.calls_view();
                        let j = calls_find(cs, (self.committed() + 1) as u64);
                        if j >= 0 {
                            let ev = choose|ev: EventView|
                                #![trigger event_call_id(ev)]
                                is_respond(ev) && event_call_id(ev) == Some(cs[j].1)
                                    && this.msgs() == before_drain.msgs().push(
                                    sent_msg(
                                        before_drain.term_spec(),
                                        before_drain.id_view(),
                                        cs[j].2,
                                        ev,
                                    ),
                                ) && this.calls_view() == cs.remove(j);
                            assert(is_respond(ev) && event_call_id(ev) == Some(cs[j].1)
                                && this.msgs() == self.msgs().push(
                                sent_msg(self.term_spec(), self.id_view(), cs[j].2, ev),
                            ) && this.calls_view() == cs.remove(j));
                        }
                    }
                }
            },
            Event::RejectEntries => {
                if let Some(i) = this.peer_index(&msg.from) {
                    let next = this.role.next_index[i];
                    if next > 1 {
                        this.role.next_index.set(i, next - 1);
                    } else {
                        proof {
                            assert(this.next_view() =~= self.next_view().update(i as int, next));
                        }
                    }
                    this.replicate_to(i);
                }
            },
            Event::MutateState { call_id, command } => {
                let index = match this.log.append(Entry {
                    term: this.term,
                    command: Some(command),
                }) {
                    Ok(i) => i,
                    Err(e) => {
                        let originator = clone_opt_string(&msg.from);
                        this.send(opt_str(&originator), Event::RespondError {
                            call_id,
                            error: e.message(),
                        });
                        proof {
                            assert(this.msgs().take(self.msgs().len() as int) =~= self.msgs());
                        }
                        return Ok(Node::Leader(this));
                    },
                };
                let ghost cs0 = this.calls_view();
                let ghost before_push = this.role.calls@;
                let originator = clone_opt_string(&msg.from);
                this.role.calls.push((index, call_id, originator));
                proof {
                    assert(forall|j: int|
                        0 <= j < before_push.len() ==> #[trigger] this.role.calls@[j]
                            == before_push[j]);
                    assert(this.calls_view() =~= cs0.push((index, call_id@, os_view(msg.from))));
                }
                this.replicate_all();
                proof {
                    if self.peers@.len() == 0 {
                        assert(this.msgs() =~= self.msgs());
                    }
                }
                this.advance_commit();
                proof {
                    if self.peers_view().len() == 0 {
                        this.log.lemma_watermarks_ordered();
                        lemma_count_matched_bound(this.match_view(), index);
                        assert(term_at(this.entries(), index) == self.term_spec());
                        assert(count_matched(this.match_view(), index) + 1 >= (
                        self.peers_view().len() + 1) / 2 + 1);
                        assert(this.committed() == index);
                    }
                }
                let ghost before_drain = this;
                match this.apply_and_respond() {
                    Ok(()) => {},
                    Err(e) => {
                        return Err(e);
                    },
                }
                proof {
                    let cs1 = before_drain.calls_view();
                    if self.peers_view().len() == 0 && self.applied() == self.committed()
                        && self.committed() == self.entries().len() && calls_find(cs0, index) < 0 {
                        lemma_calls_find_props(cs0, index);
                        assert(forall|j: int| 0 <= j < cs0.len() ==> #[trigger] cs1[j] == cs0[j]);
                        lemma_calls_find(cs1, index, cs0.len() as int);
                        assert(before_drain.committed() == before_drain.applied() + 1);
                        let j = calls_find(cs1, index);
                        assert(j == cs0.len());
                        assert(cs1[j].1 == call_id@ && cs1[j].2 == os_view(msg.from));
                        let ev = choose|ev: EventView|
                            #![trigger event_call_id(ev)]
                            is_respond(ev) && event_call_id(ev) == Some(cs1[j].1) && this.msgs()
                                == before_drain.msgs().push(
                                sent_msg(
                                    before_drain.term_spec(),
                                    before_drain.id_view(),
                                    cs1[j].2,
                                    ev,
                                ),
                            ) && this.calls_view() == cs1.remove(j);
                        assert(this.msgs().take(self.msgs().len() as int) =~= self.msgs());
                        assert(pushed_respond(
                            self.msgs(),
                            this.msgs(),
                            self.term_spec(),
                            self.id_view(),
                            normalized(msg@, self.id_view(), self.term_spec()).from,
                            call_id@,
                        ));
                    }
                }
            },
            Event::ReadState { call_id, command } => {
                if this.peers.len() == 0 {
                    let originator = clone_opt_string(&msg.from);
                    match this.state.read(command) {
                        Ok(response) => {
                            this.send(opt_str(&originator), Event::RespondState {
                                call_id,
                                response,
                            });
                        },
                        Err(e) => {
                            this.send(opt_str(&originator), Event::RespondError {
                                call_id,
                                error: e.message(),
                            });
                        },
                    }
                    proof {
                        assert(this.msgs().take(self.msgs().len() as int) =~= self.msgs());
                    }
                } else {
                    let (commit_index, commit_term) = this.log.get_committed();
                    let originator = clone_opt_string(&msg.from);
                    let ghost prevr = this.role.reads@;
                    this.role.reads.push(ReadTracker {
                        call_id,
                        from: originator,
                        command,
                        commit_index,
                        confirmed: Vec::new(),
                    });
                    proof {
                        assert(forall|q: int|
                            0 <= q < prevr.len() ==> #[trigger] this.role.reads@[q] == prevr[q]);
                        assert((this.role.reads@.last())@.confirmed =~= Seq::<Seq<char>>::empty());
                        assert(this.reads_view() =~= prevr.map_values(
                            |r: ReadTracker| r@,
                        ).push(this.role.reads@.last()@));
                    }
                    this.broadcast(Event::Heartbeat { commit_index, commit_term });
                }
            },
            _ => {},
        }
        Ok(Node::Leader(this))
    }

    /// Counts a peer's confirmation towards the pending reads captured at a
    /// committed index: each matching read gains the peer, and every read a
    /// quorum now backs is answered to its originator and retired.
    fn confirm_read(&mut self, from: &Option<String>, commit_index: u64)
        requires
            old(self).envelope_inv(),
            old(self).role_wf(),
        ensures
            final(self).envelope_inv(),
            final(self).role_wf(),
            final(self).term == old(self).term,
            final(self).peers == old(self).peers,
            final(self).id == old(self).id,
            final(self).log == old(self).log,
            final(self).next_view() == old(self).next_view(),
            final(self).match_view() == old(self).match_view(),
            final(self).calls_view() == old(self).calls_view(),
            ({
                let quorum = quorum_of(old(self).peers_view().len() as int);
                match os_view(*from) {
                    Some(peer) => {
                        let answered = answered_reads(
                            old(self).reads_view(),
                            peer,
                            commit_index,
                            quorum,
                        );
                        &&& final(self).reads_view() == kept_reads(
                            old(self).reads_view(),
                            peer,
                            commit_index,
                            quorum,
                        )
                        &&& final(self).msgs().len() == old(self).msgs().len() + answered.len()
                        &&& final(self).msgs().take(old(self).msgs().len() as int) == old(
                            self,
                        ).msgs()
                        &&& forall|k: int|
                            0 <= k < answered.len() ==> {
                                let mv = #[trigger] final(self).msgs()[old(self).msgs().len() + k];
                                &&& mv.term == old(self).term
                                &&& mv.from == Some(old(self).id@)
                                &&& mv.to == answered[k].from
                                &&& is_respond(mv.event)
                                &&& event_call_id(mv.event) == Some(answered[k].call_id)
                            }
                    },
                    None => *final(self) == *old(self),
                }
            }),
    {
        let peer = match from {
            Some(name) => name.clone(),
            None => {
                return ;
            },
        };
        let quorum = self.quorum();
        let mut pending: Vec<ReadTracker> = Vec::new();
        core::mem::swap(&mut pending, &mut self.role.reads);
        let ghost rs0 = pending@.map_values(|r: ReadTracker| r@);
        let ghost pre_msgs = self.msgs();
        let mut kept: Vec<ReadTracker> = Vec::new();
        let ghost mut i: int = 0;
        while pending.len() > 0
            invariant
                old(self).role_wf(),
                self.envelope_inv(),
                self.role_wf(),
                self.term == old(self).term,
                self.peers == old(self).peers,
                self.id == old(self).id,
                self.log == old(self).log,
                self.next_view() == old(self).next_view(),
                self.match_view() == old(self).match_view(),
                self.calls_view() == old(self).calls_view(),
                peer@ == os_view(*from)->Some_0,
                os_view(*from) is Some,
                quorum == quorum_of(self.peers_view().len() as int),
                0 <= i <= rs0.len(),
                i + pending@.len() == rs0.len(),
                pending@.map_values(|r: ReadTracker| r@) == rs0.skip(i),
                pre_msgs == old(self).msgs(),
                kept@.map_values(|r: ReadTracker| r@) == kept_reads(
                    rs0.take(i),
                    peer@,
                    commit_index,
                    quorum as int,
                ),
                self.msgs().len() == pre_msgs.len() + answered_reads(
                    rs0.take(i),
                    peer@,
                    commit_index,
                    quorum as int,
                ).len(),
                self.msgs().take(pre_msgs.len() as int) == pre_msgs,
                forall|k: int|
                    0 <= k < answered_reads(
                        rs0.take(i),
                        peer@,
                        commit_index,
                        quorum as int,
                    ).len() ==> {
                        let mv = #[trigger] self.msgs()[pre_msgs.len() + k];
                        let row = answered_reads(
                            rs0.take(i),
                            peer@,
                            commit_index,
                            quorum as int,
                        )[k];
                        &&& mv.term == old(self).term
                        &&& mv.from == Some(old(self).id@)
                        &&& mv.to == row.from
                        &&& is_respond(mv.event)
                        &&& event_call_id(mv.event) == Some(row.call_id)
                    },
            decreases pending@.len(),
        {
            let ghost taken_pre = rs0.take(i);
            let ghost pv = pending@;
            let mut tracker = pending.remove(0);
            proof {
                assert(pv.map_values(|r: ReadTracker| r@)[0] == rs0.skip(i)[0]);
                assert(rs0.skip(i)[0] == rs0[i]);
                assert(tracker@ == rs0[i]);
                assert(rs0.take(i + 1).drop_last() =~= taken_pre);
                assert(rs0.take(i + 1).last() == rs0[i]);
                assert forall|q: int| 0 <= q < pending@.len() implies (
                #[trigger] pending@[q])@ == rs0.skip(i + 1)[q] by {
                    assert(pending@[q] == pv[q + 1]);
                    assert(pv.map_values(|r: ReadTracker| r@)[q + 1] == rs0.skip(i)[q + 1]);
                    assert(rs0.skip(i)[q + 1] == rs0[i + 1 + q]);
                    assert(rs0.skip(i + 1)[q] == rs0[i + 1 + q]);
                }
                assert(pending@.map_values(|r: ReadTracker| r@) =~= rs0.skip(i + 1));
            }
            let row_matches = tracker.commit_index == commit_index;
            if row_matches {
                let mut known: bool = false;
                let mut j: usize = 0;
                while j < tracker.confirmed.len()
                    invariant
                        j <= tracker.confirmed@.len(),
                        peer@ == peer@,
                        known == exists|q: int|
                            0 <= q < j && (#[trigger] tracker.confirmed@[q])@ == peer@,
                    decreases tracker.confirmed@.len() - j,
                {
                    if str_eq(tracker.confirmed[j].as_str(), peer.as_str()) {
                        known = true;
                        proof {
                            assert((tracker.confirmed@[j as int])@ == peer@);
                        }
                    }
                    j = j + 1;
                }
                proof {
                    assert(forall|q: int|
                        0 <= q < tracker.confirmed@.len() ==> tracker@.confirmed[q] == (
                        #[trigger] tracker.confirmed@[q])@);
                    if known {
                        let q = choose|q: int|
                            0 <= q < tracker.confirmed@.len() && (
                            #[trigger] tracker.confirmed@[q])@ == peer@;
                        assert(tracker@.confirmed[q] == peer@);
                        assert(tracker@.confirmed.contains(peer@));
                    } else {
                        if tracker@.confirmed.contains(peer@) {
                            let q = choose|q: int|
                                0 <= q < tracker@.confirmed.len() && tracker@.confirmed[q]
                                    == peer@;
                            assert((tracker.confirmed@[q])@ == peer@);
                        }
                    }
                    assert(known == tracker@.confirmed.contains(peer@));
                }
                let ghost row0 = tracker@;
                if !known {
                    let ghost prevc = tracker.confirmed@;
                    tracker.confirmed.push(peer.clone());
                    proof {
                        assert(forall|q: int|
                            0 <= q < prevc.len() ==> #[trigger] tracker.confirmed@[q] == prevc[
                            q]);
                        assert(tracker@.confirmed =~= row0.confirmed.push(peer@));
                        assert(tracker@ == read_confirmed(row0, peer@, commit_index));
                    }
                } else {
                    proof {
                        assert(tracker@ == read_confirmed(row0, peer@, commit_index));
                    }
                }
                let confirmations = tracker.confirmed.len();
                if confirmations as u64 >= quorum - 1 {
                    let ghost pm = self.msgs();
                    let ghost rowv = tracker@;
                    match self.state.read(tracker.command) {
                        Ok(response) => {
                            self.send(opt_str(&tracker.from), Event::RespondState {
                                call_id: tracker.call_id,
                                response,
                            });
                        },
                        Err(e) => {
                            self.send(opt_str(&tracker.from), Event::RespondError {
                                call_id: tracker.call_id,
                                error: e.message(),
                            });
                        },
                    }
                    proof {
                        assert(read_ready(rowv, commit_index, quorum as int));
                        assert(self.msgs().take(pre_msgs.len() as int) =~= pre_msgs);
                        assert(answered_reads(
                            rs0.take(i + 1),
                            peer@,
                            commit_index,
                            quorum as int,
                        ) =~= answered_reads(taken_pre, peer@, commit_index, quorum as int).push(
                            rowv,
                        ));
                        assert(self.msgs().last().to == rowv.from);
                        assert(event_call_id(self.msgs().last().event) == Some(rowv.call_id));
                        assert(forall|k: int|
                            0 <= k < pm.len() ==> #[trigger] self.msgs()[k] == pm[k]);
                        assert(kept@.map_values(|r: ReadTracker| r@) =~= kept_reads(
                            rs0.take(i + 1),
                            peer@,
                            commit_index,
                            quorum as int,
                        ));
                    }
                } else {
                    let ghost prevk = kept@;
                    kept.push(tracker);
                    proof {
                        assert(forall|q: int|
                            0 <= q < prevk.len() ==> #[trigger] kept@[q] == prevk[q]);
                        assert(kept@.map_values(|r: ReadTracker| r@) =~= kept_reads(
                            rs0.take(i + 1),
                            peer@,
                            commit_index,
                            quorum as int,
                        ));
                    }
                }
            } else {
                let ghost prevk = kept@;
                proof {
                    assert(tracker@ == read_confirmed(tracker@, peer@, commit_index));
                }
                kept.push(tracker);
                proof {
                    assert(forall|q: int| 0 <= q < prevk.len() ==> #[trigger] kept@[q] == prevk[q]);
                    assert(kept@.map_values(|r: ReadTracker| r@) =~= kept_reads(
                        rs0.take(i + 1),
                        peer@,
                        commit_index,
                        quorum as int,
                    ));
                }
            }
            proof {
                i = i + 1int;
            }
        }
        proof {
            assert(rs0.take(rs0.len() as int) =~= rs0);
        }
        core::mem::swap(&mut kept, &mut self.role.reads);
    }

    /// Moves time forward by a tick: applies committed entries and sends the
    /// periodic heartbeat.
    pub fn tick(self) -> (r: Result<Node<L, M>, Error>)
        requires
            self.envelope_inv(),
            self.role_wf(),
        ensures
            leader_tick_infallible(self) ==> r is Ok,
            r matches Ok(n) ==> leader_tick_post(self, n),
    {
        let mut this = self;
        match this.apply_and_respond() {
            Ok(()) => {},
            Err(e) => {
                return Err(e);
            },
        }
        let ticks = this.role.heartbeat_ticks;
        if ticks + 1 >= HEARTBEAT_INTERVAL {
            let (commit_index, commit_term) = this.log.get_committed();
            this.broadcast(Event::Heartbeat { commit_index, commit_term });
            this.role.heartbeat_ticks = 0;
        } else {
            this.role.heartbeat_ticks = ticks + 1;
        }
        Ok(Node::Leader(this))
    }
}

impl<L: Store, M: State> Node<L, M> {
    /// Creates a new Raft node over a log store and a state machine. It
    /// starts as a follower, or as the leader of a single-node cluster when
    /// there are no peers; a bootstrapping single-node leader moves to term 1.
    pub fn new(id: &str, peers: Vec<String>, log_store: L, state: M) -> (r: Result<
        Node<L, M>,
        Error,
    >)
        requires
            peers@.len() < u64::MAX,
        ensures
            r matches Ok(n) ==> {
                let m = log_store.sview();
                let fresh = !m.contains_key(crate::raft::log::term_key()) || crate::codec::dec_u64(
                    m[crate::raft::log::term_key()],
                ) == Some(0u64);
                &&& n.inv()
                &&& n.id_view() == id@
                &&& n.peers_view() == peers@.map_values(|p: String| p@)
                &&& n.msgs() == Seq::<MessageView>::empty()
                &&& n.committed() == n.applied()
                &&& n.applied() <= n.entries().len()
                &&& (forall|i: u64|
                    1 <= i <= n.entries().len() ==> m.contains_key(
                        #[trigger] crate::raft::log::entry_key(i),
                    ) && crate::raft::log::dec_entry(m[crate::raft::log::entry_key(i)]) == Some(
                        n.entries()[i - 1],
                    ))
                &&& (n.entries().len() + 1 < u64::MAX ==> !m.contains_key(
                    crate::raft::log::entry_key((n.entries().len() + 1) as u64),
                ))
                &&& (m.contains_key(crate::raft::log::apply_key()) ==> crate::codec::dec_u64(
                    m[crate::raft::log::apply_key()],
                ) == Some(n.applied()))
                &&& (!m.contains_key(crate::raft::log::apply_key()) ==> n.applied() == 0)
                &&& (m.contains_key(crate::raft::log::term_key()) ==> (crate::codec::dec_u64(
                    m[crate::raft::log::term_key()],
                ) matches Some(t) && n.term_view() == if peers@.len() == 0 && t == 0 {
                    1u64
                } else {
                    t
                }))
                &&& (!m.contains_key(crate::raft::log::term_key()) ==> n.term_view() == if peers@.len()
                    == 0 {
                    1u64
                } else {
                    0u64
                })
                &&& (peers@.len() == 0 ==> {
                    &&& n.is_leader_spec()
                    &&& n.term_view() >= 1
                    &&& n.calls_view() == Seq::<(u64, Seq<u8>, Option<Seq<char>>)>::empty()
                    &&& (fresh ==> n.store_view() == crate::raft::log::saved_term_view(m, 1, None))
                    &&& (!fresh ==> n.store_view() == m)
                })
                &&& (peers@.len() > 0 ==> {
                    &&& n.is_follower_spec()
                    &&& n.leader_view() is None
                    &&& n.proxy_view() == Map::<Seq<u8>, Option<Seq<char>>>::empty()
                    &&& n.store_view() == m
                    &&& (m.contains_key(crate::raft::log::voted_key()) ==> (crate::codec::dec_str(
                        m[crate::raft::log::voted_key()],
                    ) matches Some(v) && n.voted_view() == Some(v)))
                    &&& (!m.contains_key(crate::raft::log::voted_key()) ==> n.voted_view()
                        is None)
                })
            },
    {
        let log = match Log::new(log_store) {
            Ok(l) => l,
            Err(e) => {
                return Err(e);
            },
        };
        let (term, voted_for) = match log.load_term() {
            Ok(p) => p,
            Err(e) => {
                return Err(e);
            },
        };
        let solo = peers.len() == 0;
        let mut node = RoleNode {
            id: id.to_owned(),
            peers,
            term,
            log,
            state,
            outbox: Vec::new(),
            role: Follower::new(None, voted_for),
        };
        if !solo {
            proof {
                assert(node.msgs() =~= Seq::<MessageView>::empty());
            }
            return Ok(Node::Follower(node));
        }
        // With no peers the node leads alone; a fresh cluster starts its
        // first leadership epoch at term 1.
        if node.term == 0 {
            match node.save_term(1, None) {
                Ok(()) => {},
                Err(e) => {
                    return Err(e);
                },
            }
        }
        let (last_index, _) = node.log.get_last();
        if last_index == u64::MAX {
            return Err(Error::Internal("the log is full".to_owned()));
        }
        let role = Leader::new(node.peers.len(), last_index);
        let leader = RoleNode {
            id: node.id,
            peers: node.peers,
            term: node.term,
            log: node.log,
            state: node.state,
            outbox: node.outbox,
            role,
        };
        proof {
            assert(leader.msgs() =~= Seq::<MessageView>::empty());
            assert(leader.calls_view() =~= Seq::<(u64, Seq<u8>, Option<Seq<char>>)>::empty());
        }
        Ok(Node::Leader(leader))
    }

    /// Processes an inbound message, as whatever role the node holds.
    pub fn step(self, msg: Message) -> (r: Result<Node<L, M>, Error>)
        requires
            self.inv(),
        ensures
            r matches Ok(n) ==> n.inv(),
            self matches Node::Follower(f) ==> (follower_step_infallible(f, msg@) ==> r is Ok)
                && (r matches Ok(n) ==> follower_step_post(f, msg@, n)),
            self matches Node::Candidate(c) ==> (candidate_step_infallible(c, msg@) ==> r is Ok)
                && (r matches Ok(n) ==> candidate_step_post(c, msg@, n)),
            self matches Node::Leader(l) ==> (leader_step_infallible(l, msg@) ==> r is Ok) && (
            r matches Ok(n) ==> leader_step_post(l, msg@, n)),
    {
        match self {
            Node::Follower(n) => n.step(msg),
            Node::Candidate(n) => n.step(msg),
            Node::Leader(n) => n.step(msg),
        }
    }

    /// Moves time forward by a tick, as whatever role the node holds.
    pub fn tick(self) -> (r: Result<Node<L, M>, Error>)
        requires
            self.inv(),
        ensures
            r matches Ok(n) ==> n.inv(),
            self matches Node::Follower(f) ==> (follower_tick_infallible(f) ==> r is Ok) && (
            r matches Ok(n) ==> follower_tick_post(f, n)),
            self matches Node::Candidate(c) ==> (candidate_tick_infallible(c) ==> r is Ok) && (
            r matches Ok(n) ==> candidate_tick_post(c, n)),
            self matches Node::Leader(l) ==> (leader_tick_infallible(l) ==> r is Ok) && (
            r matches Ok(n) ==> leader_tick_post(l, n)),
    {
        match self {
            Node::Follower(n) => n.tick(),
            Node::Candidate(n) => n.tick(),
            Node::Leader(n) => n.tick(),
        }
    }

    /// The node's name.
    pub fn id(&self) -> (r: String)
        ensures
            r@ == self.id_view(),
    {
        match self {
            Node::Follower(n) => n.id.clone(),
            Node::Candidate(n) => n.id.clone(),
            Node::Leader(n) => n.id.clone(),
        }
    }

    /// The peers' names, in order.
    pub fn peers(&self) -> (r: Vec<String>)
        ensures
            r@.map_values(|p: String| p@) == self.peers_view(),
    {
        let list = match self {
            Node::Follower(n) => &n.peers,
            Node::Candidate(n) => &n.peers,
            Node::Leader(n) => &n.peers,
        };
        let mut out: Vec<String> = Vec::new();
        let mut i: usize = 0;
        while i < list.len()
            invariant
                i <= list@.len(),
                out@.len() == i,
                forall|j: int| 0 <= j < i ==> (#[trigger] out@[j])@ == list@[j]@,
            decreases list@.len() - i,
        {
            let ghost prev = out@;
            out.push(list[i].clone());
            i = i + 1;
            proof {
                assert(forall|j: int| 0 <= j < prev.len() ==> #[trigger] out@[j] == prev[j]);
            }
        }
        proof {
            assert(out@.map_values(|p: String| p@) =~= list@.map_values(|p: String| p@));
        }
        out
    }

    /// The node's current term.
    pub fn term(&self) -> (r: u64)
        ensures
            r == self.term_view(),
    {
        match self {
            Node::Follower(n) => n.term,
            Node::Candidate(n) => n.term,
            Node::Leader(n) => n.term,
        }
    }

    /// The leader a follower follows, if any.
    pub fn leader(&self) -> (r: Option<String>)
        ensures
            os_view(r) == self.leader_view(),
    {
        match self {
            Node::Follower(n) => clone_opt_string(&n.role.leader),
            _ => None,
        }
    }

    /// The vote a follower cast in the current term, if any.
    pub fn voted_for(&self) -> (r: Option<String>)
        ensures
            os_view(r) == self.voted_view(),
    {
        match self {
            Node::Follower(n) => clone_opt_string(&n.role.voted_for),
            _ => None,
        }
    }

    /// The election timeout of a follower or candidate, in ticks.
    pub fn election_timeout(&self) -> (r: Option<u64>)
        ensures
            r == self.election_timeout_view(),
    {
        match self {
            Node::Follower(n) => Some(n.role.leader_seen_timeout),
            Node::Candidate(n) => Some(n.role.election_timeout),
            Node::Leader(_) => None,
        }
    }

    /// The last stored index and term of the node's log.
    pub fn get_last(&self) -> (r: (u64, u64))
        requires
            self.inv(),
        ensures
            r == (self.entries().len() as u64, term_at(self.entries(), self.entries().len() as u64)),
    {
        match self {
            Node::Follower(n) => n.log.get_last(),
            Node::Candidate(n) => n.log.get_last(),
            Node::Leader(n) => n.log.get_last(),
        }
    }

    /// The committed index and term of the node's log.
    pub fn get_committed(&self) -> (r: (u64, u64))
        requires
            self.inv(),
        ensures
            r == (self.committed(), term_at(self.entries(), self.committed())),
    {
        match self {
            Node::Follower(n) => n.log.get_committed(),
            Node::Candidate(n) => n.log.get_committed(),
            Node::Leader(n) => n.log.get_committed(),
        }
    }

    /// The applied index and term of the node's log.
    pub fn get_applied(&self) -> (r: (u64, u64))
        requires
            self.inv(),
        ensures
            r == (self.applied(), term_at(self.entries(), self.applied())),
    {
        match self {
            Node::Follower(n) => n.log.get_applied(),
            Node::Candidate(n) => n.log.get_applied(),
            Node::Leader(n) => n.log.get_applied(),
        }
    }

    /// The entry stored at an index of the node's log.
    pub fn get_entry(&self, index: u64) -> (r: Result<Option<Entry>, Error>)
        requires
            self.inv(),
        ensures
            r matches Ok(o) && match o {
                Some(e) => 1 <= index <= self.entries().len() && e@ == self.entries()[index - 1],
                None => index == 0 || index > self.entries().len(),
            },
    {
        match self {
            Node::Follower(n) => n.log.get(index),
            Node::Candidate(n) => n.log.get(index),
            Node::Leader(n) => n.log.get(index),
        }
    }

    /// The dense run of entries from an index through the end of the log.
    pub fn range(&self, from: u64) -> (r: Result<Vec<Entry>, Error>)
        requires
            self.inv(),
        ensures
            r matches Ok(es) && es@.map_values(|e: Entry| e@) == self.entries().skip(
                crate::raft::log::range_start(from, self.entries().len() as u64),
            ),
    {
        match self {
            Node::Follower(n) => n.log.range(from),
            Node::Candidate(n) => n.log.range(from),
            Node::Leader(n) => n.log.range(from),
        }
    }

    /// The contents of the node's log store.
    pub closed spec fn store_view(&self) -> Map<Seq<u8>, Seq<u8>> {
        match self {
            Node::Follower(n) => n.log.store_view(),
            Node::Candidate(n) => n.log.store_view(),
            Node::Leader(n) => n.log.store_view(),
        }
    }

    /// The term and vote persisted in the node's log store.
    pub fn load_term(&self) -> (r: Result<(u64, Option<String>), Error>)
        ensures
            r matches Ok(p) ==> {
                &&& (self.store_view().contains_key(crate::raft::log::term_key())
                    ==> crate::codec::dec_u64(self.store_view()[crate::raft::log::term_key()])
                    == Some(p.0))
                &&& (!self.store_view().contains_key(crate::raft::log::term_key()) ==> p.0 == 0)
                &&& (match p.1 {
                    Some(s) => self.store_view().contains_key(crate::raft::log::voted_key())
                        && crate::codec::dec_str(
                        self.store_view()[crate::raft::log::voted_key()],
                    ) == Some(s@),
                    None => !self.store_view().contains_key(crate::raft::log::voted_key()),
                })
            },
    {
        match self {
            Node::Follower(n) => n.log.load_term(),
            Node::Candidate(n) => n.log.load_term(),
            Node::Leader(n) => n.log.load_term(),
        }
    }

    /// Takes the unsent outbound messages, leaving the outbox empty.
    pub fn take_outbox(&mut self) -> (r: Vec<Message>)
        ensures
            r@.map_values(|m: Message| m@) == old(self).msgs(),
            final(self).msgs() == Seq::<MessageView>::empty(),
            final(self).inv() == old(self).inv(),
            final(self).entries() == old(self).entries(),
            final(self).term_view() == old(self).term_view(),
            final(self).committed() == old(self).committed(),
            final(self).applied() == old(self).applied(),
            final(self).is_follower_spec() == old(self).is_follower_spec(),
            final(self).is_candidate_spec() == old(self).is_candidate_spec(),
            final(self).is_leader_spec() == old(self).is_leader_spec(),
            final(self).leader_view() == old(self).leader_view(),
            final(self).voted_view() == old(self).voted_view(),
            final(self).proxy_view() == old(self).proxy_view(),
    {
        let mut out: Vec<Message> = Vec::new();
        match self {
            Node::Follower(n) => core::mem::swap(&mut out, &mut n.outbox),
            Node::Candidate(n) => core::mem::swap(&mut out, &mut n.outbox),
            Node::Leader(n) => core::mem::swap(&mut out, &mut n.outbox),
        }
        proof {
            assert(final(self).msgs() =~= Seq::<MessageView>::empty());
        }
        out
    }
}

impl<L: Store, M: State> Node<L, M> {
    /// The watermarks are ordered at every moment of a node's life: applied
    /// at or below committed, committed at or below the last stored index.
    pub proof fn lemma_node_watermarks(&self)
        requires
            self.inv(),
        ensures
            self.applied() <= self.committed() <= self.entries().len(),
    {
        match self {
            Node::Follower(n) => n.log.lemma_watermarks_ordered(),
            Node::Candidate(n) => n.log.lemma_watermarks_ordered(),
            Node::Leader(n) => n.log.lemma_watermarks_ordered(),
        }
    }
}

/// A response for a call is delivered at most once: after the follower takes
/// the originator of a call out of its table to forward the first response,
/// a later response for the same call finds no originator and is dropped.
pub proof fn lemma_response_delivered_once(
    proxy: Map<Seq<u8>, Option<Seq<char>>>,
    call_id: Seq<u8>,
)
    ensures
        !proxy.remove(call_id).contains_key(call_id),
{
}

} // verus!
