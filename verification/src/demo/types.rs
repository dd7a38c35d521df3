use vstd::prelude::*;

pub use crate::control::ControlMessage;
use crate::demo::model::ids_sorted;

verus! {

/// The role a replica of the demo cluster plays; a dead replica only
/// listens for control messages.
#[derive(Clone, Copy, PartialEq, Eq, Debug, Structural)]
pub enum State {
    Follower,
    Candidate,
    Leader,
    Dead,
}

/// A log entry of the demo cluster: a change to the replicated integer.
#[derive(Debug, Clone, Copy)]
pub struct Log {
    pub index: usize,
    pub delta: i32,
    pub term: usize,
}

/// The messages the replicas of the demo cluster send to each other.
#[derive(Clone, Debug)]
pub enum Message {
    AppendEntryRequest {
        from_id: usize,
        term: usize,
        prev_log_index: usize,
        prev_log_term: usize,
        entries: Vec<Log>,
        commit_index: usize,
    },
    AppendEntryResponse { from_id: usize, term: usize, success: bool },
    RequestVoteRequest { from_id: usize, term: usize, last_log_index: usize, last_log_term: usize },
    RequestVoteResponse { from_id: usize, term: usize, vote_granted: bool },
}

/// The mathematical value of a demo message.
pub enum MessageView {
    AppendEntryRequest {
        from_id: usize,
        term: usize,
        prev_log_index: usize,
        prev_log_term: usize,
        entries: Seq<Log>,
        commit_index: usize,
    },
    AppendEntryResponse { from_id: usize, term: usize, success: bool },
    RequestVoteRequest { from_id: usize, term: usize, last_log_index: usize, last_log_term: usize },
    RequestVoteResponse { from_id: usize, term: usize, vote_granted: bool },
}

impl View for Message {
    type V = MessageView;

    open spec fn view(&self) -> MessageView {
        match self {
            Message::AppendEntryRequest {
                from_id,
                term,
                prev_log_index,
                prev_log_term,
                entries,
                commit_index,
            } => MessageView::AppendEntryRequest {
                from_id: *from_id,
                term: *term,
                prev_log_index: *prev_log_index,
                prev_log_term: *prev_log_term,
                entries: entries@,
                commit_index: *commit_index,
            },
            Message::AppendEntryResponse { from_id, term, success } =>
                MessageView::AppendEntryResponse { from_id: *from_id, term: *term, success: *success },
            Message::RequestVoteRequest { from_id, term, last_log_index, last_log_term } =>
                MessageView::RequestVoteRequest {
                from_id: *from_id,
                term: *term,
                last_log_index: *last_log_index,
                last_log_term: *last_log_term,
            },
            Message::RequestVoteResponse { from_id, term, vote_granted } =>
                MessageView::RequestVoteResponse {
                from_id: *from_id,
                term: *term,
                vote_granted: *vote_granted,
            },
        }
    }
}

/// The value of a message that may be missing.
pub open spec fn option_view(msg: Option<Message>) -> Option<MessageView> {
    match msg {
        Some(m) => Some(m@),
        None => None,
    }
}

/// A message to send to the peer to_id.
pub struct Outgoing {
    pub to_id: usize,
    pub message: Message,
}

/// The messages of a vector of outgoing messages, with their addressees, in
/// order.
pub open spec fn outgoing_view(v: Seq<Outgoing>) -> Seq<(usize, MessageView)> {
    v.map_values(|o: Outgoing| (o.to_id, o.message@))
}

/// Adds a message to send to a vector of outgoing messages.
pub(crate) fn push_outgoing(out: &mut Vec<Outgoing>, to_id: usize, message: Message)
    ensures
        outgoing_view(final(out)@) == outgoing_view(old(out)@).push((to_id, message@)),
{
    out.push(Outgoing { to_id, message });
    assert(outgoing_view(final(out)@) =~= outgoing_view(old(out)@).push((to_id, message@)));
}

/// The position of a peer with ID peer_id among peers sorted by ID, found
/// by binary search.
pub fn find_peer(peers: &Vec<usize>, peer_id: usize) -> (r: Option<usize>)
    requires
        ids_sorted(peers@),
    ensures
        r matches Some(i) ==> i < peers.len() && peers[i as int] == peer_id,
        r is None ==> !peers@.contains(peer_id),
{
    let mut lo: usize = 0;
    let mut hi: usize = peers.len();
    while lo < hi
        invariant
            0 <= lo <= hi <= peers.len(),
            ids_sorted(peers@),
            forall|i: int| 0 <= i < lo ==> peers[i] < peer_id,
            forall|i: int| hi <= i < peers.len() ==> peers[i] > peer_id,
        decreases hi - lo,
    {
        let mid = lo + (hi - lo) / 2;
        if peers[mid] == peer_id {
            return Some(mid);
        } else if peers[mid] < peer_id {
            lo = mid + 1;
        } else {
            hi = mid;
        }
    }
    None
}

/// The IDs sorted in increasing order, by insertion: the same IDs, each as
/// many times.
pub fn sorted_ids(ids: Vec<usize>) -> (r: Vec<usize>)
    ensures
        ids_sorted(r@),
        r@.to_multiset() == ids@.to_multiset(),
{
    let mut r: Vec<usize> = Vec::new();
    let n = ids.len();
    let mut i: usize = 0;
    assert(ids@.take(0) =~= seq![]);
    while i < n
        invariant
            n == ids.len(),
            i <= n,
            ids_sorted(r@),
            r@.to_multiset() == ids@.take(i as int).to_multiset(),
        decreases n - i,
    {
        let x = ids[i];
        let mut k: usize = 0;
        while k < r.len() && r[k] <= x
            invariant
                k <= r.len(),
                forall|j: int| 0 <= j < k ==> r[j] <= x,
            decreases r.len() - k,
        {
            k = k + 1;
        }
        let ghost r0 = r@;
        r.insert(k, x);
        proof {
            assert(r@ == r0.insert(k as int, x));
            assert forall|a: int, b: int| 0 <= a < b < r@.len() implies r@[a] <= r@[b] by {
                if b < k {
                } else if b == k {
                } else if a < k {
                    assert(r0[a] <= x);
                    assert(x < r0[k as int] || k == r0.len());
                } else if a == k {
                    assert(x < r0[k as int]);
                    assert(r0[k as int] <= r0[b - 1]);
                } else {
                }
            }
            assert(ids@.take(i + 1) =~= ids@.take(i as int).push(x));
            vstd::seq_lib::to_multiset_insert(r0, k as int, x);
            vstd::seq_lib::to_multiset_build(ids@.take(i as int), x);
            assert(r@.to_multiset() == ids@.take(i + 1).to_multiset());
        }
        i = i + 1;
    }
    assert(ids@.take(n as int) =~= ids@);
    r
}

} // verus!
