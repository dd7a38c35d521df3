//! State machine safety across a cluster: an entry that a replica counts as
//! committed is in the log of every leader whose term is the replica's or a
//! later one, at the same position, and two replicas that applied an index
//! applied the same entry there.
//!
//! The proof follows the cluster together with the log of the leader of each
//! term, as it grows while that replica leads: every log of the cluster, and
//! every append request of the network, is a part of those logs.
use crate::election::{
    can_happen, cluster_inv, cluster_run, cluster_step, quorum_for, run_can_happen, target,
    ClusterEvent, ClusterView,
};
use crate::log_matching::{initial_logs, logs_inv};
use crate::message::{Entry, MessageView};
use crate::replica::State;
use crate::replica_model::{
    follower_commit_index, is_majority, matched_index, merge_entries, up_to_date, ReplicaView,
};
use vstd::prelude::*;

verus! {

/// Two logs hold the same entries up to index n, both reaching it.
pub open spec fn agree<T>(a: Seq<Entry<T>>, b: Seq<Entry<T>>, n: int) -> bool {
    &&& 0 <= n < a.len()
    &&& n < b.len()
    &&& forall|i: int| 0 <= i <= n ==> #[trigger] a[i] == b[i]
}

/// A log is a part of the leaders' logs: it starts with the first entry,
/// each entry knows its position, terms never decrease along it, and up to
/// each entry past the first it holds the log of the leader of that entry's
/// term.
pub open spec fn consistent<T>(log: Seq<Entry<T>>, ll: Map<usize, Seq<Entry<T>>>, first: Entry<T>) -> bool {
    &&& log.len() >= 1
    &&& log[0] == first
    &&& forall|i: int| 0 <= i < log.len() ==> #[trigger] log[i].index == i
    &&& forall|i: int, j: int| 0 <= i <= j < log.len() ==> #[trigger] log[i].term <= #[trigger] log[j].term
    &&& forall|j: int|
        1 <= j < log.len() ==> #[trigger] log[j].term >= 1 && ll.contains_key(log[j].term) && agree(
            log,
            ll[log[j].term],
            j,
        )
}

/// The first log extends the second: it holds it as a prefix.
pub open spec fn extends<T>(a: Seq<Entry<T>>, b: Seq<Entry<T>>) -> bool {
    &&& b.len() <= a.len()
    &&& forall|i: int| 0 <= i < b.len() ==> #[trigger] a[i] == b[i]
}

/// A cluster, with the log of the leader of each term that has had one,
/// which replica that leader is, and the replicas whose votes elected it.
#[verifier::reject_recursive_types(T)]
pub struct SafeView<T> {
    pub cluster: ClusterView<T>,
    pub logs: Map<usize, Seq<Entry<T>>>,
    pub leaders: Map<usize, usize>,
    pub electors: Map<usize, Set<usize>>,
}

/// The votes that make a candidate leader when it counts the granted vote
/// an event delivers.
pub open spec fn winning_votes<T>(c: ClusterView<T>, e: ClusterEvent<T>) -> Set<usize> {
    match e {
        ClusterEvent::Deliver(r, MessageView::VoteResponse { from_id, .. }) => c.replicas[r].current_votes->0.insert(
            from_id,
        ),
        _ => Set::empty(),
    }
}

/// After an event, a replica that leads records its log as that of the
/// leader of its term; one that has just been elected also records the
/// votes that elected it.
pub open spec fn safe_step<T>(sv: SafeView<T>, e: ClusterEvent<T>) -> SafeView<T> {
    let c2 = cluster_step(sv.cluster, e);
    let r = target(e);
    let s = sv.cluster.replicas[r];
    let s2 = c2.replicas[r];
    if s2.state == State::Leader {
        SafeView {
            cluster: c2,
            logs: sv.logs.insert(s2.current_term, s2.entries),
            leaders: sv.leaders.insert(s2.current_term, r),
            electors: if s.state == State::Leader {
                sv.electors
            } else {
                sv.electors.insert(s2.current_term, winning_votes(sv.cluster, e))
            },
        }
    } else {
        SafeView { cluster: c2, ..sv }
    }
}

/// The cluster and its leaders' logs after events, one after the other.
pub open spec fn safe_run<T>(c: ClusterView<T>, es: Seq<ClusterEvent<T>>) -> SafeView<T>
    decreases es.len(),
{
    if es.len() == 0 {
        SafeView { cluster: c, logs: Map::empty(), leaders: Map::empty(), electors: Map::empty() }
    } else {
        safe_step(safe_run(c, es.drop_last()), es.last())
    }
}

/// The replica w vouched, in term t, for the leader's log up to index n: it
/// is the leader of t, or it accepted an append request of t that made its
/// log match up to n or further.
pub open spec fn acked<T>(sv: SafeView<T>, w: usize, t: usize, n: int) -> bool {
    ||| (sv.logs.contains_key(t) && sv.leaders[t] == w && 0 <= n < sv.logs[t].len())
    ||| exists|to: usize, j: usize|
        #[trigger] sv.cluster.network.contains(
            (to, MessageView::AppendEntryResponse { from_id: w, term: t, success: true, last_index: j }),
        ) && 0 <= n <= j
}

/// A majority of the cluster vouched in term t for the leader's log up to n.
pub open spec fn quorum_acked<T>(sv: SafeView<T>, t: usize, n: int, q: Set<usize>) -> bool {
    &&& q.subset_of(sv.cluster.replicas.dom())
    &&& 2 * q.len() > sv.cluster.replicas.dom().len()
    &&& forall|w: usize| #[trigger] q.contains(w) ==> acked(sv, w, t, n)
}

/// The entry at index n of the log of the leader of term t is of that term
/// and a majority vouched for it.
pub open spec fn committed<T>(sv: SafeView<T>, t: usize, n: int) -> bool {
    &&& sv.logs.contains_key(t)
    &&& 0 <= n < sv.logs[t].len()
    &&& sv.logs[t][n].term == t
    &&& exists|q: Set<usize>| quorum_acked(sv, t, n, q)
}

/// Every leader of a term after t, up to top, holds the log of the leader of
/// t up to n.
pub open spec fn inbetween<T>(sv: SafeView<T>, t: usize, top: int, n: int) -> bool {
    forall|u: usize|
        #![trigger sv.logs.contains_key(u)]
        sv.logs.contains_key(u) && t < u <= top ==> agree(sv.logs[u], sv.logs[t], n)
}

/// A commit index is backed by a committed entry of a term no later than
/// top, at the commit index or past it, whose leader's log the log holds up
/// to the commit index.
pub open spec fn commit_ok<T>(sv: SafeView<T>, log: Seq<Entry<T>>, ci: usize, top: usize) -> bool {
    ci == 0 || exists|t: usize, n: int|
        #![trigger committed(sv, t, n), sv.logs[t]]
        t <= top && n >= ci && committed(sv, t, n) && agree(log, sv.logs[t], ci as int)
}

/// The log of the leader of term t belongs to a replica that won the
/// election of t with the votes of its electors and leads while the term is
/// its own, and is a part of the leaders' logs with no entry past t.
pub open spec fn leader_log_ok<T>(sv: SafeView<T>, first: Entry<T>, t: usize) -> bool {
    let k = sv.leaders[t];
    let l = sv.logs[t];
    &&& t >= 1
    &&& sv.cluster.replicas.contains_key(k)
    &&& quorum_for(sv.cluster, k, t, sv.electors[t])
    &&& sv.cluster.replicas[k].current_term >= t
    &&& (sv.cluster.replicas[k].current_term == t ==> sv.cluster.replicas[k].state == State::Leader
        && sv.cluster.replicas[k].entries == l)
    &&& consistent(l, sv.logs, first)
    &&& l.last().term <= t
}

/// Every leader's log is as leader_log_ok says.
pub open spec fn inv_leader_logs<T>(sv: SafeView<T>, first: Entry<T>) -> bool {
    &&& sv.logs.dom() == sv.leaders.dom()
    &&& sv.logs.dom() == sv.electors.dom()
    &&& forall|t: usize| #![trigger sv.logs.contains_key(t)] sv.logs.contains_key(t) ==> leader_log_ok(sv, first, t)
}

/// A replica: its log is a part of the leaders' logs with no entry past its
/// term, and a candidate holds none of its own term; a leader is the
/// recorded leader of its term, and knows of each peer only what an answer
/// of its term vouched for; entries are applied no further than they are
/// committed, and committed no further than the log goes, backed by a
/// committed entry.
pub open spec fn replica_ok<T>(sv: SafeView<T>, first: Entry<T>, k: usize) -> bool {
    rv_ok(sv, first, k, sv.cluster.replicas[k])
}

/// The state s of replica k is as replica_ok says.
pub open spec fn rv_ok<T>(sv: SafeView<T>, first: Entry<T>, k: usize, s: ReplicaView<T>) -> bool {
    &&& consistent(s.entries, sv.logs, first)
    &&& s.entries.last().term <= s.current_term
    &&& (s.state == State::Candidate ==> s.entries.last().term < s.current_term)
    &&& (s.state == State::Leader ==> sv.logs.contains_key(s.current_term) && sv.leaders[s.current_term]
        == k)
    &&& (s.state == State::Leader ==> forall|p: usize|
        #![trigger s.match_index.contains_key(p)]
        s.match_index.contains_key(p) ==> sv.cluster.replicas.contains_key(p) && p != k && (
        s.match_index[p] == 0 || acked(sv, p, s.current_term, s.match_index[p] as int)))
    &&& s.last_applied <= s.commit_index < s.entries.len()
    &&& commit_ok(sv, s.entries, s.commit_index, s.current_term)
}

/// Every replica is as replica_ok says.
pub open spec fn inv_replicas<T>(sv: SafeView<T>, first: Entry<T>) -> bool {
    forall|k: usize| #![trigger sv.cluster.replicas.contains_key(k)] sv.cluster.replicas.contains_key(k) ==> replica_ok(sv, first, k)
}

/// A message of the network: an append request carries a part of the log
/// of the leader of its term, with the previous entry it names, and a
/// commit index no further than its last entry, backed by a committed
/// entry; an accepting answer of term t comes from a replica other than the
/// leader of t, whose term is t or later, and names an index of the
/// leader's log; a vote request comes from a replica, of its term or an
/// earlier one, and names the last entry of its log as long as it is a
/// candidate in the request's term; a granted vote went to a replica of
/// that term or a later one, whose log holds every entry the voter vouched
/// for earlier as long as it is a candidate of that term and no replica
/// leads it yet.
pub open spec fn msg_ok<T>(sv: SafeView<T>, to: usize, m: MessageView<T>) -> bool {
    match m {
        MessageView::AppendEntryRequest {
            term,
            prev_log_index,
            prev_log_term,
            entries,
            commit_index,
            ..
        } => {
            &&& sv.logs.contains_key(term)
            &&& prev_log_index + entries.len() < sv.logs[term].len()
            &&& sv.logs[term][prev_log_index as int].term == prev_log_term
            &&& forall|i: int|
                0 <= i < entries.len() ==> #[trigger] entries[i] == sv.logs[term][prev_log_index + 1 + i]
            &&& commit_index <= prev_log_index + entries.len()
            &&& commit_ok(sv, sv.logs[term], commit_index, term)
        },
        MessageView::AppendEntryResponse { from_id, term, success, last_index } => success ==> {
            &&& sv.logs.contains_key(term)
            &&& last_index < sv.logs[term].len()
            &&& sv.cluster.replicas.contains_key(from_id)
            &&& from_id != sv.leaders[term]
            &&& term <= sv.cluster.replicas[from_id].current_term
        },
        MessageView::VoteRequest { from_id, term, last_log_index, last_log_term } => {
            &&& sv.cluster.replicas.contains_key(from_id)
            &&& term <= sv.cluster.replicas[from_id].current_term
            &&& (sv.cluster.replicas[from_id].state == State::Candidate
                && sv.cluster.replicas[from_id].current_term == term ==> sv.cluster.replicas[from_id].entries.len()
                == last_log_index + 1 && sv.cluster.replicas[from_id].entries.last().term == last_log_term)
        },
        MessageView::VoteResponse { from_id, term, vote_granted } => vote_granted ==> sv.cluster.replicas.contains_key(to)
            && term <= sv.cluster.replicas[to].current_term && forall|t: usize, n: int|
            #![trigger acked(sv, from_id, t, n)]
            vouched_before(sv, from_id, t, n, term) && sv.cluster.replicas.contains_key(to)
                && sv.cluster.replicas[to].state == State::Candidate
                && sv.cluster.replicas[to].current_term == term && !sv.logs.contains_key(term)
                ==> agree(sv.cluster.replicas[to].entries, sv.logs[t], n),
    }
}

/// Every message of the network is as msg_ok says.
pub open spec fn inv_messages<T>(sv: SafeView<T>) -> bool {
    forall|to: usize, m: MessageView<T>|
        #![trigger sv.cluster.network.contains((to, m))]
        sv.cluster.network.contains((to, m)) ==> msg_ok(sv, to, m)
}

/// A replica that vouched in term t for the leader's log up to n holds it,
/// as long as the leaders of the terms since hold it too.
pub open spec fn acker_ok<T>(sv: SafeView<T>, w: usize) -> bool {
    forall|t: usize, n: int|
        #![trigger acked(sv, w, t, n)]
        acked(sv, w, t, n) && inbetween(sv, t, sv.cluster.replicas[w].current_term as int, n) ==> agree(
            sv.cluster.replicas[w].entries,
            sv.logs[t],
            n,
        )
}

/// Every replica is as acker_ok says.
pub open spec fn inv_ackers<T>(sv: SafeView<T>) -> bool {
    forall|w: usize| #![trigger sv.cluster.replicas.contains_key(w)] sv.cluster.replicas.contains_key(w) ==> acker_ok(sv, w)
}

/// The antecedent shared by the vote invariants: w vouched in term t for
/// an entry of term t at index n of the leader's log, t is before u, and
/// the leaders of the terms between hold that log up to n.
pub open spec fn vouched_before<T>(sv: SafeView<T>, w: usize, t: usize, n: int, u: usize) -> bool {
    &&& acked(sv, w, t, n)
    &&& t < u
    &&& sv.logs.contains_key(t)
    &&& 0 <= n < sv.logs[t].len()
    &&& sv.logs[t][n].term == t
    &&& inbetween(sv, t, u - 1, n)
}

/// A candidate whose term no replica leads yet holds every entry that one
/// of the replicas whose votes it counts vouched for earlier.
pub open spec fn candidate_ok<T>(sv: SafeView<T>, l: usize) -> bool {
    let s = sv.cluster.replicas[l];
    s.state == State::Candidate && !sv.logs.contains_key(s.current_term) ==> forall|w: usize, t: usize, n: int|
        #![trigger s.current_votes->0.contains(w), acked(sv, w, t, n)]
        s.current_votes->0.contains(w) && vouched_before(sv, w, t, n, s.current_term) ==> agree(
            s.entries,
            sv.logs[t],
            n,
        )
}

/// Every replica is as candidate_ok says.
pub open spec fn inv_candidates<T>(sv: SafeView<T>) -> bool {
    forall|l: usize| #![trigger sv.cluster.replicas.contains_key(l)] sv.cluster.replicas.contains_key(l) ==> candidate_ok(sv, l)
}

/// The log of the leader of term u holds every entry that one of its
/// electors vouched for earlier.
pub open spec fn electors_ok<T>(sv: SafeView<T>, u: usize) -> bool {
    forall|w: usize, t: usize, n: int|
        #![trigger sv.electors[u].contains(w), acked(sv, w, t, n)]
        sv.electors[u].contains(w) && vouched_before(sv, w, t, n, u) ==> agree(sv.logs[u], sv.logs[t], n)
}

/// Every leader's log is as electors_ok says.
pub open spec fn inv_electors<T>(sv: SafeView<T>) -> bool {
    forall|u: usize| #![trigger sv.logs.contains_key(u)] sv.logs.contains_key(u) ==> electors_ok(sv, u)
}

/// What holds of a cluster and its leaders' logs after any events.
pub open spec fn safe_inv<T>(sv: SafeView<T>, first: Entry<T>) -> bool {
    &&& logs_inv(sv.cluster)
    &&& first.index == 0
    &&& first.term == 0
    &&& inv_leader_logs(sv, first)
    &&& inv_replicas(sv, first)
    &&& inv_messages(sv)
    &&& inv_ackers(sv)
    &&& inv_candidates(sv)
    &&& inv_electors(sv)
}

/// The cluster of the leaders' logs after events is the cluster after them.
proof fn lemma_safe_run_cluster<T>(c: ClusterView<T>, es: Seq<ClusterEvent<T>>)
    ensures
        safe_run(c, es).cluster == cluster_run(c, es),
    decreases es.len(),
{
    if es.len() > 0 {
        lemma_safe_run_cluster(c, es.drop_last());
    }
}

/// A cluster as it starts keeps the invariant, with no leader yet.
proof fn lemma_initial_safe<T>(c: ClusterView<T>, first: Entry<T>)
    requires
        initial_logs(c, first),
    ensures
        safe_inv(SafeView { cluster: c, logs: Map::empty(), leaders: Map::empty(), electors: Map::empty() }, first),
{
    let sv = SafeView {
        cluster: c,
        logs: Map::<usize, Seq<Entry<T>>>::empty(),
        leaders: Map::<usize, usize>::empty(),
        electors: Map::<usize, Set<usize>>::empty(),
    };
    crate::log_matching::lemma_initial_logs_inv(c, first);
    assert(sv.logs.dom() =~= sv.leaders.dom());
    assert(sv.logs.dom() =~= sv.electors.dom());
    assert forall|k: usize| #[trigger] sv.cluster.replicas.contains_key(k) implies consistent(
        sv.cluster.replicas[k].entries,
        sv.logs,
        first,
    ) by {
        assert(c.replicas[k].entries == seq![first]);
    }
    assert forall|w: usize, t: usize, n: int| #[trigger] acked(sv, w, t, n) implies false by {
        if !(sv.logs.contains_key(t) && sv.leaders[t] == w && 0 <= n < sv.logs[t].len()) {
            let (to, j) = choose|to: usize, j: usize|
                #[trigger] sv.cluster.network.contains(
                    (to, MessageView::AppendEntryResponse { from_id: w, term: t, success: true, last_index: j }),
                ) && 0 <= n <= j;
            assert(sv.cluster.network.contains(
                (to, MessageView::AppendEntryResponse { from_id: w, term: t, success: true, last_index: j }),
            ));
        }
    }
}

/// Leader completeness over the leaders' logs: the leader of every term
/// after t holds the log of the leader of t up to a committed index n.
proof fn lemma_committed_in_later_logs<T>(sv: SafeView<T>, first: Entry<T>, t: usize, n: int, u: usize)
    requires
        safe_inv(sv, first),
        committed(sv, t, n),
        sv.logs.contains_key(u),
        t < u,
    ensures
        agree(sv.logs[u], sv.logs[t], n),
    decreases u - t,
{
    assert forall|u2: usize| #![trigger sv.logs.contains_key(u2)]
        sv.logs.contains_key(u2) && t < u2 <= u - 1 implies agree(sv.logs[u2], sv.logs[t], n) by {
        lemma_committed_in_later_logs(sv, first, t, n, u2);
    }
    assert(inbetween(sv, t, u - 1, n));
    let v = sv.electors[u];
    let q = choose|q: Set<usize>| quorum_acked(sv, t, n, q);
    crate::election::lemma_majorities_intersect(sv.cluster.replicas.dom(), q, v);
    let w = choose|w: usize| q.contains(w) && v.contains(w);
    assert(acked(sv, w, t, n));
    assert(vouched_before(sv, w, t, n, u));
}

/// Merging a part of a log l, which follows an index p up to which the log
/// holds l, makes the log hold l up to the end of that part: the log either
/// ends there, or it already held l that far and is left as it was. An
/// entry of the log of the same index and term as one of l is that entry.
proof fn lemma_merge_part<T>(log: Seq<Entry<T>>, l: Seq<Entry<T>>, p: int, m: int)
    requires
        0 <= p < log.len(),
        0 <= m,
        p + m < l.len(),
        forall|i: int| 0 <= i <= p ==> #[trigger] log[i] == l[i],
        forall|i: int| 0 <= i < log.len() ==> #[trigger] log[i].index == i,
        forall|i: int| 0 <= i < l.len() ==> #[trigger] l[i].index == i,
        forall|i: int|
            0 <= i < log.len() && i < l.len() && log[i].term == l[i].term ==> #[trigger] log[i]
                == l[i],
    ensures
        ({
            let r = merge_entries(log, l.subrange(p + 1, p + 1 + m));
            &&& p + m < r.len()
            &&& forall|i: int| 0 <= i <= p + m ==> #[trigger] r[i] == l[i]
            &&& r.len() == p + m + 1 || r == log
            &&& (p + m < log.len() && forall|i: int| 0 <= i <= p + m ==> #[trigger] log[i] == l[i])
                ==> r == log
        }),
    decreases m,
{
    let es = l.subrange(p + 1, p + 1 + m);
    if m > 0 {
        lemma_merge_part(log, l, p, m - 1);
        assert(es.drop_last() =~= l.subrange(p + 1, p + m));
        let r0 = merge_entries(log, l.subrange(p + 1, p + m));
        let e = es.last();
        assert(e == l[p + m]);
        assert(e.index == p + m);
        let r = crate::replica_model::merge_entry(r0, e);
        assert(r == merge_entries(log, es));
        if r0 == log && p + m < log.len() {
            if e.term != log[p + m].term {
                assert(r =~= log.take(p + m).push(e));
            } else {
                assert(log[p + m] == e);
                assert(r == log);
            }
        } else {
            assert(r0.len() == p + m);
            assert(r =~= r0.push(e));
        }
        assert forall|i: int| 0 <= i <= p + m implies #[trigger] r[i] == l[i] by {
            if i < p + m {
                assert(r0[i] == l[i]);
            }
        }
    } else {
        assert(es =~= Seq::<Entry<T>>::empty());
    }
}

/// How a cluster and its leaders' logs grow in a step: the same replicas,
/// messages and votes kept, and each leader's log recorded before extended
/// only with entries of its term.
pub open spec fn grows<T>(sv: SafeView<T>, sv2: SafeView<T>) -> bool {
    &&& sv2.cluster.replicas.dom() == sv.cluster.replicas.dom()
    &&& sv.cluster.network.subset_of(sv2.cluster.network)
    &&& sv.cluster.votes.subset_of(sv2.cluster.votes)
    &&& forall|t: usize|
        #![trigger sv.logs.contains_key(t)]
        sv.logs.contains_key(t) ==> {
            &&& sv2.logs.contains_key(t)
            &&& sv2.leaders[t] == sv.leaders[t]
            &&& sv2.electors[t] == sv.electors[t]
            &&& extends(sv2.logs[t], sv.logs[t])
            &&& forall|i: int|
                sv.logs[t].len() <= i < sv2.logs[t].len() ==> #[trigger] sv2.logs[t][i].term == t
        }
}

/// What a replica vouched for stays vouched for as the cluster grows.
proof fn lemma_acked_grows<T>(sv: SafeView<T>, sv2: SafeView<T>, w: usize, t: usize, n: int)
    requires
        grows(sv, sv2),
        acked(sv, w, t, n),
    ensures
        acked(sv2, w, t, n),
{
    if sv.logs.contains_key(t) && sv.leaders[t] == w && 0 <= n < sv.logs[t].len() {
    } else {
        let (to, j) = choose|to: usize, j: usize|
            #[trigger] sv.cluster.network.contains(
                (to, MessageView::AppendEntryResponse { from_id: w, term: t, success: true, last_index: j }),
            ) && 0 <= n <= j;
        assert(sv2.cluster.network.contains(
            (to, MessageView::AppendEntryResponse { from_id: w, term: t, success: true, last_index: j }),
        ));
    }
}

/// A committed entry stays committed as the cluster grows.
proof fn lemma_committed_grows<T>(sv: SafeView<T>, sv2: SafeView<T>, t: usize, n: int)
    requires
        grows(sv, sv2),
        committed(sv, t, n),
    ensures
        committed(sv2, t, n),
{
    let q = choose|q: Set<usize>| quorum_acked(sv, t, n, q);
    assert forall|w: usize| #[trigger] q.contains(w) implies acked(sv2, w, t, n) by {
        lemma_acked_grows(sv, sv2, w, t, n);
    }
    assert(quorum_acked(sv2, t, n, q));
    assert(sv2.logs[t][n] == sv.logs[t][n]);
}

/// A backed commit index stays backed as the cluster grows.
proof fn lemma_commit_ok_grows<T>(sv: SafeView<T>, sv2: SafeView<T>, log: Seq<Entry<T>>, ci: usize, top: usize)
    requires
        grows(sv, sv2),
        commit_ok(sv, log, ci, top),
    ensures
        commit_ok(sv2, log, ci, top),
{
    if ci != 0 {
        let (t, n) = choose|t: usize, n: int|
            #![trigger committed(sv, t, n), sv.logs[t]]
            t <= top && n >= ci && committed(sv, t, n) && agree(log, sv.logs[t], ci as int);
        lemma_committed_grows(sv, sv2, t, n);
        assert(agree(log, sv2.logs[t], ci as int)) by {
            assert forall|i: int| 0 <= i <= ci implies #[trigger] log[i] == sv2.logs[t][i] by {
                assert(log[i] == sv.logs[t][i]);
            }
        }
    }
}

/// A part of the leaders' logs stays one as those logs grow.
proof fn lemma_consistent_grows<T>(
    log: Seq<Entry<T>>,
    ll: Map<usize, Seq<Entry<T>>>,
    ll2: Map<usize, Seq<Entry<T>>>,
    first: Entry<T>,
)
    requires
        consistent(log, ll, first),
        forall|t: usize| #![trigger ll.contains_key(t)] ll.contains_key(t) ==> ll2.contains_key(t) && extends(ll2[t], ll[t]),
    ensures
        consistent(log, ll2, first),
{
    assert forall|j: int| 1 <= j < log.len() implies #[trigger] log[j].term >= 1 && ll2.contains_key(
        log[j].term,
    ) && agree(log, ll2[log[j].term], j) by {
        let u = log[j].term;
        assert(ll.contains_key(u) && agree(log, ll[u], j));
        assert forall|i: int| 0 <= i <= j implies #[trigger] log[i] == ll2[u][i] by {
            assert(log[i] == ll[u][i]);
        }
    }
}

/// Every entry of a part of the leaders' logs whose last entry is of term b
/// or earlier is of term b or earlier.
proof fn lemma_terms_bounded<T>(log: Seq<Entry<T>>, ll: Map<usize, Seq<Entry<T>>>, first: Entry<T>, b: int)
    requires
        consistent(log, ll, first),
        log.last().term <= b,
    ensures
        forall|i: int| 0 <= i < log.len() ==> #[trigger] log[i].term <= b,
{
    assert forall|i: int| 0 <= i < log.len() implies #[trigger] log[i].term <= b by {
        assert(log[i].term <= log[log.len() - 1].term);
    }
}

/// The leaders that hold a log up to n after a step held it before.
proof fn lemma_inbetween_back<T>(sv: SafeView<T>, sv2: SafeView<T>, t: usize, top: int, n: int)
    requires
        grows(sv, sv2),
        sv.logs.contains_key(t),
        0 <= n < sv.logs[t].len(),
        sv.logs[t][n].term <= t,
        inbetween(sv2, t, top, n),
    ensures
        inbetween(sv, t, top, n),
{
    assert forall|u: usize| #![trigger sv.logs.contains_key(u)]
        sv.logs.contains_key(u) && t < u <= top implies agree(sv.logs[u], sv.logs[t], n) by {
        assert(sv2.logs.contains_key(u));
        assert(agree(sv2.logs[u], sv2.logs[t], n));
        assert(sv2.logs[t][n] == sv.logs[t][n]);
        if n >= sv.logs[u].len() {
            assert(sv2.logs[u][n].term == u);
        }
        assert forall|i: int| 0 <= i <= n implies #[trigger] sv.logs[u][i] == sv.logs[t][i] by {
            assert(sv2.logs[u][i] == sv2.logs[t][i]);
            assert(sv2.logs[u][i] == sv.logs[u][i]);
            assert(sv2.logs[t][i] == sv.logs[t][i]);
        }
    }
}

/// The event delivers to the candidate s a vote of its term that gives it a
/// majority.
pub open spec fn elected_by<T>(s: ReplicaView<T>, e: ClusterEvent<T>) -> bool {
    match e {
        ClusterEvent::Deliver(_, MessageView::VoteResponse { from_id, term, vote_granted }) =>
            vote_granted && term == s.current_term && is_majority(
            s.current_votes->0.insert(from_id).len(),
            s.peer_ids.len(),
        ),
        _ => false,
    }
}

/// What the step of the replica an event happens to does to its role, term
/// and log, as far as the invariant needs it: terms never decrease; a leader
/// stays leader in its term and only appends entries of its term; a replica
/// that starts to lead is a candidate of that term that counted a majority
/// with the vote the event delivers; a candidate keeps its log.
pub open spec fn step_shape<T>(sv: SafeView<T>, e: ClusterEvent<T>) -> bool {
    let s = sv.cluster.replicas[target(e)];
    let s2 = cluster_step(sv.cluster, e).replicas[target(e)];
    &&& s2.current_term >= s.current_term
    &&& (s.state == State::Leader && s2.current_term == s.current_term ==> s2.state == State::Leader)
    &&& (s2.state == State::Leader ==> s2.current_term == s.current_term && (s.state == State::Leader
        || s.state == State::Candidate) && extends(s2.entries, s.entries) && forall|i: int|
        s.entries.len() <= i < s2.entries.len() ==> #[trigger] s2.entries[i].term == s2.current_term)
    &&& (s2.state == State::Leader && s.state == State::Candidate ==> elected_by(s, e))
    &&& (s2.state == State::Candidate ==> s2.entries == s.entries && (s2.current_term > s.current_term
        || s.state == State::Candidate))
}

/// The stepping replica keeps its own parts of the invariant: as a replica,
/// as a replica that vouched for logs, as a candidate, and, once elected,
/// with its electors.
pub open spec fn own_ok<T>(sv: SafeView<T>, sv2: SafeView<T>, first: Entry<T>, r: usize) -> bool {
    let s = sv.cluster.replicas[r];
    let s2 = sv2.cluster.replicas[r];
    &&& replica_ok(sv2, first, r)
    &&& acker_ok(sv2, r)
    &&& candidate_ok(sv2, r)
    &&& (s2.state == State::Leader && s.state != State::Leader ==> electors_ok(sv2, s2.current_term))
}

/// The messages a step sends keep to the invariant; the accepting answers
/// among them come from the stepping replica, of its term.
pub open spec fn sent_ok<T>(sv: SafeView<T>, sv2: SafeView<T>, r: usize) -> bool {
    forall|to: usize, m: MessageView<T>|
        #![trigger sv2.cluster.network.contains((to, m))]
        sv2.cluster.network.contains((to, m)) && !sv.cluster.network.contains((to, m)) ==> msg_ok(
            sv2,
            to,
            m,
        ) && (m matches MessageView::AppendEntryResponse { from_id, term, success, .. } ==> success
            ==> from_id == r && term == sv2.cluster.replicas[r].current_term)
}

/// A replica elected in a step is elected in a term that had no leader.
proof fn lemma_new_term_unled<T>(sv: SafeView<T>, first: Entry<T>, e: ClusterEvent<T>)
    requires
        safe_inv(sv, first),
        can_happen(sv.cluster, e),
        step_shape(sv, e),
        cluster_step(sv.cluster, e).replicas[target(e)].state == State::Leader,
        sv.cluster.replicas[target(e)].state != State::Leader,
    ensures
        !sv.logs.contains_key(cluster_step(sv.cluster, e).replicas[target(e)].current_term),
{
    let c = sv.cluster;
    let r = target(e);
    let c2 = cluster_step(c, e);
    let s2 = c2.replicas[r];
    let u = s2.current_term;
    crate::election::lemma_step_inv(c, e);
    assert(c2.replicas.dom() =~= c.replicas.dom());
    if sv.logs.contains_key(u) {
        let k = sv.leaders[u];
        assert(leader_log_ok(sv, first, u));
        let q = sv.electors[u];
        assert(quorum_for(c2, k, u, q)) by {
            assert forall|v: usize| #[trigger] q.contains(v) implies c2.votes.contains((v, u, k)) by {
                assert(c.votes.contains((v, u, k)));
            }
        }
        assert(c2.replicas.contains_key(r));
        crate::election::lemma_unique_leader(c2, k, r, u);
    }
}

/// A step grows the cluster and its leaders' logs.
proof fn lemma_frame_grows<T>(sv: SafeView<T>, first: Entry<T>, e: ClusterEvent<T>)
    requires
        safe_inv(sv, first),
        can_happen(sv.cluster, e),
        step_shape(sv, e),
    ensures
        grows(sv, safe_step(sv, e)),
{
    let c = sv.cluster;
    let r = target(e);
    let s = c.replicas[r];
    let sv2 = safe_step(sv, e);
    let c2 = sv2.cluster;
    let s2 = c2.replicas[r];
    assert(c2.replicas.dom() =~= c.replicas.dom());
    if s2.state == State::Leader && s.state != State::Leader {
        lemma_new_term_unled(sv, first, e);
    }
    assert forall|t: usize| #![trigger sv.logs.contains_key(t)] sv.logs.contains_key(t) implies {
        &&& sv2.logs.contains_key(t)
        &&& sv2.leaders[t] == sv.leaders[t]
        &&& sv2.electors[t] == sv.electors[t]
        &&& extends(sv2.logs[t], sv.logs[t])
        &&& forall|i: int|
            sv.logs[t].len() <= i < sv2.logs[t].len() ==> #[trigger] sv2.logs[t][i].term == t
    } by {
        if s2.state == State::Leader && t == s2.current_term {
            assert(s.state == State::Leader);
            assert(replica_ok(sv, first, r));
            assert(leader_log_ok(sv, first, t));
            assert(sv.logs[t] == s.entries);
        }
    }
}

/// A log that extends one whose commit index is backed backs it too.
proof fn lemma_commit_ok_log_extends<T>(sv: SafeView<T>, log: Seq<Entry<T>>, log2: Seq<Entry<T>>, ci: usize, top: usize)
    requires
        commit_ok(sv, log, ci, top),
        extends(log2, log),
    ensures
        commit_ok(sv, log2, ci, top),
{
    if ci != 0 {
        let (t, n) = choose|t: usize, n: int|
            #![trigger committed(sv, t, n), sv.logs[t]]
            t <= top && n >= ci && committed(sv, t, n) && agree(log, sv.logs[t], ci as int);
        assert(agree(log2, sv.logs[t], ci as int)) by {
            assert forall|i: int| 0 <= i <= ci implies #[trigger] log2[i] == sv.logs[t][i] by {
                assert(log[i] == sv.logs[t][i]);
            }
        }
    }
}

/// What a step newly vouches for, the stepping replica vouches for in its
/// term.
proof fn lemma_acked_new<T>(sv: SafeView<T>, first: Entry<T>, e: ClusterEvent<T>, w: usize, t: usize, n: int)
    requires
        safe_inv(sv, first),
        can_happen(sv.cluster, e),
        step_shape(sv, e),
        sent_ok(sv, safe_step(sv, e), target(e)),
        acked(safe_step(sv, e), w, t, n),
    ensures
        acked(sv, w, t, n) || (w == target(e) && t == safe_step(sv, e).cluster.replicas[target(e)].current_term),
{
    let sv2 = safe_step(sv, e);
    let r = target(e);
    lemma_frame_grows(sv, first, e);
    if sv2.logs.contains_key(t) && sv2.leaders[t] == w && 0 <= n < sv2.logs[t].len() {
        if sv.logs.contains_key(t) && n < sv.logs[t].len() {
        }
    } else {
        let (to, j) = choose|to: usize, j: usize|
            #[trigger] sv2.cluster.network.contains(
                (to, MessageView::AppendEntryResponse { from_id: w, term: t, success: true, last_index: j }),
            ) && 0 <= n <= j;
        if sv.cluster.network.contains(
            (to, MessageView::AppendEntryResponse { from_id: w, term: t, success: true, last_index: j }),
        ) {
        }
    }
}

/// The conditions under which the frame lemmas hold.
pub open spec fn frame_pre<T>(sv: SafeView<T>, first: Entry<T>, e: ClusterEvent<T>) -> bool {
    &&& safe_inv(sv, first)
    &&& can_happen(sv.cluster, e)
    &&& step_shape(sv, e)
    &&& own_ok(sv, safe_step(sv, e), first, target(e))
    &&& sent_ok(sv, safe_step(sv, e), target(e))
}

/// A step as the frame needs it keeps the leaders' logs as the invariant says.
proof fn lemma_frame_leader_logs<T>(sv: SafeView<T>, first: Entry<T>, e: ClusterEvent<T>)
    requires
        frame_pre(sv, first, e),
    ensures
        inv_leader_logs(safe_step(sv, e), first),
{
    let c = sv.cluster;
    let r = target(e);
    let s = c.replicas[r];
    let sv2 = safe_step(sv, e);
    let c2 = sv2.cluster;
    let s2 = c2.replicas[r];
    let u = s2.current_term;
    lemma_frame_grows(sv, first, e);
    crate::log_matching::lemma_step_logs_inv(c, e);
    assert(c2.replicas.dom() =~= c.replicas.dom());
    if s2.state == State::Leader {
        if s.state == State::Leader {
            assert(replica_ok(sv, first, r));
            assert(sv.electors.dom().contains(u));
            assert(sv2.electors.dom() =~= sv.electors.dom());
        }
        assert(sv2.logs.dom() =~= sv.logs.dom().insert(u));
        assert(sv2.leaders.dom() =~= sv.leaders.dom().insert(u));
        assert(sv2.electors.dom() =~= sv.electors.dom().insert(u));
    }
    assert forall|t: usize| #![trigger sv2.logs.contains_key(t)] sv2.logs.contains_key(t) implies leader_log_ok(sv2, first, t) by {
        if s2.state == State::Leader && t == u {
            assert(replica_ok(sv2, first, r));
            assert(sv2.logs[t] == s2.entries);
            if s.state == State::Leader {
                assert(replica_ok(sv, first, r));
                assert(leader_log_ok(sv, first, t));
                let q = sv.electors[t];
                assert forall|v: usize| #[trigger] q.contains(v) implies c2.votes.contains((v, t, r)) by {
                    assert(c.votes.contains((v, t, r)));
                }
                assert(quorum_for(c2, r, t, q));
            } else {
                let q = winning_votes(c, e);
                assert(elected_by(s, e));
                match e {
                    ClusterEvent::Deliver(_, MessageView::VoteResponse { from_id, term, vote_granted }) => {
                        let v = from_id;
                        assert(c.network.contains((r, MessageView::VoteResponse { from_id, term, vote_granted })));
                        assert(c.votes.contains((v, t, r)));
                        assert(q == s.current_votes->0.insert(v));
                        assert forall|x: usize| #[trigger] q.contains(x) implies c2.votes.contains((x, t, r)) && c.replicas.contains_key(x) by {
                            if x != v {
                                assert(c.votes.contains((x, s.current_term, r)));
                            }
                        }
                        assert(q.subset_of(c2.replicas.dom()));
                        s.peer_ids.unique_seq_to_set();
                        assert(c.replicas.dom().remove(r).len() == c.replicas.dom().len() - 1);
                        assert(quorum_for(c2, r, t, q));
                    },
                    _ => {},
                }
            }
        } else {
            assert(sv.logs.contains_key(t));
            assert(leader_log_ok(sv, first, t));
            let k = sv.leaders[t];
            assert(sv2.logs[t] == sv.logs[t]);
            let q = sv.electors[t];
            assert forall|v: usize| #[trigger] q.contains(v) implies c2.votes.contains((v, t, k)) by {
                assert(c.votes.contains((v, t, k)));
            }
            lemma_consistent_grows(sv.logs[t], sv.logs, sv2.logs, first);
            if k == r && s2.current_term == t {
                assert(s.current_term == t);
            }
        }
    }
}

/// A step as the frame needs it keeps the other replicas as the invariant says.
proof fn lemma_frame_replicas<T>(sv: SafeView<T>, first: Entry<T>, e: ClusterEvent<T>)
    requires
        frame_pre(sv, first, e),
    ensures
        inv_replicas(safe_step(sv, e), first),
{
    let c = sv.cluster;
    let r = target(e);
    let sv2 = safe_step(sv, e);
    let c2 = sv2.cluster;
    let s2 = c2.replicas[r];
    lemma_frame_grows(sv, first, e);
    crate::election::lemma_step_inv(c, e);
    assert(c2.replicas.dom() =~= c.replicas.dom());
    assert forall|k: usize| #![trigger c2.replicas.contains_key(k)] c2.replicas.contains_key(k) implies replica_ok(sv2, first, k) by {
        if k != r {
            let sk = c.replicas[k];
            assert(replica_ok(sv, first, k));
            assert(c2.replicas[k] == sk);
            lemma_consistent_grows(sk.entries, sv.logs, sv2.logs, first);
            lemma_commit_ok_grows(sv, sv2, sk.entries, sk.commit_index, sk.current_term);
            if sk.state == State::Leader {
                if s2.state == State::Leader && s2.current_term == sk.current_term {
                    let qk = choose|q: Set<usize>| quorum_for(c2, k, sk.current_term, q);
                    let qr = choose|q: Set<usize>| quorum_for(c2, r, s2.current_term, q);
                    crate::election::lemma_unique_leader(c2, k, r, sk.current_term);
                }
                assert forall|p: usize| #![trigger sk.match_index.contains_key(p)]
                    sk.match_index.contains_key(p) implies c2.replicas.contains_key(p) && p != k && (
                    sk.match_index[p] == 0 || acked(sv2, p, sk.current_term, sk.match_index[p] as int)) by {
                    if sk.match_index[p] != 0 {
                        lemma_acked_grows(sv, sv2, p, sk.current_term, sk.match_index[p] as int);
                    }
                }
            }
        }
    }
}

/// A replica that vouched for a log in term t did so at index n of the log
/// of the leader of t, whose entries are all of term t or earlier.
proof fn lemma_acked_facts<T>(sv: SafeView<T>, first: Entry<T>, w: usize, t: usize, n: int)
    requires
        safe_inv(sv, first),
        acked(sv, w, t, n),
    ensures
        sv.logs.contains_key(t),
        0 <= n < sv.logs[t].len(),
        sv.logs[t][n].term <= t,
        sv.cluster.replicas.contains_key(w),
        t <= sv.cluster.replicas[w].current_term,
{
    if sv.logs.contains_key(t) && sv.leaders[t] == w && 0 <= n < sv.logs[t].len() {
        assert(leader_log_ok(sv, first, t));
    } else {
        let (to, j) = choose|to: usize, j: usize|
            #[trigger] sv.cluster.network.contains(
                (to, MessageView::AppendEntryResponse { from_id: w, term: t, success: true, last_index: j }),
            ) && 0 <= n <= j;
        assert(msg_ok(sv, to, MessageView::AppendEntryResponse { from_id: w, term: t, success: true, last_index: j }));
    }
    assert(leader_log_ok(sv, first, t));
    lemma_terms_bounded(sv.logs[t], sv.logs, first, t as int);
}

/// A step as the frame needs it keeps the messages as the invariant says.
proof fn lemma_frame_messages<T>(sv: SafeView<T>, first: Entry<T>, e: ClusterEvent<T>)
    requires
        frame_pre(sv, first, e),
    ensures
        inv_messages(safe_step(sv, e)),
{
    let c = sv.cluster;
    let r = target(e);
    let s = c.replicas[r];
    let sv2 = safe_step(sv, e);
    let c2 = sv2.cluster;
    let s2 = c2.replicas[r];
    lemma_frame_grows(sv, first, e);
    assert(c2.replicas.dom() =~= c.replicas.dom());
    assert forall|to: usize, m: MessageView<T>| #![trigger c2.network.contains((to, m))]
        c2.network.contains((to, m)) implies msg_ok(sv2, to, m) by {
        if c.network.contains((to, m)) {
            assert(msg_ok(sv, to, m));
            match m {
                MessageView::AppendEntryRequest { term, prev_log_index, prev_log_term, entries, commit_index, .. } => {
                    lemma_commit_ok_grows(sv, sv2, sv.logs[term], commit_index, term);
                    lemma_commit_ok_log_extends(sv2, sv.logs[term], sv2.logs[term], commit_index, term);
                    assert forall|i: int| 0 <= i < entries.len() implies #[trigger] entries[i] == sv2.logs[term][prev_log_index + 1 + i] by {
                        assert(entries[i] == sv.logs[term][prev_log_index + 1 + i]);
                    }
                },
                MessageView::AppendEntryResponse { from_id, term, success, last_index } => {},
                MessageView::VoteRequest { from_id, term, last_log_index, last_log_term } => {},
                MessageView::VoteResponse { from_id, term, vote_granted } => {
                    if vote_granted {
                        assert forall|t: usize, n: int| #![trigger acked(sv2, from_id, t, n)]
                            vouched_before(sv2, from_id, t, n, term) && c2.replicas.contains_key(to)
                            && c2.replicas[to].state == State::Candidate
                            && c2.replicas[to].current_term == term && !sv2.logs.contains_key(term)
                            implies agree(c2.replicas[to].entries, sv2.logs[t], n) by {
                            assert(cluster_inv(c));
                            assert(c.votes.contains((from_id, term, to)));
                            lemma_acked_new(sv, first, e, from_id, t, n);
                            lemma_acked_facts(sv, first, from_id, t, n);
                            lemma_inbetween_back(sv, sv2, t, term - 1, n);
                            assert(vouched_before(sv, from_id, t, n, term));
                            assert(agree(c.replicas[to].entries, sv.logs[t], n));
                        }
                    }
                },
            }
        }
    }
}

/// A step as the frame needs it keeps the other replicas holding what they
/// vouched for.
proof fn lemma_frame_ackers<T>(sv: SafeView<T>, first: Entry<T>, e: ClusterEvent<T>)
    requires
        frame_pre(sv, first, e),
    ensures
        inv_ackers(safe_step(sv, e)),
{
    let c = sv.cluster;
    let r = target(e);
    let sv2 = safe_step(sv, e);
    let c2 = sv2.cluster;
    lemma_frame_grows(sv, first, e);
    assert(c2.replicas.dom() =~= c.replicas.dom());
    assert forall|w: usize| #![trigger c2.replicas.contains_key(w)] c2.replicas.contains_key(w) implies acker_ok(sv2, w) by {
        if w != r {
            assert(c2.replicas[w] == c.replicas[w]);
            assert forall|t: usize, n: int| #![trigger acked(sv2, w, t, n)]
                acked(sv2, w, t, n) && inbetween(sv2, t, c2.replicas[w].current_term as int, n)
                implies agree(c2.replicas[w].entries, sv2.logs[t], n) by {
                lemma_acked_new(sv, first, e, w, t, n);
                lemma_acked_facts(sv, first, w, t, n);
                lemma_inbetween_back(sv, sv2, t, c.replicas[w].current_term as int, n);
                assert(acker_ok(sv, w));
                assert(agree(c.replicas[w].entries, sv.logs[t], n));
            }
        }
    }
}

/// A step as the frame needs it keeps the other candidates holding what
/// their voters vouched for.
proof fn lemma_frame_candidates<T>(sv: SafeView<T>, first: Entry<T>, e: ClusterEvent<T>)
    requires
        frame_pre(sv, first, e),
    ensures
        inv_candidates(safe_step(sv, e)),
{
    let c = sv.cluster;
    let r = target(e);
    let s = c.replicas[r];
    let sv2 = safe_step(sv, e);
    let c2 = sv2.cluster;
    let s2 = c2.replicas[r];
    lemma_frame_grows(sv, first, e);
    assert(c2.replicas.dom() =~= c.replicas.dom());
    assert forall|l: usize| #![trigger c2.replicas.contains_key(l)] c2.replicas.contains_key(l) implies candidate_ok(sv2, l) by {
        if l != r {
            let sl = c.replicas[l];
            assert(c2.replicas[l] == sl);
            if sl.state == State::Candidate && !sv2.logs.contains_key(sl.current_term) {
                assert(candidate_ok(sv, l));
                assert forall|w: usize, t: usize, n: int|
                    #![trigger sl.current_votes->0.contains(w), acked(sv2, w, t, n)]
                    sl.current_votes->0.contains(w) && vouched_before(sv2, w, t, n, sl.current_term)
                    implies agree(sl.entries, sv2.logs[t], n) by {
                    assert(cluster_inv(c));
                    assert(c.votes.contains((w, sl.current_term, l)));
                    lemma_acked_new(sv, first, e, w, t, n);
                    lemma_acked_facts(sv, first, w, t, n);
                    lemma_inbetween_back(sv, sv2, t, sl.current_term - 1, n);
                    assert(vouched_before(sv, w, t, n, sl.current_term));
                    assert(agree(sl.entries, sv.logs[t], n));
                }
            }
        }
    }
}

/// A step as the frame needs it keeps the leaders' logs holding what their
/// electors vouched for.
proof fn lemma_frame_electors<T>(sv: SafeView<T>, first: Entry<T>, e: ClusterEvent<T>)
    requires
        frame_pre(sv, first, e),
    ensures
        inv_electors(safe_step(sv, e)),
{
    let c = sv.cluster;
    let r = target(e);
    let s = c.replicas[r];
    let sv2 = safe_step(sv, e);
    let c2 = sv2.cluster;
    let s2 = c2.replicas[r];
    lemma_frame_grows(sv, first, e);
    assert(c2.replicas.dom() =~= c.replicas.dom());
    assert forall|u: usize| #![trigger sv2.logs.contains_key(u)] sv2.logs.contains_key(u) implies electors_ok(sv2, u) by {
        if sv.logs.contains_key(u) {
            assert(leader_log_ok(sv, first, u));
            assert(electors_ok(sv, u));
            let k = sv.leaders[u];
            assert forall|w: usize, t: usize, n: int|
                #![trigger sv2.electors[u].contains(w), acked(sv2, w, t, n)]
                sv2.electors[u].contains(w) && vouched_before(sv2, w, t, n, u)
                implies agree(sv2.logs[u], sv2.logs[t], n) by {
                assert(c.votes.contains((w, u, k)));
                assert(cluster_inv(c));
                lemma_acked_new(sv, first, e, w, t, n);
                lemma_acked_facts(sv, first, w, t, n);
                lemma_inbetween_back(sv, sv2, t, u - 1, n);
                assert(vouched_before(sv, w, t, n, u));
                assert(agree(sv.logs[u], sv.logs[t], n));
            }
        }
    }
}

/// A step whose replica keeps its own parts of the invariant, and whose
/// messages keep theirs, keeps the invariant.
proof fn lemma_frame<T>(sv: SafeView<T>, first: Entry<T>, e: ClusterEvent<T>)
    requires
        frame_pre(sv, first, e),
    ensures
        safe_inv(safe_step(sv, e), first),
{
    crate::log_matching::lemma_step_logs_inv(sv.cluster, e);
    lemma_frame_leader_logs(sv, first, e);
    lemma_frame_replicas(sv, first, e);
    lemma_frame_messages(sv, first, e);
    lemma_frame_ackers(sv, first, e);
    lemma_frame_candidates(sv, first, e);
    lemma_frame_electors(sv, first, e);
}

/// A replica that vouched for a log up to n vouched for it up to any index
/// before n.
proof fn lemma_acked_lower<T>(sv: SafeView<T>, w: usize, t: usize, n: int, n2: int)
    requires
        acked(sv, w, t, n),
        0 <= n2 <= n,
    ensures
        acked(sv, w, t, n2),
{
    if !(sv.logs.contains_key(t) && sv.leaders[t] == w && 0 <= n < sv.logs[t].len()) {
        let (to, j) = choose|to: usize, j: usize|
            #[trigger] sv.cluster.network.contains(
                (to, MessageView::AppendEntryResponse { from_id: w, term: t, success: true, last_index: j }),
            ) && 0 <= n <= j;
        assert(sv.cluster.network.contains(
            (to, MessageView::AppendEntryResponse { from_id: w, term: t, success: true, last_index: j }),
        ));
    }
}

/// Applying the ready entries keeps a replica's state as replica_ok says:
/// a leader that moves its commit index to an entry of its term that half
/// of its peers hold commits an entry that a majority vouched for.
proof fn lemma_apply_ok<T>(sv: SafeView<T>, first: Entry<T>, k: usize, s1: ReplicaView<T>)
    requires
        rv_ok(sv, first, k, s1),
        cluster_inv(sv.cluster),
        sv.cluster.replicas.contains_key(k),
        s1.id == k,
        s1.peer_ids == sv.cluster.replicas[k].peer_ids,
        s1.state == State::Leader ==> sv.logs[s1.current_term] == s1.entries,
        s1.entries.len() <= usize::MAX,
    ensures
        rv_ok(sv, first, k, crate::replica_model::apply_ready_entries(s1).0),
        crate::replica_model::apply_ready_entries(s1).0.entries == s1.entries,
        crate::replica_model::apply_ready_entries(s1).0.state == s1.state,
        crate::replica_model::apply_ready_entries(s1).0.current_term == s1.current_term,
        crate::replica_model::apply_ready_entries(s1).0.current_votes == s1.current_votes,
        crate::replica_model::apply_ready_entries(s1).0.voted_for == s1.voted_for,
        crate::replica_model::apply_ready_entries(s1).0.match_index == s1.match_index,
{
    let c = crate::replica_model::leader_commit_index(s1);
    if s1.state == State::Leader && exists|n: int| crate::replica_model::is_highest_committable(s1, n) {
        let n = choose|n: int| crate::replica_model::is_highest_committable(s1, n);
        assert(c as int == n);
        let t = s1.current_term;
        let mi = s1.match_index;
        let f = mi.dom().filter(|p: usize| mi[p] >= n as usize);
        let dom = sv.cluster.replicas.dom();
        assert(mi.dom().subset_of(dom));
        vstd::set_lib::lemma_len_subset(mi.dom(), dom);
        assert(f.subset_of(mi.dom()));
        let q = f.insert(k);
        assert(!f.contains(k));
        assert(q.len() == f.len() + 1);
        let sk = sv.cluster.replicas[k];
        sk.peer_ids.unique_seq_to_set();
        assert(dom.remove(k).len() == dom.len() - 1);
        assert(crate::replica_model::replication_count(mi, n as usize) == f.len());
        assert forall|w: usize| #[trigger] q.contains(w) implies acked(sv, w, t, n) by {
            if w != k {
                assert(mi[w] >= n);
                assert(mi[w] != 0);
                lemma_acked_lower(sv, w, t, mi[w] as int, n);
            }
        }
        assert(quorum_acked(sv, t, n, q));
        assert(committed(sv, t, n));
        assert(agree(s1.entries, sv.logs[t], n));
    }
}

/// None of the effects sends a message.
pub open spec fn no_sends<T>(effs: Seq<crate::message::EffectView<T>>) -> bool {
    forall|i: int| 0 <= i < effs.len() ==> !(#[trigger] effs[i] is Send)
}

/// Applying entries sends no message.
proof fn lemma_applied_no_sends<T>(entries: Seq<Entry<T>>, from: int, to: int)
    ensures
        no_sends(crate::replica_model::applied_effects(entries, from, to)),
    decreases to - from,
{
    if to > from {
        lemma_applied_no_sends(entries, from, to - 1);
        let a = crate::replica_model::applied_effects(entries, from, to - 1);
        let b = crate::replica_model::applied_effects(entries, from, to);
        assert forall|i: int| 0 <= i < b.len() implies !(#[trigger] b[i] is Send) by {
            if i < a.len() {
                assert(b[i] == a[i]);
            }
        }
    }
}

/// Applying the ready entries sends no message.
proof fn lemma_apply_no_sends<T>(s: ReplicaView<T>)
    ensures
        no_sends(crate::replica_model::apply_ready_entries(s).1),
{
    if s.commit_index < s.entries.len() {
        let c = crate::replica_model::leader_commit_index(s);
        let ce = crate::replica_model::committed_effects(s.entries, s.commit_index as int, c as int);
        let ae = crate::replica_model::applied_effects(s.entries, s.last_applied as int, c as int);
        lemma_applied_no_sends(s.entries, s.last_applied as int, c as int);
        let e = crate::replica_model::apply_ready_entries(s).1;
        assert(e == ce + ae);
        assert forall|i: int| 0 <= i < e.len() implies !(#[trigger] e[i] is Send) by {
            if i < ce.len() {
                assert(e[i] == ce[i]);
            } else {
                assert(e[i] == ae[i - ce.len()]);
            }
        }
    }
}

/// The reaction of the replica an event happens to, before it applies the
/// ready entries.
pub open spec fn reaction<T>(sv: SafeView<T>, e: ClusterEvent<T>) -> crate::replica_model::Step<T> {
    crate::replica_model::react(sv.cluster.replicas[target(e)], crate::election::replica_event(e))
}

/// The messages the reaction sends that were not in the network keep to the
/// invariant; the accepting answers among them come from the replica, of
/// its term.
pub open spec fn reaction_sent_ok<T>(sv: SafeView<T>, e: ClusterEvent<T>) -> bool {
    let sv2 = safe_step(sv, e);
    let r = target(e);
    let e1 = reaction(sv, e).1;
    forall|to: usize, m: MessageView<T>|
        #![trigger crate::election::sent(e1).contains((to, m))]
        crate::election::sent(e1).contains((to, m)) && !sv.cluster.network.contains((to, m))
            ==> msg_ok(sv2, to, m) && (m matches MessageView::AppendEntryResponse {
            from_id,
            term,
            success,
            ..
        } ==> success ==> from_id == r && term == sv2.cluster.replicas[r].current_term)
}

/// A step whose reaction leaves the replica as replica_ok says, keeps its
/// other parts of the invariant, and sends messages that keep theirs, keeps
/// the invariant.
proof fn lemma_finish<T>(sv: SafeView<T>, first: Entry<T>, e: ClusterEvent<T>)
    requires
        safe_inv(sv, first),
        can_happen(sv.cluster, e),
        step_shape(sv, e),
        rv_ok(safe_step(sv, e), first, target(e), reaction(sv, e).0),
        reaction(sv, e).0.state == State::Leader ==> safe_step(sv, e).logs[reaction(sv, e).0.current_term]
            == reaction(sv, e).0.entries,
        reaction(sv, e).0.id == target(e),
        reaction(sv, e).0.peer_ids == sv.cluster.replicas[target(e)].peer_ids,
        acker_ok(safe_step(sv, e), target(e)),
        candidate_ok(safe_step(sv, e), target(e)),
        safe_step(sv, e).cluster.replicas[target(e)].state == State::Leader
            && sv.cluster.replicas[target(e)].state != State::Leader ==> electors_ok(
            safe_step(sv, e),
            safe_step(sv, e).cluster.replicas[target(e)].current_term,
        ),
        reaction_sent_ok(sv, e),
    ensures
        safe_inv(safe_step(sv, e), first),
{
    let c = sv.cluster;
    let r = target(e);
    let sv2 = safe_step(sv, e);
    let c2 = sv2.cluster;
    let (s1, e1) = reaction(sv, e);
    let (s2, e2) = crate::replica_model::apply_ready_entries(s1);
    assert(c2.replicas[r] == s2);
    crate::election::lemma_step_inv(c, e);
    assert(c2.replicas.dom() =~= c.replicas.dom());
    assert(s1.entries.len() <= usize::MAX);
    lemma_apply_ok(sv2, first, r, s1);
    lemma_apply_no_sends(s1);
    let effs = e1 + e2;
    assert(crate::replica_model::step_event(c.replicas[r], crate::election::replica_event(e)).1 == effs);
    assert forall|to: usize, m: MessageView<T>| #![trigger c2.network.contains((to, m))]
        c2.network.contains((to, m)) && !c.network.contains((to, m)) implies msg_ok(sv2, to, m) && (
        m matches MessageView::AppendEntryResponse { from_id, term, success, .. } ==> success ==> from_id
            == r && term == c2.replicas[r].current_term) by {
        assert(crate::election::sent(effs).contains((to, m)));
        let i = choose|i: int|
            0 <= i < effs.len() && effs[i] == (crate::message::EffectView::Send { to_id: to, message: m });
        if i >= e1.len() {
            assert(effs[i] == e2[i - e1.len()]);
        } else {
            assert(effs[i] == e1[i]);
            assert(crate::election::sent(e1).contains((to, m)));
        }
    }
    assert(sent_ok(sv, sv2, r));
    assert(own_ok(sv, sv2, first, r));
    lemma_frame(sv, first, e);
}

/// Applying the ready entries changes nothing but the commit index and the
/// index of the last applied entry.
proof fn lemma_apply_shape<T>(s1: ReplicaView<T>)
    ensures
        crate::replica_model::apply_ready_entries(s1).0 == (ReplicaView {
            commit_index: crate::replica_model::apply_ready_entries(s1).0.commit_index,
            last_applied: crate::replica_model::apply_ready_entries(s1).0.last_applied,
            ..s1
        }),
{
}

/// A replica's state that is as replica_ok says stays so as the cluster
/// grows.
proof fn lemma_rv_grows<T>(sv: SafeView<T>, sv2: SafeView<T>, first: Entry<T>, k: usize, s: ReplicaView<T>)
    requires
        grows(sv, sv2),
        rv_ok(sv, first, k, s),
    ensures
        rv_ok(sv2, first, k, s),
{
    lemma_consistent_grows(s.entries, sv.logs, sv2.logs, first);
    lemma_commit_ok_grows(sv, sv2, s.entries, s.commit_index, s.current_term);
    if s.state == State::Leader {
        assert forall|p: usize| #![trigger s.match_index.contains_key(p)]
            s.match_index.contains_key(p) implies sv2.cluster.replicas.contains_key(p) && p != k && (
            s.match_index[p] == 0 || acked(sv2, p, s.current_term, s.match_index[p] as int)) by {
            if s.match_index[p] != 0 {
                lemma_acked_grows(sv, sv2, p, s.current_term, s.match_index[p] as int);
            }
        }
    }
}

/// The messages that carry nothing the invariant constrains: refusals of
/// append requests and of votes.
pub open spec fn trivial_msg<T>(m: MessageView<T>) -> bool {
    ||| (m matches MessageView::AppendEntryResponse { success, .. } && !success)
    ||| (m matches MessageView::VoteResponse { vote_granted, .. } && !vote_granted)
}

/// The reaction changes nothing the invariant speaks of, but for a
/// leader's knowledge of its peers, and sends only refusals.
pub open spec fn quiet<T>(sv: SafeView<T>, e: ClusterEvent<T>) -> bool {
    let s = sv.cluster.replicas[target(e)];
    let (s1, e1) = reaction(sv, e);
    &&& s1.entries == s.entries
    &&& s1.state == s.state
    &&& s1.current_term == s.current_term
    &&& s1.current_votes == s.current_votes
    &&& s1.commit_index == s.commit_index
    &&& s1.last_applied == s.last_applied
    &&& s1.id == s.id
    &&& s1.peer_ids == s.peer_ids
    &&& (s.state == State::Leader ==> forall|p: usize|
        #![trigger s1.match_index.contains_key(p)]
        s1.match_index.contains_key(p) ==> sv.cluster.replicas.contains_key(p) && p != target(e) && (
        s1.match_index[p] == 0 || acked(sv, p, s.current_term, s1.match_index[p] as int)))
    &&& forall|i: int| 0 <= i < e1.len() ==> quiet_send_ok(sv, e, #[trigger] e1[i])
}

/// An effect of a quiet step: a refusal, or an append request that keeps to
/// the invariant.
pub open spec fn quiet_send_ok<T>(sv: SafeView<T>, e: ClusterEvent<T>, eff: crate::message::EffectView<T>) -> bool {
    match eff {
        crate::message::EffectView::Send { to_id, message } => trivial_msg(message) || (message is AppendEntryRequest
            && msg_ok(safe_step(sv, e), to_id, message)),
        _ => true,
    }
}

/// A quiet step leaves the leaders' logs as they were, and has the shape
/// the frame needs.
proof fn lemma_quiet_shape<T>(sv: SafeView<T>, first: Entry<T>, e: ClusterEvent<T>)
    requires
        safe_inv(sv, first),
        can_happen(sv.cluster, e),
        quiet(sv, e),
    ensures
        safe_step(sv, e).logs == sv.logs,
        safe_step(sv, e).leaders == sv.leaders,
        safe_step(sv, e).electors == sv.electors,
        safe_step(sv, e).cluster.replicas[target(e)] == crate::replica_model::apply_ready_entries(
            reaction(sv, e).0,
        ).0,
        step_shape(sv, e),
        no_sends(crate::replica_model::apply_ready_entries(reaction(sv, e).0).1),
{
    let c = sv.cluster;
    let r = target(e);
    let s = c.replicas[r];
    let (s1, e1) = reaction(sv, e);
    let sv2 = safe_step(sv, e);
    let s2 = sv2.cluster.replicas[r];
    lemma_apply_shape(s1);
    lemma_apply_no_sends(s1);
    assert(s2 == crate::replica_model::apply_ready_entries(s1).0);
    assert(replica_ok(sv, first, r));
    if s.state == State::Leader {
        assert(leader_log_ok(sv, first, s.current_term));
        assert(sv2.logs =~= sv.logs);
        assert(sv2.leaders =~= sv.leaders);
    }
}

/// The messages of a quiet step keep to the invariant.
proof fn lemma_quiet_sent<T>(sv: SafeView<T>, first: Entry<T>, e: ClusterEvent<T>)
    requires
        quiet(sv, e),
    ensures
        reaction_sent_ok(sv, e),
{
    let e1 = reaction(sv, e).1;
    assert forall|to: usize, m: MessageView<T>| #![trigger crate::election::sent(e1).contains((to, m))]
        crate::election::sent(e1).contains((to, m)) && !sv.cluster.network.contains((to, m))
        implies msg_ok(safe_step(sv, e), to, m) && (m matches MessageView::AppendEntryResponse {
        from_id,
        term,
        success,
        ..
    } ==> success ==> from_id == target(e) && term == safe_step(sv, e).cluster.replicas[target(e)].current_term) by {
        let i = choose|i: int|
            0 <= i < e1.len() && e1[i] == (crate::message::EffectView::Send { to_id: to, message: m });
        assert(quiet_send_ok(sv, e, e1[i]));
    }
}

/// None of the effects sends an accepting answer.
pub open spec fn no_success_acks<T>(effs: Seq<crate::message::EffectView<T>>) -> bool {
    forall|i: int|
        0 <= i < effs.len() ==> !(#[trigger] effs[i] matches crate::message::EffectView::Send {
            message: MessageView::AppendEntryResponse { success: true, .. },
            ..
        })
}

/// In a step that sends no accepting answer and leaves the leaders' logs
/// as they were, no replica vouches for anything new.
proof fn lemma_quiet_acked<T>(sv: SafeView<T>, first: Entry<T>, e: ClusterEvent<T>, r: usize, t: usize, n: int)
    requires
        safe_inv(sv, first),
        can_happen(sv.cluster, e),
        no_success_acks(reaction(sv, e).1),
        safe_step(sv, e).logs == sv.logs,
        safe_step(sv, e).leaders == sv.leaders,
        acked(safe_step(sv, e), r, t, n),
    ensures
        acked(sv, r, t, n),
{
    let (s1, e1) = reaction(sv, e);
    let sv2 = safe_step(sv, e);
    lemma_apply_no_sends(s1);
    if !(sv2.logs.contains_key(t) && sv2.leaders[t] == r && 0 <= n < sv2.logs[t].len()) {
        let (to, j) = choose|to: usize, j: usize|
            #[trigger] sv2.cluster.network.contains(
                (to, MessageView::AppendEntryResponse { from_id: r, term: t, success: true, last_index: j }),
            ) && 0 <= n <= j;
        let m = MessageView::AppendEntryResponse { from_id: r, term: t, success: true, last_index: j };
        if !sv.cluster.network.contains((to, m)) {
            let e2 = crate::replica_model::apply_ready_entries(s1).1;
            let effs = e1 + e2;
            assert(crate::replica_model::step_event(sv.cluster.replicas[target(e)], crate::election::replica_event(e)).1 == effs);
            let i = choose|i: int|
                0 <= i < effs.len() && effs[i] == (crate::message::EffectView::Send { to_id: to, message: m });
            if i < e1.len() {
                assert(effs[i] == e1[i]);
            } else {
                assert(effs[i] == e2[i - e1.len()]);
            }
        }
    }
}

/// A quiet step sends no accepting answer.
proof fn lemma_quiet_no_acks<T>(sv: SafeView<T>, e: ClusterEvent<T>)
    requires
        quiet(sv, e),
    ensures
        no_success_acks(reaction(sv, e).1),
{
    let e1 = reaction(sv, e).1;
    assert forall|i: int| 0 <= i < e1.len() implies !(#[trigger] e1[i] matches crate::message::EffectView::Send {
        message: MessageView::AppendEntryResponse { success: true, .. },
        ..
    }) by {
        assert(quiet_send_ok(sv, e, e1[i]));
    }
}

/// A quiet step keeps the invariant.
#[verifier::spinoff_prover]
proof fn lemma_case_quiet<T>(sv: SafeView<T>, first: Entry<T>, e: ClusterEvent<T>)
    requires
        safe_inv(sv, first),
        can_happen(sv.cluster, e),
        quiet(sv, e),
    ensures
        safe_inv(safe_step(sv, e), first),
{
    let c = sv.cluster;
    let r = target(e);
    let s = c.replicas[r];
    let (s1, e1) = reaction(sv, e);
    let sv2 = safe_step(sv, e);
    let s2 = sv2.cluster.replicas[r];
    lemma_quiet_shape(sv, first, e);
    lemma_quiet_no_acks(sv, e);
    lemma_apply_shape(s1);
    lemma_frame_grows(sv, first, e);
    crate::election::lemma_step_inv(c, e);
    assert(sv2.cluster.replicas.dom() =~= c.replicas.dom());
    assert(replica_ok(sv, first, r));
    lemma_rv_grows(sv, sv2, first, r, s);
    if s.state == State::Leader {
        assert forall|p: usize| #![trigger s1.match_index.contains_key(p)]
            s1.match_index.contains_key(p) implies sv2.cluster.replicas.contains_key(p) && p != r && (
            s1.match_index[p] == 0 || acked(sv2, p, s1.current_term, s1.match_index[p] as int)) by {
            if s1.match_index[p] != 0 {
                lemma_acked_grows(sv, sv2, p, s.current_term, s1.match_index[p] as int);
            }
        }
    }
    assert(rv_ok(sv2, first, r, s1));
    assert forall|t: usize, n: int| #![trigger acked(sv2, r, t, n)]
        acked(sv2, r, t, n) && inbetween(sv2, t, s2.current_term as int, n) implies agree(
        s2.entries,
        sv2.logs[t],
        n,
    ) by {
        lemma_quiet_acked(sv, first, e, r, t, n);
        lemma_acked_facts(sv, first, r, t, n);
        lemma_inbetween_back(sv, sv2, t, s.current_term as int, n);
        assert(acker_ok(sv, r));
    }
    assert(acker_ok(sv2, r));
    assert(candidate_ok(sv2, r)) by {
        if s2.state == State::Candidate && !sv2.logs.contains_key(s2.current_term) {
            assert(candidate_ok(sv, r));
            assert forall|w: usize, t: usize, n: int|
                #![trigger s2.current_votes->0.contains(w), acked(sv2, w, t, n)]
                s2.current_votes->0.contains(w) && vouched_before(sv2, w, t, n, s2.current_term)
                implies agree(s2.entries, sv2.logs[t], n) by {
                assert(cluster_inv(c));
                assert(c.votes.contains((w, s.current_term, r)));
                lemma_quiet_acked(sv, first, e, w, t, n);
                lemma_acked_facts(sv, first, w, t, n);
                lemma_inbetween_back(sv, sv2, t, s.current_term - 1, n);
                assert(vouched_before(sv, w, t, n, s.current_term));
            }
        }
    }
    lemma_quiet_sent(sv, first, e);
    lemma_finish(sv, first, e);
}

/// A commit index backed by an entry of a term no later than top is backed
/// by one no later than any later bound.
proof fn lemma_commit_ok_top<T>(sv: SafeView<T>, log: Seq<Entry<T>>, ci: usize, top: usize, top2: usize)
    requires
        commit_ok(sv, log, ci, top),
        top <= top2,
    ensures
        commit_ok(sv, log, ci, top2),
{
    if ci != 0 {
        let (t, n) = choose|t: usize, n: int|
            #![trigger committed(sv, t, n), sv.logs[t]]
            t <= top && n >= ci && committed(sv, t, n) && agree(log, sv.logs[t], ci as int);
        assert(t <= top2);
    }
}

/// The event delivers a vote request of term u from l whose last entry is
/// at least as up to date as the last entry of the log.
pub open spec fn grant_justified<T>(e: ClusterEvent<T>, l: usize, u: usize, log: Seq<Entry<T>>) -> bool {
    match e {
        ClusterEvent::Deliver(_, MessageView::VoteRequest { from_id, term, last_log_index, last_log_term }) =>
            from_id == l && term == u && up_to_date(
            last_log_term,
            last_log_index,
            log.last().term,
            log.last().index,
        ),
        _ => false,
    }
}

/// An effect of a replica that follows term u with the log: a refusal, or a
/// vote granted in u after checking the candidate's log.
pub open spec fn follow_send_ok<T>(eff: crate::message::EffectView<T>, e: ClusterEvent<T>, u: usize, log: Seq<Entry<T>>) -> bool {
    match eff {
        crate::message::EffectView::Send { to_id, message } => trivial_msg(message) || (message
            == MessageView::<T>::VoteResponse { from_id: target(e), term: u, vote_granted: true }
            && grant_justified(e, to_id, u, log)),
        _ => true,
    }
}

/// The reaction makes the replica a follower of its term or a later one,
/// with its log, commit index and applied entries as they were, and sends
/// refusals and votes granted after checking the candidate's log.
pub open spec fn follows<T>(sv: SafeView<T>, e: ClusterEvent<T>) -> bool {
    let s = sv.cluster.replicas[target(e)];
    let (s1, e1) = reaction(sv, e);
    &&& s1.entries == s.entries
    &&& s1.state == State::Follower
    &&& s1.current_term >= s.current_term
    &&& (s.state == State::Leader ==> s1.current_term > s.current_term)
    &&& s1.commit_index == s.commit_index
    &&& s1.last_applied == s.last_applied
    &&& s1.id == s.id
    &&& s1.peer_ids == s.peer_ids
    &&& forall|i: int| 0 <= i < e1.len() ==> follow_send_ok(#[trigger] e1[i], e, s1.current_term, s.entries)
}

/// The election argument: a candidate's log at least as up to date as a
/// voter's log that holds the log of the leader of t up to an entry of
/// term t at n holds it too, when the leaders of the terms after t and
/// before the candidate's hold it.
proof fn lemma_up_to_date_holds<T>(
    ll: Map<usize, Seq<Entry<T>>>,
    first: Entry<T>,
    t: usize,
    n: int,
    v: Seq<Entry<T>>,
    cand: Seq<Entry<T>>,
    u: usize,
)
    requires
        consistent(v, ll, first),
        consistent(cand, ll, first),
        ll.contains_key(t),
        consistent(ll[t], ll, first),
        ll[t].last().term <= t,
        first.term == 0,
        agree(v, ll[t], n),
        ll[t][n].term == t,
        t >= 1,
        cand.last().term < u,
        forall|x: usize| #![trigger ll.contains_key(x)] ll.contains_key(x) && t < x <= u - 1 ==> agree(ll[x], ll[t], n),
        up_to_date(cand.last().term, (cand.len() - 1) as usize, v.last().term, v.last().index),
    ensures
        agree(cand, ll[t], n),
{
    assert(n >= 1);
    let vi = v.len() - 1;
    let vt = v[vi].term;
    assert(v[n].term <= vt);
    assert(v.last().index == vi);
    let li = cand.len() - 1;
    let lt = cand[li].term;
    if lt == vt {
        assert(li >= vi);
        assert(agree(cand, ll[vt], li));
        assert(agree(v, ll[vt], vi));
        assert forall|i: int| 0 <= i <= n implies #[trigger] cand[i] == ll[t][i] by {
            assert(cand[i] == ll[vt][i]);
            assert(v[i] == ll[vt][i]);
        }
    } else {
        assert(lt > vt);
        assert(li >= 1);
        assert(agree(cand, ll[lt], li));
        assert(ll.contains_key(lt));
        assert(agree(ll[lt], ll[t], n));
        if li < n {
            assert(ll[lt][li] == ll[t][li]);
            lemma_terms_bounded(ll[t], ll, first, t as int);
            assert(ll[t][li].term <= t);
        }
        assert forall|i: int| 0 <= i <= n implies #[trigger] cand[i] == ll[t][i] by {
            assert(cand[i] == ll[lt][i]);
        }
    }
}

/// The replica r, which vouched for the log of the leader of t up to an
/// entry of term t at n, grants its vote in term u, after t, to the
/// candidate l whose last entry is as the request names: l holds it too.
proof fn lemma_grant_inner<T>(
    sv: SafeView<T>,
    first: Entry<T>,
    r: usize,
    l: usize,
    u: usize,
    t: usize,
    n: int,
    lli: usize,
    llt: usize,
)
    requires
        acker_ok(sv, r),
        replica_ok(sv, first, r),
        replica_ok(sv, first, l),
        leader_log_ok(sv, first, t),
        first.term == 0,
        acked(sv, r, t, n),
        t < u,
        sv.logs.contains_key(t),
        0 <= n < sv.logs[t].len(),
        sv.logs[t][n].term == t,
        inbetween(sv, t, u - 1, n),
        !sv.logs.contains_key(u),
        sv.cluster.replicas[r].current_term <= u,
        sv.cluster.replicas[l].state == State::Candidate,
        sv.cluster.replicas[l].current_term == u,
        sv.cluster.replicas[l].entries.len() == lli + 1,
        sv.cluster.replicas[l].entries.last().term == llt,
        up_to_date(
            llt,
            lli,
            sv.cluster.replicas[r].entries.last().term,
            sv.cluster.replicas[r].entries.last().index,
        ),
    ensures
        agree(sv.cluster.replicas[l].entries, sv.logs[t], n),
{
    let s = sv.cluster.replicas[r];
    assert(inbetween(sv, t, s.current_term as int, n));
    assert(agree(s.entries, sv.logs[t], n));
    lemma_up_to_date_holds(sv.logs, first, t, n, s.entries, sv.cluster.replicas[l].entries, u);
}

/// A vote granted in term u by a replica whose log holds every entry it
/// vouched for, to a candidate whose log is at least as up to date, goes
/// to a log that holds them too.
#[verifier::spinoff_prover]
proof fn lemma_grant_ok<T>(sv: SafeView<T>, first: Entry<T>, e: ClusterEvent<T>, l: usize, u: usize)
    requires
        safe_inv(sv, first),
        can_happen(sv.cluster, e),
        grant_justified(e, l, u, sv.cluster.replicas[target(e)].entries),
        sv.cluster.replicas[target(e)].current_term <= u,
        u <= safe_step(sv, e).cluster.replicas[target(e)].current_term,
        safe_step(sv, e).logs == sv.logs,
        safe_step(sv, e).leaders == sv.leaders,
        safe_step(sv, e).cluster.replicas[target(e)].state != State::Candidate,
        no_success_acks(reaction(sv, e).1),
    ensures
        msg_ok(safe_step(sv, e), l, MessageView::VoteResponse { from_id: target(e), term: u, vote_granted: true }),
{
    let c = sv.cluster;
    let r = target(e);
    let sv2 = safe_step(sv, e);
    let c2 = sv2.cluster;
    assert(c2.replicas == c.replicas.insert(r, c2.replicas[r]));
    match e {
        ClusterEvent::Deliver(_, m) => {
            match m {
                MessageView::VoteRequest { from_id, term, last_log_index, last_log_term } => {
                    assert(msg_ok(sv, r, m));
                    assert(c.replicas.contains_key(l));
                    assert forall|t: usize, n: int| #![trigger acked(sv2, r, t, n)]
                        vouched_before(sv2, r, t, n, u) && c2.replicas.contains_key(l)
                        && c2.replicas[l].state == State::Candidate
                        && c2.replicas[l].current_term == u && !sv2.logs.contains_key(u)
                        implies agree(c2.replicas[l].entries, sv2.logs[t], n) by {
                        lemma_quiet_acked(sv, first, e, r, t, n);
                        assert(l != r);
                        assert(c2.replicas[l] == c.replicas[l]);
                        assert(acker_ok(sv, r));
                        assert(replica_ok(sv, first, r));
                        assert(replica_ok(sv, first, l));
                        assert(leader_log_ok(sv, first, t));
                        lemma_grant_inner(sv, first, r, l, u, t, n, last_log_index, last_log_term);
                    }
                },
                _ => {},
            }
        },
        _ => {},
    }
}

/// A step that makes the replica follow keeps the invariant.
#[verifier::spinoff_prover]
proof fn lemma_case_follow<T>(sv: SafeView<T>, first: Entry<T>, e: ClusterEvent<T>)
    requires
        safe_inv(sv, first),
        can_happen(sv.cluster, e),
        follows(sv, e),
    ensures
        safe_inv(safe_step(sv, e), first),
{
    let c = sv.cluster;
    let r = target(e);
    let s = c.replicas[r];
    let (s1, e1) = reaction(sv, e);
    let sv2 = safe_step(sv, e);
    let c2 = sv2.cluster;
    let s2 = c2.replicas[r];
    lemma_apply_shape(s1);
    assert(s2 == crate::replica_model::apply_ready_entries(s1).0);
    assert(sv2.logs == sv.logs);
    assert(sv2.leaders == sv.leaders);
    assert(sv2.electors == sv.electors);
    assert(step_shape(sv, e));
    assert(no_success_acks(e1)) by {
        assert forall|i: int| 0 <= i < e1.len() implies !(#[trigger] e1[i] matches crate::message::EffectView::Send {
            message: MessageView::AppendEntryResponse { success: true, .. },
            ..
        }) by {
            assert(follow_send_ok(e1[i], e, s1.current_term, s.entries));
        }
    }
    lemma_frame_grows(sv, first, e);
    assert(c2.replicas.dom() =~= c.replicas.dom());
    assert(replica_ok(sv, first, r));
    lemma_rv_grows(sv, sv2, first, r, s);
    lemma_commit_ok_top(sv2, s.entries, s.commit_index, s.current_term, s1.current_term);
    assert(rv_ok(sv2, first, r, s1));
    assert forall|t: usize, n: int| #![trigger acked(sv2, r, t, n)]
        acked(sv2, r, t, n) && inbetween(sv2, t, s2.current_term as int, n) implies agree(
        s2.entries,
        sv2.logs[t],
        n,
    ) by {
        lemma_quiet_acked(sv, first, e, r, t, n);
        lemma_acked_facts(sv, first, r, t, n);
        assert(inbetween(sv2, t, s.current_term as int, n));
        lemma_inbetween_back(sv, sv2, t, s.current_term as int, n);
        assert(acker_ok(sv, r));
    }
    assert(acker_ok(sv2, r));
    assert(candidate_ok(sv2, r));
    assert(reaction_sent_ok(sv, e)) by {
        assert forall|to: usize, m: MessageView<T>| #![trigger crate::election::sent(e1).contains((to, m))]
            crate::election::sent(e1).contains((to, m)) && !sv.cluster.network.contains((to, m))
            implies msg_ok(sv2, to, m) && (m matches MessageView::AppendEntryResponse {
            from_id,
            term,
            success,
            ..
        } ==> success ==> from_id == r && term == sv2.cluster.replicas[r].current_term) by {
            let i = choose|i: int|
                0 <= i < e1.len() && e1[i] == (crate::message::EffectView::Send { to_id: to, message: m });
            assert(follow_send_ok(e1[i], e, s1.current_term, s.entries));
            if !trivial_msg(m) {
                lemma_grant_ok(sv, first, e, to, s1.current_term);
            }
        }
    }
    lemma_finish(sv, first, e);
}

/// Two parts of the leaders' logs with entries of the same term at index j
/// hold the same entries up to j.
proof fn lemma_consistent_agree<T>(a: Seq<Entry<T>>, b: Seq<Entry<T>>, ll: Map<usize, Seq<Entry<T>>>, first: Entry<T>, j: int)
    requires
        consistent(a, ll, first),
        consistent(b, ll, first),
        0 <= j < a.len(),
        j < b.len(),
        a[j].term == b[j].term,
    ensures
        agree(a, b, j),
{
    if j >= 1 {
        let w = a[j].term;
        assert(agree(a, ll[w], j));
        assert(agree(b, ll[w], j));
        assert forall|i: int| 0 <= i <= j implies #[trigger] a[i] == b[i] by {
            assert(a[i] == ll[w][i]);
            assert(b[i] == ll[w][i]);
        }
    }
}

/// Merging into a part of the leaders' logs a part of another, after an
/// index at which both hold entries of the same term, gives a part of the
/// leaders' logs that holds the other up to the end of the merged part.
proof fn lemma_merge_consistent<T>(
    log: Seq<Entry<T>>,
    l: Seq<Entry<T>>,
    p: int,
    m: int,
    ll: Map<usize, Seq<Entry<T>>>,
    first: Entry<T>,
    u: int,
)
    requires
        consistent(log, ll, first),
        consistent(l, ll, first),
        0 <= p < log.len(),
        0 <= m,
        p + m < l.len(),
        log[p].term == l[p].term,
        l.last().term <= u,
        log.last().term <= u,
    ensures
        ({
            let r = merge_entries(log, l.subrange(p + 1, p + 1 + m));
            &&& consistent(r, ll, first)
            &&& r.last().term <= u
            &&& agree(r, l, p + m)
            &&& r.len() == p + m + 1 || r == log
            &&& agree(log, l, p + m) ==> r == log
        }),
{
    lemma_consistent_agree(log, l, ll, first, p);
    assert forall|i: int|
        0 <= i < log.len() && i < l.len() && log[i].term == l[i].term implies #[trigger] log[i]
        == l[i] by {
        lemma_consistent_agree(log, l, ll, first, i);
    }
    lemma_merge_part(log, l, p, m);
    let r = merge_entries(log, l.subrange(p + 1, p + 1 + m));
    if r.len() == p + m + 1 {
        assert forall|i: int| 0 <= i < r.len() implies #[trigger] r[i].index == i by {
            assert(r[i] == l[i]);
        }
        assert forall|i: int, j: int| 0 <= i <= j < r.len() implies #[trigger] r[i].term <= #[trigger] r[j].term by {
            assert(r[i] == l[i]);
            assert(r[j] == l[j]);
        }
        assert forall|j: int| 1 <= j < r.len() implies #[trigger] r[j].term >= 1 && ll.contains_key(r[j].term)
            && agree(r, ll[r[j].term], j) by {
            assert(r[j] == l[j]);
            assert(agree(l, ll[l[j].term], j));
            assert forall|i: int| 0 <= i <= j implies #[trigger] r[i] == ll[l[j].term][i] by {
                assert(r[i] == l[i]);
            }
        }
        assert(r[0] == l[0]);
        assert(r.last() == l[p + m]);
        lemma_terms_bounded(l, ll, first, u);
    }
}

/// Merging keeps what the log and the merged part both hold of a third log.
proof fn lemma_merge_keeps<T>(log: Seq<Entry<T>>, l: Seq<Entry<T>>, p: int, m: int, x: Seq<Entry<T>>, n0: int)
    requires
        agree(merge_entries(log, l.subrange(p + 1, p + 1 + m)), l, p + m),
        agree(log, l, p + m) ==> merge_entries(log, l.subrange(p + 1, p + 1 + m)) == log,
        agree(log, x, n0),
        agree(l, x, n0),
    ensures
        agree(merge_entries(log, l.subrange(p + 1, p + 1 + m)), x, n0),
{
    let r = merge_entries(log, l.subrange(p + 1, p + 1 + m));
    if n0 <= p + m {
        assert forall|i: int| 0 <= i <= n0 implies #[trigger] r[i] == x[i] by {
            assert(r[i] == l[i]);
            assert(l[i] == x[i]);
        }
    } else {
        assert forall|i: int| 0 <= i <= p + m implies #[trigger] log[i] == l[i] by {
            assert(log[i] == x[i]);
            assert(l[i] == x[i]);
        }
        assert(agree(log, l, p + m));
    }
}

/// The reaction accepts the append request the event delivers: the replica
/// follows the request's term, merges its entries, adopts its commit index
/// and sends only its answer, naming the matched index.
pub open spec fn accepts<T>(sv: SafeView<T>, e: ClusterEvent<T>) -> bool {
    let s = sv.cluster.replicas[target(e)];
    let (s1, e1) = reaction(sv, e);
    match e {
        ClusterEvent::Deliver(
            _,
            MessageView::AppendEntryRequest {
                from_id,
                term,
                prev_log_index,
                prev_log_term,
                entries,
                commit_index,
            },
        ) => {
            &&& s.state != State::Leader
            &&& term >= s.current_term
            &&& prev_log_index < s.entries.len()
            &&& s.entries[prev_log_index as int].term == prev_log_term
            &&& s1.entries == merge_entries(s.entries, entries)
            &&& s1.state == State::Follower
            &&& s1.current_term == term
            &&& s1.commit_index == follower_commit_index(s.commit_index, s1.entries, commit_index)
            &&& s1.last_applied == s.last_applied
            &&& s1.id == s.id
            &&& s1.peer_ids == s.peer_ids
            &&& forall|i: int|
                0 <= i < e1.len() && (#[trigger] e1[i] is Send) ==> e1[i]
                    == (crate::message::EffectView::<T>::Send {
                    to_id: from_id,
                    message: MessageView::<T>::AppendEntryResponse {
                        from_id: target(e),
                        term,
                        success: true,
                        last_index: matched_index(prev_log_index, entries),
                    },
                })
        },
        _ => false,
    }
}

/// An accepting step leaves the leaders' logs as they were and has the
/// shape the frame needs.
#[verifier::spinoff_prover]
proof fn lemma_accept_shape<T>(sv: SafeView<T>, first: Entry<T>, e: ClusterEvent<T>)
    requires
        can_happen(sv.cluster, e),
        accepts(sv, e),
    ensures
        safe_step(sv, e).logs == sv.logs,
        safe_step(sv, e).leaders == sv.leaders,
        safe_step(sv, e).electors == sv.electors,
        safe_step(sv, e).cluster.replicas[target(e)] == crate::replica_model::apply_ready_entries(
            reaction(sv, e).0,
        ).0,
        step_shape(sv, e),
{
    let s1 = reaction(sv, e).0;
    lemma_apply_shape(s1);
}

/// The request an accepting step delivers, and the log it merges: a part
/// of the leaders' logs that holds the request's leader's log up to the
/// end of the request, and is the old log when that already did.
#[verifier::spinoff_prover]
proof fn lemma_accept_log<T>(
    sv: SafeView<T>,
    first: Entry<T>,
    r: usize,
    s: ReplicaView<T>,
    merged: Seq<Entry<T>>,
    msg: MessageView<T>,
)
    requires
        first.term == 0,
        msg_ok(sv, r, msg),
        msg is AppendEntryRequest,
        sv.logs.contains_key(msg->AppendEntryRequest_term),
        leader_log_ok(sv, first, msg->AppendEntryRequest_term),
        rv_ok(sv, first, r, s),
        msg->AppendEntryRequest_term >= s.current_term,
        msg->AppendEntryRequest_prev_log_index < s.entries.len(),
        s.entries[msg->AppendEntryRequest_prev_log_index as int].term == msg->AppendEntryRequest_prev_log_term,
        merged == merge_entries(s.entries, msg->AppendEntryRequest_entries),
    ensures
        ({
            let term = msg->AppendEntryRequest_term;
            let entries = msg->AppendEntryRequest_entries;
            let l = sv.logs[term];
            let p = msg->AppendEntryRequest_prev_log_index as int;
            let m = entries.len() as int;
            &&& p + m < l.len()
            &&& entries == l.subrange(p + 1, p + 1 + m)
            &&& msg->AppendEntryRequest_commit_index <= p + m
            &&& commit_ok(sv, l, msg->AppendEntryRequest_commit_index, term)
            &&& consistent(l, sv.logs, first)
            &&& consistent(merged, sv.logs, first)
            &&& merged.last().term <= term
            &&& agree(merged, l, p + m)
            &&& (agree(s.entries, l, p + m) ==> merged == s.entries)
            &&& matched_index(msg->AppendEntryRequest_prev_log_index, entries) <= p + m
        }),
{
    let term = msg->AppendEntryRequest_term;
    let entries = msg->AppendEntryRequest_entries;
    let l = sv.logs[term];
    let p = msg->AppendEntryRequest_prev_log_index as int;
    let m = entries.len() as int;
    assert(entries =~= l.subrange(p + 1, p + 1 + m));
    lemma_merge_consistent(s.entries, l, p, m, sv.logs, first, term as int);
    if m > 0 {
        assert(entries.last() == l[p + m]);
        assert(l[p + m].index == p + m);
    }
}

/// The leader of u holds every committed entry of an earlier term.
pub open spec fn lc_at<T>(sv: SafeView<T>, u: usize) -> bool {
    forall|t: usize, n: int|
        #![trigger committed(sv, t, n)]
        committed(sv, t, n) && t < u ==> agree(sv.logs[u], sv.logs[t], n)
}

/// Leader completeness for the leader of u, as lc_at states it.
proof fn lemma_lc_at<T>(sv: SafeView<T>, first: Entry<T>, u: usize)
    requires
        safe_inv(sv, first),
        sv.logs.contains_key(u),
    ensures
        lc_at(sv, u),
{
    assert forall|t: usize, n: int| #![trigger committed(sv, t, n)]
        committed(sv, t, n) && t < u implies agree(sv.logs[u], sv.logs[t], n) by {
        lemma_committed_in_later_logs(sv, first, t, n, u);
    }
}

/// A message a step adds to the network is sent by the reaction.
proof fn lemma_new_sent<T>(sv: SafeView<T>, e: ClusterEvent<T>, to: usize, m: MessageView<T>)
    requires
        safe_step(sv, e).cluster.network.contains((to, m)),
        !sv.cluster.network.contains((to, m)),
    ensures
        crate::election::sent(reaction(sv, e).1).contains((to, m)),
{
    let (s1, e1) = reaction(sv, e);
    let e2 = crate::replica_model::apply_ready_entries(s1).1;
    lemma_apply_no_sends(s1);
    let effs = e1 + e2;
    assert(crate::replica_model::step_event(sv.cluster.replicas[target(e)], crate::election::replica_event(e)).1 == effs);
    let i = choose|i: int|
        0 <= i < effs.len() && effs[i] == (crate::message::EffectView::Send { to_id: to, message: m });
    if i < e1.len() {
        assert(effs[i] == e1[i]);
    } else {
        assert(effs[i] == e2[i - e1.len()]);
    }
}

/// The commit index an accepting step adopts is backed: the entries it
/// held committed stay committed in the merged log, and the request's
/// commit index is backed in the request's leader's log.
#[verifier::spinoff_prover]
proof fn lemma_accept_commit<T>(
    sv: SafeView<T>,
    first: Entry<T>,
    s: ReplicaView<T>,
    merged: Seq<Entry<T>>,
    l: Seq<Entry<T>>,
    u: usize,
    p: int,
    m: int,
    ci: usize,
)
    requires
        lc_at(sv, u),
        sv.logs.contains_key(u),
        l == sv.logs[u],
        s.current_term <= u,
        commit_ok(sv, s.entries, s.commit_index, s.current_term),
        s.commit_index < s.entries.len(),
        0 <= p,
        0 <= m,
        p + m < l.len(),
        merged == merge_entries(s.entries, l.subrange(p + 1, p + 1 + m)),
        agree(merged, l, p + m),
        agree(s.entries, l, p + m) ==> merged == s.entries,
        ci <= p + m,
        commit_ok(sv, l, ci, u),
        merged.last().index == merged.len() - 1,
    ensures
        s.commit_index < merged.len(),
        commit_ok(sv, merged, follower_commit_index(s.commit_index, merged, ci), u),
        s.commit_index <= follower_commit_index(s.commit_index, merged, ci) < merged.len(),
{
    let c0 = s.commit_index;
    if c0 != 0 {
        let (t0, n0) = choose|t: usize, n: int|
            #![trigger committed(sv, t, n), sv.logs[t]]
            t <= s.current_term && n >= c0 && committed(sv, t, n) && agree(s.entries, sv.logs[t], c0 as int);
        if t0 < u {
            assert(agree(l, sv.logs[t0], n0));
        }
        assert(agree(l, sv.logs[t0], c0 as int));
        lemma_merge_keeps(s.entries, l, p, m, sv.logs[t0], c0 as int);
        assert(commit_ok(sv, merged, c0, u));
    }
    let c1 = follower_commit_index(c0, merged, ci);
    if c1 != c0 {
        assert(ci > c0);
        assert(c1 <= ci);
        if ci != 0 {
            let (t1, n1) = choose|t: usize, n: int|
                #![trigger committed(sv, t, n), sv.logs[t]]
                t <= u && n >= ci && committed(sv, t, n) && agree(l, sv.logs[t], ci as int);
            assert(agree(merged, sv.logs[t1], c1 as int)) by {
                assert forall|i: int| 0 <= i <= c1 implies #[trigger] merged[i] == sv.logs[t1][i] by {
                    assert(merged[i] == l[i]);
                    assert(l[i] == sv.logs[t1][i]);
                }
            }
        }
    }
}

/// The fields of the append request an event delivers.
pub open spec fn delivered_request<T>(e: ClusterEvent<T>) -> MessageView<T> {
    e->Deliver_1
}

/// After an accepting step the replica holds what it vouched for.
#[verifier::spinoff_prover]
proof fn lemma_accept_acker<T>(sv: SafeView<T>, first: Entry<T>, e: ClusterEvent<T>)
    requires
        safe_inv(sv, first),
        can_happen(sv.cluster, e),
        accepts(sv, e),
    ensures
        acker_ok(safe_step(sv, e), target(e)),
{
    let c = sv.cluster;
    let r = target(e);
    let s = c.replicas[r];
    let (s1, e1) = reaction(sv, e);
    let sv2 = safe_step(sv, e);
    let c2 = sv2.cluster;
    let s2 = c2.replicas[r];
    lemma_accept_shape(sv, first, e);
    lemma_apply_shape(s1);
    let msg = delivered_request(e);
    assert(msg_ok(sv, r, msg));
    let u = msg->AppendEntryRequest_term;
    assert(leader_log_ok(sv, first, u));
    assert(replica_ok(sv, first, r));
    lemma_accept_log(sv, first, r, s, s1.entries, msg);
    let l = sv.logs[u];
    let p = msg->AppendEntryRequest_prev_log_index as int;
    let m = msg->AppendEntryRequest_entries.len() as int;
    let matched = matched_index(msg->AppendEntryRequest_prev_log_index, msg->AppendEntryRequest_entries);
    assert forall|t: usize, n: int| #![trigger acked(sv2, r, t, n)]
        acked(sv2, r, t, n) && inbetween(sv2, t, s2.current_term as int, n) implies agree(
        s2.entries,
        sv2.logs[t],
        n,
    ) by {
        if acked(sv, r, t, n) {
            lemma_acked_facts(sv, first, r, t, n);
            assert(inbetween(sv, t, s.current_term as int, n));
            assert(acker_ok(sv, r));
            assert(agree(s.entries, sv.logs[t], n));
            if t < u {
                assert(sv.logs.contains_key(u));
                assert(agree(l, sv.logs[t], n));
            } else {
                assert(t == u);
                assert(agree(l, l, n));
            }
            lemma_merge_keeps(s.entries, l, p, m, sv.logs[t], n);
        } else {
            let (to, j) = choose|to: usize, j: usize|
                #[trigger] sv2.cluster.network.contains(
                    (to, MessageView::AppendEntryResponse { from_id: r, term: t, success: true, last_index: j }),
                ) && 0 <= n <= j;
            let am = MessageView::AppendEntryResponse { from_id: r, term: t, success: true, last_index: j };
            assert(!sv.cluster.network.contains((to, am)));
            lemma_new_sent(sv, e, to, am);
            let i = choose|i: int|
                0 <= i < e1.len() && e1[i] == (crate::message::EffectView::Send { to_id: to, message: am });
            assert(e1[i] is Send);
            assert(t == u && j == matched);
        }
    }
}

/// The answer of an accepting step keeps to the invariant.
#[verifier::spinoff_prover]
proof fn lemma_accept_sent<T>(sv: SafeView<T>, first: Entry<T>, e: ClusterEvent<T>)
    requires
        safe_inv(sv, first),
        can_happen(sv.cluster, e),
        accepts(sv, e),
    ensures
        reaction_sent_ok(sv, e),
{
    let c = sv.cluster;
    let r = target(e);
    let s = c.replicas[r];
    let (s1, e1) = reaction(sv, e);
    let sv2 = safe_step(sv, e);
    let c2 = sv2.cluster;
    lemma_accept_shape(sv, first, e);
    lemma_apply_shape(s1);
    let msg = delivered_request(e);
    assert(msg_ok(sv, r, msg));
    let u = msg->AppendEntryRequest_term;
    assert(leader_log_ok(sv, first, u));
    assert(replica_ok(sv, first, r));
    lemma_accept_log(sv, first, r, s, s1.entries, msg);
    assert(c2.replicas.dom() =~= c.replicas.dom()) by {
        crate::election::lemma_step_inv(c, e);
    }
    assert forall|to: usize, m: MessageView<T>| #![trigger crate::election::sent(e1).contains((to, m))]
        crate::election::sent(e1).contains((to, m)) && !sv.cluster.network.contains((to, m))
        implies msg_ok(sv2, to, m) && (m matches MessageView::AppendEntryResponse {
        from_id,
        term,
        success,
        ..
    } ==> success ==> from_id == r && term == sv2.cluster.replicas[r].current_term) by {
        let i = choose|i: int|
            0 <= i < e1.len() && e1[i] == (crate::message::EffectView::Send { to_id: to, message: m });
        assert(e1[i] is Send);
        if r == sv.leaders[u] {
            assert(c.replicas[r].current_term >= u);
        }
    }
}

/// An accepting step keeps the invariant.
#[verifier::spinoff_prover]
proof fn lemma_case_accept<T>(sv: SafeView<T>, first: Entry<T>, e: ClusterEvent<T>)
    requires
        safe_inv(sv, first),
        can_happen(sv.cluster, e),
        accepts(sv, e),
    ensures
        safe_inv(safe_step(sv, e), first),
{
    let c = sv.cluster;
    let r = target(e);
    let s = c.replicas[r];
    let (s1, e1) = reaction(sv, e);
    let sv2 = safe_step(sv, e);
    let c2 = sv2.cluster;
    lemma_accept_shape(sv, first, e);
    lemma_apply_shape(s1);
    lemma_frame_grows(sv, first, e);
    let msg = delivered_request(e);
    assert(msg_ok(sv, r, msg));
    let u = msg->AppendEntryRequest_term;
    assert(leader_log_ok(sv, first, u));
    assert(replica_ok(sv, first, r));
    lemma_accept_log(sv, first, r, s, s1.entries, msg);
    let l = sv.logs[u];
    let p = msg->AppendEntryRequest_prev_log_index as int;
    let m = msg->AppendEntryRequest_entries.len() as int;
    lemma_lc_at(sv, first, u);
    assert(s1.entries.last().index == s1.entries.len() - 1);
    lemma_accept_commit(sv, first, s, s1.entries, l, u, p, m, msg->AppendEntryRequest_commit_index);
    lemma_commit_ok_grows(sv, sv2, s1.entries, s1.commit_index, u);
    assert(rv_ok(sv2, first, r, s1));
    lemma_accept_acker(sv, first, e);
    lemma_accept_sent(sv, first, e);
    lemma_finish(sv, first, e);
}

/// A replica that starts an election keeps the invariant.
#[verifier::spinoff_prover]
proof fn lemma_case_candidacy<T>(sv: SafeView<T>, first: Entry<T>, e: ClusterEvent<T>)
    requires
        safe_inv(sv, first),
        can_happen(sv.cluster, e),
        e is Timeout,
        sv.cluster.replicas[target(e)].state != State::Leader,
    ensures
        safe_inv(safe_step(sv, e), first),
{
    let c = sv.cluster;
    let r = target(e);
    let s = c.replicas[r];
    let (s1, e1) = reaction(sv, e);
    assert((s1, e1) == crate::replica_model::become_candidate(s));
    let sv2 = safe_step(sv, e);
    let c2 = sv2.cluster;
    let s2 = c2.replicas[r];
    let u = s1.current_term;
    lemma_apply_shape(s1);
    assert(s2 == crate::replica_model::apply_ready_entries(s1).0);
    assert(sv2.logs == sv.logs);
    assert(sv2.leaders == sv.leaders);
    assert(sv2.electors == sv.electors);
    assert(step_shape(sv, e));
    let vr = MessageView::<T>::VoteRequest {
        from_id: s.id,
        term: u,
        last_log_index: s.last_index(),
        last_log_term: s.last_entry().term,
    };
    assert forall|i: int| 0 <= i < e1.len() implies #[trigger] e1[i] == (crate::message::EffectView::Send {
        to_id: s.peer_ids[i],
        message: vr,
    }) by {}
    assert(no_success_acks(e1));
    lemma_frame_grows(sv, first, e);
    crate::election::lemma_step_inv(c, e);
    assert(c2.replicas.dom() =~= c.replicas.dom());
    assert(replica_ok(sv, first, r));
    lemma_rv_grows(sv, sv2, first, r, s);
    lemma_commit_ok_top(sv2, s.entries, s.commit_index, s.current_term, u);
    assert(rv_ok(sv2, first, r, s1));
    assert forall|t: usize, n: int| #![trigger acked(sv2, r, t, n)]
        acked(sv2, r, t, n) && inbetween(sv2, t, s2.current_term as int, n) implies agree(
        s2.entries,
        sv2.logs[t],
        n,
    ) by {
        lemma_quiet_acked(sv, first, e, r, t, n);
        lemma_acked_facts(sv, first, r, t, n);
        assert(inbetween(sv2, t, s.current_term as int, n));
        lemma_inbetween_back(sv, sv2, t, s.current_term as int, n);
        assert(acker_ok(sv, r));
    }
    assert(acker_ok(sv2, r));
    assert(candidate_ok(sv2, r)) by {
        if !sv2.logs.contains_key(u) {
            assert forall|w: usize, t: usize, n: int|
                #![trigger s2.current_votes->0.contains(w), acked(sv2, w, t, n)]
                s2.current_votes->0.contains(w) && vouched_before(sv2, w, t, n, u)
                implies agree(s2.entries, sv2.logs[t], n) by {
                assert(w == r);
                lemma_quiet_acked(sv, first, e, r, t, n);
                lemma_acked_facts(sv, first, r, t, n);
                lemma_inbetween_back(sv, sv2, t, u - 1, n);
                assert(acker_ok(sv, r));
            }
        }
    }
    assert(reaction_sent_ok(sv, e)) by {
        assert forall|to: usize, m: MessageView<T>| #![trigger crate::election::sent(e1).contains((to, m))]
            crate::election::sent(e1).contains((to, m)) && !sv.cluster.network.contains((to, m))
            implies msg_ok(sv2, to, m) && (m matches MessageView::AppendEntryResponse {
            from_id,
            term,
            success,
            ..
        } ==> success ==> from_id == r && term == sv2.cluster.replicas[r].current_term) by {
            let i = choose|i: int|
                0 <= i < e1.len() && e1[i] == (crate::message::EffectView::Send { to_id: to, message: m });
            assert(m == vr);
            assert(s.last_index() == s.entries.len() - 1);
        }
    }
    lemma_finish(sv, first, e);
}

/// A leader's log that grows by entries of its term stays a part of the
/// leaders' logs, its own recorded as that of its term.
proof fn lemma_consistent_extend<T>(
    log: Seq<Entry<T>>,
    log2: Seq<Entry<T>>,
    ll: Map<usize, Seq<Entry<T>>>,
    ll2: Map<usize, Seq<Entry<T>>>,
    first: Entry<T>,
    t: usize,
)
    requires
        consistent(log, ll, first),
        forall|x: usize| #![trigger ll.contains_key(x)] ll.contains_key(x) ==> ll2.contains_key(x) && extends(ll2[x], ll[x]),
        ll2.contains_key(t),
        ll2[t] == log2,
        extends(log2, log),
        forall|i: int| log.len() <= i < log2.len() ==> #[trigger] log2[i].term == t,
        forall|i: int| 0 <= i < log2.len() ==> #[trigger] log2[i].index == i,
        log.last().term <= t,
        t >= 1,
    ensures
        consistent(log2, ll2, first),
{
    lemma_consistent_grows(log, ll, ll2, first);
    lemma_terms_bounded(log, ll, first, t as int);
    assert forall|i: int, j: int| 0 <= i <= j < log2.len() implies #[trigger] log2[i].term <= #[trigger] log2[j].term by {
        if j < log.len() {
            assert(log2[i] == log[i]);
            assert(log2[j] == log[j]);
        } else if i < log.len() {
            assert(log2[i] == log[i]);
        }
    }
    assert forall|j: int| 1 <= j < log2.len() implies #[trigger] log2[j].term >= 1 && ll2.contains_key(log2[j].term)
        && agree(log2, ll2[log2[j].term], j) by {
        if j < log.len() {
            assert(log2[j] == log[j]);
            assert(agree(log, ll2[log[j].term], j));
            assert forall|i: int| 0 <= i <= j implies #[trigger] log2[i] == ll2[log[j].term][i] by {
                assert(log2[i] == log[i]);
            }
        }
    }
    assert(log2[0] == log[0]);
}

/// The reaction leaves the replica leading its term, with its log grown by
/// entries of that term and nothing sent.
pub open spec fn leads_grown<T>(sv: SafeView<T>, e: ClusterEvent<T>) -> bool {
    let s = sv.cluster.replicas[target(e)];
    let (s1, e1) = reaction(sv, e);
    &&& s1.state == State::Leader
    &&& s1.current_term == s.current_term
    &&& (s.state == State::Leader || (s.state == State::Candidate && elected_by(s, e)))
    &&& extends(s1.entries, s.entries)
    &&& forall|i: int| s.entries.len() <= i < s1.entries.len() ==> #[trigger] s1.entries[i].term == s.current_term
    &&& s1.commit_index == s.commit_index
    &&& s1.last_applied == s.last_applied
    &&& s1.id == s.id
    &&& s1.peer_ids == s.peer_ids
    &&& (s.state == State::Leader ==> s1.match_index == s.match_index)
    &&& (s.state == State::Candidate ==> s1.match_index == Map::new(
        |p: usize| s.peer_ids.contains(p),
        |p: usize| 0usize,
    ))
    &&& no_sends(e1)
}

/// A leader's grown log leaves the replica as replica_ok says.
#[verifier::spinoff_prover]
proof fn lemma_lead_rv<T>(sv: SafeView<T>, first: Entry<T>, e: ClusterEvent<T>)
    requires
        safe_inv(sv, first),
        can_happen(sv.cluster, e),
        leads_grown(sv, e),
    ensures
        step_shape(sv, e),
        rv_ok(safe_step(sv, e), first, target(e), reaction(sv, e).0),
        safe_step(sv, e).logs[reaction(sv, e).0.current_term] == reaction(sv, e).0.entries,
        safe_step(sv, e).leaders[reaction(sv, e).0.current_term] == target(e),
        grows(sv, safe_step(sv, e)),
        safe_step(sv, e).cluster.replicas[target(e)] == crate::replica_model::apply_ready_entries(
            reaction(sv, e).0,
        ).0,
{
    let c = sv.cluster;
    let r = target(e);
    let s = c.replicas[r];
    let (s1, e1) = reaction(sv, e);
    let sv2 = safe_step(sv, e);
    let c2 = sv2.cluster;
    let s2 = c2.replicas[r];
    let u = s.current_term;
    lemma_apply_shape(s1);
    assert(s2 == crate::replica_model::apply_ready_entries(s1).0);
    assert(step_shape(sv, e));
    lemma_frame_grows(sv, first, e);
    crate::log_matching::lemma_step_logs_inv(c, e);
    assert(c2.replicas.dom() =~= c.replicas.dom());
    assert(replica_ok(sv, first, r));
    assert(c2.replicas.contains_key(r));
    assert(u >= 1);
    lemma_consistent_extend(s.entries, s1.entries, sv.logs, sv2.logs, first, u);
    lemma_commit_ok_grows(sv, sv2, s.entries, s.commit_index, u);
    lemma_commit_ok_log_extends(sv2, s.entries, s1.entries, s.commit_index, u);
    if s.state == State::Leader {
        assert forall|p: usize| #![trigger s1.match_index.contains_key(p)]
            s1.match_index.contains_key(p) implies c2.replicas.contains_key(p) && p != r && (
            s1.match_index[p] == 0 || acked(sv2, p, u, s1.match_index[p] as int)) by {
            if s1.match_index[p] != 0 {
                lemma_acked_grows(sv, sv2, p, u, s1.match_index[p] as int);
            }
        }
    } else {
        assert(crate::election::cluster_inv(c));
        assert forall|p: usize| #![trigger s1.match_index.contains_key(p)]
            s1.match_index.contains_key(p) implies c2.replicas.contains_key(p) && p != r && (
            s1.match_index[p] == 0 || acked(sv2, p, u, s1.match_index[p] as int)) by {
            assert(s.peer_ids.contains(p));
            assert(s.peer_ids.to_set().contains(p));
        }
    }
}

/// In a step that sends nothing, a replica vouches for nothing new but as
/// the leader of the term whose log the step records.
proof fn lemma_acked_no_sends<T>(sv: SafeView<T>, e: ClusterEvent<T>, w: usize, t: usize, n: int)
    requires
        no_sends(reaction(sv, e).1),
        acked(safe_step(sv, e), w, t, n),
        safe_step(sv, e).cluster.replicas[target(e)].state == State::Leader ==> t != safe_step(
            sv,
            e,
        ).cluster.replicas[target(e)].current_term,
    ensures
        acked(sv, w, t, n),
{
    let sv2 = safe_step(sv, e);
    let e1 = reaction(sv, e).1;
    if !(sv2.logs.contains_key(t) && sv2.leaders[t] == w && 0 <= n < sv2.logs[t].len()) {
        let (to, j) = choose|to: usize, j: usize|
            #[trigger] sv2.cluster.network.contains(
                (to, MessageView::AppendEntryResponse { from_id: w, term: t, success: true, last_index: j }),
            ) && 0 <= n <= j;
        let am = MessageView::AppendEntryResponse { from_id: w, term: t, success: true, last_index: j };
        if !sv.cluster.network.contains((to, am)) {
            lemma_new_sent(sv, e, to, am);
            let i = choose|i: int|
                0 <= i < e1.len() && e1[i] == (crate::message::EffectView::Send { to_id: to, message: am });
        }
    }
}

/// The shape of a step whose replica leads with a grown log.
#[verifier::spinoff_prover]
proof fn lemma_lead_shape<T>(sv: SafeView<T>, first: Entry<T>, e: ClusterEvent<T>)
    requires
        safe_inv(sv, first),
        can_happen(sv.cluster, e),
        leads_grown(sv, e),
    ensures
        step_shape(sv, e),
        grows(sv, safe_step(sv, e)),
        safe_step(sv, e).cluster.replicas[target(e)] == crate::replica_model::apply_ready_entries(
            reaction(sv, e).0,
        ).0,
        safe_step(sv, e).logs == sv.logs.insert(reaction(sv, e).0.current_term, reaction(sv, e).0.entries),
        safe_step(sv, e).leaders == sv.leaders.insert(reaction(sv, e).0.current_term, target(e)),
        sv.cluster.replicas[target(e)].state == State::Leader ==> sv.logs.contains_key(reaction(sv, e).0.current_term)
            && sv.leaders[reaction(sv, e).0.current_term] == target(e),
        sv.cluster.replicas[target(e)].state != State::Leader ==> !sv.logs.contains_key(reaction(sv, e).0.current_term),
{
    let s1 = reaction(sv, e).0;
    lemma_apply_shape(s1);
    assert(step_shape(sv, e));
    lemma_frame_grows(sv, first, e);
    assert(replica_ok(sv, first, target(e)));
    if sv.cluster.replicas[target(e)].state != State::Leader {
        lemma_new_term_unled(sv, first, e);
    }
}

/// A leader whose log grew holds what it vouched for.
#[verifier::spinoff_prover]
proof fn lemma_lead_acker<T>(sv: SafeView<T>, first: Entry<T>, e: ClusterEvent<T>)
    requires
        safe_inv(sv, first),
        can_happen(sv.cluster, e),
        leads_grown(sv, e),
    ensures
        acker_ok(safe_step(sv, e), target(e)),
{
    let c = sv.cluster;
    let r = target(e);
    let s = c.replicas[r];
    let (s1, e1) = reaction(sv, e);
    let sv2 = safe_step(sv, e);
    let s2 = sv2.cluster.replicas[r];
    let u = s.current_term;
    lemma_lead_shape(sv, first, e);
    lemma_apply_shape(s1);
    assert forall|t: usize, n: int| #![trigger acked(sv2, r, t, n)]
        acked(sv2, r, t, n) && inbetween(sv2, t, s2.current_term as int, n) implies agree(
        s2.entries,
        sv2.logs[t],
        n,
    ) by {
        if t == u {
            if !(sv2.logs.contains_key(t) && sv2.leaders[t] == r && 0 <= n < sv2.logs[t].len()) {
                let (to, j) = choose|to: usize, j: usize|
                    #[trigger] sv2.cluster.network.contains(
                        (to, MessageView::AppendEntryResponse { from_id: r, term: t, success: true, last_index: j }),
                    ) && 0 <= n <= j;
                let am = MessageView::AppendEntryResponse { from_id: r, term: t, success: true, last_index: j };
                if sv.cluster.network.contains((to, am)) {
                    assert(msg_ok(sv, to, am));
                } else {
                    lemma_new_sent(sv, e, to, am);
                    let i = choose|i: int|
                        0 <= i < e1.len() && e1[i] == (crate::message::EffectView::Send { to_id: to, message: am });
                }
            }
            assert(sv2.logs[u] == s2.entries);
        } else {
            lemma_acked_no_sends(sv, e, r, t, n);
            lemma_acked_facts(sv, first, r, t, n);
            lemma_inbetween_back(sv, sv2, t, u as int, n);
            assert(acker_ok(sv, r));
            assert(agree(s.entries, sv.logs[t], n));
            assert forall|i: int| 0 <= i <= n implies #[trigger] s2.entries[i] == sv2.logs[t][i] by {
                assert(s.entries[i] == sv.logs[t][i]);
            }
        }
    }
}

/// A step that sends nothing sends only messages that keep to the invariant.
proof fn lemma_no_sends_ok<T>(sv: SafeView<T>, e: ClusterEvent<T>)
    requires
        no_sends(reaction(sv, e).1),
    ensures
        reaction_sent_ok(sv, e),
{
    let e1 = reaction(sv, e).1;
    assert forall|to: usize, m: MessageView<T>| #![trigger crate::election::sent(e1).contains((to, m))]
        crate::election::sent(e1).contains((to, m)) && !sv.cluster.network.contains((to, m))
        implies msg_ok(safe_step(sv, e), to, m) by {
        let i = choose|i: int|
            0 <= i < e1.len() && e1[i] == (crate::message::EffectView::Send { to_id: to, message: m });
    }
}

/// A leader that logs new transitions keeps the invariant.
#[verifier::spinoff_prover]
proof fn lemma_case_submit<T>(sv: SafeView<T>, first: Entry<T>, e: ClusterEvent<T>)
    requires
        safe_inv(sv, first),
        can_happen(sv.cluster, e),
        e is Submit,
        sv.cluster.replicas[target(e)].state == State::Leader,
    ensures
        safe_inv(safe_step(sv, e), first),
{
    let c = sv.cluster;
    let r = target(e);
    let s = c.replicas[r];
    let (s1, e1) = reaction(sv, e);
    let ts = e->Submit_1;
    assert((s1, e1) == crate::replica_model::load_new_entries(s, ts));
    assert(extends(s1.entries, s.entries));
    assert forall|i: int| 0 <= i < e1.len() implies !(#[trigger] e1[i] is Send) by {}
    assert(leads_grown(sv, e));
    lemma_lead_rv(sv, first, e);
    lemma_lead_acker(sv, first, e);
    lemma_no_sends_ok(sv, e);
    lemma_apply_shape(s1);
    assert(candidate_ok(safe_step(sv, e), r));
    lemma_finish(sv, first, e);
}

/// The granted vote an event delivers to a candidate of its term, before
/// the candidate counts it: the voter's vouched entries are in its log.
proof fn lemma_delivered_grant<T>(sv: SafeView<T>, first: Entry<T>, e: ClusterEvent<T>, t: usize, n: int)
    requires
        safe_inv(sv, first),
        can_happen(sv.cluster, e),
        e matches ClusterEvent::Deliver(_, MessageView::VoteResponse { vote_granted: true, .. }),
        sv.cluster.replicas[target(e)].state == State::Candidate,
        e->Deliver_1->VoteResponse_term == sv.cluster.replicas[target(e)].current_term,
        !sv.logs.contains_key(sv.cluster.replicas[target(e)].current_term),
        vouched_before(sv, e->Deliver_1->VoteResponse_from_id, t, n, sv.cluster.replicas[target(e)].current_term),
    ensures
        agree(sv.cluster.replicas[target(e)].entries, sv.logs[t], n),
{
    let r = target(e);
    let m = e->Deliver_1;
    assert(sv.cluster.network.contains((r, m)));
    assert(msg_ok(sv, r, m));
}

/// A candidate elected by the vote an event delivers keeps the invariant.
#[verifier::spinoff_prover]
proof fn lemma_case_elected<T>(sv: SafeView<T>, first: Entry<T>, e: ClusterEvent<T>)
    requires
        safe_inv(sv, first),
        can_happen(sv.cluster, e),
        leads_grown(sv, e),
        sv.cluster.replicas[target(e)].state == State::Candidate,
    ensures
        safe_inv(safe_step(sv, e), first),
{
    let c = sv.cluster;
    let r = target(e);
    let s = c.replicas[r];
    let (s1, e1) = reaction(sv, e);
    let sv2 = safe_step(sv, e);
    let u = s.current_term;
    lemma_lead_shape(sv, first, e);
    lemma_lead_rv(sv, first, e);
    lemma_lead_acker(sv, first, e);
    lemma_no_sends_ok(sv, e);
    lemma_apply_shape(s1);
    assert(candidate_ok(sv2, r));
    assert(elected_by(s, e));
    let v = e->Deliver_1->VoteResponse_from_id;
    assert(sv2.electors[u] == s.current_votes->0.insert(v));
    assert(candidate_ok(sv, r));
    assert forall|w: usize, t: usize, n: int|
        #![trigger sv2.electors[u].contains(w), acked(sv2, w, t, n)]
        sv2.electors[u].contains(w) && vouched_before(sv2, w, t, n, u) implies agree(
        sv2.logs[u],
        sv2.logs[t],
        n,
    ) by {
        lemma_acked_no_sends(sv, e, w, t, n);
        lemma_acked_facts(sv, first, w, t, n);
        lemma_inbetween_back(sv, sv2, t, u - 1, n);
        assert(vouched_before(sv, w, t, n, u));
        if w == v {
            lemma_delivered_grant(sv, first, e, t, n);
        } else {
            assert(s.current_votes->0.contains(w));
        }
        assert(agree(s.entries, sv.logs[t], n));
        assert(sv2.logs[t] == sv.logs[t]);
        assert forall|i: int| 0 <= i <= n implies #[trigger] sv2.logs[u][i] == sv2.logs[t][i] by {
            assert(s1.entries[i] == s.entries[i]);
        }
    }
    assert(electors_ok(sv2, u));
    lemma_finish(sv, first, e);
}

/// A candidate that counts the vote an event delivers, without a majority
/// yet, keeps the invariant.
#[verifier::spinoff_prover]
proof fn lemma_case_count<T>(sv: SafeView<T>, first: Entry<T>, e: ClusterEvent<T>)
    requires
        safe_inv(sv, first),
        can_happen(sv.cluster, e),
        e matches ClusterEvent::Deliver(_, MessageView::VoteResponse { vote_granted: true, .. }),
        sv.cluster.replicas[target(e)].state == State::Candidate,
        e->Deliver_1->VoteResponse_term == sv.cluster.replicas[target(e)].current_term,
        reaction(sv, e).0 == (ReplicaView {
            current_votes: Some(
                sv.cluster.replicas[target(e)].current_votes->0.insert(e->Deliver_1->VoteResponse_from_id),
            ),
            ..sv.cluster.replicas[target(e)]
        }),
        reaction(sv, e).1 == Seq::<crate::message::EffectView<T>>::empty(),
    ensures
        safe_inv(safe_step(sv, e), first),
{
    let c = sv.cluster;
    let r = target(e);
    let s = c.replicas[r];
    let (s1, e1) = reaction(sv, e);
    let sv2 = safe_step(sv, e);
    let c2 = sv2.cluster;
    let s2 = c2.replicas[r];
    let u = s.current_term;
    let v = e->Deliver_1->VoteResponse_from_id;
    lemma_apply_shape(s1);
    assert(s2 == crate::replica_model::apply_ready_entries(s1).0);
    assert(sv2.logs == sv.logs);
    assert(sv2.leaders == sv.leaders);
    assert(sv2.electors == sv.electors);
    assert(step_shape(sv, e));
    assert(no_sends(e1));
    lemma_frame_grows(sv, first, e);
    assert(c2.replicas.dom() =~= c.replicas.dom()) by {
        crate::election::lemma_step_inv(c, e);
    }
    assert(replica_ok(sv, first, r));
    lemma_rv_grows(sv, sv2, first, r, s);
    assert(rv_ok(sv2, first, r, s1));
    assert forall|t: usize, n: int| #![trigger acked(sv2, r, t, n)]
        acked(sv2, r, t, n) && inbetween(sv2, t, s2.current_term as int, n) implies agree(
        s2.entries,
        sv2.logs[t],
        n,
    ) by {
        lemma_acked_no_sends(sv, e, r, t, n);
        lemma_acked_facts(sv, first, r, t, n);
        lemma_inbetween_back(sv, sv2, t, u as int, n);
        assert(acker_ok(sv, r));
    }
    assert(acker_ok(sv2, r));
    assert(candidate_ok(sv2, r)) by {
        if !sv2.logs.contains_key(u) {
            assert(candidate_ok(sv, r));
            assert forall|w: usize, t: usize, n: int|
                #![trigger s2.current_votes->0.contains(w), acked(sv2, w, t, n)]
                s2.current_votes->0.contains(w) && vouched_before(sv2, w, t, n, u)
                implies agree(s2.entries, sv2.logs[t], n) by {
                lemma_acked_no_sends(sv, e, w, t, n);
                lemma_acked_facts(sv, first, w, t, n);
                lemma_inbetween_back(sv, sv2, t, u - 1, n);
                assert(vouched_before(sv, w, t, n, u));
                if w == v {
                    lemma_delivered_grant(sv, first, e, t, n);
                } else {
                    assert(s.current_votes->0.contains(w));
                }
            }
        }
    }
    lemma_no_sends_ok(sv, e);
    lemma_finish(sv, first, e);
}

/// The reaction to a delivered message is the replica's processing of it.
proof fn lemma_reaction_deliver<T>(sv: SafeView<T>, e: ClusterEvent<T>)
    requires
        e is Deliver,
    ensures
        reaction(sv, e).0 == crate::replica_model::step_message(sv.cluster.replicas[target(e)], e->Deliver_1).0,
        reaction(sv, e).1 == crate::replica_model::step_message(sv.cluster.replicas[target(e)], e->Deliver_1).1,
{
    let s = sv.cluster.replicas[target(e)];
    let m = e->Deliver_1;
    let ms = seq![m];
    assert(ms.drop_last() =~= Seq::<MessageView<T>>::empty());
    assert(ms.last() == m);
    let (a, b) = crate::replica_model::step_message(s, m);
    assert(crate::replica_model::step_messages(s, ms.drop_last()).0 == s);
    assert(crate::replica_model::step_messages(s, ms.drop_last()).1 =~= Seq::<crate::message::EffectView<T>>::empty());
    assert(crate::replica_model::step_messages(s, ms).0 == a);
    assert(crate::replica_model::step_messages(s, ms).1 == Seq::<crate::message::EffectView<T>>::empty() + b);
    assert(Seq::<crate::message::EffectView<T>>::empty() + b =~= b);
}

/// A leader that handles a message keeps the invariant.
#[verifier::spinoff_prover]
proof fn lemma_step_leader_msg<T>(sv: SafeView<T>, first: Entry<T>, e: ClusterEvent<T>)
    requires
        safe_inv(sv, first),
        can_happen(sv.cluster, e),
        e is Deliver,
        sv.cluster.replicas[target(e)].state == State::Leader,
    ensures
        safe_inv(safe_step(sv, e), first),
{
    let c = sv.cluster;
    let r = target(e);
    let s = c.replicas[r];
    let m = e->Deliver_1;
    lemma_reaction_deliver(sv, e);
    let (s1, e1) = reaction(sv, e);
    match m {
        MessageView::AppendEntryResponse { from_id, term, success, last_index } => {
            if term > s.current_term {
                assert forall|i: int| 0 <= i < e1.len() implies follow_send_ok(#[trigger] e1[i], e, s1.current_term, s.entries) by {}
                assert(follows(sv, e));
                lemma_case_follow(sv, first, e);
            } else if term < s.current_term || !success {
                assert forall|i: int| 0 <= i < e1.len() implies quiet_send_ok(sv, e, #[trigger] e1[i]) by {}
                assert(quiet(sv, e));
                lemma_case_quiet(sv, first, e);
            } else {
                assert(c.network.contains((r, m)));
                assert(msg_ok(sv, r, m));
                assert(replica_ok(sv, first, r));
                assert(acked(sv, from_id, term, last_index as int));
                assert forall|p: usize| #![trigger s1.match_index.contains_key(p)]
                    s1.match_index.contains_key(p) implies c.replicas.contains_key(p) && p != r && (
                    s1.match_index[p] == 0 || acked(sv, p, s.current_term, s1.match_index[p] as int)) by {
                    if p != from_id {
                        assert(s.match_index.contains_key(p));
                    }
                }
                assert forall|i: int| 0 <= i < e1.len() implies quiet_send_ok(sv, e, #[trigger] e1[i]) by {}
                assert(quiet(sv, e));
                lemma_case_quiet(sv, first, e);
            }
        },
        _ => {
            assert forall|i: int| 0 <= i < e1.len() implies quiet_send_ok(sv, e, #[trigger] e1[i]) by {}
            assert(quiet(sv, e));
            lemma_case_quiet(sv, first, e);
        },
    }
}

/// The registrations of cut and of committed entries send nothing.
proof fn lemma_registrations_no_sends<T>(cut: Seq<Entry<T>>, log: Seq<Entry<T>>, from: int, to: int)
    ensures
        no_sends(crate::replica_model::abandoned_effects(cut)),
        no_sends(crate::replica_model::committed_effects(log, from, to)),
{
    let a = crate::replica_model::abandoned_effects(cut);
    assert forall|i: int| 0 <= i < a.len() implies !(#[trigger] a[i] is Send) by {}
    let c = crate::replica_model::committed_effects(log, from, to);
    assert forall|i: int| 0 <= i < c.len() implies !(#[trigger] c[i] is Send) by {}
}

/// A follower, or a candidate that follows, that accepts an append request
/// sends nothing but its answer.
proof fn lemma_accept_effects<T>(
    s: ReplicaView<T>,
    from_id: usize,
    term: usize,
    prev_log_index: usize,
    prev_log_term: usize,
    entries: Seq<Entry<T>>,
    commit_index: usize,
)
    requires
        !(s.current_term > term || prev_log_index >= s.entries.len()
            || s.entries[prev_log_index as int].term != prev_log_term),
    ensures
        ({
            let (s2, effs) = crate::replica_model::process_append_entry_request_as_follower(
                s,
                from_id,
                term,
                prev_log_index,
                prev_log_term,
                entries,
                commit_index,
            );
            forall|i: int|
                0 <= i < effs.len() && (#[trigger] effs[i] is Send) ==> effs[i]
                    == (crate::message::EffectView::<T>::Send {
                    to_id: from_id,
                    message: MessageView::<T>::AppendEntryResponse {
                        from_id: s.id,
                        term,
                        success: true,
                        last_index: matched_index(prev_log_index, entries),
                    },
                })
        }),
{
    let (s2, effs) = crate::replica_model::process_append_entry_request_as_follower(
        s,
        from_id,
        term,
        prev_log_index,
        prev_log_term,
        entries,
        commit_index,
    );
    let log = merge_entries(s.entries, entries);
    let c = follower_commit_index(s.commit_index, log, commit_index);
    let a = crate::replica_model::abandoned_effects(crate::replica_model::cut_by_entries(s.entries, entries));
    let b = crate::replica_model::committed_effects(log, s.commit_index as int, c as int);
    lemma_registrations_no_sends(crate::replica_model::cut_by_entries(s.entries, entries), log, s.commit_index as int, c as int);
    let s1 = if term > s.current_term {
        crate::replica_model::become_follower(s, term)
    } else {
        s
    };
    let s2x = ReplicaView { entries: log, commit_index: c, ..s1 };
    let tail = seq![
        crate::message::EffectView::RegisterLeader(Some(from_id)),
        crate::replica_model::send(from_id, crate::replica_model::append_ack(s2x, matched_index(prev_log_index, entries))),
    ];
    assert(effs == a + b + tail);
    assert forall|i: int| 0 <= i < effs.len() && (#[trigger] effs[i] is Send) implies effs[i]
        == (crate::message::EffectView::<T>::Send {
        to_id: from_id,
        message: MessageView::<T>::AppendEntryResponse {
            from_id: s.id,
            term,
            success: true,
            last_index: matched_index(prev_log_index, entries),
        },
    }) by {
        if i < a.len() {
            assert(effs[i] == a[i]);
        } else if i < a.len() + b.len() {
            assert(effs[i] == b[i - a.len()]);
        } else {
            assert(effs[i] == tail[i - a.len() - b.len()]);
        }
    }
}

/// A follower that handles a message keeps the invariant.
#[verifier::spinoff_prover]
proof fn lemma_step_follower_msg<T>(sv: SafeView<T>, first: Entry<T>, e: ClusterEvent<T>)
    requires
        safe_inv(sv, first),
        can_happen(sv.cluster, e),
        e is Deliver,
        sv.cluster.replicas[target(e)].state == State::Follower,
    ensures
        safe_inv(safe_step(sv, e), first),
{
    let c = sv.cluster;
    let r = target(e);
    let s = c.replicas[r];
    let m = e->Deliver_1;
    lemma_reaction_deliver(sv, e);
    let (s1, e1) = reaction(sv, e);
    assert(crate::election::cluster_inv(c));
    assert(s.id == r);
    match m {
        MessageView::VoteRequest { from_id, term, last_log_index, last_log_term } => {
            if s.current_term > term {
                assert forall|i: int| 0 <= i < e1.len() implies quiet_send_ok(sv, e, #[trigger] e1[i]) by {}
                assert(quiet(sv, e));
                lemma_case_quiet(sv, first, e);
            } else {
                assert forall|i: int| 0 <= i < e1.len() implies follow_send_ok(#[trigger] e1[i], e, s1.current_term, s.entries) by {}
                assert(follows(sv, e));
                lemma_case_follow(sv, first, e);
            }
        },
        MessageView::AppendEntryRequest { from_id, term, prev_log_index, prev_log_term, entries, commit_index } => {
            if s.current_term > term || prev_log_index >= s.entries.len()
                || s.entries[prev_log_index as int].term != prev_log_term {
                if term > s.current_term {
                    assert forall|i: int| 0 <= i < e1.len() implies follow_send_ok(#[trigger] e1[i], e, s1.current_term, s.entries) by {}
                    assert(follows(sv, e));
                    lemma_case_follow(sv, first, e);
                } else {
                    assert forall|i: int| 0 <= i < e1.len() implies quiet_send_ok(sv, e, #[trigger] e1[i]) by {}
                    assert(quiet(sv, e));
                    lemma_case_quiet(sv, first, e);
                }
            } else {
                lemma_accept_effects(s, from_id, term, prev_log_index, prev_log_term, entries, commit_index);
                assert(accepts(sv, e));
                lemma_case_accept(sv, first, e);
            }
        },
        _ => {
            assert forall|i: int| 0 <= i < e1.len() implies quiet_send_ok(sv, e, #[trigger] e1[i]) by {}
            assert(quiet(sv, e));
            lemma_case_quiet(sv, first, e);
        },
    }
}

/// A candidate that handles a message keeps the invariant.
#[verifier::spinoff_prover]
proof fn lemma_step_candidate_msg<T>(sv: SafeView<T>, first: Entry<T>, e: ClusterEvent<T>)
    requires
        safe_inv(sv, first),
        can_happen(sv.cluster, e),
        e is Deliver,
        sv.cluster.replicas[target(e)].state == State::Candidate,
    ensures
        safe_inv(safe_step(sv, e), first),
{
    let c = sv.cluster;
    let r = target(e);
    let s = c.replicas[r];
    let m = e->Deliver_1;
    lemma_reaction_deliver(sv, e);
    let (s1, e1) = reaction(sv, e);
    assert(crate::election::cluster_inv(c));
    assert(s.id == r);
    match m {
        MessageView::AppendEntryRequest { from_id, term, prev_log_index, prev_log_term, entries, commit_index } => {
            if term >= s.current_term {
                let f = crate::replica_model::become_follower(s, term);
                let (sf, ef) = crate::replica_model::process_message_as_follower(f, m);
                assert(e1 == seq![crate::message::EffectView::<T>::RegisterLeader(Some(from_id))] + ef);
                if f.current_term > term || prev_log_index >= f.entries.len()
                    || f.entries[prev_log_index as int].term != prev_log_term {
                    assert forall|i: int| 0 <= i < e1.len() implies follow_send_ok(#[trigger] e1[i], e, s1.current_term, s.entries) by {
                        if i >= 1 {
                            assert(e1[i] == ef[i - 1]);
                        }
                    }
                    assert(follows(sv, e));
                    lemma_case_follow(sv, first, e);
                } else {
                    lemma_accept_effects(f, from_id, term, prev_log_index, prev_log_term, entries, commit_index);
                    assert forall|i: int| 0 <= i < e1.len() && (#[trigger] e1[i] is Send) implies e1[i]
                        == (crate::message::EffectView::<T>::Send {
                        to_id: from_id,
                        message: MessageView::<T>::AppendEntryResponse {
                            from_id: r,
                            term,
                            success: true,
                            last_index: matched_index(prev_log_index, entries),
                        },
                    }) by {
                        assert(i >= 1);
                        assert(e1[i] == ef[i - 1]);
                    }
                    assert(accepts(sv, e));
                    lemma_case_accept(sv, first, e);
                }
            } else {
                assert forall|i: int| 0 <= i < e1.len() implies quiet_send_ok(sv, e, #[trigger] e1[i]) by {}
                assert(quiet(sv, e));
                lemma_case_quiet(sv, first, e);
            }
        },
        MessageView::VoteRequest { from_id, term, last_log_index, last_log_term } => {
            if term > s.current_term {
                assert forall|i: int| 0 <= i < e1.len() implies follow_send_ok(#[trigger] e1[i], e, s1.current_term, s.entries) by {}
                assert(follows(sv, e));
                lemma_case_follow(sv, first, e);
            } else {
                assert forall|i: int| 0 <= i < e1.len() implies quiet_send_ok(sv, e, #[trigger] e1[i]) by {}
                assert(quiet(sv, e));
                lemma_case_quiet(sv, first, e);
            }
        },
        MessageView::VoteResponse { from_id, term, vote_granted } => {
            if term > s.current_term {
                assert forall|i: int| 0 <= i < e1.len() implies follow_send_ok(#[trigger] e1[i], e, s1.current_term, s.entries) by {}
                assert(follows(sv, e));
                lemma_case_follow(sv, first, e);
            } else if term == s.current_term && vote_granted {
                let v2 = s.current_votes->0.insert(from_id);
                let sc = ReplicaView { current_votes: Some(v2), ..s };
                if is_majority(v2.len(), s.peer_ids.len()) {
                    assert((s1, e1) == crate::replica_model::become_leader(sc));
                    assert(s1.match_index =~= Map::new(
                        |p: usize| s.peer_ids.contains(p),
                        |p: usize| 0usize,
                    ));
                    assert(elected_by(s, e));
                    assert forall|i: int| 0 <= i < e1.len() implies !(#[trigger] e1[i] is Send) by {}
                    assert(leads_grown(sv, e));
                    lemma_case_elected(sv, first, e);
                } else {
                    lemma_case_count(sv, first, e);
                }
            } else {
                assert forall|i: int| 0 <= i < e1.len() implies quiet_send_ok(sv, e, #[trigger] e1[i]) by {}
                assert(quiet(sv, e));
                lemma_case_quiet(sv, first, e);
            }
        },
        MessageView::AppendEntryResponse { .. } => {
            assert forall|i: int| 0 <= i < e1.len() implies quiet_send_ok(sv, e, #[trigger] e1[i]) by {}
            assert(quiet(sv, e));
            lemma_case_quiet(sv, first, e);
        },
    }
}

/// A leader's heartbeat keeps the invariant.
#[verifier::spinoff_prover]
proof fn lemma_case_heartbeat<T>(sv: SafeView<T>, first: Entry<T>, e: ClusterEvent<T>)
    requires
        safe_inv(sv, first),
        can_happen(sv.cluster, e),
        e is Heartbeat,
        sv.cluster.replicas[target(e)].state == State::Leader,
    ensures
        safe_inv(safe_step(sv, e), first),
{
    let c = sv.cluster;
    let r = target(e);
    let s = c.replicas[r];
    let (s1, e1) = reaction(sv, e);
    let sv2 = safe_step(sv, e);
    let u = s.current_term;
    assert(s1 == s);
    assert(e1 == crate::replica_model::heartbeat(s));
    lemma_apply_shape(s1);
    assert(replica_ok(sv, first, r));
    assert(leader_log_ok(sv, first, u));
    assert(sv2.logs =~= sv.logs);
    assert(step_shape(sv, e));
    lemma_frame_grows(sv, first, e);
    lemma_commit_ok_grows(sv, sv2, s.entries, s.commit_index, u);
    assert(crate::replica_model::heartbeat_ready(s));
    assert forall|i: int| 0 <= i < e1.len() implies quiet_send_ok(sv, e, #[trigger] e1[i]) by {
        let p = s.peer_ids[i];
        assert(s.peer_ids.contains(p));
        let m = crate::replica_model::append_request_for(s, p);
        assert(e1[i] == crate::replica_model::send(p, m));
        let es = crate::replica_model::entries_for_peer(s, p);
        assert forall|k: int| 0 <= k < es.len() implies #[trigger] es[k] == sv2.logs[u][(s.next_index[p] - 1) + 1 + k] by {}
        assert(msg_ok(sv2, p, m));
    }
    assert(quiet(sv, e));
    lemma_case_quiet(sv, first, e);
}

/// Timeouts, heartbeats and new transitions keep the invariant.
proof fn lemma_step_other<T>(sv: SafeView<T>, first: Entry<T>, e: ClusterEvent<T>)
    requires
        safe_inv(sv, first),
        can_happen(sv.cluster, e),
        !(e is Deliver),
    ensures
        safe_inv(safe_step(sv, e), first),
{
    let s = sv.cluster.replicas[target(e)];
    let (s1, e1) = reaction(sv, e);
    match e {
        ClusterEvent::Timeout(_) => {
            if s.state == State::Leader {
                assert(quiet(sv, e));
                lemma_case_quiet(sv, first, e);
            } else {
                lemma_case_candidacy(sv, first, e);
            }
        },
        ClusterEvent::Heartbeat(_) => {
            if s.state == State::Leader {
                lemma_case_heartbeat(sv, first, e);
            } else {
                assert(quiet(sv, e));
                lemma_case_quiet(sv, first, e);
            }
        },
        ClusterEvent::Submit(_, ts) => {
            if s.state == State::Leader {
                lemma_case_submit(sv, first, e);
            } else {
                assert forall|i: int| 0 <= i < e1.len() implies quiet_send_ok(sv, e, #[trigger] e1[i]) by {}
                assert(quiet(sv, e));
                lemma_case_quiet(sv, first, e);
            }
        },
        ClusterEvent::Deliver(_, _) => {},
    }
}

/// Every event that can happen keeps the invariant.
proof fn lemma_safe_step<T>(sv: SafeView<T>, first: Entry<T>, e: ClusterEvent<T>)
    requires
        safe_inv(sv, first),
        can_happen(sv.cluster, e),
    ensures
        safe_inv(safe_step(sv, e), first),
{
    if e is Deliver {
        let s = sv.cluster.replicas[target(e)];
        match s.state {
            State::Leader => lemma_step_leader_msg(sv, first, e),
            State::Follower => lemma_step_follower_msg(sv, first, e),
            State::Candidate => lemma_step_candidate_msg(sv, first, e),
        }
    } else {
        lemma_step_other(sv, first, e);
    }
}

/// Events lead from a starting cluster to clusters that keep the invariant,
/// with the leaders' logs they record.
proof fn lemma_safe_run<T>(c: ClusterView<T>, first: Entry<T>, es: Seq<ClusterEvent<T>>)
    requires
        initial_logs(c, first),
        run_can_happen(c, es),
    ensures
        safe_inv(safe_run(c, es), first),
    decreases es.len(),
{
    lemma_safe_run_cluster(c, es);
    if es.len() == 0 {
        lemma_initial_safe(c, first);
    } else {
        lemma_safe_run(c, first, es.drop_last());
        lemma_safe_run_cluster(c, es.drop_last());
        lemma_safe_step(safe_run(c, es.drop_last()), first, es.last());
    }
}

/// The log of a replica holds, up to its commit index, the log of the
/// leader of a term no later than its own, up to a committed entry.
proof fn lemma_commit_witness<T>(sv: SafeView<T>, first: Entry<T>, k: usize, i: int)
    requires
        safe_inv(sv, first),
        sv.cluster.replicas.contains_key(k),
        0 <= i <= sv.cluster.replicas[k].commit_index,
    ensures
        i < sv.cluster.replicas[k].entries.len(),
        i == 0 ==> sv.cluster.replicas[k].entries[i] == first,
        i > 0 ==> exists|t: usize, n: int|
            #![trigger committed(sv, t, n)]
            t <= sv.cluster.replicas[k].current_term && n >= i && committed(sv, t, n) && sv.logs[t][i]
                == sv.cluster.replicas[k].entries[i],
{
    let s = sv.cluster.replicas[k];
    assert(replica_ok(sv, first, k));
    if i > 0 {
        let (t, n) = choose|t: usize, n: int|
            #![trigger committed(sv, t, n), sv.logs[t]]
            t <= s.current_term && n >= s.commit_index && committed(sv, t, n) && agree(
                s.entries,
                sv.logs[t],
                s.commit_index as int,
            );
        assert(s.entries[i] == sv.logs[t][i]);
    }
}

/// A leader's log, recorded for a term no earlier than that of a committed
/// entry a replica's log holds, holds the same entry.
proof fn lemma_leader_holds_committed<T>(
    sv: SafeView<T>,
    log: Seq<Entry<T>>,
    u: usize,
    top: usize,
    i: int,
)
    requires
        sv.logs.contains_key(u),
        lc_at(sv, u),
        top <= u,
        0 < i < log.len(),
        exists|t: usize, n: int|
            #![trigger committed(sv, t, n)]
            t <= top && n >= i && committed(sv, t, n) && sv.logs[t][i] == log[i],
    ensures
        i < sv.logs[u].len(),
        sv.logs[u][i] == log[i],
{
    let (t, n) = choose|t: usize, n: int|
        #![trigger committed(sv, t, n)]
        t <= top && n >= i && committed(sv, t, n) && sv.logs[t][i] == log[i];
    if t < u {
        assert(agree(sv.logs[u], sv.logs[t], n));
    }
}

/// Leader completeness: whatever events happen to a cluster whose replicas
/// start with the same log, nothing committed past its first entry, with
/// messages delayed, reordered, duplicated or
/// lost, an entry at or below a replica's commit index is in the log of
/// every leader whose term is the replica's term or a later one, at the
/// same index.
pub proof fn law_leader_completeness<T>(
    c: ClusterView<T>,
    first: Entry<T>,
    es: Seq<ClusterEvent<T>>,
    k: usize,
    l: usize,
    i: int,
)
    requires
        initial_logs(c, first),
        run_can_happen(c, es),
        cluster_run(c, es).replicas.contains_key(k),
        cluster_run(c, es).replicas.contains_key(l),
        0 <= i <= cluster_run(c, es).replicas[k].commit_index,
        cluster_run(c, es).replicas[l].state == State::Leader,
        cluster_run(c, es).replicas[l].current_term >= cluster_run(c, es).replicas[k].current_term,
    ensures
        i < cluster_run(c, es).replicas[k].entries.len(),
        i < cluster_run(c, es).replicas[l].entries.len(),
        cluster_run(c, es).replicas[l].entries[i] == cluster_run(c, es).replicas[k].entries[i],
{
    let sv = safe_run(c, es);
    lemma_safe_run(c, first, es);
    lemma_safe_run_cluster(c, es);
    let c2 = sv.cluster;
    let sl = c2.replicas[l];
    let u = sl.current_term;
    assert(replica_ok(sv, first, l));
    assert(leader_log_ok(sv, first, u));
    assert(sv.logs[u] == sl.entries);
    lemma_commit_witness(sv, first, k, i);
    lemma_commit_witness(sv, first, l, 0);
    if i > 0 {
        lemma_lc_at(sv, first, u);
        lemma_leader_holds_committed(sv, c2.replicas[k].entries, u, c2.replicas[k].current_term, i);
    }
}

/// State machine safety: whatever events happen to a cluster whose replicas
/// start with the same log, nothing committed past its first entry, with
/// messages delayed, reordered, duplicated or
/// lost, two replicas that have both applied the entry at an index applied
/// the same entry there, the same transition.
pub proof fn law_state_machine_safety<T>(
    c: ClusterView<T>,
    first: Entry<T>,
    es: Seq<ClusterEvent<T>>,
    a: usize,
    b: usize,
    i: int,
)
    requires
        initial_logs(c, first),
        run_can_happen(c, es),
        cluster_run(c, es).replicas.contains_key(a),
        cluster_run(c, es).replicas.contains_key(b),
        0 <= i <= cluster_run(c, es).replicas[a].last_applied,
        0 <= i <= cluster_run(c, es).replicas[b].last_applied,
    ensures
        i < cluster_run(c, es).replicas[a].entries.len(),
        i < cluster_run(c, es).replicas[b].entries.len(),
        cluster_run(c, es).replicas[a].entries[i] == cluster_run(c, es).replicas[b].entries[i],
{
    let sv = safe_run(c, es);
    lemma_safe_run(c, first, es);
    lemma_safe_run_cluster(c, es);
    let c2 = sv.cluster;
    assert(replica_ok(sv, first, a));
    assert(replica_ok(sv, first, b));
    lemma_commit_witness(sv, first, a, i);
    lemma_commit_witness(sv, first, b, i);
    if i > 0 {
        let (ta, na) = choose|t: usize, n: int|
            #![trigger committed(sv, t, n)]
            t <= c2.replicas[a].current_term && n >= i && committed(sv, t, n) && sv.logs[t][i]
                == c2.replicas[a].entries[i];
        let (tb, nb) = choose|t: usize, n: int|
            #![trigger committed(sv, t, n)]
            t <= c2.replicas[b].current_term && n >= i && committed(sv, t, n) && sv.logs[t][i]
                == c2.replicas[b].entries[i];
        if ta < tb {
            lemma_committed_in_later_logs(sv, first, ta, na, tb);
        } else if tb < ta {
            lemma_committed_in_later_logs(sv, first, tb, nb, ta);
        }
    }
}

} // verus!
