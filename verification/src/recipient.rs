//! The recipient proxy.
//!
//! One `RecipientProxy` serves a single type-id: it keeps the set of
//! peers that advertised support for the type, and routes each local
//! send to one of them. Peer selection is deterministic for a given
//! state: the proxy always picks the longest-known provider (the
//! first entry of its list). With no provider known, the caller's
//! sink fails at once.

use vstd::prelude::*;

use crate::msgs::{NodeGone, SendRemoteMessage, TypeSupported};

verus! {

/// Outcome of routing one local send.
pub enum ProxySendOutcome {
    /// Forward(node_id, message): hand the message to the connector
    /// of this node.
    Forward(String, SendRemoteMessage),
    /// No peer advertises the type; fail this sink at once.
    NoProvider(u64),
}

/// The local routing endpoint for one type-id.
pub struct RecipientProxy {
    /// The type this proxy routes.
    pub type_id: String,
    /// Node-ids of the peers advertising the type, in the order they
    /// became known, each at most once.
    pub nodes: Vec<String>,
}

/// One membership change of a provider set.
pub enum DirEvent {
    /// The node advertised support.
    Advertise(Seq<char>),
    /// The node went away.
    Gone(Seq<char>),
}

/// The provider set without one node.
pub open spec fn drop_node(nodes: Seq<Seq<char>>, n: Seq<char>) -> Seq<Seq<char>> {
    nodes.filter(|x: Seq<char>| x != n)
}

/// A provider set after one membership event.
pub open spec fn dir_step(nodes: Seq<Seq<char>>, ev: DirEvent) -> Seq<Seq<char>> {
    match ev {
        DirEvent::Advertise(n) => if nodes.contains(n) {
            nodes
        } else {
            nodes.push(n)
        },
        DirEvent::Gone(n) => drop_node(nodes, n),
    }
}

/// A provider set after a sequence of membership events.
pub open spec fn dir_run(nodes: Seq<Seq<char>>, evs: Seq<DirEvent>) -> Seq<Seq<char>>
    decreases evs.len(),
{
    if evs.len() == 0 {
        nodes
    } else {
        dir_step(dir_run(nodes, evs.drop_last()), evs.last())
    }
}

/// Whether the last event concerning `n` was an advertisement;
/// with no such event, whether `n` was present initially.
pub open spec fn last_event_advert(evs: Seq<DirEvent>, n: Seq<char>, initially: bool) -> bool
    decreases evs.len(),
{
    if evs.len() == 0 {
        initially
    } else {
        match evs.last() {
            DirEvent::Advertise(m) => if m == n {
                true
            } else {
                last_event_advert(evs.drop_last(), n, initially)
            },
            DirEvent::Gone(m) => if m == n {
                false
            } else {
                last_event_advert(evs.drop_last(), n, initially)
            },
        }
    }
}

pub(crate) proof fn lemma_drop_node_unfold(s: Seq<Seq<char>>, n: Seq<char>)
    requires
        s.len() > 0,
    ensures
        s.last() != n ==> drop_node(s, n) == drop_node(s.drop_last(), n).push(s.last()),
        s.last() == n ==> drop_node(s, n) == drop_node(s.drop_last(), n),
{
    reveal(Seq::filter);
}

pub(crate) proof fn lemma_drop_node_empty(s: Seq<Seq<char>>, n: Seq<char>)
    requires
        s.len() == 0,
    ensures
        drop_node(s, n) == s,
{
    reveal(Seq::filter);
}

proof fn lemma_drop_node_contains(s: Seq<Seq<char>>, n: Seq<char>, x: Seq<char>)
    ensures
        drop_node(s, n).contains(x) <==> (s.contains(x) && x != n),
    decreases s.len(),
{
    if s.len() == 0 {
        lemma_drop_node_empty(s, n);
    } else {
        let pre = s.drop_last();
        lemma_drop_node_contains(pre, n, x);
        lemma_drop_node_unfold(s, n);
        let f = drop_node(s, n);
        let fp = drop_node(pre, n);
        assert(forall|w: int| 0 <= w < pre.len() ==> pre[w] == #[trigger] s[w]);
        if s.last() != n {
            if f.contains(x) {
                let w = choose|w: int| 0 <= w < f.len() && f[w] == x;
                if w == fp.len() {
                    assert(x == s.last());
                    assert(s[s.len() - 1] == x);
                } else {
                    assert(fp[w] == x);
                    assert(fp.contains(x));
                }
            }
            if s.contains(x) && x != n {
                let w = choose|w: int| 0 <= w < s.len() && s[w] == x;
                if w == s.len() - 1 {
                    assert(f[fp.len() as int] == x);
                } else {
                    assert(pre[w] == x);
                    assert(pre.contains(x));
                    let w2 = choose|w2: int| 0 <= w2 < fp.len() && fp[w2] == x;
                    assert(f[w2] == x);
                }
            }
        } else {
            if s.contains(x) && x != n {
                let w = choose|w: int| 0 <= w < s.len() && s[w] == x;
                assert(w < s.len() - 1);
                assert(pre[w] == x);
                assert(pre.contains(x));
            }
            if fp.contains(x) {
                let w = choose|w: int| 0 <= w < pre.len() && pre[w] == x;
                assert(s[w] == x);
            }
        }
    }
}

/// Every kept element occurs in the original and is not the dropped
/// one.
pub(crate) proof fn lemma_drop_node_member(s: Seq<Seq<char>>, n: Seq<char>, p: int)
    requires
        0 <= p < drop_node(s, n).len(),
    ensures
        s.contains(drop_node(s, n)[p]),
        drop_node(s, n)[p] != n,
    decreases s.len(),
{
    if s.len() == 0 {
        lemma_drop_node_empty(s, n);
    } else {
        let pre = s.drop_last();
        lemma_drop_node_unfold(s, n);
        let f = drop_node(s, n);
        let fp = drop_node(pre, n);
        assert(forall|w: int| 0 <= w < pre.len() ==> pre[w] == #[trigger] s[w]);
        if s.last() != n && p == f.len() - 1 {
            assert(f[p] == s.last());
            assert(s[s.len() - 1] == s.last());
        } else {
            assert(f[p] == fp[p]);
            lemma_drop_node_member(pre, n, p);
            let w = choose|w: int| 0 <= w < pre.len() && pre[w] == fp[p];
            assert(s[w] == fp[p]);
        }
    }
}

/// Dropping a node keeps the remaining entries distinct.
pub(crate) proof fn lemma_drop_node_distinct(s: Seq<Seq<char>>, n: Seq<char>)
    requires
        forall|p: int, q: int| 0 <= p < q < s.len() ==> s[p] != s[q],
    ensures
        forall|p: int, q: int|
            0 <= p < q < drop_node(s, n).len() ==> #[trigger] drop_node(s, n)[p]
                != #[trigger] drop_node(s, n)[q],
    decreases s.len(),
{
    if s.len() == 0 {
        lemma_drop_node_empty(s, n);
    } else {
        let pre = s.drop_last();
        lemma_drop_node_distinct(pre, n);
        lemma_drop_node_unfold(s, n);
        let f = drop_node(s, n);
        let fp = drop_node(pre, n);
        assert(forall|w: int| 0 <= w < pre.len() ==> pre[w] == #[trigger] s[w]);
        assert forall|p: int, q: int| 0 <= p < q < f.len() implies f[p] != f[q] by {
            if s.last() != n && q == f.len() - 1 {
                assert(f[q] == s.last());
                assert(f[p] == fp[p]);
                lemma_drop_node_member(pre, n, p);
                let w = choose|w: int| 0 <= w < pre.len() && pre[w] == fp[p];
                assert(s[w] == fp[p]);
                assert(s[w] != s[s.len() - 1]);
            } else {
                assert(f[p] == fp[p] && f[q] == fp[q]);
            }
        }
    }
}

/// A node is in the provider set exactly when the last membership
/// event for it was an advertisement, not a departure.
pub proof fn lemma_directory_membership(
    init: Seq<Seq<char>>,
    evs: Seq<DirEvent>,
    n: Seq<char>,
)
    ensures
        dir_run(init, evs).contains(n) <==> last_event_advert(evs, n, init.contains(n)),
    decreases evs.len(),
{
    if evs.len() > 0 {
        lemma_directory_membership(init, evs.drop_last(), n);
        let pre = dir_run(init, evs.drop_last());
        match evs.last() {
            DirEvent::Advertise(m) => {
                if m == n {
                    if !pre.contains(n) {
                        assert(pre.push(n)[pre.len() as int] == n);
                    }
                } else {
                    if pre.contains(m) {
                    } else {
                        assert(dir_run(init, evs) == pre.push(m));
                        if pre.contains(n) {
                            let w = choose|w: int| 0 <= w < pre.len() && pre[w] == n;
                            assert(pre.push(m)[w] == n);
                        }
                        if pre.push(m).contains(n) {
                            let w = choose|w: int|
                                0 <= w < pre.push(m).len() && pre.push(m)[w] == n;
                            assert(pre[w] == n);
                        }
                    }
                }
            },
            DirEvent::Gone(m) => {
                lemma_drop_node_contains(pre, m, n);
            },
        }
    }
}

impl RecipientProxy {
    /// Each provider appears at most once.
    pub open spec fn wf(&self) -> bool {
        forall|p: int, q: int|
            0 <= p < q < self.nodes@.len() ==> self.nodes.deep_view()[p]
                != self.nodes.deep_view()[q]
    }

    pub fn new(type_id: String) -> (r: RecipientProxy)
        ensures
            r.wf(),
            r.type_id == type_id,
            r.nodes@.len() == 0,
    {
        RecipientProxy { type_id, nodes: Vec::new() }
    }

    /// Whether this node is a known provider.
    pub open spec fn has_node(&self, n: Seq<char>) -> bool {
        self.nodes.deep_view().contains(n)
    }

    fn find_node(&self, node_id: &String) -> (r: Option<usize>)
        ensures
            (r matches Some(k) ==> k < self.nodes@.len() && self.nodes.deep_view()[k as int]
                == node_id@),
            r is None ==> !self.has_node(node_id@),
    {
        let mut k: usize = 0;
        while k < self.nodes.len()
            invariant
                k <= self.nodes@.len(),
                forall|t: int| 0 <= t < k ==> self.nodes.deep_view()[t] != node_id@,
            decreases self.nodes@.len() - k,
        {
            proof {
                assert(self.nodes.deep_view()[k as int] == self.nodes@[k as int]@);
            }
            if self.nodes[k].eq(node_id) {
                return Some(k);
            }
            k = k + 1;
        }
        proof {
            if self.nodes.deep_view().contains(node_id@) {
                let w = choose|w: int|
                    0 <= w < self.nodes.deep_view().len() && self.nodes.deep_view()[w]
                        == node_id@;
                assert(self.nodes.deep_view()[w] != node_id@);
            }
        }
        None
    }

    /// A new provider advertised this type: remember it, once.
    pub fn handle_type_supported(&mut self, msg: TypeSupported)
        requires
            old(self).wf(),
        ensures
            final(self).wf(),
            final(self).type_id == old(self).type_id,
            final(self).nodes.deep_view() == dir_step(
                old(self).nodes.deep_view(),
                DirEvent::Advertise(msg.node_id@),
            ),
    {
        let present = self.find_node(&msg.node_id);
        match present {
            Some(k) => {
                proof {
                    assert(self.nodes.deep_view()[k as int] == msg.node_id@);
                    assert(self.has_node(msg.node_id@));
                }
            },
            None => {
                let ghost prev = self.nodes.deep_view();
                self.nodes.push(msg.node_id);
                proof {
                    assert(self.nodes.deep_view() =~= prev.push(msg.node_id@)) by {
                        assert(forall|t: int|
                            0 <= t < prev.len() ==> self.nodes.deep_view()[t] == prev[t]);
                        assert(self.nodes.deep_view()[prev.len() as int] == msg.node_id@);
                    }
                    assert forall|p: int, q: int|
                        0 <= p < q < self.nodes@.len() implies self.nodes.deep_view()[p]
                        != self.nodes.deep_view()[q] by {
                        if q == self.nodes@.len() - 1 {
                            assert(!prev.contains(self.nodes.deep_view()[q]));
                            assert(prev[p] == self.nodes.deep_view()[p]);
                        }
                    }
                }
            },
        }
    }

    /// A provider went away: forget it.
    pub fn handle_node_gone(&mut self, msg: &NodeGone)
        requires
            old(self).wf(),
        ensures
            final(self).wf(),
            final(self).type_id == old(self).type_id,
            final(self).nodes.deep_view() == dir_step(
                old(self).nodes.deep_view(),
                DirEvent::Gone(msg.0@),
            ),
    {
        let ghost prev = self.nodes.deep_view();
        let mut kept: Vec<String> = Vec::new();
        let mut i: usize = 0;
        proof {
            assert(prev.subrange(0, 0) =~= Seq::<Seq<char>>::empty());
            lemma_drop_node_empty(prev.subrange(0, 0), msg.0@);
            assert(kept.deep_view() =~= drop_node(prev.subrange(0, 0), msg.0@));
        }
        while i < self.nodes.len()
            invariant
                i <= self.nodes@.len(),
                prev == self.nodes.deep_view(),
                prev.len() == self.nodes@.len(),
                kept.deep_view() == drop_node(prev.subrange(0, i as int), msg.0@),
            decreases self.nodes@.len() - i,
        {
            proof {
                assert(self.nodes.deep_view()[i as int] == self.nodes@[i as int]@);
            }
            let keep = !self.nodes[i].eq(&msg.0);
            let ghost sofar = prev.subrange(0, i as int);
            proof {
                assert(prev.subrange(0, i + 1) =~= sofar.push(prev[i as int]));
                lemma_drop_node_unfold(prev.subrange(0, i + 1), msg.0@);
                assert(prev.subrange(0, i + 1).drop_last() =~= sofar);
            }
            if keep {
                let s = self.nodes[i].clone();
                proof {
                    assert(s@ == prev[i as int]);
                }
                let ghost kprev = kept.deep_view();
                kept.push(s);
                proof {
                    assert(kept.deep_view() =~= kprev.push(prev[i as int])) by {
                        assert(forall|t: int|
                            0 <= t < kprev.len() ==> kept.deep_view()[t] == kprev[t]);
                        assert(kept.deep_view()[kprev.len() as int] == prev[i as int]);
                    }
                }
            }
            i = i + 1;
        }
        proof {
            assert(prev.subrange(0, prev.len() as int) =~= prev);
        }
        self.nodes = kept;
        proof {
            assert(self.nodes.deep_view() == drop_node(prev, msg.0@));
            lemma_drop_node_distinct(prev, msg.0@);
        }
    }

    /// Routes one local send: with at least one provider known,
    /// forward to the first; otherwise fail the caller's sink.
    pub fn handle_send(&self, data: String, tx: u64) -> (r: ProxySendOutcome)
        ensures
            self.nodes@.len() == 0 ==> (r matches ProxySendOutcome::NoProvider(t) && t == tx),
            self.nodes@.len() > 0 ==> (r matches ProxySendOutcome::Forward(n, m) && n@
                == self.nodes.deep_view()[0] && m.type_id@ == self.type_id@ && m.data@ == data@
                && m.tx == tx),
    {
        if self.nodes.len() == 0 {
            ProxySendOutcome::NoProvider(tx)
        } else {
            let node = self.nodes[0].clone();
            let type_id = self.type_id.clone();
            proof {
                assert(node@ == self.nodes.deep_view()[0]);
            }
            ProxySendOutcome::Forward(node, SendRemoteMessage { type_id, data, tx })
        }
    }
}

} // verus!
