//! The process-wide coordinator.
//!
//! The `World` owns every table: the configured peers, the peer
//! table of live outbound connectors, the bound listener addresses,
//! the live inbound workers, the registered handler type-ids, and
//! the recipient proxies. It is the sole mutator of these tables;
//! connectors and workers only send it messages. Each handler states
//! exactly how its table changes, and well-formedness — above all,
//! at most one peer-table entry per address — is preserved by every
//! operation.

use vstd::prelude::*;

use crate::msgs::{
    NodeConnected, NodeGone, NodeSupportedTypes, ProvideRecipient, TypeSupported,
    WorkerDisconnected,
};
use crate::node::NodeInformation;
use crate::recipient::{dir_step, DirEvent, RecipientProxy};

verus! {

/// Why the coordinator could not come up.
#[derive(Clone, Copy, PartialEq, Eq, Structural, Debug)]
pub enum WorldError {
    /// No configured address could be bound.
    BindFailure,
}

/// Reaction to an inbound handshake from a peer.
pub enum NodeConnectedOutcome {
    /// A connector for this address exists: nudge it to reconnect.
    Reconnect(String),
    /// No connector yet: create one, under supervision.
    CreateLink(String),
}

/// Reaction to a shutdown request.
pub enum StopOutcome {
    /// A shutdown is already under way.
    AlreadyStopping,
    /// No workers are left; the process can exit.
    Finished,
    /// Ask each of these workers to stop.
    StopWorkers(Vec<usize>),
}

/// Which process signal arrived.
#[derive(Clone, Copy, PartialEq, Eq, Structural, Debug)]
pub enum SignalKind {
    Int,
    Term,
    Quit,
    Other,
}

/// First position of a proxy routing `t`, or -1.
pub open spec fn proxy_index(s: Seq<RecipientProxy>, t: Seq<char>) -> int
    decreases s.len(),
{
    if s.len() == 0 {
        -1
    } else if s[0].type_id@ == t {
        0
    } else {
        let r = proxy_index(s.subrange(1, s.len() as int), t);
        if r == -1 {
            -1
        } else {
            r + 1
        }
    }
}

proof fn lemma_proxy_index_none(s: Seq<RecipientProxy>, t: Seq<char>)
    requires
        forall|k: int| 0 <= k < s.len() ==> (#[trigger] s[k]).type_id@ != t,
    ensures
        proxy_index(s, t) == -1,
    decreases s.len(),
{
    if s.len() > 0 {
        lemma_proxy_index_none(s.subrange(1, s.len() as int), t);
    }
}

proof fn lemma_proxy_index_first(s: Seq<RecipientProxy>, t: Seq<char>, j: int)
    requires
        0 <= j < s.len(),
        s[j].type_id@ == t,
        forall|k: int| 0 <= k < j ==> (#[trigger] s[k]).type_id@ != t,
    ensures
        proxy_index(s, t) == j,
    decreases s.len(),
{
    if j > 0 {
        lemma_proxy_index_first(s.subrange(1, s.len() as int), t, j - 1);
    }
}

/// First position of the peer record for address `a`, or -1.
pub open spec fn addr_index(s: Seq<NodeInformation>, a: Seq<char>) -> int
    decreases s.len(),
{
    if s.len() == 0 {
        -1
    } else if s[0].addr@ == a {
        0
    } else {
        let r = addr_index(s.subrange(1, s.len() as int), a);
        if r == -1 {
            -1
        } else {
            r + 1
        }
    }
}

proof fn lemma_addr_index_none(s: Seq<NodeInformation>, a: Seq<char>)
    requires
        forall|k: int| 0 <= k < s.len() ==> (#[trigger] s[k]).addr@ != a,
    ensures
        addr_index(s, a) == -1,
    decreases s.len(),
{
    if s.len() > 0 {
        lemma_addr_index_none(s.subrange(1, s.len() as int), a);
    }
}

proof fn lemma_addr_index_first(s: Seq<NodeInformation>, a: Seq<char>, j: int)
    requires
        0 <= j < s.len(),
        s[j].addr@ == a,
        forall|k: int| 0 <= k < j ==> (#[trigger] s[k]).addr@ != a,
    ensures
        addr_index(s, a) == j,
    decreases s.len(),
{
    if j > 0 {
        lemma_addr_index_first(s.subrange(1, s.len() as int), a, j - 1);
    }
}

/// The addresses of the listen attempts that succeeded, in order.
pub open spec fn bound_addrs(s: Seq<Option<Seq<char>>>) -> Seq<Seq<char>>
    decreases s.len(),
{
    if s.len() == 0 {
        Seq::empty()
    } else {
        bound_addrs(s.drop_last()) + (match s.last() {
            Some(a) => seq![a],
            None => Seq::empty(),
        })
    }
}

/// The worker table without one id.
pub open spec fn drop_worker(s: Seq<usize>, id: usize) -> Seq<usize> {
    s.filter(|x: usize| x != id)
}

proof fn lemma_drop_worker_unfold(s: Seq<usize>, id: usize)
    requires
        s.len() > 0,
    ensures
        s.last() != id ==> drop_worker(s, id) == drop_worker(s.drop_last(), id).push(s.last()),
        s.last() == id ==> drop_worker(s, id) == drop_worker(s.drop_last(), id),
{
    reveal(Seq::filter);
}

proof fn lemma_drop_worker_empty(s: Seq<usize>, id: usize)
    requires
        s.len() == 0,
    ensures
        drop_worker(s, id) == s,
{
    reveal(Seq::filter);
}

/// Every kept worker id occurs in the original table.
proof fn lemma_drop_worker_member(s: Seq<usize>, id: usize, p: int)
    requires
        0 <= p < drop_worker(s, id).len(),
    ensures
        s.contains(drop_worker(s, id)[p]),
        drop_worker(s, id)[p] != id,
    decreases s.len(),
{
    if s.len() == 0 {
        lemma_drop_worker_empty(s, id);
    } else {
        let pre = s.drop_last();
        lemma_drop_worker_unfold(s, id);
        let f = drop_worker(s, id);
        let fp = drop_worker(pre, id);
        assert(forall|w: int| 0 <= w < pre.len() ==> pre[w] == #[trigger] s[w]);
        if s.last() != id && p == f.len() - 1 {
            assert(f[p] == s.last());
            assert(s[s.len() - 1] == s.last());
        } else {
            assert(f[p] == fp[p]);
            lemma_drop_worker_member(pre, id, p);
            let w = choose|w: int| 0 <= w < pre.len() && pre[w] == fp[p];
            assert(s[w] == fp[p]);
        }
    }
}

/// Dropping an id keeps the remaining ids distinct.
proof fn lemma_drop_worker_distinct(s: Seq<usize>, id: usize)
    requires
        forall|p: int, q: int| 0 <= p < q < s.len() ==> s[p] != s[q],
    ensures
        forall|p: int, q: int|
            0 <= p < q < drop_worker(s, id).len() ==> #[trigger] drop_worker(s, id)[p]
                != #[trigger] drop_worker(s, id)[q],
    decreases s.len(),
{
    if s.len() == 0 {
        lemma_drop_worker_empty(s, id);
    } else {
        let pre = s.drop_last();
        lemma_drop_worker_distinct(pre, id);
        lemma_drop_worker_unfold(s, id);
        let f = drop_worker(s, id);
        let fp = drop_worker(pre, id);
        assert(forall|w: int| 0 <= w < pre.len() ==> pre[w] == #[trigger] s[w]);
        assert forall|p: int, q: int| 0 <= p < q < f.len() implies f[p] != f[q] by {
            if s.last() != id && q == f.len() - 1 {
                assert(f[q] == s.last());
                assert(f[p] == fp[p]);
                lemma_drop_worker_member(pre, id, p);
                let w = choose|w: int| 0 <= w < pre.len() && pre[w] == fp[p];
                assert(s[w] == fp[p]);
                assert(s[w] != s[s.len() - 1]);
            } else {
                assert(f[p] == fp[p] && f[q] == fp[q]);
            }
        }
    }
}

/// The process-wide coordinator and its tables.
pub struct World {
    /// The locally advertised address.
    pub addr: String,
    /// Statically configured peers, at most one per address.
    pub addrs: Vec<NodeInformation>,
    /// The peer table: addresses with a live outbound connector,
    /// each at most once.
    pub nodes: Vec<String>,
    /// Addresses of bound listener sockets.
    pub sockets: Vec<String>,
    /// The last worker id handed out.
    pub wid: usize,
    /// Ids of live inbound workers.
    pub workers: Vec<usize>,
    /// Type-ids with a registered local handler, each at most once.
    pub handlers: Vec<String>,
    /// Recipient proxies, at most one per type-id.
    pub recipients: Vec<RecipientProxy>,
    /// Whether a graceful shutdown is under way.
    pub exit: bool,
}

impl World {
    /// Each peer address appears at most once in the peer table.
    pub open spec fn peer_table_unique(&self) -> bool {
        forall|p: int, q: int|
            0 <= p < q < self.nodes@.len() ==> self.nodes.deep_view()[p]
                != self.nodes.deep_view()[q]
    }

    /// Well-formedness of all tables, preserved by every operation.
    pub open spec fn wf(&self) -> bool {
        &&& self.peer_table_unique()
        &&& (forall|p: int, q: int|
            0 <= p < q < self.addrs@.len() ==> (#[trigger] self.addrs@[p]).addr@ != (
            #[trigger] self.addrs@[q]).addr@)
        &&& (forall|p: int| 0 <= p < self.workers@.len() ==> #[trigger] self.workers@[p]
            <= self.wid)
        &&& (forall|p: int, q: int|
            0 <= p < q < self.workers@.len() ==> self.workers@[p] != self.workers@[q])
        &&& (forall|p: int, q: int|
            0 <= p < q < self.handlers@.len() ==> self.handlers.deep_view()[p]
                != self.handlers.deep_view()[q])
        &&& (forall|k: int| 0 <= k < self.recipients@.len() ==> (
        #[trigger] self.recipients@[k]).wf())
        &&& (forall|p: int, q: int|
            0 <= p < q < self.recipients@.len() ==> (#[trigger] self.recipients@[p]).type_id@
                != (#[trigger] self.recipients@[q]).type_id@)
    }

    /// A fresh coordinator advertising `addr`, with empty tables;
    /// listeners are bound afterwards through `bind`.
    pub fn new(addr: String) -> (r: World)
        ensures
            r.wf(),
            r.addr == addr,
            r.addrs@.len() == 0,
            r.nodes@.len() == 0,
            r.sockets@.len() == 0,
            r.wid == 0,
            r.workers@.len() == 0,
            r.handlers@.len() == 0,
            r.recipients@.len() == 0,
            !r.exit,
    {
        World {
            addr,
            addrs: Vec::new(),
            nodes: Vec::new(),
            sockets: Vec::new(),
            wid: 0,
            workers: Vec::new(),
            handlers: Vec::new(),
            recipients: Vec::new(),
            exit: false,
        }
    }

    /// Records the outcome of one round of listen attempts: each
    /// `Some` is the address of a socket that bound. Fails exactly
    /// when nothing bound.
    pub fn bind(&mut self, bound: Vec<Option<String>>) -> (r: Result<(), WorldError>)
        requires
            old(self).wf(),
        ensures
            final(self).wf(),
            *final(self) == (World { sockets: final(self).sockets, ..*old(self) }),
            (r is Ok <==> exists|k: int| 0 <= k < bound@.len() && (#[trigger] bound@[k]) is Some),
            r is Err ==> r == Err::<(), WorldError>(WorldError::BindFailure),
            final(self).sockets.deep_view() == old(self).sockets.deep_view() + bound_addrs(
                bound.deep_view(),
            ),
    {
        let mut any: bool = false;
        let mut i: usize = 0;
        proof {
            assert(bound.deep_view().subrange(0, 0) =~= Seq::<Option<Seq<char>>>::empty());
            assert(self.sockets.deep_view() =~= old(self).sockets.deep_view() + bound_addrs(
                bound.deep_view().subrange(0, 0),
            ));
        }
        #[verifier::loop_isolation(false)]
        while i < bound.len()
            invariant
                i <= bound@.len(),
                *self == (World { sockets: self.sockets, ..*old(self) }),
                self.sockets.deep_view() == old(self).sockets.deep_view() + bound_addrs(
                    bound.deep_view().subrange(0, i as int),
                ),
                any <==> (exists|k: int|
                    0 <= k < i && (#[trigger] bound@[k]) is Some),
            decreases bound@.len() - i,
        {
            let ghost pre = bound.deep_view().subrange(0, i as int);
            proof {
                assert(bound.deep_view().subrange(0, i + 1) =~= pre.push(
                    bound.deep_view()[i as int],
                ));
                assert(bound.deep_view().subrange(0, i + 1).drop_last() =~= pre);
            }
            match &bound[i] {
                Some(a) => {
                    let ghost sprev = self.sockets.deep_view();
                    proof {
                        assert(bound.deep_view()[i as int] matches Some(x) && x == a@);
                    }
                    self.sockets.push(a.clone());
                    any = true;
                    proof {
                        assert((bound@[i as int]) is Some);
                        assert(self.sockets.deep_view() =~= sprev.push(a@)) by {
                            assert(forall|t: int|
                                0 <= t < sprev.len() ==> self.sockets.deep_view()[t]
                                    == sprev[t]);
                            assert(self.sockets.deep_view()[sprev.len() as int] == a@);
                        }
                        assert(self.sockets.deep_view() =~= old(self).sockets.deep_view()
                            + bound_addrs(bound.deep_view().subrange(0, i + 1)));
                    }
                },
                None => {
                    proof {
                        assert(bound.deep_view()[i as int] is None);
                        assert(self.sockets.deep_view() =~= old(self).sockets.deep_view()
                            + bound_addrs(bound.deep_view().subrange(0, i + 1)));
                    }
                },
            }
            i = i + 1;
        }
        proof {
            assert(bound.deep_view().subrange(0, bound.deep_view().len() as int)
                =~= bound.deep_view());
        }
        if any {
            Ok(())
        } else {
            Err(WorldError::BindFailure)
        }
    }

    /// Registers a static peer: a fresh record replaces an existing
    /// one with the same address, so the table keeps at most one
    /// entry per address. `None` does nothing.
    pub fn add_node(&mut self, addr: Option<String>)
        requires
            old(self).wf(),
        ensures
            final(self).wf(),
            *final(self) == (World { addrs: final(self).addrs, ..*old(self) }),
            addr is None ==> final(self).addrs@ == old(self).addrs@,
            (addr matches Some(a) ==> {
                let j = addr_index(old(self).addrs@, a@);
                if j == -1 {
                    &&& final(self).addrs@.len() == old(self).addrs@.len() + 1
                    &&& (forall|k: int|
                        0 <= k < old(self).addrs@.len() ==> final(self).addrs@[k] == old(
                            self,
                        ).addrs@[k])
                    &&& final(self).addrs@.last().addr@ == a@
                    &&& final(self).addrs@.last().status == crate::node::NodeStatus::New
                } else {
                    &&& final(self).addrs@.len() == old(self).addrs@.len()
                    &&& (forall|k: int|
                        0 <= k < old(self).addrs@.len() && k != j ==> final(self).addrs@[k]
                            == old(self).addrs@[k])
                    &&& final(self).addrs@[j].addr@ == a@
                    &&& final(self).addrs@[j].status == crate::node::NodeStatus::New
                }
            }),
    {
        match addr {
            Some(a) => {
                let mut j: usize = 0;
                #[verifier::loop_isolation(false)]
                while j < self.addrs.len()
                    invariant
                        j <= self.addrs@.len(),
                        forall|t: int| 0 <= t < j ==> (#[trigger] self.addrs@[t]).addr@ != a@,
                        self == old(self),
                    decreases self.addrs@.len() - j,
                {
                    let hit = self.addrs[j].addr.eq(&a);
                    if hit {
                        proof {
                            lemma_addr_index_first(self.addrs@, a@, j as int);
                        }
                        let fresh = NodeInformation::new(a);
                        self.addrs.set(j, fresh);
                        return ;
                    }
                    j = j + 1;
                }
                proof {
                    lemma_addr_index_none(self.addrs@, a@);
                }
                let fresh = NodeInformation::new(a);
                self.addrs.push(fresh);
                proof {
                    assert forall|p: int, q: int|
                        0 <= p < q < self.addrs@.len() implies (#[trigger] self.addrs@[p]).addr@
                        != (#[trigger] self.addrs@[q]).addr@ by {
                        if q == self.addrs@.len() - 1 {
                            assert(old(self).addrs@[p].addr@ != self.addrs@[q].addr@);
                        }
                    }
                }
            },
            None => {},
        }
    }

    /// Registers a local handler type-id. Registration is monotonic:
    /// ids accumulate, each kept once; re-registration changes
    /// nothing here (the runtime swaps its handler object).
    pub fn register_recipient(&mut self, msg: ProvideRecipient)
        requires
            old(self).wf(),
        ensures
            final(self).wf(),
            *final(self) == (World { handlers: final(self).handlers, ..*old(self) }),
            old(self).handlers.deep_view().contains(msg.type_id@) ==> final(self).handlers@
                == old(self).handlers@,
            !old(self).handlers.deep_view().contains(msg.type_id@) ==> final(self).handlers.deep_view() == old(self).handlers.deep_view().push(msg.type_id@),
    {
        let mut j: usize = 0;
        #[verifier::loop_isolation(false)]
        while j < self.handlers.len()
            invariant
                j <= self.handlers@.len(),
                forall|t: int| 0 <= t < j ==> self.handlers.deep_view()[t] != msg.type_id@,
                self == old(self),
            decreases self.handlers@.len() - j,
        {
            proof {
                assert(self.handlers.deep_view()[j as int] == self.handlers@[j as int]@);
            }
            if self.handlers[j].eq(&msg.type_id) {
                proof {
                    assert(self.handlers.deep_view().contains(msg.type_id@));
                }
                return ;
            }
            j = j + 1;
        }
        proof {
            if self.handlers.deep_view().contains(msg.type_id@) {
                let w = choose|w: int|
                    0 <= w < self.handlers.deep_view().len() && self.handlers.deep_view()[w]
                        == msg.type_id@;
                assert(self.handlers.deep_view()[w] != msg.type_id@);
            }
        }
        let ghost prev = self.handlers.deep_view();
        self.handlers.push(msg.type_id);
        proof {
            assert(self.handlers.deep_view() =~= prev.push(msg.type_id@)) by {
                assert(forall|t: int|
                    0 <= t < prev.len() ==> self.handlers.deep_view()[t] == prev[t]);
                assert(self.handlers.deep_view()[prev.len() as int] == msg.type_id@);
            }
            assert forall|p: int, q: int|
                0 <= p < q < self.handlers@.len() implies self.handlers.deep_view()[p]
                != self.handlers.deep_view()[q] by {
                if q == self.handlers@.len() - 1 {
                    assert(!prev.contains(self.handlers.deep_view()[q]));
                    assert(prev[p] == self.handlers.deep_view()[p]);
                }
            }
        }
    }

    /// The proxy routing this type-id, creating it on first use.
    /// Repeated calls return the same slot unchanged.
    pub fn get_recipient(&mut self, type_id: &str) -> (r: usize)
        requires
            old(self).wf(),
        ensures
            final(self).wf(),
            *final(self) == (World { recipients: final(self).recipients, ..*old(self) }),
            r < final(self).recipients@.len(),
            final(self).recipients@[r as int].type_id@ == type_id@,
            proxy_index(old(self).recipients@, type_id@) != -1 ==> final(self).recipients@
                == old(self).recipients@ && r == proxy_index(old(self).recipients@, type_id@),
            proxy_index(old(self).recipients@, type_id@) == -1 ==> final(self).recipients@.len() == old(self).recipients@.len() + 1 && (forall|k: int|
                0 <= k < old(self).recipients@.len() ==> final(self).recipients@[k] == old(
                    self,
                ).recipients@[k]) && r == old(self).recipients@.len() && final(self).recipients@[r as int].nodes@.len() == 0,
    {
        let wanted = String::from_str(type_id);
        let mut j: usize = 0;
        #[verifier::loop_isolation(false)]
        while j < self.recipients.len()
            invariant
                j <= self.recipients@.len(),
                forall|t: int| 0 <= t < j ==> (#[trigger] self.recipients@[t]).type_id@
                    != type_id@,
                wanted@ == type_id@,
                self == old(self),
            decreases self.recipients@.len() - j,
        {
            let hit = self.recipients[j].type_id.eq(&wanted);
            if hit {
                proof {
                    lemma_proxy_index_first(self.recipients@, type_id@, j as int);
                }
                return j;
            }
            j = j + 1;
        }
        proof {
            lemma_proxy_index_none(self.recipients@, type_id@);
        }
        let fresh = RecipientProxy::new(wanted);
        self.recipients.push(fresh);
        proof {
            assert forall|p: int, q: int|
                0 <= p < q < self.recipients@.len() implies (
            #[trigger] self.recipients@[p]).type_id@ != (#[trigger] self.recipients@[q]).type_id@
                by {
                if q == self.recipients@.len() - 1 {
                    assert(old(self).recipients@[p].type_id@ != type_id@);
                }
            }
        }
        self.recipients.len() - 1
    }

    /// Begins operation: the listener sockets move to the runtime,
    /// and every configured peer gets an outbound connector; the
    /// returned addresses are the peers to dial.
    pub fn start(&mut self) -> (dials: Vec<String>)
        requires
            old(self).wf(),
            old(self).nodes@.len() == 0,
        ensures
            final(self).wf(),
            *final(self) == (World {
                nodes: final(self).nodes,
                sockets: final(self).sockets,
                ..*old(self)
            }),
            final(self).sockets@.len() == 0,
            final(self).nodes.deep_view() =~= Seq::new(
                old(self).addrs@.len() as nat,
                |k: int| old(self).addrs@[k].addr@,
            ),
            dials.deep_view() == final(self).nodes.deep_view(),
    {
        self.sockets = Vec::new();
        let mut dials: Vec<String> = Vec::new();
        let mut i: usize = 0;
        let ghost target = Seq::new(
            old(self).addrs@.len() as nat,
            |k: int| old(self).addrs@[k].addr@,
        );
        #[verifier::loop_isolation(false)]
        while i < self.addrs.len()
            invariant
                i <= self.addrs@.len(),
                self.addrs@ == old(self).addrs@,
                dials@.len() == i,
                forall|t: int| 0 <= t < i ==> dials.deep_view()[t] == target[t],
            decreases self.addrs@.len() - i,
        {
            let a = self.addrs[i].addr.clone();
            proof {
                assert(a@ == old(self).addrs@[i as int].addr@);
            }
            dials.push(a);
            i = i + 1;
        }
        let out = crate::worker::clone_strings(&dials);
        self.nodes = dials;
        proof {
            assert(self.nodes.deep_view() =~= target);
            assert(out.deep_view() =~= self.nodes.deep_view());
            assert forall|p: int, q: int|
                0 <= p < q < self.nodes@.len() implies self.nodes.deep_view()[p]
                != self.nodes.deep_view()[q] by {
                assert(self.addrs@[p].addr@ != self.addrs@[q].addr@);
            }
        }
        out
    }

    /// An accepted connection: hand out a fresh worker id and the
    /// snapshot of registered type-ids for the new worker.
    pub fn handle_connection(&mut self) -> (r: (usize, Vec<String>))
        requires
            old(self).wf(),
            old(self).wid < usize::MAX,
        ensures
            final(self).wf(),
            *final(self) == (World {
                wid: final(self).wid,
                workers: final(self).workers,
                ..*old(self)
            }),
            final(self).wid == old(self).wid + 1,
            final(self).workers@ == old(self).workers@.push((old(self).wid + 1) as usize),
            r.0 == final(self).wid,
            r.1.deep_view() == old(self).handlers.deep_view(),
    {
        self.wid = self.wid + 1;
        self.workers.push(self.wid);
        let snapshot = crate::worker::clone_strings(&self.handlers);
        proof {
            assert forall|p: int, q: int|
                0 <= p < q < self.workers@.len() implies self.workers@[p] != self.workers@[q] by {
                if q == self.workers@.len() - 1 {
                    assert(old(self).workers@[p] <= old(self).wid);
                }
            }
        }
        (self.wid, snapshot)
    }

    /// A worker's connection ended: drop it from the table. The
    /// result says whether this completed a shutdown in progress.
    pub fn handle_worker_disconnected(&mut self, msg: WorkerDisconnected) -> (done: bool)
        requires
            old(self).wf(),
        ensures
            final(self).wf(),
            *final(self) == (World { workers: final(self).workers, ..*old(self) }),
            final(self).workers@ == drop_worker(old(self).workers@, msg.0),
            done == (final(self).exit && final(self).workers@.len() == 0),
    {
        let ghost prev = self.workers@;
        let mut kept: Vec<usize> = Vec::new();
        let mut i: usize = 0;
        proof {
            assert(prev.subrange(0, 0) =~= Seq::<usize>::empty());
            lemma_drop_worker_empty(prev.subrange(0, 0), msg.0);
        }
        #[verifier::loop_isolation(false)]
        while i < self.workers.len()
            invariant
                i <= self.workers@.len(),
                self.workers@ == prev,
                kept@ == drop_worker(prev.subrange(0, i as int), msg.0),
            decreases self.workers@.len() - i,
        {
            let w = self.workers[i];
            proof {
                assert(prev.subrange(0, i + 1) =~= prev.subrange(0, i as int).push(
                    prev[i as int],
                ));
                lemma_drop_worker_unfold(prev.subrange(0, i + 1), msg.0);
                assert(prev.subrange(0, i + 1).drop_last() =~= prev.subrange(0, i as int));
            }
            if w != msg.0 {
                kept.push(w);
            }
            i = i + 1;
        }
        proof {
            assert(prev.subrange(0, prev.len() as int) =~= prev);
        }
        self.workers = kept;
        proof {
            lemma_drop_worker_distinct(prev, msg.0);
            assert forall|p: int| 0 <= p < self.workers@.len() implies #[trigger] self.workers@[p]
                <= self.wid by {
                lemma_drop_worker_member(prev, msg.0, p);
                let w = choose|w: int| 0 <= w < prev.len() && prev[w] == self.workers@[p];
                assert(prev[w] <= old(self).wid);
            }
        }
        self.exit && self.workers.len() == 0
    }

    /// An inbound handshake arrived for this peer address: reconnect
    /// the existing connector, or record the address and have a new
    /// connector created. The peer table keeps one entry per address.
    pub fn handle_node_connected(&mut self, msg: NodeConnected) -> (r: NodeConnectedOutcome)
        requires
            old(self).wf(),
        ensures
            final(self).wf(),
            *final(self) == (World { nodes: final(self).nodes, ..*old(self) }),
            old(self).nodes.deep_view().contains(msg.0@) ==> final(self).nodes@ == old(
                self,
            ).nodes@ && (r matches NodeConnectedOutcome::Reconnect(a) && a@ == msg.0@),
            !old(self).nodes.deep_view().contains(msg.0@) ==> final(self).nodes.deep_view()
                == old(self).nodes.deep_view().push(msg.0@) && (r
                matches NodeConnectedOutcome::CreateLink(a) && a@ == msg.0@),
    {
        let mut j: usize = 0;
        #[verifier::loop_isolation(false)]
        while j < self.nodes.len()
            invariant
                j <= self.nodes@.len(),
                forall|t: int| 0 <= t < j ==> self.nodes.deep_view()[t] != msg.0@,
                self == old(self),
            decreases self.nodes@.len() - j,
        {
            proof {
                assert(self.nodes.deep_view()[j as int] == self.nodes@[j as int]@);
            }
            if self.nodes[j].eq(&msg.0) {
                proof {
                    assert(self.nodes.deep_view().contains(msg.0@));
                }
                return NodeConnectedOutcome::Reconnect(msg.0);
            }
            j = j + 1;
        }
        proof {
            if self.nodes.deep_view().contains(msg.0@) {
                let w = choose|w: int|
                    0 <= w < self.nodes.deep_view().len() && self.nodes.deep_view()[w] == msg.0@;
                assert(self.nodes.deep_view()[w] != msg.0@);
            }
        }
        let ghost prev = self.nodes.deep_view();
        let a = msg.0.clone();
        self.nodes.push(msg.0);
        proof {
            assert(self.nodes.deep_view() =~= prev.push(a@)) by {
                assert(forall|t: int|
                    0 <= t < prev.len() ==> self.nodes.deep_view()[t] == prev[t]);
                assert(self.nodes.deep_view()[prev.len() as int] == a@);
            }
            assert forall|p: int, q: int|
                0 <= p < q < self.nodes@.len() implies self.nodes.deep_view()[p]
                != self.nodes.deep_view()[q] by {
                if q == self.nodes@.len() - 1 {
                    assert(!prev.contains(self.nodes.deep_view()[q]));
                    assert(prev[p] == self.nodes.deep_view()[p]);
                }
            }
        }
        NodeConnectedOutcome::CreateLink(a)
    }

    /// A graceful shutdown request: the first one either finishes at
    /// once (no workers) or asks every worker to stop; later ones do
    /// nothing.
    pub fn stop(&mut self) -> (r: StopOutcome)
        requires
            old(self).wf(),
        ensures
            final(self).wf(),
            *final(self) == (World { exit: final(self).exit, ..*old(self) }),
            final(self).exit == true,
            old(self).exit ==> r is AlreadyStopping,
            !old(self).exit && old(self).workers@.len() == 0 ==> r is Finished,
            !old(self).exit && old(self).workers@.len() > 0 ==> (r
                matches StopOutcome::StopWorkers(ids) && ids@ == old(self).workers@),
    {
        if self.exit {
            return StopOutcome::AlreadyStopping;
        }
        self.exit = true;
        if self.workers.len() == 0 {
            StopOutcome::Finished
        } else {
            let mut ids: Vec<usize> = Vec::new();
            let mut i: usize = 0;
            #[verifier::loop_isolation(false)]
            while i < self.workers.len()
                invariant
                    i <= self.workers@.len(),
                    ids@ == self.workers@.subrange(0, i as int),
                decreases self.workers@.len() - i,
            {
                ids.push(self.workers[i]);
                proof {
                    assert(self.workers@.subrange(0, i + 1) =~= self.workers@.subrange(
                        0,
                        i as int,
                    ).push(self.workers@[i as int]));
                }
                i = i + 1;
            }
            proof {
                assert(self.workers@.subrange(0, self.workers@.len() as int)
                    =~= self.workers@);
            }
            StopOutcome::StopWorkers(ids)
        }
    }

    /// A peer advertised the types it supports: every proxy whose
    /// type is in the advertisement learns the node as a provider.
    /// Advertisements from addresses without a peer-table entry are
    /// dropped.
    pub fn handle_node_supported_types(&mut self, msg: &NodeSupportedTypes)
        requires
            old(self).wf(),
        ensures
            final(self).wf(),
            *final(self) == (World { recipients: final(self).recipients, ..*old(self) }),
            final(self).recipients@.len() == old(self).recipients@.len(),
            !old(self).nodes.deep_view().contains(msg.node@) ==> final(self).recipients@ == old(
                self,
            ).recipients@,
            old(self).nodes.deep_view().contains(msg.node@) ==> (forall|k: int|
                0 <= k < old(self).recipients@.len() ==> {
                    let po = old(self).recipients@[k];
                    let pn = #[trigger] final(self).recipients@[k];
                    &&& pn.type_id == po.type_id
                    &&& (msg.types.deep_view().contains(po.type_id@) ==> pn.nodes.deep_view()
                        == dir_step(po.nodes.deep_view(), DirEvent::Advertise(msg.node@)))
                    &&& (!msg.types.deep_view().contains(po.type_id@) ==> pn.nodes == po.nodes)
                }),
    {
        let mut j: usize = 0;
        #[verifier::loop_isolation(false)]
        while j < self.nodes.len()
            invariant
                j <= self.nodes@.len(),
                forall|t: int| 0 <= t < j ==> self.nodes.deep_view()[t] != msg.node@,
                self == old(self),
            decreases self.nodes@.len() - j,
        {
            proof {
                assert(self.nodes.deep_view()[j as int] == self.nodes@[j as int]@);
            }
            if self.nodes[j].eq(&msg.node) {
                break ;
            }
            j = j + 1;
        }
        if j == self.nodes.len() {
            proof {
                if self.nodes.deep_view().contains(msg.node@) {
                    let w = choose|w: int|
                        0 <= w < self.nodes.deep_view().len() && self.nodes.deep_view()[w]
                            == msg.node@;
                    assert(self.nodes.deep_view()[w] != msg.node@);
                }
            }
            return ;
        }
        proof {
            assert(self.nodes.deep_view().contains(msg.node@));
        }
        let ghost orig = self.recipients@;
        let ghost tdv = msg.types.deep_view();
        let mut i: usize = 0;
        proof {
            assert(tdv.subrange(0, 0) =~= Seq::<Seq<char>>::empty());
        }
        #[verifier::loop_isolation(false)]
        while i < msg.types.len()
            invariant
                i <= msg.types@.len(),
                tdv.len() == msg.types@.len(),
                self.recipients@.len() == orig.len(),
                *self == (World { recipients: self.recipients, ..*old(self) }),
                forall|k: int|
                    0 <= k < orig.len() ==> {
                        let po = orig[k];
                        let pn = #[trigger] self.recipients@[k];
                        &&& pn.type_id == po.type_id
                        &&& pn.wf()
                        &&& (tdv.subrange(0, i as int).contains(po.type_id@)
                            ==> pn.nodes.deep_view() == dir_step(
                            po.nodes.deep_view(),
                            DirEvent::Advertise(msg.node@),
                        ))
                        &&& (!tdv.subrange(0, i as int).contains(po.type_id@) ==> pn.nodes
                            == po.nodes)
                    },
            decreases msg.types@.len() - i,
        {
            let ghost t = tdv[i as int];
            proof {
                assert(msg.types@[i as int]@ == t);
                assert(tdv.subrange(0, i + 1) =~= tdv.subrange(0, i as int).push(t));
            }
            let mut w: usize = 0;
            #[verifier::loop_isolation(false)]
            while w < self.recipients.len()
                invariant
                    w <= self.recipients@.len(),
                    forall|u: int|
                        0 <= u < w ==> (#[trigger] self.recipients@[u]).type_id@ != t,
                    i < msg.types@.len(),
                    tdv[i as int] == t,
                    msg.types@[i as int]@ == t,
                decreases self.recipients@.len() - w,
            {
                let hit = self.recipients[w].type_id.eq(&msg.types[i]);
                if hit {
                    break ;
                }
                w = w + 1;
            }
            if w < self.recipients.len() {
                let ghost before = self.recipients@;
                let mut prox = self.recipients.remove(w);
                let tclone = msg.types[i].clone();
                let nclone = msg.node.clone();
                prox.handle_type_supported(TypeSupported { type_id: tclone, node_id: nclone });
                self.recipients.insert(w, prox);
                proof {
                    assert(self.recipients@ =~= before.update(w as int, self.recipients@[w as int]));
                    let pn = self.recipients@[w as int];
                    assert(pn.type_id == before[w as int].type_id);
                    assert(pn.nodes.deep_view() == dir_step(
                        before[w as int].nodes.deep_view(),
                        DirEvent::Advertise(msg.node@),
                    ));
                    assert(before[w as int].type_id@ == t);
                    if tdv.subrange(0, i as int).contains(t) {
                        lemma_advertise_idempotent(orig[w as int].nodes.deep_view(), msg.node@);
                    }
                    assert forall|k: int| 0 <= k < orig.len() implies {
                        let po = orig[k];
                        let pk = #[trigger] self.recipients@[k];
                        &&& pk.type_id == po.type_id
                        &&& pk.wf()
                        &&& (tdv.subrange(0, i + 1).contains(po.type_id@)
                            ==> pk.nodes.deep_view() == dir_step(
                            po.nodes.deep_view(),
                            DirEvent::Advertise(msg.node@),
                        ))
                        &&& (!tdv.subrange(0, i + 1).contains(po.type_id@) ==> pk.nodes
                            == po.nodes)
                    } by {
                        lemma_contains_push(tdv.subrange(0, i as int), t, orig[k].type_id@);
                        if k != w {
                            assert(self.recipients@[k] == before[k]);
                            assert(orig[k].type_id@ != t) by {
                                assert(before[k].type_id == orig[k].type_id);
                                assert(before[w as int].type_id == orig[w as int].type_id);
                                if orig[k].type_id@ == t {
                                    if k < w {
                                        assert(orig[k].type_id@ != orig[w as int].type_id@);
                                    } else {
                                        assert(orig[w as int].type_id@ != orig[k].type_id@);
                                    }
                                }
                            }
                        }
                    }
                }
            } else {
                proof {
                    assert forall|k: int| 0 <= k < orig.len() implies {
                        let po = orig[k];
                        let pk = #[trigger] self.recipients@[k];
                        &&& pk.type_id == po.type_id
                        &&& pk.wf()
                        &&& (tdv.subrange(0, i + 1).contains(po.type_id@)
                            ==> pk.nodes.deep_view() == dir_step(
                            po.nodes.deep_view(),
                            DirEvent::Advertise(msg.node@),
                        ))
                        &&& (!tdv.subrange(0, i + 1).contains(po.type_id@) ==> pk.nodes
                            == po.nodes)
                    } by {
                        lemma_contains_push(tdv.subrange(0, i as int), t, orig[k].type_id@);
                        assert(self.recipients@[k].type_id@ != t);
                        assert(orig[k].type_id@ != t);
                    }
                }
            }
            i = i + 1;
        }
        proof {
            assert(tdv.subrange(0, tdv.len() as int) =~= tdv);
            assert(tdv.subrange(0, msg.types@.len() as int) == tdv);
        }
    }

    /// A peer went away: it leaves the peer table and every proxy's
    /// provider set.
    pub fn handle_node_gone(&mut self, msg: &NodeGone)
        requires
            old(self).wf(),
        ensures
            final(self).wf(),
            *final(self) == (World {
                nodes: final(self).nodes,
                recipients: final(self).recipients,
                ..*old(self)
            }),
            final(self).nodes.deep_view() == crate::recipient::drop_node(
                old(self).nodes.deep_view(),
                msg.0@,
            ),
            final(self).recipients@.len() == old(self).recipients@.len(),
            forall|k: int|
                0 <= k < old(self).recipients@.len() ==> {
                    let po = old(self).recipients@[k];
                    let pn = #[trigger] final(self).recipients@[k];
                    &&& pn.type_id == po.type_id
                    &&& pn.nodes.deep_view() == dir_step(
                        po.nodes.deep_view(),
                        DirEvent::Gone(msg.0@),
                    )
                },
    {
        let ghost prev = self.nodes.deep_view();
        let mut kept: Vec<String> = Vec::new();
        let mut i: usize = 0;
        proof {
            assert(prev.subrange(0, 0) =~= Seq::<Seq<char>>::empty());
            crate::recipient::lemma_drop_node_empty(prev.subrange(0, 0), msg.0@);
        }
        #[verifier::loop_isolation(false)]
        while i < self.nodes.len()
            invariant
                i <= self.nodes@.len(),
                prev == self.nodes.deep_view(),
                prev.len() == self.nodes@.len(),
                kept.deep_view() == crate::recipient::drop_node(
                    prev.subrange(0, i as int),
                    msg.0@,
                ),
            decreases self.nodes@.len() - i,
        {
            proof {
                assert(self.nodes.deep_view()[i as int] == self.nodes@[i as int]@);
            }
            let keep = !self.nodes[i].eq(&msg.0);
            proof {
                assert(prev.subrange(0, i + 1) =~= prev.subrange(0, i as int).push(
                    prev[i as int],
                ));
                crate::recipient::lemma_drop_node_unfold(prev.subrange(0, i + 1), msg.0@);
                assert(prev.subrange(0, i + 1).drop_last() =~= prev.subrange(0, i as int));
            }
            if keep {
                let s = self.nodes[i].clone();
                proof {
                    assert(s@ == prev[i as int]);
                }
                let ghost kprev = kept.deep_view();
                kept.push(s);
                proof {
                    assert(kept.deep_view() =~= kprev.push(prev[i as int])) by {
                        assert(forall|t: int|
                            0 <= t < kprev.len() ==> kept.deep_view()[t] == kprev[t]);
                        assert(kept.deep_view()[kprev.len() as int] == prev[i as int]);
                    }
                }
            }
            i = i + 1;
        }
        proof {
            assert(prev.subrange(0, prev.len() as int) =~= prev);
        }
        self.nodes = kept;
        proof {
            crate::recipient::lemma_drop_node_distinct(prev, msg.0@);
        }
        let ghost orig = self.recipients@;
        let ghost nodes_now = self.nodes;
        let mut k: usize = 0;
        #[verifier::loop_isolation(false)]
        while k < self.recipients.len()
            invariant
                k <= self.recipients@.len(),
                self.recipients@.len() == orig.len(),
                self.nodes == nodes_now,
                nodes_now.deep_view() == crate::recipient::drop_node(prev, msg.0@),
                *self == (World {
                    nodes: self.nodes,
                    recipients: self.recipients,
                    ..*old(self)
                }),
                forall|u: int|
                    0 <= u < orig.len() ==> {
                        let po = orig[u];
                        let pu = #[trigger] self.recipients@[u];
                        &&& pu.type_id == po.type_id
                        &&& pu.wf()
                        &&& (u < k ==> pu.nodes.deep_view() == dir_step(
                            po.nodes.deep_view(),
                            DirEvent::Gone(msg.0@),
                        ))
                        &&& (u >= k ==> pu == po)
                    },
            decreases self.recipients@.len() - k,
        {
            let ghost before = self.recipients@;
            let mut prox = self.recipients.remove(k);
            prox.handle_node_gone(msg);
            self.recipients.insert(k, prox);
            proof {
                assert(self.recipients@ =~= before.update(k as int, self.recipients@[k as int]));
            }
            k = k + 1;
        }
    }

    /// An interrupt, termination or quit signal starts a graceful
    /// shutdown; anything else is ignored.
    pub fn handle_signal(&mut self, sig: SignalKind) -> (r: Option<StopOutcome>)
        requires
            old(self).wf(),
        ensures
            final(self).wf(),
            sig == SignalKind::Other ==> *final(self) == *old(self) && r is None,
            sig != SignalKind::Other ==> {
                &&& *final(self) == (World { exit: final(self).exit, ..*old(self) })
                &&& final(self).exit == true
                &&& (old(self).exit ==> (r matches Some(o) && o is AlreadyStopping))
                &&& (!old(self).exit && old(self).workers@.len() == 0 ==> (r matches Some(o)
                    && o is Finished))
                &&& (!old(self).exit && old(self).workers@.len() > 0 ==> (r matches Some(o)
                    && o matches StopOutcome::StopWorkers(ids) && ids@ == old(self).workers@))
            },
    {
        match sig {
            SignalKind::Int => Some(self.stop()),
            SignalKind::Term => Some(self.stop()),
            SignalKind::Quit => Some(self.stop()),
            SignalKind::Other => None,
        }
    }
}

proof fn lemma_contains_push(s: Seq<Seq<char>>, x: Seq<char>, y: Seq<char>)
    ensures
        s.push(x).contains(y) <==> (s.contains(y) || x == y),
{
    if s.contains(y) {
        let w = choose|w: int| 0 <= w < s.len() && s[w] == y;
        assert(s.push(x)[w] == y);
    }
    if x == y {
        assert(s.push(x)[s.len() as int] == y);
    }
    if s.push(x).contains(y) {
        let w = choose|w: int| 0 <= w < s.push(x).len() && s.push(x)[w] == y;
        if w < s.len() {
            assert(s[w] == y);
        }
    }
}

/// Advertising a provider twice is the same as advertising it once.
proof fn lemma_advertise_idempotent(s: Seq<Seq<char>>, n: Seq<char>)
    ensures
        dir_step(dir_step(s, DirEvent::Advertise(n)), DirEvent::Advertise(n)) == dir_step(
            s,
            DirEvent::Advertise(n),
        ),
{
    if !s.contains(n) {
        assert(s.push(n)[s.len() as int] == n);
        assert(s.push(n).contains(n));
    }
}

} // verus!
