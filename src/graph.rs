//! The node arena and its wiring.
use crate::collections::{
    order_get, order_items, order_len, order_new, order_try_push, queue_is_empty, queue_items, queue_new,
    queue_pop_front, queue_push_back, MAX_NODES,
};
use arrayvec::ArrayVec;
use heapless::Deque;
use vstd::prelude::*;

verus! {

/// Signal input ports of a node.
pub const MAX_SIGNAL_IN: usize = 32;

/// Signal output ports of a node.
pub const MAX_SIGNAL_OUT: usize = 32;

/// Data input ports of a node.
pub const MAX_DATA_IN: usize = 32;

/// Data output ports of a node.
pub const MAX_DATA_OUT: usize = 32;

/// Where an input port reads from: the producing node and its output port.
pub type Wire = Option<(usize, usize)>;

/// The identity of a registered node.
pub struct Handle(usize);

impl View for Handle {
    type V = usize;

    closed spec fn view(&self) -> usize {
        self.0
    }
}

impl Handle {
    /// The arena slot of the node.
    pub fn index(&self) -> (r: usize)
        ensures
            r == self@,
    {
        self.0
    }
}

pub(crate) struct Node<G> {
    pub(crate) gadget: G,
    pub(crate) signal_inputs: Vec<Wire>,
    pub(crate) data_inputs: Vec<Wire>,
}

/// The wires of a slot: its signal inputs followed by its data inputs, or
/// nothing for a free slot.
pub(crate) open spec fn slot_wires<G>(slot: Option<Node<G>>) -> Seq<Wire> {
    match slot {
        Some(n) => n.signal_inputs@ + n.data_inputs@,
        None => Seq::empty(),
    }
}

/// Whether a wire reads from node `p`.
pub open spec fn reads_from(w: Wire, p: int) -> bool {
    match w {
        Some(e) => e.0 == p,
        None => false,
    }
}

/// Node `p` feeds node `y`: some input of `y` reads from `p`.
pub open spec fn feeds(ins: Seq<Seq<Wire>>, p: int, y: int) -> bool {
    exists|k: int| 0 <= k < ins[y].len() && #[trigger] reads_from(ins[y][k], p)
}

/// `ord` lists the nodes `0..n` once each, every producer before its consumers.
pub open spec fn is_schedule(n: nat, ins: Seq<Seq<Wire>>, ord: Seq<usize>) -> bool {
    &&& ord.no_duplicates()
    &&& forall|k: int| 0 <= k < ord.len() ==> ord[k] < n
    &&& forall|i: int| 0 <= i < n ==> #[trigger] ord.contains(i as usize)
    &&& forall|j: int, k: int|
        0 <= j < ord.len() && 0 <= k < ord.len() && #[trigger] feeds(ins, ord[k] as int, ord[j] as int)
            ==> k < j
}

/// The wiring among nodes `0..n` admits a schedule.
pub open spec fn acyclic(n: nat, ins: Seq<Seq<Wire>>) -> bool {
    exists|ord: Seq<usize>| is_schedule(n, ins, ord)
}

/// Every wire of nodes `0..n` reads from one of those nodes.
pub open spec fn wires_in_range(n: nat, ins: Seq<Seq<Wire>>) -> bool {
    forall|y: int, k: int|
        0 <= y < n && 0 <= k < ins[y].len() ==> match #[trigger] ins[y][k] {
            Some(e) => e.0 < n,
            None => true,
        }
}

/// A fixed-capacity graph of gadgets, processed in chunks of at most
/// `MIN_BUFF_SIZE` frames.
pub struct ConnectionGraph<G, const MIN_BUFF_SIZE: usize> {
    pub(crate) nodes: Vec<Option<Node<G>>>,
    pub(crate) node_count: usize,
    pub(crate) execution_order: ArrayVec<usize, 64>,
}

impl<G, const MIN_BUFF_SIZE: usize> ConnectionGraph<G, MIN_BUFF_SIZE> {
    /// Number of registered nodes; they occupy slots `0..count()`.
    pub closed spec fn count(&self) -> nat {
        self.node_count as nat
    }

    /// For each slot, its signal input wires followed by its data input wires.
    pub closed spec fn inputs(&self) -> Seq<Seq<Wire>> {
        Seq::new(self.nodes@.len(), |i: int| slot_wires(self.nodes@[i]))
    }

    /// The current execution order.
    pub closed spec fn order(&self) -> Seq<usize> {
        order_items(self.execution_order)
    }

    /// The gadget in slot `i`.
    pub closed spec fn gadget(&self, i: int) -> G {
        self.nodes@[i].unwrap().gadget
    }

    /// The arena is laid out and wired consistently, and the execution order
    /// is a schedule of it.
    pub closed spec fn wf(&self) -> bool {
        &&& self.nodes@.len() == MAX_NODES
        &&& self.node_count <= MAX_NODES
        &&& forall|i: int| 0 <= i < MAX_NODES ==> (#[trigger] self.nodes@[i] is Some <==> i < self.node_count)
        &&& forall|i: int| 0 <= i < self.node_count ==> {
            &&& (#[trigger] self.nodes@[i]).unwrap().signal_inputs@.len() == MAX_SIGNAL_IN
            &&& self.nodes@[i].unwrap().data_inputs@.len() == MAX_DATA_IN
        }
        &&& wires_in_range(self.count(), self.inputs())
        &&& is_schedule(self.count(), self.inputs(), self.order())
        &&& self.order().len() == self.count()
    }

    /// An empty graph.
    pub fn new() -> (r: Self)
        ensures
            r.wf(),
            r.count() == 0,
            r.order() == Seq::<usize>::empty(),
    {
        let mut nodes: Vec<Option<Node<G>>> = Vec::new();
        let mut i: usize = 0;
        while i < MAX_NODES
            invariant
                i <= MAX_NODES,
                nodes@.len() == i,
                forall|j: int| 0 <= j < i ==> nodes@[j] is None,
            decreases MAX_NODES - i,
        {
            nodes.push(None);
            i = i + 1;
        }
        let r = ConnectionGraph { nodes, node_count: 0, execution_order: order_new() };
        assert(r.inputs().len() == MAX_NODES);
        r
    }
}


/// `n` unwired input ports.
fn unwired(n: usize) -> (r: Vec<Wire>)
    ensures
        r@ == Seq::new(n as nat, |_k: int| None::<(usize, usize)>),
{
    let mut r: Vec<Wire> = Vec::new();
    let mut i: usize = 0;
    while i < n
        invariant
            i <= n,
            r@ == Seq::new(i as nat, |_k: int| None::<(usize, usize)>),
        decreases n - i,
    {
        r.push(None);
        i = i + 1;
        assert(r@ =~= Seq::new(i as nat, |_k: int| None::<(usize, usize)>));
    }
    r
}

/// The wires of a freshly registered node.
pub open spec fn fresh_wires() -> Seq<Wire> {
    Seq::new((MAX_SIGNAL_IN + MAX_DATA_IN) as nat, |_k: int| None::<(usize, usize)>)
}

impl<G, const MIN_BUFF_SIZE: usize> ConnectionGraph<G, MIN_BUFF_SIZE> {
    /// Installs `gadget` in the first free slot, unwired and appended to the
    /// execution order. A full arena hands the gadget back untouched.
    pub fn add_node(&mut self, gadget: G) -> (r: Result<Handle, G>)
        requires
            old(self).wf(),
        ensures
            final(self).wf(),
            r is Ok <==> old(self).count() < MAX_NODES,
            r matches Ok(h) ==> {
                &&& h@ == old(self).count()
                &&& final(self).count() == old(self).count() + 1
                &&& final(self).inputs() == old(self).inputs().update(h@ as int, fresh_wires())
                &&& final(self).order() == old(self).order().push(h@)
                &&& final(self).gadget(h@ as int) == gadget
                &&& forall|i: int| 0 <= i < old(self).count() ==> final(self).gadget(i) == old(self).gadget(i)
            },
            r matches Err(g) ==> g == gadget && *final(self) == *old(self),
    {
        let mut j: usize = 0;
        while j < MAX_NODES
            invariant
                self.wf(),
                *self == *old(self),
                j <= self.node_count,
            decreases MAX_NODES - j,
        {
            if self.nodes[j].is_none() {
                let ghost old_ins = self.inputs();
                let ghost old_ord = self.order();
                assert(j == self.node_count);
                let sig = unwired(MAX_SIGNAL_IN);
                let dat = unwired(MAX_DATA_IN);
                assert(sig@ + dat@ =~= fresh_wires());
                self.nodes.set(j, Some(Node { gadget, signal_inputs: sig, data_inputs: dat }));
                self.node_count = j + 1;
                assert(order_items(self.execution_order).len() < 64);
                let ok = crate::collections::order_try_push(&mut self.execution_order, j);
                assert(self.inputs() =~= old_ins.update(j as int, fresh_wires()));
                proof {
                    let ins = self.inputs();
                    let ord = self.order();
                    assert forall|y: int, k: int| 0 <= y < self.count() && 0 <= k < ins[y].len()
                        implies match #[trigger] ins[y][k] {
                            Some(e) => e.0 < self.count(),
                            None => true,
                        } by {
                        if y < j {
                            assert(ins[y] == old_ins[y]);
                        }
                    }
                    assert forall|i: int| 0 <= i < self.count() implies #[trigger] ord.contains(i as usize) by {
                        if i < j {
                            assert(old_ord.contains(i as usize));
                            let t = choose|t: int| 0 <= t < old_ord.len() && old_ord[t] == i as usize;
                            assert(ord[t] == i as usize);
                        } else {
                            assert(ord[old_ord.len() as int] == i as usize);
                        }
                    }
                    assert forall|a: int, b: int|
                        0 <= a < ord.len() && 0 <= b < ord.len() && #[trigger] feeds(ins, ord[b] as int, ord[a] as int)
                        implies b < a by {
                        let k = choose|k: int| 0 <= k < ins[ord[a] as int].len() && #[trigger] reads_from(ins[ord[a] as int][k], ord[b] as int);
                        if a == old_ord.len() {
                            assert(ins[j as int] == fresh_wires());
                        } else if b == old_ord.len() {
                            assert(ins[ord[a] as int] == old_ins[ord[a] as int]);
                            assert(ins[ord[a] as int][k] matches Some(e) && e.0 < j);
                        } else {
                            assert(ins[ord[a] as int] == old_ins[ord[a] as int]);
                            assert(feeds(old_ins, old_ord[b] as int, old_ord[a] as int));
                        }
                    }
                }
                return Ok(Handle(j));
            }
            j = j + 1;
        }
        Err(gadget)
    }
}


/// How many of the first `k` flags are set.
pub open spec fn count_true(s: Seq<bool>, k: int) -> nat
    decreases k,
{
    if k <= 0 {
        0
    } else {
        count_true(s, k - 1) + if s[k - 1] { 1nat } else { 0nat }
    }
}

proof fn lemma_count_set(s: Seq<bool>, i: int, k: int)
    requires
        0 <= i < s.len(),
        0 <= k <= s.len(),
    ensures
        count_true(s.update(i, true), k) == count_true(s, k) + if i < k && !s[i] { 1nat } else { 0nat },
    decreases k,
{
    if k > 0 {
        lemma_count_set(s, i, k - 1);
    }
}

proof fn lemma_count_bound(s: Seq<bool>, n: int, k: int)
    requires
        0 <= n,
        0 <= k,
        forall|j: int| 0 <= j < k && #[trigger] s[j] ==> j < n,
    ensures
        count_true(s, k) <= n,
        count_true(s, k) <= k,
    decreases k,
{
    if k > 0 {
        lemma_count_bound(s, n, k - 1);
        if k > n {
            lemma_count_flat(s, n, k);
        }
    }
}

proof fn lemma_count_flat(s: Seq<bool>, n: int, k: int)
    requires
        0 <= n <= k,
        forall|j: int| n <= j < k ==> !#[trigger] s[j],
    ensures
        count_true(s, k) == count_true(s, n),
    decreases k,
{
    if k > n {
        lemma_count_flat(s, n, k - 1);
    }
}

proof fn lemma_count_all(s: Seq<bool>, n: int)
    requires
        0 <= n,
        forall|j: int| 0 <= j < n ==> #[trigger] s[j],
    ensures
        count_true(s, n) == n,
    decreases n,
{
    if n > 0 {
        lemma_count_all(s, n - 1);
    }
}

/// Every wired input of node `y` reads from a node flagged in `em`.
pub open spec fn all_fed(ins: Seq<Seq<Wire>>, y: int, em: Seq<bool>) -> bool {
    forall|k: int| 0 <= k < ins[y].len() ==> match #[trigger] ins[y][k] {
        Some(e) => em[e.0 as int],
        None => true,
    }
}

proof fn lemma_stuck_means_cyclic(n: nat, ins: Seq<Seq<Wire>>, ord: Seq<usize>, em: Seq<bool>, queued: Seq<bool>, t: int)
    requires
        is_schedule(n, ins, ord),
        wires_in_range(n, ins),
        n <= em.len(),
        n <= queued.len(),
        forall|i: int| 0 <= i < n && !#[trigger] queued[i] ==> !all_fed(ins, i, em),
        forall|i: int| 0 <= i < n && #[trigger] queued[i] ==> em[i],
        0 <= t <= ord.len(),
    ensures
        forall|u: int| 0 <= u < t ==> em[#[trigger] ord[u] as int],
    decreases t,
{
    if t > 0 {
        lemma_stuck_means_cyclic(n, ins, ord, em, queued, t - 1);
        let y = ord[t - 1] as int;
        assert(all_fed(ins, y, em)) by {
            assert forall|k: int| 0 <= k < ins[y].len() implies match #[trigger] ins[y][k] {
                Some(e) => em[e.0 as int],
                None => true,
            } by {
                if let Some(e) = ins[y][k] {
                    let p: int = e.0 as int;
                    assert(p < n);
                    assert(ord.contains(p as usize));
                    let b = choose|b: int| 0 <= b < ord.len() && ord[b] == e.0;
                    assert(reads_from(ins[y][k], e.0 as int));
                    assert(feeds(ins, ord[b] as int, ord[t - 1] as int));
                }
            }
        }
        assert(y < n);
        assert(queued[y]);
        assert(em[y]);
    }
}

impl<G, const MIN_BUFF_SIZE: usize> ConnectionGraph<G, MIN_BUFF_SIZE> {
    /// The arena is laid out and wired consistently (the order aside).
    pub(crate) closed spec fn laid_out(&self) -> bool {
        &&& self.nodes@.len() == MAX_NODES
        &&& self.node_count <= MAX_NODES
        &&& forall|i: int| 0 <= i < MAX_NODES ==> (#[trigger] self.nodes@[i] is Some <==> i < self.node_count)
        &&& forall|i: int| 0 <= i < self.node_count ==> {
            &&& (#[trigger] self.nodes@[i]).unwrap().signal_inputs@.len() == MAX_SIGNAL_IN
            &&& self.nodes@[i].unwrap().data_inputs@.len() == MAX_DATA_IN
        }
        &&& wires_in_range(self.count(), self.inputs())
    }

    /// Whether every wired input of node `y` reads from an emitted node.
    fn is_ready(&self, y: usize, emitted: &Vec<bool>) -> (r: bool)
        requires
            self.laid_out(),
            y < self.node_count,
            emitted@.len() == MAX_NODES,
        ensures
            r == all_fed(self.inputs(), y as int, emitted@),
    {
        let ghost ins = self.inputs();
        let node = self.nodes[y].as_ref().unwrap();
        assert(ins[y as int] == node.signal_inputs@ + node.data_inputs@);
        let mut k: usize = 0;
        while k < node.signal_inputs.len()
            invariant
                k <= node.signal_inputs@.len(),
                ins == self.inputs(),
                ins.len() == MAX_NODES,
                ins[y as int] == node.signal_inputs@ + node.data_inputs@,
                wires_in_range(self.count(), ins),
                self.count() <= MAX_NODES,
                y < self.count(),
                emitted@.len() == MAX_NODES,
                forall|q: int| 0 <= q < k ==> match #[trigger] ins[y as int][q] {
                    Some(e) => emitted@[e.0 as int],
                    None => true,
                },
            decreases node.signal_inputs@.len() - k,
        {
            assert(ins[y as int][k as int] == node.signal_inputs@[k as int]);
            if let Some(e) = node.signal_inputs[k] {
                if !emitted[e.0] {
                    assert(!match ins[y as int][k as int] {
                        Some(e) => emitted@[e.0 as int],
                        None => true,
                    });
                    assert(!all_fed(ins, y as int, emitted@));
                    return false;
                }
            }
            k = k + 1;
        }
        let base = node.signal_inputs.len();
        let mut k: usize = 0;
        while k < node.data_inputs.len()
            invariant
                k <= node.data_inputs@.len(),
                base == node.signal_inputs@.len(),
                ins == self.inputs(),
                ins.len() == MAX_NODES,
                ins[y as int] == node.signal_inputs@ + node.data_inputs@,
                wires_in_range(self.count(), ins),
                self.count() <= MAX_NODES,
                y < self.count(),
                emitted@.len() == MAX_NODES,
                forall|q: int| 0 <= q < base + k ==> match #[trigger] ins[y as int][q] {
                    Some(e) => emitted@[e.0 as int],
                    None => true,
                },
            decreases node.data_inputs@.len() - k,
        {
            assert(ins[y as int][base + k] == node.data_inputs@[k as int]);
            if let Some(e) = node.data_inputs[k] {
                if !emitted[e.0] {
                    assert(!match ins[y as int][base + k] {
                        Some(e) => emitted@[e.0 as int],
                        None => true,
                    });
                    assert(!all_fed(ins, y as int, emitted@));
                    return false;
                }
            }
            k = k + 1;
        }
        true
    }
}


/// The ready queue holds distinct, unemitted nodes whose inputs are all
/// emitted; a node that is queued and not yet emitted is in the queue.
pub(crate) open spec fn queue_ok(ins: Seq<Seq<Wire>>, n: nat, q: Seq<usize>, queued: Seq<bool>, em: Seq<bool>) -> bool {
    &&& q.no_duplicates()
    &&& forall|t: int| 0 <= t < q.len() ==> {
        &&& #[trigger] q[t] < n
        &&& queued[q[t] as int]
        &&& !em[q[t] as int]
        &&& all_fed(ins, q[t] as int, em)
    }
    &&& forall|i: int| 0 <= i < MAX_NODES && #[trigger] queued[i] ==> i < n
    &&& forall|i: int| 0 <= i < MAX_NODES && #[trigger] queued[i] && !em[i] ==> q.contains(i as usize)
}

impl<G, const MIN_BUFF_SIZE: usize> ConnectionGraph<G, MIN_BUFF_SIZE> {
    /// Queues, in ascending slot order, every node not yet queued whose
    /// inputs are all emitted.
    fn enqueue_ready(&self, emitted: &Vec<bool>, queued: &mut Vec<bool>, queue: &mut Deque<usize, 64>)
        requires
            self.laid_out(),
            emitted@.len() == MAX_NODES,
            old(queued)@.len() == MAX_NODES,
            queue_ok(self.inputs(), self.count(), queue_items(*old(queue)), old(queued)@, emitted@),
            queue_items(*old(queue)).len() <= count_true(old(queued)@, MAX_NODES as int),
            forall|i: int| 0 <= i < MAX_NODES && #[trigger] emitted@[i] ==> old(queued)@[i],
        ensures
            final(queued)@.len() == MAX_NODES,
            queue_ok(self.inputs(), self.count(), queue_items(*final(queue)), final(queued)@, emitted@),
            count_true(final(queued)@, MAX_NODES as int) - count_true(old(queued)@, MAX_NODES as int)
                == queue_items(*final(queue)).len() - queue_items(*old(queue)).len(),
            forall|i: int| 0 <= i < MAX_NODES && #[trigger] old(queued)@[i] ==> final(queued)@[i],
            forall|i: int| 0 <= i < self.count() && !#[trigger] final(queued)@[i] ==> !all_fed(self.inputs(), i, emitted@),
    {
        let ghost ins = self.inputs();
        let ghost n = self.count();
        let ghost q0 = queue_items(*queue);
        let ghost c0 = count_true(queued@, MAX_NODES as int);
        let mut i: usize = 0;
        while i < self.node_count
            invariant
                self.laid_out(),
                ins == self.inputs(),
                n == self.count(),
                i <= n,
                emitted@.len() == MAX_NODES,
                queued@.len() == MAX_NODES,
                queue_ok(ins, n, queue_items(*queue), queued@, emitted@),
                queue_items(*queue).len() <= count_true(queued@, MAX_NODES as int),
                count_true(queued@, MAX_NODES as int) - c0 == queue_items(*queue).len() - q0.len(),
                forall|j: int| 0 <= j < MAX_NODES && #[trigger] old(queued)@[j] ==> queued@[j],
                forall|j: int| 0 <= j < MAX_NODES && #[trigger] emitted@[j] ==> old(queued)@[j],
                forall|j: int| 0 <= j < i && !#[trigger] queued@[j] ==> !all_fed(ins, j, emitted@),
            decreases n - i,
        {
            if !queued[i] && self.is_ready(i, emitted) {
                let ghost qb = queued@;
                let ghost qs = queue_items(*queue);
                proof {
                    lemma_count_set(qb, i as int, MAX_NODES as int);
                    assert forall|j: int| 0 <= j < MAX_NODES && #[trigger] qb.update(i as int, true)[j] implies j < n by {
                        if j != i {
                            assert(qb[j]);
                        }
                    }
                    lemma_count_bound(qb.update(i as int, true), n as int, MAX_NODES as int);
                }
                queued.set(i, true);
                assert(queued@ == qb.update(i as int, true));
                let pushed = queue_push_back(queue, i);
                let ghost qn = queue_items(*queue);
                assert(qn == qs.push(i));
                assert(!qs.contains(i)) by {
                    if qs.contains(i) {
                        let t = choose|t: int| 0 <= t < qs.len() && qs[t] == i;
                        assert(qb[qs[t] as int]);
                    }
                }
                assert forall|t: int| 0 <= t < qn.len() implies {
                    &&& #[trigger] qn[t] < n
                    &&& queued@[qn[t] as int]
                    &&& !emitted@[qn[t] as int]
                    &&& all_fed(ins, qn[t] as int, emitted@)
                } by {
                    if t < qs.len() {
                        assert(qn[t] == qs[t]);
                    } else {
                        assert(qn[t] == i);
                        assert(!old(queued)@[i as int]);
                    }
                }
                assert forall|j: int| 0 <= j < MAX_NODES && #[trigger] queued@[j] && !emitted@[j] implies qn.contains(j as usize) by {
                    if j == i {
                        assert(qn[qs.len() as int] == i);
                    } else {
                        assert(qb[j]);
                        assert(qs.contains(j as usize));
                        let t = choose|t: int| 0 <= t < qs.len() && qs[t] == j as usize;
                        assert(qn[t] == qs[t]);
                    }
                }
                assert forall|j: int| 0 <= j < MAX_NODES && #[trigger] queued@[j] implies j < n by {
                    if j != i {
                        assert(qb[j]);
                    }
                }
                assert forall|j: int| 0 <= j < i + 1 && !#[trigger] queued@[j] implies !all_fed(ins, j, emitted@) by {
                    assert(!qb[j]);
                }
            }
            i = i + 1;
        }
    }
}


/// The emitted prefix of an order: each entry's producers come before it.
pub(crate) open spec fn fed_before(ins: Seq<Seq<Wire>>, ord: Seq<usize>) -> bool {
    forall|a: int, k: int| 0 <= a < ord.len() && 0 <= k < ins[ord[a] as int].len() ==>
        match #[trigger] ins[ord[a] as int][k] {
            Some(e) => ord.subrange(0, a).contains(e.0),
            None => true,
        }
}

/// `n` flags, all clear.
fn cleared(n: usize) -> (r: Vec<bool>)
    ensures
        r@ == Seq::new(n as nat, |_k: int| false),
{
    let mut r: Vec<bool> = Vec::new();
    let mut i: usize = 0;
    while i < n
        invariant
            i <= n,
            r@ == Seq::new(i as nat, |_k: int| false),
        decreases n - i,
    {
        r.push(false);
        i = i + 1;
        assert(r@ =~= Seq::new(i as nat, |_k: int| false));
    }
    r
}

impl<G, const MIN_BUFF_SIZE: usize> ConnectionGraph<G, MIN_BUFF_SIZE> {
    /// Kahn's algorithm over the current wiring: a schedule of every node,
    /// or `None` exactly when the wiring has a cycle.
    fn compute_order(&self) -> (r: Option<ArrayVec<usize, 64>>)
        requires
            self.laid_out(),
        ensures
            r matches Some(o) ==> is_schedule(self.count(), self.inputs(), order_items(o))
                && order_items(o).len() == self.count(),
            r is None ==> !acyclic(self.count(), self.inputs()),
    {
        let ghost ins = self.inputs();
        let ghost n = self.count();
        let mut emitted = cleared(MAX_NODES);
        let mut queued = cleared(MAX_NODES);
        let mut queue = queue_new();
        let mut order = order_new();
        proof {
            lemma_count_flat(queued@, 0, MAX_NODES as int);
            assert(queue_items(queue) == Seq::<usize>::empty());
        }
        self.enqueue_ready(&emitted, &mut queued, &mut queue);
        while !queue_is_empty(&queue)
            invariant
                self.laid_out(),
                ins == self.inputs(),
                n == self.count(),
                emitted@.len() == MAX_NODES,
                queued@.len() == MAX_NODES,
                queue_ok(ins, n, queue_items(queue), queued@, emitted@),
                order_items(order).len() + queue_items(queue).len() == count_true(queued@, MAX_NODES as int),
                order_items(order).no_duplicates(),
                forall|t: int| 0 <= t < order_items(order).len() ==> #[trigger] order_items(order)[t] < n
                    && emitted@[order_items(order)[t] as int],
                forall|i: int| 0 <= i < MAX_NODES && #[trigger] emitted@[i] ==> order_items(order).contains(i as usize),
                forall|i: int| 0 <= i < MAX_NODES && #[trigger] emitted@[i] ==> queued@[i],
                fed_before(ins, order_items(order)),
                forall|i: int| 0 <= i < n && !#[trigger] queued@[i] ==> !all_fed(ins, i, emitted@),
            decreases MAX_NODES - order_items(order).len(),
        {
            proof {
                lemma_count_bound(queued@, n as int, MAX_NODES as int);
            }
            let ghost q = queue_items(queue);
            let ghost ord = order_items(order);
            let ghost em = emitted@;
            let x = queue_pop_front(&mut queue).unwrap();
            assert(x == q[0]);
            let pushed = order_try_push(&mut order, x);
            emitted.set(x, true);
            proof {
                let ord2 = order_items(order);
                let q2 = queue_items(queue);
                assert(ord2 == ord.push(x));
                assert(!ord.contains(x)) by {
                    if ord.contains(x) {
                        let t = choose|t: int| 0 <= t < ord.len() && ord[t] == x;
                        assert(em[ord[t] as int]);
                    }
                }
                assert forall|t: int| 0 <= t < q2.len() implies {
                    &&& #[trigger] q2[t] < n
                    &&& queued@[q2[t] as int]
                    &&& !emitted@[q2[t] as int]
                    &&& all_fed(ins, q2[t] as int, emitted@)
                } by {
                    assert(q2[t] == q[t + 1]);
                    assert(q[t + 1] != q[0]);
                    let y = q2[t] as int;
                    assert(all_fed(ins, y, em));
                    assert forall|k: int| 0 <= k < ins[y].len() implies match #[trigger] ins[y][k] {
                        Some(e) => emitted@[e.0 as int],
                        None => true,
                    } by {
                        if let Some(e) = ins[y][k] {
                            assert(em[e.0 as int]);
                        }
                    }
                }
                assert forall|i: int| 0 <= i < MAX_NODES && #[trigger] queued@[i] && !emitted@[i] implies q2.contains(i as usize) by {
                    assert(q.contains(i as usize));
                    let t = choose|t: int| 0 <= t < q.len() && q[t] == i as usize;
                    assert(t != 0);
                    assert(q2[t - 1] == q[t]);
                }
                assert forall|t: int| 0 <= t < ord2.len() implies #[trigger] ord2[t] < n && emitted@[ord2[t] as int] by {
                    if t < ord.len() {
                        assert(ord2[t] == ord[t]);
                    }
                }
                assert forall|i: int| 0 <= i < MAX_NODES && #[trigger] emitted@[i] implies ord2.contains(i as usize) by {
                    if i == x {
                        assert(ord2[ord.len() as int] == x);
                    } else {
                        assert(em[i]);
                        let t = choose|t: int| 0 <= t < ord.len() && ord[t] == i as usize;
                        assert(ord2[t] == ord[t]);
                    }
                }
                assert forall|a: int, k: int| 0 <= a < ord2.len() && 0 <= k < ins[ord2[a] as int].len() implies
                    match #[trigger] ins[ord2[a] as int][k] {
                        Some(e) => ord2.subrange(0, a).contains(e.0),
                        None => true,
                    } by {
                    if a < ord.len() {
                        assert(ord2[a] == ord[a]);
                        assert(ord2.subrange(0, a) =~= ord.subrange(0, a));
                    } else {
                        assert(ord2.subrange(0, a) =~= ord);
                        assert(all_fed(ins, x as int, em));
                        if let Some(e) = ins[x as int][k] {
                            assert(em[e.0 as int]);
                        }
                    }
                }
            }
            self.enqueue_ready(&emitted, &mut queued, &mut queue);
        }
        let mut i: usize = 0;
        while i < self.node_count
            invariant
                i <= n,
                n == self.count(),
                n <= MAX_NODES,
                emitted@.len() == MAX_NODES,
                forall|j: int| 0 <= j < i ==> #[trigger] emitted@[j],
                self.laid_out(),
                ins == self.inputs(),
                queued@.len() == MAX_NODES,
                queue_ok(ins, n, queue_items(queue), queued@, emitted@),
                queue_items(queue).len() == 0,
                order_items(order).len() == count_true(queued@, MAX_NODES as int),
                order_items(order).no_duplicates(),
                forall|t: int| 0 <= t < order_items(order).len() ==> #[trigger] order_items(order)[t] < n
                    && emitted@[order_items(order)[t] as int],
                forall|i: int| 0 <= i < MAX_NODES && #[trigger] emitted@[i] ==> order_items(order).contains(i as usize),
                forall|i: int| 0 <= i < MAX_NODES && #[trigger] emitted@[i] ==> queued@[i],
                fed_before(ins, order_items(order)),
                forall|i: int| 0 <= i < n && !#[trigger] queued@[i] ==> !all_fed(ins, i, emitted@),
            decreases n - i,
        {
            if !emitted[i] {
                proof {
                    if acyclic(n, ins) {
                        let ord = choose|ord: Seq<usize>| is_schedule(n, ins, ord);
                        assert forall|j: int| 0 <= j < n && #[trigger] queued@[j] implies emitted@[j] by {
                            if !emitted@[j] {
                                assert(queue_items(queue).contains(j as usize));
                                let t = choose|t: int| 0 <= t < queue_items(queue).len() && queue_items(queue)[t] == j as usize;
                            }
                        }
                        lemma_stuck_means_cyclic(n, ins, ord, emitted@, queued@, ord.len() as int);
                        let ii: int = i as int;
                        assert(ord.contains(ii as usize));
                        let t = choose|t: int| 0 <= t < ord.len() && ord[t] == i;
                        assert(emitted@[ord[t] as int]);
                    }
                }
                return None;
            }
            i = i + 1;
        }
        proof {
            let ord = order_items(order);
            assert forall|j: int| 0 <= j < MAX_NODES && n <= j implies !#[trigger] queued@[j] by {}
            assert forall|j: int| 0 <= j < n implies #[trigger] queued@[j] by {
                assert(emitted@[j]);
            }
            lemma_count_flat(queued@, n as int, MAX_NODES as int);
            lemma_count_all(queued@, n as int);
            assert forall|i: int| 0 <= i < n implies #[trigger] ord.contains(i as usize) by {
                assert(emitted@[i]);
            }
            assert forall|j: int, k: int|
                0 <= j < ord.len() && 0 <= k < ord.len() && #[trigger] feeds(ins, ord[k] as int, ord[j] as int)
                implies k < j by {
                let p = choose|p: int| 0 <= p < ins[ord[j] as int].len() && #[trigger] reads_from(ins[ord[j] as int][p], ord[k] as int);
                assert(ord.subrange(0, j).contains(ord[k]));
                let b = choose|b: int| 0 <= b < j && ord.subrange(0, j)[b] == ord[k];
                assert(ord[b] == ord[k]);
            }
        }
        Some(order)
    }
}


/// `ins` with input `idx` of node `to` set to `w`.
pub open spec fn rewired(ins: Seq<Seq<Wire>>, to: int, idx: int, w: Wire) -> Seq<Seq<Wire>> {
    ins.update(to, ins[to].update(idx, w))
}

/// Position of an input port among a node's wires: signal inputs first,
/// then data inputs.
pub open spec fn wire_index(data: bool, port: int) -> int {
    if data {
        MAX_SIGNAL_IN + port
    } else {
        port
    }
}

impl<G, const MIN_BUFF_SIZE: usize> ConnectionGraph<G, MIN_BUFF_SIZE> {
    /// Sets one input wire of a registered node, returning the wire it held.
    fn set_wire(&mut self, to: usize, data: bool, port: usize, w: Wire) -> (prior: Wire)
        requires
            old(self).laid_out(),
            to < old(self).count(),
            port < if data { MAX_DATA_IN } else { MAX_SIGNAL_IN },
            match w {
                Some(e) => e.0 < old(self).count(),
                None => true,
            },
        ensures
            final(self).laid_out(),
            final(self).count() == old(self).count(),
            final(self).order() == old(self).order(),
            final(self).execution_order == old(self).execution_order,
            forall|i: int| 0 <= i < old(self).count() ==> final(self).gadget(i) == old(self).gadget(i),
            prior == old(self).inputs()[to as int][wire_index(data, port as int)],
            final(self).inputs() == rewired(old(self).inputs(), to as int, wire_index(data, port as int), w),
    {
        let ghost ins = self.inputs();
        let mut slot: Option<Node<G>> = None;
        self.nodes.set_and_swap(to, &mut slot);
        let mut node = slot.unwrap();
        let prior;
        if data {
            prior = node.data_inputs[port];
            node.data_inputs.set(port, w);
        } else {
            prior = node.signal_inputs[port];
            node.signal_inputs.set(port, w);
        }
        let mut back = Some(node);
        self.nodes.set_and_swap(to, &mut back);
        proof {
            let nins = self.inputs();
            let idx = wire_index(data, port as int);
            assert(nins[to as int] =~= ins[to as int].update(idx, w));
            assert(nins =~= rewired(ins, to as int, idx, w));
            assert forall|y: int, k: int| 0 <= y < self.count() && 0 <= k < nins[y].len()
                implies match #[trigger] nins[y][k] {
                    Some(e) => e.0 < self.count(),
                    None => true,
                } by {
                if y != to || k != idx {
                    assert(nins[y][k] == ins[y][k]);
                }
            }
        }
        prior
    }

    /// Wires input `to_port` of node `to` to output `from_port` of node
    /// `from`, of the given kind, and reschedules; on a cycle or a bad
    /// handle or port nothing changes.
    fn add_edge(&mut self, data: bool, from: &Handle, from_port: usize, to: &Handle, to_port: usize) -> (r: bool)
        requires
            old(self).wf(),
        ensures
            final(self).wf(),
            final(self).count() == old(self).count(),
            forall|i: int| 0 <= i < old(self).count() ==> final(self).gadget(i) == old(self).gadget(i),
            r == (from@ < old(self).count() && to@ < old(self).count()
                && from_port < (if data { MAX_DATA_OUT } else { MAX_SIGNAL_OUT })
                && to_port < (if data { MAX_DATA_IN } else { MAX_SIGNAL_IN })
                && acyclic(old(self).count(), rewired(old(self).inputs(), to@ as int,
                    wire_index(data, to_port as int), Some((from@, from_port))))),
            r ==> final(self).inputs() == rewired(old(self).inputs(), to@ as int,
                wire_index(data, to_port as int), Some((from@, from_port))),
            !r ==> final(self).inputs() == old(self).inputs() && final(self).order() == old(self).order(),
    {
        let out_ports = if data { MAX_DATA_OUT } else { MAX_SIGNAL_OUT };
        let in_ports = if data { MAX_DATA_IN } else { MAX_SIGNAL_IN };
        if from.0 >= self.node_count || to.0 >= self.node_count || from_port >= out_ports || to_port >= in_ports {
            return false;
        }
        let ghost ins = self.inputs();
        let prior = self.set_wire(to.0, data, to_port, Some((from.0, from_port)));
        match self.compute_order() {
            Some(o) => {
                self.execution_order = o;
                true
            },
            None => {
                proof {
                    let idx = wire_index(data, to_port as int);
                    assert(prior == ins[to@ as int][idx]);
                    assert(ins[to@ as int].update(idx, prior) =~= ins[to@ as int]);
                    let mid = self.inputs();
                    assert(mid[to@ as int] == ins[to@ as int].update(idx, Some((from@, from_port))));
                    assert(mid[to@ as int].update(idx, prior) =~= ins[to@ as int]);
                    assert(rewired(mid, to@ as int, idx, prior) =~= ins);
                    if let Some(e) = prior {
                        assert(ins[to@ as int][idx] == prior);
                    }
                }
                self.set_wire(to.0, data, to_port, prior);
                false
            },
        }
    }

    /// Wires a data input to a data output; see the contract for exactly
    /// when the wiring is accepted.
    pub fn add_data_edge(&mut self, from_handle: &Handle, from_input: usize, to_handle: &Handle, to_input: usize) -> (r: bool)
        requires
            old(self).wf(),
        ensures
            final(self).wf(),
            final(self).count() == old(self).count(),
            forall|i: int| 0 <= i < old(self).count() ==> final(self).gadget(i) == old(self).gadget(i),
            r == (from_handle@ < old(self).count() && to_handle@ < old(self).count()
                && from_input < MAX_DATA_OUT && to_input < MAX_DATA_IN
                && acyclic(old(self).count(), rewired(old(self).inputs(), to_handle@ as int,
                    MAX_SIGNAL_IN + to_input, Some((from_handle@, from_input))))),
            r ==> final(self).inputs() == rewired(old(self).inputs(), to_handle@ as int,
                MAX_SIGNAL_IN + to_input, Some((from_handle@, from_input))),
            !r ==> final(self).inputs() == old(self).inputs() && final(self).order() == old(self).order(),
    {
        self.add_edge(true, from_handle, from_input, to_handle, to_input)
    }

    /// Wires a signal input to a signal output; see the contract for exactly
    /// when the wiring is accepted.
    pub fn add_signal_edge(&mut self, from_handle: &Handle, from_input: usize, to_handle: &Handle, to_input: usize) -> (r: bool)
        requires
            old(self).wf(),
        ensures
            final(self).wf(),
            final(self).count() == old(self).count(),
            forall|i: int| 0 <= i < old(self).count() ==> final(self).gadget(i) == old(self).gadget(i),
            r == (from_handle@ < old(self).count() && to_handle@ < old(self).count()
                && from_input < MAX_SIGNAL_OUT && to_input < MAX_SIGNAL_IN
                && acyclic(old(self).count(), rewired(old(self).inputs(), to_handle@ as int,
                    to_input as int, Some((from_handle@, from_input))))),
            r ==> final(self).inputs() == rewired(old(self).inputs(), to_handle@ as int,
                to_input as int, Some((from_handle@, from_input))),
            !r ==> final(self).inputs() == old(self).inputs() && final(self).order() == old(self).order(),
    {
        self.add_edge(false, from_handle, from_input, to_handle, to_input)
    }
}


/// The chunk lengths that cover `frames` frames, at most `cap` each: full
/// chunks, then the remainder if any.
pub open spec fn chunk_plan(frames: int, cap: int) -> Seq<usize>
    decreases frames,
{
    if frames <= 0 || cap <= 0 {
        Seq::empty()
    } else if frames <= cap {
        seq![frames as usize]
    } else {
        seq![cap as usize] + chunk_plan(frames - cap, cap)
    }
}

/// The sum of a sequence of lengths.
pub open spec fn total(s: Seq<usize>) -> int
    decreases s.len(),
{
    if s.len() == 0 {
        0
    } else {
        s[0] + total(s.drop_first())
    }
}

/// The chunks of a plan cover exactly the requested frames, each chunk is
/// non-empty and at most the capacity, and only the last may be short.
pub proof fn lemma_chunk_plan(frames: int, cap: int)
    requires
        0 <= frames <= usize::MAX,
        0 < cap <= usize::MAX,
    ensures
        total(chunk_plan(frames, cap)) == frames,
        chunk_plan(frames, cap).len() == (frames + cap - 1) / cap,
        forall|i: int| 0 <= i < chunk_plan(frames, cap).len() ==> 0 < #[trigger] chunk_plan(frames, cap)[i] <= cap,
        forall|i: int| 0 <= i < chunk_plan(frames, cap).len() - 1 ==> #[trigger] chunk_plan(frames, cap)[i] == cap,
    decreases frames,
{
    if frames > cap {
        lemma_chunk_plan(frames - cap, cap);
        let rest = chunk_plan(frames - cap, cap);
        let p = chunk_plan(frames, cap);
        assert(p.drop_first() =~= rest);
        assert(total(p) == p[0] + total(p.drop_first()));
        assert((frames + cap - 1) / cap == (frames - cap + cap - 1) / cap + 1) by (nonlinear_arith)
            requires frames > cap, cap > 0;
        assert forall|i: int| 0 <= i < p.len() implies 0 < #[trigger] p[i] <= cap by {
            if i > 0 {
                assert(p[i] == rest[i - 1]);
            }
        }
        assert forall|i: int| 0 <= i < p.len() - 1 implies #[trigger] p[i] == cap by {
            if i > 0 {
                assert(p[i] == rest[i - 1]);
            }
        }
    } else if frames > 0 {
        let p = chunk_plan(frames, cap);
        assert(p.drop_first() =~= Seq::<usize>::empty());
        assert(total(p.drop_first()) == 0);
        assert(total(p) == p[0] + total(p.drop_first()));
        assert((frames + cap - 1) / cap == 1) by (nonlinear_arith)
            requires 0 < frames <= cap;
    } else {
        assert((cap - 1) / cap == 0) by (nonlinear_arith)
            requires cap > 0;
    }
}

impl<G, const MIN_BUFF_SIZE: usize> ConnectionGraph<G, MIN_BUFF_SIZE> {
    /// The chunk lengths one processing pass of `frame_count` frames runs:
    /// chunks of `MIN_BUFF_SIZE` frames and a shorter last one if needed.
    pub fn chunk_lengths(&self, frame_count: usize) -> (r: Vec<usize>)
        requires
            MIN_BUFF_SIZE > 0,
        ensures
            r@ == chunk_plan(frame_count as int, MIN_BUFF_SIZE as int),
    {
        let mut r: Vec<usize> = Vec::new();
        let mut left: usize = frame_count;
        while left > 0
            invariant
                MIN_BUFF_SIZE > 0,
                left <= frame_count,
                r@ + chunk_plan(left as int, MIN_BUFF_SIZE as int) == chunk_plan(frame_count as int, MIN_BUFF_SIZE as int),
            decreases left,
        {
            let ghost before = r@;
            if left <= MIN_BUFF_SIZE {
                r.push(left);
                assert(chunk_plan(0, MIN_BUFF_SIZE as int) =~= Seq::<usize>::empty());
                assert(r@ + chunk_plan(0, MIN_BUFF_SIZE as int) =~= before + chunk_plan(left as int, MIN_BUFF_SIZE as int));
                left = 0;
            } else {
                r.push(MIN_BUFF_SIZE);
                assert(r@ + chunk_plan((left - MIN_BUFF_SIZE) as int, MIN_BUFF_SIZE as int)
                    =~= before + chunk_plan(left as int, MIN_BUFF_SIZE as int));
                left = left - MIN_BUFF_SIZE;
            }
        }
        assert(r@ + chunk_plan(0, MIN_BUFF_SIZE as int) =~= r@);
        r
    }

    /// The gadget of a registered node, for running it.
    pub fn gadget_mut(&mut self, index: usize) -> (r: &mut G)
        requires
            old(self).wf(),
            index < old(self).count(),
        ensures
            *r == old(self).gadget(index as int),
    {
        &mut self.nodes[index].as_mut().unwrap().gadget
    }
}


/// Whenever the graph is well formed, its execution order lists every
/// registered node exactly once and puts each producer before each of its
/// consumers; every operation keeps the graph well formed.
pub proof fn lemma_order_is_schedule<G, const MIN_BUFF_SIZE: usize>(g: ConnectionGraph<G, MIN_BUFF_SIZE>)
    requires
        g.wf(),
    ensures
        is_schedule(g.count(), g.inputs(), g.order()),
        g.order().len() == g.count(),
        g.inputs().len() == MAX_NODES,
{
}

/// Wiring a port twice leaves only the second producer: the first is
/// replaced entirely.
pub proof fn lemma_rewire_replaces(ins: Seq<Seq<Wire>>, to: int, idx: int, first: Wire, second: Wire)
    requires
        0 <= to < ins.len(),
        0 <= idx < ins[to].len(),
    ensures
        rewired(rewired(ins, to, idx, first), to, idx, second) == rewired(ins, to, idx, second),
        rewired(rewired(ins, to, idx, first), to, idx, second)[to][idx] == second,
{
    assert(rewired(ins, to, idx, first)[to].update(idx, second) =~= ins[to].update(idx, second));
    assert(rewired(rewired(ins, to, idx, first), to, idx, second) =~= rewired(ins, to, idx, second));
}

impl<G, const MIN_BUFF_SIZE: usize> ConnectionGraph<G, MIN_BUFF_SIZE> {
    /// Number of registered nodes.
    pub fn len(&self) -> (r: usize)
        ensures
            r == self.count(),
    {
        self.node_count
    }

    /// The current execution order.
    pub fn execution_order(&self) -> (r: Vec<usize>)
        requires
            self.wf(),
        ensures
            r@ == self.order(),
            r@.len() == self.count(),
            is_schedule(self.count(), self.inputs(), r@),
    {
        let n = order_len(&self.execution_order);
        let mut r: Vec<usize> = Vec::new();
        let mut i: usize = 0;
        while i < n
            invariant
                n == self.order().len(),
                i <= n,
                r@ == self.order().subrange(0, i as int),
            decreases n - i,
        {
            r.push(order_get(&self.execution_order, i));
            i = i + 1;
            assert(r@ =~= self.order().subrange(0, i as int));
        }
        assert(r@ =~= self.order());
        r
    }

    /// The producer signal input `port` of node `node` reads from, if wired.
    pub fn signal_input(&self, node: usize, port: usize) -> (r: Wire)
        requires
            self.wf(),
            node < self.count(),
            port < MAX_SIGNAL_IN,
        ensures
            r == self.inputs()[node as int][port as int],
    {
        let n = self.nodes[node].as_ref().unwrap();
        assert(self.inputs()[node as int] == n.signal_inputs@ + n.data_inputs@);
        n.signal_inputs[port]
    }

    /// The producer data input `port` of node `node` reads from, if wired.
    pub fn data_input(&self, node: usize, port: usize) -> (r: Wire)
        requires
            self.wf(),
            node < self.count(),
            port < MAX_DATA_IN,
        ensures
            r == self.inputs()[node as int][MAX_SIGNAL_IN + port],
    {
        let n = self.nodes[node].as_ref().unwrap();
        assert(self.inputs()[node as int] == n.signal_inputs@ + n.data_inputs@);
        n.data_inputs[port]
    }
}


/// `p` is a path of feeding edges in `ins`: each node feeds the next.
pub open spec fn is_path(ins: Seq<Seq<Wire>>, p: Seq<usize>) -> bool {
    forall|i: int| 0 <= i < p.len() - 1 ==> #[trigger] feeds(ins, p[i] as int, p[i + 1] as int)
}

proof fn lemma_path_climbs(n: nat, ins: Seq<Seq<Wire>>, ord: Seq<usize>, p: Seq<usize>, k: int)
    requires
        is_schedule(n, ins, ord),
        is_path(ins, p),
        forall|i: int| 0 <= i < p.len() ==> #[trigger] p[i] < n,
        1 <= k < p.len(),
    ensures
        exists|a: int, b: int| 0 <= a < b < ord.len() && ord[a] == p[0] && ord[b] == p[k],
    decreases k,
{
    let x = p[k - 1];
    let y = p[k];
    assert(x < n && y < n);
    let xi: int = x as int;
    let yi: int = y as int;
    assert(ord.contains(xi as usize));
    assert(ord.contains(yi as usize));
    let a = choose|a: int| 0 <= a < ord.len() && ord[a] == x;
    let b = choose|b: int| 0 <= b < ord.len() && ord[b] == y;
    let j = k - 1;
    assert(feeds(ins, p[j] as int, p[j + 1] as int));
    assert(p[j + 1] == y);
    assert(feeds(ins, ord[a] as int, ord[b] as int));
    if k > 1 {
        lemma_path_climbs(n, ins, ord, p, k - 1);
        let (a0, b0) = choose|a0: int, b0: int| 0 <= a0 < b0 < ord.len() && ord[a0] == p[0] && ord[b0] == p[k - 1];
        assert(b0 == a) by {
            assert(ord.no_duplicates());
        }
        assert(ord[a0] == p[0] && ord[b] == p[k]);
    } else {
        assert(ord[a] == p[0] && ord[b] == p[k]);
    }
}

/// An edge `from -> to` closes a cycle when `to` already reaches `from`
/// along a path that does not return to `to` (or when `from` is `to`);
/// no schedule then exists for the rewired graph, so the wiring call
/// fails and changes nothing.
pub proof fn lemma_closing_edge_is_cyclic(n: nat, ins: Seq<Seq<Wire>>, to: int, idx: int, from: usize, from_port: usize, p: Seq<usize>)
    requires
        n <= ins.len(),
        0 <= to < n,
        0 <= idx < ins[to].len(),
        p.len() >= 1,
        p[0] == to,
        p[p.len() - 1] == from,
        is_path(ins, p),
        forall|i: int| 0 <= i < p.len() ==> #[trigger] p[i] < n,
        forall|i: int| 1 <= i < p.len() ==> #[trigger] p[i] != to,
    ensures
        !acyclic(n, rewired(ins, to, idx, Some((from, from_port)))),
{
    let ins2 = rewired(ins, to, idx, Some((from, from_port)));
    if acyclic(n, ins2) {
        let ord = choose|ord: Seq<usize>| is_schedule(n, ins2, ord);
        assert(reads_from(ins2[to][idx], from as int));
        let ti: int = to;
        let fi: int = from as int;
        assert(ord.contains(ti as usize));
        assert(ord.contains(fi as usize));
        let a = choose|a: int| 0 <= a < ord.len() && ord[a] == from;
        let b = choose|b: int| 0 <= b < ord.len() && ord[b] == to as usize;
        assert(feeds(ins2, ord[a] as int, ord[b] as int));
        assert(a < b);
        if p.len() > 1 {
            assert forall|i: int| 0 <= i < p.len() - 1 implies #[trigger] feeds(ins2, p[i] as int, p[i + 1] as int) by {
                assert(feeds(ins, p[i] as int, p[i + 1] as int));
                assert(p[i + 1] != to);
                assert(ins2[p[i + 1] as int] == ins[p[i + 1] as int]);
            }
            lemma_path_climbs(n, ins2, ord, p, p.len() - 1);
            let (a0, b0) = choose|a0: int, b0: int| 0 <= a0 < b0 < ord.len() && ord[a0] == p[0] && ord[b0] == p[p.len() - 1];
            assert(ord.no_duplicates());
            assert(a0 == b && b0 == a);
        }
    }
}


/// One chunk's visits: every node of `ord`, in order, each run for `len` frames.
pub open spec fn chunk_visits(len: usize, ord: Seq<usize>) -> Seq<(usize, usize)> {
    ord.map_values(|x: usize| (len, x))
}

/// The visits of a whole pass: for each chunk in turn, every node of `ord`.
pub open spec fn visit_plan(chunks: Seq<usize>, ord: Seq<usize>) -> Seq<(usize, usize)>
    decreases chunks.len(),
{
    if chunks.len() == 0 {
        Seq::empty()
    } else {
        visit_plan(chunks.drop_last(), ord) + chunk_visits(chunks.last(), ord)
    }
}

impl<G, const MIN_BUFF_SIZE: usize> ConnectionGraph<G, MIN_BUFF_SIZE> {
    /// The steps of processing `frame_count` frames: pairs of chunk length
    /// and node, chunk after chunk, each chunk visiting every node in the
    /// execution order so that producers run before their consumers.
    pub fn process_plan(&self, frame_count: usize) -> (r: Vec<(usize, usize)>)
        requires
            self.wf(),
            MIN_BUFF_SIZE > 0,
        ensures
            r@ == visit_plan(chunk_plan(frame_count as int, MIN_BUFF_SIZE as int), self.order()),
    {
        let chunks = self.chunk_lengths(frame_count);
        let order = self.execution_order();
        let mut r: Vec<(usize, usize)> = Vec::new();
        let mut c: usize = 0;
        while c < chunks.len()
            invariant
                order@ == self.order(),
                c <= chunks@.len(),
                r@ == visit_plan(chunks@.take(c as int), order@),
            decreases chunks@.len() - c,
        {
            let len = chunks[c];
            let ghost base = r@;
            let mut i: usize = 0;
            while i < order.len()
                invariant
                    i <= order@.len(),
                    len == chunks@[c as int],
                    r@ == base + chunk_visits(len, order@.take(i as int)),
                decreases order@.len() - i,
            {
                r.push((len, order[i]));
                i = i + 1;
                assert(r@ =~= base + chunk_visits(len, order@.take(i as int)));
            }
            assert(order@.take(i as int) =~= order@);
            assert(chunks@.take(c + 1).drop_last() =~= chunks@.take(c as int));
            c = c + 1;
        }
        assert(chunks@.take(c as int) =~= chunks@);
        r
    }
}

} // verus!
