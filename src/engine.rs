use vstd::prelude::*;
use crate::scalar::{Scalar, spec_tanh};

verus! {

/// How a node was produced, with the operands it was produced from.
///
/// Operands are handles (arena indices) of earlier nodes. The variant selects
/// the local-gradient rule that the backward traversal applies.
#[derive(Clone, Copy)]
pub enum Op<T> {
    Leaf,
    Add(usize, usize),
    Mul(usize, usize),
    Pow(usize, T),
    Exp(usize),
    Tanh(usize),
}

/// The operands of a node, in order: none, one or two.
pub open spec fn operands<T>(op: Op<T>) -> Seq<usize> {
    match op {
        Op::Leaf => seq![],
        Op::Add(a, b) => seq![a, b],
        Op::Mul(a, b) => seq![a, b],
        Op::Pow(a, _) => seq![a],
        Op::Exp(a) => seq![a],
        Op::Tanh(a) => seq![a],
    }
}

/// One vertex of the computation graph.
#[derive(Clone, Copy)]
pub struct Value<T> {
    pub data: T,
    pub grad: T,
    pub op: Op<T>,
}

/// The `n` consecutive handles that start at `start`.
pub open spec fn handles(start: int, n: int) -> Seq<ValueWrapper> {
    Seq::new(n as nat, |k: int| ValueWrapper((start + k) as usize))
}

/// `s` with `amount` added into the gradient of node `i`.
pub open spec fn add_grad<T: Scalar>(s: Seq<Value<T>>, i: int, amount: T) -> Seq<Value<T>> {
    s.update(i, Value { grad: s[i].grad.spec_plus(amount), ..s[i] })
}

/// `s` with the gradient of node `root` set to `one`.
pub open spec fn seeded<T>(s: Seq<Value<T>>, root: int, one: T) -> Seq<Value<T>> {
    s.update(root, Value { grad: one, ..s[root] })
}

/// `s` after the local-gradient rule of node `i` has run: each operand's
/// gradient gains the derivative of node `i` with respect to it, times the
/// gradient of node `i`.
pub open spec fn rule_applied<T: Scalar>(s: Seq<Value<T>>, i: int, one: T) -> Seq<Value<T>> {
    let out = s[i];
    match out.op {
        Op::Leaf => s,
        Op::Add(a, b) => add_grad(add_grad(s, a as int, out.grad), b as int, out.grad),
        Op::Mul(a, b) => add_grad(
            add_grad(s, a as int, s[b as int].data.spec_times(out.grad)),
            b as int,
            s[a as int].data.spec_times(out.grad),
        ),
        Op::Pow(a, k) => add_grad(
            s,
            a as int,
            k.spec_times(s[a as int].data.spec_powf(k.spec_minus(one))).spec_times(out.grad),
        ),
        Op::Exp(a) => add_grad(s, a as int, out.data.spec_times(out.grad)),
        Op::Tanh(a) => add_grad(
            s,
            a as int,
            one.spec_minus(out.data.spec_times(out.data)).spec_times(out.grad),
        ),
    }
}

/// `s` after the rules of the nodes of `order` have run, last to first.
pub open spec fn rules_applied<T: Scalar>(s: Seq<Value<T>>, order: Seq<ValueWrapper>, one: T) -> Seq<
    Value<T>,
>
    decreases order.len(),
{
    if order.len() == 0 {
        s
    } else {
        rules_applied(rule_applied(s, order.last().0 as int, one), order.drop_last(), one)
    }
}

/// `x` is the index of some handle in `t`.
#[verifier::opaque]
spec fn has(t: Seq<ValueWrapper>, x: usize) -> bool {
    exists|j: int| 0 <= j < t.len() && t[j].0 == x
}

/// Two strictly increasing sequences of handles with the same elements are
/// equal.
proof fn lemma_sorted_same_elements(s: Seq<ValueWrapper>, t: Seq<ValueWrapper>)
    requires
        forall|i: int, j: int| 0 <= i < j < s.len() ==> s[i].0 < s[j].0,
        forall|i: int, j: int| 0 <= i < j < t.len() ==> t[i].0 < t[j].0,
        forall|k: int| 0 <= k < s.len() ==> has(t, #[trigger] s[k].0),
        forall|k: int| 0 <= k < t.len() ==> has(s, #[trigger] t[k].0),
    ensures
        s == t,
    decreases s.len() + t.len(),
{
    reveal(has);
    if s.len() == 0 {
        if t.len() > 0 {
            assert(has(s, t[0].0));
        }
        assert(t =~= s);
    } else if t.len() == 0 {
        assert(has(t, s[0].0));
    } else {
        let m = s.len() - 1;
        let n = t.len() - 1;
        assert(has(t, s[m].0));
        assert(has(s, t[n].0));
        let j = choose|j: int| 0 <= j < t.len() && t[j].0 == s[m].0;
        let i = choose|i: int| 0 <= i < s.len() && s[i].0 == t[n].0;
        assert(j == n) by {
            if j < n {
                assert(t[j].0 < t[n].0);
                if i < m {
                    assert(s[i].0 < s[m].0);
                }
            }
        }
        let s2 = s.drop_last();
        let t2 = t.drop_last();
        assert forall|k: int| 0 <= k < s2.len() implies has(t2, #[trigger] s2[k].0) by {
            assert(s[k].0 < s[m].0);
            assert(has(t, s[k].0));
            let j = choose|j: int| 0 <= j < t.len() && t[j].0 == s[k].0;
            assert(t2[j].0 == s2[k].0);
        }
        assert forall|k: int| 0 <= k < t2.len() implies has(s2, #[trigger] t2[k].0) by {
            assert(t[k].0 < t[n].0);
            assert(has(s, t[k].0));
            let j = choose|j: int| 0 <= j < s.len() && s[j].0 == t[k].0;
            assert(s2[j].0 == t2[k].0);
        }
        lemma_sorted_same_elements(s2, t2);
        assert(s[m] == t[n]);
        assert(s =~= t2.push(t[n]));
        assert(t =~= t2.push(t[n]));
    }
}

/// A handle to a node: its position in the graph's arena. Two handles denote
/// the same vertex exactly when they hold the same index.
#[derive(Clone, Copy, Debug, PartialEq, Eq, Hash, Structural)]
pub struct ValueWrapper(pub usize);

/// An arena of nodes. A node is only ever appended after its operands, so
/// every operand index is smaller than the index of the node that uses it.
pub struct Graph<T> {
    nodes: Vec<Value<T>>,
    zero: T,
    one: T,
}

impl<T> View for Graph<T> {
    type V = Seq<Value<T>>;

    closed spec fn view(&self) -> Seq<Value<T>> {
        self.nodes@
    }
}

impl<T: Scalar> Graph<T> {
    /// The value every gradient starts from.
    pub closed spec fn zero_spec(&self) -> T {
        self.zero
    }

    /// The value the root's gradient is seeded with.
    pub closed spec fn one_spec(&self) -> T {
        self.one
    }

    /// Every operand of a node is an earlier node.
    pub open spec fn wf(&self) -> bool {
        forall|i: int, k: int|
            0 <= i < self@.len() && 0 <= k < operands(#[trigger] self@[i].op).len()
                ==> (#[trigger] operands(self@[i].op)[k]) < i
    }

    pub open spec fn valid(&self, v: ValueWrapper) -> bool {
        v.0 < self@.len()
    }

    /// `v` is an operand of node `c`.
    pub open spec fn feeds(&self, c: int, v: int) -> bool {
        exists|k: int| 0 <= k < operands(self@[c].op).len() && #[trigger] operands(self@[c].op)[k] == v
    }

    /// `p` walks the graph along operand edges: each step goes from a node to
    /// one of its operands.
    pub open spec fn is_path(&self, p: Seq<int>) -> bool {
        &&& p.len() >= 1
        &&& forall|k: int| 0 <= k < p.len() ==> 0 <= #[trigger] p[k] < self@.len()
        &&& forall|k: int| 0 <= k < p.len() - 1 ==> self.feeds(#[trigger] p[k], p[k + 1])
    }

    /// `v` can be reached from `root` by following operand edges (`root`
    /// reaches itself).
    pub open spec fn reaches(&self, root: int, v: int) -> bool {
        exists|p: Seq<int>| #[trigger] self.is_path(p) && p[0] == root && p.last() == v
    }

    /// `self` is `old` with zero or more nodes added at its end.
    pub open spec fn extends(&self, old: &Self) -> bool {
        &&& old@.len() <= self@.len()
        &&& self@.subrange(0, old@.len() as int) == old@
        &&& self.zero_spec() == old.zero_spec()
        &&& self.one_spec() == old.one_spec()
    }

    /// `self` is `old` with one node appended, which has operation `op` and a
    /// zero gradient, and `r` is the handle of that node.
    pub open spec fn appended(&self, old: &Self, r: ValueWrapper, op: Op<T>) -> bool {
        &&& self@.len() == old@.len() + 1
        &&& self.extends(old)
        &&& r.0 == old@.len()
        &&& self@[r.0 as int].op == op
        &&& self@[r.0 as int].grad == old.zero_spec()
    }

    /// Growing a graph twice is growing it once.
    pub proof fn lemma_extends_trans(a: &Self, b: &Self, c: &Self)
        requires
            b.extends(a),
            c.extends(b),
        ensures
            c.extends(a),
    {
        assert(c@.subrange(0, a@.len() as int) =~= b@.subrange(0, a@.len() as int));
    }

    /// `self` is `old` with one new leaf for each of `vals`, in order, each
    /// holding its value and a zero gradient.
    pub open spec fn holds_leaves(&self, old: &Self, vals: Seq<T>) -> bool {
        &&& self.extends(old)
        &&& self@.len() == old@.len() + vals.len()
        &&& forall|k: int|
            0 <= k < vals.len() ==> #[trigger] self@[old@.len() + k] == (Value {
                data: vals[k],
                grad: old.zero_spec(),
                op: Op::<T>::Leaf,
            })
    }

    /// An empty graph.
    pub fn new() -> (g: Self)
        ensures
            g@.len() == 0,
            g.wf(),
            g.zero_spec() == T::spec_zero(),
            g.one_spec() == T::spec_one(),
    {
        Graph { nodes: Vec::new(), zero: T::zero(), one: T::one() }
    }

    pub fn len(&self) -> (n: usize)
        ensures
            n == self@.len(),
    {
        self.nodes.len()
    }

    fn push(&mut self, data: T, op: Op<T>) -> (r: ValueWrapper)
        requires
            old(self).wf(),
            old(self)@.len() < usize::MAX,
            forall|k: int| 0 <= k < operands(op).len() ==> operands(op)[k] < old(self)@.len(),
        ensures
            final(self).wf(),
            final(self).appended(old(self), r, op),
            final(self)@[r.0 as int].data == data,
    {
        let r = ValueWrapper(self.nodes.len());
        self.nodes.push(Value { data, grad: self.zero, op });
        proof {
            assert(self@.subrange(0, old(self)@.len() as int) =~= old(self)@);
        }
        r
    }

    /// `self` differs from `old` in gradients only: same nodes, operations
    /// and values.
    pub open spec fn same_but_grads(&self, old: &Self) -> bool {
        &&& self@.len() == old@.len()
        &&& self.zero_spec() == old.zero_spec()
        &&& self.one_spec() == old.one_spec()
        &&& forall|i: int|
            0 <= i < self@.len() ==> (#[trigger] self@[i]).data == old@[i].data && self@[i].op
                == old@[i].op
    }

    /// Adds `amount` into the gradient of node `i`; nothing else changes.
    fn accumulate(&mut self, i: usize, amount: T)
        requires
            i < old(self)@.len(),
        ensures
            final(self).same_but_grads(old(self)),
            forall|j: int| 0 <= j < old(self)@.len() && j != i ==> final(self)@[j] == old(self)@[j],
            final(self)@ == add_grad(old(self)@, i as int, amount),
    {
        let mut n = self.nodes[i];
        n.grad = n.grad.plus(amount);
        self.nodes.set(i, n);
    }

    /// Applies the local-gradient rule of node `i`: adds its contribution to
    /// the gradient of each of its operands, using its own current gradient.
    /// A leaf has no rule and changes nothing.
    fn apply_rule(&mut self, i: usize)
        requires
            old(self).wf(),
            i < old(self)@.len(),
        ensures
            final(self).wf(),
            final(self).same_but_grads(old(self)),
            forall|j: int|
                0 <= j < old(self)@.len() && !old(self).feeds(i as int, j) ==> final(self)@[j]
                    == old(self)@[j],
            final(self)@ == rule_applied(old(self)@, i as int, old(self).one_spec()),
    {
        let out = self.nodes[i];
        assert(forall|k: int| 0 <= k < operands(out.op).len() ==> operands(out.op)[k] < i);
        match out.op {
            Op::Leaf => {},
            Op::Add(a, b) => {
                assert(operands(out.op)[0] == a && operands(out.op)[1] == b);
                self.accumulate(a, out.grad);
                self.accumulate(b, out.grad);
            },
            Op::Mul(a, b) => {
                assert(operands(out.op)[0] == a && operands(out.op)[1] == b);
                let bd = self.nodes[b].data;
                self.accumulate(a, bd.times(out.grad));
                let ad = self.nodes[a].data;
                self.accumulate(b, ad.times(out.grad));
            },
            Op::Pow(a, k) => {
                assert(operands(out.op)[0] == a);
                let x = self.nodes[a].data;
                let factor = k.times(x.powf(k.minus(self.one)));
                self.accumulate(a, factor.times(out.grad));
            },
            Op::Exp(a) => {
                assert(operands(out.op)[0] == a);
                self.accumulate(a, out.data.times(out.grad));
            },
            Op::Tanh(a) => {
                assert(operands(out.op)[0] == a);
                let t = out.data;
                let factor = self.one.minus(t.times(t));
                self.accumulate(a, factor.times(out.grad));
            },
        }
    }

    /// Node `v` is `root`, or an operand of a node in `[lo, root]` that `root`
    /// reaches: what is known of `v` once nodes `root` down to `lo` are done.
    spec fn reached_above(&self, root: int, lo: int, v: int) -> bool {
        v == root || exists|c: int| lo <= c <= root && #[trigger] self.reaches(root, c) && self.feeds(c, v)
    }

    proof fn lemma_feeds_below(&self, c: int, v: int)
        requires
            self.wf(),
            0 <= c < self@.len(),
            0 <= v,
            self.feeds(c, v),
        ensures
            v < c,
    {
        let k = choose|k: int| 0 <= k < operands(self@[c].op).len() && #[trigger] operands(self@[c].op)[k] == v;
        assert(operands(self@[c].op)[k] < c);
    }

    /// Along a path every node is at most the first.
    proof fn lemma_path_below_start(&self, p: Seq<int>)
        requires
            self.wf(),
            self.is_path(p),
        ensures
            forall|k: int| 0 <= k < p.len() ==> #[trigger] p[k] <= p[0],
        decreases p.len(),
    {
        if p.len() > 1 {
            let q = p.drop_last();
            assert(self.is_path(q));
            self.lemma_path_below_start(q);
            let n = p.len() - 1;
            assert(self.feeds(p[n - 1], p[n]));
            assert(0 <= p[n - 1] < self@.len() && 0 <= p[n]);
            self.lemma_feeds_below(p[n - 1], p[n]);
            assert(q[n - 1] <= q[0]);
            assert forall|k: int| 0 <= k < p.len() implies #[trigger] p[k] <= p[0] by {
                if k < n {
                    assert(q[k] == p[k]);
                }
            }
        }
    }

    /// The graph is acyclic: a walk along one or more operand edges always
    /// ends at an earlier node than it started from, so no node reaches
    /// itself again and every walk ends within as many steps as there are
    /// nodes.
    pub proof fn lemma_acyclic(&self, p: Seq<int>)
        requires
            self.wf(),
            self.is_path(p),
            p.len() >= 2,
        ensures
            p.last() + (p.len() - 1) <= p[0],
            p.last() < p[0],
            p.len() <= p[0] + 1,
        decreases p.len(),
    {
        let n = p.len() - 1;
        assert(self.feeds(p[n - 1], p[n]));
        assert(0 <= p[n - 1] < self@.len() && 0 <= p[n]);
        self.lemma_feeds_below(p[n - 1], p[n]);
        if p.len() > 2 {
            let q = p.drop_last();
            assert(self.is_path(q));
            self.lemma_acyclic(q);
            assert(q.last() == p[n - 1] && q[0] == p[0]);
        }
    }

    proof fn lemma_reached_above(&self, root: int, lo: int, v: int)
        requires
            self.wf(),
            0 <= v < self@.len(),
            0 <= root < self@.len(),
            v + 1 >= lo,
            lo >= 0,
        ensures
            self.reached_above(root, lo, v) == self.reaches(root, v),
    {
        if v == root {
            assert(self.is_path(seq![root]));
        } else if self.reached_above(root, lo, v) {
            let c = choose|c: int| lo <= c <= root && #[trigger] self.reaches(root, c) && self.feeds(c, v);
            let p = choose|p: Seq<int>| #[trigger] self.is_path(p) && p[0] == root && p.last() == c;
            let q = p.push(v);
            assert forall|k: int| 0 <= k < q.len() - 1 implies self.feeds(#[trigger] q[k], q[k + 1]) by {
                if k < q.len() - 2 {
                    assert(q[k] == p[k] && q[k + 1] == p[k + 1]);
                }
            }
            assert(self.is_path(q));
        } else if self.reaches(root, v) {
            let p = choose|p: Seq<int>| #[trigger] self.is_path(p) && p[0] == root && p.last() == v;
            let n = p.len() - 1;
            let c = p[n - 1];
            let q = p.drop_last();
            assert(self.is_path(q));
            assert(self.reaches(root, c));
            assert(self.feeds(c, v));
            self.lemma_feeds_below(c, v);
            self.lemma_path_below_start(p);
            assert(false);
        }
    }

    /// Marks, for every node up to `root`, whether `root` reaches it. Walks
    /// the nodes from `root` downwards: every consumer of a node has a larger
    /// index, so its mark is final before the node's operands are marked.
    fn reachable_marks(&self, root: ValueWrapper) -> (marks: Vec<bool>)
        requires
            self.wf(),
            self.valid(root),
        ensures
            marks@.len() == root.0 + 1,
            forall|v: int| 0 <= v <= root.0 ==> marks@[v] == self.reaches(root.0 as int, v),
    {
        let ghost r = root.0 as int;
        let n = self.nodes.len();
        let mut marks: Vec<bool> = Vec::new();
        let mut j: usize = 0;
        while j <= root.0
            invariant
                root.0 < n,
                j <= root.0 + 1,
                marks@.len() == j,
                forall|v: int| 0 <= v < j ==> !marks@[v],
            decreases root.0 + 1 - j,
        {
            marks.push(false);
            j = j + 1;
        }
        marks.set(root.0, true);
        assert forall|v: int| 0 <= v <= r implies marks@[v] == self.reached_above(r, r + 1, v) by {}
        let mut i: usize = root.0 + 1;
        while i > 0
            invariant
                self.wf(),
                r < self@.len(),
                i <= r + 1,
                marks@.len() == r + 1,
                forall|v: int| 0 <= v <= r ==> marks@[v] == self.reached_above(r, i as int, v),
            decreases i,
        {
            let c: usize = i - 1;
            proof {
                self.lemma_reached_above(r, i as int, c as int);
            }
            if marks[c] {
                let op = self.nodes[c].op;
                assert(forall|k: int| 0 <= k < operands(op).len() ==> operands(op)[k] < c);
                match op {
                    Op::Leaf => {},
                    Op::Add(a, b) | Op::Mul(a, b) => {
                        assert(operands(op)[0] == a && operands(op)[1] == b);
                        marks.set(a, true);
                        marks.set(b, true);
                    },
                    Op::Pow(a, _) | Op::Exp(a) | Op::Tanh(a) => {
                        assert(operands(op)[0] == a);
                        marks.set(a, true);
                    },
                }
            }
            assert forall|v: int| 0 <= v <= r implies marks@[v] == self.reached_above(r, c as int, v) by {
                if self.reached_above(r, c as int, v) && !self.reached_above(r, i as int, v) {
                    assert(self.reaches(r, c as int) && self.feeds(c as int, v));
                }
                if self.reaches(r, c as int) && self.feeds(c as int, v) {
                    assert(self.reached_above(r, c as int, v));
                }
                if self.reached_above(r, i as int, v) && v != r {
                    let d = choose|d: int| i <= d <= r && #[trigger] self.reaches(r, d) && self.feeds(d, v);
                    assert(self.reached_above(r, c as int, v));
                }
            }
            i = c;
        }
        assert forall|v: int| 0 <= v <= r implies marks@[v] == self.reaches(r, v) by {
            self.lemma_reached_above(r, 0, v);
        }
        marks
    }

    /// Following an operand edge from a node that `root` reaches leads to a
    /// smaller node that `root` reaches too.
    proof fn lemma_reaches_step(&self, root: int, c: int, v: int)
        requires
            self.wf(),
            0 <= root < self@.len(),
            self.reaches(root, c),
            self.feeds(c, v),
        ensures
            self.reaches(root, v),
            0 <= v < c <= root,
    {
        let p = choose|p: Seq<int>| #[trigger] self.is_path(p) && p[0] == root && p.last() == c;
        self.lemma_path_below_start(p);
        assert(0 <= p[p.len() - 1] < self@.len());
        let k = choose|k: int| 0 <= k < operands(self@[c].op).len() && #[trigger] operands(self@[c].op)[k] == v;
        assert(operands(self@[c].op)[k] < c);
        self.lemma_reached_above(root, 0, v);
    }

    /// `order` lists the nodes that `root` reaches, each once, in increasing
    /// index order.
    pub open spec fn sorted_reach(&self, root: int, order: Seq<ValueWrapper>) -> bool {
        &&& forall|i: int, j: int| 0 <= i < j < order.len() ==> order[i].0 < order[j].0
        &&& forall|k: int| 0 <= k < order.len() ==> self.reaches(root, #[trigger] order[k].0 as int)
        &&& forall|v: int| self.reaches(root, v) ==> exists|k: int| 0 <= k < order.len() && #[trigger] order[k].0 == v
    }

    /// The nodes below `n` that `root` reaches, in increasing index order.
    pub open spec fn reached_below(&self, root: int, n: int) -> Seq<ValueWrapper>
        decreases n,
    {
        if n <= 0 {
            seq![]
        } else if self.reaches(root, n - 1) {
            self.reached_below(root, n - 1).push(ValueWrapper((n - 1) as usize))
        } else {
            self.reached_below(root, n - 1)
        }
    }

    /// The traversal order from `root`: every node it reaches, operands first.
    pub open spec fn order_from(&self, root: int) -> Seq<ValueWrapper> {
        self.reached_below(root, root + 1)
    }

    proof fn lemma_reached_below(&self, root: int, n: int)
        requires
            0 <= n <= usize::MAX + 1,
        ensures
            forall|i: int, j: int|
                0 <= i < j < self.reached_below(root, n).len() ==> self.reached_below(root, n)[i].0
                    < self.reached_below(root, n)[j].0,
            forall|k: int|
                0 <= k < self.reached_below(root, n).len() ==> (#[trigger] self.reached_below(root, n)[k]).0 < n
                    && self.reaches(root, self.reached_below(root, n)[k].0 as int),
            forall|v: int|
                0 <= v < n && self.reaches(root, v) ==> exists|k: int|
                    0 <= k < self.reached_below(root, n).len() && #[trigger] self.reached_below(root, n)[k].0 == v,
        decreases n,
    {
        if n > 0 {
            self.lemma_reached_below(root, n - 1);
            let prev = self.reached_below(root, n - 1);
            let cur = self.reached_below(root, n);
            if self.reaches(root, n - 1) {
                assert(cur == prev.push(ValueWrapper((n - 1) as usize)));
                assert forall|v: int| 0 <= v < n && self.reaches(root, v) implies exists|k: int|
                    0 <= k < cur.len() && #[trigger] cur[k].0 == v by {
                    if v < n - 1 {
                        let k = choose|k: int| 0 <= k < prev.len() && #[trigger] prev[k].0 == v;
                        assert(cur[k] == prev[k]);
                    } else {
                        assert(cur[cur.len() - 1].0 == v);
                    }
                }
            }
        }
    }

    /// The traversal order that a backward pass walks lists every node that
    /// `root` reaches exactly once, in increasing index order, so each
    /// node's rule runs exactly once.
    pub proof fn lemma_order_from_each_once(&self, root_handle: ValueWrapper)
        requires
            self.wf(),
            self.valid(root_handle),
        ensures
            self.sorted_reach(root_handle.0 as int, self.order_from(root_handle.0 as int)),
    {
        let root = root_handle.0 as int;
        self.lemma_reached_below(root, root + 1);
        assert forall|v: int| self.reaches(root, v) implies exists|k: int|
            0 <= k < self.order_from(root).len() && #[trigger] self.order_from(root)[k].0 == v by {
            let p = choose|p: Seq<int>| #[trigger] self.is_path(p) && p[0] == root && p.last() == v;
            self.lemma_path_below_start(p);
            assert(0 <= p[p.len() - 1] <= root);
            assert(self.order_from(root) == self.reached_below(root, root + 1));
        }
    }

    /// The nodes after a backward traversal from `root`: the root's gradient
    /// set to one, then the rule of every node of the traversal order applied
    /// once, last to first, so that consumers run before their operands.
    pub open spec fn backward_result(&self, root: int) -> Seq<Value<T>> {
        rules_applied(seeded(self@, root, self.one_spec()), self.order_from(root), self.one_spec())
    }

    /// Resetting every gradient to zero and running a backward traversal
    /// again reproduces the first run's gradients: two graphs that differ
    /// only in gradients, once all of those are zero, give the same result
    /// from the same root, whatever the gradients held before the reset.
    pub proof fn lemma_reset_rerun(&self, other: &Self, root: int)
        requires
            other.same_but_grads(self),
            forall|i: int| 0 <= i < self@.len() ==> #[trigger] self@[i].grad == self.zero_spec(),
            forall|i: int| 0 <= i < other@.len() ==> #[trigger] other@[i].grad == other.zero_spec(),
        ensures
            self.backward_result(root) == other.backward_result(root),
    {
        assert forall|i: int| 0 <= i < self@.len() implies #[trigger] self@[i] == other@[i] by {
            assert(other@[i].data == self@[i].data);
            assert(other@[i].op == self@[i].op);
            assert(other@[i].grad == self@[i].grad);
        }
        assert(self@ =~= other@);
        assert forall|i: int| 0 <= i < self@.len() implies (#[trigger] self@[i]).op == other@[i].op by {}
        self.lemma_same_structure_order(other, root, root + 1);
    }

    proof fn lemma_same_structure_order(&self, other: &Self, root: int, n: int)
        requires
            self.same_structure(other),
        ensures
            self.reached_below(root, n) == other.reached_below(root, n),
        decreases n,
    {
        if n > 0 {
            self.lemma_same_structure_order(other, root, n - 1);
            self.lemma_same_structure_reaches(other, root, n - 1);
        }
    }

    /// `self` and `other` have the same nodes with the same operations; their
    /// values and gradients may differ.
    pub open spec fn same_structure(&self, other: &Self) -> bool {
        &&& self@.len() == other@.len()
        &&& forall|i: int| 0 <= i < self@.len() ==> (#[trigger] self@[i]).op == other@[i].op
    }

    proof fn lemma_same_structure_reaches(&self, other: &Self, root: int, v: int)
        requires
            self.same_structure(other),
        ensures
            self.reaches(root, v) == other.reaches(root, v),
    {
        assert forall|p: Seq<int>| self.is_path(p) <==> other.is_path(p) by {
            if self.is_path(p) {
                assert forall|k: int| 0 <= k < p.len() - 1 implies other.feeds(#[trigger] p[k], p[k + 1]) by {
                    assert(self.feeds(p[k], p[k + 1]));
                    assert(self@[p[k]].op == other@[p[k]].op);
                }
            }
            if other.is_path(p) {
                assert forall|k: int| 0 <= k < p.len() - 1 implies self.feeds(#[trigger] p[k], p[k + 1]) by {
                    assert(other.feeds(p[k], p[k + 1]));
                    assert(self@[p[k]].op == other@[p[k]].op);
                }
            }
        }
        if self.reaches(root, v) {
            let p = choose|p: Seq<int>| #[trigger] self.is_path(p) && p[0] == root && p.last() == v;
            assert(other.is_path(p));
        }
        if other.reaches(root, v) {
            let p = choose|p: Seq<int>| #[trigger] other.is_path(p) && p[0] == root && p.last() == v;
            assert(self.is_path(p));
        }
    }

    /// The traversal order depends on the graph's structure alone: on two
    /// graphs with the same nodes and operations (for instance one graph
    /// before and after its gradients were reset, or its values updated),
    /// the orders from the same root are the same sequence.
    pub proof fn lemma_order_depends_on_structure(
        &self,
        other: &Self,
        root: int,
        o1: Seq<ValueWrapper>,
        o2: Seq<ValueWrapper>,
    )
        requires
            self.same_structure(other),
            self.sorted_reach(root, o1),
            other.sorted_reach(root, o2),
        ensures
            o1 == o2,
    {
        reveal(has);
        assert forall|k: int| 0 <= k < o1.len() implies has(o2, #[trigger] o1[k].0) by {
            self.lemma_same_structure_reaches(other, root, o1[k].0 as int);
        }
        assert forall|k: int| 0 <= k < o2.len() implies has(o1, #[trigger] o2[k].0) by {
            self.lemma_same_structure_reaches(other, root, o2[k].0 as int);
        }
        lemma_sorted_same_elements(o1, o2);
    }

    /// The nodes that `root` reaches, each once, in increasing index order.
    /// Every node comes after all of its operands, and `root` comes last.
    pub fn topological_order(&self, root: ValueWrapper) -> (order: Vec<ValueWrapper>)
        requires
            self.wf(),
            self.valid(root),
        ensures
            order@.len() >= 1,
            order@.last() == root,
            self.sorted_reach(root.0 as int, order@),
            order@ == self.order_from(root.0 as int),
            forall|k: int, v: int| 0 <= k < order@.len() && #[trigger] self.feeds(order@[k].0 as int, v)
                ==> exists|j: int| 0 <= j < k && #[trigger] order@[j].0 == v,
    {
        let ghost r = root.0 as int;
        let marks = self.reachable_marks(root);
        let n = self.nodes.len();
        proof {
            assert(self.is_path(seq![r]));
        }
        let mut order: Vec<ValueWrapper> = Vec::new();
        let mut i: usize = 0;
        while i <= root.0
            invariant
                self.wf(),
                r == root.0,
                r < n,
                self.reaches(r, r),
                r < self@.len(),
                0 <= i <= r + 1,
                marks@.len() == r + 1,
                forall|v: int| 0 <= v <= r ==> marks@[v] == self.reaches(r, v),
                forall|a: int, b: int| 0 <= a < b < order@.len() ==> order@[a].0 < order@[b].0,
                forall|k: int| 0 <= k < order@.len() ==> (#[trigger] order@[k]).0 < i && self.reaches(r, order@[k].0 as int),
                forall|v: int| 0 <= v < i && self.reaches(r, v) ==> exists|k: int| 0 <= k < order@.len() && #[trigger] order@[k].0 == v,
                i == r + 1 ==> order@.len() >= 1 && order@.last().0 == root.0,
                order@ == self.reached_below(r, i as int),
            decreases r + 1 - i,
        {
            let ghost before = order@;
            if marks[i] {
                order.push(ValueWrapper(i));
                assert(order@[order@.len() - 1].0 == i);
            } else {
                assert(i != r);
            }
            proof {
                assert forall|v: int| 0 <= v < i + 1 && self.reaches(r, v) implies exists|k: int|
                    0 <= k < order@.len() && #[trigger] order@[k].0 == v by {
                    if v < i {
                        let k = choose|k: int| 0 <= k < before.len() && #[trigger] before[k].0 == v;
                        assert(order@[k] == before[k]);
                    } else {
                        assert(order@[order@.len() - 1].0 == v);
                    }
                }
            }
            i = i + 1;
        }
        proof {
            assert forall|v: int| self.reaches(r, v) implies exists|k: int| 0 <= k < order@.len() && #[trigger] order@[k].0 == v by {
                let p = choose|p: Seq<int>| #[trigger] self.is_path(p) && p[0] == r && p.last() == v;
                self.lemma_path_below_start(p);
                assert(0 <= p[p.len() - 1]);
            }
            assert forall|k: int, v: int| 0 <= k < order@.len() && #[trigger] self.feeds(order@[k].0 as int, v)
                implies exists|j: int| 0 <= j < k && #[trigger] order@[j].0 == v by {
                self.lemma_reaches_step(r, order@[k].0 as int, v);
                let j = choose|j: int| 0 <= j < order@.len() && #[trigger] order@[j].0 == v;
                if j >= k {
                    assert(order@[k].0 <= order@[j].0);
                }
            }
        }
        order
    }

    fn set_grad(&mut self, v: ValueWrapper, x: T)
        requires
            old(self).valid(v),
        ensures
            final(self).same_but_grads(old(self)),
            final(self)@ == old(self)@.update(v.0 as int, Value { grad: x, ..old(self)@[v.0 as int] }),
    {
        let mut n = self.nodes[v.0];
        n.grad = x;
        self.nodes.set(v.0, n);
    }

    /// Sets the gradient of `v` back to zero, before a new backward pass.
    pub fn zero_grad(&mut self, v: ValueWrapper)
        requires
            old(self).wf(),
            old(self).valid(v),
        ensures
            final(self).wf(),
            final(self).same_but_grads(old(self)),
            final(self)@ == old(self)@.update(v.0 as int, Value { grad: old(self).zero_spec(), ..old(self)@[v.0 as int] }),
    {
        let z = self.zero;
        self.set_grad(v, z);
    }

    /// Sets every gradient in the graph back to zero.
    pub fn zero_all_grads(&mut self)
        requires
            old(self).wf(),
        ensures
            final(self).wf(),
            final(self).same_but_grads(old(self)),
            forall|i: int| 0 <= i < final(self)@.len() ==> #[trigger] final(self)@[i].grad == old(self).zero_spec(),
    {
        let n = self.nodes.len();
        let mut i: usize = 0;
        while i < n
            invariant
                n == old(self)@.len(),
                old(self).wf(),
                self.wf(),
                i <= n,
                self.same_but_grads(old(self)),
                forall|j: int| 0 <= j < i ==> #[trigger] self@[j].grad == old(self).zero_spec(),
            decreases n - i,
        {
            let z = self.zero;
            self.set_grad(ValueWrapper(i), z);
            i = i + 1;
        }
    }

    /// Overwrites the value of `v` (a parameter update); operations and
    /// gradients stay as they are.
    pub fn set_data(&mut self, v: ValueWrapper, x: T)
        requires
            old(self).wf(),
            old(self).valid(v),
        ensures
            final(self).wf(),
            final(self).zero_spec() == old(self).zero_spec(),
            final(self).one_spec() == old(self).one_spec(),
            final(self)@ == old(self)@.update(v.0 as int, Value { data: x, ..old(self)@[v.0 as int] }),
    {
        let mut n = self.nodes[v.0];
        n.data = x;
        self.nodes.set(v.0, n);
        proof {
            assert forall|i: int| 0 <= i < self@.len() implies #[trigger] self@[i].op == old(self)@[i].op by {}
        }
    }

    /// The whole record of a node.
    pub fn node(&self, v: ValueWrapper) -> (r: Value<T>)
        requires
            self.valid(v),
        ensures
            r == self@[v.0 as int],
    {
        self.nodes[v.0]
    }

    /// The current value of a node.
    pub fn data(&self, v: ValueWrapper) -> (r: T)
        requires
            self.valid(v),
        ensures
            r == self@[v.0 as int].data,
    {
        self.nodes[v.0].data
    }

    /// The gradient accumulated so far at a node.
    pub fn grad(&self, v: ValueWrapper) -> (r: T)
        requires
            self.valid(v),
        ensures
            r == self@[v.0 as int].grad,
    {
        self.nodes[v.0].grad
    }
}

} // verus!

verus! {

impl<T: Scalar> Value<T> {
    /// A new leaf holding `data`, with gradient zero and no operands.
    pub fn new(g: &mut Graph<T>, data: T) -> (r: ValueWrapper)
        requires
            old(g).wf(),
            old(g)@.len() < usize::MAX,
        ensures
            final(g).wf(),
            final(g).appended(old(g), r, Op::Leaf),
            final(g)@[r.0 as int].data == data,
    {
        g.push(data, Op::Leaf)
    }
}

impl ValueWrapper {
    /// `self + other`. Its rule adds the output's gradient to both operands.
    pub fn add<T: Scalar>(self, g: &mut Graph<T>, other: ValueWrapper) -> (r: ValueWrapper)
        requires
            old(g).wf(),
            old(g).valid(self),
            old(g).valid(other),
            old(g)@.len() < usize::MAX,
        ensures
            final(g).wf(),
            final(g).appended(old(g), r, Op::Add(self.0, other.0)),
            final(g)@[r.0 as int].data == old(g)@[self.0 as int].data.spec_plus(old(g)@[other.0 as int].data),
    {
        let x = g.data(self).plus(g.data(other));
        g.push(x, Op::Add(self.0, other.0))
    }

    /// `self * other`. Its rule adds to each operand the other operand's
    /// value times the output's gradient.
    pub fn mul<T: Scalar>(self, g: &mut Graph<T>, other: ValueWrapper) -> (r: ValueWrapper)
        requires
            old(g).wf(),
            old(g).valid(self),
            old(g).valid(other),
            old(g)@.len() < usize::MAX,
        ensures
            final(g).wf(),
            final(g).appended(old(g), r, Op::Mul(self.0, other.0)),
            final(g)@[r.0 as int].data == old(g)@[self.0 as int].data.spec_times(old(g)@[other.0 as int].data),
    {
        let x = g.data(self).times(g.data(other));
        g.push(x, Op::Mul(self.0, other.0))
    }

    /// `self` raised to the fixed exponent `exponent`. Its rule adds
    /// `exponent * self^(exponent - 1)` times the output's gradient.
    pub fn pow<T: Scalar>(self, g: &mut Graph<T>, exponent: T) -> (r: ValueWrapper)
        requires
            old(g).wf(),
            old(g).valid(self),
            old(g)@.len() < usize::MAX,
        ensures
            final(g).wf(),
            final(g).appended(old(g), r, Op::Pow(self.0, exponent)),
            final(g)@[r.0 as int].data == old(g)@[self.0 as int].data.spec_powf(exponent),
    {
        let x = g.data(self).powf(exponent);
        g.push(x, Op::Pow(self.0, exponent))
    }

    /// e raised to `self`. Its rule adds the output's value times the
    /// output's gradient.
    pub fn exp<T: Scalar>(self, g: &mut Graph<T>) -> (r: ValueWrapper)
        requires
            old(g).wf(),
            old(g).valid(self),
            old(g)@.len() < usize::MAX,
        ensures
            final(g).wf(),
            final(g).appended(old(g), r, Op::Exp(self.0)),
            final(g)@[r.0 as int].data == old(g)@[self.0 as int].data.spec_exp(),
    {
        let x = g.data(self).exp();
        g.push(x, Op::Exp(self.0))
    }

    /// The hyperbolic tangent `(e^x - e^-x) / (e^x + e^-x)` of `x = self`.
    /// Its rule adds `1 - t * t` times the output's gradient, where `t` is
    /// the output's value.
    pub fn tanh<T: Scalar>(self, g: &mut Graph<T>) -> (r: ValueWrapper)
        requires
            old(g).wf(),
            old(g).valid(self),
            old(g)@.len() < usize::MAX,
        ensures
            final(g).wf(),
            final(g).appended(old(g), r, Op::Tanh(self.0)),
            final(g)@[r.0 as int].data == spec_tanh(old(g)@[self.0 as int].data),
    {
        let x = g.data(self);
        let ep = x.exp();
        let en = x.negated().exp();
        let t = ep.minus(en).over(ep.plus(en));
        g.push(t, Op::Tanh(self.0))
    }

    /// `-self`, built as `self * c` with `c` a new leaf holding minus one.
    pub fn neg<T: Scalar>(self, g: &mut Graph<T>) -> (r: ValueWrapper)
        requires
            old(g).wf(),
            old(g).valid(self),
            old(g)@.len() + 1 < usize::MAX,
        ensures
            final(g).wf(),
            final(g).extends(old(g)),
            final(g)@.len() == old(g)@.len() + 2,
            final(g)@[old(g)@.len() as int] == (Value {
                data: old(g).one_spec().spec_negated(),
                grad: old(g).zero_spec(),
                op: Op::<T>::Leaf,
            }),
            r.0 == old(g)@.len() + 1,
            final(g)@[r.0 as int].op == Op::<T>::Mul(self.0, (r.0 - 1) as usize),
            final(g)@[r.0 as int].grad == old(g).zero_spec(),
            final(g)@[r.0 as int].data == old(g)@[self.0 as int].data.spec_times(old(g).one_spec().spec_negated()),
    {
        let minus_one = g.one.negated();
        let ghost g0 = *g;
        let c = Value::new(g, minus_one);
        let ghost g1 = *g;
        let r = self.mul(g, c);
        proof {
            Graph::lemma_extends_trans(&g0, &g1, g);
        }
        r
    }

    /// `self - other`, built as `self + (-other)`.
    pub fn sub<T: Scalar>(self, g: &mut Graph<T>, other: ValueWrapper) -> (r: ValueWrapper)
        requires
            old(g).wf(),
            old(g).valid(self),
            old(g).valid(other),
            old(g)@.len() + 2 < usize::MAX,
        ensures
            final(g).wf(),
            final(g).extends(old(g)),
            final(g)@.len() == old(g)@.len() + 3,
            final(g)@[old(g)@.len() as int].op == Op::<T>::Leaf,
            final(g)@[old(g)@.len() as int].data == old(g).one_spec().spec_negated(),
            final(g)@[old(g)@.len() + 1int].op == Op::<T>::Mul(other.0, old(g)@.len() as usize),
            final(g)@[old(g)@.len() + 1int].data == old(g)@[other.0 as int].data.spec_times(old(g).one_spec().spec_negated()),
            r.0 == old(g)@.len() + 2,
            final(g)@[r.0 as int].op == Op::<T>::Add(self.0, (r.0 - 1) as usize),
            final(g)@[r.0 as int].data == old(g)@[self.0 as int].data.spec_plus(
                old(g)@[other.0 as int].data.spec_times(old(g).one_spec().spec_negated()),
            ),
            forall|k: int| old(g)@.len() <= k < final(g)@.len() ==> final(g)@[k].grad == old(g).zero_spec(),
    {
        let ghost g0 = *g;
        let n = other.neg(g);
        let ghost g1 = *g;
        let r = self.add(g, n);
        proof {
            Graph::lemma_extends_trans(&g0, &g1, g);
            assert(g1@[g0@.len() as int] == g@[g0@.len() as int]);
            assert(g1@[g0@.len() + 1int] == g@[g0@.len() + 1int]);
        }
        r
    }

    /// `self / other`, built as `self * other^(-1)`.
    pub fn div<T: Scalar>(self, g: &mut Graph<T>, other: ValueWrapper) -> (r: ValueWrapper)
        requires
            old(g).wf(),
            old(g).valid(self),
            old(g).valid(other),
            old(g)@.len() + 1 < usize::MAX,
        ensures
            final(g).wf(),
            final(g).extends(old(g)),
            final(g)@.len() == old(g)@.len() + 2,
            final(g)@[old(g)@.len() as int].op == Op::<T>::Pow(other.0, old(g).one_spec().spec_negated()),
            final(g)@[old(g)@.len() as int].data == old(g)@[other.0 as int].data.spec_powf(old(g).one_spec().spec_negated()),
            r.0 == old(g)@.len() + 1,
            final(g)@[r.0 as int].op == Op::<T>::Mul(self.0, (r.0 - 1) as usize),
            final(g)@[r.0 as int].data == old(g)@[self.0 as int].data.spec_times(
                old(g)@[other.0 as int].data.spec_powf(old(g).one_spec().spec_negated()),
            ),
            forall|k: int| old(g)@.len() <= k < final(g)@.len() ==> final(g)@[k].grad == old(g).zero_spec(),
    {
        let minus_one = g.one.negated();
        let ghost g0 = *g;
        let inv = other.pow(g, minus_one);
        let ghost g1 = *g;
        let r = self.mul(g, inv);
        proof {
            Graph::lemma_extends_trans(&g0, &g1, g);
            assert(g1@[g0@.len() as int] == g@[g0@.len() as int]);
        }
        r
    }

    /// Reverse-mode differentiation from `self`: seeds the gradient of `self`
    /// with one, then applies the local-gradient rule of every node that
    /// `self` reaches, each once, consumers before their operands, so that
    /// each rule reads a gradient that is already complete. Gradients add to
    /// what they held before; values and operations are left as they are.
    pub fn backward<T: Scalar>(self, g: &mut Graph<T>)
        requires
            old(g).wf(),
            old(g).valid(self),
        ensures
            final(g).wf(),
            final(g).same_but_grads(old(g)),
            final(g)@[self.0 as int].grad == old(g).one_spec(),
            forall|v: int| 0 <= v < old(g)@.len() && !old(g).reaches(self.0 as int, v)
                ==> #[trigger] final(g)@[v] == old(g)@[v],
            final(g)@ == old(g).backward_result(self.0 as int),
    {
        let ghost g0 = *g;
        let order = g.topological_order(self);
        let one = g.one;
        g.set_grad(self, one);
        let mut k: usize = order.len();
        proof {
            assert(order@.subrange(0, k as int) =~= order@);
            assert(g@ =~= seeded(g0@, self.0 as int, g0.one_spec()));
        }
        while k > 0
            invariant
                g0.wf(),
                g0.valid(self),
                g.wf(),
                g.same_but_grads(&g0),
                k <= order@.len(),
                forall|j: int| 0 <= j < order@.len() ==> g0.reaches(self.0 as int, #[trigger] order@[j].0 as int),
                g@[self.0 as int].grad == g0.one_spec(),
                forall|v: int| 0 <= v < g0@.len() && !g0.reaches(self.0 as int, v)
                    ==> #[trigger] g@[v] == g0@[v],
                order@ == g0.order_from(self.0 as int),
                g0.backward_result(self.0 as int) == rules_applied(g@, order@.subrange(0, k as int), g0.one_spec()),
            decreases k,
        {
            proof {
                let o = order@.subrange(0, k as int);
                assert(o.drop_last() =~= order@.subrange(0, k - 1));
            }
            k = k - 1;
            let c = order[k];
            proof {
                let p = choose|p: Seq<int>| #[trigger] g0.is_path(p) && p[0] == self.0 && p.last() == c.0;
                assert(0 <= p[p.len() - 1] < g0@.len());
            }
            let ghost before = *g;
            g.apply_rule(c.0);
            proof {
                assert forall|v: int| before.feeds(c.0 as int, v) implies g0.reaches(self.0 as int, v) && v != self.0 by {
                    assert(g0.feeds(c.0 as int, v));
                    g0.lemma_reaches_step(self.0 as int, c.0 as int, v);
                }
            }
        }
    }
}

} // verus!
