use vstd::prelude::*;
use crate::engine::{Graph, Op, Value, ValueWrapper, handles};
use vstd::slice::slice_subrange;
use crate::scalar::{Scalar, spec_tanh};

verus! {

/// One unit: `tanh(b + w[0] * x[0] + ... + w[n-1] * x[n-1])`.
pub struct Neuron {
    pub w: Vec<ValueWrapper>,
    pub b: ValueWrapper,
}

/// The running sum of a unit's call after `k` inputs: the bias when
/// `k == 0`, else the last sum node appended.
pub open spec fn partial_sum(base: int, b: ValueWrapper, k: int) -> int {
    if k == 0 {
        b.0 as int
    } else {
        base + 2 * k - 1
    }
}

/// The first `n` steps of a unit's call appended at `base`, given its
/// weights `w`, its bias `b` and its inputs `x`: for each input its product
/// with the weight, then that product added to the running sum.
pub open spec fn neuron_steps<T: Scalar>(
    g: Seq<Value<T>>,
    base: int,
    w: Seq<ValueWrapper>,
    b: ValueWrapper,
    x: Seq<ValueWrapper>,
    n: int,
) -> bool {
    &&& forall|k: int|
        0 <= k < n ==> (#[trigger] g[base + 2 * k]).op == Op::<T>::Mul(w[k].0, x[k].0)
            && g[base + 2 * k].data == g[w[k].0 as int].data.spec_times(g[x[k].0 as int].data)
    &&& forall|k: int|
        0 <= k < n ==> (#[trigger] g[base + 2 * k + 1]).op == Op::<T>::Add(
            partial_sum(base, b, k) as usize,
            (base + 2 * k) as usize,
        ) && g[base + 2 * k + 1].data == g[partial_sum(base, b, k)].data.spec_plus(
            g[base + 2 * k].data,
        )
}

/// The nodes that one call of a unit over `n` inputs appends at `base`: its
/// steps, then the hyperbolic tangent of the whole sum.
pub open spec fn neuron_nodes<T: Scalar>(
    g: Seq<Value<T>>,
    base: int,
    w: Seq<ValueWrapper>,
    b: ValueWrapper,
    x: Seq<ValueWrapper>,
    n: int,
) -> bool {
    &&& neuron_steps(g, base, w, b, x, n)
    &&& g[base + 2 * n].op == Op::<T>::Tanh(partial_sum(base, b, n) as usize)
    &&& g[base + 2 * n].data == spec_tanh(g[partial_sum(base, b, n)].data)
}

/// The nodes of a unit's call stay as they are when nodes are appended.
proof fn lemma_nodes_kept<T: Scalar>(
    old: Seq<Value<T>>,
    new: Seq<Value<T>>,
    base: int,
    w: Seq<ValueWrapper>,
    b: ValueWrapper,
    x: Seq<ValueWrapper>,
    n: int,
)
    requires
        old.len() <= new.len(),
        new.subrange(0, old.len() as int) == old,
        0 <= base,
        0 <= n,
        base + 2 * n < old.len(),
        b.0 < old.len(),
        forall|k: int| 0 <= k < n ==> (#[trigger] w[k]).0 < old.len(),
        forall|k: int| 0 <= k < n ==> (#[trigger] x[k]).0 < old.len(),
        neuron_nodes(old, base, w, b, x, n),
    ensures
        neuron_nodes(new, base, w, b, x, n),
{
    lemma_steps_kept(old, new, base, w, b, x, n);
    let ps = partial_sum(base, b, n);
    assert(new.subrange(0, old.len() as int)[base + 2 * n] == new[base + 2 * n]);
    assert(new.subrange(0, old.len() as int)[ps] == new[ps]);
}

/// The steps of a unit's call stay as they are when nodes are appended.
proof fn lemma_steps_kept<T: Scalar>(
    old: Seq<Value<T>>,
    new: Seq<Value<T>>,
    base: int,
    w: Seq<ValueWrapper>,
    b: ValueWrapper,
    x: Seq<ValueWrapper>,
    n: int,
)
    requires
        old.len() <= new.len(),
        new.subrange(0, old.len() as int) == old,
        0 <= base,
        base + 2 * n <= old.len(),
        b.0 < old.len(),
        forall|k: int| 0 <= k < n ==> (#[trigger] w[k]).0 < old.len(),
        forall|k: int| 0 <= k < n ==> (#[trigger] x[k]).0 < old.len(),
        neuron_steps(old, base, w, b, x, n),
    ensures
        neuron_steps(new, base, w, b, x, n),
{
    assert forall|i: int| 0 <= i < old.len() implies new[i] == old[i] by {
        assert(new.subrange(0, old.len() as int)[i] == new[i]);
    }
    assert forall|k: int| 0 <= k < n implies (#[trigger] new[base + 2 * k]).op == Op::<T>::Mul(w[k].0, x[k].0)
        && new[base + 2 * k].data == new[w[k].0 as int].data.spec_times(new[x[k].0 as int].data) by {
        assert(new[base + 2 * k] == old[base + 2 * k]);
        assert(new[w[k].0 as int] == old[w[k].0 as int]);
        assert(new[x[k].0 as int] == old[x[k].0 as int]);
    }
    assert forall|k: int| 0 <= k < n implies (#[trigger] new[base + 2 * k + 1]).op == Op::<T>::Add(
        partial_sum(base, b, k) as usize,
        (base + 2 * k) as usize,
    ) && new[base + 2 * k + 1].data == new[partial_sum(base, b, k)].data.spec_plus(new[base + 2 * k].data) by {
        assert(new[base + 2 * k + 1] == old[base + 2 * k + 1]);
        assert(new[base + 2 * k] == old[base + 2 * k]);
        assert(new[partial_sum(base, b, k)] == old[partial_sum(base, b, k)]);
    }
}

impl Neuron {
    /// The parameters: the weights, then the bias.
    pub open spec fn params(&self) -> Seq<ValueWrapper> {
        self.w@.push(self.b)
    }

    pub open spec fn valid_in<T: Scalar>(&self, g: &Graph<T>) -> bool {
        forall|k: int| 0 <= k < self.params().len() ==> g.valid(#[trigger] self.params()[k])
    }

    /// A unit over `nin` inputs whose weights and bias are new leaves holding
    /// `init` in order: `nin` weights, then the bias.
    pub fn new<T: Scalar>(g: &mut Graph<T>, nin: usize, init: &[T]) -> (r: Self)
        requires
            old(g).wf(),
            init@.len() == nin + 1,
            old(g)@.len() + nin + 1 <= usize::MAX,
        ensures
            final(g).wf(),
            final(g).holds_leaves(old(g), init@),
            r.w@.len() == nin,
            r.params() == handles(old(g)@.len() as int, nin + 1),
    {
        let ghost g0 = *g;
        proof {
            assert(g0@.subrange(0, g0@.len() as int) =~= g0@);
        }
        let mut w: Vec<ValueWrapper> = Vec::new();
        let mut i: usize = 0;
        while i < nin
            invariant
                g.wf(),
                i <= nin,
                init@.len() == nin + 1,
                g0@.len() + nin + 1 <= usize::MAX,
                g.holds_leaves(&g0, init@.subrange(0, i as int)),
                w@ == handles(g0@.len() as int, i as int),
            decreases nin - i,
        {
            let ghost g1 = *g;
            let v = Value::new(g, init[i]);
            proof {
                Graph::lemma_extends_trans(&g0, &g1, g);
                assert forall|k: int| 0 <= k < i + 1 implies #[trigger] g@[g0@.len() + k] == (Value {
                    data: init@.subrange(0, i + 1)[k],
                    grad: g0.zero_spec(),
                    op: Op::<T>::Leaf,
                }) by {
                    if k < i {
                        assert(g1@[g0@.len() + k] == g@[g0@.len() + k]);
                    }
                }
            }
            w.push(v);
            i = i + 1;
            proof {
                assert(w@ =~= handles(g0@.len() as int, i as int));
            }
        }
        let ghost g1 = *g;
        let b = Value::new(g, init[nin]);
        proof {
            Graph::lemma_extends_trans(&g0, &g1, g);
            assert(init@.subrange(0, nin as int + 1) =~= init@);
            assert forall|k: int| 0 <= k < nin + 1 implies #[trigger] g@[g0@.len() + k] == (Value {
                data: init@[k],
                grad: g0.zero_spec(),
                op: Op::<T>::Leaf,
            }) by {
                if k < nin {
                    assert(g1@[g0@.len() + k] == g@[g0@.len() + k]);
                    assert(init@.subrange(0, nin as int)[k] == init@[k]);
                }
            }
        }
        let r = Neuron { w, b };
        proof {
            assert(r.params() =~= handles(g0@.len() as int, nin + 1));
        }
        r
    }

    /// Applies the unit to `x`: appends the weighted sum of `x` plus the bias
    /// and its hyperbolic tangent to `g`, and returns the tangent's node.
    pub fn call<T: Scalar>(&self, g: &mut Graph<T>, x: &[ValueWrapper]) -> (r: ValueWrapper)
        requires
            old(g).wf(),
            self.valid_in(old(g)),
            x@.len() == self.w@.len(),
            forall|k: int| 0 <= k < x@.len() ==> old(g).valid(#[trigger] x@[k]),
            old(g)@.len() + 2 * x@.len() + 1 <= usize::MAX,
        ensures
            final(g).wf(),
            final(g).extends(old(g)),
            final(g)@.len() == old(g)@.len() + 2 * x@.len() + 1,
            neuron_nodes(final(g)@, old(g)@.len() as int, self.w@, self.b, x@, x@.len() as int),
            r.0 == old(g)@.len() + 2 * x@.len(),
            forall|k: int| old(g)@.len() <= k < final(g)@.len() ==> #[trigger] final(g)@[k].grad == old(g).zero_spec(),
    {
        let ghost g0 = *g;
        let ghost base = g0@.len() as int;
        proof {
            assert(g0@.subrange(0, base) =~= g0@);
            assert(self.w@.len() < self.params().len());
            assert forall|k: int| 0 <= k < self.w@.len() implies g0.valid(#[trigger] self.w@[k]) by {
                assert(self.params()[k] == self.w@[k]);
            }
            assert(g0.valid(self.params()[self.w@.len() as int]));
        }
        let n = x.len();
        let mut act = self.b;
        let mut i: usize = 0;
        while i < n
            invariant
                n == x@.len(),
                n == self.w@.len(),
                i <= n,
                base == g0@.len(),
                base + 2 * n + 1 <= usize::MAX,
                g.wf(),
                g.extends(&g0),
                g@.len() == base + 2 * i,
                forall|k: int| 0 <= k < n ==> g0.valid(#[trigger] self.w@[k]),
                forall|k: int| 0 <= k < n ==> g0.valid(#[trigger] x@[k]),
                g0.valid(self.b),
                act.0 == (if i == 0 { self.b.0 as int } else { base + 2 * i - 1 }),
                neuron_steps(g@, base, self.w@, self.b, x@, i as int),
                forall|k: int| base <= k < g@.len() ==> #[trigger] g@[k].grad == g0.zero_spec(),
            decreases n - i,
        {
            let ghost g1 = *g;
            let m = self.w[i].mul(g, x[i]);
            let ghost g2 = *g;
            act = act.add(g, m);
            proof {
                Graph::lemma_extends_trans(&g0, &g1, &g2);
                Graph::lemma_extends_trans(&g0, &g2, g);
                Graph::lemma_extends_trans(&g1, &g2, g);
                lemma_steps_kept(g1@, g@, base, self.w@, self.b, x@, i as int);
                let wi = self.w@[i as int].0 as int;
                let xi = x@[i as int].0 as int;
                let ps = partial_sum(base, self.b, i as int);
                assert(g@[wi] == g1@[wi] && g@[xi] == g1@[xi] && g@[ps] == g1@[ps]);
                assert(g@[base + 2 * i] == g2@[base + 2 * i]);
                assert(g2@[ps] == g1@[ps]);
                assert forall|k: int| base <= k < g@.len() implies #[trigger] g@[k].grad == g0.zero_spec() by {
                    if k < base + 2 * i {
                        assert(g1@[k] == g@[k]);
                    } else if k == base + 2 * i {
                        assert(g2@[k] == g@[k]);
                    }
                }
            }
            i = i + 1;
        }
        let ghost g1 = *g;
        let r = act.tanh(g);
        proof {
            Graph::lemma_extends_trans(&g0, &g1, g);
            lemma_steps_kept(g1@, g@, base, self.w@, self.b, x@, n as int);
            let ps = partial_sum(base, self.b, n as int);
            assert(g@[ps] == g1@[ps]);
            assert forall|k: int| base <= k < g@.len() implies #[trigger] g@[k].grad == g0.zero_spec() by {
                if k < base + 2 * n {
                    assert(g1@[k] == g@[k]);
                }
            }
        }
        r
    }

    /// The weights followed by the bias.
    pub fn parameters(&self) -> (r: Vec<ValueWrapper>)
        ensures
            r@ == self.params(),
    {
        let mut r = self.w.clone();
        r.push(self.b);
        r
    }
}

/// The parameters of `ns`, unit after unit.
pub open spec fn neurons_params(ns: Seq<Neuron>) -> Seq<ValueWrapper>
    decreases ns.len(),
{
    if ns.len() == 0 {
        seq![]
    } else {
        neurons_params(ns.drop_last()) + ns.last().params()
    }
}

/// The outputs of a layer of `nout` units over `n` inputs whose call
/// appended its nodes at `base`: the last node of each unit's part.
pub open spec fn layer_outputs(base: int, nout: int, n: int) -> Seq<ValueWrapper> {
    Seq::new(nout as nat, |k: int| ValueWrapper((base + k * (2 * n + 1) + 2 * n) as usize))
}

/// `g` holds, from `base` on, the nodes of one call of `layer` on `x`: the
/// nodes of each unit's call, one unit after the other.
pub open spec fn layer_built<T: Scalar>(g: Seq<Value<T>>, base: int, layer: Layer, x: Seq<ValueWrapper>) -> bool {
    forall|k: int|
        0 <= k < layer.neurons@.len() ==> neuron_nodes(
            g,
            base + k * (2 * x.len() + 1),
            (#[trigger] layer.neurons@[k]).w@,
            layer.neurons@[k].b,
            x,
            x.len() as int,
        )
}

/// An ordered collection of units over the same inputs.
pub struct Layer {
    pub neurons: Vec<Neuron>,
}

impl Layer {
    pub open spec fn params(&self) -> Seq<ValueWrapper> {
        neurons_params(self.neurons@)
    }

    /// Every unit takes `nin` inputs.
    pub open spec fn takes(&self, nin: int) -> bool {
        forall|k: int| 0 <= k < self.neurons@.len() ==> (#[trigger] self.neurons@[k]).w@.len() == nin
    }

    pub open spec fn valid_in<T: Scalar>(&self, g: &Graph<T>) -> bool {
        forall|k: int| 0 <= k < self.neurons@.len() ==> (#[trigger] self.neurons@[k]).valid_in(g)
    }

    /// `nout` units over `nin` inputs, whose parameters are new leaves holding
    /// `init` in order, `nin + 1` values per unit.
    pub fn new<T: Scalar>(g: &mut Graph<T>, nin: usize, nout: usize, init: &[T]) -> (r: Self)
        requires
            old(g).wf(),
            nin < usize::MAX,
            init@.len() == nout * (nin + 1),
            old(g)@.len() + nout * (nin + 1) <= usize::MAX,
        ensures
            final(g).wf(),
            final(g).holds_leaves(old(g), init@),
            r.neurons@.len() == nout,
            r.takes(nin as int),
            r.params() == handles(old(g)@.len() as int, nout * (nin + 1)),
    {
        let ghost g0 = *g;
        let ghost base = g0@.len() as int;
        proof {
            assert(g0@.subrange(0, base) =~= g0@);
            assert(init@.subrange(0, 0) =~= seq![]);
            assert(handles(base, 0) =~= seq![]);
        }
        let s: usize = nin + 1;
        let mut neurons: Vec<Neuron> = Vec::new();
        let mut j: usize = 0;
        while j < nout
            invariant
                s == nin + 1,
                j <= nout,
                base == g0@.len(),
                init@.len() == nout * s,
                j * s <= nout * s,
                base + nout * s <= usize::MAX,
                g.wf(),
                g.holds_leaves(&g0, init@.subrange(0, j * s)),
                neurons@.len() == j,
                forall|k: int| 0 <= k < j ==> (#[trigger] neurons@[k]).w@.len() == nin,
                neurons_params(neurons@) == handles(base, j * s),
            decreases nout - j,
        {
            proof {
                assert((j + 1) * s <= nout * s) by (nonlinear_arith)
                    requires j + 1 <= nout;
                assert((j + 1) * s == j * s + s) by (nonlinear_arith);
            }
            let lo: usize = j * s;
            let hi: usize = lo + s;
            let part = slice_subrange(init, lo, hi);
            let ghost g1 = *g;
            let n = Neuron::new(g, nin, part);
            proof {
                Graph::lemma_extends_trans(&g0, &g1, g);
                let done = init@.subrange(0, hi as int);
                assert forall|k: int| 0 <= k < done.len() implies #[trigger] g@[base + k] == (Value {
                    data: done[k],
                    grad: g0.zero_spec(),
                    op: Op::<T>::Leaf,
                }) by {
                    if k < lo {
                        assert(g1@[base + k] == g@[base + k]);
                        assert(init@.subrange(0, lo as int)[k] == done[k]);
                    } else {
                        assert(g@[g1@.len() + (k - lo)] == g@[base + k]);
                        assert(part@[k - lo] == done[k]);
                    }
                }
            }
            let ghost before = neurons@;
            neurons.push(n);
            j = j + 1;
            proof {
                assert(neurons@.drop_last() =~= before);
                assert(neurons_params(neurons@) =~= handles(base, j * s));
            }
        }
        proof {
            assert(init@.subrange(0, nout * s) =~= init@);
        }
        Layer { neurons }
    }

    /// Applies every unit to the same `x`, in order, and returns their outputs.
    pub fn call<T: Scalar>(&self, g: &mut Graph<T>, x: &[ValueWrapper]) -> (r: Vec<ValueWrapper>)
        requires
            old(g).wf(),
            self.takes(x@.len() as int),
            self.valid_in(old(g)),
            forall|k: int| 0 <= k < x@.len() ==> old(g).valid(#[trigger] x@[k]),
            old(g)@.len() + self.neurons@.len() * (2 * x@.len() + 1) <= usize::MAX,
        ensures
            final(g).wf(),
            final(g).extends(old(g)),
            final(g)@.len() == old(g)@.len() + self.neurons@.len() * (2 * x@.len() + 1),
            r@ == layer_outputs(old(g)@.len() as int, self.neurons@.len() as int, x@.len() as int),
            layer_built(final(g)@, old(g)@.len() as int, *self, x@),
    {
        let ghost g0 = *g;
        let ghost base = g0@.len() as int;
        let ghost c = 2 * x@.len() + 1;
        proof {
            assert(g0@.subrange(0, base) =~= g0@);
        }
        let mut out: Vec<ValueWrapper> = Vec::new();
        let mut j: usize = 0;
        while j < self.neurons.len()
            invariant
                j <= self.neurons@.len(),
                c == 2 * x@.len() + 1,
                base == g0@.len(),
                base + self.neurons@.len() * c <= usize::MAX,
                self.takes(x@.len() as int),
                self.valid_in(&g0),
                forall|k: int| 0 <= k < x@.len() ==> g0.valid(#[trigger] x@[k]),
                g.wf(),
                g.extends(&g0),
                g@.len() == base + j * c,
                out@.len() == j,
                forall|k: int|
                    0 <= k < j ==> (#[trigger] out@[k]).0 == base + k * c + 2 * x@.len() && neuron_nodes(
                        g@,
                        base + k * c,
                        self.neurons@[k].w@,
                        self.neurons@[k].b,
                        x@,
                        x@.len() as int,
                    ),
            decreases self.neurons@.len() - j,
        {
            proof {
                assert((j + 1) * c <= self.neurons@.len() * c) by (nonlinear_arith)
                    requires j + 1 <= self.neurons@.len(), c >= 0;
                assert((j + 1) * c == j * c + c) by (nonlinear_arith);
                assert(self.neurons@[j as int].valid_in(&g0));
            }
            let ghost g1 = *g;
            let o = self.neurons[j].call(g, x);
            proof {
                Graph::lemma_extends_trans(&g0, &g1, g);
                assert forall|k: int| 0 <= k < j implies neuron_nodes(
                    g@,
                    base + k * c,
                    self.neurons@[k].w@,
                    self.neurons@[k].b,
                    x@,
                    x@.len() as int,
                ) by {
                    assert((k + 1) * c <= j * c) by (nonlinear_arith)
                        requires k + 1 <= j, c >= 0;
                    assert((k + 1) * c == k * c + c) by (nonlinear_arith);
                    assert(k * c >= 0) by (nonlinear_arith)
                        requires k >= 0, c >= 0;
                    let nk = self.neurons@[k];
                    assert(out@[k].0 == base + k * c + 2 * x@.len());
                    assert(nk.valid_in(&g0));
                    assert(nk.w@.len() == x@.len());
                    assert forall|p: int| 0 <= p < x@.len() implies (#[trigger] nk.w@[p]).0 < g1@.len() by {
                        assert(nk.params()[p] == nk.w@[p]);
                    }
                    assert(nk.params()[nk.w@.len() as int] == nk.b);
                    lemma_nodes_kept(g1@, g@, base + k * c, nk.w@, nk.b, x@, x@.len() as int);
                }
            }
            out.push(o);
            j = j + 1;
        }
        proof {
            assert(out@ =~= layer_outputs(base, self.neurons@.len() as int, x@.len() as int));
            assert forall|k: int| 0 <= k < self.neurons@.len() implies neuron_nodes(
                g@,
                base + k * c,
                (#[trigger] self.neurons@[k]).w@,
                self.neurons@[k].b,
                x@,
                x@.len() as int,
            ) by {
                assert(out@[k].0 == base + k * c + 2 * x@.len());
            }
        }
        out
    }

    /// The parameters of every unit, in unit order.
    pub fn parameters(&self) -> (r: Vec<ValueWrapper>)
        ensures
            r@ == self.params(),
    {
        let mut r: Vec<ValueWrapper> = Vec::new();
        let mut j: usize = 0;
        while j < self.neurons.len()
            invariant
                j <= self.neurons@.len(),
                r@ == neurons_params(self.neurons@.subrange(0, j as int)),
            decreases self.neurons@.len() - j,
        {
            let mut p = self.neurons[j].parameters();
            r.append(&mut p);
            j = j + 1;
            proof {
                assert(self.neurons@.subrange(0, j as int).drop_last() =~= self.neurons@.subrange(0, j - 1));
            }
        }
        proof {
            assert(self.neurons@.subrange(0, j as int) =~= self.neurons@);
        }
        r
    }
}

/// The input width of the layer after those of `nouts`: `nin` when there are
/// none, else the size of the last.
pub open spec fn width_after(nin: int, nouts: Seq<usize>) -> int {
    if nouts.len() == 0 {
        nin
    } else {
        nouts.last() as int
    }
}

/// How many parameters a network over `nin` inputs with layers of sizes
/// `nouts` has: for each layer, its size times one more than its input width.
pub open spec fn param_total(nin: int, nouts: Seq<usize>) -> int
    decreases nouts.len(),
{
    if nouts.len() == 0 {
        0
    } else {
        param_total(nin, nouts.drop_last()) + nouts.last() * (width_after(nin, nouts.drop_last()) + 1)
    }
}

proof fn lemma_param_total_grows(nin: int, nouts: Seq<usize>, j: int)
    requires
        0 <= j <= nouts.len(),
        nin >= 0,
    ensures
        0 <= param_total(nin, nouts.subrange(0, j)) <= param_total(nin, nouts),
    decreases nouts.len(),
{
    if nouts.len() > 0 {
        let w = width_after(nin, nouts.drop_last());
        assert(nouts.last() * (w + 1) >= 0) by (nonlinear_arith)
            requires w >= 0;
        if j == nouts.len() {
            assert(nouts.subrange(0, j) =~= nouts);
            lemma_param_total_grows(nin, nouts.drop_last(), 0);
        } else {
            assert(nouts.drop_last().subrange(0, j) =~= nouts.subrange(0, j));
            lemma_param_total_grows(nin, nouts.drop_last(), j);
        }
    }
}

/// The number of parameters of a network over `nin` inputs with layers of
/// sizes `nouts`, or `None` when it does not fit in a `usize`.
pub fn parameter_count(nin: usize, nouts: &[usize]) -> (r: Option<usize>)
    ensures
        match r {
            Some(c) => c == param_total(nin as int, nouts@),
            None => param_total(nin as int, nouts@) > usize::MAX,
        },
{
    let mut total: usize = 0;
    let mut width: usize = nin;
    let mut l: usize = 0;
    while l < nouts.len()
        invariant
            l <= nouts@.len(),
            total == param_total(nin as int, nouts@.subrange(0, l as int)),
            width == width_after(nin as int, nouts@.subrange(0, l as int)),
        decreases nouts@.len() - l,
    {
        let nout = nouts[l];
        proof {
            let pre = nouts@.subrange(0, l as int);
            let next = nouts@.subrange(0, l + 1);
            assert(next.drop_last() =~= pre);
            lemma_param_total_grows(nin as int, nouts@, l + 1);
        }
        let mut term: usize = 0;
        if nout > 0 {
            if width == usize::MAX {
                proof {
                    assert(nout * (width + 1) > usize::MAX) by (nonlinear_arith)
                        requires nout >= 1, width == usize::MAX;
                }
                return None;
            }
            match nout.checked_mul(width + 1) {
                Some(t) => {
                    term = t;
                },
                None => {
                    return None;
                },
            }
        }
        proof {
            if nout == 0 {
                assert(nout * (width + 1) == 0) by (nonlinear_arith)
                    requires nout == 0;
            }
            assert(term == nout * (width + 1));
        }
        match total.checked_add(term) {
            Some(t) => {
                total = t;
            },
            None => {
                return None;
            },
        }
        width = nout;
        l = l + 1;
    }
    proof {
        assert(nouts@.subrange(0, l as int) =~= nouts@);
    }
    Some(total)
}

/// The parameters of `ls`, layer after layer.
pub open spec fn layers_params(ls: Seq<Layer>) -> Seq<ValueWrapper>
    decreases ls.len(),
{
    if ls.len() == 0 {
        seq![]
    } else {
        layers_params(ls.drop_last()) + ls.last().params()
    }
}

/// A network: layers applied one after the other.
pub struct MultiLayerPerceptron {
    pub layers: Vec<Layer>,
}

impl MultiLayerPerceptron {
    pub open spec fn params(&self) -> Seq<ValueWrapper> {
        layers_params(self.layers@)
    }

    /// A network over `nin` inputs with one layer per entry of `nouts`, of that
    /// size; each layer takes as many inputs as the previous one has units.
    /// Its parameters are new leaves holding `init` in order.
    pub fn new<T: Scalar>(g: &mut Graph<T>, nin: usize, nouts: &[usize], init: &[T]) -> (r: Self)
        requires
            old(g).wf(),
            nin < usize::MAX,
            forall|l: int| 0 <= l < nouts@.len() ==> #[trigger] nouts@[l] < usize::MAX,
            init@.len() == param_total(nin as int, nouts@),
            old(g)@.len() + init@.len() <= usize::MAX,
        ensures
            final(g).wf(),
            final(g).holds_leaves(old(g), init@),
            r.layers@.len() == nouts@.len(),
            forall|l: int|
                0 <= l < nouts@.len() ==> (#[trigger] r.layers@[l]).neurons@.len() == nouts@[l]
                    && r.layers@[l].takes(width_after(nin as int, nouts@.subrange(0, l))),
            r.params() == handles(old(g)@.len() as int, init@.len() as int),
    {
        let ghost g0 = *g;
        let ghost base = g0@.len() as int;
        proof {
            assert(g0@.subrange(0, base) =~= g0@);
            assert(init@.subrange(0, 0) =~= seq![]);
            assert(handles(base, 0) =~= seq![]);
            assert(nouts@.subrange(0, 0) =~= seq![]);
        }
        let mut layers: Vec<Layer> = Vec::new();
        let mut width: usize = nin;
        let mut used: usize = 0;
        let mut l: usize = 0;
        while l < nouts.len()
            invariant
                l <= nouts@.len(),
                nin < usize::MAX,
                forall|i: int| 0 <= i < nouts@.len() ==> #[trigger] nouts@[i] < usize::MAX,
                base == g0@.len(),
                init@.len() == param_total(nin as int, nouts@),
                base + init@.len() <= usize::MAX,
                used == param_total(nin as int, nouts@.subrange(0, l as int)),
                used <= init@.len(),
                width == width_after(nin as int, nouts@.subrange(0, l as int)),
                g.wf(),
                g.holds_leaves(&g0, init@.subrange(0, used as int)),
                layers@.len() == l,
                forall|i: int|
                    0 <= i < l ==> (#[trigger] layers@[i]).neurons@.len() == nouts@[i]
                        && layers@[i].takes(width_after(nin as int, nouts@.subrange(0, i))),
                layers_params(layers@) == handles(base, used as int),
            decreases nouts@.len() - l,
        {
            let nout = nouts[l];
            proof {
                let next = nouts@.subrange(0, l + 1);
                assert(next.drop_last() =~= nouts@.subrange(0, l as int));
                lemma_param_total_grows(nin as int, nouts@, l + 1);
            }
            let size: usize = nout * (width + 1);
            let part = slice_subrange(init, used, used + size);
            let ghost g1 = *g;
            let layer = Layer::new(g, width, nout, part);
            proof {
                Graph::lemma_extends_trans(&g0, &g1, g);
                let done = init@.subrange(0, used + size);
                assert forall|k: int| 0 <= k < done.len() implies #[trigger] g@[base + k] == (Value {
                    data: done[k],
                    grad: g0.zero_spec(),
                    op: Op::<T>::Leaf,
                }) by {
                    if k < used {
                        assert(g1@[base + k] == g@[base + k]);
                        assert(init@.subrange(0, used as int)[k] == done[k]);
                    } else {
                        assert(g@[g1@.len() + (k - used)] == g@[base + k]);
                        assert(part@[k - used] == done[k]);
                    }
                }
            }
            let ghost before = layers@;
            layers.push(layer);
            used = used + size;
            width = nout;
            l = l + 1;
            proof {
                assert(layers@.drop_last() =~= before);
                assert(layers_params(layers@) =~= handles(base, used as int));
                assert forall|i: int|
                    0 <= i < l implies (#[trigger] layers@[i]).neurons@.len() == nouts@[i]
                        && layers@[i].takes(width_after(nin as int, nouts@.subrange(0, i))) by {
                    if i < l - 1 {
                        assert(layers@[i] == before[i]);
                    }
                }
            }
        }
        proof {
            assert(nouts@.subrange(0, l as int) =~= nouts@);
            assert(init@.subrange(0, used as int) =~= init@);
        }
        MultiLayerPerceptron { layers }
    }
}

/// The input width of layer `l` of `ls` when the network takes `nin` inputs.
pub open spec fn input_width(ls: Seq<Layer>, nin: int, l: int) -> int {
    if l == 0 {
        nin
    } else {
        ls[l - 1].neurons@.len() as int
    }
}

/// Each layer of `ls` takes as many inputs as the one before it yields,
/// the first `nin`.
pub open spec fn chained(ls: Seq<Layer>, nin: int) -> bool {
    forall|l: int| 0 <= l < ls.len() ==> (#[trigger] ls[l]).takes(input_width(ls, nin, l))
}

/// How many nodes one forward pass of `ls` over `nin` inputs appends.
pub open spec fn forward_cost(ls: Seq<Layer>, nin: int) -> int
    decreases ls.len(),
{
    if ls.len() == 0 {
        0
    } else {
        forward_cost(ls.drop_last(), nin) + ls.last().neurons@.len() * (2 * input_width(
            ls,
            nin,
            ls.len() - 1,
        ) + 1)
    }
}

proof fn lemma_forward_cost_grows(ls: Seq<Layer>, nin: int, j: int)
    requires
        0 <= j <= ls.len(),
        nin >= 0,
    ensures
        0 <= forward_cost(ls.subrange(0, j), nin) <= forward_cost(ls, nin),
    decreases ls.len(),
{
    if ls.len() > 0 {
        let w = input_width(ls, nin, ls.len() - 1);
        assert(ls.last().neurons@.len() * (2 * w + 1) >= 0) by (nonlinear_arith)
            requires w >= 0;
        let d = ls.drop_last();
        assert forall|l: int| 0 <= l < d.len() implies input_width(d, nin, l) == input_width(ls, nin, l) by {}
        if j == ls.len() {
            assert(ls.subrange(0, j) =~= ls);
            lemma_forward_cost_grows(d, nin, 0);
        } else {
            assert(d.subrange(0, j) =~= ls.subrange(0, j));
            lemma_forward_cost_grows(d, nin, j);
        }
    }
}

/// Where the nodes of the layer after the first `m` of a forward pass start:
/// `base` for the first, else right after the previous layer's nodes.
pub open spec fn next_base(
    ls: Seq<Layer>,
    base: int,
    ins: Seq<Seq<ValueWrapper>>,
    bases: Seq<int>,
    m: int,
) -> int {
    if m == 0 {
        base
    } else {
        bases[m - 1] + ls[m - 1].neurons@.len() * (2 * ins[m - 1].len() + 1)
    }
}

/// The first `m` layers of a forward pass from `base`: layer `l` appended its
/// nodes at `bases[l]`, right after those of layer `l - 1`, took `ins[l]` and
/// yielded `ins[l + 1]`.
pub open spec fn forward_trace(
    ls: Seq<Layer>,
    base: int,
    ins: Seq<Seq<ValueWrapper>>,
    bases: Seq<int>,
    m: int,
) -> bool {
    &&& ins.len() == m + 1
    &&& bases.len() == m
    &&& forall|l: int| 0 <= l < m ==> #[trigger] bases[l] == next_base(ls, base, ins, bases, l)
    &&& forall|l: int|
        0 <= l < m ==> #[trigger] ins[l + 1] == layer_outputs(
            bases[l],
            ls[l].neurons@.len() as int,
            ins[l].len() as int,
        )
}

/// A layer's nodes stay as they are when nodes are appended.
proof fn lemma_layer_built_kept<T: Scalar>(
    old: Seq<Value<T>>,
    new: Seq<Value<T>>,
    base: int,
    layer: Layer,
    x: Seq<ValueWrapper>,
)
    requires
        old.len() <= new.len(),
        new.subrange(0, old.len() as int) == old,
        0 <= base,
        base + layer.neurons@.len() * (2 * x.len() + 1) <= old.len(),
        layer.takes(x.len() as int),
        forall|k: int| 0 <= k < layer.neurons@.len() ==> (#[trigger] layer.neurons@[k]).params().len() > 0
            && forall|p: int| 0 <= p < layer.neurons@[k].params().len() ==> (#[trigger] layer.neurons@[k].params()[p]).0 < old.len(),
        forall|k: int| 0 <= k < x.len() ==> (#[trigger] x[k]).0 < old.len(),
        layer_built(old, base, layer, x),
    ensures
        layer_built(new, base, layer, x),
{
    let c = 2 * x.len() + 1;
    assert forall|k: int| 0 <= k < layer.neurons@.len() implies neuron_nodes(
        new,
        base + k * c,
        (#[trigger] layer.neurons@[k]).w@,
        layer.neurons@[k].b,
        x,
        x.len() as int,
    ) by {
        let nk = layer.neurons@[k];
        assert((k + 1) * c <= layer.neurons@.len() * c) by (nonlinear_arith)
            requires k + 1 <= layer.neurons@.len(), c >= 0;
        assert((k + 1) * c == k * c + c) by (nonlinear_arith);
        assert(k * c >= 0) by (nonlinear_arith)
            requires k >= 0, c >= 0;
        assert forall|p: int| 0 <= p < x.len() implies (#[trigger] nk.w@[p]).0 < old.len() by {
            assert(nk.params()[p] == nk.w@[p]);
        }
        assert(nk.params()[nk.w@.len() as int] == nk.b);
        lemma_nodes_kept(old, new, base + k * c, nk.w@, nk.b, x, x.len() as int);
    }
}

impl MultiLayerPerceptron {
    /// Every layer can take what the one before it yields, the first `nin`
    /// inputs.
    pub open spec fn accepts(&self, nin: int) -> bool {
        chained(self.layers@, nin)
    }

    pub open spec fn valid_in<T: Scalar>(&self, g: &Graph<T>) -> bool {
        forall|l: int| 0 <= l < self.layers@.len() ==> (#[trigger] self.layers@[l]).valid_in(g)
    }

    /// How many outputs the network yields for `nin` inputs.
    pub open spec fn out_width(&self, nin: int) -> int {
        input_width(self.layers@, nin, self.layers@.len() as int)
    }

    /// Feeds `x` through every layer in turn and returns the last layer's
    /// outputs (`x` itself when there are no layers).
    pub fn call<T: Scalar>(&self, g: &mut Graph<T>, x: Vec<ValueWrapper>) -> (r: Vec<ValueWrapper>)
        requires
            old(g).wf(),
            self.accepts(x@.len() as int),
            self.valid_in(old(g)),
            forall|k: int| 0 <= k < x@.len() ==> old(g).valid(#[trigger] x@[k]),
            old(g)@.len() + forward_cost(self.layers@, x@.len() as int) <= usize::MAX,
        ensures
            final(g).wf(),
            final(g).extends(old(g)),
            final(g)@.len() == old(g)@.len() + forward_cost(self.layers@, x@.len() as int),
            r@.len() == self.out_width(x@.len() as int),
            forall|k: int| 0 <= k < r@.len() ==> final(g).valid(#[trigger] r@[k]),
            self.layers@.len() == 0 ==> r@ == x@,
            exists|ins: Seq<Seq<ValueWrapper>>, bases: Seq<int>|
                #[trigger] forward_trace(self.layers@, old(g)@.len() as int, ins, bases, self.layers@.len() as int)
                    && ins[0] == x@ && r@ == ins.last() && forall|l: int|
                    0 <= l < self.layers@.len() ==> layer_built(final(g)@, #[trigger] bases[l], self.layers@[l], ins[l]),
    {
        let ghost g0 = *g;
        let ghost base = g0@.len() as int;
        let ghost n0 = x@.len() as int;
        let ghost ls = self.layers@;
        proof {
            assert(g0@.subrange(0, base) =~= g0@);
            assert(ls.subrange(0, 0) =~= seq![]);
        }
        let ghost mut ins: Seq<Seq<ValueWrapper>> = seq![x@];
        let ghost mut bases: Seq<int> = seq![];
        let mut cur = x;
        let mut l: usize = 0;
        while l < self.layers.len()
            invariant
                forward_trace(ls, base, ins, bases, l as int),
                ins[0] == x@,
                cur@ == ins[l as int],
                g@.len() == next_base(ls, base, ins, bases, l as int),
                forall|i: int| 0 <= i <= l ==> (#[trigger] ins[i]).len() == input_width(ls, n0, i),
                forall|i: int, k: int| 0 <= i <= l && 0 <= k < ins[i].len() ==> (#[trigger] ins[i][k]).0 < g@.len(),
                forall|i: int|
                    0 <= i < l ==> #[trigger] bases[i] + ls[i].neurons@.len() * (2 * ins[i].len() + 1) <= g@.len()
                        && bases[i] >= 0,
                forall|i: int| 0 <= i < l ==> layer_built(g@, #[trigger] bases[i], ls[i], ins[i]),
                ls == self.layers@,
                l <= ls.len(),
                base == g0@.len(),
                n0 >= 0,
                chained(ls, n0),
                forall|i: int| 0 <= i < ls.len() ==> (#[trigger] ls[i]).valid_in(&g0),
                base + forward_cost(ls, n0) <= usize::MAX,
                g.wf(),
                g.extends(&g0),
                g@.len() == base + forward_cost(ls.subrange(0, l as int), n0),
                cur@.len() == input_width(ls, n0, l as int),
                forall|k: int| 0 <= k < cur@.len() ==> g.valid(#[trigger] cur@[k]),
                l == 0 ==> cur@ == x@,
            decreases ls.len() - l,
        {
            proof {
                let next = ls.subrange(0, l + 1);
                assert(next.drop_last() =~= ls.subrange(0, l as int));
                assert(input_width(next, n0, l as int) == input_width(ls, n0, l as int));
                lemma_forward_cost_grows(ls, n0, l + 1);
                let layer = ls[l as int];
                assert(layer.takes(input_width(ls, n0, l as int)));
                assert forall|k: int| 0 <= k < layer.neurons@.len() implies (#[trigger] layer.neurons@[k]).valid_in(g) by {
                    assert(layer.neurons@[k].valid_in(&g0));
                    assert forall|p: int| 0 <= p < layer.neurons@[k].params().len() implies g.valid(#[trigger] layer.neurons@[k].params()[p]) by {
                        assert(g0.valid(layer.neurons@[k].params()[p]));
                    }
                }
            }
            let ghost g1 = *g;
            let out = self.layers[l].call(g, cur.as_slice());
            proof {
                Graph::lemma_extends_trans(&g0, &g1, g);
                let layer = ls[l as int];
                assert forall|k: int| 0 <= k < out@.len() implies g.valid(#[trigger] out@[k]) by {
                    let c = 2 * cur@.len() + 1;
                    assert((k + 1) * c <= layer.neurons@.len() * c) by (nonlinear_arith)
                        requires k + 1 <= layer.neurons@.len(), c >= 0;
                    assert((k + 1) * c == k * c + c) by (nonlinear_arith);
                    assert(k * c >= 0) by (nonlinear_arith)
                        requires k >= 0, c >= 0;
                    assert(g@.len() <= usize::MAX);
                    assert(out@[k] == layer_outputs(g1@.len() as int, layer.neurons@.len() as int, cur@.len() as int)[k]);
                }
            }
            proof {
                let ins1 = ins.push(out@);
                let bases1 = bases.push(g1@.len() as int);
                let layer = ls[l as int];
                assert forall|i: int| 0 <= i <= l implies #[trigger] bases1[i] == next_base(ls, base, ins1, bases1, i) by {
                    if i < l {
                        assert(bases1[i] == bases[i]);
                        assert(bases[i] == next_base(ls, base, ins, bases, i));
                        if i > 0 {
                            assert(bases1[i - 1] == bases[i - 1] && ins1[i - 1] == ins[i - 1]);
                        }
                    } else if i > 0 {
                        assert(bases1[i - 1] == bases[i - 1] && ins1[i - 1] == ins[i - 1]);
                    }
                }
                assert forall|i: int| 0 <= i <= l implies #[trigger] ins1[i + 1] == layer_outputs(
                    bases1[i],
                    ls[i].neurons@.len() as int,
                    ins1[i].len() as int,
                ) by {
                    if i < l {
                        assert(ins1[i + 1] == ins[i + 1] && bases1[i] == bases[i] && ins1[i] == ins[i]);
                    }
                }
                assert forall|i: int| 0 <= i <= l + 1 implies (#[trigger] ins1[i]).len() == input_width(ls, n0, i) by {
                    if i <= l {
                        assert(ins1[i] == ins[i]);
                    }
                }
                assert forall|i: int, k: int| 0 <= i <= l + 1 && 0 <= k < ins1[i].len() implies (#[trigger] ins1[i][k]).0 < g@.len() by {
                    if i <= l {
                        assert(ins1[i] == ins[i]);
                        assert(ins[i][k].0 < g1@.len());
                    } else {
                        assert(g.valid(out@[k]));
                    }
                }
                assert forall|i: int|
                    0 <= i <= l implies #[trigger] bases1[i] + ls[i].neurons@.len() * (2 * ins1[i].len() + 1) <= g@.len()
                        && bases1[i] >= 0 by {
                    if i < l {
                        assert(bases1[i] == bases[i] && ins1[i] == ins[i]);
                        assert(bases[i] + ls[i].neurons@.len() * (2 * ins[i].len() + 1) <= g1@.len());
                    } else {
                        assert(ins1[i] == cur@);
                    }
                }
                assert forall|i: int| 0 <= i <= l implies layer_built(g@, #[trigger] bases1[i], ls[i], ins1[i]) by {
                    if i < l {
                        assert(bases1[i] == bases[i] && ins1[i] == ins[i]);
                        assert(bases[i] + ls[i].neurons@.len() * (2 * ins[i].len() + 1) <= g1@.len());
                        assert(layer_built(g1@, bases[i], ls[i], ins[i]));
                        assert(ls[i].takes(input_width(ls, n0, i)));
                        assert(ins[i].len() == input_width(ls, n0, i));
                        assert forall|k: int| 0 <= k < ls[i].neurons@.len() implies (#[trigger] ls[i].neurons@[k]).params().len() > 0
                            && forall|p: int| 0 <= p < ls[i].neurons@[k].params().len() ==> (#[trigger] ls[i].neurons@[k].params()[p]).0 < g1@.len() by {
                            assert(ls[i].valid_in(&g0));
                            assert(ls[i].neurons@[k].valid_in(&g0));
                        }
                        assert forall|k: int| 0 <= k < ins[i].len() implies (#[trigger] ins[i][k]).0 < g1@.len() by {}
                        lemma_layer_built_kept(g1@, g@, bases[i], ls[i], ins[i]);
                    } else {
                        assert(ins1[i] == cur@);
                    }
                }
                ins = ins1;
                bases = bases1;
            }
            cur = out;
            l = l + 1;
        }
        proof {
            assert(ls.subrange(0, l as int) =~= ls);
            assert(forward_trace(self.layers@, base, ins, bases, self.layers@.len() as int));
        }
        cur
    }

    /// The parameters of every layer, in layer order.
    pub fn parameters(&self) -> (r: Vec<ValueWrapper>)
        ensures
            r@ == self.params(),
    {
        let mut r: Vec<ValueWrapper> = Vec::new();
        let mut l: usize = 0;
        while l < self.layers.len()
            invariant
                l <= self.layers@.len(),
                r@ == layers_params(self.layers@.subrange(0, l as int)),
            decreases self.layers@.len() - l,
        {
            let mut p = self.layers[l].parameters();
            r.append(&mut p);
            l = l + 1;
            proof {
                assert(self.layers@.subrange(0, l as int).drop_last() =~= self.layers@.subrange(0, l - 1));
            }
        }
        proof {
            assert(self.layers@.subrange(0, l as int) =~= self.layers@);
        }
        r
    }
}

} // verus!
