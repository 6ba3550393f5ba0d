//! What fusion keeps: whatever the ops of a graph mean, the fused graph computes
//! the same outputs.
//!
//! An interpretation gives each op values, one for each of its outputs, from its
//! type, its parameters and the values of its inputs; running a graph puts those
//! values into the op's outputs, one op after the other. Fused ops mean what their
//! parts mean.

use vstd::prelude::*;
use vstd::string::*;
use crate::builder::{OpView, ParamsView};
use crate::fusion::parts::{apart, is_silu, parts, step};
use crate::fusion::{
    all_fusions, all_replaced, assigned_once, bias_fusion, conv_in_sum, conv_with_bias, fused,
    fusion_at, hidden_by, hidden_reader, is_bias, is_gone, lemma_any_fusion_source, lemma_fusion_facts,
    lemma_in_place, lemma_left_alone, lemma_op_types, lemma_outputs_not_hidden,
    lemma_producer_bound, lemma_sole_reader, lemma_still_written, producer, relu_fusion, remaining, requant_fusion,
    sigmoid_behind, sigmoid_in, silu_fusion, without_relu,
};
use crate::graph::GraphView;

verus! {

/// The values of the inputs of an op.
pub open spec fn values_in<V>(op: OpView, env: spec_fn(Seq<char>) -> V) -> Seq<V> {
    op.inputs.map_values(|k: Seq<char>| env(k))
}

/// The tensors after one more op.
pub open spec fn after<V>(
    eval: spec_fn(Seq<char>, ParamsView, Seq<V>) -> Seq<V>,
    op: OpView,
    env: spec_fn(Seq<char>) -> V,
) -> spec_fn(Seq<char>) -> V {
    |k: Seq<char>|
        if op.outputs.contains(k) {
            eval(op.op_type, op.params, values_in(op, env))[op.outputs.index_of(k)]
        } else {
            env(k)
        }
}

/// The tensors after the first `n` ops.
pub open spec fn computed<V>(
    eval: spec_fn(Seq<char>, ParamsView, Seq<V>) -> Seq<V>,
    ops: Seq<OpView>,
    env: spec_fn(Seq<char>) -> V,
    n: nat,
) -> spec_fn(Seq<char>) -> V
    decreases n,
{
    if n == 0 {
        env
    } else {
        after(eval, ops[n - 1], computed(eval, ops, env, (n - 1) as nat))
    }
}

/// What running a graph computes, its fused ops taken apart.
pub open spec fn graph_values<V>(
    eval: spec_fn(Seq<char>, ParamsView, Seq<V>) -> Seq<V>,
    ops: Seq<OpView>,
    env: spec_fn(Seq<char>) -> V,
) -> spec_fn(Seq<char>) -> V {
    let all = apart(ops, true, ops.len());
    computed(eval, all, env, all.len())
}

/// No tensor is written twice, and no op reads what it or a later one writes.
pub open spec fn in_sequence(ops: Seq<OpView>) -> bool {
    &&& forall|i: int| 0 <= i < ops.len() ==> (#[trigger] ops[i]).outputs.no_duplicates()
    &&& forall|i: int, j: int, name: Seq<char>|
        0 <= i < j < ops.len() && #[trigger] ops[i].outputs.contains(name)
            ==> !#[trigger] ops[j].outputs.contains(name)
    &&& forall|i: int, j: int, name: Seq<char>|
        0 <= i <= j < ops.len() && #[trigger] ops[i].inputs.contains(name)
            ==> !#[trigger] ops[j].outputs.contains(name)
}

/// The first value that an op gives.
pub open spec fn value<V>(
    eval: spec_fn(Seq<char>, ParamsView, Seq<V>) -> Seq<V>,
    op_type: Seq<char>,
    params: ParamsView,
    v: Seq<V>,
) -> V {
    eval(op_type, params, v)[0]
}

/// The sum of two values.
pub open spec fn added<V>(
    eval: spec_fn(Seq<char>, ParamsView, Seq<V>) -> Seq<V>,
    a: V,
    b: V,
) -> V {
    value(eval, "Add"@, ParamsView::Add, seq![a, b])
}

/// The product of two values.
pub open spec fn multiplied<V>(
    eval: spec_fn(Seq<char>, ParamsView, Seq<V>) -> Seq<V>,
    a: V,
    b: V,
) -> V {
    value(eval, "Mul"@, ParamsView::Mul, seq![a, b])
}

/// The convolution of a value with a weight.
pub open spec fn convolved<V>(
    eval: spec_fn(Seq<char>, ParamsView, Seq<V>) -> Seq<V>,
    params: ParamsView,
    x: V,
    w: V,
) -> V {
    value(eval, "Conv"@, params, seq![x, w])
}

/// Sums and products do not depend on the order of their operands.
pub open spec fn commutes<V>(eval: spec_fn(Seq<char>, ParamsView, Seq<V>) -> Seq<V>) -> bool {
    &&& forall|a: V, b: V| #[trigger] added(eval, a, b) == added(eval, b, a)
    &&& forall|a: V, b: V| #[trigger] multiplied(eval, a, b) == multiplied(eval, b, a)
}

/// A convolution adds its third input: with the value of a bias for it, it is the
/// sum of the convolution without and that value.
pub open spec fn adds_bias<V>(
    g: GraphView,
    eval: spec_fn(Seq<char>, ParamsView, Seq<V>) -> Seq<V>,
    env: spec_fn(Seq<char>) -> V,
) -> bool {
    forall|c: int, bias: Seq<char>, x: V, w: V|
        #![trigger is_bias(g, g.ops[c], bias), convolved(eval, g.ops[c].params, x, w)]
        0 <= c < g.ops.len() && is_bias(g, g.ops[c], bias) ==> value(
            eval,
            "Conv"@,
            g.ops[c].params,
            seq![x, w, env(bias)],
        ) == added(eval, convolved(eval, g.ops[c].params, x, w), env(bias))
}

/// What an op means, fused or not.
pub open spec fn meaning<V>(
    eval: spec_fn(Seq<char>, ParamsView, Seq<V>) -> Seq<V>,
    op: OpView,
    v: Seq<V>,
) -> Seq<V> {
    match without_relu(op.params) {
        Some(params) => if op.outputs.len() == 1 {
            eval("Relu"@, ParamsView::Empty, seq![value(eval, op.op_type, params, v)])
        } else {
            eval(op.op_type, params, v)
        },
        None => if is_silu(op) {
            eval(
                "Mul"@,
                ParamsView::Mul,
                seq![v[0], value(eval, "Sigmoid"@, ParamsView::Sigmoid, seq![v[0]])],
            )
        } else {
            eval(op.op_type, op.params, v)
        },
    }
}

/// The tensors after one more op, by what it means.
spec fn meant_after<V>(
    eval: spec_fn(Seq<char>, ParamsView, Seq<V>) -> Seq<V>,
    op: OpView,
    env: spec_fn(Seq<char>) -> V,
) -> spec_fn(Seq<char>) -> V {
    |k: Seq<char>|
        if op.outputs.contains(k) {
            meaning(eval, op, values_in(op, env))[op.outputs.index_of(k)]
        } else {
            env(k)
        }
}

spec fn meant<V>(
    eval: spec_fn(Seq<char>, ParamsView, Seq<V>) -> Seq<V>,
    ops: Seq<OpView>,
    env: spec_fn(Seq<char>) -> V,
    n: nat,
) -> spec_fn(Seq<char>) -> V
    decreases n,
{
    if n == 0 {
        env
    } else {
        meant_after(eval, ops[n - 1], meant(eval, ops, env, (n - 1) as nat))
    }
}

proof fn lemma_computed_prefix<V>(
    eval: spec_fn(Seq<char>, ParamsView, Seq<V>) -> Seq<V>,
    a: Seq<OpView>,
    b: Seq<OpView>,
    env: spec_fn(Seq<char>) -> V,
    n: nat,
)
    requires
        n <= a.len(),
        n <= b.len(),
        forall|k: int| 0 <= k < n ==> a[k] == b[k],
    ensures
        computed(eval, a, env, n) == computed(eval, b, env, n),
    decreases n,
{
    if n > 0 {
        lemma_computed_prefix(eval, a, b, env, (n - 1) as nat);
    }
}

/// Where a name stands that no other one equals.
proof fn lemma_place(names: Seq<Seq<char>>, p: int)
    requires
        names.no_duplicates(),
        0 <= p < names.len(),
    ensures
        names.contains(names[p]),
        names.index_of(names[p]) == p,
{
    let q = names.index_of(names[p]);
    assert(names[p] == names[p]);
    assert(0 <= q < names.len() && names[q] == names[p]);
}

/// A single name stands first.
proof fn lemma_single(names: Seq<Seq<char>>)
    requires
        names.len() == 1,
    ensures
        names.no_duplicates(),
        forall|k: Seq<char>| #[trigger] names.contains(k) <==> k == names[0],
        names.index_of(names[0]) == 0,
{
    lemma_place(names, 0);
}

/// Running the parts of an op does what the op means.
proof fn lemma_parts_mean<V>(
    eval: spec_fn(Seq<char>, ParamsView, Seq<V>) -> Seq<V>,
    before: Seq<OpView>,
    op: OpView,
    env: spec_fn(Seq<char>) -> V,
)
    ensures
        ({
            let all = before + parts(op, true);
            computed(eval, all, env, all.len()) =~= meant_after(
                eval,
                op,
                computed(eval, before, env, before.len()),
            )
        }),
{
    let all = before + parts(op, true);
    let n = before.len();
    let e = computed(eval, before, env, n);
    lemma_computed_prefix(eval, all, before, env, n);
    reveal_with_fuel(computed, 3);
    if op.outputs.len() == 1 {
        lemma_single(op.outputs);
    }
    match without_relu(op.params) {
        Some(params) => if op.outputs.len() == 1 {
            let conv = OpView { params, ..op };
            let relu = step(op.name, "Relu"@, op.outputs, op.outputs, ParamsView::Empty);
            assert(all[n as int] == conv && all[(n + 1) as int] == relu && all.len() == n + 2);
            let middle = after(eval, conv, e);
            assert(values_in(conv, e) =~= values_in(op, e));
            assert(values_in(relu, middle) =~= seq![value(eval, op.op_type, params, values_in(op, e))]);
            assert(computed(eval, all, env, all.len()) =~= meant_after(eval, op, e));
        } else {
            let conv = OpView { params, ..op };
            assert(all[n as int] == conv && all.len() == n + 1);
            assert(values_in(conv, e) =~= values_in(op, e));
            assert(computed(eval, all, env, all.len()) =~= meant_after(eval, op, e));
        },
        None => {
            if is_silu(op) {
                let x = op.inputs[0];
                let out = op.outputs[0];
                let s = step(op.name, "Sigmoid"@, op.inputs, op.outputs, ParamsView::Sigmoid);
                let m = step(op.name, "Mul"@, seq![x, out], op.outputs, ParamsView::Mul);
                assert(all[n as int] == s && all[(n + 1) as int] == m && all.len() == n + 2);
                let middle = after(eval, s, e);
                assert(values_in(s, e) =~= seq![e(x)]);
                assert(values_in(op, e) =~= seq![e(x)]);
                assert(values_in(m, middle) =~= seq![
                    e(x),
                    value(eval, "Sigmoid"@, ParamsView::Sigmoid, seq![e(x)]),
                ]);
                assert(computed(eval, all, env, all.len()) =~= meant_after(eval, op, e));
            } else {
                assert(all[n as int] == op && all.len() == n + 1);
                assert(computed(eval, all, env, all.len()) =~= meant_after(eval, op, e));
            }
        },
    }
}

/// Running ops taken apart does what the ops mean.
proof fn lemma_apart_means<V>(
    eval: spec_fn(Seq<char>, ParamsView, Seq<V>) -> Seq<V>,
    ops: Seq<OpView>,
    env: spec_fn(Seq<char>) -> V,
    n: nat,
)
    requires
        n <= ops.len(),
    ensures
        computed(eval, apart(ops, true, n), env, apart(ops, true, n).len()) == meant(
            eval,
            ops,
            env,
            n,
        ),
    decreases n,
{
    if n > 0 {
        lemma_apart_means(eval, ops, env, (n - 1) as nat);
        lemma_parts_mean(eval, apart(ops, true, (n - 1) as nat), ops[n - 1], env);
    }
}

/// What a tensor is once all ops have run: what the op that writes it makes of the
/// inputs, or what it was before.
proof fn lemma_settled<V>(
    eval: spec_fn(Seq<char>, ParamsView, Seq<V>) -> Seq<V>,
    ops: Seq<OpView>,
    env: spec_fn(Seq<char>) -> V,
    n: nat,
)
    requires
        n <= ops.len(),
        in_sequence(ops),
    ensures
        forall|k: Seq<char>|
            (forall|i: int| 0 <= i < n ==> !(#[trigger] ops[i]).outputs.contains(k))
                ==> #[trigger] meant(eval, ops, env, n)(k) == env(k),
        forall|i: int, p: int|
            0 <= i < n && 0 <= p < ops[i].outputs.len() ==> meant(eval, ops, env, n)(
                #[trigger] ops[i].outputs[p],
            ) == meaning(eval, ops[i], values_in(ops[i], meant(eval, ops, env, n)))[p],
    decreases n,
{
    if n > 0 {
        let m = (n - 1) as nat;
        lemma_settled(eval, ops, env, m);
        let e = meant(eval, ops, env, m);
        let d = meant(eval, ops, env, n);
        let last = ops[n - 1];
        assert forall|k: Seq<char>|
            (forall|i: int| 0 <= i < n ==> !(#[trigger] ops[i]).outputs.contains(k)) implies (
        #[trigger] d(k)) == env(k) by {
            assert(e(k) == env(k));
            assert(!ops[n - 1].outputs.contains(k));
        }
        assert forall|i: int, p: int| 0 <= i < n && 0 <= p < ops[i].outputs.len() implies d(
            #[trigger] ops[i].outputs[p],
        ) == meaning(eval, ops[i], values_in(ops[i], d))[p] by {
            let out = ops[i].outputs[p];
            assert forall|q: int| 0 <= q < ops[i].inputs.len() implies d(
                #[trigger] ops[i].inputs[q],
            ) == e(ops[i].inputs[q]) by {
                assert(ops[i].inputs.contains(ops[i].inputs[q]));
                assert(!last.outputs.contains(ops[i].inputs[q]));
            }
            assert(values_in(ops[i], d) =~= values_in(ops[i], e));
            lemma_place(ops[i].outputs, p);
            if i < m {
                assert(!last.outputs.contains(out));
                assert(d(out) == e(out));
            }
        }
    }
}

proof fn lemma_in_sequence(ops: Seq<OpView>)
    requires
        in_sequence(ops),
    ensures
        assigned_once(ops),
{
}

/// The op that writes a tensor.
proof fn lemma_writer(ops: Seq<OpView>, name: Seq<char>, c: int)
    requires
        producer(ops, name) == Some(c),
    ensures
        0 <= c < ops.len(),
        ops[c].outputs.contains(name),
        ops[c].outputs.len() == 1 ==> ops[c].outputs[0] == name,
{
    lemma_producer_bound(ops, name, ops.len());
}

/// No fusion hides a tensor.
spec fn shown(g: GraphView, name: Seq<char>) -> bool {
    forall|j: int|
        0 <= j < all_fusions(g).len() ==> !hidden_by(g.ops, #[trigger] all_fusions(g)[j], name)
}

/// A tensor that two ops read is not hidden.
proof fn lemma_shown_to_two(g: GraphView, name: Seq<char>, a: int, b: int)
    requires
        in_sequence(g.ops),
        0 <= a < g.ops.len(),
        0 <= b < g.ops.len(),
        a != b,
        g.ops[a].inputs.contains(name),
        g.ops[b].inputs.contains(name),
    ensures
        shown(g, name),
{
    let f = all_fusions(g);
    lemma_in_sequence(g.ops);
    assert forall|j: int| 0 <= j < f.len() implies !hidden_by(g.ops, #[trigger] f[j], name) by {
        let (pass, i) = lemma_any_fusion_source(g, j);
        lemma_fusion_facts(g, pass, i);
        if hidden_by(g.ops, f[j], name) {
            lemma_sole_reader(g, name, a, b);
        }
    }
}

/// A tensor that an op reads which stays is not hidden, unless the op is the
/// product of a fused SiLU.
proof fn lemma_shown_to_reader(g: GraphView, name: Seq<char>, n: int)
    requires
        in_sequence(g.ops),
        0 <= n < g.ops.len(),
        !is_gone(all_fusions(g), n),
        g.ops[n].inputs.contains(name),
        g.ops[n].op_type == "Mul"@ ==> forall|j: int|
            0 <= j < all_fusions(g).len() ==> (#[trigger] all_fusions(g)[j]).at != n,
    ensures
        shown(g, name),
{
    let f = all_fusions(g);
    lemma_in_sequence(g.ops);
    lemma_op_types();
    assert forall|j: int| 0 <= j < f.len() implies !hidden_by(g.ops, #[trigger] f[j], name) by {
        let (pass, i) = lemma_any_fusion_source(g, j);
        lemma_fusion_facts(g, pass, i);
        if hidden_by(g.ops, f[j], name) {
            let r = hidden_reader(g.ops, f[j], name);
            lemma_sole_reader(g, name, r, n);
            if g.ops[f[j].at].op_type != "Mul"@ {
                assert(f[j].gone.contains(f[j].gone[0]));
                assert(f[j].gone.contains(f[j].gone.last()));
                assert(is_gone(f, n));
            } else {
                assert(f[j].at == n);
            }
        }
    }
}

/// What the fused op at `n` reads is not hidden.
proof fn lemma_inputs_shown(g: GraphView, n: int, name: Seq<char>)
    requires
        in_sequence(g.ops),
        0 <= n < g.ops.len(),
        !is_gone(all_fusions(g), n),
        all_replaced(g)[n].inputs.contains(name),
    ensures
        shown(g, name),
        forall|j: int| n <= j < g.ops.len() ==> !(#[trigger] g.ops[j]).outputs.contains(name),
{
    let f = all_fusions(g);
    let ops = g.ops;
    lemma_in_sequence(ops);
    lemma_op_types();
    if exists|j: int| 0 <= j < f.len() && (#[trigger] f[j]).at == n {
        let j = choose|j: int| 0 <= j < f.len() && (#[trigger] f[j]).at == n;
        let (pass, i) = lemma_any_fusion_source(g, j);
        lemma_fusion_facts(g, pass, i);
        lemma_in_place(g, j);
        let o = f[j].op;
        let q = choose|q: int| 0 <= q < o.inputs.len() && o.inputs[q] == name;
        if pass == 2 {
            let a = ops[i].inputs[0];
            let b = ops[i].inputs[1];
            let (s, x) = sigmoid_in(ops, a, b)->0;
            assert(o.inputs == seq![x]);
            assert(name == x);
            let t = if sigmoid_behind(ops, a, b) is Some {
                a
            } else {
                b
            };
            lemma_writer(ops, t, s);
            assert(ops[s].inputs.contains(ops[s].inputs[0]));
            assert(ops[n].inputs.contains(a) && ops[n].inputs.contains(b));
            if s == n {
                assert(false);
            }
            lemma_shown_to_two(g, x, s, n);
        } else if q < ops[n].inputs.len() {
            assert(ops[n].inputs[q] == name);
            assert(ops[n].inputs.contains(name));
            lemma_shown_to_reader(g, name, n);
        } else {
            assert(pass == 1);
            lemma_bias_is_free(g, i);
            assert(name == o.inputs[2]);
            assert(producer(ops, name) is None);
            lemma_producer_bound(ops, name, ops.len());
            assert forall|x: int| 0 <= x < f.len() implies !hidden_by(ops, #[trigger] f[x], name) by {
                let (p, y) = lemma_any_fusion_source(g, x);
                if hidden_by(ops, f[x], name) {
                    lemma_hidden_is_written(g, p, y, name);
                }
            }
        }
    } else {
        lemma_left_alone(g, n);
        lemma_shown_to_reader(g, name, n);
    }
}

/// A tensor that a fusion hides is one that some op writes.
proof fn lemma_hidden_is_written(g: GraphView, pass: int, i: int, name: Seq<char>)
    requires
        assigned_once(g.ops),
        0 <= pass < 4,
        0 <= i < g.ops.len(),
        fusion_at(g, pass, i) is Some,
        hidden_by(g.ops, fusion_at(g, pass, i)->0, name),
    ensures
        exists|k: int| 0 <= k < g.ops.len() && (#[trigger] g.ops[k]).outputs.contains(name),
{
    let f = fusion_at(g, pass, i)->0;
    lemma_fusion_facts(g, pass, i);
    if name == g.ops[f.at].outputs[0] {
        assert(g.ops[f.at].outputs.contains(name));
    } else {
        let x = choose|x: int|
            0 <= x < f.gone.len() && name == g.ops[#[trigger] f.gone[x]].outputs[0];
        assert(g.ops[f.gone[x]].outputs.contains(name));
    }
}

/// What a bias fusion found at op `i` is made of.
proof fn lemma_bias_is_free(g: GraphView, i: int)
    requires
        in_sequence(g.ops),
        0 <= i < g.ops.len(),
        bias_fusion(g, i) is Some,
    ensures
        ({
            let f = bias_fusion(g, i)->0;
            let s = f.gone[0];
            let bias = f.op.inputs[2];
            &&& 0 <= s < g.ops.len()
            &&& 0 <= f.at < g.ops.len()
            &&& producer(g.ops, g.ops[i].inputs[0]) == Some(s)
            &&& g.ops[f.at].inputs.len() == 2
            &&& f.op.inputs == g.ops[f.at].inputs.push(bias)
            &&& producer(g.ops, bias) is None
            &&& is_bias(g, g.ops[f.at], bias)
            &&& g.ops[s].inputs == seq![g.ops[f.at].outputs[0], bias] || g.ops[s].inputs == seq![
                bias,
                g.ops[f.at].outputs[0],
            ]
        }),
{
    let ops = g.ops;
    let f = bias_fusion(g, i)->0;
    let s = producer(ops, ops[i].inputs[0])->0;
    lemma_writer(ops, ops[i].inputs[0], s);
    let a = ops[s].inputs[0];
    let b = ops[s].inputs[1];
    let (c, bias) = conv_in_sum(g, a, b)->0;
    assert(f.op.inputs[2] == bias);
    if conv_with_bias(g, a, b) is Some {
        lemma_writer(ops, a, c);
        assert(ops[s].inputs =~= seq![ops[c].outputs[0], bias]);
    } else {
        lemma_writer(ops, b, c);
        assert(ops[s].inputs =~= seq![bias, ops[c].outputs[0]]);
    }
}

/// What the op at `n` means after fusion is what its output was before.
proof fn lemma_same_meaning<V>(
    g: GraphView,
    eval: spec_fn(Seq<char>, ParamsView, Seq<V>) -> Seq<V>,
    env: spec_fn(Seq<char>) -> V,
    n: int,
)
    requires
        in_sequence(g.ops),
        commutes(eval),
        adds_bias(g, eval, env),
        0 <= n < g.ops.len(),
        !is_gone(all_fusions(g), n),
    ensures
        ({
            let val = meant(eval, g.ops, env, g.ops.len());
            let o = all_replaced(g)[n];
            forall|p: int|
                0 <= p < o.outputs.len() ==> val(#[trigger] o.outputs[p]) == meaning(
                    eval,
                    o,
                    values_in(o, val),
                )[p]
        }),
{
    let f = all_fusions(g);
    let ops = g.ops;
    let val = meant(eval, ops, env, ops.len());
    lemma_in_sequence(ops);
    lemma_op_types();
    lemma_settled(eval, ops, env, ops.len());
    if exists|j: int| 0 <= j < f.len() && (#[trigger] f[j]).at == n {
        let j = choose|j: int| 0 <= j < f.len() && (#[trigger] f[j]).at == n;
        let (pass, i) = lemma_any_fusion_source(g, j);
        lemma_fusion_facts(g, pass, i);
        lemma_in_place(g, j);
        let o = f[j].op;
        if pass == 0 {
            lemma_relu_means(g, eval, env, i);
        } else if pass == 1 {
            lemma_bias_means(g, eval, env, i);
        } else if pass == 2 {
            lemma_silu_means(g, eval, env, i);
        } else {
            lemma_not_requantized(g, i);
        }
    } else {
        lemma_left_alone(g, n);
    }
}

proof fn lemma_relu_means<V>(
    g: GraphView,
    eval: spec_fn(Seq<char>, ParamsView, Seq<V>) -> Seq<V>,
    env: spec_fn(Seq<char>) -> V,
    i: int,
)
    requires
        in_sequence(g.ops),
        0 <= i < g.ops.len(),
        relu_fusion(g, i) is Some,
    ensures
        ({
            let val = meant(eval, g.ops, env, g.ops.len());
            let o = relu_fusion(g, i)->0.op;
            val(o.outputs[0]) == meaning(eval, o, values_in(o, val))[0]
        }),
{
    let ops = g.ops;
    let val = meant(eval, ops, env, ops.len());
    lemma_settled(eval, ops, env, ops.len());
    lemma_op_types();
    let f = relu_fusion(g, i)->0;
    let conv = ops[f.at];
    let relu = ops[i];
    lemma_writer(ops, relu.inputs[0], f.at);
    assert(val(conv.outputs[0]) == meaning(eval, conv, values_in(conv, val))[0]);
    assert(val(relu.outputs[0]) == meaning(eval, relu, values_in(relu, val))[0]);
    assert(values_in(relu, val) =~= seq![val(conv.outputs[0])]);
    assert(values_in(f.op, val) =~= values_in(conv, val));
    assert(without_relu(f.op.params) == Some(conv.params));
}

proof fn lemma_bias_means<V>(
    g: GraphView,
    eval: spec_fn(Seq<char>, ParamsView, Seq<V>) -> Seq<V>,
    env: spec_fn(Seq<char>) -> V,
    i: int,
)
    requires
        in_sequence(g.ops),
        commutes(eval),
        adds_bias(g, eval, env),
        0 <= i < g.ops.len(),
        bias_fusion(g, i) is Some,
    ensures
        ({
            let val = meant(eval, g.ops, env, g.ops.len());
            let o = bias_fusion(g, i)->0.op;
            val(o.outputs[0]) == meaning(eval, o, values_in(o, val))[0]
        }),
{
    let ops = g.ops;
    let val = meant(eval, ops, env, ops.len());
    lemma_settled(eval, ops, env, ops.len());
    lemma_op_types();
    lemma_bias_is_free(g, i);
    let f = bias_fusion(g, i)->0;
    let conv = ops[f.at];
    let sum = ops[f.gone[0]];
    let relu = ops[i];
    let bias = f.op.inputs[2];
    lemma_writer(ops, relu.inputs[0], f.gone[0]);
    lemma_producer_bound(ops, bias, ops.len());
    assert(val(bias) == env(bias));
    let x = val(conv.inputs[0]);
    let w = val(conv.inputs[1]);
    assert(values_in(conv, val) =~= seq![x, w]);
    assert(val(conv.outputs[0]) == meaning(eval, conv, values_in(conv, val))[0]);
    let c = convolved(eval, conv.params, x, w);
    assert(val(conv.outputs[0]) == c);
    assert(val(sum.outputs[0]) == meaning(eval, sum, values_in(sum, val))[0]);
    if sum.inputs == seq![conv.outputs[0], bias] {
        assert(values_in(sum, val) =~= seq![c, env(bias)]);
    } else {
        assert(values_in(sum, val) =~= seq![env(bias), c]);
        assert(added(eval, env(bias), c) == added(eval, c, env(bias)));
    }
    assert(sum.params == ParamsView::Add);
    assert(val(sum.outputs[0]) == added(eval, c, env(bias)));
    assert(is_bias(g, ops[f.at], bias));
    assert(value(eval, "Conv"@, conv.params, seq![x, w, env(bias)]) == added(eval, c, env(bias)));
    assert(val(relu.outputs[0]) == meaning(eval, relu, values_in(relu, val))[0]);
    assert(values_in(relu, val) =~= seq![val(sum.outputs[0])]);
    assert(values_in(f.op, val) =~= seq![x, w, env(bias)]);
    assert(without_relu(f.op.params) == Some(conv.params));
}

proof fn lemma_silu_means<V>(
    g: GraphView,
    eval: spec_fn(Seq<char>, ParamsView, Seq<V>) -> Seq<V>,
    env: spec_fn(Seq<char>) -> V,
    i: int,
)
    requires
        in_sequence(g.ops),
        commutes(eval),
        0 <= i < g.ops.len(),
        silu_fusion(g, i) is Some,
    ensures
        ({
            let val = meant(eval, g.ops, env, g.ops.len());
            let o = silu_fusion(g, i)->0.op;
            val(o.outputs[0]) == meaning(eval, o, values_in(o, val))[0]
        }),
{
    let ops = g.ops;
    let val = meant(eval, ops, env, ops.len());
    lemma_settled(eval, ops, env, ops.len());
    lemma_op_types();
    let f = silu_fusion(g, i)->0;
    let m = ops[i];
    let a = m.inputs[0];
    let b = m.inputs[1];
    let (s, x) = sigmoid_in(ops, a, b)->0;
    let t = if sigmoid_behind(ops, a, b) is Some {
        a
    } else {
        b
    };
    lemma_writer(ops, t, s);
    let sig = value(eval, "Sigmoid"@, ParamsView::Sigmoid, seq![val(x)]);
    assert(val(ops[s].outputs[0]) == meaning(eval, ops[s], values_in(ops[s], val))[0]);
    assert(values_in(ops[s], val) =~= seq![val(x)]);
    assert(ops[s].params == ParamsView::Sigmoid);
    assert(val(t) == sig);
    assert(val(m.outputs[0]) == meaning(eval, m, values_in(m, val))[0]);
    assert(m.params == ParamsView::Mul);
    assert(m.inputs.contains(a) && m.inputs.contains(b));
    assert(m.outputs.contains(m.outputs[0]));
    assert(!m.inputs.contains(m.outputs[0]));
    assert(x != m.outputs[0]);
    assert(is_silu(f.op));
    assert(values_in(f.op, val) =~= seq![val(x)]);
    if sigmoid_behind(ops, a, b) is Some {
        assert(values_in(m, val) =~= seq![sig, val(x)]);
        assert(multiplied(eval, sig, val(x)) == multiplied(eval, val(x), sig));
    } else {
        assert(values_in(m, val) =~= seq![val(x), sig]);
    }
}

/// Whether a tensor is as it should be once the ops before `n` have been looked at:
/// one that nothing writes, or one that an op which stays has written.
spec fn ready(g: GraphView, name: Seq<char>, n: int) -> bool {
    ||| forall|k: int| 0 <= k < g.ops.len() ==> !(#[trigger] g.ops[k]).outputs.contains(name)
    ||| exists|k: int|
        0 <= k < n && !is_gone(all_fusions(g), k) && (
        #[trigger] all_replaced(g)[k]).outputs.contains(name)
}

/// A tensor that is not hidden is ready once the op that wrote it has been looked at.
proof fn lemma_ready(g: GraphView, name: Seq<char>, n: int)
    requires
        in_sequence(g.ops),
        0 <= n <= g.ops.len(),
        shown(g, name),
        forall|j: int| n <= j < g.ops.len() ==> !(#[trigger] g.ops[j]).outputs.contains(name),
    ensures
        ready(g, name, n),
{
    let f = all_fusions(g);
    let ops = g.ops;
    lemma_in_sequence(ops);
    if exists|p: int| 0 <= p < ops.len() && (#[trigger] ops[p]).outputs.contains(name) {
        let p = choose|p: int| 0 <= p < ops.len() && (#[trigger] ops[p]).outputs.contains(name);
        assert(p < n);
        let q = lemma_still_written(g, p, name);
        if q != p {
            let j = choose|j: int|
                0 <= j < f.len() && (#[trigger] f[j]).at == q && f[j].gone.contains(p);
            lemma_before_gone(g, j, p, name);
        }
        assert(all_replaced(g)[q].outputs.contains(name));
    }
}

/// An op that a fusion at an earlier op makes go away, where it is the one whose
/// output the fusion writes.
proof fn lemma_before_gone(g: GraphView, j: int, p: int, name: Seq<char>)
    requires
        in_sequence(g.ops),
        0 <= j < all_fusions(g).len(),
        all_fusions(g)[j].gone.contains(p),
        g.ops[p].outputs.contains(name),
        shown(g, name),
    ensures
        all_fusions(g)[j].at < p,
{
    let f = all_fusions(g)[j];
    let ops = g.ops;
    lemma_in_sequence(ops);
    lemma_op_types();
    let (pass, i) = lemma_any_fusion_source(g, j);
    lemma_fusion_facts(g, pass, i);
    let y = choose|y: int| 0 <= y < f.gone.len() && f.gone[y] == p;
    assert(ops[f.gone[y]].outputs[0] == name);
    let t = ops[f.at].outputs[0];
    assert(ops[f.at].outputs.contains(t));
    if pass == 2 {
        assert(p != f.at);
        assert(!hidden_by(ops, f, name));
        assert(name == t);
        assert(false);
    } else if pass == 3 {
        lemma_not_requantized(g, i);
    } else {
        let first = f.gone[0];
        assert(ops[first].inputs.contains(t));
        assert(f.at < first);
        if pass == 1 {
            let u = ops[first].outputs[0];
            assert(ops[first].outputs.contains(u));
            assert(ops[i].inputs.contains(u));
            assert(first < i);
        }
    }
}

/// Where no tensor is written twice, no convolution is requantized.
proof fn lemma_not_requantized(g: GraphView, i: int)
    requires
        in_sequence(g.ops),
        0 <= i < g.ops.len(),
    ensures
        requant_fusion(g, i) is None,
{
    lemma_in_sequence(g.ops);
    if requant_fusion(g, i) is Some {
        lemma_fusion_facts(g, 3, i);
        let c = requant_fusion(g, i)->0.at;
        assert(g.ops[c].outputs.contains(g.ops[c].outputs[0]));
        assert(g.ops[i].outputs.contains(g.ops[c].outputs[0]));
    }
}

/// After the ops before `n` that stay, every tensor that is ready has the value it had.
proof fn lemma_same_values<V>(
    g: GraphView,
    eval: spec_fn(Seq<char>, ParamsView, Seq<V>) -> Seq<V>,
    env: spec_fn(Seq<char>) -> V,
    n: nat,
)
    requires
        in_sequence(g.ops),
        commutes(eval),
        adds_bias(g, eval, env),
        n <= g.ops.len(),
    ensures
        ({
            let left = remaining(all_replaced(g), all_fusions(g), n);
            let val = meant(eval, g.ops, env, g.ops.len());
            forall|k: Seq<char>|
                ready(g, k, n as int) ==> #[trigger] meant(eval, left, env, left.len())(k) == val(k)
        }),
    decreases n,
{
    let f = all_fusions(g);
    let new = all_replaced(g);
    let ops = g.ops;
    let val = meant(eval, ops, env, ops.len());
    let left = remaining(new, f, n);
    lemma_settled(eval, ops, env, ops.len());
    if n > 0 {
        let m = (n - 1) as nat;
        lemma_same_values(g, eval, env, m);
        let before = remaining(new, f, m);
        let e = meant(eval, before, env, before.len());
        if is_gone(f, n - 1) {
            assert forall|k: Seq<char>| ready(g, k, n as int) implies #[trigger] e(k) == val(k) by {
                lemma_ready_step(g, k, n as int);
            }
        } else {
            let o = new[n - 1];
            lemma_same_meaning(g, eval, env, n - 1);
            assert forall|q: int| 0 <= q < o.inputs.len() implies e(#[trigger] o.inputs[q]) == val(
                o.inputs[q],
            ) by {
                assert(o.inputs.contains(o.inputs[q]));
                lemma_inputs_shown(g, n - 1, o.inputs[q]);
                lemma_ready(g, o.inputs[q], n - 1);
            }
            assert(values_in(o, e) =~= values_in(o, val));
            lemma_meant_prefix(eval, left, before, env, before.len());
            assert(left.len() == before.len() + 1 && left[before.len() as int] == o);
            let d = meant(eval, left, env, left.len());
            assert(d == meant_after(eval, o, e));
            assert forall|k: Seq<char>| ready(g, k, n as int) implies #[trigger] d(k) == val(k) by {
                lemma_ready_step(g, k, n as int);
                if o.outputs.contains(k) {
                    let p = o.outputs.index_of(k);
                    assert(val(o.outputs[p]) == meaning(eval, o, values_in(o, val))[p]);
                }
            }
        }
    }
}

proof fn lemma_ready_step(g: GraphView, name: Seq<char>, n: int)
    requires
        n > 0,
        ready(g, name, n),
    ensures
        ready(g, name, n - 1) || (!is_gone(all_fusions(g), n - 1) && all_replaced(g)[n
            - 1].outputs.contains(name)),
{
    if !(forall|k: int| 0 <= k < g.ops.len() ==> !(#[trigger] g.ops[k]).outputs.contains(name)) {
        let k = choose|k: int|
            0 <= k < n && !is_gone(all_fusions(g), k) && (
            #[trigger] all_replaced(g)[k]).outputs.contains(name);
        if k < n - 1 {
            assert(ready(g, name, n - 1));
        }
    }
}

proof fn lemma_meant_prefix<V>(
    eval: spec_fn(Seq<char>, ParamsView, Seq<V>) -> Seq<V>,
    a: Seq<OpView>,
    b: Seq<OpView>,
    env: spec_fn(Seq<char>) -> V,
    n: nat,
)
    requires
        n <= a.len(),
        n <= b.len(),
        forall|k: int| 0 <= k < n ==> a[k] == b[k],
    ensures
        meant(eval, a, env, n) == meant(eval, b, env, n),
    decreases n,
{
    if n > 0 {
        lemma_meant_prefix(eval, a, b, env, (n - 1) as nat);
    }
}

/// The fused graph computes the outputs that the graph did, whatever the ops mean,
/// as long as sums and products do not depend on the order of their operands and a
/// convolution adds its third input.
pub proof fn law_fusion_keeps_values<V>(
    g: GraphView,
    eval: spec_fn(Seq<char>, ParamsView, Seq<V>) -> Seq<V>,
    env: spec_fn(Seq<char>) -> V,
    name: Seq<char>,
)
    requires
        in_sequence(g.ops),
        commutes(eval),
        adds_bias(g, eval, env),
        g.outputs.contains(name),
    ensures
        graph_values(eval, fused(g), env)(name) == graph_values(eval, g.ops, env)(name),
{
    let ops = g.ops;
    lemma_in_sequence(ops);
    lemma_outputs_not_hidden(g, name);
    assert(shown(g, name));
    lemma_ready(g, name, ops.len() as int);
    lemma_same_values(g, eval, env, ops.len());
    lemma_apart_means(eval, fused(g), env, fused(g).len());
    lemma_apart_means(eval, ops, env, ops.len());
}

} // verus!
