//! What fusion keeps of a run of the generic runtime.

use vstd::prelude::*;
use crate::builder::OpView;
use crate::fusion::parts::{apart, lemma_taken_apart, parts, taken_apart};
use crate::fusion::{
    all_fusions, all_replaced, assigned_once, fused, lemma_any_fusion_source, lemma_fusion_facts,
    lemma_in_place, lemma_remains, law_nothing_to_fuse, silu_fusion,
};
use crate::graph::GraphView;
use crate::runtime::generic::{ops_done, run_of, RuntimeView};

verus! {

/// Whether a graph holds a SiLU that fusion finds.
pub open spec fn has_silu(g: GraphView) -> bool {
    exists|i: int| 0 <= i < g.ops.len() && #[trigger] silu_fusion(g, i) is Some
}

/// Whether the generic runtime has no kernel for an op.
spec fn has_no_kernel(op: OpView) -> bool {
    op.params is Conv2d || op.params is Mul || op.params is Sigmoid
        || op.params is Conv2dRequantReluI8Nhwc
}

proof fn lemma_stops(
    g: GraphView,
    mem: Map<Seq<char>, Seq<u8>>,
    exps: Seq<Seq<u32>>,
    n: nat,
    k: int,
)
    requires
        0 <= k < n <= g.ops.len(),
        has_no_kernel(g.ops[k]),
    ensures
        ops_done(g, mem, exps, n).failure is Some,
    decreases n,
{
    if k < n - 1 {
        lemma_stops(g, mem, exps, (n - 1) as nat, k);
    }
}

/// Where the first part of op `p` stands.
proof fn lemma_first_part(ops: Seq<OpView>, n: nat, p: int) -> (k: int)
    requires
        0 <= p < n <= ops.len(),
    ensures
        0 <= k < apart(ops, false, n).len(),
        apart(ops, false, n)[k] == parts(ops[p], false)[0],
    decreases n,
{
    if p < n - 1 {
        lemma_first_part(ops, (n - 1) as nat, p)
    } else {
        apart(ops, false, (n - 1) as nat).len() as int
    }
}

proof fn lemma_run_fails(
    g: GraphView,
    mem: Map<Seq<char>, Seq<u8>>,
    inputs: Seq<(Seq<char>, Seq<u8>)>,
    exps: Seq<Seq<u32>>,
    p: int,
)
    requires
        0 <= p < g.ops.len(),
        has_no_kernel(parts(g.ops[p], false)[0]),
    ensures
        run_of(RuntimeView { graph: taken_apart(g, false), memory: mem }, inputs, exps).1 is Err,
{
    let h = taken_apart(g, false);
    lemma_taken_apart(g, false);
    let k = lemma_first_part(g.ops, g.ops.len(), p);
    let first = crate::runtime::generic::inputs_put(mem, inputs, inputs.len());
    lemma_stops(h, first.memory, exps, h.ops.len(), k);
}

/// A run that comes to its end returns the same tensors after fusion. One that
/// fails also fails after fusion, unless a SiLU was fused, which the generic
/// runtime passes over. (It has no kernel for the ops that fusion speaks of: a
/// run that comes to its end has met no pattern.)
pub proof fn law_fusion_keeps_runs(
    g: GraphView,
    memory: Map<Seq<char>, Seq<u8>>,
    inputs: Seq<(Seq<char>, Seq<u8>)>,
    exps: Seq<Seq<u32>>,
)
    requires
        assigned_once(g.ops),
    ensures
        ({
            let f = GraphView { ops: fused(g), ..g };
            let before = run_of(RuntimeView { graph: taken_apart(g, false), memory }, inputs, exps).1;
            let after = run_of(RuntimeView { graph: taken_apart(f, false), memory }, inputs, exps).1;
            match before {
                Ok(tensors) => after == before,
                Err(_) => after is Err || has_silu(g),
            }
        }),
{
    let f = all_fusions(g);
    let ops = g.ops;
    if f.len() == 0 {
        law_nothing_to_fuse(g);
        assert(GraphView { ops: fused(g), ..g } == g);
    } else {
        let (pass, i) = lemma_any_fusion_source(g, 0);
        lemma_fusion_facts(g, pass, i);
        lemma_in_place(g, 0);
        let c = f[0].at;
        let o = f[0].op;
        assert(parts(ops[c], false)[0] == ops[c]);
        lemma_run_fails(g, memory, inputs, exps, c);
        if pass == 2 {
            assert(silu_fusion(g, i) is Some);
        } else {
            lemma_remains(all_replaced(g), f, ops.len(), c);
            let out = fused(g);
            let y = choose|y: int| 0 <= y < out.len() && out[y] == o;
            assert(has_no_kernel(parts(o, false)[0]));
            lemma_run_fails(GraphView { ops: out, ..g }, memory, inputs, exps, y);
        }
    }
}

} // verus!
