//! What the ops of a graph of singles compute in a runtime.

use vstd::prelude::*;
use vstd::string::*;
use crate::builder::{OpView, ParamsView};
use crate::calibration::meaning::is_biased;
use crate::graph::GraphView;
use crate::ieee::accuracy::{is_rounded, lemma_addends_finite};
use crate::ieee::sums::are_sums;
use crate::ieee::sum32;
use crate::kernels::elements::{
    is_clipped, is_rectified, is_result, is_row_largest, law_clipped, law_combined, law_rectified,
    law_row_bias, law_softmax_arguments, law_softmax_is_normalized,
};
use crate::kernels::windows::{
    column_of, is_inner_product, is_mean_of, last_channel, law_channel_mean, law_last_channel_mean,
    law_matrix_product_is_of_rows_and_columns, row_of,
};
use crate::kernels::{
    broadcast_over, channel_means, clipped, last_channel_means, lemma_cell, matrix_product,
    normalized_rows, overlaid, rectified, row_biased, Arithmetic, Product,
};
use crate::precision::{is_finite, value_of};
use crate::proto::{bytes_of_words32, law_words32_round_trip, little_endian, words32};
use crate::tensor::{numel, Dtype};
use super::cpu::{bias_rows, cut, op_ran, results_put, step_of, NumbersView, StepView};
use super::generic::{op_arguments, op_bytes, op_done, softmax_input};
use super::{encoded, third_input, width, Float};

verus! {

/// The numbers of a tensor of singles.
pub open spec fn numbers_of(mem: Map<Seq<char>, Seq<u8>>, name: Seq<char>) -> Seq<u32> {
    words32(mem[name])
}

/// A word is made of its four bytes.
proof fn lemma_same_word(a: Seq<u8>, b: Seq<u8>, i: int)
    requires
        0 <= i,
        4 * i + 4 <= a.len(),
        4 * i + 4 <= b.len(),
        forall|j: int| 4 * i <= j < 4 * i + 4 ==> a[j] == b[j],
    ensures
        words32(a)[i] == words32(b)[i],
{
    reveal_with_fuel(little_endian, 5);
    assert(a[4 * i] == b[4 * i]);
    assert(a[4 * i + 1] == b[4 * i + 1]);
    assert(a[4 * i + 2] == b[4 * i + 2]);
    assert(a[4 * i + 3] == b[4 * i + 3]);
}

/// Numbers written over the front of a tensor are read back.
proof fn lemma_written(there: Seq<u8>, v: Seq<u32>, i: int)
    requires
        0 <= i < v.len(),
        4 * i + 4 <= there.len(),
    ensures
        words32(overlaid(there, encoded(Float::Single, v)))[i] == v[i],
{
    let bytes = bytes_of_words32(v);
    law_words32_round_trip(v);
    lemma_same_word(overlaid(there, bytes), bytes, i);
}

/// Numbers cut to a tensor and written over it are read back.
proof fn lemma_cut_written(there: Seq<u8>, v: Seq<u32>, i: int)
    requires
        0 <= i < v.len(),
        4 * i + 4 <= there.len(),
    ensures
        words32(overlaid(there, cut(Float::Single, there, encoded(Float::Single, v))))[i] == v[i],
{
    let bytes = bytes_of_words32(v);
    law_words32_round_trip(v);
    let c = cut(Float::Single, there, bytes);
    assert(c.len() >= 4 * i + 4);
    lemma_same_word(overlaid(there, c), bytes, i);
}

proof fn lemma_front(data: Seq<u8>, n: nat, i: int)
    requires
        0 <= i < n,
        4 * n <= data.len(),
    ensures
        super::generic::front(Float::Single, data, n).len() == n,
        super::generic::front(Float::Single, data, n)[i] == words32(data)[i],
{
    assert(data.take((n * 4) as int).len() == 4 * n);
    lemma_same_word(data.take((n * 4) as int), data, i);
}

proof fn lemma_names()
    ensures
        "MatMul"@ != "Relu"@,
        "MatMul"@ != "Flatten"@,
        "Flatten"@ != "Relu"@,
{
    reveal_strlit("Relu");
    reveal_strlit("Flatten");
    reveal_strlit("MatMul");
    assert("MatMul"@.len() == 6 && "Relu"@.len() == 4 && "Flatten"@.len() == 7);
}

/// The product of two matrices that an op asks for.
pub open spec fn product_of(g: GraphView, op: OpView, trans_a: bool, trans_b: bool) -> Product {
    let a = g.shapes[op.inputs[0]].dims;
    let b = g.shapes[op.inputs[1]].dims;
    Product {
        m: a[if trans_a { 1int } else { 0 }] as int,
        n: b[if trans_b { 0int } else { 1 }] as int,
        k: a[if trans_a { 0int } else { 1 }] as int,
        trans_a,
        trans_b,
    }
}

/// The bias of an op: the numbers of its third input, if it has one.
pub open spec fn bias_in(mem: Map<Seq<char>, Seq<u8>>, op: OpView) -> Seq<u32> {
    match third_input(mem, op) {
        Some(data) => words32(data),
        None => Seq::empty(),
    }
}

// ---------------------------------------------------------------------------
// The generic runtime
// ---------------------------------------------------------------------------

/// Whether the generic runtime runs an op of a graph of singles.
pub open spec fn is_run(
    g: GraphView,
    mem: Map<Seq<char>, Seq<u8>>,
    op: OpView,
    exps: Seq<u32>,
) -> bool {
    g.dtype == Dtype::F32 && op_done(g, mem, op, exps).failure is None
}

/// The generic runtime's Relu, Clip and Add: each number rectified, kept within
/// the bounds, or added to that of the second input, which is repeated.
pub proof fn law_generic_elements(
    g: GraphView,
    mem: Map<Seq<char>, Seq<u8>>,
    op: OpView,
    exps: Seq<u32>,
    i: int,
)
    requires
        is_run(g, mem, op, exps),
        0 <= i < numel(g.shapes[op.inputs[0]].dims),
    ensures
        ({
            let x = numbers_of(mem, op.inputs[0]);
            let b = numbers_of(mem, op.inputs[1]);
            let y = numbers_of(op_done(g, mem, op, exps).memory, op.outputs[0]);
            &&& op.params is Empty && op.op_type == "Relu"@ ==> is_rectified(y[i], x[i])
            &&& op.params matches ParamsView::Clip { min, max } ==> is_clipped(y[i], x[i], min, max)
            &&& op.params is Add ==> is_result(
                Arithmetic::Sum,
                y[i],
                x[i],
                b[i % b.len() as int],
            )
        }),
{
    let data = mem[op.inputs[0]];
    let n = numel(g.shapes[op.inputs[0]].dims);
    if (op.params is Empty && op.op_type == "Relu"@) || op.params is Clip || op.params is Add {
        assert(op_bytes(g, mem, op, exps) is Ok);
        assert(n * 4 <= data.len());
        lemma_front(data, n, i);
        let v = super::generic::front(Float::Single, data, n);
        match op.params {
            ParamsView::Empty => {
                law_rectified(v, i);
                lemma_written(data, rectified(v), i);
            },
            ParamsView::Clip { min, max } => {
                law_clipped(v, min, max, i);
                lemma_written(data, clipped(v, min, max), i);
            },
            _ => {
                let b = words32(mem[op.inputs[1]]);
                law_combined(Arithmetic::Sum, v, b, i);
                lemma_written(data, broadcast_over(Arithmetic::Sum, v, b), i);
            },
        }
    }
}

/// The generic runtime's GlobalAveragePool: the mean of each channel of each
/// image, channels first.
pub proof fn law_generic_global_pool(
    g: GraphView,
    mem: Map<Seq<char>, Seq<u8>>,
    op: OpView,
    exps: Seq<u32>,
    b: int,
    ch: int,
)
    requires
        is_run(g, mem, op, exps),
        op.params is GlobalAvgPool,
        ({
            let d = g.shapes[op.inputs[0]].dims;
            &&& 0 <= b < d[0]
            &&& 0 <= ch < d[1]
            &&& 0 < d[2] * d[3] <= 0x10_0000
            &&& is_finite(
                numbers_of(op_done(g, mem, op, exps).memory, op.outputs[0])[b * d[1] + ch],
            )
        }),
    ensures
        ({
            let d = g.shapes[op.inputs[0]].dims;
            let per = d[2] * d[3];
            let at = b * d[1] + ch;
            is_mean_of(
                numbers_of(op_done(g, mem, op, exps).memory, op.outputs[0])[at],
                per,
                numbers_of(mem, op.inputs[0]).subrange(at * per, at * per + per),
            )
        }),
{
    let d = g.shapes[op.inputs[0]].dims;
    let at = b * d[1] + ch;
    let (channels, per) = ((d[0] * d[1]) as nat, (d[2] * d[3]) as nat);
    lemma_cell(b, d[0] as int, ch, d[1] as int);
    let x = numbers_of(mem, op.inputs[0]);
    let size = crate::calibration::bytes_in(g.shapes[op.outputs[0]]);
    assert(op_bytes(g, mem, op, exps) is Ok);
    assert(channels * 4 <= size);
    lemma_written(Seq::new(size, |i: int| 0u8), channel_means(x, channels, per), at);
    law_channel_mean(x, channels, per, at);
}

/// The generic runtime's Gemm: rows times columns, with the bias of the column.
pub proof fn law_generic_product(
    g: GraphView,
    mem: Map<Seq<char>, Seq<u8>>,
    op: OpView,
    exps: Seq<u32>,
    i: int,
    j: int,
)
    requires
        is_run(g, mem, op, exps),
        op.params is Gemm,
        g.shapes.dom().contains(op.inputs[1]),
        ({
            let p = product_of(g, op, op.params->Gemm_trans_a, op.params->Gemm_trans_b);
            &&& 0 <= i < p.m
            &&& 0 <= j < p.n
            &&& p.k <= 0x10_0000
            &&& bias_in(mem, op).len() == 0 || bias_in(mem, op).len() >= p.n
            &&& is_finite(
                numbers_of(op_done(g, mem, op, exps).memory, op.outputs[0])[i * p.n + j],
            )
        }),
    ensures
        ({
            let p = product_of(g, op, op.params->Gemm_trans_a, op.params->Gemm_trans_b);
            let y = numbers_of(op_done(g, mem, op, exps).memory, op.outputs[0])[i * p.n + j];
            exists|s: u32| #[trigger]
                is_inner_product(
                    s,
                    row_of(p, numbers_of(mem, op.inputs[0]), i),
                    column_of(p, numbers_of(mem, op.inputs[1]), j),
                ) && is_biased(y, s, bias_in(mem, op), j)
        }),
{
    let p = product_of(g, op, op.params->Gemm_trans_a, op.params->Gemm_trans_b);
    let (a, b) = (numbers_of(mem, op.inputs[0]), numbers_of(mem, op.inputs[1]));
    let at = i * p.n + j;
    lemma_cell(i, p.m, j, p.n);
    let size = crate::calibration::bytes_in(g.shapes[op.outputs[0]]);
    assert(op_bytes(g, mem, op, exps) is Ok);
    assert((p.m * p.n) * 4 <= size);
    let c = matrix_product(p, a, b);
    let bias = bias_in(mem, op);
    let v = super::generic::product_numbers(Float::Single, p, a, b, third_input(mem, op));
    lemma_written(Seq::new(size, |i: int| 0u8), v, at);
    lemma_product_numbers(p, a, b, mem, op, i, j);
}

proof fn lemma_product_numbers(
    p: Product,
    a: Seq<u32>,
    b: Seq<u32>,
    mem: Map<Seq<char>, Seq<u8>>,
    op: OpView,
    i: int,
    j: int,
)
    requires
        0 <= i < p.m,
        0 <= j < p.n,
        0 <= p.k <= 0x10_0000,
        bias_in(mem, op).len() == 0 || bias_in(mem, op).len() >= p.n,
        third_input(mem, op) is Some ==> bias_in(mem, op).len() > 0,
        is_finite(
            super::generic::product_numbers(Float::Single, p, a, b, third_input(mem, op))[i * p.n + j],
        ),
    ensures
        ({
            let y = super::generic::product_numbers(
                Float::Single,
                p,
                a,
                b,
                third_input(mem, op),
            )[i * p.n + j];
            exists|s: u32| #[trigger]
                is_inner_product(s, row_of(p, a, i), column_of(p, b, j)) && is_biased(
                    y,
                    s,
                    bias_in(mem, op),
                    j,
                )
        }),
{
    let at = i * p.n + j;
    lemma_cell(i, p.m, j, p.n);
    let c = matrix_product(p, a, b);
    let bias = bias_in(mem, op);
    let s = c[at];
    let y = super::generic::product_numbers(Float::Single, p, a, b, third_input(mem, op))[at];
    if bias.len() > 0 {
        vstd::arithmetic::div_mod::lemma_fundamental_div_mod_converse(at, p.n, i, j);
        vstd::arithmetic::div_mod::lemma_small_mod(j as nat, bias.len());
        assert(y == sum32(s, bias[j]));
        lemma_addends_finite(s, bias[j]);
        law_row_bias(c, p.n, bias, i, j);
    }
    law_matrix_product_is_of_rows_and_columns(p, a, b, i, j);
    assert(is_inner_product(s, row_of(p, a, i), column_of(p, b, j)));
}

// ---------------------------------------------------------------------------
// The CPU runtime
// ---------------------------------------------------------------------------

/// Whether the CPU runtime runs an op of a graph of singles without a kernel.
pub open spec fn is_run_here(
    g: GraphView,
    mem: Map<Seq<char>, Seq<u8>>,
    op: OpView,
    threads: usize,
) -> bool {
    g.dtype == Dtype::F32 && (step_of(g, mem, op, threads) matches Ok(StepView::Write(_)))
}

/// What an op of the CPU runtime leaves in its first output.
pub open spec fn left_by(
    g: GraphView,
    mem: Map<Seq<char>, Seq<u8>>,
    op: OpView,
    threads: usize,
    results: Seq<Seq<u32>>,
) -> Seq<u32> {
    numbers_of(
        op_ran(g, mem, op, threads, results.map_values(|v: Seq<u32>| NumbersView::Singles(v))).memory,
        op.outputs[0],
    )
}

/// What the CPU runtime does itself, number by number: a Relu in place, a Clip,
/// and arithmetic with a second input that is repeated.
pub proof fn law_cpu_elements(
    g: GraphView,
    mem: Map<Seq<char>, Seq<u8>>,
    op: OpView,
    threads: usize,
    i: int,
)
    requires
        is_run_here(g, mem, op, threads),
        0 <= i < numbers_of(mem, op.inputs[0]).len(),
        i < numbers_of(mem, op.outputs[0]).len(),
    ensures
        ({
            let x = numbers_of(mem, op.inputs[0]);
            let b = numbers_of(mem, op.inputs[1]);
            let y = left_by(g, mem, op, threads, Seq::empty());
            let c = if op.params is Add && g.shapes.dom().contains(op.inputs[1]) {
                numel(g.shapes[op.inputs[1]].dims) as int
            } else {
                b.len() as int
            };
            &&& op.params is Empty && op.op_type == "Relu"@ ==> is_rectified(y[i], x[i])
            &&& op.params matches ParamsView::Clip { min, max } ==> is_clipped(y[i], x[i], min, max)
            &&& op.params is Add ==> is_result(Arithmetic::Sum, y[i], x[i], b[i % c])
            &&& op.params is Sub ==> is_result(Arithmetic::Difference, y[i], x[i], b[i % c])
            &&& op.params is Mul ==> is_result(Arithmetic::Product, y[i], x[i], b[i % c])
            &&& op.params is Div ==> is_result(Arithmetic::Quotient, y[i], x[i], b[i % c])
            &&& op.params is Reshape || (op.params is Empty && op.op_type == "Flatten"@) ==> y[i]
                == x[i]
        }),
{
    lemma_names();
    let x = numbers_of(mem, op.inputs[0]);
    let data = mem[op.inputs[0]];
    let there = mem[op.outputs[0]];
    match op.params {
        ParamsView::Empty => {
            if op.op_type == "Relu"@ {
                law_rectified(x, i);
                lemma_written(data, rectified(x), i);
            }
        },
        ParamsView::Clip { min, max } => {
            law_clipped(x, min, max, i);
            lemma_written(data, clipped(x, min, max), i);
        },
        ParamsView::Add => {
            let b = numbers_of(mem, op.inputs[1]);
            let c = if g.shapes.dom().contains(op.inputs[1]) {
                numel(g.shapes[op.inputs[1]].dims)
            } else {
                numel(g.shapes[op.inputs[0]].dims)
            };
            lemma_repeated(Arithmetic::Sum, x, b, c, there, i);
        },
        ParamsView::Sub => {
            let b = numbers_of(mem, op.inputs[1]);
            lemma_repeated(Arithmetic::Difference, x, b, b.len(), there, i);
        },
        ParamsView::Mul => {
            let b = numbers_of(mem, op.inputs[1]);
            lemma_repeated(Arithmetic::Product, x, b, b.len(), there, i);
        },
        ParamsView::Div => {
            let b = numbers_of(mem, op.inputs[1]);
            lemma_repeated(Arithmetic::Quotient, x, b, b.len(), there, i);
        },
        _ => {},
    }
}

proof fn lemma_repeated(kind: Arithmetic, x: Seq<u32>, b: Seq<u32>, c: nat, there: Seq<u8>, i: int)
    requires
        0 <= i < x.len(),
        0 < c <= b.len(),
        4 * i + 4 <= there.len(),
    ensures
        is_result(
            kind,
            words32(
                overlaid(
                    there,
                    cut(
                        Float::Single,
                        there,
                        encoded(Float::Single, broadcast_over(kind, x, b.take(c as int))),
                    ),
                ),
            )[i],
            x[i],
            b[i % c as int],
        ),
{
    let used = b.take(c as int);
    vstd::arithmetic::div_mod::lemma_mod_pos_bound(i, c as int);
    law_combined(kind, x, used, i);
    lemma_cut_written(there, broadcast_over(kind, x, used), i);
}

/// The CPU runtime's GlobalAveragePool: the mean of each channel of each image,
/// channels last.
pub proof fn law_cpu_global_pool(
    g: GraphView,
    mem: Map<Seq<char>, Seq<u8>>,
    op: OpView,
    threads: usize,
    b: int,
    ch: int,
)
    requires
        is_run_here(g, mem, op, threads),
        op.params is GlobalAvgPool,
        ({
            let d = g.shapes[op.inputs[0]].dims;
            &&& 0 <= b < d[0]
            &&& 0 <= ch < d[3]
            &&& 0 < d[1] * d[2] <= 0x10_0000
            &&& is_finite(left_by(g, mem, op, threads, Seq::empty())[b * d[3] + ch])
        }),
    ensures
        ({
            let d = g.shapes[op.inputs[0]].dims;
            is_mean_of(
                left_by(g, mem, op, threads, Seq::empty())[b * d[3] + ch],
                d[1] * d[2],
                last_channel(
                    numbers_of(mem, op.inputs[0]),
                    b,
                    ch,
                    (d[1] * d[2]) as nat,
                    d[3] as nat,
                ),
            )
        }),
{
    let d = g.shapes[op.inputs[0]].dims;
    let (n, per, c) = (d[0] as nat, (d[1] * d[2]) as nat, d[3] as nat);
    let x = numbers_of(mem, op.inputs[0]);
    let at = b * d[3] + ch;
    lemma_cell(b, n as int, ch, c as int);
    lemma_written(mem[op.outputs[0]], last_channel_means(x, n, per, c), at);
    law_last_channel_mean(x, n, per, c, b, ch);
}

/// The CPU runtime's Gemm where a factor is transposed: rows times columns, with
/// the bias of the column.
pub proof fn law_cpu_product(
    g: GraphView,
    mem: Map<Seq<char>, Seq<u8>>,
    op: OpView,
    threads: usize,
    i: int,
    j: int,
)
    requires
        is_run_here(g, mem, op, threads),
        op.params is Gemm,
        ({
            let p = product_of(g, op, op.params->Gemm_trans_a, op.params->Gemm_trans_b);
            &&& 0 <= i < p.m
            &&& 0 <= j < p.n
            &&& p.k <= 0x10_0000
            &&& bias_in(mem, op).len() == 0 || bias_in(mem, op).len() >= p.n
            &&& is_finite(left_by(g, mem, op, threads, Seq::empty())[i * p.n + j])
        }),
    ensures
        ({
            let p = product_of(g, op, op.params->Gemm_trans_a, op.params->Gemm_trans_b);
            let y = left_by(g, mem, op, threads, Seq::empty())[i * p.n + j];
            exists|s: u32| #[trigger]
                is_inner_product(
                    s,
                    row_of(p, numbers_of(mem, op.inputs[0]), i),
                    column_of(p, numbers_of(mem, op.inputs[1]), j),
                ) && is_biased(y, s, bias_in(mem, op), j)
        }),
{
    let p = product_of(g, op, op.params->Gemm_trans_a, op.params->Gemm_trans_b);
    let (a, b) = (numbers_of(mem, op.inputs[0]), numbers_of(mem, op.inputs[1]));
    let at = i * p.n + j;
    lemma_cell(i, p.m, j, p.n);
    let v = super::generic::product_numbers(Float::Single, p, a, b, third_input(mem, op));
    lemma_written(mem[op.outputs[0]], v, at);
    lemma_product_numbers(p, a, b, mem, op, i, j);
}

/// What a kernel returns is what the output then holds, unless a bias is added
/// to it.
pub proof fn law_cpu_answers_are_written(
    g: GraphView,
    mem: Map<Seq<char>, Seq<u8>>,
    op: OpView,
    threads: usize,
    result: Seq<u32>,
    i: int,
)
    requires
        g.dtype == Dtype::F32,
        step_of(g, mem, op, threads) matches Ok(StepView::Call(_)),
        op.outputs.len() == 1,
        op_ran(g, mem, op, threads, seq![NumbersView::Singles(result)]).failure is None,
        0 <= i < result.len(),
        i < numbers_of(mem, op.outputs[0]).len(),
        op.outputs[0] != op.inputs[0],
    ensures
        ({
            let y = numbers_of(
                op_ran(g, mem, op, threads, seq![NumbersView::Singles(result)]).memory,
                op.outputs[0],
            );
            let biased = (op.params is Conv2d || op.params is Gemm || (op.params is Empty
                && op.op_type == "MatMul"@)) && third_input(mem, op) is Some;
            !biased ==> y[i] == result[i]
        }),
{
    lemma_names();
    let there = mem[op.outputs[0]];
    let results = seq![NumbersView::Singles(result)];
    reveal_with_fuel(results_put, 2);
    lemma_cut_written(there, result, i);
    let put = results_put(Float::Single, mem, op.outputs, results, 1);
    assert(put.memory == mem.insert(
        op.outputs[0],
        overlaid(there, cut(Float::Single, there, encoded(Float::Single, result))),
    ));
    if op.inputs.len() > 2 && op.inputs[2] == op.outputs[0] {
        assert(third_input(mem, op) is Some || op.inputs[2].len() == 0);
    }
}

/// How many rows a bias is added to, and how long they are: a convolution has
/// one for each place of its output image, channels last, and a product its own.
pub open spec fn rows_of(g: GraphView, op: OpView) -> (int, int) {
    let x = g.shapes[op.inputs[0]].dims;
    if op.params is Conv2d {
        let y = g.shapes[op.outputs[0]].dims;
        ((x[0] * y[1]) * y[2], y[3] as int)
    } else {
        (x[0] as int, g.shapes[op.inputs[1]].dims[1] as int)
    }
}

/// Once a kernel has returned a convolution or product, entry `j` of the bias is
/// added to column `j` of what it returned.
pub proof fn law_cpu_bias_is_added(
    g: GraphView,
    mem: Map<Seq<char>, Seq<u8>>,
    op: OpView,
    threads: usize,
    result: Seq<u32>,
    row: int,
    j: int,
)
    requires
        g.dtype == Dtype::F32,
        op.params is Conv2d || op.params is Gemm || (op.params is Empty && op.op_type
            == "MatMul"@),
        step_of(g, mem, op, threads) matches Ok(StepView::Call(_)),
        op.outputs.len() == 1,
        op_ran(g, mem, op, threads, seq![NumbersView::Singles(result)]).failure is None,
        !op.inputs.contains(op.outputs[0]),
        0 <= row < rows_of(g, op).0,
        0 <= j < rows_of(g, op).1,
        row * rows_of(g, op).1 + j < result.len(),
        row * rows_of(g, op).1 + j < numbers_of(mem, op.outputs[0]).len(),
        third_input(mem, op) is Some,
        bias_in(mem, op).len() >= rows_of(g, op).1,
        is_finite(
            numbers_of(
                op_ran(g, mem, op, threads, seq![NumbersView::Singles(result)]).memory,
                op.outputs[0],
            )[row * rows_of(g, op).1 + j],
        ),
    ensures
        ({
            let at = row * rows_of(g, op).1 + j;
            let y = numbers_of(
                op_ran(g, mem, op, threads, seq![NumbersView::Singles(result)]).memory,
                op.outputs[0],
            );
            is_rounded(
                value_of(y[at]),
                value_of(result[at]) + value_of(bias_in(mem, op)[j]),
                1,
                24,
            )
        }),
{
    lemma_names();
    let (rows, n) = rows_of(g, op);
    let at = row * n + j;
    lemma_cell(row, rows, j, n);
    let there = mem[op.outputs[0]];
    let results = seq![NumbersView::Singles(result)];
    reveal_with_fuel(results_put, 2);
    lemma_cut_written(there, result, at);
    let put = results_put(Float::Single, mem, op.outputs, results, 1);
    let after = overlaid(there, cut(Float::Single, there, encoded(Float::Single, result)));
    assert(put.memory == mem.insert(op.outputs[0], after));
    assert(op.inputs.contains(op.inputs[2]));
    assert(third_input(put.memory, op) == third_input(mem, op));
    let (total, length, least) = bias_rows(g, op)->0;
    assert(length == n);
    assert(total == rows * n);
    let v = words32(after).take(total);
    let sums = row_biased(v, n, bias_in(mem, op));
    lemma_written(after, sums, at);
    law_row_bias(v, n, bias_in(mem, op), row, j);
}

// ---------------------------------------------------------------------------
// Softmax in the generic runtime
// ---------------------------------------------------------------------------

/// The generic runtime's Softmax: each exponential over the sum of those of its
/// row, along the last dimension.
pub proof fn law_generic_softmax(
    g: GraphView,
    mem: Map<Seq<char>, Seq<u8>>,
    op: OpView,
    exps: Seq<u32>,
    rows: nat,
    n: nat,
    row: int,
    j: int,
)
    requires
        is_run(g, mem, op, exps),
        op.params is Softmax,
        g.shapes[op.inputs[0]].dims.len() > 0,
        n == g.shapes[op.inputs[0]].dims.last(),
        exps.len() == rows * n,
        0 <= row < rows,
        0 <= j < n,
    ensures
        exists|s: Seq<u32>|
            #![trigger are_sums(s, exps.subrange(row * n, row * n + n))]
            are_sums(s, exps.subrange(row * n, row * n + n)) && s[0] == 0 && is_result(
                Arithmetic::Quotient,
                numbers_of(op_done(g, mem, op, exps).memory, op.outputs[0])[row * n + j],
                exps[row * n + j],
                s.last(),
            ),
{
    law_softmax_is_normalized(exps, rows, n, row, j);
    lemma_cell(row, rows as int, j, n as int);
    assert(op_bytes(g, mem, op, exps) is Ok);
    let (f, data, x, r, m) = softmax_input(g, mem, op)->Ok_0;
    assert(m == n);
    let total = numel(g.shapes[op.inputs[0]].dims) as int;
    assert((total / n as int) * n <= total) by (nonlinear_arith)
        requires
            n > 0,
            total >= 0,
    ;
    lemma_written(data, normalized_rows(exps, n), row * n + j);
}

/// The exponentials that it needs are of the numbers of its input, each less the
/// largest of its row.
pub proof fn law_generic_softmax_arguments(
    g: GraphView,
    mem: Map<Seq<char>, Seq<u8>>,
    op: OpView,
    rows: nat,
    n: nat,
    row: int,
    j: int,
)
    requires
        g.dtype == Dtype::F32,
        op.params is Softmax,
        softmax_input(g, mem, op) is Ok,
        g.shapes[op.inputs[0]].dims.len() > 0,
        n == g.shapes[op.inputs[0]].dims.last(),
        op_arguments(g, mem, op).len() == rows * n,
        0 <= row < rows,
        0 <= j < n,
    ensures
        exists|m: u32|
            #![trigger is_row_largest(
                m,
                words32(mem[op.inputs[0]]).take(numel(g.shapes[op.inputs[0]].dims) as int),
                row,
                n as int,
            )]
            is_row_largest(
                m,
                words32(mem[op.inputs[0]]).take(numel(g.shapes[op.inputs[0]].dims) as int),
                row,
                n as int,
            ) && (is_finite(m) && is_finite(numbers_of(mem, op.inputs[0])[row * n + j])
                && is_finite(op_arguments(g, mem, op)[row * n + j]) ==> is_rounded(
                value_of(op_arguments(g, mem, op)[row * n + j]),
                value_of(numbers_of(mem, op.inputs[0])[row * n + j]) - value_of(m),
                1,
                24,
            )),
{
    let (f, data, x, r, m) = softmax_input(g, mem, op)->Ok_0;
    let total = numel(g.shapes[op.inputs[0]].dims);
    assert(m == n);
    assert((total as int / n as int) * n <= total) by (nonlinear_arith)
        requires
            n > 0,
            total >= 0,
    ;
    assert(r == rows) by (nonlinear_arith)
        requires
            r * n == rows * n,
            n > 0,
    ;
    assert(f == Float::Single);
    assert(total * width(f) <= data.len());
    let front = words32(data).take(total as int);
    assert forall|i: int| 0 <= i < total implies x[i] == front[i] by {
        lemma_front(data, total, i);
    }
    assert(x.len() == total);
    assert(x =~= front);
    lemma_cell(row, rows as int, j, n as int);
    law_softmax_arguments(x, rows, n, row, j);
}

} // verus!
