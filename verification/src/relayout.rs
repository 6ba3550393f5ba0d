//! Passes that change the layout of a compiled graph's data.

use vstd::prelude::*;
use vstd::string::*;
use crate::builder::{CompiledOp, OpParams, OpView, ParamsView};
use crate::error::{Error, ErrorView};
use crate::graph::{contains_name, Graph, GraphView};
use crate::kernels::{dot, lemma_row, matrix_product, Product};
use crate::layout::{
    flat, law_elements_move, permuted, picked, volume, ints, lemma_matrix_place, lemma_transposed_2d, matrix_place, permuted_bytes, transpose_2d_bytes,
    transpose_f32_4d, transposed_2d,
};
use crate::model::{lemma_views_push, views};
use crate::name_map::{distinct_names, lemma_pair_in_map, stands_at, NameMap};
use crate::proto::{law_words32_round_trip, little_endian, words32};
use crate::tensor::{dtype_name, dtype_size, dtype_str, Dtype, ShapeView, TensorShape};
use crate::text::{concat2, concat3, concat4, dec, dec_usize, list_usize, sizes_text, str_eq};

verus! {

// ---------------------------------------------------------------------------
// NCHW to NHWC
// ---------------------------------------------------------------------------

/// The weights of the convolutions among the first `n` ops that are
/// initializers, in order, each of them once.
pub open spec fn conv_weights(ops: Seq<OpView>, data: Map<Seq<char>, Seq<u8>>, n: nat) -> Seq<
    Seq<char>,
>
    decreases n,
{
    if n == 0 {
        Seq::empty()
    } else {
        let before = conv_weights(ops, data, (n - 1) as nat);
        let op = ops[n - 1];
        if op.op_type == "Conv"@ && op.inputs.len() >= 2 && data.dom().contains(op.inputs[1])
            && !before.contains(op.inputs[1]) {
            before.push(op.inputs[1])
        } else {
            before
        }
    }
}

/// The permutation of a convolution's weight.
pub open spec fn weight_perm() -> Seq<usize> {
    seq![2, 3, 1, 0]
}

/// The graph with one convolution weight laid out as `[kH, kW, C_in, C_out]`.
pub open spec fn weight_converted(g: GraphView, name: Seq<char>) -> GraphView {
    if g.shapes.dom().contains(name) && g.shapes[name].dims.len() == 4 {
        let d = g.shapes[name].dims;
        GraphView {
            shapes: g.shapes.insert(
                name,
                ShapeView { dims: seq![d[2], d[3], d[1], d[0]], ..g.shapes[name] },
            ),
            initializers: if g.initializers.dom().contains(name) {
                g.initializers.insert(
                    name,
                    permuted_bytes(g.initializers[name], ints(d), weight_perm()),
                )
            } else {
                g.initializers
            },
            ..g
        }
    } else {
        g
    }
}

/// The graph with the first `n` of the named weights laid out anew.
pub open spec fn weights_converted(g: GraphView, names: Seq<Seq<char>>, n: nat) -> GraphView
    decreases n,
{
    if n == 0 {
        g
    } else {
        weight_converted(weights_converted(g, names, (n - 1) as nat), names[n - 1])
    }
}

/// A shape of four dimensions from `[N, C, H, W]` to `[N, H, W, C]`.
pub open spec fn nhwc_shape(s: ShapeView) -> ShapeView {
    if s.dims.len() == 4 {
        ShapeView { dims: seq![s.dims[0], s.dims[2], s.dims[3], s.dims[1]], ..s }
    } else {
        s
    }
}

/// All shapes but the named ones from `[N, C, H, W]` to `[N, H, W, C]`.
pub open spec fn nhwc_shapes(shapes: Map<Seq<char>, ShapeView>, but: Seq<Seq<char>>) -> Map<
    Seq<char>,
    ShapeView,
> {
    Map::new(
        |k: Seq<char>| shapes.dom().contains(k),
        |k: Seq<char>|
            if but.contains(k) {
                shapes[k]
            } else {
                nhwc_shape(shapes[k])
            },
    )
}

/// A graph in NHWC layout.
pub open spec fn nhwc_graph(g: GraphView) -> GraphView {
    let names = conv_weights(g.ops, g.initializers, g.ops.len());
    let w = weights_converted(g, names, names.len());
    GraphView { shapes: nhwc_shapes(w.shapes, names), ..w }
}

fn find_conv_weights(graph: &Graph) -> (r: Vec<String>)
    ensures
        views(r@) == conv_weights(graph@.ops, graph@.initializers, graph@.ops.len()),
{
    let mut r: Vec<String> = Vec::new();
    let mut i: usize = 0;
    assert(views(r@) =~= Seq::empty());
    while i < graph.ops.len()
        invariant
            i <= graph.ops@.len(),
            views(r@) == conv_weights(graph@.ops, graph@.initializers, i as nat),
        decreases graph.ops@.len() - i,
    {
        broadcast use lemma_views_push;

        let op: &CompiledOp = &graph.ops[i];
        assert(graph@.ops[i as int] == op@);
        if str_eq(op.op_type.as_str(), "Conv") && op.inputs.len() >= 2 {
            assert(op@.inputs[1] == op.inputs@[1]@);
            if graph.initializers.contains_key(op.inputs[1].as_str()) && !contains_name(
                &r,
                op.inputs[1].as_str(),
            ) {
                r.push(op.inputs[1].clone());
            }
        }
        i = i + 1;
    }
    r
}

fn convert_weight(graph: &mut Graph, name: &String)
    ensures
        final(graph)@ == weight_converted(old(graph)@, name@),
{
    let mut shape: TensorShape = match graph.shapes.get(name.as_str()) {
        Some(s) => s.clone(),
        None => {
            return;
        },
    };
    if shape.dims.len() != 4 {
        return;
    }
    let ghost d = shape.dims@;
    let perm: [usize; 4] = [2, 3, 1, 0];
    assert(perm@ =~= weight_perm());
    let data: Option<Vec<u8>> = match graph.initializers.get(name.as_str()) {
        Some(data) => Some(transpose_f32_4d(data.as_slice(), shape.dims.as_slice(), &perm)),
        None => None,
    };
    match data {
        Some(data) => {
            graph.initializers.insert(name.clone(), data);
        },
        None => {},
    }
    let dims: Vec<usize> = vec![shape.dims[2], shape.dims[3], shape.dims[1], shape.dims[0]];
    assert(dims@ =~= seq![d[2], d[3], d[1], d[0]]);
    shape.dims = dims;
    graph.shapes.insert(name.clone(), shape);
}

fn convert_shapes(shapes: &mut NameMap<TensorShape>, but: &Vec<String>)
    ensures
        final(shapes)@ == nhwc_shapes(old(shapes)@, views(but@)),
{
    let ghost pairs = shapes.pairs();
    let ghost all = nhwc_shapes(shapes@, views(but@));
    let n: usize = shapes.len();
    let mut i: usize = 0;
    while i < n
        invariant
            i <= n == pairs.len(),
            distinct_names(pairs),
            pairs == old(shapes).pairs(),
            all == nhwc_shapes(old(shapes)@, views(but@)),
            shapes.pairs().len() == n,
            forall|k: int| 0 <= k < n ==> (#[trigger] shapes.pairs()[k]).0 == pairs[k].0,
            shapes@.dom() == old(shapes)@.dom(),
            forall|k: int| 0 <= k < i ==> shapes@[(#[trigger] pairs[k]).0] == all[pairs[k].0],
            forall|k: int|
                i <= k < n ==> shapes@[(#[trigger] pairs[k]).0] == old(shapes)@[pairs[k].0],
        decreases n - i,
    {
        let name: String = shapes.key_at(i).clone();
        let mut shape: TensorShape = shapes.value_at(i).clone();
        let ghost before = shapes@;
        proof {
            assert(shapes.pairs()[i as int].0 == pairs[i as int].0);
            lemma_pair_in_map(pairs, i as int);
            assert(shape@ == old(shapes)@[name@]);
        }
        if shape.dims.len() == 4 && !contains_name(but, name.as_str()) {
            let ghost d = shape.dims@;
            let dims: Vec<usize> = vec![shape.dims[0], shape.dims[2], shape.dims[3], shape.dims[1]];
            assert(dims@ =~= seq![d[0], d[2], d[3], d[1]]);
            shape.dims = dims;
            shapes.insert(name, shape);
            assert(shapes@.dom() =~= before.dom());
        }
        i = i + 1;
        proof {
            assert forall|k: int| 0 <= k < n && k != i - 1 implies shapes@[(
            #[trigger] pairs[k]).0] == before[pairs[k].0] by {
                if k < i - 1 {
                    assert(pairs[k].0 != pairs[i - 1].0);
                } else {
                    assert(pairs[i - 1].0 != pairs[k].0);
                }
            }
        }
    }
    proof {
        assert forall|k: Seq<char>| shapes@.dom().contains(k) implies shapes@[k] == all[k] by {
            let j = choose|j: int| stands_at(pairs, k, j);
            assert(stands_at(pairs, k, j));
        }
        assert(shapes@ =~= all);
    }
}

/// Convert a compiled graph from NCHW to NHWC layout.
///
/// Convolution weights go from `[C_out, C_in, kH, kW]` to `[kH, kW, C_in, C_out]`,
/// data and shape; every other shape of four dimensions goes from `[N, C, H, W]`
/// to `[N, H, W, C]`. The caller transposes input and output data.
pub fn convert_nchw_to_nhwc(graph: &mut Graph) -> (r: Result<(), Error>)
    ensures
        r is Ok,
        final(graph)@ == nhwc_graph(old(graph)@),
{
    let names: Vec<String> = find_conv_weights(graph);
    let mut i: usize = 0;
    while i < names.len()
        invariant
            i <= names@.len(),
            graph@ == weights_converted(old(graph)@, views(names@), i as nat),
        decreases names@.len() - i,
    {
        assert(views(names@)[i as int] == names@[i as int]@);
        convert_weight(graph, &names[i]);
        i = i + 1;
    }
    convert_shapes(&mut graph.shapes, &names);
    Ok(())
}

proof fn lemma_conv_weights(ops: Seq<OpView>, data: Map<Seq<char>, Seq<u8>>, n: nat)
    ensures
        conv_weights(ops, data, n).no_duplicates(),
        forall|i: int|
            0 <= i < conv_weights(ops, data, n).len() ==> data.dom().contains(
                #[trigger] conv_weights(ops, data, n)[i],
            ),
    decreases n,
{
    if n > 0 {
        lemma_conv_weights(ops, data, (n - 1) as nat);
    }
}

proof fn lemma_weights_converted(g: GraphView, names: Seq<Seq<char>>, n: nat, k: Seq<char>)
    requires
        n <= names.len(),
        names.no_duplicates(),
    ensures
        ({
            let h = weights_converted(g, names, n);
            let one = if names.take(n as int).contains(k) {
                weight_converted(g, k)
            } else {
                g
            };
            &&& h.shapes.dom().contains(k) == one.shapes.dom().contains(k)
            &&& h.shapes.dom().contains(k) ==> h.shapes[k] == one.shapes[k]
            &&& h.initializers.dom().contains(k) == one.initializers.dom().contains(k)
            &&& h.initializers.dom().contains(k) ==> h.initializers[k] == one.initializers[k]
        }),
    decreases n,
{
    if n > 0 {
        lemma_weights_converted(g, names, (n - 1) as nat, k);
        let before = names.take(n - 1);
        let now = names.take(n as int);
        assert(now =~= before.push(names[n - 1]));
        if k == names[n - 1] {
            assert(now[n - 1] == k);
            if before.contains(k) {
                let j = choose|j: int| 0 <= j < before.len() && before[j] == k;
                assert(names[j] == names[n - 1]);
            }
        } else if now.contains(k) {
            let j = choose|j: int| 0 <= j < now.len() && now[j] == k;
            assert(before[j] == k);
        } else if before.contains(k) {
            let j = choose|j: int| 0 <= j < before.len() && before[j] == k;
            assert(now[j] == k);
        }
    }
}

/// A weight is laid out anew once, however many convolutions share it.
pub proof fn law_weights_converted_once(g: GraphView, name: Seq<char>)
    requires
        conv_weights(g.ops, g.initializers, g.ops.len()).contains(name),
        g.shapes.dom().contains(name),
        g.shapes[name].dims.len() == 4,
    ensures
        nhwc_graph(g).shapes.dom().contains(name),
        nhwc_graph(g).initializers.dom().contains(name),
        ({
            let d = g.shapes[name].dims;
            &&& nhwc_graph(g).shapes[name].dims == seq![d[2], d[3], d[1], d[0]]
            &&& nhwc_graph(g).initializers[name] == permuted_bytes(
                g.initializers[name],
                ints(d),
                weight_perm(),
            )
        }),
{
    let names = conv_weights(g.ops, g.initializers, g.ops.len());
    lemma_conv_weights(g.ops, g.initializers, g.ops.len());
    lemma_weights_converted(g, names, names.len(), name);
    assert(names.take(names.len() as int) =~= names);
    let j = choose|j: int| 0 <= j < names.len() && names[j] == name;
    assert(g.initializers.dom().contains(names[j]));
}

/// A weight of floats holds, for each row and column of the kernel, the entries
/// of all input and output channels, where it held the kernel of each pair of
/// channels.
pub proof fn law_weight_entries_move(
    g: GraphView,
    name: Seq<char>,
    oc: int,
    ic: int,
    kh: int,
    kw: int,
)
    requires
        conv_weights(g.ops, g.initializers, g.ops.len()).contains(name),
        g.shapes.dom().contains(name),
        g.shapes[name].dims.len() == 4,
        ({
            let d = g.shapes[name].dims;
            &&& 0 <= oc < d[0]
            &&& 0 <= ic < d[1]
            &&& 0 <= kh < d[2]
            &&& 0 <= kw < d[3]
            &&& g.initializers[name].len() == ((d[0] * d[1]) * d[2]) * d[3] * 4
        }),
    ensures
        ({
            let d = g.shapes[name].dims;
            words32(nhwc_graph(g).initializers[name])[((kh * d[3] + kw) * d[1] + ic) * d[0] + oc]
                == words32(g.initializers[name])[((oc * d[1] + ic) * d[2] + kh) * d[3] + kw]
        }),
{
    law_weights_converted_once(g, name);
    let s = g.shapes[name].dims;
    let d = ints(s);
    let data = words32(g.initializers[name]);
    let i = seq![oc, ic, kh, kw];
    assert(volume(d) == ((s[0] * s[1]) * s[2]) * s[3]);
    law_elements_move(data, d, weight_perm(), i);
    law_words32_round_trip(permuted(data, d, weight_perm()));
    assert(flat(i, d) == ((oc * s[1] + ic) * s[2] + kh) * s[3] + kw);
    assert(flat(picked(i, weight_perm()), picked(d, weight_perm())) == ((kh * s[3] + kw) * s[1] + ic)
        * s[0] + oc);
}

/// A tensor of four dimensions that is not such a weight has its channels last;
/// other tensors, and all other data, stay as they are.
pub proof fn law_images_have_channels_last(g: GraphView, name: Seq<char>)
    requires
        !conv_weights(g.ops, g.initializers, g.ops.len()).contains(name),
        g.shapes.dom().contains(name),
    ensures
        nhwc_graph(g).shapes.dom().contains(name),
        ({
            let (d, e) = (g.shapes[name].dims, nhwc_graph(g).shapes[name].dims);
            if d.len() == 4 {
                e == seq![d[0], d[2], d[3], d[1]]
            } else {
                e == d
            }
        }),
        nhwc_graph(g).initializers.dom().contains(name) == g.initializers.dom().contains(name),
        g.initializers.dom().contains(name) ==> nhwc_graph(g).initializers[name]
            == g.initializers[name],
        nhwc_graph(g).ops == g.ops,
{
    let names = conv_weights(g.ops, g.initializers, g.ops.len());
    lemma_conv_weights(g.ops, g.initializers, g.ops.len());
    lemma_weights_converted(g, names, names.len(), name);
    assert(names.take(names.len() as int) =~= names);
    lemma_ops_stay(g, names, names.len());
}

proof fn lemma_ops_stay(g: GraphView, names: Seq<Seq<char>>, n: nat)
    ensures
        weights_converted(g, names, n).ops == g.ops,
    decreases n,
{
    if n > 0 {
        lemma_ops_stay(g, names, (n - 1) as nat);
    }
}

// ---------------------------------------------------------------------------
// Transposed Gemm weights
// ---------------------------------------------------------------------------

/// A Gemm weight that is to be transposed.
pub struct RewriteView {
    /// Index of the op.
    pub op: int,
    /// Name of the weight.
    pub weight: Seq<char>,
    /// Rows of the weight as it is stored.
    pub rows: usize,
    /// Columns of the weight as it is stored.
    pub cols: usize,
    /// Element type of the weight.
    pub dtype: Dtype,
}

/// Whether an op is a Gemm with a transposed second operand.
pub open spec fn has_transposed_b(op: OpView) -> bool {
    op.op_type == "Gemm"@ && (op.params matches ParamsView::Gemm { trans_b, .. } && trans_b)
        && op.inputs.len() >= 2
}

/// What is to be done about op `i`, if anything.
pub open spec fn rewrite_of(g: GraphView, i: int) -> Result<Option<RewriteView>, ErrorView> {
    let op = g.ops[i];
    if !has_transposed_b(op) {
        Ok(None)
    } else {
        let weight = op.inputs[1];
        if !g.initializers.dom().contains(weight) {
            Err(
                ErrorView::Compile(
                    "Gemm op `"@ + op.name + "` declares trans_b=true but its weight `"@ + weight
                        + "` is not a constant initializer; runtime transposition is not supported. Pre-transpose the weight or rewrite the model."@,
                ),
            )
        } else if !g.shapes.dom().contains(weight) {
            Err(ErrorView::Compile("shape not found for "@ + weight))
        } else {
            let shape = g.shapes[weight];
            if shape.dims.len() != 2 {
                Err(
                    ErrorView::Compile(
                        "Gemm weight "@ + weight + " must be 2D, got "@ + sizes_text(shape.dims),
                    ),
                )
            } else {
                Ok(
                    Some(
                        RewriteView {
                            op: i,
                            weight,
                            rows: shape.dims[0],
                            cols: shape.dims[1],
                            dtype: shape.dtype,
                        },
                    ),
                )
            }
        }
    }
}

/// What is to be done about the first `n` ops.
pub open spec fn rewrites(g: GraphView, n: nat) -> Result<Seq<RewriteView>, ErrorView>
    decreases n,
{
    if n == 0 {
        Ok(Seq::empty())
    } else {
        match rewrites(g, (n - 1) as nat) {
            Err(e) => Err(e),
            Ok(before) => match rewrite_of(g, n - 1) {
                Err(e) => Err(e),
                Ok(None) => Ok(before),
                Ok(Some(w)) => Ok(before.push(w)),
            },
        }
    }
}

/// The parameters with the second operand no longer transposed.
pub open spec fn untransposed(p: ParamsView) -> ParamsView {
    match p {
        ParamsView::Gemm { alpha, beta, trans_a, .. } => ParamsView::Gemm {
            alpha,
            beta,
            trans_a,
            trans_b: false,
        },
        _ => p,
    }
}

/// The ops with the second operand of one no longer transposed.
pub open spec fn flipped(ops: Seq<OpView>, i: int) -> Seq<OpView> {
    ops.update(i, OpView { params: untransposed(ops[i].params), ..ops[i] })
}

/// The graph after one op has been rewritten, whose weight is `done` if it has
/// been transposed for an op before.
pub open spec fn rewritten(g: GraphView, w: RewriteView, done: bool) -> Result<
    GraphView,
    ErrorView,
> {
    let size = dtype_size(w.dtype);
    if done {
        Ok(GraphView { ops: flipped(g.ops, w.op), ..g })
    } else if !g.initializers.dom().contains(w.weight) {
        Err(ErrorView::Compile("initializer "@ + w.weight + " vanished"@))
    } else if !(w.dtype is F32 || w.dtype is F16) {
        Err(
            ErrorView::Compile(
                "Gemm weight "@ + w.weight + " has unsupported dtype "@ + dtype_name(w.dtype)
                    + " for compile-time transpose"@,
            ),
        )
    } else {
        let data = g.initializers[w.weight];
        if data.len() != (w.rows * w.cols) * size {
            Err(
                ErrorView::Compile(
                    w.weight + ": size "@ + dec(data.len()) + " != "@ + dec(w.rows as nat) + "*"@
                        + dec(w.cols as nat) + "*"@ + dec(size as nat),
                ),
            )
        } else {
            Ok(
                GraphView {
                    ops: flipped(g.ops, w.op),
                    shapes: if g.shapes.dom().contains(w.weight) {
                        g.shapes.insert(
                            w.weight,
                            ShapeView { dims: seq![w.cols, w.rows], ..g.shapes[w.weight] },
                        )
                    } else {
                        g.shapes
                    },
                    initializers: g.initializers.insert(
                        w.weight,
                        transposed_2d(data, w.rows as int, w.cols as int, size as int),
                    ),
                    ..g
                },
            )
        }
    }
}

/// Whether one of the first `n` ops to rewrite has the named weight.
pub open spec fn weighs_before(w: Seq<RewriteView>, name: Seq<char>, n: nat) -> bool {
    exists|j: int| 0 <= j < n && (#[trigger] w[j]).weight == name
}

/// The graph after the first `n` ops have been rewritten, or up to the first
/// that cannot be. Each weight is transposed once.
pub open spec fn all_rewritten(g: GraphView, w: Seq<RewriteView>, n: nat) -> (
    GraphView,
    Option<ErrorView>,
)
    decreases n,
{
    if n == 0 {
        (g, None)
    } else {
        let (h, e) = all_rewritten(g, w, (n - 1) as nat);
        if e is Some {
            (h, e)
        } else {
            match rewritten(h, w[n - 1], weighs_before(w, w[n - 1].weight, (n - 1) as nat)) {
                Ok(k) => (k, None),
                Err(e) => (h, Some(e)),
            }
        }
    }
}

/// The graph with Gemm weights transposed, and what went wrong, if anything.
/// The graph is unchanged if a weight cannot be transposed for its form; if its
/// data is at fault, the ops before it have been rewritten.
pub open spec fn gemm_folded(g: GraphView) -> (GraphView, Option<ErrorView>) {
    match rewrites(g, g.ops.len()) {
        Err(e) => (g, Some(e)),
        Ok(w) => all_rewritten(g, w, w.len()),
    }
}

/// The error of an outcome, if it is one.
pub open spec fn failure(r: Result<(), Error>) -> Option<ErrorView> {
    match r {
        Ok(_) => None,
        Err(e) => Some(e@),
    }
}

struct Rewrite {
    op: usize,
    weight: String,
    rows: usize,
    cols: usize,
    dtype: Dtype,
}

impl View for Rewrite {
    type V = RewriteView;

    closed spec fn view(&self) -> RewriteView {
        RewriteView {
            op: self.op as int,
            weight: self.weight@,
            rows: self.rows,
            cols: self.cols,
            dtype: self.dtype,
        }
    }
}

fn is_transposed_b(op: &CompiledOp) -> (r: bool)
    ensures
        r == has_transposed_b(op@),
{
    let trans_b: bool = match &op.params {
        OpParams::Gemm { trans_b, .. } => *trans_b,
        _ => false,
    };
    str_eq(op.op_type.as_str(), "Gemm") && trans_b && op.inputs.len() >= 2
}

fn check_gemm(graph: &Graph, i: usize) -> (r: Result<Option<Rewrite>, Error>)
    requires
        i < graph@.ops.len(),
    ensures
        match r {
            Ok(Some(w)) => rewrite_of(graph@, i as int) == Ok::<Option<RewriteView>, ErrorView>(
                Some(w@),
            ),
            Ok(None) => rewrite_of(graph@, i as int) == Ok::<Option<RewriteView>, ErrorView>(None),
            Err(e) => rewrite_of(graph@, i as int) == Err::<Option<RewriteView>, ErrorView>(e@),
        },
{
    let op: &CompiledOp = &graph.ops[i];
    assert(graph@.ops[i as int] == op@);
    if !is_transposed_b(op) {
        return Ok(None);
    }
    let weight: &String = &op.inputs[1];
    assert(op@.inputs[1] == weight@);
    if !graph.initializers.contains_key(weight.as_str()) {
        let mut m: String = concat4(
            "Gemm op `",
            op.name.as_str(),
            "` declares trans_b=true but its weight `",
            weight.as_str(),
        );
        m.append(
            "` is not a constant initializer; runtime transposition is not supported. Pre-transpose the weight or rewrite the model.",
        );
        return Err(Error::Compile(m));
    }
    match graph.shapes.get(weight.as_str()) {
        None => Err(Error::Compile(concat2("shape not found for ", weight.as_str()))),
        Some(shape) => {
            if shape.dims.len() != 2 {
                let d: String = list_usize(&shape.dims);
                return Err(
                    Error::Compile(
                        concat4("Gemm weight ", weight.as_str(), " must be 2D, got ", d.as_str()),
                    ),
                );
            }
            Ok(
                Some(
                    Rewrite {
                        op: i,
                        weight: weight.clone(),
                        rows: shape.dims[0],
                        cols: shape.dims[1],
                        dtype: shape.dtype,
                    },
                ),
            )
        },
    }
}

proof fn lemma_rewrites_prefix(g: GraphView, n: nat, m: nat)
    requires
        n <= m,
    ensures
        rewrites(g, n) is Err ==> rewrites(g, m) == rewrites(g, n),
    decreases m,
{
    if n < m {
        lemma_rewrites_prefix(g, n, (m - 1) as nat);
    }
}

/// Every rewrite is of an op that needs it.
proof fn lemma_rewrites_of(g: GraphView, n: nat)
    requires
        rewrites(g, n) is Ok,
        n <= g.ops.len(),
    ensures
        forall|j: int|
            0 <= j < rewrites(g, n)->Ok_0.len() ==> {
                let w = #[trigger] rewrites(g, n)->Ok_0[j];
                0 <= w.op < n && has_transposed_b(g.ops[w.op])
            },
        forall|i: int|
            0 <= i < n && has_transposed_b(#[trigger] g.ops[i]) ==> exists|j: int|
                0 <= j < rewrites(g, n)->Ok_0.len() && (#[trigger] rewrites(g, n)->Ok_0[j]).op == i,
    decreases n,
{
    if n > 0 {
        lemma_rewrites_of(g, (n - 1) as nat);
        let before = rewrites(g, (n - 1) as nat)->Ok_0;
        let all = rewrites(g, n)->Ok_0;
        assert(forall|j: int| 0 <= j < before.len() ==> #[trigger] all[j] == before[j]);
        assert forall|i: int| 0 <= i < n && has_transposed_b(#[trigger] g.ops[i]) implies exists|
            j: int,
        |
            0 <= j < all.len() && (#[trigger] all[j]).op == i by {
            if i < n - 1 {
                let j = choose|j: int| 0 <= j < before.len() && (#[trigger] before[j]).op == i;
                assert(all[j].op == i);
            } else {
                assert(all[before.len() as int].op == i);
            }
        }
    }
}

/// Whether a length is the product of three sizes.
fn is_product(len: usize, a: usize, b: usize, c: usize) -> (r: bool)
    requires
        c > 0,
    ensures
        r == (len == (a * b) * c),
{
    if a == 0 || b == 0 {
        assert((a * b) * c == 0) by (nonlinear_arith)
            requires
                a == 0 || b == 0,
        ;
        return len == 0;
    }
    match a.checked_mul(b) {
        Some(p) => match p.checked_mul(c) {
            Some(q) => len == q,
            None => false,
        },
        None => {
            assert((a * b) * c >= a * b) by (nonlinear_arith)
                requires
                    c > 0,
                    a * b >= 0,
            ;
            false
        },
    }
}

fn flip(graph: &mut Graph, i: usize)
    requires
        i < old(graph)@.ops.len(),
    ensures
        final(graph)@ == (GraphView { ops: flipped(old(graph)@.ops, i as int), ..old(graph)@ }),
{
    let ghost before = graph.ops@;
    let mut op: CompiledOp = graph.ops[i].clone();
    assert(graph@.ops[i as int] == op@);
    op.params = match op.params {
        OpParams::Gemm { alpha, beta, trans_a, .. } => OpParams::Gemm {
            alpha,
            beta,
            trans_a,
            trans_b: false,
        },
        p => p,
    };
    let ghost new = op@;
    graph.ops.set(i, op);
    assert(views(graph.ops@) =~= views(before).update(i as int, new));
}

fn is_done(found: &Vec<Rewrite>, n: usize) -> (r: bool)
    requires
        n < found@.len(),
    ensures
        r == weighs_before(views(found@), found@[n as int]@.weight, n as nat),
{
    let ghost all = views(found@);
    let mut j: usize = 0;
    while j < n
        invariant
            j <= n < found@.len(),
            all == views(found@),
            forall|k: int| 0 <= k < j ==> (#[trigger] all[k]).weight != found@[n as int]@.weight,
        decreases n - j,
    {
        assert(all[j as int] == found@[j as int]@);
        if str_eq(found[j].weight.as_str(), found[n].weight.as_str()) {
            return true;
        }
        j = j + 1;
    }
    false
}

fn rewrite(graph: &mut Graph, w: &Rewrite, done: bool) -> (r: Result<(), Error>)
    requires
        w@.op < old(graph)@.ops.len(),
    ensures
        match rewritten(old(graph)@, w@, done) {
            Ok(g) => r is Ok && final(graph)@ == g,
            Err(e) => failure(r) == Some(e) && final(graph)@ == old(graph)@,
        },
{
    if done {
        flip(graph, w.op);
        return Ok(());
    }
    let name: &str = w.weight.as_str();
    let size: usize = w.dtype.size_bytes();
    let data: Vec<u8> = match graph.initializers.get(name) {
        None => {
            return Err(Error::Compile(concat3("initializer ", name, " vanished")));
        },
        Some(data) => {
            if !w.dtype.is_float() {
                let mut m: String = concat4(
                    "Gemm weight ",
                    name,
                    " has unsupported dtype ",
                    dtype_str(w.dtype),
                );
                m.append(" for compile-time transpose");
                return Err(Error::Compile(m));
            }
            if !is_product(data.len(), w.rows, w.cols, size) {
                let a: String = dec_usize(data.len());
                let b: String = dec_usize(w.rows);
                let c: String = dec_usize(w.cols);
                let d: String = dec_usize(size);
                let mut m: String = concat4(name, ": size ", a.as_str(), " != ");
                m.append(b.as_str());
                m.append("*");
                m.append(c.as_str());
                m.append("*");
                m.append(d.as_str());
                return Err(Error::Compile(m));
            }
            transpose_2d_bytes(data.as_slice(), w.rows, w.cols, size)
        },
    };
    graph.initializers.insert(w.weight.clone(), data);
    let shape: Option<TensorShape> = match graph.shapes.get(name) {
        Some(s) => Some(s.clone()),
        None => None,
    };
    match shape {
        Some(mut s) => {
            let dims: Vec<usize> = vec![w.cols, w.rows];
            assert(dims@ =~= seq![w.cols, w.rows]);
            s.dims = dims;
            graph.shapes.insert(w.weight.clone(), s);
        },
        None => {},
    }
    flip(graph, w.op);
    Ok(())
}

proof fn lemma_rewritten_prefix(g: GraphView, w: Seq<RewriteView>, n: nat, m: nat)
    requires
        n <= m <= w.len(),
        forall|k: int| 0 <= k < w.len() ==> 0 <= (#[trigger] w[k]).op < g.ops.len(),
    ensures
        all_rewritten(g, w, n).1 is Some ==> all_rewritten(g, w, m) == all_rewritten(g, w, n),
        all_rewritten(g, w, n).0.ops.len() == g.ops.len(),
    decreases m,
{
    if n < m {
        lemma_rewritten_prefix(g, w, n, (m - 1) as nat);
    } else if n > 0 {
        lemma_rewritten_prefix(g, w, (n - 1) as nat, (m - 1) as nat);
    }
}

/// Pre-transpose Gemm weights so that `trans_b` becomes `false` at runtime.
///
/// Every Gemm whose second operand is declared transposed gets its weight
/// transposed from `[N, K]` to `[K, N]`, data and shape, and the declaration is
/// dropped. `trans_a` is left alone. A weight that several of them share is
/// transposed once; an op that reads it otherwise then reads it transposed.
pub fn fold_gemm_transpose(graph: &mut Graph) -> (r: Result<(), Error>)
    ensures
        (final(graph)@, failure(r)) == gemm_folded(old(graph)@),
{
    let ghost g = graph@;
    let mut found: Vec<Rewrite> = Vec::new();
    let mut i: usize = 0;
    assert(views(found@) =~= Seq::empty());
    while i < graph.ops.len()
        invariant
            i <= graph.ops@.len(),
            g == graph@,
            rewrites(g, i as nat) == Ok::<Seq<RewriteView>, ErrorView>(views(found@)),
        decreases graph.ops@.len() - i,
    {
        broadcast use lemma_views_push;

        proof {
            lemma_rewrites_prefix(g, (i + 1) as nat, g.ops.len());
        }
        match check_gemm(graph, i) {
            Ok(Some(w)) => {
                found.push(w);
            },
            Ok(None) => {},
            Err(e) => {
                return Err(e);
            },
        }
        i = i + 1;
    }
    proof {
        lemma_rewrites_of(g, g.ops.len());
    }
    let mut j: usize = 0;
    while j < found.len()
        invariant
            j <= found@.len(),
            g == old(graph)@,
            rewrites(g, g.ops.len()) == Ok::<Seq<RewriteView>, ErrorView>(views(found@)),
            forall|k: int|
                0 <= k < rewrites(g, g.ops.len())->Ok_0.len() ==> {
                    let w = #[trigger] rewrites(g, g.ops.len())->Ok_0[k];
                    0 <= w.op < g.ops.len() && has_transposed_b(g.ops[w.op])
                },
            all_rewritten(g, views(found@), j as nat) == (graph@, None::<ErrorView>),
        decreases found@.len() - j,
    {
        proof {
            lemma_rewritten_prefix(g, views(found@), j as nat, j as nat);
            lemma_rewritten_prefix(g, views(found@), (j + 1) as nat, found@.len());
            assert(views(found@)[j as int] == found@[j as int]@);
            assert(rewrites(g, g.ops.len())->Ok_0[j as int] == found@[j as int]@);
        }
        let done: bool = is_done(&found, j);
        match rewrite(graph, &found[j], done) {
            Ok(_) => {},
            Err(e) => {
                return Err(e);
            },
        }
        j = j + 1;
    }
    Ok(())
}

/// Where no Gemm declares a transposed second operand, the graph is unchanged.
pub proof fn law_nothing_to_transpose(g: GraphView)
    requires
        forall|i: int| 0 <= i < g.ops.len() ==> !has_transposed_b(#[trigger] g.ops[i]),
    ensures
        gemm_folded(g) == (g, None::<ErrorView>),
{
    lemma_no_rewrites(g, g.ops.len());
}

proof fn lemma_no_rewrites(g: GraphView, n: nat)
    requires
        n <= g.ops.len(),
        forall|i: int| 0 <= i < g.ops.len() ==> !has_transposed_b(#[trigger] g.ops[i]),
    ensures
        rewrites(g, n) == Ok::<Seq<RewriteView>, ErrorView>(Seq::empty()),
    decreases n,
{
    if n > 0 {
        lemma_no_rewrites(g, (n - 1) as nat);
        assert(!has_transposed_b(g.ops[n - 1]));
    }
}

/// Afterwards no Gemm declares a transposed second operand, and the graph has
/// the same ops in the same order apart from that declaration.
pub proof fn law_no_transpose_left(g: GraphView)
    requires
        gemm_folded(g).1 is None,
    ensures
        gemm_folded(g).0.ops.len() == g.ops.len(),
        forall|i: int|
            0 <= i < g.ops.len() ==> {
                let op = #[trigger] gemm_folded(g).0.ops[i];
                !has_transposed_b(op) && (op == g.ops[i] || op == OpView {
                    params: untransposed(g.ops[i].params),
                    ..g.ops[i]
                })
            },
{
    let w = rewrites(g, g.ops.len())->Ok_0;
    lemma_rewrites_of(g, g.ops.len());
    lemma_flipped(g, w, w.len());
    let h = gemm_folded(g).0;
    assert forall|i: int| 0 <= i < g.ops.len() implies {
        let op = #[trigger] h.ops[i];
        !has_transposed_b(op) && (op == g.ops[i] || op == OpView {
            params: untransposed(g.ops[i].params),
            ..g.ops[i]
        })
    } by {
        if has_transposed_b(g.ops[i]) {
            let j = choose|j: int| 0 <= j < w.len() && (#[trigger] w[j]).op == i;
            assert(w[j].op == i);
        }
    }
}

proof fn lemma_flipped(g: GraphView, w: Seq<RewriteView>, n: nat)
    requires
        n <= w.len(),
        forall|k: int| 0 <= k < w.len() ==> 0 <= (#[trigger] w[k]).op < g.ops.len(),
        all_rewritten(g, w, n).1 is None,
    ensures
        all_rewritten(g, w, n).0.ops.len() == g.ops.len(),
        forall|i: int|
            0 <= i < g.ops.len() ==> {
                let op = #[trigger] all_rewritten(g, w, n).0.ops[i];
                op == g.ops[i] || op == OpView {
                    params: untransposed(g.ops[i].params),
                    ..g.ops[i]
                }
            },
        forall|j: int|
            0 <= j < n ==> all_rewritten(g, w, n).0.ops[(#[trigger] w[j]).op] == (OpView {
                params: untransposed(g.ops[w[j].op].params),
                ..g.ops[w[j].op]
            }),
    decreases n,
{
    if n > 0 {
        lemma_flipped(g, w, (n - 1) as nat);
        let before = all_rewritten(g, w, (n - 1) as nat).0;
        let after = all_rewritten(g, w, n).0;
        let at = w[n - 1].op;
        assert(forall|i: int| 0 <= i < g.ops.len() && i != at ==> #[trigger] after.ops[i] == before.ops[i]);
        assert(before.ops[at] == g.ops[at] || before.ops[at] == OpView {
            params: untransposed(g.ops[at].params),
            ..g.ops[at]
        });
        assert(untransposed(untransposed(g.ops[at].params)) == untransposed(g.ops[at].params));
    }
}

/// The weights and shapes after the first `n` ops to rewrite: each of their
/// weights is transposed once, and all else is as it was.
proof fn lemma_transposed_once(g: GraphView, w: Seq<RewriteView>, n: nat, k: Seq<char>)
    requires
        n <= w.len(),
        all_rewritten(g, w, n).1 is None,
        forall|j: int|
            0 <= j < w.len() ==> {
                let x = #[trigger] w[j];
                &&& g.initializers.dom().contains(x.weight)
                &&& g.shapes.dom().contains(x.weight)
                &&& g.shapes[x.weight].dims == seq![x.rows, x.cols]
                &&& g.shapes[x.weight].dtype == x.dtype
            },
    ensures
        ({
            let h = all_rewritten(g, w, n).0;
            &&& h.shapes.dom() == g.shapes.dom()
            &&& h.initializers.dom() == g.initializers.dom()
            &&& if weighs_before(w, k, n) {
                let s = g.shapes[k];
                &&& h.shapes[k] == (ShapeView { dims: seq![s.dims[1], s.dims[0]], ..s })
                &&& h.initializers[k] == transposed_2d(
                    g.initializers[k],
                    s.dims[0] as int,
                    s.dims[1] as int,
                    dtype_size(s.dtype) as int,
                )
            } else {
                &&& h.shapes.dom().contains(k) ==> h.shapes[k] == g.shapes[k]
                &&& h.initializers.dom().contains(k) ==> h.initializers[k] == g.initializers[k]
            }
        }),
    decreases n,
{
    if n > 0 {
        lemma_transposed_once(g, w, (n - 1) as nat, k);
        let x = w[n - 1];
        let h = all_rewritten(g, w, n).0;
        if weighs_before(w, k, n) {
            let j = choose|j: int| 0 <= j < n && (#[trigger] w[j]).weight == k;
            if j < n - 1 {
                assert(weighs_before(w, k, (n - 1) as nat));
            }
        }
        if weighs_before(w, k, (n - 1) as nat) {
            let j = choose|j: int| 0 <= j < n - 1 && (#[trigger] w[j]).weight == k;
            assert(w[j].weight == k);
            assert(weighs_before(w, k, n));
        }
        if x.weight == k {
            assert(weighs_before(w, k, n));
        }
        assert(h.shapes.dom() =~= g.shapes.dom());
        assert(h.initializers.dom() =~= g.initializers.dom());
    }
}

proof fn lemma_rewrites_weigh(g: GraphView, n: nat)
    requires
        rewrites(g, n) is Ok,
        n <= g.ops.len(),
    ensures
        forall|j: int|
            0 <= j < rewrites(g, n)->Ok_0.len() ==> {
                let x = #[trigger] rewrites(g, n)->Ok_0[j];
                &&& 0 <= x.op < n
                &&& has_transposed_b(g.ops[x.op])
                &&& x.weight == g.ops[x.op].inputs[1]
                &&& g.initializers.dom().contains(x.weight)
                &&& g.shapes.dom().contains(x.weight)
                &&& g.shapes[x.weight].dims == seq![x.rows, x.cols]
                &&& g.shapes[x.weight].dtype == x.dtype
            },
    decreases n,
{
    if n > 0 {
        lemma_rewrites_weigh(g, (n - 1) as nat);
    }
}

/// A weight is transposed once, however many products share it; every other
/// tensor keeps its data and its shape.
pub proof fn law_weights_transposed_once(g: GraphView, name: Seq<char>)
    requires
        gemm_folded(g).1 is None,
    ensures
        ({
            let h = gemm_folded(g).0;
            &&& h.shapes.dom() == g.shapes.dom()
            &&& h.initializers.dom() == g.initializers.dom()
            &&& if exists|i: int|
                0 <= i < g.ops.len() && has_transposed_b(#[trigger] g.ops[i]) && g.ops[i].inputs[1]
                    == name {
                let s = g.shapes[name];
                &&& h.shapes[name] == (ShapeView { dims: seq![s.dims[1], s.dims[0]], ..s })
                &&& h.initializers[name] == transposed_2d(
                    g.initializers[name],
                    s.dims[0] as int,
                    s.dims[1] as int,
                    dtype_size(s.dtype) as int,
                )
            } else {
                &&& h.shapes.dom().contains(name) ==> h.shapes[name] == g.shapes[name]
                &&& h.initializers.dom().contains(name) ==> h.initializers[name]
                    == g.initializers[name]
            }
        }),
{
    let w = rewrites(g, g.ops.len())->Ok_0;
    lemma_rewrites_of(g, g.ops.len());
    lemma_rewrites_weigh(g, g.ops.len());
    lemma_transposed_once(g, w, w.len(), name);
    if exists|i: int|
        0 <= i < g.ops.len() && has_transposed_b(#[trigger] g.ops[i]) && g.ops[i].inputs[1] == name {
        let i = choose|i: int|
            0 <= i < g.ops.len() && has_transposed_b(#[trigger] g.ops[i]) && g.ops[i].inputs[1]
                == name;
        let j = choose|j: int| 0 <= j < w.len() && (#[trigger] w[j]).op == i;
        assert(w[j].weight == name);
        assert(weighs_before(w, name, w.len()));
    } else if weighs_before(w, name, w.len()) {
        let j = choose|j: int| 0 <= j < w.len() && (#[trigger] w[j]).weight == name;
        assert(has_transposed_b(g.ops[w[j].op]));
    }
}

proof fn lemma_transposed_word(data: Seq<u8>, n: int, k: int, l: int, j: int)
    requires
        0 <= l < k,
        0 <= j < n,
        data.len() == (n * k) * 4,
    ensures
        0 <= l * n + j < n * k,
        0 <= j * k + l < n * k,
        words32(transposed_2d(data, n, k, 4))[l * n + j] == words32(data)[j * k + l],
{
    let out = transposed_2d(data, n, k, 4);
    lemma_transposed_2d(data, n, k, 4);
    lemma_matrix_place(l, j, 0, k, n, 4);
    lemma_matrix_place(j, l, 0, n, k, 4);
    assert(k * n == n * k) by (nonlinear_arith);
    let a = l * n + j;
    let b = j * k + l;
    assert(matrix_place(l, j, 0, n, 4) == 4 * a && matrix_place(j, l, 0, k, 4) == 4 * b);
    assert(matrix_place(l, j, 1, n, 4) == 4 * a + 1 && matrix_place(j, l, 1, k, 4) == 4 * b + 1);
    assert(matrix_place(l, j, 2, n, 4) == 4 * a + 2 && matrix_place(j, l, 2, k, 4) == 4 * b + 2);
    assert(matrix_place(l, j, 3, n, 4) == 4 * a + 3 && matrix_place(j, l, 3, k, 4) == 4 * b + 3);
    reveal_with_fuel(little_endian, 5);
}

proof fn lemma_same_dot(p: Product, q: Product, a: Seq<u32>, data: Seq<u8>, i: int, j: int, l: nat)
    requires
        p.trans_b,
        q == (Product { trans_b: false, ..p }),
        0 <= j < p.n,
        l <= p.k,
        data.len() == (p.n * p.k) * 4,
    ensures
        dot(p, a, words32(data), i, j, l) == dot(
            q,
            a,
            words32(transposed_2d(data, p.n, p.k, 4)),
            i,
            j,
            l,
        ),
    decreases l,
{
    if l > 0 {
        lemma_same_dot(p, q, a, data, i, j, (l - 1) as nat);
        lemma_transposed_word(data, p.n, p.k, l - 1, j);
    }
}

/// Transposing a weight of singles changes no product: with the weight as it was
/// stored, transposed, it is, number by number, that with the new weight as it stands.
pub proof fn law_transposing_keeps_the_product(p: Product, a: Seq<u32>, data: Seq<u8>)
    requires
        p.trans_b,
        p.m >= 0,
        p.n >= 0,
        p.k >= 0,
        data.len() == (p.n * p.k) * 4,
    ensures
        matrix_product(p, a, words32(data)) == matrix_product(
            Product { trans_b: false, ..p },
            a,
            words32(transposed_2d(data, p.n, p.k, 4)),
        ),
{
    let q = Product { trans_b: false, ..p };
    let x = matrix_product(p, a, words32(data));
    let y = matrix_product(q, a, words32(transposed_2d(data, p.n, p.k, 4)));
    assert(p.m * p.n >= 0) by (nonlinear_arith)
        requires
            p.m >= 0,
            p.n >= 0,
    ;
    assert forall|o: int| 0 <= o < p.m * p.n implies x[o] == #[trigger] y[o] by {
        lemma_row(o, p.m, p.n);
        lemma_same_dot(p, q, a, data, o / p.n, o % p.n, p.k as nat);
    }
    assert(x =~= y);
}

} // verus!
