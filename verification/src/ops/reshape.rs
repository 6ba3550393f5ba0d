//! Ops that change dimensions: Reshape, Flatten, Unsqueeze and Transpose.

use vstd::prelude::*;
use vstd::string::*;
use crate::builder::{BuildContext, CompiledOp, ContextView, OpParams, OpView, ParamsView};
use crate::error::{outcome, Error, ErrorView};
use crate::model::{copy_names, copy_vec, signed64, to_signed64, views, NodeView, OnnxNode};
use crate::ops::common::{
    axis_out_of_range, build_outcome, err_axis_out_of_range, err_size_overflow, err_too_few_inputs,
    find_shape, finish, finished, first_input, found_shape, invalid, size_overflow, sizes,
    to_sizes, too_few_inputs,
};
use crate::tensor::{
    checked_numel, numel, plain_shape, products_fit, ShapeView, TensorShape,
};

verus! {

// ---------------------------------------------------------------------------
// Reshape
// ---------------------------------------------------------------------------

/// The first `n` target dimensions, and where the one to be inferred stands.
/// A target of 0 copies the input's dimension; -1 is put down as 0 and may
/// occur once.
pub open spec fn reshape_scan(target: Seq<i64>, input: Seq<usize>, n: nat) -> Result<
    (Seq<usize>, Option<int>),
    ErrorView,
>
    decreases n,
{
    if n == 0 {
        Ok((Seq::empty(), None))
    } else {
        let i = n - 1;
        match reshape_scan(target, input, i as nat) {
            Err(e) => Err(e),
            Ok((dims, infer)) => if target[i] == -1 {
                if infer is Some {
                    Err(ErrorView::Validation("Reshape: only one dimension can be -1"@))
                } else {
                    Ok((dims.push(0), Some(i)))
                }
            } else if target[i] == 0 {
                if i < input.len() {
                    Ok((dims.push(input[i]), infer))
                } else {
                    Err(ErrorView::Validation("Reshape: 0 dimension out of bounds"@))
                }
            } else {
                Ok((dims.push(target[i] as usize), infer))
            },
        }
    }
}

/// The dimensions other than 0.
pub open spec fn nonzero(dims: Seq<usize>) -> Seq<usize> {
    dims.filter(|d: usize| d != 0)
}

/// The dimensions that a tensor takes when it is reshaped.
pub open spec fn reshaped(target: Seq<i64>, input: Seq<usize>) -> Result<Seq<usize>, ErrorView> {
    if !products_fit(input) {
        Err(size_overflow())
    } else {
        match reshape_scan(target, input, target.len()) {
            Err(e) => Err(e),
            Ok((dims, None)) => Ok(dims),
            Ok((dims, Some(at))) => if !products_fit(nonzero(dims)) {
                Err(size_overflow())
            } else if numel(nonzero(dims)) == 0 || numel(input) % numel(nonzero(dims)) != 0 {
                Err(ErrorView::Validation("Reshape: cannot infer dimension"@))
            } else {
                Ok(dims.update(at, (numel(input) / numel(nonzero(dims))) as usize))
            },
        }
    }
}

proof fn lemma_scan_prefix(target: Seq<i64>, input: Seq<usize>, n: nat, m: nat)
    requires
        n <= m,
    ensures
        reshape_scan(target, input, n) is Err ==> reshape_scan(target, input, m)
            == reshape_scan(target, input, n),
    decreases m,
{
    if n < m {
        lemma_scan_prefix(target, input, n, (m - 1) as nat);
    }
}

proof fn lemma_scan_shape(target: Seq<i64>, input: Seq<usize>, n: nat)
    ensures
        match reshape_scan(target, input, n) {
            Ok((dims, infer)) => dims.len() == n && (infer matches Some(at) ==> 0 <= at < n),
            Err(_) => true,
        },
    decreases n,
{
    if n > 0 {
        lemma_scan_shape(target, input, (n - 1) as nat);
    }
}

fn keep_nonzero(dims: &Vec<usize>) -> (r: Vec<usize>)
    ensures
        r@ == nonzero(dims@),
{
    let mut r: Vec<usize> = Vec::new();
    let mut i: usize = 0;
    assert(dims@.take(0) =~= Seq::empty());
    proof {
        reveal(Seq::filter);
    }
    assert(nonzero(dims@.take(0)) =~= Seq::empty());
    while i < dims.len()
        invariant
            i <= dims@.len(),
            r@ == nonzero(dims@.take(i as int)),
        decreases dims@.len() - i,
    {
        proof {
            reveal(Seq::filter);
            assert(dims@.take(i + 1).drop_last() =~= dims@.take(i as int));
        }
        if dims[i] != 0 {
            r.push(dims[i]);
        }
        i = i + 1;
    }
    assert(dims@.take(i as int) =~= dims@);
    r
}

/// The dimensions that a tensor takes when it is reshaped.
pub fn reshape_dims(target: &Vec<i64>, input: &Vec<usize>) -> (r: Result<Vec<usize>, Error>)
    ensures
        outcome(r) == reshaped(target@, input@),
{
    let input_numel: usize = match checked_numel(input.as_slice()) {
        Some(n) => n,
        None => {
            return Err(err_size_overflow());
        },
    };
    let mut dims: Vec<usize> = Vec::new();
    let mut infer: Option<usize> = None;
    let mut i: usize = 0;
    while i < target.len()
        invariant
            i <= target@.len(),
            products_fit(input@),
            reshape_scan(target@, input@, i as nat) == Ok::<(Seq<usize>, Option<int>), ErrorView>(
                (
                    dims@,
                    match infer {
                        Some(at) => Some(at as int),
                        None => None,
                    },
                ),
            ),
        decreases target@.len() - i,
    {
        let d: i64 = target[i];
        proof {
            lemma_scan_prefix(target@, input@, (i + 1) as nat, target@.len());
        }
        if d == -1 {
            if infer.is_some() {
                return Err(invalid("Reshape: only one dimension can be -1"));
            }
            infer = Some(i);
            dims.push(0);
        } else if d == 0 {
            if i < input.len() {
                dims.push(input[i]);
            } else {
                return Err(invalid("Reshape: 0 dimension out of bounds"));
            }
        } else {
            dims.push(d as usize);
        }
        i = i + 1;
    }
    match infer {
        None => Ok(dims),
        Some(at) => {
            let known: Vec<usize> = keep_nonzero(&dims);
            let product: usize = match checked_numel(known.as_slice()) {
                Some(n) => n,
                None => {
                    return Err(err_size_overflow());
                },
            };
            if product == 0 || input_numel % product != 0 {
                return Err(invalid("Reshape: cannot infer dimension"));
            }
            proof {
                lemma_scan_shape(target@, input@, target@.len());
            }
            dims.set(at, input_numel / product);
            Ok(dims)
        },
    }
}

/// The output shape of Reshape.
pub open spec fn reshape_shape(node: NodeView, ctx: ContextView) -> Result<ShapeView, ErrorView> {
    match found_shape(node, ctx, 0, "input "@) {
        Err(e) => Err(e),
        Ok(x) => if node.inputs.len() < 2 {
            Err(too_few_inputs())
        } else {
            match ctx.constant_data(node.inputs[1]) {
                None => Err(ErrorView::Validation("Reshape shape not found"@)),
                Some(data) => match reshaped(signed64(data), x.dims) {
                    Err(e) => Err(e),
                    Ok(d) => Ok(plain_shape(d, ctx.dtype)),
                },
            }
        },
    }
}

/// The output shape of Reshape.
pub fn validate_reshape(node: &OnnxNode, ctx: &BuildContext<'_>) -> (r: Result<TensorShape, Error>)
    ensures
        outcome(r) == reshape_shape(node@, ctx@),
{
    let x: &TensorShape = match find_shape(node, ctx, 0, "input ") {
        Ok(s) => s,
        Err(e) => {
            return Err(e);
        },
    };
    if node.inputs.len() < 2 {
        return Err(err_too_few_inputs());
    }
    assert(node@.inputs[1] == node.inputs@[1]@);
    match ctx.get_constant_data(node.inputs[1].as_str()) {
        None => Err(invalid("Reshape shape not found")),
        Some(data) => {
            let target: Vec<i64> = to_signed64(data);
            match reshape_dims(&target, &x.dims) {
                Ok(d) => Ok(TensorShape::new(d, ctx.dtype)),
                Err(e) => Err(e),
            }
        },
    }
}

/// The compiled form of an op that only gives its data a new shape.
pub open spec fn reshaping_build(
    node: NodeView,
    ctx: ContextView,
    shape: Result<ShapeView, ErrorView>,
    op_type: Seq<char>,
    inputs: Seq<Seq<char>>,
) -> Result<(OpView, ContextView), ErrorView> {
    finished(
        node,
        ctx,
        shape,
        op_type,
        inputs,
        ParamsView::Reshape { shape: shape->Ok_0.dims },
    )
}

/// Build a Reshape: only the data input is kept.
pub fn build_reshape(node: &OnnxNode, ctx: &mut BuildContext<'_>) -> (r: Result<CompiledOp, Error>)
    ensures
        build_outcome(r, final(ctx)@) == reshaping_build(
            node@,
            old(ctx)@,
            reshape_shape(node@, old(ctx)@),
            "Reshape"@,
            seq![node@.inputs[0]],
        ),
        r is Err ==> final(ctx)@ == old(ctx)@,
{
    match validate_reshape(node, ctx) {
        Ok(shape) => {
            let dims: Vec<usize> = copy_vec(&shape.dims);
            finish(node, ctx, shape, "Reshape", first_input(node), OpParams::Reshape { shape: dims })
        },
        Err(e) => Err(e),
    }
}

/// Where a dimension is inferred, the input and the output have the same
/// number of elements, unless a dimension other than the inferred one is 0.
pub proof fn law_reshape_keeps_elements(target: Seq<i64>, input: Seq<usize>)
    requires
        reshaped(target, input) is Ok,
        exists|i: int| 0 <= i < target.len() && #[trigger] target[i] == -1,
        forall|i: int| 0 <= i < target.len() && target[i] == 0 ==> #[trigger] input[i] != 0,
        forall|i: int| 0 <= i < target.len() && target[i] != 0 ==> #[trigger] target[i] as usize != 0,
    ensures
        numel(reshaped(target, input)->Ok_0) == numel(input),
{
    let (dims, infer) = reshape_scan(target, input, target.len())->Ok_0;
    lemma_scan_entries(target, input, target.len());
    let i = choose|i: int| 0 <= i < target.len() && #[trigger] target[i] == -1;
    assert(entry_of(target, input, infer, i, dims[i]));
    let at = infer->0;
    assert forall|k: int| 0 <= k < dims.len() && k != at implies #[trigger] dims[k] != 0 by {
        assert(entry_of(target, input, infer, k, dims[k]));
        assert(target[k] == 0 ==> input[k] != 0);
    }
    let known = numel(nonzero(dims));
    let q = numel(input) / known;
    lemma_nonzero_but_one(dims, at);
    assert(numel(input) == q * known) by (nonlinear_arith)
        requires
            q == numel(input) / known,
            numel(input) % known == 0,
            known > 0,
    ;
    assert(q <= numel(input)) by (nonlinear_arith)
        requires
            numel(input) == q * known,
            known >= 1,
    ;
    assert(input.take(input.len() as int) =~= input);
    assert(numel(input) <= usize::MAX);
    lemma_numel_update(dims, at, q as usize);
    assert(dims.update(at, 1usize).update(at, q as usize) =~= dims.update(at, q as usize));
}

/// What the entries put down by a scan are.
spec fn entries_of(
    target: Seq<i64>,
    input: Seq<usize>,
    dims: Seq<usize>,
    infer: Option<int>,
    n: nat,
) -> bool {
    &&& dims.len() == n
    &&& forall|i: int| 0 <= i < n ==> entry_of(target, input, infer, i, #[trigger] dims[i])
    &&& infer matches Some(at) ==> 0 <= at < n && target[at] == -1
}

spec fn entry_of(target: Seq<i64>, input: Seq<usize>, infer: Option<int>, i: int, d: usize) -> bool {
    if target[i] == -1 {
        d == 0 && infer == Some(i)
    } else if target[i] == 0 {
        d == input[i]
    } else {
        d == target[i] as usize
    }
}

proof fn lemma_scan_entries(target: Seq<i64>, input: Seq<usize>, n: nat)
    requires
        n <= target.len(),
        reshape_scan(target, input, n) is Ok,
    ensures
        entries_of(
            target,
            input,
            reshape_scan(target, input, n)->Ok_0.0,
            reshape_scan(target, input, n)->Ok_0.1,
            n,
        ),
    decreases n,
{
    if n > 0 {
        lemma_scan_entries(target, input, (n - 1) as nat);
        let (before, earlier) = reshape_scan(target, input, (n - 1) as nat)->Ok_0;
        let (dims, infer) = reshape_scan(target, input, n)->Ok_0;
        assert forall|i: int| 0 <= i < n implies entry_of(
            target,
            input,
            infer,
            i,
            #[trigger] dims[i],
        ) by {
            if i < n - 1 {
                assert(dims[i] == before[i]);
                assert(entry_of(target, input, earlier, i, before[i]));
            }
        }
    }
}

/// With a single 0, dropping it leaves the product of the others.
proof fn lemma_nonzero_but_one(dims: Seq<usize>, at: int)
    requires
        0 <= at < dims.len(),
        dims[at] == 0,
        forall|i: int| 0 <= i < dims.len() && i != at ==> #[trigger] dims[i] != 0,
    ensures
        numel(nonzero(dims)) == numel(dims.update(at, 1)),
    decreases dims.len(),
{
    reveal(Seq::filter);
    let rest = dims.drop_last();
    let last = dims.len() - 1;
    if at == last {
        lemma_all_nonzero(rest);
        assert(dims.update(at, 1usize).drop_last() =~= rest);
    } else {
        lemma_nonzero_but_one(rest, at);
        assert(dims.update(at, 1usize).drop_last() =~= rest.update(at, 1usize));
        assert(nonzero(dims) == nonzero(rest).push(dims[last]));
        assert(nonzero(rest).push(dims[last]).drop_last() =~= nonzero(rest));
    }
}

proof fn lemma_all_nonzero(dims: Seq<usize>)
    requires
        forall|i: int| 0 <= i < dims.len() ==> #[trigger] dims[i] != 0,
    ensures
        nonzero(dims) == dims,
    decreases dims.len(),
{
    reveal(Seq::filter);
    if dims.len() > 0 {
        lemma_all_nonzero(dims.drop_last());
        assert(dims.drop_last().push(dims.last()) =~= dims);
    } else {
        assert(nonzero(dims) =~= dims);
    }
}

/// Replacing a dimension of 1 by `q` multiplies the product by `q`.
proof fn lemma_numel_update(dims: Seq<usize>, at: int, q: usize)
    requires
        0 <= at < dims.len(),
    ensures
        numel(dims.update(at, q)) == q * numel(dims.update(at, 1)),
    decreases dims.len(),
{
    let last = dims.len() - 1;
    let one = dims.update(at, 1usize);
    let new = dims.update(at, q);
    if at == last {
        assert(one.drop_last() =~= new.drop_last());
        assert(numel(new.drop_last()) * (q as nat) == q * (numel(one.drop_last()) * 1))
            by (nonlinear_arith)
            requires
                numel(new.drop_last()) == numel(one.drop_last()),
        ;
    } else {
        lemma_numel_update(dims.drop_last(), at, q);
        assert(one.drop_last() =~= dims.drop_last().update(at, 1usize));
        assert(new.drop_last() =~= dims.drop_last().update(at, q));
        let p = numel(one.drop_last());
        let d = dims[last] as nat;
        assert((q * p) * d == q * (p * d)) by (nonlinear_arith);
    }
}

// ---------------------------------------------------------------------------
// Flatten
// ---------------------------------------------------------------------------

/// The dimensions of a flattened tensor: the products before and from the axis on.
pub open spec fn flattened(dims: Seq<usize>, axis: usize) -> Result<Seq<usize>, ErrorView> {
    if axis > dims.len() {
        Err(axis_out_of_range())
    } else {
        let before = dims.take(axis as int);
        let after = dims.skip(axis as int);
        if !products_fit(before) || !products_fit(after) {
            Err(size_overflow())
        } else {
            Ok(seq![numel(before) as usize, numel(after) as usize])
        }
    }
}

/// The output shape of Flatten.
pub open spec fn flatten_shape(node: NodeView, ctx: ContextView) -> Result<ShapeView, ErrorView> {
    match found_shape(node, ctx, 0, "input "@) {
        Err(e) => Err(e),
        Ok(x) => match flattened(x.dims, node.attr_int("axis"@, 1) as usize) {
            Err(e) => Err(e),
            Ok(d) => Ok(plain_shape(d, ctx.dtype)),
        },
    }
}

/// The output shape of Flatten.
pub fn validate_flatten(node: &OnnxNode, ctx: &BuildContext<'_>) -> (r: Result<TensorShape, Error>)
    ensures
        outcome(r) == flatten_shape(node@, ctx@),
{
    let x: &TensorShape = match find_shape(node, ctx, 0, "input ") {
        Ok(s) => s,
        Err(e) => {
            return Err(e);
        },
    };
    let axis: usize = node.get_attr_int("axis", 1) as usize;
    if axis > x.dims.len() {
        return Err(err_axis_out_of_range());
    }
    let before: &[usize] = vstd::slice::slice_subrange(x.dims.as_slice(), 0, axis);
    let after: &[usize] = vstd::slice::slice_subrange(x.dims.as_slice(), axis, x.dims.len());
    assert(before@ =~= x.dims@.take(axis as int));
    assert(after@ =~= x.dims@.skip(axis as int));
    match (checked_numel(before), checked_numel(after)) {
        (Some(a), Some(b)) => {
            let dims: Vec<usize> = vec![a, b];
            assert(dims@ =~= seq![a, b]);
            Ok(TensorShape::new(dims, ctx.dtype))
        },
        _ => Err(err_size_overflow()),
    }
}

/// Build a Flatten.
pub fn build_flatten(node: &OnnxNode, ctx: &mut BuildContext<'_>) -> (r: Result<CompiledOp, Error>)
    ensures
        build_outcome(r, final(ctx)@) == reshaping_build(
            node@,
            old(ctx)@,
            flatten_shape(node@, old(ctx)@),
            "Flatten"@,
            node@.inputs,
        ),
        r is Err ==> final(ctx)@ == old(ctx)@,
{
    match validate_flatten(node, ctx) {
        Ok(shape) => {
            let dims: Vec<usize> = copy_vec(&shape.dims);
            let inputs: Vec<String> = copy_names(&node.inputs);
            finish(node, ctx, shape, "Flatten", inputs, OpParams::Reshape { shape: dims })
        },
        Err(e) => Err(e),
    }
}

/// Products of leading and of remaining dimensions multiply to the whole.
pub proof fn lemma_numel_split(dims: Seq<usize>, k: int)
    requires
        0 <= k <= dims.len(),
    ensures
        numel(dims) == numel(dims.take(k)) * numel(dims.skip(k)),
    decreases dims.len(),
{
    if k == dims.len() {
        assert(dims.take(k) =~= dims);
        assert(dims.skip(k) =~= Seq::empty());
        assert(numel(dims) == numel(dims) * 1) by (nonlinear_arith);
    } else {
        let rest = dims.drop_last();
        lemma_numel_split(rest, k);
        assert(rest.take(k) =~= dims.take(k));
        assert(rest.skip(k) =~= dims.skip(k).drop_last());
        assert(dims.skip(k).last() == dims.last());
        let a = numel(rest.take(k));
        let b = numel(rest.skip(k));
        let c = dims.last() as nat;
        assert((a * b) * c == a * (b * c)) by (nonlinear_arith);
    }
}

/// Flattening keeps the number of elements.
pub proof fn law_flatten_keeps_elements(dims: Seq<usize>, axis: usize)
    requires
        flattened(dims, axis) is Ok,
    ensures
        numel(flattened(dims, axis)->Ok_0) == numel(dims),
{
    lemma_numel_split(dims, axis as int);
    let before = dims.take(axis as int);
    let after = dims.skip(axis as int);
    assert(before.take(before.len() as int) =~= before);
    assert(after.take(after.len() as int) =~= after);
    let a = numel(before) as usize;
    let b = numel(after) as usize;
    let d = seq![a, b];
    assert(d.drop_last() =~= seq![a]);
    assert(seq![a].drop_last() =~= Seq::<usize>::empty());
    let e = numel(Seq::<usize>::empty());
    assert(e == 1);
    assert(numel(seq![a]) == e * (a as nat));
    assert(e * (a as nat) == a) by (nonlinear_arith)
        requires
            e == 1,
    ;
    assert(numel(d) == numel(seq![a]) * (b as nat));
}

// ---------------------------------------------------------------------------
// Unsqueeze
// ---------------------------------------------------------------------------

/// Axes counted from the end where they are negative.
pub open spec fn axes_from_start(axes: Seq<i64>, rank: nat) -> Seq<int> {
    axes.map_values(|a: i64| if a < 0 { a + rank } else { a as int })
}

/// Dimensions with a 1 put in at each of the first `n` axes in turn; an axis
/// past the end is left out.
pub open spec fn with_ones(dims: Seq<usize>, axes: Seq<int>, n: nat) -> Seq<usize>
    decreases n,
{
    if n == 0 {
        dims
    } else {
        let before = with_ones(dims, axes, (n - 1) as nat);
        let at = axes[n - 1] as usize;
        if at <= before.len() {
            before.insert(at as int, 1)
        } else {
            before
        }
    }
}

/// The dimensions of an unsqueezed tensor: a 1 at each axis, lowest first.
pub open spec fn unsqueezed(dims: Seq<usize>, axes: Seq<i64>) -> Seq<usize> {
    let sorted = axes_from_start(axes, dims.len() + axes.len()).sort();
    with_ones(dims, sorted, sorted.len())
}

/// The axes of an Unsqueeze node: its second input if it has one, else its attribute.
pub open spec fn unsqueeze_axes(node: NodeView, ctx: ContextView) -> Result<Seq<i64>, ErrorView> {
    if node.inputs.len() > 1 {
        match ctx.constant_data(node.inputs[1]) {
            Some(data) => Ok(signed64(data)),
            None => Err(ErrorView::Validation("Unsqueeze: axes must be constant"@)),
        }
    } else {
        Ok(node.attr_ints("axes"@))
    }
}

/// The output shape of Unsqueeze.
pub open spec fn unsqueeze_shape(node: NodeView, ctx: ContextView) -> Result<ShapeView, ErrorView> {
    match found_shape(node, ctx, 0, "Unsqueeze: input "@) {
        Err(e) => Err(e),
        Ok(x) => match unsqueeze_axes(node, ctx) {
            Err(e) => Err(e),
            Ok(axes) => Ok(plain_shape(unsqueezed(x.dims, axes), x.dtype)),
        },
    }
}

spec fn ints(s: Seq<i128>) -> Seq<int> {
    s.map_values(|x: i128| x as int)
}

spec fn ascending(s: Seq<i128>) -> bool {
    forall|i: int, j: int| 0 <= i < j < s.len() ==> s[i] <= s[j]
}

/// Put `x` into its place in an ascending list.
fn insert_ascending(v: &mut Vec<i128>, x: i128)
    requires
        ascending(old(v)@),
    ensures
        ascending(final(v)@),
        final(v)@.to_multiset() == old(v)@.push(x).to_multiset(),
{
    let mut at: usize = 0;
    while at < v.len() && v[at] <= x
        invariant
            at <= v@.len(),
            v@ == old(v)@,
            forall|k: int| 0 <= k < at ==> v@[k] <= x,
        decreases v@.len() - at,
    {
        at = at + 1;
    }
    v.insert(at, x);
    proof {
        broadcast use vstd::seq_lib::group_to_multiset_ensures;

        let s = old(v)@;
        assert(v@ =~= s.take(at as int).push(x) + s.skip(at as int));
        assert(s =~= s.take(at as int) + s.skip(at as int));
        vstd::seq_lib::lemma_multiset_commutative(s.take(at as int).push(x), s.skip(at as int));
        vstd::seq_lib::lemma_multiset_commutative(s.take(at as int), s.skip(at as int));
        assert(v@.to_multiset() =~= s.push(x).to_multiset());
    }
}

/// The axes from the start, ascending.
fn sorted_axes(axes: &Vec<i64>, rank: u128) -> (r: Vec<i128>)
    requires
        rank <= 0x1_ffff_ffff_ffff_fffe,
    ensures
        ints(r@) == axes_from_start(axes@, rank as nat).sort(),
{
    let ghost all = axes_from_start(axes@, rank as nat);
    let mut r: Vec<i128> = Vec::new();
    let mut i: usize = 0;
    proof {
        assert(ints(r@) =~= all.take(0));
    }
    while i < axes.len()
        invariant
            i <= axes@.len(),
            rank <= 0x1_ffff_ffff_ffff_fffe,
            all == axes_from_start(axes@, rank as nat),
            ascending(r@),
            ints(r@).to_multiset() == all.take(i as int).to_multiset(),
        decreases axes@.len() - i,
    {
        let a: i64 = axes[i];
        let x: i128 = if a < 0 {
            a as i128 + rank as i128
        } else {
            a as i128
        };
        let ghost before = r@;
        insert_ascending(&mut r, x);
        i = i + 1;
        proof {
            broadcast use vstd::seq_lib::group_to_multiset_ensures;

            lemma_ints_multiset(r@, before.push(x));
            assert(ints(before.push(x)) =~= ints(before).push(x as int));
            assert(all.take(i as int) =~= all.take(i - 1).push(x as int));
            assert(ints(r@).to_multiset() =~= all.take(i as int).to_multiset());
        }
    }
    proof {
        assert(all.take(i as int) =~= all);
        let leq = |x: int, y: int| x <= y;
        all.lemma_sort_ensures();
        vstd::seq_lib::lemma_sorted_unique(ints(r@), all.sort(), leq);
    }
    r
}

/// Lists with the same elements have the same elements as integers.
proof fn lemma_ints_multiset(a: Seq<i128>, b: Seq<i128>)
    requires
        a.to_multiset() == b.to_multiset(),
    ensures
        ints(a).to_multiset() == ints(b).to_multiset(),
{
    assert forall|x: int| ints(a).to_multiset().count(x) == ints(b).to_multiset().count(x) by {
        lemma_ints_count(a, x);
        lemma_ints_count(b, x);
    }
    assert(ints(a).to_multiset() =~= ints(b).to_multiset());
}

proof fn lemma_ints_count(a: Seq<i128>, x: int)
    ensures
        ints(a).to_multiset().count(x) == if i128::MIN <= x <= i128::MAX {
            a.to_multiset().count(x as i128)
        } else {
            0
        },
    decreases a.len(),
{
    broadcast use vstd::seq_lib::group_to_multiset_ensures;

    if a.len() == 0 {
        assert(ints(a) =~= Seq::empty());
    } else {
        let rest = a.drop_last();
        lemma_ints_count(rest, x);
        assert(a =~= rest.push(a.last()));
        assert(ints(a) =~= ints(rest).push(a.last() as int));
    }
}

/// The dimensions of an unsqueezed tensor.
pub fn unsqueeze_dims(dims: &Vec<usize>, axes: &Vec<i64>) -> (r: Vec<usize>)
    ensures
        r@ == unsqueezed(dims@, axes@),
{
    let sorted: Vec<i128> = sorted_axes(axes, dims.len() as u128 + axes.len() as u128);
    let ghost order = ints(sorted@);
    let mut out: Vec<usize> = copy_vec(dims);
    let mut i: usize = 0;
    while i < sorted.len()
        invariant
            i <= sorted@.len(),
            order == ints(sorted@),
            out@ == with_ones(dims@, order, i as nat),
        decreases sorted@.len() - i,
    {
        let at: usize = sorted[i] as usize;
        assert(order[i as int] as usize == at);
        if at <= out.len() {
            out.insert(at, 1);
        }
        i = i + 1;
    }
    out
}

/// The output shape of Unsqueeze.
pub fn validate_unsqueeze(node: &OnnxNode, ctx: &BuildContext<'_>) -> (r: Result<TensorShape, Error>)
    ensures
        outcome(r) == unsqueeze_shape(node@, ctx@),
{
    let x: &TensorShape = match find_shape(node, ctx, 0, "Unsqueeze: input ") {
        Ok(s) => s,
        Err(e) => {
            return Err(e);
        },
    };
    let axes: Vec<i64> = if node.inputs.len() > 1 {
        assert(node@.inputs[1] == node.inputs@[1]@);
        match ctx.get_constant_data(node.inputs[1].as_str()) {
            Some(data) => to_signed64(data),
            None => {
                return Err(invalid("Unsqueeze: axes must be constant"));
            },
        }
    } else {
        node.get_attr_ints("axes")
    };
    Ok(TensorShape::new(unsqueeze_dims(&x.dims, &axes), x.dtype))
}

/// The compiled form of Unsqueeze: a constant input makes the output constant,
/// and a constant output needs no input.
pub open spec fn unsqueeze_build(node: NodeView, ctx: ContextView) -> Result<
    (OpView, ContextView),
    ErrorView,
> {
    let folded = match ctx.constant_data(node.inputs[0]) {
        Some(data) => ctx.with_constant(node.outputs[0], data),
        None => ctx,
    };
    finished(
        node,
        folded,
        unsqueeze_shape(node, ctx),
        "Unsqueeze"@,
        if folded.is_constant(node.outputs[0]) {
            Seq::empty()
        } else {
            seq![node.inputs[0]]
        },
        ParamsView::Empty,
    )
}

/// Build an Unsqueeze.
pub fn build_unsqueeze(node: &OnnxNode, ctx: &mut BuildContext<'_>) -> (r: Result<CompiledOp, Error>)
    ensures
        build_outcome(r, final(ctx)@) == unsqueeze_build(node@, old(ctx)@),
        r is Err ==> final(ctx)@ == old(ctx)@,
{
    let shape: TensorShape = match validate_unsqueeze(node, ctx) {
        Ok(s) => s,
        Err(e) => {
            return Err(e);
        },
    };
    if node.outputs.len() == 0 {
        return Err(Error::Shape("no output".to_owned()));
    }
    assert(node@.inputs[0] == node.inputs@[0]@);
    assert(node@.outputs[0] == node.outputs@[0]@);
    let folded: Option<Vec<u8>> = match ctx.get_constant_data(node.inputs[0].as_str()) {
        Some(data) => Some(vstd::slice::slice_to_vec(data)),
        None => None,
    };
    match folded {
        Some(data) => {
            ctx.set_constant(node.outputs[0].clone(), data);
        },
        None => {},
    }
    let inputs: Vec<String> = if ctx.is_constant(node.outputs[0].as_str()) {
        Vec::new()
    } else {
        first_input(node)
    };
    assert(inputs@.len() == 0 ==> views(inputs@) =~= Seq::empty());
    finish(node, ctx, shape, "Unsqueeze", inputs, OpParams::Empty)
}

// ---------------------------------------------------------------------------
// Transpose
// ---------------------------------------------------------------------------

/// The permutation of a Transpose node; without one the axes are reversed.
pub open spec fn perm_of(node: NodeView, rank: nat) -> Seq<usize> {
    let perm = node.attr_ints("perm"@);
    if perm.len() != 0 {
        sizes(perm)
    } else {
        Seq::new(rank, |i: int| (rank - 1 - i) as usize)
    }
}

/// Dimensions taken in the order of a permutation.
pub open spec fn permuted(dims: Seq<usize>, perm: Seq<usize>) -> Result<Seq<usize>, ErrorView> {
    if forall|i: int| 0 <= i < perm.len() ==> #[trigger] perm[i] < dims.len() {
        Ok(perm.map_values(|p: usize| dims[p as int]))
    } else {
        Err(axis_out_of_range())
    }
}

/// The output shape of Transpose.
pub open spec fn transpose_shape(node: NodeView, ctx: ContextView) -> Result<ShapeView, ErrorView> {
    match found_shape(node, ctx, 0, "Transpose: input "@) {
        Err(e) => Err(e),
        Ok(x) => match permuted(x.dims, perm_of(node, x.dims.len())) {
            Err(e) => Err(e),
            Ok(d) => Ok(plain_shape(d, x.dtype)),
        },
    }
}

fn read_perm(node: &OnnxNode, rank: usize) -> (r: Vec<usize>)
    ensures
        r@ == perm_of(node@, rank as nat),
{
    let perm: Vec<i64> = node.get_attr_ints("perm");
    if perm.len() != 0 {
        return to_sizes(&perm);
    }
    let mut r: Vec<usize> = Vec::new();
    let mut i: usize = 0;
    while i < rank
        invariant
            i <= rank,
            r@.len() == i,
            forall|k: int| 0 <= k < i ==> r@[k] == rank - 1 - k,
        decreases rank - i,
    {
        r.push(rank - 1 - i);
        i = i + 1;
    }
    assert(r@ =~= Seq::new(rank as nat, |k: int| (rank - 1 - k) as usize));
    r
}

/// Dimensions taken in the order of a permutation.
pub fn permute(dims: &Vec<usize>, perm: &Vec<usize>) -> (r: Result<Vec<usize>, Error>)
    ensures
        outcome(r) == permuted(dims@, perm@),
{
    let mut out: Vec<usize> = Vec::new();
    let mut i: usize = 0;
    while i < perm.len()
        invariant
            i <= perm@.len(),
            out@.len() == i,
            forall|k: int|
                0 <= k < i ==> #[trigger] perm@[k] < dims@.len() && out@[k] == dims@[perm@[k] as int],
        decreases perm@.len() - i,
    {
        if perm[i] >= dims.len() {
            assert(perm@[i as int] >= dims@.len());
            return Err(err_axis_out_of_range());
        }
        out.push(dims[perm[i]]);
        i = i + 1;
    }
    assert(out@ =~= perm@.map_values(|p: usize| dims@[p as int]));
    Ok(out)
}

/// The output shape of Transpose.
pub fn validate_transpose(node: &OnnxNode, ctx: &BuildContext<'_>) -> (r: Result<TensorShape, Error>)
    ensures
        outcome(r) == transpose_shape(node@, ctx@),
{
    let x: &TensorShape = match find_shape(node, ctx, 0, "Transpose: input ") {
        Ok(s) => s,
        Err(e) => {
            return Err(e);
        },
    };
    let perm: Vec<usize> = read_perm(node, x.dims.len());
    match permute(&x.dims, &perm) {
        Ok(d) => Ok(TensorShape::new(d, x.dtype)),
        Err(e) => Err(e),
    }
}

/// The compiled form of Transpose.
pub open spec fn transpose_build(node: NodeView, ctx: ContextView) -> Result<
    (OpView, ContextView),
    ErrorView,
> {
    finished(
        node,
        ctx,
        transpose_shape(node, ctx),
        "Transpose"@,
        node.inputs,
        ParamsView::Transpose { perm: perm_of(node, ctx.shapes[node.inputs[0]].dims.len()) },
    )
}

/// Build a Transpose.
pub fn build_transpose(node: &OnnxNode, ctx: &mut BuildContext<'_>) -> (r: Result<CompiledOp, Error>)
    ensures
        build_outcome(r, final(ctx)@) == transpose_build(node@, old(ctx)@),
        r is Err ==> final(ctx)@ == old(ctx)@,
{
    let shape: TensorShape = match validate_transpose(node, ctx) {
        Ok(s) => s,
        Err(e) => {
            return Err(e);
        },
    };
    let rank: usize = match find_shape(node, ctx, 0, "Transpose: input ") {
        Ok(s) => s.dims.len(),
        Err(e) => {
            return Err(e);
        },
    };
    let perm: Vec<usize> = read_perm(node, rank);
    finish(node, ctx, shape, "Transpose", copy_names(&node.inputs), OpParams::Transpose { perm })
}

} // verus!
