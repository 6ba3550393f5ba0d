//! Running a graph on a Vulkan device.
//!
//! The runtime decides which shaders run on which buffers, in which order, with
//! which memory barriers between them, and where the host has to step in. A
//! driver carries the commands out.

use vstd::prelude::*;
use vstd::string::*;
use crate::builder::{CompiledOp, OpParams, OpView, ParamsView};
use crate::calibration::dispatch::{bad_sizes, err_bad_sizes, find_shape, last_dim, shape_at};
use crate::calibration::{
    bytes_in, checked_size, lemma_named_all, lemma_named_step, named_before, size_fits, sizes_fit,
};
use crate::error::{error_text, outcome, Error, ErrorView};
use crate::fusion::parts::{take_apart, taken_apart};
use crate::graph::{contains_name, named_shapes, pair_views, Graph, GraphView};
use crate::model::{lemma_views_push, views};
use crate::name_map::{distinct_names, lemma_pair_in_map, map_of};
use crate::ops::common::{err_size_overflow, size_overflow};
use crate::runtime::cpu::Image;
use crate::runtime::{
    decode, decoded, encode, encoded, law_written_numbers_read_back, stored, width, Float,
};
use crate::tensor::{checked_numel, numel, products_fit, Dtype, ShapeView, TensorShape};
use crate::text::{concat2, concat3, concat4, dec_int, dec_usize, str_eq};

pub mod asked;
pub mod host;

verus! {

// ---------------------------------------------------------------------------
// Commands
// ---------------------------------------------------------------------------

/// A compute shader with its sizes; scales are the bits of singles.
#[derive(Debug, Clone, Copy, PartialEq, Eq, Structural)]
pub enum Shader {
    ReluF32,
    AddF32,
    MulF32,
    SigmoidF32,
    SiluF32,
    GemmF32 { m: usize, n: usize, k: usize },
    BiasAddF32 { channels: usize },
    Conv2dF32 { image: Image },
    MaxPool2dF32 { image: Image },
    SoftmaxF32 { rows: usize, last: usize },
    RequantizeI32ToI8 { scale: u32 },
    AddI8 { scale_a_over_out: u32, scale_b_over_out: u32 },
    QuantizeF32ToI8 { scale: u32 },
    DequantizeI8ToF32 { scale: u32 },
    Conv2dRequantReluI8 { image: Image, requant_scale: u32, has_relu: bool },
    ReluI8,
    GemmI8 { m: usize, n: usize, k: usize },
}

/// A step for the driver.
#[derive(Debug)]
pub enum Command {
    /// Open a command buffer.
    Begin,
    /// Wait for earlier shaders' writes.
    Barrier,
    /// Run a shader; one without inputs works in place.
    Run { shader: Shader, inputs: Vec<String>, output: String },
    /// Copy the first bytes of a buffer by way of the host.
    Copy { from: String, to: String, bytes: usize },
    /// Submit the open command buffer.
    Submit,
    /// Wait until the device is idle.
    Synchronize,
    /// Let the host work on the op with this index.
    Host { op: usize },
}

/// The contents of [`Command`].
pub enum CommandView {
    Begin,
    Barrier,
    Run { shader: Shader, inputs: Seq<Seq<char>>, output: Seq<char> },
    Copy { from: Seq<char>, to: Seq<char>, bytes: usize },
    Submit,
    Synchronize,
    Host { op: usize },
}

impl View for Command {
    type V = CommandView;

    open spec fn view(&self) -> CommandView {
        match *self {
            Command::Begin => CommandView::Begin,
            Command::Barrier => CommandView::Barrier,
            Command::Run { shader, inputs, output } => CommandView::Run {
                shader,
                inputs: views(inputs@),
                output: output@,
            },
            Command::Copy { from, to, bytes } => CommandView::Copy { from: from@, to: to@, bytes },
            Command::Submit => CommandView::Submit,
            Command::Synchronize => CommandView::Synchronize,
            Command::Host { op } => CommandView::Host { op },
        }
    }
}

/// The outcome of planning, with both sides seen through their views.
pub open spec fn planned(r: Result<Vec<Command>, Error>) -> Result<Seq<CommandView>, ErrorView> {
    match r {
        Ok(v) => Ok(views(v@)),
        Err(e) => Err(e@),
    }
}

/// How an op reaches the device.
#[derive(Debug, Clone, Copy, PartialEq, Eq, Structural)]
pub enum Path {
    /// On its own.
    Dispatch,
    /// As part of a command buffer.
    Record,
}

/// The message for a path.
pub open spec fn told(path: Path, dispatch: Seq<char>, record: Seq<char>) -> ErrorView {
    ErrorView::Runtime(
        match path {
            Path::Dispatch => dispatch,
            Path::Record => record,
        },
    )
}

fn tell(path: Path, dispatch: &str, record: &str) -> (r: Error)
    ensures
        r@ == told(path, dispatch@, record@),
{
    match path {
        Path::Dispatch => Error::Runtime(dispatch.to_owned()),
        Path::Record => Error::Runtime(record.to_owned()),
    }
}

// ---------------------------------------------------------------------------
// Buffers
// ---------------------------------------------------------------------------

/// The size of a tensor's buffer in bytes; empty tensors have none.
pub open spec fn buffer_size(g: GraphView, name: Seq<char>) -> Option<nat> {
    if g.shapes.dom().contains(name) && bytes_in(g.shapes[name]) > 0 {
        Some(bytes_in(g.shapes[name]))
    } else {
        None
    }
}

/// The answer when a tensor has no buffer.
pub open spec fn no_buffer(name: Seq<char>) -> ErrorView {
    ErrorView::Runtime("buffer not found: "@ + name)
}

pub(crate) fn find_size(graph: &Graph, name: &str) -> (r: Option<usize>)
    requires
        sizes_fit(graph@),
    ensures
        match r {
            Some(n) => buffer_size(graph@, name@) == Some(n as nat),
            None => buffer_size(graph@, name@) is None,
        },
{
    match graph.shapes.get(name) {
        Some(s) => {
            assert(graph@.shapes.dom().contains(name@));
            match checked_size(s) {
                Some(n) => if n > 0 {
                    Some(n)
                } else {
                    None
                },
                None => None,
            }
        },
        None => None,
    }
}

/// The sizes of an input and an output, which have to be two buffers.
pub open spec fn two_buffers(g: GraphView, a: Seq<char>, b: Seq<char>) -> Result<(), ErrorView> {
    if a == b {
        Err(ErrorView::Runtime("aliasing not supported here: "@ + a))
    } else if buffer_size(g, a) is None {
        Err(no_buffer(a))
    } else if buffer_size(g, b) is None {
        Err(no_buffer(b))
    } else {
        Ok(())
    }
}

/// Two inputs and an output, which has to be a buffer of its own.
pub open spec fn three_buffers(g: GraphView, a: Seq<char>, b: Seq<char>, c: Seq<char>) -> Result<
    (),
    ErrorView,
> {
    if a == c || b == c {
        Err(ErrorView::Runtime("output "@ + c + " aliases an input"@))
    } else if buffer_size(g, a) is None {
        Err(no_buffer(a))
    } else if buffer_size(g, b) is None {
        Err(no_buffer(b))
    } else if buffer_size(g, c) is None {
        Err(no_buffer(c))
    } else {
        Ok(())
    }
}

/// What a check found, as a view.
pub open spec fn checked(r: Result<(), Error>) -> Result<(), ErrorView> {
    match r {
        Ok(_) => Ok(()),
        Err(e) => Err(e@),
    }
}

fn check_two(graph: &Graph, a: &String, b: &String) -> (r: Result<(), Error>)
    requires
        sizes_fit(graph@),
    ensures
        checked(r) == two_buffers(graph@, a@, b@),
{
    if str_eq(a.as_str(), b.as_str()) {
        Err(Error::Runtime(concat2("aliasing not supported here: ", a.as_str())))
    } else if find_size(graph, a.as_str()).is_none() {
        Err(Error::Runtime(concat2("buffer not found: ", a.as_str())))
    } else if find_size(graph, b.as_str()).is_none() {
        Err(Error::Runtime(concat2("buffer not found: ", b.as_str())))
    } else {
        Ok(())
    }
}

fn check_three(graph: &Graph, a: &String, b: &String, c: &String) -> (r: Result<(), Error>)
    requires
        sizes_fit(graph@),
    ensures
        checked(r) == three_buffers(graph@, a@, b@, c@),
{
    if str_eq(a.as_str(), c.as_str()) || str_eq(b.as_str(), c.as_str()) {
        Err(Error::Runtime(concat3("output ", c.as_str(), " aliases an input")))
    } else if find_size(graph, a.as_str()).is_none() {
        Err(Error::Runtime(concat2("buffer not found: ", a.as_str())))
    } else if find_size(graph, b.as_str()).is_none() {
        Err(Error::Runtime(concat2("buffer not found: ", b.as_str())))
    } else if find_size(graph, c.as_str()).is_none() {
        Err(Error::Runtime(concat2("buffer not found: ", c.as_str())))
    } else {
        Ok(())
    }
}

/// A shader that works in place.
pub open spec fn in_place(shader: Shader, name: Seq<char>) -> CommandView {
    CommandView::Run { shader, inputs: Seq::empty(), output: name }
}

/// A shader with one input.
pub open spec fn run_one(shader: Shader, a: Seq<char>, out: Seq<char>) -> CommandView {
    CommandView::Run { shader, inputs: seq![a], output: out }
}

/// A shader with two inputs.
pub open spec fn run_two(shader: Shader, a: Seq<char>, b: Seq<char>, out: Seq<char>) -> CommandView {
    CommandView::Run { shader, inputs: seq![a, b], output: out }
}

fn make_in_place(shader: Shader, name: &String) -> (r: Command)
    ensures
        r@ == in_place(shader, name@),
{
    let inputs: Vec<String> = Vec::new();
    assert(views(inputs@) =~= Seq::empty());
    Command::Run { shader, inputs, output: name.clone() }
}

fn make_one(shader: Shader, a: &String, out: &String) -> (r: Command)
    ensures
        r@ == run_one(shader, a@, out@),
{
    let mut inputs: Vec<String> = Vec::new();
    inputs.push(a.clone());
    assert(views(inputs@) =~= seq![a@]);
    Command::Run { shader, inputs, output: out.clone() }
}

fn make_two(shader: Shader, a: &String, b: &String, out: &String) -> (r: Command)
    ensures
        r@ == run_two(shader, a@, b@, out@),
{
    let mut inputs: Vec<String> = Vec::new();
    inputs.push(a.clone());
    inputs.push(b.clone());
    assert(views(inputs@) =~= seq![a@, b@]);
    Command::Run { shader, inputs, output: out.clone() }
}

fn just(c: Command) -> (r: Vec<Command>)
    ensures
        views(r@) == seq![c@],
{
    let mut r: Vec<Command> = Vec::new();
    r.push(c);
    assert(views(r@) =~= seq![c@]);
    r
}

fn both(c: Command, d: Command) -> (r: Vec<Command>)
    ensures
        views(r@) == seq![c@, d@],
{
    let mut r: Vec<Command> = Vec::new();
    r.push(c);
    r.push(d);
    assert(views(r@) =~= seq![c@, d@]);
    r
}

// ---------------------------------------------------------------------------
// Element by element
// ---------------------------------------------------------------------------

/// A Reshape: nothing where input and output are one tensor, or there is none.
pub open spec fn reshape_commands(g: GraphView, op: OpView, path: Path) -> Result<
    Seq<CommandView>,
    ErrorView,
> {
    if op.inputs.len() == 0 || op.outputs.len() == 0 || op.inputs[0] == op.outputs[0] {
        Ok(Seq::empty())
    } else {
        match path {
            Path::Record => Err(
                ErrorView::Runtime(
                    "record_reshape with input != output not supported in batched run; use run_unbatched, or rewrite the graph to alias the reshape"@,
                ),
            ),
            Path::Dispatch => match (
                buffer_size(g, op.inputs[0]),
                buffer_size(g, op.outputs[0]),
            ) {
                (None, _) => Err(no_buffer(op.inputs[0])),
                (_, None) => Err(no_buffer(op.outputs[0])),
                (Some(a), Some(b)) => Ok(
                    seq![
                        CommandView::Copy {
                            from: op.inputs[0],
                            to: op.outputs[0],
                            bytes: (if a < b {
                                a
                            } else {
                                b
                            }) as usize,
                        },
                    ],
                ),
            },
        }
    }
}

fn plan_reshape(graph: &Graph, op: &CompiledOp, path: Path) -> (r: Result<Vec<Command>, Error>)
    requires
        sizes_fit(graph@),
    ensures
        planned(r) == reshape_commands(graph@, op@, path),
{
    let none: Vec<Command> = Vec::new();
    assert(views(none@) =~= Seq::empty());
    if op.inputs.len() == 0 || op.outputs.len() == 0 {
        return Ok(none);
    }
    assert(op@.inputs[0] == op.inputs@[0]@);
    assert(op@.outputs[0] == op.outputs@[0]@);
    if str_eq(op.inputs[0].as_str(), op.outputs[0].as_str()) {
        return Ok(none);
    }
    match path {
        Path::Record => Err(
            Error::Runtime(
                "record_reshape with input != output not supported in batched run; use run_unbatched, or rewrite the graph to alias the reshape".to_owned(),
            ),
        ),
        Path::Dispatch => {
            let a: usize = match find_size(graph, op.inputs[0].as_str()) {
                Some(n) => n,
                None => {
                    return Err(
                        Error::Runtime(concat2("buffer not found: ", op.inputs[0].as_str())),
                    );
                },
            };
            let b: usize = match find_size(graph, op.outputs[0].as_str()) {
                Some(n) => n,
                None => {
                    return Err(
                        Error::Runtime(concat2("buffer not found: ", op.outputs[0].as_str())),
                    );
                },
            };
            Ok(
                just(
                    Command::Copy {
                        from: op.inputs[0].clone(),
                        to: op.outputs[0].clone(),
                        bytes: if a < b {
                            a
                        } else {
                            b
                        },
                    },
                ),
            )
        },
    }
}

/// A Relu: in place; out of place only on its own, after a copy.
pub open spec fn relu_commands(g: GraphView, op: OpView, path: Path) -> Result<
    Seq<CommandView>,
    ErrorView,
> {
    if op.inputs.len() == 0 || op.outputs.len() == 0 {
        Err(told(path, "relu: missing input/output"@, "record_relu: missing input/output"@))
    } else {
        let a = op.inputs[0];
        let b = op.outputs[0];
        if a == b {
            if buffer_size(g, a) is None {
                Err(no_buffer(a))
            } else {
                Ok(seq![in_place(Shader::ReluF32, a)])
            }
        } else if path == Path::Record {
            Err(
                ErrorView::Runtime("record_relu: out-of-place not supported in batched path"@),
            )
        } else {
            match (buffer_size(g, a), buffer_size(g, b)) {
                (None, _) => Err(no_buffer(a)),
                (_, None) => Err(no_buffer(b)),
                (Some(x), Some(y)) => if x != y {
                    Err(ErrorView::Runtime("relu copy upload: size mismatch"@))
                } else {
                    Ok(
                        seq![
                            CommandView::Copy { from: a, to: b, bytes: x as usize },
                            in_place(Shader::ReluF32, b),
                        ],
                    )
                },
            }
        }
    }
}

fn plan_relu(graph: &Graph, op: &CompiledOp, path: Path) -> (r: Result<Vec<Command>, Error>)
    requires
        sizes_fit(graph@),
    ensures
        planned(r) == relu_commands(graph@, op@, path),
{
    if op.inputs.len() == 0 || op.outputs.len() == 0 {
        return Err(tell(path, "relu: missing input/output", "record_relu: missing input/output"));
    }
    assert(op@.inputs[0] == op.inputs@[0]@);
    assert(op@.outputs[0] == op.outputs@[0]@);
    let a: &String = &op.inputs[0];
    let b: &String = &op.outputs[0];
    if str_eq(a.as_str(), b.as_str()) {
        return match find_size(graph, a.as_str()) {
            None => Err(Error::Runtime(concat2("buffer not found: ", a.as_str()))),
            Some(_) => Ok(just(make_in_place(Shader::ReluF32, a))),
        };
    }
    match path {
        Path::Record => {
            return Err(
                Error::Runtime(
                    "record_relu: out-of-place not supported in batched path".to_owned(),
                ),
            );
        },
        Path::Dispatch => {},
    }
    let x: usize = match find_size(graph, a.as_str()) {
        Some(n) => n,
        None => {
            return Err(Error::Runtime(concat2("buffer not found: ", a.as_str())));
        },
    };
    let y: usize = match find_size(graph, b.as_str()) {
        Some(n) => n,
        None => {
            return Err(Error::Runtime(concat2("buffer not found: ", b.as_str())));
        },
    };
    if x != y {
        return Err(Error::Runtime("relu copy upload: size mismatch".to_owned()));
    }
    Ok(
        both(
            Command::Copy { from: a.clone(), to: b.clone(), bytes: x },
            make_in_place(Shader::ReluF32, b),
        ),
    )
}

/// A shader with two inputs.
pub open spec fn pair_commands(g: GraphView, op: OpView, shader: Shader, missing: ErrorView) -> Result<
    Seq<CommandView>,
    ErrorView,
> {
    if op.inputs.len() < 2 || op.outputs.len() == 0 {
        Err(missing)
    } else {
        match three_buffers(g, op.inputs[0], op.inputs[1], op.outputs[0]) {
            Err(e) => Err(e),
            Ok(_) => Ok(seq![run_two(shader, op.inputs[0], op.inputs[1], op.outputs[0])]),
        }
    }
}

fn plan_pair(graph: &Graph, op: &CompiledOp, shader: Shader, missing: Error) -> (r: Result<
    Vec<Command>,
    Error,
>)
    requires
        sizes_fit(graph@),
    ensures
        planned(r) == pair_commands(graph@, op@, shader, missing@),
{
    if op.inputs.len() < 2 || op.outputs.len() == 0 {
        return Err(missing);
    }
    assert(op@.inputs[0] == op.inputs@[0]@);
    assert(op@.inputs[1] == op.inputs@[1]@);
    assert(op@.outputs[0] == op.outputs@[0]@);
    match check_three(graph, &op.inputs[0], &op.inputs[1], &op.outputs[0]) {
        Err(e) => Err(e),
        Ok(_) => Ok(just(make_two(shader, &op.inputs[0], &op.inputs[1], &op.outputs[0]))),
    }
}

/// A shader with one input that does not work in place.
pub open spec fn single_commands(
    g: GraphView,
    op: OpView,
    shader: Shader,
    missing: ErrorView,
    same: ErrorView,
) -> Result<Seq<CommandView>, ErrorView> {
    if op.inputs.len() == 0 || op.outputs.len() == 0 {
        Err(missing)
    } else if op.inputs[0] == op.outputs[0] {
        Err(same)
    } else {
        match two_buffers(g, op.inputs[0], op.outputs[0]) {
            Err(e) => Err(e),
            Ok(_) => Ok(seq![run_one(shader, op.inputs[0], op.outputs[0])]),
        }
    }
}

fn plan_single(graph: &Graph, op: &CompiledOp, shader: Shader, missing: Error, same: Error) -> (r:
    Result<Vec<Command>, Error>)
    requires
        sizes_fit(graph@),
    ensures
        planned(r) == single_commands(graph@, op@, shader, missing@, same@),
{
    if op.inputs.len() == 0 || op.outputs.len() == 0 {
        return Err(missing);
    }
    assert(op@.inputs[0] == op.inputs@[0]@);
    assert(op@.outputs[0] == op.outputs@[0]@);
    if str_eq(op.inputs[0].as_str(), op.outputs[0].as_str()) {
        return Err(same);
    }
    match check_two(graph, &op.inputs[0], &op.outputs[0]) {
        Err(e) => Err(e),
        Ok(_) => Ok(just(make_one(shader, &op.inputs[0], &op.outputs[0]))),
    }
}

/// Bounds that make a Clip a Relu: zero and infinity.
pub open spec fn clips_like_relu(min: u32, max: u32) -> bool {
    min % 0x8000_0000 == 0 && max % 0x8000_0000 == 0x7f80_0000
}

/// A Clip that is a Relu; there is no shader for another one.
pub open spec fn clip_commands(g: GraphView, op: OpView, min: u32, max: u32, path: Path) -> Result<
    Seq<CommandView>,
    ErrorView,
> {
    if clips_like_relu(min, max) {
        relu_commands(g, op, path)
    } else {
        Err(
            told(
                path,
                "vk clip: only min=0/max=inf (ReLU) supported in Phase 2; general clip shader is future work"@,
                "vk record_clip: general clip not supported"@,
            ),
        )
    }
}

fn plan_clip(graph: &Graph, op: &CompiledOp, min: u32, max: u32, path: Path) -> (r: Result<
    Vec<Command>,
    Error,
>)
    requires
        sizes_fit(graph@),
    ensures
        planned(r) == clip_commands(graph@, op@, min, max, path),
{
    if min % 0x8000_0000 == 0 && max % 0x8000_0000 == 0x7f80_0000 {
        plan_relu(graph, op, path)
    } else {
        Err(
            tell(
                path,
                "vk clip: only min=0/max=inf (ReLU) supported in Phase 2; general clip shader is future work",
                "vk record_clip: general clip not supported",
            ),
        )
    }
}

// ---------------------------------------------------------------------------
// Products, convolutions and pools
// ---------------------------------------------------------------------------

/// `true` or `false`.
pub open spec fn bool_text(b: bool) -> Seq<char> {
    if b {
        "true"@
    } else {
        "false"@
    }
}

fn to_bool_text(b: bool) -> (r: &'static str)
    ensures
        r@ == bool_text(b),
{
    if b {
        "true"
    } else {
        "false"
    }
}

/// The number of entries of a bias: those of the third input's buffer, if there is one.
pub open spec fn bias_entries(g: GraphView, op: OpView) -> Option<nat> {
    if op.inputs.len() > 2 && op.inputs[2].len() > 0 {
        Some(
            match buffer_size(g, op.inputs[2]) {
                Some(n) => n / 4,
                None => 0,
            },
        )
    } else {
        None
    }
}

/// `first`, and a bias of `n` entries after it where the third input is one.
/// In a command buffer a barrier stands between.
pub open spec fn with_bias(g: GraphView, op: OpView, first: CommandView, n: usize, path: Path) -> Result<
    Seq<CommandView>,
    ErrorView,
> {
    if bias_entries(g, op) != Some(n as nat) {
        Ok(seq![first])
    } else {
        match two_buffers(g, op.inputs[2], op.outputs[0]) {
            Err(e) => Err(e),
            Ok(_) => {
                let add = run_one(
                    Shader::BiasAddF32 { channels: n },
                    op.inputs[2],
                    op.outputs[0],
                );
                Ok(
                    match path {
                        Path::Dispatch => seq![first, add],
                        Path::Record => seq![first, CommandView::Barrier, add],
                    },
                )
            },
        }
    }
}

fn plan_with_bias(graph: &Graph, op: &CompiledOp, first: Command, n: usize, path: Path) -> (r: Result<
    Vec<Command>,
    Error,
>)
    requires
        sizes_fit(graph@),
        op@.outputs.len() > 0,
    ensures
        planned(r) == with_bias(graph@, op@, first@, n, path),
{
    assert(op@.outputs[0] == op.outputs@[0]@);
    if op.inputs.len() <= 2 {
        return Ok(just(first));
    }
    assert(op@.inputs[2] == op.inputs@[2]@);
    proof {
        reveal_strlit("");
    }
    if str_eq(op.inputs[2].as_str(), "") {
        return Ok(just(first));
    }
    proof {
        if op@.inputs[2].len() == 0 {
            assert(op@.inputs[2] =~= ""@);
        }
    }
    let entries: usize = match find_size(graph, op.inputs[2].as_str()) {
        Some(n) => n / 4,
        None => 0,
    };
    if entries != n {
        return Ok(just(first));
    }
    match check_two(graph, &op.inputs[2], &op.outputs[0]) {
        Err(e) => Err(e),
        Ok(_) => {
            let add: Command = make_one(
                Shader::BiasAddF32 { channels: n },
                &op.inputs[2],
                &op.outputs[0],
            );
            match path {
                Path::Dispatch => Ok(both(first, add)),
                Path::Record => {
                    let mut r: Vec<Command> = Vec::new();
                    r.push(first);
                    r.push(Command::Barrier);
                    r.push(add);
                    assert(views(r@) =~= seq![first@, CommandView::Barrier, add@]);
                    Ok(r)
                },
            }
        },
    }
}

/// A Gemm; there is no shader for transposed factors.
pub open spec fn gemm_commands(
    g: GraphView,
    op: OpView,
    trans_a: bool,
    trans_b: bool,
    path: Path,
) -> Result<Seq<CommandView>, ErrorView> {
    if op.inputs.len() < 2 || op.outputs.len() == 0 {
        Err(
            told(
                path,
                "gemm: needs \u{2265}2 inputs and 1 output"@,
                "record_gemm: needs \u{2265}2 inputs and 1 output"@,
            ),
        )
    } else {
        match shape_at(g, op.inputs[0]) {
            Err(e) => Err(e),
            Ok(sa) => match shape_at(g, op.inputs[1]) {
                Err(e) => Err(e),
                Ok(sb) => if sa.dims.len() != 2 || sb.dims.len() != 2 {
                    Err(told(path, "Gemm inputs must be 2D"@, "record_gemm: inputs must be 2D"@))
                } else {
                    let m = sa.dims[if trans_a { 1int } else { 0 }];
                    let k = sa.dims[if trans_a { 0int } else { 1 }];
                    let n = sb.dims[if trans_b { 0int } else { 1 }];
                    if trans_a || trans_b {
                        Err(
                            told(
                                path,
                                "vk gemm: trans_a/trans_b not supported (yet). trans_a="@
                                    + bool_text(trans_a) + ", trans_b="@ + bool_text(trans_b)
                                    + ", MxNxK="@ + dec_int(m as int) + "x"@ + dec_int(n as int)
                                    + "x"@ + dec_int(k as int),
                                "record_gemm: trans_a/trans_b not supported (call fold_gemm_transpose first); trans_a="@
                                    + bool_text(trans_a) + ", trans_b="@ + bool_text(trans_b),
                            ),
                        )
                    } else {
                        match three_buffers(g, op.inputs[0], op.inputs[1], op.outputs[0]) {
                            Err(e) => Err(e),
                            Ok(_) => with_bias(
                                g,
                                op,
                                run_two(
                                    Shader::GemmF32 { m, n, k },
                                    op.inputs[0],
                                    op.inputs[1],
                                    op.outputs[0],
                                ),
                                n,
                                path,
                            ),
                        }
                    }
                },
            },
        }
    }
}

fn plan_gemm(graph: &Graph, op: &CompiledOp, trans_a: bool, trans_b: bool, path: Path) -> (r: Result<
    Vec<Command>,
    Error,
>)
    requires
        sizes_fit(graph@),
    ensures
        planned(r) == gemm_commands(graph@, op@, trans_a, trans_b, path),
{
    if op.inputs.len() < 2 || op.outputs.len() == 0 {
        return Err(
            tell(
                path,
                "gemm: needs \u{2265}2 inputs and 1 output",
                "record_gemm: needs \u{2265}2 inputs and 1 output",
            ),
        );
    }
    assert(op@.inputs[0] == op.inputs@[0]@);
    assert(op@.inputs[1] == op.inputs@[1]@);
    assert(op@.outputs[0] == op.outputs@[0]@);
    let sa: &TensorShape = match find_shape(graph, &op.inputs[0]) {
        Ok(s) => s,
        Err(e) => {
            return Err(e);
        },
    };
    let sb: &TensorShape = match find_shape(graph, &op.inputs[1]) {
        Ok(s) => s,
        Err(e) => {
            return Err(e);
        },
    };
    if sa.dims.len() != 2 || sb.dims.len() != 2 {
        return Err(tell(path, "Gemm inputs must be 2D", "record_gemm: inputs must be 2D"));
    }
    let m: usize = if trans_a {
        sa.dims[1]
    } else {
        sa.dims[0]
    };
    let k: usize = if trans_a {
        sa.dims[0]
    } else {
        sa.dims[1]
    };
    let n: usize = if trans_b {
        sb.dims[0]
    } else {
        sb.dims[1]
    };
    if trans_a || trans_b {
        let mut text: String = concat4(
            match path {
                Path::Dispatch => "vk gemm: trans_a/trans_b not supported (yet). trans_a=",
                Path::Record => "record_gemm: trans_a/trans_b not supported (call fold_gemm_transpose first); trans_a=",
            },
            to_bool_text(trans_a),
            ", trans_b=",
            to_bool_text(trans_b),
        );
        match path {
            Path::Dispatch => {
                let mt: String = dec_usize(m);
                let nt: String = dec_usize(n);
                let kt: String = dec_usize(k);
                text.append(", MxNxK=");
                text.append(mt.as_str());
                text.append("x");
                text.append(nt.as_str());
                text.append("x");
                text.append(kt.as_str());
            },
            Path::Record => {},
        }
        return Err(Error::Runtime(text));
    }
    match check_three(graph, &op.inputs[0], &op.inputs[1], &op.outputs[0]) {
        Err(e) => Err(e),
        Ok(_) => {
            let first: Command = make_two(
                Shader::GemmF32 { m, n, k },
                &op.inputs[0],
                &op.inputs[1],
                &op.outputs[0],
            );
            plan_with_bias(graph, op, first, n, path)
        },
    }
}

/// What a window moves over, channels last.
pub open spec fn image_of(
    d: Seq<usize>,
    c_out: usize,
    kernel: Seq<usize>,
    strides: Seq<usize>,
    pads: Seq<usize>,
) -> Image {
    Image {
        n: d[0],
        h_in: d[1],
        w_in: d[2],
        c_in: d[3],
        c_out,
        k_h: kernel[0],
        k_w: kernel[1],
        stride_h: strides[0],
        stride_w: strides[1],
        pad_h: pads[0],
        pad_w: pads[1],
    }
}

fn make_image(
    d: &Vec<usize>,
    c_out: usize,
    kernel: &[usize; 2],
    strides: &[usize; 2],
    pads: &[usize; 4],
) -> (r: Image)
    requires
        d@.len() >= 4,
    ensures
        r == image_of(d@, c_out, kernel@, strides@, pads@),
{
    Image {
        n: d[0],
        h_in: d[1],
        w_in: d[2],
        c_in: d[3],
        c_out,
        k_h: kernel[0],
        k_w: kernel[1],
        stride_h: strides[0],
        stride_w: strides[1],
        pad_h: pads[0],
        pad_w: pads[1],
    }
}

/// A convolution; there is no shader for groups. On its own it can be told to
/// leave the bias out.
pub open spec fn conv_commands(
    g: GraphView,
    op: OpView,
    kernel: Seq<usize>,
    strides: Seq<usize>,
    pads: Seq<usize>,
    group: usize,
    skip_bias: bool,
    path: Path,
) -> Result<Seq<CommandView>, ErrorView> {
    if op.inputs.len() < 2 || op.outputs.len() == 0 {
        Err(
            told(
                path,
                "conv2d: needs \u{2265}2 inputs and 1 output"@,
                "record_conv2d: needs \u{2265}2 inputs and 1 output"@,
            ),
        )
    } else {
        match shape_at(g, op.inputs[0]) {
            Err(e) => Err(e),
            Ok(sx) => match shape_at(g, op.outputs[0]) {
                Err(e) => Err(e),
                Ok(so) => if sx.dims.len() != 4 {
                    Err(
                        told(
                            path,
                            "conv2d input must be 4D NHWC"@,
                            "record_conv2d input must be 4D NHWC"@,
                        ),
                    )
                } else if so.dims.len() < 4 {
                    Err(bad_sizes())
                } else if group != 1 {
                    Err(
                        told(
                            path,
                            "vk conv2d: group="@ + dec_int(group as int)
                                + " not supported (need depthwise shader)"@,
                            "record_conv2d: group="@ + dec_int(group as int) + " not supported"@,
                        ),
                    )
                } else {
                    match three_buffers(g, op.inputs[0], op.inputs[1], op.outputs[0]) {
                        Err(e) => Err(e),
                        Ok(_) => {
                            let image = image_of(sx.dims, so.dims[3], kernel, strides, pads);
                            let first = run_two(
                                Shader::Conv2dF32 { image },
                                op.inputs[0],
                                op.inputs[1],
                                op.outputs[0],
                            );
                            if skip_bias && path == Path::Dispatch {
                                Ok(seq![first])
                            } else {
                                with_bias(g, op, first, so.dims[3], path)
                            }
                        },
                    }
                },
            },
        }
    }
}

fn plan_conv(
    graph: &Graph,
    op: &CompiledOp,
    kernel: &[usize; 2],
    strides: &[usize; 2],
    pads: &[usize; 4],
    group: usize,
    skip_bias: bool,
    path: Path,
) -> (r: Result<Vec<Command>, Error>)
    requires
        sizes_fit(graph@),
    ensures
        planned(r) == conv_commands(
            graph@,
            op@,
            kernel@,
            strides@,
            pads@,
            group,
            skip_bias,
            path,
        ),
{
    if op.inputs.len() < 2 || op.outputs.len() == 0 {
        return Err(
            tell(
                path,
                "conv2d: needs \u{2265}2 inputs and 1 output",
                "record_conv2d: needs \u{2265}2 inputs and 1 output",
            ),
        );
    }
    assert(op@.inputs[0] == op.inputs@[0]@);
    assert(op@.inputs[1] == op.inputs@[1]@);
    assert(op@.outputs[0] == op.outputs@[0]@);
    let sx: &TensorShape = match find_shape(graph, &op.inputs[0]) {
        Ok(s) => s,
        Err(e) => {
            return Err(e);
        },
    };
    let so: &TensorShape = match find_shape(graph, &op.outputs[0]) {
        Ok(s) => s,
        Err(e) => {
            return Err(e);
        },
    };
    if sx.dims.len() != 4 {
        return Err(
            tell(path, "conv2d input must be 4D NHWC", "record_conv2d input must be 4D NHWC"),
        );
    }
    if so.dims.len() < 4 {
        return Err(err_bad_sizes());
    }
    if group != 1 {
        let gt: String = dec_usize(group);
        return Err(
            Error::Runtime(
                match path {
                    Path::Dispatch => concat3(
                        "vk conv2d: group=",
                        gt.as_str(),
                        " not supported (need depthwise shader)",
                    ),
                    Path::Record => concat3(
                        "record_conv2d: group=",
                        gt.as_str(),
                        " not supported",
                    ),
                },
            ),
        );
    }
    match check_three(graph, &op.inputs[0], &op.inputs[1], &op.outputs[0]) {
        Err(e) => Err(e),
        Ok(_) => {
            let image: Image = make_image(&sx.dims, so.dims[3], kernel, strides, pads);
            let first: Command = make_two(
                Shader::Conv2dF32 { image },
                &op.inputs[0],
                &op.inputs[1],
                &op.outputs[0],
            );
            if skip_bias && path == Path::Dispatch {
                Ok(just(first))
            } else {
                plan_with_bias(graph, op, first, so.dims[3], path)
            }
        },
    }
}

/// A MaxPool.
pub open spec fn maxpool_commands(
    g: GraphView,
    op: OpView,
    kernel: Seq<usize>,
    strides: Seq<usize>,
    path: Path,
) -> Result<Seq<CommandView>, ErrorView> {
    if op.inputs.len() == 0 || op.outputs.len() == 0 {
        Err(told(path, "maxpool: missing input/output"@, "record_maxpool: missing input/output"@))
    } else {
        match shape_at(g, op.inputs[0]) {
            Err(e) => Err(e),
            Ok(s) => if s.dims.len() != 4 {
                Err(
                    told(
                        path,
                        "maxpool input must be 4D NHWC"@,
                        "record_maxpool input must be 4D NHWC"@,
                    ),
                )
            } else {
                match two_buffers(g, op.inputs[0], op.outputs[0]) {
                    Err(e) => Err(e),
                    Ok(_) => Ok(
                        seq![
                            run_one(
                                Shader::MaxPool2dF32 {
                                    image: image_of(
                                        s.dims,
                                        s.dims[3],
                                        kernel,
                                        strides,
                                        seq![0usize, 0, 0, 0],
                                    ),
                                },
                                op.inputs[0],
                                op.outputs[0],
                            ),
                        ],
                    ),
                }
            },
        }
    }
}

fn plan_maxpool(
    graph: &Graph,
    op: &CompiledOp,
    kernel: &[usize; 2],
    strides: &[usize; 2],
    path: Path,
) -> (r: Result<Vec<Command>, Error>)
    requires
        sizes_fit(graph@),
    ensures
        planned(r) == maxpool_commands(graph@, op@, kernel@, strides@, path),
{
    if op.inputs.len() == 0 || op.outputs.len() == 0 {
        return Err(
            tell(path, "maxpool: missing input/output", "record_maxpool: missing input/output"),
        );
    }
    assert(op@.inputs[0] == op.inputs@[0]@);
    assert(op@.outputs[0] == op.outputs@[0]@);
    let s: &TensorShape = match find_shape(graph, &op.inputs[0]) {
        Ok(s) => s,
        Err(e) => {
            return Err(e);
        },
    };
    if s.dims.len() != 4 {
        return Err(
            tell(path, "maxpool input must be 4D NHWC", "record_maxpool input must be 4D NHWC"),
        );
    }
    match check_two(graph, &op.inputs[0], &op.outputs[0]) {
        Err(e) => Err(e),
        Ok(_) => {
            let image: Image = make_image(&s.dims, s.dims[3], kernel, strides, &[0, 0, 0, 0]);
            Ok(just(make_one(Shader::MaxPool2dF32 { image }, &op.inputs[0], &op.outputs[0])))
        },
    }
}

/// A Softmax along the last axis.
pub open spec fn softmax_commands(g: GraphView, op: OpView, path: Path) -> Result<
    Seq<CommandView>,
    ErrorView,
> {
    if op.inputs.len() == 0 || op.outputs.len() == 0 {
        Err(told(path, "softmax: missing input/output"@, "record_softmax: missing input/output"@))
    } else if op.inputs[0] == op.outputs[0] {
        Err(
            told(
                path,
                "vk softmax does not support in-place"@,
                "record_softmax: in-place not supported"@,
            ),
        )
    } else {
        match shape_at(g, op.inputs[0]) {
            Err(e) => Err(e),
            Ok(s) => {
                let last = last_dim(s.dims);
                if last == 0 || !products_fit(s.dims) {
                    Err(bad_sizes())
                } else {
                    match two_buffers(g, op.inputs[0], op.outputs[0]) {
                        Err(e) => Err(e),
                        Ok(_) => Ok(
                            seq![
                                run_one(
                                    Shader::SoftmaxF32 {
                                        rows: (numel(s.dims) / last as nat) as usize,
                                        last,
                                    },
                                    op.inputs[0],
                                    op.outputs[0],
                                ),
                            ],
                        ),
                    }
                }
            },
        }
    }
}

fn plan_softmax(graph: &Graph, op: &CompiledOp, path: Path) -> (r: Result<Vec<Command>, Error>)
    requires
        sizes_fit(graph@),
    ensures
        planned(r) == softmax_commands(graph@, op@, path),
{
    if op.inputs.len() == 0 || op.outputs.len() == 0 {
        return Err(
            tell(path, "softmax: missing input/output", "record_softmax: missing input/output"),
        );
    }
    assert(op@.inputs[0] == op.inputs@[0]@);
    assert(op@.outputs[0] == op.outputs@[0]@);
    if str_eq(op.inputs[0].as_str(), op.outputs[0].as_str()) {
        return Err(
            tell(
                path,
                "vk softmax does not support in-place",
                "record_softmax: in-place not supported",
            ),
        );
    }
    let s: &TensorShape = match find_shape(graph, &op.inputs[0]) {
        Ok(s) => s,
        Err(e) => {
            return Err(e);
        },
    };
    let last: usize = if s.dims.len() == 0 {
        1
    } else {
        s.dims[s.dims.len() - 1]
    };
    if last == 0 {
        return Err(err_bad_sizes());
    }
    let total: usize = match checked_numel(s.dims.as_slice()) {
        Some(n) => n,
        None => {
            return Err(err_bad_sizes());
        },
    };
    match check_two(graph, &op.inputs[0], &op.outputs[0]) {
        Err(e) => Err(e),
        Ok(_) => Ok(
            just(
                make_one(
                    Shader::SoftmaxF32 { rows: total / last, last },
                    &op.inputs[0],
                    &op.outputs[0],
                ),
            ),
        ),
    }
}

/// A fused INT8 convolution, requantization and perhaps Relu, without bias.
pub open spec fn fused_conv_commands(
    g: GraphView,
    op: OpView,
    kernel: Seq<usize>,
    strides: Seq<usize>,
    pads: Seq<usize>,
    group: usize,
    requant_scale: u32,
    has_relu: bool,
    path: Path,
) -> Result<Seq<CommandView>, ErrorView> {
    let front = match path {
        Path::Dispatch => "conv2d_requant_relu_i8: "@,
        Path::Record => "record_conv2d_requant_relu_i8: "@,
    };
    if op.inputs.len() < 2 || op.outputs.len() == 0 {
        Err(ErrorView::Runtime(front + "needs \u{2265}2 inputs and 1 output"@))
    } else if group != 1 {
        Err(ErrorView::Runtime(front + "group="@ + dec_int(group as int) + " not supported"@))
    } else if op.inputs.len() > 2 && op.inputs[2].len() > 0 {
        Err(ErrorView::Runtime(front + "bias must be folded at compile time"@))
    } else {
        match shape_at(g, op.inputs[0]) {
            Err(e) => Err(e),
            Ok(sx) => match shape_at(g, op.outputs[0]) {
                Err(e) => Err(e),
                Ok(so) => if sx.dims.len() != 4 || so.dims.len() != 4 {
                    Err(
                        told(
                            path,
                            front + "input and output must be 4D NHWC"@,
                            front + "shapes must be 4D NHWC"@,
                        ),
                    )
                } else {
                    match three_buffers(g, op.inputs[0], op.inputs[1], op.outputs[0]) {
                        Err(e) => Err(e),
                        Ok(_) => Ok(
                            seq![
                                run_two(
                                    Shader::Conv2dRequantReluI8 {
                                        image: image_of(
                                            sx.dims,
                                            so.dims[3],
                                            kernel,
                                            strides,
                                            pads,
                                        ),
                                        requant_scale,
                                        has_relu,
                                    },
                                    op.inputs[0],
                                    op.inputs[1],
                                    op.outputs[0],
                                ),
                            ],
                        ),
                    }
                },
            },
        }
    }
}

fn plan_fused_conv(
    graph: &Graph,
    op: &CompiledOp,
    kernel: &[usize; 2],
    strides: &[usize; 2],
    pads: &[usize; 4],
    group: usize,
    requant_scale: u32,
    has_relu: bool,
    path: Path,
) -> (r: Result<Vec<Command>, Error>)
    requires
        sizes_fit(graph@),
    ensures
        planned(r) == fused_conv_commands(
            graph@,
            op@,
            kernel@,
            strides@,
            pads@,
            group,
            requant_scale,
            has_relu,
            path,
        ),
{
    let front: &str = match path {
        Path::Dispatch => "conv2d_requant_relu_i8: ",
        Path::Record => "record_conv2d_requant_relu_i8: ",
    };
    if op.inputs.len() < 2 || op.outputs.len() == 0 {
        return Err(Error::Runtime(concat2(front, "needs \u{2265}2 inputs and 1 output")));
    }
    if group != 1 {
        let gt: String = dec_usize(group);
        return Err(Error::Runtime(concat4(front, "group=", gt.as_str(), " not supported")));
    }
    if op.inputs.len() > 2 {
        assert(op@.inputs[2] == op.inputs@[2]@);
        proof {
            reveal_strlit("");
        }
        if !str_eq(op.inputs[2].as_str(), "") {
            proof {
                if op@.inputs[2].len() == 0 {
                    assert(op@.inputs[2] =~= ""@);
                }
            }
            return Err(Error::Runtime(concat2(front, "bias must be folded at compile time")));
        }
    }
    assert(op@.inputs[0] == op.inputs@[0]@);
    assert(op@.inputs[1] == op.inputs@[1]@);
    assert(op@.outputs[0] == op.outputs@[0]@);
    let sx: &TensorShape = match find_shape(graph, &op.inputs[0]) {
        Ok(s) => s,
        Err(e) => {
            return Err(e);
        },
    };
    let so: &TensorShape = match find_shape(graph, &op.outputs[0]) {
        Ok(s) => s,
        Err(e) => {
            return Err(e);
        },
    };
    if sx.dims.len() != 4 || so.dims.len() != 4 {
        return Err(
            Error::Runtime(
                match path {
                    Path::Dispatch => concat2(front, "input and output must be 4D NHWC"),
                    Path::Record => concat2(front, "shapes must be 4D NHWC"),
                },
            ),
        );
    }
    match check_three(graph, &op.inputs[0], &op.inputs[1], &op.outputs[0]) {
        Err(e) => Err(e),
        Ok(_) => {
            let image: Image = make_image(&sx.dims, so.dims[3], kernel, strides, pads);
            Ok(
                just(
                    make_two(
                        Shader::Conv2dRequantReluI8 { image, requant_scale, has_relu },
                        &op.inputs[0],
                        &op.inputs[1],
                        &op.outputs[0],
                    ),
                ),
            )
        },
    }
}

// ---------------------------------------------------------------------------
// One op
// ---------------------------------------------------------------------------

/// The answer for an op that has no shader.
pub open spec fn unsupported_op(op_type: Seq<char>, path: Path) -> ErrorView {
    told(
        path,
        "op \""@ + op_type + "\" not yet supported by VulkanGraphRuntime"@,
        "op \""@ + op_type + "\" not yet supported by VulkanGraphRuntime (record path)"@,
    )
}

fn err_unsupported(op_type: &String, path: Path) -> (r: Error)
    ensures
        r@ == unsupported_op(op_type@, path),
{
    match path {
        Path::Dispatch => Error::Runtime(
            concat3("op \"", op_type.as_str(), "\" not yet supported by VulkanGraphRuntime"),
        ),
        Path::Record => Error::Runtime(
            concat3(
                "op \"",
                op_type.as_str(),
                "\" not yet supported by VulkanGraphRuntime (record path)",
            ),
        ),
    }
}

/// An op that the host works on, for want of a shader.
pub open spec fn is_host_op(p: ParamsView) -> bool {
    p is Sub || p is Div || p is Concat || p is Resize || p is Split || p is Transpose || p is Slice
}

/// The commands of an op that runs on the device.
pub open spec fn device_commands(g: GraphView, op: OpView, skip_bias: bool, path: Path) -> Result<
    Seq<CommandView>,
    ErrorView,
> {
    match op.params {
        ParamsView::Empty => if op.op_type == "Flatten"@ || op.op_type == "Reshape"@ {
            reshape_commands(g, op, path)
        } else if op.op_type == "Relu"@ {
            relu_commands(g, op, path)
        } else if op.op_type == "SiLU"@ {
            single_commands(
                g,
                op,
                Shader::SiluF32,
                told(path, "silu: missing input/output"@, "record_silu: missing input/output"@),
                told(
                    path,
                    "vk silu_f32 does not support in-place"@,
                    "record_silu: in-place not supported"@,
                ),
            )
        } else {
            Ok(Seq::empty())
        },
        ParamsView::Reshape { shape } => reshape_commands(g, op, path),
        ParamsView::Add => pair_commands(
            g,
            op,
            Shader::AddF32,
            told(
                path,
                "add: needs 2 inputs and 1 output"@,
                "record_add: needs 2 inputs and 1 output"@,
            ),
        ),
        ParamsView::Mul => pair_commands(
            g,
            op,
            Shader::MulF32,
            told(
                path,
                "mul: needs 2 inputs and 1 output"@,
                "record_mul: needs 2 inputs and 1 output"@,
            ),
        ),
        ParamsView::Sigmoid => single_commands(
            g,
            op,
            Shader::SigmoidF32,
            told(path, "sigmoid: missing input/output"@, "record_sigmoid: missing input/output"@),
            told(
                path,
                "vk sigmoid_f32 does not support in-place; compile_model should split"@,
                "record_sigmoid: in-place not supported"@,
            ),
        ),
        ParamsView::Clip { min, max } => clip_commands(g, op, min, max, path),
        ParamsView::Gemm { alpha, beta, trans_a, trans_b } => gemm_commands(
            g,
            op,
            trans_a,
            trans_b,
            path,
        ),
        ParamsView::Conv2d { kernel_shape, strides, pads, dilations, group } => conv_commands(
            g,
            op,
            kernel_shape,
            strides,
            pads,
            group,
            skip_bias,
            path,
        ),
        ParamsView::MaxPool { kernel_shape, strides, pads } => maxpool_commands(
            g,
            op,
            kernel_shape,
            strides,
            path,
        ),
        ParamsView::Softmax { axis } => softmax_commands(g, op, path),
        ParamsView::Requantize { scale } => single_commands(
            g,
            op,
            Shader::RequantizeI32ToI8 { scale },
            told(
                path,
                "requantize: missing input/output"@,
                "record_requantize: missing input/output"@,
            ),
            told(
                path,
                "requantize: in-place not supported"@,
                "record_requantize: in-place not supported"@,
            ),
        ),
        ParamsView::AddQuantized { scale_a_over_out, scale_b_over_out } => pair_commands(
            g,
            op,
            Shader::AddI8 { scale_a_over_out, scale_b_over_out },
            told(
                path,
                "add_q: needs 2 inputs + 1 output"@,
                "record_add_q: needs 2 inputs + 1 output"@,
            ),
        ),
        ParamsView::Quantize { scale } => single_commands(
            g,
            op,
            Shader::QuantizeF32ToI8 { scale },
            told(path, "quantize: missing input/output"@, "record_quantize: missing input/output"@),
            told(
                path,
                "quantize: in-place not supported"@,
                "record_quantize: in-place not supported"@,
            ),
        ),
        ParamsView::Dequantize { scale } => single_commands(
            g,
            op,
            Shader::DequantizeI8ToF32 { scale },
            told(
                path,
                "dequantize: missing input/output"@,
                "record_dequantize: missing input/output"@,
            ),
            told(
                path,
                "dequantize: in-place not supported"@,
                "record_dequantize: in-place not supported"@,
            ),
        ),
        ParamsView::Conv2dRequantReluI8Nhwc {
            kernel_shape,
            strides,
            pads,
            dilations,
            group,
            requant_scale,
            has_relu,
        } => fused_conv_commands(
            g,
            op,
            kernel_shape,
            strides,
            pads,
            group,
            requant_scale,
            has_relu,
            path,
        ),
        _ => Err(unsupported_op(op.op_type, path)),
    }
}

fn plan_plain(graph: &Graph, op: &CompiledOp, path: Path) -> (r: Result<Vec<Command>, Error>)
    requires
        sizes_fit(graph@),
        op.params is Empty,
    ensures
        planned(r) == device_commands(graph@, op@, false, path),
{
    if str_eq(op.op_type.as_str(), "Flatten") || str_eq(op.op_type.as_str(), "Reshape") {
        plan_reshape(graph, op, path)
    } else if str_eq(op.op_type.as_str(), "Relu") {
        plan_relu(graph, op, path)
    } else if str_eq(op.op_type.as_str(), "SiLU") {
        plan_single(
            graph,
            op,
            Shader::SiluF32,
            tell(path, "silu: missing input/output", "record_silu: missing input/output"),
            tell(
                path,
                "vk silu_f32 does not support in-place",
                "record_silu: in-place not supported",
            ),
        )
    } else {
        let none: Vec<Command> = Vec::new();
        assert(views(none@) =~= Seq::empty());
        Ok(none)
    }
}

/// Plan an op that runs on the device.
fn plan_device(graph: &Graph, op: &CompiledOp, skip_bias: bool, path: Path) -> (r: Result<
    Vec<Command>,
    Error,
>)
    requires
        sizes_fit(graph@),
    ensures
        planned(r) == device_commands(graph@, op@, skip_bias, path),
{
    match &op.params {
        OpParams::Empty => plan_plain(graph, op, path),
        OpParams::Reshape { shape } => plan_reshape(graph, op, path),
        OpParams::Add => plan_pair(
            graph,
            op,
            Shader::AddF32,
            tell(
                path,
                "add: needs 2 inputs and 1 output",
                "record_add: needs 2 inputs and 1 output",
            ),
        ),
        OpParams::Mul => plan_pair(
            graph,
            op,
            Shader::MulF32,
            tell(
                path,
                "mul: needs 2 inputs and 1 output",
                "record_mul: needs 2 inputs and 1 output",
            ),
        ),
        OpParams::Sigmoid => plan_single(
            graph,
            op,
            Shader::SigmoidF32,
            tell(path, "sigmoid: missing input/output", "record_sigmoid: missing input/output"),
            tell(
                path,
                "vk sigmoid_f32 does not support in-place; compile_model should split",
                "record_sigmoid: in-place not supported",
            ),
        ),
        OpParams::Clip { min, max } => plan_clip(graph, op, *min, *max, path),
        OpParams::Gemm { alpha, beta, trans_a, trans_b } => plan_gemm(
            graph,
            op,
            *trans_a,
            *trans_b,
            path,
        ),
        OpParams::Conv2d { kernel_shape, strides, pads, dilations, group } => plan_conv(
            graph,
            op,
            kernel_shape,
            strides,
            pads,
            *group,
            skip_bias,
            path,
        ),
        OpParams::MaxPool { kernel_shape, strides, pads } => plan_maxpool(
            graph,
            op,
            kernel_shape,
            strides,
            path,
        ),
        OpParams::Softmax { axis } => plan_softmax(graph, op, path),
        OpParams::Requantize { scale } => plan_single(
            graph,
            op,
            Shader::RequantizeI32ToI8 { scale: *scale },
            tell(
                path,
                "requantize: missing input/output",
                "record_requantize: missing input/output",
            ),
            tell(
                path,
                "requantize: in-place not supported",
                "record_requantize: in-place not supported",
            ),
        ),
        OpParams::AddQuantized { scale_a_over_out, scale_b_over_out } => plan_pair(
            graph,
            op,
            Shader::AddI8 {
                scale_a_over_out: *scale_a_over_out,
                scale_b_over_out: *scale_b_over_out,
            },
            tell(
                path,
                "add_q: needs 2 inputs + 1 output",
                "record_add_q: needs 2 inputs + 1 output",
            ),
        ),
        OpParams::Quantize { scale } => plan_single(
            graph,
            op,
            Shader::QuantizeF32ToI8 { scale: *scale },
            tell(path, "quantize: missing input/output", "record_quantize: missing input/output"),
            tell(
                path,
                "quantize: in-place not supported",
                "record_quantize: in-place not supported",
            ),
        ),
        OpParams::Dequantize { scale } => plan_single(
            graph,
            op,
            Shader::DequantizeI8ToF32 { scale: *scale },
            tell(
                path,
                "dequantize: missing input/output",
                "record_dequantize: missing input/output",
            ),
            tell(
                path,
                "dequantize: in-place not supported",
                "record_dequantize: in-place not supported",
            ),
        ),
        OpParams::Conv2dRequantReluI8Nhwc {
            kernel_shape,
            strides,
            pads,
            dilations,
            group,
            requant_scale,
            has_relu,
        } => plan_fused_conv(
            graph,
            op,
            kernel_shape,
            strides,
            pads,
            *group,
            *requant_scale,
            *has_relu,
            path,
        ),
        _ => Err(err_unsupported(&op.op_type, path)),
    }
}

fn check_host_op(op: &CompiledOp) -> (r: bool)
    ensures
        r == is_host_op(op@.params),
{
    match &op.params {
        OpParams::Sub
        | OpParams::Div
        | OpParams::Concat { .. }
        | OpParams::Resize { .. }
        | OpParams::Split { .. }
        | OpParams::Transpose { .. }
        | OpParams::Slice { .. } => true,
        _ => false,
    }
}

// ---------------------------------------------------------------------------
// A whole run
// ---------------------------------------------------------------------------

/// Some input of op `i` is an output of the op before it.
pub open spec fn depends_on_previous(ops: Seq<OpView>, i: int) -> bool {
    exists|k: int|
        0 <= k < ops[i].inputs.len() && ops[i - 1].outputs.contains(#[trigger] ops[i].inputs[k])
}

/// A list of commands that may have been cut short.
pub struct Plan {
    pub commands: Seq<CommandView>,
    /// A command buffer is open.
    pub open: bool,
    pub failure: Option<ErrorView>,
}

/// The commands of the first `n` ops. Device ops share a command buffer until
/// the host has to step in; an op that reads what the one before it writes
/// waits at a barrier.
pub open spec fn batched(g: GraphView, n: nat) -> Plan
    decreases n,
{
    if n == 0 {
        Plan { commands: Seq::empty(), open: false, failure: None }
    } else {
        let before = batched(g, (n - 1) as nat);
        let op = g.ops[n - 1];
        if before.failure is Some {
            before
        } else if is_host_op(op.params) {
            let flush = if before.open {
                seq![CommandView::Submit, CommandView::Synchronize]
            } else {
                Seq::empty()
            };
            Plan {
                commands: before.commands + flush + seq![CommandView::Host { op: (n - 1) as usize }],
                open: false,
                failure: None,
            }
        } else {
            let begin = if before.open {
                Seq::empty()
            } else {
                seq![CommandView::Begin]
            };
            let wait = if n > 1 && depends_on_previous(g.ops, n - 1) {
                seq![CommandView::Barrier]
            } else {
                Seq::empty()
            };
            match device_commands(g, op, false, Path::Record) {
                Ok(c) => Plan {
                    commands: before.commands + begin + wait + c,
                    open: true,
                    failure: None,
                },
                Err(e) => Plan {
                    commands: before.commands + begin + wait,
                    open: true,
                    failure: Some(e),
                },
            }
        }
    }
}

/// The commands of a run: what is left open is submitted, and the device is waited for.
pub open spec fn run_commands(g: GraphView) -> (Seq<CommandView>, Option<ErrorView>) {
    let p = batched(g, g.ops.len());
    if p.failure is Some {
        (p.commands, p.failure)
    } else if p.open {
        (p.commands + seq![CommandView::Submit, CommandView::Synchronize], None)
    } else {
        (p.commands + seq![CommandView::Synchronize], None)
    }
}

/// What an op that failed in a run on its own is reported as.
pub open spec fn op_failure(i: int, op: OpView, e: ErrorView) -> ErrorView {
    ErrorView::Runtime(
        "op["@ + dec_int(i) + "] "@ + op.name + " ("@ + op.op_type + ") failed: "@ + error_text(e),
    )
}

/// The commands of the first `n` ops, each on its own.
pub open spec fn unbatched(g: GraphView, skip_bias: bool, n: nat) -> Plan
    decreases n,
{
    if n == 0 {
        Plan { commands: Seq::empty(), open: false, failure: None }
    } else {
        let before = unbatched(g, skip_bias, (n - 1) as nat);
        let op = g.ops[n - 1];
        if before.failure is Some {
            before
        } else if is_host_op(op.params) {
            Plan {
                commands: before.commands.push(CommandView::Host { op: (n - 1) as usize }),
                ..before
            }
        } else {
            match device_commands(g, op, skip_bias, Path::Dispatch) {
                Ok(c) => Plan { commands: before.commands + c, ..before },
                Err(e) => Plan { failure: Some(op_failure(n - 1, op, e)), ..before },
            }
        }
    }
}

/// The commands of a run in which every op is on its own.
pub open spec fn unbatched_commands(g: GraphView, skip_bias: bool) -> (
    Seq<CommandView>,
    Option<ErrorView>,
) {
    let p = unbatched(g, skip_bias, g.ops.len());
    if p.failure is Some {
        (p.commands, p.failure)
    } else {
        (p.commands.push(CommandView::Synchronize), None)
    }
}

proof fn lemma_batched_stopped(g: GraphView, n: nat, m: nat)
    requires
        n <= m,
        batched(g, n).failure is Some,
    ensures
        batched(g, m) == batched(g, n),
    decreases m,
{
    if n < m {
        lemma_batched_stopped(g, n, (m - 1) as nat);
    }
}

proof fn lemma_unbatched_stopped(g: GraphView, skip_bias: bool, n: nat, m: nat)
    requires
        n <= m,
        unbatched(g, skip_bias, n).failure is Some,
    ensures
        unbatched(g, skip_bias, m) == unbatched(g, skip_bias, n),
    decreases m,
{
    if n < m {
        lemma_unbatched_stopped(g, skip_bias, n, (m - 1) as nat);
    }
}

fn append_commands(v: &mut Vec<Command>, w: Vec<Command>)
    ensures
        views(final(v)@) == views(old(v)@) + views(w@),
{
    let mut rest: Vec<Command> = w;
    v.append(&mut rest);
    assert(views(v@) =~= views(old(v)@) + views(w@));
}

// ---------------------------------------------------------------------------
// The runtime
// ---------------------------------------------------------------------------

/// Graph runtime that dispatches ops to the Vulkan compute backend.
pub struct VulkanGraphRuntime {
    graph: Graph,
}

impl View for VulkanGraphRuntime {
    type V = GraphView;

    closed spec fn view(&self) -> GraphView {
        self.graph@
    }
}

/// A run as a driver carries it out: the commands, and what stops the run after
/// them, if anything does.
#[derive(Debug)]
pub struct RunPlan {
    pub commands: Vec<Command>,
    pub failure: Option<Error>,
}

impl RunPlan {
    /// What stops the run.
    pub open spec fn failed(&self) -> Option<ErrorView> {
        match self.failure {
            Some(e) => Some(e@),
            None => None,
        }
    }
}

/// Buffers start at multiples of this many bytes.
pub const ALIGNMENT: usize = 256;

/// Room for fragmentation in a slab.
pub const HEADROOM: usize = 4_194_304;

/// The least size of a slab.
pub const LEAST_SLAB: usize = 16_777_216;

/// A size rounded up to whole multiples of the alignment.
pub open spec fn aligned(size: nat) -> nat {
    (size + 255) / 256 * 256
}

/// The room that the first `n` tensors take in a slab.
pub open spec fn slab_total(pairs: Seq<(Seq<char>, ShapeView)>, n: nat) -> nat
    decreases n,
{
    if n == 0 {
        0
    } else {
        slab_total(pairs, (n - 1) as nat) + aligned(bytes_in(pairs[n - 1].1))
    }
}

proof fn lemma_slab_grows(pairs: Seq<(Seq<char>, ShapeView)>, n: nat, m: nat)
    requires
        n <= m,
    ensures
        slab_total(pairs, n) <= slab_total(pairs, m),
    decreases m,
{
    if n < m {
        lemma_slab_grows(pairs, n, (m - 1) as nat);
    }
}

/// The size of a slab that holds so many bytes.
pub open spec fn slab_for(total: nat) -> nat {
    if total + HEADROOM > LEAST_SLAB {
        total + HEADROOM as nat
    } else {
        LEAST_SLAB as nat
    }
}

/// The bytes of an input.
pub open spec fn input_bytes(g: GraphView, name: Seq<char>, data: Seq<u32>) -> Result<
    Seq<u8>,
    ErrorView,
> {
    match buffer_size(g, name) {
        None => Err(ErrorView::Runtime("input not found: "@ + name)),
        Some(size) => match g.dtype {
            Dtype::F32 | Dtype::F16 => {
                let f = if g.dtype == Dtype::F32 {
                    Float::Single
                } else {
                    Float::Half
                };
                if size != data.len() * width(f) {
                    Err(
                        ErrorView::Runtime(
                            "input "@ + name + " size mismatch: buffer="@ + dec_int(size as int)
                                + " bytes, data="@ + dec_int((data.len() * width(f)) as int)
                                + " bytes"@,
                        ),
                    )
                } else {
                    Ok(encoded(f, data))
                }
            },
            Dtype::I8 => Err(
                ErrorView::Runtime(
                    "set_input_f32 on I8 graph requires explicit Quantize op or set_input_i8 (see Phase 3)"@,
                ),
            ),
            Dtype::I32 => Err(
                ErrorView::Runtime("set_input_f32: unsupported graph dtype I32"@),
            ),
        },
    }
}

/// The numbers of an output, given the bytes that were read back.
pub open spec fn output_numbers(g: GraphView, name: Seq<char>, bytes: Seq<u8>) -> Result<
    Seq<u32>,
    ErrorView,
> {
    match buffer_size(g, name) {
        None => Err(ErrorView::Runtime("output not found: "@ + name)),
        Some(size) => match g.dtype {
            Dtype::F32 => Ok(decoded(Float::Single, bytes)),
            Dtype::F16 => Ok(decoded(Float::Half, bytes)),
            Dtype::I8 => Err(
                ErrorView::Runtime(
                    "get_output_f32 on I8 graph requires explicit Dequantize op or get_output_i8 (see Phase 3)"@,
                ),
            ),
            Dtype::I32 => Err(
                ErrorView::Runtime("get_output_f32: unsupported graph dtype I32"@),
            ),
        },
    }
}

/// Whether raw bytes can go into a buffer: only where they have its size.
pub open spec fn raw_checked(g: GraphView, name: Seq<char>, len: int) -> Result<(), ErrorView> {
    match buffer_size(g, name) {
        None => Err(no_buffer(name)),
        Some(size) => if size != len {
            Err(
                ErrorView::Runtime(
                    "set_input_bytes "@ + name + ": size mismatch buffer="@ + dec_int(size as int)
                        + " bytes, data="@ + dec_int(len) + " bytes"@,
                ),
            )
        } else {
            Ok(())
        },
    }
}

/// An initializer that does not have the size of its buffer.
pub open spec fn refused(g: GraphView, k: Seq<char>) -> bool {
    g.initializers.dom().contains(k) && buffer_size(g, k) is Some && buffer_size(g, k) != Some(
        g.initializers[k].len(),
    )
}

/// The answer for an initializer that does not have the size of its buffer.
pub open spec fn upload_refused(g: GraphView, k: Seq<char>) -> ErrorView {
    ErrorView::Runtime(
        "initializer "@ + k + ": size mismatch buffer="@ + dec_int(bytes_in(g.shapes[k]) as int)
            + " bytes, data="@ + dec_int(g.initializers[k].len() as int) + " bytes"@,
    )
}

fn find_refused(graph: &Graph) -> (r: Option<Error>)
    requires
        sizes_fit(graph@),
    ensures
        match r {
            Some(e) => exists|k: Seq<char>| #[trigger]
                refused(graph@, k) && e@ == upload_refused(graph@, k),
            None => forall|k: Seq<char>| !#[trigger] refused(graph@, k),
        },
{
    let ghost g = graph@;
    let ghost pairs = graph.initializers.pairs();
    let n: usize = graph.initializers.len();
    let mut i: usize = 0;
    while i < n
        invariant
            i <= n == pairs.len(),
            g == graph@,
            sizes_fit(g),
            pairs == graph.initializers.pairs(),
            distinct_names(pairs),
            forall|k: Seq<char>| named_before(pairs, k, i as int) ==> !#[trigger] refused(g, k),
        decreases n - i,
    {
        let name: &String = graph.initializers.key_at(i);
        let data: &Vec<u8> = graph.initializers.value_at(i);
        proof {
            lemma_pair_in_map(pairs, i as int);
        }
        match find_size(graph, name.as_str()) {
            Some(size) => if data.len() != size {
                assert(refused(g, name@));
                let b: String = dec_usize(size);
                let d: String = dec_usize(data.len());
                let mut text: String = concat4(
                    "initializer ",
                    name.as_str(),
                    ": size mismatch buffer=",
                    b.as_str(),
                );
                text.append(" bytes, data=");
                text.append(d.as_str());
                text.append(" bytes");
                return Some(Error::Runtime(text));
            },
            None => {},
        }
        proof {
            assert forall|k: Seq<char>| named_before(pairs, k, i + 1) implies !#[trigger] refused(
                g,
                k,
            ) by {
                lemma_named_step(pairs, k, i as int);
            }
        }
        i = i + 1;
    }
    proof {
        assert forall|k: Seq<char>| !#[trigger] refused(g, k) by {
            lemma_named_all(pairs, k);
        }
    }
    None
}

/// What rectifies packed bytes.
pub open spec fn relu_i8_commands(g: GraphView, a: Seq<char>, out: Seq<char>) -> Result<
    Seq<CommandView>,
    ErrorView,
> {
    if a == out {
        Err(ErrorView::Runtime("relu_i8: in-place not supported"@))
    } else {
        match two_buffers(g, a, out) {
            Err(e) => Err(e),
            Ok(_) => Ok(seq![run_one(Shader::ReluI8, a, out)]),
        }
    }
}

/// What multiplies matrices of packed bytes.
pub open spec fn gemm_i8_commands(
    g: GraphView,
    a: Seq<char>,
    b: Seq<char>,
    c: Seq<char>,
    m: usize,
    n: usize,
    k: usize,
) -> Result<Seq<CommandView>, ErrorView> {
    match three_buffers(g, a, b, c) {
        Err(e) => Err(e),
        Ok(_) => Ok(seq![run_two(Shader::GemmI8 { m, n, k }, a, b, c)]),
    }
}

impl VulkanGraphRuntime {
    #[verifier::type_invariant]
    spec fn well_formed(&self) -> bool {
        sizes_fit(self.graph@) && forall|k: Seq<char>| !#[trigger] refused(self.graph@, k)
    }

    /// A runtime for a graph, whose tensors all have an index-sized number of
    /// bytes and whose initializers all have the size of their buffers. A
    /// convolution fused with a Relu is taken apart.
    ///
    /// Where several initializers do not have the size of their buffer, the
    /// error speaks of one of them.
    pub fn new(graph: Graph) -> (r: Result<VulkanGraphRuntime, Error>)
        ensures
            match r {
                Ok(rt) => sizes_fit(graph@) && (forall|k: Seq<char>|
                    !#[trigger] refused(graph@, k)) && rt@ == taken_apart(graph@, false),
                Err(e) => if sizes_fit(graph@) {
                    exists|k: Seq<char>| #[trigger]
                        refused(graph@, k) && e@ == upload_refused(graph@, k)
                } else {
                    e@ == size_overflow()
                },
            },
    {
        let ghost g = graph@;
        let ghost pairs = graph.shapes.pairs();
        let n: usize = graph.shapes.len();
        let mut i: usize = 0;
        while i < n
            invariant
                i <= n == pairs.len(),
                g == graph@,
                pairs == graph.shapes.pairs(),
                distinct_names(pairs),
                forall|k: Seq<char>| #[trigger]
                    named_before(pairs, k, i as int) ==> size_fits(g.shapes[k]),
            decreases n - i,
        {
            let shape: &TensorShape = graph.shapes.value_at(i);
            proof {
                lemma_pair_in_map(pairs, i as int);
            }
            if checked_size(shape).is_none() {
                assert(g.shapes.dom().contains(pairs[i as int].0));
                return Err(err_size_overflow());
            }
            proof {
                assert forall|k: Seq<char>| #[trigger]
                    named_before(pairs, k, i + 1) implies size_fits(g.shapes[k]) by {
                    lemma_named_step(pairs, k, i as int);
                }
            }
            i = i + 1;
        }
        proof {
            assert forall|k: Seq<char>| #[trigger] g.shapes.dom().contains(k) implies size_fits(
                g.shapes[k],
            ) by {
                lemma_named_all(pairs, k);
            }
        }
        match find_refused(&graph) {
            Some(e) => Err(e),
            None => {
                let apart: Graph = take_apart(graph, false);
                proof {
                    assert forall|k: Seq<char>| !#[trigger] refused(apart@, k) by {
                        assert(!refused(g, k));
                    }
                }
                Ok(VulkanGraphRuntime { graph: apart })
            },
        }
    }

    pub(crate) fn checked_graph(&self) -> (r: &Graph)
        ensures
            r@ == self@,
            sizes_fit(r@),
    {
        proof {
            use_type_invariant(&*self);
        }
        &self.graph
    }

    /// Whether some input of op `idx` is an output of the op before it.
    pub fn needs_barrier(ops: &Vec<CompiledOp>, idx: usize) -> (r: bool)
        requires
            0 < idx < ops@.len(),
        ensures
            r == depends_on_previous(views(ops@), idx as int),
    {
        let ghost all = views(ops@);
        assert(all[idx as int] == ops@[idx as int]@);
        assert(all[idx - 1] == ops@[idx - 1]@);
        let mut k: usize = 0;
        while k < ops[idx].inputs.len()
            invariant
                0 < idx < ops@.len(),
                all == views(ops@),
                all[idx as int] == ops@[idx as int]@,
                all[idx - 1] == ops@[idx - 1]@,
                k <= ops@[idx as int].inputs@.len(),
                forall|j: int|
                    0 <= j < k ==> !all[idx - 1].outputs.contains(#[trigger] all[idx as int].inputs[j]),
            decreases ops@[idx as int].inputs@.len() - k,
        {
            assert(all[idx as int].inputs[k as int] == ops@[idx as int].inputs@[k as int]@);
            if contains_name(&ops[idx - 1].outputs, ops[idx].inputs[k].as_str()) {
                return true;
            }
            k = k + 1;
        }
        false
    }

    /// The compiled graph, as it runs.
    pub fn graph(&self) -> (r: &Graph)
        ensures
            r@ == self@,
    {
        &self.graph
    }

    /// Input tensor names + shapes (for caller introspection).
    pub fn inputs(&self) -> (r: Vec<(&str, &TensorShape)>)
        ensures
            pair_views(r@) == named_shapes(self@.inputs, self@.shapes, self@.inputs.len()),
    {
        self.graph.input_info()
    }

    /// Output tensor names + shapes.
    pub fn outputs(&self) -> (r: Vec<(&str, &TensorShape)>)
        ensures
            pair_views(r@) == named_shapes(self@.outputs, self@.shapes, self@.outputs.len()),
    {
        self.graph.output_info()
    }

    /// The size of a tensor's buffer in bytes; empty tensors have none.
    pub fn buffer_len(&self, name: &str) -> (r: Option<usize>)
        ensures
            match r {
                Some(n) => buffer_size(self@, name@) == Some(n as nat),
                None => buffer_size(self@, name@) is None,
            },
    {
        proof {
            use_type_invariant(&*self);
        }
        find_size(&self.graph, name)
    }

    /// Whether an initializer goes into a tensor's buffer.
    pub fn is_uploaded(&self, name: &str) -> (r: bool)
        ensures
            r == (self@.initializers.dom().contains(name@) && buffer_size(self@, name@) == Some(
                self@.initializers[name@].len(),
            )),
            r == (self@.initializers.dom().contains(name@) && buffer_size(self@, name@) is Some),
    {
        proof {
            use_type_invariant(&*self);
            assert(!refused(self.graph@, name@));
        }
        match (self.graph.initializers.get(name), find_size(&self.graph, name)) {
            (Some(_), Some(_)) => true,
            _ => false,
        }
    }

    /// The size of one slab for all tensors, if it is an index-sized number.
    pub fn slab_size(&self) -> (r: Option<usize>)
        ensures
            exists|pairs: Seq<(Seq<char>, ShapeView)>|
                #![trigger map_of(pairs)]
                distinct_names(pairs) && map_of(pairs) == self@.shapes && match r {
                    Some(n) => n == slab_for(slab_total(pairs, pairs.len())),
                    None => slab_for(slab_total(pairs, pairs.len())) > usize::MAX,
                },
    {
        proof {
            use_type_invariant(&*self);
        }
        let ghost pairs = self.graph.shapes.pairs();
        let n: usize = self.graph.shapes.len();
        let mut total: u128 = 0;
        let mut i: usize = 0;
        while i < n
            invariant
                i <= n == pairs.len(),
                pairs == self.graph.shapes.pairs(),
                distinct_names(pairs),
                sizes_fit(self.graph@),
                total == slab_total(pairs, i as nat),
            decreases n - i,
        {
            let shape: &TensorShape = self.graph.shapes.value_at(i);
            proof {
                lemma_pair_in_map(pairs, i as int);
                assert(self.graph@.shapes.dom().contains(pairs[i as int].0));
            }
            let size: usize = match checked_size(shape) {
                Some(s) => s,
                None => {
                    assert(false);
                    0
                },
            };
            let room: u128 = (size as u128 + 255) / 256 * 256;
            if total > usize::MAX as u128 {
                proof {
                    lemma_slab_grows(pairs, i as nat, n as nat);
                    assert(map_of(pairs) == self@.shapes);
                }
                return None;
            }
            total = total + room;
            i = i + 1;
        }
        assert(map_of(pairs) == self@.shapes);
        if total > (usize::MAX - HEADROOM) as u128 {
            return None;
        }
        let wanted: usize = total as usize + HEADROOM;
        if wanted > LEAST_SLAB {
            Some(wanted)
        } else {
            Some(LEAST_SLAB)
        }
    }

    /// The bytes to upload for an input (bits of F32 data).
    pub fn set_input_f32(&self, name: &str, data: &[u32]) -> (r: Result<Vec<u8>, Error>)
        ensures
            outcome(r) == input_bytes(self@, name@, data@),
    {
        proof {
            use_type_invariant(&*self);
        }
        let size: usize = match find_size(&self.graph, name) {
            Some(n) => n,
            None => {
                return Err(Error::Runtime(concat2("input not found: ", name)));
            },
        };
        let f: Float = match self.graph.dtype {
            Dtype::F32 => Float::Single,
            Dtype::F16 => Float::Half,
            Dtype::I8 => {
                return Err(
                    Error::Runtime(
                        "set_input_f32 on I8 graph requires explicit Quantize op or set_input_i8 (see Phase 3)".to_owned(),
                    ),
                );
            },
            Dtype::I32 => {
                return Err(
                    Error::Runtime("set_input_f32: unsupported graph dtype I32".to_owned()),
                );
            },
        };
        let v: Vec<u32> = vstd::slice::slice_to_vec(data);
        let bytes: Vec<u8> = encode(f, &v);
        assert(bytes@.len() == data@.len() * width(f)) by {
            assert(4 * data@.len() == data@.len() * 4 && 2 * data@.len() == data@.len() * 2);
        }
        if bytes.len() != size {
            let b: String = dec_usize(size);
            let d: String = dec_usize(bytes.len());
            let mut text: String = concat4("input ", name, " size mismatch: buffer=", b.as_str());
            text.append(" bytes, data=");
            text.append(d.as_str());
            text.append(" bytes");
            return Err(Error::Runtime(text));
        }
        Ok(bytes)
    }

    /// The numbers of an output (bits of F32 data), given the bytes that were read back.
    pub fn get_output_f32(&self, name: &str, bytes: &[u8]) -> (r: Result<Vec<u32>, Error>)
        ensures
            outcome(r) == output_numbers(self@, name@, bytes@),
    {
        proof {
            use_type_invariant(&*self);
        }
        if find_size(&self.graph, name).is_none() {
            return Err(Error::Runtime(concat2("output not found: ", name)));
        }
        match self.graph.dtype {
            Dtype::F32 => Ok(decode(Float::Single, bytes)),
            Dtype::F16 => Ok(decode(Float::Half, bytes)),
            Dtype::I8 => Err(
                Error::Runtime(
                    "get_output_f32 on I8 graph requires explicit Dequantize op or get_output_i8 (see Phase 3)".to_owned(),
                ),
            ),
            Dtype::I32 => Err(
                Error::Runtime("get_output_f32: unsupported graph dtype I32".to_owned()),
            ),
        }
    }

    /// Check raw bytes that are to be uploaded to a buffer.
    pub fn set_input_bytes(&self, name: &str, len: usize) -> (r: Result<(), Error>)
        ensures
            checked(r) == raw_checked(self@, name@, len as int),
    {
        proof {
            use_type_invariant(&*self);
        }
        match find_size(&self.graph, name) {
            None => Err(Error::Runtime(concat2("buffer not found: ", name))),
            Some(size) => if size != len {
                let b: String = dec_usize(size);
                let d: String = dec_usize(len);
                let mut text: String = concat4(
                    "set_input_bytes ",
                    name,
                    ": size mismatch buffer=",
                    b.as_str(),
                );
                text.append(" bytes, data=");
                text.append(d.as_str());
                text.append(" bytes");
                Err(Error::Runtime(text))
            } else {
                Ok(())
            },
        }
    }

    /// The number of bytes to read back from a buffer.
    pub fn get_output_bytes(&self, name: &str) -> (r: Result<usize, Error>)
        ensures
            match r {
                Ok(n) => buffer_size(self@, name@) == Some(n as nat),
                Err(e) => buffer_size(self@, name@) is None && e@ == no_buffer(name@),
            },
    {
        match self.buffer_len(name) {
            Some(n) => Ok(n),
            None => Err(Error::Runtime(concat2("buffer not found: ", name))),
        }
    }

    /// Put zero in place of packed bytes below it.
    pub fn dispatch_relu_i8(&self, in_name: &String, out_name: &String) -> (r: Result<
        Vec<Command>,
        Error,
    >)
        ensures
            planned(r) == relu_i8_commands(self@, in_name@, out_name@),
    {
        proof {
            use_type_invariant(&*self);
        }
        if str_eq(in_name.as_str(), out_name.as_str()) {
            return Err(Error::Runtime("relu_i8: in-place not supported".to_owned()));
        }
        match check_two(&self.graph, in_name, out_name) {
            Ok(_) => Ok(just(make_one(Shader::ReluI8, in_name, out_name))),
            Err(e) => Err(e),
        }
    }

    /// Multiply matrices of packed bytes.
    pub fn dispatch_gemm_i8(
        &self,
        a_name: &String,
        b_name: &String,
        c_name: &String,
        m: usize,
        n: usize,
        k: usize,
    ) -> (r: Result<Vec<Command>, Error>)
        ensures
            planned(r) == gemm_i8_commands(self@, a_name@, b_name@, c_name@, m, n, k),
    {
        proof {
            use_type_invariant(&*self);
        }
        match check_three(&self.graph, a_name, b_name, c_name) {
            Ok(_) => Ok(just(make_two(Shader::GemmI8 { m, n, k }, a_name, b_name, c_name))),
            Err(e) => Err(e),
        }
    }

    /// Plan all ops in graph order, device ops in shared command buffers.
    pub fn run(&self) -> (r: RunPlan)
        ensures
            (views(r.commands@), r.failed()) == run_commands(self@),
    {
        proof {
            use_type_invariant(&*self);
        }
        let ghost g = self@;
        let mut commands: Vec<Command> = Vec::new();
        assert(views(commands@) =~= Seq::empty());
        let mut open: bool = false;
        let n: usize = self.graph.ops.len();
        let mut i: usize = 0;
        while i < n
            invariant
                i <= n == g.ops.len(),
                g == self.graph@,
                g == self@,
                sizes_fit(g),
                batched(g, i as nat) == (Plan { commands: views(commands@), open, failure: None }),
            decreases n - i,
        {
            broadcast use lemma_views_push;

            let op: &CompiledOp = &self.graph.ops[i];
            assert(g.ops[i as int] == op@);
            let ghost before = views(commands@);
            if check_host_op(op) {
                if open {
                    commands.push(Command::Submit);
                    commands.push(Command::Synchronize);
                }
                commands.push(Command::Host { op: i });
                assert(views(commands@) =~= batched(g, (i + 1) as nat).commands);
                open = false;
            } else {
                if !open {
                    commands.push(Command::Begin);
                    open = true;
                }
                if i > 0 && Self::needs_barrier(&self.graph.ops, i) {
                    commands.push(Command::Barrier);
                }
                match plan_device(&self.graph, op, false, Path::Record) {
                    Ok(c) => {
                        append_commands(&mut commands, c);
                        assert(views(commands@) =~= batched(g, (i + 1) as nat).commands);
                    },
                    Err(e) => {
                        proof {
                            assert(views(commands@) =~= batched(g, (i + 1) as nat).commands);
                            lemma_batched_stopped(g, (i + 1) as nat, n as nat);
                        }
                        return RunPlan { commands, failure: Some(e) };
                    },
                }
            }
            i = i + 1;
        }
        let ghost before = views(commands@);
        if open {
            commands.push(Command::Submit);
            commands.push(Command::Synchronize);
            assert(views(commands@) =~= before + seq![
                CommandView::Submit,
                CommandView::Synchronize,
            ]);
        } else {
            commands.push(Command::Synchronize);
            assert(views(commands@) =~= before + seq![CommandView::Synchronize]);
        }
        RunPlan { commands, failure: None }
    }

    /// Plan all ops in graph order, each on its own; `skip_bias` leaves the bias
    /// of convolutions out.
    pub fn run_unbatched(&self, skip_bias: bool) -> (r: RunPlan)
        ensures
            (views(r.commands@), r.failed()) == unbatched_commands(self@, skip_bias),
    {
        proof {
            use_type_invariant(&*self);
        }
        let ghost g = self@;
        let mut commands: Vec<Command> = Vec::new();
        assert(views(commands@) =~= Seq::empty());
        let n: usize = self.graph.ops.len();
        let mut i: usize = 0;
        while i < n
            invariant
                i <= n == g.ops.len(),
                g == self.graph@,
                g == self@,
                sizes_fit(g),
                unbatched(g, skip_bias, i as nat) == (Plan {
                    commands: views(commands@),
                    open: false,
                    failure: None,
                }),
            decreases n - i,
        {
            broadcast use lemma_views_push;

            let op: &CompiledOp = &self.graph.ops[i];
            assert(g.ops[i as int] == op@);
            if check_host_op(op) {
                commands.push(Command::Host { op: i });
            } else {
                match plan_device(&self.graph, op, skip_bias, Path::Dispatch) {
                    Ok(c) => {
                        append_commands(&mut commands, c);
                    },
                    Err(e) => {
                        let it: String = dec_usize(i);
                        let mut text: String = concat4("op[", it.as_str(), "] ", op.name.as_str());
                        let why: String = e.message();
                        text.append(" (");
                        text.append(op.op_type.as_str());
                        text.append(") failed: ");
                        text.append(why.as_str());
                        proof {
                            lemma_unbatched_stopped(g, skip_bias, (i + 1) as nat, n as nat);
                        }
                        return RunPlan { commands, failure: Some(Error::Runtime(text)) };
                    },
                }
            }
            i = i + 1;
        }
        let ghost before = views(commands@);
        commands.push(Command::Synchronize);
        assert(views(commands@) =~= before.push(CommandView::Synchronize));
        RunPlan { commands, failure: None }
    }
}

// ---------------------------------------------------------------------------
// Laws
// ---------------------------------------------------------------------------

/// An input that was uploaded reads back as it is stored: unchanged in a graph
/// of singles, rounded to halves in a graph of halves.
pub proof fn law_input_reads_back(g: GraphView, name: Seq<char>, data: Seq<u32>)
    requires
        input_bytes(g, name, data) is Ok,
    ensures
        output_numbers(g, name, input_bytes(g, name, data)->Ok_0) == Ok::<Seq<u32>, ErrorView>(
            stored(
                if g.dtype == Dtype::F32 {
                    Float::Single
                } else {
                    Float::Half
                },
                data,
            ),
        ),
{
    let f = if g.dtype == Dtype::F32 {
        Float::Single
    } else {
        Float::Half
    };
    let bytes = encoded(f, data);
    law_written_numbers_read_back(f, data, Seq::empty());
    assert(bytes + Seq::<u8>::empty() =~= bytes);
}

/// A slab has room for every tensor, each at a multiple of the alignment.
pub proof fn law_slab_holds_every_tensor(pairs: Seq<(Seq<char>, ShapeView)>, i: int)
    requires
        0 <= i < pairs.len(),
    ensures
        slab_total(pairs, i as nat) % 256 == 0,
        slab_total(pairs, i as nat) + bytes_in(pairs[i].1) <= slab_for(
            slab_total(pairs, pairs.len()),
        ),
{
    lemma_slab_aligned(pairs, i as nat);
    lemma_slab_grows(pairs, (i + 1) as nat, pairs.len());
    let size = bytes_in(pairs[i].1);
    assert(aligned(size) >= size);
}

proof fn lemma_slab_aligned(pairs: Seq<(Seq<char>, ShapeView)>, n: nat)
    ensures
        slab_total(pairs, n) % 256 == 0,
    decreases n,
{
    if n > 0 {
        lemma_slab_aligned(pairs, (n - 1) as nat);
        let size = bytes_in(pairs[n - 1].1);
        assert(aligned(size) % 256 == 0);
    }
}

/// Commands go into an open command buffer only, and one is opened only when none is.
pub open spec fn in_order(c: Seq<CommandView>, n: nat) -> Option<bool>
    decreases n,
{
    if n == 0 {
        Some(false)
    } else {
        match (in_order(c, (n - 1) as nat), c[n - 1]) {
            (Some(false), CommandView::Begin) => Some(true),
            (Some(true), CommandView::Barrier) => Some(true),
            (Some(true), CommandView::Run { .. }) => Some(true),
            (Some(true), CommandView::Submit) => Some(false),
            (Some(false), CommandView::Synchronize) => Some(false),
            (Some(false), CommandView::Host { .. }) => Some(false),
            _ => None,
        }
    }
}

/// A command that belongs in a command buffer.
pub open spec fn is_recorded(c: CommandView) -> bool {
    c is Barrier || c is Run
}

/// A run that is not stopped records into an open command buffer only, submits
/// every one that it opens, and lets the host work only while none is open.
pub proof fn law_run_is_in_order(g: GraphView)
    requires
        run_commands(g).1 is None,
    ensures
        in_order(run_commands(g).0, run_commands(g).0.len()) == Some(false),
{
    let p = batched(g, g.ops.len());
    lemma_batched_in_order(g, g.ops.len());
    let c = run_commands(g).0;
    lemma_in_order_extends(p.commands, c, p.commands.len());
    if p.open {
        assert(in_order(c, (p.commands.len() + 1) as nat) == Some(false));
    }
}

proof fn lemma_in_order_extends(a: Seq<CommandView>, b: Seq<CommandView>, n: nat)
    requires
        n <= a.len(),
        n <= b.len(),
        forall|k: int| 0 <= k < n ==> a[k] == b[k],
    ensures
        in_order(a, n) == in_order(b, n),
    decreases n,
{
    if n > 0 {
        lemma_in_order_extends(a, b, (n - 1) as nat);
    }
}

proof fn lemma_recorded_stays_open(a: Seq<CommandView>, c: Seq<CommandView>, n: nat)
    requires
        in_order(a, a.len()) == Some(true),
        n <= c.len(),
        forall|k: int| 0 <= k < c.len() ==> is_recorded(#[trigger] c[k]),
    ensures
        in_order(a + c, (a.len() + n) as nat) == Some(true),
    decreases n,
{
    if n == 0 {
        lemma_in_order_extends(a, a + c, a.len());
    } else {
        lemma_recorded_stays_open(a, c, (n - 1) as nat);
        assert((a + c)[a.len() + n - 1] == c[n - 1]);
    }
}

proof fn lemma_recorded_commands(g: GraphView, op: OpView, skip_bias: bool)
    requires
        device_commands(g, op, skip_bias, Path::Record) is Ok,
    ensures
        forall|k: int|
            0 <= k < device_commands(g, op, skip_bias, Path::Record)->Ok_0.len() ==> is_recorded(
                #[trigger] device_commands(g, op, skip_bias, Path::Record)->Ok_0[k],
            ),
{
}

proof fn lemma_batched_in_order(g: GraphView, n: nat)
    requires
        n <= g.ops.len(),
        batched(g, n).failure is None,
    ensures
        in_order(batched(g, n).commands, batched(g, n).commands.len()) == Some(batched(g, n).open),
    decreases n,
{
    if n > 0 {
        lemma_batched_in_order(g, (n - 1) as nat);
        let before = batched(g, (n - 1) as nat);
        let after = batched(g, n);
        let op = g.ops[n - 1];
        let a = before.commands;
        let b = after.commands;
        if is_host_op(op.params) {
            lemma_in_order_extends(a, b, a.len());
            if before.open {
                assert(in_order(b, (a.len() + 1) as nat) == Some(false));
                assert(in_order(b, (a.len() + 2) as nat) == Some(false));
            }
        } else {
            let c = device_commands(g, op, false, Path::Record)->Ok_0;
            lemma_recorded_commands(g, op, false);
            let begin = if before.open {
                Seq::empty()
            } else {
                seq![CommandView::Begin]
            };
            let opened = a + begin;
            lemma_in_order_extends(a, opened, a.len());
            if before.open {
                assert(opened =~= a);
            }
            assert(in_order(opened, opened.len()) == Some(true));
            let wait = if n > 1 && depends_on_previous(g.ops, n - 1) {
                seq![CommandView::Barrier]
            } else {
                Seq::empty()
            };
            let rest = wait + c;
            assert forall|k: int| 0 <= k < rest.len() implies is_recorded(#[trigger] rest[k]) by {
                if k >= wait.len() {
                    assert(rest[k] == c[k - wait.len()]);
                }
            }
            lemma_recorded_stays_open(opened, rest, rest.len());
            assert(b =~= opened + rest);
        }
    }
}

} // verus!
