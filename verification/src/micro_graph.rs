//! A tiny image classifier, end to end.
//!
//! ```text
//! Input: 1x28x28x1 (NHWC)
//!   Conv 3x3, 1 to 16, pad 1    1x28x28x16
//!   ReLU
//!   MaxPool 2x2, stride 2       1x14x14x16
//!   Conv 3x3, 16 to 32, pad 1   1x14x14x32
//!   ReLU
//!   MaxPool 2x2, stride 2       1x7x7x32
//!   Flatten                     1x1568
//!   Gemm 1568 to 10             1x10
//!   Softmax                     1x10
//! ```
//!
//! Input and weights are pseudo-random. The layers are the work of kernels; what
//! they are given, and what their last answer comes to, is decided here.

use vstd::prelude::*;
use crate::calibration::zeros;
use crate::ieee::{
    add32, difference32, div32, from_whole, is_nan32, less32, lt32, mul32, nan32, product32,
    quotient32, root32, single_of, sqrt32, sub32, ONE,
};
use crate::model::{copy_vec, views};
use crate::runtime::cpu::{
    is_answer, make_call_1, make_call_2, one_call, zero_singles, CallView, Image, Kernel,
    KernelCall, KernelView, Numbers, NumbersView, Threads,
};
use crate::scales::{magnitude, sum_of};

verus! {

/// Bits of the singles `2^64`, 2, 0.5, 0.1 and 0.0001.
pub const RANGE: u32 = 0x5f80_0000;

pub const TWO: u32 = 0x4000_0000;

pub const ONE_HALF: u32 = 0x3f00_0000;

pub const TENTH: u32 = 0x3dcc_cccd;

pub const TOLERANCE: u32 = 0x38d1_b717;

// ---------------------------------------------------------------------------
// Pseudo-random numbers
// ---------------------------------------------------------------------------

/// The state after a state.
pub open spec fn shifted(s: u64) -> u64 {
    let a = s ^ (s << 13u64);
    let b = a ^ (a >> 7u64);
    b ^ (b << 17u64)
}

/// The state after `n` steps.
pub open spec fn shifted_by(s: u64, n: nat) -> u64
    decreases n,
{
    if n == 0 {
        s
    } else {
        shifted(shifted_by(s, (n - 1) as nat))
    }
}

/// The state that a seed starts from.
pub open spec fn first_state(seed: u64) -> u64 {
    if seed == 0 {
        1
    } else {
        seed
    }
}

/// A state as a single between -1 and 1.
pub open spec fn spread(s: u64) -> u32 {
    difference32(product32(quotient32(single_of(s as nat), RANGE), TWO), ONE)
}

/// The `n` singles between `-scale` and `scale` that follow a state.
pub open spec fn scaled_run(s: u64, n: nat, scale: u32) -> Seq<u32> {
    Seq::new(n, |i: int| product32(spread(shifted_by(s, (i + 1) as nat)), scale))
}

proof fn lemma_shifted_nonzero(s: u64)
    requires
        s != 0,
    ensures
        shifted(s) != 0,
{
    assert(s != 0 ==> {
        let a = s ^ (s << 13u64);
        let b = a ^ (a >> 7u64);
        b ^ (b << 17u64) != 0
    }) by (bit_vector);
}

/// The generator never runs into the state zero, from which it would not move.
pub proof fn law_states_nonzero(seed: u64, n: nat)
    ensures
        shifted_by(first_state(seed), n) != 0,
    decreases n,
{
    if n > 0 {
        law_states_nonzero(seed, (n - 1) as nat);
        lemma_shifted_nonzero(shifted_by(first_state(seed), (n - 1) as nat));
    }
}

/// Random number generator (Xorshift64).
#[derive(Debug)]
pub struct Rng {
    state: u64,
}

impl View for Rng {
    type V = u64;

    closed spec fn view(&self) -> u64 {
        self.state
    }
}

impl Rng {
    /// Create a new generator with the given seed.
    pub fn new(seed: u64) -> (r: Rng)
        ensures
            r@ == first_state(seed),
    {
        if seed == 0 {
            Rng { state: 1 }
        } else {
            Rng { state: seed }
        }
    }

    /// Generate the next number of 64 bits.
    pub fn next_u64(&mut self) -> (r: u64)
        ensures
            r == shifted(old(self)@),
            final(self)@ == r,
    {
        let s: u64 = self.state;
        let a: u64 = s ^ (s << 13u64);
        let b: u64 = a ^ (a >> 7u64);
        let c: u64 = b ^ (b << 17u64);
        self.state = c;
        c
    }

    /// Generate the bits of a single between -1 and 1.
    pub fn next_f32(&mut self) -> (r: u32)
        ensures
            final(self)@ == shifted(old(self)@),
            r == spread(final(self)@),
    {
        let s: u64 = self.next_u64();
        sub32(mul32(div32(from_whole(s), RANGE), TWO), ONE)
    }

    /// Generate `n` singles between `-scale` and `scale`.
    fn make_scaled(&mut self, n: usize, scale: u32) -> (r: Vec<u32>)
        ensures
            final(self)@ == shifted_by(old(self)@, n as nat),
            r@ == scaled_run(old(self)@, n as nat, scale),
    {
        let mut v: Vec<u32> = zeros(n);
        self.fill_f32_scaled(&mut v, scale);
        v
    }

    /// Fill a buffer with bits of singles between `-scale` and `scale`.
    pub fn fill_f32_scaled(&mut self, data: &mut Vec<u32>, scale: u32)
        ensures
            final(self)@ == shifted_by(old(self)@, old(data)@.len()),
            final(data)@ == scaled_run(old(self)@, old(data)@.len(), scale),
    {
        let ghost start = self@;
        let n: usize = data.len();
        let ghost all = scaled_run(start, n as nat, scale);
        let mut i: usize = 0;
        while i < n
            invariant
                i <= n == data@.len(),
                self@ == shifted_by(start, i as nat),
                all == scaled_run(start, n as nat, scale),
                forall|k: int| 0 <= k < i ==> #[trigger] data@[k] == all[k],
            decreases n - i,
        {
            let x: u32 = self.next_f32();
            assert(self@ == shifted_by(start, (i + 1) as nat));
            data.set(i, mul32(x, scale));
            i = i + 1;
        }
        assert(data@ =~= all);
    }
}

// ---------------------------------------------------------------------------
// Layers
// ---------------------------------------------------------------------------

/// Input and weights.
pub struct WeightsView {
    pub input: Seq<u32>,
    pub conv1: Seq<u32>,
    pub conv2: Seq<u32>,
    pub fc: Seq<u32>,
}

/// Input and weights.
struct Weights {
    input: Vec<u32>,
    conv1: Vec<u32>,
    conv2: Vec<u32>,
    fc: Vec<u32>,
}

impl View for Weights {
    type V = WeightsView;

    closed spec fn view(&self) -> WeightsView {
        WeightsView {
            input: self.input@,
            conv1: self.conv1@,
            conv2: self.conv2@,
            fc: self.fc@,
        }
    }
}

/// The input and the weights that a seed gives. The input stays within 0.5, the
/// kernels within 0.1, and the last weights within the root of 2/1568.
pub open spec fn weights_of(seed: u64) -> WeightsView {
    let a = first_state(seed);
    let b = shifted_by(a, 784);
    let c = shifted_by(b, 144);
    let d = shifted_by(c, 4608);
    WeightsView {
        input: scaled_run(a, 784, ONE_HALF),
        conv1: scaled_run(b, 144, TENTH),
        conv2: scaled_run(c, 4608, TENTH),
        fc: scaled_run(d, 15680, root32(quotient32(TWO, single_of(1568)))),
    }
}

fn make_weights(seed: u64) -> (r: Weights)
    ensures
        r@ == weights_of(seed),
{
    let mut rng: Rng = Rng::new(seed);
    let input: Vec<u32> = rng.make_scaled(784, ONE_HALF);
    let conv1: Vec<u32> = rng.make_scaled(144, TENTH);
    let conv2: Vec<u32> = rng.make_scaled(4608, TENTH);
    let scale: u32 = sqrt32(div32(TWO, from_whole(1568)));
    let fc: Vec<u32> = rng.make_scaled(15680, scale);
    Weights { input, conv1, conv2, fc }
}

/// What a layer with square windows moves over.
pub open spec fn square_image(
    side: usize,
    c_in: usize,
    c_out: usize,
    window: usize,
    stride: usize,
    pad: usize,
) -> Image {
    Image {
        n: 1,
        h_in: side,
        w_in: side,
        c_in,
        c_out,
        k_h: window,
        k_w: window,
        stride_h: stride,
        stride_w: stride,
        pad_h: pad,
        pad_w: pad,
    }
}

fn make_image(
    side: usize,
    c_in: usize,
    c_out: usize,
    window: usize,
    stride: usize,
    pad: usize,
) -> (r: Image)
    ensures
        r == square_image(side, c_in, c_out, window, stride, pad),
{
    Image {
        n: 1,
        h_in: side,
        w_in: side,
        c_in,
        c_out,
        k_h: window,
        k_w: window,
        stride_h: stride,
        stride_w: stride,
        pad_h: pad,
        pad_w: pad,
    }
}

/// The kernel of a layer.
pub open spec fn layer_kernel(i: int, threads: Threads) -> KernelView {
    if i == 0 {
        KernelView::Conv { image: square_image(28, 1, 16, 3, 1, 1), threads }
    } else if i == 1 || i == 4 {
        KernelView::Relu
    } else if i == 2 {
        KernelView::MaxPool { image: square_image(28, 16, 16, 2, 2, 0) }
    } else if i == 3 {
        KernelView::Conv { image: square_image(14, 16, 32, 3, 1, 1), threads }
    } else if i == 5 {
        KernelView::MaxPool { image: square_image(14, 32, 32, 2, 2, 0) }
    } else if i == 6 {
        KernelView::Gemm { m: 1, n: 10, k: 1568, threads }
    } else {
        KernelView::Softmax { last_dim: 10 }
    }
}

fn make_kernel(i: usize, threads: Threads) -> (r: Kernel)
    requires
        i < 8,
    ensures
        r@ == layer_kernel(i as int, threads),
{
    if i == 0 {
        Kernel::Conv { image: make_image(28, 1, 16, 3, 1, 1), threads }
    } else if i == 1 || i == 4 {
        Kernel::Relu
    } else if i == 2 {
        Kernel::MaxPool { image: make_image(28, 16, 16, 2, 2, 0) }
    } else if i == 3 {
        Kernel::Conv { image: make_image(14, 16, 32, 3, 1, 1), threads }
    } else if i == 5 {
        Kernel::MaxPool { image: make_image(14, 32, 32, 2, 2, 0) }
    } else if i == 6 {
        Kernel::Gemm { m: 1, n: 10, k: 1568, threads }
    } else {
        Kernel::Softmax { last_dim: 10 }
    }
}

/// The number of elements that a layer puts out.
pub open spec fn layer_size(i: int) -> nat {
    if i <= 1 {
        12544
    } else if i == 2 {
        3136
    } else if i <= 4 {
        6272
    } else if i == 5 {
        1568
    } else {
        10
    }
}

fn find_layer_size(i: usize) -> (r: usize)
    ensures
        r == layer_size(i as int),
{
    if i <= 1 {
        12544
    } else if i == 2 {
        3136
    } else if i <= 4 {
        6272
    } else if i == 5 {
        1568
    } else {
        10
    }
}

/// The weights that a layer reads beside what comes from the layer before.
pub open spec fn layer_weights(w: WeightsView, i: int) -> Option<Seq<u32>> {
    if i == 0 {
        Some(w.conv1)
    } else if i == 3 {
        Some(w.conv2)
    } else if i == 6 {
        Some(w.fc)
    } else {
        None
    }
}

/// What a layer asks of its kernel, given what comes from the layer before.
pub open spec fn layer_call(w: WeightsView, threads: Threads, i: int, before: Seq<u32>) -> CallView {
    one_call(
        layer_kernel(i, threads),
        match layer_weights(w, i) {
            Some(weights) => seq![NumbersView::Singles(before), NumbersView::Singles(weights)],
            None => seq![NumbersView::Singles(before)],
        },
        zero_singles(layer_size(i)),
    )
}

fn make_layer_call(w: &Weights, threads: Threads, i: usize, before: Vec<u32>) -> (r: KernelCall)
    requires
        i < 8,
    ensures
        r@ == layer_call(w@, threads, i as int, before@),
{
    let kernel: Kernel = make_kernel(i, threads);
    let fresh: Numbers = Numbers::Singles(zeros(find_layer_size(i)));
    let x: Numbers = Numbers::Singles(before);
    if i == 0 {
        make_call_2(kernel, x, Numbers::Singles(copy_vec(&w.conv1)), fresh)
    } else if i == 3 {
        make_call_2(kernel, x, Numbers::Singles(copy_vec(&w.conv2)), fresh)
    } else if i == 6 {
        make_call_2(kernel, x, Numbers::Singles(copy_vec(&w.fc)), fresh)
    } else {
        make_call_1(kernel, x, fresh)
    }
}

/// The side of what a square window leaves.
pub open spec fn side_after(image: Image) -> int {
    (image.h_in + 2 * image.pad_h - image.k_h) / (image.stride_h as int) + 1
}

/// The number of elements that a layer takes in from the one before.
pub open spec fn taken_size(i: int) -> nat {
    if i == 0 {
        784
    } else {
        layer_size(i - 1)
    }
}

/// The layers fit together: what a layer takes in is what its kernel reads, the
/// weights have the size of its windows, and what it puts out is what its windows leave.
pub proof fn law_layers_fit(seed: u64, threads: Threads, i: int)
    requires
        0 <= i < 8,
    ensures
        match layer_kernel(i, threads) {
            KernelView::Conv { image, .. } => {
                &&& taken_size(i) == image.n * image.h_in * image.w_in * image.c_in
                &&& layer_weights(weights_of(seed), i) is Some
                &&& layer_weights(weights_of(seed), i)->0.len() == image.k_h * image.k_w
                    * image.c_in * image.c_out
                &&& layer_size(i) == image.n * side_after(image) * side_after(image) * image.c_out
            },
            KernelView::MaxPool { image } => {
                &&& taken_size(i) == image.n * image.h_in * image.w_in * image.c_in
                &&& layer_size(i) == image.n * side_after(image) * side_after(image) * image.c_in
            },
            KernelView::Gemm { m, n, k, .. } => {
                &&& taken_size(i) == m * k
                &&& layer_weights(weights_of(seed), i) is Some
                &&& layer_weights(weights_of(seed), i)->0.len() == k * n
                &&& layer_size(i) == m * n
            },
            KernelView::Softmax { last_dim } => taken_size(i) == last_dim && layer_size(i)
                == last_dim,
            _ => taken_size(i) == layer_size(i),
        },
{
    match layer_kernel(i, threads) {
        KernelView::Gemm { m, n, k, .. } => {
            assert(m * k == 1568 && k * n == 15680 && m * n == 10) by (nonlinear_arith)
                requires
                    m == 1,
                    n == 10,
                    k == 1568,
            ;
        },
        _ => {},
    }
    let conv1 = square_image(28, 1, 16, 3, 1, 1);
    let pool1 = square_image(28, 16, 16, 2, 2, 0);
    let conv2 = square_image(14, 16, 32, 3, 1, 1);
    let pool2 = square_image(14, 32, 32, 2, 2, 0);
    assert(side_after(conv1) == 28);
    assert(side_after(pool1) == 14);
    assert(side_after(conv2) == 14);
    assert(side_after(pool2) == 7);
    assert(conv1.n * conv1.h_in * conv1.w_in * conv1.c_in == 784) by (nonlinear_arith)
        requires
            conv1.n == 1,
            conv1.h_in == 28,
            conv1.w_in == 28,
            conv1.c_in == 1,
    ;
    assert(conv1.n * side_after(conv1) * side_after(conv1) * conv1.c_out == 12544) by (nonlinear_arith)
        requires
            conv1.n == 1,
            side_after(conv1) == 28,
            conv1.c_out == 16,
    ;
    assert(conv1.k_h * conv1.k_w * conv1.c_in * conv1.c_out == 144) by (nonlinear_arith)
        requires
            conv1.k_h == 3,
            conv1.k_w == 3,
            conv1.c_in == 1,
            conv1.c_out == 16,
    ;
    assert(pool1.n * pool1.h_in * pool1.w_in * pool1.c_in == 12544) by (nonlinear_arith)
        requires
            pool1.n == 1,
            pool1.h_in == 28,
            pool1.w_in == 28,
            pool1.c_in == 16,
    ;
    assert(pool1.n * side_after(pool1) * side_after(pool1) * pool1.c_out == 3136) by (nonlinear_arith)
        requires
            pool1.n == 1,
            side_after(pool1) == 14,
            pool1.c_out == 16,
    ;
    assert(conv2.n * conv2.h_in * conv2.w_in * conv2.c_in == 3136) by (nonlinear_arith)
        requires
            conv2.n == 1,
            conv2.h_in == 14,
            conv2.w_in == 14,
            conv2.c_in == 16,
    ;
    assert(conv2.n * side_after(conv2) * side_after(conv2) * conv2.c_out == 6272) by (nonlinear_arith)
        requires
            conv2.n == 1,
            side_after(conv2) == 14,
            conv2.c_out == 32,
    ;
    assert(conv2.k_h * conv2.k_w * conv2.c_in * conv2.c_out == 4608) by (nonlinear_arith)
        requires
            conv2.k_h == 3,
            conv2.k_w == 3,
            conv2.c_in == 16,
            conv2.c_out == 32,
    ;
    assert(pool2.n * pool2.h_in * pool2.w_in * pool2.c_in == 6272) by (nonlinear_arith)
        requires
            pool2.n == 1,
            pool2.h_in == 14,
            pool2.w_in == 14,
            pool2.c_in == 32,
    ;
    assert(pool2.n * side_after(pool2) * side_after(pool2) * pool2.c_out == 1568) by (nonlinear_arith)
        requires
            pool2.n == 1,
            side_after(pool2) == 7,
            pool2.c_out == 32,
    ;
}

// ---------------------------------------------------------------------------
// Running
// ---------------------------------------------------------------------------

/// Why a run did not succeed.
#[derive(Debug, Clone, Copy, PartialEq, Eq, Structural)]
pub enum Fault {
    /// The outputs do not add up to one; the bits of what they add up to.
    Sum(u32),
    /// An output is negative or not a number.
    Value,
    /// A kernel did not return as many numbers as it was asked for.
    Kernel,
}

/// Result of running the micro-graph.
#[derive(Debug)]
pub struct MicroGraphResult {
    /// Bits of the outputs (10 values after softmax).
    pub output: [u32; 10],
    /// Whether the graph executed successfully.
    pub success: bool,
    /// What went wrong, if anything.
    pub error: Option<Fault>,
}

/// The contents of a [`MicroGraphResult`].
pub struct ResultView {
    pub output: Seq<u32>,
    pub success: bool,
    pub error: Option<Fault>,
}

impl View for MicroGraphResult {
    type V = ResultView;

    open spec fn view(&self) -> ResultView {
        ResultView { output: self.output@, success: self.success, error: self.error }
    }
}

/// An output that softmax cannot have put out.
pub open spec fn is_bad(x: u32) -> bool {
    less32(x, 0) || nan32(x)
}

/// What is wrong with the outputs: they add up to one within the tolerance, and
/// none is negative or not a number.
pub open spec fn fault_in(out: Seq<u32>) -> Option<Fault> {
    let sum = sum_of(out, out.len());
    if less32(TOLERANCE, magnitude(difference32(sum, ONE))) {
        Some(Fault::Sum(sum))
    } else if exists|i: int| 0 <= i < out.len() && is_bad(#[trigger] out[i]) {
        Some(Fault::Value)
    } else {
        None
    }
}

/// Outputs with what is wrong with them.
pub open spec fn judged(out: Seq<u32>) -> ResultView {
    ResultView { output: out, success: fault_in(out) is None, error: fault_in(out) }
}

/// What is returned when a kernel fails.
pub open spec fn kernel_failed() -> ResultView {
    ResultView {
        output: Seq::new(10, |i: int| 0u32),
        success: false,
        error: Some(Fault::Kernel),
    }
}

/// Judge the outputs of the last layer.
pub fn judge(out: &Vec<u32>) -> (r: MicroGraphResult)
    requires
        out@.len() == 10,
    ensures
        r@ == judged(out@),
{
    let output: [u32; 10] = [
        out[0],
        out[1],
        out[2],
        out[3],
        out[4],
        out[5],
        out[6],
        out[7],
        out[8],
        out[9],
    ];
    assert(output@ =~= out@);
    let mut sum: u32 = out[0];
    let mut i: usize = 1;
    while i < 10
        invariant
            1 <= i <= 10 == out@.len(),
            sum == sum_of(out@, i as nat),
        decreases 10 - i,
    {
        sum = add32(sum, out[i]);
        i = i + 1;
    }
    if lt32(TOLERANCE, sub32(sum, ONE) & 0x7fff_ffff) {
        return MicroGraphResult { output, success: false, error: Some(Fault::Sum(sum)) };
    }
    let mut j: usize = 0;
    while j < 10
        invariant
            j <= 10 == out@.len(),
            output@ == out@,
            sum == sum_of(out@, out@.len()),
            !less32(TOLERANCE, magnitude(difference32(sum, ONE))),
            forall|k: int| 0 <= k < j ==> !is_bad(#[trigger] out@[k]),
        decreases 10 - j,
    {
        if lt32(out[j], 0) || is_nan32(out[j]) {
            assert(is_bad(out@[j as int]));
            return MicroGraphResult { output, success: false, error: Some(Fault::Value) };
        }
        j = j + 1;
    }
    MicroGraphResult { output, success: true, error: None }
}

/// Whether an answer is one buffer of `n` singles.
pub open spec fn fits(answer: Seq<NumbersView>, n: nat) -> bool {
    answer.len() == 1 && (answer[0] matches NumbersView::Singles(v) && v.len() == n)
}

/// The singles of an answer that fits.
pub open spec fn singles_of(answer: Seq<NumbersView>) -> Seq<u32> {
    answer[0]->Singles_0
}

/// Whether the first `n` answers fit.
pub open spec fn all_fit(answers: Seq<Seq<NumbersView>>, n: int) -> bool {
    forall|i: int| 0 <= i < n ==> fits(#[trigger] answers[i], layer_size(i))
}

/// What a layer takes in.
pub open spec fn taken(w: WeightsView, answers: Seq<Seq<NumbersView>>, i: int) -> Seq<u32> {
    if i == 0 {
        w.input
    } else {
        singles_of(answers[i - 1])
    }
}

/// Whether the answers are those of the kernels: each layer is asked only when the
/// answers before it fit.
pub open spec fn are_layer_answers<K: Fn(KernelCall) -> Vec<Numbers>>(
    kernels: K,
    seed: u64,
    threads: Threads,
    answers: Seq<Seq<NumbersView>>,
) -> bool {
    let w = weights_of(seed);
    forall|i: int|
        0 <= i < 8 && all_fit(answers, i) ==> is_answer(
            kernels,
            layer_call(w, threads, i, taken(w, answers, i)),
            #[trigger] answers[i],
        )
}

/// What a run comes to, given the answers of the kernels.
pub open spec fn run_result(answers: Seq<Seq<NumbersView>>) -> ResultView {
    if all_fit(answers, 8) {
        judged(singles_of(answers[7]))
    } else {
        kernel_failed()
    }
}

/// Whether kernels answer a question in one way only.
pub open spec fn is_repeatable<K: Fn(KernelCall) -> Vec<Numbers>>(kernels: K) -> bool {
    forall|c: CallView, a: Seq<NumbersView>, b: Seq<NumbersView>|
        #[trigger] is_answer(kernels, c, a) && #[trigger] is_answer(kernels, c, b) ==> a == b
}

proof fn lemma_same_answers<K: Fn(KernelCall) -> Vec<Numbers>>(
    kernels: K,
    seed: u64,
    threads: Threads,
    a: Seq<Seq<NumbersView>>,
    b: Seq<Seq<NumbersView>>,
    n: int,
)
    requires
        is_repeatable(kernels),
        are_layer_answers(kernels, seed, threads, a),
        are_layer_answers(kernels, seed, threads, b),
        0 <= n <= 8,
    ensures
        all_fit(a, n) == all_fit(b, n),
        all_fit(a, n) ==> forall|i: int| 0 <= i < n ==> a[i] == #[trigger] b[i],
    decreases n,
{
    if n > 0 {
        lemma_same_answers(kernels, seed, threads, a, b, n - 1);
        let w = weights_of(seed);
        if all_fit(a, n - 1) {
            let c = layer_call(w, threads, n - 1, taken(w, a, n - 1));
            assert(taken(w, a, n - 1) == taken(w, b, n - 1));
            assert(is_answer(kernels, c, a[n - 1]));
            assert(is_answer(kernels, c, b[n - 1]));
            assert(a[n - 1] == b[n - 1]);
            if all_fit(a, n) {
                assert forall|i: int| 0 <= i < n implies fits(#[trigger] b[i], layer_size(i)) by {
                    assert(fits(a[i], layer_size(i)));
                    assert(a[i] == b[i]);
                }
            }
            if all_fit(b, n) {
                assert forall|i: int| 0 <= i < n implies fits(#[trigger] a[i], layer_size(i)) by {
                    assert(fits(b[i], layer_size(i)));
                    assert(a[i] == b[i]);
                }
            }
        } else {
            if all_fit(a, n) {
                assert(all_fit(a, n - 1));
            }
            if all_fit(b, n) {
                assert(all_fit(b, n - 1));
            }
        }
    }
}

/// The same seed gives the same result, whatever kernels do the work, so long as
/// they answer a question in one way only.
pub proof fn law_same_seed_same_result<K: Fn(KernelCall) -> Vec<Numbers>>(
    kernels: K,
    seed: u64,
    threads: Threads,
    a: Seq<Seq<NumbersView>>,
    b: Seq<Seq<NumbersView>>,
)
    requires
        is_repeatable(kernels),
        are_layer_answers(kernels, seed, threads, a),
        are_layer_answers(kernels, seed, threads, b),
    ensures
        run_result(a) == run_result(b),
{
    lemma_same_answers(kernels, seed, threads, a, b, 8);
    if all_fit(a, 8) {
        assert(a[7] == b[7]);
    }
}

/// A run succeeds if and only if every kernel returned as many numbers as it was
/// asked for, and the outputs add up to one with none negative or not a number.
pub proof fn law_success_means_sound(answers: Seq<Seq<NumbersView>>)
    ensures
        run_result(answers).success == (run_result(answers).error is None),
        run_result(answers).success ==> {
            let out = run_result(answers).output;
            &&& all_fit(answers, 8)
            &&& out.len() == 10
            &&& !less32(TOLERANCE, magnitude(difference32(sum_of(out, 10), ONE)))
            &&& forall|i: int| 0 <= i < 10 ==> !less32(#[trigger] out[i], 0) && !nan32(out[i])
        },
{
    if all_fit(answers, 8) {
        let out = singles_of(answers[7]);
        assert(fits(answers[7], layer_size(7)));
        if run_result(answers).success {
            assert forall|i: int| 0 <= i < 10 implies !less32(#[trigger] out[i], 0) && !nan32(
                out[i],
            ) by {
                assert(!is_bad(out[i]));
            }
        }
    }
}

fn fit_answer(answer: Vec<Numbers>, n: usize) -> (r: Option<Vec<u32>>)
    ensures
        match r {
            Some(v) => fits(views(answer@), n as nat) && v@ == singles_of(views(answer@)),
            None => !fits(views(answer@), n as nat),
        },
{
    if answer.len() != 1 {
        return None;
    }
    assert(views(answer@)[0] == answer@[0]@);
    match &answer[0] {
        Numbers::Singles(v) => if v.len() == n {
            Some(copy_vec(v))
        } else {
            None
        },
        Numbers::Halves(_) => None,
    }
}

/// Run the layers; `threads` says which the heavy kernels are.
fn run_layers<K: Fn(KernelCall) -> Vec<Numbers>>(seed: u64, threads: Threads, kernels: &K) -> (r:
    MicroGraphResult)
    requires
        forall|c: KernelCall| call_requires(*kernels, (c,)),
    ensures
        exists|answers: Seq<Seq<NumbersView>>|
            #[trigger] run_result(answers) == r@ && are_layer_answers(
                *kernels,
                seed,
                threads,
                answers,
            ),
{
    let w: Weights = make_weights(seed);
    let ghost wv = weights_of(seed);
    let ghost mut all: Seq<Seq<NumbersView>> = Seq::empty();
    let mut x: Vec<u32> = copy_vec(&w.input);
    let mut i: usize = 0;
    while i < 8
        invariant
            i <= 8,
            w@ == wv,
            wv == weights_of(seed),
            forall|c: KernelCall| call_requires(*kernels, (c,)),
            all.len() == i,
            all_fit(all, i as int),
            x@ == taken(wv, all, i as int),
            x@.len() == taken_size(i as int),
            forall|k: int|
                0 <= k < i ==> is_answer(
                    *kernels,
                    layer_call(wv, threads, k, taken(wv, all, k)),
                    #[trigger] all[k],
                ),
        decreases 8 - i,
    {
        let ghost before = all;
        let call: KernelCall = make_layer_call(&w, threads, i, x);
        let ghost asked = call@;
        let answer: Vec<Numbers> = kernels(call);
        let ghost got = views(answer@);
        assert(is_answer(*kernels, asked, got));
        proof {
            all = before.push(got);
            assert forall|k: int| 0 <= k < i + 1 implies is_answer(
                *kernels,
                layer_call(wv, threads, k, taken(wv, all, k)),
                #[trigger] all[k],
            ) by {
                assert(taken(wv, all, k) == taken(wv, before, k));
                if k < i {
                    assert(all[k] == before[k]);
                }
            }
            assert forall|k: int| 0 <= k < i implies fits(#[trigger] all[k], layer_size(k)) by {
                assert(all[k] == before[k]);
            }
        }
        match fit_answer(answer, find_layer_size(i)) {
            Some(v) => {
                x = v;
            },
            None => {
                let none: MicroGraphResult = MicroGraphResult {
                    output: [0, 0, 0, 0, 0, 0, 0, 0, 0, 0],
                    success: false,
                    error: Some(Fault::Kernel),
                };
                proof {
                    assert(none.output@ =~= Seq::new(10, |i: int| 0u32));
                    assert(!fits(all[i as int], layer_size(i as int)));
                    assert(!all_fit(all, 8));
                    assert forall|k: int| 0 <= k < 8 && all_fit(all, k) implies is_answer(
                        *kernels,
                        layer_call(wv, threads, k, taken(wv, all, k)),
                        #[trigger] all[k],
                    ) by {
                        if k > i {
                            assert(fits(all[i as int], layer_size(i as int)));
                        }
                    }
                    assert(are_layer_answers(*kernels, seed, threads, all));
                    assert(run_result(all) == none@);
                }
                return none;
            },
        }
        assert(all_fit(all, i + 1));
        i = i + 1;
    }
    let r: MicroGraphResult = judge(&x);
    assert(are_layer_answers(*kernels, seed, threads, all));
    assert(run_result(all) == r@);
    r
}

/// Run the micro-graph on the CPU with the naive kernels; `kernels` does the work
/// of the layers.
///
/// Returns the 10 outputs of softmax.
pub fn run_cpu<K: Fn(KernelCall) -> Vec<Numbers>>(seed: u64, kernels: &K) -> (r: MicroGraphResult)
    requires
        forall|c: KernelCall| call_requires(*kernels, (c,)),
    ensures
        exists|answers: Seq<Seq<NumbersView>>|
            #[trigger] run_result(answers) == r@ && are_layer_answers(
                *kernels,
                seed,
                Threads::Naive,
                answers,
            ),
{
    run_layers(seed, Threads::Naive, kernels)
}

/// Run the micro-graph on the CPU, the convolutions and the matrix product with
/// several threads.
pub fn run_cpu_mt<K: Fn(KernelCall) -> Vec<Numbers>>(
    seed: u64,
    num_threads: usize,
    kernels: &K,
) -> (r: MicroGraphResult)
    requires
        forall|c: KernelCall| call_requires(*kernels, (c,)),
    ensures
        exists|answers: Seq<Seq<NumbersView>>|
            #[trigger] run_result(answers) == r@ && are_layer_answers(
                *kernels,
                seed,
                Threads::Threaded(num_threads),
                answers,
            ),
{
    run_layers(seed, Threads::Threaded(num_threads), kernels)
}

// ---------------------------------------------------------------------------
// Comparing
// ---------------------------------------------------------------------------

/// Why two results are not the same.
#[derive(Debug, Clone, Copy, PartialEq, Eq, Structural)]
pub enum Difference {
    /// The first run failed.
    First(Option<Fault>),
    /// The second run failed.
    Second(Option<Fault>),
    /// Two outputs are further apart than the tolerance; all but `index` are bits.
    Mismatch { index: usize, a: u32, b: u32, diff: u32, tol: u32 },
}

/// How far apart two singles are.
pub open spec fn distance(a: u32, b: u32) -> u32 {
    magnitude(difference32(a, b))
}

/// The largest distance between the first `n` elements.
pub open spec fn largest_distance(a: Seq<u32>, b: Seq<u32>, n: nat) -> u32
    decreases n,
{
    if n == 0 {
        0
    } else {
        let before = largest_distance(a, b, (n - 1) as nat);
        let d = distance(a[n - 1], b[n - 1]);
        if less32(before, d) {
            d
        } else {
            before
        }
    }
}

/// Whether elements are further apart than a tolerance.
pub open spec fn is_apart(a: Seq<u32>, b: Seq<u32>, tol: u32, i: int) -> bool {
    less32(tol, distance(a[i], b[i]))
}

/// The first elements that are further apart than a tolerance, from `i` on.
pub open spec fn first_apart(a: Seq<u32>, b: Seq<u32>, tol: u32, i: int) -> Option<int>
    decreases a.len() - i,
{
    if i >= a.len() || i >= b.len() {
        None
    } else if is_apart(a, b, tol, i) {
        Some(i)
    } else {
        first_apart(a, b, tol, i + 1)
    }
}

/// How two results compare.
pub open spec fn comparison(a: ResultView, b: ResultView, tol: u32) -> Result<u32, Difference> {
    if !a.success {
        Err(Difference::First(a.error))
    } else if !b.success {
        Err(Difference::Second(b.error))
    } else {
        match first_apart(a.output, b.output, tol, 0) {
            Some(i) => Err(
                Difference::Mismatch {
                    index: i as usize,
                    a: a.output[i],
                    b: b.output[i],
                    diff: distance(a.output[i], b.output[i]),
                    tol,
                },
            ),
            None => Ok(largest_distance(a.output, b.output, 10)),
        }
    }
}

/// Compare two micro-graph results for parity: the largest distance between their
/// outputs, or what is different.
pub fn compare_results(a: &MicroGraphResult, b: &MicroGraphResult, tol: u32) -> (r: Result<
    u32,
    Difference,
>)
    ensures
        r == comparison(a@, b@, tol),
{
    if !a.success {
        return Err(Difference::First(a.error));
    }
    if !b.success {
        return Err(Difference::Second(b.error));
    }
    let mut max_diff: u32 = 0;
    let mut i: usize = 0;
    while i < 10
        invariant
            i <= 10,
            a.success,
            b.success,
            max_diff == largest_distance(a@.output, b@.output, i as nat),
            first_apart(a@.output, b@.output, tol, 0) == first_apart(
                a@.output,
                b@.output,
                tol,
                i as int,
            ),
        decreases 10 - i,
    {
        let diff: u32 = sub32(a.output[i], b.output[i]) & 0x7fff_ffff;
        if lt32(max_diff, diff) {
            max_diff = diff;
        }
        if lt32(tol, diff) {
            return Err(
                Difference::Mismatch {
                    index: i,
                    a: a.output[i],
                    b: b.output[i],
                    diff,
                    tol,
                },
            );
        }
        i = i + 1;
    }
    Ok(max_diff)
}

} // verus!
