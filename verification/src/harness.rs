//! Cross-backend parity tests.
//!
//! The same work is done by a CPU and by a device, and the results are compared.
//! Both are handed in as functions; which work they do, in which order, and what
//! their answers come to is decided here.

use vstd::prelude::*;
use vstd::string::*;
use crate::generators::{
    axpy_test_data, between, fill_test_data, gemm_test_data, relu_test_data, run_between, size_from,
    state_after, HUNDRED, MINUS_HUNDRED, MINUS_ONE, MINUS_TEN, TEN,
};
use crate::ieee::{lt32, sub32, ONE};
use crate::micro_graph::{distance, first_apart, largest_distance};
use crate::model::{copy_vec, lemma_views_push, views};
use crate::proto::{bytes_of_words32, from_words32, to_words32, words32};
use crate::text::{concat3, concat4, dec_int, dec_usize};

pub mod comparing;

verus! {

/// Bits of a single that is not a number.
pub const NOT_A_NUMBER: u32 = 0x7fc0_0000;

/// Configuration for parity tests.
#[derive(Debug, Clone)]
pub struct TestConfig {
    /// Bits of the tolerance for element-wise ops (fill, axpy, relu).
    pub elementwise_tol: u32,
    /// Bits of the tolerance for matrix products, where errors add up.
    pub gemm_tol: u32,
    /// Number of random test cases per op.
    pub num_trials: usize,
    /// Base seed for random number generation.
    pub seed: u64,
    /// Print verbose output.
    pub verbose: bool,
}

impl Default for TestConfig {
    /// `1e-5` for element-wise ops, `1e-3` for matrix products, five trials.
    fn default() -> (r: TestConfig)
        ensures
            r.elementwise_tol == 0x3727_c5ac,
            r.gemm_tol == 0x3a83_126f,
            r.num_trials == 5,
            r.seed == 0xdead_beef_cafe_babe,
            !r.verbose,
    {
        TestConfig {
            elementwise_tol: 0x3727_c5ac,
            gemm_tol: 0x3a83_126f,
            num_trials: 5,
            seed: 0xdead_beef_cafe_babe,
            verbose: false,
        }
    }
}

// ---------------------------------------------------------------------------
// Results
// ---------------------------------------------------------------------------

/// Why a test failed.
#[derive(Debug, Clone)]
pub enum Fault {
    /// The device failed.
    Device(String),
    /// The device did not return as many numbers as the CPU.
    Length { expected: usize, actual: usize },
    /// Two numbers are too far apart: their place, and the bits of both and of their distance.
    Mismatch { index: usize, expected: u32, actual: u32, diff: u32 },
}

/// The contents of a [`Fault`].
pub enum FaultView {
    Device(Seq<char>),
    Length { expected: usize, actual: usize },
    Mismatch { index: usize, expected: u32, actual: u32, diff: u32 },
}

impl View for Fault {
    type V = FaultView;

    open spec fn view(&self) -> FaultView {
        match *self {
            Fault::Device(text) => FaultView::Device(text@),
            Fault::Length { expected, actual } => FaultView::Length { expected, actual },
            Fault::Mismatch { index, expected, actual, diff } => FaultView::Mismatch {
                index,
                expected,
                actual,
                diff,
            },
        }
    }
}

/// Result of a single test.
#[derive(Debug, Clone)]
pub struct TestResult {
    /// Name of the test.
    pub name: String,
    /// Whether the test passed.
    pub passed: bool,
    /// What went wrong, if the test failed.
    pub error: Option<Fault>,
    /// Bits of the largest distance observed.
    pub max_diff: u32,
}

/// The contents of a [`TestResult`].
pub struct ResultView {
    pub name: Seq<char>,
    pub passed: bool,
    pub error: Option<FaultView>,
    pub max_diff: u32,
}

impl View for TestResult {
    type V = ResultView;

    open spec fn view(&self) -> ResultView {
        ResultView {
            name: self.name@,
            passed: self.passed,
            error: match self.error {
                Some(e) => Some(e@),
                None => None,
            },
            max_diff: self.max_diff,
        }
    }
}

/// The number of the first `n` results that passed, or that did not.
pub open spec fn count_passed(results: Seq<ResultView>, passed: bool, n: nat) -> nat
    decreases n,
{
    if n == 0 {
        0
    } else {
        count_passed(results, passed, (n - 1) as nat) + (if results[n - 1].passed == passed {
            1nat
        } else {
            0nat
        })
    }
}

/// Every test passed or failed.
pub proof fn law_passed_or_failed(results: Seq<ResultView>, n: nat)
    requires
        n <= results.len(),
    ensures
        count_passed(results, true, n) + count_passed(results, false, n) == n,
        (count_passed(results, false, n) == 0) == (forall|i: int|
            0 <= i < n ==> (#[trigger] results[i]).passed),
    decreases n,
{
    if n > 0 {
        law_passed_or_failed(results, (n - 1) as nat);
        if forall|i: int| 0 <= i < n ==> (#[trigger] results[i]).passed {
            assert(results[n - 1].passed);
        }
    }
}

/// Collection of test results.
#[derive(Debug)]
pub struct TestResults {
    /// Individual test results.
    pub results: Vec<TestResult>,
}

impl Default for TestResults {
    fn default() -> (r: TestResults)
        ensures
            r.results@.len() == 0,
    {
        TestResults { results: Vec::new() }
    }
}

impl TestResults {
    fn count(&self, passed: bool) -> (r: usize)
        ensures
            r == count_passed(views(self.results@), passed, self.results@.len()),
    {
        let mut n: usize = 0;
        let mut i: usize = 0;
        while i < self.results.len()
            invariant
                i <= self.results@.len(),
                n <= i,
                n == count_passed(views(self.results@), passed, i as nat),
            decreases self.results@.len() - i,
        {
            assert(views(self.results@)[i as int] == self.results@[i as int]@);
            if self.results[i].passed == passed {
                n = n + 1;
            }
            i = i + 1;
        }
        n
    }

    /// Count passed tests.
    pub fn passed(&self) -> (r: usize)
        ensures
            r == count_passed(views(self.results@), true, self.results@.len()),
    {
        self.count(true)
    }

    /// Count failed tests.
    pub fn failed(&self) -> (r: usize)
        ensures
            r == count_passed(views(self.results@), false, self.results@.len()),
    {
        self.count(false)
    }

    /// Returns true if all tests passed.
    pub fn all_passed(&self) -> (r: bool)
        ensures
            r == forall|i: int| 0 <= i < self.results@.len() ==> (#[trigger] self.results@[i]).passed,
    {
        let mut i: usize = 0;
        while i < self.results.len()
            invariant
                i <= self.results@.len(),
                forall|k: int| 0 <= k < i ==> (#[trigger] self.results@[k]).passed,
            decreases self.results@.len() - i,
        {
            if !self.results[i].passed {
                return false;
            }
            i = i + 1;
        }
        true
    }
}

// ---------------------------------------------------------------------------
// Comparing
// ---------------------------------------------------------------------------

/// What a comparison of two buffers comes to: it passes where no two numbers are
/// further apart than the tolerance, and speaks of the first two that are.
pub open spec fn compared(name: Seq<char>, expected: Seq<u32>, actual: Seq<u32>, tol: u32) -> ResultView {
    if expected.len() != actual.len() {
        ResultView {
            name,
            passed: false,
            error: Some(
                FaultView::Length {
                    expected: expected.len() as usize,
                    actual: actual.len() as usize,
                },
            ),
            max_diff: NOT_A_NUMBER,
        }
    } else {
        let max_diff = largest_distance(expected, actual, expected.len());
        match first_apart(expected, actual, tol, 0) {
            Some(i) => ResultView {
                name,
                passed: false,
                error: Some(
                    FaultView::Mismatch {
                        index: i as usize,
                        expected: expected[i],
                        actual: actual[i],
                        diff: distance(expected[i], actual[i]),
                    },
                ),
                max_diff,
            },
            None => ResultView { name, passed: true, error: None, max_diff },
        }
    }
}

/// Compare two buffers of singles with tolerance.
pub fn compare_f32(name: &str, expected: &Vec<u32>, actual: &Vec<u32>, tol: u32) -> (r: TestResult)
    ensures
        r@ == compared(name@, expected@, actual@, tol),
{
    if expected.len() != actual.len() {
        return TestResult {
            name: name.to_owned(),
            passed: false,
            error: Some(Fault::Length { expected: expected.len(), actual: actual.len() }),
            max_diff: NOT_A_NUMBER,
        };
    }
    let mut max_diff: u32 = 0;
    let mut first: Option<usize> = None;
    let mut i: usize = 0;
    while i < expected.len()
        invariant
            i <= expected@.len() == actual@.len(),
            max_diff == largest_distance(expected@, actual@, i as nat),
            match first {
                Some(k) => k < i && first_apart(expected@, actual@, tol, 0) == Some(k as int),
                None => first_apart(expected@, actual@, tol, 0) == first_apart(
                    expected@,
                    actual@,
                    tol,
                    i as int,
                ),
            },
        decreases expected@.len() - i,
    {
        let diff: u32 = sub32(expected[i], actual[i]) & 0x7fff_ffff;
        if lt32(max_diff, diff) {
            max_diff = diff;
        }
        if lt32(tol, diff) && first.is_none() {
            first = Some(i);
        }
        i = i + 1;
    }
    match first {
        Some(k) => TestResult {
            name: name.to_owned(),
            passed: false,
            error: Some(
                Fault::Mismatch {
                    index: k,
                    expected: expected[k],
                    actual: actual[k],
                    diff: sub32(expected[k], actual[k]) & 0x7fff_ffff,
                },
            ),
            max_diff,
        },
        None => TestResult { name: name.to_owned(), passed: true, error: None, max_diff },
    }
}

// ---------------------------------------------------------------------------
// Work
// ---------------------------------------------------------------------------

/// Work that both backends do. Numbers are bits of singles.
#[derive(Debug)]
pub enum Work {
    /// As many copies of a value.
    Fill { n: usize, value: u32 },
    /// `alpha * x + y`.
    Axpy { alpha: u32, x: Vec<u32>, y: Vec<u32> },
    /// `x`, with zero in place of what is below.
    Relu { x: Vec<u32> },
    /// The product of an m by k and a k by n matrix.
    Gemm { a: Vec<u32>, b: Vec<u32>, m: usize, n: usize, k: usize },
}

/// The contents of [`Work`].
pub enum WorkView {
    Fill { n: usize, value: u32 },
    Axpy { alpha: u32, x: Seq<u32>, y: Seq<u32> },
    Relu { x: Seq<u32> },
    Gemm { a: Seq<u32>, b: Seq<u32>, m: usize, n: usize, k: usize },
}

impl View for Work {
    type V = WorkView;

    open spec fn view(&self) -> WorkView {
        match *self {
            Work::Fill { n, value } => WorkView::Fill { n, value },
            Work::Axpy { alpha, x, y } => WorkView::Axpy { alpha, x: x@, y: y@ },
            Work::Relu { x } => WorkView::Relu { x: x@ },
            Work::Gemm { a, b, m, n, k } => WorkView::Gemm { a: a@, b: b@, m, n, k },
        }
    }
}

/// What a device is told. Buffers are told apart by their slot.
#[derive(Debug)]
pub enum DeviceStep {
    /// Make a buffer.
    Alloc { slot: usize, bytes: usize },
    /// Put bytes into a buffer.
    Upload { slot: usize, data: Vec<u8> },
    /// Fill a buffer with a value.
    Fill { slot: usize, value: u32 },
    /// Add `alpha` times a buffer to another.
    Axpy { x: usize, y: usize, alpha: u32 },
    /// Put zero in place of what is below, in place.
    Relu { slot: usize },
    /// Put the product of two matrices into a third.
    Gemm { a: usize, b: usize, c: usize, m: usize, n: usize, k: usize },
    /// Wait until all is done.
    Synchronize,
    /// Return the bytes of a buffer.
    Download { slot: usize, bytes: usize },
}

/// The contents of a [`DeviceStep`].
pub enum StepView {
    Alloc { slot: usize, bytes: usize },
    Upload { slot: usize, data: Seq<u8> },
    Fill { slot: usize, value: u32 },
    Axpy { x: usize, y: usize, alpha: u32 },
    Relu { slot: usize },
    Gemm { a: usize, b: usize, c: usize, m: usize, n: usize, k: usize },
    Synchronize,
    Download { slot: usize, bytes: usize },
}

impl View for DeviceStep {
    type V = StepView;

    open spec fn view(&self) -> StepView {
        match *self {
            DeviceStep::Alloc { slot, bytes } => StepView::Alloc { slot, bytes },
            DeviceStep::Upload { slot, data } => StepView::Upload { slot, data: data@ },
            DeviceStep::Fill { slot, value } => StepView::Fill { slot, value },
            DeviceStep::Axpy { x, y, alpha } => StepView::Axpy { x, y, alpha },
            DeviceStep::Relu { slot } => StepView::Relu { slot },
            DeviceStep::Gemm { a, b, c, m, n, k } => StepView::Gemm { a, b, c, m, n, k },
            DeviceStep::Synchronize => StepView::Synchronize,
            DeviceStep::Download { slot, bytes } => StepView::Download { slot, bytes },
        }
    }
}

/// A step with the word by which its failure is reported.
#[derive(Debug)]
struct Planned {
    label: &'static str,
    step: DeviceStep,
}

impl View for Planned {
    type V = (Seq<char>, StepView);

    closed spec fn view(&self) -> (Seq<char>, StepView) {
        (self.label@, self.step@)
    }
}

/// A step with the word by which its failure is reported.
pub open spec fn labelled(label: Seq<char>, step: StepView) -> (Seq<char>, StepView) {
    (label, step)
}

/// What a device is told to do some work, step by step; the last step returns the result.
pub open spec fn script(work: WorkView) -> Seq<(Seq<char>, StepView)> {
    match work {
        WorkView::Fill { n, value } => seq![
            labelled("alloc"@, StepView::Alloc { slot: 0, bytes: (4 * n) as usize }),
            labelled("fill"@, StepView::Fill { slot: 0, value }),
            labelled("sync"@, StepView::Synchronize),
            labelled("download"@, StepView::Download { slot: 0, bytes: (4 * n) as usize }),
        ],
        WorkView::Axpy { alpha, x, y } => seq![
            labelled("alloc x"@, StepView::Alloc { slot: 0, bytes: (4 * x.len()) as usize }),
            labelled("alloc y"@, StepView::Alloc { slot: 1, bytes: (4 * x.len()) as usize }),
            labelled("upload x"@, StepView::Upload { slot: 0, data: bytes_of_words32(x) }),
            labelled("upload y"@, StepView::Upload { slot: 1, data: bytes_of_words32(y) }),
            labelled("axpy"@, StepView::Axpy { x: 0, y: 1, alpha }),
            labelled("sync"@, StepView::Synchronize),
            labelled("download"@, StepView::Download { slot: 1, bytes: (4 * x.len()) as usize }),
        ],
        WorkView::Relu { x } => seq![
            labelled("alloc"@, StepView::Alloc { slot: 0, bytes: (4 * x.len()) as usize }),
            labelled("upload"@, StepView::Upload { slot: 0, data: bytes_of_words32(x) }),
            labelled("relu"@, StepView::Relu { slot: 0 }),
            labelled("sync"@, StepView::Synchronize),
            labelled("download"@, StepView::Download { slot: 0, bytes: (4 * x.len()) as usize }),
        ],
        WorkView::Gemm { a, b, m, n, k } => seq![
            labelled("alloc A"@, StepView::Alloc { slot: 0, bytes: (4 * (m * k)) as usize }),
            labelled("alloc B"@, StepView::Alloc { slot: 1, bytes: (4 * (k * n)) as usize }),
            labelled("alloc C"@, StepView::Alloc { slot: 2, bytes: (4 * (m * n)) as usize }),
            labelled("upload A"@, StepView::Upload { slot: 0, data: bytes_of_words32(a) }),
            labelled("upload B"@, StepView::Upload { slot: 1, data: bytes_of_words32(b) }),
            labelled("gemm"@, StepView::Gemm { a: 0, b: 1, c: 2, m, n, k }),
            labelled("sync"@, StepView::Synchronize),
            labelled("download"@, StepView::Download { slot: 2, bytes: (4 * (m * n)) as usize }),
        ],
    }
}

/// Whether the buffers that some work needs have sizes.
pub open spec fn work_fits(work: WorkView) -> bool {
    match work {
        WorkView::Fill { n, .. } => 4 * n <= usize::MAX,
        WorkView::Axpy { x, .. } => 4 * x.len() <= usize::MAX,
        WorkView::Relu { x } => 4 * x.len() <= usize::MAX,
        WorkView::Gemm { m, n, k, .. } => {
            &&& 4 * (m * k) <= usize::MAX
            &&& 4 * (k * n) <= usize::MAX
            &&& 4 * (m * n) <= usize::MAX
        },
    }
}

fn plan(label: &'static str, step: DeviceStep) -> (r: Planned)
    ensures
        r@ == labelled(label@, step@),
{
    Planned { label, step }
}

fn make_script(work: &Work) -> (r: Vec<Planned>)
    requires
        work_fits(work@),
    ensures
        views(r@) == script(work@),
        r@.len() == script(work@).len(),
{
    broadcast use lemma_views_push;

    let mut r: Vec<Planned> = Vec::new();
    assert(views(r@) =~= Seq::<(Seq<char>, StepView)>::empty());
    match work {
        Work::Fill { n, value } => {
            let bytes: usize = 4 * *n;
            r.push(plan("alloc", DeviceStep::Alloc { slot: 0, bytes }));
            r.push(plan("fill", DeviceStep::Fill { slot: 0, value: *value }));
            r.push(plan("sync", DeviceStep::Synchronize));
            r.push(plan("download", DeviceStep::Download { slot: 0, bytes }));
        },
        Work::Axpy { alpha, x, y } => {
            let bytes: usize = 4 * x.len();
            r.push(plan("alloc x", DeviceStep::Alloc { slot: 0, bytes }));
            r.push(plan("alloc y", DeviceStep::Alloc { slot: 1, bytes }));
            r.push(plan("upload x", DeviceStep::Upload { slot: 0, data: from_words32(x) }));
            r.push(plan("upload y", DeviceStep::Upload { slot: 1, data: from_words32(y) }));
            r.push(plan("axpy", DeviceStep::Axpy { x: 0, y: 1, alpha: *alpha }));
            r.push(plan("sync", DeviceStep::Synchronize));
            r.push(plan("download", DeviceStep::Download { slot: 1, bytes }));
        },
        Work::Relu { x } => {
            let bytes: usize = 4 * x.len();
            r.push(plan("alloc", DeviceStep::Alloc { slot: 0, bytes }));
            r.push(plan("upload", DeviceStep::Upload { slot: 0, data: from_words32(x) }));
            r.push(plan("relu", DeviceStep::Relu { slot: 0 }));
            r.push(plan("sync", DeviceStep::Synchronize));
            r.push(plan("download", DeviceStep::Download { slot: 0, bytes }));
        },
        Work::Gemm { a, b, m, n, k } => {
            let (m, n, k): (usize, usize, usize) = (*m, *n, *k);
            let bytes: usize = 4 * (m * n);
            r.push(plan("alloc A", DeviceStep::Alloc { slot: 0, bytes: 4 * (m * k) }));
            r.push(plan("alloc B", DeviceStep::Alloc { slot: 1, bytes: 4 * (k * n) }));
            r.push(plan("alloc C", DeviceStep::Alloc { slot: 2, bytes }));
            r.push(plan("upload A", DeviceStep::Upload { slot: 0, data: from_words32(a) }));
            r.push(plan("upload B", DeviceStep::Upload { slot: 1, data: from_words32(b) }));
            r.push(plan("gemm", DeviceStep::Gemm { a: 0, b: 1, c: 2, m, n, k }));
            r.push(plan("sync", DeviceStep::Synchronize));
            r.push(plan("download", DeviceStep::Download { slot: 2, bytes }));
        },
    }
    r
}

// ---------------------------------------------------------------------------
// One test
// ---------------------------------------------------------------------------

/// A device's reply, seen through its view.
pub open spec fn reply_view(r: Result<Vec<u8>, String>) -> Result<Seq<u8>, Seq<char>> {
    match r {
        Ok(data) => Ok(data@),
        Err(e) => Err(e@),
    }
}

/// Whether a device may reply so to a step.
pub open spec fn is_reply<D: Fn(DeviceStep) -> Result<Vec<u8>, String>>(
    device: D,
    step: StepView,
    reply: Result<Seq<u8>, Seq<char>>,
) -> bool {
    exists|s: DeviceStep, r: Result<Vec<u8>, String>|
        #![trigger call_ensures(device, (s,), r)]
        s@ == step && reply_view(r) == reply && call_ensures(device, (s,), r)
}

/// Whether the first `n` replies are good.
pub open spec fn all_good(replies: Seq<Result<Seq<u8>, Seq<char>>>, n: int) -> bool {
    forall|i: int| 0 <= i < n ==> (#[trigger] replies[i]) is Ok
}

/// Whether the replies are those of a device: a step is taken only when the
/// replies before it are good.
pub open spec fn are_replies<D: Fn(DeviceStep) -> Result<Vec<u8>, String>>(
    device: D,
    steps: Seq<(Seq<char>, StepView)>,
    replies: Seq<Result<Seq<u8>, Seq<char>>>,
) -> bool {
    forall|i: int|
        0 <= i < steps.len() && all_good(replies, i) ==> is_reply(
            device,
            steps[i].1,
            #[trigger] replies[i],
        )
}

/// Whether a CPU may answer so.
pub open spec fn is_work_answer<C: Fn(Work) -> Vec<u32>>(cpu: C, work: WorkView, answer: Seq<u32>) -> bool {
    exists|w: Work, v: Vec<u32>|
        #![trigger call_ensures(cpu, (w,), v)]
        w@ == work && v@ == answer && call_ensures(cpu, (w,), v)
}

/// The first reply from `i` on that is not good.
pub open spec fn first_bad(replies: Seq<Result<Seq<u8>, Seq<char>>>, i: int, n: int) -> Option<int>
    decreases n - i,
{
    if i >= n {
        None
    } else if replies[i] is Err {
        Some(i)
    } else {
        first_bad(replies, i + 1, n)
    }
}

/// What a test comes to, given the answer of the CPU and the replies of the device.
pub open spec fn tested(
    name: Seq<char>,
    work: WorkView,
    answer: Seq<u32>,
    replies: Seq<Result<Seq<u8>, Seq<char>>>,
    tol: u32,
) -> ResultView {
    let steps = script(work);
    match first_bad(replies, 0, steps.len() as int) {
        Some(i) => ResultView {
            name,
            passed: false,
            error: Some(
                FaultView::Device("Vulkan "@ + steps[i].0 + " failed: "@ + replies[i]->Err_0),
            ),
            max_diff: NOT_A_NUMBER,
        },
        None => compared(name, answer, words32(replies[steps.len() - 1]->Ok_0), tol),
    }
}

fn copy_work(work: &Work) -> (r: Work)
    ensures
        r@ == work@,
{
    match work {
        Work::Fill { n, value } => Work::Fill { n: *n, value: *value },
        Work::Axpy { alpha, x, y } => Work::Axpy { alpha: *alpha, x: copy_vec(x), y: copy_vec(y) },
        Work::Relu { x } => Work::Relu { x: copy_vec(x) },
        Work::Gemm { a, b, m, n, k } => Work::Gemm {
            a: copy_vec(a),
            b: copy_vec(b),
            m: *m,
            n: *n,
            k: *k,
        },
    }
}

fn run_test<C: Fn(Work) -> Vec<u32>, D: Fn(DeviceStep) -> Result<Vec<u8>, String>>(
    name: String,
    work: Work,
    tol: u32,
    cpu: &C,
    device: &D,
) -> (r: TestResult)
    requires
        work_fits(work@),
        forall|w: Work| call_requires(*cpu, (w,)),
        forall|s: DeviceStep| call_requires(*device, (s,)),
    ensures
        exists|answer: Seq<u32>, replies: Seq<Result<Seq<u8>, Seq<char>>>|
            #[trigger] tested(name@, work@, answer, replies, tol) == r@ && is_work_answer(
                *cpu,
                work@,
                answer,
            ) && are_replies(*device, script(work@), replies),
{
    let ghost wv = work@;
    let ghost steps = script(wv);
    let mut todo: Vec<Planned> = make_script(&work);
    let expected: Vec<u32> = cpu(copy_work(&work));
    assert(is_work_answer(*cpu, wv, expected@));
    let ghost mut all: Seq<Result<Seq<u8>, Seq<char>>> = Seq::empty();
    let n: usize = todo.len();
    let mut last: Vec<u8> = Vec::new();
    let mut i: usize = 0;
    while i < n
        invariant
            i <= n == steps.len(),
            steps == script(wv),
            wv == work@,
            todo@.len() == n - i,
            views(todo@) == steps.skip(i as int),
            forall|s: DeviceStep| call_requires(*device, (s,)),
            is_work_answer(*cpu, wv, expected@),
            all.len() == i,
            all_good(all, i as int),
            i > 0 ==> last@ == all[i - 1]->Ok_0,
            first_bad(all, 0, i as int) is None,
            forall|k: int| 0 <= k < i ==> is_reply(*device, steps[k].1, #[trigger] all[k]),
        decreases n - i,
    {
        let ghost before = all;
        let ghost left = todo@;
        let first: Planned = todo.remove(0);
        assert(views(left)[0] == left[0]@);
        assert(first@ == steps[i as int]);
        assert forall|k: int| 0 <= k < todo@.len() implies #[trigger] views(todo@)[k] == steps.skip(
            i + 1,
        )[k] by {
            assert(todo@[k] == left[k + 1]);
            assert(views(left)[k + 1] == left[k + 1]@);
        }
        assert(views(todo@) =~= steps.skip(i + 1));
        let label: &'static str = first.label;
        let reply: Result<Vec<u8>, String> = device(first.step);
        let ghost got = reply_view(reply);
        assert(is_reply(*device, steps[i as int].1, got));
        proof {
            all = before.push(got);
            assert forall|k: int| 0 <= k < i + 1 implies is_reply(
                *device,
                steps[k].1,
                #[trigger] all[k],
            ) by {
                if k < i {
                    assert(all[k] == before[k]);
                }
            }
            assert forall|k: int| 0 <= k < i implies (#[trigger] all[k]) is Ok by {
                assert(all[k] == before[k]);
            }
        }
        match reply {
            Ok(data) => {
                last = data;
            },
            Err(e) => {
                let text: String = concat4("Vulkan ", label, " failed: ", e.as_str());
                let failed: TestResult = TestResult {
                    name,
                    passed: false,
                    error: Some(Fault::Device(text)),
                    max_diff: NOT_A_NUMBER,
                };
                proof {
                    lemma_first_bad(all, 0, i as int, n as int);
                    assert forall|k: int| 0 <= k < n && all_good(all, k) implies is_reply(
                        *device,
                        steps[k].1,
                        #[trigger] all[k],
                    ) by {
                        if k > i {
                            assert(all[i as int] is Ok);
                        }
                    }
                    assert(are_replies(*device, steps, all));
                    assert(tested(failed.name@, wv, expected@, all, tol) == failed@);
                }
                return failed;
            },
        }
        proof {
            lemma_none_bad(all, 0, i + 1);
        }
        i = i + 1;
    }
    let r: TestResult = compare_f32(name.as_str(), &expected, &to_words32(last.as_slice()), tol);
    proof {
        assert(are_replies(*device, steps, all));
        assert(tested(name@, wv, expected@, all, tol) == r@);
    }
    r
}

proof fn lemma_first_bad(replies: Seq<Result<Seq<u8>, Seq<char>>>, i: int, k: int, n: int)
    requires
        i <= k < n,
        forall|j: int| i <= j < k ==> (#[trigger] replies[j]) is Ok,
        replies[k] is Err,
    ensures
        first_bad(replies, i, n) == Some(k),
    decreases k - i,
{
    if i < k {
        assert(replies[i] is Ok);
        lemma_first_bad(replies, i + 1, k, n);
    }
}

proof fn lemma_none_bad(replies: Seq<Result<Seq<u8>, Seq<char>>>, i: int, n: int)
    requires
        forall|j: int| i <= j < n ==> (#[trigger] replies[j]) is Ok,
    ensures
        first_bad(replies, i, n) is None,
    decreases n - i,
{
    if i < n {
        assert(replies[i] is Ok);
        lemma_none_bad(replies, i + 1, n);
    }
}

// ---------------------------------------------------------------------------
// All tests
// ---------------------------------------------------------------------------

/// The four kinds of tests of a trial, by index.
pub open spec fn work_of(seed: u64, kind: int) -> WorkView {
    if kind == 0 {
        WorkView::Fill {
            n: size_from(state_after(seed, 1), 1024),
            value: between(state_after(seed, 2), MINUS_HUNDRED, HUNDRED),
        }
    } else if kind == 1 {
        let n = size_from(state_after(seed, 1), 1024) as nat;
        let s = state_after(seed, 2);
        WorkView::Axpy {
            alpha: between(s, MINUS_TEN, TEN),
            x: run_between(s, n, MINUS_HUNDRED, HUNDRED),
            y: run_between(state_after(s, n), n, MINUS_HUNDRED, HUNDRED),
        }
    } else if kind == 2 {
        let s = state_after(seed, 1);
        WorkView::Relu { x: run_between(s, size_from(s, 1024) as nat, MINUS_HUNDRED, HUNDRED) }
    } else {
        let m = size_from(state_after(seed, 1), 32);
        let n = size_from(state_after(seed, 2), 32);
        let s = state_after(seed, 3);
        let k = size_from(s, 32);
        WorkView::Gemm {
            a: run_between(s, (m * k) as nat, MINUS_ONE, ONE),
            b: run_between(state_after(s, (m * k) as nat), (k * n) as nat, MINUS_ONE, ONE),
            m,
            n,
            k,
        }
    }
}

fn make_work(seed: u64, kind: usize) -> (r: Work)
    ensures
        r@ == work_of(seed, kind as int),
        work_fits(r@),
{
    if kind == 0 {
        let (n, value) = fill_test_data(seed);
        Work::Fill { n, value }
    } else if kind == 1 {
        let (x, y, alpha) = axpy_test_data(seed);
        Work::Axpy { alpha, x, y }
    } else if kind == 2 {
        let x: Vec<u32> = relu_test_data(seed);
        Work::Relu { x }
    } else {
        let (a, b, m, n, k) = gemm_test_data(seed);
        assert(m * k <= 64 * 64 && k * n <= 64 * 64 && m * n <= 64 * 64) by (nonlinear_arith)
            requires
                m < 64,
                n < 64,
                k < 64,
        ;
        Work::Gemm { a, b, m, n, k }
    }
}

/// The name of a test.
pub open spec fn test_name(trial: int, kind: int) -> Seq<char> {
    (if kind == 0 {
        "fill_f32["@
    } else if kind == 1 {
        "axpy_f32["@
    } else if kind == 2 {
        "relu_f32["@
    } else {
        "gemm_f32["@
    }) + dec_int(trial) + "]"@
}

fn make_name(trial: usize, kind: usize) -> (r: String)
    ensures
        r@ == test_name(trial as int, kind as int),
{
    let t: String = dec_usize(trial);
    if kind == 0 {
        concat3("fill_f32[", t.as_str(), "]")
    } else if kind == 1 {
        concat3("axpy_f32[", t.as_str(), "]")
    } else if kind == 2 {
        concat3("relu_f32[", t.as_str(), "]")
    } else {
        concat3("gemm_f32[", t.as_str(), "]")
    }
}

/// The seed of a trial.
pub open spec fn trial_seed(config: TestConfig, trial: int) -> u64 {
    ((config.seed + trial * 12345) % 0x1_0000_0000_0000_0000) as u64
}

/// The tolerance of a test.
pub open spec fn tolerance_of(config: TestConfig, kind: int) -> u32 {
    if kind == 3 {
        config.gemm_tol
    } else {
        config.elementwise_tol
    }
}

/// What the `i`-th test may come to.
pub open spec fn is_outcome<
    C: Fn(Work) -> Vec<u32>,
    D: Fn(DeviceStep) -> Result<Vec<u8>, String>,
>(cpu: C, device: D, config: TestConfig, i: int, result: ResultView) -> bool {
    let trial = i / 4;
    let kind = i % 4;
    let work = work_of(trial_seed(config, trial), kind);
    exists|answer: Seq<u32>, replies: Seq<Result<Seq<u8>, Seq<char>>>|
        #[trigger] tested(
            test_name(trial, kind),
            work,
            answer,
            replies,
            tolerance_of(config, kind),
        ) == result && is_work_answer(cpu, work, answer) && are_replies(
            device,
            script(work),
            replies,
        )
}

/// Parity test runner.
#[derive(Debug)]
pub struct ParityTest;

impl ParityTest {
    /// Run all parity tests: in each trial a fill, an axpy, a rectifier and a
    /// matrix product, with data from the trial's own seed.
    pub fn run_all<C: Fn(Work) -> Vec<u32>, D: Fn(DeviceStep) -> Result<Vec<u8>, String>>(
        cpu: &C,
        device: &D,
        config: &TestConfig,
    ) -> (r: TestResults)
        requires
            config.num_trials * 12345 <= u64::MAX,
            forall|w: Work| call_requires(*cpu, (w,)),
            forall|s: DeviceStep| call_requires(*device, (s,)),
        ensures
            r.results@.len() == 4 * config.num_trials,
            forall|i: int|
                0 <= i < 4 * config.num_trials ==> is_outcome(
                    *cpu,
                    *device,
                    *config,
                    i,
                    (#[trigger] r.results@[i])@,
                ),
    {
        let mut results: Vec<TestResult> = Vec::new();
        let mut trial: usize = 0;
        while trial < config.num_trials
            invariant
                trial <= config.num_trials,
                config.num_trials * 12345 <= u64::MAX,
                forall|w: Work| call_requires(*cpu, (w,)),
                forall|s: DeviceStep| call_requires(*device, (s,)),
                results@.len() == 4 * trial,
                forall|i: int|
                    0 <= i < 4 * trial ==> is_outcome(
                        *cpu,
                        *device,
                        *config,
                        i,
                        (#[trigger] results@[i])@,
                    ),
            decreases config.num_trials - trial,
        {
            assert(trial * 12345 <= u64::MAX) by (nonlinear_arith)
                requires
                    trial <= config.num_trials,
                    config.num_trials * 12345 <= u64::MAX,
            ;
            let seed: u64 = config.seed.wrapping_add(trial as u64 * 12345);
            assert(seed == trial_seed(*config, trial as int));
            let mut kind: usize = 0;
            while kind < 4
                invariant
                    kind <= 4,
                    trial < config.num_trials,
                    seed == trial_seed(*config, trial as int),
                    forall|w: Work| call_requires(*cpu, (w,)),
                    forall|s: DeviceStep| call_requires(*device, (s,)),
                    results@.len() == 4 * trial + kind,
                    forall|i: int|
                        0 <= i < 4 * trial + kind ==> is_outcome(
                            *cpu,
                            *device,
                            *config,
                            i,
                            (#[trigger] results@[i])@,
                        ),
                decreases 4 - kind,
            {
                let tol: u32 = if kind == 3 {
                    config.gemm_tol
                } else {
                    config.elementwise_tol
                };
                let result: TestResult = run_test(
                    make_name(trial, kind),
                    make_work(seed, kind),
                    tol,
                    cpu,
                    device,
                );
                assert(is_outcome(*cpu, *device, *config, 4 * trial + kind, result@)) by {
                    assert((4 * trial + kind) / 4 == trial);
                    assert((4 * trial + kind) % 4 == kind);
                }
                results.push(result);
                kind = kind + 1;
            }
            trial = trial + 1;
        }
        TestResults { results }
    }
}

} // verus!
