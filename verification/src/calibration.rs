//! Post-training quantization calibration.
//!
//! A calibrator runs an F32 graph on sample inputs, keeps the range of every
//! activation that an op puts out, and turns the ranges into scales.

use vstd::prelude::*;
use vstd::string::*;
use crate::builder::{CompiledOp, OpView};
use crate::error::{outcome, Error, ErrorView};
use crate::graph::{named_shapes, pair_views, Graph, GraphView};
use crate::ieee::{lemma_order32, less32, nan32};
use crate::model::copy_vec;
use crate::name_map::{distinct_names, lemma_pair_in_map, stands_at, NameMap};
use crate::ops::common::{err_size_overflow, size_overflow};
use crate::proto::{to_words32, words32};
use crate::scales::{
    channel_scales, larger, max32, min32, range_scale, smaller, ParamsTable, QuantizationParams,
};
use crate::tensor::{
    checked_numel, dtype_size, numel, products_fit, Dtype, PerChannelScale, QuantScale, ShapeView,
    TensorShape,
};
use crate::text::{concat2, concat4, dec_int, dec_usize};
use self::percentile::{find_percentile_bounds, percentile_bounds};
use self::dispatch::{dispatch_op, dispatched, failure_of, find_arguments, found, op_arguments};

pub mod dispatch;
pub mod meaning;
pub mod moving;
pub mod percentile;

verus! {

// ---------------------------------------------------------------------------
// Statistics
// ---------------------------------------------------------------------------

/// Statistics collected during calibration; the bounds are the bits of singles.
#[derive(Debug, Clone, Copy, PartialEq, Eq, Structural)]
pub struct TensorStats {
    /// Minimum value observed.
    pub min: u32,
    /// Maximum value observed.
    pub max: u32,
    /// Number of samples collected.
    pub count: usize,
}

impl View for TensorStats {
    type V = TensorStats;

    open spec fn view(&self) -> TensorStats {
        *self
    }
}

/// Bits of infinity.
pub const INFINITE: u32 = 0x7f80_0000;

/// Bits of negative infinity.
pub const NEGATIVE_INFINITE: u32 = 0xff80_0000;

/// Statistics of nothing.
pub open spec fn no_stats() -> TensorStats {
    TensorStats { min: INFINITE, max: NEGATIVE_INFINITE, count: 0 }
}

/// Neither infinite nor not a number.
pub open spec fn finite32(x: u32) -> bool {
    x % 0x8000_0000 < INFINITE
}

/// A range widened by the finite ones among the first `n` values.
pub open spec fn range_with(min: u32, max: u32, values: Seq<u32>, n: nat) -> (u32, u32)
    decreases n,
{
    if n == 0 {
        (min, max)
    } else {
        let before = range_with(min, max, values, (n - 1) as nat);
        if finite32(values[n - 1]) {
            (smaller(before.0, values[n - 1]), larger(before.1, values[n - 1]))
        } else {
            before
        }
    }
}

/// Statistics with one more sample.
pub open spec fn stats_with(s: TensorStats, values: Seq<u32>) -> TensorStats {
    let range = range_with(s.min, s.max, values, values.len());
    TensorStats { min: range.0, max: range.1, count: (s.count + 1) as usize }
}

impl TensorStats {
    /// Statistics of nothing.
    pub fn new() -> (r: TensorStats)
        ensures
            r == no_stats(),
    {
        TensorStats { min: INFINITE, max: NEGATIVE_INFINITE, count: 0 }
    }

    /// Take in the values of one sample; those that are not finite do not count.
    pub fn update(&mut self, values: &[u32])
        requires
            old(self).count < usize::MAX,
        ensures
            *final(self) == stats_with(*old(self), values@),
    {
        let ghost s = *self;
        let mut min: u32 = self.min;
        let mut max: u32 = self.max;
        let mut i: usize = 0;
        while i < values.len()
            invariant
                i <= values@.len(),
                (min, max) == range_with(s.min, s.max, values@, i as nat),
            decreases values@.len() - i,
        {
            let v: u32 = values[i];
            if v % 0x8000_0000 < INFINITE {
                min = min32(min, v);
                max = max32(max, v);
            }
            i = i + 1;
        }
        *self = TensorStats { min, max, count: self.count + 1 };
    }

    /// Compute quantization scale from collected statistics.
    pub fn compute_scale(&self) -> (r: QuantScale)
        ensures
            r@ == range_scale(self.min, self.max),
    {
        QuantScale::from_range(self.min, self.max)
    }
}

/// Calibration strategy for computing scales.
#[derive(Debug, Clone, Copy, PartialEq, Eq, Structural)]
pub enum CalibrationStrategy {
    /// Use min/max range directly.
    /// Simple but may be sensitive to outliers.
    MinMax,
    /// Use percentile (e.g., 99.99%) instead of absolute min/max.
    /// More robust to outliers.
    Percentile {
        /// percentile * 100 (e.g., 9999 for 99.99%)
        percentile: u32,
    },
}

impl Default for CalibrationStrategy {
    fn default() -> (r: Self)
        ensures
            r == CalibrationStrategy::MinMax,
    {
        CalibrationStrategy::MinMax
    }
}

// ---------------------------------------------------------------------------
// The calibrator
// ---------------------------------------------------------------------------

/// Calibrator for collecting activation statistics.
pub struct Calibrator {
    graph: Graph,
    buffers: NameMap<Vec<u32>>,
    stats: NameMap<TensorStats>,
    values: NameMap<Vec<u32>>,
    strategy: CalibrationStrategy,
    sample_count: usize,
}

/// The state of a [`Calibrator`].
pub struct CalibratorView {
    pub graph: GraphView,
    pub buffers: Map<Seq<char>, Seq<u32>>,
    pub stats: Map<Seq<char>, TensorStats>,
    /// The finite values of each tensor that were taken in for a percentile.
    pub values: Map<Seq<char>, Seq<u32>>,
    pub strategy: CalibrationStrategy,
    pub sample_count: usize,
}

impl View for Calibrator {
    type V = CalibratorView;

    closed spec fn view(&self) -> CalibratorView {
        CalibratorView {
            graph: self.graph@,
            buffers: self.buffers@,
            stats: self.stats@,
            values: self.values@,
            strategy: self.strategy,
            sample_count: self.sample_count,
        }
    }
}

/// The size of a tensor in bytes is an index-sized number.
pub open spec fn size_fits(s: ShapeView) -> bool {
    products_fit(s.dims) && numel(s.dims) * dtype_size(s.dtype) <= usize::MAX
}

/// The size of a tensor in bytes.
pub open spec fn bytes_in(s: ShapeView) -> nat {
    numel(s.dims) * (dtype_size(s.dtype) as nat)
}

/// The size of a tensor in bytes, if it fits.
pub fn checked_size(s: &TensorShape) -> (r: Option<usize>)
    ensures
        match r {
            Some(n) => size_fits(s@) && n == bytes_in(s@),
            None => !size_fits(s@),
        },
{
    match checked_numel(s.dims.as_slice()) {
        Some(n) => n.checked_mul(s.dtype.size_bytes()),
        None => None,
    }
}

/// What a tensor's buffer holds at first: its initializer, where that has the right size, or zeros.
pub open spec fn first_words(g: GraphView, name: Seq<char>) -> Seq<u32> {
    let size = bytes_in(g.shapes[name]);
    if g.initializers.dom().contains(name) && g.initializers[name].len() == size {
        words32(g.initializers[name])
    } else {
        Seq::new(size / 4, |i: int| 0)
    }
}

/// All buffers at first.
pub open spec fn first_buffers(g: GraphView) -> Map<Seq<char>, Seq<u32>> {
    Map::new(
        |k: Seq<char>| g.shapes.dom().contains(k),
        |k: Seq<char>| first_words(g, k),
    )
}

/// Every tensor's size fits.
pub open spec fn sizes_fit(g: GraphView) -> bool {
    forall|k: Seq<char>| #[trigger] g.shapes.dom().contains(k) ==> size_fits(g.shapes[k])
}

/// A calibrator that has seen nothing yet.
pub open spec fn fresh_calibrator(g: GraphView) -> Result<CalibratorView, ErrorView> {
    if g.dtype != Dtype::F32 {
        Err(ErrorView::Validation("Calibration requires F32 graph"@))
    } else if !sizes_fit(g) {
        Err(size_overflow())
    } else {
        Ok(
            CalibratorView {
                graph: g,
                buffers: first_buffers(g),
                stats: Map::empty(),
                values: Map::empty(),
                strategy: CalibrationStrategy::MinMax,
                sample_count: 0,
            },
        )
    }
}

/// Zeros.
pub fn zeros(n: usize) -> (r: Vec<u32>)
    ensures
        r@ == Seq::new(n as nat, |i: int| 0u32),
{
    let mut r: Vec<u32> = Vec::new();
    let mut i: usize = 0;
    while i < n
        invariant
            i <= n,
            r@ == Seq::new(i as nat, |i: int| 0u32),
        decreases n - i,
    {
        r.push(0);
        i = i + 1;
        assert(r@ =~= Seq::new(i as nat, |i: int| 0u32));
    }
    r
}

/// `k` is among the first `n` names.
pub open spec fn named_before<V>(pairs: Seq<(Seq<char>, V)>, k: Seq<char>, n: int) -> bool {
    exists|j: int| #![trigger pairs[j]] 0 <= j < n && pairs[j].0 == k
}

fn make_buffers(graph: &Graph) -> (r: Option<NameMap<Vec<u32>>>)
    ensures
        match r {
            Some(m) => sizes_fit(graph@) && m@ == first_buffers(graph@),
            None => !sizes_fit(graph@),
        },
{
    let ghost g = graph@;
    let ghost pairs = graph.shapes.pairs();
    let mut m: NameMap<Vec<u32>> = NameMap::new();
    let n: usize = graph.shapes.len();
    let mut i: usize = 0;
    while i < n
        invariant
            i <= n == pairs.len(),
            g == graph@,
            pairs == graph.shapes.pairs(),
            distinct_names(pairs),
            forall|k: Seq<char>| #[trigger] m@.dom().contains(k) <==> named_before(pairs, k, i as int),
            forall|k: Seq<char>| #[trigger] m@.dom().contains(k) ==> m@[k] == first_words(g, k),
            forall|j: int| 0 <= j < i ==> size_fits((#[trigger] pairs[j]).1),
        decreases n - i,
    {
        let name: &String = graph.shapes.key_at(i);
        let shape: &TensorShape = graph.shapes.value_at(i);
        proof {
            lemma_pair_in_map(pairs, i as int);
            assert(g.shapes.dom().contains(name@));
            assert(g.shapes[name@] == shape@);
        }
        let size: usize = match checked_size(shape) {
            Some(s) => s,
            None => {
                assert(!size_fits(g.shapes[name@]));
                return None;
            },
        };
        let words: Vec<u32> = match graph.initializers.get(name.as_str()) {
            Some(data) => if data.len() == size {
                to_words32(data.as_slice())
            } else {
                zeros(size / 4)
            },
            None => zeros(size / 4),
        };
        assert(words@ =~= first_words(g, name@));
        let ghost before = m@;
        m.insert(name.clone(), words);
        proof {
            assert forall|k: Seq<char>| #[trigger] m@.dom().contains(k) <==> named_before(
                pairs,
                k,
                i + 1,
            ) by {
                if k == name@ {
                    assert(pairs[i as int].0 == k);
                } else {
                    assert(m@.dom().contains(k) == before.dom().contains(k));
                    if named_before(pairs, k, i + 1) {
                        let j = choose|j: int|
                            #![trigger pairs[j]]
                            0 <= j < i + 1 && pairs[j].0 == k;
                        assert(j < i);
                        assert(named_before(pairs, k, i as int));
                    }
                    if named_before(pairs, k, i as int) {
                        let j = choose|j: int| #![trigger pairs[j]] 0 <= j < i && pairs[j].0 == k;
                        assert(0 <= j < i + 1 && pairs[j].0 == k);
                    }
                }
            }
        }
        i = i + 1;
    }
    proof {
        assert forall|k: Seq<char>| #[trigger] g.shapes.dom().contains(k) implies size_fits(
            g.shapes[k],
        ) && m@.dom().contains(k) by {
            let j = choose|j: int| stands_at(pairs, k, j);
            assert(stands_at(pairs, k, j));
            assert(pairs[j].0 == k);
            lemma_pair_in_map(pairs, j);
            assert(named_before(pairs, k, n as int));
        }
        assert forall|k: Seq<char>| #[trigger] m@.dom().contains(k) implies g.shapes.dom().contains(k) by {
            let j = choose|j: int| #![trigger pairs[j]] 0 <= j < n && pairs[j].0 == k;
            lemma_pair_in_map(pairs, j);
        }
        assert(m@ =~= first_buffers(g));
    }
    Some(m)
}

/// How far a feed has come: the calibrator, and what stopped it, if anything did.
pub struct Feeding {
    pub state: CalibratorView,
    pub failure: Option<ErrorView>,
}

/// What stops a feed when a counter cannot count further.
pub open spec fn too_many_samples() -> ErrorView {
    ErrorView::Runtime("too many samples"@)
}

/// A tensor that is not a constant.
pub open spec fn is_activation(g: GraphView, name: Seq<char>) -> bool {
    g.shapes.dom().contains(name) && !g.initializers.dom().contains(name)
}

/// The statistics of a tensor so far.
pub open spec fn stats_so_far(c: CalibratorView, name: Seq<char>) -> TensorStats {
    if c.stats.dom().contains(name) {
        c.stats[name]
    } else {
        no_stats()
    }
}

/// The finite values of a tensor that were taken in for a percentile so far.
pub open spec fn values_so_far(c: CalibratorView, name: Seq<char>) -> Seq<u32> {
    if c.values.dom().contains(name) {
        c.values[name]
    } else {
        Seq::empty()
    }
}

/// The finite ones among the first `n` values.
pub open spec fn finite_values(values: Seq<u32>, n: nat) -> Seq<u32>
    decreases n,
{
    if n == 0 {
        Seq::empty()
    } else {
        let before = finite_values(values, (n - 1) as nat);
        if finite32(values[n - 1]) {
            before.push(values[n - 1])
        } else {
            before
        }
    }
}

/// A tensor's values taken into its statistics, and kept if a percentile of them is wanted.
pub open spec fn collected(c: CalibratorView, name: Seq<char>) -> Feeding {
    match found(c.buffers, name) {
        Err(e) => Feeding { state: c, failure: Some(e) },
        Ok(v) => if stats_so_far(c, name).count == usize::MAX {
            Feeding { state: c, failure: Some(too_many_samples()) }
        } else {
            Feeding {
                state: CalibratorView {
                    stats: c.stats.insert(name, stats_with(stats_so_far(c, name), v)),
                    values: if c.strategy is Percentile {
                        c.values.insert(
                            name,
                            values_so_far(c, name) + finite_values(v, v.len()),
                        )
                    } else {
                        c.values
                    },
                    ..c
                },
                failure: None,
            }
        },
    }
}

/// The activations among the first `n` names taken into the statistics.
pub open spec fn collected_all(c: CalibratorView, names: Seq<Seq<char>>, n: nat) -> Feeding
    decreases n,
{
    if n == 0 {
        Feeding { state: c, failure: None }
    } else {
        let before = collected_all(c, names, (n - 1) as nat);
        if before.failure is Some || !is_activation(c.graph, names[n - 1]) {
            before
        } else {
            collected(before.state, names[n - 1])
        }
    }
}

/// One op run, with the exponentials that it needs, and its outputs taken into the statistics.
pub open spec fn op_run(c: CalibratorView, op: OpView, exps: Seq<u32>) -> Feeding {
    let p = dispatched(c.graph, c.buffers, op, exps);
    let next = CalibratorView { buffers: p.bufs, ..c };
    if p.failure is Some {
        Feeding { state: next, failure: p.failure }
    } else {
        collected_all(next, op.outputs, op.outputs.len())
    }
}

/// The first `n` ops run; `exps` holds the exponentials that each one needs.
pub open spec fn ops_run(c: CalibratorView, exps: Seq<Seq<u32>>, n: nat) -> Feeding
    decreases n,
{
    if n == 0 {
        Feeding { state: c, failure: None }
    } else {
        let before = ops_run(c, exps, (n - 1) as nat);
        if before.failure is Some {
            before
        } else {
            op_run(before.state, c.graph.ops[n - 1], exps[n - 1])
        }
    }
}

/// The calibrator with data in an input tensor.
pub open spec fn input_set(c: CalibratorView, name: Seq<char>, data: Seq<u32>) -> Result<
    CalibratorView,
    ErrorView,
> {
    if !c.buffers.dom().contains(name) {
        Err(ErrorView::Runtime("input not found: "@ + name))
    } else if c.buffers[name].len() != data.len() {
        Err(
            ErrorView::Runtime(
                "input size mismatch: expected "@ + dec_int(c.buffers[name].len() as int)
                    + ", got "@ + dec_int(data.len() as int),
            ),
        )
    } else {
        Ok(CalibratorView { buffers: c.buffers.insert(name, data), ..c })
    }
}

/// One sample fed; `exps` holds the exponentials that each op needs.
pub open spec fn fed(c: CalibratorView, name: Seq<char>, data: Seq<u32>, exps: Seq<Seq<u32>>) -> Feeding {
    match input_set(c, name, data) {
        Err(e) => Feeding { state: c, failure: Some(e) },
        Ok(first) => {
            let run = ops_run(first, exps, c.graph.ops.len());
            if run.failure is Some {
                run
            } else if run.state.sample_count == usize::MAX {
                Feeding { failure: Some(too_many_samples()), ..run }
            } else {
                Feeding {
                    state: CalibratorView {
                        sample_count: (run.state.sample_count + 1) as usize,
                        ..run.state
                    },
                    failure: None,
                }
            }
        },
    }
}

/// `r` holds what a function answers for each of the arguments.
pub open spec fn are_answers<F: Fn(u32) -> u32>(f: F, args: Seq<u32>, r: Seq<u32>) -> bool {
    &&& r.len() == args.len()
    &&& forall|i: int|
        0 <= i < args.len() ==> call_ensures(f, (#[trigger] args[i],), r[i])
}

/// `exps` holds the exponentials that the ops need, one after the other, as `exp` answers them.
pub open spec fn are_exponentials<F: Fn(u32) -> u32>(
    exp: F,
    c: CalibratorView,
    exps: Seq<Seq<u32>>,
) -> bool {
    forall|i: nat|
        i < c.graph.ops.len() && (#[trigger] ops_run(c, exps, i)).failure is None ==> are_answers(
            exp,
            op_arguments(c.graph, ops_run(c, exps, i).state.buffers, c.graph.ops[i as int]),
            exps[i as int],
        )
}

/// What a function answers for each of the arguments.
pub fn answer_all<F: Fn(u32) -> u32>(f: &F, args: &Vec<u32>) -> (r: Vec<u32>)
    requires
        forall|x: u32| call_requires(*f, (x,)),
    ensures
        are_answers(*f, args@, r@),
{
    let mut r: Vec<u32> = Vec::new();
    let mut i: usize = 0;
    while i < args.len()
        invariant
            i <= args@.len(),
            forall|x: u32| call_requires(*f, (x,)),
            r@.len() == i,
            forall|k: int| 0 <= k < i ==> call_ensures(*f, (#[trigger] args@[k],), r@[k]),
        decreases args@.len() - i,
    {
        let y: u32 = f(args[i]);
        r.push(y);
        i = i + 1;
    }
    r
}

proof fn lemma_run_agrees(c: CalibratorView, a: Seq<Seq<u32>>, b: Seq<Seq<u32>>, n: nat)
    requires
        forall|k: int| 0 <= k < n ==> a[k] == b[k],
    ensures
        ops_run(c, a, n) == ops_run(c, b, n),
    decreases n,
{
    if n > 0 {
        lemma_run_agrees(c, a, b, (n - 1) as nat);
    }
}

proof fn lemma_run_stopped(c: CalibratorView, exps: Seq<Seq<u32>>, n: nat, m: nat)
    requires
        n <= m,
        ops_run(c, exps, n).failure is Some,
    ensures
        ops_run(c, exps, m) == ops_run(c, exps, n),
    decreases m,
{
    if n < m {
        lemma_run_stopped(c, exps, n, (m - 1) as nat);
    }
}

proof fn lemma_collected_stopped(c: CalibratorView, names: Seq<Seq<char>>, n: nat, m: nat)
    requires
        n <= m,
        collected_all(c, names, n).failure is Some,
    ensures
        collected_all(c, names, m) == collected_all(c, names, n),
    decreases m,
{
    if n < m {
        lemma_collected_stopped(c, names, n, (m - 1) as nat);
    }
}

fn gather_finite(to: &mut Vec<u32>, values: &Vec<u32>)
    ensures
        final(to)@ == old(to)@ + finite_values(values@, values@.len()),
{
    let ghost start = to@;
    let mut i: usize = 0;
    assert(start + finite_values(values@, 0) =~= start);
    while i < values.len()
        invariant
            i <= values@.len(),
            to@ == start + finite_values(values@, i as nat),
        decreases values@.len() - i,
    {
        let v: u32 = values[i];
        let ghost before = to@;
        if v % 0x8000_0000 < INFINITE {
            to.push(v);
            assert(before.push(v) =~= start + finite_values(values@, i as nat).push(v));
        }
        i = i + 1;
    }
}

impl Calibrator {
    /// Create a new calibrator from a compiled F32 graph.
    ///
    /// The graph must be compiled with F32 dtype.
    pub fn new(graph: Graph) -> (r: Result<Calibrator, Error>)
        ensures
            outcome(r) == fresh_calibrator(graph@),
    {
        if graph.dtype != Dtype::F32 {
            return Err(Error::Validation("Calibration requires F32 graph".to_owned()));
        }
        match make_buffers(&graph) {
            Some(buffers) => Ok(
                Calibrator {
                    graph,
                    buffers,
                    stats: NameMap::new(),
                    values: NameMap::new(),
                    strategy: CalibrationStrategy::default(),
                    sample_count: 0,
                },
            ),
            None => Err(err_size_overflow()),
        }
    }

    /// Set the calibration strategy. A percentile is one of the values fed from then on.
    pub fn with_strategy(self, strategy: CalibrationStrategy) -> (r: Calibrator)
        ensures
            r@ == (CalibratorView { strategy, ..self@ }),
    {
        let mut c: Calibrator = self;
        c.strategy = strategy;
        c
    }

    /// Collect statistics for a tensor.
    fn collect_stats(&mut self, name: &String) -> (r: Result<(), Error>)
        ensures
            collected(old(self)@, name@) == (Feeding {
                state: final(self)@,
                failure: failure_of(r),
            }),
    {
        let values: &Vec<u32> = match self.buffers.get(name.as_str()) {
            Some(v) => v,
            None => {
                return Err(Error::Runtime(concat2("buffer not found: ", name.as_str())));
            },
        };
        let mut stats: TensorStats = match self.stats.get(name.as_str()) {
            Some(s) => *s,
            None => TensorStats::new(),
        };
        if stats.count == usize::MAX {
            return Err(Error::Runtime("too many samples".to_owned()));
        }
        stats.update(values.as_slice());
        match self.strategy {
            CalibrationStrategy::Percentile { .. } => {
                let mut kept: Vec<u32> = match self.values.get(name.as_str()) {
                    Some(v) => copy_vec(v),
                    None => Vec::new(),
                };
                gather_finite(&mut kept, values);
                self.values.insert(name.clone(), kept);
            },
            CalibrationStrategy::MinMax => {},
        }
        self.stats.insert(name.clone(), stats);
        Ok(())
    }

    fn run_op(&mut self, i: usize, exps: &Vec<u32>) -> (r: Result<(), Error>)
        requires
            i < old(self)@.graph.ops.len(),
        ensures
            op_run(old(self)@, old(self)@.graph.ops[i as int], exps@) == (Feeding {
                state: final(self)@,
                failure: failure_of(r),
            }),
            final(self)@.graph == old(self)@.graph,
    {
        let op: CompiledOp = self.graph.ops[i].clone();
        assert(self@.graph.ops[i as int] == op@);
        match dispatch_op(&self.graph, &mut self.buffers, &op, exps) {
            Ok(_) => {},
            Err(e) => {
                return Err(e);
            },
        }
        let ghost first = self@;
        let ghost names = op@.outputs;
        let mut k: usize = 0;
        while k < op.outputs.len()
            invariant
                k <= op.outputs@.len(),
                names == op@.outputs,
                first.graph == old(self)@.graph,
                self@.graph == first.graph,
                op_run(old(self)@, old(self)@.graph.ops[i as int], exps@) == collected_all(
                    first,
                    names,
                    names.len(),
                ),
                collected_all(first, names, k as nat) == (Feeding {
                    state: self@,
                    failure: None,
                }),
            decreases op.outputs@.len() - k,
        {
            let name: &String = &op.outputs[k];
            assert(names[k as int] == name@);
            if self.graph.shapes.contains_key(name.as_str()) && !self.graph.initializers.contains_key(
                name.as_str(),
            ) {
                match self.collect_stats(name) {
                    Ok(_) => {},
                    Err(e) => {
                        proof {
                            lemma_collected_stopped(first, names, (k + 1) as nat, names.len());
                        }
                        return Err(e);
                    },
                }
            }
            k = k + 1;
        }
        Ok(())
    }

    /// Feed a calibration sample (input tensor data).
    ///
    /// This runs F32 inference and collects activation statistics. `exp` is the
    /// exponential function on the bits of singles.
    pub fn feed<F: Fn(u32) -> u32>(&mut self, input_name: &str, data: &[u32], exp: &F) -> (r: Result<
        (),
        Error,
    >)
        requires
            forall|x: u32| call_requires(*exp, (x,)),
        ensures
            exists|exps: Seq<Seq<u32>>|
                {
                    &&& #[trigger] fed(old(self)@, input_name@, data@, exps) == (Feeding {
                        state: final(self)@,
                        failure: failure_of(r),
                    })
                    &&& input_set(old(self)@, input_name@, data@) matches Ok(c)
                        ==> are_exponentials(*exp, c, exps)
                },
    {
        let ghost start = self@;
        let ghost mut all: Seq<Seq<u32>> = Seq::empty();
        match self.buffers.get(input_name) {
            Some(v) => {
                if v.len() != data.len() {
                    let e: String = dec_usize(v.len());
                    let f: String = dec_usize(data.len());
                    assert(fed(start, input_name@, data@, all).failure is Some);
                    return Err(
                        Error::Runtime(
                            concat4(
                                "input size mismatch: expected ",
                                e.as_str(),
                                ", got ",
                                f.as_str(),
                            ),
                        ),
                    );
                }
            },
            None => {
                assert(fed(start, input_name@, data@, all).failure is Some);
                return Err(Error::Runtime(concat2("input not found: ", input_name)));
            },
        }
        self.buffers.insert(input_name.to_owned(), vstd::slice::slice_to_vec(data));
        let ghost first = self@;
        let n: usize = self.graph.ops.len();
        let mut i: usize = 0;
        while i < n
            invariant
                i <= n == start.graph.ops.len(),
                forall|x: u32| call_requires(*exp, (x,)),
                start == old(self)@,
                input_set(start, input_name@, data@) == Ok::<CalibratorView, ErrorView>(first),
                first.graph == start.graph,
                self@.graph == start.graph,
                all.len() == i,
                ops_run(first, all, i as nat) == (Feeding { state: self@, failure: None }),
                forall|k: nat|
                    k < i && (#[trigger] ops_run(first, all, k)).failure is None ==> are_answers(
                        *exp,
                        op_arguments(
                            first.graph,
                            ops_run(first, all, k).state.buffers,
                            first.graph.ops[k as int],
                        ),
                        all[k as int],
                    ),
            decreases n - i,
        {
            assert(self@.graph.ops[i as int] == self.graph.ops@[i as int]@);
            let args: Vec<u32> = find_arguments(&self.graph, &self.buffers, &self.graph.ops[i]);
            let exps: Vec<u32> = answer_all(exp, &args);
            let ghost before = all;
            proof {
                all = before.push(exps@);
                lemma_run_agrees(first, before, all, i as nat);
                assert forall|k: nat| k < i + 1 && (#[trigger] ops_run(first, all, k)).failure is None implies are_answers(
                    *exp,
                    op_arguments(
                        first.graph,
                        ops_run(first, all, k).state.buffers,
                        first.graph.ops[k as int],
                    ),
                    all[k as int],
                ) by {
                    lemma_run_agrees(first, before, all, k);
                    assert(ops_run(first, before, k) == ops_run(first, all, k));
                }
            }
            match self.run_op(i, &exps) {
                Ok(_) => {},
                Err(e) => {
                    proof {
                        lemma_run_stopped(first, all, (i + 1) as nat, n as nat);
                        assert forall|k: nat| k < n && (#[trigger] ops_run(first, all, k)).failure is None implies are_answers(
                            *exp,
                            op_arguments(
                                first.graph,
                                ops_run(first, all, k).state.buffers,
                                first.graph.ops[k as int],
                            ),
                            all[k as int],
                        ) by {
                            if k > i {
                                lemma_run_stopped(first, all, (i + 1) as nat, k);
                            }
                        }
                        assert(are_exponentials(*exp, first, all));
                        assert(fed(start, input_name@, data@, all) == (Feeding {
                            state: self@,
                            failure: Some(e@),
                        }));
                    }
                    return Err(e);
                },
            }
            i = i + 1;
        }
        assert(are_exponentials(*exp, first, all));
        if self.sample_count == usize::MAX {
            assert(fed(start, input_name@, data@, all) == (Feeding {
                state: self@,
                failure: Some(too_many_samples()),
            }));
            return Err(Error::Runtime("too many samples".to_owned()));
        }
        self.sample_count = self.sample_count + 1;
        assert(fed(start, input_name@, data@, all) == (Feeding { state: self@, failure: None }));
        Ok(())
    }

    /// Get the number of samples fed.
    pub fn sample_count(&self) -> (r: usize)
        ensures
            r == self@.sample_count,
    {
        self.sample_count
    }

    /// Get statistics for a specific tensor: bits of the bounds, and the count.
    pub fn get_stats(&self, name: &str) -> (r: Option<(u32, u32, usize)>)
        ensures
            r == (if self@.stats.dom().contains(name@) {
                let s = self@.stats[name@];
                Some((s.min, s.max, s.count))
            } else {
                None
            }),
    {
        match self.stats.get(name) {
            Some(s) => Some((s.min, s.max, s.count)),
            None => None,
        }
    }
}

// ---------------------------------------------------------------------------
// Parameters
// ---------------------------------------------------------------------------

/// An initializer with channels: one with at least two dimensions.
pub open spec fn is_weight(g: GraphView, name: Seq<char>) -> bool {
    g.initializers.dom().contains(name) && g.shapes.dom().contains(name)
        && g.shapes[name].dims.len() >= 2
}

/// The scales of a weight's channels, which the first dimension counts.
pub open spec fn weight_scales(g: GraphView, name: Seq<char>) -> Seq<u32> {
    let w = words32(g.initializers[name]);
    let channels = g.shapes[name].dims[0] as nat;
    channel_scales(w, channels, w.len() / channels)
}

/// Every weight has a channel.
pub open spec fn weights_have_channels(g: GraphView) -> bool {
    forall|k: Seq<char>| #[trigger] is_weight(g, k) ==> g.shapes[k].dims[0] > 0
}

/// The bounds that the strategy puts on a tensor's values. Where no finite value
/// was taken in for a percentile, they are the smallest and the largest.
pub open spec fn bounds_of(c: CalibratorView, name: Seq<char>) -> (u32, u32) {
    match c.strategy {
        CalibrationStrategy::Percentile { percentile } if values_so_far(c, name).len() > 0 => {
            percentile_bounds(values_so_far(c, name), percentile)
        },
        _ => (c.stats[name].min, c.stats[name].max),
    }
}

/// The scale of a tensor's values.
pub open spec fn activation_scale(c: CalibratorView, name: Seq<char>) -> u32 {
    range_scale(bounds_of(c, name).0, bounds_of(c, name).1)
}

/// The scale of the first of the first `n` inputs that has statistics.
pub open spec fn input_scale(c: CalibratorView, n: nat) -> Option<u32>
    decreases n,
{
    if n == 0 {
        None
    } else {
        let before = input_scale(c, (n - 1) as nat);
        let name = c.graph.inputs[n - 1];
        if before is None && c.stats.dom().contains(name) {
            Some(activation_scale(c, name))
        } else {
            before
        }
    }
}

/// The quantization parameters that a calibrator has come to.
pub open spec fn calibrated(c: CalibratorView) -> Result<ParamsTable, ErrorView> {
    if c.sample_count == 0 {
        Err(ErrorView::Validation("No calibration samples fed"@))
    } else if !weights_have_channels(c.graph) {
        Err(ErrorView::Shape("weight without channels"@))
    } else {
        Ok(
            ParamsTable {
                activations: Map::new(
                    |k: Seq<char>| c.stats.dom().contains(k),
                    |k: Seq<char>| activation_scale(c, k),
                ),
                weights: Map::new(
                    |k: Seq<char>| is_weight(c.graph, k),
                    |k: Seq<char>| weight_scales(c.graph, k),
                ),
                input: input_scale(c, c.graph.inputs.len()),
            },
        )
    }
}

/// One more name.
pub proof fn lemma_named_step<V>(pairs: Seq<(Seq<char>, V)>, k: Seq<char>, i: int)
    requires
        0 <= i < pairs.len(),
    ensures
        named_before(pairs, k, i + 1) == (named_before(pairs, k, i) || pairs[i].0 == k),
{
    if named_before(pairs, k, i + 1) {
        let j = choose|j: int| #![trigger pairs[j]] 0 <= j < i + 1 && pairs[j].0 == k;
        if j < i {
            assert(0 <= j < i && pairs[j].0 == k);
        }
    }
    if named_before(pairs, k, i) {
        let j = choose|j: int| #![trigger pairs[j]] 0 <= j < i && pairs[j].0 == k;
        assert(0 <= j < i + 1 && pairs[j].0 == k);
    }
}

/// All names.
pub proof fn lemma_named_all<V>(pairs: Seq<(Seq<char>, V)>, k: Seq<char>)
    requires
        distinct_names(pairs),
    ensures
        named_before(pairs, k, pairs.len() as int) == crate::name_map::map_of(pairs).dom().contains(
            k,
        ),
{
    if named_before(pairs, k, pairs.len() as int) {
        let j = choose|j: int| #![trigger pairs[j]] 0 <= j < pairs.len() && pairs[j].0 == k;
        lemma_pair_in_map(pairs, j);
    }
    if crate::name_map::map_of(pairs).dom().contains(k) {
        let j = choose|j: int| stands_at(pairs, k, j);
        assert(stands_at(pairs, k, j));
        assert(pairs[j].0 == k);
    }
}

impl Calibrator {
    /// Get the input tensor names and shapes.
    pub fn inputs(&self) -> (r: Vec<(&str, &TensorShape)>)
        ensures
            pair_views(r@) == named_shapes(
                self@.graph.inputs,
                self@.graph.shapes,
                self@.graph.inputs.len(),
            ),
    {
        self.graph.input_info()
    }

    fn scale_of(&self, name: &str, stats: &TensorStats) -> (r: QuantScale)
        requires
            self@.stats.dom().contains(name@),
            *stats == self@.stats[name@],
        ensures
            r@ == activation_scale(self@, name@),
    {
        match self.strategy {
            CalibrationStrategy::Percentile { percentile } => match self.values.get(name) {
                Some(v) => if v.len() > 0 {
                    let (low, high) = find_percentile_bounds(v, percentile);
                    QuantScale::from_range(low, high)
                } else {
                    stats.compute_scale()
                },
                None => stats.compute_scale(),
            },
            CalibrationStrategy::MinMax => stats.compute_scale(),
        }
    }

    fn add_activation_scales(&self, params: &mut QuantizationParams)
        requires
            old(params)@.activations == Map::<Seq<char>, u32>::empty(),
        ensures
            final(params)@ == (ParamsTable {
                activations: Map::new(
                    |k: Seq<char>| self@.stats.dom().contains(k),
                    |k: Seq<char>| activation_scale(self@, k),
                ),
                ..old(params)@
            }),
    {
        let ghost c = self@;
        let ghost pairs = self.stats.pairs();
        let ghost start = params@;
        let n: usize = self.stats.len();
        let mut i: usize = 0;
        while i < n
            invariant
                i <= n == pairs.len(),
                c == self@,
                pairs == self.stats.pairs(),
                distinct_names(pairs),
                start == old(params)@,
                params@ == (ParamsTable { activations: params@.activations, ..start }),
                forall|k: Seq<char>| #[trigger]
                    params@.activations.dom().contains(k) <==> named_before(pairs, k, i as int),
                forall|k: Seq<char>| #[trigger]
                    params@.activations.dom().contains(k) ==> params@.activations[k] == activation_scale(
                        c,
                        k,
                    ),
            decreases n - i,
        {
            let name: &String = self.stats.key_at(i);
            let stats: &TensorStats = self.stats.value_at(i);
            proof {
                lemma_pair_in_map(pairs, i as int);
            }
            params.add_activation_scale(name.clone(), self.scale_of(name.as_str(), stats));
            proof {
                assert forall|k: Seq<char>| #[trigger]
                    params@.activations.dom().contains(k) <==> named_before(pairs, k, i + 1) by {
                    lemma_named_step(pairs, k, i as int);
                }
            }
            i = i + 1;
        }
        proof {
            assert forall|k: Seq<char>| #[trigger] params@.activations.dom().contains(k)
                <==> c.stats.dom().contains(k) by {
                lemma_named_all(pairs, k);
            }
            assert(params@.activations =~= Map::new(
                |k: Seq<char>| c.stats.dom().contains(k),
                |k: Seq<char>| activation_scale(c, k),
            ));
        }
    }

    fn add_all_weight_scales(&self, params: &mut QuantizationParams) -> (r: bool)
        requires
            old(params)@.weights == Map::<Seq<char>, Seq<u32>>::empty(),
        ensures
            r == weights_have_channels(self@.graph),
            r ==> final(params)@ == (ParamsTable {
                weights: Map::new(
                    |k: Seq<char>| is_weight(self@.graph, k),
                    |k: Seq<char>| weight_scales(self@.graph, k),
                ),
                ..old(params)@
            }),
    {
        let ghost g = self@.graph;
        let ghost pairs = self.graph.initializers.pairs();
        let ghost start = params@;
        let n: usize = self.graph.initializers.len();
        let mut i: usize = 0;
        while i < n
            invariant
                i <= n == pairs.len(),
                g == self@.graph,
                pairs == self.graph.initializers.pairs(),
                distinct_names(pairs),
                start == old(params)@,
                params@ == (ParamsTable { weights: params@.weights, ..start }),
                forall|k: Seq<char>| #[trigger]
                    params@.weights.dom().contains(k) <==> named_before(pairs, k, i as int)
                        && is_weight(g, k),
                forall|k: Seq<char>| #[trigger]
                    params@.weights.dom().contains(k) ==> params@.weights[k] == weight_scales(g, k)
                        && g.shapes[k].dims[0] > 0,
            decreases n - i,
        {
            let name: &String = self.graph.initializers.key_at(i);
            let data: &Vec<u8> = self.graph.initializers.value_at(i);
            proof {
                lemma_pair_in_map(pairs, i as int);
            }
            match self.graph.shapes.get(name.as_str()) {
                Some(shape) => {
                    if shape.dims.len() >= 2 {
                        assert(is_weight(g, name@));
                        if shape.dims[0] == 0 {
                            return false;
                        }
                        let w: Vec<u32> = to_words32(data.as_slice());
                        params.add_weight_scales(
                            name.clone(),
                            PerChannelScale::from_weights(w.as_slice(), shape.dims[0]),
                        );
                    }
                },
                None => {},
            }
            proof {
                assert forall|k: Seq<char>| #[trigger]
                    params@.weights.dom().contains(k) <==> named_before(pairs, k, i + 1)
                        && is_weight(g, k) by {
                    lemma_named_step(pairs, k, i as int);
                }
            }
            i = i + 1;
        }
        proof {
            assert forall|k: Seq<char>| #[trigger] params@.weights.dom().contains(k)
                <==> is_weight(g, k) by {
                lemma_named_all(pairs, k);
            }
            assert forall|k: Seq<char>| #[trigger] is_weight(g, k) implies g.shapes[k].dims[0] > 0 by {
                assert(params@.weights.dom().contains(k));
            }
            assert(params@.weights =~= Map::new(
                |k: Seq<char>| is_weight(g, k),
                |k: Seq<char>| weight_scales(g, k),
            ));
        }
        true
    }

    /// Compute quantization parameters from collected statistics.
    pub fn compute_params(&self) -> (r: Result<QuantizationParams, Error>)
        ensures
            outcome(r) == calibrated(self@),
    {
        if self.sample_count == 0 {
            return Err(Error::Validation("No calibration samples fed".to_owned()));
        }
        let mut params: QuantizationParams = QuantizationParams::new();
        self.add_activation_scales(&mut params);
        if !self.add_all_weight_scales(&mut params) {
            return Err(Error::Shape("weight without channels".to_owned()));
        }
        let ghost c = self@;
        let mut i: usize = 0;
        while i < self.graph.inputs.len()
            invariant
                i <= self.graph.inputs@.len(),
                c == self@,
                c.sample_count != 0,
                weights_have_channels(c.graph),
                params@.input is None,
                input_scale(c, i as nat) is None,
                calibrated(c) == Ok::<ParamsTable, ErrorView>(
                    ParamsTable { input: input_scale(c, c.graph.inputs.len()), ..params@ },
                ),
            decreases self.graph.inputs@.len() - i,
        {
            assert(c.graph.inputs[i as int] == self.graph.inputs@[i as int]@);
            match self.stats.get(self.graph.inputs[i].as_str()) {
                Some(s) => {
                    proof {
                        lemma_input_scale_stays(c, (i + 1) as nat, c.graph.inputs.len());
                    }
                    params.set_input_scale(self.scale_of(self.graph.inputs[i].as_str(), s));
                    return Ok(params);
                },
                None => {},
            }
            i = i + 1;
        }
        Ok(params)
    }
}

proof fn lemma_input_scale_stays(c: CalibratorView, n: nat, m: nat)
    requires
        n <= m,
        input_scale(c, n) is Some,
    ensures
        input_scale(c, m) == input_scale(c, n),
    decreases m,
{
    if n < m {
        lemma_input_scale_stays(c, n, (m - 1) as nat);
    }
}

// ---------------------------------------------------------------------------
// Laws
// ---------------------------------------------------------------------------

/// Statistics bound every finite value that was taken in.
pub proof fn law_stats_bound_values(s: TensorStats, values: Seq<u32>, i: int)
    requires
        !nan32(s.min),
        !nan32(s.max),
        0 <= i < values.len(),
        finite32(values[i]),
    ensures
        !less32(values[i], stats_with(s, values).min),
        !less32(stats_with(s, values).max, values[i]),
{
    lemma_range_bounds(s.min, s.max, values, values.len(), i);
}

/// The bounds of statistics were taken in: each is one of the finite values, or
/// the bound that there was.
pub proof fn law_stats_are_attained(s: TensorStats, values: Seq<u32>)
    requires
        s.count < usize::MAX,
    ensures
        ({
            let r = stats_with(s, values);
            &&& r.count == s.count + 1
            &&& r.min == s.min || exists|i: int|
                0 <= i < values.len() && finite32(values[i]) && #[trigger] values[i] == r.min
            &&& r.max == s.max || exists|i: int|
                0 <= i < values.len() && finite32(values[i]) && #[trigger] values[i] == r.max
        }),
{
    lemma_range_attained(s.min, s.max, values, values.len());
}

proof fn lemma_range_attained(min: u32, max: u32, values: Seq<u32>, n: nat)
    requires
        n <= values.len(),
    ensures
        ({
            let r = range_with(min, max, values, n);
            &&& r.0 == min || exists|i: int|
                0 <= i < n && finite32(values[i]) && #[trigger] values[i] == r.0
            &&& r.1 == max || exists|i: int|
                0 <= i < n && finite32(values[i]) && #[trigger] values[i] == r.1
        }),
    decreases n,
{
    if n > 0 {
        lemma_range_attained(min, max, values, (n - 1) as nat);
        let last = values[n - 1];
        assert(values[n - 1] == last);
    }
}

/// The statistics of a tensor once a sample ran: of every activation that an op
/// puts out, they take in what is in its buffer.
pub proof fn law_outputs_are_taken_in(c: CalibratorView, op: OpView, exps: Seq<u32>, j: int)
    requires
        op_run(c, op, exps).failure is None,
        0 <= j < op.outputs.len(),
        is_activation(c.graph, op.outputs[j]),
        forall|a: int, b: int| 0 <= a < b < op.outputs.len() ==> op.outputs[a] != op.outputs[b],
    ensures
        ({
            let name = op.outputs[j];
            let after = op_run(c, op, exps).state;
            &&& after.stats.dom().contains(name)
            &&& after.stats[name] == stats_with(
                stats_so_far(c, name),
                dispatched(c.graph, c.buffers, op, exps).bufs[name],
            )
            &&& after.buffers == dispatched(c.graph, c.buffers, op, exps).bufs
        }),
{
    let next = CalibratorView { buffers: dispatched(c.graph, c.buffers, op, exps).bufs, ..c };
    lemma_taken_in(next, op.outputs, op.outputs.len(), j);
}

proof fn lemma_taken_in(c: CalibratorView, names: Seq<Seq<char>>, n: nat, j: int)
    requires
        collected_all(c, names, n).failure is None,
        n <= names.len(),
        0 <= j < names.len(),
        forall|a: int, b: int| 0 <= a < b < names.len() ==> names[a] != names[b],
    ensures
        ({
            let after = collected_all(c, names, n).state;
            &&& after.buffers == c.buffers
            &&& after.graph == c.graph
            &&& j >= n ==> stats_so_far(after, names[j]) == stats_so_far(c, names[j])
            &&& j < n && is_activation(c.graph, names[j]) ==> after.stats.dom().contains(names[j])
                && after.stats[names[j]] == stats_with(
                stats_so_far(c, names[j]),
                c.buffers[names[j]],
            )
        }),
    decreases n,
{
    if n > 0 {
        lemma_taken_in(c, names, (n - 1) as nat, j);
    }
}

proof fn lemma_range_bounds(min: u32, max: u32, values: Seq<u32>, n: nat, i: int)
    requires
        !nan32(min),
        !nan32(max),
        n <= values.len(),
        0 <= i < values.len(),
        finite32(values[i]),
    ensures
        !nan32(range_with(min, max, values, n).0),
        !nan32(range_with(min, max, values, n).1),
        i < n ==> !less32(values[i], range_with(min, max, values, n).0),
        i < n ==> !less32(range_with(min, max, values, n).1, values[i]),
    decreases n,
{
    reveal(nan32);
    if n > 0 {
        lemma_range_bounds(min, max, values, (n - 1) as nat, i);
        let before = range_with(min, max, values, (n - 1) as nat);
        let after = range_with(min, max, values, n);
        if finite32(values[n - 1]) {
            lemma_order32(values[i], before.0, after.0);
            lemma_order32(after.1, before.1, values[i]);
            lemma_order32(values[n - 1], before.0, values[n - 1]);
            lemma_order32(before.1, values[n - 1], before.1);
            lemma_order32(values[i], values[i], values[i]);
        }
    }
}

/// A feed that is not stopped counts one sample and leaves the model as it is.
pub proof fn law_feed_counts_one(
    c: CalibratorView,
    name: Seq<char>,
    data: Seq<u32>,
    exps: Seq<Seq<u32>>,
)
    requires
        fed(c, name, data, exps).failure is None,
    ensures
        fed(c, name, data, exps).state.sample_count == c.sample_count + 1,
        fed(c, name, data, exps).state.graph == c.graph,
        fed(c, name, data, exps).state.strategy == c.strategy,
{
    let first = input_set(c, name, data)->Ok_0;
    lemma_run_keeps_count(first, exps, c.graph.ops.len());
}

proof fn lemma_collected_keeps_count(c: CalibratorView, names: Seq<Seq<char>>, n: nat)
    ensures
        collected_all(c, names, n).state.graph == c.graph,
        collected_all(c, names, n).state.strategy == c.strategy,
        collected_all(c, names, n).state.sample_count == c.sample_count,
    decreases n,
{
    if n > 0 {
        lemma_collected_keeps_count(c, names, (n - 1) as nat);
    }
}

proof fn lemma_run_keeps_count(c: CalibratorView, exps: Seq<Seq<u32>>, n: nat)
    ensures
        ops_run(c, exps, n).state.graph == c.graph,
        ops_run(c, exps, n).state.strategy == c.strategy,
        ops_run(c, exps, n).state.sample_count == c.sample_count,
    decreases n,
{
    if n > 0 {
        lemma_run_keeps_count(c, exps, (n - 1) as nat);
        let before = ops_run(c, exps, (n - 1) as nat);
        let op = c.graph.ops[n - 1];
        let p = dispatched(c.graph, before.state.buffers, op, exps[n - 1]);
        lemma_collected_keeps_count(
            CalibratorView { buffers: p.bufs, ..before.state },
            op.outputs,
            op.outputs.len(),
        );
    }
}

/// Only activations have statistics, whatever is fed.
pub proof fn law_only_activations_have_stats(
    c: CalibratorView,
    name: Seq<char>,
    data: Seq<u32>,
    exps: Seq<Seq<u32>>,
    k: Seq<char>,
)
    requires
        fed(c, name, data, exps).state.stats.dom().contains(k),
    ensures
        c.stats.dom().contains(k) || is_activation(c.graph, k),
{
    match input_set(c, name, data) {
        Ok(first) => {
            lemma_run_stats(first, exps, c.graph.ops.len(), k);
        },
        Err(_) => {},
    }
}

proof fn lemma_collected_stats(c: CalibratorView, names: Seq<Seq<char>>, n: nat, k: Seq<char>)
    ensures
        collected_all(c, names, n).state.stats.dom().contains(k) ==> c.stats.dom().contains(k)
            || is_activation(c.graph, k),
    decreases n,
{
    if n > 0 {
        lemma_collected_stats(c, names, (n - 1) as nat, k);
        lemma_collected_keeps_count(c, names, (n - 1) as nat);
    }
}

proof fn lemma_run_stats(c: CalibratorView, exps: Seq<Seq<u32>>, n: nat, k: Seq<char>)
    ensures
        ops_run(c, exps, n).state.stats.dom().contains(k) ==> c.stats.dom().contains(k)
            || is_activation(c.graph, k),
    decreases n,
{
    if n > 0 {
        lemma_run_stats(c, exps, (n - 1) as nat, k);
        lemma_run_keeps_count(c, exps, (n - 1) as nat);
        let before = ops_run(c, exps, (n - 1) as nat);
        let op = c.graph.ops[n - 1];
        let p = dispatched(c.graph, before.state.buffers, op, exps[n - 1]);
        lemma_collected_stats(
            CalibratorView { buffers: p.bufs, ..before.state },
            op.outputs,
            op.outputs.len(),
            k,
        );
    }
}

} // verus!
