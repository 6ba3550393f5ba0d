//! What a comparison within a tolerance says of the numbers.

use vstd::prelude::*;
use crate::ieee::accuracy::{law_difference32_is_rounded, size};
use crate::ieee::nearness::lemma_rounded_off;
use crate::ieee::{difference32, less32, nan32};
use crate::micro_graph::{
    comparison, distance, first_apart, is_apart, largest_distance, Difference, ResultView,
};
use crate::precision::{is_finite, lemma_magnitude, value_of};
use crate::proto::bytes_of_words32;
use super::{compared, script, work_fits, FaultView, StepView, WorkView};

verus! {

/// Whether two numbers are no further apart than a tolerance, but for a rounding.
pub open spec fn is_within(a: u32, b: u32, tol: u32) -> bool {
    size(value_of(a) - value_of(b)) * 0xff_ffff <= value_of(tol) * 0x100_0000
}

/// Whether two numbers are further apart than a tolerance, but for a rounding.
pub open spec fn is_beyond(a: u32, b: u32, tol: u32) -> bool {
    size(value_of(a) - value_of(b)) * 0x100_0001 >= value_of(tol) * 0x100_0000
}

/// Whether the difference of two numbers and a tolerance have values.
pub open spec fn have_values(a: u32, b: u32, tol: u32) -> bool {
    &&& is_finite(a)
    &&& is_finite(b)
    &&& is_finite(tol)
    &&& is_finite(difference32(a, b))
}

proof fn lemma_apart(a: u32, b: u32, tol: u32)
    requires
        have_values(a, b, tol),
    ensures
        less32(tol, distance(a, b)) ==> is_beyond(a, b, tol),
        !less32(tol, distance(a, b)) ==> is_within(a, b, tol),
{
    reveal(less32);
    reveal(nan32);
    let d = difference32(a, b);
    lemma_magnitude(d);
    law_difference32_is_rounded(a, b);
    lemma_rounded_off(value_of(d), value_of(a) - value_of(b), 1, 24);
    assert(value_of(distance(a, b)) == size(value_of(d)));
}

proof fn lemma_first(a: Seq<u32>, b: Seq<u32>, tol: u32, from: int, i: int)
    requires
        0 <= from <= i < a.len(),
        i < b.len(),
    ensures
        first_apart(a, b, tol, from) is None ==> !is_apart(a, b, tol, i),
        first_apart(a, b, tol, from) matches Some(k) ==> {
            &&& from <= k < a.len()
            &&& k < b.len()
            &&& is_apart(a, b, tol, k)
            &&& i < k ==> !is_apart(a, b, tol, i)
        },
    decreases a.len() - from,
{
    if !is_apart(a, b, tol, from) {
        if from < i {
            lemma_first(a, b, tol, from + 1, i);
        } else if from + 1 < a.len() && from + 1 < b.len() {
            lemma_first(a, b, tol, from + 1, from + 1);
        }
    }
}

/// A comparison passes where no two numbers are further apart than the tolerance.
/// It fails on buffers of two lengths, or shows the first two numbers that are
/// further apart.
pub proof fn law_comparison(name: Seq<char>, expected: Seq<u32>, actual: Seq<u32>, tol: u32, i: int)
    requires
        0 <= i < expected.len(),
        expected.len() <= usize::MAX,
        forall|k: int|
            0 <= k < expected.len() ==> have_values(#[trigger] expected[k], actual[k], tol),
    ensures
        ({
            let r = compared(name, expected, actual, tol);
            &&& r.passed ==> r.error is None && expected.len() == actual.len()
            &&& r.passed ==> is_within(expected[i], actual[i], tol)
            &&& !r.passed && expected.len() == actual.len() ==> {
                &&& r.error matches Some(FaultView::Mismatch { index, expected: e, actual: a, .. })
                &&& index < expected.len()
                &&& e == expected[index as int] && a == actual[index as int]
                &&& is_beyond(e, a, tol)
                &&& i < index ==> is_within(expected[i], actual[i], tol)
            }
            &&& expected.len() != actual.len() ==> r.error is Some && !r.passed
        }),
{
    if expected.len() == actual.len() {
        lemma_first(expected, actual, tol, 0, i);
        lemma_apart(expected[i], actual[i], tol);
        match first_apart(expected, actual, tol, 0) {
            Some(k) => {
                assert(have_values(expected[k], actual[k], tol));
                lemma_apart(expected[k], actual[k], tol);
            },
            None => {},
        }
    }
}

proof fn lemma_largest_distance(a: Seq<u32>, b: Seq<u32>, n: nat, i: int)
    requires
        n <= a.len(),
        n <= b.len(),
        forall|k: int| 0 <= k < n ==> is_finite(difference32(#[trigger] a[k], b[k])),
    ensures
        is_finite(largest_distance(a, b, n)),
        value_of(largest_distance(a, b, n)) >= 0,
        0 <= i < n ==> size(value_of(difference32(a[i], b[i]))) <= value_of(
            largest_distance(a, b, n),
        ),
        n == 0 || exists|k: int|
            #![trigger a[k]]
            0 <= k < n && value_of(largest_distance(a, b, n)) == size(
                value_of(difference32(a[k], b[k])),
            ),
    decreases n,
{
    reveal(less32);
    reveal(nan32);
    vstd::arithmetic::power2::lemma2_to64();
    if n > 0 {
        let k = n - 1;
        lemma_largest_distance(a, b, (n - 1) as nat, i);
        assert(is_finite(difference32(a[k], b[k])));
        lemma_magnitude(difference32(a[k], b[k]));
        let before = largest_distance(a, b, (n - 1) as nat);
        if !less32(before, distance(a[k], b[k])) {
            if n == 1 {
                assert(value_of(before) == 0);
            } else {
                let j = choose|j: int|
                    #![trigger a[j]]
                    0 <= j < n - 1 && value_of(before) == size(value_of(difference32(a[j], b[j])));
                assert(0 <= j < n);
            }
        }
    }
}

/// The largest distance that a comparison reports is the largest of the
/// differences, and one of them.
pub proof fn law_largest_distance(name: Seq<char>, expected: Seq<u32>, actual: Seq<u32>, tol: u32, i: int)
    requires
        0 <= i < expected.len(),
        expected.len() == actual.len(),
        forall|k: int|
            0 <= k < expected.len() ==> is_finite(difference32(#[trigger] expected[k], actual[k])),
    ensures
        ({
            let m = compared(name, expected, actual, tol).max_diff;
            &&& is_finite(m)
            &&& size(value_of(difference32(expected[i], actual[i]))) <= value_of(m)
            &&& exists|k: int|
                #![trigger expected[k]]
                0 <= k < expected.len() && value_of(m) == size(
                    value_of(difference32(expected[k], actual[k])),
                )
        }),
{
    lemma_largest_distance(expected, actual, expected.len(), i);
}

/// Two runs compare well where both succeeded and no two outputs are further
/// apart than the tolerance.
pub proof fn law_runs_compare(a: ResultView, b: ResultView, tol: u32, i: int)
    requires
        a.output.len() == 10,
        b.output.len() == 10,
        0 <= i < 10,
        forall|k: int|
            0 <= k < 10 ==> have_values(#[trigger] a.output[k], b.output[k], tol),
    ensures
        comparison(a, b, tol) is Ok ==> a.success && b.success && is_within(
            a.output[i],
            b.output[i],
            tol,
        ),
        a.success && b.success && comparison(a, b, tol) is Err ==> {
            &&& comparison(a, b, tol)->Err_0 matches Difference::Mismatch { index, a: x, b: y, .. }
            &&& index < 10
            &&& x == a.output[index as int] && y == b.output[index as int]
            &&& is_beyond(x, y, tol)
        },
{
    lemma_first(a.output, b.output, tol, 0, i);
    lemma_apart(a.output[i], b.output[i], tol);
    match first_apart(a.output, b.output, tol, 0) {
        Some(k) => {
            assert(have_values(a.output[k], b.output[k], tol));
            lemma_apart(a.output[k], b.output[k], tol);
        },
        None => {},
    }
}

// ---------------------------------------------------------------------------
// What a device is told
// ---------------------------------------------------------------------------

/// What was last uploaded to a buffer in the first `n` steps.
pub open spec fn uploaded(steps: Seq<(Seq<char>, StepView)>, slot: usize, n: nat) -> Option<Seq<u8>>
    decreases n,
{
    if n == 0 {
        None
    } else {
        match steps[n - 1].1 {
            StepView::Upload { slot: s, data } if s == slot => Some(data),
            _ => uploaded(steps, slot, (n - 1) as nat),
        }
    }
}

/// Whether a buffer was made before step `n`, of so many bytes.
pub open spec fn is_made(steps: Seq<(Seq<char>, StepView)>, slot: usize, bytes: int, n: int) -> bool {
    exists|i: int|
        {
            &&& 0 <= i < n
            &&& (#[trigger] steps[i]).1 matches StepView::Alloc { slot: s, bytes: b }
            &&& s == slot
            &&& b == bytes
        }
}

/// Whether a script does its work at step `k`: on buffers that hold the work's
/// own numbers, and into the one that is downloaded at the end, after a wait.
pub open spec fn works_at(work: WorkView, k: int) -> bool {
    let steps = script(work);
    let last = steps.last().1;
    &&& 0 <= k < steps.len() - 2
    &&& steps[steps.len() - 2].1 is Synchronize
    &&& match (work, steps[k].1) {
        (WorkView::Fill { n, value }, StepView::Fill { slot, value: v }) => {
            &&& v == value
            &&& is_made(steps, slot, 4 * n, k)
            &&& last == StepView::Download { slot, bytes: (4 * n) as usize }
        },
        (WorkView::Axpy { alpha, x, y }, StepView::Axpy { x: sx, y: sy, alpha: a }) => {
            &&& a == alpha
            &&& sx != sy
            &&& uploaded(steps, sx, k as nat) == Some(bytes_of_words32(x))
            &&& uploaded(steps, sy, k as nat) == Some(bytes_of_words32(y))
            &&& is_made(steps, sx, 4 * x.len() as int, k) && is_made(steps, sy, 4 * x.len() as int, k)
            &&& last == StepView::Download { slot: sy, bytes: (4 * x.len()) as usize }
        },
        (WorkView::Relu { x }, StepView::Relu { slot }) => {
            &&& uploaded(steps, slot, k as nat) == Some(bytes_of_words32(x))
            &&& is_made(steps, slot, 4 * x.len() as int, k)
            &&& last == StepView::Download { slot, bytes: (4 * x.len()) as usize }
        },
        (
            WorkView::Gemm { a, b, m, n, k: l },
            StepView::Gemm { a: sa, b: sb, c: sc, m: sm, n: sn, k: sk },
        ) => {
            &&& (sm, sn, sk) == (m, n, l)
            &&& sa != sc && sb != sc
            &&& uploaded(steps, sa, k as nat) == Some(bytes_of_words32(a))
            &&& uploaded(steps, sb, k as nat) == Some(bytes_of_words32(b))
            &&& is_made(steps, sc, 4 * (m * n), k)
            &&& last == StepView::Download { slot: sc, bytes: (4 * (m * n)) as usize }
        },
        _ => false,
    }
}

/// A script lets the device do the work on the work's own numbers, and downloads
/// what came of it.
pub proof fn law_script_does_the_work(work: WorkView)
    requires
        work_fits(work),
    ensures
        exists|k: int| works_at(work, k),
{
    let steps = script(work);
    reveal_with_fuel(uploaded, 8);
    match work {
        WorkView::Fill { n, value } => {
            assert(steps[0].1 == StepView::Alloc { slot: 0, bytes: (4 * n) as usize });
            assert(works_at(work, 1));
        },
        WorkView::Axpy { alpha, x, y } => {
            assert(steps[0].1 == StepView::Alloc { slot: 0, bytes: (4 * x.len()) as usize });
            assert(steps[1].1 == StepView::Alloc { slot: 1, bytes: (4 * x.len()) as usize });
            assert(works_at(work, 4));
        },
        WorkView::Relu { x } => {
            assert(steps[0].1 == StepView::Alloc { slot: 0, bytes: (4 * x.len()) as usize });
            assert(works_at(work, 2));
        },
        WorkView::Gemm { a, b, m, n, k } => {
            assert(steps[2].1 == StepView::Alloc { slot: 2, bytes: (4 * (m * n)) as usize });
            assert(works_at(work, 5));
        },
    }
}

} // verus!
