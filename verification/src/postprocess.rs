//! Decoding of YOLO detections and non-maximum suppression.
//!
//! A detector puts out, for each anchor, a box (center and size in pixels of a
//! 640 x 640 input) and one score per class. Coordinates, scores and thresholds
//! are the bits of singles.

use vstd::prelude::*;
use crate::ieee::{
    add32, difference32, div32, from_whole, lemma_order32, less32, lt32, mul32, nan32, product32,
    quotient32, single_of, sub32, sum32,
};
use crate::model::{lemma_views_push, views};
use crate::scales::{larger, max32, min32, smaller};

pub mod measuring;
pub mod overlapping;
pub mod scaling;

verus! {

/// A single detection result.
#[derive(Debug, Clone, Copy)]
pub struct Detection {
    /// Bits of the bounding box in pixel coordinates: [x1, y1, x2, y2].
    pub bbox: [u32; 4],
    /// Class ID (0-indexed).
    pub class_id: u32,
    /// Bits of the confidence score (0.0 - 1.0).
    pub confidence: u32,
}

/// What a detection says.
pub struct DetectionView {
    pub x1: u32,
    pub y1: u32,
    pub x2: u32,
    pub y2: u32,
    pub class_id: u32,
    pub confidence: u32,
}

impl View for Detection {
    type V = DetectionView;

    open spec fn view(&self) -> DetectionView {
        DetectionView {
            x1: self.bbox@[0],
            y1: self.bbox@[1],
            x2: self.bbox@[2],
            y2: self.bbox@[3],
            class_id: self.class_id,
            confidence: self.confidence,
        }
    }
}

// ---------------------------------------------------------------------------
// Boxes
// ---------------------------------------------------------------------------

/// The length from `a` to `b`, none where `b` comes first.
pub open spec fn extent(a: u32, b: u32) -> u32 {
    larger(difference32(b, a), 0)
}

/// The area of a box.
pub open spec fn area_of(d: DetectionView) -> u32 {
    product32(extent(d.x1, d.x2), extent(d.y1, d.y2))
}

/// The area that two boxes share.
pub open spec fn shared_area(a: DetectionView, b: DetectionView) -> u32 {
    product32(
        extent(larger(a.x1, b.x1), smaller(a.x2, b.x2)),
        extent(larger(a.y1, b.y1), smaller(a.y2, b.y2)),
    )
}

/// The area that two boxes cover together.
pub open spec fn covered_area(a: DetectionView, b: DetectionView) -> u32 {
    difference32(sum32(area_of(a), area_of(b)), shared_area(a, b))
}

/// Intersection over union.
pub open spec fn overlap(a: DetectionView, b: DetectionView) -> u32 {
    if less32(0, covered_area(a, b)) {
        quotient32(shared_area(a, b), covered_area(a, b))
    } else {
        0
    }
}

fn length(a: u32, b: u32) -> (r: u32)
    ensures
        r == extent(a, b),
{
    max32(sub32(b, a), 0)
}

impl Detection {
    /// Create a new detection.
    pub fn new(bbox: [u32; 4], class_id: u32, confidence: u32) -> (r: Detection)
        ensures
            r.bbox == bbox,
            r.class_id == class_id,
            r.confidence == confidence,
    {
        Detection { bbox, class_id, confidence }
    }

    /// Calculate the area of the bounding box.
    pub fn area(&self) -> (r: u32)
        ensures
            r == area_of(self@),
    {
        mul32(length(self.bbox[0], self.bbox[2]), length(self.bbox[1], self.bbox[3]))
    }
}

/// Calculate Intersection over Union (IoU) between two detections.
pub fn iou(a: &Detection, b: &Detection) -> (r: u32)
    ensures
        r == overlap(a@, b@),
{
    let x1: u32 = max32(a.bbox[0], b.bbox[0]);
    let y1: u32 = max32(a.bbox[1], b.bbox[1]);
    let x2: u32 = min32(a.bbox[2], b.bbox[2]);
    let y2: u32 = min32(a.bbox[3], b.bbox[3]);
    let shared: u32 = mul32(length(x1, x2), length(y1, y2));
    let covered: u32 = sub32(add32(a.area(), b.area()), shared);
    if lt32(0, covered) {
        div32(shared, covered)
    } else {
        0
    }
}

// ---------------------------------------------------------------------------
// Decoding
// ---------------------------------------------------------------------------

/// Bits of 640.0, the side of the model's input.
pub const MODEL_SIZE: u32 = 0x4420_0000;

/// Bits of 2.0.
pub const TWO: u32 = 0x4000_0000;

/// Where a detector puts the values of an anchor.
#[derive(Clone, Copy, PartialEq, Eq, Structural)]
pub enum Layout {
    /// `[channels, anchors]`
    ChannelsFirst,
    /// `[anchors, channels]`
    AnchorsFirst,
}

/// The index of a channel of an anchor.
pub open spec fn place(layout: Layout, channels: int, anchors: int, channel: int, anchor: int) -> int {
    match layout {
        Layout::ChannelsFirst => channel * anchors + anchor,
        Layout::AnchorsFirst => anchor * channels + channel,
    }
}

/// A detector's output.
pub struct Output {
    pub raw: Seq<u32>,
    pub layout: Layout,
    pub classes: nat,
    pub anchors: nat,
}

impl Output {
    /// The value of a channel of an anchor.
    pub open spec fn at(self, channel: int, anchor: int) -> u32 {
        self.raw[place(self.layout, (self.classes + 4) as int, self.anchors as int, channel, anchor)]
    }

    /// Whether there are values for every anchor.
    pub open spec fn complete(self) -> bool {
        (4 + self.classes) * self.anchors <= self.raw.len()
    }

    /// The first of the best of the first `n` classes, and its score: class 0
    /// and no score where none is positive.
    pub open spec fn best(self, anchor: int, n: nat) -> (nat, u32)
        decreases n,
    {
        if n == 0 {
            (0, 0)
        } else {
            let before = self.best(anchor, (n - 1) as nat);
            let score = self.at(4 + n - 1, anchor);
            if less32(before.1, score) {
                ((n - 1) as nat, score)
            } else {
                before
            }
        }
    }
}

/// A coordinate in the image: scaled, and clamped to the image.
pub open spec fn pixel(v: u32, side: u32) -> u32 {
    smaller(
        larger(product32(v, quotient32(single_of(side as nat), MODEL_SIZE)), 0),
        single_of(side as nat),
    )
}

/// The detection of an anchor.
pub open spec fn decoded_anchor(o: Output, anchor: int, width: u32, height: u32) -> DetectionView {
    let half_w = quotient32(o.at(2, anchor), TWO);
    let half_h = quotient32(o.at(3, anchor), TWO);
    let best = o.best(anchor, o.classes);
    DetectionView {
        x1: pixel(difference32(o.at(0, anchor), half_w), width),
        y1: pixel(difference32(o.at(1, anchor), half_h), height),
        x2: pixel(sum32(o.at(0, anchor), half_w), width),
        y2: pixel(sum32(o.at(1, anchor), half_h), height),
        class_id: best.0 as u32,
        confidence: best.1,
    }
}

/// The detections of the first `n` anchors whose best score is not below the threshold.
pub open spec fn decoded(o: Output, width: u32, height: u32, threshold: u32, n: nat) -> Seq<
    DetectionView,
>
    decreases n,
{
    if n == 0 {
        Seq::empty()
    } else {
        let before = decoded(o, width, height, threshold, (n - 1) as nat);
        let d = decoded_anchor(o, n - 1, width, height);
        if less32(d.confidence, threshold) {
            before
        } else {
            before.push(d)
        }
    }
}

/// All detections; none where the output is too short.
pub open spec fn detections_in(o: Output, width: u32, height: u32, threshold: u32) -> Seq<
    DetectionView,
> {
    if o.complete() {
        decoded(o, width, height, threshold, o.anchors)
    } else {
        Seq::empty()
    }
}

proof fn lemma_place(layout: Layout, channels: int, anchors: int, channel: int, anchor: int)
    requires
        0 <= channel < channels,
        0 <= anchor < anchors,
    ensures
        0 <= place(layout, channels, anchors, channel, anchor) < channels * anchors,
        0 <= channel * anchors <= channels * anchors,
        0 <= anchor * channels <= channels * anchors,
{
    assert(0 <= channel * anchors && channel * anchors + anchors <= channels * anchors)
        by (nonlinear_arith)
        requires
            0 <= channel < channels,
            0 <= anchor < anchors,
    ;
    assert(0 <= anchor * channels && anchor * channels + channels <= channels * anchors)
        by (nonlinear_arith)
        requires
            0 <= channel < channels,
            0 <= anchor < anchors,
    ;
}

fn value_at(
    raw: &[u32],
    layout: Layout,
    classes: usize,
    anchors: usize,
    channel: usize,
    anchor: usize,
) -> (r: u32)
    requires
        (4 + classes) * anchors <= raw@.len(),
        channel < classes + 4 <= usize::MAX,
        anchor < anchors,
    ensures
        r == (Output { raw: raw@, layout, classes: classes as nat, anchors: anchors as nat }).at(
            channel as int,
            anchor as int,
        ),
{
    proof {
        lemma_place(layout, classes + 4, anchors as int, channel as int, anchor as int);
    }
    assert(raw@.len() == raw.len());
    match layout {
        Layout::ChannelsFirst => raw[channel * anchors + anchor],
        Layout::AnchorsFirst => raw[anchor * (classes + 4) + channel],
    }
}

fn to_pixel(v: u32, side: u32) -> (r: u32)
    ensures
        r == pixel(v, side),
{
    let s: u32 = from_whole(side as u64);
    min32(max32(mul32(v, div32(s, MODEL_SIZE)), 0), s)
}

fn decode_anchor(
    raw: &[u32],
    layout: Layout,
    classes: usize,
    anchors: usize,
    anchor: usize,
    width: u32,
    height: u32,
) -> (r: Detection)
    requires
        (4 + classes) * anchors <= raw@.len(),
        classes + 4 <= usize::MAX,
        anchor < anchors,
    ensures
        r@ == decoded_anchor(
            (Output { raw: raw@, layout, classes: classes as nat, anchors: anchors as nat }),
            anchor as int,
            width,
            height,
        ),
{
    let ghost o = Output { raw: raw@, layout, classes: classes as nat, anchors: anchors as nat };
    let cx: u32 = value_at(raw, layout, classes, anchors, 0, anchor);
    let cy: u32 = value_at(raw, layout, classes, anchors, 1, anchor);
    let half_w: u32 = div32(value_at(raw, layout, classes, anchors, 2, anchor), TWO);
    let half_h: u32 = div32(value_at(raw, layout, classes, anchors, 3, anchor), TWO);
    let mut best_class: usize = 0;
    let mut best_score: u32 = 0;
    let mut c: usize = 0;
    while c < classes
        invariant
            c <= classes,
            (4 + classes) * anchors <= raw@.len(),
            classes + 4 <= usize::MAX,
            anchor < anchors,
            o == (Output { raw: raw@, layout, classes: classes as nat, anchors: anchors as nat }),
            o.best(anchor as int, c as nat) == (best_class as nat, best_score),
        decreases classes - c,
    {
        let score: u32 = value_at(raw, layout, classes, anchors, 4 + c, anchor);
        if lt32(best_score, score) {
            best_score = score;
            best_class = c;
        }
        c = c + 1;
    }
    let x1: u32 = to_pixel(sub32(cx, half_w), width);
    let y1: u32 = to_pixel(sub32(cy, half_h), height);
    let x2: u32 = to_pixel(add32(cx, half_w), width);
    let y2: u32 = to_pixel(add32(cy, half_h), height);
    Detection::new([x1, y1, x2, y2], best_class as u32, best_score)
}

fn decode(
    raw: &[u32],
    layout: Layout,
    classes: usize,
    anchors: usize,
    width: u32,
    height: u32,
    threshold: u32,
) -> (r: Vec<Detection>)
    ensures
        views(r@) == detections_in(
            (Output { raw: raw@, layout, classes: classes as nat, anchors: anchors as nat }),
            width,
            height,
            threshold,
        ),
{
    let ghost o = Output { raw: raw@, layout, classes: classes as nat, anchors: anchors as nat };
    let mut r: Vec<Detection> = Vec::new();
    assert(views(r@) =~= Seq::empty());
    if anchors == 0 {
        assert((4 + o.classes) * 0 == 0) by (nonlinear_arith);
        return r;
    }
    assert(raw@.len() == raw.len());
    if classes > usize::MAX - 4 || 4 + classes > raw.len() / anchors {
        proof {
            let n = 4 + o.classes;
            let k = raw@.len();
            if n <= k {
                assert(n * o.anchors > k) by (nonlinear_arith)
                    requires
                        o.anchors > 0,
                        n > k / o.anchors,
                ;
            } else {
                assert(n * o.anchors > k) by (nonlinear_arith)
                    requires
                        o.anchors > 0,
                        n > k,
                ;
            }
        }
        return r;
    }
    proof {
        let n = 4 + o.classes;
        let k = raw@.len();
        assert(n * o.anchors <= k) by (nonlinear_arith)
            requires
                o.anchors > 0,
                n <= k / o.anchors,
        ;
    }
    let mut i: usize = 0;
    while i < anchors
        invariant
            i <= anchors,
            (4 + classes) * anchors <= raw@.len(),
            classes + 4 <= usize::MAX,
            o == (Output { raw: raw@, layout, classes: classes as nat, anchors: anchors as nat }),
            views(r@) == decoded(o, width, height, threshold, i as nat),
        decreases anchors - i,
    {
        broadcast use lemma_views_push;

        let d: Detection = decode_anchor(raw, layout, classes, anchors, i, width, height);
        if !lt32(d.confidence, threshold) {
            r.push(d);
        }
        i = i + 1;
    }
    r
}

/// Decode YOLOv8 raw output (layout `[1, 4 + num_classes, num_detections]`) to
/// detections with confidence not below the threshold.
pub fn decode_detections_v8(
    raw_output: &[u32],
    num_classes: usize,
    num_detections: usize,
    img_width: u32,
    img_height: u32,
    conf_threshold: u32,
) -> (r: Vec<Detection>)
    ensures
        views(r@) == detections_in(
            (Output {
                raw: raw_output@,
                layout: Layout::ChannelsFirst,
                classes: num_classes as nat,
                anchors: num_detections as nat,
            }),
            img_width,
            img_height,
            conf_threshold,
        ),
{
    decode(
        raw_output,
        Layout::ChannelsFirst,
        num_classes,
        num_detections,
        img_width,
        img_height,
        conf_threshold,
    )
}

/// Decode YOLOv8 raw output (alternative layout: `[1, num_detections, 4 + num_classes]`).
pub fn decode_detections_v8_alt(
    raw_output: &[u32],
    num_classes: usize,
    num_detections: usize,
    img_width: u32,
    img_height: u32,
    conf_threshold: u32,
) -> (r: Vec<Detection>)
    ensures
        views(r@) == detections_in(
            (Output {
                raw: raw_output@,
                layout: Layout::AnchorsFirst,
                classes: num_classes as nat,
                anchors: num_detections as nat,
            }),
            img_width,
            img_height,
            conf_threshold,
        ),
{
    decode(
        raw_output,
        Layout::AnchorsFirst,
        num_classes,
        num_detections,
        img_width,
        img_height,
        conf_threshold,
    )
}

// ---------------------------------------------------------------------------
// Non-maximum suppression
// ---------------------------------------------------------------------------

/// Where a detection goes among the first `n` of a list: behind the last one
/// that is not less confident.
pub open spec fn rank_of(s: Seq<DetectionView>, d: DetectionView, n: nat) -> nat
    decreases n,
{
    if n > 0 && less32(s[n - 1].confidence, d.confidence) {
        rank_of(s, d, (n - 1) as nat)
    } else {
        n
    }
}

/// The first `n` detections, the most confident first; equally confident ones keep their order.
pub open spec fn ranked(s: Seq<DetectionView>, n: nat) -> Seq<DetectionView>
    decreases n,
{
    if n == 0 {
        Seq::empty()
    } else {
        let before = ranked(s, (n - 1) as nat);
        before.insert(rank_of(before, s[n - 1], before.len()) as int, s[n - 1])
    }
}

/// Whether a kept detection takes another one out.
pub open spec fn covers(a: DetectionView, b: DetectionView, threshold: u32, any_class: bool) -> bool {
    (any_class || a.class_id == b.class_id) && less32(threshold, overlap(a, b))
}

/// Whether detection `i` is taken out by a kept one among the first `j`.
pub open spec fn suppressed(
    s: Seq<DetectionView>,
    threshold: u32,
    any_class: bool,
    i: nat,
    j: nat,
) -> bool
    decreases i, j,
    when j <= i
{
    j > 0 && (suppressed(s, threshold, any_class, i, (j - 1) as nat) || (covers(
        s[j - 1],
        s[i as int],
        threshold,
        any_class,
    ) && kept(s, threshold, any_class, (j - 1) as nat)))
}

/// Whether detection `i` of a ranked list is kept.
pub open spec fn kept(s: Seq<DetectionView>, threshold: u32, any_class: bool, i: nat) -> bool
    decreases i, i + 1,
{
    !suppressed(s, threshold, any_class, i, i)
}

/// The elements among the first `n` that a list of flags marks.
pub open spec fn marked(s: Seq<DetectionView>, keep: Seq<bool>, n: nat) -> Seq<DetectionView>
    decreases n,
{
    if n == 0 {
        Seq::empty()
    } else if keep[n - 1] {
        marked(s, keep, (n - 1) as nat).push(s[n - 1])
    } else {
        marked(s, keep, (n - 1) as nat)
    }
}

/// Which detections of a ranked list are kept.
pub open spec fn kept_flags(s: Seq<DetectionView>, threshold: u32, any_class: bool) -> Seq<bool> {
    Seq::new(s.len(), |i: int| kept(s, threshold, any_class, i as nat))
}

/// What is left of a list of detections: those kept, by rank.
pub open spec fn survivors(s: Seq<DetectionView>, threshold: u32, any_class: bool) -> Seq<
    DetectionView,
> {
    let all = ranked(s, s.len());
    marked(all, kept_flags(all, threshold, any_class), all.len())
}

proof fn lemma_rank_bound(s: Seq<DetectionView>, d: DetectionView, n: nat)
    ensures
        rank_of(s, d, n) <= n,
    decreases n,
{
    if n > 0 && less32(s[n - 1].confidence, d.confidence) {
        lemma_rank_bound(s, d, (n - 1) as nat);
    }
}

proof fn lemma_ranked_len(s: Seq<DetectionView>, n: nat)
    ensures
        ranked(s, n).len() == n,
    decreases n,
{
    if n > 0 {
        lemma_ranked_len(s, (n - 1) as nat);
        let before = ranked(s, (n - 1) as nat);
        lemma_rank_bound(before, s[n - 1], before.len());
    }
}

fn rank(detections: &Vec<Detection>) -> (r: Vec<Detection>)
    ensures
        views(r@) == ranked(views(detections@), detections@.len()),
{
    let ghost s = views(detections@);
    let mut r: Vec<Detection> = Vec::new();
    assert(views(r@) =~= Seq::empty());
    let mut i: usize = 0;
    while i < detections.len()
        invariant
            i <= detections@.len(),
            s == views(detections@),
            views(r@) == ranked(s, i as nat),
        decreases detections@.len() - i,
    {
        let d: Detection = detections[i];
        let ghost before = views(r@);
        assert(s[i as int] == d@);
        let mut p: usize = r.len();
        while p > 0 && lt32(r[p - 1].confidence, d.confidence)
            invariant
                p <= r@.len(),
                before == views(r@),
                rank_of(before, d@, p as nat) == rank_of(before, d@, before.len()),
            decreases p,
        {
            assert(before[p - 1] == r@[p - 1]@);
            p = p - 1;
        }
        proof {
            if p > 0 {
                assert(before[p - 1] == r@[p - 1]@);
            }
        }
        r.insert(p, d);
        assert(views(r@) =~= before.insert(p as int, d@));
        i = i + 1;
    }
    r
}

fn drop_covered(detections: &Vec<Detection>, threshold: u32, any_class: bool) -> (r: Vec<bool>)
    ensures
        r@ == kept_flags(views(detections@), threshold, any_class),
{
    let ghost s = views(detections@);
    let n: usize = detections.len();
    let mut keep: Vec<bool> = Vec::new();
    let mut k: usize = 0;
    while k < n
        invariant
            k <= n,
            keep@.len() == k,
            forall|m: int| 0 <= m < k ==> keep@[m],
        decreases n - k,
    {
        keep.push(true);
        k = k + 1;
    }
    let mut i: usize = 0;
    while i < n
        invariant
            i <= n == keep@.len(),
            n == detections@.len(),
            s == views(detections@),
            forall|m: nat|
                m < n ==> (#[trigger] keep@[m as int] == !suppressed(
                    s,
                    threshold,
                    any_class,
                    m,
                    if m < i {
                        m
                    } else {
                        i as nat
                    },
                )),
        decreases n - i,
    {
        assert(keep@[i as nat as int] == kept(s, threshold, any_class, i as nat));
        if keep[i] {
            let mut j: usize = i + 1;
            while j < n
                invariant
                    i < j <= n == keep@.len(),
                    n == detections@.len(),
                    s == views(detections@),
                    kept(s, threshold, any_class, i as nat),
                    forall|m: nat|
                        m < n ==> (#[trigger] keep@[m as int] == !suppressed(
                            s,
                            threshold,
                            any_class,
                            m,
                            if m <= i {
                                m
                            } else if m < j {
                                (i + 1) as nat
                            } else {
                                i as nat
                            },
                        )),
                decreases n - j,
            {
                assert(s[i as int] == detections@[i as int]@);
                assert(s[j as int] == detections@[j as int]@);
                let ghost was = keep@;
                assert(was[j as nat as int] == !suppressed(
                    s,
                    threshold,
                    any_class,
                    j as nat,
                    i as nat,
                ));
                if keep[j] && (any_class || detections[i].class_id == detections[j].class_id) && lt32(
                    threshold,
                    iou(&detections[i], &detections[j]),
                ) {
                    keep.set(j, false);
                }
                assert(keep@[j as int] == !suppressed(
                    s,
                    threshold,
                    any_class,
                    j as nat,
                    (i + 1) as nat,
                ));
                assert forall|m: nat| m < n implies (#[trigger] keep@[m as int] == !suppressed(
                    s,
                    threshold,
                    any_class,
                    m,
                    if m <= i {
                        m
                    } else if m < j + 1 {
                        (i + 1) as nat
                    } else {
                        i as nat
                    },
                )) by {
                    if m != j {
                        assert(keep@[m as int] == was[m as int]);
                    }
                }
                j = j + 1;
            }
        } else {
            assert forall|m: nat| m < n implies (#[trigger] keep@[m as int] == !suppressed(
                s,
                threshold,
                any_class,
                m,
                if m < i + 1 {
                    m
                } else {
                    (i + 1) as nat
                },
            )) by {}
        }
        i = i + 1;
    }
    proof {
        assert forall|m: int| 0 <= m < n implies keep@[m] == kept_flags(s, threshold, any_class)[m] by {
            assert(keep@[m as nat as int] == kept(s, threshold, any_class, m as nat));
        }
        assert(keep@ =~= kept_flags(s, threshold, any_class));
    }
    keep
}

fn suppress(detections: &mut Vec<Detection>, threshold: u32, any_class: bool)
    ensures
        views(final(detections)@) == survivors(views(old(detections)@), threshold, any_class),
{
    broadcast use lemma_views_push;

    let all: Vec<Detection> = rank(detections);
    let keep: Vec<bool> = drop_covered(&all, threshold, any_class);
    let ghost ranks = views(all@);
    let mut left: Vec<Detection> = Vec::new();
    assert(views(left@) =~= Seq::empty());
    let mut i: usize = 0;
    while i < all.len()
        invariant
            i <= all@.len(),
            ranks == views(all@),
            keep@.len() == all@.len(),
            views(left@) == marked(ranks, keep@, i as nat),
        decreases all@.len() - i,
    {
        assert(ranks[i as int] == all@[i as int]@);
        if keep[i] {
            left.push(all[i]);
        }
        i = i + 1;
    }
    *detections = left;
}

/// Apply Non-Maximum Suppression (NMS) to a list of detections.
///
/// NMS removes overlapping detections for the same class, keeping only
/// the highest-confidence one from each cluster.
pub fn nms(detections: &mut Vec<Detection>, iou_threshold: u32)
    ensures
        views(final(detections)@) == survivors(views(old(detections)@), iou_threshold, false),
{
    suppress(detections, iou_threshold, false);
}

/// Apply class-agnostic NMS (for when classes overlap naturally).
///
/// This variant suppresses overlapping detections regardless of class.
pub fn nms_agnostic(detections: &mut Vec<Detection>, iou_threshold: u32)
    ensures
        views(final(detections)@) == survivors(views(old(detections)@), iou_threshold, true),
{
    suppress(detections, iou_threshold, true);
}

/// Full YOLO post-processing pipeline: decoding, then NMS.
pub fn postprocess_yolo(
    raw_output: &[u32],
    num_classes: usize,
    num_detections: usize,
    img_width: u32,
    img_height: u32,
    conf_threshold: u32,
    iou_threshold: u32,
) -> (r: Vec<Detection>)
    ensures
        views(r@) == survivors(
            detections_in(
                (Output {
                    raw: raw_output@,
                    layout: Layout::ChannelsFirst,
                    classes: num_classes as nat,
                    anchors: num_detections as nat,
                }),
                img_width,
                img_height,
                conf_threshold,
            ),
            iou_threshold,
            false,
        ),
{
    let mut detections: Vec<Detection> = decode_detections_v8(
        raw_output,
        num_classes,
        num_detections,
        img_width,
        img_height,
        conf_threshold,
    );
    nms(&mut detections, iou_threshold);
    detections
}

// ---------------------------------------------------------------------------
// Laws
// ---------------------------------------------------------------------------

/// Every decoded detection is at least as confident as the threshold asks.
pub proof fn law_decoded_are_confident(
    o: Output,
    width: u32,
    height: u32,
    threshold: u32,
    i: int,
)
    requires
        0 <= i < detections_in(o, width, height, threshold).len(),
    ensures
        !less32(detections_in(o, width, height, threshold)[i].confidence, threshold),
{
    lemma_decoded_are_confident(o, width, height, threshold, o.anchors, i);
}

proof fn lemma_decoded_are_confident(
    o: Output,
    width: u32,
    height: u32,
    threshold: u32,
    n: nat,
    i: int,
)
    requires
        0 <= i < decoded(o, width, height, threshold, n).len(),
    ensures
        !less32(decoded(o, width, height, threshold, n)[i].confidence, threshold),
    decreases n,
{
    if n > 0 && i < decoded(o, width, height, threshold, (n - 1) as nat).len() {
        lemma_decoded_are_confident(o, width, height, threshold, (n - 1) as nat, i);
    }
}

/// Both layouts of one output decode to the same detections.
pub proof fn law_layouts_agree(a: Output, b: Output, width: u32, height: u32, threshold: u32)
    requires
        a.layout == Layout::ChannelsFirst,
        b.layout == Layout::AnchorsFirst,
        a.classes == b.classes,
        a.anchors == b.anchors,
        a.complete() == b.complete(),
        forall|c: int, i: int| 0 <= c < a.classes + 4 && 0 <= i < a.anchors ==> a.at(c, i) == b.at(c, i),
    ensures
        detections_in(a, width, height, threshold) == detections_in(b, width, height, threshold),
{
    lemma_layouts_agree(a, b, width, height, threshold, a.anchors);
}

proof fn lemma_layouts_agree(
    a: Output,
    b: Output,
    width: u32,
    height: u32,
    threshold: u32,
    n: nat,
)
    requires
        n <= a.anchors,
        a.classes == b.classes,
        a.anchors == b.anchors,
        forall|c: int, i: int| 0 <= c < a.classes + 4 && 0 <= i < a.anchors ==> a.at(c, i) == b.at(c, i),
    ensures
        decoded(a, width, height, threshold, n) == decoded(b, width, height, threshold, n),
    decreases n,
{
    if n > 0 {
        lemma_layouts_agree(a, b, width, height, threshold, (n - 1) as nat);
        lemma_best_agree(a, b, n - 1, a.classes);
        assert(a.at(0, n - 1) == b.at(0, n - 1));
        assert(a.at(1, n - 1) == b.at(1, n - 1));
        assert(a.at(2, n - 1) == b.at(2, n - 1));
        assert(a.at(3, n - 1) == b.at(3, n - 1));
    }
}

proof fn lemma_best_agree(a: Output, b: Output, i: int, n: nat)
    requires
        0 <= i < a.anchors,
        n <= a.classes,
        forall|c: int, i: int| 0 <= c < a.classes + 4 && 0 <= i < a.anchors ==> a.at(c, i) == b.at(c, i),
    ensures
        a.best(i, n) == b.best(i, n),
    decreases n,
{
    if n > 0 {
        lemma_best_agree(a, b, i, (n - 1) as nat);
        assert(a.at(4 + n - 1, i) == b.at(4 + n - 1, i));
    }
}

/// Ranking keeps every detection.
pub proof fn law_ranking_keeps_all(s: Seq<DetectionView>)
    ensures
        ranked(s, s.len()).to_multiset() == s.to_multiset(),
{
    lemma_ranked_multiset(s, s.len());
    assert(s.take(s.len() as int) =~= s);
}

proof fn lemma_ranked_multiset(s: Seq<DetectionView>, n: nat)
    requires
        n <= s.len(),
    ensures
        ranked(s, n).to_multiset() == s.take(n as int).to_multiset(),
    decreases n,
{
    broadcast use vstd::seq_lib::group_to_multiset_ensures;

    if n == 0 {
        assert(s.take(0) =~= ranked(s, 0));
    } else {
        lemma_ranked_multiset(s, (n - 1) as nat);
        let before = ranked(s, (n - 1) as nat);
        let p = rank_of(before, s[n - 1], before.len()) as int;
        lemma_rank_bound(before, s[n - 1], before.len());
        let after = ranked(s, n);
        assert(after[p] == s[n - 1]);
        assert(after.remove(p) =~= before);
        assert(after.to_multiset().remove(s[n - 1]) =~= before.to_multiset());
        assert(after.contains(after[p]));
        assert(after.to_multiset() =~= before.to_multiset().insert(s[n - 1]));
        assert(s.take(n as int) =~= s.take(n - 1).push(s[n - 1]));
    }
}

/// A list whose confidences are all numbers is ranked from the most to the least confident.
pub proof fn law_ranked_by_confidence(s: Seq<DetectionView>, i: int, j: int)
    requires
        forall|k: int| 0 <= k < s.len() ==> !nan32((#[trigger] s[k]).confidence),
        0 <= i < j < s.len(),
    ensures
        !less32(ranked(s, s.len())[i].confidence, ranked(s, s.len())[j].confidence),
{
    lemma_ranked_descends(s, s.len());
}

spec fn descends(s: Seq<DetectionView>) -> bool {
    &&& forall|k: int| 0 <= k < s.len() ==> !nan32((#[trigger] s[k]).confidence)
    &&& forall|i: int, j: int|
        0 <= i < j < s.len() ==> !less32((#[trigger] s[i]).confidence, (#[trigger] s[j]).confidence)
}

proof fn lemma_rank_splits(s: Seq<DetectionView>, d: DetectionView, n: nat)
    requires
        descends(s),
        n <= s.len(),
        !nan32(d.confidence),
        forall|k: int| n <= k < s.len() ==> less32((#[trigger] s[k]).confidence, d.confidence),
    ensures
        rank_of(s, d, n) <= n,
        forall|k: int| rank_of(s, d, n) <= k < s.len() ==> less32((#[trigger] s[k]).confidence, d.confidence),
        forall|k: int| 0 <= k < rank_of(s, d, n) ==> !less32((#[trigger] s[k]).confidence, d.confidence),
    decreases n,
{
    if n > 0 && less32(s[n - 1].confidence, d.confidence) {
        lemma_rank_splits(s, d, (n - 1) as nat);
    } else if n > 0 {
        assert forall|k: int| 0 <= k < n implies !less32((#[trigger] s[k]).confidence, d.confidence) by {
            if k < n - 1 {
                assert(!less32(s[k].confidence, s[n - 1].confidence));
                lemma_order32(s[k].confidence, s[n - 1].confidence, d.confidence);
            }
        }
    }
}

proof fn lemma_ranked_descends(s: Seq<DetectionView>, n: nat)
    requires
        n <= s.len(),
        forall|k: int| 0 <= k < s.len() ==> !nan32((#[trigger] s[k]).confidence),
    ensures
        ranked(s, n).len() == n,
        descends(ranked(s, n)),
    decreases n,
{
    if n > 0 {
        lemma_ranked_descends(s, (n - 1) as nat);
        let before = ranked(s, (n - 1) as nat);
        let d = s[n - 1];
        lemma_rank_splits(before, d, before.len());
        let p = rank_of(before, d, before.len()) as int;
        let after = ranked(s, n);
        assert(after =~= before.insert(p, d));
        assert forall|k: int| 0 <= k < after.len() implies !nan32((#[trigger] after[k]).confidence) by {
            if k < p {
                assert(after[k] == before[k]);
            } else if k > p {
                assert(after[k] == before[k - 1]);
            }
        }
        assert forall|i: int, j: int| 0 <= i < j < after.len() implies !less32(
            (#[trigger] after[i]).confidence,
            (#[trigger] after[j]).confidence,
        ) by {
            let x = if i < p {
                before[i]
            } else {
                before[i - 1]
            };
            let y = if j < p {
                before[j]
            } else {
                before[j - 1]
            };
            if i == p {
                assert(after[j] == y);
                lemma_order32(y.confidence, d.confidence, y.confidence);
            } else if j == p {
                assert(after[i] == x);
            } else {
                assert(after[i] == x && after[j] == y);
            }
        }
    }
}

/// Of two kept detections that could take each other out, the less confident
/// one does not overlap the other beyond the threshold.
pub proof fn law_kept_do_not_overlap(
    s: Seq<DetectionView>,
    threshold: u32,
    any_class: bool,
    i: nat,
    j: nat,
)
    requires
        i < j < s.len(),
        kept(s, threshold, any_class, i),
        kept(s, threshold, any_class, j),
    ensures
        !covers(s[i as int], s[j as int], threshold, any_class),
{
    if covers(s[i as int], s[j as int], threshold, any_class) {
        lemma_suppressed_by(s, threshold, any_class, j, j, i);
    }
}

proof fn lemma_suppressed_by(
    s: Seq<DetectionView>,
    threshold: u32,
    any_class: bool,
    j: nat,
    n: nat,
    i: nat,
)
    requires
        i < n <= j,
        covers(s[i as int], s[j as int], threshold, any_class),
        kept(s, threshold, any_class, i),
    ensures
        suppressed(s, threshold, any_class, j, n),
    decreases n,
{
    if i < n - 1 {
        lemma_suppressed_by(s, threshold, any_class, j, (n - 1) as nat, i);
    }
}

/// A detection that is taken out overlaps a kept one, ranked before it, beyond the threshold.
pub proof fn law_removed_for_a_kept_one(
    s: Seq<DetectionView>,
    threshold: u32,
    any_class: bool,
    j: nat,
) -> (i: nat)
    requires
        j < s.len(),
        !kept(s, threshold, any_class, j),
    ensures
        i < j,
        kept(s, threshold, any_class, i),
        covers(s[i as int], s[j as int], threshold, any_class),
{
    lemma_suppressor(s, threshold, any_class, j, j)
}

proof fn lemma_suppressor(
    s: Seq<DetectionView>,
    threshold: u32,
    any_class: bool,
    j: nat,
    n: nat,
) -> (i: nat)
    requires
        n <= j,
        suppressed(s, threshold, any_class, j, n),
    ensures
        i < n,
        kept(s, threshold, any_class, i),
        covers(s[i as int], s[j as int], threshold, any_class),
    decreases n,
{
    if suppressed(s, threshold, any_class, j, (n - 1) as nat) {
        lemma_suppressor(s, threshold, any_class, j, (n - 1) as nat)
    } else {
        (n - 1) as nat
    }
}

/// Of a list whose confidences are all numbers, the survivors come from the
/// most to the least confident.
pub proof fn law_survivors_by_confidence(
    s: Seq<DetectionView>,
    threshold: u32,
    any_class: bool,
    i: int,
    j: int,
)
    requires
        forall|k: int| 0 <= k < s.len() ==> !nan32((#[trigger] s[k]).confidence),
        0 <= i < j < survivors(s, threshold, any_class).len(),
    ensures
        !less32(
            survivors(s, threshold, any_class)[i].confidence,
            survivors(s, threshold, any_class)[j].confidence,
        ),
{
    lemma_ranked_descends(s, s.len());
    let all = ranked(s, s.len());
    lemma_marked_descends(all, kept_flags(all, threshold, any_class), all.len());
}

proof fn lemma_marked_descends(s: Seq<DetectionView>, keep: Seq<bool>, n: nat)
    requires
        descends(s),
        n <= s.len(),
    ensures
        descends(marked(s, keep, n)),
        forall|i: int, k: int|
            0 <= i < marked(s, keep, n).len() && n <= k < s.len() ==> !less32(
                (#[trigger] marked(s, keep, n)[i]).confidence,
                (#[trigger] s[k]).confidence,
            ),
    decreases n,
{
    if n > 0 {
        lemma_marked_descends(s, keep, (n - 1) as nat);
    }
}

/// The most confident detection always stays, in front.
pub proof fn law_best_stays_first(s: Seq<DetectionView>, threshold: u32, any_class: bool)
    requires
        s.len() > 0,
    ensures
        survivors(s, threshold, any_class).len() > 0,
        survivors(s, threshold, any_class)[0] == ranked(s, s.len())[0],
{
    lemma_ranked_len(s, s.len());
    let all = ranked(s, s.len());
    lemma_first_stays(all, kept_flags(all, threshold, any_class), all.len());
}

proof fn lemma_first_stays(s: Seq<DetectionView>, keep: Seq<bool>, n: nat)
    requires
        keep[0],
        n > 0,
    ensures
        marked(s, keep, n).len() > 0,
        marked(s, keep, n)[0] == s[0],
    decreases n,
{
    if n > 1 {
        lemma_first_stays(s, keep, (n - 1) as nat);
    } else {
        assert(marked(s, keep, 0) =~= Seq::empty());
    }
}

} // verus!
