//! Graph execution on the host.
//!
//! Tensors are kept as bytes. F32 graphs compute on singles; F16 graphs compute
//! on the same numbers and round every result to a half.

use vstd::prelude::*;
use vstd::string::*;
use crate::builder::{CompiledOp, OpView};
use crate::calibration::{bytes_in, checked_size, named_before, size_fits, sizes_fit};
use crate::error::{outcome, Error, ErrorView};
use crate::graph::{Graph, GraphView};
use crate::ieee::{from_half, half_of_single, narrow_to_half, single_of_half};
use crate::model::copy_vec;
use crate::name_map::{distinct_names, lemma_pair_in_map, stands_at, NameMap};
use crate::proto::{
    bytes_of_words32, from_words32, law_words32_round_trip, little_endian, to_words32, words32,
};
use crate::tensor::{Dtype, TensorShape};
use crate::text::{concat2, str_eq};

pub mod cpu;
pub mod generic;
pub mod meaning;

verus! {

// ---------------------------------------------------------------------------
// Numbers in bytes
// ---------------------------------------------------------------------------

/// The little-endian 16-bit words of `s`; a byte at the end may be left over.
pub open spec fn halves16(s: Seq<u8>) -> Seq<u16> {
    Seq::new(s.len() / 2, |i: int| (s[2 * i] + 256 * s[2 * i + 1]) as u16)
}

/// The words one after another, each as its two little-endian bytes.
pub open spec fn bytes_of_halves(h: Seq<u16>) -> Seq<u8> {
    Seq::new(
        2 * h.len(),
        |i: int|
            if i % 2 == 0 {
                (h[i / 2] % 256) as u8
            } else {
                (h[i / 2] / 256) as u8
            },
    )
}

/// Halves as singles.
pub open spec fn singles_of(h: Seq<u16>) -> Seq<u32> {
    h.map_values(|x: u16| single_of_half(x))
}

/// Singles as halves.
pub open spec fn halves_of(v: Seq<u32>) -> Seq<u16> {
    v.map_values(|x: u32| half_of_single(x))
}

/// The 16-bit words of a byte string.
pub fn to_halves16(data: &[u8]) -> (r: Vec<u16>)
    ensures
        r@ == halves16(data@),
{
    let n: usize = data.len() / 2;
    let mut r: Vec<u16> = Vec::new();
    let mut i: usize = 0;
    while i < n
        invariant
            i <= n == data@.len() / 2,
            data@.len() <= usize::MAX,
            r@ == halves16(data@).take(i as int),
        decreases n - i,
    {
        r.push(data[2 * i] as u16 + 256 * data[2 * i + 1] as u16);
        i = i + 1;
        assert(r@ =~= halves16(data@).take(i as int));
    }
    assert(halves16(data@).take(i as int) =~= halves16(data@));
    r
}

/// 16-bit words as little-endian bytes.
pub fn from_halves16(h: &Vec<u16>) -> (r: Vec<u8>)
    ensures
        r@ == bytes_of_halves(h@),
{
    let mut r: Vec<u8> = Vec::new();
    let mut i: usize = 0;
    while i < h.len()
        invariant
            i <= h@.len(),
            r@.len() == 2 * i,
            r@ == bytes_of_halves(h@).take(2 * i),
        decreases h@.len() - i,
    {
        r.push((h[i] % 256) as u8);
        r.push((h[i] / 256) as u8);
        i = i + 1;
        assert((2 * i - 2) / 2 == i - 1 && (2 * i - 1) / 2 == i - 1);
        assert(r@ =~= bytes_of_halves(h@).take(2 * i));
    }
    assert(bytes_of_halves(h@).take(2 * i) =~= bytes_of_halves(h@));
    r
}

/// Halves as singles.
pub fn to_singles(h: &Vec<u16>) -> (r: Vec<u32>)
    ensures
        r@ == singles_of(h@),
{
    let mut r: Vec<u32> = Vec::new();
    let mut i: usize = 0;
    while i < h.len()
        invariant
            i <= h@.len(),
            r@ == singles_of(h@).take(i as int),
        decreases h@.len() - i,
    {
        r.push(from_half(h[i]));
        i = i + 1;
        assert(r@ =~= singles_of(h@).take(i as int));
    }
    assert(singles_of(h@).take(i as int) =~= singles_of(h@));
    r
}

/// Singles as halves.
pub fn to_halves(v: &Vec<u32>) -> (r: Vec<u16>)
    ensures
        r@ == halves_of(v@),
{
    let mut r: Vec<u16> = Vec::new();
    let mut i: usize = 0;
    while i < v.len()
        invariant
            i <= v@.len(),
            r@ == halves_of(v@).take(i as int),
        decreases v@.len() - i,
    {
        r.push(narrow_to_half(v[i]));
        i = i + 1;
        assert(r@ =~= halves_of(v@).take(i as int));
    }
    assert(halves_of(v@).take(i as int) =~= halves_of(v@));
    r
}

/// Singles in bytes turned into halves in bytes.
pub open spec fn f16_bytes(data: Seq<u8>) -> Seq<u8> {
    bytes_of_halves(halves_of(words32(data)))
}

/// Halves in bytes turned into singles in bytes.
pub open spec fn f32_bytes(data: Seq<u8>) -> Seq<u8> {
    bytes_of_words32(singles_of(halves16(data)))
}

/// Convert F32 data to F16.
pub fn convert_f32_to_f16(data: &[u8]) -> (r: Vec<u8>)
    ensures
        r@ == f16_bytes(data@),
{
    from_halves16(&to_halves(&to_words32(data)))
}

/// Convert F16 data to F32.
pub fn convert_f16_to_f32(data: &[u8]) -> (r: Vec<u8>)
    ensures
        r@ == f32_bytes(data@),
{
    from_words32(&to_singles(&to_halves16(data)))
}

/// The type of a graph's numbers.
#[derive(Debug, Clone, Copy, PartialEq, Eq, Structural)]
pub enum Float {
    Single,
    Half,
}

/// The type of a graph's numbers; integers have none.
pub open spec fn float_of(d: Dtype) -> Option<Float> {
    match d {
        Dtype::F32 => Some(Float::Single),
        Dtype::F16 => Some(Float::Half),
        _ => None,
    }
}

/// The type of a graph's numbers.
pub fn to_float(d: Dtype) -> (r: Option<Float>)
    ensures
        r == float_of(d),
{
    match d {
        Dtype::F32 => Some(Float::Single),
        Dtype::F16 => Some(Float::Half),
        _ => None,
    }
}

/// Bytes per number.
pub open spec fn width(f: Float) -> nat {
    match f {
        Float::Single => 4,
        Float::Half => 2,
    }
}

/// The numbers in a byte string, as singles.
pub open spec fn decoded(f: Float, data: Seq<u8>) -> Seq<u32> {
    match f {
        Float::Single => words32(data),
        Float::Half => singles_of(halves16(data)),
    }
}

/// Singles as a byte string of numbers.
pub open spec fn encoded(f: Float, v: Seq<u32>) -> Seq<u8> {
    match f {
        Float::Single => bytes_of_words32(v),
        Float::Half => bytes_of_halves(halves_of(v)),
    }
}

/// The numbers in a byte string, as singles.
pub fn decode(f: Float, data: &[u8]) -> (r: Vec<u32>)
    ensures
        r@ == decoded(f, data@),
{
    match f {
        Float::Single => to_words32(data),
        Float::Half => to_singles(&to_halves16(data)),
    }
}

/// Singles as a byte string of numbers.
pub fn encode(f: Float, v: &Vec<u32>) -> (r: Vec<u8>)
    ensures
        r@ == encoded(f, v@),
{
    match f {
        Float::Single => from_words32(v),
        Float::Half => from_halves16(&to_halves(v)),
    }
}

/// Numbers as they are once stored.
pub open spec fn stored(f: Float, v: Seq<u32>) -> Seq<u32> {
    match f {
        Float::Single => v,
        Float::Half => singles_of(halves_of(v)),
    }
}

/// Numbers as they are once stored.
pub fn store(f: Float, v: Vec<u32>) -> (r: Vec<u32>)
    ensures
        r@ == stored(f, v@),
{
    match f {
        Float::Single => v,
        Float::Half => to_singles(&to_halves(&v)),
    }
}

// ---------------------------------------------------------------------------
// Buffers
// ---------------------------------------------------------------------------

/// An initializer in the type of the graph's numbers.
pub open spec fn converted(from: Dtype, to: Dtype, data: Seq<u8>) -> Seq<u8> {
    if from == Dtype::F32 && to == Dtype::F16 {
        f16_bytes(data)
    } else if from == Dtype::F16 && to == Dtype::F32 {
        f32_bytes(data)
    } else {
        data
    }
}

/// An initializer in the type of the graph's numbers.
pub fn convert(from: Dtype, to: Dtype, data: &Vec<u8>) -> (r: Vec<u8>)
    ensures
        r@ == converted(from, to, data@),
{
    if from == Dtype::F32 && to == Dtype::F16 {
        convert_f32_to_f16(data.as_slice())
    } else if from == Dtype::F16 && to == Dtype::F32 {
        convert_f16_to_f32(data.as_slice())
    } else {
        copy_vec(data)
    }
}

/// The initializer of a tensor, in the type of the graph's numbers.
pub open spec fn upload_of(g: GraphView, name: Seq<char>) -> Seq<u8> {
    converted(g.shapes[name].dtype, g.dtype, g.initializers[name])
}

/// What a tensor's buffer holds at first: its initializer, where that has the right size, or zeros.
pub open spec fn first_bytes(g: GraphView, name: Seq<char>) -> Seq<u8> {
    let size = bytes_in(g.shapes[name]);
    if g.initializers.dom().contains(name) && upload_of(g, name).len() == size {
        upload_of(g, name)
    } else {
        Seq::new(size, |i: int| 0)
    }
}

/// All buffers at first.
pub open spec fn first_memory(g: GraphView) -> Map<Seq<char>, Seq<u8>> {
    Map::new(
        |k: Seq<char>| g.shapes.dom().contains(k),
        |k: Seq<char>| first_bytes(g, k),
    )
}

/// Bytes that are zero.
pub fn zero_bytes(n: usize) -> (r: Vec<u8>)
    ensures
        r@ == Seq::new(n as nat, |i: int| 0u8),
{
    let mut r: Vec<u8> = Vec::new();
    let mut i: usize = 0;
    while i < n
        invariant
            i <= n,
            r@ == Seq::new(i as nat, |i: int| 0u8),
        decreases n - i,
    {
        r.push(0);
        i = i + 1;
        assert(r@ =~= Seq::new(i as nat, |i: int| 0u8));
    }
    r
}

fn make_memory(graph: &Graph) -> (r: Option<NameMap<Vec<u8>>>)
    ensures
        match r {
            Some(m) => sizes_fit(graph@) && m@ == first_memory(graph@),
            None => !sizes_fit(graph@),
        },
{
    let ghost g = graph@;
    let ghost pairs = graph.shapes.pairs();
    let mut m: NameMap<Vec<u8>> = NameMap::new();
    let n: usize = graph.shapes.len();
    let mut i: usize = 0;
    while i < n
        invariant
            i <= n == pairs.len(),
            g == graph@,
            pairs == graph.shapes.pairs(),
            distinct_names(pairs),
            forall|k: Seq<char>| #[trigger] m@.dom().contains(k) <==> named_before(pairs, k, i as int),
            forall|k: Seq<char>| #[trigger] m@.dom().contains(k) ==> m@[k] == first_bytes(g, k),
            forall|j: int| 0 <= j < i ==> size_fits((#[trigger] pairs[j]).1),
        decreases n - i,
    {
        let name: &String = graph.shapes.key_at(i);
        let shape: &TensorShape = graph.shapes.value_at(i);
        proof {
            lemma_pair_in_map(pairs, i as int);
            assert(g.shapes.dom().contains(name@));
            assert(g.shapes[name@] == shape@);
        }
        let size: usize = match checked_size(shape) {
            Some(s) => s,
            None => {
                assert(!size_fits(g.shapes[name@]));
                return None;
            },
        };
        let bytes: Vec<u8> = match graph.initializers.get(name.as_str()) {
            Some(data) => {
                let upload: Vec<u8> = convert(shape.dtype, graph.dtype, data);
                if upload.len() == size {
                    upload
                } else {
                    zero_bytes(size)
                }
            },
            None => zero_bytes(size),
        };
        assert(bytes@ =~= first_bytes(g, name@));
        let ghost before = m@;
        m.insert(name.clone(), bytes);
        proof {
            assert forall|k: Seq<char>| #[trigger] m@.dom().contains(k) <==> named_before(
                pairs,
                k,
                i + 1,
            ) by {
                crate::calibration::lemma_named_step(pairs, k, i as int);
                assert(m@.dom().contains(k) == (before.dom().contains(k) || k == name@));
            }
        }
        i = i + 1;
    }
    proof {
        assert forall|k: Seq<char>| #[trigger] g.shapes.dom().contains(k) implies size_fits(
            g.shapes[k],
        ) && m@.dom().contains(k) by {
            crate::calibration::lemma_named_all(pairs, k);
            let j = choose|j: int| stands_at(pairs, k, j);
            assert(stands_at(pairs, k, j));
            assert(pairs[j].0 == k);
            lemma_pair_in_map(pairs, j);
        }
        assert forall|k: Seq<char>| #[trigger] m@.dom().contains(k) implies g.shapes.dom().contains(k) by {
            crate::calibration::lemma_named_all(pairs, k);
        }
        assert(m@ =~= first_memory(g));
    }
    Some(m)
}

/// The bytes of a tensor.
pub open spec fn bytes_of(mem: Map<Seq<char>, Seq<u8>>, name: Seq<char>) -> Result<
    Seq<u8>,
    ErrorView,
> {
    if mem.dom().contains(name) {
        Ok(mem[name])
    } else {
        Err(ErrorView::Runtime("buffer not found: "@ + name))
    }
}

/// A copy of the bytes of a tensor.
pub fn find_bytes(mem: &NameMap<Vec<u8>>, name: &String) -> (r: Result<Vec<u8>, Error>)
    ensures
        outcome(r) == bytes_of(mem@, name@),
{
    match mem.get(name.as_str()) {
        Some(v) => Ok(copy_vec(v)),
        None => Err(Error::Runtime(concat2("buffer not found: ", name.as_str()))),
    }
}

/// The third input of an op, if it names one that there is.
pub open spec fn third_input(mem: Map<Seq<char>, Seq<u8>>, op: OpView) -> Option<Seq<u8>> {
    if op.inputs.len() > 2 && op.inputs[2].len() > 0 && mem.dom().contains(op.inputs[2]) {
        Some(mem[op.inputs[2]])
    } else {
        None
    }
}

/// A copy of the third input of an op, if it names one that there is.
pub fn find_third(mem: &NameMap<Vec<u8>>, op: &CompiledOp) -> (r: Option<Vec<u8>>)
    ensures
        match r {
            Some(v) => third_input(mem@, op@) == Some(v@),
            None => third_input(mem@, op@) is None,
        },
{
    if op.inputs.len() > 2 {
        assert(op@.inputs[2] == op.inputs@[2]@);
        proof {
            reveal_strlit("");
        }
        if !str_eq(op.inputs[2].as_str(), "") {
            proof {
                if op@.inputs[2].len() == 0 {
                    assert(op@.inputs[2] =~= ""@);
                }
            }
            match mem.get(op.inputs[2].as_str()) {
                Some(v) => {
                    return Some(copy_vec(v));
                },
                None => {},
            }
        }
    }
    None
}

// ---------------------------------------------------------------------------
// Laws
// ---------------------------------------------------------------------------

proof fn lemma_words_of_front(a: Seq<u8>, b: Seq<u8>)
    requires
        a.len() % 4 == 0,
        b.len() < 4,
    ensures
        words32(a + b) == words32(a),
{
    let s = a + b;
    assert forall|i: int| 0 <= i < a.len() / 4 implies #[trigger] words32(s)[i] == words32(a)[i] by {
        reveal_with_fuel(little_endian, 5);
        assert(s[4 * i] == a[4 * i]);
        assert(s[4 * i + 1] == a[4 * i + 1]);
        assert(s[4 * i + 2] == a[4 * i + 2]);
        assert(s[4 * i + 3] == a[4 * i + 3]);
    }
    assert(words32(s) =~= words32(a));
}

proof fn lemma_halves_round_trip(h: Seq<u16>, b: Seq<u8>)
    requires
        b.len() < 2,
    ensures
        halves16(bytes_of_halves(h) + b) == h,
{
    let s = bytes_of_halves(h) + b;
    assert forall|i: int| 0 <= i < h.len() implies #[trigger] halves16(s)[i] == h[i] by {
        assert((2 * i) / 2 == i && (2 * i + 1) / 2 == i);
        assert(s[2 * i] == (h[i] % 256) as u8);
        assert(s[2 * i + 1] == (h[i] / 256) as u8);
    }
    assert(halves16(s) =~= h);
}

/// What is read back of numbers that were written are those numbers as they are
/// once stored: unchanged as singles, rounded as halves. A few bytes may be left
/// over behind them.
pub proof fn law_written_numbers_read_back(f: Float, v: Seq<u32>, rest: Seq<u8>)
    requires
        rest.len() < width(f),
    ensures
        decoded(f, encoded(f, v) + rest) == stored(f, v),
{
    match f {
        Float::Single => {
            lemma_words_of_front(bytes_of_words32(v), rest);
            law_words32_round_trip(v);
        },
        Float::Half => {
            lemma_halves_round_trip(halves_of(v), rest);
        },
    }
}

} // verus!
