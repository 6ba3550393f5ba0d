//! Minimal protobuf reader.
//!
//! Models use four of protobuf's wire types: varint, fixed64,
//! length-delimited and fixed32. A message is a run of fields; a field is a
//! tag (field number and wire type) and a value.
//!
//! The contracts describe a reader by the bytes it reads and its position in
//! them. [`varint_at`] and [`field_at`] say what stands at a position.

use vstd::prelude::*;
use vstd::arithmetic::power2::{lemma2_to64, lemma2_to64_rest, lemma_pow2_adds, lemma_pow2_pos, pow2};
use vstd::bits::lemma_u64_shl_is_mul;
use vstd::string::*;
use vstd::utf8::{decode_utf8, valid_utf8};
use crate::error::{outcome, Error, ErrorView};
use crate::text::{concat2, concat4, dec, dec_u64, dec_usize};

pub mod written;

verus! {

// ---------------------------------------------------------------------------
// What stands in the bytes
// ---------------------------------------------------------------------------

/// Number of bytes from `pos` on, before the first one whose top bit is clear.
pub open spec fn continuation_run(s: Seq<u8>, pos: int) -> nat
    decreases s.len() - pos,
{
    if 0 <= pos < s.len() && s[pos] >= 0x80 {
        1 + continuation_run(s, pos + 1)
    } else {
        0
    }
}

/// The number whose base-128 digits, least significant first, are the low
/// seven bits of the `n` bytes from `pos` on.
pub open spec fn base128(s: Seq<u8>, pos: int, n: nat) -> nat
    decreases n,
{
    if n == 0 {
        0
    } else {
        base128(s, pos, (n - 1) as nat) + (s[pos + n - 1] as nat % 128) * pow2((7 * (n - 1)) as nat)
    }
}

/// Reading one varint: the value and the position behind it, or the error and
/// the position at which reading stopped.
pub open spec fn varint_at(s: Seq<u8>, pos: int) -> (Result<u64, ErrorView>, int) {
    let run = continuation_run(s, pos);
    if run >= 10 {
        (Err(ErrorView::Parse("varint too long"@)), pos + 10)
    } else if pos + run >= s.len() {
        (Err(ErrorView::Parse("unexpected end of input"@)), pos + run)
    } else {
        (Ok((base128(s, pos, run + 1) % pow2(64)) as u64), pos + run + 1)
    }
}

/// The number stored in `n` bytes from `pos` on, least significant byte first.
pub open spec fn little_endian(s: Seq<u8>, pos: int, n: nat) -> nat
    decreases n,
{
    if n == 0 {
        0
    } else {
        s[pos] as nat + 256 * little_endian(s, pos + 1, (n - 1) as nat)
    }
}

/// The value of a field, with bytes as a sequence.
pub enum ValueView {
    Varint(u64),
    Fixed64(u64),
    Fixed32(u32),
    LengthDelimited(Seq<u8>),
}

/// A field: its number and its value. The wire type follows from the value.
pub struct FieldView {
    pub field_number: u32,
    pub data: ValueView,
}

/// What stands at a position of a message.
pub enum Step {
    /// The message ends here.
    End,
    /// A field, and the position behind it.
    Field(FieldView, int),
    /// Bytes that are no field, and the position at which reading stopped.
    Bad(ErrorView, int),
}

pub open spec fn unknown_wire_type(w: u8) -> ErrorView {
    ErrorView::Parse("unknown wire type: "@ + dec(w as nat))
}

pub open spec fn past_end(pos: int, len: usize, total: int) -> ErrorView {
    ErrorView::Parse(
        "length-delimited field extends past end: pos="@ + dec(pos as nat) + ", len="@ + dec(
            len as nat,
        ) + ", total="@ + dec(total as nat),
    )
}

/// The value of a field of wire type `wire` at `pos`, and the position reached.
pub open spec fn value_at(s: Seq<u8>, pos: int, wire: u8) -> (Result<ValueView, ErrorView>, int) {
    if wire == 0 {
        match varint_at(s, pos) {
            (Ok(v), next) => (Ok(ValueView::Varint(v)), next),
            (Err(e), next) => (Err(e), next),
        }
    } else if wire == 1 {
        if pos + 8 > s.len() {
            (Err(ErrorView::Parse("unexpected end of input for fixed64"@)), pos)
        } else {
            (Ok(ValueView::Fixed64(little_endian(s, pos, 8) as u64)), pos + 8)
        }
    } else if wire == 5 {
        if pos + 4 > s.len() {
            (Err(ErrorView::Parse("unexpected end of input for fixed32"@)), pos)
        } else {
            (Ok(ValueView::Fixed32(little_endian(s, pos, 4) as u32)), pos + 4)
        }
    } else if wire == 2 {
        match varint_at(s, pos) {
            (Ok(v), next) => {
                let len = v as usize;
                if next + len > s.len() {
                    (Err(past_end(next, len, s.len() as int)), next)
                } else {
                    (Ok(ValueView::LengthDelimited(s.subrange(next, next + len))), next + len)
                }
            },
            (Err(e), next) => (Err(e), next),
        }
    } else {
        (Err(unknown_wire_type(wire)), pos)
    }
}

/// What stands at `pos`: the end of the message, a field, or neither.
#[verifier::opaque]
pub open spec fn field_at(s: Seq<u8>, pos: int) -> Step {
    if pos >= s.len() {
        Step::End
    } else {
        match varint_at(s, pos) {
            (Err(e), next) => Step::Bad(e, next),
            (Ok(tag), next) => match value_at(s, next, (tag % 8) as u8) {
                (Err(e), stop) => Step::Bad(e, stop),
                (Ok(data), after) => Step::Field(
                    FieldView { field_number: ((tag / 8) as u32), data },
                    after,
                ),
            },
        }
    }
}

proof fn lemma_run_bounds(s: Seq<u8>, pos: int)
    requires
        0 <= pos <= s.len(),
    ensures
        pos + continuation_run(s, pos) <= s.len(),
    decreases s.len() - pos,
{
    if pos < s.len() && s[pos] >= 0x80 {
        lemma_run_bounds(s, pos + 1);
    }
}

/// Reading a varint moves forward and stays inside the bytes.
pub proof fn lemma_varint_progress(s: Seq<u8>, pos: int)
    requires
        0 <= pos <= s.len(),
    ensures
        pos <= varint_at(s, pos).1 <= s.len(),
        varint_at(s, pos).0 is Ok ==> pos < varint_at(s, pos).1,
{
    lemma_run_bounds(s, pos);
}

/// Every field takes at least one byte and ends inside the message, so a
/// message of `n` bytes has at most `n` fields.
pub proof fn lemma_field_progress(s: Seq<u8>, pos: int)
    requires
        0 <= pos <= s.len(),
    ensures
        field_at(s, pos) matches Step::Field(_, next) ==> pos < next <= s.len(),
        field_at(s, pos) matches Step::Bad(_, stop) ==> pos <= stop <= s.len(),
        field_at(s, pos) is End <==> pos == s.len(),
{
    reveal(field_at);
    lemma_varint_progress(s, pos);
    if pos < s.len() {
        let (r, next) = varint_at(s, pos);
        if r is Ok {
            lemma_varint_progress(s, next);
        }
    }
}

// ---------------------------------------------------------------------------
// Wire types and field values
// ---------------------------------------------------------------------------

/// Wire types as defined by protobuf.
#[derive(Debug, Clone, Copy, PartialEq, Eq, Structural)]
pub enum WireType {
    Varint,
    Fixed64,
    LengthDelimited,
    Fixed32,
}

/// The number that stands for a wire type in a tag.
pub open spec fn wire_number(w: WireType) -> u8 {
    match w {
        WireType::Varint => 0,
        WireType::Fixed64 => 1,
        WireType::LengthDelimited => 2,
        WireType::Fixed32 => 5,
    }
}

impl WireType {
    /// The wire type with the given number.
    pub fn try_from(value: u8) -> (r: Result<WireType, Error>)
        ensures
            match r {
                Ok(w) => wire_number(w) == value,
                Err(e) => !(value == 0 || value == 1 || value == 2 || value == 5) && e@
                    == unknown_wire_type(value),
            },
    {
        match value {
            0 => Ok(WireType::Varint),
            1 => Ok(WireType::Fixed64),
            2 => Ok(WireType::LengthDelimited),
            5 => Ok(WireType::Fixed32),
            _ => {
                let d: String = dec_u64(value as u64);
                Err(Error::Parse(concat2("unknown wire type: ", d.as_str())))
            },
        }
    }
}

/// The raw data of a protobuf field.
#[derive(Debug)]
pub enum FieldData<'a> {
    Varint(u64),
    Fixed64(u64),
    Fixed32(u32),
    LengthDelimited(&'a [u8]),
}

impl<'a> View for FieldData<'a> {
    type V = ValueView;

    open spec fn view(&self) -> ValueView {
        match *self {
            FieldData::Varint(v) => ValueView::Varint(v),
            FieldData::Fixed64(v) => ValueView::Fixed64(v),
            FieldData::Fixed32(v) => ValueView::Fixed32(v),
            FieldData::LengthDelimited(b) => ValueView::LengthDelimited(b@),
        }
    }
}

/// A protobuf field: tag (field number and wire type) plus value.
#[derive(Debug)]
pub struct Field<'a> {
    pub field_number: u32,
    pub wire_type: WireType,
    pub data: FieldData<'a>,
}

impl<'a> View for Field<'a> {
    type V = FieldView;

    open spec fn view(&self) -> FieldView {
        FieldView { field_number: self.field_number, data: self.data@ }
    }
}

/// The wire type a value is written with.
pub open spec fn wire_of(v: ValueView) -> WireType {
    match v {
        ValueView::Varint(_) => WireType::Varint,
        ValueView::Fixed64(_) => WireType::Fixed64,
        ValueView::Fixed32(_) => WireType::Fixed32,
        ValueView::LengthDelimited(_) => WireType::LengthDelimited,
    }
}

/// A field value as a varint.
pub open spec fn varint_of(v: ValueView) -> Result<u64, ErrorView> {
    match v {
        ValueView::Varint(n) => Ok(n),
        _ => Err(ErrorView::Parse("expected varint"@)),
    }
}

/// The signed number that zigzag encoding writes as `n`.
pub open spec fn zigzag(n: u64) -> i64 {
    if n % 2 == 0 {
        (n / 2) as i64
    } else {
        (-((n / 2) as int) - 1) as i64
    }
}

/// A field value as a signed 64-bit number (two's complement, no zigzag).
pub open spec fn int64_of(v: ValueView) -> Result<i64, ErrorView> {
    match varint_of(v) {
        Ok(n) => Ok(n as i64),
        Err(e) => Err(e),
    }
}

/// A field value as a signed 32-bit number: the low 32 bits of the varint.
pub open spec fn int32_of(v: ValueView) -> Result<i32, ErrorView> {
    match varint_of(v) {
        Ok(n) => Ok(n as i32),
        Err(e) => Err(e),
    }
}

/// A field value as bytes.
pub open spec fn bytes_of(v: ValueView) -> Result<Seq<u8>, ErrorView> {
    match v {
        ValueView::LengthDelimited(b) => Ok(b),
        _ => Err(ErrorView::Parse("expected length-delimited"@)),
    }
}

/// The bits of a 32-bit float field.
pub open spec fn float_of(v: ValueView) -> Result<u32, ErrorView> {
    match v {
        ValueView::Fixed32(n) => Ok(n),
        _ => Err(ErrorView::Parse("expected fixed32 for float"@)),
    }
}

/// The bits of a 64-bit float field.
pub open spec fn double_of(v: ValueView) -> Result<u64, ErrorView> {
    match v {
        ValueView::Fixed64(n) => Ok(n),
        _ => Err(ErrorView::Parse("expected fixed64 for double"@)),
    }
}

/// How `std::str::Utf8Error` describes what is wrong with `bytes`.
pub uninterp spec fn utf8_error_text(bytes: Seq<u8>) -> Seq<char>;

/// A field value as text.
pub open spec fn string_of(v: ValueView) -> Result<Seq<char>, ErrorView> {
    match bytes_of(v) {
        Err(e) => Err(e),
        Ok(b) => if valid_utf8(b) {
            Ok(decode_utf8(b))
        } else {
            Err(ErrorView::Parse("invalid UTF-8: "@ + utf8_error_text(b)))
        },
    }
}

/// Calls `std::str::from_utf8`. It succeeds on valid UTF-8 only, with the text
/// that the bytes encode; otherwise the text of its error is a function of the
/// bytes, named [`utf8_error_text`].
#[verifier::external_body]
fn text_from_utf8<'a>(bytes: &'a [u8]) -> (r: Result<&'a str, String>)
    ensures
        match r {
            Ok(s) => valid_utf8(bytes@) && s@ == decode_utf8(bytes@),
            Err(m) => !valid_utf8(bytes@) && m@ == utf8_error_text(bytes@),
        },
{
    std::str::from_utf8(bytes).map_err(|e| format!("{e}"))
}

/// The text of a field, or what is wrong with its bytes as an error.
pub fn text_or_error<'a>(decoded: Result<&'a str, String>) -> (r: Result<&'a str, Error>)
    ensures
        match decoded {
            Ok(s) => r matches Ok(t) && t@ == s@,
            Err(m) => r matches Err(e) && e@ == ErrorView::Parse("invalid UTF-8: "@ + m@),
        },
{
    match decoded {
        Ok(s) => Ok(s),
        Err(m) => Err(Error::Parse(concat2("invalid UTF-8: ", m.as_str()))),
    }
}

fn parse_error<T>(m: &str) -> (r: Result<T, Error>)
    ensures
        r matches Err(e) && e@ == ErrorView::Parse(m@),
{
    Err(Error::Parse(m.to_owned()))
}

impl<'a> FieldData<'a> {
    /// Get as varint (u64).
    pub fn as_varint(&self) -> (r: Result<u64, Error>)
        ensures
            outcome(r) == varint_of(self@),
    {
        match self {
            FieldData::Varint(v) => Ok(*v),
            _ => parse_error("expected varint"),
        }
    }

    /// Get as i64 (signed varint via zigzag decoding).
    pub fn as_sint64(&self) -> (r: Result<i64, Error>)
        ensures
            match varint_of(self@) {
                Ok(n) => r matches Ok(v) && v == zigzag(n),
                Err(e) => r matches Err(x) && x@ == e,
            },
    {
        let v: u64 = match self.as_varint() {
            Ok(v) => v,
            Err(e) => return Err(e),
        };
        proof {
            assert(v & 1 == v % 2) by (bit_vector);
            assert(v >> 1 == v / 2) by (bit_vector);
        }
        let half: i64 = (v >> 1) as i64;
        let sign: i64 = -((v & 1) as i64);
        proof {
            assert(half ^ 0 == half) by (bit_vector);
            assert(half ^ -1i64 == -half - 1) by (bit_vector)
                requires
                    half >= 0,
            ;
        }
        Ok(half ^ sign)
    }

    /// Get as i32 (signed varint).
    pub fn as_int32(&self) -> (r: Result<i32, Error>)
        ensures
            outcome(r) == int32_of(self@),
    {
        match self.as_varint() {
            Ok(v) => Ok(v as i32),
            Err(e) => Err(e),
        }
    }

    /// Get as i64 (signed varint, no zigzag).
    pub fn as_int64(&self) -> (r: Result<i64, Error>)
        ensures
            outcome(r) == int64_of(self@),
    {
        match self.as_varint() {
            Ok(v) => Ok(v as i64),
            Err(e) => Err(e),
        }
    }

    /// Get as bool.
    pub fn as_bool(&self) -> (r: Result<bool, Error>)
        ensures
            match varint_of(self@) {
                Ok(n) => r matches Ok(b) && b == (n != 0),
                Err(e) => r matches Err(x) && x@ == e,
            },
    {
        match self.as_varint() {
            Ok(v) => Ok(v != 0),
            Err(e) => Err(e),
        }
    }

    /// Get the bits of an f32 (fixed32).
    pub fn as_float(&self) -> (r: Result<u32, Error>)
        ensures
            outcome(r) == float_of(self@),
    {
        match self {
            FieldData::Fixed32(v) => Ok(*v),
            _ => parse_error("expected fixed32 for float"),
        }
    }

    /// Get the bits of an f64 (fixed64).
    pub fn as_double(&self) -> (r: Result<u64, Error>)
        ensures
            outcome(r) == double_of(self@),
    {
        match self {
            FieldData::Fixed64(v) => Ok(*v),
            _ => parse_error("expected fixed64 for double"),
        }
    }

    /// Get as bytes (length-delimited).
    pub fn as_bytes(&self) -> (r: Result<&'a [u8], Error>)
        ensures
            match r {
                Ok(b) => bytes_of(self@) == Ok::<Seq<u8>, ErrorView>(b@),
                Err(e) => bytes_of(self@) == Err::<Seq<u8>, ErrorView>(e@),
            },
    {
        match self {
            FieldData::LengthDelimited(b) => Ok(*b),
            _ => parse_error("expected length-delimited"),
        }
    }

    /// Get as UTF-8 string (length-delimited).
    pub fn as_string(&self) -> (r: Result<&'a str, Error>)
        ensures
            match r {
                Ok(s) => string_of(self@) == Ok::<Seq<char>, ErrorView>(s@),
                Err(e) => string_of(self@) == Err::<Seq<char>, ErrorView>(e@),
            },
    {
        match self.as_bytes() {
            Err(e) => Err(e),
            Ok(bytes) => text_or_error(text_from_utf8(bytes)),
        }
    }

    /// Get as embedded message reader.
    pub fn as_message(&self) -> (r: Result<ProtoReader<'a>, Error>)
        ensures
            match r {
                Ok(m) => bytes_of(self@) == Ok::<Seq<u8>, ErrorView>(m.bytes()) && m.position() == 0,
                Err(e) => bytes_of(self@) == Err::<Seq<u8>, ErrorView>(e@),
            },
    {
        match self.as_bytes() {
            Ok(bytes) => Ok(ProtoReader::new(bytes)),
            Err(e) => Err(e),
        }
    }
}

// ---------------------------------------------------------------------------
// The reader
// ---------------------------------------------------------------------------

/// A streaming protobuf reader.
#[derive(Debug)]
pub struct ProtoReader<'a> {
    data: &'a [u8],
    pos: usize,
}

impl<'a> Clone for ProtoReader<'a> {
    fn clone(&self) -> (r: Self)
        ensures
            r.bytes() == self.bytes(),
            r.position() == self.position(),
    {
        proof {
            use_type_invariant(self);
        }
        ProtoReader { data: self.data, pos: self.pos }
    }
}

impl<'a> ProtoReader<'a> {
    /// All bytes of the message.
    pub closed spec fn bytes(&self) -> Seq<u8> {
        self.data@
    }

    /// How many of them have been read.
    pub closed spec fn position(&self) -> int {
        self.pos as int
    }

    /// The position never passes the end.
    #[verifier::type_invariant]
    spec fn in_bounds(&self) -> bool {
        self.pos <= self.data@.len()
    }

    /// Create a new reader over the given bytes.
    pub fn new(data: &'a [u8]) -> (r: ProtoReader<'a>)
        ensures
            r.bytes() == data@,
            r.position() == 0,
    {
        ProtoReader { data, pos: 0 }
    }

    /// Returns true if there's more data to read.
    pub fn has_remaining(&self) -> (r: bool)
        ensures
            r == (self.position() < self.bytes().len()),
            0 <= self.position() <= self.bytes().len(),
    {
        proof {
            use_type_invariant(self);
        }
        self.pos < self.data.len()
    }

    /// Read a single byte, advancing the position.
    fn read_byte(&mut self) -> (r: Result<u8, Error>)
        ensures
            final(self).bytes() == old(self).bytes(),
            if old(self).position() < old(self).bytes().len() {
                &&& r matches Ok(b) && b == old(self).bytes()[old(self).position()]
                &&& final(self).position() == old(self).position() + 1
            } else {
                &&& r matches Err(e) && e@ == ErrorView::Parse("unexpected end of input"@)
                &&& final(self).position() == old(self).position()
            },
    {
        proof {
            use_type_invariant(&*self);
        }
        if self.pos >= self.data.len() {
            return parse_error("unexpected end of input");
        }
        let b: u8 = self.data[self.pos];
        self.pos = self.pos + 1;
        Ok(b)
    }

    /// Read a varint (up to 10 bytes for u64).
    pub fn read_varint(&mut self) -> (r: Result<u64, Error>)
        ensures
            final(self).bytes() == old(self).bytes(),
            outcome(r) == varint_at(old(self).bytes(), old(self).position()).0,
            final(self).position() == varint_at(old(self).bytes(), old(self).position()).1,
            old(self).position() <= final(self).position() <= final(self).bytes().len(),
            r is Ok ==> old(self).position() < final(self).position(),
    {
        let ghost s = self.bytes();
        let ghost start = self.position();
        let mut result: u64 = 0;
        let mut shift: u32 = 0;
        let mut n: usize = 0;
        proof {
            use_type_invariant(&*self);
            lemma_pow2_pos(0);
            lemma2_to64();
            lemma_varint_progress(s, start);
        }
        loop
            invariant
                self.bytes() == s,
                0 <= start,
                start == old(self).position(),
                s == old(self).bytes(),
                self.position() == start + n,
                start + n <= s.len(),
                n <= 9,
                shift == 7 * n,
                continuation_run(s, start) == n + continuation_run(s, start + n),
                result == base128(s, start, n as nat),
                result < pow2(shift as nat),
                start <= varint_at(s, start).1 <= s.len(),
                varint_at(s, start).0 is Ok ==> start < varint_at(s, start).1,
            decreases 10 - n,
        {
            let b: u8 = match self.read_byte() {
                Ok(b) => b,
                Err(e) => {
                    return Err(e);
                },
            };
            proof {
                lemma_append_digit(result, b, shift, base128(s, start, n as nat));
                assert(b & 0x7F == b % 128) by (bit_vector);
                assert((b & 0x80 == 0) == (b < 0x80)) by (bit_vector);
            }
            let ghost whole = base128(s, start, (n + 1) as nat);
            result = result | (((b & 0x7F) as u64) << shift);
            assert(result == whole % pow2(64));
            if b & 0x80 == 0 {
                return Ok(result);
            }
            shift = shift + 7;
            n = n + 1;
            if shift >= 64 {
                return parse_error("varint too long");
            }
            proof {
                lemma_pow2_le(shift as nat);
                vstd::arithmetic::div_mod::lemma_small_mod(whole, pow2(64));
            }
        }
    }

    /// Read a fixed32 (4 bytes, little-endian).
    fn read_fixed32(&mut self) -> (r: Result<u32, Error>)
        ensures
            final(self).bytes() == old(self).bytes(),
            final(self).position() == value_at(old(self).bytes(), old(self).position(), 5).1,
            match r {
                Ok(v) => value_at(old(self).bytes(), old(self).position(), 5).0 == Ok::<ValueView, ErrorView>(ValueView::Fixed32(v)),
                Err(e) => value_at(old(self).bytes(), old(self).position(), 5).0 == Err::<ValueView, ErrorView>(e@),
            },
    {
        proof {
            use_type_invariant(&*self);
        }
        if self.data.len() - self.pos < 4 {
            return parse_error("unexpected end of input for fixed32");
        }
        let v: u32 = u32_le(self.data, self.pos);
        self.pos = self.pos + 4;
        Ok(v)
    }

    /// Read a fixed64 (8 bytes, little-endian).
    fn read_fixed64(&mut self) -> (r: Result<u64, Error>)
        ensures
            final(self).bytes() == old(self).bytes(),
            final(self).position() == value_at(old(self).bytes(), old(self).position(), 1).1,
            match r {
                Ok(v) => value_at(old(self).bytes(), old(self).position(), 1).0 == Ok::<ValueView, ErrorView>(ValueView::Fixed64(v)),
                Err(e) => value_at(old(self).bytes(), old(self).position(), 1).0 == Err::<ValueView, ErrorView>(e@),
            },
    {
        proof {
            use_type_invariant(&*self);
        }
        if self.data.len() - self.pos < 8 {
            return parse_error("unexpected end of input for fixed64");
        }
        let v: u64 = u64_le(self.data, self.pos);
        self.pos = self.pos + 8;
        Ok(v)
    }

    /// Read length-delimited bytes.
    fn read_length_delimited(&mut self) -> (r: Result<&'a [u8], Error>)
        ensures
            final(self).bytes() == old(self).bytes(),
            final(self).position() == value_at(old(self).bytes(), old(self).position(), 2).1,
            match r {
                Ok(b) => value_at(old(self).bytes(), old(self).position(), 2).0 == Ok::<ValueView, ErrorView>(ValueView::LengthDelimited(b@)),
                Err(e) => value_at(old(self).bytes(), old(self).position(), 2).0 == Err::<ValueView, ErrorView>(e@),
            },
    {
        let len: usize = match self.read_varint() {
            Ok(v) => v as usize,
            Err(e) => return Err(e),
        };
        proof {
            use_type_invariant(&*self);
        }
        if len > self.data.len() - self.pos {
            let p: String = dec_usize(self.pos);
            let l: String = dec_usize(len);
            let t: String = dec_usize(self.data.len());
            let mut m: String = concat4(
                "length-delimited field extends past end: pos=",
                p.as_str(),
                ", len=",
                l.as_str(),
            );
            m.append(", total=");
            m.append(t.as_str());
            return Err(Error::Parse(m));
        }
        let end: usize = self.pos + len;
        let result: &'a [u8] = vstd::slice::slice_subrange(self.data, self.pos, end);
        self.pos = end;
        Ok(result)
    }

    /// Read the next field (tag + data).
    pub fn read_field(&mut self) -> (r: Result<Option<Field<'a>>, Error>)
        ensures
            final(self).bytes() == old(self).bytes(),
            0 <= old(self).position() <= final(self).position() <= final(self).bytes().len(),
            match field_at(old(self).bytes(), old(self).position()) {
                Step::End => {
                    &&& r matches Ok(None)
                    &&& final(self).position() == old(self).position()
                },
                Step::Field(f, next) => {
                    &&& r matches Ok(Some(g)) && g@ == f && g.wire_type == wire_of(f.data)
                    &&& final(self).position() == next
                    &&& old(self).position() < next
                },
                Step::Bad(e, stop) => {
                    &&& r matches Err(x) && x@ == e
                    &&& final(self).position() == stop
                },
            },
    {
        proof {
            use_type_invariant(&*self);
            lemma_field_progress(self.bytes(), self.position());
            reveal(field_at);
        }
        if !self.has_remaining() {
            return Ok(None);
        }
        let tag: u64 = match self.read_varint() {
            Ok(t) => t,
            Err(e) => return Err(e),
        };
        proof {
            assert(tag >> 3 == tag / 8) by (bit_vector);
            assert(tag & 0x07 == tag % 8) by (bit_vector);
        }
        let field_number: u32 = (tag >> 3) as u32;
        let wire_type: WireType = match WireType::try_from((tag & 0x07) as u8) {
            Ok(w) => w,
            Err(e) => return Err(e),
        };
        let data: FieldData<'a> = match wire_type {
            WireType::Varint => match self.read_varint() {
                Ok(v) => FieldData::Varint(v),
                Err(e) => return Err(e),
            },
            WireType::Fixed64 => match self.read_fixed64() {
                Ok(v) => FieldData::Fixed64(v),
                Err(e) => return Err(e),
            },
            WireType::Fixed32 => match self.read_fixed32() {
                Ok(v) => FieldData::Fixed32(v),
                Err(e) => return Err(e),
            },
            WireType::LengthDelimited => match self.read_length_delimited() {
                Ok(b) => FieldData::LengthDelimited(b),
                Err(e) => return Err(e),
            },
        };
        Ok(Some(Field { field_number, wire_type, data }))
    }

    /// Skip to end, useful for ignoring unknown fields.
    pub fn skip_to_end(&mut self)
        ensures
            final(self).bytes() == old(self).bytes(),
            final(self).position() == old(self).bytes().len(),
    {
        self.pos = self.data.len();
    }
}

proof fn lemma_pow2_le(n: nat)
    requires
        n < 64,
    ensures
        pow2(n) <= pow2(64),
        pow2(64) == 0x1_0000_0000_0000_0000,
{
    lemma2_to64_rest();
    lemma_pow2_adds(n, (64 - n) as nat);
    lemma_pow2_pos((64 - n) as nat);
    lemma_pow2_pos(n);
    assert(pow2(n) <= pow2(n) * pow2((64 - n) as nat)) by (nonlinear_arith)
        requires
            pow2((64 - n) as nat) >= 1,
            pow2(n) >= 1,
    ;
}

proof fn lemma_append_digit(result: u64, b: u8, shift: u32, low: nat)
    requires
        shift <= 63,
        shift % 7 == 0,
        result == low,
        low < pow2(shift as nat),
    ensures
        (result | (((b & 0x7F) as u64) << shift)) == (low + (b as nat % 128) * pow2(shift as nat)) % pow2(64),
        shift < 63 ==> low + (b as nat % 128) * pow2(shift as nat) < pow2((shift + 7) as nat),
{
    let d: u64 = (b & 0x7F) as u64;
    let w = pow2(shift as nat);
    assert(d < 128 && d == b % 128) by {
        assert(b & 0x7F == b % 128) by (bit_vector);
    }
    lemma2_to64();
    lemma2_to64_rest();
    lemma_pow2_le(shift as nat);
    let s64: u64 = shift as u64;
    assert(1u64 << s64 == w) by {
        vstd::arithmetic::mul::lemma_mul_basics(w as int);
        lemma_u64_shl_is_mul(1, s64);
    }
    assert(d << shift == d << s64);
    assert((result | (d << s64)) == result + (d << s64)) by (bit_vector)
        requires
            s64 <= 63,
            result < (1u64 << s64),
    ;
    if shift < 63 {
        lemma_pow2_adds(shift as nat, 7);
        assert(low + d * w < w * 128) by (nonlinear_arith)
            requires
                low < w,
                d < 128,
        ;
        assert(shift + 7 <= 63);
        lemma_pow2_le((shift + 7) as nat);
        assert(d * w < pow2(64)) by (nonlinear_arith)
            requires
                low + d * w < w * 128,
                w * 128 <= pow2(64),
                low >= 0,
        ;
        lemma_u64_shl_is_mul(d, s64);
        vstd::arithmetic::div_mod::lemma_small_mod((low + d * w) as nat, pow2(64));
    } else {
        assert(d << 63u64 == (d % 2) * 0x8000_0000_0000_0000) by (bit_vector);
        assert(w == 0x8000_0000_0000_0000);
        assert((low + d * w) % 0x1_0000_0000_0000_0000 == low + (d % 2) * w) by {
            assert(d == 2 * (d / 2) + d % 2);
            assert(low + d * 0x8000_0000_0000_0000 == (d / 2) * 0x1_0000_0000_0000_0000 + (low + (d % 2) * 0x8000_0000_0000_0000));
        }
    }
}

/// The 32-bit number in the four bytes from `pos` on.
pub fn u32_le(data: &[u8], pos: usize) -> (v: u32)
    requires
        pos + 4 <= data@.len(),
    ensures
        v == little_endian(data@, pos as int, 4),
        little_endian(data@, pos as int, 4) < 0x1_0000_0000,
{
    proof {
        reveal_with_fuel(little_endian, 5);
    }
    data[pos] as u32 + (data[pos + 1] as u32) * 0x100 + (data[pos + 2] as u32) * 0x1_0000 + (data[pos + 3] as u32)
        * 0x100_0000
}

/// The 64-bit number in the eight bytes from `pos` on.
pub fn u64_le(data: &[u8], pos: usize) -> (v: u64)
    requires
        pos + 8 <= data@.len(),
    ensures
        v == little_endian(data@, pos as int, 8),
        little_endian(data@, pos as int, 8) < 0x1_0000_0000_0000_0000,
{
    assert(pos + 8 <= data.len());
    let lo: u32 = u32_le(data, pos);
    let next: usize = pos + 4;
    let hi: u32 = u32_le(data, next);
    proof {
        reveal_with_fuel(little_endian, 9);
    }
    lo as u64 + (hi as u64) * 0x1_0000_0000
}

// ---------------------------------------------------------------------------
// Packed repeated values
// ---------------------------------------------------------------------------

/// The varints from `pos` to the end, as signed numbers.
pub open spec fn packed_int64_from(s: Seq<u8>, pos: int) -> Result<Seq<i64>, ErrorView>
    decreases s.len() - pos,
{
    if pos < 0 || pos >= s.len() {
        Ok(Seq::empty())
    } else {
        proof {
            lemma_varint_progress(s, pos);
        }
        match varint_at(s, pos) {
            (Err(e), _) => Err(e),
            (Ok(v), next) => match packed_int64_from(s, next) {
                Ok(rest) => Ok(seq![v as i64] + rest),
                Err(e) => Err(e),
            },
        }
    }
}

/// A run of varints.
pub open spec fn packed_int64(s: Seq<u8>) -> Result<Seq<i64>, ErrorView> {
    packed_int64_from(s, 0)
}

/// The little-endian 32-bit words of `s`; up to three bytes at the end are left over.
pub open spec fn words32(s: Seq<u8>) -> Seq<u32> {
    Seq::new(s.len() / 4, |i: int| little_endian(s, 4 * i, 4) as u32)
}

/// The little-endian 64-bit words of `s`; up to seven bytes at the end are left over.
pub open spec fn words64(s: Seq<u8>) -> Seq<u64> {
    Seq::new(s.len() / 8, |i: int| little_endian(s, 8 * i, 8) as u64)
}

/// The bits of a run of 32-bit floats.
pub open spec fn packed_floats(s: Seq<u8>) -> Result<Seq<u32>, ErrorView> {
    if s.len() % 4 != 0 {
        Err(ErrorView::Parse("packed floats length not multiple of 4"@))
    } else {
        Ok(words32(s))
    }
}

/// The bits of a run of 64-bit floats.
pub open spec fn packed_doubles(s: Seq<u8>) -> Result<Seq<u64>, ErrorView> {
    if s.len() % 8 != 0 {
        Err(ErrorView::Parse("packed doubles length not multiple of 8"@))
    } else {
        Ok(words64(s))
    }
}

/// Parse packed repeated int64 values.
pub fn parse_packed_int64(data: &[u8]) -> (r: Result<Vec<i64>, Error>)
    ensures
        outcome(r) == packed_int64(data@),
{
    let mut reader: ProtoReader<'_> = ProtoReader::new(data);
    let mut result: Vec<i64> = Vec::new();
    let ghost s = data@;
    while reader.has_remaining()
        invariant
            reader.bytes() == s,
            s == data@,
            0 <= reader.position() <= s.len(),
            packed_int64(s) == match packed_int64_from(s, reader.position()) {
                Ok(rest) => Ok::<Seq<i64>, ErrorView>(result@ + rest),
                Err(e) => Err::<Seq<i64>, ErrorView>(e),
            },
        decreases s.len() - reader.position(),
    {
        let ghost before = result@;
        let ghost at = reader.position();
        match reader.read_varint() {
            Ok(v) => {
                result.push(v as i64);
                proof {
                    match packed_int64_from(s, reader.position()) {
                        Ok(rest) => {
                            assert(before + (seq![v as i64] + rest) =~= result@ + rest);
                        },
                        Err(e) => {},
                    }
                }
            },
            Err(e) => return Err(e),
        }
    }
    assert(result@ + Seq::<i64>::empty() =~= result@);
    Ok(result)
}

/// The little-endian 32-bit words of a byte string.
pub fn to_words32(data: &[u8]) -> (r: Vec<u32>)
    ensures
        r@ == words32(data@),
{
    let mut result: Vec<u32> = Vec::new();
    let n: usize = data.len() / 4;
    let mut i: usize = 0;
    while i < n
        invariant
            n == data@.len() / 4,
            data@.len() <= usize::MAX,
            i <= n,
            result@.len() == i,
            forall|k: int| 0 <= k < i ==> result@[k] == words32(data@)[k],
        decreases n - i,
    {
        result.push(u32_le(data, 4 * i));
        i = i + 1;
    }
    assert(result@ =~= words32(data@));
    result
}

/// The little-endian 64-bit words of a byte string.
pub fn to_words64(data: &[u8]) -> (r: Vec<u64>)
    ensures
        r@ == words64(data@),
{
    let mut result: Vec<u64> = Vec::new();
    let n: usize = data.len() / 8;
    let mut i: usize = 0;
    while i < n
        invariant
            n == data@.len() / 8,
            data@.len() <= usize::MAX,
            i <= n,
            result@.len() == i,
            forall|k: int| 0 <= k < i ==> result@[k] == words64(data@)[k],
        decreases n - i,
    {
        result.push(u64_le(data, 8 * i));
        i = i + 1;
    }
    assert(result@ =~= words64(data@));
    result
}

/// Parse packed repeated float values, as their bits.
pub fn parse_packed_floats(data: &[u8]) -> (r: Result<Vec<u32>, Error>)
    ensures
        outcome(r) == packed_floats(data@),
{
    if data.len() % 4 != 0 {
        return parse_error("packed floats length not multiple of 4");
    }
    Ok(to_words32(data))
}

/// Parse packed repeated double values, as their bits.
pub fn parse_packed_doubles(data: &[u8]) -> (r: Result<Vec<u64>, Error>)
    ensures
        outcome(r) == packed_doubles(data@),
{
    if data.len() % 8 != 0 {
        return parse_error("packed doubles length not multiple of 8");
    }
    Ok(to_words64(data))
}

// ---------------------------------------------------------------------------
// Writing little-endian words
// ---------------------------------------------------------------------------

/// The `n` bytes of `v`, least significant first.
pub open spec fn le_bytes(v: nat, n: nat) -> Seq<u8>
    decreases n,
{
    if n == 0 {
        Seq::empty()
    } else {
        seq![(v % 256) as u8] + le_bytes(v / 256, (n - 1) as nat)
    }
}

/// The words one after another, each as its four little-endian bytes.
pub open spec fn bytes_of_words32(w: Seq<u32>) -> Seq<u8> {
    Seq::new(4 * w.len(), |i: int| le_bytes(w[i / 4] as nat, 4)[i % 4])
}

/// The words one after another, each as its eight little-endian bytes.
pub open spec fn bytes_of_words64(w: Seq<u64>) -> Seq<u8> {
    Seq::new(8 * w.len(), |i: int| le_bytes(w[i / 8] as nat, 8)[i % 8])
}

proof fn lemma_le_bytes_4(v: nat)
    ensures
        le_bytes(v, 4) == seq![(v % 256) as u8, (v / 256 % 256) as u8, (v / 65536 % 256) as u8, (v / 16777216 % 256) as u8],
{
    reveal_with_fuel(le_bytes, 5);
    assert(v / 256 / 256 == v / 65536);
    assert(v / 256 / 256 / 256 == v / 16777216);
    assert(le_bytes(v, 4) =~= seq![(v % 256) as u8, (v / 256 % 256) as u8, (v / 65536 % 256) as u8, (v / 16777216 % 256) as u8]);
}

/// Append the four little-endian bytes of `v`.
pub fn push_u32_le(out: &mut Vec<u8>, v: u32)
    ensures
        final(out)@ == old(out)@ + le_bytes(v as nat, 4),
{
    proof {
        lemma_le_bytes_4(v as nat);
    }
    out.push((v % 256) as u8);
    out.push((v / 256 % 256) as u8);
    out.push((v / 65536 % 256) as u8);
    out.push((v / 16777216 % 256) as u8);
    assert(out@ =~= old(out)@ + le_bytes(v as nat, 4));
}

proof fn lemma_le_bytes_split(v: nat, m: nat, n: nat, w: nat)
    requires
        w == pow2(8 * m),
    ensures
        le_bytes(v, m + n) == le_bytes(v, m) + le_bytes(v / w, n),
        le_bytes(v, m) == le_bytes(v % w, m),
    decreases m,
{
    if m == 0 {
        lemma2_to64();
        assert(le_bytes(v, 0) + le_bytes(v / 1, n) =~= le_bytes(v, n));
        assert(v / 1 == v);
    } else {
        let m1 = (m - 1) as nat;
        let w1 = pow2(8 * m1);
        lemma_pow2_adds(8, 8 * m1);
        lemma2_to64();
        lemma_pow2_pos(8 * m1);
        assert(8 + 8 * m1 == 8 * m);
        assert(w == 256 * w1);
        lemma_le_bytes_split(v / 256, m1, n, w1);
        vstd::arithmetic::div_mod::lemma_div_denominator(v as int, 256, w1 as int);
        assert((v / 256) / w1 == v / w);
        assert(le_bytes(v, m + n) =~= le_bytes(v, m) + le_bytes(v / w, n));
        // low part
        vstd::arithmetic::div_mod::lemma_mod_breakdown(v as int, 256, w1 as int);
        let x = v % w;
        assert(x == 256 * ((v / 256) % w1) + v % 256);
        assert(x % 256 == v % 256);
        assert(x / 256 == (v / 256) % w1);
        assert(le_bytes(v, m) =~= le_bytes(x, m));
    }
}

/// Append the eight little-endian bytes of `v`.
pub fn push_u64_le(out: &mut Vec<u8>, v: u64)
    ensures
        final(out)@ == old(out)@ + le_bytes(v as nat, 8),
{
    let lo: u32 = (v % 0x1_0000_0000) as u32;
    let hi: u32 = (v / 0x1_0000_0000) as u32;
    proof {
        lemma2_to64();
        lemma_le_bytes_split(v as nat, 4, 4, 0x1_0000_0000);
    }
    push_u32_le(out, lo);
    push_u32_le(out, hi);
    assert(out@ =~= old(out)@ + le_bytes(v as nat, 8));
}

/// Words as little-endian bytes.
pub fn from_words32(w: &Vec<u32>) -> (r: Vec<u8>)
    ensures
        r@ == bytes_of_words32(w@),
{
    let mut out: Vec<u8> = Vec::new();
    let mut i: usize = 0;
    while i < w.len()
        invariant
            i <= w@.len(),
            out@ == bytes_of_words32(w@.subrange(0, i as int)),
        decreases w@.len() - i,
    {
        let ghost before = out@;
        push_u32_le(&mut out, w[i]);
        proof {
            lemma_le_bytes_4(w@[i as int] as nat);
            let a = w@.subrange(0, i as int);
            let b = w@.subrange(0, i + 1);
            assert forall|k: int| 0 <= k < 4 * (i + 1) implies out@[k] == bytes_of_words32(b)[k] by {
                if k < 4 * i {
                    assert(a[k / 4] == b[k / 4]);
                    assert(out@[k] == before[k]);
                } else {
                    assert(k / 4 == i);
                    assert(k % 4 == k - 4 * i);
                }
            }
            assert(out@ =~= bytes_of_words32(b));
        }
        i = i + 1;
    }
    assert(w@.subrange(0, w@.len() as int) =~= w@);
    out
}

pub(crate) proof fn lemma_le_bytes_len(v: nat, n: nat)
    ensures
        le_bytes(v, n).len() == n,
    decreases n,
{
    if n > 0 {
        lemma_le_bytes_len(v / 256, (n - 1) as nat);
    }
}

/// Words as little-endian bytes.
pub fn from_words64(w: &Vec<u64>) -> (r: Vec<u8>)
    ensures
        r@ == bytes_of_words64(w@),
{
    let mut out: Vec<u8> = Vec::new();
    let mut i: usize = 0;
    while i < w.len()
        invariant
            i <= w@.len(),
            out@ == bytes_of_words64(w@.subrange(0, i as int)),
        decreases w@.len() - i,
    {
        let ghost before = out@;
        push_u64_le(&mut out, w[i]);
        proof {
            lemma_le_bytes_len(w@[i as int] as nat, 8);
            let a = w@.subrange(0, i as int);
            let b = w@.subrange(0, i + 1);
            assert forall|k: int| 0 <= k < 8 * (i + 1) implies out@[k] == bytes_of_words64(b)[k] by {
                if k < 8 * i {
                    assert(a[k / 8] == b[k / 8]);
                    assert(out@[k] == before[k]);
                } else {
                    assert(k / 8 == i);
                    assert(k % 8 == k - 8 * i);
                }
            }
            assert(out@ =~= bytes_of_words64(b));
        }
        i = i + 1;
    }
    assert(w@.subrange(0, w@.len() as int) =~= w@);
    out
}

pub(crate) proof fn lemma_read_le(s: Seq<u8>, pos: int, v: nat, n: nat)
    requires
        0 <= pos,
        pos + n <= s.len(),
        v < pow2(8 * n),
        s.subrange(pos, pos + n) == le_bytes(v, n),
    ensures
        little_endian(s, pos, n) == v,
    decreases n,
{
    lemma2_to64();
    lemma_le_bytes_len(v, n);
    if n > 0 {
        let n1 = (n - 1) as nat;
        lemma_pow2_adds(8, 8 * n1);
        assert(8 + 8 * n1 == 8 * n);
        assert(v / 256 < pow2(8 * n1)) by (nonlinear_arith)
            requires
                v < 256 * pow2(8 * n1),
        ;
        lemma_le_bytes_len(v / 256, n1);
        assert(s[pos] == s.subrange(pos, pos + n)[0]);
        assert(s.subrange(pos + 1, pos + 1 + n1) =~= s.subrange(pos, pos + n).subrange(1, n as int));
        assert(le_bytes(v, n).subrange(1, n as int) =~= le_bytes(v / 256, n1));
        lemma_read_le(s, pos + 1, v / 256, n1);
    }
}

/// Words that were written as bytes read back as the same words.
pub proof fn law_words32_round_trip(w: Seq<u32>)
    ensures
        words32(bytes_of_words32(w)) == w,
{
    let s = bytes_of_words32(w);
    lemma2_to64();
    assert forall|i: int| 0 <= i < w.len() implies words32(s)[i] == w[i] by {
        lemma_le_bytes_len(w[i] as nat, 4);
        assert(s.subrange(4 * i, 4 * i + 4) =~= le_bytes(w[i] as nat, 4));
        lemma_read_le(s, 4 * i, w[i] as nat, 4);
    }
    assert(words32(s) =~= w);
}

/// Words that were written as bytes read back as the same words.
pub proof fn law_words64_round_trip(w: Seq<u64>)
    ensures
        words64(bytes_of_words64(w)) == w,
{
    let s = bytes_of_words64(w);
    lemma2_to64_rest();
    assert forall|i: int| 0 <= i < w.len() implies words64(s)[i] == w[i] by {
        lemma_le_bytes_len(w[i] as nat, 8);
        assert(s.subrange(8 * i, 8 * i + 8) =~= le_bytes(w[i] as nat, 8));
        lemma_read_le(s, 8 * i, w[i] as nat, 8);
    }
    assert(words64(s) =~= w);
}

} // verus!
