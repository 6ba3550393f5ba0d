//! What was written on the wire is read back.

use vstd::prelude::*;
use vstd::arithmetic::power2::{lemma2_to64, lemma2_to64_rest, lemma_pow2_adds, pow2};
use super::{
    base128, continuation_run, field_at, le_bytes, lemma_le_bytes_len, lemma_read_le, little_endian,
    packed_int64_from, varint_at, FieldView, Step, ValueView,
};

verus! {

/// A number as a varint: seven bits to a byte, the lowest first, and a bit on
/// top of every byte but the last.
pub open spec fn written_varint(n: nat) -> Seq<u8>
    decreases n,
{
    if n < 128 {
        seq![n as u8]
    } else {
        seq![(n % 128 + 128) as u8] + written_varint(n / 128)
    }
}

/// The wire type that stands before a value.
pub open spec fn wire_before(v: ValueView) -> nat {
    match v {
        ValueView::Varint(_) => 0,
        ValueView::Fixed64(_) => 1,
        ValueView::LengthDelimited(_) => 2,
        ValueView::Fixed32(_) => 5,
    }
}

/// A value without what stands before it.
pub open spec fn written_value(v: ValueView) -> Seq<u8> {
    match v {
        ValueView::Varint(n) => written_varint(n as nat),
        ValueView::Fixed64(n) => le_bytes(n as nat, 8),
        ValueView::LengthDelimited(b) => written_varint(b.len()) + b,
        ValueView::Fixed32(n) => le_bytes(n as nat, 4),
    }
}

/// A field: its number and wire type, and its value.
pub open spec fn written_field(f: FieldView) -> Seq<u8> {
    written_varint(f.field_number as nat * 8 + wire_before(f.data)) + written_value(f.data)
}

/// Whether some bytes stand at a position of others.
pub open spec fn stand_at(b: Seq<u8>, s: Seq<u8>, pos: int) -> bool {
    &&& 0 <= pos
    &&& pos + b.len() <= s.len()
    &&& forall|i: int| 0 <= i < b.len() ==> #[trigger] b[i] == s[pos + i]
}

proof fn lemma_base128_first(s: Seq<u8>, pos: int, n: nat)
    requires
        n > 0,
    ensures
        base128(s, pos, n) == (s[pos] as nat % 128) + 128 * base128(s, pos + 1, (n - 1) as nat),
    decreases n,
{
    lemma2_to64();
    reveal_with_fuel(base128, 2);
    let d = s[pos + n - 1] as nat % 128;
    let top = pow2((7 * (n - 1)) as nat);
    assert(base128(s, pos, n) == base128(s, pos, (n - 1) as nat) + d * top);
    if n > 1 {
        let m = (n - 1) as nat;
        lemma_base128_first(s, pos, m);
        lemma_pow2_adds(7, (7 * (n - 2)) as nat);
        let p = pow2((7 * (n - 2)) as nat);
        assert(d * top == 128 * (d * p)) by (nonlinear_arith)
            requires
                top == 128 * p,
        ;
        assert(base128(s, pos + 1, m) == base128(s, pos + 1, (n - 2) as nat) + d * p);
    } else {
        assert(d * top == d) by (nonlinear_arith)
            requires
                top == 1,
        ;
    }
}

pub(crate) proof fn lemma_varint_length(n: nat, k: nat)
    requires
        n < pow2(7 * k),
        k > 0,
    ensures
        1 <= written_varint(n).len() <= k,
    decreases k,
{
    lemma2_to64();
    if n >= 128 {
        assert(k > 1);
        lemma_pow2_adds(7, (7 * (k - 1)) as nat);
        assert(n / 128 < pow2((7 * (k - 1)) as nat));
        lemma_varint_length(n / 128, (k - 1) as nat);
    }
}

proof fn lemma_varint_digits(s: Seq<u8>, pos: int, n: nat)
    requires
        stand_at(written_varint(n), s, pos),
    ensures
        continuation_run(s, pos) + 1 == written_varint(n).len(),
        base128(s, pos, written_varint(n).len()) == n,
    decreases n,
{
    let b = written_varint(n);
    assert(b[0] == s[pos]);
    lemma_base128_first(s, pos, b.len());
    if n < 128 {
        assert(base128(s, pos + 1, 0) == 0);
    } else {
        let rest = written_varint(n / 128);
        assert forall|i: int| 0 <= i < rest.len() implies #[trigger] rest[i] == s[pos + 1 + i] by {
            assert(b[i + 1] == s[pos + (i + 1)]);
        }
        lemma_varint_digits(s, pos + 1, n / 128);
    }
}

/// A varint of up to 64 bits is read back, and nothing behind it is touched.
pub proof fn law_varint_reads_back(s: Seq<u8>, pos: int, n: u64)
    requires
        stand_at(written_varint(n as nat), s, pos),
    ensures
        varint_at(s, pos).0 is Ok,
        varint_at(s, pos).0->Ok_0 == n,
        varint_at(s, pos).1 == pos + written_varint(n as nat).len(),
{
    lemma2_to64();
    lemma2_to64_rest();
    lemma_pow2_adds(64, 6);
    lemma_varint_length(n as nat, 10);
    lemma_varint_digits(s, pos, n as nat);
}

proof fn lemma_stands_behind(a: Seq<u8>, b: Seq<u8>, s: Seq<u8>, pos: int)
    requires
        stand_at(a + b, s, pos),
    ensures
        stand_at(a, s, pos),
        stand_at(b, s, pos + a.len()),
{
    assert forall|i: int| 0 <= i < a.len() implies #[trigger] a[i] == s[pos + i] by {
        assert((a + b)[i] == s[pos + i]);
    }
    assert forall|i: int| 0 <= i < b.len() implies #[trigger] b[i] == s[pos + a.len() + i] by {
        assert((a + b)[a.len() + i] == s[pos + (a.len() + i)]);
    }
}

proof fn lemma_le_stands(s: Seq<u8>, pos: int, v: nat, n: nat)
    requires
        stand_at(le_bytes(v, n), s, pos),
        v < pow2(8 * n),
    ensures
        little_endian(s, pos, n) == v,
        le_bytes(v, n).len() == n,
{
    lemma_le_bytes_len(v, n);
    assert(s.subrange(pos, pos + n) =~= le_bytes(v, n));
    lemma_read_le(s, pos, v, n);
}

/// A field is read back with its number and its value, and the next one is read
/// from behind it.
pub proof fn law_field_reads_back(s: Seq<u8>, pos: int, f: FieldView)
    requires
        stand_at(written_field(f), s, pos),
        f.field_number < 0x2000_0000,
        f.data matches ValueView::LengthDelimited(b) ==> b.len() <= usize::MAX,
    ensures
        field_at(s, pos) == Step::Field(f, pos + written_field(f).len()),
{
    reveal(field_at);
    lemma2_to64();
    lemma2_to64_rest();
    let wire = wire_before(f.data);
    let tag = (f.field_number as nat * 8 + wire) as u64;
    let front = written_varint(tag as nat);
    let value = written_value(f.data);
    lemma_stands_behind(front, value, s, pos);
    law_varint_reads_back(s, pos, tag);
    lemma_varint_digits(s, pos, tag as nat);
    let at = pos + front.len();
    match f.data {
        ValueView::Varint(n) => {
            law_varint_reads_back(s, at, n);
        },
        ValueView::Fixed64(n) => {
            lemma_le_stands(s, at, n as nat, 8);
        },
        ValueView::Fixed32(n) => {
            lemma_le_stands(s, at, n as nat, 4);
        },
        ValueView::LengthDelimited(b) => {
            lemma_stands_behind(written_varint(b.len()), b, s, at);
            law_varint_reads_back(s, at, b.len() as u64);
            let next = at + written_varint(b.len()).len();
            assert(s.subrange(next, next + b.len()) =~= b);
        },
    }
}

/// Numbers as varints, one behind the other.
pub open spec fn written_packed(v: Seq<i64>) -> Seq<u8>
    decreases v.len(),
{
    if v.len() == 0 {
        Seq::empty()
    } else {
        written_varint(v[0] as u64 as nat) + written_packed(v.drop_first())
    }
}

proof fn lemma_sign_kept(x: i64)
    ensures
        (x as u64) as i64 == x,
{
    assert((x as u64) as i64 == x) by (bit_vector);
}

/// Packed numbers are read back, all of them and with their signs.
pub proof fn law_packed_reads_back(s: Seq<u8>, pos: int, v: Seq<i64>)
    requires
        stand_at(written_packed(v), s, pos),
        pos + written_packed(v).len() == s.len(),
    ensures
        packed_int64_from(s, pos) is Ok,
        packed_int64_from(s, pos)->Ok_0 == v,
    decreases v.len(),
{
    if v.len() > 0 {
        let first = v[0] as u64;
        let front = written_varint(first as nat);
        let rest = written_packed(v.drop_first());
        lemma_stands_behind(front, rest, s, pos);
        law_varint_reads_back(s, pos, first);
        law_packed_reads_back(s, pos + front.len(), v.drop_first());
        lemma_sign_kept(v[0]);
        lemma_varint_digits(s, pos, first as nat);
        assert(seq![v[0]] + v.drop_first() =~= v);
    } else {
        assert(v =~= Seq::empty());
    }
}

} // verus!
