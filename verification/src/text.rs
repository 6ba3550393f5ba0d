//! Building and comparing text.
//!
//! Messages are assembled from literal pieces, names and decimal numbers, so
//! that a contract can give the exact characters of every message.

use vstd::prelude::*;
use vstd::string::*;
use vstd::utf8::*;
use crate::model::views;

verus! {

/// The character of one decimal digit.
pub open spec fn digit_char(d: nat) -> char {
    (('0' as nat) + d) as char
}

/// The decimal digits of `n`, most significant first, without leading zeros.
pub open spec fn dec(n: nat) -> Seq<char>
    decreases n,
{
    if n < 10 {
        seq![digit_char(n)]
    } else {
        dec(n / 10).push(digit_char(n % 10))
    }
}

/// Decimal text of a signed number.
pub open spec fn dec_int(n: int) -> Seq<char> {
    if n < 0 {
        seq!['-'] + dec((-n) as nat)
    } else {
        dec(n as nat)
    }
}

/// Decimal text of `n`, padded with zeros on the left to at least `width` characters.
pub open spec fn dec_padded(n: nat, width: nat) -> Seq<char> {
    if width <= dec(n).len() {
        dec(n)
    } else {
        Seq::new((width - dec(n).len()) as nat, |i: int| '0') + dec(n)
    }
}

/// Pieces of text with a separator between each two.
pub open spec fn joined(items: Seq<Seq<char>>, separator: Seq<char>) -> Seq<char>
    decreases items.len(),
{
    if items.len() == 0 {
        Seq::empty()
    } else if items.len() == 1 {
        items[0]
    } else {
        joined(items.drop_last(), separator) + separator + items.last()
    }
}

/// Pieces of text in square brackets, the way a list is shown for debugging.
pub open spec fn list_text(items: Seq<Seq<char>>) -> Seq<char> {
    "["@ + joined(items, ", "@) + "]"@
}

/// Decimal text of each number.
pub open spec fn dec_each(s: Seq<int>) -> Seq<Seq<char>> {
    s.map_values(|n: int| dec_int(n))
}

/// A list of sizes in square brackets.
pub open spec fn sizes_text(s: Seq<usize>) -> Seq<char> {
    list_text(dec_each(s.map_values(|n: usize| n as int)))
}

/// A list of signed numbers in square brackets.
pub open spec fn signed_text(s: Seq<i64>) -> Seq<char> {
    list_text(dec_each(s.map_values(|n: i64| n as int)))
}

/// The character of one hexadecimal digit.
pub open spec fn hex_char(d: nat) -> char {
    if d < 10 {
        digit_char(d)
    } else {
        (('a' as nat) + d - 10) as char
    }
}

/// The low `width` hexadecimal digits of `n`.
pub open spec fn hex(n: nat, width: nat) -> Seq<char>
    decreases width,
{
    if width == 0 {
        Seq::empty()
    } else {
        hex(n / 16, (width - 1) as nat).push(hex_char(n % 16))
    }
}

/// `a == b` as text.
pub fn str_eq(a: &str, b: &str) -> (r: bool)
    ensures
        r == (a@ == b@),
{
    let x: &[u8] = a.as_bytes();
    let y: &[u8] = b.as_bytes();
    proof {
        encode_utf8_decode_utf8(a@);
        encode_utf8_decode_utf8(b@);
    }
    if x.len() != y.len() {
        return false;
    }
    let mut i: usize = 0;
    while i < x.len()
        invariant
            x@ == a.spec_bytes(),
            y@ == b.spec_bytes(),
            x@.len() == y@.len(),
            i <= x@.len(),
            forall|j: int| 0 <= j < i ==> x@[j] == y@[j],
        decreases x@.len() - i,
    {
        if x[i] != y[i] {
            return false;
        }
        i = i + 1;
    }
    assert(x@ =~= y@);
    true
}

/// Two pieces of text after one another.
pub fn concat2(a: &str, b: &str) -> (r: String)
    ensures
        r@ == a@ + b@,
{
    let mut s: String = a.to_owned();
    s.append(b);
    s
}

/// Three pieces of text after one another.
pub fn concat3(a: &str, b: &str, c: &str) -> (r: String)
    ensures
        r@ == a@ + b@ + c@,
{
    let mut s: String = concat2(a, b);
    s.append(c);
    s
}

/// Four pieces of text after one another.
pub fn concat4(a: &str, b: &str, c: &str, d: &str) -> (r: String)
    ensures
        r@ == a@ + b@ + c@ + d@,
{
    let mut s: String = concat3(a, b, c);
    s.append(d);
    s
}

fn digit_str(d: u64) -> (r: &'static str)
    requires
        d < 10,
    ensures
        r@ == seq![digit_char(d as nat)],
{
    proof {
        reveal_strlit("0");
        reveal_strlit("1");
        reveal_strlit("2");
        reveal_strlit("3");
        reveal_strlit("4");
        reveal_strlit("5");
        reveal_strlit("6");
        reveal_strlit("7");
        reveal_strlit("8");
        reveal_strlit("9");
    }
    let r: &'static str = match d {
        0 => "0",
        1 => "1",
        2 => "2",
        3 => "3",
        4 => "4",
        5 => "5",
        6 => "6",
        7 => "7",
        8 => "8",
        _ => "9",
    };
    assert(r@ =~= seq![digit_char(d as nat)]);
    r
}

/// Decimal text of an unsigned number.
pub fn dec_u64(n: u64) -> (r: String)
    ensures
        r@ == dec(n as nat),
    decreases n,
{
    if n < 10 {
        digit_str(n).to_owned()
    } else {
        let mut s: String = dec_u64(n / 10);
        s.append(digit_str(n % 10));
        assert(s@ =~= dec((n / 10) as nat).push(digit_char((n % 10) as nat)));
        s
    }
}

/// Decimal text of an index or a size.
pub fn dec_usize(n: usize) -> (r: String)
    ensures
        r@ == dec(n as nat),
{
    dec_u64(n as u64)
}

/// Decimal text of a signed number.
pub fn dec_i64(n: i64) -> (r: String)
    ensures
        r@ == dec_int(n as int),
{
    if n < 0 {
        let m: u64 = if n == i64::MIN {
            9_223_372_036_854_775_808u64
        } else {
            (-n) as u64
        };
        let digits: String = dec_u64(m);
        proof {
            reveal_strlit("-");
            assert("-"@ =~= seq!['-']);
        }
        concat2("-", digits.as_str())
    } else {
        dec_u64(n as u64)
    }
}

/// Decimal text with leading zeros up to `width` characters.
pub fn dec_u64_padded(n: u64, width: usize) -> (r: String)
    ensures
        r@ == dec_padded(n as nat, width as nat),
{
    let digits: String = dec_u64(n);
    let have: usize = digits.as_str().unicode_len();
    let mut zeros: String = String::new();
    let mut i: usize = have;
    proof {
        reveal_strlit("0");
    }
    while i < width
        invariant
            have <= i,
            have < width ==> i <= width,
            width <= have ==> i == have,
            zeros@ == Seq::new((i - have) as nat, |k: int| '0'),
        decreases width - i,
    {
        proof {
            reveal_strlit("0");
        }
        zeros.append("0");
        i = i + 1;
        assert(zeros@ =~= Seq::new((i - have) as nat, |k: int| '0'));
    }
    let r: String = concat2(zeros.as_str(), digits.as_str());
    assert(r@ =~= dec_padded(n as nat, width as nat));
    r
}

/// Pieces of text with a separator between each two.
pub fn join(items: &Vec<String>, separator: &str) -> (r: String)
    ensures
        r@ == joined(views(items@), separator@),
{
    let mut s: String = String::new();
    let mut i: usize = 0;
    assert(s@ =~= joined(views(items@).take(0), separator@));
    while i < items.len()
        invariant
            i <= items@.len(),
            s@ == joined(views(items@).take(i as int), separator@),
        decreases items@.len() - i,
    {
        proof {
            let next = views(items@).take(i + 1);
            assert(next.drop_last() =~= views(items@).take(i as int));
            assert(next.last() == items@[i as int]@);
        }
        if i > 0 {
            s.append(separator);
        }
        s.append(items[i].as_str());
        i = i + 1;
        assert(s@ =~= joined(views(items@).take(i as int), separator@));
    }
    assert(views(items@).take(i as int) =~= views(items@));
    s
}

fn bracketed(items: &Vec<String>) -> (r: String)
    ensures
        r@ == list_text(views(items@)),
{
    let inner: String = join(items, ", ");
    concat3("[", inner.as_str(), "]")
}

/// A list of sizes in square brackets.
pub fn list_usize(v: &Vec<usize>) -> (r: String)
    ensures
        r@ == sizes_text(v@),
{
    broadcast use crate::model::lemma_views_push;

    let ghost all = dec_each(v@.map_values(|n: usize| n as int));
    let mut items: Vec<String> = Vec::new();
    let mut i: usize = 0;
    while i < v.len()
        invariant
            i <= v@.len(),
            all == dec_each(v@.map_values(|n: usize| n as int)),
            views(items@) == all.take(i as int),
        decreases v@.len() - i,
    {
        broadcast use crate::model::lemma_views_push;

        let ghost before = views(items@);
        items.push(dec_usize(v[i]));
        i = i + 1;
        assert(before.push(dec(v@[i - 1] as nat)) =~= all.take(i as int));
    }
    assert(all.take(i as int) =~= all);
    bracketed(&items)
}

/// A list of signed numbers in square brackets.
pub fn list_i64(v: &Vec<i64>) -> (r: String)
    ensures
        r@ == signed_text(v@),
{
    let ghost all = dec_each(v@.map_values(|n: i64| n as int));
    let mut items: Vec<String> = Vec::new();
    let mut i: usize = 0;
    assert(views(items@) =~= all.take(0));
    while i < v.len()
        invariant
            i <= v@.len(),
            all == dec_each(v@.map_values(|n: i64| n as int)),
            views(items@) == all.take(i as int),
        decreases v@.len() - i,
    {
        broadcast use crate::model::lemma_views_push;

        let ghost before = views(items@);
        items.push(dec_i64(v[i]));
        i = i + 1;
        assert(before.push(dec_int(v@[i - 1] as int)) =~= all.take(i as int));
    }
    assert(all.take(i as int) =~= all);
    bracketed(&items)
}

fn hex_str(d: u64) -> (r: &'static str)
    requires
        d < 16,
    ensures
        r@ == seq![hex_char(d as nat)],
{
    if d < 10 {
        return digit_str(d);
    }
    proof {
        reveal_strlit("a");
        reveal_strlit("b");
        reveal_strlit("c");
        reveal_strlit("d");
        reveal_strlit("e");
        reveal_strlit("f");
    }
    let r: &'static str = match d {
        10 => "a",
        11 => "b",
        12 => "c",
        13 => "d",
        14 => "e",
        _ => "f",
    };
    assert(r@ =~= seq![hex_char(d as nat)]);
    r
}

/// The low `width` hexadecimal digits of a number.
pub fn hex_u64(n: u64, width: usize) -> (r: String)
    ensures
        r@ == hex(n as nat, width as nat),
    decreases width,
{
    if width == 0 {
        let r: String = String::new();
        assert(r@ =~= hex(n as nat, 0));
        r
    } else {
        let mut s: String = hex_u64(n / 16, width - 1);
        s.append(hex_str(n % 16));
        assert(s@ =~= hex((n / 16) as nat, (width - 1) as nat).push(hex_char((n % 16) as nat)));
        s
    }
}

} // verus!
