//! Numbers in decimal and byte strings in hexadecimal.
use vstd::prelude::*;
use vstd::string::*;
use vstd::utf8::*;

verus! {

/// The character of a decimal digit.
pub open spec fn digit(d: nat) -> char {
    (48 + d) as char
}

/// A number in decimal, without leading zeros.
pub open spec fn decimal(n: nat) -> Seq<char>
    decreases n,
{
    if n < 10 {
        seq![digit(n)]
    } else {
        decimal(n / 10).push(digit(n % 10))
    }
}

fn digit_text(d: u64) -> (r: &'static str)
    requires
        d < 10,
    ensures
        r@ == seq![digit(d as nat)],
{
    proof {
        reveal_strlit("0");
        reveal_strlit("1");
        reveal_strlit("2");
        reveal_strlit("3");
        reveal_strlit("4");
        reveal_strlit("5");
        reveal_strlit("6");
        reveal_strlit("7");
        reveal_strlit("8");
        reveal_strlit("9");
    }
    let r: &'static str = match d {
        0 => "0",
        1 => "1",
        2 => "2",
        3 => "3",
        4 => "4",
        5 => "5",
        6 => "6",
        7 => "7",
        8 => "8",
        _ => "9",
    };
    assert(r@ =~= seq![digit(d as nat)]);
    r
}

/// The character of a hexadecimal digit, in lower case.
pub open spec fn hex_digit(d: nat) -> char {
    if d < 10 {
        digit(d)
    } else {
        (87 + d) as char
    }
}

/// A byte string in hexadecimal: two lower-case digits for each byte, the high one first.
pub open spec fn hex(b: Seq<u8>) -> Seq<char> {
    Seq::new(
        2 * b.len(),
        |i: int|
            hex_digit(
                if i % 2 == 0 {
                    b[i / 2] as nat / 16
                } else {
                    b[i / 2] as nat % 16
                },
            ),
    )
}

/// `hex::encode`: every byte as two lower-case hexadecimal digits.
#[verifier::external_body]
pub(crate) fn hex_encode(data: &[u8]) -> (r: String)
    requires
        data@.len() <= usize::MAX / 2,
    ensures
        r@ == hex(data@),
{
    hex::encode(data)
}

/// The value of a hexadecimal digit, in lower or upper case.
pub open spec fn hex_value(c: u8) -> Option<nat> {
    if 48 <= c <= 57 {
        Some((c - 48) as nat)
    } else if 65 <= c <= 70 {
        Some((c - 55) as nat)
    } else if 97 <= c <= 102 {
        Some((c - 87) as nat)
    } else {
        None
    }
}

/// The byte string that a text writes in hexadecimal, if it has an even number of
/// characters and all of them are digits.
pub open spec fn unhex(text: Seq<u8>) -> Option<Seq<u8>> {
    if text.len() % 2 == 0 && forall|i: int|
        0 <= i < text.len() ==> hex_value(#[trigger] text[i]) is Some {
        Some(
            Seq::new(
                text.len() / 2,
                |i: int| (16 * hex_value(text[2 * i])->0 + hex_value(text[2 * i + 1])->0) as u8,
            ),
        )
    } else {
        None
    }
}

/// What `hex::decode` says of a text that it refuses.
pub uninterp spec fn hex_fault(text: Seq<u8>) -> Seq<char>;

/// `hex::decode`: the byte string that a text writes in hexadecimal, or the text of an
/// error, which is a function of the argument.
#[verifier::external_body]
pub(crate) fn hex_decode(s: &str) -> (r: core::result::Result<Vec<u8>, String>)
    ensures
        match r {
            Ok(v) => unhex(s.spec_bytes()) == Some(v@),
            Err(e) => {
                &&& unhex(s.spec_bytes()) is None
                &&& e@ == hex_fault(s.spec_bytes())
                &&& s.spec_bytes().len() % 2 == 1 ==> e@ == "Odd number of digits"@
            },
        },
{
    hex::decode(s).map_err(|e| e.to_string())
}

/// A byte string that was written in hexadecimal is read back.
pub proof fn law_hex_round_trip(b: Seq<u8>)
    ensures
        unhex(encode_utf8(hex(b))) == Some(b),
{
    let t = hex(b);
    assert forall|i: int| 0 <= i < t.len() implies 48 <= #[trigger] t[i] as nat <= 102 by {}
    assert(is_ascii_chars(t));
    is_ascii_chars_encode_utf8(t);
    let u = encode_utf8(t);
    assert forall|i: int| 0 <= i < u.len() implies hex_value(#[trigger] u[i]) == Some(
        if i % 2 == 0 {
            b[i / 2] as nat / 16
        } else {
            b[i / 2] as nat % 16
        },
    ) by {
        assert(u[i] == t[i] as u8);
    }
    assert(unhex(u)->0 =~= b);
}

/// Appends a number in decimal.
pub fn push_decimal(s: &mut String, n: u64)
    ensures
        final(s)@ == old(s)@ + decimal(n as nat),
{
    push_decimal_wide(s, n as u128);
}

/// Appends a 128-bit number in decimal.
pub fn push_decimal_wide(s: &mut String, n: u128)
    ensures
        final(s)@ == old(s)@ + decimal(n as nat),
    decreases n,
{
    if n >= 10 {
        push_decimal_wide(s, n / 10);
    }
    s.append(digit_text((n % 10) as u64));
    assert(s@ =~= old(s)@ + decimal(n as nat));
}

/// The texts of a list of strings.
pub open spec fn texts(v: Seq<String>) -> Seq<Seq<char>> {
    Seq::new(v.len(), |i: int| v[i]@)
}

/// The texts of a list with a separator between them.
pub open spec fn joined(v: Seq<Seq<char>>, separator: Seq<char>) -> Seq<char>
    decreases v.len(),
{
    if v.len() == 0 {
        Seq::empty()
    } else if v.len() == 1 {
        v[0]
    } else {
        joined(v.drop_last(), separator) + separator + v.last()
    }
}

/// Appends the texts of a list with a separator between them.
pub fn push_joined(s: &mut String, list: &Vec<String>, separator: &str)
    ensures
        final(s)@ == old(s)@ + joined(texts(list@), separator@),
{
    let ghost all = texts(list@);
    let mut i: usize = 0;
    assert(all.take(0) =~= Seq::<Seq<char>>::empty());
    assert(s@ =~= old(s)@ + joined(all.take(0), separator@));
    while i < list.len()
        invariant
            i <= list@.len(),
            all == texts(list@),
            s@ == old(s)@ + joined(all.take(i as int), separator@),
        decreases list@.len() - i,
    {
        if i > 0 {
            s.append(separator);
        }
        s.append(list[i].as_str());
        assert(all.take(i + 1).drop_last() =~= all.take(i as int));
        assert(all.take(i + 1).last() == list@[i as int]@);
        assert(s@ =~= old(s)@ + joined(all.take(i + 1), separator@));
        i = i + 1;
    }
    assert(all.take(i as int) =~= all);
}

/// Appends a text.
pub fn push_text(s: &mut String, t: &str)
    ensures
        final(s)@ == old(s)@ + t@,
{
    s.append(t);
}

/// The short form of a value: its name, the first bytes of its encoding in hexadecimal, and
/// an end.
pub open spec fn short_form(name: Seq<char>, b: Seq<u8>, count: int, end: Seq<char>) -> Seq<char> {
    name + "("@ + hex(b.take(count)) + end
}

/// The short form of a value with an encoding of 32 bytes.
pub(crate) fn make_short_form(name: &str, b: &[u8; 32], count: usize, end: &str) -> (r: String)
    requires
        count <= 32,
    ensures
        r@ == short_form(name@, b@, count as int, end@),
{
    let head = vstd::slice::slice_subrange(b.as_slice(), 0, count);
    assert(head@ =~= b@.take(count as int));
    let mut s: String = name.to_owned();
    push_text(&mut s, "(");
    let digits = hex_encode(head);
    push_text(&mut s, digits.as_str());
    push_text(&mut s, end);
    s
}

/// The number that decimal digits stand for.
pub open spec fn digits_value(s: Seq<char>) -> nat
    decreases s.len(),
{
    if s.len() == 0 {
        0
    } else {
        (10 * digits_value(s.drop_last()) + (s.last() as u32 - '0' as u32)) as nat
    }
}

/// A number in decimal stands for that number, all its characters are digits, and it begins
/// with a zero only where it is zero.
pub proof fn law_decimal_reads_back(n: nat)
    ensures
        digits_value(decimal(n)) == n,
        decimal(n).len() > 0,
        forall|i: int| 0 <= i < decimal(n).len() ==> '0' <= #[trigger] decimal(n)[i] <= '9',
        decimal(n)[0] == '0' ==> n == 0,
    decreases n,
{
    if n < 10 {
        assert(decimal(n).drop_last() =~= Seq::<char>::empty());
        assert(digits_value(Seq::<char>::empty()) == 0);
        assert(decimal(n).last() == digit(n));
    } else {
        law_decimal_reads_back(n / 10);
        let head = decimal(n / 10);
        assert(decimal(n) == head.push(digit(n % 10)));
        assert(decimal(n).drop_last() =~= head);
        assert(decimal(n)[0] == head[0]);
    }
}

/// Two numbers with the same decimal text are the same.
pub proof fn law_decimal_injective(a: nat, b: nat)
    requires
        decimal(a) == decimal(b),
    ensures
        a == b,
{
    law_decimal_reads_back(a);
    law_decimal_reads_back(b);
}

/// Two byte strings with the same hexadecimal text are the same.
pub proof fn law_hex_injective(a: Seq<u8>, b: Seq<u8>)
    requires
        hex(a) == hex(b),
    ensures
        a == b,
{
    law_hex_round_trip(a);
    law_hex_round_trip(b);
}

} // verus!
