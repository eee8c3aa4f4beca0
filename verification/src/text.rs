//! Names: hexadecimal text in ASCII.

use crate::domain::Id;
use crate::error::StoreError;
use vstd::prelude::*;
use vstd::slice::slice_subrange;
use vstd::string::*;
use vstd::utf8::*;

verus! {

/// The characters are the ASCII text with these bytes.
pub open spec fn spells(chars: Seq<char>, text: Seq<u8>) -> bool {
    &&& chars.len() == text.len()
    &&& forall|i: int| 0 <= i < text.len() ==> (#[trigger] text[i]) < 128 && chars[i] == text[i] as char
}

/// A string that spells an ASCII text has its bytes.
pub proof fn lemma_spells(chars: Seq<char>, text: Seq<u8>)
    requires
        spells(chars, text),
    ensures
        encode_utf8(chars) == text,
{
    assert forall|i: int| 0 <= i < chars.len() implies '\0' <= #[trigger] chars[i] <= '\u{7f}' by {
        assert(text[i] < 128);
    }
    is_ascii_chars_encode_utf8(chars);
    assert(encode_utf8(chars) =~= text);
}

proof fn lemma_spells_join(a: Seq<char>, b: Seq<char>, s: Seq<u8>, t: Seq<u8>)
    requires
        spells(a, s),
        spells(b, t),
    ensures
        spells(a + b, s + t),
{
    assert forall|i: int| 0 <= i < (s + t).len() implies (#[trigger] (s + t)[i]) < 128 && (a + b)[i]
        == (s + t)[i] as char by {
        if i < s.len() {
            assert(s[i] < 128);
        } else {
            assert(t[i - s.len()] < 128);
        }
    }
}

/// The lower-case digit of a value below 16.
pub open spec fn hex_digit(value: int) -> u8 {
    if value < 10 {
        (48 + value) as u8
    } else {
        (87 + value) as u8
    }
}

/// Two digits for each byte.
pub open spec fn hex_text(bytes: Seq<u8>) -> Seq<u8>
    decreases bytes.len(),
{
    if bytes.len() == 0 {
        Seq::empty()
    } else {
        hex_text(bytes.drop_last()) + seq![
            hex_digit(bytes.last() as int / 16),
            hex_digit(bytes.last() as int % 16),
        ]
    }
}

/// The last `width` digits of a number.
pub open spec fn number_text(value: nat, width: nat) -> Seq<u8>
    decreases width,
{
    if width == 0 {
        Seq::empty()
    } else {
        number_text(value / 16, (width - 1) as nat) + seq![hex_digit(value as int % 16)]
    }
}

pub proof fn lemma_hex_text(bytes: Seq<u8>)
    ensures
        hex_text(bytes).len() == 2 * bytes.len(),
        forall|i: int|
            0 <= i < bytes.len() ==> hex_text(bytes)[2 * i] == hex_digit(
                #[trigger] bytes[i] as int / 16,
            ) && hex_text(bytes)[2 * i + 1] == hex_digit(bytes[i] as int % 16),
    decreases bytes.len(),
{
    if bytes.len() > 0 {
        lemma_hex_text(bytes.drop_last());
        assert forall|i: int| 0 <= i < bytes.len() implies hex_text(bytes)[2 * i] == hex_digit(
            #[trigger] bytes[i] as int / 16,
        ) && hex_text(bytes)[2 * i + 1] == hex_digit(bytes[i] as int % 16) by {
            if i < bytes.len() - 1 {
                assert(bytes.drop_last()[i] == bytes[i]);
            }
        }
    }
}

pub proof fn lemma_number_text(value: nat, width: nat)
    ensures
        number_text(value, width).len() == width,
    decreases width,
{
    if width > 0 {
        lemma_number_text(value / 16, (width - 1) as nat);
    }
}

/// The value of a hexadecimal digit of either case.
pub open spec fn digit_value(digit: u8) -> Option<nat> {
    if 48 <= digit <= 57 {
        Some((digit - 48) as nat)
    } else if 97 <= digit <= 102 {
        Some((digit - 87) as nat)
    } else if 65 <= digit <= 70 {
        Some((digit - 55) as nat)
    } else {
        None
    }
}

/// The number that digits stand for.
pub open spec fn digits_value(digits: Seq<u8>) -> Option<nat>
    decreases digits.len(),
{
    if digits.len() == 0 {
        Some(0)
    } else {
        match (digits_value(digits.drop_last()), digit_value(digits.last())) {
            (Some(high), Some(low)) => Some(16 * high + low),
            _ => None,
        }
    }
}

/// The number that a text stands for: digits, after a plus sign if there is one.
pub open spec fn radix_value(text: Seq<u8>) -> Option<nat> {
    if text.len() == 0 {
        None
    } else if text[0] == 43 {
        if text.len() == 1 {
            None
        } else {
            digits_value(text.skip(1))
        }
    } else {
        digits_value(text)
    }
}

/// The 32 bytes that a text stands for: 64 characters, each pair a number.
pub open spec fn hex_value(text: Seq<u8>, i: int) -> Option<nat> {
    radix_value(text.subrange(2 * i, 2 * i + 2))
}

/// Each pair of the 64 characters is a number.
pub open spec fn is_hex(text: Seq<u8>) -> bool {
    text.len() == 64 && forall|i: int| 0 <= i < 32 ==> (#[trigger] hex_value(text, i)) is Some
}

/// The bytes that a hexadecimal text stands for.
pub open spec fn unhex(text: Seq<u8>) -> Seq<u8> {
    Seq::new(32, |i: int| hex_value(text, i)->Some_0 as u8)
}

fn digit(byte: u8) -> (value: Option<u8>)
    ensures
        match value {
            Some(v) => v < 16 && digit_value(byte) == Some(v as nat),
            None => digit_value(byte) is None,
        },
{
    if 48 <= byte && byte <= 57 {
        Some(byte - 48)
    } else if 97 <= byte && byte <= 102 {
        Some(byte - 87)
    } else if 65 <= byte && byte <= 70 {
        Some(byte - 55)
    } else {
        None
    }
}

/// The number of values that `width` digits can hold.
pub open spec fn radix_bound(width: nat) -> nat
    decreases width,
{
    if width == 0 {
        1
    } else {
        16 * radix_bound((width - 1) as nat)
    }
}

proof fn lemma_radix_bound(low: nat, high: nat)
    requires
        low <= high,
    ensures
        1 <= radix_bound(low) <= radix_bound(high),
    decreases high,
{
    if low < high {
        lemma_radix_bound(low, (high - 1) as nat);
    } else if low > 0 {
        lemma_radix_bound((low - 1) as nat, (low - 1) as nat);
    }
}

proof fn lemma_digits_bound(digits: Seq<u8>)
    requires
        digits_value(digits) is Some,
    ensures
        digits_value(digits)->Some_0 < radix_bound(digits.len()),
    decreases digits.len(),
{
    if digits.len() > 0 {
        lemma_digits_bound(digits.drop_last());
    }
}

proof fn lemma_digits_prefix(digits: Seq<u8>, n: int)
    requires
        0 <= n <= digits.len(),
        digits_value(digits.take(n)) is None,
    ensures
        digits_value(digits) is None,
    decreases digits.len() - n,
{
    if n < digits.len() {
        assert(digits.take(n + 1).drop_last() =~= digits.take(n));
        lemma_digits_prefix(digits, n + 1);
    } else {
        assert(digits.take(n) =~= digits);
    }
}

/// Reads a number of at most 16 digits.
fn read_digits(digits: &[u8]) -> (value: Option<u64>)
    requires
        digits@.len() <= 16,
    ensures
        match value {
            Some(v) => digits_value(digits@) == Some(v as nat),
            None => digits_value(digits@) is None,
        },
{
    let mut value: u64 = 0;
    let mut i: usize = 0;
    assert(digits@.take(0) =~= Seq::<u8>::empty());
    while i < digits.len()
        invariant
            i <= digits@.len(),
            digits@.len() <= 16,
            digits_value(digits@.take(i as int)) == Some(value as nat),
        decreases digits.len() - i,
    {
        proof {
            assert(digits@.take(i as int + 1).drop_last() =~= digits@.take(i as int));
        }
        match digit(digits[i]) {
            Some(low) => {
                proof {
                    lemma_digits_bound(digits@.take(i as int + 1));
                    lemma_radix_bound((i + 1) as nat, 16);
                    lemma_radix_bound_16();
                }
                value = value * 16 + low as u64;
            },
            None => {
                proof {
                    lemma_digits_prefix(digits@, i as int + 1);
                }
                return None;
            },
        }
        i += 1;
    }
    assert(digits@.take(i as int) =~= digits@);
    Some(value)
}

/// Reads a number of at most 16 characters.
pub fn read_radix(text: &[u8]) -> (value: Option<u64>)
    requires
        text@.len() <= 16,
    ensures
        match value {
            Some(v) => radix_value(text@) == Some(v as nat),
            None => radix_value(text@) is None,
        },
{
    if text.len() == 0 {
        return None;
    }
    if text[0] == 43 {
        if text.len() == 1 {
            return None;
        }
        let rest: &[u8] = slice_subrange(text, 1, text.len());
        assert(rest@ =~= text@.skip(1));
        read_digits(rest)
    } else {
        read_digits(text)
    }
}

/// Reads 32 bytes from their hexadecimal text.
pub fn parse_hex(text: &[u8]) -> (bytes: Result<[u8; 32], StoreError>)
    ensures
        match bytes {
            Ok(b) => is_hex(text@) && b@ == unhex(text@),
            Err(e) => !is_hex(text@) && e == StoreError::Corrupt(0),
        },
{
    if text.len() != 64 {
        return Err(StoreError::Corrupt(0));
    }
    let mut bytes: [u8; 32] = [0u8; 32];
    let mut i: usize = 0;
    while i < 32
        invariant
            i <= 32,
            text@.len() == 64,
            forall|j: int|
                0 <= j < i ==> (#[trigger] hex_value(text@, j)) is Some && bytes@[j] == hex_value(
                    text@,
                    j,
                )->Some_0 as u8,
        decreases 32 - i,
    {
        let pair: &[u8] = slice_subrange(text, 2 * i, 2 * i + 2);
        match read_radix(pair) {
            Some(value) => {
                proof {
                    assert(hex_value(text@, i as int) == Some(value as nat));
                    lemma_pair_bound(pair@);
                }
                bytes[i] = value as u8;
            },
            None => {
                assert(hex_value(text@, i as int) is None);
                return Err(StoreError::Corrupt(0));
            },
        }
        i += 1;
    }
    assert(bytes@ =~= unhex(text@));
    Ok(bytes)
}

proof fn lemma_pair_bound(pair: Seq<u8>)
    requires
        pair.len() == 2,
        radix_value(pair) is Some,
    ensures
        radix_value(pair)->Some_0 < 256,
{
    reveal_with_fuel(radix_bound, 3);
    if pair[0] == 43 {
        lemma_digits_bound(pair.skip(1));
    } else {
        lemma_digits_bound(pair);
    }
}

/// Reading the hexadecimal text of 32 bytes gives the bytes back.
pub proof fn law_hex_round_trip(bytes: Seq<u8>)
    requires
        bytes.len() == 32,
    ensures
        is_hex(hex_text(bytes)),
        unhex(hex_text(bytes)) == bytes,
{
    let text = hex_text(bytes);
    lemma_hex_text(bytes);
    assert forall|i: int| 0 <= i < 32 implies (#[trigger] hex_value(text, i)) == Some(
        bytes[i] as nat,
    ) by {
        let pair = text.subrange(2 * i, 2 * i + 2);
        let high = bytes[i] as int / 16;
        let low = bytes[i] as int % 16;
        assert(text[2 * i] == hex_digit(high));
        assert(pair[0] == hex_digit(high));
        assert(pair[1] == hex_digit(low));
        assert(pair.drop_last().drop_last().len() == 0);
        assert(pair.drop_last().last() == pair[0]);
        assert(digits_value(pair.drop_last()) == Some(high as nat)) by {
            assert(digits_value(pair.drop_last().drop_last()) == Some(0nat));
        }
        assert(digits_value(pair) == Some((16 * high + low) as nat));
    }
    assert(unhex(text) =~= bytes);
}

/// Appends the digit of a value below 16.
fn push_digit(output: &mut String, value: u8, text: Ghost<Seq<u8>>)
    requires
        value < 16,
        spells(old(output)@, text@),
    ensures
        spells(final(output)@, text@ + seq![hex_digit(value as int)]),
{
    proof {
        reveal_strlit("0");
        reveal_strlit("1");
        reveal_strlit("2");
        reveal_strlit("3");
        reveal_strlit("4");
        reveal_strlit("5");
        reveal_strlit("6");
        reveal_strlit("7");
        reveal_strlit("8");
        reveal_strlit("9");
        reveal_strlit("a");
        reveal_strlit("b");
        reveal_strlit("c");
        reveal_strlit("d");
        reveal_strlit("e");
        reveal_strlit("f");
    }
    let piece: &str = match value {
        0 => "0",
        1 => "1",
        2 => "2",
        3 => "3",
        4 => "4",
        5 => "5",
        6 => "6",
        7 => "7",
        8 => "8",
        9 => "9",
        10 => "a",
        11 => "b",
        12 => "c",
        13 => "d",
        14 => "e",
        _ => "f",
    };
    assert(spells(piece@, seq![hex_digit(value as int)]));
    proof {
        lemma_spells_join(output@, piece@, text@, seq![hex_digit(value as int)]);
    }
    output.append(piece);
}

/// Appends the digits of some bytes.
pub(crate) fn push_hex(output: &mut String, bytes: &[u8], text: Ghost<Seq<u8>>)
    requires
        spells(old(output)@, text@),
    ensures
        spells(final(output)@, text@ + hex_text(bytes@)),
{
    let mut i: usize = 0;
    proof {
        assert(bytes@.take(0) =~= Seq::<u8>::empty());
        assert(text@ + hex_text(bytes@.take(0)) =~= text@);
    }
    while i < bytes.len()
        invariant
            i <= bytes@.len(),
            spells(output@, text@ + hex_text(bytes@.take(i as int))),
        decreases bytes.len() - i,
    {
        let ghost now = text@ + hex_text(bytes@.take(i as int));
        let byte: u8 = bytes[i];
        push_digit(output, byte / 16, Ghost(now));
        push_digit(output, byte % 16, Ghost(now + seq![hex_digit(byte as int / 16)]));
        proof {
            let more = bytes@.take(i as int + 1);
            assert(more.drop_last() =~= bytes@.take(i as int));
            assert(now + seq![hex_digit(byte as int / 16)] + seq![hex_digit(byte as int % 16)]
                =~= text@ + hex_text(more));
        }
        i += 1;
    }
    assert(bytes@.take(i as int) =~= bytes@);
}

/// Appends the sixteen digits of a number.
pub(crate) fn push_number(output: &mut String, value: u64, text: Ghost<Seq<u8>>)
    requires
        spells(old(output)@, text@),
    ensures
        spells(final(output)@, text@ + number_text(value as nat, 16)),
{
    let mut digits: [u8; 16] = [0u8; 16];
    let mut rest: u64 = value;
    let mut i: usize = 16;
    while i > 0
        invariant
            i <= 16,
            forall|j: int| i <= j < 16 ==> #[trigger] digits@[j] < 16,
            number_text(value as nat, 16) == number_text(rest as nat, i as nat) + digit_texts(
                digits@,
                i as int,
            ),
        decreases i,
    {
        let ghost before = digits@;
        let ghost tail = digit_texts(digits@, i as int);
        i -= 1;
        digits[i] = (rest % 16) as u8;
        proof {
            lemma_digit_texts(before, digits@, i as int + 1);
            let one = seq![hex_digit(rest as int % 16)];
            assert(digit_texts(digits@, i as int) =~= one + tail);
            assert(number_text(rest as nat / 16, i as nat) + one + tail =~= number_text(
                rest as nat / 16,
                i as nat,
            ) + (one + tail));
        }
        rest = rest / 16;
    }
    proof {
        assert(number_text(value as nat, 16) =~= digit_texts(digits@, 0));
    }
    let mut k: usize = 0;
    proof {
        assert(text@ + digit_texts(digits@, 0) =~= text@ + digit_texts(digits@, 0));
    }
    let ghost goal = text@ + digit_texts(digits@, 0);
    let ghost mut now = text@;
    while k < 16
        invariant
            k <= 16,
            forall|j: int| 0 <= j < 16 ==> #[trigger] digits@[j] < 16,
            spells(output@, now),
            goal == now + digit_texts(digits@, k as int),
        decreases 16 - k,
    {
        push_digit(output, digits[k], Ghost(now));
        proof {
            let one = seq![hex_digit(digits@[k as int] as int)];
            assert(now + (one + digit_texts(digits@, k as int + 1)) =~= (now + one) + digit_texts(
                digits@,
                k as int + 1,
            ));
            now = now + one;
        }
        k += 1;
    }
    assert(now + digit_texts(digits@, 16) =~= now);
}

/// The text of the digits from place `i` on.
spec fn digit_texts(digits: Seq<u8>, i: int) -> Seq<u8>
    decreases digits.len() - i,
{
    if i >= digits.len() {
        Seq::empty()
    } else {
        seq![hex_digit(digits[i] as int)] + digit_texts(digits, i + 1)
    }
}

proof fn lemma_digit_texts(a: Seq<u8>, b: Seq<u8>, i: int)
    requires
        a.len() == b.len(),
        0 <= i,
        forall|j: int| i <= j < a.len() ==> a[j] == b[j],
    ensures
        digit_texts(a, i) == digit_texts(b, i),
    decreases a.len() - i,
{
    if i < a.len() {
        lemma_digit_texts(a, b, i + 1);
    }
}

/// Appends an ASCII literal.
pub(crate) fn push_text(output: &mut String, piece: &str, text: Ghost<Seq<u8>>, more: Ghost<Seq<u8>>)
    requires
        spells(old(output)@, text@),
        spells(piece@, more@),
    ensures
        spells(final(output)@, text@ + more@),
{
    proof {
        lemma_spells_join(output@, piece@, text@, more@);
    }
    output.append(piece);
}

/// The hexadecimal text of an identity.
pub fn hex<const KIND: u8>(id: &Id<KIND>) -> (text: String)
    ensures
        spells(text@, hex_text(id.bytes@)),
{
    let mut text: String = String::new();
    assert(spells(text@, Seq::<u8>::empty()));
    push_hex(&mut text, id.bytes.as_slice(), Ghost(Seq::empty()));
    assert(Seq::<u8>::empty() + hex_text(id.bytes@) =~= hex_text(id.bytes@));
    text
}

pub proof fn lemma_hex_digit(value: int)
    requires
        0 <= value < 16,
    ensures
        digit_value(hex_digit(value)) == Some(value as nat),
        hex_digit(value) != 45,
        hex_digit(value) != 43,
        hex_digit(value) != 46,
{
}

/// No digit is a dash, a plus sign or a dot.
pub open spec fn only_digits(text: Seq<u8>) -> bool {
    forall|i: int| 0 <= i < text.len() ==> digit_value(#[trigger] text[i]) is Some
}

pub proof fn lemma_only_digits(text: Seq<u8>, i: int)
    requires
        only_digits(text),
        0 <= i < text.len(),
    ensures
        text[i] != 45,
        text[i] != 43,
        text[i] != 46,
{
    assert(digit_value(text[i]) is Some);
}

pub proof fn lemma_hex_text_digits(bytes: Seq<u8>)
    ensures
        only_digits(hex_text(bytes)),
    decreases bytes.len(),
{
    if bytes.len() > 0 {
        lemma_hex_text_digits(bytes.drop_last());
        lemma_hex_digit(bytes.last() as int / 16);
        lemma_hex_digit(bytes.last() as int % 16);
        let prior = hex_text(bytes.drop_last());
        assert forall|i: int| 0 <= i < hex_text(bytes).len() implies digit_value(
            #[trigger] hex_text(bytes)[i],
        ) is Some by {
            if i < prior.len() {
                assert(digit_value(prior[i]) is Some);
            }
        }
    }
}

/// Reading the digits of a number gives the number back.
pub proof fn lemma_number_digits(value: nat, width: nat)
    requires
        value < radix_bound(width),
    ensures
        only_digits(number_text(value, width)),
        digits_value(number_text(value, width)) == Some(value),
    decreases width,
{
    if width > 0 {
        assert(value / 16 < radix_bound((width - 1) as nat));
        lemma_number_digits(value / 16, (width - 1) as nat);
        lemma_hex_digit(value as int % 16);
        let prior = number_text(value / 16, (width - 1) as nat);
        let text = number_text(value, width);
        assert(text.drop_last() =~= prior);
        assert forall|i: int| 0 <= i < text.len() implies digit_value(#[trigger] text[i]) is Some by {
            if i < prior.len() {
                assert(digit_value(prior[i]) is Some);
            }
        }
        assert(value == 16 * (value / 16) + value % 16);
    }
}

pub proof fn lemma_radix_bound_16()
    ensures
        radix_bound(16) == 0x1_0000_0000_0000_0000,
{
    reveal_with_fuel(radix_bound, 17);
}

} // verus!
