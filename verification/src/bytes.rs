//! Byte sequences: comparison, lexicographic order and little-endian integers.

use vstd::prelude::*;

verus! {

/// `i` is the first place where `a` and `b` part, and `a` is the smaller there:
/// either `a` ends or its byte is less.
pub open spec fn parts_below(a: Seq<u8>, b: Seq<u8>, i: int) -> bool {
    &&& 0 <= i < b.len()
    &&& i <= a.len()
    &&& forall|j: int| 0 <= j < i ==> a[j] == b[j]
    &&& i == a.len() || a[i] < b[i]
}

/// Lexicographic order of byte sequences.
pub open spec fn bytes_less(a: Seq<u8>, b: Seq<u8>) -> bool {
    exists|i: int| parts_below(a, b, i)
}

pub proof fn lemma_bytes_less_irreflexive(a: Seq<u8>)
    ensures
        !bytes_less(a, a),
{
}

pub proof fn lemma_bytes_less_transitive(a: Seq<u8>, b: Seq<u8>, c: Seq<u8>)
    requires
        bytes_less(a, b),
        bytes_less(b, c),
    ensures
        bytes_less(a, c),
{
    let i = choose|i: int| parts_below(a, b, i);
    let j = choose|j: int| parts_below(b, c, j);
    if i <= j {
        assert(parts_below(a, c, i));
    } else {
        assert(parts_below(a, c, j));
    }
}

proof fn lemma_bytes_less_from(a: Seq<u8>, b: Seq<u8>, i: int)
    requires
        0 <= i <= a.len(),
        i <= b.len(),
        forall|j: int| 0 <= j < i ==> a[j] == b[j],
    ensures
        a == b || bytes_less(a, b) || bytes_less(b, a),
    decreases a.len() - i,
{
    if i == a.len() && i == b.len() {
        assert(a == b);
    } else if i == a.len() {
        assert(parts_below(a, b, i));
    } else if i == b.len() {
        assert(parts_below(b, a, i));
    } else if a[i] < b[i] {
        assert(parts_below(a, b, i));
    } else if b[i] < a[i] {
        assert(parts_below(b, a, i));
    } else {
        lemma_bytes_less_from(a, b, i + 1);
    }
}

pub proof fn lemma_bytes_less_total(a: Seq<u8>, b: Seq<u8>)
    ensures
        a == b || bytes_less(a, b) || bytes_less(b, a),
{
    lemma_bytes_less_from(a, b, 0);
}

/// Whether two byte strings are equal.
pub fn same_bytes(a: &[u8], b: &[u8]) -> (same: bool)
    ensures
        same == (a@ == b@),
{
    if a.len() != b.len() {
        return false;
    }
    let mut i: usize = 0;
    while i < a.len()
        invariant
            i <= a.len(),
            a.len() == b.len(),
            forall|j: int| 0 <= j < i ==> a@[j] == b@[j],
        decreases a.len() - i,
    {
        if a[i] != b[i] {
            return false;
        }
        i += 1;
    }
    assert(a@ =~= b@);
    true
}

/// Whether `a` comes before `b` in lexicographic order.
pub fn less_bytes(a: &[u8], b: &[u8]) -> (less: bool)
    ensures
        less == bytes_less(a@, b@),
{
    let mut i: usize = 0;
    while i < a.len() && i < b.len()
        invariant
            i <= a.len(),
            i <= b.len(),
            forall|j: int| 0 <= j < i ==> a@[j] == b@[j],
        decreases a.len() - i,
    {
        if a[i] < b[i] {
            assert(parts_below(a@, b@, i as int));
            return true;
        }
        if b[i] < a[i] {
            proof {
                if bytes_less(a@, b@) {
                    let k = choose|k: int| parts_below(a@, b@, k);
                    assert(k == i || k < i || k > i);
                }
            }
            return false;
        }
        i += 1;
    }
    if i < b.len() {
        assert(parts_below(a@, b@, i as int));
        true
    } else {
        proof {
            if bytes_less(a@, b@) {
                let k = choose|k: int| parts_below(a@, b@, k);
                assert(k < i);
            }
        }
        false
    }
}

/// An owned copy of a byte string.
pub fn copied(bytes: &[u8]) -> (copy: Vec<u8>)
    ensures
        copy@ == bytes@,
{
    let mut copy: Vec<u8> = Vec::new();
    copy.extend_from_slice(bytes);
    assert(copy@ =~= bytes@);
    copy
}

/// Appends a byte string.
pub fn append(output: &mut Vec<u8>, bytes: &[u8])
    ensures
        final(output)@ == old(output)@ + bytes@,
{
    output.extend_from_slice(bytes);
    assert(output@ =~= old(output)@ + bytes@);
}

/// The first 32 bytes of a string as an array.
pub fn array32(bytes: &[u8]) -> (array: [u8; 32])
    requires
        bytes@.len() == 32,
    ensures
        array@ == bytes@,
{
    let mut array: [u8; 32] = [0u8; 32];
    let mut i: usize = 0;
    while i < 32
        invariant
            i <= 32,
            bytes@.len() == 32,
            forall|j: int| 0 <= j < i ==> array@[j] == bytes@[j],
        decreases 32 - i,
    {
        array[i] = bytes[i];
        i += 1;
    }
    assert(array@ =~= bytes@);
    array
}

/// Whether every byte is zero.
pub fn all_zero(bytes: &[u8]) -> (zero: bool)
    ensures
        zero == (forall|i: int| 0 <= i < bytes@.len() ==> bytes@[i] == 0),
{
    let mut i: usize = 0;
    while i < bytes.len()
        invariant
            i <= bytes.len(),
            forall|j: int| 0 <= j < i ==> bytes@[j] == 0,
        decreases bytes.len() - i,
    {
        if bytes[i] != 0 {
            return false;
        }
        i += 1;
    }
    true
}

/// Zero bytes.
pub open spec fn zeros(count: nat) -> Seq<u8> {
    Seq::new(count, |i: int| 0u8)
}

/// Appends `count` zero bytes.
pub fn append_zeros(output: &mut Vec<u8>, count: usize)
    ensures
        final(output)@ == old(output)@ + zeros(count as nat),
{
    let mut i: usize = 0;
    while i < count
        invariant
            i <= count,
            output@ == old(output)@ + zeros(i as nat),
        decreases count - i,
    {
        output.push(0);
        i += 1;
        assert(output@ =~= old(output)@ + zeros(i as nat));
    }
}

/// The `width` little-endian bytes of `value`.
pub open spec fn le(value: nat, width: nat) -> Seq<u8>
    decreases width,
{
    if width == 0 {
        Seq::empty()
    } else {
        seq![(value % 256) as u8] + le(value / 256, (width - 1) as nat)
    }
}

/// The number that little-endian bytes stand for.
pub open spec fn le_value(bytes: Seq<u8>) -> nat
    decreases bytes.len(),
{
    if bytes.len() == 0 {
        0
    } else {
        bytes[0] as nat + 256 * le_value(bytes.skip(1))
    }
}

/// The number of values that `width` bytes can hold.
pub open spec fn le_bound(width: nat) -> nat
    decreases width,
{
    if width == 0 {
        1
    } else {
        256 * le_bound((width - 1) as nat)
    }
}

pub proof fn lemma_le_len(value: nat, width: nat)
    ensures
        le(value, width).len() == width,
    decreases width,
{
    if width > 0 {
        lemma_le_len(value / 256, (width - 1) as nat);
    }
}

pub proof fn lemma_le_bounds()
    ensures
        le_bound(4) == 0x1_0000_0000,
        le_bound(8) == 0x1_0000_0000_0000_0000,
        le_bound(2) == 0x1_0000,
{
    reveal_with_fuel(le_bound, 9);
}

/// Decoding what was encoded gives the value back.
pub proof fn law_le_round_trip(value: nat, width: nat)
    requires
        value < le_bound(width),
    ensures
        le_value(le(value, width)) == value,
    decreases width,
{
    if width > 0 {
        let rest = le(value / 256, (width - 1) as nat);
        assert(value / 256 < le_bound((width - 1) as nat));
        law_le_round_trip(value / 256, (width - 1) as nat);
        lemma_le_len(value, width);
        assert(le(value, width).skip(1) =~= rest);
        assert(value == value % 256 + 256 * (value / 256));
    }
}

/// Encoding what was decoded gives the bytes back, so no two byte strings of
/// one width stand for one number.
pub proof fn law_le_canonical(bytes: Seq<u8>)
    ensures
        le(le_value(bytes), bytes.len()) == bytes,
        le_value(bytes) < le_bound(bytes.len()),
    decreases bytes.len(),
{
    if bytes.len() > 0 {
        let rest = bytes.skip(1);
        law_le_canonical(rest);
        let value = le_value(bytes);
        assert(value % 256 == bytes[0] as nat);
        assert(value / 256 == le_value(rest));
        assert(le(value, bytes.len()) =~= seq![bytes[0]] + rest);
        assert(seq![bytes[0]] + rest =~= bytes);
    } else {
        assert(le(le_value(bytes), 0) =~= bytes);
    }
}

/// Appends the `width` low little-endian bytes of `value`.
pub fn push_le(output: &mut Vec<u8>, value: u64, width: usize)
    ensures
        final(output)@ == old(output)@ + le(value as nat, width as nat),
{
    let mut rest: u64 = value;
    let mut i: usize = 0;
    assert(old(output)@ + le(value as nat, width as nat) =~= output@ + le(rest as nat, width as nat));
    while i < width
        invariant
            i <= width,
            old(output)@ + le(value as nat, width as nat) == output@ + le(
                rest as nat,
                (width - i) as nat,
            ),
        decreases width - i,
    {
        let byte: u8 = (rest % 256) as u8;
        let ghost before = output@;
        let ghost tail = le(rest as nat / 256, (width - i - 1) as nat);
        output.push(byte);
        assert(le(rest as nat, (width - i) as nat) == seq![byte] + tail);
        assert(before + (seq![byte] + tail) =~= output@ + tail);
        rest = rest / 256;
        i += 1;
    }
    assert(output@ + le(rest as nat, 0) =~= output@);
}

/// Reads a little-endian number of at most eight bytes.
pub fn read_le(bytes: &[u8]) -> (value: u64)
    requires
        bytes@.len() <= 8,
    ensures
        value == le_value(bytes@),
{
    let mut value: u64 = 0;
    let mut i: usize = bytes.len();
    assert(bytes@.skip(i as int).len() == 0);
    while i > 0
        invariant
            i <= bytes@.len(),
            bytes@.len() <= 8,
            value == le_value(bytes@.skip(i as int)),
        decreases i,
    {
        i -= 1;
        let byte: u8 = bytes[i];
        proof {
            let now = bytes@.skip(i as int);
            assert(now.skip(1) =~= bytes@.skip(i as int + 1));
            assert(now[0] == byte);
            law_le_canonical(now);
            lemma_le_bound_monotonic(now.len(), 8);
            lemma_le_bounds();
        }
        value = value * 256 + byte as u64;
    }
    assert(bytes@.skip(0) =~= bytes@);
    value
}

pub proof fn lemma_le_bound_monotonic(low: nat, high: nat)
    requires
        low <= high,
    ensures
        le_bound(low) <= le_bound(high),
    decreases high,
{
    if low < high {
        lemma_le_bound_monotonic(low, (high - 1) as nat);
    }
}

} // verus!
