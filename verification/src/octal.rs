//! Numbers as a tar header writes them: octal digits of a fixed width.

use vstd::prelude::*;

verus! {

/// Whether the byte is one of the digits `0` to `7`.
pub open spec fn is_octal(byte: u8) -> bool {
    0x30 <= byte <= 0x37
}

/// The number that a run of octal digits writes, most significant first;
/// none where a byte is no octal digit. No digit at all writes 0.
pub open spec fn octal_value(digits: Seq<u8>) -> Option<nat>
    decreases digits.len(),
{
    if digits.len() == 0 {
        Some(0)
    } else {
        match octal_value(digits.drop_last()) {
            Some(value) => if is_octal(digits.last()) {
                Some(value * 8 + (digits.last() - 0x30) as nat)
            } else {
                None
            },
            None => None,
        }
    }
}

/// The lowest `width` octal digits of a number, most significant first.
pub open spec fn octal_text(value: nat, width: nat) -> Seq<u8>
    decreases width,
{
    if width == 0 {
        Seq::empty()
    } else {
        octal_text(value / 8, (width - 1) as nat).push((0x30 + value % 8) as u8)
    }
}

/// Eight to the power of `n`.
pub open spec fn pow8(n: nat) -> nat
    decreases n,
{
    if n == 0 {
        1
    } else {
        8 * pow8((n - 1) as nat)
    }
}

/// The sum of the bytes.
pub open spec fn byte_sum(bytes: Seq<u8>) -> nat
    decreases bytes.len(),
{
    if bytes.len() == 0 {
        0
    } else {
        byte_sum(bytes.drop_last()) + bytes.last() as nat
    }
}

/// The powers of eight that the header fields reach.
pub proof fn lemma_pow8_values()
    ensures
        pow8(0) == 1,
        pow8(6) == 262144,
        pow8(11) == 8589934592,
        pow8(12) == 68719476736,
{
    reveal_with_fuel(pow8, 13);
}

/// The powers of eight grow.
pub proof fn lemma_pow8_grows(low: nat, high: nat)
    requires
        low <= high,
    ensures
        pow8(low) <= pow8(high),
        pow8(low) >= 1,
    decreases high,
{
    if low < high {
        lemma_pow8_grows(low, (high - 1) as nat);
    } else if low > 0 {
        lemma_pow8_grows((low - 1) as nat, (low - 1) as nat);
    }
}

/// A number written in `width` digits has `width` digits, all octal.
pub proof fn lemma_octal_text_len(value: nat, width: nat)
    ensures
        octal_text(value, width).len() == width,
        forall|i: int| 0 <= i < width ==> is_octal(#[trigger] octal_text(value, width)[i]),
    decreases width,
{
    if width > 0 {
        lemma_octal_text_len(value / 8, (width - 1) as nat);
    }
}

/// A number that fits its width is read back as it was written.
pub proof fn lemma_octal_round_trip(value: nat, width: nat)
    requires
        value < pow8(width),
    ensures
        octal_value(octal_text(value, width)) == Some(value),
    decreases width,
{
    if width > 0 {
        let text = octal_text(value, width);
        let front = octal_text(value / 8, (width - 1) as nat);
        assert(value / 8 < pow8((width - 1) as nat));
        lemma_octal_round_trip(value / 8, (width - 1) as nat);
        assert(text.drop_last() =~= front);
        assert(text.last() == (0x30 + value % 8) as u8);
        assert(value == (value / 8) * 8 + value % 8);
    } else {
        assert(value == 0);
    }
}

/// What a run of digits writes is below eight to the power of its length.
pub proof fn lemma_octal_value_bound(digits: Seq<u8>)
    requires
        octal_value(digits).is_some(),
    ensures
        octal_value(digits).unwrap() < pow8(digits.len()),
    decreases digits.len(),
{
    if digits.len() > 0 {
        lemma_octal_value_bound(digits.drop_last());
    }
}

/// A run of digits whose front writes no number writes none.
pub proof fn lemma_octal_none_stays(digits: Seq<u8>, upto: int)
    requires
        0 <= upto <= digits.len(),
        octal_value(digits.take(upto)).is_none(),
    ensures
        octal_value(digits).is_none(),
    decreases digits.len() - upto,
{
    if upto == digits.len() {
        assert(digits.take(upto) =~= digits);
    } else {
        assert(digits.drop_last().take(upto) =~= digits.take(upto));
        lemma_octal_none_stays(digits.drop_last(), upto);
    }
}

/// The sum of bytes is at most 255 for each.
pub proof fn lemma_byte_sum_bound(bytes: Seq<u8>)
    ensures
        byte_sum(bytes) <= 255 * bytes.len(),
    decreases bytes.len(),
{
    if bytes.len() > 0 {
        lemma_byte_sum_bound(bytes.drop_last());
    }
}

/// Reads a run of octal digits.
pub fn parse_octal(field: &[u8]) -> (value: Option<u64>)
    requires
        field@.len() <= 12,
    ensures
        match value {
            Some(v) => octal_value(field@) == Some(v as nat),
            None => octal_value(field@).is_none(),
        },
{
    let mut acc: u64 = 0;
    let mut i: usize = 0;
    while i < field.len()
        invariant
            i <= field.len() <= 12,
            octal_value(field@.take(i as int)) == Some(acc as nat),
            acc < pow8(i as nat),
        decreases field.len() - i,
    {
        let byte = field[i];
        proof {
            assert(field@.take(i + 1).drop_last() =~= field@.take(i as int));
            assert(field@.take(i + 1).last() == byte);
            lemma_pow8_grows(i as nat, 11);
            lemma_pow8_values();
        }
        if byte < 0x30 || byte > 0x37 {
            proof {
                lemma_octal_none_stays(field@, i + 1);
            }
            return None;
        }
        acc = acc * 8 + (byte - 0x30) as u64;
        i += 1;
    }
    proof {
        assert(field@.take(field.len() as int) =~= field@);
    }
    Some(acc)
}

/// Writes the lowest `width` octal digits of a number.
pub fn push_octal(out: &mut Vec<u8>, value: u64, width: usize)
    ensures
        final(out)@ == old(out)@ + octal_text(value as nat, width as nat),
    decreases width,
{
    if width > 0 {
        push_octal(out, value / 8, width - 1);
        out.push(0x30 + (value % 8) as u8);
        proof {
            assert(final(out)@ =~= old(out)@ + octal_text(value as nat, width as nat));
        }
    } else {
        proof {
            assert(out@ =~= old(out)@ + octal_text(value as nat, 0));
        }
    }
}

/// The sum of the bytes from `from` up to `to`.
pub fn sum_bytes(bytes: &[u8], from: usize, to: usize) -> (sum: u64)
    requires
        from <= to <= bytes@.len(),
        to - from <= 512,
    ensures
        sum == byte_sum(bytes@.subrange(from as int, to as int)),
        sum <= 255 * (to - from),
{
    let mut sum: u64 = 0;
    let mut i: usize = from;
    while i < to
        invariant
            from <= i <= to <= bytes@.len(),
            to - from <= 512,
            sum == byte_sum(bytes@.subrange(from as int, i as int)),
            sum <= 255 * (i - from),
        decreases to - i,
    {
        proof {
            assert(bytes@.subrange(from as int, i + 1).drop_last() =~= bytes@.subrange(
                from as int,
                i as int,
            ));
        }
        sum = sum + bytes[i] as u64;
        i += 1;
    }
    sum
}

} // verus!
