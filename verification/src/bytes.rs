//! Runs of bytes: appending them, and reading them as text.

use vstd::prelude::*;
use vstd::slice::slice_subrange;
use vstd::utf8::decode_utf8;
use vstd::utf8::valid_utf8;

verus! {

/// A run of `n` zero bytes.
pub open spec fn zeros(n: nat) -> Seq<u8> {
    Seq::new(n, |i: int| 0u8)
}

/// `String::from_utf8` of std: the text that the bytes encode. std
/// documents that it gives the string exactly where the bytes are valid
/// UTF-8, without changing them, and an error where they are not.
#[verifier::external_body]
pub(crate) fn text_from_utf8(bytes: Vec<u8>) -> (text: Option<String>)
    ensures
        match text {
            Some(s) => valid_utf8(bytes@) && s@ == decode_utf8(bytes@),
            None => !valid_utf8(bytes@),
        },
{
    String::from_utf8(bytes).ok()
}

/// Appends the bytes.
pub fn append_bytes(out: &mut Vec<u8>, bytes: &[u8])
    ensures
        final(out)@ == old(out)@ + bytes@,
{
    let mut i: usize = 0;
    while i < bytes.len()
        invariant
            i <= bytes.len(),
            out@ == old(out)@ + bytes@.take(i as int),
        decreases bytes.len() - i,
    {
        out.push(bytes[i]);
        proof {
            assert(out@ =~= old(out)@ + bytes@.take(i + 1));
        }
        i += 1;
    }
    proof {
        assert(bytes@.take(bytes.len() as int) =~= bytes@);
    }
}

/// Appends `count` zero bytes.
pub fn append_zeros(out: &mut Vec<u8>, count: usize)
    ensures
        final(out)@ == old(out)@ + zeros(count as nat),
{
    let mut i: usize = 0;
    while i < count
        invariant
            i <= count,
            out@ == old(out)@ + zeros(i as nat),
        decreases count - i,
    {
        out.push(0);
        proof {
            assert(out@ =~= old(out)@ + zeros((i + 1) as nat));
        }
        i += 1;
    }
}

/// A copy of the bytes.
pub fn copy_bytes(bytes: &Vec<u8>) -> (copy: Vec<u8>)
    ensures
        copy@ == bytes@,
{
    let mut copy: Vec<u8> = Vec::new();
    let mut i: usize = 0;
    while i < bytes.len()
        invariant
            i <= bytes.len(),
            copy@ == bytes@.take(i as int),
        decreases bytes.len() - i,
    {
        copy.push(bytes[i]);
        proof {
            assert(copy@ =~= bytes@.take(i + 1));
        }
        i += 1;
    }
    proof {
        assert(bytes@.take(bytes.len() as int) =~= bytes@);
    }
    copy
}

/// How many bytes stand before the first zero byte.
pub open spec fn text_len(field: Seq<u8>) -> nat
    decreases field.len(),
{
    if field.len() > 0 && field[0] != 0 {
        1 + text_len(field.skip(1))
    } else {
        0
    }
}

/// The text of a field: its bytes up to the first zero byte.
pub open spec fn text_in(field: Seq<u8>) -> Seq<u8> {
    field.take(text_len(field) as int)
}

/// The count of bytes before the first zero is the first position that
/// holds one.
pub proof fn lemma_text_len(field: Seq<u8>, count: nat)
    requires
        count <= field.len(),
        forall|i: int| 0 <= i < count ==> field[i] != 0,
        count < field.len() ==> field[count as int] == 0,
    ensures
        text_len(field) == count,
    decreases count,
{
    if count > 0 {
        let rest = field.skip(1);
        assert forall|i: int| 0 <= i < count - 1 implies rest[i] != 0 by {
            assert(rest[i] == field[i + 1]);
        }
        lemma_text_len(rest, (count - 1) as nat);
    }
}

/// The text of a field ends within the field.
pub proof fn lemma_text_len_bound(field: Seq<u8>)
    ensures
        text_len(field) <= field.len(),
        text_len(field) < field.len() ==> field[text_len(field) as int] == 0,
    decreases field.len(),
{
    if field.len() > 0 && field[0] != 0 {
        let rest = field.skip(1);
        lemma_text_len_bound(rest);
        if text_len(rest) < rest.len() {
            assert(rest[text_len(rest) as int] == field[text_len(rest) as int + 1]);
        }
    }
}

/// The bytes of a field up to its first zero byte.
pub fn field_text(field: &[u8]) -> (text: Vec<u8>)
    ensures
        text@ == text_in(field@),
{
    let mut end: usize = 0;
    while end < field.len() && field[end] != 0
        invariant
            end <= field.len(),
            forall|i: int| 0 <= i < end ==> field@[i] != 0,
        decreases field.len() - end,
    {
        end += 1;
    }
    proof {
        lemma_text_len(field@, end as nat);
    }
    let mut text: Vec<u8> = Vec::new();
    append_bytes(&mut text, slice_subrange(field, 0, end));
    proof {
        assert(text@ =~= field@.take(end as int));
    }
    text
}

} // verus!
