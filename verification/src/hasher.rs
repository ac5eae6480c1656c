//! Content digests: CRC-32 over a byte stream, taken chunk by chunk.

use vstd::prelude::*;
use vstd::slice::slice_subrange;
use vstd::string::StringExecFns;

verus! {

/// Register value before any byte was taken, and the mask that ends a digest.
pub const CRC_INIT: u32 = 0xFFFF_FFFF;

/// The reflected CRC-32 polynomial.
pub const CRC_POLY: u32 = 0xEDB8_8320;

/// Length in bytes of a digest.
pub const DIGEST_LEN: usize = 4;

/// One shift of the register: the low bit decides whether the polynomial
/// is folded in.
pub open spec fn crc_shift(reg: u32) -> u32 {
    if reg & 1 == 1 {
        (reg >> 1) ^ CRC_POLY
    } else {
        reg >> 1
    }
}

/// The register after one more byte: the byte is folded into the low
/// eight bits, then the register is shifted eight times.
pub open spec fn crc_byte(reg: u32, byte: u8) -> u32 {
    crc_shift(
        crc_shift(
            crc_shift(
                crc_shift(crc_shift(crc_shift(crc_shift(crc_shift(reg ^ (byte as u32)))))),
            ),
        ),
    )
}

/// The register after all of `data`, byte by byte from the left.
pub open spec fn crc_fold(reg: u32, data: Seq<u8>) -> u32
    decreases data.len(),
{
    if data.len() == 0 {
        reg
    } else {
        crc_byte(crc_fold(reg, data.drop_last()), data.last())
    }
}

/// The CRC-32 of `data`.
pub open spec fn crc32_of(data: Seq<u8>) -> u32 {
    crc_fold(CRC_INIT, data) ^ CRC_INIT
}

/// The four bytes of a digest, most significant first.
pub open spec fn digest_bytes(value: u32) -> Seq<u8> {
    seq![
        (value >> 24) as u8,
        ((value >> 16) & 0xFF) as u8,
        ((value >> 8) & 0xFF) as u8,
        (value & 0xFF) as u8,
    ]
}

/// Taking a stream in two pieces leaves the register where taking it whole
/// does.
pub proof fn lemma_fold_concat(reg: u32, first: Seq<u8>, second: Seq<u8>)
    ensures
        crc_fold(reg, first + second) == crc_fold(crc_fold(reg, first), second),
    decreases second.len(),
{
    if second.len() == 0 {
        assert(first + second =~= first);
    } else {
        lemma_fold_concat(reg, first, second.drop_last());
        assert((first + second).drop_last() =~= first + second.drop_last());
        assert((first + second).last() == second.last());
    }
}

/// The register after one byte alone.
pub proof fn lemma_fold_one(reg: u32, byte: u8)
    ensures
        crc_fold(reg, seq![byte]) == crc_byte(reg, byte),
{
    let one = seq![byte];
    assert(one.drop_last() =~= Seq::<u8>::empty());
    assert(crc_fold(reg, one.drop_last()) == reg);
    assert(one.last() == byte);
}

/// One shift loses nothing: two registers that shift to the same value
/// are the same.
pub proof fn lemma_shift_injective(a: u32, b: u32)
    requires
        crc_shift(a) == crc_shift(b),
    ensures
        a == b,
{
    assert((if a & 1 == 1 {
        (a >> 1) ^ 0xEDB8_8320u32
    } else {
        a >> 1
    }) == (if b & 1 == 1 {
        (b >> 1) ^ 0xEDB8_8320u32
    } else {
        b >> 1
    }) ==> a == b) by (bit_vector);
}

/// Taking a byte loses nothing of the register, and two different bytes
/// take one register to different values.
pub proof fn lemma_byte_injective(reg_a: u32, byte_a: u8, reg_b: u32, byte_b: u8)
    requires
        crc_byte(reg_a, byte_a) == crc_byte(reg_b, byte_b),
    ensures
        byte_a == byte_b ==> reg_a == reg_b,
        reg_a == reg_b ==> byte_a == byte_b,
{
    let a0 = reg_a ^ (byte_a as u32);
    let b0 = reg_b ^ (byte_b as u32);
    let a1 = crc_shift(a0);
    let b1 = crc_shift(b0);
    let a2 = crc_shift(a1);
    let b2 = crc_shift(b1);
    let a3 = crc_shift(a2);
    let b3 = crc_shift(b2);
    let a4 = crc_shift(a3);
    let b4 = crc_shift(b3);
    let a5 = crc_shift(a4);
    let b5 = crc_shift(b4);
    let a6 = crc_shift(a5);
    let b6 = crc_shift(b5);
    let a7 = crc_shift(a6);
    let b7 = crc_shift(b6);
    lemma_shift_injective(a7, b7);
    lemma_shift_injective(a6, b6);
    lemma_shift_injective(a5, b5);
    lemma_shift_injective(a4, b4);
    lemma_shift_injective(a3, b3);
    lemma_shift_injective(a2, b2);
    lemma_shift_injective(a1, b1);
    lemma_shift_injective(a0, b0);
    assert(a0 == b0);
    let x = byte_a as u32;
    let y = byte_b as u32;
    assert(reg_a ^ x == reg_b ^ y && x == y ==> reg_a == reg_b) by (bit_vector);
    assert(reg_a ^ x == reg_b ^ y && reg_a == reg_b ==> x == y) by (bit_vector);
}

/// Two different registers stay different over the same bytes.
pub proof fn lemma_fold_injective(reg_a: u32, reg_b: u32, data: Seq<u8>)
    requires
        reg_a != reg_b,
    ensures
        crc_fold(reg_a, data) != crc_fold(reg_b, data),
    decreases data.len(),
{
    if data.len() > 0 {
        lemma_fold_injective(reg_a, reg_b, data.drop_last());
        let a = crc_fold(reg_a, data.drop_last());
        let b = crc_fold(reg_b, data.drop_last());
        if crc_byte(a, data.last()) == crc_byte(b, data.last()) {
            lemma_byte_injective(a, data.last(), b, data.last());
        }
    }
}

/// Two streams of one length that differ in exactly one byte have
/// different digests.
pub proof fn lemma_one_byte_changes_digest(first: Seq<u8>, second: Seq<u8>, at: int)
    requires
        first.len() == second.len(),
        0 <= at < first.len(),
        first[at] != second[at],
        forall|i: int| 0 <= i < first.len() && i != at ==> first[i] == second[i],
    ensures
        crc32_of(first) != crc32_of(second),
{
    let head = first.take(at);
    let tail = first.skip(at + 1);
    assert(second.take(at) =~= head);
    assert(second.skip(at + 1) =~= tail);
    assert(first =~= head + seq![first[at]] + tail);
    assert(second =~= head + seq![second[at]] + tail);
    let reg = crc_fold(CRC_INIT, head);
    lemma_fold_concat(CRC_INIT, head, seq![first[at]]);
    lemma_fold_concat(CRC_INIT, head, seq![second[at]]);
    lemma_fold_one(reg, first[at]);
    lemma_fold_one(reg, second[at]);
    let reg_a = crc_byte(reg, first[at]);
    let reg_b = crc_byte(reg, second[at]);
    if reg_a == reg_b {
        lemma_byte_injective(reg, first[at], reg, second[at]);
    }
    lemma_fold_concat(CRC_INIT, head + seq![first[at]], tail);
    lemma_fold_concat(CRC_INIT, head + seq![second[at]], tail);
    lemma_fold_injective(reg_a, reg_b, tail);
    let end_a = crc_fold(reg_a, tail);
    let end_b = crc_fold(reg_b, tail);
    assert(end_a != end_b ==> (end_a ^ 0xFFFF_FFFFu32) != (end_b ^ 0xFFFF_FFFFu32))
        by (bit_vector);
}

/// The digest is a function of the bytes: equal streams have equal
/// digests, whatever they are called and wherever they are held.
pub proof fn lemma_same_bytes_same_digest(first: Seq<u8>, second: Seq<u8>)
    requires
        first == second,
    ensures
        crc32_of(first) == crc32_of(second),
        digest_bytes(crc32_of(first)) == digest_bytes(crc32_of(second)),
{
}

fn shift_once(reg: u32) -> (next: u32)
    ensures
        next == crc_shift(reg),
{
    if reg & 1 == 1 {
        (reg >> 1) ^ CRC_POLY
    } else {
        reg >> 1
    }
}

fn take_byte(reg: u32, byte: u8) -> (next: u32)
    ensures
        next == crc_byte(reg, byte),
{
    let mut cur: u32 = reg ^ (byte as u32);
    cur = shift_once(cur);
    cur = shift_once(cur);
    cur = shift_once(cur);
    cur = shift_once(cur);
    cur = shift_once(cur);
    cur = shift_once(cur);
    cur = shift_once(cur);
    shift_once(cur)
}

/// A digest in progress. Its register depends on the bytes taken so far
/// and on nothing else: not on how they were cut into chunks.
#[derive(Clone, Copy, Debug, PartialEq, Eq, Structural)]
pub struct ContentHasher {
    pub reg: u32,
}

impl ContentHasher {
    /// A hasher that has taken no byte.
    pub fn new() -> (hasher: ContentHasher)
        ensures
            hasher.reg == CRC_INIT,
            hasher.reg == crc_fold(CRC_INIT, Seq::empty()),
    {
        ContentHasher { reg: CRC_INIT }
    }

    /// Takes the next chunk of the stream.
    pub fn update(&mut self, chunk: &[u8])
        ensures
            final(self).reg == crc_fold(old(self).reg, chunk@),
    {
        let ghost start = self.reg;
        let mut i: usize = 0;
        while i < chunk.len()
            invariant
                i <= chunk.len(),
                self.reg == crc_fold(start, chunk@.take(i as int)),
            decreases chunk.len() - i,
        {
            proof {
                assert(chunk@.take(i + 1).drop_last() =~= chunk@.take(i as int));
            }
            self.reg = take_byte(self.reg, chunk[i]);
            i += 1;
        }
        proof {
            assert(chunk@.take(chunk.len() as int) =~= chunk@);
        }
    }

    /// The digest of everything taken so far.
    pub fn finish(&self) -> (digest: u32)
        ensures
            digest == self.reg ^ CRC_INIT,
    {
        self.reg ^ CRC_INIT
    }
}

/// The CRC-32 of `data`, taken in one piece.
pub fn crc32(data: &[u8]) -> (digest: u32)
    ensures
        digest == crc32_of(data@),
{
    let mut hasher = ContentHasher::new();
    hasher.update(data);
    hasher.finish()
}

/// The CRC-32 of `data`, streamed through a window of `window` bytes. The
/// digest is that of the whole, whatever the window.
pub fn crc32_streamed(data: &[u8], window: usize) -> (digest: u32)
    requires
        window > 0,
    ensures
        digest == crc32_of(data@),
{
    let mut hasher = ContentHasher::new();
    let mut done: usize = 0;
    while done < data.len()
        invariant
            done <= data.len(),
            window > 0,
            hasher.reg == crc_fold(CRC_INIT, data@.take(done as int)),
        decreases data.len() - done,
    {
        let rest: usize = data.len() - done;
        let step: usize = if rest < window { rest } else { window };
        let chunk = slice_subrange(data, done, done + step);
        proof {
            lemma_fold_concat(CRC_INIT, data@.take(done as int), chunk@);
            assert(data@.take(done as int) + chunk@ =~= data@.take(done + step));
        }
        hasher.update(chunk);
        done += step;
    }
    proof {
        assert(data@.take(data.len() as int) =~= data@);
    }
    hasher.finish()
}

/// The algorithm that produced a digest.
#[derive(Clone, Copy, Debug, PartialEq, Eq, Structural)]
pub enum HashAlgorithm {
    Crc32,
}

/// The digest of one file's or one entry's content.
#[derive(Clone, Debug)]
pub struct HashResult {
    pub path: String,
    pub algorithm: HashAlgorithm,
    pub digest: Vec<u8>,
}

/// Writes a digest out as its four bytes, most significant first.
pub fn digest_to_bytes(value: u32) -> (bytes: Vec<u8>)
    ensures
        bytes@ == digest_bytes(value),
{
    let b0: u8 = (value >> 24) as u8;
    let b1: u8 = ((value >> 16) & 0xFF) as u8;
    let b2: u8 = ((value >> 8) & 0xFF) as u8;
    let b3: u8 = (value & 0xFF) as u8;
    let mut bytes: Vec<u8> = Vec::new();
    bytes.push(b0);
    bytes.push(b1);
    bytes.push(b2);
    bytes.push(b3);
    assert(bytes@ =~= digest_bytes(value));
    bytes
}

/// Hashes the content found under `path`. The digest depends on the bytes
/// alone; the path is only carried along.
pub fn hash_content(path: &str, data: &[u8]) -> (result: HashResult)
    ensures
        result.path@ == path@,
        result.algorithm == HashAlgorithm::Crc32,
        result.digest@ == digest_bytes(crc32_of(data@)),
{
    HashResult {
        path: String::from_str(path),
        algorithm: HashAlgorithm::Crc32,
        digest: digest_to_bytes(crc32(data)),
    }
}

} // verus!
