//! Signatures as data: patterns of fixed bytes and wildcard positions,
//! each mapped to a format, and the rule by which the best one is picked.

use vstd::prelude::*;
use crate::format::detected_kind;
use crate::format::gzip_signature;
use crate::format::lemma_signature_is_detected;
use crate::format::rar4_signature;
use crate::format::rar5_signature;
use crate::format::seven_z_signature;
use crate::format::starts_with;
use crate::format::zip_signature;
use crate::format::FormatKind;

verus! {

/// A byte pattern and the format it identifies. `None` in the pattern is
/// a position where any byte will do.
#[derive(Debug)]
pub struct FormatSignature {
    pub pattern: Vec<Option<u8>>,
    pub kind: FormatKind,
}

/// A signature as contracts speak of it.
pub struct SignatureView {
    pub pattern: Seq<Option<u8>>,
    pub kind: FormatKind,
}

impl View for FormatSignature {
    type V = SignatureView;

    open spec fn view(&self) -> SignatureView {
        SignatureView { pattern: self.pattern@, kind: self.kind }
    }
}

/// The views of a table of signatures, in order.
pub open spec fn table_views(table: Seq<FormatSignature>) -> Seq<SignatureView> {
    table.map_values(|s: FormatSignature| s@)
}

/// The stream is at least as long as the pattern and has the pattern's
/// byte at each fixed position.
pub open spec fn fits(pattern: Seq<Option<u8>>, header: Seq<u8>) -> bool {
    &&& pattern.len() <= header.len()
    &&& forall|i: int|
        0 <= i < pattern.len() ==> (#[trigger] pattern[i]).is_some() ==> header[i]
            == pattern[i].unwrap()
}

/// Whether the signature at `index` is the best match: it matches, no
/// matching signature is longer, and none of the same length stands
/// before it.
pub open spec fn is_best(table: Seq<SignatureView>, header: Seq<u8>, index: int) -> bool {
    &&& 0 <= index < table.len()
    &&& fits(table[index].pattern, header)
    &&& forall|j: int|
        0 <= j < table.len() && fits((#[trigger] table[j]).pattern, header)
            ==> table[j].pattern.len() <= table[index].pattern.len()
    &&& forall|j: int|
        0 <= j < index && fits((#[trigger] table[j]).pattern, header) ==> table[j].pattern.len()
            < table[index].pattern.len()
}

/// No signature of the table matches.
pub open spec fn none_fits(table: Seq<SignatureView>, header: Seq<u8>) -> bool {
    forall|j: int| 0 <= j < table.len() ==> !fits((#[trigger] table[j]).pattern, header)
}

/// A pattern without wildcards.
pub open spec fn fixed(bytes: Seq<u8>) -> Seq<Option<u8>> {
    bytes.map_values(|b: u8| Some(b))
}

/// The signatures of the supported formats.
pub open spec fn known_table() -> Seq<SignatureView> {
    seq![
        SignatureView { pattern: fixed(zip_signature()), kind: FormatKind::Zip },
        SignatureView { pattern: fixed(seven_z_signature()), kind: FormatKind::SevenZ },
        SignatureView { pattern: fixed(rar5_signature()), kind: FormatKind::Rar5 },
        SignatureView { pattern: fixed(rar4_signature()), kind: FormatKind::Rar4 },
        SignatureView { pattern: fixed(gzip_signature()), kind: FormatKind::Gzip },
    ]
}

/// A pattern without wildcards matches exactly the streams that begin
/// with its bytes.
pub proof fn lemma_fixed_matches(bytes: Seq<u8>, header: Seq<u8>)
    ensures
        fits(fixed(bytes), header) == starts_with(header, bytes),
{
    let pattern = fixed(bytes);
    if starts_with(header, bytes) {
        assert forall|i: int| 0 <= i < pattern.len() implies (#[trigger] pattern[i]).is_some()
            ==> header[i] == pattern[i].unwrap() by {
            assert(pattern[i] == Some(bytes[i]));
        }
    }
    if fits(pattern, header) {
        assert forall|i: int| 0 <= i < bytes.len() implies header[i] == bytes[i] by {
            assert(pattern[i] == Some(bytes[i]));
        }
    }
}

/// Whether the stream matches the pattern.
pub fn pattern_matches(pattern: &Vec<Option<u8>>, header: &[u8]) -> (yes: bool)
    ensures
        yes == fits(pattern@, header@),
{
    if pattern.len() > header.len() {
        return false;
    }
    let mut i: usize = 0;
    while i < pattern.len()
        invariant
            i <= pattern.len() <= header.len(),
            forall|j: int|
                0 <= j < i ==> (#[trigger] pattern@[j]).is_some() ==> header@[j]
                    == pattern@[j].unwrap(),
        decreases pattern.len() - i,
    {
        match pattern[i] {
            Some(byte) => {
                if header[i] != byte {
                    return false;
                }
            },
            None => {},
        }
        i += 1;
    }
    true
}

/// Picks the best match of the table: the longest signature that
/// matches, the first of them where several are as long; none where no
/// signature matches.
pub fn match_signatures(table: &Vec<FormatSignature>, header: &[u8]) -> (found: Option<usize>)
    ensures
        match found {
            Some(index) => is_best(table_views(table@), header@, index as int),
            None => none_fits(table_views(table@), header@),
        },
{
    let ghost views = table_views(table@);
    let mut best: Option<usize> = None;
    let mut i: usize = 0;
    while i < table.len()
        invariant
            i <= table.len(),
            views == table_views(table@),
            views.len() == table.len(),
            match best {
                Some(index) => {
                    &&& index < i
                    &&& fits(views[index as int].pattern, header@)
                    &&& forall|j: int|
                        0 <= j < i && fits((#[trigger] views[j]).pattern, header@)
                            ==> views[j].pattern.len() <= views[index as int].pattern.len()
                    &&& forall|j: int|
                        0 <= j < index && fits((#[trigger] views[j]).pattern, header@)
                            ==> views[j].pattern.len() < views[index as int].pattern.len()
                },
                None => forall|j: int|
                    0 <= j < i ==> !fits((#[trigger] views[j]).pattern, header@),
            },
        decreases table.len() - i,
    {
        proof {
            assert(views[i as int] == table@[i as int]@);
        }
        if pattern_matches(&table[i].pattern, header) {
            match best {
                Some(index) => {
                    proof {
                        assert(views[index as int] == table@[index as int]@);
                    }
                    if table[i].pattern.len() > table[index].pattern.len() {
                        best = Some(i);
                    }
                },
                None => {
                    best = Some(i);
                },
            }
        }
        i += 1;
    }
    best
}

/// On the signatures of the supported formats, the best match is the
/// format that detection reports.
pub proof fn lemma_known_table_agrees(header: Seq<u8>, index: int)
    requires
        is_best(known_table(), header, index),
    ensures
        known_table()[index].kind == detected_kind(header),
{
    let table = known_table();
    lemma_fixed_matches(zip_signature(), header);
    lemma_fixed_matches(seven_z_signature(), header);
    lemma_fixed_matches(rar5_signature(), header);
    lemma_fixed_matches(rar4_signature(), header);
    lemma_fixed_matches(gzip_signature(), header);
    assert(table[0].pattern == fixed(zip_signature()));
    assert(table[1].pattern == fixed(seven_z_signature()));
    assert(table[2].pattern == fixed(rar5_signature()));
    assert(table[3].pattern == fixed(rar4_signature()));
    assert(table[4].pattern == fixed(gzip_signature()));
    lemma_signature_is_detected(header, table[index].kind);
}

/// Where no signature of the supported formats matches, detection
/// reports `Unknown`.
pub proof fn lemma_known_table_unknown(header: Seq<u8>)
    requires
        none_fits(known_table(), header),
    ensures
        detected_kind(header) == FormatKind::Unknown,
{
    let table = known_table();
    lemma_fixed_matches(zip_signature(), header);
    lemma_fixed_matches(seven_z_signature(), header);
    lemma_fixed_matches(rar5_signature(), header);
    lemma_fixed_matches(rar4_signature(), header);
    lemma_fixed_matches(gzip_signature(), header);
    assert(!fits(table[0].pattern, header));
    assert(!fits(table[1].pattern, header));
    assert(!fits(table[2].pattern, header));
    assert(!fits(table[3].pattern, header));
    assert(!fits(table[4].pattern, header));
}

/// A pattern of the given bytes, all fixed.
pub fn fixed_pattern(bytes: &[u8]) -> (pattern: Vec<Option<u8>>)
    ensures
        pattern@ == fixed(bytes@),
{
    let mut pattern: Vec<Option<u8>> = Vec::new();
    let mut i: usize = 0;
    while i < bytes.len()
        invariant
            i <= bytes.len(),
            pattern@.len() == i,
            forall|j: int| 0 <= j < i ==> pattern@[j] == Some(bytes@[j]),
        decreases bytes.len() - i,
    {
        pattern.push(Some(bytes[i]));
        i += 1;
    }
    proof {
        assert(pattern@ =~= fixed(bytes@));
    }
    pattern
}

/// The signatures of the supported formats.
pub fn known_signatures() -> (table: Vec<FormatSignature>)
    ensures
        table_views(table@) == known_table(),
{
    let zip: [u8; 4] = [0x50, 0x4B, 0x03, 0x04];
    let seven_z: [u8; 6] = [0x37, 0x7A, 0xBC, 0xAF, 0x27, 0x1C];
    let rar5: [u8; 8] = [0x52, 0x61, 0x72, 0x21, 0x1A, 0x07, 0x01, 0x00];
    let rar4: [u8; 7] = [0x52, 0x61, 0x72, 0x21, 0x1A, 0x07, 0x00];
    let gzip: [u8; 3] = [0x1F, 0x8B, 0x08];
    proof {
        assert(zip@ =~= zip_signature());
        assert(seven_z@ =~= seven_z_signature());
        assert(rar5@ =~= rar5_signature());
        assert(rar4@ =~= rar4_signature());
        assert(gzip@ =~= gzip_signature());
    }
    let mut table: Vec<FormatSignature> = Vec::new();
    table.push(FormatSignature { pattern: fixed_pattern(zip.as_slice()), kind: FormatKind::Zip });
    table.push(
        FormatSignature { pattern: fixed_pattern(seven_z.as_slice()), kind: FormatKind::SevenZ },
    );
    table.push(FormatSignature { pattern: fixed_pattern(rar5.as_slice()), kind: FormatKind::Rar5 });
    table.push(FormatSignature { pattern: fixed_pattern(rar4.as_slice()), kind: FormatKind::Rar4 });
    table.push(FormatSignature { pattern: fixed_pattern(gzip.as_slice()), kind: FormatKind::Gzip });
    proof {
        assert(table_views(table@) =~= known_table());
    }
    table
}

/// The format that the table gives for the stream: that of its best
/// match, `Unknown` where nothing matches.
pub open spec fn table_gives(table: Seq<SignatureView>, header: Seq<u8>, kind: FormatKind) -> bool {
    ||| none_fits(table, header) && kind == FormatKind::Unknown
    ||| exists|i: int| is_best(table, header, i) && table[i].kind == kind
}

/// Detects the format by the table of signatures. With the signatures
/// of the supported formats this is what `detect_archive_type` reports.
pub fn detect_by_table(table: &Vec<FormatSignature>, header: &[u8]) -> (kind: FormatKind)
    ensures
        table_gives(table_views(table@), header@, kind),
        table_views(table@) == known_table() ==> kind == detected_kind(header@),
{
    match match_signatures(table, header) {
        Some(index) => {
            proof {
                assert(table_views(table@)[index as int] == table@[index as int]@);
                if table_views(table@) == known_table() {
                    lemma_known_table_agrees(header@, index as int);
                }
            }
            table[index].kind
        },
        None => {
            proof {
                if table_views(table@) == known_table() {
                    lemma_known_table_unknown(header@);
                }
            }
            FormatKind::Unknown
        },
    }
}

/// The best match is one signature and no other.
pub proof fn lemma_best_is_unique(table: Seq<SignatureView>, header: Seq<u8>, i: int, j: int)
    requires
        is_best(table, header, i),
        is_best(table, header, j),
    ensures
        i == j,
{
    if i < j {
        assert(table[i].pattern.len() < table[j].pattern.len());
        assert(table[j].pattern.len() <= table[i].pattern.len());
    } else if j < i {
        assert(table[j].pattern.len() < table[i].pattern.len());
        assert(table[i].pattern.len() <= table[j].pattern.len());
    }
}

} // verus!
