//! Container formats: what a file's leading bytes and its name say about it.

use vstd::prelude::*;
use vstd::string::StrSliceExecFns;

verus! {

/// Number of leading bytes that detection looks at.
pub const HEADER_LEN: usize = 16;

/// What the leading bytes of a stream identify.
#[derive(Clone, Copy, Debug, PartialEq, Eq, Structural)]
pub enum FormatKind {
    Zip,
    SevenZ,
    Rar5,
    Rar4,
    Gzip,
    Unknown,
}

/// The codec that handles a container.
#[derive(Clone, Copy, Debug, PartialEq, Eq, Structural)]
pub enum CodecKind {
    Zip,
    SevenZ,
    Tar,
    Gzip,
    RarReadOnly,
}

/// The leading bytes of a zip file.
pub open spec fn zip_signature() -> Seq<u8> {
    seq![0x50u8, 0x4Bu8, 0x03u8, 0x04u8]
}

/// The leading bytes of a 7z archive.
pub open spec fn seven_z_signature() -> Seq<u8> {
    seq![0x37u8, 0x7Au8, 0xBCu8, 0xAFu8, 0x27u8, 0x1Cu8]
}

/// The leading bytes of a RAR archive of generation 5.
pub open spec fn rar5_signature() -> Seq<u8> {
    seq![0x52u8, 0x61u8, 0x72u8, 0x21u8, 0x1Au8, 0x07u8, 0x01u8, 0x00u8]
}

/// The leading bytes of a RAR archive of generation 4.
pub open spec fn rar4_signature() -> Seq<u8> {
    seq![0x52u8, 0x61u8, 0x72u8, 0x21u8, 0x1Au8, 0x07u8, 0x00u8]
}

/// The leading bytes of a gzip stream.
pub open spec fn gzip_signature() -> Seq<u8> {
    seq![0x1Fu8, 0x8Bu8, 0x08u8]
}

/// The byte signature that identifies `kind` at offset 0; `Unknown` has none.
pub open spec fn signature_of(kind: FormatKind) -> Seq<u8> {
    match kind {
        FormatKind::Zip => zip_signature(),
        FormatKind::SevenZ => seven_z_signature(),
        FormatKind::Rar5 => rar5_signature(),
        FormatKind::Rar4 => rar4_signature(),
        FormatKind::Gzip => gzip_signature(),
        FormatKind::Unknown => Seq::empty(),
    }
}

/// `data` begins with all of `sig`. A stream shorter than `sig` does not.
pub open spec fn starts_with(data: Seq<u8>, sig: Seq<u8>) -> bool {
    &&& sig.len() <= data.len()
    &&& forall|i: int| 0 <= i < sig.len() ==> data[i] == sig[i]
}

/// The format that the leading bytes identify. The eight-byte RAR5
/// signature is asked for before the seven-byte RAR4 one.
pub open spec fn detected_kind(header: Seq<u8>) -> FormatKind {
    if starts_with(header, zip_signature()) {
        FormatKind::Zip
    } else if starts_with(header, seven_z_signature()) {
        FormatKind::SevenZ
    } else if starts_with(header, rar5_signature()) {
        FormatKind::Rar5
    } else if starts_with(header, rar4_signature()) {
        FormatKind::Rar4
    } else if starts_with(header, gzip_signature()) {
        FormatKind::Gzip
    } else {
        FormatKind::Unknown
    }
}

/// Whether `data` begins with the bytes of `sig`.
pub fn has_prefix(data: &[u8], sig: &[u8]) -> (found: bool)
    ensures
        found == starts_with(data@, sig@),
{
    if sig.len() > data.len() {
        return false;
    }
    let mut i: usize = 0;
    while i < sig.len()
        invariant
            i <= sig.len() <= data.len(),
            forall|j: int| 0 <= j < i ==> data@[j] == sig@[j],
        decreases sig.len() - i,
    {
        if data[i] != sig[i] {
            return false;
        }
        i += 1;
    }
    true
}

/// Identifies a container from its leading bytes. Only the first
/// `HEADER_LEN` bytes matter, and a stream too short for a signature simply
/// does not match it.
pub fn detect_archive_type(header: &[u8]) -> (kind: FormatKind)
    ensures
        kind == detected_kind(header@),
{
    let zip: [u8; 4] = [0x50, 0x4B, 0x03, 0x04];
    let seven_z: [u8; 6] = [0x37, 0x7A, 0xBC, 0xAF, 0x27, 0x1C];
    let rar5: [u8; 8] = [0x52, 0x61, 0x72, 0x21, 0x1A, 0x07, 0x01, 0x00];
    let rar4: [u8; 7] = [0x52, 0x61, 0x72, 0x21, 0x1A, 0x07, 0x00];
    let gzip: [u8; 3] = [0x1F, 0x8B, 0x08];
    assert(zip@ =~= zip_signature());
    assert(seven_z@ =~= seven_z_signature());
    assert(rar5@ =~= rar5_signature());
    assert(rar4@ =~= rar4_signature());
    assert(gzip@ =~= gzip_signature());
    if has_prefix(header, zip.as_slice()) {
        FormatKind::Zip
    } else if has_prefix(header, seven_z.as_slice()) {
        FormatKind::SevenZ
    } else if has_prefix(header, rar5.as_slice()) {
        FormatKind::Rar5
    } else if has_prefix(header, rar4.as_slice()) {
        FormatKind::Rar4
    } else if has_prefix(header, gzip.as_slice()) {
        FormatKind::Gzip
    } else {
        FormatKind::Unknown
    }
}

/// The codec that reads a container of the detected kind. Both RAR
/// generations go to the one read-only codec.
pub open spec fn codec_of_kind(kind: FormatKind) -> Option<CodecKind> {
    match kind {
        FormatKind::Zip => Some(CodecKind::Zip),
        FormatKind::SevenZ => Some(CodecKind::SevenZ),
        FormatKind::Rar5 => Some(CodecKind::RarReadOnly),
        FormatKind::Rar4 => Some(CodecKind::RarReadOnly),
        FormatKind::Gzip => Some(CodecKind::Gzip),
        FormatKind::Unknown => None,
    }
}

/// `name` ends with all of `suffix`, character for character.
pub open spec fn ends_with(name: Seq<char>, suffix: Seq<char>) -> bool {
    &&& suffix.len() <= name.len()
    &&& forall|i: int|
        0 <= i < suffix.len() ==> name[name.len() - suffix.len() + i] == suffix[i]
}

/// The codec that an archive's name asks for, by its recognised suffix.
pub open spec fn codec_of_name(name: Seq<char>) -> Option<CodecKind> {
    if ends_with(name, ".zip"@) {
        Some(CodecKind::Zip)
    } else if ends_with(name, ".7z"@) {
        Some(CodecKind::SevenZ)
    } else if ends_with(name, ".tar"@) {
        Some(CodecKind::Tar)
    } else if ends_with(name, ".gz"@) {
        Some(CodecKind::Gzip)
    } else if ends_with(name, ".rar"@) {
        Some(CodecKind::RarReadOnly)
    } else {
        None
    }
}

impl FormatKind {
    /// The name under which the format is reported.
    pub open spec fn label(self) -> Seq<char> {
        match self {
            FormatKind::Zip => "ZIP"@,
            FormatKind::SevenZ => "7z"@,
            FormatKind::Rar5 => "RAR5"@,
            FormatKind::Rar4 => "RAR4"@,
            FormatKind::Gzip => "GZIP"@,
            FormatKind::Unknown => "Unknown"@,
        }
    }

    /// The name under which the format is reported.
    pub fn name(&self) -> (text: &'static str)
        ensures
            text@ == self.label(),
    {
        match self {
            FormatKind::Zip => "ZIP",
            FormatKind::SevenZ => "7z",
            FormatKind::Rar5 => "RAR5",
            FormatKind::Rar4 => "RAR4",
            FormatKind::Gzip => "GZIP",
            FormatKind::Unknown => "Unknown",
        }
    }

    /// The codec that reads a container of this kind, if there is one.
    pub fn codec(&self) -> (codec: Option<CodecKind>)
        ensures
            codec == codec_of_kind(*self),
    {
        match self {
            FormatKind::Zip => Some(CodecKind::Zip),
            FormatKind::SevenZ => Some(CodecKind::SevenZ),
            FormatKind::Rar5 => Some(CodecKind::RarReadOnly),
            FormatKind::Rar4 => Some(CodecKind::RarReadOnly),
            FormatKind::Gzip => Some(CodecKind::Gzip),
            FormatKind::Unknown => None,
        }
    }
}

impl CodecKind {
    /// Whether the codec can change a container. RAR is read-only.
    pub open spec fn writable(self) -> bool {
        self != CodecKind::RarReadOnly
    }

    /// Whether the format stores a checksum with each entry.
    pub open spec fn stores_checksums(self) -> bool {
        self != CodecKind::Tar && self != CodecKind::Gzip
    }

    /// Whether the codec can change a container. RAR is read-only.
    pub fn is_writable(&self) -> (yes: bool)
        ensures
            yes == self.writable(),
    {
        match self {
            CodecKind::RarReadOnly => false,
            _ => true,
        }
    }

    /// Whether the format stores a checksum with each entry.
    pub fn has_checksums(&self) -> (yes: bool)
        ensures
            yes == self.stores_checksums(),
    {
        match self {
            CodecKind::Tar => false,
            CodecKind::Gzip => false,
            _ => true,
        }
    }
}

/// Whether `name` ends with `suffix`, compared case-sensitively.
pub fn has_suffix(name: &str, suffix: &str) -> (found: bool)
    ensures
        found == ends_with(name@, suffix@),
{
    let n: usize = name.unicode_len();
    let m: usize = suffix.unicode_len();
    if m > n {
        return false;
    }
    let start: usize = n - m;
    let mut i: usize = 0;
    while i < m
        invariant
            i <= m <= n,
            n == name@.len(),
            m == suffix@.len(),
            start == n - m,
            forall|j: int| 0 <= j < i ==> name@[start + j] == suffix@[j],
        decreases m - i,
    {
        if name.get_char(start + i) != suffix.get_char(i) {
            return false;
        }
        i += 1;
    }
    true
}

/// The codec that an archive's name asks for: one of the suffixes `.zip`,
/// `.7z`, `.tar`, `.gz`, `.rar`, or none.
pub fn codec_from_extension(name: &str) -> (codec: Option<CodecKind>)
    ensures
        codec == codec_of_name(name@),
{
    if has_suffix(name, ".zip") {
        Some(CodecKind::Zip)
    } else if has_suffix(name, ".7z") {
        Some(CodecKind::SevenZ)
    } else if has_suffix(name, ".tar") {
        Some(CodecKind::Tar)
    } else if has_suffix(name, ".gz") {
        Some(CodecKind::Gzip)
    } else if has_suffix(name, ".rar") {
        Some(CodecKind::RarReadOnly)
    } else {
        None
    }
}

/// Whether the archive's name carries one of the supported suffixes.
pub fn is_supported_name(name: &str) -> (yes: bool)
    ensures
        yes == codec_of_name(name@).is_some(),
{
    codec_from_extension(name).is_some()
}

/// A stream that begins with the signature of a format is detected as that
/// format, whatever follows the signature.
pub proof fn lemma_signature_is_detected(header: Seq<u8>, kind: FormatKind)
    requires
        kind != FormatKind::Unknown,
        starts_with(header, signature_of(kind)),
    ensures
        detected_kind(header) == kind,
{
    let sig = signature_of(kind);
    assert(header[0] == sig[0]);
    if kind == FormatKind::Rar5 || kind == FormatKind::Rar4 {
        assert(header[6] == sig[6]);
    }
}

/// A stream that begins with none of the known signatures is `Unknown`, and
/// a stream reported as a format begins with that format's signature.
pub proof fn lemma_detected_has_signature(header: Seq<u8>)
    ensures
        detected_kind(header) != FormatKind::Unknown ==> starts_with(
            header,
            signature_of(detected_kind(header)),
        ),
        (forall|kind: FormatKind|
            kind != FormatKind::Unknown ==> !starts_with(header, #[trigger] signature_of(kind)))
            ==> detected_kind(header) == FormatKind::Unknown,
{
    if forall|kind: FormatKind|
        kind != FormatKind::Unknown ==> !starts_with(header, #[trigger] signature_of(kind)) {
        assert(!starts_with(header, signature_of(FormatKind::Zip)));
        assert(!starts_with(header, signature_of(FormatKind::SevenZ)));
        assert(!starts_with(header, signature_of(FormatKind::Rar5)));
        assert(!starts_with(header, signature_of(FormatKind::Rar4)));
        assert(!starts_with(header, signature_of(FormatKind::Gzip)));
    }
}

/// The two RAR generations share six bytes and are never confused: a stream
/// that begins with the eight-byte RAR5 signature is RAR5; one that begins
/// with the seven-byte RAR4 signature is RAR4.
pub proof fn lemma_rar_generations_distinct(header: Seq<u8>)
    ensures
        starts_with(header, rar5_signature()) ==> detected_kind(header) == FormatKind::Rar5,
        starts_with(header, rar4_signature()) ==> detected_kind(header) == FormatKind::Rar4,
        !(starts_with(header, rar5_signature()) && starts_with(header, rar4_signature())),
{
    if starts_with(header, rar5_signature()) {
        lemma_signature_is_detected(header, FormatKind::Rar5);
        assert(header[6] == rar5_signature()[6]);
    }
    if starts_with(header, rar4_signature()) {
        lemma_signature_is_detected(header, FormatKind::Rar4);
        assert(header[6] == rar4_signature()[6]);
    }
}

/// Detection reads no further than the first `HEADER_LEN` bytes.
pub proof fn lemma_detection_reads_header_only(stream: Seq<u8>)
    requires
        stream.len() >= HEADER_LEN,
    ensures
        detected_kind(stream) == detected_kind(stream.subrange(0, HEADER_LEN as int)),
{
    let head = stream.subrange(0, HEADER_LEN as int);
    assert forall|sig: Seq<u8>| sig.len() <= HEADER_LEN implies starts_with(stream, sig)
        == starts_with(head, sig) by {
        if starts_with(stream, sig) {
            assert forall|i: int| 0 <= i < sig.len() implies head[i] == sig[i] by {
                assert(head[i] == stream[i]);
            }
        }
        if starts_with(head, sig) {
            assert forall|i: int| 0 <= i < sig.len() implies stream[i] == sig[i] by {
                assert(head[i] == stream[i]);
            }
        }
    }
    assert(starts_with(stream, zip_signature()) == starts_with(head, zip_signature()));
    assert(starts_with(stream, seven_z_signature()) == starts_with(head, seven_z_signature()));
    assert(starts_with(stream, rar5_signature()) == starts_with(head, rar5_signature()));
    assert(starts_with(stream, rar4_signature()) == starts_with(head, rar4_signature()));
    assert(starts_with(stream, gzip_signature()) == starts_with(head, gzip_signature()));
}

} // verus!
