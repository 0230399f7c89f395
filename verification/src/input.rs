//! What an input file is, and which part of it to read.
//!
//! A file is recognized by its leading bytes; its name is never looked at. An ensemble is a whole
//! file, or the byte range of a bundle that holds it.
use crate::error::{invalid_data, Error};
use crate::text::{decimal, joined, push_decimal, quoted_path, quoted_path_text};
use vstd::prelude::*;

verus! {

/// How many leading bytes are looked at.
pub const SNIFF_BYTES: usize = 17;

/// What the leading bytes of a file say.
#[derive(Clone, Copy, PartialEq, Eq, Structural, Debug)]
pub enum InputKind {
    /// A bundle of an ensemble with its graph and other assets.
    Bundle,
    /// An ensemble.
    PlainBen,
    /// A compressed ensemble.
    Xben,
}

/// Whether `bytes` start with `start`.
pub open spec fn starts_so(bytes: Seq<u8>, start: Seq<u8>) -> bool {
    bytes.len() >= start.len() && bytes.take(start.len() as int) == start
}

/// The first bytes of a bundle.
pub open spec fn bundle_magic_bytes() -> Seq<u8> {
    seq![0x42u8, 0x45u8, 0x4eu8, 0x44u8, 0x4cu8, 0u8, 0u8, 1u8]
}

/// The first bytes of a compressed ensemble: those of any `xz` stream.
pub open spec fn xz_magic_bytes() -> Seq<u8> {
    seq![0xfdu8, 0x37u8, 0x7au8, 0x58u8, 0x5au8, 0u8]
}

/// The bytes of a text whose characters are single bytes.
pub open spec fn plain_bytes(text: Seq<char>) -> Seq<u8> {
    Seq::new(text.len(), |i: int| text[i] as u8)
}

/// Whether `bytes` start with the banner of one of the three encodings.
pub open spec fn starts_with_banner(bytes: Seq<u8>) -> bool {
    ||| starts_so(bytes, plain_bytes("STANDARD BEN FILE"@))
    ||| starts_so(bytes, plain_bytes("MKVCHAIN BEN FILE"@))
    ||| starts_so(bytes, plain_bytes("TWODELTA BEN FILE"@))
}

/// `has_known_banner_prefix` of `binary-ensemble`: whether one of the three banners comes first.
#[verifier::external_body]
fn has_banner(bytes: &[u8]) -> (r: bool)
    ensures
        r == starts_with_banner(bytes@),
{
    binary_ensemble::format::banners::has_known_banner_prefix(bytes)
}

/// `BENDL_MAGIC` of `binary-ensemble`: the first eight bytes of a bundle.
#[verifier::external_body]
fn bundle_magic() -> (r: Vec<u8>)
    ensures
        r@ == bundle_magic_bytes(),
{
    binary_ensemble::io::bundle::format::BENDL_MAGIC.to_vec()
}

fn starts_with(bytes: &[u8], start: &Vec<u8>) -> (r: bool)
    ensures
        r == starts_so(bytes@, start@),
{
    if bytes.len() < start.len() {
        return false;
    }
    let mut i: usize = 0;
    while i < start.len()
        invariant
            i <= start@.len() <= bytes@.len(),
            forall|k: int| 0 <= k < i ==> #[trigger] bytes@[k] == start@[k],
        decreases start.len() - i,
    {
        if bytes[i] != start[i] {
            proof {
                assert(bytes@.take(start@.len() as int)[i as int] != start@[i as int]);
            }
            return false;
        }
        i += 1;
    }
    proof {
        assert(bytes@.take(start@.len() as int) =~= start@);
    }
    true
}

/// The hexadecimal digit of `d`, for `d < 16`.
pub open spec fn hex_digit(d: nat) -> char {
    if d < 10 {
        (48 + d) as char
    } else {
        (55 + d) as char
    }
}

/// A byte as two hexadecimal digits.
pub open spec fn hex_byte(b: u8) -> Seq<char> {
    seq![hex_digit(b as nat / 16), hex_digit(b as nat % 16)]
}

/// A bracketed, comma-separated list of bytes.
pub open spec fn hex_list(bytes: Seq<u8>) -> Seq<char> {
    "["@ + joined(Seq::new(bytes.len(), |i: int| hex_byte(bytes[i])), ", "@) + "]"@
}

fn hex_text(d: u8) -> (r: &'static str)
    requires
        d < 16,
    ensures
        r@ == seq![hex_digit(d as nat)],
{
    proof {
        reveal_strlit("0");
        reveal_strlit("1");
        reveal_strlit("2");
        reveal_strlit("3");
        reveal_strlit("4");
        reveal_strlit("5");
        reveal_strlit("6");
        reveal_strlit("7");
        reveal_strlit("8");
        reveal_strlit("9");
        reveal_strlit("A");
        reveal_strlit("B");
        reveal_strlit("C");
        reveal_strlit("D");
        reveal_strlit("E");
        reveal_strlit("F");
    }
    match d {
        0 => "0",
        1 => "1",
        2 => "2",
        3 => "3",
        4 => "4",
        5 => "5",
        6 => "6",
        7 => "7",
        8 => "8",
        9 => "9",
        10 => "A",
        11 => "B",
        12 => "C",
        13 => "D",
        14 => "E",
        _ => "F",
    }
}

fn push_hex_list(out: &mut String, bytes: &[u8])
    ensures
        final(out)@ == old(out)@ + hex_list(bytes@),
{
    let ghost parts = Seq::new(bytes@.len(), |i: int| hex_byte(bytes@[i]));
    let ghost start = out@;
    out.append("[");
    let mut i: usize = 0;
    while i < bytes.len()
        invariant
            i <= bytes@.len(),
            parts == Seq::new(bytes@.len(), |k: int| hex_byte(bytes@[k])),
            out@ == start + "["@ + joined(parts.take(i as int), ", "@),
        decreases bytes.len() - i,
    {
        if i > 0 {
            out.append(", ");
        }
        let ghost middle = out@;
        out.append(hex_text(bytes[i] / 16));
        out.append(hex_text(bytes[i] % 16));
        proof {
            assert(out@ =~= middle + hex_byte(bytes@[i as int]));
            assert(parts.take(i + 1).drop_last() =~= parts.take(i as int));
            assert(parts.take(i + 1).last() == parts[i as int]);
        }
        i += 1;
    }
    out.append("]");
    proof {
        assert(parts.take(bytes@.len() as int) =~= parts);
    }
}

/// The kind that leading bytes stand for.
pub open spec fn kind_of(head: Seq<u8>) -> Option<InputKind> {
    if starts_so(head, bundle_magic_bytes()) {
        Some(InputKind::Bundle)
    } else if starts_with_banner(head) {
        Some(InputKind::PlainBen)
    } else if starts_so(head, xz_magic_bytes()) {
        Some(InputKind::Xben)
    } else {
        None
    }
}

/// The message for a file that is no input.
pub open spec fn unrecognized_text(path: Seq<char>, head: Seq<u8>) -> Seq<char> {
    quoted_path_text(path) + " is not a recognized input: leading bytes "@ + hex_list(head)
        + " match no known BEN / XBEN / .bendl magic"@
}

/// Recognize a file by its leading bytes.
pub fn sniff(path: &str, head: &[u8]) -> (r: Result<InputKind, Error>)
    ensures
        match kind_of(head@) {
            Some(kind) => r == Ok::<InputKind, Error>(kind),
            None => r matches Err(e) && e.is_invalid_data(unrecognized_text(path@, head@)),
        },
{
    let magic = bundle_magic();
    let xz: Vec<u8> = vec![0xfd, 0x37, 0x7a, 0x58, 0x5a, 0];
    proof {
        assert(xz@ =~= xz_magic_bytes());
    }
    if starts_with(head, &magic) {
        Ok(InputKind::Bundle)
    } else if has_banner(head) {
        Ok(InputKind::PlainBen)
    } else if starts_with(head, &xz) {
        Ok(InputKind::Xben)
    } else {
        let mut message = quoted_path(path);
        message.append(" is not a recognized input: leading bytes ");
        push_hex_list(&mut message, head);
        message.append(" match no known BEN / XBEN / .bendl magic");
        Err(invalid_data(message))
    }
}

/// What came of one attempt to read.
#[derive(Clone, Copy, PartialEq, Eq, Structural, Debug)]
pub enum ReadOutcome {
    /// So many bytes were read; none at the end of the file.
    Read(usize),
    /// Nothing was read, and the attempt can be repeated.
    Interrupted,
}

/// Reading until a buffer is full or the file ends. Given how many bytes of the buffer are filled
/// and what came of an attempt to read more, says how many are filled and whether to go on.
pub fn read_up_to(filled: usize, capacity: usize, outcome: ReadOutcome) -> (r: (usize, bool))
    requires
        filled < capacity,
        outcome matches ReadOutcome::Read(n) ==> n <= capacity - filled,
    ensures
        match outcome {
            ReadOutcome::Read(n) => r.0 == filled + n && r.1 == (n > 0 && r.0 < capacity),
            ReadOutcome::Interrupted => r == (filled, true),
        },
{
    match outcome {
        ReadOutcome::Read(n) => (filled + n, n > 0 && filled + n < capacity),
        ReadOutcome::Interrupted => (filled, true),
    }
}

/// How an ensemble is stored.
#[derive(Clone, Copy, PartialEq, Eq, Structural, Debug)]
pub enum WireFormat {
    Ben,
    XBen,
}

/// Where a run reads its ensemble from.
#[derive(Debug)]
pub enum BenSource {
    /// A whole file.
    File { path: String, wire: WireFormat },
    /// A byte range of a bundle.
    Bundle {
        path: String,
        offset: u64,
        len: u64,
        wire: WireFormat,
        /// How many samples the bundle claims to hold, for a progress bar only.
        header_samples: Option<usize>,
    },
}

impl BenSource {
    /// The file that is read.
    pub open spec fn path_text(&self) -> Seq<char> {
        match self {
            BenSource::File { path, .. } => path@,
            BenSource::Bundle { path, .. } => path@,
        }
    }

    /// The file that is read.
    pub fn path(&self) -> (r: &str)
        ensures
            r@ == self.path_text(),
    {
        match self {
            BenSource::File { path, wire: _ } => path.as_str(),
            BenSource::Bundle { path, offset: _, len: _, wire: _, header_samples: _ } => {
                path.as_str()
            },
        }
    }

    /// How the ensemble is stored.
    pub fn wire(&self) -> (r: WireFormat)
        ensures
            match *self {
                BenSource::File { wire, .. } => r == wire,
                BenSource::Bundle { wire, .. } => r == wire,
            },
    {
        match self {
            BenSource::File { path: _, wire } => *wire,
            BenSource::Bundle { path: _, offset: _, len: _, wire, header_samples: _ } => *wire,
        }
    }

    /// Which bytes to read, where it is not the whole file: from where, and how many.
    pub fn range(&self) -> (r: Option<(u64, u64)>)
        ensures
            match *self {
                BenSource::File { .. } => r is None,
                BenSource::Bundle { offset, len, .. } => r == Some((offset, len)),
            },
    {
        match self {
            BenSource::File { path: _, wire: _ } => None,
            BenSource::Bundle { path: _, offset, len, wire: _, header_samples: _ } => Some(
                (*offset, *len),
            ),
        }
    }

    /// The sample count to size a progress bar by, where it is known without a walk through the
    /// ensemble.
    pub fn count_samples(&self) -> (r: Option<usize>)
        ensures
            match *self {
                BenSource::File { .. } => r is None,
                BenSource::Bundle { header_samples, .. } => r == header_samples,
            },
    {
        match self {
            BenSource::File { path: _, wire: _ } => None,
            BenSource::Bundle { path: _, offset: _, len: _, wire: _, header_samples } => {
                *header_samples
            },
        }
    }
}

/// A recognized input, and the graph that it holds.
#[derive(Debug)]
pub struct ResolvedInput {
    pub source: BenSource,
    pub embedded_graph: Option<Vec<u8>>,
}

/// The source for an input that is not a bundle.
pub fn resolve(ben_file: &str, kind: InputKind) -> (r: Option<ResolvedInput>)
    ensures
        match kind {
            InputKind::Bundle => r is None,
            InputKind::PlainBen => r matches Some(input) && input.embedded_graph is None && (
            input.source matches BenSource::File { path, wire } && path@ == ben_file@ && wire
                == WireFormat::Ben),
            InputKind::Xben => r matches Some(input) && input.embedded_graph is None && (
            input.source matches BenSource::File { path, wire } && path@ == ben_file@ && wire
                == WireFormat::XBen),
        },
{
    let wire = match kind {
        InputKind::Bundle => {
            return None;
        },
        InputKind::PlainBen => WireFormat::Ben,
        InputKind::Xben => WireFormat::XBen,
    };
    Some(
        ResolvedInput {
            source: BenSource::File { path: ben_file.to_owned(), wire },
            embedded_graph: None,
        },
    )
}

/// What a bundle says of the ensemble that it holds.
#[derive(Clone, Copy, PartialEq, Eq, Structural, Debug)]
pub struct BundleHeader {
    pub offset: u64,
    pub len: u64,
    /// How the ensemble is stored, where the bundle says it in a known way.
    pub format: Option<WireFormat>,
    pub sample_count: Option<i64>,
}

/// The message for a range without an end.
pub open spec fn range_overflow_text(offset: nat, len: nat) -> Seq<char> {
    "bundle stream range ["@ + decimal(offset) + ", +"@ + decimal(len) + ") overflows"@
}

/// The message for a range that goes beyond the file.
pub open spec fn range_beyond_text(offset: nat, end: nat, file_len: nat) -> Seq<char> {
    "bundle assignment stream range ["@ + decimal(offset) + ", "@ + decimal(end)
        + ") exceeds file length "@ + decimal(file_len)
}

/// The message for a bundle that does not say how its ensemble is stored.
pub open spec fn no_format_text() -> Seq<char> {
    "bundle has no recognized assignment-stream format"@
}

/// The message for an impossible sample count.
pub open spec fn sample_count_text(n: int) -> Seq<char> {
    "bundle sample_count "@ + signed_decimal(n) + " is negative or out of range"@
}

/// The decimal notation of a number that may be negative.
pub open spec fn signed_decimal(n: int) -> Seq<char> {
    if n < 0 {
        "-"@ + decimal((-n) as nat)
    } else {
        decimal(n as nat)
    }
}

/// Whether what a bundle says of its ensemble makes sense for a file of `file_len` bytes.
pub open spec fn header_fits(header: BundleHeader, file_len: u64) -> bool {
    &&& header.offset + header.len <= file_len
    &&& header.format is Some
    &&& header.sample_count matches Some(n) ==> 0 <= n <= usize::MAX
}

/// Whether `e` reports the first thing that makes no sense.
pub open spec fn reports_header(header: BundleHeader, file_len: u64, e: Error) -> bool {
    let end = header.offset + header.len;
    e.is_invalid_data(
        if end > u64::MAX {
            range_overflow_text(header.offset as nat, header.len as nat)
        } else if end > file_len {
            range_beyond_text(header.offset as nat, end as nat, file_len as nat)
        } else if header.format is None {
            no_format_text()
        } else {
            sample_count_text(header.sample_count->0 as int)
        },
    )
}

/// The source for a bundle of `file_len` bytes.
///
/// A range that goes beyond the file is an error. A reader would take the end of the file for the
/// end of the ensemble and lose the rest.
pub fn resolve_bundle(path: &str, file_len: u64, header: BundleHeader) -> (r: Result<
    BenSource,
    Error,
>)
    ensures
        r is Ok <==> header_fits(header, file_len),
        r matches Err(e) ==> reports_header(header, file_len, e),
        r matches Ok(source) ==> {
            &&& source matches BenSource::Bundle { path: p, offset, len, wire, header_samples }
            &&& p@ == path@
            &&& offset == header.offset
            &&& len == header.len
            &&& Some(wire) == header.format
            &&& match header.sample_count {
                Some(n) => header_samples matches Some(samples) && samples == n,
                None => header_samples is None,
            }
        },
{
    let end: u64 = match header.offset.checked_add(header.len) {
        Some(end) => end,
        None => {
            let mut message = "bundle stream range [".to_owned();
            push_decimal(&mut message, header.offset);
            message.append(", +");
            push_decimal(&mut message, header.len);
            message.append(") overflows");
            return Err(invalid_data(message));
        },
    };
    if end > file_len {
        let mut message = "bundle assignment stream range [".to_owned();
        push_decimal(&mut message, header.offset);
        message.append(", ");
        push_decimal(&mut message, end);
        message.append(") exceeds file length ");
        push_decimal(&mut message, file_len);
        return Err(invalid_data(message));
    }
    let wire = match header.format {
        Some(wire) => wire,
        None => {
            return Err(
                invalid_data("bundle has no recognized assignment-stream format".to_owned()),
            );
        },
    };
    let header_samples: Option<usize> = match header.sample_count {
        Some(n) => {
            if n < 0 || n as u64 > usize::MAX as u64 {
                let mut message = "bundle sample_count ".to_owned();
                if n < 0 {
                    message.append("-");
                    let magnitude: u64 = (-(n as i128)) as u64;
                    push_decimal(&mut message, magnitude);
                    proof {
                        assert(message@ =~= "bundle sample_count "@ + signed_decimal(n as int));
                    }
                } else {
                    push_decimal(&mut message, n as u64);
                }
                message.append(" is negative or out of range");
                return Err(invalid_data(message));
            }
            Some(n as usize)
        },
        None => None,
    };
    Ok(
        BenSource::Bundle {
            path: path.to_owned(),
            offset: header.offset,
            len: header.len,
            wire,
            header_samples,
        },
    )
}

/// How a file is recognized: a bundle by its eight magic bytes, a plain ensemble by one of the three
/// banners, and a compressed one by the six bytes of an `xz` stream. Nothing else is recognized.
pub proof fn law_kind_of(head: Seq<u8>)
    ensures
        kind_of(head) == Some(InputKind::Bundle) <==> head.len() >= 8 && head[0] == 0x42 && head[1]
            == 0x45 && head[2] == 0x4e && head[3] == 0x44 && head[4] == 0x4c && head[5] == 0
            && head[6] == 0 && head[7] == 1,
        kind_of(head) == Some(InputKind::Xben) <==> head.len() >= 6 && head[0] == 0xfd && head[1]
            == 0x37 && head[2] == 0x7a && head[3] == 0x58 && head[4] == 0x5a && head[5] == 0,
        kind_of(head) == Some(InputKind::PlainBen) ==> head.len() >= 17 && starts_with_banner(head),
        starts_with_banner(head) ==> kind_of(head) == Some(InputKind::PlainBen),
{
    reveal_strlit("STANDARD BEN FILE");
    reveal_strlit("MKVCHAIN BEN FILE");
    reveal_strlit("TWODELTA BEN FILE");
    let bundle = bundle_magic_bytes();
    let xz = xz_magic_bytes();
    if starts_so(head, bundle) {
        assert forall|i: int| 0 <= i < 8 implies head[i] == bundle[i] by {
            assert(head.take(8)[i] == head[i]);
        }
    }
    if head.len() >= 8 && head[0] == 0x42 && head[1] == 0x45 && head[2] == 0x4e && head[3] == 0x44
        && head[4] == 0x4c && head[5] == 0 && head[6] == 0 && head[7] == 1 {
        assert(head.take(8) =~= bundle);
    }
    if starts_so(head, xz) {
        assert forall|i: int| 0 <= i < 6 implies head[i] == xz[i] by {
            assert(head.take(6)[i] == head[i]);
        }
    }
    if head.len() >= 6 && head[0] == 0xfd && head[1] == 0x37 && head[2] == 0x7a && head[3] == 0x58
        && head[4] == 0x5a && head[5] == 0 {
        assert(head.take(6) =~= xz);
    }
    lemma_banner_start(head, "STANDARD BEN FILE"@);
    lemma_banner_start(head, "MKVCHAIN BEN FILE"@);
    lemma_banner_start(head, "TWODELTA BEN FILE"@);
}

proof fn lemma_banner_start(head: Seq<u8>, banner: Seq<char>)
    requires
        banner.len() == 17,
    ensures
        starts_so(head, plain_bytes(banner)) ==> head.len() >= 17 && head[0] == banner[0] as u8,
{
    if starts_so(head, plain_bytes(banner)) {
        assert(head.take(17)[0] == head[0]);
    }
}

/// What a bundle says makes sense exactly when its range lies in the file, it names a format, and a
/// sample count is not negative and can be counted to.
pub proof fn law_header_fits(header: BundleHeader, file_len: u64)
    ensures
        header_fits(header, file_len) <==> header.offset + header.len <= file_len && header.format
            is Some && (header.sample_count is None || 0 <= header.sample_count->0 <= usize::MAX),
{
}

} // verus!
