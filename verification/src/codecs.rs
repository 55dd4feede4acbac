//! The formats the library knows, and how to tell them apart by their first
//! bytes.
use vstd::prelude::*;
use zune_core::bytestream::ZCursor;
use zune_farbfeld::FarbFeldDecoder;
use zune_jpeg::JpegDecoder;
use zune_ppm::PPMDecoder;
use zune_psd::PSDDecoder;

verus! {

/// `zune_core::bytestream::ZCursor`: a read cursor over bytes in memory.
/// Nothing is known of what it holds.
#[verifier::external_type_specification]
#[verifier::external_body]
#[verifier::reject_recursive_types(T)]
pub struct ExZCursor<T>(ZCursor<T>);

/// `zune_jpeg::JpegDecoder`. Nothing is known of what it holds.
#[verifier::external_type_specification]
#[verifier::external_body]
#[verifier::reject_recursive_types(T)]
pub struct ExJpegDecoder<T>(JpegDecoder<T>);

/// The state of a `zune_jpeg::JpegDecoder`.
pub struct JpegState<'a> {
    /// The decoder, for the caller to drive.
    pub decoder: JpegDecoder<ZCursor<&'a [u8]>>,
}

/// The state of a `zune_ppm::PPMDecoder`. The outside type bounds its
/// parameter by a trait of `zune_core` in its own declaration and so cannot be
/// declared to the verifier; it is held here, and nothing is known of it.
#[verifier::external_body]
pub struct PpmState<'a> {
    /// The decoder, for the caller to drive.
    pub decoder: PPMDecoder<ZCursor<&'a [u8]>>,
}

/// The state of a `zune_psd::PSDDecoder`, held as `PpmState` holds its
/// decoder and for the same reason; nothing is known of it.
#[verifier::external_body]
pub struct PsdState<'a> {
    /// The decoder, for the caller to drive.
    pub decoder: PSDDecoder<ZCursor<&'a [u8]>>,
}

/// The state of a `zune_farbfeld::FarbFeldDecoder`, held as `PpmState` holds
/// its decoder and for the same reason; nothing is known of it.
#[verifier::external_body]
pub struct FarbfeldState<'a> {
    /// The decoder, for the caller to drive.
    pub decoder: FarbFeldDecoder<ZCursor<&'a [u8]>>,
}

/// `ZCursor::new`: a cursor at the start of `data`. The call stores the
/// reference and a position; nothing is claimed of the result.
#[verifier::external_body]
fn cursor_over<'a>(data: &'a [u8]) -> ZCursor<&'a [u8]> {
    ZCursor::new(data)
}

/// `JpegDecoder::new`: a JPEG decoder with default options that will read from
/// `source`. The call reads nothing yet; nothing is claimed of the result.
#[verifier::external_body]
fn jpeg_decoder<'a>(source: ZCursor<&'a [u8]>) -> JpegDecoder<ZCursor<&'a [u8]>> {
    JpegDecoder::new(source)
}

/// `PPMDecoder::new`: a PPM decoder with default options that will read from
/// `source`. The call reads nothing yet; nothing is claimed of the result.
#[verifier::external_body]
fn ppm_decoder<'a>(source: ZCursor<&'a [u8]>) -> PpmState<'a> {
    PpmState { decoder: PPMDecoder::new(source) }
}

/// `PSDDecoder::new`: a PSD decoder with default options that will read from
/// `source`. The call reads nothing yet; nothing is claimed of the result.
#[verifier::external_body]
fn psd_decoder<'a>(source: ZCursor<&'a [u8]>) -> PsdState<'a> {
    PsdState { decoder: PSDDecoder::new(source) }
}

/// `FarbFeldDecoder::new`: a farbfeld decoder with default options that will
/// read from `source`. The call reads nothing yet; nothing is claimed of the
/// result.
#[verifier::external_body]
fn farbfeld_decoder<'a>(source: ZCursor<&'a [u8]>) -> FarbfeldState<'a> {
    FarbfeldState { decoder: FarbFeldDecoder::new(source) }
}

/// Formats that can be decoded.
#[allow(clippy::upper_case_acronyms)]
#[derive(Copy, Clone, Debug, Eq, PartialEq, Structural)]
pub enum SupportedDecoders {
    /// JPEG.
    Jpeg,
    /// PNG.
    Png,
    /// Portable pixmap.
    PPM,
    /// Photoshop document.
    PSD,
    /// Farbfeld.
    Farbfeld,
}

/// Formats that can be encoded.
#[allow(clippy::upper_case_acronyms)]
#[derive(Debug)]
pub enum SupportedEncoders {
    /// Portable pixmap.
    PPM,
    /// Portable arbitrary map.
    PAM,
}

/// A decoder for one format, made over the bytes it is to read.
#[allow(clippy::upper_case_acronyms)]
pub enum Decoder<'a> {
    /// A JPEG decoder.
    Jpeg(JpegState<'a>),
    /// A PPM decoder.
    PPM(PpmState<'a>),
    /// A PSD decoder.
    PSD(PsdState<'a>),
    /// A farbfeld decoder.
    Farbfeld(FarbfeldState<'a>),
}

impl<'a> Decoder<'a> {
    /// The format that this decoder reads.
    pub open spec fn format_spec(&self) -> SupportedDecoders {
        match self {
            Decoder::Jpeg(_) => SupportedDecoders::Jpeg,
            Decoder::PPM(_) => SupportedDecoders::PPM,
            Decoder::PSD(_) => SupportedDecoders::PSD,
            Decoder::Farbfeld(_) => SupportedDecoders::Farbfeld,
        }
    }

    /// The format that this decoder reads.
    pub fn format(&self) -> (f: SupportedDecoders)
        ensures
            f == self.format_spec(),
    {
        match self {
            Decoder::Jpeg(_) => SupportedDecoders::Jpeg,
            Decoder::PPM(_) => SupportedDecoders::PPM,
            Decoder::PSD(_) => SupportedDecoders::PSD,
            Decoder::Farbfeld(_) => SupportedDecoders::Farbfeld,
        }
    }
}

/// Why no decoder could be handed out.
#[derive(Copy, Clone, Debug, Eq, PartialEq, Structural)]
pub enum DecoderErrors {
    /// The library has no decoder for this format.
    UnsupportedFormat(SupportedDecoders),
}

/// A decoder exists for every format but PNG.
pub open spec fn has_decoder(codec: SupportedDecoders) -> bool {
    codec != SupportedDecoders::Png
}

/// Returns a decoder with default settings for `codec` over `data`, or
/// `UnsupportedFormat` where the library has none.
pub fn get_decoder<'a>(codec: SupportedDecoders, data: &'a [u8]) -> (r: Result<
    Decoder<'a>,
    DecoderErrors,
>)
    ensures
        match r {
            Ok(d) => has_decoder(codec) && d.format_spec() == codec,
            Err(e) => !has_decoder(codec) && e == DecoderErrors::UnsupportedFormat(codec),
        },
{
    match codec {
        SupportedDecoders::Jpeg => Ok(
            Decoder::Jpeg(JpegState { decoder: jpeg_decoder(cursor_over(data)) }),
        ),
        SupportedDecoders::Png => Err(DecoderErrors::UnsupportedFormat(codec)),
        SupportedDecoders::PPM => Ok(Decoder::PPM(ppm_decoder(cursor_over(data)))),
        SupportedDecoders::PSD => Ok(Decoder::PSD(psd_decoder(cursor_over(data)))),
        SupportedDecoders::Farbfeld => Ok(Decoder::Farbfeld(farbfeld_decoder(cursor_over(data)))),
    }
}

const PNG_MAGIC: [u8; 8] = [137, 80, 78, 71, 13, 10, 26, 10];

const JPEG_MAGIC: [u8; 3] = [0xff, 0xd8, 0xff];

const PPM_P6_MAGIC: [u8; 2] = [0x50, 0x36];

const PPM_P5_MAGIC: [u8; 2] = [0x50, 0x35];

const PSD_MAGIC: [u8; 4] = [0x38, 0x42, 0x50, 0x53];

const FARBFELD_MAGIC: [u8; 8] = [0x66, 0x61, 0x72, 0x62, 0x66, 0x65, 0x6c, 0x64];

/// The known prefixes in the order in which they are tried, each with its
/// format.
pub open spec fn magic_table() -> Seq<(Seq<u8>, SupportedDecoders)> {
    seq![
        (seq![137u8, 80u8, 78u8, 71u8, 13u8, 10u8, 26u8, 10u8], SupportedDecoders::Png),
        (seq![0xffu8, 0xd8u8, 0xffu8], SupportedDecoders::Jpeg),
        (seq![0x50u8, 0x36u8], SupportedDecoders::PPM),
        (seq![0x50u8, 0x35u8], SupportedDecoders::PPM),
        (seq![0x38u8, 0x42u8, 0x50u8, 0x53u8], SupportedDecoders::PSD),
        (
            seq![0x66u8, 0x61u8, 0x72u8, 0x62u8, 0x66u8, 0x65u8, 0x6cu8, 0x64u8],
            SupportedDecoders::Farbfeld,
        ),
    ]
}

/// `bytes` starts with `magic`.
pub open spec fn has_prefix(bytes: Seq<u8>, magic: Seq<u8>) -> bool {
    magic.len() <= bytes.len() && bytes.subrange(0, magic.len() as int) == magic
}

/// The format of the first table entry from `from` on whose prefix `bytes`
/// starts with.
pub open spec fn first_match(bytes: Seq<u8>, from: nat) -> Option<SupportedDecoders>
    decreases magic_table().len() - from,
{
    if from >= magic_table().len() {
        None
    } else if has_prefix(bytes, magic_table()[from as int].0) {
        Some(magic_table()[from as int].1)
    } else {
        first_match(bytes, from + 1)
    }
}

/// The format that `bytes` announces, if any.
pub open spec fn guess_format_spec(bytes: Seq<u8>) -> Option<SupportedDecoders> {
    first_match(bytes, 0)
}

fn starts_with(bytes: &[u8], magic: &[u8]) -> (r: bool)
    ensures
        r == has_prefix(bytes@, magic@),
{
    if bytes.len() < magic.len() {
        return false;
    }
    let mut i: usize = 0;
    while i < magic.len()
        invariant
            i <= magic@.len() <= bytes@.len(),
            bytes@.subrange(0, i as int) == magic@.subrange(0, i as int),
        decreases magic@.len() - i,
    {
        if bytes[i] != magic[i] {
            assert(bytes@.subrange(0, magic@.len() as int)[i as int] != magic@[i as int]);
            return false;
        }
        i = i + 1;
        assert(bytes@.subrange(0, i as int) =~= bytes@.subrange(0, i - 1).push(bytes@[i - 1]));
        assert(magic@.subrange(0, i as int) =~= magic@.subrange(0, i - 1).push(magic@[i - 1]));
    }
    assert(magic@.subrange(0, i as int) =~= magic@);
    true
}

/// Returns the format of an image from its first bytes, or `None` if they
/// start with none of the known prefixes.
pub fn guess_format(bytes: &[u8]) -> (r: Option<SupportedDecoders>)
    ensures
        r == guess_format_spec(bytes@),
{
    proof {
        reveal_with_fuel(first_match, 7);
        assert(PNG_MAGIC@ =~= magic_table()[0].0);
        assert(JPEG_MAGIC@ =~= magic_table()[1].0);
        assert(PPM_P6_MAGIC@ =~= magic_table()[2].0);
        assert(PPM_P5_MAGIC@ =~= magic_table()[3].0);
        assert(PSD_MAGIC@ =~= magic_table()[4].0);
        assert(FARBFELD_MAGIC@ =~= magic_table()[5].0);
    }
    if starts_with(bytes, &PNG_MAGIC) {
        Some(SupportedDecoders::Png)
    } else if starts_with(bytes, &JPEG_MAGIC) {
        Some(SupportedDecoders::Jpeg)
    } else if starts_with(bytes, &PPM_P6_MAGIC) {
        Some(SupportedDecoders::PPM)
    } else if starts_with(bytes, &PPM_P5_MAGIC) {
        Some(SupportedDecoders::PPM)
    } else if starts_with(bytes, &PSD_MAGIC) {
        Some(SupportedDecoders::PSD)
    } else if starts_with(bytes, &FARBFELD_MAGIC) {
        Some(SupportedDecoders::Farbfeld)
    } else {
        None
    }
}

/// Whatever follows one of the known prefixes, the prefix decides the format.
pub proof fn lemma_magic_prefix_decides(entry: int, tail: Seq<u8>)
    requires
        0 <= entry < magic_table().len(),
    ensures
        guess_format_spec(magic_table()[entry].0 + tail) == Some(magic_table()[entry].1),
{
    reveal_with_fuel(first_match, 7);
    let magic = magic_table()[entry].0;
    let bytes = magic + tail;
    assert(bytes.subrange(0, magic.len() as int) =~= magic);
    assert(bytes[0] == magic[0]);
    assert(bytes[1] == magic[1]);
    assert forall|k: int| 0 <= k < 6 && has_prefix(bytes, #[trigger] magic_table()[k].0) implies magic_table()[k].1
        == magic_table()[entry].1 by {
        let other = magic_table()[k].0;
        assert(bytes.subrange(0, other.len() as int)[0] == other[0]);
        assert(bytes.subrange(0, other.len() as int)[1] == other[1]);
    }
}

/// Bytes that start with none of the known prefixes have no format.
pub proof fn lemma_no_prefix_no_format(bytes: Seq<u8>)
    requires
        forall|k: int| 0 <= k < magic_table().len() ==> !has_prefix(bytes, #[trigger] magic_table()[k].0),
    ensures
        guess_format_spec(bytes) is None,
{
    reveal_with_fuel(first_match, 7);
    assert(!has_prefix(bytes, magic_table()[0].0));
    assert(!has_prefix(bytes, magic_table()[1].0));
    assert(!has_prefix(bytes, magic_table()[2].0));
    assert(!has_prefix(bytes, magic_table()[3].0));
    assert(!has_prefix(bytes, magic_table()[4].0));
    assert(!has_prefix(bytes, magic_table()[5].0));
}

/// Bytes that stop inside one of the known prefixes have no format.
pub proof fn lemma_cut_prefix_no_format(entry: int, n: int)
    requires
        0 <= entry < magic_table().len(),
        0 <= n < magic_table()[entry].0.len(),
    ensures
        guess_format_spec(magic_table()[entry].0.subrange(0, n)) is None,
{
    let bytes = magic_table()[entry].0.subrange(0, n);
    assert forall|k: int| 0 <= k < magic_table().len() implies !has_prefix(
        bytes,
        #[trigger] magic_table()[k].0,
    ) by {
        let other = magic_table()[k].0;
        if has_prefix(bytes, other) {
            assert(bytes.subrange(0, other.len() as int)[0] == other[0]);
            assert(bytes.subrange(0, other.len() as int)[1] == other[1]);
        }
    }
    lemma_no_prefix_no_format(bytes);
}

} // verus!
