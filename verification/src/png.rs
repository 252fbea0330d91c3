//! PNG images: the 8-byte signature followed by chunks, each a 4-byte
//! big-endian length, a 4-byte type, that many bytes of data and a 4-byte
//! CRC-32 of type and data.

use vstd::prelude::*;
use vstd::slice::slice_to_vec;
use crate::fields::{
    be_value,
    be_u32_bytes,
    be_u32_bytes_of,
    be_u32_value,
    lemma_be_u32_bytes_of_value,
    lemma_be_value_of_u32_bytes,
    lemma_be_value_4,
    split_off,
};
use crate::helper::{DecodeError, is_cut, is_failure};

verus! {

broadcast use Seq::lemma_flatten_push;

/// The PNG signature.
pub open spec fn png_magic() -> Seq<u8> {
    seq![137u8, 80u8, 78u8, 71u8, 13u8, 10u8, 26u8, 10u8]
}

/// The CRC-32 (ISO-HDLC, as PNG uses it) of `data`.
pub uninterp spec fn crc32_iso_hdlc(data: Seq<u8>) -> u32;

/// Calls `checksum` of `crc::Crc::<u32>` built on `crc::CRC_32_ISO_HDLC`; the
/// contract claims only that the result is a function of the bytes, named
/// `crc32_iso_hdlc`.
#[verifier::external_body]
fn png_crc(data: &[u8]) -> (r: u32)
    ensures
        r == crc32_iso_hdlc(data@),
{
    crc::Crc::<u32>::new(&crc::CRC_32_ISO_HDLC).checksum(data)
}

/// A PNG file split into its signature and the undivided bytes after it.
pub struct PngFile {
    pub magic: Vec<u8>,
    pub chunks: Vec<u8>,
}

/// The bytes of a `PngFile`'s two parts.
#[verifier::ext_equal]
pub struct SpecPngFile {
    pub magic: Seq<u8>,
    pub chunks: Seq<u8>,
}

impl View for PngFile {
    type V = SpecPngFile;

    open spec fn view(&self) -> SpecPngFile {
        SpecPngFile { magic: self.magic@, chunks: self.chunks@ }
    }
}

/// The file that `s` holds, if it opens with the signature.
pub open spec fn spec_parse_png_basic(s: Seq<u8>) -> Option<SpecPngFile> {
    if s.len() >= 8 && s.subrange(0, 8) == png_magic() {
        Some(SpecPngFile { magic: s.subrange(0, 8), chunks: s.subrange(8, s.len() as int) })
    } else {
        None
    }
}

/// Whether `s` opens with the PNG signature.
fn starts_with_magic(s: &[u8]) -> (r: bool)
    ensures
        r == (s@.len() >= 8 && s@.subrange(0, 8) == png_magic()),
{
    if s.len() < 8 {
        return false;
    }
    let magic: [u8; 8] = [137, 80, 78, 71, 13, 10, 26, 10];
    assert(magic@ =~= png_magic());
    let mut i: usize = 0;
    while i < 8
        invariant
            s@.len() >= 8,
            magic@ == png_magic(),
            i <= 8,
            forall|j: int| 0 <= j < i ==> s@[j] == png_magic()[j],
        decreases 8 - i,
    {
        if s[i] != magic[i] {
            assert(s@.subrange(0, 8)[i as int] != png_magic()[i as int]);
            return false;
        }
        i = i + 1;
    }
    assert(s@.subrange(0, 8) =~= png_magic());
    true
}

/// Parses a PNG file into its signature and the bytes after it.
pub fn parse_png_basic(input: &[u8]) -> (r: Option<PngFile>)
    ensures
        spec_parse_png_basic(input@) matches Some(f) ==> r matches Some(g) && g@ == f,
        spec_parse_png_basic(input@) is None ==> r is None,
{
    if !starts_with_magic(input) {
        return None;
    }
    let (rest, magic) = split_off(input, 8);
    let f = PngFile { magic, chunks: slice_to_vec(rest) };
    assert(f@ =~= spec_parse_png_basic(input@).unwrap());
    Some(f)
}

/// The bytes of a `PngFile`.
pub open spec fn spec_png_file_bytes(f: SpecPngFile) -> Seq<u8> {
    f.magic + f.chunks
}

impl PngFile {
    /// The bytes of the file.
    pub fn to_bytes(&self) -> (r: Vec<u8>)
        ensures
            r@ == spec_png_file_bytes(self@),
    {
        let mut out = self.magic.clone();
        out.extend_from_slice(self.chunks.as_slice());
        out
    }
}

/// A parsed file gives back exactly the bytes it was parsed from.
pub proof fn lemma_png_basic_parse_bytes(s: Seq<u8>)
    requires
        spec_parse_png_basic(s) is Some,
    ensures
        spec_png_file_bytes(spec_parse_png_basic(s).unwrap()) == s,
{
    assert(spec_png_file_bytes(spec_parse_png_basic(s).unwrap()) =~= s);
}

/// Cuts a chunk's data off `input`, given the value of `chunk_len` in the
/// context (`None` where the context lacks it).
pub fn chunk_data_decode_callbackfn<'a>(input: &'a [u8], chunk_len: Option<usize>) -> (r: Result<
    (&'a [u8], Vec<u8>),
    DecodeError,
>)
    requires
        chunk_len matches Some(n) ==> n <= input@.len(),
    ensures
        chunk_len is None ==> is_failure(r, DecodeError::SymbolNotInContext),
        chunk_len matches Some(n) ==> is_cut(r, input@, n as int),
{
    match chunk_len {
        None => Err(DecodeError::SymbolNotInContext),
        Some(n) => Ok(split_off(input, n)),
    }
}

/// A chunk, field by field.
pub struct PngChunk {
    pub chunk_len: Vec<u8>,
    pub chunk_type: Vec<u8>,
    pub chunk_data: Vec<u8>,
    pub chunk_crc: Vec<u8>,
}

/// The bytes of each field of a chunk.
#[verifier::ext_equal]
pub struct SpecPngChunk {
    pub chunk_len: Seq<u8>,
    pub chunk_type: Seq<u8>,
    pub chunk_data: Seq<u8>,
    pub chunk_crc: Seq<u8>,
}

impl View for PngChunk {
    type V = SpecPngChunk;

    open spec fn view(&self) -> SpecPngChunk {
        SpecPngChunk {
            chunk_len: self.chunk_len@,
            chunk_type: self.chunk_type@,
            chunk_data: self.chunk_data@,
            chunk_crc: self.chunk_crc@,
        }
    }
}

/// A PNG file divided into its chunks.
pub struct PngImage {
    pub magic: Vec<u8>,
    pub chunks: Vec<PngChunk>,
}

/// The signature and the chunks of a PNG file.
#[verifier::ext_equal]
pub struct SpecPngImage {
    pub magic: Seq<u8>,
    pub chunks: Seq<SpecPngChunk>,
}

/// The chunks of a vector, each by its view.
pub open spec fn chunks_view(v: Seq<PngChunk>) -> Seq<SpecPngChunk> {
    v.map_values(|c: PngChunk| c@)
}

impl View for PngImage {
    type V = SpecPngImage;

    open spec fn view(&self) -> SpecPngImage {
        SpecPngImage { magic: self.magic@, chunks: chunks_view(self.chunks@) }
    }
}

/// The length of the chunk at the start of `s`, where a whole one stands
/// there: 12 bytes and the data length that its first four bytes give.
pub open spec fn spec_chunk_size(s: Seq<u8>) -> Option<int> {
    if s.len() < 12 {
        None
    } else if 12 + be_value(s.subrange(0, 4)) <= s.len() {
        Some(12 + be_value(s.subrange(0, 4)) as int)
    } else {
        None
    }
}

/// The chunk at the start of `s` (meaningful where `spec_chunk_size(s)` is some).
pub open spec fn spec_parse_chunk(s: Seq<u8>) -> SpecPngChunk {
    let n = be_value(s.subrange(0, 4)) as int;
    SpecPngChunk {
        chunk_len: s.subrange(0, 4),
        chunk_type: s.subrange(4, 8),
        chunk_data: s.subrange(8, 8 + n),
        chunk_crc: s.subrange(8 + n, 12 + n),
    }
}

/// The chunks that `s` divides into exactly, one or more; none where it does
/// not.
pub open spec fn spec_parse_chunks(s: Seq<u8>) -> Option<Seq<SpecPngChunk>>
    decreases s.len(),
{
    match spec_chunk_size(s) {
        None => None,
        Some(k) => if k == s.len() {
            Some(seq![spec_parse_chunk(s)])
        } else {
            match spec_parse_chunks(s.subrange(k, s.len() as int)) {
                None => None,
                Some(cs) => Some(seq![spec_parse_chunk(s)] + cs),
            }
        },
    }
}

/// The image that `s` holds, if it holds one: the signature and then chunks
/// up to its end.
pub open spec fn spec_parse_png_chunks(s: Seq<u8>) -> Option<SpecPngImage> {
    match spec_parse_png_basic(s) {
        None => None,
        Some(f) => match spec_parse_chunks(f.chunks) {
            None => None,
            Some(cs) => Some(SpecPngImage { magic: f.magic, chunks: cs }),
        },
    }
}

/// The bytes of a chunk.
pub open spec fn spec_chunk_bytes(c: SpecPngChunk) -> Seq<u8> {
    c.chunk_len + c.chunk_type + c.chunk_data + c.chunk_crc
}

/// The bytes of a sequence of chunks.
pub open spec fn spec_chunks_bytes(cs: Seq<SpecPngChunk>) -> Seq<u8> {
    cs.map_values(|c: SpecPngChunk| spec_chunk_bytes(c)).flatten()
}

/// The bytes of an image.
pub open spec fn spec_png_image_bytes(img: SpecPngImage) -> Seq<u8> {
    img.magic + spec_chunks_bytes(img.chunks)
}

/// The size of the chunk at the start of `s`, if a whole one stands there.
fn chunk_size(s: &[u8]) -> (r: Option<usize>)
    ensures
        r matches Some(k) ==> spec_chunk_size(s@) == Some(k as int),
        r is None ==> spec_chunk_size(s@) is None,
{
    if s.len() < 12 {
        return None;
    }
    let (_, len_field) = split_off(s, 4);
    let n = be_u32_value(len_field.as_slice());
    if n > s.len() - 12 {
        None
    } else {
        Some(12 + n)
    }
}

/// Cuts the chunk that starts `s` off it.
fn parse_chunk<'a>(s: &'a [u8], k: usize) -> (r: (PngChunk, &'a [u8]))
    requires
        spec_chunk_size(s@) == Some(k as int),
    ensures
        r.0@ == spec_parse_chunk(s@),
        r.1@ == s@.subrange(k as int, s@.len() as int),
{
    let (rest, chunk_len) = split_off(s, 4);
    let (rest, chunk_type) = split_off(rest, 4);
    let n = be_u32_value(chunk_len.as_slice());
    let (rest, chunk_data) = chunk_data_decode_callbackfn(rest, Some(n)).unwrap();
    let (rest, chunk_crc) = split_off(rest, 4);
    let c = PngChunk { chunk_len, chunk_type, chunk_data, chunk_crc };
    assert(c@ =~= spec_parse_chunk(s@));
    assert(rest@ =~= s@.subrange(k as int, s@.len() as int));
    (c, rest)
}

/// The outcome of dividing into chunks after `done` ones were read.
pub open spec fn after_chunks(done: Seq<SpecPngChunk>, r: Option<Seq<SpecPngChunk>>) -> Option<
    Seq<SpecPngChunk>,
> {
    match r {
        None => None,
        Some(cs) => Some(done + cs),
    }
}

/// Divides `input` into chunks, exactly and one or more.
pub fn parse_chunks(input: &[u8]) -> (r: Option<Vec<PngChunk>>)
    ensures
        spec_parse_chunks(input@) matches Some(cs) ==> r matches Some(v) && chunks_view(v@) == cs,
        spec_parse_chunks(input@) is None ==> r is None,
{
    let mut chunks: Vec<PngChunk> = Vec::new();
    let mut rest = input;
    assert(chunks_view(chunks@) =~= Seq::<SpecPngChunk>::empty());
    loop
        invariant
            spec_parse_chunks(input@) == after_chunks(chunks_view(chunks@), spec_parse_chunks(rest@)),
        decreases rest@.len(),
    {
        let k = match chunk_size(rest) {
            None => return None,
            Some(k) => k,
        };
        let ghost before = chunks_view(chunks@);
        let ghost old_rest = rest@;
        let (c, after) = parse_chunk(rest, k);
        chunks.push(c);
        assert(chunks_view(chunks@) =~= before.push(c@));
        if k == rest.len() {
            assert(before + seq![c@] =~= chunks_view(chunks@));
            return Some(chunks);
        }
        rest = after;
        proof {
            match spec_parse_chunks(rest@) {
                None => {},
                Some(cs) => {
                    assert(before + (seq![c@] + cs) =~= chunks_view(chunks@) + cs);
                },
            }
        }
    }
}

/// Parses a PNG file into its signature and chunks.
pub fn parse_png_chunks(input: &[u8]) -> (r: Option<PngImage>)
    ensures
        spec_parse_png_chunks(input@) matches Some(img) ==> r matches Some(g) && g@ == img,
        spec_parse_png_chunks(input@) is None ==> r is None,
{
    let file = match parse_png_basic(input) {
        None => return None,
        Some(f) => f,
    };
    match parse_chunks(file.chunks.as_slice()) {
        None => None,
        Some(chunks) => {
            let img = PngImage { magic: file.magic, chunks };
            assert(img@ =~= spec_parse_png_chunks(input@).unwrap());
            Some(img)
        },
    }
}

impl PngChunk {
    /// The bytes of the chunk.
    pub fn to_bytes(&self) -> (r: Vec<u8>)
        ensures
            r@ == spec_chunk_bytes(self@),
    {
        let mut out = self.chunk_len.clone();
        out.extend_from_slice(self.chunk_type.as_slice());
        out.extend_from_slice(self.chunk_data.as_slice());
        out.extend_from_slice(self.chunk_crc.as_slice());
        out
    }
}

impl PngImage {
    /// The bytes of the image.
    pub fn to_bytes(&self) -> (r: Vec<u8>)
        ensures
            r@ == spec_png_image_bytes(self@),
    {
        let mut out = self.magic.clone();
        let ghost cs = chunks_view(self.chunks@);
        let ghost f = |c: SpecPngChunk| spec_chunk_bytes(c);
        let mut i: usize = 0;
        assert(out@ =~= self.magic@ + cs.take(0).map_values(f).flatten());
        while i < self.chunks.len()
            invariant
                i <= self.chunks@.len(),
                cs == chunks_view(self.chunks@),
                f == (|c: SpecPngChunk| spec_chunk_bytes(c)),
                out@ == self.magic@ + cs.take(i as int).map_values(f).flatten(),
            decreases self.chunks@.len() - i,
        {
            let b = self.chunks[i].to_bytes();
            out.extend_from_slice(b.as_slice());
            assert(cs.take(i + 1).map_values(f) =~= cs.take(i as int).map_values(f).push(
                spec_chunk_bytes(cs[i as int]),
            ));
            i = i + 1;
        }
        assert(cs.take(i as int) =~= cs);
        out
    }
}

/// The chunks that `s` divides into give back exactly `s`.
pub proof fn lemma_chunks_parse_bytes(s: Seq<u8>)
    requires
        spec_parse_chunks(s) is Some,
    ensures
        spec_chunks_bytes(spec_parse_chunks(s).unwrap()) == s,
    decreases s.len(),
{
    let f = |c: SpecPngChunk| spec_chunk_bytes(c);
    let k = spec_chunk_size(s).unwrap();
    let c = spec_parse_chunk(s);
    assert(spec_chunk_bytes(c) =~= s.subrange(0, k));
    if k == s.len() {
        assert(seq![c].map_values(f).len() == 1);
        seq![c].map_values(f).lemma_flatten_singleton();
        assert(seq![c].map_values(f).flatten() == spec_chunk_bytes(c));
        assert(s.subrange(0, k) =~= s);
    } else {
        let rest = s.subrange(k, s.len() as int);
        lemma_chunks_parse_bytes(rest);
        let cs = spec_parse_chunks(rest).unwrap();
        let all = seq![c] + cs;
        assert(all.map_values(f).drop_first() =~= cs.map_values(f));
        assert(spec_chunks_bytes(all) == spec_chunk_bytes(c) + spec_chunks_bytes(cs));
        assert(s.subrange(0, k) + rest =~= s);
    }
}

/// A parsed image gives back exactly the bytes it was parsed from.
pub proof fn lemma_png_chunks_parse_bytes(s: Seq<u8>)
    requires
        spec_parse_png_chunks(s) is Some,
    ensures
        spec_png_image_bytes(spec_parse_png_chunks(s).unwrap()) == s,
{
    let f = spec_parse_png_basic(s).unwrap();
    lemma_chunks_parse_bytes(f.chunks);
    assert(f.magic + f.chunks =~= s);
}

/// `c` with its CRC field set to the bytes of `crc`, most significant
/// first, and its length field to the length of its data, taken modulo 2^32.
pub open spec fn spec_chunk_with_crc(c: SpecPngChunk, crc: u32) -> SpecPngChunk {
    SpecPngChunk {
        chunk_len: be_u32_bytes((c.chunk_data.len() % 0x1_0000_0000) as u32),
        chunk_type: c.chunk_type,
        chunk_data: c.chunk_data,
        chunk_crc: be_u32_bytes(crc),
    }
}

/// `c` with its CRC and length fields computed from its type and data.
pub open spec fn spec_chunk_encode(c: SpecPngChunk) -> SpecPngChunk {
    spec_chunk_with_crc(c, crc32_iso_hdlc(c.chunk_type + c.chunk_data))
}

/// The CRC field of `c` holds the CRC of its type and data.
pub open spec fn chunk_crc_ok(c: SpecPngChunk) -> bool {
    c.chunk_crc == be_u32_bytes(crc32_iso_hdlc(c.chunk_type + c.chunk_data))
}

/// Sets the CRC field of `chunk` to the bytes of `crc` and its length field
/// to the length of its data.
pub fn chunk_with_crc(chunk: PngChunk, crc: u32) -> (r: PngChunk)
    ensures
        r@ == spec_chunk_with_crc(chunk@, crc),
{
    let len64 = chunk.chunk_data.len() as u64;
    let len32 = (len64 % 0x1_0000_0000) as u32;
    PngChunk {
        chunk_len: be_u32_bytes_of(len32),
        chunk_type: chunk.chunk_type,
        chunk_data: chunk.chunk_data,
        chunk_crc: be_u32_bytes_of(crc),
    }
}

/// Rewrites the CRC and the length field of a chunk from its type and data.
pub fn chunk_encode_callback(chunk: PngChunk) -> (r: PngChunk)
    ensures
        r@ == spec_chunk_encode(chunk@),
{
    let mut to_crc_bytes = chunk.chunk_type.clone();
    to_crc_bytes.extend_from_slice(chunk.chunk_data.as_slice());
    assert(to_crc_bytes@ =~= chunk.chunk_type@ + chunk.chunk_data@);
    let crc = png_crc(to_crc_bytes.as_slice());
    chunk_with_crc(chunk, crc)
}

/// The image with every chunk rewritten by `spec_chunk_encode`.
pub open spec fn spec_fix_png_image(img: SpecPngImage) -> SpecPngImage {
    SpecPngImage {
        magic: img.magic,
        chunks: img.chunks.map_values(|c: SpecPngChunk| spec_chunk_encode(c)),
    }
}

impl PngImage {
    /// Rewrites the CRC and length fields of every chunk.
    pub fn fix(&self) -> (r: PngImage)
        ensures
            r@ == spec_fix_png_image(self@),
    {
        let ghost cs = chunks_view(self.chunks@);
        let ghost enc = |c: SpecPngChunk| spec_chunk_encode(c);
        let mut out: Vec<PngChunk> = Vec::new();
        let mut i: usize = 0;
        while i < self.chunks.len()
            invariant
                i <= self.chunks@.len(),
                cs == chunks_view(self.chunks@),
                enc == (|c: SpecPngChunk| spec_chunk_encode(c)),
                chunks_view(out@) == cs.take(i as int).map_values(enc),
            decreases self.chunks@.len() - i,
        {
            let c = &self.chunks[i];
            let copy = PngChunk {
                chunk_len: c.chunk_len.clone(),
                chunk_type: c.chunk_type.clone(),
                chunk_data: c.chunk_data.clone(),
                chunk_crc: c.chunk_crc.clone(),
            };
            assert(copy@ =~= cs[i as int]);
            let e = chunk_encode_callback(copy);
            let ghost before = chunks_view(out@);
            out.push(e);
            assert(chunks_view(out@) =~= before.push(e@));
            assert(cs.take(i + 1).map_values(enc) =~= cs.take(i as int).map_values(enc).push(
                spec_chunk_encode(cs[i as int]),
            ));
            i = i + 1;
        }
        assert(cs.take(i as int) =~= cs);
        PngImage { magic: self.magic.clone(), chunks: out }
    }
}

/// Rewriting a chunk twice gives what rewriting it once gives.
pub proof fn lemma_chunk_encode_idempotent(c: SpecPngChunk)
    ensures
        spec_chunk_encode(spec_chunk_encode(c)) == spec_chunk_encode(c),
{
}

/// A chunk whose length field gives the length of its data and whose CRC
/// field holds the CRC of its type and data is left as it is by the rewrite.
pub proof fn lemma_chunk_encode_keeps_valid(c: SpecPngChunk)
    requires
        c.chunk_len.len() == 4,
        be_value(c.chunk_len) == c.chunk_data.len(),
        chunk_crc_ok(c),
    ensures
        spec_chunk_encode(c) == c,
{
    lemma_be_u32_bytes_of_value(c.chunk_len);
    assert(c.chunk_data.len() % 0x1_0000_0000 == c.chunk_data.len());
    assert(spec_chunk_encode(c) =~= c);
}

/// A rewritten chunk with a 4-byte type and at most 2^32 - 1 bytes of data
/// reads back, from its bytes, as that one chunk.
pub proof fn lemma_chunk_encode_parses_back(c: SpecPngChunk)
    requires
        c.chunk_type.len() == 4,
        c.chunk_data.len() <= u32::MAX,
    ensures
        spec_parse_chunks(spec_chunk_bytes(spec_chunk_encode(c))) == Some(seq![spec_chunk_encode(c)]),
{
    let e = spec_chunk_encode(c);
    let s = spec_chunk_bytes(e);
    lemma_be_value_of_u32_bytes((c.chunk_data.len() % 0x1_0000_0000) as u32);
    assert(s.subrange(0, 4) =~= e.chunk_len);
    assert(spec_chunk_size(s) == Some(s.len() as int));
    assert(spec_parse_chunk(s) =~= e);
}

/// Rewriting every chunk of an image parsed from `s`, whose chunks all hold
/// the right CRC, gives back exactly `s`.
pub proof fn lemma_fix_valid_png(s: Seq<u8>)
    requires
        spec_parse_png_chunks(s) is Some,
        forall|i: int|
            0 <= i < spec_parse_png_chunks(s).unwrap().chunks.len() ==> chunk_crc_ok(
                #[trigger] spec_parse_png_chunks(s).unwrap().chunks[i],
            ),
    ensures
        spec_png_image_bytes(spec_fix_png_image(spec_parse_png_chunks(s).unwrap())) == s,
{
    let img = spec_parse_png_chunks(s).unwrap();
    lemma_parsed_chunks_framed(spec_parse_png_basic(s).unwrap().chunks);
    assert forall|i: int| 0 <= i < img.chunks.len() implies spec_chunk_encode(#[trigger] img.chunks[i]) == img.chunks[i] by {
        lemma_chunk_encode_keeps_valid(img.chunks[i]);
    }
    assert(spec_fix_png_image(img) =~= img);
    lemma_png_chunks_parse_bytes(s);
}

/// Every chunk read from `s` has a 4-byte length field that gives the length
/// of its data.
pub proof fn lemma_parsed_chunks_framed(s: Seq<u8>)
    requires
        spec_parse_chunks(s) is Some,
    ensures
        forall|i: int|
            0 <= i < spec_parse_chunks(s).unwrap().len() ==> {
                &&& (#[trigger] spec_parse_chunks(s).unwrap()[i]).chunk_len.len() == 4
                &&& be_value(spec_parse_chunks(s).unwrap()[i].chunk_len)
                    == spec_parse_chunks(s).unwrap()[i].chunk_data.len()
            },
    decreases s.len(),
{
    let k = spec_chunk_size(s).unwrap();
    if k != s.len() {
        lemma_parsed_chunks_framed(s.subrange(k, s.len() as int));
    }
}

/// What the chunk grammar accepts, the basic grammar accepts too, with the
/// same signature, and the chunks are exactly the bytes that it leaves
/// undivided.
pub proof fn lemma_png_chunks_refines_basic(s: Seq<u8>)
    requires
        spec_parse_png_chunks(s) is Some,
    ensures
        spec_parse_png_basic(s) is Some,
        spec_parse_png_chunks(s).unwrap().magic == spec_parse_png_basic(s).unwrap().magic,
        spec_chunks_bytes(spec_parse_png_chunks(s).unwrap().chunks) == spec_parse_png_basic(
            s,
        ).unwrap().chunks,
{
    lemma_chunks_parse_bytes(spec_parse_png_basic(s).unwrap().chunks);
}

/// A chunk is well formed when its fields have the lengths that the format
/// gives them and its length field gives the length of its data.
pub open spec fn wf_chunk(c: SpecPngChunk) -> bool {
    &&& c.chunk_len.len() == 4
    &&& c.chunk_type.len() == 4
    &&& c.chunk_crc.len() == 4
    &&& c.chunk_data.len() == be_value(c.chunk_len)
}

/// An image is well formed when it opens with the signature and has one or
/// more chunks, all well formed.
pub open spec fn wf_png_image(img: SpecPngImage) -> bool {
    &&& img.magic == png_magic()
    &&& img.chunks.len() > 0
    &&& forall|i: int| 0 <= i < img.chunks.len() ==> wf_chunk(#[trigger] img.chunks[i])
}

/// One or more well-formed chunks parse back from their bytes to themselves.
pub proof fn lemma_chunks_bytes_parse(cs: Seq<SpecPngChunk>)
    requires
        cs.len() > 0,
        forall|i: int| 0 <= i < cs.len() ==> wf_chunk(#[trigger] cs[i]),
    ensures
        spec_parse_chunks(spec_chunks_bytes(cs)) == Some(cs),
    decreases cs.len(),
{
    let f = |c: SpecPngChunk| spec_chunk_bytes(c);
    let c = cs[0];
    let rest = cs.drop_first();
    let s = spec_chunks_bytes(cs);
    let b = spec_chunk_bytes(c);
    assert(wf_chunk(c));
    assert(cs.map_values(f).drop_first() =~= rest.map_values(f));
    assert(s == b + spec_chunks_bytes(rest));
    assert(s.subrange(0, 4) =~= c.chunk_len);
    assert(spec_chunk_size(s) == Some(b.len() as int));
    assert(spec_parse_chunk(s) =~= c);
    if rest.len() == 0 {
        assert(rest.map_values(f) =~= Seq::<Seq<u8>>::empty());
        assert(s =~= b);
        assert(seq![c] =~= cs);
    } else {
        assert forall|i: int| 0 <= i < rest.len() implies wf_chunk(#[trigger] rest[i]) by {
            assert(rest[i] == cs[i + 1]);
        }
        lemma_chunks_bytes_parse(rest);
        assert(s.subrange(b.len() as int, s.len() as int) =~= spec_chunks_bytes(rest));
        assert(seq![c] + rest =~= cs);
    }
}

/// A well-formed image parses back from its bytes to itself.
pub proof fn lemma_png_image_bytes_parse(img: SpecPngImage)
    requires
        wf_png_image(img),
    ensures
        spec_parse_png_chunks(spec_png_image_bytes(img)) == Some(img),
{
    let s = spec_png_image_bytes(img);
    lemma_chunks_bytes_parse(img.chunks);
    assert(s.subrange(0, 8) =~= img.magic);
    assert(s.subrange(8, s.len() as int) =~= spec_chunks_bytes(img.chunks));
    assert(spec_parse_png_chunks(s).unwrap() =~= img);
}

/// Re-encoding keeps a chunk's type and data, and writes four-byte length
/// and CRC fields that read, big-endian, as the data length modulo 2^32 and
/// as the CRC-32 of type and data, whatever the old fields held.
pub proof fn lemma_chunk_encode_fields(c: SpecPngChunk)
    ensures
        spec_chunk_encode(c).chunk_type == c.chunk_type,
        spec_chunk_encode(c).chunk_data == c.chunk_data,
        spec_chunk_encode(c).chunk_crc.len() == 4,
        be_value(spec_chunk_encode(c).chunk_crc) == crc32_iso_hdlc(c.chunk_type + c.chunk_data),
        spec_chunk_encode(c).chunk_len.len() == 4,
        be_value(spec_chunk_encode(c).chunk_len) == c.chunk_data.len() % 0x1_0000_0000,
        chunk_crc_ok(spec_chunk_encode(c)),
{
    lemma_chunk_with_crc_fields(c, crc32_iso_hdlc(c.chunk_type + c.chunk_data));
}

/// Setting a chunk's CRC to `crc` writes four bytes that read, big-endian,
/// as `crc`, and a length field that reads as the data length modulo 2^32.
pub proof fn lemma_chunk_with_crc_fields(c: SpecPngChunk, crc: u32)
    ensures
        spec_chunk_with_crc(c, crc).chunk_type == c.chunk_type,
        spec_chunk_with_crc(c, crc).chunk_data == c.chunk_data,
        spec_chunk_with_crc(c, crc).chunk_crc.len() == 4,
        be_value(spec_chunk_with_crc(c, crc).chunk_crc) == crc,
        spec_chunk_with_crc(c, crc).chunk_len.len() == 4,
        be_value(spec_chunk_with_crc(c, crc).chunk_len) == c.chunk_data.len() % 0x1_0000_0000,
{
    lemma_be_value_of_u32_bytes(crc);
    lemma_be_value_of_u32_bytes((c.chunk_data.len() % 0x1_0000_0000) as u32);
}

/// Fixing an image keeps its signature and number of chunks and re-encodes
/// every chunk: each chunk of the result is the re-encoding of the chunk at
/// the same place, and holds the CRC of its type and data and a length field
/// that gives its data length (modulo 2^32).
pub proof fn lemma_fix_encodes_every_chunk(img: SpecPngImage)
    ensures
        spec_fix_png_image(img).magic == img.magic,
        spec_fix_png_image(img).chunks.len() == img.chunks.len(),
        forall|i: int|
            0 <= i < img.chunks.len() ==> {
                &&& (#[trigger] spec_fix_png_image(img).chunks[i]) == spec_chunk_encode(img.chunks[i])
                &&& chunk_crc_ok(spec_fix_png_image(img).chunks[i])
                &&& spec_fix_png_image(img).chunks[i].chunk_type == img.chunks[i].chunk_type
                &&& spec_fix_png_image(img).chunks[i].chunk_data == img.chunks[i].chunk_data
                &&& be_value(spec_fix_png_image(img).chunks[i].chunk_crc) == crc32_iso_hdlc(
                    img.chunks[i].chunk_type + img.chunks[i].chunk_data,
                )
                &&& be_value(spec_fix_png_image(img).chunks[i].chunk_len)
                    == img.chunks[i].chunk_data.len() % 0x1_0000_0000
            },
{
    assert forall|i: int| 0 <= i < img.chunks.len() implies {
        &&& (#[trigger] spec_fix_png_image(img).chunks[i]) == spec_chunk_encode(img.chunks[i])
        &&& chunk_crc_ok(spec_fix_png_image(img).chunks[i])
        &&& spec_fix_png_image(img).chunks[i].chunk_type == img.chunks[i].chunk_type
        &&& spec_fix_png_image(img).chunks[i].chunk_data == img.chunks[i].chunk_data
        &&& be_value(spec_fix_png_image(img).chunks[i].chunk_crc) == crc32_iso_hdlc(
            img.chunks[i].chunk_type + img.chunks[i].chunk_data,
        )
        &&& be_value(spec_fix_png_image(img).chunks[i].chunk_len) == img.chunks[i].chunk_data.len()
            % 0x1_0000_0000
    } by {
        lemma_chunk_encode_fields(img.chunks[i]);
    }
}

/// The chunks read from `s` each have 4-byte length, type and CRC fields and
/// as many data bytes as the length field gives, big-endian, and together
/// they are `s`.
pub proof fn lemma_chunks_layout(s: Seq<u8>)
    requires
        spec_parse_chunks(s) is Some,
    ensures
        forall|i: int|
            0 <= i < spec_parse_chunks(s).unwrap().len() ==> {
                let c = #[trigger] spec_parse_chunks(s).unwrap()[i];
                &&& c.chunk_len.len() == 4
                &&& c.chunk_type.len() == 4
                &&& c.chunk_crc.len() == 4
                &&& c.chunk_data.len() == (c.chunk_len[0] as int) * 0x1000000 + (c.chunk_len[1] as int)
                    * 0x10000 + (c.chunk_len[2] as int) * 0x100 + (c.chunk_len[3] as int)
            },
        spec_chunks_bytes(spec_parse_chunks(s).unwrap()) == s,
    decreases s.len(),
{
    lemma_chunks_parse_bytes(s);
    let k = spec_chunk_size(s).unwrap();
    lemma_be_value_4(s.subrange(0, 4));
    let cs = spec_parse_chunks(s).unwrap();
    assert(cs[0] == spec_parse_chunk(s));
    if k != s.len() {
        let rest = s.subrange(k, s.len() as int);
        lemma_chunks_layout(rest);
        let tail = spec_parse_chunks(rest).unwrap();
        assert forall|i: int| 0 < i < cs.len() implies cs[i] == tail[i - 1] by {}
    }
}

/// A PNG file is read from `s` exactly where `s` opens with the bytes
/// 137 80 78 71 13 10 26 10; the rest of `s` is then its undivided chunks.
pub proof fn lemma_png_basic_layout(s: Seq<u8>)
    ensures
        spec_parse_png_basic(s) is Some <==> {
            &&& s.len() >= 8
            &&& s[0] == 137 && s[1] == 80 && s[2] == 78 && s[3] == 71
            &&& s[4] == 13 && s[5] == 10 && s[6] == 26 && s[7] == 10
        },
        spec_parse_png_basic(s) matches Some(f) ==> f.chunks == s.subrange(8, s.len() as int),
{
    if s.len() >= 8 {
        let m = s.subrange(0, 8);
        if m == png_magic() {
            assert(m[0] == png_magic()[0] && m[1] == png_magic()[1] && m[2] == png_magic()[2]);
            assert(m[3] == png_magic()[3] && m[4] == png_magic()[4] && m[5] == png_magic()[5]);
            assert(m[6] == png_magic()[6] && m[7] == png_magic()[7]);
        } else if s[0] == 137 && s[1] == 80 && s[2] == 78 && s[3] == 71 && s[4] == 13 && s[5] == 10
            && s[6] == 26 && s[7] == 10 {
            assert(m =~= png_magic());
        }
    }
}

} // verus!
