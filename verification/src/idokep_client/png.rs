use vstd::prelude::*;

use crate::bit_utils::{be_u32_of, byte_to_4bits, high_nibble, low_nibble, ByteReader};

verus! {

/// One RGB pixel; channels are independent 8-bit values. Two colors are
/// equal exactly when all three channels match.
#[derive(Clone, Copy, PartialEq, Eq, Structural, Debug)]
pub struct Color {
    pub red: u8,
    pub green: u8,
    pub blue: u8,
}

/// The reference border color: maximum value on all three channels.
pub open spec fn is_white(c: Color) -> bool {
    c.red == 255 && c.green == 255 && c.blue == 255
}

impl Color {
    pub fn is_white(&self) -> (r: bool)
        ensures
            r == is_white(*self),
    {
        self.red == 255 && self.green == 255 && self.blue == 255
    }
}

/// Decoding fails fatally with one of these; no partial image is returned.
#[derive(Clone, Copy, PartialEq, Eq, Structural, Debug)]
pub enum PngError {
    /// Bad signature, truncated buffer, unknown color-type code,
    /// unsupported filter, undecodable compressed stream, or a palette
    /// chunk whose payload is not a whole number of color triplets.
    FormatError,
    /// An indexed sample with no corresponding palette entry.
    PaletteError,
}

/// A chunk's 4-byte type tag, classified.
#[derive(Clone, Copy, PartialEq, Eq, Structural, Debug)]
pub enum ChunkType {
    IHDR,
    PLTE,
    IDAT,
    IEND,
    NotRelevant,
}

/// The color-type codes this decoder recognizes. Pixel assembly is only
/// exercised for `IndexedColour` with bit depth 4.
#[derive(Clone, Copy, PartialEq, Eq, Structural, Debug)]
pub enum ColorType {
    GreyScale,
    TrueColor,
    IndexedColour,
    GreyScaleWithAlpha,
    TrueColorWithAlpha,
}

/// The fields of the image header chunk, in file order.
#[derive(Clone, Copy, PartialEq, Eq, Structural, Debug)]
pub struct ImageHeader {
    pub width: u32,
    pub height: u32,
    pub bit_depth: u8,
    pub color_type: ColorType,
    pub compression_method: u8,
    pub filter_method: u8,
    pub interlace_method: u8,
}

/// A chunk header: declared payload length plus classified type tag.
#[derive(Clone, Copy, PartialEq, Eq, Structural, Debug)]
pub(crate) struct ChunkHeader {
    pub(crate) chunk_length: u32,
    pub(crate) kind: ChunkType,
}

/// A decoded image: an ordered sequence of rows of pixels.
#[derive(Debug)]
pub struct Png {
    pub pixels: Vec<Vec<Color>>,
}

impl View for Png {
    type V = Seq<Seq<Color>>;

    open spec fn view(&self) -> Seq<Seq<Color>> {
        self.pixels@.map_values(|row: Vec<Color>| row@)
    }
}

/// The common row length of a grid; zero for an empty grid.
pub open spec fn grid_width(g: Seq<Seq<Color>>) -> int {
    if g.len() == 0 {
        0
    } else {
        g[0].len() as int
    }
}

/// A grid is rectangular: every row has the common length.
pub open spec fn grid_wf(g: Seq<Seq<Color>>) -> bool {
    forall|i: int| 0 <= i < g.len() ==> (#[trigger] g[i]).len() == grid_width(g)
}

impl Png {
    /// Row length; zero when the grid has no rows.
    pub fn width(&self) -> (r: usize)
        ensures
            r == grid_width(self@),
    {
        if self.pixels.len() == 0 {
            0
        } else {
            self.pixels[0].len()
        }
    }

    /// Number of rows.
    pub fn height(&self) -> (r: usize)
        ensures
            r == self@.len(),
    {
        self.pixels.len()
    }
}

/// The fixed 8-byte signature every PNG stream starts with.
pub open spec fn png_signature() -> Seq<u8> {
    seq![137u8, 80u8, 78u8, 71u8, 13u8, 10u8, 26u8, 10u8]
}

/// Classifies a 4-byte chunk type tag.
pub open spec fn chunk_type_of(tag: Seq<u8>) -> ChunkType
    recommends
        tag.len() == 4,
{
    if tag == seq![73u8, 72u8, 68u8, 82u8] {
        ChunkType::IHDR
    } else if tag == seq![80u8, 76u8, 84u8, 69u8] {
        ChunkType::PLTE
    } else if tag == seq![73u8, 68u8, 65u8, 84u8] {
        ChunkType::IDAT
    } else if tag == seq![73u8, 69u8, 78u8, 68u8] {
        ChunkType::IEND
    } else {
        ChunkType::NotRelevant
    }
}

/// Maps a color-type code to the enumerated set; unknown codes are a
/// format error.
pub open spec fn spec_color_type(code: u8) -> Option<ColorType> {
    if code == 0 {
        Some(ColorType::GreyScale)
    } else if code == 2 {
        Some(ColorType::TrueColor)
    } else if code == 3 {
        Some(ColorType::IndexedColour)
    } else if code == 4 {
        Some(ColorType::GreyScaleWithAlpha)
    } else if code == 6 {
        Some(ColorType::TrueColorWithAlpha)
    } else {
        None
    }
}

/// Parses the 13 payload bytes of a header chunk.
pub open spec fn spec_header_of(b: Seq<u8>) -> Option<ImageHeader>
    recommends
        b.len() == 13,
{
    match spec_color_type(b[9]) {
        None => None,
        Some(ct) => Some(
            ImageHeader {
                width: be_u32_of(b.subrange(0, 4)) as u32,
                height: be_u32_of(b.subrange(4, 8)) as u32,
                bit_depth: b[8],
                color_type: ct,
                compression_method: b[10],
                filter_method: b[11],
                interlace_method: b[12],
            },
        ),
    }
}

/// The palette encoded by a palette chunk's payload: one color per byte
/// triplet, in file order. Index 0 is the first triplet.
pub open spec fn palette_of(b: Seq<u8>) -> Seq<Color> {
    Seq::new((b.len() / 3) as nat, |i: int| Color {
        red: b[3 * i],
        green: b[3 * i + 1],
        blue: b[3 * i + 2],
    })
}

/// What the zlib stream `s` inflates to, or `None` when it is not a valid
/// stream. Named rather than defined: the inflate algorithm is far too
/// large to state, but its result depends on the bytes alone.
pub uninterp spec fn zlib_inflate(s: Seq<u8>) -> Option<Seq<u8>>;

/// Relies on libflate's zlib decoder (`zlib::Decoder::new` followed by
/// `read_to_end`): inflates a zlib stream, failing on a malformed header,
/// malformed deflate data, or a checksum mismatch. The outcome is a
/// function of the input bytes alone, named `zlib_inflate`.
#[verifier::external_body]
fn decompress(compressed_data: &[u8]) -> (r: Option<Vec<u8>>)
    ensures
        (r is Some) == (zlib_inflate(compressed_data@) is Some),
        r matches Some(v) ==> Some(v@) == zlib_inflate(compressed_data@),
{
    let mut decoder = match libflate::zlib::Decoder::new(compressed_data) {
        Ok(d) => d,
        Err(_) => return None,
    };
    let mut decoded_data: Vec<u8> = Vec::new();
    match std::io::Read::read_to_end(&mut decoder, &mut decoded_data) {
        Ok(_) => Some(decoded_data),
        Err(_) => None,
    }
}

/// Bytes per scanline: one filter-type byte plus two 4-bit samples per
/// byte, high nibble first.
pub open spec fn scanline_stride(width: int) -> int {
    1 + (width + 1) / 2
}

/// The 4-bit palette index of pixel (`row`, `col`) in the inflated data.
pub open spec fn sample_index(data: Seq<u8>, width: int, row: int, col: int) -> u8 {
    let b = data[row * scanline_stride(width) + 1 + col / 2];
    if col % 2 == 0 {
        high_nibble(b)
    } else {
        low_nibble(b)
    }
}

/// The outcome of de-filtering and palette-expanding one scanline:
/// a format error when the data runs out or the filter type is not
/// "None" (0), a palette error when a sample has no palette entry,
/// and the row of colors otherwise.
pub open spec fn row_status(data: Seq<u8>, width: int, palette: Seq<Color>, row: int) -> Result<
    Seq<Color>,
    PngError,
>
    recommends
        width >= 0,
        row >= 0,
{
    if data.len() < (row + 1) * scanline_stride(width) {
        Err(PngError::FormatError)
    } else if data[row * scanline_stride(width)] != 0 {
        Err(PngError::FormatError)
    } else if exists|c: int|
        0 <= c < width && palette.len() <= #[trigger] sample_index(data, width, row, c) {
        Err(PngError::PaletteError)
    } else {
        Ok(Seq::new(width as nat, |c: int| palette[sample_index(data, width, row, c) as int]))
    }
}

/// Scanlines `row..height`, processed top to bottom; the first failing
/// row decides the error.
pub open spec fn spec_unpack_rows(
    data: Seq<u8>,
    width: int,
    height: int,
    palette: Seq<Color>,
    row: int,
) -> Result<Seq<Seq<Color>>, PngError>
    decreases height - row,
{
    if row >= height {
        Ok(Seq::empty())
    } else {
        match row_status(data, width, palette, row) {
            Err(e) => Err(e),
            Ok(rowpix) => match spec_unpack_rows(data, width, height, palette, row + 1) {
                Err(e) => Err(e),
                Ok(rest) => Ok(seq![rowpix] + rest),
            },
        }
    }
}

/// What an image-data chunk's inflated payload decodes to under the given
/// dimensions and palette.
pub open spec fn spec_unpack(data: Seq<u8>, width: int, height: int, palette: Seq<Color>) -> Result<
    Seq<Seq<Color>>,
    PngError,
> {
    spec_unpack_rows(data, width, height, palette, 0)
}

/// The view of a vector of rows as a grid.
pub open spec fn rows_view(rows: Seq<Vec<Color>>) -> Seq<Seq<Color>> {
    rows.map_values(|r: Vec<Color>| r@)
}

/// Already-unpacked rows glued in front of the outcome for the remaining
/// rows; an error in the remainder stays an error.
pub open spec fn glue_rows(
    prefix: Seq<Seq<Color>>,
    rest: Result<Seq<Seq<Color>>, PngError>,
) -> Result<Seq<Seq<Color>>, PngError> {
    match rest {
        Ok(tail) => Ok(prefix + tail),
        Err(e) => Err(e),
    }
}

/// De-filters and palette-expands `height` scanlines of inflated image
/// data into a pixel grid. Each scanline is a filter-type byte (which
/// must be 0, "None") followed by `ceil(width/2)` bytes of packed 4-bit
/// palette indices, high nibble first, truncated to `width` samples.
#[verifier::loop_isolation(false)]
pub fn unpack_scanlines(data: &Vec<u8>, width: u32, height: u32, palette: &Vec<Color>) -> (r:
    Result<Vec<Vec<Color>>, PngError>)
    ensures
        match r {
            Ok(rows) => spec_unpack(data@, width as int, height as int, palette@)
                == Ok::<_, PngError>(rows_view(rows@)),
            Err(e) => spec_unpack(data@, width as int, height as int, palette@) == Err::<
                Seq<Seq<Color>>,
                _,
            >(e),
        },
{
    let ghost gw = width as int;
    let ghost gh = height as int;
    let stride: usize = 1 + (width as usize) / 2 + ((width as usize) % 2);
    proof {
        assert(stride == scanline_stride(gw));
    }
    let mut rows: Vec<Vec<Color>> = Vec::new();
    let mut row: u32 = 0;
    let mut pos: usize = 0;
    proof {
        let full = spec_unpack_rows(data@, gw, gh, palette@, 0);
        if full is Ok {
            assert(rows_view(rows@) + full.unwrap() =~= full.unwrap());
        }
    }
    while row < height
        invariant
            row <= height,
            pos == row * scanline_stride(gw),
            pos <= data@.len(),
            rows@.len() == row,
            spec_unpack_rows(data@, gw, gh, palette@, 0) == glue_rows(
                rows_view(rows@),
                spec_unpack_rows(data@, gw, gh, palette@, row as int),
            ),
        decreases height - row,
    {
        proof {
            assert((row as int + 1) * scanline_stride(gw) == row as int * scanline_stride(gw)
                + scanline_stride(gw)) by (nonlinear_arith);
        }
        if data.len() - pos < stride {
            return Err(PngError::FormatError);
        }
        let filter_byte = data[pos];
        if filter_byte != 0 {
            return Err(PngError::FormatError);
        }
        let mut rowv: Vec<Color> = Vec::new();
        let mut c: u32 = 0;
        while c < width
            invariant
                c <= width,
                rowv@.len() == c,
                pos == row * scanline_stride(gw),
                pos + stride <= data@.len(),
                row < height,
                data@[pos as int] == 0,
                forall|k: int|
                    0 <= k < c ==> palette@.len() > #[trigger] sample_index(data@, gw, row as int, k)
                        && rowv@[k] == palette@[sample_index(data@, gw, row as int, k) as int],
            decreases width - c,
        {
            let byte = data[pos + 1 + (c as usize) / 2];
            let bits = byte_to_4bits(byte);
            let idx = if c % 2 == 0 {
                bits[0]
            } else {
                bits[1]
            };
            proof {
                assert(idx == sample_index(data@, gw, row as int, c as int));
            }
            if palette.len() <= idx as usize {
                proof {
                    assert(palette@.len() <= sample_index(data@, gw, row as int, c as int));
                }
                return Err(PngError::PaletteError);
            }
            rowv.push(palette[idx as usize]);
            c = c + 1;
        }
        proof {
            assert(row_status(data@, gw, palette@, row as int) == Ok::<_, PngError>(
                Seq::new(gw as nat, |k: int| palette@[sample_index(data@, gw, row as int, k) as int]),
            ));
            assert(rowv@ =~= Seq::new(
                gw as nat,
                |k: int| palette@[sample_index(data@, gw, row as int, k) as int],
            ));
            let tail_here = spec_unpack_rows(data@, gw, gh, palette@, row as int);
            let tail_next = spec_unpack_rows(data@, gw, gh, palette@, row as int + 1);
            if tail_next is Ok {
                assert(rows_view(rows@) + (seq![rowv@] + tail_next.unwrap()) =~= rows_view(
                    rows@.push(rowv),
                ) + tail_next.unwrap());
            }
        }
        rows.push(rowv);
        pos = pos + stride;
        row = row + 1;
    }
    proof {
        assert(spec_unpack_rows(data@, gw, gh, palette@, row as int) == Ok::<_, PngError>(
            Seq::<Seq<Color>>::empty(),
        ));
        assert(rows_view(rows@) + Seq::<Seq<Color>>::empty() =~= rows_view(rows@));
    }
    Ok(rows)
}

/// What an image-data chunk contributes: a format error when no header
/// chunk has been seen or the payload does not inflate, else the unpacked
/// grid.
pub open spec fn idat_grid(
    payload: Seq<u8>,
    header: Option<ImageHeader>,
    palette: Seq<Color>,
) -> Result<Seq<Seq<Color>>, PngError> {
    match header {
        None => Err(PngError::FormatError),
        Some(h) => match zlib_inflate(payload) {
            None => Err(PngError::FormatError),
            Some(data) => spec_unpack(data, h.width as int, h.height as int, palette),
        },
    }
}

/// Chunk iteration from byte offset `pos`: each chunk is an 8-byte header
/// (4-byte big-endian payload length, 4-byte type tag), its payload, and a
/// 4-byte checksum that is skipped unread. An end chunk yields the pixels
/// assembled so far; a header chunk records the image header; a palette
/// chunk replaces the palette; an image-data chunk replaces the pixels;
/// anything else is skipped wholesale. Running out of buffer anywhere is a
/// format error.
pub open spec fn spec_parse_chunks(
    bytes: Seq<u8>,
    pos: int,
    header: Option<ImageHeader>,
    palette: Seq<Color>,
    pixels: Seq<Seq<Color>>,
) -> Result<Seq<Seq<Color>>, PngError>
    decreases bytes.len() - pos,
{
    if pos < 0 || pos + 8 > bytes.len() {
        Err(PngError::FormatError)
    } else {
        let len = be_u32_of(bytes.subrange(pos, pos + 4));
        let kind = chunk_type_of(bytes.subrange(pos + 4, pos + 8));
        if kind == ChunkType::IEND {
            Ok(pixels)
        } else if kind == ChunkType::IHDR {
            if pos + 25 > bytes.len() {
                Err(PngError::FormatError)
            } else {
                match spec_header_of(bytes.subrange(pos + 8, pos + 21)) {
                    None => Err(PngError::FormatError),
                    Some(h) => spec_parse_chunks(bytes, pos + 25, Some(h), palette, pixels),
                }
            }
        } else if kind == ChunkType::PLTE {
            if len % 3 != 0 {
                Err(PngError::FormatError)
            } else if pos + 12 + len > bytes.len() {
                Err(PngError::FormatError)
            } else {
                spec_parse_chunks(
                    bytes,
                    pos + 12 + len,
                    header,
                    palette_of(bytes.subrange(pos + 8, pos + 8 + len)),
                    pixels,
                )
            }
        } else if kind == ChunkType::IDAT {
            if pos + 12 + len > bytes.len() {
                Err(PngError::FormatError)
            } else {
                match idat_grid(bytes.subrange(pos + 8, pos + 8 + len), header, palette) {
                    Err(e) => Err(e),
                    Ok(g) => spec_parse_chunks(bytes, pos + 12 + len, header, palette, g),
                }
            }
        } else {
            if pos + 12 + len > bytes.len() {
                Err(PngError::FormatError)
            } else {
                spec_parse_chunks(bytes, pos + 12 + len, header, palette, pixels)
            }
        }
    }
}

/// What a whole byte buffer decodes to: a format error unless it starts
/// with the fixed 8-byte signature, else the result of chunk iteration.
pub open spec fn spec_decode(bytes: Seq<u8>) -> Result<Seq<Seq<Color>>, PngError> {
    if bytes.len() < 8 || bytes.subrange(0, 8) != png_signature() {
        Err(PngError::FormatError)
    } else {
        spec_parse_chunks(bytes, 8, None, Seq::empty(), Seq::empty())
    }
}

/// Streaming parser state: the cursor plus the header and palette seen so
/// far in this invocation.
pub(crate) struct Parser {
    pub(crate) reader: ByteReader,
    pub(crate) image_header: Option<ImageHeader>,
    pub(crate) palette: Vec<Color>,
}

impl Parser {
    pub(crate) fn from_bytes(bytes: Vec<u8>) -> (r: Self)
        requires
            bytes@.len() <= u32::MAX,
        ensures
            r.reader.content == bytes,
            r.reader.cursor_pos == 0,
            r.image_header is None,
            r.palette@.len() == 0,
    {
        Parser { reader: ByteReader { content: bytes, cursor_pos: 0 }, image_header: None, palette: Vec::new() }
    }

    fn skip_crc(&mut self)
        requires
            old(self).reader.wf(),
            4 <= old(self).reader.spec_remaining(),
        ensures
            final(self).reader.wf(),
            final(self).reader.content == old(self).reader.content,
            final(self).reader.cursor_pos == old(self).reader.cursor_pos + 4,
            final(self).image_header == old(self).image_header,
            final(self).palette == old(self).palette,
    {
        self.reader.skip_next(4);
    }

    fn skip_chunk(&mut self, chunk_header: &ChunkHeader)
        requires
            old(self).reader.wf(),
            chunk_header.chunk_length + 4 <= old(self).reader.spec_remaining(),
        ensures
            final(self).reader.wf(),
            final(self).reader.content == old(self).reader.content,
            final(self).reader.cursor_pos == old(self).reader.cursor_pos
                + chunk_header.chunk_length + 4,
            final(self).image_header == old(self).image_header,
            final(self).palette == old(self).palette,
    {
        self.reader.skip_next(chunk_header.chunk_length + 4);
    }

    fn read_next_chunk_header(&mut self) -> (r: ChunkHeader)
        requires
            old(self).reader.wf(),
            8 <= old(self).reader.spec_remaining(),
        ensures
            final(self).reader.wf(),
            final(self).reader.content == old(self).reader.content,
            final(self).reader.cursor_pos == old(self).reader.cursor_pos + 8,
            final(self).image_header == old(self).image_header,
            final(self).palette == old(self).palette,
            r.chunk_length == be_u32_of(old(self).reader.content@.subrange(
                old(self).reader.cursor_pos as int,
                old(self).reader.cursor_pos + 4,
            )),
            r.kind == chunk_type_of(old(self).reader.content@.subrange(
                old(self).reader.cursor_pos + 4,
                old(self).reader.cursor_pos + 8,
            )),
    {
        let chunk_length = self.reader.read_4_byte_value();
        let tag = self.reader.read_next(4);
        let kind = if tag[0] == 73 && tag[1] == 72 && tag[2] == 68 && tag[3] == 82 {
            proof {
                assert(tag@ =~= seq![73u8, 72u8, 68u8, 82u8]);
            }
            ChunkType::IHDR
        } else if tag[0] == 80 && tag[1] == 76 && tag[2] == 84 && tag[3] == 69 {
            proof {
                assert(tag@ =~= seq![80u8, 76u8, 84u8, 69u8]);
            }
            ChunkType::PLTE
        } else if tag[0] == 73 && tag[1] == 68 && tag[2] == 65 && tag[3] == 84 {
            proof {
                assert(tag@ =~= seq![73u8, 68u8, 65u8, 84u8]);
            }
            ChunkType::IDAT
        } else if tag[0] == 73 && tag[1] == 69 && tag[2] == 78 && tag[3] == 68 {
            proof {
                assert(tag@ =~= seq![73u8, 69u8, 78u8, 68u8]);
            }
            ChunkType::IEND
        } else {
            ChunkType::NotRelevant
        };
        ChunkHeader { chunk_length, kind }
    }

    fn parse_signature(&mut self) -> (r: Result<(), PngError>)
        requires
            old(self).reader.wf(),
            old(self).reader.cursor_pos == 0,
        ensures
            final(self).reader.wf(),
            final(self).reader.content == old(self).reader.content,
            final(self).image_header == old(self).image_header,
            final(self).palette == old(self).palette,
            match r {
                Ok(()) => final(self).reader.cursor_pos == 8 && old(self).reader.content@.len()
                    >= 8 && old(self).reader.content@.subrange(0, 8) == png_signature(),
                Err(e) => e == PngError::FormatError && (old(self).reader.content@.len() < 8 || old(
                    self,
                ).reader.content@.subrange(0, 8) != png_signature()),
            },
    {
        if self.reader.remaining() < 8 {
            return Err(PngError::FormatError);
        }
        let s = self.reader.read_next(8);
        if s[0] == 137 && s[1] == 80 && s[2] == 78 && s[3] == 71 && s[4] == 13 && s[5] == 10 && s[6]
            == 26 && s[7] == 10 {
            proof {
                assert(s@ =~= png_signature());
            }
            Ok(())
        } else {
            Err(PngError::FormatError)
        }
    }

    fn parse_ihdr(&mut self) -> (r: Result<(), PngError>)
        requires
            old(self).reader.wf(),
            17 <= old(self).reader.spec_remaining(),
        ensures
            final(self).reader.wf(),
            final(self).reader.content == old(self).reader.content,
            final(self).palette == old(self).palette,
            ({
                let b = old(self).reader.content@.subrange(
                    old(self).reader.cursor_pos as int,
                    old(self).reader.cursor_pos + 13,
                );
                match r {
                    Ok(()) => spec_header_of(b) is Some && final(self).image_header
                        == spec_header_of(b) && final(self).reader.cursor_pos == old(
                        self,
                    ).reader.cursor_pos + 17,
                    Err(e) => e == PngError::FormatError && spec_header_of(b) is None,
                }
            }),
    {
        let ghost cur = self.reader.cursor_pos as int;
        let ghost b = self.reader.content@.subrange(cur, cur + 13);
        let width = self.reader.read_4_byte_value();
        let height = self.reader.read_4_byte_value();
        let bit_depth = self.reader.read_next_byte();
        let code = self.reader.read_next_byte();
        let color_type = if code == 0 {
            ColorType::GreyScale
        } else if code == 2 {
            ColorType::TrueColor
        } else if code == 3 {
            ColorType::IndexedColour
        } else if code == 4 {
            ColorType::GreyScaleWithAlpha
        } else if code == 6 {
            ColorType::TrueColorWithAlpha
        } else {
            return Err(PngError::FormatError);
        };
        let compression_method = self.reader.read_next_byte();
        let filter_method = self.reader.read_next_byte();
        let interlace_method = self.reader.read_next_byte();
        self.image_header = Some(
            ImageHeader {
                width,
                height,
                bit_depth,
                color_type,
                compression_method,
                filter_method,
                interlace_method,
            },
        );
        self.skip_crc();
        proof {
            assert(b.subrange(0, 4) =~= old(self).reader.content@.subrange(cur, cur + 4));
            assert(b.subrange(4, 8) =~= old(self).reader.content@.subrange(cur + 4, cur + 8));
        }
        Ok(())
    }

    #[verifier::loop_isolation(false)]
    fn parse_plte(&mut self, chunk_header: &ChunkHeader) -> (r: Vec<Color>)
        requires
            old(self).reader.wf(),
            chunk_header.chunk_length % 3 == 0,
            chunk_header.chunk_length + 4 <= old(self).reader.spec_remaining(),
        ensures
            final(self).reader.wf(),
            final(self).reader.content == old(self).reader.content,
            final(self).reader.cursor_pos == old(self).reader.cursor_pos
                + chunk_header.chunk_length + 4,
            final(self).image_header == old(self).image_header,
            final(self).palette == old(self).palette,
            r@ == palette_of(old(self).reader.content@.subrange(
                old(self).reader.cursor_pos as int,
                old(self).reader.cursor_pos + chunk_header.chunk_length,
            )),
    {
        let ghost cur = self.reader.cursor_pos as int;
        let ghost payload = self.reader.content@.subrange(cur, cur + chunk_header.chunk_length);
        let count = chunk_header.chunk_length / 3;
        let mut palette: Vec<Color> = Vec::new();
        let mut i: u32 = 0;
        while i < count
            invariant
                i <= count,
                self.reader.wf(),
                self.reader.content == old(self).reader.content,
                self.reader.cursor_pos == cur + 3 * i,
                self.image_header == old(self).image_header,
                self.palette == old(self).palette,
                palette@.len() == i,
                forall|j: int|
                    0 <= j < i ==> #[trigger] palette@[j] == (Color {
                        red: payload[3 * j],
                        green: payload[3 * j + 1],
                        blue: payload[3 * j + 2],
                    }),
            decreases count - i,
        {
            let red = self.reader.read_next_byte();
            let green = self.reader.read_next_byte();
            let blue = self.reader.read_next_byte();
            palette.push(Color { red, green, blue });
            i = i + 1;
        }
        self.skip_crc();
        proof {
            assert(palette@ =~= palette_of(payload));
        }
        palette
    }

    fn parse_idat(&mut self, chunk_header: &ChunkHeader) -> (r: Result<Vec<Vec<Color>>, PngError>)
        requires
            old(self).reader.wf(),
            chunk_header.chunk_length + 4 <= old(self).reader.spec_remaining(),
            old(self).image_header is Some,
        ensures
            final(self).reader.wf(),
            final(self).reader.content == old(self).reader.content,
            final(self).reader.cursor_pos == old(self).reader.cursor_pos
                + chunk_header.chunk_length + 4,
            final(self).image_header == old(self).image_header,
            final(self).palette == old(self).palette,
            ({
                let payload = old(self).reader.content@.subrange(
                    old(self).reader.cursor_pos as int,
                    old(self).reader.cursor_pos + chunk_header.chunk_length,
                );
                match r {
                    Ok(rows) => idat_grid(payload, old(self).image_header, old(self).palette@)
                        == Ok::<_, PngError>(rows_view(rows@)),
                    Err(e) => idat_grid(payload, old(self).image_header, old(self).palette@)
                        == Err::<Seq<Seq<Color>>, _>(e),
                }
            }),
    {
        let payload = self.reader.read_next(chunk_header.chunk_length);
        self.skip_crc();
        let data = match decompress(payload.as_slice()) {
            None => {
                return Err(PngError::FormatError);
            },
            Some(d) => d,
        };
        let h = self.image_header.unwrap();
        unpack_scanlines(&data, h.width, h.height, &self.palette)
    }

    /// Decodes the whole buffer: signature, then chunks until an end chunk.
    #[verifier::loop_isolation(false)]
    pub(crate) fn parse_png(&mut self) -> (r: Result<Png, PngError>)
        requires
            old(self).reader.wf(),
            old(self).reader.cursor_pos == 0,
            old(self).image_header is None,
            old(self).palette@.len() == 0,
        ensures
            match r {
                Ok(png) => spec_decode(old(self).reader.content@) == Ok::<_, PngError>(png@),
                Err(e) => spec_decode(old(self).reader.content@) == Err::<Seq<Seq<Color>>, _>(e),
            },
    {
        let ghost bytes = self.reader.content@;
        let mut pixels: Vec<Vec<Color>> = Vec::new();
        match self.parse_signature() {
            Err(e) => {
                return Err(e);
            },
            Ok(()) => {},
        }
        proof {
            assert(old(self).palette@ =~= Seq::<Color>::empty());
            assert(rows_view(pixels@) =~= Seq::<Seq<Color>>::empty());
        }
        loop
            invariant
                self.reader.wf(),
                self.reader.content@ == bytes,
                spec_decode(bytes) == spec_parse_chunks(
                    bytes,
                    self.reader.cursor_pos as int,
                    self.image_header,
                    self.palette@,
                    rows_view(pixels@),
                ),
            decreases bytes.len() - self.reader.cursor_pos,
        {
            let remaining = self.reader.remaining();
            if remaining < 8 {
                return Err(PngError::FormatError);
            }
            let ghost pos = self.reader.cursor_pos as int;
            let ch = self.read_next_chunk_header();
            let remaining_after = remaining - 8;
            match ch.kind {
                ChunkType::IEND => {
                    return Ok(Png { pixels });
                },
                ChunkType::IHDR => {
                    if remaining_after < 17 {
                        return Err(PngError::FormatError);
                    }
                    proof {
                        assert(bytes.subrange(pos + 8, pos + 21) =~= self.reader.content@.subrange(
                            self.reader.cursor_pos as int,
                            self.reader.cursor_pos + 13,
                        ));
                    }
                    match self.parse_ihdr() {
                        Err(e) => {
                            return Err(e);
                        },
                        Ok(()) => {},
                    }
                },
                ChunkType::PLTE => {
                    if ch.chunk_length % 3 != 0 {
                        return Err(PngError::FormatError);
                    }
                    if (ch.chunk_length as u64) + 4 > (remaining_after as u64) {
                        return Err(PngError::FormatError);
                    }
                    proof {
                        assert(bytes.subrange(pos + 8, pos + 8 + ch.chunk_length)
                            =~= self.reader.content@.subrange(
                            self.reader.cursor_pos as int,
                            self.reader.cursor_pos + ch.chunk_length,
                        ));
                    }
                    let p = self.parse_plte(&ch);
                    self.palette = p;
                },
                ChunkType::IDAT => {
                    if (ch.chunk_length as u64) + 4 > (remaining_after as u64) {
                        return Err(PngError::FormatError);
                    }
                    if self.image_header.is_none() {
                        return Err(PngError::FormatError);
                    }
                    proof {
                        assert(bytes.subrange(pos + 8, pos + 8 + ch.chunk_length)
                            =~= self.reader.content@.subrange(
                            self.reader.cursor_pos as int,
                            self.reader.cursor_pos + ch.chunk_length,
                        ));
                    }
                    match self.parse_idat(&ch) {
                        Err(e) => {
                            return Err(e);
                        },
                        Ok(rows) => {
                            pixels = rows;
                        },
                    }
                },
                ChunkType::NotRelevant => {
                    if (ch.chunk_length as u64) + 4 > (remaining_after as u64) {
                        return Err(PngError::FormatError);
                    }
                    self.skip_chunk(&ch);
                },
            }
        }
    }
}

/// Row `r` of the grid consists of white pixels only.
pub open spec fn row_white(g: Seq<Seq<Color>>, r: int) -> bool {
    forall|c: int| 0 <= c < g[r].len() ==> is_white(#[trigger] g[r][c])
}

/// Column `c` of the grid consists of white pixels only.
pub open spec fn col_white(g: Seq<Seq<Color>>, c: int) -> bool {
    forall|r: int| 0 <= r < g.len() ==> is_white(#[trigger] g[r][c])
}

/// How many consecutive all-white rows start at row `r`.
pub open spec fn white_rows_from(g: Seq<Seq<Color>>, r: int) -> int
    decreases g.len() - r when 0 <= r <= g.len()
{
    if r >= g.len() {
        0
    } else if row_white(g, r) {
        1 + white_rows_from(g, r + 1)
    } else {
        0
    }
}

/// How many consecutive all-white rows end just before row `r`.
pub open spec fn white_rows_before(g: Seq<Seq<Color>>, r: int) -> int
    decreases r when 0 <= r <= g.len()
{
    if r <= 0 {
        0
    } else if row_white(g, r - 1) {
        1 + white_rows_before(g, r - 1)
    } else {
        0
    }
}

/// How many consecutive all-white columns start at column `c`.
pub open spec fn white_cols_from(g: Seq<Seq<Color>>, c: int) -> int
    decreases grid_width(g) - c when 0 <= c <= grid_width(g)
{
    if c >= grid_width(g) {
        0
    } else if col_white(g, c) {
        1 + white_cols_from(g, c + 1)
    } else {
        0
    }
}

/// How many consecutive all-white columns end just before column `c`.
pub open spec fn white_cols_before(g: Seq<Seq<Color>>, c: int) -> int
    decreases c when 0 <= c <= grid_width(g)
{
    if c <= 0 {
        0
    } else if col_white(g, c - 1) {
        1 + white_cols_before(g, c - 1)
    } else {
        0
    }
}

/// The grid with every leading and trailing all-white row removed, then
/// every leading and trailing all-white column removed. A grid whose rows
/// are all white trims to the empty grid.
pub open spec fn trim_spec(g: Seq<Seq<Color>>) -> Seq<Seq<Color>> {
    let top = white_rows_from(g, 0);
    if top == g.len() {
        Seq::empty()
    } else {
        let bot = g.len() - white_rows_before(g, g.len() as int);
        let rows = g.subrange(top, bot);
        let left = white_cols_from(rows, 0);
        let right = grid_width(rows) - white_cols_before(rows, grid_width(rows));
        rows.map_values(|row: Seq<Color>| row.subrange(left, right))
    }
}

proof fn lemma_white_rows_from_props(g: Seq<Seq<Color>>, r: int)
    requires
        0 <= r <= g.len(),
    ensures
        ({
            let k = white_rows_from(g, r);
            0 <= k && r + k <= g.len() && (forall|q: int| r <= q < r + k ==> row_white(g, q)) && (r
                + k < g.len() ==> !row_white(g, r + k))
        }),
    decreases g.len() - r,
{
    if r < g.len() && row_white(g, r) {
        lemma_white_rows_from_props(g, r + 1);
    }
}

proof fn lemma_white_rows_before_props(g: Seq<Seq<Color>>, r: int)
    requires
        0 <= r <= g.len(),
    ensures
        ({
            let k = white_rows_before(g, r);
            0 <= k <= r && (forall|q: int| r - k <= q < r ==> row_white(g, q)) && (r - k > 0
                ==> !row_white(g, r - k - 1))
        }),
    decreases r,
{
    if r > 0 && row_white(g, r - 1) {
        lemma_white_rows_before_props(g, r - 1);
    }
}

proof fn lemma_white_cols_from_props(g: Seq<Seq<Color>>, c: int)
    requires
        0 <= c <= grid_width(g),
    ensures
        ({
            let k = white_cols_from(g, c);
            0 <= k && c + k <= grid_width(g) && (forall|q: int| c <= q < c + k ==> col_white(g, q))
                && (c + k < grid_width(g) ==> !col_white(g, c + k))
        }),
    decreases grid_width(g) - c,
{
    if c < grid_width(g) && col_white(g, c) {
        lemma_white_cols_from_props(g, c + 1);
    }
}

proof fn lemma_white_cols_before_props(g: Seq<Seq<Color>>, c: int)
    requires
        0 <= c <= grid_width(g),
    ensures
        ({
            let k = white_cols_before(g, c);
            0 <= k <= c && (forall|q: int| c - k <= q < c ==> col_white(g, q)) && (c - k > 0
                ==> !col_white(g, c - k - 1))
        }),
    decreases c,
{
    if c > 0 && col_white(g, c - 1) {
        lemma_white_cols_before_props(g, c - 1);
    }
}

/// Trimming keeps the grid rectangular, and when the result is non-empty
/// its first and last rows and columns each contain a non-white pixel.
pub proof fn lemma_trim_wf(g: Seq<Seq<Color>>)
    requires
        grid_wf(g),
    ensures
        grid_wf(trim_spec(g)),
        trim_spec(g).len() > 0 ==> {
            let t = trim_spec(g);
            &&& !row_white(t, 0)
            &&& !row_white(t, t.len() - 1)
            &&& !col_white(t, 0)
            &&& !col_white(t, grid_width(t) - 1)
            &&& grid_width(t) > 0
        },
{
    lemma_white_rows_from_props(g, 0);
    let top = white_rows_from(g, 0);
    if top == g.len() {
        assert(grid_wf(trim_spec(g)));
    } else {
        lemma_white_rows_before_props(g, g.len() as int);
        let bot = g.len() - white_rows_before(g, g.len() as int);
        // Row `top` is not all white, so the trailing white block ends above it.
        assert(!row_white(g, top));
        assert(top < bot);
        let rows = g.subrange(top, bot);
        assert(rows[0] == g[top]);
        let w = grid_width(rows);
        assert(w == grid_width(g));
        lemma_white_cols_from_props(rows, 0);
        let left = white_cols_from(rows, 0);
        let wc = choose|c: int| 0 <= c < g[top].len() && !is_white(g[top][c]);
        assert(!is_white(rows[0][wc]));
        assert(!col_white(rows, wc));
        assert(left <= wc);
        assert(left < w);
        assert(!col_white(rows, left));
        lemma_white_cols_before_props(rows, w);
        let right = w - white_cols_before(rows, w);
        assert(left < right);
        assert(!col_white(rows, right - 1));
        let t = trim_spec(g);
        assert(t.len() == bot - top);
        assert(forall|i: int| 0 <= i < t.len() ==> #[trigger] t[i] == rows[i].subrange(left, right));
        assert(grid_width(t) == right - left);
        assert(grid_wf(t));
        // The first and last rows keep a non-white pixel.
        assert(left <= wc < right);
        assert(t[0][wc - left] == rows[0][wc]);
        assert(!row_white(t, 0));
        let lastr = bot - top - 1;
        assert(rows[lastr] == g[bot - 1]);
        assert(!row_white(g, bot - 1));
        let wc2 = choose|c: int| 0 <= c < g[bot - 1].len() && !is_white(#[trigger] g[bot - 1][c]);
        assert(!col_white(rows, wc2)) by {
            assert(!is_white(rows[lastr][wc2]));
        }
        assert(left <= wc2 < right);
        assert(t[lastr][wc2 - left] == rows[lastr][wc2]);
        assert(!row_white(t, lastr));
        // The first and last columns keep a non-white pixel.
        let wr = choose|r: int| 0 <= r < rows.len() && !is_white(rows[r][left]);
        assert(t[wr][0] == rows[wr][left]);
        assert(!col_white(t, 0));
        let wr2 = choose|r: int| 0 <= r < rows.len() && !is_white(rows[r][right - 1]);
        assert(t[wr2][right - 1 - left] == rows[wr2][right - 1]);
        assert(!col_white(t, grid_width(t) - 1));
    }
}

/// Border trimming is idempotent: a trimmed grid has no all-white border
/// row or column left, so trimming it again changes nothing.
pub proof fn lemma_trim_idempotent(g: Seq<Seq<Color>>)
    requires
        grid_wf(g),
    ensures
        trim_spec(trim_spec(g)) == trim_spec(g),
{
    lemma_trim_wf(g);
    let t = trim_spec(g);
    if t.len() == 0 {
        assert(white_rows_from(t, 0) == 0);
        assert(trim_spec(t) =~= t);
    } else {
        assert(!row_white(t, 0));
        assert(white_rows_from(t, 0) == 0);
        assert(!row_white(t, t.len() - 1));
        assert(white_rows_before(t, t.len() as int) == 0);
        let rows = t.subrange(0, t.len() as int);
        assert(rows =~= t);
        assert(!col_white(t, 0));
        assert(white_cols_from(t, 0) == 0);
        assert(!col_white(t, grid_width(t) - 1));
        assert(white_cols_before(t, grid_width(t)) == 0);
        let w = grid_width(t);
        assert forall|i: int| 0 <= i < t.len() implies trim_spec(t)[i] == t[i] by {
            assert(trim_spec(t)[i] == t[i].subrange(0, w));
            assert(t[i].len() == w);
            assert(t[i].subrange(0, w) =~= t[i]);
        }
        assert(trim_spec(t) =~= t);
    }
}

/// A grid that is white everywhere trims to the empty grid.
pub proof fn lemma_uniform_white_trims_empty(g: Seq<Seq<Color>>)
    requires
        forall|r: int, c: int|
            0 <= r < g.len() && 0 <= c < #[trigger] g[r].len() ==> is_white(#[trigger] g[r][c]),
    ensures
        trim_spec(g) == Seq::<Seq<Color>>::empty(),
{
    lemma_white_rows_from_props(g, 0);
    assert(forall|r: int| 0 <= r < g.len() ==> row_white(g, r));
    assert(white_rows_from(g, 0) == g.len());
}

/// A buffer that does not start with the fixed 8-byte signature decodes
/// to a format error, never to a grid.
pub proof fn lemma_bad_signature_rejected(bytes: Seq<u8>)
    requires
        bytes.len() < 8 || bytes.subrange(0, 8) != png_signature(),
    ensures
        spec_decode(bytes) == Err::<Seq<Seq<Color>>, _>(PngError::FormatError),
{
}

proof fn lemma_unpack_rows_wf(data: Seq<u8>, width: int, height: int, palette: Seq<Color>, row: int)
    requires
        width >= 0,
    ensures
        spec_unpack_rows(data, width, height, palette, row) matches Ok(g) ==> grid_wf(g) && (
        forall|i: int| 0 <= i < g.len() ==> (#[trigger] g[i]).len() == width),
    decreases height - row,
{
    if row < height {
        lemma_unpack_rows_wf(data, width, height, palette, row + 1);
    }
}

proof fn lemma_parse_chunks_wf(
    bytes: Seq<u8>,
    pos: int,
    header: Option<ImageHeader>,
    palette: Seq<Color>,
    pixels: Seq<Seq<Color>>,
)
    requires
        grid_wf(pixels),
    ensures
        spec_parse_chunks(bytes, pos, header, palette, pixels) matches Ok(g) ==> grid_wf(g),
    decreases bytes.len() - pos,
{
    if !(pos < 0 || pos + 8 > bytes.len()) {
        let len = be_u32_of(bytes.subrange(pos, pos + 4));
        let kind = chunk_type_of(bytes.subrange(pos + 4, pos + 8));
        if kind == ChunkType::IEND {
        } else if kind == ChunkType::IHDR {
            if pos + 25 <= bytes.len() {
                match spec_header_of(bytes.subrange(pos + 8, pos + 21)) {
                    None => {},
                    Some(h) => {
                        lemma_parse_chunks_wf(bytes, pos + 25, Some(h), palette, pixels);
                    },
                }
            }
        } else if kind == ChunkType::PLTE {
            if len % 3 == 0 && pos + 12 + len <= bytes.len() {
                lemma_parse_chunks_wf(
                    bytes,
                    pos + 12 + len,
                    header,
                    palette_of(bytes.subrange(pos + 8, pos + 8 + len)),
                    pixels,
                );
            }
        } else if kind == ChunkType::IDAT {
            if pos + 12 + len <= bytes.len() {
                match idat_grid(bytes.subrange(pos + 8, pos + 8 + len), header, palette) {
                    Err(_) => {},
                    Ok(g2) => {
                        if header is Some && zlib_inflate(bytes.subrange(pos + 8, pos + 8 + len))
                            is Some {
                            let h = header.unwrap();
                            lemma_unpack_rows_wf(
                                zlib_inflate(bytes.subrange(pos + 8, pos + 8 + len)).unwrap(),
                                h.width as int,
                                h.height as int,
                                palette,
                                0,
                            );
                        }
                        lemma_parse_chunks_wf(bytes, pos + 12 + len, header, palette, g2);
                    },
                }
            }
        } else {
            if pos + 12 + len <= bytes.len() {
                lemma_parse_chunks_wf(bytes, pos + 12 + len, header, palette, pixels);
            }
        }
    }
}

/// A successfully decoded grid is rectangular.
pub proof fn lemma_decode_rectangular(bytes: Seq<u8>)
    ensures
        spec_decode(bytes) matches Ok(g) ==> grid_wf(g),
{
    if !(bytes.len() < 8 || bytes.subrange(0, 8) != png_signature()) {
        lemma_parse_chunks_wf(bytes, 8, None, Seq::empty(), Seq::empty());
    }
}

/// A decoded image or a fatal decode error, exactly as `spec_decode`
/// states it for the given bytes.
impl Png {
    pub fn from_bytes(bytes: Vec<u8>) -> (r: Result<Png, PngError>)
        requires
            bytes@.len() <= u32::MAX,
        ensures
            match r {
                Ok(p) => spec_decode(bytes@) == Ok::<_, PngError>(p@) && grid_wf(p@),
                Err(e) => spec_decode(bytes@) == Err::<Seq<Seq<Color>>, _>(e),
            },
    {
        proof {
            lemma_decode_rectangular(bytes@);
        }
        let mut parser = Parser::from_bytes(bytes);
        parser.parse_png()
    }

    /// Whether row `r` is entirely white.
    #[verifier::loop_isolation(false)]
    fn row_is_white(&self, r: usize) -> (res: bool)
        requires
            r < self@.len(),
        ensures
            res == row_white(self@, r as int),
    {
        let row = &self.pixels[r];
        let mut c: usize = 0;
        while c < row.len()
            invariant
                c <= row@.len(),
                forall|q: int| 0 <= q < c ==> is_white(#[trigger] self@[r as int][q]),
            decreases row@.len() - c,
        {
            if !row[c].is_white() {
                return false;
            }
            c = c + 1;
        }
        true
    }

    /// Whether column `c`, restricted to rows `top..bot`, is entirely white.
    #[verifier::loop_isolation(false)]
    fn col_is_white_in(&self, top: usize, bot: usize, c: usize) -> (res: bool)
        requires
            grid_wf(self@),
            top <= bot <= self@.len(),
            c < grid_width(self@),
        ensures
            res == col_white(self@.subrange(top as int, bot as int), c as int),
    {
        let ghost rows = self@.subrange(top as int, bot as int);
        let mut r: usize = top;
        while r < bot
            invariant
                top <= r <= bot,
                forall|q: int| 0 <= q < r - top ==> is_white(#[trigger] rows[q][c as int]),
            decreases bot - r,
        {
            proof {
                assert(self@[r as int] == self.pixels@[r as int]@);
                assert(self@[r as int].len() == grid_width(self@));
            }
            if !self.pixels[r][c].is_white() {
                proof {
                    assert(rows[r - top] == self@[r as int]);
                }
                return false;
            }
            r = r + 1;
        }
        true
    }

    /// Repeatedly removes any leading or trailing all-white row, and then
    /// any leading or trailing all-white column, until no uniform white
    /// border remains. A grid that is white everywhere becomes the empty
    /// grid. The result is still rectangular.
    pub fn remove_white_lines(&mut self)
        requires
            grid_wf(old(self)@),
        ensures
            final(self)@ == trim_spec(old(self)@),
    {
        let ghost g = self@;
        let height = self.height();
        let mut top: usize = 0;
        loop
            invariant
                self == old(self),
                g == self@,
                grid_wf(g),
                height == g.len(),
                top <= height,
                forall|q: int| 0 <= q < top ==> row_white(g, q),
            ensures
                top <= height,
                forall|q: int| 0 <= q < top ==> row_white(g, q),
                top == height || !row_white(g, top as int),
            decreases height - top,
        {
            if top == height {
                break ;
            }
            if !self.row_is_white(top) {
                break ;
            }
            top = top + 1;
        }
        proof {
            lemma_white_rows_from_props(g, 0);
            assert(white_rows_from(g, 0) == top);
        }
        if top == height {
            self.pixels = Vec::new();
            proof {
                assert(self@ =~= trim_spec(g));
            }
            return ;
        }
        let mut bot: usize = height;
        loop
            invariant
                self == old(self),
                g == self@,
                grid_wf(g),
                height == g.len(),
                top < height,
                !row_white(g, top as int),
                top < bot <= height,
                forall|q: int| bot <= q < height ==> row_white(g, q),
            ensures
                top < bot <= height,
                forall|q: int| bot <= q < height ==> row_white(g, q),
                !row_white(g, bot - 1),
            decreases bot,
        {
            if !self.row_is_white(bot - 1) {
                break ;
            }
            proof {
                if bot - 1 == top {
                    assert(false);
                }
            }
            bot = bot - 1;
        }
        proof {
            lemma_white_rows_before_props(g, g.len() as int);
            assert(white_rows_before(g, g.len() as int) == height - bot);
        }
        let ghost rows = g.subrange(top as int, bot as int);
        let width = self.width();
        proof {
            assert(rows[0] == g[top as int]);
            assert(grid_width(rows) == width);
        }
        let mut left: usize = 0;
        loop
            invariant
                self == old(self),
                g == self@,
                grid_wf(g),
                height == g.len(),
                top < bot <= height,
                rows == g.subrange(top as int, bot as int),
                width == grid_width(g),
                grid_width(rows) == width,
                left <= width,
                forall|q: int| 0 <= q < left ==> col_white(rows, q),
            ensures
                left <= width,
                forall|q: int| 0 <= q < left ==> col_white(rows, q),
                left == width || !col_white(rows, left as int),
            decreases width - left,
        {
            if left == width {
                break ;
            }
            if !self.col_is_white_in(top, bot, left) {
                break ;
            }
            left = left + 1;
        }
        proof {
            // Row `top` has a non-white pixel, so not every column is white.
            let wc = choose|c: int| 0 <= c < g[top as int].len() && !is_white(g[top as int][c]);
            assert(!is_white(rows[0][wc]));
            assert(!col_white(rows, wc));
            assert(left < width);
            lemma_white_cols_from_props(rows, 0);
            assert(white_cols_from(rows, 0) == left);
        }
        let mut right: usize = width;
        loop
            invariant
                self == old(self),
                g == self@,
                grid_wf(g),
                height == g.len(),
                top < bot <= height,
                rows == g.subrange(top as int, bot as int),
                width == grid_width(g),
                grid_width(rows) == width,
                left < width,
                !col_white(rows, left as int),
                left < right <= width,
                forall|q: int| right <= q < width ==> col_white(rows, q),
            ensures
                left < right <= width,
                forall|q: int| right <= q < width ==> col_white(rows, q),
                !col_white(rows, right - 1),
            decreases right,
        {
            if !self.col_is_white_in(top, bot, right - 1) {
                break ;
            }
            proof {
                if right - 1 == left {
                    assert(false);
                }
            }
            right = right - 1;
        }
        proof {
            lemma_white_cols_before_props(rows, width as int);
            assert(white_cols_before(rows, width as int) == width - right);
        }
        let mut out: Vec<Vec<Color>> = Vec::new();
        let mut r: usize = top;
        while r < bot
            invariant
                self == old(self),
                g == self@,
                grid_wf(g),
                height == g.len(),
                top < bot <= height,
                rows == g.subrange(top as int, bot as int),
                width == grid_width(g),
                left < right <= width,
                top <= r <= bot,
                out@.len() == r - top,
                forall|i: int| 0 <= i < r - top ==> #[trigger] out@[i]@ == rows[i].subrange(
                    left as int,
                    right as int,
                ),
            decreases bot - r,
        {
            let mut rowv: Vec<Color> = Vec::new();
            let mut c: usize = left;
            while c < right
                invariant
                    self == old(self),
                    g == self@,
                    grid_wf(g),
                    height == g.len(),
                    top < bot <= height,
                    width == grid_width(g),
                    left < right <= width,
                    top <= r < bot,
                    left <= c <= right,
                    rowv@.len() == c - left,
                    forall|j: int| 0 <= j < c - left ==> #[trigger] rowv@[j] == g[r as int][left
                        + j],
                decreases right - c,
            {
                proof {
                    assert(g[r as int] == self.pixels@[r as int]@);
                    assert(g[r as int].len() == grid_width(g));
                }
                rowv.push(self.pixels[r][c]);
                c = c + 1;
            }
            proof {
                assert(rows[r - top] == g[r as int]);
                assert(rowv@ =~= rows[r - top].subrange(left as int, right as int));
            }
            out.push(rowv);
            r = r + 1;
        }
        self.pixels = out;
        proof {
            let t = trim_spec(g);
            assert forall|i: int| 0 <= i < self@.len() implies self@[i] == t[i] by {
                assert(out@[i]@ == rows[i].subrange(left as int, right as int));
            }
            assert(self@ =~= t);
        }
    }
}

} // verus!

