use std::io::Write;

use weather_fetcher::idokep_client::png::{Color, Png, PngError};

fn chunk(tag: &[u8; 4], payload: &[u8]) -> Vec<u8> {
    let mut v = Vec::new();
    v.extend_from_slice(&(payload.len() as u32).to_be_bytes());
    v.extend_from_slice(tag);
    v.extend_from_slice(payload);
    v.extend_from_slice(&[0, 0, 0, 0]); // checksum bytes, skipped unread
    v
}

fn ihdr_payload(width: u32, height: u32, bit_depth: u8, color_type: u8) -> Vec<u8> {
    let mut p = Vec::new();
    p.extend_from_slice(&width.to_be_bytes());
    p.extend_from_slice(&height.to_be_bytes());
    p.push(bit_depth);
    p.push(color_type);
    p.push(0); // compression method
    p.push(0); // filter method
    p.push(0); // interlace method
    p
}

fn zlib_deflate(data: &[u8]) -> Vec<u8> {
    let mut encoder = libflate::zlib::Encoder::new(Vec::new()).unwrap();
    encoder.write_all(data).unwrap();
    encoder.finish().into_result().unwrap()
}

const SIGNATURE: [u8; 8] = [137, 80, 78, 71, 13, 10, 26, 10];

fn synthetic_png(palette: &[(u8, u8, u8)], width: u32, raw_scanlines: &[u8]) -> Vec<u8> {
    let mut bytes = Vec::new();
    bytes.extend_from_slice(&SIGNATURE);
    bytes.extend_from_slice(&chunk(
        b"IHDR",
        &ihdr_payload(width, raw_scanlines.len() as u32 / (1 + width.div_ceil(2)), 4, 3),
    ));
    let mut plte = Vec::new();
    for &(r, g, b) in palette {
        plte.push(r);
        plte.push(g);
        plte.push(b);
    }
    bytes.extend_from_slice(&chunk(b"PLTE", &plte));
    bytes.extend_from_slice(&chunk(b"IDAT", &zlib_deflate(raw_scanlines)));
    bytes.extend_from_slice(&chunk(b"IEND", &[]));
    bytes
}

fn c(r: u8, g: u8, b: u8) -> Color {
    Color { red: r, green: g, blue: b }
}

#[test]
fn decode_synthetic_png_bit_exact() {
    // One scanline, width 4, indices 0,1,2,0 packed two per byte,
    // high nibble first, preceded by the "None" filter byte.
    let palette = [(10, 20, 30), (40, 50, 60), (200, 100, 0)];
    let bytes = synthetic_png(&palette, 4, &[0, 0x01, 0x20]);
    let png = Png::from_bytes(bytes).unwrap();
    assert_eq!(
        png.pixels,
        vec![vec![c(10, 20, 30), c(40, 50, 60), c(200, 100, 0), c(10, 20, 30)]]
    );
}

#[test]
fn decode_two_scanlines_odd_width() {
    // Width 3: two bytes of samples per line, the low nibble of the last
    // byte is padding and must be dropped.
    let palette = [(1, 1, 1), (2, 2, 2), (3, 3, 3)];
    let bytes = synthetic_png(&palette, 3, &[0, 0x01, 0x2f, 0, 0x22, 0x0f]);
    let png = Png::from_bytes(bytes).unwrap();
    assert_eq!(
        png.pixels,
        vec![
            vec![c(1, 1, 1), c(2, 2, 2), c(3, 3, 3)],
            vec![c(3, 3, 3), c(3, 3, 3), c(1, 1, 1)],
        ]
    );
    assert_eq!(png.width(), 3);
    assert_eq!(png.height(), 2);
}

#[test]
fn bad_signature_is_format_error() {
    let bytes = b"certainly not a png".to_vec();
    assert_eq!(Png::from_bytes(bytes).unwrap_err(), PngError::FormatError);
    assert_eq!(Png::from_bytes(Vec::new()).unwrap_err(), PngError::FormatError);
    let mut almost = SIGNATURE.to_vec();
    almost[0] = 0;
    assert_eq!(Png::from_bytes(almost).unwrap_err(), PngError::FormatError);
}

#[test]
fn truncated_buffer_is_format_error() {
    // A valid signature with nothing after it: the chunk header cannot
    // be read.
    let bytes = SIGNATURE.to_vec();
    assert_eq!(Png::from_bytes(bytes).unwrap_err(), PngError::FormatError);
}

#[test]
fn chunk_length_past_end_is_format_error() {
    let mut bytes = SIGNATURE.to_vec();
    bytes.extend_from_slice(&chunk(b"IHDR", &ihdr_payload(4, 1, 4, 3)));
    // A chunk that claims more payload than the buffer holds.
    bytes.extend_from_slice(&[0, 0, 255, 255]);
    bytes.extend_from_slice(b"IDAT");
    bytes.push(9);
    assert_eq!(Png::from_bytes(bytes).unwrap_err(), PngError::FormatError);
}

#[test]
fn unknown_color_type_is_format_error() {
    let mut bytes = SIGNATURE.to_vec();
    bytes.extend_from_slice(&chunk(b"IHDR", &ihdr_payload(4, 1, 4, 7)));
    bytes.extend_from_slice(&chunk(b"IEND", &[]));
    assert_eq!(Png::from_bytes(bytes).unwrap_err(), PngError::FormatError);
}

#[test]
fn unsupported_filter_is_format_error() {
    let palette = [(1, 1, 1)];
    // Filter type 2 on the single scanline.
    let bytes = synthetic_png(&palette, 4, &[2, 0x00, 0x00]);
    assert_eq!(Png::from_bytes(bytes).unwrap_err(), PngError::FormatError);
}

#[test]
fn missing_palette_entry_is_palette_error() {
    // Index 2 is used but the palette has a single entry.
    let palette = [(1, 1, 1)];
    let bytes = synthetic_png(&palette, 4, &[0, 0x01, 0x20]);
    assert_eq!(Png::from_bytes(bytes).unwrap_err(), PngError::PaletteError);
}

#[test]
fn palette_not_triplets_is_format_error() {
    let mut bytes = SIGNATURE.to_vec();
    bytes.extend_from_slice(&chunk(b"IHDR", &ihdr_payload(4, 1, 4, 3)));
    bytes.extend_from_slice(&chunk(b"PLTE", &[1, 2, 3, 4]));
    bytes.extend_from_slice(&chunk(b"IEND", &[]));
    assert_eq!(Png::from_bytes(bytes).unwrap_err(), PngError::FormatError);
}

#[test]
fn irrelevant_chunks_are_skipped() {
    let palette = [(10, 20, 30), (40, 50, 60), (200, 100, 0)];
    let mut bytes = Vec::new();
    bytes.extend_from_slice(&SIGNATURE);
    bytes.extend_from_slice(&chunk(b"IHDR", &ihdr_payload(4, 1, 4, 3)));
    bytes.extend_from_slice(&chunk(b"tEXt", b"some metadata nobody reads"));
    let mut plte = Vec::new();
    for &(r, g, b) in &palette {
        plte.push(r);
        plte.push(g);
        plte.push(b);
    }
    bytes.extend_from_slice(&chunk(b"PLTE", &plte));
    bytes.extend_from_slice(&chunk(b"gAMA", &[0, 0, 177, 143]));
    bytes.extend_from_slice(&chunk(b"IDAT", &zlib_deflate(&[0, 0x01, 0x20])));
    bytes.extend_from_slice(&chunk(b"IEND", &[]));
    bytes.extend_from_slice(b"trailing garbage after the end chunk");
    let png = Png::from_bytes(bytes).unwrap();
    assert_eq!(
        png.pixels,
        vec![vec![c(10, 20, 30), c(40, 50, 60), c(200, 100, 0), c(10, 20, 30)]]
    );
}

#[test]
fn undecodable_image_data_is_format_error() {
    let mut bytes = SIGNATURE.to_vec();
    bytes.extend_from_slice(&chunk(b"IHDR", &ihdr_payload(4, 1, 4, 3)));
    bytes.extend_from_slice(&chunk(b"PLTE", &[1, 2, 3]));
    // Not a zlib stream at all.
    bytes.extend_from_slice(&chunk(b"IDAT", &[9, 9, 9, 9, 9]));
    bytes.extend_from_slice(&chunk(b"IEND", &[]));
    assert_eq!(Png::from_bytes(bytes).unwrap_err(), PngError::FormatError);
}

#[test]
fn image_data_before_header_is_format_error() {
    let mut bytes = SIGNATURE.to_vec();
    bytes.extend_from_slice(&chunk(b"IDAT", &zlib_deflate(&[0, 0x00, 0x00])));
    bytes.extend_from_slice(&chunk(b"IEND", &[]));
    assert_eq!(Png::from_bytes(bytes).unwrap_err(), PngError::FormatError);
}

#[test]
fn later_image_data_chunk_replaces_earlier() {
    let palette = [(1, 1, 1), (2, 2, 2)];
    let mut bytes = Vec::new();
    bytes.extend_from_slice(&SIGNATURE);
    bytes.extend_from_slice(&chunk(b"IHDR", &ihdr_payload(2, 1, 4, 3)));
    bytes.extend_from_slice(&chunk(b"PLTE", &[1, 1, 1, 2, 2, 2]));
    bytes.extend_from_slice(&chunk(b"IDAT", &zlib_deflate(&[0, 0x00])));
    bytes.extend_from_slice(&chunk(b"IDAT", &zlib_deflate(&[0, 0x11])));
    bytes.extend_from_slice(&chunk(b"IEND", &[]));
    let png = Png::from_bytes(bytes).unwrap();
    assert_eq!(png.pixels, vec![vec![c(2, 2, 2), c(2, 2, 2)]]);
}

#[test]
fn trim_removes_white_border_only() {
    let w = c(255, 255, 255);
    let x = c(0, 0, 0);
    // White border all around; an interior white column survives because
    // only uniform border rows and columns are trimmed.
    let mut png = Png {
        pixels: vec![
            vec![w, w, w, w, w],
            vec![w, x, w, x, w],
            vec![w, x, x, x, w],
            vec![w, w, w, w, w],
        ],
    };
    png.remove_white_lines();
    assert_eq!(png.pixels, vec![vec![x, w, x], vec![x, x, x]]);
}

#[test]
fn trim_is_idempotent_on_samples() {
    let w = c(255, 255, 255);
    let x = c(7, 8, 9);
    let samples = vec![
        vec![vec![w, w], vec![w, x]],
        vec![vec![x]],
        vec![vec![w, x, w]],
        vec![vec![w], vec![x], vec![w]],
        vec![vec![x, w, w, x]],
    ];
    for pixels in samples {
        let mut once = Png { pixels: pixels.clone() };
        once.remove_white_lines();
        let mut twice = Png { pixels: once.pixels.clone() };
        twice.remove_white_lines();
        assert_eq!(once.pixels, twice.pixels);
    }
}

#[test]
fn uniform_white_grid_trims_to_empty() {
    let w = c(255, 255, 255);
    let mut png = Png { pixels: vec![vec![w, w, w], vec![w, w, w]] };
    png.remove_white_lines();
    assert_eq!(png.pixels, Vec::<Vec<Color>>::new());
    assert_eq!(png.height(), 0);
    assert_eq!(png.width(), 0);
}

#[test]
fn width_and_height_report_dimensions() {
    let x = c(1, 2, 3);
    let png = Png { pixels: vec![vec![x, x, x], vec![x, x, x]] };
    assert_eq!(png.width(), 3);
    assert_eq!(png.height(), 2);
}
