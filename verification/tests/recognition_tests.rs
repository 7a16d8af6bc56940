use weather_fetcher::idokep_client::number_recognition::{
    get_char, get_number, is_valid_number, pixel_diff, NumberRecognition, RecognitionError,
    Template, TemplateSet,
};
use weather_fetcher::idokep_client::png::{Color, Png};

fn c(r: u8, g: u8, b: u8) -> Color {
    Color { red: r, green: g, blue: b }
}

/// A 2x2 glyph filled with one color, distinct per symbol.
fn uniform_template(symbol: char, fill: Color) -> Template {
    Template { symbol, grid: Png { pixels: vec![vec![fill, fill], vec![fill, fill]] } }
}

fn digit_fill(symbol: char) -> Color {
    match symbol {
        '0' => c(10, 0, 0),
        '1' => c(20, 0, 0),
        '2' => c(30, 0, 0),
        '3' => c(40, 0, 0),
        '4' => c(50, 0, 0),
        '5' => c(60, 0, 0),
        '6' => c(70, 0, 0),
        '7' => c(80, 0, 0),
        '8' => c(90, 0, 0),
        '9' => c(100, 0, 0),
        '.' => c(0, 110, 0),
        '-' => c(0, 0, 120),
        _ => panic!("no template for this symbol"),
    }
}

fn template_set() -> TemplateSet {
    let symbols = ['0', '1', '2', '3', '4', '5', '6', '7', '8', '9', '.', '-'];
    TemplateSet {
        templates: symbols.iter().map(|&s| uniform_template(s, digit_fill(s))).collect(),
    }
}

/// The grids of the given symbols laid side by side with no gap.
fn concat_glyphs(symbols: &[char]) -> Png {
    let mut rows: Vec<Vec<Color>> = vec![Vec::new(), Vec::new()];
    for &s in symbols {
        let fill = digit_fill(s);
        for row in rows.iter_mut() {
            row.push(fill);
            row.push(fill);
        }
    }
    Png { pixels: rows }
}

#[test]
fn recognizes_12_point_5() {
    let ts = template_set();
    let image = concat_glyphs(&['1', '2', '.', '5']);
    let text = NumberRecognition::extract_number(image, &ts).unwrap();
    assert_eq!(text, "12.5");
    assert_eq!(text.parse::<f64>().unwrap(), 12.5);
}

#[test]
fn recognizes_negative_value() {
    let ts = template_set();
    let image = concat_glyphs(&['-', '3', '.', '2']);
    let text = NumberRecognition::extract_number(image, &ts).unwrap();
    assert_eq!(text, "-3.2");
    assert_eq!(text.parse::<f64>().unwrap(), -3.2);
}

#[test]
fn recognition_survives_white_border() {
    let ts = template_set();
    let inner = concat_glyphs(&['4', '0']);
    let w = c(255, 255, 255);
    let width = inner.pixels[0].len();
    let mut pixels = Vec::new();
    pixels.push(vec![w; width + 2]);
    for row in inner.pixels {
        let mut padded = vec![w];
        padded.extend_from_slice(&row);
        padded.push(w);
        pixels.push(padded);
    }
    pixels.push(vec![w; width + 2]);
    let text = NumberRecognition::extract_number(Png { pixels }, &ts).unwrap();
    assert_eq!(text, "40");
}

#[test]
fn narrow_grid_is_recognition_error() {
    let ts = template_set();
    // One pixel wide: narrower than every 2-pixel-wide template.
    let image = Png { pixels: vec![vec![c(1, 2, 3)], vec![c(4, 5, 6)]] };
    let err = NumberRecognition::extract_number(image, &ts).unwrap_err();
    assert_eq!(err, RecognitionError::NoMatch);
}

#[test]
fn empty_after_trim_is_recognition_error() {
    let ts = template_set();
    let w = c(255, 255, 255);
    let image = Png { pixels: vec![vec![w, w], vec![w, w]] };
    let err = NumberRecognition::extract_number(image, &ts).unwrap_err();
    assert_eq!(err, RecognitionError::NoMatch);
}

#[test]
fn malformed_sequence_is_invalid_number() {
    // Only the minus template exists, so a 2-glyph strip reads "--",
    // which is not a numeric literal.
    let ts = TemplateSet { templates: vec![uniform_template('-', c(0, 0, 120))] };
    let image = concat_glyphs(&['-', '-']);
    let err = NumberRecognition::extract_number(image, &ts).unwrap_err();
    assert_eq!(err, RecognitionError::InvalidNumber);
}

#[test]
fn get_char_picks_smallest_dissimilarity() {
    let ts = template_set();
    let image = concat_glyphs(&['7']);
    let (ch, next) = get_char(0, &image, &ts).unwrap();
    assert_eq!(ch, '7');
    assert_eq!(next, 2);
}

#[test]
fn get_char_breaks_ties_by_collection_order() {
    let fill = c(33, 44, 55);
    let ts = TemplateSet {
        templates: vec![uniform_template('8', fill), uniform_template('9', fill)],
    };
    let image = Png { pixels: vec![vec![fill, fill], vec![fill, fill]] };
    let (ch, _) = get_char(0, &image, &ts).unwrap();
    assert_eq!(ch, '8');
}

#[test]
fn get_char_ignores_templates_that_do_not_fit() {
    let fill = c(33, 44, 55);
    let wide = Template {
        symbol: 'w',
        grid: Png { pixels: vec![vec![fill; 4], vec![fill; 4]] },
    };
    let ts = TemplateSet { templates: vec![wide, uniform_template('2', c(30, 0, 0))] };
    let image = concat_glyphs(&['2']);
    let (ch, _) = get_char(0, &image, &ts).unwrap();
    assert_eq!(ch, '2');
}

#[test]
fn get_number_requires_full_coverage() {
    let ts = template_set();
    // Three columns: one full glyph plus a leftover column no template fits.
    let fill = digit_fill('5');
    let image = Png {
        pixels: vec![vec![fill, fill, c(1, 1, 1)], vec![fill, fill, c(1, 1, 1)]],
    };
    let err = get_number(&image, &ts).unwrap_err();
    assert_eq!(err, RecognitionError::NoMatch);
}

#[test]
fn valid_number_shapes() {
    assert!(is_valid_number(&"12.5".chars().collect()));
    assert!(is_valid_number(&"-3.2".chars().collect()));
    assert!(is_valid_number(&"0".chars().collect()));
    assert!(is_valid_number(&"5.".chars().collect()));
    assert!(is_valid_number(&"-.5".chars().collect()));
    assert!(!is_valid_number(&"".chars().collect()));
    assert!(!is_valid_number(&"-".chars().collect()));
    assert!(!is_valid_number(&".".chars().collect()));
    assert!(!is_valid_number(&"--1".chars().collect()));
    assert!(!is_valid_number(&"1.2.3".chars().collect()));
    assert!(!is_valid_number(&"1-2".chars().collect()));
}

#[test]
fn pixel_diff_sums_squared_channel_differences() {
    assert_eq!(pixel_diff(&c(1, 2, 3), &c(4, 6, 8)), 9 + 16 + 25);
    assert_eq!(pixel_diff(&c(9, 9, 9), &c(9, 9, 9)), 0);
    assert_eq!(pixel_diff(&c(255, 0, 0), &c(0, 255, 0)), 2 * 255 * 255);
}
