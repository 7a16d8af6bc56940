use vstd::prelude::*;

use crate::idokep_client::png::{
    grid_wf, grid_width, lemma_trim_wf, trim_spec, Color, Png,
};

verus! {

/// Recognition fails fatally with one of these.
#[derive(Clone, Copy, PartialEq, Eq, Structural, Debug)]
pub enum RecognitionError {
    /// No candidate template fits at some offset.
    NoMatch,
    /// The assembled character sequence is not a numeric literal.
    InvalidNumber,
}

/// One reference glyph: the character it stands for and its pixel grid.
pub struct Template {
    pub symbol: char,
    pub grid: Png,
}

/// The fixed, ordered collection of reference glyphs. The order is the
/// tie-break priority: of two templates with equal dissimilarity the one
/// earlier in the collection wins.
pub struct TemplateSet {
    pub templates: Vec<Template>,
}

/// A usable template is rectangular, at least one pixel wide and high,
/// and small enough that dissimilarity sums stay within machine range.
pub open spec fn template_wf(t: Template) -> bool {
    grid_wf(t.grid@) && 1 <= grid_width(t.grid@) <= 0xFFFF && 1 <= t.grid@.len() <= 0xFFFF
}

pub open spec fn templates_wf(ts: Seq<Template>) -> bool {
    forall|i: int| 0 <= i < ts.len() ==> template_wf(#[trigger] ts[i])
}

impl TemplateSet {
    pub open spec fn wf(&self) -> bool {
        templates_wf(self.templates@)
    }
}

/// The squared difference of one 8-bit channel pair.
pub open spec fn channel_diff_sq(a: u8, b: u8) -> int {
    (a - b) * (a - b)
}

/// Squared per-channel dissimilarity of two pixels.
pub open spec fn pixel_diff_spec(a: Color, b: Color) -> int {
    channel_diff_sq(a.red, b.red) + channel_diff_sq(a.green, b.green) + channel_diff_sq(
        a.blue,
        b.blue,
    )
}

proof fn lemma_channel_diff_bounds(x: u8, y: u8)
    ensures
        0 <= channel_diff_sq(x, y) <= 65025,
{
    let d = x - y;
    assert(0 <= d * d <= 65025) by (nonlinear_arith)
        requires
            -255 <= d <= 255,
    ;
}

proof fn lemma_pixel_diff_bounds(a: Color, b: Color)
    ensures
        0 <= pixel_diff_spec(a, b) <= 195075,
{
    lemma_channel_diff_bounds(a.red, b.red);
    lemma_channel_diff_bounds(a.green, b.green);
    lemma_channel_diff_bounds(a.blue, b.blue);
}

fn channel_diff(a: u8, b: u8) -> (r: u32)
    ensures
        r == channel_diff_sq(a, b),
{
    let d: i32 = a as i32 - b as i32;
    proof {
        assert(0 <= d * d <= 65025) by (nonlinear_arith)
            requires
                -255 <= d <= 255,
        ;
    }
    (d * d) as u32
}

/// Sum of squared per-channel differences between two pixels.
pub fn pixel_diff(pixel1: &Color, pixel2: &Color) -> (r: u32)
    ensures
        r == pixel_diff_spec(*pixel1, *pixel2),
{
    proof {
        lemma_channel_diff_bounds(pixel1.red, pixel2.red);
        lemma_channel_diff_bounds(pixel1.green, pixel2.green);
        lemma_channel_diff_bounds(pixel1.blue, pixel2.blue);
    }
    channel_diff(pixel1.red, pixel2.red) + channel_diff(pixel1.green, pixel2.green) + channel_diff(
        pixel1.blue,
        pixel2.blue,
    )
}

/// Dissimilarity of the first `c` columns of a template row against the
/// image row at column offset `off`.
pub open spec fn row_score_to(trow: Seq<Color>, grow: Seq<Color>, off: int, c: int) -> int
    decreases c when c >= 0
{
    if c <= 0 {
        0
    } else {
        row_score_to(trow, grow, off, c - 1) + pixel_diff_spec(trow[c - 1], grow[off + c - 1])
    }
}

/// Dissimilarity of the first `r` rows of a template against the image
/// region at column offset `off`.
pub open spec fn region_score_to(t: Seq<Seq<Color>>, g: Seq<Seq<Color>>, off: int, r: int) -> int
    decreases r when r >= 0
{
    if r <= 0 {
        0
    } else {
        region_score_to(t, g, off, r - 1) + row_score_to(t[r - 1], g[r - 1], off, t[r - 1].len() as int)
    }
}

/// Dissimilarity of a whole template against the image region starting at
/// column `off`: the sum over every template pixel of the squared
/// per-channel differences.
pub open spec fn score_spec(t: Seq<Seq<Color>>, g: Seq<Seq<Color>>, off: int) -> int {
    region_score_to(t, g, off, t.len() as int)
}

proof fn lemma_row_score_bounds(trow: Seq<Color>, grow: Seq<Color>, off: int, c: int)
    requires
        0 <= c,
    ensures
        0 <= row_score_to(trow, grow, off, c) <= c * 195075,
    decreases c,
{
    if c > 0 {
        lemma_row_score_bounds(trow, grow, off, c - 1);
        lemma_pixel_diff_bounds(trow[c - 1], grow[off + c - 1]);
    }
}

/// Whether a template can be laid over the image at column offset `off`:
/// it must fit within the remaining image width and within the image
/// height. Templates that do not fit are excluded from consideration.
pub open spec fn template_fits(t: Template, g: Seq<Seq<Color>>, off: int) -> bool {
    off + grid_width(t.grid@) <= grid_width(g) && t.grid@.len() <= g.len()
}

/// The best candidate among the first `n` templates: the fitting template
/// with the strictly smallest dissimilarity, earlier templates winning
/// ties. The result carries (symbol, template width, score).
pub open spec fn best_to(ts: Seq<Template>, g: Seq<Seq<Color>>, off: int, n: int) -> Option<
    (char, int, int),
>
    decreases n when n >= 0
{
    if n <= 0 {
        None
    } else {
        let prev = best_to(ts, g, off, n - 1);
        let t = ts[n - 1];
        if !template_fits(t, g, off) {
            prev
        } else {
            let sc = score_spec(t.grid@, g, off);
            match prev {
                None => Some((t.symbol, grid_width(t.grid@), sc)),
                Some(p) => if sc < p.2 {
                    Some((t.symbol, grid_width(t.grid@), sc))
                } else {
                    prev
                },
            }
        }
    }
}

/// The best candidate among all templates at column offset `off`.
pub open spec fn best_match(ts: Seq<Template>, g: Seq<Seq<Color>>, off: int) -> Option<
    (char, int, int),
> {
    best_to(ts, g, off, ts.len() as int)
}

proof fn lemma_best_to_props(ts: Seq<Template>, g: Seq<Seq<Color>>, off: int, n: int)
    requires
        0 <= n <= ts.len(),
    ensures
        match best_to(ts, g, off, n) {
            Some(p) => exists|i: int|
                0 <= i < n && template_fits(#[trigger] ts[i], g, off) && ts[i].symbol == p.0
                    && grid_width(ts[i].grid@) == p.1 && score_spec(ts[i].grid@, g, off) == p.2,
            None => forall|i: int| 0 <= i < n ==> !template_fits(#[trigger] ts[i], g, off),
        },
    decreases n,
{
    if n > 0 {
        lemma_best_to_props(ts, g, off, n - 1);
    }
}

/// The best-matching template at column offset `starting_pos`, with the
/// offset just past it. Candidates are tried in collection order and
/// replaced only on a strictly smaller dissimilarity, so the earliest
/// template wins ties. When no template fits, recognition fails.
pub fn get_char(starting_pos: usize, image: &Png, templates: &TemplateSet) -> (r: Result<
    (char, usize),
    RecognitionError,
>)
    requires
        grid_wf(image@),
        templates.wf(),
        starting_pos <= grid_width(image@),
    ensures
        ({
            let b = best_match(templates.templates@, image@, starting_pos as int);
            match r {
                Ok(cp) => b matches Some(p) && cp.0 == p.0 && cp.1 == starting_pos + p.1,
                Err(e) => b is None && e == RecognitionError::NoMatch,
            }
        }),
{
    let ghost ts = templates.templates@;
    let ghost g = image@;
    let ghost off = starting_pos as int;
    let iw = image.width();
    let ih = image.height();
    let mut best: Option<(char, usize)> = None;
    let mut best_score: u64 = 0;
    let n = templates.templates.len();
    let mut i: usize = 0;
    while i < n
        invariant
            grid_wf(g),
            templates_wf(ts),
            g == image@,
            ts == templates.templates@,
            off == starting_pos as int,
            starting_pos <= grid_width(g),
            iw == grid_width(g),
            ih == g.len(),
            n == ts.len(),
            i <= n,
            match best_to(ts, g, off, i as int) {
                None => best is None,
                Some(p) => best matches Some(b) && b.0 == p.0 && b.1 as int == p.1 && (
                best_score as int) == p.2,
            },
        decreases n - i,
    {
        let t = &templates.templates[i];
        let tw = t.grid.width();
        let th = t.grid.height();
        if tw <= iw - starting_pos && th <= ih {
            let ghost tg = t.grid@;
            proof {
                assert(template_fits(ts[i as int], g, off));
            }
            let mut sum: u64 = 0;
            let mut rr: usize = 0;
            while rr < th
                invariant
                    grid_wf(g),
                    g == image@,
                    t.grid@ == tg,
                    grid_wf(tg),
                    tw == grid_width(tg),
                    th == tg.len(),
                    1 <= tw <= 0xFFFF,
                    th <= 0xFFFF,
                    iw == grid_width(g),
                    ih == g.len(),
                    th <= ih,
                    off == starting_pos as int,
                    starting_pos + tw <= iw,
                    rr <= th,
                    sum == region_score_to(tg, g, off, rr as int),
                    sum <= rr * 12784240125,
                decreases th - rr,
            {
                let mut rowsum: u64 = 0;
                let mut cc: usize = 0;
                while cc < tw
                    invariant
                        grid_wf(g),
                        g == image@,
                        t.grid@ == tg,
                        grid_wf(tg),
                        tw == grid_width(tg),
                        th == tg.len(),
                        1 <= tw <= 0xFFFF,
                        iw == grid_width(g),
                        ih == g.len(),
                        th <= ih,
                        off == starting_pos as int,
                        starting_pos + tw <= iw,
                        rr < th,
                        cc <= tw,
                        rowsum == row_score_to(tg[rr as int], g[rr as int], off, cc as int),
                        rowsum <= cc * 195075,
                    decreases tw - cc,
                {
                    proof {
                        assert(tg[rr as int] == t.grid.pixels@[rr as int]@);
                        assert(tg[rr as int].len() == tw);
                        assert(g[rr as int] == image.pixels@[rr as int]@);
                        assert(g[rr as int].len() == grid_width(g));
                        lemma_pixel_diff_bounds(tg[rr as int][cc as int], g[rr as int][off + cc]);
                    }
                    let d = pixel_diff(&t.grid.pixels[rr][cc], &image.pixels[rr][starting_pos + cc]);
                    rowsum = rowsum + (d as u64);
                    cc = cc + 1;
                }
                proof {
                    lemma_row_score_bounds(tg[rr as int], g[rr as int], off, tw as int);
                }
                sum = sum + rowsum;
                rr = rr + 1;
            }
            proof {
                assert(sum == score_spec(tg, g, off));
            }
            let better = match best {
                None => true,
                Some(_) => sum < best_score,
            };
            if better {
                best = Some((t.symbol, tw));
                best_score = sum;
            }
        } else {
            proof {
                assert(!template_fits(ts[i as int], g, off));
            }
        }
        i = i + 1;
    }
    match best {
        None => Err(RecognitionError::NoMatch),
        Some((c, w)) => {
            proof {
                lemma_best_to_props(ts, g, off, n as int);
            }
            Ok((c, starting_pos + w))
        },
    }
}

/// Greedy left-to-right segmentation from column `off`: the best match is
/// appended and the offset advances by exactly its width, without
/// backtracking, until the offset reaches the image width. No fitting
/// candidate at some offset fails the whole recognition.
pub open spec fn recognize_from(ts: Seq<Template>, g: Seq<Seq<Color>>, off: int) -> Result<
    Seq<char>,
    RecognitionError,
>
    decreases grid_width(g) - off when off <= grid_width(g)
{
    match best_match(ts, g, off) {
        None => Err(RecognitionError::NoMatch),
        Some(p) => {
            if off + p.1 < grid_width(g) && p.1 >= 1 {
                match recognize_from(ts, g, off + p.1) {
                    Ok(rest) => Ok(seq![p.0] + rest),
                    Err(e) => Err(e),
                }
            } else {
                Ok(seq![p.0])
            }
        },
    }
}

/// Whether `c` is a decimal digit.
pub open spec fn is_digit_char(c: char) -> bool {
    '0' <= c <= '9'
}

/// The characters after an optional leading minus sign.
pub open spec fn literal_body(s: Seq<char>) -> Seq<char> {
    if s.len() > 0 && s[0] == '-' {
        s.subrange(1, s.len() as int)
    } else {
        s
    }
}

/// Digits with at most one decimal point among them, and at least one
/// digit.
pub open spec fn digits_wf(t: Seq<char>) -> bool {
    &&& t.len() >= 1
    &&& forall|i: int| 0 <= i < t.len() ==> is_digit_char(#[trigger] t[i]) || t[i] == '.'
    &&& exists|i: int| 0 <= i < t.len() && is_digit_char(#[trigger] t[i])
    &&& forall|i: int, j: int|
        0 <= i < j < t.len() ==> (((#[trigger] t[i]) != '.') || ((#[trigger] t[j]) != '.'))
}

/// A numeric literal: at most one leading minus, then digits with at most
/// one decimal point among them, and at least one digit.
pub open spec fn is_numeric_literal(s: Seq<char>) -> bool {
    digits_wf(literal_body(s))
}

/// What recognizing a whole trimmed grid yields: the greedily matched
/// character sequence when it forms a numeric literal, an error otherwise.
pub open spec fn recognize_spec(ts: Seq<Template>, g: Seq<Seq<Color>>) -> Result<
    Seq<char>,
    RecognitionError,
> {
    match recognize_from(ts, g, 0) {
        Err(e) => Err(e),
        Ok(s) => if is_numeric_literal(s) {
            Ok(s)
        } else {
            Err(RecognitionError::InvalidNumber)
        },
    }
}

/// Characters already matched glued in front of the outcome for the rest
/// of the image; an error stays an error.
pub open spec fn glue_chars(
    prefix: Seq<char>,
    rest: Result<Seq<char>, RecognitionError>,
) -> Result<Seq<char>, RecognitionError> {
    match rest {
        Ok(tail) => Ok(prefix + tail),
        Err(e) => Err(e),
    }
}

/// Whether the collected characters form a numeric literal: at most one
/// leading minus, digits, at most one decimal point, at least one digit.
#[verifier::loop_isolation(false)]
pub fn is_valid_number(v: &Vec<char>) -> (r: bool)
    ensures
        r == is_numeric_literal(v@),
{
    let ghost t = literal_body(v@);
    let n = v.len();
    let start: usize = if n > 0 && v[0] == '-' {
        1
    } else {
        0
    };
    proof {
        assert(t.len() == n - start);
        assert(forall|q: int| 0 <= q < t.len() ==> t[q] == v@[start + q]);
    }
    if n == start {
        return false;
    }
    let mut saw_digit: bool = false;
    let ghost mut digit_at: int = 0;
    let mut saw_dot: bool = false;
    let ghost mut dot_at: int = 0;
    let mut k: usize = start;
    while k < n
        invariant
            start <= k <= n,
            forall|q: int| 0 <= q < k - start ==> is_digit_char(#[trigger] t[q]) || t[q] == '.',
            saw_digit ==> 0 <= digit_at < k - start && is_digit_char(t[digit_at]),
            !saw_digit ==> forall|q: int| 0 <= q < k - start ==> !is_digit_char(#[trigger] t[q]),
            saw_dot ==> 0 <= dot_at < k - start && t[dot_at] == '.',
            saw_dot ==> forall|q: int| 0 <= q < k - start && q != dot_at ==> (#[trigger] t[q])
                != '.',
            !saw_dot ==> forall|q: int| 0 <= q < k - start ==> (#[trigger] t[q]) != '.',
        decreases n - k,
    {
        let c = v[k];
        proof {
            assert(t[k - start] == v@[k as int]);
        }
        if c == '.' {
            if saw_dot {
                proof {
                    assert(t[dot_at] == '.' && t[k - start] == '.' && dot_at < k - start);
                }
                return false;
            }
            saw_dot = true;
            proof {
                dot_at = k - start;
            }
        } else if '0' <= c && c <= '9' {
            if !saw_digit {
                saw_digit = true;
                proof {
                    digit_at = k - start;
                }
            }
        } else {
            proof {
                assert(!(is_digit_char(t[k - start]) || t[k - start] == '.'));
            }
            return false;
        }
        k = k + 1;
    }
    proof {
        if saw_digit {
            assert(0 <= digit_at < t.len() && is_digit_char(t[digit_at]));
            assert(exists|i: int| 0 <= i < t.len() && is_digit_char(#[trigger] t[i]));
        } else {
            assert(forall|q: int| 0 <= q < t.len() ==> !is_digit_char(#[trigger] t[q]));
        }
    }
    saw_digit
}

/// Relies on `String::push`: appends exactly one character.
#[verifier::external_body]
fn push_char(s: &mut String, c: char)
    ensures
        final(s)@ == old(s)@.push(c),
{
    s.push(c);
}

/// Recognizes the character sequence embedded in a trimmed grid: greedy
/// left-to-right matching from offset 0, then validation as a numeric
/// literal.
pub fn get_number(image: &Png, templates: &TemplateSet) -> (r: Result<String, RecognitionError>)
    requires
        grid_wf(image@),
        templates.wf(),
    ensures
        match r {
            Ok(s) => recognize_spec(templates.templates@, image@) == Ok::<_, RecognitionError>(s@),
            Err(e) => recognize_spec(templates.templates@, image@) == Err::<Seq<char>, _>(e),
        },
{
    let ghost ts = templates.templates@;
    let ghost g = image@;
    let width = image.width();
    let mut chars: Vec<char> = Vec::new();
    let mut pos: usize = 0;
    proof {
        if recognize_from(ts, g, 0) is Ok {
            assert(chars@ + recognize_from(ts, g, 0).unwrap() =~= recognize_from(
                ts,
                g,
                0,
            ).unwrap());
        }
    }
    loop
        invariant_except_break
            recognize_from(ts, g, 0) == glue_chars(chars@, recognize_from(ts, g, pos as int)),
        invariant
            grid_wf(g),
            templates_wf(ts),
            g == image@,
            ts == templates.templates@,
            width == grid_width(g),
            pos <= width,
        ensures
            recognize_from(ts, g, 0) == Ok::<_, RecognitionError>(chars@),
        decreases width - pos,
    {
        let ghost old_pos = pos as int;
        let ghost old_chars = chars@;
        match get_char(pos, image, templates) {
            Err(_) => {
                proof {
                    assert(recognize_from(ts, g, old_pos) == Err::<Seq<char>, _>(
                        RecognitionError::NoMatch,
                    ));
                }
                return Err(RecognitionError::NoMatch);
            },
            Ok((c, p)) => {
                proof {
                    lemma_best_to_props(ts, g, old_pos, ts.len() as int);
                }
                chars.push(c);
                pos = p;
                proof {
                    let bp = best_match(ts, g, old_pos).unwrap();
                    assert(pos == old_pos + bp.1 && c == bp.0);
                    assert(bp.1 >= 1);
                    assert(pos <= width);
                    if old_pos + bp.1 < width {
                        let rest = recognize_from(ts, g, pos as int);
                        if rest is Ok {
                            assert(recognize_from(ts, g, old_pos) == Ok::<_, RecognitionError>(
                                seq![c] + rest.unwrap(),
                            ));
                            assert(old_chars + (seq![c] + rest.unwrap()) =~= chars@
                                + rest.unwrap());
                        } else {
                            assert(recognize_from(ts, g, old_pos) == rest);
                        }
                    } else {
                        assert(recognize_from(ts, g, old_pos) == Ok::<_, RecognitionError>(
                            seq![c],
                        ));
                        assert(old_chars + seq![c] =~= chars@);
                    }
                }
                if pos >= width {
                    break ;
                }
            },
        }
    }
    if is_valid_number(&chars) {
        let mut digits = String::new();
        let mut i: usize = 0;
        while i < chars.len()
            invariant
                i <= chars@.len(),
                digits@ == chars@.subrange(0, i as int),
            decreases chars@.len() - i,
        {
            push_char(&mut digits, chars[i]);
            proof {
                assert(digits@ =~= chars@.subrange(0, i + 1));
            }
            i = i + 1;
        }
        proof {
            assert(digits@ =~= chars@);
        }
        Ok(digits)
    } else {
        Err(RecognitionError::InvalidNumber)
    }
}

/// Marker type owning the glyph-recognition entry point.
pub struct NumberRecognition;

impl NumberRecognition {
    /// Trims the uniform white border off the decoded image, then reads
    /// the embedded glyph sequence against the given templates. The
    /// resulting string is a numeric literal; parsing it into a machine
    /// number is the caller's concern.
    pub fn extract_number(mut png: Png, templates: &TemplateSet) -> (r: Result<
        String,
        RecognitionError,
    >)
        requires
            grid_wf(png@),
            templates.wf(),
        ensures
            match r {
                Ok(s) => recognize_spec(templates.templates@, trim_spec(png@)) == Ok::<
                    _,
                    RecognitionError,
                >(s@),
                Err(e) => recognize_spec(templates.templates@, trim_spec(png@)) == Err::<
                    Seq<char>,
                    _,
                >(e),
            },
    {
        proof {
            lemma_trim_wf(png@);
        }
        png.remove_white_lines();
        get_number(&png, templates)
    }
}

proof fn lemma_best_to_none(ts: Seq<Template>, g: Seq<Seq<Color>>, off: int, n: int)
    requires
        0 <= n <= ts.len(),
        forall|i: int| 0 <= i < ts.len() ==> !template_fits(#[trigger] ts[i], g, off),
    ensures
        best_to(ts, g, off, n) is None,
    decreases n,
{
    if n > 0 {
        lemma_best_to_none(ts, g, off, n - 1);
    }
}

/// A grid narrower than every template cannot be recognized: no candidate
/// fits at offset 0, so recognition fails with a recognition error.
pub proof fn lemma_narrow_grid_rejected(ts: Seq<Template>, g: Seq<Seq<Color>>)
    requires
        forall|i: int| 0 <= i < ts.len() ==> grid_width(g) < grid_width(#[trigger] ts[i].grid@),
    ensures
        recognize_spec(ts, g) == Err::<Seq<char>, _>(RecognitionError::NoMatch),
{
    assert forall|i: int| 0 <= i < ts.len() implies !template_fits(#[trigger] ts[i], g, 0) by {
        assert(grid_width(g) < grid_width(ts[i].grid@));
    }
    lemma_best_to_none(ts, g, 0, ts.len() as int);
    assert(recognize_from(ts, g, 0) == Err::<Seq<char>, _>(RecognitionError::NoMatch));
}

} // verus!

