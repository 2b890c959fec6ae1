//! Geometry of drawn document content: run colours, paragraph heights and
//! the grid of a table.  Text measuring and drawing happen elsewhere; this
//! module turns measured sizes into positions.
use vstd::prelude::*;
use vstd::string::StringSliceAdditionalSpecFns;

verus! {

// ───────────────────────── colours ─────────────────────────

/// `b` is an ASCII hexadecimal digit.
pub open spec fn is_hex(b: u8) -> bool {
    (48 <= b <= 57) || (97 <= b <= 102) || (65 <= b <= 70)
}

/// The value of a hexadecimal digit.
pub open spec fn hex_value(b: u8) -> int {
    if 48 <= b <= 57 {
        b - 48
    } else if 97 <= b <= 102 {
        b - 87
    } else {
        b - 55
    }
}

/// What `u8::from_str_radix(s, 16)` gives for a two-byte text `[a, b]`: an
/// optional `+` sign, then hexadecimal digits; 0 when it fails.
pub open spec fn hex_pair(a: u8, b: u8) -> u8 {
    if a == 43 {
        if is_hex(b) {
            hex_value(b) as u8
        } else {
            0
        }
    } else if is_hex(a) && is_hex(b) {
        (hex_value(a) * 16 + hex_value(b)) as u8
    } else {
        0
    }
}

/// `s` without its leading `#` bytes.
pub open spec fn strip_hashes(s: Seq<u8>) -> Seq<u8>
    decreases s.len(),
{
    if s.len() > 0 && s[0] == 35 {
        strip_hashes(s.drop_first())
    } else {
        s
    }
}

/// A byte that continues a UTF-8 character.
pub open spec fn is_continuation(b: u8) -> bool {
    128 <= b <= 191
}

/// The colour text can be cut into byte pairs: when it has six bytes after
/// the `#`s, no character straddles a pair boundary.
pub open spec fn color_cuts_ok(text: Seq<u8>) -> bool {
    let t = strip_hashes(text);
    t.len() == 6 ==> !is_continuation(t[2]) && !is_continuation(t[4])
}

/// The RGBA colour of a hexadecimal colour text such as `#1F2E3D`: opaque
/// black unless it has exactly six bytes after its leading `#`s; each pair
/// that does not parse counts as 0.
pub open spec fn color_of(text: Seq<u8>) -> [u8; 4] {
    let t = strip_hashes(text);
    if t.len() == 6 {
        [hex_pair(t[0], t[1]), hex_pair(t[2], t[3]), hex_pair(t[4], t[5]), 255u8]
    } else {
        [0u8, 0u8, 0u8, 255u8]
    }
}

fn is_hex_exec(b: u8) -> (r: bool)
    ensures
        r == is_hex(b),
{
    (48 <= b && b <= 57) || (97 <= b && b <= 102) || (65 <= b && b <= 70)
}

fn hex_value_exec(b: u8) -> (r: u8)
    requires
        is_hex(b),
    ensures
        r == hex_value(b),
{
    if 48 <= b && b <= 57 {
        b - 48
    } else if 97 <= b && b <= 102 {
        b - 87
    } else {
        b - 55
    }
}

fn hex_pair_exec(a: u8, b: u8) -> (r: u8)
    ensures
        r == hex_pair(a, b),
{
    if a == 43 {
        if is_hex_exec(b) {
            hex_value_exec(b)
        } else {
            0
        }
    } else if is_hex_exec(a) && is_hex_exec(b) {
        hex_value_exec(a) * 16 + hex_value_exec(b)
    } else {
        0
    }
}

/// Parses a run colour written in hexadecimal, as RGBA.
pub fn parse_color(hex: &str) -> (r: [u8; 4])
    requires
        color_cuts_ok(hex.spec_bytes()),
    ensures
        r@ == color_of(hex.spec_bytes())@,
{
    let b = hex.as_bytes();
    let mut p: usize = 0;
    assert(b@.skip(0) =~= b@);
    while p < b.len() && b[p] == 35
        invariant
            p <= b@.len(),
            strip_hashes(b@) == strip_hashes(b@.skip(p as int)),
        decreases b.len() - p,
    {
        assert(b@.skip(p as int).drop_first() =~= b@.skip(p + 1));
        p = p + 1;
    }
    let ghost t = b@.skip(p as int);
    assert(strip_hashes(t) == t);
    if b.len() - p == 6 {
        let r = hex_pair_exec(b[p], b[p + 1]);
        let g = hex_pair_exec(b[p + 2], b[p + 3]);
        let bl = hex_pair_exec(b[p + 4], b[p + 5]);
        let c = [r, g, bl, 255u8];
        assert(c@ =~= color_of(hex.spec_bytes())@);
        c
    } else {
        let c = [0u8, 0u8, 0u8, 255u8];
        assert(c@ =~= color_of(hex.spec_bytes())@);
        c
    }
}

/// The byte of hexadecimal digit `d` (below 16) in lower case.
pub open spec fn lower_digit(d: int) -> int {
    if d < 10 {
        48 + d
    } else {
        87 + d
    }
}

/// The byte of hexadecimal digit `d` (below 16) in upper case.
pub open spec fn upper_digit(d: int) -> int {
    if d < 10 {
        48 + d
    } else {
        55 + d
    }
}

/// Law: every hexadecimal digit, `0`-`9`, `a`-`f` and `A`-`F`, is read as
/// its value, and no other byte is a digit.
pub proof fn law_hex_digits(b: u8)
    ensures
        forall|d: int|
            0 <= d < 16 ==> is_hex(lower_digit(d) as u8) && hex_value(#[trigger] lower_digit(d) as u8) == d
                && is_hex(upper_digit(d) as u8) && hex_value(upper_digit(d) as u8) == d,
        is_hex(b) ==> exists|d: int|
            #![trigger lower_digit(d)]
            #![trigger upper_digit(d)]
            0 <= d < 16 && (b == lower_digit(d) || b == upper_digit(d)),
{
    if is_hex(b) {
        let d: int = if b <= 57 {
            b - 48
        } else if b >= 97 {
            b - 87
        } else {
            b - 55
        };
        assert(0 <= d < 16 && (b == lower_digit(d) || b == upper_digit(d)));
    }
}

/// Law: a colour of six hexadecimal digits (upper or lower case) is read
/// pair by pair, each pair as the two-digit number it writes, fully
/// opaque.
pub proof fn law_six_digit_colour(t: Seq<u8>)
    requires
        t.len() == 6,
        forall|i: int| 0 <= i < 6 ==> is_hex(#[trigger] t[i]),
    ensures
        color_of(t)@ == seq![
            (16 * hex_value(t[0]) + hex_value(t[1])) as u8,
            (16 * hex_value(t[2]) + hex_value(t[3])) as u8,
            (16 * hex_value(t[4]) + hex_value(t[5])) as u8,
            255u8,
        ],
        forall|i: int| 0 <= i < 6 ==> 0 <= #[trigger] hex_value(t[i]) < 16,
{
    assert(is_hex(t[0]) && is_hex(t[1]) && is_hex(t[2]) && is_hex(t[3]) && is_hex(t[4]) && is_hex(t[5]));
    assert(strip_hashes(t) == t);
    assert(color_of(t)@ =~= seq![
        (16 * hex_value(t[0]) + hex_value(t[1])) as u8,
        (16 * hex_value(t[2]) + hex_value(t[3])) as u8,
        (16 * hex_value(t[4]) + hex_value(t[5])) as u8,
        255u8,
    ]);
}

// ───────────────────────── paragraph height ─────────────────────────

/// The number of lines a run of width `w` takes in a line of `max_width`
/// (at least one).
pub open spec fn run_lines(w: u32, max_width: u32) -> int {
    let w1 = if w < 1 { 1 } else { w as int };
    (w1 + max_width - 1) / max_width as int
}

/// The total height of the runs, each `(width, line height)` taking whole
/// lines.
pub open spec fn runs_height(runs: Seq<(u32, u32)>, max_width: u32) -> int
    decreases runs.len(),
{
    if runs.len() == 0 {
        0
    } else {
        runs_height(runs.drop_last(), max_width) + runs.last().1 * run_lines(runs.last().0, max_width)
    }
}

/// The runs can be measured without overflow: a line has a width when
/// there is a run to measure, every width rounds up within 32 bits, and so
/// does the total.
pub open spec fn runs_fit(runs: Seq<(u32, u32)>, max_width: u32) -> bool {
    &&& runs.len() > 0 ==> max_width > 0
    &&& forall|i: int| 0 <= i < runs.len() ==> (if (#[trigger] runs[i]).0 < 1 { 1 } else { runs[i].0 as int }) + max_width - 1 <= u32::MAX
    &&& runs_height(runs, max_width) <= u32::MAX
}

proof fn lemma_runs_height_grows(runs: Seq<(u32, u32)>, max_width: u32, k: int)
    requires
        max_width > 0,
        0 <= k <= runs.len(),
    ensures
        0 <= runs_height(runs.take(k), max_width) <= runs_height(runs, max_width),
    decreases runs.len() - k,
{
    if k < runs.len() {
        lemma_runs_height_grows(runs, max_width, k + 1);
        lemma_runs_height_nonneg(runs.take(k), max_width);
        assert(runs.take(k + 1).drop_last() =~= runs.take(k));
        let last = runs.take(k + 1).last();
        assert(last.1 * run_lines(last.0, max_width) >= 0) by (nonlinear_arith)
            requires
                run_lines(last.0, max_width) >= 0,
        ;
    } else {
        assert(runs.take(k) =~= runs);
        lemma_runs_height_nonneg(runs, max_width);
    }
}

proof fn lemma_runs_height_nonneg(runs: Seq<(u32, u32)>, max_width: u32)
    requires
        max_width > 0,
    ensures
        runs_height(runs, max_width) >= 0,
    decreases runs.len(),
{
    if runs.len() > 0 {
        lemma_runs_height_nonneg(runs.drop_last(), max_width);
        let last = runs.last();
        assert(last.1 * run_lines(last.0, max_width) >= 0) by (nonlinear_arith)
            requires
                run_lines(last.0, max_width) >= 0,
        ;
    }
}

/// Whether the runs can be measured in a line of `max_width` (the condition
/// of [`paragraph_height`]).
pub fn paragraph_fits(runs: &Vec<(u32, u32)>, max_width: u32) -> (r: bool)
    ensures
        r == runs_fit(runs@, max_width),
{
    if max_width == 0 {
        return runs.len() == 0;
    }
    let mut h: u64 = 0;
    let mut i: usize = 0;
    while i < runs.len()
        invariant
            i <= runs@.len(),
            max_width > 0,
            h == runs_height(runs@.take(i as int), max_width),
            h <= u32::MAX,
            forall|k: int|
                0 <= k < i ==> (if (#[trigger] runs@[k]).0 < 1 { 1 } else { runs@[k].0 as int }) + max_width - 1
                    <= u32::MAX,
        decreases runs.len() - i,
    {
        let (w, lh) = runs[i];
        assert(runs@[i as int] == (w, lh));
        let w1: u64 = if w < 1 { 1 } else { w as u64 };
        if w1 + (max_width as u64 - 1) > u32::MAX as u64 {
            return false;
        }
        let lines: u64 = (w1 + (max_width as u64 - 1)) / max_width as u64;
        assert(lines == run_lines(w, max_width));
        assert(lh as int * lines as int <= 0xffff_ffff * 0xffff_ffff) by (nonlinear_arith)
            requires
                lh <= 0xffff_ffff,
                lines <= 0xffff_ffff,
        ;
        let term: u64 = lh as u64 * lines;
        proof {
            assert(runs@.take(i + 1).drop_last() =~= runs@.take(i as int));
            lemma_runs_height_grows(runs@, max_width, i + 1);
        }
        if term > u32::MAX as u64 || h + term > u32::MAX as u64 {
            return false;
        }
        h = h + term;
        i = i + 1;
    }
    assert(runs@.take(runs@.len() as int) =~= runs@);
    true
}

/// The height of a paragraph from the sizes of its runs: each run takes as
/// many whole lines as its width needs; an empty paragraph is one pixel.
pub fn paragraph_height(runs: &Vec<(u32, u32)>, max_width: u32) -> (r: u32)
    requires
        runs_fit(runs@, max_width),
    ensures
        r == (if runs_height(runs@, max_width) < 1 { 1 } else { runs_height(runs@, max_width) }),
{
    let mut h: u32 = 0;
    let mut i: usize = 0;
    while i < runs.len()
        invariant
            i <= runs@.len(),
            runs_fit(runs@, max_width),
            h == runs_height(runs@.take(i as int), max_width),
        decreases runs.len() - i,
    {
        assert(max_width > 0);
        let (w, lh) = runs[i];
        let w1: u32 = if w < 1 { 1 } else { w };
        assert(runs@[i as int] == (w, lh));
        let lines: u32 = (w1 + (max_width - 1)) / max_width;
        proof {
            assert(runs@.take(i + 1).drop_last() =~= runs@.take(i as int));
            lemma_runs_height_grows(runs@, max_width, i + 1);
        }
        assert(lh as int * lines as int <= u32::MAX);
        h = h + lh * lines;
        i = i + 1;
    }
    assert(runs@.take(runs@.len() as int) =~= runs@);
    if h < 1 { 1 } else { h }
}

// ───────────────────────── runs ─────────────────────────

/// The colour of a run: its hexadecimal colour when it has one, otherwise
/// opaque black.
pub fn run_color(color: Option<&str>) -> (r: [u8; 4])
    requires
        color matches Some(c) ==> color_cuts_ok(c.spec_bytes()),
    ensures
        r@ == (match color {
            Some(c) => color_of(c.spec_bytes()),
            None => [0u8, 0u8, 0u8, 255u8],
        })@,
{
    match color {
        Some(c) => parse_color(c),
        None => {
            let black = [0u8, 0u8, 0u8, 255u8];
            assert(black@ =~= [0u8, 0u8, 0u8, 255u8]@);
            black
        },
    }
}

/// The texts of a run's text children, joined in order.
pub open spec fn joined_texts(texts: Seq<Seq<char>>) -> Seq<char>
    decreases texts.len(),
{
    if texts.len() == 0 {
        Seq::empty()
    } else {
        joined_texts(texts.drop_last()) + texts.last()
    }
}

/// The text of a run: its text children one after another.
pub fn collect_run_text(texts: &Vec<String>) -> (r: String)
    ensures
        r@ == joined_texts(texts@.map_values(|t: String| t@)),
{
    let ghost tv = texts@.map_values(|t: String| t@);
    let mut out = String::new();
    let mut i: usize = 0;
    assert(tv.take(0) =~= Seq::<Seq<char>>::empty());
    while i < texts.len()
        invariant
            i <= texts@.len(),
            tv == texts@.map_values(|t: String| t@),
            out@ == joined_texts(tv.take(i as int)),
        decreases texts.len() - i,
    {
        assert(tv.take(i + 1).drop_last() =~= tv.take(i as int));
        out = out.concat(texts[i].as_str());
        i = i + 1;
    }
    assert(tv.take(tv.len() as int) =~= tv);
    out
}

/// The line height of a run whose text is `text_height` tall (at least 1).
pub open spec fn line_height(text_height: u32) -> u32 {
    if text_height < 1 {
        1
    } else {
        text_height
    }
}

/// The pen after the characters of widths `widths` when a run that is too
/// wide is drawn character by character: `(offset in the line, line top)`.
/// A character that would pass the line's end starts a new line.
pub open spec fn wrap_cursor(widths: Seq<u32>, max_width: u32, line_h: u32, y: u32) -> (int, int)
    decreases widths.len(),
{
    if widths.len() == 0 {
        (0, y as int)
    } else {
        let prev = wrap_cursor(widths.drop_last(), max_width, line_h, y);
        let w = widths.last();
        if prev.0 + w > max_width {
            (w as int, prev.1 + line_h)
        } else {
            (prev.0 + w, prev.1)
        }
    }
}

/// Where character `i` of such a run is drawn.
pub open spec fn char_position(widths: Seq<u32>, x: u32, y: u32, max_width: u32, line_h: u32, i: int) -> (int, int) {
    let pen = wrap_cursor(widths.take(i), max_width, line_h, y);
    if pen.0 + widths[i] > max_width {
        (x as int, pen.1 + line_h)
    } else {
        (x + pen.0, pen.1)
    }
}

/// Drawing the run character by character stays within 32-bit coordinates.
pub open spec fn wrap_fits(widths: Seq<u32>, x: u32, y: u32, max_width: u32, line_h: u32) -> bool {
    &&& forall|i: int|
        #![trigger widths.take(i)]
        0 <= i < widths.len() ==> {
            let pen = wrap_cursor(widths.take(i), max_width, line_h, y);
            &&& pen.0 + widths[i] <= u32::MAX
            &&& if pen.0 + widths[i] > max_width {
                pen.1 + line_h <= u32::MAX
            } else {
                x + pen.0 <= u32::MAX
            }
        }
    &&& wrap_cursor(widths, max_width, line_h, y).1 + line_h <= u32::MAX
}

proof fn lemma_wrap_cursor_below(widths: Seq<u32>, max_width: u32, line_h: u32, y: u32)
    ensures
        wrap_cursor(widths, max_width, line_h, y).1 >= y,
        wrap_cursor(widths, max_width, line_h, y).0 >= 0,
    decreases widths.len(),
{
    if widths.len() > 0 {
        lemma_wrap_cursor_below(widths.drop_last(), max_width, line_h, y);
    }
}

/// Whether drawing a run character by character stays within 32-bit
/// coordinates (the condition of [`run_placement`] for a wrapped run).
pub fn wrap_fits_exec(widths: &Vec<u32>, x: u32, y: u32, max_width: u32, line_h: u32) -> (r: bool)
    ensures
        r == wrap_fits(widths@, x, y, max_width, line_h),
{
    let ghost ws = widths@;
    let mut cx: u64 = 0;
    let mut cy: u64 = y as u64;
    let mut i: usize = 0;
    assert(ws.take(0) =~= Seq::<u32>::empty());
    while i < widths.len()
        invariant
            i <= ws.len(),
            ws == widths@,
            (cx as int, cy as int) == wrap_cursor(ws.take(i as int), max_width, line_h, y),
            cx <= u32::MAX,
            cy <= u32::MAX,
            forall|k: int|
                #![trigger ws.take(k)]
                0 <= k < i ==> {
                    let pen = wrap_cursor(ws.take(k), max_width, line_h, y);
                    &&& pen.0 + ws[k] <= u32::MAX
                    &&& if pen.0 + ws[k] > max_width {
                        pen.1 + line_h <= u32::MAX
                    } else {
                        x + pen.0 <= u32::MAX
                    }
                },
        decreases widths.len() - i,
    {
        let w = widths[i] as u64;
        let wraps = cx + w > max_width as u64;
        if cx + w > u32::MAX as u64 || (wraps && cy + line_h as u64 > u32::MAX as u64) || (!wraps && x as u64
            + cx > u32::MAX as u64) {
            assert(!wrap_fits(ws, x, y, max_width, line_h)) by {
                assert(ws.take(i as int) == ws.take(i as int));
            }
            return false;
        }
        if wraps {
            cy = cy + line_h as u64;
            cx = w;
        } else {
            cx = cx + w;
        }
        assert(ws.take(i + 1).drop_last() =~= ws.take(i as int));
        i = i + 1;
    }
    assert(ws.take(ws.len() as int) =~= ws);
    cy + line_h as u64 <= u32::MAX as u64
}

/// A character of a wrapped run never passes the end of its line unless it
/// is alone at the line's start, and it is never drawn above the run.
pub proof fn law_wrapped_chars_stay_in_line(widths: Seq<u32>, x: u32, y: u32, max_width: u32, line_h: u32, i: int)
    requires
        0 <= i < widths.len(),
    ensures
        ({
            let p = char_position(widths, x, y, max_width, line_h, i);
            &&& p.0 == x || p.0 - x + widths[i] <= max_width
            &&& p.0 >= x
            &&& p.1 >= y
        }),
{
    lemma_wrap_cursor_below(widths.take(i), max_width, line_h, y);
}

/// How a run is drawn.
pub enum RunPlacement {
    /// An empty run draws nothing.
    Nothing,
    /// The whole text at one point, when it fits in the line.
    Whole { x: u32, y: u32 },
    /// One point per character, wrapping at the line's end.
    PerChar(Vec<(u32, u32)>),
}

/// Places a run of text at `(x, y)` in a line of `max_width`, from the
/// measured size of the whole text and the width of each character: text
/// that fits is drawn at once; wider text is drawn character by character,
/// a character that would pass the line's end going to the start of the
/// next line.  Also gives the height the run takes: one line when it fits,
/// down to the bottom of its last line otherwise, 0 when empty.
pub fn run_placement(
    text_width: u32,
    text_height: u32,
    char_widths: &Vec<u32>,
    x: u32,
    y: u32,
    max_width: u32,
) -> (r: (RunPlacement, u32))
    requires
        char_widths@.len() > 0 && text_width > max_width ==> wrap_fits(
            char_widths@,
            x,
            y,
            max_width,
            line_height(text_height),
        ),
    ensures
        char_widths@.len() == 0 ==> r.0 is Nothing && r.1 == 0,
        char_widths@.len() > 0 && text_width <= max_width ==> r.0 == (RunPlacement::Whole { x, y })
            && r.1 == line_height(text_height),
        char_widths@.len() > 0 && text_width > max_width ==> {
            let lh = line_height(text_height);
            &&& r.0 is PerChar
            &&& r.0->PerChar_0@.len() == char_widths@.len()
            &&& forall|i: int|
                0 <= i < char_widths@.len() ==> #[trigger] r.0->PerChar_0@[i] == (
                char_position(char_widths@, x, y, max_width, lh, i).0 as u32,
                char_position(char_widths@, x, y, max_width, lh, i).1 as u32,
            ) && char_position(char_widths@, x, y, max_width, lh, i).0 <= u32::MAX
                && char_position(char_widths@, x, y, max_width, lh, i).1 <= u32::MAX
            &&& r.1 == wrap_cursor(char_widths@, max_width, lh, y).1 + lh - y
        },
{
    if char_widths.len() == 0 {
        return (RunPlacement::Nothing, 0);
    }
    let line_h: u32 = if text_height < 1 { 1 } else { text_height };
    if text_width <= max_width {
        return (RunPlacement::Whole { x, y }, line_h);
    }
    let ghost ws = char_widths@;
    let mut cx: u32 = 0;
    let mut cy: u32 = y;
    let mut out: Vec<(u32, u32)> = Vec::new();
    let mut i: usize = 0;
    assert(ws.take(0) =~= Seq::<u32>::empty());
    while i < char_widths.len()
        invariant
            i <= ws.len(),
            ws == char_widths@,
            line_h == line_height(text_height),
            wrap_fits(ws, x, y, max_width, line_h),
            (cx as int, cy as int) == wrap_cursor(ws.take(i as int), max_width, line_h, y),
            out@.len() == i,
            forall|k: int|
                0 <= k < i ==> #[trigger] out@[k] == (
                    char_position(ws, x, y, max_width, line_h, k).0 as u32,
                    char_position(ws, x, y, max_width, line_h, k).1 as u32,
                ) && char_position(ws, x, y, max_width, line_h, k).0 <= u32::MAX
                    && char_position(ws, x, y, max_width, line_h, k).1 <= u32::MAX,
        decreases char_widths.len() - i,
    {
        let cw = char_widths[i];
        assert(ws.take(i as int) == ws.take(i as int));
        assert(cx + cw <= u32::MAX);
        if cx + cw > max_width {
            cy = cy + line_h;
            cx = 0;
        }
        out.push((x + cx, cy));
        cx = cx + cw;
        assert(ws.take(i + 1).drop_last() =~= ws.take(i as int));
        assert(ws.take(i + 1).last() == cw);
        i = i + 1;
    }
    assert(ws.take(ws.len() as int) =~= ws);
    proof {
        lemma_wrap_cursor_below(ws, max_width, line_h, y);
    }
    let h: u32 = cy + line_h - y;
    (RunPlacement::PerChar(out), h)
}

// ───────────────────────── table grid ─────────────────────────

/// The largest number of cells in a row.
pub open spec fn max_cells(rows: Seq<Seq<Seq<u32>>>) -> nat
    decreases rows.len(),
{
    if rows.len() == 0 {
        0
    } else {
        let m = max_cells(rows.drop_last());
        if rows.last().len() > m {
            rows.last().len()
        } else {
            m
        }
    }
}

/// The tallest paragraph of a cell (0 without paragraphs).
pub open spec fn content_height(paras: Seq<u32>) -> nat
    decreases paras.len(),
{
    if paras.len() == 0 {
        0
    } else {
        let m = content_height(paras.drop_last());
        if paras.last() > m {
            paras.last() as nat
        } else {
            m
        }
    }
}

/// Law: a cell's content is as tall as its tallest paragraph: no
/// paragraph is taller, one of them (if any) is exactly that tall, and the
/// cell holds every paragraph with the padding above and below it.
pub proof fn law_cell_holds_every_paragraph(paras: Seq<u32>)
    ensures
        forall|i: int| 0 <= i < paras.len() ==> #[trigger] paras[i] <= content_height(paras),
        forall|i: int| 0 <= i < paras.len() ==> cell_height(paras) >= #[trigger] paras[i] + 2 * CELL_PAD,
        paras.len() == 0 ==> content_height(paras) == 0,
        paras.len() > 0 ==> exists|i: int| 0 <= i < paras.len() && content_height(paras) == #[trigger] paras[i],
        cell_height(paras) >= MIN_CELL_HEIGHT,
        cell_height(paras) == MIN_CELL_HEIGHT || exists|i: int|
            0 <= i < paras.len() && cell_height(paras) == #[trigger] paras[i] + 2 * CELL_PAD,
    decreases paras.len(),
{
    if paras.len() > 0 {
        let rest = paras.drop_last();
        law_cell_holds_every_paragraph(rest);
        assert forall|i: int| 0 <= i < paras.len() implies #[trigger] paras[i] <= content_height(paras) by {
            if i < paras.len() - 1 {
                assert(paras[i] == rest[i]);
            }
        }
        if paras.last() > content_height(rest) {
            assert(content_height(paras) == paras[paras.len() - 1]);
        } else if rest.len() == 0 {
            assert(content_height(paras) == paras[0]);
        } else {
            let k = choose|k: int| 0 <= k < rest.len() && content_height(rest) == #[trigger] rest[k];
            assert(rest[k] == paras[k]);
        }
    }
}

/// Padding around cell content.
pub const CELL_PAD: u32 = 6;
/// Smallest height of a cell.
pub const MIN_CELL_HEIGHT: u32 = 24;

/// The height of a cell: its tallest paragraph plus padding, at least 24.
pub open spec fn cell_height(paras: Seq<u32>) -> nat {
    let h = content_height(paras) + 2 * CELL_PAD;
    if h < MIN_CELL_HEIGHT {
        MIN_CELL_HEIGHT as nat
    } else {
        h as nat
    }
}

/// The height of a row: its tallest cell (0 without cells).
pub open spec fn row_height(cells: Seq<Seq<u32>>) -> nat
    decreases cells.len(),
{
    if cells.len() == 0 {
        0
    } else {
        let m = row_height(cells.drop_last());
        if cell_height(cells.last()) > m {
            cell_height(cells.last())
        } else {
            m
        }
    }
}

/// The height of all rows.
pub open spec fn rows_height(rows: Seq<Seq<Seq<u32>>>) -> nat
    decreases rows.len(),
{
    if rows.len() == 0 {
        0
    } else {
        rows_height(rows.drop_last()) + row_height(rows.last())
    }
}

/// A cell of the grid: its box, and whether its right border is drawn
/// (only where it reaches the right edge of the table).
#[derive(Debug, Clone, Copy, PartialEq, Eq, Structural)]
pub struct CellBox {
    pub x: u32,
    pub y: u32,
    pub width: u32,
    pub height: u32,
    pub right_border: bool,
}

/// The grid of a table: the column width, each cell's box row by row, the
/// positions of the inner column lines, and the vertical extent.
pub struct TableLayout {
    pub col_width: u32,
    pub cells: Vec<Vec<CellBox>>,
    pub column_lines: Vec<u32>,
    pub top: u32,
    pub bottom: u32,
}

/// The box of cell `j` of row `i` in a table at `(x, y)` with columns of
/// `col_w` in a width of `max_width`.
pub open spec fn cell_box(rows: Seq<Seq<Seq<u32>>>, x: u32, y: u32, max_width: u32, col_w: u32, i: int, j: int) -> CellBox {
    CellBox {
        x: (x + j * col_w) as u32,
        y: (y + rows_height(rows.take(i))) as u32,
        width: col_w,
        height: cell_height(rows[i][j]) as u32,
        right_border: x + j * col_w + col_w >= x + max_width,
    }
}

/// The table fits in 32-bit coordinates (its width matters only when it
/// has a cell).
pub open spec fn table_fits(rows: Seq<Seq<Seq<u32>>>, x: u32, y: u32, max_width: u32) -> bool {
    &&& max_cells(rows) > 0 ==> x + max_width <= u32::MAX
    &&& y + rows_height(rows) <= u32::MAX
    &&& max_cells(rows) <= u32::MAX
}

proof fn lemma_content_bounded(paras: Seq<u32>)
    ensures
        content_height(paras) <= u32::MAX,
    decreases paras.len(),
{
    if paras.len() > 0 {
        lemma_content_bounded(paras.drop_last());
    }
}

proof fn lemma_row_at_least_cell(cells: Seq<Seq<u32>>, j: int)
    requires
        0 <= j < cells.len(),
    ensures
        cell_height(cells[j]) <= row_height(cells),
    decreases cells.len(),
{
    if j < cells.len() - 1 {
        lemma_row_at_least_cell(cells.drop_last(), j);
    }
}

proof fn lemma_rows_height_prefix(rows: Seq<Seq<Seq<u32>>>, i: int)
    requires
        0 <= i < rows.len(),
    ensures
        rows_height(rows.take(i)) + row_height(rows[i]) <= rows_height(rows),
        rows_height(rows.take(i + 1)) == rows_height(rows.take(i)) + row_height(rows[i]),
    decreases rows.len() - i,
{
    assert(rows.take(i + 1).drop_last() =~= rows.take(i));
    if i + 1 < rows.len() {
        lemma_rows_height_prefix(rows, i + 1);
    } else {
        assert(rows.take(i + 1) =~= rows);
    }
}

proof fn lemma_max_cells_bound(rows: Seq<Seq<Seq<u32>>>, i: int)
    requires
        0 <= i < rows.len(),
    ensures
        rows[i].len() <= max_cells(rows),
    decreases rows.len(),
{
    if i < rows.len() - 1 {
        lemma_max_cells_bound(rows.drop_last(), i);
    }
}

/// Nested rows as plain values.
pub open spec fn rows_view(rows: Seq<Vec<Vec<u32>>>) -> Seq<Seq<Seq<u32>>> {
    rows.map_values(|r: Vec<Vec<u32>>| r@.map_values(|c: Vec<u32>| c@))
}

fn content_height_exec(paras: &Vec<u32>) -> (r: u32)
    ensures
        r == content_height(paras@),
{
    let mut m: u32 = 0;
    let mut i: usize = 0;
    while i < paras.len()
        invariant
            i <= paras@.len(),
            m == content_height(paras@.take(i as int)),
        decreases paras.len() - i,
    {
        assert(paras@.take(i + 1).drop_last() =~= paras@.take(i as int));
        if paras[i] > m {
            m = paras[i];
        }
        i = i + 1;
    }
    assert(paras@.take(paras@.len() as int) =~= paras@);
    m
}

proof fn lemma_rows_height_grows(rows: Seq<Seq<Seq<u32>>>, k: int)
    requires
        0 <= k <= rows.len(),
    ensures
        rows_height(rows.take(k)) <= rows_height(rows),
    decreases rows.len() - k,
{
    if k < rows.len() {
        lemma_rows_height_grows(rows, k + 1);
        assert(rows.take(k + 1).drop_last() =~= rows.take(k));
    } else {
        assert(rows.take(k) =~= rows);
    }
}

/// Law: in a table that fits, each row starts where the row above ends,
/// and the cells of a row follow one another a column width apart.
pub proof fn law_table_rows_stack(rows: Seq<Seq<Seq<u32>>>, x: u32, y: u32, max_width: u32, col_w: u32, i: int, j: int)
    requires
        table_fits(rows, x, y, max_width),
        0 <= i,
        i + 1 < rows.len(),
        0 <= j,
        x + (j + 1) * col_w <= u32::MAX,
    ensures
        cell_box(rows, x, y, max_width, col_w, i + 1, j).y == cell_box(rows, x, y, max_width, col_w, i, j).y
            + row_height(rows[i]),
        cell_box(rows, x, y, max_width, col_w, i, j + 1).x == cell_box(rows, x, y, max_width, col_w, i, j).x
            + col_w,
{
    lemma_rows_height_prefix(rows, i);
    lemma_rows_height_prefix(rows, i + 1);
    lemma_rows_height_grows(rows, i + 1);
    assert(x + j * col_w <= x + (j + 1) * col_w) by (nonlinear_arith)
        requires
            col_w >= 0,
            j >= 0,
    ;
    assert(x + (j + 1) * col_w == x + j * col_w + col_w) by (nonlinear_arith);
}

fn row_height_exec(cells: &Vec<Vec<u32>>) -> (r: u64)
    ensures
        r == row_height(cells@.map_values(|c: Vec<u32>| c@)),
        r <= u32::MAX + 12,
{
    let ghost cv = cells@.map_values(|c: Vec<u32>| c@);
    let mut m: u64 = 0;
    let mut j: usize = 0;
    while j < cells.len()
        invariant
            j <= cells@.len(),
            cv == cells@.map_values(|c: Vec<u32>| c@),
            m == row_height(cv.take(j as int)),
            m <= u32::MAX + 12,
        decreases cells.len() - j,
    {
        assert(cv.take(j + 1).drop_last() =~= cv.take(j as int));
        assert(cv[j as int] == cells@[j as int]@);
        let content = content_height_exec(&cells[j]);
        proof {
            lemma_content_bounded(cv[j as int]);
        }
        let h: u64 = if content as u64 + 12 < 24 { 24 } else { content as u64 + 12 };
        if h > m {
            m = h;
        }
        j = j + 1;
    }
    assert(cv.take(cv.len() as int) =~= cv);
    m
}

/// Whether a table can be laid out at `(x, y)` in `max_width` pixels (the
/// condition of [`table_layout`]).
pub fn table_fits_exec(rows: &Vec<Vec<Vec<u32>>>, x: u32, y: u32, max_width: u32) -> (r: bool)
    ensures
        r == table_fits(rows_view(rows@), x, y, max_width),
{
    let ghost rv = rows_view(rows@);
    let mut has_cells = false;
    let mut total: u64 = y as u64;
    let mut i: usize = 0;
    while i < rows.len()
        invariant
            i <= rows@.len(),
            rv == rows_view(rows@),
            has_cells == (max_cells(rv.take(i as int)) > 0),
            total == y + rows_height(rv.take(i as int)),
            total <= u32::MAX,
            forall|k: int| 0 <= k < i ==> (#[trigger] rv[k]).len() <= u32::MAX,
        decreases rows.len() - i,
    {
        assert(rv.take(i + 1).drop_last() =~= rv.take(i as int));
        assert(rv[i as int] =~= rows@[i as int]@.map_values(|c: Vec<u32>| c@));
        let rh = row_height_exec(&rows[i]);
        proof {
            lemma_rows_height_grows(rv, i + 1);
        }
        if total + rh > u32::MAX as u64 {
            return false;
        }
        if rows[i].len() as u64 > u32::MAX as u64 {
            proof {
                lemma_max_cells_bound(rv, i as int);
            }
            return false;
        }
        if rows[i].len() > 0 {
            has_cells = true;
        }
        total = total + rh;
        i = i + 1;
    }
    assert(rv.take(rv.len() as int) =~= rv);
    proof {
        lemma_max_cells_at_most(rv);
    }
    if has_cells && x as u64 + max_width as u64 > u32::MAX as u64 {
        return false;
    }
    true
}

proof fn lemma_max_cells_at_most(rows: Seq<Seq<Seq<u32>>>)
    requires
        forall|k: int| 0 <= k < rows.len() ==> (#[trigger] rows[k]).len() <= u32::MAX,
    ensures
        max_cells(rows) <= u32::MAX,
    decreases rows.len(),
{
    if rows.len() > 0 {
        assert forall|k: int| 0 <= k < rows.drop_last().len() implies (#[trigger] rows.drop_last()[k]).len() <= u32::MAX by {
            assert(rows.drop_last()[k] == rows[k]);
        }
        lemma_max_cells_at_most(rows.drop_last());
        assert(rows.last() == rows[rows.len() - 1]);
    }
}

/// Lays out the grid of a table at `(x, y)` in `max_width` pixels, from the
/// measured heights of the paragraphs of each cell, row by row: equal
/// columns as wide as the widest row allows, cells as tall as their
/// content plus padding (at least 24 pixels), rows as tall as their
/// tallest cell.  A table without rows or cells takes no space.
pub fn table_layout(rows: &Vec<Vec<Vec<u32>>>, x: u32, y: u32, max_width: u32) -> (r: TableLayout)
    requires
        table_fits(rows_view(rows@), x, y, max_width),
    ensures
        r.top == y,
        ({
            let rv = rows_view(rows@);
            let n = max_cells(rv);
            if rv.len() == 0 || n == 0 {
                r.bottom == y && r.cells@.len() == 0 && r.column_lines@.len() == 0
            } else {
                let col_w = max_width / (n as u32);
                &&& r.col_width == col_w
                &&& r.bottom == y + rows_height(rv)
                &&& r.cells@.len() == rv.len()
                &&& forall|i: int|
                    0 <= i < rv.len() ==> (#[trigger] r.cells@[i])@.len() == rv[i].len()
                &&& forall|i: int, j: int|
                    0 <= i < rv.len() && 0 <= j < rv[i].len() ==> #[trigger] r.cells@[i]@[j] == cell_box(
                        rv,
                        x,
                        y,
                        max_width,
                        col_w,
                        i,
                        j,
                    )
                &&& r.column_lines@.len() == n - 1
                &&& forall|c: int| 0 <= c < n - 1 ==> #[trigger] r.column_lines@[c] == x + (c + 1) * col_w
            }
        }),
{
    let ghost rv = rows_view(rows@);
    let mut n: usize = 0;
    let mut i: usize = 0;
    while i < rows.len()
        invariant
            i <= rows@.len(),
            rv == rows_view(rows@),
            n == max_cells(rv.take(i as int)),
        decreases rows.len() - i,
    {
        assert(rv.take(i + 1).drop_last() =~= rv.take(i as int));
        assert(rv[i as int].len() == rows@[i as int].len());
        if rows[i].len() > n {
            n = rows[i].len();
        }
        i = i + 1;
    }
    assert(rv.take(rv.len() as int) =~= rv);
    if rows.len() == 0 || n == 0 {
        return TableLayout { col_width: 0, cells: Vec::new(), column_lines: Vec::new(), top: y, bottom: y };
    }
    proof {
        lemma_max_cells_bound(rv, 0);
    }
    let col_w: u32 = max_width / (n as u32);
    assert(n as int * col_w as int <= max_width) by (nonlinear_arith)
        requires
            col_w == max_width / (n as u32),
            n > 0,
            n <= u32::MAX,
    ;
    let mut cells: Vec<Vec<CellBox>> = Vec::new();
    let mut cy: u32 = y;
    let mut i: usize = 0;
    while i < rows.len()
        invariant
            i <= rows@.len(),
            rv == rows_view(rows@),
            n == max_cells(rv),
            n > 0,
            col_w == max_width / (n as u32),
            n * col_w <= max_width,
            table_fits(rv, x, y, max_width),
            cy == y + rows_height(rv.take(i as int)),
            cells@.len() == i,
            forall|a: int| 0 <= a < i ==> (#[trigger] cells@[a])@.len() == rv[a].len(),
            forall|a: int, b: int|
                0 <= a < i && 0 <= b < rv[a].len() ==> #[trigger] cells@[a]@[b] == cell_box(
                    rv,
                    x,
                    y,
                    max_width,
                    col_w,
                    a,
                    b,
                ),
        decreases rows.len() - i,
    {
        proof {
            lemma_rows_height_prefix(rv, i as int);
            lemma_max_cells_bound(rv, i as int);
        }
        let row = &rows[i];
        let ghost rr = rv[i as int];
        let mut boxes: Vec<CellBox> = Vec::new();
        let mut cx: u32 = x;
        let mut row_h: u32 = 0;
        let mut j: usize = 0;
        while j < row.len()
            invariant
                j <= row@.len(),
                rr.len() == row@.len(),
                rr == rv[i as int],
                rv == rows_view(rows@),
                *row == rows@[i as int],
                0 <= i < rv.len(),
                row@.len() <= n,
                n * col_w <= max_width,
                x + max_width <= u32::MAX,
                cx == x + j * col_w,
                row_h == row_height(rr.take(j as int)),
                cy == y + rows_height(rv.take(i as int)),
                cy + row_height(rr) <= u32::MAX,
                boxes@.len() == j,
                forall|b: int| 0 <= b < j ==> #[trigger] boxes@[b] == cell_box(rv, x, y, max_width, col_w, i as int, b),
            decreases row.len() - j,
        {
            assert(rr[j as int] == row@[j as int]@);
            let content = content_height_exec(&row[j]);
            proof {
                lemma_content_bounded(rr[j as int]);
                lemma_row_at_least_cell(rr, j as int);
            }
            let cell_h: u32 = if content as u64 + 12 < 24 { 24 } else { (content as u64 + 12) as u32 };
            assert((j + 1) * col_w <= n * col_w) by (nonlinear_arith)
                requires
                    j + 1 <= n,
            ;
            boxes.push(CellBox {
                x: cx,
                y: cy,
                width: col_w,
                height: cell_h,
                right_border: cx as u64 + col_w as u64 >= x as u64 + max_width as u64,
            });
            assert(rr.take(j + 1).drop_last() =~= rr.take(j as int));
            if cell_h > row_h {
                row_h = cell_h;
            }
            assert(x + (j + 1) * col_w == cx + col_w) by (nonlinear_arith)
                requires
                    cx == x + j * col_w,
            ;
            cx = cx + col_w;
            j = j + 1;
        }
        assert(rr.take(rr.len() as int) =~= rr);
        cells.push(boxes);
        cy = cy + row_h;
        i = i + 1;
    }
    assert(rv.take(rv.len() as int) =~= rv);
    let mut lines: Vec<u32> = Vec::new();
    let mut c: usize = 1;
    assert(n <= u32::MAX);
    while c < n
        invariant
            1 <= c <= n,
            n <= u32::MAX,
            n * col_w <= max_width,
            x + max_width <= u32::MAX,
            lines@.len() == c - 1,
            forall|d: int| 0 <= d < c - 1 ==> #[trigger] lines@[d] == x + (d + 1) * col_w,
        decreases n - c,
    {
        assert(c * col_w <= n * col_w) by (nonlinear_arith)
            requires
                c <= n,
        ;
        let v: u32 = x + (c as u32) * col_w;
        lines.push(v);
        assert(lines@[c - 1] == x + ((c - 1) + 1) * col_w);
        c = c + 1;
    }
    TableLayout { col_width: col_w, cells, column_lines: lines, top: y, bottom: cy }
}

} // verus!
