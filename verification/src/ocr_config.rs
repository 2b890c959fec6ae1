//! Settings of the OCR engine derived from its models and the machine:
//! the recognition input size, the number of recognition sessions, the
//! character table, and the padding of detection input.
use vstd::prelude::*;
use vstd::utf8::{decode_utf8, valid_utf8};
use crate::chars::{chars_of, string_of};

verus! {

/// The height and optional fixed width of the recognition model's input,
/// from its input shape `[batch, channels, height, width]` (assumed
/// `[1, 3, 48, 320]` when the model does not say): the height is at least
/// 1 and taken modulo 2^32; a width that is not positive means any width.
pub open spec fn rec_dims_for(shape: Seq<i64>) -> (u32, Option<u32>) {
    let h: i64 = if shape.len() > 2 { shape[2] } else { 48 };
    let h1: i64 = if h < 1 { 1 } else { h };
    let w = if shape.len() > 3 && shape[3] > 0 { Some(shape[3] as u32) } else { None };
    (h1 as u32, w)
}

/// The default input shape of the recognition model.
pub open spec fn default_rec_shape() -> Seq<i64> {
    seq![1i64, 3, 48, 320]
}

/// The recognition input size for a model's declared input shape.
pub fn rec_input_dims(shape: Option<&Vec<i64>>) -> (r: (u32, Option<u32>))
    ensures
        r == rec_dims_for(match shape {
            Some(s) => s@,
            None => default_rec_shape(),
        }),
{
    match shape {
        Some(s) => {
            let h: i64 = if s.len() > 2 { s[2] } else { 48 };
            let h1: i64 = if h < 1 { 1 } else { h };
            let w = if s.len() > 3 && s[3] > 0 { Some(s[3] as u32) } else { None };
            (h1 as u32, w)
        },
        None => (48, Some(320)),
    }
}

/// Law: the recognition input size of a full `[batch, channels, height,
/// width]` shape depends on its height and width entries only: the height
/// is the height entry (at least 1), and the width is fixed exactly when
/// the width entry is positive, whatever the batch and channel entries.
pub proof fn law_rec_dims_from_height_and_width(shape: Seq<i64>, other: Seq<i64>)
    requires
        shape.len() >= 4,
        other.len() >= 4,
        other[2] == shape[2],
        other[3] == shape[3],
    ensures
        rec_dims_for(other) == rec_dims_for(shape),
        shape[2] >= 1 ==> rec_dims_for(shape).0 == shape[2] as u32,
        shape[2] < 1 ==> rec_dims_for(shape).0 == 1,
        rec_dims_for(shape).1 is Some <==> shape[3] > 0,
        shape[3] > 0 ==> rec_dims_for(shape).1 == Some(shape[3] as u32),
{
}

/// Law: a shape that does not give the width allows any width, and one
/// that does not give the height either has the usual height 48.
pub proof fn law_rec_dims_of_short_shapes(shape: Seq<i64>)
    requires
        shape.len() < 4,
    ensures
        rec_dims_for(shape).1 is None,
        shape.len() < 3 ==> rec_dims_for(shape).0 == 48,
        shape.len() == 3 && shape[2] >= 1 ==> rec_dims_for(shape).0 == shape[2] as u32,
        shape.len() == 3 && shape[2] < 1 ==> rec_dims_for(shape).0 == 1,
{
}

/// How many recognition sessions run side by side: half the cores (two
/// cores when their number is unknown), at least one.
pub fn rec_pool_size(cores: Option<usize>) -> (r: usize)
    ensures
        r == (match cores {
            Some(c) => if c / 2 < 1 { 1 } else { c / 2 },
            None => 1,
        }),
        r >= 1,
{
    let c = match cores {
        Some(c) => c,
        None => 2,
    };
    let half = c / 2;
    if half < 1 { 1 } else { half }
}

/// The lines of a text as `str::lines` yields them: split after each `\n`,
/// dropping the `\n` and a `\r` before it; no line after a final `\n`.
pub open spec fn text_lines(s: Seq<char>) -> Seq<Seq<char>>
    decreases s.len(),
{
    if s.len() == 0 {
        Seq::empty()
    } else {
        let n = first_newline(s, 0);
        if 0 <= n && n < s.len() {
            let line = s.subrange(0, n);
            let line = if line.len() > 0 && line.last() == '\r' { line.drop_last() } else { line };
            seq![line] + text_lines(s.subrange(n + 1, s.len() as int))
        } else {
            seq![s]
        }
    }
}

/// The position of the first `\n` at or after `from` (the length when
/// there is none).
pub open spec fn first_newline(s: Seq<char>, from: int) -> int
    decreases s.len() - from,
{
    if from < 0 || from >= s.len() {
        s.len() as int
    } else if s[from] == '\n' {
        from
    } else {
        first_newline(s, from + 1)
    }
}

proof fn lemma_first_newline(s: Seq<char>, from: int)
    requires
        0 <= from <= s.len(),
    ensures
        from <= first_newline(s, from) <= s.len(),
        forall|j: int| from <= j < first_newline(s, from) ==> s[j] != '\n',
        first_newline(s, from) < s.len() ==> s[first_newline(s, from)] == '\n',
    decreases s.len() - from,
{
    if from < s.len() && s[from] != '\n' {
        lemma_first_newline(s, from + 1);
    }
}

proof fn lemma_first_newline_shift(s: Seq<char>, p: int, from: int)
    requires
        0 <= p <= from <= s.len(),
    ensures
        first_newline(s.subrange(p, s.len() as int), from - p) == first_newline(s, from) - p,
    decreases s.len() - from,
{
    if from < s.len() && s[from] != '\n' {
        lemma_first_newline_shift(s, p, from + 1);
    }
}

/// Strings as plain character sequences.
pub open spec fn lines_view(v: Seq<String>) -> Seq<Seq<char>> {
    v.map_values(|s: String| s@)
}

/// Splits a text into lines as `str::lines` does.
pub fn text_lines_exec(text: &str) -> (r: Vec<String>)
    ensures
        lines_view(r@) == text_lines(text@),
{
    let s = chars_of(text);
    let ghost all = s@;
    let mut out: Vec<String> = Vec::new();
    let mut start: usize = 0;
    assert(all.subrange(0, all.len() as int) =~= all);
    while start < s.len()
        invariant
            s@ == all,
            start <= all.len(),
            lines_view(out@) + text_lines(all.subrange(start as int, all.len() as int)) == text_lines(all),
        decreases s.len() - start,
    {
        let ghost rest = all.subrange(start as int, all.len() as int);
        let mut end: usize = start;
        while end < s.len() && s[end] != '\n'
            invariant
                start <= end <= all.len(),
                s@ == all,
                forall|j: int| start <= j < end ==> all[j] != '\n',
            decreases s.len() - end,
        {
            end = end + 1;
        }
        proof {
            lemma_first_newline(all, start as int);
            lemma_first_newline_shift(all, start as int, start as int);
            if end < all.len() {
                assert(first_newline(all, start as int) == end) by {
                    if first_newline(all, start as int) < end {
                        assert(all[first_newline(all, start as int)] != '\n');
                    }
                }
            } else {
                assert(first_newline(all, start as int) == end) by {
                    if first_newline(all, start as int) < end {
                        assert(all[first_newline(all, start as int)] != '\n');
                    }
                }
            }
            assert(first_newline(rest, 0) == end - start);
        }
        let mut stop: usize = end;
        if end < s.len() && end > start && s[end - 1] == '\r' {
            stop = end - 1;
        }
        let mut line: Vec<char> = Vec::new();
        let mut k: usize = start;
        while k < stop
            invariant
                start <= k <= stop,
                stop <= all.len(),
                s@ == all,
                line@ == all.subrange(start as int, k as int),
            decreases stop - k,
        {
            line.push(s[k]);
            assert(line@ =~= all.subrange(start as int, k + 1));
            k = k + 1;
        }
        let ghost before = lines_view(out@);
        out.push(string_of(&line));
        assert(lines_view(out@) =~= before.push(line@));
        if end < s.len() {
            proof {
                let l0 = rest.subrange(0, (end - start) as int);
                assert(l0 =~= all.subrange(start as int, end as int));
                assert(rest.subrange(end - start + 1, rest.len() as int) =~= all.subrange(end + 1, all.len() as int));
                if end > start && all[end - 1] == '\r' {
                    assert(l0.drop_last() =~= line@);
                } else {
                    assert(l0 =~= line@);
                }
                assert(text_lines(rest) == seq![line@] + text_lines(all.subrange(end + 1, all.len() as int)));
                assert(lines_view(out@) + text_lines(all.subrange(end + 1, all.len() as int)) =~= before + text_lines(rest));
            }
            start = end + 1;
        } else {
            proof {
                assert(line@ =~= rest);
                assert(text_lines(rest) == seq![rest]);
                assert(all.subrange(all.len() as int, all.len() as int) =~= Seq::<char>::empty());
                assert(lines_view(out@) + text_lines(all.subrange(all.len() as int, all.len() as int)) =~= before + text_lines(rest));
            }
            start = s.len();
        }
    }
    assert(all.subrange(start as int, all.len() as int) =~= Seq::<char>::empty());
    assert(lines_view(out@) =~= text_lines(all));
    out
}

/// Decodes UTF-8 (`std::str::from_utf8`): it succeeds exactly on valid
/// UTF-8 and then gives the decoded characters.
#[verifier::external_body]
pub(crate) fn utf8_to_string(bytes: &[u8]) -> (r: Option<String>)
    ensures
        r is Some <==> valid_utf8(bytes@),
        r matches Some(s) ==> s@ == decode_utf8(bytes@),
{
    std::str::from_utf8(bytes).ok().map(|s| s.to_string())
}

/// The character table of a recognition model: one entry per line of the
/// UTF-8 key file (`None` when the file is not UTF-8).
pub fn parse_keys(keys_data: &[u8]) -> (r: Option<Vec<String>>)
    ensures
        r is Some <==> valid_utf8(keys_data@),
        r matches Some(k) ==> lines_view(k@) == text_lines(decode_utf8(keys_data@)),
{
    match utf8_to_string(keys_data) {
        Some(s) => Some(text_lines_exec(s.as_str())),
        None => None,
    }
}

/// The extent of a detection input side after padding to a multiple of 32.
pub open spec fn padded_to_32(n: int) -> int {
    n + (32 - n % 32) % 32
}

/// Pads a side of the detection input to a multiple of 32.
pub fn pad_to_multiple_of_32(n: u32) -> (r: u32)
    requires
        n <= u32::MAX - 31,
    ensures
        r == padded_to_32(n as int),
{
    n + (32 - n % 32) % 32
}

/// Law: a padded side is a multiple of 32, at least the side, and less
/// than 32 more.
pub proof fn law_padding_is_minimal(n: nat)
    ensures
        padded_to_32(n as int) % 32 == 0,
        n <= padded_to_32(n as int) < n + 32,
{
}

} // verus!
