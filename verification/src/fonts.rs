//! Fonts for drawing document text: which files may hold a named font,
//! reading a font from file data (also from a TrueType collection), and the
//! table of loaded fonts with its fallback.
use vstd::prelude::*;
use crate::chars::{replace_all, replace_all_chars, str_eq};
use crate::error::DocxToImageError;

verus! {

/// A loaded font (`ab_glyph::FontArc`).
#[verifier::external_type_specification]
#[verifier::external_body]
pub struct ExFontArc(ab_glyph::FontArc);

/// What `str::to_lowercase` gives for a text.
pub uninterp spec fn lowercase(s: Seq<char>) -> Seq<char>;

/// A character lower-cased the ASCII way: `A`..`Z` become `a`..`z`.
pub open spec fn ascii_lower_char(c: char) -> char {
    if 'A' <= c && c <= 'Z' {
        ((c as int) + 32) as char
    } else {
        c
    }
}

/// Every character is ASCII.
pub open spec fn is_ascii_text(s: Seq<char>) -> bool {
    forall|i: int| 0 <= i < s.len() ==> (#[trigger] s[i] as int) < 128
}

/// Lower-cases a text (`str::to_lowercase`); on ASCII text that maps
/// `A`..`Z` to `a`..`z` and keeps every other character.
#[verifier::external_body]
pub(crate) fn to_lowercase(s: &str) -> (r: String)
    ensures
        r@ == lowercase(s@),
        is_ascii_text(s@) ==> r@ == s@.map_values(|c: char| ascii_lower_char(c)),
{
    s.to_lowercase()
}

/// Whether `ab_glyph::FontArc::try_from_vec` accepts these bytes.
pub uninterp spec fn font_parses(data: Seq<u8>) -> bool;

/// The font `ab_glyph::FontArc::try_from_vec` reads from these bytes
/// (meaningful when they parse).
pub uninterp spec fn parsed_font(data: Seq<u8>) -> ab_glyph::FontArc;

/// Loads a TrueType or OpenType font (`ab_glyph::FontArc::try_from_vec`);
/// whether it succeeds, and the font, depend on the bytes only.
#[verifier::external_body]
pub(crate) fn font_from_vec(data: Vec<u8>) -> (r: Option<ab_glyph::FontArc>)
    ensures
        r is Some <==> font_parses(data@),
        r matches Some(f) ==> f == parsed_font(data@),
{
    ab_glyph::FontArc::try_from_vec(data).ok()
}

/// The file names (lower case) that may hold a font, by its lower-cased
/// name: a table for common fonts, otherwise the name without spaces with
/// `.ttf` or `.ttc`.
pub open spec fn font_files_for(lower: Seq<char>) -> Seq<Seq<char>> {
    if lower == "microsoft yahei"@ {
        seq!["msyh.ttf"@, "msyh.ttc"@]
    } else if lower == "microsoft yahei bold"@ {
        seq!["msyhbd.ttf"@, "msyhbd.ttc"@]
    } else if lower == "simsun"@ {
        seq!["simsun.ttc"@]
    } else if lower == "simhei"@ {
        seq!["simhei.ttf"@]
    } else if lower == "simkai"@ {
        seq!["simkai.ttf"@]
    } else if lower == "fangsong"@ {
        seq!["simfang.ttf"@]
    } else if lower == "arial"@ {
        seq!["arial.ttf"@]
    } else if lower == "times new roman"@ {
        seq!["times.ttf"@]
    } else if lower == "calibri"@ {
        seq!["calibri.ttf"@]
    } else {
        let stem = replace_all(lower, " "@, ""@);
        seq![stem + ".ttf"@, stem + ".ttc"@]
    }
}

/// Strings as plain character sequences.
pub open spec fn names_view(v: Seq<String>) -> Seq<Seq<char>> {
    v.map_values(|s: String| s@)
}

fn two(a: &str, b: &str) -> (r: Vec<String>)
    ensures
        names_view(r@) == seq![a@, b@],
{
    let mut v = Vec::new();
    v.push(String::from_str(a));
    v.push(String::from_str(b));
    assert(names_view(v@) =~= seq![a@, b@]);
    v
}

fn one(a: &str) -> (r: Vec<String>)
    ensures
        names_view(r@) == seq![a@],
{
    let mut v = Vec::new();
    v.push(String::from_str(a));
    assert(names_view(v@) =~= seq![a@]);
    v
}

/// The file names that may hold the font called `name`.
pub fn font_candidates(name: &str) -> (r: Vec<String>)
    ensures
        names_view(r@) == font_files_for(lowercase(name@)),
        is_ascii_text(name@) ==> names_view(r@) == font_files_for(name@.map_values(|c: char| ascii_lower_char(c))),
{
    let lower = to_lowercase(name);
    let l = lower.as_str();
    if str_eq(l, "microsoft yahei") {
        two("msyh.ttf", "msyh.ttc")
    } else if str_eq(l, "microsoft yahei bold") {
        two("msyhbd.ttf", "msyhbd.ttc")
    } else if str_eq(l, "simsun") {
        one("simsun.ttc")
    } else if str_eq(l, "simhei") {
        one("simhei.ttf")
    } else if str_eq(l, "simkai") {
        one("simkai.ttf")
    } else if str_eq(l, "fangsong") {
        one("simfang.ttf")
    } else if str_eq(l, "arial") {
        one("arial.ttf")
    } else if str_eq(l, "times new roman") {
        one("times.ttf")
    } else if str_eq(l, "calibri") {
        one("calibri.ttf")
    } else {
        proof {
            reveal_strlit(" ");
        }
        let stem = replace_all_chars(l, " ", "");
        let ttf = stem.clone().concat(".ttf");
        let ttc = stem.concat(".ttc");
        let mut v = Vec::new();
        v.push(ttf);
        v.push(ttc);
        assert(names_view(v@) =~= font_files_for(lowercase(name@)));
        v
    }
}

/// Whether a lower-cased file name is one of the candidates.
pub fn is_candidate_file(file_name: &str, candidates: &Vec<String>) -> (r: bool)
    ensures
        r == names_view(candidates@).contains(file_name@),
{
    let mut i: usize = 0;
    while i < candidates.len()
        invariant
            i <= candidates@.len(),
            forall|j: int| 0 <= j < i ==> candidates@[j]@ != file_name@,
        decreases candidates.len() - i,
    {
        if str_eq(file_name, candidates[i].as_str()) {
            assert(names_view(candidates@)[i as int] == file_name@);
            return true;
        }
        i = i + 1;
    }
    assert(!names_view(candidates@).contains(file_name@)) by {
        if names_view(candidates@).contains(file_name@) {
            let j = choose|j: int| 0 <= j < names_view(candidates@).len() && names_view(candidates@)[j] == file_name@;
            assert(candidates@[j]@ == file_name@);
        }
    }
    false
}

/// The big-endian 32-bit number at `i`.
pub open spec fn be_u32(d: Seq<u8>, i: int) -> int {
    d[i] as int * 16777216 + d[i + 1] as int * 65536 + d[i + 2] as int * 256 + d[i + 3] as int
}

/// The data starts with the TrueType collection tag `ttcf`.
pub open spec fn has_ttc_tag(d: Seq<u8>) -> bool {
    d.len() >= 4 && d[0] == 116u8 && d[1] == 116u8 && d[2] == 99u8 && d[3] == 102u8
}

/// The offset of the first font of a TrueType collection: the header must
/// hold the tag and a non-zero font count, and the offset must lie inside
/// the data.
pub open spec fn ttc_first_font_offset(d: Seq<u8>) -> Option<int> {
    if d.len() < 12 || !has_ttc_tag(d) {
        None
    } else if be_u32(d, 8) == 0 {
        None
    } else if be_u32(d, 12) >= d.len() {
        None
    } else {
        Some(be_u32(d, 12))
    }
}

/// The collection header claims fonts but is cut off before the offset of
/// the first one (reading it would go past the end).
pub open spec fn ttc_header_truncated(d: Seq<u8>) -> bool {
    d.len() >= 12 && d.len() < 16 && has_ttc_tag(d) && be_u32(d, 8) != 0
}

fn be_u32_exec(d: &[u8], i: usize) -> (r: u32)
    requires
        i + 4 <= d@.len(),
    ensures
        r == be_u32(d@, i as int),
{
    d[i] as u32 * 16777216 + d[i + 1] as u32 * 65536 + d[i + 2] as u32 * 256 + d[i + 3] as u32
}

/// The first font of a TrueType collection, when its header is sound and
/// the data from its offset parses.
pub open spec fn ttc_font(d: Seq<u8>) -> Option<ab_glyph::FontArc> {
    match ttc_first_font_offset(d) {
        Some(off) => if font_parses(d.subrange(off, d.len() as int)) {
            Some(parsed_font(d.subrange(off, d.len() as int)))
        } else {
            None
        },
        None => None,
    }
}

/// Whether the data is a collection header cut off before its first font
/// offset (the condition of [`try_load_ttc`] and [`load_font_data`]).
pub fn ttc_header_is_truncated(data: &[u8]) -> (r: bool)
    ensures
        r == ttc_header_truncated(data@),
{
    data.len() >= 12 && data.len() < 16 && data[0] == 116u8 && data[1] == 116u8 && data[2] == 99u8
        && data[3] == 102u8 && be_u32_exec(data, 8) != 0
}

/// Loads the first font of a TrueType collection.
pub fn try_load_ttc(data: &[u8]) -> (r: Option<ab_glyph::FontArc>)
    requires
        !ttc_header_truncated(data@),
    ensures
        r == ttc_font(data@),
{
    if data.len() < 12 || !(data[0] == 116u8 && data[1] == 116u8 && data[2] == 99u8 && data[3] == 102u8) {
        return None;
    }
    let n = be_u32_exec(data, 8);
    if n == 0 {
        return None;
    }
    let off = be_u32_exec(data, 12) as usize;
    if off >= data.len() {
        return None;
    }
    assert(off as int == be_u32(data@, 12));
    let mut rest: Vec<u8> = Vec::new();
    rest.extend_from_slice(&data[off..data.len()]);
    assert(rest@ =~= data@.subrange(off as int, data@.len() as int));
    font_from_vec(rest)
}

/// Loads a font from file data: as a single font, else as the first font
/// of a collection.
pub fn load_font_data(data: &[u8]) -> (r: Option<ab_glyph::FontArc>)
    requires
        !ttc_header_truncated(data@),
    ensures
        r == (if font_parses(data@) {
            Some(parsed_font(data@))
        } else {
            ttc_font(data@)
        }),
{
    let mut copy: Vec<u8> = Vec::new();
    copy.extend_from_slice(data);
    assert(copy@ =~= data@);
    match font_from_vec(copy) {
        Some(f) => Some(f),
        None => try_load_ttc(data),
    }
}

/// The fonts named in a document, by name, and the font used otherwise.
pub struct FontManager {
    fonts: Vec<(String, ab_glyph::FontArc)>,
    default: ab_glyph::FontArc,
}

/// The message when none of the fallback fonts can be loaded.
pub const NO_FONT_MESSAGE: &'static str = "No suitable system font found (tried: Microsoft YaHei, SimSun, Arial)";

/// The first present font of a list.
pub open spec fn first_present(fonts: Seq<Option<ab_glyph::FontArc>>) -> Option<ab_glyph::FontArc>
    decreases fonts.len(),
{
    if fonts.len() == 0 {
        None
    } else if fonts[0] is Some {
        fonts[0]
    } else {
        first_present(fonts.drop_first())
    }
}

/// Loaded fonts as plain values.
pub open spec fn loaded_view(v: Seq<(String, Option<ab_glyph::FontArc>)>) -> Seq<(Seq<char>, Option<ab_glyph::FontArc>)> {
    v.map_values(|e: (String, Option<ab_glyph::FontArc>)| (e.0@, e.1))
}

/// The fonts that were loaded, with their names, in order.
pub open spec fn present_fonts(loaded: Seq<(Seq<char>, Option<ab_glyph::FontArc>)>) -> Seq<(Seq<char>, ab_glyph::FontArc)>
    decreases loaded.len(),
{
    if loaded.len() == 0 {
        Seq::empty()
    } else {
        present_fonts(loaded.drop_last()) + (match loaded.last().1 {
            Some(f) => seq![(loaded.last().0, f)],
            None => Seq::empty(),
        })
    }
}

/// The last font stored under `name`.
pub open spec fn font_named(fonts: Seq<(Seq<char>, ab_glyph::FontArc)>, name: Seq<char>) -> Option<ab_glyph::FontArc>
    decreases fonts.len(),
{
    if fonts.len() == 0 {
        None
    } else if fonts.last().0 == name {
        Some(fonts.last().1)
    } else {
        font_named(fonts.drop_last(), name)
    }
}

impl FontManager {
    /// The stored fonts with their names.
    pub closed spec fn stored(&self) -> Seq<(Seq<char>, ab_glyph::FontArc)> {
        self.fonts@.map_values(|e: (String, ab_glyph::FontArc)| (e.0@, e.1))
    }

    /// The fallback font.
    pub closed spec fn default_font(&self) -> ab_glyph::FontArc {
        self.default
    }

    /// Builds the table from the fonts of the document's font names as they
    /// were loaded (missing ones are `None` and fall back), and the fallback
    /// fonts in order of preference (Microsoft YaHei, SimSun, Arial): the
    /// first one loaded is the fallback; without any there is no table.
    pub fn new(loaded: Vec<(String, Option<ab_glyph::FontArc>)>, fallbacks: Vec<Option<ab_glyph::FontArc>>) -> (r: Result<Self, DocxToImageError>)
        ensures
            match first_present(fallbacks@) {
                Some(d) => r matches Ok(m) && m.default_font() == d && m.stored() == present_fonts(
                    loaded_view(loaded@),
                ),
                None => r matches Err(DocxToImageError::Font(msg)) && msg@ == NO_FONT_MESSAGE@,
            },
    {
        let ghost all = loaded@;
        let ghost n = all.len();
        let mut fonts: Vec<(String, ab_glyph::FontArc)> = Vec::new();
        let mut input = loaded;
        let mut k: usize = 0;
        assert(all.len() == input.len());
        assert(all.skip(0) =~= all);
        assert(loaded_view(all).take(0) =~= Seq::<(Seq<char>, Option<ab_glyph::FontArc>)>::empty());
        assert(fonts@.map_values(|e: (String, ab_glyph::FontArc)| (e.0@, e.1)) =~= Seq::<(Seq<char>, ab_glyph::FontArc)>::empty());
        while input.len() > 0
            invariant
                k <= n,
                n == all.len(),
                input@ == all.skip(k as int),
                input@.len() == n - k,
                n <= usize::MAX,
                fonts@.map_values(|e: (String, ab_glyph::FontArc)| (e.0@, e.1)) == present_fonts(
                    loaded_view(all).take(k as int),
                ),
            decreases input.len(),
        {
            let ghost before = fonts@.map_values(|e: (String, ab_glyph::FontArc)| (e.0@, e.1));
            let (name, font) = input.remove(0);
            assert(all[k as int] == (name, font));
            assert(loaded_view(all).take(k + 1).drop_last() =~= loaded_view(all).take(k as int));
            assert(loaded_view(all).take(k + 1).last() == (name@, font));
            match font {
                Some(f) => {
                    fonts.push((name, f));
                    assert(fonts@.map_values(|e: (String, ab_glyph::FontArc)| (e.0@, e.1)) =~= before + seq![(name@, f)]);
                },
                None => {},
            }
            k = k + 1;
            assert(input@ =~= all.skip(k as int));
        }
        assert(loaded_view(all).take(n as int) =~= loaded_view(all));
        let mut rest = fallbacks;
        while rest.len() > 0
            invariant
                first_present(fallbacks@) == first_present(rest@),
                fonts@.map_values(|e: (String, ab_glyph::FontArc)| (e.0@, e.1)) == present_fonts(
                    loaded_view(loaded@),
                ),
            decreases rest.len(),
        {
            let ghost before = rest@;
            let f = rest.remove(0);
            assert(before.drop_first() =~= rest@);
            match f {
                Some(d) => {
                    let m = FontManager { fonts, default: d };
                    return Ok(m);
                },
                None => {},
            }
        }
        Err(DocxToImageError::Font(String::from_str(NO_FONT_MESSAGE)))
    }

    /// The font for `name`: the fallback for an empty name or a name with
    /// no loaded font.
    pub fn get(&self, name: &str) -> (r: &ab_glyph::FontArc)
        ensures
            *r == (if name@.len() == 0 {
                self.default_font()
            } else {
                match font_named(self.stored(), name@) {
                    Some(f) => f,
                    None => self.default_font(),
                }
            }),
    {
        if name.is_empty() {
            return &self.default;
        }
        let ghost view = self.stored();
        let mut k: usize = self.fonts.len();
        assert(view.take(k as int) =~= view);
        while k > 0
            invariant
                k <= self.fonts@.len(),
                view == self.stored(),
                name@.len() > 0,
                font_named(view, name@) == font_named(view.take(k as int), name@),
            decreases k,
        {
            assert(view.take(k as int).drop_last() =~= view.take(k - 1));
            assert(view.take(k as int).last() == (self.fonts@[k - 1].0@, self.fonts@[k - 1].1));
            if str_eq(self.fonts[k - 1].0.as_str(), name) {
                return &self.fonts[k - 1].1;
            }
            k = k - 1;
        }
        &self.default
    }
}

/// The font names a run asks for, one per script: `ascii`, `eastAsia`,
/// `hiAnsi` and `cs` (missing ones are `None`).
pub struct RunFonts {
    pub ascii: Option<String>,
    pub east_asia: Option<String>,
    pub hi_ansi: Option<String>,
    pub cs: Option<String>,
}

/// An optional name as plain characters.
pub open spec fn name_view(o: Option<String>) -> Option<Seq<char>> {
    match o {
        Some(s) => Some(s@),
        None => None,
    }
}

/// The names added to `names` by one optional entry: a non-empty name not
/// yet present is appended.
pub open spec fn add_font_name(names: Seq<Seq<char>>, n: Option<Seq<char>>) -> Seq<Seq<char>> {
    match n {
        Some(x) => if x.len() > 0 && !names.contains(x) {
            names.push(x)
        } else {
            names
        },
        None => names,
    }
}

/// The names after one run, in the order `ascii`, `eastAsia`, `hiAnsi`,
/// `cs`.
pub open spec fn add_run_fonts(names: Seq<Seq<char>>, r: RunFonts) -> Seq<Seq<char>> {
    add_font_name(
        add_font_name(
            add_font_name(add_font_name(names, name_view(r.ascii)), name_view(r.east_asia)),
            name_view(r.hi_ansi),
        ),
        name_view(r.cs),
    )
}

/// The distinct non-empty font names of the runs, in order of first use.
pub open spec fn font_names_of(runs: Seq<RunFonts>) -> Seq<Seq<char>>
    decreases runs.len(),
{
    if runs.len() == 0 {
        Seq::empty()
    } else {
        add_run_fonts(font_names_of(runs.drop_last()), runs.last())
    }
}

proof fn lemma_add_font_name_distinct(names: Seq<Seq<char>>, n: Option<Seq<char>>)
    requires
        names.no_duplicates(),
        forall|i: int| 0 <= i < names.len() ==> (#[trigger] names[i]).len() > 0,
    ensures
        add_font_name(names, n).no_duplicates(),
        forall|i: int| 0 <= i < add_font_name(names, n).len() ==> (#[trigger] add_font_name(names, n)[i]).len() > 0,
{
    if let Some(x) = n {
        if x.len() > 0 && !names.contains(x) {
            let t = names.push(x);
            assert forall|i: int, j: int| 0 <= i < t.len() && 0 <= j < t.len() && i != j implies t[i] != t[j] by {
                if i == names.len() {
                    assert(t[j] == names[j]);
                } else if j == names.len() {
                    assert(t[i] == names[i]);
                } else {
                    assert(t[i] == names[i] && t[j] == names[j]);
                }
            }
            assert forall|i: int| 0 <= i < t.len() implies (#[trigger] t[i]).len() > 0 by {
                if i < names.len() {
                    assert(t[i] == names[i]);
                }
            }
        }
    }
}

/// Law: the font names collected from a document are distinct and none is
/// empty, so each font is looked for once.
pub proof fn law_font_names_distinct(runs: Seq<RunFonts>)
    ensures
        font_names_of(runs).no_duplicates(),
        forall|i: int| 0 <= i < font_names_of(runs).len() ==> (#[trigger] font_names_of(runs)[i]).len() > 0,
    decreases runs.len(),
{
    if runs.len() > 0 {
        law_font_names_distinct(runs.drop_last());
        let r = runs.last();
        let n0 = font_names_of(runs.drop_last());
        lemma_add_font_name_distinct(n0, name_view(r.ascii));
        let n1 = add_font_name(n0, name_view(r.ascii));
        lemma_add_font_name_distinct(n1, name_view(r.east_asia));
        let n2 = add_font_name(n1, name_view(r.east_asia));
        lemma_add_font_name_distinct(n2, name_view(r.hi_ansi));
        let n3 = add_font_name(n2, name_view(r.hi_ansi));
        lemma_add_font_name_distinct(n3, name_view(r.cs));
    }
}

/// Law: a font name whose font could not be loaded has no entry in the
/// table, so it is drawn with the fallback font.
pub proof fn law_missing_font_falls_back(loaded: Seq<(Seq<char>, Option<ab_glyph::FontArc>)>, name: Seq<char>)
    requires
        forall|i: int| 0 <= i < loaded.len() && (#[trigger] loaded[i]).0 == name ==> loaded[i].1 is None,
    ensures
        font_named(present_fonts(loaded), name) is None,
    decreases loaded.len(),
{
    if loaded.len() > 0 {
        assert forall|i: int| 0 <= i < loaded.drop_last().len() && (#[trigger] loaded.drop_last()[i]).0 == name implies loaded.drop_last()[i].1 is None by {
            assert(loaded.drop_last()[i] == loaded[i]);
        }
        law_missing_font_falls_back(loaded.drop_last(), name);
        let p = present_fonts(loaded.drop_last());
        assert(loaded.last() == loaded[loaded.len() - 1]);
        match loaded.last().1 {
            Some(f) => {
                assert(present_fonts(loaded) == p + seq![(loaded.last().0, f)]);
                assert((p + seq![(loaded.last().0, f)]).drop_last() =~= p);
            },
            None => {
                assert(present_fonts(loaded) =~= p);
            },
        }
    }
}

fn add_name(names: &mut Vec<String>, n: &Option<String>)
    ensures
        names_view(final(names)@) == add_font_name(names_view(old(names)@), name_view(*n)),
{
    match n {
        Some(x) => {
            if x.as_str().is_empty() {
                return;
            }
            let mut i: usize = 0;
            while i < names.len()
                invariant
                    i <= names@.len(),
                    names@ == old(names)@,
                    name_view(*n) == Some(x@),
                    forall|j: int| 0 <= j < i ==> names@[j]@ != x@,
                decreases names.len() - i,
            {
                if str_eq(names[i].as_str(), x.as_str()) {
                    assert(names_view(names@)[i as int] == x@);
                    return;
                }
                i = i + 1;
            }
            assert(!names_view(names@).contains(x@)) by {
                if names_view(names@).contains(x@) {
                    let j = choose|j: int| 0 <= j < names_view(names@).len() && names_view(names@)[j] == x@;
                    assert(names@[j]@ == x@);
                }
            }
            let ghost before = names@;
            names.push(x.clone());
            assert(names_view(names@) =~= names_view(before).push(x@));
        },
        None => {},
    }
}

/// The distinct non-empty font names the runs of a document ask for, in
/// order of first use.
pub fn collect_font_names(runs: &Vec<RunFonts>) -> (r: Vec<String>)
    ensures
        names_view(r@) == font_names_of(runs@),
{
    let mut names: Vec<String> = Vec::new();
    let mut i: usize = 0;
    assert(names_view(names@) =~= font_names_of(runs@.take(0)));
    while i < runs.len()
        invariant
            i <= runs@.len(),
            names_view(names@) == font_names_of(runs@.take(i as int)),
        decreases runs.len() - i,
    {
        let r = &runs[i];
        add_name(&mut names, &r.ascii);
        add_name(&mut names, &r.east_asia);
        add_name(&mut names, &r.hi_ansi);
        add_name(&mut names, &r.cs);
        assert(runs@.take(i + 1).drop_last() =~= runs@.take(i as int));
        i = i + 1;
    }
    assert(runs@.take(runs@.len() as int) =~= runs@);
    names
}

/// The name a run is drawn with: the first non-empty one of `eastAsia`,
/// `ascii`, `hiAnsi` and `cs`, or the empty name.
pub open spec fn run_font_choice(r: RunFonts) -> Seq<char> {
    let cands = seq![name_view(r.east_asia), name_view(r.ascii), name_view(r.hi_ansi), name_view(r.cs)];
    first_nonempty(cands)
}

/// The first present non-empty name, or the empty name.
pub open spec fn first_nonempty(cands: Seq<Option<Seq<char>>>) -> Seq<char>
    decreases cands.len(),
{
    if cands.len() == 0 {
        Seq::empty()
    } else {
        match cands[0] {
            Some(x) => if x.len() > 0 {
                x
            } else {
                first_nonempty(cands.drop_first())
            },
            None => first_nonempty(cands.drop_first()),
        }
    }
}

fn nonempty(n: &Option<String>) -> (r: Option<&str>)
    ensures
        match r {
            Some(s) => name_view(*n) == Some(s@) && s@.len() > 0,
            None => !(name_view(*n) matches Some(x) && x.len() > 0),
        },
{
    match n {
        Some(x) => if x.as_str().is_empty() {
            None
        } else {
            Some(x.as_str())
        },
        None => None,
    }
}

impl FontManager {
    /// The font a run is drawn with.
    pub fn font_for_run(&self, run: &RunFonts) -> (r: &ab_glyph::FontArc)
        ensures
            *r == (if run_font_choice(*run).len() == 0 {
                self.default_font()
            } else {
                match font_named(self.stored(), run_font_choice(*run)) {
                    Some(f) => f,
                    None => self.default_font(),
                }
            }),
    {
        let ghost cands = seq![name_view(run.east_asia), name_view(run.ascii), name_view(run.hi_ansi), name_view(run.cs)];
        assert(cands.drop_first() =~= seq![name_view(run.ascii), name_view(run.hi_ansi), name_view(run.cs)]);
        assert(cands.drop_first().drop_first() =~= seq![name_view(run.hi_ansi), name_view(run.cs)]);
        assert(cands.drop_first().drop_first().drop_first() =~= seq![name_view(run.cs)]);
        assert(cands.drop_first().drop_first().drop_first().drop_first() =~= Seq::<Option<Seq<char>>>::empty());
        let ghost c1 = cands.drop_first();
        let ghost c2 = c1.drop_first();
        let ghost c3 = c2.drop_first();
        assert(run_font_choice(*run) == first_nonempty(cands));
        if let Some(n) = nonempty(&run.east_asia) {
            assert(first_nonempty(cands) == n@);
            return self.get(n);
        }
        assert(first_nonempty(cands) == first_nonempty(c1));
        if let Some(n) = nonempty(&run.ascii) {
            assert(first_nonempty(c1) == n@);
            return self.get(n);
        }
        assert(first_nonempty(c1) == first_nonempty(c2));
        if let Some(n) = nonempty(&run.hi_ansi) {
            assert(first_nonempty(c2) == n@);
            return self.get(n);
        }
        assert(first_nonempty(c2) == first_nonempty(c3));
        if let Some(n) = nonempty(&run.cs) {
            assert(first_nonempty(c3) == n@);
            return self.get(n);
        }
        assert(first_nonempty(c3) == first_nonempty(c3.drop_first()));
        proof {
            reveal_strlit("");
        }
        self.get("")
    }
}

/// A name that is present and not empty.
pub open spec fn given(o: Option<String>) -> bool {
    o matches Some(x) && x@.len() > 0
}

/// Law: a run is drawn with its `eastAsia` font whenever it names one,
/// whatever its other names; otherwise with `ascii`, then `hiAnsi`, then
/// `cs`, the first that is given; with none of them, with the fallback
/// (the empty name).
pub proof fn law_run_font_priority(r: RunFonts)
    ensures
        given(r.east_asia) ==> run_font_choice(r) == r.east_asia->Some_0@,
        !given(r.east_asia) && given(r.ascii) ==> run_font_choice(r) == r.ascii->Some_0@,
        !given(r.east_asia) && !given(r.ascii) && given(r.hi_ansi) ==> run_font_choice(r)
            == r.hi_ansi->Some_0@,
        !given(r.east_asia) && !given(r.ascii) && !given(r.hi_ansi) && given(r.cs) ==> run_font_choice(r)
            == r.cs->Some_0@,
        !given(r.east_asia) && !given(r.ascii) && !given(r.hi_ansi) && !given(r.cs) ==> run_font_choice(
            r,
        ).len() == 0,
{
    let cands = seq![name_view(r.east_asia), name_view(r.ascii), name_view(r.hi_ansi), name_view(r.cs)];
    let c1 = cands.drop_first();
    let c2 = c1.drop_first();
    let c3 = c2.drop_first();
    assert(c1 =~= seq![name_view(r.ascii), name_view(r.hi_ansi), name_view(r.cs)]);
    assert(c2 =~= seq![name_view(r.hi_ansi), name_view(r.cs)]);
    assert(c3 =~= seq![name_view(r.cs)]);
    assert(c3.drop_first() =~= Seq::<Option<Seq<char>>>::empty());
    assert(first_nonempty(c3.drop_first()).len() == 0);
    assert(run_font_choice(r) == first_nonempty(cands));
    assert(cands[0] == name_view(r.east_asia) && c1[0] == name_view(r.ascii) && c2[0] == name_view(r.hi_ansi)
        && c3[0] == name_view(r.cs));
    assert(!given(r.east_asia) ==> first_nonempty(cands) == first_nonempty(c1));
    assert(!given(r.ascii) ==> first_nonempty(c1) == first_nonempty(c2));
    assert(!given(r.hi_ansi) ==> first_nonempty(c2) == first_nonempty(c3));
    assert(!given(r.cs) ==> first_nonempty(c3) == first_nonempty(c3.drop_first()));
}

} // verus!
