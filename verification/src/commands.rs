//! The decisions behind the desktop commands: which model files and
//! folders to use, how model variants are named and listed, how results are
//! ordered, and what is reported for rendered pages.
use vstd::prelude::*;
use crate::chars::{chars_of, str_eq, string_of};
use crate::page::PageOrientation;
use crate::renderer::{join_path, path_join};

verus! {

// ───────────────────────── rendered pages ─────────────────────────

/// A rendered page as sent to the user interface.
#[derive(Debug)]
pub struct PageImage {
    pub page: usize,
    pub width: u32,
    pub height: u32,
    pub orientation: String,
    pub image_data: String,
}

/// The pages of a rendered DOCX document: numbered from 0, with their
/// sizes and images, all with the document's orientation.
pub fn docx_page_images(orientation: PageOrientation, sizes: &Vec<(u32, u32)>, images: Vec<String>) -> (r: Vec<PageImage>)
    requires
        sizes@.len() == images@.len(),
    ensures
        r@.len() == sizes@.len(),
        forall|i: int|
            0 <= i < r@.len() ==> {
                &&& (#[trigger] r@[i]).page == i
                &&& r@[i].width == sizes@[i].0
                &&& r@[i].height == sizes@[i].1
                &&& r@[i].orientation@ == (match orientation {
                    PageOrientation::Portrait => "portrait"@,
                    PageOrientation::Landscape => "landscape"@,
                })
                &&& r@[i].image_data == images@[i]
            },
{
    let mut out: Vec<PageImage> = Vec::new();
    let mut rest = images;
    let ghost all = rest@;
    assert(all.skip(0) =~= all);
    let mut i: usize = 0;
    while i < sizes.len()
        invariant
            i <= sizes@.len(),
            sizes@.len() == all.len(),
            rest@ == all.skip(i as int),
            out@.len() == i,
            forall|j: int|
                0 <= j < i ==> {
                    &&& (#[trigger] out@[j]).page == j
                    &&& out@[j].width == sizes@[j].0
                    &&& out@[j].height == sizes@[j].1
                    &&& out@[j].orientation@ == (match orientation {
                        PageOrientation::Portrait => "portrait"@,
                        PageOrientation::Landscape => "landscape"@,
                    })
                    &&& out@[j].image_data == all[j]
                },
        decreases sizes.len() - i,
    {
        let data = rest.remove(0);
        assert(data == all[i as int]);
        assert(rest@ =~= all.skip(i + 1));
        let (w, h) = sizes[i];
        out.push(PageImage {
            page: i,
            width: w,
            height: h,
            orientation: String::from_str(orientation.as_str()),
            image_data: data,
        });
        i = i + 1;
    }
    out
}

/// A rendered PDF page: landscape when wider than tall, else portrait.
pub fn pdf_page_image(page: usize, width: u32, height: u32, image_data: String) -> (r: PageImage)
    ensures
        r.page == page,
        r.width == width,
        r.height == height,
        r.orientation@ == (if width > height {
            "landscape"@
        } else {
            "portrait"@
        }),
        r.image_data == image_data,
{
    let orientation = if width > height { "landscape" } else { "portrait" };
    PageImage { page, width, height, orientation: String::from_str(orientation), image_data }
}

/// The answer to a recognition request: the text blocks, the corrected
/// image when the page was rotated, and the rotation that was detected.
#[derive(Debug)]
pub struct RecognizeResult<B> {
    pub blocks: Vec<B>,
    pub corrected_image: Option<String>,
    pub rotation_angle: u32,
}

/// What a recognition request does about the page's rotation.
#[derive(Debug, Clone, Copy, PartialEq, Eq, Structural)]
pub enum RotationChoice {
    /// Recognise the image as it came, reporting no rotation.
    KeepOriginal,
    /// Recognise the corrected image and send it back, reporting the angle.
    UseCorrected(u32),
}

/// The rotation decision from the angle the orientation classifier found
/// (`None` when there is no classifier or it failed): only a non-zero
/// angle makes the corrected image the one recognised and returned.
pub fn rotation_choice(detected_angle: Option<u32>) -> (r: RotationChoice)
    ensures
        r == (match detected_angle {
            Some(a) => if a != 0 {
                RotationChoice::UseCorrected(a)
            } else {
                RotationChoice::KeepOriginal
            },
            None => RotationChoice::KeepOriginal,
        }),
{
    match detected_angle {
        Some(a) => if a != 0 {
            RotationChoice::UseCorrected(a)
        } else {
            RotationChoice::KeepOriginal
        },
        None => RotationChoice::KeepOriginal,
    }
}

impl RotationChoice {
    /// The rotation reported with the result: 0 for the original image.
    pub fn reported_angle(&self) -> (r: u32)
        ensures
            r == (match *self {
                RotationChoice::KeepOriginal => 0u32,
                RotationChoice::UseCorrected(a) => a,
            }),
    {
        match self {
            RotationChoice::KeepOriginal => 0,
            RotationChoice::UseCorrected(a) => *a,
        }
    }
}

// ───────────────────────── order of results ─────────────────────────

/// How recognised text blocks are ordered.
#[derive(Debug, Clone, Copy, PartialEq, Eq, Structural)]
pub enum OrderBy {
    /// By left edge, then top edge.
    Horizontal,
    /// By top edge, then left edge.
    Vertical,
    /// By confidence, highest first.
    Score,
}

/// The order a recognition request asks for: `"Vertical"` sorts by left
/// edge then top edge, `"Score"` by confidence, anything else (or nothing)
/// by top edge then left edge.
pub fn order_for_request(order_by: Option<&str>) -> (r: OrderBy)
    ensures
        r == (match order_by {
            Some(s) => if s@ == "Vertical"@ {
                OrderBy::Horizontal
            } else if s@ == "Score"@ {
                OrderBy::Score
            } else {
                OrderBy::Vertical
            },
            None => OrderBy::Vertical,
        }),
{
    match order_by {
        Some(s) => if str_eq(s, "Vertical") {
            OrderBy::Horizontal
        } else if str_eq(s, "Score") {
            OrderBy::Score
        } else {
            OrderBy::Vertical
        },
        None => OrderBy::Vertical,
    }
}

// ───────────────────────── model variants ─────────────────────────

/// The position of the first `c` at or after `from` (the length when there
/// is none).
pub open spec fn find_char(s: Seq<char>, c: char, from: int) -> int
    decreases s.len() - from,
{
    if from < 0 || from >= s.len() {
        s.len() as int
    } else if s[from] == c {
        from
    } else {
        find_char(s, c, from + 1)
    }
}

proof fn lemma_find_char(s: Seq<char>, c: char, from: int)
    requires
        0 <= from <= s.len(),
    ensures
        from <= find_char(s, c, from) <= s.len(),
        forall|j: int| from <= j < find_char(s, c, from) ==> s[j] != c,
        find_char(s, c, from) < s.len() ==> s[find_char(s, c, from)] == c,
    decreases s.len() - from,
{
    if from < s.len() && s[from] != c {
        lemma_find_char(s, c, from + 1);
    }
}

/// A variant name `version/spec` split at its slashes: the part before the
/// first one, and the part between the first and the second (to the end
/// when there is no second); a name without a slash is a version alone.
pub open spec fn variant_parts(v: Seq<char>) -> (Seq<char>, Option<Seq<char>>) {
    let a = find_char(v, '/', 0);
    if a < v.len() {
        let b = find_char(v, '/', a + 1);
        (v.subrange(0, a), Some(v.subrange(a + 1, b)))
    } else {
        (v, None)
    }
}

proof fn lemma_find_char_at(s: Seq<char>, c: char, from: int, k: int)
    requires
        0 <= from <= k <= s.len(),
        forall|j: int| from <= j < k ==> s[j] != c,
        k == s.len() || s[k] == c,
    ensures
        find_char(s, c, from) == k,
    decreases k - from,
{
    if from < k {
        lemma_find_char_at(s, c, from + 1, k);
    }
}

/// Law: a listed variant name leads back to its folders: `folder/sub`
/// splits into the folder and the sub-folder, and a bare folder name is a
/// version alone (folder names hold no `/`).
pub proof fn law_listed_variant_splits_back(folder: Seq<char>, sub: Seq<char>)
    requires
        !folder.contains('/'),
        !sub.contains('/'),
    ensures
        variant_parts(folder + "/"@ + sub) == (folder, Some(sub)),
        variant_parts(folder) == (folder, None::<Seq<char>>),
{
    reveal_strlit("/");
    let v = folder + "/"@ + sub;
    assert forall|j: int| 0 <= j < folder.len() implies v[j] != '/' by {
        assert(v[j] == folder[j]);
        if folder[j] == '/' {
            assert(folder.contains('/'));
        }
    }
    assert(v[folder.len() as int] == '/');
    lemma_find_char_at(v, '/', 0, folder.len() as int);
    assert forall|j: int| folder.len() + 1 <= j < v.len() implies v[j] != '/' by {
        assert(v[j] == sub[j - folder.len() - 1]);
        if sub[j - folder.len() - 1] == '/' {
            assert(sub.contains('/'));
        }
    }
    lemma_find_char_at(v, '/', folder.len() as int + 1, v.len() as int);
    assert(v.subrange(0, folder.len() as int) =~= folder);
    assert(v.subrange(folder.len() as int + 1, v.len() as int) =~= sub);
    assert forall|j: int| 0 <= j < folder.len() implies folder[j] != '/' by {
        if folder[j] == '/' {
            assert(folder.contains('/'));
        }
    }
    lemma_find_char_at(folder, '/', 0, folder.len() as int);
}

fn find_char_exec(s: &Vec<char>, c: char, from: usize) -> (r: usize)
    requires
        from <= s@.len(),
    ensures
        r == find_char(s@, c, from as int),
{
    let mut i = from;
    while i < s.len() && s[i] != c
        invariant
            from <= i <= s@.len(),
            find_char(s@, c, from as int) == find_char(s@, c, i as int),
        decreases s.len() - i,
    {
        i = i + 1;
    }
    i
}

fn sub_string(s: &Vec<char>, from: usize, to: usize) -> (r: String)
    requires
        from <= to <= s@.len(),
    ensures
        r@ == s@.subrange(from as int, to as int),
{
    let mut v: Vec<char> = Vec::new();
    let mut k = from;
    while k < to
        invariant
            from <= k <= to,
            to <= s@.len(),
            v@ == s@.subrange(from as int, k as int),
        decreases to - k,
    {
        v.push(s[k]);
        assert(v@ =~= s@.subrange(from as int, k + 1));
        k = k + 1;
    }
    string_of(&v)
}

/// Splits a model variant name such as `v4/mobile` into version and
/// specification.
pub fn split_variant(variant: &str) -> (r: (String, Option<String>))
    ensures
        r.0@ == variant_parts(variant@).0,
        match variant_parts(variant@).1 {
            Some(p) => r.1 matches Some(q) && q@ == p,
            None => r.1 is None,
        },
{
    let v = chars_of(variant);
    let a = find_char_exec(&v, '/', 0);
    proof {
        lemma_find_char(v@, '/', 0);
    }
    if a < v.len() {
        let b = find_char_exec(&v, '/', a + 1);
        proof {
            lemma_find_char(v@, '/', a + 1);
        }
        (sub_string(&v, 0, a), Some(sub_string(&v, a + 1, b)))
    } else {
        (String::from_str(variant), None)
    }
}

/// The model files of a variant: detection model, recognition model and
/// character table.
#[derive(Debug)]
pub struct ModelFiles {
    pub det: String,
    pub rec: String,
    pub keys: String,
}

/// The three files in a folder.
pub open spec fn files_in(dir: Seq<char>) -> (Seq<char>, Seq<char>, Seq<char>) {
    (path_join(dir, "det.onnx"@), path_join(dir, "rec.onnx"@), path_join(dir, "keys.txt"@))
}

/// Model files as plain values.
pub open spec fn files_view(f: ModelFiles) -> (Seq<char>, Seq<char>, Seq<char>) {
    (f.det@, f.rec@, f.keys@)
}

/// `present` answered `b` for the path `p`.
pub open spec fn probed<F: Fn(&String) -> bool>(present: F, p: Seq<char>, b: bool) -> bool {
    exists|s: String| s@ == p && #[trigger] present.ensures((&s,), b)
}

fn files_of(dir: &str) -> (r: ModelFiles)
    ensures
        files_view(r) == files_in(dir@),
{
    ModelFiles {
        det: join_path(dir, "det.onnx"),
        rec: join_path(dir, "rec.onnx"),
        keys: join_path(dir, "keys.txt"),
    }
}

fn probe<F: Fn(&String) -> bool>(present: &F, p: &String) -> (r: bool)
    requires
        forall|s: &String| present.requires((s,)),
    ensures
        probed(*present, p@, r),
{
    let r = present(p);
    assert(present.ensures((p,), r));
    r
}

/// The message for a variant without model files.
pub open spec fn no_model_message(variant: Seq<char>) -> Seq<char> {
    "模型目录 "@ + variant + " 中未找到模型文件"@
}

/// The files for switching to a model variant under `root`: a variant
/// `version/spec` names its folder; a bare version uses its own folder when
/// it holds `det.onnx`, else its `mobile` folder when that does, and fails
/// otherwise.
pub fn switch_model_files<F: Fn(&String) -> bool>(root: &str, variant: &str, present: F) -> (r: Result<ModelFiles, String>)
    requires
        forall|s: &String| present.requires((s,)),
    ensures
        ({
            let (version, spec) = variant_parts(variant@);
            let dir = path_join(root@, version);
            match spec {
                Some(sp) => r matches Ok(f) && files_view(f) == files_in(path_join(dir, sp)),
                None => {
                    let top = files_in(dir);
                    let mobile = files_in(path_join(dir, "mobile"@));
                    match r {
                        Ok(f) => (files_view(f) == top && probed(present, top.0, true)) || (
                        files_view(f) == mobile && probed(present, top.0, false) && probed(
                            present,
                            mobile.0,
                            true,
                        )),
                        Err(m) => m@ == no_model_message(variant@) && probed(present, top.0, false)
                            && probed(present, mobile.0, false),
                    }
                },
            }
        }),
{
    let (version, spec) = split_variant(variant);
    let dir = join_path(root, version.as_str());
    match spec {
        Some(sp) => Ok(files_of(join_path(dir.as_str(), sp.as_str()).as_str())),
        None => {
            let top = files_of(dir.as_str());
            if probe(&present, &top.det) {
                return Ok(top);
            }
            let mobile = files_of(join_path(dir.as_str(), "mobile").as_str());
            if probe(&present, &mobile.det) {
                return Ok(mobile);
            }
            Err(String::from_str("模型目录 ").concat(variant).concat(" 中未找到模型文件"))
        },
    }
}

/// The files of the variant loaded at start-up from folder `root/variant`:
/// its own files when it holds `det.onnx`, else its `mobile` files when that
/// folder does, else the `mobile` detection model with the `server`
/// recognition model and table when `server/rec.onnx` exists; otherwise it
/// fails.
pub fn startup_model_files<F: Fn(&String) -> bool>(root: &str, variant: &str, present: F) -> (r: Result<ModelFiles, String>)
    requires
        forall|s: &String| present.requires((s,)),
    ensures
        ({
            let dir = path_join(root@, variant@);
            let top = files_in(dir);
            let mobile = files_in(path_join(dir, "mobile"@));
            let server = files_in(path_join(dir, "server"@));
            match r {
                Ok(f) => (files_view(f) == top && probed(present, top.0, true)) || (files_view(f)
                    == mobile && probed(present, top.0, false) && probed(present, mobile.0, true)) || (
                files_view(f) == (mobile.0, server.1, server.2) && probed(present, top.0, false)
                    && probed(present, mobile.0, false) && probed(present, server.1, true)),
                Err(m) => m@ == no_model_message(variant@) && probed(present, top.0, false) && probed(
                    present,
                    mobile.0,
                    false,
                ) && probed(present, server.1, false),
            }
        }),
{
    let dir = join_path(root, variant);
    let top = files_of(dir.as_str());
    if probe(&present, &top.det) {
        return Ok(top);
    }
    let mobile = files_of(join_path(dir.as_str(), "mobile").as_str());
    if probe(&present, &mobile.det) {
        return Ok(mobile);
    }
    let server = files_of(join_path(dir.as_str(), "server").as_str());
    if probe(&present, &server.rec) {
        return Ok(ModelFiles { det: mobile.det, rec: server.rec, keys: server.keys });
    }
    Err(String::from_str("模型目录 ").concat(variant).concat(" 中未找到模型文件"))
}

// ───────────────────────── listing variants ─────────────────────────

/// `a` comes before `b` or equals it, character by character.
pub open spec fn lex_le(a: Seq<char>, b: Seq<char>) -> bool
    decreases a.len(),
{
    if a.len() == 0 {
        true
    } else if b.len() == 0 {
        false
    } else if a[0] != b[0] {
        a[0] < b[0]
    } else {
        lex_le(a.drop_first(), b.drop_first())
    }
}

proof fn lemma_lex_total(a: Seq<char>, b: Seq<char>)
    ensures
        lex_le(a, b) || lex_le(b, a),
    decreases a.len(),
{
    if a.len() > 0 && b.len() > 0 && a[0] == b[0] {
        lemma_lex_total(a.drop_first(), b.drop_first());
    }
}

proof fn lemma_lex_trans(a: Seq<char>, b: Seq<char>, c: Seq<char>)
    requires
        lex_le(a, b),
        lex_le(b, c),
    ensures
        lex_le(a, c),
    decreases a.len(),
{
    if a.len() > 0 && b.len() > 0 && c.len() > 0 && a[0] == b[0] && b[0] == c[0] {
        lemma_lex_trans(a.drop_first(), b.drop_first(), c.drop_first());
    }
}

/// Whether `a` comes before `b` or equals it.
pub fn lex_le_exec(a: &String, b: &String) -> (r: bool)
    ensures
        r == lex_le(a@, b@),
{
    let x = chars_of(a.as_str());
    let y = chars_of(b.as_str());
    let mut i: usize = 0;
    proof {
        assert(x@.skip(0) =~= x@);
        assert(y@.skip(0) =~= y@);
    }
    while i < x.len() && i < y.len() && x[i] == y[i]
        invariant
            i <= x@.len(),
            i <= y@.len(),
            lex_le(x@, y@) == lex_le(x@.skip(i as int), y@.skip(i as int)),
        decreases x.len() - i,
    {
        assert(x@.skip(i as int).drop_first() =~= x@.skip(i + 1));
        assert(y@.skip(i as int).drop_first() =~= y@.skip(i + 1));
        i = i + 1;
    }
    if i == x.len() {
        true
    } else if i == y.len() {
        false
    } else {
        x[i] < y[i]
    }
}

/// `e` inserted into `s` after every name that does not come after it.
pub open spec fn insert_lex(s: Seq<Seq<char>>, e: Seq<char>) -> Seq<Seq<char>>
    decreases s.len(),
{
    if s.len() == 0 || lex_le(s.last(), e) {
        s.push(e)
    } else {
        insert_lex(s.drop_last(), e).push(s.last())
    }
}

/// Names sorted in character order.
pub open spec fn sort_lex(s: Seq<Seq<char>>) -> Seq<Seq<char>>
    decreases s.len(),
{
    if s.len() == 0 {
        s
    } else {
        insert_lex(sort_lex(s.drop_last()), s.last())
    }
}

/// The variant names of one model folder: the folder's name when it has no
/// sub-folders, otherwise `folder/sub` for each sub-folder.
pub open spec fn folder_variants(folder: Seq<char>, subs: Seq<Seq<char>>) -> Seq<Seq<char>> {
    if subs.len() == 0 {
        seq![folder]
    } else {
        subs.map_values(|s: Seq<char>| folder + "/"@ + s)
    }
}

/// The variant names of all model folders, in folder order.
pub open spec fn all_variants(folders: Seq<(Seq<char>, Seq<Seq<char>>)>) -> Seq<Seq<char>>
    decreases folders.len(),
{
    if folders.len() == 0 {
        Seq::empty()
    } else {
        all_variants(folders.drop_last()) + folder_variants(folders.last().0, folders.last().1)
    }
}

/// Model folders as plain values.
pub open spec fn folders_view(v: Seq<(String, Vec<String>)>) -> Seq<(Seq<char>, Seq<Seq<char>>)> {
    v.map_values(|f: (String, Vec<String>)| (f.0@, f.1@.map_values(|s: String| s@)))
}

/// Strings as plain character sequences.
pub open spec fn strs_view(v: Seq<String>) -> Seq<Seq<char>> {
    v.map_values(|s: String| s@)
}

/// Names never decrease along `s`.
pub open spec fn lex_ascending(s: Seq<Seq<char>>) -> bool {
    forall|i: int, j: int| 0 <= i <= j < s.len() ==> lex_le(#[trigger] s[i], #[trigger] s[j])
}

proof fn lemma_insert_lex_at(s: Seq<Seq<char>>, e: Seq<char>, pos: int)
    requires
        0 <= pos <= s.len(),
        forall|j: int| pos <= j < s.len() ==> !lex_le(#[trigger] s[j], e),
        pos == 0 || lex_le(s[pos - 1], e),
    ensures
        insert_lex(s, e) == s.insert(pos, e),
    decreases s.len() - pos,
{
    if s.len() == pos {
        assert(s.insert(pos, e) =~= s.push(e));
    } else {
        lemma_insert_lex_at(s.drop_last(), e, pos);
        assert(s.insert(pos, e) =~= s.drop_last().insert(pos, e).push(s.last()));
    }
}

proof fn lemma_insert_lex_bounded(s: Seq<Seq<char>>, e: Seq<char>, b: Seq<char>)
    requires
        forall|i: int| 0 <= i < s.len() ==> lex_le(#[trigger] s[i], b),
        lex_le(e, b),
    ensures
        forall|i: int| 0 <= i < insert_lex(s, e).len() ==> lex_le(#[trigger] insert_lex(s, e)[i], b),
        insert_lex(s, e).len() == s.len() + 1,
    decreases s.len(),
{
    if s.len() == 0 || lex_le(s.last(), e) {
        assert forall|i: int| 0 <= i < s.push(e).len() implies lex_le(#[trigger] s.push(e)[i], b) by {
            if i < s.len() {
                assert(s.push(e)[i] == s[i]);
            }
        }
    } else {
        lemma_insert_lex_bounded(s.drop_last(), e, b);
        let t = insert_lex(s.drop_last(), e);
        assert forall|i: int| 0 <= i < t.push(s.last()).len() implies lex_le(#[trigger] t.push(s.last())[i], b) by {
            if i < t.len() {
                assert(t.push(s.last())[i] == t[i]);
            } else {
                assert(s[s.len() - 1] == s.last());
            }
        }
    }
}

proof fn lemma_insert_lex_sorted(s: Seq<Seq<char>>, e: Seq<char>)
    requires
        lex_ascending(s),
    ensures
        lex_ascending(insert_lex(s, e)),
        insert_lex(s, e).len() == s.len() + 1,
    decreases s.len(),
{
    if s.len() == 0 || lex_le(s.last(), e) {
        let t = s.push(e);
        assert forall|i: int, j: int| 0 <= i <= j < t.len() implies lex_le(#[trigger] t[i], #[trigger] t[j]) by {
            if j == s.len() && i < s.len() {
                lemma_lex_trans(s[i], s.last(), e);
            } else if j == s.len() {
                lemma_lex_refl(e);
            }
        }
    } else {
        lemma_insert_lex_sorted(s.drop_last(), e);
        lemma_lex_total(s.last(), e);
        assert forall|i: int| 0 <= i < s.drop_last().len() implies lex_le(#[trigger] s.drop_last()[i], s.last()) by {
            assert(s.drop_last()[i] == s[i]);
        }
        lemma_insert_lex_bounded(s.drop_last(), e, s.last());
        let t = insert_lex(s.drop_last(), e);
        let u = t.push(s.last());
        assert forall|i: int, j: int| 0 <= i <= j < u.len() implies lex_le(#[trigger] u[i], #[trigger] u[j]) by {
            if j == t.len() && i < t.len() {
                assert(u[i] == t[i]);
            } else if j == t.len() {
                lemma_lex_refl(s.last());
            } else {
                assert(u[i] == t[i]);
                assert(u[j] == t[j]);
            }
        }
    }
}

proof fn lemma_lex_refl(a: Seq<char>)
    ensures
        lex_le(a, a),
    decreases a.len(),
{
    if a.len() > 0 {
        lemma_lex_refl(a.drop_first());
    }
}

proof fn lemma_insert_lex_multiset(s: Seq<Seq<char>>, e: Seq<char>)
    ensures
        insert_lex(s, e).to_multiset() =~= s.to_multiset().insert(e),
    decreases s.len(),
{
    broadcast use vstd::seq_lib::group_to_multiset_ensures;
    broadcast use vstd::multiset::group_multiset_axioms;

    if s.len() == 0 || lex_le(s.last(), e) {
    } else {
        lemma_insert_lex_multiset(s.drop_last(), e);
        assert(s.drop_last().push(s.last()) =~= s);
    }
}

/// Law: the listed variant names come out in character order, the same
/// names as found, none lost or added.
pub proof fn law_variants_sorted(names: Seq<Seq<char>>)
    ensures
        lex_ascending(sort_lex(names)),
        sort_lex(names).len() == names.len(),
        sort_lex(names).to_multiset() == names.to_multiset(),
    decreases names.len(),
{
    broadcast use vstd::seq_lib::group_to_multiset_ensures;

    if names.len() > 0 {
        law_variants_sorted(names.drop_last());
        lemma_insert_lex_sorted(sort_lex(names.drop_last()), names.last());
        lemma_insert_lex_multiset(sort_lex(names.drop_last()), names.last());
        assert(names.drop_last().push(names.last()) =~= names);
    }
}

/// The model variants of the model folders found, each given by its name
/// and the names of its sub-folders, sorted by name.
pub fn model_variant_names(folders: &Vec<(String, Vec<String>)>) -> (r: Vec<String>)
    ensures
        strs_view(r@) == sort_lex(all_variants(folders_view(folders@))),
{
    let ghost fv = folders_view(folders@);
    let mut names: Vec<String> = Vec::new();
    let mut i: usize = 0;
    assert(strs_view(names@) =~= all_variants(fv.take(0)));
    while i < folders.len()
        invariant
            i <= folders@.len(),
            fv == folders_view(folders@),
            strs_view(names@) == all_variants(fv.take(i as int)),
        decreases folders.len() - i,
    {
        let (folder, subs) = (&folders[i].0, &folders[i].1);
        assert(fv.take(i + 1).drop_last() =~= fv.take(i as int));
        assert(fv.take(i + 1).last() == fv[i as int]);
        let ghost before = strs_view(names@);
        if subs.len() == 0 {
            names.push(folder.clone());
            assert(strs_view(names@) =~= before + folder_variants(folder@, subs@.map_values(|s: String| s@)));
        } else {
            let mut k: usize = 0;
            while k < subs.len()
                invariant
                    k <= subs@.len(),
                    strs_view(names@) == before + subs@.map_values(|s: String| s@).take(k as int).map_values(
                        |s: Seq<char>| folder@ + "/"@ + s,
                    ),
                decreases subs.len() - k,
            {
                let name = folder.clone().concat("/").concat(subs[k].as_str());
                let ghost prev = strs_view(names@);
                names.push(name);
                assert(strs_view(names@) =~= prev.push(folder@ + "/"@ + subs@[k as int]@));
                assert(subs@.map_values(|s: String| s@).take(k + 1).map_values(|s: Seq<char>| folder@ + "/"@ + s)
                    =~= subs@.map_values(|s: String| s@).take(k as int).map_values(|s: Seq<char>| folder@ + "/"@ + s).push(
                    folder@ + "/"@ + subs@[k as int]@));
                k = k + 1;
            }
            assert(subs@.map_values(|s: String| s@).take(subs@.len() as int) =~= subs@.map_values(|s: String| s@));
        }
        i = i + 1;
    }
    assert(fv.take(fv.len() as int) =~= fv);
    sort_names(names)
}

/// Sorts names in character order.
pub fn sort_names(names: Vec<String>) -> (r: Vec<String>)
    ensures
        strs_view(r@) == sort_lex(strs_view(names@)),
{
    let ghost all = strs_view(names@);
    let ghost n = all.len();
    let mut input = names;
    let mut out: Vec<String> = Vec::new();
    assert(strs_view(input@) =~= all.skip(0));
    assert(all.take(0) =~= Seq::<Seq<char>>::empty());
    while input.len() > 0
        invariant
            n == all.len(),
            input@.len() <= n,
            strs_view(input@) == all.skip(n - input@.len()),
            strs_view(out@) == sort_lex(all.take(n - input@.len())),
            lex_ascending(strs_view(out@)),
        decreases input.len(),
    {
        let ghost k = n - input@.len();
        let ghost before_in = strs_view(input@);
        let ghost old_in = input@;
        let e = input.remove(0);
        assert(before_in[0] == e@);
        assert(all[k] == e@);
        assert(input@ =~= old_in.subrange(1, old_in.len() as int));
        assert forall|j: int| 0 <= j < input@.len() implies #[trigger] strs_view(input@)[j] == all.skip(k + 1)[j] by {
            assert(strs_view(input@)[j] == old_in[j + 1]@);
            assert(before_in[j + 1] == old_in[j + 1]@);
            assert(before_in[j + 1] == all[k + 1 + j]);
        }
        assert(strs_view(input@) =~= all.skip(k + 1));
        assert(all.take(k + 1).drop_last() =~= all.take(k));
        let mut pos = out.len();
        while pos > 0 && !lex_le_exec(&out[pos - 1], &e)
            invariant
                pos <= out@.len(),
                forall|j: int| pos <= j < out@.len() ==> !lex_le(#[trigger] strs_view(out@)[j], e@),
            decreases pos,
        {
            assert(strs_view(out@)[pos - 1] == out@[pos - 1]@);
            pos = pos - 1;
        }
        proof {
            if pos > 0 {
                assert(strs_view(out@)[pos - 1] == out@[pos - 1]@);
            }
            lemma_insert_lex_at(strs_view(out@), e@, pos as int);
            lemma_insert_lex_sorted(strs_view(out@), e@);
        }
        let ghost before_out = strs_view(out@);
        out.insert(pos, e);
        assert(strs_view(out@) =~= before_out.insert(pos as int, e@));
    }
    assert(all.take(n as int) =~= all);
    out
}

// ───────────────────────── folders and files to look for ─────────────────────────

/// The first path that `present` accepts, all earlier ones refused.
pub open spec fn first_existing_result<F: Fn(&String) -> bool>(cands: Seq<Seq<char>>, present: F, r: Option<String>) -> bool {
    match r {
        Some(p) => exists|i: int|
            0 <= i < cands.len() && cands[i] == p@ && #[trigger] probed(present, cands[i], true) && forall|
                j: int,
            |
                0 <= j < i ==> probed(present, #[trigger] cands[j], false),
        None => forall|j: int| 0 <= j < cands.len() ==> probed(present, #[trigger] cands[j], false),
    }
}

/// The first path of the list that `present` accepts.
pub fn first_existing<F: Fn(&String) -> bool>(cands: &Vec<String>, present: F) -> (r: Option<String>)
    requires
        forall|s: &String| present.requires((s,)),
    ensures
        first_existing_result(strs_view(cands@), present, r),
{
    let ghost cv = strs_view(cands@);
    let mut i: usize = 0;
    while i < cands.len()
        invariant
            i <= cands@.len(),
            cv == strs_view(cands@),
            forall|s: &String| present.requires((s,)),
            forall|j: int| 0 <= j < i ==> probed(present, #[trigger] cv[j], false),
        decreases cands.len() - i,
    {
        let ok = probe(&present, &cands[i]);
        assert(cv[i as int] == cands@[i as int]@);
        if ok {
            return Some(cands[i].clone());
        }
        i = i + 1;
    }
    None
}

/// Where the OCR models may be: the bundled resources, then the
/// development folders.
pub open spec fn models_root_candidates(resource_dir: Option<Seq<char>>) -> Seq<Seq<char>> {
    let dev = seq![
        path_join(path_join("src-tauri"@, "models"@), "ocr"@),
        path_join("models"@, "ocr"@),
    ];
    match resource_dir {
        Some(r) => seq![path_join(path_join(r, "models"@), "ocr"@)] + dev,
        None => dev,
    }
}

/// Where the OCR models may be.
pub fn models_root_candidates_exec(resource_dir: Option<&str>) -> (r: Vec<String>)
    ensures
        strs_view(r@) == models_root_candidates(match resource_dir {
            Some(s) => Some(s@),
            None => None,
        }),
{
    let mut v: Vec<String> = Vec::new();
    match resource_dir {
        Some(r) => v.push(join_path(join_path(r, "models").as_str(), "ocr")),
        None => {},
    }
    v.push(join_path(join_path("src-tauri", "models").as_str(), "ocr"));
    v.push(join_path("models", "ocr"));
    assert(strs_view(v@) =~= models_root_candidates(match resource_dir {
        Some(s) => Some(s@),
        None => None,
    }));
    v
}

/// Where the document orientation model may be: the bundled resources,
/// then the development folders.
pub open spec fn orientation_model_candidates(resource_dir: Option<Seq<char>>) -> Seq<Seq<char>> {
    let rel = |base: Seq<char>| path_join(path_join(path_join(base, "models"@), "PP-LCNet_x1_0_doc_ori"@), "PP-LCNet_x1_0_doc_ori.onnx"@);
    let dev = seq![
        path_join(path_join(path_join("src-tauri"@, "models"@), "PP-LCNet_x1_0_doc_ori"@), "PP-LCNet_x1_0_doc_ori.onnx"@),
        path_join(path_join("models"@, "PP-LCNet_x1_0_doc_ori"@), "PP-LCNet_x1_0_doc_ori.onnx"@),
    ];
    match resource_dir {
        Some(r) => seq![rel(r)] + dev,
        None => dev,
    }
}

/// Where the document orientation model may be.
pub fn orientation_model_candidates_exec(resource_dir: Option<&str>) -> (r: Vec<String>)
    ensures
        strs_view(r@) == orientation_model_candidates(match resource_dir {
            Some(s) => Some(s@),
            None => None,
        }),
{
    let mut v: Vec<String> = Vec::new();
    match resource_dir {
        Some(r) => v.push(join_path(
            join_path(join_path(r, "models").as_str(), "PP-LCNet_x1_0_doc_ori").as_str(),
            "PP-LCNet_x1_0_doc_ori.onnx",
        )),
        None => {},
    }
    v.push(join_path(
        join_path(join_path("src-tauri", "models").as_str(), "PP-LCNet_x1_0_doc_ori").as_str(),
        "PP-LCNet_x1_0_doc_ori.onnx",
    ));
    v.push(join_path(join_path("models", "PP-LCNet_x1_0_doc_ori").as_str(), "PP-LCNet_x1_0_doc_ori.onnx"));
    assert(strs_view(v@) =~= orientation_model_candidates(match resource_dir {
        Some(s) => Some(s@),
        None => None,
    }));
    v
}

/// Where the bundled converters may be: the platform folder and the plain
/// `tools` folder of the resources, then of the repository.
pub open spec fn tools_dir_candidates(resource_dir: Option<Seq<char>>, repo_root: Seq<char>, os: Seq<char>, arch: Seq<char>) -> Seq<Seq<char>> {
    let triple = os + "-"@ + arch;
    let repo = seq![path_join(path_join(repo_root, "tools"@), triple), path_join(repo_root, "tools"@)];
    match resource_dir {
        Some(r) => seq![path_join(path_join(r, "tools"@), triple), path_join(r, "tools"@)] + repo,
        None => repo,
    }
}

/// Where the bundled converters may be.
pub fn tools_dir_candidates_exec(resource_dir: Option<&str>, repo_root: &str, os: &str, arch: &str) -> (r: Vec<String>)
    ensures
        strs_view(r@) == tools_dir_candidates(
            match resource_dir {
                Some(s) => Some(s@),
                None => None,
            },
            repo_root@,
            os@,
            arch@,
        ),
{
    let triple = String::from_str(os).concat("-").concat(arch);
    let mut v: Vec<String> = Vec::new();
    match resource_dir {
        Some(r) => {
            v.push(join_path(join_path(r, "tools").as_str(), triple.as_str()));
            v.push(join_path(r, "tools"));
        },
        None => {},
    }
    v.push(join_path(join_path(repo_root, "tools").as_str(), triple.as_str()));
    v.push(join_path(repo_root, "tools"));
    assert(strs_view(v@) =~= tools_dir_candidates(
        match resource_dir {
            Some(s) => Some(s@),
            None => None,
        },
        repo_root@,
        os@,
        arch@,
    ));
    v
}

} // verus!
