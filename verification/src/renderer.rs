//! The DOCX/PDF renderer: its settings, where it looks for the external
//! converters, in which order it tries them, and the command lines and
//! HTML adjustments it uses.  Running the converters is left to the caller.
use vstd::prelude::*;
use crate::chars::{decimal, decimal_string, replace_all, replace_all_chars};
use crate::error::DocxToImageError;
use crate::page::{detect_page_info, page_info_for, parsed_view, selected_page_size, DocxPageSizes, PageInfo};

verus! {

/// Resolution used when none is set.
pub const DEFAULT_DPI: u32 = 200;

/// The settings of a renderer, as plain values.
pub struct RendererSettings {
    pub dpi: u32,
    pub tool_dirs: Seq<Seq<char>>,
    pub gs: Option<Seq<char>>,
    pub pandoc: Option<Seq<char>>,
    pub wkhtmltoimage: Option<Seq<char>>,
}

/// An optional string as plain characters.
pub open spec fn opt_view(o: Option<String>) -> Option<Seq<char>> {
    match o {
        Some(s) => Some(s@),
        None => None,
    }
}

/// Renders DOCX and PDF documents to images with external converters.
pub struct DocxRenderer {
    dpi: u32,
    tool_search_dirs: Vec<String>,
    gs_path: Option<String>,
    pandoc_path: Option<String>,
    wkhtmltoimage_path: Option<String>,
}

impl View for DocxRenderer {
    type V = RendererSettings;

    closed spec fn view(&self) -> RendererSettings {
        RendererSettings {
            dpi: self.dpi,
            tool_dirs: self.tool_search_dirs@.map_values(|d: String| d@),
            gs: opt_view(self.gs_path),
            pandoc: opt_view(self.pandoc_path),
            wkhtmltoimage: opt_view(self.wkhtmltoimage_path),
        }
    }
}

impl DocxRenderer {
    /// A renderer at 200 DPI with no tool directory and no explicit tool.
    pub fn new() -> (r: Self)
        ensures
            r@ == (RendererSettings {
                dpi: DEFAULT_DPI,
                tool_dirs: Seq::empty(),
                gs: None,
                pandoc: None,
                wkhtmltoimage: None,
            }),
    {
        let r = DocxRenderer {
            dpi: DEFAULT_DPI,
            tool_search_dirs: Vec::new(),
            gs_path: None,
            pandoc_path: None,
            wkhtmltoimage_path: None,
        };
        assert(r@.tool_dirs =~= Seq::<Seq<char>>::empty());
        r
    }

    /// The same renderer at another resolution.
    pub fn with_dpi(self, dpi: u32) -> (r: Self)
        ensures
            r@ == (RendererSettings { dpi, ..self@ }),
    {
        let mut s = self;
        s.dpi = dpi;
        s
    }

    /// The same renderer, also looking for tools in `dir` (after the
    /// directories added before).
    pub fn add_tool_dir(self, dir: String) -> (r: Self)
        ensures
            r@ == (RendererSettings { tool_dirs: self@.tool_dirs.push(dir@), ..self@ }),
    {
        let mut s = self;
        let ghost old_dirs = s.tool_search_dirs@;
        s.tool_search_dirs.push(dir);
        assert(s.tool_search_dirs@.map_values(|d: String| d@) =~= old_dirs.map_values(
            |d: String| d@,
        ).push(dir@));
        s
    }

    /// The same renderer with an explicit Ghostscript executable.
    pub fn set_gs(self, path: String) -> (r: Self)
        ensures
            r@ == (RendererSettings { gs: Some(path@), ..self@ }),
    {
        let mut s = self;
        s.gs_path = Some(path);
        s
    }

    /// The same renderer with an explicit pandoc executable.
    pub fn set_pandoc(self, path: String) -> (r: Self)
        ensures
            r@ == (RendererSettings { pandoc: Some(path@), ..self@ }),
    {
        let mut s = self;
        s.pandoc_path = Some(path);
        s
    }

    /// The same renderer with an explicit wkhtmltoimage executable.
    pub fn set_wkhtmltoimage(self, path: String) -> (r: Self)
        ensures
            r@ == (RendererSettings { wkhtmltoimage: Some(path@), ..self@ }),
    {
        let mut s = self;
        s.wkhtmltoimage_path = Some(path);
        s
    }

    /// The resolution pages are rendered at.
    pub fn dpi(&self) -> (r: u32)
        ensures
            r == self@.dpi,
    {
        self.dpi
    }

    /// The explicit pandoc executable, if one was set.
    pub fn pandoc_path(&self) -> (r: &Option<String>)
        ensures
            opt_view(*r) == self@.pandoc,
    {
        &self.pandoc_path
    }

    /// The explicit wkhtmltoimage executable, if one was set.
    pub fn wkhtmltoimage_path(&self) -> (r: &Option<String>)
        ensures
            opt_view(*r) == self@.wkhtmltoimage,
    {
        &self.wkhtmltoimage_path
    }

    /// Page size and orientation of a DOCX document at this renderer's
    /// resolution, without rendering it, from what the DOCX reader found in
    /// it (`None` when the file could not be read).
    pub fn page_info(&self, parsed: &Option<DocxPageSizes>) -> (r: PageInfo)
        ensures
            r == page_info_for(selected_page_size(parsed_view(*parsed)), self@.dpi),
    {
        detect_page_info(parsed, self.dpi)
    }
}

// ───────────────────────── tool lookup ─────────────────────────

/// What `std::path::Path::join` gives for a directory and a file name.
pub uninterp spec fn path_join(dir: Seq<char>, name: Seq<char>) -> Seq<char>;

/// Joins a file name to a directory (`std::path::Path::join`).
#[verifier::external_body]
pub(crate) fn join_path(dir: &str, name: &str) -> (r: String)
    ensures
        r@ == path_join(dir@, name@),
{
    std::path::Path::new(dir).join(name).to_string_lossy().into_owned()
}

/// A place where a converter may be found.
#[derive(Debug)]
pub enum ToolCandidate {
    /// An executable file at this path, used when the file exists.
    File(String),
    /// A program of this name on the search path, used when it runs.
    OnPath(String),
}

/// A candidate as plain values: whether it is a file, and its path or name.
pub open spec fn candidate_view(c: ToolCandidate) -> (bool, Seq<char>) {
    match c {
        ToolCandidate::File(p) => (true, p@),
        ToolCandidate::OnPath(n) => (false, n@),
    }
}

/// Candidates as plain values.
pub open spec fn candidates_view(v: Seq<ToolCandidate>) -> Seq<(bool, Seq<char>)> {
    v.map_values(|c: ToolCandidate| candidate_view(c))
}

/// `name` and `name.exe` in each directory, directory by directory.
pub open spec fn dir_candidates(dirs: Seq<Seq<char>>, name: Seq<char>) -> Seq<(bool, Seq<char>)>
    decreases dirs.len(),
{
    if dirs.len() == 0 {
        Seq::empty()
    } else {
        dir_candidates(dirs.drop_last(), name) + seq![
            (true, path_join(dirs.last(), name)),
            (true, path_join(dirs.last(), name + ".exe"@)),
        ]
    }
}

/// The explicit path first, if set.
pub open spec fn explicit_candidate(explicit: Option<Seq<char>>) -> Seq<(bool, Seq<char>)> {
    match explicit {
        Some(p) => seq![(true, p)],
        None => Seq::empty(),
    }
}

/// Where a tool is looked for, in order: the explicit path, then `name`
/// and `name.exe` in each tool directory, then `name` on the search path.
pub open spec fn tool_candidates_for(dirs: Seq<Seq<char>>, name: Seq<char>, explicit: Option<Seq<char>>) -> Seq<(bool, Seq<char>)> {
    explicit_candidate(explicit) + dir_candidates(dirs, name) + seq![(false, name)]
}

/// The executable names of Ghostscript on a platform.
pub open spec fn gs_names(windows: bool) -> Seq<Seq<char>> {
    if windows {
        seq!["gswin64c"@, "gswin32c"@]
    } else {
        seq!["gs"@]
    }
}

/// For each name in turn: the tool directories, then the search path.
pub open spec fn names_candidates(dirs: Seq<Seq<char>>, names: Seq<Seq<char>>) -> Seq<(bool, Seq<char>)>
    decreases names.len(),
{
    if names.len() == 0 {
        Seq::empty()
    } else {
        names_candidates(dirs, names.drop_last()) + dir_candidates(dirs, names.last()) + seq![
            (false, names.last()),
        ]
    }
}

/// Where Ghostscript is looked for, in order.
pub open spec fn gs_candidates_for(dirs: Seq<Seq<char>>, explicit: Option<Seq<char>>, windows: bool) -> Seq<(bool, Seq<char>)> {
    explicit_candidate(explicit) + names_candidates(dirs, gs_names(windows))
}

/// Appends `name` and `name.exe` in each directory.
fn push_dir_candidates(out: &mut Vec<ToolCandidate>, dirs: &Vec<String>, name: &str)
    ensures
        candidates_view(final(out)@) == candidates_view(old(out)@) + dir_candidates(
            dirs@.map_values(|d: String| d@),
            name@,
        ),
{
    let ghost dv = dirs@.map_values(|d: String| d@);
    let ghost start = candidates_view(out@);
    let exe = String::from_str(name).concat(".exe");
    let mut i: usize = 0;
    while i < dirs.len()
        invariant
            i <= dirs@.len(),
            dv == dirs@.map_values(|d: String| d@),
            exe@ == name@ + ".exe"@,
            candidates_view(out@) == start + dir_candidates(dv.take(i as int), name@),
        decreases dirs.len() - i,
    {
        let ghost before = candidates_view(out@);
        out.push(ToolCandidate::File(join_path(dirs[i].as_str(), name)));
        out.push(ToolCandidate::File(join_path(dirs[i].as_str(), exe.as_str())));
        assert(dv.take(i + 1).drop_last() =~= dv.take(i as int));
        assert(candidates_view(out@) =~= before + seq![
            (true, path_join(dv[i as int], name@)),
            (true, path_join(dv[i as int], name@ + ".exe"@)),
        ]);
        i = i + 1;
    }
    assert(dv.take(dirs@.len() as int) =~= dv);
}

impl DocxRenderer {
    /// Where the tool `name` is looked for, in order.
    pub fn tool_candidates(&self, name: &str, explicit: &Option<String>) -> (r: Vec<ToolCandidate>)
        ensures
            candidates_view(r@) == tool_candidates_for(self@.tool_dirs, name@, opt_view(*explicit)),
    {
        let mut out: Vec<ToolCandidate> = Vec::new();
        match explicit {
            Some(p) => out.push(ToolCandidate::File(p.clone())),
            None => {},
        }
        assert(candidates_view(out@) =~= explicit_candidate(opt_view(*explicit)));
        push_dir_candidates(&mut out, &self.tool_search_dirs, name);
        let ghost before = candidates_view(out@);
        out.push(ToolCandidate::OnPath(String::from_str(name)));
        assert(candidates_view(out@) =~= before + seq![(false, name@)]);
        out
    }

    /// Where Ghostscript is looked for, in order (`windows` selects the
    /// Windows executable names).
    pub fn gs_candidates(&self, windows: bool) -> (r: Vec<ToolCandidate>)
        ensures
            candidates_view(r@) == gs_candidates_for(self@.tool_dirs, self@.gs, windows),
    {
        let mut out: Vec<ToolCandidate> = Vec::new();
        match &self.gs_path {
            Some(p) => out.push(ToolCandidate::File(p.clone())),
            None => {},
        }
        assert(candidates_view(out@) =~= explicit_candidate(self@.gs));
        let ghost names = gs_names(windows);
        let ghost dv = self@.tool_dirs;
        let ghost start = candidates_view(out@);
        if windows {
            let ghost n1 = names.drop_last();
            assert(n1.drop_last() =~= Seq::<Seq<char>>::empty());
            assert(names_candidates(dv, n1.drop_last()) =~= Seq::<(bool, Seq<char>)>::empty());
            assert(n1.last() == "gswin64c"@);
            assert(names.last() == "gswin32c"@);
            push_dir_candidates(&mut out, &self.tool_search_dirs, "gswin64c");
            let ghost a = candidates_view(out@);
            out.push(ToolCandidate::OnPath(String::from_str("gswin64c")));
            assert(candidates_view(out@) =~= a + seq![(false, "gswin64c"@)]);
            assert(candidates_view(out@) =~= start + names_candidates(dv, n1));
            push_dir_candidates(&mut out, &self.tool_search_dirs, "gswin32c");
            let ghost b = candidates_view(out@);
            out.push(ToolCandidate::OnPath(String::from_str("gswin32c")));
            assert(candidates_view(out@) =~= b + seq![(false, "gswin32c"@)]);
            assert(candidates_view(out@) =~= start + names_candidates(dv, names));
        } else {
            assert(names.drop_last() =~= Seq::<Seq<char>>::empty());
            assert(names_candidates(dv, names.drop_last()) =~= Seq::<(bool, Seq<char>)>::empty());
            push_dir_candidates(&mut out, &self.tool_search_dirs, "gs");
            let ghost a = candidates_view(out@);
            out.push(ToolCandidate::OnPath(String::from_str("gs")));
            assert(candidates_view(out@) =~= a + seq![(false, "gs"@)]);
            assert(candidates_view(out@) =~= start + names_candidates(dv, names));
        }
        assert(candidates_view(out@) =~= gs_candidates_for(self@.tool_dirs, self@.gs, windows));
        out
    }

    /// Looks for the tool `name` (explicit path, tool directories, search
    /// path) and returns the first candidate that `available` accepts.
    pub fn find_tool<F: Fn(&ToolCandidate) -> bool>(&self, name: &str, explicit: &Option<String>, available: F) -> (r: Option<String>)
        requires
            forall|c: &ToolCandidate| available.requires((c,)),
        ensures
            first_available_result(
                tool_candidates_for(self@.tool_dirs, name@, opt_view(*explicit)),
                available,
                r,
            ),
    {
        let cands = self.tool_candidates(name, explicit);
        first_available(&cands, available)
    }

    /// Looks for Ghostscript and returns the first candidate that
    /// `available` accepts.
    pub fn find_gs<F: Fn(&ToolCandidate) -> bool>(&self, windows: bool, available: F) -> (r: Option<String>)
        requires
            forall|c: &ToolCandidate| available.requires((c,)),
        ensures
            first_available_result(gs_candidates_for(self@.tool_dirs, self@.gs, windows), available, r),
    {
        let cands = self.gs_candidates(windows);
        first_available(&cands, available)
    }
}

/// `available` answered `b` for a candidate with this plain view.
pub open spec fn answered<F: Fn(&ToolCandidate) -> bool>(available: F, cand: (bool, Seq<char>), b: bool) -> bool {
    exists|c: ToolCandidate| candidate_view(c) == cand && #[trigger] available.ensures((&c,), b)
}

/// `r` is the path or name of the first candidate for which `available`
/// answered yes, every earlier one having been answered no; `None` when all
/// were answered no.
pub open spec fn first_available_result<F: Fn(&ToolCandidate) -> bool>(cands: Seq<(bool, Seq<char>)>, available: F, r: Option<String>) -> bool {
    match r {
        Some(p) => exists|i: int|
            0 <= i < cands.len() && cands[i].1 == p@ && #[trigger] answered(available, cands[i], true)
                && forall|j: int| 0 <= j < i ==> answered(available, #[trigger] cands[j], false),
        None => forall|j: int| 0 <= j < cands.len() ==> answered(available, #[trigger] cands[j], false),
    }
}

/// `available` never gave both answers for one of these candidates (the
/// files and programs they name did not change between probes).
pub open spec fn answers_consistently<F: Fn(&ToolCandidate) -> bool>(available: F, cands: Seq<(bool, Seq<char>)>) -> bool {
    forall|j: int|
        0 <= j < cands.len() ==> !(answered(available, #[trigger] cands[j], true) && answered(
            available,
            cands[j],
            false,
        ))
}

/// Law: adding a tool directory keeps every earlier candidate in its place
/// and puts the new directory's two files just before the search path.
pub proof fn law_added_dir_keeps_order(dirs: Seq<Seq<char>>, d: Seq<char>, name: Seq<char>, explicit: Option<Seq<char>>)
    ensures
        tool_candidates_for(dirs.push(d), name, explicit) == tool_candidates_for(dirs, name, explicit).drop_last()
            + seq![(true, path_join(d, name)), (true, path_join(d, name + ".exe"@)), (false, name)],
{
    assert(dirs.push(d).drop_last() =~= dirs);
    assert(tool_candidates_for(dirs.push(d), name, explicit) =~= tool_candidates_for(dirs, name, explicit).drop_last()
        + seq![(true, path_join(d, name)), (true, path_join(d, name + ".exe"@)), (false, name)]);
}

/// Law: a tool found at the explicit path or in a tool directory is still
/// the one found after another directory is added, when the probe answers
/// alike for the candidates both searches share.
pub proof fn law_added_dir_keeps_hit<F: Fn(&ToolCandidate) -> bool>(
    dirs: Seq<Seq<char>>,
    d: Seq<char>,
    name: Seq<char>,
    explicit: Option<Seq<char>>,
    available: F,
    found: String,
    after: Option<String>,
)
    requires
        answers_consistently(available, tool_candidates_for(dirs, name, explicit)),
        first_available_result(tool_candidates_for(dirs, name, explicit), available, Some(found)),
        found@ != name,
        first_available_result(tool_candidates_for(dirs.push(d), name, explicit), available, after),
    ensures
        after matches Some(a) && a@ == found@,
{
    let old_c = tool_candidates_for(dirs, name, explicit);
    let new_c = tool_candidates_for(dirs.push(d), name, explicit);
    law_added_dir_keeps_order(dirs, d, name, explicit);
    let i = choose|i: int|
        0 <= i < old_c.len() && old_c[i].1 == found@ && #[trigger] answered(available, old_c[i], true)
            && forall|j: int| 0 <= j < i ==> answered(available, #[trigger] old_c[j], false);
    assert(old_c.last() == (false, name));
    assert(i < old_c.len() - 1);
    assert(new_c[i] == old_c[i]);
    assert(!answered(available, old_c[i], false));
    match after {
        Some(a) => {
            let i2 = choose|i2: int|
                0 <= i2 < new_c.len() && new_c[i2].1 == a@ && #[trigger] answered(available, new_c[i2], true)
                    && forall|j: int| 0 <= j < i2 ==> answered(available, #[trigger] new_c[j], false);
            if i2 < i {
                assert(new_c[i2] == old_c[i2]);
                assert(answered(available, old_c[i2], false));
                assert(!(answered(available, old_c[i2], true) && answered(available, old_c[i2], false)));
            } else if i2 > i {
                assert(answered(available, new_c[i], false));
            }
        },
        None => {
            assert(answered(available, new_c[i], false));
        },
    }
}

/// Law: an explicit Ghostscript path that the probe accepts (and never
/// rejects: the file exists) is the one found, whatever the tool
/// directories and the search path hold.
pub proof fn law_explicit_gs_wins<F: Fn(&ToolCandidate) -> bool>(
    dirs: Seq<Seq<char>>,
    path: Seq<char>,
    windows: bool,
    available: F,
    found: Option<String>,
)
    requires
        answered(available, (true, path), true),
        !answered(available, (true, path), false),
        first_available_result(gs_candidates_for(dirs, Some(path), windows), available, found),
    ensures
        found matches Some(f) && f@ == path,
{
    let c = gs_candidates_for(dirs, Some(path), windows);
    assert(c[0] == (true, path));
    match found {
        Some(f) => {
            let i = choose|i: int|
                0 <= i < c.len() && c[i].1 == f@ && #[trigger] answered(available, c[i], true)
                    && forall|j: int| 0 <= j < i ==> answered(available, #[trigger] c[j], false);
            if i > 0 {
                assert(answered(available, c[0], false));
            }
        },
        None => {
            assert(answered(available, c[0], false));
        },
    }
}

/// The path or name of the first candidate that `available` accepts.
pub fn first_available<F: Fn(&ToolCandidate) -> bool>(cands: &Vec<ToolCandidate>, available: F) -> (r: Option<String>)
    requires
        forall|c: &ToolCandidate| available.requires((c,)),
    ensures
        first_available_result(candidates_view(cands@), available, r),
{
    let ghost cv = candidates_view(cands@);
    let mut i: usize = 0;
    while i < cands.len()
        invariant
            i <= cands@.len(),
            cv == candidates_view(cands@),
            forall|c: &ToolCandidate| available.requires((c,)),
            forall|j: int| 0 <= j < i ==> answered(available, #[trigger] cv[j], false),
        decreases cands.len() - i,
    {
        let c = &cands[i];
        let ok = available(c);
        if ok {
            let p = match c {
                ToolCandidate::File(p) => p.clone(),
                ToolCandidate::OnPath(n) => n.clone(),
            };
            assert(candidate_view(*c) == cv[i as int]);
            assert(answered(available, cv[i as int], true));
            return Some(p);
        }
        assert(candidate_view(*c) == cv[i as int]);
        assert(answered(available, cv[i as int], false));
        i = i + 1;
    }
    None
}

// ───────────────────────── order of the converters ─────────────────────────

/// The message given when no converter can be used.
pub const NO_TOOL_MESSAGE: &'static str = "没有找到可用的转换工具。请将工具放在以下位置之一：\n• 系统 PATH 环境变量中\n• src-tauri/tools/<平台架构>/ 目录下\n\n需要安装的工具：将 pandoc + wkhtmltopdf + Ghostscript 放入 tools/ 目录\n运行 scripts/download-tools.ps1 自动下载";

/// The error for a missing converter.
pub fn no_tool_error() -> (e: DocxToImageError)
    ensures
        e matches DocxToImageError::NoTool(m) && m@ == NO_TOOL_MESSAGE@,
{
    DocxToImageError::NoTool(String::from_str(NO_TOOL_MESSAGE))
}

/// What the caller does next while rendering a DOCX document.
pub enum RenderAction<T> {
    /// Look for wkhtmltopdf.
    FindWkhtmltopdf,
    /// Convert with pandoc to HTML, with wkhtmltopdf to PDF, then with
    /// Ghostscript to one image per page.
    RunPdfPipeline,
    /// Convert with pandoc to HTML, then with wkhtmltoimage to one image of
    /// the whole document.
    RunImagePipeline,
    /// Rendering is over, with these pages or this error.
    Done(Result<Vec<T>, DocxToImageError>),
}

/// The state of a rendering: which converters were found and the error of
/// the last failed pipeline.
pub struct RenderPlan {
    pub pandoc: bool,
    pub wkhtmltoimage: bool,
    pub gs: bool,
    pub last_error: Option<DocxToImageError>,
}

/// The missing-converter error.
pub open spec fn is_no_tool<T>(a: RenderAction<T>) -> bool {
    a matches RenderAction::Done(Err(DocxToImageError::NoTool(m))) && m@ == NO_TOOL_MESSAGE@
}

impl RenderPlan {
    /// Starts a rendering once pandoc, wkhtmltoimage and Ghostscript have
    /// been looked for.  The PDF pipeline, which gives every page as an
    /// image, comes first when pandoc and Ghostscript were found (wkhtmltopdf
    /// is looked for next); otherwise the image pipeline when pandoc and
    /// wkhtmltoimage were found; without either there is nothing to run.
    pub fn start<T>(pandoc: bool, wkhtmltoimage: bool, gs: bool) -> (r: (RenderPlan, RenderAction<T>))
        ensures
            r.0.pandoc == pandoc,
            r.0.wkhtmltoimage == wkhtmltoimage,
            r.0.gs == gs,
            r.0.last_error is None,
            pandoc && gs ==> r.1 is FindWkhtmltopdf,
            !(pandoc && gs) && pandoc && wkhtmltoimage ==> r.1 is RunImagePipeline,
            !(pandoc && gs) && !(pandoc && wkhtmltoimage) ==> is_no_tool(r.1),
    {
        let plan = RenderPlan { pandoc, wkhtmltoimage, gs, last_error: None };
        if pandoc && gs {
            (plan, RenderAction::FindWkhtmltopdf)
        } else if pandoc && wkhtmltoimage {
            (plan, RenderAction::RunImagePipeline)
        } else {
            (plan, RenderAction::Done(Err(no_tool_error())))
        }
    }

    /// After looking for wkhtmltopdf: run the PDF pipeline if it was found,
    /// otherwise the image pipeline if wkhtmltoimage was found, otherwise
    /// fail with the missing converter.
    pub fn after_wkhtmltopdf_lookup<T>(self, found: bool) -> (r: (RenderPlan, RenderAction<T>))
        ensures
            r.0.pandoc == self.pandoc,
            r.0.wkhtmltoimage == self.wkhtmltoimage,
            r.0.gs == self.gs,
            found ==> r.1 is RunPdfPipeline && r.0.last_error == self.last_error,
            !found && self.pandoc && self.wkhtmltoimage ==> r.1 is RunImagePipeline && r.0.last_error
                == self.last_error,
            !found && !(self.pandoc && self.wkhtmltoimage) ==> match self.last_error {
                Some(e) => r.1 == RenderAction::<T>::Done(Err(e)),
                None => is_no_tool(r.1),
            },
    {
        if found {
            (self, RenderAction::RunPdfPipeline)
        } else if self.pandoc && self.wkhtmltoimage {
            (self, RenderAction::RunImagePipeline)
        } else {
            let (pandoc, wkhtmltoimage, gs) = (self.pandoc, self.wkhtmltoimage, self.gs);
            let action = match self.last_error {
                Some(e) => RenderAction::Done(Err(e)),
                None => RenderAction::Done(Err(no_tool_error())),
            };
            (RenderPlan { pandoc, wkhtmltoimage, gs, last_error: None }, action)
        }
    }

    /// After the PDF pipeline: its pages are the result; when it failed the
    /// image pipeline is tried if pandoc and wkhtmltoimage were found,
    /// otherwise its error is the result.
    pub fn after_pdf_pipeline<T>(self, result: Result<Vec<T>, DocxToImageError>) -> (r: (RenderPlan, RenderAction<T>))
        ensures
            r.0.pandoc == self.pandoc,
            r.0.wkhtmltoimage == self.wkhtmltoimage,
            r.0.gs == self.gs,
            result matches Ok(pages) ==> r.1 == RenderAction::<T>::Done(Ok(pages)),
            result matches Err(e) ==> (if self.pandoc && self.wkhtmltoimage {
                r.1 is RunImagePipeline && r.0.last_error == Some(e)
            } else {
                r.1 == RenderAction::<T>::Done(Err(e))
            }),
    {
        let (pandoc, wkhtmltoimage, gs) = (self.pandoc, self.wkhtmltoimage, self.gs);
        match result {
            Ok(pages) => (RenderPlan { pandoc, wkhtmltoimage, gs, last_error: None }, RenderAction::Done(Ok(pages))),
            Err(e) => if pandoc && wkhtmltoimage {
                (RenderPlan { pandoc, wkhtmltoimage, gs, last_error: Some(e) }, RenderAction::RunImagePipeline)
            } else {
                (RenderPlan { pandoc, wkhtmltoimage, gs, last_error: None }, RenderAction::Done(Err(e)))
            },
        }
    }

    /// After the image pipeline: its image or its error are the result.
    pub fn after_image_pipeline<T>(self, result: Result<Vec<T>, DocxToImageError>) -> (r: RenderAction<T>)
        ensures
            r == RenderAction::<T>::Done(result),
    {
        RenderAction::Done(result)
    }
}

// ───────────────────────── command lines ─────────────────────────

/// Strings as plain character sequences.
pub open spec fn strings_view(v: Seq<String>) -> Seq<Seq<char>> {
    v.map_values(|s: String| s@)
}

/// Arguments of pandoc for DOCX to standalone HTML5 that keeps empty
/// paragraphs.
pub fn pandoc_html_args(html_path: &str, docx_path: &str) -> (r: Vec<String>)
    ensures
        strings_view(r@) == seq![
            "-f"@, "docx+empty_paragraphs"@, "-t"@, "html5"@, "--embed-resources"@,
            "--standalone"@, "-o"@, html_path@, docx_path@,
        ],
{
    let mut v: Vec<String> = Vec::new();
    v.push(String::from_str("-f"));
    v.push(String::from_str("docx+empty_paragraphs"));
    v.push(String::from_str("-t"));
    v.push(String::from_str("html5"));
    v.push(String::from_str("--embed-resources"));
    v.push(String::from_str("--standalone"));
    v.push(String::from_str("-o"));
    v.push(String::from_str(html_path));
    v.push(String::from_str(docx_path));
    assert(strings_view(v@) =~= seq![
        "-f"@, "docx+empty_paragraphs"@, "-t"@, "html5"@, "--embed-resources"@,
        "--standalone"@, "-o"@, html_path@, docx_path@,
    ]);
    v
}

/// Arguments of pandoc for DOCX to self-contained HTML5.
pub fn pandoc_self_contained_args(html_path: &str, docx_path: &str) -> (r: Vec<String>)
    ensures
        strings_view(r@) == seq!["-t"@, "html5"@, "--self-contained"@, "-o"@, html_path@, docx_path@],
{
    let mut v: Vec<String> = Vec::new();
    v.push(String::from_str("-t"));
    v.push(String::from_str("html5"));
    v.push(String::from_str("--self-contained"));
    v.push(String::from_str("-o"));
    v.push(String::from_str(html_path));
    v.push(String::from_str(docx_path));
    assert(strings_view(v@) =~= seq!["-t"@, "html5"@, "--self-contained"@, "-o"@, html_path@, docx_path@]);
    v
}

/// The viewport of wkhtmltoimage in CSS pixels (96 per inch, so one CSS
/// pixel is 15 twips): the page's width and height.
pub fn css_viewport(page: &PageInfo) -> (r: (u32, u32))
    ensures
        r == (page.width_twip / 15, page.height_twip / 15),
{
    (page.width_twip / 15, page.height_twip / 15)
}

/// Arguments of wkhtmltoimage rendering the HTML page to PNG at the page's
/// viewport.
pub fn wkhtmltoimage_args(page: &PageInfo, html_path: &str, png_path: &str) -> (r: Vec<String>)
    ensures
        strings_view(r@) == seq![
            "--format"@, "png"@, "--width"@, decimal((page.width_twip / 15) as nat), "--height"@,
            decimal((page.height_twip / 15) as nat), html_path@, png_path@,
        ],
{
    let (w, h) = css_viewport(page);
    let mut v: Vec<String> = Vec::new();
    v.push(String::from_str("--format"));
    v.push(String::from_str("png"));
    v.push(String::from_str("--width"));
    v.push(decimal_string(w as u64));
    v.push(String::from_str("--height"));
    v.push(decimal_string(h as u64));
    v.push(String::from_str(html_path));
    v.push(String::from_str(png_path));
    assert(strings_view(v@) =~= seq![
        "--format"@, "png"@, "--width"@, decimal((page.width_twip / 15) as nat), "--height"@,
        decimal((page.height_twip / 15) as nat), html_path@, png_path@,
    ]);
    v
}

/// Arguments of wkhtmltopdf for a page of the given size in millimetres.
pub fn wkhtmltopdf_args(width_mm: u32, height_mm: u32, html_path: &str, pdf_path: &str) -> (r: Vec<String>)
    ensures
        strings_view(r@) == seq![
            "--page-width"@, decimal(width_mm as nat) + "mm"@, "--page-height"@,
            decimal(height_mm as nat) + "mm"@, html_path@, pdf_path@,
        ],
{
    let mut v: Vec<String> = Vec::new();
    v.push(String::from_str("--page-width"));
    v.push(decimal_string(width_mm as u64).concat("mm"));
    v.push(String::from_str("--page-height"));
    v.push(decimal_string(height_mm as u64).concat("mm"));
    v.push(String::from_str(html_path));
    v.push(String::from_str(pdf_path));
    assert(strings_view(v@) =~= seq![
        "--page-width"@, decimal(width_mm as nat) + "mm"@, "--page-height"@,
        decimal(height_mm as nat) + "mm"@, html_path@, pdf_path@,
    ]);
    v
}

/// Arguments of Ghostscript counting the pages of a PDF by rendering every
/// page at 72 DPI.
pub fn gs_count_args(out_pattern: &str, pdf_path: &str) -> (r: Vec<String>)
    ensures
        strings_view(r@) == seq![
            "-sDEVICE=png16m"@, "-r72x72"@, "-dNOPAUSE"@, "-dBATCH"@, "-dQUIET"@, "-o"@,
            out_pattern@, pdf_path@,
        ],
{
    let mut v: Vec<String> = Vec::new();
    v.push(String::from_str("-sDEVICE=png16m"));
    v.push(String::from_str("-r72x72"));
    v.push(String::from_str("-dNOPAUSE"));
    v.push(String::from_str("-dBATCH"));
    v.push(String::from_str("-dQUIET"));
    v.push(String::from_str("-o"));
    v.push(String::from_str(out_pattern));
    v.push(String::from_str(pdf_path));
    assert(strings_view(v@) =~= seq![
        "-sDEVICE=png16m"@, "-r72x72"@, "-dNOPAUSE"@, "-dBATCH"@, "-dQUIET"@, "-o"@,
        out_pattern@, pdf_path@,
    ]);
    v
}

impl DocxRenderer {
    /// Arguments of Ghostscript rendering every page of a PDF at this
    /// renderer's resolution, one PNG file per page named by `out_pattern`
    /// (such as [`PAGE_FILE_PATTERN`] in the output folder).
    pub fn gs_pages_args(&self, out_pattern: &str, pdf_path: &str) -> (r: Vec<String>)
        ensures
            strings_view(r@) == seq![
                "-sDEVICE=png16m"@, "-r"@, decimal(self@.dpi as nat), "-dTextAlphaBits=4"@,
                "-dGraphicsAlphaBits=4"@, "-o"@, out_pattern@, pdf_path@,
            ],
    {
        let mut v: Vec<String> = Vec::new();
        v.push(String::from_str("-sDEVICE=png16m"));
        v.push(String::from_str("-r"));
        v.push(decimal_string(self.dpi as u64));
        v.push(String::from_str("-dTextAlphaBits=4"));
        v.push(String::from_str("-dGraphicsAlphaBits=4"));
        v.push(String::from_str("-o"));
        v.push(String::from_str(out_pattern));
        v.push(String::from_str(pdf_path));
        assert(strings_view(v@) =~= seq![
            "-sDEVICE=png16m"@, "-r"@, decimal(self@.dpi as nat), "-dTextAlphaBits=4"@,
            "-dGraphicsAlphaBits=4"@, "-o"@, out_pattern@, pdf_path@,
        ]);
        v
    }

    /// Arguments of Ghostscript rendering page `page` (counted from 0) of a
    /// PDF at this renderer's resolution; Ghostscript counts pages from 1.
    pub fn gs_page_args(&self, page: usize, out_path: &str, pdf_path: &str) -> (r: Vec<String>)
        requires
            page < usize::MAX,
        ensures
            strings_view(r@) == seq![
                "-sDEVICE=png16m"@,
                "-r"@ + decimal(self@.dpi as nat) + "x"@ + decimal(self@.dpi as nat),
                "-dNOPAUSE"@, "-dBATCH"@, "-dQUIET"@,
                "-dFirstPage="@ + decimal(page as nat + 1),
                "-dLastPage="@ + decimal(page as nat + 1),
                "-o"@, out_path@, pdf_path@,
            ],
    {
        let dpi = decimal_string(self.dpi as u64);
        let gs_page = decimal_string((page + 1) as u64);
        let mut v: Vec<String> = Vec::new();
        v.push(String::from_str("-sDEVICE=png16m"));
        v.push(String::from_str("-r").concat(dpi.as_str()).concat("x").concat(dpi.as_str()));
        v.push(String::from_str("-dNOPAUSE"));
        v.push(String::from_str("-dBATCH"));
        v.push(String::from_str("-dQUIET"));
        v.push(String::from_str("-dFirstPage=").concat(gs_page.as_str()));
        v.push(String::from_str("-dLastPage=").concat(gs_page.as_str()));
        v.push(String::from_str("-o"));
        v.push(String::from_str(out_path));
        v.push(String::from_str(pdf_path));
        assert(strings_view(v@) =~= seq![
            "-sDEVICE=png16m"@,
            "-r"@ + decimal(self@.dpi as nat) + "x"@ + decimal(self@.dpi as nat),
            "-dNOPAUSE"@, "-dBATCH"@, "-dQUIET"@,
            "-dFirstPage="@ + decimal(page as nat + 1),
            "-dLastPage="@ + decimal(page as nat + 1),
            "-o"@, out_path@, pdf_path@,
        ]);
        v
    }
}

/// `words` joined by single spaces.
pub open spec fn space_joined(words: Seq<Seq<char>>) -> Seq<char>
    decreases words.len(),
{
    if words.len() == 0 {
        Seq::empty()
    } else if words.len() == 1 {
        words[0]
    } else {
        space_joined(words.drop_last()) + " "@ + words.last()
    }
}

/// The command line shown for a failed tool: the program, a space and its
/// arguments joined by spaces.
pub fn command_line(program: &str, args: &Vec<String>) -> (r: String)
    ensures
        r@ == program@ + " "@ + space_joined(strings_view(args@)),
{
    let mut joined = String::new();
    let ghost words = strings_view(args@);
    let mut i: usize = 0;
    while i < args.len()
        invariant
            i <= args@.len(),
            words == strings_view(args@),
            joined@ == space_joined(words.take(i as int)),
        decreases args.len() - i,
    {
        assert(words.take(i + 1).drop_last() =~= words.take(i as int));
        if i > 0 {
            joined.append(" ");
        }
        joined.append(args[i].as_str());
        proof {
            if i == 0 {
                assert(joined@ =~= space_joined(words.take(1)));
            }
        }
        i = i + 1;
    }
    assert(words.take(args@.len() as int) =~= words);
    String::from_str(program).concat(" ").concat(joined.as_str())
}

/// The error for a tool that exited unsuccessfully; a missing exit code
/// (the tool was killed) is reported as -1.
pub fn command_failed(cmd: String, code: Option<i32>, stderr: String) -> (e: DocxToImageError)
    ensures
        e == (DocxToImageError::CommandFailed {
            cmd,
            code: match code {
                Some(c) => c,
                None => -1i32,
            },
            stderr,
        }),
{
    let code = match code {
        Some(c) => c,
        None => -1,
    };
    DocxToImageError::CommandFailed { cmd, code, stderr }
}

/// How a failed pandoc run is named in its error.
pub fn pandoc_command_label() -> (r: String)
    ensures
        r@ == "pandoc -t html5 --self-contained"@,
{
    String::from_str("pandoc -t html5 --self-contained")
}

/// How a failed wkhtmltoimage run is named in its error: the program and
/// the output format.
pub fn wkhtmltoimage_command_label(program: &str) -> (r: String)
    ensures
        r@ == program@ + " --format png"@,
{
    String::from_str(program).concat(" --format png")
}

/// How a failed wkhtmltopdf run is named in its error: the program and the
/// page size in millimetres.
pub fn wkhtmltopdf_command_label(program: &str, width_mm: u32, height_mm: u32) -> (r: String)
    ensures
        r@ == program@ + " --page-width "@ + decimal(width_mm as nat) + "mm --page-height "@ + decimal(
            height_mm as nat,
        ) + "mm"@,
{
    String::from_str(program).concat(" --page-width ").concat(decimal_string(width_mm as u64).as_str()).concat(
        "mm --page-height ",
    ).concat(decimal_string(height_mm as u64).as_str()).concat("mm")
}

impl DocxRenderer {
    /// How a failed Ghostscript page rendering is named in its error: the
    /// program, the device and this renderer's resolution.
    pub fn gs_command_label(&self, program: &str) -> (r: String)
        ensures
            r@ == program@ + " -sDEVICE=png16m -r"@ + decimal(self@.dpi as nat),
    {
        String::from_str(program).concat(" -sDEVICE=png16m -r").concat(decimal_string(self.dpi as u64).as_str())
    }
}

/// The output reported for a failed Ghostscript run: its error output, or
/// its standard output when the error output is empty.
pub fn failure_output(stderr: String, stdout: String) -> (r: String)
    ensures
        r@ == (if stderr@.len() == 0 {
            stdout@
        } else {
            stderr@
        }),
{
    if stderr.as_str().is_empty() {
        stdout
    } else {
        stderr
    }
}

// ───────────────────────── HTML adjustments ─────────────────────────

/// The pandoc HTML with its page width limit and body padding removed, and
/// paragraphs compact, keeping spaces, at 14pt.
pub open spec fn adjusted_pandoc_html(html: Seq<char>) -> Seq<char> {
    let a = replace_all(html, "max-width: 36em;"@, ""@);
    let b = replace_all(a, "margin: 0 auto;"@, "margin: 0;"@);
    let c = replace_all(b, "padding-left: 50px;"@, ""@);
    let d = replace_all(c, "padding-right: 50px;"@, ""@);
    let e = replace_all(d, "padding-top: 50px;"@, ""@);
    let f = replace_all(e, "padding-bottom: 50px;"@, ""@);
    let g = replace_all(f, "p {"@, "p { white-space: pre-wrap; line-height: 100%; margin: 0;"@);
    replace_all(
        g,
        "text-rendering: optimizeLegibility;"@,
        "text-rendering: optimizeLegibility;font-size:14pt;"@,
    )
}

/// Adjusts the HTML pandoc wrote so that it fills the wkhtmltoimage
/// viewport.
pub fn adjust_pandoc_html(html: &str) -> (r: String)
    ensures
        r@ == adjusted_pandoc_html(html@),
{
    proof {
        reveal_strlit("max-width: 36em;");
        reveal_strlit("margin: 0 auto;");
        reveal_strlit("padding-left: 50px;");
        reveal_strlit("padding-right: 50px;");
        reveal_strlit("padding-top: 50px;");
        reveal_strlit("padding-bottom: 50px;");
        reveal_strlit("p {");
        reveal_strlit("text-rendering: optimizeLegibility;");
    }
    let a = replace_all_chars(html, "max-width: 36em;", "");
    let b = replace_all_chars(a.as_str(), "margin: 0 auto;", "margin: 0;");
    let c = replace_all_chars(b.as_str(), "padding-left: 50px;", "");
    let d = replace_all_chars(c.as_str(), "padding-right: 50px;", "");
    let e = replace_all_chars(d.as_str(), "padding-top: 50px;", "");
    let f = replace_all_chars(e.as_str(), "padding-bottom: 50px;", "");
    let g = replace_all_chars(f.as_str(), "p {", "p { white-space: pre-wrap; line-height: 100%; margin: 0;");
    replace_all_chars(
        g.as_str(),
        "text-rendering: optimizeLegibility;",
        "text-rendering: optimizeLegibility;font-size:14pt;",
    )
}

/// The pandoc HTML without its page width limit, for the PDF pipeline.
pub fn strip_max_width(html: &str) -> (r: String)
    ensures
        r@ == replace_all(html@, "max-width: 36em;"@, ""@),
{
    proof {
        reveal_strlit("max-width: 36em;");
    }
    replace_all_chars(html, "max-width: 36em;", "")
}

} // verus!
