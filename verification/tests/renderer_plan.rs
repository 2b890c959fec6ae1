use xc_ocr::error::DocxToImageError;
use xc_ocr::page::{PageInfo, PageOrientation};
use xc_ocr::renderer::{
    adjust_pandoc_html, command_failed, command_line, css_viewport, failure_output, gs_count_args, no_tool_error,
    pandoc_command_label, pandoc_html_args, pandoc_self_contained_args, wkhtmltoimage_command_label,
    wkhtmltopdf_command_label, strip_max_width, wkhtmltoimage_args, wkhtmltopdf_args,
    DocxRenderer, RenderAction, RenderPlan, ToolCandidate, NO_TOOL_MESSAGE,
};

fn strings(v: &[&str]) -> Vec<String> {
    v.iter().map(|s| s.to_string()).collect()
}

fn describe(c: &ToolCandidate) -> (bool, String) {
    match c {
        ToolCandidate::File(p) => (true, p.clone()),
        ToolCandidate::OnPath(n) => (false, n.clone()),
    }
}

fn joined(dir: &str, name: &str) -> String {
    std::path::Path::new(dir).join(name).to_string_lossy().into_owned()
}

fn a4_portrait() -> PageInfo {
    PageInfo { width_px: 1653, height_px: 2338, orientation: PageOrientation::Portrait, width_twip: 11906, height_twip: 16838 }
}

#[test]
fn tool_lookup_order() {
    let r = DocxRenderer::new().add_tool_dir("/opt/tools".to_string()).add_tool_dir("bundle".to_string());
    let c: Vec<(bool, String)> = r.tool_candidates("pandoc", &Some("/x/pandoc".to_string())).iter().map(describe).collect();
    assert_eq!(
        c,
        vec![
            (true, "/x/pandoc".to_string()),
            (true, joined("/opt/tools", "pandoc")),
            (true, joined("/opt/tools", "pandoc.exe")),
            (true, joined("bundle", "pandoc")),
            (true, joined("bundle", "pandoc.exe")),
            (false, "pandoc".to_string()),
        ]
    );
    let bare: Vec<(bool, String)> = DocxRenderer::new().tool_candidates("wkhtmltopdf", &None).iter().map(describe).collect();
    assert_eq!(bare, vec![(false, "wkhtmltopdf".to_string())]);
}

#[test]
fn ghostscript_lookup_order() {
    let r = DocxRenderer::new().add_tool_dir("t".to_string()).set_gs("/g/gs".to_string());
    let unix: Vec<(bool, String)> = r.gs_candidates(false).iter().map(describe).collect();
    assert_eq!(
        unix,
        vec![(true, "/g/gs".to_string()), (true, joined("t", "gs")), (true, joined("t", "gs.exe")), (false, "gs".to_string())]
    );
    let win: Vec<(bool, String)> = DocxRenderer::new().add_tool_dir("t".to_string()).gs_candidates(true).iter().map(describe).collect();
    assert_eq!(
        win,
        vec![
            (true, joined("t", "gswin64c")),
            (true, joined("t", "gswin64c.exe")),
            (false, "gswin64c".to_string()),
            (true, joined("t", "gswin32c")),
            (true, joined("t", "gswin32c.exe")),
            (false, "gswin32c".to_string()),
        ]
    );
}

#[test]
fn find_tool_takes_the_first_available() {
    let r = DocxRenderer::new().add_tool_dir("d".to_string()).set_pandoc("/missing/pandoc".to_string());
    let exe = joined("d", "pandoc.exe");
    let found = r.find_tool("pandoc", &Some("/missing/pandoc".to_string()), |c: &ToolCandidate| match c {
        ToolCandidate::File(p) => *p == exe,
        ToolCandidate::OnPath(_) => true,
    });
    assert_eq!(found, Some(exe.clone()));
    let on_path = r.find_tool("pandoc", &None, |c: &ToolCandidate| matches!(c, ToolCandidate::OnPath(_)));
    assert_eq!(on_path, Some("pandoc".to_string()));
    assert_eq!(r.find_tool("pandoc", &None, |_c: &ToolCandidate| false), None);
    assert_eq!(r.find_gs(false, |c: &ToolCandidate| matches!(c, ToolCandidate::OnPath(n) if n == "gs")), Some("gs".to_string()));
    assert_eq!(r.find_gs(true, |_c: &ToolCandidate| false), None);
}

#[test]
fn no_tool_means_no_tool_error() {
    let (_, a) = RenderPlan::start::<u8>(false, true, true);
    match a {
        RenderAction::Done(Err(DocxToImageError::NoTool(m))) => assert_eq!(m, NO_TOOL_MESSAGE),
        _ => panic!("expected the missing-tool error"),
    }
    let (_, a) = RenderPlan::start::<u8>(true, false, false);
    assert!(matches!(a, RenderAction::Done(Err(DocxToImageError::NoTool(_)))));
    assert!(NO_TOOL_MESSAGE.starts_with("没有找到可用的转换工具"));
    assert!(NO_TOOL_MESSAGE.contains("\n• 系统 PATH 环境变量中\n"));
    match no_tool_error() {
        DocxToImageError::NoTool(m) => assert_eq!(m, NO_TOOL_MESSAGE),
        other => panic!("unexpected {other:?}"),
    }
}

#[test]
fn pdf_pipeline_first_then_image_pipeline() {
    let (plan, a) = RenderPlan::start::<u8>(true, true, true);
    assert!(matches!(a, RenderAction::FindWkhtmltopdf));
    let (plan, a) = plan.after_wkhtmltopdf_lookup::<u8>(true);
    assert!(matches!(a, RenderAction::RunPdfPipeline));
    let (plan, a) = plan.after_pdf_pipeline::<u8>(Err(DocxToImageError::Image("bad".to_string())));
    assert!(matches!(a, RenderAction::RunImagePipeline));
    match plan.after_image_pipeline(Ok(vec![1u8])) {
        RenderAction::Done(Ok(p)) => assert_eq!(p, vec![1]),
        _ => panic!("expected the image"),
    }
}

#[test]
fn pdf_pipeline_pages_are_the_result() {
    let (plan, _) = RenderPlan::start::<u8>(true, true, true);
    let (plan, _) = plan.after_wkhtmltopdf_lookup::<u8>(true);
    let (_, a) = plan.after_pdf_pipeline(Ok(vec![7u8, 8, 9]));
    assert!(matches!(a, RenderAction::Done(Ok(ref p)) if *p == vec![7u8, 8, 9]));
}

#[test]
fn image_pipeline_without_wkhtmltopdf_or_ghostscript() {
    let (plan, a) = RenderPlan::start::<u8>(true, true, false);
    assert!(matches!(a, RenderAction::RunImagePipeline));
    let a = plan.after_image_pipeline::<u8>(Err(DocxToImageError::Image("only".to_string())));
    assert!(matches!(a, RenderAction::Done(Err(DocxToImageError::Image(ref m))) if m == "only"));
    let (plan, _) = RenderPlan::start::<u8>(true, true, true);
    let (_, a) = plan.after_wkhtmltopdf_lookup::<u8>(false);
    assert!(matches!(a, RenderAction::RunImagePipeline));
}

#[test]
fn last_error_is_reported() {
    let (plan, a) = RenderPlan::start::<u8>(true, false, true);
    assert!(matches!(a, RenderAction::FindWkhtmltopdf));
    let (_, a) = plan.after_wkhtmltopdf_lookup::<u8>(false);
    assert!(matches!(a, RenderAction::Done(Err(DocxToImageError::NoTool(_)))));
    let (plan, _) = RenderPlan::start::<u8>(true, false, true);
    let (plan, _) = plan.after_wkhtmltopdf_lookup::<u8>(true);
    let (_, a) = plan.after_pdf_pipeline::<u8>(Err(DocxToImageError::Image("pdf".to_string())));
    assert!(matches!(a, RenderAction::Done(Err(DocxToImageError::Image(ref m))) if m == "pdf"));
}

#[test]
fn converter_arguments() {
    assert_eq!(
        pandoc_html_args("o.html", "in.docx"),
        strings(&["-f", "docx+empty_paragraphs", "-t", "html5", "--embed-resources", "--standalone", "-o", "o.html", "in.docx"])
    );
    assert_eq!(
        pandoc_self_contained_args("o.html", "in.docx"),
        strings(&["-t", "html5", "--self-contained", "-o", "o.html", "in.docx"])
    );
    assert_eq!(css_viewport(&a4_portrait()), (793, 1122));
    assert_eq!(
        wkhtmltoimage_args(&a4_portrait(), "o.html", "o.png"),
        strings(&["--format", "png", "--width", "793", "--height", "1122", "o.html", "o.png"])
    );
    assert_eq!(
        wkhtmltopdf_args(210, 297, "o.html", "o.pdf"),
        strings(&["--page-width", "210mm", "--page-height", "297mm", "o.html", "o.pdf"])
    );
    assert_eq!(
        gs_count_args("p_%d.png", "in.pdf"),
        strings(&["-sDEVICE=png16m", "-r72x72", "-dNOPAUSE", "-dBATCH", "-dQUIET", "-o", "p_%d.png", "in.pdf"])
    );
    let r = DocxRenderer::new().with_dpi(150);
    assert_eq!(
        r.gs_pages_args("page-%d.png", "in.pdf"),
        strings(&["-sDEVICE=png16m", "-r", "150", "-dTextAlphaBits=4", "-dGraphicsAlphaBits=4", "-o", "page-%d.png", "in.pdf"])
    );
    assert_eq!(
        DocxRenderer::new().gs_page_args(0, "page.png", "in.pdf"),
        strings(&[
            "-sDEVICE=png16m", "-r200x200", "-dNOPAUSE", "-dBATCH", "-dQUIET", "-dFirstPage=1", "-dLastPage=1", "-o",
            "page.png", "in.pdf"
        ])
    );
    assert_eq!(r.gs_page_args(9, "p.png", "d.pdf")[5], "-dFirstPage=10");
}

#[test]
fn failed_command_report() {
    assert_eq!(command_line("gs", &strings(&["-a", "-b c"])), "gs -a -b c");
    assert_eq!(command_line("gs", &Vec::new()), "gs ");
    match command_failed("gs -q".to_string(), None, "boom".to_string()) {
        DocxToImageError::CommandFailed { cmd, code, stderr } => {
            assert_eq!((cmd.as_str(), code, stderr.as_str()), ("gs -q", -1, "boom"));
        }
        other => panic!("unexpected {other:?}"),
    }
    assert!(matches!(command_failed(String::new(), Some(3), String::new()), DocxToImageError::CommandFailed { code: 3, .. }));
    assert_eq!(failure_output(String::new(), "out".to_string()), "out");
    assert_eq!(failure_output("err".to_string(), "out".to_string()), "err");
}

#[test]
fn pandoc_html_is_adjusted() {
    let html = "body { margin: 0 auto; max-width: 36em; padding-left: 50px; padding-right: 50px; padding-top: 50px; padding-bottom: 50px; text-rendering: optimizeLegibility; }\np {\n  margin: 1em 0;\n}";
    let expected = html
        .replace("max-width: 36em;", "")
        .replace("margin: 0 auto;", "margin: 0;")
        .replace("padding-left: 50px;", "")
        .replace("padding-right: 50px;", "")
        .replace("padding-top: 50px;", "")
        .replace("padding-bottom: 50px;", "")
        .replace("p {", "p { white-space: pre-wrap; line-height: 100%; margin: 0;")
        .replace("text-rendering: optimizeLegibility;", "text-rendering: optimizeLegibility;font-size:14pt;");
    assert_eq!(adjust_pandoc_html(html), expected);
    assert!(adjust_pandoc_html(html).contains("font-size:14pt;"));
    assert_eq!(strip_max_width("a max-width: 36em; b max-width: 36em;"), "a  b ");
    assert_eq!(adjust_pandoc_html(""), "");
}

#[test]
fn renderer_settings_are_kept_by_builders() {
    let r = DocxRenderer::new()
        .with_dpi(300)
        .set_pandoc("/p".to_string())
        .set_wkhtmltoimage("/w".to_string())
        .add_tool_dir("x".to_string());
    let c: Vec<(bool, String)> = r.tool_candidates("wkhtmltoimage", &Some("/w".to_string())).iter().map(describe).collect();
    assert_eq!(c[0], (true, "/w".to_string()));
    assert_eq!(r.gs_pages_args("o", "i")[2], "300");
}

#[test]
fn renderer_settings_read_back() {
    let r = DocxRenderer::new();
    assert_eq!(r.dpi(), 200);
    assert!(r.pandoc_path().is_none() && r.wkhtmltoimage_path().is_none());
    let r = r.with_dpi(96).set_pandoc("/bin/pandoc".to_string()).set_wkhtmltoimage("/bin/wk".to_string());
    assert_eq!(r.dpi(), 96);
    assert_eq!(r.pandoc_path().as_deref(), Some("/bin/pandoc"));
    assert_eq!(r.wkhtmltoimage_path().as_deref(), Some("/bin/wk"));
}

#[test]
fn adding_a_tool_dir_keeps_an_earlier_hit() {
    let before = DocxRenderer::new().add_tool_dir("a".to_string());
    let after = DocxRenderer::new().add_tool_dir("a".to_string()).add_tool_dir("b".to_string());
    let hit_in_a = joined("a", "pandoc");
    let available = |c: &ToolCandidate| match c {
        ToolCandidate::File(p) => *p == hit_in_a || *p == joined("b", "pandoc"),
        ToolCandidate::OnPath(_) => true,
    };
    assert_eq!(before.find_tool("pandoc", &None, available), Some(hit_in_a.clone()));
    assert_eq!(after.find_tool("pandoc", &None, available), Some(hit_in_a));
}

#[test]
fn an_existing_explicit_ghostscript_wins() {
    let r = DocxRenderer::new().add_tool_dir("t".to_string()).set_gs("/first/gs".to_string()).set_gs("/g/gs".to_string());
    let everything = |_c: &ToolCandidate| true;
    assert_eq!(r.find_gs(false, everything), Some("/g/gs".to_string()));
    assert_eq!(r.find_gs(true, everything), Some("/g/gs".to_string()));
}

#[test]
fn failed_tools_are_named_in_their_errors() {
    assert_eq!(pandoc_command_label(), "pandoc -t html5 --self-contained");
    assert_eq!(wkhtmltoimage_command_label("/usr/bin/wkhtmltoimage"), "/usr/bin/wkhtmltoimage --format png");
    assert_eq!(wkhtmltopdf_command_label("wkhtmltopdf", 210, 297), "wkhtmltopdf --page-width 210mm --page-height 297mm");
    assert_eq!(DocxRenderer::new().gs_command_label("gs"), "gs -sDEVICE=png16m -r200");
    assert_eq!(DocxRenderer::new().with_dpi(0).gs_command_label("gswin64c"), "gswin64c -sDEVICE=png16m -r0");
}
