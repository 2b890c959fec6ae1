use std::io::{Cursor, Read, Write};

use xc_ocr::docx_package::fix_empty_paragraphs_in_docx;
use xc_ocr::error::DocxToImageError;
use xc_ocr::page::{detect_page_info, twips_to_pixels, DocxPageSizes, PageOrientation, PageSizeFields};
use xc_ocr::renderer::DocxRenderer;
use xc_ocr::xml_fix::fix_empty_paragraphs_xml;

fn docx_bytes(docx: docx_rs::Docx) -> Vec<u8> {
    let mut buf = Cursor::new(Vec::new());
    docx.build().pack(&mut buf).unwrap();
    buf.into_inner()
}

fn fields(ps: &docx_rs::PageSize) -> PageSizeFields {
    let v = serde_json::to_value(ps).unwrap_or_default();
    PageSizeFields { w: v["w"].as_u64(), h: v["h"].as_u64(), orient: v["orient"].as_str().map(String::from) }
}

/// What the DOCX reader finds in the bytes, as the library takes it.
fn read_sizes(bytes: &[u8]) -> Option<DocxPageSizes> {
    let docx = docx_rs::read_docx(bytes).ok()?;
    let paragraph_sections = docx
        .document
        .children
        .iter()
        .map(|c| match c {
            docx_rs::DocumentChild::Paragraph(p) => p.property.section_property.as_ref().map(|sp| fields(&sp.page_size)),
            _ => None,
        })
        .collect();
    Some(DocxPageSizes { paragraph_sections, document_section: fields(&docx.document.section_property.page_size) })
}

fn size(w: Option<u64>, h: Option<u64>, orient: Option<&str>) -> PageSizeFields {
    PageSizeFields { w, h, orient: orient.map(String::from) }
}

/// The same rewriting written with the regular expression
/// `(?s)(<w:p[^>]*>)(.*?)(</w:p>)`, to compare against.
fn fix_with_regex(xml: &str) -> String {
    let re = regex::Regex::new(r"(?s)(<w:p[^>]*>)(.*?)(</w:p>)").unwrap();
    re.replace_all(xml, |caps: &regex::Captures| {
        let content = caps.get(2).unwrap().as_str();
        if content.contains("<w:r>") || content.contains("<w:r ") || content.contains("<w:r/") {
            caps.get(0).unwrap().as_str().to_string()
        } else {
            format!(
                "{}{}<w:r><w:t xml:space=\"preserve\">\u{a0}</w:t></w:r>{}",
                caps.get(1).unwrap().as_str(),
                content,
                caps.get(3).unwrap().as_str(),
            )
        }
    })
    .to_string()
}

fn fixed(xml: &str) -> String {
    String::from_utf8(fix_empty_paragraphs_xml(xml.as_bytes())).unwrap()
}

fn zip_of(entries: &[(&str, &[u8])]) -> Vec<u8> {
    let mut buf = Cursor::new(Vec::new());
    {
        let mut w = zip::ZipWriter::new(&mut buf);
        for (name, data) in entries {
            let opts = zip::write::FileOptions::default().compression_method(zip::CompressionMethod::Stored);
            w.start_file(*name, opts).unwrap();
            w.write_all(data).unwrap();
        }
        w.finish().unwrap();
    }
    buf.into_inner()
}

fn unzip(bytes: &[u8]) -> Vec<(String, Vec<u8>)> {
    let mut a = zip::ZipArchive::new(Cursor::new(bytes.to_vec())).unwrap();
    let mut out = Vec::new();
    for i in 0..a.len() {
        let mut e = a.by_index(i).unwrap();
        let name = e.name().to_string();
        let mut data = Vec::new();
        e.read_to_end(&mut data).unwrap();
        out.push((name, data));
    }
    out
}

#[test]
fn landscape_page_from_docx_sizes() {
    let bytes = docx_bytes(docx_rs::Docx::new().page_size(16838, 11906));
    let info = detect_page_info(&read_sizes(&bytes), 200);
    assert_eq!(info.width_twip, 16838);
    assert_eq!(info.height_twip, 11906);
    assert_eq!(info.width_px, 2338);
    assert_eq!(info.height_px, 1653);
    assert_eq!(info.orientation, PageOrientation::Landscape);
    assert_eq!(info.orientation.as_str(), "landscape");
}

#[test]
fn portrait_page_through_renderer() {
    let bytes = docx_bytes(docx_rs::Docx::new().page_size(11906, 16838));
    let info = DocxRenderer::new().page_info(&read_sizes(&bytes));
    assert_eq!((info.width_px, info.height_px), (1653, 2338));
    assert_eq!(info.orientation, PageOrientation::Portrait);
    assert_eq!(info.orientation.as_str(), "portrait");
}

#[test]
fn orient_attribute_is_not_read_back() {
    let docx = docx_rs::Docx::new()
        .page_size(11906, 16838)
        .page_orient(docx_rs::PageOrientationType::Landscape);
    let info = detect_page_info(&read_sizes(&docx_bytes(docx)), 200);
    assert_eq!(info.orientation, PageOrientation::Portrait);
}

#[test]
fn unreadable_document_is_an_a4_portrait_page() {
    let info = detect_page_info(&read_sizes(b"certainly not a docx file"), 200);
    assert_eq!((info.width_twip, info.height_twip), (11906, 16838));
    assert_eq!((info.width_px, info.height_px), (1653, 2338));
    assert_eq!(info.orientation, PageOrientation::Portrait);
}

#[test]
fn page_pixels_are_clamped() {
    let bytes = docx_bytes(docx_rs::Docx::new());
    let low = DocxRenderer::new().with_dpi(72).page_info(&read_sizes(&bytes));
    assert_eq!((low.width_px, low.height_px), (800, 841));
    let high = DocxRenderer::new().with_dpi(600).page_info(&read_sizes(&bytes));
    assert_eq!((high.width_px, high.height_px), (4000, 4000));
    for dpi in [0u32, 1, 50, 96, 150, 300, 1200, u32::MAX] {
        let i = detect_page_info(&None, dpi);
        assert!(800 <= i.width_px && i.width_px <= 4000);
        assert!(800 <= i.height_px && i.height_px <= 4000);
    }
}

#[test]
fn first_paragraph_section_decides_the_page() {
    let parsed = Some(DocxPageSizes {
        paragraph_sections: vec![None, Some(size(Some(16838), Some(11906), Some("portrait"))), Some(size(Some(1), Some(2), None))],
        document_section: size(Some(11906), Some(16838), None),
    });
    let info = detect_page_info(&parsed, 200);
    assert_eq!((info.width_twip, info.height_twip), (16838, 11906));
    assert_eq!(info.orientation, PageOrientation::Portrait);
    let body_only = Some(DocxPageSizes { paragraph_sections: vec![None], document_section: size(None, Some(20000), Some("landscape")) });
    let info = detect_page_info(&body_only, 144);
    assert_eq!((info.width_twip, info.height_twip), (11906, 20000));
    assert_eq!((info.width_px, info.height_px), (1190, 2000));
    assert_eq!(info.orientation, PageOrientation::Landscape);
    let wide = Some(DocxPageSizes { paragraph_sections: vec![], document_section: size(Some(u64::from(u32::MAX) + 20000), Some(10000), None) });
    let info = detect_page_info(&wide, 200);
    assert_eq!(info.width_twip, 19999);
    assert_eq!(info.orientation, PageOrientation::Landscape);
}

#[test]
fn twips_to_pixels_values() {
    assert_eq!(twips_to_pixels(14400, 100), 1000);
    assert_eq!(twips_to_pixels(1440, 200), 800);
    assert_eq!(twips_to_pixels(100000, 200), 4000);
    assert_eq!(twips_to_pixels(11906, 150), 1240);
    assert_eq!(twips_to_pixels(u32::MAX, u32::MAX), 4000);
}

#[test]
fn empty_paragraph_gets_a_space_run() {
    assert_eq!(
        fixed("<w:body><w:p></w:p></w:body>"),
        "<w:body><w:p><w:r><w:t xml:space=\"preserve\">\u{a0}</w:t></w:r></w:p></w:body>"
    );
}

#[test]
fn paragraph_properties_are_kept_before_the_space_run() {
    assert_eq!(
        fixed("<w:p w:rsidR=\"1\"><w:pPr><w:jc w:val=\"center\"/></w:pPr></w:p>"),
        "<w:p w:rsidR=\"1\"><w:pPr><w:jc w:val=\"center\"/></w:pPr><w:r><w:t xml:space=\"preserve\">\u{a0}</w:t></w:r></w:p>"
    );
}

#[test]
fn paragraphs_with_runs_are_unchanged() {
    let xml = "<w:p><w:r><w:t>a</w:t></w:r></w:p><w:p><w:r w:rsidR=\"2\"><w:t>b</w:t></w:r></w:p><w:p><w:r/></w:p>";
    assert_eq!(fixed(xml), xml);
}

#[test]
fn run_properties_alone_are_not_a_run() {
    let xml = "<w:p><w:pPr><w:rPr><w:b/></w:rPr></w:pPr></w:p>";
    assert_eq!(fixed(xml), fix_with_regex(xml));
    assert!(fixed(xml).contains("\u{a0}"));
}

#[test]
fn xml_fix_matches_the_regular_expression() {
    let samples = [
        "",
        "no paragraphs at all",
        "<w:p>",
        "</w:p>",
        "<w:p></w:p><w:p></w:p>",
        "<w:p><w:p></w:p></w:p>",
        "<w:pPr></w:p>",
        "<w:p\n>\n</w:p>",
        "<w:document><w:body><w:p><w:r><w:t>x</w:t></w:r></w:p><w:p/><w:p><w:pPr/></w:p><w:tbl><w:tr><w:tc><w:p></w:p></w:tc></w:tr></w:tbl></w:body></w:document>",
        "<w:p a=\"1\"><w:hyperlink><w:r><w:t>l</w:t></w:r></w:hyperlink></w:p>",
        "<w:p><w:rPr/></w:p><w:p>text</w:p>",
        "<w:p>中文段落</w:p><w:p><w:r ><w:t>字</w:t></w:r></w:p>",
    ];
    for s in samples {
        assert_eq!(fixed(s), fix_with_regex(s), "sample {s:?}");
    }
}

#[test]
fn xml_fix_is_idempotent_on_samples() {
    let samples = [
        "<w:p></w:p>",
        "<w:p><w:pPr/></w:p><w:p><w:r><w:t>a</w:t></w:r></w:p>",
        "<w:p><w:p></w:p>",
    ];
    for s in samples {
        let once = fixed(s);
        assert_eq!(fixed(&once), once);
    }
}

#[test]
fn xml_fix_only_inserts_space_runs() {
    let run = "<w:r><w:t xml:space=\"preserve\">\u{a0}</w:t></w:r>";
    let samples = [
        "",
        "<w:p></w:p><w:p></w:p>",
        "<w:p><w:pPr/></w:p><w:p><w:r><w:t>a</w:t></w:r></w:p>",
        "<w:p><w:p></w:p></w:p>",
        "<w:p a=\"1\">x</w:p> tail <w:p",
    ];
    for s in samples {
        let once = fixed(s);
        assert_eq!(once.replace(run, ""), s, "sample {s:?}");
    }
    assert_eq!(fixed("<w:p></w:p>").matches(run).count(), 1);
}

#[test]
fn docx_package_fixes_only_the_document_part() {
    let doc = b"<w:body><w:p></w:p></w:body>";
    let other = b"<w:p></w:p>";
    let input = zip_of(&[("[Content_Types].xml", other), ("word/document.xml", doc), ("word/styles.xml", other)]);
    let out = fix_empty_paragraphs_in_docx(&input).unwrap();
    let entries = unzip(&out);
    assert_eq!(entries.len(), 3);
    assert_eq!(entries[0], ("[Content_Types].xml".to_string(), other.to_vec()));
    assert_eq!(entries[1].0, "word/document.xml");
    assert_eq!(
        String::from_utf8(entries[1].1.clone()).unwrap(),
        "<w:body><w:p><w:r><w:t xml:space=\"preserve\">\u{a0}</w:t></w:r></w:p></w:body>"
    );
    assert_eq!(entries[2], ("word/styles.xml".to_string(), other.to_vec()));
    let mut a = zip::ZipArchive::new(Cursor::new(out)).unwrap();
    for i in 0..a.len() {
        assert_eq!(a.by_index(i).unwrap().compression(), zip::CompressionMethod::Deflated);
    }
}

#[test]
fn docx_package_of_a_real_document_still_reads() {
    let bytes = docx_bytes(
        docx_rs::Docx::new()
            .page_size(16838, 11906)
            .add_paragraph(docx_rs::Paragraph::new())
            .add_paragraph(docx_rs::Paragraph::new().add_run(docx_rs::Run::new().add_text("hello"))),
    );
    let out = fix_empty_paragraphs_in_docx(&bytes).unwrap();
    let info = detect_page_info(&read_sizes(&out), 200);
    assert_eq!(info.width_twip, 16838);
    assert_eq!(info.orientation, PageOrientation::Landscape);
    let doc = unzip(&out).into_iter().find(|(n, _)| n == "word/document.xml").unwrap();
    assert!(String::from_utf8(doc.1).unwrap().contains("\u{a0}"));
}

#[test]
fn docx_package_refuses_non_zip_bytes() {
    match fix_empty_paragraphs_in_docx(b"plain text, no archive") {
        Err(DocxToImageError::Zip(_)) => {}
        other => panic!("unexpected result: {other:?}"),
    }
}

#[test]
fn every_fixed_paragraph_holds_a_run() {
    let re = regex::Regex::new(r"(?s)(<w:p[^>]*>)(.*?)(</w:p>)").unwrap();
    let samples = [
        "<w:p></w:p><w:p><w:pPr/></w:p><w:p><w:r><w:t>a</w:t></w:r></w:p>",
        "<w:p/><w:p></w:p>",
        "<w:tbl><w:tc><w:p><w:rPr/></w:p></w:tc></w:tbl>",
    ];
    for s in samples {
        let out = fixed(s);
        for caps in re.captures_iter(&out) {
            let content = caps.get(2).unwrap().as_str();
            assert!(content.contains("<w:r>") || content.contains("<w:r ") || content.contains("<w:r/"));
        }
    }
}

#[test]
fn document_part_is_read_as_lossy_utf8() {
    let doc: &[u8] = b"<w:p>\xff</w:p>";
    let input = zip_of(&[("word/document.xml", doc)]);
    let entries = unzip(&fix_empty_paragraphs_in_docx(&input).unwrap());
    assert_eq!(
        String::from_utf8(entries[0].1.clone()).unwrap(),
        "<w:p>\u{fffd}<w:r><w:t xml:space=\"preserve\">\u{a0}</w:t></w:r></w:p>"
    );
}

#[test]
fn docx_package_with_an_unreadable_entry_is_refused() {
    let mut input = zip_of(&[("word/document.xml", b"<w:p></w:p>"), ("other.txt", b"UNIQUE-CONTENT")]);
    let pos = input.windows(14).position(|w| w == b"UNIQUE-CONTENT").unwrap();
    input[pos] = b'X';
    assert!(zip::ZipArchive::new(Cursor::new(input.clone())).is_ok());
    assert!(fix_empty_paragraphs_in_docx(&input).is_err());
}
