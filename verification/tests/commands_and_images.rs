use xc_ocr::commands::{
    docx_page_images, first_existing, model_variant_names, models_root_candidates_exec, order_for_request,
    orientation_model_candidates_exec, pdf_page_image, sort_names, split_variant, startup_model_files,
    switch_model_files, tools_dir_candidates_exec, OrderBy, RecognizeResult, rotation_choice, RotationChoice,
};
use xc_ocr::data_url::{decode_base64, plain_data_url, plain_data_url_fits, png_data_url, png_data_url_fits};
use xc_ocr::images::{decode_base64_image, encode_png_base64, encode_png_base64_checked, png_data_url_of, ImageManager};
use xc_ocr::page::PageOrientation;
use xc_ocr::png_pages::{png_page_index, sort_pages_by_index};

fn strings(v: &[&str]) -> Vec<String> {
    v.iter().map(|s| s.to_string()).collect()
}

fn joined(parts: &[&str]) -> String {
    let mut p = std::path::PathBuf::from(parts[0]);
    for x in &parts[1..] {
        p = p.join(x);
    }
    p.to_string_lossy().into_owned()
}

fn png_bytes(w: u32, h: u32) -> Vec<u8> {
    let img = image::DynamicImage::ImageRgba8(image::RgbaImage::new(w, h));
    let mut buf = std::io::Cursor::new(Vec::new());
    img.write_to(&mut buf, image::ImageFormat::Png).unwrap();
    buf.into_inner()
}

#[test]
fn base64_data_urls() {
    assert_eq!(plain_data_url(b"hello"), "data:;base64,aGVsbG8=");
    assert_eq!(png_data_url(b"\x89PNG"), "data:image/png;base64,iVBORw==");
    assert_eq!(decode_base64("data:;base64,aGVsbG8=").unwrap(), b"hello".to_vec());
    assert_eq!(decode_base64("aGVsbG8=").unwrap(), b"hello".to_vec());
    assert!(decode_base64("a,b,aGk=").is_err());
    assert_eq!(decode_base64("x,aGk=").unwrap(), b"hi".to_vec());
    assert_eq!(decode_base64("").unwrap(), Vec::<u8>::new());
    assert!(decode_base64("data:;base64,!!!").is_err());
}

#[test]
fn data_url_round_trip() {
    for bytes in [b"".to_vec(), b"a".to_vec(), (0u8..=255).collect::<Vec<u8>>(), "中文,逗号".as_bytes().to_vec()] {
        assert_eq!(decode_base64(&plain_data_url(&bytes)).unwrap(), bytes);
        assert_eq!(decode_base64(&png_data_url(&bytes)).unwrap(), bytes);
    }
}

#[test]
fn images_round_trip_through_png_data_urls() {
    let img = image::DynamicImage::ImageRgba8(image::RgbaImage::new(3, 2));
    let url = encode_png_base64(&img).unwrap();
    assert!(url.starts_with("data:image/png;base64,"));
    let back = decode_base64_image(&url).unwrap();
    assert_eq!((back.width(), back.height()), (3, 2));
}

#[test]
fn data_url_size_limits() {
    let max = isize::MAX as usize;
    assert!(plain_data_url_fits(0) && png_data_url_fits(0));
    assert!(plain_data_url_fits(1 << 20) && png_data_url_fits(1 << 20));
    // 13 + 4 * ceil(n / 3) characters
    let n = (max - 13) / 4 * 3;
    assert!(plain_data_url_fits(n));
    assert!(!plain_data_url_fits(n + 1));
    assert!(!png_data_url_fits(n));
    assert!(!plain_data_url_fits(max) && !png_data_url_fits(usize::MAX));
}

#[test]
fn checked_png_data_url_is_the_plain_one() {
    let img = image::DynamicImage::ImageRgba8(image::RgbaImage::new(2, 2));
    let checked = encode_png_base64_checked(&img).unwrap().unwrap();
    assert_eq!(checked, encode_png_base64(&img).unwrap());
    assert!(checked.starts_with("data:image/png;base64,"));
}

#[test]
fn image_decoding_errors() {
    assert!(decode_base64_image("data:image/png;base64,@@@").is_err());
    let not_an_image = plain_data_url(b"just some text");
    assert!(decode_base64_image(&not_an_image).is_err());
}

#[test]
fn embedded_images_by_id() {
    let entries = vec![
        ("rId1".to_string(), png_bytes(4, 5)),
        ("rId2".to_string(), b"not an image".to_vec()),
        ("rId3".to_string(), png_bytes(1, 1)),
        ("rId1".to_string(), png_bytes(6, 7)),
    ];
    let m = ImageManager::new(&entries);
    let first = m.get("rId1").unwrap();
    assert_eq!((first.width(), first.height()), (6, 7));
    assert!(m.get("rId2").is_none());
    assert!(m.get("rId3").is_some());
    assert!(m.get("rId4").is_none());
}

#[test]
fn page_numbers_from_file_names() {
    assert_eq!(png_page_index(Some("page-3")), 3);
    assert_eq!(png_page_index(Some("out-a-12")), 12);
    assert_eq!(png_page_index(Some("7")), 7);
    assert_eq!(png_page_index(Some("page_3")), 0);
    assert_eq!(png_page_index(Some("page-")), 0);
    assert_eq!(png_page_index(Some("page-+4")), 4);
    assert_eq!(png_page_index(Some("page-99999999999999999999999")), 0);
    assert_eq!(png_page_index(None), 0);
    for s in ["a-1", "b-x", "-", "12-34", "p-0042"] {
        let expected = s.rsplit('-').next().and_then(|t| t.parse::<usize>().ok()).unwrap_or(0);
        assert_eq!(png_page_index(Some(s)), expected);
    }
}

#[test]
fn pages_sorted_stably_by_number() {
    let pages = vec![(2usize, "b"), (0, "x"), (1, "a"), (0, "y"), (2, "c")];
    assert_eq!(sort_pages_by_index(pages), vec![(0, "x"), (0, "y"), (1, "a"), (2, "b"), (2, "c")]);
    let empty: Vec<(usize, u8)> = Vec::new();
    assert!(sort_pages_by_index(empty).is_empty());
}

#[test]
fn result_order_requests() {
    assert_eq!(order_for_request(Some("Vertical")), OrderBy::Horizontal);
    assert_eq!(order_for_request(Some("Score")), OrderBy::Score);
    assert_eq!(order_for_request(Some("Horizontal")), OrderBy::Vertical);
    assert_eq!(order_for_request(Some("score")), OrderBy::Vertical);
    assert_eq!(order_for_request(None), OrderBy::Vertical);
}

#[test]
fn variant_names_split_at_slashes() {
    assert_eq!(split_variant("v4/mobile"), ("v4".to_string(), Some("mobile".to_string())));
    assert_eq!(split_variant("v4"), ("v4".to_string(), None));
    assert_eq!(split_variant("v4/"), ("v4".to_string(), Some(String::new())));
    assert_eq!(split_variant("a/b/c"), ("a".to_string(), Some("b".to_string())));
    assert_eq!(split_variant(""), (String::new(), None));
}

#[test]
fn switching_to_a_named_specification() {
    let f = switch_model_files("root", "v4/server", |_p: &String| false).unwrap();
    assert_eq!(f.det, joined(&["root", "v4", "server", "det.onnx"]));
    assert_eq!(f.rec, joined(&["root", "v4", "server", "rec.onnx"]));
    assert_eq!(f.keys, joined(&["root", "v4", "server", "keys.txt"]));
}

#[test]
fn switching_to_a_bare_version() {
    let top = joined(&["root", "v5", "det.onnx"]);
    let f = switch_model_files("root", "v5", |p: &String| *p == top).unwrap();
    assert_eq!(f.rec, joined(&["root", "v5", "rec.onnx"]));
    let mobile = joined(&["root", "v5", "mobile", "det.onnx"]);
    let f = switch_model_files("root", "v5", |p: &String| *p == mobile).unwrap();
    assert_eq!(f.keys, joined(&["root", "v5", "mobile", "keys.txt"]));
    let e = switch_model_files("root", "v5", |_p: &String| false).unwrap_err();
    assert_eq!(e, "模型目录 v5 中未找到模型文件");
}

#[test]
fn start_up_model_choice() {
    let server = joined(&["m", "v4", "server", "rec.onnx"]);
    let f = startup_model_files("m", "v4", |p: &String| *p == server).unwrap();
    assert_eq!(f.det, joined(&["m", "v4", "mobile", "det.onnx"]));
    assert_eq!(f.rec, server);
    assert_eq!(f.keys, joined(&["m", "v4", "server", "keys.txt"]));
    let f = startup_model_files("m", "v4", |_p: &String| true).unwrap();
    assert_eq!(f.det, joined(&["m", "v4", "det.onnx"]));
    assert_eq!(startup_model_files("m", "v4", |_p: &String| false).unwrap_err(), "模型目录 v4 中未找到模型文件");
}

#[test]
fn model_variants_are_listed_sorted() {
    let folders = vec![
        ("v5".to_string(), Vec::new()),
        ("v4".to_string(), strings(&["server", "mobile"])),
        ("V3".to_string(), Vec::new()),
        ("v4b".to_string(), strings(&["x"])),
    ];
    assert_eq!(model_variant_names(&folders), strings(&["V3", "v4/mobile", "v4/server", "v4b/x", "v5"]));
    assert!(model_variant_names(&Vec::new()).is_empty());
    let mut expected = strings(&["b", "a", "ab", "", "B", "é", "aa"]);
    let sorted = sort_names(expected.clone());
    expected.sort();
    assert_eq!(sorted, expected);
}

#[test]
fn first_existing_path() {
    let c = strings(&["a", "b", "c"]);
    assert_eq!(first_existing(&c, |p: &String| p != "a"), Some("b".to_string()));
    assert_eq!(first_existing(&c, |_p: &String| false), None);
    assert_eq!(first_existing(&Vec::new(), |_p: &String| true), None);
}

#[test]
fn model_and_tool_folders() {
    assert_eq!(
        models_root_candidates_exec(Some("/res")),
        vec![joined(&["/res", "models", "ocr"]), joined(&["src-tauri", "models", "ocr"]), joined(&["models", "ocr"])]
    );
    assert_eq!(models_root_candidates_exec(None).len(), 2);
    assert_eq!(
        orientation_model_candidates_exec(None),
        vec![
            joined(&["src-tauri", "models", "PP-LCNet_x1_0_doc_ori", "PP-LCNet_x1_0_doc_ori.onnx"]),
            joined(&["models", "PP-LCNet_x1_0_doc_ori", "PP-LCNet_x1_0_doc_ori.onnx"]),
        ]
    );
    assert_eq!(orientation_model_candidates_exec(Some("/r")).len(), 3);
    assert_eq!(
        tools_dir_candidates_exec(Some("/r"), "/repo", "linux", "x86_64"),
        vec![
            joined(&["/r", "tools", "linux-x86_64"]),
            joined(&["/r", "tools"]),
            joined(&["/repo", "tools", "linux-x86_64"]),
            joined(&["/repo", "tools"]),
        ]
    );
    assert_eq!(tools_dir_candidates_exec(None, "/repo", "windows", "x86").len(), 2);
}

#[test]
fn rendered_page_reports() {
    let pages = docx_page_images(PageOrientation::Landscape, &vec![(10, 20), (30, 40)], strings(&["A", "B"]));
    assert_eq!(pages.len(), 2);
    assert_eq!((pages[1].page, pages[1].width, pages[1].height), (1, 30, 40));
    assert_eq!(pages[0].orientation, "landscape");
    assert_eq!(pages[1].image_data, "B");
    let p = pdf_page_image(4, 300, 200, "img".to_string());
    assert_eq!((p.page, p.orientation.as_str()), (4, "landscape"));
    assert_eq!(pdf_page_image(0, 200, 200, String::new()).orientation, "portrait");
    let r: RecognizeResult<u8> = RecognizeResult { blocks: vec![1, 2], corrected_image: None, rotation_angle: 0 };
    assert_eq!(r.blocks.len(), 2);
}

#[test]
fn png_outcome_to_data_url() {
    assert_eq!(png_data_url_of(Ok(b"\x89PNG".to_vec())), Ok("data:image/png;base64,iVBORw==".to_string()));
    assert_eq!(png_data_url_of(Err("no encoder".to_string())), Err("no encoder".to_string()));
}

#[test]
fn ghostscript_page_files_sort_in_page_order() {
    assert_eq!(xc_ocr::png_pages::PAGE_FILE_PATTERN, "page-%d.png");
    let mut files: Vec<(usize, String)> = Vec::new();
    for i in [3usize, 10, 1, 2, 11] {
        let name = xc_ocr::png_pages::PAGE_FILE_PATTERN.replace("%d", &i.to_string());
        let stem = name.trim_end_matches(".png").to_string();
        files.push((png_page_index(Some(&stem)), stem));
    }
    let sorted: Vec<String> = sort_pages_by_index(files).into_iter().map(|(_, s)| s).collect();
    assert_eq!(sorted, strings(&["page-1", "page-2", "page-3", "page-10", "page-11"]));
}

#[test]
fn images_keep_the_last_decodable_entry() {
    let entries = vec![
        ("a".to_string(), png_bytes(2, 2)),
        ("a".to_string(), b"broken".to_vec()),
        ("b".to_string(), png_bytes(3, 1)),
    ];
    let m = ImageManager::new(&entries);
    let a = m.get("a").unwrap();
    assert_eq!((a.width(), a.height()), (2, 2));
    let b = m.get("b").unwrap();
    assert_eq!((b.width(), b.height()), (3, 1));
}

#[test]
fn png_round_trip_keeps_pixels() {
    let mut img = image::RgbaImage::new(2, 1);
    img.put_pixel(0, 0, image::Rgba([1, 2, 3, 4]));
    img.put_pixel(1, 0, image::Rgba([250, 0, 9, 255]));
    let url = encode_png_base64(&image::DynamicImage::ImageRgba8(img.clone())).unwrap();
    let back = decode_base64_image(&url).unwrap();
    assert_eq!(back.to_rgba8(), img);
}

#[test]
fn only_a_detected_rotation_uses_the_corrected_image() {
    assert_eq!(rotation_choice(None), RotationChoice::KeepOriginal);
    assert_eq!(rotation_choice(Some(0)), RotationChoice::KeepOriginal);
    assert_eq!(rotation_choice(Some(90)), RotationChoice::UseCorrected(90));
    assert_eq!(rotation_choice(Some(270)).reported_angle(), 270);
    assert_eq!(rotation_choice(Some(0)).reported_angle(), 0);
    assert_eq!(RotationChoice::KeepOriginal.reported_angle(), 0);
}
