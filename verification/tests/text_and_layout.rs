use xc_ocr::ctc::ctc_decode_indices;
use xc_ocr::error::DocxToImageError;
use xc_ocr::fonts::{
    collect_font_names, font_candidates, is_candidate_file, load_font_data, try_load_ttc, ttc_header_is_truncated,
    FontManager, RunFonts, NO_FONT_MESSAGE,
};
use xc_ocr::layout::{
    collect_run_text, paragraph_fits, paragraph_height, parse_color, run_color, run_placement, table_fits_exec,
    table_layout, wrap_fits_exec, CellBox, RunPlacement,
};
use xc_ocr::ocr_config::{pad_to_multiple_of_32, parse_keys, rec_input_dims, rec_pool_size, text_lines_exec};

fn strings(v: &[&str]) -> Vec<String> {
    v.iter().map(|s| s.to_string()).collect()
}

fn run(ascii: Option<&str>, east_asia: Option<&str>, hi_ansi: Option<&str>, cs: Option<&str>) -> RunFonts {
    RunFonts {
        ascii: ascii.map(|s| s.to_string()),
        east_asia: east_asia.map(|s| s.to_string()),
        hi_ansi: hi_ansi.map(|s| s.to_string()),
        cs: cs.map(|s| s.to_string()),
    }
}

#[test]
fn colours_parse_from_hex() {
    assert_eq!(parse_color("#1F2E3D"), [31, 46, 61, 255]);
    assert_eq!(parse_color("ff0080"), [255, 0, 128, 255]);
    assert_eq!(parse_color("##00ff00"), [0, 255, 0, 255]);
    assert_eq!(parse_color("abc"), [0, 0, 0, 255]);
    assert_eq!(parse_color("zz10ff"), [0, 16, 255, 255]);
    assert_eq!(parse_color("+f0000"), [15, 0, 0, 255]);
    assert_eq!(parse_color(""), [0, 0, 0, 255]);
    assert_eq!(parse_color("#1F2E3D4"), [0, 0, 0, 255]);
}

#[test]
fn run_colour_defaults_to_black() {
    assert_eq!(run_color(None), [0, 0, 0, 255]);
    assert_eq!(run_color(Some("C00000")), [192, 0, 0, 255]);
    assert_eq!(run_color(Some("auto")), [0, 0, 0, 255]);
}

#[test]
fn run_text_joins_its_pieces() {
    assert_eq!(collect_run_text(&strings(&["Hel", "lo", "", " 世界"])), "Hello 世界");
    assert_eq!(collect_run_text(&Vec::new()), "");
}

#[test]
fn paragraph_height_counts_whole_lines() {
    // 250 px wide in 100 px lines takes 3 lines of 20, 80 px takes 1 line of 10
    assert_eq!(paragraph_height(&vec![(250, 20), (80, 10)], 100), 70);
    // an empty run still takes one line
    assert_eq!(paragraph_height(&vec![(0, 15)], 100), 15);
    // a paragraph without runs is one pixel tall
    assert_eq!(paragraph_height(&Vec::new(), 100), 1);
    assert_eq!(paragraph_height(&vec![(100, 0)], 100), 1);
}

#[test]
fn run_that_fits_is_drawn_whole() {
    let (p, h) = run_placement(90, 18, &vec![30, 30, 30], 10, 20, 100);
    assert!(matches!(p, RunPlacement::Whole { x: 10, y: 20 }));
    assert_eq!(h, 18);
    let (p, h) = run_placement(0, 0, &vec![0], 5, 5, 100);
    assert!(matches!(p, RunPlacement::Whole { x: 5, y: 5 }));
    assert_eq!(h, 1);
}

#[test]
fn empty_run_draws_nothing() {
    let (p, h) = run_placement(500, 18, &Vec::new(), 10, 20, 100);
    assert!(matches!(p, RunPlacement::Nothing));
    assert_eq!(h, 0);
}

#[test]
fn wide_run_wraps_character_by_character() {
    let (p, h) = run_placement(150, 10, &vec![40, 40, 40, 30], 5, 100, 100);
    match p {
        RunPlacement::PerChar(v) => assert_eq!(v, vec![(5, 100), (45, 100), (5, 110), (45, 110)]),
        _ => panic!("expected per-character placement"),
    }
    assert_eq!(h, 20);
}

#[test]
fn character_wider_than_the_line_starts_a_new_line() {
    let (p, h) = run_placement(260, 12, &vec![10, 150, 100], 0, 0, 100);
    match p {
        RunPlacement::PerChar(v) => assert_eq!(v, vec![(0, 0), (0, 12), (0, 24)]),
        _ => panic!("expected per-character placement"),
    }
    assert_eq!(h, 36);
}

#[test]
fn wrapped_characters_stay_in_their_line() {
    let widths = vec![13, 27, 8, 55, 31, 2, 64, 19, 40, 7];
    let (x, max_width) = (7u32, 60u32);
    let (p, _) = run_placement(266, 9, &widths, x, 3, max_width);
    let v = match p {
        RunPlacement::PerChar(v) => v,
        _ => panic!("expected per-character placement"),
    };
    for (i, (px, py)) in v.iter().enumerate() {
        assert!(*px == x || px - x + widths[i] <= max_width);
        assert!(*py >= 3);
    }
}

#[test]
fn table_grid_of_two_rows() {
    // two rows, the second with three cells: columns are 300 / 3 = 100 wide
    let rows = vec![vec![vec![10, 30]], vec![vec![5], vec![40], vec![]]];
    let t = table_layout(&rows, 20, 50, 300);
    assert_eq!(t.col_width, 100);
    assert_eq!(t.top, 50);
    // first row: one cell of 30 + 12 = 42; second row: tallest is 40 + 12 = 52
    assert_eq!(t.bottom, 50 + 42 + 52);
    assert_eq!(t.cells.len(), 2);
    assert_eq!(t.cells[0], vec![CellBox { x: 20, y: 50, width: 100, height: 42, right_border: false }]);
    assert_eq!(
        t.cells[1],
        vec![
            CellBox { x: 20, y: 92, width: 100, height: 24, right_border: false },
            CellBox { x: 120, y: 92, width: 100, height: 52, right_border: false },
            CellBox { x: 220, y: 92, width: 100, height: 24, right_border: true },
        ]
    );
    assert_eq!(t.column_lines, vec![120, 220]);
}

#[test]
fn empty_tables_take_no_space() {
    let t = table_layout(&Vec::new(), 0, 10, 300);
    assert_eq!((t.top, t.bottom), (10, 10));
    assert!(t.cells.is_empty() && t.column_lines.is_empty());
    let t = table_layout(&vec![vec![], vec![]], 0, 10, 300);
    assert_eq!(t.bottom, 10);
    assert!(t.cells.is_empty());
}

#[test]
fn font_file_names_for_known_and_other_fonts() {
    assert_eq!(font_candidates("Microsoft YaHei"), strings(&["msyh.ttf", "msyh.ttc"]));
    assert_eq!(font_candidates("MICROSOFT YAHEI BOLD"), strings(&["msyhbd.ttf", "msyhbd.ttc"]));
    assert_eq!(font_candidates("SimSun"), strings(&["simsun.ttc"]));
    assert_eq!(font_candidates("FangSong"), strings(&["simfang.ttf"]));
    assert_eq!(font_candidates("Times New Roman"), strings(&["times.ttf"]));
    assert_eq!(font_candidates("Noto Sans CJK SC"), strings(&["notosanscjksc.ttf", "notosanscjksc.ttc"]));
    assert_eq!(font_candidates(""), strings(&[".ttf", ".ttc"]));
}

#[test]
fn candidate_file_lookup() {
    let c = font_candidates("Arial");
    assert!(is_candidate_file("arial.ttf", &c));
    assert!(!is_candidate_file("Arial.ttf", &c));
    assert!(!is_candidate_file("arialbd.ttf", &c));
}

#[test]
fn font_data_that_is_not_a_font() {
    assert!(load_font_data(b"").is_none());
    assert!(load_font_data(b"this is no font").is_none());
    assert!(try_load_ttc(b"ttcf\0\0\0\0\0\0\0\0").is_none());
    let mut ttc = b"ttcf\0\x01\0\0\0\0\0\x01\0\0\0\x10".to_vec();
    ttc.extend_from_slice(b"garbage after the header");
    assert!(try_load_ttc(&ttc).is_none());
    let past_end = b"ttcf\0\x01\0\0\0\0\0\x01\0\0\xff\xff";
    assert!(try_load_ttc(past_end).is_none());
}

#[test]
fn font_table_needs_a_fallback() {
    match FontManager::new(vec![("Arial".to_string(), None)], vec![None, None, None]) {
        Err(DocxToImageError::Font(m)) => {
            assert_eq!(m, NO_FONT_MESSAGE);
            assert_eq!(m, "No suitable system font found (tried: Microsoft YaHei, SimSun, Arial)");
        }
        _ => panic!("expected the missing-font error"),
    }
}

#[test]
fn font_names_in_order_of_first_use() {
    let runs = vec![
        run(Some("Arial"), Some("SimSun"), Some("Arial"), None),
        run(Some(""), None, Some("Calibri"), Some("SimSun")),
        run(None, Some("Microsoft YaHei"), None, Some("Arial")),
    ];
    assert_eq!(collect_font_names(&runs), strings(&["Arial", "SimSun", "Calibri", "Microsoft YaHei"]));
    assert!(collect_font_names(&Vec::new()).is_empty());
}

#[test]
fn ctc_collapses_repeats_and_drops_blanks() {
    let keys = strings(&["a", "b", "c"]);
    let d = ctc_decode_indices(&vec![0, 1, 1, 0, 2, 2, 3, 9, 9, 1], &keys);
    assert_eq!(d.text, "abca");
    assert_eq!(d.kept, vec![1, 4, 6, 9]);
    let d = ctc_decode_indices(&vec![1, 0, 1, 1, 1], &keys);
    assert_eq!(d.text, "aa");
    assert_eq!(d.kept, vec![0, 2]);
}

#[test]
fn ctc_repeated_step_changes_nothing() {
    let keys = strings(&["x", "y", "z"]);
    let once = ctc_decode_indices(&vec![0, 2, 0, 3, 1], &keys);
    let twice = ctc_decode_indices(&vec![0, 2, 2, 0, 3, 3, 1, 1], &keys);
    assert_eq!(once.text, twice.text);
    assert_eq!(once.text, "yzx");
}

#[test]
fn ctc_of_nothing() {
    let d = ctc_decode_indices(&Vec::new(), &strings(&["a"]));
    assert_eq!(d.text, "");
    assert!(d.kept.is_empty());
    let d = ctc_decode_indices(&vec![0, 0, 5], &Vec::new());
    assert_eq!(d.text, "");
}

#[test]
fn recognition_input_size() {
    assert_eq!(rec_input_dims(None), (48, Some(320)));
    assert_eq!(rec_input_dims(Some(&vec![1, 3, 32, -1])), (32, None));
    assert_eq!(rec_input_dims(Some(&vec![1, 3])), (48, None));
    assert_eq!(rec_input_dims(Some(&vec![1, 3, 0, 100])), (1, Some(100)));
    assert_eq!(rec_input_dims(Some(&vec![1, 3, -5, 0])), (1, None));
}

#[test]
fn recognition_pool_size() {
    assert_eq!(rec_pool_size(Some(8)), 4);
    assert_eq!(rec_pool_size(Some(3)), 1);
    assert_eq!(rec_pool_size(Some(1)), 1);
    assert_eq!(rec_pool_size(None), 1);
}

#[test]
fn character_table_lines() {
    assert_eq!(parse_keys(b"a\nb\r\nc\n"), Some(strings(&["a", "b", "c"])));
    assert_eq!(parse_keys("一\n二\n\n".as_bytes()), Some(strings(&["一", "二", ""])));
    assert_eq!(parse_keys(b""), Some(Vec::new()));
    assert_eq!(parse_keys(b"\xff\xfe"), None);
    assert_eq!(text_lines_exec("x\r\n\ry"), strings(&["x", "\ry"]));
    assert_eq!(text_lines_exec("tail"), "tail".lines().map(String::from).collect::<Vec<_>>());
}

#[test]
fn detection_padding() {
    assert_eq!(pad_to_multiple_of_32(0), 0);
    assert_eq!(pad_to_multiple_of_32(1), 32);
    assert_eq!(pad_to_multiple_of_32(64), 64);
    assert_eq!(pad_to_multiple_of_32(65), 96);
    for n in 0..200u32 {
        let p = pad_to_multiple_of_32(n);
        assert!(p % 32 == 0 && n <= p && p < n + 32);
    }
}

#[test]
fn ctc_blank_between_different_steps_vanishes() {
    let keys = strings(&["a", "b"]);
    assert_eq!(ctc_decode_indices(&vec![1, 0, 2], &keys).text, ctc_decode_indices(&vec![1, 2], &keys).text);
    assert_eq!(ctc_decode_indices(&vec![0, 1, 2, 0], &keys).text, "ab");
    // between equal steps a blank keeps both
    assert_eq!(ctc_decode_indices(&vec![1, 1], &keys).text, "a");
    assert_eq!(ctc_decode_indices(&vec![1, 0, 1], &keys).text, "aa");
}

#[test]
fn collected_font_names_are_distinct_and_non_empty() {
    let runs = vec![
        run(Some("A"), Some("A"), Some(""), Some("B")),
        run(Some("B"), Some(""), Some("C"), Some("A")),
    ];
    let names = collect_font_names(&runs);
    assert_eq!(names, strings(&["A", "B", "C"]));
    for (i, a) in names.iter().enumerate() {
        assert!(!a.is_empty());
        for b in &names[i + 1..] {
            assert_ne!(a, b);
        }
    }
}

#[test]
fn layout_conditions() {
    assert!(paragraph_fits(&vec![(250, 20), (80, 10)], 100));
    assert!(!paragraph_fits(&vec![(10, 10)], 0));
    assert!(!paragraph_fits(&vec![(u32::MAX, 1)], 2));
    assert!(!paragraph_fits(&vec![(100, u32::MAX), (100, 1)], 100));
    assert!(paragraph_fits(&Vec::new(), 1));
    assert!(wrap_fits_exec(&vec![40, 40, 40], 0, 0, 100, 10));
    assert!(!wrap_fits_exec(&vec![40, 80], 0, u32::MAX - 5, 100, 10));
    assert!(!wrap_fits_exec(&vec![u32::MAX, 1], 0, 0, u32::MAX, 1));
    assert!(!wrap_fits_exec(&vec![50, 10], u32::MAX - 20, 0, 100, 1));
    assert!(wrap_fits_exec(&vec![1], u32::MAX, 0, 100, 1));
    assert!(table_fits_exec(&vec![vec![vec![10]]], 0, 0, 100));
    assert!(!table_fits_exec(&vec![vec![vec![10]]], u32::MAX, 0, 100));
    assert!(!table_fits_exec(&vec![vec![vec![u32::MAX]]], 0, 0, 100));
    assert!(!table_fits_exec(&vec![vec![vec![10]]], 0, u32::MAX - 20, 100));
}

#[test]
fn truncated_collection_header() {
    assert!(ttc_header_is_truncated(b"ttcf\0\0\0\0\0\0\0\x01"));
    assert!(ttc_header_is_truncated(b"ttcf\0\0\0\0\0\0\0\x01\0\0\0"));
    assert!(!ttc_header_is_truncated(b"ttcf\0\0\0\0\0\0\0\0"));
    assert!(!ttc_header_is_truncated(b"ttcf\0\0\0\0\0\0\0\x01\0\0\0\x10"));
    assert!(!ttc_header_is_truncated(b"abcd\0\0\0\0\0\0\0\x01"));
}

#[test]
fn empty_paragraph_and_table_need_no_width() {
    assert!(paragraph_fits(&Vec::new(), 0));
    assert_eq!(paragraph_height(&Vec::new(), 0), 1);
    assert!(table_fits_exec(&Vec::new(), u32::MAX, 0, 100));
    assert!(table_fits_exec(&vec![vec![], vec![]], u32::MAX, 7, u32::MAX));
    let t = table_layout(&vec![vec![], vec![]], u32::MAX, 7, u32::MAX);
    assert_eq!((t.top, t.bottom), (7, 7));
    assert!(!table_fits_exec(&vec![vec![vec![]]], u32::MAX, 7, 1));
}

#[test]
fn ctc_blank_splits_decoding() {
    let keys = strings(&["a", "b"]);
    let p = vec![1usize, 1, 2];
    let q = vec![2usize, 2, 1];
    let mut all = p.clone();
    all.push(0);
    all.extend(q.iter().copied());
    let whole = ctc_decode_indices(&all, &keys).text;
    assert_eq!(whole, ctc_decode_indices(&p, &keys).text + &ctc_decode_indices(&q, &keys).text);
    assert_eq!(whole, "abba");
}
