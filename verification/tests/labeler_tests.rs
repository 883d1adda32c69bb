use gliphoread::labeler::{
    annotation_file_name, drawn_word, is_annotation_file, thumbnail_file_name, AppState,
};
use gliphoread::model::{PageAnnotation, Role};

fn loaded() -> AppState {
    AppState::from_loaded(vec![
        (
            PageAnnotation::new("/scans/page_001.png", 1200, 1300),
            "/cache/page_001_thumb.png".to_string(),
        ),
        (PageAnnotation::new("/scans/page_002.png", 1200, 1300), String::new()),
    ])
}

#[test]
fn nothing_loaded_gives_demo_page() {
    let state = AppState::from_loaded(Vec::new());
    assert_eq!(state.annotations.len(), 1);
    assert_eq!(state.image_paths, vec![String::new()]);
    assert_eq!(state.selected, 0);
    let demo = &state.annotations[0];
    assert_eq!(demo.page, "demo");
    assert_eq!(demo.image_path, "");
    assert_eq!((demo.width, demo.height), (800, 900));
    assert!(demo.words.is_empty());
}

#[test]
fn loaded_pages_are_kept() {
    let state = loaded();
    assert_eq!(state.annotations.len(), 2);
    assert_eq!(state.annotations[0].page, "page_001.png");
    assert_eq!(state.annotations[1].page, "page_002.png");
    assert_eq!(state.image_paths[1], "");
    assert_eq!(state.image_paths[0], "/cache/page_001_thumb.png");
    assert_eq!(state.selected, 0);
}

#[test]
fn select_shows_a_page() {
    let mut state = loaded();
    state.select(1);
    assert_eq!(state.selected, 1);
    assert_eq!(state.annotations.len(), 2);
}

#[test]
fn upload_adds_and_selects_page() {
    let mut state = loaded();
    state.add_uploaded_page("/home/me/ricetta.png", Some((640, 480)));
    assert_eq!(state.annotations.len(), 3);
    assert_eq!(state.image_paths.len(), 3);
    assert_eq!(state.selected, 2);
    let page = &state.annotations[2];
    assert_eq!(page.page, "ricetta.png");
    assert_eq!(page.image_path, "/home/me/ricetta.png");
    assert_eq!((page.width, page.height), (640, 480));
    assert_eq!(state.image_paths[2], "/home/me/ricetta.png");
}

#[test]
fn upload_defaults() {
    let mut state = loaded();
    state.add_uploaded_page("/home/..", None);
    let page = &state.annotations[2];
    assert_eq!(page.page, "page");
    assert_eq!((page.width, page.height), (800, 900));
}

#[test]
fn small_boxes_are_not_words() {
    assert!(drawn_word(10, 10, 15, 100).is_none());
    assert!(drawn_word(10, 10, 100, 15).is_none());
    assert!(drawn_word(10, 10, 16, 16).is_some());
    let mut state = loaded();
    state.add_drawn_box(10, 10, 15, 100);
    assert!(state.annotations[0].words.is_empty());
}

#[test]
fn drawn_box_becomes_word_on_selected_page() {
    let mut state = loaded();
    state.select(1);
    state.add_drawn_box(10, 20, 110, 60);
    assert!(state.annotations[0].words.is_empty());
    assert_eq!(state.annotations[1].words.len(), 1);
    let w = &state.annotations[1].words[0];
    assert_eq!(w.bbox, [10, 20, 110, 60]);
    assert_eq!(w.text, "?");
    assert_eq!(f32::from_bits(w.confidence_bits), 0.0);
    assert_eq!(w.role, Role::Unlabeled);
    assert_eq!(w.list_pos, None);
}

#[test]
fn annotation_file_names() {
    assert_eq!(annotation_file_name("page_001.png"), "page_001.png.annot.json");
    assert_eq!(annotation_file_name(""), ".annot.json");
}

#[test]
fn thumbnail_file_names() {
    assert_eq!(thumbnail_file_name("page_001.png"), "page_001_thumb.png");
    assert_eq!(thumbnail_file_name("a.png.png"), "a_thumb.png");
    assert_eq!(thumbnail_file_name("x.pngy.png"), "xy_thumb.png");
    assert_eq!(thumbnail_file_name("demo"), "demo_thumb.png");
    assert_eq!(thumbnail_file_name("dolce.jpg"), "dolce.jpg_thumb.png");
    assert_eq!(thumbnail_file_name("crème.png"), "crème_thumb.png");
    for s in ["page_001.png", "a.png.png", ".pn.png", "..png", "crème.png", ""] {
        assert_eq!(thumbnail_file_name(s), format!("{}_thumb.png", s.replace(".png", "")));
    }
}

#[test]
fn annotation_files_by_extension() {
    assert!(!is_annotation_file("page1.png.annot.json"));
    assert!(!is_annotation_file("/scans/page1.png.annot.json"));
    for p in ["page.annot.json", "page1.png.annot.json", ".annot.json", "a.annot.json.", "annot.json", "x.json", "page_001.png", ""] {
        let expected = std::path::Path::new(p)
            .extension()
            .map_or(false, |e| e == "annot.json");
        assert_eq!(is_annotation_file(p), expected);
    }
}
