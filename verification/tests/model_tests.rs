use gliphoread::model::{PageAnnotation, Role, WordAnnotation};

const ALL_ROLES: [Role; 8] = [
    Role::Title,
    Role::ListItem,
    Role::Ingredient,
    Role::Measurement,
    Role::Unit,
    Role::Instruction,
    Role::Comment,
    Role::Unlabeled,
];

fn word(text: &str) -> WordAnnotation {
    WordAnnotation {
        bbox: [100, 200, 300, 400],
        text: text.to_string(),
        confidence_bits: 85.0f32.to_bits(),
        role: Role::Ingredient,
        list_pos: None,
    }
}

#[test]
fn role_labels() {
    assert_eq!(Role::Title.label(), "title");
    assert_eq!(Role::ListItem.label(), "list_item");
    assert_eq!(Role::Ingredient.label(), "ingredient");
    assert_eq!(Role::Measurement.label(), "measurement");
    assert_eq!(Role::Unit.label(), "unit");
    assert_eq!(Role::Instruction.label(), "instruction");
    assert_eq!(Role::Comment.label(), "comment");
    assert_eq!(Role::Unlabeled.label(), "unlabeled");
}

#[test]
fn role_colors() {
    assert_eq!(Role::Title.color(), "#ef4444");
    assert_eq!(Role::ListItem.color(), "#8b5cf6");
    assert_eq!(Role::Ingredient.color(), "#22c55e");
    assert_eq!(Role::Measurement.color(), "#3b82f6");
    assert_eq!(Role::Unit.color(), "#f59e0b");
    assert_eq!(Role::Instruction.color(), "#a855f7");
    assert_eq!(Role::Comment.color(), "#6b7280");
    assert_eq!(Role::Unlabeled.color(), "#9ca3af");
}

#[test]
fn role_default_is_unlabeled() {
    assert_eq!(Role::default(), Role::Unlabeled);
}

#[test]
fn role_label_round_trip() {
    for r in ALL_ROLES {
        assert_eq!(Role::from_label(r.label()), r);
    }
}

#[test]
fn role_colors_are_distinct() {
    for a in ALL_ROLES {
        for b in ALL_ROLES {
            if a != b {
                assert_ne!(a.color(), b.color());
            }
        }
    }
}

#[test]
fn role_from_unknown_label_is_unlabeled() {
    assert_eq!(Role::from_label(""), Role::Unlabeled);
    assert_eq!(Role::from_label("Title"), Role::Unlabeled);
    assert_eq!(Role::from_label("titles"), Role::Unlabeled);
    assert_eq!(Role::from_label("unlabeled"), Role::Unlabeled);
}

#[test]
fn new_page_takes_file_name() {
    let page = PageAnnotation::new("/path/to/test.png", 2000, 3000);
    assert_eq!(page.page, "test.png");
    assert_eq!(page.image_path, "/path/to/test.png");
    assert_eq!(page.width, 2000);
    assert_eq!(page.height, 3000);
    assert!(page.words.is_empty());
}

#[test]
fn new_page_without_file_name() {
    let page = PageAnnotation::new("/path/to/..", 10, 20);
    assert_eq!(page.page, "");
    assert_eq!(page.image_path, "/path/to/..");
    let page = PageAnnotation::new("", 10, 20);
    assert_eq!(page.page, "");
}

#[test]
fn add_and_remove_words() {
    let mut page = PageAnnotation::new("p.png", 1, 1);
    page.add_word(word("uova"));
    page.add_word(word("zucchero"));
    page.add_word(word("farina"));
    assert_eq!(page.words.len(), 3);
    assert_eq!(page.words[2].text, "farina");
    page.remove_word(1);
    assert_eq!(page.words.len(), 2);
    assert_eq!(page.words[0].text, "uova");
    assert_eq!(page.words[1].text, "farina");
}

#[test]
fn remove_word_out_of_range_changes_nothing() {
    let mut page = PageAnnotation::new("p.png", 1, 1);
    page.add_word(word("uova"));
    page.remove_word(1);
    page.remove_word(usize::MAX);
    assert_eq!(page.words.len(), 1);
    assert_eq!(page.words[0].text, "uova");
}

#[test]
fn remove_undoes_add() {
    let mut page = PageAnnotation::new("p.png", 1, 1);
    page.add_word(word("uova"));
    let before: Vec<String> = page.words.iter().map(|w| w.text.clone()).collect();
    page.add_word(word("burro"));
    let last = page.words.len() - 1;
    page.remove_word(last);
    let after: Vec<String> = page.words.iter().map(|w| w.text.clone()).collect();
    assert_eq!(before, after);
}

#[test]
fn list_position_is_an_ordinal_up_to_30() {
    let mut w = word("uova");
    w.set_list_position(0);
    assert_eq!(w.list_pos, Some(1));
    w.set_list_position(3);
    assert_eq!(w.list_pos, Some(4));
    w.set_list_position(29);
    assert_eq!(w.list_pos, Some(30));
    w.set_list_position(30);
    assert_eq!(w.list_pos, None);
    w.set_list_position(300);
    assert_eq!(w.list_pos, None);
    assert_eq!(w.text, "uova");
    assert_eq!(w.role, Role::Ingredient);
}

#[test]
fn display_size_is_at_least_one_pixel() {
    let mut w = word("g");
    assert_eq!(w.display_size(), (200, 200));
    w.bbox = [5, 7, 5, 7];
    assert_eq!(w.display_size(), (1, 1));
    w.bbox = [5, 7, 6, 9];
    assert_eq!(w.display_size(), (1, 2));
}

#[test]
fn confidence_bits_carry_the_score() {
    let w = word("uova");
    assert_eq!(f32::from_bits(w.confidence_bits), 85.0);
}
