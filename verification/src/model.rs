//! Data models for gliphoread annotations.

use vstd::prelude::*;

use crate::stdlib::{file_name, path_file_name};

verus! {

/// Semantic role of a word in a recipe page.
#[derive(Debug, Clone, Copy, PartialEq, Eq, Structural)]
pub enum Role {
    /// Recipe name / header.
    Title,
    /// Bullet marker or numbering.
    ListItem,
    /// Ingredient name ("uova", "zucchero", "farina").
    Ingredient,
    /// Numeric quantity ("180", "160°", "60'").
    Measurement,
    /// Measurement unit ("g", "Kg", "ml").
    Unit,
    /// Preparation step text or cooking params ("160° 60'").
    Instruction,
    /// Non-recipe text, notes, marginalia.
    Comment,
    /// Unlabeled word (default).
    Unlabeled,
}

/// The display label of a role.
pub open spec fn role_label(r: Role) -> Seq<char> {
    match r {
        Role::Title => "title"@,
        Role::ListItem => "list_item"@,
        Role::Ingredient => "ingredient"@,
        Role::Measurement => "measurement"@,
        Role::Unit => "unit"@,
        Role::Instruction => "instruction"@,
        Role::Comment => "comment"@,
        Role::Unlabeled => "unlabeled"@,
    }
}

/// The CSS color of a role.
pub open spec fn role_color(r: Role) -> Seq<char> {
    match r {
        Role::Title => "#ef4444"@,
        Role::ListItem => "#8b5cf6"@,
        Role::Ingredient => "#22c55e"@,
        Role::Measurement => "#3b82f6"@,
        Role::Unit => "#f59e0b"@,
        Role::Instruction => "#a855f7"@,
        Role::Comment => "#6b7280"@,
        Role::Unlabeled => "#9ca3af"@,
    }
}

impl Role {
    /// Convert to string label for display.
    pub fn label(&self) -> (r: &'static str)
        ensures
            r@ == role_label(*self),
    {
        match self {
            Role::Title => "title",
            Role::ListItem => "list_item",
            Role::Ingredient => "ingredient",
            Role::Measurement => "measurement",
            Role::Unit => "unit",
            Role::Instruction => "instruction",
            Role::Comment => "comment",
            Role::Unlabeled => "unlabeled",
        }
    }

    /// CSS color for visual distinction.
    pub fn color(&self) -> (r: &'static str)
        ensures
            r@ == role_color(*self),
    {
        match self {
            Role::Title => "#ef4444",
            Role::ListItem => "#8b5cf6",
            Role::Ingredient => "#22c55e",
            Role::Measurement => "#3b82f6",
            Role::Unit => "#f59e0b",
            Role::Instruction => "#a855f7",
            Role::Comment => "#6b7280",
            Role::Unlabeled => "#9ca3af",
        }
    }
}

impl Default for Role {
    /// A word starts out unlabeled.
    fn default() -> (r: Self)
        ensures
            r == Role::Unlabeled,
    {
        Role::Unlabeled
    }
}

/// The role that a label selects; any text that is not the label of another
/// role selects `Unlabeled`.
pub open spec fn role_from_label(s: Seq<char>) -> Role {
    if s == "title"@ {
        Role::Title
    } else if s == "ingredient"@ {
        Role::Ingredient
    } else if s == "measurement"@ {
        Role::Measurement
    } else if s == "unit"@ {
        Role::Unit
    } else if s == "instruction"@ {
        Role::Instruction
    } else if s == "list_item"@ {
        Role::ListItem
    } else if s == "comment"@ {
        Role::Comment
    } else {
        Role::Unlabeled
    }
}

/// Whether two string slices hold the same characters.
fn same_text(a: &str, b: &str) -> (r: bool)
    ensures
        r == (a@ == b@),
{
    a.to_owned() == b.to_owned()
}

impl Role {
    /// The role chosen in the role selector by the option value `label`.
    pub fn from_label(label: &str) -> (r: Role)
        ensures
            r == role_from_label(label@),
    {
        if same_text(label, "title") {
            Role::Title
        } else if same_text(label, "ingredient") {
            Role::Ingredient
        } else if same_text(label, "measurement") {
            Role::Measurement
        } else if same_text(label, "unit") {
            Role::Unit
        } else if same_text(label, "instruction") {
            Role::Instruction
        } else if same_text(label, "list_item") {
            Role::ListItem
        } else if same_text(label, "comment") {
            Role::Comment
        } else {
            Role::Unlabeled
        }
    }
}

/// Every role is read back from its own label: the role selector, whose
/// options carry the labels, can express every role.
pub proof fn lemma_label_round_trip(r: Role)
    ensures
        role_from_label(role_label(r)) == r,
{
    reveal_strlit("title");
    reveal_strlit("list_item");
    reveal_strlit("ingredient");
    reveal_strlit("measurement");
    reveal_strlit("unit");
    reveal_strlit("instruction");
    reveal_strlit("comment");
    reveal_strlit("unlabeled");
    assert("title"@.len() == 5);
    assert("unit"@.len() == 4);
    assert("comment"@.len() == 7);
    assert("list_item"@.len() == 9 && "list_item"@[0] == 'l');
    assert("unlabeled"@.len() == 9 && "unlabeled"@[0] == 'u');
    assert("ingredient"@.len() == 10);
    assert("measurement"@.len() == 11 && "measurement"@[0] == 'm');
    assert("instruction"@.len() == 11 && "instruction"@[0] == 'i');
}

/// Distinct roles are drawn in distinct colors.
pub proof fn lemma_colors_distinct(a: Role, b: Role)
    requires
        a != b,
    ensures
        role_color(a) != role_color(b),
{
    reveal_strlit("#ef4444");
    reveal_strlit("#8b5cf6");
    reveal_strlit("#22c55e");
    reveal_strlit("#3b82f6");
    reveal_strlit("#f59e0b");
    reveal_strlit("#a855f7");
    reveal_strlit("#6b7280");
    reveal_strlit("#9ca3af");
    // the second character already tells all eight colors apart
    assert("#ef4444"@[1] == 'e');
    assert("#8b5cf6"@[1] == '8');
    assert("#22c55e"@[1] == '2');
    assert("#3b82f6"@[1] == '3');
    assert("#f59e0b"@[1] == 'f');
    assert("#a855f7"@[1] == 'a');
    assert("#6b7280"@[1] == '6');
    assert("#9ca3af"@[1] == '9');
    assert(role_color(a)[1] != role_color(b)[1]);
}

/// A single word annotation with bounding box and semantic role.
#[derive(Debug, Clone)]
pub struct WordAnnotation {
    /// Bounding box [x1, y1, x2, y2] in pixel coordinates.
    pub bbox: [u32; 4],
    /// Recognized text (may be inaccurate for handwriting).
    pub text: String,
    /// Tesseract confidence score (0-100), held as the IEEE-754 bit pattern of
    /// the `f32` score; the library carries it without reading it.
    pub confidence_bits: u32,
    /// Semantic role of this word.
    pub role: Role,
    /// Ordinal position within the ingredient list (1..30), or None.
    pub list_pos: Option<u8>,
}

/// Whether a bounding box has its corners in order.
pub open spec fn bbox_ordered(b: Seq<u32>) -> bool {
    b[0] <= b[2] && b[1] <= b[3]
}

/// At least one pixel: the size a box is drawn with.
pub open spec fn at_least_one(v: int) -> int {
    if v < 1 { 1 } else { v }
}

impl WordAnnotation {
    /// Records the word's position in the ingredient list from the 0-based
    /// index of its card: the ordinal `idx + 1`, or none past the 30 places
    /// the list holds.
    pub fn set_list_position(&mut self, idx: usize)
        ensures
            final(self).list_pos == (if idx < 30 { Some((idx + 1) as u8) } else { None }),
            final(self).list_pos matches Some(p) ==> 1 <= p <= 30,
            final(self).bbox == old(self).bbox,
            final(self).text == old(self).text,
            final(self).confidence_bits == old(self).confidence_bits,
            final(self).role == old(self).role,
    {
        self.list_pos = if idx < 30 { Some((idx + 1) as u8) } else { None };
    }

    /// The width and height the word's box is drawn with: its extent, but at
    /// least one pixel each way.
    pub fn display_size(&self) -> (r: (u32, u32))
        requires
            bbox_ordered(self.bbox@),
        ensures
            r.0 == at_least_one(self.bbox[2] - self.bbox[0]),
            r.1 == at_least_one(self.bbox[3] - self.bbox[1]),
            r.0 >= 1 && r.1 >= 1,
            self.bbox[2] - self.bbox[0] >= 1 ==> r.0 == self.bbox[2] - self.bbox[0],
            self.bbox[3] - self.bbox[1] >= 1 ==> r.1 == self.bbox[3] - self.bbox[1],
    {
        let w: u32 = self.bbox[2] - self.bbox[0];
        let h: u32 = self.bbox[3] - self.bbox[1];
        (if w < 1 { 1 } else { w }, if h < 1 { 1 } else { h })
    }
}

/// Full page annotation result.
#[derive(Debug, Clone)]
pub struct PageAnnotation {
    /// Basename of the source page image.
    pub page: String,
    /// Full path to the source image.
    pub image_path: String,
    /// Image width in pixels.
    pub width: u32,
    /// Image height in pixels.
    pub height: u32,
    /// Detected words with bounding boxes.
    pub words: Vec<WordAnnotation>,
}

/// The content of a page annotation.
pub struct PageView {
    pub page: Seq<char>,
    pub image_path: Seq<char>,
    pub width: u32,
    pub height: u32,
    pub words: Seq<WordAnnotation>,
}

impl View for PageAnnotation {
    type V = PageView;

    open spec fn view(&self) -> PageView {
        PageView {
            page: self.page@,
            image_path: self.image_path@,
            width: self.width,
            height: self.height,
            words: self.words@,
        }
    }
}

impl PageView {
    /// The page with `word` appended to its words.
    pub open spec fn with_word(self, word: WordAnnotation) -> PageView {
        PageView { words: self.words.push(word), ..self }
    }

    /// The page without its word at `index`; unchanged where there is none.
    pub open spec fn without_word(self, index: int) -> PageView {
        if 0 <= index < self.words.len() {
            PageView { words: self.words.remove(index), ..self }
        } else {
            self
        }
    }
}

/// The page name of an image path: its file name, or empty where it has none.
pub open spec fn page_name_of(path: Seq<char>) -> Seq<char> {
    match path_file_name(path) {
        Some(name) => name,
        None => Seq::empty(),
    }
}

impl PageAnnotation {
    /// Create a new empty annotation for a page.
    pub fn new(path: &str, width: u32, height: u32) -> (r: Self)
        ensures
            r@ == (PageView {
                page: page_name_of(path@),
                image_path: path@,
                width,
                height,
                words: Seq::empty(),
            }),
    {
        let page = match file_name(path) {
            Some(name) => name,
            None => String::new(),
        };
        PageAnnotation {
            page,
            image_path: path.to_owned(),
            width,
            height,
            words: Vec::new(),
        }
    }

    /// Add a new word annotation.
    pub fn add_word(&mut self, word: WordAnnotation)
        ensures
            final(self)@ == old(self)@.with_word(word),
            final(self).words@ == old(self).words@ + seq![word],
    {
        self.words.push(word);
        assert(self.words@ =~= old(self).words@ + seq![word]);
    }

    /// Remove a word annotation by index; an index past the last word changes
    /// nothing.
    pub fn remove_word(&mut self, index: usize)
        ensures
            final(self)@ == old(self)@.without_word(index as int),
            index < old(self).words@.len() ==> final(self).words@ == old(self).words@.subrange(
                0,
                index as int,
            ) + old(self).words@.subrange(index + 1, old(self).words@.len() as int),
            index >= old(self).words@.len() ==> final(self).words@ == old(self).words@,
    {
        if index < self.words.len() {
            self.words.remove(index);
            assert(self.words@ =~= old(self).words@.subrange(0, index as int) + old(
                self,
            ).words@.subrange(index + 1, old(self).words@.len() as int));
        }
    }
}

/// Adding a word puts it after all the words there were, which stay in order;
/// nothing else about the page changes.
pub proof fn lemma_with_word(page: PageView, word: WordAnnotation)
    ensures
        page.with_word(word).words == page.words + seq![word],
        page.with_word(word).words.len() == page.words.len() + 1,
        page.with_word(word).words.last() == word,
        page.with_word(word).page == page.page,
        page.with_word(word).image_path == page.image_path,
        page.with_word(word).width == page.width,
        page.with_word(word).height == page.height,
{
    assert(page.words.push(word) =~= page.words + seq![word]);
}

/// Removing the word at `index` removes that word and no other: the words
/// before it keep their places, the words after it move up by one, and nothing
/// else about the page changes.
pub proof fn lemma_without_word(page: PageView, index: int)
    requires
        0 <= index < page.words.len(),
    ensures
        page.without_word(index).words == page.words.subrange(0, index) + page.words.subrange(
            index + 1,
            page.words.len() as int,
        ),
        page.without_word(index).words.len() == page.words.len() - 1,
        forall|j: int| 0 <= j < index ==> #[trigger] page.without_word(index).words[j] == page.words[j],
        forall|j: int|
            index <= j < page.words.len() - 1 ==> #[trigger] page.without_word(index).words[j]
                == page.words[j + 1],
        page.without_word(index).page == page.page,
        page.without_word(index).image_path == page.image_path,
        page.without_word(index).width == page.width,
        page.without_word(index).height == page.height,
{
    assert(page.words.remove(index) =~= page.words.subrange(0, index) + page.words.subrange(
        index + 1,
        page.words.len() as int,
    ));
}

/// Removing the word just added gives back the page as it was.
pub proof fn lemma_remove_undoes_add(page: PageView, word: WordAnnotation)
    ensures
        page.with_word(word).without_word(page.words.len() as int) == page,
{
    assert(page.words.push(word).remove(page.words.len() as int) =~= page.words);
}

} // verus!
