//! The state of the page labeling tool and the decisions it takes on the
//! user's actions: which page is shown, what an upload adds, which drawn
//! boxes become words, and how the files it writes are named.

use vstd::prelude::*;
use vstd::string::StringExecFns;
use vstd::string::StrSliceExecFns;

use crate::model::{PageAnnotation, PageView, Role, WordAnnotation};
use crate::stdlib::{
    extension, file_name, last_dot, lemma_after_last_dot, lemma_last_dot_range, path_extension,
    path_file_name,
};

verus! {

/// The pages open in the labeling tool, the image shown for each, and the page
/// that is selected.
#[derive(Debug, Clone)]
pub struct AppState {
    /// The page annotations.
    pub annotations: Vec<PageAnnotation>,
    /// The image shown for each page, by position.
    pub image_paths: Vec<String>,
    /// The position of the page shown.
    pub selected: usize,
}

/// The content of the labeling tool's state.
pub struct AppView {
    pub pages: Seq<PageView>,
    pub image_paths: Seq<Seq<char>>,
    pub selected: int,
}

impl View for AppState {
    type V = AppView;

    open spec fn view(&self) -> AppView {
        AppView {
            pages: self.annotations@.map_values(|p: PageAnnotation| p@),
            image_paths: self.image_paths@.map_values(|s: String| s@),
            selected: self.selected as int,
        }
    }
}

impl AppView {
    /// Every page has its image, and the selected page exists.
    pub open spec fn wf(self) -> bool {
        &&& self.pages.len() == self.image_paths.len()
        &&& 0 <= self.selected < self.pages.len()
    }

    /// `page`, shown with the image at `path`, added last and selected.
    pub open spec fn with_page(self, page: PageView, path: Seq<char>) -> AppView {
        AppView {
            pages: self.pages.push(page),
            image_paths: self.image_paths.push(path),
            selected: self.pages.len() as int,
        }
    }

    /// `word` added to the selected page.
    pub open spec fn with_word_on_selected(self, word: WordAnnotation) -> AppView {
        AppView {
            pages: self.pages.update(self.selected, self.pages[self.selected].with_word(word)),
            ..self
        }
    }
}

/// The page shown when no annotation could be loaded.
pub open spec fn demo_page() -> PageView {
    PageView { page: "demo"@, image_path: Seq::empty(), width: 800, height: 900, words: Seq::empty() }
}

/// The page name of an uploaded image: its file name, or `page` where it has
/// none.
pub open spec fn upload_page_name(path: Seq<char>) -> Seq<char> {
    match path_file_name(path) {
        Some(name) => name,
        None => "page"@,
    }
}

/// The size assumed for an uploaded image whose size could not be read.
pub open spec fn upload_size(dimensions: Option<(u32, u32)>) -> (u32, u32) {
    match dimensions {
        Some(d) => d,
        None => (800, 900),
    }
}

/// An image's size, where it could be read, is the page's size unchanged:
/// width first, then height, whatever the image's shape.
pub proof fn lemma_upload_size_read(width: u32, height: u32)
    ensures
        upload_size(Some((width, height))) == (width, height),
        upload_size(Some((height, width))) == (height, width),
        upload_size(None) == (800u32, 900u32),
{
}

/// Adding a page puts it and its image after all the pages there were, which
/// stay as they were, and shows it.
pub proof fn lemma_with_page(state: AppView, page: PageView, path: Seq<char>)
    requires
        state.wf(),
    ensures
        state.with_page(page, path).wf(),
        state.with_page(page, path).pages == state.pages + seq![page],
        state.with_page(page, path).image_paths == state.image_paths + seq![path],
        state.with_page(page, path).selected == state.pages.len(),
        state.with_page(page, path).pages[state.with_page(page, path).selected] == page,
{
    assert(state.pages.push(page) =~= state.pages + seq![page]);
    assert(state.image_paths.push(path) =~= state.image_paths + seq![path]);
}

/// A word added to the shown page goes after that page's words; every other
/// page, every image and the selection stay as they were.
pub proof fn lemma_with_word_on_selected(state: AppView, word: WordAnnotation)
    requires
        state.wf(),
    ensures
        state.with_word_on_selected(word).wf(),
        state.with_word_on_selected(word).pages.len() == state.pages.len(),
        state.with_word_on_selected(word).image_paths == state.image_paths,
        state.with_word_on_selected(word).selected == state.selected,
        state.with_word_on_selected(word).pages[state.selected].words == state.pages[state.selected].words
            + seq![word],
        forall|j: int|
            0 <= j < state.pages.len() && j != state.selected ==> #[trigger] state.with_word_on_selected(
                word,
            ).pages[j] == state.pages[j],
{
    crate::model::lemma_with_word(state.pages[state.selected], word);
}

impl AppState {
    /// Whether the state is consistent.
    pub open spec fn wf(&self) -> bool {
        self@.wf()
    }

    /// The state after loading: the loaded pages, each with the image shown
    /// for it, the first selected; a demo page without image where nothing
    /// was loaded.
    pub fn from_loaded(loaded: Vec<(PageAnnotation, String)>) -> (r: Self)
        ensures
            r.wf(),
            r.selected == 0,
            loaded@.len() > 0 ==> r.annotations@ == loaded@.map_values(
                |e: (PageAnnotation, String)| e.0,
            ) && r.image_paths@ == loaded@.map_values(|e: (PageAnnotation, String)| e.1),
            loaded@.len() == 0 ==> r@.pages == seq![demo_page()] && r@.image_paths == seq![
                Seq::<char>::empty(),
            ],
    {
        let ghost all = loaded@;
        let mut rest = loaded;
        let mut annotations: Vec<PageAnnotation> = Vec::new();
        let mut image_paths: Vec<String> = Vec::new();
        while rest.len() > 0
            invariant
                annotations@.len() == image_paths@.len(),
                annotations@.len() + rest@.len() == all.len(),
                forall|i: int| 0 <= i < annotations@.len() ==> #[trigger] annotations@[i] == all[i].0,
                forall|i: int| 0 <= i < image_paths@.len() ==> #[trigger] image_paths@[i] == all[i].1,
                forall|i: int|
                    0 <= i < rest@.len() ==> #[trigger] rest@[i] == all[annotations@.len() + i],
            decreases rest@.len(),
        {
            let (page, path) = rest.remove(0);
            annotations.push(page);
            image_paths.push(path);
        }
        if annotations.len() == 0 {
            let demo = PageAnnotation {
                page: "demo".to_owned(),
                image_path: String::new(),
                width: 800,
                height: 900,
                words: Vec::new(),
            };
            annotations.push(demo);
            image_paths.push(String::new());
            let ghost r = AppState { annotations, image_paths, selected: 0 };
            assert(r@.pages =~= seq![demo_page()]);
            assert(r@.image_paths =~= seq![Seq::<char>::empty()]);
        } else {
            assert(annotations@ =~= all.map_values(|e: (PageAnnotation, String)| e.0));
            assert(image_paths@ =~= all.map_values(|e: (PageAnnotation, String)| e.1));
        }
        AppState { annotations, image_paths, selected: 0 }
    }

    /// Shows the page at `index`.
    pub fn select(&mut self, index: usize)
        requires
            old(self).wf(),
            index < old(self).annotations@.len(),
        ensures
            final(self).wf(),
            final(self)@ == (AppView { selected: index as int, ..old(self)@ }),
    {
        self.selected = index;
    }

    /// Adds the uploaded image at `path` as a new page without words, and
    /// shows it; `dimensions` is the image's size where it could be read.
    pub fn add_uploaded_page(&mut self, path: &str, dimensions: Option<(u32, u32)>)
        requires
            old(self).wf(),
        ensures
            final(self).wf(),
            final(self)@ == old(self)@.with_page(
                PageView {
                    page: upload_page_name(path@),
                    image_path: path@,
                    width: upload_size(dimensions).0,
                    height: upload_size(dimensions).1,
                    words: Seq::empty(),
                },
                path@,
            ),
            final(self)@.pages.len() == old(self)@.pages.len() + 1,
            final(self).selected == old(self)@.pages.len(),
            final(self)@.pages.last().image_path == path@,
            final(self)@.pages.last().words.len() == 0,
            dimensions matches Some((w, h)) ==> final(self)@.pages.last().width == w
                && final(self)@.pages.last().height == h,
            dimensions is None ==> final(self)@.pages.last().width == 800
                && final(self)@.pages.last().height == 900,
    {
        let page = match file_name(path) {
            Some(name) => name,
            None => "page".to_owned(),
        };
        let (width, height): (u32, u32) = match dimensions {
            Some(d) => d,
            None => (800, 900),
        };
        let annot = PageAnnotation {
            page,
            image_path: path.to_owned(),
            width,
            height,
            words: Vec::new(),
        };
        let ghost old_view = self@;
        let ghost annot_view = annot@;
        self.image_paths.push(path.to_owned());
        self.annotations.push(annot);
        self.selected = self.annotations.len() - 1;
        assert(self@.pages =~= old_view.pages.push(annot_view));
        assert(self@.image_paths =~= old_view.image_paths.push(path@));
    }

    /// Adds the box drawn on the shown page from corner `(x0, y0)` to corner
    /// `(x1, y1)` as a new word, unless it is 5 pixels or less wide or high.
    pub fn add_drawn_box(&mut self, x0: u32, y0: u32, x1: u32, y1: u32)
        requires
            old(self).wf(),
            x0 <= x1,
            y0 <= y1,
        ensures
            final(self).wf(),
            box_kept(x0, y0, x1, y1) ==> {
                let word = final(self)@.pages[old(self).selected as int].words.last();
                &&& is_drawn_word(word, x0, y0, x1, y1)
                &&& final(self)@ == old(self)@.with_word_on_selected(word)
            },
            !box_kept(x0, y0, x1, y1) ==> final(self)@ == old(self)@,
    {
        match drawn_word(x0, y0, x1, y1) {
            Some(word) => {
                let ghost old_view = self@;
                let sel: usize = self.selected;
                let mut page = self.annotations.remove(sel);
                page.add_word(word);
                let ghost page_view = page@;
                self.annotations.insert(sel, page);
                assert(self@.pages =~= old_view.pages.update(sel as int, page_view));
            },
            None => {},
        }
    }
}

/// Whether a drawn box is large enough to become a word: more than 5 pixels
/// wide and more than 5 pixels high.
pub open spec fn box_kept(x0: u32, y0: u32, x1: u32, y1: u32) -> bool {
    x1 - x0 > 5 && y1 - y0 > 5
}

/// A drawn box is kept exactly when it is more than 5 pixels wide and more than
/// 5 pixels high, whatever its shape.
pub proof fn lemma_box_kept_by_size(x0: u32, y0: u32, x1: u32, y1: u32)
    requires
        x0 <= x1,
        y0 <= y1,
    ensures
        box_kept(x0, y0, x1, y1) <==> (x1 - x0 > 5 && y1 - y0 > 5),
        box_kept(x0, y0, x1, y1) <==> (x1 > x0 + 5 && y1 > y0 + 5),
{
}

/// Whether a box is kept does not depend on its orientation: the box turned
/// on its side (axes swapped) is kept exactly when it is.
pub proof fn lemma_box_kept_transposed(x0: u32, y0: u32, x1: u32, y1: u32)
    ensures
        box_kept(x0, y0, x1, y1) == box_kept(y0, x0, y1, x1),
{
}

/// A box that contains a kept box is kept too.
pub proof fn lemma_box_kept_grows(
    x0: u32,
    y0: u32,
    x1: u32,
    y1: u32,
    a0: u32,
    b0: u32,
    a1: u32,
    b1: u32,
)
    requires
        box_kept(x0, y0, x1, y1),
        x0 <= x1,
        y0 <= y1,
        a0 <= x0,
        b0 <= y0,
        x1 <= a1,
        y1 <= b1,
    ensures
        box_kept(a0, b0, a1, b1),
{
}

/// Whether `w` is the word made of a box drawn from `(x0, y0)` to `(x1, y1)`:
/// text `?`, confidence 0, unlabeled, no list position.
pub open spec fn is_drawn_word(w: WordAnnotation, x0: u32, y0: u32, x1: u32, y1: u32) -> bool {
    &&& w.bbox@ == seq![x0, y0, x1, y1]
    &&& w.text@ == "?"@
    &&& w.confidence_bits == 0
    &&& w.role == Role::Unlabeled
    &&& w.list_pos.is_none()
}

/// The word a box drawn from `(x0, y0)` to `(x1, y1)` becomes, if it is large
/// enough.
pub fn drawn_word(x0: u32, y0: u32, x1: u32, y1: u32) -> (r: Option<WordAnnotation>)
    requires
        x0 <= x1,
        y0 <= y1,
    ensures
        r.is_some() == box_kept(x0, y0, x1, y1),
        r.is_some() == (x1 - x0 > 5 && y1 - y0 > 5),
        r matches Some(w) ==> is_drawn_word(w, x0, y0, x1, y1),
{
    if x1 - x0 > 5 && y1 - y0 > 5 {
        let w = WordAnnotation {
            bbox: [x0, y0, x1, y1],
            text: "?".to_owned(),
            confidence_bits: 0,
            role: Role::Unlabeled,
            list_pos: None,
        };
        assert(w.bbox@ =~= seq![x0, y0, x1, y1]);
        Some(w)
    } else {
        None
    }
}

/// The file a page's annotation is saved to: `<page>.annot.json`.
pub fn annotation_file_name(page: &str) -> (r: String)
    ensures
        r@ == page@ + ".annot.json"@,
{
    let mut name = page.to_owned();
    name.append(".annot.json");
    name
}

/// `s` with every occurrence of `pat` taken out, from left to right, as
/// `str::replace(pat, "")` leaves it.
pub open spec fn remove_all(s: Seq<char>, pat: Seq<char>) -> Seq<char>
    decreases s.len(),
{
    if pat.len() == 0 || s.len() < pat.len() {
        s
    } else if s.take(pat.len() as int) == pat {
        remove_all(s.skip(pat.len() as int), pat)
    } else {
        seq![s[0]] + remove_all(s.skip(1), pat)
    }
}

/// Whether `s` begins with `pat`.
pub open spec fn starts_with(s: Seq<char>, pat: Seq<char>) -> bool {
    s.len() >= pat.len() && s.take(pat.len() as int) == pat
}

/// Whether `pat` occurs anywhere in `s`.
pub open spec fn occurs_in(pat: Seq<char>, s: Seq<char>) -> bool {
    exists|i: int| 0 <= i && i + pat.len() <= s.len() && #[trigger] s.subrange(i, i + pat.len()) == pat
}

/// An occurrence of the pattern at the front is taken out, whatever follows it
/// and however long the text.
pub proof fn lemma_remove_all_leading(pat: Seq<char>, rest: Seq<char>)
    requires
        pat.len() > 0,
    ensures
        remove_all(pat + rest, pat) == remove_all(rest, pat),
{
    assert((pat + rest).take(pat.len() as int) =~= pat);
    assert((pat + rest).skip(pat.len() as int) =~= rest);
}

/// A character that does not start an occurrence of the pattern is kept, in
/// front of what the rest becomes.
pub proof fn lemma_remove_all_keeps_char(c: char, rest: Seq<char>, pat: Seq<char>)
    requires
        pat.len() > 0,
        !starts_with(seq![c] + rest, pat),
    ensures
        remove_all(seq![c] + rest, pat) == seq![c] + remove_all(rest, pat),
{
    let s = seq![c] + rest;
    assert(s.skip(1) =~= rest);
    assert(s[0] == c);
    if s.len() < pat.len() {
        assert(s =~= seq![c] + rest);
    }
}

/// Text in which the pattern does not occur is left as it is.
pub proof fn lemma_remove_all_absent(s: Seq<char>, pat: Seq<char>)
    requires
        pat.len() > 0,
        !occurs_in(pat, s),
    ensures
        remove_all(s, pat) == s,
    decreases s.len(),
{
    if s.len() >= pat.len() {
        assert(s.take(pat.len() as int) =~= s.subrange(0, pat.len() as int));
        assert(s.take(pat.len() as int) != pat) by {
            if s.take(pat.len() as int) == pat {
                assert(s.subrange(0int, 0int + pat.len()) == pat);
            }
        }
        let rest = s.skip(1);
        assert(!occurs_in(pat, rest)) by {
            if occurs_in(pat, rest) {
                let i = choose|i: int|
                    0 <= i && i + pat.len() <= rest.len() && #[trigger] rest.subrange(i, i + pat.len()) == pat;
                assert(s.subrange(i + 1, i + 1 + pat.len()) =~= rest.subrange(i, i + pat.len()));
            }
        }
        lemma_remove_all_absent(rest, pat);
        assert(seq![s[0]] + rest =~= s);
    }
}

/// A name without any `.`, followed by `.png`, loses just that `.png`,
/// however long it is.
pub proof fn lemma_png_suffix_removed(name: Seq<char>)
    requires
        !name.contains('.'),
    ensures
        remove_all(name + ".png"@, ".png"@) == name,
    decreases name.len(),
{
    reveal_strlit(".png");
    let pat = ".png"@;
    assert(pat[0] == '.');
    if name.len() == 0 {
        assert(name + pat =~= pat + Seq::<char>::empty());
        lemma_remove_all_leading(pat, Seq::empty());
        assert(remove_all(Seq::<char>::empty(), pat) =~= name);
    } else {
        let rest = name.skip(1);
        assert(!rest.contains('.')) by {
            if rest.contains('.') {
                let i = choose|i: int| 0 <= i < rest.len() && rest[i] == '.';
                assert(name[i + 1] == '.');
            }
        }
        assert(name + pat =~= seq![name[0]] + (rest + pat));
        assert(name[0] != '.') by {
            assert(name.contains(name[0]));
        }
        assert(!starts_with(name + pat, pat)) by {
            if starts_with(name + pat, pat) {
                assert((name + pat).take(4)[0] == (name + pat)[0]);
            }
        }
        lemma_remove_all_keeps_char(name[0], rest + pat, pat);
        lemma_png_suffix_removed(rest);
        assert(seq![name[0]] + rest =~= name);
    }
}

/// The file a page's thumbnail is cached in: the page name with every `.png`
/// taken out, then `_thumb.png`.
#[verifier::spinoff_prover]
pub fn thumbnail_file_name(page: &str) -> (r: String)
    ensures
        r@ == remove_all(page@, ".png"@) + "_thumb.png"@,
{
    proof {
        reveal_strlit(".png");
    }
    let ghost s = page@;
    let ghost pat = ".png"@;
    assert(pat =~= seq!['.', 'p', 'n', 'g']);
    let n: usize = page.unicode_len();
    let mut out = String::new();
    let mut seg: usize = 0;
    let mut i: usize = 0;
    assert(s.skip(0) =~= s);
    assert(s.subrange(0, 0) =~= Seq::<char>::empty());
    while i < n && n - i >= 4
        invariant
            n == s.len(),
            s == page@,
            pat == ".png"@,
            pat == seq!['.', 'p', 'n', 'g'],
            seg <= i <= n,
            remove_all(s, pat) == out@ + s.subrange(seg as int, i as int) + remove_all(
                s.skip(i as int),
                pat,
            ),
        decreases n - i,
    {
        let ghost rest = s.skip(i as int);
        let is_match = page.get_char(i) == '.' && page.get_char(i + 1) == 'p' && page.get_char(i + 2)
            == 'n' && page.get_char(i + 3) == 'g';
        if is_match {
            assert(rest.take(4) =~= seq!['.', 'p', 'n', 'g']);
            assert(rest.skip(4) =~= s.skip(i + 4));
            out.append(page.substring_char(seg, i));
            i = i + 4;
            seg = i;
            assert(s.subrange(seg as int, i as int) =~= Seq::<char>::empty());
        } else {
            assert(rest.take(4) != pat) by {
                if rest.take(4) == pat {
                    assert(rest.take(4)[0] == pat[0]);
                    assert(rest.take(4)[1] == pat[1]);
                    assert(rest.take(4)[2] == pat[2]);
                    assert(rest.take(4)[3] == pat[3]);
                }
            }
            assert(rest.skip(1) =~= s.skip(i + 1));
            assert(s.subrange(seg as int, i + 1) =~= s.subrange(seg as int, i as int) + seq![
                s[i as int],
            ]);
            i = i + 1;
        }
    }
    assert(s.skip(i as int) =~= s.subrange(i as int, n as int));
    out.append(page.substring_char(seg, n));
    assert(s.subrange(seg as int, i as int) + s.subrange(i as int, n as int) =~= s.subrange(
        seg as int,
        n as int,
    ));
    out.append("_thumb.png");
    out
}

/// An extension never holds a `.`: it is the text after the last one.
pub proof fn lemma_extension_has_no_dot(path: Seq<char>)
    ensures
        path_extension(path) matches Some(ext) ==> !ext.contains('.'),
{
    if let Some(name) = path_file_name(path) {
        if last_dot(name) > 0 {
            lemma_last_dot_range(name);
            let ext = name.skip(last_dot(name) + 1);
            assert forall|i: int| 0 <= i < ext.len() implies ext[i] != '.' by {
                lemma_after_last_dot(name, last_dot(name) + 1 + i);
            }
        }
    }
}

/// Whether a path names a saved page annotation: its extension is
/// `annot.json`. An extension holds no `.`, so no path passes this test, not
/// even `page.png.annot.json`, whose extension is `json`.
pub fn is_annotation_file(path: &str) -> (r: bool)
    ensures
        r == (path_extension(path@) == Some("annot.json"@)),
        !r,
{
    proof {
        lemma_extension_has_no_dot(path@);
        reveal_strlit("annot.json");
        assert("annot.json"@[5] == '.');
    }
    match extension(path) {
        Some(ext) => ext == "annot.json".to_owned(),
        None => false,
    }
}

} // verus!
