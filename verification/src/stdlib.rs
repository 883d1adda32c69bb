//! Calls into std whose results the library takes on trust.
//!
//! Each function here makes one std call; its contract is believed, not
//! proved. Where std documents the result in a few lines (a file name's
//! extension and stem), the contract states it; the rest (which component of
//! a path is its file name, and how invalid UTF-8 is replaced) is named by an
//! uninterpreted spec function: a fixed function of the input, for the target
//! the crate is built for, too long to restate here.

use vstd::prelude::*;
use vstd::utf8::*;

verus! {

/// The final component of a path, as `std::path::Path::file_name` computes it
/// (`None` where the path has no final component, for example where it ends
/// in `..`).
pub uninterp spec fn path_file_name(path: Seq<char>) -> Option<Seq<char>>;

/// The position of the last `.` in a file name; -1 where it has none.
pub open spec fn last_dot(name: Seq<char>) -> int
    decreases name.len(),
{
    if name.len() == 0 {
        -1
    } else if name.last() == '.' {
        name.len() - 1
    } else {
        last_dot(name.drop_last())
    }
}

/// The extension of a file name, as std documents it: none where the name has
/// no `.` or its only `.` leads it, else the text after the last `.`.
pub open spec fn name_extension(name: Seq<char>) -> Option<Seq<char>> {
    if last_dot(name) > 0 {
        Some(name.skip(last_dot(name) + 1))
    } else {
        None
    }
}

/// The stem of a file name, as std documents it: the whole name where it has
/// no `.` or its only `.` leads it, else the text before the last `.`.
pub open spec fn name_stem(name: Seq<char>) -> Seq<char> {
    if last_dot(name) > 0 {
        name.take(last_dot(name))
    } else {
        name
    }
}

/// The extension of a path: that of its file name, none without one.
pub open spec fn path_extension(path: Seq<char>) -> Option<Seq<char>> {
    match path_file_name(path) {
        Some(name) => name_extension(name),
        None => None,
    }
}

/// The file stem of a path: that of its file name, none without one.
pub open spec fn path_file_stem(path: Seq<char>) -> Option<Seq<char>> {
    match path_file_name(path) {
        Some(name) => Some(name_stem(name)),
        None => None,
    }
}

/// The last `.` of a name lies within it.
pub proof fn lemma_last_dot_range(name: Seq<char>)
    ensures
        -1 <= last_dot(name) < name.len(),
    decreases name.len(),
{
    if name.len() > 0 && name.last() != '.' {
        lemma_last_dot_range(name.drop_last());
    }
}

/// No character after the last `.` of a name is a `.`.
pub proof fn lemma_after_last_dot(name: Seq<char>, j: int)
    requires
        last_dot(name) < j < name.len(),
    ensures
        name[j] != '.',
    decreases name.len(),
{
    lemma_last_dot_range(name);
    if name.last() != '.' {
        if j < name.len() - 1 {
            lemma_after_last_dot(name.drop_last(), j);
            assert(name.drop_last()[j] == name[j]);
        } else {
            assert(name[j] == name.last());
        }
    }
}

/// The text that `String::from_utf8_lossy` decodes from `bytes`, every invalid
/// sequence replaced by U+FFFD.
pub uninterp spec fn utf8_lossy(bytes: Seq<u8>) -> Seq<char>;

/// The characters of an optional string.
pub open spec fn opt_chars(o: Option<String>) -> Option<Seq<char>> {
    match o {
        Some(s) => Some(s@),
        None => None,
    }
}

/// The last `.` of a name is a `.`; a name without `.` has none.
pub proof fn lemma_last_dot_is_dot(name: Seq<char>)
    ensures
        last_dot(name) >= 0 ==> name[last_dot(name)] == '.',
        !name.contains('.') ==> last_dot(name) == -1,
    decreases name.len(),
{
    if name.len() > 0 {
        if name.last() != '.' {
            lemma_last_dot_is_dot(name.drop_last());
            lemma_last_dot_range(name.drop_last());
            if last_dot(name) >= 0 {
                assert(name.drop_last()[last_dot(name)] == name[last_dot(name)]);
            }
            if !name.contains('.') {
                assert(!name.drop_last().contains('.')) by {
                    if name.drop_last().contains('.') {
                        let i = choose|i: int| 0 <= i < name.drop_last().len() && name.drop_last()[i] == '.';
                        assert(name[i] == '.');
                    }
                }
            }
        } else {
            assert(name.contains(name[name.len() - 1]));
        }
    }
}

/// A file name is its stem, a `.` and its extension, where it has one; the
/// extension holds no `.` and the stem is not empty. Without extension, the
/// stem is the whole name; a name without `.` has no extension.
pub proof fn lemma_stem_and_extension(name: Seq<char>)
    ensures
        name_extension(name) matches Some(ext) ==> {
            &&& name_stem(name) + seq!['.'] + ext == name
            &&& !ext.contains('.')
            &&& name_stem(name).len() > 0
        },
        name_extension(name) is None ==> name_stem(name) == name,
        !name.contains('.') ==> name_extension(name) is None,
{
    lemma_last_dot_range(name);
    lemma_last_dot_is_dot(name);
    let d = last_dot(name);
    if d > 0 {
        let ext = name.skip(d + 1);
        assert(name.take(d) + seq!['.'] + ext =~= name);
        assert(!ext.contains('.')) by {
            if ext.contains('.') {
                let i = choose|i: int| 0 <= i < ext.len() && ext[i] == '.';
                lemma_after_last_dot(name, d + 1 + i);
            }
        }
    }
}

/// Calls `std::path::Path::file_name` on `path`. Claimed: the result is
/// `path_file_name` of the path; the `OsStr` it returns is a piece of a `&str`,
/// so converting it to a `String` loses nothing.
#[verifier::external_body]
pub(crate) fn file_name(path: &str) -> (r: Option<String>)
    ensures
        opt_chars(r) == path_file_name(path@),
{
    match std::path::Path::new(path).file_name() {
        Some(name) => Some(name.to_string_lossy().into_owned()),
        None => None,
    }
}

/// Calls `std::path::Path::extension` on `path`. Claimed, as std documents
/// it: the result is the extension of the path's file name (`path_extension`),
/// converted to a `String` without loss.
#[verifier::external_body]
pub(crate) fn extension(path: &str) -> (r: Option<String>)
    ensures
        opt_chars(r) == path_extension(path@),
{
    match std::path::Path::new(path).extension() {
        Some(ext) => Some(ext.to_string_lossy().into_owned()),
        None => None,
    }
}

/// Calls `std::path::Path::file_stem` on `path`. Claimed, as std documents
/// it: the result is the stem of the path's file name (`path_file_stem`),
/// converted to a `String` without loss.
#[verifier::external_body]
pub(crate) fn file_stem(path: &str) -> (r: Option<String>)
    ensures
        opt_chars(r) == path_file_stem(path@),
{
    match std::path::Path::new(path).file_stem() {
        Some(stem) => Some(stem.to_string_lossy().into_owned()),
        None => None,
    }
}

/// Calls `String::from_utf8_lossy` on `bytes`. Claimed: the result is
/// `utf8_lossy` of the bytes, and, as std documents, bytes that are valid
/// UTF-8 decode to exactly the text they encode.
#[verifier::external_body]
pub(crate) fn decode_lossy(bytes: &[u8]) -> (r: String)
    ensures
        r@ == utf8_lossy(bytes@),
        valid_utf8(bytes@) ==> r@ == decode_utf8(bytes@),
{
    String::from_utf8_lossy(bytes).into_owned()
}

} // verus!
