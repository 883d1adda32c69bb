//! Naming the output of the annotation command.

use vstd::prelude::*;
use vstd::string::StringExecFns;

use crate::stdlib::{file_stem, path_file_stem};

verus! {

/// The stem of an input path, or empty where it has none.
pub open spec fn stem_or_empty(path: Seq<char>) -> Seq<char> {
    match path_file_stem(path) {
        Some(stem) => stem,
        None => Seq::empty(),
    }
}

/// The file the annotation of the page image at `input` is written to when no
/// output is given: `<input-stem>_annot.json`, in the working directory.
pub fn default_output_file(input: &str) -> (r: String)
    ensures
        r@ == stem_or_empty(input@) + "_annot.json"@,
{
    let mut name = match file_stem(input) {
        Some(stem) => stem,
        None => String::new(),
    };
    name.append("_annot.json");
    name
}

} // verus!
