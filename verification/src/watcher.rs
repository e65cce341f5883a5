//! Which files of a watched folder are screenshots.

use vstd::prelude::*;

use crate::paths::{
    extension, extension_of, file_name_of, law_file_name_is_behind_the_last_slash,
    law_name_is_stem_and_extension, name_chars, stem_of,
};
use crate::text::{chars_of, lower, same_chars, to_lower};

verus! {

/// The path has the extension of an image, in upper or lower case.
pub open spec fn names_screenshot(path: Seq<char>) -> bool {
    match file_name_of(path) {
        Some(name) => match extension_of(name) {
            Some(e) => lower(e) == "jpg"@ || lower(e) == "jpeg"@ || lower(e) == "png"@,
            None => false,
        },
        None => false,
    }
}

/// Whether a path, written with `/`, names a screenshot.
pub fn is_screenshot(path: &str) -> (r: bool)
    ensures
        r == names_screenshot(path@),
{
    match name_chars(path) {
        Some(name) => match extension(&name) {
            Some(e) => {
                let e = to_lower(&e);
                same_chars(&e, &chars_of("jpg")) || same_chars(&e, &chars_of("jpeg"))
                    || same_chars(&e, &chars_of("png"))
            },
            None => false,
        },
        None => false,
    }
}

/// A file is a screenshot exactly where its name has something in front of the extension
/// of a JPEG or PNG image, in upper or lower case, in whatever folder it is.
pub proof fn law_images_are_screenshots(dir: Seq<char>, stem: Seq<char>, extension: Seq<char>)
    requires
        stem.len() > 0,
        forall|i: int| 0 <= i < stem.len() ==> #[trigger] stem[i] != '/',
        forall|i: int|
            0 <= i < extension.len() ==> #[trigger] extension[i] != '/' && extension[i] != '.',
        extension.len() > 0,
    ensures
        names_screenshot(dir + seq!['/'] + (stem + seq!['.'] + extension)) <==> lower(extension)
            == "jpg"@ || lower(extension) == "jpeg"@ || lower(extension) == "png"@,
{
    let name = stem + seq!['.'] + extension;
    reveal_strlit(".");
    reveal_strlit("..");
    assert forall|i: int| 0 <= i < name.len() implies #[trigger] name[i] != '/' by {
        if i < stem.len() {
            assert(name[i] == stem[i]);
        } else if i > stem.len() {
            assert(name[i] == extension[i - stem.len() - 1]);
        }
    }
    assert(name.len() >= 3);
    law_file_name_is_behind_the_last_slash(dir, name);
    law_name_is_stem_and_extension(name);
    let at = stem.len() as int;
    assert(name[at] == '.');
    match extension_of(name) {
        Some(found) => {
            let k = stem_of(name).len() as int;
            assert(name[k] == '.');
            if k > at {
                assert(name[k] == extension[k - at - 1]);
            }
            if k < at {
                assert(name[at] == found[at - k - 1]);
            }
            assert(k == at);
            assert forall|i: int| 0 <= i < found.len() implies #[trigger] found[i]
                == extension[i] by {
                assert(name[at + 1 + i] == found[i]);
                assert(name[at + 1 + i] == extension[i]);
            }
            assert(found =~= extension);
        },
        None => {
            assert(name[at] != '.');
        },
    }
}

} // verus!
