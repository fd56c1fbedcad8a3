//! Which files are images, and which folders a scan skips.

use vstd::prelude::*;

use crate::paths::{extension_of, path_extension};
use crate::text::{has_prefix, lower, starts_with, str_eq, to_ascii_lower, views};

verus! {

/// Extensions the image viewer can typically display: lower case, no dot.
pub open spec fn image_extensions() -> Seq<Seq<char>> {
    seq![
        "jpg"@,
        "jpeg"@,
        "jpe"@,
        "png"@,
        "bmp"@,
        "gif"@,
        "tif"@,
        "tiff"@,
        "webp"@,
        "ppm"@,
        "pgm"@,
        "pbm"@,
        "pnm"@,
        "xbm"@,
        "xpm"@,
        "ico"@,
    ]
}

/// The image extensions, in the order of `image_extensions`.
pub fn image_extension_list() -> (r: Vec<&'static str>)
    ensures
        r@.map_values(|s: &str| s@) == image_extensions(),
{
    let r = vec![
        "jpg",
        "jpeg",
        "jpe",
        "png",
        "bmp",
        "gif",
        "tif",
        "tiff",
        "webp",
        "ppm",
        "pgm",
        "pbm",
        "pnm",
        "xbm",
        "xpm",
        "ico",
    ];
    assert(r@.map_values(|s: &str| s@) =~= image_extensions());
    r
}

/// A path is an image when its extension, lower-cased, is an image
/// extension.
pub open spec fn is_image_path(p: Seq<char>) -> bool {
    match extension_of(p) {
        Some(e) => image_extensions().contains(lower(e)),
        None => false,
    }
}

/// Whether `path` names an image file, judged by its extension (any case).
pub fn is_image(path: &str) -> (r: bool)
    ensures
        r == is_image_path(path@),
{
    let ext = match path_extension(path) {
        Some(e) => to_ascii_lower(e.as_str()),
        None => return false,
    };
    let list = image_extension_list();
    assert(is_image_path(path@) == image_extensions().contains(ext@));
    let mut i: usize = 0;
    while i < list.len()
        invariant
            i <= list@.len(),
            is_image_path(path@) == image_extensions().contains(ext@),
            list@.map_values(|s: &str| s@) == image_extensions(),
            forall|q: int| 0 <= q < i ==> #[trigger] image_extensions()[q] != ext@,
        decreases list@.len() - i,
    {
        assert(list@.map_values(|s: &str| s@)[i as int] == list@[i as int]@);
        if str_eq(list[i], ext.as_str()) {
            assert(image_extensions()[i as int] == ext@);
            assert(image_extensions().contains(ext@));
            return true;
        }
        i = i + 1;
    }
    proof {
        if image_extensions().contains(ext@) {
            let q = choose|q: int| 0 <= q < image_extensions().len() && image_extensions()[q] == ext@;
            assert(image_extensions()[q] != ext@);
        }
    }
    false
}

/// A scan leaves out a folder (below the root) that is hidden or is one of
/// the excluded names.
pub open spec fn skips_folder(name: Seq<char>, exclude: Seq<Seq<char>>) -> bool {
    has_prefix(name, "."@) || exclude.contains(name)
}

/// Whether a scan leaves out the folder named `name` below the root: hidden
/// folders (starting with `.`) and the names in `exclude` (the bucket
/// folders).
pub fn skip_folder(name: &str, exclude: &[String]) -> (r: bool)
    ensures
        r == skips_folder(name@, views(exclude@)),
{
    if starts_with(name, ".") {
        return true;
    }
    let mut i: usize = 0;
    while i < exclude.len()
        invariant
            i <= exclude@.len(),
            forall|q: int| 0 <= q < i ==> #[trigger] exclude@[q]@ != name@,
        decreases exclude@.len() - i,
    {
        if str_eq(exclude[i].as_str(), name) {
            assert(views(exclude@)[i as int] == name@);
            return true;
        }
        i = i + 1;
    }
    proof {
        if views(exclude@).contains(name@) {
            let q = choose|q: int| 0 <= q < views(exclude@).len() && views(exclude@)[q] == name@;
            assert(exclude@[q]@ == name@);
        }
    }
    false
}

} // verus!
