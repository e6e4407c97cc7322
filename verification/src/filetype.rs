//! Classification of file names by extension, after ASCII case folding.
use vstd::prelude::*;
use vstd::string::*;

use crate::strutil::{spec_ends_with, spec_lower_char, lower_char, str_ends_with};

verus! {

/// The name folded to ASCII lower case, as extension matching sees it.
pub open spec fn spec_folded(name: Seq<char>) -> Seq<char> {
    name.map_values(|c: char| spec_lower_char(c))
}

pub open spec fn spec_is_image_name(l: Seq<char>) -> bool {
    ||| spec_ends_with(l, ".jpg"@)
    ||| spec_ends_with(l, ".jpeg"@)
    ||| spec_ends_with(l, ".png"@)
    ||| spec_ends_with(l, ".gif"@)
    ||| spec_ends_with(l, ".bmp"@)
    ||| spec_ends_with(l, ".webp"@)
    ||| spec_ends_with(l, ".svg"@)
}

pub open spec fn spec_is_video_name(l: Seq<char>) -> bool {
    ||| spec_ends_with(l, ".mp4"@)
    ||| spec_ends_with(l, ".webm"@)
    ||| spec_ends_with(l, ".ogg"@)
    ||| spec_ends_with(l, ".mov"@)
}

pub open spec fn spec_is_text_name(l: Seq<char>) -> bool {
    ||| spec_ends_with(l, ".txt"@)
    ||| spec_ends_with(l, ".html"@)
    ||| spec_ends_with(l, ".css"@)
    ||| spec_ends_with(l, ".js"@)
    ||| spec_ends_with(l, ".json"@)
    ||| spec_ends_with(l, ".xml"@)
    ||| spec_ends_with(l, ".md"@)
    ||| spec_ends_with(l, ".csv"@)
    ||| spec_ends_with(l, ".log"@)
    ||| spec_ends_with(l, ".rs"@)
    ||| spec_ends_with(l, ".py"@)
}

/// Whether a browser can render the file inline rather than download it.
pub open spec fn spec_is_viewable_file(name: Seq<char>) -> bool {
    let l = spec_folded(name);
    spec_is_image_name(l) || spec_is_video_name(l) || spec_is_text_name(l) || spec_ends_with(
        l,
        ".pdf"@,
    )
}

/// Folds a name to ASCII lower case.
pub fn fold_name(name: &str) -> (r: String)
    ensures
        r@ == spec_folded(name@),
{
    let len = name.unicode_len();
    let mut out = String::new();
    let mut i: usize = 0;
    while i < len
        invariant
            len == name@.len(),
            0 <= i <= len,
            out@ == spec_folded(name@).take(i as int),
        decreases len - i,
    {
        proof {
            assert(spec_folded(name@).take(i as int).push(spec_folded(name@)[i as int])
                =~= spec_folded(name@).take(i + 1));
        }
        out.push(lower_char(name.get_char(i)));
        i = i + 1;
    }
    proof {
        assert(spec_folded(name@).take(len as int) =~= spec_folded(name@));
    }
    out
}

/// Decides whether the file can be viewed inline in a browser.
pub fn is_viewable_file(filename: &str) -> (r: bool)
    ensures
        r == spec_is_viewable_file(filename@),
{
    let lower = fold_name(filename);
    let l = lower.as_str();
    str_ends_with(l, ".jpg") || str_ends_with(l, ".jpeg") || str_ends_with(l, ".png")
        || str_ends_with(l, ".gif") || str_ends_with(l, ".bmp") || str_ends_with(l, ".webp")
        || str_ends_with(l, ".svg") || str_ends_with(l, ".mp4") || str_ends_with(l, ".webm")
        || str_ends_with(l, ".ogg") || str_ends_with(l, ".mov") || str_ends_with(l, ".txt")
        || str_ends_with(l, ".html") || str_ends_with(l, ".css") || str_ends_with(l, ".js")
        || str_ends_with(l, ".json") || str_ends_with(l, ".xml") || str_ends_with(l, ".md")
        || str_ends_with(l, ".csv") || str_ends_with(l, ".pdf") || str_ends_with(l, ".log")
        || str_ends_with(l, ".rs") || str_ends_with(l, ".py")
}

/// The style class attached to an entry in a directory listing.
pub open spec fn spec_get_file_type_class(name: Seq<char>) -> Seq<char> {
    let l = spec_folded(name);
    if spec_is_image_name(l) {
        "image-file"@
    } else if spec_is_video_name(l) {
        "video-file"@
    } else if spec_is_text_name(l) {
        "text-file"@
    } else if spec_ends_with(l, ".pdf"@) {
        "pdf-file"@
    } else {
        ""@
    }
}

/// Picks the listing style class for a file name.
pub fn get_file_type_class(filename: &str) -> (r: &'static str)
    ensures
        r@ == spec_get_file_type_class(filename@),
{
    let lower = fold_name(filename);
    let l = lower.as_str();
    if str_ends_with(l, ".jpg") || str_ends_with(l, ".jpeg") || str_ends_with(l, ".png")
        || str_ends_with(l, ".gif") || str_ends_with(l, ".bmp") || str_ends_with(l, ".webp")
        || str_ends_with(l, ".svg") {
        "image-file"
    } else if str_ends_with(l, ".mp4") || str_ends_with(l, ".webm") || str_ends_with(l, ".ogg")
        || str_ends_with(l, ".mov") {
        "video-file"
    } else if str_ends_with(l, ".txt") || str_ends_with(l, ".html") || str_ends_with(l, ".css")
        || str_ends_with(l, ".js") || str_ends_with(l, ".json") || str_ends_with(l, ".xml")
        || str_ends_with(l, ".md") || str_ends_with(l, ".csv") || str_ends_with(l, ".log")
        || str_ends_with(l, ".rs") || str_ends_with(l, ".py") {
        "text-file"
    } else if str_ends_with(l, ".pdf") {
        "pdf-file"
    } else {
        ""
    }
}

} // verus!
