use vstd::prelude::*;
use crate::text::{chars_of, find_pat, spec_find, string_from_range, vec_sub};

verus! {

/// The identifier cut out of a link after the first occurrence of `start`,
/// up to the first occurrence of `end` (or the link's end).
pub open spec fn spec_id_between(link: Seq<char>, start: Seq<char>, end: Seq<char>) -> Option<
    Seq<char>,
> {
    match spec_find(link, start) {
        None => None,
        Some(p) => {
            let after = link.subrange(p + start.len(), link.len() as int);
            match spec_find(after, end) {
                Some(e) => Some(after.take(e)),
                None => Some(after),
            }
        },
    }
}

fn id_between(link: &[char], start: &[char], end: &[char]) -> (r: Option<String>)
    ensures
        match r {
            Some(id) => spec_id_between(link@, start@, end@) == Some(id@),
            None => spec_id_between(link@, start@, end@) is None,
        },
{
    let p = match find_pat(link, start) {
        Some(p) => p,
        None => {
            return None;
        },
    };
    let n = link.len();
    proof {
        assert(p + start@.len() <= n);
    }
    let after = vec_sub(link, p + start.len(), n);
    match find_pat(after.as_slice(), end) {
        Some(e) => {
            proof {
                assert(after@.take(e as int) =~= after@.subrange(0, e as int));
            }
            Some(string_from_range(after.as_slice(), 0, e))
        },
        None => Some(string_from_range(after.as_slice(), 0, after.len())),
    }
}

/// The file identifier a Google Drive file link carries: after `/file/d/` up
/// to the next `/`, or after an `id=` query parameter up to the next `&`.
pub open spec fn spec_extract_drive_file_id(link: Seq<char>) -> Option<Seq<char>> {
    match spec_id_between(link, "/file/d/"@, "/"@) {
        Some(id) => Some(id),
        None => match spec_id_between(link, "open?id="@, "&"@) {
            Some(id) => Some(id),
            None => spec_id_between(link, "uc?id="@, "&"@),
        },
    }
}

/// Extracts the file identifier from a Drive file link.
pub fn extract_drive_file_id(link: &str) -> (r: Option<String>)
    ensures
        match r {
            Some(id) => spec_extract_drive_file_id(link@) == Some(id@),
            None => spec_extract_drive_file_id(link@) is None,
        },
{
    let cs = chars_of(link);
    let l = cs.as_slice();
    if let Some(id) = id_between(l, chars_of("/file/d/").as_slice(), chars_of("/").as_slice()) {
        return Some(id);
    }
    if let Some(id) = id_between(l, chars_of("open?id=").as_slice(), chars_of("&").as_slice()) {
        return Some(id);
    }
    id_between(l, chars_of("uc?id=").as_slice(), chars_of("&").as_slice())
}

/// The folder identifier a Google Drive folder link carries: after
/// `/folders/` up to the next `?`, or after an `id=` query parameter up to
/// the next `&` or `#`.
pub open spec fn spec_extract_drive_folder_id(link: Seq<char>) -> Option<Seq<char>> {
    match spec_id_between(link, "/folders/"@, "?"@) {
        Some(id) => Some(id),
        None => match spec_id_between(link, "open?id="@, "&"@) {
            Some(id) => Some(id),
            None => spec_id_between(link, "open?id="@, "#"@),
        },
    }
}

/// Extracts the folder identifier from a Drive folder link.
pub fn extract_drive_folder_id(link: &str) -> (r: Option<String>)
    ensures
        match r {
            Some(id) => spec_extract_drive_folder_id(link@) == Some(id@),
            None => spec_extract_drive_folder_id(link@) is None,
        },
{
    let cs = chars_of(link);
    let l = cs.as_slice();
    if let Some(id) = id_between(l, chars_of("/folders/").as_slice(), chars_of("?").as_slice()) {
        return Some(id);
    }
    if let Some(id) = id_between(l, chars_of("open?id=").as_slice(), chars_of("&").as_slice()) {
        return Some(id);
    }
    id_between(l, chars_of("open?id=").as_slice(), chars_of("#").as_slice())
}

} // verus!
