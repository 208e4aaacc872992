//! Exporters: MOBI 6 file assembly and Markdown output helpers, and the
//! cover lookup they share.

pub mod mobi;
pub mod mobi_links;
pub mod mobi_records;
pub mod mobi_toc;
pub mod text;

use vstd::prelude::*;
use crate::export::mobi::{normalize_path, slash_then, slashes};
use crate::export::mobi_links::bytes_eq;
use crate::text::{ascii_bytes, file_name, lowercase, path_file_name, str_bytes, to_lowercase, utf8};
use crate::util::{ends_with, ends_with_bytes};

verus! {

/// Two normalized paths name the same file: they are equal, or one ends
/// with `/` followed by the other.
pub open spec fn paths_overlap(a: Seq<u8>, c: Seq<u8>) -> bool {
    a == c || ends_with(a, ascii_bytes("/"@) + c) || ends_with(c, ascii_bytes("/"@) + a)
}

/// The first asset at or after `i` whose normalized path overlaps `c`.
pub open spec fn first_overlap(assets: Seq<(Seq<u8>, Seq<u8>)>, c: Seq<u8>, i: int) -> Option<int>
    decreases assets.len() - i,
{
    if i < 0 || i >= assets.len() {
        None
    } else if paths_overlap(assets[i].0, c) {
        Some(i)
    } else {
        first_overlap(assets, c, i + 1)
    }
}

/// The first asset at or after `i` whose file name is `name`.
pub open spec fn first_same_name(assets: Seq<(Seq<u8>, Seq<u8>)>, name: Seq<u8>, i: int) -> Option<int>
    decreases assets.len() - i,
{
    if i < 0 || i >= assets.len() {
        None
    } else if assets[i].1 == name {
        Some(i)
    } else {
        first_same_name(assets, name, i + 1)
    }
}

/// The cover among assets given as (normalized path, lowercase file name):
/// none for an empty cover path; else the first asset whose path overlaps
/// the cover's; else, when the cover has a file name, the first asset with
/// the same file name.
pub open spec fn select_cover(cover_norm: Seq<u8>, cover_name: Seq<u8>, assets: Seq<(Seq<u8>, Seq<u8>)>) -> Option<int> {
    if cover_norm.len() == 0 {
        None
    } else {
        match first_overlap(assets, cover_norm, 0) {
            Some(i) => Some(i),
            None => if cover_name.len() > 0 {
                first_same_name(assets, cover_name, 0)
            } else {
                None
            },
        }
    }
}

/// A path with `\` turned into `/`, lowercased, as bytes.
pub open spec fn normalized(p: Seq<char>) -> Seq<u8> {
    utf8(lowercase(slashes(p)))
}

/// The lowercased file name of a path (empty when it has none), as bytes.
pub open spec fn lower_file_name(p: Seq<char>) -> Seq<u8> {
    utf8(lowercase(match path_file_name(p) {
        Some(n) => n,
        None => Seq::empty(),
    }))
}

/// Pick the cover among assets already reduced to (normalized path,
/// lowercase file name), as `select_cover` says.
pub fn select_cover_asset(cover_norm: &[u8], cover_name: &[u8], assets: &[(Vec<u8>, Vec<u8>)]) -> (r: Option<usize>)
    ensures
        (match r {
            Some(i) => Some(i as int),
            None => None,
        }) == select_cover(cover_norm@, cover_name@, assets@.map_values(|a: (Vec<u8>, Vec<u8>)| (a.0@, a.1@))),
{
    let ghost views = assets@.map_values(|a: (Vec<u8>, Vec<u8>)| (a.0@, a.1@));
    if cover_norm.len() == 0 {
        return None;
    }
    let with_slash = slash_then(cover_norm);
    let mut i: usize = 0;
    while i < assets.len()
        invariant
            i <= assets.len(),
            views == assets@.map_values(|a: (Vec<u8>, Vec<u8>)| (a.0@, a.1@)),
            with_slash@ == ascii_bytes("/"@) + cover_norm@,
            cover_norm@.len() > 0,
            first_overlap(views, cover_norm@, 0) == first_overlap(views, cover_norm@, i as int),
        decreases assets.len() - i,
    {
        let a = &assets[i].0;
        assert(views[i as int] == (a@, assets@[i as int].1@));
        if bytes_eq(a, cover_norm) || ends_with_bytes(a, &with_slash) || ends_with_bytes(
            cover_norm,
            &slash_then(a),
        ) {
            assert(paths_overlap(views[i as int].0, cover_norm@));
            assert(first_overlap(views, cover_norm@, i as int) == Some(i as int));
            return Some(i);
        }
        i = i + 1;
    }
    if cover_name.len() == 0 {
        return None;
    }
    let mut j: usize = 0;
    while j < assets.len()
        invariant
            j <= assets.len(),
            views == assets@.map_values(|a: (Vec<u8>, Vec<u8>)| (a.0@, a.1@)),
            first_same_name(views, cover_name@, 0) == first_same_name(views, cover_name@, j as int),
            cover_norm@.len() > 0,
            cover_name@.len() > 0,
            first_overlap(views, cover_norm@, 0) is None,
        decreases assets.len() - j,
    {
        assert(views[j as int] == (assets@[j as int].0@, assets@[j as int].1@));
        if bytes_eq(&assets[j].1, cover_name) {
            assert(first_same_name(views, cover_name@, j as int) == Some(j as int));
            return Some(j);
        }
        j = j + 1;
    }
    None
}

fn lower_file_name_of(p: &str) -> (r: Vec<u8>)
    ensures
        r@ == lower_file_name(p@),
{
    let name = match file_name(p) {
        Some(n) => n,
        None => String::new(),
    };
    let lower = to_lowercase(name.as_str());
    str_bytes(lower.as_str())
}

/// Resolve the cover image path from metadata against the available asset
/// paths: a direct or suffix match after normalizing separators and case,
/// else a match on the file name alone. Returns the index into
/// `asset_paths` of the cover, or `None`.
pub fn resolve_cover_asset(cover_image: Option<&str>, asset_paths: &[String]) -> (r: Option<usize>)
    ensures
        (match r {
            Some(i) => Some(i as int),
            None => None,
        }) == (match cover_image {
            None => None,
            Some(c) => select_cover(
                normalized(c@),
                lower_file_name(c@),
                asset_paths@.map_values(|a: String| (normalized(a@), lower_file_name(a@))),
            ),
        }),
{
    let cover = match cover_image {
        Some(c) => c,
        None => return None,
    };
    let cover_norm = normalize_path(cover);
    let cover_name = lower_file_name_of(cover);
    let mut assets: Vec<(Vec<u8>, Vec<u8>)> = Vec::new();
    let mut i: usize = 0;
    while i < asset_paths.len()
        invariant
            i <= asset_paths.len(),
            assets.len() == i,
            forall|k: int|
                0 <= k < i ==> #[trigger] assets@[k].0@ == normalized(asset_paths@[k]@)
                    && assets@[k].1@ == lower_file_name(asset_paths@[k]@),
        decreases asset_paths.len() - i,
    {
        let p = asset_paths[i].as_str();
        let n = normalize_path(p);
        let f = lower_file_name_of(p);
        let ghost before = assets@;
        assets.push((n, f));
        assert(assets@[i as int].0@ == normalized(asset_paths@[i as int]@));
        assert forall|k: int| 0 <= k < i implies #[trigger] assets@[k] == before[k] by {}
        i = i + 1;
    }
    assert(assets@.map_values(|a: (Vec<u8>, Vec<u8>)| (a.0@, a.1@)) =~= asset_paths@.map_values(
        |a: String| (normalized(a@), lower_file_name(a@)),
    ));
    select_cover_asset(&cover_norm, &cover_name, &assets)
}

} // verus!
