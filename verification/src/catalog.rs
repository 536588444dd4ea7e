//! The item catalog: browsable entries with a stable path identity, a
//! derived display name, and a lazily supplied raw image; plus the pure
//! parts of catalog discovery (image-extension test, name sort) and of
//! installing and locating files by well-known paths.

use vstd::prelude::*;
use vstd::string::StrSliceExecFns;
use vstd::string::StringExecFns;
use vstd::seq_lib::group_seq_properties;
use image::DynamicImage;
use crate::text::{
    spec_file_name, spec_file_stem, spec_extension, seq_ascii_lower, lex_le, file_name,
    file_stem_of_name, extension_of_name, matches_lower, lemma_lex_le_total, lemma_lex_le_trans,
};

verus! {

broadcast use vstd::seq_lib::group_to_multiset_ensures;

/// One browsable entry. The path is its immutable identity; the display
/// name is derived from it once; the raw image is filled in lazily by the
/// caller and never read by the library.
pub struct Wallpaper {
    pub path: String,
    pub name: String,
    pub thumbnail: Option<DynamicImage>,
}

/// Display name of an entry: the stem of the path's file name, or a fixed
/// placeholder when the path has no file name.
pub open spec fn spec_display_name(p: Seq<char>) -> Seq<char> {
    let fname = spec_file_name(p);
    if fname.len() == 0 {
        "unknown"@
    } else {
        spec_file_stem(fname)
    }
}

impl Wallpaper {
    pub fn new(path: String) -> (w: Wallpaper)
        ensures
            w.path == path,
            w.name@ == spec_display_name(path@),
            w.thumbnail is None,
    {
        let fname = file_name(path.as_str());
        let name = if fname.unicode_len() == 0 {
            "unknown".to_owned()
        } else {
            file_stem_of_name(fname.as_str())
        };
        Wallpaper { path, name, thumbnail: None }
    }
}

/// The path names an image file: its extension is one of the supported
/// formats, compared ASCII case-insensitively.
pub open spec fn spec_is_image(p: Seq<char>) -> bool {
    match spec_extension(spec_file_name(p)) {
        Some(e) => {
            let le = seq_ascii_lower(e);
            le == "jpg"@ || le == "jpeg"@ || le == "png"@ || le == "gif"@ || le == "webp"@ || le
                == "bmp"@
        },
        None => false,
    }
}

pub fn is_image(path: &str) -> (r: bool)
    ensures
        r == spec_is_image(path@),
{
    let fname = file_name(path);
    match extension_of_name(fname.as_str()) {
        Some(ext) => matches_lower(ext, "jpg") || matches_lower(ext, "jpeg") || matches_lower(
            ext,
            "png",
        ) || matches_lower(ext, "gif") || matches_lower(ext, "webp") || matches_lower(ext, "bmp"),
        None => false,
    }
}

/// The filter predicate of catalog discovery, as one named value.
pub open spec fn is_image_pred() -> spec_fn(String) -> bool {
    |p: String| spec_is_image(p@)
}

pub open spec fn paths_of(s: Seq<Wallpaper>) -> Seq<String> {
    s.map_values(|w: Wallpaper| w.path)
}

/// Every entry is well formed: name derived from the path, no image loaded.
pub open spec fn entries_fresh(s: Seq<Wallpaper>) -> bool {
    forall|i: int|
        0 <= i < s.len() ==> (#[trigger] s[i]).name@ == spec_display_name(s[i].path@) && s[i].thumbnail
            is None
}

pub open spec fn sorted_by_name(s: Seq<Wallpaper>) -> bool {
    forall|i: int, j: int| 0 <= i < j < s.len() ==> lex_le(#[trigger] s[i].name@, #[trigger] s[j].name@)
}

/// Sorts the catalog by display name (insertion sort); a permutation that
/// keeps every entry intact.
pub fn sort_by_name(v: &mut Vec<Wallpaper>)
    ensures
        final(v)@.to_multiset() == old(v)@.to_multiset(),
        final(v)@.len() == old(v)@.len(),
        sorted_by_name(final(v)@),
        entries_fresh(old(v)@) ==> entries_fresh(final(v)@),
{
    let ghost orig = v@;
    let mut i: usize = 1;
    if v.len() < 2 {
        proof {
            assert(v@.to_multiset() =~= orig.to_multiset());
        }
        return ;
    }
    while i < v.len()
        invariant
            1 <= i <= v@.len(),
            v@.len() == orig.len(),
            v@.to_multiset() == orig.to_multiset(),
            forall|a: int, b: int|
                0 <= a < b < i ==> lex_le(#[trigger] v@[a].name@, #[trigger] v@[b].name@),
            entries_fresh(orig) ==> entries_fresh(v@),
        decreases v@.len() - i,
    {
        let mut j: usize = i;
        while j > 0 && !str_le_names(v, j - 1, i)
            invariant
                0 <= j <= i < v@.len(),
                forall|a: int, b: int|
                    0 <= a < b < i ==> lex_le(#[trigger] v@[a].name@, #[trigger] v@[b].name@),
                forall|k: int| j <= k < i ==> lex_le(v@[i as int].name@, #[trigger] v@[k].name@),
            decreases j,
        {
            proof {
                lemma_lex_le_total(v@[j - 1].name@, v@[i as int].name@);
            }
            j -= 1;
        }
        let ghost before = v@;
        let moved = v.remove(i);
        v.insert(j, moved);
        proof {
            let after = v@;
            assert(after =~= before.subrange(0, j as int).push(before[i as int]) + before.subrange(
                j as int,
                i as int,
            ) + before.subrange(i as int + 1, before.len() as int));
            // multiset: remove then insert of the same element
            assert(before.remove(i as int).insert(j as int, before[i as int]).to_multiset()
                =~= before.to_multiset());
            assert(after =~= before.remove(i as int).insert(j as int, before[i as int]));
            // the new prefix of length i + 1 is sorted
            assert forall|a: int, b: int| 0 <= a < b < i + 1 implies lex_le(
                #[trigger] after[a].name@,
                #[trigger] after[b].name@,
            ) by {
                if b < j {
                    assert(after[a] == before[a] && after[b] == before[b]);
                } else if b == j {
                    assert(after[b] == before[i as int]);
                    assert(a < j);
                    if a < j - 1 {
                        assert(lex_le(before[a].name@, before[j - 1].name@));
                        assert(lex_le(before[j - 1].name@, before[i as int].name@));
                        lemma_lex_le_trans(
                            before[a].name@,
                            before[j - 1].name@,
                            before[i as int].name@,
                        );
                    } else {
                        assert(lex_le(before[j - 1].name@, before[i as int].name@));
                    }
                } else {
                    // b > j: after[b] == before[b - 1]
                    assert(after[b] == before[b - 1]);
                    if a < j {
                        assert(after[a] == before[a]);
                        assert(a < b - 1 < i);
                        assert(lex_le(before[a].name@, before[b - 1].name@));
                    } else if a == j {
                        assert(after[a] == before[i as int]);
                        assert(j <= b - 1 < i);
                        assert(lex_le(before[i as int].name@, before[b - 1].name@));
                    } else {
                        assert(after[a] == before[a - 1]);
                        assert(j <= a - 1 < b - 1 < i);
                        assert(lex_le(before[a - 1].name@, before[b - 1].name@));
                    }
                }
            }
        }
        i += 1;
    }
}

/// Compares the display names at two positions; a helper for the sort.
fn str_le_names(v: &Vec<Wallpaper>, a: usize, b: usize) -> (r: bool)
    requires
        a < v@.len(),
        b < v@.len(),
    ensures
        r == lex_le(v@[a as int].name@, v@[b as int].name@),
{
    crate::text::str_le(v[a].name.as_str(), v[b].name.as_str())
}

/// Builds the catalog from candidate directory entries: keeps the image
/// files, derives each display name, and sorts by name.
pub fn build_catalog(paths: Vec<String>) -> (r: Vec<Wallpaper>)
    ensures
        paths_of(r@).to_multiset() == paths@.filter(is_image_pred()).to_multiset(),
        entries_fresh(r@),
        sorted_by_name(r@),
{
    broadcast use group_seq_properties;

    let ghost pred = is_image_pred();
    let mut kept: Vec<Wallpaper> = Vec::new();
    let mut i: usize = 0;
    while i < paths.len()
        invariant
            i <= paths@.len(),
            paths_of(kept@) == paths@.subrange(0, i as int).filter(is_image_pred()),
            entries_fresh(kept@),
        decreases paths@.len() - i,
    {
        let ghost prefix = paths@.subrange(0, i as int);
        let ghost next = paths@.subrange(0, i as int + 1);
        proof {
            reveal(Seq::filter);
            assert(next.drop_last() =~= prefix);
            assert(next.last() == paths@[i as int]);
        }
        let p = paths[i].clone();
        proof {
            assert(is_image_pred()(paths@[i as int]) == spec_is_image(p@));
        }
        if is_image(p.as_str()) {
            let w = Wallpaper::new(p);
            kept.push(w);
            proof {
                reveal(Seq::filter);
                assert(next.filter(is_image_pred()) == prefix.filter(is_image_pred()).push(
                    paths@[i as int],
                ));
                assert(paths_of(kept@) =~= next.filter(is_image_pred()));
            }
        } else {
            proof {
                reveal(Seq::filter);
                assert(next.filter(is_image_pred()) == prefix.filter(is_image_pred()));
                assert(paths_of(kept@) =~= next.filter(is_image_pred()));
            }
        }
        i += 1;
    }
    proof {
        assert(paths@.subrange(0, paths@.len() as int) =~= paths@);
    }
    let ghost kept_snapshot = kept@;
    sort_by_name(&mut kept);
    proof {
        lemma_paths_multiset_permutation(kept_snapshot, kept@);
    }
    kept
}

/// A permutation of entries is a permutation of their paths.
proof fn lemma_paths_multiset_permutation(a: Seq<Wallpaper>, b: Seq<Wallpaper>)
    requires
        a.to_multiset() == b.to_multiset(),
    ensures
        paths_of(a).to_multiset() == paths_of(b).to_multiset(),
    decreases a.len(),
{
    if a.len() > 0 {
        let x = a[0];
        assert(a.to_multiset().count(x) > 0);
        assert(b.to_multiset().count(x) > 0);
        assert(b.contains(x));
        let k = choose|k: int| 0 <= k < b.len() && b[k] == x;
        let a1 = a.remove(0);
        let b1 = b.remove(k);
        assert(a1.to_multiset() =~= a.to_multiset().remove(x));
        assert(b1.to_multiset() =~= b.to_multiset().remove(x));
        lemma_paths_multiset_permutation(a1, b1);
        assert(paths_of(a1) =~= paths_of(a).remove(0));
        assert(paths_of(b1) =~= paths_of(b).remove(k));
        assert(paths_of(a).to_multiset() =~= paths_of(a1).to_multiset().insert(x.path));
        assert(paths_of(b).to_multiset() =~= paths_of(b1).to_multiset().insert(x.path));
    } else {
        assert(b.len() == b.to_multiset().len());
        assert(paths_of(a) =~= Seq::<String>::empty());
        assert(paths_of(b) =~= Seq::<String>::empty());
    }
}


/// Joined path of the theme's backgrounds directory under a home directory.
pub fn get_backgrounds_dir(home: &str) -> (r: String)
    ensures
        r@ == home@ + "/.config/omarchy/current/theme/backgrounds"@,
{
    home.to_owned().concat("/.config/omarchy/current/theme/backgrounds")
}

/// Joined path of the current-background pointer under a home directory.
pub fn get_current_background_path(home: &str) -> (r: String)
    ensures
        r@ == home@ + "/.config/omarchy/current/background"@,
{
    home.to_owned().concat("/.config/omarchy/current/background")
}

/// Where an install drops a wallpaper: its file name inside the backgrounds
/// directory; nothing to install when the path has no file name.
pub fn install_dest(dir: &str, wallpaper_path: &str) -> (r: Option<String>)
    ensures
        match r {
            Some(d) => spec_file_name(wallpaper_path@).len() > 0 && d@ == dir@ + "/"@
                + spec_file_name(wallpaper_path@),
            None => spec_file_name(wallpaper_path@).len() == 0,
        },
{
    let fname = file_name(wallpaper_path);
    if fname.unicode_len() == 0 {
        None
    } else {
        Some(dir.to_owned().concat("/").concat(fname.as_str()))
    }
}

/// The file URI of a path, the form the freedesktop thumbnail scheme hashes.
pub fn file_uri(path: &str) -> (r: String)
    ensures
        r@ == "file://"@ + path@,
{
    "file://".to_owned().concat(path)
}

/// The MD5 digest of a string as 32 lowercase hex digits: a function of the
/// characters alone.
pub uninterp spec fn md5_hex_of(s: Seq<char>) -> Seq<char>;

/// Relies on md5::compute: the digest is 16 bytes and depends on the data
/// alone; its LowerHex form writes two hex digits per byte, 32 in all.
#[verifier::external_body]
pub(crate) fn md5_hex(data: &str) -> (r: String)
    ensures
        r@ == md5_hex_of(data@),
        r@.len() == 32,
{
    format!("{:x}", md5::compute(data.as_bytes()))
}

/// File name of the freedesktop thumbnail of a URI: the hex digest of the
/// URI with a png suffix.
pub fn thumbnail_file_name(uri: &str) -> (r: String)
    ensures
        r@ == md5_hex_of(uri@) + ".png"@,
        r@.len() == 36,
{
    let r = md5_hex(uri).concat(".png");
    proof {
        reveal_strlit(".png");
    }
    r
}

} // verus!
