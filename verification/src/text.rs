//! Character-level text utilities: substring matching for the filter,
//! lexicographic ordering for the catalog sort, path-component extraction
//! for display names, and display-name truncation.

use vstd::prelude::*;
use vstd::string::StrSliceExecFns;
use vstd::string::StringExecFns;

verus! {

broadcast use vstd::seq_lib::group_to_multiset_ensures;

/// `s` holds `sub` as a contiguous run of characters.
pub open spec fn spec_contains(s: Seq<char>, sub: Seq<char>) -> bool {
    exists|i: int|
        0 <= i <= s.len() - sub.len() && #[trigger] s.subrange(i, i + sub.len() as int) == sub
}

/// The empty string is a substring of everything.
pub proof fn lemma_contains_empty(s: Seq<char>)
    ensures
        spec_contains(s, Seq::<char>::empty()),
{
    let sub = Seq::<char>::empty();
    assert(s.subrange(0, 0 + sub.len() as int) =~= sub);
}

/// The lowercase form of a string, as `str::to_lowercase` computes it:
/// a function of the characters alone.
pub uninterp spec fn lower_of(s: Seq<char>) -> Seq<char>;

/// Relies on str::to_lowercase: returns the lowercase equivalent of the
/// string, a value that depends only on its characters; an empty string
/// stays empty.
#[verifier::external_body]
pub(crate) fn lowercase(s: &str) -> (r: String)
    ensures
        r@ == lower_of(s@),
        s@.len() == 0 ==> r@.len() == 0,
{
    s.to_lowercase()
}

/// Relies on str::contains: true exactly when the pattern matches a
/// sub-slice of the string.
#[verifier::external_body]
pub(crate) fn str_contains(s: &str, sub: &str) -> (r: bool)
    ensures
        r == spec_contains(s@, sub@),
{
    s.contains(sub)
}

/// Lexicographic order on character sequences; total and transitive.
pub open spec fn lex_le(a: Seq<char>, b: Seq<char>) -> bool
    decreases a.len(),
{
    if a.len() == 0 {
        true
    } else if b.len() == 0 {
        false
    } else if a[0] != b[0] {
        a[0] < b[0]
    } else {
        lex_le(a.drop_first(), b.drop_first())
    }
}

pub proof fn lemma_lex_le_total(a: Seq<char>, b: Seq<char>)
    ensures
        lex_le(a, b) || lex_le(b, a),
    decreases a.len(),
{
    if a.len() > 0 && b.len() > 0 && a[0] == b[0] {
        lemma_lex_le_total(a.drop_first(), b.drop_first());
    }
}

pub proof fn lemma_lex_le_trans(a: Seq<char>, b: Seq<char>, c: Seq<char>)
    requires
        lex_le(a, b),
        lex_le(b, c),
    ensures
        lex_le(a, c),
    decreases a.len(),
{
    if a.len() > 0 && b.len() > 0 && c.len() > 0 && a[0] == b[0] && b[0] == c[0] {
        lemma_lex_le_trans(a.drop_first(), b.drop_first(), c.drop_first());
    }
}

/// Relies on str's `Ord`: strings compare lexicographically (bytewise over
/// UTF-8, which orders exactly as the code points do).
#[verifier::external_body]
pub(crate) fn str_le(a: &str, b: &str) -> (r: bool)
    ensures
        r == lex_le(a@, b@),
{
    a <= b
}

/// ASCII-only lowercasing of one character.
pub open spec fn ascii_lower_char(c: char) -> char {
    if 'A' <= c && c <= 'Z' {
        ((c as u32) + 32) as char
    } else {
        c
    }
}

pub open spec fn seq_ascii_lower(s: Seq<char>) -> Seq<char> {
    s.map_values(|c: char| ascii_lower_char(c))
}

pub fn to_ascii_lower(c: char) -> (r: char)
    ensures
        r == ascii_lower_char(c),
{
    if c >= 'A' && c <= 'Z' {
        (((c as u8) + 32) as char)
    } else {
        c
    }
}

/// `p` is a prefix of `s`.
pub open spec fn spec_starts_with(s: Seq<char>, p: Seq<char>) -> bool {
    s.len() >= p.len() && s.subrange(0, p.len() as int) == p
}

pub fn str_starts_with(s: &str, p: &str) -> (r: bool)
    ensures
        r == spec_starts_with(s@, p@),
{
    let sl = s.unicode_len();
    let pl = p.unicode_len();
    if pl > sl {
        return false;
    }
    let mut i: usize = 0;
    while i < pl
        invariant
            i <= pl <= sl,
            sl == s@.len(),
            pl == p@.len(),
            forall|j: int| 0 <= j < i ==> s@[j] == p@[j],
        decreases pl - i,
    {
        if s.get_char(i) != p.get_char(i) {
            assert(s@.subrange(0, pl as int)[i as int] != p@[i as int]);
            return false;
        }
        i += 1;
    }
    assert(s@.subrange(0, pl as int) =~= p@);
    true
}

/// Index of the last occurrence of `c` in `s`, or -1 when it never occurs.
pub open spec fn spec_last_index(s: Seq<char>, c: char) -> int
    decreases s.len(),
{
    if s.len() == 0 {
        -1
    } else if s.last() == c {
        s.len() - 1
    } else {
        spec_last_index(s.drop_last(), c)
    }
}

pub proof fn lemma_last_index_props(s: Seq<char>, c: char)
    ensures
        -1 <= spec_last_index(s, c) < s.len(),
        spec_last_index(s, c) == -1 ==> forall|j: int| 0 <= j < s.len() ==> s[j] != c,
        spec_last_index(s, c) >= 0 ==> s[spec_last_index(s, c)] == c,
        forall|j: int| spec_last_index(s, c) < j < s.len() ==> s[j] != c,
    decreases s.len(),
{
    if s.len() > 0 && s.last() != c {
        lemma_last_index_props(s.drop_last(), c);
        assert(forall|j: int| 0 <= j < s.len() - 1 ==> s[j] == s.drop_last()[j]);
    }
}

pub proof fn lemma_last_index_unique(s: Seq<char>, c: char, i: int)
    requires
        0 <= i < s.len(),
        s[i] == c,
        forall|j: int| i < j < s.len() ==> s[j] != c,
    ensures
        spec_last_index(s, c) == i,
    decreases s.len(),
{
    if s.last() != c {
        lemma_last_index_unique(s.drop_last(), c, i);
    }
}

/// Finds the last occurrence of `c`, scanning from the end.
pub fn rfind_char(s: &str, c: char) -> (r: Option<usize>)
    ensures
        r matches Some(i) ==> spec_last_index(s@, c) == i as int,
        r is None ==> spec_last_index(s@, c) == -1,
{
    let len = s.unicode_len();
    let mut i: usize = len;
    while i > 0
        invariant
            i <= len,
            len == s@.len(),
            forall|j: int| i <= j < s@.len() ==> s@[j] != c,
        decreases i,
    {
        i -= 1;
        if s.get_char(i) == c {
            proof {
                lemma_last_index_unique(s@, c, i as int);
            }
            return Some(i);
        }
    }
    proof {
        lemma_last_index_props(s@, c);
    }
    None
}

/// The component after the final separator: the file name of a path.
pub open spec fn spec_file_name(p: Seq<char>) -> Seq<char> {
    p.subrange(spec_last_index(p, '/') + 1, p.len() as int)
}

/// The file name with its final-dot extension removed; a leading dot alone
/// marks no extension.
pub open spec fn spec_file_stem(name: Seq<char>) -> Seq<char> {
    let d = spec_last_index(name, '.');
    if d <= 0 {
        name
    } else {
        name.subrange(0, d)
    }
}

/// What follows the final dot of the file name, if that dot is not the
/// leading character.
pub open spec fn spec_extension(name: Seq<char>) -> Option<Seq<char>> {
    let d = spec_last_index(name, '.');
    if d <= 0 {
        None
    } else {
        Some(name.subrange(d + 1, name.len() as int))
    }
}

pub fn file_name(path: &str) -> (r: String)
    ensures
        r@ == spec_file_name(path@),
{
    proof {
        lemma_last_index_props(path@, '/');
    }
    let len = path.unicode_len();
    match rfind_char(path, '/') {
        Some(i) => {
            let r = path.substring_char(i + 1, len).to_owned();
            r
        },
        None => {
            let r = path.to_owned();
            assert(r@ =~= spec_file_name(path@));
            r
        },
    }
}

pub fn file_stem_of_name(name: &str) -> (r: String)
    ensures
        r@ == spec_file_stem(name@),
{
    proof {
        lemma_last_index_props(name@, '.');
    }
    match rfind_char(name, '.') {
        Some(i) => {
            if i == 0 {
                name.to_owned()
            } else {
                name.substring_char(0, i).to_owned()
            }
        },
        None => name.to_owned(),
    }
}

pub fn extension_of_name<'a>(name: &'a str) -> (r: Option<&'a str>)
    ensures
        match r {
            Some(e) => spec_extension(name@) == Some(e@),
            None => spec_extension(name@) is None,
        },
{
    proof {
        lemma_last_index_props(name@, '.');
    }
    let len = name.unicode_len();
    match rfind_char(name, '.') {
        Some(i) => {
            if i == 0 {
                None
            } else {
                Some(name.substring_char(i + 1, len))
            }
        },
        None => None,
    }
}

/// The extension equals `lower`, comparing ASCII case-insensitively.
pub fn matches_lower(ext: &str, lower: &str) -> (r: bool)
    ensures
        r == (seq_ascii_lower(ext@) == lower@),
{
    let el = ext.unicode_len();
    let ll = lower.unicode_len();
    if el != ll {
        assert(seq_ascii_lower(ext@).len() == ext@.len());
        return false;
    }
    let mut i: usize = 0;
    while i < el
        invariant
            i <= el,
            el == ext@.len() == lower@.len(),
            forall|j: int| 0 <= j < i ==> seq_ascii_lower(ext@)[j] == lower@[j],
        decreases el - i,
    {
        let c = to_ascii_lower(ext.get_char(i));
        if c != lower.get_char(i) {
            assert(seq_ascii_lower(ext@)[i as int] != lower@[i as int]);
            return false;
        }
        i += 1;
    }
    assert(seq_ascii_lower(ext@) =~= lower@);
    true
}

/// Relies on String::push: appends exactly the one character.
#[verifier::external_body]
pub(crate) fn push_char(s: &mut String, c: char)
    ensures
        final(s)@ == old(s)@.push(c),
{
    s.push(c);
}

/// Relies on String::pop: removes and returns the last character, or
/// nothing from an empty string.
#[verifier::external_body]
pub(crate) fn pop_char(s: &mut String) -> (r: Option<char>)
    ensures
        old(s)@.len() == 0 ==> r is None && final(s)@ == old(s)@,
        old(s)@.len() > 0 ==> r == Some(old(s)@.last()) && final(s)@ == old(s)@.drop_last(),
{
    s.pop()
}

/// Character-by-character string equality.
pub fn strings_equal(a: &str, b: &str) -> (r: bool)
    ensures
        r == (a@ == b@),
{
    let al = a.unicode_len();
    let bl = b.unicode_len();
    if al != bl {
        return false;
    }
    let mut i: usize = 0;
    while i < al
        invariant
            i <= al,
            al == a@.len() == b@.len(),
            forall|j: int| 0 <= j < i ==> a@[j] == b@[j],
        decreases al - i,
    {
        if a.get_char(i) != b.get_char(i) {
            return false;
        }
        i += 1;
    }
    assert(a@ =~= b@);
    true
}

/// ASCII whitespace, the kind a typed command can hold.
pub open spec fn is_space(c: char) -> bool {
    c == ' ' || c == '\t' || c == '\n' || c == '\r'
}

pub open spec fn trim_front(s: Seq<char>) -> Seq<char>
    decreases s.len(),
{
    if s.len() > 0 && is_space(s[0]) {
        trim_front(s.drop_first())
    } else {
        s
    }
}

pub open spec fn trim_back(s: Seq<char>) -> Seq<char>
    decreases s.len(),
{
    if s.len() > 0 && is_space(s.last()) {
        trim_back(s.drop_last())
    } else {
        s
    }
}

/// The string without leading and trailing ASCII whitespace.
pub open spec fn spec_trim(s: Seq<char>) -> Seq<char> {
    trim_back(trim_front(s))
}

fn is_space_char(c: char) -> (r: bool)
    ensures
        r == is_space(c),
{
    c == ' ' || c == '\t' || c == '\n' || c == '\r'
}

pub fn trim_spaces(s: &str) -> (r: String)
    ensures
        r@ == spec_trim(s@),
{
    let len = s.unicode_len();
    proof {
        assert(s@.subrange(0, len as int) =~= s@);
    }
    let mut start: usize = 0;
    while start < len && is_space_char(s.get_char(start))
        invariant
            start <= len,
            len == s@.len(),
            trim_front(s@) == trim_front(s@.subrange(start as int, len as int)),
        decreases len - start,
    {
        proof {
            assert(s@.subrange(start as int, len as int).drop_first() =~= s@.subrange(
                start as int + 1,
                len as int,
            ));
        }
        start += 1;
    }
    proof {
        assert(trim_front(s@) =~= s@.subrange(start as int, len as int));
    }
    let mut end: usize = len;
    while end > start && is_space_char(s.get_char(end - 1))
        invariant
            start <= end <= len,
            len == s@.len(),
            trim_front(s@) == s@.subrange(start as int, len as int),
            trim_back(s@.subrange(start as int, len as int)) == trim_back(
                s@.subrange(start as int, end as int),
            ),
        decreases end,
    {
        proof {
            assert(s@.subrange(start as int, end as int).drop_last() =~= s@.subrange(
                start as int,
                end as int - 1,
            ));
        }
        end -= 1;
    }
    proof {
        assert(spec_trim(s@) =~= s@.subrange(start as int, end as int));
    }
    s.substring_char(start, end).to_owned()
}

/// A leading tilde stands for the home directory, when one is known.
pub open spec fn spec_expand_tilde(p: Seq<char>, home: Option<Seq<char>>) -> Seq<char> {
    match home {
        Some(h) => if p.len() > 0 && p[0] == '~' {
            h + p.skip(1)
        } else {
            p
        },
        None => p,
    }
}

pub fn expand_tilde(path: &str, home: Option<&str>) -> (r: String)
    ensures
        r@ == spec_expand_tilde(path@, match home {
            Some(h) => Some(h@),
            None => None,
        }),
{
    let len = path.unicode_len();
    match home {
        Some(h) => {
            if len > 0 && path.get_char(0) == '~' {
                let rest = path.substring_char(1, len);
                let r = h.to_owned().concat(rest);
                proof {
                    assert(path@.subrange(1, len as int) =~= path@.skip(1));
                }
                r
            } else {
                path.to_owned()
            }
        },
        None => path.to_owned(),
    }
}

pub open spec fn views_of(s: Seq<String>) -> Seq<Seq<char>> {
    s.map_values(|x: String| x@)
}

pub open spec fn strings_sorted(s: Seq<String>) -> bool {
    forall|i: int, j: int| 0 <= i < j < s.len() ==> lex_le(#[trigger] s[i]@, #[trigger] s[j]@)
}

/// A permutation of strings is a permutation of their character sequences.
pub proof fn lemma_views_multiset_permutation(a: Seq<String>, b: Seq<String>)
    requires
        a.to_multiset() == b.to_multiset(),
    ensures
        views_of(a).to_multiset() == views_of(b).to_multiset(),
    decreases a.len(),
{
    broadcast use vstd::seq_lib::group_to_multiset_ensures;

    if a.len() > 0 {
        let x = a[0];
        assert(a.to_multiset().count(x) > 0);
        assert(b.to_multiset().count(x) > 0);
        assert(b.contains(x));
        let k = choose|k: int| 0 <= k < b.len() && b[k] == x;
        let a1 = a.remove(0);
        let b1 = b.remove(k);
        assert(a1.to_multiset() =~= a.to_multiset().remove(x));
        assert(b1.to_multiset() =~= b.to_multiset().remove(x));
        lemma_views_multiset_permutation(a1, b1);
        assert(views_of(a1) =~= views_of(a).remove(0));
        assert(views_of(b1) =~= views_of(b).remove(k));
        assert(views_of(a).to_multiset() =~= views_of(a1).to_multiset().insert(x@));
        assert(views_of(b).to_multiset() =~= views_of(b1).to_multiset().insert(x@));
    } else {
        assert(b.len() == b.to_multiset().len());
        assert(views_of(a) =~= Seq::<Seq<char>>::empty());
        assert(views_of(b) =~= Seq::<Seq<char>>::empty());
    }
}

/// Sorts strings lexicographically (insertion sort); a permutation.
pub fn sort_strings(v: &mut Vec<String>)
    ensures
        final(v)@.to_multiset() == old(v)@.to_multiset(),
        views_of(final(v)@).to_multiset() == views_of(old(v)@).to_multiset(),
        final(v)@.len() == old(v)@.len(),
        strings_sorted(final(v)@),
{
    broadcast use vstd::seq_lib::group_to_multiset_ensures;

    let ghost orig = v@;
    if v.len() < 2 {
        proof {
            assert(v@.to_multiset() =~= orig.to_multiset());
            lemma_views_multiset_permutation(v@, orig);
        }
        return ;
    }
    let mut i: usize = 1;
    while i < v.len()
        invariant
            1 <= i <= v@.len(),
            v@.len() == orig.len(),
            v@.to_multiset() == orig.to_multiset(),
            forall|a: int, b: int| 0 <= a < b < i ==> lex_le(#[trigger] v@[a]@, #[trigger] v@[b]@),
        decreases v@.len() - i,
    {
        let mut j: usize = i;
        while j > 0 && !str_le_at(v, j - 1, i)
            invariant
                0 <= j <= i < v@.len(),
                forall|a: int, b: int|
                    0 <= a < b < i ==> lex_le(#[trigger] v@[a]@, #[trigger] v@[b]@),
                forall|k: int| j <= k < i ==> lex_le(v@[i as int]@, #[trigger] v@[k]@),
            decreases j,
        {
            proof {
                lemma_lex_le_total(v@[j - 1]@, v@[i as int]@);
            }
            j -= 1;
        }
        let ghost before = v@;
        let moved = v.remove(i);
        v.insert(j, moved);
        proof {
            let after = v@;
            assert(before.remove(i as int).insert(j as int, before[i as int]).to_multiset()
                =~= before.to_multiset());
            assert(after =~= before.remove(i as int).insert(j as int, before[i as int]));
            assert forall|a: int, b: int| 0 <= a < b < i + 1 implies lex_le(
                #[trigger] after[a]@,
                #[trigger] after[b]@,
            ) by {
                if b < j {
                    assert(after[a] == before[a] && after[b] == before[b]);
                } else if b == j {
                    assert(after[b] == before[i as int]);
                    assert(a < j);
                    if a < j - 1 {
                        assert(lex_le(before[a]@, before[j - 1]@));
                        assert(lex_le(before[j - 1]@, before[i as int]@));
                        lemma_lex_le_trans(before[a]@, before[j - 1]@, before[i as int]@);
                    } else {
                        assert(lex_le(before[j - 1]@, before[i as int]@));
                    }
                } else {
                    assert(after[b] == before[b - 1]);
                    if a < j {
                        assert(after[a] == before[a]);
                        assert(a < b - 1 < i);
                        assert(lex_le(before[a]@, before[b - 1]@));
                    } else if a == j {
                        assert(after[a] == before[i as int]);
                        assert(j <= b - 1 < i);
                        assert(lex_le(before[i as int]@, before[b - 1]@));
                    } else {
                        assert(after[a] == before[a - 1]);
                        assert(j <= a - 1 < b - 1 < i);
                        assert(lex_le(before[a - 1]@, before[b - 1]@));
                    }
                }
            }
        }
        i += 1;
    }
    proof {
        lemma_views_multiset_permutation(v@, orig);
    }
}

/// Compares the strings at two positions; a helper for the sort.
fn str_le_at(v: &Vec<String>, a: usize, b: usize) -> (r: bool)
    requires
        a < v@.len(),
        b < v@.len(),
    ensures
        r == lex_le(v@[a as int]@, v@[b as int]@),
{
    str_le(v[a].as_str(), v[b].as_str())
}

/// Shortens a display name to at most `max_width` characters, marking the
/// cut with an ellipsis when there is room for one.
pub open spec fn spec_truncate(s: Seq<char>, max_width: int) -> Seq<char> {
    if s.len() <= max_width {
        s
    } else if max_width > 3 {
        s.subrange(0, max_width - 3) + "..."@
    } else {
        s.subrange(0, max_width)
    }
}

pub fn truncate_name(name: &str, max_width: usize) -> (r: String)
    ensures
        r@ == spec_truncate(name@, max_width as int),
{
    let len = name.unicode_len();
    if len <= max_width {
        name.to_owned()
    } else if max_width > 3 {
        let stem = name.substring_char(0, max_width - 3);
        stem.to_owned().concat("...")
    } else {
        name.substring_char(0, max_width).to_owned()
    }
}

} // verus!
