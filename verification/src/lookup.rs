//! Icon name resolution over XDG icon roots: search roots, candidate names,
//! the directories and file names that are tried, and the search itself,
//! which asks the file system through the probes it is given.

use vstd::prelude::*;
use vstd::string::StrSliceExecFns;
use crate::text::{string_push, string_push_str};

verus! {

/// The characters of a string slice, as a vector.
pub fn chars_of(s: &str) -> (v: Vec<char>)
    ensures
        v@ == s@,
{
    let n = s.unicode_len();
    let mut v: Vec<char> = Vec::new();
    let mut i: usize = 0;
    while i < n
        invariant
            n == s@.len(),
            i <= n,
            v@ == s@.take(i as int),
        decreases n - i,
    {
        v.push(s.get_char(i));
        proof {
            assert(s@.take(i + 1) =~= s@.take(i as int).push(s@[i as int]));
        }
        i = i + 1;
    }
    proof {
        assert(s@.take(n as int) =~= s@);
    }
    v
}

/// A string made of the given characters.
pub fn string_of(chars: &Vec<char>) -> (s: String)
    ensures
        s@ == chars@,
{
    let mut s = String::new();
    let mut i: usize = 0;
    while i < chars.len()
        invariant
            i <= chars@.len(),
            s@ == chars@.take(i as int),
        decreases chars@.len() - i,
    {
        string_push(&mut s, chars[i]);
        proof {
            assert(chars@.take(i + 1) =~= chars@.take(i as int).push(chars@[i as int]));
        }
        i = i + 1;
    }
    proof {
        assert(chars@.take(chars@.len() as int) =~= chars@);
    }
    s
}

/// `dir` joined with `name` the way `Path::join` does for Unix paths: an
/// absolute `name` replaces `dir`, and a separator is added between them
/// unless `dir` is empty or already ends with one.
pub open spec fn join_spec(dir: Seq<char>, name: Seq<char>) -> Seq<char> {
    if name.len() > 0 && name[0] == '/' {
        name
    } else if dir.len() == 0 || dir.last() == '/' {
        dir + name
    } else {
        dir + seq!['/'] + name
    }
}

/// Joins a file name onto a directory path.
pub fn path_join(dir: &str, name: &str) -> (p: String)
    ensures
        p@ == join_spec(dir@, name@),
{
    let nl = name.unicode_len();
    if nl > 0 && name.get_char(0) == '/' {
        let mut p = String::new();
        string_push_str(&mut p, name);
        proof {
            assert(p@ =~= name@);
        }
        return p;
    }
    let dl = dir.unicode_len();
    let mut p = String::new();
    string_push_str(&mut p, dir);
    if !(dl == 0 || dir.get_char(dl - 1) == '/') {
        string_push(&mut p, '/');
    }
    string_push_str(&mut p, name);
    proof {
        assert(Seq::<char>::empty() + dir@ =~= dir@);
    }
    p
}

/// What follows the last `.` of a name (`str::rsplit('.').next()`), or the
/// whole name where it has none.
pub open spec fn after_last_dot(s: Seq<char>) -> Seq<char>
    decreases s.len(),
{
    if s.len() == 0 {
        s
    } else if s.last() == '.' {
        Seq::empty()
    } else {
        after_last_dot(s.drop_last()).push(s.last())
    }
}

proof fn lemma_after_last_dot(s: Seq<char>, i: int)
    requires
        -1 <= i < s.len(),
        i >= 0 ==> s[i] == '.',
        forall|j: int| i < j < s.len() ==> s[j] != '.',
    ensures
        after_last_dot(s) == s.subrange(i + 1, s.len() as int),
    decreases s.len(),
{
    if s.len() > 0 && s.len() - 1 != i {
        lemma_after_last_dot(s.drop_last(), i);
        assert(s.subrange(i + 1, s.len() as int) =~= s.drop_last().subrange(i + 1, s.len() - 1).push(
            s.last(),
        ));
    } else if s.len() > 0 {
        assert(s.subrange(i + 1, s.len() as int) =~= Seq::<char>::empty());
    }
}

/// The names an icon is looked up under: the name itself, then, for a
/// reverse-DNS name such as `com.usebottles.bottles`, its last segment when
/// that is not empty.
pub open spec fn candidate_names_spec(name: Seq<char>) -> Seq<Seq<char>> {
    let stem = after_last_dot(name);
    if stem != name && stem.len() > 0 {
        seq![name, stem]
    } else {
        seq![name]
    }
}

/// What follows the last `.` is a suffix without `.`, preceded by the `.`
/// where it is shorter than the whole text.
proof fn lemma_after_last_dot_shape(s: Seq<char>)
    ensures
        after_last_dot(s).len() <= s.len(),
        s.subrange(s.len() - after_last_dot(s).len(), s.len() as int) == after_last_dot(s),
        !after_last_dot(s).contains('.'),
        after_last_dot(s).len() < s.len() ==> s[s.len() - after_last_dot(s).len() - 1] == '.',
        after_last_dot(s).len() == s.len() ==> !s.contains('.'),
    decreases s.len(),
{
    let t = after_last_dot(s);
    if s.len() == 0 {
        assert(s.subrange(0, 0) =~= t);
    } else if s.last() == '.' {
        assert(s.subrange(s.len() as int, s.len() as int) =~= t);
        assert(t =~= Seq::<char>::empty());
    } else {
        let d = s.drop_last();
        lemma_after_last_dot_shape(d);
        let u = after_last_dot(d);
        assert(t == u.push(s.last()));
        assert(s.subrange(s.len() - t.len(), s.len() as int) =~= d.subrange(d.len() - u.len(), d.len() as int).push(
            s.last(),
        ));
        assert forall|i: int| 0 <= i < t.len() implies t[i] != '.' by {
            if i < u.len() {
                assert(t[i] == u[i]);
                assert(!u.contains('.'));
                if u[i] == '.' {
                    assert(u.contains('.'));
                }
            }
        }
        if t.len() < s.len() {
            assert(s[s.len() - t.len() - 1] == d[d.len() - u.len() - 1]);
        } else {
            assert forall|i: int| 0 <= i < s.len() implies s[i] != '.' by {
                if i < d.len() {
                    assert(s[i] == d[i]);
                    if d[i] == '.' {
                        assert(d.contains('.'));
                    }
                }
            }
        }
    }
}

/// The names an icon is looked up under: the name itself first, and a
/// second name exactly when the name holds a `.` and does not end with one;
/// that second name is the text after the last `.`, a non-empty suffix of
/// the name that holds no `.` and follows a `.`.
pub proof fn lemma_candidate_names(name: Seq<char>)
    ensures
        1 <= candidate_names_spec(name).len() <= 2,
        candidate_names_spec(name)[0] == name,
        candidate_names_spec(name).len() == 2 <==> (name.contains('.') && name.last() != '.'),
        candidate_names_spec(name).len() == 2 ==> {
            let stem = candidate_names_spec(name)[1];
            &&& 0 < stem.len() < name.len()
            &&& !stem.contains('.')
            &&& name[name.len() - stem.len() - 1] == '.'
            &&& name.subrange(name.len() - stem.len(), name.len() as int) == stem
        },
{
    lemma_after_last_dot_shape(name);
    let stem = after_last_dot(name);
    if name.contains('.') && name.last() != '.' {
        assert(name.len() > 0);
        assert(stem == after_last_dot(name.drop_last()).push(name.last()));
        assert(stem.len() > 0);
        if stem.len() == name.len() {
            assert(!name.contains('.'));
        }
        assert(stem.len() < name.len());
        assert(stem != name);
    } else if name.len() > 0 && name.last() == '.' {
        assert(stem.len() == 0);
    } else if name.len() > 0 {
        if stem.len() < name.len() {
            assert(name.contains('.')) by {
                assert(name[name.len() - stem.len() - 1] == '.');
            }
        }
        assert(stem =~= name) by {
            assert(name.subrange(0, name.len() as int) =~= name);
        }
    }
}

/// Computes the names an icon is looked up under.
pub fn candidate_names(name: &str) -> (names: Vec<String>)
    ensures
        names@.len() == candidate_names_spec(name@).len(),
        forall|i: int| 0 <= i < names@.len() ==> #[trigger] names@[i]@ == candidate_names_spec(name@)[i],
{
    let chars = chars_of(name);
    let n = chars.len();
    let mut i: usize = n;
    while i > 0 && chars[i - 1] != '.'
        invariant
            n == chars@.len(),
            i <= n,
            forall|j: int| i <= j < n ==> chars@[j] != '.',
        decreases i,
    {
        i = i - 1;
    }
    let ghost dot: int = i - 1;
    proof {
        lemma_after_last_dot(chars@, dot);
    }
    let mut stem_chars: Vec<char> = Vec::new();
    let mut k: usize = i;
    while k < n
        invariant
            n == chars@.len(),
            i <= k <= n,
            stem_chars@ == chars@.subrange(i as int, k as int),
        decreases n - k,
    {
        stem_chars.push(chars[k]);
        proof {
            assert(chars@.subrange(i as int, k + 1) =~= chars@.subrange(i as int, k as int).push(chars@[k as int]));
        }
        k = k + 1;
    }
    let stem = string_of(&stem_chars);
    let mut names: Vec<String> = Vec::new();
    names.push(string_of(&chars));
    let different = i > 0;
    if different && stem_chars.len() > 0 {
        proof {
            assert(stem@.len() < name@.len());
        }
        names.push(stem);
    } else {
        proof {
            if i == 0 {
                assert(chars@.subrange(0, n as int) =~= chars@);
            }
        }
    }
    names
}

/// Whether `s` ends with `suffix`.
pub open spec fn ends_with_spec(s: Seq<char>, suffix: Seq<char>) -> bool {
    suffix.len() <= s.len() && s.subrange(s.len() - suffix.len(), s.len() as int) == suffix
}

/// Checks whether `s` ends with `suffix`.
pub fn ends_with(s: &Vec<char>, suffix: &Vec<char>) -> (r: bool)
    ensures
        r == ends_with_spec(s@, suffix@),
{
    let n = s.len();
    let m = suffix.len();
    if m > n {
        return false;
    }
    let mut j: usize = 0;
    while j < m
        invariant
            n == s@.len(),
            m == suffix@.len(),
            m <= n,
            j <= m,
            forall|t: int| 0 <= t < j ==> s@[n - m + t] == suffix@[t],
        decreases m - j,
    {
        if s[n - m + j] != suffix[j] {
            proof {
                assert(s@.subrange(n - m, n as int)[j as int] != suffix@[j as int]);
            }
            return false;
        }
        j = j + 1;
    }
    proof {
        assert(s@.subrange(n - m, n as int) =~= suffix@);
    }
    true
}

/// The ASCII lowercase of a character.
pub open spec fn ascii_lower(c: char) -> char {
    if 'A' <= c && c <= 'Z' {
        ((c as u32) + 32) as char
    } else {
        c
    }
}

/// The ASCII lowercase of a string.
pub open spec fn ascii_lower_seq(s: Seq<char>) -> Seq<char> {
    Seq::new(s.len(), |i: int| ascii_lower(s[i]))
}

/// Lowercases the ASCII letters of a string.
pub fn to_ascii_lower(s: &str) -> (r: Vec<char>)
    ensures
        r@ == ascii_lower_seq(s@),
{
    let chars = chars_of(s);
    let mut r: Vec<char> = Vec::new();
    let mut i: usize = 0;
    while i < chars.len()
        invariant
            chars@ == s@,
            i <= chars@.len(),
            r@ == ascii_lower_seq(s@).take(i as int),
        decreases chars@.len() - i,
    {
        let c = chars[i];
        let l = if 'A' <= c && c <= 'Z' {
            let code: u32 = c as u32;
            assert(65 <= code <= 90);
            ((code + 32) as u8) as char
        } else {
            c
        };
        r.push(l);
        proof {
            assert(ascii_lower_seq(s@).take(i + 1) =~= ascii_lower_seq(s@).take(i as int).push(l));
        }
        i = i + 1;
    }
    proof {
        assert(ascii_lower_seq(s@).take(chars@.len() as int) =~= ascii_lower_seq(s@));
    }
    r
}

/// The icon themes searched, in order.
pub open spec fn icon_themes_spec() -> Seq<Seq<char>> {
    seq![
        "hicolor"@,
        "breeze"@,
        "AdwaitaLegacy"@,
        "Adwaita"@,
        "breeze-dark"@,
        "gnome"@,
    ]
}

/// The icon themes searched, in order.
pub fn icon_themes() -> (v: Vec<&'static str>)
    ensures
        v@.len() == icon_themes_spec().len(),
        forall|i: int| 0 <= i < v@.len() ==> #[trigger] v@[i]@ == icon_themes_spec()[i],
{
    let mut v: Vec<&'static str> = Vec::new();
    v.push("hicolor");
    v.push("breeze");
    v.push("AdwaitaLegacy");
    v.push("Adwaita");
    v.push("breeze-dark");
    v.push("gnome");
    v
}

/// The size directories searched, scalable first, then descending raster sizes.
pub open spec fn icon_sizes_spec() -> Seq<Seq<char>> {
    seq![
        "scalable"@,
        "1024x1024"@,
        "512x512@2"@,
        "512x512"@,
        "256x256@2"@,
        "256x256"@,
        "128x128@2"@,
        "128x128"@,
        "96x96"@,
        "64x64"@,
        "48x48"@,
        "32x32"@,
        "24x24"@,
        "22x22"@,
        "16x16"@,
        "64"@,
        "48"@,
        "32"@,
        "24"@,
        "22"@,
        "16"@,
        "symbolic"@,
    ]
}

/// Whether a character is a decimal digit.
pub open spec fn is_digit(c: char) -> bool {
    48 <= (c as u32) <= 57
}

/// The end of the run of decimal digits of `s` that starts at `i`.
pub open spec fn digits_end(s: Seq<char>, i: int) -> int
    decreases s.len() - i,
{
    if 0 <= i < s.len() && is_digit(s[i]) {
        digits_end(s, i + 1)
    } else {
        i
    }
}

/// The number written by the first `n` characters of `s`, all digits.
pub open spec fn number_value(s: Seq<char>, n: int) -> int
    decreases n,
{
    if n <= 0 {
        0
    } else {
        number_value(s, n - 1) * 10 + ((s[n - 1] as u32) - 48)
    }
}

/// Whether a size directory is named `<n>x<n>...` (the GNOME layout).
pub open spec fn is_grid_size(s: Seq<char>) -> bool {
    let e = digits_end(s, 0);
    0 < e < s.len() && s[e] == 'x'
}

/// Whether a size directory is a plain number (the KDE layout).
pub open spec fn is_number_size(s: Seq<char>) -> bool {
    0 < s.len() && digits_end(s, 0) == s.len()
}

/// The resolution a size directory holds: its leading number, doubled for a
/// `@2` high-density directory.
pub open spec fn size_resolution(s: Seq<char>) -> int {
    let n = number_value(s, digits_end(s, 0));
    if s.len() >= 2 && s[s.len() - 2] == '@' && s[s.len() - 1] == '2' {
        2 * n
    } else {
        n
    }
}

/// Whether size directory `b` may follow `a`: both in the same layout with
/// `b` of no higher resolution, or `a` in the GNOME and `b` in the KDE
/// layout.
pub open spec fn size_may_follow(a: Seq<char>, b: Seq<char>) -> bool {
    ||| is_grid_size(a) && is_grid_size(b) && size_resolution(a) >= size_resolution(b)
    ||| is_grid_size(a) && is_number_size(b)
    ||| is_number_size(a) && is_number_size(b) && size_resolution(a) >= size_resolution(b)
}

/// The size directories are searched scalable first, then by decreasing
/// resolution: all `<n>x<n>` directories from 1024 down to 16 (a `@2`
/// directory counting double), then the plain-number ones from 64 down to
/// 16, and `symbolic` last.
pub proof fn lemma_sizes_by_decreasing_resolution()
    ensures
        icon_sizes_spec()[0] == "scalable"@,
        icon_sizes_spec()[icon_sizes_spec().len() - 1] == "symbolic"@,
        forall|i: int|
            1 <= i < icon_sizes_spec().len() - 1 ==> is_grid_size(#[trigger] icon_sizes_spec()[i])
                || is_number_size(icon_sizes_spec()[i]),
        forall|i: int|
            1 <= i < icon_sizes_spec().len() - 2 ==> size_may_follow(
                #[trigger] icon_sizes_spec()[i],
                icon_sizes_spec()[i + 1],
            ),
{
    reveal_strlit("1024x1024");
    reveal_strlit("512x512@2");
    reveal_strlit("512x512");
    reveal_strlit("256x256@2");
    reveal_strlit("256x256");
    reveal_strlit("128x128@2");
    reveal_strlit("128x128");
    reveal_strlit("96x96");
    reveal_strlit("64x64");
    reveal_strlit("48x48");
    reveal_strlit("32x32");
    reveal_strlit("24x24");
    reveal_strlit("22x22");
    reveal_strlit("16x16");
    reveal_strlit("64");
    reveal_strlit("48");
    reveal_strlit("32");
    reveal_strlit("24");
    reveal_strlit("22");
    reveal_strlit("16");
    reveal_with_fuel(digits_end, 6);
    reveal_with_fuel(number_value, 5);
    let z = icon_sizes_spec();
    assert(is_grid_size(z[1]) && size_resolution(z[1]) == 1024);
    assert(is_grid_size(z[2]) && size_resolution(z[2]) == 1024);
    assert(is_grid_size(z[3]) && size_resolution(z[3]) == 512);
    assert(is_grid_size(z[4]) && size_resolution(z[4]) == 512);
    assert(is_grid_size(z[5]) && size_resolution(z[5]) == 256);
    assert(is_grid_size(z[6]) && size_resolution(z[6]) == 256);
    assert(is_grid_size(z[7]) && size_resolution(z[7]) == 128);
    assert(is_grid_size(z[8]) && size_resolution(z[8]) == 96);
    assert(is_grid_size(z[9]) && size_resolution(z[9]) == 64);
    assert(is_grid_size(z[10]) && size_resolution(z[10]) == 48);
    assert(is_grid_size(z[11]) && size_resolution(z[11]) == 32);
    assert(is_grid_size(z[12]) && size_resolution(z[12]) == 24);
    assert(is_grid_size(z[13]) && size_resolution(z[13]) == 22);
    assert(is_grid_size(z[14]) && size_resolution(z[14]) == 16);
    assert(is_number_size(z[15]) && size_resolution(z[15]) == 64);
    assert(is_number_size(z[16]) && size_resolution(z[16]) == 48);
    assert(is_number_size(z[17]) && size_resolution(z[17]) == 32);
    assert(is_number_size(z[18]) && size_resolution(z[18]) == 24);
    assert(is_number_size(z[19]) && size_resolution(z[19]) == 22);
    assert(is_number_size(z[20]) && size_resolution(z[20]) == 16);
}

/// The size directories searched, scalable first, then descending raster sizes.
pub fn icon_sizes() -> (v: Vec<&'static str>)
    ensures
        v@.len() == icon_sizes_spec().len(),
        forall|i: int| 0 <= i < v@.len() ==> #[trigger] v@[i]@ == icon_sizes_spec()[i],
{
    let mut v: Vec<&'static str> = Vec::new();
    v.push("scalable");
    v.push("1024x1024");
    v.push("512x512@2");
    v.push("512x512");
    v.push("256x256@2");
    v.push("256x256");
    v.push("128x128@2");
    v.push("128x128");
    v.push("96x96");
    v.push("64x64");
    v.push("48x48");
    v.push("32x32");
    v.push("24x24");
    v.push("22x22");
    v.push("16x16");
    v.push("64");
    v.push("48");
    v.push("32");
    v.push("24");
    v.push("22");
    v.push("16");
    v.push("symbolic");
    v
}

/// The context directories searched, in order.
pub open spec fn icon_categories_spec() -> Seq<Seq<char>> {
    seq![
        "apps"@,
        "devices"@,
        "preferences"@,
        "categories"@,
        "status"@,
        "mimetypes"@,
        "places"@,
        "legacy"@,
        "actions"@,
        "system"@,
    ]
}

/// The context directories searched, in order.
pub fn icon_categories() -> (v: Vec<&'static str>)
    ensures
        v@.len() == icon_categories_spec().len(),
        forall|i: int| 0 <= i < v@.len() ==> #[trigger] v@[i]@ == icon_categories_spec()[i],
{
    let mut v: Vec<&'static str> = Vec::new();
    v.push("apps");
    v.push("devices");
    v.push("preferences");
    v.push("categories");
    v.push("status");
    v.push("mimetypes");
    v.push("places");
    v.push("legacy");
    v.push("actions");
    v.push("system");
    v
}

/// The file extensions tried after a bare name, in order.
pub open spec fn icon_extensions_spec() -> Seq<Seq<char>> {
    seq![
        "svg"@,
        "png"@,
        "webp"@,
        "xpm"@,
    ]
}

/// The file extensions tried after a bare name, in order.
pub fn icon_extensions() -> (v: Vec<&'static str>)
    ensures
        v@.len() == icon_extensions_spec().len(),
        forall|i: int| 0 <= i < v@.len() ==> #[trigger] v@[i]@ == icon_extensions_spec()[i],
{
    let mut v: Vec<&'static str> = Vec::new();
    v.push("svg");
    v.push("png");
    v.push("webp");
    v.push("xpm");
    v
}

/// The extensions that mark a name as a file name already.
pub open spec fn graphic_extensions_spec() -> Seq<Seq<char>> {
    seq![
        "svg"@,
        "png"@,
        "webp"@,
        "xpm"@,
        "jpg"@,
        "jpeg"@,
        "ico"@,
    ]
}

/// The extensions that mark a name as a file name already.
pub fn graphic_extensions() -> (v: Vec<&'static str>)
    ensures
        v@.len() == graphic_extensions_spec().len(),
        forall|i: int| 0 <= i < v@.len() ==> #[trigger] v@[i]@ == graphic_extensions_spec()[i],
{
    let mut v: Vec<&'static str> = Vec::new();
    v.push("svg");
    v.push("png");
    v.push("webp");
    v.push("xpm");
    v.push("jpg");
    v.push("jpeg");
    v.push("ico");
    v
}

/// The extension of a path as `Path::extension` finds it: after the last
/// `.` of the final component, unless that `.` opens the component.
pub uninterp spec fn path_extension_spec(path: Seq<char>) -> Option<Seq<char>>;

/// Whether a path is a single plain file name: not empty, without `/`, and
/// neither `.` nor `..`. Such a path is its own one component.
pub open spec fn is_plain_name(s: Seq<char>) -> bool {
    &&& s.len() > 0
    &&& !s.contains('/')
    &&& s != seq!['.']
    &&& s != seq!['.', '.']
}

/// The extension of a file name as `Path::extension` documents it: none
/// without a `.`, none where the name begins with its only `.`, else what
/// follows the last `.`.
pub open spec fn name_extension(name: Seq<char>) -> Option<Seq<char>> {
    if !name.contains('.') {
        None
    } else if name[0] == '.' && !name.drop_first().contains('.') {
        None
    } else {
        Some(after_last_dot(name))
    }
}

/// What follows the last `/` of a path, or the whole path where it has none.
pub open spec fn final_name(s: Seq<char>) -> Seq<char>
    decreases s.len(),
{
    if s.len() == 0 {
        s
    } else if s.last() == '/' {
        Seq::empty()
    } else {
        final_name(s.drop_last()).push(s.last())
    }
}

/// The extension of a path (`std::path::Path::extension`): that of its file
/// name. Where the text after the path's last `/` (or the whole path, where
/// it has none) is a plain file name, that is the file name, and the result
/// is the one the documentation gives for it; for other paths it is only
/// named.
#[verifier::external_body]
pub(crate) fn path_extension(path: &str) -> (r: Option<String>)
    ensures
        r is Some <==> path_extension_spec(path@) is Some,
        r matches Some(e) ==> path_extension_spec(path@) == Some(e@),
        is_plain_name(path@) ==> (r is Some <==> name_extension(path@) is Some),
        is_plain_name(path@) ==> (r matches Some(e) ==> name_extension(path@) == Some(e@)),
        is_plain_name(final_name(path@)) ==> (r is Some <==> name_extension(final_name(path@)) is Some),
        is_plain_name(final_name(path@)) ==> (r matches Some(e) ==> name_extension(final_name(path@))
            == Some(e@)),
{
    std::path::Path::new(path).extension().map(|e| e.to_string_lossy().into_owned())
}

/// Whether the last components of a path are those of `child`, as
/// `Path::ends_with` decides it.
pub uninterp spec fn path_ends_with_spec(path: Seq<char>, child: Seq<char>) -> bool;

/// Whether a path ends with the components of `child`
/// (`std::path::Path::ends_with`). A path whose text ends with `/` and then a
/// plain file name ends with that name.
#[verifier::external_body]
pub(crate) fn path_ends_with(path: &str, child: &str) -> (r: bool)
    ensures
        r == path_ends_with_spec(path@, child@),
        (is_plain_name(child@) && exists|q: Seq<char>| path@ == q + seq!['/'] + child@) ==> r,
{
    std::path::Path::new(path).ends_with(child)
}

/// Whether a search root is a pixmaps directory (its last component is
/// `pixmaps`).
pub open spec fn is_pixmaps_root(root: Seq<char>) -> bool {
    path_ends_with_spec(root, "pixmaps"@)
}

/// Whether a name already carries a graphic file extension (compared
/// without regard to ASCII case).
pub open spec fn has_graphic_ext_spec(name: Seq<char>) -> bool {
    is_graphic_ext(path_extension_spec(name))
}

/// Whether an extension, compared without regard to ASCII case, is a
/// graphic one.
pub open spec fn is_graphic_ext(ext: Option<Seq<char>>) -> bool {
    match ext {
        Some(e) => graphic_extensions_spec().contains(ascii_lower_seq(e)),
        None => false,
    }
}

/// Checks whether two character vectors are equal.
pub fn chars_eq(a: &Vec<char>, b: &Vec<char>) -> (r: bool)
    ensures
        r == (a@ == b@),
{
    if a.len() != b.len() {
        return false;
    }
    let mut i: usize = 0;
    while i < a.len()
        invariant
            a@.len() == b@.len(),
            i <= a@.len(),
            forall|j: int| 0 <= j < i ==> a@[j] == b@[j],
        decreases a@.len() - i,
    {
        if a[i] != b[i] {
            return false;
        }
        i = i + 1;
    }
    proof {
        assert(a@ =~= b@);
    }
    true
}

/// Checks whether a name already carries a graphic file extension.
pub fn has_graphic_ext(name: &str) -> (r: bool)
    ensures
        r == has_graphic_ext_spec(name@),
        is_plain_name(final_name(name@)) ==> r == is_graphic_ext(name_extension(final_name(name@))),
{
    let ext = match path_extension(name) {
        Some(e) => e,
        None => return false,
    };
    let lower = to_ascii_lower(ext.as_str());
    let known = graphic_extensions();
    let mut i: usize = 0;
    while i < known.len()
        invariant
            known@.len() == graphic_extensions_spec().len(),
            forall|j: int| 0 <= j < known@.len() ==> #[trigger] known@[j]@ == graphic_extensions_spec()[j],
            i <= known@.len(),
            lower@ == ascii_lower_seq(ext@),
            path_extension_spec(name@) == Some(ext@),
            is_plain_name(final_name(name@)) ==> name_extension(final_name(name@)) == Some(ext@),
            forall|j: int| 0 <= j < i ==> graphic_extensions_spec()[j] != lower@,
        decreases known@.len() - i,
    {
        let k = chars_of(known[i]);
        if chars_eq(&k, &lower) {
            proof {
                assert(graphic_extensions_spec()[i as int] == lower@);
            }
            return true;
        }
        i = i + 1;
    }
    false
}

/// The symbolic variants of names: each name that does not end in
/// `-symbolic`, with `-symbolic` appended.
pub open spec fn symbolic_names_spec(names: Seq<Seq<char>>) -> Seq<Seq<char>> {
    names.filter(|n: Seq<char>| !ends_with_spec(n, "-symbolic"@)).map_values(|n: Seq<char>| n + "-symbolic"@)
}

/// The symbolic variants are the names that are not symbolic already, each
/// with `-symbolic` appended: every variant ends with `-symbolic` and what
/// precedes that suffix does not; every name that does not end with
/// `-symbolic` has its variant; and there are never more variants than names.
pub proof fn lemma_symbolic_names(names: Seq<Seq<char>>)
    ensures
        symbolic_names_spec(names).len() <= names.len(),
        forall|i: int|
            0 <= i < symbolic_names_spec(names).len() ==> {
                let v = #[trigger] symbolic_names_spec(names)[i];
                &&& v.len() >= 9
                &&& ends_with_spec(v, "-symbolic"@)
                &&& !ends_with_spec(v.subrange(0, v.len() - 9), "-symbolic"@)
            },
        forall|j: int|
            0 <= j < names.len() && !ends_with_spec(#[trigger] names[j], "-symbolic"@) ==> symbolic_names_spec(
                names,
            ).contains(names[j] + "-symbolic"@),
{
    reveal_strlit("-symbolic");
    let suffix = "-symbolic"@;
    let pred = |n: Seq<char>| !ends_with_spec(n, "-symbolic"@);
    let add = |n: Seq<char>| n + "-symbolic"@;
    let kept = names.filter(pred);
    #[allow(deprecated)]
    names.filter_lemma(pred);
    assert(symbolic_names_spec(names) == kept.map_values(add));
    assert forall|i: int| 0 <= i < symbolic_names_spec(names).len() implies {
        let v = #[trigger] symbolic_names_spec(names)[i];
        &&& v.len() >= 9
        &&& ends_with_spec(v, "-symbolic"@)
        &&& !ends_with_spec(v.subrange(0, v.len() - 9), "-symbolic"@)
    } by {
        let n = kept[i];
        let v = n + suffix;
        assert(symbolic_names_spec(names)[i] == v);
        assert(pred(n));
        assert(v.subrange(v.len() - suffix.len(), v.len() as int) =~= suffix);
        assert(v.subrange(0, v.len() - 9) =~= n);
    }
    assert forall|j: int|
        0 <= j < names.len() && !ends_with_spec(#[trigger] names[j], "-symbolic"@) implies symbolic_names_spec(
            names,
        ).contains(names[j] + "-symbolic"@) by {
        assert(pred(names[j]));
        assert(kept.contains(names[j]));
        let k = choose|k: int| 0 <= k < kept.len() && kept[k] == names[j];
        assert(symbolic_names_spec(names)[k] == names[j] + suffix);
    }
}

/// Computes the symbolic variants of names.
pub fn symbolic_names(names: &Vec<String>) -> (r: Vec<String>)
    ensures
        r@.map_values(|n: String| n@) == symbolic_names_spec(names@.map_values(|n: String| n@)),
{
    let ghost views = names@.map_values(|n: String| n@);
    let ghost pred = |n: Seq<char>| !ends_with_spec(n, "-symbolic"@);
    let ghost add_suffix = |n: Seq<char>| n + "-symbolic"@;
    let suffix = chars_of("-symbolic");
    let mut r: Vec<String> = Vec::new();
    let mut i: usize = 0;
    while i < names.len()
        invariant
            views == names@.map_values(|n: String| n@),
            pred == (|n: Seq<char>| !ends_with_spec(n, "-symbolic"@)),
            add_suffix == (|n: Seq<char>| n + "-symbolic"@),
            suffix@ == "-symbolic"@,
            i <= names@.len(),
            r@.map_values(|n: String| n@) == views.take(i as int).filter(pred).map_values(add_suffix),
        decreases names@.len() - i,
    {
        let chars = chars_of(names[i].as_str());
        let ghost before = r@.map_values(|n: String| n@);
        proof {
            assert(views.take(i + 1).drop_last() =~= views.take(i as int));
            assert(views.take(i + 1).last() == names@[i as int]@);
        }
        if !ends_with(&chars, &suffix) {
            let mut s = String::new();
            string_push_str(&mut s, names[i].as_str());
            string_push_str(&mut s, "-symbolic");
            r.push(s);
            proof {
                assert(views.take(i + 1).filter(pred) =~= views.take(i as int).filter(pred).push(names@[i as int]@)) by {
                    reveal(Seq::filter);
                }
                assert(r@.map_values(|n: String| n@) =~= before.push(names@[i as int]@ + "-symbolic"@));
            }
        } else {
            proof {
                assert(views.take(i + 1).filter(pred) =~= views.take(i as int).filter(pred)) by {
                    reveal(Seq::filter);
                }
            }
        }
        i = i + 1;
    }
    proof {
        assert(views.take(names@.len() as int) =~= views);
    }
    r
}

/// Whether a character has the Unicode White_Space property: U+0009 to
/// U+000D, U+0020, U+0085, U+00A0, U+1680, U+2000 to U+200A, U+2028,
/// U+2029, U+202F, U+205F and U+3000.
pub open spec fn is_white_space(c: char) -> bool {
    let n = c as u32;
    ||| 0x9 <= n <= 0xd
    ||| n == 0x20
    ||| n == 0x85
    ||| n == 0xa0
    ||| n == 0x1680
    ||| 0x2000 <= n <= 0x200a
    ||| n == 0x2028
    ||| n == 0x2029
    ||| n == 0x202f
    ||| n == 0x205f
    ||| n == 0x3000
}

/// A string without its leading White_Space characters.
pub open spec fn trim_start_spec(s: Seq<char>) -> Seq<char>
    decreases s.len(),
{
    if s.len() > 0 && is_white_space(s[0]) {
        trim_start_spec(s.drop_first())
    } else {
        s
    }
}

/// A string without its trailing White_Space characters.
pub open spec fn trim_end_spec(s: Seq<char>) -> Seq<char>
    decreases s.len(),
{
    if s.len() > 0 && is_white_space(s.last()) {
        trim_end_spec(s.drop_last())
    } else {
        s
    }
}

/// A string with leading and trailing whitespace removed, as `str::trim`
/// does it: whitespace is the Unicode White_Space property.
pub open spec fn trimmed(s: Seq<char>) -> Seq<char> {
    trim_end_spec(trim_start_spec(s))
}

/// A string of White_Space characters only (the empty one among them) trims
/// to nothing.
pub proof fn lemma_blank_trims_to_empty(s: Seq<char>)
    requires
        forall|i: int| 0 <= i < s.len() ==> is_white_space(#[trigger] s[i]),
    ensures
        trimmed(s).len() == 0,
    decreases s.len(),
{
    if s.len() > 0 {
        assert forall|i: int| 0 <= i < s.drop_first().len() implies is_white_space(
            #[trigger] s.drop_first()[i],
        ) by {
            assert(s.drop_first()[i] == s[i + 1]);
        }
        lemma_blank_trims_to_empty(s.drop_first());
        assert(trim_start_spec(s) == trim_start_spec(s.drop_first()));
    }
}

/// Removes leading and trailing whitespace (`str::trim`): the Unicode
/// White_Space characters at both ends.
#[verifier::external_body]
pub(crate) fn trim_str(s: &str) -> (r: &str)
    ensures
        r@ == trimmed(s@),
{
    s.trim()
}

/// Whether two paths are equal component by component, as `Path`'s `==`
/// decides it.
pub uninterp spec fn same_path_spec(a: Seq<char>, b: Seq<char>) -> bool;

/// Compares two paths component by component (`PartialEq` for
/// `std::path::Path`); a path is the same as itself.
#[verifier::external_body]
pub(crate) fn same_path(a: &str, b: &str) -> (r: bool)
    ensures
        r == same_path_spec(a@, b@),
        a@ == b@ ==> r,
{
    std::path::Path::new(a) == std::path::Path::new(b)
}

/// The views of a vector of strings.
pub open spec fn views(v: Seq<String>) -> Seq<Seq<char>> {
    v.map_values(|s: String| s@)
}

/// The pieces of a string between `:` separators (`str::split(':')`).
pub open spec fn split_colon(s: Seq<char>) -> Seq<Seq<char>>
    decreases s.len(),
{
    if s.len() == 0 {
        seq![Seq::empty()]
    } else if s.last() == ':' {
        split_colon(s.drop_last()).push(Seq::empty())
    } else {
        let p = split_colon(s.drop_last());
        p.update(p.len() - 1, p.last().push(s.last()))
    }
}

proof fn lemma_split_nonempty(s: Seq<char>)
    ensures
        split_colon(s).len() >= 1,
    decreases s.len(),
{
    if s.len() > 0 {
        lemma_split_nonempty(s.drop_last());
    }
}

/// Splits a string at `:` separators.
pub fn split_on_colon(s: &str) -> (pieces: Vec<String>)
    ensures
        views(pieces@) == split_colon(s@),
{
    let chars = chars_of(s);
    let mut pieces: Vec<String> = Vec::new();
    let mut current: Vec<char> = Vec::new();
    let mut i: usize = 0;
    while i < chars.len()
        invariant
            chars@ == s@,
            i <= chars@.len(),
            views(pieces@).push(current@) == split_colon(s@.take(i as int)),
        decreases chars@.len() - i,
    {
        let ghost before = views(pieces@);
        let ghost cur = current@;
        proof {
            assert(s@.take(i + 1).drop_last() =~= s@.take(i as int));
            lemma_split_nonempty(s@.take(i as int));
        }
        if chars[i] == ':' {
            let piece = string_of(&current);
            pieces.push(piece);
            current = Vec::new();
            proof {
                assert(views(pieces@) =~= before.push(cur));
            }
        } else {
            current.push(chars[i]);
            proof {
                let p = split_colon(s@.take(i as int));
                assert(p =~= before.push(cur));
                assert(before.push(cur).update(before.len() as int, cur.push(chars@[i as int])) =~= before.push(current@));
            }
        }
        i = i + 1;
    }
    let last = string_of(&current);
    let ghost before = views(pieces@);
    pieces.push(last);
    proof {
        assert(views(pieces@) =~= before.push(current@));
        assert(s@.take(chars@.len() as int) =~= s@);
    }
    pieces
}

/// The XDG directories that may hold icons, before checking that they
/// exist: `$HOME/.icons`; `$XDG_DATA_HOME/icons`, else
/// `$HOME/.local/share/icons`; `icons` under each non-blank entry of
/// `$XDG_DATA_DIRS`, else under `/usr/local/share` and `/usr/share`; the
/// user's Flatpak export and appstream icons; the system Flatpak export and
/// appstream icons; `/usr/share/pixmaps`; and `$HOME/.local/share/pixmaps`.
pub open spec fn root_candidates_spec(
    home: Option<Seq<char>>,
    data_home: Option<Seq<char>>,
    data_dirs: Option<Seq<char>>,
) -> Seq<Seq<char>> {
    let user_icons: Seq<Seq<char>> = match home {
        Some(h) => seq![join_spec(h, ".icons"@)],
        None => seq![],
    };
    let data: Seq<Seq<char>> = match data_home {
        Some(d) => seq![join_spec(d, "icons"@)],
        None => match home {
            Some(h) => seq![join_spec(h, ".local/share/icons"@)],
            None => seq![],
        },
    };
    let system: Seq<Seq<char>> = match data_dirs {
        Some(dd) => split_colon(dd).filter(|p: Seq<char>| trimmed(p).len() > 0).map_values(
            |p: Seq<char>| join_spec(p, "icons"@),
        ),
        None => seq!["/usr/local/share/icons"@, "/usr/share/icons"@],
    };
    let flatpak_user: Seq<Seq<char>> = match home {
        Some(h) => seq![
            join_spec(h, ".local/share/flatpak/exports/share/icons"@),
            join_spec(h, ".local/share/flatpak/appstream/flathub/x86_64/active/icons"@),
        ],
        None => seq![],
    };
    let fixed: Seq<Seq<char>> = seq![
        "/var/lib/flatpak/exports/share/icons"@,
        "/var/lib/flatpak/appstream/flathub/x86_64/active/icons"@,
        "/usr/share/pixmaps"@,
    ];
    let user_pixmaps: Seq<Seq<char>> = match home {
        Some(h) => seq![join_spec(h, ".local/share/pixmaps"@)],
        None => seq![],
    };
    user_icons + data + system + flatpak_user + fixed + user_pixmaps
}

/// The user roots come first: with `HOME` set, `~/.icons` is the first
/// candidate; the user data root follows it (or comes first without
/// `HOME`), and it is `$XDG_DATA_HOME/icons` whenever `XDG_DATA_HOME` is
/// set, whatever `HOME` is, falling back to `~/.local/share/icons` only
/// where it is not set.
pub proof fn lemma_user_data_root(home: Option<Seq<char>>, data_home: Option<Seq<char>>, data_dirs: Option<Seq<char>>)
    ensures
        home matches Some(h) ==> root_candidates_spec(home, data_home, data_dirs)[0] == join_spec(h, ".icons"@),
        data_home matches Some(d) ==> root_candidates_spec(home, data_home, data_dirs)[if home is Some {
            1int
        } else {
            0int
        }] == join_spec(d, "icons"@),
        (data_home is None && home is Some) ==> root_candidates_spec(home, data_home, data_dirs)[1]
            == join_spec(home->0, ".local/share/icons"@),
{
}

/// Appends the string built from a literal.
fn push_literal(v: &mut Vec<String>, lit: &str)
    ensures
        views(final(v)@) == views(old(v)@).push(lit@),
{
    let mut s = String::new();
    string_push_str(&mut s, lit);
    let ghost before = views(v@);
    v.push(s);
    proof {
        assert(s@ =~= lit@);
        assert(views(v@) =~= before.push(lit@));
    }
}

/// Appends `dir` joined with `name`.
fn push_joined(v: &mut Vec<String>, dir: &str, name: &str)
    ensures
        views(final(v)@) == views(old(v)@).push(join_spec(dir@, name@)),
{
    let p = path_join(dir, name);
    let ghost before = views(v@);
    v.push(p);
    proof {
        assert(views(v@) =~= before.push(join_spec(dir@, name@)));
    }
}

/// Lists the XDG directories that may hold icons, in search order, from the
/// values of `HOME`, `XDG_DATA_HOME` and `XDG_DATA_DIRS`.
pub fn root_candidates(home: Option<&str>, data_home: Option<&str>, data_dirs: Option<&str>) -> (roots: Vec<String>)
    ensures
        views(roots@) == root_candidates_spec(
            match home {
                Some(h) => Some(h@),
                None => None,
            },
            match data_home {
                Some(d) => Some(d@),
                None => None,
            },
            match data_dirs {
                Some(d) => Some(d@),
                None => None,
            },
        ),
{
    let mut roots: Vec<String> = Vec::new();
    let ghost s0 = views(roots@);
    if let Some(h) = home {
        push_joined(&mut roots, h, ".icons");
    }
    let ghost s1 = views(roots@);
    if let Some(d) = data_home {
        push_joined(&mut roots, d, "icons");
    } else if let Some(h) = home {
        push_joined(&mut roots, h, ".local/share/icons");
    }
    let ghost s2 = views(roots@);
    if let Some(dd) = data_dirs {
        let pieces = split_on_colon(dd);
        let ghost pred = |p: Seq<char>| trimmed(p).len() > 0;
        let ghost f = |p: Seq<char>| join_spec(p, "icons"@);
        let mut i: usize = 0;
        while i < pieces.len()
            invariant
                pred == (|p: Seq<char>| trimmed(p).len() > 0),
                f == (|p: Seq<char>| join_spec(p, "icons"@)),
                i <= pieces@.len(),
                views(roots@) == s2 + views(pieces@).take(i as int).filter(pred).map_values(f),
            decreases pieces@.len() - i,
        {
            let ghost before = views(roots@);
            proof {
                assert(views(pieces@).take(i + 1).drop_last() =~= views(pieces@).take(i as int));
                assert(views(pieces@).take(i + 1).last() == pieces@[i as int]@);
            }
            let t = trim_str(pieces[i].as_str());
            if t.unicode_len() > 0 {
                push_joined(&mut roots, pieces[i].as_str(), "icons");
                proof {
                    assert(views(pieces@).take(i + 1).filter(pred) =~= views(pieces@).take(i as int).filter(pred).push(pieces@[i as int]@)) by {
                        reveal(Seq::filter);
                    }
                    assert(views(roots@) =~= s2 + views(pieces@).take(i + 1).filter(pred).map_values(f));
                }
            } else {
                proof {
                    assert(views(pieces@).take(i + 1).filter(pred) =~= views(pieces@).take(i as int).filter(pred)) by {
                        reveal(Seq::filter);
                    }
                }
            }
            i = i + 1;
        }
        proof {
            assert(views(pieces@).take(pieces@.len() as int) =~= views(pieces@));
        }
    } else {
        push_literal(&mut roots, "/usr/local/share/icons");
        push_literal(&mut roots, "/usr/share/icons");
    }
    let ghost s3 = views(roots@);
    if let Some(h) = home {
        push_joined(&mut roots, h, ".local/share/flatpak/exports/share/icons");
        push_joined(&mut roots, h, ".local/share/flatpak/appstream/flathub/x86_64/active/icons");
    }
    let ghost s4 = views(roots@);
    push_literal(&mut roots, "/var/lib/flatpak/exports/share/icons");
    push_literal(&mut roots, "/var/lib/flatpak/appstream/flathub/x86_64/active/icons");
    push_literal(&mut roots, "/usr/share/pixmaps");
    let ghost s5 = views(roots@);
    if let Some(h) = home {
        push_joined(&mut roots, h, ".local/share/pixmaps");
    }
    proof {
        let hv = match home { Some(h) => Some(h@), None => None };
        let dv = match data_home { Some(d) => Some(d@), None => None };
        let ddv = match data_dirs { Some(d) => Some(d@), None => None };
        assert(views(roots@) =~= root_candidates_spec(hv, dv, ddv));
    }
    roots
}

/// The first occurrence of each path of `v`, in order, paths being the same
/// when `same_path_spec` says so.
pub open spec fn dedup_paths_spec(v: Seq<Seq<char>>) -> Seq<Seq<char>>
    decreases v.len(),
{
    if v.len() == 0 {
        Seq::empty()
    } else {
        let d = dedup_paths_spec(v.drop_last());
        if exists|j: int| 0 <= j < d.len() && same_path_spec(#[trigger] d[j], v.last()) {
            d
        } else {
            d.push(v.last())
        }
    }
}

/// The candidates kept by a directory report: `kept[i]` says whether
/// `candidates[i]` was reported as an existing directory.
pub open spec fn kept_candidates(candidates: Seq<Seq<char>>, kept: Seq<bool>) -> Seq<Seq<char>>
    decreases candidates.len(),
{
    if candidates.len() == 0 || kept.len() != candidates.len() {
        Seq::empty()
    } else {
        let rest = kept_candidates(candidates.drop_last(), kept.drop_last());
        if kept.last() {
            rest.push(candidates.last())
        } else {
            rest
        }
    }
}

/// Keeps the candidate roots that the directory probe reports as existing,
/// then drops later duplicates of a path: the result is the first
/// occurrence of each kept path, in order.
pub fn icon_search_roots_with<D: Fn(String) -> bool>(candidates: Vec<String>, is_dir: &D) -> (roots: Vec<String>)
    requires
        forall|s: String| is_dir.requires((s,)),
    ensures
        exists|kept: Seq<bool>|
            {
                &&& kept.len() == candidates@.len()
                &&& forall|i: int|
                    0 <= i < kept.len() ==> #[trigger] is_dir.ensures((candidates@[i],), kept[i])
                &&& views(roots@) == dedup_paths_spec(kept_candidates(views(candidates@), kept))
            },
{
    let mut roots: Vec<String> = Vec::new();
    let ghost mut kept: Seq<bool> = Seq::empty();
    let mut i: usize = 0;
    while i < candidates.len()
        invariant
            forall|s: String| is_dir.requires((s,)),
            i <= candidates@.len(),
            kept.len() == i,
            forall|k: int| 0 <= k < i ==> #[trigger] is_dir.ensures((candidates@[k],), kept[k]),
            views(roots@) == dedup_paths_spec(kept_candidates(views(candidates@).take(i as int), kept)),
        decreases candidates@.len() - i,
    {
        let c = candidates[i].clone();
        let ok = is_dir(c.clone());
        let ghost before = views(roots@);
        let ghost pre = views(candidates@).take(i as int);
        proof {
            assert(views(candidates@).take(i + 1).drop_last() =~= pre);
            assert(views(candidates@).take(i + 1).last() == c@);
            assert(kept.push(ok).drop_last() =~= kept);
        }
        if ok {
            let mut seen = false;
            let mut j: usize = 0;
            while j < roots.len()
                invariant
                    views(roots@) == before,
                    j <= roots@.len(),
                    seen <==> exists|k: int| 0 <= k < j && same_path_spec(#[trigger] before[k], c@),
                decreases roots@.len() - j,
            {
                if same_path(roots[j].as_str(), c.as_str()) {
                    seen = true;
                    proof {
                        assert(before[j as int] == roots@[j as int]@);
                    }
                }
                proof {
                    assert(before[j as int] == roots@[j as int]@);
                }
                j = j + 1;
            }
            if !seen {
                roots.push(c);
                proof {
                    assert(views(roots@) =~= before.push(c@));
                }
            }
        }
        proof {
            kept = kept.push(ok);
            assert(kept_candidates(views(candidates@).take(i + 1), kept) == if ok {
                kept_candidates(pre, kept.drop_last()).push(c@)
            } else {
                kept_candidates(pre, kept.drop_last())
            });
            let kk = kept_candidates(pre, kept.drop_last());
            if ok {
                assert(kk.push(c@).drop_last() =~= kk);
                assert(kk.push(c@).last() == c@);
                assert(dedup_paths_spec(kk.push(c@)) == if exists|j: int|
                    0 <= j < before.len() && same_path_spec(#[trigger] before[j], c@) {
                    before
                } else {
                    before.push(c@)
                });
            }
        }
        i = i + 1;
    }
    proof {
        assert(views(candidates@).take(candidates@.len() as int) =~= views(candidates@));
    }
    roots
}

} // verus!
