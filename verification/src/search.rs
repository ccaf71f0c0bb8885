//! The icon search: the ordered program of file system probes that resolves
//! an icon name, what the program returns for any answers to its probes,
//! and the search that runs it.

use vstd::prelude::*;
use crate::lookup::{
    candidate_names_spec, ends_with_spec, has_graphic_ext_spec, icon_categories_spec,
    icon_categories, icon_extensions, icon_extensions_spec, icon_sizes, icon_sizes_spec, icon_themes, icon_themes_spec, is_pixmaps_root,
    candidate_names, chars_of, ends_with, has_graphic_ext, join_spec, path_ends_with, path_join,
    symbolic_names, symbolic_names_spec, trim_str, trimmed, views,
};
use crate::cache::LookupCache;
use crate::text::{string_push, string_push_str};

verus! {

/// One step of the search.
pub enum Probe {
    /// Ask whether a path is a file; the search ends there if it is.
    File(Seq<char>),
    /// Ask whether a path is a directory; if it is not, skip the next `n` steps.
    Dir(Seq<char>, nat),
    /// List a directory and end the search at its first entry named
    /// `*.{name}.{ext}` (the second field is `name`).
    Listing(Seq<char>, Seq<char>),
}

/// What the file system answered: whether a path is a file, whether a path
/// is a directory, and what a directory lists.
pub type Oracle = (
    spec_fn(Seq<char>, bool) -> bool,
    spec_fn(Seq<char>, bool) -> bool,
    spec_fn(Seq<char>, Seq<Seq<char>>) -> bool,
);

/// Whether a listed entry is a reverse-DNS file for `name`: it ends with
/// `.{name}.{ext}` for an icon extension.
pub open spec fn is_reverse_dns_entry(entry: Seq<char>, name: Seq<char>) -> bool {
    exists|j: int|
        0 <= j < icon_extensions_spec().len() && ends_with_spec(
            entry,
            "."@ + name + "."@ + #[trigger] icon_extensions_spec()[j],
        )
}

/// Index of the first reverse-DNS entry for `name` at or after `k`.
pub open spec fn first_reverse_dns(listing: Seq<Seq<char>>, name: Seq<char>, k: int) -> Option<int>
    decreases listing.len() - k,
{
    if k < 0 || k >= listing.len() {
        None
    } else if is_reverse_dns_entry(listing[k], name) {
        Some(k)
    } else {
        first_reverse_dns(listing, name, k + 1)
    }
}

/// Whether a search program, given the answers `o`, ends with `r`: the first
/// file probe answered yes gives its path, a directory answered no skips
/// its block, and a listing with a reverse-DNS entry gives that entry's path.
pub open spec fn runs(o: Oracle, prog: Seq<Probe>, r: Option<Seq<char>>) -> bool
    decreases prog.len(),
{
    if prog.len() == 0 {
        r is None
    } else {
        let rest = prog.drop_first();
        match prog[0] {
            Probe::File(p) => ((o.0)(p, true) && r == Some(p)) || ((o.0)(p, false) && runs(o, rest, r)),
            Probe::Dir(d, n) => ((o.1)(d, true) && runs(o, rest, r)) || ((o.1)(d, false) && n
                <= rest.len() && runs(o, rest.skip(n as int), r)),
            Probe::Listing(d, name) => (exists|listing: Seq<Seq<char>>|
                #[trigger] (o.2)(d, listing) && first_reverse_dns(listing, name, 0) is Some && r
                    == Some(join_spec(d, listing[first_reverse_dns(listing, name, 0)->0]))) || ((
            exists|listing: Seq<Seq<char>>|
                #[trigger] (o.2)(d, listing) && first_reverse_dns(listing, name, 0) is None) && runs(
                o,
                rest,
                r,
            )),
        }
    }
}

/// A stretch of the program that the answers pass over: whatever follows it
/// decides the result.
pub open spec fn passes(o: Oracle, seg: Seq<Probe>) -> bool {
    forall|after: Seq<Probe>, x: Option<Seq<char>>|
        #![trigger runs(o, seg + after, x)]
        runs(o, after, x) ==> runs(o, seg + after, x)
}

/// A stretch of the program at which the search ends with `p`, whatever
/// follows it.
pub open spec fn hits(o: Oracle, seg: Seq<Probe>, p: Seq<char>) -> bool {
    forall|after: Seq<Probe>| #[trigger] runs(o, seg + after, Some(p))
}

/// A check of `dir` that guards the probes of `inner`.
pub open spec fn guarded(dir: Seq<char>, inner: Seq<Probe>) -> Seq<Probe> {
    seq![Probe::Dir(dir, inner.len())] + inner
}

/// The probe of `name.ext` in `dir`, for each extension `ext`.
pub open spec fn ext_fn(dir: Seq<char>, name: Seq<char>) -> spec_fn(Seq<char>) -> Seq<Probe> {
    |e: Seq<char>| seq![Probe::File(join_spec(dir, name + "."@ + e))]
}

/// The file probes for a name in a directory: the bare name, then, unless
/// the looked-up name has a graphic extension, the name with each icon
/// extension.
pub open spec fn variant_probes(dir: Seq<char>, name: Seq<char>, has_ext: bool) -> Seq<Probe> {
    seq![Probe::File(join_spec(dir, name))] + if has_ext {
        Seq::empty()
    } else {
        icon_extensions_spec().flat_map(ext_fn(dir, name))
    }
}

/// The file probes of each name in `dir`.
pub open spec fn variant_fn(dir: Seq<char>, has_ext: bool) -> spec_fn(Seq<char>) -> Seq<Probe> {
    |n: Seq<char>| variant_probes(dir, n, has_ext)
}

/// The probes for each name, in order, in one directory.
pub open spec fn names_in_dir(dir: Seq<char>, names: Seq<Seq<char>>, has_ext: bool) -> Seq<Probe> {
    names.flat_map(variant_fn(dir, has_ext))
}

/// The pixmaps probes of one root: the names in it when it is a pixmaps
/// root, else nothing.
pub open spec fn pixmaps_fn(names: Seq<Seq<char>>, has_ext: bool) -> spec_fn(Seq<char>) -> Seq<Probe> {
    |r: Seq<char>|
        if is_pixmaps_root(r) {
            names_in_dir(r, names, has_ext)
        } else {
            Seq::empty()
        }
}

/// The pixmaps phase: every candidate name in each pixmaps root.
pub open spec fn pixmaps_part(roots: Seq<Seq<char>>, names: Seq<Seq<char>>, has_ext: bool) -> Seq<Probe> {
    roots.flat_map(pixmaps_fn(names, has_ext))
}

/// The probes of one category under one size of a theme directory, in the
/// `<size>/<category>` then the `<category>/<size>` layout.
pub open spec fn category_fn(theme_root: Seq<char>, size: Seq<char>, name: Seq<char>, has_ext: bool) -> spec_fn(
    Seq<char>,
) -> Seq<Probe> {
    |c: Seq<char>|
        variant_probes(join_spec(join_spec(theme_root, size), c), name, has_ext) + variant_probes(
            join_spec(join_spec(theme_root, c), size),
            name,
            has_ext,
        )
}

/// The probes of every category under one size of a theme directory.
pub open spec fn size_fn(theme_root: Seq<char>, name: Seq<char>, has_ext: bool) -> spec_fn(Seq<char>) -> Seq<Probe> {
    |s: Seq<char>| icon_categories_spec().flat_map(category_fn(theme_root, s, name, has_ext))
}

/// The probes for one name under a theme directory: each size and category,
/// in both layouts.
pub open spec fn theme_dir_probes(theme_root: Seq<char>, name: Seq<char>, has_ext: bool) -> Seq<Probe> {
    icon_sizes_spec().flat_map(size_fn(theme_root, name, has_ext))
}

/// The theme block of one name, theme and root: nothing for a pixmaps root,
/// else the theme directory's probes guarded by its existence.
pub open spec fn theme_block(root: Seq<char>, theme: Seq<char>, name: Seq<char>, has_ext: bool) -> Seq<Probe> {
    if is_pixmaps_root(root) {
        Seq::empty()
    } else {
        guarded(join_spec(root, theme), theme_dir_probes(join_spec(root, theme), name, has_ext))
    }
}

/// The theme blocks of one theme and name, root by root.
pub open spec fn block_fn(theme: Seq<char>, name: Seq<char>, has_ext: bool) -> spec_fn(Seq<char>) -> Seq<Probe> {
    |r: Seq<char>| theme_block(r, theme, name, has_ext)
}

/// The theme blocks of one name, theme by theme.
pub open spec fn theme_fn(roots: Seq<Seq<char>>, name: Seq<char>, has_ext: bool) -> spec_fn(Seq<char>) -> Seq<
    Probe,
> {
    |t: Seq<char>| roots.flat_map(block_fn(t, name, has_ext))
}

/// The theme blocks, name by name.
pub open spec fn theme_name_fn(roots: Seq<Seq<char>>, has_ext: bool) -> spec_fn(Seq<char>) -> Seq<Probe> {
    |n: Seq<char>| icon_themes_spec().flat_map(theme_fn(roots, n, has_ext))
}

/// The theme tree phase: for each name, theme and root, its theme block.
pub open spec fn theme_part(roots: Seq<Seq<char>>, names: Seq<Seq<char>>, has_ext: bool) -> Seq<Probe> {
    names.flat_map(theme_name_fn(roots, has_ext))
}

/// The names in `<root>/<size>`, guarded by its existence.
pub open spec fn size_dir_fn(root: Seq<char>, names: Seq<Seq<char>>, has_ext: bool) -> spec_fn(Seq<char>) -> Seq<
    Probe,
> {
    |s: Seq<char>| guarded(join_spec(root, s), names_in_dir(join_spec(root, s), names, has_ext))
}

/// The size directories of one root.
pub open spec fn size_root_fn(names: Seq<Seq<char>>, has_ext: bool) -> spec_fn(Seq<char>) -> Seq<Probe> {
    |r: Seq<char>| icon_sizes_spec().flat_map(size_dir_fn(r, names, has_ext))
}

/// The size directory phase: for each root and size, the names in
/// `<root>/<size>`, guarded by its existence.
pub open spec fn size_part(roots: Seq<Seq<char>>, names: Seq<Seq<char>>, has_ext: bool) -> Seq<Probe> {
    roots.flat_map(size_root_fn(names, has_ext))
}

/// The listings of one category under one size of a theme directory, in
/// both layouts.
pub open spec fn listing_category_fn(theme_root: Seq<char>, size: Seq<char>, name: Seq<char>) -> spec_fn(
    Seq<char>,
) -> Seq<Probe> {
    |c: Seq<char>|
        seq![
            Probe::Listing(join_spec(join_spec(theme_root, size), c), name),
            Probe::Listing(join_spec(join_spec(theme_root, c), size), name),
        ]
}

/// The listings of every category under one size of a theme directory.
pub open spec fn listing_size_fn(theme_root: Seq<char>, name: Seq<char>) -> spec_fn(Seq<char>) -> Seq<Probe> {
    |s: Seq<char>| icon_categories_spec().flat_map(listing_category_fn(theme_root, s, name))
}

/// The listings of one theme directory, in both layouts.
pub open spec fn theme_listings(theme_root: Seq<char>, name: Seq<char>) -> Seq<Probe> {
    icon_sizes_spec().flat_map(listing_size_fn(theme_root, name))
}

/// The listings of one theme of a root, guarded by the theme directory's
/// existence.
pub open spec fn listing_theme_fn(root: Seq<char>, name: Seq<char>) -> spec_fn(Seq<char>) -> Seq<Probe> {
    |t: Seq<char>| guarded(join_spec(root, t), theme_listings(join_spec(root, t), name))
}

/// The listings of one root: nothing for a pixmaps root, else those of each
/// theme.
pub open spec fn listing_root_fn(name: Seq<char>) -> spec_fn(Seq<char>) -> Seq<Probe> {
    |r: Seq<char>|
        if is_pixmaps_root(r) {
            Seq::empty()
        } else {
            icon_themes_spec().flat_map(listing_theme_fn(r, name))
        }
}

/// The reverse-DNS phase: for each non-pixmaps root and theme, the listings
/// of its theme directory, guarded by its existence.
pub open spec fn listing_part(roots: Seq<Seq<char>>, name: Seq<char>) -> Seq<Probe> {
    roots.flat_map(listing_root_fn(name))
}

/// Whether a name holds a `.`.
pub open spec fn has_dot(name: Seq<char>) -> bool {
    exists|i: int| 0 <= i < name.len() && name[i] == '.'
}

/// The whole search for a name over the given roots:
/// 1. the name itself, as a path;
/// 2. the pixmaps roots, for the candidate names;
/// 3. the theme trees, for the candidate names;
/// 4. the `<root>/<size>` directories, for the candidate names;
/// 5. for a name without `.`, reverse-DNS files listed in the theme trees;
/// 6. the theme trees, for the `-symbolic` variants of the candidate names.
pub open spec fn search_program(name: Seq<char>, roots: Seq<Seq<char>>) -> Seq<Probe> {
    let names = candidate_names_spec(name);
    let has_ext = has_graphic_ext_spec(name);
    let symbolic = symbolic_names_spec(names);
    seq![Probe::File(name)] + pixmaps_part(roots, names, has_ext) + theme_part(roots, names, has_ext)
        + size_part(roots, names, has_ext) + (if has_dot(name) {
        Seq::empty()
    } else {
        listing_part(roots, name)
    }) + (if symbolic.len() > 0 {
        theme_part(roots, symbolic, has_ext)
    } else {
        Seq::empty()
    })
}

/// What a stretch of the program settles, given the answers: with `None`
/// the search passes over it, with `Some(p)` the search ends there with `p`.
pub open spec fn settles(o: Oracle, seg: Seq<Probe>, r: Option<Seq<char>>) -> bool {
    &&& r is None ==> passes(o, seg)
    &&& r matches Some(p) ==> hits(o, seg, p)
}

// ------------------------------------------------------------------------
// Facts about passing over and hitting stretches of a program.

/// The search passes over an empty stretch.
pub proof fn lemma_passes_empty(o: Oracle)
    ensures
        passes(o, Seq::empty()),
{
    assert forall|after: Seq<Probe>, x: Option<Seq<char>>| runs(o, after, x) implies #[trigger] runs(
        o,
        Seq::<Probe>::empty() + after,
        x,
    ) by {
        assert(Seq::<Probe>::empty() + after =~= after);
    }
}

/// The search passes over two stretches that it passes over one by one.
pub proof fn lemma_passes_concat(o: Oracle, a: Seq<Probe>, b: Seq<Probe>)
    requires
        passes(o, a),
        passes(o, b),
    ensures
        passes(o, a + b),
{
    assert forall|after: Seq<Probe>, x: Option<Seq<char>>| runs(o, after, x) implies #[trigger] runs(
        o,
        (a + b) + after,
        x,
    ) by {
        assert(runs(o, b + after, x));
        assert(runs(o, a + (b + after), x));
        assert((a + b) + after =~= a + (b + after));
    }
}

/// A hit after a stretch that the search passes over is a hit of both.
pub proof fn lemma_hits_after_passes(o: Oracle, a: Seq<Probe>, b: Seq<Probe>, p: Seq<char>)
    requires
        passes(o, a),
        hits(o, b, p),
    ensures
        hits(o, a + b, p),
{
    assert forall|after: Seq<Probe>| #[trigger] runs(o, (a + b) + after, Some(p)) by {
        assert(runs(o, b + after, Some(p)));
        assert(runs(o, a + (b + after), Some(p)));
        assert((a + b) + after =~= a + (b + after));
    }
}

/// A hit stays a hit whatever follows it.
pub proof fn lemma_hits_extend(o: Oracle, a: Seq<Probe>, b: Seq<Probe>, p: Seq<char>)
    requires
        hits(o, a, p),
    ensures
        hits(o, a + b, p),
{
    assert forall|after: Seq<Probe>| #[trigger] runs(o, (a + b) + after, Some(p)) by {
        assert(runs(o, a + (b + after), Some(p)));
        assert((a + b) + after =~= a + (b + after));
    }
}

/// A file probe answered yes hits its path; answered no, the search passes
/// over it.
pub proof fn lemma_file_answer(o: Oracle, p: Seq<char>, b: bool)
    requires
        (o.0)(p, b),
    ensures
        b ==> hits(o, seq![Probe::File(p)], p),
        !b ==> passes(o, seq![Probe::File(p)]),
{
    let s = seq![Probe::File(p)];
    if b {
        assert forall|after: Seq<Probe>| #[trigger] runs(o, s + after, Some(p)) by {
            assert((s + after)[0] == Probe::File(p));
        }
    } else {
        assert forall|after: Seq<Probe>, x: Option<Seq<char>>| runs(o, after, x) implies #[trigger] runs(
            o,
            s + after,
            x,
        ) by {
            assert((s + after).drop_first() =~= after);
            assert((s + after)[0] == Probe::File(p));
        }
    }
}

/// A guarded block whose directory is absent is passed over.
pub proof fn lemma_dir_absent(o: Oracle, d: Seq<char>, inner: Seq<Probe>)
    requires
        (o.1)(d, false),
    ensures
        passes(o, guarded(d, inner)),
{
    let g = guarded(d, inner);
    assert forall|after: Seq<Probe>, x: Option<Seq<char>>| runs(o, after, x) implies #[trigger] runs(
        o,
        g + after,
        x,
    ) by {
        assert((g + after)[0] == Probe::Dir(d, inner.len()));
        assert((g + after).drop_first() =~= inner + after);
        assert((inner + after).skip(inner.len() as int) =~= after);
    }
}

/// A guarded block whose directory is present settles as its probes do.
pub proof fn lemma_dir_present(o: Oracle, d: Seq<char>, inner: Seq<Probe>, r: Option<Seq<char>>)
    requires
        (o.1)(d, true),
        r is None ==> passes(o, inner),
        r matches Some(p) ==> hits(o, inner, p),
    ensures
        r is None ==> passes(o, guarded(d, inner)),
        r matches Some(p) ==> hits(o, guarded(d, inner), p),
{
    let g = guarded(d, inner);
    if let Some(p) = r {
        assert forall|after: Seq<Probe>| #[trigger] runs(o, g + after, Some(p)) by {
            assert((g + after)[0] == Probe::Dir(d, inner.len()));
            assert((g + after).drop_first() =~= inner + after);
            assert(runs(o, inner + after, Some(p)));
        }
    } else {
        assert forall|after: Seq<Probe>, x: Option<Seq<char>>| runs(o, after, x) implies #[trigger] runs(
            o,
            g + after,
            x,
        ) by {
            assert((g + after)[0] == Probe::Dir(d, inner.len()));
            assert((g + after).drop_first() =~= inner + after);
            assert(runs(o, inner + after, x));
        }
    }
}

/// A listing with a reverse-DNS entry hits the first such entry; one
/// without is passed over.
pub proof fn lemma_listing_answer(o: Oracle, d: Seq<char>, name: Seq<char>, listing: Seq<Seq<char>>)
    requires
        (o.2)(d, listing),
    ensures
        first_reverse_dns(listing, name, 0) matches Some(k) ==> hits(
            o,
            seq![Probe::Listing(d, name)],
            join_spec(d, listing[k]),
        ),
        first_reverse_dns(listing, name, 0) is None ==> passes(o, seq![Probe::Listing(d, name)]),
{
    let s = seq![Probe::Listing(d, name)];
    if let Some(k) = first_reverse_dns(listing, name, 0) {
        assert forall|after: Seq<Probe>| #[trigger] runs(o, s + after, Some(join_spec(d, listing[k]))) by {
            let prog = s + after;
            assert(prog[0] == Probe::Listing(d, name));
            assert(prog[0]->Listing_0 == d);
            assert(prog[0]->Listing_1 == name);
            assert((o.2)(d, listing));
        }
    } else {
        assert forall|after: Seq<Probe>, x: Option<Seq<char>>| runs(o, after, x) implies #[trigger] runs(
            o,
            s + after,
            x,
        ) by {
            let prog = s + after;
            assert(prog[0] == Probe::Listing(d, name));
            assert(prog[0]->Listing_0 == d);
            assert(prog[0]->Listing_1 == name);
            assert(prog.drop_first() =~= after);
            assert((o.2)(d, listing));
        }
    }
}

/// Splitting a flat map at `k`.
pub proof fn lemma_flat_map_split<A, B>(items: Seq<A>, f: spec_fn(A) -> Seq<B>, k: int)
    requires
        0 <= k <= items.len(),
    ensures
        items.flat_map(f) == items.take(k).flat_map(f) + items.skip(k).flat_map(f),
{
    assert(items.map_values(f) =~= items.take(k).map_values(f) + items.skip(k).map_values(f));
    vstd::seq_lib::lemma_flatten_concat(items.take(k).map_values(f), items.skip(k).map_values(f));
}

/// The stretch of a flat map over its first `i + 1` items.
pub proof fn lemma_flat_map_step<A, B>(items: Seq<A>, f: spec_fn(A) -> Seq<B>, i: int)
    requires
        0 <= i < items.len(),
    ensures
        items.take(i + 1).flat_map(f) == items.take(i).flat_map(f) + f(items[i]),
{
    items.lemma_flat_map_take_append(f, i);
}

/// Loop step: passing over the first `i` items and over item `i` passes over
/// the first `i + 1`.
pub proof fn lemma_loop_pass<A>(o: Oracle, items: Seq<A>, f: spec_fn(A) -> Seq<Probe>, i: int)
    requires
        0 <= i < items.len(),
        passes(o, items.take(i).flat_map(f)),
        passes(o, f(items[i])),
    ensures
        passes(o, items.take(i + 1).flat_map(f)),
{
    lemma_flat_map_step(items, f, i);
    lemma_passes_concat(o, items.take(i).flat_map(f), f(items[i]));
}

/// Loop exit: passing over the first `i` items and hitting at item `i` hits
/// the whole flat map.
pub proof fn lemma_loop_hit<A>(o: Oracle, items: Seq<A>, f: spec_fn(A) -> Seq<Probe>, i: int, p: Seq<char>)
    requires
        0 <= i < items.len(),
        passes(o, items.take(i).flat_map(f)),
        hits(o, f(items[i]), p),
    ensures
        hits(o, items.flat_map(f), p),
{
    lemma_flat_map_step(items, f, i);
    lemma_hits_after_passes(o, items.take(i).flat_map(f), f(items[i]), p);
    lemma_flat_map_split(items, f, i + 1);
    lemma_hits_extend(o, items.take(i + 1).flat_map(f), items.skip(i + 1).flat_map(f), p);
}

/// Loop end: passing over all items passes over the flat map.
pub proof fn lemma_loop_done<A>(o: Oracle, items: Seq<A>, f: spec_fn(A) -> Seq<Probe>)
    requires
        passes(o, items.take(items.len() as int).flat_map(f)),
    ensures
        passes(o, items.flat_map(f)),
{
    assert(items.take(items.len() as int) =~= items);
}

/// Loop start: nothing is passed over yet.
pub proof fn lemma_loop_start<A>(o: Oracle, items: Seq<A>, f: spec_fn(A) -> Seq<Probe>)
    ensures
        passes(o, items.take(0).flat_map(f)),
{
    assert(items.take(0).map_values(f) =~= Seq::<Seq<Probe>>::empty());
    assert(items.take(0).flat_map(f) =~= Seq::<Probe>::empty());
    lemma_passes_empty(o);
}

/// Loop step: passing over the first `i` items, what item `i` settles
/// either passes over the first `i + 1` or hits the whole flat map.
pub proof fn lemma_loop_item<A>(
    o: Oracle,
    items: Seq<A>,
    f: spec_fn(A) -> Seq<Probe>,
    i: int,
    r: Option<Seq<char>>,
)
    requires
        0 <= i < items.len(),
        passes(o, items.take(i).flat_map(f)),
        settles(o, f(items[i]), r),
    ensures
        r is None ==> passes(o, items.take(i + 1).flat_map(f)),
        r matches Some(p) ==> hits(o, items.flat_map(f), p),
{
    if let Some(p) = r {
        lemma_loop_hit(o, items, f, i, p);
    } else {
        lemma_loop_pass(o, items, f, i);
    }
}

/// A program that is settled ends as it settles.
pub proof fn lemma_settles_runs(o: Oracle, prog: Seq<Probe>, r: Option<Seq<char>>)
    requires
        settles(o, prog, r),
    ensures
        runs(o, prog, r),
{
    let e = Seq::<Probe>::empty();
    assert(prog + e =~= prog);
    assert(runs(o, e, None));
    if let Some(p) = r {
        assert(runs(o, prog + e, Some(p)));
    } else {
        assert(runs(o, prog + e, None));
    }
}

// ------------------------------------------------------------------------
// What every run of a search program has in common.

/// The file system answers each question one way: no path is both a file
/// and not one, or both a directory and not one, and a directory has one
/// listing.
pub open spec fn answers_consistently(o: Oracle) -> bool {
    &&& forall|p: Seq<char>| !(#[trigger] (o.0)(p, true) && (o.0)(p, false))
    &&& forall|p: Seq<char>| !(#[trigger] (o.1)(p, true) && (o.1)(p, false))
    &&& forall|d: Seq<char>, a: Seq<Seq<char>>, b: Seq<Seq<char>>|
        #![trigger (o.2)(d, a), (o.2)(d, b)]
        (o.2)(d, a) && (o.2)(d, b) ==> a == b
}

/// Whether a probe of a program reports `p`: a file probe of `p` answered
/// yes, or a listing of a directory with a reverse-DNS entry that `p` names.
pub open spec fn reports(o: Oracle, probe: Probe, p: Seq<char>) -> bool {
    match probe {
        Probe::File(q) => q == p && (o.0)(q, true),
        Probe::Dir(_, _) => false,
        Probe::Listing(d, name) => exists|listing: Seq<Seq<char>>, k: int|
            #![trigger (o.2)(d, listing), listing[k]]
            (o.2)(d, listing) && 0 <= k < listing.len() && is_reverse_dns_entry(listing[k], name) && p
                == join_spec(d, listing[k]),
    }
}

/// The first reverse-DNS entry at or after `start` is one, and lies inside
/// the listing.
pub proof fn lemma_first_reverse_dns(listing: Seq<Seq<char>>, name: Seq<char>, start: int)
    requires
        0 <= start,
    ensures
        first_reverse_dns(listing, name, start) matches Some(k) ==> start <= k < listing.len()
            && is_reverse_dns_entry(listing[k], name),
    decreases listing.len() - start,
{
    if start < listing.len() && !is_reverse_dns_entry(listing[start], name) {
        lemma_first_reverse_dns(listing, name, start + 1);
    }
}

/// With consistent answers, a search program has at most one result.
pub proof fn lemma_runs_unique(o: Oracle, prog: Seq<Probe>, r1: Option<Seq<char>>, r2: Option<Seq<char>>)
    requires
        answers_consistently(o),
        runs(o, prog, r1),
        runs(o, prog, r2),
    ensures
        r1 == r2,
    decreases prog.len(),
{
    if prog.len() > 0 {
        let rest = prog.drop_first();
        match prog[0] {
            Probe::File(p) => {
                assert(!((o.0)(p, true) && (o.0)(p, false)));
                if !(o.0)(p, true) {
                    lemma_runs_unique(o, rest, r1, r2);
                }
            },
            Probe::Dir(d, n) => {
                assert(!((o.1)(d, true) && (o.1)(d, false)));
                if (o.1)(d, true) {
                    lemma_runs_unique(o, rest, r1, r2);
                } else {
                    lemma_runs_unique(o, rest.skip(n as int), r1, r2);
                }
            },
            Probe::Listing(d, name) => {
                let hit = |r: Option<Seq<char>>|
                    exists|listing: Seq<Seq<char>>|
                        #[trigger] (o.2)(d, listing) && first_reverse_dns(listing, name, 0) is Some && r
                            == Some(join_spec(d, listing[first_reverse_dns(listing, name, 0)->0]));
                let miss = exists|listing: Seq<Seq<char>>|
                    #[trigger] (o.2)(d, listing) && first_reverse_dns(listing, name, 0) is None;
                assert(prog[0]->Listing_0 == d);
                assert(prog[0]->Listing_1 == name);
                assert(hit(r1) || (miss && runs(o, rest, r1)));
                assert(hit(r2) || (miss && runs(o, rest, r2)));
                if hit(r1) || hit(r2) {
                    if miss {
                        let l0 = choose|listing: Seq<Seq<char>>|
                            #[trigger] (o.2)(d, listing) && first_reverse_dns(listing, name, 0) is None;
                        if hit(r1) {
                            let l1 = choose|listing: Seq<Seq<char>>|
                                #[trigger] (o.2)(d, listing) && first_reverse_dns(listing, name, 0) is Some
                                    && r1 == Some(join_spec(d, listing[first_reverse_dns(listing, name, 0)->0]));
                            assert((o.2)(d, l0) && (o.2)(d, l1));
                        } else {
                            let l2 = choose|listing: Seq<Seq<char>>|
                                #[trigger] (o.2)(d, listing) && first_reverse_dns(listing, name, 0) is Some
                                    && r2 == Some(join_spec(d, listing[first_reverse_dns(listing, name, 0)->0]));
                            assert((o.2)(d, l0) && (o.2)(d, l2));
                        }
                    }
                    assert(hit(r1) && hit(r2));
                    let l1 = choose|listing: Seq<Seq<char>>|
                        #[trigger] (o.2)(d, listing) && first_reverse_dns(listing, name, 0) is Some && r1
                            == Some(join_spec(d, listing[first_reverse_dns(listing, name, 0)->0]));
                    let l2 = choose|listing: Seq<Seq<char>>|
                        #[trigger] (o.2)(d, listing) && first_reverse_dns(listing, name, 0) is Some && r2
                            == Some(join_spec(d, listing[first_reverse_dns(listing, name, 0)->0]));
                    assert((o.2)(d, l1) && (o.2)(d, l2));
                } else {
                    lemma_runs_unique(o, rest, r1, r2);
                }
            },
        }
    }
}

/// What a search program finds is reported by one of its probes: a path the
/// file system answered to be a file, or a listed reverse-DNS entry.
pub proof fn lemma_runs_found(o: Oracle, prog: Seq<Probe>, p: Seq<char>)
    requires
        runs(o, prog, Some(p)),
    ensures
        exists|i: int| 0 <= i < prog.len() && #[trigger] reports(o, prog[i], p),
    decreases prog.len(),
{
    let rest = prog.drop_first();
    match prog[0] {
        Probe::File(q) => {
            if !((o.0)(q, true) && Some(p) == Some(q)) {
                lemma_runs_found(o, rest, p);
                let i = choose|i: int| 0 <= i < rest.len() && #[trigger] reports(o, rest[i], p);
                assert(prog[i + 1] == rest[i]);
            } else {
                assert(reports(o, prog[0], p));
            }
        },
        Probe::Dir(d, n) => {
            if (o.1)(d, true) && runs(o, rest, Some(p)) {
                lemma_runs_found(o, rest, p);
                let i = choose|i: int| 0 <= i < rest.len() && #[trigger] reports(o, rest[i], p);
                assert(prog[i + 1] == rest[i]);
            } else {
                let tail = rest.skip(n as int);
                lemma_runs_found(o, tail, p);
                let i = choose|i: int| 0 <= i < tail.len() && #[trigger] reports(o, tail[i], p);
                assert(prog[i + 1 + n] == tail[i]);
            }
        },
        Probe::Listing(d, name) => {
            assert(prog[0]->Listing_0 == d);
            assert(prog[0]->Listing_1 == name);
            if exists|listing: Seq<Seq<char>>|
                #[trigger] (o.2)(d, listing) && first_reverse_dns(listing, name, 0) is Some && Some(p)
                    == Some(join_spec(d, listing[first_reverse_dns(listing, name, 0)->0])) {
                let l = choose|listing: Seq<Seq<char>>|
                    #[trigger] (o.2)(d, listing) && first_reverse_dns(listing, name, 0) is Some && Some(p)
                        == Some(join_spec(d, listing[first_reverse_dns(listing, name, 0)->0]));
                let k = first_reverse_dns(l, name, 0)->0;
                lemma_first_reverse_dns(l, name, 0);
                assert((o.2)(d, l) && 0 <= k < l.len() && is_reverse_dns_entry(l[k], name) && p == join_spec(
                    d,
                    l[k],
                ));
                assert(reports(o, prog[0], p));
            } else {
                lemma_runs_found(o, rest, p);
                let i = choose|i: int| 0 <= i < rest.len() && #[trigger] reports(o, rest[i], p);
                assert(prog[i + 1] == rest[i]);
            }
        },
    }
}

/// A name that the file system consistently reports as a file resolves to
/// itself: the name as a path is the first thing the search asks about.
pub proof fn lemma_direct_path_first(o: Oracle, name: Seq<char>, roots: Seq<Seq<char>>, r: Option<Seq<char>>)
    requires
        answers_consistently(o),
        (o.0)(name, true),
        runs(o, search_program(name, roots), r),
    ensures
        r == Some(name),
{
    let prog = search_program(name, roots);
    assert(prog[0] == Probe::File(name));
    assert(!((o.0)(name, true) && (o.0)(name, false)));
}

/// A stretch made of one item's probes after others hits where that
/// first item's probes hit.
pub proof fn lemma_hits_first<A>(o: Oracle, items: Seq<A>, f: spec_fn(A) -> Seq<Probe>, p: Seq<char>)
    requires
        items.len() > 0,
        hits(o, f(items[0]), p),
    ensures
        hits(o, items.flat_map(f), p),
{
    lemma_loop_start(o, items, f);
    lemma_loop_hit(o, items, f, 0, p);
}

/// The application directory of the scalable size of a theme directory.
pub open spec fn scalable_apps(theme_root: Seq<char>) -> Seq<char> {
    join_spec(join_spec(theme_root, "scalable"@), "apps"@)
}

/// Scalable SVGs come before raster sizes: in a theme directory, when
/// `scalable/apps/<name>` is not a file and `scalable/apps/<name>.svg` is,
/// the search of that directory ends with the SVG, whatever the raster
/// sizes hold.
pub proof fn lemma_scalable_svg_first(o: Oracle, theme_root: Seq<char>, name: Seq<char>)
    requires
        (o.0)(join_spec(scalable_apps(theme_root), name), false),
        (o.0)(join_spec(scalable_apps(theme_root), name + "."@ + "svg"@), true),
    ensures
        hits(o, theme_dir_probes(theme_root, name, false), join_spec(scalable_apps(theme_root), name + "."@ + "svg"@)),
{
    let dir = scalable_apps(theme_root);
    let svg = join_spec(dir, name + "."@ + "svg"@);
    let first = seq![Probe::File(join_spec(dir, name))];
    let fe = ext_fn(dir, name);
    let exts = icon_extensions_spec();
    lemma_file_answer(o, join_spec(dir, name), false);
    lemma_file_answer(o, svg, true);
    assert(fe(exts[0]) == seq![Probe::File(svg)]);
    lemma_hits_first(o, exts, fe, svg);
    lemma_hits_after_passes(o, first, exts.flat_map(fe), svg);
    assert(variant_probes(dir, name, false) == first + exts.flat_map(fe));
    let fc = category_fn(theme_root, "scalable"@, name, false);
    lemma_hits_extend(
        o,
        variant_probes(dir, name, false),
        variant_probes(join_spec(join_spec(theme_root, "apps"@), "scalable"@), name, false),
        svg,
    );
    assert(icon_categories_spec()[0] == "apps"@);
    assert(fc(icon_categories_spec()[0]) == variant_probes(dir, name, false) + variant_probes(
        join_spec(join_spec(theme_root, "apps"@), "scalable"@),
        name,
        false,
    ));
    lemma_hits_first(o, icon_categories_spec(), fc, svg);
    let fs = size_fn(theme_root, name, false);
    assert(icon_sizes_spec()[0] == "scalable"@);
    assert(fs(icon_sizes_spec()[0]) == icon_categories_spec().flat_map(fc));
    lemma_hits_first(o, icon_sizes_spec(), fs, svg);
}

// ------------------------------------------------------------------------
// The search itself.

/// The answers that the file system probes can give: a path `p` is
/// answered `b` by `is_file` (or `is_dir`) when some call on a string with
/// view `p` may return `b`, and a directory lists `ls` when some call of
/// `list_dir` may return entries with those names.
pub open spec fn oracle_of<F: Fn(String) -> bool, D: Fn(String) -> bool, L: Fn(String) -> Vec<String>>(
    is_file: F,
    is_dir: D,
    list_dir: L,
) -> Oracle {
    (
        |p: Seq<char>, b: bool| exists|s: String| s@ == p && #[trigger] is_file.ensures((s,), b),
        |p: Seq<char>, b: bool| exists|s: String| s@ == p && #[trigger] is_dir.ensures((s,), b),
        |d: Seq<char>, ls: Seq<Seq<char>>|
            exists|s: String, v: Vec<String>|
                s@ == d && views(v@) == ls && #[trigger] list_dir.ensures((s,), v),
    )
}

/// `o` admits every answer that `is_file` gives.
pub open spec fn answers_files<F: Fn(String) -> bool>(is_file: F, o: Oracle) -> bool {
    forall|s: String, b: bool| #[trigger] is_file.ensures((s,), b) ==> (o.0)(s@, b)
}

/// `o` admits every answer that `is_dir` gives.
pub open spec fn answers_dirs<D: Fn(String) -> bool>(is_dir: D, o: Oracle) -> bool {
    forall|s: String, b: bool| #[trigger] is_dir.ensures((s,), b) ==> (o.1)(s@, b)
}

/// `o` admits every listing that `list_dir` gives.
pub open spec fn answers_listings<L: Fn(String) -> Vec<String>>(list_dir: L, o: Oracle) -> bool {
    forall|s: String, v: Vec<String>| #[trigger] list_dir.ensures((s,), v) ==> (o.2)(s@, views(v@))
}

/// The view of an optional path.
pub open spec fn opt_view(r: Option<String>) -> Option<Seq<char>> {
    match r {
        Some(p) => Some(p@),
        None => None,
    }
}

/// Asks whether `path` is a file: settles the one probe of it.
fn probe_file<F: Fn(String) -> bool>(is_file: &F, Ghost(o): Ghost<Oracle>, path: String) -> (r: Option<String>)
    requires
        forall|s: String| is_file.requires((s,)),
        answers_files(*is_file, o),
    ensures
        settles(o, seq![Probe::File(path@)], opt_view(r)),
{
    let found = is_file(path.clone());
    proof {
        lemma_file_answer(o, path@, found);
    }
    if found {
        Some(path)
    } else {
        None
    }
}

/// Tries `dir/name` and then, unless `has_ext`, `dir/name.ext` for each icon
/// extension in order.
fn probe_variants<F: Fn(String) -> bool>(
    is_file: &F,
    Ghost(o): Ghost<Oracle>,
    dir: &str,
    name: &str,
    has_ext: bool,
) -> (r: Option<String>)
    requires
        forall|s: String| is_file.requires((s,)),
        answers_files(*is_file, o),
    ensures
        settles(o, variant_probes(dir@, name@, has_ext), opt_view(r)),
{
    let ghost first = seq![Probe::File(join_spec(dir@, name@))];
    let ghost rest = if has_ext {
        Seq::<Probe>::empty()
    } else {
        icon_extensions_spec().flat_map(ext_fn(dir@, name@))
    };
    let found = probe_file(is_file, Ghost(o), path_join(dir, name));
    if let Some(p) = found {
        proof {
            lemma_hits_extend(o, first, rest, p@);
        }
        return Some(p);
    }
    if has_ext {
        proof {
            assert(first + rest =~= first);
        }
        return None;
    }
    let exts = icon_extensions();
    let ghost f = ext_fn(dir@, name@);
    proof {
        lemma_loop_start(o, icon_extensions_spec(), f);
    }
    let mut i: usize = 0;
    while i < exts.len()
        invariant
            forall|s: String| is_file.requires((s,)),
            answers_files(*is_file, o),
            exts@.len() == icon_extensions_spec().len(),
            forall|k: int| 0 <= k < exts@.len() ==> #[trigger] exts@[k]@ == icon_extensions_spec()[k],
            f == ext_fn(dir@, name@),
            !has_ext,
            first == seq![Probe::File(join_spec(dir@, name@))],
            passes(o, first),
            rest == icon_extensions_spec().flat_map(f),
            i <= exts@.len(),
            passes(o, icon_extensions_spec().take(i as int).flat_map(f)),
        decreases exts@.len() - i,
    {
        let mut file = String::new();
        string_push_str(&mut file, name);
        string_push(&mut file, '.');
        string_push_str(&mut file, exts[i]);
        let found = probe_file(is_file, Ghost(o), path_join(dir, file.as_str()));
        proof {
            reveal_strlit(".");
            assert(file@ =~= name@ + "."@ + exts@[i as int]@);
            assert(f(icon_extensions_spec()[i as int]) == seq![
                Probe::File(join_spec(dir@, name@ + "."@ + icon_extensions_spec()[i as int])),
            ]);
            lemma_loop_item(o, icon_extensions_spec(), f, i as int, opt_view(found));
        }
        if let Some(p) = found {
            proof {
                lemma_hits_after_passes(o, first, rest, p@);
            }
            return Some(p);
        }
        i = i + 1;
    }
    proof {
        lemma_loop_done(o, icon_extensions_spec(), f);
        lemma_passes_concat(o, first, rest);
    }
    None
}

/// Tries each name in order in `dir`.
fn probe_names<F: Fn(String) -> bool>(
    is_file: &F,
    Ghost(o): Ghost<Oracle>,
    dir: &str,
    names: &Vec<String>,
    has_ext: bool,
) -> (r: Option<String>)
    requires
        forall|s: String| is_file.requires((s,)),
        answers_files(*is_file, o),
    ensures
        settles(o, names_in_dir(dir@, views(names@), has_ext), opt_view(r)),
{
    let ghost vn = views(names@);
    let ghost f = variant_fn(dir@, has_ext);
    proof {
        lemma_loop_start(o, vn, f);
    }
    let mut i: usize = 0;
    while i < names.len()
        invariant
            forall|s: String| is_file.requires((s,)),
            answers_files(*is_file, o),
            vn == views(names@),
            f == variant_fn(dir@, has_ext),
            i <= names@.len(),
            passes(o, vn.take(i as int).flat_map(f)),
        decreases names@.len() - i,
    {
        let found = probe_variants(is_file, Ghost(o), dir, names[i].as_str(), has_ext);
        proof {
            assert(vn[i as int] == names@[i as int]@);
            lemma_loop_item(o, vn, f, i as int, opt_view(found));
        }
        if found.is_some() {
            return found;
        }
        i = i + 1;
    }
    proof {
        lemma_loop_done(o, vn, f);
    }
    None
}

/// Searches one theme directory for a name: each size and category, in the
/// `<size>/<category>` then the `<category>/<size>` layout.
fn probe_theme_dir<F: Fn(String) -> bool>(
    is_file: &F,
    Ghost(o): Ghost<Oracle>,
    theme_root: &str,
    name: &str,
    has_ext: bool,
) -> (r: Option<String>)
    requires
        forall|s: String| is_file.requires((s,)),
        answers_files(*is_file, o),
    ensures
        settles(o, theme_dir_probes(theme_root@, name@, has_ext), opt_view(r)),
{
    let sizes = icon_sizes();
    let categories = icon_categories();
    let ghost fs = size_fn(theme_root@, name@, has_ext);
    proof {
        lemma_loop_start(o, icon_sizes_spec(), fs);
    }
    let mut si: usize = 0;
    while si < sizes.len()
        invariant
            forall|s: String| is_file.requires((s,)),
            answers_files(*is_file, o),
            sizes@.len() == icon_sizes_spec().len(),
            forall|k: int| 0 <= k < sizes@.len() ==> #[trigger] sizes@[k]@ == icon_sizes_spec()[k],
            categories@.len() == icon_categories_spec().len(),
            forall|k: int|
                0 <= k < categories@.len() ==> #[trigger] categories@[k]@ == icon_categories_spec()[k],
            fs == size_fn(theme_root@, name@, has_ext),
            si <= sizes@.len(),
            passes(o, icon_sizes_spec().take(si as int).flat_map(fs)),
        decreases sizes@.len() - si,
    {
        let ghost size = icon_sizes_spec()[si as int];
        let ghost fc = category_fn(theme_root@, size, name@, has_ext);
        proof {
            lemma_loop_start(o, icon_categories_spec(), fc);
        }
        let mut ci: usize = 0;
        while ci < categories.len()
            invariant
                forall|s: String| is_file.requires((s,)),
                answers_files(*is_file, o),
                sizes@.len() == icon_sizes_spec().len(),
                forall|k: int| 0 <= k < sizes@.len() ==> #[trigger] sizes@[k]@ == icon_sizes_spec()[k],
                categories@.len() == icon_categories_spec().len(),
                forall|k: int|
                    0 <= k < categories@.len() ==> #[trigger] categories@[k]@
                        == icon_categories_spec()[k],
                fs == size_fn(theme_root@, name@, has_ext),
                si < sizes@.len(),
                size == icon_sizes_spec()[si as int],
                passes(o, icon_sizes_spec().take(si as int).flat_map(fs)),
                fc == category_fn(theme_root@, size, name@, has_ext),
                ci <= categories@.len(),
                passes(o, icon_categories_spec().take(ci as int).flat_map(fc)),
            decreases categories@.len() - ci,
        {
            let ghost cat = icon_categories_spec()[ci as int];
            let ghost a = variant_probes(join_spec(join_spec(theme_root@, size), cat), name@, has_ext);
            let ghost b = variant_probes(join_spec(join_spec(theme_root@, cat), size), name@, has_ext);
            proof {
                assert(sizes@[si as int]@ == size);
                assert(categories@[ci as int]@ == cat);
            }
            let by_size = path_join(path_join(theme_root, sizes[si]).as_str(), categories[ci]);
            let found = probe_variants(is_file, Ghost(o), by_size.as_str(), name, has_ext);
            let found_here = if found.is_some() {
                proof {
                    lemma_hits_extend(o, a, b, opt_view(found)->0);
                }
                found
            } else {
                let by_category = path_join(path_join(theme_root, categories[ci]).as_str(), sizes[si]);
                let second = probe_variants(is_file, Ghost(o), by_category.as_str(), name, has_ext);
                proof {
                    if second.is_some() {
                        lemma_hits_after_passes(o, a, b, opt_view(second)->0);
                    } else {
                        lemma_passes_concat(o, a, b);
                    }
                }
                second
            };
            proof {
                assert(fc(cat) == a + b);
                lemma_loop_item(o, icon_categories_spec(), fc, ci as int, opt_view(found_here));
            }
            if found_here.is_some() {
                proof {
                    assert(fs(size) == icon_categories_spec().flat_map(fc));
                    lemma_loop_item(o, icon_sizes_spec(), fs, si as int, opt_view(found_here));
                }
                return found_here;
            }
            ci = ci + 1;
        }
        proof {
            lemma_loop_done(o, icon_categories_spec(), fc);
            assert(fs(size) == icon_categories_spec().flat_map(fc));
            lemma_loop_item(o, icon_sizes_spec(), fs, si as int, None);
        }
        si = si + 1;
    }
    proof {
        lemma_loop_done(o, icon_sizes_spec(), fs);
    }
    None
}

/// Whether each flag tells whether its root is a pixmaps root.
pub open spec fn pixmaps_flags(roots: Seq<String>, pixmaps: Seq<bool>) -> bool {
    &&& pixmaps.len() == roots.len()
    &&& forall|k: int| 0 <= k < roots.len() ==> #[trigger] pixmaps[k] == is_pixmaps_root(roots[k]@)
}

/// Searches the theme trees for any of `names`: for each name, theme and
/// non-pixmaps root whose theme directory exists, that directory.
fn search_theme_trees<F: Fn(String) -> bool, D: Fn(String) -> bool>(
    is_file: &F,
    is_dir: &D,
    Ghost(o): Ghost<Oracle>,
    roots: &Vec<String>,
    pixmaps: &Vec<bool>,
    names: &Vec<String>,
    has_ext: bool,
) -> (r: Option<String>)
    requires
        forall|s: String| is_file.requires((s,)),
        forall|s: String| is_dir.requires((s,)),
        answers_files(*is_file, o),
        answers_dirs(*is_dir, o),
        pixmaps_flags(roots@, pixmaps@),
    ensures
        settles(o, theme_part(views(roots@), views(names@), has_ext), opt_view(r)),
{
    let themes = icon_themes();
    let ghost vr = views(roots@);
    let ghost vn = views(names@);
    let ghost fnm = theme_name_fn(vr, has_ext);
    proof {
        lemma_loop_start(o, vn, fnm);
    }
    let mut ni: usize = 0;
    while ni < names.len()
        invariant
            forall|s: String| is_file.requires((s,)),
            forall|s: String| is_dir.requires((s,)),
            answers_files(*is_file, o),
            answers_dirs(*is_dir, o),
            pixmaps_flags(roots@, pixmaps@),
            themes@.len() == icon_themes_spec().len(),
            forall|k: int| 0 <= k < themes@.len() ==> #[trigger] themes@[k]@ == icon_themes_spec()[k],
            vr == views(roots@),
            vn == views(names@),
            fnm == theme_name_fn(vr, has_ext),
            ni <= names@.len(),
            passes(o, vn.take(ni as int).flat_map(fnm)),
        decreases names@.len() - ni,
    {
        let ghost n = vn[ni as int];
        let ghost ft = theme_fn(vr, n, has_ext);
        proof {
            assert(names@[ni as int]@ == n);
            lemma_loop_start(o, icon_themes_spec(), ft);
        }
        let mut ti: usize = 0;
        while ti < themes.len()
            invariant
                forall|s: String| is_file.requires((s,)),
                forall|s: String| is_dir.requires((s,)),
                answers_files(*is_file, o),
                answers_dirs(*is_dir, o),
                pixmaps_flags(roots@, pixmaps@),
                themes@.len() == icon_themes_spec().len(),
                forall|k: int| 0 <= k < themes@.len() ==> #[trigger] themes@[k]@ == icon_themes_spec()[k],
                vr == views(roots@),
                vn == views(names@),
                fnm == theme_name_fn(vr, has_ext),
                ni < names@.len(),
                n == vn[ni as int],
                n == names@[ni as int]@,
                passes(o, vn.take(ni as int).flat_map(fnm)),
                ft == theme_fn(vr, n, has_ext),
                ti <= themes@.len(),
                passes(o, icon_themes_spec().take(ti as int).flat_map(ft)),
            decreases themes@.len() - ti,
        {
            let ghost t = icon_themes_spec()[ti as int];
            let ghost fb = block_fn(t, n, has_ext);
            proof {
                assert(themes@[ti as int]@ == t);
                lemma_loop_start(o, vr, fb);
            }
            let mut ri: usize = 0;
            while ri < roots.len()
                invariant
                    forall|s: String| is_file.requires((s,)),
                    forall|s: String| is_dir.requires((s,)),
                    answers_files(*is_file, o),
                    answers_dirs(*is_dir, o),
                    pixmaps_flags(roots@, pixmaps@),
                    themes@.len() == icon_themes_spec().len(),
                    vr == views(roots@),
                    vn == views(names@),
                    fnm == theme_name_fn(vr, has_ext),
                    ni < names@.len(),
                    n == vn[ni as int],
                    n == names@[ni as int]@,
                    passes(o, vn.take(ni as int).flat_map(fnm)),
                    ft == theme_fn(vr, n, has_ext),
                    ti < themes@.len(),
                    t == icon_themes_spec()[ti as int],
                    t == themes@[ti as int]@,
                    passes(o, icon_themes_spec().take(ti as int).flat_map(ft)),
                    fb == block_fn(t, n, has_ext),
                    ri <= roots@.len(),
                    passes(o, vr.take(ri as int).flat_map(fb)),
                decreases roots@.len() - ri,
            {
                let ghost root = vr[ri as int];
                let mut found: Option<String> = None;
                proof {
                    assert(roots@[ri as int]@ == root);
                    assert(pixmaps@[ri as int] == is_pixmaps_root(root));
                }
                if pixmaps[ri] {
                    proof {
                        lemma_passes_empty(o);
                    }
                } else {
                    let theme_root = path_join(roots[ri].as_str(), themes[ti]);
                    let present = is_dir(theme_root.clone());
                    if present {
                        found = probe_theme_dir(is_file, Ghost(o), theme_root.as_str(), names[ni].as_str(), has_ext);
                        proof {
                            assert((o.1)(theme_root@, true));
                            lemma_dir_present(
                                o,
                                theme_root@,
                                theme_dir_probes(theme_root@, n, has_ext),
                                opt_view(found),
                            );
                        }
                    } else {
                        proof {
                            assert((o.1)(theme_root@, false));
                            lemma_dir_absent(o, theme_root@, theme_dir_probes(theme_root@, n, has_ext));
                        }
                    }
                }
                proof {
                    assert(fb(root) == theme_block(root, t, n, has_ext));
                    lemma_loop_item(o, vr, fb, ri as int, opt_view(found));
                }
                if found.is_some() {
                    proof {
                        assert(ft(t) == vr.flat_map(fb));
                        lemma_loop_item(o, icon_themes_spec(), ft, ti as int, opt_view(found));
                        assert(fnm(n) == icon_themes_spec().flat_map(ft));
                        lemma_loop_item(o, vn, fnm, ni as int, opt_view(found));
                    }
                    return found;
                }
                ri = ri + 1;
            }
            proof {
                lemma_loop_done(o, vr, fb);
                assert(ft(t) == vr.flat_map(fb));
                lemma_loop_item(o, icon_themes_spec(), ft, ti as int, None);
            }
            ti = ti + 1;
        }
        proof {
            lemma_loop_done(o, icon_themes_spec(), ft);
            assert(fnm(n) == icon_themes_spec().flat_map(ft));
            lemma_loop_item(o, vn, fnm, ni as int, None);
        }
        ni = ni + 1;
    }
    proof {
        lemma_loop_done(o, vn, fnm);
    }
    None
}

/// Searches the pixmaps roots for each of `names`.
fn search_pixmaps<F: Fn(String) -> bool>(
    is_file: &F,
    Ghost(o): Ghost<Oracle>,
    roots: &Vec<String>,
    pixmaps: &Vec<bool>,
    names: &Vec<String>,
    has_ext: bool,
) -> (r: Option<String>)
    requires
        forall|s: String| is_file.requires((s,)),
        answers_files(*is_file, o),
        pixmaps_flags(roots@, pixmaps@),
    ensures
        settles(o, pixmaps_part(views(roots@), views(names@), has_ext), opt_view(r)),
{
    let ghost vr = views(roots@);
    let ghost f = pixmaps_fn(views(names@), has_ext);
    proof {
        lemma_loop_start(o, vr, f);
    }
    let mut ri: usize = 0;
    while ri < roots.len()
        invariant
            forall|s: String| is_file.requires((s,)),
            answers_files(*is_file, o),
            pixmaps_flags(roots@, pixmaps@),
            vr == views(roots@),
            f == pixmaps_fn(views(names@), has_ext),
            ri <= roots@.len(),
            passes(o, vr.take(ri as int).flat_map(f)),
        decreases roots@.len() - ri,
    {
        let ghost root = vr[ri as int];
        proof {
            assert(roots@[ri as int]@ == root);
            assert(pixmaps@[ri as int] == is_pixmaps_root(root));
        }
        let mut found: Option<String> = None;
        if pixmaps[ri] {
            found = probe_names(is_file, Ghost(o), roots[ri].as_str(), names, has_ext);
        } else {
            proof {
                lemma_passes_empty(o);
            }
        }
        proof {
            lemma_loop_item(o, vr, f, ri as int, opt_view(found));
        }
        if found.is_some() {
            return found;
        }
        ri = ri + 1;
    }
    proof {
        lemma_loop_done(o, vr, f);
    }
    None
}

/// Searches the `<root>/<size>` directories that exist for each of `names`.
fn search_size_dirs<F: Fn(String) -> bool, D: Fn(String) -> bool>(
    is_file: &F,
    is_dir: &D,
    Ghost(o): Ghost<Oracle>,
    roots: &Vec<String>,
    names: &Vec<String>,
    has_ext: bool,
) -> (r: Option<String>)
    requires
        forall|s: String| is_file.requires((s,)),
        forall|s: String| is_dir.requires((s,)),
        answers_files(*is_file, o),
        answers_dirs(*is_dir, o),
    ensures
        settles(o, size_part(views(roots@), views(names@), has_ext), opt_view(r)),
{
    let sizes = icon_sizes();
    let ghost vr = views(roots@);
    let ghost vn = views(names@);
    let ghost fr = size_root_fn(vn, has_ext);
    proof {
        lemma_loop_start(o, vr, fr);
    }
    let mut ri: usize = 0;
    while ri < roots.len()
        invariant
            forall|s: String| is_file.requires((s,)),
            forall|s: String| is_dir.requires((s,)),
            answers_files(*is_file, o),
            answers_dirs(*is_dir, o),
            sizes@.len() == icon_sizes_spec().len(),
            forall|k: int| 0 <= k < sizes@.len() ==> #[trigger] sizes@[k]@ == icon_sizes_spec()[k],
            vr == views(roots@),
            vn == views(names@),
            fr == size_root_fn(vn, has_ext),
            ri <= roots@.len(),
            passes(o, vr.take(ri as int).flat_map(fr)),
        decreases roots@.len() - ri,
    {
        let ghost root = vr[ri as int];
        let ghost fs = size_dir_fn(root, vn, has_ext);
        proof {
            assert(roots@[ri as int]@ == root);
            lemma_loop_start(o, icon_sizes_spec(), fs);
        }
        let mut si: usize = 0;
        while si < sizes.len()
            invariant
                forall|s: String| is_file.requires((s,)),
                forall|s: String| is_dir.requires((s,)),
                answers_files(*is_file, o),
                answers_dirs(*is_dir, o),
                sizes@.len() == icon_sizes_spec().len(),
                forall|k: int| 0 <= k < sizes@.len() ==> #[trigger] sizes@[k]@ == icon_sizes_spec()[k],
                vr == views(roots@),
                vn == views(names@),
                fr == size_root_fn(vn, has_ext),
                ri < roots@.len(),
                root == vr[ri as int],
                root == roots@[ri as int]@,
                passes(o, vr.take(ri as int).flat_map(fr)),
                fs == size_dir_fn(root, vn, has_ext),
                si <= sizes@.len(),
                passes(o, icon_sizes_spec().take(si as int).flat_map(fs)),
            decreases sizes@.len() - si,
        {
            let ghost size = icon_sizes_spec()[si as int];
            proof {
                assert(sizes@[si as int]@ == size);
            }
            let dir = path_join(roots[ri].as_str(), sizes[si]);
            let present = is_dir(dir.clone());
            let mut found: Option<String> = None;
            if present {
                found = probe_names(is_file, Ghost(o), dir.as_str(), names, has_ext);
                proof {
                    assert((o.1)(dir@, true));
                    lemma_dir_present(o, dir@, names_in_dir(dir@, vn, has_ext), opt_view(found));
                }
            } else {
                proof {
                    assert((o.1)(dir@, false));
                    lemma_dir_absent(o, dir@, names_in_dir(dir@, vn, has_ext));
                }
            }
            proof {
                assert(fs(size) == guarded(dir@, names_in_dir(dir@, vn, has_ext)));
                lemma_loop_item(o, icon_sizes_spec(), fs, si as int, opt_view(found));
            }
            if found.is_some() {
                proof {
                    assert(fr(root) == icon_sizes_spec().flat_map(fs));
                    lemma_loop_item(o, vr, fr, ri as int, opt_view(found));
                }
                return found;
            }
            si = si + 1;
        }
        proof {
            lemma_loop_done(o, icon_sizes_spec(), fs);
            assert(fr(root) == icon_sizes_spec().flat_map(fs));
            lemma_loop_item(o, vr, fr, ri as int, None);
        }
        ri = ri + 1;
    }
    proof {
        lemma_loop_done(o, vr, fr);
    }
    None
}

/// The reverse-DNS suffix of `name` for icon extension `j`: `.{name}.{ext}`.
pub open spec fn reverse_dns_suffix(name: Seq<char>, j: int) -> Seq<char> {
    "."@ + name + "."@ + icon_extensions_spec()[j]
}

/// The reverse-DNS suffixes of a name, one per icon extension.
fn reverse_dns_suffixes(name: &str) -> (v: Vec<Vec<char>>)
    ensures
        v@.len() == icon_extensions_spec().len(),
        forall|j: int| 0 <= j < v@.len() ==> #[trigger] v@[j]@ == reverse_dns_suffix(name@, j),
{
    let exts = icon_extensions();
    let mut v: Vec<Vec<char>> = Vec::new();
    let mut j: usize = 0;
    while j < exts.len()
        invariant
            exts@.len() == icon_extensions_spec().len(),
            forall|k: int| 0 <= k < exts@.len() ==> #[trigger] exts@[k]@ == icon_extensions_spec()[k],
            j <= exts@.len(),
            v@.len() == j,
            forall|k: int| 0 <= k < j ==> #[trigger] v@[k]@ == reverse_dns_suffix(name@, k),
        decreases exts@.len() - j,
    {
        let mut t = String::new();
        string_push(&mut t, '.');
        string_push_str(&mut t, name);
        string_push(&mut t, '.');
        string_push_str(&mut t, exts[j]);
        let c = chars_of(t.as_str());
        proof {
            reveal_strlit(".");
            assert(c@ =~= reverse_dns_suffix(name@, j as int));
        }
        v.push(c);
        j = j + 1;
    }
    v
}

/// Whether a listed entry ends with one of the reverse-DNS suffixes of `name`.
fn is_reverse_dns(entry: &Vec<char>, suffixes: &Vec<Vec<char>>, Ghost(name): Ghost<Seq<char>>) -> (b: bool)
    requires
        suffixes@.len() == icon_extensions_spec().len(),
        forall|j: int| 0 <= j < suffixes@.len() ==> #[trigger] suffixes@[j]@ == reverse_dns_suffix(name, j),
    ensures
        b == is_reverse_dns_entry(entry@, name),
{
    let mut j: usize = 0;
    while j < suffixes.len()
        invariant
            suffixes@.len() == icon_extensions_spec().len(),
            forall|k: int| 0 <= k < suffixes@.len() ==> #[trigger] suffixes@[k]@ == reverse_dns_suffix(name, k),
            j <= suffixes@.len(),
            forall|k: int| 0 <= k < j ==> !ends_with_spec(entry@, #[trigger] reverse_dns_suffix(name, k)),
        decreases suffixes@.len() - j,
    {
        if ends_with(entry, &suffixes[j]) {
            proof {
                assert(suffixes@[j as int]@ == reverse_dns_suffix(name, j as int));
                assert(ends_with_spec(entry@, "."@ + name + "."@ + icon_extensions_spec()[j as int]));
            }
            return true;
        }
        proof {
            assert(suffixes@[j as int]@ == reverse_dns_suffix(name, j as int));
        }
        j = j + 1;
    }
    proof {
        if is_reverse_dns_entry(entry@, name) {
            let k = choose|k: int|
                0 <= k < icon_extensions_spec().len() && ends_with_spec(
                    entry@,
                    "."@ + name + "."@ + #[trigger] icon_extensions_spec()[k],
                );
            assert(!ends_with_spec(entry@, reverse_dns_suffix(name, k)));
        }
    }
    false
}

/// Lists `dir` and ends at its first reverse-DNS entry for `name`.
fn scan_listing<L: Fn(String) -> Vec<String>>(
    list_dir: &L,
    Ghost(o): Ghost<Oracle>,
    dir: &str,
    name: &str,
    suffixes: &Vec<Vec<char>>,
) -> (r: Option<String>)
    requires
        forall|s: String| list_dir.requires((s,)),
        answers_listings(*list_dir, o),
        suffixes@.len() == icon_extensions_spec().len(),
        forall|j: int| 0 <= j < suffixes@.len() ==> #[trigger] suffixes@[j]@ == reverse_dns_suffix(name@, j),
    ensures
        settles(o, seq![Probe::Listing(dir@, name@)], opt_view(r)),
{
    let mut d = String::new();
    string_push_str(&mut d, dir);
    proof {
        assert(d@ =~= dir@);
    }
    let entries = list_dir(d.clone());
    let ghost ls = views(entries@);
    proof {
        assert((o.2)(dir@, ls));
        lemma_listing_answer(o, dir@, name@, ls);
    }
    let mut k: usize = 0;
    while k < entries.len()
        invariant
            suffixes@.len() == icon_extensions_spec().len(),
            forall|j: int| 0 <= j < suffixes@.len() ==> #[trigger] suffixes@[j]@ == reverse_dns_suffix(name@, j),
            ls == views(entries@),
            k <= entries@.len(),
            first_reverse_dns(ls, name@, 0) == first_reverse_dns(ls, name@, k as int),
            first_reverse_dns(ls, name@, 0) matches Some(i) ==> hits(
                o,
                seq![Probe::Listing(dir@, name@)],
                join_spec(dir@, ls[i]),
            ),
        decreases entries@.len() - k,
    {
        let entry = chars_of(entries[k].as_str());
        proof {
            assert(ls[k as int] == entries@[k as int]@);
        }
        if is_reverse_dns(&entry, suffixes, Ghost(name@)) {
            let p = path_join(dir, entries[k].as_str());
            return Some(p);
        }
        k = k + 1;
    }
    None
}

/// Lists each size and category directory of one theme directory, in both
/// layouts, for reverse-DNS entries of `name`.
fn scan_theme_dir<L: Fn(String) -> Vec<String>>(
    list_dir: &L,
    Ghost(o): Ghost<Oracle>,
    theme_root: &str,
    name: &str,
    suffixes: &Vec<Vec<char>>,
) -> (r: Option<String>)
    requires
        forall|s: String| list_dir.requires((s,)),
        answers_listings(*list_dir, o),
        suffixes@.len() == icon_extensions_spec().len(),
        forall|j: int| 0 <= j < suffixes@.len() ==> #[trigger] suffixes@[j]@ == reverse_dns_suffix(name@, j),
    ensures
        settles(o, theme_listings(theme_root@, name@), opt_view(r)),
{
    let sizes = icon_sizes();
    let categories = icon_categories();
    let ghost fs = listing_size_fn(theme_root@, name@);
    proof {
        lemma_loop_start(o, icon_sizes_spec(), fs);
    }
    let mut si: usize = 0;
    while si < sizes.len()
        invariant
            forall|s: String| list_dir.requires((s,)),
            answers_listings(*list_dir, o),
            suffixes@.len() == icon_extensions_spec().len(),
            forall|j: int| 0 <= j < suffixes@.len() ==> #[trigger] suffixes@[j]@ == reverse_dns_suffix(name@, j),
            sizes@.len() == icon_sizes_spec().len(),
            forall|k: int| 0 <= k < sizes@.len() ==> #[trigger] sizes@[k]@ == icon_sizes_spec()[k],
            categories@.len() == icon_categories_spec().len(),
            forall|k: int|
                0 <= k < categories@.len() ==> #[trigger] categories@[k]@ == icon_categories_spec()[k],
            fs == listing_size_fn(theme_root@, name@),
            si <= sizes@.len(),
            passes(o, icon_sizes_spec().take(si as int).flat_map(fs)),
        decreases sizes@.len() - si,
    {
        let ghost size = icon_sizes_spec()[si as int];
        let ghost fc = listing_category_fn(theme_root@, size, name@);
        proof {
            lemma_loop_start(o, icon_categories_spec(), fc);
        }
        let mut ci: usize = 0;
        while ci < categories.len()
            invariant
                forall|s: String| list_dir.requires((s,)),
                answers_listings(*list_dir, o),
                suffixes@.len() == icon_extensions_spec().len(),
                forall|j: int|
                    0 <= j < suffixes@.len() ==> #[trigger] suffixes@[j]@ == reverse_dns_suffix(name@, j),
                sizes@.len() == icon_sizes_spec().len(),
                forall|k: int| 0 <= k < sizes@.len() ==> #[trigger] sizes@[k]@ == icon_sizes_spec()[k],
                categories@.len() == icon_categories_spec().len(),
                forall|k: int|
                    0 <= k < categories@.len() ==> #[trigger] categories@[k]@
                        == icon_categories_spec()[k],
                fs == listing_size_fn(theme_root@, name@),
                si < sizes@.len(),
                size == icon_sizes_spec()[si as int],
                passes(o, icon_sizes_spec().take(si as int).flat_map(fs)),
                fc == listing_category_fn(theme_root@, size, name@),
                ci <= categories@.len(),
                passes(o, icon_categories_spec().take(ci as int).flat_map(fc)),
            decreases categories@.len() - ci,
        {
            let ghost cat = icon_categories_spec()[ci as int];
            let ghost a = seq![Probe::Listing(join_spec(join_spec(theme_root@, size), cat), name@)];
            let ghost b = seq![Probe::Listing(join_spec(join_spec(theme_root@, cat), size), name@)];
            proof {
                assert(sizes@[si as int]@ == size);
                assert(categories@[ci as int]@ == cat);
            }
            let by_size = path_join(path_join(theme_root, sizes[si]).as_str(), categories[ci]);
            let found = scan_listing(list_dir, Ghost(o), by_size.as_str(), name, suffixes);
            let found_here = if found.is_some() {
                proof {
                    lemma_hits_extend(o, a, b, opt_view(found)->0);
                }
                found
            } else {
                let by_category = path_join(path_join(theme_root, categories[ci]).as_str(), sizes[si]);
                let second = scan_listing(list_dir, Ghost(o), by_category.as_str(), name, suffixes);
                proof {
                    if second.is_some() {
                        lemma_hits_after_passes(o, a, b, opt_view(second)->0);
                    } else {
                        lemma_passes_concat(o, a, b);
                    }
                }
                second
            };
            proof {
                assert(fc(cat) =~= a + b);
                lemma_loop_item(o, icon_categories_spec(), fc, ci as int, opt_view(found_here));
            }
            if found_here.is_some() {
                proof {
                    assert(fs(size) == icon_categories_spec().flat_map(fc));
                    lemma_loop_item(o, icon_sizes_spec(), fs, si as int, opt_view(found_here));
                }
                return found_here;
            }
            ci = ci + 1;
        }
        proof {
            lemma_loop_done(o, icon_categories_spec(), fc);
            assert(fs(size) == icon_categories_spec().flat_map(fc));
            lemma_loop_item(o, icon_sizes_spec(), fs, si as int, None);
        }
        si = si + 1;
    }
    proof {
        lemma_loop_done(o, icon_sizes_spec(), fs);
    }
    None
}

/// Scans the theme directories of the non-pixmaps roots that exist for
/// reverse-DNS entries of `name`.
fn search_listings<D: Fn(String) -> bool, L: Fn(String) -> Vec<String>>(
    is_dir: &D,
    list_dir: &L,
    Ghost(o): Ghost<Oracle>,
    roots: &Vec<String>,
    pixmaps: &Vec<bool>,
    name: &str,
) -> (r: Option<String>)
    requires
        forall|s: String| is_dir.requires((s,)),
        forall|s: String| list_dir.requires((s,)),
        answers_dirs(*is_dir, o),
        answers_listings(*list_dir, o),
        pixmaps_flags(roots@, pixmaps@),
    ensures
        settles(o, listing_part(views(roots@), name@), opt_view(r)),
{
    let suffixes = reverse_dns_suffixes(name);
    let themes = icon_themes();
    let ghost vr = views(roots@);
    let ghost fr = listing_root_fn(name@);
    proof {
        lemma_loop_start(o, vr, fr);
    }
    let mut ri: usize = 0;
    while ri < roots.len()
        invariant
            forall|s: String| is_dir.requires((s,)),
            forall|s: String| list_dir.requires((s,)),
            answers_dirs(*is_dir, o),
            answers_listings(*list_dir, o),
            pixmaps_flags(roots@, pixmaps@),
            suffixes@.len() == icon_extensions_spec().len(),
            forall|j: int| 0 <= j < suffixes@.len() ==> #[trigger] suffixes@[j]@ == reverse_dns_suffix(name@, j),
            themes@.len() == icon_themes_spec().len(),
            forall|k: int| 0 <= k < themes@.len() ==> #[trigger] themes@[k]@ == icon_themes_spec()[k],
            vr == views(roots@),
            fr == listing_root_fn(name@),
            ri <= roots@.len(),
            passes(o, vr.take(ri as int).flat_map(fr)),
        decreases roots@.len() - ri,
    {
        let ghost root = vr[ri as int];
        let ghost ft = listing_theme_fn(root, name@);
        proof {
            assert(roots@[ri as int]@ == root);
            assert(pixmaps@[ri as int] == is_pixmaps_root(root));
        }
        if pixmaps[ri] {
            proof {
                lemma_passes_empty(o);
                lemma_loop_item(o, vr, fr, ri as int, None);
            }
        } else {
            proof {
                lemma_loop_start(o, icon_themes_spec(), ft);
            }
            let mut ti: usize = 0;
            while ti < themes.len()
                invariant
                    forall|s: String| is_dir.requires((s,)),
                    forall|s: String| list_dir.requires((s,)),
                    answers_dirs(*is_dir, o),
                    answers_listings(*list_dir, o),
                    pixmaps_flags(roots@, pixmaps@),
                    suffixes@.len() == icon_extensions_spec().len(),
                    forall|j: int|
                        0 <= j < suffixes@.len() ==> #[trigger] suffixes@[j]@ == reverse_dns_suffix(name@, j),
                    themes@.len() == icon_themes_spec().len(),
                    forall|k: int| 0 <= k < themes@.len() ==> #[trigger] themes@[k]@ == icon_themes_spec()[k],
                    vr == views(roots@),
                    fr == listing_root_fn(name@),
                    ri < roots@.len(),
                    root == vr[ri as int],
                    root == roots@[ri as int]@,
                    !is_pixmaps_root(root),
                    passes(o, vr.take(ri as int).flat_map(fr)),
                    ft == listing_theme_fn(root, name@),
                    ti <= themes@.len(),
                    passes(o, icon_themes_spec().take(ti as int).flat_map(ft)),
                decreases themes@.len() - ti,
            {
                let ghost t = icon_themes_spec()[ti as int];
                proof {
                    assert(themes@[ti as int]@ == t);
                }
                let theme_root = path_join(roots[ri].as_str(), themes[ti]);
                let present = is_dir(theme_root.clone());
                let mut found: Option<String> = None;
                if present {
                    found = scan_theme_dir(list_dir, Ghost(o), theme_root.as_str(), name, &suffixes);
                    proof {
                        assert((o.1)(theme_root@, true));
                        lemma_dir_present(o, theme_root@, theme_listings(theme_root@, name@), opt_view(found));
                    }
                } else {
                    proof {
                        assert((o.1)(theme_root@, false));
                        lemma_dir_absent(o, theme_root@, theme_listings(theme_root@, name@));
                    }
                }
                proof {
                    assert(ft(t) == guarded(theme_root@, theme_listings(theme_root@, name@)));
                    lemma_loop_item(o, icon_themes_spec(), ft, ti as int, opt_view(found));
                }
                if found.is_some() {
                    proof {
                        assert(fr(root) == icon_themes_spec().flat_map(ft));
                        lemma_loop_item(o, vr, fr, ri as int, opt_view(found));
                    }
                    return found;
                }
                ti = ti + 1;
            }
            proof {
                lemma_loop_done(o, icon_themes_spec(), ft);
                assert(fr(root) == icon_themes_spec().flat_map(ft));
                lemma_loop_item(o, vr, fr, ri as int, None);
            }
        }
        ri = ri + 1;
    }
    proof {
        lemma_loop_done(o, vr, fr);
    }
    None
}

/// After a stretch that the search passes over, what the next stretch
/// settles the two settle together.
pub proof fn lemma_settle_after(o: Oracle, a: Seq<Probe>, b: Seq<Probe>, r: Option<Seq<char>>)
    requires
        passes(o, a),
        settles(o, b, r),
    ensures
        settles(o, a + b, r),
{
    if let Some(p) = r {
        lemma_hits_after_passes(o, a, b, p);
    } else {
        lemma_passes_concat(o, a, b);
    }
}

/// The oracle of three probes admits every answer they give.
proof fn lemma_oracle_answers<F: Fn(String) -> bool, D: Fn(String) -> bool, L: Fn(String) -> Vec<String>>(
    is_file: F,
    is_dir: D,
    list_dir: L,
)
    ensures
        answers_files(is_file, oracle_of(is_file, is_dir, list_dir)),
        answers_dirs(is_dir, oracle_of(is_file, is_dir, list_dir)),
        answers_listings(list_dir, oracle_of(is_file, is_dir, list_dir)),
{
    let o = oracle_of(is_file, is_dir, list_dir);
    assert forall|s: String, b: bool| #[trigger] is_file.ensures((s,), b) implies (o.0)(s@, b) by {
        assert(s@ == s@ && is_file.ensures((s,), b));
    }
    assert forall|s: String, b: bool| #[trigger] is_dir.ensures((s,), b) implies (o.1)(s@, b) by {
        assert(s@ == s@ && is_dir.ensures((s,), b));
    }
    assert forall|s: String, v: Vec<String>| #[trigger] list_dir.ensures((s,), v) implies (o.2)(
        s@,
        views(v@),
    ) by {
        assert(s@ == s@ && views(v@) == views(v@) && list_dir.ensures((s,), v));
    }
}

/// Checks whether a name holds a `.`.
fn contains_dot(name: &str) -> (b: bool)
    ensures
        b == has_dot(name@),
{
    let n = name.unicode_len();
    let mut i: usize = 0;
    while i < n
        invariant
            n == name@.len(),
            i <= n,
            forall|k: int| 0 <= k < i ==> name@[k] != '.',
        decreases n - i,
    {
        if name.get_char(i) == '.' {
            return true;
        }
        i = i + 1;
    }
    false
}

/// Resolves an icon name to a file over the given search roots, asking the
/// file system through `is_file`, `is_dir` and `list_dir` (the names of a
/// directory's entries; empty where it cannot be read). The result is what
/// the search program for the name and roots gives for the answers.
pub fn resolve_icon_uncached<F, D, L>(
    icon_name: &str,
    roots: &Vec<String>,
    is_file: &F,
    is_dir: &D,
    list_dir: &L,
) -> (r: Option<String>) where F: Fn(String) -> bool, D: Fn(String) -> bool, L: Fn(String) -> Vec<String>
    requires
        forall|s: String| is_file.requires((s,)),
        forall|s: String| is_dir.requires((s,)),
        forall|s: String| list_dir.requires((s,)),
    ensures
        runs(oracle_of(*is_file, *is_dir, *list_dir), search_program(icon_name@, views(roots@)), opt_view(r)),
{
    let ghost o = oracle_of(*is_file, *is_dir, *list_dir);
    let ghost vr = views(roots@);
    let ghost name = icon_name@;
    let ghost names_v = candidate_names_spec(name);
    let ghost has_ext_v = has_graphic_ext_spec(name);
    let ghost symbolic_v = symbolic_names_spec(names_v);
    let ghost a0 = seq![Probe::File(name)];
    let ghost a1 = pixmaps_part(vr, names_v, has_ext_v);
    let ghost a2 = theme_part(vr, names_v, has_ext_v);
    let ghost a3 = size_part(vr, names_v, has_ext_v);
    let ghost a4 = if has_dot(name) {
        Seq::<Probe>::empty()
    } else {
        listing_part(vr, name)
    };
    let ghost a5 = if symbolic_v.len() > 0 {
        theme_part(vr, symbolic_v, has_ext_v)
    } else {
        Seq::<Probe>::empty()
    };
    proof {
        lemma_oracle_answers(*is_file, *is_dir, *list_dir);
        assert(search_program(name, vr) == a0 + a1 + a2 + a3 + a4 + a5);
    }
    let mut direct = String::new();
    string_push_str(&mut direct, icon_name);
    proof {
        assert(direct@ =~= icon_name@);
    }
    let found = probe_file(is_file, Ghost(o), direct);
    if found.is_some() {
        proof {
            let p = opt_view(found)->0;
            lemma_hits_extend(o, a0, a1, p);
            lemma_hits_extend(o, a0 + a1, a2, p);
            lemma_hits_extend(o, a0 + a1 + a2, a3, p);
            lemma_hits_extend(o, a0 + a1 + a2 + a3, a4, p);
            lemma_hits_extend(o, a0 + a1 + a2 + a3 + a4, a5, p);
            lemma_settles_runs(o, a0 + a1 + a2 + a3 + a4 + a5, opt_view(found));
        }
        return found;
    }
    let names = candidate_names(icon_name);
    let has_ext = has_graphic_ext(icon_name);
    proof {
        assert(views(names@) =~= names_v);
    }
    let mut pixmaps: Vec<bool> = Vec::new();
    let mut ri: usize = 0;
    while ri < roots.len()
        invariant
            ri <= roots@.len(),
            pixmaps@.len() == ri,
            forall|k: int| 0 <= k < ri ==> #[trigger] pixmaps@[k] == is_pixmaps_root(roots@[k]@),
        decreases roots@.len() - ri,
    {
        pixmaps.push(path_ends_with(roots[ri].as_str(), "pixmaps"));
        ri = ri + 1;
    }
    let found = search_pixmaps(is_file, Ghost(o), roots, &pixmaps, &names, has_ext);
    proof {
        lemma_settle_after(o, a0, a1, opt_view(found));
    }
    if found.is_some() {
        proof {
            let p = opt_view(found)->0;
            lemma_hits_extend(o, a0 + a1, a2, p);
            lemma_hits_extend(o, a0 + a1 + a2, a3, p);
            lemma_hits_extend(o, a0 + a1 + a2 + a3, a4, p);
            lemma_hits_extend(o, a0 + a1 + a2 + a3 + a4, a5, p);
            lemma_settles_runs(o, a0 + a1 + a2 + a3 + a4 + a5, opt_view(found));
        }
        return found;
    }
    let found = search_theme_trees(is_file, is_dir, Ghost(o), roots, &pixmaps, &names, has_ext);
    proof {
        lemma_settle_after(o, a0 + a1, a2, opt_view(found));
    }
    if found.is_some() {
        proof {
            let p = opt_view(found)->0;
            lemma_hits_extend(o, a0 + a1 + a2, a3, p);
            lemma_hits_extend(o, a0 + a1 + a2 + a3, a4, p);
            lemma_hits_extend(o, a0 + a1 + a2 + a3 + a4, a5, p);
            lemma_settles_runs(o, a0 + a1 + a2 + a3 + a4 + a5, opt_view(found));
        }
        return found;
    }
    let found = search_size_dirs(is_file, is_dir, Ghost(o), roots, &names, has_ext);
    proof {
        lemma_settle_after(o, a0 + a1 + a2, a3, opt_view(found));
    }
    if found.is_some() {
        proof {
            let p = opt_view(found)->0;
            lemma_hits_extend(o, a0 + a1 + a2 + a3, a4, p);
            lemma_hits_extend(o, a0 + a1 + a2 + a3 + a4, a5, p);
            lemma_settles_runs(o, a0 + a1 + a2 + a3 + a4 + a5, opt_view(found));
        }
        return found;
    }
    let found = if contains_dot(icon_name) {
        proof {
            lemma_passes_empty(o);
        }
        None
    } else {
        search_listings(is_dir, list_dir, Ghost(o), roots, &pixmaps, icon_name)
    };
    proof {
        lemma_settle_after(o, a0 + a1 + a2 + a3, a4, opt_view(found));
    }
    if found.is_some() {
        proof {
            let p = opt_view(found)->0;
            lemma_hits_extend(o, a0 + a1 + a2 + a3 + a4, a5, p);
            lemma_settles_runs(o, a0 + a1 + a2 + a3 + a4 + a5, opt_view(found));
        }
        return found;
    }
    let symbolic = symbolic_names(&names);
    proof {
        assert(names@.map_values(|n: String| n@) =~= names_v);
        assert(views(symbolic@) =~= symbolic_v);
    }
    let found = if symbolic.len() > 0 {
        search_theme_trees(is_file, is_dir, Ghost(o), roots, &pixmaps, &symbolic, has_ext)
    } else {
        proof {
            lemma_passes_empty(o);
        }
        None
    };
    proof {
        lemma_settle_after(o, a0 + a1 + a2 + a3 + a4, a5, opt_view(found));
        lemma_settles_runs(o, a0 + a1 + a2 + a3 + a4 + a5, opt_view(found));
    }
    found
}

/// Resolves an icon name with a cache of earlier answers: the name is
/// trimmed; an empty name resolves to nothing; a name already in the cache
/// gets the cached answer without any probe and leaves the cache as it was;
/// any other name is searched for and its answer cached.
pub fn resolve_icon<F, D, L>(
    cache: &mut LookupCache,
    icon_name: &str,
    roots: &Vec<String>,
    is_file: &F,
    is_dir: &D,
    list_dir: &L,
) -> (r: Option<String>) where F: Fn(String) -> bool, D: Fn(String) -> bool, L: Fn(String) -> Vec<String>
    requires
        forall|s: String| is_file.requires((s,)),
        forall|s: String| is_dir.requires((s,)),
        forall|s: String| list_dir.requires((s,)),
    ensures
        trimmed(icon_name@).len() == 0 ==> r is None && forall|k| #[trigger] final(cache).spec_get(k)
            == old(cache).spec_get(k),
        trimmed(icon_name@).len() > 0 && old(cache).spec_get(trimmed(icon_name@)) is Some ==> {
            &&& old(cache).spec_get(trimmed(icon_name@)) == Some(opt_view(r))
            &&& forall|k| #[trigger] final(cache).spec_get(k) == old(cache).spec_get(k)
        },
        trimmed(icon_name@).len() > 0 && old(cache).spec_get(trimmed(icon_name@)) is None ==> {
            &&& runs(
                oracle_of(*is_file, *is_dir, *list_dir),
                search_program(trimmed(icon_name@), views(roots@)),
                opt_view(r),
            )
            &&& final(cache).spec_get(trimmed(icon_name@)) == Some(opt_view(r))
            &&& forall|k| k != trimmed(icon_name@) ==> #[trigger] final(cache).spec_get(k) == old(
                cache,
            ).spec_get(k)
        },
{
    let name = trim_str(icon_name);
    if name.unicode_len() == 0 {
        return None;
    }
    match cache.get(name) {
        Some(cached) => cached,
        None => {
            let resolved = resolve_icon_uncached(name, roots, is_file, is_dir, list_dir);
            let mut key = String::new();
            string_push_str(&mut key, name);
            let stored = match &resolved {
                Some(p) => Some(p.clone()),
                None => None,
            };
            proof {
                assert(key@ =~= name@);
            }
            cache.insert(key, stored);
            resolved
        },
    }
}

} // verus!
