//! Resolving an import specifier to one of the project's source files: relative paths,
//! then `tsconfig.json` path aliases, each tried with the configured extensions and as a
//! directory index.
use vstd::prelude::*;

use crate::json::{TsPaths, TsPathsView};
use crate::path::{
    join, join_exec, parent, parent_exec, same_path, with_extension, with_extension_exec,
    KeyedPath,
};
use crate::text::{
    chars_eq, chars_of, concat_chars, ends_with, ends_with_exec, find_char, find_char_exec,
    replace_char, replace_char_exec, slice_chars, starts_with, starts_with_exec, string_views,
};

verus! {

broadcast use vstd::string::group_string_axioms;

/// How an import specifier resolves: to a candidate path that names one of the files, or
/// to nothing.
pub enum Resolution {
    Found(Seq<char>),
    Missing,
}

/// Executable form of [`Resolution`].
pub enum Resolved {
    Found(Vec<char>),
    Missing,
}

impl View for Resolved {
    type V = Resolution;

    open spec fn view(&self) -> Resolution {
        match self {
            Resolved::Found(p) => Resolution::Found(p@),
            Resolved::Missing => Resolution::Missing,
        }
    }
}

/// Some file is the same path as `c`.
pub open spec fn names_a_file(files: Seq<Seq<char>>, c: Seq<char>) -> bool {
    exists|i: int| 0 <= i < files.len() && same_path(#[trigger] files[i], c)
}

/// `base` with `.` and each extension appended, in the order of the extensions (Node's
/// way: `./a.b` finds `a.b.ts`).
pub open spec fn appended(base: Seq<char>, exts: Seq<Seq<char>>) -> Seq<Seq<char>> {
    exts.map_values(|e: Seq<char>| base + "."@ + e)
}

/// For each extension in turn, `base` with its extension replaced by it, and
/// `base/index.<ext>`.
pub open spec fn replaced_or_index(base: Seq<char>, exts: Seq<Seq<char>>) -> Seq<Seq<char>>
    decreases exts.len(),
{
    if exts.len() == 0 {
        Seq::empty()
    } else {
        let e = exts.last();
        replaced_or_index(base, exts.drop_last()) + seq![
            with_extension(base, e),
            join(base, "index."@ + e),
        ]
    }
}

/// The paths tried for `base`, in order: `base` itself, then `base` with each extension
/// appended, then for each extension `base` with its extension replaced by it and
/// `base/index.<ext>`.
pub open spec fn candidates(base: Seq<char>, exts: Seq<Seq<char>>) -> Seq<Seq<char>> {
    seq![base] + appended(base, exts) + replaced_or_index(base, exts)
}

/// The first of `cands` that names a file.
pub open spec fn first_existing(cands: Seq<Seq<char>>, files: Seq<Seq<char>>) -> Option<
    Seq<char>,
>
    decreases cands.len(),
{
    if cands.len() == 0 {
        None
    } else if names_a_file(files, cands[0]) {
        Some(cands[0])
    } else {
        first_existing(cands.drop_first(), files)
    }
}

/// `candidate_resolution`: the first candidate for `base` that names a file.
pub open spec fn candidate_resolution(
    base: Seq<char>,
    files: Seq<Seq<char>>,
    exts: Seq<Seq<char>>,
) -> Option<Seq<char>> {
    first_existing(candidates(base, exts), files)
}

/// The first alias target that resolves, each with `*` replaced by `middle` when the
/// alias had a `*`, joined to `dir`.
pub open spec fn try_targets(
    dir: Seq<char>,
    targets: Seq<Seq<char>>,
    middle: Option<Seq<char>>,
    files: Seq<Seq<char>>,
    exts: Seq<Seq<char>>,
) -> Option<Seq<char>>
    decreases targets.len(),
{
    if targets.len() == 0 {
        None
    } else {
        let t = targets[0];
        let expanded = match middle {
            Some(m) => replace_char(t, '*', m),
            None => t,
        };
        match candidate_resolution(join(dir, expanded), files, exts) {
            Some(c) => Some(c),
            None => try_targets(dir, targets.drop_first(), middle, files, exts),
        }
    }
}

/// `resolve_ts_path` over the aliases, in order: an alias with a `*` matches a specifier
/// that starts with the part before the `*`, ends with the part after it, and is at least
/// as long as the two together (as TypeScript's `paths` match); an alias without one
/// matches itself only.
pub open spec fn ts_resolve_from(
    dir: Seq<char>,
    raw: Seq<char>,
    mappings: Seq<(Seq<char>, Seq<Seq<char>>)>,
    files: Seq<Seq<char>>,
    exts: Seq<Seq<char>>,
) -> Resolution
    decreases mappings.len(),
{
    if mappings.len() == 0 {
        Resolution::Missing
    } else {
        let alias = mappings[0].0;
        let targets = mappings[0].1;
        let rest = ts_resolve_from(dir, raw, mappings.drop_first(), files, exts);
        match find_char(alias, '*') {
            Some(star) => {
                let prefix = alias.take(star);
                let suffix = alias.skip(star + 1);
                if starts_with(raw, prefix) && ends_with(raw, suffix) && prefix.len()
                    + suffix.len() <= raw.len() {
                    let middle = raw.subrange(prefix.len() as int, raw.len() - suffix.len());
                    match try_targets(dir, targets, Some(middle), files, exts) {
                        Some(c) => Resolution::Found(c),
                        None => rest,
                    }
                } else {
                    rest
                }
            },
            None => if alias == raw {
                match try_targets(dir, targets, None, files, exts) {
                    Some(c) => Resolution::Found(c),
                    None => rest,
                }
            } else {
                rest
            },
        }
    }
}

/// How the specifier `raw`, imported by the file `current`, resolves: a specifier that
/// starts with `.` is relative to the importing file's directory (the root when it has
/// none); any other goes through the path aliases, against `baseUrl` or the root.
pub open spec fn import_resolution(
    root: Seq<char>,
    current: Seq<char>,
    raw: Seq<char>,
    files: Seq<Seq<char>>,
    ts: TsPathsView,
    exts: Seq<Seq<char>>,
) -> Resolution {
    if raw.len() > 0 && raw[0] == '.' {
        let dir = match parent(current) {
            Some(p) => p,
            None => root,
        };
        match candidate_resolution(join(dir, raw), files, exts) {
            Some(c) => Resolution::Found(c),
            None => Resolution::Missing,
        }
    } else {
        let dir = match ts.0 {
            Some(b) => b,
            None => root,
        };
        ts_resolve_from(dir, raw, ts.1, files, exts)
    }
}

// ---------------------------------------------------------------------------------------
pub open spec fn keyed_paths(files: Seq<KeyedPath>) -> Seq<Seq<char>> {
    files.map_values(|k: KeyedPath| k.path@)
}

pub open spec fn files_wf(files: Seq<KeyedPath>) -> bool {
    forall|i: int| 0 <= i < files.len() ==> (#[trigger] files[i]).wf()
}

pub open spec fn chars_views(v: Seq<Vec<char>>) -> Seq<Seq<char>> {
    v.map_values(|x: Vec<char>| x@)
}

/// Whether some file is the same path as `c`.
pub fn names_a_file_exec(files: &Vec<KeyedPath>, c: &Vec<char>) -> (r: bool)
    requires
        files_wf(files@),
    ensures
        r == names_a_file(keyed_paths(files@), c@),
{
    let kc = KeyedPath::new(c.clone());
    let mut i: usize = 0;
    while i < files.len()
        invariant
            i <= files@.len(),
            files_wf(files@),
            kc.wf(),
            kc.path@ == c@,
            forall|j: int| 0 <= j < i ==> !same_path(#[trigger] keyed_paths(files@)[j], c@),
        decreases files@.len() - i,
    {
        if files[i].same(&kc) {
            proof {
                assert(same_path(keyed_paths(files@)[i as int], c@));
            }
            return true;
        }
        i = i + 1;
    }
    false
}

fn candidates_exec(base: &Vec<char>, exts: &Vec<Vec<char>>) -> (r: Vec<Vec<char>>)
    ensures
        chars_views(r@) == candidates(base@, chars_views(exts@)),
{
    let ghost ev = chars_views(exts@);
    let dot = chars_of(".");
    let index = chars_of("index.");
    let mut out: Vec<Vec<char>> = Vec::new();
    out.push(base.clone());
    let mut k: usize = 0;
    proof {
        assert(chars_views(out@) =~= seq![base@] + appended(base@, ev.take(0)));
    }
    while k < exts.len()
        invariant
            k <= exts@.len(),
            ev == chars_views(exts@),
            dot@ == "."@,
            chars_views(out@) == seq![base@] + appended(base@, ev.take(k as int)),
        decreases exts@.len() - k,
    {
        let ghost o = chars_views(out@);
        out.push(concat_chars(&concat_chars(base, &dot), &exts[k]));
        proof {
            assert(ev.take(k as int + 1) =~= ev.take(k as int).push(ev[k as int]));
            assert(appended(base@, ev.take(k as int + 1)) =~= appended(base@, ev.take(k as int)).push(
                base@ + "."@ + ev[k as int],
            ));
            assert(chars_views(out@) =~= o.push(base@ + "."@ + ev[k as int]));
        }
        k = k + 1;
    }
    let ghost front = chars_views(out@);
    proof {
        assert(ev.take(k as int) =~= ev);
        assert(ev.take(0) =~= Seq::<Seq<char>>::empty());
        assert(front + replaced_or_index(base@, ev.take(0)) =~= front);
    }
    let mut j: usize = 0;
    while j < exts.len()
        invariant
            j <= exts@.len(),
            ev == chars_views(exts@),
            index@ == "index."@,
            chars_views(out@) == front + replaced_or_index(base@, ev.take(j as int)),
        decreases exts@.len() - j,
    {
        let ghost o = chars_views(out@);
        proof {
            assert(ev.take(j as int + 1).drop_last() =~= ev.take(j as int));
            assert(ev.take(j as int + 1).last() == ev[j as int]);
        }
        let c1 = with_extension_exec(base, &exts[j]);
        let c2 = join_exec(base, &concat_chars(&index, &exts[j]));
        out.push(c1);
        out.push(c2);
        proof {
            assert(chars_views(out@) =~= o + seq![c1@, c2@]);
        }
        j = j + 1;
    }
    proof {
        assert(ev.take(j as int) =~= ev);
    }
    out
}

/// The first of the candidate paths that names a file.
fn first_existing_exec(cands: &Vec<Vec<char>>, files: &Vec<KeyedPath>) -> (r: Option<Vec<char>>)
    requires
        files_wf(files@),
    ensures
        r matches Some(c) ==> first_existing(chars_views(cands@), keyed_paths(files@)) == Some(c@),
        r is None ==> first_existing(chars_views(cands@), keyed_paths(files@)) is None,
{
    let ghost cv = chars_views(cands@);
    let ghost fs = keyed_paths(files@);
    let mut k: usize = 0;
    proof {
        assert(cv.skip(0) =~= cv);
    }
    while k < cands.len()
        invariant
            k <= cands@.len(),
            files_wf(files@),
            cv == chars_views(cands@),
            fs == keyed_paths(files@),
            first_existing(cv, fs) == first_existing(cv.skip(k as int), fs),
        decreases cands@.len() - k,
    {
        proof {
            assert(cv.skip(k as int)[0] == cands@[k as int]@);
            assert(cv.skip(k as int).drop_first() =~= cv.skip(k as int + 1));
        }
        if names_a_file_exec(files, &cands[k]) {
            return Some(cands[k].clone());
        }
        k = k + 1;
    }
    proof {
        assert(cv.skip(k as int) =~= Seq::<Seq<char>>::empty());
    }
    None
}

/// The first candidate for `base` that names a file.
pub fn resolve_candidate(base: &Vec<char>, files: &Vec<KeyedPath>, exts: &Vec<Vec<char>>) -> (r:
    Option<Vec<char>>)
    requires
        files_wf(files@),
    ensures
        r matches Some(c) ==> candidate_resolution(base@, keyed_paths(files@), chars_views(exts@))
            == Some(c@),
        r is None ==> candidate_resolution(base@, keyed_paths(files@), chars_views(exts@)) is None,
{
    let cands = candidates_exec(base, exts);
    first_existing_exec(&cands, files)
}

pub open spec fn opt_chars(o: Option<&Vec<char>>) -> Option<Seq<char>> {
    match o {
        Some(v) => Some(v@),
        None => None,
    }
}

/// The first alias target that resolves against `dir`, with `*` replaced by `middle`
/// when there is one.
fn try_targets_exec(
    dir: &Vec<char>,
    targets: &Vec<String>,
    middle: Option<&Vec<char>>,
    files: &Vec<KeyedPath>,
    exts: &Vec<Vec<char>>,
) -> (r: Option<Vec<char>>)
    requires
        files_wf(files@),
    ensures
        r matches Some(c) ==> try_targets(
            dir@,
            string_views(targets@),
            opt_chars(middle),
            keyed_paths(files@),
            chars_views(exts@),
        ) == Some(c@),
        r is None ==> try_targets(
            dir@,
            string_views(targets@),
            opt_chars(middle),
            keyed_paths(files@),
            chars_views(exts@),
        ) is None,
{
    let ghost tv = string_views(targets@);
    let ghost m = opt_chars(middle);
    let ghost fs = keyed_paths(files@);
    let ghost ev = chars_views(exts@);
    let mut k: usize = 0;
    proof {
        assert(tv.skip(0) =~= tv);
    }
    while k < targets.len()
        invariant
            k <= targets@.len(),
            files_wf(files@),
            tv == string_views(targets@),
            m == opt_chars(middle),
            fs == keyed_paths(files@),
            ev == chars_views(exts@),
            try_targets(dir@, tv, m, fs, ev) == try_targets(dir@, tv.skip(k as int), m, fs, ev),
        decreases targets@.len() - k,
    {
        proof {
            assert(tv.skip(k as int)[0] == targets@[k as int]@);
            assert(tv.skip(k as int).drop_first() =~= tv.skip(k as int + 1));
        }
        let t = chars_of(targets[k].as_str());
        let expanded = match middle {
            Some(mid) => replace_char_exec(&t, '*', mid),
            None => t,
        };
        let base = join_exec(dir, &expanded);
        match resolve_candidate(&base, files, exts) {
            Some(c) => {
                return Some(c);
            },
            None => {},
        }
        k = k + 1;
    }
    proof {
        assert(tv.skip(k as int) =~= Seq::<Seq<char>>::empty());
    }
    None
}

/// `resolve_ts_path` followed by the fallback to nothing: the first alias, in order,
/// whose targets resolve the specifier.
pub fn resolve_ts_path(
    dir: &Vec<char>,
    raw: &Vec<char>,
    mappings: &Vec<(String, Vec<String>)>,
    files: &Vec<KeyedPath>,
    exts: &Vec<Vec<char>>,
) -> (r: Resolved)
    requires
        files_wf(files@),
    ensures
        r@ == ts_resolve_from(
            dir@,
            raw@,
            mappings@.map_values(
                |m: (String, Vec<String>)| (m.0@, m.1@.map_values(|s: String| s@)),
            ),
            keyed_paths(files@),
            chars_views(exts@),
        ),
{
    let ghost mv = mappings@.map_values(
        |m: (String, Vec<String>)| (m.0@, m.1@.map_values(|s: String| s@)),
    );
    let ghost fs = keyed_paths(files@);
    let ghost ev = chars_views(exts@);
    let mut k: usize = 0;
    proof {
        assert(mv.skip(0) =~= mv);
    }
    while k < mappings.len()
        invariant
            k <= mappings@.len(),
            files_wf(files@),
            mv == mappings@.map_values(
                |m: (String, Vec<String>)| (m.0@, m.1@.map_values(|s: String| s@)),
            ),
            fs == keyed_paths(files@),
            ev == chars_views(exts@),
            ts_resolve_from(dir@, raw@, mv, fs, ev) == ts_resolve_from(
                dir@,
                raw@,
                mv.skip(k as int),
                fs,
                ev,
            ),
        decreases mappings@.len() - k,
    {
        let ghost rest = mv.skip(k as int);
        proof {
            assert(rest[0] == mv[k as int]);
            assert(rest.drop_first() =~= mv.skip(k as int + 1));
            assert(mv[k as int].1 == string_views(mappings@[k as int].1@));
        }
        let alias = chars_of(mappings[k].0.as_str());
        let targets = &mappings[k].1;
        match find_char_exec(&alias, '*') {
            Some(star) => {
                let prefix = slice_chars(&alias, 0, star);
                let suffix = slice_chars(&alias, star + 1, alias.len());
                proof {
                    assert(prefix@ == alias@.take(star as int));
                    assert(suffix@ == alias@.skip(star as int + 1));
                }
                if starts_with_exec(raw, &prefix) && ends_with_exec(raw, &suffix) {
                    if prefix.len() <= raw.len() - suffix.len() {
                        let middle = slice_chars(raw, prefix.len(), raw.len() - suffix.len());
                        match try_targets_exec(dir, targets, Some(&middle), files, exts) {
                            Some(c) => {
                                return Resolved::Found(c);
                            },
                            None => {},
                        }
                    }
                }
            },
            None => {
                if chars_eq(&alias, raw) {
                    match try_targets_exec(dir, targets, None, files, exts) {
                        Some(c) => {
                            return Resolved::Found(c);
                        },
                        None => {},
                    }
                }
            },
        }
        k = k + 1;
    }
    proof {
        assert(mv.skip(k as int) =~= Seq::<(Seq<char>, Seq<Seq<char>>)>::empty());
    }
    Resolved::Missing
}

/// How the specifier `raw`, imported by `current`, resolves among the project's files:
/// a specifier that starts with `.` against the importing file's directory, any other
/// through the path aliases.
pub fn resolve_import(
    root: &Vec<char>,
    current: &Vec<char>,
    raw: &Vec<char>,
    files: &Vec<KeyedPath>,
    ts: &TsPaths,
    exts: &Vec<Vec<char>>,
) -> (r: Resolved)
    requires
        files_wf(files@),
    ensures
        r@ == import_resolution(
            root@,
            current@,
            raw@,
            keyed_paths(files@),
            ts@,
            chars_views(exts@),
        ),
{
    if raw.len() > 0 && raw[0] == '.' {
        let dir = match parent_exec(current) {
            Some(p) => p,
            None => root.clone(),
        };
        match resolve_candidate(&join_exec(&dir, raw), files, exts) {
            Some(c) => Resolved::Found(c),
            None => Resolved::Missing,
        }
    } else {
        let dir = match &ts.base_url {
            Some(b) => chars_of(b.as_str()),
            None => root.clone(),
        };
        resolve_ts_path(&dir, raw, &ts.mappings, files, exts)
    }
}


// ---------------------------------------------------------------------------------------
// What a resolution finds is a source file.
proof fn lemma_first_existing_names(cands: Seq<Seq<char>>, files: Seq<Seq<char>>)
    ensures
        first_existing(cands, files) matches Some(c) ==> names_a_file(files, c),
    decreases cands.len(),
{
    if cands.len() > 0 && !names_a_file(files, cands[0]) {
        lemma_first_existing_names(cands.drop_first(), files);
    }
}

proof fn lemma_try_targets_names(
    dir: Seq<char>,
    targets: Seq<Seq<char>>,
    middle: Option<Seq<char>>,
    files: Seq<Seq<char>>,
    exts: Seq<Seq<char>>,
)
    ensures
        try_targets(dir, targets, middle, files, exts) matches Some(c) ==> names_a_file(files, c),
    decreases targets.len(),
{
    if targets.len() > 0 {
        let t = targets[0];
        let expanded = match middle {
            Some(m) => replace_char(t, '*', m),
            None => t,
        };
        lemma_first_existing_names(candidates(join(dir, expanded), exts), files);
        lemma_try_targets_names(dir, targets.drop_first(), middle, files, exts);
    }
}

proof fn lemma_ts_resolve_names(
    dir: Seq<char>,
    raw: Seq<char>,
    mappings: Seq<(Seq<char>, Seq<Seq<char>>)>,
    files: Seq<Seq<char>>,
    exts: Seq<Seq<char>>,
)
    ensures
        ts_resolve_from(dir, raw, mappings, files, exts) matches Resolution::Found(c) ==> names_a_file(
            files,
            c,
        ),
    decreases mappings.len(),
{
    if mappings.len() > 0 {
        lemma_ts_resolve_names(dir, raw, mappings.drop_first(), files, exts);
        let alias = mappings[0].0;
        let targets = mappings[0].1;
        match find_char(alias, '*') {
            Some(star) => {
                let prefix = alias.take(star);
                let suffix = alias.skip(star + 1);
                let middle = raw.subrange(prefix.len() as int, raw.len() - suffix.len());
                lemma_try_targets_names(dir, targets, Some(middle), files, exts);
            },
            None => {
                lemma_try_targets_names(dir, targets, None, files, exts);
            },
        }
    }
}

/// Law: what an import resolves to is the same path as one of the source files.
pub proof fn law_found_names_a_file(
    root: Seq<char>,
    current: Seq<char>,
    raw: Seq<char>,
    files: Seq<Seq<char>>,
    ts: TsPathsView,
    exts: Seq<Seq<char>>,
)
    ensures
        import_resolution(root, current, raw, files, ts, exts) matches Resolution::Found(c)
            ==> names_a_file(files, c),
{
    if raw.len() > 0 && raw[0] == '.' {
        let dir = match parent(current) {
            Some(p) => p,
            None => root,
        };
        lemma_first_existing_names(candidates(join(dir, raw), exts), files);
    } else {
        let dir = match ts.0 {
            Some(b) => b,
            None => root,
        };
        lemma_ts_resolve_names(dir, raw, ts.1, files, exts);
    }
}

// ---------------------------------------------------------------------------------------
// Every target of a matching alias is tried.
/// The base path that the alias target `t` gives for the specifier `raw`, joined to `dir`,
/// when the alias matches `raw`: with a `*`, the specifier starts with the part before the
/// `*`, ends with the part after it, and is at least as long as both, and the `*` of the
/// target takes the rest; without one, the alias is the specifier and the target stands
/// as it is.
pub open spec fn alias_target_base(dir: Seq<char>, alias: Seq<char>, raw: Seq<char>, t: Seq<char>) -> Option<
    Seq<char>,
> {
    match find_char(alias, '*') {
        Some(star) => {
            let prefix = alias.take(star);
            let suffix = alias.skip(star + 1);
            if starts_with(raw, prefix) && ends_with(raw, suffix) && prefix.len() + suffix.len()
                <= raw.len() {
                Some(
                    join(
                        dir,
                        replace_char(t, '*', raw.subrange(prefix.len() as int, raw.len() - suffix.len())),
                    ),
                )
            } else {
                None
            }
        },
        None => if alias == raw {
            Some(join(dir, t))
        } else {
            None
        },
    }
}

proof fn lemma_first_existing_some(cands: Seq<Seq<char>>, files: Seq<Seq<char>>, c: Seq<char>)
    requires
        cands.contains(c),
        names_a_file(files, c),
    ensures
        first_existing(cands, files) is Some,
    decreases cands.len(),
{
    if !names_a_file(files, cands[0]) {
        let k = choose|k: int| 0 <= k < cands.len() && cands[k] == c;
        assert(k != 0);
        assert(cands.drop_first()[k - 1] == c);
        lemma_first_existing_some(cands.drop_first(), files, c);
    }
}

proof fn lemma_try_targets_some(
    dir: Seq<char>,
    targets: Seq<Seq<char>>,
    middle: Option<Seq<char>>,
    files: Seq<Seq<char>>,
    exts: Seq<Seq<char>>,
    k: int,
    c: Seq<char>,
)
    requires
        0 <= k < targets.len(),
        candidates(
            join(
                dir,
                match middle {
                    Some(m) => replace_char(targets[k], '*', m),
                    None => targets[k],
                },
            ),
            exts,
        ).contains(c),
        names_a_file(files, c),
    ensures
        try_targets(dir, targets, middle, files, exts) is Some,
    decreases targets.len(),
{
    if k == 0 {
        lemma_first_existing_some(
            candidates(
                join(
                    dir,
                    match middle {
                        Some(m) => replace_char(targets[0], '*', m),
                        None => targets[0],
                    },
                ),
                exts,
            ),
            files,
            c,
        );
    } else {
        assert(targets.drop_first()[k - 1] == targets[k]);
        lemma_try_targets_some(dir, targets.drop_first(), middle, files, exts, k - 1, c);
    }
}

/// Law: an import through the path aliases resolves to some file whenever some alias that
/// matches the specifier has some target (whichever, in whatever place) with a candidate
/// path that names a file: each matching alias's targets are tried in turn, and each
/// matching alias in turn.
pub proof fn law_alias_targets_tried_in_turn(
    dir: Seq<char>,
    raw: Seq<char>,
    mappings: Seq<(Seq<char>, Seq<Seq<char>>)>,
    files: Seq<Seq<char>>,
    exts: Seq<Seq<char>>,
    i: int,
    k: int,
    base: Seq<char>,
    c: Seq<char>,
)
    requires
        0 <= i < mappings.len(),
        0 <= k < mappings[i].1.len(),
        alias_target_base(dir, mappings[i].0, raw, mappings[i].1[k]) == Some(base),
        candidates(base, exts).contains(c),
        names_a_file(files, c),
    ensures
        ts_resolve_from(dir, raw, mappings, files, exts) is Found,
    decreases i,
{
    if i > 0 {
        assert(mappings.drop_first()[i - 1] == mappings[i]);
        law_alias_targets_tried_in_turn(
            dir,
            raw,
            mappings.drop_first(),
            files,
            exts,
            i - 1,
            k,
            base,
            c,
        );
    } else {
        let alias = mappings[0].0;
        let targets = mappings[0].1;
        match find_char(alias, '*') {
            Some(star) => {
                let prefix = alias.take(star);
                let suffix = alias.skip(star + 1);
                let middle = raw.subrange(prefix.len() as int, raw.len() - suffix.len());
                lemma_try_targets_some(dir, targets, Some(middle), files, exts, k, c);
            },
            None => {
                lemma_try_targets_some(dir, targets, None, files, exts, k, c);
            },
        }
    }
}

} // verus!
