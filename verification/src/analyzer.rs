//! The analysis of a project: which walked files are source files, the module map, the
//! roots, the graph of imports, and the findings.
use vstd::prelude::*;

use globset::GlobSet;

use crate::config::{copy_strings, EffectiveConfig};
use crate::glob::{
    add_pattern, build_set, glob_parses, globset_builds, globset_matches, new_builder,
    set_is_match, set_patterns,
};
use crate::graph::{
    copy_keyed, covers, covers_exec, edges_view, edges_wf, key_index, key_index_exec, reachable,
    visit_order, reachable_files,
};
use crate::json::{
    package_entry_candidates, package_root_candidates, JsonValue, TsPaths, TsPathsView,
};
use crate::model::{findings_view, Finding, FindingKind, FindingView, RemoveSummary};
use crate::module::{
    has_possible_side_effects, parsed_module_info, side_effects_possible, ImportRef, ImportRefView,
    ModuleInfo, ModuleInfoView,
};
use crate::path::{
    all_wf, extension, extension_exec, join, join_exec, keyed_view, path_lt, same_path,
    sort_keyed_paths, sort_paths, KeyedPath,
};
use crate::resolve::{
    chars_views, files_wf, keyed_paths, import_resolution, resolve_import, Resolution, Resolved,
};
use crate::text::{
    chars_eq, chars_lt, chars_lt_exec, chars_of, concat_chars, owned, replace_char,
    replace_char_exec, starts_with, starts_with_exec, string_from_chars, string_views,
};

verus! {

broadcast use vstd::string::group_string_axioms;

/// The options of an analysis: the globs a source file must match (or lie under `src/`)
/// and must not match, the entry points, and the source extensions.
#[derive(Clone, Debug)]
pub struct AnalyzerOptions {
    pub include_globs: Vec<String>,
    pub exclude: Vec<String>,
    pub entry: Vec<String>,
    pub extensions: Vec<String>,
}

impl AnalyzerOptions {
    /// The options that a run's settings give.
    pub fn from_config(cfg: EffectiveConfig) -> (r: AnalyzerOptions)
        ensures
            string_views(r.include_globs@) == string_views(cfg.include_globs@),
            string_views(r.exclude@) == string_views(cfg.exclude@),
            string_views(r.entry@) == string_views(cfg.entry@),
            string_views(r.extensions@) == string_views(cfg.extensions@),
    {
        AnalyzerOptions {
            include_globs: cfg.include_globs,
            exclude: cfg.exclude,
            entry: cfg.entry,
            extensions: cfg.extensions,
        }
    }
}

/// The analyzer, holding its options.
#[derive(Clone, Debug)]
pub struct Analyzer {
    opts: AnalyzerOptions,
}

/// What a scan found, in the order of the findings' ids.
#[derive(Clone, Debug)]
pub struct ScanResult {
    pub findings: Vec<Finding>,
}

/// Why an analysis stopped: a glob that does not parse, a glob set that does not build, or
/// an unreached file missing from the module map. The last breaks an assumption of the
/// analysis; a run treats it as fatal.
pub enum ScanError {
    InvalidGlob { pattern: String, source: globset::Error },
    GlobSetBuild(globset::Error),
    MissingModule,
}

// ---------------------------------------------------------------------------------------
// Source files.
/// A file found by walking the project: its path, and its path relative to the root.
pub struct WalkedFile {
    pub path: String,
    pub rel: String,
}

pub open spec fn walked_view(w: Seq<WalkedFile>) -> Seq<(Seq<char>, Seq<char>)> {
    w.map_values(|f: WalkedFile| (f.path@, f.rel@))
}

/// The extension of a path, empty when it has none.
pub open spec fn ext_of(path: Seq<char>) -> Seq<char> {
    match extension(path) {
        Some(e) => e,
        None => Seq::empty(),
    }
}

/// The relative path as the globs see it, with `/` for `\`.
pub open spec fn rel_key(rel: Seq<char>) -> Seq<char> {
    replace_char(rel, '\\', "/"@)
}

/// A walked file is a source file: not excluded, of an allowed extension, and included
/// by a glob or by lying under `src/` (every file is, when there are no include globs).
pub open spec fn is_source_file(
    include_globs: Seq<Seq<char>>,
    exclude: Seq<Seq<char>>,
    exts: Seq<Seq<char>>,
    w: (Seq<char>, Seq<char>),
) -> bool {
    let r = rel_key(w.1);
    &&& !globset_matches(exclude, r)
    &&& exts.contains(ext_of(w.0))
    &&& (include_globs.len() == 0 || globset_matches(include_globs, r) || starts_with(r, "src/"@))
}

/// The paths of the walked files that are source files, in walk order.
pub open spec fn source_paths(
    include_globs: Seq<Seq<char>>,
    exclude: Seq<Seq<char>>,
    exts: Seq<Seq<char>>,
    ws: Seq<(Seq<char>, Seq<char>)>,
) -> Seq<Seq<char>>
    decreases ws.len(),
{
    if ws.len() == 0 {
        Seq::empty()
    } else {
        let prev = source_paths(include_globs, exclude, exts, ws.drop_last());
        if is_source_file(include_globs, exclude, exts, ws.last()) {
            prev.push(ws.last().0)
        } else {
            prev
        }
    }
}

/// The first pattern that does not parse as a glob.
pub open spec fn first_bad_glob(ps: Seq<Seq<char>>) -> Option<Seq<char>>
    decreases ps.len(),
{
    if ps.len() == 0 {
        None
    } else if !glob_parses(ps[0]) {
        Some(ps[0])
    } else {
        first_bad_glob(ps.drop_first())
    }
}

/// How building a glob set from patterns ends: the first pattern that does not parse,
/// else whether the set builds.
pub enum GlobsOutcome {
    Built,
    BadGlob(Seq<char>),
    BuildFailed,
}

pub open spec fn globs_outcome(ps: Seq<Seq<char>>) -> GlobsOutcome {
    match first_bad_glob(ps) {
        Some(p) => GlobsOutcome::BadGlob(p),
        None => if globset_builds(ps) {
            GlobsOutcome::Built
        } else {
            GlobsOutcome::BuildFailed
        },
    }
}

/// What selecting the source files gives: the sorted paths, or the failure of the include
/// globs, then of the exclude globs.
pub enum SelectOutcome {
    Files(Seq<Seq<char>>),
    BadGlob(Seq<char>),
    BuildFailed,
}

pub open spec fn select_outcome(
    include_globs: Seq<Seq<char>>,
    exclude: Seq<Seq<char>>,
    exts: Seq<Seq<char>>,
    ws: Seq<(Seq<char>, Seq<char>)>,
) -> SelectOutcome {
    match globs_outcome(include_globs) {
        GlobsOutcome::BadGlob(p) => SelectOutcome::BadGlob(p),
        GlobsOutcome::BuildFailed => SelectOutcome::BuildFailed,
        GlobsOutcome::Built => match globs_outcome(exclude) {
            GlobsOutcome::BadGlob(p) => SelectOutcome::BadGlob(p),
            GlobsOutcome::BuildFailed => SelectOutcome::BuildFailed,
            GlobsOutcome::Built => SelectOutcome::Files(
                sort_paths(source_paths(include_globs, exclude, exts, ws)),
            ),
        },
    }
}

// ---------------------------------------------------------------------------------------
// The module map.
/// A source file's path with what it imports and exports.
pub struct MapEntry {
    pub key: KeyedPath,
    pub module: ModuleInfo,
}

/// The modules by path, in path order (a `BTreeMap` keyed by path).
pub struct ModuleMap {
    entries: Vec<MapEntry>,
}

pub type ModuleMapView = Seq<(Seq<char>, ModuleInfoView)>;

impl View for ModuleMap {
    type V = ModuleMapView;

    closed spec fn view(&self) -> ModuleMapView {
        self.entries@.map_values(|e: MapEntry| (e.key.path@, e.module@))
    }
}

impl ModuleMap {
    /// Each key holds its path's components.
    #[verifier::type_invariant]
    closed spec fn wf(&self) -> bool {
        forall|i: int| 0 <= i < self.entries@.len() ==> (#[trigger] self.entries@[i]).key.wf()
    }
}

/// How many leading keys of `m` order before `k`: where `k` belongs.
pub open spec fn map_pos(m: ModuleMapView, k: Seq<char>) -> int
    decreases m.len(),
{
    if m.len() == 0 {
        0
    } else if path_lt(m[0].0, k) {
        1 + map_pos(m.drop_first(), k)
    } else {
        0
    }
}

/// `BTreeMap::insert`: the value of an equal key is replaced, the key kept; a new key goes
/// in order.
pub open spec fn map_insert(m: ModuleMapView, k: Seq<char>, v: ModuleInfoView) -> ModuleMapView {
    let i = map_pos(m, k);
    if i < m.len() && same_path(m[i].0, k) {
        m.update(i, (m[i].0, v))
    } else {
        m.insert(i, (k, v))
    }
}

/// The map after inserting each pair in turn.
pub open spec fn build_map(pairs: Seq<(Seq<char>, ModuleInfoView)>) -> ModuleMapView
    decreases pairs.len(),
{
    if pairs.len() == 0 {
        Seq::empty()
    } else {
        map_insert(build_map(pairs.drop_last()), pairs.last().0, pairs.last().1)
    }
}

pub open spec fn map_keys(m: ModuleMapView) -> Seq<Seq<char>> {
    m.map_values(|e: (Seq<char>, ModuleInfoView)| e.0)
}

pub open spec fn pairs_view(p: Seq<(String, ModuleInfo)>) -> Seq<(Seq<char>, ModuleInfoView)> {
    p.map_values(|x: (String, ModuleInfo)| (x.0@, x.1@))
}

// ---------------------------------------------------------------------------------------
// Roots.
/// The entry points joined to the root (an absolute one stands as it is).
pub open spec fn entry_candidates(root: Seq<char>, entries: Seq<Seq<char>>) -> Seq<Seq<char>> {
    entries.map_values(|e: Seq<char>| join(root, e))
}

/// The conventional entry files, in the order they are tried.
pub open spec fn index_candidates(root: Seq<char>) -> Seq<Seq<char>> {
    seq![
        join(root, "src/index.ts"@),
        join(root, "src/index.tsx"@),
        join(root, "src/index.js"@),
        join(root, "src/index.jsx"@),
    ]
}

/// The paths of `ps` that exist, in order.
pub open spec fn existing_of(ps: Seq<Seq<char>>, existing: Seq<Seq<char>>) -> Seq<Seq<char>>
    decreases ps.len(),
{
    if ps.len() == 0 {
        Seq::empty()
    } else {
        let prev = existing_of(ps.drop_last(), existing);
        if existing.contains(ps.last()) {
            prev.push(ps.last())
        } else {
            prev
        }
    }
}

/// The first path of `ps` that exists.
pub open spec fn first_existing_of(ps: Seq<Seq<char>>, existing: Seq<Seq<char>>) -> Option<
    Seq<char>,
>
    decreases ps.len(),
{
    if ps.len() == 0 {
        None
    } else if existing.contains(ps[0]) {
        Some(ps[0])
    } else {
        first_existing_of(ps.drop_first(), existing)
    }
}

/// `Vec::dedup` by `Path` equality: each path that is the same path as the last one kept
/// is dropped.
pub open spec fn dedup_paths(s: Seq<Seq<char>>) -> Seq<Seq<char>>
    decreases s.len(),
{
    if s.len() == 0 {
        s
    } else {
        let d = dedup_paths(s.drop_last());
        if d.len() > 0 && same_path(d.last(), s.last()) {
            d
        } else {
            d.push(s.last())
        }
    }
}

/// The roots of the walk: the entry points that exist, if any, as they are; otherwise,
/// sorted and without repeats, the entry points that `package.json` names and that exist,
/// else the first conventional entry file that exists, else the first file of the map.
pub open spec fn chosen_roots(
    root: Seq<char>,
    entries: Seq<Seq<char>>,
    package: Option<JsonValue>,
    existing: Seq<Seq<char>>,
    keys: Seq<Seq<char>>,
) -> Seq<Seq<char>> {
    let ents = existing_of(entry_candidates(root, entries), existing);
    if ents.len() > 0 {
        ents
    } else {
        let pk = match package {
            Some(v) => existing_of(package_entry_candidates(root, v), existing),
            None => Seq::empty(),
        };
        let r = if pk.len() > 0 {
            pk
        } else {
            match first_existing_of(index_candidates(root), existing) {
                Some(p) => seq![p],
                None => if keys.len() > 0 {
                    seq![keys[0]]
                } else {
                    Seq::empty()
                },
            }
        };
        dedup_paths(sort_paths(r))
    }
}

// ---------------------------------------------------------------------------------------
// The graph and the findings.
/// An import that resolved: its target, the symbols taken, and whether the whole module is
/// used (a namespace import, a re-export of all, a side-effect or dynamic import).
pub type LinkView = (Seq<char>, Seq<Seq<char>>, bool);

/// The context an import is resolved in: root, source files, path aliases, extensions.
pub struct ResolveCtx {
    pub root: Seq<char>,
    pub files: Seq<Seq<char>>,
    pub ts: TsPathsView,
    pub exts: Seq<Seq<char>>,
}

pub open spec fn resolution_of(ctx: ResolveCtx, key: Seq<char>, imp: ImportRefView) -> Resolution {
    import_resolution(ctx.root, key, imp.0, ctx.files, ctx.ts, ctx.exts)
}

/// The targets of a module's imports that resolve, in order; the edges of its file.
pub open spec fn entry_edges(ctx: ResolveCtx, key: Seq<char>, imps: Seq<ImportRefView>) -> Seq<
    Seq<char>,
>
    decreases imps.len(),
{
    if imps.len() == 0 {
        Seq::empty()
    } else {
        let prev = entry_edges(ctx, key, imps.drop_last());
        let imp = imps.last();
        if !imp.3 && resolution_of(ctx, key, imp) is Found {
            prev.push(resolution_of(ctx, key, imp)->Found_0)
        } else {
            prev
        }
    }
}

/// The resolved imports of a module, with what each takes.
pub open spec fn entry_links(ctx: ResolveCtx, key: Seq<char>, imps: Seq<ImportRefView>) -> Seq<
    LinkView,
>
    decreases imps.len(),
{
    if imps.len() == 0 {
        Seq::empty()
    } else {
        let prev = entry_links(ctx, key, imps.drop_last());
        let imp = imps.last();
        if !imp.3 && resolution_of(ctx, key, imp) is Found {
            prev.push((resolution_of(ctx, key, imp)->Found_0, imp.1, imp.2))
        } else {
            prev
        }
    }
}

/// The finding for a non-literal dynamic import.
pub open spec fn uncertain_finding(key: Seq<char>, raw: Seq<char>) -> FindingView {
    FindingView {
        id: "uc:"@ + key + ":"@ + raw,
        kind: FindingKind::Uncertain,
        file: key,
        symbol: None,
        reason: "dynamic_import_non_literal"@,
        line: None,
        col: None,
        confidence_pct: 30,
        fixable: false,
    }
}

/// The finding for a file that no root reaches; `risky` when its source may have side
/// effects.
pub open spec fn unreachable_finding(file: Seq<char>, risky: bool) -> FindingView {
    FindingView {
        id: "uf:"@ + file,
        kind: FindingKind::UnreachableFile,
        file: file,
        symbol: None,
        reason: if risky {
            "unreachable_but_has_possible_side_effects"@
        } else {
            "unreachable_file"@
        },
        line: None,
        col: None,
        confidence_pct: if risky {
            60
        } else {
            98
        },
        fixable: !risky,
    }
}

/// The finding for an export of a reached file that no import takes.
pub open spec fn unused_export_finding(file: Seq<char>, export: Seq<char>) -> FindingView {
    FindingView {
        id: "ue:"@ + file + ":"@ + export,
        kind: FindingKind::UnusedExport,
        file: file,
        symbol: Some(export),
        reason: "export_not_referenced"@,
        line: None,
        col: None,
        confidence_pct: 85,
        fixable: false,
    }
}

/// The findings for a module's non-literal dynamic imports, in order.
pub open spec fn entry_uncertain(key: Seq<char>, imps: Seq<ImportRefView>) -> Seq<FindingView>
    decreases imps.len(),
{
    if imps.len() == 0 {
        Seq::empty()
    } else {
        let prev = entry_uncertain(key, imps.drop_last());
        if imps.last().3 {
            prev.push(uncertain_finding(key, imps.last().0))
        } else {
            prev
        }
    }
}

/// The edges of each entry of the map.
pub open spec fn graph_edges(ctx: ResolveCtx, m: ModuleMapView) -> Seq<Seq<Seq<char>>> {
    Seq::new(m.len(), |i: int| entry_edges(ctx, m[i].0, m[i].1.1))
}

/// The resolved imports of all the modules, in map order.
pub open spec fn all_links(ctx: ResolveCtx, m: ModuleMapView) -> Seq<LinkView>
    decreases m.len(),
{
    if m.len() == 0 {
        Seq::empty()
    } else {
        all_links(ctx, m.drop_last()) + entry_links(ctx, m.last().0, m.last().1.1)
    }
}

/// The findings for the non-literal dynamic imports of all the modules, in map order.
pub open spec fn all_uncertain(m: ModuleMapView) -> Seq<FindingView>
    decreases m.len(),
{
    if m.len() == 0 {
        Seq::empty()
    } else {
        all_uncertain(m.drop_last()) + entry_uncertain(m.last().0, m.last().1.1)
    }
}

/// Some resolved import that targets the same path as `p` takes `s` (or takes the whole
/// module, when `s` is `*`).
pub open spec fn is_used(links: Seq<LinkView>, p: Seq<char>, s: Seq<char>) -> bool {
    exists|i: int|
        0 <= i < links.len() && same_path(#[trigger] links[i].0, p) && (links[i].1.contains(s)
            || (links[i].2 && s == "*"@))
}

/// Some file that the walk did not visit has no entry in the map.
pub open spec fn missing_module(
    files: Seq<Seq<char>>,
    m: ModuleMapView,
    visited: Seq<Seq<char>>,
) -> bool {
    exists|j: int|
        0 <= j < files.len() && !covers(visited, #[trigger] files[j]) && key_index(
            map_keys(m),
            files[j],
        ) is None
}

/// The findings for the files that the walk did not visit, in file order.
pub open spec fn unreachable_findings(
    files: Seq<Seq<char>>,
    m: ModuleMapView,
    visited: Seq<Seq<char>>,
) -> Seq<FindingView>
    decreases files.len(),
{
    if files.len() == 0 {
        Seq::empty()
    } else {
        let prev = unreachable_findings(files.drop_last(), m, visited);
        let f = files.last();
        if covers(visited, f) {
            prev
        } else {
            match key_index(map_keys(m), f) {
                Some(i) => prev.push(unreachable_finding(f, side_effects_possible(m[i].1.2))),
                None => prev,
            }
        }
    }
}

/// The findings for the exports of the reached path `p` that no import takes, unless one
/// takes the whole module.
pub open spec fn export_findings(links: Seq<LinkView>, p: Seq<char>, exports: Seq<Seq<char>>) -> Seq<
    FindingView,
>
    decreases exports.len(),
{
    if exports.len() == 0 {
        Seq::empty()
    } else {
        let prev = export_findings(links, p, exports.drop_last());
        let x = exports.last();
        if !is_used(links, p, "*"@) && !is_used(links, p, x) {
            prev.push(unused_export_finding(p, x))
        } else {
            prev
        }
    }
}

/// The findings for the unused exports of the visited paths, in visit order.
pub open spec fn unused_findings(
    m: ModuleMapView,
    links: Seq<LinkView>,
    visited: Seq<Seq<char>>,
) -> Seq<FindingView>
    decreases visited.len(),
{
    if visited.len() == 0 {
        Seq::empty()
    } else {
        let prev = unused_findings(m, links, visited.drop_last());
        let p = visited.last();
        match key_index(map_keys(m), p) {
            Some(i) => prev + export_findings(links, p, m[i].1.0),
            None => prev,
        }
    }
}

/// Where `f` goes among findings sorted by id, after those whose id does not order after
/// its own.
pub open spec fn finding_insert_pos(sorted: Seq<FindingView>, f: FindingView) -> int
    decreases sorted.len(),
{
    if sorted.len() == 0 {
        0
    } else if chars_lt(f.id, sorted[0].id) {
        0
    } else {
        1 + finding_insert_pos(sorted.drop_first(), f)
    }
}

/// The stable sort of findings by id.
pub open spec fn sort_findings(s: Seq<FindingView>) -> Seq<FindingView>
    decreases s.len(),
{
    if s.len() == 0 {
        s
    } else {
        let sorted = sort_findings(s.drop_last());
        sorted.insert(finding_insert_pos(sorted, s.last()), s.last())
    }
}

/// Why an analysis fails: an unreached file without a module.
pub enum AnalysisFailure {
    MissingModule,
}

/// The analysis of the module map: walk the import graph from the roots, then report the
/// non-literal dynamic imports, the files not reached, and the exports of reached files
/// that nothing imports, all sorted by id.
pub open spec fn analysis(
    ctx: ResolveCtx,
    m: ModuleMapView,
    roots: Seq<Seq<char>>,
) -> Result<Seq<FindingView>, AnalysisFailure> {
    let visited = visit_order(map_keys(m), graph_edges(ctx, m), roots);
    if missing_module(ctx.files, m, visited) {
        Err(AnalysisFailure::MissingModule)
    } else {
        Ok(
            sort_findings(
                all_uncertain(m) + unreachable_findings(ctx.files, m, visited) + unused_findings(
                    m,
                    all_links(ctx, m),
                    visited,
                ),
            ),
        )
    }
}

// ---------------------------------------------------------------------------------------
// Removal.
/// The files that a removal plans to delete (the fixable unreachable files) and how many
/// unreachable files it skips as risky.
pub open spec fn removal_candidates(fs: Seq<FindingView>) -> Seq<Seq<char>>
    decreases fs.len(),
{
    if fs.len() == 0 {
        Seq::empty()
    } else {
        let prev = removal_candidates(fs.drop_last());
        let f = fs.last();
        if f.kind == FindingKind::UnreachableFile && f.fixable {
            prev.push(f.file)
        } else {
            prev
        }
    }
}

pub open spec fn skipped_risky(fs: Seq<FindingView>) -> nat
    decreases fs.len(),
{
    if fs.len() == 0 {
        0
    } else {
        let f = fs.last();
        skipped_risky(fs.drop_last()) + if f.kind == FindingKind::UnreachableFile && !f.fixable {
            1nat
        } else {
            0nat
        }
    }
}


// ---------------------------------------------------------------------------------------
// Executable parts.
impl Analyzer {
    /// The analyzer's options.
    pub closed spec fn options(&self) -> AnalyzerOptions {
        self.opts
    }

    /// An analyzer with these options.
    pub fn new(opts: AnalyzerOptions) -> (r: Analyzer)
        ensures
            r.options() == opts,
    {
        Analyzer { opts }
    }
}

/// Whether `s` is one of the strings of `v`.
pub fn contains_str(v: &Vec<String>, s: &Vec<char>) -> (r: bool)
    ensures
        r == string_views(v@).contains(s@),
{
    let mut k: usize = 0;
    while k < v.len()
        invariant
            k <= v@.len(),
            forall|i: int| 0 <= i < k ==> #[trigger] v@[i]@ != s@,
        decreases v@.len() - k,
    {
        if chars_eq(&chars_of(v[k].as_str()), s) {
            assert(string_views(v@)[k as int] == s@);
            return true;
        }
        k = k + 1;
    }
    proof {
        if string_views(v@).contains(s@) {
            let i = choose|i: int| 0 <= i < string_views(v@).len() && string_views(v@)[i] == s@;
            assert(v@[i]@ == s@);
        }
    }
    false
}

/// Whether the path's extension (empty when it has none) is one of the allowed ones.
pub fn has_allowed_ext(path: &Vec<char>, allowed: &Vec<String>) -> (r: bool)
    ensures
        r == string_views(allowed@).contains(ext_of(path@)),
{
    let ext = match extension_exec(path) {
        Some(e) => e,
        None => Vec::new(),
    };
    proof {
        assert(ext@ == ext_of(path@));
    }
    contains_str(allowed, &ext)
}

/// A glob set of the patterns, or why it cannot be had: the first pattern that does not
/// parse, or the failure of the build.
fn build_globset(patterns: &Vec<String>) -> (r: Result<GlobSet, ScanError>)
    ensures
        match globs_outcome(string_views(patterns@)) {
            GlobsOutcome::Built => r matches Ok(s) && set_patterns(s) == string_views(patterns@),
            GlobsOutcome::BadGlob(p) => r matches Err(ScanError::InvalidGlob { pattern, .. })
                && pattern@ == p,
            GlobsOutcome::BuildFailed => r matches Err(ScanError::GlobSetBuild(_)),
        },
{
    let ghost sv = string_views(patterns@);
    let mut b = new_builder();
    let mut k: usize = 0;
    proof {
        assert(sv.skip(0) =~= sv);
        assert(sv.take(0) =~= Seq::<Seq<char>>::empty());
    }
    while k < patterns.len()
        invariant
            k <= patterns@.len(),
            sv == string_views(patterns@),
            crate::glob::builder_patterns(b) == sv.take(k as int),
            first_bad_glob(sv) == first_bad_glob(sv.skip(k as int)),
        decreases patterns@.len() - k,
    {
        proof {
            assert(sv.skip(k as int)[0] == patterns@[k as int]@);
            assert(sv.skip(k as int).drop_first() =~= sv.skip(k as int + 1));
        }
        match add_pattern(&mut b, patterns[k].as_str()) {
            Ok(()) => {
                proof {
                    assert(sv.take(k as int + 1) =~= sv.take(k as int).push(sv[k as int]));
                }
            },
            Err(e) => {
                return Err(ScanError::InvalidGlob { pattern: owned(patterns[k].as_str()), source: e });
            },
        }
        k = k + 1;
    }
    proof {
        assert(sv.take(k as int) =~= sv);
        assert(sv.skip(k as int) =~= Seq::<Seq<char>>::empty());
    }
    match build_set(&b) {
        Ok(s) => Ok(s),
        Err(e) => Err(ScanError::GlobSetBuild(e)),
    }
}

impl Analyzer {
    /// The source files among the walked files, sorted by path: not matched by an exclude
    /// glob, of one of the extensions, and matched by an include glob or under `src/`.
    /// Fails on the first glob that does not parse, or when a glob set does not build; the
    /// include globs are built before the exclude globs.
    pub fn collect_source_files(&self, walked: &Vec<WalkedFile>) -> (r: Result<Vec<String>, ScanError>)
        ensures
            match select_outcome(
                string_views(self.options().include_globs@),
                string_views(self.options().exclude@),
                string_views(self.options().extensions@),
                walked_view(walked@),
            ) {
                SelectOutcome::Files(ps) => r matches Ok(v) && string_views(v@) == ps,
                SelectOutcome::BadGlob(p) => r matches Err(ScanError::InvalidGlob { pattern, .. })
                    && pattern@ == p,
                SelectOutcome::BuildFailed => r matches Err(ScanError::GlobSetBuild(_)),
            },
    {
        let ghost inc = string_views(self.opts.include_globs@);
        let ghost exc = string_views(self.opts.exclude@);
        let ghost exts = string_views(self.opts.extensions@);
        let ghost wv = walked_view(walked@);
        let include_set = match build_globset(&self.opts.include_globs) {
            Ok(s) => s,
            Err(e) => {
                return Err(e);
            },
        };
        let exclude_set = match build_globset(&self.opts.exclude) {
            Ok(s) => s,
            Err(e) => {
                return Err(e);
            },
        };
        let slash = chars_of("/");
        let src_prefix = chars_of("src/");
        let mut out: Vec<KeyedPath> = Vec::new();
        let mut k: usize = 0;
        proof {
            assert(keyed_view(out@) =~= source_paths(inc, exc, exts, wv.take(0)));
        }
        while k < walked.len()
            invariant
                k <= walked@.len(),
                wv == walked_view(walked@),
                inc == string_views(self.opts.include_globs@),
                exc == string_views(self.opts.exclude@),
                exts == string_views(self.opts.extensions@),
                set_patterns(include_set) == inc,
                set_patterns(exclude_set) == exc,
                slash@ == "/"@,
                src_prefix@ == "src/"@,
                all_wf(out@),
                keyed_view(out@) == source_paths(inc, exc, exts, wv.take(k as int)),
            decreases walked@.len() - k,
        {
            proof {
                assert(wv.take(k as int + 1).drop_last() =~= wv.take(k as int));
                assert(wv.take(k as int + 1).last() == wv[k as int]);
            }
            let w = &walked[k];
            let rel_c = replace_char_exec(&chars_of(w.rel.as_str()), '\\', &slash);
            let rel_s = string_from_chars(&rel_c);
            let path_c = chars_of(w.path.as_str());
            let excluded = set_is_match(&exclude_set, rel_s.as_str());
            let allowed = has_allowed_ext(&path_c, &self.opts.extensions);
            let included = self.opts.include_globs.len() == 0 || set_is_match(&include_set, rel_s.as_str())
                || starts_with_exec(&rel_c, &src_prefix);
            if !excluded && allowed && included {
                let ghost o = keyed_view(out@);
                out.push(KeyedPath::new(path_c));
                proof {
                    assert(keyed_view(out@) =~= o.push(wv[k as int].0));
                }
            }
            k = k + 1;
        }
        proof {
            assert(wv.take(k as int) =~= wv);
        }
        let sorted = sort_keyed_paths(out);
        Ok(keyed_strings(&sorted))
    }
}

/// The paths of keyed paths, as strings.
pub fn keyed_strings(v: &Vec<KeyedPath>) -> (r: Vec<String>)
    ensures
        string_views(r@) == keyed_view(v@),
{
    let mut out: Vec<String> = Vec::new();
    let mut k: usize = 0;
    while k < v.len()
        invariant
            k <= v@.len(),
            out@.len() == k,
            forall|i: int| 0 <= i < k ==> #[trigger] out@[i]@ == v@[i].path@,
        decreases v@.len() - k,
    {
        out.push(string_from_chars(&v[k].path));
        k = k + 1;
    }
    proof {
        assert(string_views(out@) =~= keyed_view(v@));
    }
    out
}


fn map_pos_exec(m: &ModuleMap, k: &KeyedPath) -> (i: usize)
    requires
        k.wf(),
    ensures
        i as int == map_pos(m@, k.path@),
        i <= m.entries@.len(),
{
    let ghost mv = m@;
    let mut i: usize = 0;
    proof {
        use_type_invariant(m);
        assert(mv.skip(0) =~= mv);
    }
    while i < m.entries.len() && m.entries[i].key.lt(k)
        invariant
            i <= m.entries@.len(),
            m.wf(),
            k.wf(),
            mv == m@,
            map_pos(mv, k.path@) == i + map_pos(mv.skip(i as int), k.path@),
        decreases m.entries@.len() - i,
    {
        proof {
            assert(mv.skip(i as int)[0] == mv[i as int]);
            assert(mv.skip(i as int).drop_first() =~= mv.skip(i as int + 1));
        }
        i = i + 1;
    }
    proof {
        if i < m.entries@.len() {
            assert(mv.skip(i as int)[0] == mv[i as int]);
        }
    }
    i
}

impl ModuleMap {
    /// Inserts a module under its path: an entry of the same path keeps its key and takes
    /// the module; a new path goes in order.
    pub fn insert(&mut self, key: KeyedPath, module: ModuleInfo)
        requires
            key.wf(),
        ensures
            final(self)@ == map_insert(old(self)@, key.path@, module@),
    {
        proof {
            use_type_invariant(&*self);
        }
        let ghost mv = self@;
        let i = map_pos_exec(self, &key);
        let same = i < self.entries.len() && self.entries[i].key.same(&key);
        let mut entries: Vec<MapEntry> = Vec::new();
        std::mem::swap(&mut entries, &mut self.entries);
        let ghost e = entries@;
        proof {
            assert(mv == e.map_values(|x: MapEntry| (x.key.path@, x.module@)));
        }
        if same {
            let old_entry = entries.remove(i);
            entries.insert(i, MapEntry { key: old_entry.key, module });
            proof {
                assert(entries@.map_values(|x: MapEntry| (x.key.path@, x.module@)) =~= mv.update(
                    i as int,
                    (mv[i as int].0, module@),
                ));
                assert forall|j: int| 0 <= j < entries@.len() implies (
                #[trigger] entries@[j]).key.wf() by {
                    if j != i {
                        assert(entries@[j] == e[j]);
                    } else {
                        assert(entries@[j].key == e[j].key);
                    }
                }
            }
        } else {
            entries.insert(i, MapEntry { key, module });
            proof {
                assert(entries@.map_values(|x: MapEntry| (x.key.path@, x.module@)) =~= mv.insert(
                    i as int,
                    (key.path@, module@),
                ));
                assert forall|j: int| 0 <= j < entries@.len() implies (
                #[trigger] entries@[j]).key.wf() by {
                    if j < i {
                        assert(entries@[j] == e[j]);
                    } else if j > i {
                        assert(entries@[j] == e[j - 1]);
                    }
                }
            }
        }
        self.entries = entries;
    }

    /// The map of the pairs, each inserted in turn (a `BTreeMap` built by `insert`).
    pub fn build(pairs: Vec<(String, ModuleInfo)>) -> (r: ModuleMap)
        ensures
            r@ == build_map(pairs_view(pairs@)),
    {
        let ghost pv = pairs_view(pairs@);
        let n = pairs.len();
        let mut pairs = pairs;
        let mut rev: Vec<(String, ModuleInfo)> = Vec::new();
        while pairs.len() > 0
            invariant
                pairs@.len() + rev@.len() == n,
                n == pv.len(),
                pairs_view(pairs@) == pv.take(pairs@.len() as int),
                forall|i: int|
                    0 <= i < rev@.len() ==> (#[trigger] rev@[i]).0@ == pv[n - 1 - i].0 && rev@[i].1@
                        == pv[n - 1 - i].1,
            decreases pairs@.len(),
        {
            let x = pairs.pop().unwrap();
            proof {
                assert(pv.take(pairs@.len() as int + 1)[pairs@.len() as int] == (x.0@, x.1@));
                assert(pairs_view(pairs@) =~= pv.take(pairs@.len() as int));
            }
            rev.push(x);
        }
        let mut m = ModuleMap { entries: Vec::new() };
        let mut k: usize = 0;
        proof {
            assert(m@ =~= build_map(pv.take(0)));
        }
        while rev.len() > 0
            invariant
                k + rev@.len() == n,
                n == pv.len(),
                forall|i: int|
                    0 <= i < rev@.len() ==> (#[trigger] rev@[i]).0@ == pv[n - 1 - i].0 && rev@[i].1@
                        == pv[n - 1 - i].1,
                m@ == build_map(pv.take(k as int)),
            decreases rev@.len(),
        {
            let (path, module) = rev.pop().unwrap();
            proof {
                assert(pv.take(k as int + 1).drop_last() =~= pv.take(k as int));
                assert(pv.take(k as int + 1).last() == pv[k as int]);
            }
            let key = KeyedPath::new(chars_of(path.as_str()));
            m.insert(key, module);
            k = k + 1;
        }
        proof {
            assert(pv.take(n as int) =~= pv);
        }
        m
    }
}


/// Keyed paths for strings.
pub fn keyed_of(v: &Vec<String>) -> (r: Vec<KeyedPath>)
    ensures
        all_wf(r@),
        keyed_view(r@) == string_views(v@),
{
    let mut out: Vec<KeyedPath> = Vec::new();
    let mut k: usize = 0;
    while k < v.len()
        invariant
            k <= v@.len(),
            out@.len() == k,
            all_wf(out@),
            forall|i: int| 0 <= i < k ==> #[trigger] out@[i].path@ == v@[i]@,
        decreases v@.len() - k,
    {
        out.push(KeyedPath::new(chars_of(v[k].as_str())));
        k = k + 1;
    }
    proof {
        assert(keyed_view(out@) =~= string_views(v@));
    }
    out
}

/// The paths of `ps` that are among the existing paths, in order.
fn existing_filter(ps: &Vec<String>, existing: &Vec<String>) -> (r: Vec<String>)
    ensures
        string_views(r@) == existing_of(string_views(ps@), string_views(existing@)),
{
    let ghost pv = string_views(ps@);
    let ghost ev = string_views(existing@);
    let mut out: Vec<String> = Vec::new();
    let mut k: usize = 0;
    proof {
        assert(string_views(out@) =~= existing_of(pv.take(0), ev));
    }
    while k < ps.len()
        invariant
            k <= ps@.len(),
            pv == string_views(ps@),
            ev == string_views(existing@),
            string_views(out@) == existing_of(pv.take(k as int), ev),
        decreases ps@.len() - k,
    {
        proof {
            assert(pv.take(k as int + 1).drop_last() =~= pv.take(k as int));
            assert(pv.take(k as int + 1).last() == pv[k as int]);
        }
        if contains_str(existing, &chars_of(ps[k].as_str())) {
            let ghost o = string_views(out@);
            out.push(owned(ps[k].as_str()));
            proof {
                assert(string_views(out@) =~= o.push(pv[k as int]));
            }
        }
        k = k + 1;
    }
    proof {
        assert(pv.take(k as int) =~= pv);
    }
    out
}

/// The first path of `ps` that is among the existing paths.
fn first_existing(ps: &Vec<String>, existing: &Vec<String>) -> (r: Option<String>)
    ensures
        match r {
            Some(p) => first_existing_of(string_views(ps@), string_views(existing@)) == Some(p@),
            None => first_existing_of(string_views(ps@), string_views(existing@)) is None,
        },
{
    let ghost pv = string_views(ps@);
    let ghost ev = string_views(existing@);
    let mut k: usize = 0;
    proof {
        assert(pv.skip(0) =~= pv);
    }
    while k < ps.len()
        invariant
            k <= ps@.len(),
            pv == string_views(ps@),
            ev == string_views(existing@),
            first_existing_of(pv, ev) == first_existing_of(pv.skip(k as int), ev),
        decreases ps@.len() - k,
    {
        proof {
            assert(pv.skip(k as int)[0] == pv[k as int]);
            assert(pv.skip(k as int).drop_first() =~= pv.skip(k as int + 1));
        }
        if contains_str(existing, &chars_of(ps[k].as_str())) {
            return Some(owned(ps[k].as_str()));
        }
        k = k + 1;
    }
    proof {
        assert(pv.skip(k as int) =~= Seq::<Seq<char>>::empty());
    }
    None
}

/// `Vec::dedup` by `Path` equality.
fn dedup_keyed(v: Vec<KeyedPath>) -> (r: Vec<KeyedPath>)
    requires
        all_wf(v@),
    ensures
        all_wf(r@),
        keyed_view(r@) == dedup_paths(keyed_view(v@)),
{
    let ghost vv = keyed_view(v@);
    let n = v.len();
    let mut v = v;
    let mut rev: Vec<KeyedPath> = Vec::new();
    while v.len() > 0
        invariant
            v@.len() + rev@.len() == n,
            n == vv.len(),
            all_wf(v@),
            all_wf(rev@),
            keyed_view(v@) == vv.take(v@.len() as int),
            forall|i: int| 0 <= i < rev@.len() ==> #[trigger] rev@[i].path@ == vv[n - 1 - i],
        decreases v@.len(),
    {
        let x = v.pop().unwrap();
        proof {
            assert(vv.take(v@.len() as int + 1)[v@.len() as int] == x.path@);
            assert(keyed_view(v@) =~= vv.take(v@.len() as int));
        }
        rev.push(x);
    }
    let mut out: Vec<KeyedPath> = Vec::new();
    let mut k: usize = 0;
    proof {
        assert(keyed_view(out@) =~= dedup_paths(vv.take(0)));
    }
    while rev.len() > 0
        invariant
            k + rev@.len() == n,
            n == vv.len(),
            all_wf(rev@),
            all_wf(out@),
            forall|i: int| 0 <= i < rev@.len() ==> #[trigger] rev@[i].path@ == vv[n - 1 - i],
            keyed_view(out@) == dedup_paths(vv.take(k as int)),
        decreases rev@.len(),
    {
        let x = rev.pop().unwrap();
        proof {
            assert(x.path@ == vv[k as int]);
            assert(vv.take(k as int + 1).drop_last() =~= vv.take(k as int));
            assert(vv.take(k as int + 1).last() == vv[k as int]);
        }
        let keep = if out.len() > 0 {
            !out[out.len() - 1].same(&x)
        } else {
            true
        };
        if keep {
            let ghost o = keyed_view(out@);
            out.push(x);
            proof {
                assert(keyed_view(out@) =~= o.push(vv[k as int]));
            }
        } else {
            proof {
                assert(keyed_view(out@).last() == out@[out@.len() - 1].path@);
            }
        }
        k = k + 1;
    }
    proof {
        assert(vv.take(n as int) =~= vv);
    }
    out
}

fn index_paths(root: &Vec<char>) -> (r: Vec<String>)
    ensures
        string_views(r@) == index_candidates(root@),
{
    let r = vec![
        string_from_chars(&join_exec(root, &chars_of("src/index.ts"))),
        string_from_chars(&join_exec(root, &chars_of("src/index.tsx"))),
        string_from_chars(&join_exec(root, &chars_of("src/index.js"))),
        string_from_chars(&join_exec(root, &chars_of("src/index.jsx"))),
    ];
    proof {
        assert(string_views(r@) =~= index_candidates(root@));
    }
    r
}

pub open spec fn package_view(package: Option<&JsonValue>) -> Option<JsonValue> {
    match package {
        Some(v) => Some(*v),
        None => None,
    }
}

impl Analyzer {
    /// The entry points joined to the root: the paths whose existence is asked first.
    pub fn entry_paths(&self, root: &str) -> (r: Vec<String>)
        ensures
            string_views(r@) == entry_candidates(root@, string_views(self.options().entry@)),
    {
        let rc = chars_of(root);
        let entry = &self.opts.entry;
        let mut out: Vec<String> = Vec::new();
        let mut k: usize = 0;
        while k < entry.len()
            invariant
                k <= entry@.len(),
                rc@ == root@,
                out@.len() == k,
                forall|i: int|
                    0 <= i < k ==> #[trigger] out@[i]@ == join(root@, entry@[i]@),
            decreases entry@.len() - k,
        {
            out.push(string_from_chars(&join_exec(&rc, &chars_of(entry[k].as_str()))));
            k = k + 1;
        }
        proof {
            assert(string_views(out@) =~= entry_candidates(root@, string_views(entry@)));
        }
        out
    }

    /// The paths whose existence decides the roots when no entry point exists: those that
    /// `package.json` names, then the conventional entry files.
    pub fn fallback_paths(root: &str, package: Option<&JsonValue>) -> (r: Vec<String>)
        ensures
            string_views(r@) == match package_view(package) {
                Some(v) => package_entry_candidates(root@, v),
                None => Seq::empty(),
            } + index_candidates(root@),
    {
        let mut out = match package {
            Some(v) => package_root_candidates(root, v),
            None => Vec::new(),
        };
        let ghost o = string_views(out@);
        let mut idx = index_paths(&chars_of(root));
        out.append(&mut idx);
        proof {
            assert(string_views(out@) =~= o + index_candidates(root@));
        }
        out
    }

    /// The roots of the walk, given which of the asked paths exist (see [`chosen_roots`]).
    pub fn resolve_roots(
        &self,
        root: &str,
        map: &ModuleMap,
        package: Option<&JsonValue>,
        existing: &Vec<String>,
    ) -> (r: Vec<String>)
        ensures
            string_views(r@) == chosen_roots(
                root@,
                string_views(self.options().entry@),
                package_view(package),
                string_views(existing@),
                map_keys(map@),
            ),
    {
        let ents = existing_filter(&self.entry_paths(root), existing);
        if ents.len() > 0 {
            return ents;
        }
        let pk = match package {
            Some(v) => existing_filter(&package_root_candidates(root, v), existing),
            None => Vec::new(),
        };
        proof {
            assert(package_view(package) is None ==> string_views(pk@) =~= Seq::<Seq<char>>::empty());
        }
        let ghost ev = string_views(existing@);
        let ghost keys = map_keys(map@);
        let ghost want = if string_views(pk@).len() > 0 {
            string_views(pk@)
        } else {
            match first_existing_of(index_candidates(root@), ev) {
                Some(p) => seq![p],
                None => if keys.len() > 0 {
                    seq![keys[0]]
                } else {
                    Seq::empty()
                },
            }
        };
        let r: Vec<String> = if pk.len() > 0 {
            pk
        } else {
            match first_existing(&index_paths(&chars_of(root)), existing) {
                Some(p) => {
                    let v = vec![p];
                    proof {
                        assert(string_views(v@) =~= want);
                    }
                    v
                },
                None => {
                    proof {
                        assert(keys.len() == map.entries@.len());
                    }
                    if map.entries.len() > 0 {
                        let v = vec![string_from_chars(&map.entries[0].key.path)];
                        proof {
                            assert(keys[0] == map.entries@[0].key.path@);
                            assert(string_views(v@) =~= want);
                        }
                        v
                    } else {
                        let v: Vec<String> = Vec::new();
                        proof {
                            assert(string_views(v@) =~= want);
                        }
                        v
                    }
                },
            }
        };
        assert(string_views(r@) == want);
        let sorted = sort_keyed_paths(keyed_of(&r));
        let deduped = dedup_keyed(sorted);
        keyed_strings(&deduped)
    }
}


// ---------------------------------------------------------------------------------------
// The analysis, executed.
/// A resolved import: its target, the symbols it takes, and whether it takes the whole
/// module.
pub struct Link {
    pub target: KeyedPath,
    pub symbols: Vec<String>,
    pub wildcard: bool,
}

pub open spec fn links_view(v: Seq<Link>) -> Seq<LinkView> {
    v.map_values(|l: Link| (l.target.path@, string_views(l.symbols@), l.wildcard))
}

pub open spec fn links_wf(v: Seq<Link>) -> bool {
    forall|i: int| 0 <= i < v.len() ==> (#[trigger] v[i]).target.wf()
}

pub open spec fn imports_view(v: Seq<ImportRef>) -> Seq<ImportRefView> {
    v.map_values(|r: ImportRef| r@)
}

/// The resolution context of the executable inputs.
pub open spec fn ctx_of(
    root: Seq<char>,
    files: Seq<KeyedPath>,
    ts: TsPathsView,
    exts: Seq<Vec<char>>,
) -> ResolveCtx {
    ResolveCtx { root, files: keyed_paths(files), ts, exts: chars_views(exts) }
}

fn uncertain_exec(key: &Vec<char>, raw: &String) -> (f: Finding)
    ensures
        f@ == uncertain_finding(key@, raw@),
{
    let rc = chars_of(raw.as_str());
    let id = concat_chars(&concat_chars(&concat_chars(&chars_of("uc:"), key), &chars_of(":")), &rc);
    Finding {
        id: string_from_chars(&id),
        kind: FindingKind::Uncertain,
        file: string_from_chars(key),
        symbol: None,
        reason: owned("dynamic_import_non_literal"),
        line: None,
        col: None,
        confidence_pct: 30,
        fixable: false,
    }
}

fn unreachable_exec(file: &Vec<char>, risky: bool) -> (f: Finding)
    ensures
        f@ == unreachable_finding(file@, risky),
{
    let id = concat_chars(&chars_of("uf:"), file);
    Finding {
        id: string_from_chars(&id),
        kind: FindingKind::UnreachableFile,
        file: string_from_chars(file),
        symbol: None,
        reason: if risky {
            owned("unreachable_but_has_possible_side_effects")
        } else {
            owned("unreachable_file")
        },
        line: None,
        col: None,
        confidence_pct: if risky {
            60
        } else {
            98
        },
        fixable: !risky,
    }
}

fn unused_export_exec(file: &Vec<char>, export: &String) -> (f: Finding)
    ensures
        f@ == unused_export_finding(file@, export@),
{
    let xc = chars_of(export.as_str());
    let id = concat_chars(&concat_chars(&concat_chars(&chars_of("ue:"), file), &chars_of(":")), &xc);
    Finding {
        id: string_from_chars(&id),
        kind: FindingKind::UnusedExport,
        file: string_from_chars(file),
        symbol: Some(owned(export.as_str())),
        reason: owned("export_not_referenced"),
        line: None,
        col: None,
        confidence_pct: 85,
        fixable: false,
    }
}

/// One module's imports: its edges. The findings for its non-literal dynamic imports and
/// its resolved imports are appended.
fn entry_graph(
    root: &Vec<char>,
    key: &Vec<char>,
    imps: &Vec<ImportRef>,
    files: &Vec<KeyedPath>,
    ts: &TsPaths,
    exts: &Vec<Vec<char>>,
    uc: &mut Vec<Finding>,
    links: &mut Vec<Link>,
) -> (r: Vec<KeyedPath>)
    requires
        files_wf(files@),
        links_wf(old(links)@),
    ensures
        links_wf(final(links)@),
        all_wf(r@),
        keyed_view(r@) == entry_edges(ctx_of(root@, files@, ts@, exts@), key@, imports_view(imps@)),
        findings_view(final(uc)@) == findings_view(old(uc)@) + entry_uncertain(
            key@,
            imports_view(imps@),
        ),
        links_view(final(links)@) == links_view(old(links)@) + entry_links(
            ctx_of(root@, files@, ts@, exts@),
            key@,
            imports_view(imps@),
        ),
{
    let ghost ctx = ctx_of(root@, files@, ts@, exts@);
    let ghost iv = imports_view(imps@);
    let ghost uc0 = findings_view(uc@);
    let ghost l0 = links_view(links@);
    let mut edges: Vec<KeyedPath> = Vec::new();
    let mut k: usize = 0;
    proof {
        assert(iv.take(0) =~= Seq::<ImportRefView>::empty());
        assert(findings_view(uc@) =~= uc0 + entry_uncertain(key@, iv.take(0)));
        assert(links_view(links@) =~= l0 + entry_links(ctx, key@, iv.take(0)));
        assert(keyed_view(edges@) =~= entry_edges(ctx, key@, iv.take(0)));
    }
    while k < imps.len()
        invariant
            k <= imps@.len(),
            files_wf(files@),
            ctx == ctx_of(root@, files@, ts@, exts@),
            iv == imports_view(imps@),
            links_wf(links@),
            all_wf(edges@),
            keyed_view(edges@) == entry_edges(ctx, key@, iv.take(k as int)),
            findings_view(uc@) == uc0 + entry_uncertain(key@, iv.take(k as int)),
            links_view(links@) == l0 + entry_links(ctx, key@, iv.take(k as int)),
        decreases imps@.len() - k,
    {
        proof {
            assert(iv.take(k as int + 1).drop_last() =~= iv.take(k as int));
            assert(iv.take(k as int + 1).last() == iv[k as int]);
        }
        let imp = &imps[k];
        if imp.is_dynamic_non_literal {
            let ghost u = findings_view(uc@);
            uc.push(uncertain_exec(key, &imp.raw));
            proof {
                assert(findings_view(uc@) =~= u.push(uncertain_finding(key@, imp.raw@)));
            }
        } else {
            let res = resolve_import(root, key, &chars_of(imp.raw.as_str()), files, ts, exts);
            match res {
                Resolved::Found(t) => {
                    let tk = KeyedPath::new(t);
                    let ghost ev = keyed_view(edges@);
                    let ghost lv = links_view(links@);
                    let ghost lw = links@;
                    edges.push(copy_keyed(&tk));
                    links.push(Link { target: tk, symbols: copy_strings(&imp.symbols), wildcard: imp.wildcard_use });
                    proof {
                        assert(keyed_view(edges@) =~= ev.push(tk.path@));
                        assert(links_view(links@) =~= lv.push((tk.path@, iv[k as int].1, iv[k as int].2)));
                        assert forall|i: int| 0 <= i < links@.len() implies (#[trigger] links@[i]).target.wf() by {
                            if i < lw.len() {
                                assert(links@[i] == lw[i]);
                            }
                        }
                    }
                },
                Resolved::Missing => {},
            }
        }
        k = k + 1;
    }
    proof {
        assert(iv.take(k as int) =~= iv);
    }
    edges
}


/// The graph of the map: the edges of each entry, the resolved imports and the findings for
/// non-literal dynamic imports.
fn build_graph(
    root: &Vec<char>,
    map: &ModuleMap,
    files: &Vec<KeyedPath>,
    ts: &TsPaths,
    exts: &Vec<Vec<char>>,
) -> (g: (Vec<Vec<KeyedPath>>, Vec<Link>, Vec<Finding>))
    requires
        files_wf(files@),
    ensures
        edges_wf(g.0@),
        edges_view(g.0@) == graph_edges(ctx_of(root@, files@, ts@, exts@), map@),
        links_wf(g.1@),
        links_view(g.1@) == all_links(ctx_of(root@, files@, ts@, exts@), map@),
        findings_view(g.2@) == all_uncertain(map@),
{
    let ghost ctx = ctx_of(root@, files@, ts@, exts@);
    let ghost mv = map@;
    let mut edges: Vec<Vec<KeyedPath>> = Vec::new();
    let mut links: Vec<Link> = Vec::new();
    let mut uc: Vec<Finding> = Vec::new();
    let mut i: usize = 0;
    proof {
        assert(mv.take(0) =~= Seq::<(Seq<char>, ModuleInfoView)>::empty());
        assert(findings_view(uc@) =~= Seq::<FindingView>::empty());
        assert(links_view(links@) =~= Seq::<LinkView>::empty());
    }
    while i < map.entries.len()
        invariant
            i <= map.entries@.len(),
            files_wf(files@),
            ctx == ctx_of(root@, files@, ts@, exts@),
            mv == map@,
            edges@.len() == i,
            edges_wf(edges@),
            forall|j: int|
                0 <= j < i ==> keyed_view((#[trigger] edges@[j])@) == entry_edges(ctx, mv[j].0, mv[j].1.1),
            links_wf(links@),
            links_view(links@) == all_links(ctx, mv.take(i as int)),
            findings_view(uc@) == all_uncertain(mv.take(i as int)),
        decreases map.entries@.len() - i,
    {
        proof {
            assert(mv.take(i as int + 1).drop_last() =~= mv.take(i as int));
            assert(mv.take(i as int + 1).last() == mv[i as int]);
            assert(mv[i as int].1.1 == imports_view(map.entries@[i as int].module.imports@));
        }
        let entry = &map.entries[i];
        let e = entry_graph(root, &entry.key.path, &entry.module.imports, files, ts, exts, &mut uc, &mut links);
        let ghost ew = edges@;
        edges.push(e);
        proof {
            assert forall|j: int| 0 <= j < edges@.len() implies all_wf(#[trigger] edges@[j]@) by {
                if j < ew.len() {
                    assert(edges@[j] == ew[j]);
                }
            }
            assert forall|j: int| 0 <= j < i + 1 implies keyed_view((#[trigger] edges@[j])@)
                == entry_edges(ctx, mv[j].0, mv[j].1.1) by {
                if j < i {
                    assert(edges@[j] == ew[j]);
                }
            }
        }
        i = i + 1;
    }
    proof {
        assert(mv.take(i as int) =~= mv);
        assert(edges_view(edges@) =~= graph_edges(ctx, mv));
    }
    (edges, links, uc)
}


/// Whether some resolved import that targets the same path as `p` takes `sym`, or takes
/// the whole module when `sym` is `*`.
fn is_used_exec(links: &Vec<Link>, p: &KeyedPath, sym: &Vec<char>) -> (r: bool)
    requires
        links_wf(links@),
        p.wf(),
    ensures
        r == is_used(links_view(links@), p.path@, sym@),
{
    let ghost lv = links_view(links@);
    let star = chars_of("*");
    let is_star = chars_eq(sym, &star);
    let mut i: usize = 0;
    while i < links.len()
        invariant
            i <= links@.len(),
            links_wf(links@),
            p.wf(),
            lv == links_view(links@),
            is_star == (sym@ == "*"@),
            forall|j: int|
                0 <= j < i ==> !(same_path(#[trigger] lv[j].0, p.path@) && (lv[j].1.contains(sym@)
                    || (lv[j].2 && sym@ == "*"@))),
        decreases links@.len() - i,
    {
        let l = &links[i];
        let same = l.target.same(p);
        let takes = contains_str(&l.symbols, sym);
        if same && (takes || (l.wildcard && is_star)) {
            proof {
                assert(lv[i as int] == (l.target.path@, string_views(l.symbols@), l.wildcard));
                assert(same_path(lv[i as int].0, p.path@) && (lv[i as int].1.contains(sym@) || (
                lv[i as int].2 && sym@ == "*"@)));
            }
            return true;
        }
        proof {
            assert(lv[i as int] == (l.target.path@, string_views(l.symbols@), l.wildcard));
        }
        i = i + 1;
    }
    false
}

/// The findings for the files that the walk did not visit, appended in file order; false
/// when such a file has no entry in the map.
fn add_unreachable(
    files: &Vec<KeyedPath>,
    map: &ModuleMap,
    keys: &Vec<KeyedPath>,
    visited: &Vec<KeyedPath>,
    out: &mut Vec<Finding>,
) -> (ok: bool)
    requires
        files_wf(files@),
        all_wf(keys@),
        all_wf(visited@),
        keyed_view(keys@) == map_keys(map@),
    ensures
        ok == !missing_module(keyed_paths(files@), map@, keyed_view(visited@)),
        ok ==> findings_view(final(out)@) == findings_view(old(out)@) + unreachable_findings(
            keyed_paths(files@),
            map@,
            keyed_view(visited@),
        ),
{
    let ghost fv = keyed_paths(files@);
    let ghost vv = keyed_view(visited@);
    let ghost mv = map@;
    let ghost o0 = findings_view(out@);
    let mut j: usize = 0;
    proof {
        use_type_invariant(map);
        assert(fv.take(0) =~= Seq::<Seq<char>>::empty());
        assert(findings_view(out@) =~= o0 + unreachable_findings(fv.take(0), mv, vv));
    }
    while j < files.len()
        invariant
            j <= files@.len(),
            files_wf(files@),
            all_wf(keys@),
            all_wf(visited@),
            fv == keyed_paths(files@),
            vv == keyed_view(visited@),
            mv == map@,
            keyed_view(keys@) == map_keys(mv),
            findings_view(out@) == o0 + unreachable_findings(fv.take(j as int), mv, vv),
            forall|i: int|
                0 <= i < j ==> !(!covers(vv, #[trigger] fv[i]) && key_index(map_keys(mv), fv[i])
                    is None),
        decreases files@.len() - j,
    {
        proof {
            assert(fv.take(j as int + 1).drop_last() =~= fv.take(j as int));
            assert(fv.take(j as int + 1).last() == fv[j as int]);
            assert(fv[j as int] == files@[j as int].path@);
        }
        let f = &files[j];
        if !covers_exec(visited, f) {
            match key_index_exec(keys, f) {
                Some(i) => {
                    proof {
                        crate::graph::lemma_key_index_bounds(keyed_view(keys@), f.path@);
                        assert(mv[i as int].1.2 == map.entries@[i as int].module.raw_source@);
                    }
                    let risky = has_possible_side_effects(&chars_of(map.entries[i].module.raw_source.as_str()));
                    let ghost o = findings_view(out@);
                    out.push(unreachable_exec(&f.path, risky));
                    proof {
                        assert(findings_view(out@) =~= o.push(unreachable_finding(fv[j as int], risky)));
                    }
                },
                None => {
                    proof {
                        assert(!covers(vv, fv[j as int]) && key_index(map_keys(mv), fv[j as int]) is None);
                    }
                    return false;
                },
            }
        }
        j = j + 1;
    }
    proof {
        assert(fv.take(j as int) =~= fv);
    }
    true
}

/// The findings for the unused exports of the visited paths, appended in visit order.
fn add_unused(
    map: &ModuleMap,
    keys: &Vec<KeyedPath>,
    links: &Vec<Link>,
    visited: &Vec<KeyedPath>,
    out: &mut Vec<Finding>,
)
    requires
        all_wf(keys@),
        all_wf(visited@),
        links_wf(links@),
        keyed_view(keys@) == map_keys(map@),
    ensures
        findings_view(final(out)@) == findings_view(old(out)@) + unused_findings(
            map@,
            links_view(links@),
            keyed_view(visited@),
        ),
{
    let ghost vv = keyed_view(visited@);
    let ghost mv = map@;
    let ghost lv = links_view(links@);
    let ghost o0 = findings_view(out@);
    let star = chars_of("*");
    let mut j: usize = 0;
    proof {
        assert(vv.take(0) =~= Seq::<Seq<char>>::empty());
        assert(findings_view(out@) =~= o0 + unused_findings(mv, lv, vv.take(0)));
    }
    while j < visited.len()
        invariant
            j <= visited@.len(),
            all_wf(keys@),
            all_wf(visited@),
            links_wf(links@),
            vv == keyed_view(visited@),
            mv == map@,
            lv == links_view(links@),
            star@ == "*"@,
            keyed_view(keys@) == map_keys(mv),
            findings_view(out@) == o0 + unused_findings(mv, lv, vv.take(j as int)),
        decreases visited@.len() - j,
    {
        proof {
            assert(vv.take(j as int + 1).drop_last() =~= vv.take(j as int));
            assert(vv.take(j as int + 1).last() == vv[j as int]);
        }
        let p = &visited[j];
        match key_index_exec(keys, p) {
            Some(i) => {
                proof {
                    crate::graph::lemma_key_index_bounds(keyed_view(keys@), p.path@);
                    assert(mv[i as int].1.0 == string_views(map.entries@[i as int].module.exports@));
                }
                let exports = &map.entries[i].module.exports;
                let ghost xv = string_views(exports@);
                let has_any = is_used_exec(links, p, &star);
                let ghost base = findings_view(out@);
                let mut k: usize = 0;
                proof {
                    assert(xv.take(0) =~= Seq::<Seq<char>>::empty());
                    assert(findings_view(out@) =~= base + export_findings(lv, p.path@, xv.take(0)));
                }
                while k < exports.len()
                    invariant
                        k <= exports@.len(),
                        links_wf(links@),
                        p.wf(),
                        lv == links_view(links@),
                        xv == string_views(exports@),
                        has_any == is_used(lv, p.path@, "*"@),
                        findings_view(out@) == base + export_findings(lv, p.path@, xv.take(k as int)),
                    decreases exports@.len() - k,
                {
                    proof {
                        assert(xv.take(k as int + 1).drop_last() =~= xv.take(k as int));
                        assert(xv.take(k as int + 1).last() == xv[k as int]);
                    }
                    let x = &exports[k];
                    if !has_any && !is_used_exec(links, p, &chars_of(x.as_str())) {
                        let ghost o = findings_view(out@);
                        out.push(unused_export_exec(&p.path, x));
                        proof {
                            assert(findings_view(out@) =~= o.push(unused_export_finding(p.path@, x@)));
                        }
                    }
                    k = k + 1;
                }
                proof {
                    assert(xv.take(k as int) =~= xv);
                    assert(findings_view(out@) =~= o0 + unused_findings(mv, lv, vv.take(j as int + 1)));
                }
            },
            None => {},
        }
        j = j + 1;
    }
    proof {
        assert(vv.take(j as int) =~= vv);
    }
}


fn finding_insert_pos_exec(sorted: &Vec<Finding>, x: &Finding) -> (i: usize)
    ensures
        i as int == finding_insert_pos(findings_view(sorted@), x@),
        i <= sorted@.len(),
{
    let ghost sv = findings_view(sorted@);
    let xid = chars_of(x.id.as_str());
    let mut i: usize = 0;
    proof {
        assert(sv.skip(0) =~= sv);
    }
    while i < sorted.len() && !chars_lt_exec(&xid, &chars_of(sorted[i].id.as_str()))
        invariant
            i <= sorted@.len(),
            sv == findings_view(sorted@),
            xid@ == x.id@,
            finding_insert_pos(sv, x@) == i + finding_insert_pos(sv.skip(i as int), x@),
        decreases sorted@.len() - i,
    {
        proof {
            assert(sv.skip(i as int)[0] == sv[i as int]);
            assert(sv.skip(i as int).drop_first() =~= sv.skip(i as int + 1));
        }
        i = i + 1;
    }
    proof {
        if i < sorted@.len() {
            assert(sv.skip(i as int)[0] == sv[i as int]);
        }
    }
    i
}

/// Sorts findings by id, keeping the given order among equal ids (a stable sort).
pub fn sort_findings_by_id(v: Vec<Finding>) -> (r: Vec<Finding>)
    ensures
        findings_view(r@) == sort_findings(findings_view(v@)),
{
    let ghost vv = findings_view(v@);
    let n = v.len();
    let mut v = v;
    let mut rev: Vec<Finding> = Vec::new();
    while v.len() > 0
        invariant
            v@.len() + rev@.len() == n,
            n == vv.len(),
            findings_view(v@) == vv.take(v@.len() as int),
            forall|i: int| 0 <= i < rev@.len() ==> #[trigger] rev@[i]@ == vv[n - 1 - i],
        decreases v@.len(),
    {
        let x = v.pop().unwrap();
        proof {
            assert(vv.take(v@.len() as int + 1)[v@.len() as int] == x@);
            assert(findings_view(v@) =~= vv.take(v@.len() as int));
        }
        rev.push(x);
    }
    let mut out: Vec<Finding> = Vec::new();
    let mut k: usize = 0;
    proof {
        assert(vv.take(0) =~= Seq::<FindingView>::empty());
        assert(findings_view(out@) =~= sort_findings(vv.take(0)));
    }
    while rev.len() > 0
        invariant
            k + rev@.len() == n,
            n == vv.len(),
            forall|i: int| 0 <= i < rev@.len() ==> #[trigger] rev@[i]@ == vv[n - 1 - i],
            findings_view(out@) == sort_findings(vv.take(k as int)),
        decreases rev@.len(),
    {
        let x = rev.pop().unwrap();
        proof {
            assert(x@ == vv[k as int]);
            assert(vv.take(k as int + 1).drop_last() =~= vv.take(k as int));
            assert(vv.take(k as int + 1).last() == vv[k as int]);
        }
        let pos = finding_insert_pos_exec(&out, &x);
        let ghost ov = findings_view(out@);
        out.insert(pos, x);
        proof {
            assert(findings_view(out@) =~= ov.insert(pos as int, vv[k as int]));
        }
        k = k + 1;
    }
    proof {
        assert(vv.take(n as int) =~= vv);
    }
    out
}

fn chars_list(v: &Vec<String>) -> (r: Vec<Vec<char>>)
    ensures
        chars_views(r@) == string_views(v@),
{
    let mut out: Vec<Vec<char>> = Vec::new();
    let mut k: usize = 0;
    while k < v.len()
        invariant
            k <= v@.len(),
            out@.len() == k,
            forall|i: int| 0 <= i < k ==> #[trigger] out@[i]@ == v@[i]@,
        decreases v@.len() - k,
    {
        out.push(chars_of(v[k].as_str()));
        k = k + 1;
    }
    proof {
        assert(chars_views(out@) =~= string_views(v@));
    }
    out
}

/// The analysis context of the executable inputs.
pub open spec fn scan_ctx(
    root: Seq<char>,
    files: Seq<String>,
    ts: TsPathsView,
    exts: Seq<String>,
) -> ResolveCtx {
    ResolveCtx { root, files: string_views(files), ts, exts: string_views(exts) }
}

impl Analyzer {
    /// The findings of a project, given its root, its source files, the module map built
    /// from them, its path aliases and the roots of the walk: see [`analysis`].
    pub fn analyze(
        &self,
        root: &str,
        files: &Vec<String>,
        map: &ModuleMap,
        ts: &TsPaths,
        roots: &Vec<String>,
    ) -> (r: Result<ScanResult, ScanError>)
        ensures
            match analysis(
                scan_ctx(root@, files@, ts@, self.options().extensions@),
                map@,
                string_views(roots@),
            ) {
                Ok(fs) => r matches Ok(res) && findings_view(res.findings@) == fs,
                Err(AnalysisFailure::MissingModule) => r matches Err(ScanError::MissingModule),
            },
    {
        proof {
            use_type_invariant(map);
        }
        let rc = chars_of(root);
        let fk = keyed_of(files);
        let exts = chars_list(&self.opts.extensions);
        let ghost ctx = scan_ctx(root@, files@, ts@, self.opts.extensions@);
        proof {
            assert(ctx == ctx_of(rc@, fk@, ts@, exts@)) by {
                assert(keyed_paths(fk@) =~= keyed_view(fk@));
            }
        }
        let (edges, links, uc) = build_graph(&rc, map, &fk, ts, &exts);
        let mut keys: Vec<KeyedPath> = Vec::new();
        let mut i: usize = 0;
        while i < map.entries.len()
            invariant
                i <= map.entries@.len(),
                map.wf(),
                keys@.len() == i,
                all_wf(keys@),
                forall|j: int| 0 <= j < i ==> #[trigger] keys@[j].path@ == map.entries@[j].key.path@,
            decreases map.entries@.len() - i,
        {
            keys.push(copy_keyed(&map.entries[i].key));
            i = i + 1;
        }
        proof {
            assert(keyed_view(keys@) =~= map_keys(map@));
        }
        let root_keys = keyed_of(roots);
        let visited = reachable_files(&keys, &edges, root_keys);
        let mut findings = uc;
        if !add_unreachable(&fk, map, &keys, &visited, &mut findings) {
            return Err(ScanError::MissingModule);
        }
        add_unused(map, &keys, &links, &visited, &mut findings);
        let sorted = sort_findings_by_id(findings);
        Ok(ScanResult { findings: sorted })
    }
}


// ---------------------------------------------------------------------------------------
// Removal, executed.
/// The files a removal would delete, in finding order, and how many unreachable files it
/// leaves as risky.
pub struct RemovalPlan {
    pub candidates: Vec<String>,
    pub skipped_risky: usize,
}

/// What a removal does next: report a dry run, refuse to delete without `--yes` (and
/// report a dry run), or delete the planned files.
pub enum RemovalStep {
    DryRun(RemoveSummary),
    RefuseWithoutYes(RemoveSummary),
    Delete,
}

proof fn lemma_skipped_bound(fs: Seq<FindingView>)
    ensures
        skipped_risky(fs) <= fs.len(),
    decreases fs.len(),
{
    if fs.len() > 0 {
        lemma_skipped_bound(fs.drop_last());
    }
}

impl Analyzer {
    /// The plan of a removal: the files of the fixable unreachable-file findings, and the
    /// number of unreachable-file findings that are not fixable.
    pub fn plan_removal(&self, result: &ScanResult) -> (r: RemovalPlan)
        ensures
            string_views(r.candidates@) == removal_candidates(findings_view(result.findings@)),
            r.skipped_risky == skipped_risky(findings_view(result.findings@)),
    {
        let fs = &result.findings;
        let ghost fv = findings_view(fs@);
        let mut candidates: Vec<String> = Vec::new();
        let mut skipped: usize = 0;
        let mut k: usize = 0;
        proof {
            assert(fv.take(0) =~= Seq::<FindingView>::empty());
            assert(string_views(candidates@) =~= removal_candidates(fv.take(0)));
        }
        while k < fs.len()
            invariant
                k <= fs@.len(),
                fv == findings_view(fs@),
                string_views(candidates@) == removal_candidates(fv.take(k as int)),
                skipped == skipped_risky(fv.take(k as int)),
            decreases fs@.len() - k,
        {
            proof {
                assert(fv.take(k as int + 1).drop_last() =~= fv.take(k as int));
                assert(fv.take(k as int + 1).last() == fv[k as int]);
                lemma_skipped_bound(fv.take(k as int));
            }
            let f = &fs[k];
            if f.kind == FindingKind::UnreachableFile {
                if f.fixable {
                    let ghost c = string_views(candidates@);
                    candidates.push(owned(f.file.as_str()));
                    proof {
                        assert(string_views(candidates@) =~= c.push(fv[k as int].file));
                    }
                } else {
                    skipped = skipped + 1;
                }
            }
            k = k + 1;
        }
        proof {
            assert(fv.take(k as int) =~= fv);
        }
        RemovalPlan { candidates, skipped_risky: skipped }
    }
}

/// How many of the deletions succeeded.
pub open spec fn count_deleted(deleted: Seq<bool>) -> nat
    decreases deleted.len(),
{
    if deleted.len() == 0 {
        0
    } else {
        count_deleted(deleted.drop_last()) + if deleted.last() {
            1nat
        } else {
            0nat
        }
    }
}

proof fn lemma_count_deleted_bound(deleted: Seq<bool>)
    ensures
        count_deleted(deleted) <= deleted.len(),
    decreases deleted.len(),
{
    if deleted.len() > 0 {
        lemma_count_deleted_bound(deleted.drop_last());
    }
}

impl RemovalPlan {
    /// The summary of a removal under this plan.
    fn summary(&self, removed: usize, dry_run: bool) -> (r: RemoveSummary)
        requires
            removed <= self.candidates@.len(),
        ensures
            r == (RemoveSummary {
                planned: self.candidates@.len() as usize,
                removed,
                skipped_risky: self.skipped_risky,
                dry_run,
            }),
    {
        RemoveSummary {
            planned: self.candidates.len(),
            removed,
            skipped_risky: self.skipped_risky,
            dry_run,
        }
    }

    /// The summary of a removal that tried to delete each candidate, given for each one
    /// (in candidate order) whether its deletion succeeded: the removed files are those
    /// that were deleted, never more than were planned.
    pub fn finish(&self, deleted: &Vec<bool>) -> (r: RemoveSummary)
        requires
            deleted@.len() == self.candidates@.len(),
        ensures
            r.planned == self.candidates@.len(),
            r.removed == count_deleted(deleted@),
            r.removed <= r.planned,
            r.skipped_risky == self.skipped_risky,
            !r.dry_run,
    {
        let mut removed: usize = 0;
        let mut k: usize = 0;
        while k < deleted.len()
            invariant
                k <= deleted@.len(),
                removed == count_deleted(deleted@.take(k as int)),
                removed <= k,
            decreases deleted@.len() - k,
        {
            proof {
                assert(deleted@.take(k as int + 1).drop_last() =~= deleted@.take(k as int));
            }
            if deleted[k] {
                removed = removed + 1;
            }
            k = k + 1;
        }
        proof {
            assert(deleted@.take(k as int) =~= deleted@);
        }
        self.summary(removed, false)
    }

    /// What a removal does: without `--fix` it only reports; with `--fix` but without
    /// `--yes` it refuses and reports; with both it deletes.
    pub fn step(&self, fix: bool, yes: bool) -> (r: RemovalStep)
        ensures
            !fix ==> r == RemovalStep::DryRun(
                RemoveSummary {
                    planned: self.candidates@.len() as usize,
                    removed: 0,
                    skipped_risky: self.skipped_risky,
                    dry_run: true,
                },
            ),
            fix && !yes ==> r == RemovalStep::RefuseWithoutYes(
                RemoveSummary {
                    planned: self.candidates@.len() as usize,
                    removed: 0,
                    skipped_risky: self.skipped_risky,
                    dry_run: true,
                },
            ),
            fix && yes ==> r == RemovalStep::Delete,
    {
        if !fix {
            return RemovalStep::DryRun(self.summary(0, true));
        }
        if !yes {
            return RemovalStep::RefuseWithoutYes(self.summary(0, true));
        }
        RemovalStep::Delete
    }
}


// ---------------------------------------------------------------------------------------
// Laws of the analysis.
/// Some finding reports `f` as unreachable.
pub open spec fn reports_unreachable(fs: Seq<FindingView>, f: Seq<char>) -> bool {
    exists|k: int|
        0 <= k < fs.len() && (#[trigger] fs[k]).kind == FindingKind::UnreachableFile && fs[k].file
            == f
}

proof fn lemma_insert_contains<A>(s: Seq<A>, i: int, x: A, y: A)
    requires
        0 <= i <= s.len(),
    ensures
        s.insert(i, x).contains(y) <==> (s.contains(y) || y == x),
{
    let t = s.insert(i, x);
    if s.contains(y) {
        let k = choose|k: int| 0 <= k < s.len() && s[k] == y;
        if k < i {
            assert(t[k] == y);
        } else {
            assert(t[k + 1] == y);
        }
    }
    if y == x {
        assert(t[i] == y);
    }
    if t.contains(y) {
        let k = choose|k: int| 0 <= k < t.len() && t[k] == y;
        if k < i {
            assert(s[k] == y);
        } else if k > i {
            assert(s[k - 1] == y);
        }
    }
}

proof fn lemma_finding_insert_pos_bounds(sorted: Seq<FindingView>, f: FindingView)
    ensures
        0 <= finding_insert_pos(sorted, f) <= sorted.len(),
    decreases sorted.len(),
{
    if sorted.len() > 0 {
        lemma_finding_insert_pos_bounds(sorted.drop_first(), f);
    }
}

/// Sorting keeps the findings: the sorted findings hold exactly the given ones.
pub proof fn lemma_sort_findings_contains(s: Seq<FindingView>, y: FindingView)
    ensures
        sort_findings(s).contains(y) <==> s.contains(y),
    decreases s.len(),
{
    if s.len() > 0 {
        let sorted = sort_findings(s.drop_last());
        lemma_sort_findings_contains(s.drop_last(), y);
        lemma_finding_insert_pos_bounds(sorted, s.last());
        lemma_insert_contains(sorted, finding_insert_pos(sorted, s.last()), s.last(), y);
        assert(s == s.drop_last().push(s.last()));
        lemma_insert_contains(s.drop_last(), s.len() - 1, s.last(), y);
        assert(s.drop_last().insert(s.len() - 1, s.last()) == s);
    }
}

proof fn lemma_reports_through_sort(s: Seq<FindingView>, f: Seq<char>)
    ensures
        reports_unreachable(sort_findings(s), f) <==> reports_unreachable(s, f),
{
    let t = sort_findings(s);
    if reports_unreachable(s, f) {
        let k = choose|k: int|
            0 <= k < s.len() && (#[trigger] s[k]).kind == FindingKind::UnreachableFile && s[k].file
                == f;
        lemma_sort_findings_contains(s, s[k]);
        let j = choose|j: int| 0 <= j < t.len() && t[j] == s[k];
        assert(t[j].kind == FindingKind::UnreachableFile);
    }
    if reports_unreachable(t, f) {
        let k = choose|k: int|
            0 <= k < t.len() && (#[trigger] t[k]).kind == FindingKind::UnreachableFile && t[k].file
                == f;
        lemma_sort_findings_contains(s, t[k]);
        let j = choose|j: int| 0 <= j < s.len() && s[j] == t[k];
        assert(s[j].kind == FindingKind::UnreachableFile);
    }
}

proof fn lemma_reports_concat(a: Seq<FindingView>, b: Seq<FindingView>, f: Seq<char>)
    ensures
        reports_unreachable(a + b, f) <==> reports_unreachable(a, f) || reports_unreachable(b, f),
{
    let c = a + b;
    if reports_unreachable(c, f) {
        let k = choose|k: int|
            0 <= k < c.len() && (#[trigger] c[k]).kind == FindingKind::UnreachableFile && c[k].file
                == f;
        if k < a.len() {
            assert(c[k] == a[k]);
        } else {
            assert(c[k] == b[k - a.len()]);
        }
    }
    if reports_unreachable(a, f) {
        let k = choose|k: int|
            0 <= k < a.len() && (#[trigger] a[k]).kind == FindingKind::UnreachableFile && a[k].file
                == f;
        assert(c[k] == a[k]);
    }
    if reports_unreachable(b, f) {
        let k = choose|k: int|
            0 <= k < b.len() && (#[trigger] b[k]).kind == FindingKind::UnreachableFile && b[k].file
                == f;
        assert(c[a.len() + k] == b[k]);
    }
}

proof fn lemma_no_reports_uncertain(m: ModuleMapView, f: Seq<char>)
    ensures
        !reports_unreachable(all_uncertain(m), f),
    decreases m.len(),
{
    if m.len() > 0 {
        lemma_no_reports_uncertain(m.drop_last(), f);
        lemma_no_reports_entry_uncertain(m.last().0, m.last().1.1, f);
        lemma_reports_concat(all_uncertain(m.drop_last()), entry_uncertain(m.last().0, m.last().1.1), f);
    }
}

proof fn lemma_no_reports_entry_uncertain(key: Seq<char>, imps: Seq<ImportRefView>, f: Seq<char>)
    ensures
        !reports_unreachable(entry_uncertain(key, imps), f),
    decreases imps.len(),
{
    if imps.len() > 0 {
        lemma_no_reports_entry_uncertain(key, imps.drop_last(), f);
        let prev = entry_uncertain(key, imps.drop_last());
        if imps.last().3 {
            lemma_reports_concat(prev, seq![uncertain_finding(key, imps.last().0)], f);
            assert(prev.push(uncertain_finding(key, imps.last().0)) == prev + seq![
                uncertain_finding(key, imps.last().0),
            ]);
        }
    }
}

proof fn lemma_no_reports_unused(m: ModuleMapView, links: Seq<LinkView>, v: Seq<Seq<char>>, f: Seq<char>)
    ensures
        !reports_unreachable(unused_findings(m, links, v), f),
    decreases v.len(),
{
    if v.len() > 0 {
        lemma_no_reports_unused(m, links, v.drop_last(), f);
        let p = v.last();
        if let Some(i) = key_index(map_keys(m), p) {
            lemma_no_reports_exports(links, p, m[i].1.0, f);
            lemma_reports_concat(unused_findings(m, links, v.drop_last()), export_findings(links, p, m[i].1.0), f);
        }
    }
}

proof fn lemma_no_reports_exports(links: Seq<LinkView>, p: Seq<char>, xs: Seq<Seq<char>>, f: Seq<char>)
    ensures
        !reports_unreachable(export_findings(links, p, xs), f),
    decreases xs.len(),
{
    if xs.len() > 0 {
        lemma_no_reports_exports(links, p, xs.drop_last(), f);
        let prev = export_findings(links, p, xs.drop_last());
        let g = unused_export_finding(p, xs.last());
        lemma_reports_concat(prev, seq![g], f);
        assert(prev.push(g) == prev + seq![g]);
    }
}

/// Without a missing module, the unreachable-file findings report a file exactly when some
/// file of the same text was not visited.
proof fn lemma_unreachable_reports(files: Seq<Seq<char>>, m: ModuleMapView, v: Seq<Seq<char>>, f: Seq<char>)
    requires
        !missing_module(files, m, v),
    ensures
        reports_unreachable(unreachable_findings(files, m, v), f) <==> (files.contains(f) && !covers(
            v,
            f,
        )),
    decreases files.len(),
{
    if files.len() > 0 {
        let fs0 = files.drop_last();
        assert forall|j: int|
            0 <= j < fs0.len() && !covers(v, #[trigger] fs0[j]) implies key_index(map_keys(m), fs0[j]) is Some by {
            assert(fs0[j] == files[j]);
        }
        lemma_unreachable_reports(fs0, m, v, f);
        let prev = unreachable_findings(fs0, m, v);
        let last = files.last();
        assert(files == fs0.push(last));
        if !covers(v, last) {
            assert(key_index(map_keys(m), files[files.len() - 1]) is Some);
            let i = key_index(map_keys(m), last).unwrap();
            let g = unreachable_finding(last, side_effects_possible(m[i].1.2));
            lemma_reports_concat(prev, seq![g], f);
            assert(prev.push(g) == prev + seq![g]);
            if reports_unreachable(seq![g], f) {
                let k = choose|k: int|
                    0 <= k < 1 && (#[trigger] seq![g][k]).kind == FindingKind::UnreachableFile
                        && seq![g][k].file == f;
                assert(seq![g][k] == g);
            }
            assert(g.kind == FindingKind::UnreachableFile && seq![g][0] == g);
        }
        if files.contains(f) {
            let j = choose|j: int| 0 <= j < files.len() && files[j] == f;
            if j < fs0.len() {
                assert(fs0[j] == f);
            }
        }
        if fs0.contains(f) {
            let j = choose|j: int| 0 <= j < fs0.len() && fs0[j] == f;
            assert(files[j] == f);
        }
    }
}

/// Law: when the analysis succeeds, it reports a source file as unreachable exactly when
/// no chain of imports leads to it from a root.
pub proof fn law_unreachable_exactly_unreached(
    ctx: ResolveCtx,
    m: ModuleMapView,
    roots: Seq<Seq<char>>,
    f: Seq<char>,
)
    requires
        ctx.files.contains(f),
        analysis(ctx, m, roots) is Ok,
    ensures
        reports_unreachable(analysis(ctx, m, roots)->Ok_0, f) <==> !reachable(
            map_keys(m),
            graph_edges(ctx, m),
            roots,
            f,
        ),
{
    let keys = map_keys(m);
    let edges = graph_edges(ctx, m);
    let v = visit_order(keys, edges, roots);
    let uc = all_uncertain(m);
    let uf = unreachable_findings(ctx.files, m, v);
    let ue = unused_findings(m, all_links(ctx, m), v);
    lemma_reports_through_sort(uc + uf + ue, f);
    lemma_reports_concat(uc + uf, ue, f);
    lemma_reports_concat(uc, uf, f);
    lemma_no_reports_uncertain(m, f);
    lemma_no_reports_unused(m, all_links(ctx, m), v, f);
    lemma_unreachable_reports(ctx.files, m, v, f);
    crate::graph::law_visits_exactly_reachable(keys, edges, roots, f);
}


proof fn lemma_sort_findings_is_ins_sort(s: Seq<FindingView>)
    ensures
        sort_findings(s) == crate::order::ins_sort(
            |a: FindingView, b: FindingView| chars_lt(a.id, b.id),
            s,
        ),
    decreases s.len(),
{
    if s.len() > 0 {
        lemma_sort_findings_is_ins_sort(s.drop_last());
        lemma_finding_pos_is_ins_pos(sort_findings(s.drop_last()), s.last());
    }
}

proof fn lemma_finding_pos_is_ins_pos(s: Seq<FindingView>, x: FindingView)
    ensures
        finding_insert_pos(s, x) == crate::order::ins_pos(
            |a: FindingView, b: FindingView| chars_lt(a.id, b.id),
            s,
            x,
        ),
    decreases s.len(),
{
    if s.len() > 0 {
        lemma_finding_pos_is_ins_pos(s.drop_first(), x);
    }
}

/// Law: sorting findings gives them in the order of their ids (no id orders before an
/// earlier one), and gives each finding, as often as it was given.
pub proof fn law_sort_findings(s: Seq<FindingView>)
    ensures
        forall|i: int, j: int|
            0 <= i < j < sort_findings(s).len() ==> !chars_lt(
                #[trigger] sort_findings(s)[j].id,
                #[trigger] sort_findings(s)[i].id,
            ),
        sort_findings(s).to_multiset() == s.to_multiset(),
{
    let lt = |a: FindingView, b: FindingView| chars_lt(a.id, b.id);
    crate::text::lemma_chars_lt_order();
    assert(crate::order::strict_weak(lt)) by {
        assert forall|a: FindingView, b: FindingView, c: FindingView|
            !lt(a, b) && !lt(b, a) implies (#[trigger] lt(a, c) == #[trigger] lt(b, c) && lt(c, a)
            == lt(c, b)) by {
            assert(a.id == b.id);
        }
    }
    lemma_sort_findings_is_ins_sort(s);
    crate::order::law_ins_sort_sorted(lt, s);
    crate::order::law_ins_sort_permutes(lt, s);
    let r = sort_findings(s);
    assert forall|i: int, j: int| 0 <= i < j < r.len() implies !chars_lt(#[trigger] r[j].id, #[trigger] r[i].id) by {
        assert(!lt(r[j], r[i]));
    }
}

/// Law: the findings of a successful analysis come in the order of their ids.
pub proof fn law_findings_in_id_order(ctx: ResolveCtx, m: ModuleMapView, roots: Seq<Seq<char>>)
    requires
        analysis(ctx, m, roots) is Ok,
    ensures
        forall|i: int, j: int|
            0 <= i < j < analysis(ctx, m, roots)->Ok_0.len() ==> !chars_lt(
                #[trigger] analysis(ctx, m, roots)->Ok_0[j].id,
                #[trigger] analysis(ctx, m, roots)->Ok_0[i].id,
            ),
{
    let keys = map_keys(m);
    let edges = graph_edges(ctx, m);
    let v = visit_order(keys, edges, roots);
    law_sort_findings(
        all_uncertain(m) + unreachable_findings(ctx.files, m, v) + unused_findings(
            m,
            all_links(ctx, m),
            v,
        ),
    );
}

/// Law: the source files come sorted in `Path` order, each selected walked file once.
pub proof fn law_source_files_sorted(
    include_globs: Seq<Seq<char>>,
    exclude: Seq<Seq<char>>,
    exts: Seq<Seq<char>>,
    ws: Seq<(Seq<char>, Seq<char>)>,
)
    requires
        select_outcome(include_globs, exclude, exts, ws) is Files,
    ensures
        forall|i: int, j: int|
            0 <= i < j < select_outcome(include_globs, exclude, exts, ws)->Files_0.len() ==> !path_lt(
                #[trigger] select_outcome(include_globs, exclude, exts, ws)->Files_0[j],
                #[trigger] select_outcome(include_globs, exclude, exts, ws)->Files_0[i],
            ),
        select_outcome(include_globs, exclude, exts, ws)->Files_0.to_multiset() == source_paths(
            include_globs,
            exclude,
            exts,
            ws,
        ).to_multiset(),
{
    crate::path::law_sort_paths(source_paths(include_globs, exclude, exts, ws));
}


/// No path is walked under two spellings: walked paths that are the same path are written
/// alike.
pub open spec fn one_spelling(ws: Seq<(Seq<char>, Seq<char>)>) -> bool {
    forall|i: int, j: int|
        0 <= i < ws.len() && 0 <= j < ws.len() && same_path(#[trigger] ws[i].0, #[trigger] ws[j].0)
            ==> ws[i].0 == ws[j].0
}

proof fn lemma_source_path_walked(
    include_globs: Seq<Seq<char>>,
    exclude: Seq<Seq<char>>,
    exts: Seq<Seq<char>>,
    ws: Seq<(Seq<char>, Seq<char>)>,
    a: Seq<char>,
)
    requires
        source_paths(include_globs, exclude, exts, ws).contains(a),
    ensures
        exists|i: int| 0 <= i < ws.len() && #[trigger] ws[i].0 == a,
    decreases ws.len(),
{
    let sp = source_paths(include_globs, exclude, exts, ws);
    let prev = source_paths(include_globs, exclude, exts, ws.drop_last());
    let k = choose|k: int| 0 <= k < sp.len() && sp[k] == a;
    if k < prev.len() {
        assert(prev[k] == a);
        lemma_source_path_walked(include_globs, exclude, exts, ws.drop_last(), a);
        let i = choose|i: int| 0 <= i < ws.drop_last().len() && #[trigger] ws.drop_last()[i].0 == a;
        assert(ws[i] == ws.drop_last()[i]);
    } else {
        assert(ws[ws.len() - 1].0 == a);
    }
}

proof fn lemma_source_paths_concat(
    include_globs: Seq<Seq<char>>,
    exclude: Seq<Seq<char>>,
    exts: Seq<Seq<char>>,
    a: Seq<(Seq<char>, Seq<char>)>,
    b: Seq<(Seq<char>, Seq<char>)>,
)
    ensures
        source_paths(include_globs, exclude, exts, a + b) == source_paths(
            include_globs,
            exclude,
            exts,
            a,
        ) + source_paths(include_globs, exclude, exts, b),
    decreases b.len(),
{
    let sa = source_paths(include_globs, exclude, exts, a);
    if b.len() == 0 {
        assert(a + b =~= a);
        assert(sa + source_paths(include_globs, exclude, exts, b) =~= sa);
    } else {
        lemma_source_paths_concat(include_globs, exclude, exts, a, b.drop_last());
        assert((a + b).drop_last() =~= a + b.drop_last());
        assert((a + b).last() == b.last());
        let sb = source_paths(include_globs, exclude, exts, b.drop_last());
        if is_source_file(include_globs, exclude, exts, b.last()) {
            assert((sa + sb).push(b.last().0) =~= sa + sb.push(b.last().0));
        }
    }
}

proof fn lemma_source_paths_permuted(
    include_globs: Seq<Seq<char>>,
    exclude: Seq<Seq<char>>,
    exts: Seq<Seq<char>>,
    ws1: Seq<(Seq<char>, Seq<char>)>,
    ws2: Seq<(Seq<char>, Seq<char>)>,
)
    requires
        ws1.to_multiset() == ws2.to_multiset(),
    ensures
        source_paths(include_globs, exclude, exts, ws1).to_multiset() == source_paths(
            include_globs,
            exclude,
            exts,
            ws2,
        ).to_multiset(),
    decreases ws1.len(),
{
    broadcast use vstd::multiset::group_multiset_axioms;
    broadcast use vstd::seq_lib::group_to_multiset_ensures;

    if ws1.len() == 0 {
        assert(ws1.to_multiset().len() == 0);
        assert(ws2.to_multiset().len() == 0);
        assert(ws2.len() == 0);
        assert(source_paths(include_globs, exclude, exts, ws2).len() == 0);
        assert(source_paths(include_globs, exclude, exts, ws1).to_multiset() =~= source_paths(
            include_globs,
            exclude,
            exts,
            ws2,
        ).to_multiset());
    } else {
        let x = ws1.last();
        let dl = ws1.drop_last();
        assert(ws1 =~= dl.push(x));
        assert(ws1.to_multiset().count(x) > 0);
        assert(ws2.contains(x));
        let k = choose|k: int| 0 <= k < ws2.len() && ws2[k] == x;
        let ws2r = ws2.remove(k);
        assert(ws2r.to_multiset() =~= ws2.to_multiset().remove(x));
        assert(dl.to_multiset() =~= ws1.to_multiset().remove(x));
        lemma_source_paths_permuted(include_globs, exclude, exts, dl, ws2r);
        let one = seq![x];
        let front = ws2.take(k);
        let back = ws2.skip(k + 1);
        assert(ws2 =~= front + one + back);
        assert(ws2r =~= front + back);
        assert(ws1 =~= dl + one);
        lemma_source_paths_concat(include_globs, exclude, exts, front + one, back);
        lemma_source_paths_concat(include_globs, exclude, exts, front, one);
        lemma_source_paths_concat(include_globs, exclude, exts, front, back);
        lemma_source_paths_concat(include_globs, exclude, exts, dl, one);
        let sf = source_paths(include_globs, exclude, exts, front);
        let so = source_paths(include_globs, exclude, exts, one);
        let sb = source_paths(include_globs, exclude, exts, back);
        let sd = source_paths(include_globs, exclude, exts, dl);
        vstd::seq_lib::lemma_multiset_commutative(sf + so, sb);
        vstd::seq_lib::lemma_multiset_commutative(sf, so);
        vstd::seq_lib::lemma_multiset_commutative(sf, sb);
        vstd::seq_lib::lemma_multiset_commutative(sd, so);
        assert(source_paths(include_globs, exclude, exts, ws1).to_multiset() =~= source_paths(
            include_globs,
            exclude,
            exts,
            ws2,
        ).to_multiset());
    }
}

/// Two path lists in `Path` order with the same paths, each as often, are the same list
/// when no two of their paths are the same path written differently.
proof fn lemma_sorted_paths_unique(x: Seq<Seq<char>>, y: Seq<Seq<char>>)
    requires
        forall|i: int, j: int| 0 <= i < j < x.len() ==> !path_lt(#[trigger] x[j], #[trigger] x[i]),
        forall|i: int, j: int| 0 <= i < j < y.len() ==> !path_lt(#[trigger] y[j], #[trigger] y[i]),
        x.to_multiset() == y.to_multiset(),
        forall|a: Seq<char>, b: Seq<char>|
            x.contains(a) && x.contains(b) && #[trigger] same_path(a, b) ==> a == b,
    ensures
        x == y,
    decreases x.len(),
{
    broadcast use vstd::multiset::group_multiset_axioms;
    broadcast use vstd::seq_lib::group_to_multiset_ensures;

    if x.len() == 0 || y.len() == 0 {
        assert(x.len() == y.len());
        assert(x =~= y);
    } else {
        crate::path::lemma_path_lt_order();
        assert(x.to_multiset().count(x[0]) > 0);
        assert(y.to_multiset().count(y[0]) > 0);
        assert(y.contains(x[0]));
        assert(x.contains(y[0]));
        let j = choose|j: int| 0 <= j < y.len() && y[j] == x[0];
        let i = choose|i: int| 0 <= i < x.len() && x[i] == y[0];
        if j > 0 {
            assert(!path_lt(y[j], y[0]));
        }
        if i > 0 {
            assert(!path_lt(x[i], x[0]));
        }
        assert(same_path(x[0], y[0]));
        assert(x[0] == y[0]);
        assert(x.remove(0) =~= x.drop_first());
        assert(y.remove(0) =~= y.drop_first());
        assert(x.drop_first().to_multiset() =~= x.to_multiset().remove(x[0]));
        assert(y.drop_first().to_multiset() =~= y.to_multiset().remove(y[0]));
        let xd = x.drop_first();
        let yd = y.drop_first();
        assert forall|i: int, j: int| 0 <= i < j < xd.len() implies !path_lt(#[trigger] xd[j], #[trigger] xd[i]) by {
            assert(xd[j] == x[j + 1] && xd[i] == x[i + 1]);
        }
        assert forall|i: int, j: int| 0 <= i < j < yd.len() implies !path_lt(#[trigger] yd[j], #[trigger] yd[i]) by {
            assert(yd[j] == y[j + 1] && yd[i] == y[i + 1]);
        }
        assert forall|a: Seq<char>, b: Seq<char>|
            xd.contains(a) && xd.contains(b) && #[trigger] same_path(a, b) implies a == b by {
            let p = choose|p: int| 0 <= p < xd.len() && xd[p] == a;
            let q = choose|q: int| 0 <= q < xd.len() && xd[q] == b;
            assert(x[p + 1] == a && x[q + 1] == b);
        }
        lemma_sorted_paths_unique(xd, yd);
        assert(x =~= seq![x[0]] + xd);
        assert(y =~= seq![y[0]] + yd);
    }
}

/// Law: which source files a scan selects, and in what order, does not depend on the order
/// in which the walk lists the files, as long as it never lists one path under two
/// spellings: two walks of the same tree select the same files.
pub proof fn law_selection_ignores_walk_order(
    include_globs: Seq<Seq<char>>,
    exclude: Seq<Seq<char>>,
    exts: Seq<Seq<char>>,
    ws1: Seq<(Seq<char>, Seq<char>)>,
    ws2: Seq<(Seq<char>, Seq<char>)>,
)
    requires
        ws1.to_multiset() == ws2.to_multiset(),
        one_spelling(ws1),
    ensures
        select_outcome(include_globs, exclude, exts, ws1) == select_outcome(
            include_globs,
            exclude,
            exts,
            ws2,
        ),
{
    broadcast use vstd::multiset::group_multiset_axioms;
    broadcast use vstd::seq_lib::group_to_multiset_ensures;

    let sp1 = source_paths(include_globs, exclude, exts, ws1);
    let sp2 = source_paths(include_globs, exclude, exts, ws2);
    lemma_source_paths_permuted(include_globs, exclude, exts, ws1, ws2);
    crate::path::law_sort_paths(sp1);
    crate::path::law_sort_paths(sp2);
    let x = sort_paths(sp1);
    let y = sort_paths(sp2);
    assert forall|a: Seq<char>, b: Seq<char>|
        x.contains(a) && x.contains(b) && #[trigger] same_path(a, b) implies a == b by {
        assert(x.to_multiset().count(a) > 0);
        assert(x.to_multiset().count(b) > 0);
        assert(sp1.contains(a));
        assert(sp1.contains(b));
        lemma_source_path_walked(include_globs, exclude, exts, ws1, a);
        lemma_source_path_walked(include_globs, exclude, exts, ws1, b);
        let i = choose|i: int| 0 <= i < ws1.len() && #[trigger] ws1[i].0 == a;
        let j = choose|j: int| 0 <= j < ws1.len() && #[trigger] ws1[j].0 == b;
        assert(same_path(ws1[i].0, ws1[j].0));
    }
    lemma_sorted_paths_unique(x, y);
}

/// A removal candidate is the file of a fixable unreachable-file finding.
proof fn lemma_candidate_has_finding(fs: Seq<FindingView>, c: Seq<char>)
    requires
        removal_candidates(fs).contains(c),
    ensures
        exists|k: int|
            0 <= k < fs.len() && (#[trigger] fs[k]).kind == FindingKind::UnreachableFile && fs[k].fixable
                && fs[k].file == c,
    decreases fs.len(),
{
    let prev = removal_candidates(fs.drop_last());
    let f = fs.last();
    if prev.contains(c) {
        lemma_candidate_has_finding(fs.drop_last(), c);
        let k = choose|k: int|
            0 <= k < fs.drop_last().len() && (#[trigger] fs.drop_last()[k]).kind
                == FindingKind::UnreachableFile && fs.drop_last()[k].fixable && fs.drop_last()[k].file
                == c;
        assert(fs[k] == fs.drop_last()[k]);
    } else {
        assert(f.kind == FindingKind::UnreachableFile && f.fixable);
        let k = choose|k: int| 0 <= k < prev.push(f.file).len() && prev.push(f.file)[k] == c;
        assert(k == prev.len());
        assert(fs[fs.len() - 1] == f);
    }
}

proof fn lemma_fixable_in_uncertain(m: ModuleMapView, g: FindingView)
    requires
        all_uncertain(m).contains(g),
    ensures
        g.kind == FindingKind::Uncertain,
    decreases m.len(),
{
    if m.len() > 0 {
        let a = all_uncertain(m.drop_last());
        let b = entry_uncertain(m.last().0, m.last().1.1);
        let k = choose|k: int| 0 <= k < (a + b).len() && (a + b)[k] == g;
        if k < a.len() {
            assert((a + b)[k] == a[k]);
            lemma_fixable_in_uncertain(m.drop_last(), g);
        } else {
            assert((a + b)[k] == b[k - a.len()]);
            lemma_entry_uncertain_kind(m.last().0, m.last().1.1, k - a.len());
        }
    }
}

proof fn lemma_entry_uncertain_kind(key: Seq<char>, imps: Seq<ImportRefView>, k: int)
    requires
        0 <= k < entry_uncertain(key, imps).len(),
    ensures
        entry_uncertain(key, imps)[k].kind == FindingKind::Uncertain,
    decreases imps.len(),
{
    if imps.len() > 0 {
        let prev = entry_uncertain(key, imps.drop_last());
        if k < prev.len() {
            lemma_entry_uncertain_kind(key, imps.drop_last(), k);
        }
    }
}

proof fn lemma_unused_kind(m: ModuleMapView, links: Seq<LinkView>, v: Seq<Seq<char>>, k: int)
    requires
        0 <= k < unused_findings(m, links, v).len(),
    ensures
        unused_findings(m, links, v)[k].kind == FindingKind::UnusedExport,
    decreases v.len(),
{
    if v.len() > 0 {
        let prev = unused_findings(m, links, v.drop_last());
        let p = v.last();
        match key_index(map_keys(m), p) {
            Some(i) => {
                if k < prev.len() {
                    lemma_unused_kind(m, links, v.drop_last(), k);
                } else {
                    lemma_export_kind(links, p, m[i].1.0, k - prev.len());
                }
            },
            None => {
                lemma_unused_kind(m, links, v.drop_last(), k);
            },
        }
    }
}

proof fn lemma_export_kind(links: Seq<LinkView>, p: Seq<char>, xs: Seq<Seq<char>>, k: int)
    requires
        0 <= k < export_findings(links, p, xs).len(),
    ensures
        export_findings(links, p, xs)[k].kind == FindingKind::UnusedExport,
    decreases xs.len(),
{
    if xs.len() > 0 {
        let prev = export_findings(links, p, xs.drop_last());
        if k < prev.len() {
            lemma_export_kind(links, p, xs.drop_last(), k);
        }
    }
}

/// An unreachable-file finding is about an unvisited file, and is fixable exactly when
/// that file's source cannot have side effects.
proof fn lemma_unreachable_finding_source(
    files: Seq<Seq<char>>,
    m: ModuleMapView,
    v: Seq<Seq<char>>,
    k: int,
)
    requires
        0 <= k < unreachable_findings(files, m, v).len(),
    ensures
        ({
            let g = unreachable_findings(files, m, v)[k];
            &&& files.contains(g.file)
            &&& !covers(v, g.file)
            &&& key_index(map_keys(m), g.file) is Some
            &&& g.fixable == !side_effects_possible(m[key_index(map_keys(m), g.file)->Some_0].1.2)
        }),
    decreases files.len(),
{
    let prev = unreachable_findings(files.drop_last(), m, v);
    let g = unreachable_findings(files, m, v)[k];
    if k < prev.len() {
        lemma_unreachable_finding_source(files.drop_last(), m, v, k);
        let j = choose|j: int| 0 <= j < files.drop_last().len() && files.drop_last()[j] == g.file;
        assert(files[j] == g.file);
    } else {
        assert(files[files.len() - 1] == files.last());
    }
}

/// Law: what a removal plans to delete after a successful analysis are source files that
/// no root reaches and whose source cannot have side effects.
pub proof fn law_removal_only_safe(
    ctx: ResolveCtx,
    m: ModuleMapView,
    roots: Seq<Seq<char>>,
    c: Seq<char>,
)
    requires
        analysis(ctx, m, roots) is Ok,
        removal_candidates(analysis(ctx, m, roots)->Ok_0).contains(c),
    ensures
        ctx.files.contains(c),
        !reachable(map_keys(m), graph_edges(ctx, m), roots, c),
        key_index(map_keys(m), c) is Some,
        !side_effects_possible(m[key_index(map_keys(m), c)->Some_0].1.2),
{
    let keys = map_keys(m);
    let edges = graph_edges(ctx, m);
    let v = visit_order(keys, edges, roots);
    let uc = all_uncertain(m);
    let uf = unreachable_findings(ctx.files, m, v);
    let ue = unused_findings(m, all_links(ctx, m), v);
    let all = uc + uf + ue;
    let fs = analysis(ctx, m, roots)->Ok_0;
    lemma_candidate_has_finding(fs, c);
    let k = choose|k: int|
        0 <= k < fs.len() && (#[trigger] fs[k]).kind == FindingKind::UnreachableFile && fs[k].fixable
            && fs[k].file == c;
    let g = fs[k];
    lemma_sort_findings_contains(all, g);
    let a = choose|a: int| 0 <= a < all.len() && all[a] == g;
    if a < uc.len() {
        assert(all[a] == uc[a]);
        lemma_fixable_in_uncertain(m, g);
    } else if a < uc.len() + uf.len() {
        assert(all[a] == uf[a - uc.len()]);
        lemma_unreachable_finding_source(ctx.files, m, v, a - uc.len());
    } else {
        assert(all[a] == ue[a - uc.len() - uf.len()]);
        lemma_unused_kind(m, all_links(ctx, m), v, a - uc.len() - uf.len());
    }
    crate::graph::law_visits_exactly_reachable(keys, edges, roots, c);
}


// The module map keeps what a `BTreeMap` keeps.
/// The keys of the map are in strictly increasing `Path` order.
pub open spec fn keys_increasing(m: ModuleMapView) -> bool {
    forall|i: int, j: int| 0 <= i < j < m.len() ==> path_lt(#[trigger] m[i].0, #[trigger] m[j].0)
}

proof fn lemma_map_pos(m: ModuleMapView, k: Seq<char>) -> (p: int)
    ensures
        p == map_pos(m, k),
        0 <= p <= m.len(),
        forall|i: int| 0 <= i < p ==> path_lt(#[trigger] m[i].0, k),
        p < m.len() ==> !path_lt(m[p].0, k),
    decreases m.len(),
{
    if m.len() == 0 {
        0
    } else if path_lt(m[0].0, k) {
        let q = lemma_map_pos(m.drop_first(), k);
        assert forall|i: int| 0 <= i < q + 1 implies path_lt(#[trigger] m[i].0, k) by {
            if i > 0 {
                assert(m[i] == m.drop_first()[i - 1]);
            }
        }
        if q + 1 < m.len() {
            assert(m[q + 1] == m.drop_first()[q]);
        }
        q + 1
    } else {
        0
    }
}

/// One insert keeps the keys increasing; afterwards some key is the inserted one's path,
/// and every key was there before or is the inserted one.
proof fn lemma_map_insert(m: ModuleMapView, k: Seq<char>, v: ModuleInfoView)
    requires
        keys_increasing(m),
    ensures
        keys_increasing(map_insert(m, k, v)),
        covers(map_keys(map_insert(m, k, v)), k),
        forall|i: int|
            0 <= i < map_insert(m, k, v).len() ==> (#[trigger] map_insert(m, k, v)[i]).0 == k
                || map_keys(m).contains(map_insert(m, k, v)[i].0),
        forall|i: int|
            0 <= i < map_insert(m, k, v).len() ==> (same_path(
                #[trigger] map_insert(m, k, v)[i].0,
                k,
            ) ==> map_insert(m, k, v)[i].1 == v) && (!same_path(map_insert(m, k, v)[i].0, k)
                ==> exists|j: int| 0 <= j < m.len() && m[j] == map_insert(m, k, v)[i]),
{
    crate::path::lemma_path_lt_order();
    let lt = |a: Seq<char>, b: Seq<char>| path_lt(a, b);
    let p = lemma_map_pos(m, k);
    let r = map_insert(m, k, v);
    let rk = map_keys(r);
    if p < m.len() && same_path(m[p].0, k) {
        assert forall|i: int, j: int| 0 <= i < j < r.len() implies path_lt(#[trigger] r[i].0, #[trigger] r[j].0) by {
            assert(r[i].0 == m[i].0 && r[j].0 == m[j].0);
        }
        assert(rk[p] == m[p].0);
        assert forall|i: int| 0 <= i < r.len() implies (#[trigger] r[i]).0 == k || map_keys(m).contains(r[i].0) by {
            assert(map_keys(m)[i] == m[i].0);
        }
        assert forall|i: int| 0 <= i < r.len() implies (same_path(#[trigger] r[i].0, k) ==> r[i].1 == v)
            && (!same_path(r[i].0, k) ==> exists|j: int| 0 <= j < m.len() && m[j] == r[i]) by {
            if i != p {
                assert(r[i] == m[i]);
                if same_path(r[i].0, k) {
                    // two keys of the same path cannot both be in an increasing map
                    if i < p {
                        assert(path_lt(m[i].0, m[p].0));
                        assert(lt(m[i].0, m[p].0));
                        assert(!lt(m[p].0, m[p].0));
                    } else {
                        assert(path_lt(m[p].0, m[i].0));
                        assert(lt(m[p].0, m[i].0));
                        assert(!lt(m[i].0, m[i].0));
                    }
                }
            }
        }
    } else {
        if p < m.len() {
            assert(!lt(m[p].0, k));
            assert(lt(k, m[p].0));
        }
        assert forall|i: int, j: int| 0 <= i < j < r.len() implies path_lt(#[trigger] r[i].0, #[trigger] r[j].0) by {
            if j < p {
                assert(r[i] == m[i] && r[j] == m[j]);
            } else if j == p {
                assert(r[i] == m[i] && r[j].0 == k);
            } else if i < p {
                assert(r[i] == m[i] && r[j] == m[j - 1]);
                assert(lt(m[i].0, k));
                if j - 1 > p {
                    assert(lt(m[p].0, m[j - 1].0));
                    assert(lt(k, m[j - 1].0));
                }
                assert(lt(k, m[j - 1].0));
            } else if i == p {
                assert(r[i].0 == k && r[j] == m[j - 1]);
                if j - 1 > p {
                    assert(lt(m[p].0, m[j - 1].0));
                }
            } else {
                assert(r[i] == m[i - 1] && r[j] == m[j - 1]);
            }
        }
        assert(rk[p] == k);
        assert forall|i: int| 0 <= i < r.len() implies (#[trigger] r[i]).0 == k || map_keys(m).contains(r[i].0) by {
            if i < p {
                assert(r[i] == m[i] && map_keys(m)[i] == m[i].0);
            } else if i > p {
                assert(r[i] == m[i - 1] && map_keys(m)[i - 1] == m[i - 1].0);
            }
        }
        assert forall|i: int| 0 <= i < r.len() implies (same_path(#[trigger] r[i].0, k) ==> r[i].1 == v)
            && (!same_path(r[i].0, k) ==> exists|j: int| 0 <= j < m.len() && m[j] == r[i]) by {
            if i < p {
                assert(r[i] == m[i]);
                assert(lt(m[i].0, k));
                if same_path(r[i].0, k) {
                    assert(!lt(k, k));
                }
            } else if i > p {
                assert(r[i] == m[i - 1]);
                assert(lt(k, m[i - 1].0)) by {
                    if i - 1 > p {
                        assert(lt(m[p].0, m[i - 1].0));
                    }
                }
                if same_path(r[i].0, k) {
                    assert(!lt(k, k));
                }
            }
        }
    }
}

proof fn lemma_build_increasing(pairs: Seq<(Seq<char>, ModuleInfoView)>)
    ensures
        keys_increasing(build_map(pairs)),
    decreases pairs.len(),
{
    if pairs.len() > 0 {
        lemma_build_increasing(pairs.drop_last());
        lemma_map_insert(build_map(pairs.drop_last()), pairs.last().0, pairs.last().1);
    }
}

proof fn lemma_build_covers(pairs: Seq<(Seq<char>, ModuleInfoView)>, j: int)
    requires
        0 <= j < pairs.len(),
    ensures
        covers(map_keys(build_map(pairs)), pairs[j].0),
    decreases pairs.len(),
{
    let ps = pairs.drop_last();
    let m0 = build_map(ps);
    let (k, v) = pairs.last();
    lemma_build_increasing(ps);
    lemma_map_insert(m0, k, v);
    if j < ps.len() {
        lemma_build_covers(ps, j);
        assert(ps[j] == pairs[j]);
        let a = choose|a: int|
            0 <= a < map_keys(m0).len() && same_path(#[trigger] map_keys(m0)[a], ps[j].0);
        lemma_insert_keeps_cover(m0, k, v, map_keys(m0)[a]);
        let m = build_map(pairs);
        let b = choose|b: int|
            0 <= b < map_keys(m).len() && same_path(#[trigger] map_keys(m)[b], map_keys(m0)[a]);
        assert(same_path(map_keys(m)[b], pairs[j].0));
    }
}

proof fn lemma_build_keys_from_pairs(pairs: Seq<(Seq<char>, ModuleInfoView)>, i: int)
    requires
        0 <= i < build_map(pairs).len(),
    ensures
        exists|k: int| 0 <= k < pairs.len() && pairs[k].0 == build_map(pairs)[i].0,
    decreases pairs.len(),
{
    let ps = pairs.drop_last();
    let m0 = build_map(ps);
    let m = build_map(pairs);
    let (k, v) = pairs.last();
    lemma_build_increasing(ps);
    lemma_map_insert(m0, k, v);
    if m[i].0 == k {
        assert(pairs[pairs.len() - 1].0 == k);
    } else {
        let a = choose|a: int| 0 <= a < map_keys(m0).len() && map_keys(m0)[a] == m[i].0;
        lemma_build_keys_from_pairs(ps, a);
        let j = choose|j: int| 0 <= j < ps.len() && ps[j].0 == m0[a].0;
        assert(pairs[j] == ps[j]);
    }
}

/// The module under a key is that of the last pair of the key's path.
pub open spec fn last_write(pairs: Seq<(Seq<char>, ModuleInfoView)>, e: (Seq<char>, ModuleInfoView)) -> bool {
    exists|k: int|
        #![trigger pairs[k]]
        0 <= k < pairs.len() && same_path(pairs[k].0, e.0) && pairs[k].1 == e.1 && forall|l: int|
            k < l < pairs.len() ==> !same_path(#[trigger] pairs[l].0, e.0)
}

proof fn lemma_build_last_write(pairs: Seq<(Seq<char>, ModuleInfoView)>, i: int)
    requires
        0 <= i < build_map(pairs).len(),
    ensures
        last_write(pairs, build_map(pairs)[i]),
    decreases pairs.len(),
{
    let ps = pairs.drop_last();
    let m0 = build_map(ps);
    let m = build_map(pairs);
    let (k, v) = pairs.last();
    let last = pairs.len() - 1;
    lemma_build_increasing(ps);
    lemma_map_insert(m0, k, v);
    if same_path(m[i].0, k) {
        assert(pairs[last] == (k, v));
        assert(same_path(pairs[last].0, m[i].0));
    } else {
        let a = choose|a: int| 0 <= a < m0.len() && m0[a] == m[i];
        lemma_build_last_write(ps, a);
        let j = choose|j: int|
            #![trigger ps[j]]
            0 <= j < ps.len() && same_path(ps[j].0, m0[a].0) && ps[j].1 == m0[a].1 && forall|l: int|
                j < l < ps.len() ==> !same_path(#[trigger] ps[l].0, m0[a].0);
        assert(pairs[j] == ps[j]);
        assert forall|l: int| j < l < pairs.len() implies !same_path(#[trigger] pairs[l].0, m[i].0) by {
            if l < ps.len() {
                assert(pairs[l] == ps[l]);
            } else {
                assert(pairs[l].0 == k);
            }
        }
    }
}

/// Law: the module map keeps what a `BTreeMap` built by `insert` keeps. Its keys are in
/// strictly increasing `Path` order (so no two are the same path); every pair's path is a
/// key's path, and every key is a pair's path; and the module under a key is that of the
/// last pair of the key's path.
pub proof fn law_build_map(pairs: Seq<(Seq<char>, ModuleInfoView)>)
    ensures
        keys_increasing(build_map(pairs)),
        forall|k: int| 0 <= k < pairs.len() ==> covers(map_keys(build_map(pairs)), #[trigger] pairs[k].0),
        forall|i: int|
            0 <= i < build_map(pairs).len() ==> exists|k: int|
                0 <= k < pairs.len() && pairs[k].0 == (#[trigger] build_map(pairs)[i]).0,
        forall|i: int| 0 <= i < build_map(pairs).len() ==> last_write(pairs, #[trigger] build_map(pairs)[i]),
{
    lemma_build_increasing(pairs);
    assert forall|k: int| 0 <= k < pairs.len() implies covers(map_keys(build_map(pairs)), #[trigger] pairs[k].0) by {
        lemma_build_covers(pairs, k);
    }
    assert forall|i: int| 0 <= i < build_map(pairs).len() implies exists|k: int|
        0 <= k < pairs.len() && pairs[k].0 == (#[trigger] build_map(pairs)[i]).0 by {
        lemma_build_keys_from_pairs(pairs, i);
    }
    assert forall|i: int| 0 <= i < build_map(pairs).len() implies last_write(pairs, #[trigger] build_map(pairs)[i]) by {
        lemma_build_last_write(pairs, i);
    }
}

/// What was a key's path stays one after an insert.
proof fn lemma_insert_keeps_cover(m: ModuleMapView, k: Seq<char>, v: ModuleInfoView, x: Seq<char>)
    requires
        map_keys(m).contains(x),
    ensures
        covers(map_keys(map_insert(m, k, v)), x),
{
    let p = lemma_map_pos(m, k);
    let r = map_insert(m, k, v);
    let a = choose|a: int| 0 <= a < map_keys(m).len() && map_keys(m)[a] == x;
    assert(m[a].0 == x);
    if p < m.len() && same_path(m[p].0, k) {
        assert(map_keys(r)[a] == x);
    } else if a < p {
        assert(map_keys(r)[a] == x);
    } else {
        assert(map_keys(r)[a + 1] == x);
    }
}


// Roots.
proof fn lemma_dedup_elements(s: Seq<Seq<char>>)
    ensures
        forall|i: int| 0 <= i < dedup_paths(s).len() ==> s.contains(#[trigger] dedup_paths(s)[i]),
        forall|i: int| 0 <= i < s.len() ==> covers(dedup_paths(s), #[trigger] s[i]),
        s.len() > 0 ==> dedup_paths(s).len() > 0,
    decreases s.len(),
{
    if s.len() > 0 {
        let s0 = s.drop_last();
        let d0 = dedup_paths(s0);
        let d = dedup_paths(s);
        lemma_dedup_elements(s0);
        assert forall|i: int| 0 <= i < d.len() implies s.contains(#[trigger] d[i]) by {
            if i < d0.len() {
                assert(d[i] == d0[i]);
                let k = choose|k: int| 0 <= k < s0.len() && s0[k] == d0[i];
                assert(s[k] == d[i]);
            } else {
                assert(d[i] == s.last());
                assert(s[s.len() - 1] == d[i]);
            }
        }
        assert forall|i: int| 0 <= i < s.len() implies covers(d, #[trigger] s[i]) by {
            if i < s0.len() {
                assert(s0[i] == s[i]);
                let k = choose|k: int| 0 <= k < d0.len() && same_path(#[trigger] d0[k], s0[i]);
                assert(d[k] == d0[k]);
            } else if d0.len() > 0 && same_path(d0.last(), s.last()) {
                assert(d[d0.len() - 1] == d0.last());
            } else {
                assert(d[d0.len() as int] == s.last());
            }
        }
    }
}

proof fn lemma_dedup_increasing(s: Seq<Seq<char>>)
    requires
        forall|i: int, j: int| 0 <= i < j < s.len() ==> !path_lt(#[trigger] s[j], #[trigger] s[i]),
    ensures
        forall|i: int, j: int|
            0 <= i < j < dedup_paths(s).len() ==> path_lt(
                #[trigger] dedup_paths(s)[i],
                #[trigger] dedup_paths(s)[j],
            ),
    decreases s.len(),
{
    crate::path::lemma_path_lt_order();
    let lt = |a: Seq<char>, b: Seq<char>| path_lt(a, b);
    if s.len() > 0 {
        let s0 = s.drop_last();
        let d0 = dedup_paths(s0);
        let d = dedup_paths(s);
        assert forall|i: int, j: int| 0 <= i < j < s0.len() implies !path_lt(#[trigger] s0[j], #[trigger] s0[i]) by {
            assert(s0[i] == s[i] && s0[j] == s[j]);
        }
        lemma_dedup_increasing(s0);
        lemma_dedup_elements(s0);
        if !(d0.len() > 0 && same_path(d0.last(), s.last())) {
            if d0.len() > 0 {
                let k = choose|k: int| 0 <= k < s0.len() && s0[k] == d0.last();
                assert(s[k] == d0.last());
                assert(!path_lt(s[s.len() - 1], s[k]));
                assert(!lt(s.last(), d0.last()));
                assert(lt(d0.last(), s.last()));
            }
            assert forall|i: int, j: int| 0 <= i < j < d.len() implies path_lt(#[trigger] d[i], #[trigger] d[j]) by {
                if j < d0.len() {
                    assert(d[i] == d0[i] && d[j] == d0[j]);
                } else {
                    assert(d[i] == d0[i] && d[j] == s.last());
                    if i < d0.len() - 1 {
                        assert(lt(d0[i], d0[d0.len() - 1]));
                    }
                }
            }
        }
    }
}

/// Law: when no entry point exists, the roots come in strictly increasing `Path` order, so
/// no two are the same path.
pub proof fn law_fallback_roots(
    root: Seq<char>,
    entries: Seq<Seq<char>>,
    package: Option<JsonValue>,
    existing: Seq<Seq<char>>,
    keys: Seq<Seq<char>>,
)
    requires
        existing_of(entry_candidates(root, entries), existing).len() == 0,
    ensures
        ({
            let r = chosen_roots(root, entries, package, existing, keys);
            forall|i: int, j: int| 0 <= i < j < r.len() ==> path_lt(#[trigger] r[i], #[trigger] r[j])
        }),
{
    let pk = match package {
        Some(v) => existing_of(package_entry_candidates(root, v), existing),
        None => Seq::empty(),
    };
    let picked = if pk.len() > 0 {
        pk
    } else {
        match first_existing_of(index_candidates(root), existing) {
            Some(p) => seq![p],
            None => if keys.len() > 0 {
                seq![keys[0]]
            } else {
                Seq::empty()
            },
        }
    };
    crate::path::law_sort_paths(picked);
    lemma_dedup_increasing(sort_paths(picked));
}


// Unused exports.
/// An export of `p` that no import takes, by name or as the whole module.
pub open spec fn export_unused(links: Seq<LinkView>, p: Seq<char>, x: Seq<char>) -> bool {
    !is_used(links, p, "*"@) && !is_used(links, p, x)
}

proof fn lemma_export_findings_member(links: Seq<LinkView>, p: Seq<char>, xs: Seq<Seq<char>>, g: FindingView)
    ensures
        export_findings(links, p, xs).contains(g) <==> exists|k: int|
            0 <= k < xs.len() && export_unused(links, p, #[trigger] xs[k]) && g == unused_export_finding(p, xs[k]),
    decreases xs.len(),
{
    if xs.len() > 0 {
        let xs0 = xs.drop_last();
        let prev = export_findings(links, p, xs0);
        lemma_export_findings_member(links, p, xs0, g);
        let x = xs.last();
        let cur = export_findings(links, p, xs);
        if export_unused(links, p, x) {
            lemma_insert_contains(prev, prev.len() as int, unused_export_finding(p, x), g);
            assert(prev.insert(prev.len() as int, unused_export_finding(p, x)) == cur);
        }
        if exists|k: int| 0 <= k < xs.len() && export_unused(links, p, #[trigger] xs[k]) && g == unused_export_finding(p, xs[k]) {
            let k = choose|k: int| 0 <= k < xs.len() && export_unused(links, p, #[trigger] xs[k]) && g == unused_export_finding(p, xs[k]);
            if k < xs0.len() {
                assert(xs0[k] == xs[k]);
            }
        }
        if exists|k: int| 0 <= k < xs0.len() && export_unused(links, p, #[trigger] xs0[k]) && g == unused_export_finding(p, xs0[k]) {
            let k = choose|k: int| 0 <= k < xs0.len() && export_unused(links, p, #[trigger] xs0[k]) && g == unused_export_finding(p, xs0[k]);
            assert(xs[k] == xs0[k]);
        }
    }
}

proof fn lemma_unused_findings_member(m: ModuleMapView, links: Seq<LinkView>, v: Seq<Seq<char>>, g: FindingView)
    ensures
        unused_findings(m, links, v).contains(g) <==> exists|k: int, x: Seq<char>|
            0 <= k < v.len() && #[trigger] key_index(map_keys(m), v[k]) is Some
                && m[key_index(map_keys(m), v[k])->Some_0].1.0.contains(x) && export_unused(links, v[k], x)
                && g == #[trigger] unused_export_finding(v[k], x),
    decreases v.len(),
{
    if v.len() > 0 {
        let v0 = v.drop_last();
        let prev = unused_findings(m, links, v0);
        let p = v.last();
        lemma_unused_findings_member(m, links, v0, g);
        let cur = unused_findings(m, links, v);
        let here = match key_index(map_keys(m), p) {
            Some(i) => export_findings(links, p, m[i].1.0),
            None => Seq::empty(),
        };
        assert(cur == prev + here);
        if let Some(i) = key_index(map_keys(m), p) {
            lemma_export_findings_member(links, p, m[i].1.0, g);
        }
        // membership in a concatenation
        if cur.contains(g) {
            let a = choose|a: int| 0 <= a < cur.len() && cur[a] == g;
            if a < prev.len() {
                assert(prev[a] == g);
                let (k, x) = choose|k: int, x: Seq<char>|
                    0 <= k < v0.len() && #[trigger] key_index(map_keys(m), v0[k]) is Some
                        && m[key_index(map_keys(m), v0[k])->Some_0].1.0.contains(x) && export_unused(links, v0[k], x)
                        && g == #[trigger] unused_export_finding(v0[k], x);
                assert(v[k] == v0[k]);
                assert(key_index(map_keys(m), v[k]) is Some);
            } else {
                assert(here[a - prev.len()] == g);
                let i = key_index(map_keys(m), p)->Some_0;
                let xs = m[i].1.0;
                let j = choose|j: int| 0 <= j < xs.len() && export_unused(links, p, #[trigger] xs[j]) && g == unused_export_finding(p, xs[j]);
                assert(xs.contains(xs[j]));
                assert(v[v.len() - 1] == p);
                assert(key_index(map_keys(m), v[v.len() - 1]) is Some);
            }
        }
        if exists|k: int, x: Seq<char>|
            0 <= k < v.len() && #[trigger] key_index(map_keys(m), v[k]) is Some
                && m[key_index(map_keys(m), v[k])->Some_0].1.0.contains(x) && export_unused(links, v[k], x)
                && g == #[trigger] unused_export_finding(v[k], x) {
            let (k, x) = choose|k: int, x: Seq<char>|
                0 <= k < v.len() && #[trigger] key_index(map_keys(m), v[k]) is Some
                    && m[key_index(map_keys(m), v[k])->Some_0].1.0.contains(x) && export_unused(links, v[k], x)
                    && g == #[trigger] unused_export_finding(v[k], x);
            if k < v0.len() {
                assert(v0[k] == v[k]);
                assert(key_index(map_keys(m), v0[k]) is Some);
                assert(prev.contains(g));
                let a = choose|a: int| 0 <= a < prev.len() && prev[a] == g;
                assert(cur[a] == g);
            } else {
                let i = key_index(map_keys(m), p)->Some_0;
                let xs = m[i].1.0;
                let j = choose|j: int| 0 <= j < xs.len() && xs[j] == x;
                assert(here.contains(g));
                let a = choose|a: int| 0 <= a < here.len() && here[a] == g;
                assert(cur[prev.len() + a] == g);
            }
        }
    }
}

/// Law: after a successful analysis, an unused-export finding names a file that the roots
/// reach, one of that file's exports, and no import takes that export or the whole module;
/// and for every reached file with an entry in the map, each export that no import takes
/// (nor the whole module) has a finding, about the same path.
pub proof fn law_unused_exports(
    ctx: ResolveCtx,
    m: ModuleMapView,
    roots: Seq<Seq<char>>,
    p: Seq<char>,
    x: Seq<char>,
)
    requires
        analysis(ctx, m, roots) is Ok,
    ensures
        (exists|k: int|
            0 <= k < analysis(ctx, m, roots)->Ok_0.len() && (#[trigger] analysis(ctx, m, roots)->Ok_0[k]).kind
                == FindingKind::UnusedExport && analysis(ctx, m, roots)->Ok_0[k].file == p
                && analysis(ctx, m, roots)->Ok_0[k].symbol == Some(x)) ==> {
            &&& reachable(map_keys(m), graph_edges(ctx, m), roots, p)
            &&& key_index(map_keys(m), p) is Some
            &&& m[key_index(map_keys(m), p)->Some_0].1.0.contains(x)
            &&& export_unused(all_links(ctx, m), p, x)
        },
        reachable(map_keys(m), graph_edges(ctx, m), roots, p) && key_index(map_keys(m), p) is Some
            && m[key_index(map_keys(m), p)->Some_0].1.0.contains(x) && export_unused(all_links(ctx, m), p, x)
            ==> exists|k: int|
            0 <= k < analysis(ctx, m, roots)->Ok_0.len() && (#[trigger] analysis(ctx, m, roots)->Ok_0[k]).kind
                == FindingKind::UnusedExport && same_path(analysis(ctx, m, roots)->Ok_0[k].file, p)
                && analysis(ctx, m, roots)->Ok_0[k].symbol == Some(x),
{
    let keys = map_keys(m);
    let edges = graph_edges(ctx, m);
    let v = visit_order(keys, edges, roots);
    let links = all_links(ctx, m);
    let uc = all_uncertain(m);
    let uf = unreachable_findings(ctx.files, m, v);
    let ue = unused_findings(m, links, v);
    let all = uc + uf + ue;
    let fs = analysis(ctx, m, roots)->Ok_0;
    if exists|k: int|
        0 <= k < fs.len() && (#[trigger] fs[k]).kind == FindingKind::UnusedExport && fs[k].file == p
            && fs[k].symbol == Some(x) {
        let k = choose|k: int|
            0 <= k < fs.len() && (#[trigger] fs[k]).kind == FindingKind::UnusedExport && fs[k].file == p
                && fs[k].symbol == Some(x);
        let g = fs[k];
        lemma_sort_findings_contains(all, g);
        let a = choose|a: int| 0 <= a < all.len() && all[a] == g;
        if a < uc.len() {
            assert(all[a] == uc[a]);
            lemma_fixable_in_uncertain(m, g);
        } else if a < uc.len() + uf.len() {
            assert(all[a] == uf[a - uc.len()]);
            lemma_uf_kind(ctx.files, m, v, a - uc.len());
        } else {
            assert(all[a] == ue[a - uc.len() - uf.len()]);
            lemma_unused_findings_member(m, links, v, g);
            let (j, y) = choose|j: int, y: Seq<char>|
                0 <= j < v.len() && #[trigger] key_index(map_keys(m), v[j]) is Some
                    && m[key_index(map_keys(m), v[j])->Some_0].1.0.contains(y) && export_unused(links, v[j], y)
                    && g == #[trigger] unused_export_finding(v[j], y);
            assert(v[j] == p && y == x);
            assert(covers(v, p)) by {
                assert(same_path(v[j], p));
            }
            crate::graph::law_visits_exactly_reachable(keys, edges, roots, p);
        }
    }
    if reachable(keys, edges, roots, p) && key_index(keys, p) is Some
        && m[key_index(keys, p)->Some_0].1.0.contains(x) && export_unused(links, p, x) {
        crate::graph::law_visits_exactly_reachable(keys, edges, roots, p);
        let j = choose|j: int| 0 <= j < v.len() && same_path(#[trigger] v[j], p);
        crate::graph::lemma_key_index_same(keys, v[j], p);
        assert(export_unused(links, v[j], x));
        let g = unused_export_finding(v[j], x);
        lemma_unused_findings_member(m, links, v, g);
        assert(ue.contains(g));
        let b = choose|b: int| 0 <= b < ue.len() && ue[b] == g;
        assert(all[uc.len() + uf.len() + b] == g);
        lemma_sort_findings_contains(all, g);
        let k = choose|k: int| 0 <= k < fs.len() && fs[k] == g;
        assert(fs[k].kind == FindingKind::UnusedExport && same_path(fs[k].file, p) && fs[k].symbol == Some(x));
    }
}

proof fn lemma_uf_kind(files: Seq<Seq<char>>, m: ModuleMapView, v: Seq<Seq<char>>, k: int)
    requires
        0 <= k < unreachable_findings(files, m, v).len(),
    ensures
        unreachable_findings(files, m, v)[k].kind == FindingKind::UnreachableFile,
    decreases files.len(),
{
    let prev = unreachable_findings(files.drop_last(), m, v);
    if k < prev.len() {
        lemma_uf_kind(files.drop_last(), m, v, k);
    }
}

// ---------------------------------------------------------------------------------------
// A scan, whole.
/// The paths whose existence a scan asks about: the entry points, then those that
/// `package.json` names, then the conventional entry files.
pub open spec fn asked_paths(root: Seq<char>, entries: Seq<Seq<char>>, package: Option<JsonValue>) -> Seq<
    Seq<char>,
> {
    entry_candidates(root, entries) + match package {
        Some(v) => package_entry_candidates(root, v),
        None => Seq::empty(),
    } + index_candidates(root)
}

/// What a scan of a tree finds, step by step as the library's functions take it: the
/// source files selected from the walk, each one's module information from its contents,
/// the module map, the roots among the asked paths that exist, and the analysis. `None`
/// when the globs fail or some file's information cannot be had.
pub open spec fn scan_outcome(
    include_globs: Seq<Seq<char>>,
    exclude: Seq<Seq<char>>,
    exts: Seq<Seq<char>>,
    entries: Seq<Seq<char>>,
    root: Seq<char>,
    ws: Seq<(Seq<char>, Seq<char>)>,
    contents: spec_fn(Seq<char>) -> Seq<char>,
    ts: TsPathsView,
    package: Option<JsonValue>,
    exists_at: spec_fn(Seq<char>) -> bool,
) -> Option<Result<Seq<FindingView>, AnalysisFailure>> {
    match select_outcome(include_globs, exclude, exts, ws) {
        SelectOutcome::Files(files) => {
            if exists|i: int|
                0 <= i < files.len() && parsed_module_info(
                    #[trigger] files[i],
                    contents(files[i]),
                ) is Err {
                None
            } else {
                let map = build_map(
                    files.map_values(
                        |f: Seq<char>| (f, parsed_module_info(f, contents(f))->Ok_0),
                    ),
                );
                let existing = asked_paths(root, entries, package).filter(|p: Seq<char>| exists_at(p));
                let roots = chosen_roots(root, entries, package, existing, map_keys(map));
                Some(analysis(ResolveCtx { root, files, ts, exts }, map, roots))
            }
        },
        _ => None,
    }
}

/// Law: two scans of the same tree find the same. When the two walks list the same files,
/// in whatever order (and never one path under two spellings), and the files' contents,
/// the aliases, `package.json` and which paths exist are the same, the outcome is the
/// same: the same findings, in the same order, or the same failure.
pub proof fn law_scan_repeatable(
    include_globs: Seq<Seq<char>>,
    exclude: Seq<Seq<char>>,
    exts: Seq<Seq<char>>,
    entries: Seq<Seq<char>>,
    root: Seq<char>,
    ws1: Seq<(Seq<char>, Seq<char>)>,
    ws2: Seq<(Seq<char>, Seq<char>)>,
    contents: spec_fn(Seq<char>) -> Seq<char>,
    ts: TsPathsView,
    package: Option<JsonValue>,
    exists_at: spec_fn(Seq<char>) -> bool,
)
    requires
        ws1.to_multiset() == ws2.to_multiset(),
        one_spelling(ws1),
    ensures
        scan_outcome(include_globs, exclude, exts, entries, root, ws1, contents, ts, package, exists_at)
            == scan_outcome(
            include_globs,
            exclude,
            exts,
            entries,
            root,
            ws2,
            contents,
            ts,
            package,
            exists_at,
        ),
{
    law_selection_ignores_walk_order(include_globs, exclude, exts, ws1, ws2);
}

/// Law: after a successful analysis, an export `x` of a file `p` is not reported unused
/// when any resolved import of any module targets the same path as `p` and takes `x`, or
/// takes the whole module: the imports of all the files that import `p` count together.
pub proof fn law_imported_export_not_reported(
    ctx: ResolveCtx,
    m: ModuleMapView,
    roots: Seq<Seq<char>>,
    p: Seq<char>,
    x: Seq<char>,
    i: int,
)
    requires
        analysis(ctx, m, roots) is Ok,
        0 <= i < all_links(ctx, m).len(),
        same_path(all_links(ctx, m)[i].0, p),
        all_links(ctx, m)[i].1.contains(x) || all_links(ctx, m)[i].2,
    ensures
        forall|k: int|
            0 <= k < analysis(ctx, m, roots)->Ok_0.len() ==> !((#[trigger] analysis(
                ctx,
                m,
                roots,
            )->Ok_0[k]).kind == FindingKind::UnusedExport && analysis(ctx, m, roots)->Ok_0[k].file
                == p && analysis(ctx, m, roots)->Ok_0[k].symbol == Some(x)),
{
    let links = all_links(ctx, m);
    law_unused_exports(ctx, m, roots, p, x);
    if links[i].2 {
        assert(is_used(links, p, "*"@));
    } else {
        assert(is_used(links, p, x));
    }
}

proof fn lemma_existing_of_contains(ps: Seq<Seq<char>>, existing: Seq<Seq<char>>, x: Seq<char>)
    requires
        ps.contains(x),
        existing.contains(x),
    ensures
        existing_of(ps, existing).contains(x),
    decreases ps.len(),
{
    if ps.last() == x {
        assert(existing_of(ps, existing).last() == x);
    } else {
        let k = choose|k: int| 0 <= k < ps.len() && ps[k] == x;
        assert(ps.drop_last()[k] == x);
        lemma_existing_of_contains(ps.drop_last(), existing, x);
        let prev = existing_of(ps.drop_last(), existing);
        let j = choose|j: int| 0 <= j < prev.len() && prev[j] == x;
        if existing.contains(ps.last()) {
            assert(prev.push(ps.last())[j] == x);
        }
    }
}

proof fn lemma_dedup_keeps_path(s: Seq<Seq<char>>, x: Seq<char>)
    requires
        s.contains(x),
    ensures
        exists|j: int| 0 <= j < dedup_paths(s).len() && same_path(#[trigger] dedup_paths(s)[j], x),
    decreases s.len(),
{
    let d = dedup_paths(s.drop_last());
    if s.last() == x {
        if d.len() > 0 && same_path(d.last(), s.last()) {
            assert(same_path(dedup_paths(s)[d.len() - 1], x));
        } else {
            assert(same_path(dedup_paths(s)[d.len() as int], x));
        }
    } else {
        let k = choose|k: int| 0 <= k < s.len() && s[k] == x;
        assert(s.drop_last()[k] == x);
        lemma_dedup_keeps_path(s.drop_last(), x);
        let j = choose|j: int| 0 <= j < d.len() && same_path(#[trigger] d[j], x);
        if !(d.len() > 0 && same_path(d.last(), s.last())) {
            assert(dedup_paths(s)[j] == d[j]);
        }
    }
}

/// Law: when no `--entry` point exists, each of `main`, `module` and `bin` that
/// `package.json` gives as a string (or `exports`, as a string) names a root, joined to
/// the project root, as soon as that path exists.
pub proof fn law_package_field_is_root(
    root: Seq<char>,
    entries: Seq<Seq<char>>,
    v: JsonValue,
    existing: Seq<Seq<char>>,
    keys: Seq<Seq<char>>,
    key: Seq<char>,
    s: Seq<char>,
)
    requires
        existing_of(entry_candidates(root, entries), existing).len() == 0,
        key == "main"@ || key == "module"@ || key == "bin"@ || key == "exports"@,
        v matches JsonValue::Object(members) && crate::json::first_member(members@, key) matches Some(
            JsonValue::Str(t),
        ) && t@ == s,
        existing.contains(join(root, s)),
    ensures
        exists|j: int|
            0 <= j < chosen_roots(root, entries, Some(v), existing, keys).len() && same_path(
                #[trigger] chosen_roots(root, entries, Some(v), existing, keys)[j],
                join(root, s),
            ),
{
    let x = join(root, s);
    crate::json::law_package_fields_are_candidates(root, v, key, s);
    let pk = existing_of(package_entry_candidates(root, v), existing);
    lemma_existing_of_contains(package_entry_candidates(root, v), existing, x);
    assert(pk.len() > 0);
    crate::path::law_sort_paths(pk);
    let sorted = sort_paths(pk);
    assert(pk.to_multiset().count(x) > 0) by {
        broadcast use vstd::seq_lib::group_to_multiset_ensures;
    }
    assert(sorted.contains(x)) by {
        broadcast use vstd::seq_lib::group_to_multiset_ensures;
        assert(sorted.to_multiset().count(x) > 0);
    }
    lemma_dedup_keeps_path(sorted, x);
    let r = chosen_roots(root, entries, Some(v), existing, keys);
    assert(r == dedup_paths(sorted));
    let j = choose|j: int| 0 <= j < dedup_paths(sorted).len() && same_path(#[trigger] dedup_paths(sorted)[j], x);
    assert(same_path(r[j], x));
}

} // verus!
