//! What a JS/TS module imports and exports: the module record that the `oxc` parser builds,
//! the CommonJS patterns found by regular expressions, and how both become a
//! [`ModuleInfo`].
use vstd::prelude::*;

use oxc_syntax::module_record::{
    ExportEntry, ExportExportName, ExportImportName, ImportEntry, ImportImportName,
};

use crate::text::{
    chars_eq, chars_lt, chars_lt_exec, chars_of, concat_chars, owned, slice_chars,
    split_exec, split_on, starts_with, starts_with_exec, string_from_chars, string_views, trim,
    trim_exec,
};

verus! {

broadcast use vstd::string::group_string_axioms;

// ---------------------------------------------------------------------------------------
// The module record, as plain values.
/// `ImportImportName`: what an `import` entry takes from the module.
pub enum ImportedName {
    Named(String),
    Default,
    Namespace,
}

/// `ExportImportName`: what a re-export takes from the module it names.
pub enum ReexportedName {
    Named(String),
    All,
    AllButDefault,
    Null,
}

/// `ExportExportName`: the name under which an entry is exported.
pub enum ExportedName {
    Named(String),
    Default,
    Null,
}

/// One `ImportEntry` of the module record.
pub struct ImportEntryFact {
    pub request: String,
    pub import_name: ImportedName,
}

/// One `ExportEntry` of the module record.
pub struct ExportEntryFact {
    pub request: Option<String>,
    pub import_name: ReexportedName,
    pub export_name: ExportedName,
}

/// The byte span of the specifier expression of an `import(...)` expression.
pub struct DynamicImportFact {
    pub start: u32,
    pub end: u32,
}

/// The parts of oxc's `ModuleRecord` that the analysis reads, each list in the record's
/// order, but for the requested modules (a hash map in the record, whose order is not the
/// source's).
pub struct ModuleRecordFacts {
    pub import_entries: Vec<ImportEntryFact>,
    pub local_export_entries: Vec<ExportEntryFact>,
    pub indirect_export_entries: Vec<ExportEntryFact>,
    pub star_export_entries: Vec<ExportEntryFact>,
    pub dynamic_imports: Vec<DynamicImportFact>,
}

#[verifier::external_type_specification]
#[verifier::external_body]
pub struct ExImportEntry<'a>(ImportEntry<'a>);

#[verifier::external_type_specification]
#[verifier::external_body]
pub struct ExExportEntry<'a>(ExportEntry<'a>);

/// The module record that `oxc_parser::Parser::parse` builds for a source text, with the
/// source type that `oxc_span::SourceType::from_path` derives from the file's path (the
/// default source type when the extension is unknown): the lists of entries, and the set
/// of the specifiers that are keys of its `requested_modules` map.
pub uninterp spec fn js_module_record(path: Seq<char>, source: Seq<char>) -> (
    ModuleRecordFacts,
    Set<Seq<char>>,
);

/// Parses `source` with `oxc_parser::Parser` (source type from `SourceType::from_path`, or
/// the default) and returns the parts of the resulting `ModuleRecord` that the analysis
/// reads, and the keys of its `requested_modules` map. The contract claims that the entry
/// lists are a function of the path and the source text, and that the keys, as a set, are
/// too; it says nothing of the order of the keys, which is the order in which the map's
/// hasher and the machine place them.
#[verifier::external_body]
pub(crate) fn parse_module_record(path: &str, source: &str) -> (r: (ModuleRecordFacts, Vec<String>))
    ensures
        r.0 == js_module_record(path@, source@).0,
        string_views(r.1@).to_set() == js_module_record(path@, source@).1,
{
    let alloc = oxc_allocator::Allocator::new();
    let st = oxc_span::SourceType::from_path(path).unwrap_or_default();
    let mr = oxc_parser::Parser::new(&alloc, source, st).parse().module_record;
    (ModuleRecordFacts {
        import_entries: mr.import_entries.iter().map(import_entry_fact).collect(),
        local_export_entries: mr.local_export_entries.iter().map(export_entry_fact).collect(),
        indirect_export_entries: mr.indirect_export_entries.iter().map(export_entry_fact).collect(),
        star_export_entries: mr.star_export_entries.iter().map(export_entry_fact).collect(),
        dynamic_imports: mr.dynamic_imports.iter().map(|d| DynamicImportFact { start: d.module_request.start, end: d.module_request.end }).collect(),
    }, mr.requested_modules.keys().map(|k| k.to_string()).collect())
}

/// Converts one oxc `ImportEntry` field for field into an [`ImportEntryFact`]; used by
/// [`parse_module_record`] only.
#[verifier::external_body]
fn import_entry_fact(e: &ImportEntry) -> ImportEntryFact {
    let import_name = match &e.import_name {
        ImportImportName::Name(n) => ImportedName::Named(n.name.to_string()),
        ImportImportName::Default(_) => ImportedName::Default,
        ImportImportName::NamespaceObject => ImportedName::Namespace,
    };
    ImportEntryFact { request: e.module_request.name.to_string(), import_name }
}

/// Converts one oxc `ExportEntry` field for field into an [`ExportEntryFact`]; used by
/// [`parse_module_record`] only.
#[verifier::external_body]
fn export_entry_fact(e: &ExportEntry) -> ExportEntryFact {
    let import_name = match &e.import_name {
        ExportImportName::Name(n) => ReexportedName::Named(n.name.to_string()),
        ExportImportName::All => ReexportedName::All,
        ExportImportName::AllButDefault => ReexportedName::AllButDefault,
        ExportImportName::Null => ReexportedName::Null,
    };
    let export_name = match &e.export_name {
        ExportExportName::Name(n) => ExportedName::Named(n.name.to_string()),
        ExportExportName::Default(_) => ExportedName::Default,
        ExportExportName::Null => ExportedName::Null,
    };
    let request = e.module_request.as_ref().map(|n| n.name.to_string());
    ExportEntryFact { request, import_name, export_name }
}

// ---------------------------------------------------------------------------------------
// Regular expressions.
/// The text of capture group 1 of each successive non-overlapping match of `pattern` in
/// `text` (`regex::Regex::captures_iter`), `None` for a match where the group took no part;
/// `None` as a whole when the pattern does not compile.
pub uninterp spec fn regex_group_one(pattern: Seq<char>, text: Seq<char>) -> Option<
    Seq<Option<Seq<char>>>,
>;

pub open spec fn opt_view(o: Option<String>) -> Option<Seq<char>> {
    match o {
        Some(s) => Some(s@),
        None => None,
    }
}

/// Compiles `pattern` with `regex::Regex::new` and returns, for each match that
/// `Regex::captures_iter` yields on `text`, the text of capture group 1 (`Captures::get`).
/// The contract claims only that the result is a function of the pattern and the text.
#[verifier::external_body]
fn regex_captures(pattern: &str, text: &str) -> (r: Option<Vec<Option<String>>>)
    ensures
        r is None <==> regex_group_one(pattern@, text@) is None,
        r matches Some(v) ==> {
            &&& regex_group_one(pattern@, text@) matches Some(g)
            &&& v@.len() == g.len()
            &&& forall|i: int| 0 <= i < v@.len() ==> opt_view(#[trigger] v@[i]) == g[i]
        },
{
    let re = regex::Regex::new(pattern).ok()?;
    Some(re.captures_iter(text).map(|c| c.get(1).map(|m| m.as_str().to_string())).collect())
}

/// The pattern for `module.exports = { ... }`.
pub open spec fn exports_pattern() -> Seq<char> {
    "module\\.exports\\s*=\\s*\\{([^}]*)\\}"@
}

/// The pattern for `require('...')`.
pub open spec fn require_pattern() -> Seq<char> {
    "require\\(\\s*['\"]([^'\"]+)['\"]\\s*\\)"@
}

// ---------------------------------------------------------------------------------------
// Byte offsets in UTF-8 text.
/// Bytes that UTF-8 needs for `c`.
pub open spec fn utf8_width(c: char) -> int {
    let u = c as u32;
    if u < 0x80 {
        1
    } else if u < 0x800 {
        2
    } else if u < 0x10000 {
        3
    } else {
        4
    }
}

/// Length in bytes of the UTF-8 encoding of `s`.
pub open spec fn byte_len(s: Seq<char>) -> int
    decreases s.len(),
{
    if s.len() == 0 {
        0
    } else {
        byte_len(s.drop_last()) + utf8_width(s.last())
    }
}

/// The number of characters whose encoding takes exactly the first `b` bytes, if the byte
/// offset `b` falls on a character boundary.
pub open spec fn char_index_of_byte(s: Seq<char>, b: int) -> Option<int> {
    if exists|i: int| 0 <= i <= s.len() && byte_len(s.take(i)) == b {
        Some(choose|i: int| 0 <= i <= s.len() && byte_len(s.take(i)) == b)
    } else {
        None
    }
}

/// The text under the byte span `start..end`: empty when the span is empty or reaches past
/// the end, `None` when an end of the span falls inside a character (where slicing the
/// `str` panics).
pub open spec fn span_text(s: Seq<char>, start: int, end: int) -> Option<Seq<char>> {
    if start >= end || end > byte_len(s) {
        Some(Seq::empty())
    } else {
        match (char_index_of_byte(s, start), char_index_of_byte(s, end)) {
            (Some(i), Some(j)) => Some(s.subrange(i, j)),
            _ => None,
        }
    }
}

proof fn lemma_byte_len_take_mono(s: Seq<char>, i: int, j: int)
    requires
        0 <= i < j <= s.len(),
    ensures
        byte_len(s.take(i)) < byte_len(s.take(j)),
    decreases j - i,
{
    assert(s.take(j).drop_last() =~= s.take(j - 1));
    if i < j - 1 {
        lemma_byte_len_take_mono(s, i, j - 1);
    }
}

proof fn lemma_char_index_unique(s: Seq<char>, b: int, i: int)
    requires
        0 <= i <= s.len(),
        byte_len(s.take(i)) == b,
    ensures
        char_index_of_byte(s, b) == Some(i),
{
    let k = choose|k: int| 0 <= k <= s.len() && byte_len(s.take(k)) == b;
    if k < i {
        lemma_byte_len_take_mono(s, k, i);
    } else if i < k {
        lemma_byte_len_take_mono(s, i, k);
    }
}

proof fn lemma_char_index_none(s: Seq<char>, b: int)
    requires
        forall|i: int| 0 <= i <= s.len() ==> byte_len(#[trigger] s.take(i)) != b,
    ensures
        char_index_of_byte(s, b) is None,
{
}

fn utf8_width_exec(c: char) -> (w: u128)
    ensures
        w as int == utf8_width(c),
{
    let u = c as u32;
    if u < 0x80 {
        1
    } else if u < 0x800 {
        2
    } else if u < 0x10000 {
        3
    } else {
        4
    }
}

/// The text of `s` under the byte span `start..end`, as [`span_text`] says.
pub fn span_text_exec(s: &Vec<char>, start: u32, end: u32) -> (r: Option<Vec<char>>)
    ensures
        r matches Some(t) ==> span_text(s@, start as int, end as int) == Some(t@),
        r is None ==> span_text(s@, start as int, end as int) is None,
{
    // Walk the characters once, noting where `start` and `end` fall.
    let mut pos: u128 = 0;
    let mut k: usize = 0;
    let mut si: Option<usize> = None;
    let mut ei: Option<usize> = None;
    let n = s.len();
    proof {
        assert(s@.take(0) =~= Seq::<char>::empty());
    }
    while k < n
        invariant
            k <= n,
            n == s@.len(),
            pos as int == byte_len(s@.take(k as int)),
            pos <= 4 * k,
            k <= usize::MAX,
            si matches Some(i) ==> i <= k && byte_len(s@.take(i as int)) == start,
            si is None ==> forall|m: int| 0 <= m < k ==> byte_len(#[trigger] s@.take(m)) != start,
            ei matches Some(i) ==> i <= k && byte_len(s@.take(i as int)) == end,
            ei is None ==> forall|m: int| 0 <= m < k ==> byte_len(#[trigger] s@.take(m)) != end,
        decreases n - k,
    {
        if pos == start as u128 && si.is_none() {
            si = Some(k);
        }
        if pos == end as u128 && ei.is_none() {
            ei = Some(k);
        }
        let w = utf8_width_exec(s[k]);
        proof {
            assert(s@.take(k as int + 1).drop_last() =~= s@.take(k as int));
        }
        pos = pos + w;
        k = k + 1;
    }
    proof {
        assert(s@.take(n as int) =~= s@);
    }
    if pos == start as u128 && si.is_none() {
        si = Some(k);
    }
    if pos == end as u128 && ei.is_none() {
        ei = Some(k);
    }
    if start >= end || end as u128 > pos {
        return Some(Vec::new());
    }
    match (si, ei) {
        (Some(i), Some(j)) => {
            proof {
                lemma_char_index_unique(s@, start as int, i as int);
                lemma_char_index_unique(s@, end as int, j as int);
                if j < i {
                    lemma_byte_len_take_mono(s@, j as int, i as int);
                }
            }
            Some(slice_chars(s, i, j))
        },
        _ => {
            proof {
                if si is None {
                    lemma_char_index_none(s@, start as int);
                } else {
                    lemma_char_index_none(s@, end as int);
                }
            }
            None
        },
    }
}

// ---------------------------------------------------------------------------------------
// Small text rules.
/// A string literal's content: the trimmed text between matching `"` or `'` quotes.
/// (A test of two or more bytes with an ASCII quote at each end is the same as one of two
/// or more characters with a quote at each end.)
pub open spec fn string_literal_content(expr: Seq<char>) -> Option<Seq<char>> {
    let t = trim(expr);
    if t.len() < 2 {
        None
    } else if (t[0] == '"' && t.last() == '"') || (t[0] == '\'' && t.last() == '\'') {
        Some(t.subrange(1, t.len() - 1))
    } else {
        None
    }
}

/// The content of a quoted string literal, if `expr` (trimmed) is one.
pub fn parse_string_literal(expr: &Vec<char>) -> (r: Option<Vec<char>>)
    ensures
        r matches Some(v) ==> string_literal_content(expr@) == Some(v@),
        r is None ==> string_literal_content(expr@) is None,
{
    let t = trim_exec(expr);
    if t.len() < 2 {
        return None;
    }
    let first = t[0];
    let last = t[t.len() - 1];
    if (first == '"' && last == '"') || (first == '\'' && last == '\'') {
        Some(slice_chars(&t, 1, t.len() - 1))
    } else {
        None
    }
}

/// A line that cannot run code by itself: blank, a comment, an import or export, a type,
/// interface or enum, or a declaration.
pub open spec fn line_is_inert(line: Seq<char>) -> bool {
    let l = trim(line);
    ||| l.len() == 0
    ||| starts_with(l, "//"@)
    ||| starts_with(l, "/*"@)
    ||| starts_with(l, "*"@)
    ||| starts_with(l, "import "@)
    ||| starts_with(l, "export "@)
    ||| starts_with(l, "type "@)
    ||| starts_with(l, "interface "@)
    ||| starts_with(l, "enum "@)
    ||| starts_with(l, "const "@)
    ||| starts_with(l, "let "@)
    ||| starts_with(l, "var "@)
    ||| starts_with(l, "function "@)
    ||| starts_with(l, "class "@)
}

/// Some line of the source may run code when the module loads.
pub open spec fn side_effects_possible(source: Seq<char>) -> bool {
    exists|i: int|
        0 <= i < split_on(source, '\n').len() && !line_is_inert(
            #[trigger] split_on(source, '\n')[i],
        )
}

/// Whether some line of `content` may run code when the module loads (`str::lines`
/// trimmed: a trailing `\r` is white space, and a last empty piece is blank).
pub fn has_possible_side_effects(content: &Vec<char>) -> (r: bool)
    ensures
        r == side_effects_possible(content@),
{
    let lines = split_exec(content, '\n');
    let prefixes: Vec<Vec<char>> = vec![
        chars_of("//"),
        chars_of("/*"),
        chars_of("*"),
        chars_of("import "),
        chars_of("export "),
        chars_of("type "),
        chars_of("interface "),
        chars_of("enum "),
        chars_of("const "),
        chars_of("let "),
        chars_of("var "),
        chars_of("function "),
        chars_of("class "),
    ];
    let ghost pv: Seq<Seq<char>> = seq![
        "//"@,
        "/*"@,
        "*"@,
        "import "@,
        "export "@,
        "type "@,
        "interface "@,
        "enum "@,
        "const "@,
        "let "@,
        "var "@,
        "function "@,
        "class "@,
    ];
    proof {
        assert(prefixes@.len() == pv.len());
        assert forall|j: int| 0 <= j < pv.len() implies #[trigger] prefixes@[j]@ == pv[j] by {
        }
    }
    let mut k: usize = 0;
    while k < lines.len()
        invariant
            k <= lines@.len(),
            lines@.len() == split_on(content@, '\n').len(),
            forall|i: int|
                0 <= i < lines@.len() ==> #[trigger] lines@[i]@ == split_on(content@, '\n')[i],
            prefixes@.len() == pv.len(),
            pv.len() == 13,
            forall|j: int| 0 <= j < pv.len() ==> #[trigger] prefixes@[j]@ == pv[j],
            pv == seq![
                "//"@,
                "/*"@,
                "*"@,
                "import "@,
                "export "@,
                "type "@,
                "interface "@,
                "enum "@,
                "const "@,
                "let "@,
                "var "@,
                "function "@,
                "class "@,
            ],
            forall|i: int| 0 <= i < k ==> line_is_inert(#[trigger] split_on(content@, '\n')[i]),
        decreases lines@.len() - k,
    {
        let l = trim_exec(&lines[k]);
        let mut inert = l.len() == 0;
        let mut j: usize = 0;
        while j < prefixes.len() && !inert
            invariant
                j <= prefixes@.len(),
                prefixes@.len() == pv.len(),
                forall|m: int| 0 <= m < pv.len() ==> #[trigger] prefixes@[m]@ == pv[m],
                inert == (l@.len() == 0 || exists|m: int|
                    0 <= m < j && starts_with(l@, #[trigger] pv[m])),
            decreases prefixes@.len() - j,
        {
            if starts_with_exec(&l, &prefixes[j]) {
                inert = true;
            }
            j = j + 1;
        }
        proof {
            let line = split_on(content@, '\n')[k as int];
            assert(l@ == trim(line));
            if line_is_inert(line) {
                if l@.len() != 0 {
                    if starts_with(l@, pv[0]) { assert(inert); }
                    if starts_with(l@, pv[1]) { assert(inert); }
                    if starts_with(l@, pv[2]) { assert(inert); }
                    if starts_with(l@, pv[3]) { assert(inert); }
                    if starts_with(l@, pv[4]) { assert(inert); }
                    if starts_with(l@, pv[5]) { assert(inert); }
                    if starts_with(l@, pv[6]) { assert(inert); }
                    if starts_with(l@, pv[7]) { assert(inert); }
                    if starts_with(l@, pv[8]) { assert(inert); }
                    if starts_with(l@, pv[9]) { assert(inert); }
                    if starts_with(l@, pv[10]) { assert(inert); }
                    if starts_with(l@, pv[11]) { assert(inert); }
                    if starts_with(l@, pv[12]) { assert(inert); }
                }
            }
        }
        if !inert {
            return true;
        }
        k = k + 1;
    }
    false
}


// ---------------------------------------------------------------------------------------
// What a module imports and exports.
/// One module that a file imports from, with what it takes from it.
pub struct ImportRef {
    pub raw: String,
    pub symbols: Vec<String>,
    pub wildcard_use: bool,
    pub is_dynamic_non_literal: bool,
}

/// Imports as (specifier, symbols, namespace or side-effect use, non-literal `import()`).
pub type ImportRefView = (Seq<char>, Seq<Seq<char>>, bool, bool);

impl View for ImportRef {
    type V = ImportRefView;

    open spec fn view(&self) -> ImportRefView {
        (self.raw@, self.symbols@.map_values(|s: String| s@), self.wildcard_use, self.is_dynamic_non_literal)
    }
}

/// What one source file exports and imports.
pub struct ModuleInfo {
    /// Exported names, in string order, each once.
    pub exports: Vec<String>,
    /// Imported modules in the order of their keys (the specifier, or `dynamic:` and the
    /// expression for a non-literal `import()`).
    pub imports: Vec<ImportRef>,
    pub raw_source: String,
}

pub type ModuleInfoView = (Seq<Seq<char>>, Seq<ImportRefView>, Seq<char>);

impl View for ModuleInfo {
    type V = ModuleInfoView;

    open spec fn view(&self) -> ModuleInfoView {
        (
            self.exports@.map_values(|s: String| s@),
            self.imports@.map_values(|r: ImportRef| r@),
            self.raw_source@,
        )
    }
}

/// A step in building a module's import table, one per touch of the table: `Touch(key, symbol, namespace)` creates the entry for `key` if needed, then adds
/// the symbol and the namespace use; `Dynamic(expr)` (re)sets the entry of a non-literal
/// `import(expr)`.
pub enum ImportEvent {
    Touch(Seq<char>, Option<Seq<char>>, bool),
    Dynamic(Seq<char>),
}

/// The import table as a list of (key, entry), kept in key order.
pub type ImportTable = Seq<(Seq<char>, ImportRefView)>;

/// How many leading keys of `t` order before `key`: where `key` belongs in the table.
pub open spec fn table_pos(t: ImportTable, key: Seq<char>) -> int
    decreases t.len(),
{
    if t.len() == 0 {
        0
    } else if chars_lt(t[0].0, key) {
        1 + table_pos(t.drop_first(), key)
    } else {
        0
    }
}

/// The key of a non-literal `import(expr)`.
pub open spec fn dynamic_key(expr: Seq<char>) -> Seq<char> {
    "dynamic:"@ + expr
}

pub open spec fn touched(v: ImportRefView, sym: Option<Seq<char>>, wild: bool) -> ImportRefView {
    (v.0, match sym {
        Some(s) => v.1.push(s),
        None => v.1,
    }, v.2 || wild, v.3)
}

/// The table after one event (a `BTreeMap` entry by key).
pub open spec fn apply_event(t: ImportTable, ev: ImportEvent) -> ImportTable {
    match ev {
        ImportEvent::Touch(key, sym, wild) => {
            let i = table_pos(t, key);
            if i < t.len() && t[i].0 == key {
                t.update(i, (key, touched(t[i].1, sym, wild)))
            } else {
                t.insert(i, (key, touched((key, Seq::empty(), false, false), sym, wild)))
            }
        },
        ImportEvent::Dynamic(expr) => {
            let key = dynamic_key(expr);
            let i = table_pos(t, key);
            let v: ImportRefView = (expr, Seq::empty(), false, true);
            if i < t.len() && t[i].0 == key {
                t.update(i, (key, v))
            } else {
                t.insert(i, (key, v))
            }
        },
    }
}

pub open spec fn apply_events(t: ImportTable, evs: Seq<ImportEvent>) -> ImportTable
    decreases evs.len(),
{
    if evs.len() == 0 {
        t
    } else {
        apply_event(apply_events(t, evs.drop_last()), evs.last())
    }
}

/// Where `name` belongs in the sorted list `s`.
pub open spec fn name_pos(s: Seq<Seq<char>>, name: Seq<char>) -> int
    decreases s.len(),
{
    if s.len() == 0 {
        0
    } else if chars_lt(s[0], name) {
        1 + name_pos(s.drop_first(), name)
    } else {
        0
    }
}

/// `s` with `name` added in order unless already there (a `BTreeSet` insert).
pub open spec fn insert_name(s: Seq<Seq<char>>, name: Seq<char>) -> Seq<Seq<char>> {
    let i = name_pos(s, name);
    if i < s.len() && s[i] == name {
        s
    } else {
        s.insert(i, name)
    }
}

pub open spec fn insert_names(s: Seq<Seq<char>>, names: Seq<Seq<char>>) -> Seq<Seq<char>>
    decreases names.len(),
{
    if names.len() == 0 {
        s
    } else {
        insert_name(insert_names(s, names.drop_last()), names.last())
    }
}

// Events and names that each part of the record yields.
pub open spec fn import_entry_event(e: ImportEntryFact) -> ImportEvent {
    match e.import_name {
        ImportedName::Named(n) => ImportEvent::Touch(e.request@, Some(n@), false),
        ImportedName::Default => ImportEvent::Touch(e.request@, Some("default"@), false),
        ImportedName::Namespace => ImportEvent::Touch(e.request@, None, true),
    }
}

pub open spec fn indirect_event(e: ExportEntryFact) -> Seq<ImportEvent> {
    match e.request {
        Some(r) => match e.import_name {
            ReexportedName::Named(n) => seq![ImportEvent::Touch(r@, Some(n@), false)],
            ReexportedName::All => seq![ImportEvent::Touch(r@, None, true)],
            ReexportedName::AllButDefault => seq![ImportEvent::Touch(r@, None, true)],
            ReexportedName::Null => seq![ImportEvent::Touch(r@, None, false)],
        },
        None => Seq::empty(),
    }
}

pub open spec fn star_event(e: ExportEntryFact) -> Seq<ImportEvent> {
    match e.request {
        Some(r) => seq![ImportEvent::Touch(r@, None, true)],
        None => Seq::empty(),
    }
}

pub open spec fn import_entry_events(es: Seq<ImportEntryFact>) -> Seq<ImportEvent>
    decreases es.len(),
{
    if es.len() == 0 {
        Seq::empty()
    } else {
        import_entry_events(es.drop_last()).push(import_entry_event(es.last()))
    }
}

pub open spec fn requested_events(rs: Seq<Seq<char>>) -> Seq<ImportEvent>
    decreases rs.len(),
{
    if rs.len() == 0 {
        Seq::empty()
    } else {
        requested_events(rs.drop_last()).push(ImportEvent::Touch(rs.last(), None, false))
    }
}

/// The requested modules in string order, each once.
pub open spec fn requested_names(rs: Set<Seq<char>>) -> Seq<Seq<char>> {
    insert_names(Seq::empty(), choose|q: Seq<Seq<char>>| q.to_set() == rs)
}

pub open spec fn indirect_events(es: Seq<ExportEntryFact>) -> Seq<ImportEvent>
    decreases es.len(),
{
    if es.len() == 0 {
        Seq::empty()
    } else {
        indirect_events(es.drop_last()) + indirect_event(es.last())
    }
}

pub open spec fn star_events(es: Seq<ExportEntryFact>) -> Seq<ImportEvent>
    decreases es.len(),
{
    if es.len() == 0 {
        Seq::empty()
    } else {
        star_events(es.drop_last()) + star_event(es.last())
    }
}

/// The event of one `import(...)`: a string literal is a namespace use of that specifier,
/// anything else is a non-literal import of the trimmed expression text.
pub open spec fn dynamic_event(source: Seq<char>, d: DynamicImportFact) -> Option<ImportEvent> {
    match span_text(source, d.start as int, d.end as int) {
        Some(text) => {
            let expr = trim(text);
            match string_literal_content(expr) {
                Some(spec) => Some(ImportEvent::Touch(spec, None, true)),
                None => Some(ImportEvent::Dynamic(expr)),
            }
        },
        None => None,
    }
}

pub open spec fn dynamic_events(source: Seq<char>, ds: Seq<DynamicImportFact>) -> Option<
    Seq<ImportEvent>,
>
    decreases ds.len(),
{
    if ds.len() == 0 {
        Some(Seq::empty())
    } else {
        match (dynamic_events(source, ds.drop_last()), dynamic_event(source, ds.last())) {
            (Some(evs), Some(ev)) => Some(evs.push(ev)),
            _ => None,
        }
    }
}

/// Every `require('x')` is a namespace use of `x`.
pub open spec fn require_events(groups: Seq<Option<Seq<char>>>) -> Option<Seq<ImportEvent>>
    decreases groups.len(),
{
    if groups.len() == 0 {
        Some(Seq::empty())
    } else {
        match (require_events(groups.drop_last()), groups.last()) {
            (Some(evs), Some(g)) => Some(evs.push(ImportEvent::Touch(g, None, true))),
            _ => None,
        }
    }
}

pub open spec fn export_name_text(n: ExportedName) -> Option<Seq<char>> {
    match n {
        ExportedName::Named(s) => Some(s@),
        ExportedName::Default => Some("default"@),
        ExportedName::Null => None,
    }
}

pub open spec fn entry_export_names(es: Seq<ExportEntryFact>) -> Seq<Seq<char>>
    decreases es.len(),
{
    if es.len() == 0 {
        Seq::empty()
    } else {
        entry_export_names(es.drop_last()) + match export_name_text(es.last().export_name) {
            Some(n) => seq![n],
            None => Seq::empty(),
        }
    }
}

/// The names in the braces of one `module.exports = { ... }`: each comma-separated piece up
/// to its first `:`, trimmed, when not empty.
pub open spec fn object_key_names(pieces: Seq<Seq<char>>) -> Seq<Seq<char>>
    decreases pieces.len(),
{
    if pieces.len() == 0 {
        Seq::empty()
    } else {
        let n = trim(split_on(pieces.last(), ':')[0]);
        object_key_names(pieces.drop_last()) + if n.len() > 0 {
            seq![n]
        } else {
            Seq::empty()
        }
    }
}

pub open spec fn cjs_export_names(groups: Seq<Option<Seq<char>>>) -> Option<Seq<Seq<char>>>
    decreases groups.len(),
{
    if groups.len() == 0 {
        Some(Seq::empty())
    } else {
        match (cjs_export_names(groups.drop_last()), groups.last()) {
            (Some(ns), Some(g)) => Some(ns + object_key_names(split_on(g, ','))),
            _ => None,
        }
    }
}

/// Why a module's information cannot be had: the source or the patterns break an
/// assumption of the extraction, which then stops.
pub enum ModuleError {
    /// A dynamic import's span ends inside a character.
    SpanInsideChar,
    /// One of the two fixed regular expressions did not compile.
    PatternInvalid,
    /// A match of one of the regular expressions had no first group.
    GroupMissing,
}

/// What [`module_info_from_facts`] yields: the module's information, or the first
/// problem met in the order of the work (the dynamic imports, then each pattern).
pub open spec fn module_info_of(
    source: Seq<char>,
    facts: ModuleRecordFacts,
    requested: Set<Seq<char>>,
    exports_caps: Option<Seq<Option<Seq<char>>>>,
    require_caps: Option<Seq<Option<Seq<char>>>>,
) -> Result<ModuleInfoView, ModuleError> {
    match dynamic_events(source, facts.dynamic_imports@) {
        None => Err(ModuleError::SpanInsideChar),
        Some(dyn_evs) => match exports_caps {
            None => Err(ModuleError::PatternInvalid),
            Some(eg) => match cjs_export_names(eg) {
                None => Err(ModuleError::GroupMissing),
                Some(cjs) => match require_caps {
                    None => Err(ModuleError::PatternInvalid),
                    Some(rg) => match require_events(rg) {
                        None => Err(ModuleError::GroupMissing),
                        Some(req_evs) => {
                            let evs = import_entry_events(facts.import_entries@) + requested_events(
                                requested_names(requested),
                            ) + indirect_events(facts.indirect_export_entries@) + star_events(
                                facts.star_export_entries@,
                            ) + dyn_evs + req_evs;
                            let names = entry_export_names(facts.local_export_entries@)
                                + entry_export_names(facts.indirect_export_entries@) + cjs;
                            let table = apply_events(Seq::empty(), evs);
                            Ok(
                                (
                                    insert_names(Seq::empty(), names),
                                    table.map_values(|e: (Seq<char>, ImportRefView)| e.1),
                                    source,
                                ),
                            )
                        },
                    },
                },
            },
        },
    }
}

/// What [`parse_module`] yields for a file: [`module_info_of`] over the parser's record and
/// the matches of the two CommonJS patterns.
pub open spec fn parsed_module_info(path: Seq<char>, source: Seq<char>) -> Result<
    ModuleInfoView,
    ModuleError,
> {
    module_info_of(
        source,
        js_module_record(path, source).0,
        js_module_record(path, source).1,
        regex_group_one(exports_pattern(), source),
        regex_group_one(require_pattern(), source),
    )
}


// ---------------------------------------------------------------------------------------
// Building the tables.
proof fn lemma_apply_events_append(t: ImportTable, a: Seq<ImportEvent>, b: Seq<ImportEvent>)
    ensures
        apply_events(t, a + b) == apply_events(apply_events(t, a), b),
    decreases b.len(),
{
    if b.len() == 0 {
        assert(a + b =~= a);
    } else {
        assert((a + b).drop_last() =~= a + b.drop_last());
        lemma_apply_events_append(t, a, b.drop_last());
    }
}

proof fn lemma_insert_names_append(s: Seq<Seq<char>>, a: Seq<Seq<char>>, b: Seq<Seq<char>>)
    ensures
        insert_names(s, a + b) == insert_names(insert_names(s, a), b),
    decreases b.len(),
{
    if b.len() == 0 {
        assert(a + b =~= a);
    } else {
        assert((a + b).drop_last() =~= a + b.drop_last());
        lemma_insert_names_append(s, a, b.drop_last());
    }
}

/// An entry of the import table under construction.
struct Slot {
    key: Vec<char>,
    import: ImportRef,
}

spec fn slots_view(s: Seq<Slot>) -> ImportTable {
    s.map_values(|x: Slot| (x.key@, x.import@))
}

fn table_pos_exec(t: &Vec<Slot>, key: &Vec<char>) -> (i: usize)
    ensures
        i as int == table_pos(slots_view(t@), key@),
        i <= t@.len(),
{
    let ghost tv = slots_view(t@);
    let mut i: usize = 0;
    proof {
        assert(tv.skip(0) =~= tv);
    }
    while i < t.len() && chars_lt_exec(&t[i].key, key)
        invariant
            i <= t@.len(),
            tv == slots_view(t@),
            table_pos(tv, key@) == i + table_pos(tv.skip(i as int), key@),
        decreases t@.len() - i,
    {
        proof {
            assert(tv.skip(i as int)[0] == tv[i as int]);
            assert(tv.skip(i as int).drop_first() =~= tv.skip(i as int + 1));
        }
        i = i + 1;
    }
    proof {
        if i < t@.len() {
            assert(tv.skip(i as int)[0] == tv[i as int]);
        }
    }
    i
}

/// Applies `Touch(key, sym, wild)` to the table.
fn touch_exec(t: &mut Vec<Slot>, key: &Vec<char>, sym: Option<String>, wild: bool)
    ensures
        slots_view(final(t)@) == apply_event(
            slots_view(old(t)@),
            ImportEvent::Touch(key@, opt_view(sym), wild),
        ),
{
    let ghost tv = slots_view(t@);
    let i = table_pos_exec(t, key);
    if i < t.len() && chars_eq(&t[i].key, key) {
        let mut slot = t.remove(i);
        let ghost sv0 = slot.import@;
        proof {
            assert(tv[i as int] == (slot.key@, sv0));
        }
        match sym {
            Some(s) => {
                slot.import.symbols.push(s);
                proof {
                    assert(slot.import.symbols@.map_values(|x: String| x@) =~= sv0.1.push(s@));
                }
            },
            None => {},
        }
        slot.import.wildcard_use = slot.import.wildcard_use || wild;
        proof {
            assert(slot.import@ =~= touched(sv0, opt_view(sym), wild));
        }
        t.insert(i, slot);
        proof {
            assert(slots_view(t@) =~= tv.update(
                i as int,
                (key@, touched(tv[i as int].1, opt_view(sym), wild)),
            ));
        }
    } else {
        let mut symbols: Vec<String> = Vec::new();
        match sym {
            Some(s) => {
                symbols.push(s);
            },
            None => {},
        }
        let import = ImportRef {
            raw: string_from_chars(key),
            symbols,
            wildcard_use: wild,
            is_dynamic_non_literal: false,
        };
        t.insert(i, Slot { key: key.clone(), import });
        proof {
            assert(import@.1 =~= touched((key@, Seq::empty(), false, false), opt_view(sym), wild).1);
            assert(slots_view(t@) =~= tv.insert(
                i as int,
                (key@, touched((key@, Seq::empty(), false, false), opt_view(sym), wild)),
            ));
        }
    }
}

/// Applies `Dynamic(expr)` to the table.
fn dynamic_exec(t: &mut Vec<Slot>, expr: &Vec<char>)
    ensures
        slots_view(final(t)@) == apply_event(slots_view(old(t)@), ImportEvent::Dynamic(expr@)),
{
    let ghost tv = slots_view(t@);
    let prefix = chars_of("dynamic:");
    let key = concat_chars(&prefix, expr);
    let i = table_pos_exec(t, &key);
    let import = ImportRef {
        raw: string_from_chars(expr),
        symbols: Vec::new(),
        wildcard_use: false,
        is_dynamic_non_literal: true,
    };
    let ghost v: ImportRefView = (expr@, Seq::empty(), false, true);
    proof {
        assert(import@ =~= v);
    }
    if i < t.len() && chars_eq(&t[i].key, &key) {
        let _old = t.remove(i);
        t.insert(i, Slot { key, import });
        proof {
            assert(slots_view(t@) =~= tv.update(i as int, (dynamic_key(expr@), v)));
        }
    } else {
        t.insert(i, Slot { key, import });
        proof {
            assert(slots_view(t@) =~= tv.insert(i as int, (dynamic_key(expr@), v)));
        }
    }
}

fn name_pos_exec(s: &Vec<Vec<char>>, name: &Vec<char>) -> (i: usize)
    ensures
        i as int == name_pos(s@.map_values(|v: Vec<char>| v@), name@),
        i <= s@.len(),
{
    let ghost sv = s@.map_values(|v: Vec<char>| v@);
    let mut i: usize = 0;
    proof {
        assert(sv.skip(0) =~= sv);
    }
    while i < s.len() && chars_lt_exec(&s[i], name)
        invariant
            i <= s@.len(),
            sv == s@.map_values(|v: Vec<char>| v@),
            name_pos(sv, name@) == i + name_pos(sv.skip(i as int), name@),
        decreases s@.len() - i,
    {
        proof {
            assert(sv.skip(i as int)[0] == sv[i as int]);
            assert(sv.skip(i as int).drop_first() =~= sv.skip(i as int + 1));
        }
        i = i + 1;
    }
    proof {
        if i < s@.len() {
            assert(sv.skip(i as int)[0] == sv[i as int]);
        }
    }
    i
}

pub(crate) fn insert_name_exec(s: &mut Vec<Vec<char>>, name: &Vec<char>)
    ensures
        final(s)@.map_values(|v: Vec<char>| v@) == insert_name(
            old(s)@.map_values(|v: Vec<char>| v@),
            name@,
        ),
{
    let ghost sv = s@.map_values(|v: Vec<char>| v@);
    let i = name_pos_exec(s, name);
    if i < s.len() && chars_eq(&s[i], name) {
    } else {
        s.insert(i, name.clone());
        proof {
            assert(s@.map_values(|v: Vec<char>| v@) =~= sv.insert(i as int, name@));
        }
    }
}

/// Where the byte span of each `import(...)` specifier lies, turned into events.
fn add_dynamic_events(t: &mut Vec<Slot>, source: &Vec<char>, ds: &Vec<DynamicImportFact>) -> (ok:
    bool)
    ensures
        ok <==> dynamic_events(source@, ds@) is Some,
        ok ==> slots_view(final(t)@) == apply_events(
            slots_view(old(t)@),
            dynamic_events(source@, ds@).unwrap(),
        ),
{
    let ghost t0 = slots_view(t@);
    let mut k: usize = 0;
    proof {
        assert(ds@.take(0) =~= Seq::<DynamicImportFact>::empty());
    }
    while k < ds.len()
        invariant
            k <= ds@.len(),
            dynamic_events(source@, ds@.take(k as int)) is Some,
            slots_view(t@) == apply_events(t0, dynamic_events(source@, ds@.take(k as int)).unwrap()),
        decreases ds@.len() - k,
    {
        proof {
            assert(ds@.take(k as int + 1).drop_last() =~= ds@.take(k as int));
        }
        let d = &ds[k];
        match span_text_exec(source, d.start, d.end) {
            None => {
                proof {
                    lemma_dynamic_events_none(source@, ds@, k as int);
                }
                return false;
            },
            Some(text) => {
                let expr = trim_exec(&text);
                let ghost evs = dynamic_events(source@, ds@.take(k as int)).unwrap();
                let ghost tk = slots_view(t@);
                match parse_string_literal(&expr) {
                    Some(spec) => {
                        touch_exec(t, &spec, None, true);
                        proof {
                            let ev = ImportEvent::Touch(spec@, None, true);
                            assert(dynamic_event(source@, ds@[k as int]) == Some(ev));
                            assert(evs.push(ev).drop_last() =~= evs);
                        }
                    },
                    None => {
                        dynamic_exec(t, &expr);
                        proof {
                            let ev = ImportEvent::Dynamic(expr@);
                            assert(dynamic_event(source@, ds@[k as int]) == Some(ev));
                            assert(evs.push(ev).drop_last() =~= evs);
                        }
                    },
                }
            },
        }
        k = k + 1;
    }
    proof {
        assert(ds@.take(ds@.len() as int) =~= ds@);
    }
    true
}

proof fn lemma_insert_names_single(x: Seq<Seq<char>>, n: Seq<char>)
    ensures
        insert_names(x, seq![n]) == insert_name(x, n),
{
    assert(seq![n].drop_last() =~= Seq::<Seq<char>>::empty());
    assert(insert_names(x, Seq::<Seq<char>>::empty()) == x);
}

proof fn lemma_split_nonempty(s: Seq<char>, c: char)
    ensures
        split_on(s, c).len() >= 1,
    decreases s.len(),
{
    if s.len() > 0 {
        lemma_split_nonempty(s.drop_last(), c);
    }
}

proof fn lemma_dynamic_events_none(source: Seq<char>, ds: Seq<DynamicImportFact>, k: int)
    requires
        0 <= k < ds.len(),
        dynamic_event(source, ds[k]) is None,
    ensures
        dynamic_events(source, ds) is None,
    decreases ds.len(),
{
    if k < ds.len() - 1 {
        lemma_dynamic_events_none(source, ds.drop_last(), k);
    }
}

proof fn lemma_require_events_none(gs: Seq<Option<Seq<char>>>, k: int)
    requires
        0 <= k < gs.len(),
        gs[k] is None,
    ensures
        require_events(gs) is None,
    decreases gs.len(),
{
    if k < gs.len() - 1 {
        lemma_require_events_none(gs.drop_last(), k);
    }
}

proof fn lemma_cjs_names_none(gs: Seq<Option<Seq<char>>>, k: int)
    requires
        0 <= k < gs.len(),
        gs[k] is None,
    ensures
        cjs_export_names(gs) is None,
    decreases gs.len(),
{
    if k < gs.len() - 1 {
        lemma_cjs_names_none(gs.drop_last(), k);
    }
}

pub open spec fn caps_view(o: Option<Vec<Option<String>>>) -> Option<Seq<Option<Seq<char>>>> {
    match o {
        Some(v) => Some(v@.map_values(|x: Option<String>| opt_view(x))),
        None => None,
    }
}

/// Adds the names in the braces of `module.exports = { ... }` matches.
fn add_cjs_names(names: &mut Vec<Vec<char>>, groups: &Vec<Option<String>>) -> (ok: bool)
    ensures
        ok <==> cjs_export_names(groups@.map_values(|x: Option<String>| opt_view(x))) is Some,
        ok ==> final(names)@.map_values(|v: Vec<char>| v@) == insert_names(
            old(names)@.map_values(|v: Vec<char>| v@),
            cjs_export_names(groups@.map_values(|x: Option<String>| opt_view(x))).unwrap(),
        ),
{
    let ghost gv = groups@.map_values(|x: Option<String>| opt_view(x));
    let ghost n0 = names@.map_values(|v: Vec<char>| v@);
    let mut k: usize = 0;
    proof {
        assert(gv.take(0) =~= Seq::<Option<Seq<char>>>::empty());
    }
    while k < groups.len()
        invariant
            k <= groups@.len(),
            gv == groups@.map_values(|x: Option<String>| opt_view(x)),
            cjs_export_names(gv.take(k as int)) is Some,
            names@.map_values(|v: Vec<char>| v@) == insert_names(
                n0,
                cjs_export_names(gv.take(k as int)).unwrap(),
            ),
        decreases groups@.len() - k,
    {
        proof {
            assert(gv.take(k as int + 1).drop_last() =~= gv.take(k as int));
        }
        match &groups[k] {
            None => {
                proof {
                    lemma_cjs_names_none(gv, k as int);
                }
                return false;
            },
            Some(g) => {
                let gc = chars_of(g.as_str());
                let pieces = split_exec(&gc, ',');
                let ghost ps = split_on(gc@, ',');
                let ghost before = names@.map_values(|v: Vec<char>| v@);
                let mut j: usize = 0;
                proof {
                    assert(ps.take(0) =~= Seq::<Seq<char>>::empty());
                }
                while j < pieces.len()
                    invariant
                        j <= pieces@.len(),
                        pieces@.len() == ps.len(),
                        forall|m: int| 0 <= m < pieces@.len() ==> #[trigger] pieces@[m]@ == ps[m],
                        names@.map_values(|v: Vec<char>| v@) == insert_names(
                            before,
                            object_key_names(ps.take(j as int)),
                        ),
                    decreases pieces@.len() - j,
                {
                    proof {
                        assert(ps.take(j as int + 1).drop_last() =~= ps.take(j as int));
                        assert(ps.take(j as int + 1).last() == ps[j as int]);
                    }
                    let parts = split_exec(&pieces[j], ':');
                    proof {
                        lemma_split_nonempty(pieces@[j as int]@, ':');
                    }
                    let n = trim_exec(&parts[0]);
                    let ghost nv = trim(split_on(ps[j as int], ':')[0]);
                    proof {
                        let obj_j = object_key_names(ps.take(j as int));
                        assert(n@ == nv);
                        if n@.len() > 0 {
                            assert(object_key_names(ps.take(j as int + 1)) =~= obj_j + seq![nv]);
                            lemma_insert_names_append(before, obj_j, seq![nv]);
                            lemma_insert_names_single(insert_names(before, obj_j), nv);
                            assert(seq![nv].drop_last() =~= Seq::<Seq<char>>::empty());
                        } else {
                            assert(object_key_names(ps.take(j as int + 1)) =~= obj_j);
                        }
                    }
                    if n.len() > 0 {
                        insert_name_exec(names, &n);
                    }
                    j = j + 1;
                }
                proof {
                    assert(ps.take(ps.len() as int) =~= ps);
                    let prev = cjs_export_names(gv.take(k as int)).unwrap();
                    assert(cjs_export_names(gv.take(k as int + 1)).unwrap() == prev
                        + object_key_names(ps));
                    lemma_insert_names_append(n0, prev, object_key_names(ps));
                }
            },
        }
        k = k + 1;
    }
    proof {
        assert(gv.take(gv.len() as int) =~= gv);
    }
    true
}

/// Adds the export names of a list of export entries.
fn add_entry_names(names: &mut Vec<Vec<char>>, es: &Vec<ExportEntryFact>)
    ensures
        final(names)@.map_values(|v: Vec<char>| v@) == insert_names(
            old(names)@.map_values(|v: Vec<char>| v@),
            entry_export_names(es@),
        ),
{
    let ghost n0 = names@.map_values(|v: Vec<char>| v@);
    let mut k: usize = 0;
    proof {
        assert(es@.take(0) =~= Seq::<ExportEntryFact>::empty());
    }
    while k < es.len()
        invariant
            k <= es@.len(),
            names@.map_values(|v: Vec<char>| v@) == insert_names(
                n0,
                entry_export_names(es@.take(k as int)),
            ),
        decreases es@.len() - k,
    {
        proof {
            assert(es@.take(k as int + 1).drop_last() =~= es@.take(k as int));
            assert(es@.take(k as int + 1).last() == es@[k as int]);
        }
        let ghost prev = entry_export_names(es@.take(k as int));
        match &es[k].export_name {
            ExportedName::Named(s) => {
                let n = chars_of(s.as_str());
                insert_name_exec(names, &n);
                proof {
                    assert(entry_export_names(es@.take(k as int + 1)) =~= prev + seq![n@]);
                    lemma_insert_names_append(n0, prev, seq![n@]);
                    lemma_insert_names_single(insert_names(n0, prev), n@);
                    assert(seq![n@].drop_last() =~= Seq::<Seq<char>>::empty());
                }
            },
            ExportedName::Default => {
                let n = chars_of("default");
                insert_name_exec(names, &n);
                proof {
                    assert(entry_export_names(es@.take(k as int + 1)) =~= prev + seq![n@]);
                    lemma_insert_names_append(n0, prev, seq![n@]);
                    lemma_insert_names_single(insert_names(n0, prev), n@);
                    assert(seq![n@].drop_last() =~= Seq::<Seq<char>>::empty());
                }
            },
            ExportedName::Null => {
                proof {
                    assert(entry_export_names(es@.take(k as int + 1)) =~= prev + Seq::<Seq<char>>::empty());
                    assert(prev + Seq::<Seq<char>>::empty() =~= prev);
                }
            },
        }
        k = k + 1;
    }
    proof {
        assert(es@.take(es@.len() as int) =~= es@);
    }
}


fn add_import_entries(t: &mut Vec<Slot>, es: &Vec<ImportEntryFact>)
    ensures
        slots_view(final(t)@) == apply_events(slots_view(old(t)@), import_entry_events(es@)),
{
    let ghost t0 = slots_view(t@);
    let mut k: usize = 0;
    proof {
        assert(es@.take(0) =~= Seq::<ImportEntryFact>::empty());
    }
    while k < es.len()
        invariant
            k <= es@.len(),
            slots_view(t@) == apply_events(t0, import_entry_events(es@.take(k as int))),
        decreases es@.len() - k,
    {
        let ghost evs = import_entry_events(es@.take(k as int));
        proof {
            assert(es@.take(k as int + 1).drop_last() =~= es@.take(k as int));
            assert(es@.take(k as int + 1).last() == es@[k as int]);
            let ev = import_entry_event(es@[k as int]);
            assert(evs.push(ev).drop_last() =~= evs);
        }
        let e = &es[k];
        let key = chars_of(e.request.as_str());
        match &e.import_name {
            ImportedName::Named(n) => {
                touch_exec(t, &key, Some(n.clone()), false);
            },
            ImportedName::Default => {
                touch_exec(t, &key, Some(owned("default")), false);
            },
            ImportedName::Namespace => {
                touch_exec(t, &key, None, true);
            },
        }
        k = k + 1;
    }
    proof {
        assert(es@.take(es@.len() as int) =~= es@);
    }
}

fn add_requested(t: &mut Vec<Slot>, rs: &Vec<Vec<char>>)
    ensures
        slots_view(final(t)@) == apply_events(
            slots_view(old(t)@),
            requested_events(rs@.map_values(|v: Vec<char>| v@)),
        ),
{
    let ghost rv = rs@.map_values(|v: Vec<char>| v@);
    let ghost t0 = slots_view(t@);
    let mut k: usize = 0;
    proof {
        assert(rv.take(0) =~= Seq::<Seq<char>>::empty());
    }
    while k < rs.len()
        invariant
            k <= rs@.len(),
            rv == rs@.map_values(|v: Vec<char>| v@),
            slots_view(t@) == apply_events(t0, requested_events(rv.take(k as int))),
        decreases rs@.len() - k,
    {
        let ghost evs = requested_events(rv.take(k as int));
        proof {
            assert(rv.take(k as int + 1).drop_last() =~= rv.take(k as int));
            assert(rv.take(k as int + 1).last() == rv[k as int]);
            let ev = ImportEvent::Touch(rv[k as int], None, false);
            assert(evs.push(ev).drop_last() =~= evs);
        }
        touch_exec(t, &rs[k], None, false);
        k = k + 1;
    }
    proof {
        assert(rv.take(rv.len() as int) =~= rv);
    }
}

proof fn lemma_apply_events_single(t: ImportTable, ev: ImportEvent)
    ensures
        apply_events(t, seq![ev]) == apply_event(t, ev),
{
    assert(seq![ev].drop_last() =~= Seq::<ImportEvent>::empty());
    assert(apply_events(t, Seq::<ImportEvent>::empty()) == t);
}

fn add_reexports(t: &mut Vec<Slot>, es: &Vec<ExportEntryFact>, star: bool)
    ensures
        slots_view(final(t)@) == apply_events(
            slots_view(old(t)@),
            if star {
                star_events(es@)
            } else {
                indirect_events(es@)
            },
        ),
{
    let ghost t0 = slots_view(t@);
    let mut k: usize = 0;
    proof {
        assert(es@.take(0) =~= Seq::<ExportEntryFact>::empty());
    }
    while k < es.len()
        invariant
            k <= es@.len(),
            slots_view(t@) == apply_events(
                t0,
                if star {
                    star_events(es@.take(k as int))
                } else {
                    indirect_events(es@.take(k as int))
                },
            ),
        decreases es@.len() - k,
    {
        let ghost evs = if star {
            star_events(es@.take(k as int))
        } else {
            indirect_events(es@.take(k as int))
        };
        let ghost tk = slots_view(t@);
        proof {
            assert(es@.take(k as int + 1).drop_last() =~= es@.take(k as int));
            assert(es@.take(k as int + 1).last() == es@[k as int]);
        }
        let e = &es[k];
        let ghost step = if star {
            star_event(es@[k as int])
        } else {
            indirect_event(es@[k as int])
        };
        match &e.request {
            Some(r) => {
                let key = chars_of(r.as_str());
                let mut sym: Option<String> = None;
                let mut wild = star;
                if !star {
                    match &e.import_name {
                        ReexportedName::Named(n) => {
                            sym = Some(n.clone());
                        },
                        ReexportedName::All => {
                            wild = true;
                        },
                        ReexportedName::AllButDefault => {
                            wild = true;
                        },
                        ReexportedName::Null => {},
                    }
                }
                touch_exec(t, &key, sym, wild);
                proof {
                    let ev = ImportEvent::Touch(key@, opt_view(sym), wild);
                    assert(step == seq![ev]);
                    lemma_apply_events_append(t0, evs, step);
                    lemma_apply_events_single(tk, ev);
                }
            },
            None => {
                proof {
                    assert(step =~= Seq::<ImportEvent>::empty());
                    assert(evs + step =~= evs);
                }
            },
        }
        k = k + 1;
    }
    proof {
        assert(es@.take(es@.len() as int) =~= es@);
    }
}

fn add_requires(t: &mut Vec<Slot>, groups: &Vec<Option<String>>) -> (ok: bool)
    ensures
        ok <==> require_events(groups@.map_values(|x: Option<String>| opt_view(x))) is Some,
        ok ==> slots_view(final(t)@) == apply_events(
            slots_view(old(t)@),
            require_events(groups@.map_values(|x: Option<String>| opt_view(x))).unwrap(),
        ),
{
    let ghost gv = groups@.map_values(|x: Option<String>| opt_view(x));
    let ghost t0 = slots_view(t@);
    let mut k: usize = 0;
    proof {
        assert(gv.take(0) =~= Seq::<Option<Seq<char>>>::empty());
    }
    while k < groups.len()
        invariant
            k <= groups@.len(),
            gv == groups@.map_values(|x: Option<String>| opt_view(x)),
            require_events(gv.take(k as int)) is Some,
            slots_view(t@) == apply_events(t0, require_events(gv.take(k as int)).unwrap()),
        decreases groups@.len() - k,
    {
        proof {
            assert(gv.take(k as int + 1).drop_last() =~= gv.take(k as int));
        }
        match &groups[k] {
            None => {
                proof {
                    lemma_require_events_none(gv, k as int);
                }
                return false;
            },
            Some(g) => {
                let ghost evs = require_events(gv.take(k as int)).unwrap();
                let key = chars_of(g.as_str());
                touch_exec(t, &key, None, true);
                proof {
                    let ev = ImportEvent::Touch(key@, None, true);
                    assert(evs.push(ev).drop_last() =~= evs);
                }
            },
        }
        k = k + 1;
    }
    proof {
        assert(gv.take(gv.len() as int) =~= gv);
    }
    true
}

pub(crate) fn into_strings(v: Vec<Vec<char>>) -> (r: Vec<String>)
    ensures
        r@.map_values(|s: String| s@) == v@.map_values(|x: Vec<char>| x@),
{
    let mut out: Vec<String> = Vec::new();
    let mut k: usize = 0;
    while k < v.len()
        invariant
            k <= v@.len(),
            out@.len() == k,
            forall|i: int| 0 <= i < k ==> #[trigger] out@[i]@ == v@[i]@,
        decreases v@.len() - k,
    {
        let s = string_from_chars(&v[k]);
        out.push(s);
        k = k + 1;
    }
    proof {
        assert(out@.map_values(|s: String| s@) =~= v@.map_values(|x: Vec<char>| x@));
    }
    out
}

fn slots_into_imports(t: Vec<Slot>) -> (r: Vec<ImportRef>)
    ensures
        r@.map_values(|i: ImportRef| i@) == slots_view(t@).map_values(
            |e: (Seq<char>, ImportRefView)| e.1,
        ),
{
    let mut out: Vec<ImportRef> = Vec::new();
    let mut t = t;
    let ghost tv = slots_view(t@);
    let n = t.len();
    let mut k: usize = 0;
    // Move the entries out from the back, then restore the order.
    let mut rev: Vec<ImportRef> = Vec::new();
    while t.len() > 0
        invariant
            t@.len() + rev@.len() == n,
            n == tv.len(),
            slots_view(t@) == tv.take(t@.len() as int),
            forall|i: int|
                0 <= i < rev@.len() ==> #[trigger] rev@[i]@ == tv[n - 1 - i].1,
        decreases t@.len(),
    {
        let slot = t.pop().unwrap();
        proof {
            assert(tv.take(t@.len() as int + 1)[t@.len() as int] == (slot.key@, slot.import@));
            assert(slots_view(t@) =~= tv.take(t@.len() as int));
        }
        rev.push(slot.import);
    }
    while rev.len() > 0
        invariant
            out@.len() + rev@.len() == n,
            n == tv.len(),
            forall|i: int| 0 <= i < rev@.len() ==> #[trigger] rev@[i]@ == tv[n - 1 - i].1,
            forall|i: int| 0 <= i < out@.len() ==> #[trigger] out@[i]@ == tv[i].1,
        decreases rev@.len(),
    {
        let r = rev.pop().unwrap();
        out.push(r);
    }
    proof {
        assert(out@.map_values(|i: ImportRef| i@) =~= tv.map_values(
            |e: (Seq<char>, ImportRefView)| e.1,
        ));
    }
    out
}

/// Two lists of names in strictly increasing order that hold the same names are the same.
proof fn lemma_increasing_unique(x: Seq<Seq<char>>, y: Seq<Seq<char>>)
    requires
        names_increasing(x),
        names_increasing(y),
        forall|z: Seq<char>| x.contains(z) <==> y.contains(z),
    ensures
        x == y,
    decreases x.len(),
{
    crate::text::lemma_chars_lt_order();
    if x.len() == 0 {
        if y.len() > 0 {
            assert(y.contains(y[0]));
        }
        assert(x =~= y);
    } else {
        assert(x.contains(x[0]));
        assert(y.len() > 0);
        assert(y.contains(y[0]));
        let j = choose|j: int| 0 <= j < y.len() && y[j] == x[0];
        let i = choose|i: int| 0 <= i < x.len() && x[i] == y[0];
        if j > 0 {
            assert(chars_lt(y[0], y[j]));
        }
        if i > 0 {
            assert(chars_lt(x[0], x[i]));
        }
        assert(x[0] == y[0]);
        let xd = x.drop_first();
        let yd = y.drop_first();
        assert forall|z: Seq<char>| xd.contains(z) <==> yd.contains(z) by {
            if xd.contains(z) {
                let p = choose|p: int| 0 <= p < xd.len() && xd[p] == z;
                assert(chars_lt(x[0], x[p + 1]));
                assert(y.contains(z));
                let q = choose|q: int| 0 <= q < y.len() && y[q] == z;
                assert(q != 0);
                assert(yd[q - 1] == z);
            }
            if yd.contains(z) {
                let p = choose|p: int| 0 <= p < yd.len() && yd[p] == z;
                assert(chars_lt(y[0], y[p + 1]));
                assert(x.contains(z));
                let q = choose|q: int| 0 <= q < x.len() && x[q] == z;
                assert(q != 0);
                assert(xd[q - 1] == z);
            }
        }
        assert forall|a: int, b: int| 0 <= a < b < xd.len() implies chars_lt(#[trigger] xd[a], #[trigger] xd[b]) by {
            assert(xd[a] == x[a + 1] && xd[b] == x[b + 1]);
        }
        assert forall|a: int, b: int| 0 <= a < b < yd.len() implies chars_lt(#[trigger] yd[a], #[trigger] yd[b]) by {
            assert(yd[a] == y[a + 1] && yd[b] == y[b + 1]);
        }
        lemma_increasing_unique(xd, yd);
        assert(x =~= seq![x[0]] + xd);
        assert(y =~= seq![y[0]] + yd);
    }
}

/// Law: the requested modules of a module are taken in string order, each once, so the
/// order in which they are listed does not matter: any list that holds the same names gives
/// the same order.
pub proof fn law_requested_order_free(rs: Seq<Seq<char>>)
    ensures
        requested_names(rs.to_set()) == insert_names(Seq::empty(), rs),
{
    let q = choose|q: Seq<Seq<char>>| q.to_set() == rs.to_set();
    assert(exists|q: Seq<Seq<char>>| q.to_set() == rs.to_set());
    law_insert_names(rs);
    law_insert_names(q);
    assert forall|z: Seq<char>| #[trigger] insert_names(Seq::empty(), q).contains(z)
        <==> insert_names(Seq::empty(), rs).contains(z) by {
        assert(q.to_set().contains(z) <==> q.contains(z));
        assert(rs.to_set().contains(z) <==> rs.contains(z));
    }
    lemma_increasing_unique(insert_names(Seq::empty(), q), insert_names(Seq::empty(), rs));
}

/// The requested modules in string order, each once.
fn requested_in_order(rs: &Vec<String>) -> (r: Vec<Vec<char>>)
    ensures
        r@.map_values(|v: Vec<char>| v@) == requested_names(string_views(rs@).to_set()),
{
    let ghost sv = string_views(rs@);
    let mut out: Vec<Vec<char>> = Vec::new();
    let mut k: usize = 0;
    proof {
        assert(sv.take(0) =~= Seq::<Seq<char>>::empty());
        assert(out@.map_values(|v: Vec<char>| v@) =~= Seq::<Seq<char>>::empty());
    }
    while k < rs.len()
        invariant
            k <= rs@.len(),
            sv == string_views(rs@),
            out@.map_values(|v: Vec<char>| v@) == insert_names(Seq::empty(), sv.take(k as int)),
        decreases rs@.len() - k,
    {
        proof {
            assert(sv.take(k as int + 1).drop_last() =~= sv.take(k as int));
            assert(sv.take(k as int + 1).last() == rs@[k as int]@);
        }
        let name = chars_of(rs[k].as_str());
        insert_name_exec(&mut out, &name);
        k = k + 1;
    }
    proof {
        assert(sv.take(k as int) =~= sv);
        law_requested_order_free(sv);
    }
    out
}

/// A module's information from its parsed record and the matches of the two CommonJS
/// patterns, or the first problem met.
pub fn module_info_from_facts(
    source: &str,
    facts: &ModuleRecordFacts,
    requested: &Vec<String>,
    exports_caps: Option<Vec<Option<String>>>,
    require_caps: Option<Vec<Option<String>>>,
) -> (r: Result<ModuleInfo, ModuleError>)
    ensures
        r matches Ok(m) ==> module_info_of(
            source@,
            *facts,
            string_views(requested@).to_set(),
            caps_view(exports_caps),
            caps_view(require_caps),
        ) == Ok::<ModuleInfoView, ModuleError>(m@),
        r matches Err(e) ==> module_info_of(
            source@,
            *facts,
            string_views(requested@).to_set(),
            caps_view(exports_caps),
            caps_view(require_caps),
        ) == Err::<ModuleInfoView, ModuleError>(e),
{
    let src = chars_of(source);
    let mut t: Vec<Slot> = Vec::new();
    let mut dyn_table: Vec<Slot> = Vec::new();
    // The dynamic imports are checked first: a problem there comes first.
    let ghost empty_table: ImportTable = Seq::empty();
    proof {
        assert(slots_view(dyn_table@) =~= empty_table);
    }
    if !add_dynamic_events(&mut dyn_table, &src, &facts.dynamic_imports) {
        return Err(ModuleError::SpanInsideChar);
    }
    let eg = match exports_caps {
        None => {
            return Err(ModuleError::PatternInvalid);
        },
        Some(g) => g,
    };
    let mut names: Vec<Vec<char>> = Vec::new();
    let mut cjs: Vec<Vec<char>> = Vec::new();
    let ghost no_names: Seq<Seq<char>> = Seq::empty();
    proof {
        assert(cjs@.map_values(|v: Vec<char>| v@) =~= no_names);
    }
    if !add_cjs_names(&mut cjs, &eg) {
        return Err(ModuleError::GroupMissing);
    }
    let rg = match require_caps {
        None => {
            return Err(ModuleError::PatternInvalid);
        },
        Some(g) => g,
    };
    let mut probe: Vec<Slot> = Vec::new();
    if !add_requires(&mut probe, &rg) {
        return Err(ModuleError::GroupMissing);
    }
    let ghost dyn_evs = dynamic_events(src@, facts.dynamic_imports@).unwrap();
    let ghost req_evs = require_events(rg@.map_values(|x: Option<String>| opt_view(x))).unwrap();
    let ghost cjs_names = cjs_export_names(eg@.map_values(|x: Option<String>| opt_view(x))).unwrap();
    // Now build the table and the names in the order of the record's parts.
    proof {
        assert(slots_view(t@) =~= empty_table);
        assert(names@.map_values(|v: Vec<char>| v@) =~= no_names);
    }
    add_import_entries(&mut t, &facts.import_entries);
    let sorted_requested = requested_in_order(requested);
    add_requested(&mut t, &sorted_requested);
    add_reexports(&mut t, &facts.indirect_export_entries, false);
    add_reexports(&mut t, &facts.star_export_entries, true);
    let ok1 = add_dynamic_events(&mut t, &src, &facts.dynamic_imports);
    let ok2 = add_requires(&mut t, &rg);
    add_entry_names(&mut names, &facts.local_export_entries);
    add_entry_names(&mut names, &facts.indirect_export_entries);
    let ok3 = add_cjs_names(&mut names, &eg);
    proof {
        let e1 = import_entry_events(facts.import_entries@);
        let e2 = requested_events(requested_names(string_views(requested@).to_set()));
        let e3 = indirect_events(facts.indirect_export_entries@);
        let e4 = star_events(facts.star_export_entries@);
        lemma_apply_events_append(empty_table, e1, e2);
        lemma_apply_events_append(empty_table, e1 + e2, e3);
        lemma_apply_events_append(empty_table, e1 + e2 + e3, e4);
        lemma_apply_events_append(empty_table, e1 + e2 + e3 + e4, dyn_evs);
        lemma_apply_events_append(empty_table, e1 + e2 + e3 + e4 + dyn_evs, req_evs);
        let n1 = entry_export_names(facts.local_export_entries@);
        let n2 = entry_export_names(facts.indirect_export_entries@);
        lemma_insert_names_append(no_names, n1, n2);
        lemma_insert_names_append(no_names, n1 + n2, cjs_names);
    }
    let exports = into_strings(names);
    let imports = slots_into_imports(t);
    let info = ModuleInfo { exports, imports, raw_source: owned(source) };
    proof {
        assert(info@.0 =~= insert_names(
            no_names,
            entry_export_names(facts.local_export_entries@) + entry_export_names(
                facts.indirect_export_entries@,
            ) + cjs_names,
        ));
    }
    Ok(info)
}

/// Parses a JS/TS source file and returns what it imports and exports, or the first
/// problem met.
pub fn parse_module(path: &str, source: &str) -> (r: Result<ModuleInfo, ModuleError>)
    ensures
        r matches Ok(m) ==> parsed_module_info(path@, source@) == Ok::<
            ModuleInfoView,
            ModuleError,
        >(m@),
        r matches Err(e) ==> parsed_module_info(path@, source@) == Err::<
            ModuleInfoView,
            ModuleError,
        >(e),
{
    let (facts, requested) = parse_module_record(path, source);
    let exports_caps = regex_captures("module\\.exports\\s*=\\s*\\{([^}]*)\\}", source);
    let require_caps = regex_captures("require\\(\\s*['\"]([^'\"]+)['\"]\\s*\\)", source);
    proof {
        assert(caps_view(exports_caps) == regex_group_one(exports_pattern(), source@)) by {
            if let Some(v) = exports_caps {
                assert(v@.map_values(|x: Option<String>| opt_view(x)) =~= regex_group_one(
                    exports_pattern(),
                    source@,
                ).unwrap());
            }
        }
        assert(caps_view(require_caps) == regex_group_one(require_pattern(), source@)) by {
            if let Some(v) = require_caps {
                assert(v@.map_values(|x: Option<String>| opt_view(x)) =~= regex_group_one(
                    require_pattern(),
                    source@,
                ).unwrap());
            }
        }
    }
    module_info_from_facts(source, &facts, &requested, exports_caps, require_caps)
}


// ---------------------------------------------------------------------------------------
// The name sets and import tables keep what `BTreeSet` and `BTreeMap` keep.
proof fn lemma_name_pos(s: Seq<Seq<char>>, name: Seq<char>) -> (p: int)
    ensures
        p == name_pos(s, name),
        0 <= p <= s.len(),
        forall|i: int| 0 <= i < p ==> chars_lt(#[trigger] s[i], name),
        p < s.len() ==> !chars_lt(s[p], name),
    decreases s.len(),
{
    if s.len() == 0 {
        0
    } else if chars_lt(s[0], name) {
        let q = lemma_name_pos(s.drop_first(), name);
        assert forall|i: int| 0 <= i < q + 1 implies chars_lt(#[trigger] s[i], name) by {
            if i > 0 {
                assert(s[i] == s.drop_first()[i - 1]);
            }
        }
        if q + 1 < s.len() {
            assert(s[q + 1] == s.drop_first()[q]);
        }
        q + 1
    } else {
        0
    }
}

/// Strictly increasing in string order.
pub open spec fn names_increasing(s: Seq<Seq<char>>) -> bool {
    forall|i: int, j: int| 0 <= i < j < s.len() ==> chars_lt(#[trigger] s[i], #[trigger] s[j])
}

proof fn lemma_insert_name(s: Seq<Seq<char>>, name: Seq<char>)
    requires
        names_increasing(s),
    ensures
        names_increasing(insert_name(s, name)),
        forall|x: Seq<char>| #[trigger] insert_name(s, name).contains(x) <==> (s.contains(x) || x == name),
{
    crate::text::lemma_chars_lt_order();
    let p = lemma_name_pos(s, name);
    let r = insert_name(s, name);
    if p < s.len() && s[p] == name {
        assert(r == s);
    } else {
        if p < s.len() {
            assert(chars_lt(name, s[p]));
        }
        assert forall|i: int, j: int| 0 <= i < j < r.len() implies chars_lt(#[trigger] r[i], #[trigger] r[j]) by {
            if j < p {
                assert(r[i] == s[i] && r[j] == s[j]);
            } else if j == p {
                assert(r[i] == s[i] && r[j] == name);
            } else if i < p {
                assert(r[i] == s[i] && r[j] == s[j - 1]);
                if j - 1 > p {
                    assert(chars_lt(s[p], s[j - 1]));
                }
                assert(chars_lt(name, s[j - 1]));
            } else if i == p {
                assert(r[i] == name && r[j] == s[j - 1]);
                if j - 1 > p {
                    assert(chars_lt(s[p], s[j - 1]));
                }
            } else {
                assert(r[i] == s[i - 1] && r[j] == s[j - 1]);
            }
        }
        assert forall|x: Seq<char>| #[trigger] r.contains(x) <==> (s.contains(x) || x == name) by {
            if r.contains(x) {
                let k = choose|k: int| 0 <= k < r.len() && r[k] == x;
                if k < p {
                    assert(s[k] == x);
                } else if k > p {
                    assert(s[k - 1] == x);
                }
            }
            if s.contains(x) {
                let k = choose|k: int| 0 <= k < s.len() && s[k] == x;
                if k < p {
                    assert(r[k] == x);
                } else {
                    assert(r[k + 1] == x);
                }
            }
            if x == name {
                assert(r[p] == x);
            }
        }
    }
}

/// Law: adding names one by one to an empty list (a `BTreeSet`), or sorting them and
/// dropping repeats, gives them in strictly increasing string order, each name given and
/// no other.
pub proof fn law_insert_names(names: Seq<Seq<char>>)
    ensures
        names_increasing(insert_names(Seq::empty(), names)),
        forall|x: Seq<char>|
            #[trigger] insert_names(Seq::empty(), names).contains(x) <==> names.contains(x),
    decreases names.len(),
{
    if names.len() > 0 {
        let ns = names.drop_last();
        law_insert_names(ns);
        lemma_insert_name(insert_names(Seq::empty(), ns), names.last());
        assert forall|x: Seq<char>| #[trigger] insert_names(Seq::empty(), names).contains(x) <==> names.contains(x) by {
            if ns.contains(x) {
                let k = choose|k: int| 0 <= k < ns.len() && ns[k] == x;
                assert(names[k] == x);
            }
            if names.contains(x) {
                let k = choose|k: int| 0 <= k < names.len() && names[k] == x;
                if k < ns.len() {
                    assert(ns[k] == x);
                }
            }
        }
    }
}


pub open spec fn table_keys(t: ImportTable) -> Seq<Seq<char>> {
    t.map_values(|e: (Seq<char>, ImportRefView)| e.0)
}

/// The key an event touches.
pub open spec fn event_key(ev: ImportEvent) -> Seq<char> {
    match ev {
        ImportEvent::Touch(key, _, _) => key,
        ImportEvent::Dynamic(expr) => dynamic_key(expr),
    }
}

pub open spec fn event_keys(evs: Seq<ImportEvent>) -> Seq<Seq<char>> {
    evs.map_values(|ev: ImportEvent| event_key(ev))
}

proof fn lemma_table_pos_is_name_pos(t: ImportTable, key: Seq<char>)
    ensures
        table_pos(t, key) == name_pos(table_keys(t), key),
    decreases t.len(),
{
    if t.len() > 0 {
        lemma_table_pos_is_name_pos(t.drop_first(), key);
        assert(table_keys(t.drop_first()) =~= table_keys(t).drop_first());
    }
}

proof fn lemma_apply_event_keys(t: ImportTable, ev: ImportEvent)
    ensures
        table_keys(apply_event(t, ev)) == insert_name(table_keys(t), event_key(ev)),
{
    let key = event_key(ev);
    lemma_table_pos_is_name_pos(t, key);
    let i = table_pos(t, key);
    lemma_name_pos(table_keys(t), key);
    if i < t.len() && t[i].0 == key {
        assert(table_keys(apply_event(t, ev)) =~= table_keys(t));
    } else {
        assert(table_keys(apply_event(t, ev)) =~= table_keys(t).insert(i, key));
    }
}

proof fn lemma_apply_events_keys(evs: Seq<ImportEvent>)
    ensures
        table_keys(apply_events(Seq::empty(), evs)) == insert_names(Seq::empty(), event_keys(evs)),
    decreases evs.len(),
{
    if evs.len() > 0 {
        lemma_apply_events_keys(evs.drop_last());
        lemma_apply_event_keys(apply_events(Seq::empty(), evs.drop_last()), evs.last());
        assert(event_keys(evs).drop_last() =~= event_keys(evs.drop_last()));
    } else {
        assert(table_keys(Seq::empty()) =~= Seq::<Seq<char>>::empty());
    }
}

/// Law: the import table built from events (a `BTreeMap` keyed by specifier) holds its
/// keys in strictly increasing string order, one entry for each key an event touched and
/// no other.
pub proof fn law_import_table(evs: Seq<ImportEvent>)
    ensures
        names_increasing(table_keys(apply_events(Seq::empty(), evs))),
        forall|x: Seq<char>|
            #[trigger] table_keys(apply_events(Seq::empty(), evs)).contains(x) <==> event_keys(
                evs,
            ).contains(x),
{
    lemma_apply_events_keys(evs);
    law_insert_names(event_keys(evs));
}

/// The beginnings that make a trimmed line unable to run code by itself.
pub open spec fn inert_beginnings() -> Seq<Seq<char>> {
    seq![
        "//"@,
        "/*"@,
        "*"@,
        "import "@,
        "export "@,
        "type "@,
        "interface "@,
        "enum "@,
        "const "@,
        "let "@,
        "var "@,
        "function "@,
        "class "@,
    ]
}

/// Law: a source may have side effects exactly when one of its lines, trimmed, is not
/// empty and begins with none of the inert beginnings (comments, `import`, `export`,
/// `type`, `interface`, `enum`, `const`, `let`, `var`, `function`, `class`): a source made
/// only of such lines is safe to remove.
pub proof fn law_side_effects_by_lines(source: Seq<char>)
    ensures
        side_effects_possible(source) <==> exists|i: int|
            0 <= i < split_on(source, '\n').len() && trim(#[trigger] split_on(source, '\n')[i]).len()
                > 0 && forall|m: int|
                0 <= m < inert_beginnings().len() ==> !starts_with(
                    trim(split_on(source, '\n')[i]),
                    #[trigger] inert_beginnings()[m],
                ),
{
    let lines = split_on(source, '\n');
    let pv = inert_beginnings();
    assert forall|i: int| 0 <= i < lines.len() implies (line_is_inert(#[trigger] lines[i]) <==> (
    trim(lines[i]).len() == 0 || exists|m: int| 0 <= m < pv.len() && starts_with(trim(lines[i]), #[trigger] pv[m]))) by {
        let l = trim(lines[i]);
        if line_is_inert(lines[i]) && l.len() > 0 {
            if starts_with(l, "//"@) { assert(starts_with(l, pv[0])); }
            else if starts_with(l, "/*"@) { assert(starts_with(l, pv[1])); }
            else if starts_with(l, "*"@) { assert(starts_with(l, pv[2])); }
            else if starts_with(l, "import "@) { assert(starts_with(l, pv[3])); }
            else if starts_with(l, "export "@) { assert(starts_with(l, pv[4])); }
            else if starts_with(l, "type "@) { assert(starts_with(l, pv[5])); }
            else if starts_with(l, "interface "@) { assert(starts_with(l, pv[6])); }
            else if starts_with(l, "enum "@) { assert(starts_with(l, pv[7])); }
            else if starts_with(l, "const "@) { assert(starts_with(l, pv[8])); }
            else if starts_with(l, "let "@) { assert(starts_with(l, pv[9])); }
            else if starts_with(l, "var "@) { assert(starts_with(l, pv[10])); }
            else if starts_with(l, "function "@) { assert(starts_with(l, pv[11])); }
            else { assert(starts_with(l, pv[12])); }
        }
        if exists|m: int| 0 <= m < pv.len() && starts_with(l, #[trigger] pv[m]) {
            let m = choose|m: int| 0 <= m < pv.len() && starts_with(l, #[trigger] pv[m]);
            assert(0 <= m < 13);
            if m == 0 { assert(starts_with(l, "//"@)); }
            else if m == 1 { assert(starts_with(l, "/*"@)); }
            else if m == 2 { assert(starts_with(l, "*"@)); }
            else if m == 3 { assert(starts_with(l, "import "@)); }
            else if m == 4 { assert(starts_with(l, "export "@)); }
            else if m == 5 { assert(starts_with(l, "type "@)); }
            else if m == 6 { assert(starts_with(l, "interface "@)); }
            else if m == 7 { assert(starts_with(l, "enum "@)); }
            else if m == 8 { assert(starts_with(l, "const "@)); }
            else if m == 9 { assert(starts_with(l, "let "@)); }
            else if m == 10 { assert(starts_with(l, "var "@)); }
            else if m == 11 { assert(starts_with(l, "function "@)); }
            else { assert(starts_with(l, "class "@)); }
        }
    }
    if side_effects_possible(source) {
        let i = choose|i: int| 0 <= i < lines.len() && !line_is_inert(#[trigger] lines[i]);
        assert(trim(lines[i]).len() > 0);
        assert forall|m: int| 0 <= m < pv.len() implies !starts_with(trim(lines[i]), #[trigger] pv[m]) by {
        }
    }
    if exists|i: int|
        0 <= i < lines.len() && trim(#[trigger] lines[i]).len() > 0 && forall|m: int|
            0 <= m < pv.len() ==> !starts_with(trim(lines[i]), #[trigger] pv[m]) {
        let i = choose|i: int|
            0 <= i < lines.len() && trim(#[trigger] lines[i]).len() > 0 && forall|m: int|
                0 <= m < pv.len() ==> !starts_with(trim(lines[i]), #[trigger] pv[m]);
        assert(!line_is_inert(lines[i]));
    }
}

} // verus!
