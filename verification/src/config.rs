//! The settings a run works with: the command line's over the configuration file's, over
//! the defaults.
use vstd::prelude::*;

use crate::color::ColorPolicy;
use crate::run::Cli;
use crate::model::OutputFormat;
use crate::module::{insert_name_exec, insert_names, into_strings};
use crate::text::{chars_of, owned, string_views};

verus! {

broadcast use vstd::string::group_string_axioms;

/// What the configuration file sets; each field may be missing.
pub struct FileConfig {
    pub include_globs: Option<Vec<String>>,
    pub exclude: Option<Vec<String>>,
    pub entry: Option<Vec<String>>,
    pub extensions: Option<Vec<String>>,
    pub max_workers: Option<usize>,
    pub format: Option<String>,
    pub color: Option<String>,
    pub fix_mode: Option<String>,
}

impl Default for FileConfig {
    /// A configuration file that sets nothing.
    fn default() -> (r: FileConfig)
        ensures
            r.include_globs is None && r.exclude is None && r.entry is None && r.extensions is None
                && r.max_workers is None && r.format is None && r.color is None
                && r.fix_mode is None,
    {
        FileConfig {
            include_globs: None,
            exclude: None,
            entry: None,
            extensions: None,
            max_workers: None,
            format: None,
            color: None,
            fix_mode: None,
        }
    }
}

/// The settings of a run.
#[derive(Clone, Debug)]
pub struct EffectiveConfig {
    pub include_globs: Vec<String>,
    pub exclude: Vec<String>,
    pub entry: Vec<String>,
    pub extensions: Vec<String>,
    pub max_workers: Option<usize>,
    pub format: OutputFormat,
    pub color: ColorPolicy,
    pub fix_mode: String,
}

pub open spec fn default_include() -> Seq<Seq<char>> {
    seq!["src/**/*.{js,ts,jsx,tsx}"@]
}

pub open spec fn default_exclude() -> Seq<Seq<char>> {
    seq![
        "node_modules/**"@,
        "dist/**"@,
        "build/**"@,
        "coverage/**"@,
        ".next/**"@,
        "out/**"@,
        "**/*.d.ts"@,
        "**/*.test.*"@,
        "**/*.spec.*"@,
        "**/__tests__/**"@,
    ]
}

pub open spec fn default_extensions() -> Seq<Seq<char>> {
    seq!["js"@, "ts"@, "jsx"@, "tsx"@]
}

pub open spec fn format_named(v: Option<Seq<char>>) -> Option<OutputFormat> {
    if v == Some("ai"@) {
        Some(OutputFormat::Ai)
    } else if v == Some("human"@) {
        Some(OutputFormat::Human)
    } else {
        None
    }
}

pub open spec fn color_named(v: Option<Seq<char>>) -> Option<ColorPolicy> {
    if v == Some("always"@) {
        Some(ColorPolicy::Always)
    } else if v == Some("never"@) {
        Some(ColorPolicy::Never)
    } else if v == Some("auto"@) {
        Some(ColorPolicy::Auto)
    } else {
        None
    }
}

pub open spec fn opt_strings(v: Option<Vec<String>>) -> Option<Seq<Seq<char>>> {
    match v {
        Some(x) => Some(string_views(x@)),
        None => None,
    }
}

pub open spec fn opt_string(v: Option<String>) -> Option<Seq<char>> {
    match v {
        Some(x) => Some(x@),
        None => None,
    }
}

/// A list from the command line when it has any item, else the file's, else the default.
pub open spec fn layered(cli: Seq<Seq<char>>, file: Option<Seq<Seq<char>>>, dflt: Seq<Seq<char>>) -> Seq<
    Seq<char>,
> {
    if cli.len() > 0 {
        cli
    } else {
        match file {
            Some(f) => f,
            None => dflt,
        }
    }
}

fn str_is(v: &String, lit: &str) -> (r: bool)
    ensures
        r == (v@ == lit@),
{
    crate::text::chars_eq(&chars_of(v.as_str()), &chars_of(lit))
}

/// The output format a configuration value names: `ai` or `human`.
pub fn parse_format(v: Option<&String>) -> (r: Option<OutputFormat>)
    ensures
        r == format_named(
            match v {
                Some(s) => Some(s@),
                None => None,
            },
        ),
{
    match v {
        Some(s) => {
            if str_is(s, "ai") {
                Some(OutputFormat::Ai)
            } else if str_is(s, "human") {
                Some(OutputFormat::Human)
            } else {
                None
            }
        },
        None => None,
    }
}

/// The color policy a configuration value names: `always`, `never` or `auto`.
pub fn parse_color(v: Option<&String>) -> (r: Option<ColorPolicy>)
    ensures
        r == color_named(
            match v {
                Some(s) => Some(s@),
                None => None,
            },
        ),
{
    match v {
        Some(s) => {
            if str_is(s, "always") {
                Some(ColorPolicy::Always)
            } else if str_is(s, "never") {
                Some(ColorPolicy::Never)
            } else if str_is(s, "auto") {
                Some(ColorPolicy::Auto)
            } else {
                None
            }
        },
        None => None,
    }
}

/// The patterns excluded when neither the command line nor the file names any.
pub fn default_excludes() -> (r: Vec<String>)
    ensures
        string_views(r@) == default_exclude(),
{
    let r = vec![
        owned("node_modules/**"),
        owned("dist/**"),
        owned("build/**"),
        owned("coverage/**"),
        owned(".next/**"),
        owned("out/**"),
        owned("**/*.d.ts"),
        owned("**/*.test.*"),
        owned("**/*.spec.*"),
        owned("**/__tests__/**"),
    ];
    proof {
        assert(string_views(r@) =~= default_exclude());
    }
    r
}

fn default_include_list() -> (r: Vec<String>)
    ensures
        string_views(r@) == default_include(),
{
    let r = vec![owned("src/**/*.{js,ts,jsx,tsx}")];
    proof {
        assert(string_views(r@) =~= default_include());
    }
    r
}

fn default_extension_list() -> (r: Vec<String>)
    ensures
        string_views(r@) == default_extensions(),
{
    let r = vec![owned("js"), owned("ts"), owned("jsx"), owned("tsx")];
    proof {
        assert(string_views(r@) =~= default_extensions());
    }
    r
}

pub(crate) fn copy_strings(v: &Vec<String>) -> (r: Vec<String>)
    ensures
        string_views(r@) == string_views(v@),
{
    let mut out: Vec<String> = Vec::new();
    let mut k: usize = 0;
    while k < v.len()
        invariant
            k <= v@.len(),
            out@.len() == k,
            forall|i: int| 0 <= i < k ==> #[trigger] out@[i]@ == v@[i]@,
        decreases v@.len() - k,
    {
        out.push(owned(v[k].as_str()));
        k = k + 1;
    }
    proof {
        assert(string_views(out@) =~= string_views(v@));
    }
    out
}

fn pick_list(cli: &Vec<String>, file: Option<Vec<String>>, dflt: Vec<String>) -> (r: Vec<String>)
    ensures
        string_views(r@) == layered(string_views(cli@), opt_strings(file), string_views(dflt@)),
{
    if cli.len() > 0 {
        copy_strings(cli)
    } else {
        match file {
            Some(f) => f,
            None => dflt,
        }
    }
}

/// Sorts the names and drops repeats (`sort` then `dedup` on a `Vec<String>`).
fn sorted_unique(v: &Vec<String>) -> (r: Vec<String>)
    ensures
        string_views(r@) == insert_names(Seq::empty(), string_views(v@)),
{
    let mut names: Vec<Vec<char>> = Vec::new();
    let ghost sv = string_views(v@);
    let mut k: usize = 0;
    proof {
        assert(names@.map_values(|x: Vec<char>| x@) =~= insert_names(Seq::empty(), sv.take(0)));
    }
    while k < v.len()
        invariant
            k <= v@.len(),
            sv == string_views(v@),
            names@.map_values(|x: Vec<char>| x@) == insert_names(Seq::empty(), sv.take(k as int)),
        decreases v@.len() - k,
    {
        proof {
            assert(sv.take(k as int + 1).drop_last() =~= sv.take(k as int));
            assert(sv.take(k as int + 1).last() == v@[k as int]@);
        }
        insert_name_exec(&mut names, &chars_of(v[k].as_str()));
        k = k + 1;
    }
    proof {
        assert(sv.take(v@.len() as int) =~= sv);
    }
    let r = into_strings(names);
    proof {
        assert(string_views(r@) == r@.map_values(|s: String| s@));
    }
    r
}

impl EffectiveConfig {
    /// The settings of a run from the command line's options and the configuration file's
    /// values: for `include_globs`, `exclude` and `entry` the command line's list when it has any
    /// item, else the file's, else the default; the extensions sorted without repeats; the
    /// format and color from the command line, else the value the file names, else `human`
    /// and `auto`; `fix_mode` from the file, else `files_only`.
    pub fn from_sources(cli: &Cli, file: FileConfig) -> (r: EffectiveConfig)
        ensures
            string_views(r.include_globs@) == layered(
                string_views(cli.include_globs@),
                opt_strings(file.include_globs),
                default_include(),
            ),
            string_views(r.exclude@) == layered(
                string_views(cli.exclude@),
                opt_strings(file.exclude),
                default_exclude(),
            ),
            string_views(r.entry@) == layered(
                string_views(cli.entry@),
                opt_strings(file.entry),
                Seq::empty(),
            ),
            string_views(r.extensions@) == insert_names(
                Seq::empty(),
                match opt_strings(file.extensions) {
                    Some(e) => e,
                    None => default_extensions(),
                },
            ),
            r.max_workers == match cli.max_workers {
                Some(n) => Some(n),
                None => file.max_workers,
            },
            r.format == match cli.format {
                Some(f) => f,
                None => match format_named(opt_string(file.format)) {
                    Some(f) => f,
                    None => OutputFormat::Human,
                },
            },
            r.color == match cli.color {
                Some(c) => c,
                None => match color_named(opt_string(file.color)) {
                    Some(c) => c,
                    None => ColorPolicy::Auto,
                },
            },
            r.fix_mode@ == match opt_string(file.fix_mode) {
                Some(m) => m,
                None => "files_only"@,
            },
    {
        let include_globs = pick_list(&cli.include_globs, file.include_globs, default_include_list());
        let exclude = pick_list(&cli.exclude, file.exclude, default_excludes());
        let entry = pick_list(&cli.entry, file.entry, Vec::new());
        proof {
            assert(string_views(Seq::<String>::empty()) =~= Seq::<Seq<char>>::empty());
        }
        let exts = match file.extensions {
            Some(e) => e,
            None => default_extension_list(),
        };
        let extensions = sorted_unique(&exts);
        let format = match cli.format {
            Some(f) => f,
            None => match parse_format(file.format.as_ref()) {
                Some(f) => f,
                None => OutputFormat::Human,
            },
        };
        let color = match cli.color {
            Some(c) => c,
            None => match parse_color(file.color.as_ref()) {
                Some(c) => c,
                None => ColorPolicy::Auto,
            },
        };
        let max_workers = match cli.max_workers {
            Some(n) => Some(n),
            None => file.max_workers,
        };
        let fix_mode = match file.fix_mode {
            Some(m) => m,
            None => owned("files_only"),
        };
        EffectiveConfig { include_globs, exclude, entry, extensions, max_workers, format, color, fix_mode }
    }
}

} // verus!
