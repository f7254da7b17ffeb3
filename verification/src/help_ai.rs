//! The command-line help as data, for tools: the program's or a subcommand's name,
//! description, usage, subcommands, flags, examples and exit codes.
use vstd::prelude::*;

use crate::text::{chars_eq, chars_of, owned, string_views};

verus! {

broadcast use vstd::string::group_string_axioms;

/// A subcommand and what it does.
pub struct Sub {
    pub name: String,
    pub desc: String,
}

/// A flag: its name, short form, value type, default, whether it is required, the values
/// it accepts, and what it does.
pub struct Flag {
    pub name: String,
    pub short: Option<String>,
    pub value_type: String,
    pub default: Option<String>,
    pub required: bool,
    pub choices: Option<Vec<String>>,
    pub desc: String,
}

/// An exit code and its meaning.
pub struct ExitCode {
    pub code: i32,
    pub meaning: String,
}

/// The help of the program or of a subcommand: name, description, usage, subcommands,
/// flags, examples, exit codes.
pub struct HelpSchema {
    pub n: String,
    pub d: String,
    pub u: String,
    pub s: Vec<Sub>,
    pub f: Vec<Flag>,
    pub e: Vec<String>,
    pub x: Vec<ExitCode>,
}

pub type SubView = (Seq<char>, Seq<char>);

pub type ExitCodeView = (i32, Seq<char>);

pub struct FlagView {
    pub name: Seq<char>,
    pub short: Option<Seq<char>>,
    pub value_type: Seq<char>,
    pub default: Option<Seq<char>>,
    pub required: bool,
    pub choices: Option<Seq<Seq<char>>>,
    pub desc: Seq<char>,
}

pub struct HelpSchemaView {
    pub n: Seq<char>,
    pub d: Seq<char>,
    pub u: Seq<char>,
    pub s: Seq<SubView>,
    pub f: Seq<FlagView>,
    pub e: Seq<Seq<char>>,
    pub x: Seq<ExitCodeView>,
}

pub open spec fn opt_chars_of(o: Option<String>) -> Option<Seq<char>> {
    match o {
        Some(s) => Some(s@),
        None => None,
    }
}

impl View for Flag {
    type V = FlagView;

    open spec fn view(&self) -> FlagView {
        FlagView {
            name: self.name@,
            short: opt_chars_of(self.short),
            value_type: self.value_type@,
            default: opt_chars_of(self.default),
            required: self.required,
            choices: match self.choices {
                Some(c) => Some(string_views(c@)),
                None => None,
            },
            desc: self.desc@,
        }
    }
}

impl View for HelpSchema {
    type V = HelpSchemaView;

    open spec fn view(&self) -> HelpSchemaView {
        HelpSchemaView {
            n: self.n@,
            d: self.d@,
            u: self.u@,
            s: self.s@.map_values(|x: Sub| (x.name@, x.desc@)),
            f: self.f@.map_values(|x: Flag| x@),
            e: string_views(self.e@),
            x: self.x@.map_values(|x: ExitCode| (x.code, x.meaning@)),
        }
    }
}

/// An optional flag without a short form.
pub open spec fn flag_view(
    name: Seq<char>,
    value_type: Seq<char>,
    default: Option<Seq<char>>,
    choices: Option<Seq<Seq<char>>>,
    desc: Seq<char>,
) -> FlagView {
    FlagView { name, short: None, value_type, default, required: false, choices, desc }
}

/// The flags that every command takes.
pub open spec fn global_flags_view() -> Seq<FlagView> {
    seq![
        flag_view("config"@, "path"@, None, None, "Path to config file."@),
        flag_view(
            "format"@,
            "string"@,
            Some("human"@),
            Some(seq!["human"@, "ai"@]),
            "Output format."@,
        ),
        flag_view(
            "color"@,
            "string"@,
            Some("auto"@),
            Some(seq!["auto"@, "always"@, "never"@]),
            "Color policy."@,
        ),
        flag_view("entry"@, "path[]"@, None, None, "Explicit entry file(s)."@),
        flag_view(
            "include"@,
            "glob[]"@,
            Some("src/**/*.{js,ts,jsx,tsx}"@),
            None,
            "Include glob(s)."@,
        ),
        flag_view("exclude"@, "glob[]"@, None, None, "Exclude glob(s)."@),
        flag_view("max-workers"@, "int"@, None, None, "Maximum worker threads."@),
        flag_view(
            "fail-on-findings"@,
            "bool"@,
            Some("false"@),
            None,
            "Exit non-zero when findings exist."@,
        ),
    ]
}

pub open spec fn exit_codes_view() -> Seq<ExitCodeView> {
    seq![
        (0i32, "Success"@),
        (1i32, "Findings present with --fail-on-findings or runtime error"@),
        (2i32, "Invalid CLI usage"@),
    ]
}

pub open spec fn root_schema_view() -> HelpSchemaView {
    HelpSchemaView {
        n: "unused-buddy"@,
        d: "Find, list, and safely remove unused JS/TS code"@,
        u: "unused-buddy [GLOBAL OPTIONS] <COMMAND> [ARGS]"@,
        s: seq![
            ("scan"@, "Scan project and print findings."@),
            ("list"@, "List findings (human mode by default)."@),
            ("remove"@, "Remove safe unreachable files."@),
            ("help"@, "Show command help."@),
        ],
        f: global_flags_view(),
        e: seq![
            "unused-buddy scan"@,
            "unused-buddy scan . --format ai"@,
            "unused-buddy remove . --fix --yes"@,
        ],
        x: exit_codes_view(),
    }
}

pub open spec fn scan_schema_view() -> HelpSchemaView {
    HelpSchemaView {
        n: "scan"@,
        d: "Scan project and print findings."@,
        u: "unused-buddy scan [path] [GLOBAL OPTIONS]"@,
        s: Seq::empty(),
        f: global_flags_view(),
        e: seq!["unused-buddy scan ."@, "unused-buddy scan . --fail-on-findings"@],
        x: exit_codes_view(),
    }
}

pub open spec fn list_schema_view() -> HelpSchemaView {
    HelpSchemaView {
        n: "list"@,
        d: "List findings (human mode by default)."@,
        u: "unused-buddy list [path] [GLOBAL OPTIONS]"@,
        s: Seq::empty(),
        f: global_flags_view(),
        e: seq!["unused-buddy list ."@],
        x: exit_codes_view(),
    }
}

pub open spec fn remove_schema_view() -> HelpSchemaView {
    HelpSchemaView {
        n: "remove"@,
        d: "Remove safe unreachable files."@,
        u: "unused-buddy remove [path] [GLOBAL OPTIONS] [--fix] [--yes]"@,
        s: Seq::empty(),
        f: global_flags_view() + seq![
            flag_view("fix"@, "bool"@, Some("false"@), None, "Apply removal changes to disk."@),
            flag_view("yes"@, "bool"@, Some("false"@), None, "Skip interactive confirmation."@),
        ],
        e: seq!["unused-buddy remove ."@, "unused-buddy remove . --fix --yes"@],
        x: exit_codes_view(),
    }
}

/// The help of the named subcommand (`scan`, `list` or `remove`); of the program for any
/// other name or none.
pub open spec fn schema_view_for(sub: Option<Seq<char>>) -> HelpSchemaView {
    if sub == Some("scan"@) {
        scan_schema_view()
    } else if sub == Some("list"@) {
        list_schema_view()
    } else if sub == Some("remove"@) {
        remove_schema_view()
    } else {
        root_schema_view()
    }
}

fn subcommand(name: &str, desc: &str) -> (r: Sub)
    ensures
        r.name@ == name@,
        r.desc@ == desc@,
{
    Sub { name: owned(name), desc: owned(desc) }
}

fn flag(name: &str, value_type: &str, default: Option<&str>, choices: Option<Vec<String>>, desc: &str) -> (r: Flag)
    ensures
        r@ == flag_view(
            name@,
            value_type@,
            match default {
                Some(d) => Some(d@),
                None => None,
            },
            match choices {
                Some(c) => Some(string_views(c@)),
                None => None,
            },
            desc@,
        ),
{
    Flag {
        name: owned(name),
        short: None,
        value_type: owned(value_type),
        default: match default {
            Some(d) => Some(owned(d)),
            None => None,
        },
        required: false,
        choices,
        desc: owned(desc),
    }
}

fn global_flags() -> (r: Vec<Flag>)
    ensures
        r@.map_values(|x: Flag| x@) == global_flags_view(),
{
    let formats = vec![owned("human"), owned("ai")];
    let policies = vec![owned("auto"), owned("always"), owned("never")];
    proof {
        assert(string_views(formats@) =~= seq!["human"@, "ai"@]);
        assert(string_views(policies@) =~= seq!["auto"@, "always"@, "never"@]);
    }
    let r = vec![
        flag("config", "path", None, None, "Path to config file."),
        flag("format", "string", Some("human"), Some(formats), "Output format."),
        flag("color", "string", Some("auto"), Some(policies), "Color policy."),
        flag("entry", "path[]", None, None, "Explicit entry file(s)."),
        flag("include", "glob[]", Some("src/**/*.{js,ts,jsx,tsx}"), None, "Include glob(s)."),
        flag("exclude", "glob[]", None, None, "Exclude glob(s)."),
        flag("max-workers", "int", None, None, "Maximum worker threads."),
        flag("fail-on-findings", "bool", Some("false"), None, "Exit non-zero when findings exist."),
    ];
    proof {
        assert(r@.map_values(|x: Flag| x@) =~= global_flags_view());
    }
    r
}

fn exit_codes() -> (r: Vec<ExitCode>)
    ensures
        r@.map_values(|x: ExitCode| (x.code, x.meaning@)) == exit_codes_view(),
{
    let r = vec![
        ExitCode { code: 0, meaning: owned("Success") },
        ExitCode { code: 1, meaning: owned("Findings present with --fail-on-findings or runtime error") },
        ExitCode { code: 2, meaning: owned("Invalid CLI usage") },
    ];
    proof {
        assert(r@.map_values(|x: ExitCode| (x.code, x.meaning@)) =~= exit_codes_view());
    }
    r
}

fn root_schema() -> (r: HelpSchema)
    ensures
        r@ == root_schema_view(),
{
    let s = vec![
        subcommand("scan", "Scan project and print findings."),
        subcommand("list", "List findings (human mode by default)."),
        subcommand("remove", "Remove safe unreachable files."),
        subcommand("help", "Show command help."),
    ];
    let e = vec![
        owned("unused-buddy scan"),
        owned("unused-buddy scan . --format ai"),
        owned("unused-buddy remove . --fix --yes"),
    ];
    let r = HelpSchema {
        n: owned("unused-buddy"),
        d: owned("Find, list, and safely remove unused JS/TS code"),
        u: owned("unused-buddy [GLOBAL OPTIONS] <COMMAND> [ARGS]"),
        s,
        f: global_flags(),
        e,
        x: exit_codes(),
    };
    proof {
        assert(r@.s =~= root_schema_view().s);
        assert(r@.e =~= root_schema_view().e);
    }
    r
}

fn scan_schema() -> (r: HelpSchema)
    ensures
        r@ == scan_schema_view(),
{
    let e = vec![owned("unused-buddy scan ."), owned("unused-buddy scan . --fail-on-findings")];
    let r = HelpSchema {
        n: owned("scan"),
        d: owned("Scan project and print findings."),
        u: owned("unused-buddy scan [path] [GLOBAL OPTIONS]"),
        s: Vec::new(),
        f: global_flags(),
        e,
        x: exit_codes(),
    };
    proof {
        assert(r@.s =~= scan_schema_view().s);
        assert(r@.e =~= scan_schema_view().e);
    }
    r
}

fn list_schema() -> (r: HelpSchema)
    ensures
        r@ == list_schema_view(),
{
    let e = vec![owned("unused-buddy list .")];
    let r = HelpSchema {
        n: owned("list"),
        d: owned("List findings (human mode by default)."),
        u: owned("unused-buddy list [path] [GLOBAL OPTIONS]"),
        s: Vec::new(),
        f: global_flags(),
        e,
        x: exit_codes(),
    };
    proof {
        assert(r@.s =~= list_schema_view().s);
        assert(r@.e =~= list_schema_view().e);
    }
    r
}

fn remove_schema() -> (r: HelpSchema)
    ensures
        r@ == remove_schema_view(),
{
    let mut flags = global_flags();
    let ghost g = flags@.map_values(|x: Flag| x@);
    flags.push(flag("fix", "bool", Some("false"), None, "Apply removal changes to disk."));
    flags.push(flag("yes", "bool", Some("false"), None, "Skip interactive confirmation."));
    let e = vec![owned("unused-buddy remove ."), owned("unused-buddy remove . --fix --yes")];
    let r = HelpSchema {
        n: owned("remove"),
        d: owned("Remove safe unreachable files."),
        u: owned("unused-buddy remove [path] [GLOBAL OPTIONS] [--fix] [--yes]"),
        s: Vec::new(),
        f: flags,
        e,
        x: exit_codes(),
    };
    proof {
        assert(r@.s =~= remove_schema_view().s);
        assert(r@.e =~= remove_schema_view().e);
        assert(r@.f =~= remove_schema_view().f);
    }
    r
}

fn is_str(s: &str, lit: &str) -> (r: bool)
    ensures
        r == (s@ == lit@),
{
    chars_eq(&chars_of(s), &chars_of(lit))
}

pub open spec fn opt_str_view(o: Option<&str>) -> Option<Seq<char>> {
    match o {
        Some(s) => Some(s@),
        None => None,
    }
}

/// The help of the named subcommand (`scan`, `list` or `remove`); of the program for any
/// other name or none.
pub fn schema_for(subcommand: Option<&str>) -> (r: HelpSchema)
    ensures
        r@ == schema_view_for(opt_str_view(subcommand)),
{
    match subcommand {
        Some(name) => {
            if is_str(name, "scan") {
                scan_schema()
            } else if is_str(name, "list") {
                list_schema()
            } else if is_str(name, "remove") {
                remove_schema()
            } else {
                root_schema()
            }
        },
        None => root_schema(),
    }
}

} // verus!
