//! The text of a scan's report and of a removal's summary, for people: one line per
//! finding, then a summary; colored with ANSI codes from `owo-colors` when asked.
use vstd::prelude::*;

use owo_colors::OwoColorize;

use crate::analyzer::ScanResult;
use crate::model::{findings_view, Finding, FindingKind, FindingView, RemoveSummary};
use crate::text::{chars_of, concat_chars, owned, string_from_chars, string_views};

verus! {

broadcast use vstd::string::group_string_axioms;

/// The text of `Display` for an `owo-colors` foreground color with the given ANSI code:
/// the code's escape, the text, and the escape back to the default color.
pub open spec fn fg(code: Seq<char>, text: Seq<char>) -> Seq<char> {
    "\u{1b}["@ + code + "m"@ + text + "\u{1b}[39m"@
}

/// The text of `Display` for `owo-colors`' bold style.
pub open spec fn bold(text: Seq<char>) -> Seq<char> {
    "\u{1b}[1m"@ + text + "\u{1b}[0m"@
}

/// `OwoColorize::red` on a string, displayed.
#[verifier::external_body]
fn paint_red(text: &str) -> (r: String)
    ensures
        r@ == fg("31"@, text@),
{
    text.red().to_string()
}

/// `OwoColorize::green` on a string, displayed.
#[verifier::external_body]
fn paint_green(text: &str) -> (r: String)
    ensures
        r@ == fg("32"@, text@),
{
    text.green().to_string()
}

/// `OwoColorize::yellow` on a string, displayed.
#[verifier::external_body]
fn paint_yellow(text: &str) -> (r: String)
    ensures
        r@ == fg("33"@, text@),
{
    text.yellow().to_string()
}

/// `OwoColorize::blue` on a string, displayed.
#[verifier::external_body]
fn paint_blue(text: &str) -> (r: String)
    ensures
        r@ == fg("34"@, text@),
{
    text.blue().to_string()
}

/// `OwoColorize::magenta` on a string, displayed.
#[verifier::external_body]
fn paint_magenta(text: &str) -> (r: String)
    ensures
        r@ == fg("35"@, text@),
{
    text.magenta().to_string()
}

/// `OwoColorize::cyan` on a string, displayed.
#[verifier::external_body]
fn paint_cyan(text: &str) -> (r: String)
    ensures
        r@ == fg("36"@, text@),
{
    text.cyan().to_string()
}

/// `OwoColorize::bright_white` on a string, displayed.
#[verifier::external_body]
fn paint_bright_white(text: &str) -> (r: String)
    ensures
        r@ == fg("97"@, text@),
{
    text.bright_white().to_string()
}

/// `OwoColorize::bold` on a string, displayed.
#[verifier::external_body]
fn paint_bold(text: &str) -> (r: String)
    ensures
        r@ == bold(text@),
{
    text.bold().to_string()
}

/// The decimal digit of `d`, for `d` below ten.
pub open spec fn digit(d: int) -> char {
    if d == 0 {
        '0'
    } else if d == 1 {
        '1'
    } else if d == 2 {
        '2'
    } else if d == 3 {
        '3'
    } else if d == 4 {
        '4'
    } else if d == 5 {
        '5'
    } else if d == 6 {
        '6'
    } else if d == 7 {
        '7'
    } else if d == 8 {
        '8'
    } else {
        '9'
    }
}

/// The decimal digits of `n`, without leading zeros.
pub open spec fn decimal(n: nat) -> Seq<char>
    decreases n,
{
    if n < 10 {
        seq![digit(n as int)]
    } else {
        decimal(n / 10).push(digit((n % 10) as int))
    }
}

fn digit_exec(d: usize) -> (c: char)
    requires
        d < 10,
    ensures
        c == digit(d as int),
{
    if d == 0 {
        '0'
    } else if d == 1 {
        '1'
    } else if d == 2 {
        '2'
    } else if d == 3 {
        '3'
    } else if d == 4 {
        '4'
    } else if d == 5 {
        '5'
    } else if d == 6 {
        '6'
    } else if d == 7 {
        '7'
    } else if d == 8 {
        '8'
    } else {
        '9'
    }
}

fn decimal_chars(n: usize) -> (r: Vec<char>)
    ensures
        r@ == decimal(n as nat),
    decreases n,
{
    if n < 10 {
        let mut r: Vec<char> = Vec::new();
        r.push(digit_exec(n));
        proof {
            assert(r@ =~= decimal(n as nat));
        }
        r
    } else {
        let mut r = decimal_chars(n / 10);
        r.push(digit_exec(n % 10));
        r
    }
}

/// The decimal digits of `n`, as `usize`'s `Display` writes them.
fn usize_text(n: usize) -> (r: String)
    ensures
        r@ == decimal(n as nat),
{
    string_from_chars(&decimal_chars(n))
}

pub open spec fn bool_text(b: bool) -> Seq<char> {
    if b {
        "true"@
    } else {
        "false"@
    }
}

/// The tag of a kind of finding.
pub open spec fn tag(kind: FindingKind) -> Seq<char> {
    match kind {
        FindingKind::UnreachableFile => "[UF]"@,
        FindingKind::UnusedExport => "[UE]"@,
        FindingKind::Uncertain => "[UC]"@,
    }
}

/// The tag, colored: red, yellow or magenta.
pub open spec fn colored_tag(kind: FindingKind) -> Seq<char> {
    match kind {
        FindingKind::UnreachableFile => fg("31"@, "[UF]"@),
        FindingKind::UnusedExport => fg("33"@, "[UE]"@),
        FindingKind::Uncertain => fg("35"@, "[UC]"@),
    }
}

/// The line of a finding: tag, file, the symbol after a space when there is one, and the
/// reason; with color, the tag colored, the file blue and the symbol bright white.
pub open spec fn finding_line(f: FindingView, color: bool) -> Seq<char> {
    if color {
        colored_tag(f.kind) + " "@ + fg("34"@, f.file) + match f.symbol {
            Some(s) => " "@ + fg("97"@, s),
            None => Seq::empty(),
        } + " "@ + f.reason
    } else {
        tag(f.kind) + " "@ + f.file + match f.symbol {
            Some(s) => " "@ + s,
            None => Seq::empty(),
        } + " "@ + f.reason
    }
}

/// How many findings are of the kind.
pub open spec fn count_kind(fs: Seq<FindingView>, kind: FindingKind) -> nat
    decreases fs.len(),
{
    if fs.len() == 0 {
        0
    } else {
        count_kind(fs.drop_last(), kind) + if fs.last().kind == kind {
            1nat
        } else {
            0nat
        }
    }
}

/// The closing line: `No findings` (green with color) when there are none; else the counts
/// of each kind and the total, after a bold cyan `Summary` with color.
pub open spec fn closing_line(fs: Seq<FindingView>, color: bool) -> Seq<char> {
    if fs.len() == 0 {
        if color {
            fg("32"@, "No findings"@)
        } else {
            "No findings"@
        }
    } else {
        (if color {
            fg("36"@, bold("Summary"@))
        } else {
            "Summary"@
        }) + " UF="@ + decimal(count_kind(fs, FindingKind::UnreachableFile)) + " UE="@ + decimal(
            count_kind(fs, FindingKind::UnusedExport),
        ) + " UC="@ + decimal(count_kind(fs, FindingKind::Uncertain)) + " total="@ + decimal(
            fs.len(),
        )
    }
}

/// The lines of a scan's report for people: one per finding, then the closing line.
pub open spec fn report_lines(fs: Seq<FindingView>, color: bool) -> Seq<Seq<char>> {
    fs.map_values(|f: FindingView| finding_line(f, color)).push(closing_line(fs, color))
}

/// The line of a removal's summary for people; its label bold cyan with color.
pub open spec fn summary_line(s: RemoveSummary, color: bool) -> Seq<char> {
    (if color {
        fg("36"@, bold("Remove summary"@))
    } else {
        "Remove summary"@
    }) + " planned="@ + decimal(s.planned as nat) + " removed="@ + decimal(s.removed as nat)
        + " skipped_risky="@ + decimal(s.skipped_risky as nat) + " dry_run="@ + bool_text(
        s.dry_run,
    )
}

/// The code of a kind of finding in the report for tools.
pub open spec fn kind_code_of(kind: FindingKind) -> Seq<char> {
    match kind {
        FindingKind::UnusedExport => "ue"@,
        FindingKind::UnreachableFile => "uf"@,
        FindingKind::Uncertain => "uc"@,
    }
}

/// The code of a kind of finding in the report for tools: `ue`, `uf` or `uc`.
pub fn kind_code(kind: FindingKind) -> (r: String)
    ensures
        r@ == kind_code_of(kind),
{
    match kind {
        FindingKind::UnusedExport => owned("ue"),
        FindingKind::UnreachableFile => owned("uf"),
        FindingKind::Uncertain => owned("uc"),
    }
}

fn cat(a: String, b: &str) -> (r: String)
    ensures
        r@ == a@ + b@,
{
    string_from_chars(&concat_chars(&chars_of(a.as_str()), &chars_of(b)))
}

/// The line of a finding, as [`finding_line`] says.
pub fn finding_text(f: &Finding, color: bool) -> (r: String)
    ensures
        r@ == finding_line(f@, color),
{
    let label = if color {
        match f.kind {
            FindingKind::UnreachableFile => paint_red("[UF]"),
            FindingKind::UnusedExport => paint_yellow("[UE]"),
            FindingKind::Uncertain => paint_magenta("[UC]"),
        }
    } else {
        match f.kind {
            FindingKind::UnreachableFile => owned("[UF]"),
            FindingKind::UnusedExport => owned("[UE]"),
            FindingKind::Uncertain => owned("[UC]"),
        }
    };
    let file = if color {
        paint_blue(f.file.as_str())
    } else {
        owned(f.file.as_str())
    };
    let symbol = match &f.symbol {
        Some(s) => {
            if color {
                cat(owned(" "), paint_bright_white(s.as_str()).as_str())
            } else {
                cat(owned(" "), s.as_str())
            }
        },
        None => owned(""),
    };
    proof {
        reveal_strlit("");
    }
    let line = cat(cat(cat(cat(label, " "), file.as_str()), symbol.as_str()), " ");
    let r = cat(line, f.reason.as_str());
    proof {
        assert(r@ =~= finding_line(f@, color));
    }
    r
}

fn counts(fs: &Vec<Finding>) -> (r: (usize, usize, usize))
    ensures
        r.0 == count_kind(findings_view(fs@), FindingKind::UnreachableFile),
        r.1 == count_kind(findings_view(fs@), FindingKind::UnusedExport),
        r.2 == count_kind(findings_view(fs@), FindingKind::Uncertain),
{
    let ghost fv = findings_view(fs@);
    let mut uf: usize = 0;
    let mut ue: usize = 0;
    let mut uc: usize = 0;
    let mut k: usize = 0;
    proof {
        assert(fv.take(0) =~= Seq::<FindingView>::empty());
    }
    while k < fs.len()
        invariant
            k <= fs@.len(),
            fv == findings_view(fs@),
            uf == count_kind(fv.take(k as int), FindingKind::UnreachableFile),
            ue == count_kind(fv.take(k as int), FindingKind::UnusedExport),
            uc == count_kind(fv.take(k as int), FindingKind::Uncertain),
            uf + ue + uc == k,
        decreases fs@.len() - k,
    {
        proof {
            assert(fv.take(k as int + 1).drop_last() =~= fv.take(k as int));
            assert(fv.take(k as int + 1).last() == fv[k as int]);
        }
        match fs[k].kind {
            FindingKind::UnreachableFile => {
                uf = uf + 1;
            },
            FindingKind::UnusedExport => {
                ue = ue + 1;
            },
            FindingKind::Uncertain => {
                uc = uc + 1;
            },
        }
        k = k + 1;
    }
    proof {
        assert(fv.take(k as int) =~= fv);
    }
    (uf, ue, uc)
}

/// The lines of a scan's report for people, as [`report_lines`] says.
pub fn report_text(result: &ScanResult, color: bool) -> (r: Vec<String>)
    ensures
        string_views(r@) == report_lines(findings_view(result.findings@), color),
{
    let fs = &result.findings;
    let ghost fv = findings_view(fs@);
    let mut out: Vec<String> = Vec::new();
    let mut k: usize = 0;
    while k < fs.len()
        invariant
            k <= fs@.len(),
            fv == findings_view(fs@),
            out@.len() == k,
            forall|i: int| 0 <= i < k ==> #[trigger] out@[i]@ == finding_line(fv[i], color),
        decreases fs@.len() - k,
    {
        out.push(finding_text(&fs[k], color));
        k = k + 1;
    }
    let closing = if fs.len() == 0 {
        if color {
            paint_green("No findings")
        } else {
            owned("No findings")
        }
    } else {
        let (uf, ue, uc) = counts(fs);
        let label = if color {
            paint_cyan(paint_bold("Summary").as_str())
        } else {
            owned("Summary")
        };
        let t = cat(label, " UF=");
        let t = cat(t, usize_text(uf).as_str());
        let t = cat(t, " UE=");
        let t = cat(t, usize_text(ue).as_str());
        let t = cat(t, " UC=");
        let t = cat(t, usize_text(uc).as_str());
        let t = cat(t, " total=");
        cat(t, usize_text(fs.len()).as_str())
    };
    let ghost before = string_views(out@);
    out.push(closing);
    proof {
        assert(before =~= fv.map_values(|f: FindingView| finding_line(f, color)));
        assert(closing@ =~= closing_line(fv, color));
        assert(string_views(out@) =~= report_lines(fv, color));
    }
    out
}

/// The line of a removal's summary for people, as [`summary_line`] says.
pub fn summary_text(s: &RemoveSummary, color: bool) -> (r: String)
    ensures
        r@ == summary_line(*s, color),
{
    let label = if color {
        paint_cyan(paint_bold("Remove summary").as_str())
    } else {
        owned("Remove summary")
    };
    let t = cat(label, " planned=");
    let t = cat(t, usize_text(s.planned).as_str());
    let t = cat(t, " removed=");
    let t = cat(t, usize_text(s.removed).as_str());
    let t = cat(t, " skipped_risky=");
    let t = cat(t, usize_text(s.skipped_risky).as_str());
    let t = cat(t, " dry_run=");
    let r = cat(t, if s.dry_run {
        "true"
    } else {
        "false"
    });
    proof {
        assert(r@ =~= summary_line(*s, color));
    }
    r
}

// ---------------------------------------------------------------------------------------
// Color only adds escape sequences.
/// `s` holds no escape character (the first character of every ANSI escape sequence).
pub open spec fn no_escape(s: Seq<char>) -> bool {
    forall|i: int| 0 <= i < s.len() ==> s[i] != '\u{1b}'
}

/// The text of `s` outside its ANSI escape sequences, read from the left: an escape
/// character starts a sequence that runs through the next `m`. `in_escape` says whether
/// the reading starts inside such a sequence.
pub open spec fn strip_from(s: Seq<char>, in_escape: bool) -> Seq<char>
    decreases s.len(),
{
    if s.len() == 0 {
        Seq::empty()
    } else if in_escape {
        strip_from(s.drop_first(), s[0] != 'm')
    } else if s[0] == '\u{1b}' {
        strip_from(s.drop_first(), true)
    } else {
        seq![s[0]] + strip_from(s.drop_first(), false)
    }
}

/// `s` with its ANSI escape sequences removed.
pub open spec fn strip_ansi(s: Seq<char>) -> Seq<char> {
    strip_from(s, false)
}

spec fn no_m(s: Seq<char>) -> bool {
    forall|i: int| 0 <= i < s.len() ==> s[i] != 'm'
}

proof fn lemma_no_escape_concat(a: Seq<char>, b: Seq<char>)
    requires
        no_escape(a),
        no_escape(b),
    ensures
        no_escape(a + b),
{
    assert forall|i: int| 0 <= i < (a + b).len() implies (a + b)[i] != '\u{1b}' by {
        if i >= a.len() {
            assert((a + b)[i] == b[i - a.len()]);
        }
    }
}

proof fn lemma_strip_plain(a: Seq<char>, b: Seq<char>)
    requires
        no_escape(a),
    ensures
        strip_from(a + b, false) == a + strip_from(b, false),
    decreases a.len(),
{
    if a.len() == 0 {
        assert(a + b =~= b);
        assert(a + strip_from(b, false) =~= strip_from(b, false));
    } else {
        lemma_strip_plain(a.drop_first(), b);
        assert((a + b).drop_first() =~= a.drop_first() + b);
        assert((a + b)[0] == a[0]);
        assert(seq![a[0]] + (a.drop_first() + strip_from(b, false)) =~= a + strip_from(b, false));
    }
}

proof fn lemma_strip_id(a: Seq<char>)
    requires
        no_escape(a),
    ensures
        strip_ansi(a) == a,
{
    lemma_strip_plain(a, Seq::empty());
    assert(a + Seq::<char>::empty() =~= a);
}

proof fn lemma_strip_inside(c: Seq<char>, b: Seq<char>)
    requires
        no_m(c),
    ensures
        strip_from(c + b, true) == strip_from(b, true),
    decreases c.len(),
{
    if c.len() == 0 {
        assert(c + b =~= b);
    } else {
        lemma_strip_inside(c.drop_first(), b);
        assert((c + b).drop_first() =~= c.drop_first() + b);
        assert((c + b)[0] == c[0]);
    }
}

/// An escape sequence `ESC [ code m` leaves nothing behind.
proof fn lemma_strip_escape(code: Seq<char>, b: Seq<char>)
    requires
        no_m(code),
    ensures
        strip_from("\u{1b}["@ + code + "m"@ + b, false) == strip_from(b, false),
{
    reveal_strlit("\u{1b}[");
    reveal_strlit("m");
    let s = "\u{1b}["@ + code + "m"@ + b;
    let c = seq!['['] + code;
    assert(no_m(c)) by {
        assert forall|i: int| 0 <= i < c.len() implies c[i] != 'm' by {
            if i > 0 {
                assert(c[i] == code[i - 1]);
            }
        }
    }
    assert(s[0] == '\u{1b}');
    assert(s.drop_first() =~= c + ("m"@ + b));
    lemma_strip_inside(c, "m"@ + b);
    assert(("m"@ + b).drop_first() =~= b);
}

proof fn lemma_codes()
    ensures
        no_m("31"@),
        no_m("32"@),
        no_m("33"@),
        no_m("34"@),
        no_m("35"@),
        no_m("36"@),
        no_m("97"@),
        no_m("39"@),
        no_m("1"@),
        no_m("0"@),
        "\u{1b}[39m"@ == "\u{1b}["@ + "39"@ + "m"@,
        "\u{1b}[1m"@ == "\u{1b}["@ + "1"@ + "m"@,
        "\u{1b}[0m"@ == "\u{1b}["@ + "0"@ + "m"@,
{
    reveal_strlit("31");
    reveal_strlit("32");
    reveal_strlit("33");
    reveal_strlit("34");
    reveal_strlit("35");
    reveal_strlit("36");
    reveal_strlit("97");
    reveal_strlit("39");
    reveal_strlit("1");
    reveal_strlit("0");
    reveal_strlit("m");
    reveal_strlit("\u{1b}[");
    reveal_strlit("\u{1b}[39m");
    reveal_strlit("\u{1b}[1m");
    reveal_strlit("\u{1b}[0m");
    assert("\u{1b}[39m"@ =~= "\u{1b}["@ + "39"@ + "m"@);
    assert("\u{1b}[1m"@ =~= "\u{1b}["@ + "1"@ + "m"@);
    assert("\u{1b}[0m"@ =~= "\u{1b}["@ + "0"@ + "m"@);
}

/// A colored text leaves its text behind.
proof fn lemma_strip_fg(code: Seq<char>, t: Seq<char>, y: Seq<char>)
    requires
        no_m(code),
        no_escape(t),
    ensures
        strip_from(fg(code, t) + y, false) == t + strip_from(y, false),
{
    lemma_codes();
    let close = "\u{1b}["@ + "39"@ + "m"@ + y;
    assert(fg(code, t) + y =~= "\u{1b}["@ + code + "m"@ + (t + close));
    lemma_strip_escape(code, t + close);
    lemma_strip_plain(t, close);
    lemma_strip_escape("39"@, y);
}

/// A bold text leaves its text behind.
proof fn lemma_strip_bold(t: Seq<char>, y: Seq<char>)
    requires
        no_escape(t),
    ensures
        strip_from(bold(t) + y, false) == t + strip_from(y, false),
{
    lemma_codes();
    let close = "\u{1b}["@ + "0"@ + "m"@ + y;
    assert(bold(t) + y =~= "\u{1b}["@ + "1"@ + "m"@ + (t + close));
    lemma_strip_escape("1"@, t + close);
    lemma_strip_plain(t, close);
    lemma_strip_escape("0"@, y);
}

/// A colored bold text leaves its text behind.
proof fn lemma_strip_fg_bold(code: Seq<char>, t: Seq<char>, y: Seq<char>)
    requires
        no_m(code),
        no_escape(t),
    ensures
        strip_from(fg(code, bold(t)) + y, false) == t + strip_from(y, false),
{
    lemma_codes();
    let close = "\u{1b}["@ + "39"@ + "m"@ + y;
    assert(fg(code, bold(t)) + y =~= "\u{1b}["@ + code + "m"@ + (bold(t) + close));
    lemma_strip_escape(code, bold(t) + close);
    lemma_strip_bold(t, close);
    lemma_strip_escape("39"@, y);
}

proof fn lemma_digits_plain(n: nat)
    ensures
        no_escape(decimal(n)),
    decreases n,
{
    if n >= 10 {
        lemma_digits_plain(n / 10);
        let d = decimal(n / 10);
        let c = digit((n % 10) as int);
        assert(c != '\u{1b}');
        assert forall|i: int| 0 <= i < d.push(c).len() implies d.push(c)[i] != '\u{1b}' by {
            if i < d.len() {
                assert(d.push(c)[i] == d[i]);
            }
        }
    } else {
        assert(digit(n as int) != '\u{1b}');
    }
}

proof fn lemma_literals_plain()
    ensures
        no_escape(" "@),
        no_escape("[UF]"@),
        no_escape("[UE]"@),
        no_escape("[UC]"@),
        no_escape("No findings"@),
        no_escape("Summary"@),
        no_escape(" UF="@),
        no_escape(" UE="@),
        no_escape(" UC="@),
        no_escape(" total="@),
        no_escape("Remove summary"@),
        no_escape(" planned="@),
        no_escape(" removed="@),
        no_escape(" skipped_risky="@),
        no_escape(" dry_run="@),
        no_escape("true"@),
        no_escape("false"@),
{
    reveal_strlit(" ");
    reveal_strlit("[UF]");
    reveal_strlit("[UE]");
    reveal_strlit("[UC]");
    reveal_strlit("No findings");
    reveal_strlit("Summary");
    reveal_strlit(" UF=");
    reveal_strlit(" UE=");
    reveal_strlit(" UC=");
    reveal_strlit(" total=");
    reveal_strlit("Remove summary");
    reveal_strlit(" planned=");
    reveal_strlit(" removed=");
    reveal_strlit(" skipped_risky=");
    reveal_strlit(" dry_run=");
    reveal_strlit("true");
    reveal_strlit("false");
}

/// The file, symbol and reason of a finding hold no escape character.
pub open spec fn finding_plain(f: FindingView) -> bool {
    &&& no_escape(f.file)
    &&& no_escape(f.reason)
    &&& f.symbol matches Some(s) ==> no_escape(s)
}

spec fn symbol_part(symbol: Option<Seq<char>>, color: bool) -> Seq<char> {
    match symbol {
        Some(s) => if color {
            " "@ + fg("97"@, s)
        } else {
            " "@ + s
        },
        None => Seq::empty(),
    }
}

proof fn lemma_symbol_tail(f: FindingView)
    requires
        finding_plain(f),
    ensures
        strip_ansi(symbol_part(f.symbol, true) + (" "@ + f.reason)) == symbol_part(f.symbol, false)
            + (" "@ + f.reason),
        no_escape(symbol_part(f.symbol, false) + (" "@ + f.reason)),
{
    lemma_literals_plain();
    let tail = " "@ + f.reason;
    lemma_no_escape_concat(" "@, f.reason);
    lemma_strip_id(tail);
    match f.symbol {
        Some(s) => {
            reveal_strlit("97");
            assert(no_m("97"@));
            assert(symbol_part(f.symbol, true) + tail =~= " "@ + (fg("97"@, s) + tail));
            lemma_strip_plain(" "@, fg("97"@, s) + tail);
            lemma_strip_fg("97"@, s, tail);
            assert(symbol_part(f.symbol, false) + tail =~= " "@ + (s + tail));
            lemma_no_escape_concat(s, tail);
            lemma_no_escape_concat(" "@, s + tail);
        },
        None => {
            assert(symbol_part(f.symbol, true) + tail =~= tail);
            assert(symbol_part(f.symbol, false) + tail =~= tail);
        },
    }
}

proof fn lemma_tag(kind: FindingKind, y: Seq<char>)
    ensures
        strip_from(colored_tag(kind) + y, false) == tag(kind) + strip_from(y, false),
        no_escape(tag(kind)),
{
    lemma_literals_plain();
    reveal_strlit("31");
    reveal_strlit("33");
    reveal_strlit("35");
    match kind {
        FindingKind::UnreachableFile => {
            assert(no_m("31"@));
            lemma_strip_fg("31"@, "[UF]"@, y);
        },
        FindingKind::UnusedExport => {
            assert(no_m("33"@));
            lemma_strip_fg("33"@, "[UE]"@, y);
        },
        FindingKind::Uncertain => {
            assert(no_m("35"@));
            lemma_strip_fg("35"@, "[UC]"@, y);
        },
    }
}

proof fn lemma_colored_line_shape(f: FindingView)
    ensures
        finding_line(f, true) == colored_tag(f.kind) + (" "@ + (fg("34"@, f.file) + (
        symbol_part(f.symbol, true) + (" "@ + f.reason)))),
{
    let a = colored_tag(f.kind);
    let b = fg("34"@, f.file);
    let c = symbol_part(f.symbol, true);
    let d = " "@ + f.reason;
    assert(finding_line(f, true) == a + " "@ + b + c + " "@ + f.reason);
    assert(a + " "@ + b + c + " "@ + f.reason =~= a + (" "@ + (b + (c + d))));
}

proof fn lemma_plain_line_shape(f: FindingView)
    ensures
        finding_line(f, false) == tag(f.kind) + (" "@ + (f.file + (symbol_part(f.symbol, false)
            + (" "@ + f.reason)))),
{
    let a = tag(f.kind);
    let c = symbol_part(f.symbol, false);
    let d = " "@ + f.reason;
    assert(finding_line(f, false) == a + " "@ + f.file + c + " "@ + f.reason);
    assert(a + " "@ + f.file + c + " "@ + f.reason =~= a + (" "@ + (f.file + (c + d))));
}

proof fn lemma_space_plain()
    ensures
        no_escape(" "@),
        no_m("34"@),
{
    reveal_strlit(" ");
    reveal_strlit("34");
}

/// Coloring a finding's line only adds escape sequences: stripped of them, the colored
/// line is the plain line, which holds none, when the finding's own text holds none.
pub proof fn law_finding_line_strips_to_plain(f: FindingView)
    requires
        finding_plain(f),
    ensures
        strip_ansi(finding_line(f, true)) == finding_line(f, false),
        no_escape(finding_line(f, false)),
{
    let ct = symbol_part(f.symbol, true) + (" "@ + f.reason);
    let pt = symbol_part(f.symbol, false) + (" "@ + f.reason);
    lemma_colored_line_shape(f);
    lemma_plain_line_shape(f);
    lemma_symbol_tail(f);
    lemma_space_plain();
    let rest = fg("34"@, f.file) + ct;
    lemma_strip_fg("34"@, f.file, ct);
    lemma_strip_plain(" "@, rest);
    lemma_tag(f.kind, " "@ + rest);
    lemma_no_escape_concat(f.file, pt);
    lemma_no_escape_concat(" "@, f.file + pt);
    lemma_no_escape_concat(tag(f.kind), " "@ + (f.file + pt));
}

spec fn counts_part(fs: Seq<FindingView>) -> Seq<char> {
    " UF="@ + decimal(count_kind(fs, FindingKind::UnreachableFile)) + " UE="@ + decimal(
        count_kind(fs, FindingKind::UnusedExport),
    ) + " UC="@ + decimal(count_kind(fs, FindingKind::Uncertain)) + " total="@ + decimal(fs.len())
}

spec fn remove_counts_part(s: RemoveSummary) -> Seq<char> {
    " planned="@ + decimal(s.planned as nat) + " removed="@ + decimal(s.removed as nat)
        + " skipped_risky="@ + decimal(s.skipped_risky as nat) + " dry_run="@ + bool_text(
        s.dry_run,
    )
}

proof fn lemma_counts_plain(fs: Seq<FindingView>)
    ensures
        no_escape(counts_part(fs)),
{
    lemma_literals_plain();
    let d1 = decimal(count_kind(fs, FindingKind::UnreachableFile));
    let d2 = decimal(count_kind(fs, FindingKind::UnusedExport));
    let d3 = decimal(count_kind(fs, FindingKind::Uncertain));
    let d4 = decimal(fs.len());
    lemma_digits_plain(count_kind(fs, FindingKind::UnreachableFile));
    lemma_digits_plain(count_kind(fs, FindingKind::UnusedExport));
    lemma_digits_plain(count_kind(fs, FindingKind::Uncertain));
    lemma_digits_plain(fs.len());
    lemma_no_escape_concat(" UF="@, d1);
    lemma_no_escape_concat(" UF="@ + d1, " UE="@);
    lemma_no_escape_concat(" UF="@ + d1 + " UE="@, d2);
    lemma_no_escape_concat(" UF="@ + d1 + " UE="@ + d2, " UC="@);
    lemma_no_escape_concat(" UF="@ + d1 + " UE="@ + d2 + " UC="@, d3);
    lemma_no_escape_concat(" UF="@ + d1 + " UE="@ + d2 + " UC="@ + d3, " total="@);
    lemma_no_escape_concat(" UF="@ + d1 + " UE="@ + d2 + " UC="@ + d3 + " total="@, d4);
}

proof fn lemma_remove_counts_plain(s: RemoveSummary)
    ensures
        no_escape(remove_counts_part(s)),
{
    lemma_literals_plain();
    let d1 = decimal(s.planned as nat);
    let d2 = decimal(s.removed as nat);
    let d3 = decimal(s.skipped_risky as nat);
    let b = bool_text(s.dry_run);
    lemma_digits_plain(s.planned as nat);
    lemma_digits_plain(s.removed as nat);
    lemma_digits_plain(s.skipped_risky as nat);
    lemma_no_escape_concat(" planned="@, d1);
    lemma_no_escape_concat(" planned="@ + d1, " removed="@);
    lemma_no_escape_concat(" planned="@ + d1 + " removed="@, d2);
    lemma_no_escape_concat(" planned="@ + d1 + " removed="@ + d2, " skipped_risky="@);
    lemma_no_escape_concat(" planned="@ + d1 + " removed="@ + d2 + " skipped_risky="@, d3);
    lemma_no_escape_concat(
        " planned="@ + d1 + " removed="@ + d2 + " skipped_risky="@ + d3,
        " dry_run="@,
    );
    lemma_no_escape_concat(
        " planned="@ + d1 + " removed="@ + d2 + " skipped_risky="@ + d3 + " dry_run="@,
        b,
    );
}

/// Coloring the closing line only adds escape sequences: stripped of them, it is the
/// plain closing line, which holds none.
pub proof fn law_closing_line_strips_to_plain(fs: Seq<FindingView>)
    ensures
        strip_ansi(closing_line(fs, true)) == closing_line(fs, false),
        no_escape(closing_line(fs, false)),
{
    lemma_literals_plain();
    reveal_strlit("32");
    reveal_strlit("36");
    assert(no_m("32"@));
    assert(no_m("36"@));
    if fs.len() == 0 {
        lemma_strip_fg("32"@, "No findings"@, Seq::empty());
        assert(fg("32"@, "No findings"@) + Seq::<char>::empty() =~= fg("32"@, "No findings"@));
        assert("No findings"@ + Seq::<char>::empty() =~= "No findings"@);
    } else {
        let rest = counts_part(fs);
        lemma_counts_plain(fs);
        lemma_strip_id(rest);
        lemma_strip_fg_bold("36"@, "Summary"@, rest);
        assert(closing_line(fs, true) =~= fg("36"@, bold("Summary"@)) + rest);
        assert(closing_line(fs, false) =~= "Summary"@ + rest);
        lemma_no_escape_concat("Summary"@, rest);
    }
}

/// Coloring a removal's summary line only adds escape sequences: stripped of them, it is
/// the plain line, which holds none.
pub proof fn law_summary_line_strips_to_plain(s: RemoveSummary)
    ensures
        strip_ansi(summary_line(s, true)) == summary_line(s, false),
        no_escape(summary_line(s, false)),
{
    lemma_literals_plain();
    reveal_strlit("36");
    assert(no_m("36"@));
    let rest = remove_counts_part(s);
    lemma_remove_counts_plain(s);
    lemma_strip_id(rest);
    lemma_strip_fg_bold("36"@, "Remove summary"@, rest);
    assert(summary_line(s, true) =~= fg("36"@, bold("Remove summary"@)) + rest);
    assert(summary_line(s, false) =~= "Remove summary"@ + rest);
    lemma_no_escape_concat("Remove summary"@, rest);
}

/// Coloring a scan's report only adds escape sequences: stripped of them, each colored
/// line is the plain line in the same place, and the plain report holds none, when no
/// finding's file, symbol or reason holds an escape character.
pub proof fn law_report_strips_to_plain(fs: Seq<FindingView>)
    requires
        forall|i: int| 0 <= i < fs.len() ==> finding_plain(#[trigger] fs[i]),
    ensures
        report_lines(fs, true).map_values(|l: Seq<char>| strip_ansi(l)) == report_lines(fs, false),
        forall|i: int|
            0 <= i < report_lines(fs, false).len() ==> no_escape(
                #[trigger] report_lines(fs, false)[i],
            ),
{
    let c = report_lines(fs, true);
    let p = report_lines(fs, false);
    law_closing_line_strips_to_plain(fs);
    assert forall|i: int| 0 <= i < p.len() implies strip_ansi(c[i]) == p[i] && no_escape(
        #[trigger] p[i],
    ) by {
        if i < fs.len() {
            law_finding_line_strips_to_plain(fs[i]);
        }
    }
    assert(c.map_values(|l: Seq<char>| strip_ansi(l)) =~= p);
}

/// Law: the count of a kind of finding is the number of findings of that kind, and the
/// counts of the three kinds add up to the number of findings: each finding is counted
/// once, under its own kind.
pub proof fn law_count_kind(fs: Seq<FindingView>, kind: FindingKind)
    ensures
        count_kind(fs, kind) == fs.filter(|f: FindingView| f.kind == kind).len(),
        count_kind(fs, FindingKind::UnreachableFile) + count_kind(fs, FindingKind::UnusedExport)
            + count_kind(fs, FindingKind::Uncertain) == fs.len(),
    decreases fs.len(),
{
    reveal(Seq::filter);
    if fs.len() > 0 {
        law_count_kind(fs.drop_last(), kind);
    }
}

/// Law: the plain closing line of a report with findings gives, after `UF=`, `UE=` and
/// `UC=`, the numbers of unreachable-file, unused-export and uncertain findings, and after
/// `total=` the number of all of them.
pub proof fn law_closing_line_counts(fs: Seq<FindingView>)
    requires
        fs.len() > 0,
    ensures
        closing_line(fs, false) == "Summary UF="@ + decimal(
            fs.filter(|f: FindingView| f.kind == FindingKind::UnreachableFile).len(),
        ) + " UE="@ + decimal(fs.filter(|f: FindingView| f.kind == FindingKind::UnusedExport).len())
            + " UC="@ + decimal(fs.filter(|f: FindingView| f.kind == FindingKind::Uncertain).len())
            + " total="@ + decimal(fs.len()),
{
    law_count_kind(fs, FindingKind::UnreachableFile);
    law_count_kind(fs, FindingKind::UnusedExport);
    law_count_kind(fs, FindingKind::Uncertain);
    reveal_strlit("Summary UF=");
    reveal_strlit("Summary");
    reveal_strlit(" UF=");
    assert("Summary UF="@ =~= "Summary"@ + " UF="@);
}

} // verus!
