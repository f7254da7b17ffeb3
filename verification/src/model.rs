//! What a scan reports and what a removal did.
use vstd::prelude::*;

verus! {

/// How results are printed: for people, or as one JSON object per line.
#[derive(Clone, Copy, Debug, PartialEq, Eq, Structural)]
pub enum OutputFormat {
    Human,
    Ai,
}

/// The three kinds of finding.
#[derive(Clone, Copy, Debug, PartialEq, Eq, Structural)]
pub enum FindingKind {
    UnusedExport,
    UnreachableFile,
    Uncertain,
}

/// One finding of a scan. The confidence is kept in hundredths.
#[derive(Clone, Debug)]
pub struct Finding {
    pub id: String,
    pub kind: FindingKind,
    pub file: String,
    pub symbol: Option<String>,
    pub reason: String,
    pub line: Option<usize>,
    pub col: Option<usize>,
    pub confidence_pct: u8,
    pub fixable: bool,
}

/// A finding with its strings as character sequences.
pub struct FindingView {
    pub id: Seq<char>,
    pub kind: FindingKind,
    pub file: Seq<char>,
    pub symbol: Option<Seq<char>>,
    pub reason: Seq<char>,
    pub line: Option<usize>,
    pub col: Option<usize>,
    pub confidence_pct: u8,
    pub fixable: bool,
}

impl View for Finding {
    type V = FindingView;

    open spec fn view(&self) -> FindingView {
        FindingView {
            id: self.id@,
            kind: self.kind,
            file: self.file@,
            symbol: match self.symbol {
                Some(s) => Some(s@),
                None => None,
            },
            reason: self.reason@,
            line: self.line,
            col: self.col,
            confidence_pct: self.confidence_pct,
            fixable: self.fixable,
        }
    }
}

pub open spec fn findings_view(v: Seq<Finding>) -> Seq<FindingView> {
    v.map_values(|f: Finding| f@)
}

/// What a removal planned and did.
#[derive(Clone, Copy, Debug, PartialEq, Eq, Structural)]
pub struct RemoveSummary {
    pub planned: usize,
    pub removed: usize,
    pub skipped_risky: usize,
    pub dry_run: bool,
}

} // verus!
