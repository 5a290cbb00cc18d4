//! Findings about an archive: each carries a severity, a stable code, a
//! human description and optional location details. Findings are collected,
//! never thrown, so one pass over a file can report every independent
//! problem in it.

use vstd::prelude::*;

verus! {

/// How serious a finding is. `Fatal` marks input the reader cannot honour;
/// the same code can appear at different levels in different contexts.
#[derive(Clone, Copy, Debug, PartialEq, Eq, Structural)]
pub enum DiagnosticLevel {
    Fatal,
    Warning,
    Info,
}

/// The closed taxonomy of findings.
#[derive(Clone, Copy, Debug, PartialEq, Eq, Structural)]
pub enum DiagnosticCode {
    EmptyFile,
    MissingHeader,
    InvalidUtf8,
    TruncatedJson,
    MissingHeaderField,
    UnsupportedVersion,
    InvalidTimestamp,
    InvalidInitialState,
    InvalidEventJson,
    UnknownEventType,
    WrongFieldCount,
    WrongFieldType,
    NonExistentObservationId,
    DuplicateObservationId,
    ChangeCountMismatch,
    InvalidChangeCount,
    InvalidPointerSyntax,
    PathNotFound,
    InvalidArrayIndex,
    ArrayIndexOutOfBounds,
    ParentPathNotFound,
    TypeMismatch,
    OldValueMismatch,
    MoveOnNonArray,
    MoveIndexOutOfBounds,
    InvalidMoveIndex,
    SnapshotStateMismatch,
    SnapshotTimestampOrder,
}

/// The stable short identifier of a code.
pub open spec fn spec_code_str(c: DiagnosticCode) -> Seq<char> {
    match c {
        DiagnosticCode::EmptyFile => "E001"@,
        DiagnosticCode::MissingHeader => "E002"@,
        DiagnosticCode::InvalidUtf8 => "E003"@,
        DiagnosticCode::TruncatedJson => "E004"@,
        DiagnosticCode::MissingHeaderField => "E010"@,
        DiagnosticCode::UnsupportedVersion => "E011"@,
        DiagnosticCode::InvalidTimestamp => "W012"@,
        DiagnosticCode::InvalidInitialState => "E013"@,
        DiagnosticCode::InvalidEventJson => "E020"@,
        DiagnosticCode::UnknownEventType => "W021"@,
        DiagnosticCode::WrongFieldCount => "E022"@,
        DiagnosticCode::WrongFieldType => "E023"@,
        DiagnosticCode::NonExistentObservationId => "E030"@,
        DiagnosticCode::DuplicateObservationId => "W031"@,
        DiagnosticCode::ChangeCountMismatch => "W040"@,
        DiagnosticCode::InvalidChangeCount => "E041"@,
        DiagnosticCode::InvalidPointerSyntax => "E050"@,
        DiagnosticCode::PathNotFound => "E051"@,
        DiagnosticCode::InvalidArrayIndex => "E052"@,
        DiagnosticCode::ArrayIndexOutOfBounds => "E053"@,
        DiagnosticCode::ParentPathNotFound => "E054"@,
        DiagnosticCode::TypeMismatch => "E060"@,
        DiagnosticCode::OldValueMismatch => "W061"@,
        DiagnosticCode::MoveOnNonArray => "E070"@,
        DiagnosticCode::MoveIndexOutOfBounds => "E071"@,
        DiagnosticCode::InvalidMoveIndex => "E072"@,
        DiagnosticCode::SnapshotStateMismatch => "W080"@,
        DiagnosticCode::SnapshotTimestampOrder => "W081"@,
    }
}

/// The short human title of a code.
pub open spec fn spec_code_title(c: DiagnosticCode) -> Seq<char> {
    match c {
        DiagnosticCode::EmptyFile => "Empty file"@,
        DiagnosticCode::MissingHeader => "Missing header"@,
        DiagnosticCode::InvalidUtf8 => "Invalid UTF-8 encoding"@,
        DiagnosticCode::TruncatedJson => "Truncated JSON"@,
        DiagnosticCode::MissingHeaderField => "Missing required header field"@,
        DiagnosticCode::UnsupportedVersion => "Unsupported version"@,
        DiagnosticCode::InvalidTimestamp => "Invalid timestamp"@,
        DiagnosticCode::InvalidInitialState => "Invalid initial state"@,
        DiagnosticCode::InvalidEventJson => "Invalid event JSON"@,
        DiagnosticCode::UnknownEventType => "Unknown event type"@,
        DiagnosticCode::WrongFieldCount => "Wrong field count"@,
        DiagnosticCode::WrongFieldType => "Wrong field type"@,
        DiagnosticCode::NonExistentObservationId => "Non-existent observation ID"@,
        DiagnosticCode::DuplicateObservationId => "Duplicate observation ID"@,
        DiagnosticCode::ChangeCountMismatch => "Change count mismatch"@,
        DiagnosticCode::InvalidChangeCount => "Invalid change count"@,
        DiagnosticCode::InvalidPointerSyntax => "Invalid JSON Pointer syntax"@,
        DiagnosticCode::PathNotFound => "Path not found"@,
        DiagnosticCode::InvalidArrayIndex => "Invalid array index"@,
        DiagnosticCode::ArrayIndexOutOfBounds => "Array index out of bounds"@,
        DiagnosticCode::ParentPathNotFound => "Parent path not found"@,
        DiagnosticCode::TypeMismatch => "Type mismatch"@,
        DiagnosticCode::OldValueMismatch => "Old value mismatch"@,
        DiagnosticCode::MoveOnNonArray => "Move operation on non-array"@,
        DiagnosticCode::MoveIndexOutOfBounds => "Move index out of bounds"@,
        DiagnosticCode::InvalidMoveIndex => "Invalid move index"@,
        DiagnosticCode::SnapshotStateMismatch => "Snapshot state mismatch"@,
        DiagnosticCode::SnapshotTimestampOrder => "Snapshot timestamp out of order"@,
    }
}

impl DiagnosticCode {
    /// The stable short identifier, `E`-prefixed for errors and `W` for
    /// findings that are warnings in their usual context.
    pub fn as_str(&self) -> (r: &'static str)
        ensures
            r@ == spec_code_str(*self),
    {
        match self {
            DiagnosticCode::EmptyFile => "E001",
            DiagnosticCode::MissingHeader => "E002",
            DiagnosticCode::InvalidUtf8 => "E003",
            DiagnosticCode::TruncatedJson => "E004",
            DiagnosticCode::MissingHeaderField => "E010",
            DiagnosticCode::UnsupportedVersion => "E011",
            DiagnosticCode::InvalidTimestamp => "W012",
            DiagnosticCode::InvalidInitialState => "E013",
            DiagnosticCode::InvalidEventJson => "E020",
            DiagnosticCode::UnknownEventType => "W021",
            DiagnosticCode::WrongFieldCount => "E022",
            DiagnosticCode::WrongFieldType => "E023",
            DiagnosticCode::NonExistentObservationId => "E030",
            DiagnosticCode::DuplicateObservationId => "W031",
            DiagnosticCode::ChangeCountMismatch => "W040",
            DiagnosticCode::InvalidChangeCount => "E041",
            DiagnosticCode::InvalidPointerSyntax => "E050",
            DiagnosticCode::PathNotFound => "E051",
            DiagnosticCode::InvalidArrayIndex => "E052",
            DiagnosticCode::ArrayIndexOutOfBounds => "E053",
            DiagnosticCode::ParentPathNotFound => "E054",
            DiagnosticCode::TypeMismatch => "E060",
            DiagnosticCode::OldValueMismatch => "W061",
            DiagnosticCode::MoveOnNonArray => "E070",
            DiagnosticCode::MoveIndexOutOfBounds => "E071",
            DiagnosticCode::InvalidMoveIndex => "E072",
            DiagnosticCode::SnapshotStateMismatch => "W080",
            DiagnosticCode::SnapshotTimestampOrder => "W081",
        }
    }

    /// The short human title of the code.
    pub fn title(&self) -> (r: &'static str)
        ensures
            r@ == spec_code_title(*self),
    {
        match self {
            DiagnosticCode::EmptyFile => "Empty file",
            DiagnosticCode::MissingHeader => "Missing header",
            DiagnosticCode::InvalidUtf8 => "Invalid UTF-8 encoding",
            DiagnosticCode::TruncatedJson => "Truncated JSON",
            DiagnosticCode::MissingHeaderField => "Missing required header field",
            DiagnosticCode::UnsupportedVersion => "Unsupported version",
            DiagnosticCode::InvalidTimestamp => "Invalid timestamp",
            DiagnosticCode::InvalidInitialState => "Invalid initial state",
            DiagnosticCode::InvalidEventJson => "Invalid event JSON",
            DiagnosticCode::UnknownEventType => "Unknown event type",
            DiagnosticCode::WrongFieldCount => "Wrong field count",
            DiagnosticCode::WrongFieldType => "Wrong field type",
            DiagnosticCode::NonExistentObservationId => "Non-existent observation ID",
            DiagnosticCode::DuplicateObservationId => "Duplicate observation ID",
            DiagnosticCode::ChangeCountMismatch => "Change count mismatch",
            DiagnosticCode::InvalidChangeCount => "Invalid change count",
            DiagnosticCode::InvalidPointerSyntax => "Invalid JSON Pointer syntax",
            DiagnosticCode::PathNotFound => "Path not found",
            DiagnosticCode::InvalidArrayIndex => "Invalid array index",
            DiagnosticCode::ArrayIndexOutOfBounds => "Array index out of bounds",
            DiagnosticCode::ParentPathNotFound => "Parent path not found",
            DiagnosticCode::TypeMismatch => "Type mismatch",
            DiagnosticCode::OldValueMismatch => "Old value mismatch",
            DiagnosticCode::MoveOnNonArray => "Move operation on non-array",
            DiagnosticCode::MoveIndexOutOfBounds => "Move index out of bounds",
            DiagnosticCode::InvalidMoveIndex => "Invalid move index",
            DiagnosticCode::SnapshotStateMismatch => "Snapshot state mismatch",
            DiagnosticCode::SnapshotTimestampOrder => "Snapshot timestamp out of order",
        }
    }
}

/// One finding: severity, code, description, and optional location details.
#[derive(Clone, Debug)]
pub struct Diagnostic {
    pub filename: Option<String>,
    pub line_number: Option<usize>,
    pub column: Option<usize>,
    pub level: DiagnosticLevel,
    pub code: DiagnosticCode,
    pub description: String,
    pub code_snippet: Option<String>,
    pub advice: Option<String>,
}

impl Diagnostic {
    /// A finding with no location attached yet.
    pub fn new(level: DiagnosticLevel, code: DiagnosticCode, description: String) -> (r: Self)
        ensures
            r.level == level,
            r.code == code,
            r.description == description,
            r.filename is None,
            r.line_number is None,
            r.column is None,
            r.code_snippet is None,
            r.advice is None,
    {
        Self {
            filename: None,
            line_number: None,
            column: None,
            level,
            code,
            description,
            code_snippet: None,
            advice: None,
        }
    }

    /// The same finding, placed at a file and line.
    pub fn with_location(self, filename: String, line_number: usize) -> (r: Self)
        ensures
            r == (Self {
                filename: Some(filename),
                line_number: Some(line_number),
                ..self
            }),
    {
        Self { filename: Some(filename), line_number: Some(line_number), ..self }
    }

    /// The same finding, placed at a column.
    pub fn with_column(self, column: usize) -> (r: Self)
        ensures
            r == (Self { column: Some(column), ..self }),
    {
        Self { column: Some(column), ..self }
    }

    /// The same finding, with the offending text attached.
    pub fn with_snippet(self, snippet: String) -> (r: Self)
        ensures
            r == (Self { code_snippet: Some(snippet), ..self }),
    {
        Self { code_snippet: Some(snippet), ..self }
    }

    /// The same finding, with remediation advice attached.
    pub fn with_advice(self, advice: String) -> (r: Self)
        ensures
            r == (Self { advice: Some(advice), ..self }),
    {
        Self { advice: Some(advice), ..self }
    }

    /// Whether the finding is fatal.
    pub fn is_fatal(&self) -> (r: bool)
        ensures
            r == (self.level == DiagnosticLevel::Fatal),
    {
        match self.level {
            DiagnosticLevel::Fatal => true,
            _ => false,
        }
    }
}

/// Whether any finding in the sequence is fatal.
pub open spec fn spec_has_fatal(s: Seq<Diagnostic>) -> bool {
    exists|i: int| 0 <= i < s.len() && s[i].level == DiagnosticLevel::Fatal
}

/// An ordered accumulation of findings.
#[derive(Debug)]
pub struct DiagnosticCollector {
    diagnostics: Vec<Diagnostic>,
}

impl View for DiagnosticCollector {
    type V = Seq<Diagnostic>;

    closed spec fn view(&self) -> Seq<Diagnostic> {
        self.diagnostics@
    }
}

impl DiagnosticCollector {
    /// An empty collection.
    pub fn new() -> (r: Self)
        ensures
            r@ == Seq::<Diagnostic>::empty(),
    {
        Self { diagnostics: Vec::new() }
    }

    /// Appends one finding.
    pub fn add(&mut self, diagnostic: Diagnostic)
        ensures
            final(self)@ == old(self)@.push(diagnostic),
    {
        self.diagnostics.push(diagnostic);
    }

    /// Whether any collected finding is fatal.
    pub fn has_fatal(&self) -> (r: bool)
        ensures
            r == spec_has_fatal(self@),
    {
        let mut i: usize = 0;
        while i < self.diagnostics.len()
            invariant
                0 <= i <= self@.len(),
                self@ == self.diagnostics@,
                forall|j: int| 0 <= j < i ==> self@[j].level != DiagnosticLevel::Fatal,
            decreases self@.len() - i,
        {
            if self.diagnostics[i].is_fatal() {
                return true;
            }
            i = i + 1;
        }
        false
    }

    /// The findings collected so far, in order.
    pub fn diagnostics(&self) -> (r: &Vec<Diagnostic>)
        ensures
            r@ == self@,
    {
        &self.diagnostics
    }

    /// Takes the findings out of the collector.
    pub fn into_diagnostics(self) -> (r: Vec<Diagnostic>)
        ensures
            r@ == self@,
    {
        self.diagnostics
    }

    /// Whether nothing was collected.
    pub fn is_empty(&self) -> (r: bool)
        ensures
            r == (self@.len() == 0),
    {
        self.diagnostics.len() == 0
    }

    /// How many findings were collected.
    pub fn len(&self) -> (r: usize)
        ensures
            r == self@.len(),
    {
        self.diagnostics.len()
    }
}

} // verus!
