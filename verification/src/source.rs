//! Source locations attached to diagnostics and bindings.

use vstd::prelude::*;

verus! {

/// A one-based line and column in a named source file.
#[derive(Clone, Debug, PartialEq, Eq)]
pub struct SourceSpan {
    /// The file name, relative to the invocation that named it.
    pub file: String,
    /// One-based line number.
    pub line: usize,
    /// One-based column number, counted in characters.
    pub column: usize,
}

impl SourceSpan {
    /// Construct a span at the first character of a file.
    pub fn file_start(path: &str) -> (span: SourceSpan)
        ensures
            span.file@ == path@,
            span.line == 1,
            span.column == 1,
    {
        SourceSpan { file: path.to_owned(), line: 1, column: 1 }
    }

    /// Construct a span at a one-based line and column of a file.
    pub fn at(path: &str, line: usize, column: usize) -> (span: SourceSpan)
        ensures
            span.file@ == path@,
            span.line == line,
            span.column == column,
    {
        SourceSpan { file: path.to_owned(), line, column }
    }

    /// Return an identical copy of the span.
    pub fn clone_span(&self) -> (span: SourceSpan)
        ensures
            span == *self,
    {
        SourceSpan { file: self.file.clone(), line: self.line, column: self.column }
    }

    /// Return the file name of the span.
    pub fn file(&self) -> (file: &str)
        ensures
            file@ == self.file@,
    {
        self.file.as_str()
    }
}

/// A value together with the span that supplied it.
#[derive(Clone, Debug, PartialEq, Eq)]
pub struct Spanned<T> {
    pub value: T,
    pub span: SourceSpan,
}

impl<T> Spanned<T> {
    /// Attach a span to a value.
    pub fn new(value: T, span: SourceSpan) -> (spanned: Self)
        ensures
            spanned.value == value,
            spanned.span == span,
    {
        Spanned { value, span }
    }
}

/// The index of one parsed source file within a linked package.
#[derive(Clone, Copy, Debug, PartialEq, Eq, Structural, Hash)]
pub struct SourceUnitId(pub usize);

impl SourceUnitId {
    /// The position of the unit in its package.
    pub fn index(self) -> (index: usize)
        ensures
            index == self.0,
    {
        self.0
    }
}

/// An import whose path the linker resolved to a unit of the same package.
#[derive(Clone, Debug, PartialEq, Eq)]
pub struct ResolvedImport {
    /// The alias under which the importing unit calls the imported program.
    pub alias: Spanned<String>,
    /// The imported unit.
    pub target: SourceUnitId,
}

/// One parsed source file: where it was read from and what it imports.
#[derive(Clone, Debug, PartialEq, Eq)]
pub struct SourceUnit {
    /// The path under which the file is displayed in diagnostics.
    pub path: String,
    /// Its resolved imports, in source order.
    pub imports: Vec<ResolvedImport>,
}

/// A root source unit together with every unit that it imports, directly or not.
#[derive(Clone, Debug, PartialEq, Eq)]
pub struct SourcePackage {
    /// The unit whose program the package compiles.
    pub root: SourceUnitId,
    /// Every unit of the package; imports refer to them by index.
    pub units: Vec<SourceUnit>,
}

impl SourcePackage {
    /// The units of the package.
    pub fn units(&self) -> (units: &[SourceUnit])
        ensures
            units@ == self.units@,
    {
        self.units.as_slice()
    }
}

} // verus!
