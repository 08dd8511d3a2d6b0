use std::io;

use clipasm::diagnostic::{BuiltinDiagnostic, Diagnostic};
use clipasm::source::SourceSpan;

#[test]
fn custom_and_builtin_construction_preserve_the_public_shape() {
    let span = SourceSpan::file_start("program.clipasm");
    let custom = Diagnostic::new("E_EMBEDDER_TEST", "custom failure".to_string(), span.clone());
    assert_eq!(custom.code, "E_EMBEDDER_TEST");
    assert_eq!(custom.message, "custom failure");
    assert_eq!(custom.span, span);
    assert!(custom.notes.is_empty());

    let builtin = Diagnostic::builtin(
        BuiltinDiagnostic::UnknownProgram,
        "unknown program `missing`".to_string(),
        span,
    )
    .note("check the import".to_string());
    assert_eq!(builtin.code, "E_UNKNOWN_PROGRAM");
    assert_eq!(builtin.message, "unknown program `missing`");
    assert_eq!(builtin.notes, ["check the import"]);
}

#[test]
fn builtin_io_uses_the_typed_code_and_path_location() {
    let path = "missing.clipasm";
    let error = io::Error::new(io::ErrorKind::NotFound, "not found");
    let diagnostic = Diagnostic::builtin_io(BuiltinDiagnostic::SourceIo, path, &error.to_string());

    assert_eq!(diagnostic.code, "E_SOURCE_IO");
    assert_eq!(diagnostic.span.file(), path);
    assert!(diagnostic.message.contains("missing.clipasm"));
    assert!(diagnostic.message.contains("not found"));
}

#[test]
fn decimal_renders_exact_digits() {
    assert_eq!(clipasm::diagnostic::decimal(0), "0");
    assert_eq!(clipasm::diagnostic::decimal(20_001), "20001");
    assert_eq!(clipasm::diagnostic::decimal(u64::MAX), "18446744073709551615");
}
