use minilzo::{Context, ErrorCode, Workspace, WORKSPACE_ENTRIES};

#[test]
fn error_codes_are_the_documented_integers() {
    assert_eq!(ErrorCode::Okay.code(), 0);
    assert_eq!(ErrorCode::Error.code(), -1);
    assert_eq!(ErrorCode::OutOfMemory.code(), -2);
    assert_eq!(ErrorCode::NotCompressible.code(), -3);
    assert_eq!(ErrorCode::InputOverrun.code(), -4);
    assert_eq!(ErrorCode::OutputOverrun.code(), -5);
    assert_eq!(ErrorCode::LookbehindOverrun.code(), -6);
    assert_eq!(ErrorCode::EofNotFound.code(), -7);
    assert_eq!(ErrorCode::InputNotConsumed.code(), -8);
    assert_eq!(ErrorCode::NotYetImplemented.code(), -9);
    assert_eq!(ErrorCode::InvalidArgument.code(), -10);
    assert_eq!(ErrorCode::InvalidAlignment.code(), -11);
    assert_eq!(ErrorCode::OutputNotConsumed.code(), -12);
    assert_eq!(ErrorCode::InternalError.code(), -99);
}

#[test]
fn is_ok_only_on_success() {
    assert!(ErrorCode::Okay.is_ok());
    assert!(!ErrorCode::Error.is_ok());
    assert!(!ErrorCode::OutputOverrun.is_ok());
    assert!(!ErrorCode::InternalError.is_ok());
}

#[test]
fn reasons_are_human_readable() {
    assert_eq!(ErrorCode::Okay.reason(), Some("no error"));
    assert_eq!(ErrorCode::Error.reason(), Some("error"));
    assert_eq!(ErrorCode::OutOfMemory.reason(), Some("out of memory"));
    assert_eq!(ErrorCode::NotCompressible.reason(), Some("not compressible"));
    assert_eq!(ErrorCode::InputOverrun.reason(), Some("input overrun"));
    assert_eq!(ErrorCode::OutputOverrun.reason(), Some("output overrun"));
    assert_eq!(
        ErrorCode::LookbehindOverrun.reason(),
        Some("lookbehind overrun")
    );
    assert_eq!(ErrorCode::EofNotFound.reason(), Some("eof not found"));
    assert_eq!(
        ErrorCode::InputNotConsumed.reason(),
        Some("input not consumed")
    );
    assert_eq!(
        ErrorCode::NotYetImplemented.reason(),
        Some("not yet implemented")
    );
    assert_eq!(ErrorCode::InvalidArgument.reason(), Some("invalid argument"));
    assert_eq!(
        ErrorCode::InvalidAlignment.reason(),
        Some("invalid alignment")
    );
    assert_eq!(
        ErrorCode::OutputNotConsumed.reason(),
        Some("output not consumed")
    );
    assert_eq!(ErrorCode::InternalError.reason(), Some("internal error"));
}

#[test]
fn into_result_keeps_the_failure() {
    assert_eq!(ErrorCode::Okay.into_result(), Ok(()));
    assert_eq!(
        ErrorCode::LookbehindOverrun.into_result(),
        Err(ErrorCode::LookbehindOverrun)
    );
    assert_eq!(
        ErrorCode::InvalidArgument.into_result(),
        Err(ErrorCode::InvalidArgument)
    );
}

#[test]
fn version_metadata_is_available() {
    let context = Context::new().expect("init failed");
    assert_eq!(context.version(), 0x010000);
    assert_eq!(context.version_string(), "1.0.0");
    assert_eq!(context.version_date(), "2026-10-12");
}

#[test]
fn default_context_is_ready() {
    let context = Context::default();
    let mut workspace = Workspace::new();
    let mut output = vec![0u8; 67];
    let written = context
        .compress(&[], &mut output, &mut workspace)
        .expect("failed to compress");
    assert_eq!(written, 1);
}

#[test]
fn undersized_workspace_is_rejected() {
    let context = Context::new().expect("init failed");
    let input = b"workspace check".to_vec();
    let mut output = vec![0u8; 256];

    let mut empty = Workspace::with_entries(0);
    assert_eq!(
        context.compress(&input, &mut output, &mut empty),
        Err(ErrorCode::InvalidArgument)
    );

    let mut short = Workspace::with_entries(WORKSPACE_ENTRIES - 1);
    assert_eq!(
        context.compress(&input, &mut output, &mut short),
        Err(ErrorCode::InvalidArgument)
    );

    let mut exact = Workspace::with_entries(WORKSPACE_ENTRIES);
    assert!(context.compress(&input, &mut output, &mut exact).is_ok());
}

#[test]
fn undersized_compress_output_is_rejected() {
    let context = Context::new().expect("init failed");
    let mut workspace = Workspace::new();
    let input = [1u8, 2, 3, 4, 5, 6, 7, 8];
    let mut tiny = vec![0u8; 0];
    assert_eq!(
        context.compress(&input, &mut tiny, &mut workspace),
        Err(ErrorCode::OutputOverrun)
    );
    let mut three = vec![0u8; 3];
    assert_eq!(
        context.compress(&input, &mut three, &mut workspace),
        Err(ErrorCode::OutputOverrun)
    );
}

#[test]
fn decompress_of_empty_input_finds_no_eof() {
    let context = Context::new().expect("init failed");
    let mut output = vec![0u8; 16];
    assert_eq!(context.decompress(&[], &mut output), Err(ErrorCode::EofNotFound));
}

#[test]
fn missing_eos_marker_is_detected() {
    let context = Context::new().expect("init failed");
    let mut output = vec![0u8; 16];
    // A complete literal run with no end-of-stream marker after it.
    assert_eq!(
        context.decompress(&[0x01, 0x41], &mut output),
        Err(ErrorCode::EofNotFound)
    );
}

#[test]
fn trailing_input_after_eos_is_detected() {
    let context = Context::new().expect("init failed");
    let mut output = vec![0u8; 16];
    assert_eq!(
        context.decompress(&[0x00, 0x00], &mut output),
        Err(ErrorCode::InputNotConsumed)
    );
    assert_eq!(
        context.decompress(&[0x01, 0x41, 0x00, 0x07], &mut output),
        Err(ErrorCode::InputNotConsumed)
    );
}

#[test]
fn op_codes_cut_short_are_detected() {
    let context = Context::new().expect("init failed");
    let mut output = vec![0u8; 16];
    // A literal run announcing five bytes with only one present.
    assert_eq!(
        context.decompress(&[0x05, 0x01], &mut output),
        Err(ErrorCode::InputOverrun)
    );
    // A short match missing its distance byte.
    assert_eq!(
        context.decompress(&[0x80], &mut output),
        Err(ErrorCode::InputOverrun)
    );
    // A long match missing the second distance byte.
    assert_eq!(
        context.decompress(&[0xC0, 0x00], &mut output),
        Err(ErrorCode::InputOverrun)
    );
}

#[test]
fn decoded_data_larger_than_output_is_detected() {
    let context = Context::new().expect("init failed");
    let mut output = vec![0u8; 1];
    assert_eq!(
        context.decompress(&[0x02, 0x41, 0x42, 0x00], &mut output),
        Err(ErrorCode::OutputOverrun)
    );
}
