use minilzo::{Context, ErrorCode, Workspace};

fn worst_case(n: usize) -> usize {
    n + n / 16 + 64 + 3
}

/// A small deterministic generator for incompressible test data.
fn pseudo_random_bytes(n: usize, mut state: u64) -> Vec<u8> {
    let mut out = Vec::with_capacity(n);
    while out.len() < n {
        state ^= state << 13;
        state ^= state >> 7;
        state ^= state << 17;
        out.push((state >> 32) as u8);
    }
    out
}

fn compress_all(input: &[u8]) -> Vec<u8> {
    let context = Context::new().expect("init failed");
    let mut workspace = Workspace::new();
    let mut output = vec![0u8; worst_case(input.len())];
    let written = context
        .compress(input, &mut output, &mut workspace)
        .expect("failed to compress");
    output.truncate(written);
    output
}

fn decompress_all(input: &[u8], capacity: usize) -> Result<Vec<u8>, ErrorCode> {
    let context = Context::new().expect("init failed");
    let mut output = vec![0u8; capacity];
    let written = context.decompress(input, &mut output)?;
    output.truncate(written);
    Ok(output)
}

#[test]
fn testmini_c_port() {
    let context = Context::new().expect("init failed");
    let _ = context.version();
    let _ = context.version_string();
    let _ = context.version_date();

    let input: Vec<u8> = vec![0; 128 * 1024];
    let compress_output_len = input.len() + input.len() / 16 + 64 + 3;
    let mut compress_output = vec![0u8; compress_output_len];
    let mut workspace = Workspace::new();
    let compressed_len = context
        .compress(&input, &mut compress_output, &mut workspace)
        .expect("failed to compress");
    let compressed: &[u8] = &compress_output[..compressed_len];

    let mut decompressed = vec![0u8; 128 * 1024];
    let decompressed_len = context
        .decompress(compressed, &mut decompressed)
        .expect("failed to decompress");
    let decompressed: &[u8] = &decompressed[..decompressed_len];
    assert!(decompressed == input);
}

#[test]
fn round_trip_empty() {
    // The empty input compresses to exactly the end-of-stream marker.
    let compressed = compress_all(&[]);
    assert_eq!(compressed.len(), 1);
    let decompressed = decompress_all(&compressed, 0).expect("failed to decompress");
    assert_eq!(decompressed.len(), 0);
}

#[test]
fn round_trip_text() {
    let input = b"the quick brown fox jumps over the lazy dog; \
                  the quick brown fox jumps over the lazy dog again and again";
    let compressed = compress_all(input);
    let decompressed = decompress_all(&compressed, input.len()).expect("failed to decompress");
    assert_eq!(decompressed, input.to_vec());
}

#[test]
fn round_trip_all_byte_values() {
    let mut input = Vec::new();
    for round in 0..5u32 {
        for b in 0..=255u8 {
            input.push(b.wrapping_add(round as u8));
        }
    }
    let compressed = compress_all(&input);
    let decompressed = decompress_all(&compressed, input.len()).expect("failed to decompress");
    assert_eq!(decompressed, input);
}

#[test]
fn round_trip_single_byte() {
    let input = [0x7Fu8];
    let compressed = compress_all(&input);
    assert_eq!(compressed, vec![0x01, 0x7F, 0x00]);
    let decompressed = decompress_all(&compressed, 1).expect("failed to decompress");
    assert_eq!(decompressed, vec![0x7F]);
}

#[test]
fn zeros_compress_near_maximally() {
    // A long run of one byte value compresses to a small fraction of its
    // size through repeated maximum-length matches at distance one.
    let input = vec![0u8; 128 * 1024];
    let compressed = compress_all(&input);
    assert!(compressed.len() < input.len() / 10);
    let decompressed = decompress_all(&compressed, input.len()).expect("failed to decompress");
    assert_eq!(decompressed, input);
}

#[test]
fn worst_case_bound_holds_on_random_data() {
    // Incompressible data stays within the documented expansion bound but
    // cannot shrink below its own size.
    let input = pseudo_random_bytes(4096, 0x2545F4914F6CDD1D);
    let compressed = compress_all(&input);
    assert!(compressed.len() <= worst_case(input.len()));
    assert!(compressed.len() >= input.len());
    let decompressed = decompress_all(&compressed, input.len()).expect("failed to decompress");
    assert_eq!(decompressed, input);
}

#[test]
fn worst_case_bound_holds_on_assorted_inputs() {
    let samples: Vec<Vec<u8>> = vec![
        Vec::new(),
        vec![9u8; 1],
        vec![1u8; 127],
        vec![2u8; 128],
        b"abcabcabcabcabc".to_vec(),
        pseudo_random_bytes(1, 7),
        pseudo_random_bytes(257, 11),
        pseudo_random_bytes(1000, 13),
    ];
    for input in samples {
        let compressed = compress_all(&input);
        assert!(compressed.len() <= worst_case(input.len()));
        let decompressed =
            decompress_all(&compressed, input.len()).expect("failed to decompress");
        assert_eq!(decompressed, input);
    }
}

#[test]
fn exact_output_size_suffices() {
    // A buffer of exactly the compressed size succeeds; one byte less gives
    // OutputOverrun.
    let context = Context::new().expect("init failed");
    let input = b"exactly sized exactly sized exactly sized".to_vec();
    let compressed = compress_all(&input);

    let mut exact = vec![0u8; compressed.len()];
    let mut workspace = Workspace::new();
    let written = context
        .compress(&input, &mut exact, &mut workspace)
        .expect("failed to compress");
    assert_eq!(written, compressed.len());
    assert_eq!(&exact[..written], &compressed[..]);

    let mut short = vec![0u8; compressed.len() - 1];
    let mut workspace = Workspace::new();
    assert_eq!(
        context.compress(&input, &mut short, &mut workspace),
        Err(ErrorCode::OutputOverrun)
    );
}

#[test]
fn compression_is_deterministic() {
    // Fresh workspaces, same input: byte-identical compressed output.
    let input = pseudo_random_bytes(2048, 99);
    let mut patterned = input.clone();
    patterned.extend_from_slice(&input[..1024]);
    let first = compress_all(&patterned);
    let second = compress_all(&patterned);
    assert_eq!(first, second);
}

#[test]
fn workspace_reuse_stays_correct() {
    // A workspace carried over from an unrelated input still yields a
    // stream that decodes to the original bytes.
    let context = Context::new().expect("init failed");
    let mut workspace = Workspace::new();
    let first = pseudo_random_bytes(4096, 21);
    let mut output = vec![0u8; worst_case(first.len())];
    context
        .compress(&first, &mut output, &mut workspace)
        .expect("failed to compress");

    let second = b"a different payload, a different payload, a different payload".to_vec();
    let mut output2 = vec![0u8; worst_case(second.len())];
    let written = context
        .compress(&second, &mut output2, &mut workspace)
        .expect("failed to compress");
    let decompressed =
        decompress_all(&output2[..written], second.len()).expect("failed to decompress");
    assert_eq!(decompressed, second);
}

#[test]
fn output_one_byte_short_is_detected() {
    // An output buffer one byte smaller than the decoded length must give
    // OutputOverrun, never silent truncation.
    let input = b"overrun overrun overrun overrun overrun".to_vec();
    let compressed = compress_all(&input);
    let r = decompress_all(&compressed, input.len() - 1);
    assert_eq!(r, Err(ErrorCode::OutputOverrun));
}

#[test]
fn truncated_input_is_detected() {
    // Every strict prefix of a valid stream fails with InputOverrun or
    // EofNotFound, never with a wrong but successful result.
    let mut input = b"truncate me truncate me truncate me".to_vec();
    input.extend_from_slice(&pseudo_random_bytes(300, 5));
    let compressed = compress_all(&input);
    for k in 0..compressed.len() {
        let r = decompress_all(&compressed[..k], input.len());
        assert!(
            r == Err(ErrorCode::InputOverrun) || r == Err(ErrorCode::EofNotFound),
            "prefix of {} bytes gave {:?}",
            k,
            r
        );
    }
}

#[test]
fn lookbehind_before_output_start_is_detected() {
    // A short match at the very start points before any produced output.
    let r = decompress_all(&[0x80, 0x00, 0x00], 64);
    assert_eq!(r, Err(ErrorCode::LookbehindOverrun));
    // A long match reaching farther back than the bytes produced so far.
    let r = decompress_all(&[0x01, 0x41, 0xC0, 0x05, 0x00, 0x00], 64);
    assert_eq!(r, Err(ErrorCode::LookbehindOverrun));
}

#[test]
fn overlapping_copy_repeats_bytes() {
    // One literal byte, then a match of length three at distance one: the
    // copy overlaps its own output and repeats the byte.
    let out = decompress_all(&[0x01, 0x41, 0x80, 0x00, 0x00], 16).expect("failed to decompress");
    assert_eq!(out, b"AAAA".to_vec());
}

#[test]
fn short_match_copies_exactly() {
    // "ab", then five bytes from distance two: "ababa".
    let out =
        decompress_all(&[0x02, 0x61, 0x62, 0x82, 0x01, 0x00], 16).expect("failed to decompress");
    assert_eq!(out, b"abababa".to_vec());
}

#[test]
fn long_match_copies_exactly() {
    // Three hundred literal bytes, then four bytes from distance 300, which
    // needs the two-byte distance form: the first four bytes come back.
    let mut stream = Vec::new();
    let mut expected = Vec::new();
    for run in 0..3u32 {
        stream.push(100u8);
        for i in 0..100u32 {
            let b = (run * 100 + i) as u8;
            stream.push(b);
            expected.push(b);
        }
    }
    stream.push(0xC0);
    stream.push(43);
    stream.push(1);
    expected.extend_from_slice(&[0, 1, 2, 3]);
    stream.push(0x00);
    let out = decompress_all(&stream, 512).expect("failed to decompress");
    assert_eq!(out, expected);
}
