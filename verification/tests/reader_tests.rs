use japanese_text_analyzer::chunker::chunk_utf8_string;
use japanese_text_analyzer::chunker::split_lines;
use japanese_text_analyzer::compress::decode_zstd;
use japanese_text_analyzer::utf8_bufreader::parse_utf8_buffer;
use japanese_text_analyzer::utf8_bufreader::read_chunks;

#[test]
fn reading_valid_utf8_reproduces_the_content_exactly() {
    let content = "こんにちは世界abcさっぽろテレビ塔x";
    let data: Vec<u8> = content.as_bytes().to_vec();
    for buffer_size in [4, 5, 7, 16, 1024] {
        let chunks = read_chunks(&data, buffer_size).expect("valid UTF-8 must stream");
        let joined: String = chunks.concat();
        assert_eq!(joined, content, "buffer size {buffer_size}");
        for chunk in &chunks {
            assert!(chunk.len() <= buffer_size);
            assert!(!chunk.is_empty());
        }
    }
}

#[test]
fn no_chunk_ends_mid_character() {
    // With a 4-byte window over 3-byte characters, every boundary falls
    // inside a character; the reader must cut at character boundaries.
    let content = "あいうえお";
    let data: Vec<u8> = content.as_bytes().to_vec();
    let chunks = read_chunks(&data, 4).expect("valid UTF-8 must stream");
    assert_eq!(chunks, vec!["あ", "い", "う", "え", "お"]);
}

#[test]
fn undecodable_windows_stop_the_stream() {
    let data: Vec<u8> = vec![0xff, 0x61, 0x62];
    assert_eq!(read_chunks(&data, 4), None);
    let later: Vec<u8> = vec![0x61, 0x62, 0x63, 0x64, 0xff, 0xfe, 0xfd, 0xfc];
    assert_eq!(read_chunks(&later, 4), None);
}

#[test]
fn parsing_yields_the_longest_valid_prefix() {
    // "あ" encodes as three bytes; a buffer cut after its first byte must
    // yield only the ASCII prefix and report one byte consumed.
    let mut data: Vec<u8> = vec![0x61];
    data.extend_from_slice(&"あ".as_bytes()[..2]);
    let (text, used) = parse_utf8_buffer(&data, false);
    assert_eq!(text, "a");
    assert_eq!(used, 1);

    let whole: Vec<u8> = "aあ".as_bytes().to_vec();
    let (text, used) = parse_utf8_buffer(&whole, false);
    assert_eq!(text, "aあ");
    assert_eq!(used, whole.len());
}

#[test]
fn an_undecodable_start_yields_nothing_in_safe_mode() {
    let data: Vec<u8> = vec![0x80, 0x61];
    let (text, used) = parse_utf8_buffer(&data, false);
    assert_eq!(text, "");
    assert_eq!(used, 0);
}

#[test]
fn unsafe_mode_substitutes_replacement_characters() {
    let data: Vec<u8> = vec![0x80, 0x61, 0xff, 0x62];
    let (text, used) = parse_utf8_buffer(&data, true);
    assert_eq!(used, data.len());
    assert_eq!(text, "\u{fffd}a\u{fffd}b");
}

#[test]
fn chunks_concatenate_to_the_input() {
    let input = "abcdef";
    let chunks = chunk_utf8_string(input.to_string(), 4);
    assert_eq!(chunks, vec!["abcd", "ef"]);
    assert_eq!(chunks.concat(), input);

    let japanese = "あいうえお";
    let chunks = chunk_utf8_string(japanese.to_string(), 4);
    assert_eq!(chunks, vec!["あ", "い", "う", "え", "お"]);
    assert_eq!(chunks.concat(), japanese);

    let mixed = "aあbいc";
    let chunks = chunk_utf8_string(mixed.to_string(), 4);
    assert_eq!(chunks.concat(), mixed);
    for chunk in &chunks {
        assert!(chunk.len() <= 4);
        assert!(!chunk.is_empty());
    }
}

#[test]
fn chunking_an_empty_string_yields_no_chunks() {
    let chunks = chunk_utf8_string(String::new(), 16);
    assert!(chunks.is_empty());
    assert_eq!(chunks.concat(), "");
}

#[test]
fn chunks_never_exceed_the_byte_budget() {
    let input = "医薬品安全管理責任者".repeat(20);
    for budget in [4, 5, 9, 30] {
        let chunks = chunk_utf8_string(input.clone(), budget);
        assert_eq!(chunks.concat(), input);
        for chunk in &chunks {
            assert!(chunk.len() <= budget, "budget {budget}");
        }
    }
}

#[test]
fn lines_split_on_every_newline() {
    let segs = split_lines("a\nb\n");
    assert_eq!(segs, vec!["a", "b", ""]);
    assert_eq!(split_lines(""), vec![""]);
    assert_eq!(split_lines("日本\n語"), vec!["日本", "語"]);
    assert_eq!(split_lines("\n\n"), vec!["", "", ""]);
}

#[test]
fn zstd_frames_decode_to_their_original_bytes() {
    let original: Vec<u8> = "医薬品安全管理責任者".as_bytes().repeat(50);
    let mut compressed: Vec<u8> = Vec::with_capacity(zstd_safe::compress_bound(original.len()));
    zstd_safe::compress(&mut compressed, &original, 3).expect("compression succeeds");
    assert_ne!(compressed, original);
    let decoded = decode_zstd(&compressed).expect("a valid frame decodes");
    assert_eq!(decoded, original);
}

#[test]
fn garbage_is_not_a_zstd_frame() {
    let garbage: Vec<u8> = vec![1, 2, 3, 4, 5, 6, 7, 8];
    assert!(decode_zstd(&garbage).is_err());
}
