use whytchat_core::chunker::{chunk_text, normalize_newlines};

#[test]
fn chunk_empty_text_yields_no_chunks() {
    let chunks = chunk_text("");
    assert_eq!(chunks.len(), 0);
}

#[test]
fn chunk_short_text_is_one_chunk() {
    let chunks = chunk_text("hello world");
    assert_eq!(chunks.len(), 1);
    assert_eq!(chunks[0], "hello world");
}

#[test]
fn chunk_exactly_window_is_one_chunk() {
    let text: String = std::iter::repeat('x').take(1200).collect();
    let chunks = chunk_text(&text);
    assert_eq!(chunks.len(), 1);
    assert_eq!(chunks[0].len(), 1200);
}

#[test]
fn chunk_1300_identical_characters_gives_two_overlapping_chunks() {
    let text: String = std::iter::repeat('A').take(1300).collect();
    let chunks = chunk_text(&text);
    assert_eq!(chunks.len(), 2);
    assert_eq!(chunks[0], text[0..1200]);
    assert_eq!(chunks[1], text[1000..1300]);
}

#[test]
fn chunk_just_over_window_gives_two_chunks() {
    let text: String = (0..1201).map(|i| (b'a' + (i % 26) as u8) as char).collect();
    let chunks = chunk_text(&text);
    assert_eq!(chunks.len(), 2);
    assert_eq!(chunks[0], text[0..1200]);
    assert_eq!(chunks[1], text[1000..1201]);
}

#[test]
fn chunks_cover_text_and_overlap_by_200() {
    let text: String = (0..2500).map(|i| (b'a' + (i % 26) as u8) as char).collect();
    let chunks = chunk_text(&text);
    assert_eq!(chunks.len(), 3);
    assert_eq!(chunks[0], text[0..1200]);
    assert_eq!(chunks[1], text[1000..2200]);
    assert_eq!(chunks[2], text[2000..2500]);
    // consecutive chunks agree on exactly 200 shared characters
    assert_eq!(chunks[0][1000..1200], chunks[1][0..200]);
    assert_eq!(chunks[1][1000..1200], chunks[2][0..200]);
    // the last chunk ends exactly at the end of the text
    assert!(text.ends_with(chunks[2].as_str()));
    // every character is inside some chunk window
    let reassembled = format!("{}{}{}", &chunks[0][0..1000], &chunks[1][0..1000], &chunks[2]);
    assert_eq!(reassembled, text);
}

#[test]
fn normalize_replaces_crlf_with_lf() {
    assert_eq!(normalize_newlines("a\r\nb\r\nc"), "a\nb\nc");
    assert_eq!(normalize_newlines("plain"), "plain");
    assert_eq!(normalize_newlines("\r\r\n"), "\r\n");
    assert_eq!(normalize_newlines("tail\r"), "tail\r");
    assert_eq!(normalize_newlines(""), "");
}

#[test]
fn chunking_applies_to_normalized_text() {
    let raw: String = "ab\r\n".repeat(400);
    let normalized = normalize_newlines(&raw);
    assert_eq!(normalized.len(), 1200);
    let chunks = chunk_text(&normalized);
    assert_eq!(chunks.len(), 1);
}
