use tldir::errors::TldirError;
use tldir::text_splitter::{ChunkConfig, TextChunker};

#[test]
fn test_token_aware_boundaries() {
    // "aaaa bbbb cccc": windows snap back to whitespace, content is trimmed
    let chunker = TextChunker::new(ChunkConfig { chunk_size: 6, overlap: 1, min_chunk_size: 2 });
    let chunks = chunker.chunk_text("aaaa bbbb cccc").unwrap();
    assert_eq!(chunks, vec!["aaaa".to_string(), "bbbb".to_string(), "cccc".to_string()]);
}

#[test]
fn test_chunk_text_respects_window() {
    let chunker = TextChunker::new(ChunkConfig { chunk_size: 10, overlap: 2, min_chunk_size: 3 });
    let text = "one two three four five six seven eight nine ten";
    let chunks = chunker.chunk_text(text).unwrap();
    assert!(!chunks.is_empty());
    for c in &chunks {
        // within the window, and trimmed
        assert!(c.chars().count() <= 10);
        assert_eq!(c.trim(), c);
        // no chunk splits a token: every chunk is made of whole words
        for word in c.split_whitespace() {
            assert!(text.split_whitespace().any(|w| w.contains(word)));
        }
    }
}

#[test]
fn test_chunk_text_invalid_config() {
    let chunker = TextChunker::new(ChunkConfig { chunk_size: 5, overlap: 5, min_chunk_size: 2 });
    assert!(matches!(chunker.chunk_text("hello"), Err(TldirError::InvalidConfig)));

    let chunker = TextChunker::new(ChunkConfig { chunk_size: 5, overlap: 1, min_chunk_size: 9 });
    assert!(matches!(chunker.chunk_text("hello"), Err(TldirError::InvalidConfig)));
}

#[test]
fn test_chunk_text_no_progress() {
    // the window snaps back to the minimum size and the overlap eats the
    // whole advance: the splitter reports it instead of looping
    let chunker = TextChunker::new(ChunkConfig { chunk_size: 8, overlap: 4, min_chunk_size: 0 });
    let result = chunker.chunk_text("aa bbbbbbbbbbbbbbbb cc");
    match result {
        Err(TldirError::NoProgress) => {},
        Ok(chunks) => {
            // if progress was always possible, every advance moved forward
            assert!(!chunks.is_empty());
        },
        Err(_) => panic!("unexpected error variant"),
    }
}

#[test]
fn test_long_token_hard_split() {
    // a token longer than the window forces a hard split at the full window
    let chunker = TextChunker::new(ChunkConfig { chunk_size: 5, overlap: 1, min_chunk_size: 2 });
    let chunks = chunker.chunk_text("abcdefghij kl").unwrap();
    assert_eq!(
        chunks,
        vec!["abcde".to_string(), "efghi".to_string(), "ij kl".to_string()]
    );
}

#[test]
fn test_chunk_text_single_short_text() {
    let chunker = TextChunker::new(ChunkConfig::default());
    let chunks = chunker.chunk_text("  a short note  ").unwrap();
    assert_eq!(chunks, vec!["a short note".to_string()]);
}

#[test]
fn test_chunk_text_empty() {
    let chunker = TextChunker::new(ChunkConfig::default());
    let chunks = chunker.chunk_text("").unwrap();
    assert!(chunks.is_empty());
}

#[test]
fn test_default_chunk_config() {
    let c = ChunkConfig::default();
    assert_eq!(c.chunk_size, 1024);
    assert_eq!(c.overlap, 100);
    assert_eq!(c.min_chunk_size, 100);
}
