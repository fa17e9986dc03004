use tldir::chunking::DirectoryChunker;
use tldir::errors::TldirError;

fn sample_text(len: usize) -> String {
    // deterministic ASCII text of the requested character length
    let mut s = String::new();
    let alphabet = b"abcdefghijklmnopqrstuvwxyz0123456789 ";
    for i in 0..len {
        s.push(alphabet[i % alphabet.len()] as char);
    }
    s
}

#[test]
fn test_chunk_size_and_overlap() {
    let chunker = DirectoryChunker::new(100, 20);
    let text = sample_text(337);

    let chunks = chunker.chunk_content(&text, "sample.txt").unwrap();

    for (i, chunk) in chunks.iter().enumerate() {
        if i > 0 {
            let prev_chunk = &chunks[i - 1];
            assert_eq!(
                chunk.content[..20],
                prev_chunk.content[prev_chunk.content.len() - 20..]
            );
        }
        assert!(chunk.content.len() <= 100);
    }
}

#[test]
fn test_utf8_validation() {
    let chunker = DirectoryChunker::new(100, 20);
    let binary: Vec<u8> = vec![0xff, 0xfe, 0x00, 0x80, 0xc3, 0x28, 0xa0, 0xa1];

    let result = chunker.chunk_bytes(&binary, "binary.bin");

    assert!(result.is_err());
    assert!(matches!(result, Err(TldirError::InvalidEncoding)));
}

#[test]
fn test_fixed_width_offsets() {
    // window 100, overlap 20, 250 characters: spans [0,100), [80,180), [160,250)
    let chunker = DirectoryChunker::new(100, 20);
    let text = sample_text(250);

    let chunks = chunker.chunk_content(&text, "f").unwrap();

    assert_eq!(chunks.len(), 3);
    assert_eq!((chunks[0].start_pos, chunks[0].end_pos), (0, 100));
    assert_eq!((chunks[1].start_pos, chunks[1].end_pos), (80, 180));
    assert_eq!((chunks[2].start_pos, chunks[2].end_pos), (160, 250));
    assert_eq!(chunks[0].content, text[0..100]);
    assert_eq!(chunks[1].content, text[80..180]);
    assert_eq!(chunks[2].content, text[160..250]);
    // each consecutive pair shares the 20 characters at the boundary
    assert_eq!(chunks[0].content[80..100], chunks[1].content[0..20]);
    assert_eq!(chunks[1].content[80..100], chunks[2].content[0..20]);
}

#[test]
fn test_chunks_cover_text() {
    let chunker = DirectoryChunker::new(7, 3);
    let text = sample_text(33);
    let chunks = chunker.chunk_content(&text, "f").unwrap();

    // union of spans covers every position, in order
    assert_eq!(chunks[0].start_pos, 0);
    assert_eq!(chunks.last().unwrap().end_pos, 33);
    for w in chunks.windows(2) {
        assert!(w[1].start_pos <= w[0].end_pos);
        assert!(w[1].end_pos > w[0].end_pos);
    }
    for chunk in &chunks {
        assert_eq!(chunk.content, text[chunk.start_pos..chunk.end_pos]);
        assert_eq!(chunk.file_path, "f");
    }
}

#[test]
fn test_invalid_window_config() {
    let chunker = DirectoryChunker::new(10, 10);
    let result = chunker.chunk_content("some text", "f");
    assert!(matches!(result, Err(TldirError::InvalidConfig)));

    let chunker = DirectoryChunker::new(0, 0);
    let result = chunker.chunk_content("some text", "f");
    assert!(matches!(result, Err(TldirError::InvalidConfig)));
}

#[test]
fn test_empty_text_no_chunks() {
    let chunker = DirectoryChunker::new(100, 20);
    let chunks = chunker.chunk_content("", "f").unwrap();
    assert!(chunks.is_empty());
}

#[test]
fn test_multibyte_boundaries() {
    // offsets are character offsets: no multi-byte code point is split
    let chunker = DirectoryChunker::new(4, 1);
    let text = "héllo wörld ünïcode";
    let chunks = chunker.chunk_content(text, "f").unwrap();
    let all_chars: Vec<char> = text.chars().collect();
    for chunk in &chunks {
        let expected: String = all_chars[chunk.start_pos..chunk.end_pos].iter().collect();
        assert_eq!(chunk.content, expected);
    }
    assert_eq!(chunks.last().unwrap().end_pos, all_chars.len());
}

#[test]
fn test_valid_utf8_bytes_chunked() {
    let chunker = DirectoryChunker::new(5, 2);
    let bytes = "hello small world".as_bytes().to_vec();
    let chunks = chunker.chunk_bytes(&bytes, "f").unwrap();
    assert!(!chunks.is_empty());
    assert_eq!(chunks[0].content, "hello");
}
