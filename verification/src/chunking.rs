use vstd::prelude::*;
use vstd::utf8::{decode_utf8, valid_utf8};

use crate::errors::TldirError;

verus! {

/// One bounded span of a source file's text.
///
/// `start_pos` and `end_pos` are character offsets into the decoded text of
/// the file; `content` is exactly the text between them. Offsets therefore
/// never split a multi-byte code point.
pub struct Chunk {
    pub content: String,
    pub file_path: String,
    pub start_pos: usize,
    pub end_pos: usize,
}

/// A window/overlap pair is valid when the window is positive and strictly
/// larger than the (non-negative) overlap, so that every advance of the
/// window strictly increases its start.
pub open spec fn valid_window(window: int, overlap: int) -> bool {
    0 <= overlap < window
}

/// The (start, end) character spans of the fixed-width windows over a text
/// of `len` characters, beginning at `start`: each window is `[s, s + window)`
/// clipped to the text length, and the start advances by `window - overlap`.
/// The final window ends exactly at the end of the text and is never dropped,
/// however short.
pub open spec fn window_spans(len: int, start: int, window: int, overlap: int) -> Seq<(int, int)>
    decreases len - start,
{
    if !valid_window(window, overlap) || start < 0 || start >= len {
        Seq::empty()
    } else if start + window >= len {
        seq![(start, len)]
    } else {
        seq![(start, start + window)] + window_spans(len, start + (window - overlap), window, overlap)
    }
}

/// `chunks` is exactly the fixed-width chunking of `text` (attributed to
/// `path`) under the given window and overlap.
pub open spec fn chunks_match(
    chunks: Seq<Chunk>,
    text: Seq<char>,
    path: Seq<char>,
    window: int,
    overlap: int,
) -> bool {
    let spans = window_spans(text.len() as int, 0, window, overlap);
    &&& chunks.len() == spans.len()
    &&& forall|i: int|
        0 <= i < spans.len() ==> {
            &&& (#[trigger] chunks[i]).start_pos as int == spans[i].0
            &&& chunks[i].end_pos as int == spans[i].1
            &&& chunks[i].content@ == text.subrange(spans[i].0, spans[i].1)
            &&& chunks[i].file_path@ == path
        }
}

/// Splits a file's decoded text into fixed-width, overlapping chunks.
pub struct DirectoryChunker {
    pub chunk_size: usize,
    pub overlap: usize,
}

/// Relies on `core::str::from_utf8`: it returns the decoded text exactly
/// when the bytes are valid UTF-8, and an error otherwise. vstd's
/// `valid_utf8` / `decode_utf8` specify that same encoding.
#[verifier::external_body]
fn decode_text(bytes: &[u8]) -> (r: Option<String>)
    ensures
        r matches Some(s) ==> valid_utf8(bytes@) && s@ == decode_utf8(bytes@),
        r is None ==> !valid_utf8(bytes@),
{
    match core::str::from_utf8(bytes) {
        Ok(s) => Some(s.to_owned()),
        Err(_) => None,
    }
}

impl DirectoryChunker {
    pub fn new(chunk_size: usize, overlap: usize) -> (r: Self)
        ensures
            r.chunk_size == chunk_size,
            r.overlap == overlap,
    {
        DirectoryChunker { chunk_size, overlap }
    }

    /// Splits already-decoded text into fixed-width overlapping chunks.
    ///
    /// Fails with `InvalidConfig` exactly when the window/overlap pair is
    /// invalid; otherwise returns precisely the windows of `window_spans`,
    /// each chunk's content being the text between its offsets.
    pub fn chunk_content(&self, content: &str, file_path: &str) -> (r: Result<
        Vec<Chunk>,
        TldirError,
    >)
        ensures
            !valid_window(self.chunk_size as int, self.overlap as int) ==> (r matches Err(e)
                && e is InvalidConfig),
            valid_window(self.chunk_size as int, self.overlap as int) ==> (r matches Ok(chunks)
                && chunks_match(
                chunks@,
                content@,
                file_path@,
                self.chunk_size as int,
                self.overlap as int,
            )),
    {
        if self.chunk_size == 0 || self.overlap >= self.chunk_size {
            return Err(TldirError::InvalidConfig);
        }
        let w = self.chunk_size;
        let o = self.overlap;
        let n = content.unicode_len();
        let ghost spans = window_spans(n as int, 0, w as int, o as int);
        let mut chunks: Vec<Chunk> = Vec::new();
        if n == 0 {
            return Ok(chunks);
        }
        let mut start: usize = 0;
        loop
            invariant_except_break
                0 <= start < n,
                spans.skip(chunks@.len() as int) == window_spans(
                    n as int,
                    start as int,
                    w as int,
                    o as int,
                ),
            invariant
                valid_window(w as int, o as int),
                n == content@.len(),
                spans == window_spans(n as int, 0, w as int, o as int),
                chunks@.len() <= spans.len(),
                forall|i: int|
                    0 <= i < chunks@.len() ==> {
                        &&& (#[trigger] chunks@[i]).start_pos as int == spans[i].0
                        &&& chunks@[i].end_pos as int == spans[i].1
                        &&& chunks@[i].content@ == content@.subrange(spans[i].0, spans[i].1)
                        &&& chunks@[i].file_path@ == file_path@
                    },
            ensures
                chunks@.len() == spans.len(),
            decreases n - start,
        {
            let ghost k = chunks@.len() as int;
            let ghost rest = window_spans(n as int, start as int, w as int, o as int);
            proof {
                assert(rest.len() > 0);
                assert(spans.skip(k)[0] == spans[k]);
            }
            let end = if w >= n - start {
                n
            } else {
                start + w
            };
            proof {
                assert(rest[0] == (start as int, end as int));
            }
            let piece = content.substring_char(start, end);
            chunks.push(
                Chunk {
                    content: piece.to_owned(),
                    file_path: file_path.to_owned(),
                    start_pos: start,
                    end_pos: end,
                },
            );
            proof {
                assert(spans.skip(k).drop_first() =~= spans.skip(k + 1));
            }
            if end == n {
                proof {
                    assert(rest =~= seq![(start as int, n as int)]);
                    assert(chunks@.len() == spans.len());
                }
                break ;
            }
            start = start + (w - o);
        }
        Ok(chunks)
    }

    /// Decodes `bytes` as text and chunks it. Chunking is all-or-nothing per
    /// file: input that is not valid text fails with `InvalidEncoding` and
    /// produces no chunks.
    pub fn chunk_bytes(&self, bytes: &[u8], file_path: &str) -> (r: Result<Vec<Chunk>, TldirError>)
        ensures
            !valid_utf8(bytes@) ==> (r matches Err(e) && e is InvalidEncoding),
            valid_utf8(bytes@) && !valid_window(self.chunk_size as int, self.overlap as int)
                ==> (r matches Err(e) && e is InvalidConfig),
            valid_utf8(bytes@) && valid_window(self.chunk_size as int, self.overlap as int)
                ==> (r matches Ok(chunks) && chunks_match(
                chunks@,
                decode_utf8(bytes@),
                file_path@,
                self.chunk_size as int,
                self.overlap as int,
            )),
    {
        match decode_text(bytes) {
            None => Err(TldirError::InvalidEncoding),
            Some(content) => self.chunk_content(content.as_str(), file_path),
        }
    }
}

/// The structure of the fixed-width windows: window `i` starts at
/// `start + i * (window - overlap)`, ends `window` later unless clipped to the
/// text length, and only the last window is clipped.
pub proof fn lemma_span_structure(len: int, start: int, window: int, overlap: int, i: int)
    requires
        valid_window(window, overlap),
        0 <= start < len,
        0 <= i < window_spans(len, start, window, overlap).len(),
    ensures
        window_spans(len, start, window, overlap)[i].0 == start + i * (window - overlap),
        window_spans(len, start, window, overlap)[i].1 == if window_spans(
            len,
            start,
            window,
            overlap,
        )[i].0 + window >= len {
            len
        } else {
            window_spans(len, start, window, overlap)[i].0 + window
        },
        i < window_spans(len, start, window, overlap).len() - 1 ==> window_spans(
            len,
            start,
            window,
            overlap,
        )[i].0 + window < len,
    decreases i,
{
    let spans = window_spans(len, start, window, overlap);
    if start + window >= len {
        assert(i == 0);
        assert(i * (window - overlap) == 0) by (nonlinear_arith)
            requires i == 0;
    } else {
        if i == 0 {
            assert(i * (window - overlap) == 0) by (nonlinear_arith)
                requires i == 0;
        } else {
            let start2 = start + (window - overlap);
            let tail = window_spans(len, start2, window, overlap);
            assert(spans[i] == tail[i - 1]);
            lemma_span_structure(len, start2, window, overlap, i - 1);
            assert((i - 1) * (window - overlap) + (window - overlap) == i * (window - overlap))
                by (nonlinear_arith);
        }
    }
}

/// Chunk union covers the text: every character position of the text lies
/// inside at least one window.
pub proof fn lemma_windows_cover(len: int, window: int, overlap: int, pos: int)
    requires
        valid_window(window, overlap),
        0 <= pos < len,
    ensures
        exists|i: int|
            0 <= i < window_spans(len, 0, window, overlap).len() && (#[trigger] window_spans(
                len,
                0,
                window,
                overlap,
            )[i]).0 <= pos < window_spans(len, 0, window, overlap)[i].1,
{
    lemma_windows_cover_from(len, 0, window, overlap, pos);
}

proof fn lemma_windows_cover_from(len: int, start: int, window: int, overlap: int, pos: int)
    requires
        valid_window(window, overlap),
        0 <= start <= pos < len,
    ensures
        exists|i: int|
            0 <= i < window_spans(len, start, window, overlap).len() && (#[trigger] window_spans(
                len,
                start,
                window,
                overlap,
            )[i]).0 <= pos < window_spans(len, start, window, overlap)[i].1,
    decreases len - start,
{
    let spans = window_spans(len, start, window, overlap);
    if start + window >= len {
        assert(spans[0].0 <= pos < spans[0].1);
    } else if pos < start + window {
        assert(spans[0].0 <= pos < spans[0].1);
    } else {
        let start2 = start + (window - overlap);
        lemma_windows_cover_from(len, start2, window, overlap, pos);
        let tail = window_spans(len, start2, window, overlap);
        let j = choose|j: int| 0 <= j < tail.len() && (#[trigger] tail[j]).0 <= pos < tail[j].1;
        assert(spans[j + 1] == tail[j]);
        assert(spans[j + 1].0 <= pos < spans[j + 1].1);
    }
}

/// Two consecutive windows share exactly `overlap` characters, and the shared
/// text is identical between the two chunks: the last `overlap` characters of
/// window `i` are the first `overlap` characters of window `i + 1`.
pub proof fn lemma_adjacent_windows_share_overlap(
    text: Seq<char>,
    window: int,
    overlap: int,
    i: int,
)
    requires
        valid_window(window, overlap),
        text.len() > 0,
        0 <= i,
        i + 1 < window_spans(text.len() as int, 0, window, overlap).len(),
    ensures
        ({
            let spans = window_spans(text.len() as int, 0, window, overlap);
            let a = spans[i];
            let b = spans[i + 1];
            &&& a.1 - b.0 == overlap
            &&& b.1 >= b.0 + overlap
            &&& text.subrange(a.0, a.1).skip(window - overlap) == text.subrange(b.0, b.1).take(
                overlap,
            )
        }),
{
    let len = text.len() as int;
    let spans = window_spans(len, 0, window, overlap);
    lemma_span_structure(len, 0, window, overlap, i);
    lemma_span_structure(len, 0, window, overlap, i + 1);
    let a = spans[i];
    let b = spans[i + 1];
    assert((i + 1) * (window - overlap) == i * (window - overlap) + (window - overlap))
        by (nonlinear_arith);
    assert(b.0 == a.0 + (window - overlap));
    assert(a.1 == a.0 + window);
    assert(a.1 - b.0 == overlap);
    assert(b.1 >= b.0 + overlap);
    assert(text.subrange(a.0, a.1).skip(window - overlap) =~= text.subrange(b.0, a.1));
    assert(text.subrange(b.0, b.1).take(overlap) =~= text.subrange(b.0, a.1));
}


/// Coverage, stated over the chunks themselves: every character position of
/// the text lies inside at least one chunk of a valid fixed-width chunking.
pub proof fn lemma_chunks_cover(
    chunks: Seq<Chunk>,
    text: Seq<char>,
    path: Seq<char>,
    window: int,
    overlap: int,
    pos: int,
)
    requires
        valid_window(window, overlap),
        chunks_match(chunks, text, path, window, overlap),
        0 <= pos < text.len(),
    ensures
        exists|i: int|
            0 <= i < chunks.len() && (#[trigger] chunks[i]).start_pos <= pos < chunks[i].end_pos,
{
    lemma_windows_cover(text.len() as int, window, overlap, pos);
    let spans = window_spans(text.len() as int, 0, window, overlap);
    let i = choose|i: int|
        0 <= i < spans.len() && (#[trigger] spans[i]).0 <= pos < spans[i].1;
    assert(chunks[i].start_pos <= pos < chunks[i].end_pos);
}

/// Exact overlap, stated over the chunks themselves: in a valid fixed-width
/// chunking, each chunk but the last shares with its successor exactly
/// `overlap` characters, and the shared text is identical in both chunks:
/// the last `overlap` characters of one are the first `overlap` characters
/// of the next.
pub proof fn lemma_chunks_share_overlap(
    chunks: Seq<Chunk>,
    text: Seq<char>,
    path: Seq<char>,
    window: int,
    overlap: int,
    i: int,
)
    requires
        valid_window(window, overlap),
        chunks_match(chunks, text, path, window, overlap),
        text.len() > 0,
        0 <= i,
        i + 1 < chunks.len(),
    ensures
        chunks[i].end_pos - chunks[i + 1].start_pos == overlap,
        chunks[i].content@.len() == window,
        chunks[i + 1].content@.len() >= overlap,
        chunks[i].content@.skip(window - overlap) == chunks[i + 1].content@.take(overlap),
{
    let len = text.len() as int;
    let spans = window_spans(len, 0, window, overlap);
    lemma_span_structure(len, 0, window, overlap, i);
    lemma_span_structure(len, 0, window, overlap, i + 1);
    lemma_adjacent_windows_share_overlap(text, window, overlap, i);
    let a = spans[i];
    let b = spans[i + 1];
    assert(chunks[i].content@ == text.subrange(a.0, a.1));
    assert(chunks[i + 1].content@ == text.subrange(b.0, b.1));
    assert(a.1 == a.0 + window);
}


} // verus!
