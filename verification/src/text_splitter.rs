use vstd::prelude::*;

use crate::errors::TldirError;

verus! {

/// Sizing of the token-aware chunking strategy.
#[derive(Clone, Copy, Debug)]
pub struct ChunkConfig {
    pub chunk_size: usize,
    pub overlap: usize,
    pub min_chunk_size: usize,
}

impl Default for ChunkConfig {
    /// The default sizing: 1024-character windows, 100 characters of
    /// overlap, 100-character minimum chunk size.
    fn default() -> (r: Self)
        ensures
            r.chunk_size == 1024,
            r.overlap == 100,
            r.min_chunk_size == 100,
    {
        ChunkConfig { chunk_size: 1024, overlap: 100, min_chunk_size: 100 }
    }
}

/// The sizing contract: the window exceeds the overlap, and the minimum
/// chunk size fits inside the window.
pub open spec fn valid_chunk_config(c: ChunkConfig) -> bool {
    c.overlap < c.chunk_size && c.min_chunk_size <= c.chunk_size
}

/// The whitespace characters the splitter trims and treats as token
/// boundaries.
pub open spec fn is_ws(c: char) -> bool {
    c == ' ' || c == '\t' || c == '\n' || c == '\r'
}

fn is_ws_exec(c: char) -> (r: bool)
    ensures
        r == is_ws(c),
{
    c == ' ' || c == '\t' || c == '\n' || c == '\r'
}

/// Position `p` would split a token: it lies strictly inside a maximal run
/// of non-whitespace characters.
pub open spec fn splits_token(text: Seq<char>, p: int) -> bool {
    0 < p < text.len() && !is_ws(text[p - 1]) && !is_ws(text[p])
}

/// The largest position in `[lo, hi]` that does not split a token, or
/// `fallback` when every position in the range does (a hard split).
pub open spec fn snap_or(text: Seq<char>, lo: int, hi: int, fallback: int) -> int
    decreases hi - lo,
{
    if !splits_token(text, hi) {
        hi
    } else if hi <= lo {
        fallback
    } else {
        snap_or(text, lo, hi - 1, fallback)
    }
}

/// `s` without its leading whitespace.
pub open spec fn trim_front(s: Seq<char>) -> Seq<char>
    decreases s.len(),
{
    if s.len() > 0 && is_ws(s[0]) {
        trim_front(s.drop_first())
    } else {
        s
    }
}

/// `s` without its trailing whitespace.
pub open spec fn trim_back(s: Seq<char>) -> Seq<char>
    decreases s.len(),
{
    if s.len() > 0 && is_ws(s.last()) {
        trim_back(s.drop_last())
    } else {
        s
    }
}

/// `s` without leading and trailing whitespace.
pub open spec fn trimmed(s: Seq<char>) -> Seq<char> {
    trim_back(trim_front(s))
}

/// The character spans of the token-aware strategy over `text`: fixed
/// windows whose end is snapped back to the nearest token boundary (never
/// below the minimum chunk size; a window without a boundary is split
/// hard), each following window starting `overlap` characters before the
/// previous end. The final window always ends at the end of the text.
/// `None` when an advance would not move the start forward.
pub open spec fn token_spans(
    text: Seq<char>,
    start: int,
    window: int,
    overlap: int,
    min_size: int,
) -> Option<Seq<(int, int)>>
    decreases text.len() - start,
{
    let len = text.len() as int;
    if !(0 <= overlap < window) || min_size < 0 || start < 0 || start >= len {
        Some(Seq::empty())
    } else {
        let hard = if start + window >= len {
            len
        } else {
            start + window
        };
        let lo = if start + min_size >= hard {
            hard
        } else {
            start + min_size
        };
        let e0 = snap_or(text, lo, hard, hard);
        let e = if e0 < lo {
            lo
        } else if e0 > hard {
            hard
        } else {
            e0
        };
        if e == len {
            Some(seq![(start, e)])
        } else {
            let next = e - overlap;
            if next <= start {
                None
            } else {
                match token_spans(text, next, window, overlap, min_size) {
                    None => None,
                    Some(rest) => Some(seq![(start, e)] + rest),
                }
            }
        }
    }
}


/// What the downward search finds: a position within `[lo, hi]` that does
/// not split a token, unless every position of the range does — then the
/// fallback.
proof fn lemma_snap_or_sound(text: Seq<char>, lo: int, hi: int, fb: int)
    requires
        lo <= hi,
    ensures
        lo <= snap_or(text, lo, hi, fb) <= hi || snap_or(text, lo, hi, fb) == fb,
        !splits_token(text, snap_or(text, lo, hi, fb)) || (snap_or(text, lo, hi, fb) == fb && (
        forall|p: int| lo <= p <= hi ==> #[trigger] splits_token(text, p))),
    decreases hi - lo,
{
    if !splits_token(text, hi) {
    } else if hi <= lo {
    } else {
        lemma_snap_or_sound(text, lo, hi - 1, fb);
    }
}

/// Window ends respect token boundaries as far as the text allows: in a
/// successful token-aware chunking, every chunk ends at the end of the
/// text, or at a position that does not split a token, or — only when every
/// admissible end of its window (from the minimum chunk size up) lies
/// inside one unbroken token longer than the window allows — at a forced
/// hard split at the full window.
pub proof fn lemma_token_spans_respect_tokens(
    text: Seq<char>,
    start: int,
    window: int,
    overlap: int,
    min_size: int,
    i: int,
)
    requires
        token_spans(text, start, window, overlap, min_size) is Some,
        0 <= i < (token_spans(text, start, window, overlap, min_size)->0).len(),
    ensures
        ({
            let spans = token_spans(text, start, window, overlap, min_size)->0;
            let s = spans[i].0;
            let e = spans[i].1;
            let len = text.len() as int;
            let hard = if s + window >= len {
                len
            } else {
                s + window
            };
            let lo = if s + min_size >= hard {
                hard
            } else {
                s + min_size
            };
            ||| e == len
            ||| !splits_token(text, e)
            ||| (e == hard && (forall|p: int|
                lo <= p <= hard ==> #[trigger] splits_token(text, p)))
        }),
    decreases text.len() - start,
{
    let len = text.len() as int;
    let spans = token_spans(text, start, window, overlap, min_size)->0;
    let hard = if start + window >= len {
        len
    } else {
        start + window
    };
    let lo = if start + min_size >= hard {
        hard
    } else {
        start + min_size
    };
    let e0 = snap_or(text, lo, hard, hard);
    let e = if e0 < lo {
        lo
    } else if e0 > hard {
        hard
    } else {
        e0
    };
    lemma_snap_or_sound(text, lo, hard, hard);
    if e == len {
        assert(i == 0);
    } else {
        if i == 0 {
            assert(spans[0] == (start, e));
        } else {
            let next = e - overlap;
            lemma_token_spans_respect_tokens(text, next, window, overlap, min_size, i - 1);
            let rest = token_spans(text, next, window, overlap, min_size)->0;
            assert(spans[i] == rest[i - 1]);
        }
    }
}

/// Whether a text position splits a token, checked at run time.
fn splits_token_exec(text: &str, p: usize, n: usize) -> (r: bool)
    requires
        n == text@.len(),
        p <= n,
    ensures
        r == splits_token(text@, p as int),
{
    p > 0 && p < n && !is_ws_exec(text.get_char(p - 1)) && !is_ws_exec(text.get_char(p))
}

/// The snapped window end, by downward search from `hi`.
#[verifier::loop_isolation(false)]
fn snap_end(text: &str, lo: usize, hi: usize, n: usize) -> (r: usize)
    requires
        n == text@.len(),
        lo <= hi <= n,
    ensures
        r as int == snap_or(text@, lo as int, hi as int, hi as int),
        lo <= r <= hi,
{
    let mut b = hi;
    loop
        invariant
            lo <= b <= hi <= n,
            snap_or(text@, lo as int, hi as int, hi as int) == snap_or(
                text@,
                lo as int,
                b as int,
                hi as int,
            ),
        decreases b,
    {
        if !splits_token_exec(text, b, n) {
            proof {
                assert(snap_or(text@, lo as int, b as int, hi as int) == b as int);
            }
            return b;
        }
        if b <= lo {
            proof {
                assert(snap_or(text@, lo as int, b as int, hi as int) == hi as int);
            }
            return hi;
        }
        b = b - 1;
    }
}

/// Trims leading and trailing whitespace from a piece of text.
fn trim_str(s: &str) -> (r: String)
    ensures
        r@ == trimmed(s@),
{
    let n = s.unicode_len();
    let mut a: usize = 0;
    while a < n && is_ws_exec(s.get_char(a))
        invariant
            0 <= a <= n,
            n == s@.len(),
            forall|k: int| 0 <= k < a ==> is_ws(s@[k]),
        decreases n - a,
    {
        a = a + 1;
    }
    proof {
        lemma_trim_front_skip(s@, a as int);
    }
    if a == n {
        proof {
            assert(s@.skip(n as int) =~= Seq::<char>::empty());
        }
        return String::new();
    }
    let mut b: usize = n;
    while b > a && is_ws_exec(s.get_char(b - 1))
        invariant
            a <= b <= n,
            n == s@.len(),
            forall|k: int| b <= k < n ==> is_ws(s@[k]),
        decreases b,
    {
        b = b - 1;
    }
    proof {
        assert(!is_ws(s@[a as int]));
        assert(b > a);
        lemma_trim_back_take(s@.skip(a as int), b - a);
        assert(s@.skip(a as int).take(b - a) =~= s@.subrange(a as int, b as int));
    }
    let piece = s.substring_char(a, b);
    piece.to_owned()
}

/// Where the first `a` characters are whitespace and position `a` is not,
/// trimming the front removes exactly those `a` characters.
proof fn lemma_trim_front_skip(s: Seq<char>, a: int)
    requires
        0 <= a <= s.len(),
        forall|k: int| 0 <= k < a ==> is_ws(#[trigger] s[k]),
        a < s.len() ==> !is_ws(s[a]),
    ensures
        trim_front(s) == s.skip(a),
    decreases a,
{
    if a == 0 {
        assert(s.skip(0) =~= s);
    } else {
        let t = s.drop_first();
        assert(forall|k: int| 0 <= k < a - 1 ==> is_ws(#[trigger] t[k]));
        assert(a - 1 < t.len() ==> !is_ws(t[a - 1]));
        lemma_trim_front_skip(t, a - 1);
        assert(t.skip(a - 1) =~= s.skip(a));
    }
}

/// Where every character from position `b` on is whitespace and position
/// `b - 1` is not, trimming the back keeps exactly the first `b` characters.
proof fn lemma_trim_back_take(s: Seq<char>, b: int)
    requires
        0 <= b <= s.len(),
        forall|k: int| b <= k < s.len() ==> is_ws(#[trigger] s[k]),
        b > 0 ==> !is_ws(s[b - 1]),
    ensures
        trim_back(s) == s.take(b),
    decreases s.len(),
{
    if b == s.len() {
        assert(s.take(b) =~= s);
        if s.len() > 0 {
            assert(!is_ws(s.last()));
        }
    } else {
        assert(is_ws(s.last()));
        let t = s.drop_last();
        assert(forall|k: int| b <= k < t.len() ==> is_ws(#[trigger] t[k]));
        lemma_trim_back_take(t, b);
        assert(t.take(b) =~= s.take(b));
    }
}

/// Splits text under the token-aware strategy: fixed windows snapped to
/// token boundaries, their content trimmed of surrounding whitespace.
pub struct TextChunker {
    pub config: ChunkConfig,
}

impl TextChunker {
    pub fn new(config: ChunkConfig) -> (r: Self)
        ensures
            r.config == config,
    {
        TextChunker { config }
    }

    /// Chunks `text` under the token-aware strategy. Fails with
    /// `InvalidConfig` exactly when the sizing contract is violated, and
    /// with `NoProgress` when an advance would not move the window forward;
    /// otherwise returns exactly the trimmed contents of `token_spans`.
    pub fn chunk_text(&self, text: &str) -> (r: Result<Vec<String>, TldirError>)
        ensures
            !valid_chunk_config(self.config) ==> (r matches Err(e) && e is InvalidConfig),
            valid_chunk_config(self.config) ==> (match token_spans(
                text@,
                0,
                self.config.chunk_size as int,
                self.config.overlap as int,
                self.config.min_chunk_size as int,
            ) {
                None => r matches Err(e) && e is NoProgress,
                Some(spans) => r matches Ok(out) && out@.len() == spans.len() && (forall|i: int|
                    0 <= i < spans.len() ==> (#[trigger] out@[i])@ == trimmed(
                        text@.subrange(spans[i].0, spans[i].1),
                    )),
            }),
    {
        let cs = self.config.chunk_size;
        let ov = self.config.overlap;
        let ms = self.config.min_chunk_size;
        if ov >= cs || ms > cs {
            return Err(TldirError::InvalidConfig);
        }
        let n = text.unicode_len();
        let mut out: Vec<String> = Vec::new();
        if n == 0 {
            return Ok(out);
        }
        let ghost full = token_spans(text@, 0, cs as int, ov as int, ms as int);
        let ghost mut done: Seq<(int, int)> = Seq::empty();
        let mut start: usize = 0;
        proof {
            match full {
                None => {},
                Some(rest) => {
                    assert(done + rest =~= rest);
                },
            }
        }
        loop
            invariant_except_break
                0 <= start < n,
                full == (match token_spans(text@, start as int, cs as int, ov as int, ms as int) {
                    None => None::<Seq<(int, int)>>,
                    Some(rest) => Some(done + rest),
                }),
            invariant
                n == text@.len(),
                valid_chunk_config(self.config),
                cs == self.config.chunk_size,
                ov == self.config.overlap,
                ms == self.config.min_chunk_size,
                full == token_spans(text@, 0, cs as int, ov as int, ms as int),
                out@.len() == done.len(),
                forall|i: int|
                    0 <= i < done.len() ==> (#[trigger] out@[i])@ == trimmed(
                        text@.subrange(done[i].0, done[i].1),
                    ),
            ensures
                full == Some(done),
            decreases n - start,
        {
            let hard = if cs >= n - start {
                n
            } else {
                start + cs
            };
            let lo = if ms >= hard - start {
                hard
            } else {
                start + ms
            };
            let e = snap_end(text, lo, hard, n);
            let piece = text.substring_char(start, e);
            let t = trim_str(piece);
            out.push(t);
            proof {
                done = done.push((start as int, e as int));
            }
            if e == n {
                proof {
                    let rest = token_spans(text@, start as int, cs as int, ov as int, ms as int);
                    assert(rest == Some(seq![(start as int, e as int)]));
                    assert(done.drop_last() + seq![(start as int, e as int)] =~= done);
                }
                break ;
            }
            if e <= start + ov {
                proof {
                    assert(token_spans(text@, start as int, cs as int, ov as int, ms as int)
                        == None::<Seq<(int, int)>>);
                }
                return Err(TldirError::NoProgress);
            }
            proof {
                let next = e as int - ov as int;
                let here = token_spans(text@, start as int, cs as int, ov as int, ms as int);
                let there = token_spans(text@, next, cs as int, ov as int, ms as int);
                match there {
                    None => {
                        assert(here == None::<Seq<(int, int)>>);
                    },
                    Some(rest2) => {
                        assert(here == Some(seq![(start as int, e as int)] + rest2));
                        assert(done.drop_last() + (seq![(start as int, e as int)] + rest2) =~= done
                            + rest2);
                    },
                }
            }
            start = e - ov;
        }
        Ok(out)
    }
}

} // verus!
