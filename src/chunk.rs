//! Sliding-window segmentation of text into overlapping chunks, counted in
//! characters (never in bytes), so that no chunk splits a character.
use vstd::prelude::*;
use vstd::string::*;
use vstd::arithmetic::div_mod::{lemma_div_plus_one, lemma_fundamental_div_mod_converse};

verus! {

/// The window of at most `size` characters of `text` that begins at `start`.
pub open spec fn window(text: Seq<char>, start: int, size: int) -> Seq<char> {
    if start + size < text.len() {
        text.subrange(start, start + size)
    } else {
        text.subrange(start, text.len() as int)
    }
}

/// The chunks produced from window start `start` onwards: a window of `size`
/// characters (clamped to the end of the text) at `start`, then, while that
/// window stops short of the end, the windows that follow at steps of
/// `size - overlap`. The chunk that reaches the end of the text is the last.
pub open spec fn chunks_from(text: Seq<char>, start: int, size: int, overlap: int) -> Seq<
    Seq<char>,
>
    decreases text.len() - start,
{
    if 0 <= overlap < size && 0 <= start < text.len() {
        seq![window(text, start, size)] + if start + size < text.len() {
            chunks_from(text, start + (size - overlap), size, overlap)
        } else {
            seq![]
        }
    } else {
        seq![]
    }
}

/// All chunks of `text` for the given window size and overlap.
pub open spec fn text_chunks(text: Seq<char>, size: int, overlap: int) -> Seq<Seq<char>> {
    chunks_from(text, 0, size, overlap)
}

/// Number of chunks of a text of `len` characters: none for an empty text,
/// `ceil((len - overlap) / (size - overlap))` for a text longer than the
/// overlap, and one for a shorter non-empty text.
pub open spec fn chunk_count(len: int, size: int, overlap: int) -> int {
    if len <= 0 {
        0
    } else if len > overlap {
        (len - overlap + (size - overlap) - 1) / (size - overlap)
    } else {
        1
    }
}

/// The character sequences held by a vector of strings.
pub open spec fn string_views(v: Seq<String>) -> Seq<Seq<char>> {
    v.map_values(|s: String| s@)
}

/// Splits `text` into overlapping chunks of at most `chunk_size` characters.
/// Consecutive chunks start `chunk_size - overlap` characters apart; the chunk
/// that reaches the end of the text is the last one.
pub fn chunk_text(text: &String, chunk_size: usize, overlap: usize) -> (chunks: Vec<String>)
    requires
        overlap < chunk_size,
    ensures
        string_views(chunks@) == text_chunks(text@, chunk_size as int, overlap as int),
        chunks@.len() == chunk_count(text@.len() as int, chunk_size as int, overlap as int),
{
    let s = text.as_str();
    let len = s.unicode_len();
    let step = chunk_size - overlap;
    let mut chunks: Vec<String> = Vec::new();
    let mut start: usize = 0;
    while start < len
        invariant
            s@ == text@,
            len == text@.len(),
            overlap < chunk_size,
            step == chunk_size - overlap,
            start <= len,
            string_views(chunks@) + chunks_from(text@, start as int, chunk_size as int, overlap as int)
                == text_chunks(text@, chunk_size as int, overlap as int),
        decreases len - start,
    {
        let reaches_end = chunk_size >= len - start;
        let end = if reaches_end {
            len
        } else {
            start + chunk_size
        };
        let piece = s.substring_char(start, end).to_owned();
        let ghost prev = string_views(chunks@);
        chunks.push(piece);
        let next = if reaches_end {
            len
        } else {
            start + step
        };
        proof {
            let rest = chunks_from(text@, start as int, chunk_size as int, overlap as int);
            let tail = chunks_from(text@, next as int, chunk_size as int, overlap as int);
            assert(rest == seq![piece@] + tail);
            assert(string_views(chunks@) =~= prev.push(piece@));
            assert(prev + rest =~= prev.push(piece@) + tail);
        }
        start = next;
    }
    proof {
        assert(string_views(chunks@) + seq![] =~= string_views(chunks@));
        lemma_chunk_layout(text@, chunk_size as int, overlap as int);
        assert(chunks@.len() == string_views(chunks@).len());
    }
    chunks
}

proof fn lemma_chunks_from_layout(text: Seq<char>, start: int, size: int, overlap: int)
    requires
        0 <= overlap < size,
        0 <= start,
    ensures
        chunks_from(text, start, size, overlap).len() == chunk_count(
            text.len() - start,
            size,
            overlap,
        ),
        forall|i: int|
            0 <= i < chunks_from(text, start, size, overlap).len() ==> #[trigger] chunks_from(
                text,
                start,
                size,
                overlap,
            )[i] == window(text, start + i * (size - overlap), size) && (i < chunks_from(
                text,
                start,
                size,
                overlap,
            ).len() - 1 ==> start + i * (size - overlap) + size < text.len()),
    decreases text.len() - start,
{
    let step = size - overlap;
    let len = text.len() - start;
    if start < text.len() {
        let cs = chunks_from(text, start, size, overlap);
        if start + size < text.len() {
            let next = start + step;
            lemma_chunks_from_layout(text, next, size, overlap);
            lemma_div_plus_one(len - step - overlap + step - 1, step);
            let rest = chunks_from(text, next, size, overlap);
            assert forall|i: int| 0 <= i < cs.len() implies #[trigger] cs[i] == window(
                text,
                start + i * step,
                size,
            ) && (i < cs.len() - 1 ==> start + i * step + size < text.len()) by {
                if i == 0 {
                    assert(start + 0 * step == start);
                } else {
                    assert(cs[i] == rest[i - 1]);
                    assert(next + (i - 1) * step == start + i * step) by (nonlinear_arith)
                        requires
                            next == start + step,
                    ;
                }
            }
        } else {
            if len > overlap {
                lemma_fundamental_div_mod_converse(len - overlap + step - 1, step, 1, len - overlap - 1);
            }
            assert(start + 0 * step == start);
        }
    }
}

/// Every chunk is a whole window of characters of the text: chunk `i` is the
/// run of at most `size` characters starting at character `i * (size - overlap)`,
/// so no chunk boundary can fall inside a character. Every window but the last
/// stops short of the end of the text, and there are `chunk_count` chunks:
/// `ceil((len - overlap) / (size - overlap))` for a text longer than the
/// overlap, one for a shorter non-empty text, none for an empty one.
pub proof fn lemma_chunk_layout(text: Seq<char>, size: int, overlap: int)
    requires
        0 <= overlap < size,
    ensures
        text_chunks(text, size, overlap).len() == chunk_count(text.len() as int, size, overlap),
        forall|i: int|
            0 <= i < text_chunks(text, size, overlap).len() ==> #[trigger] text_chunks(
                text,
                size,
                overlap,
            )[i] == window(text, i * (size - overlap), size) && (i < text_chunks(
                text,
                size,
                overlap,
            ).len() - 1 ==> i * (size - overlap) + size < text.len()),
{
    lemma_chunks_from_layout(text, 0, size, overlap);
}

/// A text no longer than the window size is a single chunk: the whole text.
pub proof fn lemma_short_text_one_chunk(text: Seq<char>, size: int, overlap: int)
    requires
        0 <= overlap < size,
        0 < text.len() <= size,
    ensures
        text_chunks(text, size, overlap) == seq![text],
{
    let cs = text_chunks(text, size, overlap);
    assert(window(text, 0, size) =~= text);
    assert(cs =~= seq![text]);
}

/// Neighbouring chunks share exactly `overlap` characters: every chunk before
/// the last is a full window, every later chunk is longer than the overlap, and
/// a chunk begins with the last `overlap` characters of the one before it.
pub proof fn lemma_chunk_adjacency(text: Seq<char>, size: int, overlap: int)
    requires
        0 <= overlap < size,
    ensures
        forall|i: int|
            1 <= i < text_chunks(text, size, overlap).len() ==> {
                let prev = #[trigger] text_chunks(text, size, overlap)[i - 1];
                let cur = text_chunks(text, size, overlap)[i];
                &&& prev.len() == size
                &&& cur.len() > overlap
                &&& cur.take(overlap) == prev.skip(size - overlap)
            },
{
    lemma_chunk_layout(text, size, overlap);
    let cs = text_chunks(text, size, overlap);
    let step = size - overlap;
    assert forall|i: int| 1 <= i < cs.len() implies {
        let prev = #[trigger] cs[i - 1];
        let cur = cs[i];
        &&& prev.len() == size
        &&& cur.len() > overlap
        &&& cur.take(overlap) == prev.skip(size - overlap)
    } by {
        let a = (i - 1) * step;
        let b = i * step;
        assert(b == a + step) by (nonlinear_arith)
            requires
                a == (i - 1) * step,
                b == i * step,
        ;
        assert(0 <= a) by (nonlinear_arith)
            requires
                a == (i - 1) * step,
                i >= 1,
                step > 0,
        ;
        assert(cs[i - 1] == window(text, a, size));
        assert(a + size < text.len());
        assert(cs[i] == window(text, b, size));
        assert(cs[i].take(overlap) =~= cs[i - 1].skip(size - overlap));
    }
}

/// A chunk with its leading `overlap` characters (those shared with the
/// chunk before it) removed.
pub open spec fn drop_overlap(chunk: Seq<char>, overlap: int) -> Seq<char> {
    if chunk.len() <= overlap {
        seq![]
    } else {
        chunk.subrange(overlap, chunk.len() as int)
    }
}

/// Concatenation of chunks that each follow an earlier chunk.
pub open spec fn join_following(chunks: Seq<Seq<char>>, overlap: int) -> Seq<char>
    decreases chunks.len(),
{
    if chunks.len() == 0 {
        seq![]
    } else {
        drop_overlap(chunks[0], overlap) + join_following(chunks.drop_first(), overlap)
    }
}

/// Concatenation of chunks with the overlap between neighbours removed: the
/// first chunk whole, then each later chunk without its leading `overlap`
/// characters.
pub open spec fn join_chunks(chunks: Seq<Seq<char>>, overlap: int) -> Seq<char> {
    if chunks.len() == 0 {
        seq![]
    } else {
        chunks[0] + join_following(chunks.drop_first(), overlap)
    }
}

proof fn lemma_join_following_from(text: Seq<char>, start: int, size: int, overlap: int)
    requires
        0 <= overlap < size,
        0 <= start,
    ensures
        join_following(chunks_from(text, start, size, overlap), overlap) == text.subrange(
            if start + overlap < text.len() {
                start + overlap
            } else {
                text.len() as int
            },
            text.len() as int,
        ),
    decreases text.len() - start,
{
    let cs = chunks_from(text, start, size, overlap);
    if start < text.len() {
        let rest = if start + size < text.len() {
            chunks_from(text, start + (size - overlap), size, overlap)
        } else {
            seq![]
        };
        assert(cs.drop_first() =~= rest);
        if start + size < text.len() {
            lemma_join_following_from(text, start + (size - overlap), size, overlap);
        } else {
            assert(join_following(rest, overlap) == Seq::<char>::empty());
        }
        let w = window(text, start, size);
        assert(cs[0] == w);
        assert(join_following(cs, overlap) == drop_overlap(w, overlap) + join_following(
            rest,
            overlap,
        ));
        assert(join_following(cs, overlap) =~= text.subrange(
            if start + overlap < text.len() {
                start + overlap
            } else {
                text.len() as int
            },
            text.len() as int,
        ));
    } else {
        assert(text.subrange(text.len() as int, text.len() as int) =~= seq![]);
    }
}

/// Joining the chunks of a text, with the overlap between neighbours removed,
/// gives back the text exactly: no character is lost or repeated.
pub proof fn lemma_chunks_cover(text: Seq<char>, size: int, overlap: int)
    requires
        0 <= overlap < size,
    ensures
        join_chunks(text_chunks(text, size, overlap), overlap) == text,
{
    let cs = text_chunks(text, size, overlap);
    let step = size - overlap;
    if text.len() > 0 {
        let rest = if size < text.len() {
            chunks_from(text, step, size, overlap)
        } else {
            seq![]
        };
        assert(cs.drop_first() =~= rest);
        if size < text.len() {
            lemma_join_following_from(text, step, size, overlap);
        }
        assert(join_chunks(cs, overlap) =~= text);
    } else {
        assert(join_chunks(cs, overlap) =~= text);
    }
}

} // verus!
