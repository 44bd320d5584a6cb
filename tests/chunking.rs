use rust_tiny_rag::chunk::chunk_text;

fn chunks(text: &str, size: usize, overlap: usize) -> Vec<String> {
    chunk_text(&text.to_string(), size, overlap)
}

fn join_without_overlap(parts: &[String], overlap: usize) -> String {
    let mut out = String::new();
    for (i, part) in parts.iter().enumerate() {
        if i == 0 {
            out.push_str(part);
        } else {
            out.extend(part.chars().skip(overlap));
        }
    }
    out
}

#[test]
fn empty_text_gives_no_chunks() {
    assert!(chunks("", 4, 1).is_empty());
}

#[test]
fn short_text_is_one_chunk() {
    assert_eq!(chunks("abc", 10, 3), vec!["abc".to_string()]);
}

#[test]
fn zero_overlap_chunks_are_disjoint() {
    assert_eq!(chunks("abcdefghij", 4, 0), vec!["abcd", "efgh", "ij"]);
}

#[test]
fn overlapping_windows_step_by_size_minus_overlap() {
    assert_eq!(
        chunks("abcdefghij", 4, 2),
        vec!["abcd", "cdef", "efgh", "ghij"]
    );
}

#[test]
fn multibyte_characters_are_never_split() {
    let text = "héllo wörld ✓ 日本語テキスト 🙂 end";
    let parts = chunks(text, 3, 1);
    let all: Vec<char> = text.chars().collect();
    for (i, part) in parts.iter().enumerate() {
        let start = i * 2;
        let end = (start + 3).min(all.len());
        let expected: String = all[start..end].iter().collect();
        assert_eq!(part, &expected);
    }
    assert_eq!(all.len(), 27);
    assert_eq!(parts.len(), (all.len() - 1 + 1) / 2);
}

#[test]
fn chunks_rejoin_to_the_text() {
    let text = "Retrieval needs chunks that overlap — ünïcödé included ✓.";
    for (size, overlap) in [(5, 2), (7, 3), (4, 1), (6, 0), (100, 10)] {
        let parts = chunks(text, size, overlap);
        assert_eq!(join_without_overlap(&parts, overlap), text);
    }
}

#[test]
fn chunk_count_matches_overlap_formula() {
    // 9 characters, size 4, overlap 1: ceil((9 - 1) / 3) = 3
    assert_eq!(chunks("abcdefghi", 4, 1).len(), 3);
    // text no longer than the overlap, within one step: one chunk
    assert_eq!(chunks("ab", 5, 2).len(), 1);
}

#[test]
fn chunk_reaching_the_end_is_the_last() {
    // 10 characters, size 4, overlap 2: ceil((10 - 2) / 2) = 4
    assert_eq!(chunks("abcdefghij", 4, 2).len(), 4);
    assert_eq!(chunks("abc", 4, 3), vec!["abc"]);
    assert_eq!(chunks("abcdefghi", 4, 2), vec!["abcd", "cdef", "efgh", "ghi"]);
}

#[test]
fn neighbours_share_exactly_the_overlap() {
    let parts = chunks("neighbouring windows share characters", 7, 3);
    for w in parts.windows(2) {
        let prev: Vec<char> = w[0].chars().collect();
        let cur: Vec<char> = w[1].chars().collect();
        assert_eq!(prev.len(), 7);
        assert!(cur.len() > 3);
        assert_eq!(&cur[..3], &prev[4..]);
    }
}

#[test]
fn long_text_chunk_count() {
    let text: String = "x".repeat(3000);
    let parts = chunks(&text, 1024, 256);
    assert_eq!(parts.len(), 4);
    assert_eq!(parts[0].chars().count(), 1024);
    assert_eq!(parts[3].chars().count(), 3000 - 3 * 768);
}
