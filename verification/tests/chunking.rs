//! Tests of the chunker: window shapes, overlap, coverage, and the
//! single-chunk case.

use docsearch::create_text_chunks;

fn words(n: usize) -> Vec<String> {
    let mut ws = Vec::new();
    for i in 1..=n {
        ws.push(format!("w{}", i));
    }
    ws
}

#[test]
fn single_chunk_when_text_fits() {
    let text = "alpha  beta\tgamma";
    let chunks = create_text_chunks(text, 200, 20);
    assert_eq!(chunks.len(), 1);
    // The whole text comes back unchanged, original spacing included.
    assert_eq!(chunks[0], "alpha  beta\tgamma");
}

#[test]
fn empty_text_yields_one_empty_chunk() {
    let chunks = create_text_chunks("", 200, 20);
    assert_eq!(chunks.len(), 1);
    assert_eq!(chunks[0], "");
}

#[test]
fn exactly_chunk_size_words_stay_one_chunk() {
    let ws = words(200);
    let text = ws.join(" ");
    let chunks = create_text_chunks(&text, 200, 20);
    assert_eq!(chunks.len(), 1);
    assert_eq!(chunks[0], text);
}

#[test]
fn example_scenario_two_chunks() {
    // 220 words, chunk size 200, overlap 20: words 1-200 and words 181-220.
    let ws = words(220);
    let text = ws.join(" ");
    let chunks = create_text_chunks(&text, 200, 20);
    assert_eq!(chunks.len(), 2);
    assert_eq!(chunks[0], ws[0..200].join(" "));
    assert_eq!(chunks[1], ws[180..220].join(" "));
    let second: Vec<&str> = chunks[1].split_whitespace().collect();
    assert_eq!(second.len(), 40);
}

#[test]
fn overlap_between_consecutive_chunks() {
    // 7 words, chunk size 3, overlap 1: windows 1-3, 3-5, 5-7.
    let ws = words(7);
    let text = ws.join(" ");
    let chunks = create_text_chunks(&text, 3, 1);
    assert_eq!(chunks, vec!["w1 w2 w3", "w3 w4 w5", "w5 w6 w7"]);
    for i in 0..chunks.len() - 1 {
        let left: Vec<&str> = chunks[i].split_whitespace().collect();
        let right: Vec<&str> = chunks[i + 1].split_whitespace().collect();
        assert_eq!(left[left.len() - 1..], right[..1]);
    }
}

#[test]
fn every_token_is_covered() {
    let ws = words(23);
    let text = ws.join(" ");
    let chunks = create_text_chunks(&text, 5, 2);
    for w in &ws {
        assert!(
            chunks
                .iter()
                .any(|c| c.split_whitespace().any(|t| t == w.as_str())),
            "token missing from every chunk"
        );
    }
}

#[test]
fn truncated_final_chunk() {
    // 10 words, chunk size 4, overlap 1: windows 1-4, 4-7, 7-10, 10-10.
    let ws = words(10);
    let text = ws.join(" ");
    let chunks = create_text_chunks(&text, 4, 1);
    assert_eq!(
        chunks,
        vec!["w1 w2 w3 w4", "w4 w5 w6 w7", "w7 w8 w9 w10"]
    );
}

#[test]
fn whitespace_is_normalized_in_windows() {
    let chunks = create_text_chunks("a   b \t c", 2, 0);
    assert_eq!(chunks, vec!["a b", "c"]);
}
