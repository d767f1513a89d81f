//! Deterministic text chunking: a text is split into whitespace tokens and
//! regrouped into overlapping fixed-size word windows.

use vstd::prelude::*;
use vstd::string::StringExecFns;

verus! {

/// The whitespace tokens of a text, exactly as `str::split_whitespace`
/// produces them: the maximal runs of non-whitespace characters, in order.
pub uninterp spec fn tokens_of(s: Seq<char>) -> Seq<Seq<char>>;

/// The views of a sequence of strings, element by element.
pub open spec fn views_of(ss: Seq<String>) -> Seq<Seq<char>> {
    Seq::new(ss.len(), |k: int| ss[k]@)
}

/// Relies on `str::split_whitespace`: yields the maximal non-whitespace runs
/// of the text, in order; the runs depend on the characters alone, and none
/// of them is empty.
#[verifier::external_body]
fn split_tokens(text: &str) -> (r: Vec<String>)
    ensures
        views_of(r@) == tokens_of(text@),
        forall|i: int| 0 <= i < r@.len() ==> (#[trigger] r@[i])@.len() > 0,
{
    text.split_whitespace().map(|w| w.to_owned()).collect()
}

/// The `(start, end)` token windows produced for `n` tokens, chunk size `c`,
/// overlap `v`, beginning at token `i`: a full window of `c` tokens whenever
/// more than `c` tokens remain, else one final window holding the rest.
pub open spec fn windows_from(n: int, c: int, v: int, i: int) -> Seq<(int, int)>
    decreases n - i when 0 <= i < n && 0 < c && 0 <= v < c
{
    if !(0 <= i < n && 0 < c && 0 <= v < c) {
        Seq::empty()
    } else if i + c >= n {
        seq![(i, n)]
    } else {
        seq![(i, i + c)] + windows_from(n, c, v, i + (c - v))
    }
}

/// All token windows of a chunking run: sliding a window of `c` tokens
/// forward in steps of `c - v`, starting at token 0.
pub open spec fn windows(n: int, c: int, v: int) -> Seq<(int, int)> {
    windows_from(n, c, v, 0)
}

/// The text of a chunk: its tokens joined with single spaces.
pub open spec fn joined(toks: Seq<Seq<char>>) -> Seq<char>
    decreases toks.len()
{
    if toks.len() == 0 {
        Seq::empty()
    } else if toks.len() == 1 {
        toks[0]
    } else {
        joined(toks.drop_last()) + seq![' '] + toks.last()
    }
}

/// The chunk texts of a whole run: the original text itself when it has at
/// most `c` tokens, else the joined text of every window.
pub open spec fn chunk_texts(text: Seq<char>, c: int, v: int) -> Seq<Seq<char>> {
    let toks = tokens_of(text);
    if toks.len() <= c {
        seq![text]
    } else {
        let ws = windows(toks.len() as int, c, v);
        Seq::new(ws.len(), |k: int| joined(toks.subrange(ws[k].0, ws[k].1)))
    }
}

/// Chunk count lower bound: a text of at most `c` tokens produces exactly
/// one chunk, and that chunk is the whole text, unchanged.
pub proof fn lemma_single_chunk(text: Seq<char>, c: int, v: int)
    requires
        0 <= v < c,
        tokens_of(text).len() <= c,
    ensures
        chunk_texts(text, c, v) == seq![text],
{
}

/// Structure of the window list: the first window starts at `i`, the last
/// ends at `n`, starts advance in steps of `c - v`, every non-final window
/// holds exactly `c` tokens, and all windows stay inside `[i, n]`.
pub proof fn lemma_windows_from_structure(n: int, c: int, v: int, i: int)
    requires
        0 < c,
        0 <= v < c,
        0 <= i < n,
    ensures
        ({
            let ws = windows_from(n, c, v, i);
            &&& ws.len() > 0
            &&& ws[0].0 == i
            &&& ws[ws.len() - 1].1 == n
            &&& forall|k: int|
                0 <= k < ws.len() ==> i <= (#[trigger] ws[k]).0 < ws[k].1 <= n
            &&& forall|k: int|
                0 <= k < ws.len() - 1 ==> (#[trigger] ws[k]).1 == ws[k].0 + c && ws[k + 1].0
                    == ws[k].0 + (c - v)
        }),
    decreases n - i,
{
    let ws = windows_from(n, c, v, i);
    if i + c >= n {
        assert(ws =~= seq![(i, n)]);
    } else {
        lemma_windows_from_structure(n, c, v, i + (c - v));
        let rest = windows_from(n, c, v, i + (c - v));
        assert(ws =~= seq![(i, i + c)] + rest);
        assert forall|k: int| 1 <= k < ws.len() implies ws[k] == rest[k - 1] by {}
        assert(ws[ws.len() - 1].1 == n);
        assert forall|k: int|
            0 <= k < ws.len() implies i <= (#[trigger] ws[k]).0 < ws[k].1 <= n by {
            if k >= 1 {
                assert(rest[k - 1].0 >= i + (c - v));
            }
        }
        assert forall|k: int|
            0 <= k < ws.len() - 1 implies (#[trigger] ws[k]).1 == ws[k].0 + c && ws[k + 1].0
                == ws[k].0 + (c - v) by {
            if k == 0 {
                assert(ws[1] == rest[0]);
                assert(rest[0].0 == i + (c - v));
            } else {
                assert(ws[k] == rest[k - 1]);
                assert(ws[k + 1] == rest[k]);
            }
        }
    }
}

proof fn lemma_coverage_from(n: int, c: int, v: int, i: int, j: int)
    requires
        0 < c,
        0 <= v < c,
        0 <= i <= j < n,
    ensures
        exists|k: int|
            0 <= k < windows_from(n, c, v, i).len() && (#[trigger] windows_from(n, c, v, i)[k]).0
                <= j < windows_from(n, c, v, i)[k].1,
    decreases n - i,
{
    let ws = windows_from(n, c, v, i);
    if i + c >= n {
        assert(ws[0].0 <= j < ws[0].1);
    } else if j < i + c {
        assert(ws[0].0 <= j < ws[0].1);
    } else {
        lemma_coverage_from(n, c, v, i + (c - v), j);
        let rest = windows_from(n, c, v, i + (c - v));
        let k = choose|k: int| 0 <= k < rest.len() && (#[trigger] rest[k]).0 <= j < rest[k].1;
        assert(ws[k + 1] == rest[k]);
        assert(ws[k + 1].0 <= j < ws[k + 1].1);
    }
}

/// Chunk coverage: every token of the input lies inside at least one of the
/// produced windows, so the windows together — which are ordered by their
/// start — reconstruct the whole token sequence.
pub proof fn lemma_chunk_coverage(n: int, c: int, v: int, j: int)
    requires
        0 < c,
        0 <= v < c,
        0 <= j < n,
    ensures
        exists|k: int|
            0 <= k < windows(n, c, v).len() && (#[trigger] windows(n, c, v)[k]).0 <= j < windows(
                n,
                c,
                v,
            )[k].1,
{
    lemma_coverage_from(n, c, v, 0, j);
    let ws = windows_from(n, c, v, 0);
    let k = choose|k: int| 0 <= k < ws.len() && (#[trigger] ws[k]).0 <= j < ws[k].1;
    assert(windows(n, c, v) == ws);
    assert(0 <= k < windows(n, c, v).len() && (windows(n, c, v)[k]).0 <= j < windows(
        n,
        c,
        v,
    )[k].1);
}

/// The tokens window `k` contributes beyond the windows before it: all of
/// the first window, and of each later window the tokens past the previous
/// window's end.
pub open spec fn window_part(toks: Seq<Seq<char>>, ws: Seq<(int, int)>, k: int) -> Seq<Seq<char>> {
    if k == 0 {
        toks.subrange(ws[0].0, ws[0].1)
    } else {
        toks.subrange(ws[k - 1].1, ws[k].1)
    }
}

/// The contributions of windows `0..=k`, concatenated in order.
pub open spec fn parts_concat(toks: Seq<Seq<char>>, ws: Seq<(int, int)>, k: int) -> Seq<Seq<char>>
    decreases k when k >= 0
{
    if k <= 0 {
        window_part(toks, ws, 0)
    } else {
        parts_concat(toks, ws, k - 1) + window_part(toks, ws, k)
    }
}

proof fn lemma_parts_prefix(toks: Seq<Seq<char>>, c: int, v: int, k: int)
    requires
        0 < c,
        0 <= v < c,
        0 < toks.len(),
        0 <= k < windows(toks.len() as int, c, v).len(),
    ensures
        parts_concat(toks, windows(toks.len() as int, c, v), k) == toks.subrange(
            0,
            windows(toks.len() as int, c, v)[k].1,
        ),
    decreases k,
{
    let n = toks.len() as int;
    let ws = windows(n, c, v);
    lemma_windows_from_structure(n, c, v, 0);
    if k == 0 {
        assert(ws[0].0 == 0);
    } else {
        lemma_parts_prefix(toks, c, v, k - 1);
        let a = ws[k - 1].1;
        let b = ws[k].1;
        if k < ws.len() - 1 {
            assert(ws[k].1 == ws[k].0 + c);
            assert(ws[k - 1].1 == ws[k - 1].0 + c);
            assert(ws[k].0 == ws[k - 1].0 + (c - v));
        } else {
            assert(ws[k].1 == n);
            assert(ws[k - 1].1 <= n);
        }
        assert(0 <= a <= b <= n);
        assert(toks.subrange(0, b) =~= toks.subrange(0, a) + toks.subrange(a, b));
    }
}

/// Chunk coverage, in reconstruction form: the first window's tokens,
/// followed by each later window's tokens past the previous window's end,
/// concatenate to exactly the full token sequence — and each of those
/// pieces is a suffix of its own window's tokens, so the windows' tokens,
/// in order and without the repeated overlap, rebuild the input.
pub proof fn lemma_chunk_reconstruction(toks: Seq<Seq<char>>, c: int, v: int)
    requires
        0 < c,
        0 <= v < c,
        0 < toks.len(),
    ensures
        ({
            let ws = windows(toks.len() as int, c, v);
            &&& parts_concat(toks, ws, ws.len() - 1) == toks
            &&& forall|k: int|
                1 <= k < ws.len() ==> #[trigger] window_part(toks, ws, k) == toks.subrange(
                    ws[k].0,
                    ws[k].1,
                ).skip(ws[k - 1].1 - ws[k].0)
        }),
{
    let n = toks.len() as int;
    let ws = windows(n, c, v);
    lemma_windows_from_structure(n, c, v, 0);
    lemma_parts_prefix(toks, c, v, ws.len() - 1);
    assert(ws[ws.len() - 1].1 == n);
    assert(toks.subrange(0, n) =~= toks);
    assert forall|k: int| 1 <= k < ws.len() implies #[trigger] window_part(toks, ws, k)
        == toks.subrange(ws[k].0, ws[k].1).skip(ws[k - 1].1 - ws[k].0) by {
        assert(ws[k - 1].1 == ws[k - 1].0 + c);
        assert(ws[k].0 == ws[k - 1].0 + (c - v));
        assert(ws[k].0 <= ws[k - 1].1 <= ws[k].1);
        assert(toks.subrange(ws[k].0, ws[k].1).skip(ws[k - 1].1 - ws[k].0) =~= toks.subrange(
            ws[k - 1].1,
            ws[k].1,
        ));
    }
}

/// Overlap: for any two consecutive windows, the last `v` tokens of the
/// earlier chunk are exactly the first `v` tokens of the later one, and the
/// later chunk always holds at least `v` tokens.
pub proof fn lemma_chunk_overlap(toks: Seq<Seq<char>>, c: int, v: int, k: int)
    requires
        0 < c,
        0 <= v < c,
        c < toks.len(),
        0 <= k < windows(toks.len() as int, c, v).len() - 1,
    ensures
        ({
            let ws = windows(toks.len() as int, c, v);
            &&& ws[k].1 - v == ws[k + 1].0
            &&& ws[k + 1].0 + v <= ws[k + 1].1
            &&& toks.subrange(ws[k].1 - v, ws[k].1) == toks.subrange(
                ws[k + 1].0,
                ws[k + 1].0 + v,
            )
        }),
{
    let n = toks.len() as int;
    lemma_windows_from_structure(n, c, v, 0);
    let ws = windows(n, c, v);
    assert(ws[k].1 == ws[k].0 + c && ws[k + 1].0 == ws[k].0 + (c - v));
    if k + 1 < ws.len() - 1 {
        assert(ws[k + 1].1 == ws[k + 1].0 + c);
    } else {
        assert(ws[k + 1].1 == n);
        assert(ws[k].1 <= n);
    }
}

/// Joins `words[start..end]` with single spaces.
fn join_tokens(words: &Vec<String>, start: usize, end: usize) -> (r: String)
    requires
        start < end <= words@.len(),
    ensures
        r@ == joined(views_of(words@).subrange(start as int, end as int)),
{
    let ghost toks = views_of(words@);
    let mut s = words[start].clone();
    let mut j: usize = start + 1;
    assert(toks.subrange(start as int, start + 1) =~= seq![toks[start as int]]);
    while j < end
        invariant
            start < end <= words@.len(),
            start < j <= end,
            toks == views_of(words@),
            s@ == joined(toks.subrange(start as int, j as int)),
        decreases end - j,
    {
        s.append(" ");
        s.append(words[j].as_str());
        proof {
            reveal_strlit(" ");
            let prev = toks.subrange(start as int, j as int);
            let cur = toks.subrange(start as int, j + 1);
            assert(cur.drop_last() =~= prev);
            assert(cur.last() == toks[j as int]);
            assert(" "@ =~= seq![' ']);
        }
        j += 1;
    }
    s
}

/// Splits a text into overlapping chunks of `chunk_size` whitespace tokens,
/// consecutive chunks sharing `overlap` tokens. A text of at most
/// `chunk_size` tokens yields exactly one chunk: the text itself, unchanged.
pub fn create_text_chunks(text: &str, chunk_size: usize, overlap: usize) -> (chunks: Vec<String>)
    requires
        overlap < chunk_size,
    ensures
        views_of(chunks@) == chunk_texts(text@, chunk_size as int, overlap as int),
        chunks@.len() > 0,
{
    let words = split_tokens(text);
    let ghost toks = tokens_of(text@);
    let total_words = words.len();
    let ghost n = toks.len() as int;
    let ghost c = chunk_size as int;
    let ghost v = overlap as int;
    proof {
        assert(toks.len() == views_of(words@).len());
        assert(n == words@.len());
    }
    if total_words <= chunk_size {
        let mut one: Vec<String> = Vec::new();
        one.push(text.to_owned());
        assert(views_of(one@) =~= chunk_texts(text@, c, v));
        return one;
    }
    let step = chunk_size - overlap;
    let mut chunks: Vec<String> = Vec::new();
    let ghost mut done: Seq<(int, int)> = Seq::empty();
    let mut i: usize = 0;
    proof {
        assert(windows(n, c, v) =~= done + windows_from(n, c, v, 0));
    }
    loop
        invariant_except_break
            toks == tokens_of(text@),
            toks == views_of(words@),
            n == toks.len(),
            n == total_words,
            c == chunk_size,
            v == overlap,
            step == chunk_size - overlap,
            total_words == words@.len(),
            overlap < chunk_size,
            n > c,
            0 <= i < total_words,
            windows(n, c, v) == done + windows_from(n, c, v, i as int),
            chunks@.len() == done.len(),
            forall|k: int| 0 <= k < done.len() ==> views_of(chunks@)[k] == joined(
                toks.subrange((#[trigger] done[k]).0, done[k].1),
            ),
        ensures
            toks == tokens_of(text@),
            n == toks.len(),
            c == chunk_size,
            v == overlap,
            n > c,
            windows(n, c, v) == done,
            chunks@.len() == done.len(),
            forall|k: int| 0 <= k < done.len() ==> views_of(chunks@)[k] == joined(
                toks.subrange((#[trigger] done[k]).0, done[k].1),
            ),
        decreases total_words - i,
    {
        let end = if total_words - i > chunk_size {
            i + chunk_size
        } else {
            total_words
        };
        let chunk = join_tokens(&words, i, end);
        let ghost prev_chunks = chunks@;
        proof {
            assert(chunk@ == joined(toks.subrange(i as int, end as int)));
        }
        chunks.push(chunk);
        proof {
            let prev = done;
            done = done.push((i as int, end as int));
            assert forall|k: int| 0 <= k < done.len() implies views_of(chunks@)[k] == joined(
                toks.subrange((#[trigger] done[k]).0, done[k].1),
            ) by {
                if k < prev.len() {
                    assert(done[k] == prev[k]);
                    assert(chunks@[k] == prev_chunks[k]);
                    assert(views_of(prev_chunks)[k] == joined(
                        toks.subrange(prev[k].0, prev[k].1),
                    ));
                }
            }
            if i + chunk_size >= total_words {
                assert(windows_from(n, c, v, i as int) =~= seq![(i as int, n)]);
                assert(windows(n, c, v) =~= done);
            } else {
                assert(windows_from(n, c, v, i as int) =~= seq![(i as int, i + c)]
                    + windows_from(n, c, v, i + (c - v)));
                assert(windows(n, c, v) =~= done + windows_from(n, c, v, i + (c - v)));
            }
        }
        if end == total_words {
            break;
        }
        i += step;
    }
    proof {
        assert(views_of(chunks@) =~= chunk_texts(text@, c, v));
    }
    chunks
}

} // verus!
