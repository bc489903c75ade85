//! The mathematical model of greedy byte-pair merging.
//!
//! A piece of `n` bytes is cut into spans, given by the strictly increasing
//! sequence of their start offsets (`starts[0] == 0`, each below `n`); a span
//! runs to the next start, or to `n` for the last one. Merging the spans at
//! positions `i` and `i + 1` removes `starts[i + 1]`.
use crate::vocab::{rank_of, NO_RANK};
use vstd::prelude::*;

verus! {

/// Where the span at position `k` ends.
pub open spec fn span_end(starts: Seq<int>, n: int, k: int) -> int {
    if k + 1 < starts.len() {
        starts[k + 1]
    } else {
        n
    }
}

/// `starts` cuts `0..n` into non-empty, contiguous spans, in order.
pub open spec fn is_partition(starts: Seq<int>, n: int) -> bool {
    &&& starts.len() >= 1
    &&& starts[0] == 0
    &&& forall|k: int| 0 <= k < starts.len() ==> 0 <= #[trigger] starts[k] < n
    &&& forall|j: int, k: int| 0 <= j < k < starts.len() ==> starts[j] < starts[k]
}

/// One span per byte.
pub open spec fn unit_starts(n: nat) -> Seq<int> {
    Seq::new(n, |k: int| k)
}

/// The bytes of the span at position `k`.
pub open spec fn span(piece: Seq<u8>, starts: Seq<int>, k: int) -> Seq<u8> {
    piece.subrange(starts[k], span_end(starts, piece.len() as int, k))
}

/// The bytes of every span, in order.
pub open spec fn spans_of(piece: Seq<u8>, starts: Seq<int>) -> Seq<Seq<u8>> {
    Seq::new(starts.len(), |k: int| span(piece, starts, k))
}

/// The rank of the pair made of the span at position `k` and its successor:
/// the rank of their concatenation, or the sentinel for the last span.
pub open spec fn pair_rank(piece: Seq<u8>, vocab: Map<Seq<u8>, u32>, starts: Seq<int>, k: int) -> u32 {
    if k + 1 < starts.len() {
        rank_of(vocab, piece.subrange(starts[k], span_end(starts, piece.len() as int, k + 1)))
    } else {
        NO_RANK
    }
}

/// The pair at position `i` is the one to merge next: it is mergeable, it has
/// the lowest rank of all pairs, and every pair to its left ranks higher.
pub open spec fn is_best_pair(piece: Seq<u8>, vocab: Map<Seq<u8>, u32>, starts: Seq<int>, i: int) -> bool {
    &&& 0 <= i < starts.len()
    &&& pair_rank(piece, vocab, starts, i) < NO_RANK
    &&& forall|j: int|
        0 <= j < i ==> #[trigger] pair_rank(piece, vocab, starts, j) > pair_rank(piece, vocab, starts, i)
    &&& forall|j: int|
        i < j < starts.len() ==> #[trigger] pair_rank(piece, vocab, starts, j) >= pair_rank(
            piece,
            vocab,
            starts,
            i,
        )
}

/// Greedy merging: while some pair is mergeable, merge the best pair.
pub open spec fn merge_all(piece: Seq<u8>, vocab: Map<Seq<u8>, u32>, starts: Seq<int>) -> Seq<int>
    decreases starts.len(),
{
    if exists|i: int| is_best_pair(piece, vocab, starts, i) {
        let i = choose|i: int| is_best_pair(piece, vocab, starts, i);
        merge_all(piece, vocab, starts.remove(i + 1))
    } else {
        starts
    }
}

/// The spans whose ids make up the encoding of `piece`.
pub open spec fn token_spans(piece: Seq<u8>, vocab: Map<Seq<u8>, u32>) -> Seq<Seq<u8>> {
    if piece.len() == 0 {
        seq![]
    } else if vocab.contains_key(piece) {
        seq![piece]
    } else {
        spans_of(piece, merge_all(piece, vocab, unit_starts(piece.len())))
    }
}

/// The ids of the single bytes of `s` that have an entry, in order.
pub open spec fn byte_tokens(vocab: Map<Seq<u8>, u32>, s: Seq<u8>) -> Seq<u32>
    decreases s.len(),
{
    if s.len() == 0 {
        seq![]
    } else {
        let rest = byte_tokens(vocab, s.drop_last());
        if vocab.contains_key(seq![s.last()]) {
            rest.push(vocab[seq![s.last()]])
        } else {
            rest
        }
    }
}

/// The ids emitted for one final span: its own id, or else those of its bytes.
pub open spec fn span_tokens(vocab: Map<Seq<u8>, u32>, s: Seq<u8>) -> Seq<u32> {
    if vocab.contains_key(s) {
        seq![vocab[s]]
    } else {
        byte_tokens(vocab, s)
    }
}

/// The ids emitted for each span of `spans`.
pub open spec fn span_ids(vocab: Map<Seq<u8>, u32>, spans: Seq<Seq<u8>>) -> Seq<Seq<u32>> {
    spans.map_values(|s: Seq<u8>| span_tokens(vocab, s))
}

/// The encoding of `piece`: the ids of its token spans, concatenated.
pub open spec fn encode_spec(piece: Seq<u8>, vocab: Map<Seq<u8>, u32>) -> Seq<u32> {
    span_ids(vocab, token_spans(piece, vocab)).flatten()
}

/// Removing an element shifts the elements after it down by one.
pub proof fn lemma_remove_index(s: Seq<int>, i: int)
    requires
        0 <= i < s.len(),
    ensures
        s.remove(i).len() == s.len() - 1,
        forall|k: int| 0 <= k < i ==> #[trigger] s.remove(i)[k] == s[k],
        forall|k: int| i <= k < s.len() - 1 ==> #[trigger] s.remove(i)[k] == s[k + 1],
{
}

/// One span per byte is a partition of a non-empty piece.
pub proof fn lemma_unit_starts_partition(n: nat)
    requires
        n >= 1,
    ensures
        is_partition(unit_starts(n), n as int),
{
}

/// Merging two adjacent spans keeps a partition.
pub proof fn lemma_remove_partition(starts: Seq<int>, n: int, i: int)
    requires
        is_partition(starts, n),
        1 <= i < starts.len(),
    ensures
        is_partition(starts.remove(i), n),
{
    lemma_remove_index(starts, i);
    let r = starts.remove(i);
    assert forall|j: int, k: int| 0 <= j < k < r.len() implies r[j] < r[k] by {
        let j0 = if j < i { j } else { j + 1 };
        let k0 = if k < i { k } else { k + 1 };
        assert(r[j] == starts[j0] && r[k] == starts[k0]);
    }
}

/// Greedy merging keeps a partition.
pub proof fn lemma_merge_all_partition(piece: Seq<u8>, vocab: Map<Seq<u8>, u32>, starts: Seq<int>)
    requires
        is_partition(starts, piece.len() as int),
    ensures
        is_partition(merge_all(piece, vocab, starts), piece.len() as int),
    decreases starts.len(),
{
    if exists|i: int| is_best_pair(piece, vocab, starts, i) {
        let i = choose|i: int| is_best_pair(piece, vocab, starts, i);
        lemma_remove_partition(starts, piece.len() as int, i + 1);
        lemma_merge_all_partition(piece, vocab, starts.remove(i + 1));
    }
}

/// Among the pairs at positions below `m`, some pair has the lowest rank and
/// every pair to its left ranks strictly higher.
proof fn lemma_leftmost_min(piece: Seq<u8>, vocab: Map<Seq<u8>, u32>, starts: Seq<int>, m: int) -> (i: int)
    requires
        1 <= m <= starts.len(),
    ensures
        0 <= i < m,
        forall|j: int| 0 <= j < i ==> #[trigger] pair_rank(piece, vocab, starts, j) > pair_rank(piece, vocab, starts, i),
        forall|j: int| i < j < m ==> #[trigger] pair_rank(piece, vocab, starts, j) >= pair_rank(piece, vocab, starts, i),
    decreases m,
{
    if m == 1 {
        0
    } else {
        let i = lemma_leftmost_min(piece, vocab, starts, m - 1);
        if pair_rank(piece, vocab, starts, m - 1) < pair_rank(piece, vocab, starts, i) {
            m - 1
        } else {
            i
        }
    }
}

/// Deterministic choice of the next merge: when some adjacent pair is
/// mergeable, exactly one pair is the best one (the lowest rank wins, and among
/// equal ranks the leftmost pair wins), and greedy merging goes on from the
/// partition in which that pair is merged.
pub proof fn lemma_best_pair(piece: Seq<u8>, vocab: Map<Seq<u8>, u32>, starts: Seq<int>) -> (i: int)
    requires
        is_partition(starts, piece.len() as int),
        exists|k: int| 0 <= k < starts.len() && pair_rank(piece, vocab, starts, k) < NO_RANK,
    ensures
        is_best_pair(piece, vocab, starts, i),
        i + 1 < starts.len(),
        forall|j: int| #[trigger] is_best_pair(piece, vocab, starts, j) ==> j == i,
        merge_all(piece, vocab, starts) == merge_all(piece, vocab, starts.remove(i + 1)),
{
    let k = choose|k: int| 0 <= k < starts.len() && pair_rank(piece, vocab, starts, k) < NO_RANK;
    let i = lemma_leftmost_min(piece, vocab, starts, starts.len() as int);
    assert(pair_rank(piece, vocab, starts, i) <= pair_rank(piece, vocab, starts, k));
    assert(is_best_pair(piece, vocab, starts, i));
    assert forall|j: int| #[trigger] is_best_pair(piece, vocab, starts, j) implies j == i by {
        if j < i {
            assert(pair_rank(piece, vocab, starts, j) > pair_rank(piece, vocab, starts, i));
        } else if j > i {
            assert(pair_rank(piece, vocab, starts, i) > pair_rank(piece, vocab, starts, j));
        }
    }
    i
}

/// The ids of spans that are all keys of the table, one id per span.
pub open spec fn key_ids(vocab: Map<Seq<u8>, u32>, spans: Seq<Seq<u8>>) -> Seq<u32> {
    spans.map_values(|s: Seq<u8>| vocab[s])
}

/// The first `m` spans of a partition, concatenated, are the piece up to the
/// end of the `m`-th span.
proof fn lemma_spans_prefix(piece: Seq<u8>, starts: Seq<int>, m: int)
    requires
        is_partition(starts, piece.len() as int),
        1 <= m <= starts.len(),
    ensures
        spans_of(piece, starts).take(m).flatten() == piece.subrange(
            0,
            span_end(starts, piece.len() as int, m - 1),
        ),
    decreases m,
{
    let spans = spans_of(piece, starts);
    let n = piece.len() as int;
    if m - 1 + 1 < starts.len() {
        assert(starts[m] < n);
    }
    if m == 1 {
        assert(spans.take(1) =~= seq![spans[0]]);
        seq![spans[0]].lemma_flatten_singleton();
    } else {
        lemma_spans_prefix(piece, starts, m - 1);
        assert(spans.take(m) =~= spans.take(m - 1).push(spans[m - 1]));
        spans.take(m - 1).lemma_flatten_push(spans[m - 1]);
        assert(piece.subrange(0, span_end(starts, n, m - 2)) + spans[m - 1] =~= piece.subrange(
            0,
            span_end(starts, n, m - 1),
        ));
    }
}

/// The spans of a partition are non-empty and, concatenated, give the piece.
pub proof fn lemma_partition_spans(piece: Seq<u8>, starts: Seq<int>)
    requires
        is_partition(starts, piece.len() as int),
    ensures
        spans_of(piece, starts).flatten() == piece,
        forall|k: int| 0 <= k < starts.len() ==> (#[trigger] spans_of(piece, starts)[k]).len() > 0,
{
    let spans = spans_of(piece, starts);
    lemma_spans_prefix(piece, starts, starts.len() as int);
    assert(spans.take(starts.len() as int) =~= spans);
    assert(piece.subrange(0, piece.len() as int) =~= piece);
    assert forall|k: int| 0 <= k < starts.len() implies (#[trigger] spans[k]).len() > 0 by {
        if k + 1 < starts.len() {
            assert(starts[k] < starts[k + 1]);
        }
    }
}

/// Where every span is a key, each span contributes exactly its own id.
proof fn lemma_key_spans_ids(vocab: Map<Seq<u8>, u32>, spans: Seq<Seq<u8>>)
    requires
        forall|k: int| 0 <= k < spans.len() ==> vocab.contains_key(#[trigger] spans[k]),
    ensures
        span_ids(vocab, spans).flatten() == key_ids(vocab, spans),
    decreases spans.len(),
{
    if spans.len() == 0 {
        assert(span_ids(vocab, spans) =~= Seq::<Seq<u32>>::empty());
        assert(key_ids(vocab, spans) =~= Seq::<u32>::empty());
    } else {
        let init = spans.drop_last();
        lemma_key_spans_ids(vocab, init);
        assert(span_ids(vocab, spans) =~= span_ids(vocab, init).push(seq![vocab[spans.last()]]));
        span_ids(vocab, init).lemma_flatten_push(seq![vocab[spans.last()]]);
        assert(key_ids(vocab, spans) =~= key_ids(vocab, init) + seq![vocab[spans.last()]]);
    }
}

/// The empty piece encodes to no ids, whatever the table.
pub proof fn lemma_encode_empty(vocab: Map<Seq<u8>, u32>)
    ensures
        encode_spec(Seq::empty(), vocab) == Seq::<u32>::empty(),
{
    assert(span_ids(vocab, token_spans(Seq::empty(), vocab)) =~= Seq::<Seq<u32>>::empty());
}

/// A single byte encodes to its own id, or to nothing when it has no entry.
pub proof fn lemma_encode_single_byte(vocab: Map<Seq<u8>, u32>, b: u8)
    ensures
        encode_spec(seq![b], vocab) == (if vocab.contains_key(seq![b]) {
            seq![vocab[seq![b]]]
        } else {
            Seq::<u32>::empty()
        }),
{
    let piece = seq![b];
    let ids = span_ids(vocab, token_spans(piece, vocab));
    if vocab.contains_key(piece) {
        assert(ids =~= seq![seq![vocab[piece]]]);
        ids.lemma_flatten_singleton();
    } else {
        let starts = unit_starts(1);
        assert forall|i: int| !#[trigger] is_best_pair(piece, vocab, starts, i) by {}
        assert(piece.subrange(0, 1) =~= piece);
        assert(spans_of(piece, starts) =~= seq![piece]);
        assert(piece.drop_last() =~= Seq::<u8>::empty());
        assert(seq![piece.last()] =~= piece);
        assert(byte_tokens(vocab, Seq::<u8>::empty()) =~= Seq::<u32>::empty());
        assert(byte_tokens(vocab, piece) =~= Seq::<u32>::empty());
        assert(ids =~= seq![Seq::<u32>::empty()]);
        ids.lemma_flatten_singleton();
    }
}

/// A non-empty piece that is itself a key encodes to its own id alone,
/// whatever other ways of cutting it the table allows. (The empty piece
/// encodes to nothing even where the table has an entry for it.)
pub proof fn lemma_encode_whole_piece(piece: Seq<u8>, vocab: Map<Seq<u8>, u32>)
    requires
        piece.len() > 0,
        vocab.contains_key(piece),
    ensures
        encode_spec(piece, vocab) == seq![vocab[piece]],
{
    let ids = span_ids(vocab, token_spans(piece, vocab));
    assert(ids =~= seq![seq![vocab[piece]]]);
    ids.lemma_flatten_singleton();
}

/// Coverage: the spans behind the encoding are non-empty and, laid out in
/// order, give back the piece with no gap and no overlap; where every one of
/// them is a key (no byte was dropped), the encoding is their ids, one per span.
pub proof fn lemma_spans_cover(piece: Seq<u8>, vocab: Map<Seq<u8>, u32>)
    ensures
        token_spans(piece, vocab).flatten() == piece,
        forall|k: int|
            0 <= k < token_spans(piece, vocab).len() ==> (#[trigger] token_spans(piece, vocab)[k]).len()
                > 0,
        (forall|k: int|
            0 <= k < token_spans(piece, vocab).len() ==> vocab.contains_key(
                #[trigger] token_spans(piece, vocab)[k],
            )) ==> encode_spec(piece, vocab) == key_ids(vocab, token_spans(piece, vocab)),
{
    let spans = token_spans(piece, vocab);
    if piece.len() == 0 {
        assert(spans.flatten() =~= piece);
    } else if vocab.contains_key(piece) {
        spans.lemma_flatten_singleton();
    } else {
        let starts = unit_starts(piece.len());
        lemma_unit_starts_partition(piece.len());
        lemma_merge_all_partition(piece, vocab, starts);
        lemma_partition_spans(piece, merge_all(piece, vocab, starts));
    }
    if forall|k: int| 0 <= k < spans.len() ==> vocab.contains_key(#[trigger] spans[k]) {
        lemma_key_spans_ids(vocab, spans);
    }
}

} // verus!
