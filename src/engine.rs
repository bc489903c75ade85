//! The merge engine: an arena of span nodes linked by index, merged greedily
//! by rank, proved to compute the model's encoding.
use crate::model::{
    byte_tokens, encode_spec, is_best_pair, is_partition, lemma_best_pair, lemma_encode_empty,
    lemma_encode_single_byte, lemma_encode_whole_piece, lemma_remove_index,
    lemma_remove_partition, merge_all, pair_rank, span_end, span_ids, span_tokens, spans_of,
    unit_starts,
};
use crate::vocab::{lookup, rank_of, vocab_of, NO_RANK};
use rustc_hash::FxHashMap;
use vstd::prelude::*;

verus! {

/// One live span of the piece, linked to its neighbours by arena index.
#[derive(Clone, Copy)]
struct Node {
    /// Index of the previous node, or `usize::MAX` at the head.
    prev: usize,
    /// Index of the next node, or `usize::MAX` at the tail.
    next: usize,
    /// Rank of the pair (this span, next span), or `NO_RANK`.
    rank: u32,
    /// Offset of the span in the piece.
    start: usize,
    /// Length of the span.
    len: usize,
}

/// The node at list position `k` describes the `k`-th span of `order` and
/// links to the nodes at positions `k - 1` and `k + 1`.
spec fn node_wf(piece: Seq<u8>, vocab: Map<Seq<u8>, u32>, nodes: Seq<Node>, order: Seq<int>, k: int) -> bool {
    let n = piece.len() as int;
    let node = nodes[order[k]];
    &&& node.start == order[k]
    &&& node.len == span_end(order, n, k) - order[k]
    &&& node.next == (if k + 1 < order.len() { order[k + 1] } else { usize::MAX as int })
    &&& node.prev == (if k > 0 { order[k - 1] } else { usize::MAX as int })
    &&& node.rank == pair_rank(piece, vocab, order, k)
}

/// The live nodes, followed from node 0, are the spans of the partition
/// `order`, each with its pair rank cached.
spec fn arena_wf(piece: Seq<u8>, vocab: Map<Seq<u8>, u32>, nodes: Seq<Node>, order: Seq<int>) -> bool {
    &&& nodes.len() == piece.len()
    &&& is_partition(order, piece.len() as int)
    &&& forall|k: int| 0 <= k < order.len() ==> #[trigger] node_wf(piece, vocab, nodes, order, k)
}

/// The rank of a byte string in the table.
fn slice_rank(encoder: &FxHashMap<Vec<u8>, u32>, s: &[u8]) -> (r: u32)
    ensures
        r == rank_of(vocab_of(*encoder), s@),
{
    match lookup(encoder, s) {
        Some(id) => id,
        None => NO_RANK,
    }
}

/// The rank of the pair (`left`, `right`); the sentinel when either is missing.
fn pair_rank_at(piece: &[u8], encoder: &FxHashMap<Vec<u8>, u32>, nodes: &Vec<Node>, left: usize, right: usize) -> (r: u32)
    requires
        left != usize::MAX && right != usize::MAX ==> {
            &&& left < nodes.len()
            &&& right < nodes.len()
            &&& nodes[left as int].start + nodes[left as int].len + nodes[right as int].len <= piece.len()
        },
    ensures
        r == (if left == usize::MAX || right == usize::MAX {
            NO_RANK
        } else {
            rank_of(
                vocab_of(*encoder),
                piece@.subrange(
                    nodes[left as int].start as int,
                    nodes[left as int].start + nodes[left as int].len + nodes[right as int].len,
                ),
            )
        }),
{
    if left == usize::MAX || right == usize::MAX {
        return NO_RANK;
    }
    let start = nodes[left].start;
    let len = nodes[left].len + nodes[right].len;
    slice_rank(encoder, &piece[start..start + len])
}

/// One node per byte, linked in order, each with the rank of its pair with
/// the next byte.
fn init_arena(piece: &[u8], encoder: &FxHashMap<Vec<u8>, u32>) -> (nodes: Vec<Node>)
    requires
        piece.len() >= 2,
    ensures
        arena_wf(piece@, vocab_of(*encoder), nodes@, unit_starts(piece.len() as nat)),
{
    let n = piece.len();
    let ghost vocab = vocab_of(*encoder);
    let ghost order = unit_starts(n as nat);
    let mut nodes: Vec<Node> = Vec::with_capacity(n);
    for i in 0..n
        invariant
            n == piece.len(),
            n >= 2,
            vocab == vocab_of(*encoder),
            order == unit_starts(n as nat),
            nodes.len() == i,
            forall|k: int| 0 <= k < i ==> #[trigger] node_wf(piece@, vocab, nodes@, order, k),
    {
        let rank = if i + 1 < n {
            slice_rank(encoder, &piece[i..i + 2])
        } else {
            NO_RANK
        };
        let ghost before = nodes@;
        nodes.push(
            Node {
                prev: if i == 0 {
                    usize::MAX
                } else {
                    i - 1
                },
                next: if i == n - 1 {
                    usize::MAX
                } else {
                    i + 1
                },
                rank: rank,
                start: i,
                len: 1,
            },
        );
        assert(node_wf(piece@, vocab, nodes@, order, i as int));
        assert forall|k: int| 0 <= k < i implies #[trigger] node_wf(piece@, vocab, nodes@, order, k) by {
            assert(node_wf(piece@, vocab, before, order, k));
            assert(order[k] == k);
            assert(nodes@[k] == before[k]);
        }
    }
    nodes
}

/// Appends the ids of the span `piece[start..end]`: its own id, or else the
/// ids of those of its bytes that have one.
fn emit_span(piece: &[u8], encoder: &FxHashMap<Vec<u8>, u32>, start: usize, end: usize, out: &mut Vec<u32>)
    requires
        start <= end <= piece.len(),
    ensures
        final(out)@ == old(out)@ + span_tokens(vocab_of(*encoder), piece@.subrange(start as int, end as int)),
{
    let ghost vocab = vocab_of(*encoder);
    match lookup(encoder, &piece[start..end]) {
        Some(id) => {
            out.push(id);
        },
        None => {
            let ghost base = out@;
            assert(piece@.subrange(start as int, start as int) =~= Seq::<u8>::empty());
            assert(base + byte_tokens(vocab, Seq::<u8>::empty()) =~= base);
            for i in start..end
                invariant
                    start <= end <= piece.len(),
                    vocab == vocab_of(*encoder),
                    out@ == base + byte_tokens(vocab, piece@.subrange(start as int, i as int)),
            {
                let ghost done = piece@.subrange(start as int, i as int);
                let ghost next = piece@.subrange(start as int, i + 1);
                assert(next.drop_last() =~= done);
                assert(seq![next.last()] =~= piece@.subrange(i as int, i + 1));
                match lookup(encoder, &piece[i..i + 1]) {
                    Some(id) => {
                        out.push(id);
                        assert(out@ =~= base + byte_tokens(vocab, next));
                    },
                    None => {},
                }
            }
        },
    }
}

/// The ids of the spans of `order`, in order, read off the linked list.
fn collect_ids(piece: &[u8], encoder: &FxHashMap<Vec<u8>, u32>, nodes: &Vec<Node>, Ghost(order): Ghost<Seq<int>>) -> (r: Vec<u32>)
    requires
        arena_wf(piece@, vocab_of(*encoder), nodes@, order),
    ensures
        r@ == span_ids(vocab_of(*encoder), spans_of(piece@, order)).flatten(),
{
    let ghost vocab = vocab_of(*encoder);
    let ghost spans = spans_of(piece@, order);
    let mut result: Vec<u32> = Vec::new();
    let mut curr: usize = 0;
    let ghost mut k: int = 0;
    assert(span_ids(vocab, spans.take(0)) =~= Seq::<Seq<u32>>::empty());
    while curr != usize::MAX
        invariant
            vocab == vocab_of(*encoder),
            spans == spans_of(piece@, order),
            arena_wf(piece@, vocab, nodes@, order),
            0 <= k <= order.len(),
            k < order.len() ==> curr == order[k],
            k == order.len() ==> curr == usize::MAX,
            result@ == span_ids(vocab, spans.take(k)).flatten(),
        decreases order.len() - k,
    {
        assert(node_wf(piece@, vocab, nodes@, order, k));
        proof {
            if k + 1 < order.len() {
                assert(order[k + 1] < piece.len());
            }
        }
        let node = nodes[curr];
        emit_span(piece, encoder, node.start, node.start + node.len, &mut result);
        proof {
            assert(span_ids(vocab, spans.take(k + 1)) =~= span_ids(vocab, spans.take(k)).push(
                span_tokens(vocab, spans[k]),
            ));
            span_ids(vocab, spans.take(k)).lemma_flatten_push(span_tokens(vocab, spans[k]));
            k = k + 1;
        }
        curr = node.next;
    }
    proof {
        if k < order.len() {
            assert(order[k] < piece.len());
        }
    }
    assert(spans.take(k) =~= spans);
    result
}

/// Scans the list from its head for the pair to merge next: the lowest rank,
/// the leftmost among equal ranks. Returns its left node and list position, or
/// `usize::MAX` when no pair is mergeable.
fn find_best(piece: &[u8], encoder: &FxHashMap<Vec<u8>, u32>, nodes: &Vec<Node>, Ghost(order): Ghost<Seq<int>>) -> (r: (usize, Ghost<int>))
    requires
        arena_wf(piece@, vocab_of(*encoder), nodes@, order),
    ensures
        r.0 == usize::MAX ==> forall|k: int|
            0 <= k < order.len() ==> #[trigger] pair_rank(piece@, vocab_of(*encoder), order, k) == NO_RANK,
        r.0 != usize::MAX ==> {
            &&& is_best_pair(piece@, vocab_of(*encoder), order, r.1@)
            &&& r.0 == order[r.1@]
        },
{
    let ghost vocab = vocab_of(*encoder);
    let mut min_rank: u32 = NO_RANK;
    let mut min_idx: usize = usize::MAX;
    let ghost mut min_pos: int = 0;
    let mut curr: usize = 0;
    let ghost mut k: int = 0;
    while curr != usize::MAX
        invariant
            vocab == vocab_of(*encoder),
            arena_wf(piece@, vocab, nodes@, order),
            0 <= k <= order.len(),
            k < order.len() ==> curr == order[k],
            k == order.len() ==> curr == usize::MAX,
            min_rank == NO_RANK ==> min_idx == usize::MAX,
            min_rank == NO_RANK ==> forall|j: int| 0 <= j < k ==> #[trigger] pair_rank(piece@, vocab, order, j) == NO_RANK,
            min_rank < NO_RANK ==> {
                &&& 0 <= min_pos < k
                &&& min_idx == order[min_pos]
                &&& min_rank == pair_rank(piece@, vocab, order, min_pos)
                &&& forall|j: int| 0 <= j < min_pos ==> #[trigger] pair_rank(piece@, vocab, order, j) > min_rank
                &&& forall|j: int| min_pos < j < k ==> #[trigger] pair_rank(piece@, vocab, order, j) >= min_rank
            },
        decreases order.len() - k,
    {
        assert(node_wf(piece@, vocab, nodes@, order, k));
        let r = nodes[curr].rank;
        if r < min_rank {
            min_rank = r;
            min_idx = curr;
            proof {
                min_pos = k;
            }
        }
        proof {
            if k + 1 < order.len() {
                assert(order[k + 1] < piece.len());
            }
            k = k + 1;
        }
        curr = nodes[curr].next;
    }
    proof {
        if k < order.len() {
            assert(order[k] < piece.len());
        }
        if min_rank < NO_RANK {
            assert(order[min_pos] < piece.len());
        }
    }
    (min_idx, Ghost(min_pos))
}

/// Merges the span of node `a`, at list position `p`, with the next span:
/// `a` takes over its successor's bytes, the successor is unlinked, and the
/// two ranks that involve `a` are recomputed.
fn merge_at(
    piece: &[u8],
    encoder: &FxHashMap<Vec<u8>, u32>,
    nodes: &mut Vec<Node>,
    a: usize,
    Ghost(order): Ghost<Seq<int>>,
    Ghost(p): Ghost<int>,
)
    requires
        arena_wf(piece@, vocab_of(*encoder), old(nodes)@, order),
        0 <= p,
        p + 1 < order.len(),
        a == order[p],
    ensures
        arena_wf(piece@, vocab_of(*encoder), final(nodes)@, order.remove(p + 1)),
{
    let ghost vocab = vocab_of(*encoder);
    let ghost n = piece.len() as int;
    let ghost before = nodes@;
    let ghost order2 = order.remove(p + 1);
    proof {
        lemma_remove_index(order, p + 1);
        lemma_remove_partition(order, n, p + 1);
        assert(node_wf(piece@, vocab, before, order, p));
        assert(node_wf(piece@, vocab, before, order, p + 1));
        assert(order[p + 1] < n);
        if p + 2 < order.len() {
            assert(node_wf(piece@, vocab, before, order, p + 2));
            assert(order[p + 2] < n);
        }
        if p > 0 {
            assert(node_wf(piece@, vocab, before, order, p - 1));
        }
    }
    let b = nodes[a].next;
    let mut node_a = nodes[a];
    node_a.len = node_a.len + nodes[b].len;
    let new_next = nodes[b].next;
    node_a.next = new_next;
    nodes.set(a, node_a);
    if new_next != usize::MAX {
        let mut node_n = nodes[new_next];
        node_n.prev = a;
        nodes.set(new_next, node_n);
    }
    let prev = nodes[a].prev;
    if prev != usize::MAX {
        let rank = pair_rank_at(piece, encoder, nodes, prev, a);
        let mut node_p = nodes[prev];
        node_p.rank = rank;
        nodes.set(prev, node_p);
    }
    let rank = pair_rank_at(piece, encoder, nodes, a, nodes[a].next);
    let mut node_a = nodes[a];
    node_a.rank = rank;
    nodes.set(a, node_a);
    proof {
        assert forall|k: int| 0 <= k < order2.len() implies #[trigger] node_wf(piece@, vocab, nodes@, order2, k) by {
            if k < p - 1 {
                assert(node_wf(piece@, vocab, before, order, k));
                assert(order[k] < order[p - 1]);
            } else if k == p - 1 || k == p {
                // the two recomputed ranks
            } else if k == p + 1 {
                assert(node_wf(piece@, vocab, before, order, k + 1));
            } else {
                assert(node_wf(piece@, vocab, before, order, k + 1));
                assert(order[k + 1] > order[p + 2]);
            }
        }
    }
}

/// Merges the best pair until no pair is mergeable. Returns the final
/// partition, which is the model's greedy result.
fn merge_pairs(piece: &[u8], encoder: &FxHashMap<Vec<u8>, u32>, nodes: &mut Vec<Node>) -> (result: Ghost<Seq<int>>)
    requires
        piece.len() >= 2,
        arena_wf(piece@, vocab_of(*encoder), old(nodes)@, unit_starts(piece.len() as nat)),
    ensures
        arena_wf(piece@, vocab_of(*encoder), final(nodes)@, result@),
        result@ == merge_all(piece@, vocab_of(*encoder), unit_starts(piece.len() as nat)),
{
    let ghost vocab = vocab_of(*encoder);
    let ghost target = merge_all(piece@, vocab, unit_starts(piece.len() as nat));
    let ghost mut order = unit_starts(piece.len() as nat);
    loop
        invariant
            vocab == vocab_of(*encoder),
            target == merge_all(piece@, vocab, unit_starts(piece.len() as nat)),
            arena_wf(piece@, vocab, nodes@, order),
            merge_all(piece@, vocab, order) == target,
        ensures
            arena_wf(piece@, vocab, nodes@, order),
            order == target,
        decreases order.len(),
    {
        let (a, Ghost(p)) = find_best(piece, encoder, nodes, Ghost(order));
        if a == usize::MAX {
            assert forall|i: int| !#[trigger] is_best_pair(piece@, vocab, order, i) by {
                if 0 <= i < order.len() {
                    assert(pair_rank(piece@, vocab, order, i) == NO_RANK);
                }
            }
            break;
        }
        proof {
            let i = lemma_best_pair(piece@, vocab, order);
            assert(i == p);
        }
        merge_at(piece, encoder, nodes, a, Ghost(order), Ghost(p));
        proof {
            order = order.remove(p + 1);
        }
    }
    Ghost(order)
}

/// Encodes `piece` into token ids by greedy byte-pair merging against the
/// rank table `encoder`: the empty piece gives no ids, a piece that is a key
/// gives its own id, and any other piece is cut into single bytes that are
/// merged, best pair first, until no pair is mergeable; each final span then
/// gives its id, or the ids of those of its bytes that have one.
pub fn byte_pair_encode(piece: &[u8], encoder: &FxHashMap<Vec<u8>, u32>) -> (r: Vec<u32>)
    ensures
        r@ == encode_spec(piece@, vocab_of(*encoder)),
{
    let ghost vocab = vocab_of(*encoder);
    if piece.len() == 0 {
        proof {
            assert(piece@ =~= Seq::<u8>::empty());
            lemma_encode_empty(vocab);
        }
        return Vec::new();
    }
    if piece.len() == 1 {
        proof {
            assert(piece@ =~= seq![piece@[0]]);
            lemma_encode_single_byte(vocab, piece@[0]);
        }
        return match lookup(encoder, piece) {
            Some(id) => vec![id],
            None => Vec::new(),
        };
    }
    if let Some(id) = lookup(encoder, piece) {
        proof {
            lemma_encode_whole_piece(piece@, vocab);
        }
        return vec![id];
    }
    let mut nodes = init_arena(piece, encoder);
    let order = merge_pairs(piece, encoder, &mut nodes);
    collect_ids(piece, encoder, &nodes, order)
}

} // verus!
