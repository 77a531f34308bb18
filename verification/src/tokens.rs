//! Token boundaries: which token owns each character of the joined text, and
//! where each token starts and ends in it.

use crate::text::{concat, token_texts};
use vstd::prelude::*;

verus! {

/// For each character of the joined text, the index of the token it belongs
/// to. A token without characters owns no position.
pub open spec fn owners(tokens: Seq<Seq<char>>) -> Seq<usize>
    decreases tokens.len(),
{
    if tokens.len() == 0 {
        Seq::empty()
    } else {
        owners(tokens.drop_last()) + Seq::new(
            tokens.last().len(),
            |p: int| (tokens.len() - 1) as usize,
        )
    }
}

/// The number of characters before token `i` in the joined text; for
/// `i == tokens.len()`, the length of the joined text.
pub open spec fn offset(tokens: Seq<Seq<char>>, i: int) -> nat {
    concat(tokens.take(i)).len()
}

/// The pair holds the positions at which token `i` starts and ends in the
/// joined text.
pub open spec fn is_span_of(span: (usize, usize), tokens: Seq<Seq<char>>, i: int) -> bool {
    span.0 == offset(tokens, i) && span.1 == offset(tokens, i + 1)
}

/// The entries never decrease along the map.
pub open spec fn rising(own: Seq<usize>) -> bool {
    forall|p: int, q: int| 0 <= p <= q < own.len() ==> own[p] <= own[q]
}

/// The owner map has one entry per character of the joined text.
pub proof fn lemma_owners_len(tokens: Seq<Seq<char>>)
    ensures
        owners(tokens).len() == concat(tokens).len(),
    decreases tokens.len(),
{
    if tokens.len() > 0 {
        lemma_owners_len(tokens.drop_last());
    }
}

/// The joined text grows with each token, and token `i` occupies exactly the
/// positions from `offset(i)` up to `offset(i + 1)`.
pub proof fn lemma_offset_step(tokens: Seq<Seq<char>>, i: int)
    requires
        0 <= i < tokens.len(),
    ensures
        offset(tokens, i + 1) == offset(tokens, i) + tokens[i].len(),
        offset(tokens, i + 1) <= offset(tokens, tokens.len() as int),
        offset(tokens, tokens.len() as int) == concat(tokens).len(),
    decreases tokens.len() - i,
{
    assert(tokens.take(i + 1).drop_last() =~= tokens.take(i));
    assert(tokens.take(tokens.len() as int) =~= tokens);
    if i + 1 < tokens.len() {
        lemma_offset_step(tokens, i + 1);
    }
}

/// The characters of token `i` are owned by `i`.
pub proof fn lemma_owner_of(tokens: Seq<Seq<char>>, i: int, q: int)
    requires
        tokens.len() <= usize::MAX,
        0 <= i < tokens.len(),
        0 <= q < tokens[i].len(),
    ensures
        offset(tokens, i) + q < owners(tokens).len(),
        owners(tokens)[offset(tokens, i) + q] == i,
    decreases tokens.len(),
{
    let front = tokens.drop_last();
    let tail = Seq::new(tokens.last().len(), |p: int| (tokens.len() - 1) as usize);
    assert(owners(tokens) == owners(front) + tail);
    lemma_owners_len(front);
    if i == tokens.len() - 1 {
        assert(tokens.take(i) =~= front);
        assert(owners(tokens)[offset(tokens, i) + q] == tail[q]);
    } else {
        lemma_owner_of(front, i, q);
        assert(front.take(i) =~= tokens.take(i));
        assert(owners(tokens)[offset(tokens, i) + q] == owners(front)[offset(front, i) + q]);
    }
}

/// Each character of the joined text is a character of the token that owns
/// its position.
pub proof fn lemma_owned_char(tokens: Seq<Seq<char>>, p: int)
    requires
        tokens.len() <= usize::MAX,
        0 <= p < owners(tokens).len(),
    ensures
        owners(tokens)[p] < tokens.len(),
        offset(tokens, owners(tokens)[p] as int) <= p < offset(tokens, owners(tokens)[p] as int)
            + tokens[owners(tokens)[p] as int].len(),
        p < concat(tokens).len(),
        concat(tokens)[p] == tokens[owners(tokens)[p] as int][p - offset(
            tokens,
            owners(tokens)[p] as int,
        )],
    decreases tokens.len(),
{
    let front = tokens.drop_last();
    let tail = Seq::new(tokens.last().len(), |p: int| (tokens.len() - 1) as usize);
    assert(owners(tokens) == owners(front) + tail);
    assert(concat(tokens) == concat(front) + tokens.last());
    lemma_owners_len(front);
    lemma_owners_len(tokens);
    if p < owners(front).len() {
        lemma_owned_char(front, p);
        let s = owners(front)[p] as int;
        assert(owners(tokens)[p] == owners(front)[p]);
        assert(front.take(s) =~= tokens.take(s));
        assert(front[s] == tokens[s]);
    } else {
        let s = tokens.len() - 1;
        assert(owners(tokens)[p] == tail[p - owners(front).len()]);
        assert(tokens.take(s) =~= front);
    }
}

/// Owners are token indices, and they never decrease along the text.
pub proof fn lemma_owners_ordered(tokens: Seq<Seq<char>>)
    requires
        tokens.len() <= usize::MAX,
    ensures
        forall|p: int|
            0 <= p < owners(tokens).len() ==> (#[trigger] owners(tokens)[p]) < tokens.len(),
        rising(owners(tokens)),
    decreases tokens.len(),
{
    if tokens.len() > 0 {
        let front = tokens.drop_last();
        let tail = Seq::new(tokens.last().len(), |p: int| (tokens.len() - 1) as usize);
        let all = owners(tokens);
        assert(all == owners(front) + tail);
        lemma_owners_ordered(front);
        assert forall|p: int| 0 <= p < all.len() implies (#[trigger] all[p]) < tokens.len() by {
            if p < owners(front).len() {
                assert(all[p] == owners(front)[p]);
            } else {
                assert(all[p] == tail[p - owners(front).len()]);
            }
        }
        assert forall|p: int, q: int| 0 <= p <= q < all.len() implies all[p] <= all[q] by {
            if p < owners(front).len() {
                assert(all[p] == owners(front)[p]);
            } else {
                assert(all[p] == tail[p - owners(front).len()]);
            }
            if q < owners(front).len() {
                assert(all[q] == owners(front)[q]);
            } else {
                assert(all[q] == tail[q - owners(front).len()]);
            }
        }
    }
}

/// Maps each character position of the joined tokens to the index of the
/// token that it belongs to.
pub fn get_char2token(tokens: &[&str]) -> (ret: Vec<usize>)
    ensures
        ret@ == owners(token_texts(tokens@)),
        ret@.len() == concat(token_texts(tokens@)).len(),
        forall|p: int| 0 <= p < ret@.len() ==> (#[trigger] ret@[p]) < tokens@.len(),
        rising(ret@),
{
    let ghost texts = token_texts(tokens@);
    let mut ret: Vec<usize> = Vec::new();
    for i in 0..tokens.len()
        invariant
            texts == token_texts(tokens@),
            ret@ == owners(texts.take(i as int)),
    {
        let count = tokens[i].unicode_len();
        let ghost before = ret@;
        for j in 0..count
            invariant
                ret@ == before + Seq::new(j as nat, |p: int| i),
        {
            ret.push(i);
            assert(ret@ =~= before + Seq::new((j + 1) as nat, |p: int| i));
        }
        proof {
            assert(texts.take(i + 1).drop_last() =~= texts.take(i as int));
            assert(ret@ =~= owners(texts.take(i + 1)));
        }
    }
    proof {
        assert(texts.take(tokens@.len() as int) =~= texts);
        lemma_owners_len(texts);
        lemma_owners_ordered(texts);
    }
    ret
}

/// The half-open range of character positions that each token occupies in
/// the joined text.
pub fn get_span_indices(tokens: &[&str]) -> (spans: Vec<(usize, usize)>)
    requires
        concat(token_texts(tokens@)).len() <= usize::MAX,
    ensures
        spans@.len() == tokens@.len(),
        forall|i: int|
            0 <= i < spans@.len() ==> is_span_of(#[trigger] spans@[i], token_texts(tokens@), i),
{
    let ghost texts = token_texts(tokens@);
    let mut spans: Vec<(usize, usize)> = Vec::new();
    let mut left: usize = 0;
    for i in 0..tokens.len()
        invariant
            texts == token_texts(tokens@),
            concat(texts).len() <= usize::MAX,
            left == offset(texts, i as int),
            spans@.len() == i,
            forall|k: int| 0 <= k < i ==> is_span_of(#[trigger] spans@[k], texts, k),
    {
        proof {
            lemma_offset_step(texts, i as int);
        }
        let right = left + tokens[i].unicode_len();
        spans.push((left, right));
        left = right;
    }
    spans
}

} // verus!
