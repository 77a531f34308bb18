//! Spans of tokens in an original text that the tokens were derived from.

use crate::charmap::{all_nonempty, charmap_of, get_charmap, normal_forms};
use crate::edit::{is_identity, is_partial_identity, maps_into, nondecreasing};
use crate::text::{concat, join, token_texts};
use crate::tokens::{get_span_indices, is_span_of, lemma_offset_step, offset};
use vstd::pervasive::unreached;
use vstd::prelude::*;

verus! {

/// The partner of the leftmost position in `[left, right)` that has one.
pub open spec fn first_aligned(map: Seq<Option<usize>>, left: int, right: int) -> Option<usize>
    decreases right - left,
{
    if left >= right {
        None
    } else if map[left] is Some {
        map[left]
    } else {
        first_aligned(map, left + 1, right)
    }
}

/// The partner of the rightmost position in `[left, right)` that has one.
pub open spec fn last_aligned(map: Seq<Option<usize>>, left: int, right: int) -> Option<usize>
    decreases right - left,
{
    if left >= right {
        None
    } else if map[right - 1] is Some {
        map[right - 1]
    } else {
        last_aligned(map, left, right - 1)
    }
}

/// The span in the other text of a token that occupies `[left, right)`.
///
/// A token with characters reaches from the partner of its first aligned
/// character to just behind the partner of its last one, and has no span
/// where none of its characters is aligned. A token without characters is
/// a point: the partner of the character at its place, or the end of the
/// other text where it stands behind the last character.
pub open spec fn resolved(a2b: Seq<Option<usize>>, b_len: usize, left: int, right: int) -> Option<
    (usize, usize),
> {
    if left == right {
        if left >= a2b.len() {
            Some((b_len, b_len))
        } else {
            match a2b[left] {
                Some(x) => Some((x, x)),
                None => None,
            }
        }
    } else {
        match (first_aligned(a2b, left, right), last_aligned(a2b, left, right)) {
            (Some(start), Some(last)) => Some((start, (last + 1) as usize)),
            _ => None,
        }
    }
}

/// The span, where there is one, ends at or before `b_len`.
pub open spec fn within_text(span: Option<(usize, usize)>, b_len: nat) -> bool {
    span is Some ==> span.unwrap().1 <= b_len
}

/// The span, where there is one, does not end before it starts.
pub open spec fn forward(span: Option<(usize, usize)>) -> bool {
    span is Some ==> span.unwrap().0 <= span.unwrap().1
}

/// The span, where there is one, lies between `left` and `right`.
pub open spec fn inside(span: Option<(usize, usize)>, left: int, right: int) -> bool {
    span is Some ==> left <= span.unwrap().0 && span.unwrap().1 <= right
}

/// The span of every token in the original text.
pub open spec fn spans_of(tokens: Seq<Seq<char>>, original: Seq<char>) -> Seq<
    Option<(usize, usize)>,
> {
    let maps = charmap_of(concat(tokens), original);
    Seq::new(
        tokens.len(),
        |i: int|
            resolved(
                maps.0,
                maps.1.len() as usize,
                offset(tokens, i) as int,
                offset(tokens, i + 1) as int,
            ),
    )
}

/// Resolves one token, which occupies `[left, right)` on the side of `a2b`.
pub fn resolve_span(a2b: &[Option<usize>], b_len: usize, left: usize, right: usize) -> (span:
    Option<(usize, usize)>)
    requires
        left <= right <= a2b@.len(),
        maps_into(a2b@, b_len as nat),
    ensures
        span == resolved(a2b@, b_len, left as int, right as int),
        within_text(span, b_len as nat),
        nondecreasing(a2b@) ==> forward(span),
        is_partial_identity(a2b@) && b_len == a2b@.len() ==> inside(
            span,
            left as int,
            right as int,
        ),
        is_identity(a2b@) && b_len == a2b@.len() ==> span == Some((left, right)),
{
    if left == right {
        if left >= a2b.len() {
            return Some((b_len, b_len));
        }
        return match a2b[left] {
            Some(x) => Some((x, x)),
            None => None,
        };
    }
    let mut p = left;
    while p < right && a2b[p].is_none()
        invariant
            left <= p <= right <= a2b@.len(),
            first_aligned(a2b@, left as int, right as int) == first_aligned(
                a2b@,
                p as int,
                right as int,
            ),
            forall|x: int| left <= x < p ==> (#[trigger] a2b@[x]) is None,
        decreases right - p,
    {
        p += 1;
    }
    let origl = if p < right {
        a2b[p]
    } else {
        None
    };
    let mut q = right;
    while q > left && a2b[q - 1].is_none()
        invariant
            left <= q <= right <= a2b@.len(),
            last_aligned(a2b@, left as int, right as int) == last_aligned(
                a2b@,
                left as int,
                q as int,
            ),
            forall|x: int| q <= x < right ==> (#[trigger] a2b@[x]) is None,
        decreases q - left,
    {
        q -= 1;
    }
    let origr = if q > left {
        match a2b[q - 1] {
            Some(j) => Some(j + 1),
            None => None,
        }
    } else {
        None
    };
    match (origl, origr) {
        (Some(l), Some(r)) => Some((l, r)),
        (None, None) => None,
        _ => {
            assert(false);
            unreached()
        },
    }
}

/// Resolves every token: `spans` gives the positions that each token
/// occupies on the side of `a2b`, and `b_len` is the length of the other
/// side.
pub fn resolve_spans(spans: &[(usize, usize)], a2b: &[Option<usize>], b_len: usize) -> (ret: Vec<
    Option<(usize, usize)>,
>)
    requires
        forall|i: int|
            0 <= i < spans@.len() ==> (#[trigger] spans@[i]).0 <= spans@[i].1 <= a2b@.len(),
        maps_into(a2b@, b_len as nat),
    ensures
        ret@.len() == spans@.len(),
        forall|i: int|
            0 <= i < ret@.len() ==> (#[trigger] ret@[i]) == resolved(
                a2b@,
                b_len,
                spans@[i].0 as int,
                spans@[i].1 as int,
            ),
        forall|i: int| 0 <= i < ret@.len() ==> within_text(#[trigger] ret@[i], b_len as nat),
        nondecreasing(a2b@) ==> forall|i: int| 0 <= i < ret@.len() ==> forward(#[trigger] ret@[i]),
        is_partial_identity(a2b@) && b_len == a2b@.len() ==> forall|i: int|
            0 <= i < ret@.len() ==> inside(
                #[trigger] ret@[i],
                spans@[i].0 as int,
                spans@[i].1 as int,
            ),
        is_identity(a2b@) && b_len == a2b@.len() ==> forall|i: int|
            0 <= i < ret@.len() ==> (#[trigger] ret@[i]) == Some(spans@[i]),
{
    let mut ret: Vec<Option<(usize, usize)>> = Vec::new();
    for i in 0..spans.len()
        invariant
            forall|k: int|
                0 <= k < spans@.len() ==> (#[trigger] spans@[k]).0 <= spans@[k].1 <= a2b@.len(),
            maps_into(a2b@, b_len as nat),
            ret@.len() == i,
            forall|k: int|
                0 <= k < i ==> (#[trigger] ret@[k]) == resolved(
                    a2b@,
                    b_len,
                    spans@[k].0 as int,
                    spans@[k].1 as int,
                ),
            forall|k: int| 0 <= k < i ==> within_text(#[trigger] ret@[k], b_len as nat),
            nondecreasing(a2b@) ==> forall|k: int| 0 <= k < i ==> forward(#[trigger] ret@[k]),
            is_partial_identity(a2b@) && b_len == a2b@.len() ==> forall|k: int|
                0 <= k < i ==> inside(
                    #[trigger] ret@[k],
                    spans@[k].0 as int,
                    spans@[k].1 as int,
                ),
            is_identity(a2b@) && b_len == a2b@.len() ==> forall|k: int|
                0 <= k < i ==> (#[trigger] ret@[k]) == Some(spans@[k]),
    {
        let (left, right) = spans[i];
        ret.push(resolve_span(a2b, b_len, left, right));
    }
    ret
}

/// Returns, for each token, the span of the original text that it
/// corresponds to, in characters, or `None` where no character of the token
/// could be aligned with the original text.
pub fn get_original_spans(tokens: &[&str], original_text: &str) -> (ret: Vec<
    Option<(usize, usize)>,
>)
    ensures
        ret@ == spans_of(token_texts(tokens@), original_text@),
        ret@.len() == tokens@.len(),
        forall|i: int|
            0 <= i < ret@.len() ==> forward(#[trigger] ret@[i]) && within_text(
                ret@[i],
                original_text@.len(),
            ),
        original_text@ == concat(token_texts(tokens@)) ==> forall|i: int|
            0 <= i < ret@.len() ==> inside(
                #[trigger] ret@[i],
                offset(token_texts(tokens@), i) as int,
                offset(token_texts(tokens@), i + 1) as int,
            ),
        original_text@ == concat(token_texts(tokens@)) && all_nonempty(
            normal_forms(original_text@),
        ) ==> forall|i: int|
            0 <= i < ret@.len() ==> (#[trigger] ret@[i]) is Some && is_span_of(
                ret@[i].unwrap(),
                token_texts(tokens@),
                i,
            ),
{
    let text = join(tokens);
    let (a2b, b2a) = get_charmap(text.as_str(), original_text);
    assert(a2b@.len() == a2b.len());
    let spans = get_span_indices(tokens);
    proof {
        let texts = token_texts(tokens@);
        assert forall|i: int| 0 <= i < spans@.len() implies (#[trigger] spans@[i]).0 <= spans@[i].1
            <= a2b@.len() by {
            lemma_offset_step(texts, i);
        }
    }
    let ret = resolve_spans(spans.as_slice(), a2b.as_slice(), b2a.len());
    proof {
        let texts = token_texts(tokens@);
        assert forall|i: int| 0 <= i < ret@.len() implies (#[trigger] ret@[i]) == spans_of(
            texts,
            original_text@,
        )[i] by {
            lemma_offset_step(texts, i);
        }
        assert(ret@ =~= spans_of(texts, original_text@));
    }
    ret
}

} // verus!
