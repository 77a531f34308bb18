//! Character-level alignment of two texts.

use crate::alignment::{
    aligned, aligned_upto, alignments_of, as_strs, ascending, get_alignments, inverse, lists,
    normalized_tokens, ordered, share_char, sharing, within,
};
use crate::edit::{
    edit_map_sound, is_identity, maps_into, mirrored, nondecreasing, shortest_edit_map,
};
use crate::text::{char_to_string, concat, token_texts};
use crate::tokens::{lemma_offset_step, lemma_owner_of, lemma_owners_len, offset, owners};
use vstd::prelude::*;

verus! {

/// For each character of one text, the position of the character of the
/// other text that it corresponds to, if there is one.
pub type CharMap = Vec<Option<usize>>;

/// The text cut into its characters, each a token of its own.
pub open spec fn char_tokens(text: Seq<char>) -> Seq<Seq<char>> {
    Seq::new(text.len(), |i: int| seq![text[i]])
}

/// The normal form of each character of the text.
pub open spec fn normal_forms(text: Seq<char>) -> Seq<Seq<char>> {
    normalized_tokens(char_tokens(text))
}

/// The first token of each list, where the list has one.
pub open spec fn first_targets(lists: Seq<Seq<usize>>) -> Seq<Option<usize>> {
    Seq::new(
        lists.len(),
        |s: int|
            if lists[s].len() > 0 {
                Some(lists[s][0])
            } else {
                None
            },
    )
}

/// The two character maps of two texts: every character is a token, and is
/// mapped to the first token that it is aligned with.
pub open spec fn charmap_of(a: Seq<char>, b: Seq<char>) -> (
    Seq<Option<usize>>,
    Seq<Option<usize>>,
) {
    let both = alignments_of(char_tokens(a), char_tokens(b));
    (first_targets(both.0), first_targets(both.1))
}

/// Every text of the list has at least one character.
pub open spec fn all_nonempty(texts: Seq<Seq<char>>) -> bool {
    forall|i: int| 0 <= i < texts.len() ==> (#[trigger] texts[i]).len() > 0
}

/// Every text of the list has exactly one character.
pub open spec fn all_units(texts: Seq<Seq<char>>) -> bool {
    forall|i: int| 0 <= i < texts.len() ==> (#[trigger] texts[i]).len() == 1
}

/// Every position is mapped to itself, but for those whose form is empty,
/// which are mapped to nothing.
pub open spec fn self_mapped(map: Seq<Option<usize>>, forms: Seq<Seq<char>>) -> bool {
    forall|i: int|
        0 <= i < map.len() && i < forms.len() ==> if forms[i].len() > 0 {
            (#[trigger] map[i]) is Some && map[i].unwrap() == i
        } else {
            map[i] is None
        }
}

/// Where `i` is mapped to `j`, `j` is mapped back to `i` or to a position
/// before it.
pub open spec fn answered(a2b: Seq<Option<usize>>, b2a: Seq<Option<usize>>) -> bool {
    forall|i: int, j: int|
        0 <= i < a2b.len() && 0 <= j < b2a.len() && (#[trigger] a2b[i]) is Some
            && a2b[i].unwrap() == j ==> (#[trigger] b2a[j]) is Some && b2a[j].unwrap() <= i
}

/// A position is only mapped to one whose form has a character in common
/// with its own.
pub open spec fn alike(
    a2b: Seq<Option<usize>>,
    a_forms: Seq<Seq<char>>,
    b_forms: Seq<Seq<char>>,
) -> bool {
    forall|i: int|
        0 <= i < a2b.len() && i < a_forms.len() && (#[trigger] a2b[i]) is Some ==> a2b[i].unwrap()
            < b_forms.len() && share_char(a_forms[i], b_forms[a2b[i].unwrap() as int])
}

/// What the first tokens of two alignments inherit from them: they stay
/// within the other side and in order, and each answers the other.
pub proof fn lemma_first_targets(forth: Seq<Seq<usize>>, back: Seq<Seq<usize>>)
    requires
        forth.len() <= usize::MAX,
        back.len() <= usize::MAX,
        within(forth, back.len()),
        inverse(forth, back),
        ordered(forth),
        ascending(back),
    ensures
        maps_into(first_targets(forth), back.len()),
        nondecreasing(first_targets(forth)),
        answered(first_targets(forth), first_targets(back)),
{
    let a2b = first_targets(forth);
    let b2a = first_targets(back);
    assert forall|i: int, j: int|
        0 <= i < j < a2b.len() && (#[trigger] a2b[i]) is Some && (
        #[trigger] a2b[j]) is Some implies a2b[i].unwrap() <= a2b[j].unwrap() by {
        assert(forth[i][0] <= forth[j][0]);
    }
    assert forall|i: int, j: int|
        0 <= i < a2b.len() && 0 <= j < b2a.len() && (#[trigger] a2b[i]) is Some
            && a2b[i].unwrap() == j implies (#[trigger] b2a[j]) is Some && b2a[j].unwrap()
        <= i by {
        assert(forth[i as usize as int].contains(j as usize));
        let list = back[j];
        assert(list.contains(i as usize));
        let x = choose|x: int| 0 <= x < list.len() && list[x] == i as usize;
        if x > 0 {
            assert(list[0] < list[x]);
        }
    }
}

/// No list names more than one token.
pub open spec fn singular(lists: Seq<Seq<usize>>) -> bool {
    forall|s: int| 0 <= s < lists.len() ==> (#[trigger] lists[s]).len() <= 1
}

/// A list with two tokens leaves the second without a mirror entry: the
/// second token is mapped back to a token whose first token is another.
proof fn lemma_second_unanswered(forth: Seq<Seq<usize>>, back: Seq<Seq<usize>>, s: int)
    requires
        forth.len() <= usize::MAX,
        back.len() <= usize::MAX,
        within(forth, back.len()),
        within(back, forth.len()),
        inverse(forth, back),
        ordered(forth),
        ascending(forth),
        ascending(back),
        0 <= s < forth.len(),
        forth[s].len() >= 2,
    ensures
        !mirrored(first_targets(forth), first_targets(back)),
{
    let a2b = first_targets(forth);
    let b2a = first_targets(back);
    let t = forth[s][0];
    let t2 = forth[s][1];
    assert(t < t2);
    assert(forth[s as usize as int].contains(t2));
    let list = back[t2 as int];
    assert(list.contains(s as usize));
    let x = choose|x: int| 0 <= x < list.len() && list[x] == s as usize;
    if x > 0 {
        assert(list[0] < list[x]);
    }
    let s0 = list[0] as int;
    assert(b2a[t2 as int] is Some && b2a[t2 as int].unwrap() == s0);
    if mirrored(a2b, b2a) {
        assert(a2b[s0] is Some && a2b[s0].unwrap() == t2);
        if s0 < s {
            assert(forth[s0][0] <= forth[s][0]);
        }
    }
}

/// The first tokens of two alignments mirror each other exactly where no
/// token is aligned with more than one token.
pub proof fn lemma_first_targets_mirrored(forth: Seq<Seq<usize>>, back: Seq<Seq<usize>>)
    requires
        forth.len() <= usize::MAX,
        back.len() <= usize::MAX,
        within(forth, back.len()),
        within(back, forth.len()),
        inverse(forth, back),
        ordered(forth),
        ordered(back),
        ascending(forth),
        ascending(back),
    ensures
        mirrored(first_targets(forth), first_targets(back)) <==> singular(forth) && singular(back),
{
    let a2b = first_targets(forth);
    let b2a = first_targets(back);
    if singular(forth) && singular(back) {
        assert forall|i: int, j: int| 0 <= i < a2b.len() && 0 <= j < b2a.len() implies (((
        #[trigger] a2b[i]) is Some && a2b[i].unwrap() == j) <==> ((#[trigger] b2a[j]) is Some
            && b2a[j].unwrap() == i)) by {
            if a2b[i] is Some && a2b[i].unwrap() == j {
                assert(forth[i as usize as int].contains(j as usize));
                let list = back[j as usize as int];
                assert(list.contains(i as usize));
            }
            if b2a[j] is Some && b2a[j].unwrap() == i {
                assert(back[j as usize as int].contains(i as usize));
                let list = forth[i as usize as int];
                assert(list.contains(j as usize));
            }
        }
        assert(mirrored(a2b, b2a));
    } else if !singular(forth) {
        let s = choose|s: int| 0 <= s < forth.len() && (#[trigger] forth[s]).len() > 1;
        lemma_second_unanswered(forth, back, s);
    } else {
        let t = choose|t: int| 0 <= t < back.len() && (#[trigger] back[t]).len() > 1;
        assert(inverse(back, forth));
        lemma_second_unanswered(back, forth, t);
        assert(mirrored(a2b, b2a) ==> mirrored(b2a, a2b));
    }
}

/// The first tokens of an alignment have a character in common with the
/// token that they are listed for.
pub proof fn lemma_first_targets_alike(
    forth: Seq<Seq<usize>>,
    a_forms: Seq<Seq<char>>,
    b_forms: Seq<Seq<char>>,
)
    requires
        forth.len() <= usize::MAX,
        sharing(forth, a_forms, b_forms),
    ensures
        alike(first_targets(forth), a_forms, b_forms),
{
    let a2b = first_targets(forth);
    assert forall|i: int|
        0 <= i < a2b.len() && i < a_forms.len() && (
        #[trigger] a2b[i]) is Some implies a2b[i].unwrap() < b_forms.len() && share_char(
        a_forms[i],
        b_forms[a2b[i].unwrap() as int],
    ) by {
        assert(forth[i as usize as int].contains(forth[i][0]));
    }
}

/// Where every character has a form of one character on both sides, the
/// first tokens of the alignments are the edit map of the joined forms.
pub proof fn lemma_unit_charmap(na: Seq<Seq<char>>, nb: Seq<Seq<char>>)
    requires
        na.len() <= usize::MAX,
        nb.len() <= usize::MAX,
        all_units(na),
        all_units(nb),
        edit_map_sound(concat(na), concat(nb)),
    ensures
        ({
            let maps = shortest_edit_map(concat(na), concat(nb));
            &&& first_targets(aligned(na.len(), maps.0, owners(na), owners(nb))) == maps.0
            &&& first_targets(aligned(nb.len(), maps.1, owners(nb), owners(na))) == maps.1
        }),
{
    let maps = shortest_edit_map(concat(na), concat(nb));
    lemma_unit_owners(na, 0);
    lemma_unit_owners(nb, 0);
    assert forall|p: int| 0 <= p < owners(na).len() implies (#[trigger] owners(na)[p]) == p by {
        lemma_unit_owners(na, p);
    }
    assert forall|q: int| 0 <= q < owners(nb).len() implies (#[trigger] owners(nb)[q]) == q by {
        lemma_unit_owners(nb, q);
    }
    lemma_owners_len(na);
    lemma_owners_len(nb);
    lemma_unit_aligned(maps.0, owners(na), owners(nb), owners(na).len());
    lemma_unit_aligned(maps.1, owners(nb), owners(na), owners(nb).len());
    assert(first_targets(aligned(na.len(), maps.0, owners(na), owners(nb))) =~= maps.0);
    assert(first_targets(aligned(nb.len(), maps.1, owners(nb), owners(na))) =~= maps.1);
}

/// Where every token is one character long, the joined text has one
/// character for each token.
pub proof fn lemma_unit_total(tokens: Seq<Seq<char>>)
    requires
        all_units(tokens),
    ensures
        concat(tokens).len() == tokens.len(),
    decreases tokens.len(),
{
    if tokens.len() > 0 {
        lemma_unit_total(tokens.drop_last());
    }
}

/// Where every token is one character long, each character is its own token.
pub proof fn lemma_unit_owners(tokens: Seq<Seq<char>>, i: int)
    requires
        all_units(tokens),
        0 <= i <= tokens.len() <= usize::MAX,
    ensures
        offset(tokens, i) == i,
        owners(tokens).len() == tokens.len(),
        i < tokens.len() ==> owners(tokens)[i] == i,
    decreases i,
{
    lemma_owners_len(tokens);
    lemma_unit_total(tokens);
    if i > 0 {
        lemma_unit_owners(tokens, i - 1);
        lemma_offset_step(tokens, i - 1);
    } else {
        assert(tokens.take(0) =~= Seq::<Seq<char>>::empty());
    }
    if i < tokens.len() {
        lemma_owner_of(tokens, i, 0);
    }
}

/// Where each character is its own token on both sides, the alignment of a
/// token is its partner in the character map, or nothing.
pub proof fn lemma_unit_aligned(
    a2b: Seq<Option<usize>>,
    ac2t: Seq<usize>,
    bc2t: Seq<usize>,
    k: nat,
)
    requires
        a2b.len() == ac2t.len(),
        k <= ac2t.len() <= usize::MAX,
        maps_into(a2b, bc2t.len()),
        forall|p: int| 0 <= p < ac2t.len() ==> (#[trigger] ac2t[p]) == p,
        forall|q: int| 0 <= q < bc2t.len() ==> (#[trigger] bc2t[q]) == q,
    ensures
        aligned_upto(ac2t.len(), a2b, ac2t, bc2t, k).len() == ac2t.len(),
        forall|s: int|
            0 <= s < ac2t.len() ==> (#[trigger] aligned_upto(ac2t.len(), a2b, ac2t, bc2t, k)[s])
                == (if s < k && a2b[s] is Some {
                seq![a2b[s].unwrap()]
            } else {
                Seq::<usize>::empty()
            }),
    decreases k,
{
    if k > 0 {
        let n = ac2t.len();
        let before = aligned_upto(n, a2b, ac2t, bc2t, (k - 1) as nat);
        let after = aligned_upto(n, a2b, ac2t, bc2t, k);
        lemma_unit_aligned(a2b, ac2t, bc2t, (k - 1) as nat);
        assert(ac2t[k - 1] == k - 1);
        assert forall|s: int| 0 <= s < n implies (#[trigger] after[s]) == (if s < k
            && a2b[s] is Some {
            seq![a2b[s].unwrap()]
        } else {
            Seq::<usize>::empty()
        }) by {
            if s == k - 1 && a2b[s] is Some {
                let q = a2b[s].unwrap();
                assert(bc2t[q as int] == q);
                assert(before[s].len() == 0);
                assert(after[s] =~= seq![q]);
            } else {
                assert(after[s] == before[s]);
            }
        }
    }
}

/// Reduces each list of an alignment to its first token.
pub fn first_of_each(alignment: &Vec<Vec<usize>>) -> (map: CharMap)
    ensures
        map@ == first_targets(lists(alignment@)),
{
    let mut map: Vec<Option<usize>> = Vec::new();
    for s in 0..alignment.len()
        invariant
            map@.len() == s,
            forall|x: int|
                0 <= x < s ==> (#[trigger] map@[x]) == first_targets(lists(alignment@))[x],
    {
        if alignment[s].len() > 0 {
            map.push(Some(alignment[s][0]));
        } else {
            map.push(None);
        }
    }
    assert(map@ =~= first_targets(lists(alignment@)));
    map
}

/// Each character of the text as a text of its own.
pub fn char_strings(text: &str) -> (ret: Vec<String>)
    ensures
        ret@.len() == text@.len(),
        forall|i: int| 0 <= i < ret@.len() ==> (#[trigger] ret@[i])@ == seq![text@[i]],
{
    let mut ret: Vec<String> = Vec::new();
    for c in it: text.chars()
        invariant
            it.seq() == text@,
            ret@.len() == it.index(),
            forall|i: int| 0 <= i < ret@.len() ==> (#[trigger] ret@[i])@ == seq![text@[i]],
    {
        ret.push(char_to_string(c));
    }
    ret
}

/// Returns the character map from `a` to `b` and the one from `b` to `a`.
/// The texts are compared after normalization, character by character, so
/// that `bar` and `bår` correspond position by position.
pub fn get_charmap(a: &str, b: &str) -> (r: (CharMap, CharMap))
    ensures
        (r.0@, r.1@) == charmap_of(a@, b@),
        r.0@.len() == a@.len(),
        r.1@.len() == b@.len(),
        maps_into(r.0@, b@.len()),
        maps_into(r.1@, a@.len()),
        mirrored(r.0@, r.1@) <==> singular(alignments_of(char_tokens(a@), char_tokens(b@)).0)
            && singular(alignments_of(char_tokens(a@), char_tokens(b@)).1),
        all_units(normal_forms(a@)) && all_units(normal_forms(b@)) ==> mirrored(r.0@, r.1@) && (
            r.0@,
            r.1@,
        ) == shortest_edit_map(concat(normal_forms(a@)), concat(normal_forms(b@))),
        a@ == b@ ==> self_mapped(r.0@, normal_forms(a@)) && self_mapped(r.1@, normal_forms(a@)),
        a@ == b@ && all_nonempty(normal_forms(a@)) ==> is_identity(r.0@) && is_identity(r.1@),
        alike(r.0@, normal_forms(a@), normal_forms(b@)),
        alike(r.1@, normal_forms(b@), normal_forms(a@)),
        nondecreasing(r.0@),
        nondecreasing(r.1@),
        answered(r.0@, r.1@),
        answered(r.1@, r.0@),
{
    let a_chars = char_strings(a);
    let b_chars = char_strings(b);
    let at = as_strs(&a_chars);
    let bt = as_strs(&b_chars);
    assert(token_texts(at@) =~= char_tokens(a@));
    assert(token_texts(bt@) =~= char_tokens(b@));
    let (a2b, b2a) = get_alignments(at.as_slice(), bt.as_slice());
    let c_a2b = first_of_each(&a2b);
    let c_b2a = first_of_each(&b2a);
    proof {
        assert(at@.len() == at.len() && bt@.len() == bt.len());
        let na = normal_forms(a@);
        let nb = normal_forms(b@);
        lemma_first_targets(lists(a2b@), lists(b2a@));
        lemma_first_targets(lists(b2a@), lists(a2b@));
        lemma_first_targets_mirrored(lists(a2b@), lists(b2a@));
        lemma_first_targets_alike(lists(a2b@), na, nb);
        lemma_first_targets_alike(lists(b2a@), nb, na);
        if all_units(na) && all_units(nb) {
            lemma_unit_charmap(na, nb);
        }
        if a@ == b@ {
            assert(char_tokens(a@) == char_tokens(b@));
            assert(self_mapped(c_a2b@, na));
            assert(self_mapped(c_b2a@, na));
        }
    }
    (c_a2b, c_b2a)
}

} // verus!
