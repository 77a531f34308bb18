//! The character-level correspondence between two texts: a shortest edit
//! script, found by the crate `seqdiff` with Myers' algorithm.

use vstd::prelude::*;

verus! {

/// The pair of index maps that `seqdiff::diff` returns for two character
/// sequences: for each position of the first the position it is paired with
/// in the second, if any, and the same for the second.
pub uninterp spec fn shortest_edit_map(a: Seq<char>, b: Seq<char>) -> (
    Seq<Option<usize>>,
    Seq<Option<usize>>,
);

/// Every index that the map holds is below `len`.
pub open spec fn maps_into(map: Seq<Option<usize>>, len: nat) -> bool {
    forall|i: int| 0 <= i < map.len() && (#[trigger] map[i]) is Some ==> map[i].unwrap() < len
}

/// Each map is the inverse of the other: position `i` is paired with `j` on
/// one side exactly when `j` is paired with `i` on the other.
pub open spec fn mirrored(a2b: Seq<Option<usize>>, b2a: Seq<Option<usize>>) -> bool {
    &&& maps_into(a2b, b2a.len())
    &&& maps_into(b2a, a2b.len())
    &&& forall|i: int, j: int|
        0 <= i < a2b.len() && 0 <= j < b2a.len() ==> (((#[trigger] a2b[i]) is Some
            && a2b[i].unwrap() == j) <==> ((#[trigger] b2a[j]) is Some && b2a[j].unwrap() == i))
}

/// A position is only paired with one that holds the same character.
pub open spec fn agreeing(a: Seq<char>, b: Seq<char>, a2b: Seq<Option<usize>>) -> bool {
    forall|i: int|
        0 <= i < a2b.len() && i < a.len() && (#[trigger] a2b[i]) is Some ==> a2b[i].unwrap()
            < b.len() && a[i] == b[a2b[i].unwrap() as int]
}

/// Later positions are paired with later positions.
pub open spec fn increasing(map: Seq<Option<usize>>) -> bool {
    forall|i: int, j: int|
        0 <= i < j < map.len() && (#[trigger] map[i]) is Some && (#[trigger] map[j]) is Some
            ==> map[i].unwrap() < map[j].unwrap()
}

/// Later positions are mapped to no earlier positions.
pub open spec fn nondecreasing(map: Seq<Option<usize>>) -> bool {
    forall|i: int, j: int|
        0 <= i < j < map.len() && (#[trigger] map[i]) is Some && (#[trigger] map[j]) is Some
            ==> map[i].unwrap() <= map[j].unwrap()
}

/// No position is paired with another than itself.
pub open spec fn is_partial_identity(map: Seq<Option<usize>>) -> bool {
    forall|i: int| 0 <= i < map.len() && (#[trigger] map[i]) is Some ==> map[i].unwrap() == i
}

/// Every position is paired with itself.
pub open spec fn is_identity(map: Seq<Option<usize>>) -> bool {
    forall|i: int| 0 <= i < map.len() ==> (#[trigger] map[i]) is Some && map[i].unwrap() == i
}

/// What holds of the edit map of any two texts: it has an entry for each
/// character of either text, each side is the inverse of the other, paired
/// characters are equal, the pairs keep the order of the texts, and two equal
/// texts are paired position by position.
pub open spec fn edit_map_sound(a: Seq<char>, b: Seq<char>) -> bool {
    let maps = shortest_edit_map(a, b);
    &&& maps.0.len() == a.len()
    &&& maps.1.len() == b.len()
    &&& mirrored(maps.0, maps.1)
    &&& agreeing(a, b, maps.0)
    &&& increasing(maps.0)
    &&& a == b ==> is_identity(maps.0) && is_identity(maps.1)
}

/// Calls `seqdiff::diff` on the two character sequences. Its contract is
/// believed, not proved. Beside naming the result it claims what the source of
/// `seqdiff` shows of the path it walks: the first map has an entry for each
/// character of `a` and the second for each of `b`; an entry is set only
/// together with its mirror entry on the other side, and no entry is set
/// twice; an entry is set only for a diagonal step of the path, which the
/// search takes only over two equal characters; the path never turns back
/// on either side, so that the pairs come in the order of both texts; and
/// on two equal sequences
/// the search ends at distance zero on the diagonal, so that every position
/// is paired with itself.
///
/// The search indexes an array of `2 * (a.len() + b.len()) + 1` counters.
/// That number fits in `usize` for any two vectors of `char` that exist,
/// since no allocation exceeds `isize::MAX` bytes. Like everything that
/// allocates, the search needs that much memory to run.
#[verifier::external_body]
pub(crate) fn diff(a: &Vec<char>, b: &Vec<char>) -> (r: (Vec<Option<usize>>, Vec<Option<usize>>))
    ensures
        (r.0@, r.1@) == shortest_edit_map(a@, b@),
        r.0@.len() == a@.len(),
        r.1@.len() == b@.len(),
        mirrored(r.0@, r.1@),
        agreeing(a@, b@, r.0@),
        increasing(r.0@),
        a@ == b@ ==> is_identity(r.0@) && is_identity(r.1@),
{
    seqdiff::diff(a.as_slice(), b.as_slice())
}

} // verus!
