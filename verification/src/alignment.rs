//! Token-level alignment: the character correspondence projected through the
//! token boundaries of both sides.

use crate::edit::{
    agreeing, diff, edit_map_sound, increasing, is_identity, mirrored, shortest_edit_map,
};
use crate::text::{chars_of, concat, join, normalize, normalized, token_texts};
use crate::tokens::{
    get_char2token, lemma_owned_char, lemma_owner_of, lemma_owners_len, offset, owners, rising,
};
use vstd::prelude::*;

verus! {

/// For each token of one side, the tokens of the other side that it shares
/// an aligned character with, in the order in which they are met.
pub type Alignment = Vec<Vec<usize>>;

/// The lists that an alignment holds.
pub open spec fn lists(alignment: Seq<Vec<usize>>) -> Seq<Seq<usize>> {
    Seq::new(alignment.len(), |s: int| alignment[s]@)
}

/// The number of character positions that both the character map and the
/// owner map of the source side cover.
pub open spec fn scanned(a2b: Seq<Option<usize>>, ac2t: Seq<usize>) -> nat {
    if a2b.len() <= ac2t.len() {
        a2b.len()
    } else {
        ac2t.len()
    }
}

/// The alignment after the first `k` characters of the source side: each
/// aligned character appends the token of its partner to the list of its own
/// token, unless that token is already the last of the list.
pub open spec fn aligned_upto(
    num_tokens: nat,
    a2b: Seq<Option<usize>>,
    ac2t: Seq<usize>,
    bc2t: Seq<usize>,
    k: nat,
) -> Seq<Seq<usize>>
    decreases k,
{
    if k == 0 {
        Seq::new(num_tokens, |s: int| Seq::<usize>::empty())
    } else {
        let before = aligned_upto(num_tokens, a2b, ac2t, bc2t, (k - 1) as nat);
        match a2b[k - 1] {
            Some(q) => {
                let s = ac2t[k - 1] as int;
                let t = bc2t[q as int];
                if before[s].len() > 0 && before[s].last() == t {
                    before
                } else {
                    before.update(s, before[s].push(t))
                }
            },
            None => before,
        }
    }
}

/// The alignment from the source side to the target side.
pub open spec fn aligned(
    num_tokens: nat,
    a2b: Seq<Option<usize>>,
    ac2t: Seq<usize>,
    bc2t: Seq<usize>,
) -> Seq<Seq<usize>> {
    aligned_upto(num_tokens, a2b, ac2t, bc2t, scanned(a2b, ac2t))
}

/// No list names the same token twice in a row.
pub open spec fn collapsed(lists: Seq<Seq<usize>>) -> bool {
    forall|s: int, x: int|
        0 <= s < lists.len() && 0 <= x && x + 1 < lists[s].len() ==> #[trigger] lists[s][x]
            != lists[s][x + 1]
}

/// The owners used within the scanned positions are tokens of the source
/// side, and the partners are positions of the target side.
pub open spec fn projectable(
    num_tokens: nat,
    a2b: Seq<Option<usize>>,
    ac2t: Seq<usize>,
    bc2t: Seq<usize>,
) -> bool {
    forall|p: int|
        0 <= p < scanned(a2b, ac2t) ==> (#[trigger] ac2t[p]) < num_tokens && (a2b[p] is Some
            ==> a2b[p].unwrap() < bc2t.len())
}

/// The alignment has one list per source token at every step, and no list
/// names the same token twice in a row.
pub proof fn lemma_aligned_shape(
    num_tokens: nat,
    a2b: Seq<Option<usize>>,
    ac2t: Seq<usize>,
    bc2t: Seq<usize>,
    k: nat,
)
    requires
        projectable(num_tokens, a2b, ac2t, bc2t),
        k <= scanned(a2b, ac2t),
    ensures
        aligned_upto(num_tokens, a2b, ac2t, bc2t, k).len() == num_tokens,
        collapsed(aligned_upto(num_tokens, a2b, ac2t, bc2t, k)),
    decreases k,
{
    if k > 0 {
        lemma_aligned_shape(num_tokens, a2b, ac2t, bc2t, (k - 1) as nat);
        assert(ac2t[k - 1] < num_tokens);
    }
}

/// Projects the character map `a2b` onto tokens: `ac2t` and `bc2t` give the
/// token of each character on the source and on the target side.
pub fn get_alignment(
    num_tokens: usize,
    a2b: &[Option<usize>],
    ac2t: &[usize],
    bc2t: &[usize],
) -> (at2bt: Vec<Vec<usize>>)
    requires
        projectable(num_tokens as nat, a2b@, ac2t@, bc2t@),
    ensures
        lists(at2bt@) == aligned(num_tokens as nat, a2b@, ac2t@, bc2t@),
        at2bt@.len() == num_tokens,
        collapsed(lists(at2bt@)),
{
    let mut at2bt: Vec<Vec<usize>> = Vec::new();
    for s in 0..num_tokens
        invariant
            at2bt@.len() == s,
            forall|x: int| 0 <= x < s ==> (#[trigger] at2bt@[x])@.len() == 0,
    {
        at2bt.push(Vec::new());
    }
    assert(lists(at2bt@) =~~= aligned_upto(num_tokens as nat, a2b@, ac2t@, bc2t@, 0));
    let n = if a2b.len() <= ac2t.len() {
        a2b.len()
    } else {
        ac2t.len()
    };
    for p in 0..n
        invariant
            n == scanned(a2b@, ac2t@),
            projectable(num_tokens as nat, a2b@, ac2t@, bc2t@),
            at2bt@.len() == num_tokens,
            lists(at2bt@) == aligned_upto(num_tokens as nat, a2b@, ac2t@, bc2t@, p as nat),
    {
        let ghost before = lists(at2bt@);
        if let Some(q) = a2b[p] {
            let s = ac2t[p];
            let t = bc2t[q];
            assert(before[s as int] == at2bt@[s as int]@);
            let len = at2bt[s].len();
            if len == 0 || at2bt[s][len - 1] != t {
                at2bt[s].push(t);
                assert(lists(at2bt@) =~= before.update(s as int, before[s as int].push(t)));
            }
        }
    }
    proof {
        lemma_aligned_shape(num_tokens as nat, a2b@, ac2t@, bc2t@, n as nat);
    }
    at2bt
}

/// Every token that the lists name is below `bound`.
pub open spec fn within(lists: Seq<Seq<usize>>, bound: nat) -> bool {
    forall|s: int, x: int|
        0 <= s < lists.len() && 0 <= x < lists[s].len() ==> (#[trigger] lists[s][x]) < bound
}

/// Every token that an alignment names is an owner on the target side.
pub proof fn lemma_aligned_within(
    num_tokens: nat,
    a2b: Seq<Option<usize>>,
    ac2t: Seq<usize>,
    bc2t: Seq<usize>,
    k: nat,
    bound: nat,
)
    requires
        projectable(num_tokens, a2b, ac2t, bc2t),
        k <= scanned(a2b, ac2t),
        forall|q: int| 0 <= q < bc2t.len() ==> (#[trigger] bc2t[q]) < bound,
    ensures
        within(aligned_upto(num_tokens, a2b, ac2t, bc2t, k), bound),
    decreases k,
{
    if k > 0 {
        lemma_aligned_within(num_tokens, a2b, ac2t, bc2t, (k - 1) as nat, bound);
        lemma_aligned_shape(num_tokens, a2b, ac2t, bc2t, (k - 1) as nat);
        assert(ac2t[k - 1] < num_tokens);
    }
}

/// Character `p` of the source side belongs to token `s` and is paired with
/// a character of token `t` of the target side.
pub open spec fn links(
    a2b: Seq<Option<usize>>,
    ac2t: Seq<usize>,
    bc2t: Seq<usize>,
    p: int,
    s: usize,
    t: usize,
) -> bool {
    ac2t[p] == s && a2b[p] is Some && bc2t[a2b[p].unwrap() as int] == t
}

/// One of the first `k` characters of the source side links `s` with `t`.
pub open spec fn linked(
    a2b: Seq<Option<usize>>,
    ac2t: Seq<usize>,
    bc2t: Seq<usize>,
    k: nat,
    s: usize,
    t: usize,
) -> bool {
    exists|p: int| 0 <= p < k && #[trigger] links(a2b, ac2t, bc2t, p, s, t)
}

/// The list of a token names exactly the tokens that one of its characters
/// is paired with.
pub proof fn lemma_aligned_members(
    num_tokens: nat,
    a2b: Seq<Option<usize>>,
    ac2t: Seq<usize>,
    bc2t: Seq<usize>,
    k: nat,
    s: usize,
    t: usize,
)
    requires
        projectable(num_tokens, a2b, ac2t, bc2t),
        k <= scanned(a2b, ac2t),
        s < num_tokens,
    ensures
        aligned_upto(num_tokens, a2b, ac2t, bc2t, k)[s as int].contains(t) <==> linked(
            a2b,
            ac2t,
            bc2t,
            k,
            s,
            t,
        ),
    decreases k,
{
    let after = aligned_upto(num_tokens, a2b, ac2t, bc2t, k);
    if k == 0 {
        assert(!after[s as int].contains(t));
    } else {
        let before = aligned_upto(num_tokens, a2b, ac2t, bc2t, (k - 1) as nat);
        lemma_aligned_members(num_tokens, a2b, ac2t, bc2t, (k - 1) as nat, s, t);
        lemma_aligned_shape(num_tokens, a2b, ac2t, bc2t, (k - 1) as nat);
        let s0 = ac2t[k - 1];
        assert(s0 < num_tokens);
        let here = links(a2b, ac2t, bc2t, k - 1, s, t);
        let old_list = before[s as int];
        let new_list = after[s as int];
        // the list keeps what it held
        if old_list.contains(t) {
            let x = choose|x: int| 0 <= x < old_list.len() && old_list[x] == t;
            assert(new_list[x] == t);
            assert(new_list.contains(t));
        }
        // the character at `k - 1` adds its partner's token, unless it is the last already
        if here {
            if old_list.len() > 0 && old_list.last() == t {
                assert(new_list[old_list.len() - 1] == t);
            } else {
                assert(new_list[old_list.len() as int] == t);
            }
            assert(new_list.contains(t));
        }
        // nothing else is added
        if new_list.contains(t) && !old_list.contains(t) {
            let x = choose|x: int| 0 <= x < new_list.len() && new_list[x] == t;
            if x < old_list.len() {
                assert(old_list[x] == t);
            }
            assert(here);
        }
        if linked(a2b, ac2t, bc2t, k, s, t) {
            let p = choose|p: int| 0 <= p < k && #[trigger] links(a2b, ac2t, bc2t, p, s, t);
            if p < k - 1 {
                assert(linked(a2b, ac2t, bc2t, (k - 1) as nat, s, t));
            }
        }
        if linked(a2b, ac2t, bc2t, (k - 1) as nat, s, t) {
            let p = choose|p: int|
                0 <= p < k - 1 && #[trigger] links(a2b, ac2t, bc2t, p, s, t);
            assert(links(a2b, ac2t, bc2t, p, s, t));
        }
        if here {
            assert(links(a2b, ac2t, bc2t, k - 1, s, t));
        }
    }
}

/// Each alignment is the inverse of the other: a list of the first names
/// `t` for token `s` exactly when a list of the second names `s` for `t`.
pub open spec fn inverse(a2b: Seq<Seq<usize>>, b2a: Seq<Seq<usize>>) -> bool {
    forall|s: usize, t: usize|
        s < a2b.len() && t < b2a.len() ==> (#[trigger] a2b[s as int].contains(t)
            <==> #[trigger] b2a[t as int].contains(s))
}

/// Projecting a character map and its inverse gives two alignments that are
/// inverse to each other.
pub proof fn lemma_aligned_inverse(
    n: nat,
    m: nat,
    a2b: Seq<Option<usize>>,
    b2a: Seq<Option<usize>>,
    ac2t: Seq<usize>,
    bc2t: Seq<usize>,
)
    requires
        mirrored(a2b, b2a),
        a2b.len() == ac2t.len() <= usize::MAX,
        b2a.len() == bc2t.len() <= usize::MAX,
        forall|p: int| 0 <= p < ac2t.len() ==> (#[trigger] ac2t[p]) < n,
        forall|q: int| 0 <= q < bc2t.len() ==> (#[trigger] bc2t[q]) < m,
    ensures
        inverse(aligned(n, a2b, ac2t, bc2t), aligned(m, b2a, bc2t, ac2t)),
{
    let forth = aligned(n, a2b, ac2t, bc2t);
    let back = aligned(m, b2a, bc2t, ac2t);
    lemma_aligned_shape(n, a2b, ac2t, bc2t, a2b.len());
    lemma_aligned_shape(m, b2a, bc2t, ac2t, b2a.len());
    assert forall|s: usize, t: usize| s < forth.len() && t < back.len() implies (
    #[trigger] forth[s as int].contains(t) <==> #[trigger] back[t as int].contains(s)) by {
        lemma_aligned_members(n, a2b, ac2t, bc2t, a2b.len(), s, t);
        lemma_aligned_members(m, b2a, bc2t, ac2t, b2a.len(), t, s);
        if linked(a2b, ac2t, bc2t, a2b.len(), s, t) {
            let p = choose|p: int|
                0 <= p < a2b.len() && #[trigger] links(a2b, ac2t, bc2t, p, s, t);
            let q = a2b[p].unwrap() as int;
            assert(b2a[q] == Some(p as usize));
            assert(links(b2a, bc2t, ac2t, q, t, s));
        }
        if linked(b2a, bc2t, ac2t, b2a.len(), t, s) {
            let q = choose|q: int|
                0 <= q < b2a.len() && #[trigger] links(b2a, bc2t, ac2t, q, t, s);
            let p = b2a[q].unwrap() as int;
            assert(a2b[p] == Some(q as usize));
            assert(links(a2b, ac2t, bc2t, p, s, t));
        }
    }
}

/// Every list names its tokens in strictly ascending order.
pub open spec fn ascending(lists: Seq<Seq<usize>>) -> bool {
    forall|s: int, x: int, y: int|
        0 <= s < lists.len() && 0 <= x < y < lists[s].len() ==> #[trigger] lists[s][x]
            < #[trigger] lists[s][y]
}

/// The lists of later tokens name no earlier tokens than those of earlier
/// tokens.
pub open spec fn ordered(lists: Seq<Seq<usize>>) -> bool {
    forall|s1: int, s2: int, x: int, y: int|
        0 <= s1 < s2 < lists.len() && 0 <= x < lists[s1].len() && 0 <= y < lists[s2].len()
            ==> #[trigger] lists[s1][x] <= #[trigger] lists[s2][y]
}

/// Two links keep the order of both sides: the earlier character is linked
/// with the earlier token.
pub proof fn lemma_links_ordered(
    a2b: Seq<Option<usize>>,
    ac2t: Seq<usize>,
    bc2t: Seq<usize>,
    lo: int,
    hi: int,
    s1: usize,
    s2: usize,
    t1: usize,
    t2: usize,
)
    requires
        increasing(a2b),
        rising(bc2t),
        0 <= lo < hi < a2b.len(),
        a2b[hi].unwrap() < bc2t.len(),
        links(a2b, ac2t, bc2t, lo, s1, t1),
        links(a2b, ac2t, bc2t, hi, s2, t2),
    ensures
        t1 <= t2,
{
    let q1 = a2b[lo].unwrap();
    let q2 = a2b[hi].unwrap();
    assert(q1 < q2);
    assert(bc2t[q1 as int] <= bc2t[q2 as int]);
}

/// Where the character map keeps the order of the texts, every list is in
/// strictly ascending order.
pub proof fn lemma_aligned_ascending(
    num_tokens: nat,
    a2b: Seq<Option<usize>>,
    ac2t: Seq<usize>,
    bc2t: Seq<usize>,
    k: nat,
)
    requires
        projectable(num_tokens, a2b, ac2t, bc2t),
        k <= scanned(a2b, ac2t),
        increasing(a2b),
        rising(bc2t),
    ensures
        ascending(aligned_upto(num_tokens, a2b, ac2t, bc2t, k)),
    decreases k,
{
    if k > 0 {
        let before = aligned_upto(num_tokens, a2b, ac2t, bc2t, (k - 1) as nat);
        let after = aligned_upto(num_tokens, a2b, ac2t, bc2t, k);
        lemma_aligned_ascending(num_tokens, a2b, ac2t, bc2t, (k - 1) as nat);
        lemma_aligned_shape(num_tokens, a2b, ac2t, bc2t, (k - 1) as nat);
        let s0 = ac2t[k - 1];
        assert(s0 < num_tokens);
        if a2b[k - 1] is Some {
            let t = bc2t[a2b[k - 1].unwrap() as int];
            let list = before[s0 as int];
            if list.len() > 0 && list.last() != t {
                let last = list.last();
                assert(list.contains(last));
                lemma_aligned_members(num_tokens, a2b, ac2t, bc2t, (k - 1) as nat, s0, last);
                let p = choose|p: int|
                    0 <= p < k - 1 && #[trigger] links(a2b, ac2t, bc2t, p, s0, last);
                assert(links(a2b, ac2t, bc2t, k - 1, s0, t));
                lemma_links_ordered(a2b, ac2t, bc2t, p, k - 1, s0, s0, last, t);
                assert forall|x: int| 0 <= x < list.len() implies (#[trigger] list[x]) < t by {
                    if x < list.len() - 1 {
                        assert(list[x] < list[list.len() - 1]);
                    }
                }
            }
        }
        assert forall|s: int, x: int, y: int|
            0 <= s < after.len() && 0 <= x < y < after[s].len() implies #[trigger] after[s][x]
            < #[trigger] after[s][y] by {
            if y < before[s].len() {
                assert(before[s][x] < before[s][y]);
            }
        }
    }
}

/// Where the character map keeps the order of the texts, the alignment
/// keeps the order of the tokens.
pub proof fn lemma_aligned_ordered(
    num_tokens: nat,
    a2b: Seq<Option<usize>>,
    ac2t: Seq<usize>,
    bc2t: Seq<usize>,
)
    requires
        projectable(num_tokens, a2b, ac2t, bc2t),
        num_tokens <= usize::MAX,
        increasing(a2b),
        rising(ac2t),
        rising(bc2t),
    ensures
        ordered(aligned(num_tokens, a2b, ac2t, bc2t)),
{
    let k = scanned(a2b, ac2t);
    let all = aligned(num_tokens, a2b, ac2t, bc2t);
    lemma_aligned_shape(num_tokens, a2b, ac2t, bc2t, k);
    assert forall|s1: int, s2: int, x: int, y: int|
        0 <= s1 < s2 < all.len() && 0 <= x < all[s1].len() && 0 <= y
            < all[s2].len() implies #[trigger] all[s1][x] <= #[trigger] all[s2][y] by {
        let t1 = all[s1][x];
        let t2 = all[s2][y];
        assert(all[s1 as usize as int].contains(t1));
        assert(all[s2 as usize as int].contains(t2));
        lemma_aligned_members(num_tokens, a2b, ac2t, bc2t, k, s1 as usize, t1);
        lemma_aligned_members(num_tokens, a2b, ac2t, bc2t, k, s2 as usize, t2);
        let lo = choose|p: int|
            0 <= p < k && #[trigger] links(a2b, ac2t, bc2t, p, s1 as usize, t1);
        let hi = choose|p: int|
            0 <= p < k && #[trigger] links(a2b, ac2t, bc2t, p, s2 as usize, t2);
        if hi <= lo {
            assert(ac2t[hi] <= ac2t[lo]);
        }
        assert(ac2t[hi] < num_tokens);
        lemma_links_ordered(a2b, ac2t, bc2t, lo, hi, s1 as usize, s2 as usize, t1, t2);
    }
}

/// Token `s` owns one of the first `k` characters.
pub open spec fn owns_before(own: Seq<usize>, k: nat, s: int) -> bool
    decreases k,
{
    k > 0 && (own[k - 1] == s || owns_before(own, (k - 1) as nat, s))
}

/// A token that owns a character owns one before every later position.
pub proof fn lemma_owns_before(own: Seq<usize>, k: nat, s: int, p: int)
    requires
        0 <= p < k <= own.len(),
        own[p] == s,
    ensures
        owns_before(own, k, s),
    decreases k,
{
    if p < k - 1 {
        lemma_owns_before(own, (k - 1) as nat, s, p);
    }
}

/// Where every character is paired with itself and both sides have the same
/// tokens, a token is aligned with itself as soon as one of its characters
/// has been met, and with nothing before that.
pub proof fn lemma_self_aligned(num_tokens: nat, a2b: Seq<Option<usize>>, own: Seq<usize>, k: nat)
    requires
        is_identity(a2b),
        a2b.len() == own.len(),
        k <= own.len() <= usize::MAX,
        forall|p: int| 0 <= p < own.len() ==> (#[trigger] own[p]) < num_tokens,
    ensures
        aligned_upto(num_tokens, a2b, own, own, k).len() == num_tokens,
        forall|s: int|
            0 <= s < num_tokens ==> (#[trigger] aligned_upto(num_tokens, a2b, own, own, k)[s]) == (
            if owns_before(own, k, s) {
                seq![s as usize]
            } else {
                Seq::<usize>::empty()
            }),
    decreases k,
{
    if k > 0 {
        let before = aligned_upto(num_tokens, a2b, own, own, (k - 1) as nat);
        let after = aligned_upto(num_tokens, a2b, own, own, k);
        lemma_self_aligned(num_tokens, a2b, own, (k - 1) as nat);
        let s0 = own[k - 1] as int;
        assert(a2b[k - 1] == Some((k - 1) as usize));
        assert(s0 < num_tokens);
        assert forall|s: int| 0 <= s < num_tokens implies (#[trigger] after[s]) == (if owns_before(
            own,
            k,
            s,
        ) {
            seq![s as usize]
        } else {
            Seq::<usize>::empty()
        }) by {
            if s == s0 {
                assert(before[s] == seq![s as usize] || before[s] == Seq::<usize>::empty());
                assert(own[((k - 1) as usize) as int] == s as usize);
                assert(seq![s as usize].last() == s as usize);
                assert(after[s] =~= seq![s as usize]);
            } else {
                assert(after[s] == before[s]);
            }
        }
    }
}

/// The two texts have a character in common.
pub open spec fn share_char(u: Seq<char>, v: Seq<char>) -> bool {
    exists|x: int, y: int|
        0 <= x < u.len() && 0 <= y < v.len() && #[trigger] u[x] == #[trigger] v[y]
}

/// Every token that a list names has a character in common with the token
/// of the list.
pub open spec fn sharing(lists: Seq<Seq<usize>>, a: Seq<Seq<char>>, b: Seq<Seq<char>>) -> bool {
    forall|s: usize, t: usize|
        s < lists.len() && s < a.len() && #[trigger] lists[s as int].contains(t) ==> t < b.len()
            && share_char(a[s as int], b[t as int])
}

/// Tokens are aligned only where they have a character in common, if the
/// character map pairs equal characters only.
pub proof fn lemma_aligned_sharing(a: Seq<Seq<char>>, b: Seq<Seq<char>>, a2b: Seq<Option<usize>>)
    requires
        a.len() <= usize::MAX,
        b.len() <= usize::MAX,
        a2b.len() == concat(a).len(),
        agreeing(concat(a), concat(b), a2b),
    ensures
        sharing(aligned(a.len(), a2b, owners(a), owners(b)), a, b),
{
    let ac2t = owners(a);
    let bc2t = owners(b);
    let forth = aligned(a.len(), a2b, ac2t, bc2t);
    lemma_owners_len(a);
    lemma_owners_len(b);
    assert forall|p: int| 0 <= p < scanned(a2b, ac2t) implies (#[trigger] ac2t[p]) < a.len() && (
    a2b[p] is Some ==> a2b[p].unwrap() < bc2t.len()) by {
        lemma_owned_char(a, p);
    }
    lemma_aligned_shape(a.len(), a2b, ac2t, bc2t, a2b.len());
    assert forall|s: usize, t: usize|
        s < forth.len() && s < a.len() && #[trigger] forth[s as int].contains(t) implies t
        < b.len() && share_char(a[s as int], b[t as int]) by {
        lemma_aligned_members(a.len(), a2b, ac2t, bc2t, a2b.len(), s, t);
        let p = choose|p: int| 0 <= p < a2b.len() && #[trigger] links(a2b, ac2t, bc2t, p, s, t);
        let q = a2b[p].unwrap() as int;
        lemma_owned_char(a, p);
        lemma_owned_char(b, q);
        let x = p - offset(a, s as int);
        let y = q - offset(b, t as int);
        assert(a[s as int][x] == b[t as int][y]);
    }
}

/// The texts of the tokens after normalization.
pub open spec fn normalized_tokens(tokens: Seq<Seq<char>>) -> Seq<Seq<char>> {
    Seq::new(tokens.len(), |i: int| normalized(tokens[i]))
}

/// The two token alignments of two tokenizations: the shortest edit map
/// between their normalized, joined texts, projected onto the tokens in
/// either direction.
pub open spec fn alignments_of(a: Seq<Seq<char>>, b: Seq<Seq<char>>) -> (
    Seq<Seq<usize>>,
    Seq<Seq<usize>>,
) {
    let na = normalized_tokens(a);
    let nb = normalized_tokens(b);
    let maps = shortest_edit_map(concat(na), concat(nb));
    (
        aligned(na.len(), maps.0, owners(na), owners(nb)),
        aligned(nb.len(), maps.1, owners(nb), owners(na)),
    )
}

/// Each list names its own token and nothing else, but for the tokens
/// without characters, whose lists are empty.
pub open spec fn self_paired(lists: Seq<Seq<usize>>, texts: Seq<Seq<char>>) -> bool {
    forall|s: int|
        0 <= s < lists.len() && s < texts.len() ==> if texts[s].len() > 0 {
            (#[trigger] lists[s]).len() == 1 && lists[s][0] == s
        } else {
            lists[s].len() == 0
        }
}

/// A token without characters is aligned with nothing.
pub proof fn lemma_sharing_hollow(lists: Seq<Seq<usize>>, a: Seq<Seq<char>>, b: Seq<Seq<char>>)
    requires
        sharing(lists, a, b),
        lists.len() == a.len() <= usize::MAX,
    ensures
        forall|s: int| 0 <= s < a.len() && a[s].len() == 0 ==> (#[trigger] lists[s]).len() == 0,
{
    assert forall|s: int| 0 <= s < a.len() && a[s].len() == 0 implies (#[trigger] lists[s]).len()
        == 0 by {
        if lists[s].len() > 0 {
            assert(lists[s as usize as int].contains(lists[s][0]));
        }
    }
}

fn normalize_all(tokens: &[&str]) -> (ret: Vec<String>)
    ensures
        ret@.len() == tokens@.len(),
        forall|i: int| 0 <= i < ret@.len() ==> (#[trigger] ret@[i])@ == normalized(tokens@[i]@),
{
    let mut ret: Vec<String> = Vec::new();
    for i in 0..tokens.len()
        invariant
            ret@.len() == i,
            forall|k: int| 0 <= k < i ==> (#[trigger] ret@[k])@ == normalized(tokens@[k]@),
    {
        ret.push(normalize(tokens[i]));
    }
    ret
}

/// Borrows each text of the list.
pub fn as_strs<'a>(texts: &'a Vec<String>) -> (ret: Vec<&'a str>)
    ensures
        ret@.len() == texts@.len(),
        forall|i: int| 0 <= i < ret@.len() ==> (#[trigger] ret@[i])@ == texts@[i]@,
{
    let mut ret: Vec<&'a str> = Vec::new();
    for i in 0..texts.len()
        invariant
            ret@.len() == i,
            forall|k: int| 0 <= k < i ==> (#[trigger] ret@[k])@ == texts@[k]@,
    {
        ret.push(texts[i].as_str());
    }
    ret
}

/// Returns the alignment from the tokens of `a` to those of `b`, and the one
/// from `b` to `a`. Both sides are normalized first, so that the tokens may
/// differ in case, accents and compatibility forms.
pub fn get_alignments(a: &[&str], b: &[&str]) -> (r: (Alignment, Alignment))
    ensures
        (lists(r.0@), lists(r.1@)) == alignments_of(token_texts(a@), token_texts(b@)),
        r.0@.len() == a@.len(),
        r.1@.len() == b@.len(),
        collapsed(lists(r.0@)),
        collapsed(lists(r.1@)),
        within(lists(r.0@), b@.len() as nat),
        within(lists(r.1@), a@.len() as nat),
        inverse(lists(r.0@), lists(r.1@)),
        ascending(lists(r.0@)),
        ascending(lists(r.1@)),
        ordered(lists(r.0@)),
        ordered(lists(r.1@)),
        sharing(
            lists(r.0@),
            normalized_tokens(token_texts(a@)),
            normalized_tokens(token_texts(b@)),
        ),
        sharing(
            lists(r.1@),
            normalized_tokens(token_texts(b@)),
            normalized_tokens(token_texts(a@)),
        ),
        edit_map_sound(
            concat(normalized_tokens(token_texts(a@))),
            concat(normalized_tokens(token_texts(b@))),
        ),
        token_texts(a@) == token_texts(b@) ==> self_paired(
            lists(r.0@),
            normalized_tokens(token_texts(a@)),
        ) && self_paired(lists(r.1@), normalized_tokens(token_texts(a@))),
{
    let na = normalize_all(a);
    let nb = normalize_all(b);
    let ra = as_strs(&na);
    let rb = as_strs(&nb);
    let ghost ta = normalized_tokens(token_texts(a@));
    let ghost tb = normalized_tokens(token_texts(b@));
    assert(token_texts(ra@) =~= ta);
    assert(token_texts(rb@) =~= tb);
    let ac2t = get_char2token(ra.as_slice());
    let bc2t = get_char2token(rb.as_slice());
    let text_a = join(ra.as_slice());
    let text_b = join(rb.as_slice());
    let chars_a = chars_of(text_a.as_str());
    let chars_b = chars_of(text_b.as_str());
    let (a2b, b2a) = diff(&chars_a, &chars_b);
    let at2bt = get_alignment(ra.len(), a2b.as_slice(), ac2t.as_slice(), bc2t.as_slice());
    let bt2at = get_alignment(rb.len(), b2a.as_slice(), bc2t.as_slice(), ac2t.as_slice());
    proof {
        let n = ta.len();
        let m = tb.len();
        lemma_aligned_within(n, a2b@, ac2t@, bc2t@, scanned(a2b@, ac2t@), m);
        lemma_aligned_within(m, b2a@, bc2t@, ac2t@, scanned(b2a@, bc2t@), n);
        lemma_aligned_inverse(n, m, a2b@, b2a@, ac2t@, bc2t@);
        assert(agreeing(concat(tb), concat(ta), b2a@)) by {
            assert forall|j: int|
                0 <= j < b2a@.len() && j < concat(tb).len() && (
                #[trigger] b2a@[j]) is Some implies b2a@[j].unwrap() < concat(ta).len()
                && concat(tb)[j] == concat(ta)[b2a@[j].unwrap() as int] by {
                let i = b2a@[j].unwrap() as int;
                assert(a2b@[i] == Some(j as usize));
            }
        }
        lemma_aligned_sharing(ta, tb, a2b@);
        lemma_aligned_sharing(tb, ta, b2a@);
        assert(increasing(b2a@)) by {
            assert forall|j1: int, j2: int|
                0 <= j1 < j2 < b2a@.len() && (#[trigger] b2a@[j1]) is Some && (
                #[trigger] b2a@[j2]) is Some implies b2a@[j1].unwrap() < b2a@[j2].unwrap() by {
                let i1 = b2a@[j1].unwrap() as int;
                let i2 = b2a@[j2].unwrap() as int;
                assert(a2b@[i1].unwrap() == j1);
                assert(a2b@[i2].unwrap() == j2);
            }
        }
        lemma_aligned_ascending(n, a2b@, ac2t@, bc2t@, scanned(a2b@, ac2t@));
        lemma_aligned_ascending(m, b2a@, bc2t@, ac2t@, scanned(b2a@, bc2t@));
        lemma_aligned_ordered(n, a2b@, ac2t@, bc2t@);
        lemma_aligned_ordered(m, b2a@, bc2t@, ac2t@);
        lemma_sharing_hollow(lists(at2bt@), ta, tb);
        lemma_sharing_hollow(lists(bt2at@), tb, ta);
        if token_texts(a@) == token_texts(b@) {
            let own = ac2t@;
            let len = own.len();
            lemma_self_aligned(n, a2b@, own, len);
            lemma_self_aligned(n, b2a@, own, len);
            assert forall|s: int| 0 <= s < n && ta[s].len() > 0 implies owns_before(
                own,
                len,
                s,
            ) by {
                lemma_owner_of(ta, s, 0);
                lemma_owns_before(own, len, s, offset(ta, s) as int);
            }
        }
    }
    (at2bt, bt2at)
}

} // verus!
