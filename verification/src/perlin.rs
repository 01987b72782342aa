//! The lattice of the gradient noise: three shuffled tables of the numbers
//! below [`POINT_COUNT`], and the rule that picks a gradient for a lattice point.

use vstd::prelude::*;
use vstd::seq_lib::*;
use crate::random::random_below;

verus! {

/// Number of gradients, and length of each table.
pub const POINT_COUNT: usize = 256;

/// The numbers `0, 1, .., n - 1` in order.
pub open spec fn counting(n: nat) -> Seq<usize> {
    Seq::new(n, |i: int| i as usize)
}

/// The table can be used to pick gradients: it has [`POINT_COUNT`] entries,
/// each below [`POINT_COUNT`].
pub open spec fn is_table(p: Seq<usize>) -> bool {
    p.len() == POINT_COUNT && forall|i: int| 0 <= i < p.len() ==> #[trigger] p[i] < POINT_COUNT
}

/// Place of a lattice coordinate in a table: the coordinate modulo
/// [`POINT_COUNT`], counted from zero also for negative coordinates.
pub open spec fn wrapped(coordinate: int) -> int {
    coordinate % (POINT_COUNT as int)
}

/// The list with the entries at the places `i` and `j` exchanged.
pub open spec fn swapped(s: Seq<usize>, i: int, j: int) -> Seq<usize> {
    s.update(i, s[j]).update(j, s[i])
}

/// The draws suit a shuffle of `n` entries: there is one for each place from
/// the last down to the second, in that order, and each names a place before
/// the one it is for.
pub open spec fn draws_suit(draws: Seq<usize>, n: int) -> bool {
    &&& draws.len() == (if n == 0 {
        0
    } else {
        n - 1
    })
    &&& forall|k: int| 0 <= k < draws.len() ==> #[trigger] draws[k] < n - 1 - k
}

/// The list after the exchanges of a shuffle: the first draw is exchanged
/// with the last place, the next with the place before it, and so on.
pub open spec fn exchanged(s: Seq<usize>, draws: Seq<usize>) -> Seq<usize>
    decreases draws.len(),
{
    if draws.len() == 0 {
        s
    } else {
        swapped(exchanged(s, draws.drop_last()), s.len() - draws.len(), draws.last() as int)
    }
}

/// Shuffles `p` in place: from the last place down to the second, each entry
/// is exchanged with one drawn from the places before it.
pub fn permute(rng: &mut rand_xoshiro::Xoshiro256PlusPlus, p: &mut Vec<usize>)
    ensures
        final(p)@.to_multiset() == old(p)@.to_multiset(),
        final(p)@.len() == old(p)@.len(),
        exists|draws: Seq<usize>| #[trigger]
            draws_suit(draws, old(p)@.len() as int) && final(p)@ == exchanged(old(p)@, draws),
{
    let mut i: usize = p.len();
    let ghost mut draws: Seq<usize> = Seq::empty();
    while i > 1
        invariant
            i <= p@.len(),
            p@.len() >= 1 ==> i >= 1,
            p@.len() == old(p)@.len(),
            p@.to_multiset() == old(p)@.to_multiset(),
            draws.len() == p@.len() - i,
            forall|k: int| 0 <= k < draws.len() ==> #[trigger] draws[k] < p@.len() - 1 - k,
            p@ == exchanged(old(p)@, draws),
        decreases i,
    {
        i = i - 1;
        let target = random_below(rng, i);
        let ghost before = p@;
        let ghost drawn = draws;
        let a = p[i];
        let b = p[target];
        p.set(i, b);
        p.set(target, a);
        proof {
            assert(p@ =~= before.update(i as int, b).update(target as int, a));
            lemma_swap_keeps_members(before, i as int, target as int);
            draws = drawn.push(target);
            assert(draws.drop_last() =~= drawn);
            assert(draws.last() == target);
            assert(old(p)@.len() - draws.len() == i);
            assert(p@ == swapped(before, i as int, target as int));
        }
    }
    assert(draws_suit(draws, old(p)@.len() as int));
}

/// The exchanges made for the first draws of a shuffle leave the list as long
/// as it was; no entry at a place already dealt with is the one that stood
/// there, and no entry that stood at a place still to come has moved to
/// another such place.
proof fn lemma_exchanges(s: Seq<usize>, draws: Seq<usize>)
    requires
        s.no_duplicates(),
        draws.len() < s.len(),
        forall|k: int| 0 <= k < draws.len() ==> #[trigger] draws[k] < s.len() - 1 - k,
    ensures
        exchanged(s, draws).len() == s.len(),
        forall|k: int|
            s.len() - draws.len() <= k < s.len() ==> #[trigger] exchanged(s, draws)[k] != s[k],
        forall|j: int, k: int|
            0 <= j < s.len() - draws.len() && 0 <= k < s.len() - draws.len() && j != k
                ==> #[trigger] exchanged(s, draws)[j] != #[trigger] s[k],
        draws.len() == s.len() - 1 && s.len() >= 2 ==> exchanged(s, draws)[0] != s[0],
    decreases draws.len(),
{
    if draws.len() > 0 {
        let earlier = draws.drop_last();
        assert forall|k: int| 0 <= k < earlier.len() implies #[trigger] earlier[k] < s.len() - 1
            - k by {
            assert(earlier[k] == draws[k]);
        }
        lemma_exchanges(s, earlier);
        let e = exchanged(s, earlier);
        let place = s.len() - draws.len();
        let drawn = draws.last() as int;
        assert(draws[draws.len() - 1] < s.len() - 1 - (draws.len() - 1));
        assert(0 <= drawn < place);
        let after = swapped(e, place, drawn);
        assert(exchanged(s, draws) == after);
        assert(after[place] == e[drawn]);
        assert(after[drawn] == e[place]);
        assert(e[drawn] != s[place]);
        assert forall|k: int| place <= k < s.len() implies #[trigger] after[k] != s[k] by {
            if k != place {
                assert(after[k] == e[k]);
            }
        }
        assert forall|j: int, k: int| 0 <= j < place && 0 <= k < place && j != k implies #[trigger] after[j]
            != #[trigger] s[k] by {
            if j == drawn {
                assert(e[place] != s[k]);
            } else {
                assert(after[j] == e[j]);
                assert(e[j] != s[k]);
            }
        }
        if draws.len() == s.len() - 1 && s.len() >= 2 {
            assert(place == 1);
            assert(drawn == 0);
            assert(e[1] != s[0]);
        }
    }
}

/// A shuffle moves every entry: in a list of two or more entries, all
/// different, no entry stands after the exchanges where it stood before.
pub proof fn lemma_no_entry_stays(s: Seq<usize>, draws: Seq<usize>)
    requires
        s.no_duplicates(),
        s.len() >= 2,
        draws_suit(draws, s.len() as int),
    ensures
        exchanged(s, draws).len() == s.len(),
        forall|k: int| 0 <= k < s.len() ==> #[trigger] exchanged(s, draws)[k] != s[k],
{
    lemma_exchanges(s, draws);
    assert forall|k: int| 0 <= k < s.len() implies #[trigger] exchanged(s, draws)[k] != s[k] by {
        if k >= 1 {
            assert(s.len() - draws.len() <= k);
        }
    }
}

/// Exchanging two entries of a list rearranges it.
proof fn lemma_swap_keeps_members(s: Seq<usize>, i: int, j: int)
    requires
        0 <= i < s.len(),
        0 <= j < s.len(),
    ensures
        s.update(i, s[j]).update(j, s[i]).to_multiset() == s.to_multiset(),
{
    broadcast use vstd::multiset::group_multiset_axioms;
    broadcast use vstd::seq_lib::group_to_multiset_ensures;

    let t = s.update(i, s[j]);
    vstd::seq_lib::to_multiset_update(s, i, s[j]);
    vstd::seq_lib::to_multiset_update(t, j, s[i]);
    assert(t[j] == s[j]) by {
        if i == j {
        }
    }
    assert(t.update(j, s[i]).to_multiset() =~= s.to_multiset());
}

/// A fresh table: the numbers below [`POINT_COUNT`], shuffled.
pub fn generate_perm(rng: &mut rand_xoshiro::Xoshiro256PlusPlus) -> (p: Vec<usize>)
    ensures
        p@.to_multiset() == counting(POINT_COUNT as nat).to_multiset(),
        is_table(p@),
{
    let mut p: Vec<usize> = Vec::new();
    let mut i: usize = 0;
    while i < POINT_COUNT
        invariant
            i <= POINT_COUNT,
            p@ == counting(i as nat),
        decreases POINT_COUNT - i,
    {
        p.push(i);
        i = i + 1;
        assert(p@ =~= counting(i as nat));
    }
    permute(rng, &mut p);
    proof {
        let ordered = counting(POINT_COUNT as nat);
        p@.to_multiset_ensures();
        ordered.to_multiset_ensures();
        assert forall|k: int| 0 <= k < p@.len() implies #[trigger] p@[k] < POINT_COUNT by {
            assert(p@.contains(p@[k]));
            assert(p@.to_multiset().count(p@[k]) > 0);
            assert(ordered.contains(p@[k]));
            let j = choose|j: int| 0 <= j < ordered.len() && ordered[j] == p@[k];
            assert(ordered[j] == j);
        }
    }
    p
}

/// Place in a table of the lattice coordinate `base + step`.
pub fn place(base: isize, step: isize) -> (k: usize)
    requires
        0 <= step <= 1,
        base < isize::MAX,
    ensures
        k == wrapped(base + step),
        k < POINT_COUNT,
{
    let c: isize = base + step;
    let r: isize = c % (POINT_COUNT as isize);
    if r < 0 {
        (r + (POINT_COUNT as isize)) as usize
    } else {
        r as usize
    }
}

/// Picks the gradient of a lattice point: the entries of the three tables at
/// the point's coordinates, combined by exclusive or.
pub fn gradient_index(
    perm_x: &Vec<usize>,
    perm_y: &Vec<usize>,
    perm_z: &Vec<usize>,
    x: usize,
    y: usize,
    z: usize,
) -> (index: usize)
    requires
        is_table(perm_x@),
        is_table(perm_y@),
        is_table(perm_z@),
        x < POINT_COUNT,
        y < POINT_COUNT,
        z < POINT_COUNT,
    ensures
        index == perm_x@[x as int] ^ perm_y@[y as int] ^ perm_z@[z as int],
        index < POINT_COUNT,
{
    let a = perm_x[x];
    let b = perm_y[y];
    let c = perm_z[z];
    assert(a ^ b ^ c < 256) by (bit_vector)
        requires
            a < 256,
            b < 256,
            c < 256,
    ;
    a ^ b ^ c
}

} // verus!
