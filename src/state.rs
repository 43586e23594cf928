//! Puzzle states, and the cycle algorithm that applies a twist to any
//! puzzle type.
//!
//! A state maps every piece to its orientation. A twist with rotation `r`
//! walks, from each of its seeds, the cycle of pieces under `r⁻¹`, and
//! exchanges neighbouring pieces of the cycle one pair at a time.

use vstd::prelude::*;
use crate::orientation::{
    lemma_compose_assoc, lemma_compose_identity, lemma_compose_inverse, lemma_compose_wf,
    lemma_identity_wf, lemma_inverse_involutive, lemma_inverse_unique, lemma_inverse_wf,
    lemma_pow_inverse, lemma_pow_succ_right, lemma_pow_wf, SignedPerm,
};
use crate::orientation::{ints, Orientation};
use crate::topology::{lemma_act_index_inverse, lemma_act_index_range, Face, PuzzleType, Sticker, Twist};
use vstd::set_lib::{lemma_int_range, lemma_len_subset, set_int_range};

verus! {

/// `swap(p1, p2, rot)`: the piece at `p2` turned by `rot` goes to `p1`, and
/// the piece at `p1` turned by `rot⁻¹` goes to `p2`.
pub open spec fn swap_spec(st: Seq<SignedPerm>, p1: int, p2: int, rot: SignedPerm) -> Seq<SignedPerm> {
    st.update(p1, rot.compose(st[p2])).update(p2, rot.inverse().compose(st[p1]))
}

/// The swaps along the first `m` pieces of the cycle `orb`.
pub open spec fn cycle_upto(st: Seq<SignedPerm>, orb: Seq<int>, rot: SignedPerm, m: int) -> Seq<
    SignedPerm,
>
    decreases m,
{
    if m <= 1 {
        st
    } else {
        swap_spec(cycle_upto(st, orb, rot, m - 1), orb[m - 1], orb[m - 2], rot)
    }
}

/// The swaps along the whole cycle `orb`.
pub open spec fn cycle_spec(st: Seq<SignedPerm>, orb: Seq<int>, rot: SignedPerm) -> Seq<SignedPerm> {
    cycle_upto(st, orb, rot, orb.len() as int)
}

/// The cycles `orbs`, one after the other.
pub open spec fn cycles_spec(st: Seq<SignedPerm>, orbs: Seq<Seq<int>>, rot: SignedPerm) -> Seq<
    SignedPerm,
>
    decreases orbs.len(),
{
    if orbs.len() == 0 {
        st
    } else {
        cycle_spec(cycles_spec(st, orbs.drop_last(), rot), orbs.last(), rot)
    }
}

/// What the cycle `orb` leaves at its `j`-th piece.
pub open spec fn cycle_value(st: Seq<SignedPerm>, orb: Seq<int>, rot: SignedPerm, j: int) -> SignedPerm {
    if j < orb.len() - 1 {
        rot.inverse().compose(st[orb[j + 1]])
    } else {
        rot.pow((orb.len() - 1) as nat).compose(st[orb[0]])
    }
}

/// The piece reached from `p` by `j` rotations by `r`.
pub open spec fn iterate(ty: PuzzleType, r: SignedPerm, p: int, j: nat) -> int
    decreases j,
{
    if j == 0 {
        p
    } else {
        ty.act_index(r, iterate(ty, r, p, (j - 1) as nat))
    }
}

/// `orb` is the cycle of `s` under `r`: the pieces reached from `s`, in
/// order, until the walk first comes back to `s`.
pub open spec fn is_orbit(ty: PuzzleType, r: SignedPerm, s: int, orb: Seq<int>) -> bool {
    &&& orb.len() >= 1
    &&& forall|j: int| 0 <= j < orb.len() ==> #[trigger] orb[j] == iterate(ty, r, s, j as nat)
    &&& iterate(ty, r, s, orb.len()) == s
    &&& orb.no_duplicates()
}

/// `orbs` holds the cycle of each seed, and no two cycles share a piece.
pub open spec fn orbits_ok(ty: PuzzleType, r: SignedPerm, seeds: Seq<int>, orbs: Seq<Seq<int>>) -> bool {
    &&& orbs.len() == seeds.len()
    &&& forall|i: int| 0 <= i < orbs.len() ==> is_orbit(ty, r, seeds[i], #[trigger] orbs[i])
    &&& forall|i: int, i2: int, a: int, b: int|
        0 <= i < orbs.len() && 0 <= i2 < orbs.len() && i != i2 && 0 <= a < orbs[i].len() && 0 <= b
            < orbs[i2].len() ==> #[trigger] orbs[i][a] != #[trigger] orbs[i2][b]
}

/// The seeds have disjoint cycles under `r`.
pub open spec fn orbits_exist(ty: PuzzleType, r: SignedPerm, seeds: Seq<int>) -> bool {
    exists|orbs: Seq<Seq<int>>| orbits_ok(ty, r, seeds, orbs)
}

/// The cycles of the seeds under `r`.
pub open spec fn orbits_of(ty: PuzzleType, r: SignedPerm, seeds: Seq<int>) -> Seq<Seq<int>> {
    choose|orbs: Seq<Seq<int>>| orbits_ok(ty, r, seeds, orbs)
}

/// The twist can be applied: it is valid for the puzzle type and its seeds
/// have disjoint cycles.
pub open spec fn twist_defined(ty: PuzzleType, t: Twist) -> bool {
    &&& ty.twist_valid(t)
    &&& orbits_exist(ty, ty.rotation(t).inverse(), ty.seeds(t))
}

/// The cycles that the twist walks.
pub open spec fn twist_orbits(ty: PuzzleType, t: Twist) -> Seq<Seq<int>> {
    orbits_of(ty, ty.rotation(t).inverse(), ty.seeds(t))
}

/// The state after the twist.
pub open spec fn apply_twist(ty: PuzzleType, st: Seq<SignedPerm>, t: Twist) -> Seq<
    SignedPerm,
> {
    cycles_spec(st, twist_orbits(ty, t), ty.rotation(t).inverse())
}

/// Every cycle of the twist with two pieces or more has a length `L` with
/// `rotation^L` the identity, so that turning a cycle round brings each
/// piece back in its own orientation.
pub open spec fn twist_reversible(ty: PuzzleType, t: Twist) -> bool {
    &&& twist_defined(ty, t)
    &&& forall|i: int|
        0 <= i < twist_orbits(ty, t).len() && #[trigger] twist_orbits(ty, t)[i].len() >= 2
            ==> ty.rotation(t).pow(twist_orbits(ty, t)[i].len()) == SignedPerm::identity(ty.dim as nat)
}

/// The solved state: every piece in the identity orientation.
pub open spec fn solved(ty: PuzzleType) -> Seq<SignedPerm> {
    Seq::new(ty.spec_piece_count() as nat, |i: int| SignedPerm::identity(ty.dim as nat))
}

/// Every entry is an orientation of the puzzle type.
pub open spec fn states_wf(ty: PuzzleType, st: Seq<SignedPerm>) -> bool {
    &&& st.len() == ty.spec_piece_count()
    &&& forall|i: int| 0 <= i < st.len() ==> (#[trigger] st[i]).wf() && st[i].dim() == ty.dim
}

/// Every piece of the cycle is a piece of the puzzle.
pub open spec fn orbit_in_range(ty: PuzzleType, orb: Seq<int>) -> bool {
    forall|j: int| 0 <= j < orb.len() ==> 0 <= #[trigger] orb[j] < ty.spec_piece_count()
}

// ----- cycles -----

proof fn lemma_cycle_upto(ty: PuzzleType, st: Seq<SignedPerm>, orb: Seq<int>, rot: SignedPerm, m: int)
    requires
        ty.wf(),
        states_wf(ty, st),
        rot.wf(),
        rot.dim() == ty.dim,
        orbit_in_range(ty, orb),
        orb.no_duplicates(),
        1 <= m <= orb.len(),
    ensures
        states_wf(ty, cycle_upto(st, orb, rot, m)),
        cycle_upto(st, orb, rot, m)[orb[m - 1]] == rot.pow((m - 1) as nat).compose(st[orb[0]]),
        forall|a: int|
            0 <= a < m - 1 ==> #[trigger] cycle_upto(st, orb, rot, m)[orb[a]] == rot.inverse().compose(
                st[orb[a + 1]],
            ),
        forall|p: int|
            0 <= p < st.len() && (forall|a: int| 0 <= a < m ==> #[trigger] orb[a] != p) ==> #[trigger] cycle_upto(
                st,
                orb,
                rot,
                m,
            )[p] == st[p],
    decreases m,
{
    lemma_inverse_wf(rot);
    if m == 1 {
        assert(0 <= orb[0] < ty.spec_piece_count());
        lemma_compose_identity(st[orb[0]]);
    } else {
        lemma_cycle_upto(ty, st, orb, rot, m - 1);
        let c = cycle_upto(st, orb, rot, m - 1);
        let x1 = orb[m - 1];
        let x0 = orb[m - 2];
        assert(0 <= x1 < ty.spec_piece_count());
        assert(0 <= x0 < ty.spec_piece_count());
        assert(x1 != x0);
        // the piece at x1 had not been touched yet
        assert(c[x1] == st[x1]) by {
            assert forall|a: int| 0 <= a < m - 1 implies #[trigger] orb[a] != x1 by {
                assert(a != m - 1);
            }
        }
        lemma_pow_wf(rot, (m - 2) as nat);
        lemma_compose_wf(rot, c[x0]);
        lemma_compose_wf(rot.inverse(), c[x1]);
        lemma_compose_assoc(rot, rot.pow((m - 2) as nat), st[orb[0]]);
        let n = cycle_upto(st, orb, rot, m);
        assert forall|a: int| 0 <= a < m - 1 implies #[trigger] n[orb[a]] == rot.inverse().compose(
            st[orb[a + 1]],
        ) by {
            if a < m - 2 {
                assert(orb[a] != x0);
                assert(orb[a] != x1);
            }
        }
        assert forall|p: int|
            0 <= p < st.len() && (forall|a: int| 0 <= a < m ==> #[trigger] orb[a] != p) implies #[trigger] n[p]
            == st[p] by {
            assert(orb[m - 1] != p);
            assert(orb[m - 2] != p);
            assert forall|a: int| 0 <= a < m - 1 implies #[trigger] orb[a] != p by {}
        }
        assert forall|i: int| 0 <= i < n.len() implies (#[trigger] n[i]).wf() && n[i].dim() == ty.dim by {}
    }
}

/// What one cycle does, piece by piece.
pub proof fn lemma_cycle(ty: PuzzleType, st: Seq<SignedPerm>, orb: Seq<int>, rot: SignedPerm)
    requires
        ty.wf(),
        states_wf(ty, st),
        rot.wf(),
        rot.dim() == ty.dim,
        orbit_in_range(ty, orb),
        orb.no_duplicates(),
        orb.len() >= 1,
    ensures
        states_wf(ty, cycle_spec(st, orb, rot)),
        forall|j: int|
            0 <= j < orb.len() ==> #[trigger] cycle_spec(st, orb, rot)[orb[j]] == cycle_value(st, orb, rot, j),
        forall|p: int|
            0 <= p < st.len() && (forall|a: int| 0 <= a < orb.len() ==> #[trigger] orb[a] != p)
                ==> #[trigger] cycle_spec(st, orb, rot)[p] == st[p],
{
    lemma_cycle_upto(ty, st, orb, rot, orb.len() as int);
}


/// No two cycles share a piece.
pub open spec fn orbits_disjoint(orbs: Seq<Seq<int>>) -> bool {
    forall|i: int, i2: int, a: int, b: int|
        0 <= i < orbs.len() && 0 <= i2 < orbs.len() && i != i2 && 0 <= a < orbs[i].len() && 0 <= b
            < orbs[i2].len() ==> #[trigger] orbs[i][a] != #[trigger] orbs[i2][b]
}

/// Each cycle is a non-empty sequence of distinct pieces of the puzzle.
pub open spec fn orbits_shaped(ty: PuzzleType, orbs: Seq<Seq<int>>) -> bool {
    forall|i: int|
        0 <= i < orbs.len() ==> orbit_in_range(ty, #[trigger] orbs[i]) && orbs[i].no_duplicates()
            && orbs[i].len() >= 1
}

/// The piece `p` lies on one of the cycles.
pub open spec fn on_orbits(orbs: Seq<Seq<int>>, p: int) -> bool {
    exists|i: int, a: int| 0 <= i < orbs.len() && 0 <= a < orbs[i].len() && #[trigger] orbs[i][a] == p
}

/// What disjoint cycles do, piece by piece.
pub proof fn lemma_cycles(ty: PuzzleType, st: Seq<SignedPerm>, orbs: Seq<Seq<int>>, rot: SignedPerm)
    requires
        ty.wf(),
        states_wf(ty, st),
        rot.wf(),
        rot.dim() == ty.dim,
        orbits_shaped(ty, orbs),
        orbits_disjoint(orbs),
    ensures
        states_wf(ty, cycles_spec(st, orbs, rot)),
        forall|i: int, j: int|
            0 <= i < orbs.len() && 0 <= j < orbs[i].len() ==> #[trigger] cycles_spec(st, orbs, rot)[orbs[i][j]]
                == cycle_value(st, orbs[i], rot, j),
        forall|p: int|
            0 <= p < st.len() && !on_orbits(orbs, p) ==> #[trigger] cycles_spec(st, orbs, rot)[p] == st[p],
    decreases orbs.len(),
{
    if orbs.len() > 0 {
        let k = orbs.len() - 1;
        let init = orbs.drop_last();
        let last = orbs.last();
        assert(orbits_shaped(ty, init)) by {
            assert forall|i: int| 0 <= i < init.len() implies orbit_in_range(ty, #[trigger] init[i])
                && init[i].no_duplicates() && init[i].len() >= 1 by {
                assert(init[i] == orbs[i]);
            }
        }
        assert(orbits_disjoint(init)) by {
            assert forall|i: int, i2: int, a: int, b: int|
                0 <= i < init.len() && 0 <= i2 < init.len() && i != i2 && 0 <= a < init[i].len() && 0
                    <= b < init[i2].len() implies #[trigger] init[i][a] != #[trigger] init[i2][b] by {
                assert(init[i] == orbs[i]);
                assert(init[i2] == orbs[i2]);
                assert(orbs[i][a] != orbs[i2][b]);
            }
        }
        lemma_cycles(ty, st, init, rot);
        let prev = cycles_spec(st, init, rot);
        assert(orbs[k] == last);
        lemma_cycle(ty, prev, last, rot);
        let res = cycles_spec(st, orbs, rot);
        assert(res == cycle_spec(prev, last, rot));
        // the pieces of the last cycle were not touched before it
        assert forall|j: int| 0 <= j < last.len() implies #[trigger] prev[last[j]] == st[last[j]] by {
            assert(0 <= last[j] < ty.spec_piece_count());
            if on_orbits(init, last[j]) {
                let (i, a) = choose|i: int, a: int|
                    0 <= i < init.len() && 0 <= a < init[i].len() && #[trigger] init[i][a] == last[j];
                assert(init[i] == orbs[i]);
                assert(orbs[i][a] != orbs[k][j]);
            }
        }
        assert forall|i: int, j: int| 0 <= i < orbs.len() && 0 <= j < orbs[i].len() implies #[trigger] res[orbs[i][j]]
            == cycle_value(st, orbs[i], rot, j) by {
            if i == k {
                assert(res[last[j]] == cycle_value(prev, last, rot, j));
                if j < last.len() - 1 {
                    assert(prev[last[j + 1]] == st[last[j + 1]]);
                } else {
                    assert(prev[last[0]] == st[last[0]]);
                }
            } else {
                assert(init[i] == orbs[i]);
                assert(prev[init[i][j]] == cycle_value(st, init[i], rot, j));
                assert(0 <= orbs[i][j] < ty.spec_piece_count());
                assert forall|a: int| 0 <= a < last.len() implies #[trigger] last[a] != orbs[i][j] by {
                    assert(orbs[k][a] != orbs[i][j]);
                }
            }
        }
        assert forall|p: int| 0 <= p < st.len() && !on_orbits(orbs, p) implies #[trigger] res[p] == st[p] by {
            assert forall|a: int| 0 <= a < last.len() implies #[trigger] last[a] != p by {
                if last[a] == p {
                    assert(orbs[k][a] == p);
                }
            }
            if on_orbits(init, p) {
                let (i, a) = choose|i: int, a: int|
                    0 <= i < init.len() && 0 <= a < init[i].len() && #[trigger] init[i][a] == p;
                assert(init[i] == orbs[i]);
                assert(orbs[i][a] == p);
            }
        }
    }
}

/// Rotations keep to the pieces of the puzzle.
pub proof fn lemma_iterate_range(ty: PuzzleType, r: SignedPerm, p: int, j: nat)
    requires
        ty.wf(),
        r.wf(),
        r.dim() == ty.dim,
        0 <= p < ty.spec_piece_count(),
    ensures
        0 <= iterate(ty, r, p, j) < ty.spec_piece_count(),
    decreases j,
{
    if j > 0 {
        lemma_iterate_range(ty, r, p, (j - 1) as nat);
        lemma_act_index_range(ty, r, iterate(ty, r, p, (j - 1) as nat));
    }
}

/// A piece has at most one cycle.
pub proof fn lemma_orbit_unique(ty: PuzzleType, r: SignedPerm, s: int, o1: Seq<int>, o2: Seq<int>)
    requires
        is_orbit(ty, r, s, o1),
        is_orbit(ty, r, s, o2),
    ensures
        o1 == o2,
{
    if o1.len() < o2.len() {
        assert(o2[o1.len() as int] == o2[0]);
    } else if o2.len() < o1.len() {
        assert(o1[o2.len() as int] == o1[0]);
    }
    assert(o1 =~= o2);
}

/// Seeds have at most one system of cycles.
pub proof fn lemma_orbits_unique(ty: PuzzleType, r: SignedPerm, seeds: Seq<int>, a: Seq<Seq<int>>, b: Seq<Seq<int>>)
    requires
        orbits_ok(ty, r, seeds, a),
        orbits_ok(ty, r, seeds, b),
    ensures
        a == b,
{
    assert forall|i: int| 0 <= i < a.len() implies a[i] == b[i] by {
        lemma_orbit_unique(ty, r, seeds[i], a[i], b[i]);
    }
    assert(a =~= b);
}

/// The cycles of seeds in range are shaped.
pub proof fn lemma_orbits_shaped(ty: PuzzleType, r: SignedPerm, seeds: Seq<int>, orbs: Seq<Seq<int>>)
    requires
        ty.wf(),
        r.wf(),
        r.dim() == ty.dim,
        orbits_ok(ty, r, seeds, orbs),
        forall|i: int| 0 <= i < seeds.len() ==> 0 <= #[trigger] seeds[i] < ty.spec_piece_count(),
    ensures
        orbits_shaped(ty, orbs),
        orbits_disjoint(orbs),
{
    assert forall|i: int| 0 <= i < orbs.len() implies orbit_in_range(ty, #[trigger] orbs[i])
        && orbs[i].no_duplicates() && orbs[i].len() >= 1 by {
        assert(is_orbit(ty, r, seeds[i], orbs[i]));
        assert(0 <= seeds[i] < ty.spec_piece_count());
        assert forall|j: int| 0 <= j < orbs[i].len() implies 0 <= #[trigger] orbs[i][j] < ty.spec_piece_count() by {
            lemma_iterate_range(ty, r, seeds[i], j as nat);
        }
    }
}

/// The cycle `orb` walked backwards from its first piece.
pub open spec fn reverse_orbit(orb: Seq<int>) -> Seq<int> {
    Seq::new(orb.len(), |j: int| if j == 0 { orb[0] } else { orb[orb.len() - j] })
}

/// The cycle of a piece under `r` is its cycle under `r⁻¹` walked backwards.
pub proof fn lemma_reverse_orbit(ty: PuzzleType, r: SignedPerm, s: int, x: Seq<int>)
    requires
        ty.wf(),
        r.wf(),
        r.dim() == ty.dim,
        0 <= s < ty.spec_piece_count(),
        is_orbit(ty, r.inverse(), s, x),
    ensures
        is_orbit(ty, r, s, reverse_orbit(x)),
{
    let rp = r.inverse();
    let l = x.len() as int;
    let y = reverse_orbit(x);
    lemma_inverse_wf(r);
    lemma_inverse_involutive(r);
    assert forall|j: int| 0 <= j < l implies 0 <= #[trigger] x[j] < ty.spec_piece_count() by {
        lemma_iterate_range(ty, rp, s, j as nat);
    }
    // each step of the walk under r undoes one step under r⁻¹
    assert forall|m: int| 1 <= m < l implies ty.act_index(r, #[trigger] x[m]) == x[m - 1] by {
        assert(x[m] == iterate(ty, rp, s, m as nat));
        assert(x[m - 1] == iterate(ty, rp, s, (m - 1) as nat));
        lemma_act_index_inverse(ty, rp, x[m - 1]);
    }
    assert(ty.act_index(r, s) == x[l - 1]) by {
        assert(x[l - 1] == iterate(ty, rp, s, (l - 1) as nat));
        lemma_act_index_inverse(ty, rp, x[l - 1]);
    }
    assert forall|j: int| 0 <= j <= l implies #[trigger] iterate(ty, r, s, j as nat) == if j == 0 || j == l {
        s
    } else {
        x[l - j]
    } by {
        lemma_iterate_walk(ty, r, s, x, j);
    }
    assert forall|j: int| 0 <= j < y.len() implies #[trigger] y[j] == iterate(ty, r, s, j as nat) by {
        assert(iterate(ty, r, s, j as nat) == if j == 0 || j == l { s } else { x[l - j] });
    }
    assert(iterate(ty, r, s, l as nat) == s);
    assert(y.no_duplicates()) by {
        assert forall|a: int, b: int| 0 <= a < y.len() && 0 <= b < y.len() && a != b implies y[a] != y[b] by {
            let ia = if a == 0 { 0 } else { l - a };
            let ib = if b == 0 { 0 } else { l - b };
            assert(y[a] == x[ia]);
            assert(y[b] == x[ib]);
        }
    }
}

proof fn lemma_iterate_walk(ty: PuzzleType, r: SignedPerm, s: int, x: Seq<int>, j: int)
    requires
        x.len() >= 1,
        x[0] == s,
        0 <= j <= x.len(),
        forall|m: int| 1 <= m < x.len() ==> ty.act_index(r, #[trigger] x[m]) == x[m - 1],
        ty.act_index(r, s) == x[x.len() - 1],
    ensures
        iterate(ty, r, s, j as nat) == if j == 0 || j == x.len() {
            s
        } else {
            x[x.len() - j]
        },
    decreases j,
{
    if j > 0 {
        lemma_iterate_walk(ty, r, s, x, j - 1);
        let l = x.len() as int;
        if j == 1 {
        } else {
            assert(ty.act_index(r, x[l - j + 1]) == x[l - j]);
        }
    }
}


/// The cycles of the seeds under `r` are their cycles under `r⁻¹` walked
/// backwards.
pub proof fn lemma_reverse_orbits(ty: PuzzleType, r: SignedPerm, seeds: Seq<int>, xs: Seq<Seq<int>>)
    requires
        ty.wf(),
        r.wf(),
        r.dim() == ty.dim,
        forall|i: int| 0 <= i < seeds.len() ==> 0 <= #[trigger] seeds[i] < ty.spec_piece_count(),
        orbits_ok(ty, r.inverse(), seeds, xs),
    ensures
        orbits_ok(ty, r, seeds, xs.map_values(|x: Seq<int>| reverse_orbit(x))),
{
    let ys = xs.map_values(|x: Seq<int>| reverse_orbit(x));
    assert forall|i: int| 0 <= i < ys.len() implies is_orbit(ty, r, seeds[i], #[trigger] ys[i]) by {
        assert(is_orbit(ty, r.inverse(), seeds[i], xs[i]));
        lemma_reverse_orbit(ty, r, seeds[i], xs[i]);
    }
    assert forall|i: int, i2: int, a: int, b: int|
        0 <= i < ys.len() && 0 <= i2 < ys.len() && i != i2 && 0 <= a < ys[i].len() && 0 <= b
            < ys[i2].len() implies #[trigger] ys[i][a] != #[trigger] ys[i2][b] by {
        let l1 = xs[i].len() as int;
        let l2 = xs[i2].len() as int;
        let ia = if a == 0 { 0 } else { l1 - a };
        let ib = if b == 0 { 0 } else { l2 - b };
        assert(ys[i][a] == xs[i][ia]);
        assert(ys[i2][b] == xs[i2][ib]);
        assert(xs[i][ia] != xs[i2][ib]);
    }
}

proof fn lemma_inverse_identity(d: nat)
    ensures
        SignedPerm::identity(d).inverse() == SignedPerm::identity(d),
{
    lemma_identity_wf(d);
    lemma_compose_identity(SignedPerm::identity(d));
    lemma_inverse_unique(SignedPerm::identity(d), SignedPerm::identity(d));
}

/// Applying a twist and then its reverse gives back any state, when every
/// cycle of the twist turns round to the identity.
pub proof fn lemma_twist_then_rev(ty: PuzzleType, st: Seq<SignedPerm>, t: Twist)
    requires
        ty.wf(),
        states_wf(ty, st),
        twist_reversible(ty, t),
    ensures
        twist_defined(ty, t.spec_rev()),
        twist_reversible(ty, t.spec_rev()),
        states_wf(ty, apply_twist(ty, st, t)),
        apply_twist(ty, apply_twist(ty, st, t), t.spec_rev()) == st,
{
    let r = ty.rotation(t);
    let rp = r.inverse();
    let seeds = ty.seeds(t);
    let xs = twist_orbits(ty, t);
    crate::topology::lemma_rev_twist(ty, t);
    crate::topology::lemma_seeds_below_range(ty, t, ty.spec_piece_count());
    lemma_inverse_wf(r);
    lemma_inverse_involutive(r);
    lemma_identity_wf(ty.dim as nat);
    assert(orbits_ok(ty, rp, seeds, xs));
    let ys = xs.map_values(|x: Seq<int>| reverse_orbit(x));
    lemma_reverse_orbits(ty, r, seeds, xs);
    // the reverse twist walks the reversed cycles with rotation r
    assert(ty.rotation(t.spec_rev()).inverse() == r);
    assert(orbits_exist(ty, r, seeds));
    lemma_orbits_unique(ty, r, seeds, ys, twist_orbits(ty, t.spec_rev()));
    assert(twist_orbits(ty, t.spec_rev()) == ys);
    lemma_orbits_shaped(ty, rp, seeds, xs);
    lemma_orbits_shaped(ty, r, seeds, ys);
    let s1 = cycles_spec(st, xs, rp);
    lemma_cycles(ty, st, xs, rp);
    let s2 = cycles_spec(s1, ys, r);
    lemma_cycles(ty, s1, ys, r);
    assert(apply_twist(ty, st, t) == s1);
    assert(apply_twist(ty, s1, t.spec_rev()) == s2);
    // the reverse twist is reversible too
    assert forall|i: int| 0 <= i < ys.len() && #[trigger] ys[i].len() >= 2 implies rp.pow(ys[i].len())
        == SignedPerm::identity(ty.dim as nat) by {
        assert(xs[i].len() == ys[i].len());
        assert(r.pow(xs[i].len()) == SignedPerm::identity(ty.dim as nat));
        lemma_pow_inverse(r, xs[i].len());
        lemma_inverse_identity(ty.dim as nat);
    }
    assert(twist_reversible(ty, t.spec_rev()));
    assert forall|p: int| 0 <= p < st.len() implies #[trigger] s2[p] == st[p] by {
        if on_orbits(ys, p) {
            let (i, j) = choose|i: int, j: int| 0 <= i < ys.len() && 0 <= j < ys[i].len() && #[trigger] ys[i][j] == p;
            lemma_cycle_round_trip(ty, st, xs[i], r, j);
            assert(s2[ys[i][j]] == cycle_value(s1, ys[i], r, j));
            let x = xs[i];
            let l = x.len() as int;
            assert(ys[i] == reverse_orbit(x));
            if j < l - 1 {
                assert(s1[x[l - j - 1]] == cycle_value(st, x, rp, l - j - 1));
            } else if l >= 2 {
                assert(s1[x[0]] == cycle_value(st, x, rp, 0));
            } else {
                assert(s1[x[0]] == cycle_value(st, x, rp, 0));
            }
        } else {
            assert(!on_orbits(xs, p)) by {
                if on_orbits(xs, p) {
                    let (i, a) = choose|i: int, a: int| 0 <= i < xs.len() && 0 <= a < xs[i].len() && #[trigger] xs[i][a] == p;
                    let b = if a == 0 { 0 } else { xs[i].len() - a };
                    assert(ys[i][b] == p);
                }
            }
        }
    }
    assert(s2 =~= st);
}

/// One cycle, walked by `r⁻¹`, and then the reversed cycle, walked by `r`,
/// leave each of the cycle's pieces as it was.
proof fn lemma_cycle_round_trip(ty: PuzzleType, st: Seq<SignedPerm>, x: Seq<int>, r: SignedPerm, j: int)
    requires
        ty.wf(),
        states_wf(ty, st),
        r.wf(),
        r.dim() == ty.dim,
        orbit_in_range(ty, x),
        x.len() >= 1,
        0 <= j < x.len(),
        x.len() >= 2 ==> r.pow(x.len()) == SignedPerm::identity(ty.dim as nat),
    ensures
        ({
            let s1x = |m: int| cycle_value(st, x, r.inverse(), m);
            let y = reverse_orbit(x);
            let l = x.len() as int;
            let before = if j < l - 1 {
                if j == 0 { s1x(l - 1) } else { s1x(l - j - 1) }
            } else {
                s1x(0)
            };
            (if j < l - 1 {
                r.inverse().compose(before)
            } else {
                r.pow((l - 1) as nat).compose(before)
            }) == st[y[j]]
        }),
{
    let rp = r.inverse();
    let l = x.len() as int;
    let d = ty.dim as nat;
    lemma_inverse_wf(r);
    lemma_inverse_involutive(r);
    lemma_compose_inverse(r);
    lemma_identity_wf(d);
    assert(0 <= x[0] < ty.spec_piece_count());
    if j < l - 1 {
        if j == 0 {
            // the first piece went round the whole cycle under r⁻¹
            let v = st[x[0]];
            lemma_pow_wf(rp, (l - 1) as nat);
            lemma_compose_assoc(rp, rp.pow((l - 1) as nat), v);
            lemma_pow_inverse(r, l as nat);
            lemma_inverse_identity(d);
            lemma_compose_identity(v);
        } else {
            let v = st[x[l - j]];
            assert(0 <= x[l - j] < ty.spec_piece_count());
            lemma_compose_assoc(rp, r, v);
            lemma_compose_identity(v);
        }
    } else if l >= 2 {
        let v = st[x[1]];
        assert(0 <= x[1] < ty.spec_piece_count());
        lemma_pow_wf(r, (l - 1) as nat);
        lemma_compose_assoc(r.pow((l - 1) as nat), r, v);
        lemma_pow_succ_right(r, (l - 1) as nat);
        lemma_compose_identity(v);
    } else {
        let v = st[x[0]];
        lemma_compose_identity(v);
        lemma_compose_identity(SignedPerm::identity(d).compose(v));
    }
}


/// Why a twist could not be applied.
#[derive(Debug, Copy, Clone, PartialEq, Eq, Structural)]
pub enum TwistError {
    /// The twist names an axis or a layer that this puzzle does not have.
    Unsupported,
    /// The seeds of the twist do not split its pieces into disjoint cycles.
    OverlappingCycles,
}

/// The face whose colour a piece in orientation `o` shows on its side `f`.
pub open spec fn sticker_face(o: SignedPerm, f: Face) -> Face {
    Face { axis: o.perm[f.axis as int] as usize, positive: f.positive != o.flip[f.axis as int] }
}

/// The cycles that a list of piece lists stands for.
pub open spec fn orbits_view(orbs: Seq<Vec<usize>>) -> Seq<Seq<int>> {
    orbs.map_values(|v: Vec<usize>| ints(v@))
}

/// The state of a puzzle: the orientation of every piece.
#[derive(Debug)]
pub struct PuzzleState {
    ty: PuzzleType,
    pieces: Vec<Orientation>,
}

impl View for PuzzleState {
    type V = Seq<SignedPerm>;

    closed spec fn view(&self) -> Seq<SignedPerm> {
        self.pieces@.map_values(|o: Orientation| o@)
    }
}

impl PuzzleState {
    /// The puzzle type.
    pub closed spec fn spec_ty(&self) -> PuzzleType {
        self.ty
    }

    /// The type is well formed and there is one orientation of it per piece.
    pub open spec fn wf(&self) -> bool {
        &&& self.spec_ty().wf()
        &&& states_wf(self.spec_ty(), self@)
    }

    /// Returns a new solved puzzle of the given type.
    pub fn new(ty: PuzzleType) -> (r: PuzzleState)
        requires
            ty.wf(),
        ensures
            r.wf(),
            r.spec_ty() == ty,
            r@ == solved(ty),
    {
        let count = ty.piece_count();
        let mut pieces: Vec<Orientation> = Vec::new();
        let mut i: usize = 0;
        while i < count
            invariant
                ty.wf(),
                count as int == ty.spec_piece_count(),
                i <= count,
                pieces@.len() == i,
                forall|j: int| 0 <= j < i ==> (#[trigger] pieces@[j])@ == SignedPerm::identity(ty.dim as nat),
            decreases count - i,
        {
            pieces.push(Orientation::identity(ty.dim));
            i += 1;
        }
        let r = PuzzleState { ty, pieces };
        assert(r@ =~= solved(ty));
        proof {
            lemma_identity_wf(ty.dim as nat);
        }
        r
    }

    /// Returns a copy of this state.
    pub fn duplicate(&self) -> (r: PuzzleState)
        ensures
            r@ == self@,
            r.spec_ty() == self.spec_ty(),
    {
        let mut pieces: Vec<Orientation> = Vec::new();
        let mut i: usize = 0;
        while i < self.pieces.len()
            invariant
                i <= self.pieces@.len(),
                pieces@.len() == i,
                forall|j: int| 0 <= j < i ==> (#[trigger] pieces@[j])@ == self.pieces@[j]@,
            decreases self.pieces@.len() - i,
        {
            pieces.push(self.pieces[i].duplicate());
            i += 1;
        }
        let r = PuzzleState { ty: self.ty, pieces };
        assert(r@ =~= self@);
        r
    }

    /// Returns the puzzle type.
    pub fn ty(&self) -> (r: PuzzleType)
        ensures
            r == self.spec_ty(),
    {
        self.ty
    }

    /// Returns the orientation of the piece numbered `pos`.
    pub fn get_piece(&self, pos: usize) -> (r: &Orientation)
        requires
            self.wf(),
            pos < self.spec_ty().spec_piece_count(),
        ensures
            r@ == self@[pos as int],
    {
        &self.pieces[pos]
    }

    /// Returns the face whose colour the sticker currently shows.
    pub fn get_sticker(&self, pos: Sticker) -> (r: Face)
        requires
            self.wf(),
            self.spec_ty().has_sticker(pos),
        ensures
            r == sticker_face(self@[pos.piece as int], pos.face),
    {
        assert(self@[pos.piece as int] == self.pieces@[pos.piece as int]@);
        let (axis, positive) = self.pieces[pos.piece].source_of(pos.face.axis, pos.face.positive);
        Face { axis, positive }
    }

    /// Returns whether every piece is in the solved orientation.
    pub fn is_solved(&self) -> (r: bool)
        requires
            self.wf(),
        ensures
            r == (self@ == solved(self.spec_ty())),
    {
        let mut i: usize = 0;
        while i < self.pieces.len()
            invariant
                self.wf(),
                i <= self.pieces@.len(),
                forall|j: int| 0 <= j < i ==> self@[j] == SignedPerm::identity(self.ty.dim as nat),
            decreases self.pieces@.len() - i,
        {
            if !self.pieces[i].is_identity() {
                assert(self@[i as int] != solved(self.ty)[i as int]);
                return false;
            }
            i += 1;
        }
        assert(self@ =~= solved(self.ty));
        true
    }

    /// Returns whether two states are of the same type and equal.
    pub fn equals(&self, other: &PuzzleState) -> (r: bool)
        ensures
            r == (self.spec_ty() == other.spec_ty() && self@ == other@),
    {
        if self.ty != other.ty || self.pieces.len() != other.pieces.len() {
            proof {
                if self@ == other@ {
                    assert(self@.len() == other@.len());
                }
            }
            return false;
        }
        let mut i: usize = 0;
        while i < self.pieces.len()
            invariant
                self.pieces@.len() == other.pieces@.len(),
                i <= self.pieces@.len(),
                forall|j: int| 0 <= j < i ==> self@[j] == other@[j],
            decreases self.pieces@.len() - i,
        {
            if !self.pieces[i].equals(&other.pieces[i]) {
                assert(self@[i as int] != other@[i as int]);
                return false;
            }
            i += 1;
        }
        assert(self@ =~= other@);
        true
    }

    fn swap_with(&mut self, pos1: usize, pos2: usize, rot: &Orientation, rot_rev: &Orientation)
        requires
            old(self).wf(),
            pos1 < old(self).spec_ty().spec_piece_count(),
            pos2 < old(self).spec_ty().spec_piece_count(),
            rot@.wf(),
            rot@.dim() == old(self).spec_ty().dim,
            rot_rev@ == rot@.inverse(),
        ensures
            final(self).wf(),
            final(self).spec_ty() == old(self).spec_ty(),
            final(self)@ == swap_spec(old(self)@, pos1 as int, pos2 as int, rot@),
    {
        proof {
            lemma_inverse_wf(rot@);
        }
        assert(self@[pos2 as int] == self.pieces@[pos2 as int]@);
        assert(self@[pos1 as int] == self.pieces@[pos1 as int]@);
        let a = rot.mul(&self.pieces[pos2]);
        let b = rot_rev.mul(&self.pieces[pos1]);
        let ghost before = self@;
        self.pieces.set(pos1, a);
        self.pieces.set(pos2, b);
        assert(self@ =~= swap_spec(before, pos1 as int, pos2 as int, rot@));
    }

    /// Exchanges two pieces: the piece at `pos2` turned by `rot` goes to
    /// `pos1`, and the piece at `pos1` turned by `rot⁻¹` goes to `pos2`.
    pub fn swap(&mut self, pos1: usize, pos2: usize, rot: &Orientation)
        requires
            old(self).wf(),
            pos1 < old(self).spec_ty().spec_piece_count(),
            pos2 < old(self).spec_ty().spec_piece_count(),
            rot@.wf(),
            rot@.dim() == old(self).spec_ty().dim,
        ensures
            final(self).wf(),
            final(self).spec_ty() == old(self).spec_ty(),
            final(self)@ == swap_spec(old(self)@, pos1 as int, pos2 as int, rot@),
    {
        let rot_rev = rot.rev();
        self.swap_with(pos1, pos2, rot, &rot_rev);
    }
}


/// Walks the cycle of each seed under `r`, and returns the cycles if they
/// are disjoint. A walk stops as soon as it reaches a piece that an earlier
/// walk, or itself, already visited.
fn find_orbits(ty: PuzzleType, r: &Orientation, seeds: &Vec<usize>) -> (res: Option<Vec<Vec<usize>>>)
    requires
        ty.wf(),
        r@.wf(),
        r@.dim() == ty.dim,
        forall|i: int| 0 <= i < seeds@.len() ==> #[trigger] seeds@[i] < ty.spec_piece_count(),
    ensures
        res.is_some() <==> orbits_exist(ty, r@, ints(seeds@)),
        res.is_some() ==> orbits_ok(ty, r@, ints(seeds@), orbits_view(res.unwrap()@)),
{
    {
        let count = ty.piece_count();
        let ghost rv = r@;
        let ghost sv = ints(seeds@);
        let mut visited: Vec<bool> = vec![false; count];
        let mut orbs: Vec<Vec<usize>> = Vec::new();
        let ghost mut seen: Set<int> = Set::empty();
        let ghost mut loc: Map<int, (int, int)> = Map::empty();
        proof {
            lemma_int_range(0, count as int);
        }
        let mut i: usize = 0;
        while i < seeds.len()
            invariant
                ty.wf(),
                rv == r@,
                rv.wf(),
                rv.dim() == ty.dim,
                sv == ints(seeds@),
                count as int == ty.spec_piece_count(),
                forall|k: int| 0 <= k < seeds@.len() ==> #[trigger] seeds@[k] < count,
                set_int_range(0, count as int).len() == count,
                set_int_range(0, count as int).finite(),
                i <= seeds@.len(),
                orbs@.len() == i,
                visited@.len() == count,
                seen.finite(),
                forall|x: int| #[trigger] seen.contains(x) ==> 0 <= x < count,
                forall|x: int| 0 <= x < count ==> (visited@[x] <==> #[trigger] seen.contains(x)),
                forall|k: int| 0 <= k < i ==> is_orbit(ty, rv, sv[k], #[trigger] orbits_view(orbs@)[k]),
                orbits_disjoint(orbits_view(orbs@)),
                forall|k: int, a: int|
                    0 <= k < i && 0 <= a < orbits_view(orbs@)[k].len() ==> seen.contains(
                        #[trigger] orbits_view(orbs@)[k][a],
                    ),
                forall|x: int|
                    #[trigger] seen.contains(x) ==> loc.contains_key(x) && 0 <= loc[x].0 < i && 0 <= loc[x].1
                        < orbits_view(orbs@)[loc[x].0].len() && orbits_view(orbs@)[loc[x].0][loc[x].1] == x,
            decreases seeds@.len() - i,
        {
            let ghost ov = orbits_view(orbs@);
            let s = seeds[i];
            assert(sv[i as int] == s as int);
            if visited[s] {
                proof {
                    assert(seen.contains(s as int));
                    if orbits_exist(ty, rv, sv) {
                        let o2 = orbits_of(ty, rv, sv);
                        let (k, a) = loc[s as int];
                        assert(is_orbit(ty, rv, sv[k], ov[k]));
                        assert(is_orbit(ty, rv, sv[k], o2[k]));
                        lemma_orbit_unique(ty, rv, sv[k], ov[k], o2[k]);
                        assert(is_orbit(ty, rv, sv[i as int], o2[i as int]));
                        assert(o2[i as int][0] == s);
                        assert(o2[k][a] == s);
                    }
                }
                return None;
            }
            visited.set(s, true);
            proof {
                seen = seen.insert(s as int);
                loc = loc.insert(s as int, (i as int, 0int));
                assert(seen.subset_of(set_int_range(0, count as int)));
                lemma_len_subset(seen, set_int_range(0, count as int));
            }
            let mut cur: Vec<usize> = Vec::new();
            cur.push(s);
            let mut coords = ty.piece_coords(s);
            let mut closed = false;
            while !closed
                invariant
                    ty.wf(),
                    rv == r@,
                    rv.wf(),
                    rv.dim() == ty.dim,
                    sv == ints(seeds@),
                    count as int == ty.spec_piece_count(),
                    set_int_range(0, count as int).len() == count,
                    set_int_range(0, count as int).finite(),
                    seen.len() <= count,
                set_int_range(0, count as int).finite(),
                    i < seeds@.len(),
                    s < count,
                    sv[i as int] == s,
                    orbs@.len() == i,
                    ov == orbits_view(orbs@),
                    visited@.len() == count,
                    seen.finite(),
                    forall|x: int| #[trigger] seen.contains(x) ==> 0 <= x < count,
                    forall|x: int| 0 <= x < count ==> (visited@[x] <==> #[trigger] seen.contains(x)),
                    forall|k: int| 0 <= k < i ==> is_orbit(ty, rv, sv[k], #[trigger] ov[k]),
                    orbits_disjoint(ov),
                    forall|k: int, a: int| 0 <= k < i && 0 <= a < ov[k].len() ==> seen.contains(#[trigger] ov[k][a]),
                    cur@.len() >= 1,
                    cur@[0] == s,
                    forall|j: int| 0 <= j < cur@.len() ==> #[trigger] cur@[j] as int == iterate(ty, rv, s as int, j as nat),
                    ints(cur@).no_duplicates(),
                    forall|j: int| 0 <= j < cur@.len() ==> seen.contains(#[trigger] cur@[j] as int),
                    forall|j: int, k: int, a: int|
                        0 <= j < cur@.len() && 0 <= k < i && 0 <= a < ov[k].len() ==> #[trigger] cur@[j] as int
                            != #[trigger] ov[k][a],
                    ints(coords@) == ty.coords(cur@.last() as int),
                    coords@.len() == ty.dim,
                    crate::orientation::in_layers(ints(coords@), ty.layers as int),
                    closed ==> iterate(ty, rv, s as int, cur@.len() as nat) == s,
                    forall|x: int|
                        #[trigger] seen.contains(x) ==> loc.contains_key(x) && ((0 <= loc[x].0 < i && 0 <= loc[x].1
                            < ov[loc[x].0].len() && ov[loc[x].0][loc[x].1] == x) || (loc[x].0 == i && 0 <= loc[x].1
                            < cur@.len() && cur@[loc[x].1] == x)),
                decreases count - seen.len(), if closed { 0int } else { 1int },
            {
                let next_coords = r.act(&coords, ty.layers);
                let next = ty.piece_index(&next_coords);
                let ghost m = cur@.len();
                assert(next as int == iterate(ty, rv, s as int, m as nat)) by {
                    assert(cur@[m - 1] as int == iterate(ty, rv, s as int, (m - 1) as nat));
                }
                if next == s {
                    closed = true;
                } else if visited[next] {
                    proof {
                        assert(seen.contains(next as int));
                        // no walk from s comes back to s within m steps
                        assert forall|j: int| 1 <= j <= m implies #[trigger] iterate(ty, rv, s as int, j as nat) != s by {
                            if j < m {
                                assert(ints(cur@)[j] != ints(cur@)[0]);
                            }
                        }
                        if orbits_exist(ty, rv, sv) {
                            let o2 = orbits_of(ty, rv, sv);
                            let oi = o2[i as int];
                            assert(is_orbit(ty, rv, sv[i as int], oi));
                            let l = oi.len();
                            assert(iterate(ty, rv, s as int, l) == s);
                            if l <= m {
                                let lj = l as int;
                                assert(iterate(ty, rv, s as int, lj as nat) != s);
                            }
                            assert(l > m);
                            assert(oi[m as int] == next);
                            let (k, a) = loc[next as int];
                            if k == i {
                                assert(oi[a] == iterate(ty, rv, s as int, a as nat));
                                assert(oi[a] == oi[m as int]);
                            } else {
                                assert(is_orbit(ty, rv, sv[k], ov[k]));
                                assert(is_orbit(ty, rv, sv[k], o2[k]));
                                lemma_orbit_unique(ty, rv, sv[k], ov[k], o2[k]);
                                assert(o2[k][a] == next);
                            }
                        }
                    }
                    return None;
                } else {
                    proof {
                        assert(!seen.contains(next as int));
                        seen = seen.insert(next as int);
                        loc = loc.insert(next as int, (i as int, m as int));
                    }
                    visited.set(next, true);
                    let ghost before = cur@;
                    cur.push(next);
                    assert(ints(cur@) =~= ints(before).push(next as int));
                    assert forall|j: int, k: int, a: int|
                        0 <= j < cur@.len() && 0 <= k < i && 0 <= a < ov[k].len() implies #[trigger] cur@[j] as int
                            != #[trigger] ov[k][a] by {
                        if j == m {
                            assert(seen.contains(ov[k][a]));
                        } else {
                            assert(cur@[j] == before[j]);
                        }
                    }
                    coords = next_coords;
                    proof {
                        assert(seen.subset_of(set_int_range(0, count as int)));
                        lemma_len_subset(seen, set_int_range(0, count as int));
                    }
                }
            }
            let ghost cv = ints(cur@);
            assert(is_orbit(ty, rv, s as int, cv));
            orbs.push(cur);
            let ghost nv = orbits_view(orbs@);
            assert(nv =~= ov.push(cv));
            assert(orbits_disjoint(nv)) by {
                assert forall|k: int, k2: int, a: int, b: int|
                    0 <= k < nv.len() && 0 <= k2 < nv.len() && k != k2 && 0 <= a < nv[k].len() && 0 <= b
                        < nv[k2].len() implies #[trigger] nv[k][a] != #[trigger] nv[k2][b] by {
                    if k == i {
                        assert(cv[a] == cur@[a] as int);
                    } else if k2 == i {
                        assert(cv[b] == cur@[b] as int);
                    }
                }
            }
            assert forall|k: int| 0 <= k < i + 1 implies is_orbit(ty, rv, sv[k], #[trigger] nv[k]) by {
                if k < i {
                    assert(nv[k] == ov[k]);
                }
            }
            assert forall|k: int, a: int| 0 <= k < i + 1 && 0 <= a < nv[k].len() implies seen.contains(
                #[trigger] nv[k][a],
            ) by {
                if k == i {
                    assert(nv[k][a] == cur@[a] as int);
                } else {
                    assert(nv[k] == ov[k]);
                }
            }
            i += 1;
        }
        assert(orbits_ok(ty, rv, sv, orbits_view(orbs@)));
        Some(orbs)
    }
}


impl PuzzleState {
    /// Runs the cycles one after the other, each as a chain of swaps.
    fn apply_cycles(&mut self, orbs: &Vec<Vec<usize>>, rot: &Orientation)
        requires
            old(self).wf(),
            rot@.wf(),
            rot@.dim() == old(self).spec_ty().dim,
            orbits_shaped(old(self).spec_ty(), orbits_view(orbs@)),
        ensures
            final(self).wf(),
            final(self).spec_ty() == old(self).spec_ty(),
            final(self)@ == cycles_spec(old(self)@, orbits_view(orbs@), rot@),
    {
        let ghost start = self@;
        let ghost ov = orbits_view(orbs@);
        let rot_rev = rot.rev();
        let mut i: usize = 0;
        while i < orbs.len()
            invariant
                self.wf(),
                self.spec_ty() == old(self).spec_ty(),
                start == old(self)@,
                ov == orbits_view(orbs@),
                rot@.wf(),
                rot@.dim() == self.spec_ty().dim,
                rot_rev@ == rot@.inverse(),
                orbits_shaped(self.spec_ty(), ov),
                i <= orbs@.len(),
                self@ == cycles_spec(start, ov.take(i as int), rot@),
            decreases orbs@.len() - i,
        {
            let orb = &orbs[i];
            let ghost o = ov[i as int];
            assert(o == ints(orb@));
            assert(orbit_in_range(self.spec_ty(), o));
            let ghost base = self@;
            let mut j: usize = 1;
            while j < orb.len()
                invariant
                    self.wf(),
                    self.spec_ty() == old(self).spec_ty(),
                    rot@.wf(),
                    rot@.dim() == self.spec_ty().dim,
                    rot_rev@ == rot@.inverse(),
                    o == ints(orb@),
                    orbit_in_range(self.spec_ty(), o),
                    1 <= j <= orb@.len(),
                    self@ == cycle_upto(base, o, rot@, j as int),
                decreases orb@.len() - j,
            {
                assert(o[j as int] == orb@[j as int] as int);
                assert(o[j - 1] == orb@[j - 1] as int);
                assert(0 <= o[j as int] < self.spec_ty().spec_piece_count());
                assert(0 <= o[j - 1] < self.spec_ty().spec_piece_count());
                self.swap_with(orb[j], orb[j - 1], rot, &rot_rev);
                j += 1;
            }
            assert(ov.take(i + 1).drop_last() =~= ov.take(i as int));
            assert(ov.take(i + 1).last() == o);
            i += 1;
        }
        assert(ov.take(orbs@.len() as int) =~= ov);
    }

    /// Cycles the pieces reached from `start` by repeated `rot⁻¹`: each
    /// piece of the cycle goes one step along it, turned by `rot`. Fails,
    /// leaving the state as it was, if `start` is not a piece.
    pub fn cycle(&mut self, start: usize, rot: &Orientation) -> (res: Result<(), TwistError>)
        requires
            old(self).wf(),
            rot@.wf(),
            rot@.dim() == old(self).spec_ty().dim,
        ensures
            final(self).wf(),
            final(self).spec_ty() == old(self).spec_ty(),
            res.is_ok() <==> start < old(self).spec_ty().spec_piece_count() && orbits_exist(
                old(self).spec_ty(),
                rot@.inverse(),
                seq![start as int],
            ),
            res.is_ok() ==> final(self)@ == cycles_spec(
                old(self)@,
                orbits_of(old(self).spec_ty(), rot@.inverse(), seq![start as int]),
                rot@.inverse(),
            ),
            res.is_err() ==> final(self)@ == old(self)@,
    {
        let count = self.ty.piece_count();
        if start >= count {
            return Err(TwistError::Unsupported);
        }
        let walk = rot.rev();
        proof {
            lemma_inverse_wf(rot@);
        }
        let seeds = vec![start];
        assert(ints(seeds@) =~= seq![start as int]);
        match find_orbits(self.ty, &walk, &seeds) {
            None => Err(TwistError::OverlappingCycles),
            Some(orbs) => {
                let ghost ov = orbits_view(orbs@);
                proof {
                    lemma_orbits_unique(self.ty, walk@, seq![start as int], ov, orbits_of(self.ty, walk@, seq![start as int]));
                    lemma_orbits_shaped(self.ty, walk@, seq![start as int], ov);
                }
                self.apply_cycles(&orbs, &walk);
                Ok(())
            },
        }
    }

    /// Applies a twist to this puzzle: for each of its seeds, cycles the
    /// pieces of the seed's cycle by the twist's rotation. Fails, leaving the
    /// state as it was, exactly when the twist names an axis or a layer that
    /// the puzzle type does not have.
    pub fn twist(&mut self, t: Twist) -> (res: Result<(), TwistError>)
        requires
            old(self).wf(),
        ensures
            final(self).wf(),
            final(self).spec_ty() == old(self).spec_ty(),
            res.is_ok() <==> old(self).spec_ty().twist_valid(t),
            res.is_ok() ==> twist_defined(old(self).spec_ty(), t),
            res.is_err() ==> res == Err::<(), TwistError>(TwistError::Unsupported),
            res.is_ok() ==> final(self)@ == apply_twist(old(self).spec_ty(), old(self)@, t),
            res.is_err() ==> final(self)@ == old(self)@,
    {
        if !self.ty.is_twist_valid(t) {
            return Err(TwistError::Unsupported);
        }
        proof {
            lemma_valid_twist_defined(self.ty, t);
        }
        let rot = self.ty.rotation_of(t);
        let walk = rot.rev();
        let seeds = self.ty.initial_pieces(t);
        proof {
            lemma_inverse_wf(rot@);
            crate::topology::lemma_seeds_below_range(self.ty, t, self.ty.spec_piece_count());
            assert forall|i: int| 0 <= i < seeds@.len() implies #[trigger] seeds@[i] < self.ty.spec_piece_count() by {
                assert(ints(seeds@)[i] == seeds@[i] as int);
            }
        }
        match find_orbits(self.ty, &walk, &seeds) {
            None => Err(TwistError::OverlappingCycles),
            Some(orbs) => {
                let ghost ov = orbits_view(orbs@);
                let ghost sv = ints(seeds@);
                proof {
                    lemma_orbits_unique(self.ty, walk@, sv, ov, orbits_of(self.ty, walk@, sv));
                    assert forall|i: int| 0 <= i < sv.len() implies 0 <= #[trigger] sv[i] < self.ty.spec_piece_count() by {}
                    lemma_orbits_shaped(self.ty, walk@, sv, ov);
                }
                self.apply_cycles(&orbs, &walk);
                Ok(())
            },
        }
    }
}


/// The reverse of a twist that can be applied can be applied too.
pub proof fn lemma_rev_defined(ty: PuzzleType, t: Twist)
    requires
        ty.wf(),
        twist_defined(ty, t),
    ensures
        twist_defined(ty, t.spec_rev()),
{
    let r = ty.rotation(t);
    crate::topology::lemma_rev_twist(ty, t);
    crate::topology::lemma_seeds_below_range(ty, t, ty.spec_piece_count());
    lemma_inverse_wf(r);
    lemma_inverse_involutive(r);
    let xs = twist_orbits(ty, t);
    lemma_reverse_orbits(ty, r, ty.seeds(t), xs);
    assert(ty.rotation(t.spec_rev()).inverse() == r);
}

/// Applying the twists `ts` in order.
pub open spec fn apply_seq(ty: PuzzleType, st: Seq<SignedPerm>, ts: Seq<Twist>) -> Seq<SignedPerm>
    decreases ts.len(),
{
    if ts.len() == 0 {
        st
    } else {
        apply_twist(ty, apply_seq(ty, st, ts.drop_last()), ts.last())
    }
}

/// Every twist of `ts` can be applied.
pub open spec fn all_defined(ty: PuzzleType, ts: Seq<Twist>) -> bool {
    forall|i: int| 0 <= i < ts.len() ==> twist_defined(ty, #[trigger] ts[i])
}

/// Applying a twist that can be applied keeps a state well formed.
pub proof fn lemma_apply_twist_wf(ty: PuzzleType, st: Seq<SignedPerm>, t: Twist)
    requires
        ty.wf(),
        states_wf(ty, st),
        twist_defined(ty, t),
    ensures
        states_wf(ty, apply_twist(ty, st, t)),
{
    let r = ty.rotation(t);
    crate::topology::lemma_rev_twist(ty, t);
    crate::topology::lemma_seeds_below_range(ty, t, ty.spec_piece_count());
    lemma_inverse_wf(r);
    let xs = twist_orbits(ty, t);
    lemma_orbits_shaped(ty, r.inverse(), ty.seeds(t), xs);
    lemma_cycles(ty, st, xs, r.inverse());
}

/// Applying twists that can be applied keeps a state well formed.
pub proof fn lemma_apply_seq_wf(ty: PuzzleType, st: Seq<SignedPerm>, ts: Seq<Twist>)
    requires
        ty.wf(),
        states_wf(ty, st),
        all_defined(ty, ts),
    ensures
        states_wf(ty, apply_seq(ty, st, ts)),
    decreases ts.len(),
{
    if ts.len() > 0 {
        assert(all_defined(ty, ts.drop_last())) by {
            assert forall|i: int| 0 <= i < ts.drop_last().len() implies twist_defined(ty, #[trigger] ts.drop_last()[i]) by {
                assert(ts.drop_last()[i] == ts[i]);
            }
        }
        lemma_apply_seq_wf(ty, st, ts.drop_last());
        assert(twist_defined(ty, ts[ts.len() - 1]));
        lemma_apply_twist_wf(ty, apply_seq(ty, st, ts.drop_last()), ts.last());
    }
}

/// Applying `ts` and then `t` is applying `ts` with `t` pushed.
pub proof fn lemma_apply_seq_push(ty: PuzzleType, st: Seq<SignedPerm>, ts: Seq<Twist>, t: Twist)
    ensures
        apply_seq(ty, st, ts.push(t)) == apply_twist(ty, apply_seq(ty, st, ts), t),
{
    assert(ts.push(t).drop_last() =~= ts);
}

/// Applying the first twist of `ts` and then the rest is applying `ts`.
pub proof fn lemma_apply_seq_first(ty: PuzzleType, st: Seq<SignedPerm>, ts: Seq<Twist>)
    requires
        ts.len() > 0,
    ensures
        apply_seq(ty, apply_twist(ty, st, ts[0]), ts.drop_first()) == apply_seq(ty, st, ts),
    decreases ts.len(),
{
    let a = apply_twist(ty, st, ts[0]);
    if ts.len() == 1 {
        assert(ts.drop_first() =~= Seq::<Twist>::empty());
        assert(ts.drop_last() =~= Seq::<Twist>::empty());
        assert(apply_seq(ty, st, ts.drop_last()) == st);
        assert(apply_seq(ty, a, ts.drop_first()) == a);
    } else {
        lemma_apply_seq_first(ty, st, ts.drop_last());
        assert(ts.drop_last().drop_first() =~= ts.drop_first().drop_last());
        assert(ts.drop_last()[0] == ts[0]);
        assert(ts.drop_first().last() == ts.last());
        assert(apply_seq(ty, a, ts.drop_first()) == apply_twist(ty, apply_seq(ty, a, ts.drop_first().drop_last()), ts.drop_first().last()));
    }
}


/// The solved state is a state of the type.
pub proof fn lemma_solved_wf(ty: PuzzleType)
    requires
        ty.wf(),
    ensures
        states_wf(ty, solved(ty)),
{
    ty.lemma_counts();
    lemma_identity_wf(ty.dim as nat);
}

/// Walking `j` steps by `r` is acting once by `r^j`.
pub proof fn lemma_iterate_pow(ty: PuzzleType, r: SignedPerm, p: int, j: nat)
    requires
        ty.wf(),
        r.wf(),
        r.dim() == ty.dim,
        0 <= p < ty.spec_piece_count(),
    ensures
        iterate(ty, r, p, j) == ty.index(r.pow(j).act(ty.coords(p), ty.layers as int)),
    decreases j,
{
    let n = ty.layers as int;
    let k = ty.coords(p);
    crate::topology::lemma_decode_in_layers(p, n, ty.dim as nat);
    if j == 0 {
        crate::orientation::lemma_act_identity(k, n);
        crate::topology::lemma_encode_decode(p, n, ty.dim as nat);
    } else {
        let j1 = (j - 1) as nat;
        lemma_iterate_pow(ty, r, p, j1);
        lemma_pow_wf(r, j1);
        let k1 = r.pow(j1).act(k, n);
        crate::orientation::lemma_act_in_layers(r.pow(j1), k, n);
        crate::topology::lemma_decode_encode(k1, n);
        crate::orientation::lemma_act_compose(r, r.pow(j1), k, n);
    }
}

/// A cycle of a quarter turn has one piece or four.
proof fn lemma_quarter_orbit_len(ty: PuzzleType, t: Twist, s: int, orb: Seq<int>)
    requires
        ty.wf(),
        ty.twist_valid(t),
        0 <= s < ty.spec_piece_count(),
        is_orbit(ty, ty.rotation(t).inverse(), s, orb),
    ensures
        orb.len() == 1 || orb.len() == 4,
{
    let n = ty.layers as int;
    let d = ty.dim as nat;
    let f = t.from as int;
    let g = t.to as int;
    let m = t.direction == crate::common::TwistDirection::CCW;
    crate::topology::lemma_rev_twist(ty, t);
    crate::orientation::lemma_quarter_turn_wf(d, f, g, m);
    let rp = SignedPerm::quarter_turn(d, f, g, !m);
    assert(ty.rotation(t).inverse() == rp);
    crate::orientation::lemma_quarter_turn_wf(d, f, g, !m);
    crate::orientation::lemma_quarter_turn_powers(d, f, g, !m);
    let k = ty.coords(s);
    crate::topology::lemma_decode_in_layers(s, n, d);
    // four steps come back
    lemma_iterate_pow(ty, rp, s, 4);
    crate::orientation::lemma_act_identity(k, n);
    crate::topology::lemma_encode_decode(s, n, d);
    assert(iterate(ty, rp, s, 4) == s);
    let l = orb.len();
    if l > 4 {
        assert(orb[4] == orb[0]);
    } else if l == 3 {
        assert(iterate(ty, rp, s, 3) == s);
        assert(iterate(ty, rp, s, 4) == ty.act_index(rp, iterate(ty, rp, s, 3)));
        assert(iterate(ty, rp, s, 1) == ty.act_index(rp, iterate(ty, rp, s, 0)));
        assert(orb[1] == orb[0]);
    } else if l == 2 {
        // a piece that a half turn fixes is at the centre of the plane
        assert(iterate(ty, rp, s, 2) == s);
        lemma_iterate_pow(ty, rp, s, 2);
        let h = crate::orientation::half_turn(d, f, g);
        let hk = h.act(k, n);
        lemma_pow_wf(rp, 2);
        crate::orientation::lemma_act_in_layers(rp.pow(2), k, n);
        crate::topology::lemma_decode_encode(hk, n);
        crate::topology::lemma_decode_encode(k, n);
        crate::topology::lemma_encode_decode(s, n, d);
        assert(ty.index(hk) == ty.index(k));
        assert(hk == k);
        assert(hk[f] == n - 1 - k[f]);
        assert(hk[g] == n - 1 - k[g]);
        let k1 = rp.act(k, n);
        assert(k1 =~= k);
        assert(iterate(ty, rp, s, 1) == ty.act_index(rp, iterate(ty, rp, s, 0)));
        assert(orb[1] == orb[0]);
    }
}

/// Every twist of these puzzle types that can be applied turns each of its
/// cycles round to the identity.
pub proof fn lemma_defined_reversible(ty: PuzzleType, t: Twist)
    requires
        ty.wf(),
        twist_defined(ty, t),
    ensures
        twist_reversible(ty, t),
{
    let r = ty.rotation(t);
    let xs = twist_orbits(ty, t);
    let d = ty.dim as nat;
    crate::topology::lemma_rev_twist(ty, t);
    crate::topology::lemma_seeds_below_range(ty, t, ty.spec_piece_count());
    crate::orientation::lemma_quarter_turn_powers(
        d,
        t.from as int,
        t.to as int,
        t.direction == crate::common::TwistDirection::CCW,
    );
    assert forall|i: int| 0 <= i < xs.len() && #[trigger] xs[i].len() >= 2 implies r.pow(xs[i].len())
        == SignedPerm::identity(d) by {
        let seeds = ty.seeds(t);
        assert(is_orbit(ty, r.inverse(), seeds[i], xs[i]));
        lemma_quarter_orbit_len(ty, t, seeds[i], xs[i]);
    }
}

/// Applying a twist and then its reverse gives back any state.
pub proof fn lemma_twist_round_trip(ty: PuzzleType, st: Seq<SignedPerm>, t: Twist)
    requires
        ty.wf(),
        states_wf(ty, st),
        ty.twist_valid(t),
    ensures
        twist_defined(ty, t.spec_rev()),
        apply_twist(ty, apply_twist(ty, st, t), t.spec_rev()) == st,
{
    lemma_valid_twist_defined(ty, t);
    lemma_defined_reversible(ty, t);
    lemma_twist_then_rev(ty, st, t);
}

/// A twist and then its reverse leave a solved puzzle solved.
pub proof fn lemma_solved_round_trip(ty: PuzzleType, t: Twist)
    requires
        ty.wf(),
        ty.twist_valid(t),
    ensures
        apply_twist(ty, apply_twist(ty, solved(ty), t), t.spec_rev()) == solved(ty),
{
    lemma_solved_wf(ty);
    lemma_twist_round_trip(ty, solved(ty), t);
}


impl PuzzleType {
    /// Returns the pieces that the twist moves: for each seed, the seed and
    /// then the pieces reached from it by the twist's rotation, until the
    /// walk comes back to the seed. `None` exactly when the twist does not
    /// fit the puzzle type.
    pub fn twist_pieces(&self, t: Twist) -> (r: Option<Vec<usize>>)
        requires
            self.wf(),
        ensures
            r.is_some() <==> self.twist_valid(t),
            r.is_some() ==> orbits_exist(*self, self.rotation(t), self.seeds(t)),
            r.is_some() ==> ints(r.unwrap()@) == orbits_of(*self, self.rotation(t), self.seeds(t)).flatten(),
    {
        if !self.is_twist_valid(t) {
            return None;
        }
        proof {
            lemma_valid_twist_defined(*self, t);
            crate::topology::lemma_rev_twist(*self, t);
            crate::topology::lemma_seeds_below_range(*self, t, self.spec_piece_count());
            let xs = twist_orbits(*self, t);
            lemma_reverse_orbits(*self, self.rotation(t), self.seeds(t), xs);
        }
        let rot = self.rotation_of(t);
        let seeds = self.initial_pieces(t);
        proof {
            crate::topology::lemma_seeds_below_range(*self, t, self.spec_piece_count());
            assert forall|i: int| 0 <= i < seeds@.len() implies #[trigger] seeds@[i] < self.spec_piece_count() by {
                assert(ints(seeds@)[i] == seeds@[i] as int);
            }
        }
        match find_orbits(*self, &rot, &seeds) {
            None => None,
            Some(orbs) => {
                let ghost ov = orbits_view(orbs@);
                proof {
                    lemma_orbits_unique(*self, rot@, ints(seeds@), ov, orbits_of(*self, rot@, ints(seeds@)));
                }
                let mut out: Vec<usize> = Vec::new();
                let mut i: usize = 0;
                while i < orbs.len()
                    invariant
                        ov == orbits_view(orbs@),
                        i <= orbs@.len(),
                        ints(out@) == ov.subrange(0, i as int).flatten(),
                    decreases orbs@.len() - i,
                {
                    let orb = &orbs[i];
                    let ghost before = out@;
                    let mut j: usize = 0;
                    while j < orb.len()
                        invariant
                            j <= orb@.len(),
                            out@ == before + orb@.subrange(0, j as int),
                        decreases orb@.len() - j,
                    {
                        out.push(orb[j]);
                        j += 1;
                        assert(out@ =~= before + orb@.subrange(0, j as int));
                    }
                    proof {
                        assert(orb@.subrange(0, j as int) =~= orb@);
                        assert(ints(out@) =~= ints(before) + ints(orb@));
                        assert(ov[i as int] == ints(orb@));
                        assert(ov.subrange(0, i + 1) =~= ov.subrange(0, i as int).push(ov[i as int]));
                        ov.subrange(0, i as int).lemma_flatten_push(ov[i as int]);
                    }
                    i += 1;
                }
                assert(ov.subrange(0, orbs@.len() as int) =~= ov);
                Some(out)
            },
        }
    }

    /// Returns the stickers that the twist moves: the stickers of each of
    /// its pieces, in order.
    pub fn twist_stickers(&self, t: Twist) -> (r: Option<Vec<Sticker>>)
        requires
            self.wf(),
        ensures
            r.is_some() <==> self.twist_valid(t),
            r.is_some() ==> r.unwrap()@ == orbits_of(*self, self.rotation(t), self.seeds(t)).flatten().map_values(
                |p: int| self.spec_piece_stickers(p),
            ).flatten(),
    {
        match self.twist_pieces(t) {
            None => None,
            Some(pieces) => {
                let ghost pv = ints(pieces@);
                let ghost all = pv.map_values(|p: int| self.spec_piece_stickers(p));
                proof {
                    crate::topology::lemma_rev_twist(*self, t);
                    crate::topology::lemma_seeds_below_range(*self, t, self.spec_piece_count());
                    let orbs = orbits_of(*self, self.rotation(t), self.seeds(t));
                    lemma_orbits_shaped(*self, self.rotation(t), self.seeds(t), orbs);
                    lemma_flatten_in_range(*self, orbs);
                }
                let mut out: Vec<Sticker> = Vec::new();
                let mut i: usize = 0;
                while i < pieces.len()
                    invariant
                        self.wf(),
                        pv == ints(pieces@),
                        all == pv.map_values(|p: int| self.spec_piece_stickers(p)),
                        forall|k: int| 0 <= k < pv.len() ==> 0 <= #[trigger] pv[k] < self.spec_piece_count(),
                        i <= pieces@.len(),
                        out@ == all.subrange(0, i as int).flatten(),
                    decreases pieces@.len() - i,
                {
                    assert(pv[i as int] == pieces@[i as int] as int);
                    let mut st = self.piece_stickers(pieces[i]);
                    let ghost before = out@;
                    out.append(&mut st);
                    proof {
                        assert(all.subrange(0, i + 1) =~= all.subrange(0, i as int).push(all[i as int]));
                        all.subrange(0, i as int).lemma_flatten_push(all[i as int]);
                    }
                    i += 1;
                }
                assert(all.subrange(0, pieces@.len() as int) =~= all);
                Some(out)
            },
        }
    }
}

/// Every piece of shaped cycles, one after the other, is a piece of the
/// puzzle.
proof fn lemma_flatten_in_range(ty: PuzzleType, orbs: Seq<Seq<int>>)
    requires
        orbits_shaped(ty, orbs),
    ensures
        forall|k: int| 0 <= k < orbs.flatten().len() ==> 0 <= #[trigger] orbs.flatten()[k] < ty.spec_piece_count(),
    decreases orbs.len(),
{
    if orbs.len() > 0 {
        let init = orbs.drop_last();
        assert(orbits_shaped(ty, init)) by {
            assert forall|i: int| 0 <= i < init.len() implies orbit_in_range(ty, #[trigger] init[i])
                && init[i].no_duplicates() && init[i].len() >= 1 by {
                assert(init[i] == orbs[i]);
            }
        }
        lemma_flatten_in_range(ty, init);
        assert(orbs =~= init.push(orbs.last()));
        init.lemma_flatten_push(orbs.last());
        assert(orbit_in_range(ty, orbs[orbs.len() - 1]));
        let f = orbs.flatten();
        assert forall|k: int| 0 <= k < f.len() implies 0 <= #[trigger] f[k] < ty.spec_piece_count() by {
            if k < init.flatten().len() {
                assert(f[k] == init.flatten()[k]);
            } else {
                assert(f[k] == orbs.last()[k - init.flatten().len()]);
            }
        }
    }
}


// ----- every valid twist can be applied -----

proof fn lemma_iterate_add(ty: PuzzleType, r: SignedPerm, p: int, a: nat, b: nat)
    ensures
        iterate(ty, r, iterate(ty, r, p, a), b) == iterate(ty, r, p, a + b),
    decreases b,
{
    if b > 0 {
        lemma_iterate_add(ty, r, p, a, (b - 1) as nat);
        assert((a + b - 1) as nat == a + (b - 1) as nat);
    }
}

/// The seeds of a twist are distinct pieces, each of which passes the
/// seed test.
proof fn lemma_seeds_are_seeds(ty: PuzzleType, t: Twist, m: int)
    ensures
        ty.seeds_below(t, m).no_duplicates(),
        forall|i: int| 0 <= i < ty.seeds_below(t, m).len() ==> ty.is_seed(t, ty.coords(#[trigger] ty.seeds_below(t, m)[i])),
        forall|i: int| 0 <= i < ty.seeds_below(t, m).len() ==> 0 <= #[trigger] ty.seeds_below(t, m)[i] < m,
    decreases m,
{
    if m > 0 {
        lemma_seeds_are_seeds(ty, t, m - 1);
        let s = ty.seeds_below(t, m - 1);
        let s2 = ty.seeds_below(t, m);
        assert forall|i: int| 0 <= i < s2.len() implies ty.is_seed(t, ty.coords(#[trigger] s2[i])) && 0 <= s2[i] < m by {
            if i < s.len() {
                assert(s2[i] == s[i]);
            }
        }
        assert forall|i: int, j: int| 0 <= i < s2.len() && 0 <= j < s2.len() && i != j implies s2[i] != s2[j] by {
            if i < s.len() {
                assert(s2[i] == s[i]);
            }
            if j < s.len() {
                assert(s2[j] == s[j]);
            }
        }
    }
}

/// The first three rotations of a seed under a twist's walk are not seeds.
proof fn lemma_turned_seed(ty: PuzzleType, t: Twist, s: int, j: nat)
    requires
        ty.wf(),
        ty.twist_valid(t),
        0 <= s < ty.spec_piece_count(),
        ty.is_seed(t, ty.coords(s)),
        1 <= j <= 3,
    ensures
        !ty.is_seed(t, ty.coords(iterate(ty, ty.rotation(t).inverse(), s, j))),
        0 <= iterate(ty, ty.rotation(t).inverse(), s, j) < ty.spec_piece_count(),
{
    let n = ty.layers as int;
    let d = ty.dim as nat;
    let f = t.from as int;
    let g = t.to as int;
    let m = t.direction == crate::common::TwistDirection::CCW;
    crate::topology::lemma_rev_twist(ty, t);
    let rp = SignedPerm::quarter_turn(d, f, g, !m);
    assert(ty.rotation(t).inverse() == rp);
    crate::orientation::lemma_quarter_turn_wf(d, f, g, !m);
    lemma_iterate_range(ty, rp, s, j);
    let k = ty.coords(s);
    crate::topology::lemma_decode_in_layers(s, n, d);
    let p1 = iterate(ty, rp, s, 1);
    let p2 = iterate(ty, rp, s, 2);
    let p3 = iterate(ty, rp, s, 3);
    assert(iterate(ty, rp, s, 0) == s);
    lemma_iterate_range(ty, rp, s, 1);
    lemma_iterate_range(ty, rp, s, 2);
    let k1 = rp.act(k, n);
    crate::orientation::lemma_act_in_layers(rp, k, n);
    crate::topology::lemma_decode_encode(k1, n);
    assert(ty.coords(p1) == k1);
    let k2 = rp.act(k1, n);
    crate::orientation::lemma_act_in_layers(rp, k1, n);
    crate::topology::lemma_decode_encode(k2, n);
    assert(ty.coords(p2) == k2);
    let k3 = rp.act(k2, n);
    crate::orientation::lemma_act_in_layers(rp, k2, n);
    crate::topology::lemma_decode_encode(k3, n);
    assert(ty.coords(p3) == k3);
    let half = n / 2;
    assert(k[f] < n - half);
    assert(k[g] < half);
    if !m {
        assert(k1[f] == n - 1 - k[g]);
        assert(k2[f] == n - 1 - k1[g] && k1[g] == k[f]);
        assert(k3[g] == k2[f]);
    } else {
        assert(k1[g] == n - 1 - k[f]);
        assert(k2[g] == n - 1 - k1[f] && k1[f] == k[g]);
        assert(k3[f] == k2[g] && k2[g] == n - 1 - k[g]);
    }
}

/// The cycle of a seed: just the seed when the walk does not move it,
/// else the seed and its next three places.
pub open spec fn seed_orbit(ty: PuzzleType, r: SignedPerm, s: int) -> Seq<int> {
    if iterate(ty, r, s, 1) == s {
        seq![s]
    } else {
        seq![s, iterate(ty, r, s, 1), iterate(ty, r, s, 2), iterate(ty, r, s, 3)]
    }
}

proof fn lemma_seed_orbit(ty: PuzzleType, t: Twist, s: int)
    requires
        ty.wf(),
        ty.twist_valid(t),
        0 <= s < ty.spec_piece_count(),
    ensures
        is_orbit(ty, ty.rotation(t).inverse(), s, seed_orbit(ty, ty.rotation(t).inverse(), s)),
        iterate(ty, ty.rotation(t).inverse(), s, 4) == s,
        forall|j: int| 0 <= j < seed_orbit(ty, ty.rotation(t).inverse(), s).len() ==> #[trigger] seed_orbit(ty, ty.rotation(t).inverse(), s)[j] == iterate(ty, ty.rotation(t).inverse(), s, j as nat),
{
    let n = ty.layers as int;
    let d = ty.dim as nat;
    let f = t.from as int;
    let g = t.to as int;
    let m = t.direction == crate::common::TwistDirection::CCW;
    crate::topology::lemma_rev_twist(ty, t);
    let rp = SignedPerm::quarter_turn(d, f, g, !m);
    assert(ty.rotation(t).inverse() == rp);
    crate::orientation::lemma_quarter_turn_wf(d, f, g, !m);
    crate::orientation::lemma_quarter_turn_powers(d, f, g, !m);
    let k = ty.coords(s);
    crate::topology::lemma_decode_in_layers(s, n, d);
    lemma_iterate_pow(ty, rp, s, 4);
    crate::orientation::lemma_act_identity(k, n);
    crate::topology::lemma_encode_decode(s, n, d);
    assert(iterate(ty, rp, s, 4) == s);
    let i1 = iterate(ty, rp, s, 1);
    let i2 = iterate(ty, rp, s, 2);
    let i3 = iterate(ty, rp, s, 3);
    assert(iterate(ty, rp, s, 0) == s);
    lemma_iterate_range(ty, rp, s, 1);
    lemma_iterate_range(ty, rp, s, 2);
    lemma_iterate_range(ty, rp, s, 3);
    let o = seed_orbit(ty, rp, s);
    if i1 == s {
        assert(iterate(ty, rp, s, 1) == s);
    } else {
        // the walk is injective: equal images have equal preimages
        crate::orientation::lemma_inverse_involutive(SignedPerm::quarter_turn(d, f, g, m));
        assert(rp.inverse() == SignedPerm::quarter_turn(d, f, g, m));
        lemma_act_index_inverse(ty, rp, s);
        lemma_act_index_inverse(ty, rp, i1);
        lemma_act_index_inverse(ty, rp, i2);
        lemma_act_index_inverse(ty, rp, i3);
        assert(i2 != s) by {
            if i2 == s {
                // a piece that two steps bring back is fixed by one step
                lemma_iterate_pow(ty, rp, s, 2);
                let h = crate::orientation::half_turn(d, f, g);
                let hk = h.act(k, n);
                lemma_pow_wf(rp, 2);
                crate::orientation::lemma_act_in_layers(rp.pow(2), k, n);
                crate::topology::lemma_decode_encode(hk, n);
                crate::topology::lemma_decode_encode(k, n);
                assert(hk == k);
                assert(hk[f] == n - 1 - k[f]);
                assert(hk[g] == n - 1 - k[g]);
                assert(rp.act(k, n) =~= k);
            }
        }
        assert(i3 != s) by {
            if i3 == s {
                assert(iterate(ty, rp, s, 4) == ty.act_index(rp, i3));
            }
        }
        assert(i1 != i2);
        assert(i1 != i3);
        assert(i2 != i3);
        assert(o.no_duplicates());
    }
}

/// Every twist that names axes and layers of the puzzle type can be
/// applied: the cycles of its seeds are disjoint.
pub proof fn lemma_valid_twist_defined(ty: PuzzleType, t: Twist)
    requires
        ty.wf(),
        ty.twist_valid(t),
    ensures
        twist_defined(ty, t),
{
    let rp = ty.rotation(t).inverse();
    let seeds = ty.seeds(t);
    lemma_seeds_are_seeds(ty, t, ty.spec_piece_count());
    let orbs = seeds.map_values(|s: int| seed_orbit(ty, rp, s));
    crate::topology::lemma_rev_twist(ty, t);
    lemma_inverse_wf(ty.rotation(t));
    assert forall|i: int| 0 <= i < orbs.len() implies is_orbit(ty, rp, seeds[i], #[trigger] orbs[i]) by {
        lemma_seed_orbit(ty, t, seeds[i]);
    }
    assert forall|i: int, i2: int, a: int, b: int|
        0 <= i < orbs.len() && 0 <= i2 < orbs.len() && i != i2 && 0 <= a < orbs[i].len() && 0 <= b
            < orbs[i2].len() implies #[trigger] orbs[i][a] != #[trigger] orbs[i2][b] by {
        let s1 = seeds[i];
        let s2 = seeds[i2];
        lemma_seed_orbit(ty, t, s1);
        lemma_seed_orbit(ty, t, s2);
        if orbs[i][a] == orbs[i2][b] {
            // then s2 is reached from s1 in a + 4 - b steps
            assert(orbs[i][a] == iterate(ty, rp, s1, a as nat));
            assert(orbs[i2][b] == iterate(ty, rp, s2, b as nat));
            let back = (4 - b) as nat;
            lemma_iterate_add(ty, rp, s2, b as nat, back);
            lemma_iterate_add(ty, rp, s1, a as nat, back);
            assert(iterate(ty, rp, s1, (a + back) as nat) == s2);
            let c = (a + back) as nat;
            if c >= 4 {
                lemma_iterate_add(ty, rp, s1, 4, (c - 4) as nat);
                assert(iterate(ty, rp, s1, (c - 4) as nat) == s2);
            }
            let c2: nat = if c >= 4 { (c - 4) as nat } else { c };
            assert(iterate(ty, rp, s1, c2) == s2);
            if c2 == 0 {
                assert(s1 == s2);
            } else {
                lemma_turned_seed(ty, t, s1, c2);
            }
        }
    }
    assert(orbits_ok(ty, rp, seeds, orbs));
}


/// Every piece below `m` that passes the seed test is among the seeds.
proof fn lemma_seed_listed(ty: PuzzleType, t: Twist, m: int, x: int)
    requires
        0 <= x < m,
        ty.is_seed(t, ty.coords(x)),
    ensures
        exists|i: int| 0 <= i < ty.seeds_below(t, m).len() && #[trigger] ty.seeds_below(t, m)[i] == x,
    decreases m,
{
    let s = ty.seeds_below(t, m - 1);
    if x == m - 1 {
        assert(ty.seeds_below(t, m)[s.len() as int] == x);
    } else {
        lemma_seed_listed(ty, t, m - 1, x);
        let i = choose|i: int| 0 <= i < s.len() && #[trigger] s[i] == x;
        assert(ty.seeds_below(t, m)[i] == x);
    }
}

/// On a puzzle with two layers or more, a twist unsolves a solved puzzle:
/// the corner of its layers at the first layer of both turning axes is
/// turned.
pub proof fn lemma_twist_unsolves(ty: PuzzleType, t: Twist)
    requires
        ty.wf(),
        ty.layers >= 2,
        ty.twist_valid(t),
    ensures
        apply_twist(ty, solved(ty), t) != solved(ty),
{
    let n = ty.layers as int;
    let d = ty.dim as nat;
    let f = t.from as int;
    let g = t.to as int;
    let m = t.direction == crate::common::TwistDirection::CCW;
    let r = ty.rotation(t);
    let rp = r.inverse();
    crate::topology::lemma_rev_twist(ty, t);
    crate::orientation::lemma_quarter_turn_wf(d, f, g, !m);
    assert(rp == SignedPerm::quarter_turn(d, f, g, !m));
    lemma_inverse_wf(r);
    lemma_inverse_involutive(r);
    lemma_solved_wf(ty);
    // the seed: layer `layer_lo` along the axis, 0 elsewhere
    let k = Seq::new(d, |i: int| if i == t.axis as int { t.layer_lo as int } else { 0 });
    assert(crate::orientation::in_layers(k, n));
    crate::topology::lemma_encode_bound(k, n);
    crate::topology::lemma_decode_encode(k, n);
    let s = ty.index(k);
    assert(ty.coords(s) == k);
    assert(ty.is_seed(t, k));
    lemma_seed_listed(ty, t, ty.spec_piece_count(), s);
    let seeds = ty.seeds(t);
    let i = choose|i: int| 0 <= i < seeds.len() && #[trigger] seeds[i] == s;
    // its cycle has four pieces
    lemma_valid_twist_defined(ty, t);
    let xs = twist_orbits(ty, t);
    assert(orbits_ok(ty, rp, seeds, xs));
    lemma_seed_orbit(ty, t, s);
    assert(is_orbit(ty, rp, s, xs[i]));
    lemma_orbit_unique(ty, rp, s, xs[i], seed_orbit(ty, rp, s));
    let k1 = rp.act(k, n);
    crate::orientation::lemma_act_in_layers(rp, k, n);
    crate::topology::lemma_decode_encode(k1, n);
    assert(iterate(ty, rp, s, 0) == s);
    assert(iterate(ty, rp, s, 1) == ty.index(k1));
    if !m {
        assert(k1[f] == n - 1);
    } else {
        assert(k1[g] == n - 1);
    }
    assert(k1 != k);
    assert(iterate(ty, rp, s, 1) != s);
    assert(xs[i].len() == 4);
    // the seed ends up turned by the twist's rotation
    crate::topology::lemma_seeds_below_range(ty, t, ty.spec_piece_count());
    lemma_orbits_shaped(ty, rp, seeds, xs);
    lemma_cycles(ty, solved(ty), xs, rp);
    let after = apply_twist(ty, solved(ty), t);
    assert(xs[i][0] == s);
    assert(after[s] == cycle_value(solved(ty), xs[i], rp, 0));
    assert(0 <= xs[i][1] < ty.spec_piece_count());
    lemma_compose_identity(r);
    crate::orientation::lemma_quarter_turn_wf(d, f, g, m);
    assert(after[s] == r);
    assert(r.perm[f] == g);
    assert(SignedPerm::identity(d).perm[f] == f);
    assert(after[s] != solved(ty)[s]);
}

} // verus!
