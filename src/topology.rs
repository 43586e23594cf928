//! Puzzle topologies: `layers`-per-side cubes in `dim` dimensions.
//!
//! A piece is a position in the grid `0..layers` along every axis, given by
//! its vector of layers. Pieces are numbered in mixed radix, the first axis
//! being the least significant digit. A face is an axis and a side; a sticker
//! is a piece together with a face that the piece lies on.

use vstd::prelude::*;
use crate::orientation::{
    in_layers, ints, lemma_act_in_layers, lemma_act_inverse, lemma_quarter_turn_wf,
    Orientation, SignedPerm,
};
use crate::common::TwistDirection;

verus! {

/// The largest number of (piece, face) slots that a puzzle type may have.
pub const MAX_STICKER_SLOTS: usize = 1048576;

/// `n` to the power `d`.
pub open spec fn pow_nat(n: int, d: nat) -> int
    decreases d,
{
    if d == 0 {
        1
    } else {
        n * pow_nat(n, (d - 1) as nat)
    }
}

/// The number of a layer vector: the first coordinate is the least
/// significant digit in base `n`.
pub open spec fn encode(k: Seq<int>, n: int) -> int
    decreases k.len(),
{
    if k.len() == 0 {
        0
    } else {
        k[0] + n * encode(k.drop_first(), n)
    }
}

/// The `d` digits in base `n` of `x`, least significant first.
pub open spec fn decode(x: int, n: int, d: nat) -> Seq<int>
    decreases d,
{
    if d == 0 {
        Seq::empty()
    } else {
        seq![x % n].add(decode(x / n, n, (d - 1) as nat))
    }
}

pub proof fn lemma_pow_nat_positive(n: int, d: nat)
    requires
        n >= 1,
    ensures
        pow_nat(n, d) >= 1,
    decreases d,
{
    if d > 0 {
        lemma_pow_nat_positive(n, (d - 1) as nat);
        assert(n * pow_nat(n, (d - 1) as nat) >= 1) by (nonlinear_arith)
            requires
                n >= 1,
                pow_nat(n, (d - 1) as nat) >= 1,
        ;
    }
}

pub proof fn lemma_pow_nat_mono(n: int, a: nat, b: nat)
    requires
        n >= 1,
        a <= b,
    ensures
        pow_nat(n, a) <= pow_nat(n, b),
    decreases b,
{
    if a < b {
        lemma_pow_nat_mono(n, a, (b - 1) as nat);
        lemma_pow_nat_positive(n, (b - 1) as nat);
        let p = pow_nat(n, (b - 1) as nat);
        assert(p <= n * p) by (nonlinear_arith)
            requires
                n >= 1,
                p >= 1,
        ;
    }
}

/// The number of a layer vector is in range.
pub proof fn lemma_encode_bound(k: Seq<int>, n: int)
    requires
        n >= 1,
        in_layers(k, n),
    ensures
        0 <= encode(k, n) < pow_nat(n, k.len()),
    decreases k.len(),
{
    if k.len() > 0 {
        let t = k.drop_first();
        assert(in_layers(t, n)) by {
            assert forall|i: int| 0 <= i < t.len() implies 0 <= #[trigger] t[i] < n by {
                assert(t[i] == k[i + 1]);
            }
        }
        lemma_encode_bound(t, n);
        let e = encode(t, n);
        let p = pow_nat(n, t.len());
        let a = k[0];
        assert(0 <= a < n);
        assert(0 <= a + n * e < n * p) by (nonlinear_arith)
            requires
                0 <= a < n,
                0 <= e < p,
        ;
    }
}

/// Decoding the number of a layer vector gives the vector back.
pub proof fn lemma_decode_encode(k: Seq<int>, n: int)
    requires
        n >= 1,
        in_layers(k, n),
    ensures
        decode(encode(k, n), n, k.len()) == k,
    decreases k.len(),
{
    if k.len() > 0 {
        let t = k.drop_first();
        assert(in_layers(t, n)) by {
            assert forall|i: int| 0 <= i < t.len() implies 0 <= #[trigger] t[i] < n by {
                assert(t[i] == k[i + 1]);
            }
        }
        lemma_decode_encode(t, n);
        lemma_encode_bound(t, n);
        let e = encode(t, n);
        let a = k[0];
        let x = a + n * e;
        assert(x % n == a && x / n == e) by {
            vstd::arithmetic::div_mod::lemma_fundamental_div_mod_converse(x, n, e, a);
        }
        assert(decode(x, n, k.len()) =~= k);
    }
}

/// Decoding gives a vector of layers.
pub proof fn lemma_decode_in_layers(x: int, n: int, d: nat)
    requires
        n >= 1,
    ensures
        decode(x, n, d).len() == d,
        in_layers(decode(x, n, d), n),
    decreases d,
{
    if d > 0 {
        lemma_decode_in_layers(x / n, n, (d - 1) as nat);
        let s = decode(x, n, d);
        assert forall|i: int| 0 <= i < s.len() implies 0 <= #[trigger] s[i] < n by {
            if i > 0 {
                assert(s[i] == decode(x / n, n, (d - 1) as nat)[i - 1]);
            }
        }
    }
}

/// Encoding the digits of a number in range gives the number back.
pub proof fn lemma_encode_decode(x: int, n: int, d: nat)
    requires
        n >= 1,
        0 <= x < pow_nat(n, d),
    ensures
        encode(decode(x, n, d), n) == x,
    decreases d,
{
    if d > 0 {
        let q = x / n;
        let p = pow_nat(n, (d - 1) as nat);
        assert(0 <= q < p) by {
            vstd::arithmetic::div_mod::lemma_div_pos_is_pos(x, n);
            vstd::arithmetic::div_mod::lemma_div_by_multiple_is_strongly_ordered(x, n * p, p, n);
            vstd::arithmetic::div_mod::lemma_div_multiples_vanish(p, n);
            vstd::arithmetic::mul::lemma_mul_is_commutative(n, p);
        }
        lemma_encode_decode(q, n, (d - 1) as nat);
        let s = decode(x, n, d);
        assert(s.drop_first() =~= decode(q, n, (d - 1) as nat));
        vstd::arithmetic::div_mod::lemma_fundamental_div_mod(x, n);
    }
}


/// A puzzle type: a cube with `layers` layers along each of `dim` axes.
#[derive(Debug, Copy, Clone, PartialEq, Eq, Structural)]
pub struct PuzzleType {
    pub dim: usize,
    pub layers: usize,
}

/// A face: the side of the puzzle along `axis` where the layer is the
/// largest (`positive`) or `0`.
#[derive(Debug, Copy, Clone, PartialEq, Eq, Structural)]
pub struct Face {
    pub axis: usize,
    pub positive: bool,
}

/// A sticker: the face `face` of the piece numbered `piece`.
#[derive(Debug, Copy, Clone, PartialEq, Eq, Structural)]
pub struct Sticker {
    pub piece: usize,
    pub face: Face,
}

/// A twist: a quarter turn of the layers `layer_lo..=layer_hi` along `axis`,
/// within the plane of the axes `from` and `to`.
#[derive(Debug, Copy, Clone, PartialEq, Eq, Structural)]
pub struct Twist {
    pub axis: usize,
    pub from: usize,
    pub to: usize,
    pub layer_lo: usize,
    pub layer_hi: usize,
    pub direction: TwistDirection,
}

impl PuzzleType {
    /// The number of pieces.
    pub open spec fn spec_piece_count(self) -> int {
        pow_nat(self.layers as int, self.dim as nat)
    }

    /// The number of (piece, face) slots.
    pub open spec fn spec_slot_count(self) -> int {
        self.spec_piece_count() * (2 * (self.dim as int))
    }

    /// At least three axes, at least one layer, and few enough stickers.
    pub open spec fn wf(self) -> bool {
        &&& self.dim >= 3
        &&& self.layers >= 1
        &&& self.spec_slot_count() <= MAX_STICKER_SLOTS
    }

    /// The layer vector of the piece numbered `p`.
    pub open spec fn coords(self, p: int) -> Seq<int> {
        decode(p, self.layers as int, self.dim as nat)
    }

    /// The number of the piece whose layer vector is `k`.
    pub open spec fn index(self, k: Seq<int>) -> int {
        encode(k, self.layers as int)
    }

    /// The number of the piece that the rotation `r` moves piece `p` to.
    pub open spec fn act_index(self, r: SignedPerm, p: int) -> int {
        self.index(r.act(self.coords(p), self.layers as int))
    }

    /// The sticker exists: its piece lies on its face.
    pub open spec fn has_sticker(self, s: Sticker) -> bool {
        &&& 0 <= s.piece < self.spec_piece_count()
        &&& s.face.axis < self.dim
        &&& self.coords(s.piece as int)[s.face.axis as int] == if s.face.positive {
            self.layers - 1
        } else {
            0
        }
    }

    /// The twist names axes and layers of this puzzle type.
    pub open spec fn twist_valid(self, t: Twist) -> bool {
        &&& t.axis < self.dim
        &&& t.from < self.dim
        &&& t.to < self.dim
        &&& t.axis != t.from
        &&& t.axis != t.to
        &&& t.from != t.to
        &&& t.layer_lo <= t.layer_hi < self.layers
    }

    /// The rotation of a twist.
    pub open spec fn rotation(self, t: Twist) -> SignedPerm {
        SignedPerm::quarter_turn(
            self.dim as nat,
            t.from as int,
            t.to as int,
            t.direction == TwistDirection::CCW,
        )
    }

    /// The piece with layer vector `k` is a seed of the twist: it lies in the
    /// twisted layers and in one quarter of the turning plane, the one that
    /// meets each orbit of the turn once.
    pub open spec fn is_seed(self, t: Twist, k: Seq<int>) -> bool {
        &&& t.layer_lo <= k[t.axis as int] <= t.layer_hi
        &&& k[t.from as int] < self.layers - self.layers / 2
        &&& k[t.to as int] < self.layers / 2
    }

    /// The seeds among the pieces numbered below `m`, in increasing order.
    pub open spec fn seeds_below(self, t: Twist, m: int) -> Seq<int>
        decreases m,
    {
        if m <= 0 {
            Seq::empty()
        } else {
            let s = self.seeds_below(t, m - 1);
            if self.is_seed(t, self.coords(m - 1)) {
                s.push(m - 1)
            } else {
                s
            }
        }
    }

    /// The seeds of a twist, in increasing order.
    pub open spec fn seeds(self, t: Twist) -> Seq<int> {
        self.seeds_below(t, self.spec_piece_count())
    }

    /// Returns the puzzle type with `layers` layers along `dim` axes, if it
    /// has at least three axes, at least one layer and at most
    /// `MAX_STICKER_SLOTS` (piece, face) slots.
    pub fn new(dim: usize, layers: usize) -> (r: Option<PuzzleType>)
        ensures
            r.is_some() <==> (PuzzleType { dim, layers }).wf(),
            r.is_some() ==> r.unwrap() == (PuzzleType { dim, layers }),
    {
        let ghost t = PuzzleType { dim, layers };
        if dim < 3 || layers < 1 || dim > MAX_STICKER_SLOTS / 2 {
            proof {
                if dim > MAX_STICKER_SLOTS / 2 && layers >= 1 {
                    lemma_pow_nat_positive(layers as int, dim as nat);
                    let p = pow_nat(layers as int, dim as nat);
                    assert(p * (2 * dim) >= 2 * dim) by (nonlinear_arith)
                        requires
                            p >= 1,
                            dim >= 0,
                    ;
                }
            }
            return None;
        }
        let slots_per_piece = 2 * dim;
        let mut count: usize = 1;
        let mut i: usize = 0;
        while i < dim
            invariant
                i <= dim,
                layers >= 1,
                slots_per_piece == 2 * dim,
                1 <= slots_per_piece <= MAX_STICKER_SLOTS,
                count as int == pow_nat(layers as int, i as nat),
                count * slots_per_piece <= MAX_STICKER_SLOTS,
            decreases dim - i,
        {
            if count > MAX_STICKER_SLOTS / layers / slots_per_piece {
                proof {
                    let c = count as int;
                    let l = layers as int;
                    let sp = slots_per_piece as int;
                    let m = MAX_STICKER_SLOTS as int;
                    assert(c * l * sp > m) by (nonlinear_arith)
                        requires
                            c > m / l / sp,
                            l >= 1,
                            sp >= 1,
                    ;
                    lemma_pow_nat_mono(l, (i + 1) as nat, dim as nat);
                    assert(pow_nat(l, (i + 1) as nat) == l * c);
                    assert(pow_nat(l, dim as nat) * sp >= l * c * sp) by (nonlinear_arith)
                        requires
                            pow_nat(l, dim as nat) >= l * c,
                            sp >= 1,
                    ;
                }
                return None;
            }
            proof {
                let c = count as int;
                let l = layers as int;
                let sp = slots_per_piece as int;
                let m = MAX_STICKER_SLOTS as int;
                assert(c * l * sp <= m) by (nonlinear_arith)
                    requires
                        c <= m / l / sp,
                        l >= 1,
                        sp >= 1,
                ;
                assert(l * c * sp == c * l * sp) by (nonlinear_arith);
                assert(c * l <= c * l * sp) by (nonlinear_arith)
                    requires
                        c >= 0,
                        l >= 1,
                        sp >= 1,
                ;
                assert(pow_nat(l, (i + 1) as nat) == c * l) by (nonlinear_arith)
                    requires
                        pow_nat(l, (i + 1) as nat) == l * c,
                ;
            }
            count = count * layers;
            i += 1;
        }
        Some(PuzzleType { dim, layers })
    }

    /// Returns the number of pieces.
    pub fn piece_count(&self) -> (r: usize)
        requires
            self.wf(),
        ensures
            r as int == self.spec_piece_count(),
    {
        let mut count: usize = 1;
        let mut i: usize = 0;
        proof {
            lemma_pow_nat_positive(self.layers as int, self.dim as nat);
            self.lemma_counts();
        }
        while i < self.dim
            invariant
                self.wf(),
                i <= self.dim,
                count as int == pow_nat(self.layers as int, i as nat),
                self.spec_piece_count() <= MAX_STICKER_SLOTS,
            decreases self.dim - i,
        {
            proof {
                lemma_pow_nat_mono(self.layers as int, (i + 1) as nat, self.dim as nat);
                let c = count as int;
                let l = self.layers as int;
                assert(pow_nat(l, (i + 1) as nat) == l * c);
                assert(c * l == l * c) by (nonlinear_arith);
            }
            count = count * self.layers;
            i += 1;
        }
        count
    }

    /// Returns the number of (piece, face) slots: the length of the tables
    /// indexed by `slot_index`.
    pub fn slot_count(&self) -> (r: usize)
        requires
            self.wf(),
        ensures
            r as int == self.spec_slot_count(),
    {
        let p = self.piece_count();
        proof {
            self.lemma_counts();
        }
        p * (2 * self.dim)
    }

    pub proof fn lemma_counts(self)
        requires
            self.wf(),
        ensures
            1 <= self.spec_piece_count() <= self.spec_slot_count() <= MAX_STICKER_SLOTS,
            2 * (self.dim as int) <= self.spec_slot_count(),
    {
        lemma_pow_nat_positive(self.layers as int, self.dim as nat);
        let p = self.spec_piece_count();
        let d = self.dim as int;
        assert(p <= p * (2 * d) && 2 * d <= p * (2 * d)) by (nonlinear_arith)
            requires
                p >= 1,
                d >= 3,
        ;
    }

    /// Returns the number of the piece with layer vector `k`.
    pub fn piece_index(&self, k: &Vec<usize>) -> (r: usize)
        requires
            self.wf(),
            k@.len() == self.dim,
            in_layers(ints(k@), self.layers as int),
        ensures
            r as int == self.index(ints(k@)),
            r < self.spec_piece_count(),
            self.coords(r as int) == ints(k@),
    {
        let n = self.layers;
        let d = self.dim;
        let ghost kv = ints(k@);
        let mut acc: usize = 0;
        let mut i: usize = d;
        proof {
            self.lemma_counts();
        }
        while i > 0
            invariant
                self.wf(),
                n == self.layers,
                d == self.dim,
                kv == ints(k@),
                k@.len() == d,
                in_layers(kv, n as int),
                i <= d,
                acc as int == encode(kv.subrange(i as int, d as int), n as int),
                acc < pow_nat(n as int, (d - i) as nat),
                self.spec_piece_count() <= MAX_STICKER_SLOTS,
            decreases i,
        {
            let ghost prev = kv.subrange(i as int, d as int);
            i -= 1;
            let ghost cur = kv.subrange(i as int, d as int);
            assert(cur.drop_first() =~= prev);
            assert(cur[0] == k@[i as int] as int);
            proof {
                lemma_pow_nat_mono(n as int, (d - i) as nat, d as nat);
                let a = acc as int;
                let ki = k@[i as int] as int;
                let p = pow_nat(n as int, (d - i - 1) as nat);
                assert(kv[i as int] == ki);
                assert(a * n + ki < n * p) by (nonlinear_arith)
                    requires
                        0 <= a < p,
                        0 <= ki < n,
                ;
                assert(a * n == n * a) by (nonlinear_arith);
            }
            acc = acc * n + k[i];
        }
        assert(kv.subrange(0, d as int) =~= kv);
        proof {
            lemma_decode_encode(kv, n as int);
        }
        acc
    }

    /// Returns the layer vector of the piece numbered `p`.
    pub fn piece_coords(&self, p: usize) -> (r: Vec<usize>)
        requires
            self.wf(),
            p < self.spec_piece_count(),
        ensures
            ints(r@) == self.coords(p as int),
            r@.len() == self.dim,
            in_layers(ints(r@), self.layers as int),
            self.index(ints(r@)) == p,
    {
        let n = self.layers;
        let d = self.dim;
        let mut out: Vec<usize> = Vec::new();
        let mut x: usize = p;
        let mut i: usize = 0;
        while i < d
            invariant
                n == self.layers,
                d == self.dim,
                n >= 1,
                i <= d,
                out@.len() == i,
                x <= p,
                ints(out@).add(decode(x as int, n as int, (d - i) as nat)) == decode(
                    p as int,
                    n as int,
                    d as nat,
                ),
            decreases d - i,
        {
            let ghost before = ints(out@);
            let ghost rest = decode(x as int, n as int, (d - i) as nat);
            assert(rest == seq![(x % n) as int].add(decode((x / n) as int, n as int, (d - i - 1) as nat)));
            out.push(x % n);
            assert(ints(out@) =~= before.push((x % n) as int));
            assert(ints(out@).add(decode((x / n) as int, n as int, (d - i - 1) as nat)) =~= before.add(rest));
            x = x / n;
            i += 1;
        }
        assert(ints(out@) =~= ints(out@).add(decode(x as int, n as int, 0)));
        proof {
            lemma_decode_in_layers(p as int, n as int, d as nat);
            lemma_encode_decode(p as int, n as int, d as nat);
        }
        out
    }
}


impl Twist {
    /// The reverse twist: the same layers turned the other way.
    pub open spec fn spec_rev(self) -> Twist {
        Twist { direction: self.direction.spec_rev(), ..self }
    }

    /// Returns the reverse of this twist.
    #[must_use]
    pub fn rev(self) -> (r: Twist)
        ensures
            r == self.spec_rev(),
    {
        Twist { direction: self.direction.rev(), ..self }
    }
}

impl Face {
    /// The number of this face among the `2 * dim` faces.
    pub open spec fn spec_idx(self) -> int {
        2 * self.axis + if self.positive {
            1int
        } else {
            0int
        }
    }

    /// Returns a unique number for this face, in `0..2 * dim`.
    pub fn idx(self) -> (r: usize)
        requires
            self.axis < MAX_STICKER_SLOTS,
        ensures
            r as int == self.spec_idx(),
    {
        2 * self.axis + if self.positive {
            1
        } else {
            0
        }
    }
}

/// The reverse twist is valid exactly when the twist is, turns by the inverse
/// rotation and has the same seeds.
pub proof fn lemma_rev_twist(ty: PuzzleType, t: Twist)
    requires
        ty.wf(),
        ty.twist_valid(t),
    ensures
        ty.twist_valid(t.spec_rev()),
        ty.rotation(t).wf(),
        ty.rotation(t).dim() == ty.dim,
        ty.rotation(t.spec_rev()) == ty.rotation(t).inverse(),
        ty.seeds(t.spec_rev()) == ty.seeds(t),
        t.spec_rev().spec_rev() == t,
{
    lemma_quarter_turn_wf(ty.dim as nat, t.from as int, t.to as int, t.direction == TwistDirection::CCW);
    lemma_seeds_rev(ty, t, ty.spec_piece_count());
}

proof fn lemma_seeds_rev(ty: PuzzleType, t: Twist, m: int)
    ensures
        ty.seeds_below(t.spec_rev(), m) == ty.seeds_below(t, m),
    decreases m,
{
    if m > 0 {
        lemma_seeds_rev(ty, t, m - 1);
    }
}

/// The seeds below `m` are increasing piece numbers below `m`.
pub proof fn lemma_seeds_below_range(ty: PuzzleType, t: Twist, m: int)
    ensures
        forall|i: int| 0 <= i < ty.seeds_below(t, m).len() ==> 0 <= #[trigger] ty.seeds_below(t, m)[i] < m,
    decreases m,
{
    if m > 0 {
        lemma_seeds_below_range(ty, t, m - 1);
        let s = ty.seeds_below(t, m - 1);
        assert forall|i: int| 0 <= i < ty.seeds_below(t, m).len() implies 0 <= #[trigger] ty.seeds_below(t, m)[i] < m by {
            if i < s.len() {
                assert(ty.seeds_below(t, m)[i] == s[i]);
            }
        }
    }
}

/// A rotation moves a piece to a piece.
pub proof fn lemma_act_index_range(ty: PuzzleType, r: SignedPerm, p: int)
    requires
        ty.wf(),
        r.wf(),
        r.dim() == ty.dim,
        0 <= p < ty.spec_piece_count(),
    ensures
        0 <= ty.act_index(r, p) < ty.spec_piece_count(),
{
    lemma_decode_in_layers(p, ty.layers as int, ty.dim as nat);
    lemma_act_in_layers(r, ty.coords(p), ty.layers as int);
    lemma_encode_bound(r.act(ty.coords(p), ty.layers as int), ty.layers as int);
}

/// Rotating a piece by `r` and then by its inverse gives back the piece.
pub proof fn lemma_act_index_inverse(ty: PuzzleType, r: SignedPerm, p: int)
    requires
        ty.wf(),
        r.wf(),
        r.dim() == ty.dim,
        0 <= p < ty.spec_piece_count(),
    ensures
        ty.act_index(r.inverse(), ty.act_index(r, p)) == p,
{
    let n = ty.layers as int;
    let k = ty.coords(p);
    lemma_decode_in_layers(p, n, ty.dim as nat);
    lemma_act_in_layers(r, k, n);
    lemma_decode_encode(r.act(k, n), n);
    lemma_act_inverse(r, k, n);
    lemma_encode_decode(p, n, ty.dim as nat);
}

impl PuzzleType {
    /// Returns whether the twist names axes and layers of this puzzle type.
    pub fn is_twist_valid(&self, t: Twist) -> (r: bool)
        ensures
            r == self.twist_valid(t),
    {
        t.axis < self.dim && t.from < self.dim && t.to < self.dim && t.axis != t.from && t.axis
            != t.to && t.from != t.to && t.layer_lo <= t.layer_hi && t.layer_hi < self.layers
    }

    /// Returns the orientation that the twist gives to a piece in the solved
    /// orientation.
    pub fn rotation_of(&self, t: Twist) -> (r: Orientation)
        requires
            self.twist_valid(t),
        ensures
            r@ == self.rotation(t),
            r@.wf(),
    {
        Orientation::quarter_turn(self.dim, t.from, t.to, t.direction == TwistDirection::CCW)
    }

    /// Returns the seeds of the twist: one piece of each cycle of pieces
    /// that it moves, in increasing order.
    pub fn initial_pieces(&self, t: Twist) -> (r: Vec<usize>)
        requires
            self.wf(),
            self.twist_valid(t),
        ensures
            ints(r@) == self.seeds(t),
    {
        let count = self.piece_count();
        let mut out: Vec<usize> = Vec::new();
        let mut p: usize = 0;
        while p < count
            invariant
                self.wf(),
                self.twist_valid(t),
                count as int == self.spec_piece_count(),
                p <= count,
                ints(out@) == self.seeds_below(t, p as int),
            decreases count - p,
        {
            let k = self.piece_coords(p);
            let half_up = self.layers - self.layers / 2;
            let half_down = self.layers / 2;
            let seed = t.layer_lo <= k[t.axis] && k[t.axis] <= t.layer_hi && k[t.from] < half_up
                && k[t.to] < half_down;
            assert(seed == self.is_seed(t, self.coords(p as int))) by {
                assert(ints(k@)[t.axis as int] == k@[t.axis as int] as int);
                assert(ints(k@)[t.from as int] == k@[t.from as int] as int);
                assert(ints(k@)[t.to as int] == k@[t.to as int] as int);
            }
            let ghost before = out@;
            if seed {
                out.push(p);
                assert(ints(out@) =~= ints(before).push(p as int));
            }
            p += 1;
        }
        out
    }
}


/// Reversing twice gives back the twist.
pub proof fn lemma_rev_twist_twice(t: Twist)
    ensures
        t.spec_rev().spec_rev() == t,
{
}


impl PuzzleType {
    /// The number of twists in a full scramble.
    pub open spec fn spec_full_scramble_count(self) -> int {
        10 * self.dim * self.layers
    }

    /// Returns the number of twists in a full scramble.
    pub fn full_scramble_count(&self) -> (r: usize)
        requires
            self.wf(),
        ensures
            r as int == self.spec_full_scramble_count(),
    {
        proof {
            self.lemma_counts();
            lemma_pow_nat_mono(self.layers as int, 1, self.dim as nat);
            assert(pow_nat(self.layers as int, 1) == self.layers * pow_nat(self.layers as int, 0));
            let p = self.spec_piece_count();
            let d = self.dim as int;
            let l = self.layers as int;
            assert(10 * d * l <= 5 * (p * (2 * d))) by (nonlinear_arith)
                requires
                    l <= p,
                    d >= 0,
            ;
        }
        10 * self.dim * self.layers
    }
}


/// Returns the next state of a pseudo-random generator (a 64-bit linear
/// congruential generator).
pub fn next_seed(seed: u64) -> (r: u64)
    ensures
        r as int == (seed as int * 6364136223846793005 + 1442695040888963407) % 0x1_0000_0000_0000_0000,
{
    let x = seed.wrapping_mul(6364136223846793005);
    proof {
        let big: int = 0x1_0000_0000_0000_0000;
        let p = seed as int * 6364136223846793005;
        let c: int = 1442695040888963407;
        assert(x as int == p % big);
        vstd::arithmetic::div_mod::lemma_fundamental_div_mod(p, big);
        vstd::arithmetic::div_mod::lemma_mod_pos_bound(p, big);
        let q = p / big;
        if x as int + c < big {
            vstd::arithmetic::div_mod::lemma_fundamental_div_mod_converse(p + c, big, q, x as int + c);
        } else {
            vstd::arithmetic::div_mod::lemma_fundamental_div_mod_converse(p + c, big, q + 1, x as int + c - big);
        }
    }
    x.wrapping_add(1442695040888963407)
}

proof fn lemma_mod_below_twice(v: int, d: int)
    requires
        d > 0,
        0 <= v < 2 * d,
    ensures
        v % d == if v < d { v } else { v - d },
{
    if v < d {
        vstd::arithmetic::div_mod::lemma_fundamental_div_mod_converse(v, d, 0, v);
    } else {
        vstd::arithmetic::div_mod::lemma_fundamental_div_mod_converse(v, d, 1, v - d);
    }
}

impl PuzzleType {
    /// Returns a twist of this puzzle type chosen by the number `x`: its
    /// axis, the plane it turns in, the layer and the direction all come
    /// from digits of `x`.
    pub fn twist_from_number(&self, x: u64) -> (r: Twist)
        requires
            self.wf(),
        ensures
            self.twist_valid(r),
    {
        proof {
            self.lemma_counts();
        }
        let d = self.dim as u64;
        let axis = (x % d) as usize;
        let y = x / d;
        let o1 = 1 + y % (d - 1);
        proof {
            lemma_mod_below_twice(axis as int + o1 as int, d as int);
        }
        let from = ((axis as u64 + o1) % d) as usize;
        let z = y / (d - 1);
        let o2 = 1 + z % (d - 1);
        proof {
            lemma_mod_below_twice(from as int + o2 as int, d as int);
        }
        let mut to = ((from as u64 + o2) % d) as usize;
        if to == axis {
            proof {
                lemma_mod_below_twice(to as int + 1, d as int);
            }
            to = (to + 1) % self.dim;
            if to == from {
                proof {
                    lemma_mod_below_twice(to as int + 1, d as int);
                    lemma_mod_below_twice(axis as int + 2, d as int);
                }
                to = (to + 1) % self.dim;
            }
        }
        let w = z / (d - 1);
        let layer = (w % self.layers as u64) as usize;
        let direction = if (w / self.layers as u64) % 2 == 0 {
            TwistDirection::CW
        } else {
            TwistDirection::CCW
        };
        Twist { axis, from, to, layer_lo: layer, layer_hi: layer, direction }
    }
}


/// How twists are counted.
#[derive(Debug, Copy, Clone, PartialEq, Eq, Structural)]
pub enum TwistMetric {
    /// Every quarter turn counts.
    Qtm,
    /// Turns of the same layers in the same plane, one right after the
    /// other, count as one.
    Ftm,
}

impl PuzzleType {
    /// The sticker of the (piece, face) slot numbered `i`.
    pub open spec fn slot_sticker(self, i: int) -> Sticker {
        let per_piece = 2 * self.dim;
        let f = i % per_piece;
        Sticker { piece: (i / per_piece) as usize, face: Face { axis: (f / 2) as usize, positive: f % 2 == 1 } }
    }

    /// `curr` may be counted together with the twist `prev` right before it.
    pub open spec fn spec_can_combine(self, prev: Option<Twist>, curr: Twist, metric: TwistMetric) -> bool {
        match (metric, prev) {
            (TwistMetric::Ftm, Option::Some(p)) => p.axis == curr.axis && p.layer_lo == curr.layer_lo
                && p.layer_hi == curr.layer_hi && ((p.from == curr.from && p.to == curr.to) || (p.from
                == curr.to && p.to == curr.from)),
            _ => false,
        }
    }

    /// Returns whether `curr` may be counted together with the twist `prev`
    /// right before it under `metric`.
    pub fn can_combine_twists(&self, prev: Option<Twist>, curr: Twist, metric: TwistMetric) -> (r: bool)
        ensures
            r == self.spec_can_combine(prev, curr, metric),
    {
        match (metric, prev) {
            (TwistMetric::Ftm, Option::Some(p)) => p.axis == curr.axis && p.layer_lo == curr.layer_lo
                && p.layer_hi == curr.layer_hi && ((p.from == curr.from && p.to == curr.to) || (p.from
                == curr.to && p.to == curr.from)),
            _ => false,
        }
    }

    /// The number of the (piece, face) slot of a sticker.
    pub open spec fn slot_of(self, s: Sticker) -> int {
        s.piece * (2 * self.dim) + s.face.spec_idx()
    }

    /// Returns the number of the (piece, face) slot of a sticker.
    pub fn slot_index(&self, s: Sticker) -> (r: usize)
        requires
            self.wf(),
            self.has_sticker(s),
        ensures
            r as int == self.slot_of(s),
            r < self.spec_slot_count(),
            self.slot_sticker(r as int) == s,
    {
        proof {
            self.lemma_counts();
        }
        let per_piece = 2 * self.dim;
        proof {
            let p = s.piece as int;
            let pp = per_piece as int;
            let f = s.face.spec_idx();
            assert(0 <= f < pp);
            assert(p * pp + f < self.spec_slot_count()) by (nonlinear_arith)
                requires
                    0 <= p < self.spec_piece_count(),
                    0 <= f < pp,
                    self.spec_slot_count() == self.spec_piece_count() * pp,
            ;
            assert(0 <= p * pp) by (nonlinear_arith)
                requires
                    0 <= p,
                    0 <= pp,
            ;
            vstd::arithmetic::div_mod::lemma_fundamental_div_mod_converse(p * pp + f, pp, p, f);
            assert((f / 2) == s.face.axis as int && (f % 2 == 1) == s.face.positive) by {
                if s.face.positive {
                    vstd::arithmetic::div_mod::lemma_fundamental_div_mod_converse(f, 2, s.face.axis as int, 1);
                } else {
                    vstd::arithmetic::div_mod::lemma_fundamental_div_mod_converse(f, 2, s.face.axis as int, 0);
                }
            }
        }
        s.piece * per_piece + s.face.idx()
    }

    /// Returns the sticker of the (piece, face) slot numbered `i`, if that
    /// piece lies on that face.
    pub fn sticker_of_slot(&self, i: usize) -> (r: Option<Sticker>)
        requires
            self.wf(),
            i < self.spec_slot_count(),
        ensures
            r.is_some() <==> self.has_sticker(self.slot_sticker(i as int)),
            r.is_some() ==> r.unwrap() == self.slot_sticker(i as int),
    {
        proof {
            self.lemma_counts();
        }
        let per_piece = 2 * self.dim;
        proof {
            let pp = per_piece as int;
            let ii = i as int;
            vstd::arithmetic::div_mod::lemma_fundamental_div_mod(ii, pp);
            assert(ii / pp < self.spec_piece_count()) by {
                assert(pp * self.spec_piece_count() == self.spec_slot_count()) by (nonlinear_arith)
                    requires
                        self.spec_slot_count() == self.spec_piece_count() * pp,
                ;
                vstd::arithmetic::div_mod::lemma_multiply_divide_lt(ii, pp, self.spec_piece_count());
            }
            vstd::arithmetic::div_mod::lemma_mod_pos_bound(ii, pp);
            assert((ii % pp) / 2 < self.dim) by {
                vstd::arithmetic::div_mod::lemma_div_is_ordered(ii % pp, pp - 1, 2);
                vstd::arithmetic::div_mod::lemma_fundamental_div_mod_converse(pp - 1, 2, self.dim - 1, 1);
            }
        }
        let piece = i / per_piece;
        let f = i % per_piece;
        let axis = f / 2;
        let positive = f % 2 == 1;
        let k = self.piece_coords(piece);
        let side = if positive {
            self.layers - 1
        } else {
            0
        };
        if k[axis] == side {
            assert(ints(k@)[axis as int] == k@[axis as int] as int);
            Some(Sticker { piece, face: Face { axis, positive } })
        } else {
            assert(ints(k@)[axis as int] == k@[axis as int] as int);
            None
        }
    }
}


/// The identity leaves every piece where it is.
pub proof fn lemma_act_index_identity(ty: PuzzleType, p: int)
    requires
        ty.wf(),
        0 <= p < ty.spec_piece_count(),
    ensures
        ty.act_index(SignedPerm::identity(ty.dim as nat), p) == p,
{
    let n = ty.layers as int;
    lemma_decode_in_layers(p, n, ty.dim as nat);
    crate::orientation::lemma_act_identity(ty.coords(p), n);
    lemma_encode_decode(p, n, ty.dim as nat);
}

/// Moving a piece by a product of rotations is moving it by each in turn.
pub proof fn lemma_act_index_compose(ty: PuzzleType, a: SignedPerm, b: SignedPerm, p: int)
    requires
        ty.wf(),
        a.wf(),
        b.wf(),
        a.dim() == ty.dim,
        b.dim() == ty.dim,
        0 <= p < ty.spec_piece_count(),
    ensures
        ty.act_index(a.compose(b), p) == ty.act_index(a, ty.act_index(b, p)),
{
    let n = ty.layers as int;
    let k = ty.coords(p);
    lemma_decode_in_layers(p, n, ty.dim as nat);
    crate::orientation::lemma_act_compose(a, b, k, n);
    lemma_act_in_layers(b, k, n);
    lemma_decode_encode(b.act(k, n), n);
}


impl PuzzleType {
    /// The faces in order of their numbers.
    pub open spec fn spec_faces(self) -> Seq<Face> {
        Seq::new(2 * self.dim as nat, |i: int| Face { axis: (i / 2) as usize, positive: i % 2 == 1 })
    }

    /// Returns the number of faces.
    pub fn face_count(&self) -> (r: usize)
        requires
            self.wf(),
        ensures
            r == 2 * self.dim,
    {
        proof {
            self.lemma_counts();
        }
        2 * self.dim
    }

    /// Returns all the faces, in order of their numbers.
    pub fn faces(&self) -> (r: Vec<Face>)
        requires
            self.wf(),
        ensures
            r@ == self.spec_faces(),
    {
        proof {
            self.lemma_counts();
        }
        let mut out: Vec<Face> = Vec::new();
        let mut i: usize = 0;
        while i < 2 * self.dim
            invariant
                2 * self.dim <= MAX_STICKER_SLOTS,
                i <= 2 * self.dim,
                out@ == self.spec_faces().subrange(0, i as int),
            decreases 2 * self.dim - i,
        {
            out.push(Face { axis: i / 2, positive: i % 2 == 1 });
            i += 1;
            assert(out@ =~= self.spec_faces().subrange(0, i as int));
        }
        assert(out@ =~= self.spec_faces());
        out
    }

    /// The stickers of the piece `p`, in order of their face numbers.
    pub open spec fn spec_piece_stickers(self, p: int) -> Seq<Sticker> {
        self.spec_faces().map_values(|f: Face| Sticker { piece: p as usize, face: f }).filter(
            |s: Sticker| self.has_sticker(s),
        )
    }

    /// Returns the stickers of the piece `p`, in order of their face numbers.
    pub fn piece_stickers(&self, p: usize) -> (r: Vec<Sticker>)
        requires
            self.wf(),
            p < self.spec_piece_count(),
        ensures
            r@ == self.spec_piece_stickers(p as int),
    {
        proof {
            self.lemma_counts();
        }
        let k = self.piece_coords(p);
        let faces = self.faces();
        let ghost all = self.spec_faces().map_values(|f: Face| Sticker { piece: p, face: f });
        let mut out: Vec<Sticker> = Vec::new();
        let mut i: usize = 0;
        while i < faces.len()
            invariant
                self.wf(),
                p < self.spec_piece_count(),
                faces@ == self.spec_faces(),
                all == self.spec_faces().map_values(|f: Face| Sticker { piece: p, face: f }),
                ints(k@) == self.coords(p as int),
                k@.len() == self.dim,
                i <= faces@.len(),
                out@ == all.subrange(0, i as int).filter(|s: Sticker| self.has_sticker(s)),
            decreases faces@.len() - i,
        {
            let f = faces[i];
            let s = Sticker { piece: p, face: f };
            assert(f.axis < self.dim);
            let side = if f.positive {
                self.layers - 1
            } else {
                0
            };
            assert(ints(k@)[f.axis as int] == k@[f.axis as int] as int);
            let on = k[f.axis] == side;
            assert(on == self.has_sticker(s));
            assert(all.subrange(0, i + 1) =~= all.subrange(0, i as int).push(s));
            proof {
                reveal_with_fuel(Seq::filter, 1);
                assert(all.subrange(0, i as int).push(s).drop_last() =~= all.subrange(0, i as int));
            }
            if on {
                out.push(s);
            }
            i += 1;
        }
        assert(all.subrange(0, faces@.len() as int) =~= all);
        out
    }

    /// Returns the number of stickers of the piece `p`.
    pub fn sticker_count(&self, p: usize) -> (r: usize)
        requires
            self.wf(),
            p < self.spec_piece_count(),
        ensures
            r == self.spec_piece_stickers(p as int).len(),
    {
        self.piece_stickers(p).len()
    }
}


impl PuzzleType {
    /// The stickers on the face `f`, in order of their pieces.
    pub open spec fn spec_face_stickers(self, f: Face) -> Seq<Sticker> {
        Seq::new(self.spec_piece_count() as nat, |p: int| Sticker { piece: p as usize, face: f }).filter(
            |s: Sticker| self.has_sticker(s),
        )
    }

    /// Returns the stickers on the face `f`, in order of their pieces.
    pub fn face_stickers(&self, f: Face) -> (r: Vec<Sticker>)
        requires
            self.wf(),
        ensures
            r@ == self.spec_face_stickers(f),
    {
        let count = self.piece_count();
        let ghost all = Seq::new(self.spec_piece_count() as nat, |p: int| Sticker { piece: p as usize, face: f });
        let mut out: Vec<Sticker> = Vec::new();
        let mut p: usize = 0;
        while p < count
            invariant
                self.wf(),
                count as int == self.spec_piece_count(),
                all == Seq::new(self.spec_piece_count() as nat, |p: int| Sticker { piece: p as usize, face: f }),
                p <= count,
                out@ == all.subrange(0, p as int).filter(|s: Sticker| self.has_sticker(s)),
            decreases count - p,
        {
            let s = Sticker { piece: p, face: f };
            let on = if f.axis < self.dim {
                let k = self.piece_coords(p);
                let side = if f.positive {
                    self.layers - 1
                } else {
                    0
                };
                assert(ints(k@)[f.axis as int] == k@[f.axis as int] as int);
                k[f.axis] == side
            } else {
                false
            };
            assert(on == self.has_sticker(s));
            assert(all.subrange(0, p + 1) =~= all.subrange(0, p as int).push(s));
            proof {
                reveal_with_fuel(Seq::filter, 1);
                assert(all.subrange(0, p as int).push(s).drop_last() =~= all.subrange(0, p as int));
            }
            if on {
                out.push(s);
            }
            p += 1;
        }
        assert(all.subrange(0, count as int) =~= all);
        out
    }

    /// All the stickers, piece by piece.
    pub open spec fn spec_stickers(self) -> Seq<Sticker> {
        Seq::new(self.spec_piece_count() as nat, |p: int| self.spec_piece_stickers(p)).flatten()
    }

    /// Returns all the stickers, piece by piece, each piece's in order of
    /// their face numbers.
    pub fn stickers(&self) -> (r: Vec<Sticker>)
        requires
            self.wf(),
        ensures
            r@ == self.spec_stickers(),
    {
        let count = self.piece_count();
        let ghost all = Seq::new(self.spec_piece_count() as nat, |p: int| self.spec_piece_stickers(p));
        let mut out: Vec<Sticker> = Vec::new();
        let mut p: usize = 0;
        while p < count
            invariant
                self.wf(),
                count as int == self.spec_piece_count(),
                all == Seq::new(self.spec_piece_count() as nat, |p: int| self.spec_piece_stickers(p)),
                p <= count,
                out@ == all.subrange(0, p as int).flatten(),
            decreases count - p,
        {
            let mut st = self.piece_stickers(p);
            out.append(&mut st);
            proof {
                assert(all.subrange(0, p + 1) =~= all.subrange(0, p as int).push(all[p as int]));
                all.subrange(0, p as int).lemma_flatten_push(all[p as int]);
            }
            p += 1;
        }
        assert(all.subrange(0, count as int) =~= all);
        out
    }
}

} // verus!
