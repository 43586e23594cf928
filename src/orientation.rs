//! Piece orientations: signed permutations of the coordinate axes.
//!
//! An orientation maps a coordinate vector `k` (each coordinate a layer in
//! `0..n`) to the vector whose `i`-th coordinate is `k[perm[i]]`, mirrored to
//! `n - 1 - k[perm[i]]` when `flip[i]` is set. These form a finite group under
//! composition, which acts on piece positions.

use vstd::prelude::*;

verus! {

/// A signed permutation of `dim()` axes, as a mathematical value.
pub struct SignedPerm {
    pub perm: Seq<int>,
    pub flip: Seq<bool>,
}

impl SignedPerm {
    pub open spec fn dim(self) -> nat {
        self.perm.len()
    }

    /// The axis that `perm` sends to `j`.
    pub open spec fn preimage(self, j: int) -> int {
        choose|i: int| 0 <= i < self.dim() && self.perm[i] == j
    }

    /// `perm` is a bijection of `0..dim()` and `flip` has one entry per axis.
    pub open spec fn wf(self) -> bool {
        &&& self.flip.len() == self.perm.len()
        &&& forall|i: int| 0 <= i < self.dim() ==> 0 <= #[trigger] self.perm[i] < self.dim()
        &&& forall|i: int, j: int|
            0 <= i < self.dim() && 0 <= j < self.dim() && #[trigger] self.perm[i] == #[trigger] self.perm[j]
                ==> i == j
        &&& forall|j: int|
            0 <= j < self.dim() ==> 0 <= #[trigger] self.preimage(j) < self.dim() && self.perm[self.preimage(j)] == j
    }

    /// The identity: the solved orientation.
    pub open spec fn identity(d: nat) -> SignedPerm {
        SignedPerm { perm: Seq::new(d, |i: int| i), flip: Seq::new(d, |i: int| false) }
    }

    /// `self * other`: first `other`, then `self`.
    pub open spec fn compose(self, other: SignedPerm) -> SignedPerm {
        SignedPerm {
            perm: Seq::new(self.dim(), |i: int| other.perm[self.perm[i]]),
            flip: Seq::new(self.dim(), |i: int| self.flip[i] != other.flip[self.perm[i]]),
        }
    }

    /// The inverse orientation.
    pub open spec fn inverse(self) -> SignedPerm {
        SignedPerm {
            perm: Seq::new(self.dim(), |j: int| self.preimage(j)),
            flip: Seq::new(self.dim(), |j: int| self.flip[self.preimage(j)]),
        }
    }

    /// `self` composed with itself `k` times.
    pub open spec fn pow(self, k: nat) -> SignedPerm
        decreases k,
    {
        if k == 0 {
            SignedPerm::identity(self.dim())
        } else {
            self.compose(self.pow((k - 1) as nat))
        }
    }

    /// The quarter turn in `d` dimensions that moves axis `to` onto axis
    /// `from`, mirroring what lands on `from` when `mirror_from` holds and
    /// what lands on `to` otherwise.
    pub open spec fn quarter_turn(d: nat, from: int, to: int, mirror_from: bool) -> SignedPerm {
        SignedPerm {
            perm: Seq::new(d, |i: int| if i == from { to } else if i == to { from } else { i }),
            flip: Seq::new(d, |i: int| if i == from { mirror_from } else if i == to { !mirror_from } else { false }),
        }
    }

    /// The image of the coordinate vector `k` (layers in `0..n`).
    pub open spec fn act(self, k: Seq<int>, n: int) -> Seq<int> {
        Seq::new(
            self.dim(),
            |i: int|
                if self.flip[i] {
                    n - 1 - k[self.perm[i]]
                } else {
                    k[self.perm[i]]
                },
        )
    }
}

/// Every coordinate of `k` is a layer in `0..n`.
pub open spec fn in_layers(k: Seq<int>, n: int) -> bool {
    forall|i: int| 0 <= i < k.len() ==> 0 <= #[trigger] k[i] < n
}

pub proof fn lemma_identity_wf(d: nat)
    ensures
        SignedPerm::identity(d).wf(),
        SignedPerm::identity(d).dim() == d,
{
    let e = SignedPerm::identity(d);
    assert forall|j: int| 0 <= j < d implies 0 <= #[trigger] e.preimage(j) < d && e.perm[e.preimage(j)] == j by {
        assert(e.perm[j] == j);
    }
}

pub proof fn lemma_compose_wf(a: SignedPerm, b: SignedPerm)
    requires
        a.wf(),
        b.wf(),
        a.dim() == b.dim(),
    ensures
        a.compose(b).wf(),
        a.compose(b).dim() == a.dim(),
{
    let c = a.compose(b);
    let d = a.dim();
    assert forall|i: int, j: int|
        0 <= i < d && 0 <= j < d && #[trigger] c.perm[i] == #[trigger] c.perm[j] implies i == j by {
        assert(b.perm[a.perm[i]] == b.perm[a.perm[j]]);
    }
    assert forall|j: int| 0 <= j < d implies 0 <= #[trigger] c.preimage(j) < d && c.perm[c.preimage(j)] == j by {
        let m = b.preimage(j);
        let i = a.preimage(m);
        assert(c.perm[i] == j);
    }
}

pub proof fn lemma_inverse_wf(a: SignedPerm)
    requires
        a.wf(),
    ensures
        a.inverse().wf(),
        a.inverse().dim() == a.dim(),
        forall|i: int| 0 <= i < a.dim() ==> #[trigger] a.inverse().perm[a.perm[i]] == i,
        forall|i: int| 0 <= i < a.dim() ==> #[trigger] a.inverse().flip[a.perm[i]] == a.flip[i],
{
    let v = a.inverse();
    let d = a.dim();
    assert forall|i: int| 0 <= i < d implies #[trigger] v.perm[a.perm[i]] == i by {
        let p = a.preimage(a.perm[i]);
        assert(a.perm[p] == a.perm[i]);
    }
    assert forall|i: int, j: int|
        0 <= i < d && 0 <= j < d && #[trigger] v.perm[i] == #[trigger] v.perm[j] implies i == j by {
        assert(a.perm[a.preimage(i)] == i);
        assert(a.perm[a.preimage(j)] == j);
    }
    assert forall|j: int| 0 <= j < d implies 0 <= #[trigger] v.preimage(j) < d && v.perm[v.preimage(j)] == j by {
        assert(v.perm[a.perm[j]] == j);
    }
    assert forall|i: int| 0 <= i < d implies #[trigger] v.flip[a.perm[i]] == a.flip[i] by {
        assert(v.perm[a.perm[i]] == i);
    }
}


pub proof fn lemma_quarter_turn_wf(d: nat, from: int, to: int, mirror_from: bool)
    requires
        0 <= from < d,
        0 <= to < d,
        from != to,
    ensures
        SignedPerm::quarter_turn(d, from, to, mirror_from).wf(),
        SignedPerm::quarter_turn(d, from, to, mirror_from).dim() == d,
        SignedPerm::quarter_turn(d, from, to, mirror_from).inverse() == SignedPerm::quarter_turn(d, from, to, !mirror_from),
{
    let q = SignedPerm::quarter_turn(d, from, to, mirror_from);
    let q2 = SignedPerm::quarter_turn(d, from, to, !mirror_from);
    assert forall|j: int| 0 <= j < d implies 0 <= #[trigger] q.preimage(j) < d && q.perm[q.preimage(j)] == j by {
        if j == from {
            assert(q.perm[to] == j);
        } else if j == to {
            assert(q.perm[from] == j);
        } else {
            assert(q.perm[j] == j);
        }
    }
    assert(q.wf());
    assert(q2.wf()) by {
        assert forall|j: int| 0 <= j < d implies 0 <= #[trigger] q2.preimage(j) < d && q2.perm[q2.preimage(j)] == j by {
            if j == from {
                assert(q2.perm[to] == j);
            } else if j == to {
                assert(q2.perm[from] == j);
            } else {
                assert(q2.perm[j] == j);
            }
        }
    }
    let c = q.compose(q2);
    assert(c.perm =~= SignedPerm::identity(d).perm);
    assert(c.flip =~= SignedPerm::identity(d).flip);
    lemma_inverse_unique(q, q2);
}

/// The half turn in the plane of the axes `from` and `to`: both mirrored.
pub open spec fn half_turn(d: nat, from: int, to: int) -> SignedPerm {
    SignedPerm { perm: Seq::new(d, |i: int| i), flip: Seq::new(d, |i: int| i == from || i == to) }
}

/// Two quarter turns make a half turn, and four make the identity.
pub proof fn lemma_quarter_turn_powers(d: nat, from: int, to: int, mirror_from: bool)
    requires
        0 <= from < d,
        0 <= to < d,
        from != to,
    ensures
        SignedPerm::quarter_turn(d, from, to, mirror_from).pow(2) == half_turn(d, from, to),
        SignedPerm::quarter_turn(d, from, to, mirror_from).pow(4) == SignedPerm::identity(d),
{
    let q = SignedPerm::quarter_turn(d, from, to, mirror_from);
    let e = SignedPerm::identity(d);
    let h = half_turn(d, from, to);
    lemma_quarter_turn_wf(d, from, to, mirror_from);
    lemma_identity_wf(d);
    lemma_compose_identity(q);
    assert(q.pow(0) == e);
    assert(q.pow(1) == q.compose(e));
    assert(q.pow(2) == q.compose(q.pow(1)));
    assert(q.compose(q).perm =~= h.perm);
    assert(q.compose(q).flip =~= h.flip);
    assert(q.pow(2) == h);
    assert(h.wf()) by {
        assert forall|j: int| 0 <= j < d implies 0 <= #[trigger] h.preimage(j) < d && h.perm[h.preimage(j)] == j by {
            assert(h.perm[j] == j);
        }
    }
    lemma_pow_wf(q, 2);
    lemma_compose_assoc(q, q, h);
    assert(q.pow(3) == q.compose(h));
    assert(q.pow(4) == q.compose(q.compose(h)));
    assert(h.compose(h).perm =~= e.perm);
    assert(h.compose(h).flip =~= e.flip);
}

/// Composition is associative.
pub proof fn lemma_compose_assoc(a: SignedPerm, b: SignedPerm, c: SignedPerm)
    requires
        a.wf(),
        b.wf(),
        c.wf(),
        a.dim() == b.dim(),
        b.dim() == c.dim(),
    ensures
        a.compose(b).compose(c) == a.compose(b.compose(c)),
{
    let l = a.compose(b).compose(c);
    let r = a.compose(b.compose(c));
    assert(l.perm =~= r.perm);
    assert(l.flip =~= r.flip);
}

/// The identity is neutral on both sides.
pub proof fn lemma_compose_identity(a: SignedPerm)
    requires
        a.wf(),
    ensures
        a.compose(SignedPerm::identity(a.dim())) == a,
        SignedPerm::identity(a.dim()).compose(a) == a,
{
    let e = SignedPerm::identity(a.dim());
    assert(a.compose(e).perm =~= a.perm);
    assert(a.compose(e).flip =~= a.flip);
    assert(e.compose(a).perm =~= a.perm);
    assert(e.compose(a).flip =~= a.flip);
}

/// The inverse is a two-sided inverse.
pub proof fn lemma_compose_inverse(a: SignedPerm)
    requires
        a.wf(),
    ensures
        a.compose(a.inverse()) == SignedPerm::identity(a.dim()),
        a.inverse().compose(a) == SignedPerm::identity(a.dim()),
{
    lemma_inverse_wf(a);
    let v = a.inverse();
    let e = SignedPerm::identity(a.dim());
    assert(a.compose(v).perm =~= e.perm);
    assert(a.compose(v).flip =~= e.flip);
    assert(v.compose(a).perm =~= e.perm);
    assert(v.compose(a).flip =~= e.flip);
}

/// An element that composes to the identity with `a` is its inverse.
pub proof fn lemma_inverse_unique(a: SignedPerm, b: SignedPerm)
    requires
        a.wf(),
        b.wf(),
        a.dim() == b.dim(),
        a.compose(b) == SignedPerm::identity(a.dim()),
    ensures
        b == a.inverse(),
{
    lemma_inverse_wf(a);
    lemma_compose_inverse(a);
    lemma_compose_identity(b);
    lemma_compose_identity(a.inverse());
    lemma_compose_assoc(a.inverse(), a, b);
}

/// Inverting twice gives back the orientation.
pub proof fn lemma_inverse_involutive(a: SignedPerm)
    requires
        a.wf(),
    ensures
        a.inverse().inverse() == a,
{
    lemma_inverse_wf(a);
    lemma_compose_inverse(a);
    lemma_inverse_unique(a.inverse(), a);
}

/// The inverse of a product is the product of the inverses, reversed.
pub proof fn lemma_inverse_compose(a: SignedPerm, b: SignedPerm)
    requires
        a.wf(),
        b.wf(),
        a.dim() == b.dim(),
    ensures
        a.compose(b).inverse() == b.inverse().compose(a.inverse()),
{
    let ab = a.compose(b);
    let w = b.inverse().compose(a.inverse());
    lemma_compose_wf(a, b);
    lemma_inverse_wf(a);
    lemma_inverse_wf(b);
    lemma_compose_wf(b.inverse(), a.inverse());
    lemma_compose_inverse(a);
    lemma_compose_inverse(b);
    lemma_compose_identity(a.inverse());
    lemma_compose_assoc(a, b, w);
    lemma_compose_assoc(b, b.inverse(), a.inverse());
    lemma_identity_wf(a.dim());
    assert(ab.compose(w) == SignedPerm::identity(a.dim()));
    lemma_inverse_unique(ab, w);
}

/// The identity acts trivially.
pub proof fn lemma_act_identity(k: Seq<int>, n: int)
    ensures
        SignedPerm::identity(k.len()).act(k, n) == k,
{
    assert(SignedPerm::identity(k.len()).act(k, n) =~= k);
}

/// Acting by a product is acting by each factor in turn.
pub proof fn lemma_act_compose(a: SignedPerm, b: SignedPerm, k: Seq<int>, n: int)
    requires
        a.wf(),
        b.wf(),
        a.dim() == b.dim(),
        k.len() == a.dim(),
    ensures
        a.compose(b).act(k, n) == a.act(b.act(k, n), n),
{
    assert(a.compose(b).act(k, n) =~= a.act(b.act(k, n), n));
}

/// Acting keeps a vector of layers a vector of layers of the same length.
pub proof fn lemma_act_in_layers(a: SignedPerm, k: Seq<int>, n: int)
    requires
        a.wf(),
        k.len() == a.dim(),
        in_layers(k, n),
    ensures
        in_layers(a.act(k, n), n),
        a.act(k, n).len() == k.len(),
{
}

/// Acting by an orientation and then by its inverse gives back the vector.
pub proof fn lemma_act_inverse(a: SignedPerm, k: Seq<int>, n: int)
    requires
        a.wf(),
        k.len() == a.dim(),
    ensures
        a.inverse().act(a.act(k, n), n) == k,
        a.act(a.inverse().act(k, n), n) == k,
{
    lemma_inverse_wf(a);
    lemma_compose_inverse(a);
    lemma_act_compose(a.inverse(), a, k, n);
    lemma_act_compose(a, a.inverse(), k, n);
    lemma_act_identity(k, n);
}

/// Every power is well formed.
pub proof fn lemma_pow_wf(a: SignedPerm, k: nat)
    requires
        a.wf(),
    ensures
        a.pow(k).wf(),
        a.pow(k).dim() == a.dim(),
    decreases k,
{
    if k == 0 {
        lemma_identity_wf(a.dim());
    } else {
        lemma_pow_wf(a, (k - 1) as nat);
        lemma_compose_wf(a, a.pow((k - 1) as nat));
    }
}

/// A power commutes with its base: `a^k * a == a^(k+1)`.
pub proof fn lemma_pow_succ_right(a: SignedPerm, k: nat)
    requires
        a.wf(),
    ensures
        a.pow(k).compose(a) == a.pow(k + 1),
    decreases k,
{
    lemma_pow_wf(a, k);
    if k == 0 {
        lemma_compose_identity(a);
    } else {
        lemma_pow_succ_right(a, (k - 1) as nat);
        lemma_pow_wf(a, (k - 1) as nat);
        lemma_compose_assoc(a, a.pow((k - 1) as nat), a);
    }
}

/// The powers of the inverse are the inverses of the powers.
pub proof fn lemma_pow_inverse(a: SignedPerm, k: nat)
    requires
        a.wf(),
    ensures
        a.inverse().pow(k) == a.pow(k).inverse(),
    decreases k,
{
    lemma_inverse_wf(a);
    if k == 0 {
        lemma_identity_wf(a.dim());
        lemma_compose_identity(SignedPerm::identity(a.dim()));
        lemma_inverse_unique(SignedPerm::identity(a.dim()), SignedPerm::identity(a.dim()));
    } else {
        let j = (k - 1) as nat;
        lemma_pow_inverse(a, j);
        lemma_pow_wf(a, j);
        lemma_pow_succ_right(a, j);
        lemma_inverse_compose(a.pow(j), a);
    }
}


/// The integers that a sequence of `usize` holds.
pub open spec fn ints(v: Seq<usize>) -> Seq<int> {
    v.map_values(|x: usize| x as int)
}

/// An orientation of a puzzle piece relative to its solved orientation, or
/// a rotation that can be applied to an orientation.
#[derive(Debug)]
pub struct Orientation {
    perm: Vec<usize>,
    flip: Vec<bool>,
}

impl View for Orientation {
    type V = SignedPerm;

    closed spec fn view(&self) -> SignedPerm {
        SignedPerm { perm: self.perm@.map_values(|x: usize| x as int), flip: self.flip@ }
    }
}

impl Orientation {
    /// Returns the solved orientation in `dim` dimensions.
    pub fn identity(dim: usize) -> (r: Orientation)
        ensures
            r@ == SignedPerm::identity(dim as nat),
            r@.wf(),
    {
        let mut perm: Vec<usize> = Vec::new();
        let mut flip: Vec<bool> = Vec::new();
        let mut i: usize = 0;
        while i < dim
            invariant
                i <= dim,
                perm@.len() == i,
                flip@.len() == i,
                forall|j: int| 0 <= j < i ==> perm@[j] == j && !flip@[j],
            decreases dim - i,
        {
            perm.push(i);
            flip.push(false);
            i += 1;
        }
        let r = Orientation { perm, flip };
        assert(r@.perm =~= SignedPerm::identity(dim as nat).perm);
        assert(r@.flip =~= SignedPerm::identity(dim as nat).flip);
        proof {
            lemma_identity_wf(dim as nat);
        }
        r
    }

    /// Builds the quarter turn that moves axis `to` onto axis `from` in
    /// `dim` dimensions (layer `k` of `to` becomes layer `k` of `from`).
    /// The other axes stay put. With `mirror_from` the coordinate landing
    /// on `from` is mirrored instead of the one landing on `to`.
    pub fn quarter_turn(dim: usize, from: usize, to: usize, mirror_from: bool) -> (r: Orientation)
        requires
            from < dim,
            to < dim,
            from != to,
        ensures
            r@ == SignedPerm::quarter_turn(dim as nat, from as int, to as int, mirror_from),
            r@.wf(),
    {
        let mut perm: Vec<usize> = Vec::new();
        let mut flip: Vec<bool> = Vec::new();
        let mut i: usize = 0;
        while i < dim
            invariant
                i <= dim,
                from < dim,
                to < dim,
                perm@.len() == i,
                flip@.len() == i,
                forall|j: int|
                    0 <= j < i ==> perm@[j] as int == SignedPerm::quarter_turn(
                        dim as nat,
                        from as int,
                        to as int,
                        mirror_from,
                    ).perm[j] && flip@[j] == SignedPerm::quarter_turn(
                        dim as nat,
                        from as int,
                        to as int,
                        mirror_from,
                    ).flip[j],
            decreases dim - i,
        {
            if i == from {
                perm.push(to);
                flip.push(mirror_from);
            } else if i == to {
                perm.push(from);
                flip.push(!mirror_from);
            } else {
                perm.push(i);
                flip.push(false);
            }
            i += 1;
        }
        let r = Orientation { perm, flip };
        let ghost q = SignedPerm::quarter_turn(dim as nat, from as int, to as int, mirror_from);
        assert(r@.perm =~= q.perm);
        assert(r@.flip =~= q.flip);
        proof {
            lemma_quarter_turn_wf(dim as nat, from as int, to as int, mirror_from);
        }
        r
    }

    /// Returns a copy of this orientation.
    pub fn duplicate(&self) -> (r: Orientation)
        ensures
            r@ == self@,
    {
        let mut perm: Vec<usize> = Vec::new();
        let mut flip: Vec<bool> = Vec::new();
        let mut i: usize = 0;
        while i < self.perm.len()
            invariant
                i <= self.perm@.len(),
                perm@ == self.perm@.subrange(0, i as int),
            decreases self.perm@.len() - i,
        {
            perm.push(self.perm[i]);
            i += 1;
            assert(perm@ =~= self.perm@.subrange(0, i as int));
        }
        let mut i: usize = 0;
        while i < self.flip.len()
            invariant
                i <= self.flip@.len(),
                flip@ == self.flip@.subrange(0, i as int),
            decreases self.flip@.len() - i,
        {
            flip.push(self.flip[i]);
            i += 1;
            assert(flip@ =~= self.flip@.subrange(0, i as int));
        }
        assert(perm@ =~= self.perm@);
        assert(flip@ =~= self.flip@);
        Orientation { perm, flip }
    }

    /// For a piece in this orientation, returns the axis and side (true for
    /// the positive side) that the sticker now facing side `positive` of
    /// axis `axis` faced when solved.
    pub fn source_of(&self, axis: usize, positive: bool) -> (r: (usize, bool))
        requires
            self@.wf(),
            axis < self@.dim(),
        ensures
            r.0 as int == self@.perm[axis as int],
            r.1 == (positive != self@.flip[axis as int]),
    {
        (self.perm[axis], positive != self.flip[axis])
    }

    /// Returns the number of axes.
    pub fn dim(&self) -> (r: usize)
        ensures
            r == self@.dim(),
    {
        self.perm.len()
    }

    /// Returns `self * other`: the rotation `other` followed by `self`.
    pub fn mul(&self, other: &Orientation) -> (r: Orientation)
        requires
            self@.wf(),
            other@.wf(),
            self@.dim() == other@.dim(),
        ensures
            r@ == self@.compose(other@),
            r@.wf(),
    {
        let d = self.perm.len();
        let mut perm: Vec<usize> = Vec::new();
        let mut flip: Vec<bool> = Vec::new();
        let mut i: usize = 0;
        while i < d
            invariant
                d == self@.dim(),
                self@.wf(),
                other@.wf(),
                self@.dim() == other@.dim(),
                i <= d,
                perm@.len() == i,
                flip@.len() == i,
                forall|j: int|
                    0 <= j < i ==> perm@[j] as int == self@.compose(other@).perm[j] && flip@[j]
                        == self@.compose(other@).flip[j],
            decreases d - i,
        {
            let p = self.perm[i];
            assert(self@.perm[i as int] == p as int);
            assert(0 <= self@.perm[i as int] < d);
            assert(other@.perm[p as int] == other.perm@[p as int] as int);
            perm.push(other.perm[p]);
            flip.push(self.flip[i] != other.flip[p]);
            i += 1;
        }
        let r = Orientation { perm, flip };
        assert(r@.perm =~= self@.compose(other@).perm);
        assert(r@.flip =~= self@.compose(other@).flip);
        proof {
            lemma_compose_wf(self@, other@);
        }
        r
    }

    /// Reverses this orientation.
    #[must_use]
    pub fn rev(&self) -> (r: Orientation)
        requires
            self@.wf(),
        ensures
            r@ == self@.inverse(),
            r@.wf(),
    {
        let d = self.perm.len();
        let mut perm: Vec<usize> = vec![0; d];
        let mut flip: Vec<bool> = vec![false; d];
        let mut i: usize = 0;
        while i < d
            invariant
                d == self@.dim(),
                self@.wf(),
                i <= d,
                perm@.len() == d,
                flip@.len() == d,
                forall|m: int|
                    0 <= m < i ==> perm@[#[trigger] self@.perm[m]] as int == m && flip@[self@.perm[m]]
                        == self@.flip[m],
            decreases d - i,
        {
            let p = self.perm[i];
            assert(self@.perm[i as int] == p as int);
            perm.set(p, i);
            flip.set(p, self.flip[i]);
            assert forall|m: int| 0 <= m < i + 1 implies perm@[self@.perm[m]] as int == m
                && flip@[self@.perm[m]] == self@.flip[m] by {
                if m < i {
                    assert(self@.perm[m] != self@.perm[i as int]);
                    assert(perm@[self@.perm[m]] as int == m);
                } else {
                    assert(self@.perm[m] == p as int);
                    assert(perm@[p as int] == i);
                    assert(perm@[self@.perm[m]] as int == m);
                }
            }
            i += 1;
        }
        let r = Orientation { perm, flip };
        let ghost v = self@.inverse();
        assert forall|j: int| 0 <= j < d implies r@.perm[j] == v.perm[j] && r@.flip[j]
            == v.flip[j] by {
            let m = self@.preimage(j);
            assert(self@.perm[m] == j);
        }
        assert(r@.perm =~= v.perm);
        assert(r@.flip =~= v.flip);
        proof {
            lemma_inverse_wf(self@);
        }
        r
    }

    /// Returns whether two orientations are the same.
    pub fn equals(&self, other: &Orientation) -> (r: bool)
        ensures
            r == (self@ == other@),
    {
        if self.perm.len() != other.perm.len() || self.flip.len() != other.flip.len() {
            proof {
                if self@ == other@ {
                    assert(self@.perm.len() == other@.perm.len());
                }
            }
            return false;
        }
        let mut i: usize = 0;
        while i < self.perm.len()
            invariant
                self.perm@.len() == other.perm@.len(),
                self.flip@.len() == other.flip@.len(),
                i <= self.perm@.len(),
                forall|j: int| 0 <= j < i ==> self.perm@[j] == other.perm@[j],
            decreases self.perm@.len() - i,
        {
            if self.perm[i] != other.perm[i] {
                assert(self@.perm[i as int] != other@.perm[i as int]);
                return false;
            }
            i += 1;
        }
        let mut i: usize = 0;
        while i < self.flip.len()
            invariant
                self.flip@.len() == other.flip@.len(),
                i <= self.flip@.len(),
                forall|j: int| 0 <= j < i ==> self.flip@[j] == other.flip@[j],
            decreases self.flip@.len() - i,
        {
            if self.flip[i] != other.flip[i] {
                assert(self@.flip[i as int] != other@.flip[i as int]);
                return false;
            }
            i += 1;
        }
        assert(self@.perm =~= other@.perm);
        assert(self@.flip =~= other@.flip);
        true
    }

    /// Returns whether this is the solved orientation.
    pub fn is_identity(&self) -> (r: bool)
        ensures
            r == (self@ == SignedPerm::identity(self@.dim())),
    {
        let d = self.perm.len();
        if self.flip.len() != d {
            return false;
        }
        let mut i: usize = 0;
        while i < d
            invariant
                d == self.perm@.len(),
                d == self.flip@.len(),
                i <= d,
                forall|j: int| 0 <= j < i ==> self.perm@[j] == j && !self.flip@[j],
            decreases d - i,
        {
            if self.perm[i] != i || self.flip[i] {
                assert(self@.perm[i as int] != SignedPerm::identity(self@.dim()).perm[i as int]
                    || self@.flip[i as int] != SignedPerm::identity(self@.dim()).flip[i as int]);
                return false;
            }
            i += 1;
        }
        assert(self@.perm =~= SignedPerm::identity(self@.dim()).perm);
        assert(self@.flip =~= SignedPerm::identity(self@.dim()).flip);
        true
    }

    /// Returns the image of the layer vector `k` of an `n`-layer puzzle.
    pub fn act(&self, k: &Vec<usize>, n: usize) -> (r: Vec<usize>)
        requires
            self@.wf(),
            k@.len() == self@.dim(),
            in_layers(ints(k@), n as int),
        ensures
            ints(r@) == self@.act(ints(k@), n as int),
            in_layers(ints(r@), n as int),
            r@.len() == self@.dim(),
    {
        let d = self.perm.len();
        let mut out: Vec<usize> = Vec::new();
        let mut i: usize = 0;
        while i < d
            invariant
                d == self@.dim(),
                self@.wf(),
                k@.len() == d,
                in_layers(ints(k@), n as int),
                i <= d,
                out@.len() == i,
                forall|j: int|
                    0 <= j < i ==> out@[j] as int == self@.act(ints(k@), n as int)[j],
            decreases d - i,
        {
            let p = self.perm[i];
            assert(self@.perm[i as int] == p as int);
            assert(ints(k@)[p as int] == k@[p as int] as int);
            if self.flip[i] {
                out.push(n - 1 - k[p]);
            } else {
                out.push(k[p]);
            }
            i += 1;
        }
        assert(ints(out@) =~= self@.act(ints(k@), n as int));
        proof {
            lemma_act_in_layers(self@, ints(k@), n as int);
        }
        out
    }
}

} // verus!
