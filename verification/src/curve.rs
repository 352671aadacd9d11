//! The group of an emulated curve, as contracts and proofs see it.

use vstd::prelude::*;

verus! {

/// A point of an emulated curve: the point at infinity or an affine pair.
pub enum Point {
    Infinity,
    Affine { x: int, y: int },
}

/// An emulated curve: which points lie on it, and how two of them are added and one is
/// negated. Nothing is fixed about the formulas: every statement about a curve is made
/// under [`Curve::is_group`].
pub struct Curve {
    pub contains: spec_fn(Point) -> bool,
    pub sum: spec_fn(Point, Point) -> Point,
    pub negate: spec_fn(Point) -> Point,
}

/// The integer that a point of the line stands for.
pub open spec fn along_line(p: Point) -> int {
    match p {
        Point::Infinity => 0,
        Point::Affine { x, .. } => x,
    }
}

/// The point of the line that stands for `n`.
pub open spec fn on_line(n: int) -> Point {
    if n == 0 {
        Point::Infinity
    } else {
        Point::Affine { x: n, y: 0 }
    }
}

impl Curve {
    /// `p` lies on the curve.
    pub open spec fn has(self, p: Point) -> bool {
        (self.contains)(p)
    }

    /// `p + q`.
    pub open spec fn plus(self, p: Point, q: Point) -> Point {
        (self.sum)(p, q)
    }

    /// `-p`.
    pub open spec fn neg(self, p: Point) -> Point {
        (self.negate)(p)
    }

    /// The points of the curve form a commutative group under `plus`, with the point at
    /// infinity as its neutral element.
    #[verifier::opaque]
    pub open spec fn is_group(self) -> bool {
        &&& self.has(Point::Infinity)
        &&& forall|p: Point, q: Point|
            self.has(p) && self.has(q) ==> self.has(#[trigger] self.plus(p, q))
        &&& forall|p: Point| self.has(p) ==> self.has(#[trigger] self.neg(p))
        &&& forall|p: Point| self.has(p) ==> #[trigger] self.plus(p, Point::Infinity) == p
        &&& forall|p: Point|
            self.has(p) ==> self.plus(p, #[trigger] self.neg(p)) == Point::Infinity
        &&& forall|p: Point, q: Point|
            self.has(p) && self.has(q) ==> #[trigger] self.plus(p, q) == self.plus(q, p)
        &&& forall|p: Point, q: Point, r: Point|
            self.has(p) && self.has(q) && self.has(r) ==> #[trigger] self.plus(
                self.plus(p, q),
                r,
            ) == self.plus(p, self.plus(q, r))
    }

    /// `n · p`: the sum of `n` copies of `p`.
    pub open spec fn scale(self, n: nat, p: Point) -> Point
        decreases n,
    {
        if n == 0 {
            Point::Infinity
        } else {
            self.plus(self.scale((n - 1) as nat, p), p)
        }
    }

    /// `2 · p`.
    pub open spec fn twice(self, p: Point) -> Point {
        self.plus(p, p)
    }

    /// The integers under addition, laid out on a line: zero at infinity and every other
    /// integer `n` at the point `(n, 0)`.
    pub open spec fn line() -> Curve {
        Curve {
            contains: |p: Point| p == on_line(along_line(p)),
            sum: |p: Point, q: Point| on_line(along_line(p) + along_line(q)),
            negate: |p: Point| on_line(-along_line(p)),
        }
    }

    /// The laws of a group can be met, and not by one point alone: the integers on a
    /// line form a group.
    pub proof fn lemma_line_is_group()
        ensures
            Curve::line().is_group(),
            Curve::line().has(Point::Affine { x: 1, y: 0 }),
            Curve::line().scale(2, Point::Affine { x: 1, y: 0 }) == (Point::Affine { x: 2, y: 0 }),
    {
        reveal(Curve::is_group);
        let line = Curve::line();
        let one = Point::Affine { x: 1, y: 0 };
        assert(line.scale(0, one) == Point::Infinity);
        assert(line.scale(1, one) == line.plus(line.scale(0, one), one));
        assert(line.scale(2, one) == line.plus(line.scale(1, one), one));
    }

    pub proof fn lemma_has_infinity(self)
        requires
            self.is_group(),
        ensures
            self.has(Point::Infinity),
    {
        reveal(Curve::is_group);
    }

    pub proof fn lemma_plus_closed(self, p: Point, q: Point)
        requires
            self.is_group(),
            self.has(p),
            self.has(q),
        ensures
            self.has(self.plus(p, q)),
    {
        reveal(Curve::is_group);
    }

    pub proof fn lemma_neg_closed(self, p: Point)
        requires
            self.is_group(),
            self.has(p),
        ensures
            self.has(self.neg(p)),
    {
        reveal(Curve::is_group);
    }

    pub proof fn lemma_plus_infinity(self, p: Point)
        requires
            self.is_group(),
            self.has(p),
        ensures
            self.plus(p, Point::Infinity) == p,
            self.plus(Point::Infinity, p) == p,
    {
        reveal(Curve::is_group);
    }

    pub proof fn lemma_plus_neg(self, p: Point)
        requires
            self.is_group(),
            self.has(p),
        ensures
            self.plus(p, self.neg(p)) == Point::Infinity,
    {
        reveal(Curve::is_group);
    }

    pub proof fn lemma_commutes(self, p: Point, q: Point)
        requires
            self.is_group(),
            self.has(p),
            self.has(q),
        ensures
            self.plus(p, q) == self.plus(q, p),
    {
        reveal(Curve::is_group);
    }

    pub proof fn lemma_associates(self, p: Point, q: Point, r: Point)
        requires
            self.is_group(),
            self.has(p),
            self.has(q),
            self.has(r),
        ensures
            self.plus(self.plus(p, q), r) == self.plus(p, self.plus(q, r)),
    {
        reveal(Curve::is_group);
    }

    /// `(p + q) + (r + s) == (p + r) + (q + s)`.
    pub proof fn lemma_interchange(self, p: Point, q: Point, r: Point, s: Point)
        requires
            self.is_group(),
            self.has(p),
            self.has(q),
            self.has(r),
            self.has(s),
        ensures
            self.plus(self.plus(p, q), self.plus(r, s)) == self.plus(
                self.plus(p, r),
                self.plus(q, s),
            ),
    {
        self.lemma_plus_closed(p, q);
        self.lemma_plus_closed(r, s);
        self.lemma_plus_closed(q, s);
        self.lemma_plus_closed(q, r);
        self.lemma_plus_closed(r, q);
        // (p + q) + (r + s) == p + (q + (r + s))
        self.lemma_associates(p, q, self.plus(r, s));
        // q + (r + s) == (q + r) + s == (r + q) + s == r + (q + s)
        self.lemma_associates(q, r, s);
        self.lemma_commutes(q, r);
        self.lemma_associates(r, q, s);
        // p + (r + (q + s)) == (p + r) + (q + s)
        self.lemma_associates(p, r, self.plus(q, s));
    }

    pub proof fn lemma_scale_closed(self, n: nat, p: Point)
        requires
            self.is_group(),
            self.has(p),
        ensures
            self.has(self.scale(n, p)),
        decreases n,
    {
        if n == 0 {
            self.lemma_has_infinity();
        } else {
            self.lemma_scale_closed((n - 1) as nat, p);
            self.lemma_plus_closed(self.scale((n - 1) as nat, p), p);
        }
    }

    pub proof fn lemma_scale_one(self, p: Point)
        requires
            self.is_group(),
            self.has(p),
        ensures
            self.scale(1, p) == p,
    {
        assert(self.scale(0, p) == Point::Infinity);
        self.lemma_plus_infinity(p);
    }

    /// `(m + n) · p == m · p + n · p`.
    pub proof fn lemma_scale_plus(self, m: nat, n: nat, p: Point)
        requires
            self.is_group(),
            self.has(p),
        ensures
            self.scale(m + n, p) == self.plus(self.scale(m, p), self.scale(n, p)),
        decreases n,
    {
        self.lemma_scale_closed(m, p);
        if n == 0 {
            self.lemma_plus_infinity(self.scale(m, p));
        } else {
            let k = (n - 1) as nat;
            self.lemma_scale_plus(m, k, p);
            self.lemma_scale_closed(k, p);
            self.lemma_associates(self.scale(m, p), self.scale(k, p), p);
            assert(self.scale(m + n, p) == self.plus(self.scale((m + k) as nat, p), p));
        }
    }

    /// `n · (p + q) == n · p + n · q`.
    pub proof fn lemma_scale_of_plus(self, n: nat, p: Point, q: Point)
        requires
            self.is_group(),
            self.has(p),
            self.has(q),
        ensures
            self.scale(n, self.plus(p, q)) == self.plus(self.scale(n, p), self.scale(n, q)),
        decreases n,
    {
        if n == 0 {
            self.lemma_has_infinity();
            self.lemma_plus_infinity(Point::Infinity);
        } else {
            let k = (n - 1) as nat;
            self.lemma_scale_of_plus(k, p, q);
            self.lemma_scale_closed(k, p);
            self.lemma_scale_closed(k, q);
            self.lemma_interchange(self.scale(k, p), self.scale(k, q), p, q);
        }
    }

    /// `m · (n · p) == (m * n) · p`.
    pub proof fn lemma_scale_of_scale(self, m: nat, n: nat, p: Point)
        requires
            self.is_group(),
            self.has(p),
        ensures
            self.scale(m, self.scale(n, p)) == self.scale(m * n, p),
        decreases m,
    {
        if m == 0 {
            assert(m * n == 0);
        } else {
            let k = (m - 1) as nat;
            self.lemma_scale_of_scale(k, n, p);
            self.lemma_scale_plus(k * n, n, p);
            assert(k * n + n == m * n) by (nonlinear_arith)
                requires
                    k + 1 == m,
            ;
        }
    }

    /// `n · ∞ == ∞`.
    pub proof fn lemma_scale_infinity(self, n: nat)
        requires
            self.is_group(),
        ensures
            self.scale(n, Point::Infinity) == Point::Infinity,
        decreases n,
    {
        if n > 0 {
            self.lemma_scale_infinity((n - 1) as nat);
            self.lemma_has_infinity();
            self.lemma_plus_infinity(Point::Infinity);
        }
    }

    /// `p + p == 2 · p`.
    pub proof fn lemma_twice(self, p: Point)
        requires
            self.is_group(),
            self.has(p),
        ensures
            self.twice(p) == self.scale(2, p),
    {
        self.lemma_scale_one(p);
        assert(self.scale(2, p) == self.plus(self.scale(1, p), p));
    }
}

} // verus!
