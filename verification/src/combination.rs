//! Sums of multiples of points: what an accumulator holds after some windows.

use crate::curve::{Curve, Point};
use vstd::prelude::*;

verus! {

/// The sequence that holds `left[i] + right[i]` at each place.
pub open spec fn added(left: Seq<nat>, right: Seq<nat>) -> Seq<nat> {
    Seq::new(left.len(), |i: int| left[i] + right[i])
}

/// The sequence that holds `factor * coefficients[i]` at each place.
pub open spec fn scaled(factor: nat, coefficients: Seq<nat>) -> Seq<nat> {
    Seq::new(coefficients.len(), |i: int| factor * coefficients[i])
}

/// The sequence of `len` numbers that holds `value` at `place` and zero elsewhere.
pub open spec fn single(len: nat, place: int, value: nat) -> Seq<nat> {
    Seq::new(
        len,
        |i: int|
            if i == place {
                value
            } else {
                0nat
            },
    )
}

impl Curve {
    /// Every point of `points` lies on the curve.
    pub open spec fn has_all(self, points: Seq<Point>) -> bool {
        forall|i: int| 0 <= i < points.len() ==> self.has(#[trigger] points[i])
    }

    /// `coefficients[0] · points[0] + coefficients[1] · points[1] + ...`.
    pub open spec fn combine(self, coefficients: Seq<nat>, points: Seq<Point>) -> Point
        decreases points.len(),
    {
        if points.len() == 0 {
            Point::Infinity
        } else {
            self.plus(
                self.combine(coefficients.drop_last(), points.drop_last()),
                self.scale(coefficients.last(), points.last()),
            )
        }
    }

    pub proof fn lemma_combine_closed(self, coefficients: Seq<nat>, points: Seq<Point>)
        requires
            self.is_group(),
            self.has_all(points),
        ensures
            self.has(self.combine(coefficients, points)),
        decreases points.len(),
    {
        if points.len() == 0 {
            self.lemma_has_infinity();
        } else {
            self.lemma_combine_closed(coefficients.drop_last(), points.drop_last());
            self.lemma_scale_closed(coefficients.last(), points.last());
            self.lemma_plus_closed(
                self.combine(coefficients.drop_last(), points.drop_last()),
                self.scale(coefficients.last(), points.last()),
            );
        }
    }

    /// A sum of two combinations of the same points is the combination with the
    /// coefficients added.
    pub proof fn lemma_combine_plus(self, left: Seq<nat>, right: Seq<nat>, points: Seq<Point>)
        requires
            self.is_group(),
            self.has_all(points),
            left.len() == points.len(),
            right.len() == points.len(),
        ensures
            self.plus(self.combine(left, points), self.combine(right, points)) == self.combine(
                added(left, right),
                points,
            ),
        decreases points.len(),
    {
        if points.len() == 0 {
            self.lemma_has_infinity();
            self.lemma_plus_infinity(Point::Infinity);
        } else {
            let rest = points.drop_last();
            let p = points.last();
            self.lemma_combine_plus(left.drop_last(), right.drop_last(), rest);
            assert(added(left, right).drop_last() =~= added(left.drop_last(), right.drop_last()));
            assert(added(left, right).last() == left.last() + right.last());
            self.lemma_combine_closed(left.drop_last(), rest);
            self.lemma_combine_closed(right.drop_last(), rest);
            self.lemma_scale_closed(left.last(), p);
            self.lemma_scale_closed(right.last(), p);
            self.lemma_interchange(
                self.combine(left.drop_last(), rest),
                self.scale(left.last(), p),
                self.combine(right.drop_last(), rest),
                self.scale(right.last(), p),
            );
            self.lemma_scale_plus(left.last(), right.last(), p);
        }
    }

    /// A multiple of a combination is the combination with the coefficients multiplied.
    pub proof fn lemma_combine_scale(self, factor: nat, coefficients: Seq<nat>, points: Seq<Point>)
        requires
            self.is_group(),
            self.has_all(points),
            coefficients.len() == points.len(),
        ensures
            self.scale(factor, self.combine(coefficients, points)) == self.combine(
                scaled(factor, coefficients),
                points,
            ),
        decreases points.len(),
    {
        if points.len() == 0 {
            self.lemma_scale_infinity(factor);
        } else {
            let rest = points.drop_last();
            let p = points.last();
            self.lemma_combine_scale(factor, coefficients.drop_last(), rest);
            assert(scaled(factor, coefficients).drop_last() =~= scaled(
                factor,
                coefficients.drop_last(),
            ));
            assert(scaled(factor, coefficients).last() == factor * coefficients.last());
            self.lemma_combine_closed(coefficients.drop_last(), rest);
            self.lemma_scale_closed(coefficients.last(), p);
            self.lemma_scale_of_plus(
                factor,
                self.combine(coefficients.drop_last(), rest),
                self.scale(coefficients.last(), p),
            );
            self.lemma_scale_of_scale(factor, coefficients.last(), p);
        }
    }

    /// A combination with zero coefficients is the point at infinity.
    pub proof fn lemma_combine_zero(self, points: Seq<Point>)
        requires
            self.is_group(),
        ensures
            self.combine(Seq::new(points.len(), |i: int| 0nat), points) == Point::Infinity,
        decreases points.len(),
    {
        if points.len() > 0 {
            let zeros = Seq::new(points.len(), |i: int| 0nat);
            assert(zeros.drop_last() =~= Seq::new(points.drop_last().len(), |i: int| 0nat));
            self.lemma_combine_zero(points.drop_last());
            self.lemma_has_infinity();
            self.lemma_plus_infinity(Point::Infinity);
        }
    }

    /// A combination with one coefficient that is not zero is a multiple of one point.
    pub proof fn lemma_combine_single(self, place: int, value: nat, points: Seq<Point>)
        requires
            self.is_group(),
            self.has_all(points),
            0 <= place < points.len(),
        ensures
            self.combine(single(points.len(), place, value), points) == self.scale(
                value,
                points[place],
            ),
        decreases points.len(),
    {
        let rest = points.drop_last();
        let coefficients = single(points.len(), place, value);
        self.lemma_has_infinity();
        if place == points.len() - 1 {
            assert(coefficients.drop_last() =~= Seq::new(rest.len(), |i: int| 0nat));
            self.lemma_combine_zero(rest);
            self.lemma_scale_closed(value, points.last());
            self.lemma_plus_infinity(self.scale(value, points.last()));
        } else {
            assert(coefficients.drop_last() =~= single(rest.len(), place, value));
            self.lemma_combine_single(place, value, rest);
            assert(self.scale(0, points.last()) == Point::Infinity);
            self.lemma_scale_closed(value, points[place]);
            self.lemma_plus_infinity(self.scale(value, points[place]));
        }
    }

    /// A combination of one more point adds the multiple of that point.
    pub proof fn lemma_combine_push(self, coefficients: Seq<nat>, points: Seq<Point>, k: nat, p: Point)
        ensures
            self.combine(coefficients.push(k), points.push(p)) == self.plus(
                self.combine(coefficients, points),
                self.scale(k, p),
            ),
    {
        assert(coefficients.push(k).drop_last() =~= coefficients);
        assert(points.push(p).drop_last() =~= points);
    }

    /// What is added and then taken away again leaves the rest.
    pub proof fn lemma_cancel(self, p: Point, q: Point)
        requires
            self.is_group(),
            self.has(p),
            self.has(q),
        ensures
            self.plus(self.plus(p, q), self.neg(q)) == p,
    {
        self.lemma_neg_closed(q);
        self.lemma_associates(p, q, self.neg(q));
        self.lemma_plus_neg(q);
        self.lemma_plus_infinity(p);
    }
}

} // verus!
