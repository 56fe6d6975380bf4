//! Radiance and reflectance, channel by channel, in fixed-point numbers.

use vstd::prelude::*;
use crate::fixed::{lemma_nonnegative, product, product_of, quotient, quotient_of, sum, sum_of};

verus! {

/// A colour by its red, green and blue channels.
#[derive(Clone, Copy, Debug, PartialEq, Eq, Structural)]
pub struct Color {
    pub r: i64,
    pub g: i64,
    pub b: i64,
}

impl Color {
    /// Black: no light in any channel.
    pub open spec fn black() -> Color {
        Color { r: 0, g: 0, b: 0 }
    }

    /// Whether no channel is negative.
    pub open spec fn is_nonneg(self) -> bool {
        self.r >= 0 && self.g >= 0 && self.b >= 0
    }

    /// The sum, channel by channel.
    pub open spec fn spec_plus(self, other: Color) -> Color {
        Color {
            r: sum_of(self.r, other.r),
            g: sum_of(self.g, other.g),
            b: sum_of(self.b, other.b),
        }
    }

    /// The product, channel by channel.
    pub open spec fn spec_times(self, other: Color) -> Color {
        Color {
            r: product_of(self.r, other.r),
            g: product_of(self.g, other.g),
            b: product_of(self.b, other.b),
        }
    }

    /// Every channel multiplied by a number.
    pub open spec fn spec_scaled(self, factor: i64) -> Color {
        Color {
            r: product_of(self.r, factor),
            g: product_of(self.g, factor),
            b: product_of(self.b, factor),
        }
    }

    /// Every channel divided by a positive number.
    pub open spec fn spec_over(self, divisor: i64) -> Color {
        Color {
            r: quotient_of(self.r, divisor),
            g: quotient_of(self.g, divisor),
            b: quotient_of(self.b, divisor),
        }
    }

    /// The colour with these channels.
    pub fn new(r: i64, g: i64, b: i64) -> (c: Color)
        ensures
            c == (Color { r, g, b }),
    {
        Color { r, g, b }
    }

    /// Black.
    pub fn new_empty() -> (c: Color)
        ensures
            c == Color::black(),
    {
        Color { r: 0, g: 0, b: 0 }
    }

    /// The sum, channel by channel.
    pub fn plus(self, other: Color) -> (c: Color)
        ensures
            c == self.spec_plus(other),
    {
        Color { r: sum(self.r, other.r), g: sum(self.g, other.g), b: sum(self.b, other.b) }
    }

    /// The product, channel by channel.
    pub fn times(self, other: Color) -> (c: Color)
        ensures
            c == self.spec_times(other),
    {
        Color {
            r: product(self.r, other.r),
            g: product(self.g, other.g),
            b: product(self.b, other.b),
        }
    }

    /// Every channel multiplied by a number.
    pub fn scaled(self, factor: i64) -> (c: Color)
        ensures
            c == self.spec_scaled(factor),
    {
        Color {
            r: product(self.r, factor),
            g: product(self.g, factor),
            b: product(self.b, factor),
        }
    }

    /// Every channel divided by a positive number.
    pub fn over(self, divisor: i64) -> (c: Color)
        requires
            divisor > 0,
        ensures
            c == self.spec_over(divisor),
    {
        Color {
            r: quotient(self.r, divisor),
            g: quotient(self.g, divisor),
            b: quotient(self.b, divisor),
        }
    }

    /// Sums, products, multiples and quotients of colours without a negative channel have
    /// no negative channel.
    pub proof fn lemma_nonneg(self, other: Color, factor: i64)
        requires
            self.is_nonneg(),
            other.is_nonneg(),
            factor >= 0,
        ensures
            self.spec_plus(other).is_nonneg(),
            self.spec_times(other).is_nonneg(),
            self.spec_scaled(factor).is_nonneg(),
            factor > 0 ==> self.spec_over(factor).is_nonneg(),
    {
        lemma_nonnegative(self.r, other.r);
        lemma_nonnegative(self.g, other.g);
        lemma_nonnegative(self.b, other.b);
        lemma_nonnegative(self.r, factor);
        lemma_nonnegative(self.g, factor);
        lemma_nonnegative(self.b, factor);
    }
}

} // verus!
