//! Formulas, and values that are computed by them.
use vstd::prelude::*;
use crate::numerics::{
    clamp, is_clamped, is_cosine, is_count, is_decimal, is_difference, is_exponential, is_magnitude,
    is_negative, is_pi, is_power, is_product, is_quotient, is_root, is_sine, is_sum, Numerics,
};

verus! {

/// A formula over the operations of a number type.
pub enum Formula<V> {
    Known(V),
    Decimal(i64, u32),
    Count(usize),
    Pi,
    Plus(Box<Formula<V>>, Box<Formula<V>>),
    Minus(Box<Formula<V>>, Box<Formula<V>>),
    Times(Box<Formula<V>>, Box<Formula<V>>),
    Over(Box<Formula<V>>, Box<Formula<V>>),
    Power(Box<Formula<V>>, Box<Formula<V>>),
    Negative(Box<Formula<V>>),
    Magnitude(Box<Formula<V>>),
    Root(Box<Formula<V>>),
    Exponential(Box<Formula<V>>),
    Sine(Box<Formula<V>>),
    Cosine(Box<Formula<V>>),
    Within(Box<Formula<V>>, Box<Formula<V>>, Box<Formula<V>>),
}

impl<V> Formula<V> {
    pub open spec fn plus(self, other: Formula<V>) -> Formula<V> {
        Formula::Plus(Box::new(self), Box::new(other))
    }

    pub open spec fn minus(self, other: Formula<V>) -> Formula<V> {
        Formula::Minus(Box::new(self), Box::new(other))
    }

    pub open spec fn times(self, other: Formula<V>) -> Formula<V> {
        Formula::Times(Box::new(self), Box::new(other))
    }

    pub open spec fn over(self, other: Formula<V>) -> Formula<V> {
        Formula::Over(Box::new(self), Box::new(other))
    }

    pub open spec fn power(self, other: Formula<V>) -> Formula<V> {
        Formula::Power(Box::new(self), Box::new(other))
    }

    pub open spec fn negative(self) -> Formula<V> {
        Formula::Negative(Box::new(self))
    }

    pub open spec fn magnitude(self) -> Formula<V> {
        Formula::Magnitude(Box::new(self))
    }

    pub open spec fn root(self) -> Formula<V> {
        Formula::Root(Box::new(self))
    }

    pub open spec fn exponential(self) -> Formula<V> {
        Formula::Exponential(Box::new(self))
    }

    pub open spec fn sine(self) -> Formula<V> {
        Formula::Sine(Box::new(self))
    }

    pub open spec fn cosine(self) -> Formula<V> {
        Formula::Cosine(Box::new(self))
    }

    pub open spec fn within(self, low: Formula<V>, high: Formula<V>) -> Formula<V> {
        Formula::Within(Box::new(self), Box::new(low), Box::new(high))
    }
}

/// `v` can be what a formula gives, its parts computed before the whole.
pub open spec fn evaluates<K: Numerics>(k: &K, formula: Formula<K::Value>, v: K::Value) -> bool
    decreases formula,
{
    match formula {
        Formula::Known(x) => v == x,
        Formula::Decimal(digits, places) => is_decimal(k, digits, places, v),
        Formula::Count(n) => is_count(k, n, v),
        Formula::Pi => is_pi(k, v),
        Formula::Plus(a, b) => exists|x: K::Value, y: K::Value| #[trigger]
            is_sum(k, x, y, v) && evaluates(k, *a, x) && evaluates(k, *b, y),
        Formula::Minus(a, b) => exists|x: K::Value, y: K::Value| #[trigger]
            is_difference(k, x, y, v) && evaluates(k, *a, x) && evaluates(k, *b, y),
        Formula::Times(a, b) => exists|x: K::Value, y: K::Value| #[trigger]
            is_product(k, x, y, v) && evaluates(k, *a, x) && evaluates(k, *b, y),
        Formula::Over(a, b) => exists|x: K::Value, y: K::Value| #[trigger]
            is_quotient(k, x, y, v) && evaluates(k, *a, x) && evaluates(k, *b, y),
        Formula::Power(a, b) => exists|x: K::Value, y: K::Value| #[trigger]
            is_power(k, x, y, v) && evaluates(k, *a, x) && evaluates(k, *b, y),
        Formula::Negative(a) => exists|x: K::Value| #[trigger]
            is_negative(k, x, v) && evaluates(k, *a, x),
        Formula::Magnitude(a) => exists|x: K::Value| #[trigger]
            is_magnitude(k, x, v) && evaluates(k, *a, x),
        Formula::Root(a) => exists|x: K::Value| #[trigger]
            is_root(k, x, v) && evaluates(k, *a, x),
        Formula::Exponential(a) => exists|x: K::Value| #[trigger]
            is_exponential(k, x, v) && evaluates(k, *a, x),
        Formula::Sine(a) => exists|x: K::Value| #[trigger]
            is_sine(k, x, v) && evaluates(k, *a, x),
        Formula::Cosine(a) => exists|x: K::Value| #[trigger]
            is_cosine(k, x, v) && evaluates(k, *a, x),
        Formula::Within(a, low, high) => exists|x: K::Value, l: K::Value, h: K::Value| #[trigger]
            is_clamped(k, x, l, h, v) && evaluates(k, *a, x) && evaluates(k, *low, l) && evaluates(
                k,
                *high,
                h,
            ),
    }
}

/// A value, and the formula that it was computed by.
pub struct Term<V> {
    pub value: V,
    pub formula: Ghost<Formula<V>>,
}

impl<V: Copy> Term<V> {
    /// Whether the value can be what the formula gives.
    pub open spec fn holds<K: Numerics<Value = V>>(self, k: &K) -> bool {
        evaluates(k, self.formula@, self.value)
    }

    /// A value that is given.
    pub fn known<K: Numerics<Value = V>>(k: &K, value: V) -> (term: Self)
        ensures
            term.holds(k),
            term.formula@ == Formula::Known(value),
    {
        Term { value, formula: Ghost(Formula::Known(value)) }
    }

    /// A decimal number.
    pub fn decimal<K: Numerics<Value = V>>(k: &K, digits: i64, places: u32) -> (term: Self)
        ensures
            term.holds(k),
            term.formula@ == Formula::<V>::Decimal(digits, places),
    {
        Term { value: k.decimal(digits, places), formula: Ghost(Formula::Decimal(digits, places)) }
    }

    /// A number of things.
    pub fn count<K: Numerics<Value = V>>(k: &K, n: usize) -> (term: Self)
        ensures
            term.holds(k),
            term.formula@ == Formula::<V>::Count(n),
    {
        Term { value: k.count(n), formula: Ghost(Formula::Count(n)) }
    }

    /// The ratio of a circle's circumference to its diameter.
    pub fn pi<K: Numerics<Value = V>>(k: &K) -> (term: Self)
        ensures
            term.holds(k),
            term.formula@ == Formula::<V>::Pi,
    {
        Term { value: k.pi(), formula: Ghost(Formula::Pi) }
    }

    /// The sum of two terms.
    pub fn plus<K: Numerics<Value = V>>(&self, k: &K, other: &Self) -> (term: Self)
        requires
            self.holds(k),
            other.holds(k),
        ensures
            term.holds(k),
            term.formula@ == self.formula@.plus(other.formula@),
    {
        let value = k.plus(self.value, other.value);
        assert(is_sum(k, self.value, other.value, value));
        Term { value, formula: Ghost(self.formula@.plus(other.formula@)) }
    }

    /// The difference of two terms.
    pub fn minus<K: Numerics<Value = V>>(&self, k: &K, other: &Self) -> (term: Self)
        requires
            self.holds(k),
            other.holds(k),
        ensures
            term.holds(k),
            term.formula@ == self.formula@.minus(other.formula@),
    {
        let value = k.minus(self.value, other.value);
        assert(is_difference(k, self.value, other.value, value));
        Term { value, formula: Ghost(self.formula@.minus(other.formula@)) }
    }

    /// The product of two terms.
    pub fn times<K: Numerics<Value = V>>(&self, k: &K, other: &Self) -> (term: Self)
        requires
            self.holds(k),
            other.holds(k),
        ensures
            term.holds(k),
            term.formula@ == self.formula@.times(other.formula@),
    {
        let value = k.times(self.value, other.value);
        assert(is_product(k, self.value, other.value, value));
        Term { value, formula: Ghost(self.formula@.times(other.formula@)) }
    }

    /// The quotient of two terms.
    pub fn over<K: Numerics<Value = V>>(&self, k: &K, other: &Self) -> (term: Self)
        requires
            self.holds(k),
            other.holds(k),
        ensures
            term.holds(k),
            term.formula@ == self.formula@.over(other.formula@),
    {
        let value = k.over(self.value, other.value);
        assert(is_quotient(k, self.value, other.value, value));
        Term { value, formula: Ghost(self.formula@.over(other.formula@)) }
    }

    /// A term to the power of another.
    pub fn power<K: Numerics<Value = V>>(&self, k: &K, other: &Self) -> (term: Self)
        requires
            self.holds(k),
            other.holds(k),
        ensures
            term.holds(k),
            term.formula@ == self.formula@.power(other.formula@),
    {
        let value = k.power(self.value, other.value);
        assert(is_power(k, self.value, other.value, value));
        Term { value, formula: Ghost(self.formula@.power(other.formula@)) }
    }

    /// A term with its sign turned.
    pub fn negative<K: Numerics<Value = V>>(&self, k: &K) -> (term: Self)
        requires
            self.holds(k),
        ensures
            term.holds(k),
            term.formula@ == self.formula@.negative(),
    {
        let value = k.negative(self.value);
        assert(is_negative(k, self.value, value));
        Term { value, formula: Ghost(self.formula@.negative()) }
    }

    /// The size of a term.
    pub fn magnitude<K: Numerics<Value = V>>(&self, k: &K) -> (term: Self)
        requires
            self.holds(k),
        ensures
            term.holds(k),
            term.formula@ == self.formula@.magnitude(),
    {
        let value = k.magnitude(self.value);
        assert(is_magnitude(k, self.value, value));
        Term { value, formula: Ghost(self.formula@.magnitude()) }
    }

    /// The square root of a term.
    pub fn root<K: Numerics<Value = V>>(&self, k: &K) -> (term: Self)
        requires
            self.holds(k),
        ensures
            term.holds(k),
            term.formula@ == self.formula@.root(),
    {
        let value = k.root(self.value);
        assert(is_root(k, self.value, value));
        Term { value, formula: Ghost(self.formula@.root()) }
    }

    /// Euler's number to the power of a term.
    pub fn exponential<K: Numerics<Value = V>>(&self, k: &K) -> (term: Self)
        requires
            self.holds(k),
        ensures
            term.holds(k),
            term.formula@ == self.formula@.exponential(),
    {
        let value = k.exponential(self.value);
        assert(is_exponential(k, self.value, value));
        Term { value, formula: Ghost(self.formula@.exponential()) }
    }

    /// The sine of a term.
    pub fn sine<K: Numerics<Value = V>>(&self, k: &K) -> (term: Self)
        requires
            self.holds(k),
        ensures
            term.holds(k),
            term.formula@ == self.formula@.sine(),
    {
        let value = k.sine(self.value);
        assert(is_sine(k, self.value, value));
        Term { value, formula: Ghost(self.formula@.sine()) }
    }

    /// The cosine of a term.
    pub fn cosine<K: Numerics<Value = V>>(&self, k: &K) -> (term: Self)
        requires
            self.holds(k),
        ensures
            term.holds(k),
            term.formula@ == self.formula@.cosine(),
    {
        let value = k.cosine(self.value);
        assert(is_cosine(k, self.value, value));
        Term { value, formula: Ghost(self.formula@.cosine()) }
    }

    /// A term, kept within two others.
    pub fn within<K: Numerics<Value = V>>(&self, k: &K, low: &Self, high: &Self) -> (term: Self)
        requires
            self.holds(k),
            low.holds(k),
            high.holds(k),
        ensures
            term.holds(k),
            term.formula@ == self.formula@.within(low.formula@, high.formula@),
    {
        let value = clamp(k, self.value, low.value, high.value);
        assert(is_clamped(k, self.value, low.value, high.value, value));
        Term { value, formula: Ghost(self.formula@.within(low.formula@, high.formula@)) }
    }
}

// ── Parts of a formula ──

/// The values of the two parts of a sum.
pub proof fn sum_parts<K: Numerics>(
    k: &K,
    f: Formula<K::Value>,
    g: Formula<K::Value>,
    v: K::Value,
) -> (parts: (K::Value, K::Value))
    requires
        evaluates(k, f.plus(g), v),
    ensures
        is_sum(k, parts.0, parts.1, v),
        evaluates(k, f, parts.0),
        evaluates(k, g, parts.1),
{
    choose|x: K::Value, y: K::Value| #[trigger]
        is_sum(k, x, y, v) && evaluates(k, f, x) && evaluates(k, g, y)
}

/// The values of the two parts of a difference.
pub proof fn difference_parts<K: Numerics>(
    k: &K,
    f: Formula<K::Value>,
    g: Formula<K::Value>,
    v: K::Value,
) -> (parts: (K::Value, K::Value))
    requires
        evaluates(k, f.minus(g), v),
    ensures
        is_difference(k, parts.0, parts.1, v),
        evaluates(k, f, parts.0),
        evaluates(k, g, parts.1),
{
    choose|x: K::Value, y: K::Value| #[trigger]
        is_difference(k, x, y, v) && evaluates(k, f, x) && evaluates(k, g, y)
}

/// The values of the two parts of a product.
pub proof fn product_parts<K: Numerics>(
    k: &K,
    f: Formula<K::Value>,
    g: Formula<K::Value>,
    v: K::Value,
) -> (parts: (K::Value, K::Value))
    requires
        evaluates(k, f.times(g), v),
    ensures
        is_product(k, parts.0, parts.1, v),
        evaluates(k, f, parts.0),
        evaluates(k, g, parts.1),
{
    choose|x: K::Value, y: K::Value| #[trigger]
        is_product(k, x, y, v) && evaluates(k, f, x) && evaluates(k, g, y)
}

/// The values of the two parts of a quotient.
pub proof fn quotient_parts<K: Numerics>(
    k: &K,
    f: Formula<K::Value>,
    g: Formula<K::Value>,
    v: K::Value,
) -> (parts: (K::Value, K::Value))
    requires
        evaluates(k, f.over(g), v),
    ensures
        is_quotient(k, parts.0, parts.1, v),
        evaluates(k, f, parts.0),
        evaluates(k, g, parts.1),
{
    choose|x: K::Value, y: K::Value| #[trigger]
        is_quotient(k, x, y, v) && evaluates(k, f, x) && evaluates(k, g, y)
}

/// The value under a turned sign.
pub proof fn negative_part<K: Numerics>(
    k: &K,
    f: Formula<K::Value>,
    v: K::Value,
) -> (part: K::Value)
    requires
        evaluates(k, f.negative(), v),
    ensures
        is_negative(k, part, v),
        evaluates(k, f, part),
{
    choose|x: K::Value| #[trigger] is_negative(k, x, v) && evaluates(k, f, x)
}

/// The value under an exponential.
pub proof fn exponential_part<K: Numerics>(
    k: &K,
    f: Formula<K::Value>,
    v: K::Value,
) -> (part: K::Value)
    requires
        evaluates(k, f.exponential(), v),
    ensures
        is_exponential(k, part, v),
        evaluates(k, f, part),
{
    choose|x: K::Value| #[trigger] is_exponential(k, x, v) && evaluates(k, f, x)
}

/// The value under a sine.
pub proof fn sine_part<K: Numerics>(
    k: &K,
    f: Formula<K::Value>,
    v: K::Value,
) -> (part: K::Value)
    requires
        evaluates(k, f.sine(), v),
    ensures
        is_sine(k, part, v),
        evaluates(k, f, part),
{
    choose|x: K::Value| #[trigger] is_sine(k, x, v) && evaluates(k, f, x)
}

/// The value under a cosine.
pub proof fn cosine_part<K: Numerics>(
    k: &K,
    f: Formula<K::Value>,
    v: K::Value,
) -> (part: K::Value)
    requires
        evaluates(k, f.cosine(), v),
    ensures
        is_cosine(k, part, v),
        evaluates(k, f, part),
{
    choose|x: K::Value| #[trigger] is_cosine(k, x, v) && evaluates(k, f, x)
}

/// The values of a formula that is kept within two others, and of these.
pub proof fn within_parts<K: Numerics>(
    k: &K,
    f: Formula<K::Value>,
    low: Formula<K::Value>,
    high: Formula<K::Value>,
    v: K::Value,
) -> (parts: (K::Value, K::Value, K::Value))
    requires
        evaluates(k, f.within(low, high), v),
    ensures
        is_clamped(k, parts.0, parts.1, parts.2, v),
        evaluates(k, f, parts.0),
        evaluates(k, low, parts.1),
        evaluates(k, high, parts.2),
{
    choose|x: K::Value, l: K::Value, h: K::Value| #[trigger]
        is_clamped(k, x, l, h, v) && evaluates(k, f, x) && evaluates(k, low, l) && evaluates(
            k,
            high,
            h,
        )
}

} // verus!
