//! Attributes, products and pairings, and the comparison of two ordinal
//! codes under an attribute's rule.

use vstd::prelude::*;

verus! {

/// How two ordinal codes of one attribute are compared: `a` is the code of the
/// reference product, `b` that of the candidate.
#[derive(Clone, Copy, Debug, PartialEq, Eq, Structural)]
pub enum CompareType {
    /// `b == a`.
    Equal,
    /// `b >= a`.
    GreaterThanOrEqual,
    /// `b <= a`.
    LessThanOrEqual,
    /// `b` lies in `[max(a - down, 0), a + up]`; fields are `(up, down)`.
    IntervalMatch(u16, u16),
    /// Inside the same band, decays linearly from 1 at `b == a` to 1/2 at the
    /// band's edge; 0 outside. Fields are `(up, down)`.
    LinearInterval(u16, u16),
}

/// An attribute: its name, its vocabulary (the value at position `k` has
/// ordinal code `k + 1`; code 0 means "absent") and its comparison rule.
#[derive(Debug)]
pub struct Attribute {
    pub name: String,
    pub values: Vec<String>,
    pub compare_type: CompareType,
}

pub type ProductId = u32;

/// A catalog item with its encoded attribute vector, aligned with the
/// attribute list.
#[derive(Debug)]
pub struct Product {
    pub id: ProductId,
    pub name: String,
    pub values: Vec<u16>,
}

/// One accepted pairing: (original product, compatible product).
#[derive(Clone, Copy, Debug, PartialEq, Eq, Structural)]
pub struct Match(pub ProductId, pub ProductId);

/// The exact rational `num / den`.
#[derive(Clone, Copy, Debug, PartialEq, Eq, Structural)]
pub struct Fraction {
    pub num: u64,
    pub den: u64,
}

/// A tolerance of 0 steps counts as 1 in a denominator.
pub open spec fn side(x: u16) -> int {
    if x == 0 {
        1
    } else {
        x as int
    }
}

/// The common denominator of every similarity that a rule can produce.
pub open spec fn spec_scale(ct: CompareType) -> int {
    match ct {
        CompareType::LinearInterval(up, down) => 2 * (side(up) * side(down)),
        _ => 1,
    }
}

/// `b` lies in the band `[max(a - down, 0), a + up]`.
pub open spec fn in_band(a: int, b: int, up: int, down: int) -> bool {
    b <= a + up && b >= (if down >= a { 0 } else { a - down })
}

/// A pair of codes takes part in weight learning when either side is present.
pub open spec fn spec_applicable(a: int, b: int) -> bool {
    a != 0 || b != 0
}

/// The similarity of `b` to `a` under `ct`, in units of `1 / spec_scale(ct)`.
pub open spec fn spec_ticks(ct: CompareType, a: int, b: int) -> int {
    if a == 0 || b == 0 {
        0
    } else {
        match ct {
            CompareType::Equal => if b == a { 1 } else { 0 },
            CompareType::GreaterThanOrEqual => if b >= a { 1 } else { 0 },
            CompareType::LessThanOrEqual => if b <= a { 1 } else { 0 },
            CompareType::IntervalMatch(up, down) => if in_band(a, b, up as int, down as int) {
                1
            } else {
                0
            },
            CompareType::LinearInterval(up, down) => {
                if !in_band(a, b, up as int, down as int) {
                    0
                } else if b > a && up > 0 {
                    (2 * up - (b - a)) * side(down)
                } else if a > b && down > 0 {
                    (2 * down - (a - b)) * side(up)
                } else {
                    2 * (side(up) * side(down))
                }
            },
        }
    }
}

/// The code of `value` in `vocab`: one plus the first position holding it, or
/// 0 when it is absent or not in the vocabulary.
pub open spec fn spec_code(vocab: Seq<String>, value: Option<Seq<char>>, code: int) -> bool {
    match value {
        None => code == 0,
        Some(s) => {
            &&& code == 0 <==> (forall|k: int| 0 <= k < vocab.len() ==> vocab[k]@ != s)
            &&& code > 0 ==> code <= vocab.len() && vocab[code - 1]@ == s && (forall|k: int|
                0 <= k < code - 1 ==> vocab[k]@ != s)
        },
    }
}

/// The characters of an optional string.
pub open spec fn opt_chars(value: Option<String>) -> Option<Seq<char>> {
    match value {
        Some(s) => Some(s@),
        None => None,
    }
}

impl Fraction {
    pub open spec fn wf(self) -> bool {
        0 < self.den && self.num <= self.den
    }
}

impl Attribute {
    /// The denominator of this attribute's similarities.
    pub fn scale(&self) -> (r: u64)
        ensures
            r == spec_scale(self.compare_type),
            1 <= r <= 2 * 65535 * 65535,
    {
        match self.compare_type {
            CompareType::LinearInterval(up, down) => {
                let u: u64 = if up == 0 { 1 } else { up as u64 };
                let d: u64 = if down == 0 { 1 } else { down as u64 };
                assert(u * d <= 65535 * 65535) by (nonlinear_arith)
                    requires 1 <= u <= 65535, 1 <= d <= 65535;
                assert(u * d >= 1) by (nonlinear_arith)
                    requires 1 <= u, 1 <= d;
                2 * (u * d)
            },
            _ => 1,
        }
    }

    /// Encodes a raw value as its ordinal code in this attribute's vocabulary.
    pub fn map_value(&self, value: Option<String>) -> (r: u16)
        requires
            self.values@.len() <= 65535,
        ensures
            spec_code(self.values@, opt_chars(value), r as int),
    {
        match value {
            Some(v) => {
                let mut k: usize = 0;
                while k < self.values.len()
                    invariant
                        k <= self.values@.len() <= 65535,
                        value == Some(v),
                        forall|j: int| 0 <= j < k ==> self.values@[j]@ != v@,
                    decreases self.values@.len() - k,
                {
                    if self.values[k] == v {
                        assert(self.values@[k as int]@ == v@);
                        return (k + 1) as u16;
                    }
                    k += 1;
                }
                0
            },
            None => 0,
        }
    }

    /// Compares reference code `a` with candidate code `b`: whether the pair
    /// is applicable, and the similarity as a fraction over `scale()`.
    pub fn evaluate_values(&self, a: &u16, b: &u16) -> (r: (bool, Fraction))
        ensures
            r.0 == spec_applicable(*a as int, *b as int),
            r.1.den == spec_scale(self.compare_type),
            r.1.den <= 2 * 65535 * 65535,
            r.1.num == spec_ticks(self.compare_type, *a as int, *b as int),
            r.1.wf(),
    {
        let den = self.scale();
        proof {
            lemma_ticks_bounded(self.compare_type, *a as int, *b as int);
        }
        let a = *a as u64;
        let b = *b as u64;
        if a == 0 && b == 0 {
            return (false, Fraction { num: 0, den });
        } else if a == 0 || b == 0 {
            return (true, Fraction { num: 0, den });
        }
        let num: u64 = match self.compare_type {
            CompareType::Equal => if b == a { 1 } else { 0 },
            CompareType::GreaterThanOrEqual => if b >= a { 1 } else { 0 },
            CompareType::LessThanOrEqual => if b <= a { 1 } else { 0 },
            CompareType::IntervalMatch(up, down) => {
                let low: u64 = if down as u64 >= a { 0 } else { a - down as u64 };
                if b <= a + up as u64 && b >= low { 1 } else { 0 }
            },
            CompareType::LinearInterval(up, down) => {
                let low: u64 = if down as u64 >= a { 0 } else { a - down as u64 };
                let u: u64 = if up == 0 { 1 } else { up as u64 };
                let d: u64 = if down == 0 { 1 } else { down as u64 };
                if b <= a + up as u64 && b >= low {
                    if b > a && up > 0 {
                        (2 * up as u64 - (b - a)) * d
                    } else if a > b && down > 0 {
                        (2 * down as u64 - (a - b)) * u
                    } else {
                        den
                    }
                } else {
                    0
                }
            },
        };
        (true, Fraction { num, den })
    }
}

/// Every rule yields a similarity between 0 and 1 for every pair of codes.
pub proof fn lemma_ticks_bounded(ct: CompareType, a: int, b: int)
    ensures
        0 <= spec_ticks(ct, a, b) <= spec_scale(ct),
        spec_scale(ct) >= 1,
{
    if let CompareType::LinearInterval(up, down) = ct {
        let u = side(up);
        let d = side(down);
        assert(u * d >= 1) by (nonlinear_arith)
            requires u >= 1, d >= 1;
        assert(spec_scale(ct) == 2 * (u * d));
        if a != 0 && b != 0 && in_band(a, b, up as int, down as int) {
            if b > a && up > 0 {
                assert(0 <= (2 * up - (b - a)) * d <= 2 * (u * d)) by (nonlinear_arith)
                    requires b - a <= up, b > a, u == up, d >= 1;
            } else if a > b && down > 0 {
                assert(0 <= (2 * down - (a - b)) * u <= 2 * (u * d)) by (nonlinear_arith)
                    requires a - b <= down, a > b, d == down, u >= 1;
            }
        }
    }
}

/// A pair with both codes missing is not applicable and scores 0; a pair with
/// exactly one code missing is applicable and scores 0, whichever side it is.
pub proof fn lemma_missing_value_symmetry(ct: CompareType, k: u16)
    requires
        k != 0,
    ensures
        !spec_applicable(0, 0),
        spec_ticks(ct, 0, 0) == 0,
        spec_applicable(0, k as int) && spec_applicable(k as int, 0),
        spec_ticks(ct, 0, k as int) == 0 && spec_ticks(ct, k as int, 0) == 0,
{
}

/// Every rule gives a present code full similarity with itself.
pub proof fn lemma_self_similarity(ct: CompareType, k: u16)
    requires
        k != 0,
    ensures
        spec_ticks(ct, k as int, k as int) == spec_scale(ct),
{
    if let CompareType::LinearInterval(up, down) = ct {
        assert(in_band(k as int, k as int, up as int, down as int));
    } else if let CompareType::IntervalMatch(up, down) = ct {
        assert(in_band(k as int, k as int, up as int, down as int));
    }
}

} // verus!
