//! Learning attribute weights from accepted pairings, and scoring and
//! ranking products with them.

use vstd::prelude::*;

use crate::models::{
    lemma_ticks_bounded, spec_applicable, spec_scale, spec_ticks, Attribute, CompareType, Match,
    Product, ProductId,
};
use crate::sort::{lemma_map_to_multiset, merge_sort, sorted_desc};
use crate::table::{
    aligned, find_product, first_index, has_id, index_products, is_first_index, known,
    lemma_first_index, lookup, unique_ids, values_of,
};

verus! {

/// The fixed-point value that stands for a weight or a similarity of 1.
pub const ONE: u64 = 1073741824;

/// The score that stands for 1.0: a weight of `ONE` times a similarity of
/// `ONE`.
pub const SCORE_ONE: u128 = 1152921504606846976;

/// Why a training or scoring call could not be carried out.
#[derive(Clone, Copy, Debug, PartialEq, Eq, Structural)]
pub enum ModelError {
    /// A pairing or a scoring request names a product id that is not in the table.
    UnknownProduct(ProductId),
    /// A score does not fit in 128 bits.
    ScoreOverflow,
}

/// The attribute list, the product table, the training pairings and the
/// learned weight of each attribute (the "brain"), in units of `ONE`.
pub struct Simple {
    pub attributes: Vec<Attribute>,
    pub products: Vec<Product>,
    pub matches: Vec<Match>,
    pub brain: Vec<u64>,
}

pub open spec fn pair_applicable(ps: Seq<Product>, m: Match, i: int) -> bool {
    spec_applicable(values_of(ps, m.0)[i] as int, values_of(ps, m.1)[i] as int)
}

pub open spec fn pair_ticks(attrs: Seq<Attribute>, ps: Seq<Product>, m: Match, i: int) -> int {
    spec_ticks(attrs[i].compare_type, values_of(ps, m.0)[i] as int, values_of(ps, m.1)[i] as int)
}

/// The sum of `f` over a sequence of pairings.
pub open spec fn seq_sum(ms: Seq<Match>, f: spec_fn(Match) -> int) -> int
    decreases ms.len(),
{
    if ms.len() == 0 {
        0
    } else {
        seq_sum(ms.drop_last(), f) + f(ms.last())
    }
}

/// How many pairings are applicable for attribute `i`.
pub open spec fn applicable_count(ps: Seq<Product>, ms: Seq<Match>, i: int) -> int {
    seq_sum(ms, count_term(ps, i))
}

pub open spec fn count_term(ps: Seq<Product>, i: int) -> spec_fn(Match) -> int {
    |m: Match| if pair_applicable(ps, m, i) { 1int } else { 0int }
}

pub open spec fn ticks_term(attrs: Seq<Attribute>, ps: Seq<Product>, i: int) -> spec_fn(Match) -> int {
    |m: Match|
        if pair_applicable(ps, m, i) {
            pair_ticks(attrs, ps, m, i)
        } else {
            0int
        }
}

/// The similarities of the applicable pairings for attribute `i`, summed in
/// units of the attribute's denominator.
pub open spec fn ticks_sum(attrs: Seq<Attribute>, ps: Seq<Product>, ms: Seq<Match>, i: int) -> int {
    seq_sum(ms, ticks_term(attrs, ps, i))
}

/// The learned weight of attribute `i`: the mean similarity over its
/// applicable pairings, in units of `ONE` rounded down, or 0 without any.
pub open spec fn spec_weight(attrs: Seq<Attribute>, ps: Seq<Product>, ms: Seq<Match>, i: int) -> int {
    let c = applicable_count(ps, ms, i);
    if c == 0 {
        0
    } else {
        (ticks_sum(attrs, ps, ms, i) * ONE) / (c * spec_scale(attrs[i].compare_type))
    }
}

/// A similarity in units of `ONE`, rounded down.
pub open spec fn fixed_sim(ct: CompareType, a: int, b: int) -> int {
    (spec_ticks(ct, a, b) * ONE) / spec_scale(ct)
}

/// The sum over the first `n` attributes of weight times similarity of
/// candidate vector `bv` to reference vector `av`.
pub open spec fn score_sum(
    attrs: Seq<Attribute>,
    brain: Seq<u64>,
    av: Seq<u16>,
    bv: Seq<u16>,
    n: nat,
) -> int
    decreases n,
{
    if n == 0 {
        0
    } else {
        score_sum(attrs, brain, av, bv, (n - 1) as nat) + brain[n - 1] * fixed_sim(
            attrs[n - 1].compare_type,
            av[n - 1] as int,
            bv[n - 1] as int,
        )
    }
}

/// Looks up both products of every pairing.
fn resolve_matches(products: &Vec<Product>, matches: &Vec<Match>) -> (r: Result<
    Vec<(usize, usize)>,
    ModelError,
>)
    ensures
        r is Ok <==> (forall|k: int| 0 <= k < matches@.len() ==> known(products@, matches@[k])),
        r matches Err(ModelError::UnknownProduct(id)) ==> exists|k: int|
            0 <= k < matches@.len() && (matches@[k].0 == id || matches@[k].1 == id) && !has_id(
                products@,
                id,
            ),
        r matches Ok(pairs) ==> pairs@.len() == matches@.len() && forall|k: int|
            0 <= k < matches@.len() ==> is_first_index(products@, matches@[k].0, pairs@[k].0 as int)
                && is_first_index(products@, matches@[k].1, pairs@[k].1 as int)
                && first_index(products@, matches@[k].0) == pairs@[k].0
                && first_index(products@, matches@[k].1) == pairs@[k].1,
{
    let index = index_products(products);
    let mut pairs: Vec<(usize, usize)> = Vec::new();
    let mut k: usize = 0;
    while k < matches.len()
        invariant
            forall|i: ProductId| #[trigger] index@.contains_key(i) <==> has_id(products@, i),
            forall|i: ProductId|
                #[trigger] index@.contains_key(i) ==> is_first_index(products@, i, index@[i] as int),
            k <= matches@.len(),
            pairs@.len() == k,
            forall|j: int|
                0 <= j < k ==> is_first_index(products@, matches@[j].0, pairs@[j].0 as int)
                    && is_first_index(products@, matches@[j].1, pairs@[j].1 as int)
                    && first_index(products@, matches@[j].0) == pairs@[j].0
                    && first_index(products@, matches@[j].1) == pairs@[j].1,
        decreases matches@.len() - k,
    {
        let m = matches[k];
        let a = match lookup(&index, products, m.0) {
            Some(a) => a,
            None => {
                return Err(ModelError::UnknownProduct(m.0));
            },
        };
        let b = match lookup(&index, products, m.1) {
            Some(b) => b,
            None => {
                return Err(ModelError::UnknownProduct(m.1));
            },
        };
        pairs.push((a, b));
        k += 1;
    }
    proof {
        assert forall|j: int| 0 <= j < matches@.len() implies known(products@, matches@[j]) by {
            lemma_first_index(products@, matches@[j].0, pairs@[j].0 as int);
            lemma_first_index(products@, matches@[j].1, pairs@[j].1 as int);
        }
    }
    Ok(pairs)
}


/// Counts, for each attribute, the applicable pairings and sums their
/// similarities.
fn accumulate(
    attributes: &Vec<Attribute>,
    products: &Vec<Product>,
    matches: &Vec<Match>,
    pairs: &Vec<(usize, usize)>,
) -> (r: (Vec<usize>, Vec<u128>))
    requires
        aligned(attributes@, products@),
        pairs@.len() == matches@.len(),
        forall|k: int|
            0 <= k < matches@.len() ==> is_first_index(products@, matches@[k].0, pairs@[k].0 as int)
                && is_first_index(products@, matches@[k].1, pairs@[k].1 as int)
                && first_index(products@, matches@[k].0) == pairs@[k].0
                && first_index(products@, matches@[k].1) == pairs@[k].1,
    ensures
        r.0@.len() == attributes@.len(),
        r.1@.len() == attributes@.len(),
        forall|i: int|
            0 <= i < attributes@.len() ==> r.0@[i] == applicable_count(products@, matches@, i)
                && r.1@[i] == ticks_sum(attributes@, products@, matches@, i) && r.1@[i] <= r.0@[i]
                * spec_scale(attributes@[i].compare_type),
{
    let ghost attrs = attributes@;
    let ghost ps = products@;
    let ghost ms = matches@;
    let n = attributes.len();
    let mut counts: Vec<usize> = Vec::new();
    let mut sums: Vec<u128> = Vec::new();
    let mut i: usize = 0;
    while i < n
        invariant
            i <= n == attrs.len(),
            counts@.len() == i,
            sums@.len() == i,
            forall|k: int| 0 <= k < i ==> counts@[k] == 0 && sums@[k] == 0,
        decreases n - i,
    {
        counts.push(0);
        sums.push(0);
        i += 1;
    }
    proof {
        assert forall|k: int| 0 <= k < n implies counts@[k] == applicable_count(ps, ms.take(0), k)
            && sums@[k] == ticks_sum(attrs, ps, ms.take(0), k) by {
            assert(ms.take(0).len() == 0);
        }
    }
    let mut j: usize = 0;
    let mlen = matches.len();
    while j < mlen
        invariant
            j <= ms.len() == mlen,
            n == attrs.len(),
            attrs == attributes@,
            ps == products@,
            ms == matches@,
            aligned(attrs, ps),
            pairs@.len() == ms.len(),
            forall|k: int|
                0 <= k < ms.len() ==> is_first_index(ps, ms[k].0, pairs@[k].0 as int)
                    && is_first_index(ps, ms[k].1, pairs@[k].1 as int) && first_index(ps, ms[k].0)
                    == pairs@[k].0 && first_index(ps, ms[k].1) == pairs@[k].1,
            counts@.len() == n,
            sums@.len() == n,
            forall|k: int|
                0 <= k < n ==> counts@[k] == applicable_count(ps, ms.take(j as int), k)
                    && sums@[k] == ticks_sum(attrs, ps, ms.take(j as int), k) && counts@[k] <= j
                    && sums@[k] <= counts@[k] * spec_scale(attrs[k].compare_type),
        decreases ms.len() - j,
    {
        let (a, b) = pairs[j];
        let va = &products[a].values;
        let vb = &products[b].values;
        let ghost prev = ms.take(j as int);
        let ghost next = ms.take(j + 1);
        proof {
            assert(next.drop_last() =~= prev);
            assert(next.last() == ms[j as int]);
        }
        let mut i: usize = 0;
        while i < n
            invariant
                i <= n == attrs.len(),
                j < ms.len() <= usize::MAX,
                next == ms.take(j + 1),
                prev == ms.take(j as int),
                attrs == attributes@,
                ps == products@,
                ms == matches@,
                next.drop_last() == prev,
                next.last() == ms[j as int],
                va@ == values_of(ps, ms[j as int].0),
                vb@ == values_of(ps, ms[j as int].1),
                va@.len() == n,
                vb@.len() == n,
                counts@.len() == n,
                sums@.len() == n,
                forall|k: int|
                    0 <= k < i ==> counts@[k] == applicable_count(ps, next, k) && sums@[k]
                        == ticks_sum(attrs, ps, next, k) && counts@[k] <= j + 1 && sums@[k]
                        <= counts@[k] * spec_scale(attrs[k].compare_type),
                forall|k: int|
                    i <= k < n ==> counts@[k] == applicable_count(ps, prev, k) && sums@[k]
                        == ticks_sum(attrs, ps, prev, k) && counts@[k] <= j && sums@[k]
                        <= counts@[k] * spec_scale(attrs[k].compare_type),
            decreases n - i,
        {
            let (applicable, sim) = attributes[i].evaluate_values(&va[i], &vb[i]);
            let ghost c = counts@[i as int] as int;
            let ghost sc = spec_scale(attrs[i as int].compare_type);
            if applicable {
                proof {
                    assert(c * sc <= 18446744073709551615 * (2 * 65535 * 65535)) by (nonlinear_arith)
                        requires 0 <= c <= 18446744073709551615, 1 <= sc <= 2 * 65535 * 65535;
                    assert((c + 1) * sc == c * sc + sc) by (nonlinear_arith);
                }
                counts.set(i, counts[i] + 1);
                sums.set(i, sums[i] + sim.num as u128);
            }
            proof {
                let k = i as int;
                assert(next.len() == j + 1);
                assert(seq_sum(next, count_term(ps, k)) == seq_sum(prev, count_term(ps, k)) + count_term(ps, k)(ms[j as int]));
                assert(seq_sum(next, ticks_term(attrs, ps, k)) == seq_sum(prev, ticks_term(attrs, ps, k)) + ticks_term(attrs, ps, k)(ms[j as int]));
                assert(applicable_count(ps, next, k) == applicable_count(ps, prev, k) + (if pair_applicable(ps, ms[j as int], k) { 1int } else { 0int }));
                assert(ticks_sum(attrs, ps, next, k) == ticks_sum(attrs, ps, prev, k) + (if pair_applicable(ps, ms[j as int], k) { pair_ticks(attrs, ps, ms[j as int], k) } else { 0int }));
            }
            i += 1;
        }
        j += 1;
    }
    assert(ms.take(ms.len() as int) =~= ms);
    (counts, sums)
}


/// Divides, or reports that the divisor is zero.
fn checked_division(dividend: u128, divisor: u128) -> (r: Option<u128>)
    ensures
        r == (if divisor == 0 {
            None
        } else {
            Some(dividend / divisor)
        }),
{
    if divisor == 0 {
        None
    } else {
        Some(dividend / divisor)
    }
}

/// Learns one weight per attribute from the pairings.
fn learn_weights(attributes: &Vec<Attribute>, products: &Vec<Product>, matches: &Vec<Match>) -> (r:
    Result<Vec<u64>, ModelError>)
    requires
        aligned(attributes@, products@),
    ensures
        r is Ok <==> (forall|k: int| 0 <= k < matches@.len() ==> known(products@, matches@[k])),
        r matches Err(ModelError::UnknownProduct(id)) ==> exists|k: int|
            0 <= k < matches@.len() && (matches@[k].0 == id || matches@[k].1 == id) && !has_id(
                products@,
                id,
            ),
        r matches Ok(w) ==> w@.len() == attributes@.len() && forall|i: int|
            0 <= i < attributes@.len() ==> w@[i] == spec_weight(
                attributes@,
                products@,
                matches@,
                i,
            ) && w@[i] <= ONE,
{
    let pairs = match resolve_matches(products, matches) {
        Ok(pairs) => pairs,
        Err(e) => {
            return Err(e);
        },
    };
    let (counts, sums) = accumulate(attributes, products, matches, &pairs);
    let n = attributes.len();
    let mut weights: Vec<u64> = Vec::new();
    let mut i: usize = 0;
    while i < n
        invariant
            i <= n == attributes@.len(),
            counts@.len() == n,
            sums@.len() == n,
            forall|k: int|
                0 <= k < n ==> counts@[k] == applicable_count(products@, matches@, k) && sums@[k]
                    == ticks_sum(attributes@, products@, matches@, k) && sums@[k] <= counts@[k]
                    * spec_scale(attributes@[k].compare_type),
            weights@.len() == i,
            forall|k: int|
                0 <= k < i ==> weights@[k] == spec_weight(attributes@, products@, matches@, k)
                    && weights@[k] <= ONE,
        decreases n - i,
    {
        let scale = attributes[i].scale();
        let c = counts[i] as u128;
        let t = sums[i];
        proof {
            assert(c * scale <= 18446744073709551615 * (2 * 65535 * 65535)) by (nonlinear_arith)
                requires c <= 18446744073709551615, scale <= 2 * 65535 * 65535;
            assert(t * ONE <= c * scale * ONE) by (nonlinear_arith)
                requires t <= c * scale;
            assert(c * scale * ONE <= 18446744073709551615 * (2 * 65535 * 65535) * ONE) by (nonlinear_arith)
                requires c * scale <= 18446744073709551615 * (2 * 65535 * 65535);
        }
        let w: u64 = match checked_division(t * (ONE as u128), c * (scale as u128)) {
            Some(q) => {
                proof {
                    let d = c * scale;
                    assert(d > 0);
                    vstd::arithmetic::div_mod::lemma_div_is_ordered(t * ONE, d * ONE, d);
                    assert(d * ONE == ONE * d) by (nonlinear_arith);
                    vstd::arithmetic::div_mod::lemma_div_by_multiple(ONE as int, d);
                    assert(q <= ONE);
                    assert(c != 0) by (nonlinear_arith)
                        requires d == c * scale, d > 0;
                    assert(q == spec_weight(attributes@, products@, matches@, i as int));
                }
                q as u64
            },
            None => {
                proof {
                    assert(c == 0) by (nonlinear_arith)
                        requires c * scale == 0, scale >= 1;
                }
                0
            },
        };
        weights.push(w);
        i += 1;
    }
    Ok(weights)
}

proof fn lemma_fixed_sim_bounded(ct: CompareType, a: int, b: int)
    ensures
        0 <= fixed_sim(ct, a, b) <= ONE,
{
    lemma_ticks_bounded(ct, a, b);
    let t = spec_ticks(ct, a, b);
    let d = spec_scale(ct);
    assert(t * ONE <= d * ONE) by (nonlinear_arith)
        requires t <= d;
    assert(0 <= t * ONE) by (nonlinear_arith)
        requires 0 <= t;
    vstd::arithmetic::div_mod::lemma_div_is_ordered(t * ONE, d * ONE, d);
    vstd::arithmetic::div_mod::lemma_div_is_ordered(0, t * ONE, d);
    assert(d * ONE == ONE * d) by (nonlinear_arith);
    vstd::arithmetic::div_mod::lemma_div_by_multiple(ONE as int, d);
}

/// Partial sums of a score never exceed the whole.
proof fn lemma_score_sum_monotone(
    attrs: Seq<Attribute>,
    brain: Seq<u64>,
    av: Seq<u16>,
    bv: Seq<u16>,
    k: nat,
    n: nat,
)
    requires
        k <= n,
    ensures
        0 <= score_sum(attrs, brain, av, bv, k) <= score_sum(attrs, brain, av, bv, n),
    decreases n,
{
    if n > 0 {
        let i = n - 1;
        lemma_fixed_sim_bounded(attrs[i].compare_type, av[i] as int, bv[i] as int);
        let w = brain[i] as int;
        let f = fixed_sim(attrs[i].compare_type, av[i] as int, bv[i] as int);
        assert(0 <= w * f) by (nonlinear_arith)
            requires 0 <= w, 0 <= f;
        if k < n {
            lemma_score_sum_monotone(attrs, brain, av, bv, k, (n - 1) as nat);
        } else {
            lemma_score_sum_monotone(attrs, brain, av, bv, (n - 1) as nat, (n - 1) as nat);
        }
    }
}

/// A weight times the similarity of two codes in units of `ONE`.
fn weighted_term(attribute: &Attribute, w: u64, a: u16, b: u16) -> (r: u128)
    ensures
        r == w * fixed_sim(attribute.compare_type, a as int, b as int),
{
    let (_, sim) = attribute.evaluate_values(&a, &b);
    proof {
        lemma_fixed_sim_bounded(attribute.compare_type, a as int, b as int);
        assert(sim.num * ONE <= sim.den * ONE) by (nonlinear_arith)
            requires sim.num <= sim.den;
        assert(sim.den * ONE <= 2 * 65535 * 65535 * ONE) by (nonlinear_arith)
            requires sim.den <= 2 * 65535 * 65535;
    }
    let fixed = (sim.num * ONE) / sim.den;
    proof {
        assert(w * fixed <= 18446744073709551615 * ONE) by (nonlinear_arith)
            requires w <= 18446744073709551615, fixed <= ONE;
    }
    (w as u128) * (fixed as u128)
}

/// The weighted similarity of candidate vector `bv` to reference vector `av`,
/// or `None` when it does not fit in 128 bits.
fn score_values(attributes: &Vec<Attribute>, brain: &Vec<u64>, av: &Vec<u16>, bv: &Vec<u16>) -> (r:
    Option<u128>)
    requires
        brain@.len() == attributes@.len(),
        av@.len() == attributes@.len(),
        bv@.len() == attributes@.len(),
    ensures
        match r {
            Some(v) => v == score_sum(attributes@, brain@, av@, bv@, attributes@.len()),
            None => score_sum(attributes@, brain@, av@, bv@, attributes@.len()) > u128::MAX,
        },
{
    let n = attributes.len();
    let mut acc: u128 = 0;
    let mut i: usize = 0;
    while i < n
        invariant
            i <= n == attributes@.len(),
            brain@.len() == n,
            av@.len() == n,
            bv@.len() == n,
            acc == score_sum(attributes@, brain@, av@, bv@, i as nat),
        decreases n - i,
    {
        let term = weighted_term(&attributes[i], brain[i], av[i], bv[i]);
        match acc.checked_add(term) {
            Some(next) => {
                acc = next;
            },
            None => {
                proof {
                    lemma_score_sum_monotone(
                        attributes@,
                        brain@,
                        av@,
                        bv@,
                        (i + 1) as nat,
                        n as nat,
                    );
                }
                return None;
            },
        }
        i += 1;
    }
    Some(acc)
}

impl Simple {
    /// The product table is aligned with the attribute list and no two
    /// products share an id.
    pub open spec fn wf(&self) -> bool {
        aligned(self.attributes@, self.products@) && unique_ids(self.products@)
    }

    /// Aligned, and the brain holds one weight per attribute.
    pub open spec fn trained(&self) -> bool {
        self.wf() && self.brain@.len() == self.attributes@.len()
    }

    /// The score of product `b` against product `a`.
    pub open spec fn spec_score(&self, a: ProductId, b: ProductId) -> int {
        score_sum(
            self.attributes@,
            self.brain@,
            values_of(self.products@, a),
            values_of(self.products@, b),
            self.attributes@.len(),
        )
    }

    /// The score of the table's `k`-th product against the product `q`.
    pub open spec fn candidate_score(&self, q: ProductId, k: int) -> int {
        score_sum(
            self.attributes@,
            self.brain@,
            values_of(self.products@, q),
            self.products@[k].values@,
            self.attributes@.len(),
        )
    }

    /// The (score, id) entry of every product of the table against `q`, in
    /// table order.
    pub open spec fn candidates(&self, q: ProductId) -> Seq<(u128, ProductId)> {
        Seq::new(
            self.products@.len(),
            |k: int| (self.candidate_score(q, k) as u128, self.products@[k].id),
        )
    }

    /// `r` holds the entries of `candidates(q)`, each as often, in descending
    /// order of score.
    pub open spec fn is_ranking(&self, q: ProductId, r: Seq<(u128, ProductId)>) -> bool {
        &&& sorted_desc(r)
        &&& r.to_multiset() == self.candidates(q).to_multiset()
    }

    /// Learns the weight of every attribute from `matches` and stores it in
    /// `brain`; fails, and leaves `brain` as it was, when a pairing names an
    /// unknown product.
    pub fn train(&mut self) -> (r: Result<(), ModelError>)
        requires
            old(self).wf(),
        ensures
            final(self).attributes@ == old(self).attributes@,
            final(self).products@ == old(self).products@,
            final(self).matches@ == old(self).matches@,
            r is Ok <==> (forall|k: int|
                0 <= k < old(self).matches@.len() ==> known(
                    old(self).products@,
                    old(self).matches@[k],
                )),
            r matches Err(ModelError::UnknownProduct(id)) ==> exists|k: int|
                0 <= k < old(self).matches@.len() && (old(self).matches@[k].0 == id
                    || old(self).matches@[k].1 == id) && !has_id(old(self).products@, id),
            r is Err ==> final(self).brain@ == old(self).brain@,
            r is Ok ==> final(self).trained(),
            r is Ok ==> forall|i: int|
                0 <= i < old(self).attributes@.len() ==> final(self).brain@[i] == spec_weight(
                    old(self).attributes@,
                    old(self).products@,
                    old(self).matches@,
                    i,
                ),
            r is Ok ==> forall|i: int|
                0 <= i < old(self).attributes@.len() ==> final(self).brain@[i] <= ONE && (
                applicable_count(old(self).products@, old(self).matches@, i) == 0
                    ==> final(self).brain@[i] == 0),
    {
        match learn_weights(&self.attributes, &self.products, &self.matches) {
            Ok(w) => {
                self.brain = w;
                Ok(())
            },
            Err(e) => Err(e),
        }
    }

    /// The first position of the table that holds `id`.
    pub fn product_index(&self, id: ProductId) -> (r: Option<usize>)
        ensures
            match r {
                Some(k) => is_first_index(self.products@, id, k as int),
                None => !has_id(self.products@, id),
            },
    {
        find_product(&self.products, id)
    }

    /// The weighted similarity of product `b` to product `a`.
    pub fn score(&self, a: &ProductId, b: &ProductId) -> (r: Result<u128, ModelError>)
        requires
            self.trained(),
        ensures
            !has_id(self.products@, *a) ==> r == Err::<u128, ModelError>(
                ModelError::UnknownProduct(*a),
            ),
            has_id(self.products@, *a) && !has_id(self.products@, *b) ==> r == Err::<
                u128,
                ModelError,
            >(ModelError::UnknownProduct(*b)),
            has_id(self.products@, *a) && has_id(self.products@, *b) ==> r == if self.spec_score(
                *a,
                *b,
            ) <= u128::MAX {
                Ok::<u128, ModelError>(self.spec_score(*a, *b) as u128)
            } else {
                Err::<u128, ModelError>(ModelError::ScoreOverflow)
            },
    {
        let ka = match find_product(&self.products, *a) {
            Some(k) => k,
            None => {
                return Err(ModelError::UnknownProduct(*a));
            },
        };
        let kb = match find_product(&self.products, *b) {
            Some(k) => k,
            None => {
                return Err(ModelError::UnknownProduct(*b));
            },
        };
        match score_values(
            &self.attributes,
            &self.brain,
            &self.products[ka].values,
            &self.products[kb].values,
        ) {
            Some(v) => Ok(v),
            None => Err(ModelError::ScoreOverflow),
        }
    }

    /// Each attribute's share of the score of product `b` against product
    /// `a`: its weight times the similarity of the two codes.
    pub fn contributions(&self, a: &ProductId, b: &ProductId) -> (r: Result<Vec<u128>, ModelError>)
        requires
            self.trained(),
        ensures
            !has_id(self.products@, *a) ==> r == Err::<Vec<u128>, ModelError>(
                ModelError::UnknownProduct(*a),
            ),
            has_id(self.products@, *a) && !has_id(self.products@, *b) ==> r == Err::<
                Vec<u128>,
                ModelError,
            >(ModelError::UnknownProduct(*b)),
            has_id(self.products@, *a) && has_id(self.products@, *b) ==> (r matches Ok(v)
                && v@.len() == self.attributes@.len() && forall|i: int|
                0 <= i < v@.len() ==> #[trigger] v@[i] == self.brain@[i] * fixed_sim(
                    self.attributes@[i].compare_type,
                    values_of(self.products@, *a)[i] as int,
                    values_of(self.products@, *b)[i] as int,
                )),
    {
        let ka = match find_product(&self.products, *a) {
            Some(k) => k,
            None => {
                return Err(ModelError::UnknownProduct(*a));
            },
        };
        let kb = match find_product(&self.products, *b) {
            Some(k) => k,
            None => {
                return Err(ModelError::UnknownProduct(*b));
            },
        };
        let av = &self.products[ka].values;
        let bv = &self.products[kb].values;
        assert(av@.len() == self.attributes@.len());
        assert(bv@.len() == self.attributes@.len());
        let mut terms: Vec<u128> = Vec::new();
        let mut i: usize = 0;
        while i < self.attributes.len()
            invariant
                self.trained(),
                i <= self.attributes@.len(),
                av@ == values_of(self.products@, *a),
                bv@ == values_of(self.products@, *b),
                av@.len() == self.attributes@.len(),
                bv@.len() == self.attributes@.len(),
                terms@.len() == i,
                forall|k: int|
                    0 <= k < i ==> #[trigger] terms@[k] == self.brain@[k] * fixed_sim(
                        self.attributes@[k].compare_type,
                        av@[k] as int,
                        bv@[k] as int,
                    ),
            decreases self.attributes@.len() - i,
        {
            terms.push(weighted_term(&self.attributes[i], self.brain[i], av[i], bv[i]));
            i += 1;
        }
        Ok(terms)
    }

    /// Scores every product of the table against `original` and returns the
    /// (score, id) entries in descending order of score.
    pub fn find_all_matches(&self, original: &ProductId) -> (r: Result<
        Vec<(u128, ProductId)>,
        ModelError,
    >)
        requires
            self.trained(),
        ensures
            !has_id(self.products@, *original) ==> r == Err::<Vec<(u128, ProductId)>, ModelError>(
                ModelError::UnknownProduct(*original),
            ),
            has_id(self.products@, *original) ==> (r is Ok <==> forall|k: int|
                0 <= k < self.products@.len() ==> self.candidate_score(*original, k) <= u128::MAX),
            has_id(self.products@, *original) && r is Err ==> r == Err::<
                Vec<(u128, ProductId)>,
                ModelError,
            >(ModelError::ScoreOverflow),
            r matches Ok(v) ==> self.is_ranking(*original, v@),
    {
        let q = match find_product(&self.products, *original) {
            Some(k) => k,
            None => {
                return Err(ModelError::UnknownProduct(*original));
            },
        };
        let qv = &self.products[q].values;
        assert(qv@.len() == self.attributes@.len());
        let mut entries: Vec<(u128, ProductId)> = Vec::new();
        let mut k: usize = 0;
        while k < self.products.len()
            invariant
                self.trained(),
                k <= self.products@.len(),
                qv@ == values_of(self.products@, *original),
                qv@.len() == self.attributes@.len(),
                has_id(self.products@, *original),
                entries@.len() == k,
                forall|j: int|
                    0 <= j < k ==> #[trigger] entries@[j].0 == self.candidate_score(*original, j)
                        && entries@[j].1 == self.products@[j].id,
                forall|j: int| 0 <= j < k ==> self.candidate_score(*original, j) <= u128::MAX,
            decreases self.products@.len() - k,
        {
            match score_values(&self.attributes, &self.brain, qv, &self.products[k].values) {
                Some(v) => {
                    entries.push((v, self.products[k].id));
                },
                None => {
                    assert(self.products@[k as int].values@.len() == self.attributes@.len());
                    assert(self.candidate_score(*original, k as int) > u128::MAX);
                    return Err(ModelError::ScoreOverflow);
                },
            }
            k += 1;
        }
        let ranked = merge_sort(&entries, 0, entries.len());
        proof {
            assert forall|j: int| 0 <= j < entries@.len() implies entries@[j] == self.candidates(
                *original,
            )[j] by {
                assert(entries@[j].0 == self.candidate_score(*original, j));
            }
            assert(entries@.subrange(0, entries@.len() as int) =~= self.candidates(*original));
        }
        Ok(ranked)
    }
}

proof fn lemma_seq_sum_remove(ms: Seq<Match>, f: spec_fn(Match) -> int, j: int)
    requires
        0 <= j < ms.len(),
    ensures
        seq_sum(ms, f) == seq_sum(ms.remove(j), f) + f(ms[j]),
    decreases ms.len(),
{
    if j == ms.len() - 1 {
        assert(ms.remove(j) =~= ms.drop_last());
    } else {
        lemma_seq_sum_remove(ms.drop_last(), f, j);
        assert(ms.remove(j).drop_last() =~= ms.drop_last().remove(j));
        assert(ms.remove(j).last() == ms.last());
    }
}

/// A sum over pairings does not depend on their order.
proof fn lemma_seq_sum_permutation(s1: Seq<Match>, s2: Seq<Match>, f: spec_fn(Match) -> int)
    requires
        s1.to_multiset() == s2.to_multiset(),
    ensures
        seq_sum(s1, f) == seq_sum(s2, f),
    decreases s1.len(),
{
    broadcast use vstd::seq_lib::group_to_multiset_ensures;
    broadcast use vstd::multiset::group_multiset_axioms;

    if s1.len() == 0 {
        assert(s1.to_multiset().len() == 0);
        assert(s2.to_multiset().len() == s2.len());
    } else {
        let x = s1.last();
        let rest = s1.drop_last();
        assert(rest.push(x) =~= s1);
        assert(s1.to_multiset() == rest.to_multiset().insert(x));
        assert(s2.to_multiset().count(x) > 0);
        assert(s2.contains(x));
        let j = choose|j: int| 0 <= j < s2.len() && s2[j] == x;
        assert(s2.remove(j).to_multiset() =~= rest.to_multiset());
        lemma_seq_sum_permutation(rest, s2.remove(j), f);
        lemma_seq_sum_remove(s2, f, j);
    }
}

/// Training over the same pairings in any order counts, sums and weighs
/// every attribute alike.
pub proof fn lemma_training_order_independent(
    attrs: Seq<Attribute>,
    ps: Seq<Product>,
    ms1: Seq<Match>,
    ms2: Seq<Match>,
    i: int,
)
    requires
        ms1.to_multiset() == ms2.to_multiset(),
    ensures
        applicable_count(ps, ms1, i) == applicable_count(ps, ms2, i),
        ticks_sum(attrs, ps, ms1, i) == ticks_sum(attrs, ps, ms2, i),
        spec_weight(attrs, ps, ms1, i) == spec_weight(attrs, ps, ms2, i),
{
    lemma_seq_sum_permutation(ms1, ms2, count_term(ps, i));
    lemma_seq_sum_permutation(ms1, ms2, ticks_term(attrs, ps, i));
}

proof fn lemma_score_sum_scaled(
    attrs: Seq<Attribute>,
    b1: Seq<u64>,
    b2: Seq<u64>,
    num: int,
    den: int,
    av: Seq<u16>,
    bv: Seq<u16>,
    n: nat,
)
    requires
        n <= b1.len(),
        b2.len() == b1.len(),
        forall|i: int| 0 <= i < b1.len() ==> den * b2[i] == num * b1[i],
    ensures
        den * score_sum(attrs, b2, av, bv, n) == num * score_sum(attrs, b1, av, bv, n),
    decreases n,
{
    if n > 0 {
        lemma_score_sum_scaled(attrs, b1, b2, num, den, av, bv, (n - 1) as nat);
        let x1 = score_sum(attrs, b1, av, bv, (n - 1) as nat);
        let x2 = score_sum(attrs, b2, av, bv, (n - 1) as nat);
        let w1 = b1[n - 1] as int;
        let w2 = b2[n - 1] as int;
        let f = fixed_sim(attrs[n - 1].compare_type, av[n - 1] as int, bv[n - 1] as int);
        assert(den * (x2 + w2 * f) == num * (x1 + w1 * f)) by (nonlinear_arith)
            requires den * x2 == num * x1, den * w2 == num * w1;
    }
}

/// Multiplies the score of an entry by `num / den`.
pub open spec fn scaled_entry(num: int, den: int) -> spec_fn((u128, ProductId)) -> (u128, ProductId) {
    |e: (u128, ProductId)| (((num * e.0) / den) as u128, e.1)
}

/// With unique ids, the score of the table's `k`-th product against `q` is
/// the score of its id.
pub proof fn lemma_candidate_score(s: Simple, q: ProductId, k: int)
    requires
        s.wf(),
        0 <= k < s.products@.len(),
    ensures
        s.candidate_score(q, k) == s.spec_score(q, s.products@[k].id),
{
    lemma_first_index(s.products@, s.products@[k].id, k);
}

/// Scaling every weight by the same positive factor `num / den` scales every
/// score by that factor, and a ranking stays a ranking, in the same order,
/// once its scores are scaled alike.
pub proof fn lemma_ranking_scale_invariant(
    s1: Simple,
    s2: Simple,
    num: int,
    den: int,
    q: ProductId,
    r: Seq<(u128, ProductId)>,
)
    requires
        s2.attributes@ == s1.attributes@,
        s2.products@ == s1.products@,
        s1.brain@.len() == s1.attributes@.len(),
        s2.brain@.len() == s1.brain@.len(),
        num > 0,
        den > 0,
        forall|i: int| 0 <= i < s1.brain@.len() ==> den * s2.brain@[i] == num * s1.brain@[i],
        forall|k: int| 0 <= k < s1.products@.len() ==> s1.candidate_score(q, k) <= u128::MAX,
        forall|k: int| 0 <= k < s1.products@.len() ==> s2.candidate_score(q, k) <= u128::MAX,
        s1.is_ranking(q, r),
    ensures
        forall|a: ProductId, b: ProductId|
            den * s2.spec_score(a, b) == num * s1.spec_score(a, b),
        s2.is_ranking(q, r.map_values(scaled_entry(num, den))),
{
    let n = s1.attributes@.len();
    assert forall|a: ProductId, b: ProductId|
        den * s2.spec_score(a, b) == num * s1.spec_score(a, b) by {
        lemma_score_sum_scaled(
            s1.attributes@,
            s1.brain@,
            s2.brain@,
            num,
            den,
            values_of(s1.products@, a),
            values_of(s1.products@, b),
            n,
        );
    }
    let f = scaled_entry(num, den);
    let r2 = r.map_values(f);
    assert forall|k: int| 0 <= k < s1.products@.len() implies s2.candidates(q)[k] == f(
        s1.candidates(q)[k],
    ) && s1.candidates(q)[k].0 == s1.candidate_score(q, k) && (num * s1.candidate_score(q, k))
        / den == s2.candidate_score(q, k) && 0 <= s2.candidate_score(q, k) by {
        lemma_score_sum_scaled(
            s1.attributes@,
            s1.brain@,
            s2.brain@,
            num,
            den,
            values_of(s1.products@, q),
            s1.products@[k].values@,
            n,
        );
        lemma_score_sum_monotone(
            s1.attributes@,
            s1.brain@,
            values_of(s1.products@, q),
            s1.products@[k].values@,
            0,
            n,
        );
        lemma_score_sum_monotone(
            s2.attributes@,
            s2.brain@,
            values_of(s2.products@, q),
            s2.products@[k].values@,
            0,
            n,
        );
        let x1 = s1.candidate_score(q, k);
        let x2 = s2.candidate_score(q, k);
        assert(x2 * den == num * x1) by (nonlinear_arith)
            requires den * x2 == num * x1;
        vstd::arithmetic::div_mod::lemma_div_by_multiple(x2, den);
    }
    assert forall|a: int| 0 <= a < r.len() implies 0 <= (num * #[trigger] r[a].0) / den <= u128::MAX by {
        broadcast use vstd::seq_lib::group_to_multiset_ensures;

        assert(r.contains(r[a]));
        assert(r.to_multiset().count(r[a]) > 0);
        assert(s1.candidates(q).contains(r[a]));
        let k = choose|k: int| 0 <= k < s1.candidates(q).len() && s1.candidates(q)[k] == r[a];
        assert(r[a].0 == s1.candidate_score(q, k));
    }
    assert forall|a: int, b: int| 0 <= a < b < r2.len() implies r2[a].0 >= r2[b].0 by {
        let x = r[a].0 as int;
        let y = r[b].0 as int;
        assert(num * x >= num * y) by (nonlinear_arith)
            requires x >= y, num > 0;
        vstd::arithmetic::div_mod::lemma_div_is_ordered(num * y, num * x, den);
    }
    assert(s2.candidates(q) =~= s1.candidates(q).map_values(f));
    lemma_map_to_multiset(r, s1.candidates(q), f);
}

proof fn lemma_seq_sum_concat(s1: Seq<Match>, s2: Seq<Match>, f: spec_fn(Match) -> int)
    ensures
        seq_sum(s1 + s2, f) == seq_sum(s1, f) + seq_sum(s2, f),
    decreases s2.len(),
{
    if s2.len() == 0 {
        assert(s1 + s2 =~= s1);
    } else {
        lemma_seq_sum_concat(s1, s2.drop_last(), f);
        assert((s1 + s2).drop_last() =~= s1 + s2.drop_last());
        assert((s1 + s2).last() == s2.last());
    }
}

/// The per-attribute totals of training over two batches of pairings are the
/// sums of the totals over each batch, so batches can be totalled apart and
/// merged by addition.
pub proof fn lemma_training_totals_merge(
    attrs: Seq<Attribute>,
    ps: Seq<Product>,
    ms1: Seq<Match>,
    ms2: Seq<Match>,
    i: int,
)
    ensures
        applicable_count(ps, ms1 + ms2, i) == applicable_count(ps, ms1, i) + applicable_count(
            ps,
            ms2,
            i,
        ),
        ticks_sum(attrs, ps, ms1 + ms2, i) == ticks_sum(attrs, ps, ms1, i) + ticks_sum(
            attrs,
            ps,
            ms2,
            i,
        ),
{
    lemma_seq_sum_concat(ms1, ms2, count_term(ps, i));
    lemma_seq_sum_concat(ms1, ms2, ticks_term(attrs, ps, i));
}

/// The similarity total of an attribute lies between 0 and its count times
/// its denominator.
proof fn lemma_totals_bounded(attrs: Seq<Attribute>, ps: Seq<Product>, ms: Seq<Match>, i: int)
    requires
        0 <= i < attrs.len(),
    ensures
        0 <= applicable_count(ps, ms, i),
        0 <= ticks_sum(attrs, ps, ms, i) <= applicable_count(ps, ms, i) * spec_scale(
            attrs[i].compare_type,
        ),
    decreases ms.len(),
{
    if ms.len() > 0 {
        lemma_totals_bounded(attrs, ps, ms.drop_last(), i);
        let m = ms.last();
        lemma_ticks_bounded(
            attrs[i].compare_type,
            values_of(ps, m.0)[i] as int,
            values_of(ps, m.1)[i] as int,
        );
        let c = applicable_count(ps, ms.drop_last(), i);
        let sc = spec_scale(attrs[i].compare_type);
        assert((c + 1) * sc == c * sc + sc) by (nonlinear_arith);
    }
}

/// Adding an applicable pairing of full similarity never lowers an
/// attribute's learned weight, and adding one of zero similarity never
/// raises it.
pub proof fn lemma_weight_running_mean(
    attrs: Seq<Attribute>,
    ps: Seq<Product>,
    ms: Seq<Match>,
    m: Match,
    i: int,
)
    requires
        0 <= i < attrs.len(),
        pair_applicable(ps, m, i),
    ensures
        pair_ticks(attrs, ps, m, i) == spec_scale(attrs[i].compare_type) ==> spec_weight(
            attrs,
            ps,
            ms.push(m),
            i,
        ) >= spec_weight(attrs, ps, ms, i),
        pair_ticks(attrs, ps, m, i) == 0 ==> spec_weight(attrs, ps, ms.push(m), i) <= spec_weight(
            attrs,
            ps,
            ms,
            i,
        ),
{
    lemma_totals_bounded(attrs, ps, ms, i);
    lemma_ticks_bounded(
        attrs[i].compare_type,
        values_of(ps, m.0)[i] as int,
        values_of(ps, m.1)[i] as int,
    );
    assert(ms.push(m).drop_last() =~= ms);
    let c = applicable_count(ps, ms, i);
    let t = ticks_sum(attrs, ps, ms, i);
    let sc = spec_scale(attrs[i].compare_type);
    let u = pair_ticks(attrs, ps, m, i);
    assert(applicable_count(ps, ms.push(m), i) == c + 1);
    assert(ticks_sum(attrs, ps, ms.push(m), i) == t + u);
    let d2 = (c + 1) * sc;
    assert(d2 >= 1) by (nonlinear_arith)
        requires c >= 0, sc >= 1, d2 == (c + 1) * sc;
    if c > 0 {
        let d1 = c * sc;
        assert(d1 >= 1) by (nonlinear_arith)
            requires c >= 1, sc >= 1, d1 == c * sc;
        assert(d2 == d1 + sc) by (nonlinear_arith)
            requires d1 == c * sc, d2 == (c + 1) * sc;
        assert(t * ONE >= 0) by (nonlinear_arith)
            requires t >= 0;
        if u == sc {
            let x = (t * ONE) / d1;
            vstd::arithmetic::div_mod::lemma_fundamental_div_mod(t * ONE, d1);
            vstd::arithmetic::div_mod::lemma_mod_bound(t * ONE, d1);
            assert(t * ONE <= d1 * ONE) by (nonlinear_arith)
                requires t <= d1;
            vstd::arithmetic::div_mod::lemma_div_is_ordered(t * ONE, d1 * ONE, d1);
            assert(d1 * ONE == ONE * d1) by (nonlinear_arith);
            vstd::arithmetic::div_mod::lemma_div_by_multiple(ONE as int, d1);
            assert(x * d2 <= (t + u) * ONE) by (nonlinear_arith)
                requires
                    d1 * x <= t * ONE,
                    x <= ONE,
                    d2 == d1 + sc,
                    u == sc,
                    d1 == c * sc,
                    d2 == (c + 1) * sc,
                    x >= 0,
                    sc >= 1,
            ;
            assert(x >= 0) by {
                vstd::arithmetic::div_mod::lemma_div_is_ordered(0, t * ONE, d1);
            }
            vstd::arithmetic::div_mod::lemma_div_is_ordered(x * d2, (t + u) * ONE, d2);
            vstd::arithmetic::div_mod::lemma_div_by_multiple(x, d2);
        }
        if u == 0 {
            assert(d1 <= d2) by (nonlinear_arith)
                requires d1 == c * sc, d2 == (c + 1) * sc, sc >= 1;
            vstd::arithmetic::div_mod::lemma_div_is_ordered_by_denominator(t * ONE, d1, d2);
        }
    } else {
        assert(t == 0) by (nonlinear_arith)
            requires 0 <= t <= c * sc, c == 0;
        if u == 0 {
            assert((t + u) * ONE == 0);
            assert(((t + u) * ONE) / d2 == 0);
        }
        if u == sc {
            assert((t + u) * ONE >= 0) by (nonlinear_arith)
                requires t + u >= 0;
            vstd::arithmetic::div_mod::lemma_div_is_ordered(0, (t + u) * ONE, d2);
        }
    }
}

} // verus!
