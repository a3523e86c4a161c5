//! The product table: finding a product by its id.

use std::collections::HashMap;
use vstd::prelude::*;

use crate::models::{Attribute, Match, Product, ProductId};

verus! {

pub open spec fn has_id(ps: Seq<Product>, id: ProductId) -> bool {
    exists|k: int| 0 <= k < ps.len() && ps[k].id == id
}

/// `k` is the first position of the table that holds `id`.
pub open spec fn is_first_index(ps: Seq<Product>, id: ProductId, k: int) -> bool {
    &&& 0 <= k < ps.len()
    &&& ps[k].id == id
    &&& forall|j: int| 0 <= j < k ==> ps[j].id != id
}

pub open spec fn first_index(ps: Seq<Product>, id: ProductId) -> int {
    choose|k: int| is_first_index(ps, id, k)
}

/// The encoded attribute vector of the product with this id.
pub open spec fn values_of(ps: Seq<Product>, id: ProductId) -> Seq<u16> {
    ps[first_index(ps, id)].values@
}

pub open spec fn known(ps: Seq<Product>, m: Match) -> bool {
    has_id(ps, m.0) && has_id(ps, m.1)
}

/// No two products of the table share an id.
pub open spec fn unique_ids(ps: Seq<Product>) -> bool {
    forall|x: int, y: int| 0 <= x < y < ps.len() ==> ps[x].id != ps[y].id
}

/// Whether no two products of the table share an id.
pub fn has_unique_ids(products: &Vec<Product>) -> (r: bool)
    ensures
        r == unique_ids(products@),
{
    broadcast use vstd::std_specs::hash::group_hash_axioms;

    let mut seen: HashMap<ProductId, usize> = HashMap::new();
    let mut k: usize = 0;
    while k < products.len()
        invariant
            k <= products@.len(),
            forall|x: int, y: int| 0 <= x < y < k ==> products@[x].id != products@[y].id,
            forall|id: ProductId|
                #[trigger] seen@.contains_key(id) <==> exists|j: int|
                    0 <= j < k && products@[j].id == id,
        decreases products@.len() - k,
    {
        let id = products[k].id;
        if seen.contains_key(&id) {
            proof {
                assert(seen@.contains_key(id));
                let j = choose|j: int| 0 <= j < k && products@[j].id == id;
                assert(products@[j].id == products@[k as int].id);
            }
            return false;
        }
        seen.insert(id, k);
        k += 1;
    }
    true
}

/// Every product vector is aligned with the attribute list.
pub open spec fn aligned(attrs: Seq<Attribute>, ps: Seq<Product>) -> bool {
    forall|k: int| 0 <= k < ps.len() ==> #[trigger] ps[k].values@.len() == attrs.len()
}

pub(crate) proof fn lemma_first_index(ps: Seq<Product>, id: ProductId, k: int)
    requires
        is_first_index(ps, id, k),
    ensures
        first_index(ps, id) == k,
        has_id(ps, id),
{
    let c = first_index(ps, id);
    assert(is_first_index(ps, id, c));
    if c < k {
        assert(ps[c].id != id);
    } else if k < c {
        assert(ps[k].id != id);
    }
}

/// Finds the first position of the table that holds `id`.
pub(crate) fn find_product(products: &Vec<Product>, id: ProductId) -> (r: Option<usize>)
    ensures
        match r {
            Some(k) => is_first_index(products@, id, k as int) && first_index(products@, id)
                == k,
            None => !has_id(products@, id),
        },
{
    let mut k: usize = 0;
    while k < products.len()
        invariant
            k <= products@.len(),
            forall|j: int| 0 <= j < k ==> products@[j].id != id,
        decreases products@.len() - k,
    {
        if products[k].id == id {
            proof {
                lemma_first_index(products@, id, k as int);
            }
            return Some(k);
        }
        k += 1;
    }
    None
}

/// Whether the table holds a product with this id.
pub fn contains_product(products: &Vec<Product>, id: ProductId) -> (r: bool)
    ensures
        r == has_id(products@, id),
{
    find_product(products, id).is_some()
}

/// Maps each id of the table to its first position.
pub(crate) fn index_products(products: &Vec<Product>) -> (r: HashMap<ProductId, usize>)
    ensures
        forall|id: ProductId| #[trigger] r@.contains_key(id) <==> has_id(products@, id),
        forall|id: ProductId|
            #[trigger] r@.contains_key(id) ==> is_first_index(products@, id, r@[id] as int),
{
    broadcast use vstd::std_specs::hash::group_hash_axioms;

    let mut m: HashMap<ProductId, usize> = HashMap::new();
    let mut k: usize = 0;
    while k < products.len()
        invariant
            k <= products@.len(),
            forall|id: ProductId|
                #[trigger] m@.contains_key(id) <==> exists|j: int|
                    0 <= j < k && products@[j].id == id,
            forall|id: ProductId|
                #[trigger] m@.contains_key(id) ==> is_first_index(products@, id, m@[id] as int),
        decreases products@.len() - k,
    {
        let id = products[k].id;
        if !m.contains_key(&id) {
            m.insert(id, k);
            proof {
                assert forall|j: int| 0 <= j < k implies products@[j].id != id by {
                    if products@[j].id == id {
                        assert(m@.contains_key(id));
                    }
                }
            }
        }
        k += 1;
    }
    m
}

/// Finds the first position of the table that holds `id`, through an index
/// built by `index_products`.
pub(crate) fn lookup(index: &HashMap<ProductId, usize>, products: &Vec<Product>, id: ProductId) -> (r: Option<
    usize,
>)
    requires
        forall|i: ProductId| #[trigger] index@.contains_key(i) <==> has_id(products@, i),
        forall|i: ProductId|
            #[trigger] index@.contains_key(i) ==> is_first_index(products@, i, index@[i] as int),
    ensures
        match r {
            Some(k) => is_first_index(products@, id, k as int) && first_index(products@, id)
                == k,
            None => !has_id(products@, id),
        },
{
    broadcast use vstd::std_specs::hash::group_hash_axioms;

    match index.get(&id) {
        Some(k) => {
            proof {
                lemma_first_index(products@, id, *k as int);
            }
            Some(*k)
        },
        None => None,
    }
}

} // verus!
