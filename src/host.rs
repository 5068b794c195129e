//! Decisions for a host that keeps the entries and links itself: the host
//! hands over plain values (hash bytes, sizes) and acts on what comes back.
use vstd::prelude::*;
use crate::paths::class_valid;
use crate::product::{CatalogError, CreateProductGroupInput};
use crate::query::capped;
use crate::search::search_categories;

verus! {

/// The positions `i` of `targets` whose bytes equal `group`, in order.
pub open spec fn positions_of(targets: Seq<Seq<u8>>, group: Seq<u8>) -> Seq<usize>
    decreases targets.len(),
{
    if targets.len() == 0 {
        Seq::empty()
    } else {
        let r = positions_of(targets.drop_last(), group);
        if targets.last() == group {
            r.push((targets.len() - 1) as usize)
        } else {
            r
        }
    }
}

/// The positions of the keys that no earlier key equals, in order.
pub open spec fn first_positions(keys: Seq<Seq<u8>>) -> Seq<usize>
    decreases keys.len(),
{
    if keys.len() == 0 {
        Seq::empty()
    } else {
        let r = first_positions(keys.drop_last());
        if keys.drop_last().contains(keys.last()) {
            r
        } else {
            r.push((keys.len() - 1) as usize)
        }
    }
}

pub open spec fn byte_views(s: Seq<Vec<u8>>) -> Seq<Seq<u8>> {
    s.map_values(|v: Vec<u8>| v@)
}

/// The sum of the sizes.
pub open spec fn size_total(s: Seq<usize>) -> nat
    decreases s.len(),
{
    if s.len() == 0 {
        0
    } else {
        size_total(s.drop_last()) + s.last() as nat
    }
}

fn same_bytes(a: &Vec<u8>, b: &Vec<u8>) -> (r: bool)
    ensures
        r == (a@ == b@),
{
    if a.len() != b.len() {
        return false;
    }
    let mut i: usize = 0;
    while i < a.len()
        invariant
            a@.len() == b@.len(),
            i <= a@.len(),
            forall|j: int| 0 <= j < i ==> a@[j] == b@[j],
        decreases a@.len() - i,
    {
        if a[i] != b[i] {
            return false;
        }
        i += 1;
    }
    assert(a@ =~= b@);
    true
}

/// Which of the links to unlink: the positions of the targets that are the
/// group, given as their hash bytes.
pub fn links_to(targets: &Vec<Vec<u8>>, group: &Vec<u8>) -> (r: Vec<usize>)
    ensures
        r@ == positions_of(byte_views(targets@), group@),
{
    let ghost all = byte_views(targets@);
    let mut r: Vec<usize> = Vec::new();
    let mut i: usize = 0;
    while i < targets.len()
        invariant
            i <= targets@.len(),
            all == byte_views(targets@),
            r@ == positions_of(all.subrange(0, i as int), group@),
        decreases targets@.len() - i,
    {
        assert(all.subrange(0, i + 1).drop_last() =~= all.subrange(0, i as int));
        if same_bytes(&targets[i], group) {
            r.push(i);
        }
        i += 1;
    }
    assert(all.subrange(0, all.len() as int) =~= all);
    r
}

/// Which keys to keep so that each is kept once: the positions of first
/// occurrences, in order.
pub fn distinct_positions(keys: &Vec<Vec<u8>>) -> (r: Vec<usize>)
    ensures
        r@ == first_positions(byte_views(keys@)),
{
    let ghost all = byte_views(keys@);
    let mut r: Vec<usize> = Vec::new();
    let mut i: usize = 0;
    while i < keys.len()
        invariant
            i <= keys@.len(),
            all == byte_views(keys@),
            r@ == first_positions(all.subrange(0, i as int)),
        decreases keys@.len() - i,
    {
        let ghost pre = all.subrange(0, i as int);
        assert(all.subrange(0, i + 1).drop_last() =~= pre);
        assert(all.subrange(0, i + 1).last() == all[i as int]);
        let mut seen = false;
        let mut j: usize = 0;
        while j < i
            invariant
                j <= i < keys@.len(),
                all == byte_views(keys@),
                pre == all.subrange(0, i as int),
                seen == (exists|k: int| 0 <= k < j && pre[k] == all[i as int]),
            decreases i - j,
        {
            if same_bytes(&keys[j], &keys[i]) {
                assert(pre[j as int] == all[i as int]);
                seen = true;
            }
            j += 1;
        }
        proof {
            if pre.contains(all[i as int]) {
                let k = choose|k: int| 0 <= k < pre.len() && pre[k] == all[i as int];
                assert(seen);
            }
        }
        if !seen {
            r.push(i);
        }
        i += 1;
    }
    assert(all.subrange(0, all.len() as int) =~= all);
    r
}

/// The sum of the sizes, or the largest `usize` when the sum is larger.
pub fn sum_sizes(sizes: &Vec<usize>) -> (r: usize)
    ensures
        r as nat == capped(size_total(sizes@)),
{
    let mut total: usize = 0;
    let mut i: usize = 0;
    while i < sizes.len()
        invariant
            i <= sizes@.len(),
            total as nat == capped(size_total(sizes@.subrange(0, i as int))),
        decreases sizes@.len() - i,
    {
        assert(sizes@.subrange(0, i + 1).drop_last() =~= sizes@.subrange(0, i as int));
        total = total.saturating_add(sizes[i]);
        i += 1;
    }
    assert(sizes@.subrange(0, sizes@.len() as int) =~= sizes@);
    total
}

/// Why a planned group of a batch is refused before it is created: its
/// grouping key names a product type without a subcategory.
pub fn key_refusal(input: &CreateProductGroupInput) -> (r: Option<CatalogError>)
    ensures
        r is Some <==> !class_valid(input@.class),
        r is Some ==> r == Some(CatalogError::InvalidClassification),
{
    if input.subcategory.is_none() && input.product_type.is_some() {
        Some(CatalogError::InvalidClassification)
    } else {
        None
    }
}

/// The top-level categories a search index covers, in order.
pub fn search_category_names() -> (r: Vec<String>)
    ensures
        r@.map_values(|s: String| s@) == search_categories(),
{
    let names = vec![
        "Produce",
        "Beverages",
        "Dairy & Eggs",
        "Snacks & Candy",
        "Meat & Seafood",
        "Wine",
        "Frozen",
        "Prepared Foods",
        "Liquor",
        "Floral",
        "Household",
        "Bakery",
        "Deli",
        "Canned Goods & Soups",
        "Beer",
        "Pets",
        "Breakfast",
        "Condiments & Sauces",
        "Personal Care",
        "Dry Goods & Pasta",
        "Oils, Vinegars, & Spices",
        "Health Care",
        "Baking Essentials",
        "Kitchen Supplies",
        "Hard Beverages",
        "Miscellaneous",
        "Party & Gift Supplies",
        "Office & Craft",
        "Baby",
    ];
    let ghost cats = names@.map_values(|c: &str| c@);
    assert(cats =~= search_categories());
    let mut r: Vec<String> = Vec::new();
    let mut i: usize = 0;
    while i < names.len()
        invariant
            i <= names@.len(),
            cats == names@.map_values(|c: &str| c@),
            r@.map_values(|s: String| s@) == cats.subrange(0, i as int),
        decreases names@.len() - i,
    {
        let ghost before = r@;
        r.push(String::from_str(names[i]));
        assert(r@.map_values(|s: String| s@) =~= before.map_values(|s: String| s@).push(cats[i as int]));
        assert(cats.subrange(0, i + 1) =~= cats.subrange(0, i as int).push(cats[i as int]));
        i += 1;
    }
    r
}

} // verus!
