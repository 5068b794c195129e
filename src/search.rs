//! Lookups for a search front end: products by (group, position), and every
//! group under the top-level categories.
use vstd::prelude::*;
use crate::catalog::{GroupRecord, ProductCatalog};
use crate::index::{GroupRef, edge_views, edges_at, targets_of};
use crate::paths::{category_path, category_path_text};
use crate::query::{
    capped, concurrent_get_records, lemma_edges_at_bounded, lemma_present_all,
    product_total, record_refs, records_match, ref_indices,
};

verus! {

/// A product named by the group holding it and its position there.
#[derive(Debug, Clone, Copy, PartialEq, Eq, Structural)]
pub struct ProductReference {
    pub group_hash: GroupRef,
    pub index: usize,
}

/// Group records found by a search, with a count.
pub struct SearchResult {
    pub products: Vec<GroupRecord>,
    pub total: usize,
}

/// The groups of the references that name a stored product, one entry per
/// such reference, in order.
pub open spec fn reference_hits(refs: Seq<ProductReference>, store: Seq<crate::product::GroupView>) -> Seq<
    usize,
>
    decreases refs.len(),
{
    if refs.len() == 0 {
        Seq::empty()
    } else {
        let r = reference_hits(refs.drop_last(), store);
        let x = refs.last();
        if x.group_hash.index < store.len() && x.index < store[x.group_hash.index as int].products.len() {
            r.push(x.group_hash.index)
        } else {
            r
        }
    }
}

/// The group record of each reference that names a stored product, in the
/// order of the references, with their number.
pub fn get_products_by_references(catalog: &ProductCatalog, references: &Vec<ProductReference>) -> (r:
    SearchResult)
    ensures
        record_refs(r.products@) == reference_hits(references@, catalog.store()),
        records_match(r.products@, *catalog),
        r.total == r.products@.len(),
{
    let ghost all = references@;
    let mut found: Vec<GroupRecord> = Vec::new();
    let mut i: usize = 0;
    while i < references.len()
        invariant
            i <= references@.len(),
            all == references@,
            record_refs(found@) == reference_hits(all.subrange(0, i as int), catalog.store()),
            records_match(found@, *catalog),
        decreases references@.len() - i,
    {
        assert(all.subrange(0, i + 1).drop_last() =~= all.subrange(0, i as int));
        let x = references[i];
        match catalog.get_product_group(x.group_hash) {
            Some(group) => {
                if x.index < group.products.len() {
                    let ghost before = found@;
                    found.push(GroupRecord { group_ref: x.group_hash, group });
                    assert(record_refs(found@) =~= record_refs(before).push(x.group_hash.index));
                    assert forall|j: int| 0 <= j < found@.len() implies (#[trigger] found@[j]).group_ref.index
                        < catalog.store().len() && found@[j].group@ == catalog.store()[found@[j].group_ref.index as int] by {
                        if j < before.len() {
                            assert(found@[j] == before[j]);
                        }
                    }
                }
            },
            None => {},
        }
        i += 1;
    }
    assert(all.subrange(0, all.len() as int) =~= all);
    let total = found.len();
    SearchResult { products: found, total }
}

/// The top-level categories a search index covers.
pub open spec fn search_categories() -> Seq<Seq<char>> {
    seq![
        "Produce"@,
        "Beverages"@,
        "Dairy & Eggs"@,
        "Snacks & Candy"@,
        "Meat & Seafood"@,
        "Wine"@,
        "Frozen"@,
        "Prepared Foods"@,
        "Liquor"@,
        "Floral"@,
        "Household"@,
        "Bakery"@,
        "Deli"@,
        "Canned Goods & Soups"@,
        "Beer"@,
        "Pets"@,
        "Breakfast"@,
        "Condiments & Sauces"@,
        "Personal Care"@,
        "Dry Goods & Pasta"@,
        "Oils, Vinegars, & Spices"@,
        "Health Care"@,
        "Baking Essentials"@,
        "Kitchen Supplies"@,
        "Hard Beverages"@,
        "Miscellaneous"@,
        "Party & Gift Supplies"@,
        "Office & Craft"@,
        "Baby"@,
    ]
}

/// `s` with every element after its first occurrence left out.
pub open spec fn dedup(s: Seq<usize>) -> Seq<usize>
    decreases s.len(),
{
    if s.len() == 0 {
        Seq::empty()
    } else {
        let r = dedup(s.drop_last());
        if r.contains(s.last()) {
            r
        } else {
            r.push(s.last())
        }
    }
}

/// The targets of the edges under each category's path, one category
/// after another.
pub open spec fn category_targets(edges: Seq<crate::index::EdgeView>, cats: Seq<Seq<char>>) -> Seq<
    usize,
>
    decreases cats.len(),
{
    if cats.len() == 0 {
        Seq::empty()
    } else {
        category_targets(edges, cats.drop_last()) + targets_of(
            edges_at(edges, category_path(cats.last())),
        )
    }
}

fn holds_ref(refs: &Vec<GroupRef>, g: GroupRef) -> (r: bool)
    ensures
        r == ref_indices(refs@).contains(g.index),
{
    let ghost v = ref_indices(refs@);
    let mut i: usize = 0;
    while i < refs.len()
        invariant
            i <= refs@.len(),
            v == ref_indices(refs@),
            forall|j: int| 0 <= j < i ==> v[j] != g.index,
        decreases refs@.len() - i,
    {
        if refs[i].index == g.index {
            assert(v[i as int] == g.index);
            return true;
        }
        i += 1;
    }
    false
}

/// Every group under the search categories, each once, in order of first
/// appearance, with the sum of their products.
pub fn get_all_products_for_search_index(catalog: &ProductCatalog) -> (r: SearchResult)
    requires
        catalog.wf(),
    ensures
        record_refs(r.products@) == dedup(category_targets(catalog.edges(), search_categories())),
        records_match(r.products@, *catalog),
        r.total as nat == capped(product_total(r.products@)),
{
    let categories = vec![
        "Produce",
        "Beverages",
        "Dairy & Eggs",
        "Snacks & Candy",
        "Meat & Seafood",
        "Wine",
        "Frozen",
        "Prepared Foods",
        "Liquor",
        "Floral",
        "Household",
        "Bakery",
        "Deli",
        "Canned Goods & Soups",
        "Beer",
        "Pets",
        "Breakfast",
        "Condiments & Sauces",
        "Personal Care",
        "Dry Goods & Pasta",
        "Oils, Vinegars, & Spices",
        "Health Care",
        "Baking Essentials",
        "Kitchen Supplies",
        "Hard Beverages",
        "Miscellaneous",
        "Party & Gift Supplies",
        "Office & Craft",
        "Baby",
    ];
    let ghost cats = categories@.map_values(|c: &str| c@);
    assert(cats =~= search_categories());
    let ghost edges = catalog.edges();
    let ghost n_store = catalog.store().len();
    let mut refs: Vec<GroupRef> = Vec::new();
    let mut c: usize = 0;
    while c < categories.len()
        invariant
            c <= categories@.len(),
            cats == categories@.map_values(|c: &str| c@),
            edges == catalog.edges(),
            n_store == catalog.store().len(),
            catalog.wf(),
            ref_indices(refs@) == dedup(category_targets(edges, cats.subrange(0, c as int))),
            forall|j: int| 0 <= j < refs@.len() ==> (#[trigger] refs@[j]).index < n_store,
        decreases categories@.len() - c,
    {
        let path = category_path_text(categories[c]);
        let found = catalog.index().list_edges(&path);
        let ghost done = category_targets(edges, cats.subrange(0, c as int));
        let ghost t = targets_of(edge_views(found@));
        proof {
            assert(cats.subrange(0, c + 1).drop_last() =~= cats.subrange(0, c as int));
            assert(cats.subrange(0, c + 1).last() == cats[c as int]);
            lemma_edges_at_bounded(edges, path@, n_store);
        }
        let mut j: usize = 0;
        while j < found.len()
            invariant
                j <= found@.len(),
                t == targets_of(edge_views(found@)),
                forall|k: int| 0 <= k < t.len() ==> #[trigger] t[k] < n_store,
                ref_indices(refs@) == dedup(done + t.subrange(0, j as int)),
                forall|k: int| 0 <= k < refs@.len() ==> (#[trigger] refs@[k]).index < n_store,
            decreases found@.len() - j,
        {
            let g = found[j].target;
            assert(g.index == t[j as int]);
            proof {
                assert((done + t.subrange(0, j + 1)).drop_last() =~= done + t.subrange(0, j as int));
                assert((done + t.subrange(0, j + 1)).last() == t[j as int]);
            }
            if !holds_ref(&refs, g) {
                let ghost before = refs@;
                refs.push(g);
                assert(ref_indices(refs@) =~= ref_indices(before).push(g.index));
            }
            j += 1;
        }
        proof {
            assert(t.subrange(0, t.len() as int) =~= t);
        }
        c += 1;
    }
    assert(cats.subrange(0, categories@.len() as int) =~= cats);
    let records = concurrent_get_records(catalog, &refs);
    proof {
        lemma_present_all(ref_indices(refs@), n_store);
    }
    let mut total: usize = 0;
    let mut i: usize = 0;
    while i < records.len()
        invariant
            i <= records@.len(),
            total as nat == capped(product_total(records@.subrange(0, i as int))),
        decreases records@.len() - i,
    {
        assert(records@.subrange(0, i + 1).drop_last() =~= records@.subrange(0, i as int));
        total = total.saturating_add(records[i].group.products.len());
        i += 1;
    }
    assert(records@.subrange(0, records@.len() as int) =~= records@);
    SearchResult { products: records, total }
}

} // verus!
