//! Reads over the catalog: pages of groups under a path, with counts taken
//! from the edges.
use vstd::prelude::*;
use crate::catalog::{GroupRecord, ProductCatalog};
use crate::index::{EdgeView, GroupRef, LinkEdge, edge_views, edges_at, sum_counts, targets_of};
use crate::paths::{path_for, query_path};
use crate::product::{
    CatalogError, ClassView, Product, clone_text, opt_text, views_of_products,
};
use crate::tag::{decode_count, tag_count};

verus! {

/// How many groups a page holds when the caller names no limit.
pub fn default_limit() -> (r: usize)
    ensures
        r == 5,
{
    5
}

/// A page request on the groups under one classification's path.
pub struct GetProductsParams {
    pub category: String,
    pub subcategory: Option<String>,
    pub product_type: Option<String>,
    /// The number of groups to pass over.
    pub offset: usize,
    /// The most groups to return.
    pub limit: usize,
}

/// All groups under one classification's path.
pub struct GetProductGroupsParams {
    pub category: String,
    pub subcategory: Option<String>,
    pub product_type: Option<String>,
}

/// A page of the products of one group.
pub struct GroupProductsParams {
    pub group_hash: GroupRef,
    pub offset: usize,
    pub limit: usize,
}

/// A page of groups under a path, with totals over the whole path.
pub struct CategorizedProducts {
    pub category: String,
    pub subcategory: Option<String>,
    pub product_type: Option<String>,
    pub product_groups: Vec<GroupRecord>,
    pub total_groups: usize,
    pub total_products: usize,
    pub has_more: bool,
}

/// A page of the products of one group.
pub struct PaginatedProducts {
    pub products: Vec<Product>,
    pub total: usize,
    pub has_more: bool,
}

pub open spec fn params_class(
    category: String,
    subcategory: Option<String>,
    product_type: Option<String>,
) -> ClassView {
    ClassView {
        category: category@,
        subcategory: opt_text(subcategory),
        product_type: opt_text(product_type),
    }
}

pub open spec fn min_nat(a: nat, b: nat) -> nat {
    if a < b {
        a
    } else {
        b
    }
}

/// The part of `s` that starts `offset` items in and holds at most `limit`
/// items.
pub open spec fn page<T>(s: Seq<T>, offset: nat, limit: nat) -> Seq<T> {
    s.subrange(min_nat(offset, s.len()) as int, min_nat(offset + limit, s.len()) as int)
}

/// `n`, or the largest `usize` when `n` is larger.
pub open spec fn capped(n: nat) -> nat {
    min_nat(n, usize::MAX as nat)
}

/// The references of `refs` under which something is stored, in order.
pub open spec fn present(refs: Seq<usize>, n: nat) -> Seq<usize>
    decreases refs.len(),
{
    if refs.len() == 0 {
        Seq::empty()
    } else {
        let r = present(refs.drop_last(), n);
        if refs.last() < n {
            r.push(refs.last())
        } else {
            r
        }
    }
}

pub open spec fn record_refs(s: Seq<GroupRecord>) -> Seq<usize> {
    s.map_values(|r: GroupRecord| r.group_ref.index)
}

pub open spec fn ref_indices(s: Seq<GroupRef>) -> Seq<usize> {
    s.map_values(|r: GroupRef| r.index)
}

/// Every record holds what the catalog stores under its reference.
pub open spec fn records_match(s: Seq<GroupRecord>, catalog: ProductCatalog) -> bool {
    forall|i: int|
        0 <= i < s.len() ==> (#[trigger] s[i]).group_ref.index < catalog.store().len()
            && s[i].group@ == catalog.store()[s[i].group_ref.index as int]
}

/// The sum of the products of the groups.
pub open spec fn product_total(s: Seq<GroupRecord>) -> nat
    decreases s.len(),
{
    if s.len() == 0 {
        0
    } else {
        product_total(s.drop_last()) + s.last().group@.products.len()
    }
}

pub proof fn lemma_present_all(refs: Seq<usize>, n: nat)
    requires
        forall|i: int| 0 <= i < refs.len() ==> #[trigger] refs[i] < n,
    ensures
        present(refs, n) == refs,
    decreases refs.len(),
{
    if refs.len() > 0 {
        lemma_present_all(refs.drop_last(), n);
        assert(refs.drop_last().push(refs.last()) =~= refs);
    }
}

pub proof fn lemma_edges_at_bounded(s: Seq<EdgeView>, p: Seq<char>, n: nat)
    requires
        forall|i: int| 0 <= i < s.len() ==> (#[trigger] s[i]).target < n,
    ensures
        forall|i: int| 0 <= i < edges_at(s, p).len() ==> (#[trigger] edges_at(s, p)[i]).target < n,
    decreases s.len(),
{
    if s.len() > 0 {
        assert forall|i: int| 0 <= i < s.drop_last().len() implies (#[trigger] s.drop_last()[i]).target
            < n by {
            assert(s.drop_last()[i] == s[i]);
        }
        lemma_edges_at_bounded(s.drop_last(), p, n);
        let r = edges_at(s.drop_last(), p);
        assert forall|i: int| 0 <= i < r.push(s.last()).len() implies (#[trigger] r.push(
            s.last(),
        )[i]).target < n by {
            if i < r.len() {
                assert(r.push(s.last())[i] == r[i]);
            }
        }
    }
}

/// Fetches the groups stored under `refs`, in order. A reference under which
/// nothing is stored is passed over.
pub fn concurrent_get_records(catalog: &ProductCatalog, refs: &Vec<GroupRef>) -> (r: Vec<
    GroupRecord,
>)
    ensures
        record_refs(r@) == present(ref_indices(refs@), catalog.store().len()),
        records_match(r@, *catalog),
{
    let ghost n = catalog.store().len();
    let ghost all = ref_indices(refs@);
    let mut r: Vec<GroupRecord> = Vec::new();
    let mut i: usize = 0;
    while i < refs.len()
        invariant
            i <= refs@.len(),
            all == ref_indices(refs@),
            n == catalog.store().len(),
            record_refs(r@) == present(all.subrange(0, i as int), n),
            records_match(r@, *catalog),
        decreases refs@.len() - i,
    {
        assert(all.subrange(0, i + 1).drop_last() =~= all.subrange(0, i as int));
        let g = refs[i];
        match catalog.get_product_group(g) {
            Some(group) => {
                let ghost before = r@;
                r.push(GroupRecord { group_ref: g, group });
                assert(record_refs(r@) =~= record_refs(before).push(g.index));
                assert forall|j: int| 0 <= j < r@.len() implies (#[trigger] r@[j]).group_ref.index
                    < catalog.store().len() && r@[j].group@ == catalog.store()[r@[j].group_ref.index as int] by {
                    if j < before.len() {
                        assert(r@[j] == before[j]);
                    }
                }
            },
            None => {},
        }
        i += 1;
    }
    assert(all.subrange(0, refs@.len() as int) =~= all);
    r
}

fn targets(edges: &Vec<LinkEdge>, from: usize, to: usize) -> (r: Vec<GroupRef>)
    requires
        from <= to <= edges@.len(),
    ensures
        ref_indices(r@) == targets_of(edge_views(edges@).subrange(from as int, to as int)),
{
    let mut r: Vec<GroupRef> = Vec::new();
    let mut i: usize = from;
    while i < to
        invariant
            from <= i <= to <= edges@.len(),
            ref_indices(r@) == targets_of(edge_views(edges@).subrange(from as int, i as int)),
        decreases to - i,
    {
        r.push(edges[i].target);
        assert(targets_of(edge_views(edges@).subrange(from as int, i + 1)) =~= targets_of(
            edge_views(edges@).subrange(from as int, i as int),
        ).push(edges@[i as int].target.index));
        i += 1;
    }
    r
}

/// The window of a page over `total` items: where it starts, where it ends,
/// and whether items follow it.
pub fn page_window(total: usize, offset: usize, limit: usize) -> (r: (usize, usize, bool))
    ensures
        r.0 == min_nat(offset as nat, total as nat),
        r.1 == min_nat((offset + limit) as nat, total as nat),
        r.2 == (offset + limit < total),
{
    let from = if offset < total {
        offset
    } else {
        total
    };
    let to = if limit < total - from {
        from + limit
    } else {
        total
    };
    (from, to, offset < total && limit < total - offset)
}

/// The sum of the counts that tags carry, each read as `tag_count` reads
/// it.
pub open spec fn tags_total(tags: Seq<Vec<u8>>) -> nat
    decreases tags.len(),
{
    if tags.len() == 0 {
        0
    } else {
        tags_total(tags.drop_last()) + tag_count(tags.last()@)
    }
}

/// The sum of the counts that the tags carry, or the largest `usize` when
/// the sum is larger.
pub fn total_of_tags(tags: &Vec<Vec<u8>>) -> (r: usize)
    ensures
        r as nat == capped(tags_total(tags@)),
{
    let mut total: usize = 0;
    let mut i: usize = 0;
    while i < tags.len()
        invariant
            i <= tags@.len(),
            total as nat == capped(tags_total(tags@.subrange(0, i as int))),
        decreases tags@.len() - i,
    {
        assert(tags@.subrange(0, i + 1).drop_last() =~= tags@.subrange(0, i as int));
        let c = decode_count(tags[i].as_slice());
        total = total.saturating_add(c as usize);
        i += 1;
    }
    assert(tags@.subrange(0, tags@.len() as int) =~= tags@);
    total
}

/// The sum of the counts on the edges, or the largest `usize` when the sum
/// is larger.
fn total_count(edges: &Vec<LinkEdge>) -> (r: usize)
    ensures
        r as nat == capped(sum_counts(edge_views(edges@))),
{
    let ghost s = edge_views(edges@);
    let mut total: usize = 0;
    let mut i: usize = 0;
    while i < edges.len()
        invariant
            i <= edges@.len(),
            s == edge_views(edges@),
            total as nat == capped(sum_counts(s.subrange(0, i as int))),
        decreases edges@.len() - i,
    {
        assert(s.subrange(0, i + 1).drop_last() =~= s.subrange(0, i as int));
        assert(s.subrange(0, i + 1).last() == edges@[i as int]@);
        let c = decode_count(edges[i].tag.as_slice());
        total = total.saturating_add(c as usize);
        i += 1;
    }
    assert(s.subrange(0, edges@.len() as int) =~= s);
    total
}

/// Every group under the path of the given classification. Fails with
/// `InvalidClassification` for a product type without a subcategory.
pub fn get_product_groups_by_path(catalog: &ProductCatalog, params: &GetProductGroupsParams) -> (r:
    Result<Vec<GroupRecord>, CatalogError>)
    requires
        catalog.wf(),
    ensures
        r is Err <==> (params.subcategory is None && params.product_type is Some),
        r is Err ==> r == Err::<Vec<GroupRecord>, CatalogError>(
            CatalogError::InvalidClassification,
        ),
        r matches Ok(v) ==> {
            let s = edges_at(
                catalog.edges(),
                query_path(params_class(params.category, params.subcategory, params.product_type)),
            );
            &&& record_refs(v@) == targets_of(s)
            &&& records_match(v@, *catalog)
        },
{
    let path = match path_for(&params.category, &params.subcategory, &params.product_type) {
        Ok(p) => p,
        Err(e) => {
            return Err(e);
        },
    };
    let edges = catalog.index().list_edges(&path);
    let refs = targets(&edges, 0, edges.len());
    let records = concurrent_get_records(catalog, &refs);
    proof {
        let s = edge_views(edges@);
        assert(s.subrange(0, s.len() as int) =~= s);
        lemma_edges_at_bounded(catalog.edges(), path@, catalog.store().len());
        lemma_present_all(targets_of(s), catalog.store().len());
    }
    Ok(records)
}

/// The count carried by each edge under the path of the given
/// classification, in insertion order. Fails with `InvalidClassification`
/// for a product type without a subcategory.
pub fn get_all_group_counts_for_path(catalog: &ProductCatalog, params: &GetProductsParams) -> (r:
    Result<Vec<usize>, CatalogError>)
    ensures
        r is Err <==> (params.subcategory is None && params.product_type is Some),
        r is Err ==> r == Err::<Vec<usize>, CatalogError>(CatalogError::InvalidClassification),
        r matches Ok(v) ==> v@.map_values(|c: usize| c as nat) == crate::index::counts_of(
            edges_at(
                catalog.edges(),
                query_path(params_class(params.category, params.subcategory, params.product_type)),
            ),
        ),
{
    let path = match path_for(&params.category, &params.subcategory, &params.product_type) {
        Ok(p) => p,
        Err(e) => {
            return Err(e);
        },
    };
    Ok(catalog.index().counts_at(&path))
}

/// A page of the groups under the path of the given classification: the
/// groups of the edges from `offset` on, at most `limit` of them, with the
/// number of edges under the path, the sum of their counts, and whether
/// edges follow the page. Fails with `InvalidClassification` for a product
/// type without a subcategory.
pub fn get_products_by_category(catalog: &ProductCatalog, params: &GetProductsParams) -> (r: Result<
    CategorizedProducts,
    CatalogError,
>)
    requires
        catalog.wf(),
    ensures
        r is Err <==> (params.subcategory is None && params.product_type is Some),
        r is Err ==> r == Err::<CategorizedProducts, CatalogError>(
            CatalogError::InvalidClassification,
        ),
        r matches Ok(c) ==> {
            let s = edges_at(
                catalog.edges(),
                query_path(params_class(params.category, params.subcategory, params.product_type)),
            );
            &&& c.category@ == params.category@
            &&& opt_text(c.subcategory) == opt_text(params.subcategory)
            &&& opt_text(c.product_type) == opt_text(params.product_type)
            &&& c.total_groups == s.len()
            &&& c.total_products as nat == capped(sum_counts(s))
            &&& c.has_more == (params.offset + params.limit < s.len())
            &&& record_refs(c.product_groups@) == targets_of(
                page(s, params.offset as nat, params.limit as nat),
            )
            &&& records_match(c.product_groups@, *catalog)
        },
{
    let path = match path_for(&params.category, &params.subcategory, &params.product_type) {
        Ok(p) => p,
        Err(e) => {
            return Err(e);
        },
    };
    let edges = catalog.index().list_edges(&path);
    let total_groups = edges.len();
    let total_products = total_count(&edges);
    let (from, to, has_more) = page_window(total_groups, params.offset, params.limit);
    let refs = targets(&edges, from, to);
    let records = concurrent_get_records(catalog, &refs);
    proof {
        let s = edge_views(edges@);
        lemma_edges_at_bounded(catalog.edges(), path@, catalog.store().len());
        let t = targets_of(s.subrange(from as int, to as int));
        assert forall|i: int| 0 <= i < t.len() implies #[trigger] t[i] < catalog.store().len() by {
            assert(t[i] == s[from + i].target);
        }
        lemma_present_all(t, catalog.store().len());
    }
    Ok(
        CategorizedProducts {
            category: params.category.clone(),
            subcategory: clone_text(&params.subcategory),
            product_type: clone_text(&params.product_type),
            product_groups: records,
            total_groups,
            total_products,
            has_more,
        },
    )
}

/// Every group under a category, unpaged, with the product total summed
/// over the fetched groups themselves rather than read from the edges.
pub fn get_all_category_products(catalog: &ProductCatalog, category: &String) -> (r:
    CategorizedProducts)
    requires
        catalog.wf(),
    ensures
        ({
            let s = edges_at(catalog.edges(), crate::paths::category_path(category@));
            &&& r.category@ == category@
            &&& r.subcategory is None
            &&& r.product_type is None
            &&& r.total_groups == s.len()
            &&& record_refs(r.product_groups@) == targets_of(s)
            &&& records_match(r.product_groups@, *catalog)
            &&& r.total_products as nat == capped(product_total(r.product_groups@))
            &&& !r.has_more
        }),
{
    let path = crate::paths::category_path_text(category.as_str());
    let edges = catalog.index().list_edges(&path);
    let total_groups = edges.len();
    let refs = targets(&edges, 0, total_groups);
    let records = concurrent_get_records(catalog, &refs);
    proof {
        let s = edge_views(edges@);
        assert(s.subrange(0, s.len() as int) =~= s);
        lemma_edges_at_bounded(catalog.edges(), path@, catalog.store().len());
        lemma_present_all(targets_of(s), catalog.store().len());
    }
    let mut total: usize = 0;
    let mut i: usize = 0;
    while i < records.len()
        invariant
            i <= records@.len(),
            total as nat == capped(product_total(records@.subrange(0, i as int))),
        decreases records@.len() - i,
    {
        assert(records@.subrange(0, i + 1).drop_last() =~= records@.subrange(0, i as int));
        total = total.saturating_add(records[i].group.products.len());
        i += 1;
    }
    assert(records@.subrange(0, records@.len() as int) =~= records@);
    CategorizedProducts {
        category: category.clone(),
        subcategory: None,
        product_type: None,
        product_groups: records,
        total_groups,
        total_products: total,
        has_more: false,
    }
}

/// A page of the products of one stored group: from `offset` on, at most
/// `limit` of them, with the group's size and whether products follow the
/// page. Fails with `NotFound` when nothing is stored under the reference.
pub fn get_paginated_products_from_group(
    catalog: &ProductCatalog,
    params: &GroupProductsParams,
) -> (r: Result<PaginatedProducts, CatalogError>)
    ensures
        r is Err <==> params.group_hash.index >= catalog.store().len(),
        r is Err ==> r == Err::<PaginatedProducts, CatalogError>(CatalogError::NotFound),
        r matches Ok(p) ==> {
            let all = catalog.store()[params.group_hash.index as int].products;
            &&& views_of_products(p.products@) == page(all, params.offset as nat, params.limit as nat)
            &&& p.total == all.len()
            &&& p.has_more == (params.offset + params.limit < all.len())
        },
{
    let group = match catalog.get_product_group(params.group_hash) {
        Some(g) => g,
        None => {
            return Err(CatalogError::NotFound);
        },
    };
    let ghost all = group@.products;
    let total = group.products.len();
    let (from, to, has_more) = page_window(total, params.offset, params.limit);
    let mut products: Vec<Product> = Vec::new();
    let mut i: usize = from;
    while i < to
        invariant
            from <= i <= to <= group.products@.len(),
            all == views_of_products(group.products@),
            views_of_products(products@) == all.subrange(from as int, i as int),
        decreases to - i,
    {
        let ghost before = products@;
        products.push(group.products[i].clone());
        assert(views_of_products(products@) =~= views_of_products(before).push(all[i as int]));
        assert(all.subrange(from as int, i + 1) =~= all.subrange(from as int, i as int).push(
            all[i as int],
        ));
        i += 1;
    }
    Ok(PaginatedProducts { products, total, has_more })
}

/// Two consecutive pages together are the page that spans both: paging
/// from `offset` by `first`, then from `offset + first` by `second`, passes
/// over nothing and repeats nothing.
pub proof fn lemma_consecutive_pages<T>(s: Seq<T>, offset: nat, first: nat, second: nat)
    ensures
        page(s, offset, first) + page(s, offset + first, second) == page(
            s,
            offset,
            first + second,
        ),
        offset + first + second >= s.len() ==> page(s, offset, first + second) == s.subrange(
            min_nat(offset, s.len()) as int,
            s.len() as int,
        ),
{
    assert(page(s, offset, first) + page(s, offset + first, second) =~= page(
        s,
        offset,
        first + second,
    ));
}

} // verus!
