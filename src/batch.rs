//! Ingestion of a batch of products: grouping by classification, cutting
//! groups to size, and creating each group.
use vstd::prelude::*;
use crate::catalog::{
    ProductCatalog, creation_check, group_paths, link_edges, misses, occurrences,
    lemma_created_group_counts, lemma_edges_at_misses,
};
use crate::index::{
    EdgeView, GroupRef, edges_at, sum_counts_to, lemma_edges_at_concat, lemma_sum_counts_to_concat,
};
use crate::paths::class_valid;
use crate::product::{
    CatalogError, ClassView, CreateProductGroupInput, CreateProductInput, DualCategorization,
    GroupView, InputView, PRODUCTS_PER_GROUP, Product, ProductView, clone_classes, clone_text,
    all_members_match, all_products_valid, drop_empty, member_matches, opt_text, product_valid,
    views_of_classes, views_of_products, without_empty,
};

verus! {

/// The classification an ingested product is grouped under: its declared
/// one, with empty texts taken as absent.
pub open spec fn key_of(x: InputView) -> ClassView {
    ClassView {
        category: x.class.category,
        subcategory: drop_empty(x.class.subcategory),
        product_type: drop_empty(x.class.product_type),
    }
}

/// The product as it is stored: its own classification fields replaced by
/// its grouping key.
pub open spec fn placed(x: InputView) -> ProductView {
    ProductView { class: key_of(x), ..x.product }
}

/// The distinct keys of the inputs, in order of first appearance.
pub open spec fn keys(s: Seq<InputView>) -> Seq<ClassView>
    decreases s.len(),
{
    if s.len() == 0 {
        Seq::empty()
    } else {
        let r = keys(s.drop_last());
        if r.contains(key_of(s.last())) {
            r
        } else {
            r.push(key_of(s.last()))
        }
    }
}

/// The placed products of the inputs with key `k`, in input order.
pub open spec fn members(s: Seq<InputView>, k: ClassView) -> Seq<ProductView>
    decreases s.len(),
{
    if s.len() == 0 {
        Seq::empty()
    } else {
        let r = members(s.drop_last(), k);
        if key_of(s.last()) == k {
            r.push(placed(s.last()))
        } else {
            r
        }
    }
}

/// The first input with key `k`, if any.
pub open spec fn first_with(s: Seq<InputView>, k: ClassView) -> Option<InputView>
    decreases s.len(),
{
    if s.len() == 0 {
        None
    } else {
        let r = first_with(s.drop_last(), k);
        if r is Some {
            r
        } else if key_of(s.last()) == k {
            Some(s.last())
        } else {
            None
        }
    }
}

/// The further classifications a partition carries: those of its first
/// input.
pub open spec fn first_additional(s: Seq<InputView>, k: ClassView) -> Seq<ClassView> {
    match first_with(s, k) {
        Some(x) => x.additional,
        None => Seq::empty(),
    }
}

/// `ms` cut, in order, into runs of `PRODUCTS_PER_GROUP`, the last run
/// holding the rest.
pub open spec fn chunks(ms: Seq<ProductView>) -> Seq<Seq<ProductView>>
    decreases ms.len(),
{
    if ms.len() == 0 {
        Seq::empty()
    } else if ms.len() <= PRODUCTS_PER_GROUP {
        seq![ms]
    } else {
        seq![ms.subrange(0, PRODUCTS_PER_GROUP as int)] + chunks(
            ms.subrange(PRODUCTS_PER_GROUP as int, ms.len() as int),
        )
    }
}

pub open spec fn group_of_chunk(k: ClassView, add: Seq<ClassView>, c: Seq<ProductView>) -> GroupView {
    GroupView { class: k, products: c, additional: add }
}

/// The groups planned for key `k`.
pub open spec fn groups_for(s: Seq<InputView>, k: ClassView) -> Seq<GroupView> {
    chunks(members(s, k)).map_values(
        |c: Seq<ProductView>| group_of_chunk(k, first_additional(s, k), c),
    )
}

pub open spec fn plan_over(s: Seq<InputView>, ks: Seq<ClassView>) -> Seq<GroupView>
    decreases ks.len(),
{
    if ks.len() == 0 {
        Seq::empty()
    } else {
        plan_over(s, ks.drop_last()) + groups_for(s, ks.last())
    }
}

/// The groups a batch is cut into: for each key in order of first
/// appearance, its products in runs of at most `PRODUCTS_PER_GROUP`.
pub open spec fn batch_plan(s: Seq<InputView>) -> Seq<GroupView> {
    plan_over(s, keys(s))
}

proof fn lemma_uniform_keys(s: Seq<InputView>, k: ClassView)
    requires
        s.len() > 0,
        forall|i: int| 0 <= i < s.len() ==> key_of(#[trigger] s[i]) == k,
    ensures
        keys(s) == seq![k],
        members(s, k) == s.map_values(|x: InputView| placed(x)),
        first_with(s, k) == Some(s[0]),
    decreases s.len(),
{
    let d = s.drop_last();
    assert(key_of(s.last()) == k);
    if d.len() == 0 {
        assert(members(d, k) =~= Seq::<ProductView>::empty());
        assert(keys(d) =~= Seq::<ClassView>::empty());
        assert(!keys(d).contains(k));
        assert(keys(d).push(k) =~= seq![k]);
        assert(first_with(d, k) is None);
        assert(s.map_values(|x: InputView| placed(x)) =~= seq![placed(s[0])]);
        assert(s.last() == s[0]);
    } else {
        assert forall|i: int| 0 <= i < d.len() implies key_of(#[trigger] d[i]) == k by {
            assert(d[i] == s[i]);
        }
        lemma_uniform_keys(d, k);
        assert(seq![k].contains(k)) by {
            assert(seq![k][0] == k);
        }
        assert(s.map_values(|x: InputView| placed(x)) =~= d.map_values(|x: InputView| placed(x)).push(
            placed(s.last()),
        ));
        assert(d[0] == s[0]);
    }
}

proof fn lemma_two_runs(ms: Seq<ProductView>)
    requires
        PRODUCTS_PER_GROUP < ms.len() <= 2 * PRODUCTS_PER_GROUP,
    ensures
        chunks(ms) == seq![
            ms.subrange(0, PRODUCTS_PER_GROUP as int),
            ms.subrange(PRODUCTS_PER_GROUP as int, ms.len() as int),
        ],
{
    let rest = ms.subrange(PRODUCTS_PER_GROUP as int, ms.len() as int);
    assert(chunks(rest) == seq![rest]);
    assert(seq![ms.subrange(0, PRODUCTS_PER_GROUP as int)] + seq![rest] =~= seq![
        ms.subrange(0, PRODUCTS_PER_GROUP as int),
        rest,
    ]);
}

/// A batch whose products all share one classification, more than one
/// group's worth and at most two, is cut into exactly two groups: the first
/// `PRODUCTS_PER_GROUP` products, then the rest, both of that
/// classification. When the classification and the first input's further
/// classifications are valid and every product is valid, both groups pass
/// every check, so both are created.
pub proof fn lemma_uniform_batch_two_groups(s: Seq<InputView>, k: ClassView)
    requires
        PRODUCTS_PER_GROUP < s.len() <= 2 * PRODUCTS_PER_GROUP,
        forall|i: int| 0 <= i < s.len() ==> key_of(#[trigger] s[i]) == k,
    ensures
        batch_plan(s).len() == 2,
        batch_plan(s)[0].products.len() == PRODUCTS_PER_GROUP,
        batch_plan(s)[1].products.len() == s.len() - PRODUCTS_PER_GROUP,
        batch_plan(s)[0].class == k && batch_plan(s)[1].class == k,
        ({
            &&& class_valid(k)
            &&& crate::paths::classes_valid(s[0].additional)
            &&& forall|i: int| 0 <= i < s.len() ==> product_valid(#[trigger] s[i].product)
        }) ==> batch_check(batch_plan(s)[0]) is Ok && batch_check(batch_plan(s)[1]) is Ok,
{
    lemma_uniform_keys(s, k);
    let ms = s.map_values(|x: InputView| placed(x));
    lemma_two_runs(ms);
    let add = first_additional(s, k);
    assert(seq![k].drop_last() =~= Seq::<ClassView>::empty());
    assert(plan_over(s, Seq::<ClassView>::empty()) == Seq::<GroupView>::empty());
    assert(batch_plan(s) =~= groups_for(s, k));
    let plan = batch_plan(s);
    assert(plan[0] == group_of_chunk(k, add, ms.subrange(0, PRODUCTS_PER_GROUP as int)));
    assert(plan[1] == group_of_chunk(k, add, ms.subrange(PRODUCTS_PER_GROUP as int, ms.len() as int)));
    if class_valid(k) && crate::paths::classes_valid(s[0].additional) && forall|i: int|
        0 <= i < s.len() ==> product_valid(#[trigger] s[i].product) {
        assert forall|j: int| 0 <= j < 2 implies batch_check(#[trigger] plan[j]) is Ok by {
            let ps = plan[j].products;
            assert forall|i: int| 0 <= i < ps.len() implies member_matches(#[trigger] ps[i], k)
                && product_valid(ps[i]) by {
                let off: int = if j == 0 {
                    0
                } else {
                    PRODUCTS_PER_GROUP as int
                };
                assert(ps[i] == ms[off + i]);
                assert(ms[off + i] == placed(s[off + i]));
                assert(product_valid(s[off + i].product));
            }
            assert(all_members_match(ps, plan[j].class));
            assert(all_products_valid(ps));
        }
        assert(batch_check(plan[0]) is Ok);
        assert(batch_check(plan[1]) is Ok);
    }
}

pub open spec fn input_views(s: Seq<CreateProductInput>) -> Seq<InputView> {
    s.map_values(|x: CreateProductInput| x@)
}

pub open spec fn ok_count(rs: Seq<Result<GroupRef, CatalogError>>) -> nat
    decreases rs.len(),
{
    if rs.len() == 0 {
        0
    } else {
        ok_count(rs.drop_last()) + if rs.last() is Ok {
            1nat
        } else {
            0nat
        }
    }
}

/// What a planned group of a batch is refused with, if anything: a grouping
/// key with a product type but no subcategory first, then whatever creating
/// the group is refused with.
pub open spec fn batch_check(g: GroupView) -> Result<(), CatalogError> {
    if !class_valid(g.class) {
        Err(CatalogError::InvalidClassification)
    } else {
        creation_check(g)
    }
}

/// The edges a batch adds: for each created group, in order, one counted
/// edge under each of its paths.
pub open spec fn batch_edges(rs: Seq<Result<GroupRef, CatalogError>>, plan: Seq<GroupView>) -> Seq<
    EdgeView,
>
    decreases rs.len(),
{
    if rs.len() == 0 || plan.len() == 0 {
        Seq::empty()
    } else {
        batch_edges(rs.drop_last(), plan.drop_last()) + match rs.last() {
            Ok(g) => link_edges(
                group_paths(plan.last()),
                g.index,
                plan.last().products.len() as u32,
            ),
            Err(_) => Seq::empty(),
        }
    }
}

/// Each created group has the next reference after those before it: the
/// references are new to a store of `base` groups, and distinct.
pub open spec fn fresh_refs(rs: Seq<Result<GroupRef, CatalogError>>, base: nat) -> bool {
    forall|j: int|
        0 <= j < rs.len() ==> (#[trigger] rs[j] matches Ok(g) ==> g.index == base + ok_count(
            rs.subrange(0, j),
        ))
}

/// Each outcome is that of creating its planned group, and each created
/// group is stored under the reference returned for it.
pub open spec fn outcomes_follow(
    rs: Seq<Result<GroupRef, CatalogError>>,
    plan: Seq<GroupView>,
    store: Seq<GroupView>,
) -> bool {
    &&& rs.len() == plan.len()
    &&& forall|j: int|
        0 <= j < rs.len() ==> {
            &&& (#[trigger] rs[j] is Ok <==> batch_check(plan[j]) is Ok)
            &&& rs[j] matches Err(e) ==> batch_check(plan[j]) == Err::<(), CatalogError>(e)
            &&& rs[j] matches Ok(g) ==> g.index < store.len() && store[g.index as int] == plan[j]
        }
}

proof fn lemma_outcomes_push(
    rs: Seq<Result<GroupRef, CatalogError>>,
    plan: Seq<GroupView>,
    store: Seq<GroupView>,
    store2: Seq<GroupView>,
    x: Result<GroupRef, CatalogError>,
    gv: GroupView,
)
    requires
        outcomes_follow(rs, plan, store),
        store.len() <= store2.len(),
        store2.subrange(0, store.len() as int) == store,
        x is Ok <==> batch_check(gv) is Ok,
        x matches Err(e) ==> batch_check(gv) == Err::<(), CatalogError>(e),
        x matches Ok(g) ==> g.index < store2.len() && store2[g.index as int] == gv,
    ensures
        outcomes_follow(rs.push(x), plan.push(gv), store2),
        ok_count(rs.push(x)) == ok_count(rs) + if x is Ok {
            1nat
        } else {
            0nat
        },
{
    assert(rs.push(x).drop_last() =~= rs);
    let rs2 = rs.push(x);
    let longer = plan.push(gv);
    assert forall|j: int| 0 <= j < rs2.len() implies {
        &&& (#[trigger] rs2[j] is Ok <==> batch_check(longer[j]) is Ok)
        &&& rs2[j] matches Err(e) ==> batch_check(longer[j]) == Err::<(), CatalogError>(e)
        &&& rs2[j] matches Ok(g) ==> g.index < store2.len() && store2[g.index as int] == longer[j]
    } by {
        if j < rs.len() {
            assert(rs2[j] == rs[j]);
            assert(longer[j] == plan[j]);
            if let Ok(g) = rs[j] {
                assert(store2[g.index as int] == store2.subrange(0, store.len() as int)[g.index as int]);
            }
        }
    }
}

fn same_text(a: &Option<String>, b: &Option<String>) -> (r: bool)
    ensures
        r == (opt_text(*a) == opt_text(*b)),
{
    match (a, b) {
        (Some(x), Some(y)) => x.eq(y),
        (None, None) => true,
        _ => false,
    }
}

fn same_class(a: &DualCategorization, b: &DualCategorization) -> (r: bool)
    ensures
        r == (a@ == b@),
{
    a.main_category.eq(&b.main_category) && same_text(&a.subcategory, &b.subcategory) && same_text(
        &a.product_type,
        &b.product_type,
    )
}

fn holds_class(ks: &Vec<DualCategorization>, k: &DualCategorization) -> (r: bool)
    ensures
        r == views_of_classes(ks@).contains(k@),
{
    let ghost v = views_of_classes(ks@);
    let mut i: usize = 0;
    while i < ks.len()
        invariant
            i <= ks@.len(),
            v == views_of_classes(ks@),
            forall|j: int| 0 <= j < i ==> v[j] != k@,
        decreases ks@.len() - i,
    {
        if same_class(&ks[i], k) {
            assert(v[i as int] == k@);
            return true;
        }
        i += 1;
    }
    false
}

/// The grouping key of an input and the product as it is to be stored.
fn key_and_product(x: &CreateProductInput) -> (r: (DualCategorization, Product))
    ensures
        r.0@ == key_of(x@),
        r.1@ == placed(x@),
{
    let key = DualCategorization {
        main_category: x.main_category.clone(),
        subcategory: without_empty(clone_text(&x.subcategory)),
        product_type: without_empty(clone_text(&x.product_type)),
    };
    let mut product = x.product.clone();
    product.category = key.main_category.clone();
    product.subcategory = clone_text(&key.subcategory);
    product.product_type = clone_text(&key.product_type);
    (key, product)
}


/// Under every path, the counts on the edges to each created group add up
/// to its number of products for each time the path is among its paths.
pub open spec fn counts_placed(
    rs: Seq<Result<GroupRef, CatalogError>>,
    plan: Seq<GroupView>,
    edges: Seq<EdgeView>,
) -> bool {
    forall|j: int, p: Seq<char>|
        #![trigger rs[j], edges_at(edges, p)]
        0 <= j < rs.len() && rs[j] is Ok ==> sum_counts_to(edges_at(edges, p), rs[j]->Ok_0.index)
            == plan[j].products.len() as nat * occurrences(group_paths(plan[j]), p)
}

pub open spec fn group_input_views(s: Seq<CreateProductGroupInput>) -> Seq<GroupView> {
    s.map_values(|g: CreateProductGroupInput| g@)
}

/// Appends the groups of key `key` cut from `ms`.
fn push_chunks(
    out: &mut Vec<CreateProductGroupInput>,
    key: &DualCategorization,
    additional: &Vec<DualCategorization>,
    ms: &Vec<Product>,
)
    ensures
        group_input_views(final(out)@) == group_input_views(old(out)@) + chunks(
            views_of_products(ms@),
        ).map_values(|c: Seq<ProductView>| group_of_chunk(key@, views_of_classes(additional@), c)),
{
    let ghost all = views_of_products(ms@);
    let ghost k = key@;
    let ghost add = views_of_classes(additional@);
    let ghost base = group_input_views(out@);
    let ghost mut cut: Seq<Seq<ProductView>> = Seq::empty();
    let n = ms.len();
    let mut start: usize = 0;
    assert(all.subrange(0, n as int) =~= all);
    assert(cut + chunks(all) =~= chunks(all));
    assert(cut.map_values(|c: Seq<ProductView>| group_of_chunk(k, add, c)) =~= Seq::<GroupView>::empty());
    assert(base + Seq::<GroupView>::empty() =~= base);
    while start < n
        invariant
            n == ms@.len(),
            all == views_of_products(ms@),
            k == key@,
            add == views_of_classes(additional@),
            start <= n,
            chunks(all) == cut + chunks(all.subrange(start as int, n as int)),
            group_input_views(out@) == base + cut.map_values(
                |c: Seq<ProductView>| group_of_chunk(k, add, c),
            ),
        decreases n - start,
    {
        let end = if n - start <= PRODUCTS_PER_GROUP {
            n
        } else {
            start + PRODUCTS_PER_GROUP
        };
        let ghost rest = all.subrange(start as int, n as int);
        let ghost piece = all.subrange(start as int, end as int);
        proof {
            assert(rest.subrange(0, (end - start) as int) =~= piece);
            assert(rest.subrange((end - start) as int, rest.len() as int) =~= all.subrange(
                end as int,
                n as int,
            ));
            if end == n {
                assert(piece =~= rest);
                assert(all.subrange(end as int, n as int) =~= Seq::<ProductView>::empty());
                assert(chunks(rest) == seq![piece]);
                assert(seq![piece] =~= seq![piece] + chunks(Seq::<ProductView>::empty()));
            }
            assert(chunks(rest) == seq![piece] + chunks(all.subrange(end as int, n as int)));
            assert(cut + chunks(rest) =~= cut.push(piece) + chunks(all.subrange(end as int, n as int)));
        }
        let mut products: Vec<Product> = Vec::new();
        let mut i: usize = start;
        while i < end
            invariant
                start <= i <= end <= n,
                n == ms@.len(),
                all == views_of_products(ms@),
                views_of_products(products@) == all.subrange(start as int, i as int),
            decreases end - i,
        {
            let ghost before = products@;
            products.push(ms[i].clone());
            assert(views_of_products(products@) =~= views_of_products(before).push(all[i as int]));
            assert(all.subrange(start as int, i + 1) =~= all.subrange(start as int, i as int).push(
                all[i as int],
            ));
            i += 1;
        }
        let input = CreateProductGroupInput {
            category: key.main_category.clone(),
            subcategory: clone_text(&key.subcategory),
            product_type: clone_text(&key.product_type),
            products,
            additional_categorizations: clone_classes(additional),
        };
        assert(input@.class == k);
        assert(input@.products == piece);
        assert(input@.additional == add);
        let ghost before = out@;
        out.push(input);
        proof {
            assert(group_input_views(out@) =~= group_input_views(before).push(
                group_of_chunk(k, add, piece),
            ));
            assert(cut.push(piece).map_values(|c: Seq<ProductView>| group_of_chunk(k, add, c))
                =~= cut.map_values(|c: Seq<ProductView>| group_of_chunk(k, add, c)).push(
                group_of_chunk(k, add, piece),
            ));
            cut = cut.push(piece);
        }
        start = end;
    }
    proof {
        assert(all.subrange(n as int, n as int) =~= Seq::<ProductView>::empty());
        assert(cut + chunks(Seq::<ProductView>::empty()) =~= cut);
    }
}

/// The groups a batch is cut into, as inputs to group creation: the inputs
/// grouped by their declared classification (empty texts taken as absent)
/// in order of first appearance, each product's own classification fields
/// replaced by it, each group cut into runs of at most
/// `PRODUCTS_PER_GROUP` in input order and carrying the further
/// classifications of the first input of its classification.
pub fn plan_batch(products: &Vec<CreateProductInput>) -> (r: Vec<CreateProductGroupInput>)
    ensures
        group_input_views(r@) == batch_plan(input_views(products@)),
{
    let ghost sv = input_views(products@);
    let n = products.len();
    let mut norm: Vec<DualCategorization> = Vec::new();
    let mut placed_products: Vec<Product> = Vec::new();
    let mut i: usize = 0;
    while i < n
        invariant
            n == products@.len(),
            sv == input_views(products@),
            i <= n,
            norm@.len() == i,
            placed_products@.len() == i,
            forall|j: int| 0 <= j < i ==> (#[trigger] norm@[j])@ == key_of(sv[j]),
            forall|j: int| 0 <= j < i ==> (#[trigger] placed_products@[j])@ == placed(sv[j]),
        decreases n - i,
    {
        let (key, product) = key_and_product(&products[i]);
        norm.push(key);
        placed_products.push(product);
        i += 1;
    }
    let mut ks: Vec<DualCategorization> = Vec::new();
    let mut i: usize = 0;
    while i < n
        invariant
            n == products@.len(),
            sv == input_views(products@),
            norm@.len() == n,
            forall|j: int| 0 <= j < n ==> (#[trigger] norm@[j])@ == key_of(sv[j]),
            i <= n,
            views_of_classes(ks@) == keys(sv.subrange(0, i as int)),
        decreases n - i,
    {
        assert(sv.subrange(0, i + 1).drop_last() =~= sv.subrange(0, i as int));
        assert(sv.subrange(0, i + 1).last() == sv[i as int]);
        if !holds_class(&ks, &norm[i]) {
            let ghost before = ks@;
            ks.push(norm[i].clone());
            assert(views_of_classes(ks@) =~= views_of_classes(before).push(norm@[i as int]@));
        }
        i += 1;
    }
    assert(sv.subrange(0, n as int) =~= sv);
    let ghost kv = keys(sv);
    let mut out: Vec<CreateProductGroupInput> = Vec::new();
    let mut kk: usize = 0;
    while kk < ks.len()
        invariant
            n == products@.len(),
            sv == input_views(products@),
            norm@.len() == n,
            placed_products@.len() == n,
            forall|j: int| 0 <= j < n ==> (#[trigger] norm@[j])@ == key_of(sv[j]),
            forall|j: int| 0 <= j < n ==> (#[trigger] placed_products@[j])@ == placed(sv[j]),
            kv == views_of_classes(ks@),
            kv == keys(sv),
            kk <= ks@.len(),
            group_input_views(out@) == plan_over(sv, kv.subrange(0, kk as int)),
        decreases ks@.len() - kk,
    {
        let k = &ks[kk];
        assert(k@ == kv[kk as int]);
        let mut ms: Vec<Product> = Vec::new();
        let mut first: Option<usize> = None;
        let mut i: usize = 0;
        while i < n
            invariant
                n == products@.len(),
                sv == input_views(products@),
                norm@.len() == n,
                placed_products@.len() == n,
                forall|j: int| 0 <= j < n ==> (#[trigger] norm@[j])@ == key_of(sv[j]),
                forall|j: int| 0 <= j < n ==> (#[trigger] placed_products@[j])@ == placed(sv[j]),
                i <= n,
                views_of_products(ms@) == members(sv.subrange(0, i as int), k@),
                match first {
                    Some(f) => f < i && first_with(sv.subrange(0, i as int), k@) == Some(
                        sv[f as int],
                    ),
                    None => first_with(sv.subrange(0, i as int), k@) is None,
                },
            decreases n - i,
        {
            let ghost pre = sv.subrange(0, i as int);
            assert(sv.subrange(0, i + 1).drop_last() =~= pre);
            assert(sv.subrange(0, i + 1).last() == sv[i as int]);
            if same_class(&norm[i], k) {
                let ghost before = ms@;
                ms.push(placed_products[i].clone());
                assert(views_of_products(ms@) =~= views_of_products(before).push(
                    placed(sv[i as int]),
                ));
                if first.is_none() {
                    first = Some(i);
                }
            }
            i += 1;
        }
        assert(sv.subrange(0, n as int) =~= sv);
        let add = match first {
            Some(f) => clone_classes(&products[f].additional_categorizations),
            None => Vec::new(),
        };
        assert(views_of_classes(add@) =~= first_additional(sv, k@));
        push_chunks(&mut out, k, &add, &ms);
        proof {
            assert(kv.subrange(0, kk + 1).drop_last() =~= kv.subrange(0, kk as int));
            assert(chunks(views_of_products(ms@)).map_values(
                |c: Seq<ProductView>| group_of_chunk(k@, views_of_classes(add@), c),
            ) =~= groups_for(sv, k@));
        }
        kk += 1;
    }
    assert(kv.subrange(0, ks@.len() as int) =~= kv);
    out
}

impl ProductCatalog {
    /// Ingests a batch of products: creates, in order, each group that
    /// `plan_batch` cuts the batch into. A group that is refused does not
    /// stop the others: the outcome of each is returned, in order.
    pub fn create_product_batch(&mut self, products: Vec<CreateProductInput>) -> (r: Vec<
        Result<GroupRef, CatalogError>,
    >)
        requires
            old(self).wf(),
        ensures
            final(self).wf(),
            outcomes_follow(r@, batch_plan(input_views(products@)), final(self).store()),
            final(self).store().len() == old(self).store().len() + ok_count(r@),
            final(self).store().subrange(0, old(self).store().len() as int) == old(self).store(),
            counts_placed(r@, batch_plan(input_views(products@)), final(self).edges()),
            final(self).edges() == old(self).edges() + batch_edges(
                r@,
                batch_plan(input_views(products@)),
            ),
            fresh_refs(r@, old(self).store().len()),
    {
        let mut plan = plan_batch(&products);
        let ghost full = group_input_views(plan@);
        let ghost base = self.store();
        let ghost base_edges = self.edges();
        let mut results: Vec<Result<GroupRef, CatalogError>> = Vec::new();
        assert(full.subrange(0, 0) =~= Seq::<GroupView>::empty());
        assert(base_edges + batch_edges(results@, full.subrange(0, 0)) =~= base_edges);
        assert(full.subrange(0, full.len() as int) =~= full);
        assert(self.store().subrange(0, base.len() as int) =~= base);
        while plan.len() > 0
            invariant
                full == batch_plan(input_views(products@)),
                results@.len() <= full.len(),
                group_input_views(plan@) == full.subrange(results@.len() as int, full.len() as int),
                self.wf(),
                self.store().len() >= base.len(),
                self.store().subrange(0, base.len() as int) == base,
                self.store().len() == base.len() + ok_count(results@),
                outcomes_follow(results@, full.subrange(0, results@.len() as int), self.store()),
                counts_placed(results@, full.subrange(0, results@.len() as int), self.edges()),
                self.edges() == base_edges + batch_edges(
                    results@,
                    full.subrange(0, results@.len() as int),
                ),
                fresh_refs(results@, base.len()),
            decreases plan@.len(),
        {
            let ghost rs = results@;
            let ghost st = self.store();
            let ghost done = full.subrange(0, rs.len() as int);
            let ghost rest = plan@;
            assert(group_input_views(rest).len() == rest.len());
            assert(rs.len() < full.len());
            assert(group_input_views(rest)[0] == full[rs.len() as int]);
            let next = plan.remove(0);
            assert(next == rest[0]);
            assert(next@ == full[rs.len() as int]);
            assert(plan@ =~= rest.subrange(1, rest.len() as int));
            assert(forall|j: int|
                0 <= j < plan@.len() ==> #[trigger] plan@[j] == rest[j + 1] && group_input_views(
                    rest,
                )[j + 1] == full[rs.len() + 1 + j]);
            assert(group_input_views(plan@) =~= full.subrange(rs.len() as int + 1, full.len() as int));
            let ghost es = self.edges();
            let x = match crate::host::key_refusal(&next) {
                Some(e) => Err(e),
                None => self.create_product_group(next),
            };
            proof {
                let gv = full[rs.len() as int];
                let done2 = done.push(gv);
                let rs2 = rs.push(x);
                assert(rs2.drop_last() =~= rs);
                assert(done2.drop_last() =~= done);
                if let Ok(g) = x {
                    assert(self.edges() =~= base_edges + batch_edges(rs2, done2));
                }
                assert forall|j: int| 0 <= j < rs2.len() implies (#[trigger] rs2[j] matches Ok(g)
                    ==> g.index == base.len() + ok_count(rs2.subrange(0, j))) by {
                    if j < rs.len() {
                        assert(rs2[j] == rs[j]);
                        assert(rs2.subrange(0, j) =~= rs.subrange(0, j));
                    } else {
                        assert(rs2.subrange(0, j) =~= rs);
                    }
                }
                assert forall|j: int, p: Seq<char>|
                    #![trigger rs2[j], edges_at(self.edges(), p)]
                    0 <= j < rs2.len() && rs2[j] is Ok implies sum_counts_to(
                        edges_at(self.edges(), p),
                        rs2[j]->Ok_0.index,
                    ) == done2[j].products.len() as nat * occurrences(group_paths(done2[j]), p) by {
                    if let Ok(g) = x {
                        let n = gv.products.len() as u32;
                        let paths = group_paths(gv);
                        if j < rs.len() {
                            let h = rs[j]->Ok_0.index;
                            assert(rs2[j] == rs[j]);
                            assert(done2[j] == done[j]);
                            assert(h < st.len());
                            lemma_edges_at_concat(es, link_edges(paths, g.index, n), p);
                            lemma_sum_counts_to_concat(
                                edges_at(es, p),
                                edges_at(link_edges(paths, g.index, n), p),
                                h,
                            );
                            assert(misses(link_edges(paths, g.index, n), h));
                            lemma_edges_at_misses(link_edges(paths, g.index, n), p, h);
                            assert(sum_counts_to(edges_at(es, p), h) == done[j].products.len() as nat
                                * occurrences(group_paths(done[j]), p));
                        } else {
                            lemma_created_group_counts(es, paths, g.index, n, p);
                        }
                    } else {
                        assert(rs2[j] == rs[j]);
                        assert(done2[j] == done[j]);
                    }
                }
                assert(self.store().subrange(0, st.len() as int) =~= st);
                lemma_outcomes_push(rs, done, st, self.store(), x, full[rs.len() as int]);
                assert(done.push(full[rs.len() as int]) =~= full.subrange(0, rs.len() as int + 1));
                assert(self.store().subrange(0, base.len() as int) =~= st.subrange(
                    0,
                    base.len() as int,
                ));
            }
            results.push(x);
        }
        results
    }
}

} // verus!
