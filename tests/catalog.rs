use product_catalog::catalog::ProductCatalog;
use product_catalog::index::{GroupIndex, GroupRef};
use product_catalog::replace::UpdateProductGroupInput;
use product_catalog::paths::{derive_paths, get_paths, path_for};
use product_catalog::product::{
    CatalogError, CreateProductGroupInput, CreateProductInput, DualCategorization, Product,
    ProductGroup, validate_create_product, validate_create_product_group,
    validate_delete_product, validate_update_product_group,
};
use product_catalog::query::{
    GetProductGroupsParams, GetProductsParams, GroupProductsParams, default_limit,
    get_all_category_products, get_all_group_counts_for_path, get_paginated_products_from_group,
    get_product_groups_by_path, get_products_by_category,
};
use product_catalog::tag::{decode_count, encode_count};

fn text(s: &str) -> Option<String> {
    Some(s.to_string())
}

fn product(name: &str, category: &str, sub: Option<String>, kind: Option<String>) -> Product {
    Product {
        name: name.to_string(),
        price_bits: 2.5f32.to_bits(),
        promo_price_bits: None,
        size: "1 lb".to_string(),
        stocks_status: "HIGH".to_string(),
        category: category.to_string(),
        subcategory: sub,
        product_type: kind,
        image_url: None,
        sold_by: text("UNIT"),
        product_id: None,
        embedding: Some(vec![1.0f32.to_bits(), 0.5f32.to_bits()]),
        brand: None,
        is_organic: Some(true),
    }
}

fn class(category: &str, sub: Option<String>, kind: Option<String>) -> DualCategorization {
    DualCategorization { main_category: category.to_string(), subcategory: sub, product_type: kind }
}

fn group_input(
    category: &str,
    sub: Option<String>,
    kind: Option<String>,
    n: usize,
    additional: Vec<DualCategorization>,
) -> CreateProductGroupInput {
    let mut products = Vec::new();
    for i in 0..n {
        products.push(product(&format!("item {}", i), category, sub.clone(), kind.clone()));
    }
    CreateProductGroupInput {
        category: category.to_string(),
        subcategory: sub,
        product_type: kind,
        products,
        additional_categorizations: additional,
    }
}

fn batch_input(name: &str, category: &str, sub: Option<String>, kind: Option<String>) -> CreateProductInput {
    CreateProductInput {
        product: product(name, "wrong", text("wrong"), None),
        main_category: category.to_string(),
        subcategory: sub,
        product_type: kind,
        additional_categorizations: Vec::new(),
    }
}

fn counts_params(category: &str, sub: Option<String>, kind: Option<String>) -> GetProductsParams {
    GetProductsParams {
        category: category.to_string(),
        subcategory: sub,
        product_type: kind,
        offset: 0,
        limit: default_limit(),
    }
}

#[test]
fn paths_of_full_classification() {
    let primary = class("Produce", text("Fruit"), text("Apples"));
    let extra = vec![class("Snacks", text("Healthy"), None)];
    let paths = derive_paths(&primary, &extra).unwrap();
    assert_eq!(
        paths,
        vec![
            "categories/Produce".to_string(),
            "categories/Produce/subcategories/Fruit".to_string(),
            "categories/Produce/subcategories/Fruit/types/Apples".to_string(),
            "categories/Snacks".to_string(),
            "categories/Snacks/subcategories/Healthy".to_string(),
        ]
    );
    assert_eq!(derive_paths(&primary, &extra).unwrap(), paths);
}

#[test]
fn paths_are_deterministic_and_one_to_three() {
    for c in [
        class("Dairy", None, None),
        class("Dairy", text("Milk"), None),
        class("Dairy", text("Milk"), text("Whole")),
    ] {
        let a = derive_paths(&c, &Vec::new()).unwrap();
        let b = derive_paths(&c, &Vec::new()).unwrap();
        assert!(!a.is_empty() && a.len() <= 3);
        assert_eq!(a, b);
    }
}

#[test]
fn type_without_subcategory_is_invalid() {
    let bad = class("Dairy", None, text("Whole"));
    assert_eq!(derive_paths(&bad, &Vec::new()), Err(CatalogError::InvalidClassification));
    let good = class("Dairy", None, None);
    assert_eq!(derive_paths(&good, &vec![bad]), Err(CatalogError::InvalidClassification));
    let input = CreateProductInput {
        product: product("milk", "Dairy", None, None),
        main_category: "Dairy".to_string(),
        subcategory: None,
        product_type: text("Whole"),
        additional_categorizations: Vec::new(),
    };
    assert_eq!(get_paths(&input), Err(CatalogError::InvalidClassification));
    assert_eq!(
        path_for(&"Dairy".to_string(), &None, &text("Whole")),
        Err(CatalogError::InvalidClassification)
    );
    assert_eq!(
        path_for(&"Dairy".to_string(), &text("Milk"), &None),
        Ok("categories/Dairy/subcategories/Milk".to_string())
    );
}

#[test]
fn count_tags_are_little_endian() {
    assert_eq!(encode_count(0x0102_0304), vec![4, 3, 2, 1]);
    assert_eq!(decode_count(&[4, 3, 2, 1]), 0x0102_0304);
    assert_eq!(decode_count(&[7, 0, 0, 0, 99]), 7);
    assert_eq!(decode_count(&[7, 0, 0]), 0);
    assert_eq!(decode_count(&[]), 0);
    assert_eq!(decode_count(&encode_count(1000)), 1000);
}

#[test]
fn malformed_edge_reads_as_zero() {
    let mut index = GroupIndex::new();
    let path = "categories/Bakery".to_string();
    index.insert_tagged_edge(path.clone(), GroupRef { index: 0 }, vec![1, 2]);
    index.insert_edge(path.clone(), GroupRef { index: 1 }, 42);
    index.insert_edge("categories/Deli".to_string(), GroupRef { index: 2 }, 9);
    assert_eq!(index.counts_at(&path), vec![0, 42]);
    assert_eq!(index.list_edges(&path).len(), 2);
    assert_eq!(index.counts_at(&"categories/None".to_string()), Vec::<usize>::new());
    assert_eq!(index.remove_edges_to(&path, GroupRef { index: 7 }), 0);
    assert_eq!(index.remove_edges_to(&path, GroupRef { index: 1 }), 1);
    assert_eq!(index.counts_at(&path), vec![0]);
    assert_eq!(index.edge_count(), 2);
}

#[test]
fn product_validation() {
    assert_eq!(validate_create_product(&product("apple", "Produce", None, None)), Ok(()));
    assert_eq!(
        validate_create_product(&product("", "Produce", None, None)),
        Err(CatalogError::InvalidProduct)
    );
    let mut negative = product("apple", "Produce", None, None);
    negative.price_bits = (-0.01f32).to_bits();
    assert_eq!(validate_create_product(&negative), Err(CatalogError::InvalidProduct));
    let mut zero = product("apple", "Produce", None, None);
    zero.price_bits = (-0.0f32).to_bits();
    assert_eq!(validate_create_product(&zero), Ok(()));
    let mut weight = product("apple", "Produce", None, None);
    weight.sold_by = text("WEIGHT");
    assert_eq!(validate_create_product(&weight), Ok(()));
    let mut other = product("apple", "Produce", None, None);
    other.sold_by = text("BOX");
    assert_eq!(validate_create_product(&other), Err(CatalogError::InvalidProduct));
}

fn group_of(input: CreateProductGroupInput) -> ProductGroup {
    ProductGroup {
        category: input.category,
        subcategory: input.subcategory,
        product_type: input.product_type,
        products: input.products,
        additional_categorizations: input.additional_categorizations,
    }
}

#[test]
fn group_validation() {
    let empty = group_of(group_input("Produce", None, None, 0, Vec::new()));
    assert_eq!(validate_create_product_group(&empty), Err(CatalogError::EmptyGroup));
    let large = group_of(group_input("Produce", None, None, 1001, Vec::new()));
    assert_eq!(validate_create_product_group(&large), Err(CatalogError::GroupTooLarge));
    let full = group_of(group_input("Produce", None, None, 1000, Vec::new()));
    assert_eq!(validate_create_product_group(&full), Ok(()));
    let mut loose = group_of(group_input("Produce", text(""), None, 2, Vec::new()));
    loose.products[0].subcategory = None;
    loose.products[1].product_type = text("");
    assert_eq!(validate_create_product_group(&loose), Ok(()));
    let mut wrong_type = group_of(group_input("Produce", text("Fruit"), text("Apples"), 2, Vec::new()));
    wrong_type.products[1].product_type = text("Pears");
    assert_eq!(validate_create_product_group(&wrong_type), Err(CatalogError::ClassificationMismatch));
    let mut unnamed = group_of(group_input("Produce", None, None, 2, Vec::new()));
    unnamed.products[1].name = String::new();
    assert_eq!(validate_create_product_group(&unnamed), Err(CatalogError::InvalidProduct));
    assert_eq!(validate_update_product_group(&empty), Err(CatalogError::Immutable));
    assert_eq!(validate_delete_product(&full.products[0]), Err(CatalogError::Immutable));
}

#[test]
fn member_of_other_category_is_rejected() {
    let mut input = group_input("Produce", text("Fruit"), None, 3, Vec::new());
    input.products[1].category = "Dairy".to_string();
    let mut catalog = ProductCatalog::new();
    assert_eq!(catalog.create_product_group(input), Err(CatalogError::ClassificationMismatch));
    assert_eq!(catalog.group_count(), 0);
    assert_eq!(catalog.edge_count(), 0);
}

#[test]
fn group_counts_sum_to_group_size() {
    let mut catalog = ProductCatalog::new();
    let extra = vec![class("Snacks", text("Healthy"), None)];
    let g = catalog
        .create_product_group(group_input("Produce", text("Fruit"), text("Apples"), 7, extra))
        .unwrap();
    assert_eq!(g, GroupRef { index: 0 });
    assert_eq!(catalog.edge_count(), 5);
    for (cat, sub, kind) in [
        ("Produce", None, None),
        ("Produce", text("Fruit"), None),
        ("Produce", text("Fruit"), text("Apples")),
        ("Snacks", None, None),
        ("Snacks", text("Healthy"), None),
    ] {
        let counts = get_all_group_counts_for_path(&catalog, &counts_params(cat, sub, kind)).unwrap();
        assert_eq!(counts.iter().sum::<usize>(), 7);
    }
    let none = get_all_group_counts_for_path(&catalog, &counts_params("Bakery", None, None)).unwrap();
    assert!(none.is_empty());
    assert_eq!(
        get_all_group_counts_for_path(&catalog, &counts_params("Produce", None, text("Apples"))),
        Err(CatalogError::InvalidClassification)
    );
}

#[test]
fn ingest_type_without_subcategory_creates_nothing() {
    let mut catalog = ProductCatalog::new();
    let outcome = catalog.create_product_batch(vec![batch_input("milk", "Dairy", None, text("Whole"))]);
    assert_eq!(outcome, vec![Err(CatalogError::InvalidClassification)]);
    assert_eq!(catalog.group_count(), 0);
    assert_eq!(catalog.edge_count(), 0);
}

#[test]
fn ingest_splits_large_classification() {
    let mut catalog = ProductCatalog::new();
    let mut inputs = Vec::new();
    for i in 0..1500 {
        inputs.push(batch_input(&format!("apple {}", i), "Produce", text("Fruit"), text("Apples")));
    }
    let outcome = catalog.create_product_batch(inputs);
    assert_eq!(outcome, vec![Ok(GroupRef { index: 0 }), Ok(GroupRef { index: 1 })]);
    let first = catalog.get_product_group(GroupRef { index: 0 }).unwrap();
    let second = catalog.get_product_group(GroupRef { index: 1 }).unwrap();
    assert_eq!(first.products.len(), 1000);
    assert_eq!(second.products.len(), 500);
    assert_eq!(validate_create_product_group(&first), Ok(()));
    assert_eq!(validate_create_product_group(&second), Ok(()));
    assert_eq!(first.products[0].name, "apple 0");
    assert_eq!(second.products[0].name, "apple 1000");
    assert_eq!(second.products[0].category, "Produce");
    assert_eq!(second.products[0].subcategory, text("Fruit"));
    let counts = get_all_group_counts_for_path(
        &catalog,
        &counts_params("Produce", text("Fruit"), text("Apples")),
    )
    .unwrap();
    assert_eq!(counts, vec![1000, 500]);
}

#[test]
fn ingest_groups_by_normalized_classification() {
    let mut catalog = ProductCatalog::new();
    let mut first = batch_input("a", "Dairy", text(""), None);
    first.additional_categorizations = vec![class("Breakfast", None, None)];
    let inputs = vec![
        first,
        batch_input("b", "Bakery", None, None),
        batch_input("c", "Dairy", None, text("")),
        batch_input("d", "Dairy", text("Milk"), None),
    ];
    let outcome = catalog.create_product_batch(inputs);
    assert_eq!(outcome.len(), 3);
    let dairy = catalog.get_product_group(outcome[0].unwrap()).unwrap();
    assert_eq!(dairy.products.len(), 2);
    assert_eq!(dairy.subcategory, None);
    assert_eq!(dairy.products[1].name, "c");
    assert_eq!(dairy.additional_categorizations.len(), 1);
    let breakfast = get_all_group_counts_for_path(&catalog, &counts_params("Breakfast", None, None)).unwrap();
    assert_eq!(breakfast, vec![2]);
    assert_eq!(catalog.get_product_group(outcome[1].unwrap()).unwrap().category, "Bakery");
    assert!(catalog.create_product_batch(Vec::new()).is_empty());
}

#[test]
fn ingest_keeps_going_past_a_bad_partition() {
    let mut catalog = ProductCatalog::new();
    let mut bad = batch_input("", "Dairy", None, None);
    bad.product.name = String::new();
    let outcome = catalog.create_product_batch(vec![bad, batch_input("bread", "Bakery", None, None)]);
    assert_eq!(outcome, vec![Err(CatalogError::InvalidProduct), Ok(GroupRef { index: 0 })]);
    assert_eq!(catalog.group_count(), 1);
}

#[test]
fn pages_cover_every_group_once() {
    let mut catalog = ProductCatalog::new();
    for i in 0..8 {
        catalog.create_product_group(group_input("Frozen", None, None, i + 1, Vec::new())).unwrap();
    }
    let mut params = counts_params("Frozen", None, None);
    params.offset = 0;
    params.limit = 5;
    let first = get_products_by_category(&catalog, &params).unwrap();
    params.offset = 5;
    let second = get_products_by_category(&catalog, &params).unwrap();
    assert!(first.has_more);
    assert!(!second.has_more);
    assert_eq!(first.total_groups, 8);
    assert_eq!(first.total_products, 36);
    assert_eq!(first.product_groups.len(), 5);
    assert_eq!(second.product_groups.len(), 3);
    let mut seen: Vec<usize> = first
        .product_groups
        .iter()
        .chain(second.product_groups.iter())
        .map(|r| r.group_ref.index)
        .collect();
    assert_eq!(seen, (0..8).collect::<Vec<usize>>());
    seen.dedup();
    assert_eq!(seen.len(), 8);
    assert_eq!(second.product_groups[2].group.products.len(), 8);
    params.offset = 20;
    let past = get_products_by_category(&catalog, &params).unwrap();
    assert!(past.product_groups.is_empty());
    assert!(!past.has_more);
}

#[test]
fn all_groups_of_a_path() {
    let mut catalog = ProductCatalog::new();
    catalog.create_product_group(group_input("Deli", text("Cheese"), None, 3, Vec::new())).unwrap();
    catalog.create_product_group(group_input("Deli", None, None, 4, Vec::new())).unwrap();
    let params = GetProductGroupsParams { category: "Deli".to_string(), subcategory: text("Cheese"), product_type: None };
    let groups = get_product_groups_by_path(&catalog, &params).unwrap();
    assert_eq!(groups.len(), 1);
    assert_eq!(groups[0].group.products.len(), 3);
    let all = get_all_category_products(&catalog, &"Deli".to_string());
    assert_eq!(all.total_groups, 2);
    assert_eq!(all.total_products, 7);
    assert!(!all.has_more);
    assert_eq!(all.subcategory, None);
}

#[test]
fn page_of_products_in_a_group() {
    let mut catalog = ProductCatalog::new();
    let g = catalog.create_product_group(group_input("Pets", None, None, 12, Vec::new())).unwrap();
    let page = get_paginated_products_from_group(
        &catalog,
        &GroupProductsParams { group_hash: g, offset: 10, limit: 5 },
    )
    .unwrap();
    assert_eq!(page.total, 12);
    assert!(!page.has_more);
    assert_eq!(page.products.len(), 2);
    assert_eq!(page.products[0].name, "item 10");
    let head = get_paginated_products_from_group(
        &catalog,
        &GroupProductsParams { group_hash: g, offset: 0, limit: 5 },
    )
    .unwrap();
    assert!(head.has_more);
    assert_eq!(
        get_paginated_products_from_group(
            &catalog,
            &GroupProductsParams { group_hash: GroupRef { index: 3 }, offset: 0, limit: 5 },
        )
        .err(),
        Some(CatalogError::NotFound)
    );
}

#[test]
fn replace_orphans_old_group() {
    let mut catalog = ProductCatalog::new();
    let extra = vec![class("Party", None, None)];
    let old = catalog
        .create_product_group(group_input("Beer", text("Lager"), None, 4, extra))
        .unwrap();
    let input = UpdateProductGroupInput {
        old_category: "Beer".to_string(),
        old_subcategory: text("Lager"),
        old_product_type: None,
        new_group: group_input("Beer", text("Lager"), None, 6, Vec::new()),
    };
    let new = catalog.update_product_group(input).unwrap();
    assert_ne!(new, old);
    assert_eq!(catalog.get_product_group(old).unwrap().products.len(), 4);
    for (cat, sub) in [("Beer", None), ("Beer", text("Lager")), ("Party", None)] {
        let params = GetProductGroupsParams { category: cat.to_string(), subcategory: sub, product_type: None };
        let groups = get_product_groups_by_path(&catalog, &params).unwrap();
        assert!(groups.iter().all(|r| r.group_ref != old));
    }
    let counts = get_all_group_counts_for_path(&catalog, &counts_params("Beer", text("Lager"), None)).unwrap();
    assert_eq!(counts, vec![6]);
    assert_eq!(catalog.delete_links_to_product_group(GroupRef { index: 9 }), Err(CatalogError::NotFound));
    assert_eq!(catalog.delete_links_to_product_group(old), Ok(0));
}

#[test]
fn replace_refuses_bad_input_and_changes_nothing() {
    let mut catalog = ProductCatalog::new();
    catalog.create_product_group(group_input("Wine", None, None, 2, Vec::new())).unwrap();
    let bad_old = UpdateProductGroupInput {
        old_category: "Wine".to_string(),
        old_subcategory: None,
        old_product_type: text("Red"),
        new_group: group_input("Wine", None, None, 1, Vec::new()),
    };
    assert_eq!(catalog.update_product_group(bad_old), Err(CatalogError::InvalidClassification));
    let empty_new = UpdateProductGroupInput {
        old_category: "Wine".to_string(),
        old_subcategory: None,
        old_product_type: None,
        new_group: group_input("Wine", None, None, 0, Vec::new()),
    };
    assert_eq!(catalog.update_product_group(empty_new), Err(CatalogError::EmptyGroup));
    assert_eq!(catalog.group_count(), 1);
    assert_eq!(catalog.edge_count(), 1);
}
