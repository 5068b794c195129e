use product_catalog::catalog::{ProductCatalog, prepare_group};
use product_catalog::host::{
    distinct_positions, key_refusal, links_to, search_category_names, sum_sizes,
};
use product_catalog::paths::derive_paths;
use product_catalog::product::{
    CatalogError, CreateProductGroupInput, CreateProductInput, DualCategorization, Product,
    validate_create_product,
};
use product_catalog::query::{GetProductsParams, get_all_group_counts_for_path};

fn product(name: &str, category: &str, sub: Option<&str>, kind: Option<&str>) -> Product {
    Product {
        name: name.to_string(),
        price_bits: 4.0f32.to_bits(),
        promo_price_bits: None,
        size: String::new(),
        stocks_status: String::new(),
        category: category.to_string(),
        subcategory: sub.map(|s| s.to_string()),
        product_type: kind.map(|s| s.to_string()),
        image_url: None,
        sold_by: None,
        product_id: None,
        embedding: None,
        brand: None,
        is_organic: None,
    }
}

fn typed_without_sub(products: Vec<Product>) -> CreateProductGroupInput {
    CreateProductGroupInput {
        category: "Dairy".to_string(),
        subcategory: None,
        product_type: Some("Whole".to_string()),
        products,
        additional_categorizations: Vec::new(),
    }
}

#[test]
fn nan_and_negative_prices_are_refused() {
    let mut p = product("milk", "Dairy", None, None);
    p.price_bits = 0x7fc0_0000;
    assert_eq!(validate_create_product(&p), Err(CatalogError::InvalidProduct));
    p.price_bits = f32::NAN.to_bits() | 0x8000_0000;
    assert_eq!(validate_create_product(&p), Err(CatalogError::InvalidProduct));
    p.price_bits = f32::NEG_INFINITY.to_bits();
    assert_eq!(validate_create_product(&p), Err(CatalogError::InvalidProduct));
    p.price_bits = f32::INFINITY.to_bits();
    assert_eq!(validate_create_product(&p), Ok(()));
    p.price_bits = 0.0f32.to_bits();
    assert_eq!(validate_create_product(&p), Ok(()));
}

#[test]
fn group_rules_come_before_classification() {
    let mut catalog = ProductCatalog::new();
    assert_eq!(
        catalog.create_product_group(typed_without_sub(Vec::new())),
        Err(CatalogError::EmptyGroup)
    );
    let big = (0..1001).map(|i| product(&format!("m{}", i), "Dairy", None, Some("Whole"))).collect();
    assert_eq!(catalog.create_product_group(typed_without_sub(big)), Err(CatalogError::GroupTooLarge));
    let mixed = vec![product("m", "Dairy", None, Some("Whole")), product("b", "Bakery", None, Some("Whole"))];
    assert_eq!(
        catalog.create_product_group(typed_without_sub(mixed)),
        Err(CatalogError::ClassificationMismatch)
    );
    let unnamed = vec![product("", "Dairy", None, Some("Whole"))];
    assert_eq!(catalog.create_product_group(typed_without_sub(unnamed)), Err(CatalogError::InvalidProduct));
    let fine = vec![product("m", "Dairy", None, Some("Whole"))];
    assert_eq!(
        catalog.create_product_group(typed_without_sub(fine)),
        Err(CatalogError::InvalidClassification)
    );
    assert_eq!(catalog.group_count(), 0);
    assert_eq!(catalog.edge_count(), 0);
}

#[test]
fn prepared_group_carries_its_paths() {
    let input = CreateProductGroupInput {
        category: "Pets".to_string(),
        subcategory: Some("Dogs".to_string()),
        product_type: None,
        products: vec![product("bone", "Pets", Some("Dogs"), None)],
        additional_categorizations: Vec::new(),
    };
    let (group, paths) = prepare_group(input).unwrap();
    assert_eq!(group.products.len(), 1);
    assert_eq!(paths, vec!["categories/Pets".to_string(), "categories/Pets/subcategories/Dogs".to_string()]);
    assert_eq!(key_refusal(&typed_without_sub(Vec::new())), Some(CatalogError::InvalidClassification));
}

#[test]
fn batch_refuses_untyped_key_first() {
    let mut catalog = ProductCatalog::new();
    let input = CreateProductInput {
        product: product("", "x", None, None),
        main_category: "Dairy".to_string(),
        subcategory: Some(String::new()),
        product_type: Some("Whole".to_string()),
        additional_categorizations: Vec::new(),
    };
    assert_eq!(catalog.create_product_batch(vec![input]), vec![Err(CatalogError::InvalidClassification)]);
    assert_eq!(catalog.edge_count(), 0);
    assert_eq!(catalog.group_count(), 0);
}

#[test]
fn host_decisions() {
    let targets = vec![vec![1, 2], vec![3], vec![1, 2], Vec::new()];
    assert_eq!(links_to(&targets, &vec![1, 2]), vec![0, 2]);
    assert_eq!(links_to(&targets, &vec![9]), Vec::<usize>::new());
    let keys = vec![vec![5], vec![6], vec![5], vec![7], vec![6]];
    assert_eq!(distinct_positions(&keys), vec![0, 1, 3]);
    assert_eq!(sum_sizes(&vec![1000, 500, 2]), 1502);
    assert_eq!(sum_sizes(&vec![usize::MAX, 1]), usize::MAX);
    let names = search_category_names();
    assert_eq!(names.len(), 29);
    assert_eq!(names[0], "Produce");
    assert_eq!(names[28], "Baby");
}

#[test]
fn repeated_classification_is_indexed_once() {
    let class = |c: &str, s: Option<&str>| DualCategorization {
        main_category: c.to_string(),
        subcategory: s.map(|x| x.to_string()),
        product_type: None,
    };
    let extra = vec![class("Deli", None), class("Deli", Some("Cheese")), class("Bakery", None)];
    assert_eq!(
        derive_paths(&class("Deli", Some("Cheese")), &extra).unwrap(),
        vec![
            "categories/Deli".to_string(),
            "categories/Deli/subcategories/Cheese".to_string(),
            "categories/Bakery".to_string(),
        ]
    );
    let mut catalog = ProductCatalog::new();
    let input = CreateProductGroupInput {
        category: "Deli".to_string(),
        subcategory: Some("Cheese".to_string()),
        product_type: None,
        products: vec![product("brie", "Deli", Some("Cheese"), None); 3],
        additional_categorizations: extra,
    };
    catalog.create_product_group(input).unwrap();
    assert_eq!(catalog.edge_count(), 3);
    let params = GetProductsParams {
        category: "Deli".to_string(),
        subcategory: None,
        product_type: None,
        offset: 0,
        limit: 5,
    };
    assert_eq!(get_all_group_counts_for_path(&catalog, &params).unwrap(), vec![3]);
}
