use product_catalog::catalog::ProductCatalog;
use product_catalog::index::GroupRef;
use product_catalog::product::{CreateProductGroupInput, Product};
use product_catalog::search::{
    ProductReference, get_all_products_for_search_index, get_products_by_references,
};
use product_catalog::tag::CartQuantityTag;

fn product(name: &str, category: &str) -> Product {
    Product {
        name: name.to_string(),
        price_bits: 1.25f32.to_bits(),
        promo_price_bits: Some(1.0f32.to_bits()),
        size: "each".to_string(),
        stocks_status: "LOW".to_string(),
        category: category.to_string(),
        subcategory: None,
        product_type: None,
        image_url: Some("https://example.com/a.png".to_string()),
        sold_by: None,
        product_id: Some("p-1".to_string()),
        embedding: None,
        brand: Some("Acme".to_string()),
        is_organic: None,
    }
}

fn group(category: &str, n: usize) -> CreateProductGroupInput {
    CreateProductGroupInput {
        category: category.to_string(),
        subcategory: None,
        product_type: None,
        products: (0..n).map(|i| product(&format!("{} {}", category, i), category)).collect(),
        additional_categorizations: Vec::new(),
    }
}

#[test]
fn references_resolve_to_their_groups() {
    let mut catalog = ProductCatalog::new();
    let a = catalog.create_product_group(group("Produce", 3)).unwrap();
    let b = catalog.create_product_group(group("Bakery", 1)).unwrap();
    let refs = vec![
        ProductReference { group_hash: a, index: 2 },
        ProductReference { group_hash: b, index: 1 },
        ProductReference { group_hash: GroupRef { index: 5 }, index: 0 },
        ProductReference { group_hash: b, index: 0 },
        ProductReference { group_hash: a, index: 0 },
    ];
    let found = get_products_by_references(&catalog, &refs);
    assert_eq!(found.total, 3);
    let hits: Vec<GroupRef> = found.products.iter().map(|r| r.group_ref).collect();
    assert_eq!(hits, vec![a, b, a]);
    assert_eq!(found.products[1].group.products[0].name, "Bakery 0");
    assert_eq!(get_products_by_references(&catalog, &Vec::new()).total, 0);
}

#[test]
fn search_index_covers_known_categories_once() {
    let mut catalog = ProductCatalog::new();
    catalog.create_product_group(group("Produce", 2)).unwrap();
    catalog.create_product_group(group("Toys", 5)).unwrap();
    let mut shared = group("Beer", 4);
    shared.additional_categorizations = vec![product_catalog::product::DualCategorization {
        main_category: "Wine".to_string(),
        subcategory: None,
        product_type: None,
    }];
    catalog.create_product_group(shared).unwrap();
    let result = get_all_products_for_search_index(&catalog);
    let hits: Vec<usize> = result.products.iter().map(|r| r.group_ref.index).collect();
    assert_eq!(hits, vec![0, 2]);
    assert_eq!(result.total, 6);
}

#[test]
fn cart_tag_round_trip() {
    let tag = CartQuantityTag { quantity_bits: 0.75f64.to_bits(), timestamp: 1_700_000_000_000_000 };
    let bytes = tag.to_bytes();
    assert_eq!(bytes.len(), 16);
    assert_eq!(&bytes[8..16], &1_700_000_000_000_000u64.to_le_bytes());
    assert_eq!(&bytes[0..8], &0.75f64.to_le_bytes());
    let (q, t) = CartQuantityTag::from_bytes(&bytes);
    assert_eq!(f64::from_bits(q), 0.75);
    assert_eq!(t, 1_700_000_000_000_000);
    assert_eq!(CartQuantityTag::from_bytes(&bytes[0..15]), (0, 0));
}
