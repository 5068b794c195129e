use product_catalog::batch::plan_batch;
use product_catalog::paths::get_paths;
use product_catalog::product::{CreateProductInput, DualCategorization, Product};
use product_catalog::query::{page_window, total_of_tags};
use product_catalog::tag::encode_count;

fn input(name: &str, category: &str, sub: Option<&str>, kind: Option<&str>) -> CreateProductInput {
    CreateProductInput {
        product: Product {
            name: name.to_string(),
            price_bits: 3.0f32.to_bits(),
            promo_price_bits: None,
            size: String::new(),
            stocks_status: String::new(),
            category: "stale".to_string(),
            subcategory: Some("stale".to_string()),
            product_type: Some("stale".to_string()),
            image_url: None,
            sold_by: None,
            product_id: None,
            embedding: None,
            brand: None,
            is_organic: None,
        },
        main_category: category.to_string(),
        subcategory: sub.map(|s| s.to_string()),
        product_type: kind.map(|s| s.to_string()),
        additional_categorizations: Vec::new(),
    }
}

#[test]
fn plan_cuts_runs_of_a_thousand() {
    let inputs: Vec<CreateProductInput> =
        (0..2001).map(|i| input(&format!("p{}", i), "Baby", Some("Food"), None)).collect();
    let plan = plan_batch(&inputs);
    let sizes: Vec<usize> = plan.iter().map(|g| g.products.len()).collect();
    assert_eq!(sizes, vec![1000, 1000, 1]);
    assert_eq!(plan[2].products[0].name, "p2000");
    assert_eq!(plan[1].products[0].product_type, None);
    assert_eq!(plan[1].products[0].subcategory, Some("Food".to_string()));
}

#[test]
fn plan_orders_by_first_appearance() {
    let mut first = input("a", "Deli", None, None);
    first.additional_categorizations = vec![DualCategorization {
        main_category: "Party & Gift Supplies".to_string(),
        subcategory: None,
        product_type: None,
    }];
    let inputs = vec![
        input("x", "Wine", Some("Red"), Some("")),
        first,
        input("y", "Wine", Some("Red"), None),
        input("b", "Deli", Some(""), None),
    ];
    let plan = plan_batch(&inputs);
    assert_eq!(plan.len(), 2);
    assert_eq!(plan[0].category, "Wine");
    assert_eq!(plan[0].products.len(), 2);
    assert_eq!(plan[1].category, "Deli");
    assert_eq!(plan[1].subcategory, None);
    assert_eq!(plan[1].additional_categorizations.len(), 1);
    assert!(plan_batch(&Vec::new()).is_empty());
}

#[test]
fn page_windows() {
    assert_eq!(page_window(8, 0, 5), (0, 5, true));
    assert_eq!(page_window(8, 5, 5), (5, 8, false));
    assert_eq!(page_window(8, 3, 5), (3, 8, false));
    assert_eq!(page_window(8, 9, 5), (8, 8, false));
    assert_eq!(page_window(0, 0, 0), (0, 0, false));
    assert_eq!(page_window(10, usize::MAX, usize::MAX), (10, 10, false));
}

#[test]
fn tag_totals() {
    let tags = vec![encode_count(1000), vec![1, 2], encode_count(500), vec![]];
    assert_eq!(total_of_tags(&tags), 1500);
    let huge = vec![encode_count(u32::MAX); 3];
    assert_eq!(total_of_tags(&huge), 3 * u32::MAX as usize);
}

#[test]
fn paths_of_an_ingested_product() {
    let mut x = input("milk", "Dairy & Eggs", Some("Milk"), Some("Whole"));
    x.additional_categorizations = vec![DualCategorization {
        main_category: "Breakfast".to_string(),
        subcategory: None,
        product_type: None,
    }];
    assert_eq!(
        get_paths(&x).unwrap(),
        vec![
            "categories/Dairy & Eggs".to_string(),
            "categories/Dairy & Eggs/subcategories/Milk".to_string(),
            "categories/Dairy & Eggs/subcategories/Milk/types/Whole".to_string(),
            "categories/Breakfast".to_string(),
        ]
    );
}
