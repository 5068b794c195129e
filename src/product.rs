//! Products, product groups and the rules every stored group obeys.
use vstd::prelude::*;

verus! {

/// The most products one group may hold.
pub const PRODUCTS_PER_GROUP: usize = 1000;

/// Why a request on the catalog was refused.
#[derive(Debug, Clone, Copy, PartialEq, Eq, Structural)]
pub enum CatalogError {
    /// A product type was given without a subcategory.
    InvalidClassification,
    /// A group with no products.
    EmptyGroup,
    /// A group with more than `PRODUCTS_PER_GROUP` products.
    GroupTooLarge,
    /// A member whose classification differs from its group's.
    ClassificationMismatch,
    /// A product with an empty name, a negative price or an unknown selling mode.
    InvalidProduct,
    /// No group is stored under the reference.
    NotFound,
    /// Stored products and groups can be neither updated nor deleted.
    Immutable,
}

/// A classification tuple: main category, optional subcategory, optional
/// product type.
pub struct DualCategorization {
    pub main_category: String,
    pub subcategory: Option<String>,
    pub product_type: Option<String>,
}

/// A product. Prices are kept as the IEEE-754 single-precision bit pattern
/// of the amount, and embeddings as the bit patterns of their components,
/// so that they pass through unchanged.
pub struct Product {
    pub name: String,
    pub price_bits: u32,
    pub promo_price_bits: Option<u32>,
    pub size: String,
    pub stocks_status: String,
    pub category: String,
    pub subcategory: Option<String>,
    pub product_type: Option<String>,
    pub image_url: Option<String>,
    pub sold_by: Option<String>,
    pub product_id: Option<String>,
    pub embedding: Option<Vec<u32>>,
    pub brand: Option<String>,
    pub is_organic: Option<bool>,
}

/// Up to `PRODUCTS_PER_GROUP` products of one classification, stored as one
/// entry, with the further classifications it is also indexed under.
pub struct ProductGroup {
    pub category: String,
    pub subcategory: Option<String>,
    pub product_type: Option<String>,
    pub products: Vec<Product>,
    pub additional_categorizations: Vec<DualCategorization>,
}

/// One product to ingest, with the classification it is to be stored under
/// and the further classifications its group is also indexed under.
pub struct CreateProductInput {
    pub product: Product,
    pub main_category: String,
    pub subcategory: Option<String>,
    pub product_type: Option<String>,
    pub additional_categorizations: Vec<DualCategorization>,
}

/// The parts of a group to be created.
pub struct CreateProductGroupInput {
    pub category: String,
    pub subcategory: Option<String>,
    pub product_type: Option<String>,
    pub products: Vec<Product>,
    pub additional_categorizations: Vec<DualCategorization>,
}

/// The text of a classification tuple.
pub struct ClassView {
    pub category: Seq<char>,
    pub subcategory: Option<Seq<char>>,
    pub product_type: Option<Seq<char>>,
}

/// A product's fields as values; its own classification is `class`.
pub struct ProductView {
    pub name: Seq<char>,
    pub price_bits: u32,
    pub promo_price_bits: Option<u32>,
    pub size: Seq<char>,
    pub stocks_status: Seq<char>,
    pub class: ClassView,
    pub image_url: Option<Seq<char>>,
    pub sold_by: Option<Seq<char>>,
    pub product_id: Option<Seq<char>>,
    pub embedding: Option<Seq<u32>>,
    pub brand: Option<Seq<char>>,
    pub is_organic: Option<bool>,
}

/// A group, or the input for one: its classification, its products in
/// order, and its further classifications.
pub struct GroupView {
    pub class: ClassView,
    pub products: Seq<ProductView>,
    pub additional: Seq<ClassView>,
}

/// An ingested product with its declared classification and further
/// classifications.
pub struct InputView {
    pub product: ProductView,
    pub class: ClassView,
    pub additional: Seq<ClassView>,
}

pub open spec fn opt_text(o: Option<String>) -> Option<Seq<char>> {
    match o {
        Some(s) => Some(s@),
        None => None,
    }
}

pub open spec fn opt_seq(o: Option<Vec<u32>>) -> Option<Seq<u32>> {
    match o {
        Some(v) => Some(v@),
        None => None,
    }
}

/// Optional text with absence and the empty string taken as the same.
pub open spec fn flat_text(o: Option<Seq<char>>) -> Seq<char> {
    match o {
        Some(s) => s,
        None => Seq::empty(),
    }
}

/// Optional text with the empty string taken as absent.
pub open spec fn drop_empty(o: Option<Seq<char>>) -> Option<Seq<char>> {
    match o {
        Some(s) => if s.len() == 0 {
            None
        } else {
            Some(s)
        },
        None => None,
    }
}

pub open spec fn views_of_classes(s: Seq<DualCategorization>) -> Seq<ClassView> {
    s.map_values(|c: DualCategorization| c@)
}

pub open spec fn views_of_products(s: Seq<Product>) -> Seq<ProductView> {
    s.map_values(|p: Product| p@)
}

impl View for DualCategorization {
    type V = ClassView;

    open spec fn view(&self) -> ClassView {
        ClassView {
            category: self.main_category@,
            subcategory: opt_text(self.subcategory),
            product_type: opt_text(self.product_type),
        }
    }
}

impl View for Product {
    type V = ProductView;

    open spec fn view(&self) -> ProductView {
        ProductView {
            name: self.name@,
            price_bits: self.price_bits,
            promo_price_bits: self.promo_price_bits,
            size: self.size@,
            stocks_status: self.stocks_status@,
            class: ClassView {
                category: self.category@,
                subcategory: opt_text(self.subcategory),
                product_type: opt_text(self.product_type),
            },
            image_url: opt_text(self.image_url),
            sold_by: opt_text(self.sold_by),
            product_id: opt_text(self.product_id),
            embedding: opt_seq(self.embedding),
            brand: opt_text(self.brand),
            is_organic: self.is_organic,
        }
    }
}

impl View for ProductGroup {
    type V = GroupView;

    open spec fn view(&self) -> GroupView {
        GroupView {
            class: ClassView {
                category: self.category@,
                subcategory: opt_text(self.subcategory),
                product_type: opt_text(self.product_type),
            },
            products: views_of_products(self.products@),
            additional: views_of_classes(self.additional_categorizations@),
        }
    }
}

impl View for CreateProductInput {
    type V = InputView;

    open spec fn view(&self) -> InputView {
        InputView {
            product: self.product@,
            class: ClassView {
                category: self.main_category@,
                subcategory: opt_text(self.subcategory),
                product_type: opt_text(self.product_type),
            },
            additional: views_of_classes(self.additional_categorizations@),
        }
    }
}

impl View for CreateProductGroupInput {
    type V = GroupView;

    open spec fn view(&self) -> GroupView {
        GroupView {
            class: ClassView {
                category: self.category@,
                subcategory: opt_text(self.subcategory),
                product_type: opt_text(self.product_type),
            },
            products: views_of_products(self.products@),
            additional: views_of_classes(self.additional_categorizations@),
        }
    }
}

/// A copy of optional text.
pub fn clone_text(o: &Option<String>) -> (r: Option<String>)
    ensures
        opt_text(r) == opt_text(*o),
{
    match o {
        Some(s) => Some(s.clone()),
        None => None,
    }
}

fn clone_words(v: &Vec<u32>) -> (r: Vec<u32>)
    ensures
        r@ == v@,
{
    let mut r: Vec<u32> = Vec::new();
    let mut i: usize = 0;
    while i < v.len()
        invariant
            i <= v@.len(),
            r@ == v@.subrange(0, i as int),
        decreases v@.len() - i,
    {
        r.push(v[i]);
        i += 1;
    }
    assert(v@.subrange(0, v@.len() as int) =~= v@);
    r
}

/// Whether two optional texts agree once absence and the empty string are
/// taken as the same.
pub fn same_flat_text(a: &Option<String>, b: &Option<String>) -> (r: bool)
    ensures
        r == (flat_text(opt_text(*a)) == flat_text(opt_text(*b))),
{
    match (a, b) {
        (None, None) => true,
        (None, Some(s)) | (Some(s), None) => {
            proof {
                if s@.len() == 0 {
                    assert(s@ =~= Seq::<char>::empty());
                }
            }
            s.as_str().is_empty()
        },
        (Some(x), Some(y)) => x.eq(y),
    }
}

/// The text with the empty string replaced by absence.
pub fn without_empty(o: Option<String>) -> (r: Option<String>)
    ensures
        opt_text(r) == drop_empty(opt_text(o)),
{
    match o {
        Some(s) => if s.as_str().is_empty() {
            None
        } else {
            Some(s)
        },
        None => None,
    }
}

impl Clone for DualCategorization {
    fn clone(&self) -> (r: Self)
        ensures
            r@ == self@,
    {
        DualCategorization {
            main_category: self.main_category.clone(),
            subcategory: clone_text(&self.subcategory),
            product_type: clone_text(&self.product_type),
        }
    }
}

/// A copy of a list of classifications.
pub fn clone_classes(v: &Vec<DualCategorization>) -> (r: Vec<DualCategorization>)
    ensures
        views_of_classes(r@) == views_of_classes(v@),
{
    let mut r: Vec<DualCategorization> = Vec::new();
    let mut i: usize = 0;
    while i < v.len()
        invariant
            i <= v@.len(),
            r@.len() == i,
            forall|j: int| 0 <= j < i ==> #[trigger] r@[j]@ == v@[j]@,
        decreases v@.len() - i,
    {
        r.push(v[i].clone());
        i += 1;
    }
    assert(views_of_classes(r@) =~= views_of_classes(v@));
    r
}

impl Clone for Product {
    fn clone(&self) -> (r: Self)
        ensures
            r@ == self@,
    {
        let embedding = match &self.embedding {
            Some(v) => Some(clone_words(v)),
            None => None,
        };
        Product {
            name: self.name.clone(),
            price_bits: self.price_bits,
            promo_price_bits: self.promo_price_bits,
            size: self.size.clone(),
            stocks_status: self.stocks_status.clone(),
            category: self.category.clone(),
            subcategory: clone_text(&self.subcategory),
            product_type: clone_text(&self.product_type),
            image_url: clone_text(&self.image_url),
            sold_by: clone_text(&self.sold_by),
            product_id: clone_text(&self.product_id),
            embedding,
            brand: clone_text(&self.brand),
            is_organic: self.is_organic,
        }
    }
}

impl Clone for ProductGroup {
    fn clone(&self) -> (r: Self)
        ensures
            r@ == self@,
    {
        let mut products: Vec<Product> = Vec::new();
        let mut i: usize = 0;
        while i < self.products.len()
            invariant
                i <= self.products@.len(),
                products@.len() == i,
                forall|j: int| 0 <= j < i ==> #[trigger] products@[j]@ == self.products@[j]@,
            decreases self.products@.len() - i,
        {
            products.push(self.products[i].clone());
            i += 1;
        }
        assert(views_of_products(products@) =~= views_of_products(self.products@));
        ProductGroup {
            category: self.category.clone(),
            subcategory: clone_text(&self.subcategory),
            product_type: clone_text(&self.product_type),
            products,
            additional_categorizations: clone_classes(&self.additional_categorizations),
        }
    }
}

/// The bit patterns of the single-precision values that are not `>= 0`:
/// every NaN (either sign), and every negative number with a magnitude
/// above zero, negative infinity included. Negative zero is allowed.
pub open spec fn is_refused_amount(bits: u32) -> bool {
    (0x7f80_0001 <= bits <= 0x7fff_ffff) || 0x8000_0001 <= bits
}

pub open spec fn sold_by_allowed(mode: Option<Seq<char>>) -> bool {
    match mode {
        Some(m) => m == "WEIGHT"@ || m == "UNIT"@,
        None => true,
    }
}

/// A product that may be stored: a name, a price that is `>= 0`, and
/// a selling mode that is absent, `WEIGHT` or `UNIT`.
pub open spec fn product_valid(p: ProductView) -> bool {
    &&& p.name.len() > 0
    &&& !is_refused_amount(p.price_bits)
    &&& sold_by_allowed(p.sold_by)
}

/// A product belongs under a classification when the categories are equal
/// and the subcategories and product types agree, absence and the empty
/// string taken as the same.
pub open spec fn member_matches(p: ProductView, c: ClassView) -> bool {
    &&& p.class.category == c.category
    &&& flat_text(p.class.subcategory) == flat_text(c.subcategory)
    &&& flat_text(p.class.product_type) == flat_text(c.product_type)
}

pub open spec fn all_members_match(products: Seq<ProductView>, c: ClassView) -> bool {
    forall|i: int| 0 <= i < products.len() ==> member_matches(#[trigger] products[i], c)
}

pub open spec fn all_products_valid(products: Seq<ProductView>) -> bool {
    forall|i: int| 0 <= i < products.len() ==> product_valid(#[trigger] products[i])
}

/// The verdict on a group: the first rule it breaks, in this order, or `Ok`.
pub open spec fn group_check(g: GroupView) -> Result<(), CatalogError> {
    if g.products.len() == 0 {
        Err(CatalogError::EmptyGroup)
    } else if g.products.len() > PRODUCTS_PER_GROUP {
        Err(CatalogError::GroupTooLarge)
    } else if !all_members_match(g.products, g.class) {
        Err(CatalogError::ClassificationMismatch)
    } else if !all_products_valid(g.products) {
        Err(CatalogError::InvalidProduct)
    } else {
        Ok(())
    }
}

fn is_known_mode(m: &String) -> (r: bool)
    ensures
        r == (m@ == "WEIGHT"@ || m@ == "UNIT"@),
{
    let weight = String::from_str("WEIGHT");
    let unit = String::from_str("UNIT");
    m.eq(&weight) || m.eq(&unit)
}

/// Checks one product before it is stored.
pub fn validate_create_product(product: &Product) -> (r: Result<(), CatalogError>)
    ensures
        r == (if product_valid(product@) {
            Ok(())
        } else {
            Err(CatalogError::InvalidProduct)
        }),
{
    if product.name.as_str().is_empty() {
        return Err(CatalogError::InvalidProduct);
    }
    let bits = product.price_bits;
    if (0x7f80_0001 <= bits && bits <= 0x7fff_ffff) || 0x8000_0001 <= bits {
        return Err(CatalogError::InvalidProduct);
    }
    match &product.sold_by {
        Some(m) => if !is_known_mode(m) {
            return Err(CatalogError::InvalidProduct);
        },
        None => {},
    }
    Ok(())
}

/// Whether a product belongs under the group's own classification.
pub fn matches_group(product: &Product, group: &ProductGroup) -> (r: bool)
    ensures
        r == member_matches(product@, group@.class),
{
    product.category.eq(&group.category) && same_flat_text(
        &product.subcategory,
        &group.subcategory,
    ) && same_flat_text(&product.product_type, &group.product_type)
}

/// Checks a group before it is stored: not empty, at most
/// `PRODUCTS_PER_GROUP` products, every member of the group's
/// classification, every member valid.
pub fn validate_create_product_group(group: &ProductGroup) -> (r: Result<(), CatalogError>)
    ensures
        r == group_check(group@),
{
    let n = group.products.len();
    if n == 0 {
        return Err(CatalogError::EmptyGroup);
    }
    if n > PRODUCTS_PER_GROUP {
        return Err(CatalogError::GroupTooLarge);
    }
    let ghost gv = group@;
    assert(gv.products.len() == n);
    let mut i: usize = 0;
    while i < n
        invariant
            n == group.products@.len(),
            0 < n <= PRODUCTS_PER_GROUP,
            gv == group@,
            i <= n,
            forall|j: int| 0 <= j < i ==> member_matches(#[trigger] gv.products[j], gv.class),
        decreases n - i,
    {
        if !matches_group(&group.products[i], group) {
            assert(!member_matches(gv.products[i as int], gv.class));
            assert(!all_members_match(gv.products, gv.class));
            return Err(CatalogError::ClassificationMismatch);
        }
        i += 1;
    }
    let mut k: usize = 0;
    while k < n
        invariant
            n == group.products@.len(),
            0 < n <= PRODUCTS_PER_GROUP,
            gv == group@,
            k <= n,
            all_members_match(gv.products, gv.class),
            forall|j: int| 0 <= j < k ==> product_valid(#[trigger] gv.products[j]),
        decreases n - k,
    {
        if validate_create_product(&group.products[k]).is_err() {
            assert(!product_valid(gv.products[k as int]));
            assert(!all_products_valid(gv.products));
            return Err(CatalogError::InvalidProduct);
        }
        k += 1;
    }
    Ok(())
}

/// Stored products are never updated: every update, to any new value, is
/// refused.
pub fn validate_update_product(_product: &Product) -> (r: Result<(), CatalogError>)
    ensures
        r == Err::<(), CatalogError>(CatalogError::Immutable),
{
    Err(CatalogError::Immutable)
}

/// Stored groups are never updated: every update, to any new value, is
/// refused.
pub fn validate_update_product_group(_group: &ProductGroup) -> (r: Result<(), CatalogError>)
    ensures
        r == Err::<(), CatalogError>(CatalogError::Immutable),
{
    Err(CatalogError::Immutable)
}

/// Stored products are never deleted.
pub fn validate_delete_product(_original: &Product) -> (r: Result<(), CatalogError>)
    ensures
        r == Err::<(), CatalogError>(CatalogError::Immutable),
{
    Err(CatalogError::Immutable)
}

/// Stored groups are never deleted.
pub fn validate_delete_product_group(_original: &ProductGroup) -> (r: Result<(), CatalogError>)
    ensures
        r == Err::<(), CatalogError>(CatalogError::Immutable),
{
    Err(CatalogError::Immutable)
}

} // verus!
