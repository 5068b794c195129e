//! Index paths derived from classifications.
use vstd::prelude::*;
use crate::product::{
    ClassView, CatalogError, CreateProductInput, DualCategorization, opt_text, views_of_classes,
};

verus! {

pub open spec fn category_path(category: Seq<char>) -> Seq<char> {
    "categories/"@ + category
}

pub open spec fn subcategory_path(category: Seq<char>, subcategory: Seq<char>) -> Seq<char> {
    category_path(category) + "/subcategories/"@ + subcategory
}

pub open spec fn type_path(category: Seq<char>, subcategory: Seq<char>, product_type: Seq<char>) -> Seq<
    char,
> {
    subcategory_path(category, subcategory) + "/types/"@ + product_type
}

/// A classification may name a product type only under a subcategory.
pub open spec fn class_valid(c: ClassView) -> bool {
    !(c.subcategory is None && c.product_type is Some)
}

pub open spec fn classes_valid(s: Seq<ClassView>) -> bool {
    forall|i: int| 0 <= i < s.len() ==> class_valid(#[trigger] s[i])
}

/// The paths of one classification, coarsest first: the category, then the
/// subcategory if there is one, then the product type if there is one.
pub open spec fn tier_paths(c: ClassView) -> Seq<Seq<char>> {
    match c.subcategory {
        None => seq![category_path(c.category)],
        Some(s) => match c.product_type {
            None => seq![category_path(c.category), subcategory_path(c.category, s)],
            Some(t) => seq![
                category_path(c.category),
                subcategory_path(c.category, s),
                type_path(c.category, s, t),
            ],
        },
    }
}

/// The path that names exactly the classification: its finest tier.
pub open spec fn query_path(c: ClassView) -> Seq<char> {
    tier_paths(c).last()
}

/// The tiers of each further classification, in order.
pub open spec fn extra_paths(s: Seq<ClassView>) -> Seq<Seq<char>>
    decreases s.len(),
{
    if s.len() == 0 {
        Seq::empty()
    } else {
        extra_paths(s.drop_last()) + tier_paths(s.last())
    }
}

/// `acc` with `x` appended unless it already holds it.
pub open spec fn add_new(acc: Seq<Seq<char>>, x: Seq<char>) -> Seq<Seq<char>> {
    if acc.contains(x) {
        acc
    } else {
        acc.push(x)
    }
}

/// `acc` with each path of `s` appended in order, each path kept once.
pub open spec fn add_all(acc: Seq<Seq<char>>, s: Seq<Seq<char>>) -> Seq<Seq<char>>
    decreases s.len(),
{
    if s.len() == 0 {
        acc
    } else {
        add_new(add_all(acc, s.drop_last()), s.last())
    }
}

/// Every path a group is indexed under, each once: the tiers of its own
/// classification, then those of each further classification, a path that
/// comes again being left out.
pub open spec fn all_paths(primary: ClassView, extra: Seq<ClassView>) -> Seq<Seq<char>> {
    add_all(Seq::empty(), tier_paths(primary) + extra_paths(extra))
}

/// No path occurs twice.
pub open spec fn no_repeats(s: Seq<Seq<char>>) -> bool {
    forall|i: int, j: int| 0 <= i < j < s.len() ==> s[i] != s[j]
}

pub proof fn lemma_add_all_concat(acc: Seq<Seq<char>>, a: Seq<Seq<char>>, b: Seq<Seq<char>>)
    ensures
        add_all(acc, a + b) == add_all(add_all(acc, a), b),
    decreases b.len(),
{
    if b.len() == 0 {
        assert(a + b =~= a);
    } else {
        assert((a + b).drop_last() =~= a + b.drop_last());
        lemma_add_all_concat(acc, a, b.drop_last());
    }
}

/// Appending keeps a list free of repeats, and adds at most one path per
/// path offered, and at least one to an empty list offered any.
pub proof fn lemma_add_all_shape(acc: Seq<Seq<char>>, s: Seq<Seq<char>>)
    requires
        no_repeats(acc),
    ensures
        no_repeats(add_all(acc, s)),
        acc.len() <= add_all(acc, s).len() <= acc.len() + s.len(),
        acc.len() == 0 && s.len() > 0 ==> add_all(acc, s).len() >= 1,
        forall|p: Seq<char>| #[trigger] add_all(acc, s).contains(p) <==> acc.contains(p) || s.contains(p),
    decreases s.len(),
{
    if s.len() > 0 {
        lemma_add_all_shape(acc, s.drop_last());
        let r = add_all(acc, s.drop_last());
        let x = s.last();
        if !r.contains(x) {
            assert forall|i: int, j: int| 0 <= i < j < r.push(x).len() implies r.push(x)[i] != r.push(
                x,
            )[j] by {
                if j == r.len() {
                    assert(r.push(x)[i] == r[i]);
                }
            }
            assert forall|p: Seq<char>| r.push(x).contains(p) <==> r.contains(p) || p == x by {
                if r.push(x).contains(p) && p != x {
                    let k = choose|k: int| 0 <= k < r.push(x).len() && r.push(x)[k] == p;
                    assert(r[k] == p);
                }
                if r.contains(p) {
                    let k = choose|k: int| 0 <= k < r.len() && r[k] == p;
                    assert(r.push(x)[k] == p);
                }
                if p == x {
                    assert(r.push(x)[r.len() as int] == p);
                }
            }
        }
        assert forall|p: Seq<char>| #[trigger] add_all(acc, s).contains(p) <==> acc.contains(p)
            || s.contains(p) by {
            assert(r.contains(p) <==> acc.contains(p) || s.drop_last().contains(p));
            if s.contains(p) && p != x {
                let k = choose|k: int| 0 <= k < s.len() && s[k] == p;
                assert(s.drop_last()[k] == p);
            }
            if s.drop_last().contains(p) {
                let k = choose|k: int| 0 <= k < s.drop_last().len() && s.drop_last()[k] == p;
                assert(s[k] == p);
            }
            if p == x {
                assert(s[s.len() - 1] == p);
            }
            if !r.contains(x) {
                assert(r.push(x).contains(p) <==> r.contains(p) || p == x);
            }
        }
        assert forall|p: Seq<char>| s.contains(p) <==> s.drop_last().contains(p) || p == x by {
            if s.contains(p) && p != x {
                let k = choose|k: int| 0 <= k < s.len() && s[k] == p;
                assert(s.drop_last()[k] == p);
            }
            if s.drop_last().contains(p) {
                let k = choose|k: int| 0 <= k < s.drop_last().len() && s.drop_last()[k] == p;
                assert(s[k] == p);
            }
            if p == x {
                assert(s[s.len() - 1] == p);
            }
        }
    }
}

/// Whether `out` already holds a path with the text of `p`.
fn holds_path(out: &Vec<String>, p: &String) -> (r: bool)
    ensures
        r == texts(out@).contains(p@),
{
    let ghost t = texts(out@);
    let mut i: usize = 0;
    while i < out.len()
        invariant
            i <= out@.len(),
            t == texts(out@),
            forall|j: int| 0 <= j < i ==> t[j] != p@,
        decreases out@.len() - i,
    {
        if out[i].eq(p) {
            assert(t[i as int] == p@);
            return true;
        }
        i += 1;
    }
    false
}

/// Appends `p` unless `out` already holds it.
fn push_new(out: &mut Vec<String>, p: String)
    ensures
        texts(final(out)@) == add_new(texts(old(out)@), p@),
{
    if !holds_path(out, &p) {
        let ghost before = texts(out@);
        let ghost pv = p@;
        out.push(p);
        assert(texts(out@) =~= before.push(pv));
    }
}

pub open spec fn texts(s: Seq<String>) -> Seq<Seq<char>> {
    s.map_values(|t: String| t@)
}

/// `categories/{category}`.
pub fn category_path_text(category: &str) -> (r: String)
    ensures
        r@ == category_path(category@),
{
    let mut r = String::from_str("categories/");
    r.append(category);
    r
}

/// `categories/{category}/subcategories/{subcategory}`.
pub fn subcategory_path_text(category: &str, subcategory: &str) -> (r: String)
    ensures
        r@ == subcategory_path(category@, subcategory@),
{
    let mut r = category_path_text(category);
    r.append("/subcategories/");
    r.append(subcategory);
    r
}

/// `categories/{category}/subcategories/{subcategory}/types/{product_type}`.
pub fn type_path_text(category: &str, subcategory: &str, product_type: &str) -> (r: String)
    ensures
        r@ == type_path(category@, subcategory@, product_type@),
{
    let mut r = subcategory_path_text(category, subcategory);
    r.append("/types/");
    r.append(product_type);
    r
}

/// Appends the tier paths of one classification that `out` does not hold
/// yet.
fn push_tier_paths(
    out: &mut Vec<String>,
    category: &String,
    subcategory: &Option<String>,
    product_type: &Option<String>,
)
    ensures
        texts(final(out)@) == add_all(
            texts(old(out)@),
            tier_paths(
                (ClassView {
                    category: category@,
                    subcategory: opt_text(*subcategory),
                    product_type: opt_text(*product_type),
                }),
            ),
        ),
{
    let ghost before = texts(out@);
    let ghost tiers = tier_paths(
        ClassView {
            category: category@,
            subcategory: opt_text(*subcategory),
            product_type: opt_text(*product_type),
        },
    );
    let cat = category_path_text(category.as_str());
    let ghost a = cat@;
    push_new(out, cat);
    assert(seq![a].drop_last() =~= Seq::<Seq<char>>::empty());
    assert(add_all(before, Seq::<Seq<char>>::empty()) == before);
    assert(add_all(before, seq![a]) == add_new(before, a));
    match subcategory {
        Some(s) => {
            let sub = subcategory_path_text(category.as_str(), s.as_str());
            let ghost b = sub@;
            push_new(out, sub);
            assert(seq![a, b].drop_last() =~= seq![a]);
            assert(add_all(before, seq![a, b]) == add_new(add_new(before, a), b));
            match product_type {
                Some(t) => {
                    let typ = type_path_text(category.as_str(), s.as_str(), t.as_str());
                    let ghost c = typ@;
                    push_new(out, typ);
                    assert(seq![a, b, c].drop_last() =~= seq![a, b]);
                    assert(add_all(before, seq![a, b, c]) == add_new(
                        add_new(add_new(before, a), b),
                        c,
                    ));
                    assert(tiers == seq![a, b, c]);
                },
                None => {
                    assert(tiers == seq![a, b]);
                },
            }
        },
        None => {
            assert(tiers == seq![a]);
        },
    }
}

fn check_class(
    subcategory: &Option<String>,
    product_type: &Option<String>,
) -> (r: Result<(), CatalogError>)
    ensures
        r is Ok <==> !(subcategory is None && product_type is Some),
        r is Err ==> r == Err::<(), CatalogError>(CatalogError::InvalidClassification),
{
    if subcategory.is_none() && product_type.is_some() {
        Err(CatalogError::InvalidClassification)
    } else {
        Ok(())
    }
}

/// Every path a group of the classification `primary` is indexed under,
/// given the further classifications `additional`. Fails with
/// `InvalidClassification` when any of them names a product type without a
/// subcategory.
pub fn derive_paths(primary: &DualCategorization, additional: &Vec<DualCategorization>) -> (r:
    Result<Vec<String>, CatalogError>)
    ensures
        r is Ok <==> class_valid(primary@) && classes_valid(views_of_classes(additional@)),
        r is Err ==> r == Err::<Vec<String>, CatalogError>(CatalogError::InvalidClassification),
        r matches Ok(v) ==> texts(v@) == all_paths(primary@, views_of_classes(additional@)),
{
    let ghost extra = views_of_classes(additional@);
    if check_class(&primary.subcategory, &primary.product_type).is_err() {
        return Err(CatalogError::InvalidClassification);
    }
    let mut j: usize = 0;
    while j < additional.len()
        invariant
            j <= additional@.len(),
            extra == views_of_classes(additional@),
            forall|k: int| 0 <= k < j ==> class_valid(#[trigger] extra[k]),
        decreases additional@.len() - j,
    {
        let c = &additional[j];
        if check_class(&c.subcategory, &c.product_type).is_err() {
            assert(!class_valid(extra[j as int]));
            return Err(CatalogError::InvalidClassification);
        }
        j += 1;
    }
    let mut out: Vec<String> = Vec::new();
    assert(texts(out@) =~= Seq::<Seq<char>>::empty());
    push_tier_paths(&mut out, &primary.main_category, &primary.subcategory, &primary.product_type);
    assert(tier_paths(primary@) + extra_paths(extra.subrange(0, 0)) =~= tier_paths(primary@));
    let mut i: usize = 0;
    while i < additional.len()
        invariant
            i <= additional@.len(),
            extra == views_of_classes(additional@),
            texts(out@) == add_all(
                Seq::empty(),
                tier_paths(primary@) + extra_paths(extra.subrange(0, i as int)),
            ),
        decreases additional@.len() - i,
    {
        let c = &additional[i];
        proof {
            let pre = tier_paths(primary@) + extra_paths(extra.subrange(0, i as int));
            let t = tier_paths(extra[i as int]);
            assert(extra.subrange(0, i + 1).drop_last() =~= extra.subrange(0, i as int));
            assert(tier_paths(primary@) + extra_paths(extra.subrange(0, i + 1)) =~= pre + t);
            lemma_add_all_concat(Seq::empty(), pre, t);
        }
        push_tier_paths(&mut out, &c.main_category, &c.subcategory, &c.product_type);
        i += 1;
    }
    assert(extra.subrange(0, additional@.len() as int) =~= extra);
    Ok(out)
}

/// The paths an ingested product is indexed under.
pub fn get_paths(input: &CreateProductInput) -> (r: Result<Vec<String>, CatalogError>)
    ensures
        r is Ok <==> class_valid(input@.class) && classes_valid(input@.additional),
        r is Err ==> r == Err::<Vec<String>, CatalogError>(CatalogError::InvalidClassification),
        r matches Ok(v) ==> texts(v@) == all_paths(input@.class, input@.additional),
{
    let primary = DualCategorization {
        main_category: input.main_category.clone(),
        subcategory: crate::product::clone_text(&input.subcategory),
        product_type: crate::product::clone_text(&input.product_type),
    };
    derive_paths(&primary, &input.additional_categorizations)
}

/// The path naming exactly one classification, as a query gives it. Fails
/// with `InvalidClassification` for a product type without a subcategory.
pub fn path_for(category: &String, subcategory: &Option<String>, product_type: &Option<String>) -> (r:
    Result<String, CatalogError>)
    ensures
        r is Ok <==> !(subcategory is None && product_type is Some),
        r is Err ==> r == Err::<String, CatalogError>(CatalogError::InvalidClassification),
        r matches Ok(p) ==> p@ == query_path(
            (ClassView {
                category: category@,
                subcategory: opt_text(*subcategory),
                product_type: opt_text(*product_type),
            }),
        ),
{
    match (subcategory, product_type) {
        (Some(s), Some(t)) => Ok(type_path_text(category.as_str(), s.as_str(), t.as_str())),
        (Some(s), None) => Ok(subcategory_path_text(category.as_str(), s.as_str())),
        (None, None) => Ok(category_path_text(category.as_str())),
        (None, Some(_)) => Err(CatalogError::InvalidClassification),
    }
}

/// A valid classification with no further classifications is indexed
/// under one to three paths, the first its category's, none twice; and the
/// paths are a function of the classifications' text alone: equal text
/// gives equal paths.
pub proof fn lemma_tier_paths_deterministic(
    a: ClassView,
    b: ClassView,
    extra_a: Seq<ClassView>,
    extra_b: Seq<ClassView>,
)
    requires
        class_valid(a),
        a == b,
        extra_a == extra_b,
    ensures
        1 <= all_paths(a, Seq::empty()).len() <= 3,
        no_repeats(all_paths(a, extra_a)),
        all_paths(a, extra_a) == all_paths(b, extra_b),
{
    let t = tier_paths(a);
    let none = Seq::<Seq<char>>::empty();
    assert(no_repeats(none));
    assert(t + extra_paths(Seq::<ClassView>::empty()) =~= t);
    lemma_add_all_shape(none, t);
    lemma_add_all_shape(none, t + extra_paths(extra_a));
}

} // verus!
