//! The catalog: a store of immutable product groups and the edge index
//! over them.
use vstd::prelude::*;
use crate::index::{
    EdgeView, GroupIndex, GroupRef, edges_at, sum_counts_to, without_edge, without_target,
    lemma_edges_at_concat, lemma_sum_counts_to_concat, lemma_without_edge_at,
};
use crate::paths::{
    all_paths, class_valid, classes_valid, derive_paths, extra_paths, lemma_add_all_shape,
    no_repeats, texts, tier_paths,
};
use crate::product::{
    CatalogError, CreateProductGroupInput, DualCategorization, GroupView, ProductGroup, clone_text,
    group_check, validate_create_product_group,
};
use crate::tag::{count_tag, lemma_count_round_trip};

verus! {

/// A group as it is kept: its rules hold, and every classification it
/// carries is valid.
pub open spec fn stored_ok(g: GroupView) -> bool {
    &&& group_check(g) is Ok
    &&& class_valid(g.class)
    &&& classes_valid(g.additional)
}

/// What creating a group from `g` is refused with, if anything: the group's
/// own rules first, then an invalid classification.
pub open spec fn creation_check(g: GroupView) -> Result<(), CatalogError> {
    if group_check(g) is Err {
        group_check(g)
    } else if !class_valid(g.class) || !classes_valid(g.additional) {
        Err(CatalogError::InvalidClassification)
    } else {
        Ok(())
    }
}

/// Checks a group to be created, its own rules first and then its
/// classifications, and gives back the group with the paths it is to be
/// indexed under.
pub fn prepare_group(input: CreateProductGroupInput) -> (r: Result<
    (ProductGroup, Vec<String>),
    CatalogError,
>)
    ensures
        r is Ok <==> creation_check(input@) is Ok,
        r matches Err(e) ==> creation_check(input@) == Err::<(), CatalogError>(e),
        r matches Ok(prepared) ==> prepared.0@ == input@ && texts(prepared.1@) == group_paths(
            input@,
        ),
{
    let ghost gv = input@;
    let group = ProductGroup {
        category: input.category,
        subcategory: input.subcategory,
        product_type: input.product_type,
        products: input.products,
        additional_categorizations: input.additional_categorizations,
    };
    assert(group@ == gv);
    match validate_create_product_group(&group) {
        Ok(()) => {},
        Err(e) => {
            return Err(e);
        },
    }
    let primary = DualCategorization {
        main_category: group.category.clone(),
        subcategory: clone_text(&group.subcategory),
        product_type: clone_text(&group.product_type),
    };
    match derive_paths(&primary, &group.additional_categorizations) {
        Ok(paths) => Ok((group, paths)),
        Err(e) => Err(e),
    }
}

/// The paths a group is indexed under.
pub open spec fn group_paths(g: GroupView) -> Seq<Seq<char>> {
    all_paths(g.class, g.additional)
}

/// The edges placed for group `g` of `n` products, one under each path.
pub open spec fn link_edges(paths: Seq<Seq<char>>, g: usize, n: u32) -> Seq<EdgeView> {
    paths.map_values(|p: Seq<char>| EdgeView { path: p, target: g, tag: count_tag(n) })
}

/// The edges left once those from each of `paths` to `g` are removed.
pub open spec fn unlink_all(s: Seq<EdgeView>, paths: Seq<Seq<char>>, g: usize) -> Seq<EdgeView>
    decreases paths.len(),
{
    if paths.len() == 0 {
        s
    } else {
        without_edge(unlink_all(s, paths.drop_last(), g), paths.last(), g)
    }
}

/// No edge of `s` leads to `g`.
pub open spec fn misses(s: Seq<EdgeView>, g: usize) -> bool {
    forall|i: int| 0 <= i < s.len() ==> #[trigger] s[i].target != g
}

/// How many times `p` occurs in `paths`.
pub open spec fn occurrences(paths: Seq<Seq<char>>, p: Seq<char>) -> nat
    decreases paths.len(),
{
    if paths.len() == 0 {
        0
    } else {
        occurrences(paths.drop_last(), p) + if paths.last() == p {
            1nat
        } else {
            0nat
        }
    }
}

pub open spec fn group_views(s: Seq<ProductGroup>) -> Seq<GroupView> {
    s.map_values(|g: ProductGroup| g@)
}

pub proof fn lemma_edges_at_misses(s: Seq<EdgeView>, p: Seq<char>, g: usize)
    requires
        misses(s, g),
    ensures
        misses(edges_at(s, p), g),
        sum_counts_to(edges_at(s, p), g) == 0,
    decreases s.len(),
{
    if s.len() > 0 {
        assert(misses(s.drop_last(), g)) by {
            assert forall|i: int| 0 <= i < s.drop_last().len() implies #[trigger] s.drop_last()[i].target
                != g by {
                assert(s.drop_last()[i] == s[i]);
            }
        }
        lemma_edges_at_misses(s.drop_last(), p, g);
        let r = edges_at(s.drop_last(), p);
        if s.last().path == p {
            assert(r.push(s.last()).drop_last() =~= r);
            assert forall|i: int| 0 <= i < r.push(s.last()).len() implies #[trigger] r.push(
                s.last(),
            )[i].target != g by {
                if i < r.len() {
                    assert(r.push(s.last())[i] == r[i]);
                }
            }
        }
    }
}

pub proof fn lemma_link_edges_counts(paths: Seq<Seq<char>>, g: usize, n: u32, p: Seq<char>)
    ensures
        sum_counts_to(edges_at(link_edges(paths, g, n), p), g) == n as nat * occurrences(paths, p),
    decreases paths.len(),
{
    if paths.len() > 0 {
        let l = link_edges(paths, g, n);
        assert(l.drop_last() =~= link_edges(paths.drop_last(), g, n));
        lemma_link_edges_counts(paths.drop_last(), g, n, p);
        lemma_count_round_trip(n);
        let r = edges_at(l.drop_last(), p);
        let x = l[l.len() - 1];
        assert(x == EdgeView { path: paths.last(), target: g, tag: count_tag(n) });
        assert(l.last() == x);
        if paths.last() == p {
            assert(edges_at(l, p) == r.push(x));
            assert(r.push(x).drop_last() =~= r);
            assert(sum_counts_to(r.push(x), g) == sum_counts_to(r, g) + n);
        } else {
            assert(edges_at(l, p) == r);
        }
        let k = occurrences(paths.drop_last(), p);
        let b: nat = if paths.last() == p {
            1
        } else {
            0
        };
        assert(occurrences(paths, p) == k + b);
        assert(n as nat * (k + b) == n as nat * k + n as nat * b) by (nonlinear_arith);
    } else {
        assert(n as nat * 0 == 0);
    }
}

/// Once a group of `n` products is created on a catalog whose edges all
/// lead to groups stored before it, the counts on the edges to it under a
/// path add up to `n` for each time the path is among its paths: to `n`
/// exactly for a path it is indexed under once.
pub proof fn lemma_created_group_counts(
    before: Seq<EdgeView>,
    paths: Seq<Seq<char>>,
    g: usize,
    n: u32,
    p: Seq<char>,
)
    requires
        forall|i: int| 0 <= i < before.len() ==> (#[trigger] before[i]).target < g,
    ensures
        sum_counts_to(edges_at(before + link_edges(paths, g, n), p), g) == n as nat * occurrences(
            paths,
            p,
        ),
        occurrences(paths, p) == 1 ==> sum_counts_to(
            edges_at(before + link_edges(paths, g, n), p),
            g,
        ) == n as nat,
{
    assert(misses(before, g));
    lemma_edges_at_concat(before, link_edges(paths, g, n), p);
    lemma_sum_counts_to_concat(edges_at(before, p), edges_at(link_edges(paths, g, n), p), g);
    lemma_edges_at_misses(before, p, g);
    lemma_link_edges_counts(paths, g, n, p);
}

pub proof fn lemma_occurrences_of_distinct(s: Seq<Seq<char>>, p: Seq<char>)
    requires
        no_repeats(s),
    ensures
        occurrences(s, p) == if s.contains(p) {
            1nat
        } else {
            0nat
        },
    decreases s.len(),
{
    if s.len() > 0 {
        let d = s.drop_last();
        assert(no_repeats(d)) by {
            assert forall|i: int, j: int| 0 <= i < j < d.len() implies d[i] != d[j] by {
                assert(d[i] == s[i] && d[j] == s[j]);
            }
        }
        lemma_occurrences_of_distinct(d, p);
        if d.contains(p) {
            let k = choose|k: int| 0 <= k < d.len() && d[k] == p;
            assert(s[k] == p);
            assert(s.last() != p) by {
                assert(s[k] != s[s.len() - 1]);
            }
        }
        if s.contains(p) && !d.contains(p) {
            let k = choose|k: int| 0 <= k < s.len() && s[k] == p;
            if k < d.len() {
                assert(d[k] == p);
            }
        }
        if s.last() == p {
            assert(s[s.len() - 1] == p);
        }
    }
}

/// Once a group of `n` products is created on a catalog whose edges all
/// lead to groups stored before it, the counts on the edges to it under any
/// path the group is indexed under add up to exactly `n`, and to nothing
/// under any other path.
pub proof fn lemma_indexed_group_counts(
    before: Seq<EdgeView>,
    gv: GroupView,
    g: usize,
    n: u32,
    p: Seq<char>,
)
    requires
        forall|i: int| 0 <= i < before.len() ==> (#[trigger] before[i]).target < g,
    ensures
        sum_counts_to(edges_at(before + link_edges(group_paths(gv), g, n), p), g) == if group_paths(
            gv,
        ).contains(p) {
            n as nat
        } else {
            0nat
        },
{
    let none = Seq::<Seq<char>>::empty();
    assert(no_repeats(none));
    lemma_add_all_shape(none, tier_paths(gv.class) + extra_paths(gv.additional));
    lemma_occurrences_of_distinct(group_paths(gv), p);
    lemma_created_group_counts(before, group_paths(gv), g, n, p);
    assert(n as nat * 0 == 0);
}

pub proof fn lemma_without_edge_bounded(s: Seq<EdgeView>, p: Seq<char>, g: usize, n: nat)
    requires
        forall|i: int| 0 <= i < s.len() ==> (#[trigger] s[i]).target < n,
    ensures
        forall|i: int|
            0 <= i < without_edge(s, p, g).len() ==> (#[trigger] without_edge(s, p, g)[i]).target < n,
    decreases s.len(),
{
    if s.len() > 0 {
        assert forall|i: int| 0 <= i < s.drop_last().len() implies (#[trigger] s.drop_last()[i]).target
            < n by {
            assert(s.drop_last()[i] == s[i]);
        }
        lemma_without_edge_bounded(s.drop_last(), p, g, n);
        let r = without_edge(s.drop_last(), p, g);
        assert forall|i: int| 0 <= i < r.push(s.last()).len() implies (#[trigger] r.push(
            s.last(),
        )[i]).target < n by {
            if i < r.len() {
                assert(r.push(s.last())[i] == r[i]);
            }
        }
    }
}

pub proof fn lemma_without_target_keeps_misses(s: Seq<EdgeView>, g: usize, h: usize)
    requires
        misses(s, h),
    ensures
        misses(without_target(s, g), h),
    decreases s.len(),
{
    if s.len() > 0 {
        assert forall|i: int| 0 <= i < s.drop_last().len() implies #[trigger] s.drop_last()[i].target
            != h by {
            assert(s.drop_last()[i] == s[i]);
        }
        lemma_without_target_keeps_misses(s.drop_last(), g, h);
        let r = without_target(s.drop_last(), g);
        assert forall|i: int| 0 <= i < r.push(s.last()).len() implies #[trigger] r.push(
            s.last(),
        )[i].target != h by {
            if i < r.len() {
                assert(r.push(s.last())[i] == r[i]);
            }
        }
    }
}

/// Unlinking one group leaves any other group unreachable where it was.
pub proof fn lemma_unlink_all_keeps_misses(
    s: Seq<EdgeView>,
    paths: Seq<Seq<char>>,
    h: usize,
    q: Seq<char>,
    other: usize,
)
    requires
        misses(edges_at(s, q), other),
    ensures
        misses(edges_at(unlink_all(s, paths, h), q), other),
    decreases paths.len(),
{
    if paths.len() > 0 {
        lemma_unlink_all_keeps_misses(s, paths.drop_last(), h, q, other);
        let t = unlink_all(s, paths.drop_last(), h);
        lemma_without_edge_at(t, paths.last(), h, q);
        if q == paths.last() {
            lemma_without_target_keeps_misses(edges_at(t, q), h, other);
        }
    }
}

/// Unlinking one group keeps the counts on the edges to any other group.
pub proof fn lemma_unlink_all_keeps_counts(
    s: Seq<EdgeView>,
    paths: Seq<Seq<char>>,
    h: usize,
    q: Seq<char>,
    other: usize,
)
    requires
        other != h,
    ensures
        sum_counts_to(edges_at(unlink_all(s, paths, h), q), other) == sum_counts_to(
            edges_at(s, q),
            other,
        ),
    decreases paths.len(),
{
    if paths.len() > 0 {
        lemma_unlink_all_keeps_counts(s, paths.drop_last(), h, q, other);
        let t = unlink_all(s, paths.drop_last(), h);
        lemma_without_edge_at(t, paths.last(), h, q);
        if q == paths.last() {
            crate::index::lemma_without_target_keeps(edges_at(t, q), h, other);
        }
    }
}

/// Every path of the group `gv` reaches no edge to `h`.
pub open spec fn unlinked(edges: Seq<EdgeView>, gv: GroupView, h: usize) -> bool {
    forall|j: int|
        0 <= j < group_paths(gv).len() ==> misses(edges_at(edges, #[trigger] group_paths(gv)[j]), h)
}

/// A stored group together with the reference it is stored under.
pub struct GroupRecord {
    pub group_ref: GroupRef,
    pub group: ProductGroup,
}

/// The store of product groups and the index over them.
pub struct ProductCatalog {
    groups: Vec<ProductGroup>,
    index: GroupIndex,
}

impl ProductCatalog {
    /// The stored groups; a group's reference is its position.
    pub closed spec fn store(&self) -> Seq<GroupView> {
        group_views(self.groups@)
    }

    /// Every edge of the index, in insertion order.
    pub closed spec fn edges(&self) -> Seq<EdgeView> {
        self.index@
    }

    /// Every edge leads to a stored group, and every stored group obeys
    /// the rules.
    pub open spec fn wf(&self) -> bool {
        &&& forall|i: int|
            0 <= i < self.edges().len() ==> (#[trigger] self.edges()[i]).target < self.store().len()
        &&& forall|k: int| 0 <= k < self.store().len() ==> stored_ok(#[trigger] self.store()[k])
    }

    /// An empty catalog.
    pub fn new() -> (r: Self)
        ensures
            r.wf(),
            r.store() == Seq::<GroupView>::empty(),
            r.edges() == Seq::<EdgeView>::empty(),
    {
        let r = ProductCatalog { groups: Vec::new(), index: GroupIndex::new() };
        assert(r.store() =~= Seq::<GroupView>::empty());
        r
    }

    /// The number of stored groups.
    pub fn group_count(&self) -> (r: usize)
        ensures
            r == self.store().len(),
    {
        self.groups.len()
    }

    /// The number of edges over all paths.
    pub fn edge_count(&self) -> (r: usize)
        ensures
            r == self.edges().len(),
    {
        self.index.edge_count()
    }

    /// The index, for reading.
    pub fn index(&self) -> (r: &GroupIndex)
        ensures
            r@ == self.edges(),
    {
        &self.index
    }

    /// A copy of the group stored under `group_ref`, if there is one.
    pub fn get_product_group(&self, group_ref: GroupRef) -> (r: Option<ProductGroup>)
        ensures
            r is Some <==> group_ref.index < self.store().len(),
            r matches Some(g) ==> g@ == self.store()[group_ref.index as int],
    {
        if group_ref.index < self.groups.len() {
            Some(self.groups[group_ref.index].clone())
        } else {
            None
        }
    }

    /// Validates and stores a group, then places an edge carrying its
    /// product count under every path of its classification and of its
    /// further classifications. Nothing is stored or linked when it is
    /// refused.
    pub fn create_product_group(&mut self, input: CreateProductGroupInput) -> (r: Result<
        GroupRef,
        CatalogError,
    >)
        requires
            old(self).wf(),
        ensures
            final(self).wf(),
            r is Ok <==> creation_check(input@) is Ok,
            r matches Err(e) ==> creation_check(input@) == Err::<(), CatalogError>(e)
                && final(self).store() == old(self).store() && final(self).edges() == old(
                self,
            ).edges(),
            r matches Ok(g) ==> {
                &&& g.index == old(self).store().len()
                &&& final(self).store() == old(self).store().push(input@)
                &&& final(self).edges() == old(self).edges() + link_edges(
                    group_paths(input@),
                    g.index,
                    input@.products.len() as u32,
                )
            },
    {
        let ghost gv = input@;
        let (group, paths) = match prepare_group(input) {
            Ok(prepared) => prepared,
            Err(e) => {
                return Err(e);
            },
        };
        let count = group.products.len() as u32;
        let g = GroupRef { index: self.groups.len() };
        let ghost old_edges = self.edges();
        let ghost old_store = self.store();
        self.groups.push(group);
        assert(self.store() =~= old_store.push(gv));
        let ghost all = texts(paths@);
        let mut i: usize = 0;
        while i < paths.len()
            invariant
                i <= paths@.len(),
                all == texts(paths@),
                all == group_paths(gv),
                self.store() == old_store.push(gv),
                g.index == old_store.len(),
                count == gv.products.len() as u32,
                self.index@ == old_edges + link_edges(all.subrange(0, i as int), g.index, count),
            decreases paths@.len() - i,
        {
            self.index.insert_edge(paths[i].clone(), g, count);
            assert(link_edges(all.subrange(0, i + 1), g.index, count) =~= link_edges(
                all.subrange(0, i as int),
                g.index,
                count,
            ).push((EdgeView { path: all[i as int], target: g.index, tag: count_tag(count) })));
            i += 1;
        }
        assert(all.subrange(0, paths@.len() as int) =~= all);
        proof {
            let fin = self.edges();
            assert forall|j: int| 0 <= j < fin.len() implies (#[trigger] fin[j]).target
                < self.store().len() by {
                if j >= old_edges.len() {
                    assert(fin[j] == link_edges(all, g.index, count)[j - old_edges.len()]);
                }
            }
            assert forall|k: int| 0 <= k < self.store().len() implies stored_ok(
                #[trigger] self.store()[k],
            ) by {
                if k < old_store.len() {
                    assert(self.store()[k] == old_store[k]);
                }
            }
        }
        Ok(g)
    }

    /// Removes every edge to the group stored under `group_ref` from each
    /// path the group is indexed under, and says how many went. The group
    /// itself stays stored. Fails with `NotFound` when nothing is stored
    /// under the reference.
    pub fn delete_links_to_product_group(&mut self, group_ref: GroupRef) -> (r: Result<
        usize,
        CatalogError,
    >)
        requires
            old(self).wf(),
        ensures
            final(self).wf(),
            final(self).store() == old(self).store(),
            r is Err <==> group_ref.index >= old(self).store().len(),
            r is Err ==> r == Err::<usize, CatalogError>(CatalogError::NotFound) && final(self).edges()
                == old(self).edges(),
            r matches Ok(n) ==> {
                let paths = group_paths(old(self).store()[group_ref.index as int]);
                &&& final(self).edges() == unlink_all(old(self).edges(), paths, group_ref.index)
                &&& n == old(self).edges().len() - final(self).edges().len()
                &&& forall|k: int|
                    0 <= k < paths.len() ==> misses(
                        edges_at(final(self).edges(), #[trigger] paths[k]),
                        group_ref.index,
                    )
            },
    {
        if group_ref.index >= self.groups.len() {
            return Err(CatalogError::NotFound);
        }
        let ghost g = group_ref.index;
        let ghost gv = self.store()[g as int];
        let group = &self.groups[group_ref.index];
        assert(group@ == gv);
        let primary = DualCategorization {
            main_category: group.category.clone(),
            subcategory: clone_text(&group.subcategory),
            product_type: clone_text(&group.product_type),
        };
        let paths = match derive_paths(&primary, &group.additional_categorizations) {
            Ok(p) => p,
            Err(e) => {
                assert(stored_ok(gv));
                return Err(e);
            },
        };
        let ghost all = texts(paths@);
        let ghost old_edges = self.edges();
        let ghost n_store = self.store().len();
        let before = self.index.edge_count();
        let mut i: usize = 0;
        while i < paths.len()
            invariant
                i <= paths@.len(),
                all == texts(paths@),
                all == group_paths(gv),
                self.store() == old(self).store(),
                n_store == self.store().len(),
                g == group_ref.index,
                old_edges == old(self).edges(),
                self.edges() == unlink_all(old_edges, all.subrange(0, i as int), g),
                before == old_edges.len(),
                self.edges().len() <= old_edges.len(),
                forall|j: int| 0 <= j < self.edges().len() ==> (#[trigger] self.edges()[j]).target < n_store,
                forall|k: int| 0 <= k < i ==> misses(edges_at(self.edges(), #[trigger] all[k]), g),
            decreases paths@.len() - i,
        {
            let ghost cur = self.edges();
            let ghost p = all[i as int];
            self.index.remove_edges_to(&paths[i], group_ref);
            assert(all.subrange(0, i + 1).drop_last() =~= all.subrange(0, i as int));
            proof {
                lemma_without_edge_bounded(cur, p, g, n_store);
                assert forall|k: int| 0 <= k < i + 1 implies misses(
                    edges_at(self.edges(), #[trigger] all[k]),
                    g,
                ) by {
                    let q = all[k];
                    lemma_without_edge_at(cur, p, g, q);
                    if q == p {
                        crate::index::lemma_without_target_misses(edges_at(cur, p), g);
                    }
                }
            }
            i += 1;
        }
        assert(all.subrange(0, paths@.len() as int) =~= all);
        Ok(before - self.index.edge_count())
    }
}

} // verus!
