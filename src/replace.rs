//! Replacing the groups of a classification by a new group.
use vstd::prelude::*;
use crate::catalog::{
    ProductCatalog, creation_check, group_paths, link_edges, occurrences, unlink_all, unlinked,
    lemma_created_group_counts, lemma_unlink_all_keeps_counts, lemma_unlink_all_keeps_misses,
};
use crate::index::{EdgeView, GroupRef, edges_at, sum_counts_to, targets_of};
use crate::paths::query_path;
use crate::product::{CatalogError, CreateProductGroupInput, GroupView};
use crate::query::{
    GetProductGroupsParams, get_product_groups_by_path, params_class, record_refs,
};

verus! {

/// A request to replace the groups under one classification by a new group.
pub struct UpdateProductGroupInput {
    pub old_category: String,
    pub old_subcategory: Option<String>,
    pub old_product_type: Option<String>,
    pub new_group: CreateProductGroupInput,
}

/// What replacing the groups of `old_class` by `new_group` is refused with,
/// if anything.
pub open spec fn replace_check(
    old_class_valid: bool,
    new_group: GroupView,
) -> Result<(), CatalogError> {
    if !old_class_valid {
        Err(CatalogError::InvalidClassification)
    } else {
        creation_check(new_group)
    }
}

/// The edges left once each group of `hs`, in order, is unlinked from every
/// path it is indexed under; edges to any other group are kept.
pub open spec fn unlink_groups(s: Seq<EdgeView>, hs: Seq<usize>, store: Seq<GroupView>) -> Seq<
    EdgeView,
>
    decreases hs.len(),
{
    if hs.len() == 0 {
        s
    } else {
        unlink_all(
            unlink_groups(s, hs.drop_last(), store),
            group_paths(store[hs.last() as int]),
            hs.last(),
        )
    }
}

/// A group that replaced others is still stored under its reference, as
/// are the groups it replaced.
pub proof fn lemma_replaced_groups_stay_stored(
    before: Seq<GroupView>,
    after: Seq<GroupView>,
    created: GroupView,
    h: int,
)
    requires
        after == before.push(created),
        0 <= h < before.len(),
    ensures
        h < after.len(),
        after[h] == before[h],
        after[before.len() as int] == created,
{
}

impl ProductCatalog {
    /// Creates the new group, then removes the edges to every group that
    /// was under the path of the old classification from each path that
    /// group is indexed under. The old groups stay stored. Nothing changes
    /// when the old classification is invalid or the new group is refused.
    pub fn update_product_group(&mut self, input: UpdateProductGroupInput) -> (r: Result<
        GroupRef,
        CatalogError,
    >)
        requires
            old(self).wf(),
        ensures
            final(self).wf(),
            ({
                let old_valid = !(input.old_subcategory is None && input.old_product_type is Some);
                let check = replace_check(old_valid, input.new_group@);
                &&& r is Ok <==> check is Ok
                &&& r matches Err(e) ==> check == Err::<(), CatalogError>(e) && final(self).store()
                    == old(self).store() && final(self).edges() == old(self).edges()
            }),
            r matches Ok(g) ==> {
                let replaced = targets_of(
                    edges_at(
                        old(self).edges(),
                        query_path(
                            params_class(
                                input.old_category,
                                input.old_subcategory,
                                input.old_product_type,
                            ),
                        ),
                    ),
                );
                let created = input.new_group@;
                &&& g.index == old(self).store().len()
                &&& final(self).store() == old(self).store().push(created)
                &&& forall|k: int|
                    0 <= k < replaced.len() ==> unlinked(
                        final(self).edges(),
                        old(self).store()[#[trigger] replaced[k] as int],
                        replaced[k],
                    )
                &&& forall|p: Seq<char>|
                    sum_counts_to(#[trigger] edges_at(final(self).edges(), p), g.index) == (
                    created.products.len() as nat) * occurrences(group_paths(created), p)
                &&& final(self).edges() == unlink_groups(
                    old(self).edges() + link_edges(
                        group_paths(created),
                        g.index,
                        created.products.len() as u32,
                    ),
                    replaced,
                    old(self).store(),
                )
            },
    {
        let params = GetProductGroupsParams {
            category: input.old_category,
            subcategory: input.old_subcategory,
            product_type: input.old_product_type,
        };
        let existing = match get_product_groups_by_path(self, &params) {
            Ok(v) => v,
            Err(e) => {
                return Err(e);
            },
        };
        let ghost replaced = record_refs(existing@);
        let ghost created = input.new_group@;
        let ghost before = self.edges();
        let ghost old_store = self.store();
        let g = match self.create_product_group(input.new_group) {
            Ok(g) => g,
            Err(e) => {
                return Err(e);
            },
        };
        let ghost n = created.products.len() as u32;
        let ghost paths = group_paths(created);
        let ghost after = self.edges();
        assert(replaced.subrange(0, 0) =~= Seq::<usize>::empty());
        proof {
            assert forall|p: Seq<char>|
                sum_counts_to(#[trigger] edges_at(self.edges(), p), g.index) == (
                created.products.len() as nat) * occurrences(paths, p) by {
                lemma_created_group_counts(before, paths, g.index, n, p);
            }
        }
        let mut i: usize = 0;
        while i < existing.len()
            invariant
                i <= existing@.len(),
                self.wf(),
                replaced == record_refs(existing@),
                forall|k: int| 0 <= k < replaced.len() ==> #[trigger] replaced[k] < old_store.len(),
                self.store() == old_store.push(created),
                g.index == old_store.len(),
                forall|k: int|
                    0 <= k < i ==> unlinked(
                        self.edges(),
                        old_store[#[trigger] replaced[k] as int],
                        replaced[k],
                    ),
                forall|p: Seq<char>|
                    sum_counts_to(#[trigger] edges_at(self.edges(), p), g.index) == (
                    created.products.len() as nat) * occurrences(paths, p),
                self.edges() == unlink_groups(after, replaced.subrange(0, i as int), old_store),
            decreases existing@.len() - i,
        {
            let h = existing[i].group_ref;
            assert(h.index == replaced[i as int]);
            let ghost cur = self.edges();
            let ghost hv = self.store()[h.index as int];
            let ghost hpaths = group_paths(hv);
            assert(hv == old_store[h.index as int]);
            let _ = self.delete_links_to_product_group(h);
            proof {
                assert(self.edges() == crate::catalog::unlink_all(cur, hpaths, h.index));
                assert forall|k: int| 0 <= k < i + 1 implies unlinked(
                    self.edges(),
                    old_store[#[trigger] replaced[k] as int],
                    replaced[k],
                ) by {
                    if k < i {
                        let kv = old_store[replaced[k] as int];
                        assert forall|j: int| 0 <= j < group_paths(kv).len() implies crate::catalog::misses(
                            edges_at(self.edges(), #[trigger] group_paths(kv)[j]),
                            replaced[k],
                        ) by {
                            lemma_unlink_all_keeps_misses(
                                cur,
                                hpaths,
                                h.index,
                                group_paths(kv)[j],
                                replaced[k],
                            );
                        }
                    }
                }
                assert forall|p: Seq<char>|
                    sum_counts_to(#[trigger] edges_at(self.edges(), p), g.index) == (
                    created.products.len() as nat) * occurrences(paths, p) by {
                    lemma_unlink_all_keeps_counts(cur, hpaths, h.index, p, g.index);
                }
                assert(replaced.subrange(0, i + 1).drop_last() =~= replaced.subrange(0, i as int));
            }
            i += 1;
        }
        assert(replaced.subrange(0, replaced.len() as int) =~= replaced);
        Ok(g)
    }
}

} // verus!
