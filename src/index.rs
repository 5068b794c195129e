//! The edge index: under each path, edges to stored groups, each edge
//! carrying the target's product count in its tag bytes.
use vstd::prelude::*;
use crate::tag::{count_tag, decode_count, encode_count, tag_count};

verus! {

/// The handle under which the store keeps a group.
#[derive(Debug, Clone, Copy, PartialEq, Eq, Structural)]
pub struct GroupRef {
    pub index: usize,
}

/// One edge: from the node of `path` to the group `target`, with opaque
/// tag bytes.
pub struct LinkEdge {
    pub path: String,
    pub target: GroupRef,
    pub tag: Vec<u8>,
}

pub struct EdgeView {
    pub path: Seq<char>,
    pub target: usize,
    pub tag: Seq<u8>,
}

impl View for LinkEdge {
    type V = EdgeView;

    open spec fn view(&self) -> EdgeView {
        EdgeView { path: self.path@, target: self.target.index, tag: self.tag@ }
    }
}

impl Clone for LinkEdge {
    fn clone(&self) -> (r: Self)
        ensures
            r@ == self@,
    {
        LinkEdge { path: self.path.clone(), target: self.target, tag: self.tag.clone() }
    }
}

pub open spec fn edge_views(s: Seq<LinkEdge>) -> Seq<EdgeView> {
    s.map_values(|e: LinkEdge| e@)
}

/// The edges under `p`, in insertion order.
pub open spec fn edges_at(s: Seq<EdgeView>, p: Seq<char>) -> Seq<EdgeView>
    decreases s.len(),
{
    if s.len() == 0 {
        Seq::empty()
    } else {
        let r = edges_at(s.drop_last(), p);
        if s.last().path == p {
            r.push(s.last())
        } else {
            r
        }
    }
}

/// `s` without its edges to `g`.
pub open spec fn without_target(s: Seq<EdgeView>, g: usize) -> Seq<EdgeView>
    decreases s.len(),
{
    if s.len() == 0 {
        Seq::empty()
    } else {
        let r = without_target(s.drop_last(), g);
        if s.last().target != g {
            r.push(s.last())
        } else {
            r
        }
    }
}

/// `s` without its edges from `p` to `g`.
pub open spec fn without_edge(s: Seq<EdgeView>, p: Seq<char>, g: usize) -> Seq<EdgeView>
    decreases s.len(),
{
    if s.len() == 0 {
        Seq::empty()
    } else {
        let r = without_edge(s.drop_last(), p, g);
        if !(s.last().path == p && s.last().target == g) {
            r.push(s.last())
        } else {
            r
        }
    }
}

/// The count carried by each edge.
pub open spec fn counts_of(s: Seq<EdgeView>) -> Seq<nat> {
    s.map_values(|e: EdgeView| tag_count(e.tag))
}

/// The sum of the counts carried by the edges.
pub open spec fn sum_counts(s: Seq<EdgeView>) -> nat
    decreases s.len(),
{
    if s.len() == 0 {
        0
    } else {
        sum_counts(s.drop_last()) + tag_count(s.last().tag)
    }
}

/// The sum of the counts carried by the edges to `g`.
pub open spec fn sum_counts_to(s: Seq<EdgeView>, g: usize) -> nat
    decreases s.len(),
{
    if s.len() == 0 {
        0
    } else {
        sum_counts_to(s.drop_last(), g) + if s.last().target == g {
            tag_count(s.last().tag)
        } else {
            0
        }
    }
}

pub open spec fn targets_of(s: Seq<EdgeView>) -> Seq<usize> {
    s.map_values(|e: EdgeView| e.target)
}

pub proof fn lemma_edges_at_concat(a: Seq<EdgeView>, b: Seq<EdgeView>, p: Seq<char>)
    ensures
        edges_at(a + b, p) == edges_at(a, p) + edges_at(b, p),
    decreases b.len(),
{
    if b.len() == 0 {
        assert(a + b =~= a);
        assert(edges_at(a, p) + edges_at(b, p) =~= edges_at(a, p));
    } else {
        assert((a + b).drop_last() =~= a + b.drop_last());
        lemma_edges_at_concat(a, b.drop_last(), p);
        assert((a + b).last() == b.last());
        if b.last().path == p {
            assert(edges_at(a, p) + edges_at(b.drop_last(), p).push(b.last()) =~= (edges_at(a, p)
                + edges_at(b.drop_last(), p)).push(b.last()));
        }
    }
}

pub proof fn lemma_sum_counts_to_concat(a: Seq<EdgeView>, b: Seq<EdgeView>, g: usize)
    ensures
        sum_counts_to(a + b, g) == sum_counts_to(a, g) + sum_counts_to(b, g),
    decreases b.len(),
{
    if b.len() == 0 {
        assert(a + b =~= a);
    } else {
        assert((a + b).drop_last() =~= a + b.drop_last());
        lemma_sum_counts_to_concat(a, b.drop_last(), g);
    }
}

pub proof fn lemma_without_edge_at(s: Seq<EdgeView>, p: Seq<char>, g: usize, q: Seq<char>)
    ensures
        edges_at(without_edge(s, p, g), q) == if q == p {
            without_target(edges_at(s, p), g)
        } else {
            edges_at(s, q)
        },
    decreases s.len(),
{
    if s.len() > 0 {
        let x = s.last();
        lemma_without_edge_at(s.drop_last(), p, g, q);
        let r = without_edge(s.drop_last(), p, g);
        let e = edges_at(s.drop_last(), p);
        let eq = edges_at(s.drop_last(), q);
        if !(x.path == p && x.target == g) {
            assert(r.push(x).drop_last() =~= r);
            assert(r.push(x).last() == x);
        }
        if x.path == p {
            assert(e.push(x).drop_last() =~= e);
            assert(e.push(x).last() == x);
        }
        if x.path == q {
            assert(eq.push(x).drop_last() =~= eq);
        }
    }
}

/// Edges to `g` are gone once removed.
pub proof fn lemma_without_target_misses(s: Seq<EdgeView>, g: usize)
    ensures
        forall|i: int| 0 <= i < without_target(s, g).len() ==> #[trigger] without_target(s, g)[i].target != g,
    decreases s.len(),
{
    if s.len() > 0 {
        lemma_without_target_misses(s.drop_last(), g);
        let r = without_target(s.drop_last(), g);
        assert(forall|i: int| 0 <= i < r.len() ==> r.push(s.last())[i] == r[i]);
    }
}

/// Removing edges to `g` keeps the edges to any other group.
pub proof fn lemma_without_target_keeps(s: Seq<EdgeView>, g: usize, h: usize)
    requires
        g != h,
    ensures
        sum_counts_to(without_target(s, g), h) == sum_counts_to(s, h),
    decreases s.len(),
{
    if s.len() > 0 {
        lemma_without_target_keeps(s.drop_last(), g, h);
        let r = without_target(s.drop_last(), g);
        if s.last().target != g {
            assert(r.push(s.last()).drop_last() =~= r);
        }
    }
}

/// The edge index. Edges are never changed in place: they are added, or
/// removed.
pub struct GroupIndex {
    edges: Vec<LinkEdge>,
}

impl View for GroupIndex {
    type V = Seq<EdgeView>;

    closed spec fn view(&self) -> Seq<EdgeView> {
        edge_views(self.edges@)
    }
}

impl GroupIndex {
    pub fn new() -> (r: Self)
        ensures
            r@ == Seq::<EdgeView>::empty(),
    {
        let r = GroupIndex { edges: Vec::new() };
        assert(r@ =~= Seq::<EdgeView>::empty());
        r
    }

    /// The number of edges over all paths.
    pub fn edge_count(&self) -> (r: usize)
        ensures
            r == self@.len(),
    {
        self.edges.len()
    }

    /// Adds an edge with the given tag bytes under `path`.
    pub fn insert_tagged_edge(&mut self, path: String, target: GroupRef, tag: Vec<u8>)
        ensures
            final(self)@ == old(self)@.push((EdgeView { path: path@, target: target.index, tag: tag@ })),
    {
        let ghost before = self@;
        self.edges.push(LinkEdge { path, target, tag });
        assert(self@ =~= before.push(EdgeView { path: path@, target: target.index, tag: tag@ }));
    }

    /// Adds an edge under `path` to `target` carrying `count`.
    pub fn insert_edge(&mut self, path: String, target: GroupRef, count: u32)
        ensures
            final(self)@ == old(self)@.push(
                (EdgeView { path: path@, target: target.index, tag: count_tag(count) }),
            ),
    {
        let tag = encode_count(count);
        self.insert_tagged_edge(path, target, tag);
    }

    /// The edges under exactly `path`, in insertion order; none when the
    /// path has no node.
    pub fn list_edges(&self, path: &String) -> (r: Vec<LinkEdge>)
        ensures
            edge_views(r@) == edges_at(self@, path@),
    {
        let mut r: Vec<LinkEdge> = Vec::new();
        let mut i: usize = 0;
        while i < self.edges.len()
            invariant
                i <= self.edges@.len(),
                edge_views(r@) == edges_at(edge_views(self.edges@.subrange(0, i as int)), path@),
            decreases self.edges@.len() - i,
        {
            let ghost pre = edge_views(self.edges@.subrange(0, i as int));
            let ghost next = edge_views(self.edges@.subrange(0, i + 1));
            assert(next.drop_last() =~= pre);
            assert(next.last() == self.edges@[i as int]@);
            let e = &self.edges[i];
            if e.path.eq(path) {
                let ghost old_r = r@;
                r.push(e.clone());
                assert(edge_views(r@) =~= edge_views(old_r).push(e@));
            }
            i += 1;
        }
        assert(self.edges@.subrange(0, self.edges@.len() as int) =~= self.edges@);
        r
    }

    /// Removes every edge under `path` to `target` and says how many went.
    /// Finding none is no error.
    pub fn remove_edges_to(&mut self, path: &String, target: GroupRef) -> (r: usize)
        ensures
            final(self)@ == without_edge(old(self)@, path@, target.index),
            r == old(self)@.len() - final(self)@.len(),
    {
        let ghost all = self@;
        let mut kept: Vec<LinkEdge> = Vec::new();
        let mut i: usize = 0;
        while i < self.edges.len()
            invariant
                i <= self.edges@.len(),
                all == edge_views(self.edges@),
                edge_views(kept@) == without_edge(all.subrange(0, i as int), path@, target.index),
                kept@.len() <= i,
            decreases self.edges@.len() - i,
        {
            assert(all.subrange(0, i + 1).drop_last() =~= all.subrange(0, i as int));
            let e = &self.edges[i];
            if !(e.path.eq(path) && e.target == target) {
                let ghost old_k = kept@;
                kept.push(e.clone());
                assert(edge_views(kept@) =~= edge_views(old_k).push(e@));
            }
            i += 1;
        }
        assert(all.subrange(0, all.len() as int) =~= all);
        let removed = self.edges.len() - kept.len();
        self.edges = kept;
        removed
    }

    /// The count carried by each edge under `path`, in insertion order.
    pub fn counts_at(&self, path: &String) -> (r: Vec<usize>)
        ensures
            r@.map_values(|c: usize| c as nat) == counts_of(edges_at(self@, path@)),
    {
        let edges = self.list_edges(path);
        let mut r: Vec<usize> = Vec::new();
        let mut i: usize = 0;
        while i < edges.len()
            invariant
                i <= edges@.len(),
                r@.len() == i,
                forall|j: int| 0 <= j < i ==> #[trigger] r@[j] as nat == tag_count(edges@[j].tag@),
            decreases edges@.len() - i,
        {
            let c = decode_count(edges[i].tag.as_slice());
            r.push(c as usize);
            i += 1;
        }
        assert(r@.map_values(|c: usize| c as nat) =~= counts_of(edge_views(edges@)));
        r
    }
}

} // verus!
