//! The distribution graph: a store of Gaussian nodes with stable, strictly
//! increasing identifiers, the display flags that ride along with it, and
//! the recomputation pass that keeps product nodes consistent with their
//! parents.
//!
//! Nodes are kept sorted by identifier.  Every node an engine operation
//! creates lists only parents that already exist, so identifier order puts
//! ancestors before descendants, and one recomputation pass in that order
//! propagates a change through a whole chain of products.  A product whose
//! parent list mentions a deleted identifier is left untouched — a dangling
//! edge is valid state, not an error.

use vstd::prelude::*;
use crate::rat::{Rat, norm_rat, checked_add, checked_sub, checked_mul, checked_div, rat_lt,
    sqrt_rat, sqrt_k, SQRT_SCALE};
use crate::dist::{Distribution, EngineError, spec_fuse, multiply_gaussians, parents_valid,
    clone_id_vec, lemma_spec_fuse_same_params};

verus! {

/// A rectangular plot window.
#[derive(Clone, Copy, Debug, PartialEq, Eq, Structural)]
pub struct Bounds {
    /// Left edge.
    pub x_min: Rat,
    /// Right edge.
    pub x_max: Rat,
    /// Bottom edge.
    pub y_min: Rat,
    /// Top edge.
    pub y_max: Rat,
}

impl Bounds {
    /// Machine validity of the four edges.
    pub open spec fn wf(self) -> bool {
        self.x_min.wf() && self.x_max.wf() && self.y_min.wf() && self.y_max.wf()
    }
}

/// The graph of distributions plus its display state.
pub struct Graph {
    /// The nodes, sorted by strictly increasing identifier.
    pub nodes: Vec<Distribution>,
    /// The next identifier to allocate; identifiers are never reused.
    pub next_id: u32,
    /// Whether the area under each curve is shaded.
    pub show_shading: bool,
    /// Opacity of the shading, in `[0, 1]`.
    pub shading_opacity: Rat,
    /// Whether the standard-deviation markers are drawn.
    pub show_std_markers: bool,
    /// The current plot window, if one was set or fitted.
    pub plot_bounds: Option<Bounds>,
}

/// Some node carries the identifier.
pub open spec fn contains_id(s: Seq<Distribution>, id: u32) -> bool {
    exists|i: int| 0 <= i < s.len() && (#[trigger] s[i]).id == id
}

/// The index of the node with the identifier (meaningful when present and
/// identifiers are unique).
pub open spec fn idx_of(s: Seq<Distribution>, id: u32) -> int {
    choose|i: int| 0 <= i < s.len() && (#[trigger] s[i]).id == id
}

/// The node with the identifier.
pub open spec fn node_at(s: Seq<Distribution>, id: u32) -> Distribution {
    s[idx_of(s, id)]
}

/// Every listed identifier resolves against the node set.
pub open spec fn all_resolve(s: Seq<Distribution>, ids: Seq<u32>) -> bool {
    forall|j: int| 0 <= j < ids.len() ==> contains_id(s, #[trigger] ids[j])
}

/// The nodes the identifiers resolve to, in list order (meaningful when all
/// resolve).
pub open spec fn resolved_parents(s: Seq<Distribution>, ids: Seq<u32>) -> Seq<Distribution> {
    Seq::new(ids.len(), |j: int| node_at(s, ids[j]))
}

/// The subsequence of nodes that the identifiers resolve to, skipping the
/// identifiers that do not, in list order.
pub open spec fn resolved_sub(s: Seq<Distribution>, ids: Seq<u32>) -> Seq<Distribution>
    decreases ids.len(),
{
    if ids.len() == 0 {
        Seq::empty()
    } else {
        let rest = resolved_sub(s, ids.drop_last());
        if contains_id(s, ids.last()) {
            rest.push(node_at(s, ids.last()))
        } else {
            rest
        }
    }
}

/// Node identifiers are strictly increasing along the store.
pub open spec fn ids_sorted(s: Seq<Distribution>) -> bool {
    forall|i: int, j: int| 0 <= i < j < s.len() ==> (#[trigger] s[i]).id < (#[trigger] s[j]).id
}

impl Graph {
    /// Well-formedness: valid sorted nodes below the allocation counter, and
    /// valid display state.
    pub open spec fn wf(self) -> bool {
        &&& forall|i: int| 0 <= i < self.nodes@.len() ==> (#[trigger] self.nodes@[i]).valid()
        &&& ids_sorted(self.nodes@)
        &&& forall|i: int|
            0 <= i < self.nodes@.len() ==> (#[trigger] self.nodes@[i]).id < self.next_id
        &&& self.shading_opacity.wf()
        &&& self.shading_opacity.num >= 0
        &&& self.shading_opacity.num <= self.shading_opacity.den
        &&& self.plot_bounds matches Some(b) ==> b.wf()
    }

    /// A fresh graph: no nodes, shading on at opacity `3/10`, markers on.
    pub fn new() -> (g: Graph)
        ensures
            g.nodes@.len() == 0,
            g.next_id == 0,
            g.show_shading == true,
            g.shading_opacity == (Rat { num: 3, den: 10 }),
            g.show_std_markers == true,
            g.plot_bounds is None,
            g.wf(),
    {
        Graph {
            nodes: Vec::new(),
            next_id: 0,
            show_shading: true,
            shading_opacity: Rat { num: 3, den: 10 },
            show_std_markers: true,
            plot_bounds: None,
        }
    }

    /// The index of the node with the identifier, if present.
    pub fn find_index(&self, id: u32) -> (r: Option<usize>)
        ensures
            r matches Some(i) ==> i < self.nodes@.len() && self.nodes@[i as int].id == id,
            r is None <==> !contains_id(self.nodes@, id),
    {
        let mut i: usize = 0;
        while i < self.nodes.len()
            invariant
                0 <= i <= self.nodes@.len(),
                forall|j: int| 0 <= j < i ==> (#[trigger] self.nodes@[j]).id != id,
            decreases self.nodes@.len() - i,
        {
            if self.nodes[i].id == id {
                return Some(i);
            }
            i = i + 1;
        }
        None
    }

    /// Allocate the next identifier and insert a leaf with the given
    /// parameters.  Rejects a non-positive standard deviation; reports
    /// overflow when the identifier space is exhausted.  No mutation on
    /// error.
    pub fn add_leaf(&mut self, name: String, mean: Rat, std_dev: Rat) -> (r: Result<
        u32,
        EngineError,
    >)
        requires
            old(self).wf(),
            mean.wf(),
            std_dev.wf(),
        ensures
            r is Ok <==> std_dev.num > 0 && old(self).next_id < u32::MAX,
            r matches Ok(id) ==> id == old(self).next_id && final(self).next_id == old(self).next_id
                + 1 && final(self).nodes@.len() == old(self).nodes@.len() + 1 && final(self).nodes@.subrange(0, old(self).nodes@.len() as int) == old(self).nodes@,
            r matches Ok(id) ==> final(self).nodes@.last().id == id && final(self).nodes@.last().name@ == name@ && final(self).nodes@.last().mean == mean && final(self).nodes@.last().std_dev == std_dev && final(self).nodes@.last().parent_ids@
                == Seq::<u32>::empty() && final(self).nodes@.last().is_product == false,
            r is Ok ==> final(self).show_shading == old(self).show_shading && final(self).shading_opacity == old(self).shading_opacity && final(self).show_std_markers == old(self).show_std_markers && final(self).plot_bounds == old(self).plot_bounds,
            r is Err ==> *final(self) == *old(self),
            r matches Err(e) ==> if std_dev.num <= 0 {
                e is InvalidParameter
            } else {
                e is Overflow
            },
            final(self).wf(),
    {
        if std_dev.num <= 0 {
            return Err(EngineError::InvalidParameter);
        }
        if self.next_id == u32::MAX {
            return Err(EngineError::Overflow);
        }
        let id = self.next_id;
        let node = match Distribution::new(id, name, mean, std_dev) {
            Ok(n) => n,
            Err(_) => {
                proof {
                    assert(false);
                }
                return Err(EngineError::InvalidParameter);
            },
        };
        self.nodes.push(node);
        self.next_id = id + 1;
        proof {
            assert(final(self).nodes@.subrange(0, old(self).nodes@.len() as int) == old(self).nodes@);
        }
        Ok(id)
    }

    /// Overwrite a leaf's parameters.  Unknown identifiers and product nodes
    /// are a silent no-op (`Ok(false)`); a non-positive standard deviation is
    /// rejected without mutation.
    pub fn edit_leaf(&mut self, id: u32, mean: Rat, std_dev: Rat) -> (r: Result<
        bool,
        EngineError,
    >)
        requires
            old(self).wf(),
            mean.wf(),
            std_dev.wf(),
        ensures
            r is Err <==> std_dev.num <= 0,
            r matches Err(e) ==> e is InvalidParameter && *final(self) == *old(self),
            r matches Ok(edited) ==> edited == (contains_id(old(self).nodes@, id) && !node_at(
                old(self).nodes@,
                id,
            ).is_product),
            r == Ok::<bool, EngineError>(false) ==> *final(self) == *old(self),
            r == Ok::<bool, EngineError>(true) ==> final(self).nodes@.len() == old(self).nodes@.len() && (forall|j: int|
                0 <= j < old(self).nodes@.len() && old(self).nodes@[j].id != id ==> final(self).nodes@[j] == old(self).nodes@[j]) && (forall|j: int|
                0 <= j < old(self).nodes@.len() && old(self).nodes@[j].id == id ==> (#[trigger]
                final(self).nodes@[j]).mean == mean && final(self).nodes@[j].std_dev == std_dev
                    && final(self).nodes@[j].id == id && final(self).nodes@[j].name@ == old(self).nodes@[j].name@ && final(self).nodes@[j].parent_ids@ == old(self).nodes@[j].parent_ids@ && final(self).nodes@[j].is_product == false),
            r is Ok ==> final(self).next_id == old(self).next_id && final(self).show_shading
                == old(self).show_shading && final(self).shading_opacity == old(self).shading_opacity && final(self).show_std_markers == old(self).show_std_markers
                && final(self).plot_bounds == old(self).plot_bounds,
            final(self).wf(),
    {
        if std_dev.num <= 0 {
            return Err(EngineError::InvalidParameter);
        }
        let idx = match self.find_index(id) {
            Some(i) => i,
            None => {
                return Ok(false);
            },
        };
        if self.nodes[idx].is_product {
            proof {
                assert(self.nodes@[idx as int].id == id);
                assert(node_at(self.nodes@, id) == self.nodes@[idx_of(self.nodes@, id)]);
                assert(idx_of(self.nodes@, id) == idx as int) by {
                    let k = idx_of(self.nodes@, id);
                    assert(0 <= k < self.nodes@.len() && self.nodes@[k].id == id);
                    if k != idx as int {
                        assert(ids_sorted(self.nodes@));
                    }
                }
            }
            return Ok(false);
        }
        let name = self.nodes[idx].name.clone();
        let parent_ids = clone_id_vec(&self.nodes[idx].parent_ids);
        let is_product = self.nodes[idx].is_product;
        let node = Distribution { id, name, mean, std_dev, parent_ids, is_product };
        self.nodes.set(idx, node);
        proof {
            let s = old(self).nodes@;
            assert(s[idx as int].id == id);
            assert(idx_of(s, id) == idx as int) by {
                let k = idx_of(s, id);
                assert(0 <= k < s.len() && s[k].id == id);
                if k != idx as int {
                    assert(ids_sorted(s));
                }
            }
            assert forall|j: int| 0 <= j < s.len() && s[j].id == id implies j == idx as int by {
                if j != idx as int {
                    assert(ids_sorted(s));
                }
            }
        }
        Ok(true)
    }

    /// Remove the node with the identifier; a missing identifier is a
    /// silent no-op.  Dependants' parent lists are not touched.
    pub fn delete(&mut self, id: u32)
        requires
            old(self).wf(),
        ensures
            !contains_id(old(self).nodes@, id) ==> *final(self) == *old(self),
            contains_id(old(self).nodes@, id) ==> final(self).nodes@ == old(self).nodes@.remove(idx_of(old(self).nodes@, id)) && old(self).nodes@[idx_of(
                old(self).nodes@,
                id,
            )].id == id,
            !contains_id(final(self).nodes@, id),
            final(self).next_id == old(self).next_id,
            final(self).show_shading == old(self).show_shading,
            final(self).shading_opacity == old(self).shading_opacity,
            final(self).show_std_markers == old(self).show_std_markers,
            final(self).plot_bounds == old(self).plot_bounds,
            final(self).wf(),
    {
        let idx = match self.find_index(id) {
            Some(i) => i,
            None => {
                return ;
            },
        };
        proof {
            let s = self.nodes@;
            assert(s[idx as int].id == id);
            assert(idx_of(s, id) == idx as int) by {
                let k = idx_of(s, id);
                assert(0 <= k < s.len() && s[k].id == id);
                if k != idx as int {
                    assert(ids_sorted(s));
                }
            }
        }
        self.nodes.remove(idx);
        proof {
            let s = old(self).nodes@;
            let t = final(self).nodes@;
            assert(t == s.remove(idx as int));
            assert forall|i: int| 0 <= i < t.len() implies (#[trigger] t[i]).id != id by {
                if i < idx as int {
                    assert(t[i] == s[i]);
                    assert(ids_sorted(s));
                } else {
                    assert(t[i] == s[i + 1]);
                    assert(ids_sorted(s));
                }
            }
            assert forall|i: int, j: int| 0 <= i < j < t.len() implies (#[trigger] t[i]).id < (
            #[trigger] t[j]).id by {
                assert(ids_sorted(s));
                if j < idx as int {
                } else if i < idx as int {
                    assert(t[j] == s[j + 1]);
                } else {
                    assert(t[i] == s[i + 1] && t[j] == s[j + 1]);
                }
            }
        }
    }
}

/// What one recomputation pass does to the node store: structure kept,
/// non-products untouched, products with a dangling parent untouched, and
/// every ancestor-ordered resolvable product rewritten to the fusion of its
/// parents' final values (or kept when that fusion cannot be represented).
pub open spec fn recompute_rel(a: Seq<Distribution>, b: Seq<Distribution>) -> bool {
    &&& same_structure(a, b)
    &&& forall|i: int| 0 <= i < a.len() && !a[i].is_product ==> #[trigger] b[i] == a[i]
    &&& forall|i: int|
        0 <= i < a.len() && a[i].is_product && !all_resolve(a, (#[trigger] a[i]).parent_ids@)
            ==> b[i].mean == a[i].mean && b[i].std_dev == a[i].std_dev
    &&& forall|i: int|
        0 <= i < a.len() && a[i].is_product && all_resolve(a, (#[trigger] a[i]).parent_ids@)
            && parents_strictly_before(a, i) ==> (match spec_fuse(
            resolved_parents(b, a[i].parent_ids@),
        ) {
            Some(mv) => b[i].mean == mv.0 && Some(b[i].std_dev) == norm_rat(
                sqrt_k(mv.1),
                SQRT_SCALE as int,
            ),
            None => b[i].mean == a[i].mean && b[i].std_dev == a[i].std_dev,
        })
}

/// A witness index pins the chosen index: with sorted (hence unique)
/// identifiers there is only one.
pub proof fn lemma_idx_unique(s: Seq<Distribution>, id: u32, i: int)
    requires
        ids_sorted(s),
        0 <= i < s.len(),
        s[i].id == id,
    ensures
        contains_id(s, id),
        idx_of(s, id) == i,
        node_at(s, id) == s[i],
{
    assert(contains_id(s, id));
    let k = idx_of(s, id);
    assert(0 <= k < s.len() && s[k].id == id);
    if k != i {
        assert(ids_sorted(s));
        assert(false);
    }
}

/// Identifiers, labels, edges and flags agree position by position (only
/// the derived parameters may differ).
pub open spec fn same_structure(a: Seq<Distribution>, b: Seq<Distribution>) -> bool {
    b.len() == a.len() && forall|i: int|
        0 <= i < a.len() ==> (#[trigger] b[i]).id == a[i].id && b[i].name@ == a[i].name@
            && b[i].parent_ids@ == a[i].parent_ids@ && b[i].is_product == a[i].is_product
}

/// Every parent of the node at `i` resolves to a strictly earlier position:
/// the ancestors-first ordering that makes one recomputation pass converge.
pub open spec fn parents_strictly_before(s: Seq<Distribution>, i: int) -> bool {
    forall|j: int|
        0 <= j < s[i].parent_ids@.len() ==> contains_id(s, #[trigger] s[i].parent_ids@[j])
            && idx_of(s, s[i].parent_ids@[j]) < i
}

/// Resolution depends only on the identifiers: two stores that agree on
/// identifiers position by position resolve alike.
pub proof fn lemma_same_ids_resolution(a: Seq<Distribution>, b: Seq<Distribution>, id: u32)
    requires
        ids_sorted(a),
        b.len() == a.len(),
        forall|k: int| 0 <= k < a.len() ==> (#[trigger] b[k]).id == a[k].id,
    ensures
        contains_id(a, id) == contains_id(b, id),
        contains_id(a, id) ==> idx_of(b, id) == idx_of(a, id),
{
    assert(ids_sorted(b));
    if contains_id(a, id) {
        let i = idx_of(a, id);
        assert(0 <= i < a.len() && a[i].id == id);
        lemma_idx_unique(b, id, i);
        lemma_idx_unique(a, id, i);
    }
    if contains_id(b, id) {
        let i = idx_of(b, id);
        assert(0 <= i < b.len() && b[i].id == id);
        lemma_idx_unique(a, id, i);
    }
}

/// A whole identifier list resolves alike against two stores that agree on
/// identifiers.
pub proof fn lemma_all_resolve_same(a: Seq<Distribution>, b: Seq<Distribution>, ids: Seq<u32>)
    requires
        ids_sorted(a),
        b.len() == a.len(),
        forall|k: int| 0 <= k < a.len() ==> (#[trigger] b[k]).id == a[k].id,
    ensures
        all_resolve(a, ids) == all_resolve(b, ids),
{
    assert forall|j: int| 0 <= j < ids.len() implies contains_id(a, #[trigger] ids[j])
        == contains_id(b, ids[j]) by {
        lemma_same_ids_resolution(a, b, ids[j]);
    }
    if all_resolve(a, ids) {
        assert(all_resolve(b, ids));
    }
    if all_resolve(b, ids) {
        assert(all_resolve(a, ids));
    }
}

/// Resolved parents do not change when only positions at or beyond `bound`
/// change, provided every parent resolves strictly below `bound`.
pub proof fn lemma_resolved_parents_stable(
    a: Seq<Distribution>,
    b: Seq<Distribution>,
    ids: Seq<u32>,
    bound: int,
)
    requires
        ids_sorted(a),
        b.len() == a.len(),
        forall|k: int| 0 <= k < a.len() ==> (#[trigger] b[k]).id == a[k].id,
        forall|k: int| 0 <= k < bound ==> #[trigger] b[k] == a[k],
        forall|j: int|
            0 <= j < ids.len() ==> contains_id(a, #[trigger] ids[j]) && idx_of(a, ids[j])
                < bound,
    ensures
        resolved_parents(b, ids) == resolved_parents(a, ids),
{
    assert forall|j: int| 0 <= j < ids.len() implies #[trigger] resolved_parents(b, ids)[j]
        == resolved_parents(a, ids)[j] by {
        lemma_same_ids_resolution(a, b, ids[j]);
        let k = idx_of(a, ids[j]);
        assert(node_at(b, ids[j]) == b[k]);
        assert(b[k] == a[k]);
    }
    assert(resolved_parents(b, ids) =~= resolved_parents(a, ids));
}

impl Graph {
    /// The nodes the identifiers resolve to, skipping unknown identifiers,
    /// in list order; each returned node is a copy of the stored one.
    fn resolve_subset(&self, ids: &Vec<u32>) -> (r: Vec<Distribution>)
        requires
            self.wf(),
        ensures
            r@.len() == resolved_sub(self.nodes@, ids@).len(),
            forall|k: int|
                0 <= k < r@.len() ==> (#[trigger] r@[k]).eqv(resolved_sub(self.nodes@, ids@)[k]),
            parents_valid(r@, r@.len() as int),
    {
        let ghost s = self.nodes@;
        let mut r: Vec<Distribution> = Vec::new();
        let mut j: usize = 0;
        while j < ids.len()
            invariant
                0 <= j <= ids@.len(),
                self.wf(),
                s == self.nodes@,
                r@.len() == resolved_sub(s, ids@.subrange(0, j as int)).len(),
                forall|k: int|
                    0 <= k < r@.len() ==> (#[trigger] r@[k]).eqv(
                        resolved_sub(s, ids@.subrange(0, j as int))[k],
                    ),
                parents_valid(r@, r@.len() as int),
            decreases ids@.len() - j,
        {
            let ghost pre = ids@.subrange(0, j as int);
            let ghost cur = ids@.subrange(0, j + 1);
            proof {
                assert(cur.drop_last() == pre);
                assert(cur.last() == ids@[j as int]);
            }
            match self.find_index(ids[j]) {
                Some(i) => {
                    let node = self.nodes[i].duplicate();
                    proof {
                        lemma_idx_unique(s, ids@[j as int], i as int);
                        assert(resolved_sub(s, cur) == resolved_sub(s, pre).push(
                            node_at(s, ids@[j as int]),
                        ));
                        assert(node.eqv(node_at(s, ids@[j as int])));
                        assert(s[i as int].valid());
                        assert(node.valid());
                    }
                    r.push(node);
                },
                None => {
                    proof {
                        assert(resolved_sub(s, cur) == resolved_sub(s, pre));
                    }
                },
            }
            j = j + 1;
        }
        proof {
            assert(ids@.subrange(0, ids@.len() as int) == ids@);
        }
        r
    }

    /// Fuse the nodes the identifiers resolve to into a new product node.
    ///
    /// Fails with `InsufficientParents`, and performs no mutation, when
    /// fewer than two identifiers resolve; otherwise the product's mean and
    /// variance come from the fusion of the resolved nodes, its standard
    /// deviation is the grid square root of that variance, the identifier
    /// list is stored verbatim, and a fresh identifier is allocated.
    pub fn fuse_selected(&mut self, name: String, ids: &Vec<u32>) -> (r: Result<u32, EngineError>)
        requires
            old(self).wf(),
        ensures
            r is Ok <==> resolved_sub(old(self).nodes@, ids@).len() >= 2 && spec_fuse(
                resolved_sub(old(self).nodes@, ids@),
            ) is Some && old(self).next_id < u32::MAX,
            r matches Ok(id) ==> id == old(self).next_id && final(self).next_id == old(self).next_id + 1 && final(self).nodes@.len() == old(self).nodes@.len() + 1 && final(self).nodes@.subrange(0, old(self).nodes@.len() as int) == old(self).nodes@,
            r matches Ok(id) ==> final(self).nodes@.last().id == id && final(self).nodes@.last().name@ == name@ && final(self).nodes@.last().parent_ids@ == ids@
                && final(self).nodes@.last().is_product == true,
            r is Ok ==> (spec_fuse(resolved_sub(old(self).nodes@, ids@)) matches Some(mv)
                && final(self).nodes@.last().mean == mv.0 && Some(final(self).nodes@.last().std_dev)
                == norm_rat(sqrt_k(mv.1), SQRT_SCALE as int)),
            r is Ok ==> final(self).show_shading == old(self).show_shading && final(self).shading_opacity == old(self).shading_opacity && final(self).show_std_markers == old(self).show_std_markers && final(self).plot_bounds == old(self).plot_bounds,
            r is Err ==> *final(self) == *old(self),
            r matches Err(e) ==> if resolved_sub(old(self).nodes@, ids@).len() < 2 {
                e is InsufficientParents
            } else {
                e is Overflow
            },
            final(self).wf(),
    {
        let parents = self.resolve_subset(ids);
        if parents.len() < 2 {
            return Err(EngineError::InsufficientParents);
        }
        if self.next_id == u32::MAX {
            return Err(EngineError::Overflow);
        }
        proof {
            lemma_spec_fuse_same_params(parents@, resolved_sub(self.nodes@, ids@));
        }
        let product = match Distribution::new_product(
            self.next_id,
            name,
            clone_id_vec(ids),
            &parents,
        ) {
            Ok(p) => p,
            Err(_) => {
                return Err(EngineError::Overflow);
            },
        };
        let id = self.next_id;
        self.nodes.push(product);
        self.next_id = id + 1;
        proof {
            assert(final(self).nodes@.subrange(0, old(self).nodes@.len() as int) == old(self).nodes@);
        }
        Ok(id)
    }
}

impl Graph {
    /// The nodes the identifiers resolve to, or `None` if any identifier is
    /// unknown; each returned node is a copy of the stored one.
    fn resolve_all(&self, ids: &Vec<u32>) -> (r: Option<Vec<Distribution>>)
        requires
            self.wf(),
        ensures
            r is Some <==> all_resolve(self.nodes@, ids@),
            r matches Some(v) ==> v@.len() == ids@.len() && (forall|k: int|
                0 <= k < ids@.len() ==> (#[trigger] v@[k]).eqv(
                    resolved_parents(self.nodes@, ids@)[k],
                )) && parents_valid(v@, v@.len() as int),
    {
        let ghost s = self.nodes@;
        let mut r: Vec<Distribution> = Vec::new();
        let mut j: usize = 0;
        while j < ids.len()
            invariant
                0 <= j <= ids@.len(),
                self.wf(),
                s == self.nodes@,
                r@.len() == j,
                forall|k: int|
                    0 <= k < j ==> contains_id(s, #[trigger] ids@[k]) && r@[k].eqv(
                        resolved_parents(s, ids@)[k],
                    ),
                parents_valid(r@, r@.len() as int),
            decreases ids@.len() - j,
        {
            match self.find_index(ids[j]) {
                Some(i) => {
                    let node = self.nodes[i].duplicate();
                    proof {
                        lemma_idx_unique(s, ids@[j as int], i as int);
                        assert(node.eqv(node_at(s, ids@[j as int])));
                        assert(node.valid());
                    }
                    r.push(node);
                },
                None => {
                    proof {
                        assert(!contains_id(s, ids@[j as int]));
                        assert(!all_resolve(s, ids@));
                    }
                    return None;
                },
            }
            j = j + 1;
        }
        Some(r)
    }

    /// One recomputation pass, in identifier order.
    ///
    /// Every product node whose parents all resolve is overwritten with the
    /// fusion of its parents' current values; a product with a dangling
    /// parent — or one whose fusion cannot be represented — keeps its stored
    /// values, silently.  Because an engine-built product always lists
    /// parents with smaller identifiers, ancestors are recomputed first and
    /// a single pass converges for chains of products: afterwards every
    /// ancestor-ordered product equals the fusion of its parents' final
    /// values.
    pub fn recompute_products(&mut self)
        requires
            old(self).wf(),
        ensures
            same_structure(old(self).nodes@, final(self).nodes@),
            final(self).next_id == old(self).next_id,
            final(self).show_shading == old(self).show_shading,
            final(self).shading_opacity == old(self).shading_opacity,
            final(self).show_std_markers == old(self).show_std_markers,
            final(self).plot_bounds == old(self).plot_bounds,
            forall|i: int|
                0 <= i < old(self).nodes@.len() && !old(self).nodes@[i].is_product ==> final(self).nodes@[i] == old(self).nodes@[i],
            forall|i: int|
                0 <= i < old(self).nodes@.len() && old(self).nodes@[i].is_product
                    && !all_resolve(old(self).nodes@, (#[trigger] old(self).nodes@[i]).parent_ids@)
                    ==> final(self).nodes@[i].mean == old(self).nodes@[i].mean && final(self).nodes@[i].std_dev == old(self).nodes@[i].std_dev,
            forall|i: int|
                0 <= i < old(self).nodes@.len() && old(self).nodes@[i].is_product && all_resolve(
                    old(self).nodes@,
                    (#[trigger] old(self).nodes@[i]).parent_ids@,
                ) && parents_strictly_before(old(self).nodes@, i) ==> (match spec_fuse(
                    resolved_parents(final(self).nodes@, old(self).nodes@[i].parent_ids@),
                ) {
                    Some(mv) => final(self).nodes@[i].mean == mv.0 && Some(
                        final(self).nodes@[i].std_dev,
                    ) == norm_rat(sqrt_k(mv.1), SQRT_SCALE as int),
                    None => final(self).nodes@[i].mean == old(self).nodes@[i].mean && final(self).nodes@[i].std_dev == old(self).nodes@[i].std_dev,
                }),
            final(self).wf(),
            recompute_rel(old(self).nodes@, final(self).nodes@),
    {
        let ghost g0 = old(self).nodes@;
        let n = self.nodes.len();
        let mut i: usize = 0;
        while i < n
            invariant
                0 <= i <= n,
                n == g0.len(),
                n == self.nodes@.len(),
                old(self).wf(),
                g0 == old(self).nodes@,
                self.next_id == old(self).next_id,
                self.show_shading == old(self).show_shading,
                self.shading_opacity == old(self).shading_opacity,
                self.show_std_markers == old(self).show_std_markers,
                self.plot_bounds == old(self).plot_bounds,
                same_structure(g0, self.nodes@),
                forall|j: int| i <= j < n ==> #[trigger] self.nodes@[j] == g0[j],
                forall|j: int|
                    0 <= j < i && !g0[j].is_product ==> #[trigger] self.nodes@[j] == g0[j],
                forall|j: int|
                    0 <= j < i && g0[j].is_product && !all_resolve(
                        g0,
                        (#[trigger] g0[j]).parent_ids@,
                    ) ==> self.nodes@[j].mean == g0[j].mean && self.nodes@[j].std_dev
                        == g0[j].std_dev,
                forall|j: int|
                    0 <= j < i && g0[j].is_product && all_resolve(
                        g0,
                        (#[trigger] g0[j]).parent_ids@,
                    ) && parents_strictly_before(g0, j) ==> (match spec_fuse(
                        resolved_parents(self.nodes@, g0[j].parent_ids@),
                    ) {
                        Some(mv) => self.nodes@[j].mean == mv.0 && Some(self.nodes@[j].std_dev)
                            == norm_rat(sqrt_k(mv.1), SQRT_SCALE as int),
                        None => self.nodes@[j].mean == g0[j].mean && self.nodes@[j].std_dev
                            == g0[j].std_dev,
                    }),
                forall|j: int| 0 <= j < n ==> (#[trigger] self.nodes@[j]).valid(),
            decreases n - i,
        {
            let ghost pre = self.nodes@;
            let node_is_product = self.nodes[i].is_product;
            if node_is_product {
                let pids = clone_id_vec(&self.nodes[i].parent_ids);
                proof {
                    assert(self.wf());
                    lemma_all_resolve_same(g0, pre, pids@);
                }
                match self.resolve_all(&pids) {
                    None => {
                        proof {
                            assert(!all_resolve(g0, g0[i as int].parent_ids@));
                        }
                    },
                    Some(parents) => {
                        match multiply_gaussians(&parents) {
                            Ok(mv) => {
                                let sd = sqrt_rat(mv.1);
                                let name = self.nodes[i].name.clone();
                                let parent_ids = clone_id_vec(&self.nodes[i].parent_ids);
                                let id = self.nodes[i].id;
                                let node = Distribution {
                                    id,
                                    name,
                                    mean: mv.0,
                                    std_dev: sd,
                                    parent_ids,
                                    is_product: true,
                                };
                                self.nodes.set(i, node);
                                proof {
                                    lemma_spec_fuse_same_params(
                                        parents@,
                                        resolved_parents(pre, pids@),
                                    );
                                    if parents_strictly_before(g0, i as int) {
                                        lemma_resolved_parents_stable(
                                            pre,
                                            self.nodes@,
                                            pids@,
                                            i as int,
                                        );
                                    }
                                }
                            },
                            Err(_) => {
                                proof {
                                    lemma_spec_fuse_same_params(
                                        parents@,
                                        resolved_parents(pre, pids@),
                                    );
                                    if parents_strictly_before(g0, i as int) {
                                        lemma_resolved_parents_stable(
                                            pre,
                                            self.nodes@,
                                            pids@,
                                            i as int,
                                        );
                                    }
                                }
                            },
                        }
                    },
                }
            }
            proof {
                // earlier products' parents resolve strictly below them, so
                // nothing this iteration wrote affects their fused values
                assert forall|j: int|
                    0 <= j < i + 1 && g0[j].is_product && all_resolve(
                        g0,
                        (#[trigger] g0[j]).parent_ids@,
                    ) && parents_strictly_before(g0, j) implies (match spec_fuse(
                        resolved_parents(self.nodes@, g0[j].parent_ids@),
                    ) {
                        Some(mv) => self.nodes@[j].mean == mv.0 && Some(self.nodes@[j].std_dev)
                            == norm_rat(sqrt_k(mv.1), SQRT_SCALE as int),
                        None => self.nodes@[j].mean == g0[j].mean && self.nodes@[j].std_dev
                            == g0[j].std_dev,
                    }) by {
                    if j < i as int {
                        assert forall|t: int| 0 <= t < g0[j].parent_ids@.len() implies contains_id(
                            pre,
                            #[trigger] g0[j].parent_ids@[t],
                        ) && idx_of(pre, g0[j].parent_ids@[t]) < i as int by {
                            lemma_same_ids_resolution(g0, pre, g0[j].parent_ids@[t]);
                            assert(idx_of(g0, g0[j].parent_ids@[t]) < j);
                        }
                        lemma_resolved_parents_stable(
                            pre,
                            self.nodes@,
                            g0[j].parent_ids@,
                            i as int,
                        );
                    }
                }
            }
            i = i + 1;
        }
    }
}

/// Ancestor ordering transfers between stores with the same structure.
proof fn lemma_before_same(a: Seq<Distribution>, b: Seq<Distribution>, i: int)
    requires
        ids_sorted(a),
        same_structure(a, b),
        0 <= i < a.len(),
        parents_strictly_before(a, i),
    ensures
        parents_strictly_before(b, i),
{
    assert forall|j: int| 0 <= j < b[i].parent_ids@.len() implies contains_id(
        b,
        #[trigger] b[i].parent_ids@[j],
    ) && idx_of(b, b[i].parent_ids@[j]) < i by {
        assert(b[i].parent_ids@ == a[i].parent_ids@);
        lemma_same_ids_resolution(a, b, a[i].parent_ids@[j]);
    }
}

/// Recomputation is idempotent: after one pass in ancestor order, a second
/// pass with unchanged leaves leaves every node's mean and standard
/// deviation exactly as the first pass left them.  This holds for every
/// store whose resolvable products list only ancestors, as every
/// engine-built product does; a hand-made self-referential product is
/// outside it.
pub proof fn law_recompute_idempotent(
    a: Seq<Distribution>,
    b: Seq<Distribution>,
    c: Seq<Distribution>,
)
    requires
        ids_sorted(a),
        forall|i: int|
            0 <= i < a.len() && (#[trigger] a[i]).is_product && all_resolve(a, a[i].parent_ids@)
                ==> parents_strictly_before(a, i),
        recompute_rel(a, b),
        recompute_rel(b, c),
    ensures
        forall|i: int|
            0 <= i < a.len() ==> (#[trigger] c[i]).mean == b[i].mean && c[i].std_dev
                == b[i].std_dev,
{
    lemma_recompute_idempotent_upto(a, b, c, a.len() as int);
}

/// Strong induction behind `law_recompute_idempotent`.
proof fn lemma_recompute_idempotent_upto(
    a: Seq<Distribution>,
    b: Seq<Distribution>,
    c: Seq<Distribution>,
    k: int,
)
    requires
        ids_sorted(a),
        forall|i: int|
            0 <= i < a.len() && (#[trigger] a[i]).is_product && all_resolve(a, a[i].parent_ids@)
                ==> parents_strictly_before(a, i),
        recompute_rel(a, b),
        recompute_rel(b, c),
        0 <= k <= a.len(),
    ensures
        forall|i: int|
            0 <= i < k ==> (#[trigger] c[i]).mean == b[i].mean && c[i].std_dev == b[i].std_dev,
    decreases k,
{
    if k > 0 {
        lemma_recompute_idempotent_upto(a, b, c, k - 1);
        let i = k - 1;
        assert(ids_sorted(b)) by {
            assert(same_structure(a, b));
        }
        if !a[i].is_product {
            assert(b[i] == a[i]);
            assert(!b[i].is_product);
            assert(c[i] == b[i]);
        } else {
            let pids = a[i].parent_ids@;
            assert(b[i].is_product && b[i].parent_ids@ == pids);
            lemma_all_resolve_same(a, b, pids);
            if !all_resolve(a, pids) {
                assert(b[i].mean == a[i].mean && b[i].std_dev == a[i].std_dev);
                assert(c[i].mean == b[i].mean && c[i].std_dev == b[i].std_dev);
            } else {
                assert(parents_strictly_before(a, i));
                lemma_before_same(a, b, i);
                assert(parents_strictly_before(b, i));
                // parents sit strictly below i, where the induction
                // hypothesis equates the two passes' values
                let rb = resolved_parents(b, pids);
                let rc = resolved_parents(c, pids);
                assert(rb.len() == rc.len());
                assert forall|t: int| 0 <= t < rb.len() implies (#[trigger] rc[t]).mean
                    == rb[t].mean && rc[t].std_dev == rb[t].std_dev by {
                    lemma_same_ids_resolution(a, b, pids[t]);
                    assert(same_structure(a, b) && same_structure(b, c));
                    assert(c.len() == a.len() && forall|q: int|
                        0 <= q < a.len() ==> (#[trigger] c[q]).id == a[q].id);
                    lemma_same_ids_resolution(a, c, pids[t]);
                    let p = idx_of(a, pids[t]);
                    assert(idx_of(a, pids[t]) < i);
                    assert(rb[t] == b[p] && rc[t] == c[p]);
                }
                lemma_spec_fuse_same_params(rc, rb);
                assert(spec_fuse(rc) == spec_fuse(rb));
                match spec_fuse(rb) {
                    Some(mv) => {
                        assert(b[i].mean == mv.0 && Some(b[i].std_dev) == norm_rat(
                            sqrt_k(mv.1),
                            SQRT_SCALE as int,
                        ));
                        assert(c[i].mean == mv.0 && Some(c[i].std_dev) == norm_rat(
                            sqrt_k(mv.1),
                            SQRT_SCALE as int,
                        ));
                    },
                    None => {
                        assert(c[i].mean == b[i].mean && c[i].std_dev == b[i].std_dev);
                    },
                }
            }
        }
    }
}

/// Deleting a node dangles every edge that pointed at it: the deleted
/// identifier no longer resolves, so a recomputation pass leaves a product
/// that listed it with exactly the values it had before the deletion.
pub proof fn law_dangling_parent_keeps_values(
    s: Seq<Distribution>,
    k: int,
    i: int,
    u: Seq<Distribution>,
)
    requires
        ids_sorted(s),
        0 <= k < s.len(),
        0 <= i < s.len(),
        i != k,
        s[i].is_product,
        s[i].parent_ids@.contains(s[k].id),
        recompute_rel(s.remove(k), u),
    ensures
        u[if i < k {
            i
        } else {
            i - 1
        }].mean == s[i].mean,
        u[if i < k {
            i
        } else {
            i - 1
        }].std_dev == s[i].std_dev,
{
    let t = s.remove(k);
    let ii = if i < k {
        i
    } else {
        i - 1
    };
    assert(t[ii] == s[i]);
    assert(!contains_id(t, s[k].id)) by {
        if contains_id(t, s[k].id) {
            let j = idx_of(t, s[k].id);
            assert(0 <= j < t.len() && t[j].id == s[k].id);
            if j < k {
                assert(t[j] == s[j]);
                assert(ids_sorted(s));
                assert(false);
            } else {
                assert(t[j] == s[j + 1]);
                assert(ids_sorted(s));
                assert(false);
            }
        }
    }
    assert(!all_resolve(t, t[ii].parent_ids@)) by {
        let w = choose|w: int| 0 <= w < s[i].parent_ids@.len() && s[i].parent_ids@[w] == s[k].id;
        assert(t[ii].parent_ids@[w] == s[k].id);
    }
}

/// The smallest mean among the first `i` nodes, as folded left to right.
pub open spec fn fold_min_mean(s: Seq<Distribution>, i: int) -> Rat
    decreases i,
{
    if i <= 1 {
        s[0].mean
    } else {
        let m = fold_min_mean(s, i - 1);
        if s[i - 1].mean.val_lt(m) {
            s[i - 1].mean
        } else {
            m
        }
    }
}

/// The largest mean among the first `i` nodes, as folded left to right.
pub open spec fn fold_max_mean(s: Seq<Distribution>, i: int) -> Rat
    decreases i,
{
    if i <= 1 {
        s[0].mean
    } else {
        let m = fold_max_mean(s, i - 1);
        if m.val_lt(s[i - 1].mean) {
            s[i - 1].mean
        } else {
            m
        }
    }
}

/// The largest standard deviation among the first `i` nodes.
pub open spec fn fold_max_std(s: Seq<Distribution>, i: int) -> Rat
    decreases i,
{
    if i <= 1 {
        s[0].std_dev
    } else {
        let m = fold_max_std(s, i - 1);
        if m.val_lt(s[i - 1].std_dev) {
            s[i - 1].std_dev
        } else {
            m
        }
    }
}

/// Numerator of the approximation of `2 * pi` the viewport fitter uses for
/// its peak-height bound (twice the convergent `245850922 / 78256779`).
pub const TWO_PI_NUM: i64 = 491701844;

/// Denominator of the same approximation of `2 * pi`.
pub const TWO_PI_DEN: i64 = 78256779;

/// The fitted window, exactly as computed over a non-empty node store: the
/// margin `4 * max std_dev`, the two x-edges, the squared widest deviation,
/// its multiple of `2 * pi`, the grid square root, and the peak height
/// `11/10` divided by that root — each step reduced, `None` once a reduced
/// fraction cannot be represented.
pub open spec fn spec_autofit(s: Seq<Distribution>) -> Option<Bounds> {
    let mm = fold_min_mean(s, s.len() as int);
    let xm = fold_max_mean(s, s.len() as int);
    let xs = fold_max_std(s, s.len() as int);
    match norm_rat(4 * xs.num, 1 * xs.den) {
        None => None,
        Some(t) => match norm_rat(mm.num * t.den - t.num * mm.den, mm.den * t.den) {
            None => None,
            Some(lo) => match norm_rat(xm.num * t.den + t.num * xm.den, xm.den * t.den) {
                None => None,
                Some(hi) => match norm_rat(xs.num * xs.num, xs.den * xs.den) {
                    None => None,
                    Some(s2) => match norm_rat(
                        (TWO_PI_NUM as int) * s2.num,
                        (TWO_PI_DEN as int) * s2.den,
                    ) {
                        None => None,
                        Some(tp) => match norm_rat(sqrt_k(tp), SQRT_SCALE as int) {
                            None => None,
                            Some(srt) => match norm_rat(11 * srt.den, 10 * srt.num) {
                                None => None,
                                Some(ym) => Some(
                                    Bounds {
                                        x_min: lo,
                                        x_max: hi,
                                        y_min: Rat { num: 0, den: 1 },
                                        y_max: ym,
                                    },
                                ),
                            },
                        },
                    },
                },
            },
        },
    }
}

impl Graph {
    /// Fit the plot window to the nodes: horizontally the means extended by
    /// four largest standard deviations, vertically from zero to `1.1`
    /// times the peak height `1 / (s * sqrt(2 * pi))` of the widest node
    /// (computed over the rational approximation `TWO_PI_NUM / TWO_PI_DEN`
    /// and the grid square root).  An empty graph is left untouched; on a
    /// non-empty graph the call succeeds, and stores exactly `spec_autofit`,
    /// unless a reduced fraction of that computation cannot be represented.
    pub fn auto_fit_view(&mut self) -> (r: Result<(), EngineError>)
        requires
            old(self).wf(),
        ensures
            r is Ok <==> old(self).nodes@.len() == 0 || spec_autofit(old(self).nodes@) is Some,
            old(self).nodes@.len() == 0 ==> r is Ok && *final(self) == *old(self),
            r is Ok && old(self).nodes@.len() > 0 ==> final(self).plot_bounds == Some(
                spec_autofit(old(self).nodes@)->Some_0,
            ),
            r matches Err(e) ==> e is Overflow && *final(self) == *old(self),
            r is Ok ==> final(self).nodes@ == old(self).nodes@ && final(self).next_id == old(self).next_id && final(self).show_shading == old(self).show_shading && final(self).shading_opacity == old(self).shading_opacity && final(self).show_std_markers == old(self).show_std_markers,
            r is Ok && old(self).nodes@.len() > 0 ==> (final(self).plot_bounds matches Some(b) && {
                let mm = fold_min_mean(old(self).nodes@, old(self).nodes@.len() as int);
                let xm = fold_max_mean(old(self).nodes@, old(self).nodes@.len() as int);
                let xs = fold_max_std(old(self).nodes@, old(self).nodes@.len() as int);
                &&& b.x_min.wf() && b.x_min.is_ratio(
                    mm.num * xs.den - (4 * xs.num) * mm.den,
                    mm.den * xs.den,
                )
                &&& b.x_max.wf() && b.x_max.is_ratio(
                    xm.num * xs.den + (4 * xs.num) * xm.den,
                    xm.den * xs.den,
                )
                &&& b.y_min == (Rat { num: 0, den: 1 })
                &&& b.y_max.wf() && b.y_max.num > 0
            }),
            final(self).wf(),
    {
        let n = self.nodes.len();
        if n == 0 {
            return Ok(());
        }
        let ghost s = self.nodes@;
        let mut mm = self.nodes[0].mean;
        let mut xm = self.nodes[0].mean;
        let mut xs = self.nodes[0].std_dev;
        let mut i: usize = 1;
        while i < n
            invariant
                1 <= i <= n,
                n == s.len(),
                s == self.nodes@,
                old(self).wf(),
                s == old(self).nodes@,
                mm == fold_min_mean(s, i as int),
                xm == fold_max_mean(s, i as int),
                xs == fold_max_std(s, i as int),
                mm.wf(),
                xm.wf(),
                xs.wf(),
                xs.num > 0,
            decreases n - i,
        {
            let cand = self.nodes[i].mean;
            if rat_lt(&cand, &mm) {
                mm = cand;
            }
            let cand2 = self.nodes[i].mean;
            if rat_lt(&xm, &cand2) {
                xm = cand2;
            }
            let cand3 = self.nodes[i].std_dev;
            if rat_lt(&xs, &cand3) {
                xs = cand3;
            }
            i = i + 1;
        }
        let t = match checked_mul(Rat { num: 4, den: 1 }, xs) {
            Some(t) => t,
            None => {
                proof {
                    assert(spec_autofit(s) is None);
                }
                return Err(EngineError::Overflow);
            },
        };
        proof {
            assert(Some(t) == norm_rat(4 * xs.num, 1 * xs.den));
        }
        let lo = match checked_sub(mm, t) {
            Some(v) => v,
            None => {
                proof {
                    assert(spec_autofit(s) is None);
                }
                return Err(EngineError::Overflow);
            },
        };
        let hi = match checked_add(xm, t) {
            Some(v) => v,
            None => {
                proof {
                    assert(spec_autofit(s) is None);
                }
                return Err(EngineError::Overflow);
            },
        };
        let s2 = match checked_mul(xs, xs) {
            Some(v) => v,
            None => {
                proof {
                    assert(spec_autofit(s) is None);
                }
                return Err(EngineError::Overflow);
            },
        };
        let tp = match checked_mul(Rat { num: TWO_PI_NUM, den: TWO_PI_DEN }, s2) {
            Some(v) => v,
            None => {
                proof {
                    assert(spec_autofit(s) is None);
                }
                return Err(EngineError::Overflow);
            },
        };
        proof {
            assert(xs.num * xs.num > 0 && xs.den * xs.den > 0) by (nonlinear_arith)
                requires
                    xs.num > 0,
                    xs.den > 0,
            ;
            crate::rat::lemma_ratio_pos(s2, xs.num * xs.num, xs.den * xs.den);
            assert((TWO_PI_NUM as int) * s2.num > 0 && (TWO_PI_DEN as int) * s2.den > 0) by (
            nonlinear_arith)
                requires
                    s2.num > 0,
                    s2.den > 0,
                    TWO_PI_NUM as int == 491701844,
                    TWO_PI_DEN as int == 78256779,
            ;
            crate::rat::lemma_ratio_pos(tp, TWO_PI_NUM * s2.num, TWO_PI_DEN * s2.den);
        }
        let srt = sqrt_rat(tp);
        let ym = match checked_div(Rat { num: 11, den: 10 }, srt) {
            Some(v) => v,
            None => {
                proof {
                    assert(Some(srt) == norm_rat(sqrt_k(tp), SQRT_SCALE as int));
                    assert(spec_autofit(s) is None);
                }
                return Err(EngineError::Overflow);
            },
        };
        proof {
            assert(11 * srt.den > 0 && 10 * srt.num > 0);
            crate::rat::lemma_ratio_pos(ym, 11 * srt.den, 10 * srt.num);
            crate::rat::lemma_mul_respects(Rat { num: 4, den: 1 }, xs, t, 4, 1, xs.num as int,
                xs.den as int);
            assert(t.is_ratio(4 * xs.num, 1 * xs.den));
            crate::rat::lemma_sub_respects(mm, t, lo, mm.num as int, mm.den as int, 4 * xs.num,
                xs.den as int);
            crate::rat::lemma_add_respects(xm, t, hi, xm.num as int, xm.den as int, 4 * xs.num,
                xs.den as int);
        }
        proof {
            assert(Some(srt) == norm_rat(sqrt_k(tp), SQRT_SCALE as int));
            assert(spec_autofit(s) == Some(
                Bounds { x_min: lo, x_max: hi, y_min: Rat { num: 0, den: 1 }, y_max: ym },
            ));
        }
        self.plot_bounds = Some(Bounds { x_min: lo, x_max: hi, y_min: Rat { num: 0, den: 1 }, y_max: ym });
        Ok(())
    }

    /// The x-range to plot: the stored window, or the default `[-6, 6]`.
    pub fn get_plot_range(&self) -> (r: (Rat, Rat))
        ensures
            self.plot_bounds matches Some(b) ==> r == (b.x_min, b.x_max),
            self.plot_bounds is None ==> r == (Rat { num: -6i64, den: 1 }, Rat { num: 6, den: 1 }),
    {
        match &self.plot_bounds {
            Some(b) => (b.x_min, b.x_max),
            None => (Rat { num: -6, den: 1 }, Rat { num: 6, den: 1 }),
        }
    }

    /// Store a plot window chosen by the caller (a pan or zoom).
    pub fn set_plot_bounds(&mut self, b: Bounds)
        requires
            old(self).wf(),
            b.wf(),
        ensures
            final(self).plot_bounds == Some(b),
            final(self).nodes@ == old(self).nodes@,
            final(self).next_id == old(self).next_id,
            final(self).show_shading == old(self).show_shading,
            final(self).shading_opacity == old(self).shading_opacity,
            final(self).show_std_markers == old(self).show_std_markers,
            final(self).wf(),
    {
        self.plot_bounds = Some(b);
    }
}

} // verus!
