use vstd::prelude::*;
use crate::color::{Color, color_diff, spec_color_diff};
use crate::grid::{JoinRule, count_of, joined_equal, num_dirs, step, linked, is_path, joined_step};
use crate::region::{all_labelled, neighbour_count, perimeter, borders, neighbours_of};
use crate::runner::ColorSpace;
use crate::builder::spec_patch_good;

verus! {

/// One region of the hierarchy.
#[derive(Debug, PartialEq, Eq)]
pub struct Cluster {
    /// The cluster this one was split from.
    pub parent: Option<usize>,
    /// The clusters this one was split into; empty for a leaf.
    pub children: Vec<usize>,
    /// The color of the cluster's first pixel in scan order.
    pub color: Color,
    /// Pixel count.
    pub area: usize,
    /// Border length against other clusters (image edges excluded).
    pub perimeter: usize,
    /// At most the configured number of distinct neighbours.
    pub hollow: bool,
    /// The background cluster that gathers key-colored pixels.
    pub reserved: bool,
    /// The base cluster this one descends from (itself, for a base cluster).
    pub root: usize,
    /// The pixel the cluster was grown from.
    pub seed: usize,
}

/// The settings that drive construction.
#[derive(Clone, Copy, Debug, PartialEq, Eq, Structural)]
pub struct BuildConfig {
    pub diagonal: bool,
    pub max_depth: u32,
    pub batch_size: u32,
    pub good_min_area: usize,
    pub good_max_area: usize,
    pub rule: JoinRule,
    pub deepen_diff: i32,
    pub hollow_neighbours: usize,
    pub color_space: ColorSpace,
}

impl BuildConfig {
    /// The deepening predicate: the geometric gate holds and the cluster
    /// differs from its first neighbour (lowest identifier) by more than the
    /// threshold. A cluster without neighbours is never split.
    pub fn deepen(&self, area: usize, perimeter: usize, first_neighbour_diff: Option<i32>) -> (r: bool)
        ensures
            r == (spec_patch_good(
                area as int,
                perimeter as int,
                self.good_min_area as int,
                self.good_max_area as int,
            ) && first_neighbour_diff.is_some() && first_neighbour_diff.unwrap() > self.deepen_diff),
    {
        if !crate::builder::patch_good(area, perimeter, self.good_min_area, self.good_max_area) {
            return false;
        }
        match first_neighbour_diff {
            Some(d) => d > self.deepen_diff,
            None => false,
        }
    }

    /// The hollow predicate: at most the configured number of neighbours.
    pub fn hollow(&self, neighbours: usize) -> (r: bool)
        ensures
            r == (neighbours <= self.hollow_neighbours),
    {
        neighbours <= self.hollow_neighbours
    }

    /// The color difference under the configured metric: the raw RGB
    /// distance, or what `perceptual` gives for the perceptual metric.
    pub fn diff<F: Fn(Color, Color) -> i32>(&self, perceptual: &F, a: Color, b: Color) -> (d: i32)
        requires
            forall|x: Color, y: Color| perceptual.requires((x, y)),
        ensures
            self.color_space == ColorSpace::RGB ==> d == spec_color_diff(a, b),
            self.color_space == ColorSpace::Oklab ==> perceptual.ensures((a, b), d),
    {
        match self.color_space {
            ColorSpace::RGB => color_diff(a, b),
            ColorSpace::Oklab => perceptual(a, b),
        }
    }
}

/// Facts about the clusters `0..j` that hold once construction has reached them.
pub open spec fn facts_upto(
    labels: Seq<Option<usize>>,
    w: int,
    clusters: Seq<Cluster>,
    cfg: BuildConfig,
    j: int,
) -> bool {
    forall|c: int|
        0 <= c < j && (#[trigger] clusters[c]).children@.len() == 0 ==> {
            &&& clusters[c].area == count_of(labels, Some(c as usize))
            &&& clusters[c].perimeter == perimeter(labels, w, c as usize)
            &&& clusters[c].hollow == (neighbour_count(labels, w, c as usize, clusters.len() as int)
                <= cfg.hollow_neighbours)
        }
}

/// Every pixel label names a leaf.
pub open spec fn labels_name_leaves(labels: Seq<Option<usize>>, clusters: Seq<Cluster>) -> bool {
    forall|p: int|
        0 <= p < labels.len() && (#[trigger] labels[p]).is_some() ==> labels[p].unwrap() < clusters.len()
            && clusters[labels[p].unwrap() as int].children@.len() == 0
}

/// A cluster was split only if it passed the geometric gate.
pub open spec fn split_only_good(clusters: Seq<Cluster>, cfg: BuildConfig) -> bool {
    forall|c: int|
        0 <= c < clusters.len() && (#[trigger] clusters[c]).children@.len() > 0 ==> spec_patch_good(
            clusters[c].area as int,
            clusters[c].perimeter as int,
            cfg.good_min_area as int,
            cfg.good_max_area as int,
        )
}

/// Each cluster's root is a cluster without a parent, and a cluster without
/// a parent is its own root.
pub open spec fn roots_valid(clusters: Seq<Cluster>) -> bool {
    forall|c: int|
        0 <= c < clusters.len() ==> {
            &&& (#[trigger] clusters[c]).root < clusters.len()
            &&& clusters[clusters[c].root as int].parent.is_none()
            &&& (clusters[c].parent.is_none() ==> clusters[c].root == c)
        }
}

/// Every pixel outside the reserved background is reachable through joined
/// neighbours from the seed of its base cluster.
pub open spec fn linked_to_root(
    labels: Seq<Option<usize>>,
    pixels: Seq<Color>,
    w: int,
    diagonal: bool,
    rule: JoinRule,
    clusters: Seq<Cluster>,
) -> bool {
    forall|p: int|
        0 <= p < labels.len() && (#[trigger] labels[p]).is_some()
            && !clusters[clusters[labels[p].unwrap() as int].root as int].reserved ==> linked(
            pixels,
            w,
            diagonal,
            rule,
            clusters[clusters[labels[p].unwrap() as int].root as int].seed as int,
            p,
        )
}

/// Each listed child names its parent back and comes after it; each cluster
/// with a parent is listed among that parent's children, unless the parent
/// is `except`.
pub open spec fn family_ok(clusters: Seq<Cluster>, except: int) -> bool {
    &&& forall|c: int, j: int|
        0 <= c < clusters.len() && 0 <= j < clusters[c].children@.len() ==> {
            &&& c < #[trigger] clusters[c].children@[j] < clusters.len()
            &&& clusters[clusters[c].children@[j] as int].parent == Some(c as usize)
        }
    &&& forall|x: int|
        0 <= x < clusters.len() && (#[trigger] clusters[x]).parent.is_some() ==> {
            &&& clusters[x].parent.unwrap() < x
            &&& (clusters[x].parent.unwrap() != except ==> clusters[clusters[x].parent.unwrap() as int].children@.contains(
                x as usize,
            ))
        }
}

/// Every leaf other than `except` owns its seed pixel.
pub open spec fn leaves_hold_seeds(labels: Seq<Option<usize>>, clusters: Seq<Cluster>, except: int) -> bool {
    forall|c: int|
        0 <= c < clusters.len() && c != except && (#[trigger] clusters[c]).children@.len() == 0
            ==> clusters[c].seed < labels.len() && labels[clusters[c].seed as int] == Some(c as usize)
}

/// Adjacent pixels that the join rule accepts descend from the same base cluster.
pub open spec fn joined_roots(
    labels: Seq<Option<usize>>,
    pixels: Seq<Color>,
    w: int,
    diagonal: bool,
    rule: JoinRule,
    clusters: Seq<Cluster>,
) -> bool {
    forall|p: int, d: int|
        0 <= p < labels.len() && 0 <= d < num_dirs(diagonal) && (#[trigger] step(
            w,
            labels.len() as int,
            p,
            d,
        )).is_some() && rule.joins(pixels[p], pixels[step(w, labels.len() as int, p, d).unwrap()])
            ==> clusters[labels[step(w, labels.len() as int, p, d).unwrap()].unwrap() as int].root
            == clusters[labels[p].unwrap() as int].root
}

/// With no refinement allowed, every cluster is a root and a leaf.
pub open spec fn flat_when_no_depth(clusters: Seq<Cluster>, cfg: BuildConfig) -> bool {
    cfg.max_depth == 0 ==> forall|c: int|
        0 <= c < clusters.len() ==> (#[trigger] clusters[c]).children@.len() == 0
            && clusters[c].parent.is_none()
}

/// The finished hierarchy of clusters of one image.
#[derive(Debug, PartialEq, Eq)]
pub struct Clusters {
    pub width: usize,
    pub height: usize,
    pub pixels: Vec<Color>,
    pub labels: Vec<Option<usize>>,
    pub clusters: Vec<Cluster>,
    pub config: BuildConfig,
}

impl Clusters {
    pub open spec fn spec_width(&self) -> int {
        self.width as int
    }

    pub open spec fn spec_labels(&self) -> Seq<Option<usize>> {
        self.labels@
    }

    pub open spec fn spec_clusters(&self) -> Seq<Cluster> {
        self.clusters@
    }

    pub open spec fn spec_config(&self) -> BuildConfig {
        self.config
    }

    /// The leaf that owns pixel `p`.
    pub open spec fn leaf_of(&self, p: int) -> int {
        self.labels@[p].unwrap() as int
    }

    pub open spec fn is_leaf(&self, c: int) -> bool {
        0 <= c < self.clusters@.len() && self.clusters@[c].children@.len() == 0
    }

    pub open spec fn wf(&self) -> bool {
        &&& self.width > 0 || self.labels@.len() == 0
        &&& self.labels@.len() == self.width * self.height
        &&& all_labelled(self.labels@, self.clusters@.len() as int)
        &&& labels_name_leaves(self.labels@, self.clusters@)
        &&& facts_upto(self.labels@, self.width as int, self.clusters@, self.config, self.clusters@.len() as int)
        &&& split_only_good(self.clusters@, self.config)
        &&& flat_when_no_depth(self.clusters@, self.config)
        &&& self.pixels@.len() == self.labels@.len()
        &&& roots_valid(self.clusters@)
        &&& family_ok(self.clusters@, -1)
        &&& leaves_hold_seeds(self.labels@, self.clusters@, -1)
        &&& linked_to_root(
            self.labels@,
            self.pixels@,
            self.width as int,
            self.config.diagonal,
            self.config.rule,
            self.clusters@,
        )
        &&& joined_roots(
            self.labels@,
            self.pixels@,
            self.width as int,
            self.config.diagonal,
            self.config.rule,
            self.clusters@,
        )
        &&& self.config.max_depth == 0 ==> joined_equal(
            self.labels@,
            self.pixels@,
            self.width as int,
            self.config.diagonal,
            self.config.rule,
        )
    }

    /// Number of clusters, interior ones included.
    pub fn len(&self) -> (r: usize)
        ensures
            r == self.clusters@.len(),
    {
        self.clusters.len()
    }

    pub fn width(&self) -> (r: usize)
        ensures
            r == self.width,
    {
        self.width
    }

    pub fn height(&self) -> (r: usize)
        ensures
            r == self.height,
    {
        self.height
    }

    /// The cluster with identifier `id`.
    pub fn get(&self, id: usize) -> (r: &Cluster)
        requires
            id < self.clusters@.len(),
        ensures
            *r == self.clusters@[id as int],
    {
        &self.clusters[id]
    }

    /// The leaf cluster that owns the pixel at `(x, y)`.
    pub fn cluster_at(&self, x: usize, y: usize) -> (r: usize)
        requires
            self.wf(),
            x < self.width,
            y < self.height,
        ensures
            r == self.leaf_of(y * self.width + x),
            self.is_leaf(r as int),
    {
        let n = self.labels.len();
        proof {
            assert(y * self.width + x < self.width * self.height) by (nonlinear_arith)
                requires
                    x < self.width,
                    y < self.height,
            ;
            assert(y * self.width <= y * self.width + x);
        }
        let p = y * self.width + x;
        self.labels[p].unwrap()
    }

    /// Identifiers of the leaf clusters, ascending.
    pub fn leaves(&self) -> (r: Vec<usize>)
        ensures
            forall|k: int| 0 <= k < r@.len() ==> self.is_leaf(#[trigger] r@[k] as int),
            forall|c: int| self.is_leaf(c) ==> r@.contains(c as usize),
            forall|a: int, b: int| 0 <= a < b < r@.len() ==> r@[a] < r@[b],
    {
        let mut r: Vec<usize> = Vec::new();
        let mut c: usize = 0;
        while c < self.clusters.len()
            invariant
                c <= self.clusters@.len(),
                forall|k: int| 0 <= k < r@.len() ==> self.is_leaf(#[trigger] r@[k] as int) && r@[k] < c,
                forall|i: int| 0 <= i < c && self.is_leaf(i) ==> r@.contains(i as usize),
                forall|a: int, b: int| 0 <= a < b < r@.len() ==> r@[a] < r@[b],
            decreases self.clusters@.len() - c,
        {
            if self.clusters[c].children.len() == 0 {
                let ghost before = r@;
                r.push(c);
                assert(r@[r@.len() - 1] == c);
                assert forall|v: usize| before.contains(v) implies r@.contains(v) by {
                    let k = choose|k: int| 0 <= k < before.len() && before[k] == v;
                    assert(r@[k] == v);
                }
            }
            c = c + 1;
        }
        r
    }

    /// Identifiers of the clusters that share a border with cluster `id`, ascending.
    pub fn neighbours(&self, id: usize) -> (r: Vec<usize>)
        requires
            self.wf(),
        ensures
            forall|k: int|
                0 <= k < r@.len() ==> (#[trigger] r@[k]) < self.clusters@.len() && borders(
                    self.labels@,
                    self.width as int,
                    id,
                    r@[k],
                ),
            forall|j: usize|
                j < self.clusters@.len() && borders(self.labels@, self.width as int, id, j)
                    ==> r@.contains(j),
            forall|a: int, b: int| 0 <= a < b < r@.len() ==> r@[a] < r@[b],
    {
        let mut r: Vec<usize> = Vec::new();
        if self.labels.len() == 0 {
            return r;
        }
        let adj = neighbours_of(&self.labels, self.width, id, self.clusters.len());
        let mut c: usize = 0;
        while c < adj.len()
            invariant
                c <= adj@.len(),
                adj@.len() == self.clusters@.len(),
                forall|i: int|
                    0 <= i < adj@.len() ==> adj@[i] == borders(self.labels@, self.width as int, id, i as usize),
                forall|k: int|
                    0 <= k < r@.len() ==> (#[trigger] r@[k]) < self.clusters@.len() && borders(
                        self.labels@,
                        self.width as int,
                        id,
                        r@[k],
                    ) && r@[k] < c,
                forall|a: int, b: int| 0 <= a < b < r@.len() ==> r@[a] < r@[b],
                forall|j: usize|
                    j < c && borders(self.labels@, self.width as int, id, j) ==> r@.contains(j),
            decreases adj@.len() - c,
        {
            assert(adj@[c as int] == borders(self.labels@, self.width as int, id, c));
            let ghost r0 = r@;
            if adj[c] {
                let ghost before = r@;
                r.push(c);
                assert(r@[r@.len() - 1] == c);
                assert forall|v: usize| before.contains(v) implies r@.contains(v) by {
                    let k = choose|k: int| 0 <= k < before.len() && before[k] == v;
                    assert(r@[k] == v);
                }
                assert(r@.contains(c));
            }
            assert forall|j: usize|
                j < c + 1 && borders(self.labels@, self.width as int, id, j) implies r@.contains(j) by {
                if j == c {
                    assert(adj@[j as int]);
                } else {
                    assert(r0.contains(j));
                }
            }
            c = c + 1;
        }
        r
    }

    /// Identifiers of the clusters without a parent, ascending.
    pub fn roots(&self) -> (r: Vec<usize>)
        ensures
            forall|k: int|
                0 <= k < r@.len() ==> (#[trigger] r@[k]) < self.clusters@.len()
                    && self.clusters@[r@[k] as int].parent.is_none(),
            forall|c: int|
                0 <= c < self.clusters@.len() && self.clusters@[c].parent.is_none() ==> r@.contains(
                    c as usize,
                ),
            forall|a: int, b: int| 0 <= a < b < r@.len() ==> r@[a] < r@[b],
    {
        let mut r: Vec<usize> = Vec::new();
        let mut c: usize = 0;
        while c < self.clusters.len()
            invariant
                c <= self.clusters@.len(),
                forall|k: int|
                    0 <= k < r@.len() ==> (#[trigger] r@[k]) < self.clusters@.len()
                        && self.clusters@[r@[k] as int].parent.is_none() && r@[k] < c,
                forall|a: int, b: int| 0 <= a < b < r@.len() ==> r@[a] < r@[b],
                forall|i: int|
                    0 <= i < c && self.clusters@[i].parent.is_none() ==> r@.contains(i as usize),
            decreases self.clusters@.len() - c,
        {
            if self.clusters[c].parent.is_none() {
                let ghost before = r@;
                r.push(c);
                assert(r@[r@.len() - 1] == c);
                assert forall|v: usize| before.contains(v) implies r@.contains(v) by {
                    let k = choose|k: int| 0 <= k < before.len() && before[k] == v;
                    assert(r@[k] == v);
                }
            }
            c = c + 1;
        }
        r
    }
}

/// Every pixel is owned by exactly one leaf cluster.
pub proof fn lemma_partition_complete(cs: &Clusters, p: int)
    requires
        cs.wf(),
        0 <= p < cs.labels@.len(),
    ensures
        cs.is_leaf(cs.leaf_of(p)),
        cs.labels@[p] == Some(cs.leaf_of(p) as usize),
        forall|c: usize| cs.is_leaf(c as int) && cs.labels@[p] == Some(c) ==> c as int == cs.leaf_of(p),
{
    assert(cs.labels@[p].is_some());
}

/// Children and parents agree: every listed child names the cluster as its
/// parent and comes after it, and every cluster naming it as parent is listed.
pub proof fn lemma_family(cs: &Clusters, c: usize)
    requires
        cs.wf(),
        c < cs.clusters@.len(),
    ensures
        forall|j: int|
            0 <= j < cs.clusters@[c as int].children@.len() ==> c < #[trigger] cs.clusters@[c as int].children@[j]
                < cs.clusters@.len() && cs.clusters@[cs.clusters@[c as int].children@[j] as int].parent == Some(c),
        forall|x: int|
            0 <= x < cs.clusters@.len() && (#[trigger] cs.clusters@[x]).parent == Some(c)
                ==> cs.clusters@[c as int].children@.contains(x as usize),
{
}

/// Every leaf owns at least one pixel: the one it was grown from.
pub proof fn lemma_leaf_owns_seed(cs: &Clusters, c: usize)
    requires
        cs.wf(),
        cs.is_leaf(c as int),
    ensures
        0 <= cs.clusters@[c as int].seed < cs.labels@.len(),
        cs.leaf_of(cs.clusters@[c as int].seed as int) == c,
{
}

/// A cluster whose area is not strictly between the configured bounds has
/// not been split, whatever its color contrast.
pub proof fn lemma_area_gate(cs: &Clusters, c: int)
    requires
        cs.wf(),
        0 <= c < cs.clusters@.len(),
        cs.clusters@[c].area <= cs.config.good_min_area || cs.clusters@[c].area
            >= cs.config.good_max_area,
    ensures
        cs.clusters@[c].children@.len() == 0,
{
    if cs.clusters@[c].children@.len() > 0 {
        assert(split_only_good(cs.clusters@, cs.config));
    }
}

/// A leaf is flagged hollow exactly when its number of distinct neighbours is
/// at most the configured threshold.
pub proof fn lemma_hollow_flag(cs: &Clusters, c: int)
    requires
        cs.wf(),
        cs.is_leaf(c),
    ensures
        cs.clusters@[c].hollow == (neighbour_count(
            cs.labels@,
            cs.width as int,
            c as usize,
            cs.clusters@.len() as int,
        ) <= cs.config.hollow_neighbours),
        cs.clusters@[c].area == count_of(cs.labels@, Some(c as usize)),
{
}

/// Refinement only ever splits within a base cluster: any two adjacent pixels
/// that the join rule accepts descend from the same base cluster, which has no
/// parent.
pub proof fn lemma_base_partition(cs: &Clusters, p: int, d: int)
    requires
        cs.wf(),
        0 <= p < cs.labels@.len(),
        0 <= d < num_dirs(cs.config.diagonal),
        step(cs.width as int, cs.labels@.len() as int, p, d).is_some(),
        cs.config.rule.joins(
            cs.pixels@[p],
            cs.pixels@[step(cs.width as int, cs.labels@.len() as int, p, d).unwrap()],
        ),
    ensures
        cs.clusters@[cs.leaf_of(step(cs.width as int, cs.labels@.len() as int, p, d).unwrap())].root
            == cs.clusters@[cs.leaf_of(p)].root,
        cs.clusters@[cs.clusters@[cs.leaf_of(p)].root as int].parent.is_none(),
{
    assert(cs.labels@[p].is_some());
}

impl Clusters {
    /// The base cluster that pixel `p` descends from.
    pub open spec fn base_of(&self, p: int) -> int {
        self.clusters@[self.leaf_of(p)].root as int
    }
}

/// Along a walk through joined neighbours the base cluster does not change.
pub proof fn lemma_path_same_base(cs: &Clusters, path: Seq<int>)
    requires
        cs.wf(),
        is_path(cs.pixels@, cs.width as int, cs.config.diagonal, cs.config.rule, path),
    ensures
        cs.base_of(path[0]) == cs.base_of(path.last()),
    decreases path.len(),
{
    if path.len() > 1 {
        let front = path.drop_last();
        assert(is_path(cs.pixels@, cs.width as int, cs.config.diagonal, cs.config.rule, front)) by {
            assert forall|k: int| 0 <= k < front.len() - 1 implies joined_step(
                cs.pixels@,
                cs.width as int,
                cs.config.diagonal,
                cs.config.rule,
                #[trigger] front[k],
                front[k + 1],
            ) by {
                assert(front[k] == path[k]);
                assert(front[k + 1] == path[k + 1]);
            }
        }
        lemma_path_same_base(cs, front);
        let a = path[path.len() - 2];
        let b = path.last();
        assert(joined_step(cs.pixels@, cs.width as int, cs.config.diagonal, cs.config.rule, a, b));
        let d = choose|d: int|
            0 <= d < num_dirs(cs.config.diagonal) && #[trigger] step(
                cs.width as int,
                cs.pixels@.len() as int,
                a,
                d,
            ) == Some(b) && cs.config.rule.joins(cs.pixels@[a], cs.pixels@[b]);
        assert(step(cs.width as int, cs.labels@.len() as int, a, d) == Some(b));
        assert(cs.labels@[a].is_some());
    }
}

/// Outside the reserved background, two pixels descend from the same base
/// cluster exactly when one is reachable from the other's base seed through
/// adjacent pixels that the join rule accepts: the base clusters are the
/// connected components of the join relation.
pub proof fn lemma_base_components(cs: &Clusters, p: int, q: int)
    requires
        cs.wf(),
        0 <= p < cs.labels@.len(),
        0 <= q < cs.labels@.len(),
        !cs.clusters@[cs.base_of(p)].reserved,
    ensures
        cs.base_of(p) == cs.base_of(q) <==> linked(
            cs.pixels@,
            cs.width as int,
            cs.config.diagonal,
            cs.config.rule,
            cs.clusters@[cs.base_of(p)].seed as int,
            q,
        ),
        linked(
            cs.pixels@,
            cs.width as int,
            cs.config.diagonal,
            cs.config.rule,
            cs.clusters@[cs.base_of(p)].seed as int,
            p,
        ),
{
    assert(cs.labels@[p].is_some());
    assert(cs.labels@[q].is_some());
    let w = cs.width as int;
    let s = cs.clusters@[cs.base_of(p)].seed as int;
    let to_p = choose|path: Seq<int>|
        #[trigger] is_path(cs.pixels@, w, cs.config.diagonal, cs.config.rule, path) && path[0] == s
            && path.last() == p;
    lemma_path_same_base(cs, to_p);
    if linked(cs.pixels@, w, cs.config.diagonal, cs.config.rule, s, q) {
        let to_q = choose|path: Seq<int>|
            #[trigger] is_path(cs.pixels@, w, cs.config.diagonal, cs.config.rule, path) && path[0] == s
                && path.last() == q;
        lemma_path_same_base(cs, to_q);
    }
}

/// With refinement depth zero, no cluster is split: every cluster is both a
/// root and a leaf, and any two adjacent pixels that the join rule accepts lie
/// in the same cluster.
pub proof fn lemma_no_deepening(cs: &Clusters)
    requires
        cs.wf(),
        cs.config.max_depth == 0,
    ensures
        forall|c: int|
            0 <= c < cs.clusters@.len() ==> cs.is_leaf(c) && (#[trigger] cs.clusters@[c]).parent.is_none(),
        forall|p: int, d: int|
            0 <= p < cs.labels@.len() && 0 <= d < num_dirs(cs.config.diagonal)
                && (#[trigger] step(cs.width as int, cs.labels@.len() as int, p, d)).is_some()
                && cs.config.rule.joins(
                cs.pixels@[p],
                cs.pixels@[step(cs.width as int, cs.labels@.len() as int, p, d).unwrap()],
            ) ==> cs.leaf_of(step(cs.width as int, cs.labels@.len() as int, p, d).unwrap()) == cs.leaf_of(p),
{
    assert forall|p: int, d: int|
        0 <= p < cs.labels@.len() && 0 <= d < num_dirs(cs.config.diagonal)
            && (#[trigger] step(cs.width as int, cs.labels@.len() as int, p, d)).is_some()
            && cs.config.rule.joins(
            cs.pixels@[p],
            cs.pixels@[step(cs.width as int, cs.labels@.len() as int, p, d).unwrap()],
        ) implies cs.leaf_of(step(cs.width as int, cs.labels@.len() as int, p, d).unwrap()) == cs.leaf_of(p) by {
        assert(cs.labels@[p].is_some());
    }
}

} // verus!
