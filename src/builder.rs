use vstd::prelude::*;
use crate::color::{Color, color_diff};
use crate::grid::{
    JoinRule,
    KeyingAction,
    grow,
    count_label,
    count_of,
    lemma_count_positive,
    lemma_count_member,
    joined_equal,
    closed_at,
    num_dirs,
    step,
    opposite,
    lemma_step_symmetric,
    lemma_joins_symmetric,
    linked,
};
use crate::region::{all_labelled, neighbours_of, perimeter_of, count_flags};
use crate::clusters::{
    Cluster,
    BuildConfig,
    Clusters,
    facts_upto,
    labels_name_leaves,
    split_only_good,
    flat_when_no_depth,
    roots_valid,
    joined_roots,
    linked_to_root,
    leaves_hold_seeds,
    family_ok,
};
use crate::image::ColorImage;
use crate::runner::ColorSpace;

verus! {

/// Where construction stands.
pub enum Phase {
    /// Scanning for unlabelled pixels from `next` on, growing a cluster from each.
    Partition { next: usize },
    /// Evaluating clusters `i..hi` for splitting, with `levels` levels of
    /// refinement left including this one; a split groups pixels under the
    /// join rule with quantization `shift`.
    Deepen { levels: u32, shift: i32, hi: usize, i: usize },
    /// Classifying clusters from `j` on.
    Hollow { j: usize },
    /// Nothing left to do.
    Done,
}

/// A lexicographic order on measures of progress.
pub open spec fn lex_lt(a: (nat, nat, nat), b: (nat, nat, nat)) -> bool {
    a.0 < b.0 || (a.0 == b.0 && (a.1 < b.1 || (a.1 == b.1 && a.2 < b.2)))
}

/// A configured, unstarted construction.
pub struct Builder {
    pub image: ColorImage,
    pub config: BuildConfig,
}

/// Construction in progress; advanced by bounded steps.
pub struct IncrementalBuilder {
    pub width: usize,
    pub height: usize,
    pub pixels: Vec<Color>,
    pub config: BuildConfig,
    pub labels: Vec<Option<usize>>,
    pub clusters: Vec<Cluster>,
    pub phase: Phase,
}

/// The geometric gate: the area lies strictly between the bounds and, unless
/// the lower bound is zero, the cluster is not thread-like (its inner border is
/// shorter than its area).
pub open spec fn spec_patch_good(area: int, perimeter: int, min_area: int, max_area: int) -> bool {
    &&& min_area < area < max_area
    &&& (min_area == 0 || perimeter < area)
}

/// Whether a cluster of the given area and inner border length is worth splitting.
pub fn patch_good(area: usize, perimeter: usize, good_min_area: usize, good_max_area: usize) -> (r: bool)
    ensures
        r == spec_patch_good(area as int, perimeter as int, good_min_area as int, good_max_area as int),
{
    if good_min_area < area && area < good_max_area {
        if good_min_area == 0 || perimeter < area {
            return true;
        }
    }
    false
}

/// Index of the first true entry.
fn first_true(v: &Vec<bool>) -> (r: Option<usize>)
    ensures
        r matches Some(j) ==> j < v@.len() && v@[j as int] && forall|k: int| 0 <= k < j ==> !v@[k],
        r is None ==> forall|k: int| 0 <= k < v@.len() ==> !v@[k],
{
    let mut j: usize = 0;
    while j < v.len()
        invariant
            j <= v@.len(),
            forall|k: int| 0 <= k < j ==> !v@[k],
        decreases v@.len() - j,
    {
        if v[j] {
            return Some(j);
        }
        j = j + 1;
    }
    None
}

impl Builder {
    pub open spec fn wf(&self) -> bool {
        self.image.wf() && self.config.rule.wf()
    }

    /// A builder for `image` under `config`.
    pub fn new(image: ColorImage, config: BuildConfig) -> (b: Builder)
        ensures
            b.image == image,
            b.config == config,
    {
        Builder { image, config }
    }

    /// Starts construction. Under background keying, the key-colored pixels
    /// are gathered first into reserved cluster 0.
    pub fn start(self) -> (b: IncrementalBuilder)
        requires
            self.wf(),
        ensures
            b.wf(),
            b.config == self.config,
            b.width == self.image.width,
            b.height == self.image.height,
            b.pixels@ == self.image.pixels@,
            b.phase == (Phase::Partition { next: 0 }),
            forall|p: int|
                0 <= p < b.labels@.len() ==> #[trigger] b.labels@[p] == (if self.config.rule.keying
                    == KeyingAction::Background && b.pixels@[p] == self.config.rule.key {
                    Some(0usize)
                } else {
                    None
                }),
            b.clusters@.len() <= 1,
            b.clusters@.len() == 1 ==> b.clusters@[0].reserved,
    {
        let ColorImage { width, height, pixels } = self.image;
        let n = pixels.len();
        let mut labels: Vec<Option<usize>> = Vec::new();
        let mut clusters: Vec<Cluster> = Vec::new();
        let mut k: usize = 0;
        while k < n
            invariant
                k <= n,
                n == pixels@.len(),
                labels@.len() == k,
                forall|p: int| 0 <= p < k ==> (#[trigger] labels@[p]).is_none(),
            decreases n - k,
        {
            labels.push(None);
            k = k + 1;
        }
        if self.config.rule.keying == KeyingAction::Background {
            let key = self.config.rule.key;
            let mut p: usize = 0;
            while p < n
                invariant
                    p <= n,
                    n == pixels@.len(),
                    labels@.len() == n,
                    clusters@.len() <= 1,
                    n == 0 ==> clusters@.len() == 0,
                    clusters@.len() == 1 ==> clusters@[0].seed < n && labels@[clusters@[0].seed as int] == Some(
                        0usize,
                    ) && clusters@[0].reserved,
                    forall|c: int| 0 <= c < clusters@.len() ==> (#[trigger] clusters@[c]).children@.len() == 0
                        && clusters@[c].parent.is_none() && clusters@[c].root == c,
                    forall|q: int|
                        0 <= q < n && (#[trigger] labels@[q]).is_some() ==> labels@[q] == Some(0usize)
                            && clusters@.len() == 1,
                    forall|q: int|
                        0 <= q < n ==> (#[trigger] labels@[q]).is_some() == (q < p && pixels@[q] == key),
                decreases n - p,
            {
                if pixels[p] == key {
                    if clusters.len() == 0 {
                        clusters.push(
                            Cluster {
                                parent: None,
                                children: Vec::new(),
                                color: key,
                                area: 0,
                                perimeter: 0,
                                hollow: false,
                                reserved: true,
                                root: 0,
                                seed: p,
                            },
                        );
                    }
                    labels.set(p, Some(0));
                }
                p = p + 1;
            }
            proof {
                let rule = self.config.rule;
                assert forall|p: int, d: int|
                    0 <= p < labels@.len() && 0 <= d < num_dirs(self.config.diagonal) && labels@[p].is_some()
                        && (#[trigger] step(width as int, labels@.len() as int, p, d)).is_some() && rule.joins(
                        pixels@[p],
                        pixels@[step(width as int, labels@.len() as int, p, d).unwrap()],
                    ) implies labels@[step(width as int, labels@.len() as int, p, d).unwrap()] == labels@[p] by {
                    let q = step(width as int, labels@.len() as int, p, d).unwrap();
                    lemma_step_symmetric(width as int, labels@.len() as int, self.config.diagonal, p, d);
                    assert(labels@[q].is_some());
                }
            }
        }
        IncrementalBuilder {
            width,
            height,
            pixels,
            config: self.config,
            labels,
            clusters,
            phase: Phase::Partition { next: 0 },
        }
    }

    /// Constructs to completion, with `perceptual` as the color metric where
    /// the configuration asks for the perceptual one.
    pub fn run_with<F: Fn(Color, Color) -> i32>(self, perceptual: &F) -> (r: Clusters)
        requires
            self.wf(),
            forall|a: Color, b: Color| perceptual.requires((a, b)),
        ensures
            r.wf(),
            r.config == self.config,
            r.width == self.image.width,
            r.height == self.image.height,
            r.pixels@ == self.image.pixels@,
    {
        let mut b = self.start();
        b.run_with(perceptual)
    }

    /// Constructs to completion under the raw RGB metric.
    pub fn run(self) -> (r: Clusters)
        requires
            self.wf(),
            self.config.color_space == ColorSpace::RGB,
        ensures
            r.wf(),
            r.config == self.config,
            r.width == self.image.width,
            r.height == self.image.height,
            r.pixels@ == self.image.pixels@,
    {
        let raw = |a: Color, b: Color| -> (d: i32) { color_diff(a, b) };
        self.run_with(&raw)
    }
}

impl IncrementalBuilder {
    pub open spec fn n(&self) -> int {
        self.pixels@.len() as int
    }

    pub open spec fn wf(&self) -> bool {
        &&& self.width > 0 || self.pixels@.len() == 0
        &&& self.pixels@.len() == self.width * self.height
        &&& self.pixels@.len() < usize::MAX / 4
        &&& self.labels@.len() == self.pixels@.len()
        &&& self.pixels@.len() == 0 ==> self.clusters@.len() == 0
        &&& self.config.rule.wf()
        &&& labels_name_leaves(self.labels@, self.clusters@)
        &&& split_only_good(self.clusters@, self.config)
        &&& flat_when_no_depth(self.clusters@, self.config)
        &&& (self.config.max_depth == 0 && !(self.phase is Partition) ==> self.joined())
        &&& roots_valid(self.clusters@)
        &&& family_ok(self.clusters@, -1)
        &&& leaves_hold_seeds(self.labels@, self.clusters@, -1)
        &&& self.linked()
        &&& (!(self.phase is Partition) ==> joined_roots(
            self.labels@,
            self.pixels@,
            self.width as int,
            self.config.diagonal,
            self.config.rule,
            self.clusters@,
        ))
        &&& match self.phase {
            Phase::Partition { next } => {
                &&& next <= self.n()
                &&& forall|p: int| 0 <= p < next ==> (#[trigger] self.labels@[p]).is_some()
                &&& self.joined()
                &&& forall|c: int| 0 <= c < self.clusters@.len() ==> (#[trigger] self.clusters@[c]).root == c
            },
            Phase::Deepen { levels, shift, hi, i } => {
                &&& all_labelled(self.labels@, self.clusters@.len() as int)
                &&& 1 <= levels <= self.config.max_depth
                &&& 0 <= shift < self.config.rule.shift
                &&& i <= hi <= self.clusters@.len()
            },
            Phase::Hollow { j } => {
                &&& all_labelled(self.labels@, self.clusters@.len() as int)
                &&& j <= self.clusters@.len()
                &&& facts_upto(self.labels@, self.width as int, self.clusters@, self.config, j as int)
            },
            Phase::Done => {
                &&& all_labelled(self.labels@, self.clusters@.len() as int)
                &&& facts_upto(
                    self.labels@,
                    self.width as int,
                    self.clusters@,
                    self.config,
                    self.clusters@.len() as int,
                )
            },
        }
    }

    /// Adjacent pixels that the join rule accepts share a label.
    pub open spec fn joined(&self) -> bool {
        joined_equal(self.labels@, self.pixels@, self.width as int, self.config.diagonal, self.config.rule)
    }

    /// Pixels reach the seed of their base cluster through joined neighbours.
    pub open spec fn linked(&self) -> bool {
        linked_to_root(
            self.labels@,
            self.pixels@,
            self.width as int,
            self.config.diagonal,
            self.config.rule,
            self.clusters@,
        )
    }

    pub open spec fn done(&self) -> bool {
        self.phase is Done
    }

    /// Progress measure: phase rank, then two counters of what is left.
    pub open spec fn measure(&self) -> (nat, nat, nat) {
        match self.phase {
            Phase::Partition { next } => (3, (self.n() - next) as nat, 0),
            Phase::Deepen { levels, shift, hi, i } => (2, levels as nat, (hi - i) as nat),
            Phase::Hollow { j } => (1, (self.clusters@.len() - j) as nat, 0),
            Phase::Done => (0, 0, 0),
        }
    }

    /// The fixed inputs of construction are unchanged from `other`.
    pub open spec fn same_inputs(&self, other: &IncrementalBuilder) -> bool {
        &&& self.width == other.width
        &&& self.height == other.height
        &&& self.pixels@ == other.pixels@
        &&& self.config == other.config
    }

    pub fn is_done(&self) -> (r: bool)
        ensures
            r == self.done(),
    {
        match self.phase {
            Phase::Done => true,
            _ => false,
        }
    }

    /// Grows a new cluster from pixel `next` if it has no label yet, and
    /// moves on to the next pixel.
    fn partition_unit(&mut self, next: usize)
        requires
            old(self).wf(),
            old(self).phase == (Phase::Partition { next }),
            next < old(self).n(),
        ensures
            final(self).wf(),
            final(self).same_inputs(old(self)),
            final(self).phase == (Phase::Partition { next: (next + 1) as usize }),
    {
        let n = self.pixels.len();
        if self.labels[next].is_none() {
            let k = self.clusters.len();
            let ghost before = self.labels@;
            self.clusters.push(
                Cluster {
                    parent: None,
                    children: Vec::new(),
                    color: self.pixels[next],
                    area: 0,
                    perimeter: 0,
                    hollow: false,
                    reserved: false,
                    root: k,
                    seed: next,
                },
            );
            assert(self.width > 0);
            grow(
                &mut self.labels,
                &self.pixels,
                self.width,
                self.config.diagonal,
                &self.config.rule,
                next,
                None,
                Some(k),
            );
            assert forall|p: int| 0 <= p < self.labels@.len() && (#[trigger] self.labels@[p]).is_some() implies
                self.labels@[p].unwrap() < self.clusters@.len()
                    && self.clusters@[self.labels@[p].unwrap() as int].children@.len() == 0 by {
                if before[p].is_some() {
                    assert(before[p] == self.labels@[p]);
                }
            }
            proof {
                let w = self.width as int;
                let nn = n as int;
                let diag = self.config.diagonal;
                let rule = self.config.rule;
                let px = self.pixels@;
                assert forall|p: int, d: int|
                    0 <= p < nn && 0 <= d < num_dirs(diag) && self.labels@[p].is_some()
                        && (#[trigger] step(w, nn, p, d)).is_some() && rule.joins(
                        px[p],
                        px[step(w, nn, p, d).unwrap()],
                    ) implies self.labels@[step(w, nn, p, d).unwrap()] == self.labels@[p] by {
                    let q = step(w, nn, p, d).unwrap();
                    lemma_step_symmetric(w, nn, diag, p, d);
                    if before[p].is_some() {
                        assert(before[q] == before[p]);
                    } else {
                        assert(closed_at(self.labels@, px, w, diag, rule, None, p));
                        assert(self.labels@[q] != None::<usize>);
                        if before[q].is_some() {
                            lemma_joins_symmetric(rule, px[p], px[q]);
                            assert(step(w, nn, q, opposite(d)).is_some());
                            assert(before[p] == before[q]);
                        }
                    }
                }
            }
        }
        self.phase = Phase::Partition { next: next + 1 };
    }

    /// Leaves the partition phase once every pixel is labelled.
    fn end_partition(&mut self)
        requires
            old(self).wf(),
            old(self).phase == (Phase::Partition { next: old(self).n() as usize }),
        ensures
            final(self).wf(),
            final(self).same_inputs(old(self)),
            lex_lt(final(self).measure(), old(self).measure()),
    {
        assert(all_labelled(self.labels@, self.clusters@.len() as int));
        if self.config.max_depth > 0 && self.config.rule.shift > 0 && self.clusters.len() > 0 {
            self.phase = Phase::Deepen {
                levels: self.config.max_depth,
                shift: self.config.rule.shift - 1,
                hi: self.clusters.len(),
                i: 0,
            };
        } else {
            self.phase = Phase::Hollow { j: 0 };
        }
    }

    /// The structural facts that hold throughout the split of cluster `i`.
    pub open spec fn split_core(&self, i: usize) -> bool {
        &&& self.labels@.len() == self.n()
        &&& self.width > 0 || self.n() == 0
        &&& self.pixels@.len() == self.width * self.height
        &&& self.pixels@.len() < usize::MAX / 4
        &&& (self.pixels@.len() == 0 ==> self.clusters@.len() == 0)
        &&& self.config.rule.wf()
        &&& self.config.max_depth >= 1
        &&& i < self.clusters@.len()
        &&& labels_name_leaves(self.labels@, self.clusters@)
        &&& all_labelled(self.labels@, self.clusters@.len() as int)
        &&& split_only_good(self.clusters@, self.config)
        &&& roots_valid(self.clusters@)
        &&& leaves_hold_seeds(self.labels@, self.clusters@, i as int)
        &&& family_ok(self.clusters@, i as int)
        &&& self.linked()
        &&& joined_roots(
            self.labels@,
            self.pixels@,
            self.width as int,
            self.config.diagonal,
            self.config.rule,
            self.clusters@,
        )
    }

    /// Opens child `k` of cluster `i` at pixel `p` and grows it over the
    /// pixels of `i` that `rule` joins.
    #[verifier::rlimit(40)]
    fn carve(&mut self, i: usize, p: usize, rule: &JoinRule) -> (k: usize)
        requires
            old(self).split_core(i),
            rule.wf(),
            p < old(self).n(),
            old(self).labels@[p as int] == Some(i),
        ensures
            final(self).split_core(i),
            final(self).same_inputs(old(self)),
            final(self).phase == old(self).phase,
            k == old(self).clusters@.len(),
            final(self).clusters@.len() == k + 1,
            final(self).clusters@[k as int].parent == Some(i),
            forall|c: int| 0 <= c < k ==> #[trigger] final(self).clusters@[c] == old(self).clusters@[c],
            final(self).labels@[p as int] == Some(k),
            forall|q: int|
                0 <= q < final(self).n() ==> #[trigger] final(self).labels@[q] == old(self).labels@[q] || (
                old(self).labels@[q] == Some(i) && final(self).labels@[q] == Some(k)),
    {
        let n = self.pixels.len();
        let k = self.clusters.len();
        let ghost before = self.labels@;
        let ghost before_cl = self.clusters@;
        self.clusters.push(
            Cluster {
                parent: Some(i),
                children: Vec::new(),
                color: self.pixels[p],
                area: 0,
                perimeter: 0,
                hollow: false,
                reserved: false,
                root: self.clusters[i].root,
                seed: p,
            },
        );
        grow(&mut self.labels, &self.pixels, self.width, self.config.diagonal, rule, p, Some(i), Some(k));
        assert forall|x: int| 0 <= x < k implies #[trigger] self.clusters@[x] == before_cl[x] by {}
        assert(family_ok(self.clusters@, i as int)) by {
            assert forall|c: int, j: int|
                0 <= c < self.clusters@.len() && 0 <= j < self.clusters@[c].children@.len() implies {
                    &&& c < #[trigger] self.clusters@[c].children@[j] < self.clusters@.len()
                    &&& self.clusters@[self.clusters@[c].children@[j] as int].parent == Some(c as usize)
                } by {
                if c < k {
                    let x = before_cl[c].children@[j] as int;
                    assert(self.clusters@[x] == before_cl[x]);
                }
            }
        }
        assert forall|q: int| 0 <= q < self.labels@.len() && (#[trigger] self.labels@[q]).is_some() implies
            self.labels@[q].unwrap() < self.clusters@.len()
                && self.clusters@[self.labels@[q].unwrap() as int].children@.len() == 0 by {
            if before[q] == self.labels@[q] {
                assert(before[q].is_some());
            }
        }
        assert forall|q: int| 0 <= q < self.labels@.len() implies (#[trigger] self.labels@[q]).is_some()
            && self.labels@[q].unwrap() < self.clusters@.len() by {
            if before[q] == self.labels@[q] {
                assert(before[q].is_some());
            }
        }
        proof {
            let w = self.width as int;
            let nn = n as int;
            let diag = self.config.diagonal;
            let crule = self.config.rule;
            let px = self.pixels@;
            let cl = self.clusters@;
            assert(cl[k as int].root == cl[i as int].root);
            assert forall|x: int| 0 <= x < nn implies cl[(#[trigger] self.labels@[x]).unwrap() as int].root
                == before_cl[before[x].unwrap() as int].root by {
                assert(before[x].is_some());
                if before[x] != self.labels@[x] {
                    assert(before[x] == Some(i));
                }
            }
            assert forall|q: int, d: int|
                0 <= q < nn && 0 <= d < num_dirs(diag) && (#[trigger] step(w, nn, q, d)).is_some()
                    && crule.joins(px[q], px[step(w, nn, q, d).unwrap()]) implies cl[self.labels@[step(
                w,
                nn,
                q,
                d,
            ).unwrap()].unwrap() as int].root == cl[self.labels@[q].unwrap() as int].root by {
                let r = step(w, nn, q, d).unwrap();
                assert(0 <= r < nn) by {
                    lemma_step_symmetric(w, nn, diag, q, d);
                }
                assert(before_cl[before[r].unwrap() as int].root == before_cl[before[q].unwrap() as int].root);
                assert(cl[self.labels@[r].unwrap() as int].root == before_cl[before[r].unwrap() as int].root);
                assert(cl[self.labels@[q].unwrap() as int].root == before_cl[before[q].unwrap() as int].root);
            }
        }
        k
    }

    /// Splits leaf cluster `i` into the connected groups of its pixels under
    /// the join rule with quantization `shift`; the new clusters become its
    /// children.
    fn split(&mut self, i: usize, area: usize, perimeter: usize, shift: i32)
        requires
            old(self).wf(),
            old(self).phase is Deepen,
            0 <= shift < 8,
            i < old(self).clusters@.len(),
            old(self).clusters@[i as int].children@.len() == 0,
            spec_patch_good(
                area as int,
                perimeter as int,
                old(self).config.good_min_area as int,
                old(self).config.good_max_area as int,
            ),
        ensures
            final(self).wf(),
            final(self).same_inputs(old(self)),
            final(self).phase == old(self).phase,
    {
        let n = self.pixels.len();
        assert(self.split_core(i));
        assert forall|x: int|
            0 <= x < self.clusters@.len() && (#[trigger] self.clusters@[x]).parent == Some(i) implies false by {
            assert(self.clusters@[i as int].children@.contains(x as usize));
        }
        let rule = JoinRule { shift, ..self.config.rule };
        let mut kids: Vec<usize> = Vec::new();
        let mut p: usize = 0;
        let ghost len0 = self.clusters@.len();
        while p < n
            invariant
                self.split_core(i),
                self.same_inputs(old(self)),
                self.phase == old(self).phase,
                n == self.n(),
                p <= n,
                rule.wf(),
                len0 <= self.clusters@.len(),
                forall|c: int| 0 <= c < len0 ==> #[trigger] self.clusters@[c] == old(self).clusters@[c],
                forall|q: int| 0 <= q < p ==> #[trigger] self.labels@[q] != Some(i),
                forall|j: int|
                    0 <= j < kids@.len() ==> i < #[trigger] kids@[j] < self.clusters@.len()
                        && self.clusters@[kids@[j] as int].parent == Some(i),
                forall|x: int|
                    0 <= x < self.clusters@.len() && (#[trigger] self.clusters@[x]).parent == Some(i) ==> kids@.contains(
                        x as usize,
                    ),
                kids@.len() == 0 ==> p <= self.clusters@[i as int].seed && self.labels@[self.clusters@[i as int].seed as int]
                    == Some(i),
            decreases n - p,
        {
            if self.labels[p] == Some(i) {
                let ghost before = self.labels@;
                let ghost before_cl = self.clusters@;
                let k = self.carve(i, p, &rule);
                assert forall|q: int| 0 <= q < p + 1 implies #[trigger] self.labels@[q] != Some(i) by {
                    if q < p {
                        assert(before[q] != Some(i));
                    }
                }
                let ghost kids_before = kids@;
                kids.push(k);
                assert(kids@[kids@.len() - 1] == k);
                assert forall|x: int|
                    0 <= x < self.clusters@.len() && (#[trigger] self.clusters@[x]).parent == Some(i) implies kids@.contains(
                        x as usize,
                    ) by {
                    if x < k {
                        assert(before_cl[x] == self.clusters@[x]);
                        let m = choose|m: int| 0 <= m < kids_before.len() && kids_before[m] == x as usize;
                        assert(kids@[m] == x as usize);
                    }
                }
                assert forall|j: int|
                    0 <= j < kids@.len() implies i < #[trigger] kids@[j] < self.clusters@.len()
                        && self.clusters@[kids@[j] as int].parent == Some(i) by {
                    if j < kids_before.len() {
                        assert(kids@[j] == kids_before[j]);
                        assert(before_cl[kids@[j] as int] == self.clusters@[kids@[j] as int]);
                    }
                }
            }
            p = p + 1;
        }
        self.adopt(i, kids, area, perimeter);
        assert(self.split_core(i));
        assert(leaves_hold_seeds(self.labels@, self.clusters@, -1));
        assert(family_ok(self.clusters@, -1));
    }

    /// Makes `kids` the children of cluster `i`, recording the area and
    /// inner border that admitted the split.
    fn adopt(&mut self, i: usize, kids: Vec<usize>, area: usize, perimeter: usize)
        requires
            old(self).split_core(i),
            forall|q: int| 0 <= q < old(self).labels@.len() ==> #[trigger] old(self).labels@[q] != Some(i),
            forall|j: int|
                0 <= j < kids@.len() ==> i < #[trigger] kids@[j] < old(self).clusters@.len()
                    && old(self).clusters@[kids@[j] as int].parent == Some(i),
            kids@.len() > 0,
            forall|x: int|
                0 <= x < old(self).clusters@.len() && (#[trigger] old(self).clusters@[x]).parent == Some(i)
                    ==> kids@.contains(x as usize),
            spec_patch_good(
                area as int,
                perimeter as int,
                old(self).config.good_min_area as int,
                old(self).config.good_max_area as int,
            ),
        ensures
            final(self).split_core(i),
            final(self).same_inputs(old(self)),
            final(self).phase == old(self).phase,
            final(self).labels@ == old(self).labels@,
            final(self).clusters@.len() == old(self).clusters@.len(),
            leaves_hold_seeds(final(self).labels@, final(self).clusters@, -1),
            family_ok(final(self).clusters@, -1),
    {
        let parent = self.clusters[i].parent;
        let color = self.clusters[i].color;
        let reserved = self.clusters[i].reserved;
        let root = self.clusters[i].root;
        let seed = self.clusters[i].seed;
        let ghost cl_before = self.clusters@;
        self.clusters.set(
            i,
            Cluster { parent, children: kids, color, area, perimeter, hollow: false, reserved, root, seed },
        );
        assert forall|q: int| 0 <= q < self.labels@.len() && (#[trigger] self.labels@[q]).is_some() implies
            self.labels@[q].unwrap() < self.clusters@.len()
                && self.clusters@[self.labels@[q].unwrap() as int].children@.len() == 0 by {
            assert(self.labels@[q] != Some(i));
        }
        assert forall|x: int| 0 <= x < self.clusters@.len() implies #[trigger] self.clusters@[x].root
            == cl_before[x].root && self.clusters@[x].parent == cl_before[x].parent by {}
        assert(roots_valid(self.clusters@));
        assert(self.clusters@[i as int].children@.len() > 0);
        assert(family_ok(self.clusters@, -1)) by {
            assert forall|c: int, j: int|
                0 <= c < self.clusters@.len() && 0 <= j < self.clusters@[c].children@.len() implies {
                    &&& c < #[trigger] self.clusters@[c].children@[j] < self.clusters@.len()
                    &&& self.clusters@[self.clusters@[c].children@[j] as int].parent == Some(c as usize)
                } by {
                if c != i {
                    assert(cl_before[c] == self.clusters@[c]);
                }
            }
            assert forall|x: int|
                0 <= x < self.clusters@.len() && (#[trigger] self.clusters@[x]).parent.is_some() implies {
                    &&& self.clusters@[x].parent.unwrap() < x
                    &&& self.clusters@[self.clusters@[x].parent.unwrap() as int].children@.contains(x as usize)
                } by {
                assert(cl_before[x].parent == self.clusters@[x].parent);
                let c = self.clusters@[x].parent.unwrap() as int;
                if c != i {
                    assert(cl_before[c] == self.clusters@[c]);
                }
            }
        }
        assert(leaves_hold_seeds(self.labels@, self.clusters@, -1));
        proof {
            let w = self.width as int;
            let nn = self.labels@.len() as int;
            let diag = self.config.diagonal;
            let crule = self.config.rule;
            let px = self.pixels@;
            let cl = self.clusters@;
            assert forall|q: int, d: int|
                0 <= q < nn && 0 <= d < num_dirs(diag) && (#[trigger] step(w, nn, q, d)).is_some()
                    && crule.joins(px[q], px[step(w, nn, q, d).unwrap()]) implies cl[self.labels@[step(
                w,
                nn,
                q,
                d,
            ).unwrap()].unwrap() as int].root == cl[self.labels@[q].unwrap() as int].root by {
                let r = step(w, nn, q, d).unwrap();
                assert(0 <= r < nn) by {
                    lemma_step_symmetric(w, nn, diag, q, d);
                }
                assert(self.labels@[q].is_some());
                assert(self.labels@[r].is_some());
                assert(cl_before[self.labels@[r].unwrap() as int].root == cl_before[self.labels@[q].unwrap() as int].root);
            }
        }
    }

    /// Whether the pixels of leaf cluster `i` form more than one group under
    /// the join rule with quantization `shift`: growing from its seed on a
    /// scratch copy of the labels leaves some of them behind.
    fn falls_apart(&self, i: usize, shift: i32) -> (r: bool)
        requires
            self.wf(),
            i < self.clusters@.len(),
            self.clusters@[i as int].children@.len() == 0,
            0 <= shift < 8,
        ensures
            r ==> count_of(self.labels@, Some(i)) > 0,
    {
        let n = self.labels.len();
        let mut scratch: Vec<Option<usize>> = Vec::new();
        let mut q: usize = 0;
        while q < n
            invariant
                q <= n,
                n == self.labels@.len(),
                scratch@ == self.labels@.take(q as int),
            decreases n - q,
        {
            scratch.push(self.labels[q]);
            proof {
                assert(self.labels@.take(q + 1) =~= self.labels@.take(q as int).push(self.labels@[q as int]));
            }
            q = q + 1;
        }
        assert(scratch@ =~= self.labels@);
        let rule = JoinRule { shift, ..self.config.rule };
        let seed = self.clusters[i].seed;
        grow(&mut scratch, &self.pixels, self.width, self.config.diagonal, &rule, seed, Some(i), None);
        let left = count_label(&scratch, Some(i));
        if left > 0 {
            proof {
                lemma_count_positive(scratch@, Some(i));
                let x = choose|x: int| 0 <= x < scratch@.len() && scratch@[x] == Some(i);
                assert(self.labels@[x] == Some(i));
                lemma_count_member(self.labels@, x, Some(i));
            }
        }
        left > 0
    }

    /// Evaluates cluster `i` and splits it if it passes both gates.
    fn deepen_unit<F: Fn(Color, Color) -> i32>(
        &mut self,
        perceptual: &F,
        levels: u32,
        shift: i32,
        hi: usize,
        i: usize,
    )
        requires
            old(self).wf(),
            old(self).phase == (Phase::Deepen { levels, shift, hi, i }),
            i < hi,
            forall|x: Color, y: Color| perceptual.requires((x, y)),
        ensures
            final(self).wf(),
            final(self).same_inputs(old(self)),
            final(self).phase == (Phase::Deepen { levels, shift, hi, i: (i + 1) as usize }),
    {
        let n = self.pixels.len();
        if n > 0 && !self.clusters[i].reserved && self.clusters[i].children.len() == 0 {
            let w = self.width;
            let area = count_label(&self.labels, Some(i));
            let perimeter = perimeter_of(&self.labels, w, i);
            let adj = neighbours_of(&self.labels, w, i, self.clusters.len());
            let first_diff = match first_true(&adj) {
                Some(j) => Some(self.config.diff(perceptual, self.clusters[i].color, self.clusters[j].color)),
                None => None,
            };
            if self.config.deepen(area, perimeter, first_diff) && self.falls_apart(i, shift) {
                self.split(i, area, perimeter, shift);
            }
        }
        self.phase = Phase::Deepen { levels, shift, hi, i: i + 1 };
    }

    /// Closes a refinement level: opens the next one over the clusters it
    /// created, or moves on to classification.
    fn end_level(&mut self, levels: u32, shift: i32, hi: usize)
        requires
            old(self).wf(),
            old(self).phase == (Phase::Deepen { levels, shift, hi, i: hi }),
        ensures
            final(self).wf(),
            final(self).same_inputs(old(self)),
            lex_lt(final(self).measure(), old(self).measure()),
    {
        if levels > 1 && shift > 0 && self.clusters.len() > hi {
            self.phase = Phase::Deepen { levels: levels - 1, shift: shift - 1, hi: self.clusters.len(), i: hi };
        } else {
            self.phase = Phase::Hollow { j: 0 };
        }
    }

    /// Records area, perimeter and the hollow flag of cluster `j` if it is a leaf.
    #[verifier::rlimit(100)]
    fn hollow_unit(&mut self, j: usize)
        requires
            old(self).wf(),
            old(self).phase == (Phase::Hollow { j }),
            j < old(self).clusters@.len(),
        ensures
            final(self).wf(),
            final(self).same_inputs(old(self)),
            final(self).phase == (Phase::Hollow { j: (j + 1) as usize }),
            final(self).clusters@.len() == old(self).clusters@.len(),
    {
        let n = self.pixels.len();
        let len = self.clusters.len();
        if self.clusters[j].children.len() == 0 {
            let w: usize = self.width;
            let area = count_label(&self.labels, Some(j));
            let perimeter = perimeter_of(&self.labels, w, j);
            let adj = neighbours_of(&self.labels, w, j, self.clusters.len());
            let count = count_flags(&adj);
            let hollow = self.config.hollow(count);
            let parent = self.clusters[j].parent;
            let color = self.clusters[j].color;
            let reserved = self.clusters[j].reserved;
            let root = self.clusters[j].root;
            let seed = self.clusters[j].seed;
            let ghost before = self.clusters@;
            self.clusters.set(
                j,
                Cluster { parent, children: Vec::new(), color, area, perimeter, hollow, reserved, root, seed },
            );
            assert forall|x: int| 0 <= x < self.clusters@.len() implies #[trigger] self.clusters@[x].root
                == before[x].root && self.clusters@[x].seed == before[x].seed && self.clusters@[x].reserved
                == before[x].reserved && self.clusters@[x].parent == before[x].parent
                && self.clusters@[x].children@.len() == before[x].children@.len() by {}
            assert(leaves_hold_seeds(self.labels@, self.clusters@, -1));
            assert(self.linked());
            assert(roots_valid(self.clusters@));
            assert(family_ok(self.clusters@, -1)) by {
                assert forall|x: int|
                    0 <= x < self.clusters@.len() && (#[trigger] self.clusters@[x]).parent.is_some() implies {
                        &&& self.clusters@[x].parent.unwrap() < x
                        &&& self.clusters@[self.clusters@[x].parent.unwrap() as int].children@.contains(x as usize)
                    } by {
                    let c = self.clusters@[x].parent.unwrap() as int;
                    assert(before[c].children@.contains(x as usize));
                    assert(c != j);
                    assert(before[c] == self.clusters@[c]);
                }
            }
            assert(labels_name_leaves(self.labels@, self.clusters@));
            assert(split_only_good(self.clusters@, self.config));
            assert(flat_when_no_depth(self.clusters@, self.config));
            assert(joined_roots(
                self.labels@,
                self.pixels@,
                self.width as int,
                self.config.diagonal,
                self.config.rule,
                self.clusters@,
            ));
            assert(self.clusters@.len() == before.len());
            assert forall|c: int| 0 <= c < j + 1 && (#[trigger] self.clusters@[c]).children@.len() == 0 implies {
                &&& self.clusters@[c].area == crate::grid::count_of(self.labels@, Some(c as usize))
                &&& self.clusters@[c].perimeter == crate::region::perimeter(self.labels@, self.width as int, c as usize)
                &&& self.clusters@[c].hollow == (crate::region::neighbour_count(self.labels@, self.width as int, c as usize, self.clusters@.len() as int)
                    <= self.config.hollow_neighbours)
            } by {
                if c < j {
                    assert(before[c] == self.clusters@[c]);
                }
            }
        }
        self.phase = Phase::Hollow { j: j + 1 };
    }

    /// One unit of work.
    fn advance<F: Fn(Color, Color) -> i32>(&mut self, perceptual: &F)
        requires
            old(self).wf(),
            !old(self).done(),
            forall|x: Color, y: Color| perceptual.requires((x, y)),
        ensures
            final(self).wf(),
            final(self).same_inputs(old(self)),
            lex_lt(final(self).measure(), old(self).measure()),
    {
        match self.phase {
            Phase::Partition { next } => {
                if next < self.pixels.len() {
                    self.partition_unit(next);
                } else {
                    self.end_partition();
                }
            },
            Phase::Deepen { levels, shift, hi, i } => {
                if i < hi {
                    self.deepen_unit(perceptual, levels, shift, hi, i);
                } else {
                    self.end_level(levels, shift, hi);
                }
            },
            Phase::Hollow { j } => {
                if j < self.clusters.len() {
                    self.hollow_unit(j);
                } else {
                    self.phase = Phase::Done;
                }
            },
            Phase::Done => {},
        }
    }

    /// Performs at most `batch_size` units of work (at least one), with
    /// `perceptual` as the color metric where the configuration asks for the
    /// perceptual one. Returns whether construction is finished.
    pub fn step_with<F: Fn(Color, Color) -> i32>(&mut self, perceptual: &F) -> (finished: bool)
        requires
            old(self).wf(),
            forall|x: Color, y: Color| perceptual.requires((x, y)),
        ensures
            final(self).wf(),
            final(self).same_inputs(old(self)),
            finished == final(self).done(),
            old(self).done() ==> final(self).measure() == old(self).measure(),
            !old(self).done() ==> lex_lt(final(self).measure(), old(self).measure()),
    {
        let budget: u32 = if self.config.batch_size == 0 { 1 } else { self.config.batch_size };
        let mut k: u32 = 0;
        while k < budget && !self.is_done()
            invariant
                self.wf(),
                self.same_inputs(old(self)),
                forall|x: Color, y: Color| perceptual.requires((x, y)),
                k <= budget,
                k == 0 ==> self.measure() == old(self).measure() && self.done() == old(self).done(),
                k > 0 ==> lex_lt(self.measure(), old(self).measure()),
            decreases budget - k,
        {
            self.advance(perceptual);
            k = k + 1;
        }
        self.is_done()
    }

    /// [`Self::step_with`] under the raw RGB metric.
    pub fn step(&mut self) -> (finished: bool)
        requires
            old(self).wf(),
            old(self).config.color_space == ColorSpace::RGB,
        ensures
            final(self).wf(),
            final(self).same_inputs(old(self)),
            finished == final(self).done(),
            !old(self).done() ==> lex_lt(final(self).measure(), old(self).measure()),
    {
        let raw = |a: Color, b: Color| -> (d: i32) { color_diff(a, b) };
        self.step_with(&raw)
    }

    /// Steps until construction is finished and returns the result.
    pub fn run_with<F: Fn(Color, Color) -> i32>(self, perceptual: &F) -> (r: Clusters)
        requires
            self.wf(),
            forall|x: Color, y: Color| perceptual.requires((x, y)),
        ensures
            r.wf(),
            r.config == self.config,
            r.width == self.width,
            r.height == self.height,
            r.pixels@ == self.pixels@,
    {
        let mut b = self;
        while !b.is_done()
            invariant
                b.wf(),
                b.same_inputs(&self),
                forall|x: Color, y: Color| perceptual.requires((x, y)),
            decreases b.measure().0, b.measure().1, b.measure().2,
        {
            b.step_with(perceptual);
        }
        b.result()
    }

    /// The finished hierarchy.
    pub fn result(self) -> (r: Clusters)
        requires
            self.wf(),
            self.done(),
        ensures
            r.wf(),
            r.config == self.config,
            r.width == self.width,
            r.height == self.height,
            r.labels@ == self.labels@,
            r.clusters@ == self.clusters@,
            r.pixels@ == self.pixels@,
    {
        Clusters {
            width: self.width,
            height: self.height,
            pixels: self.pixels,
            labels: self.labels,
            clusters: self.clusters,
            config: self.config,
        }
    }
}

} // verus!
