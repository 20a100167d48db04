use vstd::prelude::*;
use crate::color::{Color, spec_color_same, valid_shift, color_same, lemma_color_same_symmetric};
use vstd::arithmetic::div_mod::{lemma_mod_add_multiples_vanish, lemma_mod_sub_multiples_vanish};

verus! {

/// How the designated key color takes part in clustering.
#[derive(Clone, Copy, Debug, PartialEq, Eq, Structural)]
pub enum KeyingAction {
    /// Key-colored pixels are clustered like any other.
    Keep,
    /// Key-colored pixels never join a cluster of other pixels.
    Discard,
    /// All key-colored pixels form one reserved background cluster.
    Background,
}

impl Default for KeyingAction {
    fn default() -> (k: KeyingAction)
        ensures
            k == KeyingAction::Keep,
    {
        KeyingAction::Keep
    }
}

/// The rule by which two adjacent pixels join one cluster.
#[derive(Clone, Copy, Debug, PartialEq, Eq, Structural)]
pub struct JoinRule {
    pub shift: i32,
    pub tolerance: i32,
    pub key: Color,
    pub keying: KeyingAction,
}

impl JoinRule {
    pub open spec fn wf(&self) -> bool {
        valid_shift(self.shift as int)
    }

    pub open spec fn joins(&self, a: Color, b: Color) -> bool {
        &&& spec_color_same(a, b, self.shift as int, self.tolerance as int)
        &&& (self.keying == KeyingAction::Keep || ((a == self.key) == (b == self.key)))
    }

    pub fn join(&self, a: Color, b: Color) -> (r: bool)
        requires
            self.wf(),
        ensures
            r == self.joins(a, b),
    {
        let same = color_same(a, b, self.shift, self.tolerance);
        match self.keying {
            KeyingAction::Keep => same,
            _ => same && ((a == self.key) == (b == self.key)),
        }
    }
}

/// The join rule does not depend on the order of its arguments.
pub proof fn lemma_joins_symmetric(rule: JoinRule, a: Color, b: Color)
    requires
        rule.wf(),
    ensures
        rule.joins(a, b) == rule.joins(b, a),
{
    lemma_color_same_symmetric(a, b, rule.shift as int, rule.tolerance as int);
}

/// Number of neighbour directions: 4, or 8 with diagonals.
pub open spec fn num_dirs(diagonal: bool) -> int {
    if diagonal {
        8
    } else {
        4
    }
}

/// The pixel next to `p` in direction `d` of an image `w` pixels wide holding
/// `n` pixels, if it lies inside the image. Directions 0..4 are left, right,
/// up, down; 4..8 are the diagonals.
pub open spec fn step(w: int, n: int, p: int, d: int) -> Option<int> {
    let left = p > 0 && p % w != 0;
    let right = (p + 1) % w != 0 && p + 1 < n;
    let up = p >= w;
    let down = p + w < n;
    if d == 0 && left {
        Some(p - 1)
    } else if d == 1 && right {
        Some(p + 1)
    } else if d == 2 && up {
        Some(p - w)
    } else if d == 3 && down {
        Some(p + w)
    } else if d == 4 && p > w && left {
        Some(p - w - 1)
    } else if d == 5 && up && right {
        Some(p - w + 1)
    } else if d == 6 && down && left {
        Some(p + w - 1)
    } else if d == 7 && down && (p + w + 1) % w != 0 && p + w + 1 < n {
        Some(p + w + 1)
    } else {
        None
    }
}

pub fn step_dir(w: usize, n: usize, p: usize, d: usize) -> (r: Option<usize>)
    requires
        w > 0,
        p < n,
        d < 8,
    ensures
        r == (match step(w as int, n as int, p as int, d as int) {
            Some(q) => Some(q as usize),
            None => None,
        }),
        r matches Some(q) ==> q < n,
{
    let left = p > 0 && p % w != 0;
    let right = (p + 1) % w != 0 && p + 1 < n;
    let up = p >= w;
    let down = n - p > w;
    if d == 0 && left {
        Some(p - 1)
    } else if d == 1 && right {
        Some(p + 1)
    } else if d == 2 && up {
        Some(p - w)
    } else if d == 3 && down {
        Some(p + w)
    } else if d == 4 && p > w && left {
        Some(p - w - 1)
    } else if d == 5 && up && right {
        Some(p - w + 1)
    } else if d == 6 && down && left {
        Some(p + w - 1)
    } else if d == 7 && down && (p + w + 1) % w != 0 && n - p > w + 1 {
        Some(p + w + 1)
    } else {
        None
    }
}

/// The direction that leads back.
pub open spec fn opposite(d: int) -> int {
    if d == 0 {
        1
    } else if d == 1 {
        0
    } else if d == 2 {
        3
    } else if d == 3 {
        2
    } else if d == 4 {
        7
    } else if d == 5 {
        6
    } else if d == 6 {
        5
    } else {
        4
    }
}

/// Adjacency is symmetric: from the neighbour, the opposite direction leads back.
pub proof fn lemma_step_symmetric(w: int, n: int, diagonal: bool, p: int, d: int)
    requires
        w > 0,
        0 <= p < n,
        0 <= d < num_dirs(diagonal),
        step(w, n, p, d).is_some(),
    ensures
        0 <= step(w, n, p, d).unwrap() < n,
        0 <= opposite(d) < num_dirs(diagonal),
        step(w, n, step(w, n, p, d).unwrap(), opposite(d)) == Some(p),
{
    let q = step(w, n, p, d).unwrap();
    lemma_mod_sub_multiples_vanish(p + 1, w);
    lemma_mod_add_multiples_vanish(p, w);
    lemma_mod_sub_multiples_vanish(p, w);
    lemma_mod_add_multiples_vanish(p + 1, w);
    if d == 4 {
        assert(q + w + 1 == p);
    }
    if d == 5 {
        assert(q == -w + (p + 1));
    }
}

/// Every joinable neighbour of pixel `p` no longer carries the label `from`.
pub open spec fn closed_at(
    labels: Seq<Option<usize>>,
    pixels: Seq<Color>,
    w: int,
    diagonal: bool,
    rule: JoinRule,
    from: Option<usize>,
    p: int,
) -> bool {
    forall|d: int|
        0 <= d < num_dirs(diagonal) && (#[trigger] step(w, labels.len() as int, p, d)).is_some()
            && rule.joins(pixels[p], pixels[step(w, labels.len() as int, p, d).unwrap()])
            ==> labels[step(w, labels.len() as int, p, d).unwrap()] != from
}

/// Adjacent pixels that the rule joins carry the same label, wherever the
/// first has one.
pub open spec fn joined_equal(
    labels: Seq<Option<usize>>,
    pixels: Seq<Color>,
    w: int,
    diagonal: bool,
    rule: JoinRule,
) -> bool {
    forall|p: int, d: int|
        0 <= p < labels.len() && 0 <= d < num_dirs(diagonal) && labels[p].is_some()
            && (#[trigger] step(w, labels.len() as int, p, d)).is_some() && rule.joins(
            pixels[p],
            pixels[step(w, labels.len() as int, p, d).unwrap()],
        ) ==> labels[step(w, labels.len() as int, p, d).unwrap()] == labels[p]
}

/// Pixel `b` is a neighbour of pixel `a` that `rule` joins to it.
pub open spec fn joined_step(pixels: Seq<Color>, w: int, diagonal: bool, rule: JoinRule, a: int, b: int) -> bool {
    exists|d: int|
        0 <= d < num_dirs(diagonal) && #[trigger] step(w, pixels.len() as int, a, d) == Some(b) && rule.joins(
            pixels[a],
            pixels[b],
        )
}

/// A walk over the image whose consecutive pixels are joined neighbours.
pub open spec fn is_path(pixels: Seq<Color>, w: int, diagonal: bool, rule: JoinRule, path: Seq<int>) -> bool {
    &&& path.len() >= 1
    &&& forall|k: int| 0 <= k < path.len() ==> 0 <= #[trigger] path[k] < pixels.len()
    &&& forall|k: int|
        0 <= k < path.len() - 1 ==> joined_step(pixels, w, diagonal, rule, #[trigger] path[k], path[k + 1])
}

/// Pixel `b` can be reached from pixel `a` through joined neighbours.
pub open spec fn linked(pixels: Seq<Color>, w: int, diagonal: bool, rule: JoinRule, a: int, b: int) -> bool {
    exists|path: Seq<int>|
        #[trigger] is_path(pixels, w, diagonal, rule, path) && path[0] == a && path.last() == b
}

pub proof fn lemma_linked_self(pixels: Seq<Color>, w: int, diagonal: bool, rule: JoinRule, a: int)
    requires
        0 <= a < pixels.len(),
    ensures
        linked(pixels, w, diagonal, rule, a, a),
{
    let path = seq![a];
    assert(is_path(pixels, w, diagonal, rule, path));
}

pub proof fn lemma_linked_extend(
    pixels: Seq<Color>,
    w: int,
    diagonal: bool,
    rule: JoinRule,
    a: int,
    p: int,
    q: int,
)
    requires
        linked(pixels, w, diagonal, rule, a, p),
        joined_step(pixels, w, diagonal, rule, p, q),
        0 <= q < pixels.len(),
    ensures
        linked(pixels, w, diagonal, rule, a, q),
{
    let path = choose|path: Seq<int>|
        #[trigger] is_path(pixels, w, diagonal, rule, path) && path[0] == a && path.last() == p;
    let np = path.push(q);
    assert forall|k: int| 0 <= k < np.len() implies 0 <= #[trigger] np[k] < pixels.len() by {
        if k < path.len() {
            assert(np[k] == path[k]);
        }
    }
    assert forall|k: int| 0 <= k < np.len() - 1 implies joined_step(
        pixels,
        w,
        diagonal,
        rule,
        #[trigger] np[k],
        np[k + 1],
    ) by {
        if k < path.len() - 1 {
            assert(np[k] == path[k]);
            assert(np[k + 1] == path[k + 1]);
        } else {
            assert(np[k] == p);
            assert(np[k + 1] == q);
        }
    }
    assert(is_path(pixels, w, diagonal, rule, np));
    assert(np[0] == a);
}

/// How many entries of `s` equal `v`.
pub open spec fn count_of(s: Seq<Option<usize>>, v: Option<usize>) -> nat
    decreases s.len(),
{
    if s.len() == 0 {
        0
    } else {
        count_of(s.drop_last(), v) + if s.last() == v {
            1nat
        } else {
            0nat
        }
    }
}

pub proof fn lemma_count_update(s: Seq<Option<usize>>, i: int, v: Option<usize>, x: Option<usize>)
    requires
        0 <= i < s.len(),
        s[i] == v,
        x != v,
    ensures
        count_of(s.update(i, x), v) + 1 == count_of(s, v),
    decreases s.len(),
{
    let t = s.update(i, x);
    if i == s.len() - 1 {
        assert(t.drop_last() =~= s.drop_last());
    } else {
        assert(t.drop_last() =~= s.drop_last().update(i, x));
        lemma_count_update(s.drop_last(), i, v, x);
    }
}

pub proof fn lemma_count_take(s: Seq<Option<usize>>, i: int, v: Option<usize>)
    requires
        0 <= i < s.len(),
    ensures
        count_of(s.take(i + 1), v) == count_of(s.take(i), v) + if s[i] == v {
            1nat
        } else {
            0nat
        },
{
    assert(s.take(i + 1).drop_last() =~= s.take(i));
}

/// A positive count has a witness.
pub proof fn lemma_count_positive(s: Seq<Option<usize>>, v: Option<usize>)
    requires
        count_of(s, v) > 0,
    ensures
        exists|x: int| 0 <= x < s.len() && s[x] == v,
    decreases s.len(),
{
    if s.last() != v {
        lemma_count_positive(s.drop_last(), v);
        let x = choose|x: int| 0 <= x < s.drop_last().len() && s.drop_last()[x] == v;
        assert(s[x] == v);
    }
}

/// A member is counted.
pub proof fn lemma_count_member(s: Seq<Option<usize>>, x: int, v: Option<usize>)
    requires
        0 <= x < s.len(),
        s[x] == v,
    ensures
        count_of(s, v) > 0,
    decreases s.len(),
{
    if x < s.len() - 1 {
        lemma_count_member(s.drop_last(), x, v);
    }
}

/// Counts the pixels labelled `v`.
pub fn count_label(labels: &Vec<Option<usize>>, v: Option<usize>) -> (r: usize)
    ensures
        r == count_of(labels@, v),
{
    let mut k: usize = 0;
    let mut c: usize = 0;
    while k < labels.len()
        invariant
            k <= labels.len(),
            c == count_of(labels@.take(k as int), v),
            c <= k,
        decreases labels.len() - k,
    {
        proof {
            lemma_count_take(labels@, k as int, v);
        }
        if labels[k] == v {
            c = c + 1;
        }
        k = k + 1;
    }
    assert(labels@.take(k as int) =~= labels@);
    c
}

/// Relabels, from `seed`, every pixel labelled `from` that is reachable through
/// adjacent pixels that `rule` joins, giving it the label `to`.
pub fn grow(
    labels: &mut Vec<Option<usize>>,
    pixels: &Vec<Color>,
    w: usize,
    diagonal: bool,
    rule: &JoinRule,
    seed: usize,
    from: Option<usize>,
    to: Option<usize>,
)
    requires
        w > 0,
        rule.wf(),
        old(labels)@.len() == pixels@.len(),
        seed < pixels@.len(),
        old(labels)@[seed as int] == from,
        from != to,
    ensures
        final(labels)@.len() == old(labels)@.len(),
        final(labels)@[seed as int] == to,
        forall|p: int|
            0 <= p < final(labels)@.len() ==> #[trigger] final(labels)@[p] == old(labels)@[p] || (
            old(labels)@[p] == from && final(labels)@[p] == to),
        forall|p: int|
            0 <= p < final(labels)@.len() && #[trigger] final(labels)@[p] == to && old(labels)@[p]
                == from ==> closed_at(final(labels)@, pixels@, w as int, diagonal, *rule, from, p),
        forall|p: int|
            0 <= p < final(labels)@.len() && #[trigger] final(labels)@[p] == to && old(labels)@[p]
                == from ==> linked(pixels@, w as int, diagonal, *rule, seed as int, p),
{
    let n = pixels.len();
    let ndirs: usize = if diagonal { 8 } else { 4 };
    let ghost orig = labels@;
    labels.set(seed, to);
    proof {
        lemma_count_update(orig, seed as int, from, to);
    }
    let mut stack: Vec<usize> = Vec::new();
    stack.push(seed);
    assert(stack@[0] == seed);
    assert forall|x: int|
        0 <= x < n && #[trigger] labels@[x] == to && orig[x] == from implies stack@.contains(x as usize)
            && linked(pixels@, w as int, diagonal, *rule, seed as int, x) by {
        assert(x == seed);
        lemma_linked_self(pixels@, w as int, diagonal, *rule, seed as int);
    }
    while stack.len() > 0
        invariant
            w > 0,
            rule.wf(),
            n == pixels@.len(),
            labels@.len() == n,
            from != to,
            labels@[seed as int] == to,
            seed < n,
            ndirs <= 8,
            forall|k: int| 0 <= k < stack@.len() ==> #[trigger] stack@[k] < n,
            forall|p: int|
                0 <= p < n ==> #[trigger] labels@[p] == orig[p] || (orig[p] == from && labels@[p]
                    == to),
            ndirs == num_dirs(diagonal),
            orig.len() == n,
            forall|x: int|
                0 <= x < n && #[trigger] labels@[x] == to && orig[x] == from ==> stack@.contains(x as usize)
                    || closed_at(labels@, pixels@, w as int, diagonal, *rule, from, x),
            forall|x: int|
                0 <= x < n && #[trigger] labels@[x] == to && orig[x] == from ==> linked(
                    pixels@,
                    w as int,
                    diagonal,
                    *rule,
                    seed as int,
                    x,
                ),
            forall|k: int|
                0 <= k < stack@.len() ==> labels@[#[trigger] stack@[k] as int] == to && orig[stack@[k] as int]
                    == from,
        decreases 2 * count_of(labels@, from) + stack@.len(),
    {
        let ghost full = stack@;
        let p = stack.pop().unwrap();
        proof {
            assert(stack@ =~= full.drop_last());
            assert(full[full.len() - 1] == p);
            assert(labels@[p as int] == to && orig[p as int] == from);
            assert forall|x: int|
                0 <= x < n && #[trigger] labels@[x] == to && orig[x] == from && x != p implies stack@.contains(x as usize)
                    || closed_at(labels@, pixels@, w as int, diagonal, *rule, from, x) by {
                if full.contains(x as usize) {
                    let k = choose|k: int| 0 <= k < full.len() && full[k] == x as usize;
                    assert(k < full.len() - 1);
                    assert(stack@[k] == x as usize);
                }
            }
        }
        let ghost m = 2 * count_of(labels@, from) + stack@.len();
        let mut d: usize = 0;
        while d < ndirs
            invariant
                w > 0,
                rule.wf(),
                p < n,
                n == pixels@.len(),
                labels@.len() == n,
                from != to,
                ndirs <= 8,
                labels@[seed as int] == to,
                seed < n,
                forall|k: int| 0 <= k < stack@.len() ==> #[trigger] stack@[k] < n,
                forall|p: int|
                    0 <= p < n ==> #[trigger] labels@[p] == orig[p] || (orig[p] == from
                        && labels@[p] == to),
                2 * count_of(labels@, from) + stack@.len() <= m,
                ndirs == num_dirs(diagonal),
                orig.len() == n,
                d <= ndirs,
                labels@[p as int] == to && orig[p as int] == from,
                forall|x: int|
                    0 <= x < n && #[trigger] labels@[x] == to && orig[x] == from ==> linked(
                        pixels@,
                        w as int,
                        diagonal,
                        *rule,
                        seed as int,
                        x,
                    ),
                forall|k: int|
                    0 <= k < stack@.len() ==> labels@[#[trigger] stack@[k] as int] == to && orig[stack@[k] as int]
                        == from,
                forall|x: int|
                    0 <= x < n && #[trigger] labels@[x] == to && orig[x] == from && x != p ==> stack@.contains(
                        x as usize,
                    ) || closed_at(labels@, pixels@, w as int, diagonal, *rule, from, x),
                forall|d2: int|
                    0 <= d2 < d && (#[trigger] step(w as int, n as int, p as int, d2)).is_some()
                        && rule.joins(pixels@[p as int], pixels@[step(w as int, n as int, p as int, d2).unwrap()])
                        ==> labels@[step(w as int, n as int, p as int, d2).unwrap()] != from,
            decreases ndirs - d,
        {
            let ghost before = labels@;
            let ghost stack_before = stack@;
            match step_dir(w, n, p, d) {
                Some(q) => {
                    if labels[q] == from && rule.join(pixels[p], pixels[q]) {
                        proof {
                            lemma_count_update(labels@, q as int, from, to);
                            assert(joined_step(pixels@, w as int, diagonal, *rule, p as int, q as int));
                            lemma_linked_extend(pixels@, w as int, diagonal, *rule, seed as int, p as int, q as int);
                        }
                        labels.set(q, to);
                        stack.push(q);
                        proof {
                            assert forall|k: int| 0 <= k < stack@.len() implies labels@[#[trigger] stack@[k] as int] == to
                                && orig[stack@[k] as int] == from by {
                                if k < stack_before.len() {
                                    assert(stack@[k] == stack_before[k]);
                                }
                            }
                        }
                        proof {
                            assert(stack@[stack@.len() - 1] == q);
                            assert forall|v: usize| stack_before.contains(v) implies stack@.contains(v) by {
                                let k = choose|k: int| 0 <= k < stack_before.len() && stack_before[k] == v;
                                assert(stack@[k] == v);
                            }
                        }
                    }
                },
                None => {},
            }
            proof {
                assert forall|x: int|
                    0 <= x < n && #[trigger] labels@[x] == to && orig[x] == from && x != p implies stack@.contains(
                        x as usize,
                    ) || closed_at(labels@, pixels@, w as int, diagonal, *rule, from, x) by {
                    if before[x] == to {
                        if !stack_before.contains(x as usize) {
                            assert(closed_at(before, pixels@, w as int, diagonal, *rule, from, x));
                            assert forall|d3: int|
                                0 <= d3 < num_dirs(diagonal) && (#[trigger] step(w as int, n as int, x, d3)).is_some()
                                    && rule.joins(pixels@[x], pixels@[step(w as int, n as int, x, d3).unwrap()])
                                    implies labels@[step(w as int, n as int, x, d3).unwrap()] != from by {
                                assert(before[step(w as int, n as int, x, d3).unwrap()] != from);
                            }
                        }
                    }
                }
            }
            d = d + 1;
        }
        proof {
            assert(closed_at(labels@, pixels@, w as int, diagonal, *rule, from, p as int));
        }
    }
}

} // verus!
