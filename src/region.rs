use vstd::prelude::*;
use crate::grid::step;

verus! {

/// Every pixel has a label, and each label is a cluster identifier below `k`.
pub open spec fn all_labelled(labels: Seq<Option<usize>>, k: int) -> bool {
    forall|p: int| 0 <= p < labels.len() ==> (#[trigger] labels[p]).is_some() && labels[p].unwrap() < k
}

/// The pixel in direction `d` (of the four) from `p` lies in the image and is
/// labelled `j`.
pub open spec fn touches(labels: Seq<Option<usize>>, w: int, p: int, d: int, j: usize) -> bool {
    &&& 0 <= d < 4
    &&& step(w, labels.len() as int, p, d).is_some()
    &&& labels[step(w, labels.len() as int, p, d).unwrap()] == Some(j)
}

/// Among the (pixel, direction) pairs before `(p, d)` in scan order, one goes
/// from a pixel of cluster `c` to a pixel of cluster `j`, with `j` other than `c`.
pub open spec fn seen_border(labels: Seq<Option<usize>>, w: int, c: usize, j: usize, p: int, d: int) -> bool {
    &&& j != c
    &&& exists|p2: int, d2: int|
        0 <= p2 < labels.len() && (p2 < p || (p2 == p && d2 < d)) && labels[p2] == Some(c)
            && #[trigger] touches(labels, w, p2, d2, j)
}

/// Cluster `j` is a neighbour of cluster `c`: they share a pixel border.
pub open spec fn borders(labels: Seq<Option<usize>>, w: int, c: usize, j: usize) -> bool {
    &&& j != c
    &&& exists|p: int, d: int|
        0 <= p < labels.len() && labels[p] == Some(c) && #[trigger] touches(labels, w, p, d, j)
}

/// Which of the clusters `0..k` are neighbours of cluster `c`.
pub open spec fn neighbour_flags(labels: Seq<Option<usize>>, w: int, c: usize, k: int) -> Seq<bool> {
    Seq::new(k as nat, |j: int| borders(labels, w, c, j as usize))
}

/// How many entries of `s` are true.
pub open spec fn count_true(s: Seq<bool>) -> nat
    decreases s.len(),
{
    if s.len() == 0 {
        0
    } else {
        count_true(s.drop_last()) + if s.last() {
            1nat
        } else {
            0nat
        }
    }
}

/// The number of distinct neighbours of cluster `c` among the clusters `0..k`.
pub open spec fn neighbour_count(labels: Seq<Option<usize>>, w: int, c: usize, k: int) -> nat {
    count_true(neighbour_flags(labels, w, c, k))
}

/// One if the border of pixel `p` in direction `d` separates cluster `c` from
/// another cluster, else zero.
pub open spec fn edge(labels: Seq<Option<usize>>, w: int, c: usize, p: int, d: int) -> nat {
    if labels[p] == Some(c) && step(w, labels.len() as int, p, d).is_some() && labels[step(
        w,
        labels.len() as int,
        p,
        d,
    ).unwrap()] != Some(c) {
        1
    } else {
        0
    }
}

/// The inner border length of cluster `c` over the pixels `0..k`: image edges
/// do not count.
pub open spec fn perimeter_upto(labels: Seq<Option<usize>>, w: int, c: usize, k: int) -> nat
    decreases k,
{
    if k <= 0 {
        0
    } else {
        perimeter_upto(labels, w, c, k - 1) + edge(labels, w, c, k - 1, 0) + edge(labels, w, c, k - 1, 1)
            + edge(labels, w, c, k - 1, 2) + edge(labels, w, c, k - 1, 3)
    }
}

/// The inner border length of cluster `c`.
pub open spec fn perimeter(labels: Seq<Option<usize>>, w: int, c: usize) -> nat {
    perimeter_upto(labels, w, c, labels.len() as int)
}

pub proof fn lemma_count_true_take(s: Seq<bool>, i: int)
    requires
        0 <= i < s.len(),
    ensures
        count_true(s.take(i + 1)) == count_true(s.take(i)) + if s[i] {
            1nat
        } else {
            0nat
        },
{
    assert(s.take(i + 1).drop_last() =~= s.take(i));
}

/// Counts the true entries.
pub fn count_flags(flags: &Vec<bool>) -> (r: usize)
    ensures
        r == count_true(flags@),
{
    let mut j: usize = 0;
    let mut c: usize = 0;
    while j < flags.len()
        invariant
            j <= flags.len(),
            c == count_true(flags@.take(j as int)),
            c <= j,
        decreases flags.len() - j,
    {
        proof {
            lemma_count_true_take(flags@, j as int);
        }
        if flags[j] {
            c = c + 1;
        }
        j = j + 1;
    }
    assert(flags@.take(j as int) =~= flags@);
    c
}

/// Marks which clusters border cluster `c`.
pub fn neighbours_of(labels: &Vec<Option<usize>>, w: usize, c: usize, k: usize) -> (adj: Vec<bool>)
    requires
        w > 0,
        all_labelled(labels@, k as int),
    ensures
        adj@ == neighbour_flags(labels@, w as int, c, k as int),
{
    let n = labels.len();
    let mut adj: Vec<bool> = Vec::new();
    let mut j: usize = 0;
    while j < k
        invariant
            j <= k,
            adj@.len() == j,
            forall|i: int| 0 <= i < j ==> !(#[trigger] adj@[i]),
        decreases k - j,
    {
        adj.push(false);
        j = j + 1;
    }
    let mut p: usize = 0;
    while p < n
        invariant
            w > 0,
            n == labels@.len(),
            p <= n,
            all_labelled(labels@, k as int),
            adj@.len() == k,
            forall|i: int|
                0 <= i < k ==> #[trigger] adj@[i] == seen_border(labels@, w as int, c, i as usize, p as int, 0),
        decreases n - p,
    {
        let mut d: usize = 0;
        while d < 4
            invariant
                w > 0,
                n == labels@.len(),
                p < n,
                d <= 4,
                all_labelled(labels@, k as int),
                adj@.len() == k,
                forall|i: int|
                    0 <= i < k ==> #[trigger] adj@[i] == seen_border(labels@, w as int, c, i as usize, p as int, d as int),
            decreases 4 - d,
        {
            let ghost before = adj@;
            if labels[p] == Some(c) {
                match crate::grid::step_dir(w, n, p, d) {
                    Some(q) => {
                        let j = labels[q].unwrap();
                        if j != c {
                            adj.set(j, true);
                        }
                    },
                    None => {},
                }
            }
            proof {
                assert forall|i: int| 0 <= i < k implies #[trigger] adj@[i] == seen_border(
                    labels@,
                    w as int,
                    c,
                    i as usize,
                    p as int,
                    d + 1,
                ) by {
                    if touches(labels@, w as int, p as int, d as int, i as usize) && labels@[p as int] == Some(c) && i != c {
                        assert(seen_border(labels@, w as int, c, i as usize, p as int, d + 1));
                    }
                    if seen_border(labels@, w as int, c, i as usize, p as int, d + 1) {
                        let (p2, d2) = choose|p2: int, d2: int|
                            0 <= p2 < labels@.len() && (p2 < p || (p2 == p && d2 < d + 1))
                                && labels@[p2] == Some(c) && #[trigger] touches(labels@, w as int, p2, d2, i as usize);
                        if !(p2 == p && d2 == d) {
                            assert(seen_border(labels@, w as int, c, i as usize, p as int, d as int));
                        }
                    }
                }
            }
            d = d + 1;
        }
        proof {
            assert forall|i: int| 0 <= i < k implies #[trigger] adj@[i] == seen_border(
                labels@,
                w as int,
                c,
                i as usize,
                p + 1,
                0,
            ) by {
                if seen_border(labels@, w as int, c, i as usize, p + 1, 0) {
                    let (p2, d2) = choose|p2: int, d2: int|
                        0 <= p2 < labels@.len() && (p2 < p + 1 || (p2 == p + 1 && d2 < 0))
                            && labels@[p2] == Some(c) && #[trigger] touches(labels@, w as int, p2, d2, i as usize);
                    assert(seen_border(labels@, w as int, c, i as usize, p as int, 4));
                }
                if seen_border(labels@, w as int, c, i as usize, p as int, 4) {
                    let (p2, d2) = choose|p2: int, d2: int|
                        0 <= p2 < labels@.len() && (p2 < p || (p2 == p && d2 < 4))
                            && labels@[p2] == Some(c) && #[trigger] touches(labels@, w as int, p2, d2, i as usize);
                    assert(seen_border(labels@, w as int, c, i as usize, p + 1, 0));
                }
            }
        }
        p = p + 1;
    }
    proof {
        assert forall|i: int| 0 <= i < k implies #[trigger] adj@[i] == neighbour_flags(labels@, w as int, c, k as int)[i] by {
            if borders(labels@, w as int, c, i as usize) {
                let (p2, d2) = choose|p2: int, d2: int|
                    0 <= p2 < labels@.len() && labels@[p2] == Some(c) && #[trigger] touches(labels@, w as int, p2, d2, i as usize);
                assert(seen_border(labels@, w as int, c, i as usize, n as int, 0));
            }
        }
        assert(adj@ =~= neighbour_flags(labels@, w as int, c, k as int));
    }
    adj
}

/// The inner border length of cluster `c`.
pub fn perimeter_of(labels: &Vec<Option<usize>>, w: usize, c: usize) -> (r: usize)
    requires
        w > 0,
        labels@.len() < usize::MAX / 4,
    ensures
        r == perimeter(labels@, w as int, c),
{
    let n = labels.len();
    let mut p: usize = 0;
    let mut total: usize = 0;
    while p < n
        invariant
            w > 0,
            n == labels@.len(),
            n < usize::MAX / 4,
            p <= n,
            total == perimeter_upto(labels@, w as int, c, p as int),
            total <= 4 * p,
        decreases n - p,
    {
        let mut d: usize = 0;
        let ghost base = total;
        while d < 4
            invariant
                w > 0,
                n == labels@.len(),
                n < usize::MAX / 4,
                p < n,
                d <= 4,
                base <= 4 * p,
                total == base + (if d > 0 { edge(labels@, w as int, c, p as int, 0) } else { 0 })
                    + (if d > 1 { edge(labels@, w as int, c, p as int, 1) } else { 0 })
                    + (if d > 2 { edge(labels@, w as int, c, p as int, 2) } else { 0 })
                    + (if d > 3 { edge(labels@, w as int, c, p as int, 3) } else { 0 }),
            decreases 4 - d,
        {
            if labels[p] == Some(c) {
                match crate::grid::step_dir(w, n, p, d) {
                    Some(q) => {
                        if labels[q] != Some(c) {
                            total = total + 1;
                        }
                    },
                    None => {},
                }
            }
            d = d + 1;
        }
        p = p + 1;
    }
    total
}

} // verus!
