use vstd::prelude::*;

use crate::community::labels_wf;

verus! {

/// Totals of a degree map: how many nodes, the sum of their degrees, and
/// the largest and smallest degree (0 for an empty map).
pub struct DegreeSummary {
    pub total_nodes: usize,
    pub total_degree: u128,
    pub max_degree: usize,
    pub min_degree: usize,
}

/// The sum of the counts of `s`.
pub open spec fn count_total(s: Seq<(String, usize)>) -> int
    decreases s.len(),
{
    if s.len() == 0 {
        0
    } else {
        count_total(s.drop_last()) + s.last().1
    }
}

/// `m` is the largest count of `s`, or 0 if `s` is empty.
pub open spec fn is_max_count(s: Seq<(String, usize)>, m: usize) -> bool {
    &&& s.len() == 0 ==> m == 0
    &&& s.len() > 0 ==> (exists|k: int| 0 <= k < s.len() && s[k].1 == m)
    &&& forall|k: int| 0 <= k < s.len() ==> (#[trigger] s[k]).1 <= m
}

/// `m` is the smallest count of `s`, or 0 if `s` is empty.
pub open spec fn is_min_count(s: Seq<(String, usize)>, m: usize) -> bool {
    &&& s.len() == 0 ==> m == 0
    &&& s.len() > 0 ==> (exists|k: int| 0 <= k < s.len() && s[k].1 == m)
    &&& forall|k: int| 0 <= k < s.len() ==> m <= (#[trigger] s[k]).1
}

/// The number of nodes, the total degree and the extreme degrees of a
/// degree map.
pub fn summarize_degrees(degrees: &Vec<(String, usize)>) -> (r: DegreeSummary)
    ensures
        r.total_nodes == degrees@.len(),
        r.total_degree == count_total(degrees@),
        is_max_count(degrees@, r.max_degree),
        is_min_count(degrees@, r.min_degree),
{
    let n = degrees.len();
    let ghost s = degrees@;
    let mut total: u128 = 0;
    let mut max: usize = 0;
    let mut min: usize = 0;
    let mut i: usize = 0;
    while i < n
        invariant
            s == degrees@,
            n == s.len(),
            0 <= i <= n,
            total == count_total(s.take(i as int)),
            total <= i * (usize::MAX as int),
            i == 0 ==> max == 0 && min == 0,
            i > 0 ==> (exists|k: int| 0 <= k < i && s[k].1 == max),
            i > 0 ==> (exists|k: int| 0 <= k < i && s[k].1 == min),
            forall|k: int| 0 <= k < i ==> (#[trigger] s[k]).1 <= max,
            forall|k: int| 0 <= k < i ==> min <= (#[trigger] s[k]).1,
        decreases n - i,
    {
        let d = degrees[i].1;
        proof {
            assert(s.take(i + 1).drop_last() =~= s.take(i as int));
            assert((i + 1) * (usize::MAX as int) == i * (usize::MAX as int) + usize::MAX) by (
            nonlinear_arith);
            assert(i < usize::MAX);
            assert((i + 1) * (usize::MAX as int) <= usize::MAX * (usize::MAX as int)) by (
            nonlinear_arith)
                requires
                    i + 1 <= usize::MAX,
            ;
        }
        total = total + d as u128;
        if i == 0 || d > max {
            max = d;
        }
        if i == 0 || d < min {
            min = d;
        }
        proof {
            if i > 0 {
                let km = choose|k: int| 0 <= k < i && s[k].1 == max;
                let kn = choose|k: int| 0 <= k < i && s[k].1 == min;
            }
        }
        i = i + 1;
    }
    proof {
        assert(s.take(n as int) =~= s);
    }
    DegreeSummary { total_nodes: n, total_degree: total, max_degree: max, min_degree: min }
}

/// The nodes below `k`, in increasing order, whose label is `l`.
pub open spec fn members_upto(labels: Seq<usize>, l: usize, k: int) -> Seq<usize>
    decreases k,
{
    if k <= 0 {
        Seq::empty()
    } else if labels[k - 1] == l {
        members_upto(labels, l, k - 1).push((k - 1) as usize)
    } else {
        members_upto(labels, l, k - 1)
    }
}

/// The nodes that share one label.
pub struct Community {
    pub label: usize,
    pub members: Vec<usize>,
}

/// Some community of `cs` has the label `l`.
pub open spec fn has_label(cs: Seq<Community>, l: usize) -> bool {
    exists|k: int| 0 <= k < cs.len() && (#[trigger] cs[k]).label == l
}

/// Groups the nodes by their label: one community per label in use, by
/// increasing label, each listing its nodes in increasing order.
pub fn group_by_label(labels: &Vec<usize>) -> (r: Vec<Community>)
    requires
        labels_wf(labels@, labels@.len()),
    ensures
        forall|k: int|
            0 <= k < r@.len() ==> {
                &&& (#[trigger] r@[k]).label < labels@.len()
                &&& r@[k].members@ == members_upto(labels@, r@[k].label, labels@.len() as int)
                &&& r@[k].members@.len() > 0
            },
        forall|a: int, b: int| 0 <= a < b < r@.len() ==> (#[trigger] r@[a]).label < (#[trigger] r@[b]).label,
        forall|i: int| 0 <= i < labels@.len() ==> has_label(r@, #[trigger] labels@[i]),
{
    let n = labels.len();
    let ghost ls = labels@;
    let mut buckets: Vec<Vec<usize>> = Vec::new();
    let mut z: usize = 0;
    while z < n
        invariant
            0 <= z <= n,
            buckets@.len() == z,
            forall|q: int| 0 <= q < z ==> (#[trigger] buckets@[q])@.len() == 0,
        decreases n - z,
    {
        buckets.push(Vec::new());
        z = z + 1;
    }
    let mut i: usize = 0;
    while i < n
        invariant
            ls == labels@,
            n == ls.len(),
            labels_wf(ls, n as nat),
            0 <= i <= n,
            buckets@.len() == n,
            forall|l: int| 0 <= l < n ==> (#[trigger] buckets@[l])@ == members_upto(ls, l as usize, i as int),
        decreases n - i,
    {
        let l = labels[i];
        let ghost before = buckets@;
        buckets[l].push(i);
        proof {
            assert forall|q: int| 0 <= q < n implies (#[trigger] buckets@[q])@ == members_upto(
                ls,
                q as usize,
                i + 1,
            ) by {
                if q != l as int {
                    assert(buckets@[q] == before[q]);
                }
            }
        }
        i = i + 1;
    }
    let mut out: Vec<Community> = Vec::new();
    let mut l: usize = 0;
    while l < n
        invariant
            ls == labels@,
            n == ls.len(),
            labels_wf(ls, n as nat),
            0 <= l <= n,
            buckets@.len() == n,
            forall|q: int| l <= q < n ==> (#[trigger] buckets@[q])@ == members_upto(ls, q as usize, n as int),
            forall|k: int|
                0 <= k < out@.len() ==> {
                    &&& (#[trigger] out@[k]).label < l
                    &&& out@[k].members@ == members_upto(ls, out@[k].label, n as int)
                    &&& out@[k].members@.len() > 0
                },
            forall|a: int, b: int| 0 <= a < b < out@.len() ==> (#[trigger] out@[a]).label < (#[trigger] out@[b]).label,
            forall|q: int|
                0 <= q < l && (#[trigger] members_upto(ls, q as usize, n as int)).len() > 0 ==> exists|k: int|
                    0 <= k < out@.len() && (#[trigger] out@[k]).label == q,
        decreases n - l,
    {
        if buckets[l].len() > 0 {
            let mut members: Vec<usize> = Vec::new();
            let ghost before = buckets@;
            std::mem::swap(&mut members, &mut buckets[l]);
            proof {
                assert forall|q: int| l < q < n implies (#[trigger] buckets@[q])@ == members_upto(
                    ls,
                    q as usize,
                    n as int,
                ) by {
                    assert(buckets@[q] == before[q]);
                }
            }
            let ghost prev = out@;
            out.push(Community { label: l, members });
            proof {
                assert(out@[prev.len() as int].label == l);
                assert forall|q: int|
                    0 <= q < l + 1 && (#[trigger] members_upto(ls, q as usize, n as int)).len() > 0 implies exists|k: int|
                    0 <= k < out@.len() && (#[trigger] out@[k]).label == q by {
                    if q < l {
                        let k = choose|k: int| 0 <= k < prev.len() && (#[trigger] prev[k]).label == q;
                        assert(out@[k] == prev[k]);
                    } else {
                        assert(out@[prev.len() as int].label == q);
                    }
                }
            }
        }
        l = l + 1;
    }
    proof {
        assert forall|i: int| 0 <= i < n implies has_label(out@, #[trigger] labels@[i]) by {
            lemma_member_of_own_label(ls, i, n as int);
            let q = ls[i] as int;
            assert(q as usize == ls[i]);
            assert(members_upto(ls, q as usize, n as int).len() > 0);
            let k = choose|k: int| 0 <= k < out@.len() && (#[trigger] out@[k]).label == q;
            assert(0 <= k < out@.len() && out@[k].label == labels@[i]);
        }
    }
    out
}

proof fn lemma_member_of_own_label(labels: Seq<usize>, i: int, k: int)
    requires
        0 <= i < k <= labels.len(),
    ensures
        members_upto(labels, labels[i], k).len() > 0,
    decreases k,
{
    if i < k - 1 {
        lemma_member_of_own_label(labels, i, k - 1);
    }
}

/// The place of the first community with the most members, if there is any.
pub fn largest_community(communities: &Vec<Community>) -> (r: Option<usize>)
    ensures
        r is None <==> communities@.len() == 0,
        r matches Some(k) ==> k < communities@.len() && forall|q: int|
            0 <= q < communities@.len() ==> {
                &&& (#[trigger] communities@[q]).members@.len() <= communities@[k as int].members@.len()
                &&& q < k ==> communities@[q].members@.len() < communities@[k as int].members@.len()
            },
{
    if communities.len() == 0 {
        return None;
    }
    let mut best: usize = 0;
    let mut i: usize = 1;
    while i < communities.len()
        invariant
            1 <= i <= communities@.len(),
            best < i,
            forall|q: int|
                0 <= q < i ==> {
                    &&& (#[trigger] communities@[q]).members@.len() <= communities@[best as int].members@.len()
                    &&& q < best ==> communities@[q].members@.len() < communities@[best as int].members@.len()
                },
        decreases communities@.len() - i,
    {
        if communities[i].members.len() > communities[best].members.len() {
            best = i;
        }
        i = i + 1;
    }
    Some(best)
}

/// The place of the first community with the fewest members, if there is
/// any.
pub fn smallest_community(communities: &Vec<Community>) -> (r: Option<usize>)
    ensures
        r is None <==> communities@.len() == 0,
        r matches Some(k) ==> k < communities@.len() && forall|q: int|
            0 <= q < communities@.len() ==> {
                &&& communities@[k as int].members@.len() <= (#[trigger] communities@[q]).members@.len()
                &&& q < k ==> communities@[k as int].members@.len() < communities@[q].members@.len()
            },
{
    if communities.len() == 0 {
        return None;
    }
    let mut best: usize = 0;
    let mut i: usize = 1;
    while i < communities.len()
        invariant
            1 <= i <= communities@.len(),
            best < i,
            forall|q: int|
                0 <= q < i ==> {
                    &&& communities@[best as int].members@.len() <= (#[trigger] communities@[q]).members@.len()
                    &&& q < best ==> communities@[best as int].members@.len() < communities@[q].members@.len()
                },
        decreases communities@.len() - i,
    {
        if communities[i].members.len() < communities[best].members.len() {
            best = i;
        }
        i = i + 1;
    }
    Some(best)
}

} // verus!
