use vstd::prelude::*;

verus! {

/// Entry `i` of `s` ranks before entry `j`: a higher count, or an equal
/// count and an earlier place.
pub open spec fn ranks_before(s: Seq<(String, usize)>, i: int, j: int) -> bool {
    s[i].1 > s[j].1 || (s[i].1 == s[j].1 && i < j)
}

/// `picks` are the places of the first `min(n, s.len())` entries of `s` in
/// ranking order.
pub open spec fn is_top_picks(s: Seq<(String, usize)>, n: nat, picks: Seq<int>) -> bool {
    &&& picks.len() == if n < s.len() {
        n
    } else {
        s.len()
    }
    &&& forall|k: int| 0 <= k < picks.len() ==> 0 <= #[trigger] picks[k] < s.len()
    &&& forall|a: int, b: int|
        0 <= a < b < picks.len() ==> ranks_before(s, #[trigger] picks[a], #[trigger] picks[b])
    &&& forall|j: int, k: int|
        0 <= j < s.len() && !picks.contains(j) && 0 <= k < picks.len() ==> #[trigger] ranks_before(
            s,
            picks[k],
            j,
        )
}

/// `out` lists the `n` highest-ranked entries of `s` (all of them if there
/// are fewer), highest first, ties in their order in `s`.
pub open spec fn is_top(s: Seq<(String, usize)>, n: nat, out: Seq<(String, usize)>) -> bool {
    exists|picks: Seq<int>|
        is_top_picks(s, n, picks) && out.len() == picks.len() && forall|k: int|
            0 <= k < out.len() ==> #[trigger] out[k] == s[picks[k]]
}

/// The `top_n` entries with the highest counts, highest first; entries with
/// equal counts keep their order.
fn top_by_count(entries: &Vec<(String, usize)>, top_n: usize) -> (r: Vec<(String, usize)>)
    ensures
        is_top(entries@, top_n as nat, r@),
{
    let len = entries.len();
    let m = if top_n < len {
        top_n
    } else {
        len
    };
    let ghost s = entries@;
    let mut taken: Vec<bool> = Vec::new();
    let mut z: usize = 0;
    while z < len
        invariant
            0 <= z <= len,
            taken@.len() == z,
            forall|q: int| 0 <= q < z ==> !taken@[q],
        decreases len - z,
    {
        taken.push(false);
        z = z + 1;
    }
    let ghost mut picks: Seq<int> = Seq::empty();
    let mut out: Vec<(String, usize)> = Vec::new();
    let mut k: usize = 0;
    while k < m
        invariant
            s == entries@,
            len == s.len(),
            m <= len,
            m == (if top_n < len {
                top_n
            } else {
                len
            }),
            0 <= k <= m,
            taken@.len() == len,
            picks.len() == k,
            out@.len() == k,
            forall|q: int| 0 <= q < k ==> 0 <= #[trigger] picks[q] < len,
            forall|q: int| 0 <= q < k ==> #[trigger] out@[q] == s[picks[q]],
            forall|j: int| 0 <= j < len ==> (#[trigger] taken@[j] <==> picks.contains(j)),
            forall|a: int, b: int|
                0 <= a < b < k ==> ranks_before(s, #[trigger] picks[a], #[trigger] picks[b]),
            forall|j: int, q: int|
                0 <= j < len && !picks.contains(j) && 0 <= q < k ==> #[trigger] ranks_before(
                    s,
                    picks[q],
                    j,
                ),
        decreases m - k,
    {
        // picks has k < len distinct places, so some place is untaken
        proof {
            lemma_untaken_exists(picks, len as int);
        }
        let mut best: usize = 0;
        let mut found = false;
        let mut j: usize = 0;
        while j < len
            invariant
                s == entries@,
                len == s.len(),
                taken@.len() == len,
                forall|x: int| 0 <= x < len ==> (#[trigger] taken@[x] <==> picks.contains(x)),
                0 <= j <= len,
                found ==> best < j && !taken@[best as int],
                found ==> forall|x: int|
                    0 <= x < j && !taken@[x] && x != best ==> ranks_before(s, best as int, x),
                !found ==> forall|x: int| 0 <= x < j ==> taken@[x],
            decreases len - j,
        {
            if !taken[j] {
                if !found || entries[j].1 > entries[best].1 {
                    best = j;
                    found = true;
                }
            }
            j = j + 1;
        }
        proof {
            let u = choose|u: int| 0 <= u < len && !picks.contains(u);
            assert(!taken@[u]);
            assert(found);
        }
        let ghost taken_before = taken@;
        taken.set(best, true);
        out.push((entries[best].0.clone(), entries[best].1));
        proof {
            let old_picks = picks;
            picks = picks.push(best as int);
            assert forall|x: int| 0 <= x < len implies (#[trigger] taken@[x] <==> picks.contains(
                x,
            )) by {
                if x == best as int {
                    assert(picks[k as int] == x);
                } else {
                    if picks.contains(x) {
                        let w = choose|w: int| 0 <= w < picks.len() && picks[w] == x;
                        assert(old_picks[w] == x);
                    }
                    if old_picks.contains(x) {
                        let w = choose|w: int| 0 <= w < old_picks.len() && old_picks[w] == x;
                        assert(picks[w] == x);
                    }
                    assert(taken@[x] == taken_before[x]);
                }
            }
            assert forall|a: int, b: int| 0 <= a < b < k + 1 implies ranks_before(
                s,
                #[trigger] picks[a],
                #[trigger] picks[b],
            ) by {
                if b == k {
                    assert(picks[a] == old_picks[a]);
                    assert(!old_picks.contains(best as int));
                }
            }
            assert forall|x: int, q: int|
                0 <= x < len && !picks.contains(x) && 0 <= q < k + 1 implies #[trigger] ranks_before(
                s,
                picks[q],
                x,
            ) by {
                if x != best as int {
                    assert(!old_picks.contains(x)) by {
                        if old_picks.contains(x) {
                            let w = choose|w: int| 0 <= w < old_picks.len() && old_picks[w] == x;
                            assert(picks[w] == x);
                        }
                    }
                    if q < k {
                        assert(picks[q] == old_picks[q]);
                    }
                } else {
                    assert(picks[k as int] == x);
                }
            }
        }
        k = k + 1;
    }
    proof {
        assert(is_top_picks(s, top_n as nat, picks));
    }
    out
}

/// `picks` holds fewer than `len` places, all below `len`, so some place
/// below `len` is missing from it.
proof fn lemma_untaken_exists(picks: Seq<int>, len: int)
    requires
        picks.len() < len,
        forall|q: int| 0 <= q < picks.len() ==> 0 <= #[trigger] picks[q] < len,
    ensures
        exists|u: int| 0 <= u < len && !picks.contains(u),
{
    let all = vstd::set_lib::set_int_range(0, len);
    let mine = picks.to_set();
    if forall|u: int| 0 <= u < len ==> picks.contains(u) {
        assert(all.subset_of(mine));
        vstd::set_lib::lemma_int_range(0, len);
        picks.lemma_cardinality_of_set();
        assert(mine.finite()) by {
            vstd::seq_lib::seq_to_set_is_finite(picks);
        }
        vstd::set_lib::lemma_len_subset(all, mine);
    }
}

/// The `top_n` senders with the highest out-degrees, highest first; senders
/// with equal out-degrees keep their order in `out_degrees`.
pub fn identify_top_senders(out_degrees: &Vec<(String, usize)>, top_n: usize) -> (r: Vec<
    (String, usize),
>)
    ensures
        is_top(out_degrees@, top_n as nat, r@),
{
    top_by_count(out_degrees, top_n)
}

/// The `top_n` recipients with the highest in-degrees, highest first;
/// recipients with equal in-degrees keep their order in `in_degrees`.
pub fn identify_top_recipients(in_degrees: &Vec<(String, usize)>, top_n: usize) -> (r: Vec<
    (String, usize),
>)
    ensures
        is_top(in_degrees@, top_n as nat, r@),
{
    top_by_count(in_degrees, top_n)
}

} // verus!
