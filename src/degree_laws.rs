use vstd::prelude::*;
use vstd::relations::injective_on;

use crate::graph::{in_count, lists_wf, Graph};
use crate::summary::count_total;

verus! {

/// The sum of the lengths of the lists: the sum of all out-degrees.
pub open spec fn out_total(lists: Seq<Seq<usize>>) -> nat
    decreases lists.len(),
{
    if lists.len() == 0 {
        0
    } else {
        out_total(lists.drop_last()) + lists.last().len()
    }
}

/// The sum of the in-degrees of the nodes below `k`.
pub open spec fn in_total(lists: Seq<Seq<usize>>, k: int) -> nat
    decreases k,
{
    if k <= 0 {
        0
    } else {
        in_total(lists, k - 1) + in_count(lists, (k - 1) as usize)
    }
}

/// How many of the nodes below `k` the list holds.
pub open spec fn member_count(list: Seq<usize>, k: int) -> nat
    decreases k,
{
    if k <= 0 {
        0
    } else {
        member_count(list, k - 1) + if list.contains((k - 1) as usize) {
            1nat
        } else {
            0nat
        }
    }
}

/// The edges as (source, target) node numbers.
pub open spec fn id_edges(lists: Seq<Seq<usize>>) -> Set<(int, usize)> {
    Set::new(|e: (int, usize)| 0 <= e.0 < lists.len() && lists[e.0].contains(e.1))
}

proof fn lemma_member_count_push(list: Seq<usize>, x: usize, k: int)
    requires
        !list.contains(x),
        k <= usize::MAX + 1,
    ensures
        member_count(list.push(x), k) == member_count(list, k) + if 0 <= x < k {
            1nat
        } else {
            0nat
        },
    decreases k,
{
    if k > 0 {
        lemma_member_count_push(list, x, k - 1);
        let j = (k - 1) as usize;
        assert(list.push(x).contains(j) <==> list.contains(j) || j == x) by {
            if list.push(x).contains(j) {
                let w = choose|w: int| 0 <= w < list.len() + 1 && list.push(x)[w] == j;
                if w < list.len() {
                    assert(list[w] == j);
                }
            }
            if list.contains(j) {
                let w = choose|w: int| 0 <= w < list.len() && list[w] == j;
                assert(list.push(x)[w] == j);
            }
            if j == x {
                assert(list.push(x)[list.len() as int] == j);
            }
        }
    }
}

proof fn lemma_member_count_len(list: Seq<usize>, n: int)
    requires
        list.no_duplicates(),
        forall|k: int| 0 <= k < list.len() ==> #[trigger] list[k] < n,
        n <= usize::MAX + 1,
    ensures
        member_count(list, n) == list.len(),
    decreases list.len(),
{
    if list.len() == 0 {
        lemma_member_count_empty(list, n);
    } else {
        let rest = list.drop_last();
        assert(rest.push(list.last()) =~= list);
        assert(!rest.contains(list.last())) by {
            if rest.contains(list.last()) {
                let w = choose|w: int| 0 <= w < rest.len() && rest[w] == list.last();
                assert(list[w] == list[list.len() - 1]);
            }
        }
        lemma_member_count_len(rest, n);
        lemma_member_count_push(rest, list.last(), n);
    }
}

proof fn lemma_member_count_empty(list: Seq<usize>, k: int)
    requires
        list.len() == 0,
    ensures
        member_count(list, k) == 0,
    decreases k,
{
    if k > 0 {
        lemma_member_count_empty(list, k - 1);
    }
}

proof fn lemma_in_total_split(lists: Seq<Seq<usize>>, k: int)
    requires
        lists.len() > 0,
    ensures
        in_total(lists, k) == in_total(lists.drop_last(), k) + member_count(lists.last(), k),
    decreases k,
{
    if k > 0 {
        lemma_in_total_split(lists, k - 1);
    }
}

proof fn lemma_in_total_empty(lists: Seq<Seq<usize>>, k: int)
    requires
        lists.len() == 0,
    ensures
        in_total(lists, k) == 0,
    decreases k,
{
    if k > 0 {
        lemma_in_total_empty(lists, k - 1);
    }
}

proof fn lemma_in_total_is_out_total(lists: Seq<Seq<usize>>, n: int)
    requires
        forall|i: int| 0 <= i < lists.len() ==> (#[trigger] lists[i]).no_duplicates(),
        forall|i: int, k: int|
            0 <= i < lists.len() && 0 <= k < lists[i].len() ==> (#[trigger] lists[i][k]) < n,
        n <= usize::MAX + 1,
    ensures
        in_total(lists, n) == out_total(lists),
    decreases lists.len(),
{
    if lists.len() == 0 {
        lemma_in_total_empty(lists, n);
    } else {
        let rest = lists.drop_last();
        assert forall|i: int, k: int| 0 <= i < rest.len() && 0 <= k < rest[i].len() implies (
        #[trigger] rest[i][k]) < n by {
            assert(rest[i] == lists[i]);
        }
        assert forall|i: int| 0 <= i < rest.len() implies (#[trigger] rest[i]).no_duplicates() by {
            assert(rest[i] == lists[i]);
        }
        lemma_in_total_is_out_total(rest, n);
        lemma_in_total_split(lists, n);
        let last = lists.last();
        assert(last == lists[lists.len() - 1]);
        assert forall|k: int| 0 <= k < last.len() implies #[trigger] last[k] < n by {
            assert(lists[lists.len() - 1][k] < n);
        }
        lemma_member_count_len(last, n);
    }
}

proof fn lemma_id_edges_size(lists: Seq<Seq<usize>>)
    requires
        forall|i: int| 0 <= i < lists.len() ==> (#[trigger] lists[i]).no_duplicates(),
    ensures
        id_edges(lists).finite(),
        id_edges(lists).len() == out_total(lists),
    decreases lists.len(),
{
    if lists.len() == 0 {
        assert(id_edges(lists) =~= Set::<(int, usize)>::empty());
    } else {
        let rest = lists.drop_last();
        let i = lists.len() - 1;
        let last = lists.last();
        assert forall|q: int| 0 <= q < rest.len() implies (#[trigger] rest[q]).no_duplicates() by {
            assert(rest[q] == lists[q]);
        }
        lemma_id_edges_size(rest);
        let f = |j: usize| (i, j);
        let row = last.to_set().map(f);
        assert(id_edges(lists) =~= id_edges(rest) + row) by {
            assert forall|e: (int, usize)| id_edges(lists).contains(e) implies (id_edges(rest)
                + row).contains(e) by {
                if e.0 < i {
                    assert(rest[e.0] == lists[e.0]);
                } else {
                    assert(last.to_set().contains(e.1));
                    assert(f(e.1) == e);
                }
            }
            assert forall|e: (int, usize)| (id_edges(rest) + row).contains(e) implies id_edges(
                lists,
            ).contains(e) by {
                if id_edges(rest).contains(e) {
                    assert(rest[e.0] == lists[e.0]);
                } else {
                    let j = choose|j: usize| last.to_set().contains(j) && f(j) == e;
                    assert(last.contains(j));
                }
            }
        }
        assert(id_edges(rest).disjoint(row));
        assert(last.no_duplicates());
        last.unique_seq_to_set();
        assert(injective_on(f, last.to_set()));
        vstd::set_lib::lemma_map_size(last.to_set(), row, f);
        vstd::set_lib::lemma_set_disjoint_lens(id_edges(rest), row);
    }
}

proof fn lemma_count_total_out(outs: Seq<(String, usize)>, lists: Seq<Seq<usize>>)
    requires
        outs.len() == lists.len(),
        forall|i: int| 0 <= i < outs.len() ==> (#[trigger] outs[i]).1 == lists[i].len(),
    ensures
        count_total(outs) == out_total(lists),
    decreases outs.len(),
{
    if outs.len() > 0 {
        let (o, l) = (outs.drop_last(), lists.drop_last());
        assert forall|i: int| 0 <= i < o.len() implies (#[trigger] o[i]).1 == l[i].len() by {
            assert(o[i] == outs[i]);
        }
        lemma_count_total_out(o, l);
        assert(outs.last() == outs[outs.len() - 1]);
    }
}

proof fn lemma_count_total_in(ins: Seq<(String, usize)>, lists: Seq<Seq<usize>>)
    requires
        forall|j: int| 0 <= j < ins.len() ==> (#[trigger] ins[j]).1 == in_count(lists, j as usize),
    ensures
        count_total(ins) == in_total(lists, ins.len() as int),
    decreases ins.len(),
{
    if ins.len() > 0 {
        let rest = ins.drop_last();
        assert forall|j: int| 0 <= j < rest.len() implies (#[trigger] rest[j]).1 == in_count(
            lists,
            j as usize,
        ) by {
            assert(rest[j] == ins[j]);
        }
        lemma_count_total_in(rest, lists);
        assert(ins.last() == ins[ins.len() - 1]);
    }
}

/// Summed over all nodes, the out-degrees and the in-degrees (as the two
/// degree maps give them) both count every distinct edge exactly once.
pub proof fn lemma_degree_sums(g: &Graph, outs: Seq<(String, usize)>, ins: Seq<(String, usize)>)
    requires
        g.wf(),
        outs.len() == g.names().len(),
        forall|i: int| 0 <= i < outs.len() ==> (#[trigger] outs[i]).1 == g.out_lists()[i].len(),
        ins.len() == g.names().len(),
        forall|j: int|
            0 <= j < ins.len() ==> (#[trigger] ins[j]).1 == in_count(g.out_lists(), j as usize),
    ensures
        g.edges().finite(),
        count_total(outs) == g.edges().len(),
        count_total(ins) == g.edges().len(),
{
    g.lemma_wf_lists();
    let names = g.names();
    let lists = g.out_lists();
    let n = names.len() as int;
    assert forall|i: int| 0 <= i < lists.len() implies (#[trigger] lists[i]).no_duplicates() by {}
    lemma_id_edges_size(lists);
    lemma_in_total_is_out_total(lists, n);
    lemma_count_total_out(outs, lists);
    lemma_count_total_in(ins, lists);
    let f = |e: (int, usize)| (names[e.0], names[e.1 as int]);
    assert(g.edges() =~= id_edges(lists).map(f)) by {
        assert forall|e: (Seq<char>, Seq<char>)| g.edges().contains(e) implies id_edges(lists).map(
            f,
        ).contains(e) by {
            let (i, j) = choose|i: int, j: int|
                0 <= i < n && 0 <= j < n && names[i] == e.0 && names[j] == e.1
                    && #[trigger] lists[i].contains(j as usize);
            assert(id_edges(lists).contains((i, j as usize)));
            assert(f((i, j as usize)) == e);
        }
        assert forall|e: (Seq<char>, Seq<char>)| id_edges(lists).map(f).contains(e) implies g.edges().contains(e) by {
            let d = choose|d: (int, usize)| id_edges(lists).contains(d) && f(d) == e;
            let k = choose|k: int| 0 <= k < lists[d.0].len() && lists[d.0][k] == d.1;
            assert(lists[d.0][k] < n);
            assert(lists[d.0].contains((d.1 as int) as usize));
        }
    }
    assert(injective_on(f, id_edges(lists))) by {
        assert forall|a: (int, usize), b: (int, usize)|
            id_edges(lists).contains(a) && id_edges(lists).contains(b) && #[trigger] f(a)
                == #[trigger] f(b) implies a == b by {
            let ka = choose|k: int| 0 <= k < lists[a.0].len() && lists[a.0][k] == a.1;
            let kb = choose|k: int| 0 <= k < lists[b.0].len() && lists[b.0][k] == b.1;
            assert(lists[a.0][ka] < n);
            assert(lists[b.0][kb] < n);
            assert(names[a.0] == names[b.0]);
            assert(names[a.1 as int] == names[b.1 as int]);
        }
    }
    vstd::set_lib::lemma_map_size(id_edges(lists), g.edges(), f);
}

} // verus!
