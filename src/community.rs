use vstd::prelude::*;

use rand::rngs::StdRng;
use rand::seq::SliceRandom;
use rand::SeedableRng;

use vstd::utf8::{encode_utf8, encode_utf8_decode_utf8};

use crate::graph::{lists_wf, Graph};

verus! {

#[verifier::external_type_specification]
#[verifier::external_body]
pub struct ExStdRng(StdRng);

/// Relies on rand_core's `SeedableRng::seed_from_u64` for `StdRng`: a
/// generator whose stream is fixed by the seed.
#[verifier::external_body]
fn rng_from_seed(seed: u64) -> StdRng {
    StdRng::seed_from_u64(seed)
}

/// Relies on rand's `SliceRandom::shuffle`: it reorders the entries in place
/// by swaps alone, so the same entries come back in some order.
#[verifier::external_body]
fn shuffle_order(order: &mut Vec<usize>, rng: &mut StdRng)
    ensures
        final(order)@.to_multiset() == old(order)@.to_multiset(),
{
    order.shuffle(rng);
}

/// How many of the neighbours `nbrs` carry the label `l`.
pub open spec fn tally(labels: Seq<usize>, nbrs: Seq<usize>, l: usize) -> nat
    decreases nbrs.len(),
{
    if nbrs.len() == 0 {
        0
    } else {
        tally(labels, nbrs.drop_last(), l) + if labels[nbrs.last() as int] == l {
            1nat
        } else {
            0nat
        }
    }
}

/// Byte-wise lexicographic order: `a` sorts strictly before `b`.
pub open spec fn bytes_before(a: Seq<u8>, b: Seq<u8>) -> bool
    decreases a.len(),
{
    if a.len() == 0 {
        b.len() > 0
    } else if b.len() == 0 {
        false
    } else if a[0] != b[0] {
        a[0] < b[0]
    } else {
        bytes_before(a.drop_first(), b.drop_first())
    }
}

/// The name of node `a` sorts before the name of node `b`, comparing their
/// UTF-8 bytes (which orders them as their code points do).
pub open spec fn name_before(names: Seq<Seq<char>>, a: usize, b: usize) -> bool {
    bytes_before(encode_utf8(names[a as int]), encode_utf8(names[b as int]))
}

/// Label `m` does not beat label `l` among the neighbours `nbrs`: it is less
/// frequent, or as frequent and `l` is the same label or sorts before it.
pub open spec fn no_better(
    names: Seq<Seq<char>>,
    labels: Seq<usize>,
    nbrs: Seq<usize>,
    l: usize,
    m: usize,
) -> bool {
    tally(labels, nbrs, m) < tally(labels, nbrs, l) || (tally(labels, nbrs, m) == tally(
        labels,
        nbrs,
        l,
    ) && (m == l || name_before(names, l, m)))
}

/// `l` is carried by some neighbour, and no neighbour's label is more
/// frequent; among equally frequent labels `l` is the one whose name sorts
/// first.
pub open spec fn is_best(names: Seq<Seq<char>>, labels: Seq<usize>, nbrs: Seq<usize>, l: usize) -> bool {
    &&& exists|k: int| 0 <= k < nbrs.len() && labels[nbrs[k] as int] == l
    &&& forall|k: int|
        0 <= k < nbrs.len() ==> no_better(names, labels, nbrs, l, #[trigger] labels[nbrs[k] as int])
}

proof fn lemma_bytes_before_asym(a: Seq<u8>, b: Seq<u8>)
    ensures
        !(bytes_before(a, b) && bytes_before(b, a)),
    decreases a.len(),
{
    if a.len() > 0 && b.len() > 0 && a[0] == b[0] {
        lemma_bytes_before_asym(a.drop_first(), b.drop_first());
    }
}

proof fn lemma_bytes_before_trans(a: Seq<u8>, b: Seq<u8>, c: Seq<u8>)
    requires
        bytes_before(a, b),
        bytes_before(b, c),
    ensures
        bytes_before(a, c),
    decreases a.len(),
{
    if a.len() > 0 && b.len() > 0 && c.len() > 0 && a[0] == b[0] && b[0] == c[0] {
        lemma_bytes_before_trans(a.drop_first(), b.drop_first(), c.drop_first());
    }
}

proof fn lemma_bytes_before_total(a: Seq<u8>, b: Seq<u8>)
    requires
        a != b,
    ensures
        bytes_before(a, b) || bytes_before(b, a),
    decreases a.len(),
{
    if a.len() == 0 && b.len() == 0 {
        assert(a =~= b);
    }
    if a.len() > 0 && b.len() > 0 && a[0] == b[0] {
        if a.drop_first() == b.drop_first() {
            assert(a.drop_first().len() == a.len() - 1);
            assert(b.drop_first().len() == b.len() - 1);
            assert(a.len() == b.len());
            assert forall|i: int| 0 <= i < a.len() implies a[i] == b[i] by {
                if i > 0 {
                    assert(a[i] == a.drop_first()[i - 1]);
                    assert(b[i] == b.drop_first()[i - 1]);
                }
            }
            assert(a =~= b);
        }
        lemma_bytes_before_total(a.drop_first(), b.drop_first());
    }
}

/// Distinct nodes have names that sort one way or the other.
proof fn lemma_name_order_total(names: Seq<Seq<char>>, a: usize, b: usize)
    requires
        names.no_duplicates(),
        a < names.len(),
        b < names.len(),
        a != b,
    ensures
        name_before(names, a, b) || name_before(names, b, a),
{
    encode_utf8_decode_utf8(names[a as int]);
    encode_utf8_decode_utf8(names[b as int]);
    lemma_bytes_before_total(encode_utf8(names[a as int]), encode_utf8(names[b as int]));
}

proof fn lemma_no_better_trans(
    names: Seq<Seq<char>>,
    labels: Seq<usize>,
    nbrs: Seq<usize>,
    l: usize,
    m: usize,
    x: usize,
)
    requires
        no_better(names, labels, nbrs, l, m),
        no_better(names, labels, nbrs, m, x),
    ensures
        no_better(names, labels, nbrs, l, x),
{
    if tally(labels, nbrs, x) == tally(labels, nbrs, l) && x != l {
        if m == l {
        } else if x == m {
        } else {
            lemma_bytes_before_trans(
                encode_utf8(names[l as int]),
                encode_utf8(names[m as int]),
                encode_utf8(names[x as int]),
            );
        }
    }
}

/// Of two different labels, one does not beat the other.
proof fn lemma_no_better_total(
    names: Seq<Seq<char>>,
    labels: Seq<usize>,
    nbrs: Seq<usize>,
    l: usize,
    m: usize,
)
    requires
        names.no_duplicates(),
        l < names.len(),
        m < names.len(),
    ensures
        no_better(names, labels, nbrs, l, m) || no_better(names, labels, nbrs, m, l),
{
    if l != m {
        lemma_name_order_total(names, l, m);
    }
}

/// The label that a node with the neighbours `nbrs` adopts.
pub open spec fn best_label(names: Seq<Seq<char>>, labels: Seq<usize>, nbrs: Seq<usize>) -> usize {
    choose|l: usize| is_best(names, labels, nbrs, l)
}

/// The labels after visiting node `v`: a node with neighbours adopts their
/// best label, a node without keeps its own.
pub open spec fn step(names: Seq<Seq<char>>, lists: Seq<Seq<usize>>, labels: Seq<usize>, v: usize) -> Seq<usize> {
    if lists[v as int].len() == 0 {
        labels
    } else {
        labels.update(v as int, best_label(names, labels, lists[v as int]))
    }
}

/// Whether visiting node `v` changes its label.
pub open spec fn step_changes(names: Seq<Seq<char>>, lists: Seq<Seq<usize>>, labels: Seq<usize>, v: usize) -> bool {
    lists[v as int].len() > 0 && best_label(names, labels, lists[v as int]) != labels[v as int]
}

/// The labels after visiting the nodes of `order` one after another, each
/// visit seeing the updates of the earlier ones.
pub open spec fn pass(names: Seq<Seq<char>>, lists: Seq<Seq<usize>>, labels: Seq<usize>, order: Seq<usize>) -> Seq<usize>
    decreases order.len(),
{
    if order.len() == 0 {
        labels
    } else {
        step(names, lists, pass(names, lists, labels, order.drop_last()), order.last())
    }
}

/// Whether some visit of the pass over `order` changed a label.
pub open spec fn pass_changed(names: Seq<Seq<char>>, lists: Seq<Seq<usize>>, labels: Seq<usize>, order: Seq<usize>) -> bool
    decreases order.len(),
{
    if order.len() == 0 {
        false
    } else {
        pass_changed(names, lists, labels, order.drop_last()) || step_changes(names, 
            lists,
            pass(names, lists, labels, order.drop_last()),
            order.last(),
        )
    }
}

/// The labels after one pass per visiting order of `orders`.
pub open spec fn run(names: Seq<Seq<char>>, lists: Seq<Seq<usize>>, labels: Seq<usize>, orders: Seq<Seq<usize>>) -> Seq<
    usize,
>
    decreases orders.len(),
{
    if orders.len() == 0 {
        labels
    } else {
        pass(names, lists, run(names, lists, labels, orders.drop_last()), orders.last())
    }
}

/// Every node starts with its own number as its label.
pub open spec fn initial_labels(n: nat) -> Seq<usize> {
    Seq::new(n, |i: int| i as usize)
}

/// `order` holds each node number below `n` exactly once.
pub open spec fn is_permutation(order: Seq<usize>, n: nat) -> bool {
    order.to_multiset() == initial_labels(n).to_multiset()
}

/// `labels` gives every one of `n` nodes a node number below `n`.
pub open spec fn labels_wf(labels: Seq<usize>, n: nat) -> bool {
    &&& labels.len() == n
    &&& forall|i: int| 0 <= i < n ==> #[trigger] labels[i] < n
}

/// Every node that has neighbours carries its best label already.
pub open spec fn is_stable(names: Seq<Seq<char>>, lists: Seq<Seq<usize>>, labels: Seq<usize>) -> bool {
    forall|v: int|
        0 <= v < lists.len() && #[trigger] lists[v].len() > 0 ==> labels[v] == best_label(names, 
            labels,
            lists[v],
        )
}

/// `labels` comes from `orders.len() == iterations` passes from the initial
/// labels, each over a permutation of the nodes; every pass but the last
/// changed a label; `converged` tells whether the last one changed none.
pub open spec fn is_run(
    names: Seq<Seq<char>>,
    lists: Seq<Seq<usize>>,
    orders: Seq<Seq<usize>>,
    labels: Seq<usize>,
    converged: bool,
    iterations: nat,
) -> bool {
    let init = initial_labels(lists.len());
    &&& orders.len() == iterations
    &&& forall|t: int| 0 <= t < iterations ==> is_permutation(#[trigger] orders[t], lists.len())
    &&& labels == run(names, lists, init, orders)
    &&& forall|t: int|
        0 <= t < iterations - 1 ==> pass_changed(names, 
            lists,
            run(names, lists, init, orders.take(t)),
            #[trigger] orders[t],
        )
    &&& converged == (iterations > 0 && !pass_changed(names, 
        lists,
        run(names, lists, init, orders.take(iterations - 1)),
        orders[iterations - 1],
    ))
}

proof fn lemma_tally_bound(labels: Seq<usize>, nbrs: Seq<usize>, l: usize)
    ensures
        tally(labels, nbrs, l) <= nbrs.len(),
    decreases nbrs.len(),
{
    if nbrs.len() > 0 {
        lemma_tally_bound(labels, nbrs.drop_last(), l);
    }
}

proof fn lemma_best_unique(
    names: Seq<Seq<char>>,
    labels: Seq<usize>,
    nbrs: Seq<usize>,
    a: usize,
    b: usize,
)
    requires
        is_best(names, labels, nbrs, a),
        is_best(names, labels, nbrs, b),
    ensures
        a == b,
{
    let ka = choose|k: int| 0 <= k < nbrs.len() && labels[nbrs[k] as int] == a;
    let kb = choose|k: int| 0 <= k < nbrs.len() && labels[nbrs[k] as int] == b;
    assert(labels[nbrs[ka] as int] == a);
    assert(labels[nbrs[kb] as int] == b);
    lemma_bytes_before_asym(encode_utf8(names[a as int]), encode_utf8(names[b as int]));
}

/// Whether `a` sorts before `b`, comparing their UTF-8 bytes.
fn str_before(a: &String, b: &String) -> (r: bool)
    ensures
        r == bytes_before(encode_utf8(a@), encode_utf8(b@)),
{
    let x = a.as_str().as_bytes();
    let y = b.as_str().as_bytes();
    let ghost xs = x@;
    let ghost ys = y@;
    let mut i: usize = 0;
    proof {
        assert(xs.subrange(0, xs.len() as int) =~= xs);
        assert(ys.subrange(0, ys.len() as int) =~= ys);
    }
    while i < x.len() && i < y.len()
        invariant
            xs == x@,
            ys == y@,
            xs == encode_utf8(a@),
            ys == encode_utf8(b@),
            0 <= i <= xs.len(),
            i <= ys.len(),
            bytes_before(xs, ys) == bytes_before(
                xs.subrange(i as int, xs.len() as int),
                ys.subrange(i as int, ys.len() as int),
            ),
        decreases xs.len() - i,
    {
        let xi = x[i];
        let yi = y[i];
        proof {
            let xr = xs.subrange(i as int, xs.len() as int);
            let yr = ys.subrange(i as int, ys.len() as int);
            assert(xr[0] == xi);
            assert(yr[0] == yi);
            assert(xr.drop_first() =~= xs.subrange(i + 1, xs.len() as int));
            assert(yr.drop_first() =~= ys.subrange(i + 1, ys.len() as int));
        }
        if xi != yi {
            return xi < yi;
        }
        i = i + 1;
    }
    proof {
        let xr = xs.subrange(i as int, xs.len() as int);
        let yr = ys.subrange(i as int, ys.len() as int);
        if i == xs.len() {
            assert(xr.len() == 0);
        } else {
            assert(yr.len() == 0);
        }
    }
    i == x.len() && i < y.len()
}

/// How many of the neighbours `nbrs` carry the label `l`.
fn count_label(labels: &Vec<usize>, nbrs: &Vec<usize>, l: usize) -> (r: usize)
    requires
        forall|k: int| 0 <= k < nbrs@.len() ==> #[trigger] nbrs@[k] < labels@.len(),
    ensures
        r == tally(labels@, nbrs@, l),
{
    let mut c: usize = 0;
    let mut q: usize = 0;
    while q < nbrs.len()
        invariant
            forall|k: int| 0 <= k < nbrs@.len() ==> #[trigger] nbrs@[k] < labels@.len(),
            0 <= q <= nbrs@.len(),
            c == tally(labels@, nbrs@.take(q as int), l),
        decreases nbrs@.len() - q,
    {
        proof {
            assert(nbrs@.take(q + 1).drop_last() =~= nbrs@.take(q as int));
            lemma_tally_bound(labels@, nbrs@.take(q as int), l);
        }
        if labels[nbrs[q]] == l {
            c = c + 1;
        }
        q = q + 1;
    }
    proof {
        assert(nbrs@.take(q as int) =~= nbrs@);
    }
    c
}

proof fn lemma_step_wf(names: Seq<Seq<char>>, lists: Seq<Seq<usize>>, labels: Seq<usize>, v: usize)
    requires
        names.no_duplicates(),
        names.len() == lists.len(),
        lists_wf(lists, lists.len() as int),
        labels_wf(labels, lists.len()),
        v < lists.len(),
    ensures
        labels_wf(step(names, lists, labels, v), lists.len()),
{
    if lists[v as int].len() > 0 {
        let nbrs = lists[v as int];
        assert forall|k: int| 0 <= k < nbrs.len() implies #[trigger] labels[nbrs[k] as int]
            < names.len() by {
            assert(nbrs[k] < lists.len());
        }
        lemma_best_exists(names, labels, nbrs);
        let b = best_label(names, labels, nbrs);
        let k = choose|k: int| 0 <= k < nbrs.len() && labels[nbrs[k] as int] == b;
        assert(nbrs[k] < lists.len());
    }
}

proof fn lemma_best_exists(names: Seq<Seq<char>>, labels: Seq<usize>, nbrs: Seq<usize>)
    requires
        names.no_duplicates(),
        nbrs.len() > 0,
        forall|k: int| 0 <= k < nbrs.len() ==> #[trigger] labels[nbrs[k] as int] < names.len(),
    ensures
        is_best(names, labels, nbrs, best_label(names, labels, nbrs)),
{
    let best = lemma_best_of_prefix(names, labels, nbrs, nbrs.len() as int);
    assert(is_best(names, labels, nbrs, best));
}

/// The best label among the first `p` neighbours, ranked by the tally over
/// all of them.
proof fn lemma_best_of_prefix(names: Seq<Seq<char>>, labels: Seq<usize>, nbrs: Seq<usize>, p: int) -> (best: usize)
    requires
        names.no_duplicates(),
        1 <= p <= nbrs.len(),
        forall|k: int| 0 <= k < nbrs.len() ==> #[trigger] labels[nbrs[k] as int] < names.len(),
    ensures
        exists|w: int| 0 <= w < p && labels[nbrs[w] as int] == best,
        forall|k: int| 0 <= k < p ==> no_better(names, labels, nbrs, best, #[trigger] labels[nbrs[k] as int]),
    decreases p,
{
    if p == 1 {
        let best = labels[nbrs[0] as int];
        assert(labels[nbrs[0] as int] == best);
        best
    } else {
        let b = lemma_best_of_prefix(names, labels, nbrs, p - 1);
        let cand = labels[nbrs[p - 1] as int];
        let w = choose|w: int| 0 <= w < p - 1 && labels[nbrs[w] as int] == b;
        lemma_no_better_total(names, labels, nbrs, b, cand);
        if no_better(names, labels, nbrs, b, cand) {
            b
        } else {
            assert forall|k: int| 0 <= k < p implies no_better(names, labels, nbrs, cand, #[trigger] labels[nbrs[k] as int]) by {
                if k < p - 1 {
                    lemma_no_better_trans(names, labels, nbrs, cand, b, labels[nbrs[k] as int]);
                }
            }
            assert(labels[nbrs[p - 1] as int] == cand);
            cand
        }
    }
}

proof fn lemma_pass_wf(names: Seq<Seq<char>>, lists: Seq<Seq<usize>>, labels: Seq<usize>, order: Seq<usize>)
    requires
        names.no_duplicates(),
        names.len() == lists.len(),
        lists_wf(lists, lists.len() as int),
        labels_wf(labels, lists.len()),
        forall|k: int| 0 <= k < order.len() ==> #[trigger] order[k] < lists.len(),
    ensures
        labels_wf(pass(names, lists, labels, order), lists.len()),
    decreases order.len(),
{
    if order.len() > 0 {
        lemma_pass_wf(names, lists, labels, order.drop_last());
        lemma_step_wf(names, lists, pass(names, lists, labels, order.drop_last()), order.last());
    }
}

/// A pass that changes no label leaves all labels as they were, and each of
/// its visits found the node's label best already.
proof fn lemma_quiet_pass(names: Seq<Seq<char>>, lists: Seq<Seq<usize>>, labels: Seq<usize>, order: Seq<usize>)
    requires
        labels_wf(labels, lists.len()),
        forall|k: int| 0 <= k < order.len() ==> #[trigger] order[k] < lists.len(),
        !pass_changed(names, lists, labels, order),
    ensures
        pass(names, lists, labels, order) == labels,
        forall|k: int| 0 <= k < order.len() ==> !step_changes(names, lists, labels, #[trigger] order[k]),
    decreases order.len(),
{
    if order.len() > 0 {
        let prefix = order.drop_last();
        lemma_quiet_pass(names, lists, labels, prefix);
        let v = order.last();
        assert(!step_changes(names, lists, labels, v));
        if lists[v as int].len() > 0 {
            assert(labels.update(v as int, best_label(names, labels, lists[v as int])) =~= labels);
        }
        assert forall|k: int| 0 <= k < order.len() implies !step_changes(names, 
            lists,
            labels,
            #[trigger] order[k],
        ) by {
            if k < prefix.len() {
                assert(order[k] == prefix[k]);
            }
        }
    }
}

/// A label assignment that a pass over every node leaves unchanged is
/// stable: each node with out-neighbours already carries their best label.
pub proof fn lemma_quiet_pass_is_stable(g: &Graph, labels: Seq<usize>, order: Seq<usize>)
    requires
        g.wf(),
        labels_wf(labels, g.names().len()),
        is_permutation(order, g.names().len()),
        !pass_changed(g.names(), g.out_lists(), labels, order),
    ensures
        pass(g.names(), g.out_lists(), labels, order) == labels,
        is_stable(g.names(), g.out_lists(), labels),
{
    broadcast use vstd::seq_lib::group_to_multiset_ensures;

    g.lemma_wf_lists();
    let lists = g.out_lists();
    let n = g.names().len();
    lemma_permutation_entries(order, n);
    lemma_quiet_pass(g.names(), lists, labels, order);
    assert forall|v: int| 0 <= v < lists.len() && #[trigger] lists[v].len() > 0 implies labels[v]
        == best_label(g.names(), labels, lists[v]) by {
        assert(initial_labels(n)[v] == v as usize);
        assert(initial_labels(n).contains(v as usize));
        assert(initial_labels(n).to_multiset().count(v as usize) > 0);
        assert(order.to_multiset().count(v as usize) > 0);
        assert(order.contains(v as usize));
        let k = choose|k: int| 0 <= k < order.len() && order[k] == v as usize;
        assert(!step_changes(g.names(), lists, labels, order[k]));
    }
}

proof fn lemma_permutation_entries(order: Seq<usize>, n: nat)
    requires
        is_permutation(order, n),
    ensures
        forall|k: int| 0 <= k < order.len() ==> #[trigger] order[k] < n,
{
    broadcast use vstd::seq_lib::group_to_multiset_ensures;

    assert forall|k: int| 0 <= k < order.len() implies #[trigger] order[k] < n by {
        assert(order.contains(order[k]));
        assert(order.to_multiset().count(order[k]) > 0);
        assert(initial_labels(n).to_multiset().count(order[k]) > 0);
        assert(initial_labels(n).contains(order[k]));
    }
}

proof fn lemma_pass_keeps_isolated(
    names: Seq<Seq<char>>,
    lists: Seq<Seq<usize>>,
    labels: Seq<usize>,
    order: Seq<usize>,
    v: int,
)
    requires
        labels.len() == lists.len(),
        forall|k: int| 0 <= k < order.len() ==> #[trigger] order[k] < lists.len(),
        0 <= v < lists.len(),
        lists[v].len() == 0,
    ensures
        pass(names, lists, labels, order).len() == labels.len(),
        pass(names, lists, labels, order)[v] == labels[v],
    decreases order.len(),
{
    if order.len() > 0 {
        lemma_pass_keeps_isolated(names, lists, labels, order.drop_last(), v);
    }
}

proof fn lemma_run_wf(g: &Graph, labels: Seq<usize>, orders: Seq<Seq<usize>>)
    requires
        g.wf(),
        labels_wf(labels, g.names().len()),
        forall|t: int| 0 <= t < orders.len() ==> is_permutation(#[trigger] orders[t], g.names().len()),
    ensures
        labels_wf(run(g.names(), g.out_lists(), labels, orders), g.names().len()),
    decreases orders.len(),
{
    g.lemma_wf_lists();
    if orders.len() > 0 {
        let prefix = orders.drop_last();
        assert forall|t: int| 0 <= t < prefix.len() implies is_permutation(
            #[trigger] prefix[t],
            g.names().len(),
        ) by {
            assert(prefix[t] == orders[t]);
        }
        lemma_run_wf(g, labels, prefix);
        lemma_permutation_entries(orders.last(), g.names().len());
        lemma_pass_wf(g.names(), g.out_lists(), run(g.names(), g.out_lists(), labels, prefix), orders.last());
    }
}

/// A node without out-neighbours keeps its label through any number of
/// passes, whatever the visiting orders.
pub proof fn lemma_isolated_node_keeps_label(
    g: &Graph,
    labels: Seq<usize>,
    orders: Seq<Seq<usize>>,
    v: int,
)
    requires
        g.wf(),
        labels.len() == g.names().len(),
        forall|t: int| 0 <= t < orders.len() ==> is_permutation(#[trigger] orders[t], g.names().len()),
        0 <= v < g.names().len(),
        g.out_lists()[v].len() == 0,
    ensures
        run(g.names(), g.out_lists(), labels, orders).len() == labels.len(),
        run(g.names(), g.out_lists(), labels, orders)[v] == labels[v],
    decreases orders.len(),
{
    g.lemma_wf_lists();
    if orders.len() > 0 {
        let prefix = orders.drop_last();
        assert forall|t: int| 0 <= t < prefix.len() implies is_permutation(
            #[trigger] prefix[t],
            g.names().len(),
        ) by {
            assert(prefix[t] == orders[t]);
        }
        lemma_isolated_node_keeps_label(g, labels, prefix, v);
        lemma_permutation_entries(orders.last(), g.names().len());
        lemma_pass_keeps_isolated(
            g.names(),
            g.out_lists(),
            run(g.names(), g.out_lists(), labels, prefix),
            orders.last(),
            v,
        );
    }
}

/// A run that has not converged, followed by one more pass, is a run.
proof fn lemma_run_extend(
    names: Seq<Seq<char>>,
    lists: Seq<Seq<usize>>,
    orders: Seq<Seq<usize>>,
    before: Seq<usize>,
    iterations: nat,
    order: Seq<usize>,
    after: Seq<usize>,
    changed: bool,
)
    requires
        is_run(names, lists, orders, before, false, iterations),
        is_permutation(order, lists.len()),
        after == pass(names, lists, before, order),
        changed == pass_changed(names, lists, before, order),
    ensures
        is_run(names, lists, orders.push(order), after, !changed, iterations + 1),
{
    let init = initial_labels(lists.len());
    let more = orders.push(order);
    assert(more.drop_last() =~= orders);
    assert(more.take(iterations as int) =~= orders);
    assert forall|t: int| 0 <= t <= iterations implies #[trigger] more.take(t) == orders.take(t) by {
        assert(more.take(t) =~= orders.take(t));
    }
    assert forall|t: int| 0 <= t < more.len() implies is_permutation(
        #[trigger] more[t],
        lists.len(),
    ) by {
        if t < orders.len() {
            assert(more[t] == orders[t]);
        }
    }
    assert forall|t: int| 0 <= t < iterations implies pass_changed(names, 
        lists,
        run(names, lists, init, more.take(t)),
        #[trigger] more[t],
    ) by {
        assert(more[t] == orders[t]);
        assert(more.take(t) == orders.take(t));
        if t == iterations - 1 {
            assert(orders.take(t) =~= orders.take(iterations - 1));
        }
    }
}

/// The outcome of label propagation: each node's label (a node number), the
/// number of passes made, and whether the last pass changed nothing.
pub struct Propagation {
    pub labels: Vec<usize>,
    pub converged: bool,
    pub iterations: usize,
}

/// The node numbers `0..n` in order.
fn node_order(n: usize) -> (r: Vec<usize>)
    ensures
        r@ == initial_labels(n as nat),
{
    let mut v: Vec<usize> = Vec::new();
    let mut i: usize = 0;
    while i < n
        invariant
            0 <= i <= n,
            v@ == initial_labels(i as nat),
        decreases n - i,
    {
        v.push(i);
        i = i + 1;
        proof {
            assert(v@ =~= initial_labels(i as nat));
        }
    }
    proof {
        assert(v@ =~= initial_labels(n as nat));
    }
    v
}

impl Graph {
    /// The label that a node with the out-neighbours `nbrs` adopts: the most
    /// frequent of their labels; among equally frequent labels, the one whose
    /// name sorts first by its UTF-8 bytes.
    pub fn most_frequent_label(&self, labels: &Vec<usize>, nbrs: &Vec<usize>) -> (r: usize)
        requires
            self.wf(),
            nbrs@.len() > 0,
            forall|k: int| 0 <= k < nbrs@.len() ==> #[trigger] nbrs@[k] < labels@.len(),
            forall|k: int|
                0 <= k < nbrs@.len() ==> #[trigger] labels@[nbrs@[k] as int] < self.names().len(),
        ensures
            is_best(self.names(), labels@, nbrs@, r),
            r == best_label(self.names(), labels@, nbrs@),
    {
        proof {
            self.lemma_wf_lists();
        }
        let ghost names = self.names();
        let d = nbrs.len();
        let mut best: usize = labels[nbrs[0]];
        let mut best_count: usize = count_label(labels, nbrs, best);
        let ghost mut witness: int = 0;
        let mut p: usize = 1;
        while p < d
            invariant
                self.wf(),
                names == self.names(),
                names.no_duplicates(),
                d == nbrs@.len(),
                forall|k: int| 0 <= k < nbrs@.len() ==> #[trigger] nbrs@[k] < labels@.len(),
                forall|k: int|
                    0 <= k < nbrs@.len() ==> #[trigger] labels@[nbrs@[k] as int] < names.len(),
                1 <= p <= d,
                0 <= witness < p,
                labels@[nbrs@[witness] as int] == best,
                best_count == tally(labels@, nbrs@, best),
                forall|k: int|
                    0 <= k < p ==> no_better(names, labels@, nbrs@, best, #[trigger] labels@[nbrs@[k] as int]),
            decreases d - p,
        {
            let cand = labels[nbrs[p]];
            let c = count_label(labels, nbrs, cand);
            let takes_over = c > best_count || (c == best_count && cand != best && str_before(
                self.name_of(cand),
                self.name_of(best),
            ));
            if takes_over {
                proof {
                    assert(no_better(names, labels@, nbrs@, cand, best));
                    assert forall|k: int| 0 <= k < p implies no_better(
                        names,
                        labels@,
                        nbrs@,
                        cand,
                        #[trigger] labels@[nbrs@[k] as int],
                    ) by {
                        lemma_no_better_trans(names, labels@, nbrs@, cand, best, labels@[nbrs@[k] as int]);
                    }
                }
                best = cand;
                best_count = c;
                proof {
                    witness = p as int;
                }
            } else {
                proof {
                    lemma_no_better_total(names, labels@, nbrs@, best, cand);
                    if c == best_count && cand != best {
                        lemma_bytes_before_asym(
                            encode_utf8(names[best as int]),
                            encode_utf8(names[cand as int]),
                        );
                    }
                    assert(no_better(names, labels@, nbrs@, best, labels@[nbrs@[p as int] as int]));
                }
            }
            p = p + 1;
        }
        proof {
            assert(is_best(names, labels@, nbrs@, best));
            lemma_best_exists(names, labels@, nbrs@);
            lemma_best_unique(names, labels@, nbrs@, best, best_label(names, labels@, nbrs@));
        }
        best
    }

    /// One pass of label propagation over the nodes in `order`: each node
    /// with out-neighbours adopts their most frequent label (among equally
    /// frequent ones, the one whose name sorts first), and later visits see
    /// the updates of earlier ones. Returns whether any label changed.
    pub fn label_propagation_pass(&self, labels: &mut Vec<usize>, order: &Vec<usize>) -> (changed:
        bool)
        requires
            self.wf(),
            labels_wf(old(labels)@, self.names().len()),
            forall|k: int| 0 <= k < order@.len() ==> #[trigger] order@[k] < self.names().len(),
        ensures
            labels_wf(final(labels)@, self.names().len()),
            final(labels)@ == pass(self.names(), self.out_lists(), old(labels)@, order@),
            changed == pass_changed(self.names(), self.out_lists(), old(labels)@, order@),
    {
        proof {
            self.lemma_wf_lists();
        }
        let ghost lists = self.out_lists();
        let ghost start = labels@;
        let ghost n = self.names().len();
        let mut changed = false;
        let mut idx: usize = 0;
        proof {
            assert(order@.take(0) =~= Seq::<usize>::empty());
        }
        while idx < order.len()
            invariant
                self.wf(),
                lists == self.out_lists(),
                n == self.names().len(),
                lists_wf(lists, n as int),
                self.names().no_duplicates(),
                forall|k: int| 0 <= k < order@.len() ==> #[trigger] order@[k] < n,
                0 <= idx <= order@.len(),
                labels_wf(labels@, n),
                labels@ == pass(self.names(), lists, start, order@.take(idx as int)),
                changed == pass_changed(self.names(), lists, start, order@.take(idx as int)),
            decreases order@.len() - idx,
        {
            let v = order[idx];
            let ghost cur = labels@;
            proof {
                let next = order@.take(idx + 1);
                assert(next.drop_last() =~= order@.take(idx as int));
                assert(next.last() == v);
                lemma_step_wf(self.names(), lists, cur, v);
            }
            let nbrs = self.neighbors_of(v);
            if nbrs.len() > 0 {
                proof {
                    assert forall|k: int| 0 <= k < nbrs@.len() implies #[trigger] nbrs@[k]
                        < labels@.len() by {
                        assert(lists[v as int][k] < n);
                    }
                }
                proof {
                    assert forall|k: int| 0 <= k < nbrs@.len() implies #[trigger] labels@[nbrs@[k] as int]
                        < n by {
                        assert(nbrs@[k] < n);
                    }
                }
                let b = self.most_frequent_label(labels, nbrs);
                if b != labels[v] {
                    labels.set(v, b);
                    changed = true;
                }
                proof {
                    assert(labels@ =~= step(self.names(), lists, cur, v));
                }
            }
            idx = idx + 1;
        }
        proof {
            assert(order@.take(idx as int) =~= order@);
        }
        changed
    }

    /// Detects communities by label propagation. Every node starts with its
    /// own number as its label; then each pass visits all nodes in a fresh
    /// random order drawn from a generator seeded with `seed`, and the passes
    /// stop once one changes no label or after `max_iterations` passes.
    pub fn label_propagation(&self, seed: u64, max_iterations: usize) -> (r: Propagation)
        requires
            self.wf(),
        ensures
            labels_wf(r.labels@, self.names().len()),
            r.iterations <= max_iterations,
            r.converged || r.iterations == max_iterations,
            exists|orders: Seq<Seq<usize>>|
                is_run(self.names(), self.out_lists(), orders, r.labels@, r.converged, r.iterations as nat),
            r.converged ==> is_stable(self.names(), self.out_lists(), r.labels@),
            forall|v: int|
                0 <= v < self.names().len() && #[trigger] self.out_lists()[v].len() == 0
                    ==> r.labels@[v] == v,
    {
        proof {
            self.lemma_wf_lists();
        }
        let ghost lists = self.out_lists();
        let n = self.num_vertices();
        let ghost init = initial_labels(n as nat);
        let mut labels = node_order(n);
        let mut rng = rng_from_seed(seed);
        let mut iterations: usize = 0;
        let mut converged = false;
        let ghost mut orders: Seq<Seq<usize>> = Seq::empty();
        while iterations < max_iterations && !converged
            invariant
                self.wf(),
                lists == self.out_lists(),
                n == self.names().len(),
                lists.len() == n,
                init == initial_labels(n as nat),
                iterations <= max_iterations,
                labels_wf(labels@, n as nat),
                forall|t: int| 0 <= t < orders.len() ==> is_permutation(#[trigger] orders[t], n as nat),
                is_run(self.names(), lists, orders, labels@, converged, iterations as nat),
            decreases max_iterations - iterations,
        {
            let mut order = node_order(n);
            shuffle_order(&mut order, &mut rng);
            proof {
                lemma_permutation_entries(order@, n as nat);
            }
            let ghost before = labels@;
            let ghost old_orders = orders;
            let changed = self.label_propagation_pass(&mut labels, &order);
            proof {
                lemma_run_extend(self.names(), lists, orders, before, iterations as nat, order@, labels@, changed);
                orders = orders.push(order@);
            }
            iterations = iterations + 1;
            converged = !changed;
        }
        proof {
            assert(is_run(self.names(), self.out_lists(), orders, labels@, converged, iterations as nat));
            assert forall|t: int| 0 <= t < orders.len() implies is_permutation(
                #[trigger] orders[t],
                n as nat,
            ) by {}
            if converged {
                let prefix = orders.take(iterations - 1);
                assert(prefix =~= orders.drop_last());
                lemma_run_wf(self, init, prefix);
                lemma_quiet_pass_is_stable(
                    self,
                    run(self.names(), lists, init, prefix),
                    orders[iterations - 1],
                );
            }
            assert forall|v: int|
                0 <= v < n && #[trigger] lists[v].len() == 0 implies labels@[v] == v by {
                lemma_isolated_node_keeps_label(self, init, orders, v);
            }
        }
        let r = Propagation { labels, converged, iterations };
        proof {
            assert(is_run(self.names(), self.out_lists(), orders, r.labels@, r.converged, r.iterations as nat));
        }
        r
    }
}

} // verus!
