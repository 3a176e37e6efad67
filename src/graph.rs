use vstd::prelude::*;

use crate::email::{email_pairs, pairs_of, ParsedEmail};

verus! {

/// `names` with `s` appended, unless it is already there.
pub open spec fn add_name(names: Seq<Seq<char>>, s: Seq<char>) -> Seq<Seq<char>> {
    if names.contains(s) {
        names
    } else {
        names.push(s)
    }
}

/// The position of `s` in `names` (meaningful when `names` holds it).
pub open spec fn position(names: Seq<Seq<char>>, s: Seq<char>) -> int {
    choose|i: int| 0 <= i < names.len() && names[i] == s
}

/// `lists` followed by empty lists up to length `n`.
pub open spec fn pad_lists(lists: Seq<Seq<usize>>, n: int) -> Seq<Seq<usize>> {
    lists + Seq::new((n - lists.len()) as nat, |k: int| Seq::<usize>::empty())
}

/// `lists` with `t` added to list `f`, unless that list holds it already.
pub open spec fn with_edge(lists: Seq<Seq<usize>>, f: int, t: usize) -> Seq<Seq<usize>> {
    if lists[f].contains(t) {
        lists
    } else {
        lists.update(f, lists[f].push(t))
    }
}

/// The node names that adding the edges `pairs` in order to a graph with
/// the names `names` gives.
pub open spec fn names_after(names: Seq<Seq<char>>, pairs: Seq<(Seq<char>, Seq<char>)>) -> Seq<
    Seq<char>,
>
    decreases pairs.len(),
{
    if pairs.len() == 0 {
        names
    } else {
        add_name(add_name(names_after(names, pairs.drop_last()), pairs.last().0), pairs.last().1)
    }
}

/// The neighbour lists that adding the edges `pairs` in order to an empty
/// graph gives.
pub open spec fn lists_after(pairs: Seq<(Seq<char>, Seq<char>)>) -> Seq<Seq<usize>>
    decreases pairs.len(),
{
    if pairs.len() == 0 {
        Seq::empty()
    } else {
        let names = names_after(Seq::empty(), pairs);
        with_edge(
            pad_lists(lists_after(pairs.drop_last()), names.len() as int),
            position(names, pairs.last().0),
            position(names, pairs.last().1) as usize,
        )
    }
}

/// How many of the lists hold `j`: the in-degree of node `j`.
pub open spec fn in_count(lists: Seq<Seq<usize>>, j: usize) -> nat
    decreases lists.len(),
{
    if lists.len() == 0 {
        0
    } else {
        in_count(lists.drop_last(), j) + if lists.last().contains(j) {
            1nat
        } else {
            0nat
        }
    }
}

proof fn lemma_in_count_bound(lists: Seq<Seq<usize>>, j: usize)
    ensures
        in_count(lists, j) <= lists.len(),
    decreases lists.len(),
{
    if lists.len() > 0 {
        lemma_in_count_bound(lists.drop_last(), j);
    }
}

/// Out-neighbour lists over `n` nodes: each list has no repeated entry and
/// names only nodes below `n`.
pub open spec fn lists_wf(lists: Seq<Seq<usize>>, n: int) -> bool {
    &&& lists.len() == n
    &&& forall|i: int| 0 <= i < n ==> (#[trigger] lists[i]).no_duplicates()
    &&& forall|i: int, k: int|
        0 <= i < n && 0 <= k < lists[i].len() ==> (#[trigger] lists[i][k]) < n
}

/// Whether `list` holds `t`.
pub fn list_contains(list: &Vec<usize>, t: usize) -> (r: bool)
    ensures
        r == list@.contains(t),
{
    let mut k: usize = 0;
    while k < list.len()
        invariant
            0 <= k <= list@.len(),
            forall|q: int| 0 <= q < k ==> list@[q] != t,
        decreases list@.len() - k,
    {
        if list[k] == t {
            return true;
        }
        k = k + 1;
    }
    false
}

/// A directed, unweighted graph. Nodes are named by strings and numbered in
/// the order in which they first appeared; node `i` has the out-neighbour list
/// `adjacency[i]`, which holds each neighbour once.
pub struct Graph {
    num_vertices: usize,
    names: Vec<String>,
    adjacency: Vec<Vec<usize>>,
}

impl Graph {
    /// The node names, by node number.
    pub closed spec fn names(&self) -> Seq<Seq<char>> {
        self.names@.map_values(|s: String| s@)
    }

    /// The out-neighbour lists, by node number.
    pub closed spec fn out_lists(&self) -> Seq<Seq<usize>> {
        self.adjacency@.map_values(|v: Vec<usize>| v@)
    }

    pub closed spec fn vertex_count(&self) -> nat {
        self.num_vertices as nat
    }

    /// Every node name once, a list per node, and the vertex count in step.
    pub closed spec fn wf(&self) -> bool {
        &&& self.num_vertices == self.names@.len()
        &&& self.names().no_duplicates()
        &&& lists_wf(self.out_lists(), self.names@.len() as int)
    }

    /// The set of node names.
    pub open spec fn nodes(&self) -> Set<Seq<char>> {
        self.names().to_set()
    }

    /// The set of directed edges, as (from, to) pairs of names.
    pub open spec fn edges(&self) -> Set<(Seq<char>, Seq<char>)> {
        Set::new(
            |e: (Seq<char>, Seq<char>)|
                exists|i: int, j: int|
                    0 <= i < self.names().len() && 0 <= j < self.names().len()
                        && self.names()[i] == e.0 && self.names()[j] == e.1
                        && #[trigger] self.out_lists()[i].contains(j as usize),
        )
    }

    /// Creates a graph with no nodes.
    pub fn new() -> (g: Self)
        ensures
            g.wf(),
            g.names() == Seq::<Seq<char>>::empty(),
            g.out_lists() == Seq::<Seq<usize>>::empty(),
            g.vertex_count() == 0,
    {
        let g = Graph { num_vertices: 0, names: Vec::new(), adjacency: Vec::new() };
        proof {
            assert(g.names() =~= Seq::<Seq<char>>::empty());
            assert(g.out_lists() =~= Seq::<Seq<usize>>::empty());
        }
        g
    }

    /// The number of the node named `name`, if there is one.
    pub fn find_node(&self, name: &String) -> (r: Option<usize>)
        requires
            self.wf(),
        ensures
            match r {
                Some(i) => i < self.names().len() && self.names()[i as int] == name@,
                None => !self.names().contains(name@),
            },
    {
        let n = self.names.len();
        let mut i: usize = 0;
        while i < n
            invariant
                n == self.names@.len(),
                self.names().len() == n,
                0 <= i <= n,
                forall|k: int| 0 <= k < i ==> self.names()[k] != name@,
            decreases n - i,
        {
            if self.names[i] == *name {
                return Some(i);
            }
            i = i + 1;
        }
        None
    }

    /// The number of the node named `name`, adding it with no neighbours if
    /// the graph does not have it yet.
    fn ensure_node(&mut self, name: String) -> (id: usize)
        requires
            old(self).wf(),
        ensures
            final(self).wf(),
            final(self).names() == add_name(old(self).names(), name@),
            final(self).out_lists() == pad_lists(
                old(self).out_lists(),
                final(self).names().len() as int,
            ),
            final(self).edges() == old(self).edges(),
            id < final(self).names().len(),
            final(self).names()[id as int] == name@,
    {
        match self.find_node(&name) {
            Some(i) => {
                proof {
                    assert(self.out_lists() =~= pad_lists(
                        self.out_lists(),
                        self.names().len() as int,
                    ));
                }
                i
            },
            None => {
                let ghost old_names = self.names();
                let ghost old_lists = self.out_lists();
                let ghost old_edges = self.edges();
                let id = self.names.len();
                self.names.push(name);
                self.adjacency.push(Vec::new());
                self.num_vertices = self.names.len();
                proof {
                    assert(self.names() =~= old_names.push(name@));
                    assert(self.out_lists() =~= old_lists.push(Seq::<usize>::empty()));
                    assert(self.out_lists() =~= pad_lists(old_lists, self.names().len() as int));
                    assert(self.names().no_duplicates()) by {
                        assert forall|a: int, b: int|
                            0 <= a < b < self.names().len() implies self.names()[a]
                            != self.names()[b] by {
                            if b == id {
                                assert(old_names.contains(old_names[a]));
                            }
                        }
                    }
                    assert forall|e: (Seq<char>, Seq<char>)|
                        self.edges().contains(e) <==> old_edges.contains(e) by {
                        if self.edges().contains(e) {
                            let (i, j) = choose|i: int, j: int|
                                0 <= i < self.names().len() && 0 <= j < self.names().len()
                                    && self.names()[i] == e.0 && self.names()[j] == e.1
                                    && #[trigger] self.out_lists()[i].contains(j as usize);
                            assert(i < id);
                            let k = choose|k: int|
                                0 <= k < old_lists[i].len() && old_lists[i][k] == j as usize;
                            assert(old_lists[i][k] < id);
                            assert(old_lists[i].contains(j as usize));
                        }
                        if old_edges.contains(e) {
                            let (i, j) = choose|i: int, j: int|
                                0 <= i < old_names.len() && 0 <= j < old_names.len()
                                    && old_names[i] == e.0 && old_names[j] == e.1
                                    && #[trigger] old_lists[i].contains(j as usize);
                            assert(self.out_lists()[i] == old_lists[i]);
                        }
                    }
                    assert(self.edges() =~= old_edges);
                }
                id
            },
        }
    }

    /// Adds the edge `from_node -> to_node`, first adding either node that the
    /// graph does not have yet. Adding an edge that is already there changes
    /// nothing; `from_node == to_node` gives a self-loop.
    pub fn add_edge(&mut self, from_node: String, to_node: String)
        requires
            old(self).wf(),
        ensures
            final(self).wf(),
            final(self).names() == add_name(add_name(old(self).names(), from_node@), to_node@),
            final(self).out_lists() == with_edge(
                pad_lists(old(self).out_lists(), final(self).names().len() as int),
                position(final(self).names(), from_node@),
                position(final(self).names(), to_node@) as usize,
            ),
            final(self).edges() == old(self).edges().insert((from_node@, to_node@)),
            final(self).vertex_count() == final(self).names().len(),
    {
        let ghost from_view = from_node@;
        let ghost to_view = to_node@;
        let ghost old_lists = self.out_lists();
        let ghost old_edges = self.edges();
        let f = self.ensure_node(from_node);
        let ghost mid_names = self.names();
        let t = self.ensure_node(to_node);
        let ghost names = self.names();
        let ghost padded = self.out_lists();
        let ghost pre_edges = self.edges();
        proof {
            assert(names[f as int] == from_view);
            assert(padded =~= pad_lists(old_lists, names.len() as int));
        }
        if !list_contains(&self.adjacency[f], t) {
            self.adjacency[f].push(t);
        }
        proof {
            let n = names.len() as int;
            assert(position(names, from_view) == f as int) by {
                let p = position(names, from_view);
                assert(names.contains(from_view));
                assert(names[f as int] == from_view);
                assert(names[p] == from_view);
            }
            assert(position(names, to_view) == t as int) by {
                let p = position(names, to_view);
                assert(names.contains(to_view));
                assert(names[p] == to_view);
            }
            assert(self.out_lists() =~= with_edge(padded, f as int, t));
            assert(self.names() == names);
            assert(lists_wf(self.out_lists(), n)) by {
                if !padded[f as int].contains(t) {
                    assert forall|i: int| 0 <= i < n implies (
                    #[trigger] self.out_lists()[i]).no_duplicates() by {
                        if i == f as int {
                            assert(padded[i].no_duplicates());
                        }
                    }
                }
            }
            let mid_edges = self.edges();
            assert forall|e: (Seq<char>, Seq<char>)|
                #[trigger] self.edges().contains(e) <==> old_edges.contains(e) || e == (
                from_view,
                to_view,
            ) by {
                if self.edges().contains(e) {
                    let (i, j) = choose|i: int, j: int|
                        0 <= i < n && 0 <= j < n && names[i] == e.0 && names[j] == e.1
                            && #[trigger] self.out_lists()[i].contains(j as usize);
                    if !(i == f as int && j == t as int) {
                        let k = choose|k: int|
                            0 <= k < self.out_lists()[i].len() && self.out_lists()[i][k]
                                == j as usize;
                        if i == f as int && !padded[i].contains(t) {
                            assert(k < padded[i].len());
                            assert(padded[i][k] == j as usize);
                        }
                        assert(padded[i].contains(j as usize));
                    } else {
                        assert(e == (from_view, to_view));
                    }
                }
                if e == (from_view, to_view) {
                    if padded[f as int].contains(t) {
                    } else {
                        assert(self.out_lists()[f as int].last() == t);
                    }
                    assert(self.out_lists()[f as int].contains(t));
                    assert(self.out_lists()[f as int].contains((t as int) as usize));
                    assert(names[f as int] == e.0 && names[t as int] == e.1);
                }
                if pre_edges.contains(e) {
                    let (i, j) = choose|i: int, j: int|
                        0 <= i < n && 0 <= j < n && names[i] == e.0 && names[j] == e.1
                            && #[trigger] padded[i].contains(j as usize);
                    let k = choose|k: int| 0 <= k < padded[i].len() && padded[i][k] == j as usize;
                    if i == f as int && !padded[i].contains(t) {
                        assert(self.out_lists()[i][k] == j as usize);
                    }
                    assert(self.out_lists()[i].contains(j as usize));
                }
            }
            assert(self.edges() =~= old_edges.insert((from_view, to_view)));
        }
    }

    /// Builds the graph of all (sender, recipient) pairs of `parsed_emails`,
    /// adding the edges in order.
    pub fn build_from_emails(parsed_emails: Vec<ParsedEmail>) -> (g: Self)
        ensures
            g.wf(),
            g.names() == names_after(Seq::empty(), email_pairs(parsed_emails@)),
            g.out_lists() == lists_after(email_pairs(parsed_emails@)),
            g.edges() == email_pairs(parsed_emails@).to_set(),
            g.vertex_count() == g.names().len(),
    {
        let mut graph = Graph::new();
        let ghost emails = parsed_emails@;
        let mut i: usize = 0;
        proof {
            assert(emails.take(0) =~= Seq::<ParsedEmail>::empty());
            assert(email_pairs(emails.take(0)) =~= Seq::<(Seq<char>, Seq<char>)>::empty());
            assert(graph.edges() =~= Set::<(Seq<char>, Seq<char>)>::empty());
            assert(email_pairs(emails.take(0)).to_set() =~= Set::<(Seq<char>, Seq<char>)>::empty());
        }
        while i < parsed_emails.len()
            invariant
                emails == parsed_emails@,
                0 <= i <= emails.len(),
                graph.wf(),
                graph.names() == names_after(Seq::empty(), email_pairs(emails.take(i as int))),
                graph.out_lists() == lists_after(email_pairs(emails.take(i as int))),
                graph.edges() == email_pairs(emails.take(i as int)).to_set(),
                graph.vertex_count() == graph.names().len(),
            decreases emails.len() - i,
        {
            let email = &parsed_emails[i];
            let ghost done = email_pairs(emails.take(i as int));
            let ghost mine = pairs_of(*email);
            let mut j: usize = 0;
            proof {
                assert(done + mine.take(0) =~= done);
            }
            while j < email.to.len()
                invariant
                    0 <= j <= email.to@.len(),
                    mine == pairs_of(*email),
                    graph.wf(),
                    graph.names() == names_after(Seq::empty(), done + mine.take(j as int)),
                    graph.out_lists() == lists_after(done + mine.take(j as int)),
                    graph.edges() == (done + mine.take(j as int)).to_set(),
                    graph.vertex_count() == graph.names().len(),
                decreases email.to@.len() - j,
            {
                let ghost before = done + mine.take(j as int);
                graph.add_edge(email.from.clone(), email.to[j].clone());
                proof {
                    let after = done + mine.take(j + 1);
                    assert(after =~= before.push(mine[j as int]));
                    assert(after.drop_last() =~= before);
                    before.lemma_push_to_set_commute(mine[j as int]);
                }
                j = j + 1;
            }
            proof {
                assert(emails.take(i + 1).drop_last() =~= emails.take(i as int));
                assert(mine.take(j as int) =~= mine);
            }
            i = i + 1;
        }
        proof {
            assert(emails.take(i as int) =~= emails);
        }
        graph
    }

    /// The number of nodes.
    pub fn num_vertices(&self) -> (r: usize)
        requires
            self.wf(),
        ensures
            r == self.names().len(),
    {
        self.num_vertices
    }

    /// The name of node `i`.
    pub fn node_name(&self, i: usize) -> (r: String)
        requires
            self.wf(),
            i < self.names().len(),
        ensures
            r@ == self.names()[i as int],
    {
        self.names[i].clone()
    }

    /// The name of node `i`, borrowed.
    pub fn name_of(&self, i: usize) -> (r: &String)
        requires
            self.wf(),
            i < self.names().len(),
        ensures
            r@ == self.names()[i as int],
    {
        &self.names[i]
    }

    /// The names of the out-neighbours of the node named `node`, in the order
    /// in which their edges were added, or `None` if there is no such node.
    pub fn get_neighbors(&self, node: &String) -> (r: Option<Vec<String>>)
        requires
            self.wf(),
        ensures
            r is None <==> !self.nodes().contains(node@),
            r matches Some(v) ==> v@.map_values(|s: String| s@) == self.out_lists()[position(
                self.names(),
                node@,
            )].map_values(|k: usize| self.names()[k as int]),
    {
        match self.find_node(node) {
            None => None,
            Some(i) => {
                proof {
                    let p = position(self.names(), node@);
                    assert(self.names().contains(node@));
                    assert(self.names()[p] == node@);
                    assert(p == i as int);
                }
                let list = &self.adjacency[i];
                let mut out: Vec<String> = Vec::new();
                let mut k: usize = 0;
                while k < list.len()
                    invariant
                        self.wf(),
                        i < self.names().len(),
                        list@ == self.out_lists()[i as int],
                        0 <= k <= list@.len(),
                        out@.len() == k,
                        out@.map_values(|s: String| s@) == list@.take(k as int).map_values(
                            |q: usize| self.names()[q as int],
                        ),
                    decreases list@.len() - k,
                {
                    proof {
                        assert(list@[k as int] < self.names().len());
                    }
                    let ghost prev = out@;
                    let name = self.names[list[k]].clone();
                    out.push(name);
                    proof {
                        let want = list@.take(k + 1).map_values(|q: usize| self.names()[q as int]);
                        let have = out@.map_values(|s: String| s@);
                        assert(list@.take(k + 1) =~= list@.take(k as int).push(list@[k as int]));
                        assert forall|m: int| 0 <= m < k + 1 implies have[m] == want[m] by {
                            if m == k {
                                assert(out@[m] == name);
                                assert(self.names()[list@[k as int] as int] == self.names@[list@[k as int] as int]@);
                            }
                            if m < k {
                                assert(prev.map_values(|s: String| s@)[m] == list@.take(
                                    k as int,
                                ).map_values(|q: usize| self.names()[q as int])[m]);
                            }
                        }
                        assert(have =~= want);
                    }
                    k = k + 1;
                }
                proof {
                    assert(list@.take(k as int) =~= list@);
                }
                Some(out)
            },
        }
    }

    /// Each node's name with its out-degree (the length of its neighbour
    /// list), by node number.
    pub fn calculate_out_degrees(&self) -> (r: Vec<(String, usize)>)
        requires
            self.wf(),
        ensures
            r@.len() == self.names().len(),
            forall|i: int|
                0 <= i < r@.len() ==> (#[trigger] r@[i]).0@ == self.names()[i] && r@[i].1
                    == self.out_lists()[i].len(),
    {
        let n = self.names.len();
        let mut out: Vec<(String, usize)> = Vec::new();
        let mut i: usize = 0;
        while i < n
            invariant
                self.wf(),
                n == self.names().len(),
                0 <= i <= n,
                out@.len() == i,
                forall|k: int|
                    0 <= k < i ==> (#[trigger] out@[k]).0@ == self.names()[k] && out@[k].1
                        == self.out_lists()[k].len(),
            decreases n - i,
        {
            out.push((self.names[i].clone(), self.adjacency[i].len()));
            i = i + 1;
        }
        out
    }

    /// Each node's name with its in-degree (how many neighbour lists hold
    /// it), by node number. Nodes that nobody points to get 0.
    pub fn calculate_in_degrees(&self) -> (r: Vec<(String, usize)>)
        requires
            self.wf(),
        ensures
            r@.len() == self.names().len(),
            forall|j: int|
                0 <= j < r@.len() ==> (#[trigger] r@[j]).0@ == self.names()[j] && r@[j].1
                    == in_count(self.out_lists(), j as usize),
    {
        let n = self.names.len();
        let ghost lists = self.out_lists();
        let mut counts: Vec<usize> = Vec::new();
        let mut j: usize = 0;
        while j < n
            invariant
                0 <= j <= n,
                counts@.len() == j,
                forall|q: int| 0 <= q < j ==> counts@[q] == 0,
            decreases n - j,
        {
            counts.push(0);
            j = j + 1;
        }
        let mut i: usize = 0;
        while i < n
            invariant
                self.wf(),
                n == self.names().len(),
                lists == self.out_lists(),
                0 <= i <= n,
                counts@.len() == n,
                forall|q: int|
                    0 <= q < n ==> #[trigger] counts@[q] == in_count(
                        lists.take(i as int),
                        q as usize,
                    ),
            decreases n - i,
        {
            let list = &self.adjacency[i];
            let mut k: usize = 0;
            while k < list.len()
                invariant
                    self.wf(),
                    n == self.names().len(),
                    lists == self.out_lists(),
                    0 <= i < n,
                    list@ == lists[i as int],
                    0 <= k <= list@.len(),
                    counts@.len() == n,
                    forall|q: int|
                        0 <= q < n ==> #[trigger] counts@[q] == in_count(
                            lists.take(i as int),
                            q as usize,
                        ) + if list@.take(k as int).contains(q as usize) {
                            1nat
                        } else {
                            0nat
                        },
                decreases list@.len() - k,
            {
                let target = list[k];
                proof {
                    assert(target < n);
                    lemma_in_count_bound(lists.take(i as int), target);
                    assert(list@.no_duplicates());
                    assert(!list@.take(k as int).contains(target));
                    assert(list@.take(k + 1) =~= list@.take(k as int).push(target));
                }
                let ghost old_counts = counts@;
                counts.set(target, counts[target] + 1);
                proof {
                    assert forall|q: int| 0 <= q < n implies #[trigger] counts@[q] == in_count(
                        lists.take(i as int),
                        q as usize,
                    ) + if list@.take(k + 1).contains(q as usize) {
                        1nat
                    } else {
                        0nat
                    } by {
                        assert(old_counts[q] == in_count(lists.take(i as int), q as usize) + if list@.take(
                            k as int,
                        ).contains(q as usize) {
                            1nat
                        } else {
                            0nat
                        });
                        if q == target as int {
                            assert(list@.take(k + 1)[k as int] == target);
                            assert(list@.take(k + 1).contains(q as usize));
                        }
                        if list@.take(k as int).contains(q as usize) {
                            assert(list@.take(k + 1).contains(q as usize));
                        }
                        if q != target as int && list@.take(k + 1).contains(q as usize) {
                            let w = choose|w: int|
                                0 <= w < k + 1 && #[trigger] list@.take(k + 1)[w] == q as usize;
                            assert(list@.take(k as int)[w] == q as usize);
                        }
                    }
                }
                k = k + 1;
            }
            proof {
                assert(list@.take(k as int) =~= list@);
                assert(lists.take(i + 1).drop_last() =~= lists.take(i as int));
            }
            i = i + 1;
        }
        proof {
            assert(lists.take(n as int) =~= lists);
        }
        let mut out: Vec<(String, usize)> = Vec::new();
        let mut p: usize = 0;
        while p < n
            invariant
                self.wf(),
                n == self.names().len(),
                lists == self.out_lists(),
                counts@.len() == n,
                forall|q: int| 0 <= q < n ==> #[trigger] counts@[q] == in_count(lists, q as usize),
                0 <= p <= n,
                out@.len() == p,
                forall|q: int|
                    0 <= q < p ==> (#[trigger] out@[q]).0@ == self.names()[q] && out@[q].1
                        == in_count(lists, q as usize),
            decreases n - p,
        {
            out.push((self.names[p].clone(), counts[p]));
            p = p + 1;
        }
        out
    }

    /// The out-neighbour list of node `v`, by node number.
    pub fn neighbors_of(&self, v: usize) -> (r: &Vec<usize>)
        requires
            self.wf(),
            v < self.names().len(),
        ensures
            r@ == self.out_lists()[v as int],
    {
        &self.adjacency[v]
    }

    /// A well-formed graph has one well-formed neighbour list per node.
    pub proof fn lemma_wf_lists(&self)
        requires
            self.wf(),
        ensures
            lists_wf(self.out_lists(), self.names().len() as int),
            self.names().no_duplicates(),
            self.vertex_count() == self.names().len(),
            self.names().len() <= usize::MAX,
    {
    }
}

proof fn lemma_add_name_facts(names: Seq<Seq<char>>, s: Seq<char>)
    requires
        names.no_duplicates(),
    ensures
        add_name(names, s).no_duplicates(),
        add_name(names, s).contains(s),
        forall|x: Seq<char>| names.contains(x) ==> #[trigger] add_name(names, s).contains(x),
{
    if !names.contains(s) {
        let grown = names.push(s);
        assert(grown[names.len() as int] == s);
        assert forall|x: Seq<char>| names.contains(x) implies #[trigger] grown.contains(x) by {
            let k = choose|k: int| 0 <= k < names.len() && names[k] == x;
            assert(grown[k] == x);
        }
    }
}

/// Every endpoint of every edge added, in any order, ends up a node, and no
/// node is listed twice.
pub proof fn lemma_edge_endpoints_are_nodes(pairs: Seq<(Seq<char>, Seq<char>)>)
    ensures
        names_after(Seq::empty(), pairs).no_duplicates(),
        forall|k: int|
            0 <= k < pairs.len() ==> names_after(Seq::empty(), pairs).contains(
                (#[trigger] pairs[k]).0,
            ) && names_after(Seq::empty(), pairs).contains(pairs[k].1),
    decreases pairs.len(),
{
    if pairs.len() > 0 {
        let prefix = pairs.drop_last();
        lemma_edge_endpoints_are_nodes(prefix);
        let mid = names_after(Seq::empty(), prefix);
        let last = pairs.last();
        lemma_add_name_facts(mid, last.0);
        lemma_add_name_facts(add_name(mid, last.0), last.1);
        assert forall|k: int| 0 <= k < pairs.len() implies names_after(Seq::empty(), pairs).contains(
            (#[trigger] pairs[k]).0,
        ) && names_after(Seq::empty(), pairs).contains(pairs[k].1) by {
            if k < prefix.len() {
                assert(pairs[k] == prefix[k]);
            }
        }
    }
}

proof fn lemma_position(names: Seq<Seq<char>>, i: int)
    requires
        names.no_duplicates(),
        0 <= i < names.len(),
    ensures
        position(names, names[i]) == i,
{
    let p = position(names, names[i]);
    assert(names[p] == names[i]);
}

/// Adding an edge that the graph already has changes neither its names nor
/// its neighbour lists, so neither degree map changes either.
pub proof fn lemma_add_edge_idempotent(g: &Graph, from: Seq<char>, to: Seq<char>)
    requires
        g.wf(),
        g.edges().contains((from, to)),
    ensures
        add_name(add_name(g.names(), from), to) == g.names(),
        with_edge(
            pad_lists(g.out_lists(), g.names().len() as int),
            position(g.names(), from),
            position(g.names(), to) as usize,
        ) == g.out_lists(),
{
    let names = g.names();
    let (i, j) = choose|i: int, j: int|
        0 <= i < names.len() && 0 <= j < names.len() && names[i] == from && names[j] == to
            && #[trigger] g.out_lists()[i].contains(j as usize);
    assert(names.contains(from));
    assert(names.contains(to));
    lemma_position(names, i);
    lemma_position(names, j);
    assert(pad_lists(g.out_lists(), names.len() as int) =~= g.out_lists());
}

/// Replacing list `i` changes the in-degree of `j` by what the two lists
/// say of `j`.
proof fn lemma_in_count_update(lists: Seq<Seq<usize>>, i: int, list: Seq<usize>, j: usize)
    requires
        0 <= i < lists.len(),
    ensures
        in_count(lists.update(i, list), j) + (if lists[i].contains(j) {
            1int
        } else {
            0int
        }) == in_count(lists, j) + (if list.contains(j) {
            1int
        } else {
            0int
        }),
    decreases lists.len(),
{
    let updated = lists.update(i, list);
    if i < lists.len() - 1 {
        lemma_in_count_update(lists.drop_last(), i, list, j);
        assert(updated.drop_last() =~= lists.drop_last().update(i, list));
    } else {
        assert(updated.drop_last() =~= lists.drop_last());
    }
}

/// Adding a self-loop `x -> x` that the graph did not have raises both the
/// out-degree and the in-degree of `x` by exactly one.
pub proof fn lemma_self_loop_degrees(g: &Graph, x: Seq<char>)
    requires
        g.wf(),
        !g.edges().contains((x, x)),
    ensures
        ({
            let names = add_name(add_name(g.names(), x), x);
            let i = position(names, x);
            let before = pad_lists(g.out_lists(), names.len() as int);
            let after = with_edge(before, i, i as usize);
            &&& after[i].len() == before[i].len() + 1
            &&& in_count(after, i as usize) == in_count(before, i as usize) + 1
        }),
{
    let old_names = g.names();
    lemma_add_name_facts(old_names, x);
    let names = add_name(add_name(old_names, x), x);
    assert(names == add_name(old_names, x));
    assert(names.contains(x));
    let i = position(names, x);
    assert(0 <= i < names.len() && names[i] == x);
    let before = pad_lists(g.out_lists(), names.len() as int);
    assert(!before[i].contains(i as usize)) by {
        if i < old_names.len() {
            assert(old_names[i] == x);
            if before[i].contains(i as usize) {
                assert(g.out_lists()[i].contains(i as usize));
                assert(g.edges().contains((x, x)));
            }
        }
    }
    let after = with_edge(before, i, i as usize);
    assert(after[i] == before[i].push(i as usize));
    assert(after[i].contains(i as usize)) by {
        assert(after[i][before[i].len() as int] == i as usize);
    }
    lemma_in_count_update(before, i, before[i].push(i as usize), i as usize);
}

} // verus!
