use vstd::prelude::*;

verus! {

/// There is an edge from `a` to `b` in the adjacency table `adj`.
pub open spec fn linked(adj: Seq<Seq<bool>>, a: int, b: int) -> bool {
    0 <= a < adj.len() && 0 <= b < adj[a].len() && adj[a][b]
}

/// Every row of the table is as long as the table has rows.
pub open spec fn is_square(adj: Seq<Seq<bool>>) -> bool {
    forall|i: int| 0 <= i < adj.len() ==> (#[trigger] adj[i]).len() == adj.len()
}

/// `p` lists at least two nodes, each linked to the next.
pub open spec fn is_walk(adj: Seq<Seq<bool>>, p: Seq<int>) -> bool {
    &&& p.len() >= 2
    &&& forall|i: int| #![trigger p[i]] 0 <= i < p.len() - 1 ==> linked(adj, p[i], p[i + 1])
}

/// Some walk leads from `a` to `b`.
pub open spec fn reaches(adj: Seq<Seq<bool>>, a: int, b: int) -> bool {
    exists|p: Seq<int>| is_walk(adj, p) && p.first() == a && p.last() == b
}

/// Node `v` lies on a cycle: some walk leads from it back to itself.
pub open spec fn on_cycle(adj: Seq<Seq<bool>>, v: int) -> bool {
    reaches(adj, v, v)
}

/// Some node lies on a cycle.
pub open spec fn has_cycle(adj: Seq<Seq<bool>>) -> bool {
    exists|v: int| 0 <= v < adj.len() && on_cycle(adj, v)
}

/// The numbers `0..n` in ascending order.
pub open spec fn iota(n: nat) -> Seq<int> {
    Seq::new(n, |i: int| i)
}

/// The nodes that lie on a cycle, in ascending order.
pub open spec fn cycle_nodes(adj: Seq<Seq<bool>>) -> Seq<int> {
    iota(adj.len()).filter(|v: int| on_cycle(adj, v))
}

/// The nodes that have found their place within the first `k` layers: a node
/// is placed in the layer after the last of its predecessors.
pub open spec fn placed(adj: Seq<Seq<bool>>, k: nat) -> Set<int>
    decreases k,
{
    if k == 0 {
        Set::empty()
    } else {
        Set::new(
            |v: int|
                0 <= v < adj.len() && forall|u: int|
                    linked(adj, u, v) ==> placed(adj, (k - 1) as nat).contains(u),
        )
    }
}

/// Layer `k`: the nodes placed by layer `k` and not before, in ascending order.
pub open spec fn layer(adj: Seq<Seq<bool>>, k: nat) -> Seq<int> {
    iota(adj.len()).filter(|v: int| placed(adj, k + 1).contains(v) && !placed(adj, k).contains(v))
}

/// The first `d` layers.
pub open spec fn layering(adj: Seq<Seq<bool>>, d: nat) -> Seq<Seq<int>> {
    Seq::new(d, |k: int| layer(adj, k as nat))
}

/// Every node is placed within the first `d` layers, and none of these
/// layers is empty.
pub open spec fn is_depth(adj: Seq<Seq<bool>>, d: nat) -> bool {
    &&& forall|v: int| 0 <= v < adj.len() ==> placed(adj, d).contains(v)
    &&& forall|k: nat| k < d ==> #[trigger] layer(adj, k).len() > 0
}

/// The number of `false` entries.
pub open spec fn count_false(s: Seq<bool>) -> nat
    decreases s.len(),
{
    if s.len() == 0 {
        0
    } else {
        count_false(s.drop_last()) + if s.last() { 0nat } else { 1nat }
    }
}

proof fn lemma_count_false_bounds(s: Seq<bool>)
    ensures
        count_false(s) <= s.len(),
        count_false(s) == 0 ==> forall|i: int| 0 <= i < s.len() ==> s[i],
        (forall|i: int| 0 <= i < s.len() ==> s[i]) ==> count_false(s) == 0,
        (forall|i: int| 0 <= i < s.len() ==> !s[i]) ==> count_false(s) == s.len(),
    decreases s.len(),
{
    if s.len() > 0 {
        lemma_count_false_bounds(s.drop_last());
        assert forall|i: int| 0 <= i < s.len() && count_false(s) == 0 implies s[i] by {
            if i < s.len() - 1 {
                assert(s.drop_last()[i] == s[i]);
            }
        }
        if forall|i: int| 0 <= i < s.len() ==> !s[i] {
            assert forall|i: int| 0 <= i < s.drop_last().len() implies !s.drop_last()[i] by {
                assert(s.drop_last()[i] == s[i]);
            }
        }
        if forall|i: int| 0 <= i < s.len() ==> s[i] {
            assert forall|i: int| 0 <= i < s.drop_last().len() implies s.drop_last()[i] by {
                assert(s.drop_last()[i] == s[i]);
            }
        }
    }
}

proof fn lemma_count_false_set(s: Seq<bool>, i: int)
    requires
        0 <= i < s.len(),
        !s[i],
    ensures
        count_false(s.update(i, true)) + 1 == count_false(s),
    decreases s.len(),
{
    let t = s.update(i, true);
    if i == s.len() - 1 {
        assert(t.drop_last() =~= s.drop_last());
    } else {
        lemma_count_false_set(s.drop_last(), i);
        assert(t.drop_last() =~= s.drop_last().update(i, true));
    }
}

/// A walk stays a walk when a node linked from its last node is appended.
pub proof fn lemma_walk_push(adj: Seq<Seq<bool>>, p: Seq<int>, c: int)
    requires
        is_walk(adj, p),
        linked(adj, p.last(), c),
    ensures
        is_walk(adj, p.push(c)),
        p.push(c).first() == p.first(),
        p.push(c).last() == c,
{
    let q = p.push(c);
    assert forall|i: int| #![trigger q[i]] 0 <= i < q.len() - 1 implies linked(
        adj,
        q[i],
        q[i + 1],
    ) by {
        if i < p.len() - 1 {
            assert(q[i] == p[i]);
            assert(q[i + 1] == p[i + 1]);
        }
    }
}

/// An edge is a walk of two nodes.
pub proof fn lemma_edge_reaches(adj: Seq<Seq<bool>>, a: int, b: int)
    requires
        linked(adj, a, b),
    ensures
        reaches(adj, a, b),
{
    let p = seq![a, b];
    assert(is_walk(adj, p));
    assert(p.first() == a && p.last() == b);
}

/// A set of nodes that holds the successors of `v` and is closed under
/// edges holds every node that `v` reaches.
proof fn lemma_closed_holds_reachable(adj: Seq<Seq<bool>>, seen: Seq<bool>, v: int, u: int)
    requires
        is_square(adj),
        seen.len() == adj.len(),
        forall|y: int| linked(adj, v, y) ==> seen[y],
        forall|x: int, y: int| 0 <= x < seen.len() && seen[x] && linked(adj, x, y) ==> seen[y],
        reaches(adj, v, u),
    ensures
        0 <= u < seen.len() && seen[u],
{
    let p = choose|p: Seq<int>| is_walk(adj, p) && p.first() == v && p.last() == u;
    lemma_walk_tail_seen(adj, seen, p, p.len() - 1);
}

proof fn lemma_walk_tail_seen(adj: Seq<Seq<bool>>, seen: Seq<bool>, p: Seq<int>, i: int)
    requires
        is_square(adj),
        seen.len() == adj.len(),
        forall|y: int| linked(adj, p.first(), y) ==> seen[y],
        forall|x: int, y: int| 0 <= x < seen.len() && seen[x] && linked(adj, x, y) ==> seen[y],
        is_walk(adj, p),
        1 <= i < p.len(),
    ensures
        0 <= p[i] < seen.len() && seen[p[i]],
    decreases i,
{
    assert(linked(adj, p[i - 1], p[i - 1 + 1]));
    if i > 1 {
        lemma_walk_tail_seen(adj, seen, p, i - 1);
    }
}

/// The node numbers held in machine integers, as mathematical integers.
pub open spec fn as_ints(s: Seq<usize>) -> Seq<int> {
    s.map_values(|x: usize| x as int)
}

/// Lists of node numbers, as sequences of mathematical integers.
pub open spec fn nested_ints(l: Seq<Vec<usize>>) -> Seq<Seq<int>> {
    Seq::new(l.len(), |k: int| as_ints(l[k]@))
}

proof fn lemma_iota_filter_step(n: nat, v: nat, pred: spec_fn(int) -> bool)
    requires
        v < n,
    ensures
        iota(n).take(v as int + 1).filter(pred) == if pred(v as int) {
            iota(n).take(v as int).filter(pred).push(v as int)
        } else {
            iota(n).take(v as int).filter(pred)
        },
{
    let a = iota(n).take(v as int);
    assert(iota(n).take(v as int + 1) =~= a.push(v as int));
    assert(a.push(v as int).drop_last() =~= a);
    reveal(Seq::filter);
}

proof fn lemma_iota_filter_member(n: nat, pred: spec_fn(int) -> bool, v: int)
    ensures
        iota(n).filter(pred).contains(v) <==> 0 <= v < n && pred(v),
{
    let s = iota(n);
    if 0 <= v < n && pred(v) {
        assert(s[v] == v);
        s.lemma_filter_contains(pred, v);
    }
    if s.filter(pred).contains(v) {
        let i = choose|i: int| 0 <= i < s.filter(pred).len() && s.filter(pred)[i] == v;
        s.lemma_filter_pred(pred, i);
        s.lemma_filter_contains_rev(pred, v);
        let j = choose|j: int| 0 <= j < s.len() && s[j] == v;
        assert(s[j] == j);
    }
}

/// Filtering `0..n` keeps the numbers in ascending order.
proof fn lemma_iota_filter_ascending(n: nat, pred: spec_fn(int) -> bool)
    ensures
        forall|i: int, j: int|
            0 <= i < j < iota(n).filter(pred).len() ==> iota(n).filter(pred)[i] < iota(n).filter(
                pred,
            )[j],
    decreases n,
{
    reveal(Seq::filter);
    if n > 0 {
        let m = (n - 1) as nat;
        assert(iota(n).drop_last() =~= iota(m));
        lemma_iota_filter_ascending(m, pred);
        let f = iota(m).filter(pred);
        assert forall|i: int| 0 <= i < f.len() implies f[i] < m by {
            assert(f.contains(f[i]));
            lemma_iota_filter_member(m, pred, f[i]);
        }
    }
}

/// A layer lists its nodes in ascending order, so none twice.
pub proof fn lemma_layer_ascending(adj: Seq<Seq<bool>>, k: nat)
    ensures
        forall|i: int, j: int|
            0 <= i < j < layer(adj, k).len() ==> layer(adj, k)[i] < layer(adj, k)[j],
{
    lemma_iota_filter_ascending(
        adj.len(),
        |v: int| placed(adj, k + 1).contains(v) && !placed(adj, k).contains(v),
    );
}

/// The nodes listed as lying on a cycle are exactly those that do.
pub proof fn lemma_cycle_nodes_member(adj: Seq<Seq<bool>>, v: int)
    ensures
        cycle_nodes(adj).contains(v) <==> 0 <= v < adj.len() && on_cycle(adj, v),
{
    lemma_iota_filter_member(adj.len(), |v: int| on_cycle(adj, v), v);
}

/// What is placed within `k` layers is placed within `k + 1`, and only nodes
/// of the graph are placed.
pub proof fn lemma_placed_grows(adj: Seq<Seq<bool>>, k: nat)
    ensures
        placed(adj, k).subset_of(placed(adj, k + 1)),
        forall|v: int| placed(adj, k).contains(v) ==> 0 <= v < adj.len(),
    decreases k,
{
    if k > 0 {
        lemma_placed_grows(adj, (k - 1) as nat);
        assert forall|v: int| placed(adj, k).contains(v) implies placed(adj, k + 1).contains(v) by {
            assert forall|u: int| linked(adj, u, v) implies placed(adj, k).contains(u) by {
                assert(placed(adj, (k - 1) as nat).contains(u));
            }
        }
    }
}

/// What is placed within `i` layers is placed within any `j >= i`.
pub proof fn lemma_placed_monotone(adj: Seq<Seq<bool>>, i: nat, j: nat)
    requires
        i <= j,
    ensures
        placed(adj, i).subset_of(placed(adj, j)),
    decreases j - i,
{
    if i < j {
        lemma_placed_monotone(adj, i, (j - 1) as nat);
        lemma_placed_grows(adj, (j - 1) as nat);
    }
}

/// A node is in layer `k` exactly when it is placed by layer `k` and not
/// before.
pub proof fn lemma_layer_member(adj: Seq<Seq<bool>>, k: nat, v: int)
    ensures
        layer(adj, k).contains(v) <==> placed(adj, k + 1).contains(v) && !placed(adj, k).contains(
            v,
        ),
{
    lemma_iota_filter_member(
        adj.len(),
        |v: int| placed(adj, k + 1).contains(v) && !placed(adj, k).contains(v),
        v,
    );
    lemma_placed_grows(adj, k + 1);
}

/// A node placed within `k` layers is in one of the layers before `k`.
pub proof fn lemma_placed_in_layer(adj: Seq<Seq<bool>>, k: nat, v: int) -> (i: nat)
    requires
        placed(adj, k).contains(v),
    ensures
        i < k,
        layer(adj, i).contains(v),
    decreases k,
{
    if placed(adj, (k - 1) as nat).contains(v) {
        lemma_placed_in_layer(adj, (k - 1) as nat, v)
    } else {
        lemma_layer_member(adj, (k - 1) as nat, v);
        (k - 1) as nat
    }
}

/// An edge leads from an earlier layer to a later one.
pub proof fn lemma_edge_crosses_layers(adj: Seq<Seq<bool>>, a: int, b: int, ka: nat, kb: nat)
    requires
        linked(adj, a, b),
        layer(adj, ka).contains(a),
        layer(adj, kb).contains(b),
    ensures
        ka < kb,
{
    lemma_layer_member(adj, ka, a);
    lemma_layer_member(adj, kb, b);
    assert(placed(adj, kb).contains(a));
    if ka >= kb {
        lemma_placed_monotone(adj, kb, ka);
    }
}

/// When every node is placed within `d` layers, every node is in exactly one
/// of them.
pub proof fn lemma_layers_partition(adj: Seq<Seq<bool>>, d: nat, v: int)
    requires
        is_depth(adj, d),
        0 <= v < adj.len(),
    ensures
        exists|k: nat| k < d && #[trigger] layer(adj, k).contains(v),
        forall|i: nat, j: nat|
            #[trigger] layer(adj, i).contains(v) && #[trigger] layer(adj, j).contains(v) ==> i == j,
{
    let k = lemma_placed_in_layer(adj, d, v);
    assert(layer(adj, k).contains(v));
    assert forall|i: nat, j: nat|
        #[trigger] layer(adj, i).contains(v) && #[trigger] layer(adj, j).contains(v) implies i
        == j by {
        lemma_layer_member(adj, i, v);
        lemma_layer_member(adj, j, v);
        if i < j {
            lemma_placed_monotone(adj, i + 1, j);
        }
        if j < i {
            lemma_placed_monotone(adj, j + 1, i);
        }
    }
}

/// Read batch by batch, the first `d` layers list no node twice, and every
/// node they list is in one of them.
pub proof fn lemma_layering_distinct(adj: Seq<Seq<bool>>, d: nat)
    ensures
        layering(adj, d).flatten().no_duplicates(),
        forall|v: int|
            layering(adj, d).flatten().contains(v) ==> exists|k: nat|
                k < d && #[trigger] layer(adj, k).contains(v),
    decreases d,
{
    if d == 0 {
        assert(layering(adj, 0).flatten() =~= Seq::<int>::empty());
    } else {
        let e = (d - 1) as nat;
        lemma_layering_distinct(adj, e);
        let prev = layering(adj, e);
        let last = layer(adj, e);
        assert(layering(adj, d) =~= prev.push(last));
        prev.lemma_flatten_push(last);
        lemma_layer_ascending(adj, e);
        assert forall|i: int, j: int|
            0 <= i < prev.flatten().len() && 0 <= j < last.len() implies prev.flatten()[i]
            != last[j] by {
            let v = prev.flatten()[i];
            assert(prev.flatten().contains(v));
            if v == last[j] {
                assert(last.contains(v));
                let k = choose|k: nat| k < e && #[trigger] layer(adj, k).contains(v);
                lemma_layer_member(adj, k, v);
                lemma_layer_member(adj, e, v);
                lemma_placed_monotone(adj, k + 1, e);
            }
        }
        vstd::seq_lib::lemma_no_dup_in_concat(prev.flatten(), last);
        assert forall|v: int| layering(adj, d).flatten().contains(v) implies exists|k: nat|
            k < d && #[trigger] layer(adj, k).contains(v) by {
            let whole = prev.flatten() + last;
            let i = choose|i: int| 0 <= i < whole.len() && whole[i] == v;
            if i < prev.flatten().len() {
                assert(prev.flatten()[i] == v);
                assert(prev.flatten().contains(v));
                let k = choose|k: nat| k < e && #[trigger] layer(adj, k).contains(v);
                assert(k < d && layer(adj, k).contains(v));
            } else {
                assert(last[i - prev.flatten().len()] == v);
                assert(e < d && layer(adj, e).contains(v));
            }
        }
    }
}

/// A node on a cycle is never placed.
pub proof fn lemma_cycle_never_placed(adj: Seq<Seq<bool>>, k: nat, v: int)
    requires
        on_cycle(adj, v),
    ensures
        !placed(adj, k).contains(v),
    decreases k,
{
    if k > 0 && placed(adj, k).contains(v) {
        let p = choose|p: Seq<int>| is_walk(adj, p) && p.first() == v && p.last() == v;
        let u = p[p.len() - 2];
        assert(linked(adj, p[p.len() - 2], p[p.len() - 2 + 1]));
        let q = seq![u] + p.drop_last();
        assert forall|i: int| #![trigger q[i]] 0 <= i < q.len() - 1 implies linked(
            adj,
            q[i],
            q[i + 1],
        ) by {
            if i == 0 {
                assert(q[1] == p[0]);
            } else {
                assert(q[i] == p[i - 1]);
                assert(q[i + 1] == p[i - 1 + 1]);
                assert(linked(adj, p[i - 1], p[i - 1 + 1]));
            }
        }
        assert(is_walk(adj, q) && q.first() == u && q.last() == u);
        lemma_cycle_never_placed(adj, (k - 1) as nat, u);
    }
}

/// Follows edges backwards from `start`, `i` times, through nodes outside `p`.
spec fn back_chain(adj: Seq<Seq<bool>>, p: Set<int>, start: int, i: nat) -> int
    decreases i,
{
    if i == 0 {
        start
    } else {
        let prev = back_chain(adj, p, start, (i - 1) as nat);
        choose|u: int| linked(adj, u, prev) && !p.contains(u)
    }
}

/// Every node outside `p` has a predecessor outside `p`.
spec fn is_stuck(adj: Seq<Seq<bool>>, p: Set<int>) -> bool {
    forall|v: int|
        0 <= v < adj.len() && !p.contains(v) ==> exists|u: int|
            linked(adj, u, v) && !p.contains(u)
}

proof fn lemma_back_chain(adj: Seq<Seq<bool>>, p: Set<int>, start: int, i: nat)
    requires
        is_stuck(adj, p),
        0 <= start < adj.len(),
        !p.contains(start),
    ensures
        0 <= back_chain(adj, p, start, i) < adj.len(),
        !p.contains(back_chain(adj, p, start, i)),
        i > 0 ==> linked(
            adj,
            back_chain(adj, p, start, i),
            back_chain(adj, p, start, (i - 1) as nat),
        ),
    decreases i,
{
    if i > 0 {
        lemma_back_chain(adj, p, start, (i - 1) as nat);
    }
}

proof fn lemma_back_chain_walk(adj: Seq<Seq<bool>>, p: Set<int>, start: int, i: nat, j: nat)
    requires
        is_stuck(adj, p),
        0 <= start < adj.len(),
        !p.contains(start),
        i < j,
    ensures
        reaches(adj, back_chain(adj, p, start, j), back_chain(adj, p, start, i)),
{
    let w = Seq::new((j - i + 1) as nat, |t: int| back_chain(adj, p, start, (j - t) as nat));
    assert forall|t: int| #![trigger w[t]] 0 <= t < w.len() - 1 implies linked(
        adj,
        w[t],
        w[t + 1],
    ) by {
        lemma_back_chain(adj, p, start, (j - t) as nat);
    }
    assert(is_walk(adj, w));
    assert(w.first() == back_chain(adj, p, start, j));
    assert(w.last() == back_chain(adj, p, start, i));
}

/// In a graph without a cycle, whenever some node is outside `p`, some node
/// outside `p` has all its predecessors in `p`.
proof fn lemma_progress(adj: Seq<Seq<bool>>, p: Set<int>, start: int)
    requires
        !has_cycle(adj),
        0 <= start < adj.len(),
        !p.contains(start),
    ensures
        exists|v: int|
            0 <= v < adj.len() && !p.contains(v) && forall|u: int|
                linked(adj, u, v) ==> p.contains(u),
{
    if is_stuck(adj, p) {
        let n = adj.len();
        let s = Seq::new(n + 1, |i: int| back_chain(adj, p, start, i as nat));
        assert forall|i: int| 0 <= i < s.len() implies 0 <= #[trigger] s[i] < n by {
            lemma_back_chain(adj, p, start, i as nat);
        }
        if s.no_duplicates() {
            s.unique_seq_to_set();
            vstd::set_lib::lemma_int_range(0, n as int);
            assert(s.to_set().subset_of(vstd::set_lib::set_int_range(0, n as int))) by {
                assert forall|x: int| s.to_set().contains(x) implies vstd::set_lib::set_int_range(
                    0,
                    n as int,
                ).contains(x) by {
                    let i = choose|i: int| 0 <= i < s.len() && s[i] == x;
                    assert(0 <= s[i] < n);
                }
            }
            vstd::set_lib::lemma_len_subset(
                s.to_set(),
                vstd::set_lib::set_int_range(0, n as int),
            );
            assert(false);
        }
        let (i, j) = choose|i: int, j: int|
            0 <= i < s.len() && 0 <= j < s.len() && i != j && s[i] == s[j];
        let (lo, hi) = if i < j {
            (i, j)
        } else {
            (j, i)
        };
        lemma_back_chain_walk(adj, p, start, lo as nat, hi as nat);
        assert(s[lo] == back_chain(adj, p, start, lo as nat));
        assert(s[hi] == back_chain(adj, p, start, hi as nat));
        assert(on_cycle(adj, s[lo]));
        assert(false);
    }
}

fn filled(n: usize, value: bool) -> (r: Vec<bool>)
    ensures
        r@.len() == n,
        forall|i: int| 0 <= i < n ==> r@[i] == value,
{
    let mut r: Vec<bool> = Vec::new();
    while r.len() < n
        invariant
            r@.len() <= n,
            forall|i: int| 0 <= i < r@.len() ==> r@[i] == value,
        decreases n - r@.len(),
    {
        r.push(value);
    }
    r
}

/// A directed graph on the nodes `0..n`, held as an adjacency table.
pub struct Digraph {
    rows: Vec<Vec<bool>>,
}

impl Digraph {
    #[verifier::type_invariant]
    spec fn inv(self) -> bool {
        forall|i: int| 0 <= i < self.rows@.len() ==> (#[trigger] self.rows@[i])@.len() == self.rows@.len()
    }

    /// The adjacency table: entry `[a][b]` tells whether `a` is linked to `b`.
    pub closed spec fn view(self) -> Seq<Seq<bool>> {
        Seq::new(self.rows@.len(), |i: int| self.rows@[i]@)
    }

    /// A graph of `n` nodes and no edges.
    pub fn new(n: usize) -> (g: Self)
        ensures
            g@.len() == n,
            is_square(g@),
            forall|a: int, b: int| !linked(g@, a, b),
    {
        let mut rows: Vec<Vec<bool>> = Vec::new();
        while rows.len() < n
            invariant
                rows@.len() <= n,
                forall|i: int| 0 <= i < rows@.len() ==> (#[trigger] rows@[i])@.len() == n,
                forall|i: int, j: int|
                    0 <= i < rows@.len() && 0 <= j < n ==> !(#[trigger] rows@[i]@[j]),
            decreases n - rows@.len(),
        {
            rows.push(filled(n, false));
        }
        Digraph { rows }
    }

    /// The number of nodes.
    pub fn len(&self) -> (n: usize)
        ensures
            n == self@.len(),
            is_square(self@),
    {
        proof {
            use_type_invariant(self);
        }
        self.rows.len()
    }

    /// Adds the edge from `a` to `b`.  Returns `false`, and changes nothing,
    /// when either is not a node of the graph.
    pub fn link(&mut self, a: usize, b: usize) -> (ok: bool)
        ensures
            ok == (a < old(self)@.len() && b < old(self)@.len()),
            ok ==> final(self)@ == old(self)@.update(a as int, old(self)@[a as int].update(b as int, true)),
            !ok ==> final(self)@ == old(self)@,
            is_square(final(self)@),
    {
        proof {
            use_type_invariant(&*self);
        }
        let n = self.rows.len();
        if a < n && b < n {
            let mut rows: Vec<Vec<bool>> = Vec::new();
            core::mem::swap(&mut rows, &mut self.rows);
            let row = &mut rows[a];
            row[b] = true;
            self.rows = rows;
            assert(self@ =~= old(self)@.update(a as int, old(self)@[a as int].update(b as int, true)));
            true
        } else {
            false
        }
    }

    /// Whether the graph has the edge from `a` to `b`.
    pub fn has_link(&self, a: usize, b: usize) -> (r: bool)
        ensures
            r == linked(self@, a as int, b as int),
    {
        proof {
            use_type_invariant(self);
        }
        a < self.rows.len() && b < self.rows.len() && self.rows[a][b]
    }

    /// Marks the nodes that `v` reaches by a walk of one edge or more.
    pub fn reachable_from(&self, v: usize) -> (r: Vec<bool>)
        ensures
            r@.len() == self@.len(),
            forall|u: int| 0 <= u < r@.len() ==> r@[u] == reaches(self@, v as int, u),
            forall|u: int| reaches(self@, v as int, u) ==> 0 <= u < r@.len(),
    {
        proof {
            use_type_invariant(self);
        }
        let n = self.rows.len();
        let mut seen = filled(n, false);
        let mut work: Vec<usize> = Vec::new();
        let ghost adj = self@;
        let ghost mut paths: Seq<Seq<int>> = Seq::new(n as nat, |i: int| Seq::<int>::empty());
        if v < n {
            work.push(v);
            assert(work@[0] == v);
        }
        while work.len() > 0
            invariant
                adj == self@,
                is_square(adj),
                n == adj.len(),
                seen@.len() == n,
                paths.len() == n,
                forall|i: int|
                    0 <= i < work@.len() ==> (#[trigger] work@[i]) < n && (work@[i] == v
                        || seen@[work@[i] as int]),
                forall|u: int|
                    0 <= u < n && seen@[u] ==> is_walk(adj, #[trigger] paths[u]) && paths[u].first()
                        == v && paths[u].last() == u,
                forall|x: int, y: int|
                    0 <= x < n && (x == v || seen@[x]) && !work@.contains(x as usize) && linked(
                        adj,
                        x,
                        y,
                    ) ==> seen@[y],
            decreases 2 * count_false(seen@) + work@.len(),
        {
            let ghost before = 2 * count_false(seen@) + work@.len();
            let ghost work_before = work@;
            let x = work.pop().unwrap();
            assert(x == work_before[work_before.len() - 1]);
            assert forall|z: usize| work_before.contains(z) && z != x implies work@.contains(z) by {
                let i = choose|i: int| 0 <= i < work_before.len() && work_before[i] == z;
                assert(work@[i] == z);
            }
            let ghost seen_before = seen@;
            let mut y: usize = 0;
            while y < n
                invariant
                    adj == self@,
                    is_square(adj),
                    n == adj.len(),
                    seen@.len() == n,
                    paths.len() == n,
                    x < n,
                    y <= n,
                    x == v || seen_before[x as int],
                    forall|u: int| 0 <= u < n && seen_before[u] ==> seen@[u],
                    forall|i: int|
                        0 <= i < work@.len() ==> (#[trigger] work@[i]) < n && (work@[i] == v
                            || seen@[work@[i] as int]),
                    forall|u: int|
                        0 <= u < n && seen@[u] ==> is_walk(adj, #[trigger] paths[u])
                            && paths[u].first() == v && paths[u].last() == u,
                    forall|a: int, b: int|
                        0 <= a < n && a != x && (a == v || seen@[a]) && !work@.contains(a as usize)
                            && linked(adj, a, b) ==> seen@[b],
                    forall|b: int| 0 <= b < y && linked(adj, x as int, b) ==> seen@[b],
                    2 * count_false(seen@) + work@.len() < before,
                decreases n - y,
            {
                assert(self@[x as int] == self.rows@[x as int]@);
                if self.rows[x][y] && !seen[y] {
                    proof {
                        lemma_count_false_set(seen@, y as int);
                        if x == v {
                            lemma_edge_reaches(adj, x as int, y as int);
                            paths = paths.update(y as int, seq![x as int, y as int]);
                            assert(is_walk(adj, seq![x as int, y as int]));
                        } else {
                            lemma_walk_push(adj, paths[x as int], y as int);
                            paths = paths.update(y as int, paths[x as int].push(y as int));
                        }
                    }
                    let ghost work_mid = work@;
                    seen.set(y, true);
                    work.push(y);
                    assert forall|a: int, b: int|
                        0 <= a < n && a != x && (a == v || seen@[a]) && !work@.contains(a as usize)
                            && linked(adj, a, b) implies seen@[b] by {
                        assert(work@[work@.len() - 1] == y);
                        assert(a != y);
                        if work_mid.contains(a as usize) {
                            let i = choose|i: int| 0 <= i < work_mid.len() && work_mid[i] == a as usize;
                            assert(work@[i] == a as usize);
                        }
                    }
                }
                y += 1;
            }
        }
        proof {
            assert forall|u: int| 0 <= u < n implies seen@[u] == reaches(adj, v as int, u) by {
                if reaches(adj, v as int, u) {
                    lemma_closed_holds_reachable(adj, seen@, v as int, u);
                }
                if seen@[u] {
                    assert(is_walk(adj, paths[u]) && paths[u].first() == v && paths[u].last() == u);
                }
            }
            assert forall|u: int| reaches(adj, v as int, u) implies 0 <= u < n by {
                let p = choose|p: Seq<int>| is_walk(adj, p) && p.first() == v && p.last() == u;
                assert(linked(adj, p[p.len() - 2], p[p.len() - 2 + 1]));
                if v < n {
                    lemma_closed_holds_reachable(adj, seen@, v as int, u);
                } else {
                    assert(linked(adj, p[0], p[1]));
                }
            }
        }
        seen
    }

    /// Lists the nodes that lie on a cycle, in ascending order.
    pub fn cycle_members(&self) -> (r: Vec<usize>)
        ensures
            as_ints(r@) == cycle_nodes(self@),
            (r@.len() > 0) == has_cycle(self@),
            forall|i: int| 0 <= i < r@.len() ==> (#[trigger] r@[i]) < self@.len(),
    {
        let n = self.rows.len();
        let ghost adj = self@;
        let ghost pred = |v: int| on_cycle(adj, v);
        let mut r: Vec<usize> = Vec::new();
        let mut v: usize = 0;
        assert(iota(n as nat).take(0).filter(pred) =~= Seq::<int>::empty()) by {
            reveal(Seq::filter);
        }
        while v < n
            invariant
                adj == self@,
                n == adj.len(),
                v <= n,
                pred == |v: int| on_cycle(adj, v),
                as_ints(r@) =~= iota(n as nat).take(v as int).filter(pred),
                forall|i: int| 0 <= i < r@.len() ==> (#[trigger] r@[i]) < n,
            decreases n - v,
        {
            let row = self.reachable_from(v);
            proof {
                lemma_iota_filter_step(n as nat, v as nat, pred);
            }
            if row[v] {
                r.push(v);
            }
            v += 1;
        }
        proof {
            assert(iota(n as nat).take(n as int) =~= iota(n as nat));
            if r@.len() > 0 {
                assert(as_ints(r@)[0] == r@[0]);
                assert(cycle_nodes(adj).contains(as_ints(r@)[0]));
                lemma_iota_filter_member(n as nat, pred, r@[0] as int);
            }
            if has_cycle(adj) {
                let w = choose|w: int| 0 <= w < adj.len() && on_cycle(adj, w);
                lemma_iota_filter_member(n as nat, pred, w);
            }
        }
        r
    }

    fn predecessors_placed(&self, v: usize, done: &Vec<bool>) -> (r: bool)
        requires
            v < self@.len(),
            done@.len() == self@.len(),
        ensures
            r == forall|u: int| linked(self@, u, v as int) ==> done@[u],
    {
        proof {
            use_type_invariant(self);
        }
        let n = self.rows.len();
        let mut u: usize = 0;
        while u < n
            invariant
                n == self@.len(),
                is_square(self@),
                done@.len() == n,
                v < n,
                u <= n,
                forall|w: int| 0 <= w < u && linked(self@, w, v as int) ==> done@[w],
            decreases n - u,
        {
            assert(self@[u as int] == self.rows@[u as int]@);
            if self.rows[u][v] && !done[u] {
                assert(linked(self@, u as int, v as int));
                return false;
            }
            u += 1;
        }
        true
    }

    /// Sorts the nodes into layers: each node goes into the layer after the
    /// last of its predecessors, and a layer lists its nodes in ascending
    /// order.  There is no such layering exactly when the graph has a cycle.
    pub fn layers(&self) -> (r: Option<Vec<Vec<usize>>>)
        ensures
            match r {
                Some(l) => {
                    &&& !has_cycle(self@)
                    &&& is_depth(self@, l@.len())
                    &&& nested_ints(l@) == layering(self@, l@.len())
                    &&& l@.len() <= self@.len()
                    &&& nested_ints(l@).flatten().len() == self@.len()
                },
                None => has_cycle(self@),
            },
    {
        proof {
            use_type_invariant(self);
        }
        let n = self.rows.len();
        let ghost adj = self@;
        let mut done = filled(n, false);
        let mut remaining: usize = n;
        let mut out: Vec<Vec<usize>> = Vec::new();
        proof {
            lemma_count_false_bounds(done@);
            assert(nested_ints(out@) =~= Seq::<Seq<int>>::empty());
        }
        while remaining > 0
            invariant
                adj == self@,
                is_square(adj),
                n == adj.len(),
                done@.len() == n,
                remaining == count_false(done@),
                out@.len() + remaining <= n,
                nested_ints(out@).flatten().len() + remaining == n,
                forall|v: int| 0 <= v < n ==> done@[v] == placed(adj, out@.len()).contains(v),
                forall|k: int|
                    0 <= k < out@.len() ==> as_ints(#[trigger] out@[k]@) == layer(adj, k as nat),
                forall|k: nat| k < out@.len() ==> #[trigger] layer(adj, k).len() > 0,
            decreases remaining,
        {
            let ghost k = out@.len();
            let ghost pred = |v: int| placed(adj, k + 1).contains(v) && !placed(adj, k).contains(v);
            let mut batch: Vec<usize> = Vec::new();
            let mut v: usize = 0;
            assert(iota(n as nat).take(0).filter(pred) =~= Seq::<int>::empty()) by {
                reveal(Seq::filter);
            }
            while v < n
                invariant
                    adj == self@,
                    n == adj.len(),
                    done@.len() == n,
                    v <= n,
                    k == out@.len(),
                    pred == |v: int|
                        placed(adj, k + 1).contains(v) && !placed(adj, k).contains(v),
                    forall|w: int| 0 <= w < n ==> done@[w] == placed(adj, k).contains(w),
                    as_ints(batch@) =~= iota(n as nat).take(v as int).filter(pred),
                    forall|i: int| 0 <= i < batch@.len() ==> (#[trigger] batch@[i]) < v,
                    forall|i: int, j: int| 0 <= i < j < batch@.len() ==> batch@[i] < batch@[j],
                decreases n - v,
            {
                proof {
                    lemma_iota_filter_step(n as nat, v as nat, pred);
                }
                if !done[v] && self.predecessors_placed(v, &done) {
                    assert(placed(adj, k + 1).contains(v as int)) by {
                        assert forall|u: int| linked(adj, u, v as int) implies placed(
                            adj,
                            k,
                        ).contains(u) by {
                            assert(done@[u]);
                        }
                    }
                    assert(pred(v as int));
                    batch.push(v);
                } else {
                    assert(!pred(v as int)) by {
                        if !done@[v as int] {
                            let u = choose|u: int| linked(adj, u, v as int) && !done@[u];
                            assert(!placed(adj, k).contains(u));
                        }
                    }
                }
                v += 1;
            }
            proof {
                assert(iota(n as nat).take(n as int) =~= iota(n as nat));
                assert(as_ints(batch@) == layer(adj, k));
                lemma_count_false_bounds(done@);
                if has_cycle(adj) {
                } else {
                    let start = choose|i: int| 0 <= i < n && !done@[i];
                    lemma_progress(adj, placed(adj, k), start);
                    let w = choose|w: int|
                        0 <= w < adj.len() && !placed(adj, k).contains(w) && forall|u: int|
                            linked(adj, u, w) ==> placed(adj, k).contains(u);
                    assert(placed(adj, k + 1).contains(w));
                    lemma_layer_member(adj, k, w);
                }
            }
            if batch.len() == 0 {
                return None;
            }
            let ghost remaining_before = remaining;
            let mut j: usize = 0;
            while j < batch.len()
                invariant
                    n == adj.len(),
                    remaining + j == remaining_before,
                    done@.len() == n,
                    j <= batch@.len(),
                    batch@.len() > 0,
                    k == out@.len(),
                    as_ints(batch@) == layer(adj, k),
                    forall|i: int| 0 <= i < batch@.len() ==> (#[trigger] batch@[i]) < n,
                    forall|i: int, j: int| 0 <= i < j < batch@.len() ==> batch@[i] < batch@[j],
                    remaining == count_false(done@),
                    out@.len() + remaining + j <= n,
                    remaining + j > 0,
                    forall|v: int|
                        0 <= v < n ==> done@[v] == (placed(adj, k).contains(v) || exists|i: int|
                            0 <= i < j && batch@[i] == v),
                decreases batch@.len() - j,
            {
                let b = batch[j];
                proof {
                    assert(as_ints(batch@)[j as int] == b);
                    assert(layer(adj, k).contains(b as int));
                    lemma_layer_member(adj, k, b as int);
                    assert(!done@[b as int]);
                    lemma_count_false_set(done@, b as int);
                }
                let ghost done_before = done@;
                done.set(b, true);
                remaining = remaining - 1;
                assert forall|v: int| 0 <= v < n implies done@[v] == (placed(adj, k).contains(v)
                    || exists|i: int| 0 <= i < j + 1 && batch@[i] == v) by {
                    if v == b {
                        assert(batch@[j as int] == v);
                    } else if done_before[v] && !placed(adj, k).contains(v) {
                        let i = choose|i: int| 0 <= i < j && batch@[i] == v;
                        assert(0 <= i < j + 1 && batch@[i] == v);
                    }
                }
                j += 1;
            }
            proof {
                lemma_placed_grows(adj, k);
                assert forall|v: int| 0 <= v < n implies done@[v] == placed(adj, k + 1).contains(
                    v,
                ) by {
                    lemma_layer_member(adj, k, v);
                    if layer(adj, k).contains(v) {
                        let i = choose|i: int|
                            0 <= i < as_ints(batch@).len() && as_ints(batch@)[i] == v;
                        assert(batch@[i] == v);
                    }
                    if exists|i: int| 0 <= i < batch@.len() && batch@[i] == v {
                        let i = choose|i: int| 0 <= i < batch@.len() && batch@[i] == v;
                        assert(as_ints(batch@)[i] == v);
                    }
                }
            }
            proof {
                assert(nested_ints(out@.push(batch)) =~= nested_ints(out@).push(as_ints(batch@)));
                nested_ints(out@).lemma_flatten_push(as_ints(batch@));
            }
            out.push(batch);
        }
        proof {
            lemma_count_false_bounds(done@);
            assert(nested_ints(out@) =~= layering(adj, out@.len()));
            assert forall|v: int| 0 <= v < adj.len() implies placed(adj, out@.len()).contains(
                v,
            ) by {
                assert(done@[v]);
            }
            if has_cycle(adj) {
                let w = choose|w: int| 0 <= w < adj.len() && on_cycle(adj, w);
                lemma_cycle_never_placed(adj, out@.len(), w);
                assert(done@[w]);
                assert(false);
            }
        }
        Some(out)
    }
}

} // verus!
