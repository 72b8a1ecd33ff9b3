//! Dependencies between steps as a graph: node `i` has an edge to each node that it depends on.
use vstd::prelude::*;

verus! {

/// A graph: the targets of the edges of each node.
pub type Edges = Seq<Seq<int>>;

/// Indices as integers.
pub open spec fn ints(s: Seq<usize>) -> Seq<int> {
    s.map_values(|x: usize| x as int)
}

/// The graph that adjacency lists stand for.
pub open spec fn edges_of(g: Seq<Vec<usize>>) -> Edges {
    g.map_values(|v: Vec<usize>| ints(v@))
}

/// Whether every edge leads to a node.
pub open spec fn valid(g: Edges) -> bool {
    forall|i: int, k: int| 0 <= i < g.len() && 0 <= k < g[i].len() ==> 0 <= #[trigger] g[i][k] < g.len()
}

// ---- paths -----------------------------------------------------------------------------

/// Whether `p` follows edges from `a` to `b`.
pub open spec fn is_path(g: Edges, p: Seq<int>, a: int, b: int) -> bool {
    &&& p.len() > 0
    &&& p[0] == a
    &&& p.last() == b
    &&& forall|k: int| 0 <= k < p.len() ==> 0 <= #[trigger] p[k] < g.len()
    &&& forall|k: int| 0 <= k < p.len() - 1 ==> g[#[trigger] p[k]].contains(p[k + 1])
}

/// Whether edges lead from `a` to `b`, in any number of steps.
pub open spec fn reaches(g: Edges, a: int, b: int) -> bool {
    exists|p: Seq<int>| is_path(g, p, a, b)
}

/// A node reaches itself.
pub proof fn lemma_reaches_self(g: Edges, a: int)
    requires
        0 <= a < g.len(),
    ensures
        reaches(g, a, a),
{
    assert(is_path(g, seq![a], a, a));
}

/// What is reached can be followed by an edge.
pub proof fn lemma_reaches_step(g: Edges, a: int, b: int, c: int)
    requires
        reaches(g, a, b),
        0 <= b < g.len(),
        0 <= c < g.len(),
        g[b].contains(c),
    ensures
        reaches(g, a, c),
{
    let p = choose|p: Seq<int>| is_path(g, p, a, b);
    let q = p.push(c);
    assert forall|k: int| 0 <= k < q.len() - 1 implies g[#[trigger] q[k]].contains(q[k + 1]) by {
        if k < p.len() - 1 {
            assert(q[k] == p[k] && q[k + 1] == p[k + 1]);
        } else {
            assert(q[k] == b && q[k + 1] == c);
        }
    }
    assert(is_path(g, q, a, c));
}

// ---- order -----------------------------------------------------------------------------

/// How many entries are false.
pub open spec fn free(seen: Seq<bool>) -> nat
    decreases seen.len(),
{
    if seen.len() == 0 {
        0
    } else {
        free(seen.drop_last()) + (if seen.last() {
            0nat
        } else {
            1nat
        })
    }
}

proof fn lemma_free_update(seen: Seq<bool>, i: int)
    requires
        0 <= i < seen.len(),
        !seen[i],
    ensures
        free(seen.update(i, true)) + 1 == free(seen),
    decreases seen.len(),
{
    let t = seen.update(i, true);
    if i == seen.len() - 1 {
        assert(t.drop_last() =~= seen.drop_last());
    } else {
        assert(t.drop_last() =~= seen.drop_last().update(i, true));
        lemma_free_update(seen.drop_last(), i);
    }
}

/// Visits a node that was not seen: first what it depends on, then the node itself is listed.
pub open spec fn visited(g: Edges, seen: Seq<bool>, out: Seq<int>, i: int) -> (Seq<bool>, Seq<int>)
    decreases free(seen), 0nat,
    via visited_decreases
{
    if i < 0 || i >= seen.len() || seen[i] {
        (seen, out)
    } else {
        let (s, o) = visited_all(g, seen.update(i, true), out, g[i]);
        (s, o.push(i))
    }
}

/// Visits nodes one after the other.
pub open spec fn visited_all(g: Edges, seen: Seq<bool>, out: Seq<int>, ds: Seq<int>) -> (
    Seq<bool>,
    Seq<int>,
)
    decreases free(seen), ds.len(),
    via visited_all_decreases
{
    if ds.len() == 0 {
        (seen, out)
    } else {
        let (s, o) = visited(g, seen, out, ds[0]);
        if free(s) <= free(seen) {
            visited_all(g, s, o, ds.drop_first())
        } else {
            (s, o)
        }
    }
}

#[via_fn]
proof fn visited_decreases(g: Edges, seen: Seq<bool>, out: Seq<int>, i: int) {
    if 0 <= i < seen.len() && !seen[i] {
        lemma_free_update(seen, i);
    }
}

#[via_fn]
proof fn visited_all_decreases(g: Edges, seen: Seq<bool>, out: Seq<int>, ds: Seq<int>) {
}

/// Visiting only ever adds: to what was seen and to what is listed.
proof fn lemma_visited_grows(g: Edges, seen: Seq<bool>, out: Seq<int>, i: int)
    ensures
        ({
            let (s, o) = visited(g, seen, out, i);
            &&& s.len() == seen.len()
            &&& free(s) <= free(seen)
            &&& forall|j: int| 0 <= j < seen.len() && seen[j] ==> #[trigger] s[j]
        }),
    decreases free(seen), 0nat,
{
    if 0 <= i < seen.len() && !seen[i] {
        lemma_free_update(seen, i);
        lemma_visited_all_grows(g, seen.update(i, true), out, g[i]);
    }
}

proof fn lemma_visited_all_grows(g: Edges, seen: Seq<bool>, out: Seq<int>, ds: Seq<int>)
    ensures
        ({
            let (s, o) = visited_all(g, seen, out, ds);
            &&& s.len() == seen.len()
            &&& free(s) <= free(seen)
            &&& forall|j: int| 0 <= j < seen.len() && seen[j] ==> #[trigger] s[j]
        }),
    decreases free(seen), ds.len(),
{
    if ds.len() > 0 {
        let (s, o) = visited(g, seen, out, ds[0]);
        lemma_visited_grows(g, seen, out, ds[0]);
        lemma_visited_all_grows(g, s, o, ds.drop_first());
    }
}

/// The nodes `0..n` in turn.
pub open spec fn all_nodes(n: nat) -> Seq<int> {
    Seq::new(n, |i: int| i)
}

/// Nothing seen among `n` nodes.
pub open spec fn none_seen(n: nat) -> Seq<bool> {
    Seq::new(n, |i: int| false)
}

/// The nodes in an order in which each can be taken after what it depends on: depth first, in
/// the order of the nodes and of their edges.
pub open spec fn order(g: Edges) -> Seq<int> {
    visited_all(g, none_seen(g.len()), seq![], all_nodes(g.len())).1
}

/// Whether a node was seen but is not listed yet.
pub open spec fn pending(seen: Seq<bool>, out: Seq<int>, j: int) -> bool {
    0 <= j < seen.len() && seen[j] && !out.contains(j)
}

/// Whether the listed nodes were seen and are listed once.
pub open spec fn listed(g: Edges, seen: Seq<bool>, out: Seq<int>) -> bool {
    &&& seen.len() == g.len()
    &&& out.no_duplicates()
    &&& forall|k: int| 0 <= k < out.len() ==> 0 <= #[trigger] out[k] < g.len() && seen[out[k]]
}

/// Whether each listed node comes after what it depends on, unless that leads back to it.
pub open spec fn in_order(g: Edges, out: Seq<int>) -> bool {
    forall|p: int, k: int|
        0 <= p < out.len() && 0 <= k < g[out[p]].len() ==> out.take(p).contains(
            #[trigger] g[out[p]][k],
        ) || reaches(g, g[out[p]][k], out[p])
}

proof fn lemma_in_order_push(g: Edges, out: Seq<int>, i: int)
    requires
        in_order(g, out),
        forall|k: int|
            0 <= k < g[i].len() ==> out.contains(#[trigger] g[i][k]) || reaches(g, g[i][k], i),
    ensures
        in_order(g, out.push(i)),
{
    let o = out.push(i);
    assert forall|p: int, k: int| 0 <= p < o.len() && 0 <= k < g[o[p]].len() implies o.take(
        p,
    ).contains(#[trigger] g[o[p]][k]) || reaches(g, g[o[p]][k], o[p]) by {
        assert(o.take(p) =~= out.take(p));
        if p == out.len() {
            assert(out.take(p) =~= out);
        } else {
            assert(o[p] == out[p]);
            assert(out.take(p).contains(g[out[p]][k]) || reaches(g, g[out[p]][k], out[p]));
        }
    }
}

proof fn lemma_visited(g: Edges, seen: Seq<bool>, out: Seq<int>, i: int)
    requires
        valid(g),
        listed(g, seen, out),
        in_order(g, out),
        0 <= i < g.len(),
        forall|j: int| #[trigger] pending(seen, out, j) ==> reaches(g, j, i),
    ensures
        ({
            let (s, o) = visited(g, seen, out, i);
            &&& listed(g, s, o)
            &&& in_order(g, o)
            &&& s[i]
            &&& forall|j: int| #[trigger] pending(s, o, j) <==> pending(seen, out, j)
        }),
    decreases free(seen), 0nat,
{
    if !seen[i] {
        let seen1 = seen.update(i, true);
        lemma_free_update(seen, i);
        assert forall|j: int, k: int|
            #[trigger] pending(seen1, out, j) && 0 <= k < g[i].len() implies reaches(
            g,
            j,
            #[trigger] g[i][k],
        ) by {
            if j == i {
                lemma_reaches_self(g, i);
            } else {
                assert(pending(seen, out, j));
            }
            assert(g[i].contains(g[i][k]));
            lemma_reaches_step(g, j, i, g[i][k]);
        }
        assert(!out.contains(i)) by {
            if out.contains(i) {
                let k = choose|k: int| 0 <= k < out.len() && out[k] == i;
                assert(seen[out[k]]);
            }
        }
        lemma_visited_all(g, seen1, out, g[i]);
        lemma_visited_all_grows(g, seen1, out, g[i]);
        let (s, o) = visited_all(g, seen1, out, g[i]);
        assert(pending(seen1, out, i));
        assert(pending(s, o, i));
        assert forall|k: int| 0 <= k < g[i].len() implies o.contains(#[trigger] g[i][k]) || reaches(
            g,
            g[i][k],
            i,
        ) by {
            let d = g[i][k];
            if !o.contains(d) {
                assert(pending(s, o, d));
                assert(pending(seen1, out, d));
                if d == i {
                    lemma_reaches_self(g, i);
                } else {
                    assert(pending(seen, out, d));
                }
            }
        }
        lemma_in_order_push(g, o, i);
        let o2 = o.push(i);
        assert(o2.no_duplicates()) by {
            assert forall|a: int, b: int|
                0 <= a < o2.len() && 0 <= b < o2.len() && a != b implies o2[a] != o2[b] by {
                if a == o.len() {
                    assert(o.contains(o[b]));
                } else if b == o.len() {
                    assert(o.contains(o[a]));
                }
            }
        }
        assert forall|j: int| #[trigger] pending(s, o2, j) <==> pending(seen, out, j) by {
            assert(o2.contains(j) <==> o.contains(j) || j == i) by {
                if o.contains(j) {
                    let k = choose|k: int| 0 <= k < o.len() && o[k] == j;
                    assert(o2[k] == j);
                }
                assert(o2[o.len() as int] == i);
                if o2.contains(j) {
                    let k = choose|k: int| 0 <= k < o2.len() && o2[k] == j;
                    if k < o.len() {
                        assert(o[k] == j);
                    }
                }
            }
            assert(pending(s, o, j) <==> pending(seen1, out, j));
        }
    }
}

proof fn lemma_visited_all(g: Edges, seen: Seq<bool>, out: Seq<int>, ds: Seq<int>)
    requires
        valid(g),
        listed(g, seen, out),
        in_order(g, out),
        forall|k: int| 0 <= k < ds.len() ==> 0 <= #[trigger] ds[k] < g.len(),
        forall|j: int, k: int|
            #[trigger] pending(seen, out, j) && 0 <= k < ds.len() ==> reaches(
                g,
                j,
                #[trigger] ds[k],
            ),
    ensures
        ({
            let (s, o) = visited_all(g, seen, out, ds);
            &&& listed(g, s, o)
            &&& in_order(g, o)
            &&& forall|k: int| 0 <= k < ds.len() ==> s[#[trigger] ds[k]]
            &&& forall|j: int| #[trigger] pending(s, o, j) <==> pending(seen, out, j)
        }),
    decreases free(seen), ds.len(),
{
    if ds.len() > 0 {
        assert forall|j: int| #[trigger] pending(seen, out, j) implies reaches(g, j, ds[0]) by {}
        let (s, o) = visited(g, seen, out, ds[0]);
        lemma_visited(g, seen, out, ds[0]);
        lemma_visited_grows(g, seen, out, ds[0]);
        let rest = ds.drop_first();
        assert forall|j: int, k: int|
            #[trigger] pending(s, o, j) && 0 <= k < rest.len() implies reaches(
            g,
            j,
            #[trigger] rest[k],
        ) by {
            assert(pending(seen, out, j));
            assert(rest[k] == ds[k + 1]);
        }
        lemma_visited_all(g, s, o, rest);
        lemma_visited_all_grows(g, s, o, rest);
        let (s2, o2) = visited_all(g, s, o, rest);
        assert forall|k: int| 0 <= k < ds.len() implies s2[#[trigger] ds[k]] by {
            if k > 0 {
                assert(rest[k - 1] == ds[k]);
            }
        }
        assert forall|j: int| #[trigger] pending(s2, o2, j) <==> pending(seen, out, j) by {
            assert(pending(s, o, j) <==> pending(seen, out, j));
        }
    }
}

/// The order lists every node once, and each node after what it depends on, unless that leads
/// back to the node. So where nothing depends on itself, dependencies always come first.
pub proof fn law_order(g: Edges)
    requires
        valid(g),
    ensures
        order(g).len() == g.len(),
        order(g).no_duplicates(),
        forall|i: int| 0 <= i < g.len() ==> #[trigger] order(g).contains(i),
        forall|k: int| 0 <= k < order(g).len() ==> 0 <= #[trigger] order(g)[k] < g.len(),
        in_order(g, order(g)),
{
    let n = g.len();
    let seen = none_seen(n);
    let none = Seq::<int>::empty();
    assert(in_order(g, none));
    lemma_visited_all(g, seen, none, all_nodes(n));
    let (s, o) = visited_all(g, seen, none, all_nodes(n));
    assert forall|i: int| 0 <= i < n implies #[trigger] o.contains(i) by {
        assert(all_nodes(n)[i] == i);
        assert(s[i]);
        assert(!pending(seen, none, i));
        assert(!pending(s, o, i));
    }
    lemma_distinct_cover(o, n);
}

/// Distinct numbers below `n` that take in all of them are `n` many.
proof fn lemma_distinct_cover(o: Seq<int>, n: nat)
    requires
        o.no_duplicates(),
        forall|k: int| 0 <= k < o.len() ==> 0 <= #[trigger] o[k] < n,
        forall|i: int| 0 <= i < n ==> #[trigger] o.contains(i),
    ensures
        o.len() == n,
    decreases n,
{
    if n == 0 {
        if o.len() > 0 {
            assert(0 <= o[0] < n);
        }
    } else {
        assert(o.contains(n - 1));
        let k = choose|k: int| 0 <= k < o.len() && o[k] == n - 1;
        let r = o.remove(k);
        assert(r.no_duplicates());
        assert forall|m: int| 0 <= m < r.len() implies 0 <= #[trigger] r[m] < n - 1 by {
            let m2 = if m < k {
                m
            } else {
                m + 1
            };
            assert(r[m] == o[m2]);
            assert(o[m2] != o[k]);
        }
        assert forall|i: int| 0 <= i < n - 1 implies #[trigger] r.contains(i) by {
            assert(o.contains(i));
            let m = choose|m: int| 0 <= m < o.len() && o[m] == i;
            assert(m != k);
            let m2 = if m < k {
                m
            } else {
                m - 1
            };
            assert(r[m2] == i);
        }
        lemma_distinct_cover(r, (n - 1) as nat);
    }
}

fn visit(g: &Vec<Vec<usize>>, i: usize, seen: &mut Vec<bool>, out: &mut Vec<usize>)
    requires
        valid(edges_of(g@)),
        old(seen)@.len() == g@.len(),
        i < g@.len(),
    ensures
        (final(seen)@, ints(final(out)@)) == visited(
            edges_of(g@),
            old(seen)@,
            ints(old(out)@),
            i as int,
        ),
        final(seen)@.len() == g@.len(),
    decreases free(old(seen)@),
{
    let ghost e = edges_of(g@);
    if seen[i] {
        return ;
    }
    let ghost seen0 = seen@;
    let ghost out0 = ints(out@);
    proof {
        lemma_free_update(seen0, i as int);
        lemma_visited_grows(e, seen0, out0, i as int);
    }
    seen.set(i, true);
    let ghost seen1 = seen@;
    let mut k: usize = 0;
    assert(e[i as int] =~= ints(g@[i as int]@));
    assert(e[i as int].skip(0) =~= e[i as int]);
    while k < g[i].len()
        invariant
            e == edges_of(g@),
            valid(e),
            i < g@.len(),
            k <= g@[i as int]@.len(),
            seen@.len() == g@.len(),
            free(seen@) < free(seen0),
            free(seen0) == free(old(seen)@),
            e[i as int] == ints(g@[i as int]@),
            visited_all(e, seen@, ints(out@), e[i as int].skip(k as int)) == visited_all(
                e,
                seen1,
                out0,
                e[i as int],
            ),
        decreases g@[i as int]@.len() - k,
    {
        let d: usize = g[i][k];
        proof {
            assert(e[i as int][k as int] == d as int);
            assert(e[i as int].skip(k as int)[0] == d as int);
            assert(e[i as int].skip(k as int).drop_first() =~= e[i as int].skip(k + 1));
            lemma_visited_grows(e, seen@, ints(out@), d as int);
        }
        visit(g, d, seen, out);
        k = k + 1;
    }
    assert(e[i as int].skip(k as int) =~= seq![]);
    let ghost before = out@;
    out.push(i);
    assert(ints(out@) =~= ints(before).push(i as int));
}

/// The nodes in an order in which each can be taken after what it depends on.
pub fn topological(g: &Vec<Vec<usize>>) -> (r: Vec<usize>)
    requires
        valid(edges_of(g@)),
    ensures
        ints(r@) == order(edges_of(g@)),
{
    let ghost e = edges_of(g@);
    let mut seen: Vec<bool> = Vec::new();
    let mut i: usize = 0;
    while i < g.len()
        invariant
            i <= g@.len(),
            seen@ == none_seen(i as nat),
        decreases g@.len() - i,
    {
        seen.push(false);
        i = i + 1;
        assert(seen@ =~= none_seen(i as nat));
    }
    let mut out: Vec<usize> = Vec::new();
    let ghost all = all_nodes(e.len());
    let mut k: usize = 0;
    assert(all.skip(0) =~= all);
    assert(ints(out@) =~= seq![]);
    while k < g.len()
        invariant
            k <= g@.len(),
            e == edges_of(g@),
            valid(e),
            seen@.len() == g@.len(),
            all == all_nodes(e.len()),
            visited_all(e, seen@, ints(out@), all.skip(k as int)) == visited_all(
                e,
                none_seen(e.len()),
                seq![],
                all,
            ),
        decreases g@.len() - k,
    {
        proof {
            assert(all.skip(k as int)[0] == k as int);
            assert(all.skip(k as int).drop_first() =~= all.skip(k + 1));
            lemma_visited_grows(e, seen@, ints(out@), k as int);
        }
        visit(g, k, &mut seen, &mut out);
        k = k + 1;
    }
    assert(all.skip(k as int) =~= seq![]);
    out
}

// ---- closure ---------------------------------------------------------------------------

/// Whether a node is reached from one of the roots.
pub open spec fn reachable(g: Edges, roots: Seq<int>, j: int) -> bool {
    exists|k: int| 0 <= k < roots.len() && reaches(g, #[trigger] roots[k], j)
}

/// What is closed under edges and holds the beginning of a path holds its end.
proof fn lemma_closed(g: Edges, keep: Seq<bool>, p: Seq<int>, a: int, b: int)
    requires
        valid(g),
        keep.len() == g.len(),
        is_path(g, p, a, b),
        keep[a],
        forall|i: int, k: int|
            0 <= i < g.len() && keep[i] && 0 <= k < g[i].len() ==> keep[#[trigger] g[i][k]],
    ensures
        keep[b],
    decreases p.len(),
{
    if p.len() > 1 {
        let q = p.drop_first();
        assert(g[p[0]].contains(p[1]));
        let k = choose|k: int| 0 <= k < g[p[0]].len() && g[p[0]][k] == p[1];
        assert(keep[g[p[0]][k]]);
        assert(is_path(g, q, p[1], b)) by {
            assert forall|m: int| 0 <= m < q.len() implies 0 <= #[trigger] q[m] < g.len() by {
                assert(q[m] == p[m + 1]);
            }
            assert forall|m: int| 0 <= m < q.len() - 1 implies g[#[trigger] q[m]].contains(
                q[m + 1],
            ) by {
                assert(q[m] == p[m + 1]);
            }
        }
        lemma_closed(g, keep, q, p[1], b);
    }
}

/// Whether what the listed nodes depend on was seen.
spec fn deps_seen(g: Edges, seen: Seq<bool>, out: Seq<int>) -> bool {
    forall|p: int, k: int|
        0 <= p < out.len() && 0 <= k < g[out[p]].len() ==> seen[#[trigger] g[out[p]][k]]
}

proof fn lemma_visited_deps(g: Edges, seen: Seq<bool>, out: Seq<int>, i: int)
    requires
        valid(g),
        seen.len() == g.len(),
        forall|k: int| 0 <= k < out.len() ==> 0 <= #[trigger] out[k] < g.len() && seen[out[k]],
        deps_seen(g, seen, out),
        0 <= i < g.len(),
    ensures
        ({
            let (s, o) = visited(g, seen, out, i);
            &&& deps_seen(g, s, o)
            &&& s[i]
            &&& forall|j: int| 0 <= j < g.len() && #[trigger] s[j] && !seen[j] ==> reaches(g, i, j)
            &&& forall|k: int| 0 <= k < o.len() ==> 0 <= #[trigger] o[k] < g.len() && s[o[k]]
        }),
    decreases free(seen), 0nat,
{
    if !seen[i] {
        let seen1 = seen.update(i, true);
        lemma_free_update(seen, i);
        assert(deps_seen(g, seen1, out));
        lemma_visited_all_deps(g, seen1, out, g[i]);
        lemma_visited_all_grows(g, seen1, out, g[i]);
        let (s, o) = visited_all(g, seen1, out, g[i]);
        let o2 = o.push(i);
        assert(deps_seen(g, s, o2)) by {
            assert forall|p: int, k: int|
                0 <= p < o2.len() && 0 <= k < g[o2[p]].len() implies s[#[trigger] g[o2[p]][k]] by {
                if p < o.len() {
                    assert(o2[p] == o[p]);
                    assert(s[g[o[p]][k]]);
                } else {
                    assert(s[g[i][k]]);
                }
            }
        }
        assert(seen1[i]);
        assert forall|j: int| 0 <= j < g.len() && #[trigger] s[j] && !seen[j] implies reaches(
            g,
            i,
            j,
        ) by {
            lemma_reaches_self(g, i);
            if j != i {
                assert(!seen1[j]);
                let k = choose|k: int| 0 <= k < g[i].len() && reaches(g, #[trigger] g[i][k], j);
                lemma_reaches_front(g, i, g[i][k], j);
            }
        }
    }
}

/// An edge can be followed by what is reached from its end.
proof fn lemma_reaches_front(g: Edges, a: int, b: int, c: int)
    requires
        0 <= a < g.len(),
        g[a].contains(b),
        reaches(g, b, c),
    ensures
        reaches(g, a, c),
{
    let p = choose|p: Seq<int>| is_path(g, p, b, c);
    let q = seq![a] + p;
    assert forall|k: int| 0 <= k < q.len() implies 0 <= #[trigger] q[k] < g.len() by {
        if k > 0 {
            assert(q[k] == p[k - 1]);
        }
    }
    assert forall|k: int| 0 <= k < q.len() - 1 implies g[#[trigger] q[k]].contains(q[k + 1]) by {
        assert(q[k + 1] == p[k]);
        if k > 0 {
            assert(q[k] == p[k - 1]);
            assert(g[p[k - 1]].contains(p[k - 1 + 1]));
        }
    }
    assert(is_path(g, q, a, c));
}

proof fn lemma_visited_all_deps(g: Edges, seen: Seq<bool>, out: Seq<int>, ds: Seq<int>)
    requires
        valid(g),
        seen.len() == g.len(),
        forall|k: int| 0 <= k < out.len() ==> 0 <= #[trigger] out[k] < g.len() && seen[out[k]],
        deps_seen(g, seen, out),
        forall|k: int| 0 <= k < ds.len() ==> 0 <= #[trigger] ds[k] < g.len(),
    ensures
        ({
            let (s, o) = visited_all(g, seen, out, ds);
            &&& deps_seen(g, s, o)
            &&& forall|k: int| 0 <= k < ds.len() ==> s[#[trigger] ds[k]]
            &&& forall|j: int|
                0 <= j < g.len() && #[trigger] s[j] && !seen[j] ==> exists|k: int|
                    0 <= k < ds.len() && reaches(g, #[trigger] ds[k], j)
            &&& forall|k: int| 0 <= k < o.len() ==> 0 <= #[trigger] o[k] < g.len() && s[o[k]]
        }),
    decreases free(seen), ds.len(),
{
    if ds.len() > 0 {
        let (s, o) = visited(g, seen, out, ds[0]);
        let rest = ds.drop_first();
        lemma_visited_deps(g, seen, out, ds[0]);
        lemma_visited_grows(g, seen, out, ds[0]);
        assert forall|k: int| 0 <= k < rest.len() implies 0 <= #[trigger] rest[k] < g.len() by {
            assert(rest[k] == ds[k + 1]);
        }
        lemma_visited_all_deps(g, s, o, rest);
        lemma_visited_all_grows(g, s, o, rest);
        let (s2, o2) = visited_all(g, s, o, rest);
        assert forall|k: int| 0 <= k < ds.len() implies s2[#[trigger] ds[k]] by {
            if k > 0 {
                assert(rest[k - 1] == ds[k]);
            }
        }
        assert forall|j: int| 0 <= j < g.len() && #[trigger] s2[j] && !seen[j] implies exists|k: int|
            0 <= k < ds.len() && reaches(g, #[trigger] ds[k], j) by {
            if s[j] {
                assert(reaches(g, ds[0], j));
            } else {
                let k = choose|k: int| 0 <= k < rest.len() && reaches(g, #[trigger] rest[k], j);
                assert(ds[k + 1] == rest[k]);
            }
        }
    }
}

/// The nodes seen from the roots are those that are reached.
proof fn lemma_closure(g: Edges, roots: Seq<int>)
    requires
        valid(g),
        forall|k: int| 0 <= k < roots.len() ==> 0 <= #[trigger] roots[k] < g.len(),
    ensures
        ({
            let s = visited_all(g, none_seen(g.len()), seq![], roots).0;
            &&& s.len() == g.len()
            &&& forall|j: int| 0 <= j < g.len() ==> (#[trigger] s[j] <==> reachable(g, roots, j))
        }),
{
    let n = none_seen(g.len());
    let none = Seq::<int>::empty();
    let (s, o) = visited_all(g, n, none, roots);
    lemma_visited_all_deps(g, n, none, roots);
    lemma_visited_all_grows(g, n, none, roots);
    lemma_visited_all_listed(g, n, none, roots);
    assert forall|i: int, k: int| 0 <= i < g.len() && s[i] && 0 <= k < g[i].len() implies s[
    #[trigger] g[i][k]] by {
        assert(!pending(n, none, i));
        assert(!pending(s, o, i));
        let p = choose|p: int| 0 <= p < o.len() && o[p] == i;
        assert(s[g[o[p]][k]]);
    }
    assert forall|j: int| 0 <= j < g.len() implies (#[trigger] s[j] <==> reachable(g, roots, j)) by {
        if s[j] {
            assert(!n[j]);
        }
        if reachable(g, roots, j) {
            let m = choose|m: int| 0 <= m < roots.len() && reaches(g, roots[m], j);
            let p = choose|p: Seq<int>| is_path(g, p, roots[m], j);
            assert(s[roots[m]]);
            lemma_closed(g, s, p, roots[m], j);
        }
    }
}

proof fn lemma_visited_all_listed(g: Edges, seen: Seq<bool>, out: Seq<int>, ds: Seq<int>)
    requires
        valid(g),
        listed(g, seen, out),
        in_order(g, out),
        forall|k: int| 0 <= k < ds.len() ==> 0 <= #[trigger] ds[k] < g.len(),
        forall|j: int| !#[trigger] pending(seen, out, j),
    ensures
        ({
            let (s, o) = visited_all(g, seen, out, ds);
            forall|j: int| !#[trigger] pending(s, o, j)
        }),
{
    lemma_visited_all(g, seen, out, ds);
}

/// Which nodes are reached from the roots.
pub fn closure(g: &Vec<Vec<usize>>, roots: &Vec<usize>) -> (r: Vec<bool>)
    requires
        valid(edges_of(g@)),
        forall|k: int| 0 <= k < roots@.len() ==> #[trigger] roots@[k] < g@.len(),
    ensures
        r@.len() == g@.len(),
        forall|j: int|
            0 <= j < r@.len() ==> (#[trigger] r@[j] <==> reachable(
                edges_of(g@),
                ints(roots@),
                j,
            )),
{
    let ghost e = edges_of(g@);
    let ghost rs = ints(roots@);
    let mut seen: Vec<bool> = Vec::new();
    let mut i: usize = 0;
    while i < g.len()
        invariant
            i <= g@.len(),
            seen@ == none_seen(i as nat),
        decreases g@.len() - i,
    {
        seen.push(false);
        i = i + 1;
        assert(seen@ =~= none_seen(i as nat));
    }
    let mut out: Vec<usize> = Vec::new();
    let mut k: usize = 0;
    assert(rs.skip(0) =~= rs);
    assert(ints(out@) =~= seq![]);
    while k < roots.len()
        invariant
            k <= roots@.len(),
            e == edges_of(g@),
            valid(e),
            rs == ints(roots@),
            seen@.len() == g@.len(),
            forall|m: int| 0 <= m < roots@.len() ==> #[trigger] roots@[m] < g@.len(),
            visited_all(e, seen@, ints(out@), rs.skip(k as int)) == visited_all(
                e,
                none_seen(e.len()),
                seq![],
                rs,
            ),
        decreases roots@.len() - k,
    {
        proof {
            assert(rs.skip(k as int)[0] == roots@[k as int] as int);
            assert(rs.skip(k as int).drop_first() =~= rs.skip(k + 1));
            lemma_visited_grows(e, seen@, ints(out@), roots@[k as int] as int);
        }
        visit(g, roots[k], &mut seen, &mut out);
        k = k + 1;
    }
    proof {
        assert(rs.skip(k as int) =~= seq![]);
        lemma_closure(e, rs);
    }
    seen
}

// ---- cycles ----------------------------------------------------------------------------

/// How many entries are zero.
pub open spec fn zeros(st: Seq<u8>) -> nat
    decreases st.len(),
{
    if st.len() == 0 {
        0
    } else {
        zeros(st.drop_last()) + (if st.last() == 0 {
            1nat
        } else {
            0nat
        })
    }
}

proof fn lemma_zeros_update(st: Seq<u8>, i: int, v: u8)
    requires
        0 <= i < st.len(),
        v != 0,
    ensures
        zeros(st.update(i, v)) + (if st[i] == 0 {
            1nat
        } else {
            0nat
        }) == zeros(st),
    decreases st.len(),
{
    let t = st.update(i, v);
    if i == st.len() - 1 {
        assert(t.drop_last() =~= st.drop_last());
    } else {
        assert(t.drop_last() =~= st.drop_last().update(i, v));
        lemma_zeros_update(st.drop_last(), i, v);
    }
}

/// The first position of a node, or the length.
pub open spec fn first_at(p: Seq<int>, d: int, i: int) -> int
    decreases p.len() - i,
{
    if i < 0 || i >= p.len() || p[i] == d {
        i
    } else {
        first_at(p, d, i + 1)
    }
}

/// Searches a node that was not searched, depth first, and gives the states and the first
/// closed path. A state is zero before a node is searched, one while it is on the path and two
/// once nothing closed was found from it.
pub open spec fn searched(g: Edges, st: Seq<u8>, path: Seq<int>, i: int) -> (
    Seq<u8>,
    Option<Seq<int>>,
)
    decreases zeros(st), 0nat,
    via searched_decreases
{
    if i < 0 || i >= st.len() || st[i] != 0 {
        (st, None)
    } else {
        searched_all(g, st.update(i, 1), path.push(i), i, g[i])
    }
}

/// Searches what a node on the path depends on.
pub open spec fn searched_all(g: Edges, st: Seq<u8>, path: Seq<int>, i: int, ds: Seq<int>) -> (
    Seq<u8>,
    Option<Seq<int>>,
)
    decreases zeros(st), ds.len(),
    via searched_all_decreases
{
    if ds.len() == 0 {
        (st.update(i, 2), None)
    } else {
        let d = ds[0];
        if st[d] == 1 {
            (st, Some(path.skip(first_at(path, d, 0)).push(d)))
        } else {
            let (s, c) = searched(g, st, path, d);
            if c is Some {
                (s, c)
            } else if zeros(s) <= zeros(st) {
                searched_all(g, s, path, i, ds.drop_first())
            } else {
                (s, None)
            }
        }
    }
}

#[via_fn]
proof fn searched_decreases(g: Edges, st: Seq<u8>, path: Seq<int>, i: int) {
    if 0 <= i < st.len() && st[i] == 0 {
        lemma_zeros_update(st, i, 1);
    }
}

#[via_fn]
proof fn searched_all_decreases(g: Edges, st: Seq<u8>, path: Seq<int>, i: int, ds: Seq<int>) {
}

/// Searches nodes one after the other until a closed path is found.
pub open spec fn search_from(g: Edges, st: Seq<u8>, i: int) -> Option<Seq<int>>
    decreases g.len() - i,
{
    if i < 0 || i >= g.len() {
        None
    } else {
        let (s, c) = searched(g, st, seq![], i);
        if c is Some {
            c
        } else {
            search_from(g, s, i + 1)
        }
    }
}

/// Nothing searched among `n` nodes.
pub open spec fn none_searched(n: nat) -> Seq<u8> {
    Seq::new(n, |i: int| 0u8)
}

/// The first closed path, as its nodes with the first one again at the end.
pub open spec fn cycle(g: Edges) -> Option<Seq<int>> {
    search_from(g, none_searched(g.len()), 0)
}

proof fn lemma_searched_grows(g: Edges, st: Seq<u8>, path: Seq<int>, i: int)
    requires
        valid(g),
        st.len() == g.len(),
    ensures
        searched(g, st, path, i).0.len() == st.len(),
        zeros(searched(g, st, path, i).0) <= zeros(st),
    decreases zeros(st), 0nat,
{
    if 0 <= i < st.len() && st[i] == 0 {
        lemma_zeros_update(st, i, 1);
        lemma_searched_all_grows(g, st.update(i, 1), path.push(i), i, g[i]);
    }
}

proof fn lemma_searched_all_grows(g: Edges, st: Seq<u8>, path: Seq<int>, i: int, ds: Seq<int>)
    requires
        valid(g),
        st.len() == g.len(),
        0 <= i < g.len(),
    ensures
        searched_all(g, st, path, i, ds).0.len() == st.len(),
        zeros(searched_all(g, st, path, i, ds).0) <= zeros(st),
    decreases zeros(st), ds.len(),
{
    if ds.len() == 0 {
        lemma_zeros_update(st, i, 2);
    } else if st[ds[0]] != 1 {
        let (s, c) = searched(g, st, path, ds[0]);
        lemma_searched_grows(g, st, path, ds[0]);
        if c is None {
            lemma_searched_all_grows(g, s, path, i, ds.drop_first());
        }
    }
}

/// Whether a path is closed and follows edges.
pub open spec fn is_cycle(g: Edges, c: Seq<int>) -> bool {
    c.len() >= 2 && is_path(g, c, c[0], c[0])
}

/// Whether a closed path comes to no node twice before its end.
pub open spec fn is_circle(g: Edges, c: Seq<int>) -> bool {
    is_cycle(g, c) && c.drop_last().no_duplicates()
}

/// Whether the path holds exactly the nodes in state one, and follows edges.
pub open spec fn on_path(g: Edges, st: Seq<u8>, path: Seq<int>) -> bool {
    &&& st.len() == g.len()
    &&& forall|k: int| 0 <= k < path.len() ==> 0 <= #[trigger] path[k] < g.len() && st[path[k]] == 1
    &&& forall|k: int| 0 <= k < path.len() - 1 ==> g[#[trigger] path[k]].contains(path[k + 1])
    &&& forall|j: int| 0 <= j < g.len() && #[trigger] st[j] == 1 ==> path.contains(j)
    &&& forall|j: int| 0 <= j < g.len() ==> #[trigger] st[j] <= 2
    &&& path.no_duplicates()
}

/// Whether the nodes in state two are `fin`, each listed once and after what it depends on.
pub open spec fn ranked(g: Edges, st: Seq<u8>, fin: Seq<int>) -> bool {
    &&& forall|k: int| 0 <= k < fin.len() ==> 0 <= #[trigger] fin[k] < g.len() && st[fin[k]] == 2
    &&& forall|j: int| 0 <= j < g.len() && #[trigger] st[j] == 2 ==> fin.contains(j)
    &&& fin.no_duplicates()
    &&& forall|p: int, k: int|
        0 <= p < fin.len() && 0 <= k < g[fin[p]].len() ==> fin.take(p).contains(
            #[trigger] g[fin[p]][k],
        )
}

proof fn lemma_first_at(p: Seq<int>, d: int, i: int)
    requires
        0 <= i <= p.len(),
    ensures
        i <= first_at(p, d, i) <= p.len(),
        first_at(p, d, i) < p.len() ==> p[first_at(p, d, i)] == d,
        forall|k: int| i <= k < first_at(p, d, i) ==> #[trigger] p[k] != d,
    decreases p.len() - i,
{
    if i < p.len() && p[i] != d {
        lemma_first_at(p, d, i + 1);
    }
}

proof fn lemma_closed_path(g: Edges, st: Seq<u8>, path: Seq<int>, d: int)
    requires
        on_path(g, st, path),
        path.len() > 0,
        0 <= d < g.len(),
        st[d] == 1,
        g[path.last()].contains(d),
    ensures
        is_circle(g, path.skip(first_at(path, d, 0)).push(d)),
{
    lemma_first_at(path, d, 0);
    let f = first_at(path, d, 0);
    assert(path.contains(d));
    let m = choose|m: int| 0 <= m < path.len() && path[m] == d;
    assert(f <= m);
    let c = path.skip(f).push(d);
    assert(c[0] == d);
    assert forall|k: int| 0 <= k < c.len() implies 0 <= #[trigger] c[k] < g.len() by {
        if k < c.len() - 1 {
            assert(c[k] == path[f + k]);
        }
    }
    assert forall|k: int| 0 <= k < c.len() - 1 implies g[#[trigger] c[k]].contains(c[k + 1]) by {
        assert(c[k] == path[f + k]);
        if k < c.len() - 2 {
            assert(c[k + 1] == path[f + k + 1]);
        }
    }
}

proof fn lemma_searched(g: Edges, st: Seq<u8>, path: Seq<int>, i: int, fin: Seq<int>) -> (fin2: Seq<
    int,
>)
    requires
        valid(g),
        on_path(g, st, path),
        ranked(g, st, fin),
        0 <= i < g.len(),
        st[i] == 0,
        path.len() > 0 ==> g[path.last()].contains(i),
    ensures
        ({
            let (s, c) = searched(g, st, path, i);
            &&& c is Some ==> is_circle(g, c->0)
            &&& c is None ==> on_path(g, s, path) && ranked(g, s, fin2) && s[i] == 2 && forall|j: int|
                0 <= j < g.len() && st[j] == 2 ==> #[trigger] s[j] == 2
        }),
    decreases zeros(st), 0nat,
{
    lemma_zeros_update(st, i, 1);
    let st1 = st.update(i, 1);
    let path1 = path.push(i);
    assert(on_path(g, st1, path1)) by {
        assert forall|k: int| 0 <= k < path1.len() - 1 implies g[#[trigger] path1[k]].contains(
            path1[k + 1],
        ) by {
            if k < path.len() - 1 {
                assert(path1[k] == path[k] && path1[k + 1] == path[k + 1]);
            } else {
                assert(path1[k] == path.last());
            }
        }
        assert forall|j: int| 0 <= j < g.len() && #[trigger] st1[j] == 1 implies path1.contains(
            j,
        ) by {
            if j == i {
                assert(path1[path.len() as int] == i);
            } else {
                assert(st[j] == 1);
                let k = choose|k: int| 0 <= k < path.len() && path[k] == j;
                assert(path1[k] == j);
            }
        }
        assert forall|a: int, b: int|
            0 <= a < path1.len() && 0 <= b < path1.len() && a != b implies path1[a] != path1[b] by {
            if a < path.len() {
                assert(st[path[a]] == 1);
            }
            if b < path.len() {
                assert(st[path[b]] == 1);
            }
        }
    }
    assert(ranked(g, st1, fin)) by {
        assert forall|j: int| 0 <= j < g.len() && #[trigger] st1[j] == 2 implies fin.contains(j) by {
            assert(st[j] == 2);
        }
    }
    let f = lemma_searched_all(g, st1, path1, i, g[i], fin);
    let (s, c) = searched(g, st, path, i);
    if c is None {
        assert(path1.drop_last() =~= path);
        assert forall|j: int| 0 <= j < g.len() && st[j] == 2 implies #[trigger] s[j] == 2 by {
            assert(st1[j] == 2);
        }
    }
    f
}

proof fn lemma_searched_all(
    g: Edges,
    st: Seq<u8>,
    path: Seq<int>,
    i: int,
    ds: Seq<int>,
    fin: Seq<int>,
) -> (fin2: Seq<int>)
    requires
        valid(g),
        on_path(g, st, path),
        ranked(g, st, fin),
        path.len() > 0,
        path.last() == i,
        forall|k: int| 0 <= k < ds.len() ==> g[i].contains(#[trigger] ds[k]),
        forall|d: int| #[trigger] g[i].contains(d) ==> ds.contains(d) || st[d] == 2,
    ensures
        ({
            let (s, c) = searched_all(g, st, path, i, ds);
            &&& c is Some ==> is_circle(g, c->0)
            &&& c is None ==> on_path(g, s, path.drop_last()) && ranked(g, s, fin2) && s[i] == 2
                && forall|j: int| 0 <= j < g.len() && st[j] == 2 ==> #[trigger] s[j] == 2
        }),
    decreases zeros(st), ds.len(),
{
    assert(st[path[path.len() - 1]] == 1);
    if ds.len() == 0 {
        let s = st.update(i, 2);
        let f = fin.push(i);
        let p = path.drop_last();
        assert(!fin.contains(i)) by {
            if fin.contains(i) {
                let k = choose|k: int| 0 <= k < fin.len() && fin[k] == i;
                assert(st[fin[k]] == 2);
            }
        }
        assert(on_path(g, s, p)) by {
            assert forall|k: int| 0 <= k < p.len() implies 0 <= #[trigger] p[k] < g.len() && s[p[k]]
                == 1 by {
                assert(p[k] == path[k]);
                assert(path[k] != path[path.len() - 1]);
            }
            assert forall|k: int| 0 <= k < p.len() - 1 implies g[#[trigger] p[k]].contains(
                p[k + 1],
            ) by {
                assert(p[k] == path[k] && p[k + 1] == path[k + 1]);
            }
            assert forall|j: int| 0 <= j < g.len() && #[trigger] s[j] == 1 implies p.contains(
                j,
            ) by {
                assert(st[j] == 1);
                let k = choose|k: int| 0 <= k < path.len() && path[k] == j;
                assert(p[k] == j);
            }
        }
        assert(ranked(g, s, f)) by {
            assert forall|k: int| 0 <= k < f.len() implies 0 <= #[trigger] f[k] < g.len()
                && s[f[k]] == 2 by {
                if k < fin.len() {
                    assert(f[k] == fin[k]);
                }
            }
            assert forall|j: int| 0 <= j < g.len() && #[trigger] s[j] == 2 implies f.contains(
                j,
            ) by {
                if j == i {
                    assert(f[fin.len() as int] == i);
                } else {
                    assert(st[j] == 2);
                    let k = choose|k: int| 0 <= k < fin.len() && fin[k] == j;
                    assert(f[k] == j);
                }
            }
            assert forall|a: int, b: int|
                0 <= a < f.len() && 0 <= b < f.len() && a != b implies f[a] != f[b] by {
                if a == fin.len() {
                    assert(fin.contains(fin[b]));
                } else if b == fin.len() {
                    assert(fin.contains(fin[a]));
                }
            }
            assert forall|q: int, k: int| 0 <= q < f.len() && 0 <= k < g[f[q]].len() implies f.take(
                q,
            ).contains(#[trigger] g[f[q]][k]) by {
                assert(f.take(q) =~= fin.take(q));
                if q == fin.len() {
                    assert(fin.take(q) =~= fin);
                    let d = g[i][k];
                    assert(g[i].contains(d));
                    assert(st[d] == 2);
                } else {
                    assert(f[q] == fin[q]);
                    assert(fin.take(q).contains(g[fin[q]][k]));
                }
            }
        }
        f
    } else {
        let d = ds[0];
        let rest = ds.drop_first();
        assert(g[i].contains(d));
        assert(0 <= d < g.len()) by {
            let k = choose|k: int| 0 <= k < g[i].len() && g[i][k] == d;
            assert(0 <= g[i][k] < g.len());
        }
        if st[d] == 1 {
            lemma_closed_path(g, st, path, d);
            fin
        } else {
            let (s, c) = searched(g, st, path, d);
            lemma_searched_grows(g, st, path, d);
            let f = if st[d] == 0 {
                lemma_searched(g, st, path, d, fin)
            } else {
                fin
            };
            if c is None {
                assert forall|k: int| 0 <= k < rest.len() implies g[i].contains(
                    #[trigger] rest[k],
                ) by {
                    assert(rest[k] == ds[k + 1]);
                }
                assert forall|x: int| #[trigger] g[i].contains(x) implies rest.contains(x) || s[x]
                    == 2 by {
                    assert(0 <= x < g.len()) by {
                        let k = choose|k: int| 0 <= k < g[i].len() && g[i][k] == x;
                        assert(0 <= g[i][k] < g.len());
                    }
                    if ds.contains(x) {
                        let k = choose|k: int| 0 <= k < ds.len() && ds[k] == x;
                        if k > 0 {
                            assert(rest[k - 1] == x);
                        }
                    } else {
                        assert(st[x] == 2);
                    }
                }
                let f2 = lemma_searched_all(g, s, path, i, rest, f);
                f2
            } else {
                f
            }
        }
    }
}

proof fn lemma_search_from(g: Edges, st: Seq<u8>, i: int, fin: Seq<int>) -> (fin2: Seq<int>)
    requires
        valid(g),
        0 <= i <= g.len(),
        on_path(g, st, seq![]),
        ranked(g, st, fin),
        forall|j: int| 0 <= j < i ==> #[trigger] st[j] == 2,
    ensures
        search_from(g, st, i) is Some ==> is_circle(g, search_from(g, st, i)->0),
        search_from(g, st, i) is None ==> exists|s: Seq<u8>|
            #![trigger ranked(g, s, fin2)]
            s.len() == g.len() && ranked(g, s, fin2) && forall|j: int|
                0 <= j < g.len() ==> s[j] == 2,
    decreases g.len() - i,
{
    if i >= g.len() {
        assert(ranked(g, st, fin));
        fin
    } else {
        let (s, c) = searched(g, st, seq![], i);
        if st[i] == 0 {
            let f = lemma_searched(g, st, seq![], i, fin);
            if c is None {
                lemma_search_from(g, s, i + 1, f)
            } else {
                f
            }
        } else {
            assert(st[i] != 1) by {
                if st[i] == 1 {
                    assert(Seq::<int>::empty().contains(i));
                }
            }
            lemma_search_from(g, s, i + 1, fin)
        }
    }
}

/// What is ranked has no closed path: along an edge the rank falls.
proof fn lemma_ranked_acyclic(g: Edges, st: Seq<u8>, fin: Seq<int>, c: Seq<int>)
    requires
        valid(g),
        st.len() == g.len(),
        ranked(g, st, fin),
        forall|j: int| 0 <= j < g.len() ==> #[trigger] st[j] == 2,
    ensures
        !is_cycle(g, c),
{
    if is_cycle(g, c) {
        lemma_rank_falls(g, st, fin, c, c.len() - 1);
    }
}

/// The position of a node.
spec fn rank(fin: Seq<int>, j: int) -> int {
    first_at(fin, j, 0)
}

proof fn lemma_rank_falls(g: Edges, st: Seq<u8>, fin: Seq<int>, c: Seq<int>, k: int)
    requires
        valid(g),
        st.len() == g.len(),
        ranked(g, st, fin),
        forall|j: int| 0 <= j < g.len() ==> #[trigger] st[j] == 2,
        is_cycle(g, c),
        0 <= k < c.len(),
    ensures
        0 < k ==> rank(fin, c[k]) < rank(fin, c[0]),
    decreases k,
{
    if k > 0 {
        lemma_rank_falls(g, st, fin, c, k - 1);
        let u = c[k - 1];
        let v = c[k];
        assert(0 <= u < g.len() && 0 <= v < g.len());
        assert(g[c[k - 1]].contains(c[k - 1 + 1]));
        assert(st[u] == 2 && st[v] == 2);
        assert(fin.contains(u));
        lemma_first_at(fin, u, 0);
        lemma_first_at(fin, v, 0);
        let pu = rank(fin, u);
        let mu = choose|m: int| 0 <= m < fin.len() && fin[m] == u;
        assert(pu <= mu);
        assert(fin[pu] == u);
        let e = choose|e: int| 0 <= e < g[u].len() && g[u][e] == v;
        assert(fin.take(pu).contains(g[fin[pu]][e]));
        let q = choose|q: int| 0 <= q < fin.take(pu).len() && fin.take(pu)[q] == v;
        assert(fin[q] == v);
        assert(rank(fin, v) <= q);
    }
}

/// A closed path is found exactly where there is one, and the one that is found comes to no node
/// twice before its end.
pub proof fn law_cycle(g: Edges, c: Seq<int>)
    requires
        valid(g),
    ensures
        cycle(g) is Some ==> is_circle(g, cycle(g)->0),
        is_cycle(g, c) ==> cycle(g) is Some,
{
    let st = none_searched(g.len());
    let none = Seq::<int>::empty();
    let fin = lemma_search_from(g, st, 0, none);
    if cycle(g) is None && is_cycle(g, c) {
        let s = choose|s: Seq<u8>|
            #![trigger ranked(g, s, fin)]
            s.len() == g.len() && ranked(g, s, fin) && forall|j: int| 0 <= j < g.len() ==> s[j] == 2;
        lemma_ranked_acyclic(g, s, fin, c);
    }
}

fn search(g: &Vec<Vec<usize>>, i: usize, st: &mut Vec<u8>, path: &mut Vec<usize>) -> (r: Option<
    Vec<usize>,
>)
    requires
        valid(edges_of(g@)),
        old(st)@.len() == g@.len(),
        i < g@.len(),
        old(st)@[i as int] == 0,
    ensures
        final(st)@ == searched(edges_of(g@), old(st)@, ints(old(path)@), i as int).0,
        match r {
            Some(c) => searched(edges_of(g@), old(st)@, ints(old(path)@), i as int).1 == Some(
                ints(c@),
            ),
            None => searched(edges_of(g@), old(st)@, ints(old(path)@), i as int).1 is None
                && final(path)@ == old(path)@,
        },
        final(st)@.len() == g@.len(),
    decreases zeros(old(st)@),
{
    let ghost e = edges_of(g@);
    let ghost st0 = st@;
    let ghost path0 = path@;
    proof {
        lemma_zeros_update(st0, i as int, 1);
        lemma_searched_grows(e, st0, ints(path0), i as int);
    }
    st.set(i, 1);
    path.push(i);
    let ghost p1 = ints(path@);
    let ghost st1 = st@;
    let mut k: usize = 0;
    assert(p1 =~= ints(path0).push(i as int));
    assert(e[i as int] =~= ints(g@[i as int]@));
    assert(e[i as int].skip(0) =~= e[i as int]);
    while k < g[i].len()
        invariant
            e == edges_of(g@),
            valid(e),
            i < g@.len(),
            k <= g@[i as int]@.len(),
            st@.len() == g@.len(),
            zeros(st@) < zeros(st0),
            zeros(st0) == zeros(old(st)@),
            st0 == old(st)@,
            path0 == old(path)@,
            p1 == ints(path@),
            path@ == path0.push(i),
            e[i as int] == ints(g@[i as int]@),
            searched(e, st0, ints(path0), i as int) == searched_all(
                e,
                st1,
                p1,
                i as int,
                e[i as int],
            ),
            searched_all(e, st@, p1, i as int, e[i as int].skip(k as int)) == searched_all(
                e,
                st1,
                p1,
                i as int,
                e[i as int],
            ),
            searched(e, st0, ints(path0), i as int).0.len() == g@.len(),
        decreases g@[i as int]@.len() - k,
    {
        let d: usize = g[i][k];
        proof {
            assert(e[i as int][k as int] == d as int);
            assert(e[i as int].skip(k as int)[0] == d as int);
            assert(e[i as int].skip(k as int).drop_first() =~= e[i as int].skip(k + 1));
            lemma_searched_grows(e, st@, p1, d as int);
        }
        if st[d] == 1 {
            let mut f: usize = 0;
            while f < path.len() && path[f] != d
                invariant
                    f <= path@.len(),
                    p1 == ints(path@),
                    first_at(p1, d as int, 0) == first_at(p1, d as int, f as int),
                decreases path@.len() - f,
            {
                f = f + 1;
            }
            assert(f == first_at(p1, d as int, 0));
            let mut c: Vec<usize> = Vec::new();
            let mut m: usize = f;
            while m < path.len()
                invariant
                    f <= m <= path@.len(),
                    c@ == path@.subrange(f as int, m as int),
                decreases path@.len() - m,
            {
                c.push(path[m]);
                m = m + 1;
                assert(c@ =~= path@.subrange(f as int, m as int));
            }
            c.push(d);
            assert(ints(c@) =~= p1.skip(f as int).push(d as int));
            return Some(c);
        }
        if st[d] == 0 {
            let found: Option<Vec<usize>> = search(g, d, st, path);
            if found.is_some() {
                return found;
            }
        }
        k = k + 1;
    }
    assert(e[i as int].skip(k as int) =~= seq![]);
    path.pop();
    assert(path@ =~= path0);
    st.set(i, 2);
    None
}

/// The first closed path, as its nodes with the first one again at the end.
pub fn find_closed_path(g: &Vec<Vec<usize>>) -> (r: Option<Vec<usize>>)
    requires
        valid(edges_of(g@)),
    ensures
        match r {
            Some(c) => cycle(edges_of(g@)) == Some(ints(c@)),
            None => cycle(edges_of(g@)) is None,
        },
{
    let ghost e = edges_of(g@);
    let mut st: Vec<u8> = Vec::new();
    let mut i: usize = 0;
    while i < g.len()
        invariant
            i <= g@.len(),
            st@ == none_searched(i as nat),
        decreases g@.len() - i,
    {
        st.push(0);
        i = i + 1;
        assert(st@ =~= none_searched(i as nat));
    }
    let mut k: usize = 0;
    while k < g.len()
        invariant
            k <= g@.len(),
            e == edges_of(g@),
            valid(e),
            st@.len() == g@.len(),
            cycle(e) == search_from(e, st@, k as int),
        decreases g@.len() - k,
    {
        if st[k] == 0 {
            let mut path: Vec<usize> = Vec::new();
            assert(ints(path@) =~= seq![]);
            let found: Option<Vec<usize>> = search(g, k, &mut st, &mut path);
            if found.is_some() {
                return found;
            }
        }
        k = k + 1;
    }
    None
}

proof fn lemma_all_seen(g: Edges, seen: Seq<bool>, out: Seq<int>, ds: Seq<int>)
    requires
        forall|k: int| 0 <= k < ds.len() ==> 0 <= #[trigger] ds[k] < seen.len() && seen[ds[k]],
    ensures
        visited_all(g, seen, out, ds) == (seen, out),
    decreases ds.len(),
{
    if ds.len() > 0 {
        let rest = ds.drop_first();
        assert(0 <= ds[0] < seen.len() && seen[ds[0]]);
        assert forall|k: int| 0 <= k < rest.len() implies 0 <= #[trigger] rest[k] < seen.len()
            && seen[rest[k]] by {
            assert(rest[k] == ds[k + 1]);
        }
        lemma_all_seen(g, seen, out, rest);
        assert(visited(g, seen, out, ds[0]) == (seen, out));
        assert(visited_all(g, seen, out, ds) == visited_all(g, seen, out, rest));
    } else {
        assert(visited_all(g, seen, out, ds) == (seen, out));
    }
}

/// The nodes below `k`, seen.
spec fn seen_below(n: nat, k: int) -> Seq<bool> {
    Seq::new(n, |i: int| i < k)
}

proof fn lemma_stands(g: Edges, k: int)
    requires
        valid(g),
        0 <= k <= g.len(),
        forall|i: int, d: int| 0 <= i < g.len() && 0 <= d < g[i].len() ==> #[trigger] g[i][d] < i,
    ensures
        visited_all(
            g,
            seen_below(g.len(), k),
            all_nodes(k as nat),
            all_nodes(g.len()).skip(k),
        ).1 == all_nodes(g.len()),
    decreases g.len() - k,
{
    let n = g.len();
    let seen = seen_below(n, k);
    let out = all_nodes(k as nat);
    let ds = all_nodes(n).skip(k);
    if k < n {
        assert(ds[0] == k);
        let next = seen.update(k, true);
        assert(next =~= seen_below(n, k + 1));
        assert forall|d: int| 0 <= d < g[k].len() implies 0 <= #[trigger] g[k][d] < next.len()
            && next[g[k][d]] by {
            assert(g[k][d] < k);
        }
        lemma_all_seen(g, next, out, g[k]);
        assert(visited(g, seen, out, k) == (next, out.push(k)));
        assert(out.push(k) =~= all_nodes((k + 1) as nat));
        lemma_free_update(seen, k);
        assert(ds.drop_first() =~= all_nodes(n).skip(k + 1));
        lemma_stands(g, k + 1);
    } else {
        assert(ds =~= seq![]);
    }
}

/// Nodes keep their places where that can be: if each depends only on nodes before it, the order is
/// the one they stand in.
pub proof fn law_order_stands(g: Edges)
    requires
        valid(g),
        forall|i: int, d: int| 0 <= i < g.len() && 0 <= d < g[i].len() ==> #[trigger] g[i][d] < i,
    ensures
        order(g).len() == g.len(),
        forall|i: int| 0 <= i < g.len() ==> #[trigger] order(g)[i] == i,
{
    lemma_stands(g, 0);
    assert(seen_below(g.len(), 0) =~= none_seen(g.len()));
    assert(all_nodes(g.len()).skip(0) =~= all_nodes(g.len()));
    assert(all_nodes(0) =~= seq![]);
}

} // verus!
