use vstd::prelude::*;
use crate::outline::{is_text_less, text_less};
use crate::rules::lists::{lemma_strings_view_push, string_in, strings_view};
use crate::ui::GraphEdge;

verus! {

/// The pair of nodes that an edge joins, whichever its direction: the one
/// whose text comes first, then the other.
pub open spec fn edge_pair(e: GraphEdge) -> (Seq<char>, Seq<char>) {
    if text_less(e.from@, e.to@) {
        (e.from@, e.to@)
    } else {
        (e.to@, e.from@)
    }
}

/// The edges that join one pair of nodes: the pair, and the positions of the
/// edges in the list they were taken from.
pub struct EdgeGroup {
    pub first: String,
    pub second: String,
    pub edges: Vec<usize>,
}

/// The pair of a group, as texts.
pub open spec fn group_pair(g: EdgeGroup) -> (Seq<char>, Seq<char>) {
    (g.first@, g.second@)
}

/// Whether `r` groups the edges `es` by the pair of nodes they join: each
/// group is the positions, in increasing order, of all the edges of one pair;
/// no pair has two groups; and the groups come in the order of their first
/// edge.
pub open spec fn groups_edges(es: Seq<GraphEdge>, r: Seq<EdgeGroup>) -> bool {
    &&& forall|i: int| 0 <= i < r.len() ==> #[trigger] r[i].edges@.len() > 0
    &&& forall|i: int, k: int| 0 <= i < r.len() && 0 <= k < r[i].edges@.len() ==> {
        &&& #[trigger] r[i].edges@[k] < es.len()
        &&& edge_pair(es[r[i].edges@[k] as int]) == group_pair(r[i])
    }
    &&& forall|i: int, k: int, m: int| 0 <= i < r.len() && 0 <= k < m < r[i].edges@.len()
        ==> #[trigger] r[i].edges@[k] < #[trigger] r[i].edges@[m]
    &&& forall|i: int, j: int| 0 <= i < j < r.len() ==> group_pair(#[trigger] r[i]) != group_pair(#[trigger] r[j])
    &&& forall|i: int, j: int| 0 <= i < j < r.len() ==> (#[trigger] r[i]).edges@[0] < (#[trigger] r[j]).edges@[0]
    &&& forall|e: int| 0 <= e < es.len() ==> #[trigger] edge_listed(r, e)
}

/// Whether the position `e` is in one of the groups.
pub open spec fn edge_listed(r: Seq<EdgeGroup>, e: int) -> bool {
    exists|i: int, k: int| 0 <= i < r.len() && 0 <= k < r[i].edges@.len() && #[trigger] r[i].edges@[k] == e
}

/// Groups the edges by the pair of nodes they join, in either direction, so
/// that the edges between two nodes can be drawn side by side.
pub fn group_edges(edges: &Vec<GraphEdge>) -> (r: Vec<EdgeGroup>)
    ensures
        groups_edges(edges@, r@),
{
    let mut groups: Vec<EdgeGroup> = Vec::new();
    let n = edges.len();
    let mut e: usize = 0;
    while e < n
        invariant
            e <= n,
            n == edges@.len(),
            forall|i: int| 0 <= i < groups@.len() ==> #[trigger] groups@[i].edges@.len() > 0,
            forall|i: int, k: int| 0 <= i < groups@.len() && 0 <= k < groups@[i].edges@.len() ==> {
                &&& #[trigger] groups@[i].edges@[k] < e
                &&& edge_pair(edges@[groups@[i].edges@[k] as int]) == group_pair(groups@[i])
            },
            forall|i: int, k: int, m: int| 0 <= i < groups@.len() && 0 <= k < m < groups@[i].edges@.len()
                ==> #[trigger] groups@[i].edges@[k] < #[trigger] groups@[i].edges@[m],
            forall|i: int, j: int| 0 <= i < j < groups@.len() ==> group_pair(#[trigger] groups@[i]) != group_pair(#[trigger] groups@[j]),
            forall|i: int, j: int| 0 <= i < j < groups@.len() ==> (#[trigger] groups@[i]).edges@[0] < (#[trigger] groups@[j]).edges@[0],
            forall|x: int| 0 <= x < e ==> #[trigger] edge_listed(groups@, x),
        decreases n - e,
    {
        let edge = &edges[e];
        let forward = is_text_less(edge.from.as_str(), edge.to.as_str());
        let (a, b) = if forward {
            (edge.from.clone(), edge.to.clone())
        } else {
            (edge.to.clone(), edge.from.clone())
        };
        assert(edge_pair(edges@[e as int]) == (a@, b@));
        let ng = groups.len();
        let mut g: usize = 0;
        while g < ng
            invariant
                g <= ng,
                ng == groups@.len(),
                forall|i: int| 0 <= i < g ==> group_pair(#[trigger] groups@[i]) != (a@, b@),
            ensures
                g <= ng,
                forall|i: int| 0 <= i < g ==> group_pair(#[trigger] groups@[i]) != (a@, b@),
                g < ng ==> group_pair(groups@[g as int]) == (a@, b@),
            decreases ng - g,
        {
            if groups[g].first == a && groups[g].second == b {
                break;
            }
            g += 1;
        }
        let ghost old_groups = groups@;
        if g < ng {
            assert(group_pair(groups@[g as int]) == (a@, b@));
            let mut group = groups.remove(g);
            group.edges.push(e);
            groups.insert(g, group);
            assert(groups@.len() == old_groups.len());
            assert forall|i: int| 0 <= i < groups@.len() && i != g implies #[trigger] groups@[i] == old_groups[i] by {}
            assert(groups@[g as int].edges@ == old_groups[g as int].edges@.push(e));
            assert(group_pair(groups@[g as int]) == group_pair(old_groups[g as int]));
            assert forall|x: int| 0 <= x < e + 1 implies #[trigger] edge_listed(groups@, x) by {
                if x == e {
                    let k = old_groups[g as int].edges@.len() as int;
                    assert(groups@[g as int].edges@[k] == x);
                } else {
                    assert(edge_listed(old_groups, x));
                    let (i, k) = choose|i: int, k: int|
                        0 <= i < old_groups.len() && 0 <= k < old_groups[i].edges@.len() && #[trigger] old_groups[i].edges@[k] == x;
                    assert(groups@[i].edges@[k] == x);
                }
            }
        } else {
            let mut fresh: Vec<usize> = Vec::new();
            fresh.push(e);
            groups.push(EdgeGroup { first: a, second: b, edges: fresh });
            assert forall|i: int| 0 <= i < old_groups.len() implies #[trigger] groups@[i] == old_groups[i] by {}
            assert forall|x: int| 0 <= x < e + 1 implies #[trigger] edge_listed(groups@, x) by {
                if x == e {
                    assert(groups@[ng as int].edges@[0] == x);
                } else {
                    assert(edge_listed(old_groups, x));
                    let (i, k) = choose|i: int, k: int|
                        0 <= i < old_groups.len() && 0 <= k < old_groups[i].edges@.len() && #[trigger] old_groups[i].edges@[k] == x;
                    assert(groups@[i].edges@[k] == x);
                }
            }
        }
        e += 1;
    }
    groups
}

/// The number of columns of the grid layout for `count` nodes: the least
/// number whose square is at least `count`.
pub fn grid_columns(count: usize) -> (c: usize)
    ensures
        c * c >= count,
        c == 0 || (c - 1) * (c - 1) < count,
{
    let mut c: usize = 0;
    loop
        invariant
            c <= count,
            c == 0 || (c - 1) * (c - 1) < count,
        ensures
            c * c >= count,
            c == 0 || (c - 1) * (c - 1) < count,
        decreases count - c,
    {
        let w = c as u128;
        assert(w * w <= 0xffff_ffff_ffff_ffffu128 * 0xffff_ffff_ffff_ffffu128) by (nonlinear_arith)
            requires w <= 0xffff_ffff_ffff_ffffu128;
        if w * w >= count as u128 {
            break;
        }
        assert(c < count) by (nonlinear_arith)
            requires c * c < count, c >= 0;
        c = c + 1;
    }
    c
}


/// Whether the edge joins `u` and `v`, in either direction.
pub open spec fn edge_joins(e: GraphEdge, u: Seq<char>, v: Seq<char>) -> bool {
    (e.from@ == u && e.to@ == v) || (e.to@ == u && e.from@ == v)
}

/// Whether one of the edges joins `u` and `v`.
pub open spec fn joined(es: Seq<GraphEdge>, u: Seq<char>, v: Seq<char>) -> bool {
    exists|k: int| 0 <= k < es.len() && #[trigger] edge_joins(es[k], u, v)
}

/// The nodes at most `d` edges away from `center`, the edges taken in
/// either direction.
pub open spec fn around(es: Seq<GraphEdge>, center: Seq<char>, d: nat) -> Set<Seq<char>>
    decreases d,
{
    if d == 0 {
        set![center]
    } else {
        let prev = around(es, center, (d - 1) as nat);
        prev.union(Set::new(|v: Seq<char>| exists|u: Seq<char>| #[trigger] prev.contains(u) && joined(es, u, v)))
    }
}

/// Whether `v` is exactly `d` edges away from `center`.
pub open spec fn at_distance(es: Seq<GraphEdge>, center: Seq<char>, d: nat, v: Seq<char>) -> bool {
    around(es, center, d).contains(v) && (d > 0 ==> !around(es, center, (d - 1) as nat).contains(v))
}

/// The texts that the edges join, their starts then their ends.
pub open spec fn ends_view(es: Seq<GraphEdge>) -> Seq<Seq<char>> {
    es.map_values(|e: GraphEdge| e.from@) + es.map_values(|e: GraphEdge| e.to@)
}

/// Adds to `next` every node that an edge joins to `u` and that neither
/// `seen` nor `next` holds yet.
fn add_joined(edges: &Vec<GraphEdge>, u: &String, seen: &Vec<String>, next: &mut Vec<String>)
    requires
        strings_view(old(next)@).no_duplicates(),
    ensures
        strings_view(final(next)@).no_duplicates(),
        forall|w: Seq<char>| #[trigger] strings_view(final(next)@).contains(w) <==> strings_view(old(next)@).contains(w)
            || (!strings_view(seen@).contains(w) && joined(edges@, u@, w)),
{
    let ghost start = strings_view(next@);
    let n = edges.len();
    let mut k: usize = 0;
    while k < n
        invariant
            k <= n,
            n == edges@.len(),
            strings_view(next@).no_duplicates(),
            forall|w: Seq<char>| #[trigger] strings_view(next@).contains(w) <==> start.contains(w)
                || (!strings_view(seen@).contains(w) && exists|j: int| 0 <= j < k && #[trigger] edge_joins(edges@[j], u@, w)),
        decreases n - k,
    {
        let ghost before = strings_view(next@);
        let e = &edges[k];
        if e.from == *u {
            crate::ui::push_new(seen, next, e.to.clone());
        }
        let ghost mid = strings_view(next@);
        if e.to == *u {
            crate::ui::push_new(seen, next, e.from.clone());
        }
        proof {
            assert forall|w: Seq<char>| #[trigger] strings_view(next@).contains(w) <==> start.contains(w)
                || (!strings_view(seen@).contains(w) && exists|j: int| 0 <= j < k + 1 && #[trigger] edge_joins(edges@[j], u@, w)) by {
                if exists|j: int| 0 <= j < k + 1 && #[trigger] edge_joins(edges@[j], u@, w) {
                    let j = choose|j: int| 0 <= j < k + 1 && #[trigger] edge_joins(edges@[j], u@, w);
                    if j < k && !strings_view(seen@).contains(w) {
                        assert(before.contains(w));
                    }
                }
                if strings_view(next@).contains(w) && !before.contains(w) {
                    assert(edge_joins(edges@[k as int], u@, w));
                }
            }
        }
        k += 1;
    }
}

/// The nodes that the edges join to `center`, layer by layer: the first
/// layer is `center` alone, and each next one holds, once each, the nodes
/// one edge farther away, until no node is farther. The radial layout puts
/// each layer on a ring of its own.
pub fn radial_layers(center: &String, edges: &Vec<GraphEdge>) -> (r: Vec<Vec<String>>)
    ensures
        r@.len() >= 1,
        forall|d: int| 0 <= d < r@.len() ==> strings_view(#[trigger] r@[d]@).no_duplicates() && r@[d]@.len() > 0,
        forall|d: int, v: Seq<char>| 0 <= d < r@.len() ==>
            (#[trigger] strings_view(r@[d]@).contains(v) <==> at_distance(edges@, center@, d as nat, v)),
        forall|v: Seq<char>| #[trigger] around(edges@, center@, r@.len()).contains(v)
            ==> around(edges@, center@, (r@.len() - 1) as nat).contains(v),
{
    let ghost es = edges@;
    let ghost c = center@;
    let ghost pool = seq![c] + ends_view(es);
    let ghost bound = pool.len();
    let mut layers: Vec<Vec<String>> = Vec::new();
    let mut seen: Vec<String> = Vec::new();
    let mut frontier: Vec<String> = Vec::new();
    proof {
        lemma_strings_view_push(seen@, *center);
        lemma_strings_view_push(frontier@, *center);
    }
    seen.push(center.clone());
    frontier.push(center.clone());
    let ghost mut d: nat = 0;
    proof {
        assert(strings_view(seen@) =~= seq![c]);
        assert(strings_view(frontier@) =~= seq![c]);
        assert forall|x: Seq<char>| #[trigger] strings_view(seen@).contains(x) <==> around(es, c, 0).contains(x) by {
            if x == c {
                assert(strings_view(seen@)[0] == x);
            }
        }
        assert(pool[0] == c);
    }
    while frontier.len() > 0
        invariant
            es == edges@,
            c == center@,
            pool == seq![c] + ends_view(es),
            bound == pool.len(),
            layers@.len() == d,
            d == 0 ==> strings_view(frontier@).len() > 0,
            forall|e: int| 0 <= e < layers@.len() ==> strings_view(#[trigger] layers@[e]@).no_duplicates() && layers@[e]@.len() > 0,
            forall|e: int, v: Seq<char>| 0 <= e < layers@.len() ==>
                (#[trigger] strings_view(layers@[e]@).contains(v) <==> at_distance(es, c, e as nat, v)),
            strings_view(seen@).no_duplicates(),
            strings_view(frontier@).no_duplicates(),
            forall|x: Seq<char>| #[trigger] strings_view(seen@).contains(x) <==> around(es, c, d).contains(x),
            forall|x: Seq<char>| #[trigger] strings_view(frontier@).contains(x) <==> at_distance(es, c, d, x),
            forall|i: int| 0 <= i < seen@.len() ==> pool.contains(#[trigger] strings_view(seen@)[i]),
            seen@.len() <= bound,
        decreases 2 * (bound - seen@.len()) + if frontier@.len() > 0 { 1int } else { 0int },
    {
        let mut next: Vec<String> = Vec::new();
        let ghost seen0 = strings_view(seen@);
        let ghost front0 = strings_view(frontier@);
        let nf = frontier.len();
        let mut b: usize = 0;
        proof {
            assert(strings_view(next@) =~= Seq::<Seq<char>>::empty());
        }
        assert(forall|x: Seq<char>| #[trigger] seen0.contains(x) <==> around(es, c, d).contains(x));
        assert(forall|x: Seq<char>| #[trigger] front0.contains(x) <==> at_distance(es, c, d, x));
        while b < nf
            invariant
                b <= nf,
                nf == frontier@.len(),
                front0 == strings_view(frontier@),
                seen0 == strings_view(seen@),
                es == edges@,
                strings_view(next@).no_duplicates(),
                forall|w: Seq<char>| #[trigger] strings_view(next@).contains(w) <==> !seen0.contains(w)
                    && exists|i: int| 0 <= i < b && #[trigger] joined(es, front0[i], w),
                forall|x: Seq<char>| #[trigger] seen0.contains(x) <==> around(es, c, d).contains(x),
                forall|x: Seq<char>| #[trigger] front0.contains(x) <==> at_distance(es, c, d, x),
            decreases nf - b,
        {
            let ghost before = strings_view(next@);
            add_joined(edges, &frontier[b], &seen, &mut next);
            proof {
                assert(frontier@[b as int]@ == front0[b as int]);
                assert forall|w: Seq<char>| #[trigger] strings_view(next@).contains(w) <==> !seen0.contains(w)
                    && exists|i: int| 0 <= i < b + 1 && #[trigger] joined(es, front0[i], w) by {
                    if exists|i: int| 0 <= i < b + 1 && #[trigger] joined(es, front0[i], w) {
                        let i = choose|i: int| 0 <= i < b + 1 && #[trigger] joined(es, front0[i], w);
                        if i < b && !seen0.contains(w) {
                            assert(before.contains(w));
                        }
                    }
                    if strings_view(next@).contains(w) && !before.contains(w) {
                        assert(joined(es, front0[b as int], w));
                    }
                }
            }
            b += 1;
        }
        let ghost nx = strings_view(next@);
        let nn = next.len();
        let mut z: usize = 0;
        while z < nn
            invariant
                z <= nn,
                nn == next@.len(),
                nx == strings_view(next@),
                strings_view(seen@) == seen0 + nx.subrange(0, z as int),
                forall|x: Seq<char>| #[trigger] seen0.contains(x) <==> around(es, c, d).contains(x),
                forall|x: Seq<char>| #[trigger] front0.contains(x) <==> at_distance(es, c, d, x),
            decreases nn - z,
        {
            proof {
                lemma_strings_view_push(seen@, next@[z as int]);
                assert(nx.subrange(0, z + 1) =~= nx.subrange(0, z as int).push(nx[z as int]));
            }
            seen.push(next[z].clone());
            z += 1;
        }
        proof {
            assert(nx.subrange(0, nn as int) =~= nx);
            let sv = strings_view(seen@);
            assert(sv == seen0 + nx);
            let prev = around(es, c, d);
            let nxt = around(es, c, d + 1);
            assert forall|v: Seq<char>| #[trigger] nx.contains(v) implies at_distance(es, c, d + 1, v) by {
                {
                    let i = choose|i: int| 0 <= i < nf && #[trigger] joined(es, front0[i], v);
                    assert(front0.contains(front0[i]));
                    assert(prev.contains(front0[i]));
                }
            }
            assert forall|v: Seq<char>| at_distance(es, c, d + 1, v) implies #[trigger] nx.contains(v) by {
                {
                    let u = choose|u: Seq<char>| #[trigger] prev.contains(u) && joined(es, u, v);
                    if front0.contains(u) {
                        let i = choose|i: int| 0 <= i < front0.len() && front0[i] == u;
                        assert(joined(es, front0[i], v));
                    } else {
                        assert(d > 0 && around(es, c, (d - 1) as nat).contains(u));
                        assert(prev.contains(v));
                    }
                }
            }
            assert forall|x: Seq<char>| #[trigger] sv.contains(x) <==> nxt.contains(x) by {
                if sv.contains(x) {
                    let p = choose|p: int| 0 <= p < sv.len() && sv[p] == x;
                    if p < seen0.len() {
                        assert(seen0[p] == x);
                        assert(seen0.contains(x));
                    } else {
                        assert(nx[p - seen0.len()] == x);
                        assert(nx.contains(x));
                    }
                }
                if nxt.contains(x) {
                    if prev.contains(x) {
                        assert(seen0.contains(x));
                        let p = choose|p: int| 0 <= p < seen0.len() && seen0[p] == x;
                        assert(sv[p] == x);
                    } else {
                        assert(at_distance(es, c, d + 1, x));
                        assert(nx.contains(x));
                        let p = choose|p: int| 0 <= p < nx.len() && nx[p] == x;
                        assert(sv[seen0.len() + p] == x);
                    }
                }
            }
            assert forall|p: int, q: int| 0 <= p < sv.len() && 0 <= q < sv.len() && p != q implies sv[p] != sv[q] by {
                if p < seen0.len() && q >= seen0.len() {
                    assert(nx.contains(sv[q]));
                    assert(seen0.contains(sv[p]));
                } else if q < seen0.len() && p >= seen0.len() {
                    assert(nx.contains(sv[p]));
                    assert(seen0.contains(sv[q]));
                } else if p >= seen0.len() && q >= seen0.len() {
                    assert(sv[p] == nx[p - seen0.len()]);
                    assert(sv[q] == nx[q - seen0.len()]);
                }
            }
            assert forall|i: int| 0 <= i < seen@.len() implies pool.contains(#[trigger] strings_view(seen@)[i]) by {
                if i >= seen0.len() {
                    let v = sv[i];
                    assert(nx[i - seen0.len()] == v);
                    assert(nx.contains(v));
                    let j = choose|j: int| 0 <= j < nf && #[trigger] joined(es, front0[j], v);
                    let k = choose|k: int| 0 <= k < es.len() && #[trigger] edge_joins(es[k], front0[j], v);
                    let m = es.len();
                    if es[k].to@ == v {
                        assert(ends_view(es)[m + k] == v);
                        assert(pool[1 + m + k] == v);
                    } else {
                        assert(ends_view(es)[k] == v);
                        assert(pool[1 + k] == v);
                    }
                } else {
                    assert(sv[i] == seen0[i]);
                }
            }
            crate::outline::lemma_distinct_within(sv, pool);
        }
        let ghost old_layers = layers@;
        let ghost fr = frontier;
        layers.push(frontier);
        proof {
            assert(layers@ == old_layers.push(fr));
            assert(layers@[d as int] == fr);
            assert forall|e: int| 0 <= e < layers@.len() implies strings_view(#[trigger] layers@[e]@).no_duplicates() && layers@[e]@.len() > 0 by {
                if e < d {
                    assert(layers@[e] == old_layers[e]);
                }
            }
            assert forall|e: int, v: Seq<char>| 0 <= e < layers@.len() implies
                (#[trigger] strings_view(layers@[e]@).contains(v) <==> at_distance(es, c, e as nat, v)) by {
                if e < d {
                    assert(layers@[e] == old_layers[e]);
                }
            }
        }
        frontier = next;
        proof {
            d = d + 1;
        }
    }
    proof {
        assert forall|v: Seq<char>| #[trigger] around(es, c, layers@.len()).contains(v)
            implies around(es, c, (layers@.len() - 1) as nat).contains(v) by {
            if !around(es, c, (d - 1) as nat).contains(v) {
                assert(at_distance(es, c, d, v));
                assert(strings_view(frontier@).contains(v));
            }
        }
    }
    layers
}


/// The label that the graph view gives to `rdfs:subClassOf`.
pub const SUBCLASS_LABEL: &'static str = "subClassOf";

/// Whether the edge makes `c` a subclass of `p`.
pub open spec fn sub_link(e: GraphEdge, p: Seq<char>, c: Seq<char>) -> bool {
    e.label@ == SUBCLASS_LABEL@ && e.to@ == p && e.from@ == c
}

/// Whether one of the edges makes `c` a subclass of `p`.
pub open spec fn parent_of(es: Seq<GraphEdge>, p: Seq<char>, c: Seq<char>) -> bool {
    exists|k: int| 0 <= k < es.len() && #[trigger] sub_link(es[k], p, c)
}

/// Whether one of the edges makes `n` a subclass of some node.
pub open spec fn has_parent(es: Seq<GraphEdge>, n: Seq<char>) -> bool {
    exists|k: int| 0 <= k < es.len() && #[trigger] sub_link(es[k], es[k].to@, n)
}

/// The nodes that are the subclass in no edge: the tops of the hierarchy.
pub open spec fn top_nodes(ns: Seq<Seq<char>>, es: Seq<GraphEdge>) -> Set<Seq<char>> {
    Set::new(|n: Seq<char>| ns.contains(n) && !has_parent(es, n))
}

/// The nodes reached from the nodes of `s` by exactly `k` steps from a
/// class to one of its subclasses.
pub open spec fn steps_below(es: Seq<GraphEdge>, s: Set<Seq<char>>, k: nat) -> Set<Seq<char>>
    decreases k,
{
    if k == 0 {
        s
    } else {
        let prev = steps_below(es, s, (k - 1) as nat);
        Set::new(|c: Seq<char>| exists|p: Seq<char>| #[trigger] prev.contains(p) && parent_of(es, p, c))
    }
}

/// The nodes reached from a top of the hierarchy by exactly `k` subclass
/// steps.
pub open spec fn level(ns: Seq<Seq<char>>, es: Seq<GraphEdge>, k: nat) -> Set<Seq<char>> {
    steps_below(es, top_nodes(ns, es), k)
}

/// Whether no node is reached by exactly `k` steps.
pub open spec fn level_empty(ns: Seq<Seq<char>>, es: Seq<GraphEdge>, k: nat) -> bool {
    forall|n: Seq<char>| !#[trigger] level(ns, es, k).contains(n)
}

/// Whether `k` is the greatest number of steps by which `n` is reached.
pub open spec fn deepest(ns: Seq<Seq<char>>, es: Seq<GraphEdge>, n: Seq<char>, k: nat) -> bool {
    level(ns, es, k).contains(n) && forall|j: nat| j > k ==> !#[trigger] level(ns, es, j).contains(n)
}

/// The texts that can be reached at all: the nodes and the subclasses of
/// the edges.
pub open spec fn level_pool(ns: Seq<Seq<char>>, es: Seq<GraphEdge>) -> Seq<Seq<char>> {
    ns + es.map_values(|e: GraphEdge| e.from@)
}

/// Every node reached is a node or the subclass of an edge.
proof fn lemma_level_in_pool(ns: Seq<Seq<char>>, es: Seq<GraphEdge>, k: nat, x: Seq<char>)
    requires
        level(ns, es, k).contains(x),
    ensures
        level_pool(ns, es).contains(x),
{
    let pool = level_pool(ns, es);
    if k == 0 {
        let i = choose|i: int| 0 <= i < ns.len() && ns[i] == x;
        assert(pool[i] == x);
    } else {
        let prev = level(ns, es, (k - 1) as nat);
        let p = choose|p: Seq<char>| #[trigger] prev.contains(p) && parent_of(es, p, x);
        let j = choose|j: int| 0 <= j < es.len() && #[trigger] sub_link(es[j], p, x);
        assert(pool[ns.len() + j] == x);
    }
}

/// A node reached by `k` steps ends a walk of `k` steps from a top.
proof fn lemma_walk(ns: Seq<Seq<char>>, es: Seq<GraphEdge>, x: Seq<char>, k: nat) -> (w: Seq<Seq<char>>)
    requires
        level(ns, es, k).contains(x),
    ensures
        w.len() == k + 1,
        w[k as int] == x,
        forall|i: int| 0 <= i <= k ==> #[trigger] level(ns, es, i as nat).contains(w[i]),
        forall|i: int| 0 <= i < k ==> #[trigger] parent_of(es, w[i], w[i + 1]),
    decreases k,
{
    if k == 0 {
        seq![x]
    } else {
        let prev = level(ns, es, (k - 1) as nat);
        let p = choose|p: Seq<char>| #[trigger] prev.contains(p) && parent_of(es, p, x);
        let w0 = lemma_walk(ns, es, p, (k - 1) as nat);
        let w = w0.push(x);
        assert forall|i: int| 0 <= i <= k implies #[trigger] level(ns, es, i as nat).contains(w[i]) by {
            if i < k {
                assert(w[i] == w0[i]);
            }
        }
        assert forall|i: int| 0 <= i < k implies #[trigger] parent_of(es, w[i], w[i + 1]) by {
            if i < k - 1 {
                assert(w[i] == w0[i]);
                assert(w[i + 1] == w0[i + 1]);
            } else {
                assert(w[i] == p);
            }
        }
        w
    }
}

/// Steps compose: `a + b` steps are `a` steps, then `b` more.
proof fn lemma_steps_compose(es: Seq<GraphEdge>, s: Set<Seq<char>>, a: nat, b: nat)
    ensures
        steps_below(es, s, a + b) == steps_below(es, steps_below(es, s, a), b),
    decreases b,
{
    if b > 0 {
        lemma_steps_compose(es, s, a, (b - 1) as nat);
        assert(steps_below(es, s, a + b) =~= steps_below(es, steps_below(es, s, a), b));
    }
}

/// More nodes to start from reach more nodes.
proof fn lemma_steps_monotone(es: Seq<GraphEdge>, s: Set<Seq<char>>, t: Set<Seq<char>>, k: nat)
    requires
        s.subset_of(t),
    ensures
        steps_below(es, s, k).subset_of(steps_below(es, t, k)),
    decreases k,
{
    if k > 0 {
        lemma_steps_monotone(es, s, t, (k - 1) as nat);
        let ps = steps_below(es, s, (k - 1) as nat);
        let pt = steps_below(es, t, (k - 1) as nat);
        assert forall|c: Seq<char>| steps_below(es, s, k).contains(c) implies steps_below(es, t, k).contains(c) by {
            let p = choose|p: Seq<char>| #[trigger] ps.contains(p) && parent_of(es, p, c);
            assert(pt.contains(p));
        }
    }
}

/// Along a walk, the node `m` places after `w[i]` is reached from it by
/// `m` steps.
proof fn lemma_walk_steps(es: Seq<GraphEdge>, w: Seq<Seq<char>>, i: int, m: nat)
    requires
        0 <= i,
        i + m < w.len(),
        forall|t: int| 0 <= t < w.len() - 1 ==> #[trigger] parent_of(es, w[t], w[t + 1]),
    ensures
        steps_below(es, set![w[i]], m).contains(w[i + m]),
    decreases m,
{
    if m > 0 {
        lemma_walk_steps(es, w, i, (m - 1) as nat);
        let t = i + m - 1;
        assert(parent_of(es, w[t], w[t + 1]));
        assert(steps_below(es, set![w[i]], (m - 1) as nat).contains(w[t]));
    }
}

/// A node that reaches itself in `l` steps and is reached in `i` steps is
/// reached again every `l` steps.
proof fn lemma_pump(ns: Seq<Seq<char>>, es: Seq<GraphEdge>, y: Seq<char>, i: nat, l: nat, m: nat)
    requires
        level(ns, es, i).contains(y),
        steps_below(es, set![y], l).contains(y),
    ensures
        level(ns, es, i + m * l).contains(y),
    decreases m,
{
    if m > 0 {
        lemma_pump(ns, es, y, i, l, (m - 1) as nat);
        let a = (i + (m - 1) * l) as nat;
        let top = top_nodes(ns, es);
        assert(set![y].subset_of(level(ns, es, a)));
        lemma_steps_monotone(es, set![y], level(ns, es, a), l);
        lemma_steps_compose(es, top, a, l);
        assert(a + l == i + m * l) by (nonlinear_arith)
            requires a == i + (m - 1) * l, m > 0;
        assert(steps_below(es, set![y], l).subset_of(steps_below(es, level(ns, es, a), l)));
        assert(steps_below(es, level(ns, es, a), l) == level(ns, es, a + l));
        assert(level(ns, es, a + l).contains(y));
    } else {
        assert(i + m * l == i) by (nonlinear_arith)
            requires m == 0;
    }
}

/// A level with a node follows a level with a node.
proof fn lemma_level_down(ns: Seq<Seq<char>>, es: Seq<GraphEdge>, j: nat, k: nat, x: Seq<char>)
    requires
        j <= k,
        level(ns, es, k).contains(x),
    ensures
        !level_empty(ns, es, j),
    decreases k - j,
{
    if j < k {
        let prev = level(ns, es, (k - 1) as nat);
        let p = choose|p: Seq<char>| #[trigger] prev.contains(p) && parent_of(es, p, x);
        lemma_level_down(ns, es, j, (k - 1) as nat, p);
    } else {
        assert(level(ns, es, j).contains(x));
    }
}

/// An empty level is followed by empty levels only.
proof fn lemma_level_empty_up(ns: Seq<Seq<char>>, es: Seq<GraphEdge>, k: nat, j: nat)
    requires
        level_empty(ns, es, k),
        k <= j,
    ensures
        level_empty(ns, es, j),
    decreases j - k,
{
    if k < j {
        lemma_level_empty_up(ns, es, k, (j - 1) as nat);
        let prev = level(ns, es, (j - 1) as nat);
        assert forall|n: Seq<char>| !#[trigger] level(ns, es, j).contains(n) by {
            if level(ns, es, j).contains(n) {
                let p = choose|p: Seq<char>| #[trigger] prev.contains(p) && parent_of(es, p, n);
                assert(prev.contains(p));
            }
        }
    }
}

/// Where some node is reached by more steps than there are texts to reach,
/// a walk repeats a node, and every level holds a node.
proof fn lemma_levels_never_end(ns: Seq<Seq<char>>, es: Seq<GraphEdge>, x: Seq<char>)
    requires
        level(ns, es, level_pool(ns, es).len()).contains(x),
    ensures
        forall|k: nat| !#[trigger] level_empty(ns, es, k),
{
    let pool = level_pool(ns, es);
    let b = pool.len();
    let w = lemma_walk(ns, es, x, b);
    assert forall|i: int| 0 <= i < w.len() implies pool.contains(#[trigger] w[i]) by {
        lemma_level_in_pool(ns, es, i as nat, w[i]);
    }
    if w.no_duplicates() {
        crate::outline::lemma_distinct_within(w, pool);
        assert(false);
    }
    let (i, j) = choose|i: int, j: int| 0 <= i < w.len() && 0 <= j < w.len() && i != j && w[i] == w[j];
    let (lo, hi) = if i < j { (i, j) } else { (j, i) };
    let y = w[lo];
    let l = (hi - lo) as nat;
    lemma_walk_steps(es, w, lo, l);
    assert(w[lo + l] == y);
    assert(level(ns, es, lo as nat).contains(y));
    assert forall|k: nat| !#[trigger] level_empty(ns, es, k) by {
        lemma_pump(ns, es, y, lo as nat, l, k);
        assert(lo + k * l >= k) by (nonlinear_arith)
            requires l >= 1, lo >= 0;
        lemma_level_down(ns, es, k, (lo + k * l) as nat, y);
    }
}


/// Whether `n` is reached by `j` steps and by no number of steps between
/// `j` and `k`.
pub open spec fn deepest_before(ns: Seq<Seq<char>>, es: Seq<GraphEdge>, n: Seq<char>, j: nat, k: nat) -> bool {
    level(ns, es, j).contains(n) && forall|m: nat| j < m < k ==> !#[trigger] level(ns, es, m).contains(n)
}

/// The names of placed nodes.
pub open spec fn placed_names(v: Seq<(String, usize)>) -> Seq<Seq<char>> {
    v.map_values(|e: (String, usize)| e.0@)
}

/// Whether an edge makes `n` a subclass of some node.
fn has_parent_exec(edges: &Vec<GraphEdge>, n: &String, sub: &String) -> (r: bool)
    requires
        sub@ == SUBCLASS_LABEL@,
    ensures
        r == has_parent(edges@, n@),
{
    let m = edges.len();
    let mut k: usize = 0;
    while k < m
        invariant
            k <= m,
            m == edges@.len(),
            sub@ == SUBCLASS_LABEL@,
            forall|j: int| 0 <= j < k ==> !#[trigger] sub_link(edges@[j], edges@[j].to@, n@),
        decreases m - k,
    {
        if edges[k].label == *sub && edges[k].from == *n {
            assert(sub_link(edges@[k as int], edges@[k as int].to@, n@));
            return true;
        }
        k += 1;
    }
    false
}

/// Adds to `next` the subclasses of `x` that it does not hold yet.
fn add_children(edges: &Vec<GraphEdge>, x: &String, sub: &String, next: &mut Vec<String>)
    requires
        sub@ == SUBCLASS_LABEL@,
        strings_view(old(next)@).no_duplicates(),
    ensures
        strings_view(final(next)@).no_duplicates(),
        forall|w: Seq<char>| #[trigger] strings_view(final(next)@).contains(w) <==> strings_view(old(next)@).contains(w)
            || parent_of(edges@, x@, w),
{
    let ghost start = strings_view(next@);
    let none: Vec<String> = Vec::new();
    assert(strings_view(none@) =~= Seq::<Seq<char>>::empty());
    let m = edges.len();
    let mut k: usize = 0;
    while k < m
        invariant
            k <= m,
            m == edges@.len(),
            sub@ == SUBCLASS_LABEL@,
            strings_view(none@) == Seq::<Seq<char>>::empty(),
            strings_view(next@).no_duplicates(),
            forall|w: Seq<char>| #[trigger] strings_view(next@).contains(w) <==> start.contains(w)
                || exists|j: int| 0 <= j < k && #[trigger] sub_link(edges@[j], x@, w),
        decreases m - k,
    {
        let ghost before = strings_view(next@);
        if edges[k].label == *sub && edges[k].to == *x {
            crate::ui::push_new(&none, next, edges[k].from.clone());
        }
        proof {
            assert forall|w: Seq<char>| #[trigger] strings_view(next@).contains(w) <==> start.contains(w)
                || exists|j: int| 0 <= j < k + 1 && #[trigger] sub_link(edges@[j], x@, w) by {
                if exists|j: int| 0 <= j < k + 1 && #[trigger] sub_link(edges@[j], x@, w) {
                    let j = choose|j: int| 0 <= j < k + 1 && #[trigger] sub_link(edges@[j], x@, w);
                    if j < k {
                        assert(before.contains(w));
                    }
                }
                if strings_view(next@).contains(w) && !before.contains(w) {
                    assert(sub_link(edges@[k as int], x@, w));
                }
            }
        }
        k += 1;
    }
}

/// Gives the node `x` the number `k`, replacing the number it had.
fn place(placed: &mut Vec<(String, usize)>, x: String, k: usize)
    requires
        placed_names(old(placed)@).no_duplicates(),
    ensures
        placed_names(final(placed)@).no_duplicates(),
        forall|i: int| 0 <= i < final(placed)@.len() ==> {
            &&& (#[trigger] final(placed)@[i]).0@ == x@ ==> final(placed)@[i].1 == k
            &&& final(placed)@[i].0@ != x@ ==> old(placed)@.contains(final(placed)@[i])
        },
        forall|j: int| 0 <= j < old(placed)@.len() ==> placed_names(final(placed)@).contains(#[trigger] old(placed)@[j].0@),
        placed_names(final(placed)@).contains(x@),
{
    let ghost before = placed@;
    let n = placed.len();
    let mut i: usize = 0;
    while i < n
        invariant
            i <= n,
            n == placed@.len(),
            placed@ == before,
            before == old(placed)@,
            placed_names(before).no_duplicates(),
            forall|j: int| 0 <= j < i ==> placed@[j].0@ != x@,
        decreases n - i,
    {
        if placed[i].0 == x {
            let ghost xv = x@;
            placed.set(i, (x, k));
            proof {
                assert(placed@[i as int].0@ == xv);
                assert(placed@[i as int].1 == k);
                assert(placed_names(placed@) =~= placed_names(before));
                assert forall|q: int| 0 <= q < placed@.len() implies {
                    &&& (#[trigger] placed@[q]).0@ == xv ==> placed@[q].1 == k
                    &&& placed@[q].0@ != xv ==> before.contains(placed@[q])
                } by {
                    if q != i {
                        assert(placed@[q] == before[q]);
                        assert(before.contains(before[q]));
                        assert(placed_names(before)[q] == before[q].0@);
                        assert(placed_names(before)[i as int] == before[i as int].0@);
                    }
                }
                assert forall|j: int| 0 <= j < before.len() implies placed_names(placed@).contains(#[trigger] before[j].0@) by {
                    assert(placed_names(placed@)[j] == before[j].0@);
                }
                assert(placed_names(placed@)[i as int] == x@);
            }
            return;
        }
        i += 1;
    }
    let ghost xv = x@;
    placed.push((x, k));
    proof {
        assert(placed_names(placed@) =~= placed_names(before).push(xv));
        assert forall|p: int, q: int| 0 <= p < q < placed_names(placed@).len() implies
            placed_names(placed@)[p] != placed_names(placed@)[q] by {
            if q == before.len() {
                assert(before[p].0@ != xv);
            }
        }
        assert forall|q: int| 0 <= q < placed@.len() implies {
            &&& (#[trigger] placed@[q]).0@ == xv ==> placed@[q].1 == k
            &&& placed@[q].0@ != xv ==> before.contains(placed@[q])
        } by {
            if q < before.len() {
                assert(placed@[q] == before[q]);
            }
        }
        assert forall|j: int| 0 <= j < before.len() implies placed_names(placed@).contains(#[trigger] before[j].0@) by {
            assert(placed_names(placed@)[j] == before[j].0@);
        }
        assert(placed_names(placed@)[before.len() as int] == xv);
    }
}

/// The depth of each node in the class hierarchy that the edges labelled
/// `subClassOf` draw, for the hierarchical layout: a node that is the
/// subclass in no edge is at depth 0, and every node reached from such a
/// node is at the greatest number of steps from class to subclass by which
/// it is reached; each is listed once. Where a cycle of subclasses can be
/// reached, so that nodes are reached by ever more steps, there is no such
/// depth and nothing is returned.
pub fn hierarchy_layers(nodes: &Vec<String>, edges: &Vec<GraphEdge>) -> (r: Option<Vec<(String, usize)>>)
    requires
        nodes@.len() + edges@.len() <= usize::MAX,
    ensures
        r is None <==> forall|k: nat| !#[trigger] level_empty(strings_view(nodes@), edges@, k),
        r matches Some(v) ==> {
            &&& placed_names(v@).no_duplicates()
            &&& forall|i: int| 0 <= i < v@.len() ==> #[trigger] deepest(strings_view(nodes@), edges@, v@[i].0@, v@[i].1 as nat)
            &&& forall|n: Seq<char>, k: nat| #[trigger] level(strings_view(nodes@), edges@, k).contains(n)
                ==> placed_names(v@).contains(n)
        },
{
    let ghost ns = strings_view(nodes@);
    let ghost es = edges@;
    let sub = SUBCLASS_LABEL.to_owned();
    let none: Vec<String> = Vec::new();
    assert(strings_view(none@) =~= Seq::<Seq<char>>::empty());
    let mut frontier: Vec<String> = Vec::new();
    let nn = nodes.len();
    let mut i: usize = 0;
    while i < nn
        invariant
            i <= nn,
            nn == nodes@.len(),
            ns == strings_view(nodes@),
            es == edges@,
            sub@ == SUBCLASS_LABEL@,
            strings_view(none@) == Seq::<Seq<char>>::empty(),
            strings_view(frontier@).no_duplicates(),
            forall|x: Seq<char>| #[trigger] strings_view(frontier@).contains(x) <==> ns.subrange(0, i as int).contains(x)
                && !has_parent(es, x),
        decreases nn - i,
    {
        let ghost before = strings_view(frontier@);
        proof {
            assert(ns.subrange(0, i + 1) =~= ns.subrange(0, i as int).push(ns[i as int]));
            crate::plugins::lemma_push_contains(ns.subrange(0, i as int), ns[i as int]);
        }
        if !has_parent_exec(edges, &nodes[i], &sub) {
            crate::ui::push_new(&none, &mut frontier, nodes[i].clone());
        }
        proof {
            assert(nodes@[i as int]@ == ns[i as int]);
        }
        i += 1;
    }
    proof {
        assert(ns.subrange(0, nn as int) =~= ns);
        assert forall|x: Seq<char>| #[trigger] strings_view(frontier@).contains(x) <==> level(ns, es, 0).contains(x) by {}
    }
    let bound = nodes.len() + edges.len();
    let mut placed: Vec<(String, usize)> = Vec::new();
    let mut k: usize = 0;
    assert(placed_names(placed@) =~= Seq::<Seq<char>>::empty());
    loop
        invariant
            k <= bound,
            bound == level_pool(ns, es).len(),
            ns == strings_view(nodes@),
            es == edges@,
            sub@ == SUBCLASS_LABEL@,
            strings_view(frontier@).no_duplicates(),
            forall|x: Seq<char>| #[trigger] strings_view(frontier@).contains(x) <==> level(ns, es, k as nat).contains(x),
            placed_names(placed@).no_duplicates(),
            forall|i: int| 0 <= i < placed@.len() ==> (#[trigger] placed@[i]).1 < k
                && deepest_before(ns, es, placed@[i].0@, placed@[i].1 as nat, k as nat),
            forall|n: Seq<char>, j: nat| j < k && #[trigger] level(ns, es, j).contains(n) ==> placed_names(placed@).contains(n),
        decreases bound - k,
    {
        if frontier.len() == 0 {
            proof {
                assert(level_empty(ns, es, k as nat)) by {
                    assert forall|n: Seq<char>| !#[trigger] level(ns, es, k as nat).contains(n) by {
                        if level(ns, es, k as nat).contains(n) {
                            assert(strings_view(frontier@).contains(n));
                        }
                    }
                }
                assert forall|i: int| 0 <= i < placed@.len() implies #[trigger] deepest(ns, es, placed@[i].0@, placed@[i].1 as nat) by {
                    let n = placed@[i].0@;
                    let j = placed@[i].1 as nat;
                    assert(deepest_before(ns, es, n, j, k as nat));
                    assert forall|m: nat| m > j implies !#[trigger] level(ns, es, m).contains(n) by {
                        if m >= k {
                            lemma_level_empty_up(ns, es, k as nat, m);
                        }
                    }
                }
                assert forall|n: Seq<char>, j: nat| #[trigger] level(ns, es, j).contains(n) implies placed_names(placed@).contains(n) by {
                    if j >= k {
                        lemma_level_empty_up(ns, es, k as nat, j);
                    }
                }
            }
            return Some(placed);
        }
        if k == bound {
            proof {
                assert(strings_view(frontier@).contains(strings_view(frontier@)[0]));
                lemma_levels_never_end(ns, es, strings_view(frontier@)[0]);
            }
            return None;
        }
        let ghost placed0 = placed@;
        let ghost front = strings_view(frontier@);
        let nf = frontier.len();
        let mut b: usize = 0;
        proof {
            assert forall|j: int| 0 <= j < placed0.len() implies placed_names(placed@).contains(#[trigger] placed0[j].0@) by {
                assert(placed_names(placed@)[j] == placed0[j].0@);
            }
        }
        while b < nf
            invariant
                b <= nf,
                nf == frontier@.len(),
                front == strings_view(frontier@),
                placed_names(placed@).no_duplicates(),
                forall|q: int| 0 <= q < placed@.len() ==> {
                    &&& front.subrange(0, b as int).contains((#[trigger] placed@[q]).0@) ==> placed@[q].1 == k
                    &&& !front.subrange(0, b as int).contains(placed@[q].0@) ==> placed0.contains(placed@[q])
                },
                forall|j: int| 0 <= j < placed0.len() ==> placed_names(placed@).contains(#[trigger] placed0[j].0@),
                forall|y: int| 0 <= y < b ==> placed_names(placed@).contains(#[trigger] front[y]),
                ns == strings_view(nodes@),
                es == edges@,
                k < bound,
                forall|x: Seq<char>| #[trigger] front.contains(x) <==> level(ns, es, k as nat).contains(x),
                forall|i: int| 0 <= i < placed0.len() ==> (#[trigger] placed0[i]).1 < k
                    && deepest_before(ns, es, placed0[i].0@, placed0[i].1 as nat, k as nat),
                forall|n: Seq<char>, j: nat| j < k && #[trigger] level(ns, es, j).contains(n) ==> placed_names(placed0).contains(n),
            decreases nf - b,
        {
            let ghost pre = placed@;
            let ghost x = front[b as int];
            proof {
                assert(frontier@[b as int]@ == x);
                assert(front.subrange(0, b + 1) =~= front.subrange(0, b as int).push(x));
                crate::plugins::lemma_push_contains(front.subrange(0, b as int), x);
            }
            place(&mut placed, frontier[b].clone(), k);
            proof {
                assert forall|q: int| 0 <= q < placed@.len() implies {
                    &&& front.subrange(0, b + 1).contains((#[trigger] placed@[q]).0@) ==> placed@[q].1 == k
                    &&& !front.subrange(0, b + 1).contains(placed@[q].0@) ==> placed0.contains(placed@[q])
                } by {
                    if placed@[q].0@ != x {
                        assert(pre.contains(placed@[q]));
                        let j = choose|j: int| 0 <= j < pre.len() && pre[j] == placed@[q];
                        assert(pre[j] == placed@[q]);
                        if front.subrange(0, b + 1).contains(placed@[q].0@) {
                            assert(front.subrange(0, b as int).contains(pre[j].0@));
                            assert(pre[j].1 == k);
                        } else {
                            assert(!front.subrange(0, b as int).contains(pre[j].0@));
                            assert(placed0.contains(pre[j]));
                        }
                    } else {
                        assert(front.subrange(0, b + 1)[b as int] == x);
                        assert(front.subrange(0, b + 1).contains(x));
                    }
                }
                assert forall|j: int| 0 <= j < placed0.len() implies placed_names(placed@).contains(#[trigger] placed0[j].0@) by {
                    let w = placed0[j].0@;
                    assert(placed_names(pre).contains(w));
                    let t = choose|t: int| 0 <= t < placed_names(pre).len() && placed_names(pre)[t] == w;
                    assert(pre[t].0@ == w);
                }
                assert forall|y: int| 0 <= y < b + 1 implies placed_names(placed@).contains(#[trigger] front[y]) by {
                    if y < b {
                        let w = front[y];
                        assert(placed_names(pre).contains(w));
                        let t = choose|t: int| 0 <= t < placed_names(pre).len() && placed_names(pre)[t] == w;
                        assert(pre[t].0@ == w);
                    }
                }
            }
            b += 1;
        }
        proof {
            assert(front.subrange(0, nf as int) =~= front);
            assert forall|i: int| 0 <= i < placed@.len() implies (#[trigger] placed@[i]).1 < k + 1
                && deepest_before(ns, es, placed@[i].0@, placed@[i].1 as nat, (k + 1) as nat) by {
                let n = placed@[i].0@;
                if front.contains(n) {
                    assert(placed@[i].1 == k);
                } else {
                    let j = choose|j: int| 0 <= j < placed0.len() && placed0[j] == placed@[i];
                    assert(deepest_before(ns, es, placed0[j].0@, placed0[j].1 as nat, k as nat));
                    assert(!level(ns, es, k as nat).contains(n));
                }
            }
            assert forall|n: Seq<char>, j: nat| j < k + 1 && #[trigger] level(ns, es, j).contains(n)
                implies placed_names(placed@).contains(n) by {
                if j < k {
                    assert(placed_names(placed0).contains(n));
                    let t = choose|t: int| 0 <= t < placed_names(placed0).len() && placed_names(placed0)[t] == n;
                    assert(placed0[t].0@ == n);
                } else {
                    assert(front.contains(n));
                    let y = choose|y: int| 0 <= y < front.len() && front[y] == n;
                    assert(placed_names(placed@).contains(front[y]));
                }
            }
        }
        let mut next: Vec<String> = Vec::new();
        assert(strings_view(next@) =~= Seq::<Seq<char>>::empty());
        let mut c: usize = 0;
        while c < nf
            invariant
                c <= nf,
                nf == frontier@.len(),
                front == strings_view(frontier@),
                es == edges@,
                sub@ == SUBCLASS_LABEL@,
                strings_view(next@).no_duplicates(),
                forall|w: Seq<char>| #[trigger] strings_view(next@).contains(w) <==> exists|y: int| 0 <= y < c
                    && #[trigger] parent_of(es, front[y], w),
                k < bound,
                ns == strings_view(nodes@),
                forall|x: Seq<char>| #[trigger] front.contains(x) <==> level(ns, es, k as nat).contains(x),
                placed_names(placed@).no_duplicates(),
                forall|i: int| 0 <= i < placed@.len() ==> (#[trigger] placed@[i]).1 < k + 1
                    && deepest_before(ns, es, placed@[i].0@, placed@[i].1 as nat, (k + 1) as nat),
                forall|n: Seq<char>, j: nat| j < k + 1 && #[trigger] level(ns, es, j).contains(n) ==> placed_names(placed@).contains(n),
            decreases nf - c,
        {
            let ghost before = strings_view(next@);
            add_children(edges, &frontier[c], &sub, &mut next);
            proof {
                assert(frontier@[c as int]@ == front[c as int]);
                assert forall|w: Seq<char>| #[trigger] strings_view(next@).contains(w) <==> exists|y: int| 0 <= y < c + 1
                    && #[trigger] parent_of(es, front[y], w) by {
                    if exists|y: int| 0 <= y < c + 1 && #[trigger] parent_of(es, front[y], w) {
                        let y = choose|y: int| 0 <= y < c + 1 && #[trigger] parent_of(es, front[y], w);
                        if y < c {
                            assert(before.contains(w));
                        }
                    }
                    if strings_view(next@).contains(w) && !before.contains(w) {
                        assert(parent_of(es, front[c as int], w));
                    }
                }
            }
            c += 1;
        }
        proof {
            let prev = level(ns, es, k as nat);
            assert forall|x: Seq<char>| #[trigger] strings_view(next@).contains(x) <==> level(ns, es, (k + 1) as nat).contains(x) by {
                if strings_view(next@).contains(x) {
                    let y = choose|y: int| 0 <= y < nf && #[trigger] parent_of(es, front[y], x);
                    assert(front.contains(front[y]));
                    assert(prev.contains(front[y]));
                }
                if level(ns, es, (k + 1) as nat).contains(x) {
                    let p = choose|p: Seq<char>| #[trigger] prev.contains(p) && parent_of(es, p, x);
                    assert(front.contains(p));
                    let y = choose|y: int| 0 <= y < front.len() && front[y] == p;
                    assert(parent_of(es, front[y], x));
                }
            }
        }
        frontier = next;
        k += 1;
    }
}


/// Whether one of the edges joins `a` and `b`, in either direction.
pub fn are_joined(edges: &Vec<GraphEdge>, a: &String, b: &String) -> (r: bool)
    ensures
        r == joined(edges@, a@, b@),
{
    let n = edges.len();
    let mut k: usize = 0;
    while k < n
        invariant
            k <= n,
            n == edges@.len(),
            forall|j: int| 0 <= j < k ==> !#[trigger] edge_joins(edges@[j], a@, b@),
        decreases n - k,
    {
        let e = &edges[k];
        if (e.from == *a && e.to == *b) || (e.to == *a && e.from == *b) {
            assert(edge_joins(edges@[k as int], a@, b@));
            return true;
        }
        k += 1;
    }
    false
}

/// The number of edges that end at `u`.
pub open spec fn in_degree(es: Seq<GraphEdge>, u: Seq<char>) -> nat
    decreases es.len(),
{
    if es.len() == 0 {
        0
    } else {
        in_degree(es.drop_last(), u) + if es.last().to@ == u { 1nat } else { 0nat }
    }
}

/// The number of edges that start at `u`.
pub open spec fn out_degree(es: Seq<GraphEdge>, u: Seq<char>) -> nat
    decreases es.len(),
{
    if es.len() == 0 {
        0
    } else {
        out_degree(es.drop_last(), u) + if es.last().from@ == u { 1nat } else { 0nat }
    }
}

/// The numbers of edges that end and that start at `u`, which the graph
/// view shows beside a node under the pointer.
pub fn edge_degrees(edges: &Vec<GraphEdge>, u: &String) -> (r: (usize, usize))
    ensures
        r.0 == in_degree(edges@, u@),
        r.1 == out_degree(edges@, u@),
{
    let n = edges.len();
    let mut k: usize = 0;
    let mut ins: usize = 0;
    let mut outs: usize = 0;
    while k < n
        invariant
            k <= n,
            n == edges@.len(),
            ins == in_degree(edges@.subrange(0, k as int), u@),
            outs == out_degree(edges@.subrange(0, k as int), u@),
            ins <= k,
            outs <= k,
        decreases n - k,
    {
        assert(edges@.subrange(0, k + 1).drop_last() =~= edges@.subrange(0, k as int));
        if edges[k].to == *u {
            ins += 1;
        }
        if edges[k].from == *u {
            outs += 1;
        }
        k += 1;
    }
    assert(edges@.subrange(0, n as int) =~= edges@);
    (ins, outs)
}

/// In the hierarchical layout a subclass lies below its class: where both
/// have a depth, the subclass's is the greater.
pub proof fn law_subclass_below(ns: Seq<Seq<char>>, es: Seq<GraphEdge>, p: Seq<char>, c: Seq<char>, dp: nat, dc: nat)
    requires
        deepest(ns, es, p, dp),
        deepest(ns, es, c, dc),
        parent_of(es, p, c),
    ensures
        dc > dp,
{
    assert(level(ns, es, dp + 1).contains(c));
}
} // verus!
