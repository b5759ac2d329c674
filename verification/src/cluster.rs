//! Clusters of items that are joined, directly or through others.

use crate::reals::Real;
use vstd::prelude::*;

verus! {

/// Whether edges join items among the first `n`.
pub open spec fn within(edges: Seq<(usize, usize)>, n: int) -> bool {
    forall|k: int| 0 <= k < edges.len() ==> (#[trigger] edges[k]).0 < n && edges[k].1 < n
}

/// The item that stands for the cluster of each of `n` items once the first `k` edges are
/// taken in: each edge puts the cluster of its first end under what stands for its second.
pub open spec fn leaders(n: nat, edges: Seq<(usize, usize)>, k: nat) -> Seq<int>
    decreases k,
{
    if k == 0 {
        Seq::new(n, |x: int| x)
    } else {
        let was = leaders(n, edges, (k - 1) as nat);
        let (i, j) = edges[k - 1];
        Seq::new(
            n,
            |x: int|
                if was[x] == was[i as int] {
                    was[j as int]
                } else {
                    was[x]
                },
        )
    }
}

/// Whether `x` and `y` are the ends of one edge.
pub open spec fn edge_between(edges: Seq<(usize, usize)>, x: int, y: int) -> bool {
    exists|k: int|
        0 <= k < edges.len() && ((#[trigger] edges[k]).0 == x && edges[k].1 == y || edges[k].0 == y
            && edges[k].1 == x)
}

/// Whether `path` leads along edges from its first item to its last.
pub open spec fn is_path(edges: Seq<(usize, usize)>, path: Seq<int>) -> bool {
    &&& path.len() > 0
    &&& forall|a: int|
        0 <= a < path.len() - 1 ==> edge_between(edges, #[trigger] path[a], path[a + 1])
}

/// Whether edges lead from `x` to `y`.
pub open spec fn connected(edges: Seq<(usize, usize)>, x: int, y: int) -> bool {
    exists|path: Seq<int>| #[trigger]
        is_path(edges, path) && path[0] == x && path.last() == y
}

/// The items, in order, that `leader` stands for.
pub open spec fn members(leads: Seq<int>, leader: int, upto: int) -> Seq<usize>
    decreases upto,
{
    if upto <= 0 {
        Seq::empty()
    } else if leads[upto - 1] == leader {
        members(leads, leader, upto - 1).push((upto - 1) as usize)
    } else {
        members(leads, leader, upto - 1)
    }
}

/// The clusters of more than one item, in the order of the items below `upto` that stand
/// for them.
pub open spec fn groups(leads: Seq<int>, upto: int) -> Seq<Seq<usize>>
    decreases upto,
{
    if upto <= 0 {
        Seq::empty()
    } else {
        let group = members(leads, upto - 1, leads.len() as int);
        if group.len() > 1 {
            groups(leads, upto - 1).push(group)
        } else {
            groups(leads, upto - 1)
        }
    }
}

/// The clusters that edges make of `n` items.
pub open spec fn clusters(n: nat, edges: Seq<(usize, usize)>) -> Seq<Seq<usize>> {
    groups(leaders(n, edges, edges.len()), n as int)
}

/// Whether `parent` is a forest in which every item leads to the item in `leads`, each
/// step of the way lowering `depth`.
spec fn is_forest(parent: Seq<usize>, leads: Seq<int>, depth: Seq<nat>) -> bool {
    &&& leads.len() == parent.len()
    &&& depth.len() == parent.len()
    &&& forall|x: int|
        0 <= x < parent.len() ==> {
            &&& (#[trigger] parent[x]) < parent.len()
            &&& 0 <= leads[x] < parent.len()
            &&& leads[parent[x] as int] == leads[x]
            &&& parent[x] == x <==> leads[x] == x
            &&& depth[x] == 0 <==> leads[x] == x
            &&& parent[x] != x ==> depth[parent[x] as int] < depth[x]
        }
}

/// The item that stands for the cluster of `x`. The items on the way are put under it.
fn find(
    parent: &mut Vec<usize>,
    x: usize,
    Ghost(leads): Ghost<Seq<int>>,
    Ghost(depth): Ghost<Seq<nat>>,
) -> (r: usize)
    requires
        x < old(parent)@.len(),
        is_forest(old(parent)@, leads, depth),
    ensures
        final(parent)@.len() == old(parent)@.len(),
        is_forest(final(parent)@, leads, depth),
        r == leads[x as int],
        r < final(parent)@.len(),
{
    let mut root: usize = x;
    while parent[root] != root
        invariant
            root < parent@.len(),
            x < parent@.len(),
            is_forest(parent@, leads, depth),
            leads[root as int] == leads[x as int],
        decreases depth[root as int],
    {
        root = parent[root];
    }
    let mut cur: usize = x;
    while parent[cur] != root
        invariant
            root < parent@.len(),
            cur < parent@.len(),
            parent@.len() == old(parent)@.len(),
            is_forest(parent@, leads, depth),
            parent@[root as int] == root,
            leads[root as int] == root,
            leads[cur as int] == root,
        decreases depth[cur as int],
    {
        let next = parent[cur];
        let ghost was = parent@;
        assert(was[cur as int] < was.len());
        parent.set(cur, root);
        proof {
            assert forall|y: int| 0 <= y < parent@.len() implies {
                &&& (#[trigger] parent@[y]) < parent@.len()
                &&& 0 <= leads[y] < parent@.len()
                &&& leads[parent@[y] as int] == leads[y]
                &&& parent@[y] == y <==> leads[y] == y
                &&& depth[y] == 0 <==> leads[y] == y
                &&& parent@[y] != y ==> depth[parent@[y] as int] < depth[y]
            } by {
                assert(was[y] < was.len());
                assert(was[root as int] == root);
            }
        }
        cur = next;
    }
    root
}

/// The ends of edges that carry a probability.
pub open spec fn ends(edges: Seq<(usize, usize, Real)>) -> Seq<(usize, usize)> {
    edges.map_values(|e: (usize, usize, Real)| (e.0, e.1))
}

/// What lists of items hold.
pub open spec fn lists(groups: Seq<Vec<usize>>) -> Seq<Seq<usize>> {
    groups.map_values(|g: Vec<usize>| g@)
}

/// The clusters of more than one item that edges make of `n` items.
pub fn clusters_from_edges(n: usize, edges: &Vec<(usize, usize, Real)>) -> (r: Vec<Vec<usize>>)
    requires
        within(ends(edges@), n as int),
    ensures
        lists(r@) == clusters(n as nat, ends(edges@)),
{
    let ghost pairs = ends(edges@);
    let mut parent: Vec<usize> = Vec::new();
    let mut x: usize = 0;
    while x < n
        invariant
            x <= n,
            parent@.len() == x,
            forall|y: int| 0 <= y < x ==> #[trigger] parent@[y] == y,
        decreases n - x,
    {
        parent.push(x);
        x = x + 1;
    }
    let ghost mut leads = leaders(n as nat, pairs, 0);
    let ghost mut depth: Seq<nat> = Seq::new(n as nat, |y: int| 0nat);
    let mut k: usize = 0;
    while k < edges.len()
        invariant
            k <= edges@.len(),
            parent@.len() == n,
            pairs == ends(edges@),
            within(pairs, n as int),
            leads == leaders(n as nat, pairs, k as nat),
            is_forest(parent@, leads, depth),
        decreases edges.len() - k,
    {
        let i = edges[k].0;
        let j = edges[k].1;
        assert(pairs[k as int] == (i, j));
        let ri = find(&mut parent, i, Ghost(leads), Ghost(depth));
        let rj = find(&mut parent, j, Ghost(leads), Ghost(depth));
        let ghost was = parent@;
        let ghost had = leads;
        let ghost deep = depth;
        proof {
            leads = leaders(n as nat, pairs, (k + 1) as nat);
        }
        if ri != rj {
            parent.set(ri, rj);
            proof {
                depth = Seq::new(
                    n as nat,
                    |y: int|
                        if had[y] == ri {
                            deep[y] + 1
                        } else {
                            deep[y]
                        },
                );
                assert(was[ri as int] < n && was[rj as int] < n);
                assert(had[ri as int] == ri && had[rj as int] == rj) by {
                    assert(was[i as int] < n && was[j as int] < n);
                    lemma_leader_leads(was, had, deep, i as int);
                    lemma_leader_leads(was, had, deep, j as int);
                }
                assert forall|y: int| 0 <= y < parent@.len() implies {
                    &&& (#[trigger] parent@[y]) < parent@.len()
                    &&& 0 <= leads[y] < parent@.len()
                    &&& leads[parent@[y] as int] == leads[y]
                    &&& parent@[y] == y <==> leads[y] == y
                    &&& depth[y] == 0 <==> leads[y] == y
                    &&& parent@[y] != y ==> depth[parent@[y] as int] < depth[y]
                } by {
                    assert(was[y] < was.len());
                    lemma_leader_leads(was, had, deep, y);
                }
            }
        } else {
            proof {
                assert(leads =~= had);
            }
        }
        k = k + 1;
    }
    let mut roots: Vec<usize> = Vec::new();
    let mut x: usize = 0;
    while x < n
        invariant
            x <= n,
            parent@.len() == n,
            is_forest(parent@, leads, depth),
            roots@.len() == x,
            forall|y: int| 0 <= y < x ==> #[trigger] roots@[y] == leads[y],
        decreases n - x,
    {
        let root = find(&mut parent, x, Ghost(leads), Ghost(depth));
        roots.push(root);
        x = x + 1;
    }
    let mut found: Vec<Vec<usize>> = Vec::new();
    let mut leader: usize = 0;
    assert(lists(found@) =~= groups(leads, 0));
    while leader < n
        invariant
            leader <= n,
            leads.len() == n,
            roots@.len() == n,
            forall|y: int| 0 <= y < n ==> #[trigger] roots@[y] == leads[y],
            lists(found@) == groups(leads, leader as int),
        decreases n - leader,
    {
        let mut group: Vec<usize> = Vec::new();
        let mut x: usize = 0;
        while x < n
            invariant
                x <= n,
                leads.len() == n,
                roots@.len() == n,
                forall|y: int| 0 <= y < n ==> #[trigger] roots@[y] == leads[y],
                group@ == members(leads, leader as int, x as int),
            decreases n - x,
        {
            assert(roots@[x as int] == leads[x as int]);
            if roots[x] == leader {
                group.push(x);
            }
            x = x + 1;
        }
        if group.len() > 1 {
            let ghost had = found@;
            let ghost held = group@;
            found.push(group);
            assert(lists(found@) =~= lists(had).push(held));
        }
        leader = leader + 1;
    }
    found
}

/// What stands for a cluster stands for itself.
proof fn lemma_leader_leads(parent: Seq<usize>, leads: Seq<int>, depth: Seq<nat>, x: int)
    requires
        is_forest(parent, leads, depth),
        0 <= x < parent.len(),
    ensures
        leads[leads[x]] == leads[x],
    decreases depth[x],
{
    assert(parent[x] < parent.len());
    if parent[x] != x {
        lemma_leader_leads(parent, leads, depth, parent[x] as int);
    }
}

proof fn lemma_leaders_range(n: nat, edges: Seq<(usize, usize)>, k: nat)
    requires
        within(edges, n as int),
        k <= edges.len(),
    ensures
        leaders(n, edges, k).len() == n,
        forall|x: int| 0 <= x < n ==> 0 <= #[trigger] leaders(n, edges, k)[x] < n,
    decreases k,
{
    if k > 0 {
        lemma_leaders_range(n, edges, (k - 1) as nat);
        assert(edges[k - 1].0 < n);
    }
}

proof fn lemma_connected_self(edges: Seq<(usize, usize)>, x: int)
    ensures
        connected(edges, x, x),
{
    assert(is_path(edges, seq![x]));
    assert(seq![x][0] == x && seq![x].last() == x);
}

proof fn lemma_connected_edge(edges: Seq<(usize, usize)>, k: int)
    requires
        0 <= k < edges.len(),
    ensures
        connected(edges, edges[k].0 as int, edges[k].1 as int),
{
    let path = seq![edges[k].0 as int, edges[k].1 as int];
    assert(edge_between(edges, path[0], path[1]));
    assert(is_path(edges, path));
    assert(path[0] == edges[k].0 && path.last() == edges[k].1);
}

proof fn lemma_connected_back(edges: Seq<(usize, usize)>, x: int, y: int)
    requires
        connected(edges, x, y),
    ensures
        connected(edges, y, x),
{
    let path = choose|path: Seq<int>| #[trigger]
        is_path(edges, path) && path[0] == x && path.last() == y;
    let back = path.reverse();
    assert forall|a: int| 0 <= a < back.len() - 1 implies edge_between(
        edges,
        #[trigger] back[a],
        back[a + 1],
    ) by {
        let b = path.len() - 2 - a;
        assert(edge_between(edges, path[b], path[b + 1]));
        let k = choose|k: int|
            0 <= k < edges.len() && ((#[trigger] edges[k]).0 == path[b] && edges[k].1 == path[b + 1]
                || edges[k].0 == path[b + 1] && edges[k].1 == path[b]);
        assert(edges[k].0 == back[a] && edges[k].1 == back[a + 1] || edges[k].0 == back[a + 1]
            && edges[k].1 == back[a]);
    }
    assert(is_path(edges, back));
    assert(back[0] == y && back.last() == x);
}

proof fn lemma_connected_through(edges: Seq<(usize, usize)>, x: int, y: int, z: int)
    requires
        connected(edges, x, y),
        connected(edges, y, z),
    ensures
        connected(edges, x, z),
{
    let p = choose|path: Seq<int>| #[trigger]
        is_path(edges, path) && path[0] == x && path.last() == y;
    let q = choose|path: Seq<int>| #[trigger]
        is_path(edges, path) && path[0] == y && path.last() == z;
    let all = p + q.skip(1);
    assert forall|a: int| 0 <= a < all.len() - 1 implies edge_between(
        edges,
        #[trigger] all[a],
        all[a + 1],
    ) by {
        if a < p.len() - 1 {
            assert(edge_between(edges, p[a], p[a + 1]));
        } else {
            let b = a - (p.len() - 1);
            assert(all[a] == q[b]);
            assert(all[a + 1] == q[b + 1]);
            assert(edge_between(edges, q[b], q[b + 1]));
        }
    }
    assert(is_path(edges, all));
    assert(all[0] == x && all.last() == z);
}

proof fn lemma_leader_connected(n: nat, edges: Seq<(usize, usize)>, k: nat, x: int)
    requires
        within(edges, n as int),
        k <= edges.len(),
        0 <= x < n,
    ensures
        connected(edges, x, leaders(n, edges, k)[x]),
    decreases k,
{
    if k == 0 {
        lemma_connected_self(edges, x);
    } else {
        let m = (k - 1) as nat;
        let was = leaders(n, edges, m);
        let i = edges[k - 1].0 as int;
        let j = edges[k - 1].1 as int;
        lemma_leader_connected(n, edges, m, x);
        if was[x] == was[i] {
            lemma_leader_connected(n, edges, m, i);
            lemma_leader_connected(n, edges, m, j);
            lemma_connected_back(edges, i, was[i]);
            lemma_connected_through(edges, x, was[x], i);
            lemma_connected_edge(edges, k - 1);
            lemma_connected_through(edges, x, i, j);
            lemma_connected_through(edges, x, j, was[j]);
        }
    }
}

proof fn lemma_ends_share_leader(n: nat, edges: Seq<(usize, usize)>, k: nat, e: int)
    requires
        within(edges, n as int),
        k <= edges.len(),
        0 <= e < k,
    ensures
        leaders(n, edges, k)[edges[e].0 as int] == leaders(n, edges, k)[edges[e].1 as int],
    decreases k,
{
    assert(edges[e].0 < n && edges[e].1 < n);
    if e < k - 1 {
        lemma_ends_share_leader(n, edges, (k - 1) as nat, e);
    }
}

proof fn lemma_path_shares_leader(n: nat, edges: Seq<(usize, usize)>, path: Seq<int>, a: int)
    requires
        within(edges, n as int),
        is_path(edges, path),
        0 <= a < path.len(),
    ensures
        leaders(n, edges, edges.len())[path[0]] == leaders(n, edges, edges.len())[path[a]],
    decreases a,
{
    if a > 0 {
        lemma_path_shares_leader(n, edges, path, a - 1);
        assert(edge_between(edges, path[a - 1], path[a - 1 + 1]));
        let k = choose|k: int|
            0 <= k < edges.len() && ((#[trigger] edges[k]).0 == path[a - 1] && edges[k].1 == path[a]
                || edges[k].0 == path[a] && edges[k].1 == path[a - 1]);
        lemma_ends_share_leader(n, edges, edges.len(), k);
    }
}

/// Two items have one leader exactly where edges lead from one to the other.
pub proof fn law_leader_is_component(n: nat, edges: Seq<(usize, usize)>, x: int, y: int)
    requires
        within(edges, n as int),
        0 <= x < n,
        0 <= y < n,
    ensures
        leaders(n, edges, edges.len())[x] == leaders(n, edges, edges.len())[y] <==> connected(
            edges,
            x,
            y,
        ),
{
    let leads = leaders(n, edges, edges.len());
    if leads[x] == leads[y] {
        lemma_leader_connected(n, edges, edges.len(), x);
        lemma_leader_connected(n, edges, edges.len(), y);
        lemma_connected_back(edges, y, leads[y]);
        lemma_connected_through(edges, x, leads[x], y);
    }
    if connected(edges, x, y) {
        let path = choose|path: Seq<int>| #[trigger]
            is_path(edges, path) && path[0] == x && path.last() == y;
        lemma_path_shares_leader(n, edges, path, path.len() - 1);
    }
}

/// The members below `upto` of the cluster of `leader` are the items that it stands for,
/// each once, in order.
proof fn lemma_members(leads: Seq<int>, leader: int, upto: int)
    requires
        0 <= upto <= leads.len() <= usize::MAX,
    ensures
        forall|x: int|
            0 <= x < upto ==> (members(leads, leader, upto).contains(x as usize) <==> #[trigger] leads[x]
                == leader),
        forall|a: int|
            0 <= a < members(leads, leader, upto).len() ==> (#[trigger] members(
                leads,
                leader,
                upto,
            )[a]) < upto,
        forall|a: int, b: int|
            0 <= a < b < members(leads, leader, upto).len() ==> (#[trigger] members(
                leads,
                leader,
                upto,
            )[a]) < (#[trigger] members(leads, leader, upto)[b]),
    decreases upto,
{
    if upto > 0 {
        lemma_members(leads, leader, upto - 1);
        let was = members(leads, leader, upto - 1);
        let now = members(leads, leader, upto);
        assert forall|x: int| 0 <= x < upto implies (now.contains(x as usize) <==> #[trigger] leads[x]
            == leader) by {
            if x == upto - 1 {
                if leads[x] == leader {
                    assert(now[now.len() - 1] == x as usize);
                }
            } else {
                if was.contains(x as usize) {
                    let a = was.index_of(x as usize);
                    assert(now[a] == x as usize);
                }
                if now.contains(x as usize) {
                    let a = now.index_of(x as usize);
                    assert(now[a] != (upto - 1) as usize);
                    assert(was[a] == x as usize);
                }
            }
        }
    }
}

/// Each cluster below `upto` is that of one leader, and those with more than one member
/// are all there.
proof fn lemma_groups(leads: Seq<int>, upto: int)
    requires
        0 <= upto <= leads.len(),
    ensures
        forall|c: int|
            0 <= c < groups(leads, upto).len() ==> exists|l: int|
                0 <= l < upto && #[trigger] groups(leads, upto)[c] == #[trigger] members(
                    leads,
                    l,
                    leads.len() as int,
                ) && groups(leads, upto)[c].len() > 1,
        forall|l: int|
            0 <= l < upto && (#[trigger] members(leads, l, leads.len() as int)).len() > 1 ==> groups(
                leads,
                upto,
            ).contains(members(leads, l, leads.len() as int)),
    decreases upto,
{
    if upto > 0 {
        lemma_groups(leads, upto - 1);
        let was = groups(leads, upto - 1);
        let now = groups(leads, upto);
        let last = members(leads, upto - 1, leads.len() as int);
        assert forall|c: int| 0 <= c < now.len() implies exists|l: int|
            0 <= l < upto && #[trigger] now[c] == #[trigger] members(leads, l, leads.len() as int)
                && now[c].len() > 1 by {
            if c < was.len() {
                assert(now[c] == was[c]);
            } else {
                assert(now[c] == last);
            }
        }
        assert forall|l: int|
            0 <= l < upto && (#[trigger] members(leads, l, leads.len() as int)).len() > 1 implies now.contains(
            members(leads, l, leads.len() as int),
        ) by {
            let group = members(leads, l, leads.len() as int);
            if l < upto - 1 {
                let c = was.index_of(group);
                assert(was.contains(group));
                assert(now[c] == group);
            } else {
                assert(now[now.len() - 1] == group);
            }
        }
    }
}

/// A cluster has more than one item, all of them among the `n`, in ascending order.
pub proof fn law_clusters_are_lists(n: nat, edges: Seq<(usize, usize)>, c: int)
    requires
        within(edges, n as int),
        n <= usize::MAX,
        0 <= c < clusters(n, edges).len(),
    ensures
        clusters(n, edges)[c].len() > 1,
        forall|a: int|
            0 <= a < clusters(n, edges)[c].len() ==> (#[trigger] clusters(n, edges)[c][a]) < n,
        forall|a: int, b: int|
            0 <= a < b < clusters(n, edges)[c].len() ==> (#[trigger] clusters(n, edges)[c][a])
                < (#[trigger] clusters(n, edges)[c][b]),
{
    let leads = leaders(n, edges, edges.len());
    lemma_leaders_range(n, edges, edges.len());
    lemma_groups(leads, n as int);
    let l = choose|l: int|
        0 <= l < n && #[trigger] groups(leads, n as int)[c] == #[trigger] members(
            leads,
            l,
            leads.len() as int,
        ) && groups(leads, n as int)[c].len() > 1;
    lemma_members(leads, l, n as int);
}

/// Two items are in one cluster exactly where edges lead from one to the other.
pub proof fn law_clusters_are_components(n: nat, edges: Seq<(usize, usize)>, x: usize, y: usize)
    requires
        within(edges, n as int),
        n <= usize::MAX,
        x < n,
        y < n,
        x != y,
    ensures
        (exists|c: int|
            0 <= c < clusters(n, edges).len() && (#[trigger] clusters(n, edges)[c]).contains(x)
                && clusters(n, edges)[c].contains(y)) <==> connected(edges, x as int, y as int),
{
    let leads = leaders(n, edges, edges.len());
    let all = clusters(n, edges);
    lemma_leaders_range(n, edges, edges.len());
    lemma_groups(leads, n as int);
    law_leader_is_component(n, edges, x as int, y as int);
    if connected(edges, x as int, y as int) {
        let l = leads[x as int];
        let group = members(leads, l, n as int);
        lemma_members(leads, l, n as int);
        assert(leads[y as int] == l);
        assert(group.contains(x) && group.contains(y));
        let a = group.index_of(x);
        let b = group.index_of(y);
        assert(a != b);
        assert(group.len() > 1);
        assert(all.contains(group));
        let c = all.index_of(group);
        assert(all[c].contains(x) && all[c].contains(y));
    }
    if exists|c: int|
        0 <= c < all.len() && (#[trigger] all[c]).contains(x) && all[c].contains(y) {
        let c = choose|c: int|
            0 <= c < all.len() && (#[trigger] all[c]).contains(x) && all[c].contains(y);
        let l = choose|l: int|
            0 <= l < n && #[trigger] groups(leads, n as int)[c] == #[trigger] members(
                leads,
                l,
                leads.len() as int,
            ) && groups(leads, n as int)[c].len() > 1;
        lemma_members(leads, l, n as int);
        assert(leads[x as int] == l);
        assert(leads[y as int] == l);
    }
}

/// No item is in two clusters.
pub proof fn law_clusters_are_disjoint(n: nat, edges: Seq<(usize, usize)>, c: int, d: int, x: usize)
    requires
        within(edges, n as int),
        n <= usize::MAX,
        0 <= c < clusters(n, edges).len(),
        0 <= d < clusters(n, edges).len(),
        clusters(n, edges)[c].contains(x),
        clusters(n, edges)[d].contains(x),
    ensures
        c == d,
{
    let leads = leaders(n, edges, edges.len());
    lemma_leaders_range(n, edges, edges.len());
    lemma_groups_by_leader(leads, n as int, x, c);
    lemma_groups_by_leader(leads, n as int, x, d);
    lemma_one_group(leads, n as int, leads[x as int], c, d);
}

/// A cluster that holds `x` is that of the leader of `x`.
proof fn lemma_groups_by_leader(leads: Seq<int>, upto: int, x: usize, c: int)
    requires
        0 <= upto <= leads.len() <= usize::MAX,
        0 <= c < groups(leads, upto).len(),
        groups(leads, upto)[c].contains(x),
    ensures
        x < leads.len(),
        0 <= leads[x as int] < upto,
        groups(leads, upto)[c] == members(leads, leads[x as int], leads.len() as int),
{
    lemma_groups(leads, upto);
    let l = choose|l: int|
        0 <= l < upto && #[trigger] groups(leads, upto)[c] == #[trigger] members(
            leads,
            l,
            leads.len() as int,
        ) && groups(leads, upto)[c].len() > 1;
    lemma_members(leads, l, leads.len() as int);
    let a = groups(leads, upto)[c].index_of(x);
    assert(members(leads, l, leads.len() as int)[a] == x);
    assert(leads[x as int] == l);
}

/// A leader below `upto` has one cluster.
proof fn lemma_one_group(leads: Seq<int>, upto: int, l: int, c: int, d: int)
    requires
        0 <= upto <= leads.len() <= usize::MAX,
        0 <= c < groups(leads, upto).len(),
        0 <= d < groups(leads, upto).len(),
        groups(leads, upto)[c] == members(leads, l, leads.len() as int),
        groups(leads, upto)[d] == members(leads, l, leads.len() as int),
    ensures
        c == d,
    decreases upto,
{
    if upto > 0 {
        let was = groups(leads, upto - 1);
        let now = groups(leads, upto);
        if c < was.len() && d < was.len() {
            assert(now[c] == was[c] && now[d] == was[d]);
            lemma_one_group(leads, upto - 1, l, c, d);
        } else if c < was.len() || d < was.len() {
            let e = if c < was.len() {
                c
            } else {
                d
            };
            let last = members(leads, upto - 1, leads.len() as int);
            assert(now[was.len() as int] == last);
            assert(now[e] == was[e]);
            lemma_groups(leads, upto);
            assert(last.len() > 1);
            let x = last[0];
            assert(last.contains(x));
            lemma_members(leads, upto - 1, leads.len() as int);
            assert(leads[x as int] == upto - 1);
            assert(was[e].contains(x));
            lemma_groups_by_leader(leads, upto - 1, x, e);
        }
    }
}

/// Every item leads itself at first; an edge puts all that are led as its first end is under
/// the leader of its second end, and leaves the others as they are.
pub proof fn law_edges_join_their_ends(n: nat, edges: Seq<(usize, usize)>, k: nat, x: int)
    requires
        within(edges, n as int),
        k < edges.len(),
        0 <= x < n,
    ensures
        leaders(n, edges, 0)[x] == x,
        ({
            let was = leaders(n, edges, k);
            let (i, j) = edges[k as int];
            &&& was[x] == was[i as int] ==> leaders(n, edges, k + 1)[x] == was[j as int]
            &&& was[x] != was[i as int] ==> leaders(n, edges, k + 1)[x] == was[x]
        }),
{
    lemma_leaders_range(n, edges, k + 1);
}

/// Clusters stand in the order of their leaders.
pub proof fn law_clusters_follow_their_leaders(n: nat, edges: Seq<(usize, usize)>, c: int, d: int)
    requires
        within(edges, n as int),
        n <= usize::MAX,
        0 <= c < d < clusters(n, edges).len(),
    ensures
        ({
            let leads = leaders(n, edges, edges.len());
            leads[clusters(n, edges)[c][0] as int] < leads[clusters(n, edges)[d][0] as int]
        }),
{
    lemma_leaders_range(n, edges, edges.len());
    lemma_groups_ordered(leaders(n, edges, edges.len()), n as int);
}

proof fn lemma_groups_ordered(leads: Seq<int>, upto: int)
    requires
        0 <= upto <= leads.len() <= usize::MAX,
    ensures
        forall|c: int|
            0 <= c < groups(leads, upto).len() ==> leads[(#[trigger] groups(leads, upto)[c])[0] as int]
                < upto,
        forall|c: int, d: int|
            0 <= c < d < groups(leads, upto).len() ==> leads[(#[trigger] groups(
                leads,
                upto,
            )[c])[0] as int] < leads[(#[trigger] groups(leads, upto)[d])[0] as int],
    decreases upto,
{
    if upto > 0 {
        lemma_groups_ordered(leads, upto - 1);
        lemma_members(leads, upto - 1, leads.len() as int);
        let group = members(leads, upto - 1, leads.len() as int);
        let before = groups(leads, upto - 1);
        let all = groups(leads, upto);
        if group.len() > 1 {
            let x = group[0];
            assert(x < leads.len());
            assert(group.contains(x));
            assert((x as int) as usize == x);
            assert(leads[x as int] == upto - 1);
            assert(all == before.push(group));
        }
        assert forall|c: int| 0 <= c < all.len() implies leads[(#[trigger] all[c])[0] as int]
            < upto by {
            if c < before.len() {
                assert(all[c] == before[c]);
            }
        }
        assert forall|c: int, d: int| 0 <= c < d < all.len() implies leads[(
        #[trigger] all[c])[0] as int] < leads[(#[trigger] all[d])[0] as int] by {
            assert(all[c] == before[c]);
            if d < before.len() {
                assert(all[d] == before[d]);
            }
        }
    }
}

/// Two items stand in one cluster exactly where edges lead from one to the other.
pub proof fn law_clusters_are_made_of_edges(
    n: usize,
    edges: Vec<(usize, usize, Real)>,
    r: Vec<Vec<usize>>,
    x: usize,
    y: usize,
)
    requires
        within(ends(edges@), n as int),
        call_ensures(clusters_from_edges, (n, &edges), r),
        x < n,
        y < n,
        x != y,
    ensures
        (exists|c: int|
            0 <= c < r@.len() && (#[trigger] r@[c])@.contains(x) && r@[c]@.contains(y))
            <==> connected(ends(edges@), x as int, y as int),
        forall|c: int| 0 <= c < r@.len() ==> (#[trigger] r@[c])@.len() > 1,
        forall|c: int, a: int, b: int|
            0 <= c < r@.len() && 0 <= a < b < r@[c]@.len() ==> (#[trigger] r@[c]@[a]) < (
            #[trigger] r@[c]@[b]),
{
    let all = clusters(n as nat, ends(edges@));
    law_clusters_are_components(n as nat, ends(edges@), x, y);
    assert(lists(r@).len() == r@.len());
    assert forall|c: int| 0 <= c < r@.len() implies (#[trigger] r@[c])@ == all[c] by {
        assert(lists(r@)[c] == r@[c]@);
    }
    assert forall|c: int| 0 <= c < r@.len() implies (#[trigger] r@[c])@.len() > 1 by {
        law_clusters_are_lists(n as nat, ends(edges@), c);
    }
    assert forall|c: int, a: int, b: int|
        0 <= c < r@.len() && 0 <= a < b < r@[c]@.len() implies (#[trigger] r@[c]@[a]) < (
    #[trigger] r@[c]@[b]) by {
        law_clusters_are_lists(n as nat, ends(edges@), c);
        assert(all[c][a] < all[c][b]);
    }
    if connected(ends(edges@), x as int, y as int) {
        let c = choose|c: int|
            0 <= c < all.len() && (#[trigger] all[c]).contains(x) && all[c].contains(y);
        assert(r@[c]@.contains(x));
    }
    if exists|c: int|
        0 <= c < r@.len() && (#[trigger] r@[c])@.contains(x) && r@[c]@.contains(y) {
        let c = choose|c: int|
            0 <= c < r@.len() && (#[trigger] r@[c])@.contains(x) && r@[c]@.contains(y);
        assert(all[c].contains(x));
    }
}

} // verus!
