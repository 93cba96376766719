//! The query engine: direct-neighbour lookup, address-family filter,
//! depth-first reachability, and device removal with graph repair.

use vstd::prelude::*;

use crate::device::AddrKindView;
use crate::device::DeviceView;
use crate::device::IPAddrKind;
use crate::device::NetError;
use crate::graph::adjacent;
use crate::graph::g_adj;
use crate::graph::g_has;
use crate::graph::g_idx;
use crate::graph::g_wf;
use crate::graph::lemma_g_idx;
use crate::graph::EntryView;
use crate::graph::Graph;
use crate::registry::reg_has;
use crate::registry::reg_idx;
use crate::registry::reg_wf;
use crate::registry::Registry;
use crate::strutil::clone_names;
use crate::strutil::names_contain;
use crate::strutil::names_of;

verus! {

/// Two addresses belong to the same family (V4 with V4, V6 with V6),
/// whatever their values.
pub open spec fn kind_matches(a: AddrKindView, q: AddrKindView) -> bool {
    (a is V4) == (q is V4)
}

/// The names of the devices of `s` whose address family matches `q`, in
/// registry order.
pub open spec fn matching_names(s: Seq<DeviceView>, q: AddrKindView) -> Seq<Seq<char>>
    decreases s.len(),
{
    if s.len() == 0 {
        Seq::empty()
    } else {
        matching_names(s.drop_last(), q) + (if kind_matches(s.last().addr, q) {
            seq![s.last().name]
        } else {
            Seq::empty()
        })
    }
}

/// Unfolding `matching_names` one element at a time, front to back.
pub proof fn lemma_matching_take_step(s: Seq<DeviceView>, q: AddrKindView, j: int)
    requires
        0 <= j < s.len(),
    ensures
        matching_names(s.take(j + 1), q) == matching_names(s.take(j), q) + (if kind_matches(
            s[j].addr,
            q,
        ) {
            seq![s[j].name]
        } else {
            Seq::<Seq<char>>::empty()
        }),
{
    assert(s.take(j + 1).drop_last() =~= s.take(j));
}

/// Scans the registry and returns, in registry order, the names of all
/// devices whose address family equals that of `query` (the filter is by
/// variant only, not by address value).
pub fn find_ip_kind(query: &IPAddrKind, reg: &Registry) -> (r: Vec<String>)
    ensures
        names_of(r@) == matching_names(reg@, query@),
{
    let mut r: Vec<String> = Vec::new();
    let mut i: usize = 0;
    while i < reg.devices.len()
        invariant
            i <= reg@.len(),
            reg@.len() == reg.devices@.len(),
            names_of(r@) == matching_names(reg@.take(i as int), query@),
        decreases reg@.len() - i,
    {
        let ghost before = names_of(r@);
        let matches_query = match (&reg.devices[i].addr, query) {
            (IPAddrKind::V4(_, _, _, _), IPAddrKind::V4(_, _, _, _)) => true,
            (IPAddrKind::V6(_), IPAddrKind::V6(_)) => true,
            _ => false,
        };
        if matches_query {
            r.push(reg.devices[i].name.clone());
            proof {
                assert(names_of(r@) =~= before.push(reg@[i as int].name));
                assert(names_of(r@) =~= before + seq![reg@[i as int].name]);
            }
        }
        proof {
            lemma_matching_take_step(reg@, query@, i as int);
            if !matches_query {
                assert(names_of(r@) =~= before + Seq::<Seq<char>>::empty());
            }
        }
        i = i + 1;
    }
    proof {
        assert(reg@.take(reg@.len() as int) =~= reg@);
    }
    r
}

/// Every name that the filter returns belongs to a registered device.
pub proof fn lemma_matching_sub(s: Seq<DeviceView>, q: AddrKindView, n: Seq<char>)
    requires
        matching_names(s, q).contains(n),
    ensures
        reg_has(s, n),
    decreases s.len(),
{
    if s.len() > 0 {
        if matching_names(s.drop_last(), q).contains(n) {
            lemma_matching_sub(s.drop_last(), q, n);
            let i = choose|i: int| 0 <= i < s.drop_last().len() && s.drop_last()[i].name == n;
            assert(s[i].name == n);
        } else {
            assert(s.last().name == n);
            assert(s[s.len() - 1].name == n);
        }
    }
}

/// The V4 filter and the V6 filter partition the registry: every
/// registered name is returned by exactly one of the two, and nothing
/// else is returned by either.
pub proof fn lemma_find_partition(s: Seq<DeviceView>, q4: AddrKindView, q6: AddrKindView)
    requires
        reg_wf(s),
        q4 is V4,
        q6 is V6,
    ensures
        matching_names(s, q4).len() + matching_names(s, q6).len() == s.len(),
        forall|n: Seq<char>| #[trigger] matching_names(s, q4).contains(n) ==> reg_has(s, n),
        forall|n: Seq<char>| #[trigger] matching_names(s, q6).contains(n) ==> reg_has(s, n),
        forall|n: Seq<char>|
            reg_has(s, n) ==> (matching_names(s, q4).contains(n) <==> !matching_names(
                s,
                q6,
            ).contains(n)),
    decreases s.len(),
{
    assert forall|n: Seq<char>| #[trigger] matching_names(s, q4).contains(n) implies reg_has(
        s,
        n,
    ) by {
        lemma_matching_sub(s, q4, n);
    }
    assert forall|n: Seq<char>| #[trigger] matching_names(s, q6).contains(n) implies reg_has(
        s,
        n,
    ) by {
        lemma_matching_sub(s, q6, n);
    }
    if s.len() > 0 {
        let u = s.drop_last();
        assert(reg_wf(u)) by {
            assert(forall|i: int, j: int|
                0 <= i < j < u.len() ==> u[i].name == s[i].name && u[j].name == s[j].name);
        }
        lemma_find_partition(u, q4, q6);
        let last = s.last();
        // The last device's name is new: it occurs in neither prefix list.
        assert(!reg_has(u, last.name)) by {
            if reg_has(u, last.name) {
                let i = choose|i: int| 0 <= i < u.len() && u[i].name == last.name;
                assert(s[i].name == s[s.len() - 1].name);
            }
        }
        if matching_names(u, q4).contains(last.name) {
            lemma_matching_sub(u, q4, last.name);
        }
        if matching_names(u, q6).contains(last.name) {
            lemma_matching_sub(u, q6, last.name);
        }
        assert forall|n: Seq<char>| reg_has(s, n) implies (matching_names(s, q4).contains(n)
            <==> !matching_names(s, q6).contains(n)) by {
            if n == last.name {
                if kind_matches(last.addr, q4) {
                    assert(matching_names(s, q4).contains(n)) by {
                        assert(matching_names(s, q4).last() == last.name);
                    }
                    assert(!matching_names(s, q6).contains(n)) by {
                        if matching_names(s, q6).contains(n) {
                            assert(matching_names(s, q6) == matching_names(u, q6));
                        }
                    }
                } else {
                    assert(kind_matches(last.addr, q6));
                    assert(matching_names(s, q6).contains(n)) by {
                        assert(matching_names(s, q6).last() == last.name);
                    }
                    assert(!matching_names(s, q4).contains(n)) by {
                        if matching_names(s, q4).contains(n) {
                            assert(matching_names(s, q4) == matching_names(u, q4));
                        }
                    }
                }
            } else {
                assert(reg_has(u, n)) by {
                    let i = choose|i: int| 0 <= i < s.len() && s[i].name == n;
                    assert(u[i].name == n);
                }
                assert(matching_names(s, q4).contains(n) <==> matching_names(u, q4).contains(n))
                    by {
                    lemma_matching_last_keeps(s, q4, n);
                }
                assert(matching_names(s, q6).contains(n) <==> matching_names(u, q6).contains(n))
                    by {
                    lemma_matching_last_keeps(s, q6, n);
                }
            }
        }
    }
}

/// A name other than the last device's occurs in the filtered list of
/// `s` exactly when it occurs in the filtered list without the last
/// device.
proof fn lemma_matching_last_keeps(s: Seq<DeviceView>, q: AddrKindView, n: Seq<char>)
    requires
        s.len() > 0,
        n != s.last().name,
    ensures
        matching_names(s, q).contains(n) <==> matching_names(s.drop_last(), q).contains(n),
{
    let u = s.drop_last();
    let m = matching_names(u, q);
    if kind_matches(s.last().addr, q) {
        assert(matching_names(s, q) == m + seq![s.last().name]);
        if matching_names(s, q).contains(n) {
            let i = choose|i: int| 0 <= i < matching_names(s, q).len() && matching_names(s, q)[i]
                == n;
            assert(i < m.len());
            assert(m[i] == n);
        }
        if m.contains(n) {
            let i = choose|i: int| 0 <= i < m.len() && m[i] == n;
            assert(matching_names(s, q)[i] == n);
        }
    } else {
        assert(matching_names(s, q) =~= m);
    }
}

/// A path of device names through `g` from `a` to `b`: non-empty,
/// consecutive elements adjacent, no element repeated.
pub open spec fn is_path(g: Seq<EntryView>, a: Seq<char>, b: Seq<char>, p: Seq<Seq<char>>) -> bool {
    &&& p.len() >= 1
    &&& p[0] == a
    &&& p.last() == b
    &&& forall|i: int| 0 <= i < p.len() - 1 ==> #[trigger] adjacent(g, p[i], p[i + 1])
    &&& forall|i: int, j: int| 0 <= i < j < p.len() ==> #[trigger] p[i] != #[trigger] p[j]
}

/// Like `is_path`, but repetitions are allowed.
pub open spec fn is_walk(g: Seq<EntryView>, a: Seq<char>, b: Seq<char>, p: Seq<Seq<char>>) -> bool {
    &&& p.len() >= 1
    &&& p[0] == a
    &&& p.last() == b
    &&& forall|i: int| 0 <= i < p.len() - 1 ==> #[trigger] adjacent(g, p[i], p[i + 1])
}

/// `b` can be reached from `a` along adjacency steps.
pub open spec fn connected(g: Seq<EntryView>, a: Seq<char>, b: Seq<char>) -> bool {
    exists|p: Seq<Seq<char>>| is_walk(g, a, b, p)
}

/// In a symmetric graph, reachability runs both ways: every walk can be
/// reversed step by step.
pub proof fn lemma_connected_sym(g: Seq<EntryView>, a: Seq<char>, b: Seq<char>)
    requires
        crate::graph::symmetric(g),
        connected(g, a, b),
    ensures
        connected(g, b, a),
{
    let p = choose|p: Seq<Seq<char>>| is_walk(g, a, b, p);
    lemma_walk_reverse(g, a, b, p);
}

proof fn lemma_walk_reverse(g: Seq<EntryView>, a: Seq<char>, b: Seq<char>, p: Seq<Seq<char>>)
    requires
        crate::graph::symmetric(g),
        is_walk(g, a, b, p),
    ensures
        connected(g, b, a),
    decreases p.len(),
{
    if p.len() == 1 {
        assert(a == b);
        assert(is_walk(g, b, a, p));
    } else {
        let rest = p.drop_first();
        assert(is_walk(g, p[1], b, rest)) by {
            assert(forall|i: int|
                0 <= i < rest.len() - 1 ==> #[trigger] rest[i] == p[i + 1] && rest[i + 1] == p[i + 2]);
        }
        lemma_walk_reverse(g, p[1], b, rest);
        let q = choose|q: Seq<Seq<char>>| is_walk(g, b, p[1], q);
        let q2 = q.push(a);
        assert(is_walk(g, b, a, q2)) by {
            assert(adjacent(g, p[0], p[1]));
            assert(adjacent(g, p[1], a));
            assert(q2.last() == a);
            assert(forall|i: int| 0 <= i < q.len() - 1 ==> #[trigger] q2[i] == q[i] && q2[i + 1] == q[i + 1]);
            assert(q2[q.len() - 1] == q.last());
        }
    }
}

/// A list of distinct names, each with a graph entry, can hold at most
/// one name per entry.
pub proof fn lemma_visited_bound(g: Seq<EntryView>, vis: Seq<Seq<char>>)
    requires
        vis.no_duplicates(),
        forall|q: int| 0 <= q < vis.len() ==> g_has(g, #[trigger] vis[q]),
    ensures
        vis.len() <= g.len(),
{
    broadcast use vstd::seq_lib::seq_to_set_is_finite;

    let names = g.map_values(|e: EntryView| e.name);
    assert(vis.to_set().subset_of(names.to_set())) by {
        assert forall|x: Seq<char>| vis.to_set().contains(x) implies names.to_set().contains(
            x,
        ) by {
            let q = choose|q: int| 0 <= q < vis.len() && vis[q] == x;
            assert(g_has(g, vis[q]));
            let w = choose|w: int| 0 <= w < g.len() && g[w].name == x;
            assert(names[w] == x);
            assert(names.contains(x));
        }
    }
    vis.unique_seq_to_set();
    names.lemma_cardinality_of_set();
    vstd::set_lib::lemma_len_subset(vis.to_set(), names.to_set());
}

/// An element of a prefix is an element of the whole.
proof fn lemma_prefix_contains(a: Seq<Seq<char>>, b: Seq<Seq<char>>, x: Seq<char>)
    requires
        a.is_prefix_of(b),
        a.contains(x),
    ensures
        b.contains(x),
{
    let i = choose|i: int| 0 <= i < a.len() && a[i] == x;
    assert(b[i] == x);
}

/// The region that a finished search has exhausted: every adjacency
/// step out of a listed name (from position `lo` on) stays inside the
/// list and never reaches `dest`.
pub open spec fn exhausted(
    g: Seq<EntryView>,
    vs: Seq<Seq<char>>,
    dest: Seq<char>,
    lo: int,
) -> bool {
    forall|q: int, y: Seq<char>|
        lo <= q < vs.len() && #[trigger] adjacent(g, vs[q], y) ==> y != dest && vs.contains(y)
}

/// One entered node of the depth-first search, as a mathematical
/// function: entering `root` marks it visited, then its stored
/// adjacency list is walked in order. The result is the new
/// visited list and the path tail found (empty when this subtree does
/// not reach `dest`). `fuel` only bounds the recursion depth so the
/// definition terminates; `visit_node` proves that any fuel of at least
/// the number of unvisited entries gives the search's answer.
pub open spec fn dfs_node(
    g: Seq<EntryView>,
    root: Seq<char>,
    dest: Seq<char>,
    vis: Seq<Seq<char>>,
    fuel: nat,
) -> (Seq<Seq<char>>, Seq<Seq<char>>)
    decreases fuel, 0int,
{
    if fuel == 0 {
        (vis, Seq::empty())
    } else {
        dfs_list(g, dest, g_adj(g, root), vis.push(root), (fuel - 1) as nat)
    }
}

/// Walks one adjacency list in stored order: the first neighbour that
/// is the destination, or whose unvisited subtree reaches it, decides
/// the path; visited neighbours are skipped; an exhausted neighbour
/// only grows the visited list.
pub open spec fn dfs_list(
    g: Seq<EntryView>,
    dest: Seq<char>,
    ns: Seq<Seq<char>>,
    vis: Seq<Seq<char>>,
    fuel: nat,
) -> (Seq<Seq<char>>, Seq<Seq<char>>)
    decreases fuel, 1int + ns.len(),
{
    if ns.len() == 0 {
        (vis, Seq::empty())
    } else {
        let node = ns.first();
        if node == dest {
            (vis, seq![node])
        } else if vis.contains(node) {
            dfs_list(g, dest, ns.drop_first(), vis, fuel)
        } else {
            let r = dfs_node(g, node, dest, vis, fuel);
            if r.1.len() > 0 {
                (r.0, seq![node] + r.1)
            } else {
                dfs_list(g, dest, ns.drop_first(), r.0, fuel)
            }
        }
    }
}

/// Depth-first search below `root`, sharing one growing visited list
/// across the whole traversal. A non-empty result is the tail of a
/// path: it starts at a neighbour of `root`, ends at `dest`, steps only
/// between adjacent devices, and never enters an already-visited or
/// repeated device.
pub fn visit_node(
    root: &String,
    dest: &String,
    graph: &Graph,
    visited: &mut Vec<String>,
) -> (path: Vec<String>)
    requires
        g_wf(graph@),
        crate::graph::closed(graph@),
        g_has(graph@, root@),
        root@ != dest@,
        !names_of(old(visited)@).contains(root@),
        names_of(old(visited)@).no_duplicates(),
        forall|q: int|
            0 <= q < old(visited)@.len() ==> g_has(graph@, #[trigger] names_of(old(visited)@)[q]),
    ensures
        names_of(final(visited)@).len() >= names_of(old(visited)@).len() + 1,
        names_of(old(visited)@).is_prefix_of(names_of(final(visited)@)),
        names_of(final(visited)@).no_duplicates(),
        forall|q: int|
            0 <= q < final(visited)@.len() ==> g_has(
                graph@,
                #[trigger] names_of(final(visited)@)[q],
            ),
        forall|q: int|
            old(visited)@.len() <= q < final(visited)@.len() ==> names_of(final(visited)@)[q]
                != dest@,
        names_of(final(visited)@)[old(visited)@.len() as int] == root@,
        path@.len() > 0 ==> tail_path(
            graph@,
            names_of(old(visited)@),
            root@,
            dest@,
            names_of(path@),
        ),
        path@.len() == 0 ==> exhausted(
            graph@,
            names_of(final(visited)@),
            dest@,
            old(visited)@.len() as int,
        ),
        forall|f: nat|
            f >= graph@.len() - names_of(old(visited)@).len() ==> dfs_node(
                graph@,
                root@,
                dest@,
                names_of(old(visited)@),
                f,
            ) == (names_of(final(visited)@), names_of(path@)),
    decreases graph@.len() - old(visited)@.len(),
{
    let ghost oldvis = names_of(old(visited)@);
    let ghost glen: int = graph@.len() as int;
    visited.push(root.clone());
    proof {
        assert(names_of(visited@) =~= oldvis.push(root@));
        assert(names_of(visited@).no_duplicates());
    }
    let k = graph.find_idx(root);
    let con_vec = clone_names(&graph.entries[k].neighbors);
    proof {
        assert(names_of(con_vec@) == graph@[k as int].neighbors);
        lemma_g_idx(graph@, k as int);
        assert(g_adj(graph@, root@) == names_of(con_vec@));
        lemma_visited_bound(graph@, names_of(visited@));
        assert(glen - oldvis.len() >= 1);
        assert forall|f: nat| f >= glen - oldvis.len() implies dfs_node(
            graph@,
            root@,
            dest@,
            oldvis,
            f,
        ) == dfs_list(
            graph@,
            dest@,
            names_of(con_vec@).skip(0),
            names_of(visited@),
            (f - 1) as nat,
        ) by {
            assert(f >= 1);
            assert(dfs_node(graph@, root@, dest@, oldvis, f) == dfs_list(
                graph@,
                dest@,
                g_adj(graph@, root@),
                oldvis.push(root@),
                (f - 1) as nat,
            ));
            assert(names_of(con_vec@).skip(0) =~= names_of(con_vec@));
        }
    }
    let mut m: usize = 0;
    while m < con_vec.len()
        invariant
            g_wf(graph@),
            crate::graph::closed(graph@),
            g_has(graph@, root@),
            root@ != dest@,
            m <= con_vec@.len(),
            names_of(con_vec@) == g_adj(graph@, root@),
            oldvis == names_of(old(visited)@),
            oldvis.is_prefix_of(names_of(visited@)),
            names_of(visited@).no_duplicates(),
            names_of(visited@).len() >= oldvis.len() + 1,
            names_of(visited@)[oldvis.len() as int] == root@,
            forall|q: int|
                0 <= q < visited@.len() ==> g_has(graph@, #[trigger] names_of(visited@)[q]),
            forall|q: int|
                oldvis.len() <= q < visited@.len() ==> names_of(visited@)[q] != dest@,
            forall|q: int, y: Seq<char>|
                oldvis.len() < q < visited@.len() && #[trigger] adjacent(
                    graph@,
                    names_of(visited@)[q],
                    y,
                ) ==> y != dest@ && names_of(visited@).contains(y),
            forall|t: int|
                0 <= t < m ==> names_of(con_vec@)[t] != dest@ && names_of(visited@).contains(
                    #[trigger] names_of(con_vec@)[t],
                ),
            glen == graph@.len(),
            glen - oldvis.len() >= 1,
            forall|f: nat|
                f >= glen - oldvis.len() ==> dfs_node(graph@, root@, dest@, oldvis, f)
                    == dfs_list(
                    graph@,
                    dest@,
                    names_of(con_vec@).skip(m as int),
                    names_of(visited@),
                    (f - 1) as nat,
                ),
        decreases con_vec@.len() - m,
    {
        let node = &con_vec[m];
        if node.eq(dest) {
            let mut out: Vec<String> = Vec::new();
            out.push(node.clone());
            proof {
                assert(names_of(out@) =~= seq![node@]);
                assert(g_adj(graph@, root@)[m as int] == node@);
                assert(g_adj(graph@, root@).contains(node@));
                assert forall|f: nat| f >= glen - oldvis.len() implies dfs_node(
                    graph@,
                    root@,
                    dest@,
                    oldvis,
                    f,
                ) == (names_of(visited@), names_of(out@)) by {
                    let ns = names_of(con_vec@).skip(m as int);
                    assert(ns.len() > 0);
                    assert(ns.first() == names_of(con_vec@)[m as int]);
                    assert(ns.first() == node@);
                    assert(f >= 1);
                    assert(dfs_list(graph@, dest@, ns, names_of(visited@), (f - 1) as nat)
                        == (names_of(visited@), seq![node@]));
                }
            }
            return out;
        }
        let was_visited = names_contain(visited, node);
        if !was_visited {
            proof {
                assert(g_adj(graph@, root@)[m as int] == node@);
                assert(g_has(graph@, node@)) by {
                    let gi = g_idx(graph@, root@);
                    assert(graph@[gi].neighbors[m as int] == node@);
                }
                lemma_visited_bound(graph@, names_of(visited@));
            }
            let ghost vis_at_call = names_of(visited@);
            let sub = visit_node(node, dest, graph, visited);
            if sub.len() > 0 {
                let ghost subp = names_of(sub@);
                let mut out: Vec<String> = Vec::new();
                out.push(node.clone());
                let mut tail = sub;
                out.append(&mut tail);
                proof {
                    assert(names_of(out@) =~= seq![node@] + subp);
                    lemma_compose_tail(
                        graph@,
                        oldvis,
                        vis_at_call,
                        root@,
                        node@,
                        dest@,
                        subp,
                        m as int,
                    );
                    lemma_prefix_trans(oldvis, vis_at_call, names_of(visited@));
                    assert(names_of(visited@)[oldvis.len() as int] == root@) by {
                        assert(vis_at_call[oldvis.len() as int] == root@);
                        assert(names_of(visited@).subrange(0, vis_at_call.len() as int) =~=
                            vis_at_call);
                    }
                    assert forall|q: int|
                        oldvis.len() <= q < visited@.len() implies names_of(visited@)[q]
                        != dest@ by {
                        if q < vis_at_call.len() {
                            assert(names_of(visited@)[q] == vis_at_call[q]);
                        }
                    }
                    assert forall|f: nat| f >= glen - oldvis.len() implies dfs_node(
                        graph@,
                        root@,
                        dest@,
                        oldvis,
                        f,
                    ) == (names_of(visited@), names_of(out@)) by {
                        let ns = names_of(con_vec@).skip(m as int);
                        assert(ns.len() > 0);
                        assert(ns.first() == names_of(con_vec@)[m as int]);
                        assert(ns.first() == node@);
                        assert(f >= 1);
                        assert(!vis_at_call.contains(node@));
                        assert((f - 1) as nat >= glen - vis_at_call.len());
                        assert(dfs_node(graph@, node@, dest@, vis_at_call, (f - 1) as nat)
                            == (names_of(visited@), subp));
                        assert(subp.len() > 0);
                        assert(dfs_list(graph@, dest@, ns, vis_at_call, (f - 1) as nat) == (
                            names_of(visited@),
                            seq![node@] + subp,
                        ));
                        assert(names_of(out@) == seq![node@] + subp);
                    }
                }
                return out;
            }
            proof {
                lemma_prefix_trans(oldvis, vis_at_call, names_of(visited@));
                assert(names_of(visited@).subrange(0, vis_at_call.len() as int) =~=
                    vis_at_call);
                assert(names_of(visited@)[oldvis.len() as int] == root@) by {
                    assert(vis_at_call[oldvis.len() as int] == root@);
                }
                assert forall|q: int|
                    oldvis.len() <= q < visited@.len() implies names_of(visited@)[q]
                    != dest@ by {
                    if q < vis_at_call.len() {
                        assert(names_of(visited@)[q] == vis_at_call[q]);
                    }
                }
                assert forall|q: int, y: Seq<char>|
                    oldvis.len() < q < visited@.len() && #[trigger] adjacent(
                        graph@,
                        names_of(visited@)[q],
                        y,
                    ) implies y != dest@ && names_of(visited@).contains(y) by {
                    if q < vis_at_call.len() {
                        assert(names_of(visited@)[q] == vis_at_call[q]);
                        assert(adjacent(graph@, vis_at_call[q], y));
                        assert(y != dest@ && vis_at_call.contains(y));
                        lemma_prefix_contains(vis_at_call, names_of(visited@), y);
                    }
                }
                assert forall|f: nat| f >= glen - oldvis.len() implies dfs_node(
                    graph@,
                    root@,
                    dest@,
                    oldvis,
                    f,
                ) == dfs_list(
                    graph@,
                    dest@,
                    names_of(con_vec@).skip(m + 1),
                    names_of(visited@),
                    (f - 1) as nat,
                ) by {
                    let ns = names_of(con_vec@).skip(m as int);
                    assert(ns.len() > 0);
                    assert(ns.first() == names_of(con_vec@)[m as int]);
                    assert(ns.first() == node@);
                    assert(ns.drop_first() =~= names_of(con_vec@).skip(m + 1));
                    assert(f >= 1);
                    assert(!vis_at_call.contains(node@));
                    assert((f - 1) as nat >= glen - vis_at_call.len());
                    assert(dfs_node(graph@, node@, dest@, vis_at_call, (f - 1) as nat) == (
                        names_of(visited@),
                        names_of(sub@),
                    ));
                    assert(names_of(sub@).len() == 0);
                    assert(dfs_list(graph@, dest@, ns, vis_at_call, (f - 1) as nat)
                        == dfs_list(
                        graph@,
                        dest@,
                        ns.drop_first(),
                        names_of(visited@),
                        (f - 1) as nat,
                    ));
                }
            }
        } else {
            proof {
                assert forall|f: nat| f >= glen - oldvis.len() implies dfs_node(
                    graph@,
                    root@,
                    dest@,
                    oldvis,
                    f,
                ) == dfs_list(
                    graph@,
                    dest@,
                    names_of(con_vec@).skip(m + 1),
                    names_of(visited@),
                    (f - 1) as nat,
                ) by {
                    let ns = names_of(con_vec@).skip(m as int);
                    assert(ns.len() > 0);
                    assert(ns.first() == names_of(con_vec@)[m as int]);
                    assert(ns.first() == node@);
                    assert(ns.drop_first() =~= names_of(con_vec@).skip(m + 1));
                    assert(f >= 1);
                    assert(names_of(visited@).contains(node@));
                    assert(node@ != dest@);
                    assert(dfs_list(graph@, dest@, ns, names_of(visited@), (f - 1) as nat)
                        == dfs_list(
                        graph@,
                        dest@,
                        ns.drop_first(),
                        names_of(visited@),
                        (f - 1) as nat,
                    ));
                }
            }
        }
        proof {
            assert(names_of(con_vec@)[m as int] == node@);
            assert(node@ != dest@);
            assert(names_of(visited@).contains(node@));
        }
        m = m + 1;
    }
    proof {
        let fv = names_of(visited@);
        assert forall|q: int, y: Seq<char>|
            oldvis.len() <= q < fv.len() && #[trigger] adjacent(graph@, fv[q], y) implies y
            != dest@ && fv.contains(y) by {
            if q == oldvis.len() {
                assert(fv[q] == root@);
                assert(g_adj(graph@, root@).contains(y));
                let t = choose|t: int|
                    0 <= t < names_of(con_vec@).len() && names_of(con_vec@)[t] == y;
                assert(names_of(con_vec@)[t] != dest@ && fv.contains(names_of(con_vec@)[t]));
            }
        }
        assert forall|f: nat| f >= glen - oldvis.len() implies dfs_node(
            graph@,
            root@,
            dest@,
            oldvis,
            f,
        ) == (names_of(visited@), Seq::<Seq<char>>::empty()) by {
            assert(names_of(con_vec@).skip(con_vec@.len() as int) =~= Seq::<
                Seq<char>,
            >::empty());
            assert(f >= 1);
            assert(dfs_list(
                graph@,
                dest@,
                names_of(con_vec@).skip(con_vec@.len() as int),
                names_of(visited@),
                (f - 1) as nat,
            ) == (names_of(visited@), Seq::<Seq<char>>::empty()));
        }
    }
    let out: Vec<String> = Vec::new();
    proof {
        assert(names_of(out@) =~= Seq::<Seq<char>>::empty());
    }
    out
}

/// Prefixes chain: a prefix of a prefix is a prefix.
proof fn lemma_prefix_trans(a: Seq<Seq<char>>, b: Seq<Seq<char>>, c: Seq<Seq<char>>)
    requires
        a.is_prefix_of(b),
        b.is_prefix_of(c),
    ensures
        a.is_prefix_of(c),
{
    assert(a =~= c.subrange(0, a.len() as int)) by {
        assert(forall|i: int| 0 <= i < a.len() ==> a[i] == b[i] && b[i] == c[i]);
    }
}

/// What a non-empty search result below `root` looks like: the tail of
/// a path from `root` to `dest`, avoiding everything visited before the
/// search entered `root`.
pub open spec fn tail_path(
    g: Seq<EntryView>,
    oldvis: Seq<Seq<char>>,
    root: Seq<char>,
    dest: Seq<char>,
    p: Seq<Seq<char>>,
) -> bool {
    &&& p.len() >= 1
    &&& p.last() == dest
    &&& adjacent(g, root, p[0])
    &&& forall|i: int| 0 <= i < p.len() - 1 ==> #[trigger] adjacent(g, p[i], p[i + 1])
    &&& forall|i: int|
        0 <= i < p.len() - 1 ==> !oldvis.contains(#[trigger] p[i]) && p[i] != root && p[i]
            != dest
    &&& forall|i: int, j: int| 0 <= i < j < p.len() - 1 ==> #[trigger] p[i] != #[trigger] p[j]
}

/// Prepending the neighbour that the search stepped into keeps every
/// tail-path property.
proof fn lemma_compose_tail(
    g: Seq<EntryView>,
    oldvis: Seq<Seq<char>>,
    vis_at_call: Seq<Seq<char>>,
    root: Seq<char>,
    node: Seq<char>,
    dest: Seq<char>,
    subp: Seq<Seq<char>>,
    m: int,
)
    requires
        tail_path(g, vis_at_call, node, dest, subp),
        oldvis.is_prefix_of(vis_at_call),
        vis_at_call.len() >= oldvis.len() + 1,
        vis_at_call[oldvis.len() as int] == root,
        !vis_at_call.contains(node),
        node != dest,
        g_has(g, root),
        0 <= m < g_adj(g, root).len(),
        g_adj(g, root)[m] == node,
    ensures
        tail_path(g, oldvis, root, dest, seq![node] + subp),
{
    let p = seq![node] + subp;
    assert(p.last() == subp.last());
    assert(adjacent(g, root, node)) by {
        assert(g_adj(g, root).contains(node));
    }
    assert(vis_at_call.contains(root)) by {
        assert(vis_at_call[oldvis.len() as int] == root);
    }
    assert forall|i: int| 0 <= i < p.len() - 1 implies #[trigger] adjacent(g, p[i], p[i + 1]) by {
        if i == 0 {
            assert(p[0] == node && p[1] == subp[0]);
            assert(adjacent(g, node, subp[0]));
        } else {
            assert(p[i] == subp[i - 1] && p[i + 1] == subp[i]);
            let ii = i - 1;
            assert(adjacent(g, subp[ii], subp[ii + 1]));
        }
    }
    assert forall|i: int|
        0 <= i < p.len() - 1 implies !oldvis.contains(#[trigger] p[i]) && p[i] != root && p[i]
        != dest by {
        if i == 0 {
            assert(p[0] == node);
            if oldvis.contains(node) {
                lemma_prefix_contains(oldvis, vis_at_call, node);
            }
            assert(node != root);
        } else {
            assert(p[i] == subp[i - 1]);
            assert(!vis_at_call.contains(subp[i - 1]) && subp[i - 1] != node && subp[i - 1]
                != dest);
            if oldvis.contains(subp[i - 1]) {
                lemma_prefix_contains(oldvis, vis_at_call, subp[i - 1]);
            }
            assert(subp[i - 1] != root);
        }
    }
    assert forall|i: int, j: int| 0 <= i < j < p.len() - 1 implies p[i] != p[j] by {
        if i == 0 {
            assert(p[j] == subp[j - 1]);
            assert(subp[j - 1] != node);
        } else {
            assert(p[i] == subp[i - 1] && p[j] == subp[j - 1]);
        }
    }
}

/// Resolves `query` and returns the names directly connected to it, in
/// the graph's stored order. Fails with `NotFound` when the name is not
/// registered, and with `GraphInconsistent` when the device is
/// registered but has no graph entry.
pub fn dir_conn_to(query: &String, reg: &Registry, graph: &Graph) -> (r: Result<
    Vec<String>,
    NetError,
>)
    requires
        reg_wf(reg@),
        g_wf(graph@),
    ensures
        (r == Err::<Vec<String>, NetError>(NetError::NotFound)) <==> !reg_has(reg@, query@),
        (r == Err::<Vec<String>, NetError>(NetError::GraphInconsistent)) <==> (reg_has(
            reg@,
            query@,
        ) && !g_has(graph@, query@)),
        r is Ok ==> reg_has(reg@, query@) && g_has(graph@, query@) && names_of(r->Ok_0@)
            == g_adj(graph@, query@),
        (reg_has(reg@, query@) && g_has(graph@, query@)) ==> r is Ok,
{
    match reg.position_of(query) {
        None => Err(NetError::NotFound),
        Some(_) => {
            match graph.position_of(query) {
                None => Err(NetError::GraphInconsistent),
                Some(gi) => {
                    proof {
                        lemma_g_idx(graph@, gi as int);
                    }
                    Ok(clone_names(&graph.entries[gi].neighbors))
                },
            }
        },
    }
}

/// The one answer that the path search gives for `src` and `dst` on a
/// fixed graph: the depth-first path prefixed with the source, or the
/// empty sequence when the search exhausts `src`'s surroundings without
/// reaching `dst`. A fuel of the graph's size is always enough for a
/// search that starts with nothing visited.
pub open spec fn search_result(g: Seq<EntryView>, src: Seq<char>, dst: Seq<char>) -> Seq<
    Seq<char>,
> {
    let t = dfs_node(g, src, dst, Seq::empty(), g.len()).1;
    if t.len() == 0 {
        Seq::empty()
    } else {
        seq![src] + t
    }
}

/// Resolves both names and searches depth-first for a route from `src`
/// to `dst`, following adjacency lists in stored order (first route
/// found wins; not necessarily the shortest). `Ok` carries the full
/// path, source first and destination last, or the empty sequence when
/// `dst` is unreachable. Equal names are the fixed zero-hop edge case:
/// the path is just `[src]`. Fails with `NotFound` when either name is
/// not registered, and with `GraphInconsistent` when `src` is
/// registered but has no graph entry.
pub fn can_talk(src: &String, dst: &String, reg: &Registry, graph: &Graph) -> (r: Result<
    Vec<String>,
    NetError,
>)
    requires
        reg_wf(reg@),
        g_wf(graph@),
        crate::graph::closed(graph@),
    ensures
        (r == Err::<Vec<String>, NetError>(NetError::NotFound)) <==> !(reg_has(reg@, src@)
            && reg_has(reg@, dst@)),
        (r == Err::<Vec<String>, NetError>(NetError::GraphInconsistent)) <==> (reg_has(
            reg@,
            src@,
        ) && reg_has(reg@, dst@) && src@ != dst@ && !g_has(graph@, src@)),
        (reg_has(reg@, src@) && reg_has(reg@, dst@) && src@ == dst@) ==> (r is Ok && names_of(
            r->Ok_0@,
        ) == seq![src@]),
        (r is Ok && src@ != dst@) ==> (names_of(r->Ok_0@).len() == 0 || is_path(
            graph@,
            src@,
            dst@,
            names_of(r->Ok_0@),
        )),
        (r is Ok && src@ != dst@ && !connected(graph@, src@, dst@)) ==> names_of(
            r->Ok_0@,
        ).len() == 0,
        (r is Ok && src@ != dst@ && names_of(r->Ok_0@).len() == 0) ==> !connected(
            graph@,
            src@,
            dst@,
        ),
        (reg_has(reg@, src@) && reg_has(reg@, dst@) && (src@ == dst@ || g_has(graph@, src@)))
            ==> r is Ok,
        (r is Ok && src@ != dst@) ==> names_of(r->Ok_0@) == search_result(graph@, src@, dst@),
{
    match reg.position_of(src) {
        None => {
            return Err(NetError::NotFound);
        },
        Some(_) => {},
    }
    match reg.position_of(dst) {
        None => {
            return Err(NetError::NotFound);
        },
        Some(_) => {},
    }
    if src.eq(dst) {
        let mut out: Vec<String> = Vec::new();
        out.push(src.clone());
        proof {
            assert(names_of(out@) =~= seq![src@]);
        }
        return Ok(out);
    }
    match graph.position_of(src) {
        None => {
            return Err(NetError::GraphInconsistent);
        },
        Some(_) => {},
    }
    let mut visited: Vec<String> = Vec::new();
    let ghost vis0 = names_of(visited@);
    proof {
        assert(vis0 =~= Seq::<Seq<char>>::empty());
    }
    let tail = visit_node(src, dst, graph, &mut visited);
    if tail.len() == 0 {
        let out: Vec<String> = Vec::new();
        proof {
            assert(names_of(out@).len() == 0);
            let glen: nat = graph@.len();
            assert(dfs_node(graph@, src@, dst@, vis0, glen) == (
                names_of(visited@),
                names_of(tail@),
            ));
            assert(names_of(tail@).len() == 0);
            assert(search_result(graph@, src@, dst@) =~= names_of(out@));
            let fv = names_of(visited@);
            assert(fv[0] == src@);
            assert(fv.contains(src@));
            assert(exhausted(graph@, fv, dst@, 0));
            if connected(graph@, src@, dst@) {
                let p = choose|p: Seq<Seq<char>>| is_walk(graph@, src@, dst@, p);
                lemma_trapped(graph@, fv, dst@, src@, p);
            }
        }
        Ok(out)
    } else {
        let ghost tailp = names_of(tail@);
        let mut out: Vec<String> = Vec::new();
        out.push(src.clone());
        let mut t2 = tail;
        out.append(&mut t2);
        proof {
            assert(names_of(out@) =~= seq![src@] + tailp);
            let glen: nat = graph@.len();
            assert(dfs_node(graph@, src@, dst@, vis0, glen) == (names_of(visited@), tailp));
            assert(search_result(graph@, src@, dst@) == names_of(out@));
            lemma_full_path(graph@, src@, dst@, tailp);
            let p = seq![src@] + tailp;
            assert(is_walk(graph@, src@, dst@, p));
            assert(connected(graph@, src@, dst@));
        }
        Ok(out)
    }
}

/// Gluing the source onto the tail that the search produced gives a
/// repetition-free path from source to destination.
proof fn lemma_full_path(g: Seq<EntryView>, src: Seq<char>, dst: Seq<char>, tailp: Seq<Seq<char>>)
    requires
        src != dst,
        tail_path(g, Seq::<Seq<char>>::empty(), src, dst, tailp),
    ensures
        is_path(g, src, dst, seq![src] + tailp),
        is_walk(g, src, dst, seq![src] + tailp),
{
    let p = seq![src] + tailp;
    assert(p[0] == src);
    assert(p.last() == tailp.last());
    assert forall|i: int| 0 <= i < p.len() - 1 implies #[trigger] adjacent(g, p[i], p[i + 1]) by {
        if i == 0 {
            assert(p[0] == src && p[1] == tailp[0]);
            assert(adjacent(g, src, tailp[0]));
        } else {
            assert(p[i] == tailp[i - 1] && p[i + 1] == tailp[i]);
            let ii = i - 1;
            assert(adjacent(g, tailp[ii], tailp[ii + 1]));
        }
    }
    assert forall|i: int, j: int| 0 <= i < j < p.len() implies p[i] != p[j] by {
        if j == p.len() - 1 {
            assert(p[j] == tailp.last());
            if i == 0 {
                assert(p[i] == src);
            } else {
                assert(p[i] == tailp[i - 1]);
                assert(tailp[i - 1] != dst);
            }
        } else {
            assert(p[j] == tailp[j - 1]);
            if i == 0 {
                assert(p[i] == src);
                assert(tailp[j - 1] != src);
            } else {
                assert(p[i] == tailp[i - 1]);
            }
        }
    }
}

/// No walk can leave an exhausted region: starting inside it, every
/// step stays inside and never reaches `dest`, so `dest` is
/// unreachable from anywhere in it.
proof fn lemma_trapped(
    g: Seq<EntryView>,
    vs: Seq<Seq<char>>,
    dest: Seq<char>,
    a: Seq<char>,
    p: Seq<Seq<char>>,
)
    requires
        exhausted(g, vs, dest, 0),
        vs.contains(a),
        a != dest,
    ensures
        !is_walk(g, a, dest, p),
    decreases p.len(),
{
    if is_walk(g, a, dest, p) {
        assert(p[0] == a);
        if p.len() == 1 {
            assert(p.last() == p[0]);
        } else {
            let i0: int = 0;
            assert(adjacent(g, p[i0], p[i0 + 1]));
            let q = choose|q: int| 0 <= q < vs.len() && vs[q] == a;
            assert(adjacent(g, vs[q], p[1]));
            assert(p[1] != dest && vs.contains(p[1]));
            let rest = p.drop_first();
            assert(is_walk(g, p[1], dest, rest)) by {
                assert(rest.last() == p.last());
                assert(forall|i: int|
                    0 <= i < rest.len() - 1 ==> #[trigger] rest[i] == p[i + 1] && rest[i + 1]
                        == p[i + 2]);
            }
            lemma_trapped(g, vs, dest, p[1], rest);
        }
    }
}

/// `v` with every occurrence of `n` removed, order otherwise kept.
pub open spec fn rm_all(v: Seq<Seq<char>>, n: Seq<char>) -> Seq<Seq<char>>
    decreases v.len(),
{
    if v.len() == 0 {
        Seq::empty()
    } else {
        rm_all(v.drop_last(), n) + (if v.last() == n {
            Seq::empty()
        } else {
            seq![v.last()]
        })
    }
}

proof fn lemma_rm_all_take_step(v: Seq<Seq<char>>, n: Seq<char>, j: int)
    requires
        0 <= j < v.len(),
    ensures
        rm_all(v.take(j + 1), n) == rm_all(v.take(j), n) + (if v[j] == n {
            Seq::<Seq<char>>::empty()
        } else {
            seq![v[j]]
        }),
{
    assert(v.take(j + 1).drop_last() =~= v.take(j));
}

/// What survives the scrub of one adjacency list: everything but `n`.
pub proof fn lemma_rm_all_mem(v: Seq<Seq<char>>, n: Seq<char>, y: Seq<char>)
    ensures
        rm_all(v, n).contains(y) <==> (v.contains(y) && y != n),
    decreases v.len(),
{
    if v.len() == 0 {
    } else {
        lemma_rm_all_mem(v.drop_last(), n, y);
        let extra: Seq<Seq<char>> = if v.last() == n {
            Seq::empty()
        } else {
            seq![v.last()]
        };
        crate::graph::lemma_add_contains(rm_all(v.drop_last(), n), extra, y);
        crate::graph::lemma_contains_split_last(v, y);
        if v.last() != n && y == v.last() {
            assert(extra[0] == y);
        }
    }
}

/// The graph with `n`'s own entry removed (if any).
pub open spec fn rm_entry(g: Seq<EntryView>, n: Seq<char>) -> Seq<EntryView> {
    if g_has(g, n) {
        g.remove(g_idx(g, n))
    } else {
        g
    }
}

/// The graph after a removal of `n`: `n`'s entry gone, and `n` scrubbed
/// from every remaining adjacency list.
pub open spec fn scrub_entries(g: Seq<EntryView>, n: Seq<char>) -> Seq<EntryView> {
    rm_entry(g, n).map_values(
        |e: EntryView| EntryView { name: e.name, neighbors: rm_all(e.neighbors, n) },
    )
}

/// What a removal does to the graph, read off entry by entry: every
/// other name keeps its entry, its list loses exactly the occurrences
/// of `n`, and adjacency shrinks to the pairs that avoid `n`.
pub proof fn lemma_scrub(g: Seq<EntryView>, n: Seq<char>)
    requires
        g_wf(g),
    ensures
        g_wf(scrub_entries(g, n)),
        !g_has(scrub_entries(g, n), n),
        forall|a: Seq<char>|
            a != n ==> (g_has(scrub_entries(g, n), a) <==> #[trigger] g_has(g, a)),
        forall|a: Seq<char>|
            a != n && #[trigger] g_has(g, a) ==> g_adj(scrub_entries(g, n), a) == rm_all(
                g_adj(g, a),
                n,
            ),
        forall|a: Seq<char>, b: Seq<char>|
            #[trigger] adjacent(scrub_entries(g, n), a, b) <==> (adjacent(g, a, b) && a != n
                && b != n),
{
    let h = rm_entry(g, n);
    let s = scrub_entries(g, n);
    assert(s.len() == h.len());
    assert(forall|k: int|
        0 <= k < h.len() ==> s[k].name == h[k].name && s[k].neighbors == rm_all(
            #[trigger] h[k].neighbors,
            n,
        ));
    if g_has(g, n) {
        let ri = g_idx(g, n);
        assert(0 <= ri < g.len() && g[ri].name == n);
        assert(forall|k: int|
            0 <= k < h.len() ==> #[trigger] h[k] == (if k < ri {
                g[k]
            } else {
                g[k + 1]
            }));
        assert(g_wf(h)) by {
            assert forall|i: int, j: int| 0 <= i < j < h.len() implies h[i].name
                != h[j].name by {
                if j < ri {
                    assert(h[i] == g[i] && h[j] == g[j]);
                } else if i < ri {
                    assert(h[i] == g[i] && h[j] == g[j + 1]);
                } else {
                    assert(h[i] == g[i + 1] && h[j] == g[j + 1]);
                }
            }
        }
        assert forall|k: int| 0 <= k < h.len() implies h[k].name != n by {
            if k < ri {
                assert(h[k] == g[k]);
            } else {
                assert(h[k] == g[k + 1]);
            }
        }
    } else {
        assert(h == g);
        assert forall|k: int| 0 <= k < h.len() implies h[k].name != n by {
            if h[k].name == n {
                assert(g_has(g, n));
            }
        }
    }
    assert(g_wf(s)) by {
        assert(forall|i: int, j: int|
            0 <= i < j < s.len() ==> s[i].name == h[i].name && s[j].name == h[j].name);
    }
    assert(!g_has(s, n)) by {
        if g_has(s, n) {
            let k = choose|k: int| 0 <= k < s.len() && s[k].name == n;
            assert(h[k].name == n);
        }
    }
    assert forall|a: Seq<char>| a != n implies (g_has(s, a) <==> #[trigger] g_has(g, a)) by {
        if g_has(s, a) {
            let k = choose|k: int| 0 <= k < s.len() && s[k].name == a;
            assert(h[k].name == a);
            if g_has(g, n) {
                let ri = g_idx(g, n);
                if k < ri {
                    assert(g[k].name == a);
                } else {
                    assert(g[k + 1].name == a);
                }
            }
        }
        if g_has(g, a) {
            let k = choose|k: int| 0 <= k < g.len() && g[k].name == a;
            if g_has(g, n) {
                let ri = g_idx(g, n);
                assert(k != ri);
                if k < ri {
                    assert(h[k].name == a);
                    assert(s[k].name == a);
                } else {
                    assert(h[k - 1] == g[k]);
                    assert(s[k - 1].name == a);
                }
            } else {
                assert(s[k].name == a);
            }
        }
    }
    assert forall|a: Seq<char>| a != n && #[trigger] g_has(g, a) implies g_adj(s, a) == rm_all(
        g_adj(g, a),
        n,
    ) by {
        let gi = g_idx(g, a);
        crate::graph::lemma_g_idx(g, gi);
        let hi: int = if g_has(g, n) && gi > g_idx(g, n) {
            gi - 1
        } else {
            gi
        };
        if g_has(g, n) {
            let ri = g_idx(g, n);
            assert(gi != ri);
            if gi < ri {
                assert(h[hi] == g[gi]);
            } else {
                assert(h[hi] == g[gi]);
            }
        } else {
            assert(h[hi] == g[gi]);
        }
        assert(s[hi].name == a);
        assert(s[hi].neighbors == rm_all(g[gi].neighbors, n));
        crate::graph::lemma_g_idx(s, hi);
        assert(g_adj(s, a) == s[hi].neighbors);
    }
    assert forall|a: Seq<char>, b: Seq<char>| #[trigger]
        adjacent(s, a, b) <==> (adjacent(g, a, b) && a != n && b != n) by {
        if a != n && g_has(g, a) {
            lemma_rm_all_mem(g_adj(g, a), n, b);
        }
        if adjacent(s, a, b) {
            assert(g_has(s, a));
            assert(a != n);
        }
    }
}

/// Keeps, in order, the names of `v` other than `n`.
fn filter_out(v: &Vec<String>, n: &String) -> (r: Vec<String>)
    ensures
        names_of(r@) == rm_all(names_of(v@), n@),
{
    let mut r: Vec<String> = Vec::new();
    let mut i: usize = 0;
    while i < v.len()
        invariant
            i <= v@.len(),
            names_of(r@) == rm_all(names_of(v@).take(i as int), n@),
        decreases v@.len() - i,
    {
        let ghost before = names_of(r@);
        if !v[i].eq(n) {
            r.push(v[i].clone());
            proof {
                assert(names_of(r@) =~= before + seq![names_of(v@)[i as int]]);
            }
        }
        proof {
            lemma_rm_all_take_step(names_of(v@), n@, i as int);
            if names_of(v@)[i as int] == n@ {
                assert(names_of(r@) =~= before + Seq::<Seq<char>>::empty());
            }
        }
        i = i + 1;
    }
    proof {
        assert(names_of(v@).take(names_of(v@).len() as int) =~= names_of(v@));
    }
    r
}

/// Removes the device named `device`: fails with `NotFound`, changing
/// nothing, when the name is not registered; otherwise deletes the
/// device's graph entry, scrubs the name from every remaining adjacency
/// list (repairing symmetry), and deletes the registry entry.
pub fn rm_device(device: &String, reg: &mut Registry, graph: &mut Graph) -> (r: Result<
    bool,
    NetError,
>)
    requires
        reg_wf(old(reg)@),
        g_wf(old(graph)@),
    ensures
        reg_wf(final(reg)@),
        g_wf(final(graph)@),
        match r {
            Err(e) => e == NetError::NotFound && !reg_has(old(reg)@, device@) && final(reg)@
                == old(reg)@ && final(graph)@ == old(graph)@,
            Ok(b) => b && reg_has(old(reg)@, device@) && final(reg)@ == old(reg)@.remove(
                reg_idx(old(reg)@, device@),
            ) && !reg_has(final(reg)@, device@) && final(graph)@ == scrub_entries(
                old(graph)@,
                device@,
            ) && !g_has(final(graph)@, device@) && (forall|i: int, j: int|
                0 <= i < final(graph)@.len() && 0 <= j < final(graph)@[i].neighbors.len()
                    ==> final(graph)@[i].neighbors[j] != device@) && (forall|
                a: Seq<char>,
                b: Seq<char>,
            |
                #[trigger] adjacent(final(graph)@, a, b) <==> (adjacent(old(graph)@, a, b) && a
                    != device@ && b != device@)),
        },
{
    let ghost dv = device@;
    let ghost g0 = graph@;
    match reg.position_of(device) {
        None => {
            return Err(NetError::NotFound);
        },
        Some(_) => {},
    }
    match graph.position_of(device) {
        Some(gi) => {
            proof {
                lemma_g_idx(graph@, gi as int);
            }
            graph.entries.remove(gi);
            proof {
                assert(graph@ =~= g0.remove(gi as int));
                assert(graph@ =~= rm_entry(g0, dv));
            }
        },
        None => {
            proof {
                assert(graph@ =~= rm_entry(g0, dv));
            }
        },
    }
    let ghost h = graph@;
    let mut i: usize = 0;
    while i < graph.entries.len()
        invariant
            dv == device@,
            i <= h.len(),
            graph@.len() == h.len(),
            graph@.len() == graph.entries@.len(),
            forall|k: int|
                0 <= k < i ==> graph@[k] == (EntryView {
                    name: h[k].name,
                    neighbors: rm_all(h[k].neighbors, dv),
                }),
            forall|k: int| i <= k < h.len() ==> graph@[k] == h[k],
        decreases h.len() - i,
    {
        let ghost gprev = graph@;
        let mut e = graph.entries.remove(i);
        let ghost e0 = e@;
        proof {
            assert(e0 == gprev[i as int]);
        }
        let filtered = filter_out(&e.neighbors, device);
        let ghost filteredv = names_of(filtered@);
        proof {
            assert(names_of(e.neighbors@) == e0.neighbors);
            assert(filteredv == rm_all(e0.neighbors, dv));
        }
        e.neighbors = filtered;
        let ghost ev = e@;
        graph.entries.insert(i, e);
        proof {
            assert(graph@ =~= gprev.update(i as int, ev));
            assert(ev.name == h[i as int].name);
            assert(ev.neighbors == filteredv);
            assert(ev.neighbors == rm_all(h[i as int].neighbors, dv));
        }
        i = i + 1;
    }
    proof {
        assert(graph@ =~= scrub_entries(g0, dv));
        lemma_scrub(g0, dv);
        assert forall|i2: int, j2: int|
            0 <= i2 < graph@.len() && 0 <= j2 < graph@[i2].neighbors.len() implies graph@[
            i2
        ].neighbors[j2] != dv by {
            let en = graph@[i2];
            assert(en.neighbors == rm_all(rm_entry(g0, dv)[i2].neighbors, dv));
            assert(en.neighbors.contains(en.neighbors[j2]));
            lemma_rm_all_mem(rm_entry(g0, dv)[i2].neighbors, dv, en.neighbors[j2]);
        }
    }
    match reg.remove(device) {
        Ok(()) => {},
        Err(_) => {
            proof {
                assert(false);
            }
        },
    }
    Ok(true)
}



/// Removing a device keeps the graph symmetric over the remaining
/// devices: after the scrub, `a` is adjacent to `b` exactly when it was
/// before and neither is the removed name, a relation that is itself
/// symmetric.
pub proof fn lemma_removal_preserves_symmetry(g: Seq<EntryView>, n: Seq<char>)
    requires
        g_wf(g),
        crate::graph::symmetric(g),
    ensures
        crate::graph::symmetric(scrub_entries(g, n)),
{
    lemma_scrub(g, n);
    let s = scrub_entries(g, n);
    assert forall|a: Seq<char>, b: Seq<char>| adjacent(s, a, b) implies adjacent(s, b, a) by {
        assert(adjacent(g, a, b) && a != n && b != n);
        assert(adjacent(g, b, a));
    }
}

/// Removing a device leaves no dangling adjacency: every name still on
/// some list still has an entry of its own.
pub proof fn lemma_removal_preserves_closed(g: Seq<EntryView>, n: Seq<char>)
    requires
        g_wf(g),
        crate::graph::closed(g),
    ensures
        crate::graph::closed(scrub_entries(g, n)),
{
    lemma_scrub(g, n);
    let s = scrub_entries(g, n);
    let h = rm_entry(g, n);
    assert forall|i: int, j: int|
        0 <= i < s.len() && 0 <= j < s[i].neighbors.len() implies g_has(
        s,
        s[i].neighbors[j],
    ) by {
        let y = s[i].neighbors[j];
        assert(s[i].neighbors == rm_all(h[i].neighbors, n));
        assert(s[i].neighbors.contains(y));
        lemma_rm_all_mem(h[i].neighbors, n, y);
        assert(h[i].neighbors.contains(y) && y != n);
        let k: int = if g_has(g, n) {
            let ri = g_idx(g, n);
            if i < ri {
                i
            } else {
                i + 1
            }
        } else {
            i
        };
        assert(h[i] == g[k]) by {
            if g_has(g, n) {
                let ri = g_idx(g, n);
                assert(h =~= g.remove(ri));
            }
        }
        let jj = choose|jj: int| 0 <= jj < g[k].neighbors.len() && g[k].neighbors[jj] == y;
        assert(g_has(g, g[k].neighbors[jj]));
        assert(g_has(g, y));
    }
}

} // verus!
