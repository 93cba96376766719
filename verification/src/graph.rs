//! The connection graph: a name-keyed mapping from device name to the
//! ordered list of directly connected device names, together with the
//! one-time builder that turns declared one-directional edges into a
//! fully bidirectional graph.

use vstd::prelude::*;

use crate::device::Device;
use crate::device::DeviceView;
use crate::registry::reg_has;
use crate::registry::reg_wf;
use crate::registry::Registry;
use crate::strutil::clone_names;
use crate::strutil::names_of;

verus! {

/// The mathematical form of one adjacency entry.
pub struct EntryView {
    pub name: Seq<char>,
    pub neighbors: Seq<Seq<char>>,
}

/// One adjacency entry: a device name and the names directly connected
/// to it, in declaration/append order.
pub struct Entry {
    pub name: String,
    pub neighbors: Vec<String>,
}

impl View for Entry {
    type V = EntryView;

    open spec fn view(&self) -> EntryView {
        EntryView { name: self.name@, neighbors: names_of(self.neighbors@) }
    }
}

/// Whether the graph has an entry for `n`.
pub open spec fn g_has(s: Seq<EntryView>, n: Seq<char>) -> bool {
    exists|i: int| 0 <= i < s.len() && s[i].name == n
}

/// The index of the entry for `n` (meaningful under `g_wf`).
pub open spec fn g_idx(s: Seq<EntryView>, n: Seq<char>) -> int {
    choose|i: int| 0 <= i < s.len() && s[i].name == n
}

/// The adjacency list of `n` (meaningful when `g_has` holds).
pub open spec fn g_adj(s: Seq<EntryView>, n: Seq<char>) -> Seq<Seq<char>> {
    s[g_idx(s, n)].neighbors
}

/// Well-formedness: entry names are pairwise distinct.
pub open spec fn g_wf(s: Seq<EntryView>) -> bool {
    forall|i: int, j: int| 0 <= i < j < s.len() ==> s[i].name != s[j].name
}

/// `a` has an entry whose adjacency list contains `b`.
pub open spec fn adjacent(s: Seq<EntryView>, a: Seq<char>, b: Seq<char>) -> bool {
    g_has(s, a) && g_adj(s, a).contains(b)
}

/// Every name on an adjacency list has an entry of its own.
pub open spec fn closed(s: Seq<EntryView>) -> bool {
    forall|i: int, j: int|
        0 <= i < s.len() && 0 <= j < s[i].neighbors.len() ==> g_has(s, s[i].neighbors[j])
}

/// Adjacency is mutual.
pub open spec fn symmetric(s: Seq<EntryView>) -> bool {
    forall|a: Seq<char>, b: Seq<char>| adjacent(s, a, b) <==> adjacent(s, b, a)
}

/// Under `g_wf`, the index chosen for a name is the index where the name
/// stands.
pub proof fn lemma_g_idx(s: Seq<EntryView>, i: int)
    requires
        g_wf(s),
        0 <= i < s.len(),
    ensures
        g_has(s, s[i].name),
        g_idx(s, s[i].name) == i,
{
    assert(g_has(s, s[i].name));
    let j = g_idx(s, s[i].name);
    if i < j {
        assert(s[i].name != s[j].name);
    } else if j < i {
        assert(s[j].name != s[i].name);
    }
}

/// The adjacency structure itself.
pub struct Graph {
    pub entries: Vec<Entry>,
}

impl View for Graph {
    type V = Seq<EntryView>;

    open spec fn view(&self) -> Seq<EntryView> {
        self.entries@.map_values(|e: Entry| e@)
    }
}

impl Graph {
    /// An empty graph.
    pub fn new() -> (r: Graph)
        ensures
            r@.len() == 0,
    {
        Graph { entries: Vec::new() }
    }

    /// The index of the entry named `name`, if one exists.
    pub fn position_of(&self, name: &String) -> (r: Option<usize>)
        ensures
            match r {
                Some(i) => i < self@.len() && self@[i as int].name == name@,
                None => !g_has(self@, name@),
            },
    {
        let mut i: usize = 0;
        while i < self.entries.len()
            invariant
                i <= self@.len(),
                self@.len() == self.entries@.len(),
                forall|k: int| 0 <= k < i ==> self@[k].name != name@,
            decreases self@.len() - i,
        {
            if self.entries[i].name.eq(name) {
                return Some(i);
            }
            i = i + 1;
        }
        None
    }

    /// The index of the entry named `name`, which must exist.
    pub fn find_idx(&self, name: &String) -> (i: usize)
        requires
            g_has(self@, name@),
        ensures
            i < self@.len(),
            self@[i as int].name == name@,
    {
        match self.position_of(name) {
            Some(i) => i,
            None => {
                proof {
                    assert(false);
                }
                0
            },
        }
    }

    /// Appends one name to the adjacency list of the entry at `i`.
    pub fn append_at(&mut self, i: usize, x: String)
        requires
            i < old(self)@.len(),
        ensures
            final(self)@ == old(self)@.update(
                i as int,
                EntryView {
                    name: old(self)@[i as int].name,
                    neighbors: old(self)@[i as int].neighbors.push(x@),
                },
            ),
    {
        let ghost xv = x@;
        let ghost oldent = old(self)@[i as int];
        let mut e = self.entries.remove(i);
        e.neighbors.push(x);
        let ghost ev = e@;
        self.entries.insert(i, e);
        proof {
            assert(ev.neighbors =~= oldent.neighbors.push(xv));
            assert(self@ =~= old(self)@.update(
                i as int,
                EntryView { name: oldent.name, neighbors: oldent.neighbors.push(xv) },
            ));
        }
    }
}

/// In a list of character sequences, membership in the whole list is
/// membership in one of the two halves.
pub proof fn lemma_add_contains(a: Seq<Seq<char>>, b: Seq<Seq<char>>, y: Seq<char>)
    ensures
        (a + b).contains(y) <==> a.contains(y) || b.contains(y),
{
    if (a + b).contains(y) {
        let i = choose|i: int| 0 <= i < (a + b).len() && (a + b)[i] == y;
        if i < a.len() {
            assert(a[i] == y);
        } else {
            assert(b[i - a.len()] == y);
        }
    }
    if a.contains(y) {
        let i = choose|i: int| 0 <= i < a.len() && a[i] == y;
        assert((a + b)[i] == y);
    }
    if b.contains(y) {
        let i = choose|i: int| 0 <= i < b.len() && b[i] == y;
        assert((a + b)[a.len() + i] == y);
    }
}

/// Membership in a non-empty list is membership before the last element
/// or equality with it.
pub proof fn lemma_contains_split_last(v: Seq<Seq<char>>, x: Seq<char>)
    requires
        v.len() > 0,
    ensures
        v.contains(x) <==> (v.drop_last().contains(x) || v.last() == x),
{
    if v.contains(x) {
        let i = choose|i: int| 0 <= i < v.len() && v[i] == x;
        if i < v.len() - 1 {
            assert(v.drop_last()[i] == x);
        }
    }
    if v.drop_last().contains(x) {
        let i = choose|i: int| 0 <= i < v.drop_last().len() && v.drop_last()[i] == x;
        assert(v[i] == x);
    }
}

/// One occurrence of `key` for every occurrence of `x` in `vals`: the
/// names appended to `x`'s adjacency list while the builder walks one
/// declared entry `(key, vals)`.
pub open spec fn reps(key: Seq<char>, vals: Seq<Seq<char>>, x: Seq<char>) -> Seq<Seq<char>>
    decreases vals.len(),
{
    if vals.len() == 0 {
        Seq::empty()
    } else {
        reps(key, vals.drop_last(), x) + (if vals.last() == x {
            seq![key]
        } else {
            Seq::empty()
        })
    }
}

/// The names appended to `x`'s adjacency list while the builder walks
/// all declared entries of `d`, in order.
pub open spec fn appended(d: Seq<EntryView>, x: Seq<char>) -> Seq<Seq<char>>
    decreases d.len(),
{
    if d.len() == 0 {
        Seq::empty()
    } else {
        appended(d.drop_last(), x) + reps(d.last().name, d.last().neighbors, x)
    }
}

/// The adjacency list that `x` declares itself, or nothing.
pub open spec fn declared_of(d: Seq<EntryView>, x: Seq<char>) -> Seq<Seq<char>> {
    if g_has(d, x) {
        g_adj(d, x)
    } else {
        Seq::empty()
    }
}

/// The full adjacency list of `x` after the builder runs: what `x`
/// declared, followed by one entry per declared edge pointing at `x`.
pub open spec fn built_adj(d: Seq<EntryView>, x: Seq<char>) -> Seq<Seq<char>> {
    declared_of(d, x) + appended(d, x)
}

/// `y` stands on the adjacency list that `x` declared.
pub open spec fn declared_mem(d: Seq<EntryView>, x: Seq<char>, y: Seq<char>) -> bool {
    g_has(d, x) && g_adj(d, x).contains(y)
}

proof fn lemma_reps_take_step(key: Seq<char>, vals: Seq<Seq<char>>, x: Seq<char>, j: int)
    requires
        0 <= j < vals.len(),
    ensures
        reps(key, vals.take(j + 1), x) == reps(key, vals.take(j), x) + (if vals[j] == x {
            seq![key]
        } else {
            Seq::<Seq<char>>::empty()
        }),
{
    assert(vals.take(j + 1).drop_last() =~= vals.take(j));
}

proof fn lemma_appended_take_step(d: Seq<EntryView>, x: Seq<char>, i: int)
    requires
        0 <= i < d.len(),
    ensures
        appended(d.take(i + 1), x) == appended(d.take(i), x) + reps(
            d[i].name,
            d[i].neighbors,
            x,
        ),
{
    assert(d.take(i + 1).drop_last() =~= d.take(i));
}

/// `key` is appended for `x` exactly when `x` stands among `vals`, and
/// nothing else is ever appended.
pub proof fn lemma_reps_mem(key: Seq<char>, vals: Seq<Seq<char>>, x: Seq<char>, y: Seq<char>)
    ensures
        reps(key, vals, x).contains(y) <==> (y == key && vals.contains(x)),
    decreases vals.len(),
{
    if vals.len() == 0 {
    } else {
        lemma_reps_mem(key, vals.drop_last(), x, y);
        let extra: Seq<Seq<char>> = if vals.last() == x {
            seq![key]
        } else {
            Seq::empty()
        };
        lemma_add_contains(reps(key, vals.drop_last(), x), extra, y);
        lemma_contains_split_last(vals, x);
        if vals.last() == x && y == key {
            assert(extra[0] == y);
        }
    }
}

/// What the appended part of a built adjacency list holds: `y` was
/// appended to `x`'s list exactly when some declared entry is named `y`
/// and lists `x`.
pub proof fn lemma_appended_mem(d: Seq<EntryView>, x: Seq<char>, y: Seq<char>)
    ensures
        appended(d, x).contains(y) <==> exists|i: int|
            0 <= i < d.len() && d[i].name == y && d[i].neighbors.contains(x),
    decreases d.len(),
{
    if d.len() == 0 {
    } else {
        let u = d.drop_last();
        lemma_appended_mem(u, x, y);
        lemma_add_contains(appended(u, x), reps(d.last().name, d.last().neighbors, x), y);
        lemma_reps_mem(d.last().name, d.last().neighbors, x, y);
        if appended(d, x).contains(y) {
            if appended(u, x).contains(y) {
                let i = choose|i: int|
                    0 <= i < u.len() && u[i].name == y && u[i].neighbors.contains(x);
                assert(d[i].name == y && d[i].neighbors.contains(x));
            } else {
                assert(d[d.len() - 1].name == y && d[d.len() - 1].neighbors.contains(x));
            }
        }
        if exists|i: int| 0 <= i < d.len() && d[i].name == y && d[i].neighbors.contains(x) {
            let i = choose|i: int|
                0 <= i < d.len() && d[i].name == y && d[i].neighbors.contains(x);
            if i < d.len() - 1 {
                assert(u[i].name == y && u[i].neighbors.contains(x));
            }
        }
    }
}

/// A prefix of a well-formed entry list is well-formed.
pub proof fn lemma_wf_take(d: Seq<EntryView>, m: int)
    requires
        g_wf(d),
        0 <= m <= d.len(),
    ensures
        g_wf(d.take(m)),
{
    assert(forall|i: int, j: int|
        0 <= i < j < m ==> d.take(m)[i] == d[i] && d.take(m)[j] == d[j]);
}

/// How one builder overwrite step changes the declared lookup.
proof fn lemma_declared_of_take_step(d: Seq<EntryView>, i: int, x: Seq<char>)
    requires
        g_wf(d),
        0 <= i < d.len(),
    ensures
        x != d[i].name ==> declared_of(d.take(i + 1), x) == declared_of(d.take(i), x),
        x == d[i].name ==> declared_of(d.take(i + 1), x) == d[i].neighbors,
{
    lemma_wf_take(d, i);
    lemma_wf_take(d, i + 1);
    if x == d[i].name {
        assert(d.take(i + 1)[i] == d[i]);
        lemma_g_idx(d.take(i + 1), i);
    } else {
        if g_has(d.take(i + 1), x) {
            let k = g_idx(d.take(i + 1), x);
            assert(d.take(i + 1)[k].name == x);
            assert(k != i);
            assert(d.take(i)[k] == d[k]);
            lemma_g_idx(d.take(i + 1), k);
            lemma_g_idx(d.take(i), k);
        } else if g_has(d.take(i), x) {
            let k = g_idx(d.take(i), x);
            assert(d.take(i + 1)[k].name == x);
        }
    }
}

/// Records one device's declared outgoing connections: inserts the list
/// under the device's name, overwriting any earlier declaration for the
/// same name.
pub fn perform_connections(device: &Device, neighbor_names: Vec<String>, declared: &mut Graph)
    requires
        g_wf(old(declared)@),
    ensures
        g_wf(final(declared)@),
        g_has(old(declared)@, device@.name) ==> final(declared)@ == old(declared)@.update(
            g_idx(old(declared)@, device@.name),
            EntryView { name: device@.name, neighbors: names_of(neighbor_names@) },
        ),
        !g_has(old(declared)@, device@.name) ==> final(declared)@ == old(declared)@.push(
            EntryView { name: device@.name, neighbors: names_of(neighbor_names@) },
        ),
        g_has(final(declared)@, device@.name),
        g_adj(final(declared)@, device@.name) == names_of(neighbor_names@),
{
    let ghost ev = EntryView { name: device@.name, neighbors: names_of(neighbor_names@) };
    let e = Entry { name: device.name.clone(), neighbors: neighbor_names };
    proof {
        assert(e@ == ev);
    }
    match declared.position_of(&device.name) {
        Some(i) => {
            proof {
                lemma_g_idx(declared@, i as int);
            }
            declared.entries.set(i, e);
            proof {
                assert(declared@ =~= old(declared)@.update(i as int, ev));
                lemma_g_idx(declared@, i as int);
            }
        },
        None => {
            declared.entries.push(e);
            proof {
                assert(declared@ =~= old(declared)@.push(ev));
                lemma_g_idx(declared@, declared@.len() - 1);
            }
        },
    }
}

/// Step one of the builder: one empty adjacency entry per registered
/// device, in registry order.
#[verifier::loop_isolation(false)]
fn build_empty_entries(reg: &Registry) -> (g: Graph)
    requires
        reg_wf(reg@),
    ensures
        g@.len() == reg@.len(),
        forall|k: int| 0 <= k < g@.len() ==> g@[k].name == reg@[k].name,
        forall|k: int| 0 <= k < g@.len() ==> g@[k].neighbors == Seq::<Seq<char>>::empty(),
        g_wf(g@),
{
    let mut g = Graph::new();
    let mut i: usize = 0;
    while i < reg.devices.len()
        invariant
            i <= reg@.len(),
            g@.len() == i,
            forall|k: int| 0 <= k < i ==> g@[k].name == reg@[k].name,
            forall|k: int| 0 <= k < i ==> g@[k].neighbors == Seq::<Seq<char>>::empty(),
        decreases reg@.len() - i,
    {
        let e = Entry { name: reg.devices[i].name.clone(), neighbors: Vec::new() };
        let ghost ev = e@;
        let ghost gprev = g@;
        proof {
            assert(ev.neighbors =~= Seq::<Seq<char>>::empty());
        }
        g.entries.push(e);
        proof {
            assert(g@[i as int] == ev);
            assert forall|k: int| 0 <= k < i + 1 implies g@[k].neighbors == Seq::<
                Seq<char>,
            >::empty() && g@[k].name == reg@[k].name by {
                if k < i {
                    assert(g@[k] == gprev[k]);
                }
            }
        }
        i = i + 1;
    }
    proof {
        assert(g_wf(g@)) by {
            assert(forall|a: int, b: int|
                0 <= a < b < g@.len() ==> g@[a].name == reg@[a].name && g@[b].name
                    == reg@[b].name);
        }
    }
    g
}

/// Step two of the builder: each declared adjacency list verbatim,
/// overwriting the empty entry made in step one.
#[verifier::loop_isolation(false)]
fn overwrite_declared(g: &mut Graph, declared: &Graph, reg: &Registry)
    requires
        reg_wf(reg@),
        g_wf(declared@),
        forall|i: int| 0 <= i < declared@.len() ==> reg_has(reg@, declared@[i].name),
        old(g)@.len() == reg@.len(),
        forall|k: int| 0 <= k < old(g)@.len() ==> old(g)@[k].name == reg@[k].name,
        forall|k: int|
            0 <= k < old(g)@.len() ==> old(g)@[k].neighbors == Seq::<Seq<char>>::empty(),
        g_wf(old(g)@),
    ensures
        final(g)@.len() == reg@.len(),
        forall|k: int| 0 <= k < final(g)@.len() ==> final(g)@[k].name == reg@[k].name,
        g_wf(final(g)@),
        forall|k: int|
            0 <= k < final(g)@.len() ==> final(g)@[k].neighbors == declared_of(
                declared@,
                final(g)@[k].name,
            ),
{
    let ghost d = declared@;
    let mut i: usize = 0;
    proof {
        assert(forall|k: int|
            0 <= k < g@.len() ==> g@[k].neighbors == declared_of(d.take(0), g@[k].name));
    }
    while i < declared.entries.len()
        invariant
            i <= d.len(),
            g@.len() == reg@.len(),
            g_wf(g@),
            forall|k: int| 0 <= k < g@.len() ==> g@[k].name == reg@[k].name,
            forall|k: int|
                0 <= k < g@.len() ==> g@[k].neighbors == declared_of(
                    d.take(i as int),
                    g@[k].name,
                ),
        decreases d.len() - i,
    {
        let name_i = declared.entries[i].name.clone();
        proof {
            assert(reg_has(reg@, d[i as int].name));
            let w = choose|w: int| 0 <= w < reg@.len() && reg@[w].name == d[i as int].name;
            assert(g@[w].name == d[i as int].name);
        }
        let p = g.find_idx(&name_i);
        let nb = clone_names(&declared.entries[i].neighbors);
        let e = Entry { name: name_i, neighbors: nb };
        let ghost gprev = g@;
        g.entries.set(p, e);
        proof {
            assert(g@ =~= gprev.update(p as int, e@));
            assert(e@.name == d[i as int].name);
            assert(e@.neighbors == d[i as int].neighbors);
            assert(g_wf(g@)) by {
                assert(forall|k: int| 0 <= k < g@.len() ==> g@[k].name == reg@[k].name);
            }
            assert forall|k: int| 0 <= k < g@.len() implies g@[k].neighbors == declared_of(
                d.take(i + 1),
                g@[k].name,
            ) by {
                lemma_declared_of_take_step(d, i as int, g@[k].name);
                if k != p {
                    assert(g@[k] == gprev[k]);
                    assert(g@[k].name != d[i as int].name) by {
                        assert(gprev[p as int].name == d[i as int].name);
                    }
                }
            }
        }
        i = i + 1;
    }
    proof {
        assert(d.take(d.len() as int) =~= d);
    }
}

/// Step three of the builder: for every declared edge `src -> t`, append
/// `src` to `t`'s list, so the edge also runs backwards.
#[verifier::loop_isolation(false)]
#[verifier::rlimit(100)]
fn append_back_edges(g: &mut Graph, declared: &Graph, reg: &Registry)
    requires
        reg_wf(reg@),
        g_wf(declared@),
        forall|i: int| 0 <= i < declared@.len() ==> reg_has(reg@, declared@[i].name),
        forall|i: int, j: int|
            0 <= i < declared@.len() && 0 <= j < declared@[i].neighbors.len() ==> reg_has(
                reg@,
                declared@[i].neighbors[j],
            ),
        old(g)@.len() == reg@.len(),
        forall|k: int| 0 <= k < old(g)@.len() ==> old(g)@[k].name == reg@[k].name,
        g_wf(old(g)@),
        forall|k: int|
            0 <= k < old(g)@.len() ==> old(g)@[k].neighbors == declared_of(
                declared@,
                old(g)@[k].name,
            ),
    ensures
        final(g)@.len() == reg@.len(),
        forall|k: int| 0 <= k < final(g)@.len() ==> final(g)@[k].name == reg@[k].name,
        g_wf(final(g)@),
        forall|k: int|
            0 <= k < final(g)@.len() ==> final(g)@[k].neighbors == built_adj(
                declared@,
                final(g)@[k].name,
            ),
{
    let ghost d = declared@;
    let mut i: usize = 0;
    proof {
        assert forall|k: int| 0 <= k < g@.len() implies g@[k].neighbors == declared_of(
            d,
            g@[k].name,
        ) + appended(d.take(0), g@[k].name) by {
            assert(g@[k].neighbors =~= declared_of(d, g@[k].name) + appended(
                d.take(0),
                g@[k].name,
            ));
        }
    }
    while i < declared.entries.len()
        invariant
            i <= d.len(),
            g@.len() == reg@.len(),
            g_wf(g@),
            forall|k: int| 0 <= k < g@.len() ==> g@[k].name == reg@[k].name,
            forall|k: int|
                0 <= k < g@.len() ==> g@[k].neighbors == declared_of(d, g@[k].name) + appended(
                    d.take(i as int),
                    g@[k].name,
                ),
        decreases d.len() - i,
    {
        proof {
            assert forall|k: int| 0 <= k < g@.len() implies g@[k].neighbors == declared_of(
                d,
                g@[k].name,
            ) + appended(d.take(i as int), g@[k].name) + reps(
                d[i as int].name,
                d[i as int].neighbors.take(0),
                g@[k].name,
            ) by {
                assert(d[i as int].neighbors.take(0).len() == 0);
                assert(g@[k].neighbors =~= declared_of(d, g@[k].name) + appended(
                    d.take(i as int),
                    g@[k].name,
                ) + reps(d[i as int].name, d[i as int].neighbors.take(0), g@[k].name));
            }
        }
        let mut j: usize = 0;
        while j < declared.entries[i].neighbors.len()
            invariant
                i < d.len(),
                j <= d[i as int].neighbors.len(),
                g@.len() == reg@.len(),
                g_wf(g@),
                forall|k: int| 0 <= k < g@.len() ==> g@[k].name == reg@[k].name,
                forall|k: int|
                    0 <= k < g@.len() ==> g@[k].neighbors == declared_of(d, g@[k].name)
                        + appended(d.take(i as int), g@[k].name) + reps(
                        d[i as int].name,
                        d[i as int].neighbors.take(j as int),
                        g@[k].name,
                    ),
            decreases d[i as int].neighbors.len() - j,
        {
            let target = &declared.entries[i].neighbors[j];
            proof {
                assert(names_of(declared.entries[i as int].neighbors@)[j as int] == target@);
                assert(d[i as int].neighbors[j as int] == target@);
                assert(reg_has(reg@, target@));
                let w = choose|w: int| 0 <= w < reg@.len() && reg@[w].name == target@;
                assert(g@[w].name == target@);
            }
            let p = g.find_idx(target);
            let ghost gprev = g@;
            g.append_at(p, declared.entries[i].name.clone());
            proof {
                assert forall|k: int| 0 <= k < g@.len() implies g@[k].neighbors == declared_of(
                    d,
                    g@[k].name,
                ) + appended(d.take(i as int), g@[k].name) + reps(
                    d[i as int].name,
                    d[i as int].neighbors.take(j + 1),
                    g@[k].name,
                ) by {
                    lemma_reps_take_step(
                        d[i as int].name,
                        d[i as int].neighbors,
                        g@[k].name,
                        j as int,
                    );
                    let base = declared_of(d, g@[k].name) + appended(
                        d.take(i as int),
                        g@[k].name,
                    ) + reps(
                        d[i as int].name,
                        d[i as int].neighbors.take(j as int),
                        g@[k].name,
                    );
                    if k == p {
                        assert(g@[k].name == target@);
                        assert(g@[k].neighbors == gprev[k].neighbors.push(d[i as int].name));
                        assert(g@[k].neighbors =~= base + seq![d[i as int].name]);
                        assert(g@[k].neighbors =~= declared_of(d, g@[k].name) + appended(
                            d.take(i as int),
                            g@[k].name,
                        ) + reps(d[i as int].name, d[i as int].neighbors.take(j + 1), g@[k].name));
                    } else {
                        assert(g@[k] == gprev[k]);
                        assert(g@[k].name != target@) by {
                            assert(gprev[p as int].name == target@);
                        }
                        assert(g@[k].neighbors =~= base + Seq::<Seq<char>>::empty());
                        assert(g@[k].neighbors =~= declared_of(d, g@[k].name) + appended(
                            d.take(i as int),
                            g@[k].name,
                        ) + reps(d[i as int].name, d[i as int].neighbors.take(j + 1), g@[k].name));
                    }
                }
            }
            j = j + 1;
        }
        proof {
            assert(d[i as int].neighbors.take(d[i as int].neighbors.len() as int) =~= d[
                i as int
            ].neighbors);
            assert forall|k: int| 0 <= k < g@.len() implies g@[k].neighbors == declared_of(
                d,
                g@[k].name,
            ) + appended(d.take(i + 1), g@[k].name) by {
                lemma_appended_take_step(d, g@[k].name, i as int);
                assert(g@[k].neighbors =~= declared_of(d, g@[k].name) + appended(
                    d.take(i + 1),
                    g@[k].name,
                ));
            }
        }
        i = i + 1;
    }
    proof {
        assert(d.take(d.len() as int) =~= d);
    }
}

/// Builds the bidirectional connection graph from the declared
/// one-directional edges: first an empty entry for every registered
/// device, then each declared list verbatim, then for every declared
/// edge `src -> t` one appended occurrence of `src` on `t`'s list.
///
/// The result is symmetric: `a` is adjacent to `b` exactly when `b` is
/// adjacent to `a`.
pub fn connect_bidirectional(declared: &Graph, reg: &Registry) -> (g: Graph)
    requires
        reg_wf(reg@),
        g_wf(declared@),
        forall|i: int| 0 <= i < declared@.len() ==> reg_has(reg@, declared@[i].name),
        forall|i: int, j: int|
            0 <= i < declared@.len() && 0 <= j < declared@[i].neighbors.len() ==> reg_has(
                reg@,
                declared@[i].neighbors[j],
            ),
    ensures
        g_wf(g@),
        g@.len() == reg@.len(),
        forall|k: int| 0 <= k < g@.len() ==> g@[k].name == reg@[k].name,
        forall|k: int|
            0 <= k < g@.len() ==> g@[k].neighbors == built_adj(declared@, g@[k].name),
        forall|a: Seq<char>, b: Seq<char>|
            #[trigger] adjacent(g@, a, b) <==> (reg_has(reg@, a) && (declared_mem(
                declared@,
                a,
                b,
            ) || declared_mem(declared@, b, a))),
        symmetric(g@),
        closed(g@),
{
    let ghost d = declared@;
    let mut g = build_empty_entries(reg);
    overwrite_declared(&mut g, declared, reg);
    append_back_edges(&mut g, declared, reg);
    proof {
        // The membership characterization, and with it symmetry and
        // closedness.
        assert forall|a: Seq<char>, b: Seq<char>| #[trigger]
            adjacent(g@, a, b) <==> (reg_has(reg@, a) && (declared_mem(d, a, b)
                || declared_mem(d, b, a))) by {
            lemma_built_mem(d, reg@, g@, a, b);
        }
        assert forall|a: Seq<char>, b: Seq<char>| #[trigger]
            adjacent(g@, a, b) implies adjacent(g@, b, a) by {
            lemma_built_mem(d, reg@, g@, a, b);
            lemma_built_mem(d, reg@, g@, b, a);
            lemma_declared_mem_reg(d, reg@, a, b);
        }
        assert(symmetric(g@));
        assert forall|u: int, v: int|
            0 <= u < g@.len() && 0 <= v < g@[u].neighbors.len() implies g_has(
            g@,
            g@[u].neighbors[v],
        ) by {
            let b = g@[u].neighbors[v];
            assert(g@[u].neighbors.contains(b));
            assert(adjacent(g@, g@[u].name, b)) by {
                lemma_g_idx(g@, u);
            }
            lemma_built_mem(d, reg@, g@, g@[u].name, b);
            lemma_declared_mem_reg(d, reg@, g@[u].name, b);
        }
    }
    g
}

/// Both ends of a declared edge are registered names.
proof fn lemma_declared_mem_reg(
    d: Seq<EntryView>,
    reg: Seq<DeviceView>,
    a: Seq<char>,
    b: Seq<char>,
)
    requires
        forall|i: int| 0 <= i < d.len() ==> reg_has(reg, d[i].name),
        forall|i: int, j: int|
            0 <= i < d.len() && 0 <= j < d[i].neighbors.len() ==> reg_has(
                reg,
                d[i].neighbors[j],
            ),
        declared_mem(d, a, b) || declared_mem(d, b, a),
    ensures
        reg_has(reg, a),
        reg_has(reg, b),
{
    if declared_mem(d, a, b) {
        let i = g_idx(d, a);
        assert(reg_has(reg, d[i].name));
        let j = choose|j: int| 0 <= j < d[i].neighbors.len() && d[i].neighbors[j] == b;
        assert(reg_has(reg, d[i].neighbors[j]));
    } else {
        let i = g_idx(d, b);
        assert(reg_has(reg, d[i].name));
        let j = choose|j: int| 0 <= j < d[i].neighbors.len() && d[i].neighbors[j] == a;
        assert(reg_has(reg, d[i].neighbors[j]));
    }
}

/// The built graph's adjacency, read off the exact per-entry lists.
proof fn lemma_built_mem(
    d: Seq<EntryView>,
    reg: Seq<DeviceView>,
    g: Seq<EntryView>,
    a: Seq<char>,
    b: Seq<char>,
)
    requires
        g_wf(d),
        g_wf(g),
        g.len() == reg.len(),
        forall|k: int| 0 <= k < g.len() ==> g[k].name == reg[k].name,
        forall|k: int| 0 <= k < g.len() ==> g[k].neighbors == built_adj(d, g[k].name),
    ensures
        adjacent(g, a, b) <==> (reg_has(reg, a) && (declared_mem(d, a, b) || declared_mem(
            d,
            b,
            a,
        ))),
{
    assert(g_has(g, a) <==> reg_has(reg, a)) by {
        assert(forall|k: int| 0 <= k < g.len() ==> g[k].name == reg[k].name);
    }
    if g_has(g, a) {
        let k = g_idx(g, a);
        lemma_g_idx(g, k);
        assert(g_adj(g, a) == g[k].neighbors);
        assert(g[k].neighbors == built_adj(d, a));
        lemma_add_contains(declared_of(d, a), appended(d, a), b);
        lemma_appended_mem(d, a, b);
        // The appended half holds b exactly when b's declared list holds a.
        assert(appended(d, a).contains(b) <==> declared_mem(d, b, a)) by {
            if appended(d, a).contains(b) {
                let i = choose|i: int|
                    0 <= i < d.len() && d[i].name == b && d[i].neighbors.contains(a);
                lemma_g_idx(d, i);
            }
            if declared_mem(d, b, a) {
                let i = g_idx(d, b);
                assert(0 <= i < d.len() && d[i].name == b && d[i].neighbors.contains(a));
            }
        }
        assert(declared_of(d, a).contains(b) <==> declared_mem(d, a, b));
    }
}

} // verus!
