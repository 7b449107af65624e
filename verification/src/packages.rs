//! Dependency resolver: from a dependency graph and the owner names observed
//! in the input, the shortest root-to-owner attribution chain per owner.

use vstd::prelude::*;
use crate::tool::{chars_to_string, str_chars, spec_get_crate_name, get_crate_name};
use crate::tree::SectionRecord;

verus! {

/// One component of the dependency graph: its name, and the indexes of the
/// components it depends on.
pub struct DepNode {
    pub name: String,
    pub deps: Vec<usize>,
}

/// A dependency graph as an index-addressed adjacency structure.  Edges mean
/// "depends on" and may contain cycles, self-loops included.
pub struct DepGraph {
    pub nodes: Vec<DepNode>,
}

pub open spec fn deps_in_range(ds: Seq<usize>, n: int) -> bool {
    forall|j: int| 0 <= j < ds.len() ==> (#[trigger] ds[j]) < n
}

/// Every dependency index points at a node of the graph.
pub open spec fn wf_graph(g: DepGraph) -> bool {
    forall|i: int| 0 <= i < g.nodes@.len() ==> deps_in_range(
        (#[trigger] g.nodes@[i]).deps@,
        g.nodes@.len() as int,
    )
}

/// Some node of the graph carries this normalized name.
pub open spec fn graph_has_name(g: DepGraph, nm: Seq<char>) -> bool {
    exists|i: int|
        0 <= i < g.nodes@.len() && spec_normalize_crate_name((#[trigger] g.nodes@[i]).name@) == nm
}

/// Every segment of the chain is a normalized graph node name.
pub open spec fn all_graph_names(g: DepGraph, p: Seq<Seq<char>>) -> bool {
    forall|j: int| 0 <= j < p.len() ==> graph_has_name(g, #[trigger] p[j])
}

/// Some node named `a` lists a node named `b` among its dependencies (names
/// normalized).
pub open spec fn name_edge(g: DepGraph, a: Seq<char>, b: Seq<char>) -> bool {
    exists|i1: int, d: int|
        0 <= i1 < g.nodes@.len() && 0 <= d < g.nodes@[i1].deps@.len()
            && spec_normalize_crate_name(g.nodes@[i1].name@) == a && spec_normalize_crate_name(
            g.nodes@[(#[trigger] g.nodes@[i1].deps@[d]) as int].name@,
        ) == b
}

/// Consecutive chain segments after the first follow a dependency edge.  The
/// first hop is exempt: merging the other candidate roots into the canonical
/// one redirects their outgoing edges to it.
pub open spec fn chain_edges(g: DepGraph, p: Seq<Seq<char>>) -> bool {
    forall|j: int| 1 <= j < p.len() - 1 ==> name_edge(g, #[trigger] p[j], p[j + 1])
}

/// Every chain of the map is the trivial single-element chain or follows
/// dependency edges after its first hop.
pub open spec fn chains_follow_edges(pm: Map<Seq<char>, Seq<Seq<char>>>, g: DepGraph) -> bool {
    forall|k: Seq<char>| #[trigger] pm.contains_key(k) ==> (pm[k] =~= seq![k] || chain_edges(
        g,
        pm[k],
    ))
}

/// `x` occurs in the index list.
pub open spec fn in_list(l: Seq<usize>, x: int) -> bool {
    exists|k: int| 0 <= k < l.len() && l[k] == x
}

/// The activity mask before anything was removed.
pub open spec fn all_active(n: nat) -> Seq<bool> {
    Seq::new(n, |k: int| true)
}

/// No node of the whole graph that nothing depends on carries the normalized
/// name of an observed owner.
pub open spec fn no_root_target(g: DepGraph, rows: Seq<(Seq<char>, Seq<char>, u64, u64)>) -> bool {
    forall|i: int|
        0 <= i < g.nodes@.len() && !spec_has_incoming(g, all_active(g.nodes@.len() as nat), i)
            ==> !is_target(rows, spec_normalize_crate_name((#[trigger] g.nodes@[i]).name@))
}

/// Crate names as they appear in symbols: `-` becomes `_`.
pub open spec fn spec_normalize_crate_name(s: Seq<char>) -> Seq<char> {
    s.map_values(|c: char| if c == '-' { '_' } else { c })
}

/// Normalize a crate name by replacing hyphens with underscores.
pub fn normalize_crate_name(name: &str) -> (r: String)
    ensures
        r@ == spec_normalize_crate_name(name@),
{
    let v = str_chars(name);
    let n = v.len();
    let mut out: Vec<char> = Vec::new();
    let mut i: usize = 0;
    while i < n
        invariant
            i <= n,
            n == v@.len(),
            v@ == name@,
            out@.len() == i,
            forall|j: int| 0 <= j < i ==> out@[j] == (if name@[j] == '-' {
                '_'
            } else {
                name@[j]
            }),
        decreases n - i,
    {
        if v[i] == '-' {
            out.push('_');
        } else {
            out.push(v[i]);
        }
        i = i + 1;
    }
    proof {
        assert(out@ =~= spec_normalize_crate_name(name@));
    }
    chars_to_string(&out)
}

/// `nm` is the name of an owner observed by the classifier in `rows`.
pub open spec fn is_target(rows: Seq<(Seq<char>, Seq<char>, u64, u64)>, nm: Seq<char>) -> bool {
    exists|i: int|
        0 <= i < rows.len() && (spec_get_crate_name((#[trigger] rows[i]).1) matches Some(pr)
            && pr.0 == nm)
}

/// The mapping an association list of chains stands for (later entries win).
pub open spec fn pkg_map(l: Seq<(String, Vec<String>)>) -> Map<Seq<char>, Seq<Seq<char>>>
    decreases l.len(),
{
    if l.len() == 0 {
        Map::empty()
    } else {
        pkg_map(l.drop_last()).insert(l.last().0@, l.last().1.deep_view())
    }
}

pub open spec fn pkg_unique_keys(l: Seq<(String, Vec<String>)>) -> bool {
    forall|i: int, j: int| 0 <= i < j < l.len() ==> l[i].0@ != l[j].0@
}

proof fn lemma_pkg_map_idx(l: Seq<(String, Vec<String>)>, j: int)
    requires
        pkg_unique_keys(l),
        0 <= j < l.len(),
    ensures
        pkg_map(l).contains_key(l[j].0@),
        pkg_map(l)[l[j].0@] == l[j].1.deep_view(),
    decreases l.len(),
{
    if j < l.len() - 1 {
        assert(l.drop_last()[j] == l[j]);
        assert(pkg_unique_keys(l.drop_last()));
        lemma_pkg_map_idx(l.drop_last(), j);
        assert(l.last().0@ != l[j].0@);
    }
}

proof fn lemma_pkg_map_absent(l: Seq<(String, Vec<String>)>, k: Seq<char>)
    requires
        forall|j: int| 0 <= j < l.len() ==> (#[trigger] l[j]).0@ != k,
    ensures
        !pkg_map(l).contains_key(k),
    decreases l.len(),
{
    if l.len() > 0 {
        lemma_pkg_map_absent(l.drop_last(), k);
    }
}

proof fn lemma_pkg_map_dom(l: Seq<(String, Vec<String>)>, k: Seq<char>)
    requires
        pkg_map(l).contains_key(k),
    ensures
        exists|j: int| 0 <= j < l.len() && (#[trigger] l[j]).0@ == k,
    decreases l.len(),
{
    if l.len() > 0 {
        if l.last().0@ == k {
            assert(l[l.len() - 1].0@ == k);
        } else {
            lemma_pkg_map_dom(l.drop_last(), k);
            let j = choose|j: int| 0 <= j < l.drop_last().len() && (#[trigger] l.drop_last()[
                j]).0@ == k;
            assert(l[j].0@ == k);
        }
    }
}

/// Every chain of the map is non-empty, ends with the name it resolves, and
/// either begins at the canonical root or is the trivial single-element chain.
pub open spec fn chains_ok(pm: Map<Seq<char>, Seq<Seq<char>>>, canon: Option<Seq<char>>) -> bool {
    forall|k: Seq<char>| #[trigger] pm.contains_key(k) ==> {
        let p = pm[k];
        p.len() >= 1 && p[p.len() - 1] == k && (match canon {
            Option::Some(root) => p[0] == root || p =~= seq![k],
            Option::None => p =~= seq![k],
        })
    }
}

/// Every chain of the map is the trivial single-element chain or consists
/// entirely of normalized graph node names.
pub open spec fn chains_in_graph(pm: Map<Seq<char>, Seq<Seq<char>>>, g: DepGraph) -> bool {
    forall|k: Seq<char>| #[trigger] pm.contains_key(k) ==> (pm[k] =~= seq![k] || all_graph_names(
        g,
        pm[k],
    ))
}

/// What the attribution pipeline relies on of a resolver map: sound chains
/// toward some canonical root, and a chain for every observed owner.
pub open spec fn resolver_ok(
    pm: Map<Seq<char>, Seq<Seq<char>>>,
    rows: Seq<(Seq<char>, Seq<char>, u64, u64)>,
) -> bool {
    &&& exists|canon: Option<Seq<char>>| #[trigger] chains_ok(pm, canon)
    &&& forall|nm: Seq<char>| #[trigger] is_target(rows, nm) ==> pm.contains_key(nm)
}

/// Package dependency resolver: maps each observed owner name to its shortest
/// root-to-owner chain in the dependency graph.
pub struct Packages {
    pub parent: Vec<(String, Vec<String>)>,
    /// Normalized name of the canonical root the chains lead back to, where
    /// one was found among the observed owners.
    pub canon: Ghost<Option<Seq<char>>>,
}

impl Packages {
    /// The mapping from owner name to attribution chain.
    pub open spec fn map_view(self) -> Map<Seq<char>, Seq<Seq<char>>> {
        pkg_map(self.parent@)
    }

    /// Structural soundness of the resolver: every chain is non-empty, ends
    /// with the name it resolves, and either begins at the canonical root or
    /// is the trivial single-element chain.
    pub open spec fn wf(self) -> bool {
        &&& pkg_unique_keys(self.parent@)
        &&& chains_ok(self.map_view(), self.canon@)
    }

    /// The root-to-owner chain for `id` (root first, `id` last), or an empty
    /// chain where `id` was never resolved.
    pub fn get_path(&self, id: &str) -> (r: Vec<String>)
        requires
            pkg_unique_keys(self.parent@),
        ensures
            r.deep_view() == (if self.map_view().contains_key(id@) {
                self.map_view()[id@]
            } else {
                Seq::<Seq<char>>::empty()
            }),
    {
        let n = self.parent.len();
        let mut j: usize = 0;
        while j < n
            invariant
                j <= n,
                n == self.parent@.len(),
                pkg_unique_keys(self.parent@),
                forall|i: int| 0 <= i < j ==> (#[trigger] self.parent@[i]).0@ != id@,
            decreases n - j,
        {
            if compare_str(self.parent[j].0.as_str(), id) {
                let r = self.parent[j].1.clone();
                proof {
                    lemma_pkg_map_idx(self.parent@, j as int);
                }
                return r;
            }
            j = j + 1;
        }
        let r: Vec<String> = Vec::new();
        proof {
            lemma_pkg_map_absent(self.parent@, id@);
            assert(r.deep_view() =~= Seq::<Seq<char>>::empty());
        }
        r
    }
}

/// Compare two string slices char by char.
pub fn compare_str(a: &str, b: &str) -> (r: bool)
    ensures
        r == (a@ == b@),
{
    let va = str_chars(a);
    let vb = str_chars(b);
    let n = va.len();
    if vb.len() != n {
        proof {
            assert(a@.len() != b@.len());
        }
        return false;
    }
    let mut i: usize = 0;
    while i < n
        invariant
            i <= n,
            n == va@.len(),
            n == vb@.len(),
            va@ == a@,
            vb@ == b@,
            forall|j: int| 0 <= j < i ==> a@[j] == b@[j],
        decreases n - i,
    {
        if va[i] != vb[i] {
            return false;
        }
        i = i + 1;
    }
    proof {
        assert(a@ =~= b@);
    }
    true
}


/// Number of `false` entries (nodes not yet visited or removed).
pub open spec fn count_false(v: Seq<bool>) -> int
    decreases v.len(),
{
    if v.len() == 0 {
        0
    } else {
        count_false(v.drop_last()) + if v.last() {
            0int
        } else {
            1int
        }
    }
}

/// Number of `true` entries (nodes still active).
pub open spec fn count_true(v: Seq<bool>) -> int
    decreases v.len(),
{
    if v.len() == 0 {
        0
    } else {
        count_true(v.drop_last()) + if v.last() {
            1int
        } else {
            0int
        }
    }
}

proof fn lemma_count_update(v: Seq<bool>, i: int, b: bool)
    requires
        0 <= i < v.len(),
    ensures
        count_true(v.update(i, b)) == count_true(v) + (if b { 1int } else { 0int }) - (if v[i] {
            1int
        } else {
            0int
        }),
        count_false(v.update(i, b)) == count_false(v) + (if b { 0int } else { 1int }) - (if v[i] {
            0int
        } else {
            1int
        }),
    decreases v.len(),
{
    let v2 = v.update(i, b);
    if i == v.len() - 1 {
        assert(v2.drop_last() =~= v.drop_last());
    } else {
        assert(v2.drop_last() =~= v.drop_last().update(i, b));
        assert(v2.last() == v.last());
        lemma_count_update(v.drop_last(), i, b);
    }
}

proof fn lemma_counts_nonneg(v: Seq<bool>)
    ensures
        count_true(v) >= 0,
        count_false(v) >= 0,
    decreases v.len(),
{
    if v.len() > 0 {
        lemma_counts_nonneg(v.drop_last());
    }
}

/// Does any active node depend on `idx`?
pub open spec fn spec_has_incoming(g: DepGraph, act: Seq<bool>, idx: int) -> bool {
    exists|i: int, j: int|
        0 <= i < g.nodes@.len() && act[i] && 0 <= j < g.nodes@[i].deps@.len() && #[trigger] g.nodes@[
            i].deps@[j] == idx
}

fn has_incoming(g: &DepGraph, act: &Vec<bool>, idx: usize) -> (r: bool)
    requires
        act@.len() == g.nodes@.len(),
    ensures
        r == spec_has_incoming(*g, act@, idx as int),
{
    let n = g.nodes.len();
    let mut i: usize = 0;
    while i < n
        invariant
            i <= n,
            n == g.nodes@.len(),
            act@.len() == n,
            forall|a: int, b: int|
                0 <= a < i && 0 <= b < g.nodes@[a].deps@.len() && act@[a]
                    ==> #[trigger] g.nodes@[a].deps@[b] != idx as int,
        decreases n - i,
    {
        if act[i] {
            let m = g.nodes[i].deps.len();
            let mut j: usize = 0;
            while j < m
                invariant
                    j <= m,
                    i < n,
                    n == g.nodes@.len(),
                    act@.len() == n,
                    act@[i as int],
                    m == g.nodes@[i as int].deps@.len(),
                    forall|b: int| 0 <= b < j ==> (#[trigger] g.nodes@[i as int].deps@[b])
                        != idx as int,
                decreases m - j,
            {
                if g.nodes[i].deps[j] == idx {
                    proof {
                        assert(spec_has_incoming(*g, act@, idx as int)) by {
                            assert(act@[i as int] && g.nodes@[i as int].deps@[j as int]
                                == idx as int);
                        }
                    }
                    return true;
                }
                j = j + 1;
            }
        }
        i = i + 1;
    }
    false
}

/// Collect the owner names the classifier observes across the rows.
fn collect_targets(records: &Vec<SectionRecord>) -> (r: Vec<String>)
    ensures
        forall|j: int| 0 <= j < r@.len() ==> is_target(records.deep_view(), (#[trigger] r@[j])@),
        forall|nm: Seq<char>| #[trigger] is_target(records.deep_view(), nm) ==> exists|j: int|
            0 <= j < r@.len() && (#[trigger] r@[j])@ == nm,
{
    let n = records.len();
    let mut out: Vec<String> = Vec::new();
    let mut i: usize = 0;
    while i < n
        invariant
            i <= n,
            n == records@.len(),
            forall|j: int| 0 <= j < out@.len() ==> is_target(records.deep_view(), (#[trigger] out@[j])@),
            forall|nm: Seq<char>| #[trigger] is_target(records.deep_view().take(i as int), nm)
                ==> exists|j: int| 0 <= j < out@.len() && (#[trigger] out@[j])@ == nm,
        decreases n - i,
    {
        let ghost pre = records.deep_view().take(i as int);
        let ghost post = records.deep_view().take(i + 1);
        match get_crate_name(records[i].symbols.as_str()) {
            Option::Some(pr) => {
                let ghost nm = pr.0@;
                let ghost outpre = out@;
                proof {
                    assert(records.deep_view()[i as int].1 == records@[i as int].symbols@);
                    assert(spec_get_crate_name(records.deep_view()[i as int].1) matches Some(q)
                        && q.0 == nm);
                    assert(is_target(records.deep_view(), nm));
                }
                out.push(pr.0);
                proof {
                    assert(out@[out@.len() - 1]@ == nm);
                    assert forall|nm2: Seq<char>| #[trigger] is_target(post, nm2)
                        implies exists|j: int| 0 <= j < out@.len() && (#[trigger] out@[j])@
                        == nm2 by {
                        let w = choose|w: int|
                            0 <= w < post.len() && (spec_get_crate_name(
                                (#[trigger] post[w]).1) matches Some(q2) && q2.0 == nm2);
                        if w < i {
                            assert(pre[w] == post[w]);
                            assert(is_target(pre, nm2));
                            let j = choose|j: int|
                                0 <= j < outpre.len() && (#[trigger] outpre[j])@ == nm2;
                            assert(out@[j] == outpre[j]);
                        } else {
                            assert(post[w] == records.deep_view()[i as int]);
                            assert(out@[out@.len() - 1]@ == nm2);
                        }
                    }
                }
            },
            Option::None => {
                proof {
                    assert forall|nm2: Seq<char>| #[trigger] is_target(post, nm2)
                        implies exists|j: int| 0 <= j < out@.len() && (#[trigger] out@[j])@
                        == nm2 by {
                        let w = choose|w: int|
                            0 <= w < post.len() && (spec_get_crate_name(
                                (#[trigger] post[w]).1) matches Some(q2) && q2.0 == nm2);
                        if w < i {
                            assert(pre[w] == post[w]);
                            assert(is_target(pre, nm2));
                        } else {
                            assert(post[w] == records.deep_view()[i as int]);
                            assert(records.deep_view()[i as int].1 == records@[
                                i as int].symbols@);
                        }
                    }
                }
            },
        }
        i = i + 1;
    }
    proof {
        assert(records.deep_view().take(n as int) =~= records.deep_view());
    }
    out
}

/// Is `name` among the collected owner names?
fn contains_name(ts: &Vec<String>, name: &String) -> (r: bool)
    ensures
        r == exists|j: int| 0 <= j < ts@.len() && (#[trigger] ts@[j])@ == name@,
{
    let n = ts.len();
    let mut i: usize = 0;
    while i < n
        invariant
            i <= n,
            n == ts@.len(),
            forall|j: int| 0 <= j < i ==> (#[trigger] ts@[j])@ != name@,
        decreases n - i,
    {
        if ts[i] == *name {
            return true;
        }
        i = i + 1;
    }
    false
}

/// An entry's chain is non-empty, ends with its key, and either begins at the
/// canonical root with every segment a normalized graph node name, or is the
/// trivial single-element chain.
pub open spec fn entry_ok(e: (String, Vec<String>), root: Option<Seq<char>>, g: DepGraph) -> bool {
    let p = e.1.deep_view();
    &&& p.len() >= 1
    &&& p[p.len() - 1] == e.0@
    &&& match root {
        Option::Some(rt) => (p[0] == rt && all_graph_names(g, p) && chain_edges(g, p)) || p
            =~= seq![e.0@],
        Option::None => p =~= seq![e.0@],
    }
}

pub open spec fn entries_ok(
    l: Seq<(String, Vec<String>)>,
    root: Option<Seq<char>>,
    g: DepGraph,
) -> bool {
    forall|i: int| 0 <= i < l.len() ==> entry_ok(#[trigger] l[i], root, g)
}

proof fn lemma_pkg_map_update(l: Seq<(String, Vec<String>)>, j: int, e: (String, Vec<String>))
    requires
        pkg_unique_keys(l),
        0 <= j < l.len(),
        l[j].0@ == e.0@,
    ensures
        pkg_map(l.update(j, e)) == pkg_map(l).insert(e.0@, e.1.deep_view()),
        pkg_unique_keys(l.update(j, e)),
    decreases l.len(),
{
    let l2 = l.update(j, e);
    assert(forall|k: int| 0 <= k < l2.len() ==> l2[k].0@ == l[k].0@);
    if j == l.len() - 1 {
        assert(l2.drop_last() =~= l.drop_last());
        assert(l2.last() == e);
        assert(pkg_map(l.drop_last()).insert(l.last().0@, l.last().1.deep_view()).insert(
            e.0@, e.1.deep_view()) =~= pkg_map(l.drop_last()).insert(e.0@, e.1.deep_view()));
    } else {
        assert(l2.drop_last() =~= l.drop_last().update(j, e));
        assert(l2.last() == l.last());
        assert(pkg_unique_keys(l.drop_last()));
        lemma_pkg_map_update(l.drop_last(), j, e);
        assert(l.last().0@ != e.0@);
        assert(pkg_map(l.drop_last()).insert(e.0@, e.1.deep_view()).insert(l.last().0@,
            l.last().1.deep_view()) =~= pkg_map(l.drop_last()).insert(l.last().0@,
            l.last().1.deep_view()).insert(e.0@, e.1.deep_view()));
    }
}

/// Total name length over the segments of a chain.
pub open spec fn cum_len(p: Seq<Seq<char>>) -> int
    decreases p.len(),
{
    if p.len() == 0 {
        0
    } else {
        cum_len(p.drop_last()) + p.last().len()
    }
}

/// Total name length of a chain, as a number.
fn cum_len_exec(p: &Vec<String>) -> (r: u128)
    ensures
        r == cum_len(p.deep_view()),
{
    let n = p.len();
    let mut acc: u128 = 0;
    let mut i: usize = 0;
    while i < n
        invariant
            i <= n,
            n == p@.len(),
            0 <= acc,
            acc == cum_len(p.deep_view().take(i as int)),
            acc <= (i as int) * 0x10000000000000000,
        decreases n - i,
    {
        let l = p[i].as_str().unicode_len();
        proof {
            assert(p.deep_view().take(i + 1).drop_last() =~= p.deep_view().take(i as int));
            assert(p.deep_view()[i as int] == p@[i as int].deep_view());
            assert(p.deep_view().take(i + 1).last() == p@[i as int]@);
        }
        acc = acc + (l as u128);
        i = i + 1;
    }
    proof {
        assert(p.deep_view().take(n as int) =~= p.deep_view());
    }
    acc
}

/// Record a resolved chain: a fresh name is inserted; an existing owner's
/// chain is replaced only by a shorter one (fewer segments, ties broken by
/// total name length); a name that is not an observed owner is overwritten.
fn upsert_chain(
    parent: &mut Vec<(String, Vec<String>)>,
    name: String,
    path: Vec<String>,
    is_tgt: bool,
    Ghost(root): Ghost<Option<Seq<char>>>,
    Ghost(g): Ghost<DepGraph>,
)
    requires
        pkg_unique_keys(old(parent)@),
        entries_ok(old(parent)@, root, g),
        entry_ok((name, path), root, g),
    ensures
        pkg_unique_keys(final(parent)@),
        entries_ok(final(parent)@, root, g),
        forall|k: Seq<char>| #[trigger] pkg_map(final(parent)@).contains_key(k) <==> (pkg_map(
            old(parent)@).contains_key(k) || k == name@),
        pkg_map(final(parent)@) == pkg_map(old(parent)@).insert(name@, path.deep_view()) || (
        pkg_map(final(parent)@) == pkg_map(old(parent)@) && pkg_map(old(parent)@).contains_key(
            name@,
        )),
{
    let n = parent.len();
    let mut j: usize = 0;
    while j < n
        invariant
            j <= n,
            n == parent@.len(),
            parent@ == old(parent)@,
            pkg_unique_keys(parent@),
            entries_ok(parent@, root, g),
            entry_ok((name, path), root, g),
            forall|i: int| 0 <= i < j ==> (#[trigger] parent@[i]).0@ != name@,
        decreases n - j,
    {
        if parent[j].0 == name {
            let replace: bool = if is_tgt {
                let oldseg = parent[j].1.len();
                let newseg = path.len();
                if newseg < oldseg {
                    true
                } else if newseg == oldseg {
                    cum_len_exec(&path) < cum_len_exec(&parent[j].1)
                } else {
                    false
                }
            } else {
                true
            };
            if replace {
                let ghost lb = parent@;
                let slot = &mut parent[j];
                *slot = (name, path);
                proof {
                    lemma_pkg_map_update(lb, j as int, parent@[j as int]);
                    assert(parent@[j as int] == (name, path));
                    assert(pkg_map(parent@) == pkg_map(lb).insert(name@, path.deep_view()));
                    assert(entries_ok(parent@, root, g)) by {
                        assert(forall|i: int| 0 <= i < parent@.len() && i != j
                            ==> parent@[i] == lb[i]);
                    }
                }
            } else {
                proof {
                    lemma_pkg_map_idx(parent@, j as int);
                }
            }
            return;
        }
        j = j + 1;
    }
    let ghost lb = parent@;
    parent.push((name, path));
    proof {
        assert(parent@.drop_last() =~= lb);
        assert(parent@.last() == (name, path));
        assert(pkg_map(parent@) == pkg_map(lb).insert(name@, path.deep_view()));
        assert(pkg_unique_keys(parent@));
        assert(entries_ok(parent@, root, g)) by {
            assert(forall|i: int| 0 <= i < lb.len() ==> parent@[i] == lb[i]);
            assert(parent@[parent@.len() - 1] == (name, path));
        }
    }
}


proof fn lemma_entries_wf(l: Seq<(String, Vec<String>)>, root: Option<Seq<char>>, g: DepGraph)
    requires
        pkg_unique_keys(l),
        entries_ok(l, root, g),
    ensures
        chains_ok(pkg_map(l), root),
        chains_in_graph(pkg_map(l), g),
        chains_follow_edges(pkg_map(l), g),
{
    assert forall|k: Seq<char>| #[trigger] pkg_map(l).contains_key(k) implies {
        let p = pkg_map(l)[k];
        p.len() >= 1 && p[p.len() - 1] == k && (match root {
            Option::Some(rt) => p[0] == rt || p =~= seq![k],
            Option::None => p =~= seq![k],
        }) && (p =~= seq![k] || (all_graph_names(g, p) && chain_edges(g, p)))
    } by {
        lemma_pkg_map_dom(l, k);
        let j = choose|j: int| 0 <= j < l.len() && (#[trigger] l[j]).0@ == k;
        lemma_pkg_map_idx(l, j);
        assert(entry_ok(l[j], root, g));
    }
}

/// Does the association list already hold a chain for `name`?
fn contains_key_exec(parent: &Vec<(String, Vec<String>)>, name: &String) -> (r: bool)
    requires
        pkg_unique_keys(parent@),
    ensures
        r == pkg_map(parent@).contains_key(name@),
{
    let n = parent.len();
    let mut j: usize = 0;
    while j < n
        invariant
            j <= n,
            n == parent@.len(),
            pkg_unique_keys(parent@),
            forall|i: int| 0 <= i < j ==> (#[trigger] parent@[i]).0@ != name@,
        decreases n - j,
    {
        if parent[j].0 == *name {
            proof {
                lemma_pkg_map_idx(parent@, j as int);
            }
            return true;
        }
        j = j + 1;
    }
    proof {
        lemma_pkg_map_absent(parent@, name@);
    }
    false
}

/// One queue entry of the breadth-first walk: the node's normalized name, the
/// chain from the canonical root down to it, and the node's index.
struct BfsNode {
    name: String,
    path: Vec<String>,
    index: usize,
}

/// A queue entry is sound: it points into the graph, carries the node's
/// normalized name, and its chain starts at the root, ends with that name,
/// and walks over normalized graph node names only.
spec fn bfs_node_ok(b: BfsNode, g: DepGraph, root: Seq<char>) -> bool {
    &&& b.index < g.nodes@.len()
    &&& b.path@.len() >= 1
    &&& b.path.deep_view()[0] == root
    &&& b.path.deep_view().last() == b.name@
    &&& b.name@ == spec_normalize_crate_name(g.nodes@[b.index as int].name@)
    &&& all_graph_names(g, b.path.deep_view())
    &&& chain_edges(g, b.path.deep_view())
}

impl BfsNode {
    /// Queue entry for a root node: a one-element chain.
    fn new(g: &DepGraph, index: usize) -> (r: BfsNode)
        requires
            index < g.nodes@.len(),
        ensures
            bfs_node_ok(r, *g, r.name@),
            r.index == index,
            r.name@ == spec_normalize_crate_name(g.nodes@[index as int].name@),
            r.path.deep_view() == seq![r.name@],
    {
        let name = normalize_crate_name(g.nodes[index].name.as_str());
        let mut path: Vec<String> = Vec::new();
        path.push(name.clone());
        proof {
            assert(path.deep_view() =~= seq![name@]);
            assert(graph_has_name(*g, name@)) by {
                assert(spec_normalize_crate_name(g.nodes@[index as int].name@) == name@);
            }
        }
        BfsNode { name, path, index }
    }

    /// Queue entry for a dependency reached over `path`, extending the chain.
    fn child(g: &DepGraph, index: usize, path: Vec<String>, Ghost(root): Ghost<Seq<char>>) -> (r:
        BfsNode)
        requires
            index < g.nodes@.len(),
            path@.len() >= 1,
            path.deep_view()[0] == root,
            all_graph_names(*g, path.deep_view()),
            chain_edges(*g, path.deep_view()),
            path@.len() >= 2 ==> name_edge(*g, path.deep_view().last(),
                spec_normalize_crate_name(g.nodes@[index as int].name@)),
        ensures
            bfs_node_ok(r, *g, root),
            r.index == index,
    {
        let name = normalize_crate_name(g.nodes[index].name.as_str());
        let ghost pdv = path.deep_view();
        let mut path = path;
        path.push(name.clone());
        proof {
            assert(path.deep_view() =~~= pdv.push(name@));
            assert(graph_has_name(*g, name@)) by {
                assert(spec_normalize_crate_name(g.nodes@[index as int].name@) == name@);
            }
            assert(all_graph_names(*g, path.deep_view())) by {
                assert(forall|j: int| 0 <= j < pdv.len() ==> path.deep_view()[j] == pdv[j]);
                assert(path.deep_view()[pdv.len() as int] == name@);
            }
            assert(chain_edges(*g, path.deep_view())) by {
                let p2 = path.deep_view();
                assert forall|j: int| 1 <= j < p2.len() - 1 implies name_edge(
                    *g, #[trigger] p2[j], p2[j + 1]) by {
                    if j < pdv.len() - 1 {
                        assert(p2[j] == pdv[j] && p2[j + 1] == pdv[j + 1]);
                        assert(name_edge(*g, pdv[j], pdv[j + 1]));
                    } else {
                        assert(p2[j] == pdv.last() && p2[j + 1] == name@);
                    }
                }
            }
        }
        BfsNode { name, path, index }
    }
}

pub open spec fn all_lt(ds: Seq<usize>, n: int) -> bool {
    forall|j: int| 0 <= j < ds.len() ==> (#[trigger] ds[j]) < n
}

impl Packages {
    /// Build the resolver.  Candidate roots are the nodes nothing depends on;
    /// where one of them is an observed owner it becomes the canonical root
    /// and the other candidates are merged into it, otherwise the candidates
    /// are workspace scaffolding and are dropped before looking again.  A
    /// breadth-first walk outward from the canonical root then records a
    /// root-to-node chain per name, keeping the shorter chain (ties broken by
    /// total name length) for observed owners.  Owners the walk never reaches
    /// get the trivial one-element chain.
    pub fn new(graph: &DepGraph, records: &Vec<SectionRecord>) -> (r: Packages)
        requires
            wf_graph(*graph),
        ensures
            r.wf(),
            forall|nm: Seq<char>| #[trigger] is_target(records.deep_view(), nm)
                ==> r.map_view().contains_key(nm),
            r.canon@ matches Some(rt) ==> is_target(records.deep_view(), rt),
            r.canon@ is None ==> no_root_target(*graph, records.deep_view()),
            chains_in_graph(r.map_view(), *graph),
            chains_follow_edges(r.map_view(), *graph),
            forall|nm: Seq<char>| #[trigger] is_target(records.deep_view(), nm)
                && !graph_has_name(*graph, nm) ==> r.map_view()[nm] =~= seq![nm],
    {
        let targets = collect_targets(records);
        let n = graph.nodes.len();
        let mut active: Vec<bool> = vec![true; n];
        proof {
            assert(active@ =~= all_active(n as nat));
        }
        let ghost mut first_checked: bool = false;
        let mut canonical: Option<usize> = None;
        let ghost mut root_name: Option<Seq<char>> = None;
        let mut merged: Vec<usize> = Vec::new();
        loop
            invariant_except_break
                canonical is None,
                root_name is None,
                merged@.len() == 0,
            invariant
                n == graph.nodes@.len(),
                wf_graph(*graph),
                active@.len() == n,
                forall|j: int| 0 <= j < targets@.len() ==> is_target(records.deep_view(),
                    (#[trigger] targets@[j])@),
                forall|nm: Seq<char>| #[trigger] is_target(records.deep_view(), nm)
                    ==> exists|j: int| 0 <= j < targets@.len() && (#[trigger] targets@[j])@
                    == nm,
                first_checked ==> no_root_target(*graph, records.deep_view()),
                !first_checked ==> active@ == all_active(n as nat),
            ensures
                match canonical {
                    Option::Some(c) => c < n && root_name == Some(spec_normalize_crate_name(
                        graph.nodes@[c as int].name@)) && is_target(records.deep_view(),
                        spec_normalize_crate_name(graph.nodes@[c as int].name@)),
                    Option::None => root_name is None,
                },
                canonical is None ==> no_root_target(*graph, records.deep_view()),
                all_lt(merged@, n as int),
            decreases count_true(active@),
        {
            let mut cands: Vec<usize> = Vec::new();
            let mut idx: usize = 0;
            while idx < n
                invariant
                    idx <= n,
                    n == graph.nodes@.len(),
                    active@.len() == n,
                    forall|k: int| 0 <= k < cands@.len() ==> (#[trigger] cands@[k]) < n
                        && active@[cands@[k] as int],
                    forall|k1: int, k2: int| 0 <= k1 < k2 < cands@.len() ==> cands@[k1]
                        < cands@[k2],
                    forall|k: int| 0 <= k < cands@.len() ==> (#[trigger] cands@[k]) < idx,
                    forall|x: int| 0 <= x < idx && active@[x] && !(
                    #[trigger] spec_has_incoming(*graph, active@, x)) ==> in_list(cands@, x),
                decreases n - idx,
            {
                let ghost cb = cands@;
                if active[idx] && !has_incoming(graph, &active, idx) {
                    cands.push(idx);
                }
                proof {
                    assert forall|x: int| 0 <= x < idx + 1 && active@[x] && !(
                    #[trigger] spec_has_incoming(*graph, active@, x)) implies in_list(
                        cands@, x) by {
                        if x < idx {
                            let k0 = choose|k0: int| 0 <= k0 < cb.len() && cb[k0] == x;
                            assert(cands@[k0] == x);
                        } else {
                            assert(cands@[cands@.len() - 1] == x);
                        }
                    }
                }
                idx = idx + 1;
            }
            if cands.len() == 0 {
                proof {
                    if !first_checked {
                        assert forall|i: int| 0 <= i < n && !spec_has_incoming(*graph,
                            all_active(n as nat), i) implies !is_target(records.deep_view(),
                            spec_normalize_crate_name((#[trigger] graph.nodes@[i]).name@)) by {
                            assert(active@[i]);
                            assert(in_list(cands@, i));
                        }
                        assert(no_root_target(*graph, records.deep_view()));
                        first_checked = true;
                    }
                }
                break;
            }
            let mut found: Option<usize> = None;
            let cn = cands.len();
            let mut k: usize = 0;
            while k < cn
                invariant_except_break
                    found is None,
                    forall|k0: int| 0 <= k0 < k ==> !is_target(records.deep_view(),
                        spec_normalize_crate_name(graph.nodes@[(#[trigger] cands@[
                        k0]) as int].name@)),
                invariant
                    k <= cn,
                    cn == cands@.len(),
                    n == graph.nodes@.len(),
                    forall|k0: int| 0 <= k0 < cands@.len() ==> (#[trigger] cands@[k0]) < n,
                    forall|j: int| 0 <= j < targets@.len() ==> is_target(records.deep_view(),
                        (#[trigger] targets@[j])@),
                    forall|nm: Seq<char>| #[trigger] is_target(records.deep_view(), nm)
                        ==> exists|j: int| 0 <= j < targets@.len() && (#[trigger] targets@[
                        j])@ == nm,
                ensures
                    match found {
                        Option::Some(kk) => kk < cn && is_target(records.deep_view(),
                            spec_normalize_crate_name(
                            graph.nodes@[cands@[kk as int] as int].name@)),
                        Option::None => forall|k0: int| 0 <= k0 < cn ==> !is_target(
                            records.deep_view(), spec_normalize_crate_name(graph.nodes@[(
                            #[trigger] cands@[k0]) as int].name@)),
                    },
                decreases cn - k,
            {
                let nm = normalize_crate_name(graph.nodes[cands[k]].name.as_str());
                if contains_name(&targets, &nm) {
                    found = Some(k);
                    break;
                }
                proof {
                    assert(!is_target(records.deep_view(), nm@));
                }
                k = k + 1;
            }
            match found {
                Option::Some(kk) => {
                    let c = cands[kk];
                    canonical = Some(c);
                    proof {
                        root_name = Some(spec_normalize_crate_name(
                            graph.nodes@[c as int].name@));
                    }
                    let mut k2: usize = 0;
                    while k2 < cn
                        invariant
                            k2 <= cn,
                            cn == cands@.len(),
                            forall|k0: int| 0 <= k0 < cands@.len() ==> (#[trigger] cands@[
                                k0]) < n,
                            all_lt(merged@, n as int),
                        decreases cn - k2,
                    {
                        if k2 != kk {
                            merged.push(cands[k2]);
                        }
                        k2 = k2 + 1;
                    }
                    break;
                },
                Option::None => {
                    proof {
                        if !first_checked {
                            assert forall|i: int| 0 <= i < n && !spec_has_incoming(*graph,
                                all_active(n as nat), i) implies !is_target(
                                records.deep_view(), spec_normalize_crate_name((
                                #[trigger] graph.nodes@[i]).name@)) by {
                                assert(active@[i]);
                                assert(in_list(cands@, i));
                                let k0 = choose|k0: int|
                                    0 <= k0 < cands@.len() && cands@[k0] == i;
                                assert(cands@[k0] == i);
                            }
                            assert(no_root_target(*graph, records.deep_view()));
                            first_checked = true;
                        }
                    }
                    let ghost cnt0 = count_true(active@);
                    proof {
                        lemma_counts_nonneg(active@);
                    }
                    let mut k2: usize = 0;
                    while k2 < cn
                        invariant
                            k2 <= cn,
                            cn == cands@.len(),
                            active@.len() == n,
                            forall|k0: int| 0 <= k0 < cands@.len() ==> (#[trigger] cands@[
                                k0]) < n,
                            forall|k1: int, kx: int| 0 <= k1 < kx < cands@.len() ==> cands@[
                                k1] < cands@[kx],
                            forall|k0: int| k2 <= k0 < cands@.len() ==> active@[(
                            #[trigger] cands@[k0]) as int],
                            count_true(active@) == cnt0 - k2,
                        decreases cn - k2,
                    {
                        let c = cands[k2];
                        proof {
                            lemma_count_update(active@, c as int, false);
                        }
                        let slot = &mut active[c];
                        *slot = false;
                        proof {
                            assert forall|k0: int| k2 + 1 <= k0 < cands@.len() implies active@[
                                (#[trigger] cands@[k0]) as int] by {
                                assert(cands@[k2 as int] < cands@[k0]);
                            }
                        }
                        k2 = k2 + 1;
                    }
                    proof {
                        lemma_counts_nonneg(active@);
                    }
                },
            }
        }
        let ghost groot: Option<Seq<char>> = root_name;
        let mut parent: Vec<(String, Vec<String>)> = Vec::new();
        match canonical {
            Option::Some(c) => {
                let mut canon_deps: Vec<usize> = graph.nodes[c].deps.clone();
                proof {
                    assert(all_lt(canon_deps@, n as int)) by {
                        assert(deps_in_range(graph.nodes@[c as int].deps@, n as int));
                        assert(forall|j: int| 0 <= j < canon_deps@.len() ==> canon_deps@[j]
                            == graph.nodes@[c as int].deps@[j]);
                    }
                }
                let mn = merged.len();
                let mut mi: usize = 0;
                while mi < mn
                    invariant
                        mi <= mn,
                        mn == merged@.len(),
                        n == graph.nodes@.len(),
                        wf_graph(*graph),
                        all_lt(merged@, n as int),
                        all_lt(canon_deps@, n as int),
                    decreases mn - mi,
                {
                    let ghost cdb = canon_deps@;
                    let mut extra = graph.nodes[merged[mi]].deps.clone();
                    proof {
                        assert(deps_in_range(graph.nodes@[merged@[mi as int] as int].deps@,
                            n as int));
                        assert(forall|j: int| 0 <= j < extra@.len() ==> extra@[j]
                            == graph.nodes@[merged@[mi as int] as int].deps@[j]);
                    }
                    let ghost exb = extra@;
                    canon_deps.append(&mut extra);
                    proof {
                        assert(all_lt(canon_deps@, n as int)) by {
                            assert(canon_deps@ =~= cdb + exb);
                        }
                    }
                    mi = mi + 1;
                }
                let root_node = BfsNode::new(graph, c);
                let ghost rootnm = root_node.name@;
                proof {
                    assert(groot == Some(rootnm));
                }
                let mut queue: Vec<BfsNode> = Vec::new();
                queue.push(root_node);
                let mut visited: Vec<bool> = vec![false; n];
                let mut head: usize = 0;
                while head < queue.len()
                    invariant
                        n == graph.nodes@.len(),
                        wf_graph(*graph),
                        visited@.len() == n,
                        head <= queue@.len(),
                        c < n,
                        all_lt(canon_deps@, n as int),
                        groot == Some(rootnm),
                        queue@.len() >= 1,
                        queue@[0].index == c,
                        queue@[0].path@.len() == 1,
                        head >= 1 ==> visited@[c as int],
                        forall|q: int| head <= q < queue@.len() ==> bfs_node_ok(
                            #[trigger] queue@[q], *graph, rootnm),
                        pkg_unique_keys(parent@),
                        entries_ok(parent@, groot, *graph),
                    decreases count_false(visited@), queue@.len() - head,
                {
                    let bidx = queue[head].index;
                    if visited[bidx] {
                        head = head + 1;
                        continue;
                    }
                    proof {
                        if bidx == c {
                            assert(head == 0);
                        }
                    }
                    let name = queue[head].name.clone();
                    let path = queue[head].path.clone();
                    proof {
                        lemma_count_update(visited@, bidx as int, true);
                        lemma_counts_nonneg(visited@.update(bidx as int, true));
                    }
                    let slot = &mut visited[bidx];
                    *slot = true;
                    let is_tgt = contains_name(&targets, &name);
                    proof {
                        assert(entry_ok((name, path), groot, *graph)) by {
                            assert(path.deep_view() =~~= queue@[head as int].path.deep_view());
                        }
                    }
                    upsert_chain(&mut parent, name.clone(), path.clone(), is_tgt, Ghost(groot),
                        Ghost(*graph));
                    let in_canon = bidx == c;
                    let dn = if in_canon {
                        canon_deps.len()
                    } else {
                        graph.nodes[bidx].deps.len()
                    };
                    let mut d: usize = 0;
                    while d < dn
                        invariant
                            n == graph.nodes@.len(),
                            wf_graph(*graph),
                            visited@.len() == n,
                            head < queue@.len(),
                            bidx < n,
                            c < n,
                            all_lt(canon_deps@, n as int),
                            groot == Some(rootnm),
                            dn == (if in_canon {
                                canon_deps@.len()
                            } else {
                                graph.nodes@[bidx as int].deps@.len()
                            }),
                            d <= dn,
                            path@.len() >= 1,
                            path.deep_view()[0] == rootnm,
                            all_graph_names(*graph, path.deep_view()),
                            chain_edges(*graph, path.deep_view()),
                            in_canon ==> path@.len() == 1,
                            path.deep_view().last() == spec_normalize_crate_name(
                                graph.nodes@[bidx as int].name@),
                            queue@.len() >= 1,
                            queue@[0].index == c,
                            queue@[0].path@.len() == 1,
                            forall|q: int| head <= q < queue@.len() ==> bfs_node_ok(
                                #[trigger] queue@[q], *graph, rootnm),
                            pkg_unique_keys(parent@),
                            entries_ok(parent@, groot, *graph),
                        decreases dn - d,
                    {
                        let di: usize = if in_canon {
                            canon_deps[d]
                        } else {
                            graph.nodes[bidx].deps[d]
                        };
                        proof {
                            if !in_canon {
                                assert(deps_in_range(graph.nodes@[bidx as int].deps@, n as int));
                                assert(name_edge(*graph, path.deep_view().last(),
                                    spec_normalize_crate_name(
                                    graph.nodes@[di as int].name@))) by {
                                    assert(graph.nodes@[bidx as int].deps@[d as int] == di);
                                }
                            }
                        }
                        if !visited[di] {
                            let ghost qb = queue@;
                            queue.push(BfsNode::child(graph, di, path.clone(), Ghost(rootnm)));
                            proof {
                                assert(forall|q: int| head <= q < qb.len() ==> queue@[q]
                                    == qb[q]);
                            }
                        }
                        d = d + 1;
                    }
                    head = head + 1;
                }
            },
            Option::None => {},
        }
        let tn = targets.len();
        let mut k: usize = 0;
        while k < tn
            invariant
                tn == targets@.len(),
                k <= tn,
                pkg_unique_keys(parent@),
                entries_ok(parent@, groot, *graph),
                forall|j: int| 0 <= j < k ==> pkg_map(parent@).contains_key(
                    (#[trigger] targets@[j])@),
            decreases tn - k,
        {
            let t = targets[k].clone();
            if !contains_key_exec(&parent, &t) {
                let mut p: Vec<String> = Vec::new();
                p.push(t.clone());
                proof {
                    assert(p.deep_view() =~= seq![t@]);
                }
                upsert_chain(&mut parent, t, p, true, Ghost(groot), Ghost(*graph));
            }
            k = k + 1;
        }
        let r = Packages { parent, canon: Ghost(groot) };
        proof {
            lemma_entries_wf(r.parent@, groot, *graph);
            assert forall|nm: Seq<char>| #[trigger] is_target(records.deep_view(), nm)
                implies r.map_view().contains_key(nm) by {
                let j = choose|j: int| 0 <= j < targets@.len() && (#[trigger] targets@[j])@
                    == nm;
            }
            assert forall|nm: Seq<char>| #[trigger] is_target(records.deep_view(), nm)
                && !graph_has_name(*graph, nm) implies r.map_view()[nm] =~= seq![nm] by {
                assert(r.map_view().contains_key(nm));
                let p = r.map_view()[nm];
                if !(p =~= seq![nm]) {
                    assert(all_graph_names(*graph, p));
                    assert(graph_has_name(*graph, p[p.len() - 1]));
                }
            }
        }
        r
    }
}

} // verus!
