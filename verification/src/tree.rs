//! Hierarchical size-attribution tree.

use vstd::prelude::*;
use crate::tool::{str_chars, spec_path_from_record, get_path_from_record, ROOT_NAME, UNKNOWN_NAME, SECTIONS_NAME};
use crate::packages::{Packages, DepGraph, pkg_unique_keys, wf_graph, resolver_ok, chains_ok, compare_str};
use crate::error::BloatyError;

verus! {

/// One row of the input: section name, symbol text, virtual-memory size and
/// on-disk size.
pub struct SectionRecord {
    pub sections: String,
    pub symbols: String,
    pub vmsize: u64,
    pub filesize: u64,
}

impl View for SectionRecord {
    type V = (Seq<char>, Seq<char>, u64, u64);

    open spec fn view(&self) -> Self::V {
        (self.sections@, self.symbols@, self.vmsize, self.filesize)
    }
}

impl DeepView for SectionRecord {
    type V = (Seq<char>, Seq<char>, u64, u64);

    open spec fn deep_view(&self) -> Self::V {
        self.view()
    }
}

/// Tree node: size attributed exactly here (`vmsize`, `filesize`), cumulative
/// size of this node and all descendants (`total_*`), and the children.
pub struct Node {
    pub name: String,
    pub vmsize: u64,
    pub filesize: u64,
    pub total_vmsize: u64,
    pub total_filesize: u64,
    pub nodes: Vec<Node>,
}

/// Sum of `total_vmsize` over a sequence of nodes.
pub open spec fn sum_vm(ns: Seq<Node>) -> int
    decreases ns.len(),
{
    if ns.len() == 0 {
        0
    } else {
        sum_vm(ns.drop_last()) + ns.last().total_vmsize
    }
}

/// Sum of `total_filesize` over a sequence of nodes.
pub open spec fn sum_fs(ns: Seq<Node>) -> int
    decreases ns.len(),
{
    if ns.len() == 0 {
        0
    } else {
        sum_fs(ns.drop_last()) + ns.last().total_filesize
    }
}

/// Child names are unique within one node.
pub open spec fn unique_names(ns: Seq<Node>) -> bool {
    forall|i: int, j: int| 0 <= i < j < ns.len() ==> ns[i].name@ != ns[j].name@
}

/// Well-formedness: every node's cumulative size is its own size plus the sum
/// of its children's cumulative sizes, and sibling names never repeat.
pub open spec fn wf_node(n: Node) -> bool
    decreases n,
{
    &&& n.total_vmsize == n.vmsize + sum_vm(n.nodes@)
    &&& n.total_filesize == n.filesize + sum_fs(n.nodes@)
    &&& unique_names(n.nodes@)
    &&& forall|i: int| 0 <= i < n.nodes@.len() ==> wf_node(#[trigger] n.nodes@[i])
}

/// The child of `ns` whose name is `name`, if any.
pub open spec fn child_with(ns: Seq<Node>, name: Seq<char>) -> Option<Node>
    decreases ns.len(),
{
    if ns.len() == 0 {
        None
    } else if ns.last().name@ == name {
        Some(ns.last())
    } else {
        child_with(ns.drop_last(), name)
    }
}

/// The node reached from `n` by following the names of `path`, if it exists
/// (the empty path reaches `n` itself).
pub open spec fn node_at(n: Node, path: Seq<Seq<char>>) -> Option<Node>
    decreases path.len(),
{
    if path.len() == 0 {
        Some(n)
    } else {
        match child_with(n.nodes@, path[0]) {
            Option::None => Option::None,
            Option::Some(c) => node_at(c, path.drop_first()),
        }
    }
}

/// Size attributed exactly at `path` below `n` (0 where no such node exists).
pub open spec fn own_vm_at(n: Node, path: Seq<Seq<char>>) -> int {
    match node_at(n, path) {
        Option::Some(m) => m.vmsize as int,
        Option::None => 0,
    }
}

pub open spec fn own_fs_at(n: Node, path: Seq<Seq<char>>) -> int {
    match node_at(n, path) {
        Option::Some(m) => m.filesize as int,
        Option::None => 0,
    }
}

/// Cumulative size of the subtree rooted at `path` below `n`.
pub open spec fn total_vm_at(n: Node, path: Seq<Seq<char>>) -> int {
    match node_at(n, path) {
        Option::Some(m) => m.total_vmsize as int,
        Option::None => 0,
    }
}

pub open spec fn total_fs_at(n: Node, path: Seq<Seq<char>>) -> int {
    match node_at(n, path) {
        Option::Some(m) => m.total_filesize as int,
        Option::None => 0,
    }
}

/// `p` is a (not necessarily proper) prefix of `q`.
pub open spec fn is_prefix_of(p: Seq<Seq<char>>, q: Seq<Seq<char>>) -> bool {
    p.len() <= q.len() && p == q.subrange(0, p.len() as int)
}

proof fn lemma_sums_nonneg(ns: Seq<Node>)
    ensures
        sum_vm(ns) >= 0,
        sum_fs(ns) >= 0,
    decreases ns.len(),
{
    if ns.len() > 0 {
        lemma_sums_nonneg(ns.drop_last());
    }
}

proof fn lemma_sum_ge_elem(ns: Seq<Node>, j: int)
    requires
        0 <= j < ns.len(),
    ensures
        sum_vm(ns) >= ns[j].total_vmsize,
        sum_fs(ns) >= ns[j].total_filesize,
    decreases ns.len(),
{
    lemma_sums_nonneg(ns.drop_last());
    if j == ns.len() - 1 {
    } else {
        lemma_sum_ge_elem(ns.drop_last(), j);
    }
}

proof fn lemma_sum_update(ns: Seq<Node>, j: int, x: Node)
    requires
        0 <= j < ns.len(),
    ensures
        sum_vm(ns.update(j, x)) == sum_vm(ns) - ns[j].total_vmsize + x.total_vmsize,
        sum_fs(ns.update(j, x)) == sum_fs(ns) - ns[j].total_filesize + x.total_filesize,
    decreases ns.len(),
{
    let ns2 = ns.update(j, x);
    if j == ns.len() - 1 {
        assert(ns2.drop_last() =~= ns.drop_last());
    } else {
        assert(ns2.drop_last() =~= ns.drop_last().update(j, x));
        assert(ns2.last() == ns.last());
        lemma_sum_update(ns.drop_last(), j, x);
    }
}

proof fn lemma_sum_push(ns: Seq<Node>, x: Node)
    ensures
        sum_vm(ns.push(x)) == sum_vm(ns) + x.total_vmsize,
        sum_fs(ns.push(x)) == sum_fs(ns) + x.total_filesize,
{
    assert(ns.push(x).drop_last() =~= ns);
    assert(ns.push(x).last() == x);
}

/// With unique sibling names, the child found by name is the child at any
/// index that carries that name.
proof fn lemma_child_with_idx(ns: Seq<Node>, j: int)
    requires
        unique_names(ns),
        0 <= j < ns.len(),
    ensures
        child_with(ns, ns[j].name@) == Some(ns[j]),
    decreases ns.len(),
{
    if j < ns.len() - 1 {
        assert(ns.last().name@ != ns[j].name@);
        lemma_child_with_idx(ns.drop_last(), j);
    }
}

/// Replacing the child at `j` by a node of the same name changes the lookup
/// only for that name.
proof fn lemma_child_with_update(ns: Seq<Node>, j: int, x: Node)
    requires
        0 <= j < ns.len(),
        ns[j].name@ == x.name@,
        unique_names(ns),
    ensures
        forall|nm: Seq<char>|
            #[trigger] child_with(ns.update(j, x), nm) == if nm == x.name@ {
                Some(x)
            } else {
                child_with(ns, nm)
            },
    decreases ns.len(),
{
    let ns2 = ns.update(j, x);
    if j == ns.len() - 1 {
        assert(ns2.drop_last() =~= ns.drop_last());
        assert(ns2.last() == x);
        assert forall|nm: Seq<char>| #[trigger] child_with(ns2, nm) == (if nm == x.name@ {
            Some(x)
        } else {
            child_with(ns, nm)
        }) by {
            if nm != x.name@ {
                assert(child_with(ns2, nm) == child_with(ns2.drop_last(), nm));
                assert(child_with(ns, nm) == child_with(ns.drop_last(), nm));
            }
        }
    } else {
        assert(ns2.drop_last() =~= ns.drop_last().update(j, x));
        assert(ns2.last() == ns.last());
        assert(unique_names(ns.drop_last()));
        lemma_child_with_update(ns.drop_last(), j, x);
        assert(ns.last().name@ != x.name@);
        assert forall|nm: Seq<char>| #[trigger] child_with(ns2, nm) == (if nm == x.name@ {
            Some(x)
        } else {
            child_with(ns, nm)
        }) by {
            if ns2.last().name@ == nm {
            } else {
                assert(child_with(ns2, nm) == child_with(ns2.drop_last(), nm));
                assert(child_with(ns, nm) == child_with(ns.drop_last(), nm));
            }
        }
    }
}

/// Where no child carries `name`, the lookup finds nothing.
proof fn lemma_child_with_absent(ns: Seq<Node>, name: Seq<char>)
    requires
        forall|j: int| 0 <= j < ns.len() ==> ns[j].name@ != name,
    ensures
        child_with(ns, name) is None,
    decreases ns.len(),
{
    if ns.len() > 0 {
        lemma_child_with_absent(ns.drop_last(), name);
    }
}

/// One path `p` of the relation between a node before and after adding sizes
/// directly at the node itself.
proof fn lemma_leaf_case(newme: Node, oldme: Node, rest: Seq<Seq<char>>, p: Seq<Seq<char>>)
    requires
        rest.len() == 0,
        newme.nodes@ == oldme.nodes@,
        forall|q: Seq<Seq<char>>| node_at(newme, q) == node_at(oldme, q) || q.len() == 0,
    ensures
        p.len() == 0 ==> p == rest && is_prefix_of(p, rest) && node_at(newme, p)
            == Some(newme) && node_at(oldme, p) == Some(oldme),
        p.len() > 0 ==> p != rest && !is_prefix_of(p, rest) && node_at(newme, p)
            == node_at(oldme, p),
{
    if p.len() == 0 {
        assert(p =~= rest);
        assert(node_at(newme, p) == Some(newme));
        assert(node_at(oldme, p) == Some(oldme));
        assert(p =~= rest.subrange(0, 0));
        assert(is_prefix_of(p, rest));
    }
}

/// A just-created node: no size anywhere, no children.
pub open spec fn is_fresh_node(n: Node, nm: Seq<char>) -> bool {
    &&& n.name@ == nm
    &&& n.vmsize == 0
    &&& n.filesize == 0
    &&& n.total_vmsize == 0
    &&& n.total_filesize == 0
    &&& n.nodes@.len() == 0
}

proof fn lemma_fresh_zero(n: Node, nm: Seq<char>, q: Seq<Seq<char>>)
    requires
        is_fresh_node(n, nm),
    ensures
        own_vm_at(n, q) == 0,
        own_fs_at(n, q) == 0,
        total_vm_at(n, q) == 0,
        total_fs_at(n, q) == 0,
        node_at(n, q) is Some <==> q.len() == 0,
{
    if q.len() > 0 {
        assert(child_with(n.nodes@, q[0]) is None);
    }
}

proof fn lemma_prefix_drop(p: Seq<Seq<char>>, r: Seq<Seq<char>>)
    requires
        p.len() >= 1,
        r.len() >= 1,
        p[0] == r[0],
    ensures
        is_prefix_of(p, r) <==> is_prefix_of(p.drop_first(), r.drop_first()),
{
    if is_prefix_of(p, r) {
        assert forall|k: int| 0 <= k < p.len() - 1 implies p.drop_first()[k] == r.drop_first()
            .subrange(0, p.len() - 1)[k] by {
            assert(p.drop_first()[k] == p[k + 1]);
            assert(p[k + 1] == r.subrange(0, p.len() as int)[k + 1]);
            assert(r.drop_first().subrange(0, p.len() - 1)[k] == r[k + 1]);
        }
        assert(p.drop_first() =~= r.drop_first().subrange(0, p.len() - 1));
    }
    if is_prefix_of(p.drop_first(), r.drop_first()) {
        assert forall|k: int| 0 <= k < p.len() implies p[k] == r.subrange(0, p.len() as int)[k] by {
            if k > 0 {
                assert(p[k] == p.drop_first()[k - 1]);
                assert(p.drop_first()[k - 1] == r.drop_first().subrange(0, p.len() - 1)[k - 1]);
                assert(r.drop_first()[k - 1] == r[k]);
            }
        }
        assert(p =~= r.subrange(0, p.len() as int));
    }
}

/// One path `p` of the relation between a node before and after descending
/// into (or creating) the child named `nm` and adding sizes along `subrest`.
#[verifier::spinoff_prover]
proof fn lemma_own_total_cases(
    oldme: Node,
    newme: Node,
    nsb: Seq<Node>,
    cb: Node,
    newc: Node,
    nm: Seq<char>,
    rest: Seq<Seq<char>>,
    subrest: Seq<Seq<char>>,
    p: Seq<Seq<char>>,
    vm: u64,
    fs: u64,
)
    requires
        wf_node(oldme),
        newme.vmsize == oldme.vmsize,
        newme.filesize == oldme.filesize,
        newme.total_vmsize == oldme.total_vmsize + vm,
        newme.total_filesize == oldme.total_filesize + fs,
        rest.len() >= 1,
        rest[0] == nm,
        rest.drop_first() == subrest,
        cb.name@ == nm,
        newc.name@ == nm,
        forall|x: Seq<char>| #[trigger] child_with(newme.nodes@, x) == (if x == nm {
            Some(newc)
        } else {
            child_with(nsb, x)
        }),
        forall|x: Seq<char>| x != nm ==> #[trigger] child_with(nsb, x) == child_with(
            oldme.nodes@, x),
        child_with(oldme.nodes@, nm) == Some(cb) || (child_with(oldme.nodes@, nm) is None
            && is_fresh_node(cb, nm)),
        forall|q: Seq<Seq<char>>| #[trigger] own_vm_at(newc, q) == own_vm_at(cb, q) + (if q
            == subrest { vm as int } else { 0int }),
        forall|q: Seq<Seq<char>>| #[trigger] own_fs_at(newc, q) == own_fs_at(cb, q) + (if q
            == subrest { fs as int } else { 0int }),
        forall|q: Seq<Seq<char>>| #[trigger] total_vm_at(newc, q) == total_vm_at(cb, q) + (
        if is_prefix_of(q, subrest) { vm as int } else { 0int }),
        forall|q: Seq<Seq<char>>| #[trigger] total_fs_at(newc, q) == total_fs_at(cb, q) + (
        if is_prefix_of(q, subrest) { fs as int } else { 0int }),
        forall|q: Seq<Seq<char>>| (#[trigger] node_at(newc, q)) is Some <==> node_at(cb, q)
            is Some || is_prefix_of(q, subrest),
    ensures
        own_vm_at(newme, p) == own_vm_at(oldme, p) + (if p == rest { vm as int } else { 0int }),
        own_fs_at(newme, p) == own_fs_at(oldme, p) + (if p == rest { fs as int } else { 0int }),
        total_vm_at(newme, p) == total_vm_at(oldme, p) + (if is_prefix_of(p, rest) {
            vm as int
        } else { 0int }),
        total_fs_at(newme, p) == total_fs_at(oldme, p) + (if is_prefix_of(p, rest) {
            fs as int
        } else { 0int }),
        node_at(newme, p) is Some <==> node_at(oldme, p) is Some || is_prefix_of(p, rest),
{
    if p.len() == 0 {
        assert(p =~= rest.subrange(0, 0));
        assert(is_prefix_of(p, rest));
        assert(p != rest);
        assert(node_at(newme, p) == Some(newme));
        assert(node_at(oldme, p) == Some(oldme));
    } else {
        let q = p.drop_first();
        if p[0] == nm {
            assert(node_at(newme, p) == node_at(newc, q));
            lemma_prefix_drop(p, rest);
            if p == rest {
                assert(q == subrest);
            }
            if q == subrest {
                assert forall|k: int| 0 <= k < p.len() implies p[k] == rest[k] by {
                    if k > 0 {
                        assert(p[k] == q[k - 1]);
                        assert(rest[k] == subrest[k - 1]);
                    }
                }
                assert(p.len() == rest.len());
                assert(p =~= rest);
            }
            assert(own_vm_at(newc, q) == own_vm_at(cb, q) + (if q == subrest {
                vm as int
            } else {
                0int
            }));
            assert(own_fs_at(newc, q) == own_fs_at(cb, q) + (if q == subrest {
                fs as int
            } else {
                0int
            }));
            assert(total_vm_at(newc, q) == total_vm_at(cb, q) + (if is_prefix_of(q, subrest) {
                vm as int
            } else {
                0int
            }));
            assert(total_fs_at(newc, q) == total_fs_at(cb, q) + (if is_prefix_of(q, subrest) {
                fs as int
            } else {
                0int
            }));
            assert(node_at(newc, q) is Some <==> node_at(cb, q) is Some || is_prefix_of(
                q, subrest));
            if child_with(oldme.nodes@, nm) == Some(cb) {
                assert(node_at(oldme, p) == node_at(cb, q));
            } else {
                assert(node_at(oldme, p) is None);
                lemma_fresh_zero(cb, nm, q);
                if q.len() == 0 {
                    assert(q =~= subrest.subrange(0, 0));
                    assert(is_prefix_of(q, subrest));
                }
            }
        } else {
            assert(p != rest);
            assert(!is_prefix_of(p, rest)) by {
                if is_prefix_of(p, rest) {
                    assert(p[0] == rest.subrange(0, p.len() as int)[0]);
                }
            }
            assert(child_with(newme.nodes@, p[0]) == child_with(oldme.nodes@, p[0]));
            assert(node_at(newme, p) == node_at(oldme, p));
        }
    }
}

/// Find the index of the child named `name`, if present.
fn find_child_idx(ns: &Vec<Node>, name: &String) -> (r: Option<usize>)
    ensures
        match r {
            Option::Some(j) => j < ns@.len() && ns@[j as int].name@ == name@,
            Option::None => forall|j: int| 0 <= j < ns@.len() ==> ns@[j].name@ != name@,
        },
{
    let mut k: usize = 0;
    while k < ns.len()
        invariant
            k <= ns@.len(),
            forall|j: int| 0 <= j < k ==> ns@[j].name@ != name@,
        decreases ns@.len() - k,
    {
        if ns[k].name == *name {
            return Some(k);
        }
        k = k + 1;
    }
    None
}

impl Node {
    /// Fresh node with the given name and size attributed directly to it.
    pub fn create_node(name: String, vmsize: u64, filesize: u64) -> (r: Node)
        ensures
            r.name == name,
            r.vmsize == vmsize,
            r.filesize == filesize,
            r.total_vmsize == vmsize,
            r.total_filesize == filesize,
            r.nodes@.len() == 0,
            wf_node(r),
    {
        Node { name, vmsize, filesize, total_vmsize: vmsize, total_filesize: filesize, nodes: Vec::new() }
    }

    /// Add `vm`/`fs` to the cumulative size of every node along
    /// `path[i..]` (creating missing nodes), and to the size attributed
    /// directly at its end.
    fn add_rec(&mut self, path: &Vec<String>, i: usize, vm: u64, fs: u64)
        requires
            wf_node(*old(self)),
            i <= path@.len(),
            old(self).total_vmsize + vm <= u64::MAX,
            old(self).total_filesize + fs <= u64::MAX,
        ensures
            wf_node(*final(self)),
            final(self).name == old(self).name,
            final(self).total_vmsize == old(self).total_vmsize + vm,
            final(self).total_filesize == old(self).total_filesize + fs,
            forall|p: Seq<Seq<char>>| #[trigger] own_vm_at(*final(self), p) == own_vm_at(
                *old(self), p) + if p == path.deep_view().skip(i as int) { vm as int } else { 0int },
            forall|p: Seq<Seq<char>>| #[trigger] own_fs_at(*final(self), p) == own_fs_at(
                *old(self), p) + if p == path.deep_view().skip(i as int) { fs as int } else { 0int },
            forall|p: Seq<Seq<char>>| #[trigger] total_vm_at(*final(self), p) == total_vm_at(
                *old(self), p) + if is_prefix_of(p, path.deep_view().skip(i as int)) { vm as int } else { 0int },
            forall|p: Seq<Seq<char>>| #[trigger] total_fs_at(*final(self), p) == total_fs_at(
                *old(self), p) + if is_prefix_of(p, path.deep_view().skip(i as int)) { fs as int } else { 0int },
            forall|p: Seq<Seq<char>>| (#[trigger] node_at(*final(self), p)) is Some <==> node_at(
                *old(self), p) is Some || is_prefix_of(p, path.deep_view().skip(i as int)),
        decreases path@.len() - i,
    {
        proof {
            lemma_sums_nonneg(self.nodes@);
        }
        let ghost oldme = *old(self);
        let ghost rest = path.deep_view().skip(i as int);
        self.total_vmsize = self.total_vmsize + vm;
        self.total_filesize = self.total_filesize + fs;
        if i == path.len() {
            self.vmsize = self.vmsize + vm;
            self.filesize = self.filesize + fs;
            proof {
                assert(rest =~= Seq::<Seq<char>>::empty());
                assert forall|p: Seq<Seq<char>>| node_at(*self, p) == node_at(oldme, p)
                    || p.len() == 0 by {
                    if p.len() > 0 {
                        assert(child_with(self.nodes@, p[0]) == child_with(
                            oldme.nodes@, p[0]));
                    }
                }
                assert forall|p: Seq<Seq<char>>| #[trigger] own_vm_at(*self, p)
                    == own_vm_at(oldme, p) + (if p == rest { vm as int } else { 0int }) by {
                    lemma_leaf_case(*self, oldme, rest, p);
                }
                assert forall|p: Seq<Seq<char>>| #[trigger] own_fs_at(*self, p)
                    == own_fs_at(oldme, p) + (if p == rest { fs as int } else { 0int }) by {
                    lemma_leaf_case(*self, oldme, rest, p);
                }
                assert forall|p: Seq<Seq<char>>| #[trigger] total_vm_at(*self, p)
                    == total_vm_at(oldme, p) + (if is_prefix_of(p, rest) { vm as int } else { 0int }) by {
                    lemma_leaf_case(*self, oldme, rest, p);
                }
                assert forall|p: Seq<Seq<char>>| #[trigger] total_fs_at(*self, p)
                    == total_fs_at(oldme, p) + (if is_prefix_of(p, rest) { fs as int } else { 0int }) by {
                    lemma_leaf_case(*self, oldme, rest, p);
                }
                assert forall|p: Seq<Seq<char>>| (#[trigger] node_at(*self, p)) is Some
                    <==> node_at(oldme, p) is Some || is_prefix_of(p, rest) by {
                    lemma_leaf_case(*self, oldme, rest, p);
                }
            }
            return;
        }
        {
            let name: &String = &path[i];
            let j: usize = match find_child_idx(&self.nodes, name) {
                Option::Some(j) => {
                    proof {
                        lemma_child_with_idx(oldme.nodes@, j as int);
                    }
                    j
                },
                Option::None => {
                    let fresh = Node::create_node(name.clone(), 0, 0);
                    proof {
                        lemma_sum_push(self.nodes@, fresh);
                        lemma_child_with_absent(oldme.nodes@, name@);
                        assert(unique_names(oldme.nodes@.push(fresh)));
                    }
                    self.nodes.push(fresh);
                    self.nodes.len() - 1
                },
            };
            proof {
                assert(j < self.nodes@.len());
                assert(self.nodes@[j as int].name@ == name@);
                assert(unique_names(self.nodes@));
                assert((self.nodes@ == oldme.nodes@ && child_with(oldme.nodes@, name@)
                    == Some(self.nodes@[j as int])) || (self.nodes@ == oldme.nodes@.push(
                    self.nodes@[j as int]) && child_with(oldme.nodes@, name@) is None
                    && is_fresh_node(self.nodes@[j as int], name@)));
                lemma_sum_ge_elem(self.nodes@, j as int);
                lemma_sums_nonneg(oldme.nodes@);
            }
            let ghost nsb = self.nodes@;
            let ghost cb = self.nodes@[j as int];
            let child = &mut self.nodes[j];
            child.add_rec(path, i + 1, vm, fs);
            proof {
                let newc = self.nodes@[j as int];
                let nsf = self.nodes@;
                let subrest = path.deep_view().skip(i as int + 1);
                assert(rest.drop_first() =~= subrest);
                assert(rest[0] == name@);
                lemma_sum_update(nsb, j as int, newc);
                lemma_child_with_update(nsb, j as int, newc);
                lemma_child_with_idx(nsb, j as int);
                if nsb != oldme.nodes@ {
                    // a fresh child was pushed: lookups of other names are unchanged
                    assert(nsb.drop_last() =~= oldme.nodes@);
                    assert(sum_vm(nsb) == sum_vm(oldme.nodes@));
                    assert(sum_fs(nsb) == sum_fs(oldme.nodes@));
                    assert forall|nm: Seq<char>| nm != name@ implies #[trigger] child_with(
                        nsb, nm) == child_with(oldme.nodes@, nm) by {
                    }
                }
                // well-formedness of the result
                assert forall|k: int| 0 <= k < nsf.len() implies wf_node(#[trigger] nsf[k]) by {
                    if k != j {
                        assert(nsf[k] == nsb[k]);
                        if nsb == oldme.nodes@ {
                            assert(wf_node(oldme.nodes@[k]));
                        } else {
                            if k < oldme.nodes@.len() {
                                assert(nsb[k] == oldme.nodes@[k]);
                                assert(wf_node(oldme.nodes@[k]));
                            }
                        }
                    }
                }
                assert(unique_names(nsf)) by {
                    assert(forall|k: int| 0 <= k < nsf.len() ==> nsf[k].name@
                        == nsb[k].name@);
                }
                assert(wf_node(*self));
                // size attributed exactly at each path
                assert forall|p: Seq<Seq<char>>| #[trigger] own_vm_at(*self, p)
                    == own_vm_at(oldme, p) + (if p == rest { vm as int } else { 0int }) by {
                    lemma_own_total_cases(oldme, *self, nsb, cb, newc, name@, rest,
                        subrest, p, vm, fs);
                }
                assert forall|p: Seq<Seq<char>>| #[trigger] own_fs_at(*self, p)
                    == own_fs_at(oldme, p) + (if p == rest { fs as int } else { 0int }) by {
                    lemma_own_total_cases(oldme, *self, nsb, cb, newc, name@, rest,
                        subrest, p, vm, fs);
                }
                assert forall|p: Seq<Seq<char>>| #[trigger] total_vm_at(*self, p)
                    == total_vm_at(oldme, p) + (if is_prefix_of(p, rest) { vm as int } else {
                    0int }) by {
                    lemma_own_total_cases(oldme, *self, nsb, cb, newc, name@, rest,
                        subrest, p, vm, fs);
                }
                assert forall|p: Seq<Seq<char>>| #[trigger] total_fs_at(*self, p)
                    == total_fs_at(oldme, p) + (if is_prefix_of(p, rest) { fs as int } else {
                    0int }) by {
                    lemma_own_total_cases(oldme, *self, nsb, cb, newc, name@, rest,
                        subrest, p, vm, fs);
                }
                assert forall|p: Seq<Seq<char>>| (#[trigger] node_at(*self, p)) is Some
                    <==> node_at(oldme, p) is Some || is_prefix_of(p, rest) by {
                    lemma_own_total_cases(oldme, *self, nsb, cb, newc, name@, rest,
                        subrest, p, vm, fs);
                }
            }
        }
    }
}

impl Default for Node {
    /// Empty, nameless node.
    fn default() -> (r: Self)
        ensures
            is_fresh_node(r, Seq::<char>::empty()),
            wf_node(r),
    {
        Node {
            name: String::new(),
            vmsize: 0,
            filesize: 0,
            total_vmsize: 0,
            total_filesize: 0,
            nodes: Vec::new(),
        }
    }
}

/// Hierarchical accumulator of (path, sizes) observations.
pub struct Tree {
    pub root: Node,
}

impl Tree {
    /// Walk `path` from the root, creating missing nodes, adding the sizes to
    /// every cumulative total along the walk and to the size attributed
    /// directly at the path's end.  Re-inserting a path accumulates.
    pub fn add_path(&mut self, path: &Vec<String>, vmsize: u64, filesize: u64)
        requires
            wf_node(old(self).root),
            path@.len() > 0,
            old(self).root.total_vmsize + vmsize <= u64::MAX,
            old(self).root.total_filesize + filesize <= u64::MAX,
        ensures
            wf_node(final(self).root),
            final(self).root.name == old(self).root.name,
            final(self).root.total_vmsize == old(self).root.total_vmsize + vmsize,
            final(self).root.total_filesize == old(self).root.total_filesize + filesize,
            forall|p: Seq<Seq<char>>| #[trigger] own_vm_at(final(self).root, p) == own_vm_at(
                old(self).root, p) + if p == path.deep_view() { vmsize as int } else { 0int },
            forall|p: Seq<Seq<char>>| #[trigger] own_fs_at(final(self).root, p) == own_fs_at(
                old(self).root, p) + if p == path.deep_view() { filesize as int } else { 0int },
            forall|p: Seq<Seq<char>>| #[trigger] total_vm_at(final(self).root, p) == total_vm_at(
                old(self).root, p) + if is_prefix_of(p, path.deep_view()) { vmsize as int } else { 0int },
            forall|p: Seq<Seq<char>>| #[trigger] total_fs_at(final(self).root, p) == total_fs_at(
                old(self).root, p) + if is_prefix_of(p, path.deep_view()) { filesize as int } else { 0int },
            forall|p: Seq<Seq<char>>| (#[trigger] node_at(final(self).root, p)) is Some
                <==> node_at(old(self).root, p) is Some || is_prefix_of(p, path.deep_view()),
    {
        proof {
            assert(path.deep_view().skip(0) =~= path.deep_view());
        }
        self.root.add_rec(path, 0, vmsize, filesize);
    }
}


/// Count of `'/'` chars in `s` (the depth measure used during emission).
pub open spec fn count_slash(s: Seq<char>) -> int
    decreases s.len(),
{
    if s.len() == 0 {
        0
    } else {
        count_slash(s.drop_last()) + if s.last() == '/' { 1int } else { 0int }
    }
}

/// Path string of a child during emission: parent dir, a slash, child name.
pub open spec fn child_dir(dir: Seq<char>, name: Seq<char>) -> Seq<char> {
    dir + seq!['/'] + name
}

/// Import paths recorded for a node emitted at `dir`: one per direct child.
pub open spec fn imports_of(n: Node, dir: Seq<char>) -> Seq<Seq<char>> {
    Seq::new(n.nodes@.len(), |k: int| child_dir(dir, n.nodes@[k].name@))
}

/// One emitted record: path string, bytes, import path strings.
pub open spec fn spec_emit(n: Node, dir: Seq<char>, deep: usize) -> Seq<(Seq<char>, u64, Seq<Seq<char>>)>
    decreases n,
{
    if deep != 0 && count_slash(dir) >= deep {
        seq![(dir, n.total_filesize, Seq::<Seq<char>>::empty())]
    } else {
        seq![(dir, n.filesize, imports_of(n, dir))] + spec_emit_seq(n.nodes@, dir, deep)
    }
}

/// Emission of the children of a node whose path string is `dir`, in order.
pub open spec fn spec_emit_seq(ns: Seq<Node>, dir: Seq<char>, deep: usize) -> Seq<(Seq<char>, u64, Seq<Seq<char>>)>
    decreases ns,
{
    if ns.len() == 0 {
        Seq::empty()
    } else {
        spec_emit_seq(ns.drop_last(), dir, deep) + spec_emit(
            ns.last(),
            child_dir(dir, ns.last().name@),
            deep,
        )
    }
}

/// Emission of the top-level children of the root (each is its own path root).
pub open spec fn spec_emit_forest(ns: Seq<Node>, deep: usize) -> Seq<(Seq<char>, u64, Seq<Seq<char>>)>
    decreases ns,
{
    if ns.len() == 0 {
        Seq::empty()
    } else {
        spec_emit_forest(ns.drop_last(), deep) + spec_emit(ns.last(), ns.last().name@, deep)
    }
}

/// Total bytes over a sequence of emitted records.
pub open spec fn sum_bytes(es: Seq<(Seq<char>, u64, Seq<Seq<char>>)>) -> int
    decreases es.len(),
{
    if es.len() == 0 {
        0
    } else {
        sum_bytes(es.drop_last()) + es.last().1
    }
}

proof fn lemma_sum_bytes_concat(a: Seq<(Seq<char>, u64, Seq<Seq<char>>)>, b: Seq<(Seq<char>, u64, Seq<Seq<char>>)>)
    ensures
        sum_bytes(a + b) == sum_bytes(a) + sum_bytes(b),
    decreases b.len(),
{
    if b.len() == 0 {
        assert(a + b =~= a);
    } else {
        assert((a + b).drop_last() =~= a + b.drop_last());
        lemma_sum_bytes_concat(a, b.drop_last());
    }
}

/// Whatever the depth bound, the bytes emitted for one subtree add up to the
/// subtree's cumulative file size.
proof fn lemma_emit_total(n: Node, dir: Seq<char>, deep: usize)
    requires
        wf_node(n),
    ensures
        sum_bytes(spec_emit(n, dir, deep)) == n.total_filesize,
    decreases n,
{
    if deep != 0 && count_slash(dir) >= deep {
        let es = spec_emit(n, dir, deep);
        assert(es.drop_last() =~= Seq::empty());
        assert(sum_bytes(Seq::<(Seq<char>, u64, Seq<Seq<char>>)>::empty()) == 0);
    } else {
        let head = seq![(dir, n.filesize, imports_of(n, dir))];
        lemma_sum_bytes_concat(head, spec_emit_seq(n.nodes@, dir, deep));
        lemma_emit_seq_total(n.nodes@, dir, deep);
        assert(sum_bytes(head) == n.filesize + sum_bytes(Seq::empty())) by {
            assert(head.drop_last() =~= Seq::empty());
        }
    }
}

proof fn lemma_emit_seq_total(ns: Seq<Node>, dir: Seq<char>, deep: usize)
    requires
        forall|k: int| 0 <= k < ns.len() ==> wf_node(#[trigger] ns[k]),
    ensures
        sum_bytes(spec_emit_seq(ns, dir, deep)) == sum_fs(ns),
    decreases ns,
{
    if ns.len() > 0 {
        lemma_emit_seq_total(ns.drop_last(), dir, deep);
        lemma_emit_total(ns.last(), child_dir(dir, ns.last().name@), deep);
        lemma_sum_bytes_concat(
            spec_emit_seq(ns.drop_last(), dir, deep),
            spec_emit(ns.last(), child_dir(dir, ns.last().name@), deep),
        );
    }
}

proof fn lemma_emit_forest_total(ns: Seq<Node>, deep: usize)
    requires
        forall|k: int| 0 <= k < ns.len() ==> wf_node(#[trigger] ns[k]),
    ensures
        sum_bytes(spec_emit_forest(ns, deep)) == sum_fs(ns),
    decreases ns,
{
    if ns.len() > 0 {
        lemma_emit_forest_total(ns.drop_last(), deep);
        lemma_emit_total(ns.last(), ns.last().name@, deep);
        lemma_sum_bytes_concat(
            spec_emit_forest(ns.drop_last(), deep),
            spec_emit(ns.last(), ns.last().name@, deep),
        );
    }
}

/// Depth-collapsed emission conserves total bytes: for any depth bound, the
/// records emitted for a well-formed tree carry the same total bytes as the
/// unbounded emission.
pub proof fn lemma_emit_conserves_bytes(t: Tree, k: usize)
    requires
        wf_node(t.root),
    ensures
        sum_bytes(spec_emit_forest(t.root.nodes@, k)) == sum_bytes(
            spec_emit_forest(t.root.nodes@, 0),
        ),
        sum_bytes(spec_emit_forest(t.root.nodes@, k)) == sum_fs(t.root.nodes@),
{
    lemma_emit_forest_total(t.root.nodes@, k);
    lemma_emit_forest_total(t.root.nodes@, 0);
}


/// One entry of the report: bytes attributed to a path, and the paths of the
/// entries it imports (its direct children in the tree).
pub struct Input {
    pub bytes: u64,
    pub imports: Vec<String>,
}

impl View for Input {
    type V = (u64, Seq<Seq<char>>);

    open spec fn view(&self) -> Self::V {
        (self.bytes, self.imports.deep_view())
    }
}

/// Contribution of one path to the single output.
pub struct InputDetail {
    pub bytes_in_output: u64,
}

/// The single output entry of the report.
pub struct Output {
    pub bytes: u64,
    pub inputs: Vec<(String, InputDetail)>,
    pub entry_point: Option<String>,
}

/// The flattened report: per-path entries, and one named output.
pub struct Metafile {
    pub inputs: Vec<(String, Input)>,
    pub outputs: Vec<(String, Output)>,
}

/// Keys of an association list never repeat.
pub open spec fn unique_keys(v: Seq<(String, Input)>) -> bool {
    forall|i: int, j: int| 0 <= i < j < v.len() ==> v[i].0@ != v[j].0@
}

/// The mapping an association list stands for (later entries win).
pub open spec fn assoc_map(v: Seq<(String, Input)>) -> Map<Seq<char>, (u64, Seq<Seq<char>>)>
    decreases v.len(),
{
    if v.len() == 0 {
        Map::empty()
    } else {
        assoc_map(v.drop_last()).insert(v.last().0@, v.last().1@)
    }
}

/// The mapping after recording a sequence of emitted entries in order.
pub open spec fn apply_entries(
    m: Map<Seq<char>, (u64, Seq<Seq<char>>)>,
    es: Seq<(Seq<char>, u64, Seq<Seq<char>>)>,
) -> Map<Seq<char>, (u64, Seq<Seq<char>>)>
    decreases es.len(),
{
    if es.len() == 0 {
        m
    } else {
        apply_entries(m, es.drop_last()).insert(es.last().0, (es.last().1, es.last().2))
    }
}

proof fn lemma_apply_concat(
    m: Map<Seq<char>, (u64, Seq<Seq<char>>)>,
    a: Seq<(Seq<char>, u64, Seq<Seq<char>>)>,
    b: Seq<(Seq<char>, u64, Seq<Seq<char>>)>,
)
    ensures
        apply_entries(m, a + b) == apply_entries(apply_entries(m, a), b),
    decreases b.len(),
{
    if b.len() == 0 {
        assert(a + b =~= a);
    } else {
        assert((a + b).drop_last() =~= a + b.drop_last());
        lemma_apply_concat(m, a, b.drop_last());
    }
}

proof fn lemma_assoc_update(v: Seq<(String, Input)>, j: int, e: (String, Input))
    requires
        unique_keys(v),
        0 <= j < v.len(),
        v[j].0@ == e.0@,
    ensures
        assoc_map(v.update(j, e)) == assoc_map(v).insert(e.0@, e.1@),
        unique_keys(v.update(j, e)),
    decreases v.len(),
{
    let v2 = v.update(j, e);
    assert(forall|k: int| 0 <= k < v2.len() ==> v2[k].0@ == v[k].0@);
    if j == v.len() - 1 {
        assert(v2.drop_last() =~= v.drop_last());
        assert(v2.last() == e);
        assert(assoc_map(v.drop_last()).insert(v.last().0@, v.last().1@).insert(e.0@, e.1@)
            =~= assoc_map(v.drop_last()).insert(e.0@, e.1@));
    } else {
        assert(v2.drop_last() =~= v.drop_last().update(j, e));
        assert(v2.last() == v.last());
        assert(unique_keys(v.drop_last()));
        lemma_assoc_update(v.drop_last(), j, e);
        assert(v.last().0@ != e.0@);
        assert(assoc_map(v.drop_last()).insert(e.0@, e.1@).insert(v.last().0@, v.last().1@)
            =~= assoc_map(v.drop_last()).insert(v.last().0@, v.last().1@).insert(e.0@, e.1@));
    }
}

/// Record `(key, val)` in the association list, replacing an entry that holds
/// the key already.
fn map_insert(v: &mut Vec<(String, Input)>, key: String, val: Input)
    requires
        unique_keys(old(v)@),
    ensures
        unique_keys(final(v)@),
        assoc_map(final(v)@) == assoc_map(old(v)@).insert(key@, val@),
{
    let n = v.len();
    let mut k: usize = 0;
    while k < n
        invariant
            n == v@.len(),
            k <= n,
            unique_keys(v@),
            v@ == old(v)@,
            forall|j: int| 0 <= j < k ==> v@[j].0@ != key@,
        decreases n - k,
    {
        if v[k].0 == key {
            let ghost vb = v@;
            let slot = &mut v[k];
            *slot = (key, val);
            proof {
                lemma_assoc_update(vb, k as int, v@[k as int]);
            }
            return;
        }
        k = k + 1;
    }
    proof {
        assert(v@.push((key, val)).drop_last() =~= v@);
    }
    v.push((key, val));
}

/// Count the `'/'` chars of a string.
fn count_slashes(s: &String) -> (r: usize)
    ensures
        r == count_slash(s@),
{
    let v = crate::tool::str_chars(s.as_str());
    let n = v.len();
    let mut k: usize = 0;
    let mut cnt: usize = 0;
    while k < n
        invariant
            n == v@.len(),
            v@ == s@,
            k <= n,
            cnt <= k,
            cnt == count_slash(s@.subrange(0, k as int)),
        decreases n - k,
    {
        proof {
            assert(s@.subrange(0, k + 1).drop_last() =~= s@.subrange(0, k as int));
        }
        if v[k] == '/' {
            cnt = cnt + 1;
        }
        k = k + 1;
    }
    proof {
        assert(s@.subrange(0, n as int) =~= s@);
    }
    cnt
}

/// The path string under which a node is emitted, given its parent's one.
pub open spec fn full_dir_of(n: Node, dir: Option<&String>) -> Seq<char> {
    match dir {
        Option::Some(p) => child_dir(p@, n.name@),
        Option::None => n.name@,
    }
}

impl Node {
    /// Emit this subtree into the report: one record per node above the depth
    /// bound, one collapsed record (cumulative bytes, no imports) where the
    /// bound is reached.
    fn traverse(&self, inputs: &mut Vec<(String, Input)>, dir: Option<&String>, deep: usize)
        requires
            unique_keys(old(inputs)@),
        ensures
            unique_keys(final(inputs)@),
            assoc_map(final(inputs)@) == apply_entries(
                assoc_map(old(inputs)@),
                spec_emit(*self, full_dir_of(*self, dir), deep),
            ),
        decreases *self,
    {
        let full: String = match dir {
            Option::Some(parent) => {
                let mut f = parent.clone();
                f.append("/");
                f.append(self.name.as_str());
                f
            },
            Option::None => self.name.clone(),
        };
        proof {
            reveal_strlit("/");
            assert("/"@ =~= seq!['/']);
            assert(full@ == full_dir_of(*self, dir));
        }
        let ghost fdir = full_dir_of(*self, dir);
        let ghost m0 = assoc_map(inputs@);
        let depth = count_slashes(&full);
        if deep != 0 && depth >= deep {
            let entry = Input { bytes: self.total_filesize, imports: Vec::new() };
            let ghost ev = entry@;
            proof {
                assert(ev == (self.total_filesize, Seq::<Seq<char>>::empty())) by {
                    assert(entry.imports.deep_view() =~= Seq::<Seq<char>>::empty());
                }
            }
            map_insert(inputs, full, entry);
            proof {
                let es = spec_emit(*self, fdir, deep);
                assert(es.drop_last() =~= Seq::<(Seq<char>, u64, Seq<Seq<char>>)>::empty());
                assert(apply_entries(m0, es.drop_last()) == m0);
                assert(es.last() == (fdir, self.total_filesize, Seq::<Seq<char>>::empty()));
                assert(apply_entries(m0, es) == m0.insert(fdir, ev));
                assert(assoc_map(inputs@) == apply_entries(m0, es));
            }
            return;
        }
        let mut imports: Vec<String> = Vec::new();
        let cn = self.nodes.len();
        let mut k: usize = 0;
        while k < cn
            invariant
                cn == self.nodes@.len(),
                k <= cn,
                imports@.len() == k,
                full@ == fdir,
                forall|j: int| 0 <= j < k ==> imports@[j]@ == child_dir(fdir, self.nodes@[j].name@),
            decreases cn - k,
        {
            let mut p = full.clone();
            p.append("/");
            p.append(self.nodes[k].name.as_str());
            proof {
                reveal_strlit("/");
                assert("/"@ =~= seq!['/']);
            }
            imports.push(p);
            k = k + 1;
        }
        let entry = Input { bytes: self.filesize, imports };
        let ghost ev = entry@;
        proof {
            assert(ev.1 =~= imports_of(*self, fdir));
            assert(ev == (self.filesize, imports_of(*self, fdir)));
        }
        map_insert(inputs, full.clone(), entry);
        proof {
            let head = seq![(fdir, self.filesize, imports_of(*self, fdir))];
            assert(head.drop_last() =~= Seq::<(Seq<char>, u64, Seq<Seq<char>>)>::empty());
            assert(apply_entries(m0, head.drop_last()) == m0);
            assert(head.last() == (fdir, self.filesize, imports_of(*self, fdir)));
            assert(apply_entries(m0, head) == m0.insert(fdir, ev));
            assert(assoc_map(inputs@) == apply_entries(m0, head));
        }
        let ghost m1 = assoc_map(inputs@);
        let mut k: usize = 0;
        while k < cn
            invariant
                cn == self.nodes@.len(),
                k <= cn,
                full@ == fdir,
                unique_keys(inputs@),
                assoc_map(inputs@) == apply_entries(
                    m1,
                    spec_emit_seq(self.nodes@.subrange(0, k as int), fdir, deep),
                ),
            decreases cn - k,
        {
            let ghost mpre = assoc_map(inputs@);
            let child = &self.nodes[k];
            child.traverse(inputs, Some(&full), deep);
            proof {
                let pre = self.nodes@.subrange(0, k as int);
                let post = self.nodes@.subrange(0, k + 1);
                assert(post.drop_last() =~= pre);
                assert(post.last() == self.nodes@[k as int]);
                lemma_apply_concat(
                    m1,
                    spec_emit_seq(pre, fdir, deep),
                    spec_emit(self.nodes@[k as int], child_dir(fdir, self.nodes@[k as int].name@), deep),
                );
                assert(spec_emit_seq(post, fdir, deep) =~= spec_emit_seq(pre, fdir, deep)
                    + spec_emit(self.nodes@[k as int], child_dir(fdir, self.nodes@[k as int].name@), deep));
            }
            k = k + 1;
        }
        proof {
            assert(self.nodes@.subrange(0, cn as int) =~= self.nodes@);
            let head = seq![(fdir, self.filesize, imports_of(*self, fdir))];
            lemma_apply_concat(m0, head, spec_emit_seq(self.nodes@, fdir, deep));
            assert(spec_emit(*self, fdir, deep) =~= head + spec_emit_seq(self.nodes@, fdir, deep));
        }
    }
}


impl Tree {
    /// Flatten the tree into the report shape: one record per emitted node,
    /// and a single named output whose size is the whole tree's size and whose
    /// contribution table mirrors the records.
    pub fn to_metafile(&self, name: &str, deep: usize) -> (r: Metafile)
        ensures
            metafile_of(r, *self, name@, deep),
    {
        let mut inputs: Vec<(String, Input)> = Vec::new();
        let cn = self.root.nodes.len();
        let mut k: usize = 0;
        while k < cn
            invariant
                cn == self.root.nodes@.len(),
                k <= cn,
                unique_keys(inputs@),
                assoc_map(inputs@) == apply_entries(
                    Map::empty(),
                    spec_emit_forest(self.root.nodes@.subrange(0, k as int), deep),
                ),
            decreases cn - k,
        {
            let child = &self.root.nodes[k];
            child.traverse(&mut inputs, None, deep);
            proof {
                let pre = self.root.nodes@.subrange(0, k as int);
                let post = self.root.nodes@.subrange(0, k + 1);
                assert(post.drop_last() =~= pre);
                assert(post.last() == self.root.nodes@[k as int]);
                lemma_apply_concat(
                    Map::empty(),
                    spec_emit_forest(pre, deep),
                    spec_emit(self.root.nodes@[k as int], self.root.nodes@[k as int].name@, deep),
                );
                assert(spec_emit_forest(post, deep) =~= spec_emit_forest(pre, deep) + spec_emit(
                    self.root.nodes@[k as int],
                    self.root.nodes@[k as int].name@,
                    deep,
                ));
            }
            k = k + 1;
        }
        proof {
            assert(self.root.nodes@.subrange(0, cn as int) =~= self.root.nodes@);
        }
        let mut out_inputs: Vec<(String, InputDetail)> = Vec::new();
        let m = inputs.len();
        let mut k: usize = 0;
        while k < m
            invariant
                m == inputs@.len(),
                k <= m,
                out_inputs@.len() == k,
                forall|j: int| 0 <= j < k ==> (#[trigger] out_inputs@[j]).0@ == inputs@[j].0@
                    && out_inputs@[j].1.bytes_in_output == inputs@[j].1.bytes,
            decreases m - k,
        {
            let key = inputs[k].0.clone();
            let b = inputs[k].1.bytes;
            out_inputs.push((key, InputDetail { bytes_in_output: b }));
            k = k + 1;
        }
        let output = Output {
            bytes: self.root.total_filesize,
            inputs: out_inputs,
            entry_point: Some(self.root.name.clone()),
        };
        let mut outputs: Vec<(String, Output)> = Vec::new();
        outputs.push((String::from_str(name), output));
        Metafile { inputs, outputs }
    }
}


/// A decimal digit.
pub open spec fn is_digit(c: char) -> bool {
    '0' <= c && c <= '9'
}

pub open spec fn all_digits(s: Seq<char>) -> bool {
    forall|i: int| 0 <= i < s.len() ==> is_digit(#[trigger] s[i])
}

/// Value of a digit string read in base ten.
pub open spec fn digits_val(s: Seq<char>) -> int
    decreases s.len(),
{
    if s.len() == 0 {
        0
    } else {
        digits_val(s.drop_last()) * 10 + (s.last() as int - '0' as int)
    }
}

/// The number a string denotes: an optional leading `+`, then at least one
/// digit, the whole value fitting 64 bits.
pub open spec fn spec_parse_u64(s: Seq<char>) -> Option<u64> {
    let d = if s.len() > 0 && s[0] == '+' {
        s.drop_first()
    } else {
        s
    };
    if d.len() > 0 && all_digits(d) && digits_val(d) <= u64::MAX {
        Some(digits_val(d) as u64)
    } else {
        None
    }
}

proof fn lemma_digits_val_nonneg(s: Seq<char>)
    requires
        all_digits(s),
    ensures
        digits_val(s) >= 0,
    decreases s.len(),
{
    if s.len() > 0 {
        assert(all_digits(s.drop_last())) by {
            assert(forall|i: int| 0 <= i < s.len() - 1 ==> s.drop_last()[i] == s[i]);
        }
        lemma_digits_val_nonneg(s.drop_last());
    }
}

proof fn lemma_digits_prefix(s: Seq<char>, k: int)
    requires
        all_digits(s),
        0 <= k <= s.len(),
    ensures
        digits_val(s.take(k)) <= digits_val(s),
    decreases s.len(),
{
    if k < s.len() {
        assert(all_digits(s.drop_last())) by {
            assert(forall|i: int| 0 <= i < s.len() - 1 ==> s.drop_last()[i] == s[i]);
        }
        assert(s.take(k) =~= s.drop_last().take(k));
        lemma_digits_prefix(s.drop_last(), k);
        lemma_digits_val_nonneg(s.drop_last());
    } else {
        assert(s.take(k) =~= s);
    }
}

/// Parse a base-ten number as the input's size columns carry it.
pub fn parse_u64_field(s: &String) -> (r: Option<u64>)
    ensures
        r == spec_parse_u64(s@),
{
    let v = str_chars(s.as_str());
    let n = v.len();
    let start: usize = if n > 0 && v[0] == '+' {
        1
    } else {
        0
    };
    let ghost d = if s@.len() > 0 && s@[0] == '+' {
        s@.drop_first()
    } else {
        s@
    };
    proof {
        assert(d =~= v@.subrange(start as int, n as int));
    }
    if n == start {
        return None;
    }
    let mut acc: u128 = 0;
    let mut i: usize = start;
    while i < n
        invariant
            start <= i <= n,
            n == v@.len(),
            v@ == s@,
            d == v@.subrange(start as int, n as int),
            d == (if s@.len() > 0 && s@[0] == '+' {
                s@.drop_first()
            } else {
                s@
            }),
            n > start,
            all_digits(v@.subrange(start as int, i as int)),
            acc == digits_val(v@.subrange(start as int, i as int)),
            acc <= u64::MAX,
        decreases n - i,
    {
        let c = v[i];
        if !(c >= '0' && c <= '9') {
            proof {
                assert(!is_digit(c));
                assert(!all_digits(d)) by {
                    assert(d[i - start] == v@[i as int]);
                    assert(!is_digit(d[i - start]));
                }
            }
            return None;
        }
        proof {
            assert(v@.subrange(start as int, i + 1).drop_last() =~= v@.subrange(
                start as int, i as int));
            assert(v@.subrange(start as int, i + 1).last() == v@[i as int]);
            assert(all_digits(v@.subrange(start as int, i + 1))) by {
                assert(forall|j: int| 0 <= j < i + 1 - start ==> #[trigger] v@.subrange(
                    start as int, i + 1)[j] == v@[start + j]);
            }
        }
        let dv: u32 = (c as u32) - ('0' as u32);
        proof {
            assert(dv as int == v@[i as int] as int - '0' as int);
            assert(digits_val(v@.subrange(start as int, i + 1)) == acc * 10 + dv);
        }
        acc = acc * 10 + (dv as u128);
        if acc > u64::MAX as u128 {
            proof {
                if all_digits(d) {
                    lemma_digits_prefix(d, i + 1 - start);
                    assert(d.take(i + 1 - start) =~= v@.subrange(start as int, i + 1));
                    assert(digits_val(d) > u64::MAX);
                }
                assert(spec_parse_u64(s@) is None);
            }
            return None;
        }
        i = i + 1;
    }
    proof {
        assert(v@.subrange(start as int, n as int) =~= d);
    }
    Some(acc as u64)
}

/// First column of `headers` named `name`, at or after `i`.
pub open spec fn col_from(headers: Seq<Seq<char>>, name: Seq<char>, i: int) -> Option<int>
    decreases headers.len() - i,
{
    if i < 0 || i >= headers.len() {
        None
    } else if headers[i] == name {
        Some(i)
    } else {
        col_from(headers, name, i + 1)
    }
}

fn find_col(headers: &Vec<String>, name: &str) -> (r: Option<usize>)
    ensures
        match r {
            Option::Some(j) => col_from(headers.deep_view(), name@, 0) == Some(j as int)
                && j < headers@.len(),
            Option::None => col_from(headers.deep_view(), name@, 0) is None,
        },
{
    let n = headers.len();
    let mut j: usize = 0;
    while j < n
        invariant
            j <= n,
            n == headers@.len(),
            col_from(headers.deep_view(), name@, 0) == col_from(headers.deep_view(), name@,
                j as int),
        decreases n - j,
    {
        if crate::packages::compare_str(headers[j].as_str(), name) {
            proof {
                assert(headers.deep_view()[j as int] == headers@[j as int]@);
            }
            return Some(j);
        }
        proof {
            assert(headers.deep_view()[j as int] == headers@[j as int]@);
        }
        j = j + 1;
    }
    None
}

/// One row of the grid turned into a record, by the four column positions.
pub open spec fn row_rec(row: Seq<Seq<char>>, si: int, yi: int, vi: int, fi: int) -> Option<
    (Seq<char>, Seq<char>, u64, u64),
> {
    if 0 <= si < row.len() && 0 <= yi < row.len() && 0 <= vi < row.len() && 0 <= fi < row.len() {
        match (spec_parse_u64(row[vi]), spec_parse_u64(row[fi])) {
            (Option::Some(v), Option::Some(f)) => Some((row[si], row[yi], v, f)),
            _ => None,
        }
    } else {
        None
    }
}

pub open spec fn rows_rec(rows: Seq<Seq<Seq<char>>>, si: int, yi: int, vi: int, fi: int) -> Option<
    Seq<(Seq<char>, Seq<char>, u64, u64)>,
>
    decreases rows.len(),
{
    if rows.len() == 0 {
        Some(Seq::empty())
    } else {
        match rows_rec(rows.drop_last(), si, yi, vi, fi) {
            Option::None => None,
            Option::Some(acc) => match row_rec(rows.last(), si, yi, vi, fi) {
                Option::None => None,
                Option::Some(r) => Some(acc.push(r)),
            },
        }
    }
}

/// The records a parsed grid denotes: the four named columns must exist, every
/// row must reach them, and the two size columns must hold numbers.
pub open spec fn grid_records(headers: Seq<Seq<char>>, rows: Seq<Seq<Seq<char>>>) -> Option<
    Seq<(Seq<char>, Seq<char>, u64, u64)>,
> {
    match (col_from(headers, "sections"@, 0), col_from(headers, "symbols"@, 0), col_from(
        headers, "vmsize"@, 0), col_from(headers, "filesize"@, 0)) {
        (Option::Some(si), Option::Some(yi), Option::Some(vi), Option::Some(fi)) => rows_rec(
            rows, si, yi, vi, fi),
        _ => None,
    }
}

/// Turn the parsed grid into records, rejecting a grid whose columns are
/// missing, short, or whose size fields are not numbers.
fn records_from_grid(headers: &Vec<String>, rows: &Vec<Vec<String>>) -> (r: Result<
    Vec<SectionRecord>,
    crate::error::BloatyError,
>)
    ensures
        match r {
            Result::Ok(v) => grid_records(headers.deep_view(), rows.deep_view()) matches Some(
                rs) && v.deep_view() == rs,
            Result::Err(e) => grid_records(headers.deep_view(), rows.deep_view()) is None
                && e is CsvParse,
        },
{
    let si = match find_col(headers, "sections") {
        Option::Some(j) => j,
        Option::None => {
            return Result::Err(crate::error::BloatyError::CsvParse(String::from_str(
                "missing column: sections")));
        },
    };
    let yi = match find_col(headers, "symbols") {
        Option::Some(j) => j,
        Option::None => {
            return Result::Err(crate::error::BloatyError::CsvParse(String::from_str(
                "missing column: symbols")));
        },
    };
    let vi = match find_col(headers, "vmsize") {
        Option::Some(j) => j,
        Option::None => {
            return Result::Err(crate::error::BloatyError::CsvParse(String::from_str(
                "missing column: vmsize")));
        },
    };
    let fi = match find_col(headers, "filesize") {
        Option::Some(j) => j,
        Option::None => {
            return Result::Err(crate::error::BloatyError::CsvParse(String::from_str(
                "missing column: filesize")));
        },
    };
    let n = rows.len();
    let mut out: Vec<SectionRecord> = Vec::new();
    let mut i: usize = 0;
    proof {
        assert(rows.deep_view().take(0) =~= Seq::<Seq<Seq<char>>>::empty());
        assert(out.deep_view() =~= Seq::<(Seq<char>, Seq<char>, u64, u64)>::empty());
    }
    while i < n
        invariant
            i <= n,
            n == rows@.len(),
            col_from(headers.deep_view(), "sections"@, 0) == Some(si as int),
            col_from(headers.deep_view(), "symbols"@, 0) == Some(yi as int),
            col_from(headers.deep_view(), "vmsize"@, 0) == Some(vi as int),
            col_from(headers.deep_view(), "filesize"@, 0) == Some(fi as int),
            rows_rec(rows.deep_view().take(i as int), si as int, yi as int, vi as int, fi as int)
                == Some(out.deep_view()),
        decreases n - i,
    {
        let row = &rows[i];
        proof {
            assert(rows.deep_view()[i as int] == rows@[i as int].deep_view());
            assert(rows.deep_view().take(i + 1).drop_last() =~= rows.deep_view().take(i as int));
            assert(rows.deep_view().take(i + 1).last() == rows.deep_view()[i as int]);
        }
        if si >= row.len() || yi >= row.len() || vi >= row.len() || fi >= row.len() {
            proof {
                assert(rows@[i as int].deep_view().len() == rows@[i as int]@.len());
                assert(row_rec(rows.deep_view()[i as int], si as int, yi as int, vi as int,
                    fi as int) is None);
                lemma_rows_rec_bad(rows.deep_view(), si as int, yi as int, vi as int, fi as int,
                    i as int);
                assert(grid_records(headers.deep_view(), rows.deep_view()) is None);
            }
            return Result::Err(crate::error::BloatyError::CsvParse(String::from_str(
                "row too short")));
        }
        let vmsize = match parse_u64_field(&row[vi]) {
            Option::Some(x) => x,
            Option::None => {
                proof {
                    assert(rows@[i as int].deep_view()[vi as int] == rows@[i as int]@[
                        vi as int]@);
                    assert(row_rec(rows.deep_view()[i as int], si as int, yi as int, vi as int,
                        fi as int) is None);
                    lemma_rows_rec_bad(rows.deep_view(), si as int, yi as int, vi as int,
                        fi as int, i as int);
                    assert(grid_records(headers.deep_view(), rows.deep_view()) is None);
                }
                return Result::Err(crate::error::BloatyError::CsvParse(String::from_str(
                    "vmsize is not a number")));
            },
        };
        let filesize = match parse_u64_field(&row[fi]) {
            Option::Some(x) => x,
            Option::None => {
                proof {
                    assert(rows@[i as int].deep_view()[fi as int] == rows@[i as int]@[
                        fi as int]@);
                    assert(row_rec(rows.deep_view()[i as int], si as int, yi as int, vi as int,
                        fi as int) is None);
                    lemma_rows_rec_bad(rows.deep_view(), si as int, yi as int, vi as int,
                        fi as int, i as int);
                    assert(grid_records(headers.deep_view(), rows.deep_view()) is None);
                }
                return Result::Err(crate::error::BloatyError::CsvParse(String::from_str(
                    "filesize is not a number")));
            },
        };
        let ghost odv = out.deep_view();
        let rec = SectionRecord {
            sections: row[si].clone(),
            symbols: row[yi].clone(),
            vmsize,
            filesize,
        };
        let ghost recv = rec.deep_view();
        proof {
            assert(rows@[i as int].deep_view()[si as int] == rows@[i as int]@[si as int]@);
            assert(rows@[i as int].deep_view()[yi as int] == rows@[i as int]@[yi as int]@);
            assert(rows@[i as int].deep_view()[vi as int] == rows@[i as int]@[vi as int]@);
            assert(rows@[i as int].deep_view()[fi as int] == rows@[i as int]@[fi as int]@);
            assert(row_rec(rows.deep_view()[i as int], si as int, yi as int, vi as int,
                fi as int) == Some(recv));
        }
        out.push(rec);
        proof {
            assert(out.deep_view() =~~= odv.push(recv));
        }
        i = i + 1;
    }
    proof {
        assert(rows.deep_view().take(n as int) =~= rows.deep_view());
    }
    Result::Ok(out)
}

/// Where some row cannot be read, the whole grid denotes no records.
proof fn lemma_rows_rec_bad(rows: Seq<Seq<Seq<char>>>, si: int, yi: int, vi: int, fi: int, i: int)
    requires
        0 <= i < rows.len(),
        row_rec(rows[i], si, yi, vi, fi) is None,
    ensures
        rows_rec(rows, si, yi, vi, fi) is None,
    decreases rows.len(),
{
    if i < rows.len() - 1 {
        assert(rows.drop_last()[i] == rows[i]);
        lemma_rows_rec_bad(rows.drop_last(), si, yi, vi, fi, i);
    }
}


/// The symbol text a record is classified by: empty text becomes the
/// placeholder owner name.
pub open spec fn row_sym(row: (Seq<char>, Seq<char>, u64, u64)) -> Seq<char> {
    if row.1.len() == 0 {
        UNKNOWN_NAME@
    } else {
        row.1
    }
}

/// The attribution path of one record under a resolver map.
pub open spec fn row_path(
    row: (Seq<char>, Seq<char>, u64, u64),
    pm: Map<Seq<char>, Seq<Seq<char>>>,
) -> Seq<Seq<char>> {
    spec_path_from_record(row_sym(row), row.0, pm)
}

/// A record is kept unless the sections-only branch is excluded and the
/// record's path belongs to it.
pub open spec fn row_included(
    row: (Seq<char>, Seq<char>, u64, u64),
    pm: Map<Seq<char>, Seq<Seq<char>>>,
    ns: bool,
) -> bool {
    !(ns && row_path(row, pm)[0] == SECTIONS_NAME@)
}

/// Virtual-memory size attributed exactly at `p` by the kept records.
pub open spec fn own_sum_vm(
    rows: Seq<(Seq<char>, Seq<char>, u64, u64)>,
    pm: Map<Seq<char>, Seq<Seq<char>>>,
    ns: bool,
    p: Seq<Seq<char>>,
) -> int
    decreases rows.len(),
{
    if rows.len() == 0 {
        0
    } else {
        own_sum_vm(rows.drop_last(), pm, ns, p) + if row_included(rows.last(), pm, ns)
            && row_path(rows.last(), pm) == p {
            rows.last().2 as int
        } else {
            0int
        }
    }
}

pub open spec fn own_sum_fs(
    rows: Seq<(Seq<char>, Seq<char>, u64, u64)>,
    pm: Map<Seq<char>, Seq<Seq<char>>>,
    ns: bool,
    p: Seq<Seq<char>>,
) -> int
    decreases rows.len(),
{
    if rows.len() == 0 {
        0
    } else {
        own_sum_fs(rows.drop_last(), pm, ns, p) + if row_included(rows.last(), pm, ns)
            && row_path(rows.last(), pm) == p {
            rows.last().3 as int
        } else {
            0int
        }
    }
}

/// Cumulative virtual-memory size of the subtree at `p`: every kept record
/// whose path passes through `p` contributes.
pub open spec fn total_sum_vm(
    rows: Seq<(Seq<char>, Seq<char>, u64, u64)>,
    pm: Map<Seq<char>, Seq<Seq<char>>>,
    ns: bool,
    p: Seq<Seq<char>>,
) -> int
    decreases rows.len(),
{
    if rows.len() == 0 {
        0
    } else {
        total_sum_vm(rows.drop_last(), pm, ns, p) + if row_included(rows.last(), pm, ns)
            && is_prefix_of(p, row_path(rows.last(), pm)) {
            rows.last().2 as int
        } else {
            0int
        }
    }
}

pub open spec fn total_sum_fs(
    rows: Seq<(Seq<char>, Seq<char>, u64, u64)>,
    pm: Map<Seq<char>, Seq<Seq<char>>>,
    ns: bool,
    p: Seq<Seq<char>>,
) -> int
    decreases rows.len(),
{
    if rows.len() == 0 {
        0
    } else {
        total_sum_fs(rows.drop_last(), pm, ns, p) + if row_included(rows.last(), pm, ns)
            && is_prefix_of(p, row_path(rows.last(), pm)) {
            rows.last().3 as int
        } else {
            0int
        }
    }
}

/// Some kept record's path passes through `p` (the empty path is the root).
pub open spec fn path_exists_in(
    rows: Seq<(Seq<char>, Seq<char>, u64, u64)>,
    pm: Map<Seq<char>, Seq<Seq<char>>>,
    ns: bool,
    p: Seq<Seq<char>>,
) -> bool {
    p.len() == 0 || exists|i: int|
        0 <= i < rows.len() && row_included(#[trigger] rows[i], pm, ns) && is_prefix_of(
            p,
            row_path(rows[i], pm),
        )
}

/// The tree is exactly the accumulation of the kept records' paths: at every
/// path, the size attributed there and the cumulative subtree size equal the
/// sums over the records, and a node stands at a path exactly where some kept
/// record's path passes through it.
pub open spec fn tree_models(
    t: Tree,
    rows: Seq<(Seq<char>, Seq<char>, u64, u64)>,
    pm: Map<Seq<char>, Seq<Seq<char>>>,
    ns: bool,
) -> bool {
    &&& forall|p: Seq<Seq<char>>| #[trigger] own_vm_at(t.root, p) == own_sum_vm(rows, pm, ns, p)
    &&& forall|p: Seq<Seq<char>>| #[trigger] own_fs_at(t.root, p) == own_sum_fs(rows, pm, ns, p)
    &&& forall|p: Seq<Seq<char>>| #[trigger] total_vm_at(t.root, p) == total_sum_vm(
        rows, pm, ns, p)
    &&& forall|p: Seq<Seq<char>>| #[trigger] total_fs_at(t.root, p) == total_sum_fs(
        rows, pm, ns, p)
    &&& forall|p: Seq<Seq<char>>| (#[trigger] node_at(t.root, p)) is Some <==> path_exists_in(
        rows, pm, ns, p)
}

proof fn lemma_row_path_nonempty(
    sym: Seq<char>,
    sec: Seq<char>,
    pm: Map<Seq<char>, Seq<Seq<char>>>,
)
    ensures
        spec_path_from_record(sym, sec, pm).len() >= 1,
{
    if crate::tool::spec_get_crate_name(sym) is None {
    }
}

/// One more record changes which paths exist only by the record's own path
/// (where the record is kept).
proof fn lemma_path_exists_step(
    rows: Seq<(Seq<char>, Seq<char>, u64, u64)>,
    pm: Map<Seq<char>, Seq<Seq<char>>>,
    ns: bool,
    p: Seq<Seq<char>>,
    i: int,
)
    requires
        0 <= i < rows.len(),
    ensures
        path_exists_in(rows.take(i + 1), pm, ns, p) <==> path_exists_in(rows.take(i), pm, ns, p)
            || (row_included(rows[i], pm, ns) && is_prefix_of(p, row_path(rows[i], pm))),
{
    let pre = rows.take(i);
    let post = rows.take(i + 1);
    if p.len() > 0 {
        if path_exists_in(post, pm, ns, p) {
            let w = choose|w: int|
                0 <= w < post.len() && row_included(#[trigger] post[w], pm, ns) && is_prefix_of(
                    p,
                    row_path(post[w], pm),
                );
            if w < i {
                assert(pre[w] == post[w]);
                assert(path_exists_in(pre, pm, ns, p));
            } else {
                assert(post[w] == rows[i]);
            }
        }
        if path_exists_in(pre, pm, ns, p) {
            let w = choose|w: int|
                0 <= w < pre.len() && row_included(#[trigger] pre[w], pm, ns) && is_prefix_of(
                    p,
                    row_path(pre[w], pm),
                );
            assert(post[w] == pre[w]);
            assert(path_exists_in(post, pm, ns, p));
        }
        if row_included(rows[i], pm, ns) && is_prefix_of(p, row_path(rows[i], pm)) {
            assert(post[i] == rows[i]);
            assert(path_exists_in(post, pm, ns, p));
        }
    }
}

proof fn lemma_total_mono(
    rows: Seq<(Seq<char>, Seq<char>, u64, u64)>,
    pm: Map<Seq<char>, Seq<Seq<char>>>,
    ns: bool,
    p: Seq<Seq<char>>,
    k: int,
)
    requires
        0 <= k <= rows.len(),
    ensures
        total_sum_vm(rows.take(k), pm, ns, p) <= total_sum_vm(rows, pm, ns, p),
        total_sum_fs(rows.take(k), pm, ns, p) <= total_sum_fs(rows, pm, ns, p),
    decreases rows.len(),
{
    if k < rows.len() {
        assert(rows.take(k) =~= rows.drop_last().take(k));
        lemma_total_mono(rows.drop_last(), pm, ns, p, k);
    } else {
        assert(rows.take(k) =~= rows);
    }
}

impl Tree {
    /// Accumulate the records into a fresh tree under the given resolver,
    /// skipping the sections-only branch where asked; fails only where the
    /// accumulated sizes would overflow a 64-bit counter.
    pub fn build_tree(records: &Vec<SectionRecord>, packages: &Packages, no_sections: bool) -> (r:
        Result<Tree, BloatyError>)
        requires
            pkg_unique_keys(packages.parent@),
        ensures
            match r {
                Result::Ok(t) => wf_node(t.root) && t.root.name@ == ROOT_NAME@ && tree_models(
                    t, records.deep_view(), packages.map_view(), no_sections),
                Result::Err(e) => e is SizeOverflow && (total_sum_vm(records.deep_view(),
                    packages.map_view(), no_sections, Seq::empty()) > u64::MAX || total_sum_fs(
                    records.deep_view(), packages.map_view(), no_sections, Seq::empty())
                    > u64::MAX),
            },
    {
        let ghost pm = packages.map_view();
        let ghost rowsv = records.deep_view();
        let mut t = Tree {
            root: Node {
                name: String::from_str(ROOT_NAME),
                vmsize: 0,
                filesize: 0,
                total_vmsize: 0,
                total_filesize: 0,
                nodes: Vec::new(),
            },
        };
        proof {
            assert(rowsv.take(0) =~= Seq::<(Seq<char>, Seq<char>, u64, u64)>::empty());
            assert forall|p: Seq<Seq<char>>| (#[trigger] own_vm_at(t.root, p)) == 0
                && own_fs_at(t.root, p) == 0 && total_vm_at(t.root, p) == 0 && total_fs_at(
                t.root, p) == 0 by {
                lemma_fresh_zero(t.root, ROOT_NAME@, p);
            }
            assert forall|p: Seq<Seq<char>>| (#[trigger] node_at(t.root, p)) is Some <==> (
            p.len() == 0) by {
                lemma_fresh_zero(t.root, ROOT_NAME@, p);
            }
        }
        let n = records.len();
        let mut i: usize = 0;
        while i < n
            invariant
                i <= n,
                n == records@.len(),
                rowsv == records.deep_view(),
                pm == packages.map_view(),
                pkg_unique_keys(packages.parent@),
                wf_node(t.root),
                t.root.name@ == ROOT_NAME@,
                forall|p: Seq<Seq<char>>| #[trigger] own_vm_at(t.root, p) == own_sum_vm(
                    rowsv.take(i as int), pm, no_sections, p),
                forall|p: Seq<Seq<char>>| #[trigger] own_fs_at(t.root, p) == own_sum_fs(
                    rowsv.take(i as int), pm, no_sections, p),
                forall|p: Seq<Seq<char>>| #[trigger] total_vm_at(t.root, p) == total_sum_vm(
                    rowsv.take(i as int), pm, no_sections, p),
                forall|p: Seq<Seq<char>>| #[trigger] total_fs_at(t.root, p) == total_sum_fs(
                    rowsv.take(i as int), pm, no_sections, p),
                forall|p: Seq<Seq<char>>| (#[trigger] node_at(t.root, p)) is Some
                    <==> path_exists_in(rowsv.take(i as int), pm, no_sections, p),
            decreases n - i,
        {
            let ghost row = rowsv[i as int];
            proof {
                assert(rowsv[i as int] == records@[i as int].deep_view());
                assert(rowsv.take(i + 1).drop_last() =~= rowsv.take(i as int));
                assert(rowsv.take(i + 1).last() == row);
            }
            let sym: String = if records[i].symbols.as_str().is_empty() {
                String::from_str(UNKNOWN_NAME)
            } else {
                records[i].symbols.clone()
            };
            proof {
                assert(sym@ == row_sym(row));
            }
            let sections = records[i].sections.clone();
            let vm = records[i].vmsize;
            let fs = records[i].filesize;
            let path = get_path_from_record(sym, sections, packages);
            proof {
                assert(path.deep_view() == row_path(row, pm));
                lemma_row_path_nonempty(row_sym(row), row.0, pm);
                assert(path@.len() >= 1);
                assert(path.deep_view()[0] == path@[0]@);
            }
            let skip = no_sections && compare_str(path[0].as_str(), SECTIONS_NAME);
            if skip {
                proof {
                    assert(!row_included(row, pm, no_sections));
                    assert forall|p: Seq<Seq<char>>| (#[trigger] node_at(t.root, p)) is Some
                        <==> path_exists_in(rowsv.take(i + 1), pm, no_sections, p) by {
                        lemma_path_exists_step(rowsv, pm, no_sections, p, i as int);
                    }
                }
            } else {
                proof {
                    assert(row_included(row, pm, no_sections));
                }
                if vm > u64::MAX - t.root.total_vmsize || fs > u64::MAX - t.root.total_filesize {
                    proof {
                        let e = Seq::<Seq<char>>::empty();
                        assert(e =~= row_path(row, pm).subrange(0, 0));
                        assert(is_prefix_of(e, row_path(row, pm)));
                        assert(total_vm_at(t.root, e) == t.root.total_vmsize);
                        assert(total_fs_at(t.root, e) == t.root.total_filesize);
                        assert(total_sum_vm(rowsv.take(i + 1), pm, no_sections, e)
                            > u64::MAX || total_sum_fs(rowsv.take(i + 1), pm, no_sections, e)
                            > u64::MAX);
                        lemma_total_mono(rowsv, pm, no_sections, e, i + 1);
                    }
                    return Result::Err(BloatyError::SizeOverflow);
                }
                let ghost oldroot = t.root;
                proof {
                    assert(total_vm_at(t.root, Seq::<Seq<char>>::empty())
                        == t.root.total_vmsize);
                    assert(total_fs_at(t.root, Seq::<Seq<char>>::empty())
                        == t.root.total_filesize);
                }
                t.add_path(&path, vm, fs);
                proof {
                    assert forall|p: Seq<Seq<char>>| #[trigger] own_vm_at(t.root, p)
                        == own_sum_vm(rowsv.take(i + 1), pm, no_sections, p) by {
                        assert(own_vm_at(t.root, p) == own_vm_at(oldroot, p) + (if p
                            == path.deep_view() { vm as int } else { 0int }));
                    }
                    assert forall|p: Seq<Seq<char>>| #[trigger] own_fs_at(t.root, p)
                        == own_sum_fs(rowsv.take(i + 1), pm, no_sections, p) by {
                        assert(own_fs_at(t.root, p) == own_fs_at(oldroot, p) + (if p
                            == path.deep_view() { fs as int } else { 0int }));
                    }
                    assert forall|p: Seq<Seq<char>>| #[trigger] total_vm_at(t.root, p)
                        == total_sum_vm(rowsv.take(i + 1), pm, no_sections, p) by {
                        assert(total_vm_at(t.root, p) == total_vm_at(oldroot, p) + (
                        if is_prefix_of(p, path.deep_view()) { vm as int } else { 0int }));
                    }
                    assert forall|p: Seq<Seq<char>>| #[trigger] total_fs_at(t.root, p)
                        == total_sum_fs(rowsv.take(i + 1), pm, no_sections, p) by {
                        assert(total_fs_at(t.root, p) == total_fs_at(oldroot, p) + (
                        if is_prefix_of(p, path.deep_view()) { fs as int } else { 0int }));
                    }
                    assert forall|p: Seq<Seq<char>>| (#[trigger] node_at(t.root, p)) is Some
                        <==> path_exists_in(rowsv.take(i + 1), pm, no_sections, p) by {
                        assert(node_at(t.root, p) is Some <==> node_at(oldroot, p) is Some
                            || is_prefix_of(p, path.deep_view()));
                        lemma_path_exists_step(rowsv, pm, no_sections, p, i as int);
                    }
                }
            }
            i = i + 1;
        }
        proof {
            assert(rowsv.take(n as int) =~= rowsv);
        }
        Result::Ok(t)
    }

    /// Parse the input text, resolve the dependency graph (no graph means no
    /// dependency information), and accumulate every record into the tree.
    pub fn new(csv: &str, graph: Option<&DepGraph>, no_sections: bool) -> (r: Result<
        Tree,
        BloatyError,
    >)
        requires
            graph matches Some(g) ==> wf_graph(*g),
        ensures
            match r {
                Result::Ok(t) => tree_of_csv(t, csv@, no_sections),
                Result::Err(e) => match e {
                    BloatyError::CsvParse(_) => csv_cells(csv@) is None || (csv_cells(csv@)
                        matches Some(grid) && grid_records(grid.0, grid.1) is None),
                    BloatyError::SizeOverflow => csv_cells(csv@) matches Some(grid)
                        && grid_records(grid.0, grid.1) matches Some(rows) && exists|
                        pm: Map<Seq<char>, Seq<Seq<char>>>,
                    |
                        #[trigger] resolver_ok(pm, rows) && (total_sum_vm(rows, pm,
                        no_sections, Seq::empty()) > u64::MAX || total_sum_fs(rows, pm,
                        no_sections, Seq::empty()) > u64::MAX),
                },
            },
    {
        let grid = match parse_csv_grid(csv) {
            Result::Ok(g) => g,
            Result::Err(m) => {
                return Result::Err(BloatyError::CsvParse(m));
            },
        };
        let records = match records_from_grid(&grid.0, &grid.1) {
            Result::Ok(v) => v,
            Result::Err(e) => {
                return Result::Err(e);
            },
        };
        let empty_graph: DepGraph;
        let packages = match graph {
            Option::Some(g) => Packages::new(g, &records),
            Option::None => {
                empty_graph = DepGraph { nodes: Vec::new() };
                Packages::new(&empty_graph, &records)
            },
        };
        let ghost pm = packages.map_view();
        let ghost rowsv = records.deep_view();
        proof {
            assert(chains_ok(pm, packages.canon@));
            assert(resolver_ok(pm, rowsv));
        }
        match Tree::build_tree(&records, &packages, no_sections) {
            Result::Ok(t) => {
                proof {
                    assert(resolver_ok(pm, rowsv) && tree_models(t, rowsv, pm, no_sections));
                }
                Result::Ok(t)
            },
            Result::Err(e) => {
                proof {
                    assert(resolver_ok(pm, rowsv) && (total_sum_vm(rowsv, pm, no_sections,
                        Seq::empty()) > u64::MAX || total_sum_fs(rowsv, pm, no_sections,
                        Seq::empty()) > u64::MAX));
                }
                Result::Err(e)
            },
        }
    }
}

/// The tree a given input text denotes: the text parses, its records are
/// well-formed, and the tree accumulates them under a sound resolver map.
pub open spec fn tree_of_csv(t: Tree, csv: Seq<char>, ns: bool) -> bool {
    &&& wf_node(t.root)
    &&& t.root.name@ == ROOT_NAME@
    &&& csv_cells(csv) matches Some(grid) && grid_records(grid.0, grid.1) matches Some(rows) && (
    exists|pm: Map<Seq<char>, Seq<Seq<char>>>|
        #[trigger] resolver_ok(pm, rows) && tree_models(t, rows, pm, ns))
}

/// The report a tree flattens to, under a name and a depth bound.
pub open spec fn metafile_of(m: Metafile, t: Tree, name: Seq<char>, deep: usize) -> bool {
    &&& unique_keys(m.inputs@)
    &&& assoc_map(m.inputs@) == apply_entries(Map::empty(), spec_emit_forest(t.root.nodes@, deep))
    &&& m.outputs@.len() == 1
    &&& m.outputs@[0].0@ == name
    &&& m.outputs@[0].1.bytes == t.root.total_filesize
    &&& m.outputs@[0].1.entry_point is Some
    &&& m.outputs@[0].1.entry_point->0@ == t.root.name@
    &&& m.outputs@[0].1.inputs@.len() == m.inputs@.len()
    &&& forall|j: int| 0 <= j < m.inputs@.len() ==> (#[trigger] m.outputs@[0].1.inputs@[j]).0@
        == m.inputs@[j].0@ && m.outputs@[0].1.inputs@[j].1.bytes_in_output == m.inputs@[j].1.bytes
}

/// Relies on csv::Reader of the csv crate (its `headers` and `deserialize`
/// methods): the text is read as comma-separated records with one header row,
/// and the resulting grid of cells depends on the text alone.
pub uninterp spec fn csv_cells(s: Seq<char>) -> Option<(Seq<Seq<char>>, Seq<Seq<Seq<char>>>)>;

/// Parse comma-separated text into its header row and its rows of cells.
#[verifier::external_body]
fn parse_csv_grid(data: &str) -> (r: Result<(Vec<String>, Vec<Vec<String>>), String>)
    ensures
        match r {
            Result::Ok(g) => csv_cells(data@) matches Some(c) && g.0.deep_view() == c.0
                && g.1.deep_view() == c.1,
            Result::Err(_) => csv_cells(data@) is None,
        },
{
    let mut rdr = csv::Reader::from_reader(data.as_bytes());
    let headers: Vec<String> = match rdr.headers() {
        Ok(h) => h.iter().map(String::from).collect(),
        Err(e) => return Err(format!("{}", e)),
    };
    let rows: Result<Vec<Vec<String>>, csv::Error> = rdr.deserialize().collect();
    match rows {
        Ok(rows) => Ok((headers, rows)),
        Err(e) => Err(format!("{}", e)),
    }
}

} // verus!
