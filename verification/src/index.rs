//! The archive index: a one-shot builder that turns the flat record stream
//! into an inode-addressed tree.
//!
//! Inode numbers are dense and monotonic: the node with inode `i` sits at
//! arena position `i - 1`, the root is inode 1 with parent 0, and every other
//! node's parent resolves to an existing directory node that lists it among
//! its children. Directories missing from the stream are synthesized on
//! demand while their descendants are linked, so record order does not
//! matter. Once built, an index is never mutated.

use vstd::prelude::*;

use crate::arena::ArenaTree;
use crate::decode::ArchiveError;
use crate::decode::FileKind;
use crate::decode::TarEntry;
use crate::decode::TarEntryV;
use crate::decode::copy_range;
use crate::decode::bytes_eq;

verus! {

/// One node of the tree: its stable inode, its parent's inode (0 only for
/// the root), its children in discovery order, its base name, and the
/// archive record it wraps (a synthetic one for the root and for
/// synthesized directories).
pub struct IndexEntry {
    pub inode: u64,
    pub parent: u64,
    pub children: Vec<u64>,
    pub name: Vec<u8>,
    pub entry: TarEntry,
}

/// The arena of nodes; position = inode - 1.
pub struct Index {
    pub arena: ArenaTree<IndexEntry>,
}

/// A usable base name: nonempty and not one of the two pseudo-entries.
pub open spec fn valid_name(n: Seq<u8>) -> bool {
    n.len() > 0 && n != seq![46u8] && n != seq![46u8, 46u8]
}

impl Index {
    pub open spec fn nodes(self) -> Seq<IndexEntry> {
        self.arena@
    }

    pub open spec fn valid_ino(self, ino: u64) -> bool {
        1 <= ino <= self.nodes().len()
    }

    pub open spec fn node(self, ino: u64) -> IndexEntry {
        self.nodes()[ino - 1]
    }

    /// Per-node shape at position `i` of this index.
    pub open spec fn wf_node(self, i: int) -> bool {
        wf_node_at(self.nodes(), i)
    }

    /// Per-node children at position `i` of this index.
    pub open spec fn wf_children(self, i: int) -> bool {
        wf_children_at(self.nodes(), i)
    }

    /// Well-formedness of the whole tree.
    pub open spec fn wf(self) -> bool {
        wf_nodes(self.nodes())
    }

    /// Some child of `p` bears the name.
    pub open spec fn has_child(self, p: u64, name: Seq<u8>) -> bool {
        exists|j: int|
            0 <= j < self.node(p).children@.len() && self.nodes()[#[trigger] self.node(
                p,
            ).children@[j] - 1].name@ == name
    }
}

/// Per-node shape: dense monotone inodes; the root is inode 1, parent 0, a
/// directory; every other node's parent was allocated earlier, is a
/// directory, and lists the node among its children.
pub open spec fn wf_node_at(ns: Seq<IndexEntry>, i: int) -> bool {
    let n = ns[i];
    &&& n.inode == i + 1
    &&& if i == 0 {
        &&& n.parent == 0
        &&& n.entry.kind == FileKind::Directory
        &&& n.name@.len() == 0
    } else {
        &&& 1 <= n.parent <= i
        &&& ns[n.parent - 1].entry.kind == FileKind::Directory
        &&& ns[n.parent - 1].children@.contains(n.inode)
        &&& valid_name(n.name@)
    }
}

/// Per-node children: each child points back to this node, children are
/// listed once, sibling names are distinct, and only directories have
/// children.
pub open spec fn wf_children_at(ns: Seq<IndexEntry>, i: int) -> bool {
    let c = ns[i].children@;
    &&& (forall|j: int|
        0 <= j < c.len() ==> 2 <= #[trigger] c[j] <= ns.len() && ns[c[j] - 1].parent == i + 1)
    &&& (forall|j1: int, j2: int| 0 <= j1 < j2 < c.len() ==> c[j1] != c[j2])
    &&& (forall|j1: int, j2: int|
        0 <= j1 < j2 < c.len() ==> ns[c[j1] - 1].name@ != ns[c[j2] - 1].name@)
    &&& (ns[i].entry.kind != FileKind::Directory ==> c.len() == 0)
}

/// Well-formedness of a node sequence as a tree.
pub open spec fn wf_nodes(ns: Seq<IndexEntry>) -> bool {
    &&& ns.len() >= 1
    &&& ns.len() <= 0xFFFF_FFFF_FFFF_FFFF
    &&& (forall|i: int| 0 <= i < ns.len() ==> wf_node_at(ns, i))
    &&& (forall|i: int| 0 <= i < ns.len() ==> wf_children_at(ns, i))
}

/// Every node's record either has no payload extent of its own (the root and
/// synthesized directories) or is one of the given records.
pub open spec fn entries_cover(ix: Index, es: Seq<TarEntry>) -> bool {
    forall|i: int|
        0 <= i < ix.nodes().len() ==> {
            let t = (#[trigger] ix.nodes()[i]).entry@;
            (t.size == 0 && t.offset == 0) || (exists|k: int| 0 <= k < es.len() && t == es[k]@)
        }
}

/// The synthetic directory record used for the root and for directories the
/// archive never recorded.
pub fn synthetic_dir_entry() -> (r: TarEntry)
    ensures
        r.path@.len() == 0,
        r.size == 0,
        r.offset == 0,
        r.kind == FileKind::Directory,
        r.mode == 493,
        r@.size == 0 && r@.offset == 0,
{
    TarEntry {
        path: Vec::new(),
        size: 0,
        kind: FileKind::Directory,
        mode: 493,
        uid: 0,
        gid: 0,
        mtime: 0,
        offset: 0,
    }
}

/// The root node: inode 1, parent 0, no children yet.
pub fn root_index_entry() -> (r: IndexEntry)
    ensures
        r.inode == 1,
        r.parent == 0,
        r.children@.len() == 0,
        r.name@.len() == 0,
        r.entry.kind == FileKind::Directory,
        r.entry@.size == 0 && r.entry@.offset == 0,
{
    IndexEntry {
        inode: 1,
        parent: 0,
        children: Vec::new(),
        name: Vec::new(),
        entry: synthetic_dir_entry(),
    }
}

/// A faithful copy of a record.
pub fn clone_entry(e: &TarEntry) -> (r: TarEntry)
    ensures
        r@ == e@,
        r.kind == e.kind,
{
    let path = copy_range(&e.path, 0, e.path.len());
    proof {
        assert(e.path@.subrange(0, e.path@.len() as int) =~= e.path@);
    }
    let r = TarEntry {
        path,
        size: e.size,
        kind: e.kind,
        mode: e.mode,
        uid: e.uid,
        gid: e.gid,
        mtime: e.mtime,
        offset: e.offset,
    };
    proof {
        assert(r@ =~= e@);
    }
    r
}

/// End of the path component starting at `i`: the next slash, or the end.
pub open spec fn tok_end(s: Seq<u8>, i: int) -> int
    decreases s.len() - i,
    when 0 <= i <= s.len()
{
    if i >= s.len() {
        i
    } else if s[i] == 47 {
        i
    } else {
        tok_end(s, i + 1)
    }
}

pub proof fn lemma_tok_end_bounds(s: Seq<u8>, i: int)
    requires
        0 <= i <= s.len(),
    ensures
        i <= tok_end(s, i) <= s.len(),
        i < s.len() && s[i] != 47 ==> tok_end(s, i) >= i + 1,
    decreases s.len() - i,
{
    if i < s.len() && s[i] != 47 {
        lemma_tok_end_bounds(s, i + 1);
    }
}

/// The path's components from byte `i` on: maximal slash-free runs, with
/// empty runs and `.` dropped.
pub open spec fn spec_components_from(s: Seq<u8>, i: int) -> Seq<Seq<u8>>
    decreases s.len() - i,
    when 0 <= i <= s.len()
    via lemma_components_from_decreases
{
    if i >= s.len() {
        Seq::empty()
    } else if s[i] == 47 {
        spec_components_from(s, i + 1)
    } else {
        let e = tok_end(s, i);
        let t = s.subrange(i, e);
        if t == seq![46u8] {
            spec_components_from(s, e)
        } else {
            seq![t] + spec_components_from(s, e)
        }
    }
}

#[via_fn]
proof fn lemma_components_from_decreases(s: Seq<u8>, i: int) {
    if 0 <= i < s.len() && s[i] != 47 {
        lemma_tok_end_bounds(s, i);
    }
}

pub open spec fn spec_components(s: Seq<u8>) -> Seq<Seq<u8>> {
    spec_components_from(s, 0)
}

/// Every component is nonempty and is not `.`.
pub proof fn lemma_components_valid(s: Seq<u8>, i: int)
    requires
        0 <= i <= s.len(),
    ensures
        forall|k: int|
            0 <= k < spec_components_from(s, i).len() ==> (#[trigger] spec_components_from(
                s,
                i,
            )[k]).len() > 0 && spec_components_from(s, i)[k] != seq![46u8],
    decreases s.len() - i,
{
    if i >= s.len() {
    } else if s[i] == 47 {
        lemma_components_valid(s, i + 1);
        assert(spec_components_from(s, i) == spec_components_from(s, i + 1));
    } else {
        let e = tok_end(s, i);
        lemma_tok_end_bounds(s, i);
        let t = s.subrange(i, e);
        lemma_components_valid(s, e);
        if t == seq![46u8] {
            assert(spec_components_from(s, i) == spec_components_from(s, e));
        }
        if t != seq![46u8] {
            let cs = spec_components_from(s, i);
            let rest = spec_components_from(s, e);
            assert(cs =~= seq![t] + rest);
            assert forall|k: int| 0 <= k < cs.len() implies (#[trigger] cs[k]).len() > 0 && cs[k]
                != seq![46u8] by {
                if k == 0 {
                    assert(cs[0] == t);
                } else {
                    assert(cs[k] == rest[k - 1]);
                }
            }
        }
    }
}

pub open spec fn comps_match(v: Seq<Vec<u8>>, s: Seq<Seq<u8>>) -> bool {
    v.len() == s.len() && (forall|i: int| 0 <= i < v.len() ==> #[trigger] v[i]@ == s[i])
}

/// Splits a stored path into its components.
pub fn components(path: &Vec<u8>) -> (r: Vec<Vec<u8>>)
    ensures
        comps_match(r@, spec_components(path@)),
{
    components_from(path, 0)
}

fn components_from(path: &Vec<u8>, i: usize) -> (r: Vec<Vec<u8>>)
    requires
        i <= path@.len(),
    ensures
        comps_match(r@, spec_components_from(path@, i as int)),
    decreases path@.len() - i,
{
    let ghost s = path@;
    if i == path.len() {
        return Vec::new();
    }
    if path[i] == 47 {
        return components_from(path, i + 1);
    }
    let mut e: usize = i;
    while e < path.len() && path[e] != 47
        invariant
            i <= e <= s.len(),
            s == path@,
            tok_end(s, i as int) == tok_end(s, e as int),
        decreases s.len() - e,
    {
        e = e + 1;
    }
    proof {
        assert(tok_end(s, e as int) == e as int);
    }
    let t = copy_range(path, i, e);
    let ghost ts = s.subrange(i as int, e as int);
    let rest = components_from(path, e);
    if t.len() == 1 && t[0] == 46 {
        proof {
            assert(ts =~= seq![46u8]);
        }
        return rest;
    }
    proof {
        assert(ts != seq![46u8]) by {
            if ts == seq![46u8] {
                assert(ts.len() == 1);
                assert(ts[0] == 46);
            }
        }
    }
    let mut r = rest;
    r.insert(0, t);
    proof {
        let cs = spec_components_from(s, i as int);
        assert(cs =~= seq![ts] + spec_components_from(s, e as int));
        assert forall|k: int| 0 <= k < r@.len() implies #[trigger] r@[k]@ == cs[k] by {
            if k > 0 {
                assert(r@[k] == rest@[k - 1]);
            }
        }
    }
    r
}

/// Finds the child of `p` named `name`, returning its inode.
fn find_child(ix: &Index, p: u64, name: &Vec<u8>) -> (r: Option<u64>)
    requires
        ix.wf(),
    ensures
        match r {
            Some(c) => {
                &&& ix.valid_ino(p)
                &&& ix.valid_ino(c)
                &&& c >= 2
                &&& ix.node(p).children@.contains(c)
                &&& ix.node(c).name@ == name@
                &&& ix.node(c).parent == p
            },
            None => !ix.valid_ino(p) || !ix.has_child(p, name@),
        },
{
    let pl: usize = ix.arena.len();
    if p < 1 || p > pl as u64 {
        return None;
    }
    let node = match ix.arena.get((p - 1) as usize) {
        Some(n) => n,
        None => {
            proof {
                assert(false);
            }
            return None;
        },
    };
    let mut j: usize = 0;
    while j < node.children.len()
        invariant
            ix.wf(),
            ix.nodes().len() <= usize::MAX,
            1 <= p <= ix.nodes().len(),
            *node == ix.nodes()[p - 1],
            0 <= j <= node.children@.len(),
            forall|t: int|
                0 <= t < j ==> ix.nodes()[#[trigger] node.children@[t] - 1].name@ != name@,
        decreases node.children@.len() - j,
    {
        proof {
            assert(ix.wf_children(p - 1));
        }
        let c: u64 = node.children[j];
        proof {
            assert(2 <= c <= ix.nodes().len());
            assert((c - 1) as usize as int == c - 1);
        }
        let child = match ix.arena.get((c - 1) as usize) {
            Some(n) => n,
            None => {
                proof {
                    assert(false);
                }
                return None;
            },
        };
        if bytes_eq(&child.name, name) {
            return Some(c);
        }
        j = j + 1;
    }
    None
}

/// Appends a fresh node named `name` under directory `p`.
fn add_child(ix: &mut Index, p: u64, name: Vec<u8>, entry: TarEntry) -> (r: Result<
    u64,
    ArchiveError,
>)
    requires
        old(ix).wf(),
        old(ix).valid_ino(p),
        old(ix).node(p).entry.kind == FileKind::Directory,
        !old(ix).has_child(p, name@),
        valid_name(name@),
    ensures
        match r {
            Ok(c) => {
                &&& final(ix).wf()
                &&& final(ix).nodes().len() == old(ix).nodes().len() + 1
                &&& c == old(ix).nodes().len() + 1
                &&& 2 <= c <= final(ix).nodes().len()
                &&& final(ix).node(c).inode == c
                &&& final(ix).node(c).parent == p
                &&& final(ix).node(c).entry == entry
                &&& final(ix).node(c).name == name
                &&& final(ix).node(c).children@.len() == 0
                &&& (forall|i: int|
                    0 <= i < old(ix).nodes().len() ==> (#[trigger] final(ix).nodes()[i]).entry
                        == old(ix).nodes()[i].entry)
                &&& (forall|i: int|
                    0 <= i < old(ix).nodes().len() ==> (#[trigger] final(ix).nodes()[i]).parent
                        == old(ix).nodes()[i].parent && final(ix).nodes()[i].name
                        == old(ix).nodes()[i].name && final(ix).nodes()[i].inode
                        == old(ix).nodes()[i].inode)
            },
            Err(e) => e == ArchiveError::TooLarge && *final(ix) == *old(ix) && old(
                ix,
            ).nodes().len() >= 0xFFFF_FFFF_FFFF_FFFF,
        },
{
    let ghost o = ix.nodes();
    let n: usize = ix.arena.len();
    if n as u64 >= 0xFFFF_FFFF_FFFF_FFFF {
        return Err(ArchiveError::TooLarge);
    }
    let c: u64 = (n as u64) + 1;
    let node = IndexEntry { inode: c, parent: p, children: Vec::new(), name, entry };
    ix.arena.push(node);
    match ix.arena.get_mut((p - 1) as usize) {
        Some(m) => {
            m.children.push(c);
        },
        None => {
            proof {
                assert(false);
            }
        },
    }
    proof {
        let f = ix.nodes();
        let pi = p - 1;
        assert(f.len() == o.len() + 1);
        assert(f[c - 1].inode == c);
        // every old position other than the parent is untouched; the parent
        // only gained a child
        assert(forall|i: int| 0 <= i < o.len() && i != pi ==> f[i] == o[i]);
        assert(f[pi].inode == o[pi].inode && f[pi].parent == o[pi].parent && f[pi].name == o[pi].name
            && f[pi].entry == o[pi].entry);
        assert(f[pi].children@ =~= o[pi].children@.push(c));
        assert forall|i: int| 0 <= i < f.len() implies wf_node_at(f, i) by {
            if i < o.len() {
                assert(wf_node_at(o, i));
                if i > 0 {
                    let par = o[i].parent;
                    assert(o[par - 1].children@.contains(o[i].inode));
                    if par - 1 == pi {
                        let jj = choose|j: int|
                            0 <= j < o[pi].children@.len() && o[pi].children@[j] == o[i].inode;
                        assert(f[pi].children@[jj] == o[i].inode);
                    }
                }
            } else {
                // the fresh node: its parent is p, a directory that now lists it
                assert(f[i] == ix.node(c));
                assert(f[pi].children@[o[pi].children@.len() as int] == c);
                assert(f[pi].children@.contains(c));
            }
        }
        assert forall|i: int| 0 <= i < f.len() implies wf_children_at(f, i) by {
            if i == pi {
                let oc = o[pi].children@;
                let fc = f[pi].children@;
                assert(wf_children_at(o, pi));
                assert(fc =~= oc.push(c));
                assert forall|j: int| 0 <= j < fc.len() implies 2 <= #[trigger] fc[j] <= f.len()
                    && f[fc[j] - 1].parent == i + 1 by {
                    if j < oc.len() {
                        assert(fc[j] == oc[j]);
                        assert(2 <= oc[j] <= o.len());
                        // a child of p is never p itself, so its node is untouched
                        assert(o[oc[j] - 1].parent == i + 1);
                        if oc[j] - 1 == pi {
                            assert(wf_node_at(o, pi));
                            assert(false);
                        }
                    } else {
                        assert(fc[j] == c);
                    }
                }
                assert forall|j1: int, j2: int| 0 <= j1 < j2 < fc.len() implies fc[j1] != fc[j2]
                    && f[fc[j1] - 1].name@ != f[fc[j2] - 1].name@ by {
                    if j2 < oc.len() {
                        assert(o[oc[j1] - 1].name@ != o[oc[j2] - 1].name@);
                        assert(oc[j1] - 1 != pi && oc[j2] - 1 != pi) by {
                            if oc[j1] - 1 == pi || oc[j2] - 1 == pi {
                                assert(wf_node_at(o, pi));
                            }
                        }
                    } else {
                        // the new child differs from every old one in number
                        // and, by the caller's lookup, in name
                        assert(fc[j1] == oc[j1]);
                        assert(2 <= oc[j1] <= o.len());
                        assert(fc[j2] == c);
                        if f[fc[j1] - 1].name@ == name@ {
                            assert(oc[j1] - 1 != pi) by {
                                if oc[j1] - 1 == pi {
                                    assert(wf_node_at(o, pi));
                                }
                            }
                            assert(o[oc[j1] - 1].name@ == name@);
                            assert(old(ix).has_child(p, name@));
                        }
                        assert(f[fc[j2] - 1].name@ == name@);
                    }
                }
            } else if i < o.len() {
                assert(wf_children_at(o, i));
                let oc = o[i].children@;
                assert forall|j: int| 0 <= j < oc.len() implies 2 <= #[trigger] oc[j] <= f.len()
                    && f[oc[j] - 1].parent == i + 1 by {
                    assert(o[oc[j] - 1].parent == i + 1);
                }
                assert forall|j1: int, j2: int| 0 <= j1 < j2 < oc.len() implies oc[j1] != oc[j2]
                    && f[oc[j1] - 1].name@ != f[oc[j2] - 1].name@ by {
                    assert(o[oc[j1] - 1].name@ != o[oc[j2] - 1].name@);
                }
            } else {
                assert(f[i].children@.len() == 0);
            }
        }
    }
    Ok(c)
}

/// Every listed component is usable as a base name so far as the split
/// guarantees it: nonempty and not `.`.
pub open spec fn comps_ok(cs: Seq<Vec<u8>>) -> bool {
    forall|t: int| 0 <= t < cs.len() ==> (#[trigger] cs[t])@.len() > 0 && cs[t]@ != seq![46u8]
}

/// Some record's path steps outside the tree with a `..` component.
pub open spec fn some_dotdot(es: Seq<TarEntry>) -> bool {
    exists|q: int, t: int|
        0 <= q < es.len() && 0 <= t < spec_components((#[trigger] es[q]).path@).len()
            && #[trigger] spec_components(es[q].path@)[t] == seq![46u8, 46u8]
}

/// The number of path components of the first `k` records together.
pub open spec fn total_comps(es: Seq<TarEntry>, k: int) -> int
    decreases k,
{
    if k <= 0 {
        0
    } else {
        total_comps(es, k - 1) + spec_components(es[k - 1].path@).len()
    }
}

pub proof fn lemma_total_comps_mono(es: Seq<TarEntry>, a: int, b: int)
    requires
        0 <= a <= b,
    ensures
        total_comps(es, a) <= total_comps(es, b),
    decreases b - a,
{
    if a < b {
        lemma_total_comps_mono(es, a, b - 1);
    }
}

/// Two records of the list contradict each other as a tree: a non-directory
/// record's path is a strict prefix of another record's path, or two records
/// at the same path have different kinds.
pub open spec fn kind_conflict(es: Seq<TarEntry>) -> bool {
    exists|a: int, b: int|
        #![trigger es[a], es[b]]
        0 <= a < es.len() && 0 <= b < es.len() && {
            let ca = spec_components(es[a].path@);
            let cb = spec_components(es[b].path@);
            ||| (es[a].kind != FileKind::Directory && ca.len() < cb.len() && ca == cb.take(
                ca.len() as int,
            ))
            ||| (ca == cb && es[a].kind != es[b].kind)
        }
}

/// The record at position `q` is the last with its component path among the
/// first `k` records.
pub open spec fn is_last_at(es: Seq<TarEntry>, q: int, k: int) -> bool {
    forall|p: int|
        q < p < k ==> spec_components((#[trigger] es[p]).path@) != spec_components(es[q].path@)
}

/// Some node stands at this component path carrying exactly this record.
pub open spec fn has_node_with_entry(ix: Index, cs: Seq<Seq<u8>>, ev: TarEntryV) -> bool {
    exists|i: int|
        0 <= i < ix.nodes().len() && #[trigger] path_of(ix, i) == cs && ix.nodes()[i].entry@ == ev
}

/// Twin of `some_dotdot` over record images.
pub open spec fn some_dotdot_v(es: Seq<TarEntryV>) -> bool {
    exists|q: int, t: int|
        0 <= q < es.len() && 0 <= t < spec_components((#[trigger] es[q]).path).len()
            && #[trigger] spec_components(es[q].path)[t] == seq![46u8, 46u8]
}

/// Twin of `kind_conflict` over record images.
pub open spec fn kind_conflict_v(es: Seq<TarEntryV>) -> bool {
    exists|a: int, b: int|
        #![trigger es[a], es[b]]
        0 <= a < es.len() && 0 <= b < es.len() && {
            let ca = spec_components(es[a].path);
            let cb = spec_components(es[b].path);
            ||| (es[a].kind != FileKind::Directory && ca.len() < cb.len() && ca == cb.take(
                ca.len() as int,
            ))
            ||| (ca == cb && es[a].kind != es[b].kind)
        }
}

/// Twin of `total_comps` over record images.
pub open spec fn total_comps_v(es: Seq<TarEntryV>, k: int) -> int
    decreases k,
{
    if k <= 0 {
        0
    } else {
        total_comps_v(es, k - 1) + spec_components(es[k - 1].path).len()
    }
}

/// Twin of `is_last_at` over record images.
pub open spec fn is_last_v(es: Seq<TarEntryV>, q: int, k: int) -> bool {
    forall|p: int|
        q < p < k ==> spec_components((#[trigger] es[p]).path) != spec_components(es[q].path)
}

/// The records and their images say the same of `..` components and of kind
/// conflicts.
pub proof fn lemma_view_twins(es: Seq<TarEntry>, vs: Seq<TarEntryV>)
    requires
        vs.len() == es.len(),
        forall|i: int| 0 <= i < es.len() ==> (#[trigger] es[i])@ == vs[i],
    ensures
        some_dotdot(es) <==> some_dotdot_v(vs),
        kind_conflict(es) <==> kind_conflict_v(vs),
{
    assert(forall|i: int| 0 <= i < es.len() ==> (#[trigger] es[i]).path@ == vs[i].path
        && es[i].kind == vs[i].kind);
    if some_dotdot(es) {
        let (q, t) = choose|q: int, t: int|
            0 <= q < es.len() && 0 <= t < spec_components((#[trigger] es[q]).path@).len()
                && #[trigger] spec_components(es[q].path@)[t] == seq![46u8, 46u8];
        assert(spec_components(vs[q].path)[t] == seq![46u8, 46u8]);
        assert(some_dotdot_v(vs));
    }
    if some_dotdot_v(vs) {
        let (q, t) = choose|q: int, t: int|
            0 <= q < vs.len() && 0 <= t < spec_components((#[trigger] vs[q]).path).len()
                && #[trigger] spec_components(vs[q].path)[t] == seq![46u8, 46u8];
        assert(spec_components(es[q].path@)[t] == seq![46u8, 46u8]);
        assert(some_dotdot(es));
    }
    if kind_conflict(es) {
        let (a, b) = choose|a: int, b: int|
            #![trigger es[a], es[b]]
            0 <= a < es.len() && 0 <= b < es.len() && {
                let ca = spec_components(es[a].path@);
                let cb = spec_components(es[b].path@);
                ||| (es[a].kind != FileKind::Directory && ca.len() < cb.len() && ca == cb.take(
                    ca.len() as int,
                ))
                ||| (ca == cb && es[a].kind != es[b].kind)
            };
        assert(vs[a].path == es[a].path@ && vs[b].path == es[b].path@);
        assert(kind_conflict_v(vs));
    }
    if kind_conflict_v(vs) {
        let (a, b) = choose|a: int, b: int|
            #![trigger vs[a], vs[b]]
            0 <= a < vs.len() && 0 <= b < vs.len() && {
                let ca = spec_components(vs[a].path);
                let cb = spec_components(vs[b].path);
                ||| (vs[a].kind != FileKind::Directory && ca.len() < cb.len() && ca == cb.take(
                    ca.len() as int,
                ))
                ||| (ca == cb && vs[a].kind != vs[b].kind)
            };
        assert(es[a].path@ == vs[a].path && es[b].path@ == vs[b].path);
        assert(kind_conflict(es));
    }
}

/// The records and their images count components alike.
pub proof fn lemma_total_comps_view(es: Seq<TarEntry>, vs: Seq<TarEntryV>, k: int)
    requires
        vs.len() == es.len(),
        forall|i: int| 0 <= i < es.len() ==> (#[trigger] es[i])@ == vs[i],
        0 <= k <= es.len(),
    ensures
        total_comps(es, k) == total_comps_v(vs, k),
    decreases k,
{
    if k > 0 {
        lemma_total_comps_view(es, vs, k - 1);
        assert(es[k - 1].path@ == vs[k - 1].path);
    }
}

/// How the record kind of the node at position `i` is grounded in the
/// record list: a non-directory node carries the kind of a record at exactly
/// its path; a directory node stands at a strict prefix of some record's
/// path, or at the exact path of a directory record.
pub open spec fn node_kind_grounded(ix: Index, es: Seq<TarEntry>, i: int) -> bool {
    let n = ix.nodes()[i];
    if n.entry.kind == FileKind::Directory {
        exists|q: int|
            #![trigger es[q]]
            0 <= q < es.len() && {
                let cq = spec_components(es[q].path@);
                ||| (path_of(ix, i).len() < cq.len() && path_of(ix, i) == cq.take(
                    path_of(ix, i).len() as int,
                ))
                ||| (cq == path_of(ix, i) && es[q].kind == FileKind::Directory)
            }
    } else {
        exists|q: int|
            #![trigger es[q]]
            0 <= q < es.len() && spec_components(es[q].path@) == path_of(ix, i) && es[q].kind
                == n.entry.kind
    }
}

/// Every node but the root is grounded in the record list.
pub open spec fn node_kind_provenance(ix: Index, es: Seq<TarEntry>) -> bool {
    forall|i: int| 1 <= i < ix.nodes().len() ==> node_kind_grounded(ix, es, i)
}

/// Twin of `node_kind_grounded` over record images.
pub open spec fn node_kind_grounded_v(ix: Index, es: Seq<TarEntryV>, i: int) -> bool {
    let n = ix.nodes()[i];
    if n.entry.kind == FileKind::Directory {
        exists|q: int|
            #![trigger es[q]]
            0 <= q < es.len() && {
                let cq = spec_components(es[q].path);
                ||| (path_of(ix, i).len() < cq.len() && path_of(ix, i) == cq.take(
                    path_of(ix, i).len() as int,
                ))
                ||| (cq == path_of(ix, i) && es[q].kind == FileKind::Directory)
            }
    } else {
        exists|q: int|
            #![trigger es[q]]
            0 <= q < es.len() && spec_components(es[q].path) == path_of(ix, i) && es[q].kind
                == n.entry.kind
    }
}

/// Twin of `node_kind_provenance` over record images.
pub open spec fn node_kind_provenance_v(ix: Index, es: Seq<TarEntryV>) -> bool {
    forall|i: int| 1 <= i < ix.nodes().len() ==> node_kind_grounded_v(ix, es, i)
}

/// Groundedness carries over to the record images.
pub proof fn lemma_provenance_view(ix: Index, es: Seq<TarEntry>, vs: Seq<TarEntryV>)
    requires
        vs.len() == es.len(),
        forall|i: int| 0 <= i < es.len() ==> (#[trigger] es[i])@ == vs[i],
        node_kind_provenance(ix, es),
    ensures
        node_kind_provenance_v(ix, vs),
{
    assert forall|i: int| 1 <= i < ix.nodes().len() implies node_kind_grounded_v(ix, vs, i) by {
        assert(node_kind_grounded(ix, es, i));
        if ix.nodes()[i].entry.kind == FileKind::Directory {
            let q = choose|q: int|
                0 <= q < es.len() && {
                    let cq = spec_components((#[trigger] es[q]).path@);
                    ||| (path_of(ix, i).len() < cq.len() && path_of(ix, i) == cq.take(
                        path_of(ix, i).len() as int,
                    ))
                    ||| (cq == path_of(ix, i) && es[q].kind == FileKind::Directory)
                };
            assert(es[q].path@ == vs[q].path && es[q].kind == vs[q].kind);
        } else {
            let q = choose|q: int|
                0 <= q < es.len() && spec_components((#[trigger] es[q]).path@) == path_of(ix, i)
                    && es[q].kind == ix.nodes()[i].entry.kind;
            assert(es[q].path@ == vs[q].path && es[q].kind == vs[q].kind);
        }
    }
}

/// Groundedness survives appending nodes, extending children lists and
/// refreshing a record with one of equal kind.
pub proof fn lemma_provenance_stable(oix: Index, ix: Index, es: Seq<TarEntry>)
    requires
        node_kind_provenance(oix, es),
        oix.nodes().len() <= ix.nodes().len(),
        forall|t: int|
            0 <= t < oix.nodes().len() ==> (#[trigger] ix.nodes()[t]).parent
                == oix.nodes()[t].parent && ix.nodes()[t].name == oix.nodes()[t].name
                && ix.nodes()[t].entry.kind == oix.nodes()[t].entry.kind,
    ensures
        forall|i: int| 1 <= i < oix.nodes().len() ==> node_kind_grounded(ix, es, i),
{
    assert forall|i: int| 1 <= i < oix.nodes().len() implies node_kind_grounded(ix, es, i) by {
        assert(node_kind_grounded(oix, es, i));
        lemma_path_of_stable(oix, ix, i);
        if oix.nodes()[i].entry.kind == FileKind::Directory {
            let q = choose|q: int|
                0 <= q < es.len() && {
                    let cq = spec_components((#[trigger] es[q]).path@);
                    ||| (path_of(oix, i).len() < cq.len() && path_of(oix, i) == cq.take(
                        path_of(oix, i).len() as int,
                    ))
                    ||| (cq == path_of(oix, i) && es[q].kind == FileKind::Directory)
                };
            assert(0 <= q < es.len());
        } else {
            let q = choose|q: int|
                0 <= q < es.len() && spec_components((#[trigger] es[q]).path@) == path_of(oix, i)
                    && es[q].kind == oix.nodes()[i].entry.kind;
            assert(0 <= q < es.len());
        }
    }
}

impl Index {
    /// Builds the index from the decoded records in stream order: the root
    /// first, then one node per record path, with missing ancestor
    /// directories synthesized eagerly. A partial index is never returned,
    /// and each rejection names its witness in the record list — so a list
    /// with no `..` component, no conflicting kinds and fewer components
    /// than inode numbers is never rejected.
    #[verifier::rlimit(100)]
    pub fn build(entries: &Vec<TarEntry>) -> (r: Result<Index, ArchiveError>)
        ensures
            match r {
                Ok(ix) => {
                    &&& ix.wf()
                    &&& entries_cover(ix, entries@)
                    &&& (forall|q: int|
                        0 <= q < entries@.len() ==> has_node_for(
                            ix,
                            spec_components((#[trigger] entries@[q]).path@),
                        ))
                    &&& !some_dotdot(entries@)
                    &&& node_kind_provenance(ix, entries@)
                    &&& ix.nodes().len() <= 1 + total_comps(entries@, entries@.len() as int)
                    &&& (forall|q: int|
                        0 <= q < entries@.len() && spec_components(
                            (#[trigger] entries@[q]).path@,
                        ).len() > 0 && is_last_at(entries@, q, entries@.len() as int)
                            ==> has_node_with_entry(
                            ix,
                            spec_components(entries@[q].path@),
                            entries@[q]@,
                        ))
                },
                Err(e) => {
                    &&& (e == ArchiveError::BadPath || e == ArchiveError::InvalidParent || e
                        == ArchiveError::TooLarge)
                    &&& (e == ArchiveError::BadPath ==> some_dotdot(entries@))
                    &&& (e == ArchiveError::InvalidParent ==> kind_conflict(entries@))
                    &&& (e == ArchiveError::TooLarge ==> total_comps(
                        entries@,
                        entries@.len() as int,
                    ) >= 0xFFFF_FFFF_FFFF_FFFF)
                },
            },
    {
        let mut ix = Index { arena: ArenaTree::new() };
        ix.arena.push(root_index_entry());
        proof {
            assert(ix.wf_node(0));
            assert(ix.wf_children(0));
            assert(node_kind_provenance(ix, entries@));
        }
        let mut k: usize = 0;
        while k < entries.len()
            invariant
                ix.wf(),
                entries_cover(ix, entries@),
                0 <= k <= entries@.len(),
                forall|q: int|
                    0 <= q < k ==> has_node_for(
                        ix,
                        spec_components((#[trigger] entries@[q]).path@),
                    ),
                forall|q: int, t: int|
                    0 <= q < k && 0 <= t < spec_components((#[trigger] entries@[q]).path@).len()
                        ==> #[trigger] spec_components(entries@[q].path@)[t] != seq![46u8, 46u8],
                node_kind_provenance(ix, entries@),
                ix.nodes().len() <= 1 + total_comps(entries@, k as int),
                forall|q: int|
                    0 <= q < k && spec_components((#[trigger] entries@[q]).path@).len() > 0
                        && is_last_at(entries@, q, k as int) ==> has_node_with_entry(
                        ix,
                        spec_components(entries@[q].path@),
                        entries@[q]@,
                    ),
            decreases entries@.len() - k,
        {
            let rec = &entries[k];
            let comps = components(&rec.path);
            let ghost cs = spec_components(rec.path@);
            proof {
                lemma_components_valid(rec.path@, 0);
                assert(comps_ok(comps@)) by {
                    assert(comps_match(comps@, cs));
                }
                assert(cs == spec_components(entries@[k as int].path@));
            }
            if comps.len() > 0 {
                let mut cur: u64 = 1;
                proof {
                    assert(ix.wf_node(0));
                    assert(cs.take(0) =~= Seq::<Seq<u8>>::empty());
                }
                let mut d: usize = 0;
                while d < comps.len() - 1
                    invariant
                        ix.wf(),
                        entries_cover(ix, entries@),
                        ix.valid_ino(cur),
                        ix.node(cur).entry.kind == FileKind::Directory,
                        comps@.len() >= 1,
                        0 <= d <= comps@.len() - 1,
                        comps_ok(comps@),
                        comps_match(comps@, cs),
                        0 <= k < entries@.len(),
                        cs == spec_components(entries@[k as int].path@),
                        path_of(ix, cur as int - 1) == cs.take(d as int),
                        forall|q: int|
                            0 <= q < k ==> has_node_for(
                                ix,
                                spec_components((#[trigger] entries@[q]).path@),
                            ),
                        forall|q: int, t: int|
                            0 <= q < k && 0 <= t < spec_components(
                                (#[trigger] entries@[q]).path@,
                            ).len() ==> #[trigger] spec_components(entries@[q].path@)[t] != seq![
                                46u8,
                                46u8,
                            ],
                        forall|t: int| 0 <= t < d ==> #[trigger] cs[t] != seq![46u8, 46u8],
                        node_kind_provenance(ix, entries@),
                        ix.nodes().len() <= 1 + total_comps(entries@, k as int) + d,
                        forall|q: int|
                            0 <= q < k && spec_components((#[trigger] entries@[q]).path@).len() > 0
                                && is_last_at(entries@, q, k as int) ==> has_node_with_entry(
                                ix,
                                spec_components(entries@[q].path@),
                                entries@[q]@,
                            ),
                    decreases comps@.len() - 1 - d,
                {
                    let name = &comps[d];
                    if name.len() == 2 && name[0] == 46 && name[1] == 46 {
                        proof {
                            assert(name@ =~= seq![46u8, 46u8]);
                            assert(spec_components(entries@[k as int].path@)[d as int] == seq![
                                46u8,
                                46u8,
                            ]);
                            assert(some_dotdot(entries@));
                        }
                        return Err(ArchiveError::BadPath);
                    }
                    proof {
                        assert(name@ != seq![46u8, 46u8]) by {
                            if name@ == seq![46u8, 46u8] {
                                assert(name@.len() == 2);
                                assert(name@[0] == 46 && name@[1] == 46);
                            }
                        }
                    }
                    match find_child(&ix, cur, name) {
                        Some(ci) => {
                            let l: usize = ix.arena.len();
                            let node = match ix.arena.get((ci - 1) as usize) {
                                Some(n) => n,
                                None => {
                                    proof {
                                        assert(false);
                                    }
                                    return Err(ArchiveError::BadPath);
                                },
                            };
                            proof {
                                assert(wf_node_at(ix.nodes(), ci - 1));
                                assert(ix.nodes()[ci - 1].name@ == cs[d as int]);
                                assert(path_of(ix, ci - 1) == path_of(ix, cur as int - 1).push(
                                    cs[d as int],
                                ));
                                assert(cs.take(d as int).push(cs[d as int]) =~= cs.take(d + 1));
                                assert(path_of(ix, ci - 1) == cs.take(d + 1));
                            }
                            if node.entry.kind != FileKind::Directory {
                                proof {
                                    // a non-directory record stands at a strict
                                    // prefix of this record's path
                                    assert(node_kind_grounded(ix, entries@, ci - 1));
                                    let q1 = choose|q: int|
                                        0 <= q < entries@.len() && spec_components(
                                            (#[trigger] entries@[q]).path@,
                                        ) == path_of(ix, ci - 1) && entries@[q].kind == ix.nodes()[ci
                                        - 1].entry.kind;
                                    let ca = spec_components(entries@[q1].path@);
                                    assert(ca.len() == d + 1);
                                    assert(ca == cs.take(ca.len() as int));
                                    assert(ca.len() < cs.len());
                                    assert(entries@[q1].kind != FileKind::Directory);
                                    assert(kind_conflict(entries@));
                                }
                                return Err(ArchiveError::InvalidParent);
                            }
                            cur = ci;
                        },
                        None => {
                            let nm = copy_range(name, 0, name.len());
                            proof {
                                assert(nm@ =~= name@);
                            }
                            let ghost o = ix.nodes();
                            let ghost oix = ix;
                            match add_child(&mut ix, cur, nm, synthetic_dir_entry()) {
                                Ok(ci) => {
                                    proof {
                                        assert(entries_cover(ix, entries@)) by {
                                            assert forall|i: int|
                                                0 <= i < ix.nodes().len() implies {
                                                let t = (#[trigger] ix.nodes()[i]).entry@;
                                                (t.size == 0 && t.offset == 0) || (exists|q: int|
                                                    0 <= q < entries@.len() && t == entries@[q]@)
                                            } by {
                                                if i < o.len() {
                                                    assert(ix.nodes()[i].entry == o[i].entry);
                                                }
                                            }
                                        }
                                        lemma_path_of_stable(oix, ix, cur as int - 1);
                                        assert(wf_node_at(ix.nodes(), ci - 1));
                                        assert(ix.nodes()[ci - 1].name@ == cs[d as int]);
                                        assert(path_of(ix, ci - 1) == path_of(
                                            ix,
                                            cur as int - 1,
                                        ).push(cs[d as int]));
                                        assert(cs.take(d as int).push(cs[d as int]) =~= cs.take(
                                            d + 1,
                                        ));
                                        assert forall|q: int| 0 <= q < k implies has_node_for(
                                            ix,
                                            spec_components((#[trigger] entries@[q]).path@),
                                        ) by {
                                            let pq = spec_components(entries@[q].path@);
                                            let w = choose|i: int|
                                                0 <= i < oix.nodes().len() && path_of(oix, i)
                                                    == pq;
                                            lemma_path_of_stable(oix, ix, w);
                                            assert(path_of(ix, w) == pq);
                                        }
                                        lemma_provenance_stable(oix, ix, entries@);
                                        assert forall|i: int|
                                            1 <= i < ix.nodes().len() implies node_kind_grounded(
                                            ix,
                                            entries@,
                                            i,
                                        ) by {
                                            if i >= o.len() {
                                                // the synthesized directory
                                                // stands at a strict prefix of
                                                // this record's path
                                                assert(path_of(ix, i) == cs.take(d + 1));
                                                assert(cs == spec_components(
                                                    entries@[k as int].path@,
                                                ));
                                                assert(cs.take(d + 1).len() < cs.len());
                                            }
                                        }
                                        assert(node_kind_provenance(ix, entries@));
                                        assert forall|q: int|
                                            0 <= q < k && spec_components(
                                                (#[trigger] entries@[q]).path@,
                                            ).len() > 0 && is_last_at(entries@, q, k as int)
                                            implies has_node_with_entry(
                                            ix,
                                            spec_components(entries@[q].path@),
                                            entries@[q]@,
                                        ) by {
                                            let pq = spec_components(entries@[q].path@);
                                            let w = choose|i: int|
                                                0 <= i < oix.nodes().len() && #[trigger] path_of(
                                                    oix,
                                                    i,
                                                ) == pq && oix.nodes()[i].entry@ == entries@[q]@;
                                            lemma_path_of_stable(oix, ix, w);
                                            assert(ix.nodes()[w].entry == oix.nodes()[w].entry);
                                            assert(path_of(ix, w) == pq);
                                        }
                                    }
                                    cur = ci;
                                },
                                Err(e) => {
                                    proof {
                                        lemma_total_comps_mono(
                                            entries@,
                                            k as int + 1,
                                            entries@.len() as int,
                                        );
                                        assert(total_comps(entries@, k as int + 1) == total_comps(
                                            entries@,
                                            k as int,
                                        ) + cs.len());
                                    }
                                    return Err(e);
                                },
                            }
                        },
                    }
                    d = d + 1;
                }
                let name = &comps[comps.len() - 1];
                if name.len() == 2 && name[0] == 46 && name[1] == 46 {
                    proof {
                        assert(name@ =~= seq![46u8, 46u8]);
                        assert(spec_components(entries@[k as int].path@)[cs.len() - 1] == seq![
                            46u8,
                            46u8,
                        ]);
                        assert(some_dotdot(entries@));
                    }
                    return Err(ArchiveError::BadPath);
                }
                proof {
                    assert(name@ != seq![46u8, 46u8]) by {
                        if name@ == seq![46u8, 46u8] {
                            assert(name@.len() == 2);
                            assert(name@[0] == 46 && name@[1] == 46);
                        }
                    }
                }
                let ent = clone_entry(rec);
                match find_child(&ix, cur, name) {
                    Some(ci) => {
                        // the path already has a node (an explicit record
                        // after synthesis, or a duplicate): refresh its
                        // record in place when the kinds agree
                        let l: usize = ix.arena.len();
                        let same = match ix.arena.get((ci - 1) as usize) {
                            Some(n) => n.entry.kind == ent.kind,
                            None => {
                                proof {
                                    assert(false);
                                }
                                false
                            },
                        };
                        let ghost o = ix.nodes();
                        let ghost oix = ix;
                        proof {
                            assert(wf_nodes(o));
                            assert(wf_node_at(o, ci - 1));
                            assert(o[ci - 1].name@ == cs[cs.len() - 1]);
                            assert(path_of(ix, ci - 1) == path_of(ix, cur as int - 1).push(
                                cs[cs.len() - 1],
                            ));
                            assert(cs.take(cs.len() - 1).push(cs[cs.len() - 1]) =~= cs);
                            assert(path_of(ix, ci - 1) == cs);
                        }
                        if !same {
                            proof {
                                assert(node_kind_grounded(ix, entries@, ci - 1));
                                let nk = ix.nodes()[ci - 1].entry.kind;
                                assert(nk != entries@[k as int].kind);
                                if nk != FileKind::Directory {
                                    // a record of the other kind stands at
                                    // exactly this path
                                    let q1 = choose|q: int|
                                        0 <= q < entries@.len() && spec_components(
                                            (#[trigger] entries@[q]).path@,
                                        ) == path_of(ix, ci - 1) && entries@[q].kind == ix.nodes()[ci
                                        - 1].entry.kind;
                                    assert(spec_components(entries@[q1].path@) == cs);
                                    assert(entries@[q1].kind != entries@[k as int].kind);
                                    assert(kind_conflict(entries@));
                                } else {
                                    // this record is not a directory, yet a
                                    // directory is grounded at its path
                                    let q2 = choose|q: int|
                                        0 <= q < entries@.len() && {
                                            let cq = spec_components(
                                                (#[trigger] entries@[q]).path@,
                                            );
                                            ||| (path_of(ix, ci - 1).len() < cq.len() && path_of(
                                                ix,
                                                ci - 1,
                                            ) == cq.take(path_of(ix, ci - 1).len() as int))
                                            ||| (cq == path_of(ix, ci - 1) && entries@[q].kind
                                                == FileKind::Directory)
                                        };
                                    let cq = spec_components(entries@[q2].path@);
                                    assert(entries@[k as int].kind != FileKind::Directory);
                                    if cq == cs && entries@[q2].kind == FileKind::Directory {
                                        assert(kind_conflict(entries@));
                                    } else {
                                        assert(cs.len() < cq.len());
                                        assert(cs == cq.take(cs.len() as int));
                                        assert(kind_conflict(entries@));
                                    }
                                }
                            }
                            return Err(ArchiveError::InvalidParent);
                        }
                        match ix.arena.get_mut((ci - 1) as usize) {
                            Some(m) => {
                                m.entry = ent;
                            },
                            None => {
                                proof {
                                    assert(false);
                                }
                            },
                        }
                        proof {
                            let f = ix.nodes();
                            let ui = ci - 1;
                            assert(f.len() == o.len());
                            assert(forall|i: int| 0 <= i < o.len() && i != ui ==> f[i] == o[i]);
                            assert(f[ui].inode == o[ui].inode && f[ui].parent == o[ui].parent
                                && f[ui].name == o[ui].name && f[ui].children == o[ui].children);
                            assert(f[ui].entry.kind == o[ui].entry.kind);
                            assert(forall|i: int|
                                0 <= i < f.len() ==> (#[trigger] f[i]).inode == o[i].inode
                                    && f[i].parent == o[i].parent && f[i].name == o[i].name
                                    && f[i].children == o[i].children && f[i].entry.kind
                                    == o[i].entry.kind);
                            assert forall|i: int| 0 <= i < f.len() implies wf_node_at(f, i) by {
                                assert(wf_node_at(o, i));
                                if i > 0 {
                                    let pp = o[i].parent;
                                    assert(f[pp - 1].entry.kind == o[pp - 1].entry.kind);
                                    assert(f[pp - 1].children == o[pp - 1].children);
                                    assert(o[pp - 1].children@.contains(o[i].inode));
                                }
                            }
                            assert forall|i: int| 0 <= i < f.len() implies wf_children_at(f, i) by {
                                assert(wf_children_at(o, i));
                                let c = f[i].children@;
                                assert(c == o[i].children@);
                                assert forall|j: int|
                                    0 <= j < c.len() implies 2 <= #[trigger] c[j] <= f.len()
                                    && f[c[j] - 1].parent == i + 1 by {
                                    assert(o[c[j] - 1].parent == i + 1);
                                }
                                assert forall|j1: int, j2: int|
                                    0 <= j1 < j2 < c.len() implies c[j1] != c[j2] && f[c[j1]
                                    - 1].name@ != f[c[j2] - 1].name@ by {
                                    assert(o[c[j1] - 1].name@ != o[c[j2] - 1].name@);
                                    assert(f[c[j1] - 1].name == o[c[j1] - 1].name);
                                    assert(f[c[j2] - 1].name == o[c[j2] - 1].name);
                                }
                            }
                            assert(entries_cover(ix, entries@)) by {
                                assert forall|i: int| 0 <= i < f.len() implies {
                                    let t = (#[trigger] f[i]).entry@;
                                    (t.size == 0 && t.offset == 0) || (exists|q: int|
                                        0 <= q < entries@.len() && t == entries@[q]@)
                                } by {
                                    if i == ui {
                                        assert(f[i].entry@ == entries@[k as int]@);
                                    } else {
                                        assert(f[i].entry == o[i].entry);
                                    }
                                }
                            }
                            lemma_path_of_stable(oix, ix, ci - 1);
                            assert(path_of(ix, ci - 1) == cs);
                            assert(has_node_for(ix, cs));
                            assert forall|q: int| 0 <= q < k implies has_node_for(
                                ix,
                                spec_components((#[trigger] entries@[q]).path@),
                            ) by {
                                let pq = spec_components(entries@[q].path@);
                                let w = choose|i: int|
                                    0 <= i < oix.nodes().len() && path_of(oix, i) == pq;
                                lemma_path_of_stable(oix, ix, w);
                                assert(path_of(ix, w) == pq);
                            }
                            lemma_provenance_stable(oix, ix, entries@);
                            assert(node_kind_provenance(ix, entries@));
                            assert forall|q: int|
                                0 <= q < k + 1 && spec_components(
                                    (#[trigger] entries@[q]).path@,
                                ).len() > 0 && is_last_at(entries@, q, k as int + 1)
                                implies has_node_with_entry(
                                ix,
                                spec_components(entries@[q].path@),
                                entries@[q]@,
                            ) by {
                                let pq = spec_components(entries@[q].path@);
                                if q == k {
                                    assert(path_of(ix, ci - 1) == cs);
                                    assert(ix.nodes()[ci - 1].entry@ == entries@[k as int]@);
                                } else {
                                    // this record is not the last of its path
                                    // at the node we refreshed
                                    assert(spec_components(entries@[k as int].path@) != pq);
                                    assert(pq != cs);
                                    assert(is_last_at(entries@, q, k as int));
                                    let w = choose|i: int|
                                        0 <= i < oix.nodes().len() && #[trigger] path_of(oix, i)
                                            == pq && oix.nodes()[i].entry@ == entries@[q]@;
                                    lemma_path_of_stable(oix, ix, w);
                                    assert(path_of(ix, w) == pq);
                                    if w == ci - 1 {
                                        assert(path_of(oix, ci - 1) == cs);
                                        assert(false);
                                    }
                                    assert(ix.nodes()[w].entry == oix.nodes()[w].entry);
                                }
                            }
                        }
                    },
                    None => {
                        let nm = copy_range(name, 0, name.len());
                        proof {
                            assert(nm@ =~= name@);
                        }
                        let ghost o = ix.nodes();
                        let ghost oix = ix;
                        match add_child(&mut ix, cur, nm, ent) {
                            Ok(ci) => {
                                proof {
                                    assert(entries_cover(ix, entries@)) by {
                                        assert forall|i: int| 0 <= i < ix.nodes().len() implies {
                                            let t = (#[trigger] ix.nodes()[i]).entry@;
                                            (t.size == 0 && t.offset == 0) || (exists|q: int|
                                                0 <= q < entries@.len() && t == entries@[q]@)
                                        } by {
                                            if i < o.len() {
                                                assert(ix.nodes()[i].entry == o[i].entry);
                                            } else {
                                                assert(ix.nodes()[i].entry@ == entries@[k as int]@);
                                            }
                                        }
                                    }
                                    lemma_path_of_stable(oix, ix, cur as int - 1);
                                    assert(wf_node_at(ix.nodes(), ci - 1));
                                    assert(ix.nodes()[ci - 1].name@ == cs[cs.len() - 1]);
                                    assert(path_of(ix, ci - 1) == path_of(ix, cur as int - 1).push(
                                        cs[cs.len() - 1],
                                    ));
                                    assert(cs.take(cs.len() - 1).push(cs[cs.len() - 1]) =~= cs);
                                    assert(path_of(ix, ci - 1) == cs);
                                    assert(has_node_for(ix, cs));
                                    assert forall|q: int| 0 <= q < k implies has_node_for(
                                        ix,
                                        spec_components((#[trigger] entries@[q]).path@),
                                    ) by {
                                        let pq = spec_components(entries@[q].path@);
                                        let w = choose|i: int|
                                            0 <= i < oix.nodes().len() && path_of(oix, i) == pq;
                                        lemma_path_of_stable(oix, ix, w);
                                        assert(path_of(ix, w) == pq);
                                    }
                                    lemma_provenance_stable(oix, ix, entries@);
                                    assert forall|i: int|
                                        1 <= i < ix.nodes().len() implies node_kind_grounded(
                                        ix,
                                        entries@,
                                        i,
                                    ) by {
                                        if i >= o.len() {
                                            // the new node carries exactly this
                                            // record's kind at its path
                                            assert(path_of(ix, i) == cs);
                                            assert(ix.nodes()[i].entry.kind
                                                == entries@[k as int].kind);
                                            assert(cs == spec_components(
                                                entries@[k as int].path@,
                                            ));
                                        }
                                    }
                                    assert(node_kind_provenance(ix, entries@));
                                    assert forall|q: int|
                                        0 <= q < k + 1 && spec_components(
                                            (#[trigger] entries@[q]).path@,
                                        ).len() > 0 && is_last_at(entries@, q, k as int + 1)
                                        implies has_node_with_entry(
                                        ix,
                                        spec_components(entries@[q].path@),
                                        entries@[q]@,
                                    ) by {
                                        let pq = spec_components(entries@[q].path@);
                                        if q == k {
                                            assert(path_of(ix, ci - 1) == cs);
                                            assert(ix.nodes()[ci - 1].entry@ == entries@[k as int]@);
                                        } else {
                                            assert(is_last_at(entries@, q, k as int));
                                            let w = choose|i: int|
                                                0 <= i < oix.nodes().len() && #[trigger] path_of(
                                                    oix,
                                                    i,
                                                ) == pq && oix.nodes()[i].entry@ == entries@[q]@;
                                            lemma_path_of_stable(oix, ix, w);
                                            assert(ix.nodes()[w].entry == oix.nodes()[w].entry);
                                            assert(path_of(ix, w) == pq);
                                        }
                                    }
                                }
                            },
                            Err(e) => {
                                proof {
                                    lemma_total_comps_mono(
                                        entries@,
                                        k as int + 1,
                                        entries@.len() as int,
                                    );
                                    assert(total_comps(entries@, k as int + 1) == total_comps(
                                        entries@,
                                        k as int,
                                    ) + cs.len());
                                }
                                return Err(e);
                            },
                        }
                    },
                }
            } else {
                proof {
                    assert(cs.len() == 0);
                    assert(cs =~= Seq::<Seq<u8>>::empty());
                    assert(path_of(ix, 0) == cs);
                    assert(has_node_for(ix, cs));
                    assert forall|q: int|
                        0 <= q < k + 1 && spec_components((#[trigger] entries@[q]).path@).len() > 0
                            && is_last_at(entries@, q, k as int + 1) implies has_node_with_entry(
                        ix,
                        spec_components(entries@[q].path@),
                        entries@[q]@,
                    ) by {
                        assert(q != k);
                        assert(is_last_at(entries@, q, k as int));
                    }
                }
            }
            proof {
                assert forall|q: int| 0 <= q < k + 1 implies has_node_for(
                    ix,
                    spec_components((#[trigger] entries@[q]).path@),
                ) by {
                    if q == k {
                        assert(has_node_for(ix, cs));
                    }
                }
                assert forall|q: int, t: int|
                    0 <= q < k + 1 && 0 <= t < spec_components(
                        (#[trigger] entries@[q]).path@,
                    ).len() implies #[trigger] spec_components(entries@[q].path@)[t] != seq![
                    46u8,
                    46u8,
                ] by {
                    if q == k {
                        assert(cs[t] != seq![46u8, 46u8]);
                    }
                }
                assert(total_comps(entries@, k as int + 1) == total_comps(entries@, k as int)
                    + cs.len());
            }
            k = k + 1;
        }
        proof {
            assert(!some_dotdot(entries@));
        }
        Ok(ix)
    }

    /// Child lookup by `(parent inode, base name)`: returns the child node,
    /// or `None` when the parent inode is invalid or has no child with that
    /// exact base name.
    pub fn lookup_child(&self, parent_inode: u64, name: &Vec<u8>) -> (r: Option<&IndexEntry>)
        requires
            self.wf(),
        ensures
            match r {
                Some(e) => {
                    &&& self.valid_ino(parent_inode)
                    &&& 2 <= e.inode <= self.nodes().len()
                    &&& *e == self.node(e.inode)
                    &&& e.parent == parent_inode
                    &&& e.name@ == name@
                    &&& self.node(parent_inode).children@.contains(e.inode)
                },
                None => !self.valid_ino(parent_inode) || !self.has_child(parent_inode, name@),
            },
    {
        match find_child(self, parent_inode, name) {
            Some(c) => {
                let l: usize = self.arena.len();
                proof {
                    assert(c <= l as u64);
                    assert(wf_node_at(self.nodes(), c - 1));
                }
                match self.arena.get((c - 1) as usize) {
                    Some(e) => Some(e),
                    None => {
                        proof {
                            assert(false);
                        }
                        None
                    },
                }
            },
            None => None,
        }
    }
}

/// Exactly one node is the root — inode 1 with parent 0, at position 0 —
/// and every other node's parent resolves to an existing directory node.
pub proof fn lemma_root_unique(ix: Index)
    requires
        ix.wf(),
    ensures
        ix.nodes()[0].inode == 1 && ix.nodes()[0].parent == 0 && ix.nodes()[0].entry.kind
            == FileKind::Directory,
        forall|i: int|
            0 <= i < ix.nodes().len() ==> (((#[trigger] ix.nodes()[i]).inode == 1
                || ix.nodes()[i].parent == 0) <==> i == 0),
        forall|i: int|
            1 <= i < ix.nodes().len() ==> {
                let p = (#[trigger] ix.nodes()[i]).parent;
                &&& 1 <= p <= ix.nodes().len()
                &&& ix.nodes()[p - 1].entry.kind == FileKind::Directory
            },
{
    assert(wf_node_at(ix.nodes(), 0));
    assert forall|i: int| 0 <= i < ix.nodes().len() implies (((#[trigger] ix.nodes()[i]).inode == 1
        || ix.nodes()[i].parent == 0) <==> i == 0) by {
        assert(wf_node_at(ix.nodes(), i));
    }
    assert forall|i: int| 1 <= i < ix.nodes().len() implies {
        let p = (#[trigger] ix.nodes()[i]).parent;
        &&& 1 <= p <= ix.nodes().len()
        &&& ix.nodes()[p - 1].entry.kind == FileKind::Directory
    } by {
        assert(wf_node_at(ix.nodes(), i));
    }
}

/// Inode numbers are unique across the life of an index; the index is never
/// mutated after `build`, so they are never reassigned.
pub proof fn lemma_inodes_unique(ix: Index)
    requires
        ix.wf(),
    ensures
        forall|i: int, j: int|
            0 <= i < ix.nodes().len() && 0 <= j < ix.nodes().len() && (#[trigger] ix.nodes()[i]).inode
                == (#[trigger] ix.nodes()[j]).inode ==> i == j,
{
    assert forall|i: int, j: int|
        0 <= i < ix.nodes().len() && 0 <= j < ix.nodes().len() && (#[trigger] ix.nodes()[i]).inode
            == (#[trigger] ix.nodes()[j]).inode implies i == j by {
        assert(wf_node_at(ix.nodes(), i));
        assert(wf_node_at(ix.nodes(), j));
    }
}

/// Child lookup answers positively exactly for the nodes whose parent is the
/// directory and whose base name is the one sought.
pub proof fn lemma_lookup_iff(ix: Index, p: u64, name: Seq<u8>)
    requires
        ix.wf(),
        ix.valid_ino(p),
    ensures
        ix.has_child(p, name) <==> (exists|i: int|
            1 <= i < ix.nodes().len() && (#[trigger] ix.nodes()[i]).parent == p
                && ix.nodes()[i].name@ == name),
{
    let ns = ix.nodes();
    assert(wf_children_at(ns, p - 1));
    if ix.has_child(p, name) {
        let j = choose|j: int|
            0 <= j < ix.node(p).children@.len() && ns[#[trigger] ix.node(p).children@[j]
                - 1].name@ == name;
        let c = ix.node(p).children@[j];
        assert(2 <= c <= ns.len() && ns[c - 1].parent == p);
        assert(1 <= c - 1 < ns.len() && ns[c - 1].parent == p && ns[c - 1].name@ == name);
    }
    if exists|i: int|
        1 <= i < ns.len() && (#[trigger] ns[i]).parent == p && ns[i].name@ == name {
        let i = choose|i: int|
            1 <= i < ns.len() && (#[trigger] ns[i]).parent == p && ns[i].name@ == name;
        assert(wf_node_at(ns, i));
        assert(ns[p - 1].children@.contains(ns[i].inode));
        let j = choose|j: int|
            0 <= j < ns[p - 1].children@.len() && #[trigger] ns[p - 1].children@[j]
                == ns[i].inode;
        assert(ix.node(p).children@[j] == i + 1);
        assert(ns[ix.node(p).children@[j] - 1].name@ == name);
        assert(ix.has_child(p, name));
    }
}

/// The component path of the node at position `i`: its ancestors' names from
/// the root down, ending in its own name.
pub open spec fn path_of(ix: Index, i: int) -> Seq<Seq<u8>>
    decreases i,
{
    if i <= 0 {
        Seq::empty()
    } else {
        let p = ix.nodes()[i].parent as int;
        if 1 <= p <= i {
            path_of(ix, p - 1).push(ix.nodes()[i].name@)
        } else {
            seq![ix.nodes()[i].name@]
        }
    }
}

/// A node's path depends only on the parent and name fields of the nodes at
/// or below its position, so appending nodes, extending children lists or
/// refreshing records never changes it.
pub proof fn lemma_path_of_stable(ix1: Index, ix2: Index, i: int)
    requires
        0 <= i < ix1.nodes().len(),
        ix1.nodes().len() <= ix2.nodes().len(),
        forall|t: int|
            0 <= t < ix1.nodes().len() ==> (#[trigger] ix2.nodes()[t]).parent
                == ix1.nodes()[t].parent && ix2.nodes()[t].name == ix1.nodes()[t].name,
    ensures
        path_of(ix2, i) == path_of(ix1, i),
    decreases i,
{
    if i > 0 {
        let p = ix1.nodes()[i].parent as int;
        if 1 <= p <= i {
            lemma_path_of_stable(ix1, ix2, p - 1);
        }
    }
}

/// Some node of the index stands at exactly this component path.
pub open spec fn has_node_for(ix: Index, cs: Seq<Seq<u8>>) -> bool {
    exists|i: int| 0 <= i < ix.nodes().len() && path_of(ix, i) == cs
}

/// Exactly one node stands at a component path that has any node at all.
pub proof fn lemma_exactly_one_node_for_path(ix: Index, cs: Seq<Seq<u8>>)
    requires
        ix.wf(),
        has_node_for(ix, cs),
    ensures
        exists|i: int|
            0 <= i < ix.nodes().len() && path_of(ix, i) == cs && (forall|j: int|
                0 <= j < ix.nodes().len() && path_of(ix, j) == cs ==> j == i),
{
    let i = choose|i: int| 0 <= i < ix.nodes().len() && path_of(ix, i) == cs;
    assert forall|j: int| 0 <= j < ix.nodes().len() && path_of(ix, j) == cs implies j == i by {
        if j < i {
            lemma_one_node_per_path(ix, j, i);
        } else if i < j {
            lemma_one_node_per_path(ix, i, j);
        }
    }
    assert(0 <= i < ix.nodes().len() && path_of(ix, i) == cs && (forall|j: int|
        0 <= j < ix.nodes().len() && path_of(ix, j) == cs ==> j == i));
}

/// Directory synthesis is idempotent: a path names at most one node, so an
/// archive holding both an explicit directory record and descendants of that
/// directory — in either order — yields exactly one node for it.
pub proof fn lemma_one_node_per_path(ix: Index, i: int, j: int)
    requires
        ix.wf(),
        0 <= i < j < ix.nodes().len(),
    ensures
        path_of(ix, i) != path_of(ix, j),
    decreases i + j,
{
    let ns = ix.nodes();
    assert(wf_node_at(ns, i));
    assert(wf_node_at(ns, j));
    let pj = ns[j].parent as int;
    assert(1 <= pj <= j);
    assert(path_of(ix, j) == path_of(ix, pj - 1).push(ns[j].name@));
    if i == 0 {
        assert(path_of(ix, i).len() == 0);
        assert(path_of(ix, j).len() >= 1);
    } else {
        let pi = ns[i].parent as int;
        assert(1 <= pi <= i);
        assert(path_of(ix, i) == path_of(ix, pi - 1).push(ns[i].name@));
        if path_of(ix, i) == path_of(ix, j) {
            let a = path_of(ix, pi - 1);
            let b = path_of(ix, pj - 1);
            assert(a.push(ns[i].name@) == b.push(ns[j].name@));
            assert(a.len() == b.len());
            assert(ns[i].name@ == a.push(ns[i].name@)[a.len() as int]);
            assert(ns[i].name@ == ns[j].name@);
            assert forall|t: int| 0 <= t < a.len() implies a[t] == b[t] by {
                assert(a[t] == a.push(ns[i].name@)[t]);
                assert(b[t] == b.push(ns[j].name@)[t]);
            }
            assert(a =~= b);
            if pi == pj {
                let par = pi - 1;
                assert(wf_children_at(ns, par));
                assert(ns[par].children@.contains(ns[i].inode));
                assert(ns[par].children@.contains(ns[j].inode));
                let t1 = choose|t: int|
                    0 <= t < ns[par].children@.len() && ns[par].children@[t] == ns[i].inode;
                let t2 = choose|t: int|
                    0 <= t < ns[par].children@.len() && ns[par].children@[t] == ns[j].inode;
                assert(ns[par].children@[t1] == i + 1);
                assert(ns[par].children@[t2] == j + 1);
                assert(t1 != t2);
                if t1 < t2 {
                    assert(ns[ns[par].children@[t1] - 1].name@ != ns[ns[par].children@[t2]
                        - 1].name@);
                } else {
                    assert(ns[ns[par].children@[t2] - 1].name@ != ns[ns[par].children@[t1]
                        - 1].name@);
                }
                assert(false);
            } else {
                if pi < pj {
                    lemma_one_node_per_path(ix, pi - 1, pj - 1);
                } else {
                    lemma_one_node_per_path(ix, pj - 1, pi - 1);
                }
                assert(false);
            }
        }
    }
}

} // verus!
