//! Read-only projection of a tar archive as an inode-addressed tree.
//!
//! The archive bytes are decoded once into a list of records, the records
//! are assembled into an immutable index of nodes (synthesizing directories
//! the archive never recorded), and filesystem-style queries — lookup by
//! name, attribute fetch, directory listing, byte-range read — are answered
//! from that index alone. For reads, each record's payload offset was noted
//! during decoding, so the bytes are sliced directly out of the stream.

use vstd::prelude::*;

pub mod arena;
pub mod decode;
pub mod index;

use crate::decode::ArchiveError;
use crate::decode::FileKind;
use crate::decode::copy_range;
use crate::decode::decode;
use crate::decode::lemma_decode_bounds;
use crate::decode::spec_decode;
use crate::index::Index;
use crate::index::IndexEntry;
use crate::index::entries_cover;
use crate::index::has_node_for;
use crate::index::has_node_with_entry;
use crate::index::is_last_at;
use crate::index::is_last_v;
use crate::index::kind_conflict_v;
use crate::index::lemma_provenance_view;
use crate::index::lemma_total_comps_view;
use crate::index::lemma_view_twins;
use crate::index::node_kind_provenance_v;
use crate::index::some_dotdot_v;
use crate::index::spec_components;
use crate::index::total_comps_v;

verus! {

/// Per-call failures: the single "absent" reply, and a read offset past the
/// end of the file.
#[derive(Clone, Copy, PartialEq, Eq, Structural, Debug)]
pub enum FsError {
    NotFound,
    OutOfRange,
}

/// One row of a directory listing.
pub struct DirEntry {
    pub inode: u64,
    pub kind: FileKind,
    pub name: Vec<u8>,
}

/// Mathematical image of a [`DirEntry`].
#[verifier::ext_equal]
pub struct DirEntryV {
    pub inode: u64,
    pub kind: FileKind,
    pub name: Seq<u8>,
}

impl View for DirEntry {
    type V = DirEntryV;

    open spec fn view(&self) -> DirEntryV {
        DirEntryV { inode: self.inode, kind: self.kind, name: self.name@ }
    }
}

/// The read-only filesystem: the archive bytes and the index built from
/// them once. Neither is mutated by any query.
pub struct TarFs {
    pub data: Vec<u8>,
    pub index: Index,
}

/// The complete listing of directory `ino`: `.` and `..` first (the root is
/// its own parent), then the children in discovery order.
pub open spec fn spec_dir_listing(ix: Index, ino: u64) -> Seq<DirEntryV> {
    let n = ix.node(ino);
    seq![
        DirEntryV { inode: ino, kind: FileKind::Directory, name: seq![46u8] },
        DirEntryV {
            inode: if n.parent == 0 {
                ino
            } else {
                n.parent
            },
            kind: FileKind::Directory,
            name: seq![46u8, 46u8],
        },
    ] + Seq::new(
        n.children@.len(),
        |t: int|
            DirEntryV {
                inode: n.children@[t],
                kind: ix.nodes()[n.children@[t] - 1].entry.kind,
                name: ix.nodes()[n.children@[t] - 1].name@,
            },
    )
}

pub open spec fn dir_entries_match(v: Seq<DirEntry>, s: Seq<DirEntryV>) -> bool {
    v.len() == s.len() && (forall|i: int| 0 <= i < v.len() ==> #[trigger] v[i]@ == s[i])
}

/// The exact bytes a read of `size` bytes at `offset` must return: the
/// record's payload from `offset` up to `offset + size`, clipped at the end
/// of the file.
pub open spec fn spec_read_bytes(fs: TarFs, ino: u64, offset: u64, size: u32) -> Seq<u8> {
    let e = fs.index.node(ino).entry;
    let end: int = if offset + size <= e.size {
        offset + size
    } else {
        e.size as int
    };
    fs.data@.subrange(e.offset + offset, e.offset + end)
}

fn clone_dir_entry(e: &DirEntry) -> (r: DirEntry)
    ensures
        r@ == e@,
{
    let name = copy_range(&e.name, 0, e.name.len());
    proof {
        assert(e.name@.subrange(0, e.name@.len() as int) =~= e.name@);
    }
    DirEntry { inode: e.inode, kind: e.kind, name }
}

impl TarFs {
    /// The index is a well-formed tree and every record's payload extent
    /// lies within the archive bytes.
    pub open spec fn wf(self) -> bool {
        &&& self.index.wf()
        &&& forall|i: int|
            0 <= i < self.index.nodes().len() ==> {
                let t = (#[trigger] self.index.nodes()[i]).entry;
                t.offset + t.size <= self.data@.len()
            }
    }

    /// Builds the filesystem from the raw archive bytes: decode the record
    /// stream, then build the index. Construction failures abort before any
    /// query can be served; a partial view is never exposed.
    pub fn new(data: Vec<u8>) -> (r: Result<TarFs, ArchiveError>)
        ensures
            match r {
                Ok(fs) => {
                    let sv = spec_decode(data@)->Ok_0;
                    &&& fs.wf()
                    &&& fs.data@ == data@
                    &&& spec_decode(data@) is Ok
                    &&& (forall|q: int|
                        0 <= q < sv.len() ==> has_node_for(
                            fs.index,
                            spec_components((#[trigger] sv[q]).path),
                        ))
                    &&& !some_dotdot_v(sv)
                    &&& node_kind_provenance_v(fs.index, sv)
                    &&& fs.index.nodes().len() <= 1 + total_comps_v(sv, sv.len() as int)
                    &&& (forall|q: int|
                        0 <= q < sv.len() && spec_components((#[trigger] sv[q]).path).len() > 0
                            && is_last_v(sv, q, sv.len() as int) ==> has_node_with_entry(
                            fs.index,
                            spec_components(sv[q].path),
                            sv[q],
                        ))
                },
                Err(e) => {
                    &&& (spec_decode(data@) matches Err(de) ==> e == de)
                    &&& (spec_decode(data@) is Ok ==> {
                        let sv = spec_decode(data@)->Ok_0;
                        &&& (e == ArchiveError::BadPath || e == ArchiveError::InvalidParent || e
                            == ArchiveError::TooLarge)
                        &&& (e == ArchiveError::BadPath ==> some_dotdot_v(sv))
                        &&& (e == ArchiveError::InvalidParent ==> kind_conflict_v(sv))
                        &&& (e == ArchiveError::TooLarge ==> total_comps_v(sv, sv.len() as int)
                            >= 0xFFFF_FFFF_FFFF_FFFF)
                    })
                },
            },
    {
        let entries = match decode(&data) {
            Ok(v) => v,
            Err(e) => {
                return Err(e);
            },
        };
        let index = match Index::build(&entries) {
            Ok(ix) => ix,
            Err(e) => {
                proof {
                    let sv = spec_decode(data@)->Ok_0;
                    lemma_view_twins(entries@, sv);
                    lemma_total_comps_view(entries@, sv, sv.len() as int);
                }
                return Err(e);
            },
        };
        proof {
            lemma_decode_bounds(data@, 0);
            let sv = spec_decode(data@)->Ok_0;
            assert forall|i: int| 0 <= i < index.nodes().len() implies {
                let t = (#[trigger] index.nodes()[i]).entry;
                t.offset + t.size <= data@.len()
            } by {
                assert(entries_cover(index, entries@));
                let t = index.nodes()[i].entry@;
                if !(t.size == 0 && t.offset == 0) {
                    let k = choose|k: int| 0 <= k < entries@.len() && t == #[trigger] entries@[k]@;
                    assert(entries@[k]@ == sv[k]);
                    assert(sv[k].offset + sv[k].size <= data@.len());
                }
            }
            assert forall|q: int| 0 <= q < sv.len() implies has_node_for(
                index,
                spec_components((#[trigger] sv[q]).path),
            ) by {
                assert(entries@[q]@ == sv[q]);
                assert(entries@[q].path@ == sv[q].path);
                assert(has_node_for(index, spec_components(entries@[q].path@)));
            }
            lemma_view_twins(entries@, sv);
            lemma_total_comps_view(entries@, sv, sv.len() as int);
            lemma_provenance_view(index, entries@, sv);
            assert forall|q: int|
                0 <= q < sv.len() && spec_components((#[trigger] sv[q]).path).len() > 0
                    && is_last_v(sv, q, sv.len() as int) implies has_node_with_entry(
                index,
                spec_components(sv[q].path),
                sv[q],
            ) by {
                assert(entries@[q]@ == sv[q]);
                assert(entries@[q].path@ == sv[q].path);
                assert(is_last_at(entries@, q, entries@.len() as int)) by {
                    assert forall|p: int| q < p < entries@.len() implies spec_components(
                        (#[trigger] entries@[p]).path@,
                    ) != spec_components(entries@[q].path@) by {
                        assert(entries@[p]@ == sv[p]);
                        assert(spec_components(sv[p].path) != spec_components(sv[q].path));
                    }
                }
                assert(has_node_with_entry(index, spec_components(entries@[q].path@), entries@[q]@));
            }
        }
        Ok(TarFs { data, index })
    }

    /// Attribute fetch: the node for `ino`, or not-found for an inode that
    /// was never assigned.
    pub fn getattr(&self, ino: u64) -> (r: Option<&IndexEntry>)
        ensures
            match r {
                Some(e) => self.index.valid_ino(ino) && *e == self.index.node(ino),
                None => !self.index.valid_ino(ino),
            },
    {
        if ino < 1 {
            return None;
        }
        let l: usize = self.index.arena.len();
        if ino > l as u64 {
            return None;
        }
        match self.index.arena.get((ino - 1) as usize) {
            Some(e) => Some(e),
            None => {
                proof {
                    assert(false);
                }
                None
            },
        }
    }

    /// Name lookup under a directory, by `(parent inode, base name)`.
    pub fn lookup(&self, parent_inode: u64, name: &Vec<u8>) -> (r: Option<&IndexEntry>)
        requires
            self.wf(),
        ensures
            match r {
                Some(e) => {
                    &&& self.index.valid_ino(parent_inode)
                    &&& 2 <= e.inode <= self.index.nodes().len()
                    &&& *e == self.index.node(e.inode)
                    &&& e.parent == parent_inode
                    &&& e.name@ == name@
                },
                None => !self.index.valid_ino(parent_inode) || !self.index.has_child(
                    parent_inode,
                    name@,
                ),
            },
    {
        self.index.lookup_child(parent_inode, name)
    }

    /// Directory listing from `cursor` on: the tail of the complete listing
    /// (`.`, `..`, then the children in discovery order). A cursor at or
    /// past the end yields an empty page; an invalid or non-directory inode
    /// yields `None`.
    pub fn readdir(&self, ino: u64, cursor: usize) -> (r: Option<Vec<DirEntry>>)
        requires
            self.wf(),
        ensures
            match r {
                Some(v) => {
                    &&& self.index.valid_ino(ino)
                    &&& self.index.node(ino).entry.kind == FileKind::Directory
                    &&& cursor <= spec_dir_listing(self.index, ino).len() ==> dir_entries_match(
                        v@,
                        spec_dir_listing(self.index, ino).skip(cursor as int),
                    )
                    &&& cursor > spec_dir_listing(self.index, ino).len() ==> v@.len() == 0
                },
                None => !self.index.valid_ino(ino) || self.index.node(ino).entry.kind
                    != FileKind::Directory,
            },
    {
        let ghost listing = spec_dir_listing(self.index, ino);
        let node = match self.getattr(ino) {
            Some(n) => n,
            None => {
                return None;
            },
        };
        if !node.kind_is_dir() {
            return None;
        }
        let mut full: Vec<DirEntry> = Vec::new();
        let mut dot: Vec<u8> = Vec::new();
        dot.push(46);
        let mut dotdot: Vec<u8> = Vec::new();
        dotdot.push(46);
        dotdot.push(46);
        full.push(DirEntry { inode: ino, kind: FileKind::Directory, name: dot });
        let up: u64 = if node.parent == 0 {
            ino
        } else {
            node.parent
        };
        full.push(DirEntry { inode: up, kind: FileKind::Directory, name: dotdot });
        proof {
            assert(full@[0]@ =~= listing[0]);
            assert(full@[1]@ =~= listing[1]);
        }
        let mut t: usize = 0;
        while t < node.children.len()
            invariant
                self.wf(),
                self.index.valid_ino(ino),
                *node == self.index.node(ino),
                listing == spec_dir_listing(self.index, ino),
                0 <= t <= node.children@.len(),
                listing.len() == 2 + node.children@.len(),
                full@.len() == 2 + t,
                forall|q: int| 0 <= q < full@.len() ==> #[trigger] full@[q]@ == listing[q],
            decreases node.children@.len() - t,
        {
            proof {
                assert(crate::index::wf_children_at(self.index.nodes(), ino - 1));
            }
            let c: u64 = node.children[t];
            let l: usize = self.index.arena.len();
            proof {
                assert(2 <= c <= l as u64);
            }
            let child = match self.index.arena.get((c - 1) as usize) {
                Some(n) => n,
                None => {
                    proof {
                        assert(false);
                    }
                    return None;
                },
            };
            let name = copy_range(&child.name, 0, child.name.len());
            proof {
                assert(child.name@.subrange(0, child.name@.len() as int) =~= child.name@);
            }
            full.push(DirEntry { inode: c, kind: child.entry.kind, name });
            proof {
                assert(full@[2 + t]@ =~= listing[2 + t]);
            }
            t = t + 1;
        }
        let mut out: Vec<DirEntry> = Vec::new();
        if cursor > full.len() {
            return Some(out);
        }
        let mut i: usize = cursor;
        while i < full.len()
            invariant
                cursor <= i <= full@.len(),
                full@.len() == listing.len(),
                forall|q: int| 0 <= q < full@.len() ==> #[trigger] full@[q]@ == listing[q],
                out@.len() == i - cursor,
                forall|q: int| 0 <= q < out@.len() ==> #[trigger] out@[q]@ == listing[cursor + q],
            decreases full@.len() - i,
        {
            let e = clone_dir_entry(&full[i]);
            out.push(e);
            i = i + 1;
        }
        proof {
            let sk = listing.skip(cursor as int);
            assert forall|q: int| 0 <= q < out@.len() implies #[trigger] out@[q]@ == sk[q] by {
                assert(out@[q]@ == listing[cursor + q]);
            }
        }
        Some(out)
    }

    /// Byte-range read of a regular file: exactly the payload bytes from
    /// `offset`, clipped at end of file. A directory or other non-regular
    /// inode is an explicit error, never bytes; an offset past the end of
    /// the file is a distinct explicit error.
    pub fn read(&self, ino: u64, offset: u64, size: u32) -> (r: Result<Vec<u8>, FsError>)
        requires
            self.wf(),
        ensures
            match r {
                Ok(v) => {
                    &&& self.index.valid_ino(ino)
                    &&& self.index.node(ino).entry.kind == FileKind::Regular
                    &&& offset <= self.index.node(ino).entry.size
                    &&& v@ == spec_read_bytes(*self, ino, offset, size)
                },
                Err(e) => match e {
                    FsError::NotFound => !self.index.valid_ino(ino) || self.index.node(
                        ino,
                    ).entry.kind != FileKind::Regular,
                    FsError::OutOfRange => self.index.valid_ino(ino) && self.index.node(
                        ino,
                    ).entry.kind == FileKind::Regular && offset > self.index.node(ino).entry.size,
                },
            },
    {
        let node = match self.getattr(ino) {
            Some(n) => n,
            None => {
                return Err(FsError::NotFound);
            },
        };
        if node.entry.kind != FileKind::Regular {
            return Err(FsError::NotFound);
        }
        let fsize: u64 = node.entry.size;
        if offset > fsize {
            return Err(FsError::OutOfRange);
        }
        proof {
            assert(node.entry.offset + node.entry.size <= self.data@.len());
        }
        let dlen: usize = self.data.len();
        let end64: u64 = if (size as u64) <= fsize - offset {
            offset + (size as u64)
        } else {
            fsize
        };
        let start: usize = node.entry.offset + (offset as usize);
        let end: usize = node.entry.offset + (end64 as usize);
        let v = copy_range(&self.data, start, end);
        proof {
            assert(v@ =~= spec_read_bytes(*self, ino, offset, size));
        }
        Ok(v)
    }
}

impl IndexEntry {
    /// True when this node is a directory.
    pub fn kind_is_dir(&self) -> (r: bool)
        ensures
            r == (self.entry.kind == FileKind::Directory),
    {
        self.entry.kind == FileKind::Directory
    }
}

/// Listings are complete and stable: any split of the listing at a cursor
/// concatenates back to the whole, which holds `.`, `..` and then each child
/// exactly once, in discovery order.
pub proof fn lemma_readdir_chunks(ix: Index, ino: u64, c: int)
    requires
        ix.wf(),
        ix.valid_ino(ino),
        0 <= c <= spec_dir_listing(ix, ino).len(),
    ensures
        spec_dir_listing(ix, ino).take(c) + spec_dir_listing(ix, ino).skip(c) == spec_dir_listing(
            ix,
            ino,
        ),
        spec_dir_listing(ix, ino).len() == 2 + ix.node(ino).children@.len(),
        forall|t: int|
            0 <= t < ix.node(ino).children@.len() ==> spec_dir_listing(ix, ino)[t + 2].inode
                == ix.node(ino).children@[t],
{
    let s = spec_dir_listing(ix, ino);
    assert(s.take(c) + s.skip(c) =~= s);
}

/// Reads do not drift: two reads with identical arguments against the same
/// immutable filesystem return identical bytes.
pub proof fn lemma_read_deterministic(
    fs: TarFs,
    ino: u64,
    offset: u64,
    size: u32,
    r1: Seq<u8>,
    r2: Seq<u8>,
)
    requires
        r1 == spec_read_bytes(fs, ino, offset, size),
        r2 == spec_read_bytes(fs, ino, offset, size),
    ensures
        r1 == r2,
{
}

} // verus!
