use vstd::prelude::*;

use crate::arena::{slot_live, slot_val, Arena, Id};
use crate::entry::{
    ev, forest_wf, ids_of, is_anc, lemma_anc_rank, lemma_forest_parents, node_rest_wf, node_wf,
    parents_wf, path_of, DirEntry, EntryView, Slots,
};
use crate::path::{crc16_of, parts_crc, EntryPath, PathCrc};

verus! {

/// Totals of a file tree: bytes under the root, files and directories seen.
#[derive(Clone, Debug)]
pub struct Stats {
    /// Bytes accounted to the root directory.
    pub used_size: u64,
    /// Number of files recorded in the tree.
    pub files: u64,
    /// Number of directories below the root.
    pub dirs: u64,
}

/// How many fingerprint bins the path index holds: one per 16-bit value.
pub const BIN_COUNT: usize = 65536;

/// A directory tree: a root entry, the arena all entries live in, and an
/// index from path fingerprints to the entries that carry them.
pub struct FileTree {
    root: Id,
    arena: Arena<DirEntry>,
    entries: Vec<Vec<Id>>,
    files: u64,
    dirs: u64,
}

impl FileTree {
    /// The slots of the tree's arena.
    pub closed spec fn slots(self) -> Slots {
        self.arena@
    }

    /// The slot of the root entry.
    pub closed spec fn root_slot(self) -> int {
        self.root@
    }

    /// The recorded number of files.
    pub closed spec fn files_count(self) -> u64 {
        self.files
    }

    /// The recorded number of directories below the root.
    pub closed spec fn dirs_count(self) -> u64 {
        self.dirs
    }

    /// The index bin for one fingerprint value.
    pub closed spec fn bin(self, b: int) -> Seq<int> {
        ids_of(self.entries@[b]@)
    }

    /// Well-formedness of the tree: the forest invariants hold, the root is
    /// the one parentless entry, every entry's cached fingerprint extends its
    /// parent's by its own name, and the index holds exactly the live
    /// non-root entries, each in the bin its fingerprint names.
    pub closed spec fn wf(self) -> bool {
        let s = self.slots();
        let root = self.root_slot();
        &&& self.arena.wf()
        &&& forest_wf(s)
        &&& slot_live(s, root)
        &&& ev(s, root).parent is None
        &&& forall|i: int|
            #[trigger] slot_live(s, i) && ev(s, i).parent is None ==> i == root
        &&& forall|i: int|
            #[trigger] slot_live(s, i) ==> match ev(s, i).parent {
                Some(p) => ev(s, i).path_crc == (ev(s, p).path_crc ^ crc16_of(ev(s, i).name)),
                None => ev(s, i).path_crc == crc16_of(ev(s, i).name),
            }
        &&& self.entries@.len() == BIN_COUNT
        &&& forall|b: int, k: int|
            0 <= b < BIN_COUNT && 0 <= k < self.bin(b).len() ==> {
                &&& slot_live(s, #[trigger] self.bin(b)[k])
                &&& self.bin(b)[k] != root
                &&& ev(s, self.bin(b)[k]).path_crc == b
            }
        &&& forall|b: int, k1: int, k2: int|
            0 <= b < BIN_COUNT && 0 <= k1 < k2 < self.bin(b).len() ==> self.bin(b)[k1]
                != self.bin(b)[k2]
        &&& forall|i: int|
            #[trigger] slot_live(s, i) && i != root ==> self.bin(
                ev(s, i).path_crc as int,
            ).contains(i)
    }

    /// Creates a new tree rooted at the given path, holding the root alone.
    #[verifier::spinoff_prover]
    pub fn new(path: String) -> (r: FileTree)
        ensures
            r.wf(),
            r.slots().len() == 1,
            slot_live(r.slots(), r.root_slot()),
            ev(r.slots(), r.root_slot()) == (EntryView {
                name: path@,
                size: 0,
                path_crc: crc16_of(path@),
                parent: None,
                kids: Seq::empty(),
                files: 0,
                marked: false,
                local: 0,
                rank: 0,
            }),
            r.files_count() == 0,
            r.dirs_count() == 0,
    {
        let mut arena: Arena<DirEntry> = Arena::default();
        let root = arena.put(DirEntry::new_dir(path));
        let mut entries: Vec<Vec<Id>> = Vec::new();
        while entries.len() < BIN_COUNT
            invariant
                entries@.len() <= BIN_COUNT,
                forall|b: int| 0 <= b < entries@.len() ==> #[trigger] entries@[b]@.len() == 0,
            decreases BIN_COUNT - entries@.len(),
        {
            entries.push(Vec::new());
        }
        let t = FileTree { root, arena, entries, files: 0, dirs: 0 };
        proof {
            let s = t.slots();
            assert(slot_live(s, root@));
            assert(forall|i: int| #[trigger] slot_live(s, i) ==> i == root@);
            assert forall|i: int| #[trigger] slot_live(s, i) implies node_wf(s, i) by {
                assert(i == root@);
                assert(ev(s, i).kids =~= Seq::<int>::empty());
            }
            assert forall|b: int, k: int|
                0 <= b < BIN_COUNT && 0 <= k < t.bin(b).len() implies !slot_live(
                s,
                #[trigger] t.bin(b)[k],
            ) && false by {
                assert(t.entries@[b]@.len() == 0);
            }
        }
        t
    }

    /// The arena that stores the tree's entries.
    pub fn get_arena(&self) -> (r: &Arena<DirEntry>)
        ensures
            r@ == self.slots(),
    {
        &self.arena
    }

    /// The root entry of the tree.
    pub fn get_root(&self) -> (r: &DirEntry)
        requires
            self.wf(),
        ensures
            *r == slot_val(self.slots(), self.root_slot()),
    {
        self.arena.get(self.root)
    }

    /// The recorded totals of the tree.
    pub fn stats(&self) -> (r: Stats)
        requires
            self.wf(),
        ensures
            r.used_size == ev(self.slots(), self.root_slot()).size,
            r.files == self.files_count(),
            r.dirs == self.dirs_count(),
    {
        proof {
            assert(node_wf(self.slots(), self.root_slot()));
        }
        Stats {
            used_size: self.arena.get(self.root).get_size() as u64,
            files: self.files,
            dirs: self.dirs,
        }
    }

    /// Finds the child of `parent_id` with the given name, using the index
    /// bin that the child's fingerprint names.
    #[verifier::spinoff_prover]
    pub fn find_child(&self, parent_id: Id, name: &str, path_crc: PathCrc) -> (r: Option<Id>)
        requires
            self.wf(),
        ensures
            ({
                let s = self.slots();
                match r {
                    Some(id) => {
                        &&& slot_live(s, id@)
                        &&& ev(s, id@).parent == Some(parent_id@)
                        &&& ev(s, id@).name == name@
                        &&& ev(s, id@).path_crc == path_crc
                    },
                    None => forall|i: int|
                        #[trigger] slot_live(s, i) ==> !(ev(s, i).parent == Some(parent_id@) && ev(
                            s,
                            i,
                        ).name == name@ && ev(s, i).path_crc == path_crc),
                }
            }),
    {
        let ghost s = self.slots();
        let ghost b = path_crc as int;
        let bin = &self.entries[path_crc as usize];
        let n = bin.len();
        let mut k: usize = 0;
        while k < n
            invariant
                self.wf(),
                s == self.slots(),
                b == path_crc as int,
                0 <= b < BIN_COUNT,
                n == self.bin(b).len(),
                bin@ == self.entries@[b]@,
                0 <= k <= n,
                forall|k0: int|
                    0 <= k0 < k ==> !(ev(s, #[trigger] self.bin(b)[k0]).parent == Some(
                        parent_id@,
                    ) && ev(s, self.bin(b)[k0]).name == name@),
            decreases n - k,
        {
            let id = bin[k];
            proof {
                assert(id@ == self.bin(b)[k as int]);
                assert(slot_live(s, id@));
            }
            let e = self.arena.get(id);
            let par = e.get_parent();
            let parent_matches = match par {
                Some(p) => p == parent_id,
                None => false,
            };
            if parent_matches {
                let en = e.get_name();
                if !crate::path::str_lt(en, name) && !crate::path::str_lt(name, en) {
                    proof {
                        crate::path::lemma_text_lt_total(ev(s, id@).name, name@);
                    }
                    return Some(id);
                }
                proof {
                    crate::path::lemma_text_lt_irrefl(name@);
                    assert(ev(s, id@).name != name@);
                }
            } else {
                proof {
                    match par {
                        Some(p) => {
                            crate::arena::lemma_id_view_injective(p, parent_id);
                        },
                        None => {},
                    }
                }
            }
            k = k + 1;
        }
        proof {
            assert forall|i: int| #[trigger] slot_live(s, i) implies !(ev(s, i).parent == Some(
                parent_id@,
            ) && ev(s, i).name == name@ && ev(s, i).path_crc == path_crc) by {
                if ev(s, i).parent == Some(parent_id@) && ev(s, i).name == name@ && ev(
                    s,
                    i,
                ).path_crc == path_crc {
                    assert(i != self.root_slot());
                    assert(self.bin(b).contains(i));
                    let w = choose|w: int| 0 <= w < self.bin(b).len() && self.bin(b)[w] == i;
                    assert(!(ev(s, self.bin(b)[w]).parent == Some(parent_id@) && ev(
                        s,
                        self.bin(b)[w],
                    ).name == name@));
                }
            }
        }
        None
    }

    /// Finds the entry whose full path equals the given path: the root when
    /// the paths match, else a walk of the fingerprint bin the path names.
    #[verifier::spinoff_prover]
    pub fn find_entry(&self, path: &EntryPath) -> (r: Option<Id>)
        requires
            self.wf(),
            path@.len() >= 1,
        ensures
            ({
                let s = self.slots();
                match r {
                    Some(id) => slot_live(s, id@) && path_of(s, id@) == path@,
                    None => forall|i: int|
                        #[trigger] slot_live(s, i) ==> path_of(s, i) != path@,
                }
            }),
    {
        let ghost s = self.slots();
        proof {
            lemma_forest_parents(s);
        }
        let root_entry = self.arena.get(self.root);
        let root_path = root_entry.get_path(&self.arena);
        proof {
            assert(slot_live(s, self.root_slot()) && slot_val(s, self.root_slot())
                == *root_entry);
            assert(root_path@ == path_of(s, self.root_slot() + 0));
        }
        if root_path.eq(path) {
            return Some(self.root);
        }
        let crc = path.get_crc();
        let ghost b = crc as int;
        let bin = &self.entries[crc as usize];
        let n = bin.len();
        let mut k: usize = 0;
        while k < n
            invariant
                self.wf(),
                s == self.slots(),
                path@.len() >= 1,
                b == crc as int,
                crc == parts_crc(path@),
                0 <= b < BIN_COUNT,
                n == self.bin(b).len(),
                bin@ == self.entries@[b]@,
                0 <= k <= n,
                forall|k0: int| 0 <= k0 < k ==> path_of(s, #[trigger] self.bin(b)[k0]) != path@,
            decreases n - k,
        {
            let id = bin[k];
            proof {
                assert(id@ == self.bin(b)[k as int]);
                assert(slot_live(s, id@));
            }
            let e = self.arena.get(id);
            if e.compare_path(&self.arena, path) {
                proof {
                    assert(slot_live(s, id@) && slot_val(s, id@) == *e);
                    assert(path_of(s, id@ + 0) == path@);
                }
                return Some(id);
            }
            proof {
                assert(slot_live(s, id@) && slot_val(s, id@) == *e);
                assert(path_of(s, id@ + 0) != path@);
            }
            k = k + 1;
        }
        proof {
            assert(path_of(s, self.root_slot()) != path@);
            assert forall|i: int| #[trigger] slot_live(s, i) implies path_of(s, i) != path@ by {
                if path_of(s, i) == path@ {
                    assert(i != self.root_slot());
                    lemma_tree_fp_is_fold(self, i);
                    assert(ev(s, i).path_crc == parts_crc(path@));
                    assert(self.bin(b).contains(i));
                    let w = choose|w: int| 0 <= w < self.bin(b).len() && self.bin(b)[w] == i;
                    assert(path_of(s, self.bin(b)[w]) != path@);
                }
            }
        }
        None
    }
}

/// Exclusive-or with zero changes nothing.
proof fn lemma_xor_zero(x: u16)
    ensures
        0u16 ^ x == x,
{
    assert(0u16 ^ x == x) by (bit_vector);
}

/// Law: in a well-formed tree, every entry's cached fingerprint equals the
/// XOR-fold of the per-segment checksums of its full path.
pub proof fn lemma_tree_fp_is_fold(t: &FileTree, i: int)
    requires
        t.wf(),
        slot_live(t.slots(), i),
    ensures
        ev(t.slots(), i).path_crc == parts_crc(path_of(t.slots(), i)),
    decreases ev(t.slots(), i).rank,
{
    let s = t.slots();
    lemma_forest_parents(s);
    assert(node_wf(s, i));
    match ev(s, i).parent {
        Some(p) => {
            lemma_tree_fp_is_fold(t, p);
            assert(path_of(s, i) == path_of(s, p).push(ev(s, i).name));
            assert(path_of(s, i).len() > 0);
            assert(path_of(s, i).drop_last() =~= path_of(s, p));
            assert(path_of(s, i).last() == ev(s, i).name);
            assert(parts_crc(path_of(s, i)) == parts_crc(path_of(s, i).drop_last()) ^ crc16_of(
                path_of(s, i).last(),
            ));
            assert(parts_crc(path_of(s, i).drop_last()) == parts_crc(path_of(s, p)));
            assert(ev(s, i).path_crc == (ev(s, p).path_crc ^ crc16_of(ev(s, i).name)));
        },
        None => {
            assert(path_of(s, i) == seq![ev(s, i).name]);
            assert(path_of(s, i).len() == 1);
            assert(path_of(s, i).drop_last() =~= Seq::<Seq<char>>::empty());
            assert(parts_crc(path_of(s, i)) == parts_crc(path_of(s, i).drop_last()) ^ crc16_of(
                path_of(s, i).last(),
            ));
            assert(parts_crc(Seq::<Seq<char>>::empty()) == 0u16);
            lemma_xor_zero(crc16_of(ev(s, i).name));
            assert(path_of(s, i).last() == ev(s, i).name);
            assert(ev(s, i).path_crc == crc16_of(ev(s, i).name));
        },
    }
}

/// Law: in a well-formed tree, the index is a bijection between the live
/// non-root entries and their bin positions: each bin holds only live
/// entries whose fingerprint names the bin, no entry twice, and every live
/// non-root entry sits in the bin its fingerprint names.
pub proof fn lemma_index_bijection(t: &FileTree)
    requires
        t.wf(),
    ensures
        forall|b: int, k: int|
            0 <= b < 65536 && 0 <= k < t.bin(b).len() ==> {
                &&& slot_live(t.slots(), #[trigger] t.bin(b)[k])
                &&& t.bin(b)[k] != t.root_slot()
                &&& ev(t.slots(), t.bin(b)[k]).path_crc == b
            },
        forall|b: int, k1: int, k2: int|
            0 <= b < 65536 && 0 <= k1 < k2 < t.bin(b).len() ==> t.bin(b)[k1] != t.bin(b)[k2],
        forall|i: int|
            #[trigger] slot_live(t.slots(), i) && i != t.root_slot() ==> t.bin(
                ev(t.slots(), i).path_crc as int,
            ).contains(i),
{
}

} // verus!
