use vstd::prelude::*;

use crate::arena::{slot_live, slot_val, Arena, Id};
use crate::path::{crc16, crc16_of, text_lt, EntryPath};

verus! {

/// Mathematical view of one directory entry.
#[verifier::ext_equal]
pub struct EntryView {
    /// Name of the directory.
    pub name: Seq<char>,
    /// Total size: the sizes of the child directories plus the local file bytes.
    pub size: int,
    /// Cached fingerprint of the full path.
    pub path_crc: u16,
    /// Slot of the parent directory, if attached.
    pub parent: Option<int>,
    /// Slots of the child directories, sorted by descending size and then by name.
    pub kids: Seq<int>,
    /// Number of direct child files.
    pub files: u32,
    /// Transient mark used while reconciling.
    pub marked: bool,
    /// Bytes of the direct child files.
    pub local: int,
    /// Depth of the entry: zero when detached or a root, one more than the parent otherwise.
    pub rank: nat,
}

/// A directory in the scanned tree.
///
/// Children are kept sorted by size in descending order; children of equal
/// size are sorted by name in ascending order.
pub struct DirEntry {
    name: String,
    size: i64,
    path_crc: u16,
    parent: Option<Id>,
    directories: Vec<Id>,
    files: u32,
    is_marked: bool,
    local: Ghost<int>,
    rank: Ghost<nat>,
}

impl View for DirEntry {
    type V = EntryView;

    closed spec fn view(&self) -> EntryView {
        EntryView {
            name: self.name@,
            size: self.size as int,
            path_crc: self.path_crc,
            parent: match self.parent {
                Some(id) => Some(id@),
                None => None,
            },
            kids: self.directories@.map_values(|x: Id| x@),
            files: self.files,
            marked: self.is_marked,
            local: self.local@,
            rank: self.rank@,
        }
    }
}

/// The slots of an arena of directory entries.
pub type Slots = Seq<Option<DirEntry>>;

/// View of the live entry in slot `i`.
pub open spec fn ev(s: Slots, i: int) -> EntryView
    recommends
        slot_live(s, i),
{
    slot_val(s, i)@
}

/// The stored size of any entry fits the machine word it is kept in.
pub proof fn lemma_view_size_bounded(s: Slots, i: int)
    ensures
        ev(s, i).size <= i64::MAX,
        ev(s, i).size >= i64::MIN,
{
    let e = slot_val(s, i);
    assert(e@.size == e.size as int);
}

/// Strict order on directory keys: larger sizes first, names in ascending
/// order among equal sizes.
pub open spec fn key_lt(size1: int, name1: Seq<char>, size2: int, name2: Seq<char>) -> bool {
    size1 > size2 || (size1 == size2 && text_lt(name1, name2))
}

/// Strict order on sibling entries, by their keys.
pub open spec fn entry_lt(a: EntryView, b: EntryView) -> bool {
    key_lt(a.size, a.name, b.size, b.name)
}

/// Total size of the entries in the given slots.
pub open spec fn kids_size(s: Slots, ks: Seq<int>) -> int
    decreases ks.len(),
{
    if ks.len() == 0 {
        0
    } else {
        kids_size(s, ks.drop_last()) + ev(s, ks.last()).size
    }
}

/// Whether the entries in the given slots are sorted strictly by key.
pub open spec fn kids_sorted(s: Slots, ks: Seq<int>) -> bool {
    forall|j1: int, j2: int|
        0 <= j1 < j2 < ks.len() ==> entry_lt(ev(s, #[trigger] ks[j1]), ev(s, #[trigger] ks[j2]))
}

/// The size of the entry in slot `i` is the sum of its children's sizes and
/// its own file bytes.
pub open spec fn node_sum_ok(s: Slots, i: int) -> bool {
    let e = ev(s, i);
    e.size == kids_size(s, e.kids) + e.local
}

/// Well-formedness of the entry in slot `i`, apart from its size sum: sizes
/// are non-negative, children are sorted, distinct and named apart, and
/// parent and child links agree.
pub open spec fn node_rest_wf(s: Slots, i: int) -> bool {
    let e = ev(s, i);
    &&& e.local >= 0
    &&& e.size >= 0
    &&& kids_sorted(s, e.kids)
    &&& forall|j: int|
        0 <= j < e.kids.len() ==> {
            &&& slot_live(s, #[trigger] e.kids[j])
            &&& ev(s, e.kids[j]).parent == Some(i)
            &&& ev(s, e.kids[j]).rank > e.rank
        }
    &&& forall|j1: int, j2: int|
        0 <= j1 < j2 < e.kids.len() ==> ev(s, #[trigger] e.kids[j1]).name != ev(
            s,
            #[trigger] e.kids[j2],
        ).name
    &&& match e.parent {
        Some(p) => {
            &&& slot_live(s, p)
            &&& ev(s, p).kids.contains(i)
            &&& e.rank > ev(s, p).rank
        },
        None => true,
    }
}

/// Well-formedness of the entry in slot `i`.
pub open spec fn node_wf(s: Slots, i: int) -> bool {
    node_rest_wf(s, i) && node_sum_ok(s, i)
}

/// Well-formedness of a forest of directory entries: every live entry is
/// well-formed.
pub open spec fn forest_wf(s: Slots) -> bool {
    forall|i: int| #[trigger] slot_live(s, i) ==> node_wf(s, i)
}

/// Law: in a well-formed forest, every entry's children are sorted strictly
/// by descending size, with names ascending among equal sizes.
pub proof fn lemma_children_sorted(s: Slots, i: int)
    requires
        forest_wf(s),
        slot_live(s, i),
    ensures
        kids_sorted(s, ev(s, i).kids),
{
    assert(node_wf(s, i));
}

/// Law: in a well-formed forest, every entry's size is the sum of its
/// children's sizes plus its own file bytes, and sizes are never negative.
pub proof fn lemma_size_is_sum(s: Slots, i: int)
    requires
        forest_wf(s),
        slot_live(s, i),
    ensures
        ev(s, i).size == kids_size(s, ev(s, i).kids) + ev(s, i).local,
        ev(s, i).size >= 0,
        ev(s, i).local >= 0,
{
    assert(node_wf(s, i));
}

/// Liveness, parent links and ranks are consistent: enough to walk upward.
pub open spec fn parents_wf(s: Slots) -> bool {
    forall|i: int|
        #[trigger] slot_live(s, i) ==> match ev(s, i).parent {
            Some(p) => slot_live(s, p) && ev(s, i).rank > ev(s, p).rank,
            None => true,
        }
}

/// Well-formedness of a forest whose entry `c` is about to take size `ns`:
/// everything holds but `c`'s stored size, which still awaits the update.
pub open spec fn wf_except(s: Slots, c: int, ns: int) -> bool {
    &&& slot_live(s, c)
    &&& forall|i: int| #[trigger] slot_live(s, i) ==> node_rest_wf(s, i)
    &&& forall|i: int| #[trigger] slot_live(s, i) && i != c ==> node_sum_ok(s, i)
    &&& ns == kids_size(s, ev(s, c).kids) + ev(s, c).local
}

/// Whether the live entry `a` is a proper ancestor of the live entry `d`.
pub open spec fn is_anc(s: Slots, a: int, d: int) -> bool
    decreases (if slot_live(s, d) {
        ev(s, d).rank
    } else {
        0
    })
        when parents_wf(s)
{
    slot_live(s, d) && match ev(s, d).parent {
        Some(p) => p == a || is_anc(s, a, p),
        None => false,
    }
}

/// The slot of the root of the tree that the live entry `i` belongs to.
pub open spec fn root_of(s: Slots, i: int) -> int
    decreases (if slot_live(s, i) {
        ev(s, i).rank
    } else {
        0
    })
        when parents_wf(s)
{
    if slot_live(s, i) {
        match ev(s, i).parent {
            Some(p) => root_of(s, p),
            None => i,
        }
    } else {
        i
    }
}

/// The full path of the live entry `i`: the names on the walk from its root
/// down to the entry.
pub open spec fn path_of(s: Slots, i: int) -> Seq<Seq<char>>
    decreases (if slot_live(s, i) {
        ev(s, i).rank
    } else {
        0
    })
        when parents_wf(s)
{
    if slot_live(s, i) {
        match ev(s, i).parent {
            Some(p) => path_of(s, p).push(ev(s, i).name),
            None => seq![ev(s, i).name],
        }
    } else {
        Seq::empty()
    }
}

/// The sibling-key order is transitive.
pub proof fn lemma_key_lt_trans(
    s1: int,
    n1: Seq<char>,
    s2: int,
    n2: Seq<char>,
    s3: int,
    n3: Seq<char>,
)
    requires
        key_lt(s1, n1, s2, n2),
        key_lt(s2, n2, s3, n3),
    ensures
        key_lt(s1, n1, s3, n3),
{
    if s1 == s2 && s2 == s3 {
        crate::path::lemma_text_lt_trans(n1, n2, n3);
    }
}

/// Two keys that neither orders below the other are equal.
pub proof fn lemma_key_lt_total(s1: int, n1: Seq<char>, s2: int, n2: Seq<char>)
    ensures
        !key_lt(s1, n1, s2, n2) && !key_lt(s2, n2, s1, n1) ==> s1 == s2 && n1 == n2,
{
    crate::path::lemma_text_lt_total(n1, n2);
}

/// The total size of a run of entries does not depend on slots outside the run.
pub proof fn lemma_kids_size_frame(s0: Slots, s1: Slots, ks: Seq<int>)
    requires
        forall|j: int| 0 <= j < ks.len() ==> ev(s1, #[trigger] ks[j]).size == ev(s0, ks[j]).size,
    ensures
        kids_size(s1, ks) == kids_size(s0, ks),
    decreases ks.len(),
{
    if ks.len() > 0 {
        lemma_kids_size_frame(s0, s1, ks.drop_last());
    }
}

/// Every entry of a run of non-negative sizes weighs no more than the total.
pub proof fn lemma_kids_size_bounds(s: Slots, ks: Seq<int>, j: int)
    requires
        0 <= j < ks.len(),
        forall|k: int| 0 <= k < ks.len() ==> ev(s, #[trigger] ks[k]).size >= 0,
    ensures
        kids_size(s, ks) >= ev(s, ks[j]).size >= 0,
    decreases ks.len(),
{
    lemma_kids_size_nonneg(s, ks);
    if j == ks.len() - 1 {
        lemma_kids_size_nonneg(s, ks.drop_last());
    } else {
        lemma_kids_size_bounds(s, ks.drop_last(), j);
    }
}

/// A run of non-negative sizes has a non-negative total.
pub proof fn lemma_kids_size_nonneg(s: Slots, ks: Seq<int>)
    requires
        forall|k: int| 0 <= k < ks.len() ==> ev(s, #[trigger] ks[k]).size >= 0,
    ensures
        kids_size(s, ks) >= 0,
    decreases ks.len(),
{
    if ks.len() > 0 {
        lemma_kids_size_nonneg(s, ks.drop_last());
    }
}

/// Removing the entry at index `j` lowers the total by that entry's size.
pub proof fn lemma_kids_size_remove(s: Slots, ks: Seq<int>, j: int)
    requires
        0 <= j < ks.len(),
    ensures
        kids_size(s, ks.remove(j)) == kids_size(s, ks) - ev(s, ks[j]).size,
    decreases ks.len(),
{
    if j == ks.len() - 1 {
        assert(ks.remove(j) =~= ks.drop_last());
    } else {
        lemma_kids_size_remove(s, ks.drop_last(), j);
        assert(ks.remove(j).drop_last() =~= ks.drop_last().remove(j));
        assert(ks.remove(j).last() == ks.last());
    }
}

/// Inserting an entry at index `j` raises the total by that entry's size.
pub proof fn lemma_kids_size_insert(s: Slots, ks: Seq<int>, j: int, x: int)
    requires
        0 <= j <= ks.len(),
    ensures
        kids_size(s, ks.insert(j, x)) == kids_size(s, ks) + ev(s, x).size,
    decreases ks.len(),
{
    if j == ks.len() {
        assert(ks.insert(j, x).drop_last() =~= ks);
        assert(ks.insert(j, x).last() == x);
    } else {
        lemma_kids_size_insert(s, ks.drop_last(), j, x);
        assert(ks.insert(j, x).drop_last() =~= ks.drop_last().insert(j, x));
        assert(ks.insert(j, x).last() == ks.last());
    }
}

/// The slots named by a vector of ids.
pub open spec fn ids_of(ks: Seq<Id>) -> Seq<int> {
    ks.map_values(|x: Id| x@)
}

/// Ancestry only depends on liveness and the parent links along the chain.
pub proof fn lemma_anc_frame(s0: Slots, s1: Slots, a: int, d: int)
    requires
        parents_wf(s0),
        parents_wf(s1),
        forall|j: int| slot_live(s1, j) <==> slot_live(s0, j),
        slot_live(s0, d) ==> ev(s1, d).parent == ev(s0, d).parent,
        forall|j: int|
            slot_live(s0, j) && #[trigger] is_anc(s0, j, d) ==> ev(s1, j).parent == ev(
                s0,
                j,
            ).parent,
    ensures
        is_anc(s1, a, d) == is_anc(s0, a, d),
        root_of(s1, d) == root_of(s0, d),
    decreases (if slot_live(s0, d) {
        ev(s0, d).rank
    } else {
        0
    }),
{
    if slot_live(s0, d) {
        match ev(s0, d).parent {
            Some(p) => {
                lemma_anc_step(s0, p, d, p);
                assert forall|j: int|
                    slot_live(s0, j) && #[trigger] is_anc(s0, j, p) implies ev(s1, j).parent == ev(
                    s0,
                    j,
                ).parent by {
                    lemma_anc_step(s0, j, d, p);
                }
                lemma_anc_frame(s0, s1, a, p);
            },
            None => {},
        }
    }
}
/// A forest that is well-formed has consistent parent links.
pub proof fn lemma_forest_parents(s: Slots)
    requires
        forall|i: int| #[trigger] slot_live(s, i) ==> node_rest_wf(s, i),
    ensures
        parents_wf(s),
{
    assert forall|i: int| #[trigger] slot_live(s, i) implies match ev(s, i).parent {
        Some(p) => slot_live(s, p) && ev(s, i).rank > ev(s, p).rank,
        None => true,
    } by {
        assert(node_rest_wf(s, i));
    }
}

/// A proper ancestor sits strictly above its descendant.
pub proof fn lemma_anc_rank(s: Slots, a: int, d: int)
    requires
        parents_wf(s),
        is_anc(s, a, d),
    ensures
        slot_live(s, a),
        ev(s, a).rank < ev(s, d).rank,
    decreases ev(s, d).rank,
{
    match ev(s, d).parent {
        Some(p) => {
            if p != a {
                lemma_anc_rank(s, a, p);
            }
        },
        None => {},
    }
}

/// Ancestry steps through the parent: the ancestors of an entry are its
/// parent and the parent's ancestors.
pub proof fn lemma_anc_step(s: Slots, a: int, d: int, p: int)
    requires
        parents_wf(s),
        slot_live(s, d),
        ev(s, d).parent == Some(p),
    ensures
        is_anc(s, a, d) == (a == p || is_anc(s, a, p)),
{
}

/// Within one tree, an entry weighs no more than its root, as long as the
/// size sums hold on the walk from the entry to its root.
pub proof fn lemma_chain_size(s: Slots, i: int)
    requires
        slot_live(s, i),
        forall|j: int| #[trigger] slot_live(s, j) ==> node_rest_wf(s, j),
        forall|j: int|
            slot_live(s, j) && (j == i || #[trigger] is_anc(s, j, i)) ==> node_sum_ok(s, j),
    ensures
        ev(s, i).size <= ev(s, root_of(s, i)).size,
        slot_live(s, root_of(s, i)),
        ev(s, root_of(s, i)).parent is None,
        is_anc(s, root_of(s, i), i) || root_of(s, i) == i,
    decreases ev(s, i).rank,
{
    lemma_forest_parents(s);
    assert(node_rest_wf(s, i));
    match ev(s, i).parent {
        Some(p) => {
            lemma_anc_step(s, p, i, p);
            assert(is_anc(s, p, i));
            assert(node_rest_wf(s, p));
            assert(node_sum_ok(s, p));
            let ks = ev(s, p).kids;
            let j = choose|j: int| 0 <= j < ks.len() && ks[j] == i;
            assert(ks.contains(i));
            assert(0 <= j < ks.len() && ks[j] == i);
            assert(forall|k: int| 0 <= k < ks.len() ==> ev(s, #[trigger] ks[k]).size >= 0) by {
                assert forall|k: int| 0 <= k < ks.len() implies ev(s, #[trigger] ks[k]).size
                    >= 0 by {
                    assert(slot_live(s, ks[k]));
                    assert(node_rest_wf(s, ks[k]));
                }
            }
            lemma_kids_size_bounds(s, ks, j);
            assert(ev(s, i).size <= ev(s, p).size);
            assert forall|j2: int|
                slot_live(s, j2) && (j2 == p || #[trigger] is_anc(s, j2, p)) implies node_sum_ok(
                s,
                j2,
            ) by {
                lemma_anc_step(s, j2, i, p);
            }
            lemma_chain_size(s, p);
            lemma_anc_step(s, root_of(s, p), i, p);
        },
        None => {},
    }
}

/// The split of a run at an index splits its total.
pub proof fn lemma_kids_size_split(s: Slots, ks: Seq<int>, i: int)
    requires
        0 <= i <= ks.len(),
    ensures
        kids_size(s, ks) == kids_size(s, ks.take(i)) + kids_size(s, ks.skip(i)),
    decreases ks.len() - i,
{
    if i == ks.len() {
        assert(ks.take(i) =~= ks);
        assert(ks.skip(i) =~= Seq::<int>::empty());
    } else {
        lemma_kids_size_split(s, ks, i + 1);
        assert(ks.take(i + 1).drop_last() =~= ks.take(i));
        assert(ks.take(i + 1).last() == ks[i]);
        lemma_kids_size_head(s, ks.skip(i));
        assert(ks.skip(i)[0] == ks[i]);
        assert(ks.skip(i).skip(1) =~= ks.skip(i + 1));
    }
}

/// The total of a non-empty run is its first entry plus the rest.
pub proof fn lemma_kids_size_head(s: Slots, ks: Seq<int>)
    requires
        ks.len() > 0,
    ensures
        kids_size(s, ks) == ev(s, ks[0]).size + kids_size(s, ks.skip(1)),
    decreases ks.len(),
{
    if ks.len() == 1 {
        assert(ks.skip(1) =~= Seq::<int>::empty());
        assert(ks.drop_last() =~= Seq::<int>::empty());
    } else {
        lemma_kids_size_head(s, ks.drop_last());
        assert(ks.drop_last()[0] == ks[0]);
        assert(ks.skip(1).drop_last() =~= ks.drop_last().skip(1));
        assert(ks.skip(1).last() == ks.last());
    }
}

/// A run keeps distinct names when one entry is removed.
pub proof fn lemma_names_distinct_remove(s: Slots, ks: Seq<int>, j: int)
    requires
        0 <= j < ks.len(),
        forall|a: int, b: int|
            0 <= a < b < ks.len() ==> ev(s, #[trigger] ks[a]).name != ev(s, #[trigger] ks[b]).name,
    ensures
        forall|a: int, b: int|
            0 <= a < b < ks.remove(j).len() ==> ev(s, #[trigger] ks.remove(j)[a]).name != ev(
                s,
                #[trigger] ks.remove(j)[b],
            ).name,
{
    let r = ks.remove(j);
    assert forall|a: int, b: int| 0 <= a < b < r.len() implies ev(s, #[trigger] r[a]).name != ev(
        s,
        #[trigger] r[b],
    ).name by {
        let a0: int = if a < j {
            a
        } else {
            a + 1
        };
        let b0: int = if b < j {
            b
        } else {
            b + 1
        };
        assert(r[a] == ks[a0]);
        assert(r[b] == ks[b0]);
    }
}

/// A run keeps distinct names when an entry with a fresh name is inserted.
pub proof fn lemma_names_distinct_insert(s: Slots, ks: Seq<int>, pos: int, x: int)
    requires
        0 <= pos <= ks.len(),
        forall|a: int, b: int|
            0 <= a < b < ks.len() ==> ev(s, #[trigger] ks[a]).name != ev(s, #[trigger] ks[b]).name,
        forall|a: int| 0 <= a < ks.len() ==> ev(s, #[trigger] ks[a]).name != ev(s, x).name,
    ensures
        forall|a: int, b: int|
            0 <= a < b < ks.insert(pos, x).len() ==> ev(s, #[trigger] ks.insert(pos, x)[a]).name
                != ev(s, #[trigger] ks.insert(pos, x)[b]).name,
{
    let r = ks.insert(pos, x);
    assert forall|a: int, b: int| 0 <= a < b < r.len() implies ev(s, #[trigger] r[a]).name != ev(
        s,
        #[trigger] r[b],
    ).name by {
        if a < pos {
            assert(r[a] == ks[a]);
        } else if a == pos {
            assert(r[a] == x);
        } else {
            assert(r[a] == ks[a - 1]);
        }
        if b < pos {
            assert(r[b] == ks[b]);
        } else if b == pos {
            assert(r[b] == x);
        } else {
            assert(r[b] == ks[b - 1]);
        }
    }
}

/// How one entry relates across a size change of entry `c` to new size `ns`
/// with new file bytes `lc`: the entry keeps its fields; `c` takes the new
/// size and file bytes; ancestors of `c` carry the size delta and may have
/// their children reordered; nobody else moves.
pub open spec fn same_entry_resized(s0: Slots, s1: Slots, j: int, c: int, ns: int, lc: int) -> bool {
    let e0 = ev(s0, j);
    let e1 = ev(s1, j);
    &&& e1.name == e0.name
    &&& e1.path_crc == e0.path_crc
    &&& e1.parent == e0.parent
    &&& e1.files == e0.files
    &&& e1.marked == e0.marked
    &&& e1.rank == e0.rank
    &&& e1.local == (if j == c {
        lc
    } else {
        e0.local
    })
    &&& e1.size == (if j == c {
        ns
    } else if is_anc(s0, j, c) {
        e0.size + ns - ev(s0, c).size
    } else {
        e0.size
    })
    &&& e1.kids.len() == e0.kids.len()
    &&& forall|x: int| e1.kids.contains(x) <==> e0.kids.contains(x)
    &&& (!is_anc(s0, j, c) ==> e1.kids == e0.kids)
}

/// Relation between the slots before and after the entry `c` took size `ns`
/// and file bytes `lc`.
pub open spec fn resized(s0: Slots, s1: Slots, c: int, ns: int, lc: int) -> bool {
    &&& s1.len() == s0.len()
    &&& forall|j: int| slot_live(s1, j) <==> slot_live(s0, j)
    &&& forall|j: int| #[trigger] slot_live(s0, j) ==> same_entry_resized(s0, s1, j, c, ns, lc)
}

/// A run stays sorted when one entry is removed.
pub proof fn lemma_sorted_remove(s: Slots, ks: Seq<int>, j: int)
    requires
        kids_sorted(s, ks),
        0 <= j < ks.len(),
    ensures
        kids_sorted(s, ks.remove(j)),
{
    let r = ks.remove(j);
    assert forall|a: int, b: int| 0 <= a < b < r.len() implies entry_lt(
        ev(s, #[trigger] r[a]),
        ev(s, #[trigger] r[b]),
    ) by {
        let a0: int = if a < j {
            a
        } else {
            a + 1
        };
        let b0: int = if b < j {
            b
        } else {
            b + 1
        };
        assert(r[a] == ks[a0]);
        assert(r[b] == ks[b0]);
    }
}

/// A run stays sorted when an entry is inserted where it belongs.
pub proof fn lemma_sorted_insert(s: Slots, ks: Seq<int>, pos: int, x: int)
    requires
        kids_sorted(s, ks),
        0 <= pos <= ks.len(),
        forall|j: int| 0 <= j < pos ==> entry_lt(ev(s, #[trigger] ks[j]), ev(s, x)),
        forall|j: int| pos <= j < ks.len() ==> entry_lt(ev(s, x), ev(s, #[trigger] ks[j])),
    ensures
        kids_sorted(s, ks.insert(pos, x)),
{
    let r = ks.insert(pos, x);
    assert forall|a: int, b: int| 0 <= a < b < r.len() implies entry_lt(
        ev(s, #[trigger] r[a]),
        ev(s, #[trigger] r[b]),
    ) by {
        if a < pos {
            assert(r[a] == ks[a]);
        } else if a == pos {
            assert(r[a] == x);
        } else {
            assert(r[a] == ks[a - 1]);
        }
        if b < pos {
            assert(r[b] == ks[b]);
        } else if b == pos {
            assert(r[b] == x);
        } else {
            assert(r[b] == ks[b - 1]);
        }
    }
}

/// Finds the position of an id in a run of ids.
fn find_id_pos(ks: &[Id], id: Id) -> (r: usize)
    requires
        ids_of(ks@).contains(id@),
    ensures
        0 <= r < ks@.len(),
        ks@[r as int] == id,
{
    let mut i: usize = 0;
    loop
        invariant
            0 <= i <= ks@.len(),
            ids_of(ks@).contains(id@),
            forall|j: int| 0 <= j < i ==> ids_of(ks@)[j] != id@,
        decreases ks@.len() - i,
    {
        if i < ks.len() {
            if ks[i] == id {
                return i;
            }
            proof {
                assert(ids_of(ks@)[i as int] == ks@[i as int]@);
                crate::arena::lemma_id_view_injective(ks@[i as int], id);
            }
            i = i + 1;
        } else {
            proof {
                let w = choose|w: int| 0 <= w < ids_of(ks@).len() && ids_of(ks@)[w] == id@;
                assert(false);
            }
            return 0;
        }
    }
}

/// Counts the siblings whose key orders before the given key.
fn find_pos(arena: &Arena<DirEntry>, ks: &[Id], size: i64, name: &str) -> (r: usize)
    requires
        forall|j: int| 0 <= j < ks@.len() ==> slot_live(arena@, #[trigger] ids_of(ks@)[j]),
        kids_sorted(arena@, ids_of(ks@)),
    ensures
        0 <= r <= ks@.len(),
        forall|j: int|
            0 <= j < r ==> key_lt(
                ev(arena@, #[trigger] ids_of(ks@)[j]).size,
                ev(arena@, ids_of(ks@)[j]).name,
                size as int,
                name@,
            ),
        forall|j: int|
            r <= j < ks@.len() ==> !key_lt(
                ev(arena@, #[trigger] ids_of(ks@)[j]).size,
                ev(arena@, ids_of(ks@)[j]).name,
                size as int,
                name@,
            ),
{
    let ghost s = arena@;
    let ghost ids = ids_of(ks@);
    let mut i: usize = 0;
    loop
        invariant
            0 <= i <= ks@.len(),
            s == arena@,
            ids == ids_of(ks@),
            forall|j: int| 0 <= j < ks@.len() ==> slot_live(s, #[trigger] ids[j]),
            kids_sorted(s, ids),
            forall|j: int|
                0 <= j < i ==> key_lt(
                    ev(s, #[trigger] ids[j]).size,
                    ev(s, ids[j]).name,
                    size as int,
                    name@,
                ),
        decreases ks@.len() - i,
    {
        if i < ks.len() {
            proof {
                assert(ids[i as int] == ks@[i as int]@);
            }
            let e = arena.get(ks[i]);
            let before = e.get_size() > size || (e.get_size() == size && crate::path::str_lt(
                e.get_name(),
                name,
            ));
            if !before {
                proof {
                    assert forall|j: int| i <= j < ks@.len() implies !key_lt(
                        ev(s, #[trigger] ids[j]).size,
                        ev(s, ids[j]).name,
                        size as int,
                        name@,
                    ) by {
                        if j > i && key_lt(ev(s, ids[j]).size, ev(s, ids[j]).name, size as int, name@) {
                            assert(entry_lt(ev(s, ids[i as int]), ev(s, ids[j])));
                            lemma_key_lt_trans(
                                ev(s, ids[i as int]).size,
                                ev(s, ids[i as int]).name,
                                ev(s, ids[j]).size,
                                ev(s, ids[j]).name,
                                size as int,
                                name@,
                            );
                        }
                    }
                }
                return i;
            }
            i = i + 1;
        } else {
            return i;
        }
    }
}

/// Sibling order only reads sizes and names: a run sorted in one state is
/// sorted in another where its members keep both.
proof fn lemma_sorted_frame(s2: Slots, s3: Slots, ks: Seq<int>)
    requires
        kids_sorted(s2, ks),
        forall|k: int|
            0 <= k < ks.len() ==> ev(s3, #[trigger] ks[k]).size == ev(s2, ks[k]).size && ev(
                s3,
                ks[k],
            ).name == ev(s2, ks[k]).name,
    ensures
        kids_sorted(s3, ks),
{
    assert forall|a: int, b: int| 0 <= a < b < ks.len() implies entry_lt(
        ev(s3, #[trigger] ks[a]),
        ev(s3, #[trigger] ks[b]),
    ) by {
        assert(entry_lt(ev(s2, ks[a]), ev(s2, ks[b])));
    }
}

/// Removing an entry from a run and inserting it elsewhere keeps the members.
proof fn lemma_contains_shuffle(
    ks0: Seq<int>,
    ks1: Seq<int>,
    ks2: Seq<int>,
    p0: int,
    p1: int,
    c: int,
)
    requires
        0 <= p0 < ks0.len(),
        ks0[p0] == c,
        ks1 == ks0.remove(p0),
        0 <= p1 <= ks1.len(),
        ks2 == ks1.insert(p1, c),
    ensures
        forall|x: int| ks2.contains(x) <==> ks0.contains(x),
        ks2.len() == ks0.len(),
{
    assert forall|x: int| ks2.contains(x) <==> ks0.contains(x) by {
        if ks2.contains(x) {
            let a = choose|a: int| 0 <= a < ks2.len() && ks2[a] == x;
            if a == p1 {
                assert(ks0[p0] == x);
            } else {
                let a1: int = if a < p1 {
                    a
                } else {
                    a - 1
                };
                assert(ks1[a1] == x);
                let a0: int = if a1 < p0 {
                    a1
                } else {
                    a1 + 1
                };
                assert(ks0[a0] == x);
            }
            assert(ks0.contains(x));
        }
        if ks0.contains(x) {
            let a = choose|a: int| 0 <= a < ks0.len() && ks0[a] == x;
            if a == p0 {
                assert(ks2[p1] == x);
            } else {
                let a1: int = if a < p0 {
                    a
                } else {
                    a - 1
                };
                assert(ks1[a1] == x);
                let a2: int = if a1 < p1 {
                    a1
                } else {
                    a1 + 1
                };
                assert(ks2[a2] == x);
            }
            assert(ks2.contains(x));
        }
    }
}

/// After the child's size was written and the parent's kid list reordered,
/// everything is well-formed but the parent's own stale size.
#[verifier::rlimit(100)]
#[verifier::spinoff_prover]
proof fn lemma_establish_wf_except(
    s0: Slots,
    s3: Slots,
    en: int,
    c: int,
    ns: int,
    ks0: Seq<int>,
    ks2: Seq<int>,
)
    requires
        wf_except(s0, c, ns),
        ev(s0, c).parent == Some(en),
        ks0 == ev(s0, en).kids,
        ks2.len() == ks0.len(),
        forall|x: int| ks2.contains(x) <==> ks0.contains(x),
        ks2.contains(c),
        kids_sorted(s3, ks2),
        forall|a: int, b: int|
            0 <= a < b < ks2.len() ==> ev(s3, #[trigger] ks2[a]).name != ev(
                s3,
                #[trigger] ks2[b],
            ).name,
        kids_size(s3, ks2) == kids_size(s0, ks0) + ns - ev(s0, c).size,
        forall|j: int| slot_live(s3, j) <==> slot_live(s0, j),
        forall|j: int| #[trigger] slot_live(s0, j) && j != en && j != c ==> ev(s3, j) == ev(s0, j),
        ev(s3, en) == (EntryView { kids: ks2, ..ev(s0, en) }),
        ev(s3, c) == (EntryView { size: ns, ..ev(s0, c) }),
        en != c,
        ns >= 0,
    ensures
        wf_except(s3, en, ev(s0, en).size + ns - ev(s0, c).size),
{
    assert(slot_live(s0, en));
    assert(node_rest_wf(s0, en));
    assert(node_rest_wf(s0, c));
    assert forall|i: int| #[trigger] slot_live(s3, i) implies node_rest_wf(s3, i) by {
        assert(slot_live(s0, i));
        assert(node_rest_wf(s0, i));
        let e0 = ev(s0, i);
        let e3 = ev(s3, i);
        // the members of anyone's kid list keep name, parent, rank and
        // liveness; only the child's size changed, and it sits only in the
        // parent's list
        assert forall|k: int| 0 <= k < e3.kids.len() implies {
            &&& slot_live(s3, #[trigger] e3.kids[k])
            &&& ev(s3, e3.kids[k]).parent == Some(i)
            &&& ev(s3, e3.kids[k]).rank > e3.rank
        } by {
            if i == en {
                assert(ks0.contains(ks2[k]));
                let a = choose|a: int| 0 <= a < ks0.len() && ks0[a] == ks2[k];
                assert(slot_live(s0, ks0[a]));
                assert(ev(s0, ks0[a]).parent == Some(en));
            } else {
                assert(e3.kids == e0.kids);
                assert(slot_live(s0, e0.kids[k]));
                if e0.kids[k] == c {
                    assert(ev(s0, c).parent == Some(i));
                    assert(i == en);
                }
            }
        }
        assert(kids_sorted(s3, e3.kids)) by {
            if i == en {
            } else {
                assert forall|a: int, b: int| 0 <= a < b < e3.kids.len() implies entry_lt(
                    ev(s3, #[trigger] e3.kids[a]),
                    ev(s3, #[trigger] e3.kids[b]),
                ) by {
                    assert(entry_lt(ev(s0, e0.kids[a]), ev(s0, e0.kids[b])));
                    assert(slot_live(s0, e0.kids[a]));
                    assert(ev(s0, e0.kids[a]).parent == Some(i));
                    assert(slot_live(s0, e0.kids[b]));
                    assert(ev(s0, e0.kids[b]).parent == Some(i));
                    if e0.kids[a] == c || e0.kids[b] == c {
                        assert(i == en);
                    }
                    assert(ev(s3, e0.kids[a]).size == ev(s0, e0.kids[a]).size);
                    assert(ev(s3, e0.kids[a]).name == ev(s0, e0.kids[a]).name);
                    assert(ev(s3, e0.kids[b]).size == ev(s0, e0.kids[b]).size);
                    assert(ev(s3, e0.kids[b]).name == ev(s0, e0.kids[b]).name);
                }
            }
        }
        assert forall|a: int, b: int| 0 <= a < b < e3.kids.len() implies ev(
            s3,
            #[trigger] e3.kids[a],
        ).name != ev(s3, #[trigger] e3.kids[b]).name by {
            if i != en {
                assert(ev(s0, e0.kids[a]).name != ev(s0, e0.kids[b]).name);
                assert(slot_live(s0, e0.kids[a]));
                assert(slot_live(s0, e0.kids[b]));
            }
        }
        // the parent link
        match e3.parent {
            Some(p) => {
                assert(e0.parent == Some(p));
                assert(slot_live(s0, p));
                assert(ev(s0, p).kids.contains(i));
                if p == en {
                    assert(ks2.contains(i));
                } else {
                    assert(ev(s3, p).kids == ev(s0, p).kids);
                }
                assert(ev(s3, p).rank == ev(s0, p).rank);
            },
            None => {},
        }
    }
    assert forall|i: int| #[trigger] slot_live(s3, i) && i != en implies node_sum_ok(s3, i) by {
        assert(slot_live(s0, i));
        assert(node_rest_wf(s0, i));
        let e0 = ev(s0, i);
        let e3 = ev(s3, i);
        if i != c {
            assert(node_sum_ok(s0, i));
        }
        assert(e3.kids == e0.kids);
        assert forall|k: int| 0 <= k < e0.kids.len() implies ev(s3, #[trigger] e0.kids[k]).size
            == ev(s0, e0.kids[k]).size by {
            assert(slot_live(s0, e0.kids[k]));
            assert(ev(s0, e0.kids[k]).parent == Some(i));
            if e0.kids[k] == c {
                assert(i == en);
            }
        }
        lemma_kids_size_frame(s0, s3, e0.kids);
    }
    assert(node_sum_ok(s0, en));
}

/// Common frame facts tying the reordered state to the starting state.
pub open spec fn reorder_frame(
    s0: Slots,
    s3: Slots,
    en: int,
    c: int,
    ns: int,
    ks0: Seq<int>,
    ks2: Seq<int>,
) -> bool {
    &&& slot_live(s0, c)
    &&& slot_live(s0, en)
    &&& en != c
    &&& ev(s0, c).parent == Some(en)
    &&& ks0 == ev(s0, en).kids
    &&& ks2.len() == ks0.len()
    &&& (forall|x: int| ks2.contains(x) <==> ks0.contains(x))
    &&& s3.len() == s0.len()
    &&& (forall|j: int| slot_live(s3, j) <==> slot_live(s0, j))
    &&& (forall|j: int|
        #[trigger] slot_live(s0, j) && j != en && j != c ==> ev(s3, j) == ev(s0, j))
    &&& ev(s3, en) == (EntryView { kids: ks2, ..ev(s0, en) })
    &&& ev(s3, c) == (EntryView { size: ns, ..ev(s0, c) })
}

/// Composes the reorder step with the cascade that ran above it.
#[verifier::rlimit(100)]
#[verifier::spinoff_prover]
proof fn lemma_compose_resized(
    s0: Slots,
    s3: Slots,
    s4: Slots,
    c: int,
    en: int,
    ns: int,
    ns_p: int,
    ks0: Seq<int>,
    ks2: Seq<int>,
)
    requires
        parents_wf(s0),
        parents_wf(s3),
        ev(s0, c).rank > ev(s0, en).rank,
        reorder_frame(s0, s3, en, c, ns, ks0, ks2),
        ns_p == ev(s0, en).size + ns - ev(s0, c).size,
        resized(s3, s4, en, ns_p, ev(s0, en).local),
    ensures
        resized(s0, s4, c, ns, ev(s0, c).local),
{
    assert forall|j: int| slot_live(s4, j) <==> slot_live(s0, j) by {}
    assert forall|j: int| #[trigger] slot_live(s0, j) implies same_entry_resized(
        s0,
        s4,
        j,
        c,
        ns,
        ev(s0, c).local,
    ) by {
        assert(slot_live(s3, j));
        assert(same_entry_resized(s3, s4, j, en, ns_p, ev(s0, en).local));
        lemma_anc_frame(s0, s3, j, en);
        lemma_anc_step(s0, j, c, en);
        if j == c {
            assert(!is_anc(s3, c, en)) by {
                if is_anc(s3, c, en) {
                    lemma_anc_rank(s3, c, en);
                    assert(ev(s3, en).rank == ev(s0, en).rank);
                    assert(ev(s3, c).rank == ev(s0, c).rank);
                }
            }
            assert(!is_anc(s0, c, c)) by {
                if is_anc(s0, c, c) {
                    lemma_anc_rank(s0, c, c);
                }
            }
            assert(ev(s4, c) == ev(s3, c));
        } else if j == en {
            assert(is_anc(s0, en, c));
            assert(ev(s4, en).size == ns_p);
        } else if is_anc(s0, j, en) {
            assert(is_anc(s3, j, en));
            assert(is_anc(s0, j, c));
            assert(ev(s4, j).size == ev(s3, j).size + ns_p - ev(s3, en).size);
            assert(ev(s3, j) == ev(s0, j));
            assert(ev(s3, en).size == ev(s0, en).size);
        } else {
            assert(!is_anc(s3, j, en));
            assert(!is_anc(s0, j, c));
            assert(ev(s4, j).kids == ev(s3, j).kids);
            assert(ev(s3, j) == ev(s0, j));
        }
    }
}

/// After a root's stale size is written, the forest is well-formed again.
#[verifier::rlimit(100)]
#[verifier::spinoff_prover]
proof fn lemma_wf_after_root_set(s3: Slots, s4: Slots, en: int, ns_p: int)
    requires
        wf_except(s3, en, ns_p),
        ev(s3, en).parent is None,
        ns_p >= 0,
        forall|j: int| slot_live(s4, j) <==> slot_live(s3, j),
        s4.len() == s3.len(),
        forall|j: int| #[trigger] slot_live(s3, j) && j != en ==> ev(s4, j) == ev(s3, j),
        ev(s4, en) == (EntryView { size: ns_p, ..ev(s3, en) }),
    ensures
        forest_wf(s4),
{
    assert forall|i: int| #[trigger] slot_live(s4, i) implies node_wf(s4, i) by {
        assert(slot_live(s3, i));
        assert(node_rest_wf(s3, i));
        let e3 = ev(s3, i);
        let e4 = ev(s4, i);
        assert(e4.kids == e3.kids);
        assert forall|k: int| 0 <= k < e4.kids.len() implies ev(s4, #[trigger] e4.kids[k]) == ev(
            s3,
            e3.kids[k],
        ) by {
            assert(slot_live(s3, e3.kids[k]));
            assert(ev(s3, e3.kids[k]).parent == Some(i));
            if e3.kids[k] == en {
                assert(ev(s3, en).parent == Some(i));
            }
        }
        assert(kids_sorted(s4, e4.kids)) by {
            assert forall|a: int, b: int| 0 <= a < b < e4.kids.len() implies entry_lt(
                ev(s4, #[trigger] e4.kids[a]),
                ev(s4, #[trigger] e4.kids[b]),
            ) by {
                assert(entry_lt(ev(s3, e3.kids[a]), ev(s3, e3.kids[b])));
            }
        }
        lemma_kids_size_frame(s3, s4, e3.kids);
        if i != en {
            assert(node_sum_ok(s3, i));
            assert(node_sum_ok(s4, i));
        } else {
            assert(node_sum_ok(s4, en));
        }
        match e4.parent {
            Some(p) => {
                assert(slot_live(s3, p));
                assert(ev(s3, p).kids.contains(i));
                assert(ev(s4, p).kids == ev(s3, p).kids);
                assert(ev(s4, p).rank == ev(s3, p).rank);
            },
            None => {},
        }
    }
}

/// Finishes the cascade at a root: the root took the new size directly.
#[verifier::rlimit(100)]
#[verifier::spinoff_prover]
proof fn lemma_finish_resized(
    s0: Slots,
    s3: Slots,
    s4: Slots,
    c: int,
    en: int,
    ns: int,
    ns_p: int,
    ks0: Seq<int>,
    ks2: Seq<int>,
)
    requires
        parents_wf(s0),
        ev(s0, c).rank > ev(s0, en).rank,
        reorder_frame(s0, s3, en, c, ns, ks0, ks2),
        ev(s0, en).parent is None,
        ns_p == ev(s0, en).size + ns - ev(s0, c).size,
        wf_except(s3, en, ns_p),
        ns_p >= 0,
        forall|j: int| slot_live(s4, j) <==> slot_live(s3, j),
        s4.len() == s3.len(),
        forall|j: int| #[trigger] slot_live(s3, j) && j != en ==> ev(s4, j) == ev(s3, j),
        ev(s4, en) == (EntryView { size: ns_p, ..ev(s3, en) }),
    ensures
        forest_wf(s4),
        resized(s0, s4, c, ns, ev(s0, c).local),
{
    lemma_forest_parents(s3);
    lemma_wf_after_root_set(s3, s4, en, ns_p);
    assert forall|j: int| #[trigger] slot_live(s0, j) implies same_entry_resized(
        s0,
        s4,
        j,
        c,
        ns,
        ev(s0, c).local,
    ) by {
        lemma_anc_step(s0, j, c, en);
        if j == c {
            assert(!is_anc(s0, c, c)) by {
                if is_anc(s0, c, c) {
                    lemma_anc_rank(s0, c, c);
                }
            }
            assert(ev(s4, c) == ev(s3, c));
        } else if j == en {
            assert(is_anc(s0, en, c));
        } else {
            assert(!is_anc(s0, j, en)) by {
                if is_anc(s0, j, en) {
                    assert(slot_live(s0, en));
                }
            }
            assert(!is_anc(s0, j, c));
            assert(ev(s4, j) == ev(s0, j));
        }
    }
}

/// Moves the entry `child_id` to its place in the sibling order of its parent
/// `entry_id` under its new size, writes the new size, and carries the size
/// change up the ancestor chain, reordering each level.
///
/// On entry, everything is well-formed except that the stored size of the
/// child is stale: `new_size` is what its children and file bytes add up to.
#[verifier::rlimit(100)]
#[verifier::spinoff_prover]
fn size_changed_rec(arena: &mut Arena<DirEntry>, entry_id: Id, child_id: Id, new_size: i64)
    requires
        old(arena).wf(),
        wf_except(old(arena)@, child_id@, new_size as int),
        ev(old(arena)@, child_id@).parent == Some(entry_id@),
        ev(old(arena)@, root_of(old(arena)@, child_id@)).size + new_size - ev(
            old(arena)@,
            child_id@,
        ).size <= i64::MAX,
    ensures
        final(arena).wf(),
        forest_wf(final(arena)@),
        resized(
            old(arena)@,
            final(arena)@,
            child_id@,
            new_size as int,
            ev(old(arena)@, child_id@).local,
        ),
    decreases ev(old(arena)@, child_id@).rank,
{
    let ghost s0 = arena@;
    let ghost c = child_id@;
    let ghost en = entry_id@;
    let ghost lc = ev(s0, c).local;
    proof {
        lemma_forest_parents(s0);
        assert(slot_live(s0, c));
        assert(node_rest_wf(s0, c));
        assert(slot_live(s0, en));
        assert(node_rest_wf(s0, en));
        assert(en != c);
        assert(ev(s0, en).kids.contains(c));
        assert forall|k: int| 0 <= k < ev(s0, c).kids.len() implies ev(
            s0,
            #[trigger] ev(s0, c).kids[k],
        ).size >= 0 by {
            assert(slot_live(s0, ev(s0, c).kids[k]));
            assert(node_rest_wf(s0, ev(s0, c).kids[k]));
        }
        lemma_kids_size_nonneg(s0, ev(s0, c).kids);
        assert(new_size >= 0);
    }
    let prev = arena.get(child_id).get_size();
    if prev == new_size {
        proof {
            assert forall|i: int| #[trigger] slot_live(s0, i) implies node_wf(s0, i) by {
                if i == c {
                    assert(node_sum_ok(s0, c));
                }
            }
            assert forall|j: int| #[trigger] slot_live(s0, j) implies same_entry_resized(
                s0,
                s0,
                j,
                c,
                new_size as int,
                lc,
            ) by {}
        }
        return ;
    }
    let ghost ks0 = ev(s0, en).kids;
    proof {
        // the ids in the parent's kid list are distinct, since their names are
        assert forall|a: int, b: int| 0 <= a < b < ks0.len() implies ks0[a] != ks0[b] by {
            assert(ev(s0, ks0[a]).name != ev(s0, ks0[b]).name);
        }
        // nobody but the parent holds the child in its kid list, and the
        // parent is not its own kid
        assert(!ks0.contains(en)) by {
            if ks0.contains(en) {
                let a = choose|a: int| 0 <= a < ks0.len() && ks0[a] == en;
                assert(ev(s0, ks0[a]).rank > ev(s0, en).rank);
            }
        }
    }
    // take the kid list out of the parent
    let mut ks: Vec<Id> = Vec::new();
    let e = arena.get_mut(entry_id);
    core::mem::swap(&mut e.directories, &mut ks);
    let ghost s1 = arena@;
    let p0 = find_id_pos(ks.as_slice(), child_id);
    let ghost p0i = p0 as int;
    ks.remove(p0);
    let ghost ks1 = ids_of(ks@);
    proof {
        assert(ks1 =~= ks0.remove(p0i));
        assert(!ks1.contains(c)) by {
            if ks1.contains(c) {
                let a = choose|a: int| 0 <= a < ks1.len() && ks1[a] == c;
                let a0: int = if a < p0i {
                    a
                } else {
                    a + 1
                };
                assert(ks0[a0] == c && ks0[p0i] == c && a0 != p0i);
            }
        }
    }
    // write the child's new size
    let ce = arena.get_mut(child_id);
    ce.size = new_size;
    let ghost s2 = arena@;
    proof {
        // the remaining siblings are unchanged and stay sorted
        assert forall|j: int| 0 <= j < ks1.len() implies slot_live(s2, #[trigger] ks1[j]) && ev(
            s2,
            ks1[j],
        ) == ev(s0, ks1[j]) by {
            assert(ks1[j] == ks0.remove(p0i)[j]);
            let j0: int = if j < p0i {
                j
            } else {
                j + 1
            };
            assert(ks1[j] == ks0[j0]);
            assert(slot_live(s0, ks0[j0]));
        }
        lemma_sorted_remove(s0, ks0, p0i);
        assert(kids_sorted(s2, ks1)) by {
            assert forall|a: int, b: int| 0 <= a < b < ks1.len() implies entry_lt(
                ev(s2, #[trigger] ks1[a]),
                ev(s2, #[trigger] ks1[b]),
            ) by {
                assert(entry_lt(ev(s0, ks1[a]), ev(s0, ks1[b])));
            }
        }
    }
    // find where the child now belongs among its siblings
    let cname: String = arena.get(child_id).name.clone();
    let p1 = find_pos(arena, ks.as_slice(), new_size, cname.as_str());
    let ghost p1i = p1 as int;
    proof {
        // strictly ordered on both sides: names of siblings differ from the child's
        assert forall|j: int| 0 <= j < ks1.len() implies ev(s2, #[trigger] ks1[j]).name != ev(
            s0,
            c,
        ).name by {
            let j0: int = if j < p0i {
                j
            } else {
                j + 1
            };
            assert(ks1[j] == ks0[j0]);
            if j0 < p0i {
                assert(ev(s0, ks0[j0]).name != ev(s0, ks0[p0i]).name);
            } else {
                assert(ev(s0, ks0[p0i]).name != ev(s0, ks0[j0]).name);
            }
        }
        assert forall|j: int| p1i <= j < ks1.len() implies entry_lt(ev(s2, c), ev(
            s2,
            #[trigger] ks1[j],
        )) by {
            lemma_key_lt_total(
                ev(s2, ks1[j]).size,
                ev(s2, ks1[j]).name,
                new_size as int,
                cname@,
            );
        }
        assert forall|j: int| 0 <= j < p1i implies entry_lt(ev(s2, #[trigger] ks1[j]), ev(s2, c)) by {}
        lemma_sorted_insert(s2, ks1, p1i, c);
    }
    ks.insert(p1, child_id);
    let ghost ks2 = ids_of(ks@);
    proof {
        assert(ks2 =~= ks1.insert(p1i, c));
    }
    // put the kid list back into the parent
    let e2 = arena.get_mut(entry_id);
    core::mem::swap(&mut e2.directories, &mut ks);
    let ghost s3 = arena@;
    let ghost delta_g = new_size - ev(s0, c).size;
    proof {
        assert(ev(s3, en).kids == ks2);
        assert(ev(s3, c).size == new_size as int);
        // frame facts: which slots changed and how
        assert(forall|j: int| slot_live(s3, j) <==> slot_live(s0, j));
        assert(forall|j: int|
            #[trigger] slot_live(s0, j) && j != en && j != c ==> ev(s3, j) == ev(s0, j));
        assert(ev(s3, en) =~= (EntryView { kids: ks2, ..ev(s0, en) }));
        assert(ev(s3, c) =~= (EntryView { size: new_size as int, ..ev(s0, c) }));
        // kid-list membership is preserved
        lemma_contains_shuffle(ks0, ks1, ks2, p0i, p1i, c);
        assert(ks2.len() == ks0.len());
        assert(ks0.contains(c));
        // the new sum at the parent, computed stepwise across the frames
        lemma_kids_size_remove(s0, ks0, p0i);
        assert forall|k: int| 0 <= k < ks1.len() implies ev(s2, #[trigger] ks1[k]).size == ev(
            s0,
            ks1[k],
        ).size by {}
        lemma_kids_size_frame(s0, s2, ks1);
        lemma_kids_size_insert(s2, ks1, p1i, c);
        assert forall|k: int| 0 <= k < ks2.len() implies ev(s3, #[trigger] ks2[k]).size == ev(
            s2,
            ks2[k],
        ).size by {
            assert(ks0.contains(ks2[k]));
            assert(ks2[k] != en);
        }
        lemma_kids_size_frame(s2, s3, ks2);
        assert(kids_size(s3, ks2) == kids_size(s0, ks0) + delta_g);
        // the reordered kid list is sorted and its names stay distinct
        assert(kids_sorted(s3, ks2)) by {
            assert forall|a: int, b: int| 0 <= a < b < ks2.len() implies entry_lt(
                ev(s3, #[trigger] ks2[a]),
                ev(s3, #[trigger] ks2[b]),
            ) by {
                assert(ks0.contains(ks2[a]) && ks0.contains(ks2[b]));
                assert(ks2[a] != en && ks2[b] != en);
                assert(ev(s3, ks2[a]) == ev(s2, ks2[a]));
                assert(ev(s3, ks2[b]) == ev(s2, ks2[b]));
                assert(entry_lt(ev(s2, ks2[a]), ev(s2, ks2[b])));
            }
        }
        assert forall|a: int, b: int| 0 <= a < b < ks0.len() implies ev(
            s3,
            #[trigger] ks0[a],
        ).name != ev(s3, #[trigger] ks0[b]).name by {
            assert(ev(s0, ks0[a]).name != ev(s0, ks0[b]).name);
            assert(ks0.contains(ks0[a]) && ks0.contains(ks0[b]));
            assert(ks0[a] != en && ks0[b] != en);
        }
        lemma_names_distinct_remove(s3, ks0, p0i);
        assert(forall|a: int| 0 <= a < ks1.len() ==> ev(s3, #[trigger] ks1[a]).name != ev(
            s3,
            c,
        ).name) by {
            assert forall|a: int| 0 <= a < ks1.len() implies ev(s3, #[trigger] ks1[a]).name != ev(
                s3,
                c,
            ).name by {
                assert(ev(s2, ks1[a]).name != ev(s0, c).name);
                assert(ks0.contains(ks1[a]) || true);
                let a0: int = if a < p0i {
                    a
                } else {
                    a + 1
                };
                assert(ks1[a] == ks0[a0]);
                assert(ks0.contains(ks0[a0]));
                assert(ks1[a] != en);
                assert(ev(s3, ks1[a]) == ev(s2, ks1[a]));
            }
        }
        lemma_names_distinct_insert(s3, ks1, p1i, c);
        assert(reorder_frame(s0, s3, en, c, new_size as int, ks0, ks2));
    }
    let e3 = arena.get(entry_id);
    let es = e3.get_size();
    let par = e3.get_parent();
    proof {
        // every entry on the chain above the parent keeps its size sum
        assert forall|j: int|
            slot_live(s0, j) && (j == en || #[trigger] is_anc(s0, j, en)) implies node_sum_ok(
            s0,
            j,
        ) by {
            if j != en {
                lemma_anc_rank(s0, j, en);
            }
            assert(j != c);
        }
        lemma_chain_size(s0, en);
        assert(root_of(s0, c) == root_of(s0, en));
        assert(es <= ev(s0, root_of(s0, en)).size);
        assert forall|k: int| 0 <= k < ks0.len() implies ev(s0, #[trigger] ks0[k]).size >= 0 by {
            assert(slot_live(s0, ks0[k]));
            assert(node_rest_wf(s0, ks0[k]));
        }
        lemma_kids_size_bounds(s0, ks0, p0i);
        assert(node_sum_ok(s0, en));
        assert(es >= ev(s0, c).size >= 0);
    }
    let delta = new_size - prev;
    let ns_p = es + delta;
    proof {
        // the state is well-formed again, except for the parent's stale size
        assert(ks2 =~= ks1.insert(p1i, c));
        assert(ks2[p1i] == c);
        assert(ks2.contains(c));
        lemma_establish_wf_except(s0, s3, en, c, new_size as int, ks0, ks2);
        assert(wf_except(s3, en, ns_p as int));
    }
    match par {
        Some(g) => {
            proof {
                lemma_forest_parents(s3);
                lemma_anc_frame(s0, s3, 0, en);
                assert(root_of(s3, en) == root_of(s0, en));
                let r = root_of(s0, en);
                assert(slot_live(s0, r) && ev(s0, r).parent is None);
                assert(r != en);
                if is_anc(s0, r, en) {
                    lemma_anc_rank(s0, r, en);
                }
                assert(r != c);
                assert(ev(s3, r).size == ev(s0, r).size);
                assert(ev(s3, en).parent == Some(g@));
                assert(ev(s3, en).rank == ev(s0, en).rank < ev(s0, c).rank);
            }
            size_changed_rec(arena, g, entry_id, ns_p);
            proof {
                let s4 = arena@;
                assert(ev(s3, en).local == ev(s0, en).local);
                assert(ev(s0, c).rank > ev(s0, en).rank);
                lemma_compose_resized(s0, s3, s4, c, en, new_size as int, ns_p as int, ks0, ks2);
            }
        },
        None => {
            let e4 = arena.get_mut(entry_id);
            e4.size = ns_p;
            proof {
                let s4 = arena@;
                assert(ev(s4, en) =~= (EntryView { size: ns_p as int, ..ev(s3, en) }));
                assert(forall|j: int|
                    #[trigger] slot_live(s3, j) && j != en ==> ev(s4, j) == ev(s3, j));
                assert forall|k: int| 0 <= k < ks2.len() implies ev(s3, #[trigger] ks2[k]).size
                    >= 0 by {
                    assert(slot_live(s3, ks2[k]));
                    assert(node_rest_wf(s3, ks2[k]));
                }
                lemma_kids_size_nonneg(s3, ks2);
                assert(ns_p as int == kids_size(s3, ks2) + ev(s3, en).local);
                lemma_finish_resized(s0, s3, s4, c, en, new_size as int, ns_p as int, ks0, ks2);
            }
        },
    }
}

impl DirEntry {
    /// Creates a new, detached directory entry with the given name.
    ///
    /// The entry has no parent, no children, no files and size zero; its
    /// cached path fingerprint is the checksum of its name alone.
    pub fn new_dir(name: String) -> (r: DirEntry)
        ensures
            r@ == (EntryView {
                name: name@,
                size: 0,
                path_crc: crc16_of(name@),
                parent: None,
                kids: Seq::empty(),
                files: 0,
                marked: false,
                local: 0,
                rank: 0,
            }),
    {
        let path_crc = crc16(name.as_str());
        let r = DirEntry {
            name,
            size: 0,
            path_crc,
            parent: None,
            directories: Vec::new(),
            files: 0,
            is_marked: false,
            local: Ghost(0),
            rank: Ghost(0),
        };
        proof {
            assert(r@.kids =~= Seq::<int>::empty());
        }
        r
    }

    /// Number of direct child files.
    pub fn get_files(&self) -> (r: u32)
        ensures
            r == self@.files,
    {
        self.files
    }

    /// Name of the entry.
    pub fn get_name(&self) -> (r: &str)
        ensures
            r@ == self@.name,
    {
        self.name.as_str()
    }

    /// Parent id of the entry, if attached.
    pub fn get_parent(&self) -> (r: Option<Id>)
        ensures
            match r {
                Some(id) => self@.parent == Some(id@),
                None => self@.parent is None,
            },
    {
        self.parent
    }

    /// Total size of the entry; never negative.
    pub fn get_size(&self) -> (r: i64)
        ensures
            r == self@.size,
    {
        self.size
    }

    /// Cached fingerprint of the full path to this entry.
    pub fn path_crc(&self) -> (r: u16)
        ensures
            r == self@.path_crc,
    {
        self.path_crc
    }

    /// Sets the number of direct child files.
    pub fn set_files(&mut self, files: u32)
        ensures
            final(self)@ == (EntryView { files, ..old(self)@ }),
    {
        self.files = files;
    }

    /// Clears the reconcile mark.
    pub fn unmark(&mut self)
        ensures
            final(self)@ == (EntryView { marked: false, ..old(self)@ }),
    {
        self.is_marked = false;
    }

    /// The ids of the child directories, in display order: sorted by
    /// descending size, names ascending among equal sizes.
    pub fn iter(&self) -> (r: &Vec<Id>)
        ensures
            r@.map_values(|x: Id| x@) == self@.kids,
    {
        &self.directories
    }

    /// Hands out the children of a removed entry so they can be cleaned up too.
    pub fn take_children(self) -> (r: Vec<Id>)
        ensures
            r@.map_values(|x: Id| x@) == self@.kids,
    {
        self.directories
    }
}

/// The fields of an entry that its neighbours' well-formedness observes.
pub open spec fn core_same(e0: EntryView, e1: EntryView) -> bool {
    &&& e1.size == e0.size
    &&& e1.name == e0.name
    &&& e1.parent == e0.parent
    &&& e1.rank == e0.rank
    &&& e1.kids == e0.kids
}

/// Changing only marks, file counts, fingerprints or file-byte bookkeeping
/// leaves every entry well-formed apart from its size sum, and leaves all
/// child totals alone.
pub proof fn lemma_core_frame(s0: Slots, s1: Slots)
    requires
        forall|j: int| slot_live(s1, j) <==> slot_live(s0, j),
        forall|j: int| #[trigger] slot_live(s0, j) ==> core_same(ev(s0, j), ev(s1, j)),
        forall|j: int| #[trigger] slot_live(s0, j) ==> node_rest_wf(s0, j),
        forall|j: int| #[trigger] slot_live(s0, j) ==> ev(s1, j).local >= 0,
    ensures
        forall|j: int| #[trigger] slot_live(s1, j) ==> node_rest_wf(s1, j),
        forall|j: int|
            #[trigger] slot_live(s0, j) ==> kids_size(s1, ev(s1, j).kids) == kids_size(
                s0,
                ev(s0, j).kids,
            ),
        parents_wf(s1),
{
    assert forall|i: int| #[trigger] slot_live(s1, i) implies node_rest_wf(s1, i) by {
        assert(slot_live(s0, i));
        assert(node_rest_wf(s0, i));
        let e0 = ev(s0, i);
        let e1 = ev(s1, i);
        assert(e1.kids == e0.kids);
        assert forall|k: int| 0 <= k < e1.kids.len() implies {
            &&& slot_live(s1, #[trigger] e1.kids[k])
            &&& core_same(ev(s0, e0.kids[k]), ev(s1, e1.kids[k]))
        } by {
            assert(slot_live(s0, e0.kids[k]));
        }
        assert(kids_sorted(s1, e1.kids)) by {
            assert forall|a: int, b: int| 0 <= a < b < e1.kids.len() implies entry_lt(
                ev(s1, #[trigger] e1.kids[a]),
                ev(s1, #[trigger] e1.kids[b]),
            ) by {
                assert(entry_lt(ev(s0, e0.kids[a]), ev(s0, e0.kids[b])));
            }
        }
        match e1.parent {
            Some(p) => {
                assert(slot_live(s0, p));
                assert(ev(s0, p).kids.contains(i));
            },
            None => {},
        }
    }
    assert forall|j: int| #[trigger] slot_live(s0, j) implies kids_size(s1, ev(s1, j).kids)
        == kids_size(s0, ev(s0, j).kids) by {
        assert(node_rest_wf(s0, j));
        assert forall|k: int| 0 <= k < ev(s0, j).kids.len() implies ev(
            s1,
            #[trigger] ev(s0, j).kids[k],
        ).size == ev(s0, ev(s0, j).kids[k]).size by {
            assert(slot_live(s0, ev(s0, j).kids[k]));
        }
        lemma_kids_size_frame(s0, s1, ev(s0, j).kids);
    }
    lemma_forest_parents(s1);
}

impl DirEntry {
    /// Called to record that the entry `child_id` now adds up to `new_size`:
    /// the entry takes the new size, is reordered among its siblings, and
    /// every ancestor's total carries the change.
    pub fn on_child_size_changed(
        arena: &mut Arena<DirEntry>,
        entry_id: Id,
        child_id: Id,
        new_size: i64,
    )
        requires
            old(arena).wf(),
            forest_wf(old(arena)@),
            slot_live(old(arena)@, child_id@),
            ev(old(arena)@, child_id@).parent == Some(entry_id@),
            new_size >= kids_size(old(arena)@, ev(old(arena)@, child_id@).kids),
            ev(old(arena)@, root_of(old(arena)@, child_id@)).size + new_size - ev(
                old(arena)@,
                child_id@,
            ).size <= i64::MAX,
        ensures
            final(arena).wf(),
            forest_wf(final(arena)@),
            resized(
                old(arena)@,
                final(arena)@,
                child_id@,
                new_size as int,
                new_size - kids_size(old(arena)@, ev(old(arena)@, child_id@).kids),
            ),
    {
        let ghost s0 = arena@;
        let ghost c = child_id@;
        let ghost lc = new_size - kids_size(s0, ev(s0, c).kids);
        let ce = arena.get_mut(child_id);
        ce.local = Ghost(new_size as int - kids_size(s0, ev(s0, c).kids));
        let ghost s1 = arena@;
        proof {
            assert(forall|j: int| slot_live(s1, j) <==> slot_live(s0, j));
            assert forall|j: int| #[trigger] slot_live(s0, j) implies core_same(
                ev(s0, j),
                ev(s1, j),
            ) && ev(s1, j).local >= 0 && node_rest_wf(s0, j) by {
                assert(node_wf(s0, j));
            }
            lemma_core_frame(s0, s1);
            assert forall|i: int| #[trigger] slot_live(s1, i) && i != c implies node_sum_ok(
                s1,
                i,
            ) by {
                assert(node_wf(s0, i));
            }
            assert(new_size as int == kids_size(s1, ev(s1, c).kids) + ev(s1, c).local);
            assert(wf_except(s1, c, new_size as int));
            lemma_forest_parents(s0);
            lemma_anc_frame(s0, s1, 0, c);
            assert(root_of(s1, c) == root_of(s0, c));
            assert forall|j: int|
                slot_live(s0, j) && (j == c || #[trigger] is_anc(s0, j, c)) implies node_sum_ok(
                s0,
                j,
            ) by {
                assert(node_wf(s0, j));
            }
            lemma_chain_size(s0, c);
            assert(slot_live(s0, root_of(s0, c)));
            assert(ev(s1, root_of(s0, c)).size == ev(s0, root_of(s0, c)).size);
        }
        size_changed_rec(arena, entry_id, child_id, new_size);
        proof {
            let s2 = arena@;
            assert forall|j: int| #[trigger] slot_live(s0, j) implies same_entry_resized(
                s0,
                s2,
                j,
                c,
                new_size as int,
                lc,
            ) by {
                assert(slot_live(s1, j));
                assert(same_entry_resized(s1, s2, j, c, new_size as int, ev(s1, c).local));
                lemma_anc_frame(s0, s1, j, c);
            }
        }
    }

    /// Sets a new total size for the given directory; its ancestors carry
    /// the change and each level is reordered as needed.
    pub fn set_size(arena: &mut Arena<DirEntry>, entry_id: Id, new_size: i64)
        requires
            old(arena).wf(),
            forest_wf(old(arena)@),
            slot_live(old(arena)@, entry_id@),
            new_size >= kids_size(old(arena)@, ev(old(arena)@, entry_id@).kids),
            ev(old(arena)@, root_of(old(arena)@, entry_id@)).size + new_size - ev(
                old(arena)@,
                entry_id@,
            ).size <= i64::MAX,
        ensures
            final(arena).wf(),
            forest_wf(final(arena)@),
            resized(
                old(arena)@,
                final(arena)@,
                entry_id@,
                new_size as int,
                new_size - kids_size(old(arena)@, ev(old(arena)@, entry_id@).kids),
            ),
    {
        let ghost s0 = arena@;
        let ghost en = entry_id@;
        let ghost lc = new_size - kids_size(s0, ev(s0, en).kids);
        let par = arena.get(entry_id).get_parent();
        match par {
            Some(_) => {
                proof {
                    assert(node_wf(s0, en));
                }
                let p = match par {
                    Some(p) => p,
                    None => vstd::pervasive::unreached(),
                };
                Self::on_child_size_changed(arena, p, entry_id, new_size);
            },
            None => {
                let em = arena.get_mut(entry_id);
                em.size = new_size;
                em.local = Ghost(new_size as int - kids_size(s0, ev(s0, en).kids));
                proof {
                    let s1 = arena@;
                    assert forall|k: int| 0 <= k < ev(s0, en).kids.len() implies ev(
                        s0,
                        #[trigger] ev(s0, en).kids[k],
                    ).size >= 0 by {
                        assert(slot_live(s0, ev(s0, en).kids[k])) by {
                            assert(node_wf(s0, en));
                        }
                        assert(node_wf(s0, ev(s0, en).kids[k]));
                    }
                    lemma_kids_size_nonneg(s0, ev(s0, en).kids);
                    assert forall|i: int| #[trigger] slot_live(s1, i) implies node_wf(s1, i) by {
                        assert(slot_live(s0, i));
                        assert(node_wf(s0, i));
                        let e0 = ev(s0, i);
                        let e1 = ev(s1, i);
                        assert(e1.kids == e0.kids);
                        assert forall|k: int| 0 <= k < e1.kids.len() implies ev(
                            s1,
                            #[trigger] e1.kids[k],
                        ) == ev(s0, e0.kids[k]) by {
                            assert(slot_live(s0, e0.kids[k]));
                            assert(ev(s0, e0.kids[k]).parent == Some(i));
                            if e0.kids[k] == en {
                                assert(ev(s0, en).parent == Some(i));
                            }
                        }
                        assert(kids_sorted(s1, e1.kids)) by {
                            assert forall|a: int, b: int|
                                0 <= a < b < e1.kids.len() implies entry_lt(
                                ev(s1, #[trigger] e1.kids[a]),
                                ev(s1, #[trigger] e1.kids[b]),
                            ) by {
                                assert(entry_lt(ev(s0, e0.kids[a]), ev(s0, e0.kids[b])));
                            }
                        }
                        lemma_kids_size_frame(s0, s1, e0.kids);
                        match e1.parent {
                            Some(p2) => {
                                assert(slot_live(s0, p2));
                                assert(ev(s0, p2).kids.contains(i));
                                assert(ev(s1, p2).kids == ev(s0, p2).kids);
                                assert(ev(s1, p2).rank == ev(s0, p2).rank);
                            },
                            None => {},
                        }
                    }
                    lemma_forest_parents(s0);
                    assert forall|j: int| #[trigger] slot_live(s0, j) implies same_entry_resized(
                        s0,
                        s1,
                        j,
                        en,
                        new_size as int,
                        lc,
                    ) by {
                        if j != en {
                            assert(!is_anc(s0, j, en));
                            assert(ev(s1, j) == ev(s0, j));
                        }
                    }
                }
            },
        }
    }
}

impl DirEntry {
    /// Searches the sorted run `children` for the child with the given name
    /// and size.
    ///
    /// Returns `Ok(index)` if the child was found, or `Err(index)` for the
    /// position where such a child would have to be inserted.
    pub fn find_child(children: &[Id], arena: &Arena<DirEntry>, name: &str, size: i64) -> (r:
        Result<usize, usize>)
        requires
            forall|j: int| 0 <= j < children@.len() ==> slot_live(arena@, #[trigger] ids_of(children@)[j]),
            kids_sorted(arena@, ids_of(children@)),
        ensures
            ({
                let ids = ids_of(children@);
                let s = arena@;
                match r {
                    Ok(i) => {
                        &&& 0 <= i < ids.len()
                        &&& ev(s, ids[i as int]).size == size
                        &&& ev(s, ids[i as int]).name == name@
                        &&& forall|j: int|
                            0 <= j < i ==> key_lt(
                                ev(s, #[trigger] ids[j]).size,
                                ev(s, ids[j]).name,
                                size as int,
                                name@,
                            )
                    },
                    Err(i) => {
                        &&& 0 <= i <= ids.len()
                        &&& forall|j: int|
                            0 <= j < i ==> key_lt(
                                ev(s, #[trigger] ids[j]).size,
                                ev(s, ids[j]).name,
                                size as int,
                                name@,
                            )
                        &&& forall|j: int|
                            i <= j < ids.len() ==> key_lt(
                                size as int,
                                name@,
                                ev(s, #[trigger] ids[j]).size,
                                ev(s, ids[j]).name,
                            )
                    },
                }
            }),
    {
        let ghost ids = ids_of(children@);
        let i = find_pos(arena, children, size, name);
        if i < children.len() {
            proof {
                assert(ids[i as int] == children@[i as int]@);
            }
            let e = arena.get(children[i]);
            if e.get_size() == size && !crate::path::str_lt(e.get_name(), name)
                && !crate::path::str_lt(name, e.get_name()) {
                proof {
                    crate::path::lemma_text_lt_total(ev(arena@, ids[i as int]).name, name@);
                }
                return Ok(i);
            }
            proof {
                lemma_key_lt_total(
                    ev(arena@, ids[i as int]).size,
                    ev(arena@, ids[i as int]).name,
                    size as int,
                    name@,
                );
                assert(key_lt(size as int, name@, ev(arena@, ids[i as int]).size, ev(
                    arena@,
                    ids[i as int],
                ).name));
                assert forall|j: int| i <= j < ids.len() implies key_lt(
                    size as int,
                    name@,
                    ev(arena@, #[trigger] ids[j]).size,
                    ev(arena@, ids[j]).name,
                ) by {
                    if j > i {
                        assert(entry_lt(ev(arena@, ids[i as int]), ev(arena@, ids[j])));
                        lemma_key_lt_trans(
                            size as int,
                            name@,
                            ev(arena@, ids[i as int]).size,
                            ev(arena@, ids[i as int]).name,
                            ev(arena@, ids[j]).size,
                            ev(arena@, ids[j]).name,
                        );
                    }
                }
            }
            Err(i)
        } else {
            Err(i)
        }
    }

    /// Returns the full path to this entry, read off the walk to its root.
    pub fn get_path(&self, arena: &Arena<DirEntry>) -> (r: EntryPath)
        requires
            forest_wf(arena@),
            exists|i: int| slot_live(arena@, i) && slot_val(arena@, i) == *self,
        ensures
            forall|i: int|
                slot_live(arena@, i) && slot_val(arena@, i) == *self ==> r@ == path_of(
                    arena@,
                    #[trigger] (i + 0),
                ),
        decreases self@.rank,
    {
        let ghost s = arena@;
        proof {
            lemma_forest_parents(s);
            let w = choose|i: int| slot_live(s, i) && slot_val(s, i) == *self;
            assert(node_rest_wf(s, w));
        }
        match self.get_parent() {
            Some(pid) => {
                proof {
                    let w = choose|i: int| slot_live(s, i) && slot_val(s, i) == *self;
                    assert(ev(s, w).parent == Some(pid@));
                    assert(slot_live(s, pid@));
                }
                let pe = arena.get(pid);
                let mut path = pe.get_path(arena);
                proof {
                    assert(slot_live(s, pid@) && slot_val(s, pid@) == *pe);
                    assert(path@ == path_of(s, pid@ + 0));
                }
                path.join(self.name.clone());
                proof {
                    assert forall|i: int|
                        slot_live(s, i) && slot_val(s, i) == *self implies path@ == path_of(
                        s,
                        #[trigger] (i + 0),
                    ) by {
                        assert(ev(s, i).parent == Some(pid@));
                        assert(path_of(s, i) == path_of(s, pid@).push(ev(s, i).name));
                    }
                }
                path
            },
            None => {
                let path = EntryPath::new(self.name.clone());
                proof {
                    assert forall|i: int|
                        slot_live(s, i) && slot_val(s, i) == *self implies path@ == path_of(
                        s,
                        #[trigger] (i + 0),
                    ) by {
                        assert(ev(s, i).parent is None);
                        assert(path_of(s, i) == seq![ev(s, i).name]);
                    }
                }
                path
            },
        }
    }

    /// Compares the full path of this entry with the given path.
    pub fn compare_path(&self, arena: &Arena<DirEntry>, path: &EntryPath) -> (r: bool)
        requires
            forest_wf(arena@),
            exists|i: int| slot_live(arena@, i) && slot_val(arena@, i) == *self,
        ensures
            forall|i: int|
                slot_live(arena@, i) && slot_val(arena@, i) == *self ==> r == (path_of(
                    arena@,
                    #[trigger] (i + 0),
                ) == path@),
    {
        let own = self.get_path(arena);
        let r = own.eq(path);
        proof {
            let w = choose|i: int| slot_live(arena@, i) && slot_val(arena@, i) == *self;
            assert(own@ == path_of(arena@, w + 0));
        }
        r
    }

    /// Marks all children of the entry for the reconcile pass.
    ///
    /// Returns the number of child directories and their total size.
    #[verifier::spinoff_prover]
    pub fn mark_children(arena: &mut Arena<DirEntry>, entry_id: Id) -> (r: (u32, i64))
        requires
            old(arena).wf(),
            forest_wf(old(arena)@),
            slot_live(old(arena)@, entry_id@),
            ev(old(arena)@, entry_id@).kids.len() <= u32::MAX,
        ensures
            final(arena).wf(),
            forest_wf(final(arena)@),
            final(arena)@.len() == old(arena)@.len(),
            forall|j: int| slot_live(final(arena)@, j) <==> slot_live(old(arena)@, j),
            forall|j: int|
                #[trigger] slot_live(old(arena)@, j) ==> ev(final(arena)@, j) == (if ev(
                    old(arena)@,
                    entry_id@,
                ).kids.contains(j) {
                    (EntryView { marked: true, ..ev(old(arena)@, j) })
                } else {
                    ev(old(arena)@, j)
                }),
            r.0 == ev(old(arena)@, entry_id@).kids.len(),
            r.1 == kids_size(old(arena)@, ev(old(arena)@, entry_id@).kids),
    {
        let ghost s0 = arena@;
        let ghost en = entry_id@;
        let ghost ks0 = ev(s0, en).kids;
        proof {
            assert(node_wf(s0, en));
            assert forall|a: int, b: int| 0 <= a < b < ks0.len() implies ks0[a] != ks0[b] by {
                assert(ev(s0, ks0[a]).name != ev(s0, ks0[b]).name);
            }
            assert forall|k: int| 0 <= k < ks0.len() implies ev(s0, #[trigger] ks0[k]).size
                >= 0 by {
                assert(slot_live(s0, ks0[k]));
                assert(node_wf(s0, ks0[k]));
            }
            assert(ks0.take(0) =~= Seq::<int>::empty());
        }
        let n = arena.get(entry_id).directories.len();
        let mut acc: i64 = 0;
        let mut i: usize = 0;
        while i < n
            invariant
                arena.wf(),
                0 <= i <= n,
                n == ks0.len(),
                en == entry_id@,
                slot_live(s0, en),
                node_wf(s0, en),
                ks0 == ev(s0, en).kids,
                forall|a: int, b: int| 0 <= a < b < ks0.len() ==> ks0[a] != ks0[b],
                forall|k: int| 0 <= k < ks0.len() ==> ev(s0, #[trigger] ks0[k]).size >= 0,
                arena@.len() == s0.len(),
                forall|j: int| slot_live(arena@, j) <==> slot_live(s0, j),
                forall|j: int|
                    #[trigger] slot_live(s0, j) ==> ev(arena@, j) == (if ks0.take(
                        i as int,
                    ).contains(j) {
                        (EntryView { marked: true, ..ev(s0, j) })
                    } else {
                        ev(s0, j)
                    }),
                acc == kids_size(s0, ks0.take(i as int)),
            decreases n - i,
        {
            let ghost sc = arena@;
            proof {
                assert(ks0[i as int] == ev(s0, en).kids[i as int]);
                assert(slot_live(s0, ks0[i as int]));
                lemma_kids_size_split(s0, ks0, i as int);
                lemma_kids_size_head(s0, ks0.skip(i as int));
                assert(ks0.skip(i as int)[0] == ks0[i as int]);
                assert forall|k: int| 0 <= k < ks0.skip(i + 1).len() implies ev(
                    s0,
                    #[trigger] ks0.skip(i + 1)[k],
                ).size >= 0 by {
                    assert(ks0.skip(i + 1)[k] == ks0[k + i + 1]);
                }
                lemma_kids_size_nonneg(s0, ks0.skip(i + 1));
                assert(ks0.skip(i as int).skip(1) =~= ks0.skip(i + 1));
                lemma_kids_size_split(s0, ks0, i + 1);
                assert(ks0.take(i + 1).drop_last() =~= ks0.take(i as int));
                assert(node_sum_ok(s0, en));
                assert(ev(s0, en).size <= i64::MAX);
            }
            let kid = arena.get(entry_id).directories[i];
            proof {
                assert(kid@ == ks0[i as int]);
                assert(!ks0.take(i as int).contains(kid@));
            }
            let sz = arena.get(kid).get_size();
            let km = arena.get_mut(kid);
            km.is_marked = true;
            proof {
                assert forall|j: int| #[trigger] slot_live(s0, j) implies ev(arena@, j) == (if ks0
                    .take(i + 1)
                    .contains(j) {
                    (EntryView { marked: true, ..ev(s0, j) })
                } else {
                    ev(s0, j)
                }) by {
                    assert(ks0.take(i + 1) =~= ks0.take(i as int).push(ks0[i as int]));
                    if j == kid@ {
                        assert(ev(arena@, j) =~= (EntryView { marked: true, ..ev(s0, j) }));
                    } else {
                        assert(ks0.take(i + 1).contains(j) == ks0.take(i as int).contains(j)) by {
                            if ks0.take(i + 1).contains(j) {
                                let w = choose|w: int|
                                    0 <= w < ks0.take(i + 1).len() && #[trigger] ks0.take(
                                        i + 1,
                                    )[w] == j;
                                assert(ks0.take(i as int)[w] == j);
                            }
                        }
                        assert(ev(arena@, j) == ev(sc, j));
                    }
                }
                assert(sz == ev(s0, ks0[i as int]).size);
            }
            acc = acc + sz;
            i = i + 1;
        }
        proof {
            assert(ks0.take(n as int) =~= ks0);
            let s1 = arena@;
            assert forall|j: int| #[trigger] slot_live(s0, j) implies core_same(ev(s0, j), ev(
                s1,
                j,
            )) && ev(s1, j).local >= 0 && node_rest_wf(s0, j) by {
                assert(node_wf(s0, j));
            }
            lemma_core_frame(s0, s1);
            assert forall|j: int| #[trigger] slot_live(s1, j) implies node_wf(s1, j) by {
                assert(slot_live(s0, j));
                assert(node_wf(s0, j));
                assert(kids_size(s1, ev(s1, j).kids) == kids_size(s0, ev(s0, j).kids));
            }
        }
        (n as u32, acc)
    }
}

/// After a fresh, childless entry was linked under a parent and put into the
/// parent's kid list where it belongs, everything is well-formed but the
/// parent's stale size.
#[verifier::rlimit(100)]
#[verifier::spinoff_prover]
proof fn lemma_establish_wf_add(
    s0: Slots,
    s1: Slots,
    en: int,
    c: int,
    xcrc: u16,
    ks0: Seq<int>,
    pos: int,
)
    requires
        forest_wf(s0),
        slot_live(s0, en),
        slot_live(s0, c),
        en != c,
        ev(s0, c).parent is None,
        ev(s0, c).kids.len() == 0,
        ks0 == ev(s0, en).kids,
        !ks0.contains(c),
        0 <= pos <= ks0.len(),
        forall|k: int| 0 <= k < ks0.len() ==> ev(s0, #[trigger] ks0[k]).name != ev(s0, c).name,
        kids_sorted(s1, ks0.insert(pos, c)),
        forall|j: int| slot_live(s1, j) <==> slot_live(s0, j),
        s1.len() == s0.len(),
        forall|j: int| #[trigger] slot_live(s0, j) && j != en && j != c ==> ev(s1, j) == ev(s0, j),
        ev(s1, en) == (EntryView { kids: ks0.insert(pos, c), ..ev(s0, en) }),
        ev(s1, c) == (EntryView {
            parent: Some(en),
            path_crc: xcrc,
            rank: (ev(s0, en).rank + 1) as nat,
            ..ev(s0, c)
        }),
    ensures
        wf_except(s1, en, ev(s0, en).size + ev(s0, c).size),
{
    let ks2 = ks0.insert(pos, c);
    assert(node_wf(s0, en));
    assert(node_wf(s0, c));
    assert(ks2[pos] == c);
    assert(ks2.contains(c));
    assert forall|x: int| ks2.contains(x) implies (ks0.contains(x) || x == c) by {
        let w = choose|w: int| 0 <= w < ks2.len() && ks2[w] == x;
        if w != pos {
            let w0: int = if w < pos {
                w
            } else {
                w - 1
            };
            assert(ks0[w0] == x);
        }
    }
    assert forall|i: int| #[trigger] slot_live(s1, i) implies node_rest_wf(s1, i) by {
        assert(slot_live(s0, i));
        assert(node_wf(s0, i));
        let e0 = ev(s0, i);
        let e1 = ev(s1, i);
        if i == c {
            assert(e1.kids == e0.kids);
            assert(e1.kids.len() == 0);
            assert(kids_sorted(s1, e1.kids));
            assert(slot_live(s1, en));
            assert(ev(s1, en).kids.contains(c));
            assert(e1.rank > ev(s1, en).rank);
        } else if i == en {
            assert forall|k: int| 0 <= k < e1.kids.len() implies {
                &&& slot_live(s1, #[trigger] e1.kids[k])
                &&& ev(s1, e1.kids[k]).parent == Some(en)
                &&& ev(s1, e1.kids[k]).rank > e1.rank
            } by {
                if e1.kids[k] == c {
                } else {
                    assert(ks2.contains(ks2[k]));
                    assert(ks0.contains(e1.kids[k]));
                    let w = choose|w: int| 0 <= w < ks0.len() && ks0[w] == e1.kids[k];
                    assert(slot_live(s0, ks0[w]));
                    assert(ev(s0, ks0[w]).parent == Some(en));
                }
            }
            assert forall|a: int, b: int| 0 <= a < b < ks0.len() implies ev(
                s1,
                #[trigger] ks0[a],
            ).name != ev(s1, #[trigger] ks0[b]).name by {
                assert(slot_live(s0, ks0[a]));
                assert(ev(s0, ks0[a]).parent == Some(en));
                assert(slot_live(s0, ks0[b]));
                assert(ev(s0, ks0[b]).parent == Some(en));
                assert(ev(s0, ks0[a]).name != ev(s0, ks0[b]).name);
            }
            assert forall|a: int| 0 <= a < ks0.len() implies ev(s1, #[trigger] ks0[a]).name != ev(
                s1,
                c,
            ).name by {
                assert(slot_live(s0, ks0[a]));
                assert(ev(s0, ks0[a]).parent == Some(en));
                assert(ev(s0, ks0[a]).name != ev(s0, c).name);
            }
            lemma_names_distinct_insert(s1, ks0, pos, c);
            match e1.parent {
                Some(p) => {
                    assert(slot_live(s0, p));
                    assert(ev(s0, p).kids.contains(en));
                    assert(p != c) by {
                        if p == c {
                            assert(ev(s0, c).kids.contains(en));
                        }
                    }
                    assert(ev(s1, p).kids == ev(s0, p).kids);
                    assert(ev(s1, p).rank == ev(s0, p).rank);
                },
                None => {},
            }
        } else {
            assert(e1.kids == e0.kids);
            assert forall|k: int| 0 <= k < e1.kids.len() implies {
                &&& slot_live(s1, #[trigger] e1.kids[k])
                &&& ev(s1, e1.kids[k]).parent == Some(i)
                &&& ev(s1, e1.kids[k]).rank > e1.rank
                &&& ev(s1, e1.kids[k]).size == ev(s0, e0.kids[k]).size
                &&& ev(s1, e1.kids[k]).name == ev(s0, e0.kids[k]).name
            } by {
                assert(slot_live(s0, e0.kids[k]));
                assert(ev(s0, e0.kids[k]).parent == Some(i));
                assert(e0.kids[k] != c);
            }
            assert(kids_sorted(s1, e1.kids)) by {
                assert forall|a: int, b: int| 0 <= a < b < e1.kids.len() implies entry_lt(
                    ev(s1, #[trigger] e1.kids[a]),
                    ev(s1, #[trigger] e1.kids[b]),
                ) by {
                    assert(entry_lt(ev(s0, e0.kids[a]), ev(s0, e0.kids[b])));
                }
            }
            match e1.parent {
                Some(p) => {
                    assert(slot_live(s0, p));
                    assert(ev(s0, p).kids.contains(i));
                    assert(p != c) by {
                        if p == c {
                            assert(ev(s0, c).kids.contains(i));
                        }
                    }
                    if p == en {
                        assert(ks0.contains(i));
                        assert(ks2.contains(i)) by {
                            let w = choose|w: int| 0 <= w < ks0.len() && ks0[w] == i;
                            let w2: int = if w < pos {
                                w
                            } else {
                                w + 1
                            };
                            assert(ks2[w2] == i);
                        }
                    } else {
                        assert(ev(s1, p).kids == ev(s0, p).kids);
                    }
                    assert(ev(s1, p).rank == ev(s0, p).rank);
                },
                None => {},
            }
        }
    }
    assert forall|i: int| #[trigger] slot_live(s1, i) && i != en implies node_sum_ok(s1, i) by {
        assert(slot_live(s0, i));
        assert(node_wf(s0, i));
        let e0 = ev(s0, i);
        let e1 = ev(s1, i);
        assert(e1.kids == e0.kids);
        assert forall|k: int| 0 <= k < e0.kids.len() implies ev(s1, #[trigger] e0.kids[k]).size
            == ev(s0, e0.kids[k]).size by {
            assert(slot_live(s0, e0.kids[k]));
            assert(ev(s0, e0.kids[k]).parent == Some(i));
            assert(e0.kids[k] != c);
        }
        lemma_kids_size_frame(s0, s1, e0.kids);
    }
    assert forall|k: int| 0 <= k < ks0.len() implies ev(s1, #[trigger] ks0[k]).size == ev(
        s0,
        ks0[k],
    ).size by {
        assert(slot_live(s0, ks0[k]));
        assert(ev(s0, ks0[k]).parent == Some(en));
    }
    lemma_kids_size_frame(s0, s1, ks0);
    lemma_kids_size_insert(s1, ks0, pos, c);
    assert(kids_size(s1, ks2) == kids_size(s0, ks0) + ev(s0, c).size);
    assert(node_sum_ok(s0, en));
}

/// Composes the attach step with the cascade that ran above the parent.
#[verifier::rlimit(100)]
#[verifier::spinoff_prover]
proof fn lemma_compose_add(
    s0: Slots,
    s3: Slots,
    s4: Slots,
    en: int,
    c: int,
    ks0: Seq<int>,
    posi: int,
    ns_en: int,
    xcrc: u16,
)
    requires
        forest_wf(s0),
        slot_live(s0, en),
        slot_live(s0, c),
        en != c,
        ev(s0, c).parent is None,
        ev(s0, c).kids.len() == 0,
        ks0 == ev(s0, en).kids,
        0 <= posi <= ks0.len(),
        !ks0.contains(c),
        s3.len() == s0.len(),
        forall|j: int| slot_live(s3, j) <==> slot_live(s0, j),
        forall|j: int| #[trigger] slot_live(s0, j) && j != en && j != c ==> ev(s3, j) == ev(s0, j),
        ev(s3, en) == (EntryView { kids: ks0.insert(posi, c), ..ev(s0, en) }),
        ev(s3, c) == (EntryView {
            parent: Some(en),
            path_crc: xcrc,
            rank: (ev(s0, en).rank + 1) as nat,
            ..ev(s0, c)
        }),
        parents_wf(s3),
        ns_en == ev(s0, en).size + ev(s0, c).size,
        resized(s3, s4, en, ns_en, ev(s3, en).local),
    ensures
        s4.len() == s0.len(),
        forall|j: int| slot_live(s4, j) <==> slot_live(s0, j),
        ev(s4, c) == (EntryView {
            parent: Some(en),
            path_crc: xcrc,
            rank: (ev(s0, en).rank + 1) as nat,
            ..ev(s0, c)
        }),
        ev(s4, en).kids.len() == ks0.len() + 1,
        forall|x: int| ev(s4, en).kids.contains(x) <==> (ks0.contains(x) || x == c),
        ev(s4, en).size == ns_en,
        ev(s4, en).name == ev(s0, en).name,
        ev(s4, en).parent == ev(s0, en).parent,
        ev(s4, en).path_crc == ev(s0, en).path_crc,
        ev(s4, en).files == ev(s0, en).files,
        ev(s4, en).marked == ev(s0, en).marked,
        ev(s4, en).local == ev(s0, en).local,
        ev(s4, en).rank == ev(s0, en).rank,
        forall|j: int|
            #[trigger] slot_live(s0, j) && j != en && j != c ==> same_entry_resized(
                s0,
                s4,
                j,
                en,
                ns_en,
                ev(s0, en).local,
            ),
{
    lemma_forest_parents(s0);
    assert forall|j: int|
        #[trigger] slot_live(s0, j) && j != en && j != c implies same_entry_resized(
        s0,
        s4,
        j,
        en,
        ns_en,
        ev(s0, en).local,
    ) by {
        assert(slot_live(s3, j));
        assert(same_entry_resized(s3, s4, j, en, ns_en, ev(s3, en).local));
        lemma_anc_frame_add(s0, s3, j, en, c);
        assert(ev(s3, j) == ev(s0, j));
    }
    assert(!is_anc(s3, c, en)) by {
        if is_anc(s3, c, en) {
            lemma_anc_rank(s3, c, en);
        }
    }
    assert(slot_live(s3, c));
    assert(same_entry_resized(s3, s4, c, en, ns_en, ev(s3, en).local));
    assert(ev(s4, c) =~= ev(s3, c));
    assert(slot_live(s3, en));
    assert(same_entry_resized(s3, s4, en, en, ns_en, ev(s3, en).local));
    assert(ev(s4, en).size == ns_en);
    assert(ev(s4, en).kids.len() == ks0.len() + 1);
    assert forall|x: int| ev(s4, en).kids.contains(x) <==> (ks0.contains(x) || x == c) by {
        assert(ev(s4, en).kids.contains(x) == ev(s3, en).kids.contains(x));
        assert(ev(s3, en).kids == ks0.insert(posi, c));
        lemma_insert_contains(ks0, posi, c, x);
    }
}

impl DirEntry {
    /// Adds the detached, childless entry `child_id` to the children of the
    /// entry `entry_id`, at its place in the sibling order; the parent and
    /// its ancestors grow by the child's size and are reordered as needed.
    #[verifier::rlimit(100)]
#[verifier::spinoff_prover]
    pub fn add_child(arena: &mut Arena<DirEntry>, entry_id: Id, child_id: Id)
        requires
            old(arena).wf(),
            forest_wf(old(arena)@),
            slot_live(old(arena)@, entry_id@),
            slot_live(old(arena)@, child_id@),
            entry_id@ != child_id@,
            ev(old(arena)@, child_id@).parent is None,
            ev(old(arena)@, child_id@).kids.len() == 0,
            forall|k: int|
                0 <= k < ev(old(arena)@, entry_id@).kids.len() ==> ev(
                    old(arena)@,
                    #[trigger] ev(old(arena)@, entry_id@).kids[k],
                ).name != ev(old(arena)@, child_id@).name,
            ev(old(arena)@, root_of(old(arena)@, entry_id@)).size + ev(
                old(arena)@,
                child_id@,
            ).size <= i64::MAX,
        ensures
            final(arena).wf(),
            forest_wf(final(arena)@),
            ({
                let s0 = old(arena)@;
                let s1 = final(arena)@;
                let en = entry_id@;
                let c = child_id@;
                &&& s1.len() == s0.len()
                &&& (forall|j: int| slot_live(s1, j) <==> slot_live(s0, j))
                &&& ev(s1, c) == (EntryView {
                    parent: Some(en),
                    path_crc: (ev(s0, c).path_crc ^ ev(s0, en).path_crc),
                    rank: (ev(s0, en).rank + 1) as nat,
                    ..ev(s0, c)
                })
                &&& ev(s1, en).kids.len() == ev(s0, en).kids.len() + 1
                &&& (forall|x: int|
                    ev(s1, en).kids.contains(x) <==> (ev(s0, en).kids.contains(x) || x == c))
                &&& ev(s1, en).size == ev(s0, en).size + ev(s0, c).size
                &&& ev(s1, en).name == ev(s0, en).name
                &&& ev(s1, en).parent == ev(s0, en).parent
                &&& ev(s1, en).path_crc == ev(s0, en).path_crc
                &&& ev(s1, en).files == ev(s0, en).files
                &&& ev(s1, en).marked == ev(s0, en).marked
                &&& ev(s1, en).local == ev(s0, en).local
                &&& ev(s1, en).rank == ev(s0, en).rank
                &&& (forall|j: int|
                    #[trigger] slot_live(s0, j) && j != en && j != c ==> same_entry_resized(
                        s0,
                        s1,
                        j,
                        en,
                        ev(s0, en).size + ev(s0, c).size,
                        ev(s0, en).local,
                    ))
            }),
    {
        let ghost s0 = arena@;
        let ghost en = entry_id@;
        let ghost c = child_id@;
        let ghost ks0 = ev(s0, en).kids;
        proof {
            lemma_forest_parents(s0);
            assert(node_wf(s0, en));
            assert(node_wf(s0, c));
            assert(!ks0.contains(c)) by {
                if ks0.contains(c) {
                    let w = choose|w: int| 0 <= w < ks0.len() && ks0[w] == c;
                    assert(ev(s0, ks0[w]).parent == Some(en));
                }
            }
            assert forall|j: int|
                slot_live(s0, j) && (j == en || #[trigger] is_anc(s0, j, en)) implies node_sum_ok(
                s0,
                j,
            ) by {
                assert(node_wf(s0, j));
            }
            lemma_chain_size(s0, en);
        }
        let parent_crc = arena.get(entry_id).path_crc;
        let csize = arena.get(child_id).get_size();
        let es0 = arena.get(entry_id).get_size();
        {
            let ce = arena.get_mut(child_id);
            ce.parent = Some(entry_id);
            ce.path_crc = ce.path_crc ^ parent_crc;
            ce.rank = Ghost((ev(s0, en).rank + 1) as nat);
        }
        let ghost s1 = arena@;
        let cname: String = arena.get(child_id).name.clone();
        let mut ks: Vec<Id> = Vec::new();
        {
            let e = arena.get_mut(entry_id);
            core::mem::swap(&mut e.directories, &mut ks);
        }
        let ghost s2 = arena@;
        proof {
            assert(ids_of(ks@) == ks0);
            assert forall|j: int| 0 <= j < ks@.len() implies slot_live(
                s2,
                #[trigger] ids_of(ks@)[j],
            ) && ev(s2, ids_of(ks@)[j]) == ev(s0, ks0[j]) by {
                assert(slot_live(s0, ks0[j]));
                assert(ev(s0, ks0[j]).parent == Some(en));
            }
            assert(kids_sorted(s2, ids_of(ks@))) by {
                assert forall|a: int, b: int| 0 <= a < b < ks0.len() implies entry_lt(
                    ev(s2, #[trigger] ks0[a]),
                    ev(s2, #[trigger] ks0[b]),
                ) by {
                    assert(entry_lt(ev(s0, ks0[a]), ev(s0, ks0[b])));
                }
            }
        }
        let pos = find_pos(arena, ks.as_slice(), csize, cname.as_str());
        let ghost posi = pos as int;
        proof {
            assert(ev(s2, c).size == csize as int && ev(s2, c).name == cname@);
            assert forall|j: int| posi <= j < ks0.len() implies entry_lt(ev(s2, c), ev(
                s2,
                #[trigger] ks0[j],
            )) by {
                assert(ev(s0, ks0[j]).name != ev(s0, c).name);
                lemma_key_lt_total(ev(s2, ks0[j]).size, ev(s2, ks0[j]).name, csize as int, cname@);
            }
            assert forall|j: int| 0 <= j < posi implies entry_lt(ev(s2, #[trigger] ks0[j]), ev(
                s2,
                c,
            )) by {}
            lemma_sorted_insert(s2, ks0, posi, c);
        }
        ks.insert(pos, child_id);
        proof {
            assert(ids_of(ks@) =~= ks0.insert(posi, c));
        }
        {
            let e = arena.get_mut(entry_id);
            core::mem::swap(&mut e.directories, &mut ks);
        }
        let ghost s3 = arena@;
        let ghost ns_en = ev(s0, en).size + csize;
        proof {
            assert(ev(s3, en).kids == ks0.insert(posi, c));
            assert(ev(s3, en) =~= (EntryView { kids: ks0.insert(posi, c), ..ev(s0, en) }));
            assert(ev(s3, c) =~= (EntryView {
                parent: Some(en),
                path_crc: (ev(s0, c).path_crc ^ ev(s0, en).path_crc),
                rank: (ev(s0, en).rank + 1) as nat,
                ..ev(s0, c)
            }));
            assert forall|k: int| 0 <= k < ks0.insert(posi, c).len() implies ev(
                s3,
                #[trigger] ks0.insert(posi, c)[k],
            ).size == ev(s2, ks0.insert(posi, c)[k]).size && ev(
                s3,
                ks0.insert(posi, c)[k],
            ).name == ev(s2, ks0.insert(posi, c)[k]).name by {
                let xa = ks0.insert(posi, c)[k];
                if k != posi {
                    let a0: int = if k < posi {
                        k
                    } else {
                        k - 1
                    };
                    assert(ks0[a0] == xa);
                    assert(ev(s0, ks0[a0]).parent == Some(en));
                    assert(slot_live(s0, ks0[a0]));
                    if ks0[a0] == en {
                        assert(ev(s0, en).rank > ev(s0, en).rank);
                    }
                }
            }
            lemma_sorted_frame(s2, s3, ks0.insert(posi, c));
            lemma_establish_wf_add(
                s0,
                s3,
                en,
                c,
                (ev(s0, c).path_crc ^ ev(s0, en).path_crc),
                ks0,
                posi,
            );
            assert(wf_except(s3, en, ns_en));
        }
        let ns = es0 + csize;
        let e3 = arena.get(entry_id);
        let par = e3.get_parent();
        match par {
            Some(g) => {
                proof {
                    lemma_forest_parents(s3);
                    assert forall|j: int|
                        slot_live(s0, j) && #[trigger] is_anc(s0, j, en) implies ev(s3, j).parent
                        == ev(s0, j).parent by {
                        lemma_anc_rank(s0, j, en);
                        assert(j != c) by {
                            if j == c {
                                lemma_anc_chain_kids(s0, c, en);
                            }
                        }
                        assert(j != en);
                    }
                    assert(!is_anc(s0, c, en)) by {
                        if is_anc(s0, c, en) {
                            lemma_anc_chain_kids(s0, c, en);
                        }
                    }
                    lemma_anc_frame(s0, s3, 0, en);
                    assert(root_of(s3, en) == root_of(s0, en));
                    let r = root_of(s0, en);
                    assert(slot_live(s0, r) && ev(s0, r).parent is None);
                    assert(r != en);
                    if is_anc(s0, r, en) {
                        lemma_anc_rank(s0, r, en);
                    }
                    assert(r != c) by {
                        if r == c {
                            if is_anc(s0, r, en) {
                                lemma_anc_chain_kids(s0, r, en);
                            }
                        }
                    }
                    assert(ev(s3, r).size == ev(s0, r).size);
                    assert(ev(s3, en).rank == ev(s0, en).rank < ev(s3, en).rank + 1);
                }
                size_changed_rec(arena, g, entry_id, ns);
                proof {
                    let s4 = arena@;
                    lemma_compose_add(
                        s0,
                        s3,
                        s4,
                        en,
                        c,
                        ks0,
                        posi,
                        ns_en,
                        (ev(s0, c).path_crc ^ ev(s0, en).path_crc),
                    );
                }
            },
            None => {
                let em = arena.get_mut(entry_id);
                em.size = ns;
                proof {
                    let s4 = arena@;
                    assert(ev(s4, en) =~= (EntryView { size: ns_en, ..ev(s3, en) }));
                    assert forall|k: int|
                        0 <= k < ks0.insert(posi, c).len() implies ev(
                        s3,
                        #[trigger] ks0.insert(posi, c)[k],
                    ).size >= 0 by {
                        assert(slot_live(s3, ks0.insert(posi, c)[k]));
                        assert(node_rest_wf(s3, ks0.insert(posi, c)[k]));
                    }
                    lemma_kids_size_nonneg(s3, ks0.insert(posi, c));
                    lemma_wf_after_root_set(s3, s4, en, ns_en);
                    assert forall|j: int|
                        #[trigger] slot_live(s0, j) && j != en && j != c implies same_entry_resized(
                        s0,
                        s4,
                        j,
                        en,
                        ns_en,
                        ev(s0, en).local,
                    ) by {
                        assert(ev(s3, j) == ev(s0, j));
                        assert(ev(s4, j) == ev(s3, j));
                        assert(!is_anc(s0, j, en)) by {
                            if is_anc(s0, j, en) {
                                assert(slot_live(s0, en));
                            }
                        }
                    }
                    assert(ev(s4, c) =~= ev(s3, c));
                    assert forall|x: int|
                        ev(s4, en).kids.contains(x) <==> (ks0.contains(x) || x == c) by {
                        lemma_insert_contains(ks0, posi, c, x);
                    }
                }
            },
        }
    }
}

/// Membership in a run after an insertion.
proof fn lemma_insert_contains(ks: Seq<int>, pos: int, c: int, x: int)
    requires
        0 <= pos <= ks.len(),
    ensures
        ks.insert(pos, c).contains(x) <==> (ks.contains(x) || x == c),
{
    let r = ks.insert(pos, c);
    if r.contains(x) {
        let w = choose|w: int| 0 <= w < r.len() && r[w] == x;
        if w != pos {
            let w0: int = if w < pos {
                w
            } else {
                w - 1
            };
            assert(ks[w0] == x);
        }
    }
    if ks.contains(x) {
        let w = choose|w: int| 0 <= w < ks.len() && ks[w] == x;
        let w2: int = if w < pos {
            w
        } else {
            w + 1
        };
        assert(r[w2] == x);
    }
    if x == c {
        assert(r[pos] == x);
    }
}

/// A proper ancestor always has at least one child.
proof fn lemma_anc_chain_kids(s: Slots, a: int, d: int)
    requires
        forest_wf(s),
        is_anc(s, a, d),
    ensures
        slot_live(s, a),
        ev(s, a).kids.len() > 0,
    decreases (if slot_live(s, d) {
        ev(s, d).rank
    } else {
        0
    }),
{
    lemma_forest_parents(s);
    assert(slot_live(s, d));
    assert(node_wf(s, d));
    match ev(s, d).parent {
        Some(p) => {
            if p == a {
                assert(ev(s, a).kids.contains(d));
                let w = choose|w: int| 0 <= w < ev(s, a).kids.len() && ev(s, a).kids[w] == d;
            } else {
                lemma_anc_chain_kids(s, a, p);
            }
        },
        None => {},
    }
}

/// Ancestry from the starting state carries over to the reordered state for
/// entries away from the touched pair.
proof fn lemma_anc_frame_add(s0: Slots, s3: Slots, j: int, en: int, c: int)
    requires
        parents_wf(s0),
        parents_wf(s3),
        forall|x: int| slot_live(s3, x) <==> slot_live(s0, x),
        slot_live(s0, en),
        slot_live(s0, c),
        ev(s0, c).parent is None,
        ev(s0, c).kids.len() == 0,
        forest_wf(s0),
        forall|x: int| #[trigger] slot_live(s0, x) && x != c ==> ev(s3, x).parent == ev(s0, x).parent,
        en != c,
    ensures
        is_anc(s3, j, en) == is_anc(s0, j, en),
    decreases ev(s0, en).rank,
{
    assert(ev(s3, en).parent == ev(s0, en).parent);
    match ev(s0, en).parent {
        Some(p) => {
            assert(p != c) by {
                if p == c {
                    assert(node_wf(s0, en));
                    assert(ev(s0, c).kids.contains(en));
                    let w = choose|w: int|
                        0 <= w < ev(s0, c).kids.len() && ev(s0, c).kids[w] == en;
                }
            }
            lemma_anc_frame_add(s0, s3, j, p, c);
            assert(is_anc(s3, j, en) == (p == j || is_anc(s3, j, p)));
            assert(is_anc(s0, j, en) == (p == j || is_anc(s0, j, p)));
        },
        None => {},
    }
}




/// The predicate that holds of the slots whose entry is marked.
pub open spec fn marked_in(s: Slots) -> spec_fn(int) -> bool {
    |x: int| ev(s, x).marked
}

/// The predicate that holds of the slots whose entry is not marked.
pub open spec fn unmarked_in(s: Slots) -> spec_fn(int) -> bool {
    |x: int| !ev(s, x).marked
}

/// A member of a filtered run is a member of the run that satisfies the
/// predicate.
pub proof fn lemma_filter_members(ks: Seq<int>, p: spec_fn(int) -> bool, x: int)
    requires
        ks.filter(p).contains(x),
    ensures
        ks.contains(x),
        p(x),
    decreases ks.len(),
{
    reveal(Seq::filter);
    if ks.len() > 0 {
        let d = ks.drop_last();
        if p(ks.last()) && ks.filter(p).last() == x && ks.last() == x {
            assert(ks[ks.len() - 1] == x);
        } else {
            assert(d.filter(p).contains(x)) by {
                let w = choose|w: int|
                    0 <= w < ks.filter(p).len() && #[trigger] ks.filter(p)[w] == x;
                if p(ks.last()) {
                    assert(ks.filter(p) == d.filter(p).push(ks.last()));
                    if w < d.filter(p).len() {
                        assert(d.filter(p)[w] == x);
                    } else {
                        assert(ks[ks.len() - 1] == x);
                        assert(ks.contains(x));
                    }
                } else {
                    assert(ks.filter(p) == d.filter(p));
                }
            }
            if d.filter(p).contains(x) {
                lemma_filter_members(d, p, x);
                let w2 = choose|w2: int| 0 <= w2 < d.len() && d[w2] == x;
                assert(ks[w2] == x);
            }
        }
    }
}

/// An element of a run lands in the filtered run of whichever predicate it
/// satisfies.
pub proof fn lemma_filter_keeps(ks: Seq<int>, p: spec_fn(int) -> bool, w: int)
    requires
        0 <= w < ks.len(),
        p(ks[w]),
    ensures
        ks.filter(p).contains(ks[w]),
    decreases ks.len(),
{
    reveal(Seq::filter);
    if ks.len() > 0 {
        let d = ks.drop_last();
        if w == ks.len() - 1 {
            assert(ks.filter(p).last() == ks[w]);
        } else {
            lemma_filter_keeps(d, p, w);
            assert(d[w] == ks[w]);
            let f = d.filter(p);
            let x = choose|x: int| 0 <= x < f.len() && f[x] == ks[w];
            if p(ks.last()) {
                assert(ks.filter(p)[x] == ks[w]);
            } else {
                assert(ks.filter(p) == f);
            }
        }
    }
}

/// Every entry stays well-formed, apart from the parent's size sum, after the
/// marked children were split off as roots.
#[verifier::rlimit(100)]
#[verifier::spinoff_prover]
proof fn lemma_remove_marked_rest(
    s0: Slots,
    smid: Slots,
    en: int,
    ii: int,
    ks0: Seq<int>,
    gone: Seq<int>,
    keptg: Seq<int>,
)
    requires
        forest_wf(s0),
        slot_live(s0, en),
        ks0 == ev(s0, en).kids,
        gone == ks0.filter(marked_in(s0)),
        keptg == ks0.filter(unmarked_in(s0)),
        forall|j: int| slot_live(smid, j) <==> slot_live(s0, j),
        forall|j: int|
            #[trigger] slot_live(s0, j) ==> ev(smid, j) == (if gone.contains(j) {
                (EntryView { parent: None, ..ev(s0, j) })
            } else if j == en {
                (EntryView { kids: keptg, ..ev(s0, j) })
            } else {
                ev(s0, j)
            }),
        slot_live(smid, ii),
    ensures
        node_rest_wf(smid, ii),
{
    let pm = marked_in(s0);
    let pk = unmarked_in(s0);
    assert(slot_live(s0, ii));
    assert(node_wf(s0, ii));
    assert(node_wf(s0, en));
    assert forall|k: int| 0 <= k < ks0.len() implies slot_live(s0, #[trigger] ks0[k]) && ev(
        s0,
        ks0[k],
    ).parent == Some(en) && ks0[k] != en by {
        assert(node_rest_wf(s0, ks0[k]));
        if ks0[k] == en {
            assert(ev(s0, ks0[k]).rank > ev(s0, en).rank);
        }
    }
    assert(!gone.contains(en) && !keptg.contains(en)) by {
        if gone.contains(en) {
            lemma_filter_members(ks0, pm, en);
        }
        if keptg.contains(en) {
            lemma_filter_members(ks0, pk, en);
        }
    }
    let e0 = ev(s0, ii);
    let e1 = ev(smid, ii);
    if ii == en {
        assert(e1.kids == keptg);
        assert forall|k: int| 0 <= k < keptg.len() implies {
            &&& slot_live(smid, #[trigger] keptg[k])
            &&& ev(smid, keptg[k]).parent == Some(en)
            &&& ev(smid, keptg[k]).rank > e1.rank
        } by {
            assert(keptg.contains(keptg[k]));
            lemma_filter_members(ks0, pk, keptg[k]);
            assert(slot_live(s0, keptg[k]));
            assert(!gone.contains(keptg[k])) by {
                if gone.contains(keptg[k]) {
                    lemma_filter_members(ks0, pm, keptg[k]);
                }
            }
            assert(ev(smid, keptg[k]) == ev(s0, keptg[k]));
        }
        assert forall|a: int, b: int| 0 <= a < b < keptg.len() implies entry_lt(
            ev(smid, #[trigger] keptg[a]),
            ev(smid, #[trigger] keptg[b]),
        ) && ev(smid, keptg[a]).name != ev(smid, keptg[b]).name by {
            assert(keptg.contains(keptg[a]) && keptg.contains(keptg[b]));
            lemma_filter_members(ks0, pk, keptg[a]);
            lemma_filter_members(ks0, pk, keptg[b]);
            assert(!gone.contains(keptg[a]) && !gone.contains(keptg[b])) by {
                if gone.contains(keptg[a]) {
                    lemma_filter_members(ks0, pm, keptg[a]);
                }
                if gone.contains(keptg[b]) {
                    lemma_filter_members(ks0, pm, keptg[b]);
                }
            }
            lemma_filter_pair_order(s0, ks0, pk, a, b);
            assert(ev(smid, keptg[a]) == ev(s0, keptg[a]));
            assert(ev(smid, keptg[b]) == ev(s0, keptg[b]));
        }
        match e1.parent {
            Some(p) => {
                assert(e0.parent == Some(p));
                assert(slot_live(s0, p));
                assert(ev(s0, p).kids.contains(en));
                assert(!gone.contains(p)) by {
                    if gone.contains(p) {
                        lemma_filter_members(ks0, pm, p);
                        assert(ev(s0, p).parent == Some(en));
                        assert(ev(s0, p).rank > ev(s0, en).rank);
                        assert(ev(s0, en).rank > ev(s0, p).rank);
                    }
                }
                assert(ev(smid, p).kids == ev(s0, p).kids || p == en);
                assert(ev(smid, p).rank == ev(s0, p).rank);
            },
            None => {},
        }
    } else {
        assert(e1.kids == e0.kids);
        assert(e1.size == e0.size && e1.local == e0.local && e1.name == e0.name && e1.rank
            == e0.rank);
        assert forall|k: int| 0 <= k < e1.kids.len() implies {
            &&& slot_live(smid, #[trigger] e1.kids[k])
            &&& ev(smid, e1.kids[k]).parent == Some(ii)
            &&& ev(smid, e1.kids[k]).rank > e1.rank
            &&& ev(smid, e1.kids[k]).size == ev(s0, e0.kids[k]).size
            &&& ev(smid, e1.kids[k]).name == ev(s0, e0.kids[k]).name
        } by {
            assert(slot_live(s0, e0.kids[k]));
            assert(ev(s0, e0.kids[k]).parent == Some(ii));
            assert(!gone.contains(e0.kids[k])) by {
                if gone.contains(e0.kids[k]) {
                    lemma_filter_members(ks0, pm, e0.kids[k]);
                    assert(ev(s0, e0.kids[k]).parent == Some(en));
                }
            }
        }
        assert(kids_sorted(smid, e1.kids)) by {
            assert forall|a: int, b: int| 0 <= a < b < e1.kids.len() implies entry_lt(
                ev(smid, #[trigger] e1.kids[a]),
                ev(smid, #[trigger] e1.kids[b]),
            ) by {
                assert(entry_lt(ev(s0, e0.kids[a]), ev(s0, e0.kids[b])));
            }
        }
        match e1.parent {
            Some(p) => {
                assert(e0.parent == Some(p));
                assert(!gone.contains(ii));
                assert(slot_live(s0, p));
                assert(ev(s0, p).kids.contains(ii));
                if p == en {
                    assert(ks0.contains(ii));
                    assert(keptg.contains(ii)) by {
                        let w = choose|w: int| 0 <= w < ks0.len() && ks0[w] == ii;
                        if ev(s0, ii).marked {
                            lemma_filter_keeps(ks0, pm, w);
                        } else {
                            lemma_filter_keeps(ks0, pk, w);
                        }
                    }
                } else {
                    assert(ev(smid, p).kids == ev(s0, p).kids);
                }
                assert(ev(smid, p).rank == ev(s0, p).rank);
            },
            None => {},
        }
    }
}

/// Two members of a filtered run keep the order and name distinctness they
/// had in the sorted original.
proof fn lemma_filter_pair_order(
    s: Slots,
    ks: Seq<int>,
    p: spec_fn(int) -> bool,
    a: int,
    b: int,
)
    requires
        kids_sorted(s, ks),
        forall|x: int, y: int|
            0 <= x < y < ks.len() ==> ev(s, #[trigger] ks[x]).name != ev(s, #[trigger] ks[y]).name,
        0 <= a < b < ks.filter(p).len(),
    ensures
        entry_lt(ev(s, ks.filter(p)[a]), ev(s, ks.filter(p)[b])),
        ev(s, ks.filter(p)[a]).name != ev(s, ks.filter(p)[b]).name,
    decreases ks.len(),
{
    reveal(Seq::filter);
    if ks.len() > 0 {
        let d = ks.drop_last();
        assert(kids_sorted(s, d)) by {
            assert forall|x: int, y: int| 0 <= x < y < d.len() implies entry_lt(
                ev(s, #[trigger] d[x]),
                ev(s, #[trigger] d[y]),
            ) by {
                assert(d[x] == ks[x] && d[y] == ks[y]);
            }
        }
        assert forall|x: int, y: int| 0 <= x < y < d.len() implies ev(s, #[trigger] d[x]).name
            != ev(s, #[trigger] d[y]).name by {
            assert(d[x] == ks[x] && d[y] == ks[y]);
        }
        if p(ks.last()) && b == ks.filter(p).len() - 1 {
            assert(ks.filter(p) == d.filter(p).push(ks.last()));
            assert(ks.filter(p)[a] == d.filter(p)[a]);
            assert(d.filter(p).contains(d.filter(p)[a]));
            lemma_filter_members(d, p, d.filter(p)[a]);
            let w = choose|w: int| 0 <= w < d.len() && d[w] == ks.filter(p)[a];
            assert(ks[w] == ks.filter(p)[a]);
            assert(entry_lt(ev(s, ks[w]), ev(s, ks[ks.len() - 1])));
            assert(ev(s, ks[w]).name != ev(s, ks[ks.len() - 1]).name);
        } else {
            if p(ks.last()) {
                assert(ks.filter(p) == d.filter(p).push(ks.last()));
                assert(ks.filter(p)[a] == d.filter(p)[a]);
                assert(ks.filter(p)[b] == d.filter(p)[b]);
            } else {
                assert(ks.filter(p) == d.filter(p));
            }
            lemma_filter_pair_order(s, d, p, a, b);
        }
    }
}

/// Ancestry carries over when only detached roots changed their parent link.
proof fn lemma_anc_frame_gone(s0: Slots, smid: Slots, j: int, en: int, gone: Seq<int>)
    requires
        parents_wf(s0),
        parents_wf(smid),
        forall|x: int| slot_live(smid, x) <==> slot_live(s0, x),
        slot_live(s0, en),
        forall|x: int|
            #[trigger] slot_live(s0, x) && !gone.contains(x) ==> ev(smid, x).parent == ev(
                s0,
                x,
            ).parent,
        forall|x: int| gone.contains(x) ==> slot_live(s0, x) && ev(s0, x).rank > ev(s0, en).rank,
        !gone.contains(en),
    ensures
        is_anc(smid, j, en) == is_anc(s0, j, en),
    decreases ev(s0, en).rank,
{
    match ev(s0, en).parent {
        Some(p) => {
            assert(!gone.contains(p)) by {
                if gone.contains(p) {
                    assert(ev(s0, p).rank > ev(s0, en).rank);
                    assert(ev(s0, en).rank > ev(s0, p).rank);
                }
            }
            assert forall|x: int| gone.contains(x) implies slot_live(s0, x) && ev(s0, x).rank
                > ev(s0, p).rank by {
                assert(ev(s0, x).rank > ev(s0, en).rank);
            }
            lemma_anc_frame_gone(s0, smid, j, p, gone);
        },
        None => {},
    }
}

impl DirEntry {
    /// Removes all marked children from the entry's child list and returns
    /// them, detached; the entry and its ancestors shrink by the removed
    /// sizes. The returned entries stay in the arena, marked, awaiting
    /// cleanup.
    #[verifier::rlimit(100)]
#[verifier::spinoff_prover]
    pub fn remove_marked(arena: &mut Arena<DirEntry>, entry_id: Id, expected: u32) -> (r: Vec<Id>)
        requires
            old(arena).wf(),
            forest_wf(old(arena)@),
            slot_live(old(arena)@, entry_id@),
        ensures
            final(arena).wf(),
            forest_wf(final(arena)@),
            ({
                let s0 = old(arena)@;
                let s1 = final(arena)@;
                let en = entry_id@;
                let ks0 = ev(s0, en).kids;
                let gone = ks0.filter(marked_in(s0));
                let kept = ks0.filter(unmarked_in(s0));
                let ns = ev(s0, en).size - kids_size(s0, gone);
                &&& s1.len() == s0.len()
                &&& (forall|j: int| slot_live(s1, j) <==> slot_live(s0, j))
                &&& ids_of(r@) == gone
                &&& ev(s1, en) == (EntryView { kids: kept, size: ns, ..ev(s0, en) })
                &&& (forall|x: int|
                    gone.contains(x) ==> ev(s1, x) == (EntryView { parent: None, ..ev(s0, x) }))
                &&& (forall|j: int|
                    #[trigger] slot_live(s0, j) && j != en && !gone.contains(j)
                        ==> same_entry_resized(s0, s1, j, en, ns, ev(s0, en).local))
            }),
    {
        let ghost s0 = arena@;
        let ghost en = entry_id@;
        let ghost ks0 = ev(s0, en).kids;
        let ghost pm = marked_in(s0);
        let ghost pk = unmarked_in(s0);
        proof {
            lemma_forest_parents(s0);
            assert(node_wf(s0, en));
            assert forall|k: int| 0 <= k < ks0.len() implies slot_live(s0, #[trigger] ks0[k])
                && ev(s0, ks0[k]).parent == Some(en) && ev(s0, ks0[k]).size >= 0 && ks0[k]
                != en by {
                assert(node_rest_wf(s0, ks0[k]));
                if ks0[k] == en {
                    assert(ev(s0, ks0[k]).rank > ev(s0, en).rank);
                }
            }
            assert forall|a: int, b: int| 0 <= a < b < ks0.len() implies ks0[a] != ks0[b] by {
                assert(ev(s0, ks0[a]).name != ev(s0, ks0[b]).name);
            }
            reveal(Seq::filter);
            assert(ks0.take(0) =~= Seq::<int>::empty());
            assert(ids_of(Seq::<Id>::empty()) =~= Seq::<int>::empty());
            lemma_kids_size_nonneg(s0, ks0);
            assert(node_sum_ok(s0, en));
            assert(kids_size(s0, ks0) <= ev(s0, en).size);
        }
        let mut ks: Vec<Id> = Vec::new();
        {
            let e = arena.get_mut(entry_id);
            core::mem::swap(&mut e.directories, &mut ks);
        }
        let mut kept: Vec<Id> = Vec::new();
        let mut removed: Vec<Id> = Vec::new();
        let mut removed_size: i64 = 0;
        let mut i: usize = 0;
        while i < ks.len()
            invariant
                arena.wf(),
                0 <= i <= ks@.len(),
                ids_of(ks@) == ks0,
                en == entry_id@,
                slot_live(s0, en),
                node_wf(s0, en),
                ks0 == ev(s0, en).kids,
                forall|k: int|
                    0 <= k < ks0.len() ==> slot_live(s0, #[trigger] ks0[k]) && ev(
                        s0,
                        ks0[k],
                    ).parent == Some(en) && ev(s0, ks0[k]).size >= 0 && ks0[k] != en,
                forall|a: int, b: int| 0 <= a < b < ks0.len() ==> ks0[a] != ks0[b],
                ids_of(kept@) == ks0.take(i as int).filter(pk),
                ids_of(removed@) == ks0.take(i as int).filter(pm),
                pm == marked_in(s0),
                pk == unmarked_in(s0),
                removed_size == kids_size(s0, ks0.take(i as int).filter(pm)),
                removed_size + kids_size(s0, ks0.take(i as int).filter(pk)) == kids_size(
                    s0,
                    ks0.take(i as int),
                ),
                0 <= removed_size,
                0 <= kids_size(s0, ks0.take(i as int).filter(pk)),
                kids_size(s0, ks0.take(i as int)) <= kids_size(s0, ks0) <= ev(s0, en).size,
                arena@.len() == s0.len(),
                forall|j: int| slot_live(arena@, j) <==> slot_live(s0, j),
                forall|j: int|
                    #[trigger] slot_live(s0, j) ==> ev(arena@, j) == (if ids_of(
                        removed@,
                    ).contains(j) {
                        (EntryView { parent: None, ..ev(s0, j) })
                    } else if j == en {
                        (EntryView { kids: Seq::<int>::empty(), ..ev(s0, j) })
                    } else {
                        ev(s0, j)
                    }),
            decreases ks@.len() - i,
        {
            let ghost sc = arena@;
            proof {
                reveal(Seq::filter);
                assert(ks0.take(i + 1).drop_last() =~= ks0.take(i as int));
                assert(ks0.take(i + 1).last() == ks0[i as int]);
                lemma_kids_size_split(s0, ks0, i + 1);
                lemma_kids_size_split(s0, ks0, i as int);
                assert forall|k: int| 0 <= k < ks0.skip(i + 1).len() implies ev(
                    s0,
                    #[trigger] ks0.skip(i + 1)[k],
                ).size >= 0 by {
                    assert(ks0.skip(i + 1)[k] == ks0[k + i + 1]);
                }
                lemma_kids_size_nonneg(s0, ks0.skip(i + 1));
                assert(!ids_of(removed@).contains(ks0[i as int])) by {
                    if ids_of(removed@).contains(ks0[i as int]) {
                        lemma_filter_members(ks0.take(i as int), pm, ks0[i as int]);
                        let w2 = choose|w2: int|
                            0 <= w2 < i && #[trigger] ks0.take(i as int)[w2] == ks0[i as int];
                        assert(ks0[w2] == ks0[i as int]);
                    }
                }
            }
            let kid = ks[i];
            proof {
                assert(kid@ == ks0[i as int]);
                assert(ev(arena@, kid@).marked == ev(s0, kid@).marked);
                assert(ev(arena@, kid@).size == ev(s0, kid@).size);
            }
            let marked = arena.get(kid).is_marked;
            if marked {
                let sz = arena.get(kid).get_size();
                removed_size = removed_size + sz;
                {
                    let km = arena.get_mut(kid);
                    km.parent = None;
                }
                let ghost r0 = ids_of(removed@);
                removed.push(kid);
                proof {
                    assert(ids_of(removed@) =~= r0.push(kid@));
                    assert(ks0.take(i + 1).filter(pm) == ks0.take(i as int).filter(pm).push(
                        ks0[i as int],
                    ));
                    assert(ks0.take(i + 1).filter(pk) == ks0.take(i as int).filter(pk));
                    assert(kids_size(s0, ks0.take(i as int).filter(pm).push(ks0[i as int]))
                        == kids_size(s0, ks0.take(i as int).filter(pm)) + ev(
                        s0,
                        ks0[i as int],
                    ).size) by {
                        let q = ks0.take(i as int).filter(pm).push(ks0[i as int]);
                        assert(q.drop_last() =~= ks0.take(i as int).filter(pm));
                    }
                    assert(ev(arena@, kid@) =~= (EntryView { parent: None, ..ev(s0, kid@) }));
                    assert forall|j: int| #[trigger] slot_live(s0, j) implies ev(arena@, j) == (
                    if ids_of(removed@).contains(j) {
                        (EntryView { parent: None, ..ev(s0, j) })
                    } else if j == en {
                        (EntryView { kids: Seq::<int>::empty(), ..ev(s0, j) })
                    } else {
                        ev(s0, j)
                    }) by {
                        if j != kid@ {
                            assert(ids_of(removed@).contains(j) == r0.contains(j)) by {
                                if ids_of(removed@).contains(j) {
                                    let w = choose|w: int|
                                        0 <= w < ids_of(removed@).len() && #[trigger] ids_of(
                                            removed@,
                                        )[w] == j;
                                    assert(w < r0.len());
                                    assert(r0[w] == j);
                                }
                                if r0.contains(j) {
                                    let w2 = choose|w2: int|
                                        0 <= w2 < r0.len() && #[trigger] r0[w2] == j;
                                    assert(ids_of(removed@)[w2] == j);
                                }
                            }
                            assert(ev(arena@, j) == ev(sc, j));
                        }
                    }
                }
            } else {
                let ghost k0 = ids_of(kept@);
                kept.push(kid);
                proof {
                    assert(ids_of(kept@) =~= k0.push(kid@));
                    assert(ks0.take(i + 1).filter(pk) == ks0.take(i as int).filter(pk).push(
                        ks0[i as int],
                    ));
                    assert(ks0.take(i + 1).filter(pm) == ks0.take(i as int).filter(pm));
                    assert(kids_size(s0, ks0.take(i as int).filter(pk).push(ks0[i as int]))
                        == kids_size(s0, ks0.take(i as int).filter(pk)) + ev(
                        s0,
                        ks0[i as int],
                    ).size) by {
                        let q = ks0.take(i as int).filter(pk).push(ks0[i as int]);
                        assert(q.drop_last() =~= ks0.take(i as int).filter(pk));
                    }
                }
            }
            i = i + 1;
        }
        proof {
            assert(ks0.take(ks@.len() as int) =~= ks0);
            assert(!ids_of(removed@).contains(en)) by {
                if ids_of(removed@).contains(en) {
                    lemma_filter_members(ks0, pm, en);
                    let w = choose|w: int| 0 <= w < ks0.len() && ks0[w] == en;
                }
            }
        }
        {
            let e = arena.get_mut(entry_id);
            core::mem::swap(&mut e.directories, &mut kept);
        }
        let ghost smid = arena@;
        let ghost gone = ks0.filter(pm);
        let ghost keptg = ks0.filter(pk);
        let es = arena.get(entry_id).get_size();
        let ns = es - removed_size;
        let ghost nsi = ns as int;
        proof {
            assert(!gone.contains(en)) by {
                if gone.contains(en) {
                    lemma_filter_members(ks0, pm, en);
                    let w = choose|w: int| 0 <= w < ks0.len() && ks0[w] == en;
                }
            }
            assert(ev(smid, en) =~= (EntryView { kids: keptg, ..ev(s0, en) }));
            assert forall|x: int| gone.contains(x) implies ks0.contains(x) && slot_live(s0, x)
                && ev(s0, x).parent == Some(en) && ev(s0, x).rank > ev(s0, en).rank by {
                lemma_filter_members(ks0, pm, x);
                let w = choose|w: int| 0 <= w < ks0.len() && ks0[w] == x;
                assert(node_rest_wf(s0, x));
            }
            assert forall|ii: int| #[trigger] slot_live(smid, ii) implies node_rest_wf(
                smid,
                ii,
            ) by {
                lemma_remove_marked_rest(s0, smid, en, ii, ks0, gone, keptg);
            }
            assert forall|ii: int| #[trigger] slot_live(smid, ii) && ii != en implies node_sum_ok(
                smid,
                ii,
            ) by {
                assert(slot_live(s0, ii));
                assert(node_wf(s0, ii));
                let e0 = ev(s0, ii);
                assert(ev(smid, ii).kids == e0.kids);
                assert(ev(smid, ii).size == e0.size);
                assert(ev(smid, ii).local == e0.local);
                assert forall|k: int| 0 <= k < e0.kids.len() implies ev(
                    smid,
                    #[trigger] e0.kids[k],
                ).size == ev(s0, e0.kids[k]).size by {
                    assert(slot_live(s0, e0.kids[k]));
                }
                lemma_kids_size_frame(s0, smid, e0.kids);
            }
            assert forall|k: int| 0 <= k < keptg.len() implies ev(smid, #[trigger] keptg[k]).size
                == ev(s0, keptg[k]).size by {
                assert(keptg.contains(keptg[k]));
                lemma_filter_members(ks0, pk, keptg[k]);
            }
            lemma_kids_size_frame(s0, smid, keptg);
            assert(node_sum_ok(s0, en));
            assert(nsi == kids_size(smid, keptg) + ev(smid, en).local);
            assert(wf_except(smid, en, nsi));
            lemma_forest_parents(smid);
        }
        let par = arena.get(entry_id).get_parent();
        match par {
            Some(g) => {
                proof {
                    assert(ev(smid, en).parent == Some(g@));
                    lemma_view_size_bounded(smid, root_of(smid, en));
                    assert(nsi - ev(smid, en).size <= 0);
                }
                size_changed_rec(arena, g, entry_id, ns);
                proof {
                    let s1 = arena@;
                    assert forall|j: int|
                        #[trigger] slot_live(s0, j) && j != en && !gone.contains(
                        j,
                    ) implies same_entry_resized(s0, s1, j, en, nsi, ev(s0, en).local) by {
                        assert(slot_live(smid, j));
                        assert(same_entry_resized(smid, s1, j, en, nsi, ev(smid, en).local));
                        lemma_anc_frame_gone(s0, smid, j, en, gone);
                        assert(ev(smid, j) == ev(s0, j));
                    }
                    assert forall|x: int| gone.contains(x) implies ev(s1, x) == (EntryView {
                        parent: None,
                        ..ev(s0, x)
                    }) by {
                        assert(slot_live(s0, x));
                        assert(slot_live(smid, x));
                        assert(same_entry_resized(smid, s1, x, en, nsi, ev(smid, en).local));
                        assert(!is_anc(smid, x, en)) by {
                            if is_anc(smid, x, en) {
                                lemma_anc_rank(smid, x, en);
                                assert(ev(smid, x).rank == ev(s0, x).rank);
                                assert(ev(s0, x).rank > ev(s0, en).rank);
                            }
                        }
                        assert(ev(s1, x) =~= ev(smid, x));
                    }
                    assert(same_entry_resized(smid, s1, en, en, nsi, ev(smid, en).local));
                    assert(!is_anc(smid, en, en)) by {
                        if is_anc(smid, en, en) {
                            lemma_anc_rank(smid, en, en);
                        }
                    }
                    assert(ev(s1, en).kids == keptg);
                    assert(ev(s1, en) =~= (EntryView { kids: keptg, size: nsi, ..ev(s0, en) }));
                }
            },
            None => {
                let em = arena.get_mut(entry_id);
                em.size = ns;
                proof {
                    let s1 = arena@;
                    assert(ev(s1, en) =~= (EntryView { size: nsi, ..ev(smid, en) }));
                    assert forall|k: int| 0 <= k < keptg.len() implies ev(
                        smid,
                        #[trigger] keptg[k],
                    ).size >= 0 by {
                        assert(keptg.contains(keptg[k]));
                        lemma_filter_members(ks0, pk, keptg[k]);
                        assert(slot_live(s0, keptg[k]));
                        assert(node_wf(s0, keptg[k]));
                    }
                    lemma_kids_size_nonneg(smid, keptg);
                    lemma_wf_after_root_set(smid, s1, en, nsi);
                    assert forall|j: int|
                        #[trigger] slot_live(s0, j) && j != en && !gone.contains(
                        j,
                    ) implies same_entry_resized(s0, s1, j, en, nsi, ev(s0, en).local) by {
                        assert(ev(s1, j) == ev(smid, j));
                        assert(ev(smid, j) == ev(s0, j));
                        assert(!is_anc(s0, j, en)) by {
                            if is_anc(s0, j, en) {
                                assert(slot_live(s0, en));
                            }
                        }
                    }
                    assert forall|x: int| gone.contains(x) implies ev(s1, x) == (EntryView {
                        parent: None,
                        ..ev(s0, x)
                    }) by {
                        assert(slot_live(s0, x));
                        assert(x != en);
                        assert(ev(s1, x) =~= ev(smid, x));
                    }
                    assert(ev(s1, en) =~= (EntryView { kids: keptg, size: nsi, ..ev(s0, en) }));
                }
            },
        }
        removed
    }
}

} // verus!
