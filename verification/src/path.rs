use vstd::prelude::*;

verus! {

/// 16-bit fingerprint of a path: the XOR-fold of per-segment checksums.
pub type PathCrc = u16;

/// Checksum of one path segment, as the CRC-16/ISO-IEC-14443-3-A algorithm
/// computes it; the value depends on the segment text alone.
pub uninterp spec fn crc16_of(s: Seq<char>) -> u16;

/// Relies on crc::Crc::checksum with the CRC-16/ISO-IEC-14443-3-A algorithm:
/// the result is a function of the input text alone.
#[verifier::external_body]
pub(crate) fn crc16(s: &str) -> (r: u16)
    ensures
        r == crc16_of(s@),
{
    crc::Crc::<u16>::new(&crc::CRC_16_ISO_IEC_14443_3_A).checksum(s.as_bytes())
}

/// Relies on String::push: appends one character to the text.
#[verifier::external_body]
fn push_char(s: &mut String, c: char)
    ensures
        final(s)@ == old(s)@.push(c),
{
    s.push(c);
}

/// Relies on str::chars: yields the characters of the text in order.
#[verifier::external_body]
pub(crate) fn chars_vec(s: &str) -> (r: Vec<char>)
    ensures
        r@ == s@,
{
    s.chars().collect()
}

/// Strict lexicographic order on text, comparing characters by code point.
pub open spec fn text_lt(a: Seq<char>, b: Seq<char>) -> bool
    decreases a.len(),
{
    if b.len() == 0 {
        false
    } else if a.len() == 0 {
        true
    } else if a[0] != b[0] {
        a[0] < b[0]
    } else {
        text_lt(a.skip(1), b.skip(1))
    }
}

/// Two texts that neither orders below the other are equal.
pub proof fn lemma_text_lt_total(a: Seq<char>, b: Seq<char>)
    ensures
        !text_lt(a, b) && !text_lt(b, a) ==> a == b,
    decreases a.len(),
{
    if !text_lt(a, b) && !text_lt(b, a) {
        if a.len() == 0 || b.len() == 0 {
            assert(a =~= b);
        } else {
            lemma_text_lt_total(a.skip(1), b.skip(1));
            assert(a.skip(1) == b.skip(1));
            assert(a =~= seq![a[0]] + a.skip(1));
            assert(b =~= seq![b[0]] + b.skip(1));
            assert(a == b);
        }
    }
}

/// No text orders below itself.
pub proof fn lemma_text_lt_irrefl(a: Seq<char>)
    ensures
        !text_lt(a, a),
    decreases a.len(),
{
    if a.len() > 0 {
        lemma_text_lt_irrefl(a.skip(1));
    }
}

/// The lexicographic order is transitive.
pub proof fn lemma_text_lt_trans(a: Seq<char>, b: Seq<char>, c: Seq<char>)
    requires
        text_lt(a, b),
        text_lt(b, c),
    ensures
        text_lt(a, c),
    decreases a.len(),
{
    if a.len() > 0 && b.len() > 0 && c.len() > 0 && a[0] == b[0] && b[0] == c[0] {
        lemma_text_lt_trans(a.skip(1), b.skip(1), c.skip(1));
    }
}

/// Compares two texts in the lexicographic order on characters.
pub(crate) fn str_lt(a: &str, b: &str) -> (r: bool)
    ensures
        r == text_lt(a@, b@),
{
    let va = chars_vec(a);
    let vb = chars_vec(b);
    let mut i: usize = 0;
    proof {
        assert(a@.skip(0) =~= a@);
        assert(b@.skip(0) =~= b@);
    }
    loop
        invariant
            va@ == a@,
            vb@ == b@,
            0 <= i <= va@.len(),
            i <= vb@.len(),
            forall|j: int| 0 <= j < i ==> va@[j] == vb@[j],
            text_lt(a@, b@) == text_lt(a@.skip(i as int), b@.skip(i as int)),
        decreases va@.len() - i,
    {
        if i < va.len() && i < vb.len() {
            let ca = va[i];
            let cb = vb[i];
            if ca != cb {
                proof {
                    assert(a@.skip(i as int)[0] == ca);
                    assert(b@.skip(i as int)[0] == cb);
                }
                return ca < cb;
            }
            proof {
                assert(a@.skip(i as int).skip(1) =~= a@.skip(i + 1));
                assert(b@.skip(i as int).skip(1) =~= b@.skip(i + 1));
            }
            i = i + 1;
        } else {
            proof {
                if i >= va@.len() {
                    assert(a@.skip(i as int).len() == 0);
                } else {
                    assert(b@.skip(i as int).len() == 0);
                    assert(a@.skip(i as int).len() > 0);
                }
            }
            return i >= va.len() && i < vb.len();
        }
    }
}

/// Whether a native path text is absolute.
pub open spec fn is_abs(s: Seq<char>) -> bool {
    s.len() > 0 && s[0] == '/'
}

/// The separator-delimited segments of a native path text: the maximal runs
/// of non-separator characters, in order.
pub open spec fn segs(s: Seq<char>) -> Seq<Seq<char>>
    decreases s.len(),
{
    if s.len() == 0 {
        Seq::empty()
    } else {
        let c = s.last();
        let pre = segs(s.drop_last());
        if c == '/' {
            pre
        } else if s.len() >= 2 && s[s.len() - 2] != '/' {
            pre.update(pre.len() - 1, pre.last().push(c))
        } else {
            pre.push(seq![c])
        }
    }
}

/// Splits a text into its separator-delimited segments.
#[verifier::spinoff_prover]
fn split_segs(s: &str) -> (r: Vec<String>)
    ensures
        r@.map_values(|x: String| x@) == segs(s@),
{
    let cs = chars_vec(s);
    let mut done: Vec<String> = Vec::new();
    let mut cur: String = String::new();
    let mut i: usize = 0;
    while i < cs.len()
        invariant
            cs@ == s@,
            0 <= i <= cs@.len(),
            cur@.len() > 0 ==> i > 0 && s@[i - 1] != '/',
            cur@.len() == 0 ==> i == 0 || s@[i - 1] == '/',
            segs(s@.take(i as int)) == if cur@.len() > 0 {
                done@.map_values(|x: String| x@).push(cur@)
            } else {
                done@.map_values(|x: String| x@)
            },
        decreases cs@.len() - i,
    {
        let c = cs[i];
        proof {
            assert(s@.take(i + 1).drop_last() =~= s@.take(i as int));
            assert(s@.take(i + 1).last() == s@[i as int]);
        }
        if c == '/' {
            if !cur.as_str().is_empty() {
                let ghost dm0 = done@.map_values(|x: String| x@);
                let ghost cv0 = cur@;
                let finished = cur;
                cur = String::new();
                done.push(finished);
                proof {
                    assert(done@.map_values(|x: String| x@) =~= dm0.push(cv0));
                }
            }
        } else {
            if cur.as_str().is_empty() {
                proof {
                    if i > 0 && s@[i - 1] == '/' {
                        assert(s@.take(i + 1)[i - 1] == s@[i - 1]);
                    }
                    assert(segs(s@.take(i + 1)) == segs(s@.take(i as int)).push(seq![s@[i as int]]));
                }
                push_char(&mut cur, c);
                proof {
                    assert(cur@ =~= seq![s@[i as int]]);
                }
            } else {
                proof {
                    assert(s@.take(i + 1)[i - 1] == s@[i - 1]);
                    let pre = segs(s@.take(i as int));
                    assert(segs(s@.take(i + 1)) == pre.update(pre.len() - 1, pre.last().push(
                        s@[i as int],
                    )));
                    assert(pre == done@.map_values(|x: String| x@).push(cur@));
                    assert(pre.len() == done@.len() + 1);
                    assert(pre.last() == cur@);
                }
                let ghost cv0 = cur@;
                push_char(&mut cur, c);
                proof {
                    let dm = done@.map_values(|x: String| x@);
                    assert(cur@ == cv0.push(s@[i as int]));
                    assert(dm.push(cv0).update(dm.len() as int, cv0.push(s@[i as int])) =~= dm.push(
                        cv0.push(s@[i as int]),
                    ));
                }
            }
        }
        i = i + 1;
    }
    proof {
        assert(s@.take(cs@.len() as int) =~= s@);
    }
    if !cur.as_str().is_empty() {
        let ghost dm0 = done@.map_values(|x: String| x@);
        let ghost cv0 = cur@;
        done.push(cur);
        proof {
            assert(done@.map_values(|x: String| x@) =~= dm0.push(cv0));
        }
    }
    done
}

/// The components of a native path text, as path prefixes compare: the
/// segments of the text, with every `.` segment dropped except a leading one
/// on a relative path.
pub open spec fn comps(s: Seq<char>) -> Seq<Seq<char>> {
    if !is_abs(s) && segs(s).len() > 0 && segs(s)[0] == seq!['.'] {
        seq![seq!['.']] + segs(s).skip(1).filter(|x: Seq<char>| x != seq!['.'])
    } else {
        segs(s).filter(|x: Seq<char>| x != seq!['.'])
    }
}

/// Splits a text into its path components.
#[verifier::spinoff_prover]
fn comp_vec(s: &str) -> (r: Vec<String>)
    ensures
        r@.map_values(|x: String| x@) == comps(s@),
{
    let raw = split_segs(s);
    let ghost rm = raw@.map_values(|x: String| x@);
    let cs = chars_vec(s);
    let abs = cs.len() > 0 && cs[0] == '/';
    let dot: String = ".".to_owned();
    proof {
        reveal_strlit(".");
        assert(dot@ =~= seq!['.']);
    }
    let mut out: Vec<String> = Vec::new();
    let mut i: usize = 0;
    let ghost p = |x: Seq<char>| x != seq!['.'];
    if raw.len() > 0 && !abs && (&raw[0]).eq(&dot) {
        out.push(dot.clone());
        i = 1;
    }
    let ghost start = i as int;
    let ghost head = out@.map_values(|x: String| x@);
    proof {
        reveal(Seq::filter);
        assert(rm.subrange(start, start) =~= Seq::<Seq<char>>::empty());
        assert(Seq::<Seq<char>>::empty().filter(p) =~= Seq::<Seq<char>>::empty());
        assert(head + Seq::<Seq<char>>::empty() =~= head);
    }
    while i < raw.len()
        invariant
            rm == raw@.map_values(|x: String| x@),
            dot@ == seq!['.'],
            p == (|x: Seq<char>| x != seq!['.']),
            0 <= start <= i <= rm.len(),
            out@.map_values(|x: String| x@) == head + rm.subrange(start, i as int).filter(p),
        decreases rm.len() - i,
    {
        proof {
            reveal(Seq::filter);
            assert(rm.subrange(start, i + 1).drop_last() =~= rm.subrange(start, i as int));
            assert(rm.subrange(start, i + 1).last() == rm[i as int]);
        }
        if !(&raw[i]).eq(&dot) {
            let ghost om = out@.map_values(|x: String| x@);
            let kept = (&raw[i]).clone();
            out.push(kept);
            proof {
                assert(out@.map_values(|x: String| x@) =~= om.push(rm[i as int]));
            }
        }
        i = i + 1;
    }
    proof {
        reveal(Seq::filter);
        assert(rm.subrange(start, rm.len() as int) =~= rm.skip(start));
        if start == 1 {
            assert(head =~= seq![seq!['.']]);
            assert(!is_abs(s@) && rm.len() > 0 && rm[0] == seq!['.']);
        } else {
            assert(head =~= Seq::<Seq<char>>::empty());
            assert(rm.skip(0) =~= rm);
            assert(head + rm.filter(p) =~= rm.filter(p));
            if !is_abs(s@) && rm.len() > 0 && rm[0] == seq!['.'] {
                assert(false);
            }
        }
    }
    out
}

/// Fingerprint of a path given by its parts: the XOR-fold, left to right, of
/// the parts' checksums.
pub open spec fn parts_crc(ps: Seq<Seq<char>>) -> u16
    decreases ps.len(),
{
    if ps.len() == 0 {
        0u16
    } else {
        parts_crc(ps.drop_last()) ^ crc16_of(ps.last())
    }
}

/// Whether `path` lies at or below `root`: the two agree on absoluteness
/// (unless the root has no components at all) and the root's components are
/// a prefix of the path's.
pub open spec fn from_ok(root: Seq<char>, path: Seq<char>) -> bool {
    &&& is_abs(root) == is_abs(path) || (!is_abs(root) && comps(root).len() == 0)
    &&& comps(root).is_prefix_of(comps(path))
}

/// The parts of the entry path built for `path` under `root`: the root text
/// itself, spelled as given, then the components of `path` below the root.
pub open spec fn from_parts(root: Seq<char>, path: Seq<char>) -> Seq<Seq<char>> {
    seq![root] + comps(path).skip(comps(root).len() as int)
}

/// The native path text of an entry path: its parts joined by the separator.
pub open spec fn joined(ps: Seq<Seq<char>>) -> Seq<char>
    decreases ps.len(),
{
    if ps.len() == 0 {
        Seq::empty()
    } else if ps.len() == 1 {
        ps[0]
    } else {
        joined(ps.drop_last()) + seq!['/'] + ps.last()
    }
}

/// An ordered, non-empty sequence of path parts.
///
/// The first part is the scan root, spelled exactly as it was given; each
/// later part is the name of one directory below it. The view of an entry
/// path is the sequence of its parts' texts.
#[derive(Debug)]
pub struct EntryPath {
    parts: Vec<String>,
}

impl View for EntryPath {
    type V = Seq<Seq<char>>;

    closed spec fn view(&self) -> Seq<Seq<char>> {
        self.parts@.map_values(|s: String| s@)
    }
}

impl Clone for EntryPath {
    fn clone(&self) -> (r: Self)
        ensures
            r@ == self@,
    {
        let mut parts: Vec<String> = Vec::new();
        let mut i: usize = 0;
        while i < self.parts.len()
            invariant
                0 <= i <= self.parts@.len(),
                parts@.map_values(|s: String| s@) == self@.take(i as int),
            decreases self.parts@.len() - i,
        {
            let ghost pm0 = parts@.map_values(|s: String| s@);
            parts.push(self.parts[i].clone());
            proof {
                assert(parts@.map_values(|s: String| s@) =~= pm0.push(self@[i as int]));
                assert(pm0.push(self@[i as int]) =~= self@.take(i + 1));
            }
            i = i + 1;
        }
        proof {
            assert(self@.take(self.parts@.len() as int) =~= self@);
        }
        EntryPath { parts }
    }
}

impl PartialEq for EntryPath {
    fn eq(&self, other: &Self) -> (r: bool) {
        if self.parts.len() != other.parts.len() {
            proof {
                assert(self@.len() != other@.len());
            }
            return false;
        }
        let mut i: usize = 0;
        while i < self.parts.len()
            invariant
                0 <= i <= self.parts@.len(),
                self.parts@.len() == other.parts@.len(),
                forall|j: int| 0 <= j < i ==> self@[j] == other@[j],
            decreases self.parts@.len() - i,
        {
            if !(&self.parts[i]).eq(&other.parts[i]) {
                proof {
                    assert(self@[i as int] != other@[i as int]);
                }
                return false;
            }
            i = i + 1;
        }
        proof {
            assert(self@ =~= other@);
        }
        true
    }
}

impl vstd::std_specs::cmp::PartialEqSpecImpl for EntryPath {
    open spec fn obeys_eq_spec() -> bool {
        true
    }

    open spec fn eq_spec(&self, other: &Self) -> bool {
        self@ == other@
    }
}

impl PartialOrd for EntryPath {
    /// Orders a path before every path strictly below it; paths on different
    /// branches are incomparable.
    fn partial_cmp(&self, other: &Self) -> (r: Option<core::cmp::Ordering>) {
        let a = self.parts.len();
        let b = other.parts.len();
        let n: usize = if a < b {
            a
        } else {
            b
        };
        let mut i: usize = 0;
        while i < n
            invariant
                0 <= i <= n,
                n == if self@.len() < other@.len() {
                    self@.len()
                } else {
                    other@.len()
                },
                forall|j: int| 0 <= j < i ==> self@[j] == other@[j],
            decreases n - i,
        {
            if !(&self.parts[i]).eq(&other.parts[i]) {
                proof {
                    assert(self@[i as int] != other@[i as int]);
                    if self@.is_prefix_of(other@) {
                        assert(self@[i as int] == other@.subrange(0, self@.len() as int)[i as int]);
                    }
                    if other@.is_prefix_of(self@) {
                        assert(other@[i as int] == self@.subrange(0, other@.len() as int)[i as int]);
                    }
                    assert(self@ != other@);
                }
                return None;
            }
            i = i + 1;
        }
        if a == b {
            proof {
                assert(self@ =~= other@);
            }
            Some(core::cmp::Ordering::Equal)
        } else if a < b {
            proof {
                assert(self@ =~= other@.subrange(0, self@.len() as int));
                assert(self@ != other@);
            }
            Some(core::cmp::Ordering::Less)
        } else {
            proof {
                assert(other@ =~= self@.subrange(0, other@.len() as int));
                assert(self@ != other@);
                assert(!self@.is_prefix_of(other@));
            }
            Some(core::cmp::Ordering::Greater)
        }
    }
}

impl vstd::std_specs::cmp::PartialOrdSpecImpl for EntryPath {
    open spec fn obeys_partial_cmp_spec() -> bool {
        true
    }

    open spec fn partial_cmp_spec(&self, other: &Self) -> Option<core::cmp::Ordering> {
        if self@ == other@ {
            Some(core::cmp::Ordering::Equal)
        } else if self@.is_prefix_of(other@) {
            Some(core::cmp::Ordering::Less)
        } else if other@.is_prefix_of(self@) {
            Some(core::cmp::Ordering::Greater)
        } else {
            None
        }
    }
}

impl EntryPath {
    /// Creates a new entry path holding the root only.
    pub fn new(root: String) -> (r: Self)
        ensures
            r@ == seq![root@],
    {
        let ghost rv = root@;
        let mut parts: Vec<String> = Vec::new();
        parts.push(root);
        proof {
            assert(parts@.map_values(|s: String| s@) =~= seq![rv]);
        }
        EntryPath { parts }
    }

    /// Adds a new part to the end of the path.
    pub fn join(&mut self, part: String)
        ensures
            final(self)@ == old(self)@.push(part@),
    {
        let ghost pv = part@;
        let ghost m0 = self@;
        self.parts.push(part);
        proof {
            assert(self.parts@.map_values(|s: String| s@) =~= m0.push(pv));
        }
    }

    /// Calculates the fingerprint of the given parts: the XOR of the parts'
    /// checksums, or `None` if no parts are given.
    pub fn calc_crc(parts: &[String]) -> (r: Option<PathCrc>)
        ensures
            parts@.len() == 0 ==> r is None,
            parts@.len() > 0 ==> r == Some(parts_crc(parts@.map_values(|s: String| s@))),
    {
        if parts.len() == 0 {
            return None;
        }
        let ghost pm = parts@.map_values(|s: String| s@);
        let mut acc: u16 = 0;
        let mut i: usize = 0;
        proof {
            assert(parts_crc(pm.take(0)) == 0) by {
                assert(pm.take(0) =~= Seq::<Seq<char>>::empty());
            }
        }
        while i < parts.len()
            invariant
                0 <= i <= parts@.len(),
                pm == parts@.map_values(|s: String| s@),
                acc == parts_crc(pm.take(i as int)),
            decreases parts@.len() - i,
        {
            let c = crc16((&parts[i]).as_str());
            proof {
                assert(pm.take(i + 1).drop_last() =~= pm.take(i as int));
                assert(pm.take(i + 1).last() == pm[i as int]);
            }
            acc = acc ^ c;
            i = i + 1;
        }
        proof {
            assert(pm.take(parts@.len() as int) =~= pm);
        }
        Some(acc)
    }

    /// The fingerprint that represents this path.
    pub fn get_crc(&self) -> (r: PathCrc)
        requires
            self@.len() >= 1,
        ensures
            r == parts_crc(self@),
    {
        match Self::calc_crc(self.parts.as_slice()) {
            Some(c) => c,
            None => vstd::pervasive::unreached(),
        }
    }

    /// The last part of this path.
    pub fn get_name(&self) -> (r: &str)
        requires
            self@.len() >= 1,
        ensures
            r@ == self@.last(),
    {
        (&self.parts[self.parts.len() - 1]).as_str()
    }

    /// The native path text of this path: its parts joined by the separator.
    pub fn get_path(&self) -> (r: String)
        requires
            self@.len() >= 1,
        ensures
            r@ == joined(self@),
    {
        let mut s: String = (&self.parts[0]).clone();
        let mut i: usize = 1;
        proof {
            assert(self@.take(1) =~= seq![self@[0]]);
        }
        while i < self.parts.len()
            invariant
                1 <= i <= self.parts@.len(),
                s@ == joined(self@.take(i as int)),
            decreases self.parts@.len() - i,
        {
            s.append("/");
            s.append((&self.parts[i]).as_str());
            proof {
                reveal_strlit("/");
                assert("/"@ =~= seq!['/']);
                assert(self@.take(i + 1).drop_last() =~= self@.take(i as int));
                assert(self@.take(i + 1).last() == self@[i as int]);
            }
            i = i + 1;
        }
        proof {
            assert(self@.take(self.parts@.len() as int) =~= self@);
        }
        s
    }

    /// Changes the path to its parent.
    pub fn go_up(&mut self)
        requires
            old(self)@.len() > 1,
        ensures
            final(self)@ == old(self)@.drop_last(),
    {
        let ghost m0 = self@;
        self.parts.pop();
        proof {
            assert(self.parts@.map_values(|s: String| s@) =~= m0.drop_last());
        }
    }

    /// Whether this path holds the root part only.
    pub fn is_root(&self) -> (r: bool)
        ensures
            r == (self@.len() == 1),
    {
        self.parts.len() == 1
    }

    /// The parts of this path.
    pub fn parts(&self) -> (r: &Vec<String>)
        ensures
            r@.map_values(|s: String| s@) == self@,
    {
        &self.parts
    }

    /// Builds the entry path for `path` under the scan root `root`.
    ///
    /// Returns `None` if `path` does not lie at or below `root`.
    #[verifier::spinoff_prover]
    pub fn from(root: &str, path: &str) -> (r: Option<EntryPath>)
        ensures
            (r is Some) == from_ok(root@, path@),
            r matches Some(p) ==> p@ == from_parts(root@, path@),
    {
        let rsegs = comp_vec(root);
        let psegs = comp_vec(path);
        let ghost rm = rsegs@.map_values(|s: String| s@);
        let ghost pm = psegs@.map_values(|s: String| s@);
        let rc = chars_vec(root);
        let pc = chars_vec(path);
        let rabs = rc.len() > 0 && rc[0] == '/';
        let pabs = pc.len() > 0 && pc[0] == '/';
        if !(rabs == pabs || (!rabs && rsegs.len() == 0)) {
            return None;
        }
        if rsegs.len() > psegs.len() {
            return None;
        }
        let mut j: usize = 0;
        while j < rsegs.len()
            invariant
                0 <= j <= rm.len() <= pm.len(),
                rm == comps(root@),
                pm == comps(path@),
                rm == rsegs@.map_values(|s: String| s@),
                pm == psegs@.map_values(|s: String| s@),
                forall|k: int| 0 <= k < j ==> rm[k] == pm[k],
            decreases rm.len() - j,
        {
            if !(&rsegs[j]).eq(&psegs[j]) {
                proof {
                    assert(rm[j as int] != pm[j as int]);
                    if comps(root@).is_prefix_of(comps(path@)) {
                        assert(rm[j as int] == pm.subrange(0, rm.len() as int)[j as int]);
                    }
                }
                return None;
            }
            j = j + 1;
        }
        proof {
            assert(rm =~= pm.subrange(0, rm.len() as int));
        }
        let mut parts: Vec<String> = Vec::new();
        parts.push(root.to_owned());
        let mut k: usize = rsegs.len();
        proof {
            assert(parts@.map_values(|s: String| s@) =~= seq![root@]);
            assert(pm.skip(rm.len() as int).take(0) =~= Seq::<Seq<char>>::empty());
            assert(seq![root@] + Seq::<Seq<char>>::empty() =~= seq![root@]);
        }
        while k < psegs.len()
            invariant
                rm.len() <= k <= pm.len(),
                rm == comps(root@),
                pm == comps(path@),
                pm == psegs@.map_values(|s: String| s@),
                parts@.map_values(|s: String| s@) == seq![root@] + pm.subrange(
                    rm.len() as int,
                    k as int,
                ),
            decreases pm.len() - k,
        {
            let ghost q0 = parts@.map_values(|s: String| s@);
            parts.push((&psegs[k]).clone());
            proof {
                assert(parts@.map_values(|s: String| s@) =~= q0.push(pm[k as int]));
                assert(q0.push(pm[k as int]) =~= seq![root@] + pm.subrange(
                    rm.len() as int,
                    k + 1,
                ));
            }
            k = k + 1;
        }
        proof {
            assert(pm.subrange(rm.len() as int, pm.len() as int) =~= pm.skip(rm.len() as int));
        }
        Some(EntryPath { parts })
    }
}

/// A scan root spelled with a trailing separator names the same tree as the
/// root spelled without it: it accepts exactly the same paths, and every
/// accepted path keeps the same components below the root.
pub proof fn lemma_trailing_separator(root: Seq<char>, path: Seq<char>)
    requires
        root.len() > 0,
    ensures
        from_ok(root.push('/'), path) == from_ok(root, path),
        from_ok(root, path) ==> from_parts(root.push('/'), path).skip(1) == from_parts(
            root,
            path,
        ).skip(1),
{
    assert(segs(root.push('/')) == segs(root)) by {
        assert(root.push('/').drop_last() =~= root);
        assert(root.push('/').last() == '/');
    }
    assert(is_abs(root.push('/')) == is_abs(root));
    assert(comps(root.push('/')) == comps(root));
    if from_ok(root, path) {
        assert(from_parts(root.push('/'), path).skip(1) =~= comps(path).skip(
            comps(root).len() as int,
        ));
        assert(from_parts(root, path).skip(1) =~= comps(path).skip(comps(root).len() as int));
    }
}

} // verus!
