//! A tracked file as the tree builder receives it.
use vstd::prelude::*;
use crate::object::{bytes_eq, copy_bytes, utf8};
use vstd::multiset::Multiset;
use vstd::seq_lib::{group_to_multiset_ensures, to_multiset_build, to_multiset_insert};

verus! {

/// A tracked file: its name, its path relative to the working tree root
/// (components separated by `/`), its blob identifier, and whether its owner
/// may execute it.
#[derive(Debug)]
pub struct Entry {
    pub filename: String,
    pub path: String,
    pub object_id: Vec<u8>,
    pub executable: bool,
}

/// The mode of a file in a tree.
pub open spec fn mode_of(executable: bool) -> Seq<char> {
    if executable {
        "100755"@
    } else {
        "100644"@
    }
}

/// The components of `p[start..]` split at each `/`, having scanned up to `i`.
pub open spec fn split_from(p: Seq<u8>, start: int, i: int) -> Seq<Seq<u8>>
    decreases p.len() - i,
{
    if i >= p.len() {
        seq![p.subrange(start, p.len() as int)]
    } else if p[i] == 47u8 {
        seq![p.subrange(start, i)] + split_from(p, i + 1, i + 1)
    } else {
        split_from(p, start, i + 1)
    }
}

/// The components of a path: the pieces between its `/` separators.
pub open spec fn components(p: Seq<u8>) -> Seq<Seq<u8>> {
    split_from(p, 0, 0)
}

pub proof fn lemma_split_nonempty(p: Seq<u8>, start: int, i: int)
    ensures
        split_from(p, start, i).len() >= 1,
    decreases p.len() - i,
{
    if i < p.len() {
        if p[i] == 47u8 {
            lemma_split_nonempty(p, i + 1, i + 1);
        } else {
            lemma_split_nonempty(p, start, i + 1);
        }
    }
}

/// The directories above a file: every component of its path but the last.
pub open spec fn dirs_of(p: Seq<u8>) -> Seq<Seq<u8>> {
    components(p).drop_last()
}

/// The components of a byte path.
pub fn split_path(p: &[u8]) -> (r: Vec<Vec<u8>>)
    ensures
        r@.len() == components(p@).len(),
        forall|i: int| 0 <= i < r@.len() ==> #[trigger] r@[i]@ == components(p@)[i],
{
    let mut done: Vec<Vec<u8>> = Vec::new();
    let ghost mut done_v: Seq<Seq<u8>> = Seq::empty();
    let mut start: usize = 0;
    let mut i: usize = 0;
    while i < p.len()
        invariant
            start <= i <= p@.len(),
            done@.len() == done_v.len(),
            forall|k: int| 0 <= k < done@.len() ==> #[trigger] done@[k]@ == done_v[k],
            done_v + split_from(p@, start as int, i as int) == components(p@),
        decreases p@.len() - i,
    {
        if p[i] == 47u8 {
            let piece = copy_bytes(&p[start..i]);
            proof {
                done_v = done_v.push(piece@);
                assert(done_v =~= done_v.drop_last() + seq![p@.subrange(start as int, i as int)]);
            }
            done.push(piece);
            start = i + 1;
        }
        i = i + 1;
    }
    let last = copy_bytes(&p[start..p.len()]);
    proof {
        done_v = done_v.push(last@);
    }
    done.push(last);
    assert(done_v =~= components(p@));
    done
}

/// What the tree builder reads of an entry.
pub struct EntryView {
    pub path: Seq<u8>,
    pub name: Seq<u8>,
    pub id: Seq<u8>,
    pub executable: bool,
}

pub open spec fn entry_view(e: Entry) -> EntryView {
    EntryView { path: e.path_bytes(), name: e.name_bytes(), id: e.object_id@, executable: e.executable }
}

pub open spec fn entry_views(s: Seq<Entry>) -> Seq<EntryView> {
    s.map_values(|e: Entry| entry_view(e))
}

/// Lexicographic order on byte strings.
pub open spec fn seq_le(a: Seq<u8>, b: Seq<u8>) -> bool
    decreases a.len(),
{
    if a.len() == 0 {
        true
    } else if b.len() == 0 {
        false
    } else if a[0] != b[0] {
        a[0] < b[0]
    } else {
        seq_le(a.drop_first(), b.drop_first())
    }
}

proof fn lemma_seq_le_total(a: Seq<u8>, b: Seq<u8>)
    ensures
        seq_le(a, b) || seq_le(b, a),
    decreases a.len(),
{
    if a.len() > 0 && b.len() > 0 && a[0] == b[0] {
        lemma_seq_le_total(a.drop_first(), b.drop_first());
    }
}

proof fn lemma_seq_le_antisym(a: Seq<u8>, b: Seq<u8>)
    requires
        seq_le(a, b),
        seq_le(b, a),
    ensures
        a == b,
    decreases a.len(),
{
    if a.len() > 0 {
        lemma_seq_le_antisym(a.drop_first(), b.drop_first());
        assert(a =~= seq![a[0]] + a.drop_first());
        assert(b =~= seq![b[0]] + b.drop_first());
    } else {
        assert(a =~= b);
    }
}

proof fn lemma_seq_le_trans(a: Seq<u8>, b: Seq<u8>, c: Seq<u8>)
    requires
        seq_le(a, b),
        seq_le(b, c),
    ensures
        seq_le(a, c),
    decreases a.len(),
{
    if a.len() > 0 && b.len() > 0 && c.len() > 0 && a[0] == b[0] && b[0] == c[0] {
        lemma_seq_le_trans(a.drop_first(), b.drop_first(), c.drop_first());
    }
}

/// The order in which the tree builder takes entries: by path, then by
/// name, identifier and mode, so that distinct entries never tie.
pub open spec fn view_le(x: EntryView, y: EntryView) -> bool {
    if x.path != y.path {
        seq_le(x.path, y.path)
    } else if x.name != y.name {
        seq_le(x.name, y.name)
    } else if x.id != y.id {
        seq_le(x.id, y.id)
    } else {
        !x.executable || y.executable
    }
}

proof fn lemma_view_le_total(x: EntryView, y: EntryView)
    ensures
        view_le(x, y) || view_le(y, x),
{
    lemma_seq_le_total(x.path, y.path);
    lemma_seq_le_total(x.name, y.name);
    lemma_seq_le_total(x.id, y.id);
}

proof fn lemma_view_le_antisym(x: EntryView, y: EntryView)
    requires
        view_le(x, y),
        view_le(y, x),
    ensures
        x == y,
{
    if x.path != y.path {
        lemma_seq_le_antisym(x.path, y.path);
    } else if x.name != y.name {
        lemma_seq_le_antisym(x.name, y.name);
    } else if x.id != y.id {
        lemma_seq_le_antisym(x.id, y.id);
    }
}

proof fn lemma_view_le_trans(x: EntryView, y: EntryView, z: EntryView)
    requires
        view_le(x, y),
        view_le(y, z),
    ensures
        view_le(x, z),
{
    if x.path != y.path {
        if y.path != z.path {
            lemma_seq_le_trans(x.path, y.path, z.path);
            if x.path == z.path {
                lemma_seq_le_antisym(x.path, y.path);
            }
        }
    } else if y.path != z.path {
    } else if x.name != y.name {
        if y.name != z.name {
            lemma_seq_le_trans(x.name, y.name, z.name);
            if x.name == z.name {
                lemma_seq_le_antisym(x.name, y.name);
            }
        }
    } else if y.name != z.name {
    } else if x.id != y.id {
        if y.id != z.id {
            lemma_seq_le_trans(x.id, y.id, z.id);
            if x.id == z.id {
                lemma_seq_le_antisym(x.id, y.id);
            }
        }
    }
}

proof fn lemma_view_le_refl(x: EntryView)
    ensures
        view_le(x, x),
{
}

pub open spec fn is_sorted(s: Seq<EntryView>) -> bool {
    forall|i: int, j: int| 0 <= i < j < s.len() ==> view_le(#[trigger] s[i], #[trigger] s[j])
}

/// The entries in builder order; a function of the multiset of entries alone.
pub open spec fn sort_of(s: Seq<EntryView>) -> Seq<EntryView> {
    choose|t: Seq<EntryView>| is_sorted(t) && t.to_multiset() == s.to_multiset()
}

/// Two sorted arrangements of the same entries are the same sequence.
pub proof fn lemma_sorted_unique(s1: Seq<EntryView>, s2: Seq<EntryView>)
    requires
        is_sorted(s1),
        is_sorted(s2),
        s1.to_multiset() == s2.to_multiset(),
    ensures
        s1 == s2,
    decreases s1.len(),
{
    broadcast use group_to_multiset_ensures;

    if s1.len() == 0 {
        assert(s2.to_multiset().len() == 0);
        assert(s1 =~= s2);
    } else {
        assert(s1.to_multiset().len() == s1.len());
        assert(s2.to_multiset().len() == s2.len());
        assert(s2.len() == s1.len());
        let x = s1[0];
        let y = s2[0];
        assert(s1.to_multiset().count(y) > 0);
        assert(s2.to_multiset().count(x) > 0);
        let ky = choose|k: int| 0 <= k < s1.len() && s1[k] == y;
        let kx = choose|k: int| 0 <= k < s2.len() && s2[k] == x;
        if ky > 0 {
            assert(view_le(s1[0], s1[ky]));
        }
        if kx > 0 {
            assert(view_le(s2[0], s2[kx]));
        }
        lemma_view_le_refl(x);
        lemma_view_le_antisym(x, y);
        assert(s1.remove(0) =~= s1.drop_first());
        assert(s2.remove(0) =~= s2.drop_first());
        lemma_sorted_unique(s1.drop_first(), s2.drop_first());
        assert(s1 =~= seq![x] + s1.drop_first());
        assert(s2 =~= seq![y] + s2.drop_first());
    }
}

proof fn lemma_insert_sorted(s: Seq<EntryView>, p: int, v: EntryView)
    requires
        is_sorted(s),
        0 <= p <= s.len(),
        forall|k: int| 0 <= k < p ==> view_le(#[trigger] s[k], v),
        p < s.len() ==> view_le(v, s[p]),
    ensures
        is_sorted(s.insert(p, v)),
{
    let t = s.insert(p, v);
    s.insert_ensures(p, v);
    assert forall|i: int, j: int| 0 <= i < j < t.len() implies view_le(#[trigger] t[i], #[trigger] t[j]) by {
        if j < p {
        } else if i < p && j == p {
        } else if i < p && j > p {
            assert(t[j] == s[j - 1]);
        } else if i == p {
            assert(t[j] == s[j - 1]);
            if j - 1 > p {
                lemma_view_le_trans(v, s[p], s[j - 1]);
            }
        } else {
            assert(t[i] == s[i - 1] && t[j] == s[j - 1]);
        }
    }
}

/// Whether `a` sorts no later than `b` bytewise.
pub fn bytes_le(a: &[u8], b: &[u8]) -> (r: bool)
    ensures
        r == seq_le(a@, b@),
{
    let mut i: usize = 0;
    assert(a@.subrange(0, a@.len() as int) =~= a@);
    assert(b@.subrange(0, b@.len() as int) =~= b@);
    while i < a.len() && i < b.len()
        invariant
            i <= a@.len(),
            i <= b@.len(),
            seq_le(a@, b@) == seq_le(a@.subrange(i as int, a@.len() as int), b@.subrange(i as int, b@.len() as int)),
        decreases a@.len() - i,
    {
        if a[i] != b[i] {
            return a[i] < b[i];
        }
        assert(a@.subrange(i as int, a@.len() as int).drop_first() =~= a@.subrange(i as int + 1, a@.len() as int));
        assert(b@.subrange(i as int, b@.len() as int).drop_first() =~= b@.subrange(i as int + 1, b@.len() as int));
        i = i + 1;
    }
    i == a.len()
}

/// Whether `x` comes no later than `y` in builder order.
pub fn entry_le(x: &Entry, y: &Entry) -> (r: bool)
    ensures
        r == view_le(entry_view(*x), entry_view(*y)),
{
    let xp = x.path.as_str().as_bytes();
    let yp = y.path.as_str().as_bytes();
    if !bytes_eq(xp, yp) {
        return bytes_le(xp, yp);
    }
    let xn = x.filename.as_str().as_bytes();
    let yn = y.filename.as_str().as_bytes();
    if !bytes_eq(xn, yn) {
        return bytes_le(xn, yn);
    }
    if !bytes_eq(x.object_id.as_slice(), y.object_id.as_slice()) {
        return bytes_le(x.object_id.as_slice(), y.object_id.as_slice());
    }
    !x.executable || y.executable
}

/// The entries in builder order.
pub fn sort_entries(entries: Vec<Entry>) -> (r: Vec<Entry>)
    ensures
        is_sorted(entry_views(r@)),
        entry_views(r@).to_multiset() == entry_views(entries@).to_multiset(),
        entry_views(r@) == sort_of(entry_views(entries@)),
{
    broadcast use group_to_multiset_ensures;

    let ghost all = entry_views(entries@).to_multiset();
    let mut input = entries;
    let mut out: Vec<Entry> = Vec::new();
    assert(entry_views(out@).to_multiset() =~= Multiset::empty());
    while input.len() > 0
        invariant
            is_sorted(entry_views(out@)),
            entry_views(out@).to_multiset().add(entry_views(input@).to_multiset()) == all,
        decreases input@.len(),
    {
        let ghost before = input@;
        let ghost out_ms = entry_views(out@).to_multiset();
        let e = input.pop().unwrap();
        proof {
            assert(entry_views(before) =~= entry_views(input@).push(entry_view(e)));
            to_multiset_build(entry_views(input@), entry_view(e));
        }
        let mut p: usize = 0;
        while p < out.len() && entry_le(&out[p], &e)
            invariant
                p <= out@.len(),
                forall|k: int| 0 <= k < p ==> view_le(#[trigger] entry_views(out@)[k], entry_view(e)),
            decreases out@.len() - p,
        {
            p = p + 1;
        }
        let ghost old_out = entry_views(out@);
        proof {
            if p < out@.len() {
                lemma_view_le_total(old_out[p as int], entry_view(e));
            }
            lemma_insert_sorted(old_out, p as int, entry_view(e));
        }
        out.insert(p, e);
        proof {
            assert(entry_views(out@) =~= old_out.insert(p as int, entry_view(e)));
            assert(old_out.to_multiset() == out_ms);
            to_multiset_insert(old_out, p as int, entry_view(e));
            assert(entry_views(out@).to_multiset().add(entry_views(input@).to_multiset()) =~= all);
        }
    }
    proof {
        assert(entry_views(input@).to_multiset() =~= Multiset::empty());
        let t = entry_views(out@);
        assert(t.to_multiset() =~= all);
        let c = sort_of(entry_views(entries@));
        assert(is_sorted(c) && c.to_multiset() == entry_views(entries@).to_multiset());
        lemma_sorted_unique(t, c);
    }
    out
}

impl Entry {
    pub fn new(filename: String, path: String, object_id: &[u8], executable: bool) -> (r: Entry)
        ensures
            r.filename@ == filename@,
            r.path@ == path@,
            r.object_id@ == object_id@,
            r.executable == executable,
    {
        Entry { filename, path, object_id: copy_bytes(object_id), executable }
    }

    /// `100755` for an executable file, `100644` otherwise.
    pub fn mode(&self) -> (r: &'static str)
        ensures
            r@ == mode_of(self.executable),
    {
        if self.executable {
            "100755"
        } else {
            "100644"
        }
    }

    /// The name the file has in its tree, as bytes.
    pub open spec fn name_bytes(&self) -> Seq<u8> {
        utf8(self.filename@)
    }

    /// The path as bytes.
    pub open spec fn path_bytes(&self) -> Seq<u8> {
        utf8(self.path@)
    }

    /// The directories above this file, root-most first.
    pub fn ancestor_directories(&self) -> (r: Vec<Vec<u8>>)
        ensures
            r@.len() == dirs_of(self.path_bytes()).len(),
            forall|i: int| 0 <= i < r@.len() ==> #[trigger] r@[i]@ == dirs_of(self.path_bytes())[i],
    {
        let mut parts = split_path(self.path.as_str().as_bytes());
        proof {
            lemma_split_nonempty(self.path_bytes(), 0, 0);
        }
        parts.pop();
        parts
    }
}

} // verus!
