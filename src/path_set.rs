use vstd::prelude::*;
use crate::filename::{Filename, is_prefix, is_strict_prefix};
use crate::order::{lemma_path_lt, path_lt};

verus! {

/// What went wrong in building or combining path sets.
#[derive(Clone, Copy, Debug, PartialEq, Eq, Structural)]
pub enum ErrorKind {
    /// A path text lacks its leading separator.
    InvalidPath,
    /// A path would have to be a file and a directory at once.
    PathConflict,
    /// A strict difference removes a path that the minuend does not cover.
    NotPresentInWhole,
    /// A difference would carve a part out of a directory entry.
    UnrepresentableDifference,
    /// Two added sets both claim a path.
    DuplicateAddition,
    /// The metadata query for a path failed.
    MetadataQueryFailed,
}

/// An error together with the path it is about.
#[derive(Debug)]
pub struct PathSetError {
    pub kind: ErrorKind,
    pub path: Filename,
}

/// How a terminal entry is classified. A directory entry stands for itself
/// and everything beneath it.
#[derive(Clone, Copy, Debug, PartialEq, Eq, Structural)]
pub enum LeafKind {
    File,
    Directory,
}

/// The terminals of a path set: each stored path with its kind.
pub type Terminals = Map<Seq<Seq<char>>, LeafKind>;

/// No stored path lies beneath another one: a directory absorbs its subtree
/// and nothing passes through a file.
pub open spec fn prefix_free(t: Terminals) -> bool {
    forall|p: Seq<Seq<char>>, q: Seq<Seq<char>>|
        #![trigger t.contains_key(p), t.contains_key(q)]
        t.contains_key(p) && t.contains_key(q) ==> !is_strict_prefix(p, q)
}

/// The shape every path set has: finitely many terminals, none beneath
/// another, and the root, when stored, a directory.
pub open spec fn wf_terminals(t: Terminals) -> bool {
    &&& t.dom().finite()
    &&& prefix_free(t)
    &&& t.contains_key(Seq::empty()) ==> t[Seq::empty()] == LeafKind::Directory
}

/// `p` lies strictly beneath a directory terminal of `t`.
pub open spec fn under_dir(t: Terminals, p: Seq<Seq<char>>) -> bool {
    exists|q: Seq<Seq<char>>|
        #![trigger t.contains_key(q)]
        t.contains_key(q) && t[q] == LeafKind::Directory && is_strict_prefix(q, p)
}

/// `p` lies strictly beneath a file terminal of `t`.
pub open spec fn under_file(t: Terminals, p: Seq<Seq<char>>) -> bool {
    exists|q: Seq<Seq<char>>|
        #![trigger t.contains_key(q)]
        t.contains_key(q) && t[q] == LeafKind::File && is_strict_prefix(q, p)
}

/// Some terminal of `t` lies strictly beneath `p`.
pub open spec fn has_below(t: Terminals, p: Seq<Seq<char>>) -> bool {
    exists|q: Seq<Seq<char>>| #![trigger t.contains_key(q)] t.contains_key(q) && is_strict_prefix(p, q)
}

/// The path set denotes `p`: `p` is a terminal or lies beneath a directory.
pub open spec fn covers(t: Terminals, p: Seq<Seq<char>>) -> bool {
    t.contains_key(p) || under_dir(t, p)
}

/// Merging `a` and `b` fails at `x`: one side has a file at `x` and the other
/// has entries beneath it.
pub open spec fn conflict_at(a: Terminals, b: Terminals, x: Seq<Seq<char>>) -> bool {
    ||| a.contains_key(x) && a[x] == LeafKind::File && has_below(b, x)
    ||| b.contains_key(x) && b[x] == LeafKind::File && has_below(a, x)
}

pub open spec fn merge_conflict(a: Terminals, b: Terminals) -> bool {
    exists|x: Seq<Seq<char>>| conflict_at(a, b, x)
}

/// The union of two path sets: every terminal of either side that no directory
/// of the other side absorbs; a path stored on both sides is a directory if
/// either side says so.
pub open spec fn merged(a: Terminals, b: Terminals) -> Terminals {
    Map::new(
        |p: Seq<Seq<char>>|
            (a.contains_key(p) && !under_dir(b, p)) || (b.contains_key(p) && !under_dir(a, p)),
        |p: Seq<Seq<char>>|
            if (a.contains_key(p) && a[p] == LeafKind::Directory) || (b.contains_key(p) && b[p]
                == LeafKind::Directory) {
                LeafKind::Directory
            } else {
                LeafKind::File
            },
    )
}

/// The map that a list of (path, kind) pairs describes.
pub open spec fn to_map(s: Seq<(Seq<Seq<char>>, LeafKind)>) -> Terminals
    decreases s.len(),
{
    if s.len() == 0 {
        Map::empty()
    } else {
        to_map(s.drop_last()).insert(s.last().0, s.last().1)
    }
}

pub open spec fn unique_paths(s: Seq<(Seq<Seq<char>>, LeafKind)>) -> bool {
    forall|i: int, j: int| 0 <= i < j < s.len() ==> s[i].0 != s[j].0
}

pub proof fn lemma_to_map(s: Seq<(Seq<Seq<char>>, LeafKind)>)
    requires
        unique_paths(s),
    ensures
        to_map(s).dom().finite(),
        forall|p: Seq<Seq<char>>|
            to_map(s).contains_key(p) <==> exists|i: int| 0 <= i < s.len() && #[trigger] s[i].0 == p,
        forall|i: int| 0 <= i < s.len() ==> to_map(s).contains_key(#[trigger] s[i].0) && to_map(s)[s[i].0] == s[i].1,
    decreases s.len(),
{
    if s.len() > 0 {
        let init = s.drop_last();
        lemma_to_map(init);
        assert forall|p: Seq<Seq<char>>|
            to_map(s).contains_key(p) <==> exists|i: int| 0 <= i < s.len() && #[trigger] s[i].0 == p by {
            if to_map(s).contains_key(p) {
                if p != s.last().0 {
                    let i = choose|i: int| 0 <= i < init.len() && #[trigger] init[i].0 == p;
                    assert(s[i].0 == p);
                } else {
                    assert(s[s.len() - 1].0 == p);
                }
            }
            if exists|i: int| 0 <= i < s.len() && #[trigger] s[i].0 == p {
                let i = choose|i: int| 0 <= i < s.len() && #[trigger] s[i].0 == p;
                if i < s.len() - 1 {
                    assert(init[i].0 == p);
                }
            }
        }
        assert forall|i: int| 0 <= i < s.len() implies to_map(s).contains_key(#[trigger] s[i].0)
            && to_map(s)[s[i].0] == s[i].1 by {
            if i < s.len() - 1 {
                assert(init[i] == s[i]);
                assert(s[i].0 != s.last().0);
            }
        }
    }
}

/// One stored terminal.
#[derive(Debug)]
struct Entry {
    path: Filename,
    kind: LeafKind,
}

spec fn pairs(v: Seq<Entry>) -> Seq<(Seq<Seq<char>>, LeafKind)> {
    v.map_values(|e: Entry| (e.path@, e.kind))
}

spec fn entries_view(v: Seq<Entry>) -> Terminals {
    to_map(pairs(v))
}

spec fn entries_ok(v: Seq<Entry>) -> bool {
    unique_paths(pairs(v)) && wf_terminals(entries_view(v))
}

proof fn lemma_entries(v: Seq<Entry>)
    requires
        unique_paths(pairs(v)),
    ensures
        entries_view(v).dom().finite(),
        forall|p: Seq<Seq<char>>|
            entries_view(v).contains_key(p) <==> exists|i: int| 0 <= i < v.len() && #[trigger] v[i].path@ == p,
        forall|i: int| 0 <= i < v.len() ==> entries_view(v).contains_key(#[trigger] v[i].path@) && entries_view(v)[v[i].path@] == v[i].kind,
{
    lemma_to_map(pairs(v));
    assert forall|p: Seq<Seq<char>>|
        entries_view(v).contains_key(p) <==> exists|i: int| 0 <= i < v.len() && #[trigger] v[i].path@ == p by {
        if entries_view(v).contains_key(p) {
            let i = choose|i: int| 0 <= i < pairs(v).len() && #[trigger] pairs(v)[i].0 == p;
            assert(v[i].path@ == p);
        }
        if exists|i: int| 0 <= i < v.len() && #[trigger] v[i].path@ == p {
            let i = choose|i: int| 0 <= i < v.len() && #[trigger] v[i].path@ == p;
            assert(pairs(v)[i].0 == p);
        }
    }
    assert forall|i: int| 0 <= i < v.len() implies entries_view(v).contains_key(#[trigger] v[i].path@) && entries_view(v)[v[i].path@] == v[i].kind by {
        assert(pairs(v)[i].0 == v[i].path@);
    }
}

proof fn lemma_push(v: Seq<Entry>, e: Entry)
    ensures
        pairs(v.push(e)) == pairs(v).push((e.path@, e.kind)),
        entries_view(v.push(e)) == entries_view(v).insert(e.path@, e.kind),
{
    assert(pairs(v.push(e)) =~= pairs(v).push((e.path@, e.kind)));
    assert(pairs(v.push(e)).drop_last() =~= pairs(v));
}

/// A set of absolute paths, held as the terminals of its compressed tree:
/// each terminal is stored with the components from the root down to it and
/// its kind. The branches of the tree are exactly the proper prefixes of
/// those paths, so they are not stored apart, and a branch left without
/// terminals disappears with its last one. A directory terminal stands for
/// its whole subtree, which is never listed; nothing is stored beneath a
/// terminal.
#[derive(Debug)]
pub struct FilenameSet {
    entries: Vec<Entry>,
}

impl View for FilenameSet {
    type V = Terminals;

    closed spec fn view(&self) -> Terminals {
        entries_view(self.entries@)
    }
}

impl FilenameSet {
    #[verifier::type_invariant]
    spec fn inv(&self) -> bool {
        entries_ok(self.entries@)
    }

    /// Tells a caller's proof that every set has the shape of a path set;
    /// does nothing at run time.
    pub fn check_wf(&self)
        ensures
            wf_terminals(self@),
    {
        proof {
            use_type_invariant(self);
        }
    }

    /// The empty set.
    pub fn new() -> (r: FilenameSet)
        ensures
            r@ == Map::<Seq<Seq<char>>, LeafKind>::empty(),
            wf_terminals(r@),
    {
        let r = FilenameSet { entries: Vec::new() };
        assert(pairs(r.entries@) =~= Seq::empty());
        assert(r@ =~= Map::<Seq<Seq<char>>, LeafKind>::empty());
        r
    }
}


/// The position of the entry stored at exactly `p`.
fn find_exact(v: &Vec<Entry>, p: &Filename) -> (r: Option<usize>)
    requires
        unique_paths(pairs(v@)),
    ensures
        match r {
            Some(i) => i < v@.len() && v@[i as int].path@ == p@,
            None => !entries_view(v@).contains_key(p@),
        },
{
    let mut i: usize = 0;
    while i < v.len()
        invariant
            i <= v@.len(),
            forall|k: int| 0 <= k < i ==> v@[k].path@ != p@,
        decreases v@.len() - i,
    {
        if v[i].path.same_path(p) {
            return Some(i);
        }
        i = i + 1;
    }
    proof {
        lemma_entries(v@);
    }
    None
}

/// Whether some entry of kind `kind` lies strictly above `p`.
fn has_above_of_kind(v: &Vec<Entry>, p: &Filename, kind: LeafKind) -> (r: bool)
    requires
        unique_paths(pairs(v@)),
    ensures
        r == exists|q: Seq<Seq<char>>|
            #![trigger entries_view(v@).contains_key(q)]
            entries_view(v@).contains_key(q) && entries_view(v@)[q] == kind && is_strict_prefix(q, p@),
{
    proof {
        lemma_entries(v@);
    }
    let mut i: usize = 0;
    while i < v.len()
        invariant
            i <= v@.len(),
            unique_paths(pairs(v@)),
            forall|k: int| 0 <= k < i ==> !(v@[k].kind == kind && is_strict_prefix(#[trigger] v@[k].path@, p@)),
        decreases v@.len() - i,
    {
        if v[i].kind == kind && v[i].path.is_strict_prefix_of(p) {
            proof {
                lemma_entries(v@);
                assert(entries_view(v@).contains_key(v@[i as int].path@));
            }
            return true;
        }
        i = i + 1;
    }
    proof {
        lemma_entries(v@);
    }
    false
}

/// The position of an entry strictly beneath `p`, if any.
fn find_below(v: &Vec<Entry>, p: &Filename) -> (r: Option<usize>)
    requires
        unique_paths(pairs(v@)),
    ensures
        match r {
            Some(i) => i < v@.len() && is_strict_prefix(p@, v@[i as int].path@),
            None => !has_below(entries_view(v@), p@),
        },
{
    let mut i: usize = 0;
    while i < v.len()
        invariant
            i <= v@.len(),
            forall|k: int| 0 <= k < i ==> !is_strict_prefix(p@, #[trigger] v@[k].path@),
        decreases v@.len() - i,
    {
        if p.is_strict_prefix_of(&v[i].path) {
            return Some(i);
        }
        i = i + 1;
    }
    proof {
        lemma_entries(v@);
    }
    None
}

fn copy_entry(e: &Entry) -> (r: Entry)
    ensures
        r.path@ == e.path@,
        r.kind == e.kind,
{
    Entry { path: e.path.clone_path(), kind: e.kind }
}

/// Prefixes chain.
pub proof fn lemma_prefix_trans(p: Seq<Seq<char>>, q: Seq<Seq<char>>, r: Seq<Seq<char>>)
    requires
        is_prefix(p, q),
        is_prefix(q, r),
    ensures
        is_prefix(p, r),
        is_strict_prefix(p, q) || is_strict_prefix(q, r) ==> is_strict_prefix(p, r),
{
    assert forall|i: int| 0 <= i < p.len() implies #[trigger] p[i] == r[i] by {
        assert(p[i] == q[i]);
    }
}

/// Without conflicts, the union of two path sets is a path set.
pub proof fn lemma_merged_wf(a: Terminals, b: Terminals)
    requires
        wf_terminals(a),
        wf_terminals(b),
        !merge_conflict(a, b),
    ensures
        wf_terminals(merged(a, b)),
{
    let m = merged(a, b);
    assert(m.dom() =~= m.dom().intersect(a.dom().union(b.dom())));
    assert forall|p: Seq<Seq<char>>, q: Seq<Seq<char>>|
        #![trigger m.contains_key(p), m.contains_key(q)]
        m.contains_key(p) && m.contains_key(q) implies !is_strict_prefix(p, q) by {
        if is_strict_prefix(p, q) {
            if a.contains_key(p) && b.contains_key(q) {
                if a[p] == LeafKind::File {
                    assert(conflict_at(a, b, p));
                }
            } else if b.contains_key(p) && a.contains_key(q) {
                if b[p] == LeafKind::File {
                    assert(conflict_at(a, b, p));
                }
            }
        }
    }
}

impl FilenameSet {
    /// The union of two sets. Fails with `PathConflict`, naming the file, when
    /// one side holds a file at a path that the other side holds entries
    /// beneath.
    pub fn sum(left: &FilenameSet, right: &FilenameSet) -> (r: Result<FilenameSet, PathSetError>)
        ensures
            match r {
                Ok(s) => !merge_conflict(left@, right@) && s@ == merged(left@, right@),
                Err(e) => merge_conflict(left@, right@) && e.kind == ErrorKind::PathConflict
                    && conflict_at(left@, right@, e.path@),
            },
            r matches Ok(s) ==> wf_terminals(s@),
    {
        proof {
            use_type_invariant(left);
            use_type_invariant(right);
        }
        let a = &left.entries;
        let b = &right.entries;
        let ghost av = left@;
        let ghost bv = right@;
        proof {
            lemma_entries(a@);
            lemma_entries(b@);
        }
        let mut i: usize = 0;
        while i < a.len()
            invariant
                i <= a@.len(),
                entries_ok(a@),
                entries_ok(b@),
                av == entries_view(a@),
                bv == entries_view(b@),
                av == left@,
                bv == right@,
                a == &left.entries,
                b == &right.entries,
                forall|k: int| 0 <= k < i ==> !(a@[k].kind == LeafKind::File && has_below(bv, #[trigger] a@[k].path@)),
            decreases a@.len() - i,
        {
            if a[i].kind == LeafKind::File {
                if let Some(j) = find_below(b, &a[i].path) {
                    proof {
                        lemma_entries(a@);
                        lemma_entries(b@);
                        assert(bv.contains_key(b@[j as int].path@));
                        assert(conflict_at(av, bv, a@[i as int].path@));
                    }
                    let path = a[i].path.clone_path();
                    assert(conflict_at(left@, right@, path@));
                    return Err(PathSetError { kind: ErrorKind::PathConflict, path });
                }
            }
            i = i + 1;
        }
        let mut j: usize = 0;
        while j < b.len()
            invariant
                j <= b@.len(),
                entries_ok(a@),
                entries_ok(b@),
                av == entries_view(a@),
                bv == entries_view(b@),
                av == left@,
                bv == right@,
                a == &left.entries,
                b == &right.entries,
                forall|k: int| 0 <= k < j ==> !(b@[k].kind == LeafKind::File && has_below(av, #[trigger] b@[k].path@)),
            decreases b@.len() - j,
        {
            if b[j].kind == LeafKind::File {
                if let Some(k) = find_below(a, &b[j].path) {
                    proof {
                        lemma_entries(a@);
                        lemma_entries(b@);
                        assert(av.contains_key(a@[k as int].path@));
                        assert(conflict_at(av, bv, b@[j as int].path@));
                    }
                    let path = b[j].path.clone_path();
                    assert(conflict_at(left@, right@, path@));
                    return Err(PathSetError { kind: ErrorKind::PathConflict, path });
                }
            }
            j = j + 1;
        }
        proof {
            lemma_entries(a@);
            lemma_entries(b@);
            assert forall|x: Seq<Seq<char>>| !conflict_at(av, bv, x) by {
                if av.contains_key(x) {
                    let k = choose|k: int| 0 <= k < a@.len() && #[trigger] a@[k].path@ == x;
                    assert(!(a@[k].kind == LeafKind::File && has_below(bv, a@[k].path@)));
                }
                if bv.contains_key(x) {
                    let k = choose|k: int| 0 <= k < b@.len() && #[trigger] b@[k].path@ == x;
                    assert(!(b@[k].kind == LeafKind::File && has_below(av, b@[k].path@)));
                }
            }
            lemma_merged_wf(av, bv);
        }
        let ghost m = merged(av, bv);
        let mut out: Vec<Entry> = Vec::new();
        proof {
            assert(pairs(out@) =~= Seq::empty());
        }
        let mut i: usize = 0;
        while i < a.len()
            invariant
                i <= a@.len(),
                entries_ok(a@),
                entries_ok(b@),
                av == entries_view(a@),
                bv == entries_view(b@),
                av == left@,
                bv == right@,
                a == &left.entries,
                b == &right.entries,
                m == merged(av, bv),
                unique_paths(pairs(out@)),
                forall|p: Seq<Seq<char>>|
                    #![trigger entries_view(out@).contains_key(p)]
                    entries_view(out@).contains_key(p) <==> ((exists|k: int| 0 <= k < i && #[trigger] a@[k].path@ == p) && !under_dir(bv, p)),
                forall|p: Seq<Seq<char>>|
                    #![trigger entries_view(out@).contains_key(p)]
                    entries_view(out@).contains_key(p) ==> entries_view(out@)[p] == m[p],
            decreases a@.len() - i,
        {
            proof {
                lemma_entries(a@);
                lemma_entries(b@);
                lemma_entries(out@);
            }
            if !has_above_of_kind(b, &a[i].path, LeafKind::Directory) {
                let kind = if a[i].kind == LeafKind::Directory {
                    LeafKind::Directory
                } else {
                    match find_exact(b, &a[i].path) {
                        Some(k) => b[k].kind,
                        None => LeafKind::File,
                    }
                };
                let e = Entry { path: a[i].path.clone_path(), kind };
                let ghost before = out@;
                proof {
                    lemma_push(before, e);
                    assert forall|k: int| 0 <= k < before.len() implies before[k].path@ != e.path@ by {
                        assert(entries_view(before).contains_key(before[k].path@));
                        if before[k].path@ == e.path@ {
                            let kk = choose|kk: int| 0 <= kk < i && #[trigger] a@[kk].path@ == e.path@;
                            assert(pairs(a@)[kk].0 == a@[kk].path@);
                            assert(pairs(a@)[i as int].0 == a@[i as int].path@);
                        }
                    }
                    assert(m.contains_key(e.path@));
                }
                out.push(e);
                proof {
                    assert(out@ == before.push(e));
                    lemma_push(before, e);
                    assert forall|x: int, y: int| 0 <= x < y < pairs(out@).len() implies pairs(out@)[x].0 != pairs(out@)[y].0 by {
                        if y == before.len() {
                            assert(pairs(out@)[x].0 == before[x].path@);
                        } else {
                            assert(pairs(out@)[x] == pairs(before)[x]);
                            assert(pairs(out@)[y] == pairs(before)[y]);
                        }
                    }
                    assert forall|p: Seq<Seq<char>>|
                        #![trigger entries_view(out@).contains_key(p)]
                        entries_view(out@).contains_key(p) <==> ((exists|k: int| 0 <= k < i + 1 && #[trigger] a@[k].path@ == p) && !under_dir(bv, p)) by {
                        if p == e.path@ {
                            assert(a@[i as int].path@ == p);
                        } else if exists|k: int| 0 <= k < i + 1 && #[trigger] a@[k].path@ == p {
                            let k = choose|k: int| 0 <= k < i + 1 && #[trigger] a@[k].path@ == p;
                            assert(k < i);
                        }
                    }
                }
            } else {
                proof {
                    assert forall|p: Seq<Seq<char>>|
                        #![trigger entries_view(out@).contains_key(p)]
                        entries_view(out@).contains_key(p) <==> ((exists|k: int| 0 <= k < i + 1 && #[trigger] a@[k].path@ == p) && !under_dir(bv, p)) by {
                        if exists|k: int| 0 <= k < i + 1 && #[trigger] a@[k].path@ == p {
                            let k = choose|k: int| 0 <= k < i + 1 && #[trigger] a@[k].path@ == p;
                            if k == i {
                                assert(under_dir(bv, p));
                            }
                        }
                    }
                }
            }
            i = i + 1;
        }
        let mut j: usize = 0;
        while j < b.len()
            invariant
                j <= b@.len(),
                entries_ok(a@),
                entries_ok(b@),
                av == entries_view(a@),
                bv == entries_view(b@),
                av == left@,
                bv == right@,
                a == &left.entries,
                b == &right.entries,
                m == merged(av, bv),
                unique_paths(pairs(out@)),
                forall|p: Seq<Seq<char>>|
                    #![trigger entries_view(out@).contains_key(p)]
                    entries_view(out@).contains_key(p) <==> ((av.contains_key(p) && !under_dir(bv, p)) || ((exists|k: int| 0 <= k < j && #[trigger] b@[k].path@ == p) && !av.contains_key(p) && !under_dir(av, p))),
                forall|p: Seq<Seq<char>>|
                    #![trigger entries_view(out@).contains_key(p)]
                    entries_view(out@).contains_key(p) ==> entries_view(out@)[p] == m[p],
            decreases b@.len() - j,
        {
            proof {
                lemma_entries(a@);
                lemma_entries(b@);
                lemma_entries(out@);
            }
            if find_exact(a, &b[j].path).is_none() && !has_above_of_kind(a, &b[j].path, LeafKind::Directory) {
                let e = copy_entry(&b[j]);
                let ghost before = out@;
                proof {
                    lemma_push(before, e);
                    assert forall|k: int| 0 <= k < before.len() implies before[k].path@ != e.path@ by {
                        assert(entries_view(before).contains_key(before[k].path@));
                        if before[k].path@ == e.path@ {
                            if !av.contains_key(e.path@) {
                                let kk = choose|kk: int| 0 <= kk < j && #[trigger] b@[kk].path@ == e.path@;
                                assert(pairs(b@)[kk].0 == b@[kk].path@);
                                assert(pairs(b@)[j as int].0 == b@[j as int].path@);
                            }
                        }
                    }
                    assert(m.contains_key(e.path@));
                }
                out.push(e);
                proof {
                    assert(out@ == before.push(e));
                    lemma_push(before, e);
                    assert forall|x: int, y: int| 0 <= x < y < pairs(out@).len() implies pairs(out@)[x].0 != pairs(out@)[y].0 by {
                        if y == before.len() {
                            assert(pairs(out@)[x].0 == before[x].path@);
                        } else {
                            assert(pairs(out@)[x] == pairs(before)[x]);
                            assert(pairs(out@)[y] == pairs(before)[y]);
                        }
                    }
                    assert forall|p: Seq<Seq<char>>|
                        #![trigger entries_view(out@).contains_key(p)]
                        entries_view(out@).contains_key(p) <==> ((av.contains_key(p) && !under_dir(bv, p)) || ((exists|k: int| 0 <= k < j + 1 && #[trigger] b@[k].path@ == p) && !av.contains_key(p) && !under_dir(av, p))) by {
                        if p == e.path@ {
                            assert(b@[j as int].path@ == p);
                        } else if exists|k: int| 0 <= k < j + 1 && #[trigger] b@[k].path@ == p {
                            let k = choose|k: int| 0 <= k < j + 1 && #[trigger] b@[k].path@ == p;
                            assert(k < j);
                        }
                    }
                }
            } else {
                proof {
                    assert forall|p: Seq<Seq<char>>|
                        #![trigger entries_view(out@).contains_key(p)]
                        entries_view(out@).contains_key(p) <==> ((av.contains_key(p) && !under_dir(bv, p)) || ((exists|k: int| 0 <= k < j + 1 && #[trigger] b@[k].path@ == p) && !av.contains_key(p) && !under_dir(av, p))) by {
                        if exists|k: int| 0 <= k < j + 1 && #[trigger] b@[k].path@ == p {
                            let k = choose|k: int| 0 <= k < j + 1 && #[trigger] b@[k].path@ == p;
                            if k == j {
                                assert(av.contains_key(p) || under_dir(av, p));
                            }
                        }
                    }
                }
            }
            j = j + 1;
        }
        proof {
            lemma_entries(a@);
            lemma_entries(b@);
            lemma_entries(out@);
            assert forall|p: Seq<Seq<char>>| #[trigger] m.contains_key(p) <==> entries_view(out@).contains_key(p) by {
                if bv.contains_key(p) && !under_dir(av, p) && !av.contains_key(p) {
                    let k = choose|k: int| 0 <= k < b@.len() && #[trigger] b@[k].path@ == p;
                    assert(b@[k].path@ == p);
                }
                if av.contains_key(p) && bv.contains_key(p) && under_dir(bv, p) {
                    let q = choose|q: Seq<Seq<char>>| #![trigger bv.contains_key(q)] bv.contains_key(q) && bv[q] == LeafKind::Directory && is_strict_prefix(q, p);
                    assert(bv.contains_key(q) && bv.contains_key(p));
                }
            }
            assert(entries_view(out@) =~= m);
        }
        Ok(FilenameSet { entries: out })
    }
}

/// Whether a difference treats paths that the minuend does not cover as an error.
#[derive(Clone, Copy, Debug, PartialEq, Eq, Structural)]
pub enum SubtractPolicy {
    Strict,
    Relaxed,
}

/// The problem that removing the terminal `q` of `r` from `w` runs into, if any.
pub open spec fn removal_issue(w: Terminals, r: Terminals, q: Seq<Seq<char>>) -> Option<ErrorKind> {
    if w.contains_key(q) {
        if w[q] == r[q] {
            None
        } else {
            Some(ErrorKind::PathConflict)
        }
    } else if under_dir(w, q) {
        Some(ErrorKind::UnrepresentableDifference)
    } else if under_file(w, q) {
        Some(ErrorKind::PathConflict)
    } else if has_below(w, q) {
        if r[q] == LeafKind::File {
            Some(ErrorKind::PathConflict)
        } else {
            None
        }
    } else if q.len() == 0 {
        None
    } else {
        Some(ErrorKind::NotPresentInWhole)
    }
}

/// Whether a problem of this kind stops a difference under `policy`.
pub open spec fn blocks(kind: ErrorKind, policy: SubtractPolicy) -> bool {
    policy == SubtractPolicy::Strict || kind != ErrorKind::NotPresentInWhole
}

/// Removing the terminal `q` of `r` from `w` fails under `policy`.
pub open spec fn removal_fails(w: Terminals, r: Terminals, q: Seq<Seq<char>>, policy: SubtractPolicy) -> bool {
    &&& r.contains_key(q)
    &&& removal_issue(w, r, q) is Some
    &&& blocks(removal_issue(w, r, q)->Some_0, policy)
}

pub open spec fn subtract_fails(w: Terminals, r: Terminals, policy: SubtractPolicy) -> bool {
    exists|q: Seq<Seq<char>>| removal_fails(w, r, q, policy)
}

/// What is left of `w` once every terminal of `r`, and everything beneath a
/// directory of `r`, is taken out.
pub open spec fn difference_of(w: Terminals, r: Terminals) -> Terminals {
    Map::new(
        |p: Seq<Seq<char>>| w.contains_key(p) && !r.contains_key(p) && !under_dir(r, p),
        |p: Seq<Seq<char>>| w[p],
    )
}

/// What a difference returns: the first element is the error kind and the
/// path it names.
pub open spec fn subtract_result(
    w: Terminals,
    r: Terminals,
    policy: SubtractPolicy,
    out: Result<Terminals, (ErrorKind, Seq<Seq<char>>)>,
) -> bool {
    match out {
        Ok(d) => !subtract_fails(w, r, policy) && d == difference_of(w, r),
        Err((k, q)) => removal_fails(w, r, q, policy) && removal_issue(w, r, q) == Some(k),
    }
}

pub proof fn lemma_difference_wf(w: Terminals, r: Terminals)
    requires
        wf_terminals(w),
    ensures
        wf_terminals(difference_of(w, r)),
{
    let d = difference_of(w, r);
    assert(d.dom() =~= d.dom().intersect(w.dom()));
    assert forall|p: Seq<Seq<char>>, q: Seq<Seq<char>>|
        #![trigger d.contains_key(p), d.contains_key(q)]
        d.contains_key(p) && d.contains_key(q) implies !is_strict_prefix(p, q) by {
        assert(w.contains_key(p) && w.contains_key(q));
    }
}

impl FilenameSet {
    /// Takes every path of `remove` out of `self`. Under `Strict`, a path of
    /// `remove` that `self` does not cover fails with `NotPresentInWhole`; under
    /// `Relaxed` it is passed over. A file against a directory or a branch
    /// fails with `PathConflict`, and a path beneath a directory of `self`
    /// with `UnrepresentableDifference`.
    pub fn subtract(&self, remove: &FilenameSet, policy: SubtractPolicy) -> (r: Result<FilenameSet, PathSetError>)
        ensures
            subtract_result(self@, remove@, policy, match r {
                Ok(s) => Ok(s@),
                Err(e) => Err((e.kind, e.path@)),
            }),
            r matches Ok(s) ==> wf_terminals(s@),
    {
        proof {
            use_type_invariant(self);
            use_type_invariant(remove);
        }
        let w = &self.entries;
        let b = &remove.entries;
        let ghost wv = self@;
        let ghost rv = remove@;
        let mut j: usize = 0;
        while j < b.len()
            invariant
                j <= b@.len(),
                entries_ok(w@),
                entries_ok(b@),
                wv == entries_view(w@),
                rv == entries_view(b@),
                wv == self@,
                rv == remove@,
                w == &self.entries,
                b == &remove.entries,
                forall|k: int| 0 <= k < j ==> !removal_fails(wv, rv, #[trigger] b@[k].path@, policy),
            decreases b@.len() - j,
        {
            proof {
                lemma_entries(w@);
                lemma_entries(b@);
            }
            let q = &b[j].path;
            let issue: Option<ErrorKind> = match find_exact(w, q) {
                Some(i) => {
                    if w[i].kind == b[j].kind {
                        None
                    } else {
                        Some(ErrorKind::PathConflict)
                    }
                },
                None => {
                    if has_above_of_kind(w, q, LeafKind::Directory) {
                        Some(ErrorKind::UnrepresentableDifference)
                    } else if has_above_of_kind(w, q, LeafKind::File) {
                        Some(ErrorKind::PathConflict)
                    } else if find_below(w, q).is_some() {
                        if b[j].kind == LeafKind::File {
                            Some(ErrorKind::PathConflict)
                        } else {
                            None
                        }
                    } else if q.len() == 0 {
                        None
                    } else {
                        Some(ErrorKind::NotPresentInWhole)
                    }
                },
            };
            assert(issue == removal_issue(wv, rv, q@));
            match issue {
                Some(kind) => {
                    if policy == SubtractPolicy::Strict || kind != ErrorKind::NotPresentInWhole {
                        let path = q.clone_path();
                        assert(removal_fails(wv, rv, path@, policy));
                        return Err(PathSetError { kind, path });
                    }
                },
                None => {},
            }
            j = j + 1;
        }
        proof {
            lemma_entries(b@);
            assert forall|q: Seq<Seq<char>>| !removal_fails(wv, rv, q, policy) by {
                if rv.contains_key(q) {
                    let k = choose|k: int| 0 <= k < b@.len() && #[trigger] b@[k].path@ == q;
                    assert(!removal_fails(wv, rv, b@[k].path@, policy));
                }
            }
            lemma_difference_wf(wv, rv);
        }
        let ghost d = difference_of(wv, rv);
        let mut out: Vec<Entry> = Vec::new();
        proof {
            assert(pairs(out@) =~= Seq::empty());
        }
        let mut i: usize = 0;
        while i < w.len()
            invariant
                i <= w@.len(),
                entries_ok(w@),
                entries_ok(b@),
                wv == entries_view(w@),
                rv == entries_view(b@),
                d == difference_of(wv, rv),
                unique_paths(pairs(out@)),
                forall|p: Seq<Seq<char>>|
                    #![trigger entries_view(out@).contains_key(p)]
                    entries_view(out@).contains_key(p) <==> ((exists|k: int| 0 <= k < i && #[trigger] w@[k].path@ == p) && !rv.contains_key(p) && !under_dir(rv, p)),
                forall|p: Seq<Seq<char>>|
                    #![trigger entries_view(out@).contains_key(p)]
                    entries_view(out@).contains_key(p) ==> entries_view(out@)[p] == wv[p],
            decreases w@.len() - i,
        {
            proof {
                lemma_entries(w@);
                lemma_entries(b@);
                lemma_entries(out@);
            }
            if find_exact(b, &w[i].path).is_none() && !has_above_of_kind(b, &w[i].path, LeafKind::Directory) {
                let e = copy_entry(&w[i]);
                let ghost before = out@;
                proof {
                    lemma_push(before, e);
                    assert forall|k: int| 0 <= k < before.len() implies before[k].path@ != e.path@ by {
                        assert(entries_view(before).contains_key(before[k].path@));
                        if before[k].path@ == e.path@ {
                            let kk = choose|kk: int| 0 <= kk < i && #[trigger] w@[kk].path@ == e.path@;
                            assert(pairs(w@)[kk].0 == w@[kk].path@);
                            assert(pairs(w@)[i as int].0 == w@[i as int].path@);
                        }
                    }
                }
                out.push(e);
                proof {
                    assert(out@ == before.push(e));
                    lemma_push(before, e);
                    assert forall|x: int, y: int| 0 <= x < y < pairs(out@).len() implies pairs(out@)[x].0 != pairs(out@)[y].0 by {
                        if y == before.len() {
                            assert(pairs(out@)[x].0 == before[x].path@);
                        } else {
                            assert(pairs(out@)[x] == pairs(before)[x]);
                            assert(pairs(out@)[y] == pairs(before)[y]);
                        }
                    }
                    assert forall|p: Seq<Seq<char>>|
                        #![trigger entries_view(out@).contains_key(p)]
                        entries_view(out@).contains_key(p) <==> ((exists|k: int| 0 <= k < i + 1 && #[trigger] w@[k].path@ == p) && !rv.contains_key(p) && !under_dir(rv, p)) by {
                        if p == e.path@ {
                            assert(w@[i as int].path@ == p);
                        } else if exists|k: int| 0 <= k < i + 1 && #[trigger] w@[k].path@ == p {
                            let k = choose|k: int| 0 <= k < i + 1 && #[trigger] w@[k].path@ == p;
                            assert(k < i);
                        }
                    }
                }
            } else {
                proof {
                    assert forall|p: Seq<Seq<char>>|
                        #![trigger entries_view(out@).contains_key(p)]
                        entries_view(out@).contains_key(p) <==> ((exists|k: int| 0 <= k < i + 1 && #[trigger] w@[k].path@ == p) && !rv.contains_key(p) && !under_dir(rv, p)) by {
                        if exists|k: int| 0 <= k < i + 1 && #[trigger] w@[k].path@ == p {
                            let k = choose|k: int| 0 <= k < i + 1 && #[trigger] w@[k].path@ == p;
                            if k == i {
                                assert(rv.contains_key(p) || under_dir(rv, p));
                            }
                        }
                    }
                }
            }
            i = i + 1;
        }
        proof {
            lemma_entries(w@);
            lemma_entries(out@);
            assert forall|p: Seq<Seq<char>>| #[trigger] d.contains_key(p) <==> entries_view(out@).contains_key(p) by {
                if d.contains_key(p) {
                    let k = choose|k: int| 0 <= k < w@.len() && #[trigger] w@[k].path@ == p;
                    assert(w@[k].path@ == p);
                }
            }
            assert(entries_view(out@) =~= d);
        }
        Ok(FilenameSet { entries: out })
    }
}

/// `t` with `p` stored as a `k` terminal in place of whatever lay beneath it.
pub open spec fn place(t: Terminals, p: Seq<Seq<char>>, k: LeafKind) -> Terminals {
    Map::new(
        |q: Seq<Seq<char>>| q == p || (t.contains_key(q) && !is_strict_prefix(p, q)),
        |q: Seq<Seq<char>>| if q == p { k } else { t[q] },
    )
}

/// A path needs classifying when it is neither the root nor beneath a stored
/// terminal.
pub open spec fn needs_classification(t: Terminals, p: Seq<Seq<char>>) -> bool {
    p.len() > 0 && !under_dir(t, p) && !under_file(t, p)
}

/// Inserting `p`, classified as `k`, into `t`. The root makes the whole
/// namespace one directory; a path beneath a directory is already there; a
/// path beneath a file, a directory over a stored file, or a file over stored
/// entries is a conflict.
pub open spec fn insert_classified_result(t: Terminals, p: Seq<Seq<char>>, k: LeafKind) -> Result<Terminals, ErrorKind> {
    if p.len() == 0 {
        Ok(Map::empty().insert(Seq::empty(), LeafKind::Directory))
    } else if under_dir(t, p) {
        Ok(t)
    } else if under_file(t, p) {
        Err(ErrorKind::PathConflict)
    } else if t.contains_key(p) {
        if t[p] == LeafKind::Directory || k == LeafKind::File {
            Ok(t)
        } else {
            Err(ErrorKind::PathConflict)
        }
    } else if k == LeafKind::File && has_below(t, p) {
        Err(ErrorKind::PathConflict)
    } else {
        Ok(place(t, p, k))
    }
}

/// Inserting `p` into `t`, where `c` is what the classification of `p`
/// returned; it is looked at only when `p` needs classifying.
pub open spec fn insert_result(t: Terminals, p: Seq<Seq<char>>, c: Result<LeafKind, ()>) -> Result<Terminals, ErrorKind> {
    if !needs_classification(t, p) {
        insert_classified_result(t, p, LeafKind::Directory)
    } else {
        match c {
            Ok(k) => insert_classified_result(t, p, k),
            Err(_) => Err(ErrorKind::MetadataQueryFailed),
        }
    }
}

/// Building a set from `paths` in order, starting empty, where `cs[i]` is
/// what the classification of `paths[i]` returned. An error names the path
/// being inserted.
pub open spec fn build_result(paths: Seq<Seq<Seq<char>>>, cs: Seq<Result<LeafKind, ()>>) -> Result<Terminals, (ErrorKind, Seq<Seq<char>>)>
    decreases paths.len(),
{
    if paths.len() == 0 {
        Ok(Map::empty())
    } else {
        match build_result(paths.drop_last(), cs.drop_last()) {
            Err(e) => Err(e),
            Ok(t) => match insert_result(t, paths.last(), cs.last()) {
                Ok(t2) => Ok(t2),
                Err(k) => Err((k, paths.last())),
            },
        }
    }
}

/// The paths of a list of filenames.
pub open spec fn paths_view(v: Seq<Filename>) -> Seq<Seq<Seq<char>>> {
    v.map_values(|f: Filename| f@)
}

/// Classifies a path as a file or a directory, without following a final
/// symbolic link. An error means the metadata query failed.
pub trait PathClassifier {
    fn classify(&self, path: &Filename) -> Result<LeafKind, ()>;
}

pub proof fn lemma_place_wf(t: Terminals, p: Seq<Seq<char>>, k: LeafKind)
    requires
        wf_terminals(t),
        p.len() > 0,
        !under_dir(t, p),
        !under_file(t, p),
        !(k == LeafKind::File && has_below(t, p)),
    ensures
        wf_terminals(place(t, p, k)),
{
    let m = place(t, p, k);
    assert(m.dom() =~= m.dom().intersect(t.dom().insert(p)));
    assert forall|x: Seq<Seq<char>>, y: Seq<Seq<char>>|
        #![trigger m.contains_key(x), m.contains_key(y)]
        m.contains_key(x) && m.contains_key(y) implies !is_strict_prefix(x, y) by {
        if is_strict_prefix(x, y) {
            if y == p {
                assert(t.contains_key(x));
                if t[x] == LeafKind::Directory {
                    assert(under_dir(t, p));
                } else {
                    assert(under_file(t, p));
                }
            } else if x == p {
                assert(t.contains_key(y));
            } else {
                assert(t.contains_key(x) && t.contains_key(y));
            }
        }
    }
}

impl FilenameSet {
    /// Inserts `path`, classified as `kind`, giving the new set.
    pub fn insert_classified(self, path: &Filename, kind: LeafKind) -> (r: Result<FilenameSet, PathSetError>)
        ensures
            match insert_classified_result(self@, path@, kind) {
                Ok(t) => r matches Ok(s) && s@ == t,
                Err(k) => r matches Err(e) && e.kind == k && e.path@ == path@,
            },
            r matches Ok(s) ==> wf_terminals(s@),
    {
        proof {
            use_type_invariant(&self);
            lemma_entries(self.entries@);
        }
        let ghost t = self@;
        if path.len() == 0 {
            let mut v: Vec<Entry> = Vec::new();
            let e = Entry { path: Filename::root(), kind: LeafKind::Directory };
            proof {
                assert(pairs(v@) =~= Seq::empty());
                lemma_push(v@, e);
            }
            v.push(e);
            proof {
                assert(pairs(v@)[0].0 == e.path@);
                assert(entries_view(v@) =~= Map::empty().insert(Seq::<Seq<char>>::empty(), LeafKind::Directory));
            }
            return Ok(FilenameSet { entries: v });
        }
        if has_above_of_kind(&self.entries, path, LeafKind::Directory) {
            return Ok(self);
        }
        if has_above_of_kind(&self.entries, path, LeafKind::File) {
            return Err(PathSetError { kind: ErrorKind::PathConflict, path: path.clone_path() });
        }
        match find_exact(&self.entries, path) {
            Some(i) => {
                if self.entries[i].kind == LeafKind::Directory || kind == LeafKind::File {
                    return Ok(self);
                } else {
                    return Err(PathSetError { kind: ErrorKind::PathConflict, path: path.clone_path() });
                }
            },
            None => {},
        }
        if kind == LeafKind::File && find_below(&self.entries, path).is_some() {
            return Err(PathSetError { kind: ErrorKind::PathConflict, path: path.clone_path() });
        }
        let w = &self.entries;
        let mut out: Vec<Entry> = Vec::new();
        proof {
            assert(pairs(out@) =~= Seq::empty());
        }
        let mut i: usize = 0;
        while i < w.len()
            invariant
                i <= w@.len(),
                entries_ok(w@),
                t == entries_view(w@),
                !t.contains_key(path@),
                unique_paths(pairs(out@)),
                forall|q: Seq<Seq<char>>|
                    #![trigger entries_view(out@).contains_key(q)]
                    entries_view(out@).contains_key(q) <==> ((exists|k: int| 0 <= k < i && #[trigger] w@[k].path@ == q) && !is_strict_prefix(path@, q)),
                forall|q: Seq<Seq<char>>|
                    #![trigger entries_view(out@).contains_key(q)]
                    entries_view(out@).contains_key(q) ==> entries_view(out@)[q] == t[q],
            decreases w@.len() - i,
        {
            proof {
                lemma_entries(w@);
                lemma_entries(out@);
            }
            if !path.is_strict_prefix_of(&w[i].path) {
                let e = copy_entry(&w[i]);
                let ghost before = out@;
                proof {
                    lemma_push(before, e);
                    assert forall|k: int| 0 <= k < before.len() implies before[k].path@ != e.path@ by {
                        assert(entries_view(before).contains_key(before[k].path@));
                        if before[k].path@ == e.path@ {
                            let kk = choose|kk: int| 0 <= kk < i && #[trigger] w@[kk].path@ == e.path@;
                            assert(pairs(w@)[kk].0 == w@[kk].path@);
                            assert(pairs(w@)[i as int].0 == w@[i as int].path@);
                        }
                    }
                }
                out.push(e);
                proof {
                    assert(out@ == before.push(e));
                    lemma_push(before, e);
                    assert forall|x: int, y: int| 0 <= x < y < pairs(out@).len() implies pairs(out@)[x].0 != pairs(out@)[y].0 by {
                        if y == before.len() {
                            assert(pairs(out@)[x].0 == before[x].path@);
                        } else {
                            assert(pairs(out@)[x] == pairs(before)[x]);
                            assert(pairs(out@)[y] == pairs(before)[y]);
                        }
                    }
                    assert forall|q: Seq<Seq<char>>|
                        #![trigger entries_view(out@).contains_key(q)]
                        entries_view(out@).contains_key(q) <==> ((exists|k: int| 0 <= k < i + 1 && #[trigger] w@[k].path@ == q) && !is_strict_prefix(path@, q)) by {
                        if q == e.path@ {
                            assert(w@[i as int].path@ == q);
                        } else if exists|k: int| 0 <= k < i + 1 && #[trigger] w@[k].path@ == q {
                            let k = choose|k: int| 0 <= k < i + 1 && #[trigger] w@[k].path@ == q;
                            assert(k < i);
                        }
                    }
                }
            } else {
                proof {
                    assert forall|q: Seq<Seq<char>>|
                        #![trigger entries_view(out@).contains_key(q)]
                        entries_view(out@).contains_key(q) <==> ((exists|k: int| 0 <= k < i + 1 && #[trigger] w@[k].path@ == q) && !is_strict_prefix(path@, q)) by {
                        if exists|k: int| 0 <= k < i + 1 && #[trigger] w@[k].path@ == q {
                            let k = choose|k: int| 0 <= k < i + 1 && #[trigger] w@[k].path@ == q;
                            if k == i {
                                assert(is_strict_prefix(path@, q));
                            }
                        }
                    }
                }
            }
            i = i + 1;
        }
        let e = Entry { path: path.clone_path(), kind };
        let ghost before = out@;
        proof {
            lemma_entries(out@);
            lemma_push(before, e);
            assert forall|k: int| 0 <= k < before.len() implies before[k].path@ != e.path@ by {
                assert(entries_view(before).contains_key(before[k].path@));
            }
        }
        out.push(e);
        proof {
            assert(out@ == before.push(e));
            lemma_push(before, e);
            lemma_entries(w@);
            assert forall|x: int, y: int| 0 <= x < y < pairs(out@).len() implies pairs(out@)[x].0 != pairs(out@)[y].0 by {
                if y == before.len() {
                    assert(pairs(out@)[x].0 == before[x].path@);
                } else {
                    assert(pairs(out@)[x] == pairs(before)[x]);
                    assert(pairs(out@)[y] == pairs(before)[y]);
                }
            }
            let m = place(t, path@, kind);
            assert forall|q: Seq<Seq<char>>| #[trigger] m.contains_key(q) <==> entries_view(out@).contains_key(q) by {
                if t.contains_key(q) && q != path@ {
                    let k = choose|k: int| 0 <= k < w@.len() && #[trigger] w@[k].path@ == q;
                    assert(w@[k].path@ == q);
                }
            }
            assert(entries_view(out@) =~= m);
            lemma_place_wf(t, path@, kind);
        }
        Ok(FilenameSet { entries: out })
    }

    /// Builds a set from `paths`, in order, asking `classifier` about each
    /// path that is neither the root nor beneath a stored terminal. Fails on
    /// the first path that cannot be inserted; no partial set is returned.
    pub fn from_iter<C: PathClassifier>(paths: &Vec<Filename>, classifier: &C) -> (r: Result<FilenameSet, PathSetError>)
        ensures
            exists|cs: Seq<Result<LeafKind, ()>>|
                #![trigger build_result(paths_view(paths@), cs)]
                cs.len() == paths@.len() && build_result(paths_view(paths@), cs) == match r {
                    Ok(s) => Ok(s@),
                    Err(e) => Err((e.kind, e.path@)),
                },
            r matches Ok(s) ==> wf_terminals(s@),
    {
        let ghost pv = paths_view(paths@);
        let ghost mut cs: Seq<Result<LeafKind, ()>> = Seq::empty();
        let mut set = FilenameSet::new();
        proof {
            assert(pv.take(0) =~= Seq::empty());
        }
        let mut i: usize = 0;
        while i < paths.len()
            invariant
                i <= paths@.len(),
                pv == paths_view(paths@),
                cs.len() == i,
                build_result(pv.take(i as int), cs) == Ok::<_, (ErrorKind, Seq<Seq<char>>)>(set@),
            decreases paths@.len() - i,
        {
            proof {
                use_type_invariant(&set);
                lemma_entries(set.entries@);
                assert(pv.take(i + 1).drop_last() =~= pv.take(i as int));
                assert(pv.take(i + 1).last() == paths@[i as int]@);
            }
            let path = &paths[i];
            let ghost t = set@;
            let needs = path.len() > 0 && !has_above_of_kind(&set.entries, path, LeafKind::Directory)
                && !has_above_of_kind(&set.entries, path, LeafKind::File);
            let ghost c: Result<LeafKind, ()>;
            let kind = if needs {
                match classifier.classify(path) {
                    Ok(k) => {
                        proof {
                            c = Ok(k);
                        }
                        k
                    },
                    Err(()) => {
                        proof {
                            c = Err(());
                            let cs2 = cs.push(c);
                            assert(cs2.drop_last() =~= cs);
                            assert(build_result(pv.take(i + 1), cs2) == Err::<Terminals, _>((ErrorKind::MetadataQueryFailed, path@)));
                            assert(pv.take(i + 1) =~= pv.take(i + 1));
                        }
                        let err = PathSetError { kind: ErrorKind::MetadataQueryFailed, path: path.clone_path() };
                        proof {
                            let cs2 = cs.push(c);
                            lemma_build_prefix_err(pv, cs2, (i + 1) as int);
                        }
                        return Err(err);
                    },
                }
            } else {
                proof {
                    c = Err(());
                }
                LeafKind::Directory
            };
            proof {
                assert(insert_result(t, path@, c) == insert_classified_result(t, path@, kind));
                let old_cs = cs;
                cs = cs.push(c);
                assert(cs.drop_last() =~= old_cs);
                assert(cs.last() == c);
                assert(build_result(pv.take(i + 1), cs) == match insert_result(t, path@, c) {
                    Ok(t2) => Ok(t2),
                    Err(k) => Err((k, path@)),
                });
            }
            match set.insert_classified(path, kind) {
                Ok(s) => {
                    set = s;
                },
                Err(e) => {
                    proof {
                        lemma_build_prefix_err(pv, cs, (i + 1) as int);
                    }
                    return Err(e);
                },
            }
            i = i + 1;
        }
        proof {
            assert(pv.take(i as int) =~= pv);
            use_type_invariant(&set);
        }
        Ok(set)
    }
}

/// Once building a prefix of the paths has failed, building all of them fails
/// with the same error.
proof fn lemma_build_prefix_err(pv: Seq<Seq<Seq<char>>>, cs: Seq<Result<LeafKind, ()>>, n: int)
    requires
        0 <= n <= pv.len(),
        cs.len() == n,
        build_result(pv.take(n), cs) is Err,
    ensures
        exists|cs2: Seq<Result<LeafKind, ()>>|
            #![trigger build_result(pv, cs2)]
            cs2.len() == pv.len() && build_result(pv, cs2) == build_result(pv.take(n), cs),
    decreases pv.len() - n,
{
    if n == pv.len() {
        assert(pv.take(n) =~= pv);
    } else {
        let cs2 = cs.push(Err(()));
        assert(pv.take(n + 1).drop_last() =~= pv.take(n));
        assert(cs2.drop_last() =~= cs);
        lemma_build_prefix_err(pv, cs2, n + 1);
    }
}

/// `p` is among the paths of `s`.
pub open spec fn listed(s: Seq<Filename>, p: Seq<Seq<char>>) -> bool {
    exists|i: int| 0 <= i < s.len() && #[trigger] s[i]@ == p
}

impl FilenameSet {
    /// Lists the stored terminals, each once, in path order. A directory is
    /// listed as itself, never as its contents.
    pub fn iterate(&self) -> (r: Vec<Filename>)
        ensures
            forall|p: Seq<Seq<char>>| #[trigger] self@.contains_key(p) <==> listed(r@, p),
            forall|i: int, j: int| 0 <= i < j < r@.len() ==> path_lt(#[trigger] r@[i]@, #[trigger] r@[j]@),
    {
        proof {
            use_type_invariant(self);
            lemma_entries(self.entries@);
            lemma_path_lt();
        }
        let v = &self.entries;
        let mut out: Vec<Filename> = Vec::new();
        let mut i: usize = 0;
        while i < v.len()
            invariant
                i <= v@.len(),
                v == &self.entries,
                unique_paths(pairs(v@)),
                forall|x: Seq<Seq<char>>| !(#[trigger] path_lt(x, x)),
                forall|x: Seq<Seq<char>>, y: Seq<Seq<char>>, z: Seq<Seq<char>>|
                    #[trigger] path_lt(x, y) && #[trigger] path_lt(y, z) ==> path_lt(x, z),
                forall|x: Seq<Seq<char>>, y: Seq<Seq<char>>| x != y ==> #[trigger] path_lt(x, y) || #[trigger] path_lt(y, x),
                forall|p: Seq<Seq<char>>|
                    #![trigger listed(out@, p)]
                    (exists|k: int| 0 <= k < i && #[trigger] v@[k].path@ == p) <==> listed(out@, p),
                forall|x: int, y: int| 0 <= x < y < out@.len() ==> path_lt(#[trigger] out@[x]@, #[trigger] out@[y]@),
            decreases v@.len() - i,
        {
            let p = &v[i].path;
            proof {
                assert forall|x: int| 0 <= x < out@.len() implies #[trigger] out@[x]@ != p@ by {
                    if out@[x]@ == p@ {
                        assert(listed(out@, p@));
                        let k = choose|k: int| 0 <= k < i && #[trigger] v@[k].path@ == p@;
                        assert(pairs(v@)[k].0 == v@[k].path@);
                        assert(pairs(v@)[i as int].0 == v@[i as int].path@);
                    }
                }
            }
            let mut pos: usize = 0;
            while pos < out.len() && out[pos].precedes(p)
                invariant
                    pos <= out@.len(),
                    forall|x: int| 0 <= x < pos ==> path_lt(#[trigger] out@[x]@, p@),
                decreases out@.len() - pos,
            {
                pos = pos + 1;
            }
            proof {
                if pos < out@.len() {
                    assert(out@[pos as int]@ != p@);
                    assert(path_lt(p@, out@[pos as int]@));
                    assert forall|x: int| pos <= x < out@.len() implies path_lt(p@, #[trigger] out@[x]@) by {
                        if x > pos {
                            assert(path_lt(out@[pos as int]@, out@[x]@));
                        }
                    }
                }
            }
            let ghost before = out@;
            out.insert(pos, p.clone_path());
            proof {
                assert(out@ == before.insert(pos as int, out@[pos as int]));
                assert forall|x: int, y: int| 0 <= x < y < out@.len() implies path_lt(#[trigger] out@[x]@, #[trigger] out@[y]@) by {
                    if y < pos {
                        assert(out@[x] == before[x]);
                        assert(out@[y] == before[y]);
                    } else if x < pos && y == pos {
                    } else if x < pos && y > pos {
                        assert(out@[y] == before[y - 1]);
                    } else if x == pos {
                        assert(out@[y] == before[y - 1]);
                    } else {
                        assert(out@[x] == before[x - 1]);
                        assert(out@[y] == before[y - 1]);
                    }
                }
                assert forall|q: Seq<Seq<char>>|
                    #![trigger listed(out@, q)]
                    (exists|k: int| 0 <= k < i + 1 && #[trigger] v@[k].path@ == q) <==> listed(out@, q) by {
                    if exists|k: int| 0 <= k < i + 1 && #[trigger] v@[k].path@ == q {
                        let k = choose|k: int| 0 <= k < i + 1 && #[trigger] v@[k].path@ == q;
                        if k == i {
                            assert(out@[pos as int]@ == q);
                        } else {
                            assert(listed(before, q));
                            let x = choose|x: int| 0 <= x < before.len() && #[trigger] before[x]@ == q;
                            if x < pos {
                                assert(out@[x]@ == q);
                            } else {
                                assert(out@[x + 1]@ == q);
                            }
                        }
                    }
                    if exists|x: int| 0 <= x < out@.len() && #[trigger] out@[x]@ == q {
                        let x = choose|x: int| 0 <= x < out@.len() && #[trigger] out@[x]@ == q;
                        if x == pos {
                            assert(v@[i as int].path@ == q);
                        } else if x < pos {
                            assert(before[x]@ == q);
                            assert(listed(before, q));
                        } else {
                            assert(before[x - 1]@ == q);
                            assert(listed(before, q));
                        }
                    }
                }
            }
            i = i + 1;
        }
        out
    }
}

/// `p` is a terminal of `added` that meets a terminal of `t`: one of the two
/// lies at or beneath the other.
pub open spec fn overlap_at(t: Terminals, added: Terminals, p: Seq<Seq<char>>) -> bool {
    added.contains_key(p) && exists|q: Seq<Seq<char>>|
        #![trigger t.contains_key(q)]
        t.contains_key(q) && (is_prefix(q, p) || is_prefix(p, q))
}

pub open spec fn has_overlap(t: Terminals, added: Terminals) -> bool {
    exists|p: Seq<Seq<char>>| overlap_at(t, added, p)
}

/// Walks the remaining paths of a listing, in order.
#[derive(Debug)]
pub struct FilenamesIter {
    items: Vec<Filename>,
    pos: usize,
}

impl View for FilenamesIter {
    type V = Seq<Seq<Seq<char>>>;

    closed spec fn view(&self) -> Seq<Seq<Seq<char>>> {
        paths_view(self.items@).subrange(self.pos as int, self.items@.len() as int)
    }
}

impl FilenamesIter {
    #[verifier::type_invariant]
    spec fn inv(&self) -> bool {
        self.pos <= self.items@.len()
    }

    /// The next path, or `None` once all have been handed out.
    pub fn next(&mut self) -> (r: Option<Filename>)
        ensures
            old(self)@.len() == 0 ==> r is None && final(self)@ == old(self)@,
            old(self)@.len() > 0 ==> (r matches Some(f) && f@ == old(self)@[0] && final(self)@ == old(self)@.drop_first()),
    {
        proof {
            use_type_invariant(&*self);
        }
        if self.pos < self.items.len() {
            let f = self.items[self.pos].clone_path();
            proof {
                assert(paths_view(self.items@)[self.pos as int] == self.items@[self.pos as int]@);
            }
            self.pos = self.pos + 1;
            proof {
                assert(self@ =~= old(self)@.drop_first());
            }
            Some(f)
        } else {
            None
        }
    }
}

impl FilenameSet {
    /// A fresh walk over the stored terminals, in path order.
    pub fn iter(&self) -> (r: FilenamesIter)
        ensures
            forall|p: Seq<Seq<char>>| #[trigger] self@.contains_key(p) <==> r@.contains(p),
            forall|i: int, j: int| 0 <= i < j < r@.len() ==> path_lt(#[trigger] r@[i], #[trigger] r@[j]),
    {
        let items = self.iterate();
        let r = FilenamesIter { items, pos: 0 };
        proof {
            assert(r@ =~= paths_view(items@));
            assert forall|p: Seq<Seq<char>>| #[trigger] self@.contains_key(p) <==> r@.contains(p) by {
                if self@.contains_key(p) {
                    let i = choose|i: int| 0 <= i < items@.len() && #[trigger] items@[i]@ == p;
                    assert(r@[i] == p);
                }
                if r@.contains(p) {
                    let i = choose|i: int| 0 <= i < r@.len() && r@[i] == p;
                    assert(items@[i]@ == p);
                }
            }
            assert forall|i: int, j: int| 0 <= i < j < r@.len() implies path_lt(#[trigger] r@[i], #[trigger] r@[j]) by {
                assert(r@[i] == items@[i]@);
                assert(r@[j] == items@[j]@);
            }
        }
        r
    }

    /// A terminal of `added` that meets a terminal of this set, if any.
    pub fn overlapping_path(&self, added: &FilenameSet) -> (r: Option<Filename>)
        ensures
            match r {
                Some(p) => overlap_at(self@, added@, p@),
                None => !has_overlap(self@, added@),
            },
    {
        proof {
            use_type_invariant(self);
            use_type_invariant(added);
            lemma_entries(self.entries@);
            lemma_entries(added.entries@);
        }
        let a = &self.entries;
        let b = &added.entries;
        let mut j: usize = 0;
        while j < b.len()
            invariant
                j <= b@.len(),
                a == &self.entries,
                b == &added.entries,
                unique_paths(pairs(a@)),
                unique_paths(pairs(b@)),
                forall|k: int| 0 <= k < j ==> !overlap_at(self@, added@, #[trigger] b@[k].path@),
            decreases b@.len() - j,
        {
            let mut i: usize = 0;
            while i < a.len()
                invariant
                    i <= a@.len(),
                    j < b@.len(),
                    a == &self.entries,
                    b == &added.entries,
                    unique_paths(pairs(a@)),
                    unique_paths(pairs(b@)),
                    forall|k: int| 0 <= k < i ==> !(is_prefix(#[trigger] a@[k].path@, b@[j as int].path@) || is_prefix(b@[j as int].path@, a@[k].path@)),
                decreases a@.len() - i,
            {
                if a[i].path.is_prefix_of(&b[j].path) || b[j].path.is_prefix_of(&a[i].path) {
                    let p = b[j].path.clone_path();
                    proof {
                        lemma_entries(a@);
                        lemma_entries(b@);
                        assert(self@.contains_key(a@[i as int].path@));
                    }
                    return Some(p);
                }
                i = i + 1;
            }
            proof {
                lemma_entries(a@);
                lemma_entries(b@);
                assert forall|q: Seq<Seq<char>>| #[trigger] self@.contains_key(q) implies !(is_prefix(q, b@[j as int].path@) || is_prefix(b@[j as int].path@, q)) by {
                    let k = choose|k: int| 0 <= k < a@.len() && #[trigger] a@[k].path@ == q;
                }
            }
            j = j + 1;
        }
        proof {
            lemma_entries(b@);
            assert forall|p: Seq<Seq<char>>| !overlap_at(self@, added@, p) by {
                if added@.contains_key(p) {
                    let k = choose|k: int| 0 <= k < b@.len() && #[trigger] b@[k].path@ == p;
                    assert(!overlap_at(self@, added@, b@[k].path@));
                }
            }
        }
        None
    }
}

impl FilenameSet {
    /// The strict difference: every path of `other` must be covered by this set.
    pub fn difference(&self, other: &FilenameSet) -> (r: Result<FilenameSet, PathSetError>)
        ensures
            subtract_result(self@, other@, SubtractPolicy::Strict, match r {
                Ok(s) => Ok(s@),
                Err(e) => Err((e.kind, e.path@)),
            }),
            r matches Ok(s) ==> wf_terminals(s@),
    {
        self.subtract(other, SubtractPolicy::Strict)
    }

    /// The strict difference: every path of `other` must be covered by this set.
    pub fn difference_strict(&self, other: &FilenameSet) -> (r: Result<FilenameSet, PathSetError>)
        ensures
            subtract_result(self@, other@, SubtractPolicy::Strict, match r {
                Ok(s) => Ok(s@),
                Err(e) => Err((e.kind, e.path@)),
            }),
            r matches Ok(s) ==> wf_terminals(s@),
    {
        self.subtract(other, SubtractPolicy::Strict)
    }

    /// The relaxed difference: paths of `other` that this set does not cover
    /// are passed over.
    pub fn difference_relaxed(&self, other: &FilenameSet) -> (r: Result<FilenameSet, PathSetError>)
        ensures
            subtract_result(self@, other@, SubtractPolicy::Relaxed, match r {
                Ok(s) => Ok(s@),
                Err(e) => Err((e.kind, e.path@)),
            }),
            r matches Ok(s) ==> wf_terminals(s@),
    {
        self.subtract(other, SubtractPolicy::Relaxed)
    }

    /// The number of stored terminals.
    pub fn len(&self) -> (r: usize)
        ensures
            r == self@.dom().len(),
    {
        proof {
            use_type_invariant(self);
            lemma_entries(self.entries@);
            lemma_unique_len(self.entries@);
        }
        self.entries.len()
    }
}

/// A list of entries with distinct paths has as many entries as its map has keys.
proof fn lemma_unique_len(v: Seq<Entry>)
    requires
        unique_paths(pairs(v)),
    ensures
        entries_view(v).dom().len() == v.len(),
    decreases v.len(),
{
    if v.len() > 0 {
        let init = v.drop_last();
        assert(pairs(init) =~= pairs(v).drop_last());
        assert forall|i: int, j: int| 0 <= i < j < pairs(init).len() implies pairs(init)[i].0 != pairs(init)[j].0 by {
            assert(pairs(init)[i] == pairs(v)[i]);
            assert(pairs(init)[j] == pairs(v)[j]);
        }
        lemma_unique_len(init);
        lemma_entries(init);
        assert(pairs(v).last() == (v.last().path@, v.last().kind));
        assert(!entries_view(init).contains_key(v.last().path@)) by {
            if entries_view(init).contains_key(v.last().path@) {
                let k = choose|k: int| 0 <= k < init.len() && #[trigger] init[k].path@ == v.last().path@;
                assert(pairs(v)[k].0 == pairs(v)[v.len() - 1].0);
            }
        }
        assert(pairs(v).drop_last() == pairs(init));
    }
}
impl FilenameSet {
    /// A copy of this set.
    pub fn duplicate(&self) -> (r: FilenameSet)
        ensures
            r@ == self@,
            wf_terminals(r@),
    {
        proof {
            use_type_invariant(self);
        }
        let mut out: Vec<Entry> = Vec::new();
        let mut i: usize = 0;
        while i < self.entries.len()
            invariant
                i <= self.entries@.len(),
                pairs(out@) == pairs(self.entries@).take(i as int),
            decreases self.entries@.len() - i,
        {
            let e = copy_entry(&self.entries[i]);
            let ghost before = out@;
            out.push(e);
            proof {
                lemma_push(before, e);
                assert(pairs(self.entries@).take(i + 1) =~= pairs(self.entries@).take(i as int).push((e.path@, e.kind)));
            }
            i = i + 1;
        }
        proof {
            assert(pairs(self.entries@).take(i as int) =~= pairs(self.entries@));
        }
        FilenameSet { entries: out }
    }
}

} // verus!
