use vstd::prelude::*;
use crate::filename::{
    is_strict_prefix, parse_path, render_path, split_state, valid_component, valid_components,
};
use crate::path_set::{
    conflict_at, covers, difference_of, has_below, insert_result, lemma_prefix_trans, merge_conflict, merged,
    needs_classification, removal_fails, subtract_fails, under_dir, wf_terminals, ErrorKind, LeafKind,
    SubtractPolicy, Terminals,
};

verus! {

/// A union with itself gives the set back, and a strict difference with
/// itself leaves nothing.
pub proof fn law_self_merge_and_subtract(s: Terminals)
    requires
        wf_terminals(s),
    ensures
        !merge_conflict(s, s),
        merged(s, s) == s,
        !subtract_fails(s, s, SubtractPolicy::Strict),
        difference_of(s, s) == Map::<Seq<Seq<char>>, LeafKind>::empty(),
{
    assert forall|x: Seq<Seq<char>>| !conflict_at(s, s, x) by {
        if s.contains_key(x) && has_below(s, x) {
            let q = choose|q: Seq<Seq<char>>| #![trigger s.contains_key(q)] s.contains_key(q) && is_strict_prefix(x, q);
            assert(s.contains_key(x) && s.contains_key(q));
        }
    }
    assert forall|p: Seq<Seq<char>>| #[trigger] s.contains_key(p) implies !under_dir(s, p) by {
        if under_dir(s, p) {
            let q = choose|q: Seq<Seq<char>>| #![trigger s.contains_key(q)] s.contains_key(q) && s[q] == LeafKind::Directory && is_strict_prefix(q, p);
            assert(s.contains_key(q) && s.contains_key(p));
        }
    }
    assert(merged(s, s) =~= s);
    assert forall|q: Seq<Seq<char>>| !removal_fails(s, s, q, SubtractPolicy::Strict) by {}
    assert(difference_of(s, s) =~= Map::<Seq<Seq<char>>, LeafKind>::empty());
}

/// Union is commutative: both orders fail together, and otherwise agree.
pub proof fn law_merge_commutative(a: Terminals, b: Terminals)
    ensures
        merge_conflict(a, b) == merge_conflict(b, a),
        merged(a, b) == merged(b, a),
{
    assert forall|x: Seq<Seq<char>>| conflict_at(a, b, x) == conflict_at(b, a, x) by {}
    assert(merged(a, b) =~= merged(b, a));
}

/// A path lies beneath a directory of a conflict-free union exactly when it
/// lies beneath a directory of either side.
pub proof fn lemma_under_dir_merged(a: Terminals, b: Terminals, p: Seq<Seq<char>>)
    requires
        wf_terminals(a),
        wf_terminals(b),
    ensures
        under_dir(merged(a, b), p) == (under_dir(a, p) || under_dir(b, p)),
{
    let m = merged(a, b);
    if under_dir(a, p) {
        let q = choose|q: Seq<Seq<char>>| #![trigger a.contains_key(q)] a.contains_key(q) && a[q] == LeafKind::Directory && is_strict_prefix(q, p);
        if m.contains_key(q) {
            assert(m[q] == LeafKind::Directory);
            assert(under_dir(m, p));
        } else {
            let q2 = choose|q2: Seq<Seq<char>>| #![trigger b.contains_key(q2)] b.contains_key(q2) && b[q2] == LeafKind::Directory && is_strict_prefix(q2, q);
            lemma_prefix_trans(q2, q, p);
            if !m.contains_key(q2) {
                let q3 = choose|q3: Seq<Seq<char>>| #![trigger a.contains_key(q3)] a.contains_key(q3) && a[q3] == LeafKind::Directory && is_strict_prefix(q3, q2);
                lemma_prefix_trans(q3, q2, q);
                assert(a.contains_key(q3) && a.contains_key(q));
            }
            assert(m.contains_key(q2) && m[q2] == LeafKind::Directory);
        }
    }
    if under_dir(b, p) {
        let q = choose|q: Seq<Seq<char>>| #![trigger b.contains_key(q)] b.contains_key(q) && b[q] == LeafKind::Directory && is_strict_prefix(q, p);
        if m.contains_key(q) {
            assert(m[q] == LeafKind::Directory);
            assert(under_dir(m, p));
        } else {
            let q2 = choose|q2: Seq<Seq<char>>| #![trigger a.contains_key(q2)] a.contains_key(q2) && a[q2] == LeafKind::Directory && is_strict_prefix(q2, q);
            lemma_prefix_trans(q2, q, p);
            if !m.contains_key(q2) {
                let q3 = choose|q3: Seq<Seq<char>>| #![trigger b.contains_key(q3)] b.contains_key(q3) && b[q3] == LeafKind::Directory && is_strict_prefix(q3, q2);
                lemma_prefix_trans(q3, q2, q);
                assert(b.contains_key(q3) && b.contains_key(q));
            }
            assert(m.contains_key(q2) && m[q2] == LeafKind::Directory);
        }
    }
    if under_dir(m, p) {
        let q = choose|q: Seq<Seq<char>>| #![trigger m.contains_key(q)] m.contains_key(q) && m[q] == LeafKind::Directory && is_strict_prefix(q, p);
        if a.contains_key(q) && a[q] == LeafKind::Directory {
            assert(under_dir(a, p));
        } else {
            assert(b.contains_key(q) && b[q] == LeafKind::Directory);
            assert(under_dir(b, p));
        }
    }
}

/// Union is associative on sets that pairwise do not conflict: both
/// groupings succeed and agree.
pub proof fn law_merge_associative(a: Terminals, b: Terminals, c: Terminals)
    requires
        wf_terminals(a),
        wf_terminals(b),
        wf_terminals(c),
        !merge_conflict(a, b),
        !merge_conflict(b, c),
        !merge_conflict(a, c),
    ensures
        !merge_conflict(merged(a, b), c),
        !merge_conflict(a, merged(b, c)),
        merged(merged(a, b), c) == merged(a, merged(b, c)),
{
    let ab = merged(a, b);
    let bc = merged(b, c);
    assert forall|x: Seq<Seq<char>>| !conflict_at(ab, c, x) by {
        assert(!conflict_at(a, c, x));
        assert(!conflict_at(b, c, x));
        if c.contains_key(x) && c[x] == LeafKind::File && has_below(ab, x) {
            let q = choose|q: Seq<Seq<char>>| #![trigger ab.contains_key(q)] ab.contains_key(q) && is_strict_prefix(x, q);
            if a.contains_key(q) {
                assert(has_below(a, x));
            } else {
                assert(has_below(b, x));
            }
        }
    }
    assert forall|x: Seq<Seq<char>>| !conflict_at(a, bc, x) by {
        assert(!conflict_at(a, b, x));
        assert(!conflict_at(a, c, x));
        if a.contains_key(x) && a[x] == LeafKind::File && has_below(bc, x) {
            let q = choose|q: Seq<Seq<char>>| #![trigger bc.contains_key(q)] bc.contains_key(q) && is_strict_prefix(x, q);
            if b.contains_key(q) {
                assert(has_below(b, x));
            } else {
                assert(has_below(c, x));
            }
        }
    }
    assert forall|p: Seq<Seq<char>>| #[trigger] merged(ab, c).contains_key(p) == merged(a, bc).contains_key(p) by {
        lemma_under_dir_merged(a, b, p);
        lemma_under_dir_merged(b, c, p);
    }
    assert forall|p: Seq<Seq<char>>| #[trigger] merged(ab, c).contains_key(p) implies merged(ab, c)[p] == merged(a, bc)[p] by {
        lemma_under_dir_merged(a, b, p);
        lemma_under_dir_merged(b, c, p);
    }
    assert(merged(ab, c) =~= merged(a, bc));
}

/// A conflict-free union denotes exactly the paths that either side denotes.
pub proof fn law_merge_denotes_union(a: Terminals, b: Terminals, p: Seq<Seq<char>>)
    requires
        wf_terminals(a),
        wf_terminals(b),
        !merge_conflict(a, b),
    ensures
        covers(merged(a, b), p) == (covers(a, p) || covers(b, p)),
{
    lemma_under_dir_merged(a, b, p);
}

/// A path beneath a stored directory is already in the set: inserting it
/// changes nothing and needs no classification.
pub proof fn law_directory_absorbs(t: Terminals, p: Seq<Seq<char>>, c: Result<LeafKind, ()>)
    requires
        wf_terminals(t),
        under_dir(t, p),
    ensures
        covers(t, p),
        !needs_classification(t, p),
        insert_result(t, p, c) == Ok::<Terminals, ErrorKind>(t),
{
    assert(p.len() > 0);
}

/// Reading characters without a separator extends the component being read.
proof fn lemma_split_run(s: Seq<char>, c: Seq<char>)
    requires
        !c.contains('/'),
    ensures
        split_state(s + c) == (split_state(s).0, split_state(s).1 + c),
    decreases c.len(),
{
    if c.len() == 0 {
        assert(s + c =~= s);
        assert(split_state(s).1 + c =~= split_state(s).1);
    } else {
        let init = c.drop_last();
        assert(!init.contains('/')) by {
            if init.contains('/') {
                let i = choose|i: int| 0 <= i < init.len() && init[i] == '/';
                assert(c[i] == '/');
            }
        }
        lemma_split_run(s, init);
        assert((s + c).drop_last() =~= s + init);
        assert((s + c).last() == c.last());
        assert(c.contains(c.last()));
        assert(split_state(s).1 + init.push(c.last()) =~= split_state(s).1 + c);
        assert(init.push(c.last()) =~= c);
    }
}

/// The text of a non-root path, without its leading separator, splits back
/// into the path's components.
proof fn lemma_split_render(p: Seq<Seq<char>>)
    requires
        p.len() > 0,
        valid_components(p),
    ensures
        render_path(p).len() > 0,
        render_path(p)[0] == '/',
        split_state(render_path(p).drop_first()) == (p.drop_last(), p.last()),
    decreases p.len(),
{
    let init = p.drop_last();
    let c = p.last();
    assert(valid_component(p[p.len() - 1]));
    if init.len() == 0 {
        assert(render_path(init) =~= Seq::<char>::empty());
        assert(render_path(p) =~= seq!['/'] + c);
        assert(render_path(p).drop_first() =~= Seq::<char>::empty() + c);
        lemma_split_run(Seq::empty(), c);
        assert(split_state(Seq::<char>::empty()) == (Seq::<Seq<char>>::empty(), Seq::<char>::empty()));
        assert(Seq::<char>::empty() + c =~= c);
        assert(init =~= Seq::<Seq<char>>::empty());
    } else {
        assert forall|i: int| 0 <= i < init.len() implies valid_component(#[trigger] init[i]) by {
            assert(init[i] == p[i]);
        }
        lemma_split_render(init);
        let t = render_path(init).drop_first();
        let u = t.push('/');
        assert(render_path(p).drop_first() =~= u + c);
        assert(u.drop_last() =~= t);
        assert(init.last().len() > 0) by {
            assert(valid_component(init[init.len() - 1]));
        }
        assert(split_state(u) == (init.drop_last().push(init.last()), Seq::<char>::empty()));
        assert(init.drop_last().push(init.last()) =~= init);
        lemma_split_run(u, c);
        assert(Seq::<char>::empty() + c =~= c);
    }
}

/// Parsing the text of a non-root path whose components are non-empty and
/// free of separators gives the path back.
pub proof fn law_parse_render(p: Seq<Seq<char>>)
    requires
        p.len() > 0,
        valid_components(p),
    ensures
        parse_path(render_path(p)) == Some(p),
{
    lemma_split_render(p);
    assert(p.drop_last().push(p.last()) =~= p);
}

} // verus!
