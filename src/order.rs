use vstd::prelude::*;
use vstd::string::*;

verus! {

/// `a` and `b` agree on their first `i` elements.
pub open spec fn agree_upto<A>(a: Seq<A>, b: Seq<A>, i: int) -> bool {
    forall|j: int| 0 <= j < i ==> #[trigger] a[j] == b[j]
}

/// Lexicographic order under the element order `lt`: at the first place
/// where the sequences part, `a` has ended or holds the smaller element.
pub open spec fn lex_lt<A>(a: Seq<A>, b: Seq<A>, lt: spec_fn(A, A) -> bool) -> bool {
    exists|i: int|
        #![trigger agree_upto(a, b, i)]
        0 <= i <= a.len() && i <= b.len() && agree_upto(a, b, i) && ((i == a.len() && i < b.len())
            || (i < a.len() && i < b.len() && lt(a[i], b[i])))
}

pub open spec fn strict_total_order<A>(lt: spec_fn(A, A) -> bool) -> bool {
    &&& forall|x: A| !(#[trigger] lt(x, x))
    &&& forall|x: A, y: A, z: A| #[trigger] lt(x, y) && #[trigger] lt(y, z) ==> lt(x, z)
    &&& forall|x: A, y: A| x != y ==> #[trigger] lt(x, y) || #[trigger] lt(y, x)
}

/// Characters ordered by code point.
pub open spec fn char_lt() -> spec_fn(char, char) -> bool {
    |x: char, y: char| x < y
}

/// Components ordered lexicographically by code point.
pub open spec fn component_lt() -> spec_fn(Seq<char>, Seq<char>) -> bool {
    |x: Seq<char>, y: Seq<char>| lex_lt(x, y, char_lt())
}

/// Paths ordered lexicographically by component.
pub open spec fn path_lt(a: Seq<Seq<char>>, b: Seq<Seq<char>>) -> bool {
    lex_lt(a, b, component_lt())
}

/// The place where two sequences first part (or the end of the shorter),
/// searching from `k` on.
pub proof fn first_difference_from<A>(a: Seq<A>, b: Seq<A>, k: int) -> (i: int)
    requires
        0 <= k <= a.len(),
        k <= b.len(),
        agree_upto(a, b, k),
    ensures
        k <= i <= a.len(),
        i <= b.len(),
        agree_upto(a, b, i),
        i < a.len() && i < b.len() ==> a[i] != b[i],
        i == a.len() && i == b.len() ==> a == b,
    decreases a.len() - k,
{
    if k < a.len() && k < b.len() && a[k] == b[k] {
        first_difference_from(a, b, k + 1)
    } else {
        if k == a.len() && k == b.len() {
            assert(a =~= b);
        }
        k
    }
}

pub proof fn first_difference<A>(a: Seq<A>, b: Seq<A>) -> (i: int)
    ensures
        0 <= i <= a.len(),
        i <= b.len(),
        agree_upto(a, b, i),
        i < a.len() && i < b.len() ==> a[i] != b[i],
        i == a.len() && i == b.len() ==> a == b,
{
    first_difference_from(a, b, 0)
}

pub proof fn lemma_lex_order<A>(lt: spec_fn(A, A) -> bool)
    requires
        strict_total_order(lt),
    ensures
        strict_total_order(|x: Seq<A>, y: Seq<A>| lex_lt(x, y, lt)),
{
    let llt = |x: Seq<A>, y: Seq<A>| lex_lt(x, y, lt);
    assert forall|x: Seq<A>| !(#[trigger] llt(x, x)) by {
        if lex_lt(x, x, lt) {
            let i = choose|i: int|
                #![trigger agree_upto(x, x, i)]
                0 <= i <= x.len() && i <= x.len() && agree_upto(x, x, i) && ((i == x.len() && i
                    < x.len()) || (i < x.len() && i < x.len() && lt(x[i], x[i])));
        }
    }
    assert forall|x: Seq<A>, y: Seq<A>, z: Seq<A>| #[trigger] llt(x, y) && #[trigger] llt(y, z) implies llt(x, z) by {
        let i = choose|i: int|
            #![trigger agree_upto(x, y, i)]
            0 <= i <= x.len() && i <= y.len() && agree_upto(x, y, i) && ((i == x.len() && i < y.len())
                || (i < x.len() && i < y.len() && lt(x[i], y[i])));
        let j = choose|j: int|
            #![trigger agree_upto(y, z, j)]
            0 <= j <= y.len() && j <= z.len() && agree_upto(y, z, j) && ((j == y.len() && j < z.len())
                || (j < y.len() && j < z.len() && lt(y[j], z[j])));
        if i < j {
            assert(y[i] == z[i]) by {
                if i < y.len() {
                }
            }
            assert(agree_upto(x, z, i));
        } else if j < i {
            assert(x[j] == y[j]);
            assert(agree_upto(x, z, j));
        } else {
            assert(agree_upto(x, z, i));
        }
    }
    assert forall|x: Seq<A>, y: Seq<A>| x != y implies #[trigger] llt(x, y) || #[trigger] llt(y, x) by {
        let i = first_difference(x, y);
        if i < x.len() && i < y.len() {
            assert(lt(x[i], y[i]) || lt(y[i], x[i]));
            assert(agree_upto(y, x, i));
        } else if i == x.len() {
            assert(agree_upto(x, y, i));
        } else {
            assert(agree_upto(y, x, i));
        }
    }
}

/// The orders on components and on paths are strict total orders.
pub proof fn lemma_path_order()
    ensures
        strict_total_order(char_lt()),
        strict_total_order(component_lt()),
        strict_total_order(|x: Seq<Seq<char>>, y: Seq<Seq<char>>| path_lt(x, y)),
{
    assert forall|x: char, y: char| x != y implies #[trigger] char_lt()(x, y) || #[trigger] char_lt()(y, x) by {
        assert(x < y || y < x);
    }
    lemma_lex_order(char_lt());
    assert(component_lt() == |x: Seq<char>, y: Seq<char>| lex_lt(x, y, char_lt()));
    lemma_lex_order(component_lt());
    assert((|x: Seq<Seq<char>>, y: Seq<Seq<char>>| path_lt(x, y)) == (|x: Seq<Seq<char>>, y: Seq<Seq<char>>| lex_lt(x, y, component_lt())));
}

/// The order on paths is irreflexive, transitive and total.
pub proof fn lemma_path_lt()
    ensures
        forall|x: Seq<Seq<char>>| !(#[trigger] path_lt(x, x)),
        forall|x: Seq<Seq<char>>, y: Seq<Seq<char>>, z: Seq<Seq<char>>|
            #[trigger] path_lt(x, y) && #[trigger] path_lt(y, z) ==> path_lt(x, z),
        forall|x: Seq<Seq<char>>, y: Seq<Seq<char>>| x != y ==> #[trigger] path_lt(x, y) || #[trigger] path_lt(y, x),
{
    lemma_path_order();
    let plt = |x: Seq<Seq<char>>, y: Seq<Seq<char>>| path_lt(x, y);
    assert forall|x: Seq<Seq<char>>| !(#[trigger] path_lt(x, x)) by {
        assert(!plt(x, x));
    }
    assert forall|x: Seq<Seq<char>>, y: Seq<Seq<char>>, z: Seq<Seq<char>>|
        #[trigger] path_lt(x, y) && #[trigger] path_lt(y, z) implies path_lt(x, z) by {
        assert(plt(x, y) && plt(y, z));
    }
    assert forall|x: Seq<Seq<char>>, y: Seq<Seq<char>>| x != y implies #[trigger] path_lt(x, y) || #[trigger] path_lt(y, x) by {
        assert(plt(x, y) || plt(y, x));
    }
}

/// Whether `a` comes before `b` in code point order.
pub fn string_lt(a: &String, b: &String) -> (r: bool)
    ensures
        r == component_lt()(a@, b@),
{
    let sa = a.as_str();
    let sb = b.as_str();
    let na = sa.unicode_len();
    let nb = sb.unicode_len();
    let mut i: usize = 0;
    while i < na && i < nb
        invariant
            na == a@.len(),
            nb == b@.len(),
            sa@ == a@,
            sb@ == b@,
            i <= na,
            i <= nb,
            agree_upto(a@, b@, i as int),
        decreases na - i,
    {
        let ca = sa.get_char(i);
        let cb = sb.get_char(i);
        if ca != cb {
            let r = ca < cb;
            proof {
                if !r {
                    assert forall|k: int|
                        0 <= k <= a@.len() && k <= b@.len() && #[trigger] agree_upto(a@, b@, k) implies !((k == a@.len() && k < b@.len())
                            || (k < a@.len() && k < b@.len() && char_lt()(a@[k], b@[k]))) by {
                        if k > i {
                            assert(a@[i as int] == b@[i as int]);
                        }
                    }
                }
            }
            return r;
        }
        i = i + 1;
    }
    let r = i == na && i < nb;
    proof {
        if !r {
            assert forall|k: int|
                0 <= k <= a@.len() && k <= b@.len() && #[trigger] agree_upto(a@, b@, k) implies !((k == a@.len() && k < b@.len())
                    || (k < a@.len() && k < b@.len() && char_lt()(a@[k], b@[k]))) by {
                if k < i {
                    assert(a@[k] == b@[k]);
                }
            }
        }
    }
    r
}

} // verus!
