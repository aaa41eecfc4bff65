use vstd::prelude::*;
use vstd::string::*;
use crate::order::{agree_upto, component_lt, lemma_path_order, path_lt, string_lt};

verus! {

/// The state of a left-to-right split on '/': the components finished so far
/// and the component being read.
pub open spec fn split_state(s: Seq<char>) -> (Seq<Seq<char>>, Seq<char>)
    decreases s.len(),
{
    if s.len() == 0 {
        (Seq::empty(), Seq::empty())
    } else {
        let (done, cur) = split_state(s.drop_last());
        let c = s.last();
        if c == '/' {
            if cur.len() > 0 {
                (done.push(cur), Seq::empty())
            } else {
                (done, Seq::empty())
            }
        } else {
            (done, cur.push(c))
        }
    }
}

/// The non-empty runs of non-separator characters of `s`, in order.
pub open spec fn split_components(s: Seq<char>) -> Seq<Seq<char>> {
    let (done, cur) = split_state(s);
    if cur.len() > 0 {
        done.push(cur)
    } else {
        done
    }
}

/// What parsing a path text gives: `None` unless it starts with the separator.
pub open spec fn parse_path(s: Seq<char>) -> Option<Seq<Seq<char>>> {
    if s.len() > 0 && s[0] == '/' {
        Some(split_components(s.drop_first()))
    } else {
        None
    }
}

/// The canonical text of a path: a separator before each component.
pub open spec fn render_path(p: Seq<Seq<char>>) -> Seq<char>
    decreases p.len(),
{
    if p.len() == 0 {
        Seq::empty()
    } else {
        render_path(p.drop_last()) + seq!['/'] + p.last()
    }
}

/// A component is non-empty and holds no separator.
pub open spec fn valid_component(c: Seq<char>) -> bool {
    c.len() > 0 && !c.contains('/')
}

pub open spec fn valid_components(p: Seq<Seq<char>>) -> bool {
    forall|i: int| 0 <= i < p.len() ==> valid_component(#[trigger] p[i])
}

/// An absolute path, held as its components. No components means the root.
#[derive(Clone, Debug)]
pub struct Filename {
    components: Vec<String>,
}

impl View for Filename {
    type V = Seq<Seq<char>>;

    closed spec fn view(&self) -> Seq<Seq<char>> {
        self.components@.map_values(|c: String| c@)
    }
}

proof fn lemma_split_state_valid(s: Seq<char>)
    ensures
        valid_components(split_state(s).0),
        !split_state(s).1.contains('/'),
    decreases s.len(),
{
    if s.len() > 0 {
        lemma_split_state_valid(s.drop_last());
        let (done, cur) = split_state(s.drop_last());
        if s.last() != '/' {
            assert forall|j: int| 0 <= j < cur.push(s.last()).len() implies cur.push(s.last())[j]
                != '/' by {
                if j < cur.len() {
                    assert(cur[j] != '/');
                }
            }
        }
    }
}

impl Filename {
    /// Parses an absolute path. Fails unless the text starts with '/';
    /// repeated separators collapse.
    pub fn from_str(path: String) -> (r: Result<Filename, crate::path_set::ErrorKind>)
        ensures
            match parse_path(path@) {
                Some(p) => r matches Ok(f) && f@ == p,
                None => r == Err::<Filename, _>(crate::path_set::ErrorKind::InvalidPath),
            },
            r matches Ok(f) ==> valid_components(f@),
    {
        let s = path.as_str();
        let n = s.unicode_len();
        if n == 0 || s.get_char(0) != '/' {
            return Err(crate::path_set::ErrorKind::InvalidPath);
        }
        let ghost rest = s@.drop_first();
        let mut components: Vec<String> = Vec::new();
        let mut start: usize = 1;
        let mut i: usize = 1;
        while i < n
            invariant
                n == s@.len(),
                1 <= start <= i <= n,
                rest == s@.drop_first(),
                split_state(rest.subrange(0, i - 1)).0 == components@.map_values(|c: String| c@),
                split_state(rest.subrange(0, i - 1)).1 == s@.subrange(start as int, i as int),
            decreases n - i,
        {
            let c = s.get_char(i);
            proof {
                let t = rest.subrange(0, i as int);
                assert(t.drop_last() =~= rest.subrange(0, i - 1));
                assert(t.last() == c);
            }
            if c == '/' {
                if start < i {
                    let piece = s.substring_char(start, i).to_owned();
                    components.push(piece);
                    proof {
                        assert(components@.map_values(|c: String| c@) =~= old_map_push(
                            components@.drop_last(),
                            piece,
                        ));
                    }
                }
                start = i + 1;
            }
            proof {
                let t = rest.subrange(0, i as int);
                assert(s@.subrange(start as int, i + 1) =~= if c == '/' {
                    Seq::<char>::empty()
                } else {
                    s@.subrange(start as int, i as int).push(c)
                });
            }
            i = i + 1;
        }
        proof {
            assert(rest.subrange(0, n - 1) =~= rest);
        }
        if start < n {
            let piece = s.substring_char(start, n).to_owned();
            components.push(piece);
            proof {
                assert(components@.map_values(|c: String| c@) =~= old_map_push(
                    components@.drop_last(),
                    piece,
                ));
            }
        }
        proof {
            lemma_split_state_valid(rest);
            let (done, cur) = split_state(rest);
            if cur.len() > 0 {
                assert forall|j: int| 0 <= j < done.push(cur).len() implies valid_component(
                    #[trigger] done.push(cur)[j],
                ) by {
                    if j < done.len() {
                        assert(valid_component(done[j]));
                    }
                }
            }
        }
        let r = Filename { components };
        assert(r@ == split_components(rest));
        Ok(r)
    }
}

/// `p` is `q` or an ancestor of it.
pub open spec fn is_prefix(p: Seq<Seq<char>>, q: Seq<Seq<char>>) -> bool {
    p.len() <= q.len() && forall|i: int| 0 <= i < p.len() ==> #[trigger] p[i] == q[i]
}

/// `p` is a proper ancestor of `q`.
pub open spec fn is_strict_prefix(p: Seq<Seq<char>>, q: Seq<Seq<char>>) -> bool {
    is_prefix(p, q) && p.len() < q.len()
}

impl Filename {
    /// The root path, with no components.
    pub fn root() -> (r: Filename)
        ensures
            r@ == Seq::<Seq<char>>::empty(),
    {
        let r = Filename { components: Vec::new() };
        assert(r@ =~= Seq::<Seq<char>>::empty());
        r
    }

    /// The number of components.
    pub fn len(&self) -> (r: usize)
        ensures
            r == self@.len(),
    {
        self.components.len()
    }

    /// A copy of this path.
    pub fn clone_path(&self) -> (r: Filename)
        ensures
            r@ == self@,
    {
        let mut components: Vec<String> = Vec::new();
        let mut i: usize = 0;
        while i < self.components.len()
            invariant
                i <= self.components@.len(),
                components@.map_values(|c: String| c@) =~= self@.subrange(0, i as int),
            decreases self.components@.len() - i,
        {
            let c = self.components[i].clone();
            let ghost before = components@;
            components.push(c);
            proof {
                assert(c@ == self@[i as int]);
                assert(components@ == before.push(c));
                assert(components@.map_values(|c: String| c@) =~= before.map_values(
                    |c: String| c@,
                ).push(c@));
                assert(components@.map_values(|c: String| c@) =~= self@.subrange(0, i + 1));
            }
            i = i + 1;
        }
        assert(self@.subrange(0, i as int) =~= self@);
        Filename { components }
    }

    /// Whether this path is `other` or an ancestor of it.
    pub fn is_prefix_of(&self, other: &Filename) -> (r: bool)
        ensures
            r == is_prefix(self@, other@),
    {
        if self.components.len() > other.components.len() {
            return false;
        }
        let mut i: usize = 0;
        while i < self.components.len()
            invariant
                i <= self.components@.len() <= other.components@.len(),
                forall|j: int| 0 <= j < i ==> self@[j] == other@[j],
            decreases self.components@.len() - i,
        {
            if self.components[i] != other.components[i] {
                assert(self@[i as int] != other@[i as int]);
                return false;
            }
            i = i + 1;
        }
        true
    }

    /// Whether this path is a proper ancestor of `other`.
    pub fn is_strict_prefix_of(&self, other: &Filename) -> (r: bool)
        ensures
            r == is_strict_prefix(self@, other@),
    {
        self.components.len() < other.components.len() && self.is_prefix_of(other)
    }

    /// Whether the two paths are equal.
    pub fn same_path(&self, other: &Filename) -> (r: bool)
        ensures
            r == (self@ == other@),
    {
        assert(self@.len() == self.components@.len());
        assert(other@.len() == other.components@.len());
        let r = self.components.len() == other.components.len() && self.is_prefix_of(other);
        if r {
            assert(self@ =~= other@);
        }
        r
    }
}

impl Filename {
    /// Whether this path comes before `other`: components are compared in
    /// turn, by code point, and a path comes before its descendants.
    pub fn precedes(&self, other: &Filename) -> (r: bool)
        ensures
            r == path_lt(self@, other@),
    {
        let na = self.components.len();
        let nb = other.components.len();
        proof {
            lemma_path_order();
        }
        let mut i: usize = 0;
        while i < na && i < nb
            invariant
                na == self@.len(),
                nb == other@.len(),
                self@.len() == self.components@.len(),
                other@.len() == other.components@.len(),
                i <= na,
                i <= nb,
                agree_upto(self@, other@, i as int),
                forall|x: Seq<char>| !(#[trigger] component_lt()(x, x)),
                forall|x: Seq<char>, y: Seq<char>, z: Seq<char>| #[trigger] component_lt()(x, y) && #[trigger] component_lt()(y, z) ==> component_lt()(x, z),
            decreases na - i,
        {
            if self.components[i] != other.components[i] {
                let r = string_lt(&self.components[i], &other.components[i]);
                proof {
                    let a = self@;
                    let b = other@;
                    assert(a[i as int] == self.components@[i as int]@);
                    assert(b[i as int] == other.components@[i as int]@);
                    if r {
                        assert(agree_upto(a, b, i as int));
                    } else {
                        assert forall|k: int|
                            0 <= k <= a.len() && k <= b.len() && #[trigger] agree_upto(a, b, k) implies !((k == a.len() && k < b.len())
                                || (k < a.len() && k < b.len() && component_lt()(a[k], b[k]))) by {
                            if k > i {
                                assert(a[i as int] == b[i as int]);
                            }
                        }
                    }
                }
                return r;
            }
            proof {
                assert(self@[i as int] == self.components@[i as int]@);
                assert(other@[i as int] == other.components@[i as int]@);
            }
            i = i + 1;
        }
        let r = i == na && i < nb;
        proof {
            let a = self@;
            let b = other@;
            if !r {
                assert forall|k: int|
                    0 <= k <= a.len() && k <= b.len() && #[trigger] agree_upto(a, b, k) implies !((k == a.len() && k < b.len())
                        || (k < a.len() && k < b.len() && component_lt()(a[k], b[k]))) by {
                    if k < i {
                        assert(a[k] == b[k]);
                    }
                }
            } else {
                assert(agree_upto(a, b, i as int));
            }
        }
        r
    }

    /// The canonical text: a '/' before each component; the root is empty.
    pub fn to_string(&self) -> (r: String)
        ensures
            r@ == render_path(self@),
    {
        let mut acc = String::new();
        let mut i: usize = 0;
        proof {
            reveal_strlit("/");
            assert(self@.subrange(0, 0) =~= Seq::<Seq<char>>::empty());
        }
        while i < self.components.len()
            invariant
                i <= self.components@.len(),
                self@.len() == self.components@.len(),
                acc@ == render_path(self@.subrange(0, i as int)),
                "/"@ == seq!['/'],
            decreases self.components@.len() - i,
        {
            acc.append("/");
            acc.append(self.components[i].as_str());
            proof {
                let p = self@.subrange(0, i + 1);
                assert(p.drop_last() =~= self@.subrange(0, i as int));
                assert(p.last() == self.components@[i as int]@);
            }
            i = i + 1;
        }
        proof {
            assert(self@.subrange(0, i as int) =~= self@);
        }
        acc
    }
}

spec fn old_map_push(v: Seq<String>, x: String) -> Seq<Seq<char>> {
    v.map_values(|c: String| c@).push(x@)
}

} // verus!
