use vstd::prelude::*;
use crate::path_set::{
    conflict_at, has_overlap, merge_conflict, merged, overlap_at, subtract_result, wf_terminals,
    ErrorKind, FilenameSet, PathSetError, SubtractPolicy, Terminals,
};

verus! {

/// Whether a term adds its set or takes it away.
#[derive(Clone, Copy, Debug, PartialEq, Eq, Structural)]
pub enum Sign {
    Positive,
    Negative,
}

/// Something that can produce a path set on demand, such as a backup module
/// reporting the paths it accounts for.
pub trait FilenamesProducer {
    fn produce(&self) -> FilenameSet;
}

/// A signed reference to a producer.
pub struct Term<'a, P> {
    pub sign: Sign,
    pub filenames: &'a P,
}

/// How strict an evaluation is about overlapping additions and about
/// subtractions of paths that are not there.
#[derive(Clone, Copy, Debug, PartialEq, Eq, Structural)]
pub struct EvaluateOptions {
    pub allow_duplicate_addition: bool,
    pub allow_nonpresent_subtraction: bool,
}

/// The policy that a subtraction follows under `opts`.
pub open spec fn policy_of(opts: EvaluateOptions) -> SubtractPolicy {
    if opts.allow_nonpresent_subtraction {
        SubtractPolicy::Relaxed
    } else {
        SubtractPolicy::Strict
    }
}

/// What applying one term to the accumulator `acc` may give, where `set` is
/// what the term produced. An addition first fails on any overlap, unless
/// overlaps are allowed, and then is a union; a subtraction is a difference
/// under the options' policy.
pub open spec fn step_result(
    opts: EvaluateOptions,
    acc: Terminals,
    sign: Sign,
    set: Terminals,
    out: Result<Terminals, (ErrorKind, Seq<Seq<char>>)>,
) -> bool {
    match sign {
        Sign::Positive => if !opts.allow_duplicate_addition && has_overlap(acc, set) {
            out matches Err((k, p)) && k == ErrorKind::DuplicateAddition && overlap_at(acc, set, p)
        } else if merge_conflict(acc, set) {
            out matches Err((k, p)) && k == ErrorKind::PathConflict && conflict_at(acc, set, p)
        } else {
            out == Ok::<Terminals, (ErrorKind, Seq<Seq<char>>)>(merged(acc, set))
        },
        Sign::Negative => subtract_result(acc, set, policy_of(opts), out),
    }
}

/// The fold of the terms with signs `signs`, whose producers gave `sets`,
/// passes through the results `outs`: it starts from the empty set, applies
/// each term in turn, and keeps the first failure to the end.
pub open spec fn eval_chain(
    opts: EvaluateOptions,
    signs: Seq<Sign>,
    sets: Seq<Terminals>,
    outs: Seq<Result<Terminals, (ErrorKind, Seq<Seq<char>>)>>,
) -> bool {
    &&& sets.len() == signs.len()
    &&& outs.len() == signs.len() + 1
    &&& outs[0] == Ok::<Terminals, (ErrorKind, Seq<Seq<char>>)>(Map::empty())
    &&& forall|i: int|
        0 <= i < signs.len() ==> match #[trigger] outs[i] {
            Err(e) => outs[i + 1] == Err::<Terminals, (ErrorKind, Seq<Seq<char>>)>(e),
            Ok(acc) => step_result(opts, acc, signs[i], sets[i], outs[i + 1]),
        }
}

pub open spec fn error_view(r: Result<FilenameSet, PathSetError>) -> Result<Terminals, (ErrorKind, Seq<Seq<char>>)> {
    match r {
        Ok(s) => Ok(s@),
        Err(e) => Err((e.kind, e.path@)),
    }
}

pub open spec fn term_signs<'a, P>(terms: Seq<Term<'a, P>>) -> Seq<Sign> {
    terms.map_values(|t: Term<'a, P>| t.sign)
}

/// Applies one term, whose producer gave `set`, to the accumulator.
pub fn apply_term(opts: EvaluateOptions, acc: &FilenameSet, sign: Sign, set: &FilenameSet) -> (r: Result<FilenameSet, PathSetError>)
    ensures
        step_result(opts, acc@, sign, set@, error_view(r)),
        r matches Ok(s) ==> wf_terminals(s@),
{
    match sign {
        Sign::Positive => {
            if !opts.allow_duplicate_addition {
                match acc.overlapping_path(set) {
                    Some(p) => {
                        return Err(PathSetError { kind: ErrorKind::DuplicateAddition, path: p });
                    },
                    None => {},
                }
            }
            FilenameSet::sum(acc, set)
        },
        Sign::Negative => {
            let policy = if opts.allow_nonpresent_subtraction {
                SubtractPolicy::Relaxed
            } else {
                SubtractPolicy::Strict
            };
            acc.subtract(set, policy)
        },
    }
}

impl FilenameSet {
    /// Folds the terms left to right, starting from the empty set: each
    /// producer is asked once, in order, and the first failure ends the fold.
    pub fn evaluate_expression<'a, P: FilenamesProducer>(opts: EvaluateOptions, terms: &Vec<Term<'a, P>>) -> (r: Result<FilenameSet, PathSetError>)
        ensures
            exists|sets: Seq<Terminals>, outs: Seq<Result<Terminals, (ErrorKind, Seq<Seq<char>>)>>|
                #![trigger eval_chain(opts, term_signs(terms@), sets, outs)]
                eval_chain(opts, term_signs(terms@), sets, outs) && (forall|i: int|
                    0 <= i < sets.len() ==> wf_terminals(#[trigger] sets[i])) && outs.last() == error_view(r),
            r matches Ok(s) ==> wf_terminals(s@),
    {
        let ghost signs = term_signs(terms@);
        let ghost mut sets: Seq<Terminals> = Seq::empty();
        let ghost mut outs: Seq<Result<Terminals, (ErrorKind, Seq<Seq<char>>)>> = seq![Ok(Map::empty())];
        let mut acc = FilenameSet::new();
        let n = terms.len();
        let mut i: usize = 0;
        while i < n
            invariant
                n == terms@.len(),
                i <= n,
                signs == term_signs(terms@),
                signs.len() == n,
                sets.len() == i,
                outs.len() == i + 1,
                outs[0] == Ok::<Terminals, (ErrorKind, Seq<Seq<char>>)>(Map::empty()),
                outs[i as int] == Ok::<Terminals, (ErrorKind, Seq<Seq<char>>)>(acc@),
                forall|k: int| 0 <= k < sets.len() ==> wf_terminals(#[trigger] sets[k]),
                forall|k: int|
                    0 <= k < i ==> match #[trigger] outs[k] {
                        Err(e) => outs[k + 1] == Err::<Terminals, (ErrorKind, Seq<Seq<char>>)>(e),
                        Ok(a) => step_result(opts, a, signs[k], sets[k], outs[k + 1]),
                    },
                wf_terminals(acc@),
            decreases n - i,
        {
            let term = &terms[i];
            let produced = term.filenames.produce();
            produced.check_wf();
            let next = apply_term(opts, &acc, term.sign, &produced);
            let ghost old_sets = sets;
            let ghost old_outs = outs;
            proof {
                sets = sets.push(produced@);
                outs = outs.push(error_view(next));
                assert(signs[i as int] == term.sign);
                assert forall|k: int| 0 <= k < sets.len() implies wf_terminals(#[trigger] sets[k]) by {
                    if k < i {
                        assert(sets[k] == old_sets[k]);
                    }
                }
                assert forall|k: int|
                    0 <= k < i + 1 implies match #[trigger] outs[k] {
                        Err(e) => outs[k + 1] == Err::<Terminals, (ErrorKind, Seq<Seq<char>>)>(e),
                        Ok(a) => step_result(opts, a, signs[k], sets[k], outs[k + 1]),
                    } by {
                    if k < i {
                        assert(outs[k] == old_outs[k]);
                        assert(outs[k + 1] == old_outs[k + 1]);
                        assert(sets[k] == old_sets[k]);
                    }
                }
            }
            match next {
                Ok(s) => {
                    acc = s;
                },
                Err(e) => {
                    proof {
                        let err = error_view(Err::<FilenameSet, PathSetError>(e));
                        let pad = (n - i - 1) as nat;
                        let sets2 = sets + Seq::new(pad, |k: int| Map::<Seq<Seq<char>>, crate::path_set::LeafKind>::empty());
                        let outs2 = outs + Seq::new(pad, |k: int| err);
                        assert(wf_terminals(Map::<Seq<Seq<char>>, crate::path_set::LeafKind>::empty()));
                        assert forall|k: int| 0 <= k < sets2.len() implies wf_terminals(#[trigger] sets2[k]) by {
                            if k < sets.len() {
                                assert(sets2[k] == sets[k]);
                            }
                        }
                        assert forall|k: int|
                            0 <= k < signs.len() implies match #[trigger] outs2[k] {
                                Err(e) => outs2[k + 1] == Err::<Terminals, (ErrorKind, Seq<Seq<char>>)>(e),
                                Ok(a) => step_result(opts, a, signs[k], sets2[k], outs2[k + 1]),
                            } by {
                            if k < i + 1 {
                                assert(outs2[k] == outs[k]);
                                assert(sets2[k] == sets[k]);
                                if k < i {
                                    assert(outs2[k + 1] == outs[k + 1]);
                                } else {
                                    assert(outs2[k + 1] == outs[k + 1]);
                                }
                            } else {
                                assert(outs2[k] == err);
                                assert(outs2[k + 1] == err);
                            }
                        }
                        assert(outs2[0] == outs[0]);
                        assert(eval_chain(opts, signs, sets2, outs2));
                        assert(outs2.last() == err);
                    }
                    return Err(e);
                },
            }
            i = i + 1;
        }
        proof {
            assert(eval_chain(opts, signs, sets, outs));
        }
        Ok(acc)
    }
}

} // verus!
