use vstd::prelude::*;

verus! {

/// One or more errors, reported together.
#[derive(Debug, PartialEq)]
pub struct AggregateError<E> {
    errors: Vec<E>,
}

impl<E> View for AggregateError<E> {
    type V = Seq<E>;

    closed spec fn view(&self) -> Seq<E> {
        self.errors@
    }
}

impl<E> AggregateError<E> {
    #[verifier::type_invariant]
    spec fn inv(&self) -> bool {
        self.errors@.len() > 0
    }

    /// Gathers the errors; `None` when there are none.
    pub fn new(errors: Vec<E>) -> (r: Option<AggregateError<E>>)
        ensures
            errors@.len() == 0 <==> r is None,
            r matches Some(a) ==> a@ == errors@,
    {
        if errors.len() == 0 {
            return None;
        }
        Some(AggregateError { errors })
    }

    /// Gathers errors known to be there.
    pub fn from_errors(errors: Vec<E>) -> (r: AggregateError<E>)
        requires
            errors@.len() > 0,
        ensures
            r@ == errors@,
    {
        AggregateError { errors }
    }

    /// The errors, in the order they were gathered; never empty.
    pub fn get(&self) -> (r: &[E])
        ensures
            r@ == self@,
            r@.len() > 0,
    {
        proof {
            use_type_invariant(self);
        }
        self.errors.as_slice()
    }
}

} // verus!
