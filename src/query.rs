use vstd::prelude::*;
use crate::expression::{
    eval_chain, error_view, term_signs, EvaluateOptions, FilenamesProducer, Term,
};
use crate::filename::Filename;
use crate::order::path_lt;
use crate::path_set::{listed, wf_terminals, ErrorKind, FilenameSet, PathSetError, Terminals};

verus! {

/// A backup module: it reports the paths it backs up.
pub trait BackupModule {
    fn files_backed_up(&self) -> FilenameSet;
}

/// A query: the signed terms to fold and how strict the fold is.
pub struct QueryArgs<'a, P> {
    pub options: EvaluateOptions,
    pub expression: Vec<Term<'a, P>>,
}

/// What a named query stands for: one producer, or an expression of its own.
pub enum QueryModuleOutput<'a, P> {
    Filenames(&'a P),
    Expression(Vec<Term<'a, P>>),
}

/// A named query.
pub trait QueryModule<'a, P> {
    fn value(&'a self) -> QueryModuleOutput<'a, P>;
}

/// A producer is a named query that stands for its own set.
impl<'a, P: FilenamesProducer> QueryModule<'a, P> for P {
    fn value(&'a self) -> QueryModuleOutput<'a, P> {
        QueryModuleOutput::Filenames(self)
    }
}

/// The command line of the image tool.
#[derive(Clone, Copy, Debug, PartialEq, Eq, Structural)]
pub struct Cli {
    pub command: Commands,
}

#[derive(Clone, Copy, Debug, PartialEq, Eq, Structural)]
pub enum Commands {
    /// List the paths that a query denotes.
    FileQuery,
}

/// The set that a named query stands for: what its producer gives, or the
/// fold of its expression under `options`.
pub fn resolve_query<'a, P: FilenamesProducer>(options: EvaluateOptions, output: &QueryModuleOutput<'a, P>) -> (r: Result<FilenameSet, PathSetError>)
    ensures
        output is Expression ==> exists|sets: Seq<Terminals>, outs: Seq<Result<Terminals, (ErrorKind, Seq<Seq<char>>)>>|
            #![trigger eval_chain(options, term_signs(output->Expression_0@), sets, outs)]
            eval_chain(options, term_signs(output->Expression_0@), sets, outs) && outs.last() == error_view(r),
        output is Filenames ==> r is Ok,
        r matches Ok(s) ==> wf_terminals(s@),
{
    match output {
        QueryModuleOutput::Filenames(p) => {
            let s = p.produce();
            s.check_wf();
            Ok(s)
        },
        QueryModuleOutput::Expression(terms) => FilenameSet::evaluate_expression(options, terms),
    }
}

/// Evaluates a query and lists the paths of its result, each once, in path
/// order.
pub fn query_filenames<'a, P: FilenamesProducer>(args: &QueryArgs<'a, P>) -> (r: Result<Vec<Filename>, PathSetError>)
    ensures
        exists|sets: Seq<Terminals>, outs: Seq<Result<Terminals, (ErrorKind, Seq<Seq<char>>)>>|
            #![trigger eval_chain(args.options, term_signs(args.expression@), sets, outs)]
            eval_chain(args.options, term_signs(args.expression@), sets, outs) && match r {
                Ok(v) => outs.last() matches Ok(t) && (forall|p: Seq<Seq<char>>| #[trigger] t.contains_key(p) <==> listed(v@, p)) && (
                forall|i: int, j: int| 0 <= i < j < v@.len() ==> path_lt(#[trigger] v@[i]@, #[trigger] v@[j]@)),
                Err(e) => outs.last() == Err::<Terminals, (ErrorKind, Seq<Seq<char>>)>((e.kind, e.path@)),
            },
{
    match FilenameSet::evaluate_expression(args.options, &args.expression) {
        Ok(s) => Ok(s.iterate()),
        Err(e) => Err(e),
    }
}

} // verus!
