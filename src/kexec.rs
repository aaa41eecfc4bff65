use vstd::prelude::*;
use vstd::std_specs::cmp::PartialEqSpec;
use vstd::string::*;
use crate::aggregate::AggregateError;
use crate::args::{opt_view, split_at_eq, split_eq, strip, strip_prefix};
use vstd::pervasive::VecAdditionalExecFns;

verus! {

/// The three option names that steer a kernel command line rewrite.
#[derive(Clone, PartialEq, Debug)]
pub struct TransformParameters {
    pub additional_args: String,
    pub kernel: String,
    pub initrd: String,
}

/// Transform parameters whose three names are pairwise distinct.
#[derive(Clone, PartialEq, Debug)]
pub struct UniqueTransformParameters(pub TransformParameters);

/// The program's configuration.
#[derive(PartialEq, Debug)]
pub struct Config {
    pub transform_parameters: UniqueTransformParameters,
}

/// What can be wrong with a kernel command line that is to be rewritten.
#[derive(Clone, Debug, PartialEq)]
pub enum TransformCommandLineError {
    /// The named parameter does not occur.
    MissingRequiredParameter { parameter: String },
    /// The named parameter occurs more than once.
    RequiredParameterSetMultipleTimes { parameter: String },
}

/// What can be wrong with the program's own arguments.
#[derive(Clone, Debug, PartialEq)]
pub enum ParseArgsError {
    /// An option was given as the last argument, with no value after it.
    KeyWithoutValue { key: String },
    /// An option was given more than once.
    OptionSetMultipleTimes { option: String },
    /// An argument is none of the known options.
    UnknownArgument { argument: String },
    /// A required option was not given.
    MissingRequiredOption { option: String },
    /// Two options were given the same value.
    MultipleOptionSameValue,
}

/// What a rewrite hands to kexec: the kernel, the initial ramdisk and the
/// new command line.
#[derive(Clone, Debug, PartialEq)]
pub struct KexecArgs {
    pub kernel: String,
    pub initrd: String,
    pub command_line: String,
}

/// The three names are pairwise distinct.
pub open spec fn names_distinct(p: TransformParameters) -> bool {
    p.additional_args@ != p.kernel@ && p.additional_args@ != p.initrd@ && p.kernel@ != p.initrd@
}

impl UniqueTransformParameters {
    /// Accepts the parameters when their three names are pairwise distinct.
    pub fn try_from(transform_parameters: TransformParameters) -> (r: Result<UniqueTransformParameters, ()>)
        ensures
            names_distinct(transform_parameters) ==> r == Ok::<UniqueTransformParameters, ()>(
                UniqueTransformParameters(transform_parameters),
            ),
            !names_distinct(transform_parameters) ==> r is Err,
    {
        if transform_parameters.additional_args != transform_parameters.kernel
            && transform_parameters.additional_args != transform_parameters.initrd
            && transform_parameters.kernel != transform_parameters.initrd {
            Ok(UniqueTransformParameters(transform_parameters))
        } else {
            Err(())
        }
    }
}

/// Whether no two elements of the slice are equal.
pub fn elements_are_unique<T: PartialEqSpec>(elements: &[T]) -> (r: bool)
    requires
        T::obeys_eq_spec(),
    ensures
        r == forall|i: int, j: int| 0 <= i < j < elements@.len() ==> !elements@[i].eq_spec(&elements@[j]),
{
    let n = elements.len();
    let mut base: usize = 0;
    while base < n
        invariant
            n == elements@.len(),
            base <= n,
            T::obeys_eq_spec(),
            forall|i: int, j: int| 0 <= i < j < n && i < base ==> !elements@[i].eq_spec(&elements@[j]),
        decreases n - base,
    {
        let mut k: usize = base + 1;
        while k < n
            invariant
                n == elements@.len(),
                base < n,
                base + 1 <= k <= n,
                T::obeys_eq_spec(),
                forall|j: int| base < j < k ==> !elements@[base as int].eq_spec(&elements@[j]),
            decreases n - k,
        {
            if elements[base] == elements[k] {
                return false;
            }
            k = k + 1;
        }
        base = base + 1;
    }
    true
}

/// A quotation mark that can open or close a quoted stretch.
pub open spec fn is_quote(c: char) -> bool {
    c == '"' || c == '\''
}

/// The splitter's state after reading `s`: the finished pieces, the piece
/// being read (none between pieces), and the quotation mark still open.
pub open spec fn split_quoted_state(s: Seq<char>) -> (Seq<Seq<char>>, Option<Seq<char>>, Option<char>)
    decreases s.len(),
{
    if s.len() == 0 {
        (Seq::empty(), None, None)
    } else {
        let (done, cur, quote) = split_quoted_state(s.drop_last());
        let c = s.last();
        if c == ' ' && quote is None {
            match cur {
                Some(p) => (done.push(p), None, None),
                None => (done, None, None),
            }
        } else {
            let piece = match cur {
                Some(p) => p.push(c),
                None => seq![c],
            };
            let quote2 = if is_quote(c) {
                match quote {
                    Some(q) => if q == c { None } else { Some(q) },
                    None => Some(c),
                }
            } else {
                quote
            };
            (done, Some(piece), quote2)
        }
    }
}

/// The pieces of `s` between spaces that stand outside quotation marks.
/// Quotation marks stay in the pieces; an unclosed quote runs to the end.
pub open spec fn split_unquoted(s: Seq<char>) -> Seq<Seq<char>> {
    let (done, cur, _) = split_quoted_state(s);
    match cur {
        Some(p) => done.push(p),
        None => done,
    }
}

/// The pieces of a string split at unquoted spaces, handed out in order.
#[derive(Debug)]
pub struct SplitStrings {
    pieces: Vec<String>,
    pos: usize,
}

pub open spec fn strings_view(v: Seq<String>) -> Seq<Seq<char>> {
    v.map_values(|s: String| s@)
}

impl View for SplitStrings {
    type V = Seq<Seq<char>>;

    closed spec fn view(&self) -> Seq<Seq<char>> {
        strings_view(self.pieces@).subrange(self.pos as int, self.pieces@.len() as int)
    }
}

impl SplitStrings {
    #[verifier::type_invariant]
    spec fn inv(&self) -> bool {
        self.pos <= self.pieces@.len()
    }

    /// The next piece, or `None` once all have been handed out.
    pub fn next(&mut self) -> (r: Option<String>)
        ensures
            old(self)@.len() == 0 ==> r is None && final(self)@ == old(self)@,
            old(self)@.len() > 0 ==> (r matches Some(p) && p@ == old(self)@[0] && final(self)@ == old(self)@.drop_first()),
    {
        proof {
            use_type_invariant(&*self);
        }
        if self.pos < self.pieces.len() {
            let p = self.pieces[self.pos].clone();
            proof {
                assert(strings_view(self.pieces@)[self.pos as int] == self.pieces@[self.pos as int]@);
            }
            self.pos = self.pos + 1;
            proof {
                assert(self@ =~= old(self)@.drop_first());
            }
            Some(p)
        } else {
            None
        }
    }

    /// The pieces not yet handed out.
    pub fn into_vec(self) -> (r: Vec<String>)
        ensures
            strings_view(r@) == self@,
    {
        proof {
            use_type_invariant(&self);
        }
        let mut out: Vec<String> = Vec::new();
        let mut i: usize = self.pos;
        while i < self.pieces.len()
            invariant
                self.pos <= i <= self.pieces@.len(),
                strings_view(out@) =~= strings_view(self.pieces@).subrange(self.pos as int, i as int),
            decreases self.pieces@.len() - i,
        {
            let p = self.pieces[i].clone();
            let ghost before = out@;
            out.push(p);
            proof {
                assert(strings_view(out@) =~= strings_view(before).push(p@));
                assert(strings_view(self.pieces@)[i as int] == self.pieces@[i as int]@);
            }
            i = i + 1;
        }
        out
    }
}

/// Splits `string` at every space that stands outside quotation marks.
pub fn split_at_unquoted_spaces(string: &str) -> (r: SplitStrings)
    ensures
        r@ == split_unquoted(string@),
{
    let n = string.unicode_len();
    let mut pieces: Vec<String> = Vec::new();
    let mut start: Option<usize> = None;
    let mut quote: Option<char> = None;
    let mut i: usize = 0;
    while i < n
        invariant
            n == string@.len(),
            i <= n,
            split_quoted_state(string@.take(i as int)) == (strings_view(pieces@), match start {
                Some(st) => Some(string@.subrange(st as int, i as int)),
                None => None::<Seq<char>>,
            }, quote),
            start matches Some(st) ==> st < i,
        decreases n - i,
    {
        let c = string.get_char(i);
        proof {
            assert(string@.take(i + 1).drop_last() =~= string@.take(i as int));
            assert(string@.take(i + 1).last() == c);
        }
        if c == ' ' && quote.is_none() {
            match start {
                Some(st) => {
                    let piece = string.substring_char(st, i).to_owned();
                    let ghost before = pieces@;
                    pieces.push(piece);
                    proof {
                        assert(strings_view(pieces@) =~= strings_view(before).push(piece@));
                    }
                    start = None;
                },
                None => {},
            }
        } else {
            proof {
                match start {
                    Some(st) => {
                        assert(string@.subrange(st as int, i + 1) =~= string@.subrange(st as int, i as int).push(c));
                    },
                    None => {
                        assert(string@.subrange(i as int, i + 1) =~= seq![c]);
                    },
                }
            }
            if start.is_none() {
                start = Some(i);
            }
            if c == '"' || c == '\'' {
                match quote {
                    Some(q) => {
                        if q == c {
                            quote = None;
                        }
                    },
                    None => {
                        quote = Some(c);
                    },
                }
            }
        }
        i = i + 1;
    }
    proof {
        assert(string@.take(n as int) =~= string@);
    }
    match start {
        Some(st) => {
            let piece = string.substring_char(st, n).to_owned();
            let ghost before = pieces@;
            pieces.push(piece);
            proof {
                assert(strings_view(pieces@) =~= strings_view(before).push(piece@));
            }
        },
        None => {},
    }
    let r = SplitStrings { pieces, pos: 0 };
    proof {
        assert(r@ =~= strings_view(r.pieces@));
    }
    r
}

/// A rewrite problem as a value: the parameter it names.
pub enum TransformIssue {
    Missing(Seq<char>),
    Repeated(Seq<char>),
}

pub open spec fn transform_error_view(e: TransformCommandLineError) -> TransformIssue {
    match e {
        TransformCommandLineError::MissingRequiredParameter { parameter } => TransformIssue::Missing(parameter@),
        TransformCommandLineError::RequiredParameterSetMultipleTimes { parameter } => TransformIssue::Repeated(parameter@),
    }
}

pub open spec fn transform_errors_view(v: Seq<TransformCommandLineError>) -> Seq<TransformIssue> {
    v.map_values(|e: TransformCommandLineError| transform_error_view(e))
}

/// A value with one pair of matching outer quotes taken off.
pub open spec fn unwrap_quotes(v: Seq<char>) -> Seq<char> {
    if v.len() > 0 && is_quote(v[0]) && v.last() == v[0] {
        if v.len() >= 2 {
            v.subrange(1, v.len() - 1)
        } else {
            Seq::empty()
        }
    } else {
        v
    }
}

/// The state of a rewrite: the new command line so far, the kernel and the
/// initial ramdisk found so far, and the problems met.
pub struct TransformState {
    pub cmdline: Seq<char>,
    pub kernel: Option<Seq<char>>,
    pub initrd: Option<Seq<char>>,
    pub issues: Seq<TransformIssue>,
}

/// Reading one piece of the old command line: `additional=value` adds the
/// value, unquoted, to the new command line; `kernel=value` and
/// `initrd=value` record their value (a second one is a problem, and the
/// later value counts); anything else is copied. Each addition is followed by
/// a space.
pub open spec fn transform_step(p: TransformParameters, st: TransformState, piece: Seq<char>) -> TransformState {
    let (key, value) = split_eq(piece);
    if value is Some && key == p.additional_args@ {
        TransformState { cmdline: st.cmdline + unwrap_quotes(value->Some_0) + seq![' '], ..st }
    } else if value is Some && key == p.kernel@ {
        TransformState {
            kernel: value,
            issues: if st.kernel is Some { st.issues.push(TransformIssue::Repeated(p.kernel@)) } else { st.issues },
            ..st
        }
    } else if value is Some && key == p.initrd@ {
        TransformState {
            initrd: value,
            issues: if st.initrd is Some { st.issues.push(TransformIssue::Repeated(p.initrd@)) } else { st.issues },
            ..st
        }
    } else {
        TransformState { cmdline: st.cmdline + piece + seq![' '], ..st }
    }
}

pub open spec fn transform_fold(p: TransformParameters, pieces: Seq<Seq<char>>) -> TransformState
    decreases pieces.len(),
{
    if pieces.len() == 0 {
        TransformState { cmdline: Seq::empty(), kernel: None, initrd: None, issues: Seq::empty() }
    } else {
        transform_step(p, transform_fold(p, pieces.drop_last()), pieces.last())
    }
}

/// All problems of a rewrite: those met while reading, then a missing kernel,
/// then a missing initial ramdisk.
pub open spec fn transform_issues(p: TransformParameters, command_line: Seq<char>) -> Seq<TransformIssue> {
    let st = transform_fold(p, split_unquoted(command_line));
    let a = if st.kernel is None { st.issues.push(TransformIssue::Missing(p.kernel@)) } else { st.issues };
    if st.initrd is None { a.push(TransformIssue::Missing(p.initrd@)) } else { a }
}

/// Removes one pair of matching outer quotes.
fn strip_outer_quotes(v: &String) -> (r: String)
    ensures
        r@ == unwrap_quotes(v@),
{
    let t = v.as_str();
    let n = t.unicode_len();
    if n > 0 {
        let first = t.get_char(0);
        if (first == '"' || first == '\'') && t.get_char(n - 1) == first {
            if n >= 2 {
                return t.substring_char(1, n - 1).to_owned();
            } else {
                return String::new();
            }
        }
    }
    v.clone()
}

/// Rewrites a kernel command line: the additional arguments are spliced in
/// unquoted, and the kernel and initial ramdisk are taken out. Fails with
/// every problem met when the kernel or the ramdisk is missing or given twice.
pub fn transform_command_line(command_line: &str, transform_parameters: UniqueTransformParameters) -> (r: Result<KexecArgs, AggregateError<TransformCommandLineError>>)
    ensures
        ({
            let p = transform_parameters.0;
            let st = transform_fold(p, split_unquoted(command_line@));
            let issues = transform_issues(p, command_line@);
            match r {
                Ok(k) => issues.len() == 0 && st.kernel == Some(k.kernel@) && st.initrd == Some(k.initrd@)
                    && k.command_line@ == st.cmdline,
                Err(e) => issues.len() > 0 && transform_errors_view(e@) == issues,
            }
        }),
{
    let p = transform_parameters.0;
    let pieces = split_at_unquoted_spaces(command_line).into_vec();
    let ghost pv = strings_view(pieces@);
    let mut new_cmdline = String::new();
    let mut kernel: Option<String> = None;
    let mut initrd: Option<String> = None;
    let mut errors: Vec<TransformCommandLineError> = Vec::new();
    proof {
        reveal_strlit(" ");
        assert(pv.take(0) =~= Seq::empty());
        assert(transform_errors_view(errors@) =~= Seq::empty());
    }
    let mut i: usize = 0;
    while i < pieces.len()
        invariant
            i <= pieces@.len(),
            pv == strings_view(pieces@),
            pv == split_unquoted(command_line@),
            " "@ == seq![' '],
            ({
                let st = transform_fold(p, pv.take(i as int));
                &&& st.cmdline == new_cmdline@
                &&& st.kernel == opt_view(kernel)
                &&& st.initrd == opt_view(initrd)
                &&& st.issues == transform_errors_view(errors@)
            }),
        decreases pieces@.len() - i,
    {
        let piece = &pieces[i];
        proof {
            assert(pv.take(i + 1).drop_last() =~= pv.take(i as int));
            assert(pv.take(i + 1).last() == piece@);
        }
        let (key, value) = split_at_eq(piece);
        let ghost before = errors@;
        let matched = match &value {
            Some(v) => {
                if key == p.additional_args {
                    let unquoted = strip_outer_quotes(v);
                    new_cmdline.append(unquoted.as_str());
                    new_cmdline.append(" ");
                    true
                } else if key == p.kernel {
                    if kernel.is_some() {
                        let e = TransformCommandLineError::RequiredParameterSetMultipleTimes { parameter: p.kernel.clone() };
                        errors.push(e);
                        proof {
                            assert(transform_errors_view(errors@) =~= transform_errors_view(before).push(transform_error_view(e)));
                        }
                    }
                    kernel = Some(v.clone());
                    true
                } else if key == p.initrd {
                    if initrd.is_some() {
                        let e = TransformCommandLineError::RequiredParameterSetMultipleTimes { parameter: p.initrd.clone() };
                        errors.push(e);
                        proof {
                            assert(transform_errors_view(errors@) =~= transform_errors_view(before).push(transform_error_view(e)));
                        }
                    }
                    initrd = Some(v.clone());
                    true
                } else {
                    false
                }
            },
            None => false,
        };
        if !matched {
            new_cmdline.append(piece.as_str());
            new_cmdline.append(" ");
        }
        i = i + 1;
    }
    proof {
        assert(pv.take(i as int) =~= pv);
    }
    let ghost read_errors = errors@;
    if kernel.is_none() {
        let e = TransformCommandLineError::MissingRequiredParameter { parameter: p.kernel.clone() };
        let ghost b = errors@;
        errors.push(e);
        proof {
            assert(transform_errors_view(errors@) =~= transform_errors_view(b).push(transform_error_view(e)));
        }
    }
    if initrd.is_none() {
        let e = TransformCommandLineError::MissingRequiredParameter { parameter: p.initrd.clone() };
        let ghost b = errors@;
        errors.push(e);
        proof {
            assert(transform_errors_view(errors@) =~= transform_errors_view(b).push(transform_error_view(e)));
        }
    }
    match (kernel, initrd) {
        (Some(k), Some(d)) => {
            if errors.len() == 0 {
                return Ok(KexecArgs { kernel: k, initrd: d, command_line: new_cmdline });
            }
        },
        _ => {},
    }
    Err(AggregateError::from_errors(errors))
}

/// A problem with the program's arguments, as a value.
pub enum ParseIssue {
    KeyWithoutValue(Seq<char>),
    SetMultipleTimes(Seq<char>),
    Unknown(Seq<char>),
    Missing(Seq<char>),
    SameValue,
}

pub open spec fn parse_error_view(e: ParseArgsError) -> ParseIssue {
    match e {
        ParseArgsError::KeyWithoutValue { key } => ParseIssue::KeyWithoutValue(key@),
        ParseArgsError::OptionSetMultipleTimes { option } => ParseIssue::SetMultipleTimes(option@),
        ParseArgsError::UnknownArgument { argument } => ParseIssue::Unknown(argument@),
        ParseArgsError::MissingRequiredOption { option } => ParseIssue::Missing(option@),
        ParseArgsError::MultipleOptionSameValue => ParseIssue::SameValue,
    }
}

pub open spec fn parse_errors_view(v: Seq<ParseArgsError>) -> Seq<ParseIssue> {
    v.map_values(|e: ParseArgsError| parse_error_view(e))
}

/// The three option names, in order.
pub open spec fn option_names(p: TransformParameters) -> Seq<Seq<char>> {
    seq![p.additional_args@, p.kernel@, p.initrd@]
}

/// The first option, from the `j`th on, that the argument `a` gives: by its
/// bare name (the value is the next argument) or as `name=value`.
pub open spec fn match_option(names: Seq<Seq<char>>, a: Seq<char>, j: int) -> Option<(int, Option<Seq<char>>)>
    decreases names.len() - j,
{
    if j < 0 || j >= names.len() {
        None
    } else if a == names[j] {
        Some((j, None))
    } else if strip(a, names[j] + seq!['=']) is Some {
        Some((j, strip(a, names[j] + seq!['='])))
    } else {
        match_option(names, a, j + 1)
    }
}

/// The values found so far for the three options, the problems met, and
/// the option named last without its value, if any.
pub struct ParseState {
    pub values: Seq<Option<Seq<char>>>,
    pub issues: Seq<ParseIssue>,
    pub dangling: Option<int>,
}

pub open spec fn set_value(st: ParseState, names: Seq<Seq<char>>, j: int, v: Seq<char>) -> ParseState {
    ParseState {
        values: st.values.update(j, Some(v)),
        issues: if st.values[j] is Some { st.issues.push(ParseIssue::SetMultipleTimes(names[j])) } else { st.issues },
        dangling: st.dangling,
    }
}

/// Reading `args` from the front: an unknown argument is a problem; an option
/// given twice is a problem and the later value counts; a bare option name
/// as the last argument is a problem and ends the reading.
pub open spec fn parse_fold(names: Seq<Seq<char>>, args: Seq<Seq<char>>, st: ParseState) -> ParseState
    decreases args.len(),
{
    if args.len() == 0 {
        st
    } else {
        match match_option(names, args[0], 0) {
            None => parse_fold(names, args.drop_first(), ParseState { issues: st.issues.push(ParseIssue::Unknown(args[0])), ..st }),
            Some((j, None)) => if args.len() < 2 {
                ParseState { issues: st.issues.push(ParseIssue::KeyWithoutValue(names[j])), dangling: Some(j), ..st }
            } else {
                parse_fold(names, args.skip(2), set_value(st, names, j, args[1]))
            },
            Some((j, Some(v))) => parse_fold(names, args.drop_first(), set_value(st, names, j, v)),
        }
    }
}

pub open spec fn parse_start() -> ParseState {
    ParseState { values: seq![None, None, None], issues: Seq::empty(), dangling: None }
}

/// An option counts as missing when it has no value and was not named last
/// without one (that has been reported already).
pub open spec fn is_missing(st: ParseState, j: int) -> bool {
    st.values[j] is None && st.dangling != Some(j)
}

/// The problems of reading `args`, then one for each missing option.
pub open spec fn parse_issues(p: TransformParameters, args: Seq<Seq<char>>) -> Seq<ParseIssue> {
    let names = option_names(p);
    let st = parse_fold(names, args, parse_start());
    let a = if is_missing(st, 0) { st.issues.push(ParseIssue::Missing(names[0])) } else { st.issues };
    let b = if is_missing(st, 1) { a.push(ParseIssue::Missing(names[1])) } else { a };
    if is_missing(st, 2) { b.push(ParseIssue::Missing(names[2])) } else { b }
}

/// The option given as `name` in `a`, with `j` the option's position.
fn match_option_exec(names: &Vec<String>, a: &String) -> (r: Option<(usize, Option<String>)>)
    requires
        names@.len() == 3,
    ensures
        match match_option(strings_view(names@), a@, 0) {
            None => r is None,
            Some((j, v)) => r matches Some(x) && x.0 == j && opt_view(x.1) == v,
        },
        r matches Some(x) ==> x.0 < 3,
{
    let ghost nv = strings_view(names@);
    let mut j: usize = 0;
    while j < 3
        invariant
            names@.len() == 3,
            nv == strings_view(names@),
            j <= 3,
            match_option(nv, a@, 0) == match_option(nv, a@, j as int),
        decreases 3 - j,
    {
        proof {
            assert(nv[j as int] == names@[j as int]@);
        }
        if *a == names[j] {
            return Some((j, None));
        }
        let mut key = names[j].clone();
        key.append("=");
        proof {
            reveal_strlit("=");
            assert(key@ =~= nv[j as int] + seq!['=']);
        }
        match strip_prefix(a, &key) {
            Some(v) => {
                return Some((j, Some(v)));
            },
            None => {},
        }
        j = j + 1;
    }
    None
}

/// Reads the program's three options, each as `name value` or `name=value`.
/// Fails with every problem met: unknown arguments, options given twice, a
/// last option without its value, missing options; or, when all is well but
/// two options share a value, with that alone.
pub fn parse_args(args: Vec<String>, option_names_given: UniqueTransformParameters) -> (r: Result<Config, AggregateError<ParseArgsError>>)
    ensures
        ({
            let p = option_names_given.0;
            let st = parse_fold(option_names(p), strings_view(args@), parse_start());
            let issues = parse_issues(p, strings_view(args@));
            match r {
                Ok(c) => issues.len() == 0 && st.values == seq![
                    Some(c.transform_parameters.0.additional_args@),
                    Some(c.transform_parameters.0.kernel@),
                    Some(c.transform_parameters.0.initrd@),
                ] && names_distinct(c.transform_parameters.0),
                Err(e) => if issues.len() > 0 {
                    parse_errors_view(e@) == issues
                } else {
                    parse_errors_view(e@) == seq![ParseIssue::SameValue]
                },
            }
        }),
{
    let p = option_names_given.0;
    let names: Vec<String> = vec![p.additional_args.clone(), p.kernel.clone(), p.initrd.clone()];
    let ghost nv = strings_view(names@);
    let ghost av = strings_view(args@);
    proof {
        assert(nv =~= option_names(p));
        assert(av.skip(0) =~= av);
    }
    let mut values: Vec<Option<String>> = vec![None, None, None];
    let mut errors: Vec<ParseArgsError> = Vec::new();
    let mut dangling: Option<usize> = None;
    let ghost total = parse_fold(nv, av, parse_start());
    proof {
        assert(values@.map_values(|o: Option<String>| opt_view(o)) =~= parse_start().values);
        assert(parse_errors_view(errors@) =~= Seq::empty());
    }
    let n = args.len();
    let mut i: usize = 0;
    let mut done = false;
    while i < n && !done
        invariant
            n == args@.len(),
            i <= n,
            names@.len() == 3,
            values@.len() == 3,
            nv == strings_view(names@),
            nv == option_names(p),
            av == strings_view(args@),
            total == parse_fold(nv, av, parse_start()),
            dangling is Some ==> errors@.len() > 0,
            dangling matches Some(d) ==> d < 3,
            ({
                let cur = ParseState {
                    values: values@.map_values(|o: Option<String>| opt_view(o)),
                    issues: parse_errors_view(errors@),
                    dangling: match dangling { Some(d) => Some(d as int), None => None },
                };
                if done { total == cur } else { total == parse_fold(nv, av.skip(i as int), cur) }
            }),
        decreases n - i + if done { 0int } else { 1int },
    {
        let a = &args[i];
        let ghost tail = av.skip(i as int);
        proof {
            assert(tail[0] == a@);
            assert(tail.drop_first() =~= av.skip(i + 1));
            if i + 1 < n {
                assert(tail[1] == args@[i + 1]@);
                assert(tail.skip(2) =~= av.skip(i + 2));
            }
        }
        let ghost before = errors@;
        match match_option_exec(&names, a) {
            None => {
                let e = ParseArgsError::UnknownArgument { argument: a.clone() };
                errors.push(e);
                proof {
                    assert(parse_errors_view(errors@) =~= parse_errors_view(before).push(parse_error_view(e)));
                }
                i = i + 1;
            },
            Some((j, value)) => {
                let v = match value {
                    Some(v) => {
                        i = i + 1;
                        v
                    },
                    None => {
                        if i + 1 < n {
                            let v = args[i + 1].clone();
                            i = i + 2;
                            v
                        } else {
                            let e = ParseArgsError::KeyWithoutValue { key: names[j].clone() };
                            errors.push(e);
                            proof {
                                assert(nv[j as int] == names@[j as int]@);
                                assert(parse_errors_view(errors@) =~= parse_errors_view(before).push(parse_error_view(e)));
                            }
                            dangling = Some(j);
                            done = true;
                            continue;
                        }
                    },
                };
                if values[j].is_some() {
                    let e = ParseArgsError::OptionSetMultipleTimes { option: names[j].clone() };
                    errors.push(e);
                    proof {
                        assert(nv[j as int] == names@[j as int]@);
                        assert(parse_errors_view(errors@) =~= parse_errors_view(before).push(parse_error_view(e)));
                    }
                }
                let ghost vals_before = values@;
                values.set(j, Some(v));
                proof {
                    assert(values@.map_values(|o: Option<String>| opt_view(o)) =~= vals_before.map_values(|o: Option<String>| opt_view(o)).update(j as int, Some(v@)));
                }
            },
        }
    }
    proof {
        if !done {
            assert(av.skip(i as int) =~= Seq::<Seq<char>>::empty());
        }
    }
    let ghost st = ParseState {
        values: values@.map_values(|o: Option<String>| opt_view(o)),
        issues: parse_errors_view(errors@),
        dangling: match dangling { Some(d) => Some(d as int), None => None },
    };
    let mut k: usize = 0;
    while k < 3
        invariant
            k <= 3,
            names@.len() == 3,
            values@.len() == 3,
            nv == strings_view(names@),
            st.values == values@.map_values(|o: Option<String>| opt_view(o)),
            st.dangling == match dangling { Some(d) => Some(d as int), None => None::<int> },
            dangling is Some ==> errors@.len() > 0,
            parse_errors_view(errors@) == ({
                let a = if k > 0 && is_missing(st, 0) { st.issues.push(ParseIssue::Missing(nv[0])) } else { st.issues };
                let b = if k > 1 && is_missing(st, 1) { a.push(ParseIssue::Missing(nv[1])) } else { a };
                if k > 2 && is_missing(st, 2) { b.push(ParseIssue::Missing(nv[2])) } else { b }
            }),
        decreases 3 - k,
    {
        if values[k].is_none() && dangling != Some(k) {
            let e = ParseArgsError::MissingRequiredOption { option: names[k].clone() };
            let ghost before = errors@;
            errors.push(e);
            proof {
                assert(nv[k as int] == names@[k as int]@);
                assert(parse_errors_view(errors@) =~= parse_errors_view(before).push(parse_error_view(e)));
            }
        }
        proof {
            assert(st.values[k as int] == opt_view(values@[k as int]));
        }
        k = k + 1;
    }
    if errors.len() > 0 {
        return Err(AggregateError::from_errors(errors));
    }
    let mut additional_args = String::new();
    let mut kernel = String::new();
    let mut initrd = String::new();
    match &values[0] {
        Some(v) => { additional_args = v.clone(); },
        None => {},
    }
    match &values[1] {
        Some(v) => { kernel = v.clone(); },
        None => {},
    }
    match &values[2] {
        Some(v) => { initrd = v.clone(); },
        None => {},
    }
    proof {
        assert(st.values[0] == opt_view(values@[0]));
        assert(st.values[1] == opt_view(values@[1]));
        assert(st.values[2] == opt_view(values@[2]));
    }
    match UniqueTransformParameters::try_from(TransformParameters { additional_args, kernel, initrd }) {
        Ok(x) => Ok(Config { transform_parameters: x }),
        Err(_) => {
            let v = vec![ParseArgsError::MultipleOptionSameValue];
            proof {
                assert(parse_errors_view(v@) =~= seq![ParseIssue::SameValue]);
            }
            Err(AggregateError::from_errors(v))
        },
    }
}

} // verus!
