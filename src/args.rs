use vstd::prelude::*;
use vstd::string::*;

verus! {

/// Whether an option takes an argument.
#[derive(Clone, Copy, Debug, PartialEq, Eq, Structural)]
pub enum OptionArgumentKind {
    Required,
    Optional,
    NoArgument,
}

/// The name of an option: a long name written after the long prefix, or a
/// single character written after the short prefix.
#[derive(Clone, Debug, PartialEq)]
pub enum OptionName {
    Long(String),
    Short(char),
}

/// An option that the lexer knows.
pub struct CmdlineOption {
    pub name: OptionName,
    pub argument_kind: OptionArgumentKind,
}

/// The options to recognise and the prefixes that introduce them.
pub struct OptionMatcher {
    pub possible_options: Vec<CmdlineOption>,
    pub long_option_prefix: String,
    pub short_option_prefix: String,
}

/// One lexed argument.
#[derive(Clone, Debug, PartialEq)]
pub enum Argument {
    Positional(String),
    Option { name: OptionName, argument: Option<String> },
}

/// Why lexing stopped.
#[derive(Clone, Copy, Debug, PartialEq, Eq, Structural)]
pub enum LexError {
    UnknownOption,
    NoArgumentProvidedForOption,
    UnnecessaryArgumentProvidedForOption,
}

/// A lexed argument as a value.
pub enum ArgModel {
    Positional(Seq<char>),
    Long(Seq<char>, Option<Seq<char>>),
    Short(char, Option<Seq<char>>),
}

pub open spec fn opt_view(o: Option<String>) -> Option<Seq<char>> {
    match o {
        Some(s) => Some(s@),
        None => None,
    }
}

pub open spec fn arg_view(a: Argument) -> ArgModel {
    match a {
        Argument::Positional(s) => ArgModel::Positional(s@),
        Argument::Option { name, argument } => match name {
            OptionName::Long(n) => ArgModel::Long(n@, opt_view(argument)),
            OptionName::Short(c) => ArgModel::Short(c, opt_view(argument)),
        },
    }
}

pub open spec fn item_view(r: Result<Argument, LexError>) -> Result<ArgModel, LexError> {
    match r {
        Ok(a) => Ok(arg_view(a)),
        Err(e) => Err(e),
    }
}

pub open spec fn items_view(v: Seq<Result<Argument, LexError>>) -> Seq<Result<ArgModel, LexError>> {
    v.map_values(|r: Result<Argument, LexError>| item_view(r))
}

/// The kind of the first option in `s` named `k`.
pub open spec fn find_kind<K>(s: Seq<(K, OptionArgumentKind)>, k: K) -> Option<OptionArgumentKind>
    decreases s.len(),
{
    if s.len() == 0 {
        None
    } else if s[0].0 == k {
        Some(s[0].1)
    } else {
        find_kind(s.drop_first(), k)
    }
}

/// `s` without `prefix`, when it starts with it.
pub open spec fn strip(s: Seq<char>, prefix: Seq<char>) -> Option<Seq<char>> {
    if prefix.len() <= s.len() && s.take(prefix.len() as int) == prefix {
        Some(s.skip(prefix.len() as int))
    } else {
        None
    }
}

/// `i` is the first place of '=' in `s`.
pub open spec fn first_eq_at(s: Seq<char>, i: int) -> bool {
    0 <= i < s.len() && s[i] == '=' && forall|j: int| 0 <= j < i ==> s[j] != '='
}

/// `s` split at its first '=': what comes before it, and what comes after it
/// if there is one.
pub open spec fn split_eq(s: Seq<char>) -> (Seq<char>, Option<Seq<char>>) {
    if exists|i: int| first_eq_at(s, i) {
        let i = choose|i: int| first_eq_at(s, i);
        (s.take(i), Some(s.skip(i + 1)))
    } else {
        (s, None)
    }
}

/// The lexer's view of the matcher: its long options, its short options and
/// the two prefixes.
pub struct MatcherModel {
    pub longs: Seq<(Seq<char>, OptionArgumentKind)>,
    pub long_prefix: Seq<char>,
    pub shorts: Seq<(char, OptionArgumentKind)>,
    pub short_prefix: Seq<char>,
}

/// Lexing the short options `cs` of one argument, where `rest` are the
/// arguments after it: the results, and how many of `rest` were taken. An
/// option that takes an argument takes the rest of the cluster, or else,
/// when the argument is required, the next argument.
pub open spec fn lex_short_cluster(m: MatcherModel, cs: Seq<char>, rest: Seq<Seq<char>>) -> (Seq<Result<ArgModel, LexError>>, nat)
    decreases cs.len(),
{
    if cs.len() == 0 {
        (Seq::empty(), 0)
    } else {
        match find_kind(m.shorts, cs[0]) {
            None => (seq![Err(LexError::UnknownOption)], 0),
            Some(OptionArgumentKind::NoArgument) => {
                let (r, k) = lex_short_cluster(m, cs.drop_first(), rest);
                (seq![Ok(ArgModel::Short(cs[0], None))] + r, k)
            },
            Some(kind) => if cs.len() > 1 {
                (seq![Ok(ArgModel::Short(cs[0], Some(cs.drop_first())))], 0)
            } else if kind == OptionArgumentKind::Required && rest.len() > 0 {
                (seq![Ok(ArgModel::Short(cs[0], Some(rest[0])))], 1)
            } else {
                (seq![Err(LexError::NoArgumentProvidedForOption)], 0)
            },
        }
    }
}

/// Lexing the first of `args`: the results, and how many arguments were
/// taken. A long option may carry its argument after '='; a required one
/// takes the next argument otherwise. An argument that starts with the short
/// prefix and has more after it is a cluster of short options; anything else
/// is positional.
pub open spec fn lex_head(m: MatcherModel, args: Seq<Seq<char>>) -> (Seq<Result<ArgModel, LexError>>, nat) {
    let a = args[0];
    let (name, value) = split_eq(a);
    match strip(name, m.long_prefix) {
        Some(n) => match find_kind(m.longs, n) {
            None => (seq![Err(LexError::UnknownOption)], 1),
            Some(OptionArgumentKind::NoArgument) => if value is Some {
                (seq![Err(LexError::UnnecessaryArgumentProvidedForOption)], 1)
            } else {
                (seq![Ok(ArgModel::Long(n, None))], 1)
            },
            Some(kind) => match value {
                Some(v) => (seq![Ok(ArgModel::Long(n, Some(v)))], 1),
                None => if kind == OptionArgumentKind::Required && args.len() > 1 {
                    (seq![Ok(ArgModel::Long(n, Some(args[1])))], 2)
                } else {
                    (seq![Err(LexError::NoArgumentProvidedForOption)], 1)
                },
            },
        },
        None => match strip(a, m.short_prefix) {
            Some(cs) => if cs.len() > 0 {
                let (r, k) = lex_short_cluster(m, cs, args.drop_first());
                (r, k + 1)
            } else {
                (seq![Ok(ArgModel::Positional(a))], 1)
            },
            None => (seq![Ok(ArgModel::Positional(a))], 1),
        },
    }
}

pub open spec fn ends_in_error(r: Seq<Result<ArgModel, LexError>>) -> bool {
    r.len() > 0 && r.last() is Err
}

/// Everything that lexing `args` yields: the results of each argument in
/// turn, up to and including the first error.
pub open spec fn lex_all(m: MatcherModel, args: Seq<Seq<char>>) -> Seq<Result<ArgModel, LexError>>
    decreases args.len(),
{
    if args.len() == 0 {
        Seq::empty()
    } else {
        let (r, k) = lex_head(m, args);
        if ends_in_error(r) || k == 0 || k > args.len() {
            r
        } else {
            r + lex_all(m, args.skip(k as int))
        }
    }
}

/// Splits at the first '='.
pub(crate) fn split_at_eq(s: &String) -> (r: (String, Option<String>))
    ensures
        (r.0@, opt_view(r.1)) == split_eq(s@),
{
    let t = s.as_str();
    let n = t.unicode_len();
    let mut i: usize = 0;
    while i < n
        invariant
            n == s@.len(),
            t@ == s@,
            i <= n,
            forall|j: int| 0 <= j < i ==> s@[j] != '=',
        decreases n - i,
    {
        if t.get_char(i) == '=' {
            let before = t.substring_char(0, i).to_owned();
            let after = t.substring_char(i + 1, n).to_owned();
            proof {
                assert(first_eq_at(s@, i as int));
                let k = choose|k: int| first_eq_at(s@, k);
                assert(k == i) by {
                    if k < i {
                        assert(s@[k] != '=');
                    } else if k > i {
                        assert(s@[i as int] != '=');
                    }
                }
                assert(before@ =~= s@.take(i as int));
                assert(after@ =~= s@.skip(i + 1));
            }
            return (before, Some(after));
        }
        i = i + 1;
    }
    proof {
        assert(!exists|k: int| first_eq_at(s@, k));
    }
    (s.clone(), None)
}

/// Removes `prefix` from the front of `s`, when `s` starts with it.
pub(crate) fn strip_prefix(s: &String, prefix: &String) -> (r: Option<String>)
    ensures
        opt_view(r) == strip(s@, prefix@),
{
    let t = s.as_str();
    let p = prefix.as_str();
    let n = t.unicode_len();
    let np = p.unicode_len();
    if np > n {
        return None;
    }
    let mut i: usize = 0;
    while i < np
        invariant
            n == s@.len(),
            np == prefix@.len(),
            t@ == s@,
            p@ == prefix@,
            np <= n,
            i <= np,
            forall|j: int| 0 <= j < i ==> s@[j] == prefix@[j],
        decreases np - i,
    {
        if t.get_char(i) != p.get_char(i) {
            proof {
                assert(s@.take(np as int)[i as int] != prefix@[i as int]);
            }
            return None;
        }
        i = i + 1;
    }
    let rest = t.substring_char(np, n).to_owned();
    proof {
        assert(s@.take(np as int) =~= prefix@);
        assert(rest@ =~= s@.skip(np as int));
    }
    Some(rest)
}

struct LongOption {
    name: String,
    argument_kind: OptionArgumentKind,
}

struct ShortOption {
    name: char,
    argument_kind: OptionArgumentKind,
}

spec fn longs_view(v: Seq<LongOption>) -> Seq<(Seq<char>, OptionArgumentKind)> {
    v.map_values(|o: LongOption| (o.name@, o.argument_kind))
}

spec fn shorts_view(v: Seq<ShortOption>) -> Seq<(char, OptionArgumentKind)> {
    v.map_values(|o: ShortOption| (o.name, o.argument_kind))
}

pub open spec fn strings_view(v: Seq<String>) -> Seq<Seq<char>> {
    v.map_values(|s: String| s@)
}

/// The long options among `s`, in order.
pub open spec fn long_options_of(s: Seq<CmdlineOption>) -> Seq<(Seq<char>, OptionArgumentKind)>
    decreases s.len(),
{
    if s.len() == 0 {
        Seq::empty()
    } else {
        let init = long_options_of(s.drop_last());
        match s.last().name {
            OptionName::Long(n) => init.push((n@, s.last().argument_kind)),
            OptionName::Short(_) => init,
        }
    }
}

/// The short options among `s`, in order.
pub open spec fn short_options_of(s: Seq<CmdlineOption>) -> Seq<(char, OptionArgumentKind)>
    decreases s.len(),
{
    if s.len() == 0 {
        Seq::empty()
    } else {
        let init = short_options_of(s.drop_last());
        match s.last().name {
            OptionName::Short(c) => init.push((c, s.last().argument_kind)),
            OptionName::Long(_) => init,
        }
    }
}

/// The matcher as the lexer sees it.
pub open spec fn matcher_model(m: OptionMatcher) -> MatcherModel {
    MatcherModel {
        longs: long_options_of(m.possible_options@),
        long_prefix: m.long_option_prefix@,
        shorts: short_options_of(m.possible_options@),
        short_prefix: m.short_option_prefix@,
    }
}

/// Lexes command line arguments against a set of known options.
pub struct ArgumentsLexer {
    long_options: Vec<LongOption>,
    long_option_prefix: String,
    short_options: Vec<ShortOption>,
    short_option_prefix: String,
    items: Vec<Result<Argument, LexError>>,
    pos: usize,
}

impl View for ArgumentsLexer {
    type V = Seq<Result<ArgModel, LexError>>;

    closed spec fn view(&self) -> Seq<Result<ArgModel, LexError>> {
        if self.pos <= self.items@.len() {
            items_view(self.items@).subrange(self.pos as int, self.items@.len() as int)
        } else {
            Seq::empty()
        }
    }
}

impl ArgumentsLexer {
    closed spec fn model(&self) -> MatcherModel {
        MatcherModel {
            longs: longs_view(self.long_options@),
            long_prefix: self.long_option_prefix@,
            shorts: shorts_view(self.short_options@),
            short_prefix: self.short_option_prefix@,
        }
    }

    fn long_kind(&self, name: &String) -> (r: Option<OptionArgumentKind>)
        ensures
            r == find_kind(self.model().longs, name@),
    {
        let ghost m = longs_view(self.long_options@);
        proof {
            assert(m.skip(0) =~= m);
        }
        let mut i: usize = 0;
        while i < self.long_options.len()
            invariant
                i <= self.long_options@.len(),
                m == longs_view(self.long_options@),
                find_kind(m, name@) == find_kind(m.skip(i as int), name@),
            decreases self.long_options@.len() - i,
        {
            proof {
                assert(m.skip(i as int)[0] == (self.long_options@[i as int].name@, self.long_options@[i as int].argument_kind));
                assert(m.skip(i as int).drop_first() =~= m.skip(i + 1));
            }
            if self.long_options[i].name == *name {
                return Some(self.long_options[i].argument_kind);
            }
            i = i + 1;
        }
        proof {
            assert(m.skip(i as int) =~= Seq::empty());
        }
        None
    }

    fn short_kind(&self, c: char) -> (r: Option<OptionArgumentKind>)
        ensures
            r == find_kind(self.model().shorts, c),
    {
        let ghost m = shorts_view(self.short_options@);
        proof {
            assert(m.skip(0) =~= m);
        }
        let mut i: usize = 0;
        while i < self.short_options.len()
            invariant
                i <= self.short_options@.len(),
                m == shorts_view(self.short_options@),
                find_kind(m, c) == find_kind(m.skip(i as int), c),
            decreases self.short_options@.len() - i,
        {
            proof {
                assert(m.skip(i as int)[0] == (self.short_options@[i as int].name, self.short_options@[i as int].argument_kind));
                assert(m.skip(i as int).drop_first() =~= m.skip(i + 1));
            }
            if self.short_options[i].name == c {
                return Some(self.short_options[i].argument_kind);
            }
            i = i + 1;
        }
        proof {
            assert(m.skip(i as int) =~= Seq::empty());
        }
        None
    }
}

fn copy_string_option(o: &Option<String>) -> (r: Option<String>)
    ensures
        opt_view(r) == opt_view(*o),
{
    match o {
        Some(s) => Some(s.clone()),
        None => None,
    }
}

fn copy_item(x: &Result<Argument, LexError>) -> (r: Result<Argument, LexError>)
    ensures
        item_view(r) == item_view(*x),
{
    match x {
        Ok(Argument::Positional(s)) => Ok(Argument::Positional(s.clone())),
        Ok(Argument::Option { name, argument }) => {
            let n = match name {
                OptionName::Long(l) => OptionName::Long(l.clone()),
                OptionName::Short(c) => OptionName::Short(*c),
            };
            Ok(Argument::Option { name: n, argument: copy_string_option(argument) })
        },
        Err(e) => Err(*e),
    }
}

proof fn lemma_items_push(v: Seq<Result<Argument, LexError>>, x: Result<Argument, LexError>)
    ensures
        items_view(v.push(x)) == items_view(v).push(item_view(x)),
{
    assert(items_view(v.push(x)) =~= items_view(v).push(item_view(x)));
}

impl ArgumentsLexer {
    /// Lexes the short options `cs` of the argument at `pos`.
    fn lex_cluster(&self, cs: &String, args: &Vec<String>, pos: usize) -> (r: (Vec<Result<Argument, LexError>>, usize))
        requires
            pos < args@.len(),
        ensures
            (items_view(r.0@), r.1 as nat) == lex_short_cluster(self.model(), cs@, strings_view(args@).skip(pos + 1)),
            r.1 <= 1,
    {
        let ghost m = self.model();
        let ghost rest = strings_view(args@).skip(pos + 1);
        let ghost whole = lex_short_cluster(m, cs@, rest);
        let t = cs.as_str();
        let n = t.unicode_len();
        let mut out: Vec<Result<Argument, LexError>> = Vec::new();
        proof {
            assert(cs@.skip(0) =~= cs@);
            assert(items_view(out@) =~= Seq::empty());
            assert(Seq::<Result<ArgModel, LexError>>::empty() + whole.0 =~= whole.0);
        }
        let mut j: usize = 0;
        while j < n
            invariant
                n == cs@.len(),
                t@ == cs@,
                j <= n,
                pos < args@.len(),
                m == self.model(),
                rest == strings_view(args@).skip(pos + 1),
                whole == lex_short_cluster(m, cs@, rest),
                items_view(out@) + lex_short_cluster(m, cs@.skip(j as int), rest).0 == whole.0,
                lex_short_cluster(m, cs@.skip(j as int), rest).1 == whole.1,
            decreases n - j,
        {
            let c = t.get_char(j);
            let ghost tail = cs@.skip(j as int);
            proof {
                assert(tail[0] == c);
                assert(tail.drop_first() =~= cs@.skip(j + 1));
            }
            let ghost before = out@;
            match self.short_kind(c) {
                None => {
                    let e: Result<Argument, LexError> = Err(LexError::UnknownOption);
                    out.push(e);
                    proof {
                        lemma_items_push(before, e);
                        assert(items_view(before) + seq![item_view(e)] =~= items_view(out@));
                    }
                    return (out, 0);
                },
                Some(OptionArgumentKind::NoArgument) => {
                    let e: Result<Argument, LexError> = Ok(Argument::Option { name: OptionName::Short(c), argument: None });
                    out.push(e);
                    proof {
                        lemma_items_push(before, e);
                        let sub = lex_short_cluster(m, cs@.skip(j + 1), rest);
                        assert(lex_short_cluster(m, tail, rest).0 == seq![item_view(e)] + sub.0);
                        assert(items_view(before) + (seq![item_view(e)] + sub.0) =~= items_view(out@) + sub.0);
                    }
                },
                Some(kind) => {
                    if j + 1 < n {
                        let a = t.substring_char(j + 1, n).to_owned();
                        let e: Result<Argument, LexError> = Ok(Argument::Option { name: OptionName::Short(c), argument: Some(a) });
                        out.push(e);
                        proof {
                            assert(a@ =~= tail.drop_first());
                            lemma_items_push(before, e);
                            assert(items_view(before) + seq![item_view(e)] =~= items_view(out@));
                        }
                        return (out, 0);
                    } else if kind == OptionArgumentKind::Required && pos < args.len() - 1 {
                        let a = args[pos + 1].clone();
                        let e: Result<Argument, LexError> = Ok(Argument::Option { name: OptionName::Short(c), argument: Some(a) });
                        out.push(e);
                        proof {
                            assert(rest[0] == args@[pos + 1]@);
                            lemma_items_push(before, e);
                            assert(items_view(before) + seq![item_view(e)] =~= items_view(out@));
                        }
                        return (out, 1);
                    } else {
                        let e: Result<Argument, LexError> = Err(LexError::NoArgumentProvidedForOption);
                        out.push(e);
                        proof {
                            lemma_items_push(before, e);
                            assert(items_view(before) + seq![item_view(e)] =~= items_view(out@));
                        }
                        return (out, 0);
                    }
                },
            }
            j = j + 1;
        }
        proof {
            assert(cs@.skip(j as int) =~= Seq::<char>::empty());
            assert(items_view(out@) + Seq::<Result<ArgModel, LexError>>::empty() =~= items_view(out@));
        }
        (out, 0)
    }

    /// Lexes the argument at `pos`: the results, and how many arguments were
    /// taken.
    fn iter_next(&self, args: &Vec<String>, pos: usize) -> (r: (Vec<Result<Argument, LexError>>, usize))
        requires
            pos < args@.len(),
        ensures
            (items_view(r.0@), r.1 as nat) == lex_head(self.model(), strings_view(args@).skip(pos as int)),
    {
        let ghost av = strings_view(args@).skip(pos as int);
        let a = &args[pos];
        proof {
            assert(av[0] == a@);
            assert(av.drop_first() =~= strings_view(args@).skip(pos + 1));
            if pos + 1 < args@.len() {
                assert(av[1] == args@[pos + 1]@);
            }
        }
        let (name, value) = split_at_eq(a);
        let mut out: Vec<Result<Argument, LexError>> = Vec::new();
        let ghost empty = out@;
        let k: usize;
        match strip_prefix(&name, &self.long_option_prefix) {
            Some(n) => {
                match self.long_kind(&n) {
                    None => {
                        out.push(Err(LexError::UnknownOption));
                        k = 1;
                    },
                    Some(OptionArgumentKind::NoArgument) => {
                        if value.is_some() {
                            out.push(Err(LexError::UnnecessaryArgumentProvidedForOption));
                        } else {
                            out.push(Ok(Argument::Option { name: OptionName::Long(n), argument: None }));
                        }
                        k = 1;
                    },
                    Some(kind) => {
                        match value {
                            Some(v) => {
                                out.push(Ok(Argument::Option { name: OptionName::Long(n), argument: Some(v) }));
                                k = 1;
                            },
                            None => {
                                if kind == OptionArgumentKind::Required && pos < args.len() - 1 {
                                    let v = args[pos + 1].clone();
                                    out.push(Ok(Argument::Option { name: OptionName::Long(n), argument: Some(v) }));
                                    k = 2;
                                } else {
                                    out.push(Err(LexError::NoArgumentProvidedForOption));
                                    k = 1;
                                }
                            },
                        }
                    },
                }
                proof {
                    assert(items_view(out@) =~= seq![item_view(out@[0])]);
                }
            },
            None => {
                let positional = match strip_prefix(a, &self.short_option_prefix) {
                    Some(cs) => {
                        if cs.as_str().unicode_len() > 0 {
                            let (r, taken) = self.lex_cluster(&cs, args, pos);
                            return (r, taken + 1);
                        }
                        true
                    },
                    None => true,
                };
                if positional {
                    out.push(Ok(Argument::Positional(a.clone())));
                    k = 1;
                    proof {
                        assert(items_view(out@) =~= seq![item_view(out@[0])]);
                    }
                } else {
                    k = 1;
                }
            },
        }
        (out, k)
    }
}

/// Lexes `args` against the options of `option_matcher`.
pub fn lex_arguments(option_matcher: OptionMatcher, args: Vec<String>) -> (r: ArgumentsLexer)
    ensures
        r@ == lex_all(matcher_model(option_matcher), strings_view(args@)),
{
    let ghost m = matcher_model(option_matcher);
    let mut long_options: Vec<LongOption> = Vec::new();
    let mut short_options: Vec<ShortOption> = Vec::new();
    let opts = &option_matcher.possible_options;
    let mut i: usize = 0;
    proof {
        assert(opts@.take(0) =~= Seq::empty());
        assert(longs_view(long_options@) =~= Seq::empty());
        assert(shorts_view(short_options@) =~= Seq::empty());
    }
    while i < opts.len()
        invariant
            i <= opts@.len(),
            opts == &option_matcher.possible_options,
            longs_view(long_options@) == long_options_of(opts@.take(i as int)),
            shorts_view(short_options@) == short_options_of(opts@.take(i as int)),
        decreases opts@.len() - i,
    {
        proof {
            assert(opts@.take(i + 1).drop_last() =~= opts@.take(i as int));
            assert(opts@.take(i + 1).last() == opts@[i as int]);
        }
        let o = &opts[i];
        match &o.name {
            OptionName::Long(n) => {
                let e = LongOption { name: n.clone(), argument_kind: o.argument_kind };
                let ghost before = long_options@;
                long_options.push(e);
                proof {
                    assert(longs_view(long_options@) =~= longs_view(before).push((e.name@, e.argument_kind)));
                }
            },
            OptionName::Short(c) => {
                let e = ShortOption { name: *c, argument_kind: o.argument_kind };
                let ghost before = short_options@;
                short_options.push(e);
                proof {
                    assert(shorts_view(short_options@) =~= shorts_view(before).push((e.name, e.argument_kind)));
                }
            },
        }
        i = i + 1;
    }
    proof {
        assert(opts@.take(i as int) =~= opts@);
    }
    let mut lexer = ArgumentsLexer {
        long_options,
        long_option_prefix: option_matcher.long_option_prefix,
        short_options,
        short_option_prefix: option_matcher.short_option_prefix,
        items: Vec::new(),
        pos: 0,
    };
    let ghost av = strings_view(args@);
    let ghost total = lex_all(m, av);
    proof {
        assert(lexer.model() == m);
        assert(av.skip(0) =~= av);
        assert(items_view(lexer.items@) + total =~= total);
    }
    let n = args.len();
    let mut pos: usize = 0;
    let mut done = false;
    while pos < n && !done
        invariant
            n == args@.len(),
            pos <= n,
            av == strings_view(args@),
            lexer.model() == m,
            lexer.pos == 0,
            total == lex_all(m, av),
            done ==> items_view(lexer.items@) == total,
            !done ==> items_view(lexer.items@) + lex_all(m, av.skip(pos as int)) == total,
        decreases n - pos + if done { 0int } else { 1int },
    {
        let (mut r, k) = lexer.iter_next(&args, pos);
        let stop = k == 0 || k > n - pos || match r.last() {
            Some(Err(_)) => true,
            _ => false,
        };
        let ghost rv = items_view(r@);
        let ghost before = lexer.items@;
        proof {
            let tail = av.skip(pos as int);
            assert(tail.len() > 0);
            if r@.len() > 0 {
                assert(rv.last() == item_view(r@.last()));
            }
            if !stop {
                assert(tail.skip(k as int) =~= av.skip(pos + k));
            }
        }
        lexer.items.append(&mut r);
        proof {
            assert(items_view(lexer.items@) =~= items_view(before) + rv);
        }
        if stop {
            proof {
                assert(items_view(before) + rv =~= total);
            }
            done = true;
        } else {
            proof {
                assert((items_view(before) + rv) + lex_all(m, av.skip(pos + k)) =~= items_view(before) + (rv + lex_all(m, av.skip(pos + k))));
            }
            pos = pos + k;
        }
    }
    proof {
        if !done {
            assert(av.skip(n as int) =~= Seq::empty());
            assert(items_view(lexer.items@) + Seq::<Result<ArgModel, LexError>>::empty() =~= items_view(lexer.items@));
        }
        assert(lexer@ =~= items_view(lexer.items@));
    }
    lexer
}

impl ArgumentsLexer {
    /// The next lexed argument or error; `None` once everything has been
    /// handed out. Nothing follows an error.
    pub fn next(&mut self) -> (r: Option<Result<Argument, LexError>>)
        ensures
            old(self)@.len() == 0 ==> r is None && final(self)@ == old(self)@,
            old(self)@.len() > 0 ==> (r matches Some(x) && item_view(x) == old(self)@[0] && final(self)@ == old(self)@.drop_first()),
    {
        if self.pos < self.items.len() {
            let x = copy_item(&self.items[self.pos]);
            proof {
                assert(items_view(self.items@)[self.pos as int] == item_view(self.items@[self.pos as int]));
            }
            self.pos = self.pos + 1;
            proof {
                assert(self@ =~= old(self)@.drop_first());
            }
            Some(x)
        } else {
            None
        }
    }
}

/// Whether two strings hold the same characters.
pub fn str_equals(a: &str, b: &str) -> (r: bool)
    ensures
        r == (a@ == b@),
{
    let n = a.unicode_len();
    if n != b.unicode_len() {
        return false;
    }
    let mut i: usize = 0;
    while i < n
        invariant
            n == a@.len(),
            n == b@.len(),
            i <= n,
            forall|j: int| 0 <= j < i ==> a@[j] == b@[j],
        decreases n - i,
    {
        if a.get_char(i) != b.get_char(i) {
            return false;
        }
        i = i + 1;
    }
    assert(a@ =~= b@);
    true
}

/// What the boot manager was asked to do.
#[derive(Clone, Copy, Debug, PartialEq, Eq, Structural)]
pub enum Operation {
    GiveHelp,
    ChangeKernel,
    UpdateKernel,
}

/// Why no operation could be read from the arguments.
#[derive(Clone, Copy, Debug, PartialEq, Eq, Structural)]
pub enum ParseError {
    NoCommandGiven,
    UnrecognizedCommand,
}

/// The operation a command word names.
pub open spec fn operation_named(name: Seq<char>) -> Option<Operation> {
    if name == "help"@ {
        Some(Operation::GiveHelp)
    } else if name == "change-kernel"@ {
        Some(Operation::ChangeKernel)
    } else if name == "update-kernel"@ {
        Some(Operation::UpdateKernel)
    } else {
        None
    }
}

impl Operation {
    /// The operation named by a command word.
    pub fn from_name(name: &str) -> (r: Result<Operation, ()>)
        ensures
            match operation_named(name@) {
                Some(op) => r == Ok::<Operation, ()>(op),
                None => r is Err,
            },
    {
        if str_equals(name, "help") {
            Ok(Operation::GiveHelp)
        } else if str_equals(name, "change-kernel") {
            Ok(Operation::ChangeKernel)
        } else if str_equals(name, "update-kernel") {
            Ok(Operation::UpdateKernel)
        } else {
            Err(())
        }
    }
}

} // verus!
