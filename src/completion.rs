use vstd::prelude::*;
use vstd::string::*;

verus! {

/// Whether an option takes an argument, and if so the words that may fill it.
#[derive(Clone, Debug)]
pub enum CmdlineOptionKind {
    NoArgument,
    Required(Vec<String>),
}

/// An option that completion knows.
#[derive(Clone, Debug)]
pub struct CmdlineOption {
    pub name: String,
    pub option_kind: CmdlineOptionKind,
}

/// A positional argument of a subcommand.
#[derive(Clone, Copy, Debug, PartialEq, Eq, Structural)]
pub struct PositionalArg {}

/// A subcommand with its own options.
#[derive(Clone, Debug)]
pub struct Subcommand {
    pub name: String,
    pub possible_options: Vec<CmdlineOption>,
    pub positional_args: Vec<PositionalArg>,
}

/// The options known before any subcommand, and the subcommands.
#[derive(Clone, Debug)]
pub struct CompleteConfig {
    pub initial_options: Vec<CmdlineOption>,
    pub subcommands: Vec<Subcommand>,
}

pub open spec fn words_view(v: Seq<String>) -> Seq<Seq<char>> {
    v.map_values(|s: String| s@)
}

/// The position of the first option in `opts` named `name`.
pub open spec fn find_option(opts: Seq<CmdlineOption>, name: Seq<char>) -> Option<int> {
    if exists|i: int| 0 <= i < opts.len() && opts[i].name@ == name {
        Some(choose|i: int| 0 <= i < opts.len() && opts[i].name@ == name && forall|j: int| 0 <= j < i ==> opts[j].name@ != name)
    } else {
        None
    }
}

/// What is known after reading some arguments: the option whose argument
/// comes next (by its position among the options in force), and the chosen
/// subcommand with the number of positional arguments seen since.
pub struct ArgsModel {
    pub expecting: Option<int>,
    pub subcommand: Option<(int, nat)>,
}

/// The options in force: those of the chosen subcommand, or the initial ones.
pub open spec fn options_in_force(c: CompleteConfig, st: ArgsModel) -> Seq<CmdlineOption> {
    match st.subcommand {
        Some((i, _)) => c.subcommands@[i].possible_options@,
        None => c.initial_options@,
    }
}

pub open spec fn find_subcommand(subs: Seq<Subcommand>, name: Seq<char>) -> Option<int> {
    if exists|i: int| 0 <= i < subs.len() && subs[i].name@ == name {
        Some(choose|i: int| 0 <= i < subs.len() && subs[i].name@ == name && forall|j: int| 0 <= j < i ==> subs[j].name@ != name)
    } else {
        None
    }
}

/// Reading one complete argument: the argument of an option is skipped; an
/// option that takes one says so; past a subcommand, anything else is a
/// positional argument; before it, a subcommand's name chooses it, and
/// anything else is passed over.
pub open spec fn fold_step(c: CompleteConfig, st: ArgsModel, arg: Seq<char>) -> ArgsModel {
    if st.expecting is Some {
        ArgsModel { expecting: None, ..st }
    } else {
        match find_option(options_in_force(c, st), arg) {
            Some(k) => ArgsModel {
                expecting: if options_in_force(c, st)[k].option_kind is Required { Some(k) } else { None },
                ..st
            },
            None => match st.subcommand {
                Some((i, n)) => ArgsModel { subcommand: Some((i, n + 1)), ..st },
                None => match find_subcommand(c.subcommands@, arg) {
                    Some(i) => ArgsModel { subcommand: Some((i, 0)), ..st },
                    None => st,
                },
            },
        }
    }
}

pub open spec fn fold_all(c: CompleteConfig, args: Seq<Seq<char>>) -> ArgsModel
    decreases args.len(),
{
    if args.len() == 0 {
        ArgsModel { expecting: None, subcommand: None }
    } else {
        fold_step(c, fold_all(c, args.drop_last()), args.last())
    }
}

/// The words that could stand where the last argument is being typed: the
/// values of the option waiting for its argument, or else the names of the
/// options in force followed, before any subcommand, by the subcommands.
pub open spec fn candidates(c: CompleteConfig, st: ArgsModel) -> Seq<Seq<char>> {
    match st.expecting {
        Some(k) => match options_in_force(c, st)[k].option_kind {
            CmdlineOptionKind::Required(values) => words_view(values@),
            CmdlineOptionKind::NoArgument => Seq::empty(),
        },
        None => options_in_force(c, st).map_values(|o: CmdlineOption| o.name@) + match st.subcommand {
            Some(_) => Seq::empty(),
            None => c.subcommands@.map_values(|s: Subcommand| s.name@),
        },
    }
}

pub open spec fn starts_with(s: Seq<char>, prefix: Seq<char>) -> bool {
    prefix.len() <= s.len() && s.take(prefix.len() as int) == prefix
}

/// The words of `ws` that start with `prefix`, in order.
pub open spec fn keep_prefixed(ws: Seq<Seq<char>>, prefix: Seq<char>) -> Seq<Seq<char>>
    decreases ws.len(),
{
    if ws.len() == 0 {
        Seq::empty()
    } else {
        let init = keep_prefixed(ws.drop_last(), prefix);
        if starts_with(ws.last(), prefix) {
            init.push(ws.last())
        } else {
            init
        }
    }
}

/// The completions of the last argument, given all the arguments before it.
pub open spec fn completions(c: CompleteConfig, args: Seq<Seq<char>>) -> Seq<Seq<char>> {
    if args.len() == 0 {
        keep_prefixed(candidates(c, fold_all(c, args)), Seq::empty())
    } else {
        keep_prefixed(candidates(c, fold_all(c, args.drop_last())), args.last())
    }
}

/// What completion knows after reading some arguments.
pub struct ArgsState {
    expecting: Option<usize>,
    subcommand: Option<(usize, usize)>,
}

impl View for ArgsState {
    type V = ArgsModel;

    closed spec fn view(&self) -> ArgsModel {
        ArgsModel {
            expecting: match self.expecting {
                Some(k) => Some(k as int),
                None => None,
            },
            subcommand: match self.subcommand {
                Some((i, n)) => Some((i as int, n as nat)),
                None => None,
            },
        }
    }
}

/// The state fits the configuration: its positions point at options and
/// subcommands that exist.
pub open spec fn state_fits(c: CompleteConfig, st: ArgsModel) -> bool {
    &&& st.subcommand matches Some((i, _)) ==> 0 <= i < c.subcommands@.len()
    &&& st.expecting matches Some(k) ==> 0 <= k < options_in_force(c, st).len()
}

fn find_option_exec(opts: &Vec<CmdlineOption>, name: &String) -> (r: Option<usize>)
    ensures
        match r {
            Some(i) => find_option(opts@, name@) == Some(i as int) && i < opts@.len(),
            None => find_option(opts@, name@) is None,
        },
{
    let mut i: usize = 0;
    while i < opts.len()
        invariant
            i <= opts@.len(),
            forall|j: int| 0 <= j < i ==> opts@[j].name@ != name@,
        decreases opts@.len() - i,
    {
        if opts[i].name == *name {
            proof {
                let k = choose|k: int| 0 <= k < opts@.len() && opts@[k].name@ == name@ && forall|j: int| 0 <= j < k ==> opts@[j].name@ != name@;
                if k < i {
                } else if k > i {
                    assert(opts@[i as int].name@ != name@);
                }
            }
            return Some(i);
        }
        i = i + 1;
    }
    None
}

fn find_subcommand_exec(subs: &Vec<Subcommand>, name: &String) -> (r: Option<usize>)
    ensures
        match r {
            Some(i) => find_subcommand(subs@, name@) == Some(i as int) && i < subs@.len(),
            None => find_subcommand(subs@, name@) is None,
        },
{
    let mut i: usize = 0;
    while i < subs.len()
        invariant
            i <= subs@.len(),
            forall|j: int| 0 <= j < i ==> subs@[j].name@ != name@,
        decreases subs@.len() - i,
    {
        if subs[i].name == *name {
            proof {
                let k = choose|k: int| 0 <= k < subs@.len() && subs@[k].name@ == name@ && forall|j: int| 0 <= j < k ==> subs@[j].name@ != name@;
                if k < i {
                } else if k > i {
                    assert(subs@[i as int].name@ != name@);
                }
            }
            return Some(i);
        }
        i = i + 1;
    }
    None
}

impl ArgsState {
    /// Nothing read yet.
    pub fn new() -> (r: ArgsState)
        ensures
            r@ == (ArgsModel { expecting: None, subcommand: None }),
    {
        ArgsState { expecting: None, subcommand: None }
    }
}

fn options_of<'a>(config: &'a CompleteConfig, state: &ArgsState) -> (r: &'a Vec<CmdlineOption>)
    requires
        state_fits(*config, state@),
    ensures
        r@ == options_in_force(*config, state@),
{
    match state.subcommand {
        Some((i, _)) => &config.subcommands[i].possible_options,
        None => &config.initial_options,
    }
}

/// Reads one complete argument (never the one being typed).
pub fn fold_args(config: &CompleteConfig, state: &mut ArgsState, current_arg: &String)
    requires
        state_fits(*config, old(state)@),
        old(state)@.subcommand matches Some((_, n)) ==> n < usize::MAX,
    ensures
        final(state)@ == fold_step(*config, old(state)@, current_arg@),
        state_fits(*config, final(state)@),
{
    if state.expecting.is_some() {
        state.expecting = None;
        return;
    }
    let opts = options_of(config, state);
    match find_option_exec(opts, current_arg) {
        Some(k) => {
            let takes_argument = match &opts[k].option_kind {
                CmdlineOptionKind::Required(_) => true,
                CmdlineOptionKind::NoArgument => false,
            };
            state.expecting = if takes_argument { Some(k) } else { None };
            return;
        },
        None => {},
    }
    match state.subcommand {
        Some((i, n)) => {
            state.subcommand = Some((i, n + 1));
        },
        None => {
            match find_subcommand_exec(&config.subcommands, current_arg) {
                Some(i) => {
                    state.subcommand = Some((i, 0));
                },
                None => {},
            }
        },
    }
}

fn copy_words(v: &Vec<String>, prefix: &String, out: &mut Vec<String>)
    ensures
        words_view(final(out)@) == words_view(old(out)@) + keep_prefixed(words_view(v@), prefix@),
{
    let ghost wv = words_view(v@);
    let ghost start = words_view(out@);
    proof {
        assert(wv.take(0) =~= Seq::empty());
        assert(start + Seq::empty() =~= start);
    }
    let mut i: usize = 0;
    while i < v.len()
        invariant
            i <= v@.len(),
            wv == words_view(v@),
            words_view(out@) == start + keep_prefixed(wv.take(i as int), prefix@),
        decreases v@.len() - i,
    {
        proof {
            assert(wv.take(i + 1).drop_last() =~= wv.take(i as int));
            assert(wv.take(i + 1).last() == v@[i as int]@);
        }
        if begins_with(&v[i], prefix) {
            let w = v[i].clone();
            let ghost before = out@;
            out.push(w);
            proof {
                assert(words_view(out@) =~= words_view(before).push(w@));
            }
        }
        i = i + 1;
    }
    proof {
        assert(wv.take(i as int) =~= wv);
    }
}

fn begins_with(s: &String, prefix: &String) -> (r: bool)
    ensures
        r == starts_with(s@, prefix@),
{
    let t = s.as_str();
    let p = prefix.as_str();
    let n = t.unicode_len();
    let np = p.unicode_len();
    if np > n {
        return false;
    }
    let mut i: usize = 0;
    while i < np
        invariant
            n == s@.len(),
            np == prefix@.len(),
            t@ == s@,
            p@ == prefix@,
            np <= n,
            i <= np,
            forall|j: int| 0 <= j < i ==> s@[j] == prefix@[j],
        decreases np - i,
    {
        if t.get_char(i) != p.get_char(i) {
            proof {
                assert(s@.take(np as int)[i as int] != prefix@[i as int]);
            }
            return false;
        }
        i = i + 1;
    }
    assert(s@.take(np as int) =~= prefix@);
    true
}

proof fn lemma_keep_prefixed_append(a: Seq<Seq<char>>, b: Seq<Seq<char>>, prefix: Seq<char>)
    ensures
        keep_prefixed(a + b, prefix) == keep_prefixed(a, prefix) + keep_prefixed(b, prefix),
    decreases b.len(),
{
    if b.len() == 0 {
        assert(a + b =~= a);
        assert(keep_prefixed(a, prefix) + Seq::empty() =~= keep_prefixed(a, prefix));
    } else {
        lemma_keep_prefixed_append(a, b.drop_last(), prefix);
        assert((a + b).drop_last() =~= a + b.drop_last());
        assert((a + b).last() == b.last());
        if starts_with(b.last(), prefix) {
            assert(keep_prefixed(a, prefix) + keep_prefixed(b.drop_last(), prefix).push(b.last()) =~= (keep_prefixed(a, prefix) + keep_prefixed(b.drop_last(), prefix)).push(b.last()));
        }
    }
}

/// The words that can complete the last of `args`, in order: the values of
/// an option waiting for its argument, or else the options in force and,
/// before any subcommand, the subcommands, that start with what is typed.
pub fn complete_command(config: &CompleteConfig, args: &Vec<String>) -> (r: Vec<String>)
    ensures
        words_view(r@) == completions(*config, words_view(args@)),
{
    let ghost av = words_view(args@);
    let mut state = ArgsState::new();
    let n = args.len();
    let last = if n == 0 { 0 } else { n - 1 };
    proof {
        assert(av.take(0) =~= Seq::empty());
    }
    let mut i: usize = 0;
    while i < last
        invariant
            last <= n,
            n == args@.len(),
            n > 0 ==> last == n - 1,
            n == 0 ==> last == 0,
            i <= last,
            av == words_view(args@),
            state@ == fold_all(*config, av.take(i as int)),
            state_fits(*config, state@),
            state@.subcommand matches Some((_, c)) ==> c <= i,
        decreases last - i,
    {
        proof {
            assert(av.take(i + 1).drop_last() =~= av.take(i as int));
            assert(av.take(i + 1).last() == args@[i as int]@);
        }
        fold_args(config, &mut state, &args[i]);
        i = i + 1;
    }
    let typed = if n == 0 { String::new() } else { args[n - 1].clone() };
    proof {
        if n > 0 {
            assert(av.drop_last() =~= av.take(last as int));
        } else {
            assert(av =~= av.take(0));
        }
    }
    let mut out: Vec<String> = Vec::new();
    proof {
        assert(words_view(out@) =~= Seq::empty());
    }
    match state.expecting {
        Some(k) => {
            let opts = options_of(config, &state);
            match &opts[k].option_kind {
                CmdlineOptionKind::Required(values) => {
                    copy_words(values, &typed, &mut out);
                    proof {
                        assert(Seq::<Seq<char>>::empty() + keep_prefixed(words_view(values@), typed@) =~= keep_prefixed(words_view(values@), typed@));
                    }
                },
                CmdlineOptionKind::NoArgument => {
                    proof {
                        assert(keep_prefixed(Seq::<Seq<char>>::empty(), typed@) =~= Seq::empty());
                    }
                },
            }
        },
        None => {
            let opts = options_of(config, &state);
            let ghost names = opts@.map_values(|o: CmdlineOption| o.name@);
            let mut j: usize = 0;
            proof {
                assert(names.take(0) =~= Seq::empty());
            }
            while j < opts.len()
                invariant
                    j <= opts@.len(),
                    names == opts@.map_values(|o: CmdlineOption| o.name@),
                    words_view(out@) == keep_prefixed(names.take(j as int), typed@),
                decreases opts@.len() - j,
            {
                proof {
                    assert(names.take(j + 1).drop_last() =~= names.take(j as int));
                    assert(names.take(j + 1).last() == opts@[j as int].name@);
                }
                if begins_with(&opts[j].name, &typed) {
                    let w = opts[j].name.clone();
                    let ghost before = out@;
                    out.push(w);
                    proof {
                        assert(words_view(out@) =~= words_view(before).push(w@));
                    }
                }
                j = j + 1;
            }
            proof {
                assert(names.take(j as int) =~= names);
            }
            let ghost sub_names = config.subcommands@.map_values(|s: Subcommand| s.name@);
            if state.subcommand.is_none() {
                let mut j: usize = 0;
                proof {
                    assert(sub_names.take(0) =~= Seq::empty());
                    assert(keep_prefixed(names, typed@) + keep_prefixed(Seq::<Seq<char>>::empty(), typed@) =~= keep_prefixed(names, typed@));
                }
                while j < config.subcommands.len()
                    invariant
                        j <= config.subcommands@.len(),
                        sub_names == config.subcommands@.map_values(|s: Subcommand| s.name@),
                        words_view(out@) == keep_prefixed(names, typed@) + keep_prefixed(sub_names.take(j as int), typed@),
                    decreases config.subcommands@.len() - j,
                {
                    proof {
                        assert(sub_names.take(j + 1).drop_last() =~= sub_names.take(j as int));
                        assert(sub_names.take(j + 1).last() == config.subcommands@[j as int].name@);
                    }
                    if begins_with(&config.subcommands[j].name, &typed) {
                        let w = config.subcommands[j].name.clone();
                        let ghost before = out@;
                        out.push(w);
                        proof {
                            assert(words_view(out@) =~= words_view(before).push(w@));
                        }
                    }
                    j = j + 1;
                }
                proof {
                    assert(sub_names.take(j as int) =~= sub_names);
                    lemma_keep_prefixed_append(names, sub_names, typed@);
                }
            } else {
                proof {
                    assert(names + Seq::<Seq<char>>::empty() =~= names);
                }
            }
        },
    }
    out
}

} // verus!
