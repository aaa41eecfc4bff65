use fullsystemimage::args::{
    lex_arguments, Argument, CmdlineOption, LexError, Operation, OptionArgumentKind, OptionMatcher,
    OptionName,
};

fn matcher() -> OptionMatcher {
    OptionMatcher {
        possible_options: vec![
            CmdlineOption { name: OptionName::Long("kernel".to_string()), argument_kind: OptionArgumentKind::Required },
            CmdlineOption { name: OptionName::Long("color".to_string()), argument_kind: OptionArgumentKind::Optional },
            CmdlineOption { name: OptionName::Long("verbose".to_string()), argument_kind: OptionArgumentKind::NoArgument },
            CmdlineOption { name: OptionName::Short('v'), argument_kind: OptionArgumentKind::NoArgument },
            CmdlineOption { name: OptionName::Short('q'), argument_kind: OptionArgumentKind::NoArgument },
            CmdlineOption { name: OptionName::Short('o'), argument_kind: OptionArgumentKind::Required },
        ],
        long_option_prefix: "--".to_string(),
        short_option_prefix: "-".to_string(),
    }
}

fn lex(args: &[&str]) -> Vec<Result<Argument, LexError>> {
    let mut lexer = lex_arguments(matcher(), args.iter().map(|a| a.to_string()).collect());
    let mut out = Vec::new();
    while let Some(x) = lexer.next() {
        out.push(x);
    }
    out
}

fn long(n: &str, a: Option<&str>) -> Result<Argument, LexError> {
    Ok(Argument::Option { name: OptionName::Long(n.to_string()), argument: a.map(|s| s.to_string()) })
}

fn short(c: char, a: Option<&str>) -> Result<Argument, LexError> {
    Ok(Argument::Option { name: OptionName::Short(c), argument: a.map(|s| s.to_string()) })
}

#[test]
fn long_options_and_positionals() {
    assert_eq!(
        lex(&["build", "--kernel=/boot/vmlinuz", "--verbose", "--kernel", "x", "--color=auto", "-"]),
        vec![
            Ok(Argument::Positional("build".to_string())),
            long("kernel", Some("/boot/vmlinuz")),
            long("verbose", None),
            long("kernel", Some("x")),
            long("color", Some("auto")),
            Ok(Argument::Positional("-".to_string())),
        ]
    );
}

#[test]
fn lexing_stops_at_first_error() {
    assert_eq!(lex(&["a", "--nope", "b"]), vec![Ok(Argument::Positional("a".to_string())), Err(LexError::UnknownOption)]);
    assert_eq!(lex(&["--verbose=1", "b"]), vec![Err(LexError::UnnecessaryArgumentProvidedForOption)]);
    assert_eq!(lex(&["--color"]), vec![Err(LexError::NoArgumentProvidedForOption)]);
    assert_eq!(lex(&["--kernel"]), vec![Err(LexError::NoArgumentProvidedForOption)]);
}

#[test]
fn short_option_clusters() {
    assert_eq!(lex(&["-vq"]), vec![short('v', None), short('q', None)]);
    assert_eq!(lex(&["-vofile", "x"]), vec![short('v', None), short('o', Some("file")), Ok(Argument::Positional("x".to_string()))]);
    assert_eq!(lex(&["-o", "out"]), vec![short('o', Some("out"))]);
    assert_eq!(lex(&["-vz", "x"]), vec![short('v', None), Err(LexError::UnknownOption)]);
    assert_eq!(lex(&["-o"]), vec![Err(LexError::NoArgumentProvidedForOption)]);
}

#[test]
fn operation_names() {
    assert_eq!(Operation::from_name("help"), Ok(Operation::GiveHelp));
    assert_eq!(Operation::from_name("change-kernel"), Ok(Operation::ChangeKernel));
    assert_eq!(Operation::from_name("update-kernel"), Ok(Operation::UpdateKernel));
    assert_eq!(Operation::from_name("update"), Err(()));
}
