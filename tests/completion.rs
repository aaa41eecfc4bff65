use fullsystemimage::completion::{
    complete_command, fold_args, ArgsState, CmdlineOption, CmdlineOptionKind, CompleteConfig,
    PositionalArg, Subcommand,
};

fn opt(name: &str, values: Option<&[&str]>) -> CmdlineOption {
    CmdlineOption {
        name: name.to_string(),
        option_kind: match values {
            Some(v) => CmdlineOptionKind::Required(v.iter().map(|s| s.to_string()).collect()),
            None => CmdlineOptionKind::NoArgument,
        },
    }
}

fn config() -> CompleteConfig {
    CompleteConfig {
        initial_options: vec![opt("--help", None), opt("--config", Some(&["a.toml", "b.toml"]))],
        subcommands: vec![
            Subcommand {
                name: "change-kernel".to_string(),
                possible_options: vec![opt("--hard-link", None), opt("--compare", Some(&["full", "efficient"]))],
                positional_args: vec![PositionalArg {}, PositionalArg {}],
            },
            Subcommand {
                name: "deploy".to_string(),
                possible_options: vec![opt("--device", Some(&["/dev/sda1"]))],
                positional_args: vec![],
            },
        ],
    }
}

fn complete(args: &[&str]) -> Vec<String> {
    complete_command(&config(), &args.iter().map(|s| s.to_string()).collect())
}

#[test]
fn completes_options_and_subcommands() {
    assert_eq!(complete(&[""]), vec!["--help", "--config", "change-kernel", "deploy"]);
    assert_eq!(complete(&["--c"]), vec!["--config"]);
    assert_eq!(complete(&["ch"]), vec!["change-kernel"]);
    assert_eq!(complete(&[]), vec!["--help", "--config", "change-kernel", "deploy"]);
}

#[test]
fn completes_option_arguments() {
    assert_eq!(complete(&["--config", ""]), vec!["a.toml", "b.toml"]);
    assert_eq!(complete(&["--config", "b"]), vec!["b.toml"]);
    assert_eq!(complete(&["--config", "a.toml", "--h"]), vec!["--help"]);
}

#[test]
fn completes_within_subcommand() {
    assert_eq!(complete(&["change-kernel", "--"]), vec!["--hard-link", "--compare"]);
    assert_eq!(complete(&["change-kernel", "--compare", "e"]), vec!["efficient"]);
    assert_eq!(complete(&["deploy", "src", ""]), vec!["--device"]);
}

#[test]
fn fold_args_tracks_subcommand() {
    let c = config();
    let mut st = ArgsState::new();
    fold_args(&c, &mut st, &"deploy".to_string());
    fold_args(&c, &mut st, &"--device".to_string());
    fold_args(&c, &mut st, &"/dev/sda1".to_string());
    let again = complete_command(&c, &vec!["deploy".to_string(), "--device".to_string(), "/dev/sda1".to_string(), "".to_string()]);
    assert_eq!(again, vec!["--device"]);
}
