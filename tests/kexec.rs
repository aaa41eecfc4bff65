use fullsystemimage::aggregate::AggregateError;
use fullsystemimage::kexec::{
    elements_are_unique, split_at_unquoted_spaces, TransformParameters, UniqueTransformParameters,
};

#[test]
fn test_elements_are_unique() {
    let test_cases: &[(&[i32], bool)] = &[
        (&[2, 5, 3], true),
        (&[2, 2, 3], false),
        (&[2, 5, 2], false),
        (&[2, 3, 3], false),

        (&[2, 5, 3, 10], true),
        (&[4, 4, 4, 4], false),
    ];
    for (elements, are_unique) in test_cases {
        assert_eq!(elements_are_unique(elements), *are_unique);
    }
}

#[test]
fn elements_are_unique_short_slices() {
    let empty: &[i32] = &[];
    assert!(elements_are_unique(empty));
    assert!(elements_are_unique(&[7]));
}

#[test]
fn unique_transform_parameters_try_from() {
    let unique = TransformParameters {
        additional_args: "hello".to_string(),
        kernel: "goodbye".to_string(),
        initrd: "cheese".to_string(),
    };
    let not_unique = TransformParameters {
        additional_args: "hello".to_string(),
        kernel: "hello".to_string(),
        initrd: "cheese".to_string(),
    };

    assert_eq!(UniqueTransformParameters::try_from(unique.clone()), Ok(UniqueTransformParameters(unique)));
    assert_eq!(UniqueTransformParameters::try_from(not_unique), Err(()));
}

#[test]
fn test_split_at_unquoted_spaces() {
    let simple_case = r#"   asdfdji   ewaj"   " dfsfde=5"#;
    let simple_case_expected = ["asdfdji", r#"ewaj"   ""#, "dfsfde=5"];

    let testing_everything = r#"    root=UUID=lolololol  tcp_handler 893s zxvv=289 additional_args="single sysrq_always_on=1   fdsaew kjk" dsfder   kernel=/boot/vmlinuz-asdf --single-quoted='asdei "dcxie     " fjid' enclave="cxerdsd 'fds "ewdsji  " fews' dsfds"  --lol=" xczc"#;
    let testing_everything_expected = [
        "root=UUID=lolololol", "tcp_handler", "893s", "zxvv=289", r#"additional_args="single sysrq_always_on=1   fdsaew kjk""#,
        "dsfder", "kernel=/boot/vmlinuz-asdf", r#"--single-quoted='asdei "dcxie     " fjid'"#, r#"enclave="cxerdsd 'fds "ewdsji"#,
        r#"" fews' dsfds""#, r#"--lol=" xczc"#,
    ];

    let quotes_inside_each_other = r#"--asdf=""""jkn ""  "" ewvj 'hello goodbyte' cnvvie="tty3 9cx jszv="32"" 32f  unpaired_quote="asdf eiwo cxbk    ids  "#;
    let quotes_inside_each_other_expected = [r#"--asdf=""""jkn"#, "\"\"", "\"\"", "ewvj", "'hello goodbyte'", r#"cnvvie="tty3 9cx jszv="32"""#, "32f", "unpaired_quote=\"asdf eiwo cxbk    ids  "];

    let test_cases: &[(&str, &[&str])] = &[
        (simple_case, &simple_case_expected),
        (testing_everything, &testing_everything_expected),
        (quotes_inside_each_other, &quotes_inside_each_other_expected),
    ];
    for (input, expected) in test_cases {
        assert_eq!(split_at_unquoted_spaces(input).into_vec().as_slice(), *expected);
    }
}

#[test]
fn split_strings_hands_out_pieces_in_order() {
    let mut it = split_at_unquoted_spaces("  a 'b c'  d");
    assert_eq!(it.next(), Some("a".to_string()));
    assert_eq!(it.next(), Some("'b c'".to_string()));
    assert_eq!(it.next(), Some("d".to_string()));
    assert_eq!(it.next(), None);
    assert!(split_at_unquoted_spaces("    ").into_vec().is_empty());
}

#[test]
fn aggregate_error_needs_an_error() {
    assert!(AggregateError::<i32>::new(Vec::new()).is_none());
    let a = AggregateError::new(vec![3, 4]).unwrap();
    assert_eq!(a.get(), &[3, 4]);
}

use fullsystemimage::kexec::{
    parse_args, transform_command_line, Config, KexecArgs, ParseArgsError, TransformCommandLineError,
};

fn single<E>(e: E) -> AggregateError<E> {
    AggregateError::new(vec![e]).unwrap()
}

#[test]
fn test_transform_command_line() {
    let transform_parameters: UniqueTransformParameters = UniqueTransformParameters::try_from(TransformParameters {
        additional_args: "--asdf".to_string(),
        kernel: "--kernel-lol".to_string(),
        initrd: "--see-initrd".to_string(),
    }).unwrap();

    let working_command_line = r#"2312 --kernel-lol=tty390=zxcvr lol=5 --asdf="tee=4 sasd=1 83      dfds 983=5=das"     see 3 cx=8ijds --see-initrd=--kernel-lol"#;
    let working_expected = Ok(KexecArgs {
        kernel: "tty390=zxcvr".to_string(),
        initrd: "--kernel-lol".to_string(),
        command_line: "2312 lol=5 tee=4 sasd=1 83      dfds 983=5=das see 3 cx=8ijds ".to_string(),
    });

    let missing_kernel_command_line = r#"2312 --kernel-lol lol=5 --asdf="tee=4 sasd=1 83      dfds 983=5=das"     see 3 cx=8ijds --see-initrd=--kernel-lol"#;
    let missing_kernel_expected = Err(single(
        TransformCommandLineError::MissingRequiredParameter {
            parameter: "--kernel-lol".to_string(),
        }
    ));

    let set_multiple_times_command_line = r#"2312 --kernel-lol=tty390=zxcvr lol=5 --see-initrd="tee=4 sasd=1 83      dfds 983=5=das"     see 3 cx=8ijds --see-initrd=--kernel-lol"#;
    let set_multiple_times_expected = Err(single(
        TransformCommandLineError::RequiredParameterSetMultipleTimes {
            parameter: "--see-initrd".to_string(),
        }
    ));

    let no_additional_args_command_line = r#"lololololol --kernel-lol= --see-initrd="#;
    let no_additional_args_expected = Ok(KexecArgs {
        kernel: "".to_string(),
        initrd: "".to_string(),
        command_line: "lololololol ".to_string(),
    });

    // Quoted additional arguments lose one pair of outer quotes.
    let additional_args_quotes_command_line = r#"an_option="32 cxds" 'jcxn ewi' --kernel-lol= --see-initrd= --asdf="lol=3" ewji --asdf="'hello goodbye c32=gfda'" --asdf='"x y"'"#;
    let additional_args_quotes_expected = Ok(KexecArgs {
        kernel: "".to_string(),
        initrd: "".to_string(),
        command_line: r#"an_option="32 cxds" 'jcxn ewi' lol=3 ewji 'hello goodbye c32=gfda' "x y" "#.to_string(),
    });

    for (command_line, expected) in [
        (working_command_line, working_expected),
        (missing_kernel_command_line, missing_kernel_expected),
        (set_multiple_times_command_line, set_multiple_times_expected),
        (no_additional_args_command_line, no_additional_args_expected),
        (additional_args_quotes_command_line, additional_args_quotes_expected),
    ] {
        assert_eq!(transform_command_line(command_line, transform_parameters.clone()), expected);
    }
}

#[test]
fn transform_reports_every_problem() {
    let p = UniqueTransformParameters::try_from(TransformParameters {
        additional_args: "a".to_string(),
        kernel: "k".to_string(),
        initrd: "i".to_string(),
    }).unwrap();
    let r = transform_command_line("k=1 k=2 x", p).unwrap_err();
    assert_eq!(
        r.get(),
        &[
            TransformCommandLineError::RequiredParameterSetMultipleTimes { parameter: "k".to_string() },
            TransformCommandLineError::MissingRequiredParameter { parameter: "i".to_string() },
        ]
    );
}

#[test]
fn test_parse_args() {
    let option_names: UniqueTransformParameters = UniqueTransformParameters::try_from(TransformParameters {
        additional_args: "--add-args".to_string(),
        kernel: "--popcorn-kernel".to_string(),
        initrd: "--initramfs".to_string(),
    }).unwrap();

    let working_command_line = "--add-args --cpio --popcorn-kernel=--casdf --initramfs --9anime.to";
    let working_expected = Ok(
        Config {
            transform_parameters: UniqueTransformParameters::try_from(TransformParameters {
                additional_args: "--cpio".to_string(),
                kernel: "--casdf".to_string(),
                initrd: "--9anime.to".to_string(),
            }).unwrap(),
        }
    );

    let excessive_args_command_line = "--add-args --cpio --add-rgs --popcorn-kernel=--casdf --initramfs --9anime.to";
    let excessive_args_expected = Err(single(
        ParseArgsError::UnknownArgument {
            argument: "--add-rgs".to_string(),
        }
    ));

    let duplicate_option_command_line = "--add-args --cpio --popcorn-kernel=--casdf --add-args hello --initramfs --9anime.to";
    let duplicate_option_expected = Err(single(
        ParseArgsError::OptionSetMultipleTimes {
            option: "--add-args".to_string(),
        }
    ));

    let key_without_value_command_line = "--add-args --cpio --popcorn-kernel=--casdf --initramfs";
    let key_without_value_expected = Err(single(
        ParseArgsError::KeyWithoutValue {
            key: "--initramfs".to_string(),
        }
    ));

    let missing_options_command_line = "--popcorn-kernel=--casdf --initramfs --9anime.to";
    let missing_options_expected = Err(single(
        ParseArgsError::MissingRequiredOption {
            option: "--add-args".to_string(),
        }
    ));

    let same_value_command_line = "--add-args --cpio --popcorn-kernel=--9anime.to --initramfs --9anime.to";
    let same_value_expected = Err(single(
        ParseArgsError::MultipleOptionSameValue
    ));

    for (command_line, expected) in [
        (working_command_line, working_expected),
        (excessive_args_command_line, excessive_args_expected),
        (duplicate_option_command_line, duplicate_option_expected),
        (key_without_value_command_line, key_without_value_expected),
        (missing_options_command_line, missing_options_expected),
        (same_value_command_line, same_value_expected),
    ] {
        assert_eq!(parse_args(command_line.split_whitespace().map(|x| x.to_string()).collect(), option_names.clone()), expected);
    }
}
