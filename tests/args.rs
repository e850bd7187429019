use factorio_mod_settings::{
    extension_is, infer_args_format, infer_args_mode, parse_args, resolve_mode_and_format, Args,
    ArgsError, Format, Mode,
};

fn words(s: &str) -> Vec<String> {
    s.split_whitespace().map(|w| w.to_owned()).collect()
}

fn args(input: &str, output: Option<&str>) -> Args {
    Args { mode: None, format: None, input: input.to_owned(), output: output.map(|o| o.to_owned()) }
}

#[test]
fn parses_paths_and_options() {
    let a = parse_args(&words("-m e --format t settings.toml out.dat")).expect("parsing");
    assert_eq!(a.mode, Some(Mode::Encode));
    assert_eq!(a.format, Some(Format::Toml));
    assert_eq!(a.input, "settings.toml");
    assert_eq!(a.output.as_deref(), Some("out.dat"));
    let a = parse_args(&words("- --mode decode -f json")).expect("parsing");
    assert_eq!(a, Args { mode: Some(Mode::Decode), format: Some(Format::Json), input: "-".to_owned(), output: None });
}

#[test]
fn rejects_malformed_command_lines() {
    assert_eq!(parse_args(&words("")), Err(ArgsError::MissingInput));
    assert_eq!(parse_args(&words("-m")), Err(ArgsError::MissingValue("-m".to_owned())));
    assert_eq!(parse_args(&words("-m x in")), Err(ArgsError::InvalidMode("x".to_owned())));
    assert_eq!(parse_args(&words("-f yaml in")), Err(ArgsError::InvalidFormat("yaml".to_owned())));
    assert_eq!(parse_args(&words("-m d -m e in")), Err(ArgsError::RepeatedOption("-m".to_owned())));
    assert_eq!(parse_args(&words("--verbose in")), Err(ArgsError::UnknownOption("--verbose".to_owned())));
    assert_eq!(parse_args(&words("a b c")), Err(ArgsError::UnexpectedArgument("c".to_owned())));
    assert_eq!(parse_args(&words("in --help")), Err(ArgsError::HelpRequested));
}

#[test]
fn extension_comparison_ignores_ascii_case() {
    assert!(extension_is("mod-settings.DAT", "dat"));
    assert!(extension_is("dir.json/file.Json", "json"));
    assert!(!extension_is("file.json", "toml"));
    assert!(!extension_is("json", "json"));
    assert!(!extension_is(".json", "json"));
    assert!(!extension_is("-", "dat"));
}

#[test]
fn mode_is_inferred_from_output_then_input() {
    assert_eq!(infer_args_mode(&args("in.dat", Some("out.json"))), Some(Mode::Decode));
    assert_eq!(infer_args_mode(&args("in.json", Some("out.dat"))), Some(Mode::Encode));
    assert_eq!(infer_args_mode(&args("in.dat", Some("out.txt"))), None);
    assert_eq!(infer_args_mode(&args("in.toml", None)), Some(Mode::Encode));
    assert_eq!(infer_args_mode(&args("in.dat", None)), Some(Mode::Decode));
    assert_eq!(infer_args_mode(&args("-", None)), None);
}

#[test]
fn format_is_inferred_from_the_text_side() {
    assert_eq!(infer_args_format(&args("in.toml", Some("out.dat")), &Mode::Encode), Some(Format::Toml));
    assert_eq!(infer_args_format(&args("in.dat", Some("out.JSON")), &Mode::Decode), Some(Format::Json));
    assert_eq!(infer_args_format(&args("in.dat", None), &Mode::Decode), None);
    assert_eq!(infer_args_format(&args("in.dat", Some("o.dat")), &Mode::Encode), None);
}

#[test]
fn explicit_choices_win_and_missing_ones_are_errors() {
    let mut a = args("in.dat", Some("out.toml"));
    assert_eq!(resolve_mode_and_format(&a), Ok((Mode::Decode, Format::Toml)));
    a.format = Some(Format::Json);
    assert_eq!(resolve_mode_and_format(&a), Ok((Mode::Decode, Format::Json)));
    assert_eq!(resolve_mode_and_format(&args("in.bin", None)), Err(ArgsError::UnableToInferMode));
    assert_eq!(resolve_mode_and_format(&args("in.dat", None)), Err(ArgsError::UnableToInferFormat));
}
