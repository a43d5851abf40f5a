use sudachi_wasm::options::{
    parse_builder_args, parse_converter_args, BuilderArgsError, BuilderCommand, ConverterArgsError,
};

fn args(text: &[&str]) -> Vec<String> {
    text.iter().map(|arg| arg.to_string()).collect()
}

fn unknown(text: &[&str]) -> Option<usize> {
    match parse_converter_args(&args(text)) {
        Err(ConverterArgsError::Unknown(at)) => Some(at),
        _ => None,
    }
}

#[test]
fn converter_takes_two_paths() {
    let options = parse_converter_args(&args(&["p", "in", "out"])).ok().unwrap();
    assert_eq!(options.input, "in");
    assert_eq!(options.output, "out");
    assert_eq!(options.cost_csv, None);
    assert_eq!(options.matrix_patches, None);
    assert!(!options.reading_keyed);
    for few in [&["p", "in"][..], &["p"], &[]] {
        assert!(matches!(
            parse_converter_args(&args(few)),
            Err(ConverterArgsError::Usage)
        ));
    }
}

#[test]
fn converter_takes_options() {
    let options = parse_converter_args(&args(&[
        "p", "in", "out", "--matrix-patches", "m", "--reading-keyed", "--cost-csv", "c1",
        "--cost-csv", "--reading-keyed",
    ]))
    .ok()
    .unwrap();
    assert_eq!(options.cost_csv.as_deref(), Some("--reading-keyed"));
    assert_eq!(options.matrix_patches.as_deref(), Some("m"));
    assert!(options.reading_keyed);
}

#[test]
fn converter_does_not_know_other_arguments() {
    assert_eq!(unknown(&["p", "in", "out", "x"]), Some(3));
    assert_eq!(unknown(&["p", "in", "out", "--cost-csv"]), Some(3));
    assert_eq!(unknown(&["p", "in", "out", "--cost-csv", "c", "--matrix-patches"]), Some(5));
    assert_eq!(unknown(&["p", "in", "out", "--reading-keyed", "--Reading-Keyed"]), Some(4));
}

#[test]
fn builder_takes_a_command() {
    assert_eq!(
        parse_builder_args(&args(&["p", "--export", "d", "o"])),
        Ok(BuilderCommand::Export { dictionary: 2, output: 3 })
    );
    assert_eq!(
        parse_builder_args(&args(&["p", "--build", "e", "p", "o"])),
        Ok(BuilderCommand::Build { entries: 2, params: 3, output: 4 })
    );
    assert_eq!(parse_builder_args(&args(&["p"])), Err(BuilderArgsError::Usage));
    assert_eq!(parse_builder_args(&args(&["p", "-h"])), Err(BuilderArgsError::Usage));
    assert_eq!(
        parse_builder_args(&args(&["p", "--export", "d"])),
        Err(BuilderArgsError::ExportUsage)
    );
    assert_eq!(
        parse_builder_args(&args(&["p", "--build", "e", "p"])),
        Err(BuilderArgsError::BuildUsage)
    );
}
