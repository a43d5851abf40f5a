//! Command lines. The first argument is the name of the program.

use crate::csv::texts;
use crate::text::same_text;
use vstd::prelude::*;

verus! {

/// What the dictionary converter is to do.
pub struct ConverterOptions {
    pub input: String,
    pub output: String,
    pub cost_csv: Option<String>,
    pub matrix_patches: Option<String>,
    pub reading_keyed: bool,
}

/// What the dictionary converter is to do, by content.
pub struct OptionsView {
    pub input: Seq<char>,
    pub output: Seq<char>,
    pub cost_csv: Option<Seq<char>>,
    pub matrix_patches: Option<Seq<char>>,
    pub reading_keyed: bool,
}

/// Why a command line of the dictionary converter is not accepted: it is too short, or the
/// argument at a place is not known.
pub enum ConverterArgsError {
    Usage,
    Unknown(usize),
}

/// A string that may be missing, by content.
pub open spec fn maybe_text(s: Option<String>) -> Option<Seq<char>> {
    match s {
        Some(s) => Some(s@),
        None => None,
    }
}

impl View for ConverterOptions {
    type V = OptionsView;

    open spec fn view(&self) -> OptionsView {
        OptionsView {
            input: self.input@,
            output: self.output@,
            cost_csv: maybe_text(self.cost_csv),
            matrix_patches: maybe_text(self.matrix_patches),
            reading_keyed: self.reading_keyed,
        }
    }
}

/// The options from argument `i` on, added to those before it, or the place of the first argument
/// that is not known. An option that takes a path is not known where nothing follows it, and the
/// last path counts.
pub open spec fn options_from(args: Seq<Seq<char>>, i: int, options: OptionsView) -> Result<
    OptionsView,
    int,
>
    decreases args.len() - i,
{
    if i >= args.len() {
        Ok(options)
    } else if args[i] == "--cost-csv"@ && i + 1 < args.len() {
        options_from(args, i + 2, OptionsView { cost_csv: Some(args[i + 1]), ..options })
    } else if args[i] == "--matrix-patches"@ && i + 1 < args.len() {
        options_from(args, i + 2, OptionsView { matrix_patches: Some(args[i + 1]), ..options })
    } else if args[i] == "--reading-keyed"@ {
        options_from(args, i + 1, OptionsView { reading_keyed: true, ..options })
    } else {
        Err(i)
    }
}

/// The options of the dictionary converter: the paths of input and output, and what follows them.
pub open spec fn converter_options(args: Seq<Seq<char>>) -> Result<OptionsView, int> {
    options_from(
        args,
        3,
        OptionsView {
            input: args[1],
            output: args[2],
            cost_csv: None,
            matrix_patches: None,
            reading_keyed: false,
        },
    )
}

/// Reads the command line of the dictionary converter.
pub fn parse_converter_args(args: &Vec<String>) -> (r: Result<ConverterOptions, ConverterArgsError>)
    ensures
        r matches Err(ConverterArgsError::Usage) <==> args@.len() < 3,
        args@.len() >= 3 ==> match (r, converter_options(texts(args@))) {
            (Ok(options), Ok(wanted)) => options@ == wanted,
            (Err(ConverterArgsError::Unknown(at)), Err(place)) => at == place,
            _ => false,
        },
{
    if args.len() < 3 {
        return Err(ConverterArgsError::Usage);
    }
    let ghost views = texts(args@);
    let mut options: ConverterOptions = ConverterOptions {
        input: args[1].clone(),
        output: args[2].clone(),
        cost_csv: None,
        matrix_patches: None,
        reading_keyed: false,
    };
    let mut i: usize = 3;
    while i < args.len()
        invariant
            3 <= i <= args@.len(),
            views == texts(args@),
            options_from(views, i as int, options@) == converter_options(views),
        decreases args.len() - i,
    {
        assert(views[i as int] == args@[i as int]@);
        let ghost before = options@;
        if same_text(args[i].as_str(), "--cost-csv") && i + 1 < args.len() {
            assert(views[i + 1] == args@[i + 1]@);
            options.cost_csv = Some(args[i + 1].clone());
            assert(options@ == (OptionsView { cost_csv: Some(views[i + 1]), ..before }));
            i = i + 2;
        } else if same_text(args[i].as_str(), "--matrix-patches") && i + 1 < args.len() {
            assert(views[i + 1] == args@[i + 1]@);
            options.matrix_patches = Some(args[i + 1].clone());
            assert(options@ == (OptionsView { matrix_patches: Some(views[i + 1]), ..before }));
            i = i + 2;
        } else if same_text(args[i].as_str(), "--reading-keyed") {
            options.reading_keyed = true;
            assert(options@ == (OptionsView { reading_keyed: true, ..before }));
            i = i + 1;
        } else {
            return Err(ConverterArgsError::Unknown(i));
        }
    }
    Ok(options)
}

/// What the builder of kana-kanji conversion dictionaries is to do, with the places of the paths
/// among the arguments: export a dictionary to a file, or build one from two files.
#[derive(Clone, Copy, Debug, PartialEq, Eq, Structural)]
pub enum BuilderCommand {
    Export { dictionary: usize, output: usize },
    Build { entries: usize, params: usize, output: usize },
}

/// Why a command line of the builder is not accepted: no such command, or the wrong number of
/// paths for it.
#[derive(Clone, Copy, Debug, PartialEq, Eq, Structural)]
pub enum BuilderArgsError {
    Usage,
    ExportUsage,
    BuildUsage,
}

/// The command in a command line of the builder.
pub open spec fn builder_command(args: Seq<Seq<char>>) -> Result<BuilderCommand, BuilderArgsError> {
    if args.len() < 2 {
        Err(BuilderArgsError::Usage)
    } else if args[1] == "--export"@ {
        if args.len() == 4 {
            Ok(BuilderCommand::Export { dictionary: 2, output: 3 })
        } else {
            Err(BuilderArgsError::ExportUsage)
        }
    } else if args[1] == "--build"@ {
        if args.len() == 5 {
            Ok(BuilderCommand::Build { entries: 2, params: 3, output: 4 })
        } else {
            Err(BuilderArgsError::BuildUsage)
        }
    } else {
        Err(BuilderArgsError::Usage)
    }
}

/// Reads the command line of the builder.
pub fn parse_builder_args(args: &Vec<String>) -> (r: Result<BuilderCommand, BuilderArgsError>)
    ensures
        r == builder_command(texts(args@)),
{
    if args.len() < 2 {
        return Err(BuilderArgsError::Usage);
    }
    assert(texts(args@)[1] == args@[1]@);
    if same_text(args[1].as_str(), "--export") {
        if args.len() == 4 {
            Ok(BuilderCommand::Export { dictionary: 2, output: 3 })
        } else {
            Err(BuilderArgsError::ExportUsage)
        }
    } else if same_text(args[1].as_str(), "--build") {
        if args.len() == 5 {
            Ok(BuilderCommand::Build { entries: 2, params: 3, output: 4 })
        } else {
            Err(BuilderArgsError::BuildUsage)
        }
    } else {
        Err(BuilderArgsError::Usage)
    }
}

/// Reading options on past the arguments that were read before.
proof fn lemma_options_append(
    args: Seq<Seq<char>>,
    tail: Seq<Seq<char>>,
    i: int,
    options: OptionsView,
)
    requires
        0 <= i <= args.len(),
        options_from(args, i, options) is Ok,
    ensures
        options_from(args + tail, i, options) == options_from(
            args + tail,
            args.len() as int,
            options_from(args, i, options)->Ok_0,
        ),
    decreases args.len() - i,
{
    let all = args + tail;
    if i < args.len() {
        assert(all[i] == args[i]);
        if args[i] == "--cost-csv"@ && i + 1 < args.len() {
            assert(all[i + 1] == args[i + 1]);
            lemma_options_append(
                args,
                tail,
                i + 2,
                OptionsView { cost_csv: Some(args[i + 1]), ..options },
            );
        } else if args[i] == "--matrix-patches"@ && i + 1 < args.len() {
            assert(all[i + 1] == args[i + 1]);
            lemma_options_append(
                args,
                tail,
                i + 2,
                OptionsView { matrix_patches: Some(args[i + 1]), ..options },
            );
        } else {
            lemma_names_differ();
            lemma_options_append(
                args,
                tail,
                i + 1,
                OptionsView { reading_keyed: true, ..options },
            );
        }
    }
}

/// The names of the options differ.
proof fn lemma_names_differ()
    ensures
        "--cost-csv"@ != "--matrix-patches"@,
        "--cost-csv"@ != "--reading-keyed"@,
        "--matrix-patches"@ != "--reading-keyed"@,
        "--export"@ != "--build"@,
{
    reveal_strlit("--cost-csv");
    reveal_strlit("--matrix-patches");
    reveal_strlit("--reading-keyed");
    reveal_strlit("--export");
    reveal_strlit("--build");
    assert("--cost-csv"@.len() == 10);
    assert("--matrix-patches"@.len() == 16);
    assert("--reading-keyed"@.len() == 15);
    assert("--export"@.len() == 8);
    assert("--build"@.len() == 7);
}

/// Without further arguments the dictionary converter has two paths and no options. Each further
/// option sets what it is named after, and nothing else; a path given later replaces an earlier
/// one.
pub proof fn law_option_added(args: Seq<Seq<char>>, path: Seq<char>)
    requires
        args.len() >= 3,
    ensures
        args.len() == 3 ==> converter_options(args) == Ok::<OptionsView, int>(
            OptionsView {
                input: args[1],
                output: args[2],
                cost_csv: None,
                matrix_patches: None,
                reading_keyed: false,
            },
        ),
        converter_options(args) matches Ok(options) ==> {
            &&& converter_options(args + seq!["--cost-csv"@, path]) == Ok::<OptionsView, int>(
                OptionsView {
                    input: options.input,
                    output: options.output,
                    cost_csv: Some(path),
                    matrix_patches: options.matrix_patches,
                    reading_keyed: options.reading_keyed,
                },
            )
            &&& converter_options(args + seq!["--matrix-patches"@, path]) == Ok::<
                OptionsView,
                int,
            >(
                OptionsView {
                    input: options.input,
                    output: options.output,
                    cost_csv: options.cost_csv,
                    matrix_patches: Some(path),
                    reading_keyed: options.reading_keyed,
                },
            )
            &&& converter_options(args + seq!["--reading-keyed"@]) == Ok::<OptionsView, int>(
                OptionsView {
                    input: options.input,
                    output: options.output,
                    cost_csv: options.cost_csv,
                    matrix_patches: options.matrix_patches,
                    reading_keyed: true,
                },
            )
        },
{
    lemma_names_differ();
    reveal_with_fuel(options_from, 3);
    let start = OptionsView {
        input: args[1],
        output: args[2],
        cost_csv: None,
        matrix_patches: None,
        reading_keyed: false,
    };
    if converter_options(args) is Ok {
        let n = args.len() as int;
        let cost = args + seq!["--cost-csv"@, path];
        let patches = args + seq!["--matrix-patches"@, path];
        let keyed = args + seq!["--reading-keyed"@];
        lemma_options_append(args, seq!["--cost-csv"@, path], 3, start);
        lemma_options_append(args, seq!["--matrix-patches"@, path], 3, start);
        lemma_options_append(args, seq!["--reading-keyed"@], 3, start);
        assert(cost[n] == "--cost-csv"@ && cost[n + 1] == path);
        assert(patches[n] == "--matrix-patches"@ && patches[n + 1] == path);
        assert(keyed[n] == "--reading-keyed"@);
    }
}

/// An argument that is no option is refused where it stands, whatever follows it, and so is an
/// option without its path.
pub proof fn law_option_refused(args: Seq<Seq<char>>, arg: Seq<char>, more: Seq<Seq<char>>)
    requires
        args.len() >= 3,
        converter_options(args) is Ok,
        arg != "--reading-keyed"@,
        more.len() > 0 ==> arg != "--cost-csv"@ && arg != "--matrix-patches"@,
    ensures
        converter_options(args + seq![arg] + more) == Err::<OptionsView, int>(args.len() as int),
{
    let tail = seq![arg] + more;
    let all = args + tail;
    let start = OptionsView {
        input: args[1],
        output: args[2],
        cost_csv: None,
        matrix_patches: None,
        reading_keyed: false,
    };
    lemma_options_append(args, tail, 3, start);
    assert(all =~= args + seq![arg] + more);
    assert(all[args.len() as int] == arg);
    assert(all[1] == args[1] && all[2] == args[2]);
}

/// The builder exports with two paths, builds with three, and does nothing else.
pub proof fn law_builder_command(args: Seq<Seq<char>>)
    ensures
        builder_command(args) == Ok::<BuilderCommand, BuilderArgsError>(
            BuilderCommand::Export { dictionary: 2, output: 3 },
        ) <==> args.len() == 4 && args[1] == "--export"@,
        builder_command(args) == Ok::<BuilderCommand, BuilderArgsError>(
            BuilderCommand::Build { entries: 2, params: 3, output: 4 },
        ) <==> args.len() == 5 && args[1] == "--build"@,
        builder_command(args) == Err::<BuilderCommand, BuilderArgsError>(
            BuilderArgsError::ExportUsage,
        ) <==> args.len() >= 2 && args.len() != 4 && args[1] == "--export"@,
        builder_command(args) == Err::<BuilderCommand, BuilderArgsError>(
            BuilderArgsError::BuildUsage,
        ) <==> args.len() >= 2 && args.len() != 5 && args[1] == "--build"@,
        builder_command(args) == Err::<BuilderCommand, BuilderArgsError>(BuilderArgsError::Usage)
            <==> args.len() < 2 || args[1] != "--export"@ && args[1] != "--build"@,
{
    lemma_names_differ();
}

/// The content of options is that of each of them.
pub proof fn law_options_contents(options: ConverterOptions)
    ensures
        options@.input == options.input@,
        options@.output == options.output@,
        options.cost_csv is None <==> options@.cost_csv is None,
        options.cost_csv is Some ==> options@.cost_csv == Some(options.cost_csv->0@),
        options.matrix_patches is None <==> options@.matrix_patches is None,
        options.matrix_patches is Some ==> options@.matrix_patches == Some(
            options.matrix_patches->0@,
        ),
        options@.reading_keyed == options.reading_keyed,
{
}

} // verus!
