//! The command line.
//!
//! Arguments come in as text where they are text; options and inputs come out
//! as positions in the argument list, so that a path need not be text.

use crate::ncm::metadata;
use crate::text;
use vstd::prelude::*;

verus! {

/// What is to be done. Paths are given by their positions among the arguments.
pub struct Options {
    pub output: Option<usize>,
    pub recursive: bool,
    pub force: bool,
    pub info: bool,
    pub inputs: Vec<usize>,
}

/// The values in [`Options`].
pub struct OptionsView {
    pub output: Option<int>,
    pub recursive: bool,
    pub force: bool,
    pub info: bool,
    pub inputs: Seq<int>,
}

impl View for Options {
    type V = OptionsView;

    open spec fn view(&self) -> OptionsView {
        OptionsView {
            output: match self.output {
                Some(i) => Some(i as int),
                None => None,
            },
            recursive: self.recursive,
            force: self.force,
            info: self.info,
            inputs: self.inputs@.map_values(|i: usize| i as int),
        }
    }
}

/// A text to show instead of doing anything.
#[derive(Clone, Copy, Debug, PartialEq, Eq, Structural)]
pub enum Notice {
    Help,
    Version,
}

/// What a command line asks for.
pub enum ParseResult {
    Run(Options),
    Exit(Notice),
}

/// The values in a [`ParseResult`].
pub enum ParseView {
    Run(OptionsView),
    Exit(Notice),
}

impl View for ParseResult {
    type V = ParseView;

    open spec fn view(&self) -> ParseView {
        match self {
            ParseResult::Run(options) => ParseView::Run(options@),
            ParseResult::Exit(notice) => ParseView::Exit(*notice),
        }
    }
}

/// What arguments say, where they are text.
pub open spec fn argument_texts(args: Seq<Option<String>>) -> Seq<Option<Seq<char>>> {
    args.map_values(|a: Option<String>| metadata::optional_text(a))
}

/// Arguments are read in full, and what comes out names them by their positions.
pub proof fn law_arguments_count_in_full(args: Seq<Option<String>>, options: Options, i: int)
    ensures
        argument_texts(args).len() == args.len(),
        0 <= i < args.len() ==> match args[i] {
            Some(arg) => argument_texts(args)[i] == Some(arg@),
            None => argument_texts(args)[i] is None,
        },
        options@.inputs.len() == options.inputs@.len(),
        0 <= i < options.inputs@.len() ==> options@.inputs[i] == options.inputs@[i],
        match options.output {
            Some(at) => options@.output == Some(at as int),
            None => options@.output is None,
        },
        options@.recursive == options.recursive,
        options@.force == options.force,
        options@.info == options.info,
        ParseResult::Run(options)@ == ParseView::Run(options@),
{
}

/// Options before any argument was read.
pub open spec fn no_options() -> OptionsView {
    OptionsView { output: None, recursive: false, force: false, info: false, inputs: seq![] }
}

/// Options with one more input.
pub open spec fn with_input(options: OptionsView, i: int) -> OptionsView {
    OptionsView { inputs: options.inputs.push(i), ..options }
}

/// What an argument is where options are read.
pub enum Word {
    Separator,
    Help,
    Version,
    Recursive,
    Force,
    Info,
    Output,
    Unknown,
    Input,
}

/// What an argument is where options are read: what is no text, or does not
/// begin with a hyphen, is an input.
pub open spec fn word(arg: Option<Seq<char>>) -> Word {
    match arg {
        None => Word::Input,
        Some(a) => if a == "--"@ {
            Word::Separator
        } else if a == "-h"@ || a == "--help"@ {
            Word::Help
        } else if a == "-V"@ || a == "--version"@ {
            Word::Version
        } else if a == "-r"@ || a == "--recursive"@ {
            Word::Recursive
        } else if a == "-f"@ || a == "--force"@ {
            Word::Force
        } else if a == "--info"@ {
            Word::Info
        } else if a == "-o"@ || a == "--output"@ {
            Word::Output
        } else if a.len() > 0 && a[0] == '-' {
            Word::Unknown
        } else {
            Word::Input
        },
    }
}

/// What the arguments from `i` on ask for, after `options` were read. Behind a
/// `--` every argument is an input.
pub open spec fn parsed_from(
    args: Seq<Option<Seq<char>>>,
    i: int,
    positional_only: bool,
    options: OptionsView,
) -> Result<ParseView, Seq<char>>
    decreases args.len() - i,
{
    if i >= args.len() {
        if options.inputs.len() == 0 {
            Err("至少需要一个文件或目录"@)
        } else {
            Ok(ParseView::Run(options))
        }
    } else if positional_only {
        parsed_from(args, i + 1, true, with_input(options, i))
    } else {
        match word(args[i]) {
            Word::Separator => parsed_from(args, i + 1, true, options),
            Word::Help => Ok(ParseView::Exit(Notice::Help)),
            Word::Version => Ok(ParseView::Exit(Notice::Version)),
            Word::Recursive => parsed_from(
                args,
                i + 1,
                false,
                OptionsView { recursive: true, ..options },
            ),
            Word::Force => parsed_from(args, i + 1, false, OptionsView { force: true, ..options }),
            Word::Info => parsed_from(args, i + 1, false, OptionsView { info: true, ..options }),
            Word::Output => if i + 1 < args.len() {
                parsed_from(args, i + 2, false, OptionsView { output: Some(i + 1), ..options })
            } else {
                Err("--output 缺少目录参数"@)
            },
            Word::Unknown => Err("未知选项: "@ + args[i]->Some_0),
            Word::Input => parsed_from(args, i + 1, false, with_input(options, i)),
        }
    }
}

/// What a command line asks for.
pub open spec fn parsed(args: Seq<Option<Seq<char>>>) -> Result<ParseView, Seq<char>> {
    parsed_from(args, 0, false, no_options())
}

/// Whether a result is the one that a specification gives.
pub open spec fn agrees(
    result: Result<ParseResult, String>,
    expected: Result<ParseView, Seq<char>>,
) -> bool {
    match expected {
        Ok(view) => result matches Ok(r) && r@ == view,
        Err(message) => result matches Err(m) && m@ == message,
    }
}

/// Behind a `--` every argument is an input, whatever it looks like.
pub proof fn law_separator_ends_options(
    args: Seq<Option<Seq<char>>>,
    i: int,
    options: OptionsView,
)
    requires
        0 <= i <= args.len(),
        i < args.len() || options.inputs.len() > 0,
    ensures
        parsed_from(args, i, true, options) == Ok::<ParseView, Seq<char>>(
            ParseView::Run(
                OptionsView {
                    inputs: options.inputs + Seq::new((args.len() - i) as nat, |k: int| i + k),
                    ..options
                },
            ),
        ),
    decreases args.len() - i,
{
    let rest = Seq::new((args.len() - i) as nat, |k: int| i + k);
    if i < args.len() {
        let tail = Seq::new((args.len() - (i + 1)) as nat, |k: int| i + 1 + k);
        law_separator_ends_options(args, i + 1, with_input(options, i));
        assert(options.inputs.push(i) + tail =~= options.inputs + rest);
    } else {
        assert(options.inputs + rest =~= options.inputs);
    }
}

/// Whether options speak of the first `n` arguments: inputs in their order,
/// each once, and an output directory that is no input.
pub open spec fn is_sound(options: OptionsView, n: int) -> bool {
    &&& forall|k: int| 0 <= k < options.inputs.len() ==> 0 <= #[trigger] options.inputs[k] < n
    &&& forall|j: int, k: int|
        0 <= j < k < options.inputs.len() ==> options.inputs[j] < options.inputs[k]
    &&& options.output matches Some(o) ==> 0 <= o < n && !options.inputs.contains(o)
}

proof fn lemma_parsed_is_sound(
    args: Seq<Option<Seq<char>>>,
    i: int,
    positional_only: bool,
    options: OptionsView,
)
    requires
        0 <= i <= args.len(),
        is_sound(options, i),
    ensures
        parsed_from(args, i, positional_only, options) matches Ok(ParseView::Run(o)) ==> {
            &&& is_sound(o, args.len() as int)
            &&& o.inputs.len() > 0
        },
    decreases args.len() - i,
{
    if i < args.len() {
        let more = with_input(options, i);
        assert(is_sound(more, i + 1)) by {
            if let Some(o) = more.output {
                if more.inputs.contains(o) {
                    let k = choose|k: int| 0 <= k < more.inputs.len() && more.inputs[k] == o;
                    assert(options.inputs.contains(more.inputs[k]) || k == options.inputs.len());
                }
            }
        }
        lemma_parsed_is_sound(args, i + 1, positional_only, more);
        lemma_parsed_is_sound(args, i + 1, true, options);
        lemma_parsed_is_sound(
            args,
            i + 1,
            positional_only,
            OptionsView { recursive: true, ..options },
        );
        lemma_parsed_is_sound(args, i + 1, positional_only, OptionsView { force: true, ..options });
        lemma_parsed_is_sound(args, i + 1, positional_only, OptionsView { info: true, ..options });
        if i + 1 < args.len() {
            let aimed = OptionsView { output: Some(i + 1), ..options };
            assert(is_sound(aimed, i + 2));
            lemma_parsed_is_sound(args, i + 2, positional_only, aimed);
        }
    }
}

/// A command line that leads to work names at least one input; the inputs are
/// arguments in their order, and the output directory is none of them.
pub proof fn law_run_has_inputs(args: Seq<Option<Seq<char>>>)
    ensures
        parsed(args) matches Ok(ParseView::Run(o)) ==> {
            &&& is_sound(o, args.len() as int)
            &&& o.inputs.len() > 0
        },
{
    lemma_parsed_is_sound(args, 0, false, no_options());
}

/// The argument that is read as an option or an input after the one at `i`, if
/// reading goes on in that way.
pub open spec fn next_read(args: Seq<Option<Seq<char>>>, i: int) -> Option<int> {
    match word(args[i]) {
        Word::Separator | Word::Help | Word::Version | Word::Unknown => None,
        Word::Output => if i + 1 < args.len() {
            Some(i + 2)
        } else {
            None
        },
        _ => Some(i + 1),
    }
}

/// Whether the argument at `i` is read as an option or an input, when reading
/// begins at `from`: it is not behind a `--`, nor behind an argument that
/// decides all, nor the directory of an `--output`.
pub open spec fn is_read(args: Seq<Option<Seq<char>>>, from: int, i: int) -> bool
    decreases args.len() - from,
{
    &&& 0 <= from < args.len()
    &&& from == i || (next_read(args, from) matches Some(next) && is_read(args, next, i))
}

/// What an argument decides on its own, if it does.
pub open spec fn verdict(args: Seq<Option<Seq<char>>>, i: int) -> Option<
    Result<ParseView, Seq<char>>,
> {
    match word(args[i]) {
        Word::Help => Some(Ok(ParseView::Exit(Notice::Help))),
        Word::Version => Some(Ok(ParseView::Exit(Notice::Version))),
        Word::Unknown => Some(Err("未知选项: "@ + args[i]->Some_0)),
        Word::Output => if i + 1 < args.len() {
            None
        } else {
            Some(Err("--output 缺少目录参数"@))
        },
        _ => None,
    }
}

/// Whether a word is read.
pub open spec fn reads(args: Seq<Option<Seq<char>>>, from: int, w: Word) -> bool {
    exists|i: int| #[trigger] is_read(args, from, i) && word(args[i]) == w
}

/// Whether the argument at `i` is an input: it is read as one, or stands behind a
/// `--` that is read.
pub open spec fn is_input(args: Seq<Option<Seq<char>>>, from: int, i: int) -> bool {
    ||| is_read(args, from, i) && word(args[i]) is Input
    ||| i < args.len() && exists|s: int| #[trigger]
        is_read(args, from, s) && word(args[s]) is Separator && s < i
}

/// Whether the argument at `i` is the last `--output` that is read.
pub open spec fn is_last_output(args: Seq<Option<Seq<char>>>, from: int, i: int) -> bool {
    &&& is_read(args, from, i)
    &&& word(args[i]) is Output
    &&& forall|j: int| #[trigger] is_read(args, from, j) && i < j ==> !(word(args[j]) is Output)
}

/// Whether `done` is what `options` become by the arguments from `from` on.
pub open spec fn are_options_of(
    args: Seq<Option<Seq<char>>>,
    from: int,
    options: OptionsView,
    done: OptionsView,
) -> bool {
    &&& done.recursive == (options.recursive || reads(args, from, Word::Recursive))
    &&& done.force == (options.force || reads(args, from, Word::Force))
    &&& done.info == (options.info || reads(args, from, Word::Info))
    &&& forall|i: int| #[trigger]
        done.inputs.contains(i) <==> options.inputs.contains(i) || is_input(args, from, i)
    &&& forall|i: int| #[trigger]
        is_last_output(args, from, i) ==> done.output == Some(i + 1)
    &&& !reads(args, from, Word::Output) ==> done.output == options.output
}

proof fn lemma_is_read(args: Seq<Option<Seq<char>>>, from: int, i: int)
    requires
        is_read(args, from, i),
    ensures
        0 <= from <= i < args.len(),
    decreases args.len() - from,
{
    if from != i {
        lemma_is_read(args, next_read(args, from)->Some_0, i);
    }
}

proof fn lemma_verdict(args: Seq<Option<Seq<char>>>, from: int, i: int, options: OptionsView)
    requires
        is_read(args, from, i),
        verdict(args, i) is Some,
    ensures
        parsed_from(args, from, false, options) == verdict(args, i)->Some_0,
    decreases args.len() - from,
{
    if from != i {
        let next = next_read(args, from)->Some_0;
        match word(args[from]) {
            Word::Recursive => lemma_verdict(
                args,
                next,
                i,
                OptionsView { recursive: true, ..options },
            ),
            Word::Force => lemma_verdict(args, next, i, OptionsView { force: true, ..options }),
            Word::Info => lemma_verdict(args, next, i, OptionsView { info: true, ..options }),
            Word::Output => lemma_verdict(
                args,
                next,
                i,
                OptionsView { output: Some(from + 1), ..options },
            ),
            _ => lemma_verdict(args, next, i, with_input(options, from)),
        }
    }
}

/// The options after one step, in terms of those after the rest.
proof fn lemma_step(
    args: Seq<Option<Seq<char>>>,
    from: int,
    next: int,
    options: OptionsView,
    step: OptionsView,
    done: OptionsView,
)
    requires
        0 <= from < args.len(),
        next_read(args, from) == Some(next),
        are_options_of(args, next, step, done),
        step.recursive == (options.recursive || word(args[from]) is Recursive),
        step.force == (options.force || word(args[from]) is Force),
        step.info == (options.info || word(args[from]) is Info),
        step.output == (if word(args[from]) is Output {
            Some(from + 1)
        } else {
            options.output
        }),
        step.inputs == (if word(args[from]) is Input {
            options.inputs.push(from)
        } else {
            options.inputs
        }),
    ensures
        are_options_of(args, from, options, done),
{
    assert(is_read(args, from, from));
    assert forall|i: int| #[trigger] is_read(args, from, i) implies i == from || is_read(
        args,
        next,
        i,
    ) by {}
    assert forall|i: int| #[trigger] is_read(args, next, i) implies is_read(args, from, i) && i
        >= next by {
        lemma_is_read(args, next, i);
    }
    assert forall|i: int| #[trigger] done.inputs.contains(i) <==> options.inputs.contains(i)
        || is_input(args, from, i) by {
        if word(args[from]) is Input {
            assert(step.inputs.contains(i) <==> options.inputs.contains(i) || i == from) by {
                assert(step.inputs[options.inputs.len() as int] == from);
                if options.inputs.contains(i) {
                    let k = choose|k: int|
                        0 <= k < options.inputs.len() && options.inputs[k] == i;
                    assert(step.inputs[k] == i);
                }
            }
        }
        assert(is_input(args, from, i) <==> is_input(args, next, i) || i == from && word(
            args[from],
        ) is Input) by {
            if is_input(args, from, i) && !(is_read(args, from, i) && word(args[i]) is Input) {
                let s = choose|s: int| #[trigger]
                    is_read(args, from, s) && word(args[s]) is Separator && s < i;
                assert(is_read(args, next, s));
            }
            if is_input(args, next, i) && !(is_read(args, next, i) && word(args[i]) is Input) {
                let s = choose|s: int| #[trigger]
                    is_read(args, next, s) && word(args[s]) is Separator && s < i;
                assert(is_read(args, from, s));
            }
        }
    }
    assert forall|i: int| #[trigger] is_last_output(args, from, i) implies done.output == Some(
        i + 1,
    ) by {
        if i == from {
            if reads(args, next, Word::Output) {
                let j = choose|j: int| #[trigger]
                    is_read(args, next, j) && word(args[j]) == Word::Output;
                assert(is_read(args, from, j));
            }
        } else {
            assert(is_last_output(args, next, i));
        }
    }
}

proof fn lemma_run(args: Seq<Option<Seq<char>>>, from: int, options: OptionsView)
    requires
        0 <= from <= args.len(),
        forall|i: int| #[trigger] is_read(args, from, i) ==> verdict(args, i) is None,
    ensures
        match parsed_from(args, from, false, options) {
            Ok(ParseView::Run(done)) => are_options_of(args, from, options, done)
                && done.inputs.len() > 0,
            Ok(ParseView::Exit(_)) => false,
            Err(message) => {
                &&& message == "至少需要一个文件或目录"@
                &&& options.inputs.len() == 0
                &&& forall|i: int| !#[trigger] is_input(args, from, i)
            },
        },
    decreases args.len() - from,
{
    if from < args.len() {
        assert(is_read(args, from, from));
        let w = word(args[from]);
        if w is Separator {
            let i = from + 1;
            assert forall|s: int| #[trigger] is_read(args, from, s) implies s == from by {}
            if i < args.len() || options.inputs.len() > 0 {
                law_separator_ends_options(args, i, options);
                let tail = Seq::new((args.len() - i) as nat, |k: int| i + k);
                let inputs = options.inputs + tail;
                assert forall|k: int| #[trigger] inputs.contains(k) <==> options.inputs.contains(k)
                    || is_input(args, from, k) by {
                    if i <= k < args.len() {
                        assert(inputs[options.inputs.len() + (k - i)] == k);
                    }
                    if options.inputs.contains(k) {
                        let m = choose|m: int|
                            0 <= m < options.inputs.len() && options.inputs[m] == k;
                        assert(inputs[m] == k);
                    }
                    if inputs.contains(k) {
                        let m = choose|m: int| 0 <= m < inputs.len() && inputs[m] == k;
                        if m < options.inputs.len() {
                            assert(options.inputs[m] == k);
                        }
                    }
                }
            }
        } else {
            let next = next_read(args, from)->Some_0;
            let step = match w {
                Word::Recursive => OptionsView { recursive: true, ..options },
                Word::Force => OptionsView { force: true, ..options },
                Word::Info => OptionsView { info: true, ..options },
                Word::Output => OptionsView { output: Some(from + 1), ..options },
                _ => with_input(options, from),
            };
            assert forall|i: int| #[trigger] is_read(args, next, i) implies verdict(args, i)
                is None by {
                assert(is_read(args, from, i));
            }
            lemma_run(args, next, step);
            assert(parsed_from(args, from, false, options) == parsed_from(args, next, false, step));
            match parsed_from(args, next, false, step) {
                Ok(ParseView::Run(done)) => {
                    lemma_step(args, from, next, options, step, done);
                },
                _ => {
                    assert forall|i: int| !#[trigger] is_input(args, from, i) by {
                        assert(!is_input(args, next, i));
                        if is_input(args, from, i) && !(is_read(args, from, i) && word(
                            args[i],
                        ) is Input) {
                            let s = choose|s: int| #[trigger]
                                is_read(args, from, s) && word(args[s]) is Separator && s < i;
                            assert(is_read(args, next, s));
                        }
                    }
                },
            }
        }
    }
}

/// An argument that decides on its own, and is read as an option, decides the
/// command line: it asks for help or the version, it is unknown, or it is an
/// `--output` without a directory.
pub proof fn law_verdict_decides(args: Seq<Option<Seq<char>>>, i: int)
    requires
        is_read(args, 0, i),
        verdict(args, i) is Some,
    ensures
        parsed(args) == verdict(args, i)->Some_0,
{
    lemma_verdict(args, 0, i, no_options());
}

/// Where no argument decides on its own, the command line leads to work, with
/// the options and inputs that are read, unless there is no input.
pub proof fn law_else_it_runs(args: Seq<Option<Seq<char>>>)
    requires
        forall|i: int| #[trigger] is_read(args, 0, i) ==> verdict(args, i) is None,
    ensures
        if exists|i: int| #[trigger] is_input(args, 0, i) {
            &&& parsed(args) matches Ok(ParseView::Run(done))
            &&& are_options_of(args, 0, no_options(), done)
        } else {
            parsed(args) == Err::<ParseView, Seq<char>>("至少需要一个文件或目录"@)
        },
{
    lemma_run(args, 0, no_options());
    match parsed(args) {
        Ok(ParseView::Run(done)) => {
            assert(done.inputs.contains(done.inputs[0]));
            assert(is_input(args, 0, done.inputs[0]));
        },
        _ => {},
    }
}

/// Whether an argument can be nothing but an input: it is no text, is empty, or
/// begins with something else than a hyphen.
pub open spec fn is_plain(arg: Option<Seq<char>>) -> bool {
    match arg {
        None => true,
        Some(a) => a.len() == 0 || a[0] != '-',
    }
}

/// Whether an argument is one of two spellings.
pub open spec fn is_spelled(arg: Option<Seq<char>>, short: Seq<char>, long: Seq<char>) -> bool {
    arg matches Some(a) && (a == short || a == long)
}

/// Whether an argument switches something on.
pub open spec fn is_switch(arg: Option<Seq<char>>) -> bool {
    ||| is_spelled(arg, "-r"@, "--recursive"@)
    ||| is_spelled(arg, "-f"@, "--force"@)
    ||| is_spelled(arg, "--info"@, "--info"@)
}

/// Whether an argument begins with a hyphen and is no option.
pub open spec fn is_unheard_of(arg: Option<Seq<char>>) -> bool {
    &&& !is_plain(arg)
    &&& !is_switch(arg)
    &&& !is_spelled(arg, "-o"@, "--output"@)
    &&& !is_spelled(arg, "-h"@, "--help"@)
    &&& !is_spelled(arg, "-V"@, "--version"@)
    &&& !is_spelled(arg, "--"@, "--"@)
}

/// The spellings of the options differ, and all begin with a hyphen.
proof fn lemma_spellings(arg: Option<Seq<char>>)
    ensures
        is_plain(arg) <==> word(arg) is Input,
        is_spelled(arg, "-r"@, "--recursive"@) <==> word(arg) is Recursive,
        is_spelled(arg, "-f"@, "--force"@) <==> word(arg) is Force,
        is_spelled(arg, "--info"@, "--info"@) <==> word(arg) is Info,
        is_spelled(arg, "-o"@, "--output"@) <==> word(arg) is Output,
        is_spelled(arg, "-h"@, "--help"@) <==> word(arg) is Help,
        is_spelled(arg, "-V"@, "--version"@) <==> word(arg) is Version,
        is_spelled(arg, "--"@, "--"@) <==> word(arg) is Separator,
        is_unheard_of(arg) <==> word(arg) is Unknown,
{
    reveal_strlit("-r");
    reveal_strlit("--recursive");
    reveal_strlit("-f");
    reveal_strlit("--force");
    reveal_strlit("--info");
    reveal_strlit("-o");
    reveal_strlit("--output");
    reveal_strlit("-h");
    reveal_strlit("--help");
    reveal_strlit("-V");
    reveal_strlit("--version");
    reveal_strlit("--");
    assert("-r"@[1] == 'r' && "-f"@[1] == 'f' && "-o"@[1] == 'o' && "-h"@[1] == 'h' && "-V"@[1] == 'V'
        && "--"@[1] == '-');
    assert("--recursive"@[2] == 'r' && "--force"@[2] == 'f' && "--info"@[2] == 'i' && "--output"@[2]
        == 'o' && "--help"@[2] == 'h' && "--version"@[2] == 'v');
}

/// Arguments that are plain or switch something on are all read, up to the first
/// that is neither.
proof fn lemma_reads_through(args: Seq<Option<Seq<char>>>, from: int, i: int)
    requires
        0 <= from <= i < args.len(),
        forall|k: int|
            from <= k < i ==> is_plain(#[trigger] args[k]) || is_switch(args[k]),
    ensures
        is_read(args, from, i),
    decreases i - from,
{
    if from < i {
        lemma_spellings(args[from]);
        assert(is_plain(args[from]) || is_switch(args[from]));
        lemma_reads_through(args, from + 1, i);
    }
}

/// Where reading jumps, nothing before the jump is read from there on.
proof fn lemma_read_from(args: Seq<Option<Seq<char>>>, from: int, at: int, i: int)
    requires
        0 <= from <= at < args.len(),
        is_read(args, from, at),
    ensures
        at <= i ==> (is_read(args, from, i) <==> is_read(args, at, i)),
    decreases at - from,
{
    if from != at {
        let next = next_read(args, from)->Some_0;
        lemma_is_read(args, next, at);
        lemma_read_from(args, next, at, i);
    }
}

/// The options that a command line sets, in terms of the arguments that are read.
proof fn lemma_options(args: Seq<Option<Seq<char>>>, done: OptionsView)
    requires
        are_options_of(args, 0, no_options(), done),
    ensures
        done.recursive <==> exists|i: int| #[trigger]
            is_read(args, 0, i) && is_spelled(args[i], "-r"@, "--recursive"@),
        done.force <==> exists|i: int| #[trigger]
            is_read(args, 0, i) && is_spelled(args[i], "-f"@, "--force"@),
        done.info <==> exists|i: int| #[trigger]
            is_read(args, 0, i) && is_spelled(args[i], "--info"@, "--info"@),
{
    assert forall|i: int| #[trigger] is_read(args, 0, i) implies (is_spelled(
        args[i],
        "-r"@,
        "--recursive"@,
    ) <==> word(args[i]) == Word::Recursive) && (is_spelled(args[i], "-f"@, "--force"@) <==> word(
        args[i],
    ) == Word::Force) && (is_spelled(args[i], "--info"@, "--info"@) <==> word(args[i])
        == Word::Info) by {
        lemma_spellings(args[i]);
    }
}

proof fn lemma_plain_from(args: Seq<Option<Seq<char>>>, i: int, options: OptionsView)
    requires
        0 <= i <= args.len(),
        i < args.len() || options.inputs.len() > 0,
        forall|k: int| i <= k < args.len() ==> is_plain(#[trigger] args[k]),
    ensures
        parsed_from(args, i, false, options) == Ok::<ParseView, Seq<char>>(
            ParseView::Run(
                OptionsView {
                    inputs: options.inputs + Seq::new((args.len() - i) as nat, |k: int| i + k),
                    ..options
                },
            ),
        ),
    decreases args.len() - i,
{
    let rest = Seq::new((args.len() - i) as nat, |k: int| i + k);
    if i < args.len() {
        lemma_spellings(args[i]);
        let tail = Seq::new((args.len() - (i + 1)) as nat, |k: int| i + 1 + k);
        lemma_plain_from(args, i + 1, with_input(options, i));
        assert(options.inputs.push(i) + tail =~= options.inputs + rest);
    } else {
        assert(options.inputs + rest =~= options.inputs);
    }
}

/// Arguments that are no text, are empty or begin with anything but a hyphen are
/// inputs: a command line of nothing else runs with all of them, in their order,
/// and with nothing switched on. Without any there is nothing to do.
pub proof fn law_plain_arguments_are_inputs(args: Seq<Option<Seq<char>>>)
    requires
        forall|k: int|
            0 <= k < args.len() ==> (#[trigger] args[k] matches Some(a) ==> a.len() == 0 || a[0]
                != '-'),
    ensures
        args.len() > 0 ==> parsed(args) == Ok::<ParseView, Seq<char>>(
            ParseView::Run(
                OptionsView {
                    output: None,
                    recursive: false,
                    force: false,
                    info: false,
                    inputs: Seq::new(args.len(), |k: int| k),
                },
            ),
        ),
        args.len() == 0 ==> parsed(args) == Err::<ParseView, Seq<char>>("至少需要一个文件或目录"@),
{
    if args.len() > 0 {
        assert forall|k: int| 0 <= k < args.len() implies is_plain(#[trigger] args[k]) by {}
        lemma_plain_from(args, 0, no_options());
        assert(no_options().inputs + Seq::new(args.len(), |k: int| 0 + k) =~= Seq::new(
            args.len(),
            |k: int| k,
        ));
    }
}

/// Switches may stand anywhere among the inputs. Each switches on what it names
/// and nothing else, and the other arguments are the inputs.
#[verifier::rlimit(40)]
pub proof fn law_switches_and_inputs(args: Seq<Option<Seq<char>>>)
    requires
        forall|k: int| 0 <= k < args.len() ==> is_plain(#[trigger] args[k]) || is_switch(args[k]),
    ensures
        if exists|i: int| 0 <= i < args.len() && is_plain(#[trigger] args[i]) {
            &&& parsed(args) matches Ok(ParseView::Run(done))
            &&& done.output is None
            &&& done.recursive <==> exists|i: int|
                0 <= i < args.len() && is_spelled(#[trigger] args[i], "-r"@, "--recursive"@)
            &&& done.force <==> exists|i: int|
                0 <= i < args.len() && is_spelled(#[trigger] args[i], "-f"@, "--force"@)
            &&& done.info <==> exists|i: int|
                0 <= i < args.len() && is_spelled(#[trigger] args[i], "--info"@, "--info"@)
            &&& forall|i: int| #[trigger]
                done.inputs.contains(i) <==> 0 <= i < args.len() && is_plain(args[i])
            &&& forall|j: int, k: int|
                0 <= j < k < done.inputs.len() ==> done.inputs[j] < done.inputs[k]
        } else {
            parsed(args) == Err::<ParseView, Seq<char>>("至少需要一个文件或目录"@)
        },
{
    assert forall|i: int| #[trigger] is_read(args, 0, i) <==> 0 <= i < args.len() by {
        if 0 <= i < args.len() {
            lemma_reads_through(args, 0, i);
        }
        if is_read(args, 0, i) {
            lemma_is_read(args, 0, i);
        }
    }
    assert forall|i: int| 0 <= i < args.len() implies (word(#[trigger] args[i]) is Input
        <==> is_plain(args[i])) && (word(args[i]) is Input || word(args[i]) is Recursive || word(
        args[i],
    ) is Force || word(args[i]) is Info) by {
        lemma_spellings(args[i]);
        assert(is_plain(args[i]) || is_switch(args[i]));
    }
    assert forall|i: int| #[trigger] is_input(args, 0, i) <==> 0 <= i < args.len() && is_plain(
        args[i],
    ) by {
        if 0 <= i < args.len() {
            assert(is_read(args, 0, i));
        }
    }
    law_else_it_runs(args);
    law_run_has_inputs(args);
    if exists|i: int| 0 <= i < args.len() && is_plain(#[trigger] args[i]) {
        let i = choose|i: int| 0 <= i < args.len() && is_plain(#[trigger] args[i]);
        assert(is_input(args, 0, i));
        let done = parsed(args)->Ok_0->Run_0;
        lemma_options(args, done);
        assert(!reads(args, 0, Word::Output));
        if exists|i: int|
            0 <= i < args.len() && is_spelled(#[trigger] args[i], "-r"@, "--recursive"@) {
            let i = choose|i: int|
                0 <= i < args.len() && is_spelled(#[trigger] args[i], "-r"@, "--recursive"@);
            assert(is_read(args, 0, i));
        }
        if exists|i: int| 0 <= i < args.len() && is_spelled(#[trigger] args[i], "-f"@, "--force"@) {
            let i = choose|i: int|
                0 <= i < args.len() && is_spelled(#[trigger] args[i], "-f"@, "--force"@);
            assert(is_read(args, 0, i));
        }
        if exists|i: int|
            0 <= i < args.len() && is_spelled(#[trigger] args[i], "--info"@, "--info"@) {
            let i = choose|i: int|
                0 <= i < args.len() && is_spelled(#[trigger] args[i], "--info"@, "--info"@);
            assert(is_read(args, 0, i));
        }
        assert forall|i: int| #[trigger] done.inputs.contains(i) <==> 0 <= i < args.len()
            && is_plain(args[i]) by {
            assert(is_input(args, 0, i) <==> 0 <= i < args.len() && is_plain(args[i]));
            assert(!no_options().inputs.contains(i));
        }
    }
}

/// Behind inputs and switches, the first argument of another kind decides,
/// whatever follows: one that asks for help or the version; one that begins with
/// a hyphen and is no option, which is refused by its name; an `--output` at the
/// end.
pub proof fn law_first_other_argument_decides(args: Seq<Option<Seq<char>>>, i: int)
    requires
        0 <= i < args.len(),
        forall|k: int| 0 <= k < i ==> is_plain(#[trigger] args[k]) || is_switch(args[k]),
    ensures
        is_spelled(args[i], "-h"@, "--help"@) ==> parsed(args) == Ok::<ParseView, Seq<char>>(
            ParseView::Exit(Notice::Help),
        ),
        is_spelled(args[i], "-V"@, "--version"@) ==> parsed(args) == Ok::<ParseView, Seq<char>>(
            ParseView::Exit(Notice::Version),
        ),
        is_unheard_of(args[i]) ==> parsed(args) == Err::<ParseView, Seq<char>>(
            "未知选项: "@ + args[i]->Some_0,
        ),
        is_spelled(args[i], "-o"@, "--output"@) && i + 1 == args.len() ==> parsed(args) == Err::<
            ParseView,
            Seq<char>,
        >("--output 缺少目录参数"@),
{
    lemma_reads_through(args, 0, i);
    lemma_spellings(args[i]);
    if verdict(args, i) is Some {
        law_verdict_decides(args, i);
    }
}

/// The argument behind an `--output` is the output directory, whatever it looks
/// like, and nothing else; the other arguments mean what they mean without it.
#[verifier::rlimit(40)]
pub proof fn law_output_takes_the_next_argument(args: Seq<Option<Seq<char>>>, at: int)
    requires
        0 <= at,
        at + 1 < args.len(),
        is_spelled(args[at], "-o"@, "--output"@),
        forall|k: int|
            0 <= k < args.len() && k != at && k != at + 1 ==> is_plain(#[trigger] args[k])
                || is_switch(args[k]),
    ensures
        if exists|i: int|
            0 <= i < args.len() && i != at + 1 && is_plain(#[trigger] args[i]) {
            &&& parsed(args) matches Ok(ParseView::Run(done))
            &&& done.output == Some(at + 1)
            &&& done.recursive <==> exists|i: int|
                0 <= i < args.len() && i != at + 1 && is_spelled(
                    #[trigger] args[i],
                    "-r"@,
                    "--recursive"@,
                )
            &&& done.force <==> exists|i: int|
                0 <= i < args.len() && i != at + 1 && is_spelled(
                    #[trigger] args[i],
                    "-f"@,
                    "--force"@,
                )
            &&& done.info <==> exists|i: int|
                0 <= i < args.len() && i != at + 1 && is_spelled(
                    #[trigger] args[i],
                    "--info"@,
                    "--info"@,
                )
            &&& forall|i: int| #[trigger]
                done.inputs.contains(i) <==> 0 <= i < args.len() && i != at + 1 && is_plain(args[i])
        } else {
            parsed(args) == Err::<ParseView, Seq<char>>("至少需要一个文件或目录"@)
        },
{
    lemma_spellings(args[at]);
    lemma_reads_through(args, 0, at);
    assert forall|i: int| #[trigger] is_read(args, 0, i) <==> 0 <= i < args.len() && i != at
        + 1 by {
        if 0 <= i <= at {
            lemma_reads_through(args, 0, i);
        } else {
            if is_read(args, 0, i) {
                lemma_is_read(args, 0, i);
                lemma_read_from(args, 0, at, i);
                if i != at {
                    lemma_is_read(args, at + 2, i);
                }
            }
            if at + 2 <= i < args.len() {
                lemma_reads_through(args, at + 2, i);
                lemma_read_from(args, 0, at, i);
            }
        }
    }
    assert forall|i: int| 0 <= i < args.len() && i != at + 1 implies (word(#[trigger] args[i])
        is Input <==> is_plain(args[i])) && (word(args[i]) is Output <==> i == at) && (word(args[i])
        is Input || word(args[i]) is Recursive || word(args[i]) is Force || word(args[i]) is Info
        || i == at) by {
        lemma_spellings(args[i]);
        if i != at {
            assert(is_plain(args[i]) || is_switch(args[i]));
        }
    }
    assert forall|i: int| #[trigger] is_input(args, 0, i) <==> 0 <= i < args.len() && i != at + 1
        && is_plain(args[i]) by {
        if 0 <= i < args.len() && i != at + 1 {
            assert(is_read(args, 0, i));
        }
    }
    law_else_it_runs(args);
    if exists|i: int| 0 <= i < args.len() && i != at + 1 && is_plain(#[trigger] args[i]) {
        let i = choose|i: int| 0 <= i < args.len() && i != at + 1 && is_plain(#[trigger] args[i]);
        assert(is_input(args, 0, i));
        let done = parsed(args)->Ok_0->Run_0;
        lemma_options(args, done);
        assert(is_last_output(args, 0, at));
        assert forall|i: int| 0 <= i < args.len() && i != at + 1 implies is_read(args, 0, i)
            && #[trigger] args[i] == args[i] by {}
        assert forall|i: int| #[trigger] done.inputs.contains(i) <==> 0 <= i < args.len() && i != at
            + 1 && is_plain(args[i]) by {
            assert(is_input(args, 0, i) <==> 0 <= i < args.len() && i != at + 1 && is_plain(
                args[i],
            ));
            assert(!no_options().inputs.contains(i));
        }
    }
}

/// A `--` behind inputs and switches is itself no input; all that follows it is.
#[verifier::rlimit(40)]
pub proof fn law_all_behind_separator_is_input(args: Seq<Option<Seq<char>>>, at: int)
    requires
        0 <= at < args.len(),
        args[at] == Some("--"@),
        forall|k: int| 0 <= k < at ==> is_plain(#[trigger] args[k]) || is_switch(args[k]),
    ensures
        if at + 1 < args.len() || exists|i: int| 0 <= i < at && is_plain(#[trigger] args[i]) {
            &&& parsed(args) matches Ok(ParseView::Run(done))
            &&& done.output is None
            &&& done.recursive <==> exists|i: int|
                0 <= i < at && is_spelled(#[trigger] args[i], "-r"@, "--recursive"@)
            &&& done.force <==> exists|i: int|
                0 <= i < at && is_spelled(#[trigger] args[i], "-f"@, "--force"@)
            &&& done.info <==> exists|i: int|
                0 <= i < at && is_spelled(#[trigger] args[i], "--info"@, "--info"@)
            &&& forall|i: int| #[trigger]
                done.inputs.contains(i) <==> 0 <= i < at && is_plain(args[i]) || at < i < args.len()
        } else {
            parsed(args) == Err::<ParseView, Seq<char>>("至少需要一个文件或目录"@)
        },
{
    lemma_spellings(args[at]);
    lemma_reads_through(args, 0, at);
    assert forall|i: int| #[trigger] is_read(args, 0, i) <==> 0 <= i <= at by {
        if 0 <= i <= at {
            lemma_reads_through(args, 0, i);
        } else if is_read(args, 0, i) {
            lemma_is_read(args, 0, i);
            lemma_read_from(args, 0, at, i);
        }
    }
    assert forall|i: int| 0 <= i < at implies (word(#[trigger] args[i]) is Input <==> is_plain(
        args[i],
    )) && (word(args[i]) is Input || word(args[i]) is Recursive || word(args[i]) is Force || word(
        args[i],
    ) is Info) by {
        lemma_spellings(args[i]);
        assert(is_plain(args[i]) || is_switch(args[i]));
    }
    assert forall|i: int| #[trigger] is_input(args, 0, i) <==> 0 <= i < at && is_plain(args[i])
        || at < i < args.len() by {
        if 0 <= i < at {
            assert(is_read(args, 0, i));
        }
        assert(is_read(args, 0, at));
    }
    law_else_it_runs(args);
    if at + 1 < args.len() || exists|i: int| 0 <= i < at && is_plain(#[trigger] args[i]) {
        if at + 1 < args.len() {
            assert(is_input(args, 0, at + 1));
        } else {
            let i = choose|i: int| 0 <= i < at && is_plain(#[trigger] args[i]);
            assert(is_input(args, 0, i));
        }
        let done = parsed(args)->Ok_0->Run_0;
        lemma_options(args, done);
        assert(!is_switch(args[at]) && !(word(args[at]) is Output));
        assert(!reads(args, 0, Word::Output));
        assert forall|i: int| 0 <= i < at implies is_read(args, 0, i) && #[trigger] args[i]
            == args[i] by {}
        assert forall|i: int| #[trigger] done.inputs.contains(i) <==> 0 <= i < at && is_plain(
            args[i],
        ) || at < i < args.len() by {
            assert(is_input(args, 0, i) <==> 0 <= i < at && is_plain(args[i]) || at < i
                < args.len());
            assert(!no_options().inputs.contains(i));
        }
    }
}

/// Whether a text begins with a hyphen.
fn begins_with_hyphen(s: &str) -> (yes: bool)
    ensures
        yes == (s@.len() > 0 && s@[0] == '-'),
{
    let chars: Vec<char> = text::chars_of(s);
    chars.len() > 0 && chars[0] == '-'
}

/// Reads a command line, without the name of the program.
pub fn parse_args(args: &Vec<Option<String>>) -> (result: Result<ParseResult, String>)
    ensures
        agrees(result, parsed(argument_texts(args@))),
{
    let mut options: Options = Options {
        output: None,
        recursive: false,
        force: false,
        info: false,
        inputs: Vec::new(),
    };
    let mut positional_only: bool = false;
    let mut i: usize = 0;
    let ghost words = argument_texts(args@);
    assert(options@.inputs =~= no_options().inputs);
    while i < args.len()
        invariant
            i <= args.len(),
            words == argument_texts(args@),
            parsed(words) == parsed_from(words, i as int, positional_only, options@),
        decreases args.len() - i,
    {
        let ghost before = options@;
        let mut is_input: bool = true;
        if !positional_only {
            match &args[i] {
                None => {},
                Some(argument) => {
                    let a: &str = argument.as_str();
                    if text::same_text(a, "--") {
                        positional_only = true;
                        is_input = false;
                    } else if text::same_text(a, "-h") || text::same_text(a, "--help") {
                        return Ok(ParseResult::Exit(Notice::Help));
                    } else if text::same_text(a, "-V") || text::same_text(a, "--version") {
                        return Ok(ParseResult::Exit(Notice::Version));
                    } else if text::same_text(a, "-r") || text::same_text(a, "--recursive") {
                        options.recursive = true;
                        is_input = false;
                    } else if text::same_text(a, "-f") || text::same_text(a, "--force") {
                        options.force = true;
                        is_input = false;
                    } else if text::same_text(a, "--info") {
                        options.info = true;
                        is_input = false;
                    } else if text::same_text(a, "-o") || text::same_text(a, "--output") {
                        if args.len() - i < 2 {
                            return Err(String::from_str("--output 缺少目录参数"));
                        }
                        i = i + 1;
                        options.output = Some(i);
                        is_input = false;
                    } else if begins_with_hyphen(a) {
                        let mut message: String = String::from_str("未知选项: ");
                        message.append(a);
                        return Err(message);
                    }
                },
            }
        }
        if is_input {
            options.inputs.push(i);
            assert(options@.inputs =~= before.inputs.push(i as int));
        }
        i = i + 1;
    }
    if options.inputs.len() == 0 {
        return Err(String::from_str("至少需要一个文件或目录"));
    }
    Ok(ParseResult::Run(options))
}

} // verus!
