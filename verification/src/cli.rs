//! Command line arguments: what to run, and how.
use vstd::prelude::*;

use crate::text::chars_of;

verus! {

#[derive(Eq, PartialEq, Debug, Clone, Copy, Structural)]
pub enum Mode {
    Default,
    Disassembly,
}

impl Mode {
    /// Sets the mode, which may only be set once.
    pub fn set(&mut self, new: Mode) -> (r: Result<(), String>)
        ensures
            *old(self) == Mode::Default ==> r is Ok && *final(self) == new,
            *old(self) != Mode::Default ==> (r matches Err(m) && m@ == "Must only specify one of --disassembly"@)
                && *final(self) == *old(self),
    {
        if *self != Mode::Default {
            Err(String::from_str("Must only specify one of --disassembly"))
        } else {
            *self = new;
            Ok(())
        }
    }
}

pub struct Options {
    pub file: Option<String>,
    pub args: Vec<String>,
    pub mode: Mode,
    pub optimize: bool,
    pub no_line_numbers: bool,
}

/// What the command line asks for.
pub enum Command {
    /// Show the help, and stop.
    Help,
    /// Stop: the arguments do not go together.
    Stop,
    Run(Options),
}

/// The options as plain values.
pub struct OptionsModel {
    pub file: Option<Seq<char>>,
    pub args: Seq<Seq<char>>,
    pub mode: Mode,
    pub optimize: bool,
    pub no_line_numbers: bool,
}

pub enum CommandModel {
    Help,
    Stop,
    Run(OptionsModel),
}

impl Options {
    pub open spec fn model(&self) -> OptionsModel {
        OptionsModel {
            file: match self.file {
                Some(f) => Some(f@),
                None => None,
            },
            args: self.args@.map_values(|a: String| a@),
            mode: self.mode,
            optimize: self.optimize,
            no_line_numbers: self.no_line_numbers,
        }
    }
}

impl Command {
    pub open spec fn model(&self) -> CommandModel {
        match self {
            Command::Help => CommandModel::Help,
            Command::Stop => CommandModel::Stop,
            Command::Run(o) => CommandModel::Run(o.model()),
        }
    }
}

/// Reading the options from argument `i` on: flags until the first argument that is not
/// one, which names the file; the arguments after it are the program's.
pub open spec fn parse_from(args: Seq<Seq<char>>, i: int, o: OptionsModel) -> CommandModel
    decreases args.len() - i,
{
    if i < 0 || i >= args.len() {
        CommandModel::Run(o)
    } else {
        let a = args[i];
        if a == "-h"@ || a == "--help"@ {
            CommandModel::Help
        } else if a == "-d"@ || a == "--disassembly"@ {
            if o.mode != Mode::Default {
                CommandModel::Stop
            } else {
                parse_from(args, i + 1, OptionsModel { mode: Mode::Disassembly, ..o })
            }
        } else if a == "-o"@ || a == "--optimize"@ {
            parse_from(args, i + 1, OptionsModel { optimize: true, ..o })
        } else if a == "--no-line-numbers"@ {
            parse_from(args, i + 1, OptionsModel { no_line_numbers: true, ..o })
        } else {
            CommandModel::Run(OptionsModel { file: Some(a), args: args.subrange(i + 1, args.len() as int), ..o })
        }
    }
}

/// What is read from `i` on depends only on the arguments from `i` on.
proof fn lemma_parse_from_suffix(a: Seq<Seq<char>>, b: Seq<Seq<char>>, i: int, o: OptionsModel)
    requires
        a.len() == b.len(),
        0 <= i,
        forall|k: int| i <= k < a.len() ==> #[trigger] a[k] == b[k],
    ensures
        parse_from(a, i, o) == parse_from(b, i, o),
    decreases a.len() - i,
{
    if i < a.len() {
        assert(a.subrange(i + 1, a.len() as int) =~= b.subrange(i + 1, b.len() as int));
        let o1 = OptionsModel { mode: Mode::Disassembly, ..o };
        let o2 = OptionsModel { optimize: true, ..o };
        let o3 = OptionsModel { no_line_numbers: true, ..o };
        lemma_parse_from_suffix(a, b, i + 1, o1);
        lemma_parse_from_suffix(a, b, i + 1, o2);
        lemma_parse_from_suffix(a, b, i + 1, o3);
    }
}

/// Each short flag means what its long form does, wherever a flag is read: `-h` is
/// `--help`, `-d` is `--disassembly` and `-o` is `--optimize`. `-o` and `--optimize` set
/// the optimize option and go on reading, and neither is taken as the file.
pub proof fn law_short_flags(args: Seq<Seq<char>>, i: int, o: OptionsModel)
    requires
        0 <= i < args.len(),
    ensures
        parse_from(args.update(i, "-h"@), i, o) == parse_from(args.update(i, "--help"@), i, o),
        parse_from(args.update(i, "-h"@), i, o) == CommandModel::Help,
        parse_from(args.update(i, "-d"@), i, o) == parse_from(args.update(i, "--disassembly"@), i, o),
        parse_from(args.update(i, "-o"@), i, o) == parse_from(args.update(i, "--optimize"@), i, o),
        parse_from(args.update(i, "-o"@), i, o) == parse_from(args, i + 1, OptionsModel { optimize: true, ..o }),
        parse_from(args.update(i, "-d"@), i, o) == if o.mode != Mode::Default {
            CommandModel::Stop
        } else {
            parse_from(args, i + 1, OptionsModel { mode: Mode::Disassembly, ..o })
        },
{
    reveal_strlit("-h");
    reveal_strlit("--help");
    reveal_strlit("-d");
    reveal_strlit("--disassembly");
    reveal_strlit("-o");
    reveal_strlit("--optimize");
    reveal_strlit("--no-line-numbers");
    assert("-d"@[1] != "-h"@[1] && "-o"@[1] != "-h"@[1] && "-o"@[1] != "-d"@[1]);
    assert("-d"@ != "-h"@ && "-o"@ != "-h"@ && "-o"@ != "-d"@);
    assert("-d"@.len() != "--help"@.len() && "-o"@.len() != "--help"@.len());
    assert("-o"@.len() != "--disassembly"@.len() && "-o"@.len() != "--no-line-numbers"@.len());
    assert("-d"@.len() != "--no-line-numbers"@.len() && "-d"@.len() != "--optimize"@.len());
    assert("--disassembly"@.len() != "--help"@.len() && "--disassembly"@.len() != "-h"@.len());
    assert("--optimize"@.len() != "--help"@.len() && "--optimize"@.len() != "-h"@.len());
    assert("--optimize"@.len() != "--disassembly"@.len() && "--optimize"@.len() != "-d"@.len());
    assert("--optimize"@.len() != "--no-line-numbers"@.len());
    let o1 = OptionsModel { mode: Mode::Disassembly, ..o };
    let o2 = OptionsModel { optimize: true, ..o };
    lemma_parse_from_suffix(args.update(i, "-d"@), args, i + 1, o1);
    lemma_parse_from_suffix(args.update(i, "--disassembly"@), args, i + 1, o1);
    lemma_parse_from_suffix(args.update(i, "-o"@), args, i + 1, o2);
    lemma_parse_from_suffix(args.update(i, "--optimize"@), args, i + 1, o2);
}

/// The options before any argument is read.
pub open spec fn default_options() -> OptionsModel {
    OptionsModel { file: None, args: seq![], mode: Mode::Default, optimize: false, no_line_numbers: false }
}

fn is(s: &String, lit: &str) -> (r: bool)
    ensures
        r == (s@ == lit@),
{
    let x = chars_of(s.as_str());
    let y = chars_of(lit);
    if x.len() != y.len() {
        return false;
    }
    let mut k: usize = 0;
    while k < x.len()
        invariant
            k <= x.len() == y.len(),
            x@ == s@,
            y@ == lit@,
            forall|j: int| 0 <= j < k ==> x@[j] == y@[j],
        decreases x.len() - k,
    {
        if x[k] != y[k] {
            return false;
        }
        k = k + 1;
    }
    proof {
        assert(x@ =~= y@);
    }
    true
}

/// Reads the command line; the first argument is the program's own name.
#[verifier::loop_isolation(false)]
pub fn parse_args(args: Vec<String>) -> (r: Command)
    requires
        args@.len() >= 1,
    ensures
        r.model() == parse_from(args@.map_values(|a: String| a@), 1, default_options()),
{
    let ghost views = args@.map_values(|a: String| a@);
    let n = args.len();
    let mut options = Options {
        file: None,
        args: Vec::new(),
        mode: Mode::Default,
        optimize: false,
        no_line_numbers: false,
    };
    let mut rest = args;
    rest.remove(0);
    proof {
        assert(options.model() == default_options()) by {
            assert(options.args@.map_values(|a: String| a@) =~= Seq::<Seq<char>>::empty());
        }
    }
    let mut i: usize = 1;
    while rest.len() > 0
        invariant
            i + rest@.len() == views.len(),
            views.len() == n,
            1 <= i,
            forall|j: int| 0 <= j < rest@.len() ==> (#[trigger] rest@[j])@ == views[i + j],
            options.file is None,
            options.args@.len() == 0,
            parse_from(views, i as int, options.model()) == parse_from(views, 1, default_options()),
        decreases rest.len(),
    {
        let arg = rest.remove(0);
        proof {
            assert(arg@ == views[i as int]);
        }
        if is(&arg, "-h") || is(&arg, "--help") {
            return Command::Help;
        } else if is(&arg, "-d") || is(&arg, "--disassembly") {
            if options.mode.set(Mode::Disassembly).is_err() {
                return Command::Stop;
            }
        } else if is(&arg, "-o") || is(&arg, "--optimize") {
            options.optimize = true;
        } else if is(&arg, "--no-line-numbers") {
            options.no_line_numbers = true;
        } else {
            options.file = Some(arg);
            options.args = rest;
            proof {
                assert(options.args@.map_values(|a: String| a@) =~= views.subrange(i + 1, views.len() as int));
            }
            return Command::Run(options);
        }
        i = i + 1;
        proof {
            assert(options.args@.map_values(|a: String| a@) =~= Seq::<Seq<char>>::empty());
        }
    }
    Command::Run(options)
}

} // verus!
