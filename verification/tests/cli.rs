use cordy::cli::{parse_args, Command, Mode};

fn args(xs: &[&str]) -> Vec<String> {
    xs.iter().map(|x| String::from(*x)).collect()
}

#[test]
fn no_arguments_runs_the_repl() {
    match parse_args(args(&["cordy"])) {
        Command::Run(o) => {
            assert!(o.file.is_none());
            assert!(o.mode == Mode::Default);
        },
        _ => panic!("expected to run"),
    }
}

#[test]
fn flags_then_file_then_program_arguments() {
    match parse_args(args(&["cordy", "-d", "--optimize", "main.cor", "-h", "x"])) {
        Command::Run(o) => {
            assert_eq!(o.file, Some(String::from("main.cor")));
            assert_eq!(o.args, args(&["-h", "x"]));
            assert!(o.mode == Mode::Disassembly);
            assert!(o.optimize);
            assert!(!o.no_line_numbers);
        },
        _ => panic!("expected to run"),
    }
}

#[test]
fn help_and_repeated_modes() {
    assert!(matches!(parse_args(args(&["cordy", "--help"])), Command::Help));
    assert!(matches!(parse_args(args(&["cordy", "-d", "--disassembly"])), Command::Stop));
    let mut m = Mode::Disassembly;
    assert_eq!(m.set(Mode::Disassembly), Err(String::from("Must only specify one of --disassembly")));
}
