use cordy::reporting::{Location, SourceView};
use cordy::vm::error::{RuntimeError, StackFrame};
use cordy::vm::value::FunctionImpl;
use cordy::vm::CallFrame;

fn frame(return_ip: usize) -> CallFrame {
    CallFrame { return_ip, frame_pointer: 0 }
}

#[test]
fn stack_trace_collapses_repeats() {
    let mut locations = vec![Location { start: 0, width: 1 }; 30];
    locations[15] = Location { start: 4, width: 1 };
    locations[4] = Location { start: 2, width: 1 };
    let functions = vec![FunctionImpl { head: 10, tail: 20, name: String::from("f"), args: vec![String::from("x")] }];
    let stack = vec![frame(5), frame(16), frame(16), frame(16)];
    let e = RuntimeError::ValueErrorValueMustBeNonZero.with_stacktrace(12, &stack, &functions, &locations);
    assert!(matches!(e.error, RuntimeError::ValueErrorValueMustBeNonZero));
    assert_eq!(e.target, Location { start: 0, width: 1 });
    assert_eq!(e.stack.len(), 4);
    assert!(matches!(&e.stack[2], StackFrame::Repeat(1)));
    let view = SourceView::new(String::from("<test>"), String::from("a\nb\nc\nd"));
    let mut text = String::new();
    e.add_stack_trace_elements(&view, &mut text);
    assert_eq!(text, "  at: `f(x)` (line 3)\n  at: `f(x)` (line 3)\n  ... above line repeated 1 more time(s) ...\n  at: `f(x)` (line 2)\n");
}

#[test]
fn frames_outside_functions_are_the_script() {
    let locations = vec![Location { start: 0, width: 1 }; 10];
    let functions: Vec<FunctionImpl> = Vec::new();
    let e = RuntimeError::RuntimeExit.with_stacktrace(3, &vec![frame(0), frame(3)], &functions, &locations);
    assert_eq!(e.stack.len(), 1);
    match &e.stack[0] {
        StackFrame::Simple(ip, _, name) => {
            assert_eq!(*ip, 2);
            assert_eq!(name, "<script>");
        },
        other => panic!("unexpected: {:?}", other),
    }
}

#[test]
fn lines_are_counted_from_zero() {
    let view = SourceView::new(String::from("x"), String::from("one\ntwo\nthree"));
    assert_eq!(view.lineno(Location { start: 0, width: 1 }), 0);
    assert_eq!(view.lineno(Location { start: 5, width: 1 }), 1);
    assert_eq!(view.lineno(Location { start: 100, width: 1 }), 2);
}
