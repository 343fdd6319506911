use cordy::stdlib::strings::{
    escape_regex, format_string, join, replace, search, split, to_bin, to_char, to_hex, to_lower,
    to_ord, to_upper, trim, try_replace, try_search,
};
use cordy::vm::error::RuntimeError;
use cordy::vm::value::Value;

fn s(x: &str) -> Value {
    Value::Str(String::from(x))
}

fn text(v: Result<Value, RuntimeError>) -> String {
    match v {
        Ok(Value::Str(x)) => x,
        other => panic!("not a string: {:?}", other),
    }
}

fn texts(v: Result<Value, RuntimeError>) -> Vec<String> {
    match v {
        Ok(Value::List(xs)) => xs.into_iter().map(|x| match x {
            Value::Str(t) => t,
            other => panic!("not a string: {:?}", other),
        }).collect(),
        other => panic!("not a list: {:?}", other),
    }
}

#[test]
fn format_pads_numbers_and_strings() {
    assert_eq!(text(format_string(&String::from("%d"), Value::Int(5))), "5");
    assert_eq!(text(format_string(&String::from("%4d|"), Value::Int(-5))), "  -5|");
    assert_eq!(text(format_string(&String::from("%04d"), Value::Int(-5))), "-005");
    assert_eq!(text(format_string(&String::from("%x %b"), Value::Vector(vec![Value::Int(255), Value::Int(5)]))), "ff 101");
    assert_eq!(text(format_string(&String::from("%04x"), Value::Int(10))), "000a");
    assert_eq!(text(format_string(&String::from("%x"), Value::Int(-1))), "ffffffffffffffff");
    assert_eq!(text(format_string(&String::from("[%5s]"), s("ab"))), "[ab   ]");
    assert_eq!(text(format_string(&String::from("[%05s]"), s("ab"))), "[ab   ]");
    assert_eq!(text(format_string(&String::from("100%%"), Value::Vector(vec![]))), "100%");
    assert_eq!(text(format_string(&String::from("%s"), Value::Int(12))), "12");
}

#[test]
fn format_errors() {
    assert!(matches!(format_string(&String::from("%d"), s("a")), Err(RuntimeError::TypeErrorArgMustBeInt(Value::Str(_)))));
    assert!(matches!(format_string(&String::from("%d %d"), Value::Int(1)), Err(RuntimeError::ValueErrorMissingRequiredArgumentInStringFormatting)));
    assert!(matches!(format_string(&String::from("x"), Value::Int(1)), Err(RuntimeError::ValueErrorNotAllArgumentsUsedInStringFormatting(Value::Int(1)))));
    assert!(matches!(format_string(&String::from("%q"), Value::Int(1)), Err(RuntimeError::ValueErrorInvalidFormatCharacter(Some('q')))));
    assert!(matches!(format_string(&String::from("%"), Value::Int(1)), Err(RuntimeError::ValueErrorInvalidFormatCharacter(None))));
    assert!(matches!(format_string(&String::from("%00d"), Value::Int(1)), Err(RuntimeError::ValueErrorInvalidFormatCharacter(Some('0')))));
}

#[test]
fn characters_and_codes() {
    assert_eq!(text(to_char(Value::Int(65))), "A");
    assert!(matches!(to_char(Value::Int(0)), Err(RuntimeError::ValueErrorInvalidCharacterOrdinal(0))));
    assert!(matches!(to_char(Value::Int(0xD800)), Err(RuntimeError::ValueErrorInvalidCharacterOrdinal(0xD800))));
    assert!(matches!(to_ord(s("a")), Ok(Value::Int(97))));
    assert!(matches!(to_ord(s("ab")), Err(RuntimeError::TypeErrorArgMustBeChar(_))));
    assert!(matches!(to_ord(s("é")), Err(RuntimeError::TypeErrorArgMustBeChar(_))));
    assert!(matches!(to_ord(Value::Int(1)), Err(RuntimeError::TypeErrorArgMustBeStr(Value::Int(1)))));
    assert_eq!(text(to_hex(Value::Int(255))), "ff");
    assert_eq!(text(to_bin(Value::Int(6))), "110");
    assert!(matches!(to_hex(Value::Nil), Err(RuntimeError::TypeErrorArgMustBeInt(Value::Nil))));
}

#[test]
fn case_and_trimming() {
    assert_eq!(text(to_lower(s("AbC"))), "abc");
    assert_eq!(text(to_upper(s("AbC"))), "ABC");
    assert_eq!(text(trim(s("  a b \t\n"))), "a b");
    assert_eq!(text(trim(s("   "))), "");
    assert!(matches!(trim(Value::Int(3)), Err(RuntimeError::TypeErrorArgMustBeStr(Value::Int(3)))));
}

#[test]
fn joining() {
    let xs = Value::List(vec![Value::Int(1), s("a"), Value::Nil]);
    assert_eq!(text(join(s(", "), xs)), "1, a, nil");
    assert_eq!(text(join(s("-"), s("abc"))), "a-b-c");
    assert_eq!(text(join(s("-"), Value::List(vec![]))), "");
    assert!(matches!(join(s(","), Value::Int(1)), Err(RuntimeError::TypeErrorArgMustBeIterable(Value::Int(1)))));
    assert!(matches!(join(Value::Int(1), Value::List(vec![])), Err(RuntimeError::TypeErrorArgMustBeStr(Value::Int(1)))));
}

#[test]
fn escaping() {
    assert_eq!(escape_regex(&String::from("a\tb\nc\r")), "a\\tb\\nc\\r");
}

#[test]
fn replacing() {
    assert_eq!(text(replace(s("[0-9]+"), s("#"), s("a1b22c"))), "a#b#c");
    assert_eq!(text(replace(s("(a)(b)"), s("$2$1"), s("abab"))), "baba");
    assert!(matches!(replace(s("("), s(""), s("x")), Err(RuntimeError::ValueErrorCannotCompileRegex(_, _))));
    assert!(matches!(replace(Value::Int(1), s(""), s("x")), Err(RuntimeError::TypeErrorArgMustBeStr(Value::Int(1)))));
    assert!(matches!(try_replace(s("a"), s("b"), s("aa")), Some(Ok(Value::Str(_)))));
}

#[test]
fn searching() {
    match search(s("([a-z])([0-9])"), s("a1 b2 c")) {
        Ok(Value::List(rows)) => {
            assert_eq!(rows.len(), 2);
            match &rows[1] {
                Value::Vector(gs) => {
                    assert_eq!(gs.len(), 3);
                    assert!(matches!(&gs[0], Value::Str(x) if x == "b2"));
                    assert!(matches!(&gs[2], Value::Str(x) if x == "2"));
                },
                other => panic!("not a vector: {:?}", other),
            }
        },
        other => panic!("not a list: {:?}", other),
    }
    assert!(try_search(s("x*"), s("abc")).is_none());
    assert!(try_search(s("(a)|b"), s("b")).is_none());
    assert!(matches!(try_search(s("[0-9]"), s("a1")), Some(Ok(Value::List(_)))));
}

#[test]
fn splitting() {
    assert_eq!(texts(split(s(","), s("a,b,,c"))), vec!["a", "b", "", "c"]);
    assert_eq!(texts(split(s(""), s("héé"))), vec!["h", "é", "é"]);
    assert_eq!(texts(split(s(" +"), s("ä  b c"))), vec!["ä", "b", "c"]);
    assert_eq!(texts(split(s("\n"), s("a\nb"))), vec!["a", "b"]);
    assert!(matches!(split(Value::Nil, s("a")), Err(RuntimeError::TypeErrorArgMustBeStr(Value::Nil))));
}

#[test]
fn function_replacer_on_paths_that_never_call_it() {
    let f = || Value::Function(cordy::vm::value::FunctionImpl { head: 0, tail: 1, name: String::from("f"), args: vec![] });
    assert!(matches!(replace(s("("), f(), s("x")), Err(RuntimeError::ValueErrorCannotCompileRegex(_, _))));
    assert!(matches!(replace(s("("), f(), Value::Int(3)), Err(RuntimeError::ValueErrorCannotCompileRegex(_, _))));
    assert!(matches!(replace(s("a"), f(), Value::Int(3)), Err(RuntimeError::TypeErrorArgMustBeStr(Value::Int(3)))));
}

#[test]
fn replacing_each_match_by_a_given_string() {
    use_replace_each();
}

fn use_replace_each() {
    let reps = |xs: &[&str]| xs.iter().map(|x| String::from(*x)).collect::<Vec<String>>();
    match cordy::stdlib::strings::replace_each(s("[0-9]+"), s("a1b22c"), reps(&["X", "YY"])) {
        Some(Ok(Value::Str(o))) => assert_eq!(o, "aXbYYc"),
        other => panic!("unexpected: {:?}", other),
    }
    match cordy::stdlib::strings::replace_each(s("x"), s("x"), reps(&[""])) {
        Some(Ok(Value::Str(o))) => assert_eq!(o, ""),
        other => panic!("unexpected: {:?}", other),
    }
    assert!(cordy::stdlib::strings::replace_each(s("[0-9]+"), s("a1b22c"), reps(&["X"])).is_none());
    assert!(matches!(cordy::stdlib::strings::replace_each(s("("), s("x"), reps(&[])), Some(Err(RuntimeError::ValueErrorCannotCompileRegex(_, _)))));
    assert!(matches!(cordy::stdlib::strings::replace_each(s("a"), Value::Int(2), reps(&[])), Some(Err(RuntimeError::TypeErrorArgMustBeStr(Value::Int(2))))));
}
