//! The values of the language, and how they are written out.
use vstd::prelude::*;

use crate::text::{chars_of, decimal, push_char, push_decimal, push_str};

verus! {

/// A complex number with integer parts.
#[derive(Eq, PartialEq, Debug, Clone, Copy)]
pub struct C64 {
    pub re: i64,
    pub im: i64,
}

impl C64 {
    pub fn new(re: i64, im: i64) -> (r: C64)
        ensures
            r == (C64 { re, im }),
    {
        C64 { re, im }
    }
}

/// A compiled function: its name, parameter names, and the first and last instruction of its code.
#[derive(Eq, PartialEq, Debug, Clone)]
pub struct FunctionImpl {
    pub head: usize,
    pub tail: usize,
    pub name: String,
    pub args: Vec<String>,
}

/// A struct type: its name and field names.
#[derive(Eq, PartialEq, Debug, Clone)]
pub struct StructTypeImpl {
    pub name: String,
    pub fields: Vec<String>,
}

/// The kinds of collection literal.
#[derive(Eq, PartialEq, Debug, Clone, Copy)]
pub enum LiteralType {
    List,
    Vector,
    /// A set (its variant is printed as `Set`)
    LinkedSet,
    Dict,
}

impl LiteralType {
    pub open spec fn name(self) -> Seq<char> {
        match self {
            LiteralType::List => "List"@,
            LiteralType::Vector => "Vector"@,
            LiteralType::LinkedSet => "Set"@,
            LiteralType::Dict => "Dict"@,
        }
    }

    /// Appends the literal type's name at the end of `out`.
    pub fn push_name(&self, out: &mut String)
        ensures
            final(out)@ == old(out)@ + self.name(),
    {
        match self {
            LiteralType::List => push_str(out, "List"),
            LiteralType::Vector => push_str(out, "Vector"),
            LiteralType::LinkedSet => push_str(out, "Set"),
            LiteralType::Dict => push_str(out, "Dict"),
        }
    }
}

/// A value of the language.
#[derive(Debug)]
pub enum Value {
    Nil,
    Bool(bool),
    Int(i64),
    Complex(C64),
    Str(String),
    /// Elements in order.
    List(Vec<Value>),
    /// Elements in insertion order.
    LinkedSet(Vec<Value>),
    /// Entries (key, value) in insertion order.
    Dict(Vec<(Value, Value)>),
    Vector(Vec<Value>),
    Function(FunctionImpl),
    StructType(StructTypeImpl),
}

/// The strings of `xs` joined by `sep`.
pub open spec fn join_strings(xs: Seq<String>, sep: Seq<char>) -> Seq<char>
    decreases xs.len(),
{
    if xs.len() == 0 {
        seq![]
    } else if xs.len() == 1 {
        xs[0]@
    } else {
        join_strings(xs.drop_last(), sep) + sep + xs.last()@
    }
}

/// Appends the strings of `xs` joined by `sep` at the end of `out`.
pub fn push_joined(out: &mut String, xs: &Vec<String>, sep: &str)
    ensures
        final(out)@ == old(out)@ + join_strings(xs@, sep@),
{
    let mut k: usize = 0;
    while k < xs.len()
        invariant
            k <= xs.len(),
            out@ == old(out)@ + join_strings(xs@.take(k as int), sep@),
        decreases xs.len() - k,
    {
        if k > 0 {
            push_str(out, sep);
        }
        push_str(out, xs[k].as_str());
        proof {
            assert(xs@.take(k + 1 as int).drop_last() =~= xs@.take(k as int));
        }
        k = k + 1;
    }
    proof {
        assert(xs@.take(xs.len() as int) =~= xs@);
    }
}

impl FunctionImpl {
    /// The function's signature: its name, then its parameters in parentheses.
    pub open spec fn signature(self) -> Seq<char> {
        self.name@ + "("@ + join_strings(self.args@, ", "@) + ")"@
    }

    /// Appends the function's signature at the end of `out`.
    pub fn push_str(&self, out: &mut String)
        ensures
            final(out)@ == old(out)@ + self.signature(),
    {
        push_str(out, self.name.as_str());
        push_str(out, "(");
        push_joined(out, &self.args, ", ");
        push_str(out, ")");
        proof {
            assert(old(out)@ + self.signature() =~= old(out)@ + self.name@ + "("@ + join_strings(self.args@, ", "@) + ")"@);
        }
    }

    /// The function's signature.
    pub fn as_str(&self) -> (r: String)
        ensures
            r@ == self.signature(),
    {
        let mut r = String::new();
        self.push_str(&mut r);
        r
    }
}

impl StructTypeImpl {
    /// The type's name, then its fields in parentheses.
    pub open spec fn signature(self) -> Seq<char> {
        self.name@ + "("@ + join_strings(self.fields@, ", "@) + ")"@
    }

    /// Appends the type's signature at the end of `out`.
    pub fn push_str(&self, out: &mut String)
        ensures
            final(out)@ == old(out)@ + self.signature(),
    {
        push_str(out, self.name.as_str());
        push_str(out, "(");
        push_joined(out, &self.fields, ", ");
        push_str(out, ")");
        proof {
            assert(old(out)@ + self.signature() =~= old(out)@ + self.name@ + "("@ + join_strings(self.fields@, ", "@) + ")"@);
        }
    }

    /// The type's signature.
    pub fn as_str(&self) -> (r: String)
        ensures
            r@ == self.signature(),
    {
        let mut r = String::new();
        self.push_str(&mut r);
        r
    }
}

/// A complex number written as `re+imi` (or `re-imi`).
pub open spec fn complex_repr(c: C64) -> Seq<char> {
    decimal(c.re as int) + (if c.im >= 0 { "+"@ } else { seq![] }) + decimal(c.im as int) + "i"@
}

/// How a value is written as a literal of the language.
pub open spec fn repr(v: Value) -> Seq<char>
    decreases v, 1nat,
{
    match v {
        Value::Nil => "nil"@,
        Value::Bool(b) => if b { "true"@ } else { "false"@ },
        Value::Int(i) => decimal(i as int),
        Value::Complex(c) => complex_repr(c),
        Value::Str(s) => "'"@ + s@ + "'"@,
        Value::List(xs) => "["@ + reprs(xs@) + "]"@,
        Value::LinkedSet(xs) => "{"@ + reprs(xs@) + "}"@,
        Value::Dict(kvs) => "{"@ + entry_reprs(kvs@) + "}"@,
        Value::Vector(xs) => if xs@.len() == 1 {
            "("@ + repr(xs@[0]) + ",)"@
        } else {
            "("@ + reprs(xs@) + ")"@
        },
        Value::Function(f) => "fn "@ + f.signature(),
        Value::StructType(t) => "struct "@ + t.signature(),
    }
}

/// The literals of `xs` separated by `, `.
pub open spec fn reprs(xs: Seq<Value>) -> Seq<char>
    decreases xs, 0nat,
{
    if xs.len() == 0 {
        seq![]
    } else if xs.len() == 1 {
        repr(xs[0])
    } else {
        reprs(xs.subrange(0, xs.len() - 1)) + ", "@ + repr(xs[xs.len() - 1])
    }
}

/// The entries of a dict written as `key: value`, separated by `, `.
pub open spec fn entry_reprs(kvs: Seq<(Value, Value)>) -> Seq<char>
    decreases kvs, 0nat,
{
    if kvs.len() == 0 {
        seq![]
    } else if kvs.len() == 1 {
        repr(kvs[0].0) + ": "@ + repr(kvs[0].1)
    } else {
        entry_reprs(kvs.subrange(0, kvs.len() - 1)) + ", "@ + repr(kvs[kvs.len() - 1].0) + ": "@ + repr(
            kvs[kvs.len() - 1].1,
        )
    }
}

/// How a value is written when printed: strings as they are, anything else as a literal.
pub open spec fn display(v: Value) -> Seq<char> {
    match v {
        Value::Str(s) => s@,
        _ => repr(v),
    }
}


impl Value {
    /// Appends how this value is written as a literal at the end of `out`.
    pub fn push_repr(&self, out: &mut String)
        ensures
            final(out)@ == old(out)@ + repr(*self),
        decreases self, 1nat,
    {
        match self {
            Value::Nil => push_str(out, "nil"),
            Value::Bool(b) => if *b { push_str(out, "true") } else { push_str(out, "false") },
            Value::Int(i) => push_decimal(out, *i),
            Value::Complex(c) => {
                push_decimal(out, c.re);
                if c.im >= 0 {
                    push_str(out, "+");
                }
                push_decimal(out, c.im);
                push_str(out, "i");
                proof {
                    assert(old(out)@ + repr(*self) =~= old(out)@ + decimal(c.re as int) + (if c.im >= 0 { "+"@ } else { seq![] }) + decimal(c.im as int) + "i"@);
                }
            },
            Value::Str(s) => {
                push_str(out, "'");
                push_str(out, s.as_str());
                push_str(out, "'");
                proof {
                    assert(old(out)@ + repr(*self) =~= old(out)@ + "'"@ + s@ + "'"@);
                }
            },
            Value::List(xs) => {
                push_str(out, "[");
                Value::push_reprs(xs, out);
                push_str(out, "]");
                proof {
                    assert(old(out)@ + repr(*self) =~= old(out)@ + "["@ + reprs(xs@) + "]"@);
                }
            },
            Value::LinkedSet(xs) => {
                push_str(out, "{");
                Value::push_reprs(xs, out);
                push_str(out, "}");
                proof {
                    assert(old(out)@ + repr(*self) =~= old(out)@ + "{"@ + reprs(xs@) + "}"@);
                }
            },
            Value::Dict(kvs) => {
                push_str(out, "{");
                Value::push_entry_reprs(kvs, out);
                push_str(out, "}");
                proof {
                    assert(old(out)@ + repr(*self) =~= old(out)@ + "{"@ + entry_reprs(kvs@) + "}"@);
                }
            },
            Value::Vector(xs) => {
                push_str(out, "(");
                if xs.len() == 1 {
                    xs[0].push_repr(out);
                    push_str(out, ",)");
                    proof {
                        assert(old(out)@ + repr(*self) =~= old(out)@ + "("@ + repr(xs@[0]) + ",)"@);
                    }
                } else {
                    Value::push_reprs(xs, out);
                    push_str(out, ")");
                    proof {
                        assert(old(out)@ + repr(*self) =~= old(out)@ + "("@ + reprs(xs@) + ")"@);
                    }
                }
            },
            Value::Function(f) => {
                push_str(out, "fn ");
                f.push_str(out);
                proof {
                    assert(old(out)@ + repr(*self) =~= old(out)@ + "fn "@ + f.signature());
                }
            },
            Value::StructType(t) => {
                push_str(out, "struct ");
                t.push_str(out);
                proof {
                    assert(old(out)@ + repr(*self) =~= old(out)@ + "struct "@ + t.signature());
                }
            },
        }
    }

    /// Appends the literals of `xs`, separated by `, `, at the end of `out`.
    fn push_reprs(xs: &Vec<Value>, out: &mut String)
        ensures
            final(out)@ == old(out)@ + reprs(xs@),
        decreases xs, 0nat,
    {
        let mut k: usize = 0;
        while k < xs.len()
            invariant
                k <= xs.len(),
                out@ == old(out)@ + reprs(xs@.take(k as int)),
            decreases xs.len() - k,
        {
            if k > 0 {
                push_str(out, ", ");
            }
            proof {
                assert(decreases_to!(xs => xs@));
                assert(decreases_to!(xs@ => xs@[k as int]));
            }
            xs[k].push_repr(out);
            proof {
                assert(xs@.take(k + 1 as int).subrange(0, k as int) =~= xs@.take(k as int));
            }
            k = k + 1;
        }
        proof {
            assert(xs@.take(xs.len() as int) =~= xs@);
        }
    }

    /// Appends the entries of a dict, written `key: value` and separated by `, `, at the end of `out`.
    fn push_entry_reprs(kvs: &Vec<(Value, Value)>, out: &mut String)
        ensures
            final(out)@ == old(out)@ + entry_reprs(kvs@),
        decreases kvs, 0nat,
    {
        let mut k: usize = 0;
        while k < kvs.len()
            invariant
                k <= kvs.len(),
                out@ == old(out)@ + entry_reprs(kvs@.take(k as int)),
            decreases kvs.len() - k,
        {
            if k > 0 {
                push_str(out, ", ");
            }
            proof {
                assert(decreases_to!(kvs => kvs@));
                assert(decreases_to!(kvs@ => kvs@[k as int]));
                assert(decreases_to!(kvs@[k as int] => kvs@[k as int].0));
                assert(decreases_to!(kvs@[k as int] => kvs@[k as int].1));
            }
            let (key, value) = &kvs[k];
            key.push_repr(out);
            push_str(out, ": ");
            value.push_repr(out);
            proof {
                assert(kvs@.take(k + 1 as int).subrange(0, k as int) =~= kvs@.take(k as int));
            }
            k = k + 1;
        }
        proof {
            assert(kvs@.take(kvs.len() as int) =~= kvs@);
        }
    }

    /// How this value is written as a literal.
    pub fn to_repr_str(&self) -> (r: String)
        ensures
            r@ == repr(*self),
    {
        let mut r = String::new();
        self.push_repr(&mut r);
        r
    }

    /// Appends how this value is printed at the end of `out`.
    pub fn push_display(&self, out: &mut String)
        ensures
            final(out)@ == old(out)@ + display(*self),
    {
        match self {
            Value::Str(s) => push_str(out, s.as_str()),
            _ => self.push_repr(out),
        }
    }

    /// How this value is printed.
    pub fn to_str(&self) -> (r: String)
        ensures
            r@ == display(*self),
    {
        let mut r = String::new();
        self.push_display(&mut r);
        r
    }
}

} // verus!

verus! {

// ===== Equality ===== //

/// The characters of each string.
pub open spec fn string_views(xs: Seq<String>) -> Seq<Seq<char>> {
    xs.map_values(|x: String| x@)
}

/// Two values are equal as the language compares them: by kind and contents, element by
/// element for collections.
pub open spec fn same(a: Value, b: Value) -> bool
    decreases a, 0nat,
{
    match a {
        Value::Nil => b is Nil,
        Value::Bool(x) => b matches Value::Bool(y) && x == y,
        Value::Int(x) => b matches Value::Int(y) && x == y,
        Value::Complex(x) => b matches Value::Complex(y) && x == y,
        Value::Str(x) => b matches Value::Str(y) && x@ == y@,
        Value::List(xs) => b matches Value::List(ys) && xs@.len() == ys@.len() && same_from(xs, ys@, 0),
        Value::LinkedSet(xs) => b matches Value::LinkedSet(ys) && xs@.len() == ys@.len() && same_from(xs, ys@, 0),
        Value::Vector(xs) => b matches Value::Vector(ys) && xs@.len() == ys@.len() && same_from(xs, ys@, 0),
        Value::Dict(kvs) => b matches Value::Dict(lws) && kvs@.len() == lws@.len() && same_entries_from(kvs, lws@, 0),
        Value::Function(f) => b matches Value::Function(g) && f.head == g.head && f.tail == g.tail
            && f.name@ == g.name@ && string_views(f.args@) == string_views(g.args@),
        Value::StructType(t) => b matches Value::StructType(u) && t.name@ == u.name@
            && string_views(t.fields@) == string_views(u.fields@),
    }
}

/// Elements `i` and after of `xs` and `ys` are the same, pairwise.
pub open spec fn same_from(xs: Vec<Value>, ys: Seq<Value>, i: nat) -> bool
    decreases xs, xs.len() - i,
{
    i >= xs.len() || (i < ys.len() && same(xs@[i as int], ys[i as int]) && same_from(xs, ys, i + 1))
}

/// Entries `i` and after of `kvs` and `lws` are the same, pairwise.
pub open spec fn same_entries_from(kvs: Vec<(Value, Value)>, lws: Seq<(Value, Value)>, i: nat) -> bool
    decreases kvs, kvs.len() - i,
{
    i >= kvs.len() || (i < lws.len() && same(kvs@[i as int].0, lws[i as int].0) && same(
        kvs@[i as int].1,
        lws[i as int].1,
    ) && same_entries_from(kvs, lws, i + 1))
}

fn str_eq(a: &String, b: &String) -> (r: bool)
    ensures
        r == (a@ == b@),
{
    let x = chars_of(a.as_str());
    let y = chars_of(b.as_str());
    if x.len() != y.len() {
        return false;
    }
    let mut k: usize = 0;
    while k < x.len()
        invariant
            k <= x.len() == y.len(),
            x@ == a@,
            y@ == b@,
            forall|j: int| 0 <= j < k ==> x@[j] == y@[j],
        decreases x.len() - k,
    {
        if x[k] != y[k] {
            return false;
        }
        k = k + 1;
    }
    proof {
        assert(x@ =~= y@);
    }
    true
}

fn strs_eq(a: &Vec<String>, b: &Vec<String>) -> (r: bool)
    ensures
        r == (string_views(a@) == string_views(b@)),
{
    if a.len() != b.len() {
        proof {
            assert(string_views(a@).len() != string_views(b@).len());
        }
        return false;
    }
    let mut k: usize = 0;
    while k < a.len()
        invariant
            k <= a.len() == b.len(),
            forall|j: int| 0 <= j < k ==> a@[j]@ == b@[j]@,
        decreases a.len() - k,
    {
        if !str_eq(&a[k], &b[k]) {
            proof {
                assert(string_views(a@)[k as int] != string_views(b@)[k as int]);
            }
            return false;
        }
        k = k + 1;
    }
    proof {
        assert(string_views(a@) =~= string_views(b@));
    }
    true
}

impl Value {
    /// Whether two values are equal as the language compares them: see `same`.
    #[verifier::loop_isolation(false)]
    pub fn equals(&self, other: &Value) -> (r: bool)
        ensures
            r == same(*self, *other),
        decreases *self,
    {
        let ghost a = *self;
        match (self, other) {
            (Value::Nil, Value::Nil) => true,
            (Value::Bool(x), Value::Bool(y)) => *x == *y,
            (Value::Int(x), Value::Int(y)) => *x == *y,
            (Value::Complex(x), Value::Complex(y)) => x.re == y.re && x.im == y.im,
            (Value::Str(x), Value::Str(y)) => str_eq(x, y),
            (Value::List(xs), Value::List(ys)) | (Value::LinkedSet(xs), Value::LinkedSet(ys)) | (
                Value::Vector(xs),
                Value::Vector(ys),
            ) => {
                if xs.len() != ys.len() {
                    return false;
                }
                let mut k: usize = 0;
                while k < xs.len()
                    invariant
                        k <= xs.len() == ys.len(),
                        same_from(*xs, ys@, 0) == same_from(*xs, ys@, k as nat),
                        a == *self,
                    decreases xs.len() - k,
                {
                    proof {
                        assert(decreases_to!(*self => *xs));
                        assert(decreases_to!(*xs => xs@));
                        assert(decreases_to!(xs@ => xs@[k as int]));
                    }
                    if !xs[k].equals(&ys[k]) {
                        return false;
                    }
                    k = k + 1;
                }
                true
            },
            (Value::Dict(kvs), Value::Dict(lws)) => {
                if kvs.len() != lws.len() {
                    return false;
                }
                let mut k: usize = 0;
                while k < kvs.len()
                    invariant
                        k <= kvs.len() == lws.len(),
                        same_entries_from(*kvs, lws@, 0) == same_entries_from(*kvs, lws@, k as nat),
                        a == *self,
                    decreases kvs.len() - k,
                {
                    proof {
                        assert(decreases_to!(*self => *kvs));
                        assert(decreases_to!(*kvs => kvs@));
                        assert(decreases_to!(kvs@ => kvs@[k as int]));
                        assert(decreases_to!(kvs@[k as int] => kvs@[k as int].0));
                        assert(decreases_to!(kvs@[k as int] => kvs@[k as int].1));
                    }
                    if !(kvs[k].0.equals(&lws[k].0) && kvs[k].1.equals(&lws[k].1)) {
                        return false;
                    }
                    k = k + 1;
                }
                true
            },
            (Value::Function(f), Value::Function(g)) => f.head == g.head && f.tail == g.tail && str_eq(
                &f.name,
                &g.name,
            ) && strs_eq(&f.args, &g.args),
            (Value::StructType(t), Value::StructType(u)) => str_eq(&t.name, &u.name) && strs_eq(
                &t.fields,
                &u.fields,
            ),
            _ => false,
        }
    }
}

} // verus!
