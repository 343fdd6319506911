//! The native functions of the standard library.
pub mod lib_list;
pub mod strings;

use vstd::prelude::*;

use crate::text::push_str;

verus! {

/// A function of the standard library, callable from the language.
#[derive(Eq, PartialEq, Debug, Clone, Copy)]
pub enum NativeFunction {
    Print,
    ToLower,
    ToUpper,
    Trim,
    Replace,
    Search,
    Split,
    Join,
    Char,
    Ord,
    Hex,
    Bin,
    Sum,
    Min,
    Max,
    Sort,
    Reverse,
    /// `map`
    MapEach,
    Filter,
    Reduce,
    Pop,
    Push,
    Last,
    Head,
    Init,
    Tail,
}

impl NativeFunction {
    /// The function's name, as its variant is written.
    pub open spec fn name(self) -> Seq<char> {
        match self {
            NativeFunction::Print => "Print"@,
            NativeFunction::ToLower => "ToLower"@,
            NativeFunction::ToUpper => "ToUpper"@,
            NativeFunction::Trim => "Trim"@,
            NativeFunction::Replace => "Replace"@,
            NativeFunction::Search => "Search"@,
            NativeFunction::Split => "Split"@,
            NativeFunction::Join => "Join"@,
            NativeFunction::Char => "Char"@,
            NativeFunction::Ord => "Ord"@,
            NativeFunction::Hex => "Hex"@,
            NativeFunction::Bin => "Bin"@,
            NativeFunction::Sum => "Sum"@,
            NativeFunction::Min => "Min"@,
            NativeFunction::Max => "Max"@,
            NativeFunction::Sort => "Sort"@,
            NativeFunction::Reverse => "Reverse"@,
            NativeFunction::MapEach => "Map"@,
            NativeFunction::Filter => "Filter"@,
            NativeFunction::Reduce => "Reduce"@,
            NativeFunction::Pop => "Pop"@,
            NativeFunction::Push => "Push"@,
            NativeFunction::Last => "Last"@,
            NativeFunction::Head => "Head"@,
            NativeFunction::Init => "Init"@,
            NativeFunction::Tail => "Tail"@,
        }
    }

    /// Appends the function's name at the end of `out`.
    pub fn push_name(&self, out: &mut String)
        ensures
            final(out)@ == old(out)@ + self.name(),
    {
        match self {
            NativeFunction::Print => push_str(out, "Print"),
            NativeFunction::ToLower => push_str(out, "ToLower"),
            NativeFunction::ToUpper => push_str(out, "ToUpper"),
            NativeFunction::Trim => push_str(out, "Trim"),
            NativeFunction::Replace => push_str(out, "Replace"),
            NativeFunction::Search => push_str(out, "Search"),
            NativeFunction::Split => push_str(out, "Split"),
            NativeFunction::Join => push_str(out, "Join"),
            NativeFunction::Char => push_str(out, "Char"),
            NativeFunction::Ord => push_str(out, "Ord"),
            NativeFunction::Hex => push_str(out, "Hex"),
            NativeFunction::Bin => push_str(out, "Bin"),
            NativeFunction::Sum => push_str(out, "Sum"),
            NativeFunction::Min => push_str(out, "Min"),
            NativeFunction::Max => push_str(out, "Max"),
            NativeFunction::Sort => push_str(out, "Sort"),
            NativeFunction::Reverse => push_str(out, "Reverse"),
            NativeFunction::MapEach => push_str(out, "Map"),
            NativeFunction::Filter => push_str(out, "Filter"),
            NativeFunction::Reduce => push_str(out, "Reduce"),
            NativeFunction::Pop => push_str(out, "Pop"),
            NativeFunction::Push => push_str(out, "Push"),
            NativeFunction::Last => push_str(out, "Last"),
            NativeFunction::Head => push_str(out, "Head"),
            NativeFunction::Init => push_str(out, "Init"),
            NativeFunction::Tail => push_str(out, "Tail"),
        }
    }
}

} // verus!
