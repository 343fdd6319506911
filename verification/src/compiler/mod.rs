pub mod error_reporter;
pub mod parser;
pub mod scanner;

use vstd::prelude::*;

verus! {

/// The names of struct fields, by field index.
pub struct Fields {
    pub names: Vec<String>,
}

impl Fields {
    /// The name of field `fid`.
    pub fn get_field_name(&self, fid: u32) -> (r: String)
        requires
            fid < self.names.len(),
        ensures
            r == self.names@[fid as int],
    {
        self.names[fid as usize].clone()
    }
}

} // verus!
