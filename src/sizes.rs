//! The size of a library once its modules are expanded.
use vstd::prelude::*;
use vstd::utf8::encode_utf8;

verus! {

/// Code-size figures of one library target.
pub struct CodeSizes {
    /// The length in bytes of the library's root file with every out-of-line
    /// module expanded, or why the expansion failed.
    pub unmodified: Result<usize, String>,
}

impl CodeSizes {
    /// The figures for a library whose expansion gave `expanded`.
    pub fn new(expanded: Result<String, String>) -> (r: CodeSizes)
        ensures
            expanded matches Ok(s) ==> r.unmodified matches Ok(n) && n == encode_utf8(s@).len() as usize,
            expanded matches Err(e) ==> r.unmodified matches Err(m) && m == e,
    {
        match expanded {
            Ok(code) => CodeSizes { unmodified: Ok(code.as_str().len()) },
            Err(err) => CodeSizes { unmodified: Err(err) },
        }
    }
}

} // verus!
