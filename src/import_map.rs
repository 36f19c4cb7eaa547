//! Request names that the import map of the framework resolves.
use vstd::prelude::*;

verus! {

/// The request of the module that provides MDX's JSX import source.
pub fn mdx_import_source_file() -> (r: String)
    ensures
        r@ == "@vercel/turbopack-next/mdx-import-source"@,
{
    "@vercel/turbopack-next/mdx-import-source".to_owned()
}

} // verus!
