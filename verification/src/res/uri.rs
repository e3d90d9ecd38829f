use vstd::prelude::*;

verus! {

/// Separates directories in a URI (`\`).
pub const DELIMITER: u8 = 92;

/// Separates the parts of an object-trait URI (`_`).
pub const OBJ_TRAIT_URI_DELIMITER: u8 = 95;

/// The path of a resource inside a package.
pub type Uri = Vec<u8>;

/// A borrowed path of a resource inside a package.
pub type UriRef<'a> = &'a [u8];

} // verus!
