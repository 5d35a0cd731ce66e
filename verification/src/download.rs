//! Download progress reporting.

use vstd::prelude::*;

verus! {

/// Prints download progress by announcing the download and then updating
/// one line; the sink that does the writing lives with the application.
pub struct PrintDownload<T>(pub T);

} // verus!
