//! Request-layer data.  The HTTP handlers themselves live with the
//! surrounding program; the library holds the query shape they parse into.

use vstd::prelude::*;

verus! {

/// Query parameters of the power endpoint: the VM name asked about.
pub struct QueryParams {
    pub vm: String,
}

} // verus!
