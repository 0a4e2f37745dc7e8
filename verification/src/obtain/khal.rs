//! What to ask of the `khal` agenda tool.

use vstd::prelude::*;
use crate::date::Date;
use crate::obtain::ObtainArguments;

verus! {

/// The request for the week that begins on `from`, made to the `khal` found
/// on the search path.
pub fn week_arguments(from: &Date) -> (arguments: ObtainArguments<'_>)
    ensures
        arguments.from == from,
        arguments.duration_days == 7,
        arguments.backend_bin_path@ == "khal"@,
{
    ObtainArguments { from, duration_days: 7, backend_bin_path: "khal" }
}

} // verus!
