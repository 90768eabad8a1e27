//! Date and time formats, in chrono's `strftime` notation.
use vstd::prelude::*;

verus! {

/// The common format, as in `2018-10-11 09:32:00`.
pub const STDTIMEFMT: &'static str = "%Y-%m-%d %H:%M:%S";

/// The format that backup directories use, as in `20181011-093200`.
pub const BAKTIMEFMT: &'static str = "%Y%m%d-%H%M%S";

/// The format of Python's `ctime`, as in `Mon Jan 10 23:22:10 2018`.
pub const CTIMEFMT: &'static str = "%a %b %d %H:%M:%S %Y";

} // verus!
