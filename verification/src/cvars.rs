//! Console variables: configuration options for anything and everything.
//!
//! What a name begins with says what it is for: `cl_` is client, `d_` is
//! debug, `g_` is gameplay, `hud_` is the heads-up display, `r_` is
//! rendering, `sv_` is server administration and performance.
use vstd::prelude::*;

verus! {

/// The console variables.
#[derive(Debug, Clone)]
pub struct Cvars {
    /// A spare switch for quick testing.
    pub d_dbg: bool,
    /// The master switch for debug drawing.
    pub d_draw: bool,
}

impl Default for Cvars {
    fn default() -> (cvars: Cvars)
        ensures
            !cvars.d_dbg,
            cvars.d_draw,
    {
        Cvars { d_dbg: false, d_draw: true }
    }
}

} // verus!
