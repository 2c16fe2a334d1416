//! Verified output filters for the Arcadia `ya` and `arc` command-line tools.

pub mod text;
pub mod pattern;
pub mod framing;
pub mod generic_fail;
pub mod detect;
pub mod util;
pub mod envelope;
pub mod go_test;
pub mod pytest;
pub mod py3test;
pub mod ya_build;
pub mod ya_cmd;
pub mod arc_diff;
pub mod arc_status;
pub mod arc_cmd;
