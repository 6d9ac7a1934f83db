//! What the execution of a program starts from.

use vstd::prelude::*;
use crate::file::Gid;
use crate::file::Uid;

verus! {

/// What is needed to prepare the image of a program for its execution.
pub struct ExecInfo {
    /// The user that the calling agent acts as.
    pub uid: Uid,
    /// The group that the calling agent acts as.
    pub gid: Gid,
    /// The arguments of the program.
    pub argv: Vec<Vec<u8>>,
    /// The variables of the environment of the program.
    pub envp: Vec<Vec<u8>>,
}

} // verus!
