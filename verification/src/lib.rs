//! Translation of a low-level intermediate representation (a control-flow
//! graph of basic blocks) into a labelled Petri net that over-approximates
//! the program's control and resource flow, for consumption by external
//! model checkers.

pub mod init;
pub mod llir;
pub mod petri_net;
pub mod translator;
pub mod util;
