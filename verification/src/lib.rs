//! The Xmip Playground's rules: who serves which stage of the message path,
//! which scenarios a roll drives, how a node's name and flags are read, and
//! what goes between the processes of a cluster.

pub mod binary;
pub mod board;
pub mod capability;
pub mod cluster_command;
pub mod complement;
pub mod environment;
pub mod handoff;
pub mod health;
pub mod image;
pub mod in_process;
pub mod ledger;
pub mod member;
pub mod node_command;
pub mod number;
pub mod orders;
pub mod pick;
pub mod relay;
pub mod report;
pub mod role;
pub mod roll_command;
pub mod roster;
pub mod round_trip;
pub mod run;
pub mod scenario;
pub mod stage;
pub mod stress;
pub mod switch;
pub mod text;
pub mod topology;
