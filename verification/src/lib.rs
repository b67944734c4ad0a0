use vstd::prelude::*;

pub mod text;
pub mod refmsg;
pub mod query;
pub mod link;
pub mod dimension;
pub mod grammar;
pub mod bilink_ref;
pub mod state;
pub mod cache;
pub mod config;
pub mod composed;
pub mod get;
pub mod adopt;
pub mod push;
pub mod pull;
pub mod hash;
pub mod neighbours;
pub mod review;
pub mod accept;
pub mod index;
pub mod init;
pub mod git;
pub mod history;
pub mod impact;
pub mod check;
pub mod frontier;
pub mod preview;
pub mod restore_n1;
pub mod apply;
pub mod generators;
pub mod capture;
pub mod chain;
pub mod issue;
pub mod relayer;
pub mod bilink;
pub mod sorting;
pub mod migrations;
pub mod syntax;

verus! {
} // verus!
