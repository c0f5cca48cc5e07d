//! levi: a git-aware, agent-first issue tracker — the verified core.

use vstd::prelude::*;

pub mod agent_docs;
pub mod ancestors;
pub mod browse;
pub mod check_claims;
pub mod commands;
pub mod config;
pub mod crossproject;
pub mod ctx;
pub mod dash;
pub mod dep;
pub mod edit;
pub mod entities;
pub mod facts;
pub mod front_door;
pub mod foreign;
pub mod graph;
pub mod graph_view;
pub mod hub;
pub mod hub_client;
pub mod in_flight;
pub mod init;
pub mod ids;
pub mod lookup;
pub mod materialize;
pub mod merkle;
pub mod output;
pub mod rank;
pub mod resolve;
pub mod sections;
pub mod seqs;
pub mod show;
pub mod sort;
pub mod state;
pub mod store;
pub mod strmap;
pub mod sync;
pub mod text;

verus! {

} // verus!
