//! Runs a command in the nono sandbox under a policy that grants it no more than it needs, with the
//! credentials it uses sealed away from it.
//!
//! This library decides; what has to be done with the system, a program around it does. A decision
//! that depends on the system is taken step by step: the library says what it wants to know or to
//! have done, and is told what came of it.
//!
//! - `config` holds a run as it is asked for: by a policy, by a profile of the repository, or by
//!   separate inputs.
//! - `repo_profile`, `document`, `normalize`, `resolve` and `load` find the profile that a
//!   repository brings along, and accept it only where it grants what a repository may grant.
//! - `secrets` seals credentials, and `profile` generates the profile that is merged last of all.
//! - `runner` starts the sandbox, `audit` exports what it recorded, and `program` orders the steps.
//! - `text`, `ordered`, `path`, `encoding`, `json`, `files` and `error` are what these stand on.

pub mod audit;
pub mod config;
pub mod document;
pub mod encoding;
pub mod error;
pub mod files;
pub mod json;
pub mod load;
pub mod normalize;
pub mod ordered;
pub mod path;
pub mod profile;
pub mod program;
pub mod repo_profile;
pub mod resolve;
pub mod runner;
pub mod secrets;
pub mod text;
