//! NYEDArch: capsule sealing, remote build orchestration and runtime
//! self-protection, with the decision logic verified.

pub mod artifact;
pub mod base64;
pub mod cli;
pub mod config;
pub mod curl;
pub mod destruction;
pub mod endpoints;
pub mod eula;
pub mod generator;
pub mod gui;
pub mod harden;
pub mod hardware;
pub mod http;
pub mod installer;
pub mod json;
pub mod keystore;
pub mod logging;
pub mod machines;
pub mod orchestrator;
pub mod pipeline;
pub mod probes;
pub mod provenance;
pub mod remote;
pub mod scan;
pub mod sealer;
pub mod srcpack;
pub mod selfseal;
pub mod text;
pub mod workflow;
