//! Compact summaries of AWS CDK and Terraform command-line output.
//!
//! `cdk_cmd` and `terraform_cmd` hold, for each command, the filter that
//! turns its verbose output into a short summary, and the decisions around
//! running the command: what to run, and what to print and exit with once it
//! has run. `text`, `pattern` and `grouping` are the pieces they are built
//! from.

pub mod text;
pub mod pattern;
pub mod grouping;

pub mod command;
pub mod cdk_cmd;
pub mod terraform_cmd;
