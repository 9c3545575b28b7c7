//! Address-block discovery library: decomposition of address ranges into
//! minimal CIDR sets, aggregation of prefix collections into canonical form,
//! exact intersection of prefix sets, RPKI route-origin validation, and the
//! pure decision logic of the concurrent download pipeline.

pub mod aggregate;
pub mod cidr_text;
pub mod cli;
pub mod common;
pub mod error;
pub mod fetch;
pub mod ipv4_utils;
pub mod output_common;
pub mod overlap;
pub mod parse;
pub mod prefix;
pub mod process;
pub mod rangeset;
pub mod ranges;
pub mod rpki;
pub mod text;

pub use common::IpFamily;
pub use common::OutputFormat;
