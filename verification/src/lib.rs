//! The verified core of apicase: API test cases written as YAML, their parsing and printing,
//! variable substitution, request assembly, assertions, run ordering and reports.
pub mod agents;
pub mod assertion;
pub mod auth;
pub mod case_file;
pub mod check;
pub mod cli_link;
pub mod command;
pub mod config;
pub mod console;
pub mod cookie;
pub mod discover;
pub mod docs;
pub mod emit;
pub mod fields;
pub mod graph;
pub mod http;
pub mod json;
pub mod jsonpath;
pub mod list;
pub mod model;
pub mod number;
pub mod output;
pub mod page;
pub mod paths;
pub mod redact;
pub mod render;
pub mod report;
pub mod report_json;
pub mod request;
pub mod round_trip;
pub mod run;
pub mod runner;
pub mod screen;
pub mod style;
pub mod table;
pub mod text;
pub mod util;
pub mod vars;
pub mod workspace;
pub mod yaml;
