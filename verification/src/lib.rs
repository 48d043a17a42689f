pub mod config;
pub mod convert;
pub mod filters;
pub mod interop;
pub mod json;
pub mod labels;
pub mod prepare;
pub mod selector;
pub mod service;
pub mod text;
pub mod tmpl;
pub mod urls;
