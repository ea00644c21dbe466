//! The query-parameter list behind the `URLSearchParams` Web API class: an
//! ordered list of name/value pairs with lookup, insertion, removal,
//! replacement, stable sorting, and conversion from and to the
//! `application/x-www-form-urlencoded` syntax.
pub mod order;
pub mod model;
pub mod encoding;
pub mod sorting;
pub mod search_params;
pub mod laws;
pub mod laws_spec;

pub use search_params::{SearchParamsError, SearchParamsInit, UrlSearchParams};
