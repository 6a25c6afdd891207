//! A mock HTTP server's rule engine: the rule-file language, the checks a
//! rule list must pass before serving, and the dispatcher that picks the
//! response for a request under the current profile and clock.

pub mod directive;
pub mod dispatch;
pub mod model;
pub mod parser;
pub mod preflight;
pub mod profiles;
pub mod reachability;
pub mod text;
pub mod validate;
