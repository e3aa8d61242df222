//! A verified request handler for a single JSON endpoint: the body
//! `{"name": "<text>"}` is answered with status 200 and the body
//! `{"message": "Goodnight, <text>!"}`. The JSON codec for the two shapes
//! is specified and verified in [`json`]; the handler and its laws live
//! in [`handler`].

pub mod handler;
pub mod json;
pub mod text;
