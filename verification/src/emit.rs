//! Emitters: render a Shape as JSON Schema / TypeScript / Zod.

pub mod json_schema;
pub mod typescript;
pub mod zod;

use vstd::prelude::*;

verus! {

/// The output language.
#[derive(Debug, Clone, Copy, PartialEq, Eq, Structural)]
pub enum Format {
    JsonSchema,
    TypeScript,
    Zod,
}

/// How to render a shape.
#[derive(Debug, Clone)]
pub struct EmitOptions {
    pub format: Format,
    /// Strict mode: all observed fields become required, no additional
    /// properties allowed, no loose `any` fallbacks.
    pub strict: bool,
    /// Name of the root type (used by TS and Zod emitters).
    pub root_name: String,
}

impl Default for EmitOptions {
    fn default() -> (r: EmitOptions)
        ensures
            r.format == Format::JsonSchema,
            !r.strict,
            r.root_name@ == "Root"@,
    {
        EmitOptions { format: Format::JsonSchema, strict: false, root_name: String::from_str("Root") }
    }
}

} // verus!
