//! Renderers over the owned `Document` tree.
//!
//! Three renderers:
//! * [`html::render`] — HTML output (escapes text, emits standard tags,
//!   renders components as `<mdx-component data-name="…">`).
//! * [`text::render`] — plain text projection for previews / search indices.
//! * [`debug::render`] — indented s-expression-style dump with spans.

pub mod escape;
pub mod html;
pub mod text;
pub mod debug;
