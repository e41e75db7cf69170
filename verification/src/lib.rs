//! `catalog_diagram` — turn a 4D database catalog (structure XML) into a
//! diagram. This crate holds the verified core of the pipeline: decoding and
//! interpreting the catalog XML, subset selection over the relation graph,
//! the `inspect` summary, the plain-text exports and the escaping and
//! styling primitives shared by the renderers.

pub mod error;
pub mod export;
pub mod inspect;
pub mod layout;
pub mod model;
pub mod order;
pub mod parse;
pub mod render_html;
pub mod render_svg;
pub mod request;
pub mod scene;
pub mod select;
pub mod text;
pub mod timestamp;
pub mod types;
pub mod xml;

pub use error::{AppError, ExitCode};
