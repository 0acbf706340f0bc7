//! Verified core logic of the editor's plugin layer: LSP message framing,
//! project search and replace, URI and column conversions, diagnostics
//! selection and a handful of text utilities.

pub mod columns;
pub mod diag_select;
pub mod diagnostics;
pub mod glob;
pub mod hover;
pub mod lsp_framing;
pub mod lsp_manager;
pub mod lsp_session;
pub mod lsp_values;
pub mod macro_recorder;
pub mod markdown;
pub mod minimap_window;
pub mod navigation;
pub mod process;
pub mod project_model;
pub mod project_search;
pub mod quote;
pub mod reflow;
pub mod replace_view;
pub mod search;
pub mod stream_read;
pub mod swap;
pub mod text;
pub mod uri;
