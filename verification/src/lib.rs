//! A PDF file on its way to Markdown chunks for retrieval: extraction, layout, recurring headers
//! and footers, rendering, fidelity and chunking.
pub mod chunker;
pub mod column_layout;
pub mod fidelity;
pub mod font_metrics;
pub mod json;
pub mod markdown;
pub mod markdown_render;
pub mod order;
pub mod pdf_document;
pub mod pdf_extract;
pub mod pdf_object;
pub mod pipeline;
pub mod rendered_table;
pub mod spatial_filter;
pub mod stream_filters;
pub mod table_grid;
pub mod text;
pub mod tokens;
pub mod types;
