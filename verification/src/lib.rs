//! Layout, image and slide logic of an AI slide maker.
use vstd::prelude::*;

pub mod grid;
pub mod components;
pub mod alpha;
pub mod text;
pub mod style_guide;
pub mod guide_markdown;
pub mod layout_assigner;
pub mod color;
pub mod ocr_kinds;
pub mod outline;
pub mod project_pages;
pub mod ooxml;
pub mod simple_parts;
pub mod editable_parts;
pub mod template_parts;
pub mod template_pages;
pub mod pptx_colors;
pub mod line_detect;
pub mod reports;
pub mod splitter;
pub mod border_color;
pub mod image_prompt;
pub mod attachments;
pub mod xml;
pub mod numbers;
pub mod template_xml;
pub mod page_files;
pub mod inpaint;
pub mod config;
pub mod slides;
pub mod style_extraction;
pub mod image_requests;
pub mod brainstorm;
pub mod content_scan;
pub mod shapes;
pub mod style_file;

verus! {

} // verus!
