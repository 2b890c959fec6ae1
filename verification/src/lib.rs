//! Verified core of a document-to-image and OCR toolkit: page geometry,
//! DOCX preprocessing, external tool planning, CTC decoding and the
//! plain-value helpers used around the OCR engine.
pub mod chars;
pub mod commands;
pub mod ctc;
pub mod data_url;
pub mod docx_package;
pub mod error;
pub mod fonts;
pub mod images;
pub mod layout;
pub mod ocr_config;
pub mod page;
pub mod png_pages;
pub mod renderer;
pub mod xml_fix;
