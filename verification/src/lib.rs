//! Tool-call parsing for language-model output.
pub mod arguments;
pub mod attributes;
pub mod attributes_laws;
pub mod block_laws;
pub mod call_format_laws;
pub mod chunking;
pub mod compact;
pub mod compact_laws;
pub mod decimal;
pub mod decimal_laws;
pub mod error;
pub mod families;
pub mod format;
pub mod format_laws;
pub mod handover;
pub mod json;
pub mod json_laws;
pub mod kimi_k2;
pub mod kimi_k2_laws;
pub mod kimi_k3;
pub mod kimi_k3_call_laws;
pub mod kimi_k3_laws;
pub mod kimi_k3_message_laws;
pub mod python;
pub mod operation_laws;
pub mod pythonic;
pub mod pythonic_laws;
pub mod qwen3_coder;
pub mod qwen3_coder_laws;
pub mod request_laws;
pub mod response;
pub mod response_laws;
pub mod scan;
pub mod scan_laws;
pub mod structural_tag;
pub mod structural_tag_laws;
pub mod text;
pub mod text_laws;
pub mod tools;
