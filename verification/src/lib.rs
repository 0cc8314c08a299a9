//! Inference gateway core: the orchestration and streaming logic that sits
//! between HTTP clients and a large-language-model backend.
//!
//! The library covers the token-stream-to-wire bridge, the structured-report
//! generation pipeline (prompt assembly, constrained decoding, validation and
//! repair of the model's JSON), the keyword-to-mitigation augmentation step,
//! and the embedding gateway's request shaping and failure taxonomy.

pub mod assemble;
pub mod augment;
pub mod catalog;
pub mod embeddings;
pub mod groups;
pub mod json;
pub mod number;
pub mod report;
pub mod stream;
pub mod structured;
pub mod text;

pub use augment::KeywordAugmenter;
pub use augment::KeywordRule;
pub use catalog::MitigationCatalog;
pub use catalog::MitreMitigation;
pub use catalog::MitreMitigations;
pub use embeddings::EmbeddingQuery;
pub use embeddings::EmbeddingsRequest;
pub use embeddings::EmbeddingsResponse;
pub use embeddings::Entry;
pub use embeddings::EntryType;
pub use embeddings::SearchEmbeddingsRequest;
pub use report::Report;
pub use stream::ChatMessageChunk;
pub use stream::ChatRole;
pub use stream::StreamBridge;
pub use structured::ErrorReport;
pub use structured::Mitigation;
pub use structured::Rapport;
pub use structured::RapportItem;
