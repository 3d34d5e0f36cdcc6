pub mod answer;
pub mod corpus;
pub mod prompt;
pub mod qa_embedding;
pub mod retriever;
