pub mod api;
pub mod base;
pub mod configs;
pub mod dal;
pub mod files;
pub mod github;
pub mod llm;
pub mod qa;

pub use api::http::APIHandler;
pub use api::qa::QAQuery;
pub use api::query::Query;
pub use base::string::escape_sql_string;
pub use base::string::remove_markdown_links;
pub use base::string::replace_multiple_spaces;
pub use base::string::LengthWithoutSymbols;
pub use configs::config::Config;
pub use configs::config::ServerConfig;
pub use configs::github::GithubConfig;
pub use configs::qa::QAConfig;
pub use dal::db::DatabendDriver;
pub use files::file::Entry;
pub use files::file::FileMeta;
pub use files::file::FileOperator;
pub use files::markdown::Markdown;
pub use files::parse::Document;
pub use files::parse::Parse;
pub use files::parse::ParseError;
pub use files::parse::ParsedBatch;
pub use files::parse::SnippetFile;
pub use files::parse::SnippetFiles;
pub use files::rust::RustCode;
pub use files::rust::RustCodes;
pub use github::github_comment::GithubComment;
pub use llm::qa::BendLLM;
pub use qa::corpus::Corpus;
pub use qa::corpus::StoredRecord;
pub use qa::qa_embedding::QAEmbedding;
pub use qa::retriever::QueryResult;
