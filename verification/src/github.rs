pub mod github_comment;
