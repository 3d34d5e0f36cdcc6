use crate::configs::github::GithubConfig;
use crate::configs::qa::QAConfig;
use crate::files::parse::{copy_texts, texts};
use vstd::prelude::*;

verus! {

/// Where the service listens and which origins may call it.
pub struct ServerConfig {
    pub host: String,
    pub port: usize,
    pub cors: Vec<String>,
}

impl ServerConfig {
    /// Whether two settings say the same.
    pub open spec fn same(&self, other: &ServerConfig) -> bool {
        &&& self.host@ == other.host@
        &&& self.port == other.port
        &&& texts(self.cors@) == texts(other.cors@)
    }
}

impl Default for ServerConfig {
    fn default() -> (conf: ServerConfig)
        ensures
            conf.host@.len() == 0,
            conf.port == 0,
            conf.cors@.len() == 0,
    {
        ServerConfig { host: String::new(), port: 0, cors: Vec::new() }
    }
}

impl Clone for ServerConfig {
    fn clone(&self) -> (conf: ServerConfig)
        ensures
            conf.same(self),
    {
        ServerConfig { host: self.host.clone(), port: self.port, cors: copy_texts(self.cors.as_slice()) }
    }
}

/// Why the settings cannot be served under.
pub enum ConfigError {
    /// No connection string to the store is set.
    EmptyDsn,
}

/// All settings of the service.
pub struct Config {
    pub server: ServerConfig,
    pub qa: QAConfig,
    pub github: GithubConfig,
    pub config_file: String,
}

impl Config {
    /// Whether two settings say the same.
    pub open spec fn same(&self, other: &Config) -> bool {
        &&& self.server.same(&other.server)
        &&& self.qa == other.qa
        &&& self.github.same(&other.github)
        &&& self.config_file@ == other.config_file@
    }

    /// Checks the settings before anything is served: the store must have a
    /// connection string.
    pub fn validate(&self) -> (r: Result<(), ConfigError>)
        ensures
            r is Ok <==> self.qa.dsn@.len() > 0,
    {
        if self.qa.dsn.as_str().is_empty() {
            Err(ConfigError::EmptyDsn)
        } else {
            Ok(())
        }
    }

    /// Picks the file to read the settings from: the one named on the
    /// command line, else the one named in the environment, else none.
    pub fn config_file_choice(from_args: &str, from_env: Option<&str>) -> (path: String)
        ensures
            path@ == if from_args@.len() > 0 {
                from_args@
            } else {
                match from_env {
                    Some(p) => p@,
                    None => Seq::empty(),
                }
            },
    {
        if !from_args.is_empty() {
            from_args.to_owned()
        } else {
            match from_env {
                Some(p) => p.to_owned(),
                None => String::new(),
            }
        }
    }
}

impl Default for Config {
    fn default() -> (conf: Config)
        ensures
            conf.server.host@.len() == 0,
            conf.server.port == 0,
            conf.server.cors@.len() == 0,
            conf.qa.path@ == "data/"@,
            conf.qa.top == 2,
            !conf.qa.rebuild,
            conf.github.llm_max_tokens == 100000,
            conf.github.check_in_secs == 20,
            conf.github.repos is None,
            conf.config_file@.len() == 0,
    {
        Config {
            server: ServerConfig::default(),
            qa: QAConfig::default(),
            github: GithubConfig::default(),
            config_file: String::new(),
        }
    }
}

impl Clone for Config {
    fn clone(&self) -> (conf: Config)
        ensures
            conf.same(self),
    {
        Config {
            server: self.server.clone(),
            qa: self.qa.clone(),
            github: self.github.clone(),
            config_file: self.config_file.clone(),
        }
    }
}

} // verus!
