//! The viewer's configuration: picture size, chunk size, and which plugin libraries to load
//! with which options.
use vstd::prelude::*;

use std::collections::HashMap;

verus! {

/// Which library provides a function, under which name, with which options.
#[derive(Debug, Clone, PartialEq, Eq)]
pub struct FuncConfig {
    pub path: String,
    pub name: String,
    pub options: HashMap<String, String>,
}

impl FuncConfig {
    /// The name used when none is given.
    pub fn default_name() -> (r: String)
        ensures
            r@ == "default"@,
    {
        "default".to_owned()
    }
}

/// The picture size, the render chunk size, and the fractal and colour functions.
#[derive(Debug, Clone, PartialEq, Eq)]
pub struct Config {
    pub width: u32,
    pub height: u32,
    pub chunk_size: usize,
    pub fractal_config: FuncConfig,
    pub color_config: FuncConfig,
}

impl Config {
    /// A configuration with nothing set, to hold a place.
    fn empty() -> (r: Config)
        ensures
            r.width == 0,
            r.height == 0,
            r.chunk_size == 0,
            r.fractal_config.path@ == Seq::<char>::empty(),
            r.fractal_config.name@ == Seq::<char>::empty(),
            r.fractal_config.options@ == Map::<String, String>::empty(),
            r.color_config.path@ == Seq::<char>::empty(),
            r.color_config.name@ == Seq::<char>::empty(),
            r.color_config.options@ == Map::<String, String>::empty(),
    {
        Config {
            width: 0,
            height: 0,
            chunk_size: 0,
            fractal_config: FuncConfig { path: String::new(), name: String::new(), options: HashMap::new() },
            color_config: FuncConfig { path: String::new(), name: String::new(), options: HashMap::new() },
        }
    }

    /// The height used when none is given.
    pub fn default_height() -> (r: u32)
        ensures
            r == 1024,
    {
        1024
    }

    /// The width used when none is given.
    pub fn default_width() -> (r: u32)
        ensures
            r == 1024,
    {
        1024
    }

    /// The chunk size used when none is given.
    pub fn default_chunk_size() -> (r: usize)
        ensures
            r == 32,
    {
        32
    }
}

/// Why a configuration could not be saved.
#[derive(Debug, Clone, Copy, PartialEq, Eq, Structural)]
pub enum ConfigError {
    /// There is no file to save to.
    InvalidPath,
}

impl ConfigError {
    /// The error's message.
    pub fn message(&self) -> (r: String)
        ensures
            r@ == "invalid path, missing parent"@,
    {
        "invalid path, missing parent".to_owned()
    }
}

/// A configuration and the file it was read from or last saved to, if any.
#[derive(Debug, Clone, PartialEq, Eq)]
pub struct ConfigManager {
    config_path: Option<String>,
    config: Config,
}

impl ConfigManager {
    /// The file of the configuration, if it has one.
    pub closed spec fn spec_config_path(&self) -> Option<Seq<char>> {
        match self.config_path {
            Some(p) => Some(p@),
            None => None,
        }
    }

    /// The configuration.
    pub closed spec fn spec_config(&self) -> Config {
        self.config
    }

    /// A configuration without a file for a `width` by `height` picture with the given fractal
    /// and colour libraries: the default chunk size, the default function names and no options.
    pub fn new(width: u32, height: u32, fractal_lib_path: &str, color_lib_path: &str) -> (r: Self)
        ensures
            r.spec_config_path() is None,
            r.spec_config().width == width,
            r.spec_config().height == height,
            r.spec_config().chunk_size == 32,
            r.spec_config().fractal_config.path@ == fractal_lib_path@,
            r.spec_config().fractal_config.name@ == "default"@,
            r.spec_config().fractal_config.options@ == Map::<String, String>::empty(),
            r.spec_config().color_config.path@ == color_lib_path@,
            r.spec_config().color_config.name@ == "default"@,
            r.spec_config().color_config.options@ == Map::<String, String>::empty(),
    {
        ConfigManager {
            config_path: None,
            config: Config {
                width,
                height,
                chunk_size: Config::default_chunk_size(),
                fractal_config: FuncConfig {
                    path: fractal_lib_path.to_owned(),
                    name: FuncConfig::default_name(),
                    options: HashMap::new(),
                },
                color_config: FuncConfig {
                    path: color_lib_path.to_owned(),
                    name: FuncConfig::default_name(),
                    options: HashMap::new(),
                },
            },
        }
    }

    /// A configuration read from `config_path`, or one without a file.
    pub fn from_parts(config_path: Option<String>, config: Config) -> (r: Self)
        ensures
            r.spec_config_path() == (match config_path {
                Some(p) => Some(p@),
                None => None::<Seq<char>>,
            }),
            r.spec_config() == config,
    {
        ConfigManager { config_path, config }
    }

    /// Changes the configuration as `mutate` says; the file stays.
    pub fn update<F: FnOnce(Config) -> Config>(&mut self, mutate: F)
        requires
            call_requires(mutate, (old(self).spec_config(),)),
        ensures
            call_ensures(mutate, (old(self).spec_config(),), final(self).spec_config()),
            final(self).spec_config_path() == old(self).spec_config_path(),
    {
        let mut config = Config::empty();
        std::mem::swap(&mut config, &mut self.config);
        self.config = mutate(config);
    }

    /// The file of the configuration, if it has one.
    pub fn config_path(&self) -> (r: Option<&str>)
        ensures
            r matches Some(p) ==> self.spec_config_path() == Some(p@),
            r is None ==> self.spec_config_path() is None,
    {
        match &self.config_path {
            Some(p) => Some(p.as_str()),
            None => None,
        }
    }

    /// The configuration.
    pub fn config(&self) -> (r: &Config)
        ensures
            *r == self.spec_config(),
    {
        &self.config
    }

    /// Where saving writes the configuration: its file, or an error when it has none.
    pub fn save(&self) -> (r: Result<&str, ConfigError>)
        ensures
            r matches Ok(p) ==> self.spec_config_path() == Some(p@),
            r is Err <==> self.spec_config_path() is None,
            r matches Err(e) ==> e == ConfigError::InvalidPath,
    {
        match self.config_path() {
            Some(p) => Ok(p),
            None => Err(ConfigError::InvalidPath),
        }
    }

    /// Finishes saving the configuration as `path`: when writing it succeeded the configuration
    /// lives there from now on; a failed write leaves everything as it was. Returns the write's
    /// outcome.
    pub fn save_as<E>(&mut self, path: &str, written: Result<(), E>) -> (r: Result<(), E>)
        ensures
            r == written,
            final(self).spec_config() == old(self).spec_config(),
            written is Ok ==> final(self).spec_config_path() == Some(path@),
            written is Err ==> final(self).spec_config_path() == old(self).spec_config_path(),
    {
        if written.is_ok() {
            self.config_path = Some(path.to_owned());
        }
        written
    }
}

} // verus!
