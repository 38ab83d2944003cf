//! Run configuration: input roots, verbatim files and the output
//! path, merged from layered sources with later layers winning.
use vstd::prelude::*;

verus! {

/// The configuration of one generation run.  Paths are plain strings;
/// whatever loads them from the command line or a manifest converts at
/// the boundary.
#[derive(Debug)]
pub struct Config {
    pub input: Option<Vec<String>>,
    pub verbatim: Option<Vec<String>>,
    pub output: Option<String>,
    pub config_file: Option<String>,
}

/// The mathematical value of a configuration.
pub struct ConfigModel {
    pub input: Option<Seq<Seq<char>>>,
    pub verbatim: Option<Seq<Seq<char>>>,
    pub output: Option<Seq<char>>,
    pub config_file: Option<Seq<char>>,
}

/// The view of an optional path list.
pub open spec fn opt_paths(o: Option<Vec<String>>) -> Option<Seq<Seq<char>>> {
    match o {
        Option::Some(v) => Some(v.deep_view()),
        Option::None => None,
    }
}

/// The view of an optional path.
pub open spec fn opt_path(o: Option<String>) -> Option<Seq<char>> {
    match o {
        Option::Some(s) => Some(s@),
        Option::None => None,
    }
}

impl View for Config {
    type V = ConfigModel;

    open spec fn view(&self) -> ConfigModel {
        ConfigModel {
            input: opt_paths(self.input),
            verbatim: opt_paths(self.verbatim),
            output: opt_path(self.output),
            config_file: opt_path(self.config_file),
        }
    }
}

/// Layering one configuration over another: a field set in the later
/// layer replaces the earlier value; the explicit config-file path is
/// never layered.
pub open spec fn merged(base: ConfigModel, other: ConfigModel) -> ConfigModel {
    ConfigModel {
        input: match other.input {
            Option::Some(v) => Some(v),
            Option::None => base.input,
        },
        verbatim: match other.verbatim {
            Option::Some(v) => Some(v),
            Option::None => base.verbatim,
        },
        output: match other.output {
            Option::Some(v) => Some(v),
            Option::None => base.output,
        },
        config_file: base.config_file,
    }
}

/// Layering an optional source over a base.
pub open spec fn merged_opt(base: ConfigModel, other: Option<ConfigModel>) -> ConfigModel {
    match other {
        Option::Some(c) => merged(base, c),
        Option::None => base,
    }
}

impl Default for Config {
    /// The empty configuration.
    fn default() -> (r: Config)
        ensures
            r@.input is None,
            r@.verbatim is None,
            r@.output is None,
            r@.config_file is None,
    {
        Config { input: None, verbatim: None, output: None, config_file: None }
    }
}

impl Config {
    /// Layers another configuration over this one: its set fields win.
    pub fn merge(&mut self, other: Config)
        ensures
            final(self)@ == merged(old(self)@, other@),
    {
        match other.input {
            Option::Some(v) => {
                self.input = Some(v);
            },
            Option::None => {},
        }
        match other.verbatim {
            Option::Some(v) => {
                self.verbatim = Some(v);
            },
            Option::None => {},
        }
        match other.output {
            Option::Some(v) => {
                self.output = Some(v);
            },
            Option::None => {},
        }
    }

    /// Resolves the layered sources in priority order: the manifest
    /// metadata first, then the conventional configuration file, then
    /// an explicitly named configuration file, and command-line
    /// arguments last and strongest.
    pub fn load_layers(
        cargo_manifest: Option<Config>,
        conventional: Option<Config>,
        explicit: Option<Config>,
        cli: Config,
    ) -> (r: Config)
        ensures
            r@ == merged(
                merged_opt(
                    merged_opt(
                        merged_opt(
                            ConfigModel {
                                input: None,
                                verbatim: None,
                                output: None,
                                config_file: None,
                            },
                            match cargo_manifest {
                                Option::Some(c) => Some(c@),
                                Option::None => None,
                            },
                        ),
                        match conventional {
                            Option::Some(c) => Some(c@),
                            Option::None => None,
                        },
                    ),
                    match explicit {
                        Option::Some(c) => Some(c@),
                        Option::None => None,
                    },
                ),
                cli@,
            ),
    {
        let mut acc = Config::default();
        match cargo_manifest {
            Option::Some(c) => acc.merge(c),
            Option::None => {},
        }
        match conventional {
            Option::Some(c) => acc.merge(c),
            Option::None => {},
        }
        match explicit {
            Option::Some(c) => acc.merge(c),
            Option::None => {},
        }
        acc.merge(cli);
        acc
    }
}

} // verus!
