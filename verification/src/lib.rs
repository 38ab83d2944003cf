//! A generator of one merged API-specification document from annotated
//! source comments and standalone fragments: a symbol registry, a
//! generics monomorphizer, a directive preprocessor, a deep merger, and
//! the pipeline tying them together.
pub mod config;
pub mod error;
pub mod generics;
pub mod index;
pub mod merger;
pub mod preprocessor;
pub mod scanner;
pub mod text;
pub mod value;
pub mod visitor;

use vstd::prelude::*;

verus! {

use crate::config::Config;

/// The entry point for a generation run: the directories to scan, the
/// files taken in verbatim, and where the merged document goes.  The
/// walking, reading and writing themselves happen outside the library;
/// the builder holds the plan.
#[derive(Debug)]
pub struct Generator {
    pub inputs: Vec<String>,
    pub verbatim_files: Vec<String>,
    pub output_path: Option<String>,
}

impl Generator {
    /// A generator with nothing configured.
    pub fn new() -> (r: Generator)
        ensures
            r.inputs@.len() == 0,
            r.verbatim_files@.len() == 0,
            r.output_path is None,
    {
        Generator { inputs: Vec::new(), verbatim_files: Vec::new(), output_path: None }
    }

    /// Adopts a configuration: its input and verbatim-file lists extend the
    /// generator's, and its output path replaces the generator's when
    /// set.
    pub fn with_config(self, config: Config) -> (r: Generator)
        ensures
            r.inputs.deep_view() == self.inputs.deep_view() + (match config.input {
                Option::Some(v) => v.deep_view(),
                Option::None => Seq::<Seq<char>>::empty(),
            }),
            r.verbatim_files.deep_view() == self.verbatim_files.deep_view() + (match config.verbatim {
                Option::Some(v) => v.deep_view(),
                Option::None => Seq::<Seq<char>>::empty(),
            }),
            r.output_path == (match config.output {
                Option::Some(o) => Some(o),
                Option::None => self.output_path,
            }),
    {
        let mut g = self;
        match config.input {
            Option::Some(mut inputs) => {
                let ghost before = g.inputs.deep_view();
                let ghost added = inputs.deep_view();
                let ghost added_vals = inputs@;
                g.inputs.append(&mut inputs);
                proof {
                    assert forall|p: int|
                        0 <= p < g.inputs.deep_view().len() implies #[trigger] g.inputs.deep_view()[p]
                        == (before + added)[p] by {
                        if p < before.len() {
                        } else {
                            assert(g.inputs@[p] == added_vals[p - before.len()]);
                        }
                    }
                    assert(g.inputs.deep_view() =~= before + added);
                }
            },
            Option::None => {
                proof {
                    assert(g.inputs.deep_view() =~= g.inputs.deep_view() + Seq::<
                        Seq<char>,
                    >::empty());
                }
            },
        }
        match config.verbatim {
            Option::Some(mut verbatim_files) => {
                let ghost before = g.verbatim_files.deep_view();
                let ghost added = verbatim_files.deep_view();
                let ghost added_vals = verbatim_files@;
                g.verbatim_files.append(&mut verbatim_files);
                proof {
                    assert forall|p: int|
                        0 <= p < g.verbatim_files.deep_view().len() implies #[trigger] g.verbatim_files.deep_view()[p]
                        == (before + added)[p] by {
                        if p < before.len() {
                        } else {
                            assert(g.verbatim_files@[p] == added_vals[p - before.len()]);
                        }
                    }
                    assert(g.verbatim_files.deep_view() =~= before + added);
                }
            },
            Option::None => {
                proof {
                    assert(g.verbatim_files.deep_view() =~= g.verbatim_files.deep_view() + Seq::<
                        Seq<char>,
                    >::empty());
                }
            },
        }
        match config.output {
            Option::Some(o) => {
                g.output_path = Some(o);
            },
            Option::None => {},
        }
        g
    }

    /// Adds one directory to scan.
    pub fn input(self, path: String) -> (r: Generator)
        ensures
            r.inputs@ == self.inputs@.push(path),
            r.verbatim_files == self.verbatim_files,
            r.output_path == self.output_path,
    {
        let mut g = self;
        g.inputs.push(path);
        g
    }

    /// Adds one file taken in verbatim.
    pub fn verbatim(self, path: String) -> (r: Generator)
        ensures
            r.verbatim_files@ == self.verbatim_files@.push(path),
            r.inputs == self.inputs,
            r.output_path == self.output_path,
    {
        let mut g = self;
        g.verbatim_files.push(path);
        g
    }

    /// Sets the output file path.
    pub fn output(self, path: String) -> (r: Generator)
        ensures
            r.output_path == Some(path),
            r.inputs == self.inputs,
            r.verbatim_files == self.verbatim_files,
    {
        let mut g = self;
        g.output_path = Some(path);
        g
    }
}

} // verus!
