//! The commands of the problem generator, and the calls that each of them
//! stands for.

use vstd::prelude::*;
use std::path::PathBuf;

verus! {

/// A path of the file system. It is carried from a command to the calls
/// that it stands for and never looked into.
#[verifier::external_type_specification]
#[verifier::external_body]
pub struct ExPathBuf(PathBuf);

/// What the problem generator was asked to do, and the seed of its random
/// source, where one was given.
#[derive(Debug, PartialEq, Eq)]
pub struct ProblemOpt {
    pub problem_command: ProblemCommand,
    pub seed: Option<u64>,
}

/// The four ways to say which problems to generate.
#[derive(Debug, PartialEq, Eq)]
pub enum ProblemCommand {
    /// Folders that each hold a folder `codomain_files`: a problem for
    /// every codomain file in it.
    CodomainFolder { folder_paths: Vec<PathBuf>, generated: bool },
    /// Folders that each hold a folder `problem_generation`: codomains and
    /// problems for every configuration file in it.
    ConfigurationFolder { folder_paths: Vec<PathBuf>, number_of_problems_to_generate: u32 },
    /// One codomain file and the problem file to write for it.
    CodomainFile {
        input_codomain_file_path: PathBuf,
        output_problem_file_path: PathBuf,
        generated: bool,
    },
    /// One configuration file and the folders for its codomains and
    /// problems.
    ConfigurationFile {
        input_configuration_file_path: PathBuf,
        output_codomain_folder_path: PathBuf,
        output_problem_folder_path: PathBuf,
        number_of_problems_to_generate: u32,
    },
}

/// One call of a generation entry point.
#[derive(Debug, PartialEq, Eq)]
pub enum GenerationCall {
    /// Problems for the codomain files below one folder.
    CodomainFolder { parent_folder_path: PathBuf, generated: bool },
    /// Codomains and problems for the configuration files below one folder.
    ConfigurationFolder { input_folder_path: PathBuf, number_of_problems_to_generate: u32 },
    /// The problem for one codomain file.
    CodomainFile {
        codomain_file_path: PathBuf,
        output_problem_file_path: PathBuf,
        generated: bool,
    },
    /// Codomains and problems for one configuration file. Where a folder is
    /// `None`, it is derived from the place of the configuration file.
    ConfigurationFile {
        input_configuration_file_path: PathBuf,
        output_codomain_folder_path: Option<PathBuf>,
        output_problem_folder_path: Option<PathBuf>,
        number_of_problems_to_generate: u32,
    },
}

/// The calls to make, in this order and up to the first that fails, with a
/// random source that was seeded once for all of them.
#[derive(Debug, PartialEq, Eq)]
pub struct RunPlan {
    pub seed: Option<u64>,
    pub calls: Vec<GenerationCall>,
}

/// The calls that a command stands for: one for each folder, in the order
/// in which the folders were given, or one for the single file.
pub open spec fn calls_of(command: ProblemCommand) -> Seq<GenerationCall> {
    match command {
        ProblemCommand::CodomainFolder { folder_paths, generated } => Seq::new(
            folder_paths@.len(),
            |i: int|
                GenerationCall::CodomainFolder { parent_folder_path: folder_paths@[i], generated },
        ),
        ProblemCommand::ConfigurationFolder {
            folder_paths,
            number_of_problems_to_generate,
        } => Seq::new(
            folder_paths@.len(),
            |i: int|
                GenerationCall::ConfigurationFolder {
                    input_folder_path: folder_paths@[i],
                    number_of_problems_to_generate,
                },
        ),
        ProblemCommand::CodomainFile {
            input_codomain_file_path,
            output_problem_file_path,
            generated,
        } => seq![
            GenerationCall::CodomainFile {
                codomain_file_path: input_codomain_file_path,
                output_problem_file_path,
                generated,
            },
        ],
        ProblemCommand::ConfigurationFile {
            input_configuration_file_path,
            output_codomain_folder_path,
            output_problem_folder_path,
            number_of_problems_to_generate,
        } => seq![
            GenerationCall::ConfigurationFile {
                input_configuration_file_path,
                output_codomain_folder_path: Some(output_codomain_folder_path),
                output_problem_folder_path: Some(output_problem_folder_path),
                number_of_problems_to_generate,
            },
        ],
    }
}

/// Turns the options of the command line into the calls to make.
pub fn run_opt(problem_opt: ProblemOpt) -> (plan: RunPlan)
    ensures
        plan.seed == problem_opt.seed,
        plan.calls@ == calls_of(problem_opt.problem_command),
{
    let seed = problem_opt.seed;
    let mut calls: Vec<GenerationCall> = Vec::new();
    match problem_opt.problem_command {
        ProblemCommand::CodomainFolder { folder_paths, generated } => {
            for parent_folder_path in it: folder_paths
                invariant
                    it.seq() == folder_paths@,
                    calls@.len() == it.index(),
                    forall|i: int|
                        0 <= i < calls@.len() ==> calls@[i] == (GenerationCall::CodomainFolder {
                            parent_folder_path: folder_paths@[i],
                            generated,
                        }),
            {
                calls.push(GenerationCall::CodomainFolder { parent_folder_path, generated });
            }
        },
        ProblemCommand::ConfigurationFolder { folder_paths, number_of_problems_to_generate } => {
            for input_folder_path in it: folder_paths
                invariant
                    it.seq() == folder_paths@,
                    calls@.len() == it.index(),
                    forall|i: int|
                        0 <= i < calls@.len() ==> calls@[i] == (
                        GenerationCall::ConfigurationFolder {
                            input_folder_path: folder_paths@[i],
                            number_of_problems_to_generate,
                        }),
            {
                calls.push(
                    GenerationCall::ConfigurationFolder {
                        input_folder_path,
                        number_of_problems_to_generate,
                    },
                );
            }
        },
        ProblemCommand::CodomainFile {
            input_codomain_file_path,
            output_problem_file_path,
            generated,
        } => {
            calls.push(
                GenerationCall::CodomainFile {
                    codomain_file_path: input_codomain_file_path,
                    output_problem_file_path,
                    generated,
                },
            );
        },
        ProblemCommand::ConfigurationFile {
            input_configuration_file_path,
            output_codomain_folder_path,
            output_problem_folder_path,
            number_of_problems_to_generate,
        } => {
            calls.push(
                GenerationCall::ConfigurationFile {
                    input_configuration_file_path,
                    output_codomain_folder_path: Some(output_codomain_folder_path),
                    output_problem_folder_path: Some(output_problem_folder_path),
                    number_of_problems_to_generate,
                },
            );
        },
    }
    assert(calls@ =~= calls_of(problem_opt.problem_command));
    RunPlan { seed, calls }
}

} // verus!
