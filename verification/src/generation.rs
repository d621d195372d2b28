//! Which files a generation run makes, under which names and in which
//! order.

use vstd::prelude::*;
use vstd::arithmetic::div_mod::lemma_fundamental_div_mod_converse;
use std::path::PathBuf;
use crate::decimal::{decimal, lemma_decimal_value, push_decimal};
use crate::listing::{is_sorted_listing, names_view, sort_listing};
use crate::parameters::InputParameters;

verus! {

/// The name `codomain_files`, of the folder that holds codomain files.
pub open spec fn codomain_files_name() -> Seq<u8> {
    seq![
        'c' as u8,
        'o' as u8,
        'd' as u8,
        'o' as u8,
        'm' as u8,
        'a' as u8,
        'i' as u8,
        'n' as u8,
        '_' as u8,
        'f' as u8,
        'i' as u8,
        'l' as u8,
        'e' as u8,
        's' as u8,
    ]
}

/// The name `problems`, of the folder that holds problem files.
pub open spec fn problems_name() -> Seq<u8> {
    seq!['p' as u8, 'r' as u8, 'o' as u8, 'b' as u8, 'l' as u8, 'e' as u8, 'm' as u8, 's' as u8]
}

/// The name `problem_generation`, of the folder that holds configuration
/// files.
pub open spec fn problem_generation_name() -> Seq<u8> {
    seq![
        'p' as u8,
        'r' as u8,
        'o' as u8,
        'b' as u8,
        'l' as u8,
        'e' as u8,
        'm' as u8,
        '_' as u8,
        'g' as u8,
        'e' as u8,
        'n' as u8,
        'e' as u8,
        'r' as u8,
        'a' as u8,
        't' as u8,
        'i' as u8,
        'o' as u8,
        'n' as u8,
    ]
}

/// The extension `.txt`.
pub open spec fn txt_extension() -> Seq<u8> {
    seq!['.' as u8, 't' as u8, 'x' as u8, 't' as u8]
}

/// The name of the codomain file and of the problem file of one replicate:
/// the identifier of the codomain function, `m`, `k`, `o`, `b` and the
/// index of the replicate, with `_` between them, and `.txt`.
pub open spec fn file_name_of(id: Seq<u8>, p: InputParameters, replicate_index: u32) -> Seq<u8> {
    id + seq!['_' as u8] + decimal(p.m as nat) + seq!['_' as u8] + decimal(p.k as nat) + seq![
        '_' as u8,
    ] + decimal(p.o as nat) + seq!['_' as u8] + decimal(p.b as nat) + seq!['_' as u8] + decimal(
        replicate_index as nat,
    ) + txt_extension()
}

/// The replicates of one configuration get names of their own: two of them
/// with different indices never share a file.
pub proof fn lemma_file_names_differ(id: Seq<u8>, p: InputParameters, i: u32, j: u32)
    requires
        i != j,
    ensures
        file_name_of(id, p, i) != file_name_of(id, p, j),
{
    let before = id + seq!['_' as u8] + decimal(p.m as nat) + seq!['_' as u8] + decimal(p.k as nat)
        + seq!['_' as u8] + decimal(p.o as nat) + seq!['_' as u8] + decimal(p.b as nat) + seq![
        '_' as u8,
    ];
    let di = decimal(i as nat);
    let dj = decimal(j as nat);
    let name_i = file_name_of(id, p, i);
    let name_j = file_name_of(id, p, j);
    assert(name_i =~= before + di + txt_extension());
    assert(name_j =~= before + dj + txt_extension());
    if name_i == name_j {
        assert(di.len() == dj.len()) by {
            assert(name_i.len() == before.len() + di.len() + 4);
            assert(name_j.len() == before.len() + dj.len() + 4);
        }
        assert(di =~= dj) by {
            assert forall|t: int| 0 <= t < di.len() implies di[t] == dj[t] by {
                assert(name_i[before.len() + t] == di[t]);
                assert(name_j[before.len() + t] == dj[t]);
            }
        }
        lemma_decimal_value(i as nat);
        lemma_decimal_value(j as nat);
        assert(false);
    }
}

/// The name `codomain_files`.
pub fn codomain_files_folder() -> (name: Vec<u8>)
    ensures
        name@ == codomain_files_name(),
{
    let name: Vec<u8> = vec![
        'c' as u8,
        'o' as u8,
        'd' as u8,
        'o' as u8,
        'm' as u8,
        'a' as u8,
        'i' as u8,
        'n' as u8,
        '_' as u8,
        'f' as u8,
        'i' as u8,
        'l' as u8,
        'e' as u8,
        's' as u8,
    ];
    assert(name@ =~= codomain_files_name());
    name
}

/// The name `problems`.
pub fn problems_folder() -> (name: Vec<u8>)
    ensures
        name@ == problems_name(),
{
    let name: Vec<u8> = vec![
        'p' as u8,
        'r' as u8,
        'o' as u8,
        'b' as u8,
        'l' as u8,
        'e' as u8,
        'm' as u8,
        's' as u8,
    ];
    assert(name@ =~= problems_name());
    name
}

/// The name `problem_generation`.
pub fn problem_generation_folder() -> (name: Vec<u8>)
    ensures
        name@ == problem_generation_name(),
{
    let name: Vec<u8> = vec![
        'p' as u8,
        'r' as u8,
        'o' as u8,
        'b' as u8,
        'l' as u8,
        'e' as u8,
        'm' as u8,
        '_' as u8,
        'g' as u8,
        'e' as u8,
        'n' as u8,
        'e' as u8,
        'r' as u8,
        'a' as u8,
        't' as u8,
        'i' as u8,
        'o' as u8,
        'n' as u8,
    ];
    assert(name@ =~= problem_generation_name());
    name
}

/// The file name of one replicate.
pub fn output_file_name(
    codomain_function_id: &[u8],
    input_parameters: &InputParameters,
    replicate_index: u32,
) -> (name: Vec<u8>)
    ensures
        name@ == file_name_of(codomain_function_id@, *input_parameters, replicate_index),
{
    let mut name: Vec<u8> = Vec::new();
    name.extend_from_slice(codomain_function_id);
    name.push('_' as u8);
    push_decimal(&mut name, input_parameters.m as u64);
    name.push('_' as u8);
    push_decimal(&mut name, input_parameters.k as u64);
    name.push('_' as u8);
    push_decimal(&mut name, input_parameters.o as u64);
    name.push('_' as u8);
    push_decimal(&mut name, input_parameters.b as u64);
    name.push('_' as u8);
    push_decimal(&mut name, replicate_index as u64);
    name.push('.' as u8);
    name.push('t' as u8);
    name.push('x' as u8);
    name.push('t' as u8);
    assert(name@ =~= file_name_of(codomain_function_id@, *input_parameters, replicate_index));
    name
}

/// One problem to generate: its shape, which of the replicates of that
/// shape it is, and the name of its codomain file and of its problem file.
#[derive(Clone, Debug, PartialEq, Eq)]
pub struct Replicate {
    pub input_parameters: InputParameters,
    pub replicate_index: u32,
    pub file_name: Vec<u8>,
}

/// Where the files of a run go.
#[derive(Debug, PartialEq, Eq)]
pub enum OutputFolder {
    /// Into the folder that was given.
    Given(PathBuf),
    /// Into the folder of this name that belongs to the place of the
    /// configuration file.
    Derived(Vec<u8>),
}

/// The folder for an output: the one that was given, or else the one
/// named `default_name`.
pub open spec fn output_folder_of(
    given: Option<PathBuf>,
    default_name: Seq<u8>,
    r: OutputFolder,
) -> bool {
    match given {
        Some(path) => r == OutputFolder::Given(path),
        None => r matches OutputFolder::Derived(name) && name@ == default_name,
    }
}

/// What one configuration file asks for: the folders for the codomain
/// files and the problem files, and the replicates in the order in which
/// they are generated.
#[derive(Debug, PartialEq, Eq)]
pub struct GenerationPlan {
    pub codomain_folder: OutputFolder,
    pub problem_folder: OutputFolder,
    pub replicates: Vec<Replicate>,
}

/// The `t`-th of the replicates of some configurations, `n` of each:
/// replicate `t % n` of configuration `t / n`.
pub open spec fn is_replicate(
    r: Replicate,
    id: Seq<u8>,
    configurations: Seq<InputParameters>,
    n: int,
    t: int,
) -> bool {
    &&& r.input_parameters == configurations[t / n]
    &&& r.replicate_index == t % n
    &&& r.file_name@ == file_name_of(id, configurations[t / n], (t % n) as u32)
}

/// The replicates of a configuration stand together, and the
/// configurations in their order: replicate `j` of configuration `i`
/// stands at place `i * n + j`.
pub proof fn lemma_replicate_place(
    replicates: Seq<Replicate>,
    id: Seq<u8>,
    configurations: Seq<InputParameters>,
    n: int,
    i: int,
    j: int,
)
    requires
        replicates.len() == configurations.len() * n,
        forall|t: int|
            0 <= t < replicates.len() ==> is_replicate(
                #[trigger] replicates[t],
                id,
                configurations,
                n,
                t,
            ),
        0 <= i < configurations.len(),
        0 <= j < n <= u32::MAX,
    ensures
        0 <= i * n + j < replicates.len(),
        replicates[i * n + j].input_parameters == configurations[i],
        replicates[i * n + j].replicate_index == j,
        replicates[i * n + j].file_name@ == file_name_of(id, configurations[i], j as u32),
{
    assert(0 <= i * n && i * n + n <= configurations.len() * n) by (nonlinear_arith)
        requires
            0 <= i < configurations.len(),
            0 < n,
    ;
    lemma_fundamental_div_mod_converse(i * n + j, n, i, j);
    assert(is_replicate(replicates[i * n + j], id, configurations, n, i * n + j));
}

/// Plans the generation for one configuration file.
///
/// For each configuration, in the order given, come its
/// `number_of_problems_to_generate` replicates, numbered from 0. A folder
/// that was given is used as it is; one that was not is derived:
/// `codomain_files` for the codomain files, `problems` for the problem
/// files.
pub fn generate_codomain_and_problem(
    codomain_function_id: &[u8],
    configurations: &Vec<InputParameters>,
    output_codomain_folder_path: Option<PathBuf>,
    output_problem_folder_path: Option<PathBuf>,
    number_of_problems_to_generate: u32,
) -> (plan: GenerationPlan)
    ensures
        output_folder_of(output_codomain_folder_path, codomain_files_name(), plan.codomain_folder),
        output_folder_of(output_problem_folder_path, problems_name(), plan.problem_folder),
        plan.replicates@.len() == configurations@.len() * number_of_problems_to_generate,
        forall|t: int|
            0 <= t < plan.replicates@.len() ==> is_replicate(
                #[trigger] plan.replicates@[t],
                codomain_function_id@,
                configurations@,
                number_of_problems_to_generate as int,
                t,
            ),
{
    let codomain_folder = match output_codomain_folder_path {
        Some(path) => OutputFolder::Given(path),
        None => OutputFolder::Derived(codomain_files_folder()),
    };
    let problem_folder = match output_problem_folder_path {
        Some(path) => OutputFolder::Given(path),
        None => OutputFolder::Derived(problems_folder()),
    };
    let n: u32 = number_of_problems_to_generate;
    let mut replicates: Vec<Replicate> = Vec::new();
    let mut i: usize = 0;
    assert(0 * (n as int) == 0);
    while i < configurations.len()
        invariant
            i <= configurations@.len(),
            n == number_of_problems_to_generate,
            replicates@.len() == i * n,
            forall|t: int|
                0 <= t < replicates@.len() ==> is_replicate(
                    #[trigger] replicates@[t],
                    codomain_function_id@,
                    configurations@,
                    n as int,
                    t,
                ),
        decreases configurations@.len() - i,
    {
        let input_parameters = configurations[i];
        let mut j: u32 = 0;
        while j < n
            invariant
                i < configurations@.len(),
                j <= n,
                input_parameters == configurations@[i as int],
                replicates@.len() == i * n + j,
                forall|t: int|
                    0 <= t < replicates@.len() ==> is_replicate(
                        #[trigger] replicates@[t],
                        codomain_function_id@,
                        configurations@,
                        n as int,
                        t,
                    ),
            decreases n - j,
        {
            let file_name = output_file_name(codomain_function_id, &input_parameters, j);
            proof {
                lemma_fundamental_div_mod_converse(i * n + j, n as int, i as int, j as int);
            }
            replicates.push(Replicate { input_parameters, replicate_index: j, file_name });
            j += 1;
        }
        assert((i + 1) * n == i * n + n) by (nonlinear_arith);
        i += 1;
    }
    GenerationPlan { codomain_folder, problem_folder, replicates }
}

/// A folder of codomain files and the folder of problem files that mirrors
/// it: both have the same name, the one below `codomain_files`, the other
/// below `problems`.
#[derive(Clone, Debug, PartialEq, Eq)]
pub struct FolderMirror {
    pub name: Vec<u8>,
}

/// A path below the folder that a run was given, as the names to go
/// through.
pub open spec fn is_path(path: Seq<Vec<u8>>, names: Seq<Seq<u8>>) -> bool {
    names_view(path) == names
}

impl FolderMirror {
    /// The folder of the codomain files: `codomain_files`, then the name.
    pub fn codomain_folder(&self) -> (path: Vec<Vec<u8>>)
        ensures
            is_path(path@, seq![codomain_files_name(), self.name@]),
    {
        let path: Vec<Vec<u8>> = vec![codomain_files_folder(), self.name.clone()];
        assert(names_view(path@) =~= seq![codomain_files_name(), self.name@]);
        path
    }

    /// The folder to make for the problem files: `problems`, then the
    /// name.
    pub fn problems_folder(&self) -> (path: Vec<Vec<u8>>)
        ensures
            is_path(path@, seq![problems_name(), self.name@]),
    {
        let path: Vec<Vec<u8>> = vec![problems_folder(), self.name.clone()];
        assert(names_view(path@) =~= seq![problems_name(), self.name@]);
        path
    }

    /// The problem file for a codomain file: in the folder of the problem
    /// files, under the name of the codomain file.
    pub fn problem_file(&self, codomain_file_name: &[u8]) -> (path: Vec<Vec<u8>>)
        ensures
            is_path(path@, seq![problems_name(), self.name@, codomain_file_name@]),
    {
        let mut file_name: Vec<u8> = Vec::new();
        file_name.extend_from_slice(codomain_file_name);
        assert(file_name@ =~= codomain_file_name@);
        let path: Vec<Vec<u8>> = vec![problems_folder(), self.name.clone(), file_name];
        assert(names_view(path@) =~= seq![problems_name(), self.name@, codomain_file_name@]);
        path
    }
}

/// The names of some mirrored folders.
pub open spec fn mirror_names(v: Seq<FolderMirror>) -> Seq<Seq<u8>> {
    Seq::new(v.len(), |i: int| v[i].name@)
}

/// Plans the generation for the folders below `codomain_files`.
///
/// `folder_names` are the entries of `codomain_files`, in any order. The
/// result holds one mirror for each of them, in lexicographic order.
pub fn generate_problems_from_codomain_folder(folder_names: Vec<Vec<u8>>) -> (mirrors: Vec<
    FolderMirror,
>)
    ensures
        is_sorted_listing(mirror_names(mirrors@), names_view(folder_names@)),
        mirrors@.len() == folder_names@.len(),
{
    let sorted = sort_listing(folder_names);
    let mut mirrors: Vec<FolderMirror> = Vec::new();
    for name in it: sorted
        invariant
            it.seq() == sorted@,
            mirrors@.len() == it.index(),
            forall|i: int| 0 <= i < mirrors@.len() ==> (#[trigger] mirrors@[i]).name == sorted@[i],
    {
        mirrors.push(FolderMirror { name });
    }
    assert(mirror_names(mirrors@) =~= names_view(sorted@));
    mirrors
}

/// One configuration file to work through: its name below
/// `problem_generation`, and how many problems to generate for each of its
/// configurations. Its output folders are derived.
#[derive(Clone, Debug, PartialEq, Eq)]
pub struct ConfigurationJob {
    pub file_name: Vec<u8>,
    pub number_of_problems_to_generate: u32,
}

impl ConfigurationJob {
    /// The configuration file: `problem_generation`, then the name.
    pub fn configuration_file(&self) -> (path: Vec<Vec<u8>>)
        ensures
            is_path(path@, seq![problem_generation_name(), self.file_name@]),
    {
        let path: Vec<Vec<u8>> = vec![problem_generation_folder(), self.file_name.clone()];
        assert(names_view(path@) =~= seq![problem_generation_name(), self.file_name@]);
        path
    }
}

/// The names of the files of some jobs.
pub open spec fn job_names(v: Seq<ConfigurationJob>) -> Seq<Seq<u8>> {
    Seq::new(v.len(), |i: int| v[i].file_name@)
}

/// Plans the generation for the files below `problem_generation`.
///
/// `file_names` are the entries of `problem_generation`, in any order. The
/// result holds one job for each of them, in lexicographic order, each for
/// the same number of problems.
pub fn generate_codomain_and_problem_from_folder(
    file_names: Vec<Vec<u8>>,
    number_of_problems_to_generate: u32,
) -> (jobs: Vec<ConfigurationJob>)
    ensures
        is_sorted_listing(job_names(jobs@), names_view(file_names@)),
        jobs@.len() == file_names@.len(),
        forall|i: int|
            0 <= i < jobs@.len() ==> (#[trigger] jobs@[i]).number_of_problems_to_generate
                == number_of_problems_to_generate,
{
    let sorted = sort_listing(file_names);
    let mut jobs: Vec<ConfigurationJob> = Vec::new();
    for file_name in it: sorted
        invariant
            it.seq() == sorted@,
            jobs@.len() == it.index(),
            forall|i: int| 0 <= i < jobs@.len() ==> (#[trigger] jobs@[i]).file_name == sorted@[i],
            forall|i: int|
                0 <= i < jobs@.len() ==> (#[trigger] jobs@[i]).number_of_problems_to_generate
                    == number_of_problems_to_generate,
    {
        jobs.push(ConfigurationJob { file_name, number_of_problems_to_generate });
    }
    assert(job_names(jobs@) =~= names_view(sorted@));
    jobs
}

} // verus!
