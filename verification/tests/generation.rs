use mk_landscape::command::{run_opt, GenerationCall, ProblemCommand, ProblemOpt};
use mk_landscape::generation::{
    codomain_files_folder, generate_codomain_and_problem,
    generate_codomain_and_problem_from_folder, generate_problems_from_codomain_folder,
    output_file_name, problem_generation_folder, problems_folder, ConfigurationJob, FolderMirror,
    OutputFolder,
};
use mk_landscape::listing::sort_listing;
use mk_landscape::parameters::InputParameters;
use std::path::PathBuf;

fn names(list: &[&str]) -> Vec<Vec<u8>> {
    list.iter().map(|name| name.as_bytes().to_vec()).collect()
}

#[test]
fn three_replicates_are_named_by_their_index() {
    let configurations = vec![InputParameters::new_from_primitives(2, 2, 0, 0)];
    let plan = generate_codomain_and_problem(b"L", &configurations, None, None, 3);
    let file_names: Vec<Vec<u8>> =
        plan.replicates.iter().map(|replicate| replicate.file_name.clone()).collect();
    assert_eq!(file_names, names(&["L_2_2_0_0_0.txt", "L_2_2_0_0_1.txt", "L_2_2_0_0_2.txt"]));
}

#[test]
fn file_name_holds_the_parameters_in_order() {
    let p = InputParameters::new_from_primitives(10, 5, 2, 1);
    assert_eq!(output_file_name(b"random", &p, 12), b"random_10_5_2_1_12.txt".to_vec());
    assert_eq!(output_file_name(b"", &p, 0), b"_10_5_2_1_0.txt".to_vec());
    let q = InputParameters::new_from_primitives(4294967295, 0, 0, 4294967295);
    assert_eq!(
        output_file_name(b"deceptive-trap", &q, 4294967295),
        b"deceptive-trap_4294967295_0_0_4294967295_4294967295.txt".to_vec()
    );
}

#[test]
fn replicates_of_one_configuration_stand_together() {
    let a = InputParameters::new_from_primitives(2, 3, 1, 0);
    let b = InputParameters::new_from_primitives(4, 3, 2, 1);
    let plan = generate_codomain_and_problem(b"f", &vec![a, b], None, None, 2);
    assert_eq!(plan.replicates.len(), 4);
    let seen: Vec<(InputParameters, u32, Vec<u8>)> = plan
        .replicates
        .iter()
        .map(|r| (r.input_parameters, r.replicate_index, r.file_name.clone()))
        .collect();
    assert_eq!(
        seen,
        vec![
            (a, 0, b"f_2_3_1_0_0.txt".to_vec()),
            (a, 1, b"f_2_3_1_0_1.txt".to_vec()),
            (b, 0, b"f_4_3_2_1_0.txt".to_vec()),
            (b, 1, b"f_4_3_2_1_1.txt".to_vec()),
        ]
    );
}

#[test]
fn no_replicates_where_none_are_asked_for() {
    let a = InputParameters::new_from_primitives(2, 3, 1, 0);
    assert!(generate_codomain_and_problem(b"f", &vec![a], None, None, 0).replicates.is_empty());
    assert!(generate_codomain_and_problem(b"f", &vec![], None, None, 5).replicates.is_empty());
}

#[test]
fn output_folders_are_derived_unless_given() {
    let plan = generate_codomain_and_problem(b"f", &vec![], None, None, 1);
    assert_eq!(plan.codomain_folder, OutputFolder::Derived(b"codomain_files".to_vec()));
    assert_eq!(plan.problem_folder, OutputFolder::Derived(b"problems".to_vec()));
    let plan = generate_codomain_and_problem(
        b"f",
        &vec![],
        Some(PathBuf::from("out/c")),
        Some(PathBuf::from("out/p")),
        1,
    );
    assert_eq!(plan.codomain_folder, OutputFolder::Given(PathBuf::from("out/c")));
    assert_eq!(plan.problem_folder, OutputFolder::Given(PathBuf::from("out/p")));
    let plan = generate_codomain_and_problem(b"f", &vec![], Some(PathBuf::from("c")), None, 1);
    assert_eq!(plan.codomain_folder, OutputFolder::Given(PathBuf::from("c")));
    assert_eq!(plan.problem_folder, OutputFolder::Derived(b"problems".to_vec()));
}

#[test]
fn folder_names_are_spelled_out() {
    assert_eq!(codomain_files_folder(), b"codomain_files".to_vec());
    assert_eq!(problems_folder(), b"problems".to_vec());
    assert_eq!(problem_generation_folder(), b"problem_generation".to_vec());
}

#[test]
fn listing_is_sorted_by_bytes() {
    assert_eq!(sort_listing(names(&["b", "a", "c"])), names(&["a", "b", "c"]));
    assert_eq!(
        sort_listing(names(&["f_10.txt", "f_2.txt", "f_1.txt", "F_3.txt", "f_1", ""])),
        names(&["", "F_3.txt", "f_1", "f_1.txt", "f_10.txt", "f_2.txt"])
    );
    assert_eq!(sort_listing(names(&["x", "x", "a"])), names(&["a", "x", "x"]));
    assert_eq!(sort_listing(vec![vec![0xff], vec![0x7f], vec![]]), vec![vec![], vec![0x7f], vec![0xff]]);
    assert_eq!(sort_listing(vec![]), Vec::<Vec<u8>>::new());
}

#[test]
fn listing_is_sorted_as_paths_are() {
    let list = ["m_10", "m_9", "M", "a.txt", "a", "a b", "z", "\u{e9}t\u{e9}"];
    let mut paths: Vec<PathBuf> = list.iter().map(|name| PathBuf::from("dir").join(name)).collect();
    paths.sort();
    let expected: Vec<Vec<u8>> = paths
        .iter()
        .map(|path| path.file_name().unwrap().to_str().unwrap().as_bytes().to_vec())
        .collect();
    assert_eq!(sort_listing(names(&list)), expected);
}

#[test]
fn codomain_folders_are_mirrored_in_sorted_order() {
    let mirrors = generate_problems_from_codomain_folder(names(&["trap", "random", "nk"]));
    assert_eq!(
        mirrors,
        vec![
            FolderMirror { name: b"nk".to_vec() },
            FolderMirror { name: b"random".to_vec() },
            FolderMirror { name: b"trap".to_vec() },
        ]
    );
    assert_eq!(mirrors[0].codomain_folder(), names(&["codomain_files", "nk"]));
    assert_eq!(mirrors[0].problems_folder(), names(&["problems", "nk"]));
    assert_eq!(
        mirrors[2].problem_file(b"trap_2_3_1_0_0.txt"),
        names(&["problems", "trap", "trap_2_3_1_0_0.txt"])
    );
}

#[test]
fn configuration_files_are_worked_through_in_sorted_order() {
    let jobs = generate_codomain_and_problem_from_folder(names(&["b.txt", "a.txt"]), 4);
    assert_eq!(
        jobs,
        vec![
            ConfigurationJob { file_name: b"a.txt".to_vec(), number_of_problems_to_generate: 4 },
            ConfigurationJob { file_name: b"b.txt".to_vec(), number_of_problems_to_generate: 4 },
        ]
    );
    assert_eq!(jobs[1].configuration_file(), names(&["problem_generation", "b.txt"]));
    assert!(generate_codomain_and_problem_from_folder(vec![], 1).is_empty());
}

#[test]
fn codomain_folder_command_makes_one_call_for_each_folder() {
    let plan = run_opt(ProblemOpt {
        problem_command: ProblemCommand::CodomainFolder {
            folder_paths: vec![PathBuf::from("b"), PathBuf::from("a")],
            generated: true,
        },
        seed: Some(7),
    });
    assert_eq!(plan.seed, Some(7));
    assert_eq!(
        plan.calls,
        vec![
            GenerationCall::CodomainFolder {
                parent_folder_path: PathBuf::from("b"),
                generated: true
            },
            GenerationCall::CodomainFolder {
                parent_folder_path: PathBuf::from("a"),
                generated: true
            },
        ]
    );
}

#[test]
fn configuration_folder_command_makes_one_call_for_each_folder() {
    let plan = run_opt(ProblemOpt {
        problem_command: ProblemCommand::ConfigurationFolder {
            folder_paths: vec![PathBuf::from("x"), PathBuf::from("y"), PathBuf::from("x")],
            number_of_problems_to_generate: 5,
        },
        seed: None,
    });
    assert_eq!(plan.seed, None);
    assert_eq!(
        plan.calls,
        vec![
            GenerationCall::ConfigurationFolder {
                input_folder_path: PathBuf::from("x"),
                number_of_problems_to_generate: 5
            },
            GenerationCall::ConfigurationFolder {
                input_folder_path: PathBuf::from("y"),
                number_of_problems_to_generate: 5
            },
            GenerationCall::ConfigurationFolder {
                input_folder_path: PathBuf::from("x"),
                number_of_problems_to_generate: 5
            },
        ]
    );
}

#[test]
fn folder_command_without_folders_makes_no_call() {
    let plan = run_opt(ProblemOpt {
        problem_command: ProblemCommand::CodomainFolder { folder_paths: vec![], generated: false },
        seed: Some(0),
    });
    assert!(plan.calls.is_empty());
}

#[test]
fn codomain_file_command_makes_one_call() {
    let plan = run_opt(ProblemOpt {
        problem_command: ProblemCommand::CodomainFile {
            input_codomain_file_path: PathBuf::from("in.txt"),
            output_problem_file_path: PathBuf::from("out.txt"),
            generated: false,
        },
        seed: Some(1),
    });
    assert_eq!(
        plan.calls,
        vec![GenerationCall::CodomainFile {
            codomain_file_path: PathBuf::from("in.txt"),
            output_problem_file_path: PathBuf::from("out.txt"),
            generated: false
        }]
    );
}

#[test]
fn configuration_file_command_gives_both_folders() {
    let plan = run_opt(ProblemOpt {
        problem_command: ProblemCommand::ConfigurationFile {
            input_configuration_file_path: PathBuf::from("conf.txt"),
            output_codomain_folder_path: PathBuf::from("c"),
            output_problem_folder_path: PathBuf::from("p"),
            number_of_problems_to_generate: 1,
        },
        seed: None,
    });
    assert_eq!(
        plan.calls,
        vec![GenerationCall::ConfigurationFile {
            input_configuration_file_path: PathBuf::from("conf.txt"),
            output_codomain_folder_path: Some(PathBuf::from("c")),
            output_problem_folder_path: Some(PathBuf::from("p")),
            number_of_problems_to_generate: 1
        }]
    );
}

#[test]
fn replicates_never_share_a_file_name() {
    let a = InputParameters::new_from_primitives(1, 1, 1, 1);
    let b = InputParameters::new_from_primitives(11, 1, 1, 1);
    let plan = generate_codomain_and_problem(b"f", &vec![a, b], None, None, 12);
    let mut file_names: Vec<Vec<u8>> =
        plan.replicates.iter().map(|replicate| replicate.file_name.clone()).collect();
    assert_eq!(file_names.len(), 24);
    file_names.sort();
    file_names.dedup();
    assert_eq!(file_names.len(), 24);
}
