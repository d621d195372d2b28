use mk_landscape::format::ReadError;
use mk_landscape::parameters::InputParameters;
use mk_landscape::problem::Problem;
use mk_landscape::reader::read_problem_from_file;
use mk_landscape::writer::write_problem_to_file;

fn example_problem() -> Problem {
    Problem {
        input_parameters: InputParameters::new_from_primitives(2, 3, 1, 0),
        glob_optima_score: b"-1.5".to_vec(),
        glob_optima_strings: vec![vec![0, 1, 0, 1, 0]],
        cliques: vec![vec![0, 1, 2], vec![2, 3, 4]],
    }
}

fn read_error(text: &str) -> ReadError {
    match read_problem_from_file(text.as_bytes()) {
        Ok(problem) => panic!("read as {:?}", problem),
        Err(e) => e,
    }
}

#[test]
fn example_is_written_line_by_line() {
    let text = write_problem_to_file(&example_problem());
    assert_eq!(text, b"2 3 1 0\n-1.5\n1\n01010\n0 1 2\n2 3 4\n".to_vec());
}

#[test]
fn example_is_read_back_unchanged() {
    let problem = example_problem();
    let text = write_problem_to_file(&problem);
    let read = read_problem_from_file(&text).unwrap();
    assert_eq!(read, problem);
    assert_eq!(read.input_parameters.problem_size(), 5);
    assert_eq!(read.glob_optima_strings[0].len(), 5);
    let score: f64 = String::from_utf8(read.glob_optima_score).unwrap().parse().unwrap();
    assert_eq!(score, -1.5);
}

#[test]
fn example_with_a_clique_of_two_indices_fails() {
    assert_eq!(read_error("2 3 1 0\n-1.5\n1\n01010\n0 1\n2 3 4\n"), ReadError::WrongCliqueLength);
    assert_eq!(read_error("2 3 1 0\n-1.5\n1\n01010\n0 1 2\n2 3\n"), ReadError::WrongCliqueLength);
}

#[test]
fn clique_of_four_indices_fails() {
    assert_eq!(
        read_error("2 3 1 0\n-1.5\n1\n01010\n0 1 2 3\n2 3 4\n"),
        ReadError::WrongCliqueLength
    );
}

#[test]
fn written_float_is_read_back_as_the_same_float() {
    for score in [0.1f64, -1.5, 1.0 / 3.0, 1e300, -2.5e-7, f64::MAX, f64::MIN_POSITIVE, 0.0] {
        let mut problem = example_problem();
        problem.glob_optima_score = format!("{}", score).into_bytes();
        assert!(problem.is_well_formed());
        let text = write_problem_to_file(&problem);
        let read = read_problem_from_file(&text).unwrap();
        assert_eq!(read, problem);
        let back: f64 = String::from_utf8(read.glob_optima_score).unwrap().parse().unwrap();
        assert_eq!(back, score);
    }
}

#[test]
fn infinite_and_undefined_scores_are_read_back() {
    for score in [f64::INFINITY, f64::NEG_INFINITY, f64::NAN] {
        let mut problem = example_problem();
        problem.glob_optima_score = format!("{}", score).into_bytes();
        assert!(problem.is_well_formed());
        let text = write_problem_to_file(&problem);
        assert_eq!(read_problem_from_file(&text).unwrap(), problem);
    }
}

#[test]
fn problem_without_optima_is_read_back() {
    let mut problem = example_problem();
    problem.glob_optima_strings = vec![];
    let text = write_problem_to_file(&problem);
    assert_eq!(text, b"2 3 1 0\n-1.5\n0\n0 1 2\n2 3 4\n".to_vec());
    assert_eq!(read_problem_from_file(&text).unwrap(), problem);
}

#[test]
fn problem_with_several_optima_is_read_back() {
    let problem = Problem {
        input_parameters: InputParameters::new_from_primitives(3, 2, 1, 7),
        glob_optima_score: b"12".to_vec(),
        glob_optima_strings: vec![vec![0, 0, 0, 0], vec![1, 1, 1, 1], vec![1, 0, 9, 2]],
        cliques: vec![vec![0, 1], vec![1, 2], vec![4294967295, 3]],
    };
    assert!(problem.is_well_formed());
    let text = write_problem_to_file(&problem);
    assert_eq!(text, b"3 2 1 7\n12\n3\n0000\n1111\n1092\n0 1\n1 2\n4294967295 3\n".to_vec());
    assert_eq!(read_problem_from_file(&text).unwrap(), problem);
}

#[test]
fn problem_without_variables_is_read_back() {
    let problem = Problem {
        input_parameters: InputParameters::new_from_primitives(2, 0, 0, 0),
        glob_optima_score: b"0".to_vec(),
        glob_optima_strings: vec![vec![]],
        cliques: vec![vec![], vec![]],
    };
    assert!(problem.is_well_formed());
    let text = write_problem_to_file(&problem);
    assert_eq!(text, b"2 0 0 0\n0\n1\n\n\n\n".to_vec());
    assert_eq!(read_problem_from_file(&text).unwrap(), problem);
}

#[test]
fn lines_behind_the_last_clique_are_ignored() {
    let read = read_problem_from_file(b"2 3 1 0\n-1.5\n1\n01010\n0 1 2\n2 3 4\nmore\n\x00\xff").unwrap();
    assert_eq!(read, example_problem());
}

#[test]
fn last_line_needs_no_line_feed() {
    let read = read_problem_from_file(b"2 3 1 0\n-1.5\n1\n01010\n0 1 2\n2 3 4").unwrap();
    assert_eq!(read, example_problem());
}

#[test]
fn carriage_returns_before_line_feeds_are_dropped() {
    let read =
        read_problem_from_file(b"2 3 1 0\r\n-1.5\r\n1\r\n01010\r\n0 1 2\r\n2 3 4\r\n").unwrap();
    assert_eq!(read, example_problem());
}

#[test]
fn tokens_may_be_set_apart_by_any_white_space() {
    let read = read_problem_from_file(b" 2  3\t1 0 \n-1.5\n1\n01010\n0 1  2\n\t2 3 4\n").unwrap();
    assert_eq!(read, example_problem());
}

#[test]
fn a_plus_sign_may_stand_before_a_number() {
    let read = read_problem_from_file(b"+2 3 1 0\n-1.5\n+1\n01010\n0 +1 2\n2 3 4\n").unwrap();
    assert_eq!(read, example_problem());
}

#[test]
fn empty_file_fails() {
    assert_eq!(read_error(""), ReadError::EmptyFile);
}

#[test]
fn first_line_with_three_or_five_tokens_fails() {
    assert_eq!(read_error("2 3 1\n-1.5\n"), ReadError::WrongParameterCount);
    assert_eq!(read_error("2 3 1 0 0\n-1.5\n"), ReadError::WrongParameterCount);
    assert_eq!(read_error("\n"), ReadError::WrongParameterCount);
}

#[test]
fn parameter_that_is_no_number_fails() {
    assert_eq!(read_error("2 3 x 0\n"), ReadError::InvalidParameter);
    assert_eq!(read_error("2 3 -1 0\n"), ReadError::InvalidParameter);
    assert_eq!(read_error("2 3 1 4294967296\n"), ReadError::InvalidParameter);
    assert_eq!(read_error("2 3 1.0 0\n"), ReadError::InvalidParameter);
    assert_eq!(read_error("2 3 + 0\n"), ReadError::InvalidParameter);
}

#[test]
fn parameters_of_no_landscape_fail() {
    assert_eq!(read_error("0 3 1 0\n-1.5\n0\n"), ReadError::ParametersOutOfRange);
    assert_eq!(read_error("2 3 4 0\n-1.5\n0\n"), ReadError::ParametersOutOfRange);
    assert_eq!(read_error("3 4294967295 0 0\n-1.5\n0\n"), ReadError::ParametersOutOfRange);
}

#[test]
fn missing_score_fails() {
    assert_eq!(read_error("2 3 1 0\n"), ReadError::MissingScore);
    assert_eq!(read_error("2 3 1 0"), ReadError::MissingScore);
}

#[test]
fn score_that_is_no_number_fails() {
    assert_eq!(read_error("2 3 1 0\nhigh\n1\n"), ReadError::InvalidScore);
    assert_eq!(read_error("2 3 1 0\n\n1\n"), ReadError::InvalidScore);
    assert_eq!(read_error("2 3 1 0\n -1.5\n1\n"), ReadError::InvalidScore);
    assert_eq!(read_error("2 3 1 0\n-1.5 \n1\n"), ReadError::InvalidScore);
    assert_eq!(read_error("2 3 1 0\n1e\n1\n"), ReadError::InvalidScore);
}

#[test]
fn missing_number_of_optima_fails() {
    assert_eq!(read_error("2 3 1 0\n-1.5\n"), ReadError::MissingOptimaCount);
}

#[test]
fn number_of_optima_that_is_no_number_fails() {
    assert_eq!(read_error("2 3 1 0\n-1.5\nmany\n"), ReadError::InvalidOptimaCount);
    assert_eq!(read_error("2 3 1 0\n-1.5\n-1\n"), ReadError::InvalidOptimaCount);
    assert_eq!(read_error("2 3 1 0\n-1.5\n 1\n"), ReadError::InvalidOptimaCount);
    assert_eq!(read_error("2 3 1 0\n-1.5\n\n"), ReadError::InvalidOptimaCount);
    assert_eq!(
        read_error("2 3 1 0\n-1.5\n340282366920938463463374607431768211456\n"),
        ReadError::InvalidOptimaCount
    );
}

#[test]
fn missing_optimum_fails() {
    assert_eq!(read_error("2 3 1 0\n-1.5\n1\n"), ReadError::MissingOptimum);
    assert_eq!(read_error("2 3 1 0\n-1.5\n2\n01010\n"), ReadError::MissingOptimum);
    assert_eq!(read_error("2 3 1 0\n-1.5\n18446744073709551615\n01010\n"), ReadError::MissingOptimum);
}

#[test]
fn optimum_with_too_few_digits_fails() {
    assert_eq!(read_error("2 3 1 0\n-1.5\n1\n0101\n0 1 2\n2 3 4\n"), ReadError::OptimumTooShort);
    assert_eq!(read_error("2 3 1 0\n-1.5\n1\n\n0 1 2\n2 3 4\n"), ReadError::OptimumTooShort);
}

#[test]
fn optimum_with_too_many_digits_fails() {
    assert_eq!(read_error("2 3 1 0\n-1.5\n1\n010101\n0 1 2\n2 3 4\n"), ReadError::OptimumTooLong);
    assert_eq!(read_error("2 3 1 0\n-1.5\n1\n01010 \n0 1 2\n2 3 4\n"), ReadError::OptimumTooLong);
}

#[test]
fn optimum_with_a_byte_that_is_no_digit_fails() {
    assert_eq!(
        read_error("2 3 1 0\n-1.5\n1\n01x10\n0 1 2\n2 3 4\n"),
        ReadError::InvalidOptimumDigit
    );
    assert_eq!(read_error("2 3 1 0\n-1.5\n1\n0 1\n0 1 2\n2 3 4\n"), ReadError::InvalidOptimumDigit);
    assert_eq!(
        read_error("2 3 1 0\n-1.5\n1\n01\u{e9}10\n0 1 2\n2 3 4\n"),
        ReadError::InvalidOptimumDigit
    );
}

#[test]
fn optimum_may_hold_any_decimal_digit() {
    let read = read_problem_from_file(b"2 3 1 0\n7\n1\n01239\n0 1 2\n2 3 4\n").unwrap();
    assert_eq!(read.glob_optima_strings, vec![vec![0, 1, 2, 3, 9]]);
}

#[test]
fn missing_clique_fails() {
    assert_eq!(read_error("2 3 1 0\n-1.5\n1\n01010\n"), ReadError::MissingClique);
    assert_eq!(read_error("2 3 1 0\n-1.5\n1\n01010\n0 1 2\n"), ReadError::MissingClique);
}

#[test]
fn clique_index_that_is_no_number_fails() {
    assert_eq!(
        read_error("2 3 1 0\n-1.5\n1\n01010\n0 a 2\n2 3 4\n"),
        ReadError::InvalidCliqueIndex
    );
    assert_eq!(
        read_error("2 3 1 0\n-1.5\n1\n01010\n0 1 2\n2 3 4294967296\n"),
        ReadError::InvalidCliqueIndex
    );
}

#[test]
fn first_fault_from_the_top_is_reported() {
    assert_eq!(read_error("2 3 1\nhigh\nmany\n"), ReadError::WrongParameterCount);
    assert_eq!(read_error("2 3 1 0\nhigh\nmany\n"), ReadError::InvalidScore);
    assert_eq!(read_error("2 3 1 0\n1\nmany\n0101\n"), ReadError::InvalidOptimaCount);
    assert_eq!(read_error("2 3 1 0\n1\n2\n01010\n0101\n0 1\n"), ReadError::OptimumTooShort);
}

#[test]
fn well_formedness_is_checked() {
    assert!(example_problem().is_well_formed());
    let mut p = example_problem();
    p.cliques.pop();
    assert!(!p.is_well_formed());
    let mut p = example_problem();
    p.cliques[1].push(5);
    assert!(!p.is_well_formed());
    let mut p = example_problem();
    p.glob_optima_strings[0].pop();
    assert!(!p.is_well_formed());
    let mut p = example_problem();
    p.glob_optima_strings[0][2] = 10;
    assert!(!p.is_well_formed());
    let mut p = example_problem();
    p.glob_optima_score = b"best".to_vec();
    assert!(!p.is_well_formed());
    let mut p = example_problem();
    p.input_parameters.o = 4;
    assert!(!p.is_well_formed());
}

#[test]
fn number_of_variables_follows_the_formula() {
    assert_eq!(InputParameters::new_from_primitives(2, 3, 1, 0).problem_size(), 5);
    assert_eq!(InputParameters::new_from_primitives(1, 4, 4, 9).problem_size(), 4);
    assert_eq!(InputParameters::new_from_primitives(10, 5, 2, 1).problem_size(), 32);
    assert_eq!(InputParameters::new_from_primitives(4294967295, 1, 0, 0).problem_size(), 4294967295);
    assert!(InputParameters::new_from_primitives(2, 3, 3, 0).is_valid());
    assert!(!InputParameters::new_from_primitives(0, 3, 1, 0).is_valid());
    assert!(!InputParameters::new_from_primitives(2, 3, 4, 0).is_valid());
    assert!(!InputParameters::new_from_primitives(4294967295, 2, 0, 0).is_valid());
}

#[test]
fn problem_that_was_read_has_the_shape_of_its_parameters() {
    let text = b"3 4 2 5\n0.25\n2\n00000000\n11111111\n0 1 2 3\n2 3 4 5\n4 5 6 7\n";
    let read = read_problem_from_file(text).unwrap();
    let p = read.input_parameters;
    assert_eq!(p, InputParameters::new_from_primitives(3, 4, 2, 5));
    assert_eq!(read.cliques.len(), 3);
    assert!(read.cliques.iter().all(|clique| clique.len() == 4));
    assert_eq!(read.glob_optima_strings.len(), 2);
    assert!(read.glob_optima_strings.iter().all(|optimum| optimum.len() == (3 - 1) * (4 - 2) + 4));
    assert!(read.is_well_formed());
    assert_eq!(write_problem_to_file(&read), text.to_vec());
}

#[test]
fn errors_name_what_was_expected() {
    assert_eq!(read_error("").message(), "Empty problem file");
    assert_eq!(
        read_error("2 3 1 0\n-1.5\n1\n01010\n0 1\n2 3 4\n").message(),
        "not enough variable indices in clique indices"
    );
    assert_eq!(
        read_error("2 3 1 0\n-1.5\n1\n0101\n").message(),
        "global optimum in problem file does not contain enough bits"
    );
    let all = [
        ReadError::EmptyFile,
        ReadError::WrongParameterCount,
        ReadError::InvalidParameter,
        ReadError::ParametersOutOfRange,
        ReadError::MissingScore,
        ReadError::InvalidScore,
        ReadError::MissingOptimaCount,
        ReadError::InvalidOptimaCount,
        ReadError::MissingOptimum,
        ReadError::OptimumTooShort,
        ReadError::OptimumTooLong,
        ReadError::InvalidOptimumDigit,
        ReadError::MissingClique,
        ReadError::WrongCliqueLength,
        ReadError::InvalidCliqueIndex,
    ];
    for (i, a) in all.iter().enumerate() {
        assert!(!a.message().is_empty());
        for b in &all[i + 1..] {
            assert_ne!(a.message(), b.message());
        }
    }
}
