use immunepuzzle::config::{option_name, ArgError, Config, OptionName, Ratio, Request};
use immunepuzzle::number::NumberError;

fn read_ratio(text: &str) -> Result<Ratio, String> {
    match text.parse::<f64>() {
        Ok(value) => Ok(Ratio {
            bits: value.to_bits(),
            in_unit: (0.0..=1.0).contains(&value),
        }),
        Err(e) => Err(e.to_string()),
    }
}

fn request(args: &[&str]) -> Result<Request, ArgError> {
    let args: Vec<String> = args.iter().map(|a| a.to_string()).collect();
    Config::from_args(&args, read_ratio)
}

fn config(args: &[&str]) -> Config {
    match request(args) {
        Ok(Request::Run(cfg)) => cfg,
        _ => panic!("no run"),
    }
}

fn fault(args: &[&str]) -> ArgError {
    match request(args) {
        Err(e) => e,
        Ok(_) => panic!("no fault"),
    }
}

#[test]
fn run_without_options() {
    let cfg = config(&[]);
    assert_eq!(cfg.seed, None);
    assert_eq!((cfg.trials, cfg.side_len), (10, 8));
    assert_eq!((cfg.total_alphabet, cfg.true_alphabet, cfg.core_alphabet), (295, 240, 40));
    assert_eq!((cfg.max_u_nodes, cfg.max_f_nodes), (30_000, 30_000));
    assert!(!cfg.dump_svgs && !cfg.rot_equiv && !cfg.kill_reflection);
    assert!(cfg.anchor_ratio.is_none() && cfg.false_flat.is_none() && cfg.false_attach.is_none());
    assert!(cfg.false_count.is_none() && cfg.false_clusters.is_none() && cfg.svg_dir.is_none());
    assert!(cfg.within_limits());
}

#[test]
fn every_option_is_read() {
    let cfg = config(&[
        "--seed", "7", "--trials", "3", "--side", "4", "--total-alphabet", "90", "--true-alphabet", "80",
        "--core-alphabet", "12", "--anchor-ratio", "0.25", "--false-flat", "0.5", "--false-attach", "1",
        "--max-u-nodes", "11", "--max-f-nodes", "12", "--false-count", "6", "--false-clusters", "1,2,3",
        "--dump-svgs", "--svg-dir", "out", "--rot-equiv", "--kill-reflection",
    ]);
    assert_eq!(cfg.seed, Some(7));
    assert_eq!((cfg.trials, cfg.side_len), (3, 4));
    assert_eq!((cfg.total_alphabet, cfg.true_alphabet, cfg.core_alphabet), (90, 80, 12));
    assert_eq!(cfg.anchor_ratio.unwrap().bits, 0.25f64.to_bits());
    assert_eq!(cfg.false_flat.unwrap().bits, 0.5f64.to_bits());
    assert_eq!(cfg.false_attach.unwrap().bits, 1.0f64.to_bits());
    assert_eq!((cfg.max_u_nodes, cfg.max_f_nodes), (11, 12));
    assert_eq!(cfg.false_count, Some(6));
    assert_eq!(cfg.false_clusters, Some(vec![1, 2, 3]));
    assert_eq!(cfg.svg_dir.as_deref(), Some("out"));
    assert!(cfg.dump_svgs && cfg.rot_equiv && cfg.kill_reflection);
}

#[test]
fn option_names() {
    assert_eq!(option_name("--seed"), Some(OptionName::Seed));
    assert_eq!(option_name("--false-attach"), Some(OptionName::FalseAttach));
    assert_eq!(option_name("--help"), Some(OptionName::Help));
    assert_eq!(option_name("--Seed"), None);
    assert_eq!(option_name("seed"), None);
}

#[test]
fn last_of_an_option_counts() {
    assert_eq!(config(&["--trials", "3", "--trials", "5"]).trials, 5);
}

#[test]
fn clusters_make_the_count() {
    assert_eq!(config(&["--false-clusters", "2,3"]).false_count, Some(5));
    assert_eq!(config(&["--false-clusters", "2,3", "--false-count", "5"]).false_count, Some(5));
}

#[test]
fn help_ends_the_reading() {
    assert!(matches!(request(&["--trials", "3", "--help", "--nonsense"]), Ok(Request::Help)));
    assert!(matches!(request(&["--nonsense", "--help"]), Err(ArgError::Unknown(_))));
}

#[test]
fn missing_values() {
    assert!(matches!(fault(&["--seed"]), ArgError::Missing(OptionName::Seed)));
    assert!(matches!(fault(&["--trials", "1", "--svg-dir"]), ArgError::Missing(OptionName::SvgDir)));
    assert!(matches!(fault(&["--false-flat"]), ArgError::Missing(OptionName::FalseFlat)));
}

#[test]
fn first_fault_counts() {
    assert!(matches!(
        fault(&["--side", "x", "--nonsense"]),
        ArgError::BadNumber(NumberError::InvalidDigit)
    ));
    assert!(matches!(
        fault(&["--seed", "99999999999999999999"]),
        ArgError::BadNumber(NumberError::TooLarge)
    ));
    assert!(matches!(
        fault(&["--side", "-99999999999"]),
        ArgError::BadNumber(NumberError::TooSmall)
    ));
    assert!(matches!(fault(&["--trials", ""]), ArgError::BadNumber(NumberError::Empty)));
    match fault(&["--anchor-ratio", "much"]) {
        ArgError::BadRatio(reason) => assert_eq!(reason, "invalid float literal"),
        _ => panic!("another fault"),
    }
    match fault(&["more"]) {
        ArgError::Unknown(arg) => assert_eq!(arg, "more"),
        _ => panic!("another fault"),
    }
}

#[test]
fn settings_out_of_range() {
    assert!(matches!(fault(&["--side", "0"]), ArgError::SideLength));
    assert!(matches!(fault(&["--total-alphabet", "0"]), ArgError::TotalAlphabet));
    assert!(matches!(fault(&["--true-alphabet", "0"]), ArgError::TrueAlphabet));
    assert!(matches!(fault(&["--true-alphabet", "296"]), ArgError::TrueAlphabet));
    assert!(matches!(fault(&["--core-alphabet", "-1"]), ArgError::CoreAlphabet));
    assert!(matches!(fault(&["--anchor-ratio", "1.5"]), ArgError::AnchorRatio));
    assert!(matches!(fault(&["--false-flat", "-0.1"]), ArgError::FalseFlat));
    assert!(matches!(fault(&["--false-attach", "NaN"]), ArgError::FalseAttach));
    assert!(matches!(
        fault(&["--false-clusters", "2,3", "--false-count", "6"]),
        ArgError::ClusterSum { sum: 5, count: 6 }
    ));
    let most = usize::MAX.to_string();
    let sizes = format!("{most},1");
    assert!(matches!(fault(&["--false-clusters", &sizes]), ArgError::ClusterSumTooLarge));
    assert!(matches!(fault(&["--side", "0", "--core-alphabet", "-1"]), ArgError::SideLength));
}

#[test]
fn limits_of_a_run() {
    assert!(config(&["--side", "9000"]).within_limits());
    assert!(config(&["--side", "26755"]).within_limits());
    assert!(!config(&["--side", "26756"]).within_limits());
    assert!(!config(&["--side", "60000"]).within_limits());
    assert!(!config(&["--side", "2147483647"]).within_limits());
    assert!(!config(&["--false-clusters", "0,3"]).within_limits());
    assert!(!config(&["--total-alphabet", "2000000000"]).within_limits());
    assert!(config(&["--total-alphabet", "5189"]).within_limits());
    assert!(!config(&["--total-alphabet", "5190"]).within_limits());
    let room = usize::MAX - 169;
    assert!(config(&["--false-count", &format!("{room}")]).within_limits());
    assert!(!config(&["--false-count", &format!("{}", room + 1)]).within_limits());
    assert!(config(&["--false-clusters", "7,3"]).within_limits());
}

#[test]
fn limits_of_a_run_without_an_alphabet() {
    let mut cfg = config(&[]);
    cfg.total_alphabet = 0;
    assert!(cfg.within_limits());
    cfg.side_len = -3;
    assert!(cfg.within_limits());
    cfg.side_len = i32::MIN;
    assert!(!cfg.within_limits());
    let mut cfg = config(&[]);
    cfg.true_alphabet = -1;
    cfg.core_alphabet = -5;
    assert!(cfg.within_limits());
    cfg.total_alphabet = 1;
    assert!(cfg.within_limits());
    cfg.true_alphabet = 2;
    assert!(!cfg.within_limits());
}
