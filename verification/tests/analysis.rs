use cargo_aspect::analysis::{
    analysis_arguments, find_aop_output_file, inspect_argument, ANALYSIS_PROGRAM,
    ASPECT_OUTPUT_FILE,
};
use cargo_aspect::config::{Config, PointCut};

#[test]
fn reports_are_the_files_whose_names_end_as_reports_do() {
    let paths = vec![
        "target/debug/RUST_ASPECT_OUTPUT.txt".to_string(),
        "target/debug/deps/x.d".to_string(),
        "target/debug/build/0_RUST_ASPECT_OUTPUT.txt".to_string(),
        "target/RUST_ASPECT_OUTPUT.txt.bak".to_string(),
        "RUST_ASPECT_OUTPUT.txt".to_string(),
        "ASPECT_OUTPUT.txt".to_string(),
        "".to_string(),
    ];
    assert_eq!(
        find_aop_output_file(&paths),
        vec![
            "target/debug/RUST_ASPECT_OUTPUT.txt".to_string(),
            "target/debug/build/0_RUST_ASPECT_OUTPUT.txt".to_string(),
            "RUST_ASPECT_OUTPUT.txt".to_string(),
        ]
    );
}

#[test]
fn no_path_gives_no_report() {
    assert!(find_aop_output_file(&Vec::new()).is_empty());
}

#[test]
fn the_name_of_a_report() {
    assert_eq!(ASPECT_OUTPUT_FILE, "RUST_ASPECT_OUTPUT.txt");
}

#[test]
fn the_condition_is_handed_over_in_double_quotes() {
    assert_eq!(inspect_argument("call(foo)"), "aop-inspect=\"call(foo)\"");
    assert_eq!(inspect_argument(""), "aop-inspect=\"\"");
}

#[test]
fn the_analysis_is_run_through_cargo() {
    let pc = PointCut { condition: "call(* bar)".to_string(), advice: "$".to_string() };
    assert_eq!(ANALYSIS_PROGRAM, "cargo");
    assert_eq!(
        analysis_arguments(&pc),
        vec![
            "+AOP".to_string(),
            "rustc".to_string(),
            "--".to_string(),
            "-Z".to_string(),
            "aop-inspect=\"call(* bar)\"".to_string(),
        ]
    );
}

#[test]
fn a_config_holds_its_pointcuts_in_order() {
    let c = Config {
        name: "demo".to_string(),
        pointcuts: vec![
            PointCut { condition: "a".to_string(), advice: "1".to_string() },
            PointCut { condition: "b".to_string(), advice: "2".to_string() },
        ],
    };
    assert_eq!(c.name, "demo");
    assert_eq!(c.pointcuts[0].condition, "a");
    assert_eq!(c.pointcuts[1].advice, "2");
}
