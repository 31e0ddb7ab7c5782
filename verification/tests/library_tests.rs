use std::cmp::Ordering;

use dryer_core::candidates::scan_candidates;
use dryer_core::config::{
    build_config, default_excludes, CliOverrides, Config, ConfigFile, LanguageFilter, NameMode, NormalizationConfig,
    OutputFormat, Threshold,
};
use dryer_core::files::{compile_globs, discover_files, matches_filter, SourceFile};
use dryer_core::fingerprints::Fingerprints;
use dryer_core::language::Language;
use dryer_core::matcher::{
    below_threshold, compare_all_pairs, compare_candidates, find_duplicates, max_possible_score, rank_duplicates,
};
use dryer_core::normalize::{normalize_node, Normalized};
use dryer_core::output::{decimal, format_candidate, format_location, format_sarif, format_text};
use dryer_core::parse::parse_source;
use dryer_core::ranking::{compare_duplicate_order, sort_duplicates};
use dryer_core::report::{DuplicateCandidate, Location, Report};
use dryer_core::DryerError;

fn leaf(label: &str) -> Normalized {
    Normalized::new(label.to_string(), Vec::new())
}

fn node(label: &str, children: Vec<Normalized>) -> Normalized {
    Normalized::new(label.to_string(), children)
}

fn location(file: &str, start: usize, end: usize, name: Option<&str>) -> Location {
    Location {
        file: file.to_string(),
        start_line: start,
        end_line: end,
        kind: "function".to_string(),
        name: name.map(str::to_string),
    }
}

fn pair(shared: usize, total: usize, left_file: &str, left_line: usize, right_file: &str, right_line: usize) -> DuplicateCandidate {
    DuplicateCandidate {
        language: "rust".to_string(),
        left: location(left_file, left_line, left_line + 5, None),
        right: location(right_file, right_line, right_line + 5, None),
        left_nodes: 40,
        right_nodes: 40,
        shared_fingerprints: shared,
        total_fingerprints: total,
    }
}

fn rust_file(path: &str) -> SourceFile {
    SourceFile { path: path.to_string(), language: Language::Rust }
}

fn small_config(numerator: u64, denominator: u64) -> Config {
    Config {
        threshold: Threshold { numerator, denominator },
        min_lines: 1,
        min_nodes: 1,
        ..Config::default()
    }
}

const ADD_ONE: &str = "fn add_one(value: i32) -> i32 {\n    let next = value + 1;\n    next\n}\n";
const ADD_TWO: &str = "fn add_two(input: i32) -> i32 {\n    let result = input + 2;\n    result\n}\n";
const BRANCHY: &str = "fn pick(flag: bool) -> i32 {\n    if flag {\n        return 1;\n    }\n    loop {\n        break 0;\n    }\n}\n";

#[test]
fn detect_reads_the_extension() {
    assert_eq!(Some(Language::Rust), Language::detect("src/main.rs"));
    assert_eq!(Some(Language::TypeScript), Language::detect("web/app.ts"));
    assert_eq!(Some(Language::Tsx), Language::detect("web/App.tsx"));
    assert_eq!(Some(Language::Haskell), Language::detect("lib/Main.hs"));
    assert_eq!(Some(Language::Haskell), Language::detect("lib/Main.lhs"));
    assert_eq!(Some(Language::Daml), Language::detect("daml/Main.daml"));
    assert_eq!(None, Language::detect("types/index.d.ts"));
    assert_eq!(None, Language::detect("notes.txt"));
    assert_eq!(None, Language::detect("src/.rs"));
    assert_eq!(Some(Language::Rust), Language::detect("src/lib.rs/"));
}

#[test]
fn languages_report_names_and_families() {
    assert_eq!("tsx", Language::Tsx.report_name());
    assert_eq!("typescript", Language::Tsx.family());
    assert_eq!("daml", Language::Daml.report_name());
    assert_eq!("haskell", Language::Daml.family());
    assert_eq!("rust", Language::Rust.family());
}

#[test]
fn threshold_reads_exact_decimals() {
    let t = Threshold::from_decimal("0.82").expect("a decimal");
    assert_eq!((82, 100), (t.numerator, t.denominator));
    let one = Threshold::from_decimal("1").expect("a whole number");
    assert_eq!((1, 1), (one.numerator, one.denominator));
    let negative = Threshold::from_decimal("-0.5").expect("a negative decimal");
    assert_eq!((0, 1), (negative.numerator, negative.denominator));
    assert!(Threshold::from_decimal("abc").is_none());
    assert!(Threshold::from_decimal("").is_none());
}

#[test]
fn default_config_matches_documented_defaults() {
    let config = Config::default();
    assert_eq!(vec!["."], config.paths);
    assert_eq!((82, 100), (config.threshold.numerator, config.threshold.denominator));
    assert_eq!(6, config.min_lines);
    assert_eq!(35, config.min_nodes);
    assert_eq!(LanguageFilter::All, config.language);
    assert_eq!(OutputFormat::Text, config.format);
    assert!(config.includes.is_empty());
    assert_eq!(default_excludes(), config.exclude);
    assert!(!config.cross_language);
    assert_eq!(None, config.max_candidates);
    assert_eq!(NameMode::Balanced, config.normalization.name_mode);
    assert_eq!(11, default_excludes().len());
    assert_eq!("**/.git/**", default_excludes()[0]);
    assert_eq!("**/*.gen.tsx", default_excludes()[10]);
}

#[test]
fn config_file_settings_replace_defaults() {
    let file = ConfigFile {
        threshold: Some(Threshold { numerator: 9, denominator: 10 }),
        min_lines: Some(5),
        min_nodes: Some(25),
        language: Some(LanguageFilter::TypeScript),
        format: Some(OutputFormat::Json),
        includes: Some(vec!["**/*.ts".to_string()]),
        exclude: Some(vec!["**/*.generated.ts".to_string()]),
        cross_language: Some(true),
        max_candidates: Some(3),
        normalization: Some(NormalizationConfig { name_mode: NameMode::Strict, ..NormalizationConfig::default() }),
    };
    let config = Config::default().merge_file(file);
    assert_eq!((9, 10), (config.threshold.numerator, config.threshold.denominator));
    assert_eq!(5, config.min_lines);
    assert_eq!(25, config.min_nodes);
    assert_eq!(LanguageFilter::TypeScript, config.language);
    assert_eq!(OutputFormat::Json, config.format);
    assert!(config.cross_language);
    assert_eq!(Some(3), config.max_candidates);
    assert_eq!(vec!["**/*.ts"], config.includes);
    assert_eq!(vec!["**/*.generated.ts"], config.exclude);
    assert_eq!(NameMode::Strict, config.normalization.name_mode);
    assert_eq!(vec!["."], config.paths);
}

#[test]
fn empty_config_file_keeps_every_setting() {
    let config = Config::default().merge_file(ConfigFile::default());
    assert_eq!(6, config.min_lines);
    assert_eq!(default_excludes(), config.exclude);
}

#[test]
fn command_line_overrides_configuration() {
    let overrides = CliOverrides {
        paths: vec!["src".to_string()],
        threshold: None,
        min_lines: Some(3),
        min_nodes: None,
        language: Some(LanguageFilter::Rust),
        format: Some(OutputFormat::Text),
        json: true,
        sarif: true,
        includes: Vec::new(),
        exclude: vec!["**/vendor/**".to_string()],
        cross_language: true,
        max_candidates: Some(7),
    };
    let config = build_config(Config::default(), overrides);
    assert_eq!(vec!["src"], config.paths);
    assert_eq!((82, 100), (config.threshold.numerator, config.threshold.denominator));
    assert_eq!(3, config.min_lines);
    assert_eq!(35, config.min_nodes);
    assert_eq!(LanguageFilter::Rust, config.language);
    assert_eq!(OutputFormat::Sarif, config.format);
    assert_eq!(12, config.exclude.len());
    assert_eq!("**/vendor/**", config.exclude[11]);
    assert!(config.includes.is_empty());
    assert!(config.cross_language);
    assert_eq!(Some(7), config.max_candidates);
}

#[test]
fn json_flag_beats_format_option() {
    let overrides = CliOverrides {
        paths: Vec::new(),
        threshold: Some(Threshold { numerator: 1, denominator: 2 }),
        min_lines: None,
        min_nodes: None,
        language: None,
        format: Some(OutputFormat::Sarif),
        json: true,
        sarif: false,
        includes: vec!["**/*.rs".to_string()],
        exclude: Vec::new(),
        cross_language: false,
        max_candidates: None,
    };
    let config = build_config(Config::default(), overrides);
    assert_eq!(OutputFormat::Json, config.format);
    assert_eq!(vec!["."], config.paths);
    assert_eq!(vec!["**/*.rs"], config.includes);
    assert_eq!((1, 2), (config.threshold.numerator, config.threshold.denominator));
    assert_eq!(11, config.exclude.len());
}

#[test]
fn normalized_text_form_and_counts() {
    let tree = node("call", vec![leaf("ident"), node("args", vec![leaf("literal:number"), leaf("ident")])]);
    assert_eq!("(call ident (args literal:number ident))", tree.repr());
    assert_eq!(5, tree.node_count());
    let mut out = Vec::new();
    tree.child_reprs(&mut out);
    assert_eq!(
        vec!["(call ident (args literal:number ident))", "ident", "(args literal:number ident)", "literal:number", "ident"],
        out
    );
    assert_eq!(tree.node_count(), out.len());
}

#[test]
fn fingerprints_count_distinct_subtrees() {
    let tree = node("call", vec![leaf("ident"), node("args", vec![leaf("literal:number"), leaf("ident")])]);
    let fp = Fingerprints::from_normalized(&tree);
    assert_eq!(4, fp.len());
    assert!(fp.contains("ident"));
    assert!(!fp.contains("call"));
    let items: Vec<&str> = fp.iter().iter().map(String::as_str).collect();
    assert_eq!(vec!["(args literal:number ident)", "(call ident (args literal:number ident))", "ident", "literal:number"], items);
}

#[test]
fn union_and_intersection_follow_inclusion_exclusion() {
    let a = Fingerprints::from_normalized(&node("a", vec![leaf("x"), leaf("y")]));
    let b = Fingerprints::from_normalized(&node("b", vec![leaf("y"), leaf("z")]));
    assert_eq!(1, a.intersection_len(&b));
    assert_eq!(5, a.union_len(&b));
    assert_eq!(a.len() + b.len(), a.union_len(&b) + a.intersection_len(&b));
    assert_eq!(0, Fingerprints::empty().union_len(&Fingerprints::empty()));
}

#[test]
fn renamed_code_normalizes_alike() {
    let left = parse_source(Language::Rust, ADD_ONE).expect("parses");
    let right = parse_source(Language::Rust, ADD_TWO).expect("parses");
    let config = NormalizationConfig::default();
    let l = normalize_node(&left, ADD_ONE, &config).expect("kept");
    let r = normalize_node(&right, ADD_TWO, &config).expect("kept");
    assert_eq!(l.repr(), r.repr());
    assert_eq!(l.node_count(), r.node_count());
    let strict = NormalizationConfig { name_mode: NameMode::Strict, ..config };
    let ls = normalize_node(&left, ADD_ONE, &strict).expect("kept");
    let rs = normalize_node(&right, ADD_TWO, &strict).expect("kept");
    assert_ne!(ls.repr(), rs.repr());
}

#[test]
fn haskell_has_no_grammar() {
    match parse_source(Language::Haskell, "main = pure ()") {
        Err(DryerError::ParserLanguage { language, .. }) => assert_eq!(Language::Haskell, language),
        other => panic!("unexpected {other:?}"),
    }
}

#[test]
fn scan_reports_the_parser_error_of_the_first_failing_file() {
    let files = vec![rust_file("a.rs"), SourceFile { path: "b.daml".to_string(), language: Language::Daml }];
    let sources = vec![ADD_ONE.to_string(), "module Main where".to_string()];
    match scan_candidates(&small_config(82, 100), &files, &sources) {
        Err(DryerError::ParserLanguage { language, .. }) => assert_eq!(Language::Daml, language),
        other => panic!("unexpected {other:?}"),
    }
}

#[test]
fn scan_finds_one_candidate_per_function() {
    let files = vec![rust_file("a.rs"), rust_file("b.rs")];
    let sources = vec![ADD_ONE.to_string(), ADD_TWO.to_string()];
    let candidates = scan_candidates(&small_config(82, 100), &files, &sources).expect("scans");
    assert_eq!(2, candidates.len());
    assert_eq!(Some("add_one".to_string()), candidates[0].name);
    assert_eq!((1, 4), (candidates[0].start_line, candidates[0].end_line));
    assert_eq!("function", candidates[1].kind);
    assert_eq!("b.rs", candidates[1].file);
}

#[test]
fn candidates_below_the_minimums_are_left_out() {
    let files = vec![rust_file("a.rs")];
    let sources = vec![ADD_ONE.to_string()];
    let config = Config { min_lines: 5, min_nodes: 1, ..Config::default() };
    assert!(scan_candidates(&config, &files, &sources).expect("scans").is_empty());
    let config = Config { min_lines: 1, min_nodes: 1000, ..Config::default() };
    assert!(scan_candidates(&config, &files, &sources).expect("scans").is_empty());
}

#[test]
fn renamed_functions_score_one() {
    let files = vec![rust_file("a.rs"), rust_file("b.rs")];
    let sources = vec![ADD_ONE.to_string(), ADD_TWO.to_string()];
    let report = find_duplicates(&small_config(82, 100), &files, &sources).expect("scans");
    assert_eq!(1, report.candidates.len());
    let found = &report.candidates[0];
    assert_eq!(found.shared_fingerprints, found.total_fingerprints);
    assert_eq!("rust", found.language);
    assert_eq!(Some("add_one".to_string()), found.left.name);
    assert_eq!(Some("add_two".to_string()), found.right.name);
    let scores = vec!["1.00".to_string()];
    assert_eq!(
        "DUPLICATE rust score=1.00\n  a.rs:1-4 function add_one\n  b.rs:1-4 function add_two\n",
        format_text(&report, &scores)
    );
}

#[test]
fn indexed_comparison_matches_every_pair_comparison() {
    let files = vec![rust_file("a.rs"), rust_file("b.rs"), rust_file("c.rs")];
    let sources = vec![ADD_ONE.to_string(), ADD_TWO.to_string(), BRANCHY.to_string()];
    for (numerator, denominator) in [(1u64, 10u64), (1, 2), (82, 100), (1, 1)] {
        let config = small_config(numerator, denominator);
        let candidates = scan_candidates(&config, &files, &sources).expect("scans");
        let indexed = compare_candidates(&config, &candidates);
        let all = compare_all_pairs(&config, &candidates);
        assert_eq!(format!("{indexed:?}"), format!("{all:?}"));
    }
}

#[test]
fn zero_threshold_reports_every_compatible_pair() {
    let files = vec![rust_file("a.rs"), rust_file("b.rs"), rust_file("c.rs")];
    let sources = vec![ADD_ONE.to_string(), ADD_TWO.to_string(), BRANCHY.to_string()];
    let config = small_config(0, 1);
    let candidates = scan_candidates(&config, &files, &sources).expect("scans");
    let n = candidates.len();
    assert_eq!(n * (n - 1) / 2, compare_candidates(&config, &candidates).len());
}

#[test]
fn languages_are_compared_within_their_family_unless_asked() {
    let files = vec![rust_file("a.rs"), SourceFile { path: "b.ts".to_string(), language: Language::TypeScript }];
    let ts = "function addOne(value: number): number {\n  const next = value + 1;\n  return next;\n}\n";
    let sources = vec![ADD_ONE.to_string(), ts.to_string()];
    let config = small_config(0, 1);
    let candidates = scan_candidates(&config, &files, &sources).expect("scans");
    assert_eq!(2, candidates.len());
    assert!(compare_candidates(&config, &candidates).is_empty());
    let cross = Config { cross_language: true, ..small_config(0, 1) };
    let found = compare_candidates(&cross, &candidates);
    assert_eq!(1, found.len());
    assert_eq!("cross-language", found[0].language);
}

#[test]
fn threshold_comparison_is_exact() {
    let t = Threshold { numerator: 82, denominator: 100 };
    assert!(!below_threshold(41, 50, t));
    assert!(below_threshold(40, 50, t));
    assert!(below_threshold(0, 0, t));
    assert!(!below_threshold(0, 0, Threshold { numerator: 0, denominator: 1 }));
}

#[test]
fn highest_possible_score_is_smaller_over_larger() {
    let files = vec![rust_file("a.rs"), rust_file("c.rs")];
    let sources = vec![ADD_ONE.to_string(), BRANCHY.to_string()];
    let candidates = scan_candidates(&small_config(1, 2), &files, &sources).expect("scans");
    let (lo, hi) = max_possible_score(&candidates[0], &candidates[1]);
    let a = candidates[0].fingerprints.len();
    let b = candidates[1].fingerprints.len();
    assert_eq!((a.min(b), a.max(b)), (lo, hi));
}

#[test]
fn report_order_is_score_then_location() {
    let high = pair(9, 10, "b.rs", 1, "c.rs", 1);
    let low = pair(8, 10, "a.rs", 1, "c.rs", 1);
    assert_eq!(Ordering::Less, compare_duplicate_order(&high, &low));
    assert_eq!(Ordering::Greater, compare_duplicate_order(&low, &high));
    let same_score = pair(18, 20, "a.rs", 9, "c.rs", 1);
    assert_eq!(Ordering::Greater, compare_duplicate_order(&high, &same_score));
    let later_line = pair(9, 10, "b.rs", 2, "c.rs", 1);
    assert_eq!(Ordering::Less, compare_duplicate_order(&high, &later_line));
    let other_right = pair(9, 10, "b.rs", 1, "d.rs", 1);
    assert_eq!(Ordering::Less, compare_duplicate_order(&high, &other_right));
    assert_eq!(Ordering::Equal, compare_duplicate_order(&high, &pair(9, 10, "b.rs", 1, "c.rs", 1)));
    assert_eq!(Ordering::Equal, compare_duplicate_order(&pair(0, 0, "a.rs", 1, "b.rs", 1), &pair(0, 5, "a.rs", 1, "b.rs", 1)));
}

#[test]
fn sorting_is_stable_and_ranked() {
    let mut v = vec![
        pair(1, 2, "a.rs", 1, "b.rs", 1),
        pair(9, 10, "z.rs", 1, "b.rs", 1),
        DuplicateCandidate { left_nodes: 1, ..pair(1, 2, "a.rs", 1, "b.rs", 1) },
        pair(9, 10, "m.rs", 3, "b.rs", 1),
    ];
    sort_duplicates(&mut v);
    assert_eq!("m.rs", v[0].left.file);
    assert_eq!("z.rs", v[1].left.file);
    assert_eq!(40, v[2].left_nodes);
    assert_eq!(1, v[3].left_nodes);
}

#[test]
fn max_candidates_keeps_the_best() {
    let config = Config { max_candidates: Some(1), ..Config::default() };
    let ranked = rank_duplicates(&config, vec![pair(1, 2, "a.rs", 1, "b.rs", 1), pair(3, 4, "a.rs", 9, "b.rs", 1)]);
    assert_eq!(1, ranked.len());
    assert_eq!(9, ranked[0].left.start_line);
    let all = rank_duplicates(&Config::default(), vec![pair(1, 2, "a.rs", 1, "b.rs", 1), pair(3, 4, "a.rs", 9, "b.rs", 1)]);
    assert_eq!(2, all.len());
}

#[test]
fn glob_errors_name_the_pattern() {
    match compile_globs(&vec!["**/*.rs".to_string(), "src/[".to_string(), "{a".to_string()]) {
        Err(DryerError::Glob { pattern, .. }) => assert_eq!("src/[", pattern),
        Err(other) => panic!("unexpected {other:?}"),
        Ok(_) => panic!("bad pattern accepted"),
    }
    let set = compile_globs(&vec!["**/target/**".to_string(), "*.md".to_string()]).expect("compiles");
    assert!(set.is_match("project/target/debug/main.rs"));
    assert!(set.is_match("README.md"));
    assert!(!set.is_match("src/main.rs"));
    let empty = compile_globs(&Vec::new()).expect("compiles");
    assert!(!empty.is_match("src/main.rs"));
}

#[test]
fn discovery_sorts_by_path_components_and_drops_repeats() {
    let config = Config::default();
    let found: Vec<String> = ["b.rs", "a-b/x.rs", "a/x.rs", "a//x.rs", "notes.md", "target/gen.rs", "web/app.ts", "types.d.ts"]
        .iter()
        .map(|p| p.to_string())
        .collect();
    let files = discover_files(&config, &found).expect("discovers");
    let paths: Vec<&str> = files.iter().map(|f| f.path.as_str()).collect();
    assert_eq!(vec!["a/x.rs", "a-b/x.rs", "b.rs", "web/app.ts"], paths);
    assert_eq!(Language::TypeScript, files[3].language);
}

#[test]
fn discovery_applies_includes_and_language_filter() {
    let config = Config {
        includes: vec!["src/**".to_string()],
        language: LanguageFilter::TypeScript,
        ..Config::default()
    };
    let found: Vec<String> = ["src/a.ts", "src/b.tsx", "src/c.rs", "lib/d.ts"].iter().map(|p| p.to_string()).collect();
    let files = discover_files(&config, &found).expect("discovers");
    let paths: Vec<&str> = files.iter().map(|f| f.path.as_str()).collect();
    assert_eq!(vec!["src/a.ts", "src/b.tsx"], paths);
    let bad = Config { exclude: vec!["[".to_string()], ..Config::default() };
    assert!(matches!(discover_files(&bad, &found), Err(DryerError::Glob { .. })));
}

#[test]
fn language_filters_keep_their_languages() {
    assert!(matches_filter(Language::Tsx, &LanguageFilter::TypeScript));
    assert!(!matches_filter(Language::Rust, &LanguageFilter::TypeScript));
    assert!(matches_filter(Language::Daml, &LanguageFilter::All));
    assert!(!matches_filter(Language::Daml, &LanguageFilter::Haskell));
}

#[test]
fn numbers_and_locations_print_as_documented() {
    assert_eq!("0", decimal(0));
    assert_eq!("1234", decimal(1234));
    assert_eq!("a.rs:3-9 function run", format_location(&location("a.rs", 3, 9, Some("run"))));
    assert_eq!("a.rs:3-9 function", format_location(&location("a.rs", 3, 9, None)));
    let c = pair(9, 10, "x.rs", 1, "y.rs", 20);
    assert_eq!("DUPLICATE rust score=0.90\n  x.rs:1-6 function\n  y.rs:20-25 function", format_candidate(&c, "0.90"));
}

#[test]
fn text_report_separates_pairs_with_a_blank_line() {
    let report = Report { candidates: vec![pair(1, 1, "a.rs", 1, "b.rs", 2), pair(1, 2, "c.rs", 3, "d.rs", 4)] };
    let text = format_text(&report, &vec!["1.00".to_string(), "0.50".to_string()]);
    assert_eq!(
        "DUPLICATE rust score=1.00\n  a.rs:1-6 function\n  b.rs:2-7 function\n\nDUPLICATE rust score=0.50\n  c.rs:3-8 function\n  d.rs:4-9 function\n",
        text
    );
    assert_eq!("No duplicate candidates found.\n", format_text(&Report { candidates: Vec::new() }, &Vec::new()));
}

#[test]
fn command_line_includes_are_added_to_configured_ones() {
    let base = Config { includes: vec!["src/**".to_string()], ..Config::default() };
    let overrides = CliOverrides {
        paths: Vec::new(),
        threshold: None,
        min_lines: None,
        min_nodes: None,
        language: None,
        format: None,
        json: false,
        sarif: false,
        includes: vec!["lib/**".to_string()],
        exclude: Vec::new(),
        cross_language: false,
        max_candidates: None,
    };
    let config = build_config(base, overrides);
    assert_eq!(vec!["src/**", "lib/**"], config.includes);
}

#[test]
fn invalid_exclude_pattern_is_named_in_the_error() {
    let config = Config { exclude: vec!["a[".to_string()], ..Config::default() };
    match discover_files(&config, &vec!["x.rs".to_string()]) {
        Err(DryerError::Glob { pattern, .. }) => assert_eq!("a[", pattern),
        Err(other) => panic!("unexpected {other:?}"),
        Ok(_) => panic!("bad pattern accepted"),
    }
    let config = Config { includes: vec!["{b".to_string()], exclude: vec!["a[".to_string()], ..Config::default() };
    match discover_files(&config, &vec!["x.rs".to_string()]) {
        Err(DryerError::Glob { pattern, .. }) => assert_eq!("{b", pattern),
        Err(other) => panic!("unexpected {other:?}"),
        Ok(_) => panic!("bad pattern accepted"),
    }
}

#[test]
fn limited_report_is_a_prefix_of_the_unlimited_one() {
    let pairs = || {
        vec![
            pair(1, 2, "a.rs", 1, "b.rs", 1),
            pair(3, 4, "a.rs", 9, "b.rs", 1),
            pair(3, 4, "a.rs", 2, "b.rs", 1),
            pair(1, 1, "c.rs", 1, "d.rs", 1),
        ]
    };
    let full = rank_duplicates(&Config::default(), pairs());
    let limited = rank_duplicates(&Config { max_candidates: Some(2), ..Config::default() }, pairs());
    assert_eq!(4, full.len());
    assert_eq!(2, limited.len());
    assert_eq!(format!("{:?}", &full[..2]), format!("{limited:?}"));
}

#[test]
fn sarif_report_holds_one_result_per_pair() {
    let report = Report { candidates: vec![pair(9, 10, "x.rs", 1, "y.rs", 20), pair(1, 2, "a.rs", 3, "b.rs", 4)] };
    let text = format_sarif(&report, &vec!["0.90".to_string(), "0.50".to_string()]);
    let value: serde_json::Value = serde_json::from_str(&text).expect("valid json");
    assert_eq!("https://json.schemastore.org/sarif-2.1.0.json", value["$schema"]);
    let results = value["runs"][0]["results"].as_array().expect("results");
    assert_eq!(2, results.len());
    assert_eq!("structural-duplicate", results[0]["ruleId"]);
    assert_eq!("warning", results[0]["level"]);
    assert_eq!(
        "Structural duplicate candidate with score 0.90: x.rs:1-6 function and y.rs:20-25 function",
        results[0]["message"]["text"]
    );
    assert_eq!("y.rs", results[0]["locations"][1]["physicalLocation"]["artifactLocation"]["uri"]);
    assert_eq!(20, results[0]["locations"][1]["physicalLocation"]["region"]["startLine"]);
    assert_eq!(25, results[0]["locations"][1]["physicalLocation"]["region"]["endLine"]);
    assert_eq!("structural-duplicate", value["runs"][0]["tool"]["driver"]["rules"][0]["id"]);
    let empty = format_sarif(&Report { candidates: Vec::new() }, &Vec::new());
    let value: serde_json::Value = serde_json::from_str(&empty).expect("valid json");
    assert_eq!(0, value["runs"][0]["results"].as_array().expect("results").len());
}

#[test]
fn limited_run_reports_a_prefix_of_the_unlimited_run() {
    let files = vec![rust_file("a.rs"), rust_file("b.rs"), rust_file("c.rs")];
    let sources = vec![ADD_ONE.to_string(), ADD_TWO.to_string(), BRANCHY.to_string()];
    let full = find_duplicates(&small_config(0, 1), &files, &sources).expect("scans");
    let limited = find_duplicates(&Config { max_candidates: Some(2), ..small_config(0, 1) }, &files, &sources).expect("scans");
    assert_eq!(3, full.candidates.len());
    assert_eq!(2, limited.candidates.len());
    assert_eq!(format!("{:?}", &full.candidates[..2]), format!("{:?}", limited.candidates));
}
