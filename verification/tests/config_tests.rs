use code_tree::config::Config;
use code_tree::config::contains_string;
use code_tree::config::is_ignored;
use code_tree::config::split_csv;

fn strings(v: &[&str]) -> Vec<String> {
    v.iter().map(|s| s.to_string()).collect()
}

#[test]
fn split_csv_two_segments() {
    assert_eq!(split_csv("a,b"), strings(&["a", "b"]));
}

#[test]
fn split_csv_single_segment() {
    assert_eq!(split_csv("target"), strings(&["target"]));
}

#[test]
fn split_csv_empty_input_is_one_empty_segment() {
    assert_eq!(split_csv(""), strings(&[""]));
}

#[test]
fn split_csv_empty_segments_kept() {
    assert_eq!(split_csv("a,,b"), strings(&["a", "", "b"]));
    assert_eq!(split_csv(","), strings(&["", ""]));
    assert_eq!(split_csv("a,b,"), strings(&["a", "b", ""]));
}

#[test]
fn split_csv_default_ignored_dirs() {
    let got = split_csv(".git,node_modules,target,.idea,venv,bin,obj,Debug,Release");
    assert_eq!(
        got,
        strings(&[".git", "node_modules", "target", ".idea", "venv", "bin", "obj", "Debug", "Release"])
    );
}

#[test]
fn config_new_splits_both_lists() {
    let c = Config::new(
        ".".to_string(),
        "code_output.txt".to_string(),
        ".git,node_modules".to_string(),
        "rs,js".to_string(),
        false,
    );
    assert_eq!(c.root_path, ".".to_string());
    assert_eq!(c.output_file, "code_output.txt".to_string());
    assert_eq!(c.ignored_dirs, strings(&[".git", "node_modules"]));
    assert_eq!(c.allowed_extensions, strings(&["rs", "js"]));
    assert!(!c.verbose);
}

#[test]
fn is_ignored_exact_name_match_only() {
    let ignored = strings(&[".git", "node_modules", "target"]);
    assert!(is_ignored(&"node_modules".to_string(), &ignored));
    assert!(is_ignored(&".git".to_string(), &ignored));
    assert!(!is_ignored(&"src".to_string(), &ignored));
    assert!(!is_ignored(&"node_modules2".to_string(), &ignored));
    assert!(!is_ignored(&"Target".to_string(), &ignored));
}

#[test]
fn contains_string_membership() {
    let set = strings(&["rs", "js"]);
    assert!(contains_string(&set, &"rs".to_string()));
    assert!(!contains_string(&set, &"RS".to_string()));
    assert!(!contains_string(&set, &"".to_string()));
}
