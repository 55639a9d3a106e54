use code_tree::config::Config;
use code_tree::render::ReadOutcome;
use code_tree::render::build_document;
use code_tree::render::extension_of;
use code_tree::render::render_contents;
use code_tree::render::render_tree;
use code_tree::render::render_tree_lines;
use code_tree::render::select_files;
use code_tree::walk::Entry;
use code_tree::walk::prune_entries;

fn entry(path: &str, name: &str, depth: usize, is_file: bool) -> Entry {
    Entry { path: path.to_string(), name: name.to_string(), depth, is_file }
}

fn strings(v: &[&str]) -> Vec<String> {
    v.iter().map(|s| s.to_string()).collect()
}

#[test]
fn extension_after_last_dot() {
    assert_eq!(extension_of("a.rs"), Some("rs".to_string()));
    assert_eq!(extension_of("archive.tar.gz"), Some("gz".to_string()));
    assert_eq!(extension_of(".gitignore"), Some("gitignore".to_string()));
    assert_eq!(extension_of("trailing."), Some("".to_string()));
    assert_eq!(extension_of("Makefile"), None);
    assert_eq!(extension_of(""), None);
}

#[test]
fn tree_lines_indent_four_spaces_per_depth() {
    let walk = vec![
        entry(".", ".", 0, false),
        entry("./src", "src", 1, false),
        entry("./src/main.rs", "main.rs", 2, true),
    ];
    let lines = render_tree_lines(&walk);
    assert_eq!(lines.len(), 3);
    assert_eq!(lines[0], "├── .\n".to_string());
    assert_eq!(lines[1], "    ├── src\n".to_string());
    assert_eq!(lines[2], "        ├── main.rs\n".to_string());
}

#[test]
fn tree_text_is_the_lines_in_order() {
    let walk = vec![entry(".", ".", 0, false), entry("./a.rs", "a.rs", 1, true)];
    assert_eq!(render_tree(&walk), "├── .\n    ├── a.rs\n".to_string());
}

#[test]
fn select_files_takes_only_allowed_extensions() {
    let walk = vec![
        entry(".", ".", 0, false),
        entry("./a.rs", "a.rs", 1, true),
        entry("./b.txt", "b.txt", 1, true),
        entry("./rs", "rs", 1, true),
        entry("./dir.rs", "dir.rs", 1, false),
    ];
    let sel = select_files(&walk, &strings(&["rs", "js"]));
    let paths: Vec<String> = sel.iter().map(|e| e.path.clone()).collect();
    assert_eq!(paths, strings(&["./a.rs"]));
}

#[test]
fn empty_extension_matches_a_trailing_dot() {
    let walk = vec![
        entry(".", ".", 0, false),
        entry("./trailing.", "trailing.", 1, true),
        entry("./nodot", "nodot", 1, true),
    ];
    let sel = select_files(&walk, &strings(&[""]));
    let paths: Vec<String> = sel.iter().map(|e| e.path.clone()).collect();
    assert_eq!(paths, strings(&["./trailing."]));
}

#[test]
fn contents_block_for_a_readable_file() {
    let sel = vec![entry("./a.rs", "a.rs", 1, true)];
    let outs = vec![ReadOutcome::Text("fn main(){}".to_string())];
    assert_eq!(
        render_contents(&sel, &outs),
        "\n=== File: ./a.rs ===\n\nfn main(){}\n".to_string()
    );
}

#[test]
fn unreadable_file_keeps_header_and_run_continues() {
    let sel = vec![
        entry("./bad.rs", "bad.rs", 1, true),
        entry("./good.rs", "good.rs", 1, true),
    ];
    let outs = vec![
        ReadOutcome::Failed("stream did not contain valid UTF-8".to_string()),
        ReadOutcome::Text("ok".to_string()),
    ];
    let text = render_contents(&sel, &outs);
    assert_eq!(
        text,
        "\n=== File: ./bad.rs ===\n\nError reading file: stream did not contain valid UTF-8\n\
         \n=== File: ./good.rs ===\n\nok\n"
            .to_string()
    );
    assert!(text.contains("=== File: ./bad.rs ==="));
    assert!(text.contains("=== File: ./good.rs ==="));
}

fn default_config() -> Config {
    Config::new(
        ".".to_string(),
        "code_output.txt".to_string(),
        ".git,node_modules,target,.idea,venv,bin,obj,Debug,Release".to_string(),
        "rs,js,py,cpp,c,java,go,ts,cs,csproj,sln,cshtml,razor,json,xml,config,yml,yaml".to_string(),
        false,
    )
}

fn scenario_walk() -> Vec<Entry> {
    vec![
        entry(".", ".", 0, false),
        entry("./a.rs", "a.rs", 1, true),
        entry("./b.txt", "b.txt", 1, true),
        entry("./node_modules", "node_modules", 1, false),
        entry("./node_modules/c.js", "c.js", 2, true),
    ]
}

#[test]
fn document_for_the_default_scenario() {
    let config = default_config();
    let walk = scenario_walk();
    let pruned = prune_entries(&walk, &config.ignored_dirs);
    let sel = select_files(&pruned, &config.allowed_extensions);
    let paths: Vec<String> = sel.iter().map(|e| e.path.clone()).collect();
    assert_eq!(paths, strings(&["./a.rs"]));
    let outs = vec![ReadOutcome::Text("fn main(){}".to_string())];
    let doc = build_document(&config, &walk, &outs);
    assert_eq!(
        doc,
        "Directory Tree and Code Contents\n\n\
         Root Directory: .\n\n\
         ├── .\n\
         \u{20}   ├── a.rs\n\
         \u{20}   ├── b.txt\n\
         \nCode Contents:\n\n\
         \n=== File: ./a.rs ===\n\nfn main(){}\n"
            .to_string()
    );
    assert!(!doc.contains("c.js"));
    assert!(!doc.contains("node_modules"));
    assert!(!doc.contains("=== File: ./b.txt"));
}

#[test]
fn identical_inputs_give_identical_documents() {
    let config = default_config();
    let walk = scenario_walk();
    let outs = vec![ReadOutcome::Text("fn main(){}".to_string())];
    let first = build_document(&config, &walk, &outs);
    let config2 = default_config();
    let walk2 = scenario_walk();
    let outs2 = vec![ReadOutcome::Text("fn main(){}".to_string())];
    let second = build_document(&config2, &walk2, &outs2);
    assert_eq!(first, second);
}
