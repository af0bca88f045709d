use serde_json::Value;
use suspense::harness::HarnessEvent;
use suspense::listing::Listing;
use suspense::referenced_spec::{collect, shown_name, Referenced, References};

const DIR: &str = "/tmp/refs";

fn path(file: &str) -> String {
    format!("{DIR}/{file}")
}

/// A project with a few spec, reference, and source files.
fn project() -> Listing {
    Listing {
        files: [
            "spec/a.pi",
            "spec/b/index.pi",
            "spec/c.pi",
            "spec/d.pi",
            "spec/unnamed.pi",
            ".harness/reference/A.md",
            "src/main.rs",
        ]
        .iter()
        .map(|file| path(file))
        .collect(),
        folders: ["spec", "spec/b", ".harness", ".harness/reference", "src"]
            .iter()
            .map(|file| path(file))
            .collect(),
    }
}

fn object(members: &[(&str, &str)]) -> Value {
    let mut map = serde_json::Map::new();
    for (key, value) in members {
        map.insert(key.to_string(), Value::String(value.to_string()));
    }
    Value::Object(map)
}

fn call(id: &str, name: &str, input: Value, subagent: bool) -> HarnessEvent {
    HarnessEvent::ToolCalled {
        id: id.into(),
        name: name.into(),
        input,
        subagent,
    }
}

fn output(id: &str, output: &str, subagent: bool) -> HarnessEvent {
    HarnessEvent::ToolOutput {
        id: id.into(),
        output: output.into(),
        subagent,
    }
}

fn plain(files: &[Referenced]) -> Vec<(String, bool, bool)> {
    files
        .iter()
        .map(|file| (file.path.clone(), file.edited, file.by_subagent))
        .collect()
}

/// Imports come first, then the spec files referenced however they are:
/// by file tools, shell commands, searches whose results name them, and
/// subagents; each once, an edit marking a file edited and a subagent's
/// reference marking it so. Files elsewhere, and files only taken in by a
/// folder or pattern, are left out.
#[test]
fn lists_imports_then_spec_files_referenced_once() {
    let listing = project();
    let mut references = References::new(Some(DIR.to_string()));
    let long = format!("spec/{}/index.pi", "deep".repeat(40));
    for event in [
        call("1", "Read", object(&[("file_path", &path("spec/a.pi"))]), false),
        call("2", "Read", object(&[("file_path", &path("src/main.rs"))]), false),
        call("3", "Bash", object(&[("command", "cat .harness/reference/A.md")]), false),
        call("4", "Edit", object(&[("file_path", &path("spec/a.pi"))]), false),
        call("5", "Read", object(&[("file_path", &path("spec/b/index.pi"))]), false),
        call("6", "Write", object(&[("file_path", &path(&long))]), false),
        call("7", "Grep", object(&[("pattern", "x"), ("path", &path("spec"))]), false),
        output("7", "Found 2 files\nspec/c.pi\nsrc/main.rs", false),
        call("8", "Bash", object(&[("command", "echo x > spec/c.pi")]), false),
        call("9", "Glob", object(&[("pattern", "spec/*.pi")]), true),
        output("9", &path("spec/d.pi"), true),
        call("10", "Bash", object(&[("command", "grep -rl x spec")]), false),
    ] {
        let asked = references.asks(&event);
        // Only what is asked about is looked up.
        let looked_up = Listing {
            files: listing.files.iter().filter(|file| asked.contains(file)).cloned().collect(),
            folders: listing.folders.iter().filter(|dir| asked.contains(dir)).cloned().collect(),
        };
        references.apply(&event, &looked_up);
    }
    let imported = vec![path("spec/b/index.pi")];
    let files = collect(&imported, &references, DIR, ".harness", Some(&path("spec")));
    let expected: Vec<(String, bool, bool)> = [
        ("spec/b/index.pi", false, false),
        ("spec/a.pi", true, false),
        (".harness/reference/A.md", false, false),
        (long.as_str(), true, false),
        ("spec/c.pi", true, false),
        ("spec/d.pi", false, true),
    ]
    .iter()
    .map(|(file, edited, by_subagent)| (path(file), *edited, *by_subagent))
    .collect();
    assert_eq!(plain(&files), expected);
    assert!(!files.iter().any(|file| file.path == path("spec/unnamed.pi")));
}

/// A row shows the file's name, and an index file's folder before it.
#[test]
fn shows_names_and_index_folders() {
    assert_eq!(shown_name("/p/spec/a.pi"), "a.pi");
    assert_eq!(
        shown_name("/p/spec/prompt-mode/chat-input/index.pi"),
        "chat-input/index.pi"
    );
    assert_eq!(
        shown_name("/p/.harness/reference/index.md"),
        "reference/index.md"
    );
    assert_eq!(shown_name("/p/spec/indexes.pi"), "indexes.pi");
}

#[test]
fn names_without_a_file_or_folder_are_shown_as_they_are() {
    assert_eq!(shown_name("/"), "/");
    assert_eq!(shown_name("/index.pi"), "index.pi");
    assert_eq!(shown_name("a/.."), "a/..");
}

/// Only string members of the input count, and a notebook's path stands in
/// for a file's.
#[test]
fn inputs_are_read_by_their_string_members() {
    let listing = project();
    let mut references = References::new(None);
    let number: Value = serde_json::from_str("{\"file_path\": 3, \"notebook_path\": \"/n.ipynb\"}").unwrap();
    references.apply(&call("1", "NotebookEdit", number, true), &listing);
    references.apply(&call("2", "Read", Value::Null, false), &listing);
    references.apply(&call("3", "Other", object(&[("file_path", "/x")]), false), &listing);
    assert_eq!(
        plain(&references.files),
        [("/n.ipynb".to_string(), true, true)]
    );
}

/// A call's output counts once: the folders it took files in by are forgotten
/// with it.
#[test]
fn output_is_read_once() {
    let listing = project();
    let mut references = References::new(Some(DIR.to_string()));
    references.apply(&call("1", "Grep", object(&[]), false), &listing);
    references.apply(&output("other", "spec/a.pi", false), &listing);
    assert!(references.files.is_empty());
    references.apply(&output("1", "spec/a.pi:1:x\nspec/a.pi:2:y", false), &listing);
    references.apply(&output("1", "spec/c.pi", false), &listing);
    assert_eq!(plain(&references.files), [(path("spec/a.pi"), false, false)]);
}

/// A file imported twice is listed once.
#[test]
fn imports_are_listed_once() {
    let imported = vec![path("spec/a.pi"), path("spec/./a.pi"), path("spec/c.pi")];
    let references = References::new(Some(DIR.to_string()));
    let files = collect(&imported, &references, DIR, ".harness", Some(&path("spec")));
    let paths: Vec<&str> = files.iter().map(|file| file.path.as_str()).collect();
    assert_eq!(paths, [path("spec/a.pi"), path("spec/c.pi")]);
    assert!(files.iter().all(|file| !file.edited && !file.by_subagent));
}
