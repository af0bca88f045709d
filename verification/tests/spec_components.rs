use suspense::listing::Listing;
use suspense::spec_components::{
    declared_names, default_folder, first_sentence, folder_problem, full_name, kebab, name_problem,
    prose, spec_files, ComponentKind, Request, SCOPE_KEYWORDS,
};

fn nothing() -> Listing {
    Listing { files: vec![], folders: vec![] }
}

fn request(kind: ComponentKind) -> Request {
    Request {
        kind,
        name: full_name("FileTree", kind),
        keyword: "ui-component".into(),
        folder: "ui/components/file-tree".into(),
        file: "index.pi".into(),
        shape: None,
        description: "Shows the project's files: {all} of them. As a tree.\n- even this".into(),
    }
}

#[test]
fn names_get_their_word_and_must_be_identifiers() {
    assert_eq!(full_name("Parser", ComponentKind::Scope), "ParserScope");
    assert_eq!(
        full_name("ParserScope", ComponentKind::Scope),
        "ParserScope"
    );
    assert_eq!(full_name("Idea", ComponentKind::Concept), "IdeaConcept");
    assert_eq!(name_problem(""), None);
    assert!(name_problem("parser").is_some());
    assert!(name_problem("Par ser").is_some());
    assert!(name_problem("Par-ser").is_some());
    assert_eq!(name_problem("Parser2"), None);
}

#[test]
fn name_problems_are_told() {
    assert_eq!(name_problem(" parser"), Some("Start the name with a capital letter"));
    assert_eq!(name_problem("Par-ser"), Some("Use only letters and digits in the name"));
    assert_eq!(full_name("  ", ComponentKind::Shape), "");
}

#[test]
fn a_full_name_is_its_own_full_name() {
    for kind in [ComponentKind::Scope, ComponentKind::Concept, ComponentKind::Shape] {
        let name = full_name(" Idea ", kind);
        assert!(name.ends_with(kind.suffix()));
        assert_eq!(full_name(&name, kind), name);
    }
}

#[test]
fn kinds_have_titles_and_nouns() {
    assert_eq!(ComponentKind::Scope.title(), "New Scope");
    assert_eq!(ComponentKind::Concept.title(), "New Concept");
    assert_eq!(ComponentKind::Shape.title(), "New Shape");
    assert_eq!(ComponentKind::Shape.noun(), "shape");
    assert_eq!(SCOPE_KEYWORDS, ["scope", "ui-component"]);
}

#[test]
fn folders_follow_the_name_and_kind() {
    assert_eq!(default_folder("ParserScope", "scope"), "scope/parser");
    assert_eq!(
        default_folder("FileTreeScope", "ui-component"),
        "ui/components/file-tree"
    );
    let dir = "/tmp";
    assert!(folder_problem(dir, "../x", &nothing()).is_some());
    assert!(folder_problem(dir, "/x", &nothing()).is_some());
    assert!(folder_problem(dir, " ", &nothing()).is_some());
}

#[test]
fn folder_problems_are_told() {
    let dir = "/spec";
    assert_eq!(folder_problem(dir, " / ", &nothing()), Some("Give the scope a folder"));
    assert_eq!(
        folder_problem(dir, "a/../b", &nothing()),
        Some("The folder must be within the spec")
    );
    assert_eq!(folder_problem(dir, " a/b/ ", &nothing()), None);
    let taken = Listing { files: vec!["/spec/a/b/index.pi".into()], folders: vec![] };
    assert_eq!(
        folder_problem(dir, " a/b/ ", &taken),
        Some("That folder already holds an index.pi")
    );
    assert_eq!(default_folder("", "scope"), "");
    assert_eq!(kebab("ABShape", ComponentKind::Shape), "a-b");
}

#[test]
fn spec_files_are_told_from_the_spec() {
    let files = vec!["spec/a.pi".to_string(), "other/b.pi".to_string(), "spec/c/d.pi".to_string()];
    let (dir, files) = spec_files("/p", "spec", &files);
    assert_eq!(dir, "/p/spec");
    assert_eq!(files, ["a.pi", "other/b.pi", "c/d.pi"]);
}

#[test]
fn declared_names_are_found() {
    let text = "use /lib\nfrom ./a import B\n\nexport scope AScope:\n    concept: {AConcept}\n\n\
                concept AConcept: // note\n    pitch: x\nexport abstract anchor Base extends X as kw:\n";
    assert_eq!(
        declared_names(text),
        [
            ("scope".to_string(), "AScope".to_string()),
            ("concept".into(), "AConcept".into()),
            ("anchor".into(), "Base".into()),
        ]
    );
}

#[test]
fn what_is_no_declaration_is_left_out() {
    assert!(declared_names("scope:\nscope A-B:\nuse x:\nfrom y:\nscope A\n scope B:\n").is_empty());
    assert_eq!(
        declared_names("scope Über_1:\r\n"),
        [("scope".to_string(), "Über_1".to_string())]
    );
}

#[test]
fn prose_is_escaped() {
    assert_eq!(
        prose("a {b}: c\n\n- d\n// e", 4),
        "    a \\{b\\}\\: c\n\n    \\- d\n    \\// e"
    );
    assert_eq!(first_sentence("One. Two."), "One.");
}

#[test]
fn prose_keeps_one_blank_line_at_a_time() {
    assert_eq!(prose("\n a\n\n\n\nb ", 2), "  a\n\n  b");
    assert_eq!(prose("```x\n~~~y", 0), "\\```x\n\\~~~y");
    assert_eq!(prose(" \n ", 3), "");
    assert_eq!(first_sentence("  \n"), "");
    assert_eq!(first_sentence("No end\nsecond. line"), "No end");
}

#[test]
fn skill_prompts_start_with_the_skill() {
    let prompt = request(ComponentKind::Scope).skill_prompt("build-scope");
    assert!(
        prompt.starts_with(
            "/build-scope Create a new scope named FileTreeScope.\n\nName: FileTreeScope\nKind: ui-component\nFolder: ui/components/file-tree\n\n"
        ),
        "{prompt}"
    );
    assert!(prompt.ends_with("- even this"));
}

#[test]
fn skill_prompts_list_the_fields_of_the_kind() {
    let mut concept = request(ComponentKind::Concept);
    concept.description = "  ".into();
    assert_eq!(
        concept.skill_prompt("s"),
        "/s Create a new concept named FileTreeConcept.\n\nName: FileTreeConcept\nFile: index.pi\nShape: None"
    );
    concept.shape = Some("TreeShape".into());
    assert!(concept.skill_prompt("s").ends_with("Shape: TreeShape"));
    assert!(request(ComponentKind::Shape)
        .skill_prompt("s")
        .contains("Name: FileTreeShape\nFile: index.pi\n\nShows"));
}

#[test]
fn scopes_are_written_whole() {
    let mut scope = request(ComponentKind::Scope);
    assert_eq!(scope.stem(), "FileTree");
    let written = scope.write("/spec", &nothing(), "").ok().unwrap();
    assert_eq!(written.file, "/spec/ui/components/file-tree/index.pi");
    assert_eq!(
        written.text,
        "use /lib\nuse /ui\n\nexport ui-component FileTreeScope:\n    concept: {FileTreeConcept}\n\n\
         concept FileTreeConcept:\n    pitch:\n        Shows the project's files\\: \\{all\\} of them. As a tree.\n        \\- even this\n\n    shape: {FileTreeShape}\n\n\
         shape FileTreeShape:\n    description:\n        Shows the project's files\\: \\{all\\} of them.\n"
    );
    scope.keyword = "scope".into();
    assert!(scope.scope_text().starts_with("use /lib\n\nexport scope FileTreeScope:\n"));
    let taken = Listing { files: vec![written.file], folders: vec![] };
    assert_eq!(
        scope.write("/spec", &taken, "").err(),
        Some("That folder already holds an index.pi".to_string())
    );
}

/// A concept or shape written is declared from then on, and isn't written
/// twice.
#[test]
fn components_are_declared_once() {
    let shape = request(ComponentKind::Shape);
    let written = shape.write("/spec", &nothing(), "use /lib\n\n\n").ok().unwrap();
    assert_eq!(written.file, "/spec/index.pi");
    assert!(written.text.starts_with("use /lib\n\nshape FileTreeShape:\n    description:\n"));
    assert_eq!(
        shape.write("/spec", &nothing(), &written.text).err(),
        Some("FileTreeShape is already declared in index.pi".to_string())
    );
    let concept = Request {
        shape: Some("FileTreeShape".into()),
        ..request(ComponentKind::Concept)
    };
    let both = concept.write("/spec", &nothing(), &written.text).ok().unwrap();
    assert!(both.text.ends_with("\n\n    shape: {FileTreeShape}\n"));
    assert!(concept.write("/spec", &nothing(), &both.text).is_err(), "declared twice");
    assert_eq!(
        concept.appended_to(""),
        concept.anchor_text()
    );
}

/// Whatever the description, a scope declares its three names and a concept adds
/// its own.
#[test]
fn descriptions_declare_nothing() {
    let sly = "concept Sly:\n    pitch\n\nshape Other:\nexport scope ThirdScope:";
    let scope = Request { description: sly.into(), ..request(ComponentKind::Scope) };
    let names = |names: &[(&str, &str)]| -> Vec<(String, String)> {
        names.iter().map(|(keyword, name)| (keyword.to_string(), name.to_string())).collect()
    };
    assert_eq!(
        declared_names(&scope.scope_text()),
        names(&[
            ("ui-component", "FileTreeScope"),
            ("concept", "FileTreeConcept"),
            ("shape", "FileTreeShape"),
        ])
    );
    let concept = Request {
        description: sly.into(),
        shape: Some("FileTreeShape".into()),
        ..request(ComponentKind::Concept)
    };
    assert_eq!(
        declared_names(&concept.appended_to("use /lib\nshape Old:\r\n    x\n\n\n")),
        names(&[("shape", "Old"), ("concept", "FileTreeConcept")])
    );
    assert_eq!(
        declared_names(&concept.appended_to("shape Old:\r")),
        names(&[("shape", "Old"), ("concept", "FileTreeConcept")])
    );
}
