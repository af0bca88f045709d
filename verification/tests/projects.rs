use suspense::hidden_anchor::{anchor_mode, HiddenAnchor};
use suspense::listing::Listing;
use suspense::prompt_queue::{add, file_name, load, load_order, queue_dir, QueueFile};
use suspense::recent_projects::{RecentProjects, MAX_RECENT};
use suspense::rescope::{
    json_in, rank, refactor_prompt, search_prompt, Concept, Place, Texts, FULL_WORTH,
    NO_WORTH,
};
use suspense::send_mode::SendMode;

/// Opening a project moves it to the front, once, keeping the newest few;
/// only those still holding a config can be opened.
#[test]
fn notes_saves_and_loads_recent_projects() {
    let mut recent = RecentProjects::default();
    recent.set_last_browsed("/tmp");
    assert_eq!(recent.last_browsed.as_deref(), Some("/tmp"));
    let mut configs: Vec<String> = vec![];
    for n in 0..7 {
        let project = format!("/tmp/p{n}");
        configs.push(format!("{project}/piton.config.pi"));
        recent.note(&project);
    }
    recent.note("/tmp/p4");
    let names: Vec<String> = recent
        .projects
        .iter()
        .map(|path| path.rsplit('/').next().unwrap().to_string())
        .collect();
    assert_eq!(names, ["p4", "p6", "p5", "p3", "p2"]);
    assert_eq!(recent.projects.len(), MAX_RECENT);

    configs.retain(|config| config != "/tmp/p6/piton.config.pi");
    let listing = Listing { files: configs, folders: vec![] };
    assert_eq!(recent.openable(&listing).len(), 4);
    assert_eq!(recent.openable(&listing)[0], "/tmp/p4");
    let before = recent.projects.clone();
    recent.note("/tmp/p4/");
    assert_eq!(recent.projects.len(), 5);
    assert_eq!(recent.projects[1..], before[1..]);
}

fn anchor(name: &str) -> HiddenAnchor {
    HiddenAnchor { name: name.into(), mode: None, told: None, attached_text: vec![] }
}

/// Queued prompts load back in the order they were queued.
#[test]
fn queued_prompts_load_back_in_order() {
    assert_eq!(queue_dir("/p"), "/p/.suspense/queue");
    assert_eq!(file_name(7, "Prompt_a"), "00000000000000000007-Prompt_a.pi");
    assert_eq!(
        file_name(123456789012345678901234, "x"),
        "123456789012345678901234-x.pi"
    );
    let first = add(anchor("Prompt_z"), "Update\n\n  indented".into(), "/p", 999);
    let second = add(anchor("Prompt_a"), "second".into(), "/p", 1000);
    assert_eq!(first.file, "/p/.suspense/queue/00000000000000000999-Prompt_z.pi");
    assert_eq!(first.text, "Update\n\n  indented");
    let name = |file: &str| file.rsplit('/').next().unwrap().to_string();
    let listed = vec![name(&second.file), "notes.txt".into(), name(&first.file), ".pi".into()];
    assert_eq!(load_order(&listed), [name(&first.file), name(&second.file)]);
    // Past what names are padded to, the first digits decide.
    let padded_to: u128 = 100_000_000_000_000_000_000;
    let long = vec![file_name(3 * padded_to, "b"), file_name(padded_to / 5, "a")];
    assert_eq!(load_order(&long), [long[1].clone(), long[0].clone()]);
    let turned = vec![file_name(padded_to, "b"), file_name(padded_to - 1, "a")];
    assert_eq!(load_order(&turned), turned);

    let broken = "00000000000000000001-broken.pi".to_string();
    let read = |names: Vec<String>| -> Vec<QueueFile> {
        load_order(&names)
            .into_iter()
            .map(|name| {
                let prompt = if name.contains("Prompt_z") {
                    Some((anchor("Prompt_z"), "Update\n\n  indented".to_string()))
                } else if name.contains("Prompt_a") {
                    Some((anchor("Prompt_a"), "second".to_string()))
                } else {
                    None
                };
                QueueFile { name, prompt }
            })
            .collect()
    };
    let loaded = load("/p", read(vec![name(&second.file), broken.clone(), name(&first.file)]));
    let texts: Vec<(&str, &str, &str)> = loaded
        .iter()
        .map(|q| (q.file.as_str(), q.anchor.name.as_str(), q.text.as_str()))
        .collect();
    assert_eq!(
        texts,
        [
            (first.file.as_str(), "Prompt_z", "Update\n\n  indented"),
            (second.file.as_str(), "Prompt_a", "second"),
        ]
    );
    let left = load("/p", read(vec![broken, name(&second.file)]));
    assert_eq!(left.len(), 1);
    assert_eq!(left[0].text, "second");
}

#[test]
fn anchors_tell_their_mode() {
    let mut anchor = anchor("x");
    assert_eq!(anchor_mode(&anchor), None);
    anchor.told = Some(SendMode::Spec);
    assert_eq!(anchor_mode(&anchor), Some(SendMode::Spec));
    anchor.mode = Some(SendMode::Code);
    assert_eq!(anchor_mode(&anchor), Some(SendMode::Code));
}

fn texts() -> Texts {
    Texts {
        intro: "Find what the spec located in {specRoot} describes over and over.".into(),
        spec_root_mark: "{specRoot}".into(),
        task: "Look.".into(),
        reply_format: "Reply.".into(),
        files: "Spec files".into(),
        refactor: "Refactor.".into(),
        concepts: "Concepts".into(),
    }
}

/// Where a worth stands among the single-precision numbers.
fn worth(worth: f32) -> i32 {
    let bits = worth.to_bits() as i32;
    bits ^ (((bits >> 31) as u32) >> 1) as i32
}

/// Concepts are read from the reply and ranked, most worth first, then by
/// how many places; the search prompt lists the files; and the refactor
/// prompt names each concept and every place it's described.
#[test]
fn ranks_concepts_and_builds_prompts() {
    let json = json_in(
        r#"Found: {"concepts": [
            {"name": "TooltipScope", "concept": "Tooltips", "worth": 0.4,
             "places": [{"file": "spec/a.pi", "scope": "AScope", "excerpt": "a tooltip"}]},
            {"name": "", "worth": 1.0},
            {"name": "SpinnerScope", "concept": "Spinners", "worth": 1.4, "why": "Everywhere.",
             "places": [
                {"file": "spec/a.pi", "scope": "AScope", "excerpt": "a spinner"},
                {"file": "spec/b.pi", "scope": "BScope", "excerpt": "another\nspinner"},
                {"file": "spec/b.pi", "scope": "BScope", "excerpt": "again"}
             ]}
        ]}"#,
    )
    .unwrap();
    let reply: serde_json::Value = serde_json::from_str(&json).unwrap();
    let text = |value: &serde_json::Value, key: &str| -> String {
        value.get(key).and_then(|value| value.as_str()).unwrap_or("").to_string()
    };
    let list = |value: &serde_json::Value, key: &str| -> Vec<serde_json::Value> {
        value.get(key).and_then(|value| value.as_array()).cloned().unwrap_or_default()
    };
    let concepts: Vec<Concept> = list(&reply, "concepts")
        .iter()
        .map(|concept| Concept {
            name: text(concept, "name"),
            concept: text(concept, "concept"),
            worth: worth(concept.get("worth").and_then(|w| w.as_f64()).unwrap_or(0.) as f32),
            why: text(concept, "why"),
            places: list(concept, "places")
                .iter()
                .map(|place| Place {
                    file: text(place, "file"),
                    scope: text(place, "scope"),
                    excerpt: text(place, "excerpt"),
                })
                .collect(),
        })
        .collect();
    let mut concepts = rank(concepts);
    let names: Vec<&str> = concepts.iter().map(|c| c.name.as_str()).collect();
    assert_eq!(names, ["SpinnerScope", "TooltipScope"]);
    assert_eq!(concepts[0].worth, worth(1.));
    assert_eq!(concepts[0].scope_count(), 2);
    assert!(json_in("no").is_err());

    let search = search_prompt(&texts(), "spec", &vec!["spec/a.pi".into(), "spec/b.pi".into()]);
    assert!(search.contains("the spec located in spec describes"));
    assert!(search.ends_with("Spec files:\nspec/a.pi\nspec/b.pi\n"));

    concepts.truncate(1);
    let refactor = refactor_prompt(&texts(), &concepts);
    assert!(refactor.contains("SpinnerScope: Spinners"));
    assert!(refactor.contains("- BScope in spec/b.pi: another spinner"));
}

#[test]
fn replies_without_json_are_refused() {
    assert_eq!(json_in("no"), Err("the reply has no JSON in it"));
    assert_eq!(json_in("{ only opens"), Err("the reply has no JSON in it"));
    assert_eq!(json_in("x {a} y"), Ok("{a}".to_string()));
    assert_eq!(json_in("} {"), Err("the reply has no JSON in it"));
    assert_eq!(json_in("}{"), Err("the reply has no JSON in it"));
}

/// A worth is kept from 0 to 1.
#[test]
fn worth_is_kept_within_bounds() {
    let concept = |name: &str, of: f32| Concept {
        name: name.into(),
        concept: "".into(),
        worth: worth(of),
        why: "".into(),
        places: vec![],
    };
    let ranked = rank(vec![concept("a", -3.), concept("b", 0.5), concept("c", 7.)]);
    let worths: Vec<(&str, i32)> = ranked.iter().map(|c| (c.name.as_str(), c.worth)).collect();
    assert_eq!(worths, [("c", worth(1.)), ("b", worth(0.5)), ("a", worth(0.))]);
    assert_eq!((worth(0.), worth(1.)), (NO_WORTH, FULL_WORTH));
}

#[test]
fn equal_worth_ranks_by_places_then_name() {
    let concept = |name: &str, worth: i32, places: usize| Concept {
        name: name.into(),
        concept: "".into(),
        worth,
        why: "".into(),
        places: (0..places)
            .map(|_| Place { file: "f".into(), scope: "s".into(), excerpt: "e".into() })
            .collect(),
    };
    let ranked = rank(vec![
        concept("b", 1, 1),
        concept("  ", 9, 9),
        concept("c", 1, 2),
        concept("a", 1, 1),
        concept("d", 2, 0),
    ]);
    let names: Vec<&str> = ranked.iter().map(|c| c.name.as_str()).collect();
    assert_eq!(names, ["d", "c", "a", "b"]);
}
