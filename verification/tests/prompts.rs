use suspense::listing::Listing;
use suspense::send_mode::SendMode;
use suspense::system_prompts;
use suspense::system_prompts::{
    default_prompt, dir, fill_understanding, load, save, save_missing, Defaults, Prompt,
};

/// What the harness's directory is called here.
const HARNESS_DIR: &str = ".harness";

fn fill(template: &str, code: &str, spec: &str, reading: &str, fluency: &str) -> String {
  system_prompts::fill(template, code, spec, reading, fluency, HARNESS_DIR)
}

fn defaults() -> Defaults {
    Defaults {
        code: "Code in ${CODE_LOCATION}.\n".into(),
        combined: "Both.\n".into(),
        spec: "Spec in ${SPEC_LOCATION}.\n\n".into(),
        ask: "Ask.".into(),
        spec_reading: "Read first.\n".into(),
    }
}

/// The spec reading is injected with its own placeholders filled in, and
/// leaves no paragraph behind when blank; the fluency is taken as printed.
#[test]
fn injects_the_spec_reading() {
    let template = "${SPEC_READING}\n\nCode in ${CODE_LOCATION}.\n\n${PITON_FLUENCY}";
    assert_eq!(
        fill(
            template,
            "./src",
            "./spec",
            "See ${HARNESS_DIRECTORY} and ${SPEC_LOCATION}, not ${SPEC_READING}.",
            "Keep ${CODE_LOCATION}",
        ),
        "See .harness and ./spec, not ${SPEC_READING}.\n\nCode in ./src.\n\nKeep ${CODE_LOCATION}"
    );
    assert_eq!(
        fill(template, "./src", "./spec", "  \n", ""),
        "Code in ./src."
    );
    assert_eq!(
        fill("A.\n\n${SPEC_READING}\n\nB.", "", "", "", ""),
        "A.\n\nB."
    );
}

#[test]
fn a_template_with_nothing_to_fill_in_stays() {
    assert_eq!(fill("Just this.\n\n", "c", "s", "r", "f"), "Just this.");
    assert_eq!(fill("${UNDERSTANDING_FILE}", "c", "s", "r", "f"), "${UNDERSTANDING_FILE}");
}

#[test]
fn the_understanding_file_is_filled_in_last() {
    assert_eq!(fill_understanding("to ${UNDERSTANDING_FILE}, and", Some("a.md")), "to a.md, and");
    assert_eq!(fill_understanding("x${UNDERSTANDING_FILE}y", None), "xy");
}

/// Templates load as their default until saved, and as saved after;
/// saving the missing ones leaves an edited one alone.
#[test]
fn templates_are_saved_with_the_project() {
    let spec = Prompt::from(SendMode::Spec);
    assert_eq!(load(spec, None, &defaults()), default_prompt(spec, &defaults()));
    let saved = save("Only the spec, in ${SPEC_LOCATION}.\n\n");
    assert_eq!(saved, "Only the spec, in ${SPEC_LOCATION}.\n");
    assert_eq!(
        load(spec, Some(&saved), &defaults()),
        "Only the spec, in ${SPEC_LOCATION}."
    );
    let listing = Listing { files: vec![system_prompts::file(spec, "/p")], folders: vec![] };
    let missing = save_missing("/p", &listing);
    assert_eq!(
        missing,
        [
            Prompt::Mode(SendMode::Code),
            Prompt::Mode(SendMode::Both),
            Prompt::Mode(SendMode::Ask),
            Prompt::SpecReading,
        ]
    );
}

#[test]
fn prompts_have_their_files_and_labels() {
    assert_eq!(dir("/p"), "/p/.suspense/system-prompts");
    assert_eq!(system_prompts::file(Prompt::SpecReading, "/p"), "/p/.suspense/system-prompts/spec-reading.md");
    assert_eq!(system_prompts::file(Prompt::Mode(SendMode::Both), "/p"), "/p/.suspense/system-prompts/combined.md");
    let keys: Vec<&str> = Prompt::all().into_iter().map(|prompt| prompt.key()).collect();
    assert_eq!(keys, ["code", "combined", "spec", "ask", "spec-reading"]);
    let labels: Vec<&str> = Prompt::all().into_iter().map(|prompt| prompt.label()).collect();
    assert_eq!(labels, ["Code", "Chain", "Spec", "Ask", "Spec reading"]);
    assert_eq!(default_prompt(Prompt::Mode(SendMode::Code), &defaults()), "Code in ${CODE_LOCATION}.");
}
