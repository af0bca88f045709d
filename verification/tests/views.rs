use suspense::harness::HarnessEvent;
use suspense::listing::Listing;
use suspense::reply::OutputRow;
use suspense::rescope::{rank, Concept, Place, Texts};
use suspense::rescope_view::{places_label, RescopeView, StepState, CHECKED_WORTH};
use suspense::scrollbar::{follow, lock_tooltip, Pulse, PULSE_TIME};
use suspense::send_mode::SendMode;
use suspense::settings_window::{file_label, intro, reset_id, SettingsWindow};
use suspense::spec_component_form::{SpecComponentForm, NO_SHAPE};
use suspense::spec_components::ComponentKind;
use suspense::system_prompts::{default_prompt, load, save, Defaults, Prompt};
use suspense::theme::{
    colors, dark, hex, hex_alpha, highlight, light, palette, theme_name, Hue, Palette,
};
use suspense::theme_preference;
use suspense::theme_preference::ThemeMode;

// ---------------------------------------------------------------------------
// Rescope
// ---------------------------------------------------------------------------

fn texts() -> Texts {
    Texts {
        intro: "Look through {specRoot}.".into(),
        spec_root_mark: "{specRoot}".into(),
        task: "Look.".into(),
        reply_format: "Reply.".into(),
        files: "Spec files".into(),
        refactor: "Refactor.".into(),
        concepts: "Concepts".into(),
    }
}

fn place(file: &str, scope: &str, excerpt: &str) -> Place {
    Place { file: file.into(), scope: scope.into(), excerpt: excerpt.into() }
}

/// Spinners, not worth checking, and tooltips in two scopes, worth it.
fn concepts() -> Vec<Concept> {
    vec![
        Concept {
            name: "SpinnerScope".into(),
            concept: "A spinner.".into(),
            worth: 0.3f32.to_bits() as i32,
            why: "".into(),
            places: vec![place("spec/a/index.pi", "AScope", "spins")],
        },
        Concept {
            name: "TooltipScope".into(),
            concept: "A tooltip on hover.".into(),
            worth: 0.8f32.to_bits() as i32,
            why: "Drifted.".into(),
            places: vec![
                place("spec/a/index.pi", "AScope", "shows a tooltip"),
                place("spec/b/index.pi", "BScope", "a tooltip too"),
            ],
        },
    ]
}

/// A line the harness streams is its raw output and the events of the JSON it is;
/// one that is no JSON is its raw output alone.
#[test]
fn lines_are_folded_in_as_streamed() {
    let parse = |value: &serde_json::Value| -> Vec<HarnessEvent> {
        match value.get("error").and_then(|error| error.as_str()) {
            Some(error) => vec![HarnessEvent::Failed(error.into())],
            None => vec![HarnessEvent::TextDelta("More.".into())],
        }
    };
    let mut view = RescopeView::new(1);
    view.listed(None);
    let rows = |view: &RescopeView| view.reply.parts.len();
    view.stream_raw("not { JSON".into(), &parse);
    assert_eq!(rows(&view), 0);
    assert_eq!(view.reply.raw_tail.back().map(String::as_str), Some("not { JSON"));
    view.stream_raw(r#"{"error": "no harness"}"#.into(), &parse);
    assert_eq!(rows(&view), 1);
    assert!(matches!(view.reply.row(0), Some(OutputRow::Error("no harness"))));

    let mut lines = RescopeView::new(1);
    lines.listed(None);
    lines.stream_lines(
        vec!["[1, 2".into(), "[1, 2]".into(), "oh".into(), r#""text""#.into()],
        &parse,
    );
    assert_eq!(rows(&lines), 1);
    assert!(matches!(lines.reply.row(0), Some(OutputRow::Text("More.More."))));
    assert_eq!(lines.reply.raw_tail.back().map(String::as_str), Some(r#""text""#));
}

/// The concepts found are ranked, those worth half or more checked and the
/// first selected with where it's described; Refactor hands on a prompt
/// for the checked concepts only.
#[test]
fn ranks_concepts_and_refactors_those_checked() {
    let mut view = RescopeView::new(1);
    assert!(view.is_running());
    view.listed(None);
    view.stream_line("{}".into(), &vec![HarnessEvent::TextStarted]);
    assert!(view.is_running());
    view.found(Ok(rank(concepts())));
    let names: Vec<&str> =
        view.concepts.as_ref().unwrap().iter().map(|c| c.name.as_str()).collect();
    assert_eq!(names, ["TooltipScope", "SpinnerScope"]);
    assert_eq!(view.checked, [0]);
    assert!(!view.is_running());
    assert_eq!(view.detailed(), Some(0));
    let sent = view.refactor(&texts()).unwrap();
    assert!(sent.contains("TooltipScope: A tooltip on hover."));
    assert!(!sent.contains("SpinnerScope"));
    assert_eq!(view.checked_label(), "1 concept checked");
    assert_eq!(places_label(&view.concepts.as_ref().unwrap()[0]), "2 places · 2 scopes");

    view.set_checked(1, true);
    view.set_checked(1, true);
    assert_eq!(view.checked, [0, 1]);
    assert_eq!(view.checked_label(), "2 concepts checked");
    view.set_checked(0, false);
    assert!(!view.is_checked(0) && view.is_checked(1));
    let sent = view.refactor(&texts()).unwrap();
    assert!(sent.contains("SpinnerScope: A spinner.") && !sent.contains("TooltipScope"));
    view.set_checked(1, false);
    assert_eq!(view.refactor(&texts()), None);
    view.select(7);
    assert_eq!(view.detailed(), None);
    view.set_output_lock(false);
    view.look(2);
    assert!(view.output_locked && view.is_running() && view.concepts.is_none());
    assert_eq!(0.5f32.to_bits() as i32, CHECKED_WORTH);
}

/// A harness that fails says why and offers nothing; one that finds
/// nothing says so.
#[test]
fn failing_or_finding_nothing_is_said() {
    let mut view = RescopeView::new(1);
    view.listed(None);
    view.found(Err("the harness stopped".into()));
    assert!(matches!(&view.looking, StepState::Failed(why) if why == "the harness stopped"));
    assert_eq!(view.looking.problem().as_deref(), Some("the harness stopped"));
    assert_eq!(view.reading.problem(), None);
    assert!(view.step_failed() && view.concepts.is_none() && !view.is_running());
    assert_eq!(view.reply.last_row(), Some(OutputRow::Error("the harness stopped")));
    assert_eq!(view.refactor(&texts()), None);

    view.look(2);
    view.listed(Some("no spec".into()));
    assert_eq!(view.reading.problem().as_deref(), Some("no spec"));
    assert!(!view.is_running());

    view.look(3);
    view.listed(None);
    view.found(Ok(vec![]));
    assert_eq!(view.selected, None);
    assert_eq!(view.checked_label(), "No concepts checked");
}

// ---------------------------------------------------------------------------
// Forms
// ---------------------------------------------------------------------------

fn none() -> Listing {
    Listing { files: vec![], folders: vec![] }
}

fn form(kind: ComponentKind, open: Option<&str>) -> SpecComponentForm {
    SpecComponentForm::new(
        kind,
        "/p",
        Some(("/p/spec".into(), vec!["a/index.pi".into(), "b.pi".into()])),
        open,
    )
}

/// A scope's folder follows its name and keyword until it is edited.
#[test]
fn the_folder_follows_the_name() {
    let mut form = form(ComponentKind::Scope, None);
    form.fill("FileTree", "Lists files.");
    assert_eq!(form.folder, "scope/file-tree");
    assert_eq!(form.name_note().as_deref(), Some("FileTreeScope"));
    assert_eq!(form.folder_note().as_deref(), Some("Writes scope/file-tree/index.pi"));
    form.keyword_changed(Some("ui-component".into()));
    assert_eq!(form.folder, "ui/components/file-tree");
    form.folder_changed("here ".into());
    form.name_changed("Other".into());
    assert_eq!(form.folder, "here ");
    assert_eq!(form.request().folder, "here");
    assert_eq!(form.name_placeholder(), "ParserScope");
}

/// What is missing is said, in order, until the component can be created; what
/// comes of writing it is shown.
#[test]
fn problems_are_said_in_order() {
    let mut form = form(ComponentKind::Concept, None);
    assert_eq!(form.creating_problem(&none()).as_deref(), Some("Give it a name"));
    assert_eq!(form.name_problem_shown(), None);
    form.name_changed("parser".into());
    assert_eq!(
        form.name_problem_shown().as_deref(),
        Some("Start the name with a capital letter")
    );
    form.name_changed("Parser".into());
    assert_eq!(form.problem(&none()).as_deref(), Some("Choose the file it goes in"));
    form.file_chosen(
        Some("b.pi".into()),
        Some("shape TreeShape:\n    a\n\nconcept ParserConcept:\n    b\n"),
    );
    assert_eq!(form.file_to_read().as_deref(), Some("/p/spec/b.pi"));
    assert_eq!(form.shapes_offered(), [NO_SHAPE, "TreeShape"]);
    assert_eq!(
        form.problem(&none()).as_deref(),
        Some("ParserConcept is already declared in that file")
    );
    form.name_changed("Tree".into());
    assert_eq!(form.creating_problem(&none()).as_deref(), Some("Describe it"));
    assert_eq!(form.create_tooltip(&none()), "Describe it");
    assert!(form.create(&none()).is_none());
    form.fill("Tree", "Lists files.");
    form.shape = "TreeShape".into();
    let request = form.create(&none()).unwrap();
    assert_eq!(request.name, "TreeConcept");
    assert_eq!(request.shape.as_deref(), Some("TreeShape"));
    assert!(form.create(&none()).is_none(), "it is being created already");
    assert_eq!(form.created(Err("read-only".into())), None);
    assert_eq!(form.error.as_deref(), Some("read-only"));
    assert!(form.create(&none()).is_some());
    assert_eq!(form.created(Ok("/p/spec/b.pi".into())).as_deref(), Some("/p/spec/b.pi"));
    assert_eq!(form.create_tooltip(&none()), "Write it into the spec and open it");
}

/// A scope's folder can't hold an index.pi already.
#[test]
fn a_folder_taken_is_said() {
    let mut form = form(ComponentKind::Scope, None);
    form.fill("Tree", "Lists files.");
    let taken = Listing { files: vec!["/p/spec/scope/tree/index.pi".into()], folders: vec![] };
    assert_eq!(
        form.folder_problem_shown(&taken).as_deref(),
        Some("That folder already holds an index.pi")
    );
    assert_eq!(form.problem(&none()), None);
    assert!(form.create(&none()).is_some());
}

/// The form starts on the file open, when it is a spec file; a skill is chosen
/// of those found, sorted.
#[test]
fn skills_are_run_with_the_form() {
    let mut form = form(ComponentKind::Shape, Some("/p/spec/a/index.pi"));
    assert_eq!(form.file.as_deref(), Some("a/index.pi"));
    assert_eq!(self::form(ComponentKind::Shape, Some("/p/spec/c.pi")).file, None);
    assert_eq!(self::form(ComponentKind::Shape, Some("/q/spec/b.pi")).file, None);
    let without = SpecComponentForm::new(ComponentKind::Shape, "/p", None, None);
    assert_eq!((without.spec_dir.as_str(), without.files.len()), ("/p/spec", 0));
    form.fill("Tree", "");
    form.skills_found(&vec!["write".into(), "draft".into()]);
    assert_eq!(form.skills, ["draft", "write"]);
    form.skills_found(&vec!["b".into(), "a".into(), "ab".into(), "a".into()]);
    assert_eq!(form.skills, ["a", "a", "ab", "b"]);
    form.skills_found(&vec!["write".into(), "draft".into()]);
    assert_eq!(form.running_problem(&none()).as_deref(), Some("Choose a skill to run"));
    assert_eq!(form.run_skill(&none()), None);
    form.skill = Some("draft".into());
    assert_eq!(form.skill_tooltip(&none()), "Close and hand it to the skill to create");
    assert!(form.run_skill(&none()).unwrap().starts_with("/draft"));
}

// ---------------------------------------------------------------------------
// The scrollbar
// ---------------------------------------------------------------------------

/// Locking starts a pulse, which runs out; a list first shown locked
/// doesn't pulse, and unlocking stops one under way.
#[test]
fn locking_pulses_once() {
    let at = |ms: u64| ms * 1_000_000;

    let mut shown_locked = Pulse::default();
    assert_eq!(shown_locked.observe(true, at(0)), None);
    assert_eq!(shown_locked.observe(true, at(16)), None);

    let mut pulse = Pulse::default();
    assert_eq!(pulse.observe(false, at(0)), None);
    assert_eq!(pulse.observe(true, at(100)), Some(0));
    assert_eq!(pulse.observe(true, at(400)), Some(at(300)));
    assert_eq!(pulse.observe(true, at(100) + PULSE_TIME), None);
    assert_eq!(pulse.observe(true, at(2000)), None, "it pulsed again");

    let mut stopped = Pulse::default();
    stopped.observe(false, at(0));
    assert!(stopped.observe(true, at(10)).is_some());
    assert_eq!(stopped.observe(false, at(50)), None);
    assert_eq!(stopped.observe(false, at(60)), None);
}

/// Scrolling by hand locks at the bottom and unlocks elsewhere.
#[test]
fn scrolling_by_hand_switches_the_lock() {
    assert!(follow(false, true, true));
    assert!(!follow(true, true, false));
    assert!(follow(true, false, false) && !follow(false, false, true));
    assert_eq!(lock_tooltip(true), "Unlock the scroll from the bottom");
    assert_eq!(lock_tooltip(false), "Lock the scroll to the bottom");
}

// ---------------------------------------------------------------------------
// The theme
// ---------------------------------------------------------------------------

/// WCAG's contrast ratio between two opaque colours.
fn contrast(a: u32, b: u32) -> f32 {
    let luminance = |c: u32| {
        let channel = |shift: u32| {
            let v = ((c >> shift) & 0xff) as f32 / 255.;
            if v <= 0.04045 {
                v / 12.92
            } else {
                ((v + 0.055) / 1.055).powf(2.4)
            }
        };
        0.2126 * channel(16) + 0.7152 * channel(8) + 0.0722 * channel(0)
    };
    let (a, b) = (luminance(a), luminance(b));
    (a.max(b) + 0.05) / (a.min(b) + 0.05)
}

/// The contrast the theme promises, in both modes.
#[test]
fn both_modes_keep_their_contrast() {
    for (name, p) in [("dark", dark()), ("light", light())] {
        let Palette { base, recessed, well, overlay, .. } = p;
        for text in [p.text, p.text_secondary] {
            for surface in [base, recessed, well, overlay] {
                assert!(
                    contrast(text, surface) >= 4.5,
                    "{name}: {text:06x} on {surface:06x}"
                );
            }
        }
        for control in [p.raised, p.hover, p.pressed, p.selected] {
            assert!(contrast(p.text, control) >= 4., "{name}: text on {control:06x}");
        }
        for hue in [p.text_tertiary, p.success, p.warning, p.error, p.accent] {
            assert!(contrast(hue, base) >= 3., "{name}: {hue:06x} on the base");
        }
        assert!(contrast(0xffffff, p.accent_fill) >= 4.5, "{name}: primary buttons");
        let edge = contrast(p.edge, base);
        assert!((1.4..=1.7).contains(&edge), "{name}: edge {edge}");
        assert!(contrast(p.line, base) < edge, "{name}: lines are quieter than edges");
    }
}

/// The order of the surfaces holds in both modes: the base is the
/// reference, pressed and selected are furthest from it that way in dark
/// mode, hover furthest the raised way.
#[test]
fn surfaces_keep_their_order() {
    let lightness = |c: u32| {
        let channels = [(c >> 16) & 0xff, (c >> 8) & 0xff, c & 0xff].map(|v| v as f32 / 255.);
        let most = channels.iter().copied().fold(0f32, f32::max);
        let least = channels.iter().copied().fold(1f32, f32::min);
        (most + least) / 2.
    };
    let d = dark();
    assert_eq!(d.base, 0x444444);
    assert!(lightness(d.well) < lightness(d.recessed));
    assert!(lightness(d.recessed) < lightness(d.base));
    assert!(lightness(d.base) < lightness(d.raised));
    assert!(lightness(d.raised) < lightness(d.hover));
    let l = light();
    assert!(lightness(l.well) > lightness(l.recessed));
    assert!(lightness(l.recessed) > lightness(l.base));
    assert!(lightness(l.selected) < lightness(l.pressed));
    assert!(lightness(l.pressed) < lightness(l.base));
}

/// The configuration takes its colours from the palette in each mode.
#[test]
fn the_configuration_follows_the_palette() {
    for (is_dark, p) in [(true, dark()), (false, light())] {
        let set = colors(&p, is_dark);
        assert!(set.values().all(|value| value.is_string()));
        let text = |key: &str| set.get(key).and_then(|v| v.as_str()).unwrap().to_string();
        assert_eq!(text("background"), hex(p.base));
        assert_eq!(text("foreground"), hex(p.text));
        assert_eq!(text("muted.foreground"), hex(p.text_secondary));
        assert_eq!(text("border"), hex(p.edge));
        assert_eq!(text("popover.background"), hex(p.overlay));
        assert_eq!(text("list.hover.background"), hex(p.hover));
        assert_eq!(text("list.active.background"), hex(p.selected));
        assert_eq!(text("primary.background"), hex(p.accent_fill));
        assert_eq!(text("ring"), hex(p.accent));
        assert_eq!(text("danger.background"), hex(p.error));
        assert_eq!(text("success.background"), hex(p.success));
        assert_eq!(text("warning.background"), hex(p.warning));
        assert_eq!(text("tab_bar.background"), hex(p.raised));
        assert_eq!(text("base.red"), hex(p.error));
        assert_eq!(text("base.blue"), hex(p.accent));
        assert_eq!(text("overlay"), if is_dark { "#00000066" } else { "#00000040" });
        assert_eq!(text("chart.3"), hex(p.purple));
        assert_eq!(text("info.foreground"), if is_dark { "#2a2a2a" } else { "#ffffff" });
        assert_eq!(set.len(), 120);
        assert_eq!(palette(is_dark), p);
    }
    assert_eq!(theme_name(true), "Suspense Dark");
    assert_eq!(theme_name(false), "Suspense Light");
}

/// The editor sits in the well, and what else is set stays.
#[test]
fn the_editor_sits_in_the_well() {
    let mut style = serde_json::Map::new();
    style.insert("editor.background".into(), serde_json::Value::Null);
    style.insert("syntax".into(), serde_json::Value::String("kept".into()));
    highlight(&dark(), &mut style);
    assert_eq!(style.len(), 6);
    assert_eq!(style.get("editor.background").and_then(|v| v.as_str()), Some("#2e2e2e"));
    assert_eq!(style.get("syntax").and_then(|v| v.as_str()), Some("kept"));
}

#[test]
fn colours_are_written_in_hexadecimal() {
    assert_eq!(hex(0x00a1f0), "#00a1f0");
    assert_eq!(hex(0), "#000000");
    assert_eq!(hex_alpha(0x123456, 5), "#12345605");
    assert_eq!(hex_alpha(0xffffff, 0xff), "#ffffffff");
    assert_eq!(Hue::Amber.of(&dark()), 0xe6bb68);
}

#[test]
fn saved_choice_loads_back() {
    assert_eq!(theme_preference::load(None), None);
    let saved = theme_preference::save(ThemeMode::Dark);
    assert_eq!(theme_preference::load(Some(saved)), Some(ThemeMode::Dark));
    let saved = theme_preference::save(ThemeMode::Light);
    assert_eq!(theme_preference::load(Some(saved)), Some(ThemeMode::Light));
    assert_eq!(theme_preference::load(Some(" dark\n")), Some(ThemeMode::Dark));
    assert_eq!(theme_preference::load(Some("blue")), None);
    assert_eq!(
        theme_preference::file(Some("/home/u/.config")),
        Ok("/home/u/.config/suspense/theme".to_string())
    );
    assert_eq!(theme_preference::file(None), Err("no config directory"));
}

// ---------------------------------------------------------------------------
// Settings
// ---------------------------------------------------------------------------

/// The window shows each mode's prompt for the open project. An edit is saved
/// as it is made, an edit made by hand shows once the prompts are read again,
/// and a prompt can be put back to its default.
#[test]
fn edits_the_projects_system_prompts() {
    let defaults = Defaults {
        code: "Code.\n".into(),
        combined: "Both.\n".into(),
        spec: "Spec.\n".into(),
        ask: "Ask.\n".into(),
        spec_reading: "Read.\n".into(),
    };
    let modes = [SendMode::Code, SendMode::Both, SendMode::Spec, SendMode::Ask];
    let mut settings = SettingsWindow::new();
    for mode in modes {
        let text = load(Prompt::Mode(mode), None, &defaults);
        assert!(settings.load(mode, Some(Ok(text))));
    }
    for (ix, mode) in modes.into_iter().enumerate() {
        assert_eq!(settings.prompts[ix].text, default_prompt(Prompt::Mode(mode), &defaults));
        assert!(settings.is_default(mode, &defaults));
    }

    assert!(settings.edit(SendMode::Code, "Hi. Code.".into(), true));
    let on_disk = save(&settings.prompts[0].text);
    assert_eq!(load(Prompt::Mode(SendMode::Code), Some(&on_disk), &defaults), "Hi. Code.");
    assert!(!settings.is_default(SendMode::Code, &defaults));
    settings.saved(SendMode::Code, Some("read-only".into()));
    assert_eq!(settings.prompts[0].error.as_deref(), Some("read-only"));
    settings.saved(SendMode::Code, None);
    assert_eq!(settings.prompts[0].error, None);

    assert!(settings.load(SendMode::Spec, Some(Ok("Edited by hand.".into()))));
    assert_eq!(settings.prompts[2].text, "Edited by hand.");
    assert!(!settings.load(SendMode::Code, Some(Ok("Hi. Code.".into()))), "it shows already");

    assert!(settings.reset(SendMode::Spec, &defaults, true));
    assert_eq!(settings.prompts[2].text, "Spec.");
    assert!(!settings.reset(SendMode::Ask, &defaults, false));
    settings.load(SendMode::Ask, Some(Err("unreadable".into())));
    assert_eq!(settings.prompts[3].text, "");
    assert_eq!(settings.prompts[3].error.as_deref(), Some("unreadable"));
    settings.load(SendMode::Ask, None);
    assert_eq!(settings.prompts[3].error, None);

    assert_eq!(file_label(SendMode::Both), ".suspense/system-prompts/combined.md");
    assert_eq!(reset_id(SendMode::Ask), "reset-ask-system-prompt");
    assert!(intro().contains("${CODE_LOCATION} and ${SPEC_LOCATION} stand for"));
}
