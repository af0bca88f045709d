//! The system prompt each mode gives a prompt's hidden anchor. Each is a
//! template saved with the project, one file per mode in
//! `.suspense/system-prompts`. In a template, `${CODE_LOCATION}` and
//! `${SPEC_LOCATION}` stand for where the code and the spec are,
//! `${HARNESS_DIRECTORY}` for the harness's directory, `${SPEC_READING}` for
//! the spec-reading prompt injected into it, saved beside the templates, and
//! `${PITON_FLUENCY}` for the project's Piton fluency, filled in before the
//! prompt is compiled. `${UNDERSTANDING_FILE}` stands for the task's
//! understanding file; it reaches the compiled prompt as written, and is filled
//! in as the prompt is sent.
use vstd::prelude::*;
use crate::listing::Listing;
use crate::paths::{join_path, joined_path};
use crate::send_mode::SendMode;
use crate::text::{all_white, chars_of, group_runs, is_all_white, is_at, piece, push_str, replace,
    replaced, run_start, stands_at, string_of, trim_end, trimmed_end_of, white, Class};

verus! {

pub const CODE_LOCATION: &'static str = "${CODE_LOCATION}";

pub const SPEC_LOCATION: &'static str = "${SPEC_LOCATION}";

pub const HARNESS_DIRECTORY: &'static str = "${HARNESS_DIRECTORY}";

pub const SPEC_READING: &'static str = "${SPEC_READING}";

pub const PITON_FLUENCY: &'static str = "${PITON_FLUENCY}";

pub const UNDERSTANDING_FILE: &'static str = "${UNDERSTANDING_FILE}";

/// Where a project's own data is saved in it.
pub const APP_DIR: &'static str = ".suspense";

pub const DIR: &'static str = "system-prompts";

// ---------------------------------------------------------------------------
// The prompts
// ---------------------------------------------------------------------------

/// A prompt saved in `.suspense/system-prompts`: a mode's template, or the
/// spec-reading prompt injected into them.
#[derive(Clone, Copy, Debug, PartialEq, Eq, Structural)]
pub enum Prompt {
    Mode(SendMode),
    SpecReading,
}

impl vstd::std_specs::convert::FromSpecImpl<SendMode> for Prompt {
    open spec fn obeys_from_spec() -> bool {
        true
    }

    open spec fn from_spec(mode: SendMode) -> Prompt {
        Prompt::Mode(mode)
    }
}

impl From<SendMode> for Prompt {
    fn from(mode: SendMode) -> (r: Prompt) {
        Prompt::Mode(mode)
    }
}

impl Prompt {
    pub open spec fn every() -> Seq<Prompt> {
        seq![
            Prompt::Mode(SendMode::Code),
            Prompt::Mode(SendMode::Both),
            Prompt::Mode(SendMode::Spec),
            Prompt::Mode(SendMode::Ask),
            Prompt::SpecReading,
        ]
    }

    /// Every prompt: the modes' templates, in order, then the injected one.
    pub fn all() -> (r: Vec<Prompt>)
        ensures
            r@ == Prompt::every(),
    {
        let r: Vec<Prompt> = vec![
            Prompt::Mode(SendMode::Code),
            Prompt::Mode(SendMode::Both),
            Prompt::Mode(SendMode::Spec),
            Prompt::Mode(SendMode::Ask),
            Prompt::SpecReading,
        ];
        proof {
            assert(r@ =~= Prompt::every());
        }
        r
    }

    pub open spec fn key_text(self) -> Seq<char> {
        match self {
            Prompt::Mode(mode) => mode.key_text(),
            Prompt::SpecReading => "spec-reading"@,
        }
    }

    /// The name its file is saved under.
    pub fn key(self) -> (r: &'static str)
        ensures
            r@ == self.key_text(),
    {
        match self {
            Prompt::Mode(mode) => mode.key(),
            Prompt::SpecReading => "spec-reading",
        }
    }

    /// What it is called in the settings.
    pub fn label(self) -> (r: &'static str)
        ensures
            r@ == (match self {
                Prompt::Mode(mode) => mode.label_text(),
                Prompt::SpecReading => "Spec reading"@,
            }),
    {
        match self {
            Prompt::Mode(mode) => mode.label(),
            Prompt::SpecReading => "Spec reading",
        }
    }
}

/// The texts the prompts start with, as the application is built with them.
pub struct Defaults {
    pub code: String,
    pub combined: String,
    pub spec: String,
    pub ask: String,
    pub spec_reading: String,
}

impl Defaults {
    pub open spec fn text(&self, prompt: Prompt) -> Seq<char> {
        match prompt {
            Prompt::Mode(SendMode::Code) => self.code@,
            Prompt::Mode(SendMode::Both) => self.combined@,
            Prompt::Mode(SendMode::Spec) => self.spec@,
            Prompt::Mode(SendMode::Ask) => self.ask@,
            Prompt::SpecReading => self.spec_reading@,
        }
    }
}

fn trim_ended(text: &str) -> (r: String)
    ensures
        r@ == trim_end(text@),
{
    string_of(&trimmed_end_of(&chars_of(text), Class::White))
}

/// The text a prompt starts with, and is reset to. Trimmed as a saved prompt is
/// when it loads, so one left as the default reads as the default.
pub fn default_prompt(prompt: Prompt, defaults: &Defaults) -> (r: String)
    ensures
        r@ == trim_end(defaults.text(prompt)),
{
    let text: &str = match prompt {
        Prompt::Mode(SendMode::Code) => &defaults.code,
        Prompt::Mode(SendMode::Both) => &defaults.combined,
        Prompt::Mode(SendMode::Spec) => &defaults.spec,
        Prompt::Mode(SendMode::Ask) => &defaults.ask,
        Prompt::SpecReading => &defaults.spec_reading,
    };
    trim_ended(text)
}

// ---------------------------------------------------------------------------
// Saving and loading
// ---------------------------------------------------------------------------

pub open spec fn dir_in(project_dir: Seq<char>) -> Seq<char> {
    join_path(join_path(project_dir, APP_DIR@), DIR@)
}

pub open spec fn file_of(prompt: Prompt, project_dir: Seq<char>) -> Seq<char> {
    join_path(dir_in(project_dir), prompt.key_text() + ".md"@)
}

/// The directory the project's prompts are saved in.
pub fn dir(project_dir: &str) -> (r: String)
    ensures
        r@ == dir_in(project_dir@),
{
    joined_path(&joined_path(project_dir, APP_DIR), DIR)
}

/// The file `prompt` is saved in.
pub fn file(prompt: Prompt, project_dir: &str) -> (r: String)
    ensures
        r@ == file_of(prompt, project_dir@),
{
    let mut name = chars_of(prompt.key());
    push_str(&mut name, ".md");
    joined_path(&dir(project_dir), &string_of(&name))
}

pub open spec fn loaded(prompt: Prompt, saved: Option<Seq<char>>, defaults: Defaults) -> Seq<char> {
    match saved {
        Some(text) => trim_end(text),
        None => trim_end(defaults.text(prompt)),
    }
}

/// `prompt` for the project: what its file holds, `saved`, or the default while
/// there is none.
pub fn load(prompt: Prompt, saved: Option<&str>, defaults: &Defaults) -> (r: String)
    ensures
        r@ == loaded(
            prompt,
            match saved {
                Some(text) => Some(text@),
                None => None,
            },
            *defaults,
        ),
{
    match saved {
        Some(text) => trim_ended(text),
        None => default_prompt(prompt, defaults),
    }
}

pub open spec fn saved_as(text: Seq<char>) -> Seq<char> {
    trim_end(text).push('\n')
}

/// What the file of a prompt is to hold for the prompt to be `text`.
pub fn save(text: &str) -> (r: String)
    ensures
        r@ == saved_as(text@),
{
    let mut text = trimmed_end_of(&chars_of(text), Class::White);
    text.push('\n');
    string_of(&text)
}

/// The prompts of some that have no file among `listing`.
pub open spec fn missing(
    prompts: Seq<Prompt>,
    project_dir: Seq<char>,
    there: spec_fn(Seq<char>) -> bool,
) -> Seq<Prompt>
    decreases prompts.len(),
{
    if prompts.len() == 0 {
        seq![]
    } else {
        let before = missing(prompts.drop_last(), project_dir, there);
        if there(file_of(prompts.last(), project_dir)) {
            before
        } else {
            before.push(prompts.last())
        }
    }
}

/// Whether there is anything at a path.
pub open spec fn there_in(listing: Listing) -> spec_fn(Seq<char>) -> bool {
    |path: Seq<char>| listing@.files.contains(path) || listing@.folders.contains(path)
}

/// The prompts whose default is to be saved: those the project has no file
/// for, so each can be found and edited by hand.
pub fn save_missing(project_dir: &str, listing: &Listing) -> (r: Vec<Prompt>)
    ensures
        r@ == missing(Prompt::every(), project_dir@, there_in(*listing)),
{
    let all = Prompt::all();
    let ghost there = there_in(*listing);
    let mut r: Vec<Prompt> = Vec::new();
    let mut i: usize = 0;
    proof {
        assert(r@ =~= missing(all@.take(0), project_dir@, there));
    }
    while i < all.len()
        invariant
            i <= all@.len(),
            there == there_in(*listing),
            r@ == missing(all@.take(i as int), project_dir@, there),
        decreases all@.len() - i,
    {
        let path = file(all[i], project_dir);
        if !(listing.is_file(&path) || listing.is_folder(&path)) {
            r.push(all[i]);
        }
        i += 1;
        proof {
            assert(all@.take(i as int).drop_last() =~= all@.take(i - 1));
            assert(all@.take(i as int).last() == all@[i - 1]);
        }
    }
    proof {
        assert(all@.take(all@.len() as int) =~= all@);
    }
    r
}

// ---------------------------------------------------------------------------
// Filling in
// ---------------------------------------------------------------------------

/// `template` without the paragraphs that are `placeholder` alone, as far as
/// one is set off from the text before it, or from the text after it when it
/// comes first.
pub open spec fn without_paragraph(template: Seq<char>, placeholder: Seq<char>) -> Seq<char> {
    let rest = replace(template, "\n\n"@ + placeholder, seq![]);
    let first = placeholder + "\n\n"@;
    if first.is_prefix_of(rest) {
        rest.skip(first.len() as int)
    } else {
        rest
    }
}

/// `template` with `placeholder` filled in with `value`; an empty value
/// leaves no paragraph of its own behind.
pub open spec fn paragraph_filled(
    template: Seq<char>,
    placeholder: Seq<char>,
    value: Seq<char>,
) -> Seq<char> {
    if all_white(value) {
        replace(without_paragraph(template, placeholder), placeholder, trim_end(value))
    } else {
        replace(template, placeholder, trim_end(value))
    }
}

/// `template` with the spec-reading prompt injected, and then the locations and
/// the harness's directory filled in.
pub open spec fn located(
    template: Seq<char>,
    code: Seq<char>,
    spec: Seq<char>,
    reading: Seq<char>,
    harness_dir: Seq<char>,
) -> Seq<char> {
    replace(
        replace(
            replace(
                paragraph_filled(template, SPEC_READING@, reading),
                CODE_LOCATION@,
                code,
            ),
            SPEC_LOCATION@,
            spec,
        ),
        HARNESS_DIRECTORY@,
        harness_dir,
    )
}

pub open spec fn filled(
    template: Seq<char>,
    code: Seq<char>,
    spec: Seq<char>,
    reading: Seq<char>,
    fluency: Seq<char>,
    harness_dir: Seq<char>,
) -> Seq<char> {
    trim_end(
        paragraph_filled(
            located(template, code, spec, reading, harness_dir),
            PITON_FLUENCY@,
            fluency,
        ),
    )
}

proof fn lemma_placeholders()
    ensures
        CODE_LOCATION@.len() > 0,
        SPEC_LOCATION@.len() > 0,
        HARNESS_DIRECTORY@.len() > 0,
        SPEC_READING@.len() > 0,
        PITON_FLUENCY@.len() > 0,
        UNDERSTANDING_FILE@.len() > 0,
        "\n\n"@.len() == 2,
{
    reveal_strlit("${CODE_LOCATION}");
    reveal_strlit("${SPEC_LOCATION}");
    reveal_strlit("${HARNESS_DIRECTORY}");
    reveal_strlit("${SPEC_READING}");
    reveal_strlit("${PITON_FLUENCY}");
    reveal_strlit("${UNDERSTANDING_FILE}");
    reveal_strlit("\n\n");
}

/// `template` with `placeholder` filled in with `value`; an empty value
/// leaves no paragraph of its own behind.
pub fn fill_paragraph(template: &[char], placeholder: &str, value: &str) -> (r: Vec<char>)
    requires
        placeholder@.len() > 0,
    ensures
        r@ == paragraph_filled(template@, placeholder@, value@),
{
    let value = chars_of(value);
    let pattern = chars_of(placeholder);
    let with = trimmed_end_of(&value, Class::White);
    if !is_all_white(&value) {
        return replaced(template, &pattern, &with);
    }
    let mut paragraph = chars_of("\n\n");
    push_str(&mut paragraph, placeholder);
    let nothing: Vec<char> = Vec::new();
    proof {
        assert(nothing@ =~= seq![]);
    }
    let rest = replaced(template, &paragraph, &nothing);
    let mut first = chars_of(placeholder);
    push_str(&mut first, "\n\n");
    if is_at(&rest, &first, 0) {
        let after = piece(&rest, first.len(), rest.len());
        proof {
            assert(after@ =~= rest@.skip(first@.len() as int));
        }
        replaced(&after, &pattern, &with)
    } else {
        replaced(&rest, &pattern, &with)
    }
}

fn fill_in(template: &[char], placeholder: &str, value: &str) -> (r: Vec<char>)
    requires
        placeholder@.len() > 0,
    ensures
        r@ == replace(template@, placeholder@, value@),
{
    replaced(template, &chars_of(placeholder), &chars_of(value))
}

/// `template` with the spec-reading prompt `reading` injected, then the code
/// and spec locations, the harness's directory `harness_dir`, and the Piton
/// fluency filled in, in it and in what was injected; an empty reading or
/// fluency leaves no paragraph of its own behind. In `reading`,
/// `${SPEC_READING}` is left as written.
pub fn fill(
    template: &str,
    code: &str,
    spec: &str,
    reading: &str,
    fluency: &str,
    harness_dir: &str,
) -> (r: String)
    ensures
        r@ == filled(template@, code@, spec@, reading@, fluency@, harness_dir@),
{
    proof {
        lemma_placeholders();
    }
    let text = fill_paragraph(&chars_of(template), SPEC_READING, reading);
    let text = fill_in(&text, CODE_LOCATION, code);
    let text = fill_in(&text, SPEC_LOCATION, spec);
    let text = fill_in(&text, HARNESS_DIRECTORY, harness_dir);
    // Last, so what piton printed reaches the harness exactly as printed.
    let text = fill_paragraph(&text, PITON_FLUENCY, fluency);
    string_of(&trimmed_end_of(&text, Class::White))
}

/// A compiled system prompt with `${UNDERSTANDING_FILE}` filled in with
/// `path`, the understanding file's path from the project directory, or with
/// nothing for a question, which has none.
pub fn fill_understanding(system_prompt: &str, path: Option<&str>) -> (r: String)
    ensures
        r@ == replace(
            system_prompt@,
            UNDERSTANDING_FILE@,
            match path {
                Some(path) => path@,
                None => ""@,
            },
        ),
{
    proof {
        lemma_placeholders();
    }
    let path = match path {
        Some(path) => path,
        None => "",
    };
    string_of(&fill_in(&chars_of(system_prompt), UNDERSTANDING_FILE, path))
}

// ---------------------------------------------------------------------------
// What holds of saving and filling in
// ---------------------------------------------------------------------------

proof fn lemma_trim_end_last(s: Seq<char>)
    ensures
        trim_end(s).len() > 0 ==> !white(trim_end(s).last()),
{
    broadcast use group_runs;

}

/// A prompt loads back as it was saved, but for white space after it.
pub proof fn a_saved_prompt_loads_back(prompt: Prompt, text: Seq<char>, defaults: Defaults)
    ensures
        loaded(prompt, Some(saved_as(text)), defaults) == trim_end(text),
{
    let kept = trim_end(text);
    let s = saved_as(text);
    let n = kept.len() as int;
    lemma_trim_end_last(text);
    assert(run_start(s, Class::White, n + 1) == run_start(s, Class::White, n));
    assert(run_start(s, Class::White, n) == n) by {
        if n > 0 {
            assert(s[n - 1] == kept.last());
        }
    }
    assert(s.take(n) =~= kept);
}

/// What is nowhere in some text can't be replaced in it.
proof fn lemma_replace_nothing(s: Seq<char>, pattern: Seq<char>, with: Seq<char>)
    requires
        forall|k: int| 0 <= k <= s.len() ==> !stands_at(s, pattern, k),
    ensures
        replace(s, pattern, with) == s,
    decreases s.len(),
{
    if pattern.len() > 0 && s.len() >= pattern.len() {
        assert(!stands_at(s, pattern, 0));
        let rest = s.skip(1);
        assert forall|k: int| 0 <= k <= rest.len() implies !stands_at(rest, pattern, k) by {
            if stands_at(rest, pattern, k) {
                assert(s.subrange(k + 1, k + 1 + pattern.len()) =~= rest.subrange(
                    k,
                    k + pattern.len(),
                ));
                assert(stands_at(s, pattern, k + 1));
            }
        }
        lemma_replace_nothing(rest, pattern, with);
        assert(seq![s[0]] + rest =~= s);
    }
}

/// Whether some text has none of a template's placeholders in it.
pub open spec fn plain(s: Seq<char>) -> bool {
    forall|k: int|
        #![trigger stands_at(s, SPEC_READING@, k)]
        0 <= k <= s.len() ==> !stands_at(s, SPEC_READING@, k) && !stands_at(s, CODE_LOCATION@, k)
            && !stands_at(s, SPEC_LOCATION@, k) && !stands_at(s, HARNESS_DIRECTORY@, k)
            && !stands_at(s, PITON_FLUENCY@, k)
}

proof fn lemma_plain_paragraph(s: Seq<char>, placeholder: Seq<char>, value: Seq<char>)
    requires
        placeholder.len() > 0,
        forall|k: int| 0 <= k <= s.len() ==> !stands_at(s, placeholder, k),
    ensures
        paragraph_filled(s, placeholder, value) == s,
{
    lemma_placeholders();
    let paragraph = "\n\n"@ + placeholder;
    let first = placeholder + "\n\n"@;
    assert forall|k: int| 0 <= k <= s.len() implies !stands_at(s, paragraph, k) by {
        if stands_at(s, paragraph, k) {
            let found = s.subrange(k, k + paragraph.len());
            assert(s.subrange(k + 2, k + 2 + placeholder.len()) =~= found.subrange(
                2,
                2 + placeholder.len() as int,
            ));
            assert(paragraph.subrange(2, 2 + placeholder.len() as int) =~= placeholder);
            assert(stands_at(s, placeholder, k + 2));
        }
    }
    lemma_replace_nothing(s, paragraph, seq![]);
    if first.is_prefix_of(s) {
        assert(s.subrange(0, placeholder.len() as int) =~= first.subrange(
            0,
            placeholder.len() as int,
        ));
        assert(first.subrange(0, placeholder.len() as int) =~= placeholder);
        assert(stands_at(s, placeholder, 0));
    }
    lemma_replace_nothing(s, placeholder, trim_end(value));
}

/// A template with nothing to fill in is left as it is, but for white space
/// after it.
pub proof fn a_plain_template_stays_as_it_is(
    template: Seq<char>,
    code: Seq<char>,
    spec: Seq<char>,
    reading: Seq<char>,
    fluency: Seq<char>,
    harness_dir: Seq<char>,
)
    requires
        plain(template),
    ensures
        filled(template, code, spec, reading, fluency, harness_dir) == trim_end(template),
{
    lemma_placeholders();
    assert forall|k: int| 0 <= k <= template.len() implies !stands_at(template, SPEC_READING@, k)
        && !stands_at(template, CODE_LOCATION@, k) && !stands_at(template, SPEC_LOCATION@, k)
        && !stands_at(template, HARNESS_DIRECTORY@, k) && !stands_at(template, PITON_FLUENCY@, k) by {
        assert(!stands_at(template, SPEC_READING@, k));
    }
    lemma_plain_paragraph(template, SPEC_READING@, reading);
    lemma_replace_nothing(template, CODE_LOCATION@, code);
    lemma_replace_nothing(template, SPEC_LOCATION@, spec);
    lemma_replace_nothing(template, HARNESS_DIRECTORY@, harness_dir);
    lemma_plain_paragraph(template, PITON_FLUENCY@, fluency);
}

/// Where what is replaced stood, what it is replaced with stands.
proof fn lemma_replaced_stands(s: Seq<char>, pattern: Seq<char>, with: Seq<char>, at: int)
    requires
        pattern.len() > 0,
        stands_at(s, pattern, at),
    ensures
        exists|k: int| stands_at(replace(s, pattern, with), with, k),
    decreases s.len(),
{
    let now = replace(s, pattern, with);
    if stands_at(s, pattern, 0) {
        assert(now.subrange(0, with.len() as int) =~= with);
        assert(stands_at(now, with, 0));
    } else {
        let rest = s.skip(1);
        assert(rest.subrange(at - 1, at - 1 + pattern.len()) =~= s.subrange(
            at,
            at + pattern.len(),
        ));
        lemma_replaced_stands(rest, pattern, with, at - 1);
        let after = replace(rest, pattern, with);
        let k = choose|k: int| stands_at(after, with, k);
        assert(now.subrange(k + 1, k + 1 + with.len()) =~= after.subrange(k, k + with.len()));
        assert(stands_at(now, with, k + 1));
    }
}

/// The Piton fluency reaches the prompt exactly as printed, whatever
/// placeholders it holds, but for white space after it.
pub proof fn the_fluency_is_taken_as_printed(
    template: Seq<char>,
    code: Seq<char>,
    spec: Seq<char>,
    reading: Seq<char>,
    fluency: Seq<char>,
    harness_dir: Seq<char>,
    at: int,
)
    requires
        !all_white(fluency),
        stands_at(located(template, code, spec, reading, harness_dir), PITON_FLUENCY@, at),
    ensures
        exists|k: int|
            stands_at(
                filled(template, code, spec, reading, fluency, harness_dir),
                trim_end(fluency),
                k,
            ),
{
    broadcast use group_runs;

    lemma_placeholders();
    let ready = located(template, code, spec, reading, harness_dir);
    let with = trim_end(fluency);
    lemma_replaced_stands(ready, PITON_FLUENCY@, with, at);
    let text = replace(ready, PITON_FLUENCY@, with);
    let k = choose|k: int| stands_at(text, with, k);
    let n = run_start(text, Class::White, text.len() as int);
    let result = filled(template, code, spec, reading, fluency, harness_dir);
    assert(result == trim_end(text));
    lemma_trim_end_last(fluency);
    if with.len() > 0 {
        let last = k + with.len() - 1;
        assert(text.subrange(k, k + with.len())[with.len() - 1] == text[last]);
        if n <= last {
            assert(Class::White.has(text[last]));
        }
        assert(trim_end(text).subrange(k, k + with.len()) =~= text.subrange(k, k + with.len()));
        assert(stands_at(result, with, k));
    } else {
        assert(trim_end(text).subrange(0, 0) =~= with);
        assert(stands_at(result, with, 0));
    }
}

} // verus!
