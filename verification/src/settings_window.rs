//! The settings, shown in the main window's inset panel: the system prompt each
//! tab gives a prompt, for the open project. Every edit is saved straight away
//! to the project's `.suspense/system-prompts`, and the prompts are read from
//! there each time the settings open, so an edit made by hand shows up.
use vstd::prelude::*;
use crate::send_mode::SendMode;
use crate::system_prompts::{default_prompt, Defaults, Prompt, CODE_LOCATION, SPEC_LOCATION};
use crate::text::{concat, concat_of, same, trim_end, views};

verus! {

/// One prompt, as edited.
pub struct PromptEditor {
    pub mode: SendMode,
    pub text: String,
    /// Why the prompt could not be read or saved, until it can be.
    pub error: Option<String>,
}

/// The settings' state.
pub struct SettingsWindow {
    pub prompts: Vec<PromptEditor>,
}

/// The modes with a prompt, in order.
pub open spec fn modes() -> Seq<SendMode> {
    seq![SendMode::Code, SendMode::Both, SendMode::Spec, SendMode::Ask]
}

/// Where a mode's prompt is.
pub open spec fn place(mode: SendMode) -> int {
    match mode {
        SendMode::Code => 0,
        SendMode::Both => 1,
        SendMode::Spec => 2,
        SendMode::Ask => 3,
    }
}

fn place_of(mode: SendMode) -> (r: usize)
    ensures
        r == place(mode),
{
    match mode {
        SendMode::Code => 0,
        SendMode::Both => 1,
        SendMode::Spec => 2,
        SendMode::Ask => 3,
    }
}

fn empty(mode: SendMode) -> (r: PromptEditor)
    ensures
        r.mode == mode && r.text@.len() == 0 && r.error is None,
{
    PromptEditor { mode, text: String::new(), error: None }
}

impl SettingsWindow {
    pub open spec fn wf(self) -> bool {
        &&& self.prompts@.len() == modes().len()
        &&& forall|i: int|
            0 <= i < modes().len() ==> (#[trigger] self.prompts@[i]).mode == modes()[i]
    }

    /// A mode's prompt, as edited.
    pub open spec fn prompt(self, mode: SendMode) -> PromptEditor {
        self.prompts@[place(mode)]
    }

    /// Whether nothing but a mode's prompt changed.
    pub open spec fn changed_only(self, before: SettingsWindow, mode: SendMode) -> bool {
        forall|other: SendMode| other != mode ==> #[trigger] self.prompt(other) == before.prompt(
            other,
        )
    }

    /// The settings before any prompt is read.
    pub fn new() -> (r: SettingsWindow)
        ensures
            r.wf(),
            forall|mode: SendMode|
                (#[trigger] r.prompt(mode)).text@.len() == 0 && r.prompt(mode).error is None,
    {
        let prompts: Vec<PromptEditor> = vec![
            empty(SendMode::Code),
            empty(SendMode::Both),
            empty(SendMode::Spec),
            empty(SendMode::Ask),
        ];
        SettingsWindow { prompts }
    }

    fn put(&mut self, prompt: PromptEditor)
        requires
            old(self).wf(),
        ensures
            final(self).wf(),
            final(self).prompt(prompt.mode) == prompt,
            final(self).changed_only(*old(self), prompt.mode),
    {
        let at = place_of(prompt.mode);
        self.prompts.set(at, prompt);
    }

    /// Fills in a mode's prompt with what was read of it, in the open project
    /// if there is one. Returns whether its editor doesn't show it already, so
    /// that the cursor of one that does stays put.
    pub fn load(&mut self, mode: SendMode, read: Option<Result<String, String>>) -> (changed: bool)
        requires
            old(self).wf(),
        ensures
            final(self).wf(),
            final(self).changed_only(*old(self), mode),
            changed == (final(self).prompt(mode).text@ != old(self).prompt(mode).text@),
            match read {
                Some(Ok(text)) => final(self).prompt(mode).text@ == text@ && final(self).prompt(
                    mode,
                ).error is None,
                Some(Err(why)) => final(self).prompt(mode).text@.len() == 0 && final(self).prompt(
                    mode,
                ).error == Some(why),
                None => final(self).prompt(mode).text@.len() == 0 && final(self).prompt(
                    mode,
                ).error is None,
            },
    {
        let (text, error) = match read {
            Some(Ok(text)) => (text, None),
            Some(Err(why)) => (String::new(), Some(why)),
            None => (String::new(), None),
        };
        let changed = !same(&text, &self.prompts[place_of(mode)].text);
        self.put(PromptEditor { mode, text, error });
        changed
    }

    /// A mode's prompt was edited. Returns whether it is to be saved: when a
    /// project is open.
    pub fn edit(&mut self, mode: SendMode, text: String, project: bool) -> (save: bool)
        requires
            old(self).wf(),
        ensures
            final(self).wf(),
            final(self).changed_only(*old(self), mode),
            final(self).prompt(mode).text@ == text@,
            final(self).prompt(mode).error == old(self).prompt(mode).error,
            save == project,
    {
        let at = place_of(mode);
        let error = match &self.prompts[at].error {
            Some(why) => Some(why.clone()),
            None => None,
        };
        self.put(PromptEditor { mode, text, error });
        project
    }

    /// A mode's prompt was saved, or why it couldn't be.
    pub fn saved(&mut self, mode: SendMode, problem: Option<String>)
        requires
            old(self).wf(),
        ensures
            final(self).wf(),
            final(self).changed_only(*old(self), mode),
            final(self).prompt(mode).text@ == old(self).prompt(mode).text@,
            final(self).prompt(mode).error == problem,
    {
        let text = self.prompts[place_of(mode)].text.clone();
        self.put(PromptEditor { mode, text, error: problem });
    }

    /// Puts a mode's default prompt back. Returns whether it is to be saved:
    /// when a project is open.
    pub fn reset(&mut self, mode: SendMode, defaults: &Defaults, project: bool) -> (save: bool)
        requires
            old(self).wf(),
        ensures
            final(self).wf(),
            final(self).changed_only(*old(self), mode),
            final(self).prompt(mode).text@ == trim_end(defaults.text(Prompt::Mode(mode))),
            final(self).prompt(mode).error == old(self).prompt(mode).error,
            save == project,
    {
        self.edit(mode, default_prompt(Prompt::Mode(mode), defaults), project)
    }

    /// Whether a mode's prompt is its default, so that there is nothing to put
    /// back.
    pub fn is_default(&self, mode: SendMode, defaults: &Defaults) -> (b: bool)
        requires
            self.wf(),
        ensures
            b == (self.prompt(mode).text@ == trim_end(defaults.text(Prompt::Mode(mode)))),
    {
        same(
            &self.prompts[place_of(mode)].text,
            &default_prompt(Prompt::Mode(mode), defaults),
        )
    }
}

/// Where a mode's prompt is said to be saved.
pub fn file_label(mode: SendMode) -> (r: String)
    ensures
        r@ == concat(seq![".suspense/system-prompts/"@, mode.key_text(), ".md"@]),
{
    let parts: Vec<&str> = vec![".suspense/system-prompts/", mode.key(), ".md"];
    proof {
        assert(views(parts@) =~= seq![".suspense/system-prompts/"@, mode.key_text(), ".md"@]);
    }
    concat_of(parts)
}

/// The name of the button that puts a mode's default prompt back.
pub fn reset_id(mode: SendMode) -> (r: String)
    ensures
        r@ == concat(seq!["reset-"@, mode.key_text(), "-system-prompt"@]),
{
    let parts: Vec<&str> = vec!["reset-", mode.key(), "-system-prompt"];
    proof {
        assert(views(parts@) =~= seq!["reset-"@, mode.key_text(), "-system-prompt"@]);
    }
    concat_of(parts)
}

/// What the settings say of the system prompts.
pub fn intro() -> (r: String)
    ensures
        r@ == concat(
            seq![
                "Each tab gives a prompt sent from it this system prompt. They are saved with the project as they are edited. "@,
                CODE_LOCATION@,
                " and "@,
                SPEC_LOCATION@,
                " stand for codeRoot and root in piton.config.pi."@,
            ],
        ),
{
    let parts: Vec<&str> = vec![
        "Each tab gives a prompt sent from it this system prompt. They are saved with the project as they are edited. ",
        CODE_LOCATION,
        " and ",
        SPEC_LOCATION,
        " stand for codeRoot and root in piton.config.pi.",
    ];
    proof {
        assert(views(parts@) =~= seq![
            "Each tab gives a prompt sent from it this system prompt. They are saved with the project as they are edited. "@,
            CODE_LOCATION@,
            " and "@,
            SPEC_LOCATION@,
            " stand for codeRoot and root in piton.config.pi."@,
        ]);
    }
    concat_of(parts)
}

} // verus!
