//! The form that creates a scope, a concept, or a shape, shown in the inset
//! panel: the component's own fields, a description, and along the bottom
//! Cancel, a skill to run, Run Skill, and Create.
use vstd::prelude::*;
use crate::listing::Listing;
use crate::paths::{components, components_of, join_path, joined_path, render, rendered, text_of,
    within, is_within};
use crate::prompt_queue::{insert, insert_sorted, lemma_insert_sorted, sorted};
use crate::spec_components::{declared, declared_names, default_folder, folder_for, folder_problem,
    full_name, index_in, name_problem, named, pair_views, problem_with_folder, problem_with_name,
    ComponentKind, Request, RequestView, SCOPE_KEYWORDS};
use crate::text::{all_white, chars_of, concat, concat_of, is_all_white, lemma_trim_empty,
    lemma_trim_ends, lemma_trim_fixed, lines, replace, replaced, same, string_of, trim, trimmed, views};

verus! {

/// What a concept's Shape dropdown offers for no shape.
pub const NO_SHAPE: &'static str = "None";

/// The form as filled in.
pub struct SpecComponentForm {
    pub kind: ComponentKind,
    /// The spec location's folder.
    pub spec_dir: String,
    /// The name as typed.
    pub name: String,
    /// A scope's keyword.
    pub keyword: Option<String>,
    /// A scope's folder, following the name until it is edited.
    pub folder: String,
    pub folder_edited: bool,
    /// The spec files, relative to the spec location.
    pub files: Vec<String>,
    /// The spec file a concept or shape goes in.
    pub file: Option<String>,
    /// The keywords and names declared in the chosen file.
    pub declared: Vec<(String, String)>,
    /// A concept's shape, as the dropdown offers it.
    pub shape: String,
    pub description: String,
    /// The harness's skills, sorted.
    pub skills: Vec<String>,
    pub skill: Option<String>,
    pub creating: bool,
    pub error: Option<String>,
}

/// A path within a folder, relative to it, with its parts between `/`.
pub open spec fn relative_in(path: Seq<char>, dir: Seq<char>) -> Seq<char> {
    replace(
        render(components(path).skip(components(dir).len() as int)),
        "\\"@,
        "/"@,
    )
}

/// The spec file that the open file is, if it is one.
pub open spec fn file_open(
    open_file: Option<Seq<char>>,
    spec_dir: Seq<char>,
    files: Seq<Seq<char>>,
) -> Option<Seq<char>> {
    match open_file {
        Some(file) => if within(file, spec_dir) && files.contains(relative_in(file, spec_dir)) {
            Some(relative_in(file, spec_dir))
        } else {
            None
        },
        None => None,
    }
}

/// The names of the shapes among what is declared.
pub open spec fn shapes_among(declared: Seq<(Seq<char>, Seq<char>)>) -> Seq<Seq<char>>
    decreases declared.len(),
{
    if declared.len() == 0 {
        seq![]
    } else if declared.last().0 == "shape"@ {
        shapes_among(declared.drop_last()).push(declared.last().1)
    } else {
        shapes_among(declared.drop_last())
    }
}

/// Names in order, each put before those that come after it.
pub open spec fn sort(names: Seq<Seq<char>>) -> Seq<Seq<char>>
    decreases names.len(),
{
    if names.len() == 0 {
        seq![]
    } else {
        insert_sorted(sort(names.drop_last()), names.last())
    }
}

/// Whether a name is among what is declared.
pub open spec fn declares(declared: Seq<(Seq<char>, Seq<char>)>, name: Seq<char>) -> bool {
    exists|k: int| 0 <= k < declared.len() && (#[trigger] declared[k]).1 == name
}

/// The first of two problems.
pub open spec fn or(first: Option<Seq<char>>, second: Option<Seq<char>>) -> Option<Seq<char>> {
    if first is Some {
        first
    } else {
        second
    }
}

fn relative_path(path: &str, dir: &str) -> (r: String)
    requires
        within(path@, dir@),
    ensures
        r@ == relative_in(path@, dir@),
{
    let all = components_of(&chars_of(path));
    let mut i: usize = components_of(&chars_of(dir)).len();
    let ghost start = i as int;
    let mut rest: Vec<Vec<char>> = Vec::new();
    proof {
        assert(views(all@).len() == all@.len());
        assert(components(dir@).len() == i);
        assert(components(dir@).len() <= components(path@).len());
        assert(views(rest@) =~= components(path@).subrange(start, i as int));
    }
    while i < all.len()
        invariant
            0 <= start <= i <= all@.len(),
            views(all@) == components(path@),
            views(rest@) == components(path@).subrange(start, i as int),
        decreases all@.len() - i,
    {
        let ghost before = views(rest@);
        let part = crate::text::piece(&all[i], 0, all[i].len());
        proof {
            assert(part@ =~= all@[i as int]@);
            assert(views(all@)[i as int] == part@);
        }
        rest.push(part);
        proof {
            assert(views(rest@) =~= before.push(part@));
            assert(components(path@).subrange(start, i + 1) =~= components(path@).subrange(
                start,
                i as int,
            ).push(part@));
        }
        i += 1;
    }
    proof {
        assert(components(path@).subrange(start, all@.len() as int) =~= components(path@).skip(
            start,
        ));
        reveal_strlit("\\");
    }
    string_of(&replaced(&rendered(rest), &chars_of("\\"), &chars_of("/")))
}

fn is_listed(file: &str, files: &Vec<String>) -> (b: bool)
    ensures
        b == views(files@).contains(file@),
{
    let mut i: usize = 0;
    while i < files.len()
        invariant
            i <= files@.len(),
            forall|k: int| 0 <= k < i ==> (#[trigger] files@[k])@ != file@,
        decreases files@.len() - i,
    {
        if same(&files[i], file) {
            proof {
                assert(views(files@)[i as int] == file@);
            }
            return true;
        }
        i += 1;
    }
    proof {
        if views(files@).contains(file@) {
            let k = choose|k: int| 0 <= k < views(files@).len() && views(files@)[k] == file@;
            assert(files@[k]@ == file@);
        }
    }
    false
}

impl SpecComponentForm {
    /// A form for `kind` in the project at `project_dir`, whose spec location
    /// and spec files were `found`, starting on `open_file` when it is a spec
    /// file.
    pub fn new(
        kind: ComponentKind,
        project_dir: &str,
        found: Option<(String, Vec<String>)>,
        open_file: Option<&str>,
    ) -> (r: SpecComponentForm)
        ensures
            r.kind == kind,
            r.spec_dir@ == (match found {
                Some(found) => found.0@,
                None => join_path(project_dir@, "spec"@),
            }),
            views(r.files@) == (match found {
                Some(found) => views(found.1@),
                None => seq![],
            }),
            text_of(r.file) == file_open(
                match open_file {
                    Some(file) => Some(file@),
                    None => None,
                },
                r.spec_dir@,
                views(r.files@),
            ),
            r.name@.len() == 0 && r.folder@.len() == 0 && r.description@.len() == 0,
            r.keyword is Some && r.keyword->0@ == "scope"@,
            r.shape@ == NO_SHAPE@,
            !r.folder_edited && !r.creating,
            r.declared@.len() == 0 && r.skills@.len() == 0,
            r.skill is None && r.error is None,
    {
        let (spec_dir, files) = match found {
            Some(found) => found,
            None => {
                let files: Vec<String> = Vec::new();
                proof {
                    assert(views(files@) =~= seq![]);
                }
                (joined_path(project_dir, "spec"), files)
            },
        };
        let file = match open_file {
            Some(open) => if is_within(open, &spec_dir) {
                let file = relative_path(open, &spec_dir);
                if is_listed(&file, &files) {
                    Some(file)
                } else {
                    None
                }
            } else {
                None
            },
            None => None,
        };
        SpecComponentForm {
            kind,
            spec_dir,
            name: String::new(),
            keyword: Some(SCOPE_KEYWORDS[0].to_owned()),
            folder: String::new(),
            folder_edited: false,
            files,
            file,
            declared: Vec::new(),
            shape: NO_SHAPE.to_owned(),
            description: String::new(),
            skills: Vec::new(),
            skill: None,
            creating: false,
            error: None,
        }
    }

    /// What the name's field holds while it is empty.
    pub fn name_placeholder(&self) -> (r: &'static str)
        ensures
            r@ == (match self.kind {
                ComponentKind::Scope => "ParserScope"@,
                ComponentKind::Concept => "ParserConcept"@,
                ComponentKind::Shape => "ParserShape"@,
            }),
    {
        match self.kind {
            ComponentKind::Scope => "ParserScope",
            ComponentKind::Concept => "ParserConcept",
            ComponentKind::Shape => "ParserShape",
        }
    }

    pub open spec fn keyword_chosen(self) -> Seq<char> {
        match self.keyword {
            Some(keyword) => keyword@,
            None => "scope"@,
        }
    }

    fn keyword_value(&self) -> (r: String)
        ensures
            r@ == self.keyword_chosen(),
    {
        match &self.keyword {
            Some(keyword) => keyword.clone(),
            None => SCOPE_KEYWORDS[0].to_owned(),
        }
    }

    /// The folder that goes with the name and keyword, until it is edited.
    pub open spec fn folder_following(self) -> Seq<char> {
        if self.kind != ComponentKind::Scope || self.folder_edited {
            self.folder@
        } else {
            folder_for(named(self.name@, self.kind), self.keyword_chosen())
        }
    }

    /// Fills in the folder from the name and keyword, until it is edited.
    fn follow_name(&mut self)
        ensures
            final(self).folder@ == old(self).folder_following(),
            *final(self) == (SpecComponentForm { folder: final(self).folder, ..*old(self) }),
    {
        if self.kind != ComponentKind::Scope || self.folder_edited {
            return;
        }
        self.folder = default_folder(&full_name(&self.name, self.kind), &self.keyword_value());
    }

    /// The name was typed.
    pub fn name_changed(&mut self, name: String)
        ensures
            ({
                let named = SpecComponentForm { name, error: None, ..*old(self) };
                &&& final(self).folder@ == named.folder_following()
                &&& *final(self) == (SpecComponentForm { folder: final(self).folder, ..named })
            }),
    {
        self.name = name;
        self.error = None;
        self.follow_name();
    }

    /// The keyword was chosen.
    pub fn keyword_changed(&mut self, keyword: Option<String>)
        ensures
            ({
                let chosen = SpecComponentForm { keyword, ..*old(self) };
                &&& final(self).folder@ == chosen.folder_following()
                &&& *final(self) == (SpecComponentForm { folder: final(self).folder, ..chosen })
            }),
    {
        self.keyword = keyword;
        self.follow_name();
    }

    /// The folder was edited, so it no longer follows the name.
    pub fn folder_changed(&mut self, folder: String)
        ensures
            *final(self) == (SpecComponentForm {
                folder,
                folder_edited: true,
                error: None,
                ..*old(self)
            }),
    {
        self.folder = folder;
        self.folder_edited = true;
        self.error = None;
    }

    /// The file to read for what it declares.
    pub fn file_to_read(&self) -> (r: Option<String>)
        ensures
            text_of(r) == (match self.file {
                Some(file) => Some(join_path(self.spec_dir@, file@)),
                None => None,
            }),
    {
        match &self.file {
            Some(file) => Some(joined_path(&self.spec_dir, file)),
            None => None,
        }
    }

    /// A file was chosen, `text` being what it holds if it could be read: its
    /// shapes are offered.
    pub fn file_chosen(&mut self, file: Option<String>, text: Option<&str>)
        ensures
            pair_views(final(self).declared@) == (match (file, text) {
                (Some(_), Some(text)) => declared(lines(text@)),
                _ => seq![],
            }),
            final(self).shape@ == NO_SHAPE@,
            *final(self) == (SpecComponentForm {
                file,
                declared: final(self).declared,
                shape: final(self).shape,
                ..*old(self)
            }),
    {
        let declared = match (&file, text) {
            (Some(_), Some(text)) => declared_names(text),
            _ => {
                let none: Vec<(String, String)> = Vec::new();
                proof {
                    assert(pair_views(none@) =~= seq![]);
                }
                none
            },
        };
        self.file = file;
        self.declared = declared;
        self.shape = NO_SHAPE.to_owned();
    }

    /// What the Shape dropdown offers: no shape, and the shapes the chosen file
    /// declares.
    pub fn shapes_offered(&self) -> (r: Vec<String>)
        ensures
            views(r@) == seq![NO_SHAPE@] + shapes_among(pair_views(self.declared@)),
    {
        let ghost all = pair_views(self.declared@);
        let mut r: Vec<String> = Vec::new();
        r.push(NO_SHAPE.to_owned());
        let mut i: usize = 0;
        proof {
            assert(views(r@) =~= seq![NO_SHAPE@] + shapes_among(all.take(0)));
        }
        while i < self.declared.len()
            invariant
                i <= self.declared@.len(),
                all == pair_views(self.declared@),
                views(r@) == seq![NO_SHAPE@] + shapes_among(all.take(i as int)),
            decreases self.declared@.len() - i,
        {
            let ghost before = views(r@);
            proof {
                assert(all.take(i + 1).drop_last() =~= all.take(i as int));
                assert(all.take(i + 1).last() == all[i as int]);
            }
            if same(&self.declared[i].0, "shape") {
                r.push(self.declared[i].1.clone());
                proof {
                    assert(views(r@) =~= before.push(all[i as int].1));
                    assert(views(r@) =~= seq![NO_SHAPE@] + shapes_among(all.take(i + 1)));
                }
            }
            i += 1;
        }
        proof {
            assert(all.take(all.len() as int) =~= all);
        }
        r
    }

    /// The harness's skills were found: they are offered sorted, with none
    /// chosen.
    pub fn skills_found(&mut self, names: &Vec<String>)
        ensures
            views(final(self).skills@) == sort(views(names@)),
            *final(self) == (SpecComponentForm {
                skills: final(self).skills,
                skill: None,
                ..*old(self)
            }),
    {
        let ghost all = views(names@);
        let mut found: Vec<Vec<char>> = Vec::new();
        let mut i: usize = 0;
        proof {
            assert(views(found@) =~= sort(all.take(0)));
        }
        while i < names.len()
            invariant
                i <= names@.len(),
                all == views(names@),
                views(found@) == sort(all.take(i as int)),
            decreases names@.len() - i,
        {
            proof {
                assert(all.take(i + 1).drop_last() =~= all.take(i as int));
                assert(all.take(i + 1).last() == names@[i as int]@);
            }
            insert(&mut found, chars_of(&names[i]));
            i += 1;
        }
        proof {
            assert(all.take(all.len() as int) =~= all);
        }
        let mut skills: Vec<String> = Vec::new();
        let mut k: usize = 0;
        while k < found.len()
            invariant
                k <= found@.len(),
                views(skills@) == views(found@).take(k as int),
            decreases found@.len() - k,
        {
            let ghost before = views(skills@);
            skills.push(string_of(&found[k]));
            proof {
                assert(views(skills@) =~= before.push(found@[k as int]@));
                assert(views(found@).take(k + 1) =~= views(found@).take(k as int).push(
                    found@[k as int]@,
                ));
            }
            k += 1;
        }
        proof {
            assert(views(found@).take(found@.len() as int) =~= views(found@));
        }
        self.skills = skills;
        self.skill = None;
    }

    pub open spec fn requested(self) -> RequestView {
        RequestView {
            kind: self.kind,
            name: named(self.name@, self.kind),
            keyword: self.keyword_chosen(),
            folder: trim(self.folder@),
            file: match self.file {
                Some(file) => file@,
                None => seq![],
            },
            shape: if self.shape@ == NO_SHAPE@ {
                None
            } else {
                Some(self.shape@)
            },
            description: self.description@,
        }
    }

    /// The form as filled in.
    pub fn request(&self) -> (r: Request)
        ensures
            r@ == self.requested(),
    {
        let file = match &self.file {
            Some(file) => file.clone(),
            None => String::new(),
        };
        let shape = if same(&self.shape, NO_SHAPE) {
            None
        } else {
            Some(self.shape.clone())
        };
        let r = Request {
            kind: self.kind,
            name: full_name(&self.name, self.kind),
            keyword: self.keyword_value(),
            folder: string_of(&trimmed(&chars_of(&self.folder))),
            file,
            shape,
            description: self.description.clone(),
        };
        proof {
            assert(r@ =~= self.requested());
        }
        r
    }

    /// Why the name can't be used yet.
    pub open spec fn name_trouble(self) -> Option<Seq<char>> {
        let name = named(self.name@, self.kind);
        if name.len() == 0 {
            Some("Give it a name"@)
        } else if problem_with_name(name) is Some {
            problem_with_name(name)
        } else if self.kind != ComponentKind::Scope && declares(
            pair_views(self.declared@),
            name,
        ) {
            Some(concat(seq![name, " is already declared in that file"@]))
        } else {
            None
        }
    }

    /// Why a scope's folder can't be used yet, by what there is of its
    /// index.pi.
    pub open spec fn folder_trouble(self, listing: Listing) -> Option<Seq<char>> {
        if self.kind == ComponentKind::Scope {
            let index = index_in(self.spec_dir@, self.folder@);
            problem_with_folder(
                self.folder@,
                listing@.files.contains(index) || listing@.folders.contains(index),
            )
        } else {
            None
        }
    }

    /// Why the fields can't be used yet, if they can't.
    pub open spec fn trouble(self, listing: Listing) -> Option<Seq<char>> {
        or(
            or(self.name_trouble(), self.folder_trouble(listing)),
            if self.kind != ComponentKind::Scope && self.file is None {
                Some("Choose the file it goes in"@)
            } else {
                None
            },
        )
    }

    pub open spec fn create_trouble(self, listing: Listing) -> Option<Seq<char>> {
        or(
            self.trouble(listing),
            if all_white(self.description@) {
                Some("Describe it"@)
            } else {
                None
            },
        )
    }

    pub open spec fn skill_trouble(self, listing: Listing) -> Option<Seq<char>> {
        or(
            self.trouble(listing),
            if self.skill is None {
                Some("Choose a skill to run"@)
            } else {
                None
            },
        )
    }

    fn is_declared(&self, name: &str) -> (b: bool)
        ensures
            b == declares(pair_views(self.declared@), name@),
    {
        let mut i: usize = 0;
        while i < self.declared.len()
            invariant
                i <= self.declared@.len(),
                forall|k: int| 0 <= k < i ==> (#[trigger] self.declared@[k]).1@ != name@,
            decreases self.declared@.len() - i,
        {
            if same(&self.declared[i].1, name) {
                proof {
                    assert(pair_views(self.declared@)[i as int].1 == name@);
                }
                return true;
            }
            i += 1;
        }
        proof {
            let all = pair_views(self.declared@);
            if declares(all, name@) {
                let k = choose|k: int| 0 <= k < all.len() && (#[trigger] all[k]).1 == name@;
                assert(self.declared@[k].1@ == name@);
            }
        }
        false
    }

    /// Why the name can't be used yet, if it can't.
    pub fn name_problem(&self) -> (r: Option<String>)
        ensures
            text_of(r) == self.name_trouble(),
    {
        let name = full_name(&self.name, self.kind);
        if name.as_str().is_empty() {
            return Some("Give it a name".to_owned());
        }
        if let Some(problem) = name_problem(&name) {
            return Some(problem.to_owned());
        }
        if self.kind != ComponentKind::Scope && self.is_declared(&name) {
            let parts: Vec<&str> = vec![&name, " is already declared in that file"];
            proof {
                assert(views(parts@) =~= seq![name@, " is already declared in that file"@]);
            }
            return Some(concat_of(parts));
        }
        None
    }

    /// Why a scope's folder can't be used yet, if it can't, `listing` being
    /// what there is of its index.pi.
    pub fn folder_problem(&self, listing: &Listing) -> (r: Option<String>)
        ensures
            text_of(r) == self.folder_trouble(*listing),
    {
        if self.kind != ComponentKind::Scope {
            return None;
        }
        match folder_problem(&self.spec_dir, &self.folder, listing) {
            Some(problem) => Some(problem.to_owned()),
            None => None,
        }
    }

    /// Why the fields can't be used yet, if they can't.
    pub fn problem(&self, listing: &Listing) -> (r: Option<String>)
        ensures
            text_of(r) == self.trouble(*listing),
    {
        if let Some(problem) = self.name_problem() {
            return Some(problem);
        }
        if let Some(problem) = self.folder_problem(listing) {
            return Some(problem);
        }
        if self.kind != ComponentKind::Scope && self.file.is_none() {
            return Some("Choose the file it goes in".to_owned());
        }
        None
    }

    /// Why Create can't run yet, if it can't.
    pub fn creating_problem(&self, listing: &Listing) -> (r: Option<String>)
        ensures
            text_of(r) == self.create_trouble(*listing),
    {
        if let Some(problem) = self.problem(listing) {
            return Some(problem);
        }
        if is_all_white(&chars_of(&self.description)) {
            return Some("Describe it".to_owned());
        }
        None
    }

    /// Why Run Skill can't run yet, if it can't.
    pub fn running_problem(&self, listing: &Listing) -> (r: Option<String>)
        ensures
            text_of(r) == self.skill_trouble(*listing),
    {
        if let Some(problem) = self.problem(listing) {
            return Some(problem);
        }
        if self.skill.is_none() {
            return Some("Choose a skill to run".to_owned());
        }
        None
    }

    /// Fills in the name and the description.
    pub fn fill(&mut self, name: &str, description: &str)
        ensures
            final(self).name@ == name@,
            final(self).description@ == description@,
            final(self).folder@ == (SpecComponentForm {
                name: final(self).name,
                ..*old(self)
            }).folder_following(),
            *final(self) == (SpecComponentForm {
                name: final(self).name,
                description: final(self).description,
                folder: final(self).folder,
                error: None,
                ..*old(self)
            }),
    {
        self.description = description.to_owned();
        self.name_changed(name.to_owned());
    }

    /// Starts to create the component, where it can be. Returns what is to be
    /// written.
    pub fn create(&mut self, listing: &Listing) -> (r: Option<Request>)
        ensures
            r is Some == (!old(self).creating && old(self).create_trouble(*listing) is None),
            r is Some ==> r->0@ == old(self).requested() && *final(self) == (SpecComponentForm {
                creating: true,
                error: None,
                ..*old(self)
            }),
            r is None ==> *final(self) == *old(self),
    {
        if self.creating || self.creating_problem(listing).is_some() {
            return None;
        }
        let request = self.request();
        self.creating = true;
        self.error = None;
        Some(request)
    }

    /// The component was written, or why it couldn't be. Returns the file
    /// written.
    pub fn created(&mut self, written: Result<String, String>) -> (r: Option<String>)
        ensures
            match written {
                Ok(file) => r == Some(file) && *final(self) == (SpecComponentForm {
                    creating: false,
                    ..*old(self)
                }),
                Err(why) => r is None && *final(self) == (SpecComponentForm {
                    creating: false,
                    error: Some(why),
                    ..*old(self)
                }),
            },
    {
        self.creating = false;
        match written {
            Ok(file) => Some(file),
            Err(why) => {
                self.error = Some(why);
                None
            },
        }
    }

    /// Hands the component to the chosen skill, where it can be. Returns the
    /// prompt to send.
    pub fn run_skill(&self, listing: &Listing) -> (r: Option<String>)
        ensures
            text_of(r) == (if self.skill_trouble(*listing) is None {
                Some(self.requested().prompt(self.skill->0@))
            } else {
                None
            }),
    {
        if self.running_problem(listing).is_some() {
            return None;
        }
        match &self.skill {
            Some(skill) => Some(self.request().skill_prompt(skill)),
            None => None,
        }
    }

    pub open spec fn typed(self) -> bool {
        !all_white(self.name@)
    }

    /// What is noted beneath the name: what it comes to, when that isn't what
    /// was typed.
    pub fn name_note(&self) -> (r: Option<String>)
        ensures
            text_of(r) == (if self.typed() && named(self.name@, self.kind) != trim(self.name@) {
                Some(named(self.name@, self.kind))
            } else {
                None
            }),
    {
        let typed = chars_of(&self.name);
        let name = full_name(&self.name, self.kind);
        if !is_all_white(&typed) && !same(&name, &string_of(&trimmed(&typed))) {
            Some(name)
        } else {
            None
        }
    }

    /// The problem shown beneath the name, once one was typed.
    pub fn name_problem_shown(&self) -> (r: Option<String>)
        ensures
            text_of(r) == (if self.typed() {
                self.name_trouble()
            } else {
                None
            }),
    {
        if is_all_white(&chars_of(&self.name)) {
            None
        } else {
            self.name_problem()
        }
    }

    /// What is noted beneath a scope's folder: what is written to it.
    pub fn folder_note(&self) -> (r: Option<String>)
        ensures
            text_of(r) == (if trim(self.folder@).len() == 0 {
                None
            } else {
                Some(concat(seq!["Writes "@, trim(self.folder@), "/index.pi"@]))
            }),
    {
        let folder = trimmed(&chars_of(&self.folder));
        if folder.len() == 0 {
            return None;
        }
        let folder = string_of(&folder);
        let parts: Vec<&str> = vec!["Writes ", &folder, "/index.pi"];
        proof {
            assert(views(parts@) =~= seq!["Writes "@, folder@, "/index.pi"@]);
        }
        Some(concat_of(parts))
    }

    /// The problem shown beneath a scope's folder, once a name was typed.
    pub fn folder_problem_shown(&self, listing: &Listing) -> (r: Option<String>)
        ensures
            text_of(r) == (if self.typed() {
                self.folder_trouble(*listing)
            } else {
                None
            }),
    {
        if is_all_white(&chars_of(&self.name)) {
            None
        } else {
            self.folder_problem(listing)
        }
    }

    /// What Create's tooltip says: why it can't run, or what it does.
    pub fn create_tooltip(&self, listing: &Listing) -> (r: String)
        ensures
            r@ == (match self.create_trouble(*listing) {
                Some(problem) => problem,
                None => "Write it into the spec and open it"@,
            }),
    {
        match self.creating_problem(listing) {
            Some(problem) => problem,
            None => "Write it into the spec and open it".to_owned(),
        }
    }

    /// What Run Skill's tooltip says: why it can't run, or what it does.
    pub fn skill_tooltip(&self, listing: &Listing) -> (r: String)
        ensures
            r@ == (match self.skill_trouble(*listing) {
                Some(problem) => problem,
                None => "Close and hand it to the skill to create"@,
            }),
    {
        match self.running_problem(listing) {
            Some(problem) => problem,
            None => "Close and hand it to the skill to create".to_owned(),
        }
    }
}

// ---------------------------------------------------------------------------
// What holds of the form
// ---------------------------------------------------------------------------

/// What the form lets be created writes without being refused, as long as what
/// its file declares is what was read.
pub proof fn what_can_be_created_can_be_written(
    form: SpecComponentForm,
    listing: Listing,
    existing: Seq<char>,
)
    requires
        form.create_trouble(listing) is None,
        form.kind != ComponentKind::Scope ==> pair_views(form.declared@) == declared(
            lines(existing),
        ),
    ensures
        form.kind == ComponentKind::Scope ==> problem_with_folder(
            form.requested().folder,
            listing@.files.contains(index_in(form.spec_dir@, form.requested().folder))
                || listing@.folders.contains(index_in(form.spec_dir@, form.requested().folder)),
        ) is None,
        form.kind != ComponentKind::Scope ==> !form.requested().declared_already(existing),
        problem_with_name(form.requested().name) is None,
{
    lemma_trim_ends(form.folder@);
    if trim(form.folder@).len() > 0 {
        lemma_trim_fixed(trim(form.folder@));
    } else {
        lemma_trim_empty(trim(form.folder@));
    }
    assert(trim(trim(form.folder@)) == trim(form.folder@));
}

/// The skills offered are those found, each as often, in order.
pub proof fn skills_are_offered_in_order(names: Seq<Seq<char>>)
    ensures
        sorted(sort(names)),
        sort(names).to_multiset() == names.to_multiset(),
    decreases names.len(),
{
    broadcast use vstd::seq_lib::group_to_multiset_ensures;

    if names.len() == 0 {
        assert(sort(names) =~= names);
    } else {
        skills_are_offered_in_order(names.drop_last());
        lemma_insert_sorted(sort(names.drop_last()), names.last());
        assert(names.drop_last().push(names.last()) =~= names);
    }
}

} // verus!
