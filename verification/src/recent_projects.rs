//! The projects opened most recently, newest first, and the folder a project
//! was last opened from. Every project opened is noted as it opens, and the
//! application opens the last one again when it starts.
use vstd::prelude::*;
use crate::listing::{Listing, ListingView};
use crate::paths::{is_same_path, join_path, joined_path, same_path, text_of};
use crate::text::views;

verus! {

/// How many recent projects are kept.
pub const MAX_RECENT: usize = 5;

/// The file that makes a folder a project.
pub const CONFIG_FILE_NAME: &'static str = "piton.config.pi";

/// What is saved.
pub struct RecentProjects {
    /// The projects' folders, newest first.
    pub projects: Vec<String>,
    /// The folder a project was last opened from, in the project browser.
    pub last_browsed: Option<String>,
}

#[verifier::ext_equal]
pub struct RecentView {
    pub projects: Seq<Seq<char>>,
    pub last_browsed: Option<Seq<char>>,
}

impl View for RecentProjects {
    type V = RecentView;

    open spec fn view(&self) -> RecentView {
        RecentView { projects: views(self.projects@), last_browsed: text_of(self.last_browsed) }
    }
}

/// The projects that aren't at `dir`.
pub open spec fn others(projects: Seq<Seq<char>>, dir: Seq<char>) -> Seq<Seq<char>>
    decreases projects.len(),
{
    if projects.len() == 0 {
        seq![]
    } else if same_path(projects.last(), dir) {
        others(projects.drop_last(), dir)
    } else {
        others(projects.drop_last(), dir).push(projects.last())
    }
}

/// The first few of some projects.
pub open spec fn newest(projects: Seq<Seq<char>>) -> Seq<Seq<char>> {
    if projects.len() > MAX_RECENT {
        projects.take(MAX_RECENT as int)
    } else {
        projects
    }
}

/// The projects once one is opened: it first, then the others, as many as are
/// kept.
pub open spec fn noted(projects: Seq<Seq<char>>, dir: Seq<char>) -> Seq<Seq<char>> {
    newest(seq![dir] + others(projects, dir))
}

/// Whether a project is still there to open: still holding its
/// piton.config.pi.
pub open spec fn can_open(dir: Seq<char>, listing: ListingView) -> bool {
    listing.files.contains(join_path(dir, CONFIG_FILE_NAME@))
}

pub open spec fn those_openable(projects: Seq<Seq<char>>, listing: ListingView) -> Seq<Seq<char>>
    decreases projects.len(),
{
    if projects.len() == 0 {
        seq![]
    } else if can_open(projects.last(), listing) {
        those_openable(projects.drop_last(), listing).push(projects.last())
    } else {
        those_openable(projects.drop_last(), listing)
    }
}

impl Default for RecentProjects {
    fn default() -> (r: RecentProjects)
        ensures
            r@ == (RecentView { projects: seq![], last_browsed: None }),
    {
        let r = RecentProjects { projects: Vec::new(), last_browsed: None };
        proof {
            assert(r@ =~= (RecentView { projects: seq![], last_browsed: None }));
        }
        r
    }
}

impl RecentProjects {
    /// Notes `dir` as opened just now.
    pub fn note(&mut self, dir: &str)
        ensures
            final(self)@ == (RecentView {
                projects: noted(old(self)@.projects, dir@),
                last_browsed: old(self)@.last_browsed,
            }),
    {
        let ghost all = views(self.projects@);
        let mut projects: Vec<String> = Vec::new();
        projects.push(dir.to_owned());
        let mut i: usize = 0;
        proof {
            assert(views(projects@) =~= seq![dir@] + others(all.take(0), dir@));
        }
        while i < self.projects.len()
            invariant
                i <= self.projects@.len(),
                all == views(self.projects@),
                *self == *old(self),
                views(projects@) == seq![dir@] + others(all.take(i as int), dir@),
            decreases self.projects@.len() - i,
        {
            let ghost before = views(projects@);
            proof {
                assert(all.take(i + 1).drop_last() =~= all.take(i as int));
                assert(all.take(i + 1).last() == self.projects@[i as int]@);
            }
            if !is_same_path(&self.projects[i], dir) {
                projects.push(self.projects[i].clone());
                proof {
                    assert(views(projects@) =~= before.push(all[i as int]));
                    assert(views(projects@) =~= seq![dir@] + others(all.take(i + 1), dir@));
                }
            }
            i += 1;
        }
        let ghost whole = views(projects@);
        projects.truncate(MAX_RECENT);
        proof {
            assert(all.take(all.len() as int) =~= all);
            assert(views(projects@) =~= newest(whole));
        }
        self.projects = projects;
    }

    /// Notes that a project was last opened from `dir`.
    pub fn set_last_browsed(&mut self, dir: &str)
        ensures
            final(self)@ == (RecentView {
                last_browsed: Some(dir@),
                projects: old(self)@.projects,
            }),
    {
        self.last_browsed = Some(dir.to_owned());
    }

    /// The recent projects still there to open: each still holding its
    /// piton.config.pi.
    pub fn openable(&self, listing: &Listing) -> (r: Vec<String>)
        ensures
            views(r@) == those_openable(self@.projects, listing@),
    {
        let ghost all = views(self.projects@);
        let mut r: Vec<String> = Vec::new();
        let mut i: usize = 0;
        proof {
            assert(views(r@) =~= those_openable(all.take(0), listing@));
        }
        while i < self.projects.len()
            invariant
                i <= self.projects@.len(),
                all == views(self.projects@),
                views(r@) == those_openable(all.take(i as int), listing@),
            decreases self.projects@.len() - i,
        {
            let ghost before = views(r@);
            proof {
                assert(all.take(i + 1).drop_last() =~= all.take(i as int));
                assert(all.take(i + 1).last() == self.projects@[i as int]@);
            }
            if listing.is_file(&joined_path(&self.projects[i], CONFIG_FILE_NAME)) {
                r.push(self.projects[i].clone());
                proof {
                    assert(views(r@) =~= before.push(all[i as int]));
                }
            }
            i += 1;
        }
        proof {
            assert(all.take(all.len() as int) =~= all);
        }
        r
    }
}

// ---------------------------------------------------------------------------
// What holds of the projects kept
// ---------------------------------------------------------------------------

/// Whether no project is listed twice.
pub open spec fn each_once(projects: Seq<Seq<char>>) -> bool {
    forall|i: int, j: int|
        0 <= i < j < projects.len() ==> !same_path(#[trigger] projects[i], #[trigger] projects[j])
}

proof fn lemma_others(projects: Seq<Seq<char>>, dir: Seq<char>)
    ensures
        forall|k: int|
            0 <= k < others(projects, dir).len() ==> !same_path(
                #[trigger] others(projects, dir)[k],
                dir,
            ),
        each_once(projects) ==> each_once(others(projects, dir)),
        forall|k: int|
            0 <= k < others(projects, dir).len() ==> projects.contains(
                #[trigger] others(projects, dir)[k],
            ),
    decreases projects.len(),
{
    if projects.len() > 0 {
        let rest = projects.drop_last();
        lemma_others(rest, dir);
        let before = others(rest, dir);
        let now = others(projects, dir);
        assert forall|k: int| 0 <= k < now.len() implies projects.contains(#[trigger] now[k]) by {
            if k < before.len() {
                assert(now[k] == before[k]);
                assert(rest.contains(before[k]));
                let j = choose|j: int| 0 <= j < rest.len() && rest[j] == before[k];
                assert(projects[j] == now[k]);
            } else {
                assert(projects[projects.len() - 1] == now[k]);
            }
        }
        assert forall|k: int| 0 <= k < now.len() implies !same_path(#[trigger] now[k], dir) by {
            if k < before.len() {
                assert(now[k] == before[k]);
            }
        }
        if each_once(projects) {
            assert(each_once(rest)) by {
                assert forall|i: int, j: int| 0 <= i < j < rest.len() implies !same_path(
                    #[trigger] rest[i],
                    #[trigger] rest[j],
                ) by {
                    assert(rest[i] == projects[i] && rest[j] == projects[j]);
                }
            }
            assert forall|i: int, j: int| 0 <= i < j < now.len() implies !same_path(
                #[trigger] now[i],
                #[trigger] now[j],
            ) by {
                if j < before.len() {
                    assert(now[i] == before[i] && now[j] == before[j]);
                } else {
                    assert(now[i] == before[i]);
                    assert(rest.contains(before[i]));
                    let k = choose|k: int| 0 <= k < rest.len() && rest[k] == before[i];
                    assert(projects[k] == now[i]);
                    assert(projects[projects.len() - 1] == now[j]);
                }
            }
        }
    }
}

/// Opening a project puts it first, and never lists one twice or more than are
/// kept.
pub proof fn a_project_opened_comes_first_and_once(projects: Seq<Seq<char>>, dir: Seq<char>)
    requires
        each_once(projects),
    ensures
        noted(projects, dir).len() > 0,
        noted(projects, dir)[0] == dir,
        noted(projects, dir).len() <= MAX_RECENT,
        each_once(noted(projects, dir)),
{
    lemma_others(projects, dir);
    let rest = others(projects, dir);
    let all = seq![dir] + rest;
    assert forall|i: int, j: int| 0 <= i < j < all.len() implies !same_path(
        #[trigger] all[i],
        #[trigger] all[j],
    ) by {
        assert(all[j] == rest[j - 1]);
        if i > 0 {
            assert(all[i] == rest[i - 1]);
        } else {
            assert(!same_path(rest[j - 1], dir));
        }
    }
    let now = noted(projects, dir);
    assert forall|i: int, j: int| 0 <= i < j < now.len() implies !same_path(
        #[trigger] now[i],
        #[trigger] now[j],
    ) by {
        assert(now[i] == all[i] && now[j] == all[j]);
    }
}

proof fn lemma_others_keep(projects: Seq<Seq<char>>, dir: Seq<char>)
    requires
        forall|k: int| 0 <= k < projects.len() ==> !same_path(#[trigger] projects[k], dir),
    ensures
        others(projects, dir) == projects,
    decreases projects.len(),
{
    if projects.len() > 0 {
        let rest = projects.drop_last();
        assert forall|k: int| 0 <= k < rest.len() implies !same_path(#[trigger] rest[k], dir) by {
            assert(rest[k] == projects[k]);
        }
        lemma_others_keep(rest, dir);
        assert(!same_path(projects[projects.len() - 1], dir));
        assert(rest.push(projects.last()) =~= projects);
    } else {
        assert(others(projects, dir) =~= projects);
    }
}

proof fn lemma_others_drop_first(projects: Seq<Seq<char>>, dir: Seq<char>)
    requires
        projects.len() > 0,
        projects[0] == dir,
    ensures
        others(projects, dir) == others(projects.skip(1), dir),
    decreases projects.len(),
{
    if projects.len() == 1 {
        assert(projects.drop_last() =~= projects.skip(1));
    } else {
        lemma_others_drop_first(projects.drop_last(), dir);
        assert(projects.drop_last().skip(1) =~= projects.skip(1).drop_last());
    }
}

/// Opening the project that was opened last changes nothing.
pub proof fn opening_a_project_again_changes_nothing(projects: Seq<Seq<char>>, dir: Seq<char>)
    ensures
        noted(noted(projects, dir), dir) == noted(projects, dir),
{
    let rest = others(projects, dir);
    let now = noted(projects, dir);
    lemma_others(projects, dir);
    lemma_others_drop_first(now, dir);
    let after = now.skip(1);
    assert forall|k: int| 0 <= k < after.len() implies !same_path(#[trigger] after[k], dir) by {
        assert(after[k] == rest[k]);
    }
    lemma_others_keep(after, dir);
    assert(seq![dir] + after =~= now);
}

/// The projects opened before keep their order after the one just opened, which is no
/// longer among them, as many as are kept.
pub proof fn the_others_keep_their_order(projects: Seq<Seq<char>>, dir: Seq<char>)
    ensures
        ({
            let all = seq![dir] + projects.filter(|p: Seq<char>| !same_path(p, dir));
            let now = noted(projects, dir);
            &&& now == all.take(now.len() as int)
            &&& now.len() == if all.len() < 5 {
                all.len() as int
            } else {
                5int
            }
        }),
{
    lemma_others_filtered(projects, dir);
    let all = seq![dir] + others(projects, dir);
    assert(all.take(all.len() as int) =~= all);
}

proof fn lemma_others_filtered(projects: Seq<Seq<char>>, dir: Seq<char>)
    ensures
        others(projects, dir) == projects.filter(|p: Seq<char>| !same_path(p, dir)),
    decreases projects.len(),
{
    reveal(Seq::filter);
    if projects.len() > 0 {
        lemma_others_filtered(projects.drop_last(), dir);
    } else {
        assert(others(projects, dir) =~= projects.filter(|p: Seq<char>| !same_path(p, dir)));
    }
}

/// The projects there to open are those that still hold a piton.config.pi, in order.
pub proof fn only_projects_with_a_config_can_be_opened(
    projects: Seq<Seq<char>>,
    listing: ListingView,
)
    ensures
        those_openable(projects, listing) == projects.filter(
            |p: Seq<char>| listing.files.contains(join_path(p, "piton.config.pi"@)),
        ),
    decreases projects.len(),
{
    reveal(Seq::filter);
    let keeps = |p: Seq<char>| listing.files.contains(join_path(p, "piton.config.pi"@));
    if projects.len() > 0 {
        only_projects_with_a_config_can_be_opened(projects.drop_last(), listing);
    } else {
        assert(those_openable(projects, listing) =~= projects.filter(keeps));
    }
}

} // verus!
