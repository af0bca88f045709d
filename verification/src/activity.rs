//! What is running, as the jobs shown for it.
use vstd::prelude::*;
use crate::paths::{file_name, file_name_of, is_same_path, same_path, text_of};
use crate::prompt_mode::{activity_views, all_busy, questions_running, task_running, ActivityView,
    PromptMode};
use crate::text::{concat, concat_of, views};

verus! {

/// What a job is.
#[derive(Clone, Copy, Debug, PartialEq, Eq, Structural)]
pub enum JobKind {
    Task,
    Question(usize),
}

/// Something running.
pub struct Job {
    pub kind: JobKind,
    pub title: String,
    pub detail: Option<String>,
    /// The project it runs in, when that isn't the one on screen.
    pub project: Option<String>,
}

#[verifier::ext_equal]
pub struct JobView {
    pub kind: JobKind,
    pub title: Seq<char>,
    pub detail: Option<Seq<char>>,
    pub project: Option<Seq<char>>,
}

impl View for Job {
    type V = JobView;

    open spec fn view(&self) -> JobView {
        JobView {
            kind: self.kind,
            title: self.title@,
            detail: text_of(self.detail),
            project: text_of(self.project),
        }
    }
}

pub open spec fn job_views(v: Seq<Job>) -> Seq<JobView> {
    v.map_values(|j: Job| j@)
}

/// What a project is called: its folder's name.
pub open spec fn name_of_project(dir: Seq<char>) -> Seq<char> {
    match file_name(dir) {
        Some(name) => name,
        None => dir,
    }
}

pub open spec fn title_for(title: Seq<char>, project: Option<Seq<char>>) -> Seq<char> {
    match project {
        Some(dir) => concat(seq![title, " · "@, name_of_project(dir)]),
        None => title,
    }
}

/// What a project is called.
pub fn project_name(dir: &str) -> (r: String)
    ensures
        r@ == name_of_project(dir@),
{
    match file_name_of(dir) {
        Some(name) => name,
        None => dir.to_owned(),
    }
}

/// A job's title, with the name of the project it runs in, when that is to be
/// told.
pub fn title_in(title: &str, project: Option<&str>) -> (r: String)
    ensures
        r@ == title_for(
            title@,
            match project {
                Some(dir) => Some(dir@),
                None => None,
            },
        ),
{
    match project {
        Some(dir) => {
            let name = project_name(dir);
            let parts: Vec<&str> = vec![title, " · ", &name];
            proof {
                assert(views(parts@) =~= seq![title@, " · "@, name@]);
            }
            concat_of(parts)
        },
        None => title.to_owned(),
    }
}

pub open spec fn task_jobs(task: Option<Seq<char>>, project: Option<Seq<char>>) -> Seq<JobView> {
    match task {
        Some(text) => seq![
            JobView {
                kind: JobKind::Task,
                title: title_for("Task"@, project),
                detail: Some(text),
                project,
            },
        ],
        None => seq![],
    }
}

pub open spec fn question_jobs(
    questions: Seq<(usize, Seq<char>)>,
    project: Option<Seq<char>>,
) -> Seq<JobView> {
    questions.map_values(
        |q: (usize, Seq<char>)|
            JobView {
                kind: JobKind::Question(q.0),
                title: title_for("Question"@, project),
                detail: Some(q.1),
                project,
            },
    )
}

/// The jobs of the projects that aren't the one on screen.
pub open spec fn other_jobs(busy: Seq<ActivityView>, screen: Option<Seq<char>>) -> Seq<JobView>
    decreases busy.len(),
{
    if busy.len() == 0 {
        seq![]
    } else {
        let before = other_jobs(busy.drop_last(), screen);
        let last = busy.last();
        if screen is Some && same_path(last.project_dir, screen->0) {
            before
        } else {
            before + task_jobs(last.task, Some(last.project_dir)) + question_jobs(
                last.questions,
                Some(last.project_dir),
            )
        }
    }
}

/// What is running: the task the harness is working on, then each question
/// still running, in the project on screen, then in each other open project,
/// headed with its name.
pub open spec fn jobs_of(mode: PromptMode) -> Seq<JobView> {
    task_jobs(task_running(mode.screen), None) + question_jobs(
        questions_running(mode.screen.asks@),
        None,
    ) + other_jobs(all_busy(mode), text_of(mode.screen.project_dir))
}

fn copy_of(s: Option<&str>) -> (r: Option<String>)
    ensures
        text_of(r) == (match s {
            Some(s) => Some(s@),
            None => None,
        }),
{
    match s {
        Some(s) => Some(s.to_owned()),
        None => None,
    }
}

fn push_jobs(
    jobs: &mut Vec<Job>,
    task: &Option<String>,
    questions: &Vec<(usize, String)>,
    project: Option<&str>,
)
    ensures
        job_views(final(jobs)@) == job_views(old(jobs)@) + task_jobs(
            text_of(*task),
            match project {
                Some(dir) => Some(dir@),
                None => None,
            },
        ) + question_jobs(
            crate::prompt_mode::question_views(questions@),
            match project {
                Some(dir) => Some(dir@),
                None => None,
            },
        ),
{
    let ghost dir = match project {
        Some(dir) => Some(dir@),
        None => None,
    };
    let ghost all = question_jobs(crate::prompt_mode::question_views(questions@), dir);
    if let Some(text) = task {
        let job = Job {
            kind: JobKind::Task,
            title: title_in("Task", project),
            detail: Some(text.clone()),
            project: copy_of(project),
        };
        jobs.push(job);
        proof {
            assert(job_views(jobs@) =~= job_views(old(jobs)@).push(job@));
        }
    }
    let ghost start = job_views(jobs@);
    let mut i: usize = 0;
    proof {
        assert(start =~= job_views(old(jobs)@) + task_jobs(text_of(*task), dir));
        assert(job_views(jobs@) =~= start + all.take(0));
    }
    while i < questions.len()
        invariant
            i <= questions@.len(),
            dir == (match project {
                Some(dir) => Some(dir@),
                None => None,
            }),
            all == question_jobs(crate::prompt_mode::question_views(questions@), dir),
            job_views(jobs@) == start + all.take(i as int),
        decreases questions@.len() - i,
    {
        let ghost before = job_views(jobs@);
        let job = Job {
            kind: JobKind::Question(questions[i].0),
            title: title_in("Question", project),
            detail: Some(questions[i].1.clone()),
            project: copy_of(project),
        };
        jobs.push(job);
        proof {
            assert(job_views(jobs@) =~= before.push(job@));
            assert(all[i as int] == job@);
            assert(start + all.take(i + 1) =~= before.push(job@));
        }
        i += 1;
    }
    proof {
        assert(all.take(all.len() as int) =~= all);
    }
}

impl PromptMode {
    /// What is running: the task the harness is working on, then each question
    /// still running, in the project on screen, then in each other open
    /// project, headed with its name.
    pub fn running_jobs(&self) -> (r: Vec<Job>)
        ensures
            job_views(r@) == jobs_of(*self),
    {
        let mut jobs: Vec<Job> = Vec::new();
        let task = crate::prompt_mode::running_task(&self.screen);
        let questions = crate::prompt_mode::running_questions(&self.screen.asks);
        push_jobs(&mut jobs, &task, &questions, None);
        let ghost own = job_views(jobs@);
        proof {
            assert(own =~= task_jobs(task_running(self.screen), None) + question_jobs(
                questions_running(self.screen.asks@),
                None,
            ));
        }
        let busy = self.busy_projects();
        let ghost all = activity_views(busy@);
        let ghost screen = text_of(self.screen.project_dir);
        let mut i: usize = 0;
        proof {
            assert(job_views(jobs@) =~= own + other_jobs(all.take(0), screen));
        }
        while i < busy.len()
            invariant
                i <= busy@.len(),
                all == activity_views(busy@),
                screen == text_of(self.screen.project_dir),
                job_views(jobs@) == own + other_jobs(all.take(i as int), screen),
            decreases busy@.len() - i,
        {
            let ghost before = other_jobs(all.take(i as int), screen);
            let other = &busy[i];
            let on_screen = match &self.screen.project_dir {
                Some(dir) => is_same_path(&other.project_dir, dir),
                None => false,
            };
            if !on_screen {
                push_jobs(&mut jobs, &other.task, &other.questions, Some(&other.project_dir));
            }
            i += 1;
            proof {
                assert(all.take(i as int).drop_last() =~= all.take(i - 1));
                assert(all.take(i as int).last() == busy@[i - 1]@);
                assert(job_views(jobs@) =~= own + other_jobs(all.take(i as int), screen));
            }
        }
        proof {
            assert(all.take(all.len() as int) =~= all);
        }
        jobs
    }
}

// ---------------------------------------------------------------------------
// What holds of what is running
// ---------------------------------------------------------------------------

proof fn lemma_questions_have(asks: Seq<crate::prompt_mode::Ask>, k: int)
    requires
        0 <= k < asks.len(),
        asks[k].task.status.active(),
    ensures
        questions_running(asks).contains(
            (asks[k].id, crate::prompt_mode::heading(asks[k].task.text@)),
        ),
    decreases asks.len(),
{
    let now = questions_running(asks);
    let own = (asks[k].id, crate::prompt_mode::heading(asks[k].task.text@));
    if k == asks.len() - 1 {
        assert(now[now.len() - 1] == own);
    } else {
        let rest = asks.drop_last();
        assert(rest[k] == asks[k]);
        lemma_questions_have(rest, k);
        let before = questions_running(rest);
        let j = choose|j: int| 0 <= j < before.len() && before[j] == own;
        assert(now[j] == own);
    }
}

proof fn lemma_questions_from(asks: Seq<crate::prompt_mode::Ask>, j: int) -> (k: int)
    requires
        0 <= j < questions_running(asks).len(),
    ensures
        0 <= k < asks.len(),
        asks[k].task.status.active(),
        questions_running(asks)[j].0 == asks[k].id,
    decreases asks.len(),
{
    let rest = asks.drop_last();
    let before = questions_running(rest);
    if j < before.len() {
        let k = lemma_questions_from(rest, j);
        assert(rest[k] == asks[k]);
        k
    } else {
        asks.len() - 1
    }
}

/// Every question under way in the project on screen is among what is running, and so
/// is its task while the harness is working on it.
pub proof fn what_is_under_way_is_listed(mode: PromptMode, k: int)
    ensures
        ({
            let jobs = jobs_of(mode);
            let tasks = mode.screen.tasks@;
            let asks = mode.screen.asks@;
            &&& mode.screen.working && tasks.len() > 0 && tasks.last().status.active()
                ==> jobs.len() > 0 && jobs[0].kind == JobKind::Task && jobs[0].project is None
            &&& 0 <= k < asks.len() && asks[k].task.status.active() ==> exists|j: int|
                0 <= j < jobs.len() && (#[trigger] jobs[j]).kind == JobKind::Question(asks[k].id)
                    && jobs[j].project is None
        }),
{
    let jobs = jobs_of(mode);
    let asks = mode.screen.asks@;
    let first = task_jobs(task_running(mode.screen), None);
    let questions = questions_running(asks);
    let listed = question_jobs(questions, None);
    let n = first.len() as int;
    if 0 <= k < asks.len() && asks[k].task.status.active() {
        lemma_questions_have(asks, k);
        let own = (asks[k].id, crate::prompt_mode::heading(asks[k].task.text@));
        let j = choose|j: int| 0 <= j < questions.len() && questions[j] == own;
        assert(listed[j].kind == JobKind::Question(asks[k].id));
        assert(jobs[n + j] == listed[j]);
    }
}

/// What is listed of the project on screen is under way there.
pub proof fn what_is_listed_is_under_way(mode: PromptMode, j: int)
    requires
        0 <= j < task_jobs(task_running(mode.screen), None).len() + questions_running(
            mode.screen.asks@,
        ).len(),
    ensures
        ({
            let job = jobs_of(mode)[j];
            &&& job.project is None
            &&& match job.kind {
                JobKind::Task => mode.screen.working && mode.screen.tasks@.len() > 0
                    && mode.screen.tasks@.last().status.active(),
                JobKind::Question(id) => exists|k: int|
                    0 <= k < mode.screen.asks@.len() && (#[trigger] mode.screen.asks@[k]).id == id
                        && mode.screen.asks@[k].task.status.active(),
            }
        }),
{
    let first = task_jobs(task_running(mode.screen), None);
    let questions = questions_running(mode.screen.asks@);
    let n = first.len() as int;
    if j >= n {
        let k = lemma_questions_from(mode.screen.asks@, j - n);
        assert(jobs_of(mode)[j] == question_jobs(questions, None)[j - n]);
        assert(mode.screen.asks@[k].id == questions[j - n].0);
    } else {
        assert(jobs_of(mode)[j] == first[j]);
    }
}

} // verus!
