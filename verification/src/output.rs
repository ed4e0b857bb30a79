//! Decoding one file to its target, as a conversation with whoever touches the
//! file system.
//!
//! A [`Job`] names the work that is next and is told how it went, until the
//! outcome is settled. The audio is written to a temporary file beside the
//! target first; only when it is complete does it become the target, and
//! without force it never takes the place of a file that is there.

use crate::cli::{Options, OptionsView};
use crate::text;
use vstd::prelude::*;

verus! {

/// How many names are tried for the temporary file.
pub const MAX_ATTEMPTS: u32 = 1000;

/// A piece of work outside.
#[derive(Clone, Copy, Debug, PartialEq, Eq, Structural)]
pub enum Work {
    /// Open the container.
    Open,
    /// Name the target: beside the source, or in the output directory.
    NameTarget { beside: bool },
    /// See whether the target is there.
    LookForTarget,
    /// Create the directory of the target.
    CreateParent,
    /// Create the temporary file; it must be new.
    CreateTemporary { attempt: u32 },
    /// Decode the audio into the temporary file.
    Decode,
    /// Flush the temporary file.
    Flush,
    /// Bring the temporary file to the disk.
    Sync,
    /// See whether a file is to be replaced.
    LookAgain,
    /// Remove the file that is to be replaced.
    RemoveTarget,
    /// Rename the temporary file to the target.
    Rename,
    /// Link the target to the temporary file; it must be new.
    Link,
    /// Remove the name of the temporary file.
    RemoveTemporary,
    /// Measure the target.
    Measure,
}

/// How a piece of work went.
pub enum Answer {
    /// It is done.
    Done,
    /// It failed, with the text of the error.
    Failed(String),
    /// It failed because the file is there already.
    Taken,
    /// The source has no file name to make a target from.
    NoName,
    /// The target has a name.
    Named { is_source: bool, has_parent: bool },
    /// Whether the file is there.
    Exists(bool),
    /// So many bytes.
    Count(u64),
}

/// How decoding a file ended.
pub enum Outcome {
    /// So many bytes were written.
    Written(u64),
    /// The container was only looked at.
    Info,
    /// The target is there already.
    Skipped,
    /// It failed, with the reason.
    Failed(String),
}

/// The values in an [`Answer`].
pub enum AnswerView {
    Done,
    Failed(Seq<char>),
    Taken,
    NoName,
    Named { is_source: bool, has_parent: bool },
    Exists(bool),
    Count(int),
}

/// The values in an [`Outcome`].
pub enum OutcomeView {
    Written(int),
    Info,
    Skipped,
    Failed(Seq<char>),
}

impl View for Answer {
    type V = AnswerView;

    open spec fn view(&self) -> AnswerView {
        match self {
            Answer::Done => AnswerView::Done,
            Answer::Failed(error) => AnswerView::Failed(error@),
            Answer::Taken => AnswerView::Taken,
            Answer::NoName => AnswerView::NoName,
            Answer::Named { is_source, has_parent } => AnswerView::Named {
                is_source: *is_source,
                has_parent: *has_parent,
            },
            Answer::Exists(there) => AnswerView::Exists(*there),
            Answer::Count(n) => AnswerView::Count(*n as int),
        }
    }
}

impl View for Outcome {
    type V = OutcomeView;

    open spec fn view(&self) -> OutcomeView {
        match self {
            Outcome::Written(n) => OutcomeView::Written(*n as int),
            Outcome::Info => OutcomeView::Info,
            Outcome::Skipped => OutcomeView::Skipped,
            Outcome::Failed(reason) => OutcomeView::Failed(reason@),
        }
    }
}

/// A file that is being decoded.
#[derive(Clone, Copy, Debug, PartialEq, Eq, Structural)]
pub struct Job {
    /// Whether the container is only looked at.
    pub info: bool,
    /// Whether a file in the place of the target is replaced.
    pub force: bool,
    /// Whether the target stands beside the source.
    pub beside: bool,
    /// Whether the target has a directory.
    pub has_parent: bool,
    /// How many bytes were decoded.
    pub bytes: u64,
    /// The work that is next.
    pub work: Work,
}

/// What follows an answer.
pub enum Next {
    /// More work.
    Do(Job),
    /// Nothing: the outcome is settled.
    Finished(Outcome),
}

/// The values in a [`Next`].
pub enum NextView {
    Do(Job),
    Finished(OutcomeView),
}

impl View for Next {
    type V = NextView;

    open spec fn view(&self) -> NextView {
        match self {
            Next::Do(job) => NextView::Do(*job),
            Next::Finished(outcome) => NextView::Finished(outcome@),
        }
    }
}

/// What is known of answers, outcomes and what follows is all that they hold.
pub proof fn law_nothing_is_left_out(answer: Answer, outcome: Outcome, next: Next)
    ensures
        match answer {
            Answer::Done => answer@ == AnswerView::Done,
            Answer::Failed(error) => answer@ == AnswerView::Failed(error@),
            Answer::Taken => answer@ == AnswerView::Taken,
            Answer::NoName => answer@ == AnswerView::NoName,
            Answer::Named { is_source, has_parent } => answer@ == (AnswerView::Named {
                is_source,
                has_parent,
            }),
            Answer::Exists(there) => answer@ == AnswerView::Exists(there),
            Answer::Count(n) => answer@ == AnswerView::Count(n as int),
        },
        match outcome {
            Outcome::Written(n) => outcome@ == OutcomeView::Written(n as int),
            Outcome::Info => outcome@ == OutcomeView::Info,
            Outcome::Skipped => outcome@ == OutcomeView::Skipped,
            Outcome::Failed(reason) => outcome@ == OutcomeView::Failed(reason@),
        },
        match next {
            Next::Do(job) => next@ == NextView::Do(job),
            Next::Finished(outcome) => next@ == NextView::Finished(outcome@),
        },
{
}

/// Whether an answer is one to the work that was named.
pub open spec fn fits(work: Work, answer: AnswerView) -> bool {
    match answer {
        AnswerView::Failed(_) => !(work is NameTarget || work is LookForTarget || work
            is LookAgain),
        AnswerView::Done => work is Open || work is CreateParent || work is CreateTemporary || work
            is Flush || work is Sync || work is RemoveTarget || work is Rename || work is Link
            || work is RemoveTemporary,
        AnswerView::Taken => work is CreateTemporary || work is Link,
        AnswerView::NoName => work is NameTarget,
        AnswerView::Named { .. } => work is NameTarget,
        AnswerView::Exists(_) => work is LookForTarget || work is LookAgain,
        AnswerView::Count(_) => work is Decode || work is Measure,
    }
}

/// What stands before the text of an error of some work.
pub open spec fn failure_prefix(work: Work) -> Seq<char> {
    match work {
        Work::CreateParent => "创建输出目录失败: "@,
        Work::CreateTemporary { .. } => "创建临时文件失败: "@,
        Work::Flush => "刷新临时文件失败: "@,
        Work::Sync => "同步临时文件失败: "@,
        Work::RemoveTarget => "移除旧目标文件失败: "@,
        Work::Rename => "提交目标文件失败: "@,
        Work::Link => "原子提交目标文件失败: "@,
        Work::RemoveTemporary => "清理临时文件链接失败: "@,
        Work::Measure => "读取输出文件信息失败: "@,
        _ => ""@,
    }
}

/// The reason for a target that is not as long as what was decoded.
pub open spec fn length_mismatch(expected: int, actual: int) -> Seq<char> {
    "输出长度校验失败：预期 "@ + text::decimal(expected as nat) + "，实际 "@ + text::decimal(
        actual as nat,
    )
}

/// A job with other work next.
pub open spec fn with_work(job: Job, work: Work) -> NextView {
    NextView::Do(Job { work, ..job })
}

/// A job that failed for a reason.
pub open spec fn failed(reason: Seq<char>) -> NextView {
    NextView::Finished(OutcomeView::Failed(reason))
}

/// What follows the answer to the work of a job.
pub open spec fn after(job: Job, answer: AnswerView) -> NextView {
    match answer {
        AnswerView::Failed(error) => failed(failure_prefix(job.work) + error),
        AnswerView::NoName => failed("源文件没有可用文件名"@),
        AnswerView::Named { is_source, has_parent } => if is_source {
            failed("目标路径与源文件相同"@)
        } else {
            NextView::Do(Job { has_parent, work: Work::LookForTarget, ..job })
        },
        AnswerView::Taken => match job.work {
            Work::CreateTemporary { attempt } => if attempt + 1 < MAX_ATTEMPTS {
                with_work(job, Work::CreateTemporary { attempt: (attempt + 1) as u32 })
            } else {
                failed("无法分配唯一的临时文件名"@)
            },
            _ => failed("提交时目标文件已被其他进程创建"@),
        },
        AnswerView::Exists(there) => if job.work is LookForTarget {
            if there && !job.force {
                NextView::Finished(OutcomeView::Skipped)
            } else if !job.has_parent {
                failed("目标路径没有父目录"@)
            } else {
                with_work(job, Work::CreateParent)
            }
        } else if there {
            with_work(job, Work::RemoveTarget)
        } else {
            with_work(job, Work::Rename)
        },
        AnswerView::Count(n) => if job.work is Decode {
            NextView::Do(Job { bytes: n as u64, work: Work::Flush, ..job })
        } else if n == job.bytes {
            NextView::Finished(OutcomeView::Written(n))
        } else {
            failed(length_mismatch(job.bytes as int, n))
        },
        AnswerView::Done => match job.work {
            Work::Open => if job.info {
                NextView::Finished(OutcomeView::Info)
            } else {
                with_work(job, Work::NameTarget { beside: job.beside })
            },
            Work::CreateParent => with_work(job, Work::CreateTemporary { attempt: 0 }),
            Work::CreateTemporary { .. } => with_work(job, Work::Decode),
            Work::Flush => with_work(job, Work::Sync),
            Work::Sync => with_work(
                job,
                if job.force {
                    Work::LookAgain
                } else {
                    Work::Link
                },
            ),
            Work::RemoveTarget => with_work(job, Work::Rename),
            Work::Rename => with_work(job, Work::Measure),
            Work::Link => with_work(job, Work::RemoveTemporary),
            _ => with_work(job, Work::Measure),
        },
    }
}

/// The job that options ask for, before any work. The target stands beside the
/// source exactly when no output directory is given.
pub open spec fn first_job(options: OptionsView) -> Job {
    Job {
        info: options.info,
        force: options.force,
        beside: options.output is None,
        has_parent: false,
        bytes: 0,
        work: Work::Open,
    }
}

/// Whether a job without force has come to nothing that replaces a file, a job
/// that only looks to nothing but looking, and the target to its place.
pub open spec fn is_sound(job: Job) -> bool {
    &&& !job.force ==> !(job.work is LookAgain || job.work is RemoveTarget || job.work is Rename)
    &&& job.info ==> job.work is Open
    &&& job.work matches Work::NameTarget { beside } ==> beside == job.beside
    &&& job.work matches Work::CreateTemporary { attempt } ==> attempt < MAX_ATTEMPTS
}

/// Every job stays sound: without force nothing is ever removed or renamed over
/// another file, for a mere look no work but opening is ever asked for, and the
/// target is named where the options say.
pub proof fn law_jobs_stay_sound(job: Job, answer: AnswerView, options: OptionsView)
    requires
        is_sound(job),
        fits(job.work, answer),
    ensures
        is_sound(first_job(options)),
        after(job, answer) matches NextView::Do(next) ==> {
            &&& is_sound(next)
            &&& next.force == job.force
            &&& next.info == job.info
            &&& next.beside == job.beside
        },
{
}

/// Without force, a target that is there is left alone: found at first the file
/// is skipped, found at the end the job fails.
pub proof fn law_existing_target_is_kept(job: Job)
    requires
        !job.force,
    ensures
        job.work is LookForTarget ==> after(job, AnswerView::Exists(true)) == NextView::Finished(
            OutcomeView::Skipped,
        ),
        job.work is Link ==> after(job, AnswerView::Taken) is Finished && after(
            job,
            AnswerView::Taken,
        )->Finished_0 is Failed,
{
}

/// A file counts as written only when the target is as long as what was decoded.
pub proof fn law_written_was_measured(job: Job, answer: AnswerView)
    requires
        fits(job.work, answer),
    ensures
        after(job, answer) matches NextView::Finished(OutcomeView::Written(n)) ==> job.work
            is Measure && answer == AnswerView::Count(n) && n == job.bytes,
{
}

/// The target appears only when its content is complete: the audio is decoded,
/// flushed and brought to the disk, in this order, before anything is linked or
/// renamed, and a file to be replaced is removed only then.
pub proof fn law_target_appears_complete(job: Job, answer: AnswerView)
    requires
        fits(job.work, answer),
        after(job, answer) is Do,
    ensures
        ({
            let work = after(job, answer)->Do_0.work;
            &&& work is Flush ==> job.work is Decode && answer is Count
            &&& work is Sync ==> job.work is Flush && answer is Done
            &&& work is Link || work is LookAgain ==> job.work is Sync && answer is Done
            &&& work is RemoveTarget ==> job.work is LookAgain
            &&& work is Rename ==> job.work is LookAgain || job.work is RemoveTarget && answer
                is Done
            &&& work is Measure ==> (job.work is Rename || job.work is RemoveTemporary) && answer
                is Done
        }),
{
}

/// What an answer makes of a job that is under way; what is settled stays.
pub open spec fn told(next: NextView, answer: AnswerView) -> NextView {
    match next {
        NextView::Do(job) => after(job, answer),
        NextView::Finished(_) => next,
    }
}

/// What comes of hearing `times` times that the file is there already.
pub open spec fn told_taken(next: NextView, times: nat) -> NextView
    decreases times,
{
    if times == 0 {
        next
    } else {
        told(told_taken(next, (times - 1) as nat), AnswerView::Taken)
    }
}

proof fn lemma_told_taken(job: Job, times: nat)
    requires
        job.work == (Work::CreateTemporary { attempt: 0 }),
        times <= 1000,
    ensures
        told_taken(NextView::Do(job), times) == (if times < 1000 {
            NextView::Do(Job { work: Work::CreateTemporary { attempt: times as u32 }, ..job })
        } else {
            NextView::Finished(OutcomeView::Failed("无法分配唯一的临时文件名"@))
        }),
    decreases times,
{
    if times > 0 {
        lemma_told_taken(job, (times - 1) as nat);
    }
}

/// A file whose audio is decoded to `decoded` bytes, and whose target then
/// measures `measured` bytes, ends as written exactly if these are the same
/// number; else the reason gives both. So it is for every number, with and
/// without force, whether or not a file is replaced, and however many names for
/// the temporary file are taken, up to a thousand.
#[verifier::rlimit(40)]
pub proof fn law_decoded_file_is_written(
    options: OptionsView,
    there: bool,
    taken: nat,
    replaces: bool,
    decoded: int,
    measured: int,
)
    requires
        !options.info,
        there ==> options.force,
        taken < 1000,
        0 <= decoded <= u64::MAX,
    ensures
        ({
            let named = told(
                told(NextView::Do(first_job(options)), AnswerView::Done),
                AnswerView::Named { is_source: false, has_parent: true },
            );
            let ready = told(told(named, AnswerView::Exists(there)), AnswerView::Done);
            let open = told(told_taken(ready, taken), AnswerView::Done);
            let synced = told(
                told(told(open, AnswerView::Count(decoded)), AnswerView::Done),
                AnswerView::Done,
            );
            let committed = if !options.force {
                told(told(synced, AnswerView::Done), AnswerView::Done)
            } else if replaces {
                told(
                    told(told(synced, AnswerView::Exists(true)), AnswerView::Done),
                    AnswerView::Done,
                )
            } else {
                told(told(synced, AnswerView::Exists(false)), AnswerView::Done)
            };
            told(committed, AnswerView::Count(measured)) == NextView::Finished(
                if measured == decoded {
                    OutcomeView::Written(decoded)
                } else {
                    OutcomeView::Failed(
                        "输出长度校验失败：预期 "@ + text::decimal(decoded as nat)
                            + "，实际 "@ + text::decimal(measured as nat),
                    )
                },
            )
        }),
{
    let named = told(
        told(NextView::Do(first_job(options)), AnswerView::Done),
        AnswerView::Named { is_source: false, has_parent: true },
    );
    let ready = told(told(named, AnswerView::Exists(there)), AnswerView::Done);
    lemma_told_taken(ready->Do_0, taken);
}

/// A job remembers the number of decoded bytes as it was answered, and no other
/// answer changes it; nor does any but the naming change whether the target has
/// a directory.
pub proof fn law_jobs_remember(job: Job, answer: AnswerView)
    requires
        fits(job.work, answer),
    ensures
        after(job, answer) matches NextView::Do(next) ==> {
            &&& job.work is Decode ==> (answer matches AnswerView::Count(n) && (0 <= n <= u64::MAX
                ==> next.bytes == n))
            &&& !(job.work is Decode) ==> next.bytes == job.bytes
            &&& answer matches AnswerView::Named { has_parent, .. } ==> next.has_parent
                == has_parent
            &&& !(answer is Named) ==> next.has_parent == job.has_parent
        },
{
}

/// Whether a job ends as failed with a reason.
pub open spec fn fails_with(job: Job, answer: AnswerView, reason: Seq<char>) -> bool {
    after(job, answer) == NextView::Finished(OutcomeView::Failed(reason))
}

/// Work that fails ends the job at once. The reason says which work it was and
/// gives the text of the error; what opening and decoding say stands alone.
pub proof fn law_failures_name_the_work(job: Job, error: Seq<char>)
    ensures
        ({
            let answer = AnswerView::Failed(error);
            &&& job.work is Open || job.work is Decode ==> fails_with(job, answer, error)
            &&& job.work is CreateParent ==> fails_with(job, answer, "创建输出目录失败: "@ + error)
            &&& job.work is CreateTemporary ==> fails_with(
                job,
                answer,
                "创建临时文件失败: "@ + error,
            )
            &&& job.work is Flush ==> fails_with(job, answer, "刷新临时文件失败: "@ + error)
            &&& job.work is Sync ==> fails_with(job, answer, "同步临时文件失败: "@ + error)
            &&& job.work is RemoveTarget ==> fails_with(
                job,
                answer,
                "移除旧目标文件失败: "@ + error,
            )
            &&& job.work is Rename ==> fails_with(job, answer, "提交目标文件失败: "@ + error)
            &&& job.work is Link ==> fails_with(job, answer, "原子提交目标文件失败: "@ + error)
            &&& job.work is RemoveTemporary ==> fails_with(
                job,
                answer,
                "清理临时文件链接失败: "@ + error,
            )
            &&& job.work is Measure ==> fails_with(job, answer, "读取输出文件信息失败: "@ + error)
        }),
{
    reveal_strlit("");
    assert(""@ + error =~= error);
}

/// What else ends a job before its target is written: a source without a name, a
/// target that is the source or has no directory, a thousand names that are
/// taken, and a target that another process made; and what only looks, or finds
/// its target there without force, ends without a failure.
pub proof fn law_other_ends(job: Job, has_parent: bool, there: bool, options: OptionsView)
    ensures
        job.work is NameTarget ==> fails_with(
            job,
            AnswerView::NoName,
            "源文件没有可用文件名"@,
        ) && fails_with(
            job,
            AnswerView::Named { is_source: true, has_parent },
            "目标路径与源文件相同"@,
        ),
        job.work is LookForTarget && there && !job.force ==> after(job, AnswerView::Exists(there))
            == NextView::Finished(OutcomeView::Skipped),
        job.work is LookForTarget && !(there && !job.force) && !job.has_parent ==> fails_with(
            job,
            AnswerView::Exists(there),
            "目标路径没有父目录"@,
        ),
        job.work is LookForTarget && !(there && !job.force) && job.has_parent ==> after(
            job,
            AnswerView::Exists(there),
        ) is Do,
        job.work == (Work::CreateTemporary { attempt: 0 }) ==> told_taken(NextView::Do(job), 1000)
            == NextView::Finished(OutcomeView::Failed("无法分配唯一的临时文件名"@)),
        job.work is Link ==> fails_with(
            job,
            AnswerView::Taken,
            "提交时目标文件已被其他进程创建"@,
        ),
        told(NextView::Do(first_job(options)), AnswerView::Done) is Finished <==> options.info,
        options.info ==> told(NextView::Do(first_job(options)), AnswerView::Done)
            == NextView::Finished(OutcomeView::Info),
{
    if job.work == (Work::CreateTemporary { attempt: 0 }) {
        lemma_told_taken(job, 1000);
    }
}

/// Where the target is named: once the container is open, beside the source if no
/// output directory is given, else in that directory.
pub proof fn law_place_of_the_target(options: OptionsView)
    requires
        !options.info,
    ensures
        ({
            let next = told(NextView::Do(first_job(options)), AnswerView::Done);
            &&& options.output is None ==> (next matches NextView::Do(job) && job.work
                == (Work::NameTarget { beside: true }))
            &&& options.output is Some ==> (next matches NextView::Do(job) && job.work
                == (Work::NameTarget { beside: false }))
        }),
{
}

/// How many answers a job waits for at most.
pub open spec fn steps_left(work: Work) -> int {
    match work {
        Work::Open => MAX_ATTEMPTS + 11,
        Work::NameTarget { .. } => MAX_ATTEMPTS + 10,
        Work::LookForTarget => MAX_ATTEMPTS + 9,
        Work::CreateParent => MAX_ATTEMPTS + 8,
        Work::CreateTemporary { attempt } => MAX_ATTEMPTS - attempt + 7,
        Work::Decode => 7,
        Work::Flush => 6,
        Work::Sync => 5,
        Work::LookAgain => 4,
        Work::RemoveTarget => 3,
        Work::Rename => 2,
        Work::Link => 3,
        Work::RemoveTemporary => 2,
        Work::Measure => 1,
    }
}

/// Every job ends, whatever the answers are.
pub proof fn law_jobs_end(job: Job, answer: AnswerView)
    requires
        is_sound(job),
        fits(job.work, answer),
    ensures
        0 < steps_left(job.work),
        after(job, answer) matches NextView::Do(next) ==> steps_left(next.work) < steps_left(
            job.work,
        ),
{
}

/// The text before an error.
fn failure_prefix_text(work: Work) -> (prefix: &'static str)
    ensures
        prefix@ == failure_prefix(work),
{
    match work {
        Work::CreateParent => "创建输出目录失败: ",
        Work::CreateTemporary { .. } => "创建临时文件失败: ",
        Work::Flush => "刷新临时文件失败: ",
        Work::Sync => "同步临时文件失败: ",
        Work::RemoveTarget => "移除旧目标文件失败: ",
        Work::Rename => "提交目标文件失败: ",
        Work::Link => "原子提交目标文件失败: ",
        Work::RemoveTemporary => "清理临时文件链接失败: ",
        Work::Measure => "读取输出文件信息失败: ",
        _ => "",
    }
}

/// A job that failed for a reason.
fn fail(reason: &str) -> (next: Next)
    ensures
        next@ == failed(reason@),
{
    Next::Finished(Outcome::Failed(String::from_str(reason)))
}

impl Job {
    /// The job of decoding one file, as the options ask.
    pub fn start(options: &Options) -> (job: Self)
        ensures
            job == first_job(options@),
    {
        Job {
            info: options.info,
            force: options.force,
            beside: options.output.is_none(),
            has_parent: false,
            bytes: 0,
            work: Work::Open,
        }
    }

    /// What follows the answer to the work of the job.
    pub fn process(self, answer: Answer) -> (next: Next)
        requires
            fits(self.work, answer@),
        ensures
            next@ == after(self, answer@),
    {
        match answer {
            Answer::Failed(error) => {
                let mut reason: String = String::from_str(failure_prefix_text(self.work));
                reason.append(error.as_str());
                Next::Finished(Outcome::Failed(reason))
            },
            Answer::NoName => fail("源文件没有可用文件名"),
            Answer::Named { is_source, has_parent } => if is_source {
                fail("目标路径与源文件相同")
            } else {
                Next::Do(Job { has_parent, work: Work::LookForTarget, ..self })
            },
            Answer::Taken => match self.work {
                Work::CreateTemporary { attempt } => if attempt < MAX_ATTEMPTS - 1 {
                    Next::Do(Job { work: Work::CreateTemporary { attempt: attempt + 1 }, ..self })
                } else {
                    fail("无法分配唯一的临时文件名")
                },
                _ => fail("提交时目标文件已被其他进程创建"),
            },
            Answer::Exists(there) => match self.work {
                Work::LookForTarget => if there && !self.force {
                    Next::Finished(Outcome::Skipped)
                } else if !self.has_parent {
                    fail("目标路径没有父目录")
                } else {
                    Next::Do(Job { work: Work::CreateParent, ..self })
                },
                _ => if there {
                    Next::Do(Job { work: Work::RemoveTarget, ..self })
                } else {
                    Next::Do(Job { work: Work::Rename, ..self })
                },
            },
            Answer::Count(n) => match self.work {
                Work::Decode => Next::Do(Job { bytes: n, work: Work::Flush, ..self }),
                _ => if n == self.bytes {
                    Next::Finished(Outcome::Written(n))
                } else {
                    let mut reason: String = String::from_str("输出长度校验失败：预期 ");
                    reason.append(text::decimal_text(self.bytes).as_str());
                    reason.append("，实际 ");
                    reason.append(text::decimal_text(n).as_str());
                    Next::Finished(Outcome::Failed(reason))
                },
            },
            Answer::Done => match self.work {
                Work::Open => if self.info {
                    Next::Finished(Outcome::Info)
                } else {
                    Next::Do(Job { work: Work::NameTarget { beside: self.beside }, ..self })
                },
                Work::CreateParent => Next::Do(
                    Job { work: Work::CreateTemporary { attempt: 0 }, ..self },
                ),
                Work::CreateTemporary { .. } => Next::Do(Job { work: Work::Decode, ..self }),
                Work::Flush => Next::Do(Job { work: Work::Sync, ..self }),
                Work::Sync => if self.force {
                    Next::Do(Job { work: Work::LookAgain, ..self })
                } else {
                    Next::Do(Job { work: Work::Link, ..self })
                },
                Work::RemoveTarget => Next::Do(Job { work: Work::Rename, ..self }),
                Work::Rename => Next::Do(Job { work: Work::Measure, ..self }),
                Work::Link => Next::Do(Job { work: Work::RemoveTemporary, ..self }),
                _ => Next::Do(Job { work: Work::Measure, ..self }),
            },
        }
    }
}

// ---------------------------------------------------------------------------
// Names
// ---------------------------------------------------------------------------

/// What is added to the name of the target for a temporary file.
pub open spec fn temporary_suffix(process: int, attempt: int) -> Seq<char> {
    "."@ + text::decimal(process as nat) + "."@ + text::decimal(attempt as nat) + ".part"@
}

/// What is added to the name of the target, behind a leading dot and that name,
/// for the temporary file of an attempt.
pub fn temporary_name_suffix(process: u32, attempt: u32) -> (suffix: String)
    ensures
        suffix@ == temporary_suffix(process as int, attempt as int),
{
    let mut suffix: String = String::from_str(".");
    suffix.append(text::decimal_text(process as u64).as_str());
    suffix.append(".");
    suffix.append(text::decimal_text(attempt as u64).as_str());
    suffix.append(".part");
    suffix
}

/// The name says whose it is: it ends in the number of the process, that of the
/// attempt, and `part`, with a dot in front of each.
pub proof fn law_temporary_name(process: int, attempt: int)
    requires
        0 <= process,
        0 <= attempt,
    ensures
        ({
            let suffix = temporary_suffix(process, attempt);
            let p = text::decimal(process as nat);
            let a = text::decimal(attempt as nat);
            &&& suffix.len() == p.len() + a.len() + 7
            &&& suffix[0] == '.'
            &&& suffix.subrange(1, 1int + p.len()) == p
            &&& suffix[p.len() + 1int] == '.'
            &&& suffix.subrange(2int + p.len(), 2int + p.len() + a.len()) == a
            &&& suffix.skip(2int + p.len() + a.len()) == seq!['.', 'p', 'a', 'r', 't']
        }),
{
    reveal_strlit(".");
    reveal_strlit(".part");
    let suffix = temporary_suffix(process, attempt);
    let p = text::decimal(process as nat);
    let a = text::decimal(attempt as nat);
    assert(suffix.subrange(1, 1int + p.len()) =~= p);
    assert(suffix.subrange(2int + p.len(), 2int + p.len() + a.len()) =~= a);
    assert(suffix.skip(2int + p.len() + a.len()) =~= seq!['.', 'p', 'a', 'r', 't']);
}

/// No two processes, and no two attempts of one, use the same name.
pub proof fn law_processes_and_attempts_differ(
    process: int,
    one: int,
    other_process: int,
    other: int,
)
    requires
        0 <= process,
        0 <= other_process,
        0 <= one,
        0 <= other,
        temporary_suffix(process, one) == temporary_suffix(other_process, other),
    ensures
        process == other_process,
        one == other,
{
    reveal_strlit(".");
    let p = text::decimal(process as nat);
    let q = text::decimal(other_process as nat);
    let s = temporary_suffix(process, one);
    let t = temporary_suffix(other_process, other);
    text::law_decimal_reads_back(process as nat);
    text::law_decimal_reads_back(other_process as nat);
    assert(s[p.len() + 1int] == '.' && t[q.len() + 1int] == '.');
    assert(forall|k: int| 0 <= k < p.len() ==> s[1 + k] == #[trigger] p[k]);
    assert(forall|k: int| 0 <= k < q.len() ==> t[1 + k] == #[trigger] q[k]);
    if p.len() < q.len() {
        assert(t[p.len() + 1int] == q[p.len() as int]);
    }
    if q.len() < p.len() {
        assert(s[q.len() + 1int] == p[q.len() as int]);
    }
    assert(p =~= q);
    text::law_decimal_is_unique(process as nat, other_process as nat);
    law_attempts_differ(process, one, other);
}

/// Every attempt of a process has a name of its own.
pub proof fn law_attempts_differ(process: int, one: int, other: int)
    requires
        0 <= one,
        0 <= other,
        temporary_suffix(process, one) == temporary_suffix(process, other),
    ensures
        one == other,
{
    let head = "."@ + text::decimal(process as nat) + "."@;
    let tail = ".part"@;
    let a = text::decimal(one as nat);
    let b = text::decimal(other as nat);
    let s = temporary_suffix(process, one);
    assert(a =~= s.subrange(head.len() as int, s.len() - tail.len()));
    assert(b =~= s.subrange(head.len() as int, s.len() - tail.len()));
    text::law_decimal_is_unique(one as nat, other as nat);
}

} // verus!
