use crate::stale::{paths_to_probe, up_to_date, FileTimes, Stamp};
use crate::target::{lemma_position_from, position, Makefile, Target, TargetView};
use crate::text::{
    characters, fields, lemma_fields_nonempty, lemma_run_end_bounds, run_end, scan, split_fields,
    texts, CharClass,
};
use vstd::prelude::*;
use vstd::string::*;

verus! {

/// Why a build stopped.
#[derive(Debug)]
pub enum BuildError {
    /// The command could not be started.
    FailedToSpawnProcess { cmd: String },
    /// A target depends on a target that is not declared.
    FailedToFindTargetForDependency { target_name: String, dependency_name: String },
    /// The target that was asked for is not declared.
    FailedToFindTargetToBuild { target_name: String },
    /// Waiting for a command failed, or nothing was reported of it.
    BuildProcessFailedToStart,
    /// A command ended without an exit code, as one that a signal ended does.
    FailedToGetChildExitCode,
    /// A command ended with an exit code other than zero.
    BuildProcessQuitWithNonZero,
}

/// What a `BuildError` says, as plain sequences of characters.
pub ghost enum BuildErrorView {
    FailedToSpawnProcess { cmd: Seq<char> },
    FailedToFindTargetForDependency { target_name: Seq<char>, dependency_name: Seq<char> },
    FailedToFindTargetToBuild { target_name: Seq<char> },
    BuildProcessFailedToStart,
    FailedToGetChildExitCode,
    BuildProcessQuitWithNonZero,
}

impl View for BuildError {
    type V = BuildErrorView;

    open spec fn view(&self) -> BuildErrorView {
        match *self {
            BuildError::FailedToSpawnProcess { cmd } => BuildErrorView::FailedToSpawnProcess {
                cmd: cmd@,
            },
            BuildError::FailedToFindTargetForDependency { target_name, dependency_name } =>
                BuildErrorView::FailedToFindTargetForDependency {
                    target_name: target_name@,
                    dependency_name: dependency_name@,
                },
            BuildError::FailedToFindTargetToBuild { target_name } =>
                BuildErrorView::FailedToFindTargetToBuild { target_name: target_name@ },
            BuildError::BuildProcessFailedToStart => BuildErrorView::BuildProcessFailedToStart,
            BuildError::FailedToGetChildExitCode => BuildErrorView::FailedToGetChildExitCode,
            BuildError::BuildProcessQuitWithNonZero => BuildErrorView::BuildProcessQuitWithNonZero,
        }
    }
}

impl BuildError {
    /// What the error says, as read by `view`, in words for the user.
    pub open spec fn message_of(e: BuildErrorView) -> Seq<char> {
        match e {
            BuildErrorView::FailedToSpawnProcess { cmd } => "Failed to spawn build process: "@
                + cmd,
            BuildErrorView::FailedToFindTargetForDependency { target_name, dependency_name } =>
                "Failed to find target to build `"@ + dependency_name + "` for target `"@
                    + target_name + "`"@,
            BuildErrorView::FailedToFindTargetToBuild { target_name } => "Failed to find target `"@
                + target_name + "` to build"@,
            BuildErrorView::BuildProcessFailedToStart => "Some build process failed to start"@,
            BuildErrorView::FailedToGetChildExitCode => "Failed to get build process exit code"@,
            BuildErrorView::BuildProcessQuitWithNonZero =>
                "Build process quit with non-zero exit code"@,
        }
    }

    /// The error in words for the user.
    pub fn message(&self) -> (r: String)
        ensures
            r@ == Self::message_of(self@),
    {
        match self {
            BuildError::FailedToSpawnProcess { cmd } => String::from_str(
                "Failed to spawn build process: ",
            ).concat(cmd.as_str()),
            BuildError::FailedToFindTargetForDependency { target_name, dependency_name } =>
                String::from_str("Failed to find target to build `").concat(
                    dependency_name.as_str(),
                ).concat("` for target `").concat(target_name.as_str()).concat("`"),
            BuildError::FailedToFindTargetToBuild { target_name } => String::from_str(
                "Failed to find target `",
            ).concat(target_name.as_str()).concat("` to build"),
            BuildError::BuildProcessFailedToStart => String::from_str(
                "Some build process failed to start",
            ),
            BuildError::FailedToGetChildExitCode => String::from_str(
                "Failed to get build process exit code",
            ),
            BuildError::BuildProcessQuitWithNonZero => String::from_str(
                "Build process quit with non-zero exit code",
            ),
        }
    }
}

/// How one command of a target ended.
#[derive(Debug, Clone, Copy)]
pub enum Outcome {
    /// It could not be started.
    NotSpawned,
    /// It was started, and waiting for it failed.
    WaitFailed,
    /// It ended without an exit code.
    NoExitCode,
    /// It ended with this exit code.
    Exited(i32),
}

/// The words of a command line: the program first, then its arguments. Words are parted
/// by whitespace alone; nothing is quoted or escaped.
pub open spec fn words(line: Seq<char>) -> Seq<Seq<char>> {
    fields(line, 0, line.len() as int, CharClass::Word)
}

/// Whether a command line holds nothing but whitespace.
pub open spec fn blank(line: Seq<char>) -> bool {
    run_end(line, 0, line.len() as int, CharClass::Space) >= line.len()
}

/// The lines from the `i`th on that hold a command, in order.
pub open spec fn runnable(lines: Seq<Seq<char>>, i: int) -> Seq<Seq<char>>
    decreases lines.len() - i,
{
    if !(0 <= i < lines.len()) {
        Seq::empty()
    } else if blank(lines[i]) {
        runnable(lines, i + 1)
    } else {
        seq![lines[i]] + runnable(lines, i + 1)
    }
}

/// How the `i`th command ended, by what was reported; a command of which nothing was
/// reported counts as one for which waiting failed.
pub open spec fn outcome_at(outcomes: Seq<Outcome>, i: int) -> Outcome {
    if 0 <= i < outcomes.len() {
        outcomes[i]
    } else {
        Outcome::WaitFailed
    }
}

/// Whether an outcome is the one of a command that did its work.
pub open spec fn succeeded(o: Outcome) -> bool {
    o matches Outcome::Exited(code) && code == 0
}

/// The first command from the `i`th on, of `n`, that could not be started.
pub open spec fn first_unspawned(outcomes: Seq<Outcome>, n: int, i: int) -> Option<int>
    decreases n - i,
{
    if !(0 <= i < n) {
        None
    } else if outcome_at(outcomes, i) is NotSpawned {
        Some(i)
    } else {
        first_unspawned(outcomes, n, i + 1)
    }
}

/// The first command from the `i`th on, of `n`, that did not end with exit code zero.
pub open spec fn first_failed(outcomes: Seq<Outcome>, n: int, i: int) -> Option<int>
    decreases n - i,
{
    if !(0 <= i < n) {
        None
    } else if !succeeded(outcome_at(outcomes, i)) {
        Some(i)
    } else {
        first_failed(outcomes, n, i + 1)
    }
}

/// The error that stands for a command that did not end with exit code zero.
pub open spec fn failure_of(o: Outcome) -> BuildErrorView {
    match o {
        Outcome::NoExitCode => BuildErrorView::FailedToGetChildExitCode,
        Outcome::Exited(_) => BuildErrorView::BuildProcessQuitWithNonZero,
        _ => BuildErrorView::BuildProcessFailedToStart,
    }
}

/// Whether the commands `lines` of a target, having ended as `outcomes` say, built it.
/// All commands are started before any is waited for, so a command that could not be
/// started comes before every other failure; after that the first command in order that
/// did not end with exit code zero decides.
pub open spec fn verdict(lines: Seq<Seq<char>>, outcomes: Seq<Outcome>) -> Result<
    (),
    BuildErrorView,
> {
    match first_unspawned(outcomes, lines.len() as int, 0) {
        Some(i) => Err(BuildErrorView::FailedToSpawnProcess { cmd: lines[i] }),
        None => match first_failed(outcomes, lines.len() as int, 0) {
            Some(i) => Err(failure_of(outcome_at(outcomes, i))),
            None => Ok(()),
        },
    }
}

/// `first_failed` finds none exactly where every command ended with exit code zero.
pub proof fn lemma_first_failed(outcomes: Seq<Outcome>, n: int, i: int)
    requires
        0 <= i,
    ensures
        match first_failed(outcomes, n, i) {
            Some(k) => i <= k < n && !succeeded(outcome_at(outcomes, k)),
            None => forall|k: int| i <= k < n ==> succeeded(#[trigger] outcome_at(outcomes, k)),
        },
    decreases n - i,
{
    if i < n && succeeded(outcome_at(outcomes, i)) {
        lemma_first_failed(outcomes, n, i + 1);
    }
}

/// `first_unspawned` finds none exactly where every command could be started.
pub proof fn lemma_first_unspawned(outcomes: Seq<Outcome>, n: int, i: int)
    requires
        0 <= i,
    ensures
        match first_unspawned(outcomes, n, i) {
            Some(k) => i <= k < n && outcome_at(outcomes, k) is NotSpawned,
            None => forall|k: int| i <= k < n ==> !(#[trigger] outcome_at(outcomes, k) is NotSpawned),
        },
    decreases n - i,
{
    if i < n && !(outcome_at(outcomes, i) is NotSpawned) {
        lemma_first_unspawned(outcomes, n, i + 1);
    }
}

/// Commands that all ended with exit code zero build their target.
pub proof fn law_all_zero_builds(lines: Seq<Seq<char>>, outcomes: Seq<Outcome>)
    requires
        forall|k: int| 0 <= k < lines.len() ==> succeeded(#[trigger] outcome_at(outcomes, k)),
    ensures
        verdict(lines, outcomes) is Ok,
{
    lemma_first_unspawned(outcomes, lines.len() as int, 0);
    lemma_first_failed(outcomes, lines.len() as int, 0);
    if let Some(k) = first_unspawned(outcomes, lines.len() as int, 0) {
        assert(succeeded(outcome_at(outcomes, k)));
    }
}

/// A command line that is not blank has a first word: the program to run.
pub proof fn law_command_has_program(line: Seq<char>)
    requires
        !blank(line),
    ensures
        words(line).len() > 0,
{
    let p = run_end(line, 0, line.len() as int, CharClass::Space);
    lemma_run_end_bounds(line, 0, line.len() as int, CharClass::Space);
    lemma_fields_nonempty(line, 0, line.len() as int, CharClass::Word, p);
}

/// None of the lines that `runnable` picks is blank.
pub proof fn law_runnable_not_blank(lines: Seq<Seq<char>>, i: int, n: int)
    requires
        0 <= i,
        0 <= n < runnable(lines, i).len(),
    ensures
        !blank(runnable(lines, i)[n]),
    decreases lines.len() - i,
{
    if i < lines.len() {
        if blank(lines[i]) {
            law_runnable_not_blank(lines, i + 1, n);
        } else if n > 0 {
            law_runnable_not_blank(lines, i + 1, n - 1);
        }
    }
}

/// Cuts a command line into its words.
pub fn tokenize(line: &str) -> (r: Vec<String>)
    ensures
        texts(r@) == words(line@),
{
    let chars = characters(line);
    split_fields(line, &chars, 0, chars.len(), CharClass::Word)
}

/// Picks the lines that hold a command.
pub fn runnable_lines(lines: &[String]) -> (r: Vec<String>)
    ensures
        texts(r@) == runnable(texts(lines@), 0),
{
    let mut out: Vec<String> = Vec::new();
    let mut i: usize = 0;
    assert(texts(out@) + runnable(texts(lines@), 0) =~= runnable(texts(lines@), 0));
    while i < lines.len()
        invariant
            i <= lines.len(),
            texts(out@) + runnable(texts(lines@), i as int) == runnable(texts(lines@), 0),
        decreases lines.len() - i,
    {
        let chars = characters(lines[i].as_str());
        let ghost before = texts(out@);
        let ghost rest = runnable(texts(lines@), i + 1);
        assert(texts(lines@)[i as int] == chars@);
        if scan(&chars, 0, chars.len(), CharClass::Space) < chars.len() {
            out.push(lines[i].clone());
            assert(before + (seq![chars@] + rest) =~= texts(out@) + rest);
        }
        i += 1;
    }
    assert(texts(out@) + Seq::<Seq<char>>::empty() =~= texts(out@));
    out
}

/// Judges the commands `lines` of a target by how they ended.
pub fn judge(lines: &[String], outcomes: &[Outcome]) -> (r: Result<(), BuildError>)
    ensures
        match verdict(texts(lines@), outcomes@) {
            Ok(_) => r is Ok,
            Err(f) => r matches Err(e) && e@ == f,
        },
{
    let n = lines.len();
    let mut i: usize = 0;
    while i < n
        invariant
            i <= n,
            n == lines.len(),
            first_unspawned(outcomes@, n as int, 0) == first_unspawned(outcomes@, n as int, i as int),
        decreases n - i,
    {
        if i < outcomes.len() {
            if let Outcome::NotSpawned = outcomes[i] {
                assert(texts(lines@)[i as int] == lines@[i as int]@);
                return Err(BuildError::FailedToSpawnProcess { cmd: lines[i].clone() });
            }
        }
        i += 1;
    }
    let mut j: usize = 0;
    while j < n
        invariant
            j <= n,
            n == lines.len(),
            first_unspawned(outcomes@, n as int, 0) is None,
            first_failed(outcomes@, n as int, 0) == first_failed(outcomes@, n as int, j as int),
        decreases n - j,
    {
        if j >= outcomes.len() {
            return Err(BuildError::BuildProcessFailedToStart);
        }
        match outcomes[j] {
            Outcome::Exited(code) => {
                if code != 0 {
                    return Err(BuildError::BuildProcessQuitWithNonZero);
                }
            },
            Outcome::NoExitCode => {
                return Err(BuildError::FailedToGetChildExitCode);
            },
            _ => {
                return Err(BuildError::BuildProcessFailedToStart);
            },
        }
        j += 1;
    }
    Ok(())
}

/// Where the walk stands at one target.
#[derive(Debug, Clone, Copy)]
pub enum Stage {
    /// Its dependencies are being built, one after the other.
    Dependencies,
    /// Its dependencies are built; the times of its files have been asked for.
    Probing,
    /// Its commands have been handed out to run.
    Running,
}

/// One target on the way from the target that was asked for down to the one at work.
pub struct Frame<'a> {
    target: &'a Target,
    next: usize,
    stage: Stage,
}

/// What a `Frame` says: the target, how many of its dependencies the walk has entered,
/// and the stage.
pub ghost struct FrameView {
    pub target: TargetView,
    pub next: int,
    pub stage: Stage,
}

impl<'a> View for Frame<'a> {
    type V = FrameView;

    closed spec fn view(&self) -> FrameView {
        FrameView { target: self.target@, next: self.next as int, stage: self.stage }
    }
}

/// A build under way: a walk over the targets, depth first, that hands out one request
/// at a time and goes on when it is answered.
///
/// The walk keeps no record of the targets it has left: one that is reached on two ways
/// is walked twice, and among targets that depend on each other in a circle the walk
/// never ends.
pub struct Build<'a> {
    makefile: &'a Makefile,
    stack: Vec<Frame<'a>>,
    failed: bool,
}

/// What a `Build` says: the declared targets, the targets on the way from the root (first)
/// to the one at work (last), and whether the build has failed.
pub ghost struct BuildView {
    pub makefile: Seq<TargetView>,
    pub stack: Seq<FrameView>,
    pub failed: bool,
}

impl<'a> View for Build<'a> {
    type V = BuildView;

    closed spec fn view(&self) -> BuildView {
        BuildView {
            makefile: self.makefile@,
            stack: self.stack@.map_values(|f: Frame<'a>| f@),
            failed: self.failed,
        }
    }
}

/// What the caller tells a build.
#[derive(Debug)]
pub enum Event {
    /// Nothing: the build may go on.
    Resume,
    /// The times of the files that were asked for.
    Times(FileTimes),
    /// How the commands that were handed out ended, one outcome for each, in order.
    Outcomes(Vec<Outcome>),
}

/// What an `Event` says.
pub ghost enum EventView {
    Resume,
    Times(Map<Seq<char>, Stamp>),
    Outcomes(Seq<Outcome>),
}

impl View for Event {
    type V = EventView;

    open spec fn view(&self) -> EventView {
        match *self {
            Event::Resume => EventView::Resume,
            Event::Times(times) => EventView::Times(times@),
            Event::Outcomes(outcomes) => EventView::Outcomes(outcomes@),
        }
    }
}

/// What a build asks of the caller, or tells it.
#[derive(Debug)]
pub enum Action {
    /// The walk has entered a dependency.
    Enter { target: String },
    /// Read the modification times of these files and answer with `Event::Times`.
    Probe { paths: Vec<String> },
    /// The target is up to date; none of its commands is run.
    Skip { target: String },
    /// Start all these commands, wait for all of them, and answer with `Event::Outcomes`.
    Run { target: String, commands: Vec<String> },
    /// All commands of the target ended with exit code zero.
    Built { target: String },
    /// The target that was asked for is built or up to date.
    Succeeded,
    /// The build has failed, and stops here.
    Failed(BuildError),
    /// The build failed earlier; there is nothing to do.
    Halted,
}

/// What an `Action` says, as plain sequences of characters.
pub ghost enum ActionView {
    Enter { target: Seq<char> },
    Probe { paths: Seq<Seq<char>> },
    Skip { target: Seq<char> },
    Run { target: Seq<char>, commands: Seq<Seq<char>> },
    Built { target: Seq<char> },
    Succeeded,
    Failed(BuildErrorView),
    Halted,
}

impl View for Action {
    type V = ActionView;

    open spec fn view(&self) -> ActionView {
        match *self {
            Action::Enter { target } => ActionView::Enter { target: target@ },
            Action::Probe { paths } => ActionView::Probe { paths: texts(paths@) },
            Action::Skip { target } => ActionView::Skip { target: target@ },
            Action::Run { target, commands } => ActionView::Run {
                target: target@,
                commands: texts(commands@),
            },
            Action::Built { target } => ActionView::Built { target: target@ },
            Action::Succeeded => ActionView::Succeeded,
            Action::Failed(e) => ActionView::Failed(e@),
            Action::Halted => ActionView::Halted,
        }
    }
}

/// A build that starts at `root`.
pub open spec fn start_of(makefile: Seq<TargetView>, root: TargetView) -> BuildView {
    BuildView {
        makefile,
        stack: seq![FrameView { target: root, next: 0, stage: Stage::Dependencies }],
        failed: false,
    }
}

/// The commands that are run for a target.
pub open spec fn commands_of(t: TargetView) -> Seq<Seq<char>> {
    runnable(t.commands, 0)
}

/// One step of a build: the state that follows `pre` on `event`, and what the build then
/// asks or tells.
///
/// A failed build halts. A build with no target left has succeeded. Otherwise the target
/// at work decides. While it has a dependency that the walk has not entered, the walk
/// enters the next one, or fails if no target bears its name. After the last of them the
/// times of its files are asked for. On their answer the target is left as up to date, or
/// its commands are handed out. On the answer to those the target is left as built, or
/// the build fails. An event that is not the answer awaited changes nothing, and the
/// request is made again.
pub open spec fn step_of(pre: BuildView, event: EventView) -> (BuildView, ActionView) {
    if pre.failed {
        (pre, ActionView::Halted)
    } else if pre.stack.len() == 0 {
        (pre, ActionView::Succeeded)
    } else {
        let top = pre.stack.last();
        let below = pre.stack.drop_last();
        let t = top.target;
        match top.stage {
            Stage::Dependencies => {
                if 0 <= top.next < t.target_dependencies.len() {
                    let name = t.target_dependencies[top.next];
                    match position(pre.makefile, name) {
                        None => (
                            BuildView { failed: true, ..pre },
                            ActionView::Failed(
                                BuildErrorView::FailedToFindTargetForDependency {
                                    target_name: t.name,
                                    dependency_name: name,
                                },
                            ),
                        ),
                        Some(k) => (
                            BuildView {
                                stack: below.push(FrameView { next: top.next + 1, ..top }).push(
                                    FrameView {
                                        target: pre.makefile[k],
                                        next: 0,
                                        stage: Stage::Dependencies,
                                    },
                                ),
                                ..pre
                            },
                            ActionView::Enter { target: pre.makefile[k].name },
                        ),
                    }
                } else {
                    (
                        BuildView {
                            stack: below.push(FrameView { stage: Stage::Probing, ..top }),
                            ..pre
                        },
                        ActionView::Probe { paths: paths_to_probe(t, pre.makefile) },
                    )
                }
            },
            Stage::Probing => match event {
                EventView::Times(clock) => if up_to_date(t, pre.makefile, clock) {
                    (BuildView { stack: below, ..pre }, ActionView::Skip { target: t.name })
                } else {
                    (
                        BuildView {
                            stack: below.push(FrameView { stage: Stage::Running, ..top }),
                            ..pre
                        },
                        ActionView::Run { target: t.name, commands: commands_of(t) },
                    )
                },
                _ => (pre, ActionView::Probe { paths: paths_to_probe(t, pre.makefile) }),
            },
            Stage::Running => match event {
                EventView::Outcomes(outcomes) => match verdict(commands_of(t), outcomes) {
                    Ok(_) => (
                        BuildView { stack: below, ..pre },
                        ActionView::Built { target: t.name },
                    ),
                    Err(f) => (BuildView { failed: true, ..pre }, ActionView::Failed(f)),
                },
                _ => (pre, ActionView::Run { target: t.name, commands: commands_of(t) }),
            },
        }
    }
}

impl Target {
    /// Starts a build of this target among the targets of `makefile`.
    pub fn build<'a>(&'a self, makefile: &'a Makefile) -> (r: Build<'a>)
        ensures
            r@ == start_of(makefile@, self@),
    {
        let mut stack: Vec<Frame<'a>> = Vec::new();
        stack.push(Frame { target: self, next: 0, stage: Stage::Dependencies });
        let r = Build { makefile, stack, failed: false };
        assert(r@.stack =~= start_of(makefile@, self@).stack);
        r
    }
}

impl Makefile {
    /// Starts a build of the first target that bears the name `target`; an error if there
    /// is none.
    pub fn build<'a>(&'a self, target: &str) -> (r: Result<Build<'a>, BuildError>)
        ensures
            match position(self@, target@) {
                Some(k) => r matches Ok(b) && b@ == start_of(self@, self@[k]),
                None => r matches Err(e) && e@ == (BuildErrorView::FailedToFindTargetToBuild {
                    target_name: target@,
                }),
            },
    {
        match self.get_target(target) {
            Some(root) => Ok(root.build(self)),
            None => Err(BuildError::FailedToFindTargetToBuild { target_name: target.to_owned() }),
        }
    }
}

impl<'a> Build<'a> {
    /// Takes one step: see `step_of`.
    pub fn step(&mut self, event: Event) -> (action: Action)
        ensures
            (final(self)@, action@) == step_of(old(self)@, event@),
    {
        if self.failed {
            return Action::Halted;
        }
        let ghost pre = self@;
        let makefile: &'a Makefile = self.makefile;
        let top = match self.stack.pop() {
            None => {
                assert(self@ == pre);
                return Action::Succeeded;
            },
            Some(frame) => frame,
        };
        let target: &'a Target = top.target;
        assert(pre.stack.last() == top@);
        assert(self@.stack =~= pre.stack.drop_last());
        let ghost below = pre.stack.drop_last();
        match top.stage {
            Stage::Dependencies => {
                let deps = target.target_dependencies();
                if top.next < deps.len() {
                    assert(target@.target_dependencies[top.next as int] == deps@[top.next as int]@);
                    match makefile.get_target(deps[top.next].as_str()) {
                        None => {
                            let e = BuildError::FailedToFindTargetForDependency {
                                target_name: target.name().to_owned(),
                                dependency_name: deps[top.next].clone(),
                            };
                            self.stack.push(top);
                            self.failed = true;
                            assert(self@.stack =~= pre.stack);
                            Action::Failed(e)
                        },
                        Some(found) => {
                            self.stack.push(
                                Frame { target, next: top.next + 1, stage: Stage::Dependencies },
                            );
                            self.stack.push(
                                Frame { target: found, next: 0, stage: Stage::Dependencies },
                            );
                            assert(self@.stack =~= below.push(
                                FrameView { next: top@.next + 1, ..top@ },
                            ).push(
                                FrameView { target: found@, next: 0, stage: Stage::Dependencies },
                            ));
                            Action::Enter { target: found.name().to_owned() }
                        },
                    }
                } else {
                    self.stack.push(Frame { target, next: top.next, stage: Stage::Probing });
                    assert(self@.stack =~= below.push(
                        FrameView { stage: Stage::Probing, ..top@ },
                    ));
                    Action::Probe { paths: target.probe_paths(makefile) }
                }
            },
            Stage::Probing => match event {
                Event::Times(times) => {
                    if target.is_up_to_date(makefile, &times) {
                        Action::Skip { target: target.name().to_owned() }
                    } else {
                        self.stack.push(Frame { target, next: top.next, stage: Stage::Running });
                        assert(self@.stack =~= below.push(
                            FrameView { stage: Stage::Running, ..top@ },
                        ));
                        Action::Run {
                            target: target.name().to_owned(),
                            commands: runnable_lines(target.commands()),
                        }
                    }
                },
                _ => {
                    self.stack.push(top);
                    assert(self@.stack =~= pre.stack);
                    Action::Probe { paths: target.probe_paths(makefile) }
                },
            },
            Stage::Running => match event {
                Event::Outcomes(outcomes) => {
                    let commands = runnable_lines(target.commands());
                    match judge(commands.as_slice(), outcomes.as_slice()) {
                        Ok(_) => Action::Built { target: target.name().to_owned() },
                        Err(e) => {
                            self.stack.push(top);
                            self.failed = true;
                            assert(self@.stack =~= pre.stack);
                            Action::Failed(e)
                        },
                    }
                },
                _ => {
                    self.stack.push(top);
                    assert(self@.stack =~= pre.stack);
                    Action::Run {
                        target: target.name().to_owned(),
                        commands: runnable_lines(target.commands()),
                    }
                },
            },
        }
    }
}

/// Whether the walk stands at `f` as it should: it has entered no more dependencies of
/// the target than it has, and all of them once the target is past their building.
pub open spec fn frame_in_order(f: FrameView) -> bool {
    &&& 0 <= f.next <= f.target.target_dependencies.len()
    &&& (!(f.stage is Dependencies) ==> f.next == f.target.target_dependencies.len())
}

/// Whether `lower` is waiting for `upper`: the dependency that `lower` entered last is
/// the target of `upper`.
pub open spec fn waits_for(makefile: Seq<TargetView>, lower: FrameView, upper: FrameView) -> bool {
    &&& lower.stage is Dependencies
    &&& 1 <= lower.next <= lower.target.target_dependencies.len()
    &&& position(makefile, lower.target.target_dependencies[lower.next - 1]) matches Some(k)
        && makefile[k] == upper.target
}

/// Whether the `i`th target on the way is waiting for the one above it.
pub open spec fn linked(b: BuildView, i: int) -> bool {
    waits_for(b.makefile, b.stack[i], b.stack[i + 1])
}

/// Whether the targets on the way are in order: the walk stands at each as it should, and
/// each but the one at work is waiting for the one above it.
pub open spec fn in_order(b: BuildView) -> bool {
    &&& forall|i: int| 0 <= i < b.stack.len() ==> frame_in_order(#[trigger] b.stack[i])
    &&& forall|i: int| 0 <= i < b.stack.len() - 1 ==> #[trigger] linked(b, i)
}

/// A build starts in order.
pub proof fn law_start_in_order(makefile: Seq<TargetView>, root: TargetView)
    ensures
        in_order(start_of(makefile, root)),
{
}

/// Leaving the target at work keeps the rest in order.
proof fn lemma_order_leave(b: BuildView)
    requires
        in_order(b),
        b.stack.len() > 0,
    ensures
        in_order(BuildView { stack: b.stack.drop_last(), ..b }),
{
    let after = BuildView { stack: b.stack.drop_last(), ..b };
    assert forall|i: int| 0 <= i < after.stack.len() implies frame_in_order(
        #[trigger] after.stack[i],
    ) by {
        assert(after.stack[i] == b.stack[i]);
    }
    assert forall|i: int| 0 <= i < after.stack.len() - 1 implies #[trigger] linked(after, i) by {
        assert(linked(b, i));
    }
}

/// A target whose dependencies are all entered may pass to another stage.
proof fn lemma_order_restage(b: BuildView, stage: Stage)
    requires
        in_order(b),
        b.stack.len() > 0,
        b.stack.last().next == b.stack.last().target.target_dependencies.len(),
    ensures
        in_order(
            BuildView { stack: b.stack.drop_last().push(FrameView { stage, ..b.stack.last() }), ..b },
        ),
{
    let top = b.stack.last();
    let after = BuildView { stack: b.stack.drop_last().push(FrameView { stage, ..top }), ..b };
    assert(top == b.stack[b.stack.len() - 1]);
    assert forall|i: int| 0 <= i < after.stack.len() implies frame_in_order(
        #[trigger] after.stack[i],
    ) by {
        if i < b.stack.len() - 1 {
            assert(after.stack[i] == b.stack[i]);
        }
    }
    assert forall|i: int| 0 <= i < after.stack.len() - 1 implies #[trigger] linked(after, i) by {
        assert(linked(b, i));
    }
}

/// Entering the next dependency of the target at work keeps the way in order.
proof fn lemma_order_enter(b: BuildView, k: int)
    requires
        in_order(b),
        b.stack.len() > 0,
        b.stack.last().stage is Dependencies,
        b.stack.last().next < b.stack.last().target.target_dependencies.len(),
        position(b.makefile, b.stack.last().target.target_dependencies[b.stack.last().next])
            == Some(k),
    ensures
        in_order(
            BuildView {
                stack: b.stack.drop_last().push(
                    FrameView { next: b.stack.last().next + 1, ..b.stack.last() },
                ).push(FrameView { target: b.makefile[k], next: 0, stage: Stage::Dependencies }),
                ..b
            },
        ),
{
    let top = b.stack.last();
    let n = b.stack.len() as int;
    let after = BuildView {
        stack: b.stack.drop_last().push(FrameView { next: top.next + 1, ..top }).push(
            FrameView { target: b.makefile[k], next: 0, stage: Stage::Dependencies },
        ),
        ..b
    };
    assert(top == b.stack[n - 1]);
    assert(frame_in_order(b.stack[n - 1]));
    assert forall|i: int| 0 <= i < after.stack.len() implies frame_in_order(
        #[trigger] after.stack[i],
    ) by {
        if i < n - 1 {
            assert(after.stack[i] == b.stack[i]);
        }
    }
    assert forall|i: int| 0 <= i < after.stack.len() - 1 implies #[trigger] linked(after, i) by {
        if i < n - 1 {
            assert(linked(b, i));
        }
    }
}

/// A failure leaves the way as it is.
proof fn lemma_order_fail(b: BuildView)
    requires
        in_order(b),
    ensures
        in_order(BuildView { failed: true, ..b }),
{
    let after = BuildView { failed: true, ..b };
    assert forall|i: int| 0 <= i < after.stack.len() - 1 implies #[trigger] linked(after, i) by {
        assert(linked(b, i));
    }
}

/// A step keeps the targets on the way in order, and never changes the declared targets.
pub proof fn law_step_keeps_order(pre: BuildView, event: EventView)
    requires
        in_order(pre),
    ensures
        in_order(step_of(pre, event).0),
        step_of(pre, event).0.makefile == pre.makefile,
{
    let post = step_of(pre, event).0;
    if !pre.failed && pre.stack.len() > 0 {
        let top = pre.stack.last();
        let t = top.target;
        assert(top == pre.stack[pre.stack.len() - 1]);
        assert(frame_in_order(pre.stack[pre.stack.len() - 1]));
        lemma_order_leave(pre);
        lemma_order_fail(pre);
        match top.stage {
            Stage::Dependencies => {
                if top.next < t.target_dependencies.len() {
                    match position(pre.makefile, t.target_dependencies[top.next]) {
                        Some(k) => {
                            lemma_order_enter(pre, k);
                        },
                        None => {
                            assert(post == BuildView { failed: true, ..pre });
                        },
                    }
                } else {
                    lemma_order_restage(pre, Stage::Probing);
                }
            },
            Stage::Probing => {
                lemma_order_restage(pre, Stage::Running);
                assert(post == pre || post == (BuildView { stack: pre.stack.drop_last(), ..pre })
                    || post == (BuildView {
                    stack: pre.stack.drop_last().push(FrameView { stage: Stage::Running, ..top }),
                    ..pre
                }));
            },
            Stage::Running => {
                assert(post == pre || post == (BuildView { stack: pre.stack.drop_last(), ..pre })
                    || post == (BuildView { failed: true, ..pre }));
            },
        }
    }
}

/// The commands of a target are handed out only when the walk has entered every one of
/// its dependencies, and has left each of them again: the target is the one at work.
pub proof fn law_commands_follow_dependencies(pre: BuildView, event: EventView)
    requires
        in_order(pre),
        step_of(pre, event).1 is Run,
    ensures
        pre.stack.len() > 0,
        pre.stack.last().next == pre.stack.last().target.target_dependencies.len(),
        step_of(pre, event).1 == (ActionView::Run {
            target: pre.stack.last().target.name,
            commands: commands_of(pre.stack.last().target),
        }),
{
    assert(pre.stack.last() == pre.stack[pre.stack.len() - 1]);
    assert(frame_in_order(pre.stack[pre.stack.len() - 1]));
}

/// The walk leaves a target only as up to date or as built: a dependency that the walk
/// has left has not failed.
pub proof fn law_left_means_done(pre: BuildView, event: EventView)
    requires
        step_of(pre, event).0.stack.len() < pre.stack.len(),
    ensures
        step_of(pre, event).1 is Skip || step_of(pre, event).1 is Built,
        !step_of(pre, event).0.failed,
        step_of(pre, event).0.stack == pre.stack.drop_last(),
{
}

/// A build that reports a failure has failed, and a failed build hands out nothing more:
/// no target is entered and no command is run after it.
pub proof fn law_failure_halts(pre: BuildView, event: EventView, later: EventView)
    requires
        step_of(pre, event).1 is Failed || pre.failed,
    ensures
        step_of(pre, event).0.failed,
        step_of(step_of(pre, event).0, later) == (step_of(pre, event).0, ActionView::Halted),
{
}

/// Commands of which one ended with an exit code other than zero do not build their
/// target.
pub proof fn law_nonzero_exit_fails(lines: Seq<Seq<char>>, outcomes: Seq<Outcome>, i: int)
    requires
        0 <= i < lines.len(),
        i < outcomes.len(),
        outcomes[i] matches Outcome::Exited(code) && code != 0,
    ensures
        verdict(lines, outcomes) is Err,
{
    lemma_first_failed(outcomes, lines.len() as int, 0);
    assert(!succeeded(outcome_at(outcomes, i)));
}

/// A build whose target at work had a command end with an exit code other than zero
/// fails at that step.
pub proof fn law_nonzero_exit_fails_build(pre: BuildView, outcomes: Seq<Outcome>, i: int)
    requires
        !pre.failed,
        pre.stack.len() > 0,
        pre.stack.last().stage is Running,
        0 <= i < commands_of(pre.stack.last().target).len(),
        i < outcomes.len(),
        outcomes[i] matches Outcome::Exited(code) && code != 0,
    ensures
        step_of(pre, EventView::Outcomes(outcomes)).1 is Failed,
        step_of(pre, EventView::Outcomes(outcomes)).0.failed,
{
    law_nonzero_exit_fails(commands_of(pre.stack.last().target), outcomes, i);
}

/// What a build that is told `events`, one after the other, comes to, and what it hands
/// out on the way.
pub open spec fn run_of(start: BuildView, events: Seq<EventView>) -> (BuildView, Seq<ActionView>)
    decreases events.len(),
{
    if events.len() == 0 {
        (start, Seq::empty())
    } else {
        let (middle, before) = run_of(start, events.drop_last());
        let (end, action) = step_of(middle, events.last());
        (end, before.push(action))
    }
}

/// Whether `action` tells that the walk has left the target `name`, as up to date or as
/// built.
pub open spec fn leaves(action: ActionView, name: Seq<char>) -> bool {
    action == (ActionView::Skip { target: name }) || action == (ActionView::Built { target: name })
}

/// Whether, among the actions handed out so far, one tells that the walk has left `name`.
pub open spec fn left(history: Seq<ActionView>, name: Seq<char>) -> bool {
    exists|n: int| 0 <= n < history.len() && leaves(#[trigger] history[n], name)
}

/// How many dependencies of the `i`th target on the way the walk has entered and left
/// again: all that it has entered, but for the one it is in.
pub open spec fn settled(b: BuildView, i: int) -> int {
    if i == b.stack.len() - 1 {
        b.stack[i].next
    } else {
        b.stack[i].next - 1
    }
}

/// Whether the walk has left the `j`th dependency of the `i`th target on the way.
pub open spec fn dependency_left(b: BuildView, history: Seq<ActionView>, i: int, j: int) -> bool {
    left(history, b.stack[i].target.target_dependencies[j])
}

/// Whether `history` tells of each target on the way that the walk has left every
/// dependency that counts as settled.
pub open spec fn served(b: BuildView, history: Seq<ActionView>) -> bool {
    forall|i: int, j: int|
        0 <= i < b.stack.len() && 0 <= j < settled(b, i) ==> #[trigger] dependency_left(
            b,
            history,
            i,
            j,
        )
}

/// What the history tells, it still tells when it has grown.
proof fn lemma_left_grows(history: Seq<ActionView>, action: ActionView, name: Seq<char>)
    requires
        left(history, name),
    ensures
        left(history.push(action), name),
{
    let n = choose|n: int| 0 <= n < history.len() && leaves(#[trigger] history[n], name);
    assert(leaves(history.push(action)[n], name));
}

/// The history stays true where the way keeps its targets and their counts.
proof fn lemma_served_alike(
    pre: BuildView,
    post: BuildView,
    history: Seq<ActionView>,
    action: ActionView,
)
    requires
        served(pre, history),
        post.stack.len() == pre.stack.len(),
        forall|i: int|
            0 <= i < pre.stack.len() ==> (#[trigger] post.stack[i]).target == pre.stack[i].target
                && post.stack[i].next == pre.stack[i].next,
    ensures
        served(post, history.push(action)),
{
    assert forall|i: int, j: int|
        0 <= i < post.stack.len() && 0 <= j < settled(post, i) implies #[trigger] dependency_left(
        post,
        history.push(action),
        i,
        j,
    ) by {
        assert(post.stack[i].target == pre.stack[i].target);
        assert(dependency_left(pre, history, i, j));
        lemma_left_grows(history, action, pre.stack[i].target.target_dependencies[j]);
    }
}

/// The history stays true where the walk enters a dependency.
proof fn lemma_served_enter(
    pre: BuildView,
    post: BuildView,
    history: Seq<ActionView>,
    action: ActionView,
)
    requires
        served(pre, history),
        pre.stack.len() > 0,
        post.stack.len() == pre.stack.len() + 1,
        post.stack[pre.stack.len() as int].next == 0,
        post.stack[pre.stack.len() - 1].next == pre.stack[pre.stack.len() - 1].next + 1,
        forall|i: int|
            0 <= i < pre.stack.len() ==> (#[trigger] post.stack[i]).target == pre.stack[i].target,
        forall|i: int|
            0 <= i < pre.stack.len() - 1 ==> (#[trigger] post.stack[i]).next == pre.stack[i].next,
    ensures
        served(post, history.push(action)),
{
    assert forall|i: int, j: int|
        0 <= i < post.stack.len() && 0 <= j < settled(post, i) implies #[trigger] dependency_left(
        post,
        history.push(action),
        i,
        j,
    ) by {
        assert(i < pre.stack.len());
        assert(post.stack[i].target == pre.stack[i].target);
        assert(dependency_left(pre, history, i, j));
        lemma_left_grows(history, action, pre.stack[i].target.target_dependencies[j]);
    }
}

/// The history stays true where the walk leaves the target at work, which settles one more
/// dependency of the target below.
proof fn lemma_served_leave(pre: BuildView, history: Seq<ActionView>, action: ActionView)
    requires
        in_order(pre),
        served(pre, history),
        pre.stack.len() > 0,
        leaves(action, pre.stack.last().target.name),
    ensures
        served(BuildView { stack: pre.stack.drop_last(), ..pre }, history.push(action)),
{
    let post = BuildView { stack: pre.stack.drop_last(), ..pre };
    let after = history.push(action);
    let n = pre.stack.len() as int;
    assert forall|i: int, j: int|
        0 <= i < post.stack.len() && 0 <= j < settled(post, i) implies #[trigger] dependency_left(
        post,
        after,
        i,
        j,
    ) by {
        assert(post.stack[i] == pre.stack[i]);
        let name = pre.stack[i].target.target_dependencies[j];
        if i == n - 2 && j == pre.stack[i].next - 1 {
            assert(linked(pre, i));
            lemma_position_from(pre.makefile, name, 0);
            assert(pre.stack[i + 1] == pre.stack.last());
            assert(name == pre.stack.last().target.name);
            assert(leaves(after[history.len() as int], name));
        } else {
            assert(dependency_left(pre, history, i, j));
            lemma_left_grows(history, action, name);
        }
    }
}

/// A step keeps the history true to the walk.
pub proof fn lemma_step_serves(pre: BuildView, history: Seq<ActionView>, event: EventView)
    requires
        in_order(pre),
        served(pre, history),
    ensures
        served(step_of(pre, event).0, history.push(step_of(pre, event).1)),
{
    let (post, action) = step_of(pre, event);
    if pre.failed || pre.stack.len() == 0 {
        lemma_served_alike(pre, post, history, action);
    } else {
        let top = pre.stack.last();
        let t = top.target;
        let n = pre.stack.len() as int;
        assert(top == pre.stack[n - 1]);
        if post.stack.len() == n + 1 {
            lemma_served_enter(pre, post, history, action);
        } else if post.stack.len() == n {
            lemma_served_alike(pre, post, history, action);
        } else {
            assert(leaves(action, t.name));
            lemma_served_leave(pre, history, action);
        }
    }
}

/// However a build that starts at `root` is driven, the targets on the way stay in order
/// and the history stays true to the walk.
pub proof fn lemma_run_in_order(makefile: Seq<TargetView>, root: TargetView, events: Seq<EventView>)
    ensures
        in_order(run_of(start_of(makefile, root), events).0),
        served(run_of(start_of(makefile, root), events).0, run_of(start_of(makefile, root), events).1),
        run_of(start_of(makefile, root), events).0.makefile == makefile,
    decreases events.len(),
{
    let start = start_of(makefile, root);
    if events.len() == 0 {
        assert(settled(start, 0) == 0);
    } else {
        lemma_run_in_order(makefile, root, events.drop_last());
        let (middle, before) = run_of(start, events.drop_last());
        law_step_keeps_order(middle, events.last());
        lemma_step_serves(middle, before, events.last());
    }
}

/// However a build is driven: when it hands out the commands of a target, the walk has
/// entered every dependency of that target and has left each as built or as up to date,
/// earlier in the same build. The commands of a target never run before those of the
/// targets it depends on are done.
pub proof fn law_dependencies_first(
    makefile: Seq<TargetView>,
    root: TargetView,
    events: Seq<EventView>,
    event: EventView,
    j: int,
)
    requires
        step_of(run_of(start_of(makefile, root), events).0, event).1 is Run,
        0 <= j < run_of(start_of(makefile, root), events).0.stack.last().target.target_dependencies.len(),
    ensures
        left(
            run_of(start_of(makefile, root), events).1,
            run_of(start_of(makefile, root), events).0.stack.last().target.target_dependencies[j],
        ),
        step_of(run_of(start_of(makefile, root), events).0, event).1 == (ActionView::Run {
            target: run_of(start_of(makefile, root), events).0.stack.last().target.name,
            commands: commands_of(run_of(start_of(makefile, root), events).0.stack.last().target),
        }),
{
    let (state, history) = run_of(start_of(makefile, root), events);
    lemma_run_in_order(makefile, root, events);
    law_commands_follow_dependencies(state, event);
    assert(dependency_left(state, history, state.stack.len() - 1, j));
}

/// However a failed build is driven on, it hands out nothing but `Halted`: after a
/// failure no target is entered and no command is run.
pub proof fn law_nothing_after_failure(start: BuildView, events: Seq<EventView>)
    requires
        start.failed,
    ensures
        run_of(start, events).0 == start,
        forall|n: int|
            0 <= n < run_of(start, events).1.len() ==> #[trigger] run_of(start, events).1[n]
                == ActionView::Halted,
        run_of(start, events).1.len() == events.len(),
    decreases events.len(),
{
    if events.len() > 0 {
        law_nothing_after_failure(start, events.drop_last());
    }
}

} // verus!
