use crate::target::{clone_strings, position, Makefile, Target, TargetView};
use crate::text::texts;
use vstd::prelude::*;
use vstd::string::*;

verus! {

/// When a file was last modified, in nanoseconds from the Unix epoch.
pub type Stamp = i128;

/// What is known of one file: its path and, where it could be read, its modification time.
#[derive(Debug)]
pub struct FileTime {
    pub path: String,
    pub modified: Option<Stamp>,
}

/// The modification times of the files that a staleness decision looks at, as they were
/// when the caller read them. A file of which nothing is recorded counts as unreadable.
#[derive(Debug)]
pub struct FileTimes {
    entries: Vec<FileTime>,
}

/// The clock that a list of records amounts to: a later record of a path replaces an
/// earlier one, and a record without a time takes the path out.
pub open spec fn clock_of(entries: Seq<FileTime>) -> Map<Seq<char>, Stamp>
    decreases entries.len(),
{
    if entries.len() == 0 {
        Map::empty()
    } else {
        let before = clock_of(entries.drop_last());
        match entries.last().modified {
            Some(t) => before.insert(entries.last().path@, t),
            None => before.remove(entries.last().path@),
        }
    }
}

/// The modification time of `path` by `clock`, if it has one.
pub open spec fn stamp(clock: Map<Seq<char>, Stamp>, path: Seq<char>) -> Option<Stamp> {
    if clock.contains_key(path) {
        Some(clock[path])
    } else {
        None
    }
}

/// The earliest modification time among `paths`; none where there is no path, or where
/// one of them has no time.
pub open spec fn earliest(paths: Seq<Seq<char>>, clock: Map<Seq<char>, Stamp>) -> Option<Stamp>
    decreases paths.len(),
{
    if paths.len() == 0 {
        None
    } else if paths.len() == 1 {
        stamp(clock, paths[0])
    } else {
        match (earliest(paths.drop_last(), clock), stamp(clock, paths.last())) {
            (Some(m), Some(t)) => Some(if t < m { t } else { m }),
            _ => None,
        }
    }
}

/// Whether the file dependency `path` is readable and no newer than `built`.
pub open spec fn file_is_older(clock: Map<Seq<char>, Stamp>, path: Seq<char>, built: Stamp) -> bool {
    match stamp(clock, path) {
        Some(t) => t <= built,
        None => false,
    }
}

/// Whether the target dependency `name` is declared, has all its outputs, and the
/// earliest of them is no newer than `built`. Only the dependency's own outputs count,
/// not what it depends on in turn.
pub open spec fn target_is_older(
    targets: Seq<TargetView>,
    clock: Map<Seq<char>, Stamp>,
    name: Seq<char>,
    built: Stamp,
) -> bool {
    match position(targets, name) {
        Some(k) => match earliest(targets[k].outputs, clock) {
            Some(t) => t <= built,
            None => false,
        },
        None => false,
    }
}

/// Whether `t` needs no build: all its outputs are there, and none of them is older than
/// a file it depends on or than the earliest output of a target it depends on.
pub open spec fn up_to_date(t: TargetView, targets: Seq<TargetView>, clock: Map<Seq<char>, Stamp>) -> bool {
    match earliest(t.outputs, clock) {
        None => false,
        Some(built) => {
            &&& forall|i: int|
                0 <= i < t.file_dependencies.len() ==> file_is_older(
                    clock,
                    #[trigger] t.file_dependencies[i],
                    built,
                )
            &&& forall|i: int|
                0 <= i < t.target_dependencies.len() ==> target_is_older(
                    targets,
                    clock,
                    #[trigger] t.target_dependencies[i],
                    built,
                )
        },
    }
}

/// `earliest` is the least of the times of `paths`, and there is none exactly where there
/// is no path or a path without a time.
pub proof fn lemma_earliest(paths: Seq<Seq<char>>, clock: Map<Seq<char>, Stamp>)
    ensures
        match earliest(paths, clock) {
            Some(m) => {
                &&& forall|i: int|
                    0 <= i < paths.len() ==> (stamp(clock, #[trigger] paths[i]) matches Some(t)
                        && m <= t)
                &&& exists|i: int| 0 <= i < paths.len() && stamp(clock, #[trigger] paths[i]) == Some(m)
            },
            None => paths.len() == 0 || exists|i: int|
                0 <= i < paths.len() && stamp(clock, #[trigger] paths[i]) is None,
        },
    decreases paths.len(),
{
    if paths.len() > 1 {
        let front = paths.drop_last();
        lemma_earliest(front, clock);
        assert(forall|i: int| 0 <= i < front.len() ==> front[i] == paths[i]);
        match (earliest(front, clock), stamp(clock, paths.last())) {
            (Some(m), Some(t)) => {
                let i = choose|i: int| 0 <= i < front.len() && stamp(clock, #[trigger] front[i]) == Some(m);
                assert(stamp(clock, paths[i]) == Some(m));
                assert(stamp(clock, paths[paths.len() - 1]) == Some(t));
                assert forall|k: int| 0 <= k < paths.len() implies (stamp(clock, #[trigger] paths[k]) matches Some(x)
                    && (if t < m { t } else { m }) <= x) by {
                    if k < front.len() {
                        assert(front[k] == paths[k]);
                    }
                }
            },
            (None, _) => {
                if front.len() > 0 {
                    let i = choose|i: int| 0 <= i < front.len() && stamp(clock, #[trigger] front[i]) is None;
                    assert(stamp(clock, paths[i]) is None);
                }
            },
            (Some(_), None) => {
                assert(stamp(clock, paths[paths.len() - 1]) is None);
            },
        }
    } else if paths.len() == 1 {
        assert(stamp(clock, paths[0]) == earliest(paths, clock));
    }
}

impl View for FileTimes {
    type V = Map<Seq<char>, Stamp>;

    closed spec fn view(&self) -> Map<Seq<char>, Stamp> {
        clock_of(self.entries@)
    }
}

impl FileTimes {
    /// A record of no file at all.
    pub fn new() -> (r: Self)
        ensures
            r@ == Map::<Seq<char>, Stamp>::empty(),
    {
        FileTimes { entries: Vec::new() }
    }

    /// Notes what was found of `path`: its modification time, or that it could not be read.
    pub fn record(&mut self, path: String, modified: Option<Stamp>)
        ensures
            final(self)@ == (match modified {
                Some(t) => old(self)@.insert(path@, t),
                None => old(self)@.remove(path@),
            }),
    {
        self.entries.push(FileTime { path, modified });
        assert(self.entries@.drop_last() =~= old(self).entries@);
    }

    /// The modification time recorded for `path`.
    pub fn modified(&self, path: &str) -> (r: Option<Stamp>)
        ensures
            r == stamp(self@, path@),
    {
        let wanted = path.to_owned();
        let mut i: usize = self.entries.len();
        assert(self.entries@.take(i as int) =~= self.entries@);
        while i > 0
            invariant
                i <= self.entries.len(),
                wanted@ == path@,
                stamp(self@, path@) == stamp(clock_of(self.entries@.take(i as int)), path@),
            decreases i,
        {
            let ghost upto = self.entries@.take(i as int);
            assert(upto.drop_last() =~= self.entries@.take(i - 1));
            assert(upto.last() == self.entries@[i - 1]);
            i -= 1;
            if self.entries[i].path == wanted {
                return self.entries[i].modified;
            }
        }
        None
    }
}

impl Target {
    /// The earliest modification time among the target's outputs: the time at which the
    /// target counts as built. None if one of them has no time.
    pub fn get_min_output_time(&self, times: &FileTimes) -> (r: Option<Stamp>)
        ensures
            r == earliest(self@.outputs, times@),
    {
        let outputs = self.outputs();
        let mut min_time = times.modified(outputs[0].as_str());
        let mut i: usize = 1;
        assert(texts(outputs@).take(1) =~= seq![outputs@[0]@]);
        while i < outputs.len()
            invariant
                1 <= i <= outputs.len(),
                min_time == earliest(texts(outputs@).take(i as int), times@),
            decreases outputs.len() - i,
        {
            let modified = times.modified(outputs[i].as_str());
            assert(texts(outputs@).take(i + 1).drop_last() =~= texts(outputs@).take(i as int));
            assert(texts(outputs@).take(i + 1).last() == outputs@[i as int]@);
            min_time =
            match (min_time, modified) {
                (Some(current), Some(t)) => Some(if t < current { t } else { current }),
                _ => None,
            };
            i += 1;
        }
        assert(texts(outputs@).take(outputs.len() as int) =~= texts(outputs@));
        min_time
    }

    /// Decides whether the target needs no build, by the times in `times`.
    pub fn is_up_to_date(&self, makefile: &Makefile, times: &FileTimes) -> (r: bool)
        ensures
            r == up_to_date(self@, makefile@, times@),
    {
        let built = match self.get_min_output_time(times) {
            None => { return false; },
            Some(t) => t,
        };
        let files = self.file_dependencies();
        let mut i: usize = 0;
        while i < files.len()
            invariant
                i <= files.len(),
                earliest(self@.outputs, times@) == Some(built),
                texts(files@) == self@.file_dependencies,
                forall|k: int| 0 <= k < i ==> file_is_older(times@, #[trigger] self@.file_dependencies[k], built),
            decreases files.len() - i,
        {
            assert(self@.file_dependencies[i as int] == files@[i as int]@);
            match times.modified(files[i].as_str()) {
                Some(t) if t <= built => {},
                _ => { return false; },
            }
            i += 1;
        }
        let deps = self.target_dependencies();
        let mut j: usize = 0;
        while j < deps.len()
            invariant
                j <= deps.len(),
                earliest(self@.outputs, times@) == Some(built),
                texts(deps@) == self@.target_dependencies,
                forall|k: int| 0 <= k < j ==> target_is_older(makefile@, times@, #[trigger] self@.target_dependencies[k], built),
            decreases deps.len() - j,
        {
            assert(self@.target_dependencies[j as int] == deps@[j as int]@);
            let fresh = match makefile.get_target(deps[j].as_str()) {
                None => false,
                Some(dependency) => match dependency.get_min_output_time(times) {
                    None => false,
                    Some(t) => t <= built,
                },
            };
            if !fresh {
                return false;
            }
            j += 1;
        }
        true
    }
}

/// The outputs of the targets that `names` name, from the `i`th name on, one target's
/// after the other's. A name that no target bears adds nothing.
pub open spec fn dependency_outputs(names: Seq<Seq<char>>, targets: Seq<TargetView>, i: int) -> Seq<
    Seq<char>,
>
    decreases names.len() - i,
{
    if !(0 <= i < names.len()) {
        Seq::empty()
    } else {
        (match position(targets, names[i]) {
            Some(k) => targets[k].outputs,
            None => Seq::empty(),
        }) + dependency_outputs(names, targets, i + 1)
    }
}

/// The files whose times decide whether `t` is up to date: its outputs, the files it
/// depends on, and the outputs of the targets it depends on.
pub open spec fn paths_to_probe(t: TargetView, targets: Seq<TargetView>) -> Seq<Seq<char>> {
    t.outputs + t.file_dependencies + dependency_outputs(t.target_dependencies, targets, 0)
}

/// Puts copies of `more` at the end of `out`.
pub fn append_strings(out: &mut Vec<String>, more: &[String])
    ensures
        texts(final(out)@) == texts(old(out)@) + texts(more@),
{
    let mut i: usize = 0;
    assert(texts(out@) =~= texts(old(out)@) + texts(more@.take(0)));
    while i < more.len()
        invariant
            i <= more.len(),
            texts(out@) == texts(old(out)@) + texts(more@.take(i as int)),
        decreases more.len() - i,
    {
        let ghost before = out@;
        out.push(more[i].clone());
        assert(texts(out@) =~= texts(before).push(more@[i as int]@));
        assert(texts(more@.take(i + 1)) =~= texts(more@.take(i as int)).push(more@[i as int]@));
        assert(texts(out@) =~= texts(old(out)@) + texts(more@.take(i + 1)));
        i += 1;
    }
    assert(more@.take(more.len() as int) =~= more@);
}

impl Target {
    /// Lists the files whose times `is_up_to_date` looks at.
    pub fn probe_paths(&self, makefile: &Makefile) -> (r: Vec<String>)
        ensures
            texts(r@) == paths_to_probe(self@, makefile@),
    {
        let mut out = clone_strings(self.outputs());
        append_strings(&mut out, self.file_dependencies());
        let deps = self.target_dependencies();
        let ghost own = self@.outputs + self@.file_dependencies;
        let mut i: usize = 0;
        assert(own + dependency_outputs(self@.target_dependencies, makefile@, 0) == paths_to_probe(
            self@,
            makefile@,
        ));
        while i < deps.len()
            invariant
                i <= deps.len(),
                texts(deps@) == self@.target_dependencies,
                texts(out@) + dependency_outputs(self@.target_dependencies, makefile@, i as int)
                    == paths_to_probe(self@, makefile@),
            decreases deps.len() - i,
        {
            let ghost before = texts(out@);
            let ghost rest = dependency_outputs(self@.target_dependencies, makefile@, i + 1);
            assert(self@.target_dependencies[i as int] == deps@[i as int]@);
            match makefile.get_target(deps[i].as_str()) {
                Some(dependency) => {
                    append_strings(&mut out, dependency.outputs());
                    assert(before + (dependency@.outputs + rest) =~= texts(out@) + rest);
                },
                None => {
                    assert(before + (Seq::<Seq<char>>::empty() + rest) =~= texts(out@) + rest);
                },
            }
            i += 1;
        }
        assert(texts(out@) + Seq::<Seq<char>>::empty() =~= texts(out@));
        out
    }
}

/// A target of which a declared output is missing is never up to date.
pub proof fn law_missing_output_is_stale(
    t: TargetView,
    targets: Seq<TargetView>,
    clock: Map<Seq<char>, Stamp>,
    k: int,
)
    requires
        0 <= k < t.outputs.len(),
        stamp(clock, t.outputs[k]) is None,
    ensures
        !up_to_date(t, targets, clock),
{
    lemma_earliest(t.outputs, clock);
}

/// A target whose outputs are all there, each no older than every file it depends on and
/// than the earliest output of every target it depends on, is up to date.
pub proof fn law_fresh_is_up_to_date(t: TargetView, targets: Seq<TargetView>, clock: Map<Seq<char>, Stamp>)
    requires
        t.outputs.len() > 0,
        forall|o: int| 0 <= o < t.outputs.len() ==> stamp(clock, #[trigger] t.outputs[o]) is Some,
        forall|o: int, i: int|
            0 <= o < t.outputs.len() && 0 <= i < t.file_dependencies.len() ==> file_is_older(
                clock,
                #[trigger] t.file_dependencies[i],
                stamp(clock, #[trigger] t.outputs[o]).unwrap(),
            ),
        forall|o: int, i: int|
            0 <= o < t.outputs.len() && 0 <= i < t.target_dependencies.len() ==> target_is_older(
                targets,
                clock,
                #[trigger] t.target_dependencies[i],
                stamp(clock, #[trigger] t.outputs[o]).unwrap(),
            ),
    ensures
        up_to_date(t, targets, clock),
{
    lemma_earliest(t.outputs, clock);
}

/// A target with a file dependency that is newer than its earliest output is not up to date.
pub proof fn law_newer_file_is_stale(
    t: TargetView,
    targets: Seq<TargetView>,
    clock: Map<Seq<char>, Stamp>,
    i: int,
)
    requires
        0 <= i < t.file_dependencies.len(),
        earliest(t.outputs, clock) matches Some(built) && stamp(clock, t.file_dependencies[i]) matches Some(
            changed,
        ) && changed > built,
    ensures
        !up_to_date(t, targets, clock),
{
}

/// A target that depends on a target whose earliest output is newer than its own is not
/// up to date.
pub proof fn law_newer_target_is_stale(
    t: TargetView,
    targets: Seq<TargetView>,
    clock: Map<Seq<char>, Stamp>,
    i: int,
)
    requires
        0 <= i < t.target_dependencies.len(),
        earliest(t.outputs, clock) matches Some(built) && position(targets, t.target_dependencies[i]) matches Some(
            k,
        ) && earliest(targets[k].outputs, clock) matches Some(changed) && changed > built,
    ensures
        !up_to_date(t, targets, clock),
{
}

/// Two clocks that agree on every one of `paths` give them the same earliest time.
pub proof fn lemma_earliest_alike(
    paths: Seq<Seq<char>>,
    first: Map<Seq<char>, Stamp>,
    second: Map<Seq<char>, Stamp>,
)
    requires
        forall|i: int|
            0 <= i < paths.len() ==> stamp(first, #[trigger] paths[i]) == stamp(second, paths[i]),
    ensures
        earliest(paths, first) == earliest(paths, second),
    decreases paths.len(),
{
    if paths.len() > 1 {
        let front = paths.drop_last();
        assert forall|i: int| 0 <= i < front.len() implies stamp(first, #[trigger] front[i])
            == stamp(second, front[i]) by {
            assert(front[i] == paths[i]);
        }
        lemma_earliest_alike(front, first, second);
        assert(paths.last() == paths[paths.len() - 1]);
    } else if paths.len() == 1 {
        assert(stamp(first, paths[0]) == stamp(second, paths[0]));
    }
}

/// The outputs of each declared dependency are among `dependency_outputs`.
proof fn lemma_dependency_outputs_hold(
    names: Seq<Seq<char>>,
    targets: Seq<TargetView>,
    from: int,
    i: int,
    o: int,
)
    requires
        0 <= from <= i < names.len(),
        position(targets, names[i]) matches Some(k) && 0 <= o < targets[k].outputs.len(),
    ensures
        dependency_outputs(names, targets, from).contains(
            targets[position(targets, names[i]).unwrap()].outputs[o],
        ),
    decreases names.len() - from,
{
    let wanted = targets[position(targets, names[i]).unwrap()].outputs[o];
    let here = match position(targets, names[from]) {
        Some(k) => targets[k].outputs,
        None => Seq::empty(),
    };
    let rest = dependency_outputs(names, targets, from + 1);
    if from == i {
        assert((here + rest)[o] == wanted);
    } else {
        lemma_dependency_outputs_hold(names, targets, from + 1, i, o);
        let at = choose|at: int| 0 <= at < rest.len() && rest[at] == wanted;
        assert((here + rest)[here.len() + at] == wanted);
    }
}

/// Whether a target is up to date is decided by the times of the files that
/// `paths_to_probe` lists: two clocks that agree on them give the same answer.
pub proof fn law_probed_files_decide(
    t: TargetView,
    targets: Seq<TargetView>,
    first: Map<Seq<char>, Stamp>,
    second: Map<Seq<char>, Stamp>,
)
    requires
        forall|p: int|
            0 <= p < paths_to_probe(t, targets).len() ==> stamp(
                first,
                #[trigger] paths_to_probe(t, targets)[p],
            ) == stamp(second, paths_to_probe(t, targets)[p]),
    ensures
        up_to_date(t, targets, first) == up_to_date(t, targets, second),
{
    let probed = paths_to_probe(t, targets);
    let outputs = t.outputs.len() as int;
    let files = t.file_dependencies.len() as int;
    assert forall|i: int| 0 <= i < outputs implies stamp(first, #[trigger] t.outputs[i]) == stamp(
        second,
        t.outputs[i],
    ) by {
        assert(probed[i] == t.outputs[i]);
    }
    lemma_earliest_alike(t.outputs, first, second);
    if let Some(built) = earliest(t.outputs, first) {
        assert forall|i: int| 0 <= i < files implies file_is_older(
            first,
            #[trigger] t.file_dependencies[i],
            built,
        ) == file_is_older(second, t.file_dependencies[i], built) by {
            assert(probed[outputs + i] == t.file_dependencies[i]);
        }
        assert forall|i: int| 0 <= i < t.target_dependencies.len() implies target_is_older(
            targets,
            first,
            #[trigger] t.target_dependencies[i],
            built,
        ) == target_is_older(targets, second, t.target_dependencies[i], built) by {
            if let Some(k) = position(targets, t.target_dependencies[i]) {
                let theirs = targets[k].outputs;
                assert forall|o: int| 0 <= o < theirs.len() implies stamp(first, #[trigger] theirs[o])
                    == stamp(second, theirs[o]) by {
                    lemma_dependency_outputs_hold(t.target_dependencies, targets, 0, i, o);
                    let rest = dependency_outputs(t.target_dependencies, targets, 0);
                    let at = choose|at: int| 0 <= at < rest.len() && rest[at] == theirs[o];
                    assert(probed[outputs + files + at] == theirs[o]);
                }
                lemma_earliest_alike(theirs, first, second);
            }
        }
    }
}

} // verus!
