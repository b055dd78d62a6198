use crate::text::texts;
use vstd::prelude::*;
use vstd::string::*;

verus! {

/// A named build unit: the files it produces, what it depends on, and the command lines
/// that produce it.
#[derive(Debug)]
pub struct Target {
    name: String,
    outputs: Vec<String>,
    file_dependencies: Vec<String>,
    target_dependencies: Vec<String>,
    commands: Vec<String>,
}

/// What a target says, as plain sequences of characters.
pub ghost struct TargetView {
    pub name: Seq<char>,
    pub outputs: Seq<Seq<char>>,
    pub file_dependencies: Seq<Seq<char>>,
    pub target_dependencies: Seq<Seq<char>>,
    pub commands: Seq<Seq<char>>,
}

impl View for Target {
    type V = TargetView;

    closed spec fn view(&self) -> TargetView {
        TargetView {
            name: self.name@,
            outputs: texts(self.outputs@),
            file_dependencies: texts(self.file_dependencies@),
            target_dependencies: texts(self.target_dependencies@),
            commands: texts(self.commands@),
        }
    }
}

/// The outputs of a target named `name` that declares `declared`: a target that declares
/// none produces the file that bears its own name.
pub open spec fn outputs_or_name(name: Seq<char>, declared: Seq<Seq<char>>) -> Seq<Seq<char>> {
    if declared.len() == 0 {
        seq![name]
    } else {
        declared
    }
}

/// A copy of `v`.
pub fn clone_strings(v: &[String]) -> (r: Vec<String>)
    ensures
        texts(r@) == texts(v@),
{
    let mut out: Vec<String> = Vec::new();
    let mut i: usize = 0;
    while i < v.len()
        invariant
            i <= v.len(),
            out@.len() == i,
            forall|k: int| 0 <= k < i ==> (#[trigger] out@[k])@ == v@[k]@,
        decreases v.len() - i,
    {
        out.push(v[i].clone());
        i += 1;
    }
    assert(texts(out@) =~= texts(v@));
    out
}

impl Target {
    #[verifier::type_invariant]
    spec fn has_output(self) -> bool {
        self.outputs@.len() > 0
    }

    /// A target of the given name. One that is given no outputs produces the file that bears
    /// its name.
    pub fn new(
        name: String,
        outputs: Vec<String>,
        file_dependencies: Vec<String>,
        target_dependencies: Vec<String>,
        commands: Vec<String>,
    ) -> (r: Self)
        ensures
            r@ == (TargetView {
                name: name@,
                outputs: outputs_or_name(name@, texts(outputs@)),
                file_dependencies: texts(file_dependencies@),
                target_dependencies: texts(target_dependencies@),
                commands: texts(commands@),
            }),
    {
        let mut outputs = outputs;
        if outputs.len() == 0 {
            outputs.push(name.clone());
            assert(texts(outputs@) =~= seq![name@]);
        }
        Self { name, outputs, file_dependencies, target_dependencies, commands }
    }

    /// The name by which other targets depend on this one.
    pub fn name(&self) -> (r: &str)
        ensures
            r@ == self@.name,
    {
        self.name.as_str()
    }

    /// The files that the target produces; there is at least one.
    pub fn outputs(&self) -> (r: &[String])
        ensures
            texts(r@) == self@.outputs,
            r@.len() > 0,
    {
        proof {
            use_type_invariant(self);
        }
        self.outputs.as_slice()
    }

    /// The files that the target is made from.
    pub fn file_dependencies(&self) -> (r: &[String])
        ensures
            texts(r@) == self@.file_dependencies,
    {
        self.file_dependencies.as_slice()
    }

    /// The names of the targets that are built before this one.
    pub fn target_dependencies(&self) -> (r: &[String])
        ensures
            texts(r@) == self@.target_dependencies,
    {
        self.target_dependencies.as_slice()
    }

    /// The command lines that produce the target.
    pub fn commands(&self) -> (r: &[String])
        ensures
            texts(r@) == self@.commands,
    {
        self.commands.as_slice()
    }
}

/// The targets of one build description, in the order in which it declares them.
#[derive(Debug)]
pub struct Makefile {
    targets: Vec<Target>,
}

/// What a list of targets says.
pub open spec fn models(v: Seq<Target>) -> Seq<TargetView> {
    v.map_values(|t: Target| t@)
}

/// The place of the first of `targets`, from `i` on, that bears `name`.
pub open spec fn position_from(targets: Seq<TargetView>, name: Seq<char>, i: int) -> Option<int>
    decreases targets.len() - i,
{
    if !(0 <= i < targets.len()) {
        None
    } else if targets[i].name == name {
        Some(i)
    } else {
        position_from(targets, name, i + 1)
    }
}

/// The place of the first of `targets` that bears `name`.
pub open spec fn position(targets: Seq<TargetView>, name: Seq<char>) -> Option<int> {
    position_from(targets, name, 0)
}

/// `position_from` finds the first target of that name, and finds none only where none is.
pub proof fn lemma_position_from(targets: Seq<TargetView>, name: Seq<char>, i: int)
    requires
        0 <= i,
    ensures
        match position_from(targets, name, i) {
            Some(k) => i <= k < targets.len() && targets[k].name == name && forall|j: int|
                i <= j < k ==> (#[trigger] targets[j]).name != name,
            None => forall|j: int| i <= j < targets.len() ==> (#[trigger] targets[j]).name != name,
        },
    decreases targets.len() - i,
{
    if i < targets.len() && targets[i].name != name {
        lemma_position_from(targets, name, i + 1);
    }
}

impl View for Makefile {
    type V = Seq<TargetView>;

    closed spec fn view(&self) -> Seq<TargetView> {
        models(self.targets@)
    }
}

impl Makefile {
    pub(crate) fn from_targets(targets: Vec<Target>) -> (r: Self)
        ensures
            r@ == models(targets@),
    {
        Makefile { targets }
    }

    /// The declared targets, in the order of their declarations.
    pub fn get_targets(&self) -> (r: &Vec<Target>)
        ensures
            models(r@) == self@,
    {
        &self.targets
    }

    /// The first target that bears `name`.
    pub fn get_target(&self, name: &str) -> (r: Option<&Target>)
        ensures
            match position(self@, name@) {
                Some(k) => r.is_some() && r.unwrap()@ == self@[k],
                None => r.is_none(),
            },
            match r {
                Some(t) => t@.name == name@ && exists|k: int|
                    0 <= k < self@.len() && self@[k] == t@ && forall|j: int|
                        0 <= j < k ==> (#[trigger] self@[j]).name != name@,
                None => forall|j: int| 0 <= j < self@.len() ==> (#[trigger] self@[j]).name != name@,
            },
    {
        let wanted = name.to_owned();
        let mut i: usize = 0;
        while i < self.targets.len()
            invariant
                i <= self.targets.len(),
                wanted@ == name@,
                position(self@, name@) == position_from(self@, name@, i as int),
            decreases self.targets.len() - i,
        {
            if self.targets[i].name == wanted {
                proof {
                    lemma_position_from(self@, name@, 0);
                    assert(self@[i as int] == self.targets[i as int]@);
                }
                return Some(&self.targets[i]);
            }
            i += 1;
        }
        proof {
            lemma_position_from(self@, name@, 0);
        }
        None
    }
}

} // verus!
