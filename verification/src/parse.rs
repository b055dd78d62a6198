use crate::target::{models, outputs_or_name, Makefile, Target, TargetView};
use crate::text::{
    characters, fields, has_at, lemma_run_end_bounds, run_end, scan, split_fields, starts_at,
    texts, CharClass,
};
use vstd::prelude::*;
use vstd::string::*;

verus! {

/// Why a build description was turned down.
#[derive(Debug, Clone, Copy, PartialEq, Eq, Structural)]
pub enum ParseError {
    /// A declaration does not start with `target` and a name, or lacks its command block.
    InvalidTargetFormat,
    /// The bracketed dependency block, or the end of an `outputs(` clause, is missing.
    InvalidTargetHeader,
    /// The dependency block does not hold `files(..)` followed by `targets(..)`.
    InvalidDependencyBlock,
    /// The source does not close as many braces as it opens.
    MismatchedBraces,
}

/// How often `c` occurs in `s` from position `i` on.
pub open spec fn occurrences(s: Seq<char>, i: int, c: char) -> nat
    decreases s.len() - i,
{
    if !(0 <= i < s.len()) {
        0
    } else if s[i] == c {
        1 + occurrences(s, i + 1, c)
    } else {
        occurrences(s, i + 1, c)
    }
}

/// Whether the source closes as many braces as it opens.
pub open spec fn balanced(s: Seq<char>) -> bool {
    occurrences(s, 0, '{') == occurrences(s, 0, '}')
}

/// The name of the declaration that starts at `i`, as the positions where it starts and
/// ends: the word `target`, whitespace, then letters and digits.
pub open spec fn name_at(s: Seq<char>, i: int) -> Option<(int, int)> {
    let a = i + "target"@.len();
    let w = run_end(s, a, s.len() as int, CharClass::Space);
    let e = run_end(s, w, s.len() as int, CharClass::Alnum);
    if !has_at(s, i, "target"@) || w == a || e == w {
        None
    } else {
        Some((w, e))
    }
}

/// The list that `word` opens at `i` and the next `)` closes, cut into fields of `class`,
/// with the position behind the `)`.
pub open spec fn list_at(s: Seq<char>, i: int, word: Seq<char>, class: CharClass) -> Option<
    (Seq<Seq<char>>, int),
> {
    let start = i + word.len();
    let close = run_end(s, start, s.len() as int, CharClass::Except(')'));
    if !has_at(s, i, word) || close >= s.len() {
        None
    } else {
        Some((fields(s, start, close, class), close + 1))
    }
}

/// Whether the name that ends at `e` is followed by an `outputs(` clause.
pub open spec fn declares_outputs(s: Seq<char>, e: int) -> bool {
    has_at(s, run_end(s, e, s.len() as int, CharClass::Space), "outputs("@)
}

/// The outputs declared behind the name that ends at `e`, and where the header goes on.
/// Without an `outputs(` clause none are declared.
pub open spec fn outputs_at(s: Seq<char>, e: int) -> Result<(Seq<Seq<char>>, int), ParseError> {
    let w = run_end(s, e, s.len() as int, CharClass::Space);
    if !declares_outputs(s, e) {
        Ok((Seq::empty(), e))
    } else {
        match list_at(s, w, "outputs("@, CharClass::Word) {
            Some(found) => Ok(found),
            None => Err(ParseError::InvalidTargetHeader),
        }
    }
}

/// The dependency block from `p` on: `[`, `files(..)`, `targets(..)`, `]`, with whitespace
/// between them as it comes. Gives the files, the targets and the position behind the `]`.
pub open spec fn dependencies_at(s: Seq<char>, p: int) -> Result<
    (Seq<Seq<char>>, Seq<Seq<char>>, int),
    ParseError,
> {
    let len = s.len() as int;
    let lb = run_end(s, p, len, CharClass::Space);
    if !(lb < len && s[lb] == '[') {
        Err(ParseError::InvalidTargetHeader)
    } else {
        match list_at(s, run_end(s, lb + 1, len, CharClass::Space), "files("@, CharClass::Word) {
            None => Err(ParseError::InvalidDependencyBlock),
            Some((files, g)) => match list_at(
                s,
                run_end(s, g, len, CharClass::Space),
                "targets("@,
                CharClass::Entry,
            ) {
                None => Err(ParseError::InvalidDependencyBlock),
                Some((deps, h)) => {
                    let rb = run_end(s, h, len, CharClass::Space);
                    if !(rb < len && s[rb] == ']') {
                        Err(ParseError::InvalidTargetHeader)
                    } else {
                        Ok((files, deps, rb + 1))
                    }
                },
            },
        }
    }
}

/// The command block from `q` on: `{`, then everything up to the next `}`, cut into
/// command lines at semicolons and line ends. Gives the lines and the position behind the `}`.
pub open spec fn commands_at(s: Seq<char>, q: int) -> Option<(Seq<Seq<char>>, int)> {
    let len = s.len() as int;
    let lb = run_end(s, q, len, CharClass::Space);
    let close = run_end(s, lb + 1, len, CharClass::Except('}'));
    if !(lb < len && s[lb] == '{') || close >= len {
        None
    } else {
        Some((fields(s, lb + 1, close, CharClass::Statement), close + 1))
    }
}

/// A declaration as read: the target it declares and the position behind it.
pub ghost struct Declaration {
    pub target: TargetView,
    pub next: int,
}

/// The declaration that starts at `i`.
pub open spec fn declaration_at(s: Seq<char>, i: int) -> Result<Declaration, ParseError> {
    match name_at(s, i) {
        None => Err(ParseError::InvalidTargetFormat),
        Some((a, e)) => match outputs_at(s, e) {
            Err(x) => Err(x),
            Ok((declared, p)) => match dependencies_at(s, p) {
                Err(x) => Err(x),
                Ok((files, deps, q)) => match commands_at(s, q) {
                    None => Err(ParseError::InvalidTargetFormat),
                    Some((lines, next)) => Ok(
                        Declaration {
                            target: TargetView {
                                name: s.subrange(a, e),
                                outputs: outputs_or_name(s.subrange(a, e), declared),
                                file_dependencies: files,
                                target_dependencies: deps,
                                commands: lines,
                            },
                            next,
                        },
                    ),
                },
            },
        },
    }
}

/// `done`, followed by what `rest` holds, unless `rest` is an error.
pub open spec fn followed_by(
    done: Seq<TargetView>,
    rest: Result<Seq<TargetView>, ParseError>,
) -> Result<Seq<TargetView>, ParseError> {
    match rest {
        Ok(more) => Ok(done + more),
        Err(e) => Err(e),
    }
}

/// The declarations from `i` to the end of the source, whitespace between them skipped.
/// The first one that is malformed makes the whole an error.
pub open spec fn declarations_from(s: Seq<char>, i: int) -> Result<Seq<TargetView>, ParseError>
    decreases s.len() - i,
    via declarations_decreases
{
    let j = run_end(s, i, s.len() as int, CharClass::Space);
    if !(0 <= i) || j >= s.len() {
        Ok(Seq::empty())
    } else {
        match declaration_at(s, j) {
            Err(e) => Err(e),
            Ok(d) => followed_by(seq![d.target], declarations_from(s, d.next)),
        }
    }
}

/// What follows a declaration starts behind the place where the declaration starts.
#[via_fn]
proof fn declarations_decreases(s: Seq<char>, i: int) {
    let j = run_end(s, i, s.len() as int, CharClass::Space);
    if 0 <= i && j < s.len() {
        if i <= s.len() {
            lemma_run_end_bounds(s, i, s.len() as int, CharClass::Space);
        }
        lemma_declaration_advances(s, j);
    }
}

/// What a build description declares: an error if its braces do not balance, else its
/// declarations from the start.
pub open spec fn parse_source(s: Seq<char>) -> Result<Seq<TargetView>, ParseError> {
    if !balanced(s) {
        Err(ParseError::MismatchedBraces)
    } else {
        declarations_from(s, 0)
    }
}

/// A list ends behind the place where it starts, and within the source.
proof fn lemma_list_advances(s: Seq<char>, i: int, word: Seq<char>, class: CharClass)
    requires
        list_at(s, i, word, class) is Some,
    ensures
        i < list_at(s, i, word, class).unwrap().1 <= s.len(),
{
    lemma_run_end_bounds(s, i + word.len(), s.len() as int, CharClass::Except(')'));
}

/// A declaration ends behind the place where it starts, and within the source.
pub proof fn lemma_declaration_advances(s: Seq<char>, i: int)
    requires
        0 <= i,
    ensures
        declaration_at(s, i) matches Ok(d) ==> i < d.next <= s.len(),
{
    let len = s.len() as int;
    if let Ok(d) = declaration_at(s, i) {
        let (a, e) = name_at(s, i).unwrap();
        lemma_run_end_bounds(s, i + "target"@.len(), len, CharClass::Space);
        lemma_run_end_bounds(s, run_end(s, i + "target"@.len(), len, CharClass::Space), len, CharClass::Alnum);
        let (declared, p) = outputs_at(s, e).unwrap();
        lemma_run_end_bounds(s, e, len, CharClass::Space);
        if declares_outputs(s, e) {
            lemma_list_advances(s, run_end(s, e, len, CharClass::Space), "outputs("@, CharClass::Word);
        }
        let (files, deps, q) = dependencies_at(s, p).unwrap();
        lemma_run_end_bounds(s, p, len, CharClass::Space);
        let lb = run_end(s, p, len, CharClass::Space);
        lemma_run_end_bounds(s, lb + 1, len, CharClass::Space);
        let f = run_end(s, lb + 1, len, CharClass::Space);
        lemma_list_advances(s, f, "files("@, CharClass::Word);
        let g = list_at(s, f, "files("@, CharClass::Word).unwrap().1;
        lemma_run_end_bounds(s, g, len, CharClass::Space);
        let t = run_end(s, g, len, CharClass::Space);
        lemma_list_advances(s, t, "targets("@, CharClass::Entry);
        let h = list_at(s, t, "targets("@, CharClass::Entry).unwrap().1;
        lemma_run_end_bounds(s, h, len, CharClass::Space);
        lemma_run_end_bounds(s, q, len, CharClass::Space);
        lemma_run_end_bounds(
            s,
            run_end(s, q, len, CharClass::Space) + 1,
            len,
            CharClass::Except('}'),
        );
    }
}

/// Counts the occurrences of `c`.
pub fn count_char(chars: &Vec<char>, c: char) -> (n: usize)
    ensures
        n == occurrences(chars@, 0, c),
{
    let mut n: usize = 0;
    let mut i: usize = 0;
    while i < chars.len()
        invariant
            n <= i <= chars.len(),
            n + occurrences(chars@, i as int, c) == occurrences(chars@, 0, c),
        decreases chars.len() - i,
    {
        if chars[i] == c {
            n += 1;
        }
        i += 1;
    }
    n
}

/// Reads the word `target` and the name behind it.
fn read_name(chars: &Vec<char>, i: usize) -> (r: Option<(usize, usize)>)
    requires
        i <= chars.len(),
    ensures
        match r {
            Some((a, e)) => name_at(chars@, i as int) == Some((a as int, e as int)) && i <= a < e
                <= chars.len(),
            None => name_at(chars@, i as int) is None,
        },
{
    let word = characters("target");
    if !starts_at(chars, i, &word) {
        return None;
    }
    let a = i + word.len();
    let w = scan(chars, a, chars.len(), CharClass::Space);
    let e = scan(chars, w, chars.len(), CharClass::Alnum);
    if w == a || e == w {
        None
    } else {
        Some((w, e))
    }
}

/// Reads the list that `word` opens at `i`.
fn read_list(input: &str, chars: &Vec<char>, i: usize, word: &str, class: CharClass) -> (r: Option<
    (Vec<String>, usize),
>)
    requires
        input@ == chars@,
        i <= chars.len(),
    ensures
        match r {
            Some((items, next)) => list_at(chars@, i as int, word@, class) == Some(
                (texts(items@), next as int),
            ) && i < next <= chars.len(),
            None => list_at(chars@, i as int, word@, class) is None,
        },
{
    let opening = characters(word);
    if !starts_at(chars, i, &opening) {
        return None;
    }
    let start = i + opening.len();
    let close = scan(chars, start, chars.len(), CharClass::Except(')'));
    if close >= chars.len() {
        None
    } else {
        Some((split_fields(input, chars, start, close, class), close + 1))
    }
}

/// Reads the `outputs(` clause behind the name that ends at `e`, if there is one.
fn read_outputs(input: &str, chars: &Vec<char>, e: usize) -> (r: Result<
    (Vec<String>, usize),
    ParseError,
>)
    requires
        input@ == chars@,
        e <= chars.len(),
    ensures
        match r {
            Ok((items, next)) => outputs_at(chars@, e as int) == Ok::<_, ParseError>(
                (texts(items@), next as int),
            ) && e <= next <= chars.len(),
            Err(x) => outputs_at(chars@, e as int) == Err::<(Seq<Seq<char>>, int), _>(x),
        },
{
    let w = scan(chars, e, chars.len(), CharClass::Space);
    let opening = characters("outputs(");
    if !starts_at(chars, w, &opening) {
        let none: Vec<String> = Vec::new();
        assert(texts(none@) =~= Seq::empty());
        return Ok((none, e));
    }
    match read_list(input, chars, w, "outputs(", CharClass::Word) {
        Some(found) => Ok(found),
        None => Err(ParseError::InvalidTargetHeader),
    }
}

/// Reads the dependency block from `p` on.
fn read_dependencies(input: &str, chars: &Vec<char>, p: usize) -> (r: Result<
    (Vec<String>, Vec<String>, usize),
    ParseError,
>)
    requires
        input@ == chars@,
        p <= chars.len(),
    ensures
        match r {
            Ok((files, deps, next)) => dependencies_at(chars@, p as int) == Ok::<_, ParseError>(
                (texts(files@), texts(deps@), next as int),
            ) && p < next <= chars.len(),
            Err(x) => dependencies_at(chars@, p as int) == Err::<
                (Seq<Seq<char>>, Seq<Seq<char>>, int),
                _,
            >(x),
        },
{
    let len = chars.len();
    let lb = scan(chars, p, len, CharClass::Space);
    if !(lb < len && chars[lb] == '[') {
        return Err(ParseError::InvalidTargetHeader);
    }
    let f = scan(chars, lb + 1, len, CharClass::Space);
    match read_list(input, chars, f, "files(", CharClass::Word) {
        None => Err(ParseError::InvalidDependencyBlock),
        Some((files, g)) => {
            let t = scan(chars, g, len, CharClass::Space);
            match read_list(input, chars, t, "targets(", CharClass::Entry) {
                None => Err(ParseError::InvalidDependencyBlock),
                Some((deps, h)) => {
                    let rb = scan(chars, h, len, CharClass::Space);
                    if !(rb < len && chars[rb] == ']') {
                        Err(ParseError::InvalidTargetHeader)
                    } else {
                        Ok((files, deps, rb + 1))
                    }
                },
            }
        },
    }
}

/// Reads the command block from `q` on.
fn read_commands(input: &str, chars: &Vec<char>, q: usize) -> (r: Option<(Vec<String>, usize)>)
    requires
        input@ == chars@,
        q <= chars.len(),
    ensures
        match r {
            Some((lines, next)) => commands_at(chars@, q as int) == Some(
                (texts(lines@), next as int),
            ) && q < next <= chars.len(),
            None => commands_at(chars@, q as int) is None,
        },
{
    let len = chars.len();
    let lb = scan(chars, q, len, CharClass::Space);
    if !(lb < len && chars[lb] == '{') {
        return None;
    }
    let close = scan(chars, lb + 1, len, CharClass::Except('}'));
    if close >= len {
        None
    } else {
        Some((split_fields(input, chars, lb + 1, close, CharClass::Statement), close + 1))
    }
}

/// Reads the declaration that starts at `i`. `input` is the text that `chars` spells.
pub fn read_declaration(input: &str, chars: &Vec<char>, i: usize) -> (r: Result<
    (Target, usize),
    ParseError,
>)
    requires
        input@ == chars@,
        i <= chars.len(),
    ensures
        match r {
            Ok((target, next)) => declaration_at(chars@, i as int) == Ok::<_, ParseError>(
                Declaration { target: target@, next: next as int },
            ) && i < next <= chars.len(),
            Err(x) => declaration_at(chars@, i as int) == Err::<Declaration, _>(x),
        },
{
    let (a, e) = match read_name(chars, i) {
        None => { return Err(ParseError::InvalidTargetFormat); },
        Some(found) => found,
    };
    let (declared, p) = match read_outputs(input, chars, e) {
        Err(x) => { return Err(x); },
        Ok(found) => found,
    };
    let (files, deps, q) = match read_dependencies(input, chars, p) {
        Err(x) => { return Err(x); },
        Ok(found) => found,
    };
    let (lines, next) = match read_commands(input, chars, q) {
        None => { return Err(ParseError::InvalidTargetFormat); },
        Some(found) => found,
    };
    let name = input.substring_char(a, e).to_owned();
    Ok((Target::new(name, declared, files, deps, lines), next))
}

impl Makefile {
    /// Reads a build description. Either every declaration in it is well formed and the
    /// result holds them all, in order, or the result is the error that was met first.
    pub fn from_str(input: &str) -> (r: Result<Makefile, ParseError>)
        ensures
            match parse_source(input@) {
                Ok(targets) => r matches Ok(m) && m@ == targets,
                Err(e) => r matches Err(x) && x == e,
            },
    {
        let chars = characters(input);
        if count_char(&chars, '{') != count_char(&chars, '}') {
            return Err(ParseError::MismatchedBraces);
        }
        let len = chars.len();
        let mut targets: Vec<Target> = Vec::new();
        let mut i: usize = 0;
        assert(models(targets@) + Seq::<TargetView>::empty() =~= Seq::<TargetView>::empty());
        assert(followed_by(models(targets@), declarations_from(chars@, 0)) == declarations_from(
            chars@,
            0,
        )) by {
            if let Ok(more) = declarations_from(chars@, 0) {
                assert(models(targets@) + more =~= more);
            }
        }
        while i < len
            invariant
                input@ == chars@,
                balanced(chars@),
                len == chars.len(),
                i <= len,
                declarations_from(chars@, 0) == followed_by(
                    models(targets@),
                    declarations_from(chars@, i as int),
                ),
            decreases len - i,
        {
            let j = scan(&chars, i, len, CharClass::Space);
            if j >= len {
                assert(declarations_from(chars@, len as int) == Ok::<_, ParseError>(
                    Seq::<TargetView>::empty(),
                ));
                i = len;
            } else {
                match read_declaration(input, &chars, j) {
                    Err(e) => {
                        return Err(e);
                    },
                    Ok((target, next)) => {
                        let ghost before = models(targets@);
                        let ghost rest = declarations_from(chars@, next as int);
                        targets.push(target);
                        assert(models(targets@) =~= before.push(target@));
                        assert(followed_by(before, followed_by(seq![target@], rest))
                            == followed_by(models(targets@), rest)) by {
                            if let Ok(more) = rest {
                                assert(before + (seq![target@] + more) =~= before.push(target@)
                                    + more);
                            }
                        }
                        i = next;
                    },
                }
            }
        }
        assert(declarations_from(chars@, len as int) == Ok::<_, ParseError>(
            Seq::<TargetView>::empty(),
        ));
        assert(models(targets@) + Seq::<TargetView>::empty() =~= models(targets@));
        Ok(Makefile::from_targets(targets))
    }
}

/// Reads a build description; `None` where it is malformed.
pub fn parse_makefile(input: &str) -> (r: Option<Makefile>)
    ensures
        match parse_source(input@) {
            Ok(targets) => r matches Some(m) && m@ == targets,
            Err(_) => r is None,
        },
{
    match Makefile::from_str(input) {
        Ok(m) => Some(m),
        Err(_) => None,
    }
}

/// A target declared without an `outputs(` clause produces the file that bears its name,
/// and nothing else.
pub proof fn law_default_output(s: Seq<char>, i: int)
    requires
        declaration_at(s, i) is Ok,
        !declares_outputs(s, name_at(s, i).unwrap().1),
    ensures
        declaration_at(s, i).unwrap().target.outputs == seq![
            declaration_at(s, i).unwrap().target.name,
        ],
{
}

/// Whatever a declaration says of its outputs, the target has at least one.
pub proof fn law_outputs_nonempty(s: Seq<char>, i: int)
    requires
        declaration_at(s, i) is Ok,
    ensures
        declaration_at(s, i).unwrap().target.outputs.len() > 0,
{
}

/// The name of a declared target is not empty and holds ASCII letters and digits only.
pub proof fn law_names_are_alphanumeric(s: Seq<char>, i: int, k: int)
    requires
        0 <= i,
        declaration_at(s, i) is Ok,
        0 <= k < declaration_at(s, i).unwrap().target.name.len(),
    ensures
        CharClass::Alnum.accepts(declaration_at(s, i).unwrap().target.name[k]),
{
    let len = s.len() as int;
    let a = i + "target"@.len();
    lemma_run_end_bounds(s, a, len, CharClass::Space);
    lemma_run_end_bounds(s, run_end(s, a, len, CharClass::Space), len, CharClass::Alnum);
}

/// A source that does not close as many braces as it opens is turned down whole.
pub proof fn law_unbalanced_is_rejected(s: Seq<char>)
    requires
        !balanced(s),
    ensures
        parse_source(s) == Err::<Seq<TargetView>, _>(ParseError::MismatchedBraces),
{
}

} // verus!
