use vstd::prelude::*;
use vstd::string::*;

verus! {

/// The classes of characters that the build description's grammar tells apart.
#[derive(Clone, Copy, Debug)]
pub enum CharClass {
    /// Blank, tab, line feed and carriage return.
    Space,
    /// ASCII letters and digits.
    Alnum,
    /// Anything but whitespace.
    Word,
    /// Anything but whitespace and the comma.
    Entry,
    /// Anything but the semicolon and the line feed.
    Statement,
    /// Anything but the given character.
    Except(char),
}

/// Whether `c` is whitespace: a blank, a tab, a line feed or a carriage return.
pub open spec fn is_space(c: char) -> bool {
    c == ' ' || c == '\t' || c == '\n' || c == '\r'
}

/// Whether `c` is an ASCII letter or digit.
pub open spec fn is_alnum(c: char) -> bool {
    ('a' <= c && c <= 'z') || ('A' <= c && c <= 'Z') || ('0' <= c && c <= '9')
}

impl CharClass {
    /// Whether `c` belongs to the class.
    pub open spec fn accepts(self, c: char) -> bool {
        match self {
            CharClass::Space => is_space(c),
            CharClass::Alnum => is_alnum(c),
            CharClass::Word => !is_space(c),
            CharClass::Entry => !is_space(c) && c != ',',
            CharClass::Statement => c != ';' && c != '\n',
            CharClass::Except(x) => c != x,
        }
    }

    /// Tells whether `c` belongs to the class.
    pub fn contains(&self, c: char) -> (r: bool)
        ensures
            r == self.accepts(c),
    {
        match *self {
            CharClass::Space => c == ' ' || c == '\t' || c == '\n' || c == '\r',
            CharClass::Alnum => ('a' <= c && c <= 'z') || ('A' <= c && c <= 'Z') || ('0' <= c
                && c <= '9'),
            CharClass::Word => !(c == ' ' || c == '\t' || c == '\n' || c == '\r'),
            CharClass::Entry => !(c == ' ' || c == '\t' || c == '\n' || c == '\r') && c != ',',
            CharClass::Statement => c != ';' && c != '\n',
            CharClass::Except(x) => c != x,
        }
    }
}

/// The characters of `s`, one by one.
pub fn characters(s: &str) -> (r: Vec<char>)
    ensures
        r@ == s@,
{
    let mut out: Vec<char> = Vec::new();
    for c in it: s.chars()
        invariant
            it.seq() == s@,
            out@ == it.seq().take(it.index()),
    {
        out.push(c);
    }
    out
}

/// What a list of strings holds: the characters of each, in order.
pub open spec fn texts(v: Seq<String>) -> Seq<Seq<char>> {
    v.map_values(|t: String| t@)
}

/// Where the run of `class` characters that starts at `i` ends, looking no further than `end`:
/// the first position from `i` on that is `end` or holds a character outside the class.
pub open spec fn run_end(s: Seq<char>, i: int, end: int, class: CharClass) -> int
    decreases end - i,
{
    if 0 <= i < end && end <= s.len() && class.accepts(s[i]) {
        run_end(s, i + 1, end, class)
    } else {
        i
    }
}

/// Where the text of `s[start..end)` ends once the whitespace at its tail is cut off.
pub open spec fn trim_end(s: Seq<char>, start: int, end: int) -> int
    decreases end - start,
{
    if 0 <= start < end && end <= s.len() && is_space(s[end - 1]) {
        trim_end(s, start, end - 1)
    } else {
        end
    }
}

/// Whether `word` stands in `s` at position `i`.
pub open spec fn has_at(s: Seq<char>, i: int, word: Seq<char>) -> bool {
    0 <= i && i + word.len() <= s.len() && s.subrange(i, i + word.len()) == word
}

/// A run ends between its start and the limit, holds characters of the class only, and
/// stops at the limit or before a character outside the class.
pub proof fn lemma_run_end_bounds(s: Seq<char>, i: int, end: int, class: CharClass)
    requires
        0 <= i <= end <= s.len(),
    ensures
        i <= run_end(s, i, end, class) <= end,
        i < end && class.accepts(s[i]) ==> i < run_end(s, i, end, class),
        forall|k: int| i <= k < run_end(s, i, end, class) ==> class.accepts(#[trigger] s[k]),
        run_end(s, i, end, class) < end ==> !class.accepts(s[run_end(s, i, end, class)]),
    decreases end - i,
{
    if i < end && class.accepts(s[i]) {
        lemma_run_end_bounds(s, i + 1, end, class);
    }
}

/// What is cut off at the tail is whitespace, and what is left does not end with any.
pub proof fn lemma_trim_end_bounds(s: Seq<char>, start: int, end: int)
    requires
        0 <= start <= end <= s.len(),
    ensures
        start <= trim_end(s, start, end) <= end,
        forall|k: int| trim_end(s, start, end) <= k < end ==> is_space(#[trigger] s[k]),
        start < trim_end(s, start, end) ==> !is_space(s[trim_end(s, start, end) - 1]),
    decreases end - start,
{
    if start < end && is_space(s[end - 1]) {
        lemma_trim_end_bounds(s, start, end - 1);
    }
}

/// The fields of `s[i..end)`: its maximal runs of `class` characters, each without the
/// whitespace around it, those left empty dropped, in the order in which they stand.
pub open spec fn fields(s: Seq<char>, i: int, end: int, class: CharClass) -> Seq<Seq<char>>
    decreases end - i,
    via fields_decreases
{
    if !(0 <= i < end && end <= s.len()) {
        Seq::empty()
    } else if !class.accepts(s[i]) {
        fields(s, i + 1, end, class)
    } else {
        let j = run_end(s, i, end, class);
        let a = run_end(s, i, j, CharClass::Space);
        let b = trim_end(s, a, j);
        if a < b {
            seq![s.subrange(a, b)] + fields(s, j, end, class)
        } else {
            fields(s, j, end, class)
        }
    }
}

/// A run that starts with a character of the class ends behind it.
#[via_fn]
proof fn fields_decreases(s: Seq<char>, i: int, end: int, class: CharClass) {
    if 0 <= i < end && end <= s.len() {
        lemma_run_end_bounds(s, i, end, class);
    }
}

/// A stretch that holds a character of the class that is no whitespace has a field.
pub proof fn lemma_fields_nonempty(s: Seq<char>, i: int, end: int, class: CharClass, k: int)
    requires
        0 <= i <= k < end <= s.len(),
        class.accepts(s[k]),
        !is_space(s[k]),
    ensures
        fields(s, i, end, class).len() > 0,
    decreases end - i,
{
    if !class.accepts(s[i]) {
        lemma_fields_nonempty(s, i + 1, end, class, k);
    } else {
        let j = run_end(s, i, end, class);
        lemma_run_end_bounds(s, i, end, class);
        if k < j {
            lemma_run_end_bounds(s, i, j, CharClass::Space);
            let a = run_end(s, i, j, CharClass::Space);
            lemma_trim_end_bounds(s, a, j);
        } else {
            lemma_fields_nonempty(s, j, end, class, k);
        }
    }
}

/// Every field holds a character, and starts and ends with one that is no whitespace.
pub proof fn law_fields_are_trimmed(s: Seq<char>, i: int, end: int, class: CharClass, n: int)
    requires
        0 <= i <= end <= s.len(),
        0 <= n < fields(s, i, end, class).len(),
    ensures
        fields(s, i, end, class)[n].len() > 0,
        !is_space(fields(s, i, end, class)[n].first()),
        !is_space(fields(s, i, end, class)[n].last()),
    decreases end - i,
{
    if !class.accepts(s[i]) {
        law_fields_are_trimmed(s, i + 1, end, class, n);
    } else {
        let j = run_end(s, i, end, class);
        lemma_run_end_bounds(s, i, end, class);
        lemma_run_end_bounds(s, i, j, CharClass::Space);
        let a = run_end(s, i, j, CharClass::Space);
        let b = trim_end(s, a, j);
        lemma_trim_end_bounds(s, a, j);
        if a < b {
            if n > 0 {
                law_fields_are_trimmed(s, j, end, class, n - 1);
            }
        } else {
            law_fields_are_trimmed(s, j, end, class, n);
        }
    }
}

/// Walks over the run of `class` characters that starts at `start`.
pub fn scan(chars: &Vec<char>, start: usize, end: usize, class: CharClass) -> (r: usize)
    requires
        start <= end <= chars.len(),
    ensures
        r == run_end(chars@, start as int, end as int, class),
        start <= r <= end,
{
    let mut j: usize = start;
    while j < end && class.contains(chars[j])
        invariant
            start <= j <= end <= chars.len(),
            run_end(chars@, start as int, end as int, class) == run_end(
                chars@,
                j as int,
                end as int,
                class,
            ),
        decreases end - j,
    {
        j += 1;
    }
    j
}

/// Walks back from `end` over the whitespace at the tail of `chars[start..end)`.
pub fn scan_back(chars: &Vec<char>, start: usize, end: usize) -> (r: usize)
    requires
        start <= end <= chars.len(),
    ensures
        r == trim_end(chars@, start as int, end as int),
        start <= r <= end,
{
    let mut j: usize = end;
    while j > start && CharClass::Space.contains(chars[j - 1])
        invariant
            start <= j <= end <= chars.len(),
            trim_end(chars@, start as int, end as int) == trim_end(chars@, start as int, j as int),
        decreases j - start,
    {
        j -= 1;
    }
    j
}

/// Tells whether `word` stands in `chars` at position `i`.
pub fn starts_at(chars: &Vec<char>, i: usize, word: &Vec<char>) -> (r: bool)
    requires
        i <= chars.len(),
    ensures
        r == has_at(chars@, i as int, word@),
{
    if word.len() > chars.len() - i {
        return false;
    }
    let mut k: usize = 0;
    while k < word.len()
        invariant
            i + word.len() <= chars.len(),
            k <= word.len(),
            chars@.subrange(i as int, i + k) == word@.take(k as int),
        decreases word.len() - k,
    {
        if chars[i + k] != word[k] {
            assert(chars@.subrange(i as int, i + word.len())[k as int] != word@[k as int]);
            return false;
        }
        assert(chars@.subrange(i as int, i + k + 1) =~= chars@.subrange(i as int, i + k).push(
            chars@[i + k],
        ));
        assert(word@.take(k + 1) =~= word@.take(k as int).push(word@[k as int]));
        k += 1;
    }
    assert(word@.take(word.len() as int) =~= word@);
    true
}

/// Cuts `chars[from..to)` into its fields. `input` is the text that `chars` spells.
pub fn split_fields(input: &str, chars: &Vec<char>, from: usize, to: usize, class: CharClass) -> (r:
    Vec<String>)
    requires
        input@ == chars@,
        from <= to <= chars.len(),
    ensures
        texts(r@) == fields(chars@, from as int, to as int, class),
{
    let mut out: Vec<String> = Vec::new();
    let mut i: usize = from;
    assert(texts(out@) =~= Seq::empty());
    while i < to
        invariant
            input@ == chars@,
            from <= i <= to <= chars.len(),
            fields(chars@, from as int, to as int, class) == texts(out@) + fields(
                chars@,
                i as int,
                to as int,
                class,
            ),
        decreases to - i,
    {
        if !class.contains(chars[i]) {
            i += 1;
        } else {
            let j = scan(chars, i, to, class);
            let a = scan(chars, i, j, CharClass::Space);
            let b = scan_back(chars, a, j);
            proof {
                lemma_run_end_bounds(chars@, i as int, to as int, class);
            }
            if a < b {
                let piece = input.substring_char(a, b).to_owned();
                let ghost before = out@;
                out.push(piece);
                assert(texts(out@) =~= texts(before) + seq![chars@.subrange(a as int, b as int)]);
            }
            i = j;
        }
    }
    out
}

} // verus!
