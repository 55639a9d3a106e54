//! Run configuration: root and output paths, the ignored directory names,
//! and the allowed file extensions, the latter two supplied as
//! comma-separated lists.

use vstd::prelude::*;

verus! {

/// True iff `name` is one of the strings in `set`.
pub open spec fn name_in(name: Seq<char>, set: Seq<Seq<char>>) -> bool {
    exists|i: int| 0 <= i < set.len() && set[i] == name
}

/// The segments of `s` split on commas. An input without a comma is a single
/// segment (the empty input is a single empty segment), and every comma ends
/// the current segment and begins a new, possibly empty, one.
pub open spec fn split_csv_spec(s: Seq<char>) -> Seq<Seq<char>>
    decreases s.len(),
{
    if s.len() == 0 {
        seq![Seq::<char>::empty()]
    } else if s[0] == ',' {
        seq![Seq::<char>::empty()] + split_csv_spec(s.drop_first())
    } else {
        let rest = split_csv_spec(s.drop_first());
        seq![seq![s[0]] + rest[0]] + rest.drop_first()
    }
}

/// Splitting at the first comma agrees with the recursive definition: the
/// text before it is the first segment and the remainder splits on its own.
proof fn lemma_split_at_first_comma(s: Seq<char>, i: int)
    requires
        0 <= i <= s.len(),
        forall|k: int| 0 <= k < i ==> s[k] != ',',
        i < s.len() ==> s[i] == ',',
    ensures
        i < s.len() ==> split_csv_spec(s) == seq![s.subrange(0, i)] + split_csv_spec(
            s.subrange(i + 1, s.len() as int),
        ),
        i == s.len() ==> split_csv_spec(s) == seq![s],
    decreases s.len(),
{
    if i == 0 {
        if i < s.len() {
            assert(s.subrange(0, 0) =~= Seq::<char>::empty());
            assert(s.drop_first() =~= s.subrange(1, s.len() as int));
        } else {
            assert(s =~= Seq::<char>::empty());
        }
    } else {
        let s1 = s.drop_first();
        lemma_split_at_first_comma(s1, i - 1);
        let rest = split_csv_spec(s1);
        if i < s.len() {
            assert(s1.subrange(0, i - 1) =~= s.subrange(1, i));
            assert(s1.subrange(i, s1.len() as int) =~= s.subrange(i + 1, s.len() as int));
            assert(rest == seq![s.subrange(1, i)] + split_csv_spec(
                s.subrange(i + 1, s.len() as int),
            ));
            assert(seq![s[0]] + rest[0] =~= s.subrange(0, i));
            assert(rest.drop_first() =~= split_csv_spec(s.subrange(i + 1, s.len() as int)));
            assert(split_csv_spec(s) =~= seq![s.subrange(0, i)] + split_csv_spec(
                s.subrange(i + 1, s.len() as int),
            ));
        } else {
            assert(rest == seq![s1]);
            assert(seq![s[0]] + rest[0] =~= s);
            assert(rest.drop_first() =~= Seq::<Seq<char>>::empty());
            assert(split_csv_spec(s) =~= seq![s]);
        }
    }
}

/// Splits `s` on commas into its segments.
pub fn split_csv(s: &str) -> (r: Vec<String>)
    ensures
        r.deep_view() == split_csv_spec(s@),
    decreases s@.len(),
{
    let n = s.unicode_len();
    let mut i: usize = 0;
    let mut found = false;
    while !found && i < n
        invariant
            i <= n,
            n == s@.len(),
            forall|k: int| 0 <= k < i ==> s@[k] != ',',
            found ==> i < n && s@[i as int] == ',',
        decreases n - i, (if found { 0int } else { 1int }),
    {
        if s.get_char(i) == ',' {
            found = true;
        } else {
            i += 1;
        }
    }
    proof {
        lemma_split_at_first_comma(s@, i as int);
    }
    if found {
        let seg = s.substring_char(0, i).to_owned();
        let tail_str = s.substring_char(i + 1, n);
        let mut tail = split_csv(tail_str);
        let mut r: Vec<String> = Vec::new();
        r.push(seg);
        r.append(&mut tail);
        assert(r.deep_view() =~= split_csv_spec(s@));
        r
    } else {
        let whole = s.to_owned();
        let mut r: Vec<String> = Vec::new();
        r.push(whole);
        assert(s@.subrange(0, s@.len() as int) =~= s@);
        assert(r.deep_view() =~= split_csv_spec(s@));
        r
    }
}

/// True iff `name` is one of the strings in `set`.
pub fn contains_string(set: &Vec<String>, name: &String) -> (r: bool)
    ensures
        r == name_in(name@, set.deep_view()),
{
    let mut i: usize = 0;
    while i < set.len()
        invariant
            i <= set.len(),
            forall|k: int| 0 <= k < i ==> set.deep_view()[k] != name@,
        decreases set.len() - i,
    {
        if set[i] == *name {
            assert(set.deep_view()[i as int] == name@);
            return true;
        }
        i += 1;
    }
    false
}

/// True iff the bare `name` is one of the configured `ignored_dirs`.
pub fn is_ignored(name: &String, ignored_dirs: &Vec<String>) -> (r: bool)
    ensures
        r == name_in(name@, ignored_dirs.deep_view()),
{
    contains_string(ignored_dirs, name)
}

/// The resolved, immutable run configuration.
pub struct Config {
    /// The directory the walk starts from, as text.
    pub root_path: String,
    /// Where the output document is to be written, as text.
    pub output_file: String,
    /// Bare directory names whose subtrees are skipped entirely.
    pub ignored_dirs: Vec<String>,
    /// File name extensions (no leading dot) whose files' contents are
    /// included in the output document.
    pub allowed_extensions: Vec<String>,
    /// Whether the caller should report progress as it works.
    pub verbose: bool,
}

impl Config {
    /// Builds the configuration from the raw option values; the ignored
    /// directory names and the allowed extensions arrive as comma-separated
    /// lists and are split here.
    pub fn new(
        root_path: String,
        output: String,
        ignored_dirs: String,
        extensions: String,
        verbose: bool,
    ) -> (c: Config)
        ensures
            c.root_path == root_path,
            c.output_file == output,
            c.ignored_dirs.deep_view() == split_csv_spec(ignored_dirs@),
            c.allowed_extensions.deep_view() == split_csv_spec(extensions@),
            c.verbose == verbose,
    {
        let ignored = split_csv(ignored_dirs.as_str());
        let allowed = split_csv(extensions.as_str());
        Config {
            root_path,
            output_file: output,
            ignored_dirs: ignored,
            allowed_extensions: allowed,
            verbose,
        }
    }
}

} // verus!
