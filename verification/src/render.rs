//! Rendering of the output document: the indented tree section, the
//! selection of files by extension, and the file contents section.

use vstd::prelude::*;
use crate::config::Config;
use crate::config::contains_string;
use crate::config::name_in;
use crate::walk::Entry;
use crate::walk::count_included;
use crate::walk::included;
use crate::walk::lemma_pruned_len;
use crate::walk::lemma_pruned_membership;
use crate::walk::pruned;
use crate::walk::prune_entries;

verus! {

/// The indentation prefix of a tree line: four spaces per level of depth.
pub open spec fn indent_spec(depth: nat) -> Seq<char>
    decreases depth,
{
    if depth == 0 {
        Seq::empty()
    } else {
        indent_spec((depth - 1) as nat) + "    "@
    }
}

/// One line of the tree section: the indentation for the entry's depth, the
/// branch marker, the entry's bare name, and a line break.
pub open spec fn tree_line_spec(e: Entry) -> Seq<char> {
    indent_spec(e.depth as nat) + "├── "@ + e.name@ + "\n"@
}

/// The whole tree section: one line per entry, in order.
pub open spec fn tree_text(s: Seq<Entry>) -> Seq<char>
    decreases s.len(),
{
    if s.len() == 0 {
        Seq::empty()
    } else {
        tree_text(s.drop_last()) + tree_line_spec(s.last())
    }
}

/// Renders the tree section line by line: one line per entry.
pub fn render_tree_lines(entries: &Vec<Entry>) -> (r: Vec<String>)
    ensures
        r@.len() == entries@.len(),
        forall|k: int| 0 <= k < entries@.len() ==> r@[k]@ == tree_line_spec(entries@[k]),
{
    let mut r: Vec<String> = Vec::new();
    let mut j: usize = 0;
    while j < entries.len()
        invariant
            j <= entries.len(),
            r@.len() == j,
            forall|k: int| 0 <= k < j ==> r@[k]@ == tree_line_spec(entries@[k]),
        decreases entries.len() - j,
    {
        let mut line = String::new();
        let depth = entries[j].depth;
        let mut t: usize = 0;
        while t < depth
            invariant
                t <= depth,
                line@ == indent_spec(t as nat),
            decreases depth - t,
        {
            line.append("    ");
            t += 1;
        }
        line.append("├── ");
        line.append(entries[j].name.as_str());
        line.append("\n");
        assert(line@ == tree_line_spec(entries@[j as int]));
        r.push(line);
        j += 1;
    }
    r
}

/// Renders the tree section as one text: the concatenation of its lines.
pub fn render_tree(entries: &Vec<Entry>) -> (r: String)
    ensures
        r@ == tree_text(entries@),
{
    let lines = render_tree_lines(entries);
    let mut r = String::new();
    let mut j: usize = 0;
    while j < lines.len()
        invariant
            j <= lines.len(),
            lines@.len() == entries@.len(),
            forall|k: int| 0 <= k < entries@.len() ==> lines@[k]@ == tree_line_spec(entries@[k]),
            r@ == tree_text(entries@.subrange(0, j as int)),
        decreases lines.len() - j,
    {
        r.append(lines[j].as_str());
        proof {
            let prefix = entries@.subrange(0, j + 1);
            assert(prefix.drop_last() =~= entries@.subrange(0, j as int));
            assert(prefix.last() == entries@[j as int]);
        }
        j += 1;
    }
    proof {
        assert(entries@.subrange(0, entries@.len() as int) =~= entries@);
    }
    r
}

/// The extension of a file name: the text after the final dot, or nothing
/// for a name without a dot.
pub open spec fn ext_of(name: Seq<char>) -> Option<Seq<char>>
    decreases name.len(),
{
    if name.len() == 0 {
        None
    } else if name.last() == '.' {
        Some(Seq::empty())
    } else {
        match ext_of(name.drop_last()) {
            Some(e) => Some(e.push(name.last())),
            None => None,
        }
    }
}

/// Splitting at the last dot agrees with the recursive definition: when the
/// dot at `i - 1` is the last one, the extension is everything after it.
proof fn lemma_ext_at_last_dot(name: Seq<char>, i: int)
    requires
        0 <= i <= name.len(),
        forall|k: int| i <= k < name.len() ==> name[k] != '.',
        i > 0 ==> name[i - 1] == '.',
    ensures
        i > 0 ==> ext_of(name) == Some(name.subrange(i, name.len() as int)),
        i == 0 ==> ext_of(name) is None,
    decreases name.len(),
{
    if name.len() == 0 {
    } else if name.last() == '.' {
        assert(i == name.len());
        assert(name.subrange(i, name.len() as int) =~= Seq::<char>::empty());
    } else {
        let shorter = name.drop_last();
        if i == 0 {
            lemma_ext_at_last_dot(shorter, 0);
        } else {
            assert(i < name.len());
            lemma_ext_at_last_dot(shorter, i);
            assert(shorter.subrange(i, shorter.len() as int) =~= name.subrange(
                i,
                name.len() - 1,
            ));
            assert(name.subrange(i, name.len() - 1).push(name.last()) =~= name.subrange(
                i,
                name.len() as int,
            ));
        }
    }
}

/// The extension of the file name `name`: the text after the final dot, or
/// `None` for a name without a dot.
pub fn extension_of(name: &str) -> (r: Option<String>)
    ensures
        r.deep_view() == ext_of(name@),
{
    let n = name.unicode_len();
    let mut i: usize = n;
    let mut found = false;
    while !found && i > 0
        invariant
            i <= n,
            n == name@.len(),
            forall|k: int| i <= k < n ==> name@[k] != '.',
            found ==> i >= 1 && name@[i - 1] == '.',
        decreases i, (if found {
            0int
        } else {
            1int
        }),
    {
        if name.get_char(i - 1) == '.' {
            found = true;
        } else {
            i -= 1;
        }
    }
    proof {
        lemma_ext_at_last_dot(name@, i as int);
    }
    if found {
        Some(name.substring_char(i, n).to_owned())
    } else {
        None
    }
}

/// A file is selected for the contents section iff it is a regular file and
/// its extension is one of the allowed ones.
pub open spec fn file_selected(e: Entry, exts: Seq<Seq<char>>) -> bool {
    e.is_file && match ext_of(e.name@) {
        Some(x) => name_in(x, exts),
        None => false,
    }
}

/// The selected files among `s`, in order.
pub open spec fn selected(s: Seq<Entry>, exts: Seq<Seq<char>>) -> Seq<Entry>
    decreases s.len(),
{
    if s.len() == 0 {
        Seq::empty()
    } else if file_selected(s.last(), exts) {
        selected(s.drop_last(), exts).push(s.last())
    } else {
        selected(s.drop_last(), exts)
    }
}

/// Keeps exactly the regular files whose extension is one of
/// `allowed_extensions`, in order.
pub fn select_files(entries: &Vec<Entry>, allowed_extensions: &Vec<String>) -> (r: Vec<Entry>)
    ensures
        r@ == selected(entries@, allowed_extensions.deep_view()),
{
    let ghost exts = allowed_extensions.deep_view();
    let mut r: Vec<Entry> = Vec::new();
    let mut j: usize = 0;
    while j < entries.len()
        invariant
            j <= entries.len(),
            exts == allowed_extensions.deep_view(),
            r@ == selected(entries@.subrange(0, j as int), exts),
        decreases entries.len() - j,
    {
        let take: bool = if entries[j].is_file {
            match extension_of(entries[j].name.as_str()) {
                Some(e) => contains_string(allowed_extensions, &e),
                None => false,
            }
        } else {
            false
        };
        assert(take == file_selected(entries@[j as int], exts));
        if take {
            r.push(entries[j].clone());
        }
        proof {
            let prefix = entries@.subrange(0, j + 1);
            assert(prefix.drop_last() =~= entries@.subrange(0, j as int));
            assert(prefix.last() == entries@[j as int]);
        }
        j += 1;
    }
    proof {
        assert(entries@.subrange(0, entries@.len() as int) =~= entries@);
    }
    r
}

/// No character of `t` is a line break.
pub open spec fn no_newlines(t: Seq<char>) -> bool {
    forall|k: int| 0 <= k < t.len() ==> t[k] != '\n'
}

/// The number of line breaks in `t`.
pub open spec fn newline_count(t: Seq<char>) -> int
    decreases t.len(),
{
    if t.len() == 0 {
        0
    } else {
        newline_count(t.drop_last()) + if t.last() == '\n' {
            1int
        } else {
            0int
        }
    }
}

proof fn lemma_newline_count_add(a: Seq<char>, b: Seq<char>)
    ensures
        newline_count(a + b) == newline_count(a) + newline_count(b),
    decreases b.len(),
{
    if b.len() == 0 {
        assert(a + b =~= a);
    } else {
        lemma_newline_count_add(a, b.drop_last());
        assert((a + b).drop_last() =~= a + b.drop_last());
        assert((a + b).last() == b.last());
    }
}

proof fn lemma_newline_count_none(t: Seq<char>)
    requires
        no_newlines(t),
    ensures
        newline_count(t) == 0,
    decreases t.len(),
{
    if t.len() > 0 {
        lemma_newline_count_none(t.drop_last());
    }
}

/// Each level of depth indents by exactly four spaces.
pub proof fn lemma_indent_len(depth: nat)
    ensures
        indent_spec(depth).len() == 4 * depth,
        forall|k: int| 0 <= k < 4 * depth ==> indent_spec(depth)[k] == ' ',
    decreases depth,
{
    reveal_strlit("    ");
    if depth > 0 {
        lemma_indent_len((depth - 1) as nat);
        assert forall|k: int| 0 <= k < 4 * depth implies indent_spec(depth)[k] == ' ' by {
            if k < 4 * (depth - 1) {
                assert(indent_spec(depth)[k] == indent_spec((depth - 1) as nat)[k]);
            } else {
                assert(indent_spec(depth)[k] == "    "@[k - 4 * (depth - 1)]);
            }
        }
    }
}

/// The indentation of a tree line is exactly four spaces per level of the
/// entry's depth: the line starts with `4 * depth` spaces and the branch
/// marker follows immediately.
pub proof fn lemma_tree_line_indent(e: Entry)
    ensures
        tree_line_spec(e).len() == 4 * e.depth + 4 + e.name@.len() + 1,
        forall|k: int| 0 <= k < 4 * e.depth ==> tree_line_spec(e)[k] == ' ',
        tree_line_spec(e)[4 * e.depth] == '├',
{
    reveal_strlit("├── ");
    reveal_strlit("\n");
    lemma_indent_len(e.depth as nat);
    assert forall|k: int| 0 <= k < 4 * e.depth implies tree_line_spec(e)[k] == ' ' by {
        assert(tree_line_spec(e)[k] == indent_spec(e.depth as nat)[k]);
    }
    assert(tree_line_spec(e)[4 * e.depth] == "├── "@[0]);
}

/// Every entry's tree line ends in exactly one line break, so the tree
/// section has exactly one line per entry: its line-break count equals the
/// number of entries rendered.
pub proof fn lemma_tree_text_newlines(t: Seq<Entry>)
    requires
        forall|j: int| 0 <= j < t.len() ==> no_newlines(#[trigger] t[j].name@),
    ensures
        newline_count(tree_text(t)) == t.len(),
    decreases t.len(),
{
    reveal_strlit("    ");
    reveal_strlit("├── ");
    reveal_strlit("\n");
    if t.len() > 0 {
        lemma_tree_text_newlines(t.drop_last());
        let e = t.last();
        lemma_indent_len(e.depth as nat);
        assert(no_newlines(indent_spec(e.depth as nat)));
        assert(no_newlines("├── "@));
        lemma_newline_count_none(indent_spec(e.depth as nat));
        lemma_newline_count_none("├── "@);
        lemma_newline_count_none(e.name@);
        assert(newline_count("\n"@) == 1) by {
            reveal_strlit("\n");
            assert("\n"@.len() == 1);
            assert("\n"@.last() == '\n');
            assert("\n"@.drop_last() =~= Seq::<char>::empty());
            assert(newline_count("\n"@.drop_last()) == 0);
        }
        lemma_newline_count_add(indent_spec(e.depth as nat), "├── "@);
        lemma_newline_count_add(indent_spec(e.depth as nat) + "├── "@, e.name@);
        lemma_newline_count_add(indent_spec(e.depth as nat) + "├── "@ + e.name@, "\n"@);
        assert(newline_count(tree_line_spec(e)) == 1);
        lemma_newline_count_add(tree_text(t.drop_last()), tree_line_spec(e));
    }
}

/// The tree section has exactly one line per entry that survives the
/// pruning: its line-break count is the number of included entries.
pub proof fn lemma_tree_section_line_count(s: Seq<Entry>, ign: Seq<Seq<char>>)
    requires
        forall|j: int| 0 <= j < s.len() ==> no_newlines(#[trigger] s[j].name@),
    ensures
        pruned(s, ign).len() == count_included(s, ign, s.len() as int),
        newline_count(tree_text(pruned(s, ign))) == count_included(s, ign, s.len() as int),
{
    lemma_pruned_len(s, ign);
    let t = pruned(s, ign);
    assert forall|j: int| 0 <= j < t.len() implies no_newlines(#[trigger] t[j].name@) by {
        lemma_pruned_membership(s, ign, j);
        let m = choose|m: int| 0 <= m < s.len() && included(s, ign, m) && t[j] == s[m];
        assert(no_newlines(s[m].name@));
    }
    lemma_tree_text_newlines(t);
}

proof fn lemma_selected_membership(t: Seq<Entry>, exts: Seq<Seq<char>>, p: int)
    requires
        0 <= p < selected(t, exts).len(),
    ensures
        exists|m: int|
            0 <= m < t.len() && file_selected(t[m], exts) && selected(t, exts)[p] == t[m],
    decreases t.len(),
{
    if t.len() > 0 {
        if file_selected(t.last(), exts) && p == selected(t.drop_last(), exts).len() {
            assert(selected(t, exts)[p] == t[t.len() - 1]);
        } else {
            lemma_selected_membership(t.drop_last(), exts, p);
            let m = choose|m: int|
                0 <= m < t.len() - 1 && file_selected(t.drop_last()[m], exts) && selected(
                    t.drop_last(),
                    exts,
                )[p] == t.drop_last()[m];
            assert(t.drop_last()[m] == t[m]);
            assert(selected(t, exts)[p] == t[m]);
        }
    }
}

proof fn lemma_selected_contains(t: Seq<Entry>, exts: Seq<Seq<char>>, j: int)
    requires
        0 <= j < t.len(),
        file_selected(t[j], exts),
    ensures
        exists|p: int| 0 <= p < selected(t, exts).len() && selected(t, exts)[p] == t[j],
    decreases t.len(),
{
    if j == t.len() - 1 {
        let p = selected(t.drop_last(), exts).len() as int;
        assert(selected(t, exts)[p] == t[j]);
    } else {
        assert(t.drop_last()[j] == t[j]);
        lemma_selected_contains(t.drop_last(), exts, j);
        let p = choose|p: int|
            0 <= p < selected(t.drop_last(), exts).len() && selected(t.drop_last(), exts)[p]
                == t.drop_last()[j];
        assert(selected(t, exts)[p] == t[j]);
    }
}

/// A file's contents block is in the contents section iff the file's
/// extension is one of the allowed ones: among entries with pairwise
/// distinct paths, entry `j` of the walk is selected iff it is a regular
/// file whose extension is allowed.
pub proof fn lemma_selected_iff_extension_allowed(t: Seq<Entry>, exts: Seq<Seq<char>>, j: int)
    requires
        0 <= j < t.len(),
        forall|a: int, b: int| 0 <= a < b < t.len() ==> t[a].path@ != t[b].path@,
    ensures
        (exists|p: int|
            0 <= p < selected(t, exts).len() && selected(t, exts)[p].path@ == t[j].path@)
            <==> file_selected(t[j], exts),
{
    if file_selected(t[j], exts) {
        lemma_selected_contains(t, exts, j);
        let p = choose|p: int|
            0 <= p < selected(t, exts).len() && selected(t, exts)[p] == t[j];
        assert(selected(t, exts)[p].path@ == t[j].path@);
    }
    if exists|p: int|
        0 <= p < selected(t, exts).len() && selected(t, exts)[p].path@ == t[j].path@ {
        let p = choose|p: int|
            0 <= p < selected(t, exts).len() && selected(t, exts)[p].path@ == t[j].path@;
        lemma_selected_membership(t, exts, p);
        let m = choose|m: int|
            0 <= m < t.len() && file_selected(t[m], exts) && selected(t, exts)[p] == t[m];
        if m != j {
            if m < j {
                assert(t[m].path@ != t[j].path@);
            } else {
                assert(t[j].path@ != t[m].path@);
            }
        }
    }
}

/// What came of the attempt to read one selected file.
pub enum ReadOutcome {
    /// The file was read; its full text.
    Text(String),
    /// The file could not be read; the reason, as text.
    Failed(String),
}

/// The header line that introduces one file's block in the contents section.
pub open spec fn header_spec(path: Seq<char>) -> Seq<char> {
    "\n=== File: "@ + path + " ===\n\n"@
}

/// One block of the contents section: the file's header, then either its
/// full text or a single line recording why it could not be read. A file
/// that could not be read still gets its header and an inline error; it
/// never ends the run.
pub open spec fn block_spec(e: Entry, out: ReadOutcome) -> Seq<char> {
    header_spec(e.path@) + match out {
        ReadOutcome::Text(c) => c@ + "\n"@,
        ReadOutcome::Failed(m) => "Error reading file: "@ + m@ + "\n"@,
    }
}

/// The whole contents section: one block per selected file, in order, with
/// `outs[k]` the outcome of reading `sel[k]`.
pub open spec fn contents_text(sel: Seq<Entry>, outs: Seq<ReadOutcome>) -> Seq<char>
    decreases sel.len(),
{
    if sel.len() == 0 {
        Seq::empty()
    } else {
        contents_text(sel.drop_last(), outs.drop_last()) + block_spec(sel.last(), outs.last())
    }
}

/// Renders the contents section for the selected files, given the outcome of
/// reading each.
pub fn render_contents(selected_files: &Vec<Entry>, outcomes: &Vec<ReadOutcome>) -> (r: String)
    requires
        selected_files@.len() == outcomes@.len(),
    ensures
        r@ == contents_text(selected_files@, outcomes@),
{
    let mut r = String::new();
    let mut j: usize = 0;
    while j < selected_files.len()
        invariant
            j <= selected_files.len(),
            selected_files@.len() == outcomes@.len(),
            r@ == contents_text(
                selected_files@.subrange(0, j as int),
                outcomes@.subrange(0, j as int),
            ),
        decreases selected_files.len() - j,
    {
        r.append("\n=== File: ");
        r.append(selected_files[j].path.as_str());
        r.append(" ===\n\n");
        match &outcomes[j] {
            ReadOutcome::Text(c) => {
                r.append(c.as_str());
                r.append("\n");
            },
            ReadOutcome::Failed(m) => {
                r.append("Error reading file: ");
                r.append(m.as_str());
                r.append("\n");
            },
        }
        proof {
            let sp = selected_files@.subrange(0, j + 1);
            let op = outcomes@.subrange(0, j + 1);
            assert(sp.drop_last() =~= selected_files@.subrange(0, j as int));
            assert(op.drop_last() =~= outcomes@.subrange(0, j as int));
            assert(sp.last() == selected_files@[j as int]);
            assert(op.last() == outcomes@[j as int]);
            assert(r@ =~= contents_text(sp, op));
        }
        j += 1;
    }
    proof {
        assert(selected_files@.subrange(0, selected_files@.len() as int) =~= selected_files@);
        assert(outcomes@.subrange(0, outcomes@.len() as int) =~= outcomes@);
    }
    r
}

/// The full output document: the title, the root line, the tree section of
/// the pruned walk, the contents header, and one block per selected file.
pub open spec fn document_spec(
    root: Seq<char>,
    entries: Seq<Entry>,
    ign: Seq<Seq<char>>,
    exts: Seq<Seq<char>>,
    outs: Seq<ReadOutcome>,
) -> Seq<char> {
    "Directory Tree and Code Contents\n\n"@ + "Root Directory: "@ + root + "\n\n"@ + tree_text(
        pruned(entries, ign),
    ) + "\nCode Contents:\n\n"@ + contents_text(selected(pruned(entries, ign), exts), outs)
}

/// Assembles the output document from the walked entries and the outcome of
/// reading each selected file (one outcome per selected file, in order; the
/// selected files are what `select_files` returns on the pruned walk).
pub fn build_document(config: &Config, entries: &Vec<Entry>, outcomes: &Vec<ReadOutcome>) -> (r:
    String)
    requires
        outcomes@.len() == selected(
            pruned(entries@, config.ignored_dirs.deep_view()),
            config.allowed_extensions.deep_view(),
        ).len(),
    ensures
        r@ == document_spec(
            config.root_path@,
            entries@,
            config.ignored_dirs.deep_view(),
            config.allowed_extensions.deep_view(),
            outcomes@,
        ),
{
    let mut doc = String::new();
    doc.append("Directory Tree and Code Contents\n\n");
    doc.append("Root Directory: ");
    doc.append(config.root_path.as_str());
    doc.append("\n\n");
    let pruned_entries = prune_entries(entries, &config.ignored_dirs);
    let tree = render_tree(&pruned_entries);
    doc.append(tree.as_str());
    doc.append("\nCode Contents:\n\n");
    let sel = select_files(&pruned_entries, &config.allowed_extensions);
    let contents = render_contents(&sel, outcomes);
    doc.append(contents.as_str());
    proof {
        assert(doc@ =~= document_spec(
            config.root_path@,
            entries@,
            config.ignored_dirs.deep_view(),
            config.allowed_extensions.deep_view(),
            outcomes@,
        ));
    }
    doc
}

/// Every selected file's header appears in the contents section, whether or
/// not the file could be read: a failed read still yields the header (with
/// an inline error after it) and the remaining files are still rendered.
pub proof fn lemma_every_file_headed(sel: Seq<Entry>, outs: Seq<ReadOutcome>, k: int)
    requires
        0 <= k < sel.len(),
        outs.len() == sel.len(),
    ensures
        exists|a: int|
            0 <= a && a + header_spec(sel[k].path@).len() <= contents_text(sel, outs).len()
                && #[trigger] contents_text(sel, outs).subrange(
                a,
                a + header_spec(sel[k].path@).len() as int,
            ) == header_spec(sel[k].path@),
    decreases sel.len(),
{
    let h = header_spec(sel[k].path@);
    let whole = contents_text(sel, outs);
    let front = contents_text(sel.drop_last(), outs.drop_last());
    if k == sel.len() - 1 {
        let a = front.len() as int;
        assert(whole.subrange(a, a + h.len() as int) =~= h);
        assert(0 <= a && a + h.len() <= whole.len() && whole.subrange(a, a + h.len() as int)
            == h);
    } else {
        assert(sel.drop_last()[k] == sel[k]);
        lemma_every_file_headed(sel.drop_last(), outs.drop_last(), k);
        let a = choose|a: int|
            0 <= a && a + h.len() <= front.len() && #[trigger] front.subrange(
                a,
                a + h.len() as int,
            ) == h;
        assert(whole.subrange(a, a + h.len() as int) =~= h);
        assert(0 <= a && a + h.len() <= whole.len() && whole.subrange(a, a + h.len() as int)
            == h);
    }
}

/// The output is a function of its inputs alone: identical walks,
/// configurations and read outcomes yield a byte-identical document.
/// Together with the exact result clause of `build_document`, re-running on
/// an unchanged filesystem reproduces the output exactly.
pub proof fn lemma_output_deterministic(
    root1: Seq<char>,
    entries1: Seq<Entry>,
    ign1: Seq<Seq<char>>,
    exts1: Seq<Seq<char>>,
    outs1: Seq<ReadOutcome>,
    root2: Seq<char>,
    entries2: Seq<Entry>,
    ign2: Seq<Seq<char>>,
    exts2: Seq<Seq<char>>,
    outs2: Seq<ReadOutcome>,
)
    requires
        root1 == root2,
        entries1 == entries2,
        ign1 == ign2,
        exts1 == exts2,
        outs1 == outs2,
    ensures
        document_spec(root1, entries1, ign1, exts1, outs1) == document_spec(
            root2,
            entries2,
            ign2,
            exts2,
            outs2,
        ),
{
}

} // verus!
