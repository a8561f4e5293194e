//! Shader sources with `#include` directives.
//!
//! A source is text. A line that reads `#include "name"` and nothing else
//! stands for the file `name`, looked up beside the file that holds the line;
//! loading a source replaces each such line by the loaded text of that file. A
//! file is taken in only once: where it is named again, the line is dropped.
//!
//! Files are handed in as a table of paths and texts, so that loading itself
//! reads nothing. Paths are text with `/` between their components.

use vstd::prelude::*;

verus! {

/// One file of the table: its path and its text.
pub struct SourceFile {
    pub path: Vec<char>,
    pub code: Vec<char>,
}

/// A loaded source: its text with every inclusion expanded, and the paths of the
/// files that were taken in, in the order in which they were first named. No
/// path occurs twice.
pub struct Source {
    pub code: Vec<char>,
    pub included_paths: Vec<Vec<char>>,
}

/// A file that had to be taken in is not in the table.
pub struct Missing {
    /// The path of the file.
    pub path: Vec<char>,
}

/// The text of an expanded source beside the paths taken in for it, or the path
/// of the first file that is missing from the table.
pub type Expansion = Result<(Seq<char>, Seq<Seq<char>>), Seq<char>>;

/// White space, as Unicode defines it.
pub open spec fn is_space(c: char) -> bool {
    let u = c as u32;
    ||| 0x09 <= u <= 0x0D
    ||| u == 0x20
    ||| u == 0x85
    ||| u == 0xA0
    ||| u == 0x1680
    ||| 0x2000 <= u <= 0x200A
    ||| u == 0x2028
    ||| u == 0x2029
    ||| u == 0x202F
    ||| u == 0x205F
    ||| u == 0x3000
}

/// What a directive starts with: `#include "`.
pub open spec fn include_prefix() -> Seq<char> {
    seq!['#', 'i', 'n', 'c', 'l', 'u', 'd', 'e', ' ', '"']
}

/// Place of the first `mark` at or behind `from`, or the length of the text if
/// there is none.
pub open spec fn next_index(text: Seq<char>, mark: char, from: int) -> int
    decreases text.len() - from,
{
    if from >= text.len() {
        text.len() as int
    } else if text[from] == mark {
        from
    } else {
        next_index(text, mark, from + 1)
    }
}

/// A line, taken without its line feed, is a directive: it reads `#include "`,
/// then a name of at least one character that holds no white space, then `"`.
pub open spec fn is_directive(line: Seq<char>) -> bool {
    &&& line.len() >= 12
    &&& line.subrange(0, 10) == include_prefix()
    &&& line.last() == '"'
    &&& forall|i: int| 10 <= i < line.len() - 1 ==> !is_space(#[trigger] line[i])
}

/// The name that a directive holds between its quotes.
pub open spec fn directive_name(line: Seq<char>) -> Seq<char> {
    line.subrange(10, line.len() - 1)
}

/// Place of the last `/` of a path, or `-1` if it has none.
pub open spec fn last_separator(path: Seq<char>) -> int
    decreases path.len(),
{
    if path.len() == 0 {
        -1
    } else if path.last() == '/' {
        path.len() - 1
    } else {
        last_separator(path.drop_last())
    }
}

/// A path without its last component. A path of one component has the empty
/// parent; the root `/` is its own.
pub open spec fn parent(path: Seq<char>) -> Seq<char> {
    let cut = last_separator(path);
    if cut < 0 {
        Seq::empty()
    } else if cut == 0 {
        path.subrange(0, 1)
    } else {
        path.subrange(0, cut)
    }
}

/// A path with one more component.
pub open spec fn with_component(path: Seq<char>, name: Seq<char>) -> Seq<char> {
    if path.len() == 0 || path.last() == '/' {
        path + name
    } else {
        path.push('/') + name
    }
}

/// A path after one component of a name has been followed: `..` leads to the
/// parent, the empty component and `.` lead nowhere, any other component leads
/// one level down.
pub open spec fn follow(path: Seq<char>, component: Seq<char>) -> Seq<char> {
    if component.len() == 0 || component == seq!['.'] {
        path
    } else if component == seq!['.', '.'] {
        parent(path)
    } else {
        with_component(path, component)
    }
}

/// The path that a name leads to from a directory: the components of the name,
/// from place `from` on, followed one after the other. A name cannot leave the
/// directory by a root of its own: a leading `/` leads nowhere.
pub open spec fn joined(path: Seq<char>, name: Seq<char>, from: int) -> Seq<char>
    decreases name.len() - from,
{
    if from < 0 || from > name.len() {
        path
    } else {
        let end = next_index(name, '/', from);
        let next = follow(path, name.subrange(from, end));
        proof {
            lemma_next_index(name, '/', from);
        }
        if end >= name.len() {
            next
        } else {
            joined(next, name, end + 1)
        }
    }
}

/// Place in the table of the first file at or behind `from` that has the path.
pub open spec fn lookup(files: Seq<SourceFile>, path: Seq<char>, from: int) -> Option<int>
    decreases files.len() - from,
{
    if from < 0 || from >= files.len() {
        None
    } else if files[from].path@ == path {
        Some(from)
    } else {
        lookup(files, path, from + 1)
    }
}

/// Number of files among the first `upto` of the table whose path has not been
/// taken in.
pub open spec fn pending(files: Seq<SourceFile>, included: Seq<Seq<char>>, upto: int) -> nat
    decreases upto,
{
    if upto <= 0 {
        0
    } else {
        pending(files, included, upto - 1) + if included.contains(files[upto - 1].path@) {
            0nat
        } else {
            1nat
        }
    }
}

/// Taking in more paths leaves no more files pending.
pub proof fn lemma_pending_monotone(
    files: Seq<SourceFile>,
    fewer: Seq<Seq<char>>,
    more: Seq<Seq<char>>,
    upto: int,
)
    requires
        forall|p: Seq<char>| fewer.contains(p) ==> more.contains(p),
    ensures
        pending(files, more, upto) <= pending(files, fewer, upto),
    decreases upto,
{
    if upto > 0 {
        lemma_pending_monotone(files, fewer, more, upto - 1);
    }
}

/// Taking in the path of a file that was pending leaves fewer files pending.
pub proof fn lemma_pending_push(
    files: Seq<SourceFile>,
    included: Seq<Seq<char>>,
    k: int,
    upto: int,
)
    requires
        0 <= k < upto <= files.len(),
        !included.contains(files[k].path@),
    ensures
        pending(files, included.push(files[k].path@), upto) < pending(files, included, upto),
    decreases upto,
{
    let more = included.push(files[k].path@);
    assert forall|p: Seq<char>| included.contains(p) implies more.contains(p) by {
        let i = choose|i: int| 0 <= i < included.len() && included[i] == p;
        assert(more[i] == p);
    }
    assert(more[included.len() as int] == files[k].path@);
    if upto - 1 == k {
        lemma_pending_monotone(files, included, more, upto - 1);
    } else {
        lemma_pending_push(files, included, k, upto - 1);
    }
}

/// A file that is looked up and found has the path, and lies in the table.
pub proof fn lemma_lookup(files: Seq<SourceFile>, path: Seq<char>, from: int)
    requires
        0 <= from,
    ensures
        match lookup(files, path, from) {
            Some(k) => from <= k < files.len() && files[k].path@ == path && forall|j: int|
                from <= j < k ==> (#[trigger] files[j]).path@ != path,
            None => forall|j: int| from <= j < files.len() ==> (#[trigger] files[j]).path@ != path,
        },
    decreases files.len() - from,
{
    if from < files.len() && files[from].path@ != path {
        lemma_lookup(files, path, from + 1);
    }
}

/// An expansion with more text in front of it.
pub open spec fn prepend(front: Seq<char>, expansion: Expansion) -> Expansion {
    match expansion {
        Ok((code, included)) => Ok((front + code, included)),
        Err(path) => Err(path),
    }
}

/// The expansion of a text from place `from` on. `dir` is the directory of the
/// file that holds the text, `included` the paths taken in so far.
///
/// The text is read line by line. A line that is no directive, or that has no
/// line feed behind it, stays as it is. A directive names the file at
/// `joined(dir, name, 0)`. If that path has been taken in already, the line is
/// dropped. If not, the path is taken in and the line is replaced by the
/// expansion of the file, from which the rest of the text goes on. Where a file
/// that is named is not in the table there is no expansion: the first such path
/// is given in its place.
pub open spec fn expand_text(
    files: Seq<SourceFile>,
    dir: Seq<char>,
    text: Seq<char>,
    from: int,
    included: Seq<Seq<char>>,
) -> Expansion
    decreases pending(files, included, files.len() as int), text.len() - from,
{
    if from < 0 || from >= text.len() {
        Ok((Seq::empty(), included))
    } else {
        let end = next_index(text, '\n', from);
        proof {
            lemma_next_index(text, '\n', from);
        }
        if end >= text.len() {
            Ok((text.subrange(from, text.len() as int), included))
        } else if !is_directive(text.subrange(from, end)) {
            prepend(text.subrange(from, end + 1), expand_text(files, dir, text, end + 1, included))
        } else {
            let target = joined(dir, directive_name(text.subrange(from, end)), 0);
            if included.contains(target) {
                expand_text(files, dir, text, end + 1, included)
            } else {
                match lookup(files, target, 0) {
                    None => Err(target),
                    Some(k) => {
                        let taken = included.push(target);
                        proof {
                            lemma_lookup(files, target, 0);
                            lemma_pending_push(files, included, k, files.len() as int);
                        }
                        match expand_text(files, parent(target), files[k].code@, 0, taken) {
                            Err(path) => Err(path),
                            Ok((inner, after)) => {
                                if pending(files, after, files.len() as int) <= pending(
                                    files,
                                    taken,
                                    files.len() as int,
                                ) {
                                    prepend(inner, expand_text(files, dir, text, end + 1, after))
                                } else {
                                    Err(target)
                                }
                            },
                        }
                    },
                }
            }
        }
    }
}

/// The expansion of the file at `path`, with nothing taken in before.
pub open spec fn expanded(files: Seq<SourceFile>, path: Seq<char>) -> Expansion {
    match lookup(files, path, 0) {
        None => Err(path),
        Some(k) => expand_text(files, parent(path), files[k].code@, 0, Seq::empty()),
    }
}

/// The place that [`next_index`] gives lies at or behind `from`, holds the mark
/// unless it is the end of the text, and no place between holds the mark.
pub proof fn lemma_next_index(text: Seq<char>, mark: char, from: int)
    requires
        0 <= from <= text.len(),
    ensures
        from <= next_index(text, mark, from) <= text.len(),
        next_index(text, mark, from) < text.len() ==> text[next_index(text, mark, from)] == mark,
        forall|i: int| from <= i < next_index(text, mark, from) ==> #[trigger] text[i] != mark,
    decreases text.len() - from,
{
    if from < text.len() && text[from] != mark {
        lemma_next_index(text, mark, from + 1);
    }
}

/// An expansion keeps every path that was taken in before it, takes no path in
/// twice, and leaves no more files pending.
#[verifier::rlimit(50)]
pub proof fn lemma_expand_grows(
    files: Seq<SourceFile>,
    dir: Seq<char>,
    text: Seq<char>,
    from: int,
    included: Seq<Seq<char>>,
)
    requires
        included.no_duplicates(),
    ensures
        match expand_text(files, dir, text, from, included) {
            Ok((code, after)) => {
                &&& after.no_duplicates()
                &&& forall|p: Seq<char>| included.contains(p) ==> after.contains(p)
                &&& pending(files, after, files.len() as int) <= pending(
                    files,
                    included,
                    files.len() as int,
                )
            },
            Err(_) => true,
        },
    decreases pending(files, included, files.len() as int), text.len() - from,
{
    let n = files.len() as int;
    if from < 0 || from >= text.len() {
    } else {
        let end = next_index(text, '\n', from);
        lemma_next_index(text, '\n', from);
        if end >= text.len() {
        } else if !is_directive(text.subrange(from, end)) {
            lemma_expand_grows(files, dir, text, end + 1, included);
        } else {
            let target = joined(dir, directive_name(text.subrange(from, end)), 0);
            if included.contains(target) {
                lemma_expand_grows(files, dir, text, end + 1, included);
            } else {
                match lookup(files, target, 0) {
                    None => {},
                    Some(k) => {
                        let taken = included.push(target);
                        lemma_lookup(files, target, 0);
                        lemma_pending_push(files, included, k, n);
                        assert(taken.no_duplicates());
                        assert forall|p: Seq<char>| included.contains(p) implies taken.contains(
                            p,
                        ) by {
                            let i = choose|i: int| 0 <= i < included.len() && included[i] == p;
                            assert(taken[i] == p);
                        }
                        lemma_expand_grows(files, parent(target), files[k].code@, 0, taken);
                        match expand_text(files, parent(target), files[k].code@, 0, taken) {
                            Err(_) => {},
                            Ok((inner, after)) => {
                                lemma_expand_grows(files, dir, text, end + 1, after);
                            },
                        }
                    },
                }
            }
        }
    }
}

/// The views of the paths of a list.
pub open spec fn paths(list: Seq<Vec<char>>) -> Seq<Seq<char>> {
    list.map_values(|path: Vec<char>| path@)
}

/// Tells whether a character is white space.
pub fn is_whitespace(c: char) -> (space: bool)
    ensures
        space == is_space(c),
{
    let u: u32 = c as u32;
    (0x09 <= u && u <= 0x0D) || u == 0x20 || u == 0x85 || u == 0xA0 || u == 0x1680 || (0x2000
        <= u && u <= 0x200A) || u == 0x2028 || u == 0x2029 || u == 0x202F || u == 0x205F || u
        == 0x3000
}

/// Finds the first `mark` at or behind `from`.
fn find(text: &Vec<char>, mark: char, from: usize) -> (end: usize)
    requires
        from <= text@.len(),
    ensures
        end == next_index(text@, mark, from as int),
        from <= end <= text@.len(),
{
    let mut end = from;
    while end < text.len() && text[end] != mark
        invariant
            from <= end <= text@.len(),
            next_index(text@, mark, from as int) == next_index(text@, mark, end as int),
        decreases text@.len() - end,
    {
        end = end + 1;
    }
    end
}

/// Tells whether two texts are the same.
fn same_text(a: &Vec<char>, b: &Vec<char>) -> (same: bool)
    ensures
        same == (a@ == b@),
{
    if a.len() != b.len() {
        return false;
    }
    let mut i: usize = 0;
    while i < a.len()
        invariant
            i <= a@.len(),
            a@.len() == b@.len(),
            forall|j: int| 0 <= j < i ==> a@[j] == b@[j],
        decreases a@.len() - i,
    {
        if a[i] != b[i] {
            return false;
        }
        i = i + 1;
    }
    assert(a@ =~= b@);
    true
}

/// Tells whether the line `text[from..end]` is a directive.
fn is_include(text: &Vec<char>, from: usize, end: usize) -> (directive: bool)
    requires
        from <= end <= text@.len(),
    ensures
        directive == is_directive(text@.subrange(from as int, end as int)),
{
    let ghost line = text@.subrange(from as int, end as int);
    if end - from < 12 {
        return false;
    }
    let prefix: [char; 10] = ['#', 'i', 'n', 'c', 'l', 'u', 'd', 'e', ' ', '"'];
    let mut i: usize = 0;
    while i < 10
        invariant
            i <= 10,
            from + 12 <= end <= text@.len(),
            line == text@.subrange(from as int, end as int),
            prefix@ == include_prefix(),
            forall|j: int| 0 <= j < i ==> line[j] == include_prefix()[j],
        decreases 10 - i,
    {
        if text[from + i] != prefix[i] {
            assert(line.subrange(0, 10)[i as int] != include_prefix()[i as int]);
            return false;
        }
        i = i + 1;
    }
    assert(line.subrange(0, 10) =~= include_prefix());
    if text[end - 1] != '"' {
        return false;
    }
    let mut i: usize = from + 10;
    while i < end - 1
        invariant
            from + 10 <= i <= end - 1,
            from + 12 <= end <= text@.len(),
            line == text@.subrange(from as int, end as int),
            forall|j: int| 10 <= j < i - from ==> !is_space(#[trigger] line[j]),
        decreases end - i,
    {
        if is_whitespace(text[i]) {
            assert(is_space(line[i - from]));
            return false;
        }
        i = i + 1;
    }
    true
}

/// The parent of a path. See [`parent`].
pub fn parent_of(path: &Vec<char>) -> (dir: Vec<char>)
    ensures
        dir@ == parent(path@),
{
    let mut cut: usize = path.len();
    assert(path@.take(path@.len() as int) =~= path@);
    while cut > 0 && path[cut - 1] != '/'
        invariant
            cut <= path@.len(),
            last_separator(path@) == last_separator(path@.take(cut as int)),
        decreases cut,
    {
        proof {
            let front = path@.take(cut as int);
            assert(front.drop_last() =~= path@.take(cut - 1));
        }
        cut = cut - 1;
    }
    // Here `cut` is one more than the place of the last separator, or zero.
    let keep: usize = if cut == 0 {
        0
    } else if cut == 1 {
        1
    } else {
        cut - 1
    };
    let mut dir: Vec<char> = Vec::new();
    let mut i: usize = 0;
    while i < keep
        invariant
            i <= keep <= path@.len(),
            dir@ == path@.subrange(0, i as int),
        decreases keep - i,
    {
        dir.push(path[i]);
        assert(dir@ =~= path@.subrange(0, i + 1));
        i = i + 1;
    }
    proof {
        let front = path@.take(cut as int);
        if cut > 0 {
            assert(front.last() == '/');
        }
        assert(dir@ =~= parent(path@));
    }
    dir
}

/// Follows one component, `name[from..end]`, from a path. See [`follow`].
fn follow_component(path: Vec<char>, name: &Vec<char>, from: usize, end: usize) -> (next: Vec<char>)
    requires
        from <= end <= name@.len(),
    ensures
        next@ == follow(path@, name@.subrange(from as int, end as int)),
{
    let ghost component = name@.subrange(from as int, end as int);
    let count = end - from;
    if count == 0 || (count == 1 && name[from] == '.') {
        proof {
            if count == 1 {
                assert(component =~= seq!['.']);
            }
        }
        return path;
    }
    if count == 2 && name[from] == '.' && name[from + 1] == '.' {
        assert(component =~= seq!['.', '.']);
        return parent_of(&path);
    }
    proof {
        if component == seq!['.'] {
            assert(component[0] == '.');
        }
        if component == seq!['.', '.'] {
            assert(component[0] == '.' && component[1] == '.');
        }
    }
    let mut next = path;
    let ghost start = next@;
    if next.len() > 0 && next[next.len() - 1] != '/' {
        next.push('/');
    }
    let ghost base = next@;
    let mut i: usize = from;
    while i < end
        invariant
            from <= i <= end <= name@.len(),
            next@ == base + name@.subrange(from as int, i as int),
        decreases end - i,
    {
        next.push(name[i]);
        assert(next@ =~= base + name@.subrange(from as int, i + 1));
        i = i + 1;
    }
    next
}

/// The path that a name leads to from a directory: each component of the name
/// is followed in turn. `..` leads to the parent, `.` and the empty component
/// lead nowhere, and so does a leading `/`.
pub fn safe_join(left: &Vec<char>, right: &Vec<char>) -> (path: Vec<char>)
    ensures
        path@ == joined(left@, right@, 0),
{
    let mut path = left.clone();
    assert(path@ =~= left@);
    let mut from: usize = 0;
    loop
        invariant_except_break
            from <= right@.len(),
            joined(path@, right@, from as int) == joined(left@, right@, 0),
        ensures
            path@ == joined(left@, right@, 0),
        decreases right@.len() - from,
    {
        let end = find(right, '/', from);
        path = follow_component(path, right, from, end);
        if end >= right.len() {
            break ;
        }
        from = end + 1;
    }
    path
}

/// Finds the first file of the table that has the path.
fn find_file(files: &Vec<SourceFile>, path: &Vec<char>) -> (found: Option<usize>)
    ensures
        match found {
            Some(k) => lookup(files@, path@, 0) == Some(k as int) && k < files@.len(),
            None => lookup(files@, path@, 0) is None,
        },
{
    let mut k: usize = 0;
    while k < files.len()
        invariant
            k <= files@.len(),
            lookup(files@, path@, 0) == lookup(files@, path@, k as int),
        decreases files@.len() - k,
    {
        if same_text(&files[k].path, path) {
            return Some(k);
        }
        k = k + 1;
    }
    None
}

/// Tells whether a path is in a list.
fn contains_path(list: &Vec<Vec<char>>, path: &Vec<char>) -> (found: bool)
    ensures
        found == paths(list@).contains(path@),
{
    let mut i: usize = 0;
    while i < list.len()
        invariant
            i <= list@.len(),
            forall|j: int| 0 <= j < i ==> paths(list@)[j] != path@,
        decreases list@.len() - i,
    {
        if same_text(&list[i], path) {
            assert(paths(list@)[i as int] == path@);
            return true;
        }
        i = i + 1;
    }
    false
}

/// Puts `text[from..end]` behind what `out` holds.
fn copy_range(out: &mut Vec<char>, text: &Vec<char>, from: usize, end: usize)
    requires
        from <= end <= text@.len(),
    ensures
        final(out)@ == old(out)@ + text@.subrange(from as int, end as int),
{
    let mut i: usize = from;
    while i < end
        invariant
            from <= i <= end <= text@.len(),
            out@ == old(out)@ + text@.subrange(from as int, i as int),
        decreases end - i,
    {
        out.push(text[i]);
        assert(out@ =~= old(out)@ + text@.subrange(from as int, i + 1));
        i = i + 1;
    }
    assert(out@ =~= old(out)@ + text@.subrange(from as int, end as int));
}

/// Expands the file at place `k` of the table behind what `out` holds, taking
/// the paths it names into `included`. Where a file that has to be taken in is
/// not in the table, its path is returned, and what `out` and `included` hold
/// afterwards is of no use.
#[verifier::rlimit(50)]
fn expand_inclusions(
    files: &Vec<SourceFile>,
    k: usize,
    included: &mut Vec<Vec<char>>,
    out: &mut Vec<char>,
) -> (complete: Result<(), Missing>)
    requires
        k < files@.len(),
        paths(old(included)@).no_duplicates(),
    ensures
        match expand_text(
            files@,
            parent(files@[k as int].path@),
            files@[k as int].code@,
            0,
            paths(old(included)@),
        ) {
            Ok((code, after)) => complete is Ok && final(out)@ == old(out)@ + code && paths(
                final(included)@,
            ) == after,
            Err(path) => complete matches Err(missing) && missing.path@ == path,
        },
    decreases pending(files@, paths(old(included)@), files@.len() as int),
{
    let text = &files[k].code;
    let dir = parent_of(&files[k].path);
    let ghost n = files@.len() as int;
    let ghost start = paths(included@);
    let ghost goal = expand_text(files@, dir@, text@, 0, start);
    let ghost mut front: Seq<char> = Seq::empty();
    let mut from: usize = 0;
    assert(out@ =~= old(out)@ + front);
    while from < text.len()
        invariant
            from <= text@.len(),
            k < files@.len(),
            n == files@.len(),
            text@ == files@[k as int].code@,
            dir@ == parent(files@[k as int].path@),
            start == paths(old(included)@),
            goal == expand_text(files@, dir@, text@, 0, start),
            out@ == old(out)@ + front,
            paths(included@).no_duplicates(),
            pending(files@, paths(included@), n) <= pending(files@, start, n),
            prepend(front, expand_text(files@, dir@, text@, from as int, paths(included@))) == goal,
        decreases text@.len() - from,
    {
        let ghost taken_before = paths(included@);
        let end = find(text, '\n', from);
        proof {
            lemma_next_index(text@, '\n', from as int);
        }
        if end >= text.len() {
            copy_range(out, text, from, end);
            proof {
                let last = text@.subrange(from as int, text@.len() as int);
                assert(out@ =~= old(out)@ + (front + last));
                assert((front + last) + Seq::<char>::empty() =~= front + last);
                front = front + last;
            }
            from = end;
        } else if !is_include(text, from, end) {
            copy_range(out, text, from, end + 1);
            proof {
                let line = text@.subrange(from as int, end + 1);
                assert(out@ =~= old(out)@ + (front + line));
                match expand_text(files@, dir@, text@, end + 1, taken_before) {
                    Ok((code, after)) => {
                        assert((front + line) + code =~= front + (line + code));
                    },
                    Err(_) => {},
                }
                front = front + line;
            }
            from = end + 1;
        } else {
            let name = slice_of(text, from + 10, end - 1);
            let target = safe_join(&dir, &name);
            assert(name@ == directive_name(text@.subrange(from as int, end as int)));
            if contains_path(included, &target) {
                from = end + 1;
            } else {
                match find_file(files, &target) {
                    None => {
                        return Err(Missing { path: target });
                    },
                    Some(inner) => {
                        proof {
                            lemma_lookup(files@, target@, 0);
                            lemma_pending_push(files@, taken_before, inner as int, n);
                        }
                        included.push(target);
                        let ghost taken = paths(included@);
                        let ghost out_before = out@;
                        proof {
                            assert(taken =~= taken_before.push(files@[inner as int].path@));
                            lemma_expand_grows(
                                files@,
                                parent(files@[inner as int].path@),
                                files@[inner as int].code@,
                                0,
                                taken,
                            );
                        }
                        match expand_inclusions(files, inner, included, out) {
                            Err(missing) => {
                                return Err(missing);
                            },
                            Ok(()) => {},
                        }
                        proof {
                            let expansion = expand_text(
                                files@,
                                parent(files@[inner as int].path@),
                                files@[inner as int].code@,
                                0,
                                taken,
                            );
                            let code = match expansion {
                                Ok((code, _)) => code,
                                Err(_) => Seq::empty(),
                            };
                            assert(out@ =~= old(out)@ + (front + code));
                            match expand_text(files@, dir@, text@, end + 1, paths(included@)) {
                                Ok((rest, after)) => {
                                    assert((front + code) + rest =~= front + (code + rest));
                                },
                                Err(_) => {},
                            }
                            front = front + code;
                        }
                        from = end + 1;
                    },
                }
            }
        }
    }
    proof {
        assert(front + Seq::<char>::empty() =~= front);
    }
    Ok(())
}

/// A copy of `text[from..end]`.
fn slice_of(text: &Vec<char>, from: usize, end: usize) -> (part: Vec<char>)
    requires
        from <= end <= text@.len(),
    ensures
        part@ == text@.subrange(from as int, end as int),
{
    let mut part: Vec<char> = Vec::new();
    copy_range(&mut part, text, from, end);
    assert(part@ =~= text@.subrange(from as int, end as int));
    part
}

/// Loads the source at `path` from a table of files: its text with every
/// inclusion expanded, and the paths of the files that were taken in.
///
/// Where the file at `path`, or a file that has to be taken in, is not in the
/// table, there is no source, and the path of the first such file is returned.
/// The file at `path` itself is not among the paths taken in, unless a
/// directive names it.
pub fn load(path: &Vec<char>, files: &Vec<SourceFile>) -> (source: Result<Source, Missing>)
    ensures
        match source {
            Ok(loaded) => expanded(files@, path@) == Ok::<_, Seq<char>>(
                (loaded.code@, paths(loaded.included_paths@)),
            ) && paths(loaded.included_paths@).no_duplicates(),
            Err(missing) => expanded(files@, path@) == Err::<(Seq<char>, Seq<Seq<char>>), _>(
                missing.path@,
            ),
        },
{
    match find_file(files, path) {
        None => Err(Missing { path: path.clone() }),
        Some(k) => {
            let mut included_paths: Vec<Vec<char>> = Vec::new();
            let mut code: Vec<char> = Vec::new();
            proof {
                lemma_lookup(files@, path@, 0);
                assert(paths(included_paths@) =~= Seq::<Seq<char>>::empty());
                lemma_expand_grows(
                    files@,
                    parent(path@),
                    files@[k as int].code@,
                    0,
                    Seq::<Seq<char>>::empty(),
                );
            }
            match expand_inclusions(files, k, &mut included_paths, &mut code) {
                Ok(()) => {
                    assert(code@ =~= Seq::<char>::empty() + code@);
                    Ok(Source { code, included_paths })
                },
                Err(missing) => Err(missing),
            }
        },
    }
}

} // verus!
