use crate::text::{
    char_is_alphanumeric, chars_of, contains_seq, find_chars, first_occurrence_from,
    is_alphanumeric, lemma_first_occurrence_bounds, lemma_split_on_not_empty, slice_from,
    split_chars, split_on, trim, trim_chars, vec_contains, vec_eq, views,
};
use vstd::prelude::*;

verus! {

/// The rows that a node spans (first and last), as the suppression check reads
/// a syntax range.
#[derive(Clone, Copy, Debug, PartialEq, Eq)]
pub struct RowRange {
    pub start_row: u32,
    pub end_row: u32,
}

/// A comment node: its text (`None` when its bytes do not read as text) and
/// the rows it spans.
#[derive(Clone, Debug)]
pub struct CommentNode {
    pub text: Option<String>,
    pub start_row: u32,
    pub end_row: u32,
}

/// One of the named nodes that follow a comment, in the order in which
/// repeatedly taking the next named node visits them.
#[derive(Clone, Debug)]
pub struct FollowingNode {
    pub is_comment: bool,
    pub text: Option<String>,
    pub start_row: u32,
}

/// The marker that a suppression comment holds.
pub open spec fn ignore_marker() -> Seq<char> {
    seq!['g', 'r', 'i', 't', '-', 'i', 'g', 'n', 'o', 'r', 'e']
}

/// The lines of `s` (`str::lines`): split at `\n`, a `\r` just before a `\n`
/// dropped, and no empty last line after a final line ending.
pub open spec fn lines(s: Seq<char>) -> Seq<Seq<char>> {
    let parts = split_on(s, '\n');
    let ended = parts.drop_last().map_values(
        |p: Seq<char>|
            if p.len() > 0 && p.last() == '\r' {
                p.drop_last()
            } else {
                p
            },
    );
    if parts.last().len() == 0 {
        ended
    } else {
        ended.push(parts.last())
    }
}

/// The lines of `s`.
pub fn lines_of(s: &Vec<char>) -> (r: Vec<Vec<char>>)
    ensures
        views(r@) == lines(s@),
{
    let parts = split_chars(s, '\n');
    proof {
        crate::text::lemma_split_on_not_empty(s@, '\n');
    }
    let mut r: Vec<Vec<char>> = Vec::new();
    let count = parts.len();
    let mut i: usize = 0;
    while i + 1 < count
        invariant
            count == parts@.len(),
            count >= 1,
            i + 1 <= count,
            views(parts@) == split_on(s@, '\n'),
            views(r@) == split_on(s@, '\n').drop_last().take(i as int).map_values(
                |p: Seq<char>|
                    if p.len() > 0 && p.last() == '\r' {
                        p.drop_last()
                    } else {
                        p
                    },
            ),
        decreases count - i,
    {
        let p = &parts[i];
        assert(p@ == split_on(s@, '\n')[i as int]);
        let piece = if p.len() > 0 && p[p.len() - 1] == '\r' {
            crate::text::slice_to(p, p.len() - 1)
        } else {
            crate::text::slice_to(p, p.len())
        };
        assert(p@.take(p@.len() as int) == p@);
        let ghost before = r@;
        r.push(piece);
        assert(split_on(s@, '\n').drop_last().take(i + 1) == split_on(s@, '\n').drop_last().take(
            i as int,
        ).push(split_on(s@, '\n')[i as int]));
        assert(views(r@) =~= views(before).push(piece@));
        i = i + 1;
    }
    assert(split_on(s@, '\n').drop_last().take(i as int) == split_on(s@, '\n').drop_last());
    let last = &parts[count - 1];
    assert(last@ == split_on(s@, '\n').last());
    if last.len() > 0 {
        let ghost before = r@;
        r.push(crate::text::slice_to(last, last.len()));
        assert(last@.take(last@.len() as int) == last@);
        assert(views(r@) =~= views(before).push(last@));
    }
    r
}

/// A comment's text asks to suppress findings of the pattern named `name`:
/// it holds the marker, and what follows the marker (up to a `:`, trimmed) is
/// empty, starts with a character that is neither alphanumeric nor `_`, or is
/// a comma-separated list with `name` among its trimmed entries.
pub open spec fn suppresses(text: Seq<char>, name: Option<Seq<char>>) -> bool {
    if !contains_seq(text, ignore_marker()) {
        false
    } else {
        let t = trim(text);
        match first_occurrence_from(t, ignore_marker(), 0) {
            None => true,
            Some(k) => {
                let after = t.skip(k + ignore_marker().len());
                let spec = trim(split_on(after, ':')[0]);
                if spec.len() == 0 || (!is_alphanumeric(spec[0]) && spec[0] != '_') {
                    true
                } else {
                    match name {
                        None => false,
                        Some(n) => {
                            let entries = split_on(spec, ',');
                            exists|i: int| 0 <= i < entries.len() && trim(#[trigger] entries[i]) == n
                        },
                    }
                }
            },
        }
    }
}

/// Walks the nodes after a comment, skipping comments and blank nodes, but
/// never past the last one; the index it stops at.
pub open spec fn applicable_index(following: Seq<FollowingNode>, i: int) -> int
    decreases following.len() - i,
{
    if i < 0 || i + 1 >= following.len() {
        i
    } else if !following[i].is_comment && (following[i].text matches Some(t) && trim(t@).len()
        > 0) {
        i
    } else {
        applicable_index(following, i + 1)
    }
}

/// The comment stands just before code that starts on the target's first row.
pub open spec fn comment_applies(following: Seq<FollowingNode>, target: RowRange) -> bool {
    following.len() > 0 && following[applicable_index(following, 0)].start_row == target.start_row
}

/// At most `count` elements of `s` from index `start` on.
pub open spec fn window<A>(s: Seq<A>, start: int, count: int) -> Seq<A> {
    if start >= s.len() {
        Seq::empty()
    } else if start + count >= s.len() {
        s.skip(start)
    } else {
        s.subrange(start, start + count)
    }
}

/// The source lines the comment spans hold exactly the comment's lines, up to
/// surrounding whitespace.
pub open spec fn occupies_entire_lines(
    source: Seq<char>,
    text: Seq<char>,
    start_row: int,
    end_row: int,
) -> bool {
    let w = window(lines(source), start_row, end_row - start_row + 1);
    let parts = split_on(text, '\n');
    &&& w.len() == parts.len()
    &&& forall|i: int| 0 <= i < parts.len() ==> trim(#[trigger] w[i]) == trim(parts[i])
}

/// What the suppression check decides (`None`: it panics, on a comment whose
/// last row comes before its first).
pub open spec fn suppression_outcome(
    comment: CommentNode,
    source: Seq<char>,
    target: RowRange,
    following: Seq<FollowingNode>,
    name: Option<Seq<char>>,
) -> Option<bool> {
    match comment.text {
        None => Some(false),
        Some(text) => {
            let inline = comment.end_row >= target.start_row && comment.end_row <= target.end_row;
            if inline {
                Some(suppresses(text@, name))
            } else if !comment_applies(following, target) {
                Some(false)
            } else if comment.end_row < comment.start_row {
                None
            } else if !occupies_entire_lines(
                source,
                text@,
                comment.start_row as int,
                comment.end_row as int,
            ) {
                Some(false)
            } else {
                Some(suppresses(text@, name))
            }
        },
    }
}

fn marker() -> (m: Vec<char>)
    ensures
        m@ == ignore_marker(),
{
    let text = "grit-ignore";
    proof {
        reveal_strlit("grit-ignore");
    }
    let m = chars_of(text);
    assert(m@ =~= ignore_marker());
    m
}

/// Whether `name` is among the comma-separated, trimmed entries of `list`.
fn name_listed(list: &Vec<char>, name: &Vec<char>) -> (r: bool)
    ensures
        r == exists|i: int|
            0 <= i < split_on(list@, ',').len() && trim(#[trigger] split_on(list@, ',')[i]) == name@,
{
    let entries = split_chars(list, ',');
    let mut i: usize = 0;
    while i < entries.len()
        invariant
            0 <= i <= entries@.len(),
            views(entries@) == split_on(list@, ','),
            forall|j: int| 0 <= j < i ==> trim(#[trigger] split_on(list@, ',')[j]) != name@,
        decreases entries@.len() - i,
    {
        assert(entries@[i as int]@ == split_on(list@, ',')[i as int]);
        let entry = trim_chars(&entries[i]);
        if vec_eq(&entry, name) {
            return true;
        }
        i = i + 1;
    }
    false
}

fn suppresses_exec(text: &Vec<char>, name: Option<Vec<char>>) -> (r: bool)
    ensures
        r == suppresses(text@, opt_chars(name)),
{
    let marker = marker();
    if !vec_contains(text, &marker) {
        return false;
    }
    let t = trim_chars(text);
    match find_chars(&t, &marker) {
        None => true,
        Some(k) => {
            proof {
                lemma_first_occurrence_bounds(t@, marker@, 0);
            }
            let tl = t.len();
            assert(k + marker@.len() <= tl);
            let after = slice_from(&t, k + marker.len());
            let parts = split_chars(&after, ':');
            proof {
                lemma_split_on_not_empty(after@, ':');
            }
            assert(parts@[0]@ == split_on(after@, ':')[0]);
            let spec = trim_chars(&parts[0]);
            if spec.len() == 0 || (!char_is_alphanumeric(spec[0]) && spec[0] != '_') {
                return true;
            }
            match name {
                None => false,
                Some(n) => name_listed(&spec, &n),
            }
        },
    }
}

/// The characters of an optional name.
pub open spec fn opt_chars(o: Option<Vec<char>>) -> Option<Seq<char>> {
    match o {
        Some(v) => Some(v@),
        None => None,
    }
}

/// The optional name as characters.
pub open spec fn opt_str(o: Option<&str>) -> Option<Seq<char>> {
    match o {
        Some(s) => Some(s@),
        None => None,
    }
}

fn text_is_blank(text: &Option<String>) -> (r: bool)
    ensures
        r == !(text matches Some(t) && trim(t@).len() > 0),
{
    match text {
        Some(t) => trim_chars(&chars_of(t.as_str())).len() == 0,
        None => true,
    }
}

/// Whether the comment stands just before code that starts on the target's
/// first row: walks the named nodes after the comment, skipping comments and
/// blank nodes (but never past the last one).
pub fn comment_applies_to_range(following: &[FollowingNode], range: RowRange) -> (r: bool)
    ensures
        r == comment_applies(following@, range),
{
    if following.len() == 0 {
        return false;
    }
    let n = following.len();
    let mut i: usize = 0;
    while i + 1 < n
        invariant
            n == following@.len(),
            n >= 1,
            i < n,
            applicable_index(following@, 0) == applicable_index(following@, i as int),
        ensures
            i < n,
            applicable_index(following@, 0) == i,
        decreases n - i,
    {
        if !following[i].is_comment && !text_is_blank(&following[i].text) {
            break;
        }
        i = i + 1;
    }
    following[i].start_row == range.start_row
}

/// Whether the source lines that the comment spans hold exactly its text, line
/// by line, up to surrounding whitespace.
pub fn comment_occupies_entire_line(text: &str, start_row: u32, end_row: u32, source: &str) -> (r: bool)
    requires
        start_row <= end_row,
    ensures
        r == occupies_entire_lines(source@, text@, start_row as int, end_row as int),
{
    let source_lines = lines_of(&chars_of(source));
    let parts = split_chars(&chars_of(text), '\n');
    let ghost ls = lines(source@);
    let ghost w = window(ls, start_row as int, end_row - start_row + 1);
    let n = source_lines.len();
    let start = start_row as usize;
    let span = (end_row - start_row) as u64;
    let w_len: usize = if start >= n {
        0
    } else if span >= (n - start) as u64 {
        n - start
    } else {
        (span + 1) as usize
    };
    assert(w.len() == w_len);
    assert forall|j: int| 0 <= j < w_len implies #[trigger] w[j] == ls[start + j] && start + j < ls.len() by {}
    if w_len != parts.len() {
        return false;
    }
    let mut i: usize = 0;
    while i < w_len
        invariant
            ls == lines(source@),
            views(source_lines@) == ls,
            views(parts@) == split_on(text@, '\n'),
            w_len == parts@.len(),
            w == window(ls, start_row as int, end_row - start_row + 1),
            w.len() == w_len,
            start == start_row,
            forall|j: int| 0 <= j < w_len ==> #[trigger] w[j] == ls[start + j] && start + j < ls.len(),
            n == ls.len(),
            0 <= i <= w_len,
            forall|j: int| 0 <= j < i ==> trim(#[trigger] w[j]) == trim(split_on(text@, '\n')[j]),
        decreases w_len - i,
    {
        assert(w[i as int] == ls[start + i]);
        assert(source_lines@[start + i]@ == ls[start + i]);
        assert(parts@[i as int]@ == split_on(text@, '\n')[i as int]);
        let a = trim_chars(&source_lines[start + i]);
        let b = trim_chars(&parts[i]);
        if !vec_eq(&a, &b) {
            return false;
        }
        i = i + 1;
    }
    true
}

/// Whether `comment` suppresses findings of the pattern `current_name` at
/// `target_range`: the comment must sit on the target's rows, or occupy whole
/// lines just before the code the target starts with; and its text must hold
/// the suppression marker with no list of names after it, or one that names
/// the pattern.
pub fn is_suppress_comment(
    comment: &CommentNode,
    source: &str,
    target_range: RowRange,
    following: &[FollowingNode],
    current_name: Option<&str>,
) -> (r: bool)
    requires
        suppression_outcome(*comment, source@, target_range, following@, opt_str(current_name))
            is Some,
    ensures
        suppression_outcome(*comment, source@, target_range, following@, opt_str(current_name))
            == Some(r),
{
    let text = match &comment.text {
        Some(text) => text,
        None => {
            return false;
        },
    };
    let inline_suppress = comment.end_row >= target_range.start_row && comment.end_row
        <= target_range.end_row;
    if !inline_suppress {
        let pre_suppress = comment_applies_to_range(following, target_range)
            && comment_occupies_entire_line(text.as_str(), comment.start_row, comment.end_row, source);
        if !pre_suppress {
            return false;
        }
    }
    let name = match current_name {
        Some(n) => Some(chars_of(n)),
        None => None,
    };
    suppresses_exec(&chars_of(text.as_str()), name)
}

proof fn lemma_trim_is_infix(s: Seq<char>) -> (ab: (int, int))
    ensures
        0 <= ab.0 <= ab.1 <= s.len(),
        trim(s) == s.subrange(ab.0, ab.1),
{
    let a = lemma_trim_start_skips(s);
    let u = s.skip(a);
    let b = lemma_trim_end_takes(u);
    assert(u.take(b) =~= s.subrange(a, a + b));
    (a, a + b)
}

proof fn lemma_trim_start_skips(s: Seq<char>) -> (a: int)
    ensures
        0 <= a <= s.len(),
        crate::text::trim_start(s) == s.skip(a),
    decreases s.len(),
{
    if s.len() > 0 && crate::text::is_whitespace(s[0]) {
        let a = lemma_trim_start_skips(s.drop_first());
        assert(s.drop_first().skip(a) =~= s.skip(a + 1));
        a + 1
    } else {
        assert(s.skip(0) =~= s);
        0
    }
}

proof fn lemma_trim_end_takes(s: Seq<char>) -> (b: int)
    ensures
        0 <= b <= s.len(),
        crate::text::trim_end(s) == s.take(b),
    decreases s.len(),
{
    if s.len() > 0 && crate::text::is_whitespace(s.last()) {
        let b = lemma_trim_end_takes(s.drop_last());
        assert(s.drop_last().take(b) =~= s.take(b));
        b
    } else {
        assert(s.take(s.len() as int) =~= s);
        s.len() as int
    }
}

proof fn lemma_first_occurrence_at(hay: Seq<char>, needle: Seq<char>, from: int, p: int)
    requires
        0 <= from <= p,
        p + needle.len() <= hay.len(),
        hay.subrange(p, p + needle.len()) == needle,
        forall|k: int| from <= k < p ==> #[trigger] hay.subrange(k, k + needle.len()) != needle,
    ensures
        first_occurrence_from(hay, needle, from) == Some(p),
    decreases p - from,
{
    if from < p {
        assert(hay.subrange(from, from + needle.len()) != needle);
        lemma_first_occurrence_at(hay, needle, from + 1, p);
    }
}

proof fn lemma_split_without_separator(s: Seq<char>, sep: char)
    requires
        !s.contains(sep),
    ensures
        split_on(s, sep) == seq![s],
    decreases s.len(),
{
    if s.len() > 0 {
        let r = s.drop_last();
        assert(!r.contains(sep)) by {
            if r.contains(sep) {
                let k = choose|k: int| 0 <= k < r.len() && r[k] == sep;
                assert(s[k] == sep);
            }
        }
        lemma_split_without_separator(r, sep);
        assert(s.last() != sep) by {
            assert(s[s.len() - 1] == s.last());
        }
        assert(r.push(s.last()) =~= s);
    } else {
        assert(s =~= Seq::<char>::empty());
    }
}

/// A comment that holds `grit-ignore` followed by a list of names (text after
/// the marker that has no `:` and starts, once trimmed, with a letter, digit
/// or `_`) suppresses exactly the patterns named by one of the list's
/// comma-separated entries, each trimmed: a name that only occurs inside an
/// entry (such as a prefix of a longer name) is not suppressed, and with no
/// pattern name nothing is. Stated for a comment on the target's rows.
pub proof fn lemma_suppress_by_listed_name(
    comment: CommentNode,
    source: Seq<char>,
    target: RowRange,
    following: Seq<FollowingNode>,
    name: Option<Seq<char>>,
    pre: Seq<char>,
    list: Seq<char>,
)
    requires
        comment.text matches Some(t) && trim(t@) == pre + ignore_marker() + list,
        forall|k: int|
            0 <= k < pre.len() ==> #[trigger] (pre + ignore_marker() + list).subrange(
                k,
                k + ignore_marker().len(),
            ) != ignore_marker(),
        !list.contains(':'),
        trim(list).len() > 0,
        is_alphanumeric(trim(list)[0]) || trim(list)[0] == '_',
        comment.end_row >= target.start_row,
        comment.end_row <= target.end_row,
    ensures
        suppression_outcome(comment, source, target, following, name) == Some(
            match name {
                Some(n) => exists|i: int|
                    0 <= i < split_on(trim(list), ',').len() && trim(
                        #[trigger] split_on(trim(list), ',')[i],
                    ) == n,
                None => false,
            },
        ),
{
    let text = comment.text.unwrap()@;
    let t = pre + ignore_marker() + list;
    let m = ignore_marker();
    let ml = m.len() as int;
    let p = pre.len() as int;
    assert(t.subrange(p, p + ml) =~= m);
    let (a, b) = lemma_trim_is_infix(text);
    assert(text.subrange(a + p, a + p + ml) =~= t.subrange(p, p + ml));
    assert(contains_seq(text, m));
    lemma_first_occurrence_at(t, m, 0, p);
    assert(t.skip(p + ml) =~= list);
    lemma_split_without_separator(list, ':');
}

} // verus!
