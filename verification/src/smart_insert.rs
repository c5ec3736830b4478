use crate::text::{
    char_is_whitespace, chars_of, contains_seq, is_whitespace, slice_from, slice_to, string_from_chars,
    vec_contains,
    vec_eq,
};
use vstd::prelude::*;
use vstd::string::StringSliceAdditionalSpecFns;
use vstd::utf8::*;

verus! {

/// The last `k` characters of `a` are the first `k` characters of `b`.
pub open spec fn suffix_is_prefix(a: Seq<char>, b: Seq<char>, k: int) -> bool {
    0 <= k <= a.len() && k <= b.len() && a.skip(a.len() - k) == b.take(k)
}

/// The smallest `k` in `[from, limit]` for which the last `k` characters of `a`
/// are the first `k` of `b`.
pub open spec fn first_overlap(a: Seq<char>, b: Seq<char>, from: int, limit: int) -> Option<int>
    decreases limit + 1 - from,
{
    if from > limit {
        None
    } else if suffix_is_prefix(a, b, from) {
        Some(from)
    } else {
        first_overlap(a, b, from + 1, limit)
    }
}

/// The number of bytes that `s` takes in UTF-8.
pub open spec fn utf8_len(s: Seq<char>) -> int {
    encode_utf8(s).len() as int
}

pub open spec fn min_int(a: int, b: int) -> int {
    if a <= b {
        a
    } else {
        b
    }
}

/// The overlaps are tried for `k` from 1 up to the smaller byte length, but
/// each try reads `k` characters: when a string holds fewer characters than
/// bytes, some overlap must be found before a try reads past its end.
pub open spec fn overlap_search_in_bounds(a: Seq<char>, b: Seq<char>) -> bool {
    let limit = min_int(utf8_len(a), utf8_len(b));
    let chars = min_int(a.len() as int, b.len() as int);
    chars >= limit || first_overlap(a, b, 1, chars) is Some
}

/// What `adjust_separator_start` returns: the separator without the shortest
/// non-empty prefix that the trailing text ends with (lengths tried up to the
/// smaller byte length), or the separator unchanged when there is none.
pub open spec fn adjusted_start(separator: Seq<char>, trailing: Seq<char>) -> Seq<char> {
    match first_overlap(trailing, separator, 1, min_int(utf8_len(separator), utf8_len(trailing))) {
        Some(k) => separator.skip(k),
        None => separator,
    }
}

/// What `adjust_separator_end` returns: the separator without the shortest
/// suffix that the inserted text starts with, or unchanged when there is none.
pub open spec fn adjusted_end(separator: Seq<char>, insert: Seq<char>) -> Seq<char> {
    match first_overlap(separator, insert, 1, min_int(utf8_len(separator), utf8_len(insert))) {
        Some(k) => separator.take(separator.len() - k),
        None => separator,
    }
}

fn overlaps_at(a: &Vec<char>, b: &Vec<char>, k: usize) -> (r: bool)
    requires
        k <= a@.len(),
        k <= b@.len(),
    ensures
        r == suffix_is_prefix(a@, b@, k as int),
{
    let n = a.len();
    let start = n - k;
    let mut i: usize = 0;
    while i < k
        invariant
            n == a@.len(),
            k <= a@.len(),
            k <= b@.len(),
            start == a@.len() - k,
            0 <= i <= k,
            forall|j: int| 0 <= j < i ==> a@[start + j] == b@[j],
        decreases k - i,
    {
        assert(start + i < a@.len());
        if a[start + i] != b[i] {
            assert(a@.skip(a@.len() - k)[i as int] != b@.take(k as int)[i as int]);
            return false;
        }
        i = i + 1;
    }
    assert(a@.skip(a@.len() - k) =~= b@.take(k as int));
    true
}

/// Finds the first overlap between the end of `a` and the start of `b`,
/// trying lengths `1..=limit`.
fn find_overlap(a: &Vec<char>, b: &Vec<char>, limit: usize) -> (r: Option<usize>)
    requires
        ({
            let chars = min_int(a@.len() as int, b@.len() as int);
            chars >= limit || first_overlap(a@, b@, 1, chars) is Some
        }),
    ensures
        r matches Some(k) ==> first_overlap(a@, b@, 1, limit as int) == Some(k as int)
            && suffix_is_prefix(a@, b@, k as int),
        r is None ==> first_overlap(a@, b@, 1, limit as int) is None,
{
    let ghost chars = min_int(a@.len() as int, b@.len() as int);
    let mut i: usize = 0;
    while i < limit
        invariant
            0 <= i <= limit,
            chars == min_int(a@.len() as int, b@.len() as int),
            chars >= limit || first_overlap(a@, b@, 1, chars) is Some,
            first_overlap(a@, b@, 1, limit as int) == first_overlap(a@, b@, i + 1, limit as int),
            chars < limit ==> first_overlap(a@, b@, 1, chars) == first_overlap(
                a@,
                b@,
                i + 1,
                chars,
            ),
        decreases limit - i,
    {
        proof {
            if i + 1 > chars {
                assert(first_overlap(a@, b@, i + 1, chars) is None);
            }
        }
        if overlaps_at(a, b, i + 1) {
            return Some(i + 1);
        }
        i = i + 1;
    }
    None
}

/// Drops from `separator` the shortest prefix that `trailing` already ends with.
pub fn adjust_separator_start(separator: &str, trailing: &str) -> (r: String)
    requires
        overlap_search_in_bounds(trailing@, separator@),
    ensures
        r@ == adjusted_start(separator@, trailing@),
{
    let separator_chars = chars_of(separator);
    let trailing_chars = chars_of(trailing);
    proof {
        lemma_min_int_symmetric(utf8_len(separator@), utf8_len(trailing@));
    }
    let separator_bytes = separator.as_bytes().len();
    let trailing_bytes = trailing.as_bytes().len();
    let limit = if separator_bytes <= trailing_bytes {
        separator_bytes
    } else {
        trailing_bytes
    };
    match find_overlap(&trailing_chars, &separator_chars, limit) {
        Some(k) => {
            let rest = string_from_chars(&slice_from(&separator_chars, k));
            rest
        },
        None => separator.to_owned(),
    }
}

/// Drops from `separator` the shortest suffix that `insert` starts with.
pub fn adjust_separator_end(separator: &str, insert: &str) -> (r: String)
    requires
        overlap_search_in_bounds(separator@, insert@),
    ensures
        r@ == adjusted_end(separator@, insert@),
{
    let separator_chars = chars_of(separator);
    let insert_chars = chars_of(insert);
    let separator_bytes = separator.as_bytes().len();
    let insert_bytes = insert.as_bytes().len();
    let limit = if separator_bytes <= insert_bytes {
        separator_bytes
    } else {
        insert_bytes
    };
    match find_overlap(&separator_chars, &insert_chars, limit) {
        Some(k) => {
            let keep = separator_chars.len() - k;
            let rest = string_from_chars(&slice_to(&separator_chars, keep));
            rest
        },
        None => separator.to_owned(),
    }
}

proof fn lemma_min_int_symmetric(a: int, b: int)
    ensures
        min_int(a, b) == min_int(b, a),
{
}

/// A child node as the padding computation sees it: whether it is a named
/// node, its byte offsets in the source, and its first and last rows.
#[derive(Clone, Copy, Debug, PartialEq, Eq)]
pub struct SyntaxChild {
    pub is_named: bool,
    pub start_byte: u32,
    pub end_byte: u32,
    pub start_row: u32,
    pub end_row: u32,
}

/// The named children of `s`, in order.
pub open spec fn named_children(s: Seq<SyntaxChild>) -> Seq<SyntaxChild>
    decreases s.len(),
{
    if s.len() == 0 {
        Seq::empty()
    } else {
        let rest = named_children(s.drop_last());
        if s.last().is_named {
            rest.push(s.last())
        } else {
            rest
        }
    }
}

/// Bytes `[a, b)` of `src` can be cut out as text: in order, in range and on
/// character boundaries.
pub open spec fn slice_ok(src: Seq<u8>, a: int, b: int) -> bool {
    0 <= a <= b <= src.len() && is_char_boundary(src, a) && is_char_boundary(src, b)
}

/// The text between bytes `a` and `b` of `src`.
pub open spec fn text_between(src: Seq<u8>, a: int, b: int) -> Seq<char> {
    decode_utf8(src.subrange(a, b))
}

/// Where the scan for a common separator between named children ends up.
pub enum SeparatorScan {
    /// A cut of the source out of range or off a character boundary.
    Panics,
    /// Two neighbours touch, or their separators disagree: no padding.
    Stop,
    /// The separator agreed on, if there were neighbours to compare.
    Found(Option<Seq<char>>),
}

/// The scan over neighbouring named children from index `i` on, with the
/// separator agreed on so far. A separator that contains the agreed one is
/// accepted as it is; one contained in the agreed one replaces it.
pub open spec fn scan_separators(
    named: Seq<SyntaxChild>,
    src: Seq<u8>,
    i: int,
    sep: Option<Seq<char>>,
) -> SeparatorScan
    decreases named.len() - i,
{
    if i < 0 || i + 1 >= named.len() {
        SeparatorScan::Found(sep)
    } else {
        let a = named[i].end_byte as int;
        let b = named[i + 1].start_byte as int;
        if a == b {
            SeparatorScan::Stop
        } else if !slice_ok(src, a, b) {
            SeparatorScan::Panics
        } else {
            let curr = text_between(src, a, b);
            match sep {
                Some(s) => {
                    if curr == s || contains_seq(curr, s) {
                        scan_separators(named, src, i + 1, sep)
                    } else if contains_seq(s, curr) {
                        scan_separators(named, src, i + 1, Some(curr))
                    } else {
                        SeparatorScan::Stop
                    }
                },
                None => scan_separators(named, src, i + 1, Some(curr)),
            }
        }
    }
}

/// `s` without its trailing whitespace other than newlines.
pub open spec fn trim_blank_end(s: Seq<char>) -> Seq<char>
    decreases s.len(),
{
    if s.len() > 0 && is_whitespace(s.last()) && s.last() != '\n' {
        trim_blank_end(s.drop_last())
    } else {
        s
    }
}

/// A separator that ends in a newline followed by blanks loses the blanks;
/// any other separator stays as it is.
pub open spec fn without_blanks_after_newline(s: Seq<char>) -> Seq<char> {
    let t = trim_blank_end(s);
    if t.len() > 0 && t.last() == '\n' {
        t
    } else {
        s
    }
}

/// What computing the padding does: panic, or give the padding (if any).
pub enum PaddingOutcome {
    Panics,
    Padding(Option<Seq<char>>),
}

/// The padding that goes with inserting `insert` into the list whose children
/// are `children`: the separator the named children agree on (or, with one
/// named child, the text after it), trimmed against what already surrounds
/// the insertion point.
pub open spec fn padding_outcome(
    children: Seq<SyntaxChild>,
    src: Seq<u8>,
    insert: Seq<char>,
    is_first: bool,
    should_pad_snippet: bool,
) -> PaddingOutcome {
    let named = named_children(children);
    if named.len() == 0 {
        PaddingOutcome::Panics
    } else {
        let ta = named.last().end_byte as int;
        let tb = children.last().end_byte as int;
        let scanned = if named.len() == 1 {
            if !slice_ok(src, ta, tb) {
                SeparatorScan::Panics
            } else {
                let t = text_between(src, ta, tb);
                SeparatorScan::Found(
                    if t.len() > 0 {
                        Some(t)
                    } else {
                        None
                    },
                )
            }
        } else {
            scan_separators(named, src, 0, None)
        };
        match scanned {
            SeparatorScan::Panics => PaddingOutcome::Panics,
            SeparatorScan::Stop => PaddingOutcome::Padding(None),
            SeparatorScan::Found(None) => PaddingOutcome::Padding(None),
            SeparatorScan::Found(Some(sep)) => {
                if !slice_ok(src, ta, tb) {
                    PaddingOutcome::Panics
                } else {
                    let trailing = text_between(src, ta, tb);
                    if is_first && !overlap_search_in_bounds(trailing, sep) {
                        PaddingOutcome::Panics
                    } else {
                        let s1 = if is_first {
                            adjusted_start(sep, trailing)
                        } else {
                            sep
                        };
                        if !overlap_search_in_bounds(s1, insert) {
                            PaddingOutcome::Panics
                        } else {
                            let s2 = adjusted_end(s1, insert);
                            let s3 = if should_pad_snippet {
                                without_blanks_after_newline(s2)
                            } else {
                                s2
                            };
                            if s3.len() == 0 {
                                PaddingOutcome::Padding(None)
                            } else {
                                PaddingOutcome::Padding(Some(s3))
                            }
                        }
                    }
                }
            },
        }
    }
}

/// The characters of an optional string.
pub open spec fn opt_view(o: Option<String>) -> Option<Seq<char>> {
    match o {
        Some(s) => Some(s@),
        None => None,
    }
}

/// Cuts bytes `[a, b)` out of `source`.
pub fn byte_slice(source: &str, a: usize, b: usize) -> (r: &str)
    requires
        slice_ok(source.spec_bytes(), a as int, b as int),
    ensures
        r@ == text_between(source.spec_bytes(), a as int, b as int),
{
    let ghost bytes = source.spec_bytes();
    proof {
        encode_utf8_valid_utf8(source@);
        valid_utf8_split(bytes, b as int);
        let first = bytes.subrange(0, b as int);
        if a < b {
            is_char_boundary_iff_not_is_continuation_byte(bytes, a as int);
            is_char_boundary_iff_not_is_continuation_byte(first, a as int);
            assert(first[a as int] == bytes[a as int]);
        } else {
            is_char_boundary_start_end_of_seq(first);
        }
    }
    let (first, _) = source.split_at(b);
    let (_, r) = first.split_at(a);
    proof {
        assert(r.spec_bytes() =~= bytes.subrange(a as int, b as int));
        encode_utf8_decode_utf8(r@);
    }
    r
}

/// `s` without its trailing whitespace other than newlines.
fn trim_blank_end_exec(s: &Vec<char>) -> (r: Vec<char>)
    ensures
        r@ == trim_blank_end(s@),
{
    let mut n = s.len();
    assert(s@.take(n as int) == s@);
    while n > 0 && char_is_whitespace(s[n - 1]) && s[n - 1] != '\n'
        invariant
            n <= s@.len(),
            trim_blank_end(s@) == trim_blank_end(s@.take(n as int)),
        decreases n,
    {
        assert(s@.take(n - 1) == s@.take(n as int).drop_last());
        n = n - 1;
    }
    slice_to(s, n)
}

/// The padding to put between existing list children and inserted text.
/// `children` are the children of the list, with byte offsets into `source`;
/// `should_pad_snippet` tells whether the language pads snippets itself (as
/// languages with significant whitespace do).
pub fn calculate_padding(
    children: &[SyntaxChild],
    source: &str,
    insert: &str,
    is_first: bool,
    should_pad_snippet: bool,
) -> (r: Option<String>)
    requires
        !(padding_outcome(children@, source.spec_bytes(), insert@, is_first, should_pad_snippet) is Panics),
    ensures
        padding_outcome(children@, source.spec_bytes(), insert@, is_first, should_pad_snippet)
            == PaddingOutcome::Padding(opt_view(r)),
{
    let ghost src = source.spec_bytes();
    let mut named: Vec<SyntaxChild> = Vec::new();
    let mut i: usize = 0;
    while i < children.len()
        invariant
            0 <= i <= children@.len(),
            named@ == named_children(children@.take(i as int)),
        decreases children@.len() - i,
    {
        assert(children@.take(i + 1).drop_last() == children@.take(i as int));
        if children[i].is_named {
            named.push(children[i]);
        }
        i = i + 1;
    }
    assert(children@.take(children@.len() as int) == children@);
    let ghost outcome = padding_outcome(children@, src, insert@, is_first, should_pad_snippet);
    let last_named = named[named.len() - 1];
    let last_child = children[children.len() - 1];
    proof {
        lemma_named_last(children@);
    }
    let mut separator: Option<Vec<char>> = None;
    if named.len() == 1 {
        let trailing = byte_slice(source, last_named.end_byte as usize, last_child.end_byte as usize);
        let trailing_chars = chars_of(trailing);
        if trailing_chars.len() > 0 {
            separator = Some(trailing_chars);
        }
    } else {
        let mut i: usize = 0;
        while i < named.len() - 1
            invariant
                named@ == named_children(children@),
                named@.len() >= 2,
                0 <= i <= named@.len() - 1,
                src == source.spec_bytes(),
                !(scan_separators(named@, src, 0, None) is Panics),
                scan_separators(named@, src, 0, None) == scan_separators(
                    named@,
                    src,
                    i as int,
                    match separator {
                        Some(v) => Some(v@),
                        None => None,
                    },
                ),
            decreases named@.len() - i,
        {
            let child = named[i];
            let next_child = named[i + 1];
            let start = child.end_byte;
            let end = next_child.start_byte;
            if start == end {
                assert(scan_separators(named@, src, 0, None) == SeparatorScan::Stop);
                return None;
            }
            let curr_str = byte_slice(source, start as usize, end as usize);
            let curr = chars_of(curr_str);
            match separator {
                Some(sep) => {
                    if vec_eq(&curr, &sep) || vec_contains(&curr, &sep) {
                        separator = Some(sep);
                    } else if vec_contains(&sep, &curr) {
                        separator = Some(curr);
                    } else {
                        assert(scan_separators(named@, src, 0, None) == SeparatorScan::Stop);
                        return None;
                    }
                },
                None => {
                    separator = Some(curr);
                },
            }
            i = i + 1;
        }
    }
    let separator = match separator {
        Some(sep) => sep,
        None => {
            return None;
        },
    };
    let trailing = byte_slice(source, last_named.end_byte as usize, last_child.end_byte as usize);
    let separator_str = string_from_chars(&separator);
    let separator = if is_first {
        adjust_separator_start(separator_str.as_str(), trailing)
    } else {
        separator_str
    };
    let separator = adjust_separator_end(separator.as_str(), insert);
    let separator_chars = chars_of(separator.as_str());
    let separator_chars = if should_pad_snippet {
        let no_whitespace = trim_blank_end_exec(&separator_chars);
        if no_whitespace.len() > 0 && no_whitespace[no_whitespace.len() - 1] == '\n' {
            no_whitespace
        } else {
            separator_chars
        }
    } else {
        separator_chars
    };
    if separator_chars.len() == 0 {
        None
    } else {
        Some(string_from_chars(&separator_chars))
    }
}

proof fn lemma_named_last(s: Seq<SyntaxChild>)
    ensures
        named_children(s).len() <= s.len(),
        named_children(s).len() > 0 ==> named_children(s).last().is_named,
    decreases s.len(),
{
    if s.len() > 0 {
        lemma_named_last(s.drop_last());
    }
}

/// What the insertion padding reads of a binding.
pub enum PaddingBinding {
    /// A list field of a node, given by the children in that field.
    List(Vec<SyntaxChild>),
    /// A single node, and whether the language counts its kind as a statement.
    Node(SyntaxChild, bool),
    /// A string, a file name, an empty binding or a constant: never padded.
    Other,
}

/// Reading a node's text cuts its bytes out of the source: they must lie in range.
pub open spec fn text_in_range(src: Seq<u8>, n: SyntaxChild) -> bool {
    n.start_byte <= n.end_byte <= src.len()
}

/// A node's text reads as text (its offsets fall on character boundaries)
/// and ends with a newline.
pub open spec fn text_ends_with_newline(src: Seq<u8>, n: SyntaxChild) -> bool {
    let a = n.start_byte as int;
    let b = n.end_byte as int;
    is_char_boundary(src, a) && is_char_boundary(src, b) && a < b && src[b - 1] == 10u8
}

pub open spec fn starts_with_newline(t: Seq<char>) -> bool {
    t.len() > 0 && t[0] == '\n'
}

/// The padding for inserting `text` at `binding`.
pub open spec fn insertion_padding_outcome(
    binding: PaddingBinding,
    src: Seq<u8>,
    text: Seq<char>,
    is_first: bool,
    should_pad_snippet: bool,
) -> PaddingOutcome {
    match binding {
        PaddingBinding::List(children) => {
            if children@.len() == 0 {
                PaddingOutcome::Padding(None)
            } else {
                match padding_outcome(children@, src, text, is_first, should_pad_snippet) {
                    PaddingOutcome::Panics => PaddingOutcome::Panics,
                    PaddingOutcome::Padding(Some(p)) => PaddingOutcome::Padding(Some(p)),
                    PaddingOutcome::Padding(None) => {
                        if children@.len() == 1 && children@[0].end_row > children@[0].start_row {
                            if !text_in_range(src, children@[0]) {
                                PaddingOutcome::Panics
                            } else if !text_ends_with_newline(src, children@[0])
                                && !starts_with_newline(text) {
                                PaddingOutcome::Padding(Some(seq!['\n']))
                            } else {
                                PaddingOutcome::Padding(None)
                            }
                        } else {
                            PaddingOutcome::Padding(None)
                        }
                    },
                }
            }
        },
        PaddingBinding::Node(node, is_statement) => {
            if !is_statement {
                PaddingOutcome::Padding(None)
            } else if !text_in_range(src, node) {
                PaddingOutcome::Panics
            } else if !text_ends_with_newline(src, node) && !starts_with_newline(text) {
                PaddingOutcome::Padding(Some(seq!['\n']))
            } else {
                PaddingOutcome::Padding(None)
            }
        },
        PaddingBinding::Other => PaddingOutcome::Padding(None),
    }
}

fn node_text_ends_with_newline(source: &str, n: SyntaxChild) -> (r: bool)
    requires
        text_in_range(source.spec_bytes(), n),
    ensures
        r == text_ends_with_newline(source.spec_bytes(), n),
{
    let a = n.start_byte as usize;
    let b = n.end_byte as usize;
    let bytes = source.as_bytes();
    source.is_char_boundary(a) && source.is_char_boundary(b) && a < b && bytes[b - 1] == 10u8
}

fn newline() -> (s: String)
    ensures
        s@ == seq!['\n'],
{
    let c = ['\n'];
    string_from_chars(&c)
}

/// The padding to use for inserting `text` at `binding`: for a list, the
/// separator its children agree on, or a newline after a lone multi-line
/// child; for a statement node, a newline when neither side brings one.
pub fn get_insertion_padding(
    binding: &PaddingBinding,
    source: &str,
    text: &str,
    is_first: bool,
    should_pad_snippet: bool,
) -> (r: Option<String>)
    requires
        !(insertion_padding_outcome(*binding, source.spec_bytes(), text@, is_first, should_pad_snippet) is Panics),
    ensures
        insertion_padding_outcome(*binding, source.spec_bytes(), text@, is_first, should_pad_snippet)
            == PaddingOutcome::Padding(opt_view(r)),
{
    let text_chars = chars_of(text);
    let text_starts_with_newline = text_chars.len() > 0 && text_chars[0] == '\n';
    match binding {
        PaddingBinding::List(children) => {
            if children.len() == 0 {
                return None;
            }
            match calculate_padding(children.as_slice(), source, text, is_first, should_pad_snippet) {
                Some(p) => Some(p),
                None => {
                    if children.len() == 1 {
                        let child = children[0];
                        if child.end_row > child.start_row && !node_text_ends_with_newline(
                            source,
                            child,
                        ) && !text_starts_with_newline {
                            return Some(newline());
                        }
                    }
                    None
                },
            }
        },
        PaddingBinding::Node(node, is_statement) => {
            if *is_statement && !node_text_ends_with_newline(source, *node)
                && !text_starts_with_newline {
                Some(newline())
            } else {
                None
            }
        },
        PaddingBinding::Other => None,
    }
}

proof fn lemma_first_overlap_bounds(a: Seq<char>, b: Seq<char>, from: int, limit: int)
    ensures
        first_overlap(a, b, from, limit) matches Some(k) ==> from <= k <= limit && suffix_is_prefix(
            a,
            b,
            k,
        ),
    decreases limit + 1 - from,
{
    if from <= limit && !suffix_is_prefix(a, b, from) {
        lemma_first_overlap_bounds(a, b, from + 1, limit);
    }
}

/// Adjusting the end of a separator only drops a suffix of it that the
/// inserted text starts with; with nothing inserted it changes nothing.
pub proof fn lemma_adjusted_end_drops_shared_suffix(separator: Seq<char>, insert: Seq<char>)
    ensures
        exists|k: int|
            0 <= k <= insert.len() && adjusted_end(separator, insert) + insert.take(k) == separator,
        insert.len() == 0 ==> adjusted_end(separator, insert) == separator,
{
    let limit = min_int(utf8_len(separator), utf8_len(insert));
    lemma_first_overlap_bounds(separator, insert, 1, limit);
    match first_overlap(separator, insert, 1, limit) {
        Some(k) => {
            assert(separator.take(separator.len() - k) + insert.take(k) =~= separator);
        },
        None => {
            assert(separator + insert.take(0) =~= separator);
        },
    }
    if insert.len() == 0 {
        if let Some(k) = first_overlap(separator, insert, 1, limit) {
            assert(k <= insert.len());
        }
    }
}

/// Adjusting the start of a separator only drops a prefix of it that the
/// trailing text already ends with; with no trailing text it changes nothing.
pub proof fn lemma_adjusted_start_drops_shared_prefix(separator: Seq<char>, trailing: Seq<char>)
    ensures
        exists|k: int|
            0 <= k <= trailing.len() && #[trigger] trailing.skip(trailing.len() - k) + adjusted_start(
                separator,
                trailing,
            ) == separator,
        trailing.len() == 0 ==> adjusted_start(separator, trailing) == separator,
{
    let limit = min_int(utf8_len(separator), utf8_len(trailing));
    lemma_first_overlap_bounds(trailing, separator, 1, limit);
    match first_overlap(trailing, separator, 1, limit) {
        Some(k) => {
            assert(trailing.skip(trailing.len() - k) + separator.skip(k) =~= separator);
        },
        None => {
            assert(trailing.skip(trailing.len() - 0) + separator =~= separator);
        },
    }
    if trailing.len() == 0 {
        if let Some(k) = first_overlap(trailing, separator, 1, limit) {
            assert(k <= trailing.len());
        }
    }
}

/// Padding is never empty: an empty separator comes out as no padding.
pub proof fn lemma_padding_not_empty(
    children: Seq<SyntaxChild>,
    src: Seq<u8>,
    insert: Seq<char>,
    is_first: bool,
    should_pad_snippet: bool,
)
    ensures
        padding_outcome(children, src, insert, is_first, should_pad_snippet) matches PaddingOutcome::Padding(
            Some(p),
        ) ==> p.len() > 0,
{
}

/// A whitespace character other than a newline.
pub open spec fn is_blank(c: char) -> bool {
    is_whitespace(c) && c != '\n'
}

/// `s` has a newline at `k` followed only by blanks.
pub open spec fn newline_then_blanks(s: Seq<char>, k: int) -> bool {
    &&& 0 <= k < s.len()
    &&& s[k] == '\n'
    &&& forall|j: int| k < j < s.len() ==> is_blank(#[trigger] s[j])
}

proof fn lemma_trim_blank_end_shape(s: Seq<char>)
    ensures
        trim_blank_end(s).len() <= s.len(),
        trim_blank_end(s) == s.take(trim_blank_end(s).len() as int),
        forall|j: int| trim_blank_end(s).len() <= j < s.len() ==> is_blank(#[trigger] s[j]),
        trim_blank_end(s).len() > 0 ==> !is_blank(trim_blank_end(s).last()),
    decreases s.len(),
{
    if s.len() > 0 && is_whitespace(s.last()) && s.last() != '\n' {
        let r = s.drop_last();
        lemma_trim_blank_end_shape(r);
        let t = trim_blank_end(r);
        assert(t == s.take(t.len() as int)) by {
            assert(t =~= r.take(t.len() as int));
            assert(r.take(t.len() as int) =~= s.take(t.len() as int));
        }
        assert forall|j: int| t.len() <= j < s.len() implies is_blank(#[trigger] s[j]) by {
            if j < r.len() {
                assert(s[j] == r[j]);
            }
        }
    } else {
        assert(s.take(s.len() as int) =~= s);
    }
}

proof fn lemma_without_blanks_after_newline(s: Seq<char>)
    ensures
        forall|k: int| newline_then_blanks(s, k) ==> without_blanks_after_newline(s) == s.take(k + 1),
        (forall|k: int| !newline_then_blanks(s, k)) ==> without_blanks_after_newline(s) == s,
{
    lemma_trim_blank_end_shape(s);
    let t = trim_blank_end(s);
    assert forall|k: int| newline_then_blanks(s, k) implies without_blanks_after_newline(s) == s.take(
        k + 1,
    ) by {
        assert(!is_blank(s[k]));
        if t.len() <= k {
            assert(is_blank(s[k]));
        }
        if t.len() > k + 1 {
            assert(t.last() == s[t.len() - 1]);
            assert(is_blank(s[t.len() - 1]));
        }
        assert(t.len() == k + 1);
        assert(t.last() == s[k]);
    }
    if t.len() > 0 && t.last() == '\n' {
        assert(newline_then_blanks(s, t.len() - 1)) by {
            assert(s[t.len() - 1] == t.last());
        }
    }
}

/// With `should_pad_snippet` (a language that pads during linearization), the
/// padding is the one computed without it, except that a separator ending in
/// a newline followed only by blanks loses those blanks: it is cut just after
/// its last newline. Any other separator (such as `", "`) is kept whole, and
/// whether the computation panics or gives no padding does not change.
pub proof fn lemma_pad_snippet_cuts_only_blanks_after_newline(
    children: Seq<SyntaxChild>,
    src: Seq<u8>,
    insert: Seq<char>,
    is_first: bool,
)
    ensures
        (padding_outcome(children, src, insert, is_first, false) is Panics) == (padding_outcome(
            children,
            src,
            insert,
            is_first,
            true,
        ) is Panics),
        padding_outcome(children, src, insert, is_first, false) == PaddingOutcome::Padding(None)
            ==> padding_outcome(children, src, insert, is_first, true) == PaddingOutcome::Padding(None),
        padding_outcome(children, src, insert, is_first, false) matches PaddingOutcome::Padding(Some(p))
            ==> {
            &&& (forall|k: int| !newline_then_blanks(p, k)) ==> padding_outcome(
                children,
                src,
                insert,
                is_first,
                true,
            ) == PaddingOutcome::Padding(Some(p))
            &&& forall|k: int|
                newline_then_blanks(p, k) ==> padding_outcome(children, src, insert, is_first, true)
                    == PaddingOutcome::Padding(Some(p.take(k + 1)))
        },
{
    match padding_outcome(children, src, insert, is_first, false) {
        PaddingOutcome::Padding(Some(p)) => {
            lemma_without_blanks_after_newline(p);
        },
        _ => {},
    }
    lemma_without_blanks_empty();
}

proof fn lemma_without_blanks_empty()
    ensures
        forall|s: Seq<char>| s.len() == 0 ==> #[trigger] without_blanks_after_newline(s).len() == 0,
{
    assert forall|s: Seq<char>| s.len() == 0 implies #[trigger] without_blanks_after_newline(s).len()
        == 0 by {
        assert(trim_blank_end(s) == s);
    }
}

} // verus!
