//! Splitting text into pieces, and the shapes of lines that the block
//! grammar recognises.
use crate::ast::DelimitedBlockKind;
use crate::text::{
    all_space, find_char, find_char_in, find_pair, find_pair_in, is_blank, is_space, is_space_char,
    lemma_find_char, lemma_run_end, run_end, run_end_in, slice_of, trim,
    trim_range,
};
use vstd::prelude::*;

verus! {

// ---------------------------------------------------------------------------
// Splitting
// ---------------------------------------------------------------------------

/// The pieces of `s` from position `i` on, cut at each `sep`.
pub open spec fn split_from(s: Seq<char>, sep: char, i: int) -> Seq<Seq<char>>
    decreases s.len() - i,
{
    if i < 0 || i > s.len() {
        Seq::empty()
    } else {
        match find_char(s, sep, i) {
            Some(k) => if i <= k < s.len() {
                seq![s.subrange(i, k)] + split_from(s, sep, k + 1)
            } else {
                Seq::empty()
            },
            None => seq![s.subrange(i, s.len() as int)],
        }
    }
}

/// The lines of `t`: the pieces between line feeds.
pub open spec fn lines(t: Seq<char>) -> Seq<Seq<char>> {
    split_from(t, '\n', 0)
}

/// The model of a vector of character vectors.
pub open spec fn pieces_view(v: Seq<Vec<char>>) -> Seq<Seq<char>> {
    Seq::new(v.len(), |i: int| v[i]@)
}

/// The pieces of `s`, cut at each `sep`.
pub fn split_on(s: &Vec<char>, sep: char) -> (r: Vec<Vec<char>>)
    ensures
        pieces_view(r@) == split_from(s@, sep, 0),
{
    let mut r: Vec<Vec<char>> = Vec::new();
    let mut pos: usize = 0;
    loop
        invariant
            pos <= s.len(),
            pieces_view(r@) + split_from(s@, sep, pos as int) == split_from(s@, sep, 0),
        decreases s.len() - pos,
    {
        let ghost before = pieces_view(r@);
        proof {
            lemma_find_char(s@, sep, pos as int);
        }
        match find_char_in(s, sep, pos) {
            Some(k) => {
                let piece = slice_of(s, pos, k);
                r.push(piece);
                assert(pieces_view(r@) =~= before.push(s@.subrange(pos as int, k as int)));
                assert(pieces_view(r@) + split_from(s@, sep, k + 1) =~= before + split_from(
                    s@,
                    sep,
                    pos as int,
                ));
                pos = k + 1;
            },
            None => {
                let piece = slice_of(s, pos, s.len());
                r.push(piece);
                assert(pieces_view(r@) =~= before + split_from(s@, sep, pos as int));
                return r;
            },
        }
    }
}

// ---------------------------------------------------------------------------
// Shapes of lines
// ---------------------------------------------------------------------------

/// A line with nothing but whitespace.
pub open spec fn blank_line(l: Seq<char>) -> bool {
    all_space(l)
}

/// `== Title` to `====== Title`: two to six `=`, a space, then text.
pub open spec fn section_line(l: Seq<char>) -> bool {
    let n = run_end(l, '=', 0);
    2 <= n <= 6 && n < l.len() && l[n] == ' ' && trim(l.subrange(n, l.len() as int)).len() > 0
}

/// The kind of delimited block that a delimiter character opens.
pub open spec fn delimiter_kind(c: char) -> Option<DelimitedBlockKind> {
    if c == '-' {
        Some(DelimitedBlockKind::Listing)
    } else if c == '=' {
        Some(DelimitedBlockKind::Example)
    } else if c == '.' {
        Some(DelimitedBlockKind::Literal)
    } else if c == '*' {
        Some(DelimitedBlockKind::Sidebar)
    } else if c == '_' {
        Some(DelimitedBlockKind::Quote)
    } else {
        None
    }
}

/// Four or more of one delimiter character, and nothing else.
pub open spec fn delimiter_line(l: Seq<char>) -> bool {
    l.len() >= 4 && delimiter_kind(l[0]) is Some && run_end(l, l[0], 0) == l.len()
}

/// `.Title`: a dot, then neither whitespace nor another dot.
pub open spec fn title_line(l: Seq<char>) -> bool {
    l.len() >= 2 && l[0] == '.' && l[1] != '.' && !is_space(l[1])
}

/// `[[anchor]]`.
pub open spec fn anchor_line(l: Seq<char>) -> bool {
    l.len() >= 4 && l[0] == '[' && l[1] == '[' && l[l.len() - 2] == ']' && l[l.len() - 1] == ']'
}

/// One or more `m`, then a space.
pub open spec fn marked_item_line(l: Seq<char>, m: char) -> bool {
    let n = run_end(l, m, 0);
    1 <= n < l.len() && l[n] == ' '
}

/// `term::description`: a non-empty term before the first `::`; the
/// description after it may be empty.
pub open spec fn description_line(l: Seq<char>) -> bool {
    match find_pair(l, ':', ':', 0) {
        Some(p) => p > 0,
        None => false,
    }
}

/// The list family a line opens or continues: 1 unordered, 2 ordered,
/// 3 description, 0 none (also for lines that a construct of higher
/// precedence claims).
pub open spec fn list_family(l: Seq<char>) -> nat {
    if section_line(l) || delimiter_line(l) || title_line(l) || anchor_line(l) {
        0
    } else if marked_item_line(l, '*') {
        1
    } else if marked_item_line(l, '.') {
        2
    } else if description_line(l) {
        3
    } else {
        0
    }
}

/// The line opens a construct of higher precedence than a paragraph.
pub open spec fn opens_block(l: Seq<char>) -> bool {
    section_line(l) || delimiter_line(l) || title_line(l) || anchor_line(l) || list_family(l) != 0
}

/// `= Title`: the document title line.
pub open spec fn doc_title_line(l: Seq<char>) -> bool {
    l.len() >= 2 && l[0] == '=' && l[1] == ' ' && trim(l.subrange(1, l.len() as int)).len() > 0
}

/// `:name: value`: a header attribute line.
pub open spec fn attribute_line(l: Seq<char>) -> bool {
    l.len() >= 1 && l[0] == ':' && match find_char(l, ':', 1) {
        Some(p) => p >= 2,
        None => false,
    }
}

// ---------------------------------------------------------------------------
// Recognising lines
// ---------------------------------------------------------------------------

/// Whether `s[lo..hi]` holds something other than whitespace.
fn has_text(s: &Vec<char>, lo: usize, hi: usize) -> (r: bool)
    requires
        lo <= hi <= s.len(),
    ensures
        r == (trim(s@.subrange(lo as int, hi as int)).len() > 0),
{
    let (a, b) = trim_range(s, lo, hi);
    a < b
}

pub fn is_section_line(l: &Vec<char>) -> (r: bool)
    ensures
        r == section_line(l@),
{
    let n = run_end_in(l, '=', 0);
    proof {
        lemma_run_end(l@, '=', 0);
    }
    2 <= n && n <= 6 && n < l.len() && l[n] == ' ' && has_text(l, n, l.len())
}

pub fn delimiter_kind_of(c: char) -> (r: Option<DelimitedBlockKind>)
    ensures
        r == delimiter_kind(c),
{
    if c == '-' {
        Some(DelimitedBlockKind::Listing)
    } else if c == '=' {
        Some(DelimitedBlockKind::Example)
    } else if c == '.' {
        Some(DelimitedBlockKind::Literal)
    } else if c == '*' {
        Some(DelimitedBlockKind::Sidebar)
    } else if c == '_' {
        Some(DelimitedBlockKind::Quote)
    } else {
        None
    }
}

pub fn is_delimiter_line(l: &Vec<char>) -> (r: bool)
    ensures
        r == delimiter_line(l@),
{
    l.len() >= 4 && delimiter_kind_of(l[0]).is_some() && run_end_in(l, l[0], 0) == l.len()
}

pub fn is_title_line(l: &Vec<char>) -> (r: bool)
    ensures
        r == title_line(l@),
{
    l.len() >= 2 && l[0] == '.' && l[1] != '.' && !is_space_char(l[1])
}

pub fn is_anchor_line(l: &Vec<char>) -> (r: bool)
    ensures
        r == anchor_line(l@),
{
    l.len() >= 4 && l[0] == '[' && l[1] == '[' && l[l.len() - 2] == ']' && l[l.len() - 1] == ']'
}

pub fn is_marked_item_line(l: &Vec<char>, m: char) -> (r: bool)
    ensures
        r == marked_item_line(l@, m),
{
    let n = run_end_in(l, m, 0);
    proof {
        lemma_run_end(l@, m, 0);
    }
    1 <= n && n < l.len() && l[n] == ' '
}

pub fn is_description_line(l: &Vec<char>) -> (r: bool)
    ensures
        r == description_line(l@),
{
    match find_pair_in(l, ':', ':', 0) {
        Some(p) => p > 0,
        None => false,
    }
}

pub fn list_family_of(l: &Vec<char>) -> (r: u8)
    ensures
        r as nat == list_family(l@),
{
    if is_section_line(l) || is_delimiter_line(l) || is_title_line(l) || is_anchor_line(l) {
        0
    } else if is_marked_item_line(l, '*') {
        1
    } else if is_marked_item_line(l, '.') {
        2
    } else if is_description_line(l) {
        3
    } else {
        0
    }
}

pub fn opens_block_line(l: &Vec<char>) -> (r: bool)
    ensures
        r == opens_block(l@),
{
    is_section_line(l) || is_delimiter_line(l) || is_title_line(l) || is_anchor_line(l)
        || list_family_of(l) != 0
}

pub fn is_blank_line(l: &Vec<char>) -> (r: bool)
    ensures
        r == blank_line(l@),
{
    is_blank(l)
}

pub fn is_doc_title_line(l: &Vec<char>) -> (r: bool)
    ensures
        r == doc_title_line(l@),
{
    l.len() >= 2 && l[0] == '=' && l[1] == ' ' && has_text(l, 1, l.len())
}

pub fn is_attribute_line(l: &Vec<char>) -> (r: bool)
    ensures
        r == attribute_line(l@),
{
    if l.len() >= 1 && l[0] == ':' {
        proof {
            lemma_find_char(l@, ':', 1);
        }
        match find_char_in(l, ':', 1) {
            Some(p) => p >= 2,
            None => false,
        }
    } else {
        false
    }
}

} // verus!
