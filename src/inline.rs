//! The inline scanner: one left-to-right pass that turns a run of text into
//! text, formatted spans, links and cross-references.
use crate::ast::{FormattedTextKind, InlineElement, InlineView, MacroKind, inlines_view, opt_view};
use crate::text::{
    chars_of, find_char, find_char_in, find_pair, find_pair_in, is_space, is_space_char,
    lemma_find_char, lemma_find_pair, non_empty, slice_of, string_of, trim, trim_range,
};
use vstd::prelude::*;

verus! {

// ---------------------------------------------------------------------------
// What the scanner produces
// ---------------------------------------------------------------------------

/// The span that a symmetric marker character opens.
pub open spec fn format_kind(c: char) -> Option<FormattedTextKind> {
    if c == '*' {
        Some(FormattedTextKind::Strong)
    } else if c == '_' {
        Some(FormattedTextKind::Emphasis)
    } else if c == '`' {
        Some(FormattedTextKind::Monospace)
    } else if c == '^' {
        Some(FormattedTextKind::Superscript)
    } else if c == '~' {
        Some(FormattedTextKind::Subscript)
    } else {
        None
    }
}

/// `link:` starts at `i`.
pub open spec fn link_at(t: Seq<char>, i: int) -> bool {
    0 <= i && i + 5 <= t.len() && t[i] == 'l' && t[i + 1] == 'i' && t[i + 2] == 'n' && t[i + 3]
        == 'k' && t[i + 4] == ':'
}

/// `https://` starts at `i`.
pub open spec fn https_at(t: Seq<char>, i: int) -> bool {
    0 <= i && i + 8 <= t.len() && t[i] == 'h' && t[i + 1] == 't' && t[i + 2] == 't' && t[i + 3]
        == 'p' && t[i + 4] == 's' && t[i + 5] == ':' && t[i + 6] == '/' && t[i + 7] == '/'
}

/// `http://` starts at `i`.
pub open spec fn http_at(t: Seq<char>, i: int) -> bool {
    0 <= i && i + 7 <= t.len() && t[i] == 'h' && t[i + 1] == 't' && t[i + 2] == 't' && t[i + 3]
        == 'p' && t[i + 4] == ':' && t[i + 5] == '/' && t[i + 6] == '/'
}

/// `<<` starts at `i`.
pub open spec fn xref_at(t: Seq<char>, i: int) -> bool {
    0 <= i && i + 2 <= t.len() && t[i] == '<' && t[i + 1] == '<'
}

/// One of the nine markers starts at `i`.
pub open spec fn marker_at(t: Seq<char>, i: int) -> bool {
    0 <= i < t.len() && (format_kind(t[i]) is Some || link_at(t, i) || https_at(t, i) || http_at(
        t,
        i,
    ) || xref_at(t, i))
}

/// The first position `>= i` where a marker starts, or the length of `t`.
pub open spec fn next_marker(t: Seq<char>, i: int) -> int
    decreases t.len() - i,
{
    if i < 0 || i >= t.len() {
        t.len() as int
    } else if marker_at(t, i) {
        i
    } else {
        next_marker(t, i + 1)
    }
}

/// A bare URL ends before the character at `j`.
pub open spec fn url_stop(t: Seq<char>, j: int) -> bool {
    let c = t[j];
    is_space(c) || c == ',' || c == ')' || c == '>' || c == '[' || (c == '.' && (j + 1
        >= t.len() || is_space(t[j + 1])))
}

/// Where a bare URL that reaches position `j` ends.
pub open spec fn url_end(t: Seq<char>, j: int) -> int
    decreases t.len() - j,
{
    if j < 0 || j >= t.len() {
        t.len() as int
    } else if url_stop(t, j) {
        j
    } else {
        url_end(t, j + 1)
    }
}

/// A cross-reference with interior `c`: `target` or `target, text`.
pub open spec fn xref_of(c: Seq<char>) -> InlineView {
    match find_char(c, ',', 0) {
        Some(k) => InlineView::CrossReference {
            target: trim(c.subrange(0, k)),
            text: non_empty(trim(c.subrange(k + 1, c.len() as int))),
        },
        None => InlineView::CrossReference { target: c, text: None },
    }
}

/// The element that the marker at `p` yields, and where scanning resumes.
pub open spec fn step(t: Seq<char>, p: int) -> (InlineView, int) {
    if format_kind(t[p]) is Some {
        match find_char(t, t[p], p + 1) {
            Some(q) => (
                InlineView::Formatted {
                    kind: format_kind(t[p])->0,
                    content: seq![InlineView::Text(t.subrange(p + 1, q))],
                },
                q + 1,
            ),
            None => (InlineView::Text(t.subrange(p, p + 1)), p + 1),
        }
    } else if link_at(t, p) {
        match find_char(t, '[', p + 5) {
            Some(b) => match find_char(t, ']', b + 1) {
                Some(e) => (
                    InlineView::Link { url: t.subrange(p + 5, b), text: non_empty(t.subrange(b + 1, e)) },
                    e + 1,
                ),
                None => (InlineView::Text(t.subrange(p, p + 5)), p + 5),
            },
            None => (InlineView::Text(t.subrange(p, p + 5)), p + 5),
        }
    } else if https_at(t, p) || http_at(t, p) {
        let u = url_end(t, p);
        let url = t.subrange(p, u);
        if u < t.len() && t[u] == '[' {
            match find_char(t, ']', u + 1) {
                Some(e) => (InlineView::Link { url, text: non_empty(t.subrange(u + 1, e)) }, e + 1),
                None => (InlineView::Link { url, text: Some(url) }, u),
            }
        } else {
            (InlineView::Link { url, text: Some(url) }, u)
        }
    } else {
        match find_pair(t, '>', '>', p + 2) {
            Some(e) => (xref_of(t.subrange(p + 2, e)), e + 2),
            None => (InlineView::Text(t.subrange(p, p + 2)), p + 2),
        }
    }
}

/// The elements that scanning `t` from position `i` yields.
pub open spec fn scan_from(t: Seq<char>, i: int) -> Seq<InlineView>
    decreases t.len() - i,
{
    if i < 0 || i >= t.len() {
        Seq::empty()
    } else {
        let p = next_marker(t, i);
        if p >= t.len() {
            seq![InlineView::Text(t.subrange(i, t.len() as int))]
        } else {
            let pre = if p > i {
                seq![InlineView::Text(t.subrange(i, p))]
            } else {
                Seq::empty()
            };
            let n = step(t, p).1;
            if i < n <= t.len() {
                pre.push(step(t, p).0) + scan_from(t, n)
            } else {
                pre.push(step(t, p).0)
            }
        }
    }
}

/// The elements that the scanner makes of `t`.
pub open spec fn scan(t: Seq<char>) -> Seq<InlineView> {
    scan_from(t, 0)
}

pub proof fn lemma_next_marker(t: Seq<char>, i: int)
    requires
        0 <= i <= t.len(),
    ensures
        i <= next_marker(t, i) <= t.len(),
        next_marker(t, i) < t.len() ==> marker_at(t, next_marker(t, i)),
        forall|k: int| i <= k < next_marker(t, i) ==> !marker_at(t, k),
    decreases t.len() - i,
{
    if i < t.len() && !marker_at(t, i) {
        lemma_next_marker(t, i + 1);
    }
}

pub proof fn lemma_url_end(t: Seq<char>, j: int)
    requires
        0 <= j <= t.len(),
    ensures
        j <= url_end(t, j) <= t.len(),
    decreases t.len() - j,
{
    if j < t.len() && !url_stop(t, j) {
        lemma_url_end(t, j + 1);
    }
}

/// Scanning resumes after the marker, inside the text.
pub proof fn lemma_step(t: Seq<char>, p: int)
    requires
        marker_at(t, p),
    ensures
        p < step(t, p).1 <= t.len(),
{
    lemma_find_char(t, t[p], p + 1);
    lemma_find_char(t, '[', p + 5);
    lemma_url_end(t, p);
    lemma_url_end(t, p + 1);
    lemma_find_pair(t, '>', '>', p + 2);
    if link_at(t, p) {
        if let Some(b) = find_char(t, '[', p + 5) {
            lemma_find_char(t, ']', b + 1);
        }
    }
    let u = url_end(t, p);
    if u < t.len() {
        lemma_find_char(t, ']', u + 1);
    }
}

// ---------------------------------------------------------------------------
// The scanner
// ---------------------------------------------------------------------------

fn format_kind_of(c: char) -> (r: Option<FormattedTextKind>)
    ensures
        r == format_kind(c),
{
    if c == '*' {
        Some(FormattedTextKind::Strong)
    } else if c == '_' {
        Some(FormattedTextKind::Emphasis)
    } else if c == '`' {
        Some(FormattedTextKind::Monospace)
    } else if c == '^' {
        Some(FormattedTextKind::Superscript)
    } else if c == '~' {
        Some(FormattedTextKind::Subscript)
    } else {
        None
    }
}

fn is_link_at(t: &Vec<char>, i: usize) -> (r: bool)
    ensures
        r == link_at(t@, i as int),
{
    i < t.len() && t.len() - i >= 5 && t[i] == 'l' && t[i + 1] == 'i' && t[i + 2] == 'n' && t[i
        + 3] == 'k' && t[i + 4] == ':'
}

fn is_url_at(t: &Vec<char>, i: usize) -> (r: bool)
    ensures
        r == (https_at(t@, i as int) || http_at(t@, i as int)),
{
    if i < t.len() && t.len() - i >= 7 && t[i] == 'h' && t[i + 1] == 't' && t[i + 2] == 't' && t[i
        + 3] == 'p' {
        (t[i + 4] == ':' && t[i + 5] == '/' && t[i + 6] == '/') || (t.len() - i >= 8 && t[i + 4]
            == 's' && t[i + 5] == ':' && t[i + 6] == '/' && t[i + 7] == '/')
    } else {
        false
    }
}

fn is_xref_at(t: &Vec<char>, i: usize) -> (r: bool)
    ensures
        r == xref_at(t@, i as int),
{
    i < t.len() && t.len() - i >= 2 && t[i] == '<' && t[i + 1] == '<'
}

fn is_marker_at(t: &Vec<char>, i: usize) -> (r: bool)
    requires
        i < t.len(),
    ensures
        r == marker_at(t@, i as int),
{
    format_kind_of(t[i]).is_some() || is_link_at(t, i) || is_url_at(t, i) || is_xref_at(t, i)
}

fn next_marker_in(t: &Vec<char>, from: usize) -> (r: usize)
    requires
        from <= t.len(),
    ensures
        r == next_marker(t@, from as int),
{
    let mut i = from;
    while i < t.len() && !is_marker_at(t, i)
        invariant
            from <= i <= t.len(),
            next_marker(t@, from as int) == next_marker(t@, i as int),
        decreases t.len() - i,
    {
        i += 1;
    }
    i
}

fn url_end_in(t: &Vec<char>, from: usize) -> (r: usize)
    requires
        from <= t.len(),
    ensures
        r == url_end(t@, from as int),
{
    let mut j = from;
    while j < t.len()
        invariant
            from <= j <= t.len(),
            url_end(t@, from as int) == url_end(t@, j as int),
        decreases t.len() - j,
    {
        let c = t[j];
        if is_space_char(c) || c == ',' || c == ')' || c == '>' || c == '[' {
            return j;
        }
        if c == '.' && (j + 1 >= t.len() || is_space_char(t[j + 1])) {
            return j;
        }
        j += 1;
    }
    j
}

/// `Some` of `t[lo..hi]` when that is not empty.
fn label_of(t: &Vec<char>, lo: usize, hi: usize) -> (r: Option<String>)
    requires
        lo <= hi <= t.len(),
    ensures
        opt_view(r) == non_empty(t@.subrange(lo as int, hi as int)),
{
    if lo < hi {
        Some(string_of(t, lo, hi))
    } else {
        None
    }
}

fn text_of(t: &Vec<char>, lo: usize, hi: usize) -> (r: InlineElement)
    requires
        lo <= hi <= t.len(),
    ensures
        r.view() == InlineView::Text(t@.subrange(lo as int, hi as int)),
{
    InlineElement::Text(string_of(t, lo, hi))
}

fn xref_from(c: &Vec<char>) -> (r: InlineElement)
    ensures
        r.view() == xref_of(c@),
{
    match find_char_in(c, ',', 0) {
        Some(k) => {
            proof {
                lemma_find_char(c@, ',', 0);
            }
            let (a, b) = trim_range(c, 0, k);
            let (x, y) = trim_range(c, k + 1, c.len());
            InlineElement::Macro {
                kind: MacroKind::CrossReference { target: string_of(c, a, b), text: label_of(c, x, y) },
            }
        },
        None => {
            let target = string_of(c, 0, c.len());
            assert(c@.subrange(0, c@.len() as int) =~= c@);
            InlineElement::Macro { kind: MacroKind::CrossReference { target, text: None } }
        },
    }
}

/// The element that the marker at `p` yields, and where scanning resumes.
fn step_at(t: &Vec<char>, p: usize) -> (r: (InlineElement, usize))
    requires
        marker_at(t@, p as int),
    ensures
        r.0.view() == step(t@, p as int).0,
        r.1 == step(t@, p as int).1,
        p < r.1 <= t.len(),
{
    let n = t.len();
    assert(p < n);
    proof {
        lemma_step(t@, p as int);
    }
    if let Some(kind) = format_kind_of(t[p]) {
        proof {
            lemma_find_char(t@, t@[p as int], p + 1);
        }
        match find_char_in(t, t[p], p + 1) {
            Some(q) => {
                let inner = text_of(t, p + 1, q);
                let ghost iv = inner.view();
                let e = InlineElement::Formatted { kind, content: vec![inner] };
                assert(e.view() == InlineView::Formatted { kind, content: seq![iv] }) by {
                    if let InlineView::Formatted { content, .. } = e.view() {
                        assert(content =~= seq![iv]);
                    }
                }
                (e, q + 1)
            },
            None => (text_of(t, p, p + 1), p + 1),
        }
    } else if is_link_at(t, p) {
        proof {
            lemma_find_char(t@, '[', p + 5);
        }
        match find_char_in(t, '[', p + 5) {
            Some(b) => {
                proof {
                    lemma_find_char(t@, ']', b + 1);
                }
                match find_char_in(t, ']', b + 1) {
                    Some(e) => {
                        let url = string_of(t, p + 5, b);
                        let text = label_of(t, b + 1, e);
                        (InlineElement::Macro { kind: MacroKind::Link { url, text } }, e + 1)
                    },
                    None => (text_of(t, p, p + 5), p + 5),
                }
            },
            None => (text_of(t, p, p + 5), p + 5),
        }
    } else if is_url_at(t, p) {
        proof {
            lemma_url_end(t@, p as int);
        }
        let u = url_end_in(t, p);
        if u < t.len() && t[u] == '[' {
            proof {
                lemma_find_char(t@, ']', u + 1);
            }
            match find_char_in(t, ']', u + 1) {
                Some(e) => {
                    let url = string_of(t, p, u);
                    let text = label_of(t, u + 1, e);
                    (InlineElement::Macro { kind: MacroKind::Link { url, text } }, e + 1)
                },
                None => {
                    let url = string_of(t, p, u);
                    let text = Some(string_of(t, p, u));
                    (InlineElement::Macro { kind: MacroKind::Link { url, text } }, u)
                },
            }
        } else {
            let url = string_of(t, p, u);
            let text = Some(string_of(t, p, u));
            (InlineElement::Macro { kind: MacroKind::Link { url, text } }, u)
        }
    } else {
        proof {
            lemma_find_pair(t@, '>', '>', p + 2);
        }
        match find_pair_in(t, '>', '>', p + 2) {
            Some(e) => {
                let c = slice_of(t, p + 2, e);
                (xref_from(&c), e + 2)
            },
            None => (text_of(t, p, p + 2), p + 2),
        }
    }
}

/// Scans a run of characters into inline elements.
pub fn scan_chars(t: &Vec<char>) -> (r: Vec<InlineElement>)
    ensures
        inlines_view(r@) == scan(t@),
{
    let mut r: Vec<InlineElement> = Vec::new();
    let mut pos: usize = 0;
    while pos < t.len()
        invariant
            pos <= t.len(),
            inlines_view(r@) + scan_from(t@, pos as int) == scan(t@),
        decreases t.len() - pos,
    {
        let ghost r0 = inlines_view(r@);
        let p = next_marker_in(t, pos);
        proof {
            lemma_next_marker(t@, pos as int);
        }
        if p >= t.len() {
            r.push(text_of(t, pos, t.len()));
            assert(inlines_view(r@) =~= r0 + scan_from(t@, pos as int));
            pos = t.len();
        } else {
            if p > pos {
                r.push(text_of(t, pos, p));
            }
            let ghost r1 = inlines_view(r@);
            let (e, n) = step_at(t, p);
            r.push(e);
            assert(inlines_view(r@) =~= r1.push(e.view()));
            assert(r1 =~= r0 + (if p > pos {
                seq![InlineView::Text(t@.subrange(pos as int, p as int))]
            } else {
                Seq::empty()
            }));
            assert(inlines_view(r@) + scan_from(t@, n as int) =~= r0 + scan_from(t@, pos as int));
            pos = n;
        }
    }
    assert(inlines_view(r@) =~= inlines_view(r@) + scan_from(t@, pos as int));
    r
}

/// Scans a run of paragraph or list-item text into inline elements.
pub fn parse_paragraph_content(text: &str) -> (r: Vec<InlineElement>)
    ensures
        inlines_view(r@) == scan(text@),
{
    let t = chars_of(text);
    scan_chars(&t)
}

} // verus!
