//! Properties of the parser and the emitter, stated over their models and
//! proved.
use crate::ast::{BlockView, FormattedTextKind, InlineView};
use crate::ast::DocumentView;
use crate::block::{block_at, body_from, closer, join_lines, para_inlines};
use crate::lines::{delimiter_kind, delimiter_line, lines, split_from};
use crate::parser::document_of;
use crate::text::lemma_run_end;
use crate::html::{block_html, escape, escape_char, heading_digit, inline_html};
use crate::inline::{
    format_kind, http_at, https_at, lemma_next_marker, lemma_step, link_at, marker_at,
    next_marker, scan, scan_from, step, xref_at,
};
use crate::parser::{attribute_text, merges_at, reconcile};
use crate::text::{find_char, is_space, lemma_find_char};
use vstd::prelude::*;

verus! {

// ---------------------------------------------------------------------------
// Escaping
// ---------------------------------------------------------------------------

/// A character that escaping replaces by an entity.
pub open spec fn special(c: char) -> bool {
    c == '&' || c == '<' || c == '>' || c == '"' || c == '\''
}

proof fn lemma_escape_char(c: char)
    ensures
        special(c) ==> escape_char(c).len() > 1 && escape_char(c)[0] == '&',
        !special(c) ==> escape_char(c) == seq![c],
{
    reveal_strlit("&amp;");
    reveal_strlit("&lt;");
    reveal_strlit("&gt;");
    reveal_strlit("&quot;");
    reveal_strlit("&#39;");
}

proof fn lemma_escape_length(s: Seq<char>)
    ensures
        escape(s).len() >= s.len(),
        (exists|k: int| 0 <= k < s.len() && special(#[trigger] s[k])) ==> escape(s).len() > s.len(),
        (forall|k: int| 0 <= k < s.len() ==> !special(#[trigger] s[k])) ==> escape(s) == s,
    decreases s.len(),
{
    if s.len() > 0 {
        let init = s.drop_last();
        lemma_escape_length(init);
        lemma_escape_char(s.last());
        if exists|k: int| 0 <= k < s.len() && special(#[trigger] s[k]) {
            let k = choose|k: int| 0 <= k < s.len() && special(#[trigger] s[k]);
            if k < s.len() - 1 {
                assert(init[k] == s[k]);
            }
        }
        if forall|k: int| 0 <= k < s.len() ==> !special(#[trigger] s[k]) {
            assert(forall|k: int| 0 <= k < init.len() ==> init[k] == s[k]);
            assert(!special(s[s.len() - 1]));
            assert(init.push(s.last()) =~= s);
        }
    }
}

proof fn lemma_escape_has_ampersand(s: Seq<char>, k: int)
    requires
        0 <= k < s.len(),
        special(s[k]),
    ensures
        exists|j: int| 0 <= j < escape(s).len() && special(#[trigger] escape(s)[j]),
    decreases s.len(),
{
    let init = s.drop_last();
    lemma_escape_char(s.last());
    if k == s.len() - 1 {
        assert(escape(s)[escape(init).len() as int] == '&');
    } else {
        assert(init[k] == s[k]);
        lemma_escape_has_ampersand(init, k);
        let j = choose|j: int| 0 <= j < escape(init).len() && special(#[trigger] escape(init)[j]);
        assert(escape(s)[j] == escape(init)[j]);
    }
}

/// Escaping is not idempotent: escaping twice gives what escaping once
/// gives exactly when the text holds none of `& < > " '` (and then both
/// leave it as it is).
pub proof fn law_escape_twice(s: Seq<char>)
    ensures
        (escape(escape(s)) == escape(s)) <==> (forall|k: int|
            0 <= k < s.len() ==> !special(#[trigger] s[k])),
        (forall|k: int| 0 <= k < s.len() ==> !special(#[trigger] s[k])) ==> escape(s) == s,
{
    lemma_escape_length(s);
    lemma_escape_length(escape(s));
    if !(forall|k: int| 0 <= k < s.len() ==> !special(#[trigger] s[k])) {
        let k = choose|k: int| 0 <= k < s.len() && special(#[trigger] s[k]);
        lemma_escape_has_ampersand(s, k);
    }
}

/// `s` with every `c` replaced by `r`.
pub open spec fn replace_char(s: Seq<char>, c: char, r: Seq<char>) -> Seq<char>
    decreases s.len(),
{
    if s.len() == 0 {
        Seq::empty()
    } else {
        replace_char(s.drop_last(), c, r) + if s.last() == c {
            r
        } else {
            seq![s.last()]
        }
    }
}

/// The five replacements in their order: `&` first, so that the ampersands
/// the later ones bring in stay as they are.
pub open spec fn replace_in_order(s: Seq<char>) -> Seq<char> {
    replace_char(
        replace_char(
            replace_char(replace_char(replace_char(s, '&', "&amp;"@), '<', "&lt;"@), '>', "&gt;"@),
            '"',
            "&quot;"@,
        ),
        '\'',
        "&#39;"@,
    )
}

proof fn lemma_replace_concat(a: Seq<char>, b: Seq<char>, c: char, r: Seq<char>)
    ensures
        replace_char(a + b, c, r) == replace_char(a, c, r) + replace_char(b, c, r),
    decreases b.len(),
{
    if b.len() == 0 {
        assert(a + b =~= a);
        assert(replace_char(a, c, r) + replace_char(b, c, r) =~= replace_char(a, c, r));
    } else {
        lemma_replace_concat(a, b.drop_last(), c, r);
        assert((a + b).drop_last() =~= a + b.drop_last());
        assert((a + b).last() == b.last());
        assert(replace_char(a + b, c, r) =~= replace_char(a, c, r) + replace_char(b, c, r));
    }
}

proof fn lemma_replace_absent(s: Seq<char>, c: char, r: Seq<char>)
    requires
        forall|k: int| 0 <= k < s.len() ==> s[k] != c,
    ensures
        replace_char(s, c, r) == s,
    decreases s.len(),
{
    if s.len() > 0 {
        lemma_replace_absent(s.drop_last(), c, r);
        assert(s.drop_last().push(s.last()) =~= s);
    }
}

proof fn lemma_replace_one(x: char, c: char, r: Seq<char>)
    ensures
        replace_char(seq![x], c, r) == if x == c {
            r
        } else {
            seq![x]
        },
{
    assert(seq![x].drop_last() =~= Seq::<char>::empty());
    assert(replace_char(Seq::<char>::empty(), c, r) == Seq::<char>::empty());
    assert(Seq::<char>::empty() + r =~= r);
    assert(Seq::<char>::empty() + seq![x] =~= seq![x]);
}

/// The five replacements in order, made on one character, give its HTML form.
proof fn lemma_chain_one(x: char)
    ensures
        replace_in_order(seq![x]) == escape_char(x),
{
    reveal_strlit("&amp;");
    reveal_strlit("&lt;");
    reveal_strlit("&gt;");
    reveal_strlit("&quot;");
    reveal_strlit("&#39;");
    lemma_replace_one(x, '&', "&amp;"@);
    let s1 = replace_char(seq![x], '&', "&amp;"@);
    if x == '&' {
        lemma_replace_absent(s1, '<', "&lt;"@);
        lemma_replace_absent(s1, '>', "&gt;"@);
        lemma_replace_absent(s1, '"', "&quot;"@);
        lemma_replace_absent(s1, '\'', "&#39;"@);
    } else {
        lemma_replace_one(x, '<', "&lt;"@);
        let s2 = replace_char(s1, '<', "&lt;"@);
        if x == '<' {
            lemma_replace_absent(s2, '>', "&gt;"@);
            lemma_replace_absent(s2, '"', "&quot;"@);
            lemma_replace_absent(s2, '\'', "&#39;"@);
        } else {
            lemma_replace_one(x, '>', "&gt;"@);
            let s3 = replace_char(s2, '>', "&gt;"@);
            if x == '>' {
                lemma_replace_absent(s3, '"', "&quot;"@);
                lemma_replace_absent(s3, '\'', "&#39;"@);
            } else {
                lemma_replace_one(x, '"', "&quot;"@);
                let s4 = replace_char(s3, '"', "&quot;"@);
                if x == '"' {
                    lemma_replace_absent(s4, '\'', "&#39;"@);
                } else {
                    lemma_replace_one(x, '\'', "&#39;"@);
                }
            }
        }
    }
}

proof fn lemma_chain_concat(a: Seq<char>, b: Seq<char>)
    ensures
        replace_in_order(a + b) == replace_in_order(a) + replace_in_order(b),
{
    let r1 = "&amp;"@;
    let r2 = "&lt;"@;
    let r3 = "&gt;"@;
    let r4 = "&quot;"@;
    let r5 = "&#39;"@;
    lemma_replace_concat(a, b, '&', r1);
    let a1 = replace_char(a, '&', r1);
    let b1 = replace_char(b, '&', r1);
    lemma_replace_concat(a1, b1, '<', r2);
    let a2 = replace_char(a1, '<', r2);
    let b2 = replace_char(b1, '<', r2);
    lemma_replace_concat(a2, b2, '>', r3);
    let a3 = replace_char(a2, '>', r3);
    let b3 = replace_char(b2, '>', r3);
    lemma_replace_concat(a3, b3, '"', r4);
    let a4 = replace_char(a3, '"', r4);
    let b4 = replace_char(b3, '"', r4);
    lemma_replace_concat(a4, b4, '\'', r5);
}

/// Escaping character by character gives what the five replacements give
/// when made one after the other, `&` first.
pub proof fn law_escape_is_ordered_replacement(s: Seq<char>)
    ensures
        escape(s) == replace_in_order(s),
    decreases s.len(),
{
    if s.len() == 0 {
        lemma_replace_absent(s, '&', "&amp;"@);
        lemma_replace_absent(s, '<', "&lt;"@);
        lemma_replace_absent(s, '>', "&gt;"@);
        lemma_replace_absent(s, '"', "&quot;"@);
        lemma_replace_absent(s, '\'', "&#39;"@);
    } else {
        law_escape_is_ordered_replacement(s.drop_last());
        lemma_chain_concat(s.drop_last(), seq![s.last()]);
        lemma_chain_one(s.last());
        assert(s.drop_last() + seq![s.last()] =~= s);
    }
}

// ---------------------------------------------------------------------------
// Reconciliation
// ---------------------------------------------------------------------------

/// No attribute paragraph stands right before a delimited block.
pub open spec fn settled(bs: Seq<BlockView>) -> bool {
    forall|k: int| !merges_at(bs, k)
}

/// No attribute paragraph stands right before another attribute paragraph
/// that is itself followed by a delimited block.
pub open spec fn no_attribute_chain(bs: Seq<BlockView>) -> bool {
    forall|k: int| 0 <= k < bs.len() && attribute_text(bs[k]) is Some ==> !merges_at(bs, k + 1)
}

proof fn lemma_settled_unchanged(bs: Seq<BlockView>)
    requires
        settled(bs),
    ensures
        reconcile(bs) == bs,
    decreases bs.len(),
{
    if bs.len() > 0 {
        let rest = bs.subrange(1, bs.len() as int);
        assert(!merges_at(bs, 0));
        assert forall|k: int| !merges_at(rest, k) by {
            assert(!merges_at(bs, k + 1));
            if 0 <= k && k + 1 < rest.len() {
                assert(rest[k] == bs[k + 1] && rest[k + 1] == bs[k + 2]);
            }
        }
        lemma_settled_unchanged(rest);
        assert(seq![bs[0]] + rest =~= bs);
    }
}

proof fn lemma_reconcile_head(bs: Seq<BlockView>)
    requires
        bs.len() > 0,
    ensures
        reconcile(bs).len() > 0,
        (reconcile(bs)[0] is Delimited) <==> (bs[0] is Delimited || merges_at(bs, 0)),
    decreases bs.len(),
{
    if merges_at(bs, 0) {
        let next = seq![
            crate::parser::with_language(
                bs[1],
                crate::parser::language_of(
                    crate::parser::attribute_entries(attribute_text(bs[0])->0),
                ),
            ),
        ] + bs.subrange(2, bs.len() as int);
        lemma_reconcile_head(next);
    }
}

proof fn lemma_reconcile_settled(bs: Seq<BlockView>)
    requires
        no_attribute_chain(bs),
    ensures
        settled(reconcile(bs)),
    decreases bs.len(),
{
    if bs.len() > 0 {
        if merges_at(bs, 0) {
            let d = crate::parser::with_language(
                bs[1],
                crate::parser::language_of(
                    crate::parser::attribute_entries(attribute_text(bs[0])->0),
                ),
            );
            let next = seq![d] + bs.subrange(2, bs.len() as int);
            assert forall|k: int|
                0 <= k < next.len() && attribute_text(next[k]) is Some implies !merges_at(
                next,
                k + 1,
            ) by {
                if k > 0 {
                    assert(next[k] == bs[k + 1]);
                    assert(!merges_at(bs, k + 2));
                    if k + 2 < next.len() {
                        assert(next[k + 1] == bs[k + 2] && next[k + 2] == bs[k + 3]);
                    }
                }
            }
            lemma_reconcile_settled(next);
        } else {
            let rest = bs.subrange(1, bs.len() as int);
            assert forall|k: int|
                0 <= k < rest.len() && attribute_text(rest[k]) is Some implies !merges_at(
                rest,
                k + 1,
            ) by {
                assert(rest[k] == bs[k + 1]);
                assert(!merges_at(bs, k + 2));
                if k + 2 < rest.len() {
                    assert(rest[k + 1] == bs[k + 2] && rest[k + 2] == bs[k + 3]);
                }
            }
            lemma_reconcile_settled(rest);
            let r = reconcile(rest);
            let out = seq![bs[0]] + r;
            assert(reconcile(bs) == out);
            assert forall|k: int| !merges_at(out, k) by {
                if k == 0 && out.len() > 1 && attribute_text(bs[0]) is Some {
                    assert(!merges_at(bs, 1));
                    lemma_reconcile_head(rest);
                    assert(rest[0] == bs[1]);
                    if rest.len() > 1 {
                        assert(rest[1] == bs[2]);
                    }
                }
                if k > 0 {
                    assert(!merges_at(r, k - 1));
                    if k + 1 < out.len() {
                        assert(out[k] == r[k - 1] && out[k + 1] == r[k]);
                    }
                }
            }
        }
    }
}

/// A second pass of reconciliation changes nothing, unless an attribute
/// paragraph stands right before another one that a delimited block follows
/// (the first pass then leaves the outer paragraph before the block it made).
pub proof fn law_reconcile_fixed_point(bs: Seq<BlockView>)
    requires
        no_attribute_chain(bs),
    ensures
        reconcile(reconcile(bs)) == reconcile(bs),
{
    lemma_reconcile_settled(bs);
    lemma_settled_unchanged(reconcile(bs));
}

/// An attribute paragraph whose next block is not a delimited block stays
/// where it is.
pub proof fn law_attribute_paragraph_kept(p: BlockView, b: BlockView, rest: Seq<BlockView>)
    requires
        attribute_text(p) is Some,
        !(b is Delimited),
    ensures
        reconcile(seq![p, b] + rest) == seq![p] + reconcile(seq![b] + rest),
{
    let bs = seq![p, b] + rest;
    assert(!merges_at(bs, 0));
    assert(bs.subrange(1, bs.len() as int) =~= seq![b] + rest);
}

// ---------------------------------------------------------------------------
// Emission and scanning at the edges
// ---------------------------------------------------------------------------

/// Sections deeper than six levels render as `<h6>`; the tree keeps the level.
pub proof fn law_deep_section_heading(level: nat, title: Seq<char>, blocks: Seq<BlockView>)
    requires
        level >= 6,
    ensures
        heading_digit(level) == '6',
        block_html(BlockView::Section { level, title, blocks }) == block_html(
            BlockView::Section { level: 6, title, blocks },
        ),
{
}

/// A link without text shows its URL as the text.
pub proof fn law_link_without_text(url: Seq<char>)
    ensures
        inline_html(InlineView::Link { url, text: None }) == "<a href=\""@ + escape(url) + "\">"@
            + escape(url) + "</a>"@,
{
}

/// A formatting marker that is never closed is kept as a literal character,
/// and scanning goes on right after it.
pub proof fn law_unclosed_marker(t: Seq<char>, p: int)
    requires
        0 <= p < t.len(),
        format_kind(t[p]) is Some,
        forall|k: int| p < k < t.len() ==> t[k] != t[p],
    ensures
        step(t, p) == (InlineView::Text(seq![t[p]]), p + 1),
{
    lemma_find_char(t, t[p], p + 1);
    assert(t.subrange(p, p + 1) =~= seq![t[p]]);
}

// ---------------------------------------------------------------------------
// The text of a paragraph
// ---------------------------------------------------------------------------

/// The character that marks a formatted span of `kind`.
pub open spec fn marker_char(kind: FormattedTextKind) -> char {
    match kind {
        FormattedTextKind::Strong => '*',
        FormattedTextKind::Emphasis => '_',
        FormattedTextKind::Monospace => '`',
        FormattedTextKind::Superscript => '^',
        FormattedTextKind::Subscript => '~',
    }
}

/// The text an element stands for, with the markers of a formatted span put
/// back around it.
pub open spec fn source_text(e: InlineView) -> Seq<char> {
    match e {
        InlineView::Text(s) => s,
        InlineView::Formatted { kind, content } => if content.len() == 1 {
            match content[0] {
                InlineView::Text(s) => seq![marker_char(kind)] + s + seq![marker_char(kind)],
                _ => Seq::empty(),
            }
        } else {
            Seq::empty()
        },
        _ => Seq::empty(),
    }
}

/// The texts of a run of elements, one after the other.
pub open spec fn source_texts(s: Seq<InlineView>) -> Seq<char>
    decreases s.len(),
{
    if s.len() == 0 {
        Seq::empty()
    } else {
        source_texts(s.drop_last()) + source_text(s.last())
    }
}

/// No macro starts anywhere in `t`.
pub open spec fn macro_free(t: Seq<char>) -> bool {
    forall|k: int| !link_at(t, k) && !https_at(t, k) && !http_at(t, k) && !xref_at(t, k)
}

/// Lines `a..b` joined by single spaces.
pub open spec fn spaced_lines(ls: Seq<Seq<char>>, a: int, b: int) -> Seq<char>
    decreases b - a,
{
    if b <= a {
        Seq::empty()
    } else if b == a + 1 {
        ls[a]
    } else {
        spaced_lines(ls, a, b - 1).push(' ') + ls[b - 1]
    }
}

proof fn lemma_source_texts_concat(a: Seq<InlineView>, b: Seq<InlineView>)
    ensures
        source_texts(a + b) == source_texts(a) + source_texts(b),
    decreases b.len(),
{
    if b.len() == 0 {
        assert(a + b =~= a);
        assert(source_texts(a) + source_texts(b) =~= source_texts(a));
    } else {
        lemma_source_texts_concat(a, b.drop_last());
        assert((a + b).drop_last() =~= a + b.drop_last());
        assert((a + b).last() == b.last());
        assert(source_texts(a + b) =~= source_texts(a) + source_texts(b));
    }
}

proof fn lemma_source_texts_one(e: InlineView)
    ensures
        source_texts(seq![e]) == source_text(e),
{
    assert(seq![e].drop_last() =~= Seq::<InlineView>::empty());
    assert(source_texts(Seq::<InlineView>::empty()) == Seq::<char>::empty());
    assert(seq![e].last() == e);
    assert(Seq::<char>::empty() + source_text(e) =~= source_text(e));
}

proof fn lemma_step_source(t: Seq<char>, p: int)
    requires
        macro_free(t),
        marker_at(t, p),
    ensures
        p < step(t, p).1 <= t.len(),
        source_text(step(t, p).0) == t.subrange(p, step(t, p).1),
{
    assert(!link_at(t, p) && !https_at(t, p) && !http_at(t, p) && !xref_at(t, p));
    lemma_step(t, p);
    lemma_find_char(t, t[p], p + 1);
    assert(source_text(step(t, p).0) =~= t.subrange(p, step(t, p).1));
}

proof fn lemma_scan_source(t: Seq<char>, i: int)
    requires
        macro_free(t),
        0 <= i <= t.len(),
    ensures
        source_texts(scan_from(t, i)) == t.subrange(i, t.len() as int),
    decreases t.len() - i,
{
    if i == t.len() {
        assert(source_texts(Seq::empty()) =~= t.subrange(i, t.len() as int));
    } else {
        lemma_next_marker(t, i);
        let p = next_marker(t, i);
        if p >= t.len() {
            lemma_source_texts_one(InlineView::Text(t.subrange(i, t.len() as int)));
        } else {
            lemma_step_source(t, p);
            let e = step(t, p).0;
            let n = step(t, p).1;
            let pre = if p > i {
                seq![InlineView::Text(t.subrange(i, p))]
            } else {
                Seq::empty()
            };
            assert(source_texts(pre) =~= t.subrange(i, p)) by {
                if p > i {
                    lemma_source_texts_one(InlineView::Text(t.subrange(i, p)));
                }
            }
            lemma_scan_source(t, n);
            lemma_source_texts_concat(pre, seq![e]);
            lemma_source_texts_one(e);
            assert(pre.push(e) =~= pre + seq![e]);
            lemma_source_texts_concat(pre.push(e), scan_from(t, n));
            assert(scan_from(t, i) == pre.push(e) + scan_from(t, n));
            assert(t.subrange(i, p) + t.subrange(p, n) + t.subrange(n, t.len() as int)
                =~= t.subrange(i, t.len() as int));
        }
    }
}

/// Where no macro occurs, the elements a paragraph is scanned into give back
/// its text (each formatted span with its markers around it), and that text
/// is the paragraph's lines joined by single spaces.
pub proof fn law_paragraph_text(ls: Seq<Seq<char>>, a: int, b: int)
    requires
        0 <= a <= b <= ls.len(),
        forall|k: int| a <= k < b ==> macro_free(#[trigger] ls[k]),
    ensures
        source_texts(para_inlines(ls, a, b)) == spaced_lines(ls, a, b),
    decreases b - a,
{
    if b == a {
    } else if b == a + 1 {
        lemma_scan_source(ls[a], 0);
        assert(ls[a].subrange(0, ls[a].len() as int) =~= ls[a]);
    } else {
        law_paragraph_text(ls, a, b - 1);
        let front = para_inlines(ls, a, b - 1);
        let space = InlineView::Text(seq![' ']);
        lemma_scan_source(ls[b - 1], 0);
        assert(ls[b - 1].subrange(0, ls[b - 1].len() as int) =~= ls[b - 1]);
        lemma_source_texts_concat(front.push(space), scan(ls[b - 1]));
        assert(front.push(space).drop_last() =~= front);
        assert(source_texts(front.push(space)) =~= spaced_lines(ls, a, b - 1).push(' '));
    }
}

// ---------------------------------------------------------------------------
// Delimited blocks keep their content
// ---------------------------------------------------------------------------

proof fn lemma_find_char_suffix(s: Seq<char>, b: Seq<char>, off: int, c: char, j: int)
    requires
        0 <= off <= s.len(),
        s.subrange(off, s.len() as int) == b,
        0 <= j,
    ensures
        find_char(s, c, off + j) == match find_char(b, c, j) {
            Some(k) => Some(k + off),
            None => None::<int>,
        },
    decreases b.len() - j,
{
    if j < b.len() {
        assert(s[off + j] == b[j]);
        if b[j] != c {
            lemma_find_char_suffix(s, b, off, c, j + 1);
        }
    }
}

proof fn lemma_split_suffix(s: Seq<char>, b: Seq<char>, off: int, sep: char, j: int)
    requires
        0 <= off <= s.len(),
        s.subrange(off, s.len() as int) == b,
        0 <= j,
    ensures
        split_from(s, sep, off + j) == split_from(b, sep, j),
    decreases b.len() - j,
{
    if j <= b.len() {
        lemma_find_char_suffix(s, b, off, sep, j);
        lemma_find_char(b, sep, j);
        if let Some(k) = find_char(b, sep, j) {
            lemma_split_suffix(s, b, off, sep, k + 1);
            assert(s.subrange(off + j, k + off) =~= b.subrange(j, k));
        } else {
            assert(s.subrange(off + j, s.len() as int) =~= b.subrange(j, b.len() as int));
        }
    }
}

proof fn lemma_find_char_prefix(s: Seq<char>, a: Seq<char>, c: char, i: int)
    requires
        a.len() <= s.len(),
        s.subrange(0, a.len() as int) == a,
        0 <= i <= a.len(),
    ensures
        find_char(a, c, i) is Some ==> find_char(s, c, i) == find_char(a, c, i),
        find_char(a, c, i) is None ==> find_char(s, c, i) == find_char(s, c, a.len() as int),
    decreases a.len() - i,
{
    if i < a.len() {
        assert(s[i] == a[i]);
        if a[i] != c {
            lemma_find_char_prefix(s, a, c, i + 1);
        }
    }
}

proof fn lemma_split_concat(a: Seq<char>, b: Seq<char>, sep: char, i: int)
    requires
        0 <= i <= a.len(),
    ensures
        split_from(a + seq![sep] + b, sep, i) == split_from(a, sep, i) + split_from(b, sep, 0),
    decreases a.len() - i,
{
    let s = a + seq![sep] + b;
    assert(s.subrange(0, a.len() as int) =~= a);
    lemma_find_char_prefix(s, a, sep, i);
    lemma_find_char(a, sep, i);
    match find_char(a, sep, i) {
        Some(k) => {
            lemma_split_concat(a, b, sep, k + 1);
            assert(s.subrange(i, k) =~= a.subrange(i, k));
            assert(split_from(s, sep, i) =~= split_from(a, sep, i) + split_from(b, sep, 0));
        },
        None => {
            assert(s[a.len() as int] == sep);
            assert(find_char(s, sep, a.len() as int) == Some(a.len() as int));
            assert(s.subrange(a.len() + 1int, s.len() as int) =~= b);
            lemma_split_suffix(s, b, a.len() + 1int, sep, 0);
            assert(s.subrange(i, a.len() as int) =~= a.subrange(i, a.len() as int));
            assert(split_from(s, sep, i) =~= split_from(a, sep, i) + split_from(b, sep, 0));
        },
    }
}

proof fn lemma_split_nonempty(x: Seq<char>, sep: char, i: int)
    requires
        0 <= i <= x.len(),
    ensures
        split_from(x, sep, i).len() >= 1,
{
    lemma_find_char(x, sep, i);
}

proof fn lemma_join_front(h: Seq<char>, l: Seq<Seq<char>>, n: int)
    requires
        1 <= n <= l.len(),
    ensures
        join_lines(seq![h] + l, 0, n + 1) == h.push('\n') + join_lines(l, 0, n),
    decreases n,
{
    let hl = seq![h] + l;
    if n == 1 {
        assert(hl[0] == h && hl[1] == l[0]);
        assert(join_lines(hl, 0, 1) == h);
        assert(join_lines(l, 0, 1) == l[0]);
        assert(join_lines(hl, 0, 2) == h.push('\n') + l[0]);
    } else {
        lemma_join_front(h, l, n - 1);
        assert(hl[n] == l[n - 1]);
        assert(join_lines(hl, 0, n + 1) =~= h.push('\n') + join_lines(l, 0, n));
    }
}

proof fn lemma_join_split(x: Seq<char>, i: int)
    requires
        0 <= i <= x.len(),
    ensures
        join_lines(split_from(x, '\n', i), 0, split_from(x, '\n', i).len() as int)
            == x.subrange(i, x.len() as int),
    decreases x.len() - i,
{
    lemma_find_char(x, '\n', i);
    match find_char(x, '\n', i) {
        Some(k) => {
            let rest = split_from(x, '\n', k + 1);
            lemma_split_nonempty(x, '\n', k + 1);
            lemma_join_split(x, k + 1);
            lemma_join_front(x.subrange(i, k), rest, rest.len() as int);
            assert(x.subrange(i, k).push('\n') + x.subrange(k + 1, x.len() as int) =~= x.subrange(
                i,
                x.len() as int,
            ));
        },
        None => {
        },
    }
}

proof fn lemma_join_same(l1: Seq<Seq<char>>, a: int, l2: Seq<Seq<char>>, c: int, n: int)
    requires
        0 <= n,
        forall|k: int| a <= k < a + n ==> #[trigger] l1[k] == l2[k - a + c],
    ensures
        join_lines(l1, a, a + n) == join_lines(l2, c, c + n),
    decreases n,
{
    if n > 1 {
        lemma_join_same(l1, a, l2, c, n - 1);
        assert(l1[a + n - 1] == l2[c + n - 1]);
    } else if n == 1 {
        assert(l1[a] == l2[c]);
    }
}

proof fn lemma_closer_found(ls: Seq<Seq<char>>, s: int, j: int, open: Seq<char>)
    requires
        0 <= s <= j < ls.len(),
        ls[j] == open,
        forall|k: int| s <= k < j ==> ls[k] != open,
    ensures
        closer(ls, s, open) == Some(j),
    decreases j - s,
{
    if s < j {
        lemma_closer_found(ls, s + 1, j, open);
    }
}

/// The lines of `OPEN`, line feed, `X`, line feed, `OPEN`.
proof fn lemma_block_lines(open: Seq<char>, x: Seq<char>)
    requires
        delimiter_line(open),
    ensures
        lines(open + seq!['\n'] + x + seq!['\n'] + open) == seq![open] + lines(x) + seq![open],
        !crate::lines::blank_line(open),
        !crate::lines::doc_title_line(open),
{
    let t = open + seq!['\n'] + x + seq!['\n'] + open;
    lemma_run_end(open, open[0], 0);
    lemma_find_char(open, '\n', 0);
    assert(open[0] != '\n');
    assert(split_from(open, '\n', 0) == seq![open]) by {
        assert(open.subrange(0, open.len() as int) =~= open);
    }
    lemma_split_concat(x, open, '\n', 0);
    assert(t =~= open + seq!['\n'] + (x + seq!['\n'] + open));
    lemma_split_concat(open, x + seq!['\n'] + open, '\n', 0);
    assert(lines(t) =~= seq![open] + lines(x) + seq![open]);
    assert(!is_space(open[0]));
}

/// Lines `o..` that hold `OPEN`, the lines of `X`, then `OPEN` again make
/// one delimited block whose content is `X`.
proof fn lemma_lone_block(ls: Seq<Seq<char>>, o: int, open: Seq<char>, x: Seq<char>)
    requires
        0 <= o <= ls.len(),
        delimiter_line(open),
        !crate::lines::blank_line(open),
        forall|k: int| 0 <= k < lines(x).len() ==> #[trigger] lines(x)[k] != open,
        ls.subrange(o, ls.len() as int) == seq![open] + lines(x) + seq![open],
    ensures
        body_from(ls, o) == Ok::<Seq<BlockView>, int>(
            seq![
                BlockView::Delimited {
                    kind: delimiter_kind(open[0])->0,
                    content: x,
                    language: None,
                },
            ],
        ),
{
    let lx = lines(x);
    let m = lx.len() as int;
    let tail = ls.subrange(o, ls.len() as int);
    lemma_split_nonempty(x, '\n', 0);
    assert(tail.len() == ls.len() - o);
    assert((seq![open] + lx + seq![open]).len() == m + 2);
    assert(ls.len() == o + m + 2);
    assert(ls[o] == tail[0]);
    assert(ls[o + m + 1] == tail[m + 1]);
    assert(!crate::lines::section_line(open)) by {
        lemma_run_end(open, open[0], 0);
        lemma_run_end(open, '=', 0);
    }
    assert forall|k: int| o + 1 <= k < o + m + 1 implies ls[k] != open by {
        assert(ls[k] == tail[k - o]);
        assert(tail[k - o] == lx[k - o - 1]);
    }
    lemma_closer_found(ls, o + 1, o + m + 1, open);
    assert forall|k: int| o + 1 <= k < o + 1 + m implies #[trigger] ls[k] == lx[k - (o + 1) + 0] by {
        assert(ls[k] == tail[k - o]);
    }
    lemma_join_same(ls, o + 1, lx, 0, m);
    lemma_join_split(x, 0);
    assert(x.subrange(0, x.len() as int) =~= x);
    let d = BlockView::Delimited { kind: delimiter_kind(open[0])->0, content: x, language: None };
    assert(block_at(ls, o) == Ok::<(BlockView, int), int>((d, o + m + 2)));
    assert(body_from(ls, o + m + 2) == Ok::<Seq<BlockView>, int>(Seq::empty()));
    assert(seq![d] + Seq::<BlockView>::empty() =~= seq![d]);
}

proof fn lemma_reconcile_one(d: BlockView)
    ensures
        reconcile(seq![d]) == seq![d],
{
    let e = Seq::<BlockView>::empty();
    assert(seq![d].subrange(1, 1) =~= e);
    assert(reconcile(e) == e);
    assert(!merges_at(seq![d], 0));
    assert(seq![d] + e =~= seq![d]);
}

/// A document that is one delimited block, `OPEN`, line feed, `X`, line
/// feed, `OPEN`, holds that block with `X` as its content, byte for byte,
/// provided no line of `X` is the closing delimiter itself.
pub proof fn law_delimited_content(open: Seq<char>, x: Seq<char>)
    requires
        delimiter_line(open),
        forall|k: int| 0 <= k < lines(x).len() ==> #[trigger] lines(x)[k] != open,
    ensures
        document_of(open + seq!['\n'] + x + seq!['\n'] + open) == Ok::<DocumentView, int>(
            DocumentView {
                header: None,
                body: seq![
                    BlockView::Delimited {
                        kind: delimiter_kind(open[0])->0,
                        content: x,
                        language: None,
                    },
                ],
            },
        ),
{
    let t = open + seq!['\n'] + x + seq!['\n'] + open;
    lemma_block_lines(open, x);
    let ls = lines(t);
    assert(ls.subrange(0, ls.len() as int) =~= ls);
    assert(crate::parser::first_content(ls, 0) == 0);
    lemma_lone_block(ls, 0, open, x);
    lemma_reconcile_one(
        BlockView::Delimited { kind: delimiter_kind(open[0])->0, content: x, language: None },
    );
}

proof fn lemma_title_lines(title: Seq<char>, b: Seq<char>)
    requires
        forall|k: int| 0 <= k < title.len() ==> title[k] != '\n',
    ensures
        lines(title + seq!['\n', '\n'] + b) == seq![title, Seq::<char>::empty()] + lines(b),
{
    let empty = Seq::<char>::empty();
    let t = title + seq!['\n', '\n'] + b;
    assert(t =~= title + seq!['\n'] + (empty + seq!['\n'] + b));
    lemma_split_concat(empty, b, '\n', 0);
    lemma_split_concat(title, empty + seq!['\n'] + b, '\n', 0);
    lemma_find_char(title, '\n', 0);
    assert(split_from(title, '\n', 0) == seq![title]) by {
        assert(title.subrange(0, title.len() as int) =~= title);
    }
    lemma_find_char(empty, '\n', 0);
    assert(split_from(empty, '\n', 0) == seq![empty]) by {
        assert(empty.subrange(0, 0) =~= empty);
    }
    assert(lines(t) =~= seq![title, empty] + lines(b));
}

proof fn lemma_title_body(ls: Seq<Seq<char>>)
    requires
        ls.len() >= 2,
        crate::lines::doc_title_line(ls[0]),
        ls[1] == Seq::<char>::empty(),
        body_from(ls, 2) is Ok,
    ensures
        document_of_lines(ls) == (match body_from(ls, 2) {
            Ok(bs) => Ok::<DocumentView, int>(
                DocumentView {
                    header: Some(crate::parser::header_of(ls, 0)),
                    body: reconcile(bs),
                },
            ),
            Err(x) => Err(x),
        }),
{
    let title = ls[0];
    assert(!crate::lines::blank_line(title)) by {
        assert(!is_space(title[0]));
    }
    assert(crate::parser::first_content(ls, 0) == 0);
    assert(!crate::lines::attribute_line(ls[1]));
    assert(crate::parser::attributes_end(ls, 1) == 1);
    assert(crate::lines::blank_line(ls[1]));
    assert(body_from(ls, 1) == body_from(ls, 2));
}

/// What `document_of` makes of a list of lines.
spec fn document_of_lines(ls: Seq<Seq<char>>) -> Result<DocumentView, int> {
    let h = crate::parser::first_content(ls, 0);
    if h < ls.len() && crate::lines::doc_title_line(ls[h]) {
        match body_from(ls, crate::parser::attributes_end(ls, h + 1)) {
            Ok(bs) => Ok(DocumentView { header: Some(crate::parser::header_of(ls, h)), body: reconcile(bs) }),
            Err(x) => Err(x),
        }
    } else {
        match body_from(ls, 0) {
            Ok(bs) => Ok(DocumentView { header: None, body: reconcile(bs) }),
            Err(x) => Err(x),
        }
    }
}

/// The same after a title line and a blank line: the document has that
/// header, and its body is the one delimited block with content `X`.
pub proof fn law_delimited_content_after_title(
    title: Seq<char>,
    open: Seq<char>,
    x: Seq<char>,
)
    requires
        crate::lines::doc_title_line(title),
        forall|k: int| 0 <= k < title.len() ==> title[k] != '\n',
        delimiter_line(open),
        forall|k: int| 0 <= k < lines(x).len() ==> #[trigger] lines(x)[k] != open,
    ensures
        document_of(title + seq!['\n', '\n'] + open + seq!['\n'] + x + seq!['\n'] + open) matches Ok(
            d,
        ) && d.header is Some && d.body == seq![
            BlockView::Delimited { kind: delimiter_kind(open[0])->0, content: x, language: None },
        ],
{
    let b = open + seq!['\n'] + x + seq!['\n'] + open;
    let t = title + seq!['\n', '\n'] + open + seq!['\n'] + x + seq!['\n'] + open;
    assert(t =~= title + seq!['\n', '\n'] + b);
    lemma_block_lines(open, x);
    lemma_title_lines(title, b);
    let ls = lines(t);
    assert(ls.subrange(2, ls.len() as int) =~= seq![open] + lines(x) + seq![open]);
    let d = BlockView::Delimited { kind: delimiter_kind(open[0])->0, content: x, language: None };
    lemma_lone_block(ls, 2, open, x);
    lemma_title_body(ls);
    lemma_reconcile_one(d);
    assert(document_of(t) == document_of_lines(ls));
}

// ---------------------------------------------------------------------------
// Top-level blocks follow the lines
// ---------------------------------------------------------------------------

/// The lines on which the top-level blocks of lines `i..` start: the first
/// non-blank line, then the first non-blank line after each block ends.
pub open spec fn block_starts(ls: Seq<Seq<char>>, i: int) -> Seq<int>
    decreases ls.len() - i,
{
    if i < 0 || i >= ls.len() {
        Seq::empty()
    } else if crate::lines::blank_line(ls[i]) {
        block_starts(ls, i + 1)
    } else {
        match block_at(ls, i) {
            Ok((_, n)) => if i < n <= ls.len() {
                seq![i] + block_starts(ls, n)
            } else {
                seq![i]
            },
            Err(_) => seq![i],
        }
    }
}

/// The body holds one block for each start line, in the order of the lines,
/// and each is the block that the grammar reads at its start line.
pub proof fn law_one_block_per_start(ls: Seq<Seq<char>>, i: int)
    requires
        0 <= i,
        body_from(ls, i) is Ok,
    ensures
        ({
            let bs = body_from(ls, i)->Ok_0;
            let st = block_starts(ls, i);
            &&& bs.len() == st.len()
            &&& forall|k: int|
                0 <= k < st.len() ==> i <= #[trigger] st[k] < ls.len() && !crate::lines::blank_line(
                    ls[st[k]],
                ) && block_at(ls, st[k]) is Ok && block_at(ls, st[k])->Ok_0.0 == bs[k]
            &&& forall|k: int| 0 <= k < st.len() - 1 ==> #[trigger] st[k] < st[k + 1]
        }),
    decreases ls.len() - i,
{
    if 0 <= i < ls.len() {
        if crate::lines::blank_line(ls[i]) {
            law_one_block_per_start(ls, i + 1);
        } else {
            crate::block::lemma_block_at(ls, i);
            if let Ok((b, n)) = block_at(ls, i) {
                law_one_block_per_start(ls, n);
                let bs = body_from(ls, i)->Ok_0;
                let st = block_starts(ls, i);
                let rest = block_starts(ls, n);
                assert(st == seq![i] + rest);
                assert forall|k: int| 0 <= k < st.len() - 1 implies #[trigger] st[k] < st[k + 1] by {
                    if k > 0 {
                        assert(st[k] == rest[k - 1] && st[k + 1] == rest[k]);
                    } else {
                        assert(st[1] == rest[0]);
                    }
                }
                assert forall|k: int| 0 <= k < st.len() implies i <= #[trigger] st[k] < ls.len()
                    && !crate::lines::blank_line(ls[st[k]]) && block_at(ls, st[k]) is Ok && block_at(
                    ls,
                    st[k],
                )->Ok_0.0 == bs[k] by {
                    if k > 0 {
                        assert(st[k] == rest[k - 1]);
                    }
                }
            }
        }
    }
}

/// How many attribute paragraphs one pass of reconciliation folds into the
/// delimited block after them.
pub open spec fn merge_count(bs: Seq<BlockView>) -> nat
    decreases bs.len(),
{
    if bs.len() == 0 {
        0
    } else if merges_at(bs, 0) {
        1 + merge_count(bs.subrange(2, bs.len() as int))
    } else {
        merge_count(bs.subrange(1, bs.len() as int))
    }
}

proof fn lemma_reconcile_length(bs: Seq<BlockView>)
    ensures
        reconcile(bs).len() + merge_count(bs) == bs.len(),
    decreases bs.len(),
{
    if bs.len() > 0 {
        if merges_at(bs, 0) {
            let d = crate::parser::with_language(
                bs[1],
                crate::parser::language_of(
                    crate::parser::attribute_entries(attribute_text(bs[0])->0),
                ),
            );
            let rest = bs.subrange(2, bs.len() as int);
            let next = seq![d] + rest;
            assert(!merges_at(next, 0));
            assert(next.subrange(1, next.len() as int) =~= rest);
            assert(next[0] == d);
            assert(reconcile(bs) == reconcile(next));
            assert(reconcile(next) == seq![d] + reconcile(rest));
            lemma_reconcile_length(rest);
        } else {
            lemma_reconcile_length(bs.subrange(1, bs.len() as int));
        }
    }
}

/// The line where the body starts: after the header when there is one.
pub open spec fn body_start(ls: Seq<Seq<char>>) -> int {
    let h = crate::parser::first_content(ls, 0);
    if h < ls.len() && crate::lines::doc_title_line(ls[h]) {
        crate::parser::attributes_end(ls, h + 1)
    } else {
        0
    }
}

proof fn lemma_first_content(ls: Seq<Seq<char>>, k: int)
    requires
        0 <= k,
    ensures
        k <= crate::parser::first_content(ls, k),
    decreases ls.len() - k,
{
    if 0 <= k < ls.len() && crate::lines::blank_line(ls[k]) {
        lemma_first_content(ls, k + 1);
    }
}

/// A parsed document holds one body block for each top-level block of the
/// text (one per start line, see `block_starts`), less the attribute
/// paragraphs that were folded into the delimited block after them.
pub proof fn law_body_count(t: Seq<char>)
    requires
        document_of(t) is Ok,
    ensures
        ({
            let ls = lines(t);
            let s = body_start(ls);
            &&& body_from(ls, s) is Ok
            &&& document_of(t)->Ok_0.body.len() == block_starts(ls, s).len() - merge_count(
                body_from(ls, s)->Ok_0,
            )
        }),
{
    let ls = lines(t);
    let s = body_start(ls);
    let h = crate::parser::first_content(ls, 0);
    lemma_first_content(ls, 0);
    if h < ls.len() && crate::lines::doc_title_line(ls[h]) {
        crate::parser::lemma_attributes_end(ls, h + 1);
    }
    assert(body_from(ls, s) is Ok);
    law_one_block_per_start(ls, s);
    lemma_reconcile_length(body_from(ls, s)->Ok_0);
}

} // verus!