//! Rendering of the document tree to an HTML fragment.
use crate::ast::{
    Block, BlockView, DelimitedBlockKind, Document, DocumentView,
    FormattedTextKind, InlineElement, InlineView, ItemView, ListItem, ListKind, MacroKind,
    blocks_view, inlines_view, opt_view,
};
use crate::text::{chars_of, push_char};
use vstd::prelude::*;

verus! {

// ---------------------------------------------------------------------------
// What the emitter produces
// ---------------------------------------------------------------------------

/// The HTML form of one character: `&`, `<`, `>`, `"` and `'` become entities.
pub open spec fn escape_char(c: char) -> Seq<char> {
    if c == '&' {
        "&amp;"@
    } else if c == '<' {
        "&lt;"@
    } else if c == '>' {
        "&gt;"@
    } else if c == '"' {
        "&quot;"@
    } else if c == '\'' {
        "&#39;"@
    } else {
        seq![c]
    }
}

/// `s` with each character replaced by its HTML form.
pub open spec fn escape(s: Seq<char>) -> Seq<char>
    decreases s.len(),
{
    if s.len() == 0 {
        Seq::empty()
    } else {
        escape(s.drop_last()) + escape_char(s.last())
    }
}

pub open spec fn formatted_open(kind: FormattedTextKind) -> Seq<char> {
    match kind {
        FormattedTextKind::Strong => "<strong>"@,
        FormattedTextKind::Emphasis => "<em>"@,
        FormattedTextKind::Monospace => "<code>"@,
        FormattedTextKind::Superscript => "<sup>"@,
        FormattedTextKind::Subscript => "<sub>"@,
    }
}

pub open spec fn formatted_close(kind: FormattedTextKind) -> Seq<char> {
    match kind {
        FormattedTextKind::Strong => "</strong>"@,
        FormattedTextKind::Emphasis => "</em>"@,
        FormattedTextKind::Monospace => "</code>"@,
        FormattedTextKind::Superscript => "</sup>"@,
        FormattedTextKind::Subscript => "</sub>"@,
    }
}

/// The HTML of one inline element.
pub open spec fn inline_html(e: InlineView) -> Seq<char>
    decreases e,
{
    match e {
        InlineView::Text(s) => escape(s),
        InlineView::Formatted { kind, content } => formatted_open(kind) + inlines_html(content)
            + formatted_close(kind),
        InlineView::Link { url, text } => "<a href=\""@ + escape(url) + "\">"@ + escape(
            match text {
                Some(t) => t,
                None => url,
            },
        ) + "</a>"@,
        InlineView::Image { path, attributes } => "<img src=\""@ + escape(path) + "\" alt=\""@
            + match attributes {
            Some(a) => escape(a),
            None => "Image"@,
        } + "\">"@,
        InlineView::CrossReference { target, text } => "<a href=\"#"@ + escape(target) + "\">"@
            + escape(
            match text {
                Some(t) => t,
                None => target,
            },
        ) + "</a>"@,
        InlineView::LineBreak => "<br>\n"@,
    }
}

/// The HTML of a run of inline elements, one after the other.
pub open spec fn inlines_html(s: Seq<InlineView>) -> Seq<char>
    decreases s,
{
    if s.len() == 0 {
        Seq::empty()
    } else {
        inlines_html(s.drop_last()) + inline_html(s.last())
    }
}

/// The digit of the heading tag for a section level, clamped to 1..=6.
pub open spec fn heading_digit(level: nat) -> char {
    if level <= 1 {
        '1'
    } else if level == 2 {
        '2'
    } else if level == 3 {
        '3'
    } else if level == 4 {
        '4'
    } else if level == 5 {
        '5'
    } else {
        '6'
    }
}

pub open spec fn delimited_html(
    kind: DelimitedBlockKind,
    content: Seq<char>,
    language: Option<Seq<char>>,
) -> Seq<char> {
    match kind {
        DelimitedBlockKind::Listing => match language {
            Some(l) => "<pre><code class=\"language-"@ + escape(l) + "\">"@ + escape(content)
                + "</code></pre>\n"@,
            None => "<pre><code>"@ + escape(content) + "</code></pre>\n"@,
        },
        DelimitedBlockKind::Example => "<div class=\"example\">"@ + escape(content)
            + "</div>\n"@,
        DelimitedBlockKind::Literal => "<pre>"@ + escape(content) + "</pre>\n"@,
        DelimitedBlockKind::Sidebar => "<aside>"@ + escape(content) + "</aside>\n"@,
        DelimitedBlockKind::Quote => "<blockquote>"@ + escape(content) + "</blockquote>\n"@,
    }
}

/// The HTML of one list item.
pub open spec fn item_html(i: ItemView) -> Seq<char> {
    match i {
        ItemView::Unordered { content, .. } => "<li>"@ + inlines_html(content) + "</li>\n"@,
        ItemView::Ordered { content, .. } => "<li>"@ + inlines_html(content) + "</li>\n"@,
        ItemView::Description { term, description } => "<dt>"@ + escape(term) + "</dt>\n"@
            + match description {
            Some(d) => "<dd>"@ + inlines_html(d) + "</dd>\n"@,
            None => Seq::empty(),
        },
    }
}

/// The HTML of list items, one after the other.
pub open spec fn items_html(s: Seq<ItemView>) -> Seq<char>
    decreases s.len(),
{
    if s.len() == 0 {
        Seq::empty()
    } else {
        items_html(s.drop_last()) + item_html(s.last())
    }
}

pub open spec fn list_open(kind: ListKind) -> Seq<char> {
    match kind {
        ListKind::Unordered => "<ul>\n"@,
        ListKind::Ordered => "<ol>\n"@,
        ListKind::Description => "<dl>\n"@,
    }
}

pub open spec fn list_close(kind: ListKind) -> Seq<char> {
    match kind {
        ListKind::Unordered => "</ul>\n"@,
        ListKind::Ordered => "</ol>\n"@,
        ListKind::Description => "</dl>\n"@,
    }
}

/// The HTML of one block.
pub open spec fn block_html(b: BlockView) -> Seq<char>
    decreases b,
{
    match b {
        BlockView::Section { level, title, blocks } => {
            let d = heading_digit(level);
            ("<h"@.push(d) + ">"@ + escape(title) + "</h"@).push(d) + ">\n"@ + blocks_html(blocks)
        },
        BlockView::Paragraph { content } => "<p>"@ + inlines_html(content) + "</p>\n"@,
        BlockView::Delimited { kind, content, language } => delimited_html(kind, content, language),
        BlockView::List { kind, items } => list_open(kind) + items_html(items) + list_close(kind),
        BlockView::Metadata { .. } => Seq::empty(),
    }
}

/// The HTML of blocks, one after the other.
pub open spec fn blocks_html(s: Seq<BlockView>) -> Seq<char>
    decreases s,
{
    if s.len() == 0 {
        Seq::empty()
    } else {
        blocks_html(s.drop_last()) + block_html(s.last())
    }
}

/// The HTML of a whole document: the title as `<h1>`, then the body.
pub open spec fn document_html(d: DocumentView) -> Seq<char> {
    match d.header {
        Some(h) => "<h1>"@ + escape(h.title) + "</h1>\n"@ + blocks_html(d.body),
        None => blocks_html(d.body),
    }
}

// ---------------------------------------------------------------------------
// The emitter
// ---------------------------------------------------------------------------

/// Replaces `&`, `<`, `>`, `"` and `'` by their entities, in one pass.
pub fn escape_html(text: &str) -> (r: String)
    ensures
        r@ == escape(text@),
{
    let t = chars_of(text);
    let mut r = String::new();
    let mut i: usize = 0;
    while i < t.len()
        invariant
            i <= t.len(),
            t@ == text@,
            r@ == escape(t@.subrange(0, i as int)),
        decreases t.len() - i,
    {
        let c = t[i];
        assert(t@.subrange(0, i + 1).drop_last() =~= t@.subrange(0, i as int));
        if c == '&' {
            r.append("&amp;");
        } else if c == '<' {
            r.append("&lt;");
        } else if c == '>' {
            r.append("&gt;");
        } else if c == '"' {
            r.append("&quot;");
        } else if c == '\'' {
            r.append("&#39;");
        } else {
            push_char(&mut r, c);
            assert(r@ =~= escape(t@.subrange(0, i as int)) + seq![c]);
        }
        i += 1;
    }
    assert(t@.subrange(0, t.len() as int) =~= t@);
    r
}

fn escaped_or(text: &Option<String>, fallback: &String) -> (r: String)
    ensures
        r@ == escape(
            match opt_view(*text) {
                Some(t) => t,
                None => fallback@,
            },
        ),
{
    match text {
        Some(t) => escape_html(t.as_str()),
        None => escape_html(fallback.as_str()),
    }
}

/// The HTML of a run of inline elements.
pub fn inline_elements_to_html(elements: &Vec<InlineElement>) -> (r: String)
    ensures
        r@ == inlines_html(inlines_view(elements@)),
    decreases elements,
{
    let mut r = String::new();
    let mut i: usize = 0;
    while i < elements.len()
        invariant
            i <= elements.len(),
            r@ == inlines_html(inlines_view(elements@).subrange(0, i as int)),
        decreases elements.len() - i,
    {
        let s = elements[i].to_html();
        assert(inlines_view(elements@).subrange(0, i + 1).drop_last() =~= inlines_view(
            elements@,
        ).subrange(0, i as int));
        r.append(s.as_str());
        i += 1;
    }
    assert(inlines_view(elements@).subrange(0, elements.len() as int) =~= inlines_view(
        elements@,
    ));
    r
}

impl InlineElement {
    pub fn to_html(&self) -> (r: String)
        ensures
            r@ == inline_html(self.view()),
        decreases self,
    {
        match self {
            InlineElement::Text(text) => escape_html(text.as_str()),
            InlineElement::Formatted { kind, content } => {
                let inner = inline_elements_to_html(content);
                assert(inlines_view(content@) =~= match self.view() {
                    InlineView::Formatted { content, .. } => content,
                    _ => Seq::empty(),
                });
                let mut r = match kind {
                    FormattedTextKind::Strong => String::from_str("<strong>"),
                    FormattedTextKind::Emphasis => String::from_str("<em>"),
                    FormattedTextKind::Monospace => String::from_str("<code>"),
                    FormattedTextKind::Superscript => String::from_str("<sup>"),
                    FormattedTextKind::Subscript => String::from_str("<sub>"),
                };
                r.append(inner.as_str());
                match kind {
                    FormattedTextKind::Strong => r.append("</strong>"),
                    FormattedTextKind::Emphasis => r.append("</em>"),
                    FormattedTextKind::Monospace => r.append("</code>"),
                    FormattedTextKind::Superscript => r.append("</sup>"),
                    FormattedTextKind::Subscript => r.append("</sub>"),
                }
                r
            },
            InlineElement::Macro { kind } => match kind {
                MacroKind::Link { url, text } => {
                    let label = escaped_or(text, url);
                    let mut r = String::from_str("<a href=\"");
                    r.append(escape_html(url.as_str()).as_str());
                    r.append("\">");
                    r.append(label.as_str());
                    r.append("</a>");
                    r
                },
                MacroKind::Image { path, attributes } => {
                    let alt = match attributes {
                        Some(a) => escape_html(a.as_str()),
                        None => String::from_str("Image"),
                    };
                    let mut r = String::from_str("<img src=\"");
                    r.append(escape_html(path.as_str()).as_str());
                    r.append("\" alt=\"");
                    r.append(alt.as_str());
                    r.append("\">");
                    r
                },
                MacroKind::CrossReference { target, text } => {
                    let label = escaped_or(text, target);
                    let mut r = String::from_str("<a href=\"#");
                    r.append(escape_html(target.as_str()).as_str());
                    r.append("\">");
                    r.append(label.as_str());
                    r.append("</a>");
                    r
                },
            },
            InlineElement::LineBreak => String::from_str("<br>\n"),
        }
    }
}

impl ListItem {
    pub fn to_html(&self) -> (r: String)
        ensures
            r@ == item_html(self.view()),
    {
        match self {
            ListItem::Unordered { content, .. } | ListItem::Ordered { content, .. } => {
                let mut r = String::from_str("<li>");
                r.append(inline_elements_to_html(content).as_str());
                r.append("</li>\n");
                r
            },
            ListItem::Description { term, description } => {
                let mut r = String::from_str("<dt>");
                r.append(escape_html(term.as_str()).as_str());
                r.append("</dt>\n");
                match description {
                    Some(desc) => {
                        r.append("<dd>");
                        r.append(inline_elements_to_html(desc).as_str());
                        r.append("</dd>\n");
                    },
                    None => {
                        assert(r@ =~= r@ + Seq::<char>::empty());
                    },
                }
                r
            },
        }
    }
}

fn heading_char(level: usize) -> (r: char)
    ensures
        r == heading_digit(level as nat),
{
    if level <= 1 {
        '1'
    } else if level == 2 {
        '2'
    } else if level == 3 {
        '3'
    } else if level == 4 {
        '4'
    } else if level == 5 {
        '5'
    } else {
        '6'
    }
}

/// The HTML of blocks, one after the other.
fn blocks_to_html(blocks: &Vec<Block>) -> (r: String)
    ensures
        r@ == blocks_html(blocks_view(blocks@)),
    decreases blocks,
{
    let mut r = String::new();
    let mut i: usize = 0;
    while i < blocks.len()
        invariant
            i <= blocks.len(),
            r@ == blocks_html(blocks_view(blocks@).subrange(0, i as int)),
        decreases blocks.len() - i,
    {
        let s = blocks[i].to_html();
        assert(blocks_view(blocks@).subrange(0, i + 1).drop_last() =~= blocks_view(
            blocks@,
        ).subrange(0, i as int));
        r.append(s.as_str());
        i += 1;
    }
    assert(blocks_view(blocks@).subrange(0, blocks.len() as int) =~= blocks_view(blocks@));
    r
}

fn items_to_html(items: &Vec<ListItem>) -> (r: String)
    ensures
        r@ == items_html(items@.map_values(|i: ListItem| i.view())),
{
    let ghost v = items@.map_values(|i: ListItem| i.view());
    let mut r = String::new();
    let mut k: usize = 0;
    while k < items.len()
        invariant
            k <= items.len(),
            v == items@.map_values(|i: ListItem| i.view()),
            r@ == items_html(v.subrange(0, k as int)),
        decreases items.len() - k,
    {
        let s = items[k].to_html();
        assert(v.subrange(0, k + 1).drop_last() =~= v.subrange(0, k as int));
        r.append(s.as_str());
        k += 1;
    }
    assert(v.subrange(0, items.len() as int) =~= v);
    r
}

impl Block {
    pub fn to_html(&self) -> (r: String)
        ensures
            r@ == block_html(self.view()),
        decreases self,
    {
        match self {
            Block::Section { level, title, blocks } => {
                let d = heading_char(*level);
                let mut r = String::from_str("<h");
                push_char(&mut r, d);
                r.append(">");
                r.append(escape_html(title.as_str()).as_str());
                r.append("</h");
                push_char(&mut r, d);
                r.append(">\n");
                let inner = blocks_to_html(blocks);
                assert(blocks_view(blocks@) =~= match self.view() {
                    BlockView::Section { blocks, .. } => blocks,
                    _ => Seq::empty(),
                });
                r.append(inner.as_str());
                r
            },
            Block::Paragraph { content } => {
                let mut r = String::from_str("<p>");
                r.append(inline_elements_to_html(content).as_str());
                r.append("</p>\n");
                r
            },
            Block::DelimitedBlock { kind, content, language } => {
                let body = escape_html(content.as_str());
                match kind {
                    DelimitedBlockKind::Listing => match language {
                        Some(lang) => {
                            let mut r = String::from_str("<pre><code class=\"language-");
                            r.append(escape_html(lang.as_str()).as_str());
                            r.append("\">");
                            r.append(body.as_str());
                            r.append("</code></pre>\n");
                            r
                        },
                        None => {
                            let mut r = String::from_str("<pre><code>");
                            r.append(body.as_str());
                            r.append("</code></pre>\n");
                            r
                        },
                    },
                    DelimitedBlockKind::Example => {
                        let mut r = String::from_str("<div class=\"example\">");
                        r.append(body.as_str());
                        r.append("</div>\n");
                        r
                    },
                    DelimitedBlockKind::Literal => {
                        let mut r = String::from_str("<pre>");
                        r.append(body.as_str());
                        r.append("</pre>\n");
                        r
                    },
                    DelimitedBlockKind::Sidebar => {
                        let mut r = String::from_str("<aside>");
                        r.append(body.as_str());
                        r.append("</aside>\n");
                        r
                    },
                    DelimitedBlockKind::Quote => {
                        let mut r = String::from_str("<blockquote>");
                        r.append(body.as_str());
                        r.append("</blockquote>\n");
                        r
                    },
                }
            },
            Block::List { kind, items } => {
                let mut r = match kind {
                    ListKind::Unordered => String::from_str("<ul>\n"),
                    ListKind::Ordered => String::from_str("<ol>\n"),
                    ListKind::Description => String::from_str("<dl>\n"),
                };
                let inner = items_to_html(items);
                assert(items@.map_values(|i: ListItem| i.view()) =~= match self.view() {
                    BlockView::List { items, .. } => items,
                    _ => Seq::empty(),
                });
                r.append(inner.as_str());
                match kind {
                    ListKind::Unordered => r.append("</ul>\n"),
                    ListKind::Ordered => r.append("</ol>\n"),
                    ListKind::Description => r.append("</dl>\n"),
                }
                r
            },
            Block::BlockMetadata { .. } => String::new(),
        }
    }
}

impl Document {
    /// The whole document as an HTML fragment.
    pub fn to_html(&self) -> (r: String)
        ensures
            r@ == document_html(self.view()),
    {
        let mut r = String::new();
        if let Some(header) = &self.header {
            r.append("<h1>");
            r.append(escape_html(header.title.as_str()).as_str());
            r.append("</h1>\n");
        }
        let body = blocks_to_html(&self.body);
        r.append(body.as_str());
        r
    }
}

} // verus!
