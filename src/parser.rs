//! The document parser: header, body, and the pass that folds attribute
//! lines into the delimited block after them.
use crate::ast::{
    Attribute, Block, BlockView, Document, DocumentView, Header, HeaderView, InlineElement,
    InlineView, blocks_view, opt_view,
};
use crate::block::{block_at, body_from, lemma_block_at, parse_blocks};
use crate::lines::{
    attribute_line, blank_line, doc_title_line, is_attribute_line, is_blank_line,
    is_doc_title_line, lines, pieces_view, split_from, split_on,
};
use crate::text::{
    chars_of, find_char, find_char_in, lemma_find_char, non_empty, slice_of, string_of, trim,
    trim_range,
};
use vstd::prelude::*;

verus! {

// ---------------------------------------------------------------------------
// Folding attribute lines into delimited blocks
// ---------------------------------------------------------------------------

/// The text of a paragraph that is one text element of the form `[...]`.
pub open spec fn attribute_text(b: BlockView) -> Option<Seq<char>> {
    match b {
        BlockView::Paragraph { content } => if content.len() == 1 {
            match content[0] {
                InlineView::Text(s) => if s.len() >= 2 && s[0] == '[' && s[s.len() - 1] == ']' {
                    Some(s)
                } else {
                    None
                },
                _ => None,
            }
        } else {
            None
        },
        _ => None,
    }
}

/// The entries of an attribute list `[a, b, ...]`, each trimmed.
pub open spec fn attribute_entries(s: Seq<char>) -> Seq<Seq<char>> {
    split_from(s.subrange(1, s.len() - 1), ',', 0).map_values(|e: Seq<char>| trim(e))
}

pub open spec fn contains_char(s: Seq<char>, c: char) -> bool {
    find_char(s, c, 0) is Some
}

/// The language that a list of attribute entries names: from the first
/// entry that starts with `,` (the rest of it), or that is non-empty and
/// holds neither `=` nor `:` (all of it).
pub open spec fn language_of(entries: Seq<Seq<char>>) -> Option<Seq<char>>
    decreases entries.len(),
{
    if entries.len() == 0 {
        None
    } else {
        let e = trim(entries[0]);
        if e.len() > 0 && e[0] == ',' {
            Some(e.subrange(1, e.len() as int))
        } else if e.len() > 0 && !contains_char(e, '=') && !contains_char(e, ':') {
            Some(e)
        } else {
            language_of(entries.drop_first())
        }
    }
}

/// A delimited block with its language replaced.
pub open spec fn with_language(b: BlockView, language: Option<Seq<char>>) -> BlockView {
    match b {
        BlockView::Delimited { kind, content, .. } => BlockView::Delimited { kind, content, language },
        _ => b,
    }
}

/// An attribute paragraph followed by a delimited block.
pub open spec fn merges_at(bs: Seq<BlockView>, i: int) -> bool {
    0 <= i && i + 1 < bs.len() && attribute_text(bs[i]) is Some && bs[i + 1] is Delimited
}

/// The blocks after one pass from start to end: each attribute paragraph
/// directly before a delimited block is removed, and the block takes the
/// language that the paragraph names.
pub open spec fn reconcile(bs: Seq<BlockView>) -> Seq<BlockView>
    decreases bs.len(),
{
    if bs.len() == 0 {
        Seq::empty()
    } else if merges_at(bs, 0) {
        reconcile(
            seq![with_language(bs[1], language_of(attribute_entries(attribute_text(bs[0])->0)))]
                + bs.subrange(2, bs.len() as int),
        )
    } else {
        seq![bs[0]] + reconcile(bs.subrange(1, bs.len() as int))
    }
}

/// The model of a sequence of strings.
pub open spec fn strings_view(v: Seq<String>) -> Seq<Seq<char>> {
    Seq::new(v.len(), |i: int| v[i]@)
}

/// The language that a list of attributes names, if any.
pub fn extract_language_from_attributes(attributes: &Option<Vec<String>>) -> (r: Option<String>)
    ensures
        opt_view(r) == match attributes {
            Some(v) => language_of(strings_view(v@)),
            None => None,
        },
{
    match attributes {
        None => None,
        Some(attrs) => {
            let ghost all = strings_view(attrs@);
            let mut k: usize = 0;
            assert(all.subrange(0, all.len() as int) =~= all);
            while k < attrs.len()
                invariant
                    k <= attrs.len(),
                    all == strings_view(attrs@),
                    attributes matches Some(v) && strings_view(v@) == all,
                    language_of(all) == language_of(all.subrange(k as int, all.len() as int)),
                decreases attrs.len() - k,
            {
                let c = chars_of(attrs[k].as_str());
                let (a, b) = trim_range(&c, 0, c.len());
                let e = slice_of(&c, a, b);
                assert(c@.subrange(0, c.len() as int) =~= c@);
                assert(all.subrange(k as int, all.len() as int)[0] == c@);
                assert(trim(c@) == e@);
                assert(all.subrange(k as int, all.len() as int).drop_first() =~= all.subrange(
                    k + 1,
                    all.len() as int,
                ));
                if e.len() > 0 && e[0] == ',' {
                    let r = string_of(&e, 1, e.len());
                    assert(language_of(all.subrange(k as int, all.len() as int)) == Some(r@));
                    assert(language_of(all) == Some(r@));
                    return Some(r);
                }
                if e.len() > 0 && find_char_in(&e, '=', 0).is_none() && find_char_in(
                    &e,
                    ':',
                    0,
                ).is_none() {
                    let r = string_of(&e, 0, e.len());
                    assert(e@.subrange(0, e.len() as int) =~= e@);
                    return Some(r);
                }
                k += 1;
            }
            None
        },
    }
}

/// The characters of a paragraph that is one text element of the form `[...]`.
fn attribute_paragraph_text(b: &Block) -> (r: Option<Vec<char>>)
    ensures
        match r {
            Some(c) => attribute_text(b.view()) == Some(c@),
            None => attribute_text(b.view()) is None,
        },
{
    match b {
        Block::Paragraph { content } => {
            if content.len() == 1 {
                match &content[0] {
                    InlineElement::Text(text) => {
                        let c = chars_of(text.as_str());
                        if c.len() >= 2 && c[0] == '[' && c[c.len() - 1] == ']' {
                            Some(c)
                        } else {
                            None
                        }
                    },
                    _ => None,
                }
            } else {
                None
            }
        },
        _ => None,
    }
}

/// The trimmed entries of the attribute list `c`.
fn attribute_list_entries(c: &Vec<char>) -> (r: Vec<String>)
    requires
        c.len() >= 2,
    ensures
        strings_view(r@) == attribute_entries(c@),
{
    let inner = slice_of(c, 1, c.len() - 1);
    let pieces = split_on(&inner, ',');
    let ghost target = attribute_entries(c@);
    assert(target =~= pieces_view(pieces@).map_values(|e: Seq<char>| trim(e)));
    let mut r: Vec<String> = Vec::new();
    let mut k: usize = 0;
    while k < pieces.len()
        invariant
            k <= pieces.len(),
            target == pieces_view(pieces@).map_values(|e: Seq<char>| trim(e)),
            strings_view(r@) == target.subrange(0, k as int),
        decreases pieces.len() - k,
    {
        let p = &pieces[k];
        let (a, b) = trim_range(p, 0, p.len());
        assert(p@.subrange(0, p.len() as int) =~= p@);
        let ghost before = strings_view(r@);
        r.push(string_of(p, a, b));
        assert(strings_view(r@) =~= before.push(trim(p@)));
        assert(target.subrange(0, k + 1) =~= target.subrange(0, k as int).push(trim(p@)));
        k += 1;
    }
    assert(target.subrange(0, k as int) =~= target);
    r
}

/// Folds each attribute paragraph `[...]` into the delimited block right
/// after it, which takes the language the paragraph names.
pub fn process_block_attributes(blocks: &mut Vec<Block>)
    ensures
        blocks_view(final(blocks)@) == reconcile(blocks_view(old(blocks)@)),
{
    let ghost orig = blocks_view(blocks@);
    let mut i: usize = 0;
    assert(blocks_view(blocks@).subrange(0, blocks@.len() as int) =~= orig);
    assert(blocks_view(blocks@).subrange(0, 0) + reconcile(
        blocks_view(blocks@).subrange(0, blocks@.len() as int),
    ) =~= reconcile(orig));
    while i < blocks.len()
        invariant
            i <= blocks.len(),
            reconcile(orig) == blocks_view(blocks@).subrange(0, i as int) + reconcile(
                blocks_view(blocks@).subrange(i as int, blocks@.len() as int),
            ),
        decreases blocks.len() - i,
    {
        let ghost v = blocks_view(blocks@);
        let ghost tail = v.subrange(i as int, v.len() as int);
        let mut merged = false;
        if let Some(c) = attribute_paragraph_text(&blocks[i]) {
            if i + 1 < blocks.len() && matches!(blocks[i + 1], Block::DelimitedBlock { .. }) {
                let entries = attribute_list_entries(&c);
                let language = extract_language_from_attributes(&Some(entries));
                let _attribute_line = blocks.remove(i);
                let old_block = blocks.remove(i);
                if let Block::DelimitedBlock { kind, content, .. } = old_block {
                    let b = Block::DelimitedBlock { kind, content, language };
                    blocks.insert(i, b);
                    assert(merges_at(tail, 0));
                    assert(b.view() == with_language(tail[1], language_of(attribute_entries(c@))));
                    assert(blocks_view(blocks@).subrange(0, i as int) =~= v.subrange(0, i as int));
                    assert(blocks_view(blocks@).subrange(i as int, blocks@.len() as int) =~= seq![
                        b.view(),
                    ] + tail.subrange(2, tail.len() as int));
                }
                merged = true;
            }
        }
        if !merged {
            assert(!merges_at(tail, 0));
            assert(tail.subrange(1, tail.len() as int) =~= v.subrange(i + 1, v.len() as int));
            assert(v.subrange(0, i + 1) =~= v.subrange(0, i as int) + seq![v[i as int]]);
            i += 1;
        }
    }
    assert(blocks_view(blocks@).subrange(0, i as int) =~= blocks_view(blocks@));
}

// ---------------------------------------------------------------------------
// The document
// ---------------------------------------------------------------------------

/// The first line at or after `k` that is not blank.
pub open spec fn first_content(ls: Seq<Seq<char>>, k: int) -> int
    decreases ls.len() - k,
{
    if 0 <= k < ls.len() && blank_line(ls[k]) {
        first_content(ls, k + 1)
    } else {
        k
    }
}

/// The end of the run of header attribute lines from line `k`.
pub open spec fn attributes_end(ls: Seq<Seq<char>>, k: int) -> int
    decreases ls.len() - k,
{
    if 0 <= k < ls.len() && attribute_line(ls[k]) {
        attributes_end(ls, k + 1)
    } else {
        k
    }
}

/// The name and value of `:name: value`; an empty value is absent.
pub open spec fn attribute_of(l: Seq<char>) -> (Seq<char>, Option<Seq<char>>) {
    let p = find_char(l, ':', 1)->0;
    (l.subrange(1, p), non_empty(trim(l.subrange(p + 1, l.len() as int))))
}

/// The header whose title is on line `h`.
pub open spec fn header_of(ls: Seq<Seq<char>>, h: int) -> HeaderView {
    let e = attributes_end(ls, h + 1);
    HeaderView {
        title: trim(ls[h].subrange(1, ls[h].len() as int)),
        attributes: Seq::new((e - h - 1) as nat, |k: int| attribute_of(ls[h + 1 + k])),
    }
}

/// The document that `t` holds, or the line (counted from 0) of the
/// delimited block that is never closed.
pub open spec fn document_of(t: Seq<char>) -> Result<DocumentView, int> {
    let ls = lines(t);
    let h = first_content(ls, 0);
    if h < ls.len() && doc_title_line(ls[h]) {
        match body_from(ls, attributes_end(ls, h + 1)) {
            Ok(bs) => Ok(DocumentView { header: Some(header_of(ls, h)), body: reconcile(bs) }),
            Err(x) => Err(x),
        }
    } else {
        match body_from(ls, 0) {
            Ok(bs) => Ok(DocumentView { header: None, body: reconcile(bs) }),
            Err(x) => Err(x),
        }
    }
}

/// Where and why the grammar rejected the input. Lines and columns count
/// from 1.
#[derive(Debug, Clone, PartialEq)]
pub struct ParseError {
    pub line: usize,
    pub column: usize,
    pub message: String,
}

fn parse_header_attribute(l: &Vec<char>) -> (r: Attribute)
    requires
        attribute_line(l@),
    ensures
        (r.name@, opt_view(r.value)) == attribute_of(l@),
{
    proof {
        lemma_find_char(l@, ':', 1);
    }
    let n = l.len();
    let p = find_char_in(l, ':', 1).unwrap();
    let name = string_of(l, 1, p);
    let (a, b) = trim_range(l, p + 1, n);
    let value = if a < b {
        Some(string_of(l, a, b))
    } else {
        None
    };
    Attribute { name, value }
}

fn parse_header(ls: &Vec<Vec<char>>, h: usize) -> (r: (Header, usize))
    requires
        h < ls.len(),
        doc_title_line(pieces_view(ls@)[h as int]),
    ensures
        r.1 == attributes_end(pieces_view(ls@), h + 1),
        r.0.view() == header_of(pieces_view(ls@), h as int),
{
    let ghost lsv = pieces_view(ls@);
    let l = &ls[h];
    let (a, b) = trim_range(l, 1, l.len());
    let title = string_of(l, a, b);
    let mut attributes: Vec<Attribute> = Vec::new();
    let mut k = h + 1;
    while k < ls.len() && is_attribute_line(&ls[k])
        invariant
            h < k <= ls.len(),
            lsv == pieces_view(ls@),
            attributes_end(lsv, h + 1) == attributes_end(lsv, k as int),
            attributes@.len() == k - h - 1,
            forall|j: int|
                0 <= j < attributes@.len() ==> (#[trigger] attributes@[j].name@, opt_view(
                    attributes@[j].value,
                )) == attribute_of(lsv[h + 1 + j]),
        decreases ls.len() - k,
    {
        let a = parse_header_attribute(&ls[k]);
        attributes.push(a);
        k += 1;
    }
    let header = Header { title, attributes };
    assert(header.view().attributes =~= header_of(lsv, h as int).attributes);
    (header, k)
}

/// The line that the grammar rejects is a line of the text.
pub proof fn lemma_body_error(ls: Seq<Seq<char>>, i: int)
    requires
        0 <= i,
    ensures
        body_from(ls, i) matches Err(e) ==> 0 <= e < ls.len(),
    decreases ls.len() - i,
{
    if 0 <= i < ls.len() {
        if blank_line(ls[i]) {
            lemma_body_error(ls, i + 1);
        } else {
            lemma_block_at(ls, i);
            if let Ok((_, n)) = block_at(ls, i) {
                if i < n <= ls.len() {
                    lemma_body_error(ls, n);
                }
            }
        }
    }
}

pub proof fn lemma_attributes_end(ls: Seq<Seq<char>>, k: int)
    requires
        0 <= k <= ls.len(),
    ensures
        k <= attributes_end(ls, k) <= ls.len(),
    decreases ls.len() - k,
{
    if k < ls.len() && attribute_line(ls[k]) {
        lemma_attributes_end(ls, k + 1);
    }
}

/// The entry point of the library.
pub struct AsciiDocParser;

impl AsciiDocParser {
    /// Parses `input` into a document: the optional header, then the body,
    /// with attribute lines folded into the delimited blocks after them; or
    /// reports the first place where the grammar rejects it.
    pub fn parse_document(input: &str) -> (r: Result<Document, ParseError>)
        ensures
            match r {
                Ok(d) => document_of(input@) == Ok::<DocumentView, int>(d.view()),
                Err(e) => document_of(input@) == Err::<DocumentView, int>(e.line - 1)
                    && e.column == 1,
            },
    {
        let t = chars_of(input);
        let ls = split_on(&t, '\n');
        let ghost lsv = pieces_view(ls@);
        let mut h: usize = 0;
        while h < ls.len() && is_blank_line(&ls[h])
            invariant
                h <= ls.len(),
                lsv == pieces_view(ls@),
                first_content(lsv, 0) == first_content(lsv, h as int),
            decreases ls.len() - h,
        {
            h += 1;
        }
        let (header, start) = if h < ls.len() && is_doc_title_line(&ls[h]) {
            let (hd, e) = parse_header(&ls, h);
            (Some(hd), e)
        } else {
            (None, 0)
        };
        proof {
            assert(start <= ls.len()) by {
                if header is Some {
                    lemma_attributes_end(lsv, h + 1);
                }
            }
        }
        match parse_blocks(&ls, start) {
            Ok(body) => {
                let mut body = body;
                process_block_attributes(&mut body);
                Ok(Document { header, body })
            },
            Err(line) => {
                proof {
                    lemma_body_error(lsv, start as int);
                }
                let mut message = String::new();
                message.append("unterminated delimited block");
                Err(ParseError { line: line + 1, column: 1, message })
            },
        }
    }
}

} // verus!
