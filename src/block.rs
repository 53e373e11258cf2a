//! The block grammar: partitions the lines of the body into sections,
//! delimited blocks, metadata lines, lists and paragraphs.
use crate::ast::{
    Block, BlockMetadataKind, BlockView, InlineElement, InlineView, ItemView, ListItem, ListKind,
    MetadataView, blocks_view, inlines_view,
};
use crate::inline::{scan, scan_chars};
use crate::lines::{
    anchor_line, blank_line, delimiter_kind, delimiter_kind_of, delimiter_line, description_line,
    is_anchor_line, is_blank_line, is_delimiter_line, is_section_line, is_title_line,
    list_family, list_family_of, marked_item_line, opens_block, opens_block_line, pieces_view,
    section_line, title_line,
};
use crate::text::{
    find_pair, find_pair_in, lemma_find_pair, lemma_run_end, push_char, run_end, run_end_in,
    slice_of, string_of, trim, trim_range,
};
use vstd::prelude::*;

verus! {

// ---------------------------------------------------------------------------
// What the grammar yields
// ---------------------------------------------------------------------------

/// The end of the paragraph whose lines run on from line `k`.
pub open spec fn para_end(ls: Seq<Seq<char>>, k: int) -> int
    decreases ls.len() - k,
{
    if 0 <= k < ls.len() && !blank_line(ls[k]) && !opens_block(ls[k]) {
        para_end(ls, k + 1)
    } else {
        k
    }
}

/// The end of the run of list lines of family `f` from line `k`.
pub open spec fn list_end(ls: Seq<Seq<char>>, k: int, f: nat) -> int
    decreases ls.len() - k,
{
    if 0 <= k < ls.len() && list_family(ls[k]) == f {
        list_end(ls, k + 1, f)
    } else {
        k
    }
}

/// The first line at or after `k` equal to `open`.
pub open spec fn closer(ls: Seq<Seq<char>>, k: int, open: Seq<char>) -> Option<int>
    decreases ls.len() - k,
{
    if k < 0 || k >= ls.len() {
        None
    } else if ls[k] == open {
        Some(k)
    } else {
        closer(ls, k + 1, open)
    }
}

/// Lines `a..b` joined by line feeds.
pub open spec fn join_lines(ls: Seq<Seq<char>>, a: int, b: int) -> Seq<char>
    decreases b - a,
{
    if b <= a {
        Seq::empty()
    } else if b == a + 1 {
        ls[a]
    } else {
        join_lines(ls, a, b - 1).push('\n') + ls[b - 1]
    }
}

/// The inline elements of the paragraph on lines `a..b`: each line scanned,
/// with a single space between lines.
pub open spec fn para_inlines(ls: Seq<Seq<char>>, a: int, b: int) -> Seq<InlineView>
    decreases b - a,
{
    if b <= a {
        Seq::empty()
    } else if b == a + 1 {
        scan(ls[a])
    } else {
        para_inlines(ls, a, b - 1).push(InlineView::Text(seq![' '])) + scan(ls[b - 1])
    }
}

pub open spec fn list_kind_of(f: nat) -> ListKind {
    if f == 1 {
        ListKind::Unordered
    } else if f == 2 {
        ListKind::Ordered
    } else {
        ListKind::Description
    }
}

/// The description of `term:: text`: the trimmed text as one text element.
pub open spec fn description_of(d: Seq<char>) -> Option<Seq<InlineView>> {
    if d.len() == 0 {
        None
    } else {
        Some(seq![InlineView::Text(d)])
    }
}

/// The list item on line `l` of family `f`.
pub open spec fn item_of(l: Seq<char>, f: nat) -> ItemView {
    if f == 1 {
        let n = run_end(l, '*', 0);
        ItemView::Unordered { level: n as nat, content: scan(l.subrange(n + 1, l.len() as int)) }
    } else if f == 2 {
        let n = run_end(l, '.', 0);
        ItemView::Ordered { level: n as nat, content: scan(l.subrange(n + 1, l.len() as int)) }
    } else {
        let p = find_pair(l, ':', ':', 0)->0;
        ItemView::Description {
            term: l.subrange(0, p),
            description: description_of(trim(l.subrange(p + 2, l.len() as int))),
        }
    }
}

/// The items on lines `a..b`, all of family `f`.
pub open spec fn items_of(ls: Seq<Seq<char>>, a: int, b: int, f: nat) -> Seq<ItemView> {
    Seq::new((b - a) as nat, |k: int| item_of(ls[a + k], f))
}

/// The section heading on line `l`.
pub open spec fn section_of(l: Seq<char>) -> BlockView {
    let n = run_end(l, '=', 0);
    BlockView::Section {
        level: n as nat,
        title: trim(l.subrange(n, l.len() as int)),
        blocks: Seq::empty(),
    }
}

/// The metadata on a title or anchor line.
pub open spec fn metadata_of(l: Seq<char>) -> BlockView {
    if title_line(l) {
        BlockView::Metadata { kind: MetadataView::Title(l.subrange(1, l.len() as int)) }
    } else {
        BlockView::Metadata { kind: MetadataView::Anchor(l.subrange(2, l.len() - 2)) }
    }
}

/// The block that starts on the non-blank line `i`, and the line after it;
/// or, for a delimited block that is never closed, `Err(i)`.
pub open spec fn block_at(ls: Seq<Seq<char>>, i: int) -> Result<(BlockView, int), int> {
    let l = ls[i];
    if section_line(l) {
        Ok((section_of(l), i + 1))
    } else if delimiter_line(l) {
        match closer(ls, i + 1, l) {
            Some(j) => Ok(
                (
                    BlockView::Delimited {
                        kind: delimiter_kind(l[0])->0,
                        content: join_lines(ls, i + 1, j),
                        language: None,
                    },
                    j + 1,
                ),
            ),
            None => Err(i),
        }
    } else if title_line(l) || anchor_line(l) {
        Ok((metadata_of(l), i + 1))
    } else if list_family(l) != 0 {
        let f = list_family(l);
        let e = list_end(ls, i, f);
        Ok((BlockView::List { kind: list_kind_of(f), items: items_of(ls, i, e, f) }, e))
    } else {
        let e = para_end(ls, i);
        Ok((BlockView::Paragraph { content: para_inlines(ls, i, e) }, e))
    }
}

/// The blocks of lines `i..`, in order; blank lines separate them.
pub open spec fn body_from(ls: Seq<Seq<char>>, i: int) -> Result<Seq<BlockView>, int>
    decreases ls.len() - i,
{
    if i < 0 || i >= ls.len() {
        Ok(Seq::empty())
    } else if blank_line(ls[i]) {
        body_from(ls, i + 1)
    } else {
        match block_at(ls, i) {
            Err(e) => Err(e),
            Ok((b, n)) => if i < n <= ls.len() {
                match body_from(ls, n) {
                    Ok(bs) => Ok(seq![b] + bs),
                    Err(e) => Err(e),
                }
            } else {
                Ok(seq![b])
            },
        }
    }
}

pub open spec fn prepend(pre: Seq<BlockView>, r: Result<Seq<BlockView>, int>) -> Result<
    Seq<BlockView>,
    int,
> {
    match r {
        Ok(bs) => Ok(pre + bs),
        Err(e) => Err(e),
    }
}

pub proof fn lemma_para_end(ls: Seq<Seq<char>>, k: int)
    requires
        0 <= k <= ls.len(),
    ensures
        k <= para_end(ls, k) <= ls.len(),
    decreases ls.len() - k,
{
    if k < ls.len() && !blank_line(ls[k]) && !opens_block(ls[k]) {
        lemma_para_end(ls, k + 1);
    }
}

pub proof fn lemma_list_end(ls: Seq<Seq<char>>, k: int, f: nat)
    requires
        0 <= k <= ls.len(),
    ensures
        k <= list_end(ls, k, f) <= ls.len(),
    decreases ls.len() - k,
{
    if k < ls.len() && list_family(ls[k]) == f {
        lemma_list_end(ls, k + 1, f);
    }
}

pub proof fn lemma_closer(ls: Seq<Seq<char>>, k: int, open: Seq<char>)
    requires
        0 <= k,
    ensures
        match closer(ls, k, open) {
            Some(j) => k <= j < ls.len() && ls[j] == open,
            None => forall|j: int| k <= j < ls.len() ==> ls[j] != open,
        },
    decreases ls.len() - k,
{
    if k < ls.len() && ls[k] != open {
        lemma_closer(ls, k + 1, open);
    }
}

/// A block ends after the line it starts on, and within the text.
pub proof fn lemma_block_at(ls: Seq<Seq<char>>, i: int)
    requires
        0 <= i < ls.len(),
        !blank_line(ls[i]),
    ensures
        match block_at(ls, i) {
            Ok((_, n)) => i < n <= ls.len(),
            Err(e) => e == i,
        },
{
    lemma_closer(ls, i + 1, ls[i]);
    lemma_list_end(ls, i + 1, list_family(ls[i]));
    lemma_para_end(ls, i + 1);
}

// ---------------------------------------------------------------------------
// The grammar
// ---------------------------------------------------------------------------

fn parse_section(l: &Vec<char>) -> (r: Block)
    requires
        section_line(l@),
    ensures
        r.view() == section_of(l@),
{
    let level = run_end_in(l, '=', 0);
    proof {
        lemma_run_end(l@, '=', 0);
    }
    let (a, b) = trim_range(l, level, l.len());
    let title = string_of(l, a, b);
    let r = Block::Section { level, title, blocks: Vec::new() };
    proof {
        if let BlockView::Section { blocks, .. } = r.view() {
            assert(blocks =~= Seq::<BlockView>::empty());
        }
    }
    r
}

fn parse_block_metadata(l: &Vec<char>) -> (r: Block)
    requires
        title_line(l@) || anchor_line(l@),
    ensures
        r.view() == metadata_of(l@),
{
    if is_title_line(l) {
        Block::BlockMetadata { kind: BlockMetadataKind::Title(string_of(l, 1, l.len())) }
    } else {
        Block::BlockMetadata { kind: BlockMetadataKind::Anchor(string_of(l, 2, l.len() - 2)) }
    }
}

/// Whether two lines hold the same characters.
fn same_line(a: &Vec<char>, b: &Vec<char>) -> (r: bool)
    ensures
        r == (a@ == b@),
{
    if a.len() != b.len() {
        return false;
    }
    let mut k: usize = 0;
    while k < a.len()
        invariant
            a.len() == b.len(),
            k <= a.len(),
            forall|j: int| 0 <= j < k ==> a@[j] == b@[j],
        decreases a.len() - k,
    {
        if a[k] != b[k] {
            return false;
        }
        k += 1;
    }
    assert(a@ =~= b@);
    true
}

/// Appends the characters of `l` to `s`.
fn push_line(s: &mut String, l: &Vec<char>)
    ensures
        final(s)@ == old(s)@ + l@,
{
    let mut k: usize = 0;
    while k < l.len()
        invariant
            k <= l.len(),
            s@ == old(s)@ + l@.subrange(0, k as int),
        decreases l.len() - k,
    {
        push_char(s, l[k]);
        assert(s@ =~= old(s)@ + l@.subrange(0, k + 1));
        k += 1;
    }
    assert(l@.subrange(0, l.len() as int) =~= l@);
}

fn parse_delimited_block(ls: &Vec<Vec<char>>, i: usize) -> (r: Result<(Block, usize), usize>)
    requires
        i < ls.len(),
        delimiter_line(pieces_view(ls@)[i as int]),
    ensures
        match r {
            Ok((b, n)) => block_at(pieces_view(ls@), i as int) == Ok::<(BlockView, int), int>(
                (b.view(), n as int),
            ),
            Err(e) => block_at(pieces_view(ls@), i as int) == Err::<(BlockView, int), int>(
                e as int,
            ),
        },
{
    let ghost lsv = pieces_view(ls@);
    let open = &ls[i];
    let mut j = i + 1;
    while j < ls.len() && !same_line(&ls[j], open)
        invariant
            i < j <= ls.len(),
            lsv == pieces_view(ls@),
            open@ == lsv[i as int],
            closer(lsv, i + 1, lsv[i as int]) == closer(lsv, j as int, lsv[i as int]),
        decreases ls.len() - j,
    {
        j += 1;
    }
    if j >= ls.len() {
        return Err(i);
    }
    let mut content = String::new();
    let mut k = i + 1;
    while k < j
        invariant
            i < k <= j < ls.len(),
            lsv == pieces_view(ls@),
            content@ == join_lines(lsv, i + 1, k as int),
        decreases j - k,
    {
        if k > i + 1 {
            push_char(&mut content, '\n');
        }
        push_line(&mut content, &ls[k]);
        assert(content@ =~= join_lines(lsv, i + 1, k + 1));
        k += 1;
    }
    let kind = delimiter_kind_of(open[0]).unwrap();
    let b = Block::DelimitedBlock { kind, content, language: None };
    Ok((b, j + 1))
}

fn parse_unordered_item(l: &Vec<char>) -> (r: (usize, Vec<InlineElement>))
    requires
        marked_item_line(l@, '*'),
    ensures
        r.0 == run_end(l@, '*', 0),
        inlines_view(r.1@) == scan(l@.subrange(r.0 + 1, l@.len() as int)),
{
    proof {
        lemma_run_end(l@, '*', 0);
    }
    let n = l.len();
    let level = run_end_in(l, '*', 0);
    let text = slice_of(l, level + 1, n);
    (level, scan_chars(&text))
}

fn parse_ordered_item(l: &Vec<char>) -> (r: (usize, Vec<InlineElement>))
    requires
        marked_item_line(l@, '.'),
    ensures
        r.0 == run_end(l@, '.', 0),
        inlines_view(r.1@) == scan(l@.subrange(r.0 + 1, l@.len() as int)),
{
    proof {
        lemma_run_end(l@, '.', 0);
    }
    let n = l.len();
    let level = run_end_in(l, '.', 0);
    let text = slice_of(l, level + 1, n);
    (level, scan_chars(&text))
}

fn parse_description_item(l: &Vec<char>) -> (r: ListItem)
    requires
        description_line(l@),
    ensures
        r.view() == item_of(l@, 3),
{
    proof {
        lemma_find_pair(l@, ':', ':', 0);
    }
    let n = l.len();
    let p = find_pair_in(l, ':', ':', 0).unwrap();
    let term = string_of(l, 0, p);
    let (a, b) = trim_range(l, p + 2, n);
    let description = if a < b {
        let one = InlineElement::Text(string_of(l, a, b));
        let d = vec![one];
        assert(inlines_view(d@) =~= seq![InlineView::Text(l@.subrange(a as int, b as int))]);
        Some(d)
    } else {
        None
    };
    ListItem::Description { term, description }
}

fn parse_list_item(l: &Vec<char>, f: u8) -> (r: ListItem)
    requires
        list_family(l@) == f as nat,
        f != 0,
    ensures
        r.view() == item_of(l@, f as nat),
{
    if f == 1 {
        let (level, content) = parse_unordered_item(l);
        ListItem::Unordered { level, content }
    } else if f == 2 {
        let (level, content) = parse_ordered_item(l);
        ListItem::Ordered { level, content }
    } else {
        parse_description_item(l)
    }
}

fn parse_list(ls: &Vec<Vec<char>>, i: usize, f: u8) -> (r: (Block, usize))
    requires
        i < ls.len(),
        f != 0,
        list_family(pieces_view(ls@)[i as int]) == f as nat,
    ensures
        r.1 == list_end(pieces_view(ls@), i as int, f as nat),
        r.0.view() == (BlockView::List {
            kind: list_kind_of(f as nat),
            items: items_of(pieces_view(ls@), i as int, r.1 as int, f as nat),
        }),
{
    let ghost lsv = pieces_view(ls@);
    let mut items: Vec<ListItem> = Vec::new();
    let mut k = i;
    while k < ls.len() && list_family_of(&ls[k]) == f
        invariant
            i <= k <= ls.len(),
            f != 0,
            lsv == pieces_view(ls@),
            list_end(lsv, i as int, f as nat) == list_end(lsv, k as int, f as nat),
            items@.map_values(|x: ListItem| x.view()) == items_of(lsv, i as int, k as int, f as nat),
        decreases ls.len() - k,
    {
        let item = parse_list_item(&ls[k], f);
        let ghost before = items@.map_values(|x: ListItem| x.view());
        assert(ls[k as int]@ == lsv[k as int]);
        items.push(item);
        assert(items@.map_values(|x: ListItem| x.view()) =~= before.push(item.view()));
        assert(items_of(lsv, i as int, k + 1, f as nat) =~= items_of(lsv, i as int, k as int, f as nat).push(item_of(lsv[k as int], f as nat)));
        assert(items@.map_values(|x: ListItem| x.view()) =~= items_of(
            lsv,
            i as int,
            k + 1,
            f as nat,
        ));
        k += 1;
    }
    let kind = if f == 1 {
        ListKind::Unordered
    } else if f == 2 {
        ListKind::Ordered
    } else {
        ListKind::Description
    };
    let ghost iv = items@.map_values(|x: ListItem| x.view());
    let b = Block::List { kind, items };
    proof {
        if let BlockView::List { items: v, .. } = b.view() {
            assert(v =~= iv);
        }
    }
    (b, k)
}

/// The paragraph that starts on line `i`, and the line after it.
pub fn parse_paragraph(ls: &Vec<Vec<char>>, i: usize) -> (r: (Block, usize))
    requires
        i < ls.len(),
        !blank_line(pieces_view(ls@)[i as int]),
        !opens_block(pieces_view(ls@)[i as int]),
    ensures
        r.1 == para_end(pieces_view(ls@), i as int),
        r.0.view() == (BlockView::Paragraph {
            content: para_inlines(pieces_view(ls@), i as int, r.1 as int),
        }),
{
    let ghost lsv = pieces_view(ls@);
    let mut content = scan_chars(&ls[i]);
    let mut k = i + 1;
    while k < ls.len() && !is_blank_line(&ls[k]) && !opens_block_line(&ls[k])
        invariant
            i < k <= ls.len(),
            lsv == pieces_view(ls@),
            para_end(lsv, i as int) == para_end(lsv, k as int),
            inlines_view(content@) == para_inlines(lsv, i as int, k as int),
        decreases ls.len() - k,
    {
        let mut space = String::new();
        push_char(&mut space, ' ');
        let ghost before = inlines_view(content@);
        content.push(InlineElement::Text(space));
        let mut more = scan_chars(&ls[k]);
        content.append(&mut more);
        assert(inlines_view(content@) =~= before.push(InlineView::Text(seq![' '])) + scan(
            lsv[k as int],
        ));
        k += 1;
    }
    (Block::Paragraph { content }, k)
}

/// The block that starts on the non-blank line `i`, and the line after it.
fn parse_block(ls: &Vec<Vec<char>>, i: usize) -> (r: Result<(Block, usize), usize>)
    requires
        i < ls.len(),
        !blank_line(pieces_view(ls@)[i as int]),
    ensures
        match r {
            Ok((b, n)) => block_at(pieces_view(ls@), i as int) == Ok::<(BlockView, int), int>(
                (b.view(), n as int),
            ),
            Err(e) => block_at(pieces_view(ls@), i as int) == Err::<(BlockView, int), int>(
                e as int,
            ),
        },
{
    let l = &ls[i];
    if is_section_line(l) {
        Ok((parse_section(l), i + 1))
    } else if is_delimiter_line(l) {
        parse_delimited_block(ls, i)
    } else if is_title_line(l) || is_anchor_line(l) {
        Ok((parse_block_metadata(l), i + 1))
    } else {
        let f = list_family_of(l);
        if f != 0 {
            let (b, n) = parse_list(ls, i, f);
            Ok((b, n))
        } else {
            let (b, n) = parse_paragraph(ls, i);
            Ok((b, n))
        }
    }
}

/// The blocks of lines `start..`, in the order of the text.
pub fn parse_blocks(ls: &Vec<Vec<char>>, start: usize) -> (r: Result<Vec<Block>, usize>)
    requires
        start <= ls.len(),
    ensures
        match r {
            Ok(bs) => body_from(pieces_view(ls@), start as int) == Ok::<Seq<BlockView>, int>(
                blocks_view(bs@),
            ),
            Err(e) => body_from(pieces_view(ls@), start as int) == Err::<Seq<BlockView>, int>(
                e as int,
            ),
        },
{
    let ghost lsv = pieces_view(ls@);
    let mut out: Vec<Block> = Vec::new();
    let mut i = start;
    while i < ls.len()
        invariant
            i <= ls.len(),
            lsv == pieces_view(ls@),
            body_from(lsv, start as int) == prepend(blocks_view(out@), body_from(lsv, i as int)),
        decreases ls.len() - i,
    {
        if is_blank_line(&ls[i]) {
            i += 1;
        } else {
            proof {
                lemma_block_at(lsv, i as int);
            }
            match parse_block(ls, i) {
                Err(e) => {
                    return Err(e);
                },
                Ok((b, n)) => {
                    let ghost before = blocks_view(out@);
                    out.push(b);
                    assert(blocks_view(out@) =~= before.push(b.view()));
                    assert(forall|s: Seq<BlockView>|
                        before + (seq![b.view()] + s) =~= blocks_view(out@) + s);
                    i = n;
                },
            }
        }
    }
    assert(blocks_view(out@) + Seq::<BlockView>::empty() =~= blocks_view(out@));
    Ok(out)
}

} // verus!
