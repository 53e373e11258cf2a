//! The document tree, its mathematical model, and its rendering to HTML.
use vstd::prelude::*;

verus! {

// ---------------------------------------------------------------------------
// The tree
// ---------------------------------------------------------------------------

#[derive(Debug, Clone, PartialEq)]
pub struct Document {
    pub header: Option<Header>,
    pub body: Vec<Block>,
}

#[derive(Debug, Clone, PartialEq)]
pub struct Header {
    pub title: String,
    pub attributes: Vec<Attribute>,
}

#[derive(Debug, Clone, PartialEq)]
pub struct Attribute {
    pub name: String,
    pub value: Option<String>,
}

#[derive(Debug, PartialEq)]
pub enum Block {
    Section { level: usize, title: String, blocks: Vec<Block> },
    Paragraph { content: Vec<InlineElement> },
    DelimitedBlock { kind: DelimitedBlockKind, content: String, language: Option<String> },
    List { kind: ListKind, items: Vec<ListItem> },
    BlockMetadata { kind: BlockMetadataKind },
}

#[derive(Debug, Clone, Copy, PartialEq, Eq, Structural)]
pub enum DelimitedBlockKind {
    Listing,
    Example,
    Literal,
    Sidebar,
    Quote,
}

#[derive(Debug, Clone, Copy, PartialEq, Eq, Structural)]
pub enum ListKind {
    Unordered,
    Ordered,
    Description,
}

#[derive(Debug, PartialEq)]
pub enum ListItem {
    Unordered { level: usize, content: Vec<InlineElement> },
    Ordered { level: usize, content: Vec<InlineElement> },
    Description { term: String, description: Option<Vec<InlineElement>> },
}

#[derive(Debug, Clone, PartialEq)]
pub enum BlockMetadataKind {
    Title(String),
    Attribute(Vec<String>),
    Anchor(String),
}

#[derive(Debug, PartialEq)]
pub enum InlineElement {
    Text(String),
    Formatted { kind: FormattedTextKind, content: Vec<InlineElement> },
    Macro { kind: MacroKind },
    LineBreak,
}

#[derive(Debug, Clone, Copy, PartialEq, Eq, Structural)]
pub enum FormattedTextKind {
    Strong,
    Emphasis,
    Monospace,
    Superscript,
    Subscript,
}

#[derive(Debug, Clone, PartialEq)]
pub enum MacroKind {
    Link { url: String, text: Option<String> },
    Image { path: String, attributes: Option<String> },
    CrossReference { target: String, text: Option<String> },
}

// ---------------------------------------------------------------------------
// The model: the same tree with strings as character sequences
// ---------------------------------------------------------------------------

pub enum InlineView {
    Text(Seq<char>),
    Formatted { kind: FormattedTextKind, content: Seq<InlineView> },
    Link { url: Seq<char>, text: Option<Seq<char>> },
    Image { path: Seq<char>, attributes: Option<Seq<char>> },
    CrossReference { target: Seq<char>, text: Option<Seq<char>> },
    LineBreak,
}

pub enum ItemView {
    Unordered { level: nat, content: Seq<InlineView> },
    Ordered { level: nat, content: Seq<InlineView> },
    Description { term: Seq<char>, description: Option<Seq<InlineView>> },
}

pub enum MetadataView {
    Title(Seq<char>),
    Attribute(Seq<Seq<char>>),
    Anchor(Seq<char>),
}

pub enum BlockView {
    Section { level: nat, title: Seq<char>, blocks: Seq<BlockView> },
    Paragraph { content: Seq<InlineView> },
    Delimited { kind: DelimitedBlockKind, content: Seq<char>, language: Option<Seq<char>> },
    List { kind: ListKind, items: Seq<ItemView> },
    Metadata { kind: MetadataView },
}

pub struct HeaderView {
    pub title: Seq<char>,
    pub attributes: Seq<(Seq<char>, Option<Seq<char>>)>,
}

pub struct DocumentView {
    pub header: Option<HeaderView>,
    pub body: Seq<BlockView>,
}

pub open spec fn opt_view(s: Option<String>) -> Option<Seq<char>> {
    match s {
        Some(x) => Some(x@),
        None => None,
    }
}

impl InlineElement {
    pub open spec fn view(self) -> InlineView
        decreases self,
    {
        match self {
            InlineElement::Text(s) => InlineView::Text(s@),
            InlineElement::Formatted { kind, content } => InlineView::Formatted {
                kind,
                content: Seq::new(
                    content.len() as nat,
                    |i: int|
                        if 0 <= i < content.len() {
                            content[i].view()
                        } else {
                            InlineView::LineBreak
                        },
                ),
            },
            InlineElement::Macro { kind } => match kind {
                MacroKind::Link { url, text } => InlineView::Link { url: url@, text: opt_view(text) },
                MacroKind::Image { path, attributes } => InlineView::Image {
                    path: path@,
                    attributes: opt_view(attributes),
                },
                MacroKind::CrossReference { target, text } => InlineView::CrossReference {
                    target: target@,
                    text: opt_view(text),
                },
            },
            InlineElement::LineBreak => InlineView::LineBreak,
        }
    }
}

/// The model of a run of inline elements.
pub open spec fn inlines_view(s: Seq<InlineElement>) -> Seq<InlineView> {
    Seq::new(s.len(), |i: int| s[i].view())
}

impl ListItem {
    pub open spec fn view(self) -> ItemView {
        match self {
            ListItem::Unordered { level, content } => ItemView::Unordered {
                level: level as nat,
                content: inlines_view(content@),
            },
            ListItem::Ordered { level, content } => ItemView::Ordered {
                level: level as nat,
                content: inlines_view(content@),
            },
            ListItem::Description { term, description } => ItemView::Description {
                term: term@,
                description: match description {
                    Some(d) => Some(inlines_view(d@)),
                    None => None,
                },
            },
        }
    }
}

impl BlockMetadataKind {
    pub open spec fn view(self) -> MetadataView {
        match self {
            BlockMetadataKind::Title(s) => MetadataView::Title(s@),
            BlockMetadataKind::Attribute(v) => MetadataView::Attribute(
                Seq::new(v.len() as nat, |i: int| v[i]@),
            ),
            BlockMetadataKind::Anchor(s) => MetadataView::Anchor(s@),
        }
    }
}

impl Block {
    pub open spec fn view(self) -> BlockView
        decreases self,
    {
        match self {
            Block::Section { level, title, blocks } => BlockView::Section {
                level: level as nat,
                title: title@,
                blocks: Seq::new(
                    blocks.len() as nat,
                    |i: int|
                        if 0 <= i < blocks.len() {
                            blocks[i].view()
                        } else {
                            BlockView::Paragraph { content: Seq::empty() }
                        },
                ),
            },
            Block::Paragraph { content } => BlockView::Paragraph { content: inlines_view(content@) },
            Block::DelimitedBlock { kind, content, language } => BlockView::Delimited {
                kind,
                content: content@,
                language: opt_view(language),
            },
            Block::List { kind, items } => BlockView::List {
                kind,
                items: Seq::new(items.len() as nat, |i: int| items[i].view()),
            },
            Block::BlockMetadata { kind } => BlockView::Metadata { kind: kind.view() },
        }
    }
}

/// The model of a sequence of blocks.
pub open spec fn blocks_view(s: Seq<Block>) -> Seq<BlockView> {
    Seq::new(s.len(), |i: int| s[i].view())
}

impl Header {
    pub open spec fn view(self) -> HeaderView {
        HeaderView {
            title: self.title@,
            attributes: Seq::new(
                self.attributes.len() as nat,
                |i: int| (self.attributes[i].name@, opt_view(self.attributes[i].value)),
            ),
        }
    }
}

impl Document {
    pub open spec fn view(self) -> DocumentView {
        DocumentView {
            header: match self.header {
                Some(h) => Some(h.view()),
                None => None,
            },
            body: blocks_view(self.body@),
        }
    }
}

// ---------------------------------------------------------------------------
// Copies
// ---------------------------------------------------------------------------

fn copy_string(s: &String) -> (r: String)
    ensures
        r@ == s@,
{
    s.clone()
}

fn copy_opt_string(o: &Option<String>) -> (r: Option<String>)
    ensures
        opt_view(r) == opt_view(*o),
{
    match o {
        Some(s) => Some(copy_string(s)),
        None => None,
    }
}

fn copy_strings(v: &Vec<String>) -> (r: Vec<String>)
    ensures
        r@.len() == v@.len(),
        forall|i: int| 0 <= i < v@.len() ==> #[trigger] r@[i]@ == v@[i]@,
{
    let mut r: Vec<String> = Vec::new();
    let mut k: usize = 0;
    while k < v.len()
        invariant
            k <= v.len(),
            r@.len() == k,
            forall|i: int| 0 <= i < k ==> #[trigger] r@[i]@ == v@[i]@,
        decreases v.len() - k,
    {
        r.push(copy_string(&v[k]));
        k += 1;
    }
    r
}

/// A copy of a run of inline elements, with the same model.
pub fn copy_inlines(v: &Vec<InlineElement>) -> (r: Vec<InlineElement>)
    ensures
        inlines_view(r@) == inlines_view(v@),
    decreases v,
{
    let mut r: Vec<InlineElement> = Vec::new();
    let mut k: usize = 0;
    while k < v.len()
        invariant
            k <= v.len(),
            r@.len() == k,
            forall|i: int| 0 <= i < k ==> #[trigger] r@[i].view() == v@[i].view(),
        decreases v.len() - k,
    {
        r.push(v[k].deep_copy());
        k += 1;
    }
    assert(inlines_view(r@) =~= inlines_view(v@));
    r
}

impl InlineElement {
    /// A copy of this element, with the same model.
    pub fn deep_copy(&self) -> (r: InlineElement)
        ensures
            r.view() == self.view(),
        decreases self,
    {
        match self {
            InlineElement::Text(s) => InlineElement::Text(copy_string(s)),
            InlineElement::Formatted { kind, content } => {
                let c = copy_inlines(content);
                let r = InlineElement::Formatted { kind: *kind, content: c };
                proof {
                    if let InlineView::Formatted { content: a, .. } = r.view() {
                        if let InlineView::Formatted { content: b, .. } = self.view() {
                            assert(a =~= inlines_view(c@));
                            assert(b =~= inlines_view(content@));
                        }
                    }
                }
                r
            },
            InlineElement::Macro { kind } => {
                let k = match kind {
                    MacroKind::Link { url, text } => MacroKind::Link {
                        url: copy_string(url),
                        text: copy_opt_string(text),
                    },
                    MacroKind::Image { path, attributes } => MacroKind::Image {
                        path: copy_string(path),
                        attributes: copy_opt_string(attributes),
                    },
                    MacroKind::CrossReference { target, text } => MacroKind::CrossReference {
                        target: copy_string(target),
                        text: copy_opt_string(text),
                    },
                };
                InlineElement::Macro { kind: k }
            },
            InlineElement::LineBreak => InlineElement::LineBreak,
        }
    }
}

impl Clone for InlineElement {
    fn clone(&self) -> Self {
        self.deep_copy()
    }
}

impl ListItem {
    /// A copy of this item, with the same model.
    pub fn deep_copy(&self) -> (r: ListItem)
        ensures
            r.view() == self.view(),
    {
        match self {
            ListItem::Unordered { level, content } => ListItem::Unordered {
                level: *level,
                content: copy_inlines(content),
            },
            ListItem::Ordered { level, content } => ListItem::Ordered {
                level: *level,
                content: copy_inlines(content),
            },
            ListItem::Description { term, description } => ListItem::Description {
                term: copy_string(term),
                description: match description {
                    Some(d) => Some(copy_inlines(d)),
                    None => None,
                },
            },
        }
    }
}

impl Clone for ListItem {
    fn clone(&self) -> Self {
        self.deep_copy()
    }
}

/// A copy of a sequence of blocks, with the same model.
pub fn copy_blocks(v: &Vec<Block>) -> (r: Vec<Block>)
    ensures
        blocks_view(r@) == blocks_view(v@),
    decreases v,
{
    let mut r: Vec<Block> = Vec::new();
    let mut k: usize = 0;
    while k < v.len()
        invariant
            k <= v.len(),
            r@.len() == k,
            forall|i: int| 0 <= i < k ==> #[trigger] r@[i].view() == v@[i].view(),
        decreases v.len() - k,
    {
        r.push(v[k].deep_copy());
        k += 1;
    }
    assert(blocks_view(r@) =~= blocks_view(v@));
    r
}

impl Block {
    /// A copy of this block, with the same model.
    pub fn deep_copy(&self) -> (r: Block)
        ensures
            r.view() == self.view(),
        decreases self,
    {
        match self {
            Block::Section { level, title, blocks } => {
                let c = copy_blocks(blocks);
                let r = Block::Section { level: *level, title: copy_string(title), blocks: c };
                proof {
                    if let BlockView::Section { blocks: a, .. } = r.view() {
                        if let BlockView::Section { blocks: b, .. } = self.view() {
                            assert(a =~= blocks_view(c@));
                            assert(b =~= blocks_view(blocks@));
                        }
                    }
                }
                r
            },
            Block::Paragraph { content } => Block::Paragraph { content: copy_inlines(content) },
            Block::DelimitedBlock { kind, content, language } => Block::DelimitedBlock {
                kind: *kind,
                content: copy_string(content),
                language: copy_opt_string(language),
            },
            Block::List { kind, items } => {
                let mut c: Vec<ListItem> = Vec::new();
                let mut k: usize = 0;
                while k < items.len()
                    invariant
                        k <= items.len(),
                        c@.len() == k,
                        forall|i: int| 0 <= i < k ==> #[trigger] c@[i].view() == items@[i].view(),
                    decreases items.len() - k,
                {
                    c.push(items[k].deep_copy());
                    k += 1;
                }
                let r = Block::List { kind: *kind, items: c };
                proof {
                    if let BlockView::List { items: a, .. } = r.view() {
                        if let BlockView::List { items: b, .. } = self.view() {
                            assert(a =~= b);
                        }
                    }
                }
                r
            },
            Block::BlockMetadata { kind } => {
                let k = match kind {
                    BlockMetadataKind::Title(s) => BlockMetadataKind::Title(copy_string(s)),
                    BlockMetadataKind::Attribute(v) => BlockMetadataKind::Attribute(copy_strings(v)),
                    BlockMetadataKind::Anchor(s) => BlockMetadataKind::Anchor(copy_string(s)),
                };
                proof {
                    if let MetadataView::Attribute(a) = k.view() {
                        if let MetadataView::Attribute(b) = kind.view() {
                            assert(a =~= b);
                        }
                    }
                }
                Block::BlockMetadata { kind: k }
            },
        }
    }
}

impl Clone for Block {
    fn clone(&self) -> Self {
        self.deep_copy()
    }
}

} // verus!
