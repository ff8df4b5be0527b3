use vstd::prelude::*;

verus! {

/// Root node for a parsed Logseq markdown page.
#[derive(Debug, PartialEq, Eq)]
pub struct Document {
    pub version: u32,
    /// The page in order: top-level blocks (each holding its nested blocks)
    /// and the blank lines between them.
    pub items: Vec<Node>,
}

/// One item of a page.
#[derive(Debug, PartialEq, Eq)]
pub enum Node {
    Block(Block),
    /// An empty (or whitespace-only) line, with its line number (1-indexed).
    BlankLine { line: usize },
}

#[derive(Debug, PartialEq, Eq)]
pub struct Block {
    /// Block UUID if present (commonly stored as `id:: <uuid>` in properties).
    pub id: Option<String>,
    /// Task marker at the start of the block (TODO, DOING, DONE, LATER, NOW).
    pub marker: Option<Marker>,
    /// Parsed properties attached to this block.
    pub properties: Vec<Property>,
    /// Inline content of the block.
    pub content: Vec<Inline>,
    /// Nested child blocks.
    pub children: Vec<Block>,
    /// Original line number in the source file (1-indexed).
    pub line: usize,
}

#[derive(Debug, PartialEq, Eq)]
pub struct Property {
    pub key: String,
    /// The value as written (trimmed).
    pub value: String,
    /// The value parsed into inline nodes (refs, tags, links, bare URLs).
    pub inlines: Vec<Inline>,
    pub line: usize,
}

#[derive(Debug, Clone, Copy, PartialEq, Eq)]
pub enum Marker {
    Todo,
    Doing,
    Done,
    Later,
    Now,
}

#[derive(Debug, PartialEq, Eq)]
pub enum Inline {
    Text { value: String },
    PageRef { title: String, original: String },
    BlockRef { uuid: String },
    Tag { title: String, original: String },
    Link { label: Vec<Inline>, url: String },
    Embed { target: EmbedTarget },
    CodeSpan { code: String },
    /// Fenced code block (```lang ... ```). This is a block-level construct but it
    /// is modelled as an inline node inside a `Block` to preserve ordering.
    CodeBlock { info: Option<String>, text: String },
}

#[derive(Debug, PartialEq, Eq)]
pub enum EmbedTarget {
    PageRef { title: String, original: String },
    BlockRef { uuid: String },
}

// ---------------------------------------------------------------------------
// Mathematical models: strings become character sequences.
// ---------------------------------------------------------------------------

pub enum SpecEmbedTarget {
    PageRef { title: Seq<char>, original: Seq<char> },
    BlockRef { uuid: Seq<char> },
}

pub enum SpecInline {
    Text { value: Seq<char> },
    PageRef { title: Seq<char>, original: Seq<char> },
    BlockRef { uuid: Seq<char> },
    Tag { title: Seq<char>, original: Seq<char> },
    Link { label: Seq<SpecInline>, url: Seq<char> },
    Embed { target: SpecEmbedTarget },
    CodeSpan { code: Seq<char> },
    CodeBlock { info: Option<Seq<char>>, text: Seq<char> },
}

pub struct SpecProperty {
    pub key: Seq<char>,
    pub value: Seq<char>,
    pub inlines: Seq<SpecInline>,
    pub line: nat,
}

pub struct SpecBlock {
    pub id: Option<Seq<char>>,
    pub marker: Option<Marker>,
    pub properties: Seq<SpecProperty>,
    pub content: Seq<SpecInline>,
    pub children: Seq<SpecBlock>,
    pub line: nat,
}

pub enum SpecNode {
    Block(SpecBlock),
    BlankLine { line: nat },
}

pub struct SpecDocument {
    pub version: nat,
    pub items: Seq<SpecNode>,
}

pub open spec fn opt_str_view(o: Option<String>) -> Option<Seq<char>> {
    match o {
        Some(s) => Some(s@),
        None => None,
    }
}

impl View for EmbedTarget {
    type V = SpecEmbedTarget;

    open spec fn view(&self) -> SpecEmbedTarget {
        match self {
            EmbedTarget::PageRef { title, original } => SpecEmbedTarget::PageRef {
                title: title@,
                original: original@,
            },
            EmbedTarget::BlockRef { uuid } => SpecEmbedTarget::BlockRef { uuid: uuid@ },
        }
    }
}

pub open spec fn inline_view(i: Inline) -> SpecInline
    decreases i,
{
    match i {
        Inline::Text { value } => SpecInline::Text { value: value@ },
        Inline::PageRef { title, original } => SpecInline::PageRef {
            title: title@,
            original: original@,
        },
        Inline::BlockRef { uuid } => SpecInline::BlockRef { uuid: uuid@ },
        Inline::Tag { title, original } => SpecInline::Tag { title: title@, original: original@ },
        Inline::Link { label, url } => SpecInline::Link {
            label: inlines_view(label@),
            url: url@,
        },
        Inline::Embed { target } => SpecInline::Embed { target: target@ },
        Inline::CodeSpan { code } => SpecInline::CodeSpan { code: code@ },
        Inline::CodeBlock { info, text } => SpecInline::CodeBlock {
            info: opt_str_view(info),
            text: text@,
        },
    }
}

/// The model of a sequence of inline nodes.
pub open spec fn inlines_view(s: Seq<Inline>) -> Seq<SpecInline>
    decreases s,
{
    Seq::new(s.len(), |k: int| if 0 <= k < s.len() { inline_view(s[k]) } else { SpecInline::Text { value: Seq::empty() } })
}

impl View for Inline {
    type V = SpecInline;

    open spec fn view(&self) -> SpecInline {
        inline_view(*self)
    }
}

impl View for Property {
    type V = SpecProperty;

    open spec fn view(&self) -> SpecProperty {
        SpecProperty {
            key: self.key@,
            value: self.value@,
            inlines: inlines_view(self.inlines@),
            line: self.line as nat,
        }
    }
}

pub open spec fn properties_view(s: Seq<Property>) -> Seq<SpecProperty> {
    s.map_values(|p: Property| p@)
}

pub open spec fn block_view(b: Block) -> SpecBlock
    decreases b,
{
    SpecBlock {
        id: opt_str_view(b.id),
        marker: b.marker,
        properties: properties_view(b.properties@),
        content: inlines_view(b.content@),
        children: blocks_view(b.children@),
        line: b.line as nat,
    }
}

/// A block with no content, properties or children.
pub open spec fn empty_spec_block(line: nat) -> SpecBlock {
    SpecBlock {
        id: None,
        marker: None,
        properties: Seq::empty(),
        content: Seq::empty(),
        children: Seq::empty(),
        line,
    }
}

/// The model of a sequence of blocks.
pub open spec fn blocks_view(s: Seq<Block>) -> Seq<SpecBlock>
    decreases s,
{
    Seq::new(s.len(), |k: int| if 0 <= k < s.len() { block_view(s[k]) } else { empty_spec_block(0) })
}

impl View for Block {
    type V = SpecBlock;

    open spec fn view(&self) -> SpecBlock {
        block_view(*self)
    }
}

pub open spec fn node_view(n: Node) -> SpecNode {
    match n {
        Node::Block(b) => SpecNode::Block(block_view(b)),
        Node::BlankLine { line } => SpecNode::BlankLine { line: line as nat },
    }
}

/// The model of a sequence of page items.
pub open spec fn nodes_view(s: Seq<Node>) -> Seq<SpecNode> {
    s.map_values(|n: Node| node_view(n))
}

impl View for Node {
    type V = SpecNode;

    open spec fn view(&self) -> SpecNode {
        node_view(*self)
    }
}

impl View for Document {
    type V = SpecDocument;

    open spec fn view(&self) -> SpecDocument {
        SpecDocument { version: self.version as nat, items: nodes_view(self.items@) }
    }
}

// ---------------------------------------------------------------------------
// Cloning: a clone has the same model as the value it was made from.
// ---------------------------------------------------------------------------

fn clone_opt_string(o: &Option<String>) -> (r: Option<String>)
    ensures
        r == *o,
{
    match o {
        Some(s) => Some(s.clone()),
        None => None,
    }
}

fn clone_target(t: &EmbedTarget) -> (r: EmbedTarget)
    ensures
        r == *t,
{
    match t {
        EmbedTarget::PageRef { title, original } => EmbedTarget::PageRef {
            title: title.clone(),
            original: original.clone(),
        },
        EmbedTarget::BlockRef { uuid } => EmbedTarget::BlockRef { uuid: uuid.clone() },
    }
}

fn clone_property(p: &Property) -> (r: Property)
    ensures
        r@ == p@,
{
    Property { key: p.key.clone(), value: p.value.clone(), inlines: clone_inlines(&p.inlines), line: p.line }
}

fn clone_properties(v: &Vec<Property>) -> (r: Vec<Property>)
    ensures
        properties_view(r@) == properties_view(v@),
{
    let mut out: Vec<Property> = Vec::new();
    for i in 0..v.len()
        invariant
            out@.len() == i,
            forall|j: int| 0 <= j < i ==> (#[trigger] out@[j])@ == v@[j]@,
    {
        out.push(clone_property(&v[i]));
    }
    assert(properties_view(out@) =~= properties_view(v@));
    out
}

fn clone_inline(x: &Inline) -> (r: Inline)
    ensures
        r@ == x@,
    decreases x,
{
    match x {
        Inline::Text { value } => Inline::Text { value: value.clone() },
        Inline::PageRef { title, original } => Inline::PageRef {
            title: title.clone(),
            original: original.clone(),
        },
        Inline::BlockRef { uuid } => Inline::BlockRef { uuid: uuid.clone() },
        Inline::Tag { title, original } => Inline::Tag { title: title.clone(), original: original.clone() },
        Inline::Link { label, url } => Inline::Link { label: clone_inlines(label), url: url.clone() },
        Inline::Embed { target } => Inline::Embed { target: clone_target(target) },
        Inline::CodeSpan { code } => Inline::CodeSpan { code: code.clone() },
        Inline::CodeBlock { info, text } => Inline::CodeBlock {
            info: clone_opt_string(info),
            text: text.clone(),
        },
    }
}

fn clone_inlines(v: &Vec<Inline>) -> (r: Vec<Inline>)
    ensures
        inlines_view(r@) == inlines_view(v@),
    decreases v,
{
    let mut out: Vec<Inline> = Vec::new();
    let mut i: usize = 0;
    while i < v.len()
        invariant
            i <= v@.len(),
            out@.len() == i,
            forall|j: int| 0 <= j < i ==> (#[trigger] out@[j])@ == v@[j]@,
        decreases v@.len() - i,
    {
        proof {
            assert(decreases_to!(v => v@));
            assert(decreases_to!(v@ => v@[i as int]));
        }
        out.push(clone_inline(&v[i]));
        i = i + 1;
    }
    assert(inlines_view(out@) =~= inlines_view(v@));
    out
}

fn clone_block(b: &Block) -> (r: Block)
    ensures
        r@ == b@,
    decreases b,
{
    Block {
        id: clone_opt_string(&b.id),
        marker: b.marker,
        properties: clone_properties(&b.properties),
        content: clone_inlines(&b.content),
        children: clone_blocks(&b.children),
        line: b.line,
    }
}

fn clone_blocks(v: &Vec<Block>) -> (r: Vec<Block>)
    ensures
        blocks_view(r@) == blocks_view(v@),
    decreases v,
{
    let mut out: Vec<Block> = Vec::new();
    let mut i: usize = 0;
    while i < v.len()
        invariant
            i <= v@.len(),
            out@.len() == i,
            forall|j: int| 0 <= j < i ==> (#[trigger] out@[j])@ == v@[j]@,
        decreases v@.len() - i,
    {
        proof {
            assert(decreases_to!(v => v@));
            assert(decreases_to!(v@ => v@[i as int]));
        }
        out.push(clone_block(&v[i]));
        i = i + 1;
    }
    assert(blocks_view(out@) =~= blocks_view(v@));
    out
}

impl Clone for EmbedTarget {
    fn clone(&self) -> (r: Self)
        ensures
            r == *self,
    {
        clone_target(self)
    }
}

impl Clone for Property {
    fn clone(&self) -> (r: Self)
        ensures
            r@ == self@,
    {
        clone_property(self)
    }
}

impl Clone for Inline {
    fn clone(&self) -> (r: Self)
        ensures
            r@ == self@,
    {
        clone_inline(self)
    }
}

impl Clone for Block {
    fn clone(&self) -> (r: Self)
        ensures
            r@ == self@,
    {
        clone_block(self)
    }
}

fn clone_node(n: &Node) -> (r: Node)
    ensures
        r@ == n@,
{
    match n {
        Node::Block(b) => Node::Block(clone_block(b)),
        Node::BlankLine { line } => Node::BlankLine { line: *line },
    }
}

impl Clone for Node {
    fn clone(&self) -> (r: Self)
        ensures
            r@ == self@,
    {
        clone_node(self)
    }
}

impl Clone for Document {
    fn clone(&self) -> (r: Self)
        ensures
            r@ == self@,
    {
        let mut items: Vec<Node> = Vec::new();
        for i in 0..self.items.len()
            invariant
                items@.len() == i,
                forall|j: int| 0 <= j < i ==> (#[trigger] items@[j])@ == self.items@[j]@,
        {
            items.push(clone_node(&self.items[i]));
        }
        assert(nodes_view(items@) =~= nodes_view(self.items@));
        Document { version: self.version, items }
    }
}

} // verus!
