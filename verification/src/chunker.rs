//! Cutting a document into chunks within a token budget, each under its own header context.
use crate::json::JsonView;
use crate::markdown::{
    classify_and_group, document_nodes, node_views, node_weight, page_views, part_weight, MdNode,
    NodeType, NodeView,
};
use crate::markdown_render::{is_content, lemma_count_joined};
use crate::order::{concatenated, total};
use crate::text::{
    chars_of, count_where, is_space, join, joined, lemma_count_none, string_of, string_views, views,
};
use crate::tokens::{get_exact_token_count, token_count, TokenCounter};
use crate::types::ChunkPayload;
use vstd::prelude::*;

verus! {

/// The token budget of a chunk, its header context included.
pub const T_MAX_TOKENS: usize = 512;

/// How many header levels a context keeps.
pub const MAX_HEADER_DEPTH: usize = 6;

/// The slot of a header level: the deepest slot for every level beyond it.
pub open spec fn slot_of(level: usize) -> int {
    if level == 0 {
        0
    } else if level > MAX_HEADER_DEPTH {
        MAX_HEADER_DEPTH - 1
    } else {
        level - 1
    }
}

/// A context with every slot empty.
pub open spec fn empty_context() -> Seq<Option<Seq<char>>> {
    Seq::new(MAX_HEADER_DEPTH as nat, |i: int| None)
}

/// The context after a header: its slot holds its text, and every deeper slot is empty.
pub open spec fn context_after(
    context: Seq<Option<Seq<char>>>,
    level: usize,
    text: Seq<char>,
) -> Seq<Option<Seq<char>>> {
    Seq::new(
        context.len(),
        |i: int|
            if i < slot_of(level) {
                context[i]
            } else if i == slot_of(level) {
                Some(text)
            } else {
                None
            },
    )
}

/// The headers that a context holds, outermost first.
pub open spec fn context_list(context: Seq<Option<Seq<char>>>) -> Seq<Seq<char>>
    decreases context.len(),
{
    if context.len() == 0 {
        Seq::empty()
    } else {
        match context.last() {
            Some(text) => context_list(context.drop_last()).push(text),
            None => context_list(context.drop_last()),
        }
    }
}

/// The context as the one line whose tokens are counted.
pub open spec fn context_line(context: Seq<Option<Seq<char>>>) -> Seq<char> {
    joined(context_list(context), " > "@)
}

/// What a slot holds.
pub open spec fn slot_view(slot: Option<String>) -> Option<Seq<char>> {
    match slot {
        Some(text) => Some(text@),
        None => None,
    }
}

/// The headers above the current place in a document, one slot for each level.
pub struct HeaderContext {
    pub slots: Vec<Option<String>>,
}

impl View for HeaderContext {
    type V = Seq<Option<Seq<char>>>;

    open spec fn view(&self) -> Seq<Option<Seq<char>>> {
        Seq::new(self.slots@.len(), |i: int| slot_view(self.slots@[i]))
    }
}

impl HeaderContext {
    /// A context has one slot for each level.
    pub open spec fn wf(&self) -> bool {
        self.slots@.len() == MAX_HEADER_DEPTH
    }

    /// A context with every slot empty.
    pub fn new() -> (r: HeaderContext)
        ensures
            r.wf(),
            r@ == empty_context(),
    {
        let mut slots: Vec<Option<String>> = Vec::new();
        let mut i: usize = 0;
        while i < MAX_HEADER_DEPTH
            invariant
                i <= MAX_HEADER_DEPTH,
                slots@.len() == i,
                forall|k: int| 0 <= k < i ==> #[trigger] slots@[k] is None,
            decreases MAX_HEADER_DEPTH - i,
        {
            slots.push(None);
            i = i + 1;
        }
        let r: HeaderContext = HeaderContext { slots };
        assert(r@ =~= empty_context());
        r
    }

    /// A context that holds the same.
    pub fn copy(&self) -> (r: HeaderContext)
        requires
            self.wf(),
        ensures
            r.wf(),
            r@ == self@,
    {
        let mut slots: Vec<Option<String>> = Vec::new();
        let mut i: usize = 0;
        while i < self.slots.len()
            invariant
                i <= self.slots@.len(),
                slots@.len() == i,
                forall|k: int|
                    0 <= k < i ==> slot_view(#[trigger] slots@[k]) == slot_view(self.slots@[k]),
            decreases self.slots@.len() - i,
        {
            match &self.slots[i] {
                Some(text) => {
                    slots.push(Some(text.clone()));
                },
                None => {
                    slots.push(None);
                },
            }
            i = i + 1;
        }
        let r: HeaderContext = HeaderContext { slots };
        assert(r@ =~= self@);
        r
    }

    /// The slot of a level.
    fn slot_index(level: usize) -> (r: usize)
        ensures
            r == slot_of(level),
            r < MAX_HEADER_DEPTH,
    {
        if level == 0 {
            0
        } else if level > MAX_HEADER_DEPTH {
            MAX_HEADER_DEPTH - 1
        } else {
            level - 1
        }
    }

    /// Whether the slot of a level already holds this text.
    pub fn holds(&self, level: usize, text: &String) -> (r: bool)
        requires
            self.wf(),
        ensures
            r == (self@[slot_of(level)] == Some(text@)),
    {
        let idx: usize = HeaderContext::slot_index(level);
        match &self.slots[idx] {
            Some(held) => held.eq(text),
            None => false,
        }
    }

    /// Enters a header: its slot takes its text, and every deeper slot is emptied.
    pub fn update_at_depth(&mut self, level: usize, text: &String)
        requires
            old(self).wf(),
        ensures
            final(self).wf(),
            final(self)@ == context_after(old(self)@, level, text@),
    {
        let ghost before = self@;
        let idx: usize = HeaderContext::slot_index(level);
        let mut slots: Vec<Option<String>> = Vec::new();
        let mut i: usize = 0;
        while i < self.slots.len()
            invariant
                i <= self.slots@.len(),
                self.slots@.len() == MAX_HEADER_DEPTH,
                before == self@,
                idx == slot_of(level),
                slots@.len() == i,
                forall|k: int|
                    0 <= k < i ==> slot_view(#[trigger] slots@[k]) == context_after(
                        before,
                        level,
                        text@,
                    )[k],
            decreases self.slots@.len() - i,
        {
            if i < idx {
                match &self.slots[i] {
                    Some(held) => {
                        slots.push(Some(held.clone()));
                    },
                    None => {
                        slots.push(None);
                    },
                }
            } else if i == idx {
                slots.push(Some(text.clone()));
            } else {
                slots.push(None);
            }
            i = i + 1;
        }
        self.slots = slots;
        assert(self@ =~= context_after(before, level, text@));
    }

    /// The headers held, outermost first.
    pub fn to_list(&self) -> (r: Vec<String>)
        ensures
            string_views(r@) == context_list(self@),
    {
        let ghost all = self@;
        let mut out: Vec<String> = Vec::new();
        let mut i: usize = 0;
        assert(string_views(out@) =~= Seq::<Seq<char>>::empty());
        while i < self.slots.len()
            invariant
                i <= self.slots@.len(),
                all == self@,
                string_views(out@) == context_list(all.take(i as int)),
            decreases self.slots@.len() - i,
        {
            assert(all.take(i + 1).drop_last() =~= all.take(i as int));
            assert(all.take(i + 1).last() == slot_view(self.slots@[i as int]));
            let ghost before = string_views(out@);
            match &self.slots[i] {
                Some(text) => {
                    out.push(text.clone());
                    assert(string_views(out@) =~= before.push(text@));
                },
                None => {},
            }
            i = i + 1;
        }
        assert(all.take(i as int) =~= all);
        out
    }

    /// The headers held as one line, with ` > ` between them.
    pub fn to_string_for_tokens(&self) -> (r: String)
        ensures
            r@ == context_line(self@),
    {
        let list: Vec<String> = self.to_list();
        join_strings(list.as_slice(), " > ")
    }
}

/// The strings in order, with `sep` between each two of them.
fn join_strings(parts: &[String], sep: &str) -> (r: String)
    ensures
        r@ == joined(string_views(parts@), sep@),
{
    let mut chars: Vec<Vec<char>> = Vec::new();
    let mut i: usize = 0;
    while i < parts.len()
        invariant
            i <= parts@.len(),
            chars@.len() == i,
            forall|k: int| 0 <= k < i ==> #[trigger] chars@[k]@ == parts@[k]@,
        decreases parts@.len() - i,
    {
        chars.push(chars_of(parts[i].as_str()));
        i = i + 1;
    }
    assert(views(chars@) =~= string_views(parts@));
    let sep_chars: Vec<char> = chars_of(sep);
    string_of(join(chars.as_slice(), sep_chars.as_slice()).as_slice())
}

/// `pages` with `page` put in its place, unless it is there already.
pub open spec fn insert_page(pages: Seq<usize>, page: usize) -> Seq<usize>
    decreases pages.len(),
{
    if pages.len() == 0 || pages.last() < page {
        pages.push(page)
    } else if pages.last() == page {
        pages
    } else {
        insert_page(pages.drop_last(), page).push(pages.last())
    }
}

/// The pages of the nodes, ascending, each once.
pub open spec fn node_pages(nodes: Seq<NodeView>) -> Seq<usize>
    decreases nodes.len(),
{
    if nodes.len() == 0 {
        Seq::empty()
    } else {
        insert_page(node_pages(nodes.drop_last()), nodes.last().page_num)
    }
}

/// The texts of the nodes.
pub open spec fn node_texts(nodes: Seq<NodeView>) -> Seq<Seq<char>> {
    Seq::new(nodes.len(), |i: int| nodes[i].text)
}

/// The nodes of a chunk in the making, their tokens, and the context that it started under.
pub struct ChunkAccumulator {
    pub nodes: Vec<MdNode>,
    pub current_tokens: usize,
    pub injected_context: Option<HeaderContext>,
}

impl ChunkAccumulator {
    /// The context that the accumulator holds is one.
    pub open spec fn wf(&self) -> bool {
        self.injected_context matches Some(context) ==> context.wf()
    }

    /// What the context that the accumulator holds says.
    pub open spec fn seed(&self) -> Option<Seq<Option<Seq<char>>>> {
        match self.injected_context {
            Some(context) => Some(context@),
            None => None,
        }
    }

    /// An accumulator that holds nothing.
    pub fn new() -> (r: ChunkAccumulator)
        ensures
            r.wf(),
            node_views(r.nodes@) == Seq::<NodeView>::empty(),
            r.current_tokens == 0,
            r.seed() is None,
    {
        let r: ChunkAccumulator = ChunkAccumulator {
            nodes: Vec::new(),
            current_tokens: 0,
            injected_context: None,
        };
        assert(node_views(r.nodes@) =~= Seq::<NodeView>::empty());
        r
    }

    /// Takes up a node and its tokens.
    pub fn add_node(&mut self, node: MdNode, tokens: usize)
        requires
            old(self).current_tokens + tokens <= usize::MAX,
            old(self).wf(),
        ensures
            node_views(final(self).nodes@) == node_views(old(self).nodes@).push(node@),
            final(self).current_tokens == old(self).current_tokens + tokens,
            final(self).injected_context == old(self).injected_context,
            final(self).wf(),
    {
        let ghost before = node_views(self.nodes@);
        self.current_tokens = self.current_tokens + tokens;
        self.nodes.push(node);
        assert(node_views(self.nodes@) =~= before.push(node@));
    }

    /// Whether no node was taken up.
    pub fn is_empty(&self) -> (r: bool)
        ensures
            r == (node_views(self.nodes@).len() == 0),
    {
        self.nodes.len() == 0
    }

    /// The texts of the nodes, with a blank line between each two of them.
    pub fn compile_to_markdown(&self) -> (r: String)
        ensures
            r@ == joined(node_texts(node_views(self.nodes@)), "\n\n"@),
    {
        let mut chars: Vec<Vec<char>> = Vec::new();
        let mut i: usize = 0;
        while i < self.nodes.len()
            invariant
                i <= self.nodes@.len(),
                chars@.len() == i,
                forall|k: int| 0 <= k < i ==> #[trigger] chars@[k]@ == self.nodes@[k].text@,
            decreases self.nodes@.len() - i,
        {
            chars.push(chars_of(self.nodes[i].text.as_str()));
            i = i + 1;
        }
        assert(views(chars@) =~= node_texts(node_views(self.nodes@)));
        let sep: Vec<char> = chars_of("\n\n");
        string_of(join(chars.as_slice(), sep.as_slice()).as_slice())
    }

    /// The pages of the nodes, ascending, each once.
    pub fn source_pages(&self) -> (r: Vec<usize>)
        ensures
            r@ == node_pages(node_views(self.nodes@)),
    {
        let ghost all = node_views(self.nodes@);
        let mut out: Vec<usize> = Vec::new();
        let mut i: usize = 0;
        while i < self.nodes.len()
            invariant
                i <= self.nodes@.len(),
                all == node_views(self.nodes@),
                out@ == node_pages(all.take(i as int)),
            decreases self.nodes@.len() - i,
        {
            let page: usize = self.nodes[i].page_num;
            assert(all.take(i + 1).drop_last() =~= all.take(i as int));
            let ghost before = out@;
            let mut p: usize = out.len();
            assert(before.take(p as int) =~= before);
            assert(insert_page(before, page) + Seq::<usize>::empty() =~= insert_page(before, page));
            assert(before.skip(p as int) =~= Seq::<usize>::empty());
            while p > 0 && out[p - 1] > page
                invariant
                    p <= out@.len(),
                    out@ == before,
                    insert_page(before.take(p as int), page) + before.skip(p as int) == insert_page(
                        before,
                        page,
                    ),
                decreases p,
            {
                proof {
                    let cur = before.take(p as int);
                    assert(cur.last() == before[p - 1]);
                    assert(cur.drop_last() =~= before.take(p - 1));
                    let shorter = insert_page(before.take(p - 1), page);
                    assert(shorter.push(before[p - 1]) + before.skip(p as int) =~= shorter
                        + before.skip(p - 1));
                }
                p = p - 1;
            }
            assert(p > 0 ==> before.take(p as int).last() == before[p - 1]);
            if p == 0 || out[p - 1] < page {
                out.insert(p, page);
                assert(out@ =~= before.take(p as int).push(page) + before.skip(p as int));
            } else {
                assert(before.take(p as int) + before.skip(p as int) =~= before);
            }
            i = i + 1;
        }
        assert(all.take(i as int) =~= all);
        out
    }

    /// Drops the nodes, their tokens and the context.
    pub fn clear(&mut self)
        ensures
            final(self).wf(),
            node_views(final(self).nodes@) == Seq::<NodeView>::empty(),
            final(self).current_tokens == 0,
            final(self).seed() is None,
    {
        self.nodes.clear();
        self.current_tokens = 0;
        self.injected_context = None;
        assert(node_views(self.nodes@) =~= Seq::<NodeView>::empty());
    }

    /// Remembers the context that the chunk starts under.
    pub fn inject_context(&mut self, context: &HeaderContext)
        requires
            context.wf(),
        ensures
            final(self).wf(),
            final(self).seed() == Some(context@),
            final(self).nodes == old(self).nodes,
            final(self).current_tokens == old(self).current_tokens,
    {
        self.injected_context = Some(context.copy());
    }
}

/// What a chunk holds.
#[verifier::ext_equal]
pub ghost struct ChunkView {
    pub chunk_id: nat,
    pub text: Seq<char>,
    pub parent_hierarchy: Seq<Seq<char>>,
    pub root_document: Seq<char>,
    pub token_count: nat,
    pub source_pages: Seq<usize>,
}

impl View for ChunkPayload {
    type V = ChunkView;

    open spec fn view(&self) -> ChunkView {
        ChunkView {
            chunk_id: self.chunk_id as nat,
            text: self.text@,
            parent_hierarchy: string_views(self.parent_hierarchy@),
            root_document: self.root_document@,
            token_count: self.token_count as nat,
            source_pages: self.source_pages@,
        }
    }
}

/// What each of the chunks holds.
pub open spec fn chunk_views(chunks: Seq<ChunkPayload>) -> Seq<ChunkView> {
    Seq::new(chunks.len(), |i: int| chunks[i]@)
}

/// How far the cutting of a document has come: the context at the current place, the nodes of
/// the chunk in the making with their tokens and the context that it started under, and the
/// chunks that are done.
#[verifier::ext_equal]
pub ghost struct ChunkState {
    pub context: Seq<Option<Seq<char>>>,
    pub nodes: Seq<NodeView>,
    pub tokens: nat,
    pub seed: Option<Seq<Option<Seq<char>>>>,
    pub done: Seq<ChunkView>,
}

/// Where the cutting of a document starts.
pub open spec fn initial_state() -> ChunkState {
    ChunkState {
        context: empty_context(),
        nodes: Seq::empty(),
        tokens: 0,
        seed: None,
        done: Seq::empty(),
    }
}

/// The chunk that the nodes taken up so far make.
pub open spec fn pending_chunk(state: ChunkState, document_id: Seq<char>) -> ChunkView {
    ChunkView {
        chunk_id: state.done.len(),
        text: joined(node_texts(state.nodes), "\n\n"@),
        parent_hierarchy: context_list(
            match state.seed {
                Some(context) => context,
                None => empty_context(),
            },
        ),
        root_document: document_id,
        token_count: state.tokens,
        source_pages: node_pages(state.nodes),
    }
}

/// The state once the nodes taken up so far, if any, are a chunk.
pub open spec fn flushed(state: ChunkState, document_id: Seq<char>) -> ChunkState {
    if state.nodes.len() == 0 {
        state
    } else {
        ChunkState {
            nodes: Seq::empty(),
            tokens: 0,
            seed: None,
            done: state.done.push(pending_chunk(state, document_id)),
            ..state
        }
    }
}

/// The state with one more node in the chunk in the making, which starts under the current
/// context if it has not started yet.
pub open spec fn taken(state: ChunkState, node: NodeView, node_tokens: nat) -> ChunkState {
    ChunkState {
        nodes: state.nodes.push(node),
        tokens: state.tokens + node_tokens,
        seed: match state.seed {
            Some(context) => Some(context),
            None => Some(state.context),
        },
        ..state
    }
}

/// The state after one more node. A header that differs from the one in its slot ends the chunk
/// and becomes the context; one that repeats it changes nothing. Any other node joins the chunk
/// if the budget allows it or the chunk is empty, and otherwise starts the next chunk.
pub open spec fn next_state(
    state: ChunkState,
    node: NodeView,
    node_tokens: nat,
    context_tokens: nat,
    document_id: Seq<char>,
) -> ChunkState {
    match node.node_type {
        NodeType::Header(level) => if state.context[slot_of(level)] == Some(node.text) {
            state
        } else {
            ChunkState {
                context: context_after(state.context, level, node.text),
                ..flushed(state, document_id)
            }
        },
        _ => if state.nodes.len() == 0 || state.tokens + node_tokens + context_tokens
            <= T_MAX_TOKENS {
            taken(state, node, node_tokens)
        } else {
            taken(flushed(state, document_id), node, node_tokens)
        },
    }
}

/// The state after all the nodes.
pub open spec fn state_after(
    nodes: Seq<NodeView>,
    definition: JsonView,
    document_id: Seq<char>,
) -> ChunkState
    decreases nodes.len(),
{
    if nodes.len() == 0 {
        initial_state()
    } else {
        let state = state_after(nodes.drop_last(), definition, document_id);
        next_state(
            state,
            nodes.last(),
            token_count(definition, nodes.last().text),
            token_count(definition, context_line(state.context)),
            document_id,
        )
    }
}

/// The chunks of a document, from its nodes.
pub open spec fn chunks_of(
    nodes: Seq<NodeView>,
    definition: JsonView,
    document_id: Seq<char>,
) -> Seq<ChunkView> {
    flushed(state_after(nodes, definition, document_id), document_id).done
}

/// Cuts the nodes of one document into chunks, one node at a time.
pub struct Chunker {
    context: HeaderContext,
    accumulator: ChunkAccumulator,
    chunks: Vec<ChunkPayload>,
    document_id: String,
}

impl View for Chunker {
    type V = ChunkState;

    closed spec fn view(&self) -> ChunkState {
        ChunkState {
            context: self.context@,
            nodes: node_views(self.accumulator.nodes@),
            tokens: self.accumulator.current_tokens as nat,
            seed: self.accumulator.seed(),
            done: chunk_views(self.chunks@),
        }
    }
}

impl Chunker {
    /// The document that the chunks belong to.
    pub closed spec fn document(&self) -> Seq<char> {
        self.document_id@
    }

    /// The contexts are well formed, and an empty chunk has neither tokens nor a context.
    pub closed spec fn wf(&self) -> bool {
        &&& self.context.wf()
        &&& self.accumulator.wf()
        &&& self.accumulator.nodes@.len() == 0 ==> self.accumulator.current_tokens == 0
            && self.accumulator.injected_context is None
    }

    /// Starts on a document.
    pub fn new(document_id: &str) -> (r: Chunker)
        ensures
            r.wf(),
            r@ == initial_state(),
            r.document() == document_id@,
    {
        let r: Chunker = Chunker {
            context: HeaderContext::new(),
            accumulator: ChunkAccumulator::new(),
            chunks: Vec::new(),
            document_id: document_id.to_owned(),
        };
        assert(r@ =~= initial_state());
        r
    }

    /// The current context as the one line whose tokens are counted.
    pub fn context_text(&self) -> (r: String)
        ensures
            r@ == context_line(self@.context),
    {
        self.context.to_string_for_tokens()
    }

    /// Makes a chunk of the nodes taken up so far, if there are any.
    fn emit(&mut self)
        requires
            old(self).wf(),
        ensures
            final(self).wf(),
            final(self)@ == flushed(old(self)@, old(self).document()),
            final(self).document() == old(self).document(),
    {
        if self.accumulator.is_empty() {
            return;
        }
        let ghost before = self@;
        let parent_hierarchy: Vec<String> = match &self.accumulator.injected_context {
            Some(context) => context.to_list(),
            None => HeaderContext::new().to_list(),
        };
        let chunk: ChunkPayload = ChunkPayload {
            chunk_id: self.chunks.len(),
            text: self.accumulator.compile_to_markdown(),
            parent_hierarchy,
            root_document: self.document_id.clone(),
            token_count: self.accumulator.current_tokens,
            source_pages: self.accumulator.source_pages(),
        };
        assert(chunk@ =~= pending_chunk(before, self.document()));
        self.chunks.push(chunk);
        assert(chunk_views(self.chunks@) =~= before.done.push(chunk@));
        self.accumulator.clear();
        assert(self@ =~= flushed(before, self.document()));
    }

    /// Takes up one more node, whose text has `node_tokens` tokens while the current context has
    /// `context_tokens`.
    pub fn push(&mut self, node: MdNode, node_tokens: usize, context_tokens: usize)
        requires
            old(self).wf(),
        ensures
            final(self).wf(),
            final(self).document() == old(self).document(),
            final(self)@ == next_state(
                old(self)@,
                node@,
                node_tokens as nat,
                context_tokens as nat,
                old(self).document(),
            ),
    {
        let ghost before = self@;
        match node.node_type {
            NodeType::Header(level) => {
                if !self.context.holds(level, &node.text) {
                    self.emit();
                    self.context.update_at_depth(level, &node.text);
                }
                assert(self@ =~= next_state(
                    before,
                    node@,
                    node_tokens as nat,
                    context_tokens as nat,
                    self.document(),
                ));
            },
            _ => {
                let ghost shown = node@;
                let needed: u128 = self.accumulator.current_tokens as u128 + node_tokens as u128
                    + context_tokens as u128;
                if !self.accumulator.is_empty() && needed > T_MAX_TOKENS as u128 {
                    self.emit();
                }
                self.accumulator.add_node(node, node_tokens);
                assert(self.accumulator.nodes@.len() == node_views(self.accumulator.nodes@).len());
                if self.accumulator.injected_context.is_none() {
                    self.accumulator.inject_context(&self.context);
                }
                assert(self@ =~= next_state(
                    before,
                    shown,
                    node_tokens as nat,
                    context_tokens as nat,
                    self.document(),
                ));
            },
        }
    }

    /// Ends the document and gives its chunks.
    pub fn finish(self) -> (r: Vec<ChunkPayload>)
        requires
            self.wf(),
        ensures
            chunk_views(r@) == flushed(self@, self.document()).done,
    {
        let mut last: Chunker = self;
        last.emit();
        last.chunks
    }
}

/// Cuts the rendered pages of a document into chunks.
pub fn chunk_document(
    markdown_by_page: &[(usize, String)],
    document_id: &str,
    counter: &TokenCounter,
) -> (r: Vec<ChunkPayload>)
    ensures
        chunk_views(r@) == chunks_of(
            document_nodes(page_views(markdown_by_page@)),
            counter.definition(),
            document_id@,
        ),
{
    let nodes: Vec<MdNode> = classify_and_group(markdown_by_page);
    let ghost all = node_views(nodes@);
    let mut chunker: Chunker = Chunker::new(document_id);
    let mut done: usize = 0;
    assert(all.take(0) =~= Seq::<NodeView>::empty());
    while done < nodes.len()
        invariant
            done <= nodes@.len(),
            all == node_views(nodes@),
            chunker.wf(),
            chunker.document() == document_id@,
            chunker@ == state_after(all.take(done as int), counter.definition(), document_id@),
        decreases nodes@.len() - done,
    {
        let node: MdNode = MdNode {
            node_type: nodes[done].node_type,
            text: nodes[done].text.clone(),
            page_num: nodes[done].page_num,
        };
        assert(node@ == all[done as int]);
        assert(all.take(done + 1).drop_last() =~= all.take(done as int));
        let node_tokens: usize = get_exact_token_count(counter, node.text.as_str());
        let context: String = chunker.context_text();
        let context_tokens: usize = get_exact_token_count(counter, context.as_str());
        chunker.push(node, node_tokens, context_tokens);
        done = done + 1;
    }
    assert(all.take(done as int) =~= all);
    chunker.finish()
}

/// The nodes that are no headers.
pub open spec fn body_nodes(nodes: Seq<NodeView>) -> Seq<NodeView>
    decreases nodes.len(),
{
    if nodes.len() == 0 {
        Seq::empty()
    } else {
        match nodes.last().node_type {
            NodeType::Header(_) => body_nodes(nodes.drop_last()),
            _ => body_nodes(nodes.drop_last()).push(nodes.last()),
        }
    }
}

/// The texts of the chunks.
pub open spec fn chunk_texts(chunks: Seq<ChunkView>) -> Seq<Seq<char>> {
    Seq::new(chunks.len(), |i: int| chunks[i].text)
}

/// What holds at every place in a document: a chunk in the making stands under the context that
/// it started under, an empty one has no tokens, and one beyond the budget is a single node.
pub open spec fn state_holds(state: ChunkState, nodes: Seq<NodeView>, definition: JsonView) -> bool {
    &&& state.context.len() == MAX_HEADER_DEPTH
    &&& state.nodes.len() > 0 ==> state.seed == Some(state.context)
    &&& state.nodes.len() == 0 ==> state.tokens == 0 && state.seed is None
    &&& state.tokens <= T_MAX_TOKENS || (state.nodes.len() == 1 && state.tokens == token_count(
        definition,
        state.nodes[0].text,
    ))
    &&& forall|k: int| 0 <= k < state.nodes.len() ==> body_nodes(nodes).contains(#[trigger] state.nodes[k])
}

/// What holds of every chunk: its place in the document gives its number, it belongs to the
/// document, and it keeps to the budget or is a single node.
pub open spec fn chunk_holds(
    chunk: ChunkView,
    index: int,
    nodes: Seq<NodeView>,
    definition: JsonView,
    document_id: Seq<char>,
) -> bool {
    &&& chunk.chunk_id == index
    &&& chunk.root_document == document_id
    &&& chunk.token_count <= T_MAX_TOKENS || exists|node: NodeView| #[trigger]
        body_nodes(nodes).contains(node) && chunk.text == node.text && chunk.token_count
            == token_count(definition, node.text)
}

proof fn lemma_body_grows(nodes: Seq<NodeView>, node: NodeView)
    requires
        nodes.len() > 0,
        body_nodes(nodes.drop_last()).contains(node),
    ensures
        body_nodes(nodes).contains(node),
{
    let front = body_nodes(nodes.drop_last());
    let k = choose|k: int| 0 <= k < front.len() && front[k] == node;
    assert(body_nodes(nodes)[k] == node);
}

proof fn lemma_flush_holds(
    state: ChunkState,
    nodes: Seq<NodeView>,
    definition: JsonView,
    document_id: Seq<char>,
)
    requires
        state_holds(state, nodes, definition),
        forall|i: int|
            0 <= i < state.done.len() ==> chunk_holds(
                #[trigger] state.done[i],
                i,
                nodes,
                definition,
                document_id,
            ),
    ensures
        state_holds(flushed(state, document_id), nodes, definition),
        forall|i: int|
            0 <= i < flushed(state, document_id).done.len() ==> chunk_holds(
                #[trigger] flushed(state, document_id).done[i],
                i,
                nodes,
                definition,
                document_id,
            ),
{
    let after = flushed(state, document_id);
    assert forall|i: int| 0 <= i < after.done.len() implies chunk_holds(
        #[trigger] after.done[i],
        i,
        nodes,
        definition,
        document_id,
    ) by {
        if i < state.done.len() {
            assert(after.done[i] == state.done[i]);
        } else {
            let chunk = pending_chunk(state, document_id);
            assert(after.done[i] == chunk);
            if state.tokens > T_MAX_TOKENS {
                let node = state.nodes[0];
                assert(node_texts(state.nodes)[0] == node.text);
                assert(body_nodes(nodes).contains(node) && chunk.text == node.text
                    && chunk.token_count == token_count(definition, node.text));
            }
        }
    }
}

proof fn lemma_state_holds(nodes: Seq<NodeView>, definition: JsonView, document_id: Seq<char>)
    ensures
        state_holds(state_after(nodes, definition, document_id), nodes, definition),
        forall|i: int|
            0 <= i < state_after(nodes, definition, document_id).done.len() ==> chunk_holds(
                #[trigger] state_after(nodes, definition, document_id).done[i],
                i,
                nodes,
                definition,
                document_id,
            ),
    decreases nodes.len(),
{
    if nodes.len() > 0 {
        let front = nodes.drop_last();
        let node = nodes.last();
        let before = state_after(front, definition, document_id);
        lemma_state_holds(front, definition, document_id);
        assert forall|k: int| 0 <= k < before.nodes.len() implies body_nodes(nodes).contains(
            #[trigger] before.nodes[k],
        ) by {
            lemma_body_grows(nodes, before.nodes[k]);
        }
        assert forall|i: int| 0 <= i < before.done.len() implies chunk_holds(
            #[trigger] before.done[i],
            i,
            nodes,
            definition,
            document_id,
        ) by {
            let chunk = before.done[i];
            assert(chunk_holds(chunk, i, front, definition, document_id));
            if chunk.token_count > T_MAX_TOKENS {
                let n = choose|n: NodeView| #[trigger]
                    body_nodes(front).contains(n) && chunk.text == n.text && chunk.token_count
                        == token_count(definition, n.text);
                lemma_body_grows(nodes, n);
            }
        }
        lemma_flush_holds(before, nodes, definition, document_id);
        let after = state_after(nodes, definition, document_id);
        match node.node_type {
            NodeType::Header(_) => {},
            _ => {
                assert(body_nodes(nodes).last() == node);
                assert(body_nodes(nodes).contains(node));
                assert forall|k: int| 0 <= k < after.nodes.len() implies body_nodes(nodes).contains(
                    #[trigger] after.nodes[k],
                ) by {
                    if k < before.nodes.len() && after.nodes.len() > 1 {
                        assert(after.nodes[k] == before.nodes[k]);
                    }
                }
            },
        }
    }
}

/// At every place in a document the chunk in the making stands under the headers that it started
/// under: a header that changes the context ends the chunk first.
pub proof fn law_chunk_keeps_its_context(
    nodes: Seq<NodeView>,
    definition: JsonView,
    document_id: Seq<char>,
)
    ensures
        state_after(nodes, definition, document_id).nodes.len() > 0 ==> state_after(
            nodes,
            definition,
            document_id,
        ).seed == Some(state_after(nodes, definition, document_id).context),
{
    lemma_state_holds(nodes, definition, document_id);
}

/// The chunks are numbered from 0 in order, belong to the document, and hold at most the token
/// budget each, except for a chunk that is a single node.
pub proof fn law_chunks_keep_to_budget(
    nodes: Seq<NodeView>,
    definition: JsonView,
    document_id: Seq<char>,
)
    ensures
        forall|i: int|
            0 <= i < chunks_of(nodes, definition, document_id).len() ==> chunk_holds(
                #[trigger] chunks_of(nodes, definition, document_id)[i],
                i,
                nodes,
                definition,
                document_id,
            ),
{
    lemma_state_holds(nodes, definition, document_id);
    lemma_flush_holds(state_after(nodes, definition, document_id), nodes, definition, document_id);
}

/// A header that repeats the one in its slot changes nothing, whatever was taken up before it.
pub proof fn law_repeated_header_changes_nothing(
    state: ChunkState,
    node: NodeView,
    level: usize,
    node_tokens: nat,
    context_tokens: nat,
    document_id: Seq<char>,
)
    requires
        node.node_type == NodeType::Header(level),
        state.context[slot_of(level)] == Some(node.text),
    ensures
        next_state(state, node, node_tokens, context_tokens, document_id) == state,
{
}

/// Entering a header forgets every deeper header and keeps every one above it.
pub proof fn law_header_resets_deeper_levels(
    context: Seq<Option<Seq<char>>>,
    level: usize,
    text: Seq<char>,
)
    requires
        context.len() == MAX_HEADER_DEPTH,
    ensures
        context_after(context, level, text)[slot_of(level)] == Some(text),
        forall|i: int|
            slot_of(level) < i < MAX_HEADER_DEPTH ==> #[trigger] context_after(
                context,
                level,
                text,
            )[i] is None,
        forall|i: int|
            0 <= i < slot_of(level) ==> #[trigger] context_after(context, level, text)[i]
                == context[i],
{
}

proof fn lemma_joined_push(parts: Seq<Seq<char>>, part: Seq<char>, sep: Seq<char>)
    ensures
        joined(parts.push(part), sep) == if parts.len() == 0 {
            part
        } else {
            joined(parts, sep) + sep + part
        },
{
    assert(parts.push(part).drop_last() =~= parts);
}

proof fn lemma_state_text(nodes: Seq<NodeView>, definition: JsonView, document_id: Seq<char>)
    ensures
        ({
            let state = state_after(nodes, definition, document_id);
            let body = body_nodes(nodes);
            &&& joined(chunk_texts(flushed(state, document_id).done), "\n\n"@) == joined(
                node_texts(body),
                "\n\n"@,
            )
            &&& (flushed(state, document_id).done.len() == 0) == (body.len() == 0)
        }),
    decreases nodes.len(),
{
    let sep = "\n\n"@;
    if nodes.len() == 0 {
        let state = state_after(nodes, definition, document_id);
        assert(chunk_texts(flushed(state, document_id).done) =~= Seq::<Seq<char>>::empty());
        assert(node_texts(body_nodes(nodes)) =~= Seq::<Seq<char>>::empty());
    } else {
        let front = nodes.drop_last();
        let node = nodes.last();
        let before = state_after(front, definition, document_id);
        let after = state_after(nodes, definition, document_id);
        let old_body = body_nodes(front);
        lemma_state_text(front, definition, document_id);
        match node.node_type {
            NodeType::Header(_) => {
                assert(flushed(after, document_id).done == flushed(before, document_id).done);
            },
            _ => {
                let body = body_nodes(nodes);
                assert(node_texts(body) =~= node_texts(old_body).push(node.text));
                lemma_joined_push(node_texts(old_body), node.text, sep);
                let done = chunk_texts(before.done);
                let end = flushed(after, document_id).done;
                if before.nodes.len() == 0 {
                    assert(node_texts(after.nodes) =~= seq![node.text]);
                    assert(end == before.done.push(pending_chunk(after, document_id)));
                    assert(chunk_texts(end) =~= done.push(node.text));
                    lemma_joined_push(done, node.text, sep);
                } else {
                    let held = node_texts(before.nodes);
                    let whole = joined(held, sep);
                    assert(chunk_texts(flushed(before, document_id).done) =~= done.push(whole));
                    lemma_joined_push(done, whole, sep);
                    if after.done == before.done {
                        assert(after.nodes == before.nodes.push(node));
                        assert(node_texts(after.nodes) =~= held.push(node.text));
                        lemma_joined_push(held, node.text, sep);
                        let longer = whole + sep + node.text;
                        assert(chunk_texts(end) =~= done.push(longer));
                        lemma_joined_push(done, longer, sep);
                        if done.len() > 0 {
                            assert(joined(done, sep) + sep + longer =~= (joined(done, sep) + sep
                                + whole) + sep + node.text);
                        }
                    } else {
                        assert(after.done == flushed(before, document_id).done);
                        assert(node_texts(after.nodes) =~= seq![node.text]);
                        assert(chunk_texts(end) =~= done.push(whole).push(node.text));
                        lemma_joined_push(done.push(whole), node.text, sep);
                    }
                }
            },
        }
    }
}

/// Nothing is lost, doubled or reordered: the texts of the chunks, put together, are the texts of
/// the paragraphs, tables and lists, put together; and a document with any of these has a chunk.
pub proof fn law_chunks_hold_whole_body(
    nodes: Seq<NodeView>,
    definition: JsonView,
    document_id: Seq<char>,
)
    ensures
        joined(chunk_texts(chunks_of(nodes, definition, document_id)), "\n\n"@) == joined(
            node_texts(body_nodes(nodes)),
            "\n\n"@,
        ),
        (chunks_of(nodes, definition, document_id).len() == 0) == (body_nodes(nodes).len() == 0),
{
    lemma_state_text(nodes, definition, document_id);
}

proof fn lemma_insert_page(pages: Seq<usize>, page: usize)
    requires
        forall|i: int, j: int| 0 <= i < j < pages.len() ==> pages[i] < pages[j],
    ensures
        forall|i: int, j: int|
            0 <= i < j < insert_page(pages, page).len() ==> insert_page(pages, page)[i]
                < insert_page(pages, page)[j],
        forall|p: usize|
            #[trigger] insert_page(pages, page).contains(p) <==> (p == page || pages.contains(p)),
    decreases pages.len(),
{
    let r = insert_page(pages, page);
    if pages.len() == 0 || pages.last() < page {
        assert(r[pages.len() as int] == page);
        assert forall|p: usize| #[trigger] r.contains(p) <==> (p == page || pages.contains(p)) by {
            if pages.contains(p) {
                let k = choose|k: int| 0 <= k < pages.len() && pages[k] == p;
                assert(r[k] == p);
            }
            if r.contains(p) && p != page {
                let k = choose|k: int| 0 <= k < r.len() && r[k] == p;
                assert(pages[k] == p);
            }
        }
    } else if pages.last() == page {
        assert(pages[pages.len() - 1] == page);
    } else {
        let front = pages.drop_last();
        let s = insert_page(front, page);
        lemma_insert_page(front, page);
        assert(r == s.push(pages.last()));
        assert forall|i: int| 0 <= i < s.len() implies s[i] < pages.last() by {
            assert(s.contains(s[i]));
            if s[i] != page {
                let k = choose|k: int| 0 <= k < front.len() && front[k] == s[i];
                assert(pages[k] < pages[pages.len() - 1]);
            }
        }
        assert forall|p: usize| #[trigger] r.contains(p) <==> (p == page || pages.contains(p)) by {
            if r.contains(p) {
                let k = choose|k: int| 0 <= k < r.len() && r[k] == p;
                if k < s.len() {
                    assert(s[k] == p);
                    assert(s.contains(p));
                    if p != page {
                        let m = choose|m: int| 0 <= m < front.len() && front[m] == p;
                        assert(pages[m] == p);
                    }
                } else {
                    assert(pages[pages.len() - 1] == p);
                }
            }
            if p == page {
                assert(s.contains(p));
                let k = choose|k: int| 0 <= k < s.len() && s[k] == p;
                assert(r[k] == p);
            }
            if pages.contains(p) {
                let k = choose|k: int| 0 <= k < pages.len() && pages[k] == p;
                if k < front.len() {
                    assert(front[k] == p);
                    assert(s.contains(p));
                    let m = choose|m: int| 0 <= m < s.len() && s[m] == p;
                    assert(r[m] == p);
                } else {
                    assert(r[s.len() as int] == p);
                }
            }
        }
    }
}

/// The source pages of a chunk are strictly ascending, and are the pages of its nodes, no other.
pub proof fn law_source_pages(nodes: Seq<NodeView>)
    ensures
        forall|i: int, j: int|
            0 <= i < j < node_pages(nodes).len() ==> node_pages(nodes)[i] < node_pages(nodes)[j],
        forall|p: usize| #[trigger]
            node_pages(nodes).contains(p) <==> exists|k: int|
                0 <= k < nodes.len() && (#[trigger] nodes[k]).page_num == p,
    decreases nodes.len(),
{
    if nodes.len() > 0 {
        let front = nodes.drop_last();
        law_source_pages(front);
        lemma_insert_page(node_pages(front), nodes.last().page_num);
        assert forall|p: usize| #[trigger] node_pages(nodes).contains(p) <==> exists|k: int|
            0 <= k < nodes.len() && (#[trigger] nodes[k]).page_num == p by {
            if node_pages(nodes).contains(p) {
                if p == nodes.last().page_num {
                    assert(nodes[nodes.len() - 1].page_num == p);
                } else {
                    let k = choose|k: int| 0 <= k < front.len() && (#[trigger] front[k]).page_num == p;
                    assert(nodes[k].page_num == p);
                }
            }
            if exists|k: int| 0 <= k < nodes.len() && (#[trigger] nodes[k]).page_num == p {
                let k = choose|k: int| 0 <= k < nodes.len() && (#[trigger] nodes[k]).page_num == p;
                if k < front.len() {
                    assert(front[k].page_num == p);
                    assert(node_pages(front).contains(p));
                }
            }
        }
    }
}

/// The paragraphs, tables and lists of a document, each with the context that it stands under.
pub open spec fn filed_body(
    nodes: Seq<NodeView>,
    definition: JsonView,
    document_id: Seq<char>,
) -> Seq<(NodeView, Seq<Option<Seq<char>>>)>
    decreases nodes.len(),
{
    if nodes.len() == 0 {
        Seq::empty()
    } else {
        let front = filed_body(nodes.drop_last(), definition, document_id);
        match nodes.last().node_type {
            NodeType::Header(_) => front,
            _ => front.push(
                (
                    nodes.last(),
                    state_after(nodes.drop_last(), definition, document_id).context,
                ),
            ),
        }
    }
}

/// Nodes that stand under one context.
pub open spec fn filed_under(nodes: Seq<NodeView>, context: Seq<Option<Seq<char>>>) -> Seq<
    (NodeView, Seq<Option<Seq<char>>>),
> {
    Seq::new(nodes.len(), |k: int| (nodes[k], context))
}

/// The nodes of each chunk that is finished before the nodes end.
pub open spec fn finished_groups(
    nodes: Seq<NodeView>,
    definition: JsonView,
    document_id: Seq<char>,
) -> Seq<Seq<(NodeView, Seq<Option<Seq<char>>>)>>
    decreases nodes.len(),
{
    if nodes.len() == 0 {
        Seq::empty()
    } else {
        let front = finished_groups(nodes.drop_last(), definition, document_id);
        let before = state_after(nodes.drop_last(), definition, document_id);
        if state_after(nodes, definition, document_id).done.len() > before.done.len() {
            front.push(filed_under(before.nodes, before.context))
        } else {
            front
        }
    }
}

/// The nodes of each chunk.
pub open spec fn chunk_groups(
    nodes: Seq<NodeView>,
    definition: JsonView,
    document_id: Seq<char>,
) -> Seq<Seq<(NodeView, Seq<Option<Seq<char>>>)>> {
    let state = state_after(nodes, definition, document_id);
    let front = finished_groups(nodes, definition, document_id);
    if state.nodes.len() > 0 {
        front.push(filed_under(state.nodes, state.context))
    } else {
        front
    }
}

/// The nodes without their contexts.
pub open spec fn unfiled(group: Seq<(NodeView, Seq<Option<Seq<char>>>)>) -> Seq<NodeView> {
    Seq::new(group.len(), |k: int| group[k].0)
}

/// How many tokens some nodes hold, each counted by itself.
pub open spec fn tokens_of(nodes: Seq<NodeView>, definition: JsonView) -> nat
    decreases nodes.len(),
{
    if nodes.len() == 0 {
        0
    } else {
        tokens_of(nodes.drop_last(), definition) + token_count(definition, nodes.last().text)
    }
}

/// Whether a chunk is made of a group of nodes: it holds their texts, counts their tokens and
/// lists their pages, it is filed under the headers that every one of them stands under, and it
/// keeps to the budget, these headers included, or is a single node.
pub open spec fn is_chunk_of(
    chunk: ChunkView,
    group: Seq<(NodeView, Seq<Option<Seq<char>>>)>,
    definition: JsonView,
) -> bool {
    &&& group.len() > 0
    &&& chunk.text == joined(node_texts(unfiled(group)), "\n\n"@)
    &&& chunk.token_count == tokens_of(unfiled(group), definition)
    &&& chunk.source_pages == node_pages(unfiled(group))
    &&& forall|k: int|
        0 <= k < group.len() ==> chunk.parent_hierarchy == context_list((#[trigger] group[k]).1)
    &&& group.len() == 1 || chunk.token_count + token_count(
        definition,
        joined(chunk.parent_hierarchy, " > "@),
    ) <= 512
}

/// What holds of the chunk in the making: it counts the tokens of its nodes, and keeps to the
/// budget or is a single node.
spec fn pending_holds(state: ChunkState, definition: JsonView) -> bool {
    &&& state.tokens == tokens_of(state.nodes, definition)
    &&& state.nodes.len() > 0 ==> state.seed == Some(state.context)
    &&& state.nodes.len() == 0 ==> state.seed is None
    &&& state.nodes.len() <= 1 || state.tokens + token_count(
        definition,
        context_line(state.context),
    ) <= T_MAX_TOKENS
}

proof fn lemma_pending_chunk(state: ChunkState, definition: JsonView, document_id: Seq<char>)
    requires
        pending_holds(state, definition),
        state.nodes.len() > 0,
    ensures
        is_chunk_of(
            pending_chunk(state, document_id),
            filed_under(state.nodes, state.context),
            definition,
        ),
{
    assert(unfiled(filed_under(state.nodes, state.context)) =~= state.nodes);
}

proof fn lemma_groups(nodes: Seq<NodeView>, definition: JsonView, document_id: Seq<char>)
    ensures
        ({
            let state = state_after(nodes, definition, document_id);
            let groups = finished_groups(nodes, definition, document_id);
            &&& pending_holds(state, definition)
            &&& groups.len() == state.done.len()
            &&& forall|i: int|
                0 <= i < groups.len() ==> is_chunk_of(state.done[i], #[trigger] groups[i], definition)
            &&& concatenated(groups) + filed_under(state.nodes, state.context) == filed_body(
                nodes,
                definition,
                document_id,
            )
        }),
    decreases nodes.len(),
{
    let state = state_after(nodes, definition, document_id);
    let groups = finished_groups(nodes, definition, document_id);
    if nodes.len() == 0 {
        assert(concatenated(groups) + filed_under(state.nodes, state.context) =~= filed_body(
            nodes,
            definition,
            document_id,
        ));
    } else {
        let front = nodes.drop_last();
        let node = nodes.last();
        let before = state_after(front, definition, document_id);
        let old_groups = finished_groups(front, definition, document_id);
        lemma_groups(front, definition, document_id);
        let held = filed_under(before.nodes, before.context);
        let old_body = filed_body(front, definition, document_id);
        let body = filed_body(nodes, definition, document_id);
        if before.nodes.len() > 0 {
            lemma_pending_chunk(before, definition, document_id);
        }
        if state.done.len() > before.done.len() {
            assert(groups == old_groups.push(held));
            assert(groups.drop_last() =~= old_groups);
            assert(concatenated(groups) == concatenated(old_groups) + held);
            assert forall|i: int| 0 <= i < groups.len() implies is_chunk_of(
                state.done[i],
                #[trigger] groups[i],
                definition,
            ) by {
                if i < old_groups.len() {
                    assert(groups[i] == old_groups[i]);
                    assert(state.done[i] == before.done[i]);
                }
            }
            match node.node_type {
                NodeType::Header(_) => {
                    assert(filed_under(state.nodes, state.context) =~= Seq::empty());
                    assert(concatenated(groups) + filed_under(state.nodes, state.context)
                        =~= body);
                },
                _ => {
                    assert(state.nodes =~= seq![node]);
                    assert(state.nodes.drop_last() =~= Seq::<NodeView>::empty());
                    assert(tokens_of(state.nodes.drop_last(), definition) == 0);
                    assert(filed_under(state.nodes, state.context) =~= seq![
                        (node, before.context),
                    ]);
                    assert(concatenated(groups) + filed_under(state.nodes, state.context)
                        =~= old_body.push((node, before.context)));
                },
            }
        } else {
            assert(groups == old_groups);
            match node.node_type {
                NodeType::Header(_) => {
                    if before.nodes.len() == 0 {
                        assert(held =~= Seq::empty());
                        assert(filed_under(state.nodes, state.context) =~= Seq::empty());
                    }
                    assert(concatenated(groups) + filed_under(state.nodes, state.context)
                        =~= body);
                },
                _ => {
                    assert(state.nodes == before.nodes.push(node));
                    assert(state.nodes.drop_last() =~= before.nodes);
                    assert(filed_under(state.nodes, state.context) =~= held.push(
                        (node, before.context),
                    ));
                    assert(concatenated(groups) + filed_under(state.nodes, state.context)
                        =~= old_body.push((node, before.context)));
                },
            }
        }
    }
}

/// The chunks part the body of a document among them: every paragraph, table and list goes, in
/// order, into one chunk, and each chunk is made of the nodes that went into it.
pub proof fn law_chunks_part_the_body(
    nodes: Seq<NodeView>,
    definition: JsonView,
    document_id: Seq<char>,
)
    ensures
        ({
            let chunks = chunks_of(nodes, definition, document_id);
            let groups = chunk_groups(nodes, definition, document_id);
            &&& groups.len() == chunks.len()
            &&& concatenated(groups) == filed_body(nodes, definition, document_id)
            &&& forall|i: int|
                0 <= i < groups.len() ==> is_chunk_of(chunks[i], #[trigger] groups[i], definition)
        }),
{
    let state = state_after(nodes, definition, document_id);
    let front = finished_groups(nodes, definition, document_id);
    let groups = chunk_groups(nodes, definition, document_id);
    let chunks = chunks_of(nodes, definition, document_id);
    let held = filed_under(state.nodes, state.context);
    lemma_groups(nodes, definition, document_id);
    if state.nodes.len() > 0 {
        lemma_pending_chunk(state, definition, document_id);
        assert(groups.drop_last() =~= front);
        assert forall|i: int| 0 <= i < groups.len() implies is_chunk_of(
            chunks[i],
            #[trigger] groups[i],
            definition,
        ) by {
            if i < front.len() {
                assert(groups[i] == front[i]);
                assert(chunks[i] == state.done[i]);
            }
        }
    } else {
        assert(held =~= Seq::empty());
        assert(concatenated(front) + held =~= concatenated(front));
    }
}

/// Whether a node is a header that changes the context.
pub open spec fn changes_context(state: ChunkState, node: NodeView) -> bool {
    node.node_type matches NodeType::Header(level) && state.context[slot_of(level)] != Some(
        node.text,
    )
}

/// The section that a document is in after some nodes: how many headers have changed the context.
pub open spec fn section_after(
    nodes: Seq<NodeView>,
    definition: JsonView,
    document_id: Seq<char>,
) -> nat
    decreases nodes.len(),
{
    if nodes.len() == 0 {
        0
    } else {
        let before = state_after(nodes.drop_last(), definition, document_id);
        section_after(nodes.drop_last(), definition, document_id) + if changes_context(
            before,
            nodes.last(),
        ) {
            1nat
        } else {
            0
        }
    }
}

/// The section of each chunk that is finished before the nodes end.
pub open spec fn finished_sections(
    nodes: Seq<NodeView>,
    definition: JsonView,
    document_id: Seq<char>,
) -> Seq<nat>
    decreases nodes.len(),
{
    if nodes.len() == 0 {
        Seq::empty()
    } else {
        let front = finished_sections(nodes.drop_last(), definition, document_id);
        let before = state_after(nodes.drop_last(), definition, document_id);
        if state_after(nodes, definition, document_id).done.len() > before.done.len() {
            front.push(section_after(nodes.drop_last(), definition, document_id))
        } else {
            front
        }
    }
}

/// The section of each chunk.
pub open spec fn chunk_sections(
    nodes: Seq<NodeView>,
    definition: JsonView,
    document_id: Seq<char>,
) -> Seq<nat> {
    let front = finished_sections(nodes, definition, document_id);
    if state_after(nodes, definition, document_id).nodes.len() > 0 {
        front.push(section_after(nodes, definition, document_id))
    } else {
        front
    }
}

/// Whether the first node of a group would not have fit into the group before it.
pub open spec fn would_not_fit(
    group: Seq<(NodeView, Seq<Option<Seq<char>>>)>,
    next: Seq<(NodeView, Seq<Option<Seq<char>>>)>,
    definition: JsonView,
) -> bool {
    tokens_of(unfiled(group), definition) + token_count(definition, next[0].0.text) + token_count(
        definition,
        joined(context_list(group[0].1), " > "@),
    ) > 512
}

/// What holds of the sections of the groups so far.
spec fn sections_hold(
    groups: Seq<Seq<(NodeView, Seq<Option<Seq<char>>>)>>,
    sections: Seq<nat>,
    definition: JsonView,
) -> bool {
    &&& groups.len() == sections.len()
    &&& forall|i: int|
        0 <= i < groups.len() - 1 && sections[i] == sections[i + 1] ==> would_not_fit(
            #[trigger] groups[i],
            groups[i + 1],
            definition,
        )
}

proof fn lemma_one_more_group(
    groups: Seq<Seq<(NodeView, Seq<Option<Seq<char>>>)>>,
    sections: Seq<nat>,
    group: Seq<(NodeView, Seq<Option<Seq<char>>>)>,
    section: nat,
    definition: JsonView,
)
    requires
        sections_hold(groups, sections, definition),
        groups.len() > 0 && sections.last() == section ==> would_not_fit(
            groups.last(),
            group,
            definition,
        ),
    ensures
        sections_hold(groups.push(group), sections.push(section), definition),
{
    let gs = groups.push(group);
    let ss = sections.push(section);
    assert forall|i: int| 0 <= i < gs.len() - 1 && ss[i] == ss[i + 1] implies would_not_fit(
        #[trigger] gs[i],
        gs[i + 1],
        definition,
    ) by {
        assert(gs[i] == groups[i]);
        if i < groups.len() - 1 {
            assert(gs[i + 1] == groups[i + 1]);
            assert(ss[i] == sections[i] && ss[i + 1] == sections[i + 1]);
        } else {
            assert(groups[i] == groups.last() && sections[i] == sections.last());
        }
    }
}

proof fn lemma_sections(nodes: Seq<NodeView>, definition: JsonView, document_id: Seq<char>)
    ensures
        ({
            let state = state_after(nodes, definition, document_id);
            let groups = finished_groups(nodes, definition, document_id);
            let sections = finished_sections(nodes, definition, document_id);
            let section = section_after(nodes, definition, document_id);
            &&& sections_hold(groups, sections, definition)
            &&& groups.len() > 0 ==> sections.last() <= section
            &&& groups.len() > 0 && state.nodes.len() == 0 ==> sections.last() < section
            &&& groups.len() > 0 && state.nodes.len() > 0 && sections.last() == section
                ==> would_not_fit(
                groups.last(),
                filed_under(state.nodes, state.context),
                definition,
            )
        }),
    decreases nodes.len(),
{
    if nodes.len() > 0 {
        let front = nodes.drop_last();
        let node = nodes.last();
        let before = state_after(front, definition, document_id);
        let after = state_after(nodes, definition, document_id);
        let held = filed_under(before.nodes, before.context);
        let groups = finished_groups(front, definition, document_id);
        let sections = finished_sections(front, definition, document_id);
        let section = section_after(front, definition, document_id);
        let pending = filed_under(after.nodes, after.context);
        lemma_sections(front, definition, document_id);
        lemma_groups(front, definition, document_id);
        if after.done.len() > before.done.len() {
            lemma_one_more_group(groups, sections, held, section, definition);
            if !(node.node_type is Header) {
                assert(after.nodes =~= seq![node]);
                assert(pending[0].0 == node);
                assert(unfiled(held) =~= before.nodes);
                assert(held[0].1 == before.context);
                assert(would_not_fit(held, pending, definition));
            }
        } else if !(node.node_type is Header) {
            assert(after.nodes == before.nodes.push(node));
            if before.nodes.len() > 0 {
                assert(pending[0].0 == before.nodes[0]);
                assert(held[0].0 == before.nodes[0]);
            }
        }
    }
}

/// Within a section a chunk is closed only where the next node would not fit: of two chunks of one
/// section, one after the other, the first has no room for the first node of the second.
pub proof fn law_chunks_are_filled(
    nodes: Seq<NodeView>,
    definition: JsonView,
    document_id: Seq<char>,
)
    ensures
        ({
            let groups = chunk_groups(nodes, definition, document_id);
            let sections = chunk_sections(nodes, definition, document_id);
            &&& sections.len() == chunks_of(nodes, definition, document_id).len()
            &&& sections.len() == groups.len()
            &&& forall|i: int|
                0 <= i < groups.len() - 1 && sections[i] == sections[i + 1] ==> would_not_fit(
                    #[trigger] groups[i],
                    groups[i + 1],
                    definition,
                )
        }),
{
    let state = state_after(nodes, definition, document_id);
    lemma_sections(nodes, definition, document_id);
    law_chunks_part_the_body(nodes, definition, document_id);
    if state.nodes.len() > 0 {
        lemma_one_more_group(
            finished_groups(nodes, definition, document_id),
            finished_sections(nodes, definition, document_id),
            filed_under(state.nodes, state.context),
            section_after(nodes, definition, document_id),
            definition,
        );
    }
}

/// The headers among some nodes.
pub open spec fn header_nodes(nodes: Seq<NodeView>) -> Seq<NodeView>
    decreases nodes.len(),
{
    if nodes.len() == 0 {
        Seq::empty()
    } else {
        match nodes.last().node_type {
            NodeType::Header(_) => header_nodes(nodes.drop_last()).push(nodes.last()),
            _ => header_nodes(nodes.drop_last()),
        }
    }
}

/// How many characters of a chunk have the property `p`.
pub open spec fn chunk_weight(p: spec_fn(char) -> bool) -> spec_fn(ChunkView) -> nat {
    |chunk: ChunkView| count_where(chunk.text, p)
}

proof fn lemma_headers_and_body(nodes: Seq<NodeView>, f: spec_fn(NodeView) -> nat)
    ensures
        total(header_nodes(nodes), f) + total(body_nodes(nodes), f) == total(nodes, f),
    decreases nodes.len(),
{
    if nodes.len() > 0 {
        let front = nodes.drop_last();
        lemma_headers_and_body(front, f);
        assert(header_nodes(front).push(nodes.last()).drop_last() =~= header_nodes(front));
        assert(body_nodes(front).push(nodes.last()).drop_last() =~= body_nodes(front));
    }
}

proof fn lemma_node_texts(nodes: Seq<NodeView>, p: spec_fn(char) -> bool)
    ensures
        total(node_texts(nodes), part_weight(p)) == total(nodes, node_weight(p)),
    decreases nodes.len(),
{
    if nodes.len() > 0 {
        lemma_node_texts(nodes.drop_last(), p);
        assert(node_texts(nodes).drop_last() =~= node_texts(nodes.drop_last()));
    }
}

proof fn lemma_chunk_texts(chunks: Seq<ChunkView>, p: spec_fn(char) -> bool)
    ensures
        total(chunk_texts(chunks), part_weight(p)) == total(chunks, chunk_weight(p)),
    decreases chunks.len(),
{
    if chunks.len() > 0 {
        lemma_chunk_texts(chunks.drop_last(), p);
        assert(chunk_texts(chunks).drop_last() =~= chunk_texts(chunks.drop_last()));
    }
}

/// Chunks and headers together hold the content of a document's nodes: as many characters with a
/// property come out as went in, for any property that neither white space nor the marks of
/// Markdown have.
pub proof fn law_chunks_keep_content(
    nodes: Seq<NodeView>,
    definition: JsonView,
    document_id: Seq<char>,
    p: spec_fn(char) -> bool,
)
    requires
        is_content(p),
    ensures
        total(chunks_of(nodes, definition, document_id), chunk_weight(p)) + total(
            header_nodes(nodes),
            node_weight(p),
        ) == total(nodes, node_weight(p)),
{
    let chunks = chunks_of(nodes, definition, document_id);
    let body = body_nodes(nodes);
    let sep = "\n\n"@;
    reveal_strlit("\n\n");
    assert(is_space('\n'));
    lemma_count_none(sep, p);
    law_chunks_hold_whole_body(nodes, definition, document_id);
    lemma_count_joined(chunk_texts(chunks), sep, p);
    lemma_count_joined(node_texts(body), sep, p);
    lemma_node_texts(body, p);
    lemma_chunk_texts(chunks, p);
    lemma_headers_and_body(nodes, node_weight(p));
}

/// The list of a context holds the text of every filled slot, of whatever level, in order: the
/// lists of the outer and of the inner slots one after the other, and one slot gives its text, or
/// nothing where it is empty.
pub proof fn law_list_of_a_context(
    outer: Seq<Option<Seq<char>>>,
    inner: Seq<Option<Seq<char>>>,
    slot: Option<Seq<char>>,
)
    ensures
        context_list(outer + inner) == context_list(outer) + context_list(inner),
        context_list(seq![slot]) == match slot {
            Some(text) => seq![text],
            None => Seq::empty(),
        },
        context_list(Seq::empty()) == Seq::<Seq<char>>::empty(),
        context_line(outer) == joined(context_list(outer), " > "@),
    decreases inner.len(),
{
    if inner.len() == 0 {
        assert(outer + inner =~= outer);
        assert(context_list(outer) + context_list(inner) =~= context_list(outer));
    } else {
        law_list_of_a_context(outer, inner.drop_last(), slot);
        assert((outer + inner).drop_last() =~= outer + inner.drop_last());
        assert(context_list(outer + inner) =~= context_list(outer) + context_list(inner));
    }
    assert(seq![slot].drop_last() =~= Seq::<Option<Seq<char>>>::empty());
    assert(context_list(seq![slot].drop_last()) =~= Seq::<Seq<char>>::empty());
    assert(context_list(seq![slot]) =~= match slot {
        Some(text) => seq![text],
        None => Seq::empty(),
    });
}

/// How many of some slots are filled.
pub open spec fn filled_slots(context: Seq<Option<Seq<char>>>) -> nat {
    context.filter(|slot: Option<Seq<char>>| slot is Some).len()
}

proof fn lemma_filled_slots(context: Seq<Option<Seq<char>>>, k: int)
    requires
        0 <= k < context.len(),
    ensures
        context_list(context).len() == filled_slots(context),
        context[k] matches Some(text) ==> filled_slots(context.take(k)) < context_list(context).len()
            && context_list(context)[filled_slots(context.take(k)) as int] == text,
    decreases context.len(),
{
    reveal(Seq::filter);
    let front = context.drop_last();
    let n = front.len() as int;
    if n > 0 {
        lemma_filled_slots(front, 0);
        if k < n {
            lemma_filled_slots(front, k);
            assert(front.take(k) =~= context.take(k));
        }
    } else {
        assert(context_list(front) =~= Seq::empty());
        assert(filled_slots(front) == 0);
    }
    if k == n {
        assert(context.take(k) =~= front);
    }
}

/// The text of a filled slot stands in the list of a context at the place that the number of filled
/// slots before it gives, and the list is as long as there are filled slots.
pub proof fn law_slots_stand_in_the_list(context: Seq<Option<Seq<char>>>, k: int)
    requires
        0 <= k < context.len(),
    ensures
        context_list(context).len() == filled_slots(context),
        context[k] matches Some(text) ==> filled_slots(context.take(k)) < context_list(context).len()
            && context_list(context)[filled_slots(context.take(k)) as int] == text,
{
    lemma_filled_slots(context, k);
}

/// The slot that a header of a level takes: the first for the first level, and so on to the sixth,
/// which every deeper level takes too; a level of 0 counts as the first.
pub proof fn law_header_takes_its_slot(
    context: Seq<Option<Seq<char>>>,
    level: usize,
    text: Seq<char>,
)
    requires
        context.len() == 6,
    ensures
        ({
            let slot = if level == 0 {
                0int
            } else if level > 6 {
                5
            } else {
                level - 1
            };
            let after = context_after(context, level, text);
            &&& after.len() == 6
            &&& after[slot] == Some(text)
            &&& forall|i: int| 0 <= i < slot ==> #[trigger] after[i] == context[i]
            &&& forall|i: int| slot < i < 6 ==> #[trigger] after[i] is None
        }),
{
}

/// A document starts under no header. A header whose text differs from the one in its slot takes
/// the slot and empties the deeper ones; a header that repeats it, and everything that is no
/// header, leaves the headers as they are.
pub proof fn law_context_follows_the_headers(
    nodes: Seq<NodeView>,
    node: NodeView,
    definition: JsonView,
    document_id: Seq<char>,
)
    ensures
        ({
            let before = state_after(nodes, definition, document_id).context;
            let after = state_after(nodes.push(node), definition, document_id).context;
            &&& before.len() == 6
            &&& nodes.len() == 0 ==> forall|i: int| 0 <= i < 6 ==> #[trigger] before[i] is None
            &&& match node.node_type {
                NodeType::Header(level) => {
                    let slot = if level == 0 {
                        0int
                    } else if level > 6 {
                        5
                    } else {
                        level - 1
                    };
                    if before[slot] == Some(node.text) {
                        after == before
                    } else {
                        &&& after.len() == 6
                        &&& after[slot] == Some(node.text)
                        &&& forall|i: int| 0 <= i < slot ==> #[trigger] after[i] == before[i]
                        &&& forall|i: int| slot < i < 6 ==> #[trigger] after[i] is None
                    }
                },
                _ => after == before,
            }
        }),
    decreases nodes.len(),
{
    assert(nodes.push(node).drop_last() =~= nodes);
    if nodes.len() > 0 {
        law_context_follows_the_headers(nodes.drop_last(), nodes.last(), definition, document_id);
        assert(nodes.drop_last().push(nodes.last()) =~= nodes);
    }
}

/// The body of a document is its nodes that are no headers, in order, each filed under the headers
/// that it stands under.
pub proof fn law_body_is_filed(
    nodes: Seq<NodeView>,
    node: NodeView,
    definition: JsonView,
    document_id: Seq<char>,
)
    ensures
        filed_body(nodes.push(node), definition, document_id) == match node.node_type {
            NodeType::Header(_) => filed_body(nodes, definition, document_id),
            _ => filed_body(nodes, definition, document_id).push(
                (node, state_after(nodes, definition, document_id).context),
            ),
        },
        filed_body(Seq::empty(), definition, document_id) == Seq::<
            (NodeView, Seq<Option<Seq<char>>>),
        >::empty(),
        body_nodes(nodes.push(node)) == match node.node_type {
            NodeType::Header(_) => body_nodes(nodes),
            _ => body_nodes(nodes).push(node),
        },
        body_nodes(Seq::empty()) == Seq::<NodeView>::empty(),
{
    assert(nodes.push(node).drop_last() =~= nodes);
}

/// The chunks are numbered from 0 on, and name their document.
pub proof fn law_chunks_are_numbered(
    nodes: Seq<NodeView>,
    definition: JsonView,
    document_id: Seq<char>,
    i: int,
)
    requires
        0 <= i < chunks_of(nodes, definition, document_id).len(),
    ensures
        chunks_of(nodes, definition, document_id)[i].chunk_id == i,
        chunks_of(nodes, definition, document_id)[i].root_document == document_id,
{
    law_chunks_keep_to_budget(nodes, definition, document_id);
    assert(chunk_holds(
        chunks_of(nodes, definition, document_id)[i],
        i,
        nodes,
        definition,
        document_id,
    ));
}

/// The tokens of a chunk are those of its nodes: of two lists of nodes they add up, and one node
/// counts its own.
pub proof fn law_tokens_add_up(a: Seq<NodeView>, b: Seq<NodeView>, node: NodeView, definition: JsonView)
    ensures
        tokens_of(a + b, definition) == tokens_of(a, definition) + tokens_of(b, definition),
        tokens_of(seq![node], definition) == token_count(definition, node.text),
        tokens_of(Seq::empty(), definition) == 0,
    decreases b.len(),
{
    if b.len() == 0 {
        assert(a + b =~= a);
    } else {
        law_tokens_add_up(a, b.drop_last(), node, definition);
        assert((a + b).drop_last() =~= a + b.drop_last());
    }
    assert(seq![node].drop_last() =~= Seq::<NodeView>::empty());
    assert(tokens_of(seq![node].drop_last(), definition) == 0);
}

/// A chunk, a context and what a chunk in the making starts under are seen as they are, part by
/// part.
pub proof fn law_chunks_are_seen(
    chunks: Seq<ChunkPayload>,
    i: int,
    context: HeaderContext,
    level: int,
    text: String,
    accumulator: ChunkAccumulator,
)
    ensures
        chunk_views(chunks).len() == chunks.len(),
        0 <= i < chunks.len() ==> {
            let seen = chunk_views(chunks)[i];
            &&& seen.chunk_id == chunks[i].chunk_id
            &&& seen.text == chunks[i].text@
            &&& seen.root_document == chunks[i].root_document@
            &&& seen.token_count == chunks[i].token_count
            &&& seen.source_pages == chunks[i].source_pages@
            &&& seen.parent_hierarchy.len() == chunks[i].parent_hierarchy@.len()
            &&& forall|k: int|
                0 <= k < seen.parent_hierarchy.len() ==> #[trigger] seen.parent_hierarchy[k]
                    == chunks[i].parent_hierarchy@[k]@
        },
        context.wf() == (context.slots@.len() == 6),
        context@.len() == context.slots@.len(),
        0 <= level < context.slots@.len() && context.slots@[level] is None ==> context@[level] is None,
        0 <= level < context.slots@.len() && context.slots@[level] == Some(text)
            ==> context@[level] == Some(text@),
        accumulator.injected_context is None ==> accumulator.seed() is None,
        accumulator.injected_context == Some(context) ==> accumulator.seed() == Some(context@),
        empty_context().len() == 6,
        0 <= level < 6 ==> empty_context()[level] is None,
{
}

/// A node that is no header joins the chunk in the making where this is empty or where tokens of
/// both and of the context come to no more than 512; otherwise it starts the next chunk. A header
/// that changes the context ends the chunk in the making. A chunk that ends has all its nodes, the
/// tokens that they were given, and the headers that it started under.
pub proof fn law_one_node_at_a_time(
    state: ChunkState,
    node: NodeView,
    node_tokens: nat,
    context_tokens: nat,
    document_id: Seq<char>,
)
    requires
        state.context.len() == 6,
    ensures
        ({
            let after = next_state(state, node, node_tokens, context_tokens, document_id);
            let ends = if node.node_type is Header {
                after.context != state.context
            } else {
                state.tokens + node_tokens + context_tokens > 512
            };
            let done = state.done.len() as int;
            &&& !(node.node_type is Header) ==> after.context == state.context
            &&& state.nodes.len() > 0 && ends ==> {
                let chunk = after.done[done];
                &&& after.done.len() == done + 1
                &&& after.done.take(done) == state.done
                &&& chunk.chunk_id == done
                &&& chunk.text == joined(node_texts(state.nodes), "\n\n"@)
                &&& chunk.token_count == state.tokens
                &&& chunk.root_document == document_id
                &&& chunk.source_pages == node_pages(state.nodes)
                &&& state.seed matches Some(context) ==> chunk.parent_hierarchy == context_list(
                    context,
                )
                &&& node.node_type is Header ==> after.nodes.len() == 0 && after.tokens == 0
                    && after.seed is None
                &&& !(node.node_type is Header) ==> after.nodes == seq![node] && after.tokens
                    == node_tokens && after.seed == Some(state.context)
            }
            &&& state.nodes.len() == 0 || !ends ==> {
                &&& after.done == state.done
                &&& node.node_type is Header ==> after.nodes == state.nodes && after.tokens
                    == state.tokens && after.seed == state.seed
                &&& !(node.node_type is Header) ==> after.nodes == state.nodes.push(node)
                    && after.tokens == state.tokens + node_tokens && after.seed == (
                if state.seed is None {
                    Some(state.context)
                } else {
                    state.seed
                })
            }
        }),
        forall|i: int|
            0 <= i < state.nodes.len() ==> #[trigger] node_texts(state.nodes)[i]
                == state.nodes[i].text,
        node_texts(state.nodes).len() == state.nodes.len(),
{
    let after = next_state(state, node, node_tokens, context_tokens, document_id);
    if state.nodes.len() > 0 {
        let ended = flushed(state, document_id);
        assert(ended.done.take(state.done.len() as int) =~= state.done);
        assert(Seq::<NodeView>::empty().push(node) =~= seq![node]);
        if let NodeType::Header(level) = node.node_type {
            let next = context_after(state.context, level, node.text);
            if state.context[slot_of(level)] != Some(node.text) {
                assert(next[slot_of(level)] == Some(node.text));
            }
        }
    }
}

} // verus!
