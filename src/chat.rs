use vstd::prelude::*;

use crate::conversations::{
    conv_at, conv_ids_unique, conv_moved, has_conv, by_name, lemma_conv_at, ConvView, Conversation,
    ConversationError, Conversations,
};
use crate::messages::{
    by_time_desc, has_id, ids_unique, lemma_msg_row, lemma_row_removed, message_of, msg_row,
    new_row, opt_str, rows_kept, rows_updated, text_set, Messages, RowView,
};
use crate::threads::{
    children_in, distinct_edges, has_child_edge, lemma_children_in, lemma_without,
    without, Edge, ThreadError, Threads,
};
use crate::types::{opt_bytes, role_of_text, texts, Message, MessageError, MessageView};

verus! {

/// The whole store: message rows, parent edges and conversations.
pub struct ChatView {
    pub messages: Seq<RowView>,
    pub edges: Seq<Edge>,
    pub convs: Seq<ConvView>,
}

/// A message has at most one parent.
pub open spec fn one_parent(e: Seq<Edge>) -> bool {
    forall|a: Edge, b: Edge|
        #![trigger e.contains(a), e.contains(b)]
        e.contains(a) && e.contains(b) && a.0 == b.0 ==> a == b
}

/// Every edge joins two stored messages.
pub open spec fn edges_resolve(v: ChatView) -> bool {
    forall|e: Edge| #[trigger] v.edges.contains(e) ==> has_id(v.messages, e.0) && has_id(v.messages, e.1)
}

/// Every child ranks above its parent.
pub open spec fn ranked(e: Seq<Edge>, d: spec_fn(Seq<char>) -> nat) -> bool {
    forall|x: Edge| #[trigger] e.contains(x) ==> d(x.0) > d(x.1)
}

/// No chain of edges leads from a message back to itself.
pub open spec fn acyclic(e: Seq<Edge>) -> bool {
    exists|d: spec_fn(Seq<char>) -> nat| ranked(e, d)
}

/// The tree invariants of the store.
pub open spec fn chat_ok(v: ChatView) -> bool {
    &&& ids_unique(v.messages)
    &&& by_time_desc(v.messages)
    &&& distinct_edges(v.edges)
    &&& one_parent(v.edges)
    &&& edges_resolve(v)
    &&& acyclic(v.edges)
    &&& conv_ids_unique(v.convs)
    &&& by_name(v.convs)
}

/// The parent of `c`, when it has one.
pub open spec fn parent_of(e: Seq<Edge>, c: Seq<char>) -> Option<Seq<char>> {
    if exists|p: Seq<char>| e.contains((c, p)) {
        Some(choose|p: Seq<char>| e.contains((c, p)))
    } else {
        None
    }
}

/// `path` walks from its first message down parent-to-child edges.
pub open spec fn is_path(e: Seq<Edge>, path: Seq<Seq<char>>) -> bool {
    &&& path.len() >= 1
    &&& forall|k: int| 0 <= k < path.len() - 1 ==> e.contains((path[k + 1], #[trigger] path[k]))
}

/// `x` is `root` or lies below it.
pub open spec fn reachable(e: Seq<Edge>, root: Seq<char>, x: Seq<char>) -> bool {
    exists|path: Seq<Seq<char>>| #[trigger] is_path(e, path) && path[0] == root && path.last() == x
}

/// `ids` lists `root` first, then every message below it, each once.
pub open spec fn listing(e: Seq<Edge>, root: Seq<char>, ids: Seq<Seq<char>>) -> bool {
    &&& ids.len() >= 1
    &&& ids[0] == root
    &&& ids.no_duplicates()
    &&& forall|x: Seq<char>| #[trigger] ids.contains(x) <==> reachable(e, root, x)
}

/// One node of a conversation's tree, as flattened for callers.
#[derive(Debug, Clone)]
pub struct ThreadTreeItem {
    pub key: String,
    pub parent: Option<String>,
    pub children: Vec<String>,
}


/// A flattened tree node as ids.
pub struct ItemView {
    pub key: Seq<char>,
    pub parent: Option<Seq<char>>,
    pub children: Seq<Seq<char>>,
}

impl View for ThreadTreeItem {
    type V = ItemView;

    open spec fn view(&self) -> ItemView {
        ItemView {
            key: self.key@,
            parent: crate::types::opt_text(self.parent),
            children: texts(self.children@),
        }
    }
}

pub open spec fn message_views(v: Seq<Message>) -> Seq<MessageView> {
    v.map_values(|m: Message| m@)
}

pub open spec fn item_views(v: Seq<ThreadTreeItem>) -> Seq<ItemView> {
    v.map_values(|t: ThreadTreeItem| t@)
}

/// The root of a conversation, when the conversation exists and has one.
pub open spec fn entry_of(v: ChatView, conversation_id: Seq<char>) -> Option<Seq<char>> {
    if has_conv(v.convs, conversation_id) {
        conv_at(v.convs, conversation_id).entry
    } else {
        None
    }
}

/// Every message of the tree under `root` is stored and names a known role.
pub open spec fn readable_below(v: ChatView, root: Seq<char>) -> bool {
    &&& has_id(v.messages, root)
    &&& forall|x: Seq<char>| #[trigger] reachable(v.edges, root, x) ==> message_of(msg_row(v.messages, x)) is Some
}

/// `out` holds the messages of the tree under `root`: the root first, then
/// every message below it once.
pub open spec fn involved(v: ChatView, root: Seq<char>, out: Seq<MessageView>) -> bool {
    &&& listing(v.edges, root, out.map_values(|m: MessageView| m.id))
    &&& forall|k: int|
        0 <= k < out.len() ==> has_id(v.messages, #[trigger] out[k].id) && message_of(
            msg_row(v.messages, out[k].id),
        ) == Some(out[k])
}

/// `out` is the tree under `root` flattened: one item per message, with its
/// parent and its children.
pub open spec fn flattened(v: ChatView, root: Seq<char>, out: Seq<ItemView>) -> bool {
    &&& listing(v.edges, root, out.map_values(|t: ItemView| t.key))
    &&& forall|k: int|
        0 <= k < out.len() ==> (#[trigger] out[k]).parent == parent_of(v.edges, out[k].key)
            && out[k].children == children_in(v.edges, out[k].key)
}

pub proof fn lemma_parent_of(e: Seq<Edge>, c: Seq<char>, p: Seq<char>)
    requires
        one_parent(e),
        e.contains((c, p)),
    ensures
        parent_of(e, c) == Some(p),
{
    let q = choose|q: Seq<char>| e.contains((c, q));
    assert(e.contains((c, q)) && e.contains((c, p)));
}

pub proof fn lemma_below_has_parent(e: Seq<Edge>, root: Seq<char>, x: Seq<char>)
    requires
        reachable(e, root, x),
        x != root,
    ensures
        exists|p: Seq<char>| e.contains((x, p)),
{
    let path = choose|path: Seq<Seq<char>>| #[trigger] is_path(e, path) && path[0] == root && path.last() == x;
    let n = path.len() - 2;
    assert(e.contains((path[n + 1], path[n])));
}


proof fn lemma_unreadable(v: ChatView, root: Seq<char>, t: Seq<Seq<char>>, k: int)
    requires
        chat_ok(v),
        listing(v.edges, root, t),
        0 <= k < t.len(),
        !has_id(v.messages, t[k]) || message_of(msg_row(v.messages, t[k])) is None,
    ensures
        !readable_below(v, root),
{
    assert(t.contains(t[k]));
    if !has_id(v.messages, t[k]) && k > 0 {
        assert(t[k] != t[0]);
        lemma_below_has_parent(v.edges, root, t[k]);
        let p = choose|p: Seq<char>| v.edges.contains((t[k], p));
    }
}

proof fn lemma_all_read(v: ChatView, root: Seq<char>, t: Seq<Seq<char>>, out: Seq<Message>)
    requires
        listing(v.edges, root, t),
        out.len() == t.len(),
        forall|q: int|
            0 <= q < t.len() ==> (#[trigger] out[q])@.id == t[q] && has_id(v.messages, t[q])
                && message_of(msg_row(v.messages, t[q])) == Some(out[q]@),
    ensures
        readable_below(v, root),
        involved(v, root, message_views(out)),
{
    let mv = message_views(out);
    assert(mv.map_values(|m: MessageView| m.id) =~= t);
    assert(t.contains(t[0]));
    assert forall|x: Seq<char>| #[trigger] reachable(v.edges, root, x) implies message_of(msg_row(v.messages, x)) is Some by {
        assert(t.contains(x));
        let q = choose|q: int| 0 <= q < t.len() && t[q] == x;
        assert(out[q]@.id == t[q]);
    }
    assert forall|q: int| 0 <= q < mv.len() implies has_id(v.messages, #[trigger] mv[q].id) && message_of(
        msg_row(v.messages, mv[q].id),
    ) == Some(mv[q]) by {
        assert(out[q]@.id == t[q]);
    }
}


/// `i` is the first conversation whose root is `id`.
pub open spec fn first_owner(convs: Seq<ConvView>, id: Seq<char>, i: int) -> bool {
    &&& 0 <= i < convs.len()
    &&& convs[i].entry == Some(id)
    &&& forall|j: int| 0 <= j < i ==> (#[trigger] convs[j]).entry != Some(id)
}

/// Some conversation has `id` as its root.
pub open spec fn owned(convs: Seq<ConvView>, id: Seq<char>) -> bool {
    exists|i: int| 0 <= i < convs.len() && (#[trigger] convs[i]).entry == Some(id)
}

/// `t` is `s` with the first conversation rooted at `id` given the root `entry`.
pub open spec fn owner_moved(s: Seq<ConvView>, t: Seq<ConvView>, id: Seq<char>, entry: Option<Seq<char>>) -> bool {
    exists|i: int| #[trigger] first_owner(s, id, i) && conv_moved(s, t, s[i].id, ConvView { entry: entry, ..s[i] })
}

/// What deleting a stored message and everything below it does.
pub open spec fn subtree_deleted(
    o: ChatView,
    n: ChatView,
    id: Seq<char>,
    r: Result<Option<String>, ChatError>,
) -> bool {
    let is_root = !has_child_edge(o.edges, id);
    if is_root && !owned(o.convs, id) {
        r matches Err(e) && e matches ChatError::Conversation(ConversationError::NotFound(t)) && t@ == id
    } else {
        &&& r matches Ok(x) && x is None
        &&& rows_kept(o.messages, n.messages, |x: Seq<char>| reachable(o.edges, id, x))
        &&& forall|e: Edge|
            #[trigger] n.edges.contains(e) <==> o.edges.contains(e) && !reachable(o.edges, id, e.0)
                && !reachable(o.edges, id, e.1)
        &&& if is_root {
            owner_moved(o.convs, n.convs, id, None)
        } else {
            n.convs == o.convs
        }
    }
}

/// What deleting one stored message and closing the tree around it does.
pub open spec fn single_deleted(
    o: ChatView,
    n: ChatView,
    id: Seq<char>,
    r: Result<Option<String>, ChatError>,
) -> bool {
    let kids = children_in(o.edges, id);
    match parent_of(o.edges, id) {
        Some(p) => {
            &&& r matches Ok(x) && crate::types::opt_text(x) == Some(p)
            &&& rows_kept(o.messages, n.messages, |x: Seq<char>| x == id)
            &&& forall|e: Edge|
                #[trigger] n.edges.contains(e) <==> (o.edges.contains(e) && e.0 != id && e.1 != id) || (
                e.1 == p && o.edges.contains((e.0, id)))
            &&& n.convs == o.convs
        },
        None => if kids.len() >= 2 {
            r matches Err(e) && e matches ChatError::Conversation(ConversationError::InvalidOperation(_))
        } else if !owned(o.convs, id) {
            r matches Err(e) && e matches ChatError::Conversation(ConversationError::NotFound(t)) && t@ == id
        } else {
            &&& r matches Ok(x) && x is None
            &&& rows_kept(o.messages, n.messages, |x: Seq<char>| x == id)
            &&& forall|e: Edge|
                #[trigger] n.edges.contains(e) <==> o.edges.contains(e) && e.0 != id && e.1 != id
            &&& owner_moved(
                o.convs,
                n.convs,
                id,
                if kids.len() == 1 {
                    Some(kids[0])
                } else {
                    None
                },
            )
        },
    }
}

pub open spec fn delete_outcome(
    o: ChatView,
    n: ChatView,
    id: Seq<char>,
    recursive: bool,
    r: Result<Option<String>, ChatError>,
) -> bool {
    if recursive {
        subtree_deleted(o, n, id, r)
    } else {
        single_deleted(o, n, id, r)
    }
}


proof fn lemma_take_next(t: Seq<Seq<char>>, k: int)
    requires
        0 <= k < t.len(),
    ensures
        forall|x: Seq<char>| #[trigger] t.take(k + 1).contains(x) <==> t.take(k).contains(x) || x == t[k],
{
    let a = t.take(k);
    let b = t.take(k + 1);
    assert(b =~= a.push(t[k]));
    assert forall|x: Seq<char>| #[trigger] b.contains(x) <==> a.contains(x) || x == t[k] by {
        if b.contains(x) {
            let q = choose|q: int| 0 <= q < b.len() && b[q] == x;
            if q < k {
                assert(a[q] == x);
            }
        }
        if a.contains(x) {
            let q = choose|q: int| 0 <= q < a.len() && a[q] == x;
            assert(b[q] == x);
        }
        if x == t[k] {
            assert(b[k] == x);
        }
    }
}


/// What `add_message` does with its arguments, as ids and texts.
pub open spec fn add_message_post(
    o: ChatView,
    n: ChatView,
    conversation_id: Seq<char>,
    message_id: Seq<char>,
    text: Seq<char>,
    reasoning: Option<Seq<char>>,
    sender: Seq<char>,
    parent: Option<Seq<char>>,
    timestamp: i64,
    r: Result<(), ChatError>,
) -> bool {
    &&& r is Ok <==> !has_id(o.messages, message_id) && match parent {
        Some(p) => has_id(o.messages, p),
        None => has_conv(o.convs, conversation_id),
    }
    &&& r matches Err(e) ==> if has_id(o.messages, message_id) {
        e matches ChatError::Message(MessageError::AlreadyExists(t)) && t@ == message_id
    } else {
        match parent {
            Some(p) => e matches ChatError::Message(MessageError::NotFound(t)) && t@ == p,
            None => e matches ChatError::Conversation(ConversationError::NotFound(t)) && t@
                == conversation_id,
        }
    }
    &&& r is Err ==> n == o
    &&& r is Ok ==> exists|p: int|
        0 <= p <= o.messages.len() && n.messages == #[trigger] o.messages.insert(
            p,
            new_row(message_id, text, reasoning, sender, None, None, timestamp),
        )
    &&& r is Ok ==> n.edges == match parent {
        Some(p) => o.edges.push((message_id, p)),
        None => o.edges,
    }
    &&& r is Ok ==> match parent {
        Some(_) => n.convs == o.convs,
        None => conv_moved(
            o.convs,
            n.convs,
            conversation_id,
            ConvView { entry: Some(message_id), ..conv_at(o.convs, conversation_id) },
        ),
    }
}

/// What `get_all_message_involved` returns for a conversation.
pub open spec fn involved_post(v: ChatView, conversation_id: Seq<char>, r: Result<Vec<Message>, ChatError>) -> bool {
    &&& !has_conv(v.convs, conversation_id) ==> (r matches Err(e) && e matches ChatError::Conversation(
        ConversationError::NotFound(t),
    ) && t@ == conversation_id)
    &&& has_conv(v.convs, conversation_id) ==> match entry_of(v, conversation_id) {
        None => r matches Ok(x) && x.len() == 0,
        Some(root) => {
            &&& r is Ok <==> readable_below(v, root)
            &&& r matches Ok(x) ==> involved(v, root, message_views(x@))
            &&& r matches Err(e) ==> e is Message
        },
    }
}

/// What `get_thread_tree` returns for a conversation.
pub open spec fn tree_post(v: ChatView, conversation_id: Seq<char>, r: Result<Vec<ThreadTreeItem>, ChatError>) -> bool {
    &&& r is Err <==> !has_conv(v.convs, conversation_id)
    &&& r matches Err(e) ==> (e matches ChatError::Conversation(ConversationError::NotFound(t))
        && t@ == conversation_id)
    &&& r matches Ok(x) ==> match entry_of(v, conversation_id) {
        None => x.len() == 0,
        Some(root) => flattened(v, root, item_views(x@)),
    }
}

/// What `get_message` returns for an id.
pub open spec fn get_message_post(v: ChatView, message_id: Seq<char>, r: Result<Message, ChatError>) -> bool {
    &&& r is Ok <==> has_id(v.messages, message_id) && message_of(msg_row(v.messages, message_id)) is Some
    &&& r matches Ok(m) ==> message_of(msg_row(v.messages, message_id)) == Some(m@)
    &&& r matches Err(e) ==> if has_id(v.messages, message_id) {
        e matches ChatError::Message(MessageError::InvalidRole(_))
    } else {
        e matches ChatError::Message(MessageError::NotFound(t)) && t@ == message_id
    }
}

/// Errors of the conversation-level operations.
#[derive(Debug, Clone)]
pub enum ChatError {
    Message(MessageError),
    Thread(ThreadError),
    Conversation(ConversationError),
}

/// Conversation-level operations over the three stores. Each operation
/// either succeeds whole or fails leaving the store as it was.
pub struct Chat {
    thread_manager: Threads,
    conversation_manager: Conversations,
    messages_manager: Messages,
}

impl View for Chat {
    type V = ChatView;

    closed spec fn view(&self) -> ChatView {
        ChatView {
            messages: self.messages_manager@,
            edges: self.thread_manager@,
            convs: self.conversation_manager@,
        }
    }
}



fn list_has(v: &Vec<String>, x: &str) -> (r: bool)
    ensures
        r == texts(v@).contains(x@),
{
    let mut i: usize = 0;
    while i < v.len()
        invariant
            i <= v.len(),
            forall|k: int| 0 <= k < i ==> texts(v@)[k] != x@,
        decreases v.len() - i,
    {
        if crate::types::text_eq(v[i].as_str(), x) {
            assert(texts(v@)[i as int] == x@);
            return true;
        }
        i = i + 1;
    }
    false
}

proof fn lemma_listing_bound(e: Seq<Edge>, root: Seq<char>, t: Seq<Seq<char>>)
    requires
        t.no_duplicates(),
        t.len() >= 1,
        t[0] == root,
        forall|k: int| 1 <= k < t.len() ==> has_child_edge(e, #[trigger] t[k]),
    ensures
        t.len() <= e.len() + 1,
{
    broadcast use vstd::seq_lib::seq_to_set_is_finite;
    let kids = e.map_values(|x: Edge| x.0);
    let s = kids.to_set().insert(root);
    assert forall|x: Seq<char>| t.to_set().contains(x) implies s.contains(x) by {
        let k = choose|k: int| 0 <= k < t.len() && t[k] == x;
        if k >= 1 {
            let j = choose|j: int| 0 <= j < e.len() && (#[trigger] e[j]).0 == t[k];
            assert(kids[j] == x);
            assert(kids.contains(x));
        }
    }
    t.unique_seq_to_set();
    kids.lemma_cardinality_of_set();
    vstd::set_lib::lemma_len_subset(t.to_set(), s);
}

proof fn lemma_path_stays(e: Seq<Edge>, t: Seq<Seq<char>>, path: Seq<Seq<char>>, m: int)
    requires
        is_path(e, path),
        t.contains(path[0]),
        forall|c: Seq<char>, k: int| 0 <= k < t.len() && #[trigger] e.contains((c, t[k])) ==> t.contains(c),
        0 <= m < path.len(),
    ensures
        t.contains(path[m]),
    decreases m,
{
    if m > 0 {
        lemma_path_stays(e, t, path, m - 1);
        let k = choose|k: int| 0 <= k < t.len() && t[k] == path[m - 1];
        assert(e.contains((path[m], path[m - 1])));
    }
}

proof fn lemma_path_extend(e: Seq<Edge>, root: Seq<char>, x: Seq<char>, c: Seq<char>)
    requires
        reachable(e, root, x),
        e.contains((c, x)),
    ensures
        reachable(e, root, c),
{
    let path = choose|path: Seq<Seq<char>>| #[trigger] is_path(e, path) && path[0] == root && path.last() == x;
    let q = path.push(c);
    assert forall|k: int| 0 <= k < q.len() - 1 implies e.contains((q[k + 1], #[trigger] q[k])) by {
        if k < path.len() - 1 {
            assert(q[k] == path[k] && q[k + 1] == path[k + 1]);
        }
    }
    assert(is_path(e, q));
}

proof fn lemma_root_reachable(e: Seq<Edge>, root: Seq<char>)
    ensures
        reachable(e, root, root),
{
    let path = seq![root];
    assert(is_path(e, path));
}

impl Chat {
    pub open spec fn wf(&self) -> bool {
        chat_ok(self@)
    }

    proof fn lemma_stores(&self)
        requires
            self.wf(),
        ensures
            self.messages_manager.wf(),
            self.thread_manager.wf(),
            self.conversation_manager.wf(),
    {
    }

    /// An empty store.
    pub fn new() -> (r: Chat)
        ensures
            r.wf(),
            r@.messages.len() == 0,
            r@.edges.len() == 0,
            r@.convs.len() == 0,
    {
        let r = Chat {
            thread_manager: Threads::new(),
            conversation_manager: Conversations::new(),
            messages_manager: Messages::new(),
        };
        assert(ranked(r@.edges, |x: Seq<char>| 0nat));
        r
    }

    /// Creates a conversation with no messages yet.
    pub fn create_conversation(&mut self, conversation_id: &str, name: &str, description: &str) -> (r:
        Result<(), ChatError>)
        requires
            old(self).wf(),
        ensures
            final(self).wf(),
            r is Err <==> has_conv(old(self)@.convs, conversation_id@),
            r matches Err(e) ==> (e matches ChatError::Conversation(
                ConversationError::AlreadyExists(t),
            ) && t@ == conversation_id@),
            r is Err ==> final(self)@ == old(self)@,
            final(self)@.messages == old(self)@.messages,
            final(self)@.edges == old(self)@.edges,
            r is Ok ==> exists|p: int|
                0 <= p <= old(self)@.convs.len() && final(self)@.convs == #[trigger] old(
                    self,
                )@.convs.insert(
                    p,
                    ConvView {
                        id: conversation_id@,
                        name: name@,
                        description: Some(description@),
                        entry: None,
                    },
                ),
    {
        match self.conversation_manager.create(conversation_id, name, Some(description), None) {
            Ok(()) => Ok(()),
            Err(e) => Err(ChatError::Conversation(e)),
        }
    }

    /// Adds a message. With a parent it becomes a child of that message;
    /// without one it becomes the conversation's new root, replacing any
    /// earlier root, whose tree is left in place but no longer reached.
    pub fn add_message(
        &mut self,
        conversation_id: &str,
        message_id: &str,
        text: &str,
        reasoning: Option<&str>,
        sender: &str,
        parent_message_id: Option<&str>,
        timestamp: i64,
    ) -> (r: Result<(), ChatError>)
        requires
            old(self).wf(),
        ensures
            final(self).wf(),
            add_message_post(
                old(self)@,
                final(self)@,
                conversation_id@,
                message_id@,
                text@,
                opt_str(reasoning),
                sender@,
                opt_str(parent_message_id),
                timestamp,
                r,
            ),
    {
        proof {
            self.lemma_stores();
        }
        if self.messages_manager.contains(message_id) {
            return Err(ChatError::Message(MessageError::AlreadyExists(message_id.to_owned())));
        }
        match parent_message_id {
            Some(p) => {
                if !self.messages_manager.contains(p) {
                    return Err(ChatError::Message(MessageError::NotFound(p.to_owned())));
                }
            },
            None => {
                if self.conversation_manager.get(conversation_id).is_none() {
                    return Err(
                        ChatError::Conversation(ConversationError::NotFound(conversation_id.to_owned())),
                    );
                }
            },
        }
        self.insert_linked(message_id, text, reasoning, sender, None, None, timestamp, parent_message_id);
        if parent_message_id.is_none() {
            let ghost old_v = self@;
            proof {
                let i = choose|i: int| 0 <= i < old_v.convs.len() && (#[trigger] old_v.convs[i]).id
                    == conversation_id@;
                lemma_conv_at(old_v.convs, i);
            }
            self.conversation_manager.update_entry_message_id(conversation_id, Some(message_id));
        }
        Ok(())
    }

    /// Stores a new message and, when it has a parent, its parent edge.
    fn insert_linked(
        &mut self,
        message_id: &str,
        text: &str,
        reasoning: Option<&str>,
        sender: &str,
        tokens: Option<i32>,
        embedding: Option<Vec<u8>>,
        timestamp: i64,
        parent: Option<&str>,
    )
        requires
            old(self).wf(),
            !has_id(old(self)@.messages, message_id@),
            parent matches Some(p) ==> has_id(old(self)@.messages, p@),
        ensures
            final(self).wf(),
            exists|p: int|
                0 <= p <= old(self)@.messages.len() && final(self)@.messages == #[trigger] old(
                    self,
                )@.messages.insert(
                    p,
                    new_row(message_id@, text@, opt_str(reasoning), sender@, tokens, opt_bytes(embedding), timestamp),
                ),
            final(self)@.edges == match parent {
                Some(p) => old(self)@.edges.push((message_id@, p@)),
                None => old(self)@.edges,
            },
            final(self)@.convs == old(self)@.convs,
    {
        proof {
            self.lemma_stores();
        }
        let ghost emb = opt_bytes(embedding);
        let ghost old_v = self@;
        let ghost d = choose|d: spec_fn(Seq<char>) -> nat| ranked(old_v.edges, d);
        let added = self.messages_manager.add(
            message_id,
            text,
            reasoning,
            sender,
            tokens,
            embedding,
            timestamp,
        );
        assert(added is Ok);
        let ghost p_at = choose|p: int|
            0 <= p <= old_v.messages.len() && self@.messages == #[trigger] old_v.messages.insert(
                p,
                new_row(message_id@, text@, opt_str(reasoning), sender@, tokens, emb, timestamp),
            );
        assert forall|x: Seq<char>| has_id(old_v.messages, x) implies has_id(self@.messages, x) by {
            let k = choose|k: int| 0 <= k < old_v.messages.len() && (#[trigger] old_v.messages[k]).id == x;
            if k < p_at {
                assert(self@.messages[k] == old_v.messages[k]);
            } else {
                assert(self@.messages[k + 1] == old_v.messages[k]);
            }
        }
        assert(self@.messages[p_at].id == message_id@);
        match parent {
            Some(p) => {
                // A new message has no edges, so this edge is new and its
                // child has no other parent.
                assert(!old_v.edges.contains((message_id@, p@)));
                let linked = self.thread_manager.add(message_id, p);
                assert(linked is Ok);
                let ghost d2 = |x: Seq<char>| if x == message_id@ { d(p@) + 1 } else { d(x) };
                assert(ranked(self@.edges, d2)) by {
                    assert forall|x: Edge| #[trigger] self@.edges.contains(x) implies d2(x.0) > d2(x.1) by {
                        if x != (message_id@, p@) {
                            let k = choose|k: int| 0 <= k < self@.edges.len() && self@.edges[k] == x;
                            assert(old_v.edges.contains(x)) by {
                                assert(old_v.edges[k] == x);
                            }
                        } else {
                            assert(p@ != message_id@);
                        }
                    }
                }
                assert forall|e: Edge| #[trigger] self@.edges.contains(e) implies has_id(self@.messages, e.0)
                    && has_id(self@.messages, e.1) by {
                    if e != (message_id@, p@) {
                        let k = choose|k: int| 0 <= k < self@.edges.len() && self@.edges[k] == e;
                        assert(old_v.edges[k] == e);
                        assert(old_v.edges.contains(e));
                    }
                }
                assert forall|a: Edge, b: Edge|
                    #![trigger self@.edges.contains(a), self@.edges.contains(b)]
                    self@.edges.contains(a) && self@.edges.contains(b) && a.0 == b.0 implies a == b by {
                    if a != (message_id@, p@) {
                        let k = choose|k: int| 0 <= k < self@.edges.len() && self@.edges[k] == a;
                        assert(old_v.edges[k] == a);
                        assert(old_v.edges.contains(a));
                    }
                    if b != (message_id@, p@) {
                        let k = choose|k: int| 0 <= k < self@.edges.len() && self@.edges[k] == b;
                        assert(old_v.edges[k] == b);
                        assert(old_v.edges.contains(b));
                    }
                }
            },
            None => {
                assert forall|e: Edge| #[trigger] self@.edges.contains(e) implies has_id(self@.messages, e.0)
                    && has_id(self@.messages, e.1) by {
                    assert(old_v.edges.contains(e));
                }
                assert(ranked(self@.edges, d));
            },
        }
    }

    /// Stores a message read back from persistent storage, under the
    /// parent it had, with all its fields; conversations are not touched.
    pub fn import_message(
        &mut self,
        message_id: &str,
        text: &str,
        reasoning: Option<&str>,
        sender: &str,
        tokens: Option<i32>,
        embedding: Option<Vec<u8>>,
        timestamp: i64,
        parent: Option<&str>,
    ) -> (r: Result<(), ChatError>)
        requires
            old(self).wf(),
        ensures
            final(self).wf(),
            r is Ok <==> !has_id(old(self)@.messages, message_id@) && (parent matches Some(p) ==> has_id(
                old(self)@.messages,
                p@,
            )),
            r matches Err(e) ==> e is Message,
            r is Err ==> final(self)@ == old(self)@,
            r is Ok ==> exists|p: int|
                0 <= p <= old(self)@.messages.len() && final(self)@.messages == #[trigger] old(
                    self,
                )@.messages.insert(
                    p,
                    new_row(message_id@, text@, opt_str(reasoning), sender@, tokens, opt_bytes(embedding), timestamp),
                ),
            r is Ok ==> final(self)@.edges == match parent {
                Some(p) => old(self)@.edges.push((message_id@, p@)),
                None => old(self)@.edges,
            },
            final(self)@.convs == old(self)@.convs,
    {
        proof {
            self.lemma_stores();
        }
        if self.messages_manager.contains(message_id) {
            return Err(ChatError::Message(MessageError::AlreadyExists(message_id.to_owned())));
        }
        if let Some(p) = parent {
            if !self.messages_manager.contains(p) {
                return Err(ChatError::Message(MessageError::NotFound(p.to_owned())));
            }
        }
        self.insert_linked(message_id, text, reasoning, sender, tokens, embedding, timestamp, parent);
        Ok(())
    }

    /// Stores a conversation read back from persistent storage.
    pub fn import_conversation(
        &mut self,
        conversation_id: &str,
        name: &str,
        description: Option<&str>,
        entry_message_id: Option<&str>,
    ) -> (r: Result<(), ChatError>)
        requires
            old(self).wf(),
        ensures
            final(self).wf(),
            r is Err <==> has_conv(old(self)@.convs, conversation_id@),
            r is Err ==> final(self)@ == old(self)@,
            final(self)@.messages == old(self)@.messages,
            final(self)@.edges == old(self)@.edges,
            r is Ok ==> exists|p: int|
                0 <= p <= old(self)@.convs.len() && final(self)@.convs == #[trigger] old(
                    self,
                )@.convs.insert(
                    p,
                    ConvView {
                        id: conversation_id@,
                        name: name@,
                        description: opt_str(description),
                        entry: opt_str(entry_message_id),
                    },
                ),
    {
        match self.conversation_manager.create(conversation_id, name, description, entry_message_id) {
            Ok(()) => Ok(()),
            Err(e) => Err(ChatError::Conversation(e)),
        }
    }

    /// The stored message rows, newest first, for saving.
    pub fn message_rows(&self) -> (r: &Vec<crate::messages::MessageRow>)
        ensures
            r@.map_values(|x: crate::messages::MessageRow| x@) == self@.messages,
    {
        self.messages_manager.rows()
    }

    /// The stored parent edges as (child, parent), for saving.
    pub fn relations(&self) -> (r: &Vec<(String, String)>)
        ensures
            crate::threads::edge_views(r@) == self@.edges,
    {
        self.thread_manager.relations()
    }

    /// `root` followed by every message below it, each once, level by level.
    fn subtree(&self, root: &str) -> (r: Vec<String>)
        requires
            self.wf(),
        ensures
            listing(self@.edges, root@, texts(r@)),
    {
        let ghost e = self@.edges;
        let mut ids: Vec<String> = Vec::new();
        ids.push(root.to_owned());
        proof {
            lemma_root_reachable(e, root@);
            assert(texts(ids@)[0] == root@);
            assert(texts(ids@) =~= seq![root@]);
        }
        let mut i: usize = 0;
        while i < ids.len()
            invariant
                e == self@.edges,
                self.wf(),
                i <= ids.len(),
                texts(ids@).len() >= 1,
                texts(ids@)[0] == root@,
                texts(ids@).no_duplicates(),
                forall|x: Seq<char>| #[trigger] texts(ids@).contains(x) ==> reachable(e, root@, x),
                forall|k: int| 1 <= k < texts(ids@).len() ==> has_child_edge(e, #[trigger] texts(ids@)[k]),
                forall|c: Seq<char>, k: int|
                    0 <= k < i && #[trigger] e.contains((c, texts(ids@)[k])) ==> texts(ids@).contains(c),
                ids.len() <= e.len() + 1,
            decreases e.len() + 1 - i,
        {
            let kids = self.thread_manager.get_children(ids[i].as_str());
            let ghost cur = texts(ids@)[i as int];
            proof {
                lemma_children_in(e, cur);
            }
            let mut j: usize = 0;
            while j < kids.len()
                invariant
                    e == self@.edges,
                    self.wf(),
                    i < ids.len(),
                    cur == texts(ids@)[i as int],
                    texts(kids@) == children_in(e, cur),
                    forall|x: Seq<char>| #[trigger] children_in(e, cur).contains(x) <==> e.contains((x, cur)),
                    j <= kids.len(),
                    texts(ids@).len() >= 1,
                    texts(ids@)[0] == root@,
                    texts(ids@).no_duplicates(),
                    forall|x: Seq<char>| #[trigger] texts(ids@).contains(x) ==> reachable(e, root@, x),
                    forall|k: int| 1 <= k < texts(ids@).len() ==> has_child_edge(e, #[trigger] texts(ids@)[k]),
                    forall|c: Seq<char>, k: int|
                        0 <= k < i && #[trigger] e.contains((c, texts(ids@)[k])) ==> texts(ids@).contains(c),
                    forall|jj: int| 0 <= jj < j ==> texts(ids@).contains(#[trigger] texts(kids@)[jj]),
                    ids.len() <= e.len() + 1,
                decreases kids.len() - j,
            {
                let ghost before = texts(ids@);
                let ghost c = texts(kids@)[j as int];
                assert(children_in(e, cur).contains(c));
                if !list_has(&ids, kids[j].as_str()) {
                    ids.push(kids[j].clone());
                    proof {
                        let t = texts(ids@);
                        assert(t =~= before.push(c));
                        assert(before.contains(cur));
                        lemma_path_extend(e, root@, cur, c);
                        assert forall|x: Seq<char>| #[trigger] t.contains(x) implies reachable(e, root@, x) by {
                            if x != c {
                                let k = choose|k: int| 0 <= k < t.len() && t[k] == x;
                                assert(before[k] == x);
                                assert(before.contains(x));
                            }
                        }
                        assert forall|a: int, b: int| 0 <= a < t.len() && 0 <= b < t.len() && a != b implies t[a] != t[b] by {
                            if a == before.len() {
                                assert(before.contains(before[b]));
                            } else if b == before.len() {
                                assert(before.contains(before[a]));
                            }
                        }
                        assert(has_child_edge(e, c)) by {
                            let q = choose|q: int| 0 <= q < e.len() && e[q] == (c, cur);
                            assert(e[q].0 == c);
                        }
                        assert forall|k: int| 1 <= k < t.len() implies has_child_edge(e, #[trigger] t[k]) by {
                            if k < before.len() {
                                assert(t[k] == before[k]);
                            }
                        }
                        assert forall|c2: Seq<char>, k: int|
                            0 <= k < i && #[trigger] e.contains((c2, t[k])) implies t.contains(c2) by {
                            assert(t[k] == before[k]);
                            assert(before.contains(c2));
                            let q = choose|q: int| 0 <= q < before.len() && before[q] == c2;
                            assert(t[q] == c2);
                        }
                        assert forall|jj: int| 0 <= jj < j + 1 implies t.contains(#[trigger] texts(kids@)[jj]) by {
                            if jj < j {
                                assert(before.contains(texts(kids@)[jj]));
                                let q = choose|q: int| 0 <= q < before.len() && before[q] == texts(kids@)[jj];
                                assert(t[q] == before[q]);
                            } else {
                                assert(t[before.len() as int] == c);
                            }
                        }
                        lemma_listing_bound(e, root@, t);
                    }
                }
                j = j + 1;
            }
            proof {
                let t = texts(ids@);
                assert forall|c: Seq<char>, k: int|
                    0 <= k < i + 1 && #[trigger] e.contains((c, t[k])) implies t.contains(c) by {
                    if k == i {
                        assert(children_in(e, cur).contains(c));
                        let jj = choose|jj: int| 0 <= jj < texts(kids@).len() && texts(kids@)[jj] == c;
                    }
                }
            }
            i = i + 1;
        }
        proof {
            let t = texts(ids@);
            assert forall|x: Seq<char>| #[trigger] t.contains(x) <==> reachable(e, root@, x) by {
                if reachable(e, root@, x) {
                    let path = choose|path: Seq<Seq<char>>| #[trigger] is_path(e, path) && path[0] == root@ && path.last() == x;
                    assert(t.contains(t[0]));
                    lemma_path_stays(e, t, path, path.len() - 1);
                }
            }
        }
        ids
    }

    fn conversation_entry(&self, conversation_id: &str) -> (r: Result<Option<String>, ChatError>)
        requires
            self.wf(),
        ensures
            r is Err <==> !has_conv(self@.convs, conversation_id@),
            r matches Err(e) ==> (e matches ChatError::Conversation(ConversationError::NotFound(t))
                && t@ == conversation_id@),
            r matches Ok(x) ==> crate::types::opt_text(x) == entry_of(self@, conversation_id@),
    {
        match self.conversation_manager.get(conversation_id) {
            None => Err(ChatError::Conversation(ConversationError::NotFound(conversation_id.to_owned()))),
            Some(c) => {
                proof {
                    let i = choose|i: int| 0 <= i < self@.convs.len() && self@.convs[i] == c@ && c@.id == conversation_id@;
                    lemma_conv_at(self@.convs, i);
                }
                Ok(c.entry_message_id)
            },
        }
    }

    /// Every message of a conversation's tree, root first, then level by
    /// level. A conversation without messages gives an empty list.
    pub fn get_all_message_involved(&self, conversation_id: &str) -> (r: Result<Vec<Message>, ChatError>)
        requires
            self.wf(),
        ensures
            involved_post(self@, conversation_id@, r),
    {
        let root = match self.conversation_entry(conversation_id)? {
            None => return Ok(Vec::new()),
            Some(root) => root,
        };
        let ids = self.subtree(root.as_str());
        let ghost v = self@;
        let ghost t = texts(ids@);
        let mut out: Vec<Message> = Vec::new();
        let mut k: usize = 0;
        while k < ids.len()
            invariant
                v == self@,
                self.wf(),
                has_conv(v.convs, conversation_id@),
                entry_of(v, conversation_id@) == Some(root@),
                t == texts(ids@),
                listing(v.edges, root@, t),
                k <= ids.len(),
                out@.len() == k,
                forall|q: int|
                    0 <= q < k ==> (#[trigger] out@[q])@.id == t[q] && has_id(v.messages, t[q])
                        && message_of(msg_row(v.messages, t[q])) == Some(out@[q]@),
            decreases ids.len() - k,
        {
            match self.messages_manager.get(ids[k].as_str()) {
                Ok(m) => {
                    proof {
                        let i = choose|i: int|
                            0 <= i < v.messages.len() && v.messages[i].id == t[k as int] && message_of(v.messages[i]) == Some(m@);
                        lemma_msg_row(v.messages, i);
                    }
                    out.push(m);
                },
                Err(e) => {
                    proof {
                        if let MessageError::InvalidRole(_) = &e {
                            let i = choose|i: int|
                                0 <= i < v.messages.len() && v.messages[i].id == t[k as int] && message_of(v.messages[i]).is_none();
                            lemma_msg_row(v.messages, i);
                        }
                        lemma_unreadable(v, root@, t, k as int);
                    }
                    return Err(ChatError::Message(e));
                },
            }
            k = k + 1;
        }
        proof {
            lemma_all_read(v, root@, t, out@);
        }
        Ok(out)
    }

    /// A conversation's tree flattened: one item per message, root first,
    /// each with its parent and children. A conversation without messages
    /// gives an empty list.
    pub fn get_thread_tree(&self, conversation_id: &str) -> (r: Result<Vec<ThreadTreeItem>, ChatError>)
        requires
            self.wf(),
        ensures
            tree_post(self@, conversation_id@, r),
    {
        let root = match self.conversation_entry(conversation_id)? {
            None => return Ok(Vec::new()),
            Some(root) => root,
        };
        let ids = self.subtree(root.as_str());
        let ghost v = self@;
        let ghost t = texts(ids@);
        let mut out: Vec<ThreadTreeItem> = Vec::new();
        let mut k: usize = 0;
        while k < ids.len()
            invariant
                v == self@,
                self.wf(),
                t == texts(ids@),
                k <= ids.len(),
                out@.len() == k,
                forall|q: int|
                    0 <= q < k ==> (#[trigger] out@[q])@.key == t[q] && out@[q]@.parent == parent_of(v.edges, t[q])
                        && out@[q]@.children == children_in(v.edges, t[q]),
            decreases ids.len() - k,
        {
            let key = ids[k].clone();
            let parent = self.thread_manager.get_parent(key.as_str());
            let children = self.thread_manager.get_children(key.as_str());
            proof {
                match &parent {
                    Some(p) => {
                        let i = choose|i: int| 0 <= i < v.edges.len() && v.edges[i] == (key@, p@) && forall|j: int|
                            0 <= j < i ==> (#[trigger] v.edges[j]).0 != key@;
                        assert(v.edges.contains((key@, p@)));
                        lemma_parent_of(v.edges, key@, p@);
                    },
                    None => {
                        assert forall|p: Seq<char>| !v.edges.contains((key@, p)) by {
                            if v.edges.contains((key@, p)) {
                                let i = choose|i: int| 0 <= i < v.edges.len() && v.edges[i] == (key@, p);
                                assert(v.edges[i].0 == key@);
                            }
                        }
                    },
                }
            }
            out.push(ThreadTreeItem { key, parent, children });
            k = k + 1;
        }
        proof {
            let iv = item_views(out@);
            assert(iv.map_values(|x: ItemView| x.key) =~= t);
            assert forall|q: int| 0 <= q < iv.len() implies (#[trigger] iv[q]).parent == parent_of(v.edges, iv[q].key)
                && iv[q].children == children_in(v.edges, iv[q].key) by {
                assert(out@[q]@.key == t[q]);
            }
        }
        Ok(out)
    }

    /// The message of the given id.
    pub fn get_message(&self, message_id: &str) -> (r: Result<Message, ChatError>)
        requires
            self.wf(),
        ensures
            get_message_post(self@, message_id@, r),
    {
        let ghost v = self@;
        match self.messages_manager.get(message_id) {
            Ok(m) => {
                proof {
                    let i = choose|i: int|
                        0 <= i < v.messages.len() && v.messages[i].id == message_id@ && message_of(v.messages[i]) == Some(m@);
                    lemma_msg_row(v.messages, i);
                }
                Ok(m)
            },
            Err(e) => {
                proof {
                    if let MessageError::InvalidRole(_) = &e {
                        let i = choose|i: int|
                            0 <= i < v.messages.len() && v.messages[i].id == message_id@ && message_of(v.messages[i]).is_none();
                        lemma_msg_row(v.messages, i);
                    }
                }
                Err(ChatError::Message(e))
            },
        }
    }

    /// Replaces a message's text; the tree is not touched. No such message is no change.
    pub fn update_message(&mut self, message_id: &str, new_text: &str) -> (r: Result<(), ChatError>)
        requires
            old(self).wf(),
        ensures
            final(self).wf(),
            r is Ok,
            rows_updated(
                old(self)@.messages,
                final(self)@.messages,
                message_id@,
                text_set(new_text@),
            ),
            final(self)@.edges == old(self)@.edges,
            final(self)@.convs == old(self)@.convs,
    {
        proof {
            self.lemma_stores();
        }
        let ghost v = self@;
        self.messages_manager.update_text(message_id, new_text);
        proof {
            self.lemma_same_ids(v);
        }
        Ok(())
    }

    /// Replaces a message's reasoning trace; no such message is no change.
    pub fn update_reasoning(&mut self, message_id: &str, reasoning: &str) -> (r: Result<(), ChatError>)
        requires
            old(self).wf(),
        ensures
            final(self).wf(),
            r is Ok,
            rows_updated(
                old(self)@.messages,
                final(self)@.messages,
                message_id@,
                |x: RowView| RowView { reasoning: Some(reasoning@), ..x },
            ),
            final(self)@.edges == old(self)@.edges,
            final(self)@.convs == old(self)@.convs,
    {
        proof {
            self.lemma_stores();
        }
        let ghost v = self@;
        self.messages_manager.update_reasoning(message_id, reasoning);
        proof {
            self.lemma_same_ids(v);
        }
        Ok(())
    }

    proof fn lemma_same_ids(&self, v: ChatView)
        requires
            chat_ok(v),
            ids_unique(self@.messages),
            by_time_desc(self@.messages),
            self@.edges == v.edges,
            self@.convs == v.convs,
            self@.messages.len() == v.messages.len(),
            forall|i: int| 0 <= i < v.messages.len() ==> (#[trigger] self@.messages[i]).id == v.messages[i].id,
        ensures
            self.wf(),
    {
        assert forall|e: Edge| #[trigger] self@.edges.contains(e) implies has_id(self@.messages, e.0)
            && has_id(self@.messages, e.1) by {
            let a = choose|i: int| 0 <= i < v.messages.len() && (#[trigger] v.messages[i]).id == e.0;
            let b = choose|i: int| 0 <= i < v.messages.len() && (#[trigger] v.messages[i]).id == e.1;
            assert(self@.messages[a].id == e.0);
            assert(self@.messages[b].id == e.1);
        }
    }

    /// The conversation of the given id.
    pub fn get_conversation(&self, conversation_id: &str) -> (r: Option<Conversation>)
        requires
            self.wf(),
        ensures
            r is None <==> !has_conv(self@.convs, conversation_id@),
            r matches Some(c) ==> c@ == conv_at(self@.convs, conversation_id@),
    {
        let r = self.conversation_manager.get(conversation_id);
        proof {
            if let Some(c) = &r {
                let i = choose|i: int| 0 <= i < self@.convs.len() && self@.convs[i] == c@ && c@.id == conversation_id@;
                lemma_conv_at(self@.convs, i);
            }
        }
        r
    }

    /// Every conversation, in name order.
    pub fn list_conversations(&self) -> (r: Result<Vec<Conversation>, ChatError>)
        requires
            self.wf(),
        ensures
            r matches Ok(v) && v@.map_values(|c: Conversation| c@) == self@.convs,
    {
        Ok(self.conversation_manager.list())
    }

    /// Renames a conversation; no such conversation is no change.
    pub fn update_conversation_name(&mut self, conversation_id: &str, name: &str)
        requires
            old(self).wf(),
        ensures
            final(self).wf(),
            final(self)@.messages == old(self)@.messages,
            final(self)@.edges == old(self)@.edges,
            conv_moved(old(self)@.convs, final(self)@.convs, conversation_id@,
                ConvView { name: name@, ..conv_at(old(self)@.convs, conversation_id@) }),
    {
        self.conversation_manager.update_name(conversation_id, name);
    }

    /// Sets a conversation's description; no such conversation is no change.
    pub fn update_conversation_description(&mut self, conversation_id: &str, description: &str)
        requires
            old(self).wf(),
        ensures
            final(self).wf(),
            final(self)@.messages == old(self)@.messages,
            final(self)@.edges == old(self)@.edges,
            conv_moved(old(self)@.convs, final(self)@.convs, conversation_id@,
                ConvView { description: Some(description@), ..conv_at(old(self)@.convs, conversation_id@) }),
    {
        self.conversation_manager.update_description(conversation_id, description);
    }

    /// Points a conversation at a new root message; no such conversation is no change.
    pub fn update_conversation_entry_id(&mut self, conversation_id: &str, message_id: Option<&str>)
        requires
            old(self).wf(),
        ensures
            final(self).wf(),
            final(self)@.messages == old(self)@.messages,
            final(self)@.edges == old(self)@.edges,
            conv_moved(old(self)@.convs, final(self)@.convs, conversation_id@,
                ConvView { entry: opt_str(message_id), ..conv_at(old(self)@.convs, conversation_id@) }),
    {
        self.conversation_manager.update_entry_message_id(conversation_id, message_id);
    }

    /// Removes a message and, as the schema's cascade does, every edge that
    /// names it.
    fn remove_message(&mut self, id: &str)
        requires
            old(self).wf(),
        ensures
            final(self).wf(),
            rows_kept(old(self)@.messages, final(self)@.messages, |x: Seq<char>| x == id@),
            forall|e: Edge|
                #[trigger] final(self)@.edges.contains(e) <==> old(self)@.edges.contains(e) && e.0 != id@
                    && e.1 != id@,
            final(self)@.convs == old(self)@.convs,
    {
        proof {
            self.lemma_stores();
        }
        let ghost v = self@;
        let ghost d = choose|d: spec_fn(Seq<char>) -> nat| ranked(v.edges, d);
        self.messages_manager.delete(id);
        self.thread_manager.delete_with_child(id);
        let ghost mid = self@.edges;
        self.thread_manager.delete_with_parent(id);
        proof {
            lemma_row_removed(v.messages, self@.messages, id@);
            lemma_without(v.edges, Some(id@), None);
            lemma_without(mid, None, Some(id@));
            assert forall|e: Edge| #[trigger] self@.edges.contains(e) <==> v.edges.contains(e) && e.0 != id@
                && e.1 != id@ by {
                assert(self@.edges == without(mid, None, Some(id@)));
                assert(mid == without(v.edges, Some(id@), None));
            }
            assert(ranked(self@.edges, d));
            assert forall|e: Edge| #[trigger] self@.edges.contains(e) implies has_id(self@.messages, e.0)
                && has_id(self@.messages, e.1) by {
                assert(v.edges.contains(e));
            }
            assert forall|a: Edge, b: Edge|
                #![trigger self@.edges.contains(a), self@.edges.contains(b)]
                self@.edges.contains(a) && self@.edges.contains(b) && a.0 == b.0 implies a == b by {
                assert(v.edges.contains(a) && v.edges.contains(b));
            }
        }
    }

    /// Deletes a message.
    ///
    /// Recursive: the message and every message below it go. If it was a
    /// root, the first conversation rooted at it is left with no root.
    ///
    /// Not recursive: the message goes and the tree closes around it. Its
    /// children move to its parent; a root with one child hands the root to
    /// that child; a root with no children leaves its conversation empty; a
    /// root with several children is refused, as there is no single new root.
    ///
    /// Returns the parent the message had, if any (always `None` when
    /// recursive).
    pub fn delete_message(&mut self, message_id: &str, recursive: bool) -> (r: Result<Option<String>, ChatError>)
        requires
            old(self).wf(),
        ensures
            final(self).wf(),
            r is Err ==> final(self)@ == old(self)@,
            !has_id(old(self)@.messages, message_id@) ==> (r matches Err(e) && e matches ChatError::Message(
                MessageError::NotFound(t),
            ) && t@ == message_id@),
            has_id(old(self)@.messages, message_id@) ==> delete_outcome(
                old(self)@,
                final(self)@,
                message_id@,
                recursive,
                r,
            ),
    {
        proof {
            self.lemma_stores();
        }
        if !self.messages_manager.contains(message_id) {
            return Err(ChatError::Message(MessageError::NotFound(message_id.to_owned())));
        }
        if recursive {
            self.delete_subtree(message_id)
        } else {
            self.delete_single(message_id)
        }
    }

    /// Clears or hands on the root of the first conversation rooted at `id`.
    fn move_owner(&mut self, id: &str, entry: Option<&str>) -> (r: Result<(), ChatError>)
        requires
            old(self).wf(),
        ensures
            final(self).wf(),
            final(self)@.messages == old(self)@.messages,
            final(self)@.edges == old(self)@.edges,
            r is Err <==> !owned(old(self)@.convs, id@),
            r matches Err(e) ==> (e matches ChatError::Conversation(ConversationError::NotFound(t)) && t@ == id@),
            r is Err ==> final(self)@ == old(self)@,
            r is Ok ==> owner_moved(old(self)@.convs, final(self)@.convs, id@, opt_str(entry)),
    {
        let ghost o = self@;
        match self.conversation_manager.get_by_entry_id(id) {
            None => {
                proof {
                    assert forall|i: int| 0 <= i < o.convs.len() implies (#[trigger] o.convs[i]).entry != Some(id@) by {}
                }
                Err(ChatError::Conversation(ConversationError::NotFound(id.to_owned())))
            },
            Some(c) => {
                let ghost i = choose|i: int|
                    0 <= i < o.convs.len() && o.convs[i] == c@ && c@.entry == Some(id@) && forall|j: int|
                        0 <= j < i ==> (#[trigger] o.convs[j]).entry != Some(id@);
                proof {
                    lemma_conv_at(o.convs, i);
                    assert(first_owner(o.convs, id@, i));
                }
                self.conversation_manager.update_entry_message_id(c.id.as_str(), entry);
                Ok(())
            },
        }
    }

    fn delete_subtree(&mut self, message_id: &str) -> (r: Result<Option<String>, ChatError>)
        requires
            old(self).wf(),
            has_id(old(self)@.messages, message_id@),
        ensures
            final(self).wf(),
            r is Err ==> final(self)@ == old(self)@,
            subtree_deleted(old(self)@, final(self)@, message_id@, r),
    {
        let ghost o = self@;
        let ids = self.subtree(message_id);
        let ghost t = texts(ids@);
        let parent = self.thread_manager.get_parent(message_id);
        if parent.is_none() {
            self.move_owner(message_id, None)?;
        }
        self.remove_all(&ids);
        proof {
            assert forall|x: Seq<char>| #[trigger] has_id(self@.messages, x) <==> has_id(o.messages, x)
                && !reachable(o.edges, message_id@, x) by {
                assert(t.contains(x) <==> reachable(o.edges, message_id@, x));
            }
            assert forall|e: Edge| #[trigger] self@.edges.contains(e) <==> o.edges.contains(e) && !reachable(
                o.edges,
                message_id@,
                e.0,
            ) && !reachable(o.edges, message_id@, e.1) by {
                assert(t.contains(e.0) <==> reachable(o.edges, message_id@, e.0));
                assert(t.contains(e.1) <==> reachable(o.edges, message_id@, e.1));
            }
        }
        Ok(None)
    }

    /// Moves every child of `id` under `p`, the parent of `id`.
    fn splice(&mut self, id: &str, p: &str, kids: &Vec<String>)
        requires
            old(self).wf(),
            old(self)@.edges.contains((id@, p@)),
            texts(kids@) == children_in(old(self)@.edges, id@),
        ensures
            final(self).wf(),
            final(self)@.messages == old(self)@.messages,
            final(self)@.convs == old(self)@.convs,
            forall|e: Edge|
                #[trigger] final(self)@.edges.contains(e) <==> (old(self)@.edges.contains(e) && e.1 != id@) || (e.1
                    == p@ && old(self)@.edges.contains((e.0, id@))),
    {
        let ghost o = self@;
        let ghost d = choose|d: spec_fn(Seq<char>) -> nat| ranked(o.edges, d);
        let ghost kv = texts(kids@);
        proof {
            lemma_children_in(o.edges, id@);
        }
        let mut j: usize = 0;
        while j < kids.len()
            invariant
                self.wf(),
                ranked(o.edges, d),
                one_parent(o.edges),
                edges_resolve(o),
                o.edges.contains((id@, p@)),
                kv == texts(kids@),
                forall|x: Seq<char>| #[trigger] kv.contains(x) <==> o.edges.contains((x, id@)),
                j <= kids.len(),
                self@.messages == o.messages,
                self@.convs == o.convs,
                ranked(self@.edges, d),
                forall|e: Edge|
                    #[trigger] self@.edges.contains(e) <==> (o.edges.contains(e) && !(e.1 == id@ && kv.take(j as int).contains(e.0)))
                        || (e.1 == p@ && kv.take(j as int).contains(e.0)),
            decreases kids.len() - j,
        {
            let ghost cur = self@.edges;
            let ghost c = kv[j as int];
            proof {
                self.lemma_stores();
                assert(kv.contains(c));
                assert(o.edges.contains((c, id@)));
                if kv.take(j as int).contains(c) {
                    assert(cur.contains((c, p@)));
                    let q = choose|q: int| 0 <= q < cur.len() && cur[q] == (c, p@);
                    assert(cur[q].0 == c);
                } else {
                    assert(cur.contains((c, id@)));
                    let q = choose|q: int| 0 <= q < cur.len() && cur[q] == (c, id@);
                    assert(cur[q].0 == c);
                }
                assert(has_child_edge(cur, c));
            }
            self.thread_manager.update_parent(kids[j].as_str(), Some(p));
            proof {
                lemma_without(cur, Some(c), None);
                let w = without(cur, Some(c), None);
                assert(self@.edges == w.push((c, p@)));
                assert forall|e: Edge| #[trigger] self@.edges.contains(e) <==> (w.contains(e) || e == (c, p@)) by {
                    if self@.edges.contains(e) {
                        let q = choose|q: int| 0 <= q < self@.edges.len() && self@.edges[q] == e;
                        if q < w.len() {
                            assert(w[q] == e);
                        }
                    }
                    if w.contains(e) {
                        let q = choose|q: int| 0 <= q < w.len() && w[q] == e;
                        assert(self@.edges[q] == e);
                    }
                    if e == (c, p@) {
                        assert(self@.edges[w.len() as int] == e);
                    }
                }
                lemma_take_next(kv, j as int);
                assert forall|e: Edge| #[trigger] self@.edges.contains(e) <==> (o.edges.contains(e) && !(e.1 == id@
                    && kv.take(j + 1).contains(e.0))) || (e.1 == p@ && kv.take(j + 1).contains(e.0)) by {
                    if e.0 == c && o.edges.contains(e) {
                        assert(o.edges.contains((c, id@)));
                        assert(e == (c, id@));
                    }
                }
                assert(d(c) > d(id@) && d(id@) > d(p@));
                assert(ranked(self@.edges, d));
                assert forall|e: Edge| #[trigger] self@.edges.contains(e) implies has_id(self@.messages, e.0)
                    && has_id(self@.messages, e.1) by {
                    if e == (c, p@) {
                        assert(o.edges.contains((c, id@)));
                        assert(o.edges.contains((id@, p@)));
                    } else {
                        assert(cur.contains(e));
                    }
                }
                assert forall|a: Edge, b: Edge|
                    #![trigger self@.edges.contains(a), self@.edges.contains(b)]
                    self@.edges.contains(a) && self@.edges.contains(b) && a.0 == b.0 implies a == b by {
                    if a != (c, p@) && b != (c, p@) {
                        assert(cur.contains(a) && cur.contains(b));
                    }
                }
            }
            j = j + 1;
        }
        proof {
            assert(kv.take(kv.len() as int) =~= kv);
        }
    }

    fn delete_single(&mut self, message_id: &str) -> (r: Result<Option<String>, ChatError>)
        requires
            old(self).wf(),
            has_id(old(self)@.messages, message_id@),
        ensures
            final(self).wf(),
            r is Err ==> final(self)@ == old(self)@,
            single_deleted(old(self)@, final(self)@, message_id@, r),
    {
        let ghost o = self@;
        let ghost d = choose|d: spec_fn(Seq<char>) -> nat| ranked(o.edges, d);
        let parent = self.thread_manager.get_parent(message_id);
        let kids = self.thread_manager.get_children(message_id);
        proof {
            lemma_children_in(o.edges, message_id@);
            assert(texts(kids@).len() == kids.len());
        }
        match &parent {
            Some(p) => {
                proof {
                    let i = choose|i: int| 0 <= i < o.edges.len() && o.edges[i] == (message_id@, p@) && forall|j: int|
                        0 <= j < i ==> (#[trigger] o.edges[j]).0 != message_id@;
                    assert(o.edges.contains((message_id@, p@)));
                    lemma_parent_of(o.edges, message_id@, p@);
                }
                self.splice(message_id, p.as_str(), &kids);
            },
            None => {
                proof {
                    assert forall|q: Seq<char>| !o.edges.contains((message_id@, q)) by {
                        if o.edges.contains((message_id@, q)) {
                            let i = choose|i: int| 0 <= i < o.edges.len() && o.edges[i] == (message_id@, q);
                            assert(o.edges[i].0 == message_id@);
                        }
                    }
                }
                if kids.len() >= 2 {
                    return Err(
                        ChatError::Conversation(
                            ConversationError::InvalidOperation(
                                String::from_str("cannot delete a root message that has several children"),
                            ),
                        ),
                    );
                }
                if kids.len() == 1 {
                    self.move_owner(message_id, Some(kids[0].as_str()))?;
                    assert(texts(kids@)[0] == kids@[0]@);
                } else {
                    self.move_owner(message_id, None)?;
                }
            },
        }
        self.remove_message(message_id);
        proof {
            assert(ranked(o.edges, d));
            if let Some(p) = &parent {
                assert(o.edges.contains((message_id@, p@)));
                assert(p@ != message_id@);
                assert forall|e: Edge| #[trigger] self@.edges.contains(e) <==> (o.edges.contains(e) && e.0 != message_id@
                    && e.1 != message_id@) || (e.1 == p@ && o.edges.contains((e.0, message_id@))) by {
                    if e.1 == p@ && o.edges.contains((e.0, message_id@)) {
                        assert(e.0 != message_id@);
                    }
                }
            }
        }
        Ok(parent)
    }

    /// Removes every message that `ids` names, with the edges that name them.
    fn remove_all(&mut self, ids: &Vec<String>)
        requires
            old(self).wf(),
        ensures
            final(self).wf(),
            final(self)@.convs == old(self)@.convs,
            rows_kept(old(self)@.messages, final(self)@.messages, |x: Seq<char>| texts(ids@).contains(x)),
            forall|e: Edge|
                #[trigger] final(self)@.edges.contains(e) <==> old(self)@.edges.contains(e) && !texts(ids@).contains(e.0)
                    && !texts(ids@).contains(e.1),
    {
        let ghost o = self@;
        let ghost t = texts(ids@);
        let mut k: usize = 0;
        while k < ids.len()
            invariant
                self.wf(),
                t == texts(ids@),
                k <= ids.len(),
                self@.convs == o.convs,
                rows_kept(o.messages, self@.messages, |x: Seq<char>| t.take(k as int).contains(x)),
                forall|e: Edge|
                    #[trigger] self@.edges.contains(e) <==> o.edges.contains(e) && !t.take(k as int).contains(e.0)
                        && !t.take(k as int).contains(e.1),
            decreases ids.len() - k,
        {
            let ghost cur = self@;
            self.remove_message(ids[k].as_str());
            proof {
                lemma_take_next(t, k as int);
                assert forall|x: Seq<char>| #[trigger] has_id(self@.messages, x) implies msg_row(self@.messages, x)
                    == msg_row(o.messages, x) by {
                    assert(has_id(cur.messages, x));
                }
            }
            k = k + 1;
        }
        proof {
            assert(t.take(t.len() as int) =~= t);
        }
    }

    /// Deletes a conversation, then, best effort, every message of the tree
    /// it was rooted at. A conversation that does not exist is no error.
    pub fn delete_conversation(&mut self, conversation_id: &str) -> (r: Result<(), ChatError>)
        requires
            old(self).wf(),
        ensures
            final(self).wf(),
            r is Ok,
            has_conv(old(self)@.convs, conversation_id@) ==> exists|i: int|
                0 <= i < old(self)@.convs.len() && old(self)@.convs[i].id == conversation_id@ && final(self)@.convs
                    == old(self)@.convs.remove(i),
            !has_conv(old(self)@.convs, conversation_id@) ==> final(self)@.convs == old(self)@.convs,
            match entry_of(old(self)@, conversation_id@) {
                Some(root) => {
                    &&& rows_kept(
                        old(self)@.messages,
                        final(self)@.messages,
                        |x: Seq<char>| reachable(old(self)@.edges, root, x),
                    )
                    &&& forall|e: Edge|
                        #[trigger] final(self)@.edges.contains(e) <==> old(self)@.edges.contains(e)
                            && !reachable(old(self)@.edges, root, e.0) && !reachable(old(self)@.edges, root, e.1)
                },
                None => final(self)@.messages == old(self)@.messages && final(self)@.edges == old(self)@.edges,
            },
    {
        proof {
            self.lemma_stores();
        }
        let ghost o = self@;
        let entry = match self.conversation_entry(conversation_id) {
            Ok(e) => e,
            Err(_) => None,
        };
        self.conversation_manager.delete(conversation_id);
        if let Some(root) = entry {
            let ids = self.subtree(root.as_str());
            self.remove_all(&ids);
            proof {
                let t = texts(ids@);
                assert forall|x: Seq<char>| #[trigger] has_id(self@.messages, x) <==> has_id(o.messages, x)
                    && !reachable(o.edges, root@, x) by {
                    assert(t.contains(x) <==> reachable(o.edges, root@, x));
                }
                assert forall|e: Edge| #[trigger] self@.edges.contains(e) <==> o.edges.contains(e) && !reachable(
                    o.edges,
                    root@,
                    e.0,
                ) && !reachable(o.edges, root@, e.1) by {
                    assert(t.contains(e.0) <==> reachable(o.edges, root@, e.0));
                    assert(t.contains(e.1) <==> reachable(o.edges, root@, e.1));
                }
            }
        }
        Ok(())
    }
}


/// A conversation that has no messages reads as empty: both its message
/// list and its flattened tree are empty lists, not errors.
pub proof fn lemma_empty_conversation_reads_empty(
    v: ChatView,
    conversation_id: Seq<char>,
    messages: Result<Vec<Message>, ChatError>,
    tree: Result<Vec<ThreadTreeItem>, ChatError>,
)
    requires
        chat_ok(v),
        has_conv(v.convs, conversation_id),
        (entry_of(v, conversation_id) is None),
        involved_post(v, conversation_id, messages),
        tree_post(v, conversation_id, tree),
    ensures
        messages matches Ok(x) && x.len() == 0,
        tree matches Ok(x) && x.len() == 0,
{
}

/// Adding a message without a parent makes it the conversation's root; the
/// earlier root is no longer among the conversation's messages.
pub proof fn lemma_new_root_hides_old_tree(
    o: ChatView,
    n: ChatView,
    conversation_id: Seq<char>,
    message_id: Seq<char>,
    text: Seq<char>,
    reasoning: Option<Seq<char>>,
    sender: Seq<char>,
    timestamp: i64,
    old_root: Seq<char>,
    listed: Result<Vec<Message>, ChatError>,
)
    requires
        chat_ok(o),
        chat_ok(n),
        add_message_post(o, n, conversation_id, message_id, text, reasoning, sender, None, timestamp, Ok(())),
        entry_of(o, conversation_id) == Some(old_root),
        has_id(o.messages, old_root),
        involved_post(n, conversation_id, listed),
    ensures
        entry_of(n, conversation_id) == Some(message_id),
        listed matches Ok(x) ==> forall|k: int| 0 <= k < x.len() ==> (#[trigger] x@[k])@.id != old_root,
{
    let moved = ConvView { entry: Some(message_id), ..conv_at(o.convs, conversation_id) };
    let (i, p) = choose|i: int, p: int|
        0 <= i < o.convs.len() && o.convs[i].id == conversation_id && 0 <= p < o.convs.len() && n.convs
            == #[trigger] o.convs.remove(i).insert(p, moved);
    assert(n.convs[p].id == conversation_id);
    lemma_conv_at(n.convs, p);
    assert(old_root != message_id);
    if reachable(n.edges, message_id, old_root) {
        let path = choose|path: Seq<Seq<char>>| #[trigger] is_path(n.edges, path) && path[0] == message_id && path.last() == old_root;
        assert(path.len() >= 2);
        assert(o.edges.contains((path[1], path[0])));
    }
    if let Ok(x) = listed {
        let keys = message_views(x@).map_values(|m: MessageView| m.id);
        assert forall|k: int| 0 <= k < x.len() implies (#[trigger] x@[k])@.id != old_root by {
            assert(keys[k] == x@[k]@.id);
            assert(keys.contains(keys[k]));
        }
    }
}

/// A message reads back with the text, reasoning, role and time it was
/// added with.
pub proof fn lemma_add_then_get(
    o: ChatView,
    n: ChatView,
    conversation_id: Seq<char>,
    message_id: Seq<char>,
    text: Seq<char>,
    reasoning: Option<Seq<char>>,
    sender: Seq<char>,
    parent: Option<Seq<char>>,
    timestamp: i64,
    got: Result<Message, ChatError>,
)
    requires
        chat_ok(o),
        chat_ok(n),
        add_message_post(o, n, conversation_id, message_id, text, reasoning, sender, parent, timestamp, Ok(())),
        (role_of_text(sender) is Some),
        get_message_post(n, message_id, got),
    ensures
        got matches Ok(m) && m@.id == message_id && m@.text == text && m@.reasoning == reasoning && Some(
            m@.sender,
        ) == role_of_text(sender) && m@.timestamp == timestamp,
{
    let p = choose|p: int|
        0 <= p <= o.messages.len() && n.messages == #[trigger] o.messages.insert(
            p,
            new_row(message_id, text, reasoning, sender, None, None, timestamp),
        );
    assert(n.messages[p].id == message_id);
    lemma_msg_row(n.messages, p);
}

/// Replacing a message's text changes its text and nothing else: id,
/// reasoning, role and time stay as they were.
pub proof fn lemma_update_then_get(
    o: ChatView,
    n: ChatView,
    message_id: Seq<char>,
    text: Seq<char>,
    before: Result<Message, ChatError>,
    after: Result<Message, ChatError>,
)
    requires
        chat_ok(o),
        chat_ok(n),
        rows_updated(o.messages, n.messages, message_id, text_set(text)),
        get_message_post(o, message_id, before),
        (before is Ok),
        get_message_post(n, message_id, after),
    ensures
        (after matches Ok(m) && m@ == (MessageView { text: text, ..before->Ok_0@ })),
{
    let i = choose|i: int| 0 <= i < o.messages.len() && (#[trigger] o.messages[i]).id == message_id;
    lemma_msg_row(o.messages, i);
    assert(n.messages[i] == RowView { text: text, ..o.messages[i] });
    lemma_msg_row(n.messages, i);
}

/// In a flattened tree every child named by an item is the key of exactly
/// one other item.
pub proof fn lemma_tree_children_are_keys(
    v: ChatView,
    conversation_id: Seq<char>,
    tree: Result<Vec<ThreadTreeItem>, ChatError>,
)
    requires
        chat_ok(v),
        tree_post(v, conversation_id, tree),
        (tree is Ok),
    ensures
        ({
            let items = item_views(tree->Ok_0@);
            &&& forall|i: int, j: int|
                0 <= i < items.len() && 0 <= j < items[i].children.len() ==> exists|k: int|
                    0 <= k < items.len() && k != i && (#[trigger] items[k]).key == (#[trigger] items[i].children[j])
            &&& forall|k1: int, k2: int|
                0 <= k1 < items.len() && 0 <= k2 < items.len() && (#[trigger] items[k1]).key == (#[trigger] items[k2]).key
                    ==> k1 == k2
        }),
{
    let items = item_views(tree->Ok_0@);
    if items.len() > 0 {
        let root = entry_of(v, conversation_id)->Some_0;
        let keys = items.map_values(|t: ItemView| t.key);
        let d = choose|d: spec_fn(Seq<char>) -> nat| ranked(v.edges, d);
        assert forall|i: int, j: int|
            0 <= i < items.len() && 0 <= j < items[i].children.len() implies exists|k: int|
                0 <= k < items.len() && k != i && (#[trigger] items[k]).key == (#[trigger] items[i].children[j]) by {
            let x = items[i].key;
            let c = items[i].children[j];
            lemma_children_in(v.edges, x);
            assert(children_in(v.edges, x).contains(c));
            assert(keys[i] == x);
            assert(keys.contains(x));
            lemma_path_extend(v.edges, root, x, c);
            assert(keys.contains(c));
            let k = choose|k: int| 0 <= k < keys.len() && keys[k] == c;
            assert(d(c) > d(x));
            assert(items[k].key == c);
        }
        assert forall|k1: int, k2: int|
            0 <= k1 < items.len() && 0 <= k2 < items.len() && (#[trigger] items[k1]).key == (#[trigger] items[k2]).key
                implies k1 == k2 by {
            assert(keys[k1] == items[k1].key && keys[k2] == items[k2].key);
        }
    }
}

} // verus!
