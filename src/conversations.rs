use vstd::prelude::*;

use crate::types::{copy_opt_text, opt_text, text_eq};

verus! {

/// Lexicographic order on texts, character by character.
pub open spec fn text_lt(a: Seq<char>, b: Seq<char>) -> bool
    decreases a.len(),
{
    if a.len() == 0 {
        b.len() > 0
    } else if b.len() == 0 {
        false
    } else if a[0] != b[0] {
        (a[0] as u32) < (b[0] as u32)
    } else {
        text_lt(a.drop_first(), b.drop_first())
    }
}

pub proof fn lemma_text_lt_transitive(a: Seq<char>, b: Seq<char>, c: Seq<char>)
    requires
        text_lt(a, b),
        text_lt(b, c),
    ensures
        text_lt(a, c),
    decreases a.len(),
{
    if a.len() > 0 && b.len() > 0 && c.len() > 0 {
        if a[0] == b[0] && b[0] == c[0] {
            lemma_text_lt_transitive(a.drop_first(), b.drop_first(), c.drop_first());
        }
    }
}

pub proof fn lemma_text_lt_irreflexive(a: Seq<char>)
    ensures
        !text_lt(a, a),
    decreases a.len(),
{
    if a.len() > 0 {
        lemma_text_lt_irreflexive(a.drop_first());
    }
}

/// Compares two texts in the order of [`text_lt`].
pub fn text_less(a: &str, b: &str) -> (r: bool)
    ensures
        r == text_lt(a@, b@),
{
    let n = a.unicode_len();
    let m = b.unicode_len();
    let mut i: usize = 0;
    assert(a@.subrange(0, n as int) =~= a@);
    assert(b@.subrange(0, m as int) =~= b@);
    while i < n && i < m
        invariant
            n == a@.len(),
            m == b@.len(),
            i <= n,
            i <= m,
            text_lt(a@, b@) == text_lt(a@.subrange(i as int, n as int), b@.subrange(i as int, m as int)),
        decreases n - i,
    {
        let x = a.get_char(i);
        let y = b.get_char(i);
        let ghost sa = a@.subrange(i as int, n as int);
        let ghost sb = b@.subrange(i as int, m as int);
        assert(sa[0] == x && sb[0] == y);
        if x != y {
            return (x as u32) < (y as u32);
        }
        assert(sa.drop_first() =~= a@.subrange(i + 1, n as int));
        assert(sb.drop_first() =~= b@.subrange(i + 1, m as int));
        i = i + 1;
    }
    i == n && i < m
}

/// A conversation: its name, an optional description and the root of its
/// message tree, once there is one.
#[derive(Debug, Clone)]
pub struct Conversation {
    pub id: String,
    pub name: String,
    pub description: Option<String>,
    pub entry_message_id: Option<String>,
}

pub struct ConvView {
    pub id: Seq<char>,
    pub name: Seq<char>,
    pub description: Option<Seq<char>>,
    pub entry: Option<Seq<char>>,
}

impl View for Conversation {
    type V = ConvView;

    open spec fn view(&self) -> ConvView {
        ConvView {
            id: self.id@,
            name: self.name@,
            description: opt_text(self.description),
            entry: opt_text(self.entry_message_id),
        }
    }
}

impl Conversation {
    pub fn copy(&self) -> (r: Conversation)
        ensures
            r@ == self@,
    {
        Conversation {
            id: self.id.clone(),
            name: self.name.clone(),
            description: copy_opt_text(&self.description),
            entry_message_id: copy_opt_text(&self.entry_message_id),
        }
    }
}

pub open spec fn has_conv(s: Seq<ConvView>, id: Seq<char>) -> bool {
    exists|i: int| 0 <= i < s.len() && (#[trigger] s[i]).id == id
}

pub open spec fn conv_ids_unique(s: Seq<ConvView>) -> bool {
    forall|i: int, j: int| 0 <= i < j < s.len() ==> (#[trigger] s[i]).id != (#[trigger] s[j]).id
}

pub open spec fn by_name(s: Seq<ConvView>) -> bool {
    forall|i: int, j: int| 0 <= i < j < s.len() ==> !text_lt((#[trigger] s[j]).name, (#[trigger] s[i]).name)
}

/// The conversation of the given id, when there is one.
pub open spec fn conv_at(s: Seq<ConvView>, id: Seq<char>) -> ConvView {
    s[choose|i: int| 0 <= i < s.len() && (#[trigger] s[i]).id == id]
}

/// `t` is `s` with the conversation of the given id replaced by `v`, placed
/// where its name now sorts; no such conversation is no change.
pub open spec fn conv_moved(s: Seq<ConvView>, t: Seq<ConvView>, id: Seq<char>, v: ConvView) -> bool {
    if has_conv(s, id) {
        exists|i: int, p: int|
            0 <= i < s.len() && s[i].id == id && 0 <= p < s.len() && t == #[trigger] s.remove(
                i,
            ).insert(p, v)
    } else {
        t == s
    }
}

pub proof fn lemma_conv_at(s: Seq<ConvView>, i: int)
    requires
        conv_ids_unique(s),
        0 <= i < s.len(),
    ensures
        conv_at(s, s[i].id) == s[i],
{
    let j = choose|j: int| 0 <= j < s.len() && (#[trigger] s[j]).id == s[i].id;
    if j < i {
        assert(s[j].id != s[i].id);
    } else if j > i {
        assert(s[i].id != s[j].id);
    }
}

/// Errors of the conversation store.
#[derive(Debug, Clone)]
pub enum ConversationError {
    /// No conversation has this id.
    NotFound(String),
    /// A conversation with this id already exists.
    AlreadyExists(String),
    /// The operation was refused; the text says why.
    InvalidOperation(String),
}

/// Conversation metadata, kept in name order.
pub struct Conversations {
    rows: Vec<Conversation>,
}

impl View for Conversations {
    type V = Seq<ConvView>;

    closed spec fn view(&self) -> Seq<ConvView> {
        self.rows@.map_values(|c: Conversation| c@)
    }
}

impl Conversations {
    pub open spec fn wf(&self) -> bool {
        conv_ids_unique(self@) && by_name(self@)
    }

    pub fn new() -> (r: Conversations)
        ensures
            r.wf(),
            r@ == Seq::<ConvView>::empty(),
    {
        Conversations { rows: Vec::new() }
    }

    fn find(&self, id: &str) -> (r: Option<usize>)
        ensures
            r matches Some(i) ==> i < self@.len() && self@[i as int].id == id@,
            r is None ==> !has_conv(self@, id@),
    {
        let mut i: usize = 0;
        while i < self.rows.len()
            invariant
                i <= self.rows.len(),
                forall|k: int| 0 <= k < i ==> (#[trigger] self@[k]).id != id@,
            decreases self.rows.len() - i,
        {
            if text_eq(self.rows[i].id.as_str(), id) {
                return Some(i);
            }
            i = i + 1;
        }
        None
    }

    /// Puts a conversation whose id is new where its name sorts.
    fn insert_sorted(&mut self, c: Conversation)
        requires
            old(self).wf(),
            !has_conv(old(self)@, c.id@),
        ensures
            final(self).wf(),
            exists|p: int| 0 <= p <= old(self)@.len() && final(self)@ == #[trigger] old(self)@.insert(p, c@),
    {
        let mut p: usize = 0;
        while p < self.rows.len() && !text_less(c.name.as_str(), self.rows[p].name.as_str())
            invariant
                p <= self.rows.len(),
                forall|k: int| 0 <= k < p ==> !text_lt(c.name@, (#[trigger] self@[k]).name),
            decreases self.rows.len() - p,
        {
            p = p + 1;
        }
        let ghost before = self@;
        let ghost cv = c@;
        self.rows.insert(p, c);
        assert(self@ =~= before.insert(p as int, cv));
        assert forall|i: int, j: int| 0 <= i < j < self@.len() implies (#[trigger] self@[i]).id
            != (#[trigger] self@[j]).id && !text_lt(self@[j].name, self@[i].name) by {
            if i == p {
                assert(before[j - 1] == self@[j]);
                assert(text_lt(cv.name, before[p as int].name));
                if j - 1 > p {
                    assert(!text_lt(before[j - 1].name, before[p as int].name));
                }
                assert(before[j - 1].id != cv.id);
                if text_lt(self@[j].name, cv.name) {
                    lemma_text_lt_transitive(self@[j].name, cv.name, before[p as int].name);
                    lemma_text_lt_irreflexive(before[p as int].name);
                }
            } else if j == p {
                assert(before[i] == self@[i]);
            } else {
                let i0 = if i < p { i } else { i - 1 };
                let j0 = if j < p { j } else { j - 1 };
                assert(self@[i] == before[i0] && self@[j] == before[j0]);
            }
        }
    }

    fn take_at(&mut self, i: usize) -> (r: Conversation)
        requires
            old(self).wf(),
            i < old(self)@.len(),
        ensures
            final(self).wf(),
            final(self)@ == old(self)@.remove(i as int),
            r@ == old(self)@[i as int],
            !has_conv(final(self)@, r.id@),
    {
        let ghost before = self@;
        let r = self.rows.remove(i);
        assert(self@ =~= before.remove(i as int));
        assert forall|a: int, b: int| 0 <= a < b < self@.len() implies (#[trigger] self@[a]).id
            != (#[trigger] self@[b]).id && !text_lt(self@[b].name, self@[a].name) by {
            let a0 = if a < i { a } else { a + 1 };
            let b0 = if b < i { b } else { b + 1 };
            assert(self@[a] == before[a0] && self@[b] == before[b0]);
        }
        assert forall|k: int| 0 <= k < self@.len() implies (#[trigger] self@[k]).id != r.id@ by {
            let k0 = if k < i { k } else { k + 1 };
            assert(self@[k] == before[k0]);
            if k0 < i {
                assert(before[k0].id != before[i as int].id);
            } else {
                assert(before[i as int].id != before[k0].id);
            }
        }
        r
    }

    /// Stores a new conversation; the id must be new.
    pub fn create(
        &mut self,
        id: &str,
        name: &str,
        description: Option<&str>,
        entry_message_id: Option<&str>,
    ) -> (r: Result<(), ConversationError>)
        requires
            old(self).wf(),
        ensures
            final(self).wf(),
            r is Err <==> has_conv(old(self)@, id@),
            r matches Err(e) ==> (e matches ConversationError::AlreadyExists(t) && t@ == id@),
            r is Err ==> final(self)@ == old(self)@,
            r is Ok ==> exists|p: int|
                0 <= p <= old(self)@.len() && final(self)@ == #[trigger] old(self)@.insert(
                    p,
                    ConvView {
                        id: id@,
                        name: name@,
                        description: crate::messages::opt_str(description),
                        entry: crate::messages::opt_str(entry_message_id),
                    },
                ),
    {
        if self.find(id).is_some() {
            return Err(ConversationError::AlreadyExists(id.to_owned()));
        }
        let c = Conversation {
            id: id.to_owned(),
            name: name.to_owned(),
            description: match description {
                Some(d) => Some(d.to_owned()),
                None => None,
            },
            entry_message_id: match entry_message_id {
                Some(e) => Some(e.to_owned()),
                None => None,
            },
        };
        self.insert_sorted(c);
        Ok(())
    }

    /// The conversation of the given id.
    pub fn get(&self, id: &str) -> (r: Option<Conversation>)
        requires
            self.wf(),
        ensures
            r is None <==> !has_conv(self@, id@),
            r matches Some(c) ==> exists|i: int| 0 <= i < self@.len() && self@[i] == c@ && c@.id == id@,
    {
        match self.find(id) {
            Some(i) => {
                assert(self@[i as int] == self.rows@[i as int]@);
                Some(self.rows[i].copy())
            },
            None => None,
        }
    }

    /// The first conversation, in name order, whose root is `message_id`.
    pub fn get_by_entry_id(&self, message_id: &str) -> (r: Option<Conversation>)
        ensures
            r is None <==> forall|i: int|
                0 <= i < self@.len() ==> (#[trigger] self@[i]).entry != Some(message_id@),
            r matches Some(c) ==> exists|i: int|
                0 <= i < self@.len() && self@[i] == c@ && c@.entry == Some(message_id@) && forall|j: int|
                    0 <= j < i ==> (#[trigger] self@[j]).entry != Some(message_id@),
    {
        let mut i: usize = 0;
        while i < self.rows.len()
            invariant
                i <= self.rows.len(),
                forall|k: int| 0 <= k < i ==> (#[trigger] self@[k]).entry != Some(message_id@),
            decreases self.rows.len() - i,
        {
            assert(self@[i as int] == self.rows@[i as int]@);
            if let Some(e) = &self.rows[i].entry_message_id {
                if text_eq(e.as_str(), message_id) {
                    assert(self@[i as int].entry == Some(message_id@));
                    return Some(self.rows[i].copy());
                }
            }
            i = i + 1;
        }
        None
    }

    fn replace_at(&mut self, i: usize, c: Conversation)
        requires
            old(self).wf(),
            i < old(self)@.len(),
            c.id@ == old(self)@[i as int].id,
        ensures
            final(self).wf(),
            exists|p: int|
                0 <= p < old(self)@.len() && final(self)@ == #[trigger] old(self)@.remove(
                    i as int,
                ).insert(p, c@),
    {
        self.take_at(i);
        self.insert_sorted(c);
    }

    /// Renames a conversation; no such conversation is no change.
    pub fn update_name(&mut self, id: &str, name: &str)
        requires
            old(self).wf(),
        ensures
            final(self).wf(),
            conv_moved(
                old(self)@,
                final(self)@,
                id@,
                ConvView { name: name@, ..conv_at(old(self)@, id@) },
            ),
    {
        if let Some(i) = self.find(id) {
            let ghost before = self@;
            let mut c = self.rows[i].copy();
            c.name = name.to_owned();
            proof {
                lemma_conv_at(before, i as int);
            }
            self.replace_at(i, c);
        }
    }

    /// Sets a conversation's description; no such conversation is no change.
    pub fn update_description(&mut self, id: &str, description: &str)
        requires
            old(self).wf(),
        ensures
            final(self).wf(),
            conv_moved(
                old(self)@,
                final(self)@,
                id@,
                ConvView { description: Some(description@), ..conv_at(old(self)@, id@) },
            ),
    {
        if let Some(i) = self.find(id) {
            let ghost before = self@;
            let mut c = self.rows[i].copy();
            c.description = Some(description.to_owned());
            proof {
                lemma_conv_at(before, i as int);
            }
            self.replace_at(i, c);
        }
    }

    /// Sets or clears a conversation's root message; no such conversation is no change.
    pub fn update_entry_message_id(&mut self, id: &str, entry_message_id: Option<&str>)
        requires
            old(self).wf(),
        ensures
            final(self).wf(),
            conv_moved(
                old(self)@,
                final(self)@,
                id@,
                ConvView {
                    entry: crate::messages::opt_str(entry_message_id),
                    ..conv_at(old(self)@, id@)
                },
            ),
    {
        if let Some(i) = self.find(id) {
            let ghost before = self@;
            let mut c = self.rows[i].copy();
            c.entry_message_id = match entry_message_id {
                Some(x) => Some(x.to_owned()),
                None => None,
            };
            proof {
                lemma_conv_at(before, i as int);
            }
            self.replace_at(i, c);
        }
    }

    /// Removes a conversation; its messages are left alone.
    pub fn delete(&mut self, id: &str)
        requires
            old(self).wf(),
        ensures
            final(self).wf(),
            has_conv(old(self)@, id@) ==> exists|i: int|
                0 <= i < old(self)@.len() && old(self)@[i].id == id@ && final(self)@ == old(
                    self,
                )@.remove(i),
            !has_conv(old(self)@, id@) ==> final(self)@ == old(self)@,
    {
        if let Some(i) = self.find(id) {
            self.take_at(i);
        }
    }

    /// Every conversation, in name order.
    pub fn list(&self) -> (r: Vec<Conversation>)
        ensures
            r@.map_values(|c: Conversation| c@) == self@,
    {
        let mut out: Vec<Conversation> = Vec::new();
        let mut i: usize = 0;
        while i < self.rows.len()
            invariant
                i <= self.rows.len(),
                out@.map_values(|c: Conversation| c@) == self@.take(i as int),
            decreases self.rows.len() - i,
        {
            assert(self@[i as int] == self.rows@[i as int]@);
            let ghost prev = out@;
            out.push(self.rows[i].copy());
            assert(out@.map_values(|c: Conversation| c@) =~= prev.map_values(|c: Conversation| c@).push(self@[i as int]));
            assert(self@.take(i + 1) =~= self@.take(i as int).push(self@[i as int]));
            i = i + 1;
        }
        assert(self@.take(self@.len() as int) =~= self@);
        out
    }
}

} // verus!
