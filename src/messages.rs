use vstd::prelude::*;

use crate::types::{
    copy_opt_bytes, copy_opt_text, text_eq, opt_bytes, opt_text, role_of_text, Message, MessageError,
    MessageRole, MessageView,
};

verus! {

/// A stored message; the sender is kept as text and decoded on read.
#[derive(Debug, Clone)]
pub struct MessageRow {
    pub id: String,
    pub text: String,
    pub reasoning: Option<String>,
    pub sender: String,
    pub timestamp: i64,
    pub tokens: Option<i32>,
    pub embedding: Option<Vec<u8>>,
}

pub struct RowView {
    pub id: Seq<char>,
    pub text: Seq<char>,
    pub reasoning: Option<Seq<char>>,
    pub sender: Seq<char>,
    pub timestamp: i64,
    pub tokens: Option<i32>,
    pub embedding: Option<Seq<u8>>,
}

impl View for MessageRow {
    type V = RowView;

    open spec fn view(&self) -> RowView {
        RowView {
            id: self.id@,
            text: self.text@,
            reasoning: opt_text(self.reasoning),
            sender: self.sender@,
            timestamp: self.timestamp,
            tokens: self.tokens,
            embedding: opt_bytes(self.embedding),
        }
    }
}

/// The message a row reads as, if its sender text names a role.
pub open spec fn message_of(r: RowView) -> Option<MessageView> {
    match role_of_text(r.sender) {
        Some(role) => Some(
            MessageView {
                id: r.id,
                text: r.text,
                reasoning: r.reasoning,
                sender: role,
                timestamp: r.timestamp,
                tokens: r.tokens,
                embedding: r.embedding,
            },
        ),
        None => None,
    }
}

pub open spec fn has_id(s: Seq<RowView>, id: Seq<char>) -> bool {
    exists|i: int| 0 <= i < s.len() && (#[trigger] s[i]).id == id
}

pub open spec fn ids_unique(s: Seq<RowView>) -> bool {
    forall|i: int, j: int| 0 <= i < j < s.len() ==> (#[trigger] s[i]).id != (#[trigger] s[j]).id
}

/// Newest first.
pub open spec fn by_time_desc(s: Seq<RowView>) -> bool {
    forall|i: int, j: int|
        0 <= i < j < s.len() ==> (#[trigger] s[i]).timestamp >= (#[trigger] s[j]).timestamp
}

pub open spec fn opt_str(o: Option<&str>) -> Option<Seq<char>> {
    match o {
        Some(x) => Some(x@),
        None => None,
    }
}

pub open spec fn strs(v: Seq<&str>) -> Seq<Seq<char>> {
    v.map_values(|s: &str| s@)
}

/// The row that `add` stores.
pub open spec fn new_row(
    id: Seq<char>,
    text: Seq<char>,
    reasoning: Option<Seq<char>>,
    sender: Seq<char>,
    tokens: Option<i32>,
    embedding: Option<Seq<u8>>,
    timestamp: i64,
) -> RowView {
    RowView { id, text, reasoning, sender, timestamp, tokens, embedding }
}

/// `t` is `s` with every row of the given id changed by `f`.
pub open spec fn rows_updated(
    s: Seq<RowView>,
    t: Seq<RowView>,
    id: Seq<char>,
    f: spec_fn(RowView) -> RowView,
) -> bool {
    &&& t.len() == s.len()
    &&& forall|i: int| 0 <= i < s.len() ==> #[trigger] t[i] == if s[i].id == id {
        f(s[i])
    } else {
        s[i]
    }
}

/// A row with its text replaced.
pub open spec fn text_set(text: Seq<char>) -> spec_fn(RowView) -> RowView {
    |r: RowView| RowView { text: text, ..r }
}

/// `t` is `s` without the row of the given id, if there was one.
pub open spec fn row_removed(s: Seq<RowView>, t: Seq<RowView>, id: Seq<char>) -> bool {
    if has_id(s, id) {
        exists|i: int| 0 <= i < s.len() && s[i].id == id && t == s.remove(i)
    } else {
        t == s
    }
}

/// The first index of a listing window.
pub open spec fn window_start(offset: i64, len: int) -> int {
    if offset < 0 {
        0
    } else if offset > len {
        len
    } else {
        offset as int
    }
}

/// One past the last index of a listing window; a negative limit means no limit.
pub open spec fn window_end(limit: i64, start: int, len: int) -> int {
    if limit < 0 || start + limit > len {
        len
    } else {
        start + limit
    }
}

/// Reads a row as a message.
pub fn decode_row(row: &MessageRow) -> (r: Result<Message, MessageError>)
    ensures
        r matches Ok(m) ==> message_of(row@) == Some(m@),
        r matches Err(e) ==> message_of(row@).is_none() && (e matches MessageError::InvalidRole(
            t,
        ) && t@ == row.sender@),
{
    let sender = MessageRole::try_from_text(row.sender.as_str())?;
    Ok(
        Message {
            id: row.id.clone(),
            text: row.text.clone(),
            reasoning: copy_opt_text(&row.reasoning),
            sender,
            timestamp: row.timestamp,
            tokens: row.tokens,
            embedding: copy_opt_bytes(&row.embedding),
        },
    )
}

/// The row of the given id, when there is one.
pub open spec fn msg_row(s: Seq<RowView>, id: Seq<char>) -> RowView {
    s[choose|i: int| 0 <= i < s.len() && (#[trigger] s[i]).id == id]
}

pub proof fn lemma_msg_row(s: Seq<RowView>, i: int)
    requires
        ids_unique(s),
        0 <= i < s.len(),
    ensures
        msg_row(s, s[i].id) == s[i],
{
    let j = choose|j: int| 0 <= j < s.len() && (#[trigger] s[j]).id == s[i].id;
    if j < i {
        assert(s[j].id != s[i].id);
    } else if j > i {
        assert(s[i].id != s[j].id);
    }
}

/// `t` keeps the rows of `s` whose ids `gone` does not hold.
pub open spec fn rows_kept(s: Seq<RowView>, t: Seq<RowView>, gone: spec_fn(Seq<char>) -> bool) -> bool {
    &&& forall|x: Seq<char>| #[trigger] has_id(t, x) <==> has_id(s, x) && !gone(x)
    &&& forall|x: Seq<char>| #[trigger] has_id(t, x) ==> msg_row(t, x) == msg_row(s, x)
}

pub proof fn lemma_row_removed(s: Seq<RowView>, t: Seq<RowView>, id: Seq<char>)
    requires
        ids_unique(s),
        ids_unique(t),
        row_removed(s, t, id),
    ensures
        rows_kept(s, t, |x: Seq<char>| x == id),
{
    if has_id(s, id) {
        let i = choose|i: int| 0 <= i < s.len() && s[i].id == id && t == s.remove(i);
        assert forall|x: Seq<char>| #[trigger] has_id(t, x) <==> has_id(s, x) && x != id by {
            if has_id(t, x) {
                let k = choose|k: int| 0 <= k < t.len() && (#[trigger] t[k]).id == x;
                let k0 = if k < i { k } else { k + 1 };
                assert(s[k0] == t[k]);
                if k0 < i {
                    assert(s[k0].id != s[i].id);
                } else {
                    assert(s[i].id != s[k0].id);
                }
            }
            if has_id(s, x) && x != id {
                let k = choose|k: int| 0 <= k < s.len() && (#[trigger] s[k]).id == x;
                if k < i {
                    assert(t[k] == s[k]);
                } else {
                    assert(t[k - 1] == s[k]);
                }
            }
        }
        assert forall|x: Seq<char>| #[trigger] has_id(t, x) implies msg_row(t, x) == msg_row(s, x) by {
            let k = choose|k: int| 0 <= k < t.len() && (#[trigger] t[k]).id == x;
            let k0 = if k < i { k } else { k + 1 };
            assert(s[k0] == t[k]);
            lemma_msg_row(t, k);
            lemma_msg_row(s, k0);
        }
    }
}



/// What inserting a row with a new id keeps and adds.
pub proof fn lemma_inserted(s: Seq<RowView>, t: Seq<RowView>, p: int, row: RowView)
    requires
        ids_unique(t),
        0 <= p <= s.len(),
        t == s.insert(p, row),
    ensures
        forall|x: Seq<char>| #[trigger] has_id(t, x) <==> has_id(s, x) || x == row.id,
        forall|x: Seq<char>| #[trigger] has_id(s, x) ==> msg_row(t, x) == msg_row(s, x),
        has_id(t, row.id),
        msg_row(t, row.id) == row,
{
    assert(t[p] == row);
    lemma_msg_row(t, p);
    assert forall|x: Seq<char>| #[trigger] has_id(t, x) <==> has_id(s, x) || x == row.id by {
        if has_id(t, x) && x != row.id {
            let k = choose|k: int| 0 <= k < t.len() && (#[trigger] t[k]).id == x;
            if k < p {
                assert(s[k] == t[k]);
            } else {
                assert(s[k - 1] == t[k]);
            }
        }
        if has_id(s, x) {
            let k = choose|k: int| 0 <= k < s.len() && (#[trigger] s[k]).id == x;
            if k < p {
                assert(t[k] == s[k]);
            } else {
                assert(t[k + 1] == s[k]);
            }
        }
    }
    assert forall|x: Seq<char>| #[trigger] has_id(s, x) implies msg_row(t, x) == msg_row(s, x) by {
        let k = choose|k: int| 0 <= k < s.len() && (#[trigger] s[k]).id == x;
        let k1 = if k < p { k } else { k + 1 };
        assert(t[k1] == s[k]);
        lemma_msg_row(t, k1);
        assert(ids_unique(s)) by {
            assert forall|a: int, b: int| 0 <= a < b < s.len() implies (#[trigger] s[a]).id != (#[trigger] s[b]).id by {
                let a1 = if a < p { a } else { a + 1 };
                let b1 = if b < p { b } else { b + 1 };
                assert(t[a1] == s[a] && t[b1] == s[b]);
            }
        }
        lemma_msg_row(s, k);
    }
}

/// A batch entry: id, text, reasoning, sender, tokens, embedding.
pub type BatchEntry<'a> = (&'a str, &'a str, Option<&'a str>, &'a str, Option<i32>, Option<Vec<u8>>);

pub open spec fn entry_row(e: BatchEntry, timestamp: i64) -> RowView {
    new_row(e.0@, e.1@, opt_str(e.2), e.3@, e.4, opt_bytes(e.5), timestamp)
}

/// Some id of the batch is stored already or comes twice.
pub open spec fn batch_clashes(s: Seq<RowView>, b: Seq<BatchEntry>) -> bool {
    exists|k: int|
        0 <= k < b.len() && (has_id(s, (#[trigger] b[k]).0@) || exists|j: int| 0 <= j < k && b[j].0@ == b[k].0@)
}

/// Message content, keyed by id, newest first.
pub struct Messages {
    rows: Vec<MessageRow>,
}

impl View for Messages {
    type V = Seq<RowView>;

    closed spec fn view(&self) -> Seq<RowView> {
        self.rows@.map_values(|r: MessageRow| r@)
    }
}

impl Messages {
    pub open spec fn wf(&self) -> bool {
        ids_unique(self@) && by_time_desc(self@)
    }

    pub fn new() -> (r: Messages)
        ensures
            r.wf(),
            r@ == Seq::<RowView>::empty(),
    {
        Messages { rows: Vec::new() }
    }

    /// The stored rows, newest first.
    pub fn rows(&self) -> (r: &Vec<MessageRow>)
        ensures
            r@.map_values(|x: MessageRow| x@) == self@,
    {
        &self.rows
    }

    fn find(&self, id: &str) -> (r: Option<usize>)
        requires
            self.wf(),
        ensures
            r matches Some(i) ==> i < self@.len() && self@[i as int].id == id@,
            r is None ==> !has_id(self@, id@),
    {
        let mut i: usize = 0;
        while i < self.rows.len()
            invariant
                i <= self.rows.len(),
                forall|k: int| 0 <= k < i ==> (#[trigger] self@[k]).id != id@,
            decreases self.rows.len() - i,
        {
            if text_eq(self.rows[i].id.as_str(), id) {
                return Some(i);
            }
            i = i + 1;
        }
        None
    }

    pub fn contains(&self, id: &str) -> (r: bool)
        requires
            self.wf(),
        ensures
            r == has_id(self@, id@),
    {
        self.find(id).is_some()
    }

    /// Stores a new message stamped with `timestamp`; the id must be new.
    pub fn add(
        &mut self,
        id: &str,
        text: &str,
        reasoning: Option<&str>,
        sender: &str,
        tokens: Option<i32>,
        embedding: Option<Vec<u8>>,
        timestamp: i64,
    ) -> (r: Result<(), MessageError>)
        requires
            old(self).wf(),
        ensures
            final(self).wf(),
            r is Err <==> has_id(old(self)@, id@),
            r matches Err(e) ==> (e matches MessageError::AlreadyExists(t) && t@ == id@),
            r is Err ==> final(self)@ == old(self)@,
            r is Ok ==> exists|p: int|
                0 <= p <= old(self)@.len() && final(self)@ == #[trigger] old(self)@.insert(
                    p,
                    new_row(
                        id@,
                        text@,
                        opt_str(reasoning),
                        sender@,
                        tokens,
                        opt_bytes(embedding),
                        timestamp,
                    ),
                ),
    {
        if self.contains(id) {
            return Err(MessageError::AlreadyExists(id.to_owned()));
        }
        let row = MessageRow {
            id: id.to_owned(),
            text: text.to_owned(),
            reasoning: match reasoning {
                Some(x) => Some(x.to_owned()),
                None => None,
            },
            sender: sender.to_owned(),
            timestamp,
            tokens,
            embedding,
        };
        let mut p: usize = 0;
        while p < self.rows.len() && self.rows[p].timestamp >= timestamp
            invariant
                p <= self.rows.len(),
                forall|k: int| 0 <= k < p ==> (#[trigger] self@[k]).timestamp >= timestamp,
            decreases self.rows.len() - p,
        {
            p = p + 1;
        }
        let ghost before = self@;
        self.rows.insert(p, row);
        assert(self@ =~= before.insert(p as int, row@));
        assert forall|i: int, j: int| 0 <= i < j < self@.len() implies (#[trigger] self@[i]).id
            != (#[trigger] self@[j]).id && self@[i].timestamp >= self@[j].timestamp by {
            if i == p {
                assert(before[j - 1] == self@[j]);
                assert(before[p as int].timestamp < timestamp);
                if j - 1 > p {
                    assert(before[p as int].timestamp >= before[j - 1].timestamp);
                }
            } else if j == p {
                assert(before[i] == self@[i]);
            } else {
                let i0 = if i < p { i } else { i - 1 };
                let j0 = if j < p { j } else { j - 1 };
                assert(self@[i] == before[i0] && self@[j] == before[j0]);
            }
        }
        Ok(())
    }

    /// The message of the given id.
    pub fn get(&self, id: &str) -> (r: Result<Message, MessageError>)
        requires
            self.wf(),
        ensures
            r is Ok ==> has_id(self@, id@),
            r matches Ok(m) ==> exists|i: int|
                0 <= i < self@.len() && self@[i].id == id@ && message_of(self@[i]) == Some(m@),
            r matches Err(e) ==> match e {
                MessageError::NotFound(t) => t@ == id@ && !has_id(self@, id@),
                MessageError::InvalidRole(_) => exists|i: int|
                    0 <= i < self@.len() && self@[i].id == id@ && message_of(self@[i]).is_none(),
                _ => false,
            },
    {
        match self.find(id) {
            Some(i) => decode_row(&self.rows[i]),
            None => Err(MessageError::NotFound(id.to_owned())),
        }
    }

    /// Up to `limit` messages, newest first, after skipping `offset` of them.
    /// A negative limit means no limit; a negative offset skips nothing.
    pub fn list(&self, limit: i64, offset: i64) -> (r: Result<Vec<Message>, MessageError>)
        requires
            self.wf(),
        ensures
            ({
                let s = window_start(offset, self@.len() as int);
                let e = window_end(limit, s, self@.len() as int);
                &&& r matches Ok(v) ==> v@.len() == e - s && forall|k: int|
                    0 <= k < v@.len() ==> message_of(self@[s + k]) == Some(
                        (#[trigger] v@[k])@,
                    )
                &&& r is Err <==> exists|k: int| s <= k < e && message_of(#[trigger] self@[k]).is_none()
                &&& r matches Err(err) ==> err is InvalidRole
            }),
    {
        let n = self.rows.len();
        let start: usize = if offset < 0 {
            0
        } else if offset as u64 > n as u64 {
            n
        } else {
            offset as usize
        };
        let end: usize = if limit < 0 || limit as u64 > (n - start) as u64 {
            n
        } else {
            start + limit as usize
        };
        assert(start == window_start(offset, n as int));
        assert(end == window_end(limit, start as int, n as int));
        let mut out: Vec<Message> = Vec::new();
        let mut i: usize = start;
        while i < end
            invariant
                start <= i <= end <= n,
                n == self@.len(),
                start == window_start(offset, n as int),
                end == window_end(limit, start as int, n as int),
                out@.len() == i - start,
                forall|k: int|
                    0 <= k < out@.len() ==> message_of(self@[start + k]) == Some(
                        (#[trigger] out@[k])@,
                    ),
                forall|k: int| start <= k < i ==> message_of(#[trigger] self@[k]) is Some,
            decreases end - i,
        {
            assert(self.rows@[i as int]@ == self@[i as int]);
            let m = decode_row(&self.rows[i]);
            match m {
                Ok(m) => out.push(m),
                Err(e) => {
                    assert(message_of(self@[i as int]).is_none());
                    return Err(e);
                },
            }
            i = i + 1;
        }
        Ok(out)
    }

    /// Replaces the text of the message of the given id; no such message is no change.
    pub fn update_text(&mut self, id: &str, text: &str)
        requires
            old(self).wf(),
        ensures
            final(self).wf(),
            rows_updated(old(self)@, final(self)@, id@, text_set(text@)),
    {
        if let Some(i) = self.find(id) {
            let ghost before = self@;
            self.rows[i].text = text.to_owned();
            assert forall|k: int| 0 <= k < before.len() implies #[trigger] self@[k] == if before[k].id
                == id@ {
                RowView { text: text@, ..before[k] }
            } else {
                before[k]
            } by {
                if k != i {
                    assert(before[k].id != id@);
                }
            }
        }
    }

    /// Replaces the reasoning of the message of the given id; no such message is no change.
    pub fn update_reasoning(&mut self, id: &str, reasoning: &str)
        requires
            old(self).wf(),
        ensures
            final(self).wf(),
            rows_updated(
                old(self)@,
                final(self)@,
                id@,
                |r: RowView| RowView { reasoning: Some(reasoning@), ..r },
            ),
    {
        if let Some(i) = self.find(id) {
            let ghost before = self@;
            self.rows[i].reasoning = Some(reasoning.to_owned());
            assert forall|k: int| 0 <= k < before.len() implies #[trigger] self@[k] == if before[k].id
                == id@ {
                RowView { reasoning: Some(reasoning@), ..before[k] }
            } else {
                before[k]
            } by {
                if k != i {
                    assert(before[k].id != id@);
                }
            }
        }
    }

    /// Replaces the sender of the message of the given id; no such message is no change.
    pub fn update_sender(&mut self, id: &str, sender: MessageRole)
        requires
            old(self).wf(),
        ensures
            final(self).wf(),
            rows_updated(
                old(self)@,
                final(self)@,
                id@,
                |r: RowView| RowView { sender: crate::types::role_text(sender), ..r },
            ),
    {
        if let Some(i) = self.find(id) {
            let ghost before = self@;
            self.rows[i].sender = sender.as_text();
            assert forall|k: int| 0 <= k < before.len() implies #[trigger] self@[k] == if before[k].id
                == id@ {
                RowView { sender: crate::types::role_text(sender), ..before[k] }
            } else {
                before[k]
            } by {
                if k != i {
                    assert(before[k].id != id@);
                }
            }
        }
    }

    /// Removes the message of the given id; no such message is no change.
    pub fn delete(&mut self, id: &str)
        requires
            old(self).wf(),
        ensures
            final(self).wf(),
            row_removed(old(self)@, final(self)@, id@),
    {
        if let Some(i) = self.find(id) {
            let ghost before = self@;
            self.rows.remove(i);
            assert(self@ =~= before.remove(i as int));
            assert forall|a: int, b: int| 0 <= a < b < self@.len() implies (#[trigger] self@[a]).id
                != (#[trigger] self@[b]).id && self@[a].timestamp >= self@[b].timestamp by {
                let a0 = if a < i { a } else { a + 1 };
                let b0 = if b < i { b } else { b + 1 };
                assert(self@[a] == before[a0] && self@[b] == before[b0]);
            }
        }
    }

    /// Removes every message that `ids` names; names of no message are no change.
    pub fn delete_batch(&mut self, ids: &[&str])
        requires
            old(self).wf(),
        ensures
            final(self).wf(),
            rows_kept(old(self)@, final(self)@, |x: Seq<char>| strs(ids@).contains(x)),
    {
        let ghost o = self@;
        let ghost t = strs(ids@);
        let mut k: usize = 0;
        while k < ids.len()
            invariant
                self.wf(),
                t == strs(ids@),
                k <= ids.len(),
                rows_kept(o, self@, |x: Seq<char>| t.take(k as int).contains(x)),
            decreases ids.len() - k,
        {
            let ghost cur = self@;
            self.delete(ids[k]);
            proof {
                lemma_row_removed(cur, self@, t[k as int]);
                assert(t.take(k + 1) =~= t.take(k as int).push(t[k as int]));
                assert forall|x: Seq<char>| #[trigger] t.take(k + 1).contains(x) <==> t.take(k as int).contains(x) || x == t[k as int] by {
                    if t.take(k + 1).contains(x) {
                        let q = choose|q: int| 0 <= q < t.take(k + 1).len() && #[trigger] t.take(k + 1)[q] == x;
                        if q < k {
                            assert(t.take(k as int)[q] == x);
                        }
                    }
                    if t.take(k as int).contains(x) {
                        let q = choose|q: int| 0 <= q < t.take(k as int).len() && #[trigger] t.take(k as int)[q] == x;
                        assert(t.take(k + 1)[q] == x);
                    }
                    if x == t[k as int] {
                        assert(t.take(k + 1)[k as int] == x);
                    }
                }
                assert forall|x: Seq<char>| #[trigger] has_id(self@, x) implies msg_row(self@, x) == msg_row(o, x) by {
                    assert(has_id(cur, x));
                }
            }
            k = k + 1;
        }
        proof {
            assert(t.take(t.len() as int) =~= t);
        }
    }

    /// Stores every message of a batch, all stamped with `timestamp`, or
    /// none of them: an id that is stored already or comes twice refuses
    /// the whole batch.
    pub fn add_batch(&mut self, messages: &[BatchEntry], timestamp: i64) -> (r: Result<(), MessageError>)
        requires
            old(self).wf(),
        ensures
            final(self).wf(),
            r is Err <==> batch_clashes(old(self)@, messages@),
            r matches Err(e) ==> e is AlreadyExists,
            r is Err ==> final(self)@ == old(self)@,
            r is Ok ==> forall|x: Seq<char>|
                #[trigger] has_id(final(self)@, x) <==> has_id(old(self)@, x) || exists|k: int|
                    0 <= k < messages@.len() && messages@[k].0@ == x,
            r is Ok ==> forall|x: Seq<char>|
                #[trigger] has_id(old(self)@, x) ==> msg_row(final(self)@, x) == msg_row(old(self)@, x),
            r is Ok ==> forall|k: int|
                0 <= k < messages@.len() ==> msg_row(final(self)@, (#[trigger] messages@[k]).0@) == entry_row(
                    messages@[k],
                    timestamp,
                ),
    {
        let ghost o = self@;
        let ghost b = messages@;
        let mut k: usize = 0;
        while k < messages.len()
            invariant
                k <= messages.len(),
                o == self@,
                self.wf(),
                b == messages@,
                forall|q: int| 0 <= q < k ==> !has_id(o, (#[trigger] b[q]).0@) && forall|j: int| 0 <= j < q ==> b[j].0@ != b[q].0@,
            decreases messages.len() - k,
        {
            let id = messages[k].0;
            let mut seen = false;
            let mut j: usize = 0;
            while j < k
                invariant
                    j <= k < messages.len(),
                    b == messages@,
                    id@ == b[k as int].0@,
                    seen == exists|q: int| 0 <= q < j && b[q].0@ == id@,
                decreases k - j,
            {
                if text_eq(messages[j].0, id) {
                    seen = true;
                }
                j = j + 1;
            }
            if seen || self.contains(id) {
                return Err(MessageError::AlreadyExists(id.to_owned()));
            }
            k = k + 1;
        }
        let mut i: usize = 0;
        while i < messages.len()
            invariant
                i <= messages.len(),
                b == messages@,
                self.wf(),
                forall|q: int| 0 <= q < b.len() ==> !has_id(o, (#[trigger] b[q]).0@) && forall|j: int| 0 <= j < q ==> b[j].0@ != b[q].0@,
                forall|x: Seq<char>|
                    #[trigger] has_id(self@, x) <==> has_id(o, x) || exists|q: int| 0 <= q < i && b[q].0@ == x,
                forall|x: Seq<char>| #[trigger] has_id(o, x) ==> msg_row(self@, x) == msg_row(o, x),
                forall|q: int| 0 <= q < i ==> msg_row(self@, (#[trigger] b[q]).0@) == entry_row(b[q], timestamp),
            decreases messages.len() - i,
        {
            let e = &messages[i];
            let ghost cur = self@;
            assert(!has_id(cur, b[i as int].0@)) by {
                if has_id(cur, b[i as int].0@) {
                    let q = choose|q: int| 0 <= q < i && b[q].0@ == b[i as int].0@;
                }
            }
            let added = self.add(e.0, e.1, e.2, e.3, e.4, copy_opt_bytes(&e.5), timestamp);
            proof {
                let row = entry_row(b[i as int], timestamp);
                let p = choose|p: int| 0 <= p <= cur.len() && self@ == #[trigger] cur.insert(p, row);
                lemma_inserted(cur, self@, p, row);
                assert forall|q: int| 0 <= q < i + 1 implies msg_row(self@, (#[trigger] b[q]).0@) == entry_row(b[q], timestamp) by {
                    if q < i {
                        assert(has_id(cur, b[q].0@));
                    }
                }
                assert forall|x: Seq<char>| #[trigger] has_id(o, x) implies msg_row(self@, x) == msg_row(o, x) by {
                    assert(has_id(cur, x));
                }
                assert forall|x: Seq<char>| #[trigger] has_id(self@, x) <==> has_id(o, x) || exists|q: int| 0 <= q < i + 1 && b[q].0@ == x by {
                    if x == row.id {
                        assert(b[i as int].0@ == x);
                    }
                }
            }
            i = i + 1;
        }
        Ok(())
    }
}

} // verus!
