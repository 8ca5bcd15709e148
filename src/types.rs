use vstd::prelude::*;

verus! {

/// Who wrote a message.
#[derive(Debug, Clone, Copy, PartialEq, Eq, Structural)]
pub enum MessageRole {
    User,
    Assistant,
    System,
}

/// The stored text of each role.
pub open spec fn role_text(r: MessageRole) -> Seq<char> {
    match r {
        MessageRole::User => seq!['u', 's', 'e', 'r'],
        MessageRole::Assistant => seq!['b', 'o', 't'],
        MessageRole::System => seq!['s', 'y', 's', 't', 'e', 'm'],
    }
}

/// The role whose stored text is `s`, if any.
pub open spec fn role_of_text(s: Seq<char>) -> Option<MessageRole> {
    if s == role_text(MessageRole::User) {
        Some(MessageRole::User)
    } else if s == role_text(MessageRole::Assistant) {
        Some(MessageRole::Assistant)
    } else if s == role_text(MessageRole::System) {
        Some(MessageRole::System)
    } else {
        None
    }
}

pub proof fn lemma_role_round_trip(r: MessageRole)
    ensures
        role_of_text(role_text(r)) == Some(r),
{
    assert(role_text(MessageRole::User) != role_text(MessageRole::Assistant)) by {
        assert(role_text(MessageRole::User).len() != role_text(MessageRole::Assistant).len());
    }
    assert(role_text(MessageRole::User) != role_text(MessageRole::System)) by {
        assert(role_text(MessageRole::User).len() != role_text(MessageRole::System).len());
    }
    assert(role_text(MessageRole::Assistant) != role_text(MessageRole::System)) by {
        assert(role_text(MessageRole::Assistant).len() != role_text(MessageRole::System).len());
    }
}

/// Character-wise equality of two texts.
pub fn text_eq(a: &str, b: &str) -> (r: bool)
    ensures
        r == (a@ == b@),
{
    let n = a.unicode_len();
    if n != b.unicode_len() {
        return false;
    }
    let mut i: usize = 0;
    while i < n
        invariant
            n == a@.len(),
            n == b@.len(),
            i <= n,
            a@.subrange(0, i as int) == b@.subrange(0, i as int),
        decreases n - i,
    {
        if a.get_char(i) != b.get_char(i) {
            return false;
        }
        assert(a@.subrange(0, i + 1) == a@.subrange(0, i as int).push(a@[i as int]));
        assert(b@.subrange(0, i + 1) == b@.subrange(0, i as int).push(b@[i as int]));
        i = i + 1;
    }
    assert(a@ == a@.subrange(0, n as int));
    assert(b@ == b@.subrange(0, n as int));
    true
}

impl MessageRole {
    /// The text under which the role is stored.
    pub fn as_text(&self) -> (r: String)
        ensures
            r@ == role_text(*self),
    {
        let r = match self {
            MessageRole::User => String::from_str("user"),
            MessageRole::Assistant => String::from_str("bot"),
            MessageRole::System => String::from_str("system"),
        };
        proof {
            reveal_strlit("user");
            reveal_strlit("bot");
            reveal_strlit("system");
            assert("user"@ =~= role_text(MessageRole::User));
            assert("bot"@ =~= role_text(MessageRole::Assistant));
            assert("system"@ =~= role_text(MessageRole::System));
        }
        r
    }

    /// Reads a stored role; an unknown text is a sign of corrupted data.
    pub fn try_from_text(s: &str) -> (r: Result<MessageRole, MessageError>)
        ensures
            r matches Ok(role) ==> role_of_text(s@) == Some(role),
            r matches Err(e) ==> role_of_text(s@).is_none() && (e matches MessageError::InvalidRole(
                t,
            ) && t@ == s@),
    {
        proof {
            reveal_strlit("user");
            reveal_strlit("bot");
            reveal_strlit("system");
            assert("user"@ =~= role_text(MessageRole::User));
            assert("bot"@ =~= role_text(MessageRole::Assistant));
            assert("system"@ =~= role_text(MessageRole::System));
        }
        if text_eq(s, "user") {
            Ok(MessageRole::User)
        } else if text_eq(s, "bot") {
            Ok(MessageRole::Assistant)
        } else if text_eq(s, "system") {
            Ok(MessageRole::System)
        } else {
            Err(MessageError::InvalidRole(s.to_owned()))
        }
    }
}

/// A message as callers see it, with its role decoded.
#[derive(Debug, Clone)]
pub struct Message {
    pub id: String,
    pub text: String,
    pub reasoning: Option<String>,
    pub sender: MessageRole,
    pub timestamp: i64,
    pub tokens: Option<i32>,
    pub embedding: Option<Vec<u8>>,
}

pub struct MessageView {
    pub id: Seq<char>,
    pub text: Seq<char>,
    pub reasoning: Option<Seq<char>>,
    pub sender: MessageRole,
    pub timestamp: i64,
    pub tokens: Option<i32>,
    pub embedding: Option<Seq<u8>>,
}

pub open spec fn opt_text(o: Option<String>) -> Option<Seq<char>> {
    match o {
        Some(s) => Some(s@),
        None => None,
    }
}

pub open spec fn opt_bytes(o: Option<Vec<u8>>) -> Option<Seq<u8>> {
    match o {
        Some(v) => Some(v@),
        None => None,
    }
}

pub open spec fn texts(v: Seq<String>) -> Seq<Seq<char>> {
    v.map_values(|s: String| s@)
}

impl View for Message {
    type V = MessageView;

    open spec fn view(&self) -> MessageView {
        MessageView {
            id: self.id@,
            text: self.text@,
            reasoning: opt_text(self.reasoning),
            sender: self.sender,
            timestamp: self.timestamp,
            tokens: self.tokens,
            embedding: opt_bytes(self.embedding),
        }
    }
}

pub fn copy_opt_text(o: &Option<String>) -> (r: Option<String>)
    ensures
        opt_text(r) == opt_text(*o),
{
    match o {
        Some(s) => Some(s.clone()),
        None => None,
    }
}

pub fn copy_bytes(v: &Vec<u8>) -> (r: Vec<u8>)
    ensures
        r@ == v@,
{
    let r = v.clone();
    assert(r@ =~= v@);
    r
}

pub fn copy_opt_bytes(o: &Option<Vec<u8>>) -> (r: Option<Vec<u8>>)
    ensures
        opt_bytes(r) == opt_bytes(*o),
{
    match o {
        Some(v) => Some(copy_bytes(v)),
        None => None,
    }
}

pub fn copy_texts(v: &Vec<String>) -> (r: Vec<String>)
    ensures
        texts(r@) == texts(v@),
{
    let mut r: Vec<String> = Vec::new();
    let mut i: usize = 0;
    while i < v.len()
        invariant
            i <= v.len(),
            texts(r@) == texts(v@.subrange(0, i as int)),
        decreases v.len() - i,
    {
        r.push(v[i].clone());
        assert(texts(v@.subrange(0, i + 1)) =~= texts(v@.subrange(0, i as int)).push(v@[i as int]@));
        assert(texts(r@) =~= texts(v@.subrange(0, i as int)).push(v@[i as int]@));
        i = i + 1;
    }
    assert(v@.subrange(0, v.len() as int) =~= v@);
    r
}

/// A rendered diagram kept by content hash.
#[derive(Debug, Clone)]
pub struct DiagramCacheEntry {
    pub svg: String,
    pub height: u32,
    pub width: u32,
}

/// Errors of the message store.
#[derive(Debug, Clone)]
pub enum MessageError {
    NotFound(String),
    AlreadyExists(String),
    InvalidRole(String),
}

} // verus!
