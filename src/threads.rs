use vstd::prelude::*;

use crate::types::{text_eq, texts};

verus! {

broadcast use {Seq::lemma_filter_push, Seq::lemma_filter_contains_rev};

/// A parent edge as ids: (child, parent).
pub type Edge = (Seq<char>, Seq<char>);

pub open spec fn edge_views(v: Seq<(String, String)>) -> Seq<Edge> {
    v.map_values(|e: (String, String)| (e.0@, e.1@))
}

/// Whether an edge is picked by a selection on its child and on its parent;
/// `None` picks any.
pub open spec fn picked(e: Edge, child: Option<Seq<char>>, parent: Option<Seq<char>>) -> bool {
    &&& (child matches Some(c) ==> e.0 == c)
    &&& (parent matches Some(p) ==> e.1 == p)
}

pub open spec fn without(
    s: Seq<Edge>,
    child: Option<Seq<char>>,
    parent: Option<Seq<char>>,
) -> Seq<Edge> {
    s.filter(|e: Edge| !picked(e, child, parent))
}

pub open spec fn under(p: Seq<char>) -> spec_fn(Edge) -> bool {
    |e: Edge| e.1 == p
}

/// The children of `p`, in edge order.
pub open spec fn children_in(s: Seq<Edge>, p: Seq<char>) -> Seq<Seq<char>> {
    s.filter(under(p)).map_values(|e: Edge| e.0)
}

pub open spec fn pair_views(v: Seq<(&str, &str)>) -> Seq<Edge> {
    v.map_values(|e: (&str, &str)| (e.0@, e.1@))
}

/// Some pair of the batch is stored already or comes twice.
pub open spec fn batch_clashes(s: Seq<Edge>, b: Seq<Edge>) -> bool {
    exists|k: int| 0 <= k < b.len() && (s.contains(#[trigger] b[k]) || exists|j: int| 0 <= j < k && b[j] == b[k])
}

/// The first index of the batch whose pair is not stored.
pub open spec fn first_missing(s: Seq<Edge>, b: Seq<Edge>, k: int) -> bool {
    &&& 0 <= k < b.len()
    &&& !s.contains(b[k])
    &&& forall|j: int| 0 <= j < k ==> s.contains(#[trigger] b[j])
}

pub open spec fn has_child_edge(s: Seq<Edge>, c: Seq<char>) -> bool {
    exists|i: int| 0 <= i < s.len() && (#[trigger] s[i]).0 == c
}

pub open spec fn distinct_edges(s: Seq<Edge>) -> bool {
    forall|i: int, j: int| 0 <= i < j < s.len() ==> s[i] != s[j]
}

/// Errors of the thread relation store.
#[derive(Debug, Clone)]
pub enum ThreadError {
    /// The edge named does not exist.
    InvalidRelation,
    /// The edge at this index of a batch does not exist.
    InvalidRelationBatch(usize),
    /// The edge is already stored.
    AlreadyExists,
}

/// Parent/child edges between messages, keyed by message id. Lookups are
/// single-hop; the store knows nothing of tree-wide invariants.
pub struct Threads {
    edges: Vec<(String, String)>,
}

impl View for Threads {
    type V = Seq<Edge>;

    closed spec fn view(&self) -> Seq<Edge> {
        edge_views(self.edges@)
    }
}

proof fn lemma_filter_distinct(s: Seq<Edge>, pred: spec_fn(Edge) -> bool)
    requires
        distinct_edges(s),
    ensures
        distinct_edges(s.filter(pred)),
    decreases s.len(),
{
    reveal(Seq::filter);
    if s.len() > 0 {
        let t = s.drop_last();
        assert(distinct_edges(t));
        lemma_filter_distinct(t, pred);
        if pred(s.last()) {
            let f = t.filter(pred);
            assert forall|i: int, j: int| 0 <= i < j < f.len() + 1 implies f.push(s.last())[i]
                != f.push(s.last())[j] by {
                if j == f.len() {
                    if f[i] == s.last() {
                        assert(f.contains(f[i]));
                        assert(t.contains(s.last()));
                        let k = choose|k: int| 0 <= k < t.len() && t[k] == s.last();
                        assert(s[k] == s[s.len() - 1]);
                    }
                }
            }
        }
    }
}

/// What a removal keeps, element by element.
pub proof fn lemma_without(s: Seq<Edge>, child: Option<Seq<char>>, parent: Option<Seq<char>>)
    ensures
        forall|e: Edge|
            #[trigger] without(s, child, parent).contains(e) <==> s.contains(e) && !picked(
                e,
                child,
                parent,
            ),
{
    let pred = |e: Edge| !picked(e, child, parent);
    assert forall|e: Edge| #[trigger] without(s, child, parent).contains(e) <==> s.contains(e)
        && !picked(e, child, parent) by {
        if without(s, child, parent).contains(e) {
            let f = s.filter(pred);
            let k = choose|k: int| 0 <= k < f.len() && f[k] == e;
            s.lemma_filter_pred(pred, k);
        }
        if s.contains(e) && !picked(e, child, parent) {
            let k = choose|k: int| 0 <= k < s.len() && s[k] == e;
            s.lemma_filter_contains(pred, k);
        }
    }
}

/// The children listed for `p` are those with an edge to `p`.
pub proof fn lemma_children_in(s: Seq<Edge>, p: Seq<char>)
    ensures
        forall|x: Seq<char>| #[trigger] children_in(s, p).contains(x) <==> s.contains((x, p)),
{
    let pred = under(p);
    let f = s.filter(pred);
    let m = f.map_values(|e: Edge| e.0);
    assert(children_in(s, p) =~= m);
    assert forall|x: Seq<char>| #[trigger] children_in(s, p).contains(x) <==> s.contains((x, p)) by {
        if children_in(s, p).contains(x) {
            let k = choose|k: int| 0 <= k < m.len() && #[trigger] m[k] == x;
            s.lemma_filter_pred(pred, k);
            assert(f.contains(f[k]));
            assert(f[k] == (x, p));
        }
        if s.contains((x, p)) {
            let k = choose|k: int| 0 <= k < s.len() && s[k] == (x, p);
            s.lemma_filter_contains(pred, k);
            let j = choose|j: int| 0 <= j < f.len() && f[j] == (x, p);
            assert(f.map_values(|e: Edge| e.0)[j] == x);
        }
    }
}

impl Threads {
    pub open spec fn wf(&self) -> bool {
        distinct_edges(self@)
    }

    pub fn new() -> (r: Threads)
        ensures
            r.wf(),
            r@ == Seq::<Edge>::empty(),
    {
        Threads { edges: Vec::new() }
    }

    /// The stored edges as (child, parent).
    pub fn relations(&self) -> (r: &Vec<(String, String)>)
        ensures
            edge_views(r@) == self@,
    {
        &self.edges
    }

    fn index_of(&self, child: &str, parent: &str) -> (r: Option<usize>)
        ensures
            r matches Some(i) ==> i < self@.len() && self@[i as int] == (child@, parent@),
            r is None ==> !self@.contains((child@, parent@)),
    {
        let mut i: usize = 0;
        while i < self.edges.len()
            invariant
                i <= self.edges.len(),
                forall|k: int| 0 <= k < i ==> self@[k] != (child@, parent@),
            decreases self.edges.len() - i,
        {
            if text_eq(self.edges[i].0.as_str(), child) && text_eq(
                self.edges[i].1.as_str(),
                parent,
            ) {
                return Some(i);
            }
            i = i + 1;
        }
        None
    }

    /// Keeps the edges that the selection does not pick.
    fn retain_unpicked(&mut self, child: Option<&str>, parent: Option<&str>)
        requires
            old(self).wf(),
        ensures
            final(self).wf(),
            final(self)@ == without(
                old(self)@,
                match child {
                    Some(c) => Some(c@),
                    None => None,
                },
                match parent {
                    Some(p) => Some(p@),
                    None => None,
                },
            ),
    {
        let ghost c = match child {
            Some(c) => Some(c@),
            None => None::<Seq<char>>,
        };
        let ghost p = match parent {
            Some(p) => Some(p@),
            None => None::<Seq<char>>,
        };
        let ghost pred = |e: Edge| !picked(e, c, p);
        let ghost s = self@;
        let mut kept: Vec<(String, String)> = Vec::new();
        let mut i: usize = 0;
        while i < self.edges.len()
            invariant
                i <= self.edges.len(),
                s == self@,
                c == match child {
                    Some(x) => Some(x@),
                    None => None::<Seq<char>>,
                },
                p == match parent {
                    Some(x) => Some(x@),
                    None => None::<Seq<char>>,
                },
                pred == (|e: Edge| !picked(e, c, p)),
                edge_views(kept@) == s.take(i as int).filter(pred),
            decreases self.edges.len() - i,
        {
            let hit_child = match child {
                Some(x) => text_eq(self.edges[i].0.as_str(), x),
                None => true,
            };
            let hit_parent = match parent {
                Some(x) => text_eq(self.edges[i].1.as_str(), x),
                None => true,
            };
            assert(s.take(i + 1) == s.take(i as int).push(s[i as int]));
            assert(s[i as int] == (self.edges@[i as int].0@, self.edges@[i as int].1@));
            assert(pred(s[i as int]) == !(hit_child && hit_parent));
            if !(hit_child && hit_parent) {
                let e = (self.edges[i].0.clone(), self.edges[i].1.clone());
                kept.push(e);
                assert(edge_views(kept@) =~= s.take(i as int).filter(pred).push(s[i as int]));
            }
            i = i + 1;
        }
        assert(s.take(s.len() as int) == s);
        proof {
            lemma_filter_distinct(s, pred);
        }
        self.edges = kept;
    }

    /// Stores the edge `child -> parent`; storing it twice is refused.
    pub fn add(&mut self, child: &str, parent: &str) -> (r: Result<(), ThreadError>)
        requires
            old(self).wf(),
        ensures
            final(self).wf(),
            r is Err <==> old(self)@.contains((child@, parent@)),
            r matches Err(e) ==> e is AlreadyExists,
            r is Err ==> final(self)@ == old(self)@,
            r is Ok ==> final(self)@ == old(self)@.push((child@, parent@)),
    {
        if self.index_of(child, parent).is_some() {
            return Err(ThreadError::AlreadyExists);
        }
        let ghost s = self@;
        self.edges.push((child.to_owned(), parent.to_owned()));
        assert(self@ =~= s.push((child@, parent@)));
        assert forall|i: int, j: int| 0 <= i < j < self@.len() implies self@[i] != self@[j] by {
            if j == s.len() {
                assert(s.contains(s[i]));
            }
        }
        Ok(())
    }

    /// Moves `child` under `new_parent`, or detaches it when `new_parent` is
    /// `None`. A message that has no parent edge is left as it is.
    pub fn update_parent(&mut self, child: &str, new_parent: Option<&str>)
        requires
            old(self).wf(),
        ensures
            final(self).wf(),
            final(self)@ == match new_parent {
                Some(p) => if has_child_edge(old(self)@, child@) {
                    without(old(self)@, Some(child@), None).push((child@, p@))
                } else {
                    old(self)@
                },
                None => without(old(self)@, Some(child@), None),
            },
    {
        match new_parent {
            Some(p) => {
                if self.exists_node(child) {
                    self.retain_unpicked(Some(child), None);
                    let ghost s = self@;
                    self.edges.push((child.to_owned(), p.to_owned()));
                    assert(self@ =~= s.push((child@, p@)));
                    assert forall|i: int, j: int| 0 <= i < j < self@.len() implies self@[i]
                        != self@[j] by {
                        if j == s.len() {
                            if s[i] == (child@, p@) {
                                assert(s.contains(s[i]));
                            }
                        }
                    }
                }
            },
            None => {
                self.retain_unpicked(Some(child), None);
            },
        }
    }

    /// Removes the edge `child -> parent`; naming an edge that does not exist
    /// is an error, so that no other edge goes by mistake.
    pub fn delete(&mut self, child: &str, parent: &str) -> (r: Result<(), ThreadError>)
        requires
            old(self).wf(),
        ensures
            final(self).wf(),
            r is Err <==> !old(self)@.contains((child@, parent@)),
            r matches Err(e) ==> e is InvalidRelation,
            r is Err ==> final(self)@ == old(self)@,
            r is Ok ==> final(self)@ == without(old(self)@, Some(child@), Some(parent@)),
    {
        if !self.exists_relation(child, parent) {
            return Err(ThreadError::InvalidRelation);
        }
        self.retain_unpicked(Some(child), Some(parent));
        Ok(())
    }

    /// Removes every edge whose parent is `parent`.
    pub fn delete_with_parent(&mut self, parent: &str)
        requires
            old(self).wf(),
        ensures
            final(self).wf(),
            final(self)@ == without(old(self)@, None, Some(parent@)),
    {
        self.retain_unpicked(None, Some(parent));
    }

    /// Removes the parent edge of `child`.
    pub fn delete_with_child(&mut self, child: &str)
        requires
            old(self).wf(),
        ensures
            final(self).wf(),
            final(self)@ == without(old(self)@, Some(child@), None),
    {
        self.retain_unpicked(Some(child), None);
    }

    /// The children of `parent`, in the order their edges were stored.
    pub fn get_children(&self, parent: &str) -> (r: Vec<String>)
        ensures
            texts(r@) == children_in(self@, parent@),
    {
        let ghost s = self@;
        let ghost pred = under(parent@);
        let ghost f = |e: Edge| e.0;
        let mut out: Vec<String> = Vec::new();
        let mut i: usize = 0;
        while i < self.edges.len()
            invariant
                i <= self.edges.len(),
                s == self@,
                pred == under(parent@),
                f == (|e: Edge| e.0),
                texts(out@) == s.take(i as int).filter(pred).map_values(f),
            decreases self.edges.len() - i,
        {
            assert(s.take(i + 1) == s.take(i as int).push(s[i as int]));
            assert(s[i as int] == (self.edges@[i as int].0@, self.edges@[i as int].1@));
            if text_eq(self.edges[i].1.as_str(), parent) {
                let ghost prev = out@;
                out.push(self.edges[i].0.clone());
                assert(texts(out@) =~= texts(prev).push(s[i as int].0));
                let ghost kept = s.take(i as int).filter(pred);
                assert(kept.push(s[i as int]).map_values(f) =~= kept.map_values(f).push(s[i as int].0));
            }
            i = i + 1;
        }
        assert(s.take(s.len() as int) == s);
        out
    }

    /// The parent of `child`: that of its first edge, if it has one.
    pub fn get_parent(&self, child: &str) -> (r: Option<String>)
        ensures
            r is None <==> !has_child_edge(self@, child@),
            r matches Some(p) ==> exists|i: int|
                0 <= i < self@.len() && self@[i] == (child@, p@) && forall|j: int|
                    0 <= j < i ==> (#[trigger] self@[j]).0 != child@,
    {
        let mut i: usize = 0;
        while i < self.edges.len()
            invariant
                i <= self.edges.len(),
                forall|k: int| 0 <= k < i ==> (#[trigger] self@[k]).0 != child@,
            decreases self.edges.len() - i,
        {
            if text_eq(self.edges[i].0.as_str(), child) {
                let p = self.edges[i].1.clone();
                assert(self@[i as int] == (child@, p@));
                return Some(p);
            }
            i = i + 1;
        }
        None
    }

    /// Whether the edge `child -> parent` is stored.
    pub fn exists_relation(&self, child: &str, parent: &str) -> (r: bool)
        ensures
            r == self@.contains((child@, parent@)),
    {
        self.index_of(child, parent).is_some()
    }

    /// Whether `id` has a parent edge.
    pub fn exists_node(&self, id: &str) -> (r: bool)
        ensures
            r == has_child_edge(self@, id@),
    {
        let mut i: usize = 0;
        while i < self.edges.len()
            invariant
                i <= self.edges.len(),
                forall|k: int| 0 <= k < i ==> (#[trigger] self@[k]).0 != id@,
            decreases self.edges.len() - i,
        {
            if text_eq(self.edges[i].0.as_str(), id) {
                assert(self@[i as int].0 == id@);
                return true;
            }
            i = i + 1;
        }
        false
    }

    /// Whether one of the first `upto` pairs of the batch is `child -> parent`.
    fn batch_has(relations: &[(&str, &str)], upto: usize, child: &str, parent: &str) -> (r: bool)
        requires
            upto <= relations@.len(),
        ensures
            r == pair_views(relations@).take(upto as int).contains((child@, parent@)),
    {
        let ghost b = pair_views(relations@);
        let mut i: usize = 0;
        while i < upto
            invariant
                i <= upto <= relations.len(),
                b == pair_views(relations@),
                forall|k: int| 0 <= k < i ==> b[k] != (child@, parent@),
            decreases relations.len() - i,
        {
            let (c, p) = relations[i];
            if text_eq(c, child) && text_eq(p, parent) {
                assert(b.take(upto as int)[i as int] == (child@, parent@));
                return true;
            }
            i = i + 1;
        }
        assert forall|q: int| 0 <= q < upto implies b.take(upto as int)[q] != (child@, parent@) by {
            assert(b.take(upto as int)[q] == b[q]);
        }
        false
    }

    /// Stores every pair of a batch, or none of them: a pair that is stored
    /// already or comes twice refuses the whole batch.
    pub fn add_batch(&mut self, relations: &[(&str, &str)]) -> (r: Result<(), ThreadError>)
        requires
            old(self).wf(),
        ensures
            final(self).wf(),
            r is Err <==> batch_clashes(old(self)@, pair_views(relations@)),
            r matches Err(e) ==> e is AlreadyExists,
            r is Err ==> final(self)@ == old(self)@,
            r is Ok ==> final(self)@ == old(self)@ + pair_views(relations@),
    {
        let ghost o = self@;
        let ghost b = pair_views(relations@);
        let mut k: usize = 0;
        while k < relations.len()
            invariant
                k <= relations.len(),
                o == self@,
                self.wf(),
                b == pair_views(relations@),
                forall|q: int| 0 <= q < k ==> !o.contains(#[trigger] b[q]) && forall|j: int| 0 <= j < q ==> b[j] != b[q],
            decreases relations.len() - k,
        {
            let (c, p) = relations[k];
            assert(b[k as int] == (c@, p@));
            if self.exists_relation(c, p) || Self::batch_has(relations, k, c, p) {
                proof {
                    if !o.contains(b[k as int]) {
                        let sub = b.take(k as int);
                        assert(sub.contains((c@, p@)));
                        let j = choose|j: int| 0 <= j < sub.len() && sub[j] == (c@, p@);
                        assert(b[j] == sub[j]);
                    }
                }
                return Err(ThreadError::AlreadyExists);
            }
            proof {
                assert forall|j: int| 0 <= j < k implies b[j] != b[k as int] by {
                    let sub = b.take(k as int);
                    assert(sub[j] == b[j]);
                    if b[j] == b[k as int] {
                        assert(sub.contains(b[k as int]));
                    }
                }
            }
            k = k + 1;
        }
        let mut i: usize = 0;
        while i < relations.len()
            invariant
                i <= relations.len(),
                b == pair_views(relations@),
                self@ == o + b.take(i as int),
                distinct_edges(o),
                forall|q: int| 0 <= q < b.len() ==> !o.contains(#[trigger] b[q]) && forall|j: int| 0 <= j < q ==> b[j] != b[q],
                self.wf(),
            decreases relations.len() - i,
        {
            let (c, p) = relations[i];
            let ghost before = self@;
            self.edges.push((c.to_owned(), p.to_owned()));
            proof {
                assert(self@ =~= before.push(b[i as int]));
                assert(b.take(i + 1) =~= b.take(i as int).push(b[i as int]));
                assert forall|x: int, y: int| 0 <= x < y < self@.len() implies self@[x] != self@[y] by {
                    if y == before.len() {
                        if x < o.len() {
                            assert(o.contains(o[x]));
                        } else {
                            assert(self@[x] == b[x - o.len()]);
                        }
                    } else {
                        assert(self@[x] == before[x] && self@[y] == before[y]);
                    }
                }
            }
            i = i + 1;
        }
        assert(b.take(b.len() as int) =~= b);
        Ok(())
    }

    /// Removes every pair of a batch, or none of them: the first pair that
    /// is not stored refuses the whole batch, naming its index.
    pub fn delete_batch(&mut self, relations: &[(&str, &str)]) -> (r: Result<(), ThreadError>)
        requires
            old(self).wf(),
        ensures
            final(self).wf(),
            r is Err <==> exists|k: int| first_missing(old(self)@, pair_views(relations@), k),
            r matches Err(e) ==> (e matches ThreadError::InvalidRelationBatch(k) && first_missing(
                old(self)@,
                pair_views(relations@),
                k as int,
            )),
            r is Err ==> final(self)@ == old(self)@,
            r is Ok ==> final(self)@ == old(self)@.filter(|e: Edge| !pair_views(relations@).contains(e)),
    {
        let ghost o = self@;
        let ghost b = pair_views(relations@);
        let mut k: usize = 0;
        while k < relations.len()
            invariant
                k <= relations.len(),
                o == self@,
                self.wf(),
                b == pair_views(relations@),
                forall|q: int| 0 <= q < k ==> o.contains(#[trigger] b[q]),
            decreases relations.len() - k,
        {
            let (c, p) = relations[k];
            assert(b[k as int] == (c@, p@));
            if !self.exists_relation(c, p) {
                assert(first_missing(o, b, k as int));
                return Err(ThreadError::InvalidRelationBatch(k));
            }
            k = k + 1;
        }
        proof {
            assert forall|q: int| !first_missing(o, b, q) by {}
        }
        let ghost pred = |e: Edge| !b.contains(e);
        let mut kept: Vec<(String, String)> = Vec::new();
        let mut i: usize = 0;
        while i < self.edges.len()
            invariant
                i <= self.edges.len(),
                o == self@,
                b == pair_views(relations@),
                pred == (|e: Edge| !b.contains(e)),
                edge_views(kept@) == o.take(i as int).filter(pred),
            decreases self.edges.len() - i,
        {
            assert(o.take(i + 1) == o.take(i as int).push(o[i as int]));
            assert(o[i as int] == (self.edges@[i as int].0@, self.edges@[i as int].1@));
            proof {
                assert(b.take(b.len() as int) =~= b);
            }
            if !Self::batch_has(relations, relations.len(), self.edges[i].0.as_str(), self.edges[i].1.as_str()) {
                let e = (self.edges[i].0.clone(), self.edges[i].1.clone());
                kept.push(e);
                assert(edge_views(kept@) =~= o.take(i as int).filter(pred).push(o[i as int]));
            }
            i = i + 1;
        }
        assert(o.take(o.len() as int) == o);
        proof {
            lemma_filter_distinct(o, pred);
        }
        self.edges = kept;
        Ok(())
    }
}

} // verus!
