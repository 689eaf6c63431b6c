//! A set of token paths with a payload at each stored path.
//!
//! The trie answers three questions about a path: whether it is stored,
//! whether it leads towards a stored path, and whether it passes through one.
//! A token is anything that can be compared and copied; two tokens are the
//! same when their values are.

use vstd::prelude::*;
use crate::utils::text::{lemma_same_head_and_tail, views};

verus! {

/// A path of tokens that are texts.
pub type Path = Seq<Seq<char>>;

/// What can be a token of a path: a value that can be compared with another
/// and copied.
pub trait PathToken: View + Sized {
    fn same_as(&self, other: &Self) -> (r: bool)
        ensures
            r == (self@ == other@),
    ;

    fn copy(&self) -> (r: Self)
        ensures
            r@ == self@,
    ;
}

impl PathToken for String {
    fn same_as(&self, other: &Self) -> (r: bool) {
        *self == *other
    }

    fn copy(&self) -> (r: Self) {
        self.clone()
    }
}

impl PathToken for u64 {
    fn same_as(&self, other: &Self) -> (r: bool) {
        *self == *other
    }

    fn copy(&self) -> (r: Self) {
        *self
    }
}

impl PathToken for char {
    fn same_as(&self, other: &Self) -> (r: bool) {
        *self == *other
    }

    fn copy(&self) -> (r: Self) {
        *self
    }
}

/// `path` is stored in `stored`.
pub open spec fn has_exact<K>(stored: Set<Seq<K>>, path: Seq<K>) -> bool {
    stored.contains(path)
}

/// `path` is not empty and some stored path starts with it (or equals it).
pub open spec fn has_prefix<K>(stored: Set<Seq<K>>, path: Seq<K>) -> bool {
    path.len() > 0 && exists|q: Seq<K>| #[trigger] stored.contains(q) && path.is_prefix_of(q)
}

/// Some stored path is a leading part of `path` (or equals it).
pub open spec fn has_suffix<K>(stored: Set<Seq<K>>, path: Seq<K>) -> bool {
    exists|k: int| 1 <= k <= path.len() && #[trigger] stored.contains(path.take(k))
}

/// One node of the trie: the payload stored at the path that leads here, and
/// the nodes one token further on.
pub struct TrieNode<T: PathToken, U> {
    children: Vec<(T, TrieNode<T, U>)>,
    value: Option<U>,
}

/// The position of the child under `key`, if there is one.
pub closed spec fn find_child<T: PathToken, U>(kids: Seq<(T, TrieNode<T, U>)>, key: T::V) -> Option<
    int,
> {
    if exists|i: int| 0 <= i < kids.len() && (#[trigger] kids[i]).0@ == key {
        Some(choose|i: int| 0 <= i < kids.len() && (#[trigger] kids[i]).0@ == key)
    } else {
        None
    }
}

impl<T: PathToken, U> TrieNode<T, U> {
    /// No two children share a token, and every child holds a payload
    /// somewhere at or below it.
    pub closed spec fn wf(self) -> bool
        decreases self,
    {
        &&& forall|i: int, j: int|
            0 <= i < j < self.children@.len() ==> (#[trigger] self.children@[i]).0@ != (
            #[trigger] self.children@[j]).0@
        &&& forall|i: int|
            0 <= i < self.children@.len() ==> (#[trigger] self.children@[i]).1.wf()
                && self.children@[i].1.live()
    }

    /// The node holds a payload or has a child.
    pub closed spec fn live(self) -> bool {
        self.value.is_some() || self.children@.len() > 0
    }

    /// The payload found by following `path` down from this node.
    pub closed spec fn at(self, path: Seq<T::V>) -> Option<U>
        decreases path.len(),
    {
        if path.len() == 0 {
            self.value
        } else {
            match find_child(self.children@, path[0]) {
                None => None,
                Some(i) => self.children@[i].1.at(path.drop_first()),
            }
        }
    }

    /// There is a node at the end of `path`, followed down from this node.
    pub closed spec fn reach(self, path: Seq<T::V>) -> bool
        decreases path.len(),
    {
        if path.len() == 0 {
            true
        } else {
            match find_child(self.children@, path[0]) {
                None => false,
                Some(i) => self.children@[i].1.reach(path.drop_first()),
            }
        }
    }

    /// Following `path` down from this node passes a payload after at least
    /// one step.
    pub closed spec fn hit(self, path: Seq<T::V>) -> bool
        decreases path.len(),
    {
        if path.len() == 0 {
            false
        } else {
            match find_child(self.children@, path[0]) {
                None => false,
                Some(i) => self.children@[i].1.value.is_some() || self.children@[i].1.hit(
                    path.drop_first(),
                ),
            }
        }
    }

    /// The payload stored under `path`, which must not be empty.
    pub closed spec fn lookup(self, path: Seq<T::V>) -> Option<U> {
        if path.len() == 0 {
            None
        } else {
            self.at(path)
        }
    }

    /// The stored paths with their payloads.
    pub closed spec fn stored(self) -> Map<Seq<T::V>, U> {
        Map::new(|p: Seq<T::V>| self.lookup(p).is_some(), |p: Seq<T::V>| self.lookup(p).unwrap())
    }

    proof fn lemma_find_some(self, i: int)
        requires
            self.wf(),
            0 <= i < self.children@.len(),
        ensures
            find_child(self.children@, self.children@[i].0@) == Some(i),
    {
        let kids = self.children@;
        let key = kids[i].0@;
        assert(0 <= i < kids.len() && kids[i].0@ == key);
        let j = choose|j: int| 0 <= j < kids.len() && (#[trigger] kids[j]).0@ == key;
        if j < i {
            assert(kids[j].0@ != kids[i].0@);
        } else if i < j {
            assert(kids[i].0@ != kids[j].0@);
        }
    }

    proof fn lemma_find_sound(self, key: T::V)
        ensures
            match find_child(self.children@, key) {
                Some(i) => 0 <= i < self.children@.len() && self.children@[i].0@ == key,
                None => forall|i: int|
                    0 <= i < self.children@.len() ==> (#[trigger] self.children@[i]).0@ != key,
            },
    {
    }

    /// A live, well-formed node holds a payload at or below it.
    proof fn lemma_live_has_payload(self) -> (q: Seq<T::V>)
        requires
            self.wf(),
            self.live(),
        ensures
            self.at(q).is_some(),
        decreases self,
    {
        if self.value.is_some() {
            let q: Seq<T::V> = Seq::empty();
            q
        } else {
            let c = self.children@[0];
            let below = c.1.lemma_live_has_payload();
            let q = seq![c.0@] + below;
            self.lemma_find_some(0);
            assert(q.drop_first() =~= below);
            q
        }
    }

    /// `reach` holds exactly when some payload lies at or below the end of
    /// the path.
    proof fn lemma_reach(self, path: Seq<T::V>)
        requires
            self.wf(),
            self.live(),
        ensures
            self.reach(path) <==> exists|q: Seq<T::V>|
                path.is_prefix_of(q) && (#[trigger] self.at(q)).is_some(),
        decreases path.len(),
    {
        if path.len() == 0 {
            let q = self.lemma_live_has_payload();
            assert(path.is_prefix_of(q) && self.at(q).is_some());
        } else {
            self.lemma_find_sound(path[0]);
            match find_child(self.children@, path[0]) {
                None => {
                    assert forall|q: Seq<T::V>| path.is_prefix_of(q) implies !(#[trigger] self.at(
                        q,
                    )).is_some() by {
                        assert(q[0] == path[0]);
                    }
                },
                Some(i) => {
                    let c = self.children@[i].1;
                    let rest = path.drop_first();
                    c.lemma_reach(rest);
                    if c.reach(rest) {
                        let q1 = choose|q: Seq<T::V>|
                            rest.is_prefix_of(q) && (#[trigger] c.at(q)).is_some();
                        let q = seq![path[0]] + q1;
                        assert(q.drop_first() =~= q1);
                        assert(q[0] == path[0]);
                        assert(self.at(q) == c.at(q1));
                        assert(path.is_prefix_of(q)) by {
                            assert(path =~= seq![path[0]] + rest);
                            assert(q.subrange(0, path.len() as int) =~= path);
                        }
                    }
                    if exists|q: Seq<T::V>| path.is_prefix_of(q) && (#[trigger] self.at(q)).is_some() {
                        let q = choose|q: Seq<T::V>|
                            path.is_prefix_of(q) && (#[trigger] self.at(q)).is_some();
                        assert(q[0] == path[0]);
                        let q1 = q.drop_first();
                        assert(rest.is_prefix_of(q1)) by {
                            assert(q1.subrange(0, rest.len() as int) =~= rest);
                        }
                        assert(c.at(q1).is_some());
                    }
                },
            }
        }
    }

    /// `hit` holds exactly when some leading part of the path holds a payload.
    proof fn lemma_hit(self, path: Seq<T::V>)
        ensures
            self.hit(path) <==> exists|k: int|
                1 <= k <= path.len() && (#[trigger] self.at(path.take(k))).is_some(),
        decreases path.len(),
    {
        if path.len() > 0 {
            self.lemma_find_sound(path[0]);
            match find_child(self.children@, path[0]) {
                None => {
                    assert forall|k: int| 1 <= k <= path.len() implies !(#[trigger] self.at(
                        path.take(k),
                    )).is_some() by {
                        assert(path.take(k)[0] == path[0]);
                    }
                },
                Some(i) => {
                    let c = self.children@[i].1;
                    let rest = path.drop_first();
                    c.lemma_hit(rest);
                    assert forall|k: int| 1 <= k <= path.len() implies #[trigger] self.at(
                        path.take(k),
                    ) == c.at(rest.take(k - 1)) by {
                        assert(path.take(k)[0] == path[0]);
                        assert(path.take(k).drop_first() =~= rest.take(k - 1));
                    }
                    if self.hit(path) {
                        if c.value.is_some() {
                            assert(rest.take(0) =~= Seq::<T::V>::empty());
                            assert(self.at(path.take(1)).is_some());
                        } else {
                            let k1 = choose|k: int|
                                1 <= k <= rest.len() && (#[trigger] c.at(rest.take(k))).is_some();
                            assert(self.at(path.take(k1 + 1)).is_some());
                        }
                    }
                    if exists|k: int|
                        1 <= k <= path.len() && (#[trigger] self.at(path.take(k))).is_some() {
                        let k = choose|k: int|
                            1 <= k <= path.len() && (#[trigger] self.at(path.take(k))).is_some();
                        if k == 1 {
                            assert(rest.take(0) =~= Seq::<T::V>::empty());
                        } else {
                            assert(c.at(rest.take(k - 1)).is_some());
                        }
                    }
                },
            }
        }
    }

    /// An empty node.
    pub fn new() -> (r: Self)
        ensures
            r.wf(),
            !r.live(),
            forall|p: Seq<T::V>| r.at(p).is_none(),
            r.stored() == Map::<Seq<T::V>, U>::empty(),
    {
        let r = TrieNode { children: Vec::new(), value: None };
        proof {
            assert forall|p: Seq<T::V>| r.at(p).is_none() by {
                if p.len() > 0 {
                    r.lemma_find_sound(p[0]);
                }
            }
            assert(r.stored() =~= Map::<Seq<T::V>, U>::empty());
        }
        r
    }

    fn child_position(&self, key: &T) -> (r: Option<usize>)
        requires
            self.wf(),
        ensures
            match r {
                Some(i) => i < self.children@.len() && find_child(self.children@, key@) == Some(
                    i as int,
                ),
                None => find_child(self.children@, key@).is_none(),
            },
    {
        let mut i: usize = 0;
        while i < self.children.len()
            invariant
                self.wf(),
                i <= self.children@.len(),
                forall|k: int| 0 <= k < i ==> (#[trigger] self.children@[k]).0@ != key@,
            decreases self.children@.len() - i,
        {
            if self.children[i].0.same_as(key) {
                proof {
                    self.lemma_find_some(i as int);
                }
                return Some(i);
            }
            i += 1;
        }
        None
    }

    /// Stores `data` at the end of `path[start..]` unless a payload is there
    /// already.
    fn add_at(&mut self, path: &Vec<T>, start: usize, data: U) -> (r: bool)
        requires
            old(self).wf(),
            start <= path.len(),
        ensures
            final(self).wf(),
            final(self).live(),
            r == old(self).at(views(path@).skip(start as int)).is_none(),
            forall|q: Seq<T::V>|
                #[trigger] final(self).at(q) == (if r && q == views(path@).skip(start as int) {
                    Some(data)
                } else {
                    old(self).at(q)
                }),
        decreases path.len() - start,
    {
        let ghost suffix = views(path@).skip(start as int);
        let ghost before = *self;
        if start == path.len() {
            assert(suffix.len() == 0);
            if self.value.is_some() {
                return false;
            }
            self.value = Some(data);
            proof {
                assert(self.children@ == before.children@);
                assert forall|q: Seq<T::V>| #[trigger] self.at(q) == (if q == suffix {
                    Some(data)
                } else {
                    before.at(q)
                }) by {
                    if q.len() == 0 {
                        assert(q =~= suffix);
                    }
                }
            }
            return true;
        }
        let ghost key = suffix[0];
        let ghost rest = suffix.drop_first();
        assert(key == path@[start as int]@);
        assert(rest =~= views(path@).skip(start + 1));
        proof {
            before.lemma_find_sound(key);
        }
        match self.child_position(&path[start]) {
            None => {
                let mut child: TrieNode<T, U> = TrieNode::new();
                let ghost empty_child = child;
                let r = child.add_at(path, start + 1, data);
                self.children.push((path[start].copy(), child));
                proof {
                    let n = before.children@.len() as int;
                    assert(self.children@[n].0@ == key);
                    assert(self.children@.len() == n + 1);
                    assert forall|i: int| 0 <= i < n implies self.children@[i]
                        == before.children@[i] by {}
                    assert(self.wf());
                    self.lemma_find_some(n);
                    assert forall|q: Seq<T::V>| #[trigger] self.at(q) == (if q == suffix {
                        Some(data)
                    } else {
                        before.at(q)
                    }) by {
                        if q.len() > 0 {
                            if q[0] == key {
                                assert(self.at(q) == child.at(q.drop_first()));
                                assert(before.at(q).is_none());
                                if q.drop_first() == rest {
                                    lemma_same_head_and_tail(q, suffix);
                                }
                            } else {
                                before.lemma_find_sound(q[0]);
                                self.lemma_find_sound(q[0]);
                                match find_child(before.children@, q[0]) {
                                    None => {},
                                    Some(i) => {
                                        self.lemma_find_some(i);
                                    },
                                }
                            }
                        }
                    }
                }
                r
            },
            Some(idx) => {
                let (k, mut child) = self.children.remove(idx);
                let ghost old_child = child;
                assert(old_child == before.children@[idx as int].1);
                let r = child.add_at(path, start + 1, data);
                self.children.insert(idx, (k, child));
                proof {
                    assert(self.children@ =~= before.children@.update(idx as int, (k, child)));
                    assert(self.wf());
                    self.lemma_find_some(idx as int);
                    assert forall|q: Seq<T::V>| #[trigger] self.at(q) == (if r && q == suffix {
                        Some(data)
                    } else {
                        before.at(q)
                    }) by {
                        if q.len() > 0 {
                            if q[0] == key {
                                assert(self.at(q) == child.at(q.drop_first()));
                                assert(before.at(q) == old_child.at(q.drop_first()));
                                if q.drop_first() == rest {
                                    lemma_same_head_and_tail(q, suffix);
                                }
                            } else {
                                before.lemma_find_sound(q[0]);
                                self.lemma_find_sound(q[0]);
                                match find_child(before.children@, q[0]) {
                                    None => {},
                                    Some(i) => {
                                        self.lemma_find_some(i);
                                    },
                                }
                            }
                        }
                    }
                }
                r
            },
        }
    }

    fn get_at<'a>(&'a self, path: &Vec<T>, start: usize) -> (r: Option<&'a U>)
        requires
            self.wf(),
            start <= path.len(),
        ensures
            r.is_some() == self.at(views(path@).skip(start as int)).is_some(),
            r.is_some() ==> *r.unwrap() == self.at(views(path@).skip(start as int)).unwrap(),
        decreases path.len() - start,
    {
        let ghost suffix = views(path@).skip(start as int);
        if start == path.len() {
            return self.value.as_ref();
        }
        assert(suffix[0] == path@[start as int]@);
        assert(suffix.drop_first() =~= views(path@).skip(start + 1));
        match self.child_position(&path[start]) {
            None => None,
            Some(idx) => self.children[idx].1.get_at(path, start + 1),
        }
    }

    fn reach_at(&self, path: &Vec<T>, start: usize) -> (r: bool)
        requires
            self.wf(),
            start <= path.len(),
        ensures
            r == self.reach(views(path@).skip(start as int)),
        decreases path.len() - start,
    {
        let ghost suffix = views(path@).skip(start as int);
        if start == path.len() {
            return true;
        }
        assert(suffix[0] == path@[start as int]@);
        assert(suffix.drop_first() =~= views(path@).skip(start + 1));
        match self.child_position(&path[start]) {
            None => false,
            Some(idx) => self.children[idx].1.reach_at(path, start + 1),
        }
    }

    fn hit_at(&self, path: &Vec<T>, start: usize) -> (r: bool)
        requires
            self.wf(),
            start <= path.len(),
        ensures
            r == self.hit(views(path@).skip(start as int)),
        decreases path.len() - start,
    {
        let ghost suffix = views(path@).skip(start as int);
        if start == path.len() {
            return false;
        }
        assert(suffix[0] == path@[start as int]@);
        assert(suffix.drop_first() =~= views(path@).skip(start + 1));
        match self.child_position(&path[start]) {
            None => false,
            Some(idx) => {
                let child = &self.children[idx].1;
                child.value.is_some() || child.hit_at(path, start + 1)
            },
        }
    }

    /// Stores `data` under `path`. Returns `false`, and changes nothing, when
    /// `path` is empty or already holds a payload.
    pub fn add(&mut self, path: &Vec<T>, data: U) -> (r: bool)
        requires
            old(self).wf(),
        ensures
            final(self).wf(),
            r == (path@.len() > 0 && !old(self).stored().contains_key(views(path@))),
            final(self).stored() == (if r {
                old(self).stored().insert(views(path@), data)
            } else {
                old(self).stored()
            }),
    {
        if path.len() == 0 {
            return false;
        }
        let ghost before = *self;
        let ghost p = views(path@);
        assert(p.skip(0) =~= p);
        let r = self.add_at(path, 0, data);
        proof {
            let target = if r {
                before.stored().insert(p, data)
            } else {
                before.stored()
            };
            assert forall|q: Seq<T::V>| self.stored().contains_key(q) == target.contains_key(q) by {
                assert(self.lookup(q).is_some() == self.stored().contains_key(q));
                assert(before.lookup(q).is_some() == before.stored().contains_key(q));
            }
            assert forall|q: Seq<T::V>| self.stored().contains_key(q) implies self.stored()[q]
                == target[q] by {
                assert(before.lookup(q).is_some() == before.stored().contains_key(q));
            }
            assert(self.stored() =~= target);
        }
        r
    }

    /// The payload stored under `path`, if there is one.
    pub fn get<'a>(&'a self, path: &Vec<T>) -> (r: Option<&'a U>)
        requires
            self.wf(),
        ensures
            r.is_some() == self.stored().contains_key(views(path@)),
            r.is_some() ==> *r.unwrap() == self.stored()[views(path@)],
    {
        if path.len() == 0 {
            return None;
        }
        assert(views(path@).skip(0) =~= views(path@));
        self.get_at(path, 0)
    }

    /// Whether `path` is stored.
    pub fn contains(&self, path: &Vec<T>) -> (r: bool)
        requires
            self.wf(),
        ensures
            r == has_exact(self.stored().dom(), views(path@)),
    {
        self.get(path).is_some()
    }

    /// Whether `path` is not empty and leads towards, or is, a stored path.
    pub fn contains_prefix(&self, path: &Vec<T>) -> (r: bool)
        requires
            self.wf(),
        ensures
            r == has_prefix(self.stored().dom(), views(path@)),
    {
        let ghost p = views(path@);
        if path.len() == 0 {
            return false;
        }
        assert(p.skip(0) =~= p);
        let r = self.reach_at(path, 0);
        proof {
            self.lemma_find_sound(p[0]);
            if self.reach(p) {
                assert(self.live());
                self.lemma_reach(p);
                let q = choose|q: Seq<T::V>| p.is_prefix_of(q) && (#[trigger] self.at(q)).is_some();
                assert(self.lookup(q).is_some());
                assert(self.stored().dom().contains(q));
            }
            if has_prefix(self.stored().dom(), p) {
                let q = choose|q: Seq<T::V>| #[trigger]
                    self.stored().dom().contains(q) && p.is_prefix_of(q);
                assert(self.lookup(q).is_some());
                assert(q[0] == p[0]);
                assert(self.live());
                self.lemma_reach(p);
                assert(self.at(q).is_some());
            }
        }
        r
    }

    /// Whether `path` passes through, or ends at, a stored path.
    pub fn contains_suffix(&self, path: &Vec<T>) -> (r: bool)
        requires
            self.wf(),
        ensures
            r == has_suffix(self.stored().dom(), views(path@)),
    {
        let ghost p = views(path@);
        assert(p.skip(0) =~= p);
        let r = self.hit_at(path, 0);
        proof {
            self.lemma_hit(p);
            if self.hit(p) {
                let k = choose|k: int|
                    1 <= k <= p.len() && (#[trigger] self.at(p.take(k))).is_some();
                assert(self.lookup(p.take(k)).is_some());
                assert(self.stored().dom().contains(p.take(k)));
            }
            if has_suffix(self.stored().dom(), p) {
                let k = choose|k: int|
                    1 <= k <= p.len() && #[trigger] self.stored().dom().contains(p.take(k));
                assert(self.lookup(p.take(k)).is_some());
                assert(self.at(p.take(k)).is_some());
            }
        }
        r
    }
}

/// A set of token paths with a payload for each.
pub struct Trie<T: PathToken, U> {
    root: TrieNode<T, U>,
}

impl<T: PathToken, U> View for Trie<T, U> {
    type V = Map<Seq<T::V>, U>;

    closed spec fn view(&self) -> Map<Seq<T::V>, U> {
        self.root.stored()
    }
}

impl<T: PathToken, U> Trie<T, U> {
    /// The invariant of the representation.
    pub closed spec fn wf(self) -> bool {
        self.root.wf()
    }

    /// The empty path is never stored.
    pub proof fn lemma_no_empty_path(self)
        ensures
            !self@.contains_key(Seq::<T::V>::empty()),
    {
    }

    /// An empty trie.
    pub fn new() -> (r: Self)
        ensures
            r.wf(),
            r@ == Map::<Seq<T::V>, U>::empty(),
    {
        Trie { root: TrieNode::new() }
    }

    /// Stores `data` under `path`. Returns `false`, and changes nothing, when
    /// `path` is empty or already holds a payload.
    pub fn add(&mut self, path: &Vec<T>, data: U) -> (r: bool)
        requires
            old(self).wf(),
        ensures
            final(self).wf(),
            r == (path@.len() > 0 && !old(self)@.contains_key(views(path@))),
            final(self)@ == (if r {
                old(self)@.insert(views(path@), data)
            } else {
                old(self)@
            }),
    {
        self.root.add(path, data)
    }

    /// The payload stored under `path`, if there is one.
    pub fn get<'a>(&'a self, path: &Vec<T>) -> (r: Option<&'a U>)
        requires
            self.wf(),
        ensures
            r.is_some() == self@.contains_key(views(path@)),
            r.is_some() ==> *r.unwrap() == self@[views(path@)],
    {
        self.root.get(path)
    }

    /// Whether `path` is stored.
    pub fn contains(&self, path: &Vec<T>) -> (r: bool)
        requires
            self.wf(),
        ensures
            r == has_exact(self@.dom(), views(path@)),
    {
        self.root.contains(path)
    }

    /// Whether `path` is not empty and leads towards, or is, a stored path.
    pub fn contains_prefix(&self, path: &Vec<T>) -> (r: bool)
        requires
            self.wf(),
        ensures
            r == has_prefix(self@.dom(), views(path@)),
    {
        self.root.contains_prefix(path)
    }

    /// Whether `path` passes through, or ends at, a stored path.
    pub fn contains_suffix(&self, path: &Vec<T>) -> (r: bool)
        requires
            self.wf(),
        ensures
            r == has_suffix(self@.dom(), views(path@)),
    {
        self.root.contains_suffix(path)
    }
}

/// Every stored path answers all three queries: it is found exactly, each of
/// its non-empty leading parts is found as a prefix, and every extension of it
/// is found as a suffix. The empty path answers none.
pub proof fn lemma_stored_path_queries<K>(stored: Set<Seq<K>>, path: Seq<K>, k: int, more: Seq<K>)
    requires
        stored.contains(path),
        path.len() > 0,
        1 <= k <= path.len(),
    ensures
        has_exact(stored, path),
        has_prefix(stored, path.take(k)),
        has_suffix(stored, path + more),
        !has_prefix(stored, Seq::<K>::empty()),
        !has_suffix(stored, Seq::<K>::empty()),
{
    assert(path.take(k).is_prefix_of(path));
    assert((path + more).take(path.len() as int) =~= path);
}

} // verus!
