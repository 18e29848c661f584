use std::collections::HashMap;
use vstd::prelude::*;

verus! {

broadcast use vstd::std_specs::hash::group_hash_axioms;

/// One position along the character paths of the stored keys.
///
/// Each edge is labelled by the code point of a character. `value` is
/// present exactly when some stored key ends at this node.
pub struct TrieNode<T> {
    children: HashMap<u32, Box<TrieNode<T>>>,
    value: Option<T>,
}

impl<T> TrieNode<T> {
    /// The number of edges leaving this node.
    pub closed spec fn num_children(&self) -> nat {
        self.children@.len()
    }

    /// The value of the key that ends at this node, if one does.
    pub closed spec fn stored(&self) -> Option<T> {
        self.value
    }

    /// Whether following the characters of `path` from this node reaches a
    /// node.
    pub closed spec fn has_path(&self, path: Seq<char>) -> bool
        decreases path.len(),
    {
        if path.len() == 0 {
            true
        } else if self.children@.contains_key(path[0] as u32) {
            self.children@[path[0] as u32].has_path(path.drop_first())
        } else {
            false
        }
    }

    /// The value stored under `key`, read from this node downward.
    pub closed spec fn lookup(&self, key: Seq<char>) -> Option<T>
        decreases key.len(),
    {
        if key.len() == 0 {
            self.value
        } else if self.children@.contains_key(key[0] as u32) {
            self.children@[key[0] as u32].lookup(key.drop_first())
        } else {
            None
        }
    }

    /// A node with no edges and no value.
    pub fn new() -> (r: Self)
        ensures
            r.num_children() == 0,
            r.stored() is None,
            forall|k: Seq<char>| #[trigger] r.lookup(k) is None,
            forall|p: Seq<char>| #[trigger] r.has_path(p) <==> p.len() == 0,
    {
        let r = TrieNode { children: HashMap::new(), value: None };
        proof {
            lemma_empty_node(r);
        }
        r
    }

    /// Whether this node is `old` after storing `value` under `suffix`,
    /// counted from `old`, with a node added for each prefix of `suffix`
    /// that had none.
    pub closed spec fn stores_from(&self, old: TrieNode<T>, suffix: Seq<char>, value: T) -> bool {
        &&& forall|k: Seq<char>| #[trigger]
            self.lookup(k) == if k == suffix {
                Some(value)
            } else {
                old.lookup(k)
            }
        &&& forall|p: Seq<char>| #[trigger]
            self.has_path(p) <==> old.has_path(p) || p.is_prefix_of(suffix)
    }

    /// Whether `child` is what `self` reaches over the edge of `c`, or a node
    /// with no edges and no value where there is no such edge.
    pub closed spec fn child_or_empty(&self, c: char, child: TrieNode<T>) -> bool {
        if self.children@.contains_key(c as u32) {
            child == *self.children@[c as u32]
        } else {
            child.children@.len() == 0 && child.value is None
        }
    }
}

/// A node with no edges and no value stores nothing, and only the empty path
/// reaches a node from it.
proof fn lemma_empty_node<T>(n: TrieNode<T>)
    requires
        n.children@.len() == 0,
        n.value is None,
    ensures
        forall|k: Seq<char>| #[trigger] n.lookup(k) is None,
        forall|p: Seq<char>| #[trigger] n.has_path(p) <==> p.len() == 0,
{
    assert forall|k: Seq<char>| #[trigger] n.lookup(k) is None by {
        if k.len() > 0 {
            assert(!n.children@.contains_key(k[0] as u32));
        }
    }
    assert forall|p: Seq<char>| #[trigger] n.has_path(p) <==> p.len() == 0 by {
        if p.len() > 0 {
            assert(!n.children@.contains_key(p[0] as u32));
        }
    }
}

/// Storing into a leaf: setting the value of `old` gives `new`.
proof fn lemma_store_here<T>(new: TrieNode<T>, old: TrieNode<T>, value: T)
    requires
        new.children@ == old.children@,
        new.value == Some(value),
    ensures
        new.stores_from(old, Seq::empty(), value),
{
    assert forall|k: Seq<char>| #[trigger]
        new.lookup(k) == if k == Seq::<char>::empty() {
            Some(value)
        } else {
            old.lookup(k)
        } by {
        if k.len() == 0 {
            assert(k =~= Seq::<char>::empty());
        }
    }
    assert forall|p: Seq<char>| #[trigger]
        new.has_path(p) <==> old.has_path(p) || p.is_prefix_of(Seq::<char>::empty()) by {
        if p.len() == 0 {
            assert(p.is_prefix_of(Seq::<char>::empty()));
        }
    }
}

/// Storing one level up: where `new_child` is `old_child` after storing
/// under the rest of `suffix`, putting it back under the first character of
/// `suffix` turns `old` into a node that stores under all of `suffix`.
proof fn lemma_store_below<T>(
    new: TrieNode<T>,
    old: TrieNode<T>,
    new_child: TrieNode<T>,
    old_child: TrieNode<T>,
    suffix: Seq<char>,
    value: T,
)
    requires
        suffix.len() > 0,
        old.child_or_empty(suffix[0], old_child),
        new_child.stores_from(old_child, suffix.drop_first(), value),
        new.value == old.value,
        new.children@ == old.children@.insert(suffix[0] as u32, Box::new(new_child)),
    ensures
        new.stores_from(old, suffix, value),
{
    let c = suffix[0];
    if !old.children@.contains_key(c as u32) {
        lemma_empty_node(old_child);
    }
    assert forall|k: Seq<char>| #[trigger]
        new.lookup(k) == if k == suffix {
            Some(value)
        } else {
            old.lookup(k)
        } by {
        if k.len() > 0 {
            let rest = k.drop_first();
            if k[0] == c {
                assert(new.lookup(k) == new_child.lookup(rest));
                assert(old.lookup(k) == old_child.lookup(rest));
                if rest == suffix.drop_first() {
                    lemma_same_head_and_tail(k, suffix);
                }
            } else {
                lemma_code_point_injective(k[0], c);
                assert(k != suffix);
            }
        } else {
            assert(k != suffix);
        }
    }
    assert forall|p: Seq<char>| #[trigger]
        new.has_path(p) <==> old.has_path(p) || p.is_prefix_of(suffix) by {
        if p.len() > 0 {
            let rest = p.drop_first();
            lemma_prefix_by_head(p, suffix);
            if p[0] == c {
                assert(new.has_path(p) == new_child.has_path(rest));
                if old.children@.contains_key(c as u32) {
                    assert(old.has_path(p) == old_child.has_path(rest));
                } else {
                    assert(!old.has_path(p));
                }
            } else {
                lemma_code_point_injective(p[0], c);
            }
        } else {
            assert(p.is_prefix_of(suffix));
        }
    }
}

/// Distinct characters have distinct code points.
proof fn lemma_code_point_injective(a: char, b: char)
    ensures
        a as u32 == b as u32 ==> a == b,
{
}

/// Two non-empty sequences with the same first element and the same rest
/// are equal.
proof fn lemma_same_head_and_tail(a: Seq<char>, b: Seq<char>)
    requires
        a.len() > 0,
        b.len() > 0,
        a[0] == b[0],
        a.drop_first() == b.drop_first(),
    ensures
        a == b,
{
    assert(a.drop_first().len() == a.len() - 1);
    assert(b.drop_first().len() == b.len() - 1);
    assert forall|j: int| 0 <= j < a.len() implies a[j] == b[j] by {
        if j > 0 {
            assert(a[j] == a.drop_first()[j - 1]);
            assert(b[j] == b.drop_first()[j - 1]);
        }
    }
    assert(a =~= b);
}

/// The characters of `s`, in order.
fn chars_of(s: &str) -> (r: Vec<char>)
    ensures
        r@ == s@,
{
    let mut r: Vec<char> = Vec::new();
    for c in it: s.chars()
        invariant
            r@ == it.seq().take(it.index() as int),
    {
        r.push(c);
    }
    assert(r@ =~= s@);
    r
}

/// A non-empty sequence is a prefix of another exactly when the two start
/// with the same element and the rest of the first is a prefix of the rest
/// of the second.
proof fn lemma_prefix_by_head(p: Seq<char>, s: Seq<char>)
    requires
        p.len() > 0,
        s.len() > 0,
    ensures
        p.is_prefix_of(s) <==> p[0] == s[0] && p.drop_first().is_prefix_of(s.drop_first()),
{
    let (pr, sr) = (p.drop_first(), s.drop_first());
    if p.is_prefix_of(s) {
        assert(p[0] == s.subrange(0, p.len() as int)[0]);
        assert(pr =~= sr.subrange(0, pr.len() as int));
    }
    if p[0] == s[0] && pr.is_prefix_of(sr) {
        assert forall|j: int| 0 <= j < p.len() implies p[j] == s.subrange(0, p.len() as int)[j] by {
            if j > 0 {
                assert(p[j] == pr[j - 1]);
                assert(sr.subrange(0, pr.len() as int)[j - 1] == s[j]);
            }
        }
        assert(p =~= s.subrange(0, p.len() as int));
    }
}

/// A lookup table from character sequences to values.
pub struct Trie<T> {
    root: TrieNode<T>,
}

impl<T> View for Trie<T> {
    type V = Map<Seq<char>, T>;

    /// The stored keys, each with the value last stored under it.
    closed spec fn view(&self) -> Map<Seq<char>, T> {
        Map::new(|k: Seq<char>| self.root.lookup(k) is Some, |k: Seq<char>| self.root.lookup(k)->Some_0)
    }
}

impl<T: Clone> Trie<T> {
    /// An empty table.
    pub fn new() -> (r: Self)
        ensures
            r@ == Map::<Seq<char>, T>::empty(),
    {
        let r = Trie { root: TrieNode::new() };
        assert(r@ =~= Map::<Seq<char>, T>::empty());
        r
    }

    /// Whether following the characters of `path` from the root reaches a
    /// node. The root itself is reached by the empty path.
    pub closed spec fn has_path(&self, path: Seq<char>) -> bool {
        self.root.has_path(path)
    }

    /// Stores `value` under `key`, replacing any value stored there before.
    /// Every node is kept, and a node is added for each prefix of `key` that
    /// had none.
    pub fn insert(&mut self, key: String, value: T)
        ensures
            final(self)@ == old(self)@.insert(key@, value),
            forall|p: Seq<char>| #[trigger]
                final(self).has_path(p) <==> old(self).has_path(p) || p.is_prefix_of(key@),
    {
        let chars = chars_of(key.as_str());
        let n = chars.len();
        // Walk down the path of `key`, detaching each node from its parent
        // and creating the missing ones; `path` holds the nodes passed.
        let mut cur: TrieNode<T> = TrieNode::new();
        std::mem::swap(&mut self.root, &mut cur);
        let mut path: Vec<TrieNode<T>> = Vec::new();
        let ghost olds: Seq<TrieNode<T>> = seq![cur];
        let mut i: usize = 0;
        while i < n
            invariant
                n == chars@.len(),
                chars@ == key@,
                i <= n,
                path@.len() == i,
                olds.len() == i + 1,
                olds[0] == old(self).root,
                olds[i as int] == cur,
                forall|j: int|
                    0 <= j < i ==> (#[trigger] path@[j]).value == olds[j].value
                        && path@[j].children@ == olds[j].children@.remove(chars@[j] as u32)
                        && olds[j].child_or_empty(chars@[j], olds[j + 1]),
            decreases n - i,
        {
            let c = chars[i];
            let child = match cur.children.remove(&(c as u32)) {
                Some(b) => *b,
                None => TrieNode::new(),
            };
            proof {
                olds = olds.push(child);
            }
            path.push(cur);
            cur = child;
            i = i + 1;
        }
        cur.value = Some(value);
        proof {
            lemma_store_here(cur, olds[n as int], value);
            assert(chars@.skip(n as int) =~= Seq::<char>::empty());
        }
        // Walk back up, putting each node under its parent again.
        let ghost down = path@;
        while i > 0
            invariant
                n == chars@.len(),
                i <= n,
                path@ == down.take(i as int),
                down.len() == n,
                olds.len() == n + 1,
                cur.stores_from(olds[i as int], chars@.skip(i as int), value),
                forall|j: int|
                    0 <= j < n ==> (#[trigger] down[j]).value == olds[j].value
                        && down[j].children@ == olds[j].children@.remove(chars@[j] as u32)
                        && olds[j].child_or_empty(chars@[j], olds[j + 1]),
            decreases i,
        {
            let ghost before_pop = path@;
            let mut parent = path.pop().unwrap();
            i = i - 1;
            assert(before_pop[i as int] == down.take(i + 1)[i as int]);
            let ghost detached = parent;
            let c = chars[i];
            let ghost below = cur;
            parent.children.insert(c as u32, Box::new(cur));
            proof {
                let suffix = chars@.skip(i as int);
                assert(path@ =~= down.take(i as int));
                assert(detached == down[i as int]);
                assert(suffix.drop_first() =~= chars@.skip(i + 1));
                assert(parent.children@ =~= olds[i as int].children@.insert(
                    suffix[0] as u32,
                    Box::new(below),
                ));
                lemma_store_below(parent, olds[i as int], below, olds[i + 1], suffix, value);
            }
            cur = parent;
        }
        self.root = cur;
        proof {
            assert(chars@.skip(0) =~= key@);
        }
        assert(self@ =~= old(self)@.insert(key@, value));
    }

    /// The value stored under `key`, cloned, or `None` where no value is stored.
    pub fn get(&self, key: &str) -> (r: Option<T>)
        ensures
            r is Some <==> self@.contains_key(key@),
            r is Some ==> cloned(self@[key@], r->Some_0),
    {
        let chars = chars_of(key);
        let mut node: &TrieNode<T> = &self.root;
        let mut i: usize = 0;
        assert(key@.skip(0) =~= key@);
        while i < chars.len()
            invariant
                i <= chars@.len(),
                chars@ == key@,
                node.lookup(key@.skip(i as int)) == self.root.lookup(key@),
            decreases chars@.len() - i,
        {
            let c = chars[i];
            let ghost suffix = key@.skip(i as int);
            assert(suffix.drop_first() =~= key@.skip(i + 1));
            match node.children.get(&(c as u32)) {
                Some(child) => {
                    node = child;
                },
                None => {
                    return None;
                },
            }
            i = i + 1;
        }
        assert(key@.skip(i as int) =~= Seq::<char>::empty());
        match &node.value {
            Some(v) => Some(v.clone()),
            None => None,
        }
    }
}

} // verus!
