//! A path-segmented key/value store: keys are split on `.`, each segment
//! walks one level of a tree of nodes, and a value sits at the node the last
//! segment names.

use crate::chars::find_char;
use crate::chars::find_char_exec;
use vstd::prelude::*;

verus! {

/// The segments of `cs` from `from` on, split on `sep`: one more segment
/// than there are separators.
pub open spec fn split_from(cs: Seq<char>, from: int, sep: char) -> Seq<Seq<char>>
    decreases cs.len() - from,
{
    let e = find_char(cs, from, sep);
    let e2 = if e < from {
        from
    } else {
        e
    };
    if e2 >= cs.len() {
        seq![cs.subrange(from, cs.len() as int)]
    } else {
        seq![cs.subrange(from, e2)] + split_from(cs, e2 + 1, sep)
    }
}

/// The segments of `cs`, split on `sep`.
pub open spec fn split_on(cs: Seq<char>, sep: char) -> Seq<Seq<char>> {
    split_from(cs, 0, sep)
}

/// One level of the store: an ordered list of named children, and an
/// optional value.
pub struct Node<V> {
    pub branch: Vec<(String, Node<V>)>,
    pub leaf: Option<V>,
}

/// The position of the child named `key` in `s`, scanning from `from`; the
/// length of `s` if there is none.
pub open spec fn key_index<V>(s: Seq<(String, Node<V>)>, from: int, key: Seq<char>) -> int
    decreases s.len() - from,
{
    if from < 0 || from >= s.len() {
        s.len() as int
    } else if s[from].0@ == key {
        from
    } else {
        key_index(s, from + 1, key)
    }
}

/// The found position lies between `from` and the end, names `key` if it is
/// a real position, and nothing between `from` and it names `key`.
pub proof fn lemma_key_index_bounds<V>(s: Seq<(String, Node<V>)>, from: int, key: Seq<char>)
    requires
        0 <= from <= s.len(),
    ensures
        from <= key_index(s, from, key) <= s.len(),
        key_index(s, from, key) < s.len() ==> s[key_index(s, from, key)].0@ == key,
        forall|j: int| from <= j < key_index(s, from, key) ==> s[j].0@ != key,
    decreases s.len() - from,
{
    if from < s.len() && s[from].0@ != key {
        lemma_key_index_bounds(s, from + 1, key);
    }
}

/// Replacing one child's node, keeping its name, moves no key.
proof fn lemma_key_index_update<V>(
    s: Seq<(String, Node<V>)>,
    t: Seq<(String, Node<V>)>,
    from: int,
    key: Seq<char>,
)
    requires
        s.len() == t.len(),
        forall|j: int| 0 <= j < s.len() ==> s[j].0@ == #[trigger] t[j].0@,
    ensures
        key_index(s, from, key) == key_index(t, from, key),
    decreases s.len() - from,
{
    if from < 0 || from >= s.len() {
    } else {
        lemma_key_index_update(s, t, from + 1, key);
    }
}

/// Appending a child moves no key that was already present, and a key that
/// was absent is found at the appended spot only if it is the appended name.
proof fn lemma_key_index_push<V>(
    s: Seq<(String, Node<V>)>,
    entry: (String, Node<V>),
    from: int,
    key: Seq<char>,
)
    requires
        0 <= from <= s.len(),
    ensures
        key_index(s, from, key) < s.len() ==> key_index(s.push(entry), from, key) == key_index(
            s,
            from,
            key,
        ),
        key_index(s, from, key) == s.len() ==> key_index(s.push(entry), from, key) == (if entry.0@
            == key {
            s.len() as int
        } else {
            (s.len() + 1) as int
        }),
    decreases s.len() - from,
{
    if from < s.len() {
        lemma_key_index_push(s, entry, from + 1, key);
    } else {
        assert(s.push(entry)[from] == entry);
        if entry.0@ != key {
            assert(key_index(s.push(entry), from + 1, key) == s.push(entry).len());
        }
    }
}

impl<V> Node<V> {
    /// Every name in this tree names at most one child of its node.
    pub open spec fn wf(self) -> bool
        decreases self,
    {
        (forall|j: int, k: int|
            0 <= j < k < self.branch@.len() ==> self.branch@[j].0@ != self.branch@[k].0@) && (
        forall|j: int| 0 <= j < self.branch@.len() ==> (#[trigger] self.branch@[j].1).wf())
    }

    /// The child of this node named `key`, if any.
    pub open spec fn spec_child(self, key: Seq<char>) -> Option<Node<V>> {
        if key_index(self.branch@, 0, key) < self.branch@.len() {
            Some(self.branch@[key_index(self.branch@, 0, key)].1)
        } else {
            None
        }
    }

    /// The value the path `q` leads to from this node, if any.
    pub open spec fn spec_get_path(self, q: Seq<Seq<char>>) -> Option<V>
        decreases q.len(),
    {
        if q.len() == 0 {
            self.leaf
        } else {
            match self.spec_child(q[0]) {
                None => None,
                Some(n) => n.spec_get_path(q.drop_first()),
            }
        }
    }

    /// A node with no children and no value.
    fn empty() -> (n: Self)
        ensures
            n.branch@ == Seq::<(String, Node<V>)>::empty(),
            n.leaf is None,
            n.wf(),
            forall|q: Seq<Seq<char>>| n.spec_get_path(q) is None,
    {
        let n = Node { branch: Vec::new(), leaf: None };
        proof {
            assert forall|q: Seq<Seq<char>>| n.spec_get_path(q) is None by {
                if q.len() > 0 {
                    lemma_key_index_bounds(n.branch@, 0, q[0]);
                }
            }
        }
        n
    }

    /// The position of the child named `key`, or the number of children.
    fn find_key(&self, key: &String) -> (j: usize)
        ensures
            j as int == key_index(self.branch@, 0, key@),
            j <= self.branch@.len(),
            j < self.branch@.len() ==> self.branch@[j as int].0@ == key@,
    {
        let ghost br = self.branch@;
        let mut j: usize = 0;
        loop
            invariant_except_break
                j <= self.branch@.len(),
                self.branch@ == br,
                key_index(br, 0, key@) == key_index(br, j as int, key@),
            ensures
                self.branch@ == br,
                j as int == key_index(br, 0, key@),
                j <= br.len(),
                j < br.len() ==> br[j as int].0@ == key@,
            decreases self.branch@.len() - j,
        {
            if j >= self.branch.len() {
                break ;
            }
            if compare_string(&self.branch[j].0, key) {
                break ;
            }
            j = j + 1;
        }
        j
    }

    /// The child of this node named `key`, if any.
    pub fn deeper(&self, key: &String) -> (r: Option<&Node<V>>)
        ensures
            match r {
                Some(n) => self.spec_child(key@) == Some(*n),
                None => self.spec_child(key@) is None,
            },
    {
        let j = self.find_key(key);
        if j < self.branch.len() {
            Some(&self.branch[j].1)
        } else {
            None
        }
    }

    /// The value stored at this node, if any.
    pub fn get(&self) -> (r: Option<&V>)
        ensures
            match r {
                Some(v) => self.leaf == Some(*v),
                None => self.leaf is None,
            },
    {
        self.leaf.as_ref()
    }
}

/// Whether two strings hold the same characters.
fn compare_string(a: &String, b: &String) -> (r: bool)
    ensures
        r == (a@ == b@),
{
    *a == *b
}

/// Stores `value` where the segments `parts[i..]` lead from `node`,
/// materializing every missing intermediate node and overwriting the value
/// already at that spot, if any. Every other path keeps its value.
fn insert_node<V>(node: Node<V>, parts: &Vec<String>, i: usize, value: V) -> (r: Node<V>)
    requires
        node.wf(),
        i <= parts@.len(),
    ensures
        r.wf(),
        r.spec_get_path(parts.deep_view().subrange(i as int, parts@.len() as int)) == Some(value),
        forall|q: Seq<Seq<char>>|
            q != parts.deep_view().subrange(i as int, parts@.len() as int)
                ==> #[trigger] r.spec_get_path(q) == node.spec_get_path(q),
    decreases parts@.len() - i,
{
    let ghost tail = parts.deep_view().subrange(i as int, parts@.len() as int);
    if i >= parts.len() {
        let r = Node { branch: node.branch, leaf: Some(value) };
        proof {
            assert(tail =~= Seq::<Seq<char>>::empty());
            assert forall|q: Seq<Seq<char>>| q != tail implies #[trigger] r.spec_get_path(q)
                == node.spec_get_path(q) by {
                if q.len() == 0 {
                    assert(q =~= tail);
                }
            }
        }
        r
    } else {
        let ghost old_node = node;
        let mut node = node;
        let ghost old_branch = old_node.branch@;
        let j = node.find_key(&parts[i]);
        proof {
            lemma_key_index_bounds(old_branch, 0, parts.deep_view()[i as int]);
            assert(parts[i as int]@ == parts.deep_view()[i as int]);
            assert(tail.drop_first() =~= parts.deep_view().subrange(
                i as int + 1,
                parts@.len() as int,
            ));
        }
        if j < node.branch.len() {
            let (k, child) = node.branch.remove(j);
            let child2 = insert_node(child, parts, i + 1, value);
            node.branch.insert(j, (k, child2));
            proof {
                assert(node.branch@ =~= old_branch.update(j as int, (k, child2)));
                lemma_key_index_update(
                    old_branch,
                    node.branch@,
                    0,
                    parts.deep_view()[i as int],
                );
                assert(node.spec_child(tail[0]) == Some(child2));
                assert forall|q: Seq<Seq<char>>| q != tail implies #[trigger] node.spec_get_path(q)
                    == old_node.spec_get_path(q) by {
                    if q.len() > 0 {
                        lemma_key_index_update(old_branch, node.branch@, 0, q[0]);
                        lemma_key_index_bounds(old_branch, 0, q[0]);
                        if q[0] == tail[0] {
                            if q.drop_first() == tail.drop_first() {
                                assert forall|k: int| 0 <= k < q.len() implies q[k] == tail[k] by {
                                    if k > 0 {
                                        assert(q[k] == q.drop_first()[k - 1]);
                                        assert(tail[k] == tail.drop_first()[k - 1]);
                                    }
                                }
                                assert(q =~= tail);
                            }
                            assert(node.spec_get_path(q) == child2.spec_get_path(q.drop_first()));
                            assert(old_node.spec_get_path(q) == child.spec_get_path(
                                q.drop_first(),
                            ));
                        }
                    }
                }
                assert forall|jj: int, kk: int|
                    0 <= jj < kk < node.branch@.len() implies node.branch@[jj].0@
                    != node.branch@[kk].0@ by {
                    assert(old_branch[jj].0@ != old_branch[kk].0@);
                }
                assert forall|jj: int| 0 <= jj < node.branch@.len() implies (
                #[trigger] node.branch@[jj].1).wf() by {
                    if jj != j {
                        assert(node.branch@[jj].1 == old_branch[jj].1);
                    }
                }
            }
            node
        } else {
            let child2 = insert_node(Node::empty(), parts, i + 1, value);
            let k = clone_string(&parts[i]);
            node.branch.push((k, child2));
            proof {
                let entry = (k, child2);
                assert(node.branch@ =~= old_branch.push(entry));
                lemma_key_index_push(old_branch, entry, 0, parts.deep_view()[i as int]);
                assert(node.spec_child(tail[0]) == Some(child2));
                assert forall|q: Seq<Seq<char>>| q != tail implies #[trigger] node.spec_get_path(q)
                    == old_node.spec_get_path(q) by {
                    if q.len() > 0 {
                        lemma_key_index_push(old_branch, entry, 0, q[0]);
                        lemma_key_index_bounds(old_branch, 0, q[0]);
                        if q[0] == tail[0] {
                            if q.drop_first() == tail.drop_first() {
                                assert forall|k: int| 0 <= k < q.len() implies q[k] == tail[k] by {
                                    if k > 0 {
                                        assert(q[k] == q.drop_first()[k - 1]);
                                        assert(tail[k] == tail.drop_first()[k - 1]);
                                    }
                                }
                                assert(q =~= tail);
                            }
                            assert(node.spec_get_path(q) == child2.spec_get_path(q.drop_first()));
                            assert(old_node.spec_get_path(q) is None);
                        }
                    }
                }
                assert forall|jj: int, kk: int|
                    0 <= jj < kk < node.branch@.len() implies node.branch@[jj].0@
                    != node.branch@[kk].0@ by {
                    lemma_key_index_bounds(old_branch, 0, entry.0@);
                    if kk < old_branch.len() {
                        assert(old_branch[jj].0@ != old_branch[kk].0@);
                    }
                }
                assert forall|jj: int| 0 <= jj < node.branch@.len() implies (
                #[trigger] node.branch@[jj].1).wf() by {
                    if jj < old_branch.len() {
                        assert(node.branch@[jj].1 == old_branch[jj].1);
                    }
                }
            }
            node
        }
    }
}

/// A copy of a string.
fn clone_string(s: &String) -> (r: String)
    ensures
        r@ == s@,
{
    s.clone()
}

/// Splits a dotted key into its segments.
fn split_key(key: &str) -> (parts: Vec<String>)
    ensures
        parts.deep_view() == split_on(key@, '.'),
{
    let len = key.unicode_len();
    let mut parts: Vec<String> = Vec::new();
    let mut from: usize = 0;
    loop
        invariant_except_break
            from <= len,
            len == key@.len(),
            split_on(key@, '.') == parts.deep_view() + split_from(key@, from as int, '.'),
        ensures
            parts.deep_view() == split_on(key@, '.'),
        decreases len - from,
    {
        let e = find_char_exec(key, from, '.');
        let seg = String::from_str(key.substring_char(from, e));
        parts.push(seg);
        proof {
            assert(parts.deep_view() =~= parts.deep_view().subrange(
                0,
                parts.deep_view().len() - 1,
            ).push(seg@));
        }
        if e == len {
            proof {
                assert(split_from(key@, from as int, '.') =~= seq![key@.subrange(
                        from as int,
                        len as int,
                    )]);
                assert(parts.deep_view() =~= split_on(key@, '.'));
            }
            break ;
        }
        proof {
            assert(split_from(key@, from as int, '.') =~= seq![key@.subrange(
                    from as int,
                    e as int,
                )] + split_from(key@, e as int + 1, '.'));
            assert(parts.deep_view() + split_from(key@, e as int + 1, '.') =~= split_on(
                key@,
                '.',
            ));
        }
        from = e + 1;
    }
    parts
}

/// A key/value store over dotted keys.
pub struct Directory<V> {
    root: Node<V>,
}

impl<V> Directory<V> {
    /// The tree behind the store.
    pub closed spec fn spec_root(self) -> Node<V> {
        self.root
    }

    /// Every name in the tree names at most one child of its node.
    pub open spec fn wf(self) -> bool {
        self.spec_root().wf()
    }

    /// The value stored under a key's segments, if any.
    pub open spec fn spec_get(self, key: Seq<char>) -> Option<V> {
        self.spec_root().spec_get_path(split_on(key, '.'))
    }

    /// An empty store.
    pub fn new() -> (d: Self)
        ensures
            d.wf(),
            forall|key: Seq<char>| d.spec_get(key) is None,
    {
        Directory { root: Node::empty() }
    }

    /// The root node of the store.
    pub fn root(&mut self) -> (n: &Node<V>)
        ensures
            *n == old(self).spec_root(),
            *final (self) == *old(self),
    {
        &self.root
    }

    /// The value stored under `key`, if any: the key is split on `.` and
    /// each segment walks one level down.
    pub fn get(&self, key: &str) -> (r: Option<&V>)
        ensures
            match r {
                Some(v) => self.spec_get(key@) == Some(*v),
                None => self.spec_get(key@) is None,
            },
    {
        let parts = split_key(key);
        let mut node: &Node<V> = &self.root;
        let mut i: usize = 0;
        let ghost q = parts.deep_view();
        proof {
            assert(q.subrange(0, q.len() as int) =~= q);
        }
        loop
            invariant_except_break
                i <= parts@.len(),
                q == parts.deep_view(),
                q == split_on(key@, '.'),
                self.spec_root().spec_get_path(q) == node.spec_get_path(
                    q.subrange(i as int, q.len() as int),
                ),
            ensures
                self.spec_root().spec_get_path(q) == match node.leaf {
                    Some(v) => Some(v),
                    None => None,
                },
            decreases parts@.len() - i,
        {
            if i >= parts.len() {
                proof {
                    assert(q.subrange(i as int, q.len() as int) =~= Seq::<Seq<char>>::empty());
                }
                break ;
            }
            let ghost rest = q.subrange(i as int, q.len() as int);
            proof {
                assert(rest[0] == parts[i as int]@);
                assert(rest.drop_first() =~= q.subrange(i as int + 1, q.len() as int));
            }
            match node.deeper(&parts[i]) {
                Some(deeper) => {
                    node = deeper;
                },
                None => {
                    return None;
                },
            }
            i = i + 1;
        }
        node.get()
    }

    /// Stores `value` under `key`: the key is split on `.`, every missing
    /// intermediate node is materialized, and the value already under the
    /// key, if any, is overwritten. Every other key keeps its value.
    pub fn insert(&mut self, key: &str, value: V)
        requires
            old(self).wf(),
        ensures
            final (self).wf(),
            final (self).spec_get(key@) == Some(value),
            forall|other: Seq<char>|
                split_on(other, '.') != split_on(key@, '.') ==> #[trigger] final (self).spec_get(
                    other,
                ) == old(self).spec_get(other),
    {
        let parts = split_key(key);
        let mut root = Node::empty();
        core::mem::swap(&mut self.root, &mut root);
        let root2 = insert_node(root, &parts, 0, value);
        self.root = root2;
        proof {
            assert(parts.deep_view().subrange(0, parts@.len() as int) =~= parts.deep_view());
        }
    }
}

} // verus!
