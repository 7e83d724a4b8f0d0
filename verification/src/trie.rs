//! A byte-labelled trie over a flat node array.
//!
//! Each node is reachable by a code index; index 0 is the root (the empty
//! string), indices 1 through 256 hold the 256 single-byte strings, and
//! every node added later gets the next consecutive index.  The byte string
//! of a node is cached at the node, so reading it out is linear in its
//! length.  Growth stops silently at [`MAX_SIZE`] nodes.

use vstd::prelude::*;

verus! {

/// Greatest number of nodes the trie will hold.
pub const MAX_SIZE: usize = 65536;

/// The mathematical content of one trie node.
#[verifier::ext_equal]
pub ghost struct NodeModel {
    /// Index of the parent node (0 for the root).
    pub parent: usize,
    /// The byte string spelled on the path from the root to this node.
    pub string: Seq<u8>,
    /// The labelled edges to child nodes, in insertion order.
    pub children: Seq<(u8, usize)>,
}

/// The child of a node reached over the edge labelled `byte`: the first
/// matching entry of its edge list.
pub open spec fn find_child(cs: Seq<(u8, usize)>, byte: u8) -> Option<usize>
    decreases cs.len(),
{
    if cs.len() == 0 {
        None
    } else if cs[0].0 == byte {
        Some(cs[0].1)
    } else {
        find_child(cs.drop_first(), byte)
    }
}

/// Well-formedness of a trie: the root is node 0 with the empty string and
/// one child per byte value; every other node hangs under a parent with a
/// smaller index, caches its parent's string extended by its edge label,
/// and is found from its parent over that label; every edge points at a
/// node in range that agrees with it.
pub open spec fn trie_wf(t: Seq<NodeModel>) -> bool {
    &&& 257 <= t.len() <= MAX_SIZE
    &&& t[0].parent == 0
    &&& t[0].string == Seq::<u8>::empty()
    &&& forall|b: u8| #[trigger] find_child(t[0].children, b) == Some((b + 1) as usize)
    &&& forall|k: int|
        1 <= k < t.len() ==> {
            &&& 0 <= #[trigger] t[k].parent < k
            &&& t[k].string.len() >= 1
            &&& t[k].string == t[t[k].parent as int].string.push(t[k].string.last())
            &&& find_child(t[t[k].parent as int].children, t[k].string.last()) == Some(
                k as usize,
            )
        }
    &&& forall|k: int, j: int|
        0 <= k < t.len() && 0 <= j < t[k].children.len() ==> {
            let edge = #[trigger] t[k].children[j];
            &&& 0 < edge.1 < t.len()
            &&& t[edge.1 as int].parent == k
            &&& t[edge.1 as int].string == t[k].string.push(edge.0)
        }
}

/// The freshly seeded trie: a root plus the 256 single-byte strings, the
/// string `[b]` at index `b + 1`.
pub open spec fn trie_init() -> Seq<NodeModel> {
    Seq::new(
        257,
        |k: int|
            if k == 0 {
                NodeModel {
                    parent: 0,
                    string: Seq::empty(),
                    children: Seq::new(256, |j: int| ((j as u8), (j + 1) as usize)),
                }
            } else {
                NodeModel { parent: 0, string: seq![(k - 1) as u8], children: Seq::empty() }
            },
    )
}

/// What one `add_byte` call does to the trie: nothing if the child is
/// already there or the trie is full; otherwise the node list grows by the
/// new child and the parent gains an edge to it.
pub open spec fn spec_add_byte(t: Seq<NodeModel>, index: usize, byte: u8) -> Seq<NodeModel> {
    if find_child(t[index as int].children, byte) is Some {
        t
    } else if t.len() < MAX_SIZE {
        let parent_node = t[index as int];
        t.update(
            index as int,
            NodeModel {
                parent: parent_node.parent,
                string: parent_node.string,
                children: parent_node.children.push((byte, t.len() as usize)),
            },
        ).push(
            NodeModel { parent: index, string: parent_node.string.push(byte), children: Seq::empty() },
        )
    } else {
        t
    }
}

/// What `add` does from node `cur` on: insert each missing prefix byte in
/// turn, stopping early only when the trie is full.
pub open spec fn spec_add_from(t: Seq<NodeModel>, cur: usize, bytes: Seq<u8>) -> Seq<NodeModel>
    decreases bytes.len(),
{
    if bytes.len() == 0 {
        t
    } else {
        let t1 = spec_add_byte(t, cur, bytes[0]);
        match find_child(t1[cur as int].children, bytes[0]) {
            Some(c) => spec_add_from(t1, c, bytes.drop_first()),
            None => t1,
        }
    }
}

/// The node reached from `cur` by walking `bytes`, if that path exists.
pub open spec fn spec_get_from(t: Seq<NodeModel>, cur: usize, bytes: Seq<u8>) -> Option<usize>
    decreases bytes.len(),
{
    if bytes.len() == 0 {
        Some(cur)
    } else {
        match find_child(t[cur as int].children, bytes[0]) {
            Some(c) => spec_get_from(t, c, bytes.drop_first()),
            None => None,
        }
    }
}

pub proof fn lemma_find_child_at(cs: Seq<(u8, usize)>, byte: u8, j: int)
    requires
        0 <= j < cs.len(),
        cs[j].0 == byte,
        forall|i: int| 0 <= i < j ==> cs[i].0 != byte,
    ensures
        find_child(cs, byte) == Some(cs[j].1),
    decreases j,
{
    if j > 0 {
        lemma_find_child_at(cs.drop_first(), byte, j - 1);
    }
}

pub proof fn lemma_find_child_none(cs: Seq<(u8, usize)>, byte: u8)
    requires
        forall|i: int| 0 <= i < cs.len() ==> cs[i].0 != byte,
    ensures
        find_child(cs, byte) is None,
    decreases cs.len(),
{
    if cs.len() > 0 {
        lemma_find_child_none(cs.drop_first(), byte);
    }
}

pub proof fn lemma_find_child_some(cs: Seq<(u8, usize)>, byte: u8)
    requires
        find_child(cs, byte) is Some,
    ensures
        exists|j: int|
            0 <= j < cs.len() && cs[j] == (byte, find_child(cs, byte).unwrap()),
    decreases cs.len(),
{
    if cs[0].0 == byte {
        assert(cs[0] == (byte, find_child(cs, byte).unwrap()));
    } else {
        lemma_find_child_some(cs.drop_first(), byte);
        let j = choose|j: int|
            0 <= j < cs.drop_first().len() && cs.drop_first()[j] == (
                byte,
                find_child(cs.drop_first(), byte).unwrap(),
            );
        assert(cs[j + 1] == (byte, find_child(cs, byte).unwrap()));
    }
}

pub proof fn lemma_find_child_push(cs: Seq<(u8, usize)>, p: (u8, usize), byte: u8)
    ensures
        find_child(cs.push(p), byte) == (if find_child(cs, byte) is Some {
            find_child(cs, byte)
        } else if p.0 == byte {
            Some(p.1)
        } else {
            None
        }),
    decreases cs.len(),
{
    if cs.len() == 0 {
        assert(cs.push(p)[0] == p);
        assert(cs.push(p).drop_first() =~= Seq::<(u8, usize)>::empty());
        assert(find_child(cs.push(p), byte) == if p.0 == byte {
            Some(p.1)
        } else {
            find_child(cs.push(p).drop_first(), byte)
        });
    } else {
        assert(cs.push(p)[0] == cs[0]);
        assert(cs.push(p).drop_first() =~= cs.drop_first().push(p));
        lemma_find_child_push(cs.drop_first(), p, byte);
        assert(find_child(cs.push(p), byte) == if cs[0].0 == byte {
            Some(cs[0].1)
        } else {
            find_child(cs.drop_first().push(p), byte)
        });
    }
}

/// In a well-formed trie, a found child is in range and extends its
/// parent's string by the edge label.
pub proof fn lemma_child_props(t: Seq<NodeModel>, i: int, byte: u8)
    requires
        trie_wf(t),
        0 <= i < t.len(),
        find_child(t[i].children, byte) is Some,
    ensures
        ({
            let c = find_child(t[i].children, byte).unwrap();
            &&& 0 < c < t.len()
            &&& t[c as int].parent == i
            &&& t[c as int].string == t[i].string.push(byte)
        }),
{
    lemma_find_child_some(t[i].children, byte);
}

/// `add_byte` keeps the trie well formed and grows it by at most one node.
pub proof fn lemma_wf_add_byte(t: Seq<NodeModel>, index: usize, byte: u8)
    requires
        trie_wf(t),
        (index as int) < t.len(),
    ensures
        trie_wf(spec_add_byte(t, index, byte)),
        t.len() <= spec_add_byte(t, index, byte).len() <= t.len() + 1,
        spec_add_byte(t, index, byte).len() > t.len() ==> t.len() < MAX_SIZE,
{
    let t2 = spec_add_byte(t, index, byte);
    let i = index as int;
    if find_child(t[i].children, byte) is Some {
    } else if t.len() < MAX_SIZE {
        let l = t.len() as int;
        let pair = (byte, t.len() as usize);
        // the root holds every byte, so the missing child is not under the root
        assert(find_child(t[0].children, byte) == Some((byte + 1) as usize));
        assert(i != 0);
        assert(t2[0] == t[0]);
        assert forall|k: int| 1 <= k < t2.len() implies {
            &&& 0 <= #[trigger] t2[k].parent < k
            &&& t2[k].string.len() >= 1
            &&& t2[k].string == t2[t2[k].parent as int].string.push(t2[k].string.last())
            &&& find_child(t2[t2[k].parent as int].children, t2[k].string.last()) == Some(
                k as usize,
            )
        } by {
            if k < l {
                assert(0 <= t[k].parent < k);
                let p = t[k].parent as int;
                assert(t2[k].parent == t[k].parent && t2[k].string == t[k].string);
                assert(t2[p].string == t[p].string);
                if p == i {
                    lemma_find_child_push(t[i].children, pair, t[k].string.last());
                } else {
                    assert(t2[p].children == t[p].children);
                }
            } else {
                // k == l: the node just added
                lemma_find_child_push(t[i].children, pair, byte);
                assert(t2[l].parent == index && t2[l].string == t[i].string.push(byte));
                assert(t2[i].string == t[i].string);
            }
        }
        assert forall|k: int, j: int|
            0 <= k < t2.len() && 0 <= j < t2[k].children.len() implies {
            let edge = #[trigger] t2[k].children[j];
            &&& 0 < edge.1 < t2.len()
            &&& t2[edge.1 as int].parent == k
            &&& t2[edge.1 as int].string == t2[k].string.push(edge.0)
        } by {
            if k == i && j == t[i].children.len() {
                assert(t2[k].children[j] == pair);
                assert(t2[l].parent == index && t2[l].string == t[i].string.push(byte));
            } else {
                assert(k < l);
                assert(t2[k].children[j] == t[k].children[j]);
                let edge = t[k].children[j];
                assert(0 < edge.1 < t.len());
                assert(t2[edge.1 as int].parent == t[edge.1 as int].parent);
                assert(t2[edge.1 as int].string == t[edge.1 as int].string);
                assert(t2[k].string == t[k].string);
            }
        }
    } else {
    }
}

/// The byte string spelled by the edge labels on the path from the root
/// down to node `k`.
pub open spec fn path_string(t: Seq<NodeModel>, k: int) -> Seq<u8>
    decreases k,
{
    if k <= 0 || k >= t.len() || !(0 <= t[k].parent < k) {
        Seq::empty()
    } else {
        path_string(t, t[k].parent as int).push(t[k].string.last())
    }
}

/// Law: in a well-formed trie the cached string of every node equals the
/// concatenation of the edge labels from the root to that node.
pub proof fn lemma_string_is_path(t: Seq<NodeModel>, k: int)
    requires
        trie_wf(t),
        0 <= k < t.len(),
    ensures
        t[k].string == path_string(t, k),
    decreases k,
{
    if k > 0 {
        assert(0 <= t[k].parent < k);
        lemma_string_is_path(t, t[k].parent as int);
    }
}

/// In a well-formed trie no two nodes spell the same string.
pub proof fn lemma_string_unique(t: Seq<NodeModel>, c: int, d: int)
    requires
        trie_wf(t),
        0 <= c < t.len(),
        0 <= d < t.len(),
        t[c].string == t[d].string,
    ensures
        c == d,
    decreases t[c].string.len(),
{
    if t[c].string.len() == 0 {
        if c != 0 {
            assert(0 <= t[c].parent < c);
        }
        if d != 0 {
            assert(0 <= t[d].parent < d);
        }
    } else {
        assert(c != 0 && d != 0);
        assert(0 <= t[c].parent < c);
        assert(0 <= t[d].parent < d);
        let pc = t[c].parent as int;
        let pd = t[d].parent as int;
        assert(t[pc].string == t[c].string.drop_last());
        assert(t[pd].string == t[d].string.drop_last());
        lemma_string_unique(t, pc, pd);
        assert(find_child(t[pc].children, t[c].string.last()) == Some(c as usize));
        assert(find_child(t[pd].children, t[d].string.last()) == Some(d as usize));
    }
}

/// Every prefix of a node's string is spelled by some node.
pub proof fn lemma_prefix_node(t: Seq<NodeModel>, c: int, j: int)
    requires
        trie_wf(t),
        0 <= c < t.len(),
        0 <= j <= t[c].string.len(),
    ensures
        exists|e: int| 0 <= e < t.len() && (#[trigger] t[e].string) == t[c].string.take(j),
    decreases c,
{
    if j == t[c].string.len() {
        assert(t[c].string.take(j) =~= t[c].string);
    } else {
        assert(c != 0);
        assert(0 <= t[c].parent < c);
        let p = t[c].parent as int;
        assert(t[p].string =~= t[c].string.drop_last());
        assert(t[p].string.take(j) =~= t[c].string.take(j));
        lemma_prefix_node(t, p, j);
    }
}

/// Walking the string of an existing node adds nothing, so `add` of that
/// string extended by one byte is a single `add_byte` at that node.
proof fn lemma_add_from_follows(t: Seq<NodeModel>, d: int, c: int, b: u8)
    requires
        trie_wf(t),
        0 <= d < t.len(),
        0 <= c < t.len(),
        t[d].string.len() <= t[c].string.len(),
        t[d].string == t[c].string.take(t[d].string.len() as int),
    ensures
        spec_add_from(t, d as usize, t[c].string.skip(t[d].string.len() as int).push(b))
            == spec_add_byte(t, c as usize, b),
    decreases t[c].string.len() - t[d].string.len(),
{
    let u = t[c].string.skip(t[d].string.len() as int);
    if u.len() == 0 {
        assert(t[d].string =~= t[c].string);
        lemma_string_unique(t, c, d);
        // one unfolding: the first byte is b itself
        let t1 = spec_add_byte(t, c as usize, b);
        assert(u.push(b)[0] == b);
        assert(u.push(b).drop_first() =~= Seq::<u8>::empty());
        if find_child(t1[c].children, b) is Some {
            assert(spec_add_from(t1, find_child(t1[c].children, b).unwrap(), Seq::<u8>::empty())
                == t1);
        }
    } else {
        let jl = t[d].string.len() as int;
        // the next node on the path: it spells one more byte of c's string
        lemma_prefix_node(t, c, jl + 1);
        let e = choose|e: int|
            0 <= e < t.len() && (#[trigger] t[e].string) == t[c].string.take(jl + 1);
        assert(t[e].string.len() == jl + 1);
        assert(e != 0);
        assert(0 <= t[e].parent < e);
        let p = t[e].parent as int;
        assert(t[p].string =~= t[e].string.drop_last());
        assert(t[p].string =~= t[d].string);
        lemma_string_unique(t, p, d);
        assert(t[e].string.last() == t[c].string[jl]);
        assert(u[0] == t[c].string[jl]);
        assert(find_child(t[d].children, u[0]) == Some(e as usize));
        // walking takes the existing edge: no growth on this step
        assert(spec_add_byte(t, d as usize, u[0]) == t);
        assert(u.push(b)[0] == u[0]);
        assert(u.push(b).drop_first() =~= u.drop_first().push(b));
        assert(t[e].string =~= t[c].string.take(jl + 1));
        assert(u.drop_first() =~= t[c].string.skip(jl + 1));
        lemma_add_from_follows(t, e, c, b);
    }
}

/// `add` of an existing node's string extended by one byte equals one
/// `add_byte` at that node: the walk from the root only follows edges.
pub proof fn lemma_add_along_node_string(t: Seq<NodeModel>, c: int, b: u8)
    requires
        trie_wf(t),
        0 <= c < t.len(),
    ensures
        spec_add_from(t, 0, t[c].string.push(b)) == spec_add_byte(t, c as usize, b),
{
    assert(t[0].string == t[c].string.take(0));
    lemma_add_from_follows(t, 0, c, b);
    assert(t[c].string.skip(0) =~= t[c].string);
}

/// A byte-for-byte copy of a vector.
fn copy_bytes(v: &Vec<u8>) -> (r: Vec<u8>)
    ensures
        r@ == v@,
{
    let mut r: Vec<u8> = Vec::new();
    let mut i: usize = 0;
    while i < v.len()
        invariant
            i <= v@.len(),
            r@ == v@.take(i as int),
        decreases v@.len() - i,
    {
        r.push(v[i]);
        proof {
            assert(r@ =~= v@.take((i + 1) as int));
        }
        i += 1;
    }
    proof {
        assert(v@.take(v@.len() as int) =~= v@);
    }
    r
}

/// Linear scan of an edge list.
fn find_child_exec(children: &Vec<(u8, usize)>, byte: u8) -> (r: Option<usize>)
    ensures
        r == find_child(children@, byte),
{
    let mut i: usize = 0;
    while i < children.len()
        invariant
            i <= children@.len(),
            forall|j: int| 0 <= j < i ==> children@[j].0 != byte,
        decreases children@.len() - i,
    {
        let (b, c) = children[i];
        if b == byte {
            proof {
                lemma_find_child_at(children@, byte, i as int);
            }
            return Some(c);
        }
        i += 1;
    }
    proof {
        lemma_find_child_none(children@, byte);
    }
    None
}

#[derive(Clone, PartialEq, Eq, Debug)]
struct TrieNode {
    parent: usize,
    string: Vec<u8>,
    children: Vec<(u8, usize)>,
}

/// The dictionary: a flat array of trie nodes indexed by code.
#[derive(Clone, PartialEq, Eq, Debug)]
pub struct Trie {
    tree: Vec<TrieNode>,
}

impl View for Trie {
    type V = Seq<NodeModel>;

    closed spec fn view(&self) -> Seq<NodeModel> {
        Seq::new(
            self.tree@.len(),
            |k: int|
                NodeModel {
                    parent: self.tree[k].parent,
                    string: self.tree[k].string@,
                    children: self.tree[k].children@,
                },
        )
    }
}

impl Trie {
    /// The pre-seeded trie: root plus all 256 single-byte strings.
    pub fn new() -> (r: Self)
        ensures
            r@ == trie_init(),
            trie_wf(r@),
    {
        let mut root_children: Vec<(u8, usize)> = Vec::new();
        let mut b: usize = 0;
        while b < 256
            invariant
                b <= 256,
                root_children@.len() == b,
                forall|j: int| 0 <= j < b ==> root_children@[j] == ((j as u8), (j + 1) as usize),
            decreases 256 - b,
        {
            root_children.push((b as u8, b + 1));
            b += 1;
        }
        let mut tree: Vec<TrieNode> = Vec::new();
        tree.push(TrieNode { parent: 0, string: Vec::new(), children: root_children });
        let mut i: usize = 0;
        while i < 256
            invariant
                i <= 256,
                tree@.len() == i + 1,
                tree@[0].parent == 0,
                tree@[0].string@.len() == 0,
                forall|j: int|
                    0 <= j < 256 ==> tree@[0].children@[j] == ((j as u8), (j + 1) as usize),
                tree@[0].children@.len() == 256,
                forall|k: int|
                    1 <= k <= i ==> {
                        &&& (#[trigger] tree@[k]).parent == 0
                        &&& tree@[k].string@ =~= seq![(k - 1) as u8]
                        &&& tree@[k].children@.len() == 0
                    },
            decreases 256 - i,
        {
            let mut s: Vec<u8> = Vec::new();
            s.push(i as u8);
            tree.push(TrieNode { parent: 0, string: s, children: Vec::new() });
            i += 1;
        }
        let r = Self { tree };
        proof {
            assert(r@ =~~= trie_init());
            lemma_trie_init_wf();
        }
        r
    }

    /// The number of nodes (codes) held; 257 when fresh.
    pub fn len(&self) -> (r: usize)
        ensures
            r == self@.len(),
    {
        self.tree.len()
    }

    /// The byte string of the node at `index`, or nothing when `index` is
    /// out of range.
    pub fn get_by_index(&self, index: usize) -> (r: Option<Vec<u8>>)
        ensures
            match r {
                Some(v) => (index as int) < self@.len() && v@ == self@[index as int].string,
                None => (index as int) >= self@.len(),
            },
    {
        if index < self.tree.len() {
            Some(copy_bytes(&self.tree[index].string))
        } else {
            None
        }
    }

    /// Inserts every prefix of `bytes` that is missing, allocating
    /// consecutive indices; stops early only when the trie is full.
    pub fn add(&mut self, bytes: &[u8])
        requires
            trie_wf(old(self)@),
        ensures
            final(self)@ == spec_add_from(old(self)@, 0, bytes@),
            trie_wf(final(self)@),
    {
        let mut cur: usize = 0;
        let n = bytes.len();
        let mut i: usize = 0;
        let mut halted = false;
        proof {
            assert(bytes@.skip(0) =~= bytes@);
        }
        while i < n && !halted
            invariant
                trie_wf(self@),
                (cur as int) < self@.len(),
                i <= n,
                n == bytes@.len(),
                halted ==> self@ == spec_add_from(old(self)@, 0, bytes@),
                !halted ==> spec_add_from(self@, cur, bytes@.skip(i as int)) == spec_add_from(
                    old(self)@,
                    0,
                    bytes@,
                ),
            decreases n - i,
    {
            let ghost t_before = self@;
            let ghost rest = bytes@.skip(i as int);
            let byte = bytes[i];
            let ok = self.add_byte(cur, byte);
            proof {
                lemma_wf_add_byte(t_before, cur, byte);
                assert(rest[0] == bytes@[i as int]);
                assert(rest.drop_first() =~= bytes@.skip(i as int + 1));
            }
            if ok {
                let cnext = find_child_exec(&self.tree[cur].children, byte);
                proof {
                    lemma_child_props(self@, cur as int, byte);
                }
                cur = cnext.unwrap();
            } else {
                halted = true;
            }
            i += 1;
        }
        proof {
            if !halted {
                assert(bytes@.skip(n as int) =~= Seq::<u8>::empty());
            }
        }
    }

    /// The code of the node reached by walking `bytes` from the root, if
    /// that full path is present.
    pub fn get(&self, bytes: &[u8]) -> (r: Option<usize>)
        requires
            trie_wf(self@),
        ensures
            r == spec_get_from(self@, 0, bytes@),
    {
        let mut cur: usize = 0;
        let mut i: usize = 0;
        proof {
            assert(bytes@.skip(0) =~= bytes@);
        }
        while i < bytes.len()
            invariant
                trie_wf(self@),
                (cur as int) < self@.len(),
                i <= bytes@.len(),
                spec_get_from(self@, 0, bytes@) == spec_get_from(
                    self@,
                    cur,
                    bytes@.skip(i as int),
                ),
            decreases bytes@.len() - i,
        {
            let byte = bytes[i];
            let c = find_child_exec(&self.tree[cur].children, byte);
            proof {
                assert(bytes@.skip(i as int)[0] == bytes@[i as int]);
                assert(bytes@.skip(i as int).drop_first() =~= bytes@.skip(i as int + 1));
            }
            match c {
                Some(nx) => {
                    proof {
                        lemma_child_props(self@, cur as int, byte);
                    }
                    cur = nx;
                },
                None => {
                    return None;
                },
            }
            i += 1;
        }
        proof {
            assert(bytes@.skip(bytes@.len() as int) =~= Seq::<u8>::empty());
        }
        Some(cur)
    }

    /// Whether the byte string `bytes` stands in the trie.
    pub fn contains(&self, bytes: &[u8]) -> (r: bool)
        requires
            trie_wf(self@),
        ensures
            r == (spec_get_from(self@, 0, bytes@) is Some),
    {
        self.get(bytes).is_some()
    }

    /// Adds the child `byte` under the node at `index` if it is missing
    /// and the trie is not full; reports whether the child exists after
    /// the call.
    fn add_byte(&mut self, index: usize, byte: u8) -> (r: bool)
        requires
            (index as int) < old(self)@.len(),
        ensures
            final(self)@ == spec_add_byte(old(self)@, index, byte),
            r == (find_child(final(self)@[index as int].children, byte) is Some),
    {
        let c = find_child_exec(&self.tree[index].children, byte);
        if c.is_some() {
            return true;
        }
        let len = self.tree.len();
        if len < MAX_SIZE {
            let mut s = copy_bytes(&self.tree[index].string);
            s.push(byte);
            self.tree[index].children.push((byte, len));
            self.tree.push(TrieNode { parent: index, string: s, children: Vec::new() });
            proof {
                assert(final(self)@ =~~= spec_add_byte(old(self)@, index, byte));
                lemma_find_child_push(
                    old(self)@[index as int].children,
                    (byte, old(self)@.len() as usize),
                    byte,
                );
            }
            true
        } else {
            false
        }
    }
}

pub proof fn lemma_trie_init_wf()
    ensures
        trie_wf(trie_init()),
{
    let t = trie_init();
    assert forall|b: u8| #[trigger] find_child(t[0].children, b) == Some((b + 1) as usize) by {
        lemma_find_child_at(t[0].children, b, b as int);
    }
    assert forall|k: int| 1 <= k < t.len() implies {
        &&& 0 <= #[trigger] t[k].parent < k
        &&& t[k].string.len() >= 1
        &&& t[k].string == t[t[k].parent as int].string.push(t[k].string.last())
        &&& find_child(t[t[k].parent as int].children, t[k].string.last()) == Some(k as usize)
    } by {
        assert(t[k].string =~= t[0].string.push((k - 1) as u8));
        lemma_find_child_at(t[0].children, (k - 1) as u8, k - 1);
    }
    assert forall|k: int, j: int|
        0 <= k < t.len() && 0 <= j < t[k].children.len() implies {
        let edge = #[trigger] t[k].children[j];
        &&& 0 < edge.1 < t.len()
        &&& t[edge.1 as int].parent == k
        &&& t[edge.1 as int].string == t[k].string.push(edge.0)
    } by {
        if k == 0 {
            assert(t[k].children[j] == ((j as u8), (j + 1) as usize));
            assert(t[j + 1].string =~= t[0].string.push(j as u8));
        }
    }
}

/// The model of a walker: its trie and the node it stands on.
#[verifier::ext_equal]
pub ghost struct WalkerModel {
    pub trie: Seq<NodeModel>,
    pub index: usize,
}

/// Well-formedness of a walker: its trie is well formed and it stands on a
/// node in range.
pub open spec fn walker_wf(w: WalkerModel) -> bool {
    &&& trie_wf(w.trie)
    &&& (w.index as int) < w.trie.len()
}

/// What one `add_byte` call does to a walker: follow the edge if it is
/// there; otherwise grow the trie with the missing child, emit the code of
/// the node left behind, and restart at the root's child for that byte.
pub open spec fn spec_feed(w: WalkerModel, byte: u8) -> (WalkerModel, Option<usize>) {
    match find_child(w.trie[w.index as int].children, byte) {
        Some(c) => (WalkerModel { trie: w.trie, index: c }, None),
        None => (
            WalkerModel {
                trie: spec_add_byte(w.trie, w.index, byte),
                index: (byte + 1) as usize,
            },
            Some(w.index),
        ),
    }
}

/// The encoder's pointer into the trie: the node spelling the longest
/// match of the input consumed so far.
#[derive(Clone, PartialEq, Eq, Debug)]
pub struct TrieWalker {
    trie: Trie,
    index: usize,
}

impl View for TrieWalker {
    type V = WalkerModel;

    closed spec fn view(&self) -> WalkerModel {
        WalkerModel { trie: self.trie@, index: self.index }
    }
}

impl TrieWalker {
    /// A walker over a fresh trie, standing on the root.
    pub fn new() -> (r: Self)
        ensures
            r@ == (WalkerModel { trie: trie_init(), index: 0 }),
            walker_wf(r@),
    {
        TrieWalker { trie: Trie::new(), index: 0 }
    }

    /// Feeds one byte: steps down the matching edge and reports nothing,
    /// or — when the match ends — grows the trie by the unmatched
    /// extension, reports the code of the longest match, and restarts at
    /// the child of the root labelled `byte`.
    pub fn add_byte(&mut self, byte: u8) -> (r: Option<usize>)
        requires
            walker_wf(old(self)@),
        ensures
            final(self)@ == spec_feed(old(self)@, byte).0,
            r == spec_feed(old(self)@, byte).1,
            walker_wf(final(self)@),
    {
        let c = find_child_exec(&self.trie.tree[self.index].children, byte);
        match c {
            Some(next) => {
                proof {
                    lemma_child_props(self@.trie, self.index as int, byte);
                }
                self.index = next;
                None
            },
            None => {
                let emitted = self.index;
                let ghost t_before = self.trie@;
                self.trie.add_byte(self.index, byte);
                proof {
                    lemma_wf_add_byte(t_before, emitted, byte);
                }
                let ri = find_child_exec(&self.trie.tree[0].children, byte);
                proof {
                    lemma_child_props(self.trie@, 0, byte);
                }
                self.index = ri.unwrap();
                Some(emitted)
            },
        }
    }

    /// The code of the current node; emitted after the last input byte to
    /// flush the trailing match.
    pub fn get_last(self) -> (r: usize)
        ensures
            r == self@.index,
    {
        self.index
    }

    /// The number of nodes in the walker's trie.
    pub fn len(&self) -> (r: usize)
        ensures
            r == self@.trie.len(),
    {
        self.trie.len()
    }
}

} // verus!
