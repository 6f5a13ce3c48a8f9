use vstd::prelude::*;

verus! {

use crate::error::Error;
use crate::text::{chars_of, split_chars, split_on, to_upper, upper_of, views};
use crate::Scope;
use crate::registry::{decode, encode, Data, DataView, Value};

/// Native code of a write through a handle that was opened for reading.
pub const E_ACCESS_DENIED: i32 = -2147024891;

/// Native code of a node that does not exist.
pub const E_FILE_NOT_FOUND: i32 = -2147024894;

/// The access a key handle was opened with.
#[derive(Clone, Copy, Debug, PartialEq, Eq, Structural)]
pub enum Access {
    Read,
    ReadWrite,
}

/// A stored value: its name, type tag and raw payload.
pub struct RawView {
    pub name: Seq<char>,
    pub kind: u32,
    pub data: Seq<u8>,
}

/// A stored node: its scope, the path from the scope's root, and its values.
pub struct NodeView {
    pub scope: Scope,
    pub path: Seq<Seq<char>>,
    pub values: Seq<RawView>,
}

#[derive(Debug)]
struct RawValue {
    name: String,
    kind: u32,
    data: Vec<u8>,
}

impl View for RawValue {
    type V = RawView;

    closed spec fn view(&self) -> RawView {
        RawView { name: self.name@, kind: self.kind, data: self.data@ }
    }
}

#[derive(Debug)]
struct Node {
    scope: Scope,
    path: Vec<String>,
    values: Vec<RawValue>,
}

impl View for Node {
    type V = NodeView;

    closed spec fn view(&self) -> NodeView {
        NodeView {
            scope: self.scope,
            path: path_views(self.path@),
            values: self.values@.map_values(|v: RawValue| v@),
        }
    }
}

/// An in-memory hierarchical key/value store with a machine-wide and a
/// per-user root. Each node is addressed by its scope and its path of names;
/// names compare without regard to letter case. The roots themselves always
/// exist and hold no values.
#[derive(Debug)]
pub struct Store {
    nodes: Vec<Node>,
}

impl View for Store {
    type V = Seq<NodeView>;

    closed spec fn view(&self) -> Seq<NodeView> {
        self.nodes@.map_values(|n: Node| n@)
    }
}

/// The character sequences of a list of names.
pub open spec fn path_views(p: Seq<String>) -> Seq<Seq<char>> {
    p.map_values(|s: String| s@)
}

/// Whether two names are the same name: they are equal once uppercased.
pub open spec fn same_name(a: Seq<char>, b: Seq<char>) -> bool {
    upper_of(a) == upper_of(b)
}

/// Whether the first `n` names of two paths are the same names.
pub open spec fn prefix_matches(a: Seq<Seq<char>>, b: Seq<Seq<char>>, n: int) -> bool {
    forall|i: int| 0 <= i < n ==> same_name(#[trigger] a[i], b[i])
}

/// Whether two paths name the same node.
pub open spec fn same_path(a: Seq<Seq<char>>, b: Seq<Seq<char>>) -> bool {
    a.len() == b.len() && prefix_matches(a, b, a.len() as int)
}

/// Whether a node is the one at `scope` and `path`.
pub open spec fn node_is(n: NodeView, scope: Scope, path: Seq<Seq<char>>) -> bool {
    n.scope == scope && same_path(n.path, path)
}

/// The first node from index `i` on that is the one at `scope` and `path`.
pub open spec fn find_from(nodes: Seq<NodeView>, scope: Scope, path: Seq<Seq<char>>, i: int) -> Option<int>
    decreases nodes.len() - i,
{
    if i < 0 || i >= nodes.len() {
        None
    } else if node_is(nodes[i], scope, path) {
        Some(i)
    } else {
        find_from(nodes, scope, path, i + 1)
    }
}

proof fn lemma_find_from_found(nodes: Seq<NodeView>, scope: Scope, path: Seq<Seq<char>>, i: int)
    ensures
        find_from(nodes, scope, path, i) is Some ==> {
            let j = find_from(nodes, scope, path, i)->0;
            0 <= j < nodes.len() && node_is(nodes[j], scope, path)
        },
    decreases nodes.len() - i,
{
    if 0 <= i < nodes.len() && !node_is(nodes[i], scope, path) {
        lemma_find_from_found(nodes, scope, path, i + 1);
    }
}

proof fn lemma_find_value_from_found(values: Seq<RawView>, name: Seq<char>, i: int)
    ensures
        find_value_from(values, name, i) is Some ==> {
            let j = find_value_from(values, name, i)->0;
            0 <= j < values.len() && same_name(values[j].name, name)
        },
    decreases values.len() - i,
{
    if 0 <= i < values.len() && !same_name(values[i].name, name) {
        lemma_find_value_from_found(values, name, i + 1);
    }
}

/// The index of the node at `scope` and `path`, if the store holds one.
pub open spec fn find_node(nodes: Seq<NodeView>, scope: Scope, path: Seq<Seq<char>>) -> Option<int> {
    find_from(nodes, scope, path, 0)
}

/// Whether a node exists: a scope root always does.
pub open spec fn has_node(nodes: Seq<NodeView>, scope: Scope, path: Seq<Seq<char>>) -> bool {
    path.len() == 0 || find_node(nodes, scope, path) is Some
}

/// The names of a path text: the pieces between separators that are not empty.
pub open spec fn path_segments(path: Seq<char>) -> Seq<Seq<char>> {
    split_on(path, '\\').filter(|s: Seq<char>| s.len() > 0)
}

/// A path text that ends in a name, not a separator, names at least one node.
pub proof fn lemma_segments_nonempty(path: Seq<char>)
    requires
        path.len() > 0,
        path.last() != '\\',
    ensures
        path_segments(path).len() > 0,
{
    let parts = split_on(path, '\\');
    crate::text::lemma_split_nonempty(path.drop_last(), '\\');
    assert(parts.last().len() > 0);
    reveal(Seq::filter);
}

/// Whether two names are the same name.
pub fn names_match(a: &str, b: &str) -> (r: bool)
    ensures
        r == same_name(a@, b@),
{
    let ua = to_upper(a);
    let ub = to_upper(b);
    ua == ub
}

/// Whether the first `n` names of two paths are the same names.
fn prefix_match(a: &Vec<String>, b: &Vec<String>, n: usize) -> (r: bool)
    requires
        n <= a@.len(),
        n <= b@.len(),
    ensures
        r == prefix_matches(path_views(a@), path_views(b@), n as int),
{
    let mut i: usize = 0;
    while i < n
        invariant
            n <= a@.len(),
            n <= b@.len(),
            i <= n,
            prefix_matches(path_views(a@), path_views(b@), i as int),
        decreases n - i,
    {
        if !names_match(a[i].as_str(), b[i].as_str()) {
            assert(!same_name(path_views(a@)[i as int], path_views(b@)[i as int]));
            return false;
        }
        i = i + 1;
    }
    true
}

/// The names of a path text.
fn segments_of(path: &str) -> (r: Vec<String>)
    ensures
        path_views(r@) == path_segments(path@),
{
    let chars = chars_of(path);
    let parts = split_chars(chars.as_slice(), '\\');
    let ghost pv = views(parts@);
    let mut r: Vec<String> = Vec::new();
    let mut i: usize = 0;
    proof {
        reveal(Seq::filter);
    }
    assert(pv.take(0).filter(|s: Seq<char>| s.len() > 0) =~= Seq::<Seq<char>>::empty());
    while i < parts.len()
        invariant
            pv == views(parts@),
            i <= parts@.len(),
            path_views(r@) == pv.take(i as int).filter(|s: Seq<char>| s.len() > 0),
        decreases parts@.len() - i,
    {
        assert(pv.take(i as int + 1).drop_last() =~= pv.take(i as int));
        assert(pv.take(i as int + 1).last() == parts@[i as int]@);
        proof {
            reveal(Seq::filter);
        }
        if parts[i].len() > 0 {
            let name = crate::text::string_from_chars(parts[i].as_slice());
            let ghost before = path_views(r@);
            r.push(name);
            assert(path_views(r@) =~= before.push(name@));
        }
        i = i + 1;
    }
    assert(pv.take(parts@.len() as int) =~= pv);
    r
}

/// Whether a node is an immediate child of the node at `scope` and `parent`.
pub open spec fn is_child(n: NodeView, scope: Scope, parent: Seq<Seq<char>>) -> bool {
    &&& n.scope == scope
    &&& n.path.len() == parent.len() + 1
    &&& prefix_matches(n.path, parent, parent.len() as int)
}

/// The immediate children of a node, in store order.
pub open spec fn children(nodes: Seq<NodeView>, scope: Scope, parent: Seq<Seq<char>>) -> Seq<NodeView> {
    nodes.filter(|n: NodeView| is_child(n, scope, parent))
}

/// The values a node holds; a scope root and a missing node hold none.
pub open spec fn node_values(nodes: Seq<NodeView>, scope: Scope, path: Seq<Seq<char>>) -> Seq<RawView> {
    if path.len() > 0 && find_node(nodes, scope, path) is Some {
        nodes[find_node(nodes, scope, path)->0].values
    } else {
        Seq::empty()
    }
}

/// Whether a stored value decodes.
pub open spec fn decodable(v: RawView) -> bool {
    decode(v.data, v.kind) is Some
}

/// The values that decode, each with its name and decoded content, in order.
pub open spec fn decoded(values: Seq<RawView>) -> Seq<(Seq<char>, DataView)> {
    values.filter(|v: RawView| decodable(v)).map_values(
        |v: RawView| (v.name, decode(v.data, v.kind)->0),
    )
}

/// The names and contents of a list of values.
pub open spec fn value_views(v: Seq<Value>) -> Seq<(Seq<char>, DataView)> {
    v.map_values(|x: Value| (x.name@, x.data@))
}

/// The first value from index `i` on with the given name.
pub open spec fn find_value_from(values: Seq<RawView>, name: Seq<char>, i: int) -> Option<int>
    decreases values.len() - i,
{
    if i < 0 || i >= values.len() {
        None
    } else if same_name(values[i].name, name) {
        Some(i)
    } else {
        find_value_from(values, name, i + 1)
    }
}

/// The index of the value with the given name.
pub open spec fn find_value(values: Seq<RawView>, name: Seq<char>) -> Option<int> {
    find_value_from(values, name, 0)
}

/// What reading one named value of a node gives: the decoded content of the
/// value with that name, or `None` where the node, the value, or its decoding
/// is missing. The empty name is the node's unnamed value.
pub open spec fn lookup_value(
    nodes: Seq<NodeView>,
    scope: Scope,
    path: Seq<Seq<char>>,
    name: Seq<char>,
) -> Option<DataView> {
    let values = node_values(nodes, scope, path);
    match find_value(values, name) {
        Some(j) => decode(values[j].data, values[j].kind),
        None => None,
    }
}

/// Whether a handle is the one that enumerating a parent opened with `access`
/// on the child node `n`.
pub open spec fn child_key(k: Key, n: NodeView, access: Access) -> bool {
    &&& k.scope() == n.scope
    &&& k.path() == n.path
    &&& k.access() == access
    &&& k.key_name() == n.path.last()
}

/// The store once a value is written to a node's values: a value of the same
/// name takes the new type and payload and keeps its name; otherwise the value
/// is added at the end.
pub open spec fn put_value(values: Seq<RawView>, name: Seq<char>, kind: u32, data: Seq<u8>) -> Seq<RawView> {
    match find_value(values, name) {
        Some(j) => values.update(j, RawView { name: values[j].name, kind, data }),
        None => values.push(RawView { name, kind, data }),
    }
}

/// The store once the node at index `i` holds `values`.
pub open spec fn with_values(nodes: Seq<NodeView>, i: int, values: Seq<RawView>) -> Seq<NodeView> {
    nodes.update(i, NodeView { scope: nodes[i].scope, path: nodes[i].path, values })
}

proof fn lemma_find_from_with_values(
    nodes: Seq<NodeView>,
    j: int,
    values: Seq<RawView>,
    scope: Scope,
    path: Seq<Seq<char>>,
    i: int,
)
    requires
        0 <= j < nodes.len(),
    ensures
        find_from(with_values(nodes, j, values), scope, path, i) == find_from(nodes, scope, path, i),
    decreases nodes.len() - i,
{
    if 0 <= i < nodes.len() {
        lemma_find_from_with_values(nodes, j, values, scope, path, i + 1);
    }
}

/// Writing a node's values leaves every node where it was found.
pub proof fn lemma_find_with_values(
    nodes: Seq<NodeView>,
    j: int,
    values: Seq<RawView>,
    scope: Scope,
    path: Seq<Seq<char>>,
)
    requires
        0 <= j < nodes.len(),
    ensures
        find_node(with_values(nodes, j, values), scope, path) == find_node(nodes, scope, path),
{
    lemma_find_from_with_values(nodes, j, values, scope, path, 0);
}

/// A node that is found lies within the store.
pub proof fn lemma_find_node_found(nodes: Seq<NodeView>, scope: Scope, path: Seq<Seq<char>>)
    ensures
        find_node(nodes, scope, path) is Some ==> 0 <= find_node(nodes, scope, path)->0
            < nodes.len(),
{
    lemma_find_from_found(nodes, scope, path, 0);
}

/// The store once the node at `scope` and `path` exists, with each missing
/// ancestor created before it, shortest first. A created node holds no values.
pub open spec fn with_path(nodes: Seq<NodeView>, scope: Scope, path: Seq<Seq<char>>) -> Seq<NodeView>
    decreases path.len(),
{
    if path.len() == 0 {
        nodes
    } else {
        let before = with_path(nodes, scope, path.drop_last());
        if find_node(before, scope, path) is Some {
            before
        } else {
            before.push(NodeView { scope, path, values: Seq::empty() })
        }
    }
}

proof fn lemma_find_from_push(
    nodes: Seq<NodeView>,
    x: NodeView,
    scope: Scope,
    path: Seq<Seq<char>>,
    i: int,
)
    requires
        0 <= i <= nodes.len(),
    ensures
        find_from(nodes.push(x), scope, path, i) == match find_from(nodes, scope, path, i) {
            Some(j) => Some(j),
            None => if node_is(x, scope, path) {
                Some(nodes.len() as int)
            } else {
                None
            },
        },
    decreases nodes.len() - i,
{
    if i < nodes.len() {
        assert(nodes.push(x)[i] == nodes[i]);
        lemma_find_from_push(nodes, x, scope, path, i + 1);
    } else {
        assert(nodes.push(x)[i] == x);
        assert(find_from(nodes.push(x), scope, path, i + 1) is None);
    }
}

/// Adding a node at the end leaves the nodes found before where they were.
proof fn lemma_find_push(nodes: Seq<NodeView>, x: NodeView, scope: Scope, path: Seq<Seq<char>>)
    ensures
        find_node(nodes.push(x), scope, path) == match find_node(nodes, scope, path) {
            Some(j) => Some(j),
            None => if node_is(x, scope, path) {
                Some(nodes.len() as int)
            } else {
                None
            },
        },
{
    lemma_find_from_push(nodes, x, scope, path, 0);
}

/// Once a path has been created, it and each of its ancestors exist.
pub proof fn lemma_with_path_has(nodes: Seq<NodeView>, scope: Scope, path: Seq<Seq<char>>, k: int)
    requires
        0 <= k <= path.len(),
    ensures
        has_node(with_path(nodes, scope, path), scope, path.take(k)),
    decreases path.len(),
{
    if k > 0 {
        let before = with_path(nodes, scope, path.drop_last());
        let x = NodeView { scope, path, values: Seq::empty() };
        lemma_find_push(before, x, scope, path.take(k));
        if k == path.len() {
            assert(path.take(k) =~= path);
            assert(node_is(x, scope, path));
        } else {
            lemma_with_path_has(nodes, scope, path.drop_last(), k);
            assert(path.drop_last().take(k) =~= path.take(k));
        }
    }
}

/// Whether every prefix of a path names a node: the node and all its ancestors
/// exist.
pub open spec fn all_prefixes_exist(nodes: Seq<NodeView>, scope: Scope, path: Seq<Seq<char>>) -> bool {
    forall|k: int| 0 <= k <= path.len() ==> has_node(nodes, scope, #[trigger] path.take(k))
}

/// Whether a store is well formed: each node's ancestors exist.
pub open spec fn store_wf(nodes: Seq<NodeView>) -> bool {
    forall|i: int| 0 <= i < nodes.len() ==> all_prefixes_exist(nodes, #[trigger] nodes[i].scope, nodes[i].path)
}

proof fn lemma_node_is_same_path(n: NodeView, scope: Scope, p: Seq<Seq<char>>, q: Seq<Seq<char>>)
    requires
        same_path(p, q),
    ensures
        node_is(n, scope, p) == node_is(n, scope, q),
{
    if node_is(n, scope, p) {
        assert forall|i: int| 0 <= i < n.path.len() implies same_name(#[trigger] n.path[i], q[i]) by {
            assert(same_name(n.path[i], p[i]));
            assert(same_name(p[i], q[i]));
        }
    }
    if node_is(n, scope, q) {
        assert forall|i: int| 0 <= i < n.path.len() implies same_name(#[trigger] n.path[i], p[i]) by {
            assert(same_name(n.path[i], q[i]));
            assert(same_name(p[i], q[i]));
        }
    }
}

proof fn lemma_find_from_same_path(
    nodes: Seq<NodeView>,
    scope: Scope,
    p: Seq<Seq<char>>,
    q: Seq<Seq<char>>,
    i: int,
)
    requires
        same_path(p, q),
    ensures
        find_from(nodes, scope, p, i) == find_from(nodes, scope, q, i),
    decreases nodes.len() - i,
{
    if 0 <= i < nodes.len() {
        lemma_node_is_same_path(nodes[i], scope, p, q);
        lemma_find_from_same_path(nodes, scope, p, q, i + 1);
    }
}

/// In a well-formed store, a node exists only where each of its ancestors does.
pub proof fn lemma_ancestors_exist(nodes: Seq<NodeView>, scope: Scope, path: Seq<Seq<char>>)
    requires
        store_wf(nodes),
        has_node(nodes, scope, path),
    ensures
        all_prefixes_exist(nodes, scope, path),
{
    if path.len() == 0 {
        assert forall|k: int| 0 <= k <= path.len() implies has_node(nodes, scope, #[trigger] path.take(k)) by {
            assert(path.take(k).len() == 0);
        }
    } else {
        lemma_find_from_found(nodes, scope, path, 0);
        let i = find_node(nodes, scope, path)->0;
        let n = nodes[i];
        assert(all_prefixes_exist(nodes, n.scope, n.path));
        assert forall|k: int| 0 <= k <= path.len() implies has_node(nodes, scope, #[trigger] path.take(k)) by {
            assert(has_node(nodes, scope, n.path.take(k)));
            assert forall|j: int| 0 <= j < k implies same_name(#[trigger] n.path.take(k)[j], path.take(k)[j]) by {
                assert(same_name(n.path[j], path[j]));
            }
            lemma_find_from_same_path(nodes, scope, n.path.take(k), path.take(k), 0);
        }
    }
}

/// Creating a path keeps a store well formed.
pub proof fn lemma_with_path_wf(nodes: Seq<NodeView>, scope: Scope, path: Seq<Seq<char>>)
    requires
        store_wf(nodes),
    ensures
        store_wf(with_path(nodes, scope, path)),
    decreases path.len(),
{
    if path.len() > 0 {
        let before = with_path(nodes, scope, path.drop_last());
        lemma_with_path_wf(nodes, scope, path.drop_last());
        if find_node(before, scope, path) is None {
            let x = NodeView { scope, path, values: Seq::empty() };
            let after = before.push(x);
            assert forall|i: int| 0 <= i < after.len() implies all_prefixes_exist(
                after,
                #[trigger] after[i].scope,
                after[i].path,
            ) by {
                let n = after[i];
                assert forall|k: int| 0 <= k <= n.path.len() implies has_node(
                    after,
                    n.scope,
                    #[trigger] n.path.take(k),
                ) by {
                    lemma_find_push(before, x, n.scope, n.path.take(k));
                    if i < before.len() {
                        assert(before[i] == n);
                        assert(has_node(before, n.scope, n.path.take(k)));
                    } else if k == path.len() {
                        assert(path.take(k) =~= path);
                        assert(node_is(x, scope, path));
                    } else {
                        lemma_with_path_has(nodes, scope, path.drop_last(), k);
                        assert(path.drop_last().take(k) =~= path.take(k));
                    }
                }
            }
        }
    }
}

/// Writing a node's values keeps a store well formed.
pub proof fn lemma_with_values_wf(nodes: Seq<NodeView>, j: int, values: Seq<RawView>)
    requires
        store_wf(nodes),
        0 <= j < nodes.len(),
    ensures
        store_wf(with_values(nodes, j, values)),
{
    let after = with_values(nodes, j, values);
    assert forall|i: int| 0 <= i < after.len() implies all_prefixes_exist(
        after,
        #[trigger] after[i].scope,
        after[i].path,
    ) by {
        assert(all_prefixes_exist(nodes, nodes[i].scope, nodes[i].path));
        assert forall|k: int| 0 <= k <= after[i].path.len() implies has_node(
            after,
            after[i].scope,
            #[trigger] after[i].path.take(k),
        ) by {
            assert(has_node(nodes, nodes[i].scope, nodes[i].path.take(k)));
            lemma_find_with_values(nodes, j, values, after[i].scope, after[i].path.take(k));
        }
    }
}

/// A copy of a path.
fn copy_path(p: &Vec<String>) -> (r: Vec<String>)
    ensures
        path_views(r@) == path_views(p@),
{
    let mut r: Vec<String> = Vec::new();
    let mut i: usize = 0;
    while i < p.len()
        invariant
            i <= p@.len(),
            path_views(r@) == path_views(p@).take(i as int),
        decreases p@.len() - i,
    {
        let s = p[i].clone();
        assert(s@ == path_views(p@)[i as int]);
        let ghost before = path_views(r@);
        r.push(s);
        assert(path_views(r@) =~= before.push(s@));
        i = i + 1;
        assert(path_views(r@) =~= path_views(p@).take(i as int));
    }
    assert(path_views(p@).take(p@.len() as int) =~= path_views(p@));
    r
}

/// Two paths joined.
fn join_paths(a: &Vec<String>, b: &Vec<String>) -> (r: Vec<String>)
    ensures
        path_views(r@) == path_views(a@) + path_views(b@),
{
    let mut r = copy_path(a);
    let mut i: usize = 0;
    while i < b.len()
        invariant
            i <= b@.len(),
            path_views(r@) == path_views(a@) + path_views(b@).take(i as int),
        decreases b@.len() - i,
    {
        let s = b[i].clone();
        assert(s@ == path_views(b@)[i as int]);
        let ghost before = path_views(r@);
        r.push(s);
        assert(path_views(r@) =~= before.push(s@));
        i = i + 1;
        assert(path_views(r@) =~= path_views(a@) + path_views(b@).take(i as int));
    }
    assert(path_views(b@).take(b@.len() as int) =~= path_views(b@));
    r
}

impl Store {
    /// Creates the node at `scope` and `path` and each missing ancestor.
    fn create_path(&mut self, scope: Scope, path: &Vec<String>)
        ensures
            final(self)@ == with_path(old(self)@, scope, path_views(path@)),
    {
        let ghost p = path_views(path@);
        let mut prefix: Vec<String> = Vec::new();
        let mut k: usize = 0;
        assert(p.take(0) =~= Seq::<Seq<char>>::empty());
        assert(path_views(prefix@) =~= p.take(0));
        while k < path.len()
            invariant
                p == path_views(path@),
                k <= p.len(),
                path_views(prefix@) == p.take(k as int),
                self@ == with_path(old(self)@, scope, p.take(k as int)),
            decreases p.len() - k,
        {
            prefix.push(path[k].clone());
            k = k + 1;
            assert(path_views(prefix@) =~= p.take(k as int));
            assert(p.take(k as int).drop_last() =~= p.take(k as int - 1));
            match self.find(scope, &prefix) {
                Some(_) => {},
                None => {
                    let node = Node { scope, path: copy_path(&prefix), values: Vec::new() };
                    let ghost before = self@;
                    self.nodes.push(node);
                    assert(node@.values =~= Seq::<RawView>::empty());
                    assert(self@ =~= before.push(NodeView { scope, path: p.take(k as int), values: Seq::empty() }));
                },
            }
        }
        assert(p.take(p.len() as int) =~= p);
    }

    /// A store that holds no nodes.
    pub fn new() -> (r: Store)
        ensures
            r@ == Seq::<NodeView>::empty(),
            store_wf(r@),
    {
        let r = Store { nodes: Vec::new() };
        assert(r@ =~= Seq::<NodeView>::empty());
        r
    }

    /// The index of the node at `scope` and `path`.
    fn find(&self, scope: Scope, path: &Vec<String>) -> (r: Option<usize>)
        ensures
            match r {
                Some(i) => find_node(self@, scope, path_views(path@)) == Some(i as int) && i
                    < self@.len(),
                None => find_node(self@, scope, path_views(path@)) is None,
            },
    {
        proof {
            lemma_find_from_found(self@, scope, path_views(path@), 0);
        }
        let ghost p = path_views(path@);
        let mut i: usize = 0;
        while i < self.nodes.len()
            invariant
                p == path_views(path@),
                i <= self@.len(),
                self@.len() == self.nodes@.len(),
                find_node(self@, scope, p) == find_from(self@, scope, p, i as int),
            decreases self.nodes@.len() - i,
        {
            let node = &self.nodes[i];
            assert(node@ == self@[i as int]);
            if node.scope == scope && node.path.len() == path.len() && prefix_match(
                &node.path,
                path,
                path.len(),
            ) {
                return Some(i);
            }
            i = i + 1;
        }
        None
    }
}

/// An open handle to one node of a [`Store`]: the node's scope and path, the
/// access it was opened with, and its name, the last name of the path that
/// opened it.
#[derive(Debug)]
pub struct Key {
    scope: Scope,
    path: Vec<String>,
    access: Access,
    name: String,
}

/// Whether a handle is open on `scope` and `path` with `access`, named `name`.
pub open spec fn opened(k: Key, scope: Scope, path: Seq<Seq<char>>, access: Access, name: Seq<char>) -> bool {
    &&& k.scope() == scope
    &&& k.path() == path
    &&& k.access() == access
    &&& k.key_name() == name
}

impl Key {
    /// The scope of the node.
    pub closed spec fn scope(&self) -> Scope {
        self.scope
    }

    /// The path of the node from its scope's root.
    pub closed spec fn path(&self) -> Seq<Seq<char>> {
        path_views(self.path@)
    }

    /// The access the handle was opened with.
    pub closed spec fn access(&self) -> Access {
        self.access
    }

    /// The name of the node.
    pub closed spec fn key_name(&self) -> Seq<char> {
        self.name@
    }

    /// Whether the handle is open on a scope's root.
    pub fn is_root(&self) -> (r: bool)
        ensures
            r == (self.path().len() == 0),
    {
        self.path.len() == 0
    }

    /// The name of the node: the last name of the path that opened it.
    pub fn name(&self) -> (r: &String)
        ensures
            r@ == self.key_name(),
    {
        &self.name
    }

    /// Opens an existing node for reading. A path with no names opens the
    /// scope's root.
    pub fn open(store: &Store, scope: Scope, path: &str) -> (r: Result<Key, Error>)
        ensures
            has_node(store@, scope, path_segments(path@)) ==> r is Ok && opened(
                r->Ok_0,
                scope,
                path_segments(path@),
                Access::Read,
                crate::registry::name_of(path@),
            ),
            !has_node(store@, scope, path_segments(path@)) ==> r == Err::<Key, Error>(
                Error::NotFound,
            ),
            store_wf(store@) && !all_prefixes_exist(store@, scope, path_segments(path@)) ==> r
                == Err::<Key, Error>(Error::NotFound),
            store_wf(store@) ==> (r is Ok <==> all_prefixes_exist(
                store@,
                scope,
                path_segments(path@),
            )),
    {
        let segments = segments_of(path);
        Key::open_at(store, scope, segments, Access::Read, path)
    }

    fn open_at(store: &Store, scope: Scope, full: Vec<String>, access: Access, path: &str) -> (r: Result<Key, Error>)
        ensures
            has_node(store@, scope, path_views(full@)) ==> r is Ok && opened(
                r->Ok_0,
                scope,
                path_views(full@),
                access,
                crate::registry::name_of(path@),
            ),
            !has_node(store@, scope, path_views(full@)) ==> r == Err::<Key, Error>(
                Error::NotFound,
            ),
            store_wf(store@) ==> (r is Ok <==> all_prefixes_exist(
                store@,
                scope,
                path_views(full@),
            )),
    {
        proof {
            let p = path_views(full@);
            if store_wf(store@) && has_node(store@, scope, p) {
                lemma_ancestors_exist(store@, scope, p);
            }
            if all_prefixes_exist(store@, scope, p) {
                assert(p.take(p.len() as int) =~= p);
            }
        }
        if full.len() > 0 {
            if store.find(scope, &full).is_none() {
                return Err(Error::NotFound);
            }
        }
        let name = crate::registry::get_name(path);
        Ok(Key { scope, path: full, access, name })
    }

    /// Opens an existing node below this one, with this handle's access.
    pub fn open_subkey(&self, store: &Store, path: &str) -> (r: Result<Key, Error>)
        ensures
            has_node(store@, self.scope(), self.path() + path_segments(path@)) ==> r is Ok
                && opened(
                r->Ok_0,
                self.scope(),
                self.path() + path_segments(path@),
                self.access(),
                crate::registry::name_of(path@),
            ),
            !has_node(store@, self.scope(), self.path() + path_segments(path@)) ==> r == Err::<
                Key,
                Error,
            >(Error::NotFound),
            store_wf(store@) && !all_prefixes_exist(
                store@,
                self.scope(),
                self.path() + path_segments(path@),
            ) ==> r == Err::<Key, Error>(Error::NotFound),
            store_wf(store@) ==> (r is Ok <==> all_prefixes_exist(
                store@,
                self.scope(),
                self.path() + path_segments(path@),
            )),
    {
        let segments = segments_of(path);
        let full = join_paths(&self.path, &segments);
        Key::open_at(store, self.scope, full, self.access, path)
    }

    /// The immediate children of this node, in store order, each opened with
    /// this handle's access; `NotFound` where the node does not exist.
    pub fn keys(&self, store: &Store) -> (r: Result<Vec<Key>, Error>)
        ensures
            !has_node(store@, self.scope(), self.path()) ==> r == Err::<Vec<Key>, Error>(
                Error::NotFound,
            ),
            has_node(store@, self.scope(), self.path()) ==> {
                let c = children(store@, self.scope(), self.path());
                &&& r is Ok
                &&& r->Ok_0@.len() == c.len()
                &&& forall|i: int|
                    0 <= i < c.len() ==> child_key(#[trigger] r->Ok_0@[i], c[i], self.access())
            },
    {
        if self.path.len() > 0 && store.find(self.scope, &self.path).is_none() {
            return Err(Error::NotFound);
        }
        let ghost nodes = store@;
        let ghost pred = |n: NodeView| is_child(n, self.scope(), self.path());
        let mut r: Vec<Key> = Vec::new();
        let mut i: usize = 0;
        proof {
            reveal(Seq::filter);
        }
        assert(nodes.take(0).filter(pred) =~= Seq::<NodeView>::empty());
        while i < store.nodes.len()
            invariant
                nodes == store@,
                nodes.len() == store.nodes@.len(),
                pred == (|n: NodeView| is_child(n, self.scope(), self.path())),
                i <= nodes.len(),
                r@.len() == nodes.take(i as int).filter(pred).len(),
                forall|j: int|
                    0 <= j < r@.len() ==> child_key(
                        #[trigger] r@[j],
                        nodes.take(i as int).filter(pred)[j],
                        self.access(),
                    ),
            decreases nodes.len() - i,
        {
            let node = &store.nodes[i];
            assert(node@ == nodes[i as int]);
            assert(nodes.take(i as int + 1).drop_last() =~= nodes.take(i as int));
            assert(nodes.take(i as int + 1).last() == nodes[i as int]);
            proof {
                reveal(Seq::filter);
            }
            if node.scope == self.scope && node.path.len() > 0 && node.path.len() - 1
                == self.path.len() && prefix_match(&node.path, &self.path, self.path.len()) {
                assert(pred(nodes[i as int]));
                assert(nodes.take(i as int + 1).filter(pred) == nodes.take(i as int).filter(
                    pred,
                ).push(nodes[i as int]));
                let last = node.path.len() - 1;
                let child = Key {
                    scope: node.scope,
                    path: copy_path(&node.path),
                    access: self.access,
                    name: node.path[last].clone(),
                };
                assert(child_key(child, nodes[i as int], self.access()));
                r.push(child);
            } else {
                assert(!pred(nodes[i as int]));
                assert(nodes.take(i as int + 1).filter(pred) == nodes.take(i as int).filter(
                    pred,
                ));
            }
            i = i + 1;
        }
        assert(nodes.take(nodes.len() as int) =~= nodes);
        Ok(r)
    }

    /// The values of this node that decode, in store order; `NotFound` where
    /// the node does not exist.
    pub fn values(&self, store: &Store) -> (r: Result<Vec<Value>, Error>)
        ensures
            !has_node(store@, self.scope(), self.path()) ==> r == Err::<Vec<Value>, Error>(
                Error::NotFound,
            ),
            has_node(store@, self.scope(), self.path()) ==> r is Ok && value_views(r->Ok_0@)
                == decoded(node_values(store@, self.scope(), self.path())),
    {
        let mut r: Vec<Value> = Vec::new();
        if self.path.len() == 0 {
            assert(value_views(r@) =~= decoded(Seq::empty()));
            return Ok(r);
        }
        let found = store.find(self.scope, &self.path);
        if found.is_none() {
            return Err(Error::NotFound);
        }
        let idx = found.unwrap();
        let node = &store.nodes[idx];
        let ghost vals = node_values(store@, self.scope(), self.path());
        assert(node@ == store@[idx as int]);
        assert(vals == node.values@.map_values(|v: RawValue| v@));
        let mut i: usize = 0;
        proof {
            reveal(Seq::filter);
        }
        assert(vals.take(0).filter(|v: RawView| decodable(v)) =~= Seq::<RawView>::empty());
        while i < node.values.len()
            invariant
                vals == node.values@.map_values(|v: RawValue| v@),
                i <= vals.len(),
                value_views(r@) == vals.take(i as int).filter(|v: RawView| decodable(v)).map_values(
                    |v: RawView| (v.name, decode(v.data, v.kind)->0),
                ),
            decreases vals.len() - i,
        {
            let raw = &node.values[i];
            assert(raw@ == vals[i as int]);
            assert(vals.take(i as int + 1).drop_last() =~= vals.take(i as int));
            assert(vals.take(i as int + 1).last() == vals[i as int]);
            proof {
                reveal(Seq::filter);
            }
            match Value::from(raw.name.as_str(), raw.data.as_slice(), raw.kind) {
                Some(v) => {
                    let ghost before = value_views(r@);
                    let ghost vv = (v.name@, v.data@);
                    r.push(v);
                    assert(value_views(r@) =~= before.push(vv));
                    assert(value_views(r@) =~= vals.take(i as int + 1).filter(|v: RawView| decodable(v)).map_values(
                        |v: RawView| (v.name, decode(v.data, v.kind)->0),
                    ));
                },
                None => {},
            }
            i = i + 1;
        }
        assert(vals.take(vals.len() as int) =~= vals);
        Ok(r)
    }

    /// The index of this node's value with the given name.
    fn find_raw(node: &Node, name: &str) -> (r: Option<usize>)
        ensures
            match r {
                Some(j) => find_value(node@.values, name@) == Some(j as int) && j
                    < node@.values.len(),
                None => find_value(node@.values, name@) is None,
            },
    {
        proof {
            lemma_find_value_from_found(node@.values, name@, 0);
        }
        let ghost vals = node@.values;
        let mut j: usize = 0;
        while j < node.values.len()
            invariant
                vals == node@.values,
                vals.len() == node.values@.len(),
                j <= vals.len(),
                find_value(vals, name@) == find_value_from(vals, name@, j as int),
            decreases vals.len() - j,
        {
            assert(node.values@[j as int]@ == vals[j as int]);
            if names_match(node.values[j].name.as_str(), name) {
                return Some(j);
            }
            j = j + 1;
        }
        None
    }

    /// Reads one named value of this node; the empty name reads the node's
    /// unnamed value. A missing node or value, or one that does not decode,
    /// gives `None`.
    pub fn value(&self, store: &Store, name: &str) -> (r: Option<Value>)
        ensures
            match r {
                Some(v) => v.name@ == name@ && lookup_value(store@, self.scope(), self.path(), name@)
                    == Some(v.data@),
                None => lookup_value(store@, self.scope(), self.path(), name@) is None,
            },
    {
        if self.path.len() == 0 {
            return None;
        }
        let found = store.find(self.scope, &self.path);
        if found.is_none() {
            return None;
        }
        let idx = found.unwrap();
        let node = &store.nodes[idx];
        assert(node@ == store@[idx as int]);
        match Key::find_raw(node, name) {
            Some(j) => {
                let raw = &node.values[j];
                assert(raw@ == node@.values[j as int]);
                Value::from(name, raw.data.as_slice(), raw.kind)
            },
            None => None,
        }
    }

    /// Writes one named value of this node; the empty name writes the node's
    /// unnamed value. A handle opened for reading cannot write; the scope
    /// roots hold no values.
    pub fn set_value(&self, store: &mut Store, name: &str, data: &Data) -> (r: Result<(), Error>)
        ensures
            self.access() == Access::Read ==> r == Err::<(), Error>(
                Error::RegistryError(E_ACCESS_DENIED),
            ) && final(store)@ == old(store)@,
            self.access() == Access::ReadWrite && (self.path().len() == 0 || find_node(
                old(store)@,
                self.scope(),
                self.path(),
            ) is None) ==> r == Err::<(), Error>(Error::NotFound) && final(store)@ == old(
                store,
            )@,
            self.access() == Access::ReadWrite && self.path().len() > 0 && find_node(
                old(store)@,
                self.scope(),
                self.path(),
            ) is Some ==> {
                let i = find_node(old(store)@, self.scope(), self.path())->0;
                let (kind, bytes) = encode(data@);
                &&& r is Ok
                &&& final(store)@ == with_values(
                    old(store)@,
                    i,
                    put_value(old(store)@[i].values, name@, kind, bytes),
                )
            },
            store_wf(old(store)@) ==> store_wf(final(store)@),
    {
        if self.access == Access::Read {
            return Err(Error::RegistryError(E_ACCESS_DENIED));
        }
        if self.path.len() == 0 {
            return Err(Error::NotFound);
        }
        let found = store.find(self.scope, &self.path);
        if found.is_none() {
            return Err(Error::NotFound);
        }
        let idx = found.unwrap();
        let (kind, bytes) = data.encode();
        let ghost old_nodes = store@;
        let mut node = store.nodes.remove(idx);
        assert(node@ == old_nodes[idx as int]);
        let ghost old_values = node@.values;
        let ghost new_values = put_value(old_values, name@, kind, bytes@);
        match Key::find_raw(&node, name) {
            Some(j) => {
                let old_raw = node.values.remove(j);
                assert(old_raw@ == old_values[j as int]);
                let raw = RawValue { name: old_raw.name, kind, data: bytes };
                node.values.insert(j, raw);
                assert(node@.values =~= new_values);
            },
            None => {
                let raw = RawValue { name: name.to_owned(), kind, data: bytes };
                node.values.push(raw);
                assert(node@.values =~= new_values);
            },
        }
        store.nodes.insert(idx, node);
        assert(store@ =~= with_values(old_nodes, idx as int, new_values));
        proof {
            if store_wf(old_nodes) {
                lemma_with_values_wf(old_nodes, idx as int, new_values);
            }
        }
        Ok(())
    }

    /// Opens a node for reading and writing, creating it and each missing
    /// ancestor.
    pub fn create(store: &mut Store, scope: Scope, path: &str) -> (r: Result<Key, Error>)
        ensures
            final(store)@ == with_path(old(store)@, scope, path_segments(path@)),
            forall|k: int|
                0 <= k <= path_segments(path@).len() ==> has_node(
                    final(store)@,
                    scope,
                    #[trigger] path_segments(path@).take(k),
                ),
            r is Ok,
            opened(
                r->Ok_0,
                scope,
                path_segments(path@),
                Access::ReadWrite,
                crate::registry::name_of(path@),
            ),
            store_wf(old(store)@) ==> store_wf(final(store)@),
    {
        proof {
            if store_wf(store@) {
                lemma_with_path_wf(store@, scope, path_segments(path@));
            }
        }
        let segments = segments_of(path);
        store.create_path(scope, &segments);
        proof {
            assert forall|k: int| 0 <= k <= path_segments(path@).len() implies has_node(
                final(store)@,
                scope,
                #[trigger] path_segments(path@).take(k),
            ) by {
                lemma_with_path_has(old(store)@, scope, path_segments(path@), k);
            }
        }
        let name = crate::registry::get_name(path);
        Ok(Key { scope, path: segments, access: Access::ReadWrite, name })
    }

    /// Opens a node below this one for reading and writing, creating it and
    /// each missing ancestor. A handle opened for reading cannot create.
    pub fn create_subkey(&self, store: &mut Store, path: &str) -> (r: Result<Key, Error>)
        ensures
            self.access() == Access::Read ==> r == Err::<Key, Error>(
                Error::RegistryError(E_ACCESS_DENIED),
            ) && final(store)@ == old(store)@,
            self.access() == Access::ReadWrite ==> {
                &&& final(store)@ == with_path(
                    old(store)@,
                    self.scope(),
                    self.path() + path_segments(path@),
                )
                &&& r is Ok
                &&& opened(
                    r->Ok_0,
                    self.scope(),
                    self.path() + path_segments(path@),
                    Access::ReadWrite,
                    crate::registry::name_of(path@),
                )
            },
            store_wf(old(store)@) ==> store_wf(final(store)@),
    {
        proof {
            if store_wf(store@) {
                lemma_with_path_wf(store@, self.scope(), self.path() + path_segments(path@));
            }
        }
        if self.access == Access::Read {
            return Err(Error::RegistryError(E_ACCESS_DENIED));
        }
        let segments = segments_of(path);
        let full = join_paths(&self.path, &segments);
        store.create_path(self.scope, &full);
        let name = crate::registry::get_name(path);
        Ok(Key { scope: self.scope, path: full, access: Access::ReadWrite, name })
    }
}

} // verus!
