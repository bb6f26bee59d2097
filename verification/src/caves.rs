//! Cave path enumeration: an undirected graph of named caves, each small
//! (lower-case name, visit-limited) or large (upper-case name, freely
//! revisitable). All walks from `start` to `end` are counted, where small
//! caves may be entered once — or, in the relaxed mode, one single small cave
//! twice. `start` is never re-entered and reaching `end` finishes a walk.

use crate::bytes;
use vstd::prelude::*;

verus! {

#[derive(PartialEq, Eq, Structural, Clone, Copy, Debug)]
pub enum NodeType {
    Upper,
    Lower,
}

pub struct Node {
    pub name: Vec<u8>,
    pub connections: Vec<usize>,
    pub ntype: NodeType,
}

pub struct Graph {
    pub nodes: Vec<Node>,
    pub start: usize,
    pub end: usize,
}

/// The reserved name of the walk's first cave.
pub open spec fn start_name() -> Seq<u8> {
    seq![115u8, 116u8, 97u8, 114u8, 116u8]
}

/// The reserved name of the walk's final cave.
pub open spec fn end_name() -> Seq<u8> {
    seq![101u8, 110u8, 100u8]
}

/// A name with no upper-case ASCII letter marks a small cave. Names are
/// classified byte by byte; cave names are plain ASCII words.
pub open spec fn is_lower_name(name: Seq<u8>) -> bool {
    forall|j: int| 0 <= j < name.len() ==> !(65 <= #[trigger] name[j] <= 90)
}

/// Cave class derived from the name's casing.
pub open spec fn node_type_of(name: Seq<u8>) -> NodeType {
    if is_lower_name(name) {
        NodeType::Lower
    } else {
        NodeType::Upper
    }
}

impl NodeType {
    /// Classifies a cave name: lower-case means small, anything with an
    /// upper-case letter means large.
    pub fn from_str(name: &[u8]) -> (r: NodeType)
        ensures
            r == node_type_of(name@),
    {
        let mut i: usize = 0;
        while i < name.len()
            invariant
                i <= name@.len(),
                forall|j: int| 0 <= j < i ==> !(65 <= #[trigger] name@[j] <= 90),
            decreases name@.len() - i,
        {
            if name[i] >= 65 && name[i] <= 90 {
                return NodeType::Upper;
            }
            i = i + 1;
        }
        NodeType::Lower
    }
}

impl Node {
    /// A fresh, unconnected cave of the class its name dictates.
    pub fn from_str(name: &[u8]) -> (r: Node)
        ensures
            r.name@ == name@,
            r.connections@.len() == 0,
            r.ntype == node_type_of(name@),
    {
        let mut owned: Vec<u8> = Vec::new();
        let mut i: usize = 0;
        while i < name.len()
            invariant
                i <= name@.len(),
                owned@ == name@.take(i as int),
            decreases name@.len() - i,
        {
            owned.push(name[i]);
            proof {
                assert(owned@ =~= name@.take(i + 1));
            }
            i = i + 1;
        }
        proof {
            assert(name@.take(name@.len() as int) =~= name@);
        }
        Node { name: owned, connections: Vec::new(), ntype: NodeType::from_str(name) }
    }
}

/// Byte-for-byte equality of two names.
pub fn eq_bytes(a: &[u8], b: &[u8]) -> (r: bool)
    ensures
        r <==> a@ == b@,
{
    if a.len() != b.len() {
        return false;
    }
    let mut i: usize = 0;
    while i < a.len()
        invariant
            a@.len() == b@.len(),
            i <= a@.len(),
            forall|j: int| 0 <= j < i ==> a@[j] == b@[j],
        decreases a@.len() - i,
    {
        if a[i] != b[i] {
            return false;
        }
        i = i + 1;
    }
    proof {
        assert(a@ =~= b@);
    }
    true
}

/// Index of the cave with this name, if one exists.
pub fn find_node(nodes: &Vec<Node>, name: &[u8]) -> (r: Option<usize>)
    ensures
        match r {
            Some(i) => i < nodes@.len() && nodes@[i as int].name@ == name@,
            None => forall|i: int| 0 <= i < nodes@.len() ==> nodes@[i].name@ != name@,
        },
{
    let mut i: usize = 0;
    while i < nodes.len()
        invariant
            i <= nodes@.len(),
            forall|j: int| 0 <= j < i ==> nodes@[j].name@ != name@,
        decreases nodes@.len() - i,
    {
        if eq_bytes(nodes[i].name.as_slice(), name) {
            return Some(i);
        }
        i = i + 1;
    }
    None
}

impl Graph {
    /// Caves are well formed: ids in range, types matching names, unique
    /// names, reserved `start`/`end` caves present, no edge back into
    /// `start`, and no duplicate edges.
    pub open spec fn wf(self) -> bool {
        &&& self.start < self.nodes@.len()
        &&& self.end < self.nodes@.len()
        &&& self.nodes@[self.start as int].name@ == start_name()
        &&& self.nodes@[self.end as int].name@ == end_name()
        &&& forall|i: int|
            0 <= i < self.nodes@.len() ==> (#[trigger] self.nodes@[i].ntype) == node_type_of(
                self.nodes@[i].name@,
            )
        &&& forall|i: int, k: int|
            0 <= i < self.nodes@.len() && 0 <= k < self.nodes@[i].connections@.len()
                ==> #[trigger] self.nodes@[i].connections@[k] < self.nodes@.len()
        &&& forall|i: int, k: int|
            0 <= i < self.nodes@.len() && 0 <= k < self.nodes@[i].connections@.len()
                ==> #[trigger] self.nodes@[i].connections@[k] != self.start
        &&& forall|i: int, j: int|
            0 <= i < j < self.nodes@.len() ==> self.nodes@[i].name@ != self.nodes@[j].name@
        &&& forall|i: int, k1: int, k2: int|
            0 <= i < self.nodes@.len() && 0 <= k1 < k2 < self.nodes@[i].connections@.len()
                ==> #[trigger] self.nodes@[i].connections@[k1] != #[trigger] self.nodes@[
            i
        ].connections@[k2]
    }

    /// Index of the cave with this name, if one exists.
    pub fn lookup(&self, name: &[u8]) -> (r: Option<usize>)
        ensures
            match r {
                Some(i) => i < self.nodes@.len() && self.nodes@[i as int].name@ == name@,
                None => forall|i: int| 0 <= i < self.nodes@.len() ==> self.nodes@[i].name@ != name@,
            },
    {
        find_node(&self.nodes, name)
    }
}

/// A name's pieces when split on `-`.
pub open spec fn line_parts(line: Seq<u8>) -> Seq<Seq<u8>> {
    bytes::split_spec(line, 45)
}

/// Every line is exactly one `A-B` edge token.
pub open spec fn good_edge_lines(ls: Seq<Seq<u8>>) -> bool {
    forall|l: int| 0 <= l < ls.len() ==> (#[trigger] line_parts(ls[l])).len() == 2
}

/// Some line mentions this cave name.
pub open spec fn input_has_name(ls: Seq<Seq<u8>>, name: Seq<u8>) -> bool {
    exists|l: int|
        0 <= l < ls.len() && ((#[trigger] line_parts(ls[l]))[0] == name || line_parts(ls[l])[1]
            == name)
}

/// Some line joins these two cave names, in either order.
pub open spec fn input_edge(ls: Seq<Seq<u8>>, a: Seq<u8>, b: Seq<u8>) -> bool {
    exists|l: int|
        0 <= l < ls.len() && ((#[trigger] line_parts(ls[l]))[0] == a && line_parts(ls[l])[1] == b
            || line_parts(ls[l])[0] == b && line_parts(ls[l])[1] == a)
}

/// The graph holds a cave with this name.
pub open spec fn has_node(g: Graph, name: Seq<u8>) -> bool {
    exists|i: int| 0 <= i < g.nodes@.len() && (#[trigger] g.nodes@[i]).name@ == name
}

/// `to` is listed among the connections of cave `from`.
pub open spec fn edge(g: Graph, from: usize, to: usize) -> bool {
    g.nodes@[from as int].connections@.contains(to)
}

/// `v`'s id occurs among the connections of `v`'s entry.
fn contains_id(v: &Vec<usize>, x: usize) -> (r: bool)
    ensures
        r <==> v@.contains(x),
{
    let mut i: usize = 0;
    while i < v.len()
        invariant
            i <= v@.len(),
            forall|j: int| 0 <= j < i ==> v@[j] != x,
        decreases v@.len() - i,
    {
        if v[i] == x {
            return true;
        }
        i = i + 1;
    }
    false
}

/// A fresh vector with the same ids.
fn copy_ids(v: &Vec<usize>) -> (r: Vec<usize>)
    ensures
        r@ == v@,
{
    let mut r: Vec<usize> = Vec::new();
    let mut i: usize = 0;
    while i < v.len()
        invariant
            i <= v@.len(),
            r@ == v@.take(i as int),
        decreases v@.len() - i,
    {
        r.push(v[i]);
        proof {
            assert(r@ =~= v@.take(i + 1));
        }
        i = i + 1;
    }
    proof {
        assert(v@.take(v@.len() as int) =~= v@);
    }
    r
}

/// The owned bytes of the reserved start name.
fn start_name_vec() -> (r: Vec<u8>)
    ensures
        r@ == start_name(),
{
    let mut r: Vec<u8> = Vec::new();
    r.push(115);
    r.push(116);
    r.push(97);
    r.push(114);
    r.push(116);
    proof {
        assert(r@ =~= start_name());
    }
    r
}

/// The owned bytes of the reserved end name.
fn end_name_vec() -> (r: Vec<u8>)
    ensures
        r@ == end_name(),
{
    let mut r: Vec<u8> = Vec::new();
    r.push(101);
    r.push(110);
    r.push(100);
    proof {
        assert(r@ =~= end_name());
    }
    r
}

/// Finds the cave named `name`, appending a fresh one when absent.
fn get_or_insert(nodes: &mut Vec<Node>, name: &[u8]) -> (id: usize)
    ensures
        id < final(nodes)@.len(),
        final(nodes)@[id as int].name@ == name@,
        final(nodes)@.len() >= old(nodes)@.len(),
        forall|t: int| 0 <= t < old(nodes)@.len() ==> final(nodes)@[t] == old(nodes)@[t],
        final(nodes)@.len() <= old(nodes)@.len() + 1,
        final(nodes)@.len() == old(nodes)@.len() + 1 ==> {
            &&& id == old(nodes)@.len()
            &&& final(nodes)@[id as int].connections@.len() == 0
            &&& final(nodes)@[id as int].ntype == node_type_of(name@)
            &&& forall|i: int| 0 <= i < old(nodes)@.len() ==> old(nodes)@[i].name@ != name@
        },
{
    match find_node(nodes, name) {
        Some(i) => i,
        None => {
            let id = nodes.len();
            nodes.push(Node::from_str(name));
            id
        },
    }
}

/// Records the one-way connection `from -> to`, once.
fn add_connection(nodes: &mut Vec<Node>, from: usize, to: usize)
    requires
        from < old(nodes)@.len(),
    ensures
        final(nodes)@.len() == old(nodes)@.len(),
        forall|t: int|
            0 <= t < old(nodes)@.len() && t != from ==> final(nodes)@[t] == old(nodes)@[t],
        final(nodes)@[from as int].name@ == old(nodes)@[from as int].name@,
        final(nodes)@[from as int].ntype == old(nodes)@[from as int].ntype,
        forall|x: usize|
            final(nodes)@[from as int].connections@.contains(x) <==> (old(nodes)@[from as int].connections@.contains(x) || x == to),
        final(nodes)@[from as int].connections@ == old(nodes)@[from as int].connections@
            || final(nodes)@[from as int].connections@ == old(nodes)@[from as int].connections@.push(to),

        old(nodes)@[from as int].connections@.no_duplicates() ==> final(nodes)@[from as int].connections@.no_duplicates(),
{
    let has = contains_id(&nodes[from].connections, to);
    if has {
        return ;
    }
    {
        let mut conns = copy_ids(&nodes[from].connections);
        conns.push(to);
        let name2 = bytes::copy_bytes(&nodes[from].name);
        let nt = nodes[from].ntype;
        let ghost old_conns = nodes@[from as int].connections@;
        nodes.set(from, Node { name: name2, connections: conns, ntype: nt });
        proof {
            assert forall|x: usize|
                final(nodes)@[from as int].connections@.contains(x) <==> (old_conns.contains(x) || x
                    == to) by {
                let c = nodes@[from as int].connections@;
                if c.contains(x) {
                    let k = choose|k: int| 0 <= k < c.len() && c[k] == x;
                    if k < c.len() - 1 {
                        assert(old_conns[k] == x);
                    }
                } else {
                    if old_conns.contains(x) {
                        let k = choose|k: int| 0 <= k < old_conns.len() && old_conns[k] == x;
                        assert(c[k] == x);
                    }
                    assert(c[c.len() - 1] == to);
                }
            }
            if old_conns.no_duplicates() {
                assert(nodes@[from as int].connections@.no_duplicates());
            }
        }
    }
}

/// The node sequence holds a cave with this name.
pub open spec fn node_named(nodes: Seq<Node>, name: Seq<u8>) -> bool {
    exists|i: int| 0 <= i < nodes.len() && (#[trigger] nodes[i]).name@ == name
}

/// A cave named `a` lists a cave named `b` among its connections.
pub open spec fn conn_by_names(nodes: Seq<Node>, a: Seq<u8>, b: Seq<u8>) -> bool {
    exists|i: int, j: int|
        0 <= i < nodes.len() && 0 <= j < nodes.len() && (#[trigger] nodes[i]).name@ == a && (
        #[trigger] nodes[j]).name@ == b && nodes[i].connections@.contains(j as usize)
}

/// Both directed connections an edge line asks for are present (each
/// direction only unless it would lead back into `start`).
pub open spec fn edges_recorded(nodes: Seq<Node>, parts: Seq<Seq<u8>>) -> bool {
    &&& (parts[1] != start_name() ==> conn_by_names(nodes, parts[0], parts[1]))
    &&& (parts[0] != start_name() ==> conn_by_names(nodes, parts[1], parts[0]))
}

/// Builds the cave graph from `A-B` edge lines: every named cave becomes a
/// node and each edge is recorded in both directions, except that nothing
/// ever leads back into `start`. Fails exactly when some line is not a
/// single `A-B` token or the reserved `start`/`end` caves never appear.
#[verifier::rlimit(100)]
pub fn parse(input: &[u8]) -> (r: Option<Graph>)
    ensures
        match r {
            Some(g) => {
                &&& g.wf()
                &&& forall|i: int|
                    0 <= i < g.nodes@.len() ==> input_has_name(
                        bytes::lines_spec(input@),
                        (#[trigger] g.nodes@[i]).name@,
                    )
                &&& forall|i: usize, j: usize|
                    i < g.nodes@.len() && j < g.nodes@.len() ==> (#[trigger] edge(g, i, j) <==> (
                    input_edge(
                        bytes::lines_spec(input@),
                        g.nodes@[i as int].name@,
                        g.nodes@[j as int].name@,
                    ) && g.nodes@[j as int].name@ != start_name()))
                &&& forall|l: int|
                    0 <= l < bytes::lines_spec(input@).len() ==> node_named(
                        g.nodes@,
                        (#[trigger] line_parts(bytes::lines_spec(input@)[l]))[0],
                    ) && node_named(g.nodes@, line_parts(bytes::lines_spec(input@)[l])[1])
            },
            None => !(good_edge_lines(bytes::lines_spec(input@)) && input_has_name(
                bytes::lines_spec(input@),
                start_name(),
            ) && input_has_name(bytes::lines_spec(input@), end_name())),
        },
{
    let mut lines = bytes::split_bytes(input, 10);
    proof {
        assert(lines.deep_view().last() == lines@[lines@.len() - 1]@);
    }
    if lines[lines.len() - 1].len() == 0 {
        lines.pop();
        proof {
            assert(lines.deep_view() =~~= bytes::lines_spec(input@));
        }
    } else {
        proof {
            assert(lines.deep_view() =~~= bytes::lines_spec(input@));
        }
    }
    let ghost ls = bytes::lines_spec(input@);
    let nlines = lines.len();
    let sname = start_name_vec();
    let ename = end_name_vec();
    let mut nodes: Vec<Node> = Vec::new();
    let mut l: usize = 0;
    while l < nlines
        invariant
            ls == bytes::lines_spec(input@),
            lines.deep_view() == ls,
            lines@.len() == nlines,
            sname@ == start_name(),
            l <= nlines,
            forall|t: int| 0 <= t < l ==> (#[trigger] line_parts(ls[t])).len() == 2,
            forall|i: int|
                0 <= i < nodes@.len() ==> (#[trigger] nodes@[i]).ntype == node_type_of(
                    nodes@[i].name@,
                ),
            forall|i: int, j: int| 0 <= i < j < nodes@.len() ==> nodes@[i].name@ != nodes@[j].name@,
            forall|i: int, x: usize|
                0 <= i < nodes@.len() && (#[trigger] nodes@[i].connections@.contains(x)) ==> x
                    < nodes@.len() && nodes@[x as int].name@ != start_name() && input_edge(
                    ls,
                    nodes@[i].name@,
                    nodes@[x as int].name@,
                ),
            forall|i: int|
                0 <= i < nodes@.len() ==> (#[trigger] nodes@[i]).connections@.no_duplicates(),
            forall|i: int|
                0 <= i < nodes@.len() ==> input_has_name(ls, (#[trigger] nodes@[i]).name@),
            forall|t: int|
                0 <= t < l ==> node_named(nodes@, (#[trigger] line_parts(ls[t]))[0]) && node_named(
                    nodes@,
                    line_parts(ls[t])[1],
                ),
            forall|t: int| 0 <= t < l ==> edges_recorded(nodes@, #[trigger] line_parts(ls[t])),
        decreases nlines - l,
    {
        proof {
            assert(lines.deep_view()[l as int] == lines@[l as int]@);
        }
        let line = &lines[l];
        let parts = bytes::split_bytes(line.as_slice(), 45);
        proof {
            assert(parts.deep_view() == line_parts(ls[l as int]));
        }
        if parts.len() != 2 {
            proof {
                if good_edge_lines(ls) {
                    assert(line_parts(ls[l as int]).len() == 2);
                    assert(false);
                }
            }
            return None;
        }
        proof {
            assert(parts.deep_view()[0] == parts@[0]@);
            assert(parts.deep_view()[1] == parts@[1]@);
        }
        let ghost name_a = parts@[0]@;
        let ghost name_b = parts@[1]@;
        let ghost pre = nodes@;
        let ida = get_or_insert(&mut nodes, parts[0].as_slice());
        let idb = get_or_insert(&mut nodes, parts[1].as_slice());
        proof {
            assert(nodes@[ida as int].name@ == name_a);
            assert(nodes@[idb as int].name@ == name_b);
            assert forall|i: int| 0 <= i < nodes@.len() implies input_has_name(
                ls,
                (#[trigger] nodes@[i]).name@,
            ) by {
                if nodes@[i].name@ == name_a || nodes@[i].name@ == name_b {
                    assert((line_parts(ls[l as int]))[0] == name_a);
                }
            }
            assert forall|t: int| 0 <= t < l implies node_named(
                nodes@,
                (#[trigger] line_parts(ls[t]))[0],
            ) && node_named(nodes@, line_parts(ls[t])[1]) by {
                let n0 = line_parts(ls[t])[0];
                let n1 = line_parts(ls[t])[1];
                let i0 = choose|i: int| 0 <= i < pre.len() && (#[trigger] pre[i]).name@ == n0;
                assert(nodes@[i0].name@ == n0);
                let i1 = choose|i: int| 0 <= i < pre.len() && (#[trigger] pre[i]).name@ == n1;
                assert(nodes@[i1].name@ == n1);
            }
            assert forall|t: int| 0 <= t < l implies edges_recorded(
                nodes@,
                #[trigger] line_parts(ls[t]),
            ) by {
                lemma_edges_recorded_monotone(pre, nodes@, line_parts(ls[t]));
            }
        }
        let b_is_start = eq_bytes(parts[1].as_slice(), sname.as_slice());
        if b_is_start {
        } else {
            let ghost pre2 = nodes@;
            proof {
                assert(input_edge(ls, pre2[ida as int].name@, pre2[idb as int].name@)) by {
                    assert((line_parts(ls[l as int]))[0] == name_a);
                }
            }
            add_connection(&mut nodes, ida, idb);
            proof {
                lemma_after_connection(pre2, nodes@, ida, idb, ls);
            }
        }
        let a_is_start = eq_bytes(parts[0].as_slice(), sname.as_slice());
        if a_is_start {
        } else {
            let ghost pre3 = nodes@;
            proof {
                assert(input_edge(ls, pre3[idb as int].name@, pre3[ida as int].name@)) by {
                    assert((line_parts(ls[l as int]))[0] == name_a);
                }
            }
            add_connection(&mut nodes, idb, ida);
            proof {
                lemma_after_connection(pre3, nodes@, idb, ida, ls);
            }
        }
        proof {
            assert(edges_recorded(nodes@, line_parts(ls[l as int]))) by {
                if name_b != start_name() {
                    assert(edge_present(nodes@, ida, idb));
                    assert(conn_by_names(nodes@, name_a, name_b));
                }
                if name_a != start_name() {
                    assert(edge_present(nodes@, idb, ida));
                    assert(conn_by_names(nodes@, name_b, name_a));
                }
            }
        }
        l = l + 1;
    }
    let start = match find_node(&nodes, sname.as_slice()) {
        Some(i) => i,
        None => {
            proof {
                if input_has_name(ls, start_name()) {
                    let t = choose|t: int|
                        0 <= t < ls.len() && ((#[trigger] line_parts(ls[t]))[0] == start_name()
                            || line_parts(ls[t])[1] == start_name());
                    assert(node_named(nodes@, start_name()));
                    let i = choose|i: int|
                        0 <= i < nodes@.len() && (#[trigger] nodes@[i]).name@ == start_name();
                    assert(false);
                }
            }
            return None;
        },
    };
    let end = match find_node(&nodes, ename.as_slice()) {
        Some(i) => i,
        None => {
            proof {
                if input_has_name(ls, end_name()) {
                    let t = choose|t: int|
                        0 <= t < ls.len() && ((#[trigger] line_parts(ls[t]))[0] == end_name()
                            || line_parts(ls[t])[1] == end_name());
                    assert(node_named(nodes@, end_name()));
                    let i = choose|i: int|
                        0 <= i < nodes@.len() && (#[trigger] nodes@[i]).name@ == end_name();
                    assert(false);
                }
            }
            return None;
        },
    };
    let g = Graph { nodes, start, end };
    proof {
        lemma_assemble(g, ls);
    }
    Some(g)
}


/// A graph built by the parse loop is well formed, and its connections are
/// exactly the input's edges minus those into `start`.
proof fn lemma_assemble(g: Graph, ls: Seq<Seq<u8>>)
    requires
        g.start < g.nodes@.len(),
        g.end < g.nodes@.len(),
        g.nodes@[g.start as int].name@ == start_name(),
        g.nodes@[g.end as int].name@ == end_name(),
        forall|i: int|
            0 <= i < g.nodes@.len() ==> (#[trigger] g.nodes@[i]).ntype == node_type_of(
                g.nodes@[i].name@,
            ),
        forall|i: int, j: int|
            0 <= i < j < g.nodes@.len() ==> g.nodes@[i].name@ != g.nodes@[j].name@,
        forall|i: int, x: usize|
            0 <= i < g.nodes@.len() && (#[trigger] g.nodes@[i].connections@.contains(x)) ==> x
                < g.nodes@.len() && g.nodes@[x as int].name@ != start_name() && input_edge(
                ls,
                g.nodes@[i].name@,
                g.nodes@[x as int].name@,
            ),
        forall|i: int|
            0 <= i < g.nodes@.len() ==> (#[trigger] g.nodes@[i]).connections@.no_duplicates(),
        forall|t: int| 0 <= t < ls.len() ==> edges_recorded(g.nodes@, #[trigger] line_parts(ls[t])),
    ensures
        g.wf(),
        forall|i: usize, j: usize|
            i < g.nodes@.len() && j < g.nodes@.len() ==> (#[trigger] edge(g, i, j) <==> (input_edge(
                ls,
                g.nodes@[i as int].name@,
                g.nodes@[j as int].name@,
            ) && g.nodes@[j as int].name@ != start_name())),
{
    assert forall|i: int, k: int|
        0 <= i < g.nodes@.len() && 0 <= k
            < g.nodes@[i].connections@.len() implies #[trigger] g.nodes@[i].connections@[k]
        != g.start && g.nodes@[i].connections@[k] < g.nodes@.len() by {
        let j = g.nodes@[i].connections@[k];
        assert(g.nodes@[i].connections@.contains(j));
        assert(g.nodes@[j as int].name@ != start_name());
    }
    assert(g.wf());
    assert forall|i: usize, j: usize|
        i < g.nodes@.len() && j < g.nodes@.len() implies (#[trigger] edge(g, i, j) <==> (input_edge(
        ls,
        g.nodes@[i as int].name@,
        g.nodes@[j as int].name@,
    ) && g.nodes@[j as int].name@ != start_name())) by {
        let na = g.nodes@[i as int].name@;
        let nb = g.nodes@[j as int].name@;
        if edge(g, i, j) {
            assert(g.nodes@[i as int].connections@.contains(j));
            assert(input_edge(ls, na, nb));
            assert(nb != start_name());
        }
        if input_edge(ls, na, nb) && nb != start_name() {
            let t = choose|t: int|
                0 <= t < ls.len() && ((#[trigger] line_parts(ls[t]))[0] == na && line_parts(
                    ls[t],
                )[1] == nb || line_parts(ls[t])[0] == nb && line_parts(ls[t])[1] == na);
            assert(edges_recorded(g.nodes@, line_parts(ls[t])));
            assert(conn_by_names(g.nodes@, na, nb));
            let (i2, j2) = choose|i2: int, j2: int|
                0 <= i2 < g.nodes@.len() && 0 <= j2 < g.nodes@.len() && (#[trigger] g.nodes@[
                    i2
                ]).name@ == na && (#[trigger] g.nodes@[j2]).name@ == nb && g.nodes@[
                    i2
                ].connections@.contains(j2 as usize);
            assert(i2 == i as int);
            assert(j2 == j as int);
        }
    }
}

/// How often `v` occurs in the walk `p`.
pub open spec fn count_in(p: Seq<usize>, v: usize) -> int
    decreases p.len(),
{
    if p.len() == 0 {
        0
    } else {
        count_in(p.drop_last(), v) + if p.last() == v {
            1int
        } else {
            0int
        }
    }
}

proof fn lemma_count_in_zero(p: Seq<usize>, v: usize)
    requires
        forall|i: int| 0 <= i < p.len() ==> p[i] != v,
    ensures
        count_in(p, v) == 0,
    decreases p.len(),
{
    if p.len() > 0 {
        lemma_count_in_zero(p.drop_last(), v);
    }
}

/// The cave `v` is small (visit-limited).
pub open spec fn is_small(g: Graph, v: usize) -> bool {
    g.nodes@[v as int].ntype == NodeType::Lower
}

/// The visit limits hold on `p`: no small cave more than once — or, in the
/// relaxed mode, at most one single small cave twice and none more often.
pub open spec fn visits_ok(g: Graph, p: Seq<usize>, allow_double: bool) -> bool {
    &&& forall|v: usize|
        is_small(g, v) ==> count_in(p, v) <= (if allow_double {
            2int
        } else {
            1int
        })
    &&& allow_double ==> (forall|v: usize, w: usize|
        is_small(g, v) && is_small(g, w) && v != w ==> count_in(p, v) <= 1 || count_in(p, w) <= 1)
}

/// A finished walk: it starts at `start`, ends at `end`, follows recorded
/// connections, never re-enters `start`, reaches `end` only at its final
/// step, and respects the small-cave visit limits.
pub open spec fn complete_path(g: Graph, p: Seq<usize>, allow_double: bool) -> bool {
    &&& p.len() >= 1
    &&& p[0] == g.start
    &&& p.last() == g.end
    &&& forall|i: int| 0 <= i < p.len() ==> (#[trigger] p[i]) < g.nodes@.len()
    &&& forall|i: int| 1 <= i < p.len() ==> edge(g, p[i - 1], #[trigger] p[i])
    &&& forall|i: int| 1 <= i < p.len() ==> (#[trigger] p[i]) != g.start
    &&& forall|i: int| 0 <= i < p.len() - 1 ==> (#[trigger] p[i]) != g.end
    &&& visits_ok(g, p, allow_double)
}

/// No two large caves are adjacent. Without this a walk could bounce
/// between two large caves forever; the puzzle domain guarantees it, and the
/// search requires it as its termination precondition.
pub open spec fn no_large_edge(g: Graph) -> bool {
    forall|a: usize, b: usize|
        a < g.nodes@.len() && #[trigger] edge(g, a, b) ==> is_small(g, a) || is_small(g, b)
}

/// Visits each small cave may still receive, summed over the first `n` ids.
pub open spec fn remaining(g: Graph, p: Seq<usize>, allow: bool, n: int) -> int
    decreases n,
{
    if n <= 0 {
        0
    } else {
        remaining(g, p, allow, n - 1) + if is_small(g, (n - 1) as usize) {
            (if allow {
                2int
            } else {
                1int
            }) - count_in(p, (n - 1) as usize)
        } else {
            0int
        }
    }
}

proof fn lemma_remaining_nonneg(g: Graph, p: Seq<usize>, allow: bool, n: int)
    requires
        visits_ok(g, p, allow),
    ensures
        remaining(g, p, allow, n) >= 0,
    decreases n,
{
    if n > 0 {
        lemma_remaining_nonneg(g, p, allow, n - 1);
    }
}

proof fn lemma_count_in_nonneg(p: Seq<usize>, v: usize)
    ensures
        0 <= count_in(p, v) <= p.len(),
    decreases p.len(),
{
    if p.len() > 0 {
        lemma_count_in_nonneg(p.drop_last(), v);
    }
}

proof fn lemma_count_in_push(p: Seq<usize>, x: usize, v: usize)
    ensures
        count_in(p.push(x), v) == count_in(p, v) + if x == v {
            1int
        } else {
            0int
        },
{
    assert(p.push(x).drop_last() =~= p);
}

proof fn lemma_remaining_push(g: Graph, p: Seq<usize>, x: usize, allow: bool, n: int)
    requires
        n <= usize::MAX,
    ensures
        remaining(g, p.push(x), allow, n) == remaining(g, p, allow, n) - if x < n && is_small(
            g,
            x,
        ) {
            1int
        } else {
            0int
        },
    decreases n,
{
    if n > 0 {
        lemma_remaining_push(g, p, x, allow, n - 1);
        lemma_count_in_push(p, x, (n - 1) as usize);
    }
}

/// What holds of every walk handed to the search: a genuine walk from
/// `start` that respects the visit limits, with `end` at most at its head,
/// and a `doubled` flag that is set exactly when some small cave has been
/// visited twice.
pub open spec fn route_ok(g: Graph, p: Seq<usize>, doubled: bool, allow_double: bool) -> bool {
    &&& p.len() >= 1
    &&& p[0] == g.start
    &&& forall|i: int| 0 <= i < p.len() ==> (#[trigger] p[i]) < g.nodes@.len()
    &&& forall|i: int| 1 <= i < p.len() ==> edge(g, p[i - 1], #[trigger] p[i])
    &&& forall|i: int| 1 <= i < p.len() ==> (#[trigger] p[i]) != g.start
    &&& forall|i: int| 0 <= i < p.len() - 1 ==> (#[trigger] p[i]) != g.end
    &&& visits_ok(g, p, allow_double)
    &&& (allow_double ==> (doubled <==> exists|v: usize|
        is_small(g, v) && #[trigger] count_in(p, v) >= 2))
    &&& (!allow_double ==> doubled == false)
}

/// Occurrences of `v` in the walk so far.
pub fn count_occurrences(p: &Vec<usize>, v: usize) -> (n: usize)
    ensures
        n == count_in(p@, v),
{
    let mut n: usize = 0;
    let mut i: usize = 0;
    while i < p.len()
        invariant
            i <= p@.len(),
            n <= i,
            n == count_in(p@.take(i as int), v),
        decreases p@.len() - i,
    {
        proof {
            assert(p@.take(i + 1).drop_last() =~= p@.take(i as int));
            assert(p@.take(i + 1).last() == p@[i as int]);
        }
        if p[i] == v {
            n = n + 1;
        }
        i = i + 1;
    }
    proof {
        assert(p@.take(p@.len() as int) =~= p@);
    }
    n
}

/// A one-step extension of a valid walk is again a valid walk, with the
/// visit bookkeeping the caller computed.
proof fn lemma_route_extended(
    g: Graph,
    p: Seq<usize>,
    next: usize,
    doubled: bool,
    doubled2: bool,
    allow: bool,
)
    requires
        g.wf(),
        route_ok(g, p, doubled, allow),
        p.last() != g.end,
        g.nodes@[p.last() as int].connections@.contains(next),
        is_small(g, next) ==> count_in(p, next) + 1 <= (if allow {
            2int
        } else {
            1int
        }),
        is_small(g, next) && count_in(p, next) == 1 ==> allow && !doubled,
        doubled2 == (doubled || (is_small(g, next) && count_in(p, next) == 1)),
        !allow ==> doubled2 == false,
    ensures
        route_ok(g, p.push(next), doubled2, allow),
{
    let p2 = p.push(next);
    assert(p2.drop_last() =~= p);
    assert(next < g.nodes@.len() && next != g.start) by {
        let k = choose|k: int|
            0 <= k < g.nodes@[p.last() as int].connections@.len() && g.nodes@[
                p.last() as int
            ].connections@[k] == next;
    }
    assert(p2[p.len() as int] == next);
    assert forall|i: int| 1 <= i < p2.len() implies edge(g, p2[i - 1], #[trigger] p2[i]) by {
        if i < p.len() {
            assert(edge(g, p[i - 1], p[i]));
        } else {
            assert(p2[i - 1] == p.last());
            assert(p2[i] == next);
        }
    }
    assert forall|v: usize| true implies count_in(p2, v) == count_in(p, v) + (if v == next {
        1int
    } else {
        0int
    }) by {
        lemma_count_in_push(p, next, v);
    }
    assert forall|v: usize|
        is_small(g, v) implies count_in(p2, v) <= (if allow {
        2int
    } else {
        1int
    }) by {}
    if allow {
        assert forall|v: usize, w: usize|
            is_small(g, v) && is_small(g, w) && v != w implies count_in(p2, v) <= 1 || count_in(
            p2,
            w,
        ) <= 1 by {
            if v != next && w != next {
                assert(count_in(p2, v) == count_in(p, v));
                assert(count_in(p2, w) == count_in(p, w));
            } else if v == next {
                if count_in(p2, v) >= 2 {
                    assert(count_in(p, v) >= 1);
                    assert(!doubled);
                    assert(count_in(p, w) <= 1);
                    assert(count_in(p2, w) == count_in(p, w));
                }
            } else {
                if count_in(p2, w) >= 2 {
                    assert(count_in(p, w) >= 1);
                    assert(!doubled);
                    assert(count_in(p, v) <= 1);
                    assert(count_in(p2, v) == count_in(p, v));
                }
            }
        }
        if doubled2 {
            if doubled {
                let v = choose|v: usize| is_small(g, v) && #[trigger] count_in(p, v) >= 2;
                assert(count_in(p2, v) >= 2);
            } else {
                assert(count_in(p2, next) >= 2);
            }
        } else {
            assert forall|v: usize| is_small(g, v) implies #[trigger] count_in(p2, v) < 2 by {
                if v == next {
                    lemma_count_in_nonneg(p, next);
                    if count_in(p, next) >= 2 {
                        assert(is_small(g, next) && count_in(p, next) >= 2);
                        assert(false);
                    }
                    assert(count_in(p, next) == 0);
                } else {
                    assert(count_in(p2, v) == count_in(p, v));
                }
            }
        }
    }
}

/// `v` occurs among the first `n` connections.
pub open spec fn among_first(conns: Seq<usize>, n: int, v: usize) -> bool
    decreases n,
{
    if n <= 0 {
        false
    } else {
        among_first(conns, n - 1, v) || conns[n - 1] == v
    }
}

/// In a duplicate-free list, a value among the first `n` entries cannot
/// recur at any later position.
proof fn lemma_among_first_not_next(conns: Seq<usize>, n: int, m: int, v: usize)
    requires
        among_first(conns, n, v),
        0 <= n <= m < conns.len(),
        forall|k1: int, k2: int|
            0 <= k1 < k2 < conns.len() ==> #[trigger] conns[k1] != #[trigger] conns[k2],
    ensures
        v != conns[m],
    decreases n,
{
    if n > 0 {
        if conns[n - 1] == v {
            assert(conns[n - 1] != conns[m]);
        } else {
            lemma_among_first_not_next(conns, n - 1, m, v);
        }
    }
}

/// Number of finished walks the search finds from the walk `p`: one when
/// `p` has reached `end`, else the counts through each onward connection in
/// turn. Well defined on valid walks of a well-formed graph without
/// adjacent large caves, where the search terminates.
pub open spec fn count_from(g: Graph, p: Seq<usize>, doubled: bool, allow: bool) -> int
    decreases
            remaining(g, p, allow, g.nodes@.len() as int),
            (if is_small(g, p.last()) {
                1int
            } else {
                0int
            }),
            g.nodes@[p.last() as int].connections@.len() + 2,
    when g.wf() && no_large_edge(g) && route_ok(g, p, doubled, allow) && g.nodes@.len()
        <= usize::MAX
    via count_from_dec
{
    if p.last() == g.end {
        1
    } else {
        count_children(g, p, doubled, allow, 0)
    }
}

/// Finished walks found through the connections of `p`'s head from
/// position `ci` on.
pub open spec fn count_children(g: Graph, p: Seq<usize>, doubled: bool, allow: bool, ci: int) -> int
    decreases
            remaining(g, p, allow, g.nodes@.len() as int),
            (if is_small(g, p.last()) {
                1int
            } else {
                0int
            }),
            g.nodes@[p.last() as int].connections@.len() - ci + 1,
    when g.wf() && no_large_edge(g) && route_ok(g, p, doubled, allow) && p.last() != g.end
        && 0 <= ci && g.nodes@.len() <= usize::MAX
    via count_children_dec
{
    if ci >= g.nodes@[p.last() as int].connections@.len() {
        0
    } else {
        let next = g.nodes@[p.last() as int].connections@[ci];
        let here = if is_small(g, next) {
            if count_in(p, next) == 0 {
                count_from(g, p.push(next), doubled, allow)
            } else if count_in(p, next) == 1 && allow && !doubled {
                count_from(g, p.push(next), true, allow)
            } else {
                0
            }
        } else {
            count_from(g, p.push(next), doubled, allow)
        };
        here + count_children(g, p, doubled, allow, ci + 1)
    }
}

#[via_fn]
proof fn count_from_dec(g: Graph, p: Seq<usize>, doubled: bool, allow: bool) {
}

#[via_fn]
proof fn count_children_dec(g: Graph, p: Seq<usize>, doubled: bool, allow: bool, ci: int) {
    if ci < g.nodes@[p.last() as int].connections@.len() {
        let last = p.last();
        let next = g.nodes@[last as int].connections@[ci];
        assert(g.nodes@[last as int].connections@.contains(next));
        lemma_remaining_push(g, p, next, allow, g.nodes@.len() as int);
        lemma_count_in_nonneg(p, next);
        if is_small(g, next) {
            if count_in(p, next) == 0 {
                lemma_route_extended(g, p, next, doubled, doubled, allow);
                lemma_remaining_nonneg(g, p.push(next), allow, g.nodes@.len() as int);
            } else if count_in(p, next) == 1 && allow && !doubled {
                lemma_route_extended(g, p, next, doubled, true, allow);
                lemma_remaining_nonneg(g, p.push(next), allow, g.nodes@.len() as int);
            }
        } else {
            lemma_route_extended(g, p, next, doubled, doubled, allow);
            lemma_remaining_nonneg(g, p.push(next), allow, g.nodes@.len() as int);
            assert(is_small(g, last));
        }
    }
}

/// The number of finished walks of the whole search: the count from the
/// one-cave walk at `start`.
pub open spec fn path_count(g: Graph, allow: bool) -> int {
    count_from(g, seq![g.start], false, allow)
}

/// `p` is an initial stretch of `q`.
pub open spec fn leads_with(p: Seq<usize>, q: Seq<usize>) -> bool {
    p.len() <= q.len() && forall|i: int| 0 <= i < p.len() ==> p[i] == q[i]
}

/// Depth-first exploration from the walk `path`: appends every finished
/// extension of it to `finished`. Terminates because every step either
/// spends one of the finitely many remaining small-cave visits or moves from
/// a small cave to a large one, which (no two large caves being adjacent)
/// cannot happen twice in a row.
#[verifier::rlimit(100)]
fn explore(g: &Graph, path: Vec<usize>, doubled: bool, allow: bool, finished: &mut Vec<Vec<usize>>)
    requires
        g.wf(),
        no_large_edge(*g),
        route_ok(*g, path@, doubled, allow),
        forall|t: int|
            0 <= t < old(finished)@.len() ==> complete_path(*g, (#[trigger] old(
                finished,
            )@[t])@, allow),
    ensures
        forall|t: int|
            0 <= t < final(finished)@.len() ==> complete_path(
                *g,
                (#[trigger] final(finished)@[t])@,
                allow,
            ),
        final(finished)@.len() >= old(finished)@.len(),
        forall|t: int|
            0 <= t < old(finished)@.len() ==> final(finished)@[t] == #[trigger] old(finished)@[t],
        forall|t: int|
            old(finished)@.len() <= t < final(finished)@.len() ==> leads_with(
                path@,
                (#[trigger] final(finished)@[t])@,
            ),
        forall|t1: int, t2: int|
            old(finished)@.len() <= t1 < t2 < final(finished)@.len() ==> (#[trigger] final(finished)@[t1])@
                != (#[trigger] final(finished)@[t2])@,
        final(finished)@.len() == old(finished)@.len() + count_from(*g, path@, doubled, allow),
    decreases
            remaining(*g, path@, allow, g.nodes@.len() as int),
            (if is_small(*g, path@.last()) {
                1int
            } else {
                0int
            }),
{
    proof {
        lemma_remaining_nonneg(*g, path@, allow, g.nodes@.len() as int);
    }
    let n_nodes = g.nodes.len();
    let last = path[path.len() - 1];
    if last == g.end {
        let ghost p = path@;
        finished.push(path);
        proof {
            assert(leads_with(p, p));
            assert(count_from(*g, p, doubled, allow) == 1);
        }
        return ;
    }
    let conns_len = g.nodes[last].connections.len();
    let ghost orig = finished@;
    let mut ci: usize = 0;
    while ci < conns_len
        invariant
            g.wf(),
            no_large_edge(*g),
            n_nodes == g.nodes@.len(),
            route_ok(*g, path@, doubled, allow),
            path@.last() == last,
            last < g.nodes@.len(),
            last != g.end,
            conns_len == g.nodes@[last as int].connections@.len(),
            ci <= conns_len,
            forall|t: int|
                0 <= t < finished@.len() ==> complete_path(*g, (#[trigger] finished@[t])@, allow),
            finished@.len() >= orig.len(),
            forall|t: int| 0 <= t < orig.len() ==> finished@[t] == #[trigger] orig[t],
            forall|t: int|
                orig.len() <= t < finished@.len() ==> leads_with(
                    path@,
                    (#[trigger] finished@[t])@,
                ) && finished@[t]@.len() > path@.len(),
            forall|t: int|
                orig.len() <= t < finished@.len() ==> among_first(
                    g.nodes@[last as int].connections@,
                    ci as int,
                    (#[trigger] finished@[t])@[path@.len() as int],
                ),
            forall|t1: int, t2: int|
                orig.len() <= t1 < t2 < finished@.len() ==> (#[trigger] finished@[t1])@ != (
                #[trigger] finished@[t2])@,
            finished@.len() + count_children(*g, path@, doubled, allow, ci as int) == orig.len()
                + count_children(*g, path@, doubled, allow, 0),
        decreases conns_len - ci,
    {
        let next = g.nodes[last].connections[ci];
        proof {
            assert(g.nodes@[last as int].connections@.contains(next));
        }
        let next_small = match g.nodes[next].ntype {
            NodeType::Lower => true,
            NodeType::Upper => false,
        };
        proof {
            assert(next_small == is_small(*g, next));
        }
        if next_small {
            let occurrences = count_occurrences(&path, next);
            if occurrences == 0 {
                let mut new_path = copy_ids(&path);
                new_path.push(next);
                proof {
                    lemma_route_extended(*g, path@, next, doubled, doubled, allow);
                    lemma_remaining_push(*g, path@, next, allow, g.nodes@.len() as int);
                    lemma_remaining_nonneg(*g, path@.push(next), allow, g.nodes@.len() as int);
                }
                let ghost pre = finished@;
                explore(g, new_path, doubled, allow, finished);
                proof {
                    lemma_explore_step(*g, path@, next, ci as int, last, orig, pre, finished@);
                    assert(count_children(*g, path@, doubled, allow, ci as int) == count_from(
                        *g,
                        path@.push(next),
                        doubled,
                        allow,
                    ) + count_children(*g, path@, doubled, allow, ci + 1));
                }
            } else if occurrences == 1 && allow && !doubled {
                let mut new_path = copy_ids(&path);
                new_path.push(next);
                proof {
                    lemma_route_extended(*g, path@, next, doubled, true, allow);
                    lemma_remaining_push(*g, path@, next, allow, g.nodes@.len() as int);
                    lemma_remaining_nonneg(*g, path@.push(next), allow, g.nodes@.len() as int);
                }
                let ghost pre = finished@;
                explore(g, new_path, true, allow, finished);
                proof {
                    lemma_explore_step(*g, path@, next, ci as int, last, orig, pre, finished@);
                    assert(count_children(*g, path@, doubled, allow, ci as int) == count_from(
                        *g,
                        path@.push(next),
                        true,
                        allow,
                    ) + count_children(*g, path@, doubled, allow, ci + 1));
                }
            } else {
                proof {
                    assert(count_children(*g, path@, doubled, allow, ci as int) == count_children(
                        *g,
                        path@,
                        doubled,
                        allow,
                        ci + 1,
                    ));
                }
            }
        } else {
            let mut new_path = copy_ids(&path);
            new_path.push(next);
            proof {
                lemma_route_extended(*g, path@, next, doubled, doubled, allow);
                lemma_remaining_push(*g, path@, next, allow, g.nodes@.len() as int);
                lemma_remaining_nonneg(*g, path@.push(next), allow, g.nodes@.len() as int);
                assert(is_small(*g, last));
            }
            let ghost pre = finished@;
            explore(g, new_path, doubled, allow, finished);
            proof {
                lemma_explore_step(*g, path@, next, ci as int, last, orig, pre, finished@);
                assert(count_children(*g, path@, doubled, allow, ci as int) == count_from(
                    *g,
                    path@.push(next),
                    doubled,
                    allow,
                ) + count_children(*g, path@, doubled, allow, ci + 1));
            }
        }
        ci = ci + 1;
    }
}


/// After one child of the search returns, the entries gathered so far are
/// still extensions of `path`, branded by the sibling that found them, and
/// pairwise distinct.
proof fn lemma_explore_step(
    g: Graph,
    path: Seq<usize>,
    next: usize,
    ci: int,
    last: usize,
    orig: Seq<Vec<usize>>,
    pre: Seq<Vec<usize>>,
    cur: Seq<Vec<usize>>,
)
    requires
        g.wf(),
        last < g.nodes@.len(),
        0 <= ci < g.nodes@[last as int].connections@.len(),
        g.nodes@[last as int].connections@[ci] == next,
        orig.len() <= pre.len() <= cur.len(),
        forall|t: int| 0 <= t < pre.len() ==> #[trigger] cur[t] == pre[t],
        forall|t: int|
            orig.len() <= t < pre.len() ==> leads_with(path, (#[trigger] pre[t])@)
                && pre[t]@.len() > path.len(),
        forall|t: int|
            orig.len() <= t < pre.len() ==> among_first(
                g.nodes@[last as int].connections@,
                ci,
                (#[trigger] pre[t])@[path.len() as int],
            ),
        forall|t1: int, t2: int|
            orig.len() <= t1 < t2 < pre.len() ==> (#[trigger] pre[t1])@ != (#[trigger] pre[t2])@,
        forall|t: int|
            pre.len() <= t < cur.len() ==> leads_with(path.push(next), (#[trigger] cur[t])@),
        forall|t1: int, t2: int|
            pre.len() <= t1 < t2 < cur.len() ==> (#[trigger] cur[t1])@ != (#[trigger] cur[t2])@,
    ensures
        forall|t: int|
            orig.len() <= t < cur.len() ==> leads_with(path, (#[trigger] cur[t])@) && cur[t]@.len()
                > path.len(),
        forall|t: int|
            orig.len() <= t < cur.len() ==> among_first(
                g.nodes@[last as int].connections@,
                ci + 1,
                (#[trigger] cur[t])@[path.len() as int],
            ),
        forall|t1: int, t2: int|
            orig.len() <= t1 < t2 < cur.len() ==> (#[trigger] cur[t1])@ != (#[trigger] cur[t2])@,
{
    let pl = path.len() as int;
    assert forall|t: int|
        orig.len() <= t < cur.len() implies leads_with(path, (#[trigger] cur[t])@) && cur[t]@.len()
        > pl by {
        if t >= pre.len() {
            assert(leads_with(path.push(next), cur[t]@));
            assert forall|i: int| 0 <= i < pl implies path[i] == cur[t]@[i] by {
                assert(path.push(next)[i] == path[i]);
            }
        } else {
            assert(cur[t] == pre[t]);
        }
    }
    assert forall|t: int|
        orig.len() <= t < cur.len() implies among_first(
        g.nodes@[last as int].connections@,
        ci + 1,
        (#[trigger] cur[t])@[pl],
    ) by {
        if t < pre.len() {
            assert(cur[t] == pre[t]);
            assert(among_first(g.nodes@[last as int].connections@, ci, pre[t]@[pl]));
        } else {
            assert(leads_with(path.push(next), cur[t]@));
            assert(cur[t]@[pl] == path.push(next)[pl]);
            assert(path.push(next)[pl] == next);
            assert(g.nodes@[last as int].connections@[ci] == next);
        }
    }
    assert forall|t1: int, t2: int|
        orig.len() <= t1 < t2 < cur.len() implies (#[trigger] cur[t1])@ != (#[trigger] cur[t2])@
        by {
        if t1 < pre.len() && t2 >= pre.len() {
            assert(cur[t1] == pre[t1]);
            assert(among_first(g.nodes@[last as int].connections@, ci, pre[t1]@[pl]));
            lemma_among_first_not_next(
                g.nodes@[last as int].connections@,
                ci,
                ci,
                pre[t1]@[pl],
            );
            assert(leads_with(path.push(next), cur[t2]@));
            assert(cur[t2]@[pl] == path.push(next)[pl]);
            assert(path.push(next)[pl] == next);
            assert(g.nodes@[last as int].connections@[ci] == next);
            assert(cur[t1]@[pl] != cur[t2]@[pl]);
        } else if t1 < pre.len() && t2 < pre.len() {
            assert(cur[t1] == pre[t1]);
            assert(cur[t2] == pre[t2]);
        }
    }
}

/// Exhaustively explores the cave graph and returns every finished walk.
/// Each result is a genuine `start`-to-`end` walk under the visit rules.
pub fn completed_paths(g: &Graph, allow_one_double_visit: bool) -> (finished: Vec<Vec<usize>>)
    requires
        g.wf(),
        no_large_edge(*g),
    ensures
        forall|t: int|
            0 <= t < finished@.len() ==> complete_path(
                *g,
                (#[trigger] finished@[t])@,
                allow_one_double_visit,
            ),
        forall|t1: int, t2: int|
            0 <= t1 < t2 < finished@.len() ==> (#[trigger] finished@[t1])@ != (
            #[trigger] finished@[t2])@,
        finished@.len() == path_count(*g, allow_one_double_visit),
{
    let mut first: Vec<usize> = Vec::new();
    first.push(g.start);
    let mut finished: Vec<Vec<usize>> = Vec::new();
    proof {
        let p = first@;
        assert(p.drop_last() =~= Seq::<usize>::empty());
        assert forall|v: usize| true implies count_in(p, v) == (if v == g.start {
            1int
        } else {
            0int
        }) by {
            lemma_count_in_push(p.drop_last(), g.start, v);
        }
    }
    proof {
        assert(first@ =~= seq![g.start]);
    }
    explore(g, first, false, allow_one_double_visit, &mut finished);
    finished
}

/// Counts the `start`-to-`end` walks under the visit rules: each small cave
/// at most once, and in the relaxed mode one single small cave twice. When
/// the count is positive a finished walk exists, so a graph with no
/// `start`-to-`end` walk yields zero.
pub fn count_paths(g: &Graph, allow_one_double_visit: bool) -> (r: usize)
    requires
        g.wf(),
        no_large_edge(*g),
    ensures
        r == path_count(*g, allow_one_double_visit),
        r > 0 ==> exists|p: Seq<usize>| complete_path(*g, p, allow_one_double_visit),
{
    let finished = completed_paths(g, allow_one_double_visit);
    proof {
        if finished@.len() > 0 {
            assert(complete_path(*g, finished@[0]@, allow_one_double_visit));
        }
    }
    finished.len()
}

/// Walk count with every small cave visitable at most once.
pub fn part_one(graph: &Graph) -> (r: usize)
    requires
        graph.wf(),
        no_large_edge(*graph),
    ensures
        r == path_count(*graph, false),
        r > 0 ==> exists|p: Seq<usize>| complete_path(*graph, p, false),
{
    count_paths(graph, false)
}

/// Walk count with one single small cave visitable twice.
pub fn part_two(graph: &Graph) -> (r: usize)
    requires
        graph.wf(),
        no_large_edge(*graph),
    ensures
        r == path_count(*graph, true),
        r > 0 ==> exists|p: Seq<usize>| complete_path(*graph, p, true),
{
    count_paths(graph, true)
}

/// The id `to` stands in `from`'s connection list.
pub open spec fn edge_present(nodes: Seq<Node>, from: usize, to: usize) -> bool {
    nodes[from as int].connections@.contains(to)
}

/// Growing one connection list preserves every recorded connection.
proof fn lemma_conn_monotone(pre: Seq<Node>, post: Seq<Node>, a: Seq<u8>, b: Seq<u8>)
    requires
        post.len() >= pre.len(),
        forall|t: int|
            0 <= t < pre.len() ==> (#[trigger] post[t]).name@ == pre[t].name@ && post[t].ntype
                == pre[t].ntype,
        forall|t: int, x: usize|
            0 <= t < pre.len() && (#[trigger] pre[t].connections@.contains(x)) ==> post[
                t
            ].connections@.contains(x),
        conn_by_names(pre, a, b),
    ensures
        conn_by_names(post, a, b),
{
    let (i, j) = choose|i: int, j: int|
        0 <= i < pre.len() && 0 <= j < pre.len() && (#[trigger] pre[i]).name@ == a && (
        #[trigger] pre[j]).name@ == b && pre[i].connections@.contains(j as usize);
    assert(post[i].name@ == a);
    assert(post[j].name@ == b);
    assert(post[i].connections@.contains(j as usize));
}

/// Appending nodes or connections keeps a line's recorded edges recorded.
proof fn lemma_edges_recorded_monotone(pre: Seq<Node>, post: Seq<Node>, parts: Seq<Seq<u8>>)
    requires
        post.len() >= pre.len(),
        forall|t: int|
            0 <= t < pre.len() ==> (#[trigger] post[t]).name@ == pre[t].name@ && post[t].ntype
                == pre[t].ntype,
        forall|t: int, x: usize|
            0 <= t < pre.len() && (#[trigger] pre[t].connections@.contains(x)) ==> post[
                t
            ].connections@.contains(x),
        edges_recorded(pre, parts),
    ensures
        edges_recorded(post, parts),
{
    if parts[1] != start_name() {
        lemma_conn_monotone(pre, post, parts[0], parts[1]);
    }
    if parts[0] != start_name() {
        lemma_conn_monotone(pre, post, parts[1], parts[0]);
    }
}

/// What one `add_connection` call preserves and adds, phrased for the parse
/// loop's invariants.
proof fn lemma_after_connection(pre: Seq<Node>, post: Seq<Node>, from: usize, to: usize, ls: Seq<
    Seq<u8>,
>)
    requires
        from < pre.len(),
        to < pre.len(),
        post.len() == pre.len(),
        forall|t: int| 0 <= t < pre.len() && t != from ==> post[t] == pre[t],
        post[from as int].name@ == pre[from as int].name@,
        post[from as int].ntype == pre[from as int].ntype,
        forall|x: usize|
            post[from as int].connections@.contains(x) <==> (pre[from as int].connections@.contains(
                x,
            ) || x == to),
        forall|i: int, x: usize|
            0 <= i < pre.len() && (#[trigger] pre[i].connections@.contains(x)) ==> x < pre.len()
                && pre[x as int].name@ != start_name() && input_edge(
                ls,
                pre[i].name@,
                pre[x as int].name@,
            ),
        pre[to as int].name@ != start_name(),
        input_edge(ls, pre[from as int].name@, pre[to as int].name@),
    ensures
        forall|t: int|
            0 <= t < pre.len() ==> (#[trigger] post[t]).name@ == pre[t].name@ && post[t].ntype
                == pre[t].ntype,
        forall|t: int, x: usize|
            0 <= t < pre.len() && (#[trigger] pre[t].connections@.contains(x)) ==> post[
                t
            ].connections@.contains(x),
        edge_present(post, from, to),
        forall|i: int, x: usize|
            0 <= i < post.len() && (#[trigger] post[i].connections@.contains(x)) ==> x < post.len()
                && post[x as int].name@ != start_name() && input_edge(
                ls,
                post[i].name@,
                post[x as int].name@,
            ),
{
    assert forall|i: int, x: usize|
        0 <= i < post.len() && (#[trigger] post[i].connections@.contains(x)) implies x < post.len()
        && post[x as int].name@ != start_name() && input_edge(
        ls,
        post[i].name@,
        post[x as int].name@,
    ) by {
        if i == from {
            if pre[from as int].connections@.contains(x) {
                assert(x < pre.len());
            } else {
                assert(x == to);
            }
        } else {
            assert(pre[i].connections@.contains(x));
        }
        assert(post[x as int].name@ == pre[x as int].name@);
    }
}

} // verus!
