use crate::graph::{pair_before, Graph};
use vstd::prelude::*;
use vstd::string::StringExecFns;

verus! {

/// The text of a decimal digit.
pub open spec fn digit_text(d: int) -> Seq<char> {
    if d == 0 {
        "0"@
    } else if d == 1 {
        "1"@
    } else if d == 2 {
        "2"@
    } else if d == 3 {
        "3"@
    } else if d == 4 {
        "4"@
    } else if d == 5 {
        "5"@
    } else if d == 6 {
        "6"@
    } else if d == 7 {
        "7"@
    } else if d == 8 {
        "8"@
    } else {
        "9"@
    }
}

/// The decimal text of `x`.
pub open spec fn decimal(x: nat) -> Seq<char>
    decreases x,
{
    if x < 10 {
        digit_text(x as int)
    } else {
        decimal(x / 10) + digit_text((x % 10) as int)
    }
}

/// No digit text holds an underscore, and each is one character.
proof fn lemma_digit_text(d: int)
    ensures
        digit_text(d).len() == 1,
        digit_text(d)[0] != '_',
{
    reveal_strlit("0");
    reveal_strlit("1");
    reveal_strlit("2");
    reveal_strlit("3");
    reveal_strlit("4");
    reveal_strlit("5");
    reveal_strlit("6");
    reveal_strlit("7");
    reveal_strlit("8");
    reveal_strlit("9");
}

/// Digits below ten have distinct texts.
proof fn lemma_digit_text_injective(d: int, e: int)
    requires
        0 <= d < 10,
        0 <= e < 10,
        digit_text(d) == digit_text(e),
    ensures
        d == e,
{
    reveal_strlit("0");
    reveal_strlit("1");
    reveal_strlit("2");
    reveal_strlit("3");
    reveal_strlit("4");
    reveal_strlit("5");
    reveal_strlit("6");
    reveal_strlit("7");
    reveal_strlit("8");
    reveal_strlit("9");
    assert(digit_text(0)[0] == '0');
    assert(digit_text(1)[0] == '1');
    assert(digit_text(2)[0] == '2');
    assert(digit_text(3)[0] == '3');
    assert(digit_text(4)[0] == '4');
    assert(digit_text(5)[0] == '5');
    assert(digit_text(6)[0] == '6');
    assert(digit_text(7)[0] == '7');
    assert(digit_text(8)[0] == '8');
    assert(digit_text(9)[0] == '9');
    assert(digit_text(d)[0] == digit_text(e)[0]);
}

/// A decimal text is not empty and holds no underscore.
proof fn lemma_decimal_chars(x: nat)
    ensures
        decimal(x).len() >= 1,
        forall|i: int| 0 <= i < decimal(x).len() ==> #[trigger] decimal(x)[i] != '_',
    decreases x,
{
    if x < 10 {
        lemma_digit_text(x as int);
    } else {
        lemma_decimal_chars(x / 10);
        lemma_digit_text((x % 10) as int);
        assert forall|i: int| 0 <= i < decimal(x).len() implies #[trigger] decimal(x)[i] != '_' by {
            if i < decimal(x / 10).len() {
                assert(decimal(x)[i] == decimal(x / 10)[i]);
            } else {
                assert(decimal(x)[i] == digit_text((x % 10) as int)[i - decimal(x / 10).len()]);
            }
        }
    }
}

/// Different numbers have different decimal texts.
proof fn lemma_decimal_injective(x: nat, y: nat)
    requires
        decimal(x) == decimal(y),
    ensures
        x == y,
    decreases x,
{
    lemma_decimal_chars(x);
    lemma_decimal_chars(y);
    if x < 10 && y < 10 {
        lemma_digit_text_injective(x as int, y as int);
    } else if x < 10 {
        lemma_digit_text(x as int);
        lemma_decimal_chars(y / 10);
        lemma_digit_text((y % 10) as int);
    } else if y < 10 {
        lemma_digit_text(y as int);
        lemma_decimal_chars(x / 10);
        lemma_digit_text((x % 10) as int);
    } else {
        let a = decimal(x / 10);
        let b = decimal(y / 10);
        lemma_digit_text((x % 10) as int);
        lemma_digit_text((y % 10) as int);
        assert(a.len() == b.len());
        assert(decimal(x).subrange(0, a.len() as int) =~= a);
        assert(decimal(y).subrange(0, b.len() as int) =~= b);
        assert(decimal(x).subrange(a.len() as int, decimal(x).len() as int) =~= digit_text((x % 10) as int));
        assert(decimal(y).subrange(b.len() as int, decimal(y).len() as int) =~= digit_text((y % 10) as int));
        lemma_decimal_injective(x / 10, y / 10);
        lemma_digit_text_injective((x % 10) as int, (y % 10) as int);
    }
}

/// The label of vertex `(b, p)`: `mg<b>_p<p>`.
pub open spec fn vertex_label(b: nat, p: nat) -> Seq<char> {
    "mg"@ + decimal(b) + "_p"@ + decimal(p)
}

/// Different vertices have different labels.
pub proof fn lemma_label_injective(b: nat, p: nat, c: nat, q: nat)
    requires
        vertex_label(b, p) == vertex_label(c, q),
    ensures
        b == c,
        p == q,
{
    reveal_strlit("mg");
    reveal_strlit("_p");
    let x = vertex_label(b, p);
    let db = decimal(b);
    let dc = decimal(c);
    let lb = db.len() as int;
    let lc = dc.len() as int;
    lemma_decimal_chars(b);
    lemma_decimal_chars(c);
    lemma_decimal_chars(p);
    lemma_decimal_chars(q);
    if lb < lc {
        assert(x[2 + lb] == '_');
        assert(vertex_label(c, q)[2 + lb] == dc[lb]);
    } else if lc < lb {
        assert(vertex_label(c, q)[2 + lc] == '_');
        assert(x[2 + lc] == db[lc]);
    } else {
        assert(x.subrange(2, 2 + lb) =~= db);
        assert(vertex_label(c, q).subrange(2, 2 + lc) =~= dc);
        lemma_decimal_injective(b, c);
        assert(x.subrange(4 + lb, x.len() as int) =~= decimal(p));
        assert(vertex_label(c, q).subrange(4 + lc, x.len() as int) =~= decimal(q));
        lemma_decimal_injective(p, q);
    }
}

/// The word for block-row `r`.
pub open spec fn row_word(k: int, r: int) -> Seq<char> {
    if r == 0 {
        "top"@
    } else if r == k - 1 {
        "bottom"@
    } else {
        "middle"@
    }
}

/// The word for block-column `c`.
pub open spec fn col_word(k: int, c: int) -> Seq<char> {
    if c == 0 {
        "left"@
    } else if c == k - 1 {
        "right"@
    } else {
        "center"@
    }
}

/// Where block `b` lies, such as `top-left` or `middle-center`.
pub open spec fn position_label(k: int, b: int) -> Seq<char> {
    row_word(k, b / k) + "-"@ + col_word(k, b % k)
}

/// One vertex of the exported graph.
#[derive(Clone, Debug)]
pub struct NodeData {
    pub id: String,
    pub minigrid: usize,
    pub perm_id: usize,
    pub cells: Vec<u8>,
    pub board_position: String,
}

/// One edge of the exported graph, from the vertex of the lower block.
#[derive(Clone, Debug)]
pub struct EdgeData {
    pub source: String,
    pub target: String,
}

/// A snapshot of a graph's vertices and edges, for drawing it.
#[derive(Clone, Debug)]
pub struct GraphData {
    pub nodes: Vec<NodeData>,
    pub edges: Vec<EdgeData>,
}

fn digit_str(d: usize) -> (r: &'static str)
    requires
        d < 10,
    ensures
        r@ == digit_text(d as int),
{
    match d {
        0 => "0",
        1 => "1",
        2 => "2",
        3 => "3",
        4 => "4",
        5 => "5",
        6 => "6",
        7 => "7",
        8 => "8",
        _ => "9",
    }
}

/// The decimal text of `x`.
pub fn decimal_string(x: usize) -> (r: String)
    ensures
        r@ == decimal(x as nat),
    decreases x,
{
    if x < 10 {
        String::from_str(digit_str(x))
    } else {
        decimal_string(x / 10).concat(digit_str(x % 10))
    }
}

/// The label of vertex `(b, p)`.
pub fn label(b: usize, p: usize) -> (r: String)
    ensures
        r@ == vertex_label(b as nat, p as nat),
{
    let s = String::from_str("mg").concat(decimal_string(b).as_str()).concat("_p").concat(decimal_string(p).as_str());
    s
}

/// No two entries of `edges` have the same source and target.
pub open spec fn distinct_edges(edges: Seq<EdgeData>) -> bool {
    forall|i1: int, i2: int|
        0 <= i1 < edges.len() && 0 <= i2 < edges.len() && i1 != i2 ==> !((#[trigger] edges[i1]).source@
            == (#[trigger] edges[i2]).source@ && edges[i1].target@ == edges[i2].target@)
}

/// Every entry of `edges` starts at a vertex before `(b, p)`.
pub open spec fn sources_before(edges: Seq<EdgeData>, b: int, p: int) -> bool {
    forall|i: int, x: usize, y: usize|
        #![trigger edges[i], vertex_label(x as nat, y as nat)]
        0 <= i < edges.len() && edges[i].source@ == vertex_label(x as nat, y as nat) ==> pair_before(
            x as int,
            y as int,
            b,
            p,
        )
}

/// Some entry of `nodes` is vertex `(b, p)`.
pub open spec fn lists_node(nodes: Seq<NodeData>, b: int, p: int) -> bool {
    exists|i: int| 0 <= i < nodes.len() && (#[trigger] nodes[i]).minigrid == b && nodes[i].perm_id == p
}

/// Some entry of `edges` runs from vertex `(b, p)` to vertex `(c, q)`.
pub open spec fn lists_edge(edges: Seq<EdgeData>, b: nat, p: nat, c: nat, q: nat) -> bool {
    exists|i: int|
        0 <= i < edges.len() && (#[trigger] edges[i]).source@ == vertex_label(b, p) && edges[i].target@
            == vertex_label(c, q)
}

proof fn lemma_lists_node_push(nodes: Seq<NodeData>, x: NodeData, b: int, p: int)
    requires
        lists_node(nodes, b, p),
    ensures
        lists_node(nodes.push(x), b, p),
{
    let i = choose|i: int| 0 <= i < nodes.len() && (#[trigger] nodes[i]).minigrid == b && nodes[i].perm_id == p;
    assert(nodes.push(x)[i] == nodes[i]);
}

proof fn lemma_lists_edge_push(edges: Seq<EdgeData>, x: EdgeData, b: nat, p: nat, c: nat, q: nat)
    requires
        lists_edge(edges, b, p, c, q),
    ensures
        lists_edge(edges.push(x), b, p, c, q),
{
    let i = choose|i: int|
        0 <= i < edges.len() && (#[trigger] edges[i]).source@ == vertex_label(b, p) && edges[i].target@
            == vertex_label(c, q);
    assert(edges.push(x)[i] == edges[i]);
}

proof fn lemma_lists_edge_extend(s1: Seq<EdgeData>, s2: Seq<EdgeData>, b: nat, p: nat, c: nat, q: nat)
    requires
        lists_edge(s1, b, p, c, q),
        s2.len() >= s1.len(),
        forall|i: int| 0 <= i < s1.len() ==> #[trigger] s2[i] == s1[i],
    ensures
        lists_edge(s2, b, p, c, q),
{
    let i = choose|i: int|
        0 <= i < s1.len() && (#[trigger] s1[i]).source@ == vertex_label(b, p) && s1[i].target@ == vertex_label(c, q);
    assert(s2[i] == s1[i]);
}

impl Graph {
    /// `e` runs from a vertex to one of its edges' vertices in a higher block.
    pub open spec fn is_edge_entry(&self, e: EdgeData) -> bool {
        exists|b: usize, p: usize, c: usize, q: usize|
            #[trigger] self.edges(b as int, p as int).contains((c, q)) && self.has_vertex(b as int, p as int) && b < c
                && e.source@ == vertex_label(b as nat, p as nat) && e.target@ == vertex_label(c as nat, q as nat)
    }

    /// `v` is a vertex of the graph, with its cells, label and position.
    pub open spec fn is_node_entry(&self, v: NodeData) -> bool {
        &&& self.has_vertex(v.minigrid as int, v.perm_id as int)
        &&& v.cells@ == self.perm(v.minigrid as int, v.perm_id as int)
        &&& v.id@ == vertex_label(v.minigrid as nat, v.perm_id as nat)
        &&& v.board_position@ == position_label(self.k as int, v.minigrid as int)
    }

    /// Where block `minigrid_idx` lies among the blocks.
    pub fn minigrid_position(k: usize, minigrid_idx: usize) -> (r: String)
        requires
            k >= 1,
        ensures
            r@ == position_label(k as int, minigrid_idx as int),
    {
        let row = minigrid_idx / k;
        let col = minigrid_idx % k;
        let row_name = if row == 0 {
            "top"
        } else if row == k - 1 {
            "bottom"
        } else {
            "middle"
        };
        let col_name = if col == 0 {
            "left"
        } else if col == k - 1 {
            "right"
        } else {
            "center"
        };
        String::from_str(row_name).concat("-").concat(col_name)
    }

    /// Appends an entry for each edge of vertex `(b, p)` to a vertex of a
    /// higher block.
    fn push_edges(&self, b: usize, p: usize, edges: &mut Vec<EdgeData>)
        requires
            self.wf(),
            self.edges_exact(),
            self.has_vertex(b as int, p as int),
            forall|i: int| 0 <= i < old(edges).len() ==> self.is_edge_entry(#[trigger] old(edges)@[i]),
            distinct_edges(old(edges)@),
            forall|i: int| 0 <= i < old(edges).len() ==> (#[trigger] old(edges)@[i]).source@ != vertex_label(b as nat, p as nat),
        ensures
            distinct_edges(final(edges)@),
            forall|i: int|
                old(edges).len() <= i < final(edges).len() ==> (#[trigger] final(edges)@[i]).source@ == vertex_label(
                    b as nat,
                    p as nat,
                ),
            final(edges).len() >= old(edges).len(),
            forall|i: int| 0 <= i < old(edges).len() ==> #[trigger] final(edges)@[i] == old(edges)@[i],
            forall|i: int| 0 <= i < final(edges).len() ==> self.is_edge_entry(#[trigger] final(edges)@[i]),
            forall|c: usize, q: usize|
                #[trigger] self.edges(b as int, p as int).contains((c, q)) && b < c ==> lists_edge(
                    final(edges)@,
                    b as nat,
                    p as nat,
                    c as nat,
                    q as nat,
                ),
    {
        let list = &self.minigrids[b][p].compatible;
        let ghost es = list@;
        let ghost start = edges@;
        let mut t: usize = 0;
        while t < list.len()
            invariant
                self.wf(),
                self.edges_exact(),
                self.has_vertex(b as int, p as int),
                es == list@,
                es == self.edges(b as int, p as int),
                t <= list.len(),
                edges.len() >= start.len(),
                forall|i: int| 0 <= i < start.len() ==> #[trigger] edges@[i] == start[i],
                forall|i: int| 0 <= i < edges.len() ==> self.is_edge_entry(#[trigger] edges@[i]),
                es.no_duplicates(),
                distinct_edges(edges@),
                forall|i: int| 0 <= i < start.len() ==> (#[trigger] start[i]).source@ != vertex_label(b as nat, p as nat),
                forall|i: int|
                    start.len() <= i < edges.len() ==> (#[trigger] edges@[i]).source@ == vertex_label(b as nat, p as nat)
                        && exists|j: int|
                        0 <= j < t && edges@[i].target@ == vertex_label(es[j].0 as nat, es[j].1 as nat),
                forall|c: usize, q: usize|
                    #[trigger] es.subrange(0, t as int).contains((c, q)) && b < c ==> lists_edge(
                        edges@,
                        b as nat,
                        p as nat,
                        c as nat,
                        q as nat,
                    ),
            decreases list.len() - t,
        {
            let (c, q) = list[t];
            let ghost edges0 = edges@;
            proof {
                assert(es[t as int] == (c, q));
                assert(es.contains((c, q)));
            }
            if b < c {
                let e = EdgeData { source: label(b, p), target: label(c, q) };
                proof {
                    assert(self.edges(b as int, p as int).contains((c, q)));
                    assert(self.is_edge_entry(e));
                }
                edges.push(e);
                proof {
                    assert(edges@ == edges0.push(e));
                    assert forall|i: int| start.len() <= i < edges0.len() implies (#[trigger] edges0[i]).target@ != e.target@ by {
                        let j = choose|j: int|
                            0 <= j < t && edges0[i].target@ == vertex_label(es[j].0 as nat, es[j].1 as nat);
                        if edges0[i].target@ == e.target@ {
                            lemma_label_injective(es[j].0 as nat, es[j].1 as nat, c as nat, q as nat);
                            assert(es[j] == es[t as int]);
                        }
                    }
                    assert forall|i: int| 0 <= i < start.len() implies (#[trigger] edges0[i]).source@ != e.source@ by {
                        assert(edges0[i] == start[i]);
                    }
                    assert forall|i1: int, i2: int|
                        0 <= i1 < edges@.len() && 0 <= i2 < edges@.len() && i1 != i2 implies !((#[trigger] edges@[i1]).source@
                            == (#[trigger] edges@[i2]).source@ && edges@[i1].target@ == edges@[i2].target@) by {
                        if i1 == edges0.len() {
                            assert(edges@[i2] == edges0[i2]);
                        } else if i2 == edges0.len() {
                            assert(edges@[i1] == edges0[i1]);
                        } else {
                            assert(edges@[i1] == edges0[i1] && edges@[i2] == edges0[i2]);
                        }
                    }
                    assert forall|i: int|
                        start.len() <= i < edges@.len() implies (#[trigger] edges@[i]).source@ == vertex_label(b as nat, p as nat)
                            && exists|j: int|
                            0 <= j < t + 1 && edges@[i].target@ == vertex_label(es[j].0 as nat, es[j].1 as nat) by {
                        if i < edges0.len() {
                            assert(edges@[i] == edges0[i]);
                            let j = choose|j: int|
                                0 <= j < t && edges0[i].target@ == vertex_label(es[j].0 as nat, es[j].1 as nat);
                        } else {
                            assert(edges@[i].target@ == vertex_label(es[t as int].0 as nat, es[t as int].1 as nat));
                        }
                    }
                    assert forall|i: int| 0 <= i < edges.len() implies self.is_edge_entry(#[trigger] edges@[i]) by {
                        if i < edges0.len() {
                            assert(edges@[i] == edges0[i]);
                        }
                    }
                    assert(lists_edge(edges@, b as nat, p as nat, c as nat, q as nat)) by {
                        assert(edges@[edges0.len() as int] == e);
                    }
                    assert forall|c2: usize, q2: usize|
                        #[trigger] es.subrange(0, t + 1).contains((c2, q2)) && b < c2 implies lists_edge(
                            edges@,
                            b as nat,
                            p as nat,
                            c2 as nat,
                            q2 as nat,
                        ) by {
                        let j = choose|j: int| 0 <= j < t + 1 && #[trigger] es.subrange(0, t + 1)[j] == (c2, q2);
                        if j < t {
                            assert(es.subrange(0, t as int)[j] == (c2, q2));
                            assert(es.subrange(0, t as int).contains((c2, q2)));
                            lemma_lists_edge_push(edges0, e, b as nat, p as nat, c2 as nat, q2 as nat);
                        }
                    }
                }
            } else {
                proof {
                    assert forall|c2: usize, q2: usize|
                        #[trigger] es.subrange(0, t + 1).contains((c2, q2)) && b < c2 implies lists_edge(
                            edges@,
                            b as nat,
                            p as nat,
                            c2 as nat,
                            q2 as nat,
                        ) by {
                        let j = choose|j: int| 0 <= j < t + 1 && #[trigger] es.subrange(0, t + 1)[j] == (c2, q2);
                        if j < t {
                            assert(es.subrange(0, t as int)[j] == (c2, q2));
                            assert(es.subrange(0, t as int).contains((c2, q2)));
                        }
                    }
                }
            }
            t = t + 1;
        }
        proof {
            assert(es.subrange(0, t as int) =~= es);
        }
    }

    /// Every vertex, block by block, and every edge once, from the vertex of
    /// the lower block.
    pub fn snapshot(&self) -> (r: GraphData)
        requires
            self.wf(),
            self.edges_exact(),
        ensures
            forall|i: int| 0 <= i < r.nodes.len() ==> self.is_node_entry(#[trigger] r.nodes@[i]),
            forall|b: int, p: int| #[trigger] self.has_vertex(b, p) ==> lists_node(r.nodes@, b, p),
            forall|i: int| 0 <= i < r.edges.len() ==> self.is_edge_entry(#[trigger] r.edges@[i]),
            forall|b: usize, p: usize, c: usize, q: usize|
                #[trigger] self.edges(b as int, p as int).contains((c, q)) && self.has_vertex(b as int, p as int)
                    && b < c ==> lists_edge(r.edges@, b as nat, p as nat, c as nat, q as nat),
            forall|i1: int, i2: int|
                0 <= i1 < r.nodes.len() && 0 <= i2 < r.nodes.len() && i1 != i2 ==> !((#[trigger] r.nodes@[i1]).minigrid
                    == (#[trigger] r.nodes@[i2]).minigrid && r.nodes@[i1].perm_id == r.nodes@[i2].perm_id),
            distinct_edges(r.edges@),
    {
        let mut nodes: Vec<NodeData> = Vec::new();
        let mut edges: Vec<EdgeData> = Vec::new();
        let n = self.minigrids.len();
        let mut b: usize = 0;
        while b < n
            invariant
                self.wf(),
                self.edges_exact(),
                n == self.minigrids.len(),
                b <= n,
                forall|i: int| 0 <= i < nodes.len() ==> self.is_node_entry(#[trigger] nodes@[i]),
                forall|x: int, y: int| #[trigger] self.has_vertex(x, y) && x < b ==> lists_node(nodes@, x, y),
                forall|i: int| 0 <= i < edges.len() ==> self.is_edge_entry(#[trigger] edges@[i]),
                forall|x: usize, y: usize, c: usize, q: usize|
                    #[trigger] self.edges(x as int, y as int).contains((c, q)) && self.has_vertex(x as int, y as int)
                        && x < c && x < b ==> lists_edge(edges@, x as nat, y as nat, c as nat, q as nat),
                distinct_edges(edges@),
                sources_before(edges@, b as int, 0),
                forall|i: int| 0 <= i < nodes.len() ==> pair_before((#[trigger] nodes@[i]).minigrid as int, nodes@[i].perm_id as int, b as int, 0),
                forall|i1: int, i2: int|
                    0 <= i1 < i2 < nodes.len() ==> pair_before(
                        (#[trigger] nodes@[i1]).minigrid as int,
                        nodes@[i1].perm_id as int,
                        (#[trigger] nodes@[i2]).minigrid as int,
                        nodes@[i2].perm_id as int,
                    ),
            decreases n - b,
        {
            let len = self.minigrids[b].len();
            let mut p: usize = 0;
            while p < len
                invariant
                    self.wf(),
                    self.edges_exact(),
                    n == self.minigrids.len(),
                    b < n,
                    len == self.minigrids@[b as int].len(),
                    p <= len,
                    forall|i: int| 0 <= i < nodes.len() ==> self.is_node_entry(#[trigger] nodes@[i]),
                    forall|x: int, y: int|
                        #[trigger] self.has_vertex(x, y) && (x < b || (x == b && y < p)) ==> lists_node(nodes@, x, y),
                    forall|i: int| 0 <= i < edges.len() ==> self.is_edge_entry(#[trigger] edges@[i]),
                    forall|x: usize, y: usize, c: usize, q: usize|
                        #[trigger] self.edges(x as int, y as int).contains((c, q)) && self.has_vertex(x as int, y as int)
                            && x < c && (x < b || (x == b && y < p)) ==> lists_edge(
                            edges@,
                            x as nat,
                            y as nat,
                            c as nat,
                            q as nat,
                        ),
                    distinct_edges(edges@),
                    sources_before(edges@, b as int, p as int),
                    forall|i: int|
                        0 <= i < nodes.len() ==> pair_before((#[trigger] nodes@[i]).minigrid as int, nodes@[i].perm_id as int, b as int, p as int),
                    forall|i1: int, i2: int|
                        0 <= i1 < i2 < nodes.len() ==> pair_before(
                            (#[trigger] nodes@[i1]).minigrid as int,
                            nodes@[i1].perm_id as int,
                            (#[trigger] nodes@[i2]).minigrid as int,
                            nodes@[i2].perm_id as int,
                        ),
                decreases len - p,
            {
                let node = &self.minigrids[b][p];
                let ghost nodes0 = nodes@;
                let v = NodeData {
                    id: label(b, p),
                    minigrid: b,
                    perm_id: p,
                    cells: node.cells.clone(),
                    board_position: Graph::minigrid_position(self.k, b),
                };
                proof {
                    assert(v.cells@ =~= self.perm(b as int, p as int));
                    assert(self.is_node_entry(v));
                }
                nodes.push(v);
                proof {
                    assert(nodes@ == nodes0.push(v));
                    assert forall|i: int| 0 <= i < nodes.len() implies pair_before((#[trigger] nodes@[i]).minigrid as int, nodes@[i].perm_id as int, b as int, p + 1) by {
                        if i < nodes0.len() {
                            assert(nodes@[i] == nodes0[i]);
                        }
                    }
                    assert forall|i1: int, i2: int|
                        0 <= i1 < i2 < nodes.len() implies pair_before(
                            (#[trigger] nodes@[i1]).minigrid as int,
                            nodes@[i1].perm_id as int,
                            (#[trigger] nodes@[i2]).minigrid as int,
                            nodes@[i2].perm_id as int,
                        ) by {
                        assert(nodes@[i1] == nodes0[i1]);
                        if i2 < nodes0.len() {
                            assert(nodes@[i2] == nodes0[i2]);
                        }
                    }
                    assert forall|i: int| 0 <= i < nodes.len() implies self.is_node_entry(#[trigger] nodes@[i]) by {
                        if i < nodes0.len() {
                            assert(nodes@[i] == nodes0[i]);
                        }
                    }
                    assert forall|x: int, y: int|
                        #[trigger] self.has_vertex(x, y) && (x < b || (x == b && y < p + 1)) implies lists_node(nodes@, x, y) by {
                        if x == b && y == p {
                            assert(nodes@[nodes0.len() as int].minigrid == x);
                        } else {
                            lemma_lists_node_push(nodes0, v, x, y);
                        }
                    }
                }
                let ghost edges0 = edges@;
                proof {
                    assert forall|i: int| 0 <= i < edges0.len() implies (#[trigger] edges0[i]).source@ != vertex_label(b as nat, p as nat) by {
                        if edges0[i].source@ == vertex_label(b as nat, p as nat) {
                            assert(pair_before(b as int, p as int, b as int, p as int));
                        }
                    }
                }
                self.push_edges(b, p, &mut edges);
                proof {
                    assert forall|i: int, x: usize, y: usize|
                        #![trigger edges@[i], vertex_label(x as nat, y as nat)]
                        0 <= i < edges@.len() && edges@[i].source@ == vertex_label(x as nat, y as nat) implies pair_before(
                        x as int,
                        y as int,
                        b as int,
                        p + 1,
                    ) by {
                        if i < edges0.len() {
                            assert(edges@[i] == edges0[i]);
                        } else {
                            lemma_label_injective(x as nat, y as nat, b as nat, p as nat);
                        }
                    }
                    assert forall|x: usize, y: usize, c: usize, q: usize|
                        #[trigger] self.edges(x as int, y as int).contains((c, q)) && self.has_vertex(x as int, y as int)
                            && x < c && (x < b || (x == b && y < p + 1)) implies lists_edge(
                            edges@,
                            x as nat,
                            y as nat,
                            c as nat,
                            q as nat,
                        ) by {
                        if !(x == b && y == p) {
                            lemma_lists_edge_extend(edges0, edges@, x as nat, y as nat, c as nat, q as nat);
                        }
                    }
                }
                p = p + 1;
            }
            proof {
                assert forall|i: int, x: usize, y: usize|
                    #![trigger edges@[i], vertex_label(x as nat, y as nat)]
                    0 <= i < edges@.len() && edges@[i].source@ == vertex_label(x as nat, y as nat) implies pair_before(
                    x as int,
                    y as int,
                    b + 1,
                    0,
                ) by {
                    assert(pair_before(x as int, y as int, b as int, p as int));
                }
                assert(sources_before(edges@, b + 1, 0));
            }
            b = b + 1;
        }
        GraphData { nodes, edges }
    }
}

} // verus!
