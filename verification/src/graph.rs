//! The witness data: edge colors, the dense adjacency with its cached flat
//! edge list, and the 3-vertex induced subgraphs (spots) that challenges open.

use vstd::prelude::*;

use crate::hash::QuantumHash;
use crate::polynomial::byte_sum;
use crate::wire::u32_be_bytes;

verus! {

/// An edge color; `Blank` marks a hidden real edge.
#[derive(Debug, Clone, Copy, PartialEq, Eq, Structural, Hash)]
pub enum Color {
    Red,
    Green,
    Yellow,
    Blank,
}

/// The one-byte encoding of a color.
pub open spec fn color_u8(c: Color) -> u8 {
    match c {
        Color::Red => 0,
        Color::Green => 1,
        Color::Yellow => 2,
        Color::Blank => 3,
    }
}

/// The color a byte decodes to, if any.
pub open spec fn color_from_u8_spec(value: u8) -> Option<Color> {
    if value == 0 {
        Some(Color::Red)
    } else if value == 1 {
        Some(Color::Green)
    } else if value == 2 {
        Some(Color::Yellow)
    } else if value == 3 {
        Some(Color::Blank)
    } else {
        None
    }
}

impl Color {
    /// Encodes the color as a single byte 0..3.
    pub fn to_u8(self) -> (r: u8)
        ensures
            r == color_u8(self),
    {
        match self {
            Color::Red => 0,
            Color::Green => 1,
            Color::Yellow => 2,
            Color::Blank => 3,
        }
    }

    /// Decodes a byte back into a color; bytes above 3 decode to nothing.
    pub fn from_u8(value: u8) -> (r: Option<Color>)
        ensures
            r == color_from_u8_spec(value),
    {
        match value {
            0 => Some(Color::Red),
            1 => Some(Color::Green),
            2 => Some(Color::Yellow),
            3 => Some(Color::Blank),
            _ => None,
        }
    }
}

/// Encoding then decoding a color gives the color back.
pub proof fn lemma_color_u8_round_trip(c: Color)
    ensures
        color_from_u8_spec(color_u8(c)) == Some(c),
{
}

/// A directed colored edge.
#[derive(Debug, Clone, Copy, PartialEq, Eq, Structural)]
pub struct Edge {
    pub from: u32,
    pub to: u32,
    pub color: Color,
}

/// A dense directed edge-colored graph on `n` vertices, with a cached flat
/// edge list in row-major order.
#[derive(Debug, Clone)]
pub struct Graph {
    pub n: u32,
    pub edges: Vec<Edge>,
    pub adjacency: Vec<Vec<Color>>,
}

impl Graph {
    /// The adjacency is a full `n` by `n` matrix and `n * n` fits in `u32`.
    pub open spec fn wf(self) -> bool {
        &&& self.n <= 0xFFFF
        &&& self.adjacency@.len() == self.n
        &&& forall|i: int| 0 <= i < self.n ==> (#[trigger] self.adjacency@[i])@.len() == self.n
    }

    /// The color at position (i, j).
    pub open spec fn color_at(self, i: int, j: int) -> Color {
        self.adjacency@[i]@[j]
    }

    /// The cached flat edge list mirrors the adjacency, row-major.
    pub open spec fn edge_cache_ok(self) -> bool {
        &&& self.edges@.len() == self.n * self.n
        &&& forall|k: int|
            0 <= k < self.n * self.n ==> #[trigger] self.edges@[k] == (Edge {
                from: (k / (self.n as int)) as u32,
                to: (k % (self.n as int)) as u32,
                color: self.color_at(k / (self.n as int), k % (self.n as int)),
            })
    }

    /// Builds the all-blank graph on `n` vertices with an empty edge cache.
    pub fn new(n: u32) -> (g: Graph)
        requires
            n <= 0xFFFF,
        ensures
            g.wf(),
            g.n == n,
            g.edges@.len() == 0,
            forall|i: int, j: int| 0 <= i < n && 0 <= j < n ==> g.color_at(i, j) == Color::Blank,
    {
        let mut adjacency: Vec<Vec<Color>> = Vec::new();
        for i in 0..n as usize
            invariant
                adjacency@.len() == i,
                forall|a: int| 0 <= a < i ==> (#[trigger] adjacency@[a])@.len() == n,
                forall|a: int, b: int|
                    0 <= a < i && 0 <= b < n ==> adjacency@[a]@[b] == Color::Blank,
        {
            let mut row: Vec<Color> = Vec::new();
            for j in 0..n as usize
                invariant
                    row@.len() == j,
                    forall|b: int| 0 <= b < j ==> row@[b] == Color::Blank,
            {
                row.push(Color::Blank);
            }
            adjacency.push(row);
        }
        Graph { n, edges: Vec::new(), adjacency }
    }

    /// Writes one cell of the adjacency and appends the edge to the cache.
    pub fn set_edge(&mut self, from: u32, to: u32, color: Color)
        requires
            old(self).wf(),
            from < old(self).n,
            to < old(self).n,
        ensures
            final(self).wf(),
            final(self).n == old(self).n,
            final(self).color_at(from as int, to as int) == color,
            forall|i: int, j: int|
                0 <= i < final(self).n && 0 <= j < final(self).n && !(i == from && j == to)
                    ==> final(self).color_at(i, j) == old(self).color_at(i, j),
            final(self).edges@ == old(self).edges@.push(Edge { from, to, color }),
    {
        self.adjacency[from as usize][to as usize] = color;
        self.edges.push(Edge { from, to, color });
    }

    /// Writes one cell of the adjacency without touching the edge cache.
    pub fn overwrite_edge(&mut self, from: u32, to: u32, color: Color)
        requires
            old(self).wf(),
            from < old(self).n,
            to < old(self).n,
        ensures
            final(self).wf(),
            final(self).n == old(self).n,
            final(self).color_at(from as int, to as int) == color,
            forall|i: int, j: int|
                0 <= i < final(self).n && 0 <= j < final(self).n && !(i == from && j == to)
                    ==> final(self).color_at(i, j) == old(self).color_at(i, j),
            final(self).edges@ == old(self).edges@,
    {
        self.adjacency[from as usize][to as usize] = color;
    }

    /// Rebuilds the flat edge list from the adjacency, row-major.
    pub fn rebuild_edge_cache(&mut self)
        requires
            old(self).wf(),
        ensures
            final(self).wf(),
            final(self).n == old(self).n,
            final(self).adjacency@ == old(self).adjacency@,
            final(self).edge_cache_ok(),
    {
        self.edges.clear();
        let n = self.n;
        proof {
            assert(self.edges@.len() == 0 * n);
            assert(forall|k: int|
                0 <= k < 0 * n ==> #[trigger] self.edges@[k] == (Edge {
                    from: (k / (n as int)) as u32,
                    to: (k % (n as int)) as u32,
                    color: self.color_at(k / (n as int), k % (n as int)),
                }));
        }
        for i in 0..n
            invariant
                self.wf(),
                self.n == n,
                self.adjacency@ == old(self).adjacency@,
                self.edges@.len() == i * n,
                forall|k: int|
                    0 <= k < i * n ==> #[trigger] self.edges@[k] == (Edge {
                        from: (k / (n as int)) as u32,
                        to: (k % (n as int)) as u32,
                        color: self.color_at(k / (n as int), k % (n as int)),
                    }),
        {
            for j in 0..n
                invariant
                    self.wf(),
                    self.n == n,
                    i < n,
                    self.adjacency@ == old(self).adjacency@,
                    self.edges@.len() == i * n + j,
                    forall|k: int|
                        0 <= k < i * n + j ==> #[trigger] self.edges@[k] == (Edge {
                            from: (k / (n as int)) as u32,
                            to: (k % (n as int)) as u32,
                            color: self.color_at(k / (n as int), k % (n as int)),
                        }),
            {
                let color = self.adjacency[i as usize][j as usize];
                self.edges.push(Edge { from: i, to: j, color });
                proof {
                    let k = i * (n as int) + j;
                    lemma_row_major_index(n as int, i as int, j as int);
                    assert(self.edges@[k] == (Edge {
                        from: (k / (n as int)) as u32,
                        to: (k % (n as int)) as u32,
                        color: self.color_at(k / (n as int), k % (n as int)),
                    }));
                }
            }
            proof {
                assert((i + 1) * (n as int) == i * n + n) by (nonlinear_arith);
            }
        }
        proof {
            assert(self.edges@.len() == n * n) by (nonlinear_arith)
                requires self.edges@.len() == (n as int) * (n as int);
        }
    }

    /// Reads the color at (from, to).
    pub fn get_edge(&self, from: u32, to: u32) -> (r: Color)
        requires
            self.wf(),
            from < self.n,
            to < self.n,
        ensures
            r == self.color_at(from as int, to as int),
    {
        self.adjacency[from as usize][to as usize]
    }

    /// Counts the blank cells of the adjacency.
    pub fn blank_count(&self) -> (r: u32)
        requires
            self.wf(),
        ensures
            r == byte_sum(blank_bits(*self)),
            r <= self.n * self.n,
    {
        let ghost bits = blank_bits(*self);
        let n = self.n;
        let mut total: u32 = 0;
        proof {
            lemma_byte_sum_binary_bound(bits);
            assert(bits.take(0int) =~= Seq::<u8>::empty());
            assert(byte_sum(Seq::<u8>::empty()) == 0);
            assert(total == byte_sum(bits.take(0 * n)));
        }
        for i in 0..n
            invariant
                self.wf(),
                self.n == n,
                bits == blank_bits(*self),
                total == byte_sum(bits.take(i * n)),
                total <= i * n,
        {
            for j in 0..n
                invariant
                    self.wf(),
                    self.n == n,
                    i < n,
                    bits == blank_bits(*self),
                    total == byte_sum(bits.take(i * n + j)),
                    total <= i * n + j,
            {
                proof {
                    let k = i * (n as int) + j;
                    lemma_row_major_index(n as int, i as int, j as int);
                    assert((i as int) * (n as int) + (j as int) < (n as int) * (n as int))
                        by (nonlinear_arith)
                        requires
                            i < n,
                            j < n,
                    ;
                    assert((n as int) * (n as int) <= 0xFFFF * 0xFFFF) by (nonlinear_arith)
                        requires
                            n <= 0xFFFF,
                    ;
                    assert(bits.take(k + 1).drop_last() =~= bits.take(k));
                    assert(bits.take(k + 1).last() == bits[k]);
                }
                if self.adjacency[i as usize][j as usize] == Color::Blank {
                    total = total + 1;
                }
            }
            proof {
                assert((i + 1) * (n as int) == i * n + n) by (nonlinear_arith);
            }
        }
        proof {
            assert((n as int) * (n as int) <= 0xFFFF * 0xFFFF) by (nonlinear_arith)
                requires
                    n <= 0xFFFF,
            ;
            assert(bits.take((n as int) * (n as int)) =~= bits);
        }
        total
    }

    /// Builds the relabeled copy whose cell (i, j) holds the color at
    /// (permutation[i], permutation[j]); its edge cache is rebuilt.
    pub fn apply_permutation(&self, permutation: &[u32]) -> (g: Graph)
        requires
            self.wf(),
            permutation@.len() == self.n,
            forall|k: int| 0 <= k < self.n ==> permutation@[k] < self.n,
        ensures
            g.wf(),
            g.n == self.n,
            forall|i: int, j: int|
                0 <= i < self.n && 0 <= j < self.n ==> g.color_at(i, j) == self.color_at(
                    permutation@[i] as int,
                    permutation@[j] as int,
                ),
            g.edge_cache_ok(),
    {
        let n = self.n;
        let mut permuted = Graph::new(n);
        proof {
            assert(permuted.edges@.len() == 0 * n);
            assert(forall|k: int|
                0 <= k < 0 * n ==> #[trigger] permuted.edges@[k] == (Edge {
                    from: (k / (n as int)) as u32,
                    to: (k % (n as int)) as u32,
                    color: permuted.color_at(k / (n as int), k % (n as int)),
                }));
        }
        for i in 0..n
            invariant
                self.wf(),
                self.n == n,
                permutation@.len() == n,
                forall|k: int| 0 <= k < n ==> permutation@[k] < n,
                permuted.wf(),
                permuted.n == n,
                permuted.edges@.len() == i * n,
                forall|a: int, b: int|
                    0 <= a < i && 0 <= b < n ==> permuted.color_at(a, b) == self.color_at(
                        permutation@[a] as int,
                        permutation@[b] as int,
                    ),
                forall|k: int|
                    0 <= k < i * n ==> #[trigger] permuted.edges@[k] == (Edge {
                        from: (k / (n as int)) as u32,
                        to: (k % (n as int)) as u32,
                        color: permuted.color_at(k / (n as int), k % (n as int)),
                    }),
        {
            for j in 0..n
                invariant
                    self.wf(),
                    self.n == n,
                    i < n,
                    permutation@.len() == n,
                    forall|k: int| 0 <= k < n ==> permutation@[k] < n,
                    permuted.wf(),
                    permuted.n == n,
                    permuted.edges@.len() == i * n + j,
                    forall|a: int, b: int|
                        0 <= a < i && 0 <= b < n ==> permuted.color_at(a, b) == self.color_at(
                            permutation@[a] as int,
                            permutation@[b] as int,
                        ),
                    forall|b: int|
                        0 <= b < j ==> permuted.color_at(i as int, b) == self.color_at(
                            permutation@[i as int] as int,
                            permutation@[b] as int,
                        ),
                    forall|k: int|
                        0 <= k < i * n + j ==> #[trigger] permuted.edges@[k] == (Edge {
                            from: (k / (n as int)) as u32,
                            to: (k % (n as int)) as u32,
                            color: permuted.color_at(k / (n as int), k % (n as int)),
                        }),
            {
                let src_i = permutation[i as usize];
                let src_j = permutation[j as usize];
                let color = self.get_edge(src_i, src_j);
                let ghost before = permuted;
                permuted.set_edge(i, j, color);
                proof {
                    let k = i * (n as int) + j;
                    lemma_row_major_index(n as int, i as int, j as int);
                    assert(permuted.edges@[k] == (Edge {
                        from: (k / (n as int)) as u32,
                        to: (k % (n as int)) as u32,
                        color: permuted.color_at(k / (n as int), k % (n as int)),
                    }));
                    assert(forall|k2: int|
                        0 <= k2 < i * n + j ==> #[trigger] permuted.edges@[k2] == (Edge {
                            from: (k2 / (n as int)) as u32,
                            to: (k2 % (n as int)) as u32,
                            color: permuted.color_at(k2 / (n as int), k2 % (n as int)),
                        })) by {
                        assert forall|k2: int| 0 <= k2 < i * n + j implies #[trigger] permuted.edges@[k2]
                            == (Edge {
                            from: (k2 / (n as int)) as u32,
                            to: (k2 % (n as int)) as u32,
                            color: permuted.color_at(k2 / (n as int), k2 % (n as int)),
                        }) by {
                            lemma_row_major_decompose(n as int, k2);
                            assert(before.edges@[k2] == permuted.edges@[k2]);
                            assert(k2 / (n as int) < n) by (nonlinear_arith)
                                requires 0 <= k2, k2 < i * n + j, i < n, j < n, n > 0;
                            if k2 / (n as int) == i && k2 % (n as int) == j {
                                assert(k2 == (k2 / (n as int)) * (n as int) + k2 % (n as int));
                                assert(false);
                            }
                            assert(permuted.color_at(k2 / (n as int), k2 % (n as int))
                                == before.color_at(k2 / (n as int), k2 % (n as int)));
                        }
                    }
                }
            }
            proof {
                assert((i + 1) * (n as int) == i * n + n) by (nonlinear_arith);
            }
        }
        proof {
            assert(permuted.edges@.len() == n * n) by (nonlinear_arith)
                requires permuted.edges@.len() == (n as int) * (n as int);
        }
        permuted
    }

    /// Extracts the spot at three vertices: all nine ordered-pair colors, in
    /// row-major order of the given nodes.
    pub fn get_spot(&self, nodes: &[u32; 3]) -> (s: Spot)
        requires
            self.wf(),
            forall|k: int| 0 <= k < 3 ==> nodes@[k] < self.n,
        ensures
            s.nodes == *nodes,
            spot_matrix(s) == graph_matrix3(*self, nodes@),
    {
        let mut edges: Vec<(u32, u32, Color)> = Vec::new();
        for x in 0..3usize
            invariant
                self.wf(),
                forall|k: int| 0 <= k < 3 ==> nodes@[k] < self.n,
                forall|a: int, b: int|
                    0 <= a < x && 0 <= b < 3 ==> spot_color(edges@, nodes@[a], nodes@[b])
                        == self.color_at(nodes@[a] as int, nodes@[b] as int),
        {
            for y in 0..3usize
                invariant
                    self.wf(),
                    x < 3,
                    forall|k: int| 0 <= k < 3 ==> nodes@[k] < self.n,
                    forall|a: int, b: int|
                        0 <= a < x && 0 <= b < 3 ==> spot_color(edges@, nodes@[a], nodes@[b])
                            == self.color_at(nodes@[a] as int, nodes@[b] as int),
                    forall|b: int|
                        0 <= b < y ==> spot_color(edges@, nodes@[x as int], nodes@[b])
                            == self.color_at(nodes@[x as int] as int, nodes@[b] as int),
            {
                let a = nodes[x];
                let b = nodes[y];
                let color = self.get_edge(a, b);
                let ghost before = edges@;
                edges.push((a, b, color));
                proof {
                    assert forall|p: u32, q: u32|
                        spot_color(#[trigger] edges@, p, q) == (if p == a && q == b {
                            color
                        } else {
                            spot_color(before, p, q)
                        }) by {
                        assert(edges@.drop_last() =~= before);
                    }
                }
            }
        }
        let s = Spot { nodes: *nodes, edges };
        proof {
            assert(spot_matrix(s) =~= graph_matrix3(*self, nodes@));
        }
        s
    }
}

/// In a row-major layout of width `n`, cell (i, j) has index `i * n + j`.
pub proof fn lemma_row_major_index(n: int, i: int, j: int)
    requires
        n > 0,
        0 <= i,
        0 <= j < n,
    ensures
        (i * n + j) / n == i,
        (i * n + j) % n == j,
{
    assert((i * n + j) / n == i && (i * n + j) % n == j) by (nonlinear_arith)
        requires n > 0, 0 <= i, 0 <= j < n;
}

/// Any index below `i * n + j` decomposes below row `i`, or into row `i`
/// before column `j`.
pub proof fn lemma_row_major_decompose(n: int, k: int)
    requires
        n > 0,
        0 <= k,
    ensures
        k == (k / n) * n + (k % n),
        0 <= k % n < n,
        0 <= k / n,
{
    assert(k == (k / n) * n + (k % n) && 0 <= k % n < n && 0 <= k / n) by (nonlinear_arith)
        requires n > 0, 0 <= k;
}

/// The blank-indicator bits of a graph, row-major: bit `i * n + j` is 1
/// exactly when the edge (i, j) is blank.
pub open spec fn blank_bits(g: Graph) -> Seq<u8> {
    Seq::new(
        (g.n * g.n) as nat,
        |k: int| if g.color_at(k / (g.n as int), k % (g.n as int)) == Color::Blank {
            1u8
        } else {
            0u8
        },
    )
}

/// The sum of a binary string is at most its length.
pub proof fn lemma_byte_sum_binary_bound(s: Seq<u8>)
    requires
        forall|i: int| 0 <= i < s.len() ==> s[i] <= 1,
    ensures
        byte_sum(s) <= s.len(),
    decreases s.len(),
{
    if s.len() > 0 {
        lemma_byte_sum_binary_bound(s.drop_last());
    }
}

/// A 3-vertex induced subgraph: three node labels and the colors opened for
/// ordered pairs of them. When a pair occurs more than once, the last entry
/// wins, and a missing pair reads as blank.
#[derive(Debug, Clone)]
pub struct Spot {
    pub nodes: [u32; 3],
    pub edges: Vec<(u32, u32, Color)>,
}

/// The color an entry list assigns to the pair (a, b): the last entry for the
/// pair, or blank if the pair never occurs.
pub open spec fn spot_color(s: Seq<(u32, u32, Color)>, a: u32, b: u32) -> Color
    decreases s.len(),
{
    if s.len() == 0 {
        Color::Blank
    } else if s.last().0 == a && s.last().1 == b {
        s.last().2
    } else {
        spot_color(s.drop_last(), a, b)
    }
}

/// When every entry for a pair carries one same color and the pair occurs,
/// the lookup returns that color.
pub proof fn lemma_spot_color_consistent(s: Seq<(u32, u32, Color)>, a: u32, b: u32, c: Color)
    requires
        forall|e: int|
            0 <= e < s.len() && (#[trigger] s[e]).0 == a && s[e].1 == b ==> s[e].2 == c,
        exists|e: int| 0 <= e < s.len() && (#[trigger] s[e]).0 == a && s[e].1 == b,
    ensures
        spot_color(s, a, b) == c,
    decreases s.len(),
{
    if s.last().0 == a && s.last().1 == b {
        assert(s[s.len() - 1].2 == c);
    } else {
        let e = choose|e: int| 0 <= e < s.len() && (#[trigger] s[e]).0 == a && s[e].1 == b;
        assert(e < s.len() - 1);
        assert(s.drop_last()[e] == s[e]);
        assert(forall|e2: int|
            0 <= e2 < s.drop_last().len() ==> s.drop_last()[e2] == s[e2]);
        lemma_spot_color_consistent(s.drop_last(), a, b, c);
    }
}

/// The nine colors of a spot in row-major order of its own nodes, encoded as
/// bytes.
pub open spec fn spot_matrix(s: Spot) -> Seq<u8> {
    Seq::new(9, |k: int| color_u8(spot_color(s.edges@, s.nodes@[k / 3], s.nodes@[k % 3])))
}

/// The nine colors a graph shows on the ordered pairs of three vertices, in
/// row-major order, encoded as bytes.
pub open spec fn graph_matrix3(g: Graph, ns: Seq<u32>) -> Seq<u8> {
    Seq::new(9, |k: int| color_u8(g.color_at(ns[k / 3] as int, ns[k % 3] as int)))
}

impl Spot {
    /// Looks the spot's entry list up for a pair.
    pub fn lookup(&self, a: u32, b: u32) -> (r: Color)
        ensures
            r == spot_color(self.edges@, a, b),
    {
        let mut found = Color::Blank;
        let len = self.edges.len();
        for i in 0..len
            invariant
                len == self.edges@.len(),
                found == spot_color(self.edges@.take(i as int), a, b),
        {
            proof {
                assert(self.edges@.take(i + 1).drop_last() =~= self.edges@.take(i as int));
            }
            let entry = self.edges[i];
            if entry.0 == a && entry.1 == b {
                found = entry.2;
            }
        }
        proof {
            assert(self.edges@.take(len as int) =~= self.edges@);
        }
        found
    }

    /// Hashes the spot: the three node labels, then the entries for each
    /// distinct pair, sorted by pair, each as `a_be || b_be || color`.
    pub fn hash<H: QuantumHash>(&self, hasher: &H) -> (r: [u8; 32])
        ensures
            r == hasher.hash_spec(spot_digest_bytes(*self)),
    {
        let mut data: Vec<u8> = Vec::new();
        crate::wire::push_u32_be(&mut data, self.nodes[0]);
        crate::wire::push_u32_be(&mut data, self.nodes[1]);
        crate::wire::push_u32_be(&mut data, self.nodes[2]);
        let sorted = sorted_unique_entries(&self.edges);
        let len = sorted.len();
        let ghost prefix = data@;
        for i in 0..len
            invariant
                len == sorted@.len(),
                data@ == prefix + entries_bytes(sorted@.take(i as int)),
        {
            proof {
                assert(sorted@.take(i + 1).drop_last() =~= sorted@.take(i as int));
            }
            let entry = sorted[i];
            crate::wire::push_u32_be(&mut data, entry.0);
            crate::wire::push_u32_be(&mut data, entry.1);
            data.push(entry.2.to_u8());
            proof {
                assert(data@ =~= prefix + entries_bytes(sorted@.take(i + 1)));
            }
        }
        proof {
            assert(sorted@.take(len as int) =~= sorted@);
            assert(data@ =~= spot_digest_bytes(*self));
        }
        hasher.hash(data.as_slice())
    }
}

/// The serialized form of an entry list: each entry as
/// `from_be || to_be || color`.
pub open spec fn entries_bytes(s: Seq<(u32, u32, Color)>) -> Seq<u8>
    decreases s.len(),
{
    if s.len() == 0 {
        Seq::empty()
    } else {
        entries_bytes(s.drop_last()) + u32_be_bytes(s.last().0) + u32_be_bytes(s.last().1)
            + seq![color_u8(s.last().2)]
    }
}

/// The bytes a spot hashes: its node labels, then its sorted distinct
/// entries.
pub open spec fn spot_digest_bytes(s: Spot) -> Seq<u8> {
    u32_be_bytes(s.nodes@[0]) + u32_be_bytes(s.nodes@[1]) + u32_be_bytes(s.nodes@[2])
        + entries_bytes(sorted_unique_spec(s.edges@))
}

/// Inserts an entry into a list sorted by pair, replacing the pair's previous
/// entry if one exists.
pub open spec fn insert_entry(acc: Seq<(u32, u32, Color)>, e: (u32, u32, Color)) -> Seq<
    (u32, u32, Color),
>
    decreases acc.len(),
{
    if acc.len() == 0 {
        seq![e]
    } else if acc.last().0 == e.0 && acc.last().1 == e.1 {
        acc.drop_last().push(e)
    } else if pair_below(acc.last(), e) {
        acc.push(e)
    } else {
        insert_entry(acc.drop_last(), e).push(acc.last())
    }
}

/// Strict order on entries by pair, lexicographic.
pub open spec fn pair_below(x: (u32, u32, Color), y: (u32, u32, Color)) -> bool {
    x.0 < y.0 || (x.0 == y.0 && x.1 < y.1)
}

/// The sorted, per-pair-deduplicated form of an entry list; later entries for
/// a pair replace earlier ones.
pub open spec fn sorted_unique_spec(s: Seq<(u32, u32, Color)>) -> Seq<(u32, u32, Color)>
    decreases s.len(),
{
    if s.len() == 0 {
        Seq::empty()
    } else {
        insert_entry(sorted_unique_spec(s.drop_last()), s.last())
    }
}

/// Sorts an entry list by pair, keeping only the last entry of each pair.
pub fn sorted_unique_entries(entries: &Vec<(u32, u32, Color)>) -> (r: Vec<(u32, u32, Color)>)
    ensures
        r@ == sorted_unique_spec(entries@),
{
    let mut acc: Vec<(u32, u32, Color)> = Vec::new();
    let len = entries.len();
    for i in 0..len
        invariant
            len == entries@.len(),
            acc@ == sorted_unique_spec(entries@.take(i as int)),
    {
        proof {
            assert(entries@.take(i + 1).drop_last() =~= entries@.take(i as int));
        }
        let e = entries[i];
        insert_entry_exec(&mut acc, e);
    }
    proof {
        assert(entries@.take(len as int) =~= entries@);
    }
    acc
}

/// Inserts one entry into a sorted accumulator, as `insert_entry` does.
fn insert_entry_exec(acc: &mut Vec<(u32, u32, Color)>, e: (u32, u32, Color))
    ensures
        final(acc)@ == insert_entry(old(acc)@, e),
    decreases old(acc)@.len(),
{
    if acc.len() == 0 {
        acc.push(e);
        proof {
            assert(acc@ =~= insert_entry(old(acc)@, e));
        }
        return ;
    }
    let last = acc[acc.len() - 1];
    if last.0 == e.0 && last.1 == e.1 {
        let _ = acc.pop();
        acc.push(e);
        proof {
            assert(acc@ =~= insert_entry(old(acc)@, e));
        }
    } else if last.0 < e.0 || (last.0 == e.0 && last.1 < e.1) {
        acc.push(e);
    } else {
        let popped = acc.pop();
        insert_entry_exec(acc, e);
        acc.push(last);
    }
}

} // verus!
