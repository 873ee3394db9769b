//! Pure presentation data derived from protocol objects: triad catalogs,
//! challenge focus summaries, per-round spot check rows, and Merkle path
//! walks, for a host dashboard to render.

use vstd::prelude::*;

use crate::coloring::{canon9, ColorationSet};
use crate::graph::{color_from_u8_spec, sorted_unique_entries, sorted_unique_spec, Color, Spot};
use crate::merkle::{ChunkedMerkleProof, MerkleProof};
use crate::messages::{BlankChallengeResponse, SpotChallengeResponse, SpotResponse};
use crate::verification::{entries_matrix, response_entries};

verus! {

/// Relies on String::push: appends one character.
#[verifier::external_body]
fn string_push(s: &mut String, c: char)
    ensures
        final(s)@ == old(s)@.push(c),
{
    s.push(c)
}

/// Relies on String::push_str: appends a string slice's characters.
#[verifier::external_body]
fn string_push_str(s: &mut String, t: &str)
    ensures
        final(s)@ == old(s)@ + t@,
{
    s.push_str(t)
}

/// The decimal digits of an integer, as characters.
pub open spec fn decimal_of(x: nat) -> Seq<char>
    decreases x,
{
    if x < 10 {
        seq![(x + 48) as char]
    } else {
        decimal_of(x / 10).push(((x % 10) + 48) as char)
    }
}

/// Relies on core::fmt's Display for u64 through the format macro: the
/// decimal digits of the value.
#[verifier::external_body]
fn u64_to_string(x: u64) -> (r: String)
    ensures
        r@ == decimal_of(x as nat),
{
    format!("{}", x)
}

/// The lowercase hex digit of a value below 16.
pub open spec fn hex_digit(v: u8) -> char {
    if v < 10 {
        (v + 48) as char
    } else {
        (v + 87) as char
    }
}

/// The lowercase hex encoding of a byte string, two digits per byte.
pub open spec fn hex_of(s: Seq<u8>) -> Seq<char>
    decreases s.len(),
{
    if s.len() == 0 {
        Seq::empty()
    } else {
        hex_of(s.drop_last()) + seq![
            hex_digit(s.last() / 16),
            hex_digit(s.last() % 16),
        ]
    }
}

/// Relies on hex::encode: the lowercase hex digits of the bytes, two per
/// byte, in order.
#[verifier::external_body]
fn to_hex_string(b: &[u8]) -> (r: String)
    ensures
        r@ == hex_of(b@),
{
    hex::encode(b)
}

/// The catalog of admitted triad patterns, for display.
#[derive(Debug, Clone)]
pub struct TriadCatalog {
    pub total: usize,
    pub patterns: Vec<TriadPatternView>,
}

/// One admitted pattern: its position, a compact signature, its three rows
/// pretty-printed, and its nine edges.
#[derive(Debug, Clone)]
pub struct TriadPatternView {
    pub id: usize,
    pub signature: String,
    pub rows: [String; 3],
    pub edges: Vec<TriadEdgeView>,
}

/// One edge of a displayed pattern.
#[derive(Debug, Clone)]
pub struct TriadEdgeView {
    pub from: u32,
    pub to: u32,
    pub color: Color,
}

/// Short hex prefixes of the three commitments, for display.
#[derive(Debug, Clone)]
pub struct CommitmentSummary {
    pub graph_root: String,
    pub perm_root: String,
    pub blank_root: String,
}

/// One round's progress line.
#[derive(Debug, Clone)]
pub struct RoundSnapshot {
    pub round: Option<u32>,
    pub phase: String,
    pub detail: String,
    pub status: String,
}

/// What a challenge touched: a title, a description, the challenged triads,
/// and the opened edges.
#[derive(Debug, Clone)]
pub struct ChallengeFocus {
    pub title: String,
    pub description: String,
    pub triads: Vec<[u32; 3]>,
    pub edges: Vec<EdgeHighlight>,
}

/// One verified spot, for the round history.
#[derive(Debug, Clone)]
pub struct SpotCheckDisplay {
    pub round_label: String,
    pub nodes: [u32; 3],
    pub signature: String,
    pub rows: [String; 3],
    pub in_set: bool,
    pub edges: Vec<EdgeHighlight>,
}

/// One highlighted edge.
#[derive(Debug, Clone)]
pub struct EdgeHighlight {
    pub from: u32,
    pub to: u32,
    pub color: Color,
}

/// A Merkle opening rendered as its two hash walks.
#[derive(Debug, Clone)]
pub struct MerkleDisplay {
    pub label: String,
    pub chunk_path: Vec<MerkleStep>,
    pub leaf_path: Vec<MerkleStep>,
}

/// One step of a rendered hash walk.
#[derive(Debug, Clone)]
pub struct MerkleStep {
    pub level: usize,
    pub direction: String,
    pub hash: String,
}

/// One loop edge of a rendered graph.
#[derive(Debug, Clone)]
pub struct SelfLoopSegment {
    pub node: u32,
    pub color: Color,
}

/// The color a pattern byte displays as; undecodable bytes display blank.
pub open spec fn color_of_byte(v: u8) -> Color {
    match color_from_u8_spec(v) {
        Some(c) => c,
        None => Color::Blank,
    }
}

/// The display symbol of a color.
pub open spec fn symbol_of(c: Color) -> char {
    match c {
        Color::Red => 'R',
        Color::Green => 'G',
        Color::Yellow => 'Y',
        Color::Blank => '_',
    }
}

/// The display symbol of a color.
fn color_symbol(color: Color) -> (r: char)
    ensures
        r == symbol_of(color),
{
    match color {
        Color::Red => 'R',
        Color::Green => 'G',
        Color::Yellow => 'Y',
        Color::Blank => '_',
    }
}

/// The symbols of a 9-byte key, in order.
pub open spec fn key_symbols(key: Seq<u8>) -> Seq<char> {
    Seq::new(9, |k: int| symbol_of(color_of_byte(key[k])))
}

/// The compact signature of a key: its three rows of symbols joined by bars.
pub open spec fn key_signature(key: Seq<u8>) -> Seq<char> {
    let y = key_symbols(key);
    seq![y[0], y[1], y[2], '|', y[3], y[4], y[5], '|', y[6], y[7], y[8]]
}

/// One pretty row of a key: its three symbols separated by spaces.
pub open spec fn key_row(key: Seq<u8>, row: int) -> Seq<char> {
    let y = key_symbols(key);
    seq![y[3 * row], ' ', y[3 * row + 1], ' ', y[3 * row + 2]]
}

/// Renders one row of a key.
fn build_key_row(key: &[u8; 9], row: usize) -> (r: String)
    requires
        row < 3,
    ensures
        r@ == key_row(key@, row as int),
{
    let mut out = String::new();
    string_push(&mut out, key_symbol(key, 3 * row));
    string_push(&mut out, ' ');
    string_push(&mut out, key_symbol(key, 3 * row + 1));
    string_push(&mut out, ' ');
    string_push(&mut out, key_symbol(key, 3 * row + 2));
    proof {
        assert(out@ =~= key_row(key@, row as int));
    }
    out
}

/// Decodes a pattern byte, displaying undecodable bytes as blank.
fn byte_color(v: u8) -> (r: Color)
    ensures
        r == color_of_byte(v),
{
    match Color::from_u8(v) {
        Some(c) => c,
        None => Color::Blank,
    }
}

/// Reads and symbolizes one byte of a key.
fn key_symbol(key: &[u8; 9], k: usize) -> (r: char)
    requires
        k < 9,
    ensures
        r == key_symbols(key@)[k as int],
{
    color_symbol(byte_color(key[k]))
}

/// Renders the compact signature of a key.
#[verifier::rlimit(60)]
fn build_key_signature(key: &[u8; 9]) -> (r: String)
    ensures
        r@ == key_signature(key@),
{
    let mut out = String::new();
    string_push(&mut out, key_symbol(key, 0));
    string_push(&mut out, key_symbol(key, 1));
    string_push(&mut out, key_symbol(key, 2));
    string_push(&mut out, '|');
    string_push(&mut out, key_symbol(key, 3));
    string_push(&mut out, key_symbol(key, 4));
    string_push(&mut out, key_symbol(key, 5));
    string_push(&mut out, '|');
    string_push(&mut out, key_symbol(key, 6));
    string_push(&mut out, key_symbol(key, 7));
    string_push(&mut out, key_symbol(key, 8));
    proof {
        assert(out@ =~= key_signature(key@));
    }
    out
}

/// The nine displayed edges of a key, row-major over positions 0..3.
pub open spec fn key_edges(key: Seq<u8>) -> Seq<TriadEdgeView> {
    Seq::new(
        9,
        |k: int| TriadEdgeView {
            from: (k / 3) as u32,
            to: (k % 3) as u32,
            color: color_of_byte(key[k]),
        },
    )
}

/// Renders the nine edges of a key.
fn triad_edges_from_key(key: &[u8; 9]) -> (r: Vec<TriadEdgeView>)
    ensures
        r@ == key_edges(key@),
{
    let mut edges: Vec<TriadEdgeView> = Vec::new();
    for row in 0..3usize
        invariant
            edges@.len() == 3 * row,
            forall|q: int| 0 <= q < 3 * row ==> edges@[q] == key_edges(key@)[q],
    {
        for col in 0..3usize
            invariant
                row < 3,
                edges@.len() == 3 * row + col,
                forall|q: int| 0 <= q < 3 * row + col ==> edges@[q] == key_edges(key@)[q],
        {
            let color = byte_color(key[3 * row + col]);
            edges.push(TriadEdgeView { from: row as u32, to: col as u32, color });
            proof {
                crate::graph::lemma_row_major_index(3, row as int, col as int);
            }
        }
    }
    proof {
        assert(edges@ =~= key_edges(key@));
    }
    edges
}

impl TriadPatternView {
    /// Renders one admitted key under a catalog position.
    fn from_key(id: usize, key: &[u8; 9]) -> (r: TriadPatternView)
        ensures
            r.id == id,
            r.signature@ == key_signature(key@),
            r.rows@[0]@ == key_row(key@, 0),
            r.rows@[1]@ == key_row(key@, 1),
            r.rows@[2]@ == key_row(key@, 2),
            r.edges@ == key_edges(key@),
    {
        let signature = build_key_signature(key);
        let r0 = build_key_row(key, 0);
        let r1 = build_key_row(key, 1);
        let r2 = build_key_row(key, 2);
        let edges = triad_edges_from_key(key);
        let rows: [String; 3] = [r0, r1, r2];
        TriadPatternView { id, signature, rows, edges }
    }
}

impl TriadCatalog {
    /// Renders every admitted pattern of a coloration set, in insertion
    /// order, numbered from one.
    pub fn from_coloration(coloration: &ColorationSet) -> (r: TriadCatalog)
        ensures
            r.total == coloration.spec_keys().len(),
            r.patterns@.len() == coloration.spec_keys().len(),
            forall|i: int|
                0 <= i < r.patterns@.len() ==> {
                    &&& (#[trigger] r.patterns@[i]).id == i + 1
                    &&& r.patterns@[i].signature@ == key_signature(coloration.spec_keys()[i]@)
                    &&& r.patterns@[i].edges@ == key_edges(coloration.spec_keys()[i]@)
                },
    {
        let keys = coloration.patterns();
        let mut patterns: Vec<TriadPatternView> = Vec::new();
        let len = keys.len();
        for i in 0..len
            invariant
                len == keys@.len(),
                keys@ == coloration.spec_keys(),
                patterns@.len() == i,
                forall|q: int|
                    0 <= q < i ==> {
                        &&& (#[trigger] patterns@[q]).id == q + 1
                        &&& patterns@[q].signature@ == key_signature(coloration.spec_keys()[q]@)
                        &&& patterns@[q].edges@ == key_edges(coloration.spec_keys()[q]@)
                    },
        {
            let view = TriadPatternView::from_key(i + 1, &keys[i]);
            patterns.push(view);
        }
        TriadCatalog { total: coloration.pattern_count(), patterns }
    }
}

/// The highlights of a sequence of spot responses, in order.
pub open spec fn spot_highlights(rs: Seq<SpotResponse>) -> Seq<EdgeHighlight>
    decreases rs.len(),
{
    if rs.len() == 0 {
        Seq::empty()
    } else {
        spot_highlights(rs.drop_last()) + rs.last().edges@.map_values(
            |o: crate::messages::SpotEdgeOpening| EdgeHighlight {
                from: o.from,
                to: o.to,
                color: o.color,
            },
        )
    }
}

/// Summarizes a spot response: the challenged triads and every opened edge.
pub fn focus_from_spot_response(
    challenge_label: &str,
    spots: &Vec<[u32; 3]>,
    response: &SpotChallengeResponse,
) -> (r: ChallengeFocus)
    ensures
        r.title@ == "Spot challenge "@ + challenge_label@,
        r.description@ == decimal_of(spots@.len()) + " triads verified"@,
        r.triads@ == spots@,
        r.edges@ == spot_highlights(response.responses@),
{
    let mut title = String::new();
    string_push_str(&mut title, "Spot challenge ");
    string_push_str(&mut title, challenge_label);
    proof {
        assert(title@ =~= "Spot challenge "@ + challenge_label@);
    }

    let mut description = u64_to_string(spots.len() as u64);
    string_push_str(&mut description, " triads verified");

    let mut triads: Vec<[u32; 3]> = Vec::new();
    let nspots = spots.len();
    for k in 0..nspots
        invariant
            nspots == spots@.len(),
            triads@ == spots@.take(k as int),
    {
        proof {
            assert(spots@.take(k + 1) =~= spots@.take(k as int).push(spots@[k as int]));
        }
        triads.push(spots[k]);
    }
    proof {
        assert(spots@.take(nspots as int) =~= spots@);
    }

    let mut edges: Vec<EdgeHighlight> = Vec::new();
    let nresp = response.responses.len();
    for k in 0..nresp
        invariant
            nresp == response.responses@.len(),
            edges@ == spot_highlights(response.responses@.take(k as int)),
    {
        let witness = &response.responses[k];
        let nedges = witness.edges.len();
        let ghost base = edges@;
        for e in 0..nedges
            invariant
                k < nresp,
                nresp == response.responses@.len(),
                *witness == response.responses@[k as int],
                nedges == witness.edges@.len(),
                edges@ == base + witness.edges@.take(e as int).map_values(
                    |o: crate::messages::SpotEdgeOpening| EdgeHighlight {
                        from: o.from,
                        to: o.to,
                        color: o.color,
                    },
                ),
        {
            let edge = &witness.edges[e];
            edges.push(EdgeHighlight { from: edge.from, to: edge.to, color: edge.color });
            proof {
                assert(edges@ =~= base + witness.edges@.take(e + 1).map_values(
                    |o: crate::messages::SpotEdgeOpening| EdgeHighlight {
                        from: o.from,
                        to: o.to,
                        color: o.color,
                    },
                ));
            }
        }
        proof {
            assert(witness.edges@.take(nedges as int) =~= witness.edges@);
            assert(response.responses@.take(k + 1).drop_last() =~= response.responses@.take(
                k as int,
            ));
            assert(response.responses@.take(k + 1).last() == response.responses@[k as int]);
        }
    }
    proof {
        assert(response.responses@.take(nresp as int) =~= response.responses@);
    }

    ChallengeFocus { title, description, triads, edges }
}

/// The highlights of a blank response's opened edges, in order.
pub open spec fn blank_highlights(response: BlankChallengeResponse) -> Seq<EdgeHighlight> {
    response.edges@.map_values(
        |o: crate::messages::BlankEdgeOpening| EdgeHighlight {
            from: o.from,
            to: o.to,
            color: o.color,
        },
    )
}

/// Summarizes a blank response: the probed edges.
pub fn focus_from_blank_response(
    challenge_label: &str,
    edge_indices: &Vec<u64>,
    response: &BlankChallengeResponse,
) -> (r: ChallengeFocus)
    ensures
        r.title@ == "Blank challenge "@ + challenge_label@,
        r.description@ == decimal_of(edge_indices@.len()) + " edges probed"@,
        r.triads@.len() == 0,
        r.edges@ == blank_highlights(*response),
{
    let mut title = String::new();
    string_push_str(&mut title, "Blank challenge ");
    string_push_str(&mut title, challenge_label);
    proof {
        assert(title@ =~= "Blank challenge "@ + challenge_label@);
    }

    let mut description = u64_to_string(edge_indices.len() as u64);
    string_push_str(&mut description, " edges probed");

    let mut edges: Vec<EdgeHighlight> = Vec::new();
    let nedges = response.edges.len();
    for e in 0..nedges
        invariant
            nedges == response.edges@.len(),
            edges@ == response.edges@.take(e as int).map_values(
                |o: crate::messages::BlankEdgeOpening| EdgeHighlight {
                    from: o.from,
                    to: o.to,
                    color: o.color,
                },
            ),
    {
        let opening = &response.edges[e];
        edges.push(EdgeHighlight { from: opening.from, to: opening.to, color: opening.color });
        proof {
            assert(edges@ =~= response.edges@.take(e + 1).map_values(
                |o: crate::messages::BlankEdgeOpening| EdgeHighlight {
                    from: o.from,
                    to: o.to,
                    color: o.color,
                },
            ));
        }
    }
    proof {
        assert(response.edges@.take(nedges as int) =~= response.edges@);
        assert(edges@ =~= blank_highlights(*response));
    }

    ChallengeFocus { title, description, triads: Vec::new(), edges }
}

/// One pretty row of a 9-byte color matrix: its three symbols separated by
/// spaces.
pub open spec fn matrix_row(m: Seq<u8>, row: int) -> Seq<char> {
    seq![
        symbol_of(color_of_byte(m[3 * row])),
        ' ',
        symbol_of(color_of_byte(m[3 * row + 1])),
        ' ',
        symbol_of(color_of_byte(m[3 * row + 2])),
    ]
}

/// The compact signature of a 9-byte color matrix.
pub open spec fn matrix_signature(m: Seq<u8>) -> Seq<char> {
    let y = Seq::new(9, |k: int| symbol_of(color_of_byte(m[k])));
    seq![y[0], y[1], y[2], '|', y[3], y[4], y[5], '|', y[6], y[7], y[8]]
}

/// Summarizes each triad of a spot response for the round history: its
/// signature and rows, whether its canonical key is admitted, and its
/// distinct opened edges sorted by pair.
pub fn spot_checks_from_response(
    round_label: &str,
    response: &SpotChallengeResponse,
    coloration: &ColorationSet,
) -> (r: Vec<SpotCheckDisplay>)
    requires
        coloration.wf(),
    ensures
        r@.len() == response.responses@.len(),
        forall|k: int|
            0 <= k < r@.len() ==> {
                &&& (#[trigger] r@[k]).round_label@ == round_label@
                &&& r@[k].nodes == response.responses@[k].nodes
                &&& r@[k].in_set == coloration.has_key(
                    canon9(
                        entries_matrix(
                            response.responses@[k].nodes,
                            response_entries(response.responses@[k]),
                        ),
                    ),
                )
                &&& r@[k].signature@ == matrix_signature(
                    entries_matrix(
                        response.responses@[k].nodes,
                        response_entries(response.responses@[k]),
                    ),
                )
                &&& r@[k].rows@[0]@ == matrix_row(
                    entries_matrix(
                        response.responses@[k].nodes,
                        response_entries(response.responses@[k]),
                    ),
                    0,
                )
                &&& r@[k].rows@[1]@ == matrix_row(
                    entries_matrix(
                        response.responses@[k].nodes,
                        response_entries(response.responses@[k]),
                    ),
                    1,
                )
                &&& r@[k].rows@[2]@ == matrix_row(
                    entries_matrix(
                        response.responses@[k].nodes,
                        response_entries(response.responses@[k]),
                    ),
                    2,
                )
                &&& r@[k].edges@ == sorted_unique_spec(
                    response_entries(response.responses@[k]),
                ).map_values(
                    |t: (u32, u32, Color)| EdgeHighlight { from: t.0, to: t.1, color: t.2 },
                )
            },
{
    let mut out: Vec<SpotCheckDisplay> = Vec::new();
    let nresp = response.responses.len();
    for k in 0..nresp
        invariant
            coloration.wf(),
            nresp == response.responses@.len(),
            out@.len() == k,
            forall|q: int|
                0 <= q < k ==> {
                    &&& (#[trigger] out@[q]).round_label@ == round_label@
                    &&& out@[q].nodes == response.responses@[q].nodes
                    &&& out@[q].in_set == coloration.has_key(
                        canon9(
                            entries_matrix(
                                response.responses@[q].nodes,
                                response_entries(response.responses@[q]),
                            ),
                        ),
                    )
                    &&& out@[q].signature@ == matrix_signature(
                        entries_matrix(
                            response.responses@[q].nodes,
                            response_entries(response.responses@[q]),
                        ),
                    )
                    &&& out@[q].rows@[0]@ == matrix_row(
                        entries_matrix(
                            response.responses@[q].nodes,
                            response_entries(response.responses@[q]),
                        ),
                        0,
                    )
                    &&& out@[q].rows@[1]@ == matrix_row(
                        entries_matrix(
                            response.responses@[q].nodes,
                            response_entries(response.responses@[q]),
                        ),
                        1,
                    )
                    &&& out@[q].rows@[2]@ == matrix_row(
                        entries_matrix(
                            response.responses@[q].nodes,
                            response_entries(response.responses@[q]),
                        ),
                        2,
                    )
                    &&& out@[q].edges@ == sorted_unique_spec(
                        response_entries(response.responses@[q]),
                    ).map_values(
                        |t: (u32, u32, Color)| EdgeHighlight { from: t.0, to: t.1, color: t.2 },
                    )
                },
    {
        let resp = &response.responses[k];
        let spot = spot_from_response(resp);
        let in_set = coloration.contains(&spot);
        proof {
            assert(crate::graph::spot_matrix(spot) =~= entries_matrix(
                resp.nodes,
                response_entries(*resp),
            ));
        }
        let r0 = build_spot_row(&spot, 0);
        let r1 = build_spot_row(&spot, 1);
        let r2 = build_spot_row(&spot, 2);
        let signature = build_spot_signature(&spot);
        let sorted = sorted_unique_entries(&spot.edges);
        let mut edges: Vec<EdgeHighlight> = Vec::new();
        let nsorted = sorted.len();
        for e in 0..nsorted
            invariant
                nsorted == sorted@.len(),
                edges@.len() == e,
                forall|q: int|
                    0 <= q < e ==> (#[trigger] edges@[q]) == (EdgeHighlight {
                        from: sorted@[q].0,
                        to: sorted@[q].1,
                        color: sorted@[q].2,
                    }),
        {
            let entry = sorted[e];
            edges.push(EdgeHighlight { from: entry.0, to: entry.1, color: entry.2 });
        }
        proof {
            assert(edges@ =~= sorted@.map_values(
                |t: (u32, u32, Color)| EdgeHighlight { from: t.0, to: t.1, color: t.2 },
            ));
        }
        let rows: [String; 3] = [r0, r1, r2];
        out.push(
            SpotCheckDisplay {
                round_label: round_label.to_owned(),
                nodes: resp.nodes,
                signature,
                rows,
                in_set,
                edges,
            },
        );
    }
    out
}

/// Rebuilds the spot a response opened, entry by entry.
fn spot_from_response(response: &SpotResponse) -> (s: Spot)
    ensures
        s.nodes == response.nodes,
        s.edges@ == response_entries(*response),
{
    let mut edges: Vec<(u32, u32, Color)> = Vec::new();
    let nedges = response.edges.len();
    for e in 0..nedges
        invariant
            nedges == response.edges@.len(),
            edges@ == response_entries(*response).take(e as int),
    {
        let edge = &response.edges[e];
        proof {
            assert(response_entries(*response).take(e + 1) =~= response_entries(
                *response,
            ).take(e as int).push((edge.from, edge.to, edge.color)));
        }
        edges.push((edge.from, edge.to, edge.color));
    }
    proof {
        assert(response_entries(*response).take(nedges as int) =~= response_entries(*response));
    }
    Spot { nodes: response.nodes, edges }
}

/// Reads and symbolizes one cell of a rebuilt spot.
fn spot_symbol(spot: &Spot, row: usize, col: usize) -> (r: char)
    requires
        row < 3,
        col < 3,
    ensures
        r == symbol_of(
            color_of_byte(crate::graph::spot_matrix(*spot)[3 * row as int + col as int]),
        ),
{
    let color = spot.lookup(spot.nodes[row], spot.nodes[col]);
    proof {
        crate::graph::lemma_color_u8_round_trip(color);
    }
    color_symbol(color)
}

/// Renders one row of a rebuilt spot.
fn build_spot_row(spot: &Spot, row: usize) -> (r: String)
    requires
        row < 3,
    ensures
        r@ == matrix_row(crate::graph::spot_matrix(*spot), row as int),
{
    let mut out = String::new();
    string_push(&mut out, spot_symbol(spot, row, 0));
    string_push(&mut out, ' ');
    string_push(&mut out, spot_symbol(spot, row, 1));
    string_push(&mut out, ' ');
    string_push(&mut out, spot_symbol(spot, row, 2));
    proof {
        assert(out@ =~= matrix_row(crate::graph::spot_matrix(*spot), row as int));
    }
    out
}

/// Renders the compact signature of a rebuilt spot.
#[verifier::rlimit(100)]
fn build_spot_signature(spot: &Spot) -> (r: String)
    ensures
        r@ == matrix_signature(crate::graph::spot_matrix(*spot)),
{
    let mut out = String::new();
    string_push(&mut out, spot_symbol(spot, 0, 0));
    string_push(&mut out, spot_symbol(spot, 0, 1));
    string_push(&mut out, spot_symbol(spot, 0, 2));
    string_push(&mut out, '|');
    string_push(&mut out, spot_symbol(spot, 1, 0));
    string_push(&mut out, spot_symbol(spot, 1, 1));
    string_push(&mut out, spot_symbol(spot, 1, 2));
    string_push(&mut out, '|');
    string_push(&mut out, spot_symbol(spot, 2, 0));
    string_push(&mut out, spot_symbol(spot, 2, 1));
    string_push(&mut out, spot_symbol(spot, 2, 2));
    proof {
        assert(out@ =~= matrix_signature(crate::graph::spot_matrix(*spot)));
    }
    out
}

/// Renders a chunked opening as its two hash walks.
pub fn merkle_display_from_chunked(label: &str, proof: &ChunkedMerkleProof) -> (r: MerkleDisplay)
    ensures
        r.label@ == label@,
        r.leaf_path@.len() == proof.leaf_proof.path@.len() + 1,
        r.chunk_path@.len() == proof.chunk_proof.path@.len() + 1,
{
    MerkleDisplay {
        label: label.to_owned(),
        leaf_path: steps_from_merkle_proof(&proof.leaf_proof),
        chunk_path: steps_from_merkle_proof(&proof.chunk_proof),
    }
}

/// Renders one Merkle path: the leaf hash at level zero, then each sibling
/// hash with its side, all in lowercase hex.
fn steps_from_merkle_proof(proof: &MerkleProof) -> (r: Vec<MerkleStep>)
    ensures
        r@.len() == proof.path@.len() + 1,
        r@[0].level == 0,
        r@[0].hash@ == hex_of(proof.leaf_hash@),
        forall|i: int|
            1 <= i < r@.len() ==> {
                &&& (#[trigger] r@[i]).level == i
                &&& r@[i].hash@ == hex_of(proof.path@[i - 1].0@)
            },
{
    let mut steps: Vec<MerkleStep> = Vec::new();
    steps.push(
        MerkleStep {
            level: 0,
            direction: "leaf".to_owned(),
            hash: to_hex_string(proof.leaf_hash.as_slice()),
        },
    );
    let len = proof.path.len();
    for i in 0..len
        invariant
            len == proof.path@.len(),
            steps@.len() == i + 1,
            steps@[0].level == 0,
            steps@[0].hash@ == hex_of(proof.leaf_hash@),
            forall|q: int|
                1 <= q < steps@.len() ==> {
                    &&& (#[trigger] steps@[q]).level == q
                    &&& steps@[q].hash@ == hex_of(proof.path@[q - 1].0@)
                },
    {
        let (sibling, is_right) = proof.path[i];
        let direction = if is_right {
            "sibling-right".to_owned()
        } else {
            "sibling-left".to_owned()
        };
        steps.push(MerkleStep { level: i + 1, direction, hash: to_hex_string(sibling.as_slice()) });
    }
    steps
}

} // verus!
