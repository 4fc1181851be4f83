//! Reading O-type meshes.
//!
//! The file format is
//!
//! ```text
//! i_total j_total
//! x y          <- ring by ring, counter-clockwise within a ring, i_total*j_total lines
//! ```
//!
//! If every ring repeats its first node at its end (a closed mesh), the repeated
//! last node is dropped and `j_total` shrinks by one.
//!
//! The node type is a parameter: reading a coordinate and deciding whether two
//! nodes coincide are floating-point matters that the caller supplies as
//! closures; everything else (lines, header, counts, ordering of the checks,
//! trimming of the closing column, size limits) is decided here.

use crate::text::{
    views, chars_of, lines, parse_usize, parse_usize_chars, split_words, string_of, text_lines, trim,
    trim_chars, words,
};
use vstd::arithmetic::div_mod::{lemma_fundamental_div_mod_converse, lemma_mod_add_multiples_vanish};
use vstd::prelude::*;

verus! {

/// Declares `std::io::Error` to Verus so that [`MeshError::Io`] can carry it.
/// The type is opaque: nothing is claimed about its contents.
#[verifier::external_type_specification]
#[verifier::external_body]
pub struct ExIoError(std::io::Error);

/// Mesh reading errors.
#[derive(Debug)]
pub enum MeshError {
    /// the mesh file could not be read
    Io(std::io::Error),
    /// the first line is not `i_total j_total` (the trimmed line)
    BadHeader(String),
    /// no header line, or no node
    Empty,
    /// the header announced `expected` nodes, the file holds `got`
    CountMismatch { expected: usize, got: usize },
    /// the point line at 1-based file line `line` (trimmed text) is not two coordinates
    BadPoint { line: usize, text: String },
    /// fewer than 4 rings or 8 nodes per ring (after trimming a closed mesh)
    TooSmall { ni: usize, nj: usize },
}

/// Model of a [`MeshError`]: the same variants with their text as characters.
pub enum MeshErrorView {
    Io,
    BadHeader(Seq<char>),
    Empty,
    CountMismatch { expected: nat, got: nat },
    BadPoint { line: nat, text: Seq<char> },
    TooSmall { ni: nat, nj: nat },
}

impl View for MeshError {
    type V = MeshErrorView;

    open spec fn view(&self) -> MeshErrorView {
        match self {
            MeshError::Io(_) => MeshErrorView::Io,
            MeshError::BadHeader(h) => MeshErrorView::BadHeader(h@),
            MeshError::Empty => MeshErrorView::Empty,
            MeshError::CountMismatch { expected, got } => MeshErrorView::CountMismatch {
                expected: *expected as nat,
                got: *got as nat,
            },
            MeshError::BadPoint { line, text } => MeshErrorView::BadPoint {
                line: *line as nat,
                text: text@,
            },
            MeshError::TooSmall { ni, nj } => MeshErrorView::TooSmall {
                ni: *ni as nat,
                nj: *nj as nat,
            },
        }
    }
}

impl From<std::io::Error> for MeshError {
    fn from(e: std::io::Error) -> (r: Self) {
        MeshError::Io(e)
    }
}

impl vstd::std_specs::convert::FromSpecImpl<std::io::Error> for MeshError {
    open spec fn obeys_from_spec() -> bool {
        true
    }

    open spec fn from_spec(e: std::io::Error) -> MeshError {
        MeshError::Io(e)
    }
}

// ---------------------------------------------------------------------------
// Error messages.

/// The decimal digit character of `d < 10`.
pub open spec fn digit_char(d: nat) -> char {
    (d + 48) as char
}

/// Decimal representation of `n`, without sign or leading zeros (`"0"` for 0).
pub open spec fn decimal(n: nat) -> Seq<char>
    decreases n,
{
    if n < 10 {
        seq![digit_char(n)]
    } else {
        decimal(n / 10).push(digit_char(n % 10))
    }
}

/// What `format!("{:?}", s)` gives for a string holding `s`: the text in
/// double quotes with the characters that need it escaped.
pub uninterp spec fn debug_quoted(s: Seq<char>) -> Seq<char>;

/// The text of an error that is shown quoted in its message: the header of
/// `BadHeader`, the line of `BadPoint`, empty otherwise.
pub open spec fn quoted_part(e: MeshErrorView) -> Seq<char> {
    match e {
        MeshErrorView::BadHeader(h) => h,
        MeshErrorView::BadPoint { text, .. } => text,
        _ => Seq::empty(),
    }
}

/// The message of an error, given the quoted form `quoted` of its
/// [`quoted_part`] and, for `Io`, the text `io` of the I/O error.
pub open spec fn message_from(e: MeshErrorView, quoted: Seq<char>, io: Seq<char>) -> Seq<char> {
    match e {
        MeshErrorView::Io => "I/O error: "@ + io,
        MeshErrorView::BadHeader(_) => "bad header "@ + quoted + ": expected `i_total j_total`"@,
        MeshErrorView::Empty => "mesh file contains no points"@,
        MeshErrorView::CountMismatch { expected, got } => "expected "@ + decimal(expected)
            + " points from header, found "@ + decimal(got),
        MeshErrorView::BadPoint { line, .. } => "line "@ + decimal(line) + ": cannot parse point "@
            + quoted,
        MeshErrorView::TooSmall { ni, nj } => "mesh "@ + decimal(ni) + "x"@ + decimal(nj)
            + " too small: the JST 4th-order stencil needs at least 4 rings and 8 circumferential points"@,
    }
}

/// The decimal digit character of `d`.
fn digit(d: usize) -> (r: char)
    requires
        d < 10,
    ensures
        r == digit_char(d as nat),
{
    let b: u8 = d as u8 + 48;
    b as char
}

/// The decimal digits of `n` (see [`decimal`]).
fn decimal_chars(n: usize) -> (r: Vec<char>)
    ensures
        r@ == decimal(n as nat),
    decreases n,
{
    if n < 10 {
        let mut v: Vec<char> = Vec::new();
        v.push(digit(n));
        proof {
            assert(v@ =~= seq![digit_char(n as nat)]);
        }
        v
    } else {
        let mut v = decimal_chars(n / 10);
        v.push(digit(n % 10));
        v
    }
}

/// `n` written in decimal, as `format!("{}", n)` writes it.
pub fn decimal_string(n: usize) -> (r: String)
    ensures
        r@ == decimal(n as nat),
{
    let cs = decimal_chars(n);
    string_of(cs.as_slice())
}

/// Calls `format!("{:?}", s)`: Rust's debug quoting of a string. Trusted: the
/// contract only names the result as a function of the characters of `s`.
#[verifier::external_body]
fn quoted(s: &String) -> (r: String)
    ensures
        r@ == debug_quoted(s@),
{
    format!("{:?}", s)
}

/// Calls `format!("{}", e)` on an I/O error. Trusted, with no contract: the
/// text comes from the operating system.
#[verifier::external_body]
fn io_error_text(e: &std::io::Error) -> (r: String) {
    format!("{}", e)
}

impl MeshError {
    /// The message of the error, assembled from `quoted`, the quoted form of
    /// the header or point line it carries (ignored by the other variants),
    /// and `io`, the text of the I/O error (ignored by the other variants).
    pub fn message_with(&self, quoted: &str, io: &str) -> (r: String)
        ensures
            r@ == message_from(self@, quoted@, io@),
    {
        match self {
            MeshError::Io(_) => {
                let mut r = String::from_str("I/O error: ");
                r.append(io);
                r
            },
            MeshError::BadHeader(_) => {
                let mut r = String::from_str("bad header ");
                r.append(quoted);
                r.append(": expected `i_total j_total`");
                r
            },
            MeshError::Empty => String::from_str("mesh file contains no points"),
            MeshError::CountMismatch { expected, got } => {
                let a = decimal_string(*expected);
                let b = decimal_string(*got);
                let mut r = String::from_str("expected ");
                r.append(a.as_str());
                r.append(" points from header, found ");
                r.append(b.as_str());
                r
            },
            MeshError::BadPoint { line, .. } => {
                let a = decimal_string(*line);
                let mut r = String::from_str("line ");
                r.append(a.as_str());
                r.append(": cannot parse point ");
                r.append(quoted);
                r
            },
            MeshError::TooSmall { ni, nj } => {
                let a = decimal_string(*ni);
                let b = decimal_string(*nj);
                let mut r = String::from_str("mesh ");
                r.append(a.as_str());
                r.append("x");
                r.append(b.as_str());
                r.append(
                    " too small: the JST 4th-order stencil needs at least 4 rings and 8 circumferential points",
                );
                r
            },
        }
    }

    /// The human-readable message of the error (what its `Display` shows).
    pub fn message(&self) -> (r: String)
        ensures
            !(self@ is Io) ==> r@ == message_from(self@, debug_quoted(quoted_part(self@)), Seq::empty()),
            self@ is Io ==> exists|t: Seq<char>| r@ == message_from(self@, Seq::empty(), t),
    {
        proof {
            reveal_strlit("");
        }
        match self {
            MeshError::Io(e) => {
                let t = io_error_text(e);
                let r = self.message_with("", t.as_str());
                assert(r@ == message_from(self@, Seq::empty(), t@));
                r
            },
            MeshError::BadHeader(h) => {
                let q = quoted(h);
                self.message_with(q.as_str(), "")
            },
            MeshError::BadPoint { text, .. } => {
                let q = quoted(text);
                self.message_with(q.as_str(), "")
            },
            _ => self.message_with("", ""),
        }
    }
}

/// Model of a [`Mesh`]: ring count, nodes per ring and the nodes ring by ring.
pub struct MeshView<P> {
    pub n_rings: nat,
    pub n_theta: nat,
    pub nodes: Seq<P>,
}

impl<P> MeshView<P> {
    /// The shape every mesh has: the nodes fill the `n_rings x n_theta` grid and
    /// the JST fourth-order stencil fits (at least 4 rings, 8 nodes per ring).
    pub open spec fn wf(self) -> bool {
        &&& self.nodes.len() == self.n_rings * self.n_theta
        &&& self.n_rings >= 4
        &&& self.n_theta >= 8
    }

    /// Node `theta` of ring `ring`, with `theta` taken modulo the ring length.
    pub open spec fn node(self, ring: int, theta: int) -> P {
        self.nodes[ring * self.n_theta + theta % (self.n_theta as int)]
    }
}

/// The nodes of an O-type mesh.
///
/// Nodes are stored `n_rings x n_theta`, ring by ring; a ring is open (its last
/// node is not a copy of its first) and the circumferential index wraps
/// around. The mesh has `(n_rings - 1) x n_theta` cells.
#[derive(Debug)]
pub struct Mesh<P> {
    n_rings: usize,
    n_theta: usize,
    nodes: Vec<P>,
}

impl<P> View for Mesh<P> {
    type V = MeshView<P>;

    closed spec fn view(&self) -> MeshView<P> {
        MeshView { n_rings: self.n_rings as nat, n_theta: self.n_theta as nat, nodes: self.nodes@ }
    }
}

// ---------------------------------------------------------------------------
// Specification of the file format.

/// The trimmed header line split into words.
pub open spec fn header_words(text: Seq<char>) -> Seq<Seq<char>> {
    words(trim(text_lines(text)[0]))
}

/// `(i_total, j_total)` read from the header, if its first two words are
/// `usize` literals.
pub open spec fn parsed_header(text: Seq<char>) -> Option<(usize, usize)> {
    let w = header_words(text);
    if text_lines(text).len() > 0 && w.len() >= 2 && parse_usize(w[0]) is Some && parse_usize(
        w[1],
    ) is Some {
        Some((parse_usize(w[0])->0, parse_usize(w[1])->0))
    } else {
        None
    }
}

/// The point lines among the lines after the header, up to (excluding) line
/// index `k`: every line that is not blank once trimmed, as its 1-based line
/// number in the file and its trimmed text.
pub open spec fn point_lines_upto(lines: Seq<Seq<char>>, k: int) -> Seq<(nat, Seq<char>)>
    decreases k,
{
    if k <= 1 {
        Seq::empty()
    } else {
        let prev = point_lines_upto(lines, k - 1);
        let t = trim(lines[k - 1]);
        if t.len() > 0 {
            prev.push((k as nat, t))
        } else {
            prev
        }
    }
}

/// All point lines of `text`.
pub open spec fn point_lines(text: Seq<char>) -> Seq<(nat, Seq<char>)> {
    point_lines_upto(text_lines(text), text_lines(text).len() as int)
}

/// Reading the first `m` point lines, given what the coordinate reader returned
/// for each (`outs`): the nodes read, or the index of the first line that has
/// fewer than two words or that the reader rejected.
pub open spec fn points_upto<P>(pl: Seq<(nat, Seq<char>)>, outs: Seq<Option<P>>, m: int) -> Result<
    Seq<P>,
    int,
>
    decreases m,
{
    if m <= 0 {
        Ok(Seq::empty())
    } else {
        match points_upto(pl, outs, m - 1) {
            Err(e) => Err(e),
            Ok(nodes) => if words(pl[m - 1].1).len() >= 2 && outs[m - 1] is Some {
                Ok(nodes.push(outs[m - 1]->0))
            } else {
                Err(m - 1)
            },
        }
    }
}

/// The nodes after dropping the last node of every ring when `closed`, for a
/// grid of `rings x nt` nodes with `nt >= 2`; otherwise unchanged.
pub open spec fn trimmed<P>(rings: nat, nt: nat, nodes: Seq<P>, closed: bool) -> (nat, Seq<P>) {
    if nt >= 2 && closed {
        let w = (nt - 1) as nat;
        (w, Seq::new(rings * w, |k: int| nodes[(k / (w as int)) * nt + k % (w as int)]))
    } else {
        (nt, nodes)
    }
}

/// The outcome of reading `text`, given the coordinate reader's answers `outs`
/// (one per point line reached) and whether every ring was found closed.
pub open spec fn parse_outcome<P>(text: Seq<char>, outs: Seq<Option<P>>, closed: bool) -> Result<
    MeshView<P>,
    MeshErrorView,
> {
    let ls = text_lines(text);
    if ls.len() == 0 {
        Err(MeshErrorView::Empty)
    } else {
        match parsed_header(text) {
            None => Err(MeshErrorView::BadHeader(trim(ls[0]))),
            Some((ni, nj)) => {
                let pl = point_lines(text);
                match points_upto(pl, outs, pl.len() as int) {
                    Err(m) => Err(MeshErrorView::BadPoint { line: pl[m].0, text: pl[m].1 }),
                    Ok(nodes) => {
                        if nodes.len() == 0 {
                            Err(MeshErrorView::Empty)
                        } else if nodes.len() != ni * nj {
                            Err(
                                MeshErrorView::CountMismatch {
                                    expected: (ni * nj) as nat,
                                    got: nodes.len(),
                                },
                            )
                        } else {
                            let (nt, ns) = trimmed(ni as nat, nj as nat, nodes, closed);
                            if ni < 4 || nt < 8 {
                                Err(MeshErrorView::TooSmall { ni: ni as nat, nj: nt })
                            } else {
                                Ok(MeshView { n_rings: ni as nat, n_theta: nt, nodes: ns })
                            }
                        }
                    },
                }
            },
        }
    }
}

/// The coordinate reader, called on the words `x` and `y`, may answer `o`.
pub open spec fn point_answer<P, F: Fn(&[char], &[char]) -> Option<P>>(
    point: F,
    x: Seq<char>,
    y: Seq<char>,
    o: Option<P>,
) -> bool {
    exists|a: &[char], b: &[char]| a@ == x && b@ == y && call_ensures(point, (a, b), o)
}

/// Every answer in `outs` for a point line that was reached (all earlier lines
/// read) and has two words is one the reader may give for those two words.
pub open spec fn answers_consistent<P, F: Fn(&[char], &[char]) -> Option<P>>(
    point: F,
    pl: Seq<(nat, Seq<char>)>,
    outs: Seq<Option<P>>,
) -> bool {
    forall|m: int|
        #![trigger points_upto(pl, outs, m)]
        0 <= m < pl.len() && points_upto(pl, outs, m) is Ok && words(pl[m].1).len() >= 2
            ==> point_answer(point, words(pl[m].1)[0], words(pl[m].1)[1], outs[m])
}

/// The coincidence test may answer `b` for the first and last node of ring `r`.
pub open spec fn ring_answer<P, G: Fn(&P, &P) -> bool>(
    same: G,
    nt: nat,
    nodes: Seq<P>,
    r: int,
    b: bool,
) -> bool {
    call_ensures(same, (&nodes[r * nt], &nodes[r * nt + nt - 1]), b)
}

/// `closed` agrees with what the coincidence test may answer for the first and
/// last node of each ring: every ring coincides when `closed`, some ring does
/// not otherwise.
pub open spec fn closed_consistent<P, G: Fn(&P, &P) -> bool>(
    same: G,
    rings: nat,
    nt: nat,
    nodes: Seq<P>,
    closed: bool,
) -> bool {
    &&& closed ==> forall|r: int| 0 <= r < rings ==> #[trigger] ring_answer(same, nt, nodes, r, true)
    &&& !closed ==> exists|r: int| 0 <= r < rings && #[trigger] ring_answer(same, nt, nodes, r, false)
}

/// `outs` and `closed` are answers the two closures may have given while
/// `text` was read.
pub open spec fn answers_of<P, F: Fn(&[char], &[char]) -> Option<P>, G: Fn(&P, &P) -> bool>(
    text: Seq<char>,
    point: F,
    same: G,
    outs: Seq<Option<P>>,
    closed: bool,
) -> bool {
    let pl = point_lines(text);
    &&& parsed_header(text) is Some ==> answers_consistent(point, pl, outs)
    &&& parsed_header(text) matches Some((ni, nj)) ==> (points_upto(
        pl,
        outs,
        pl.len() as int,
    ) matches Ok(nodes) ==> (nodes.len() == ni * nj && nj >= 2 ==> closed_consistent(
        same,
        ni as nat,
        nj as nat,
        nodes,
        closed,
    )))
}

/// The model of a parse result.
pub open spec fn result_view<P>(r: Result<Mesh<P>, MeshError>) -> Result<MeshView<P>, MeshErrorView> {
    match r {
        Ok(m) => Ok(m@),
        Err(e) => Err(e@),
    }
}

// ---------------------------------------------------------------------------
// Lemmas about the specification.

/// Going once around a ring returns to the same node: `node(r, t + n_theta)`
/// is `node(r, t)`.
pub proof fn lemma_node_wraps<P>(m: MeshView<P>, ring: int, theta: int)
    requires
        m.wf(),
        0 <= ring < m.n_rings,
        0 <= theta,
    ensures
        m.node(ring, theta + m.n_theta) == m.node(ring, theta),
{
    lemma_mod_add_multiples_vanish(theta, m.n_theta as int);
}

/// Dropping the closing column keeps every other node where it was: node `c`
/// of ring `r` of the trimmed grid is node `c` of ring `r` of the untrimmed one.
pub proof fn lemma_trimmed_keeps_nodes<P>(rings: nat, nt: nat, nodes: Seq<P>, closed: bool, r: int, c: int)
    requires
        nodes.len() == rings * nt,
        0 <= r < rings,
        0 <= c < trimmed(rings, nt, nodes, closed).0,
    ensures
        trimmed(rings, nt, nodes, closed).1.len() == rings * trimmed(rings, nt, nodes, closed).0,
        trimmed(rings, nt, nodes, closed).1[r * trimmed(rings, nt, nodes, closed).0 + c]
            == nodes[r * nt + c],
{
    let (w, ns) = trimmed(rings, nt, nodes, closed);
    if nt >= 2 && closed {
        lemma_ring_bounds(r, c, rings as int, w as int);
        lemma_fundamental_div_mod_converse(r * w + c, w as int, r, c);
    }
}

/// Reading keeps every point it read. Once the header and every point line
/// have been read (`nodes`, in file order): no node means `Empty`; a number of
/// nodes other than `i_total * j_total`, larger or smaller, is reported as
/// `CountMismatch` with both counts; and a mesh that is returned has `i_total`
/// rings holding all the nodes read, either exactly as read or with the last
/// node of every ring (the closing column) dropped and the others in place.
pub proof fn lemma_parse_keeps_every_point<P>(text: Seq<char>, outs: Seq<Option<P>>, closed: bool)
    ensures
        parsed_header(text) matches Some((ni, nj)) ==> (points_upto(
            point_lines(text),
            outs,
            point_lines(text).len() as int,
        ) matches Ok(nodes) ==> {
            &&& nodes.len() == 0 ==> parse_outcome(text, outs, closed) == Err::<MeshView<P>, MeshErrorView>(
                MeshErrorView::Empty,
            )
            &&& nodes.len() > 0 && nodes.len() != ni * nj ==> parse_outcome(text, outs, closed)
                == Err::<MeshView<P>, MeshErrorView>(
                MeshErrorView::CountMismatch { expected: (ni * nj) as nat, got: nodes.len() },
            )
            &&& parse_outcome(text, outs, closed) matches Ok(m) ==> {
                &&& m.n_rings == ni
                &&& m.nodes.len() == m.n_rings * m.n_theta
                &&& (m.n_theta == nj && m.nodes == nodes) || (m.n_theta + 1 == nj && m.nodes.len()
                    + m.n_rings == nodes.len() && forall|r: int, c: int|
                    0 <= r < m.n_rings && 0 <= c < m.n_theta ==> #[trigger] m.nodes[r * m.n_theta + c]
                        == nodes[r * nj + c])
            }
        }),
{
    if let Some((ni, nj)) = parsed_header(text) {
        let pl = point_lines(text);
        if let Ok(nodes) = points_upto(pl, outs, pl.len() as int) {
            if text_lines(text).len() > 0 && nodes.len() == ni * nj && nodes.len() > 0 {
                let (nt, ns) = trimmed(ni as nat, nj as nat, nodes, closed);
                if nj >= 2 && closed {
                    assert(ns.len() + ni == nodes.len()) by (nonlinear_arith)
                        requires
                            ns.len() == ni * nt,
                            nt + 1 == nj,
                            nodes.len() == ni * nj,
                    ;
                    assert forall|r: int, c: int| 0 <= r < ni && 0 <= c < nt implies #[trigger] ns[r * nt + c]
                        == nodes[r * nj + c] by {
                        lemma_trimmed_keeps_nodes(ni as nat, nj as nat, nodes, closed, r, c);
                    }
                }
            }
        }
    }
}

/// Every point line found before line index `k` names a 1-based file line
/// after the header and before `k + 1`, and carries that line's trimmed,
/// non-empty text.
proof fn lemma_point_lines_entries(lines: Seq<Seq<char>>, k: int)
    requires
        k <= lines.len(),
    ensures
        forall|m: int|
            0 <= m < point_lines_upto(lines, k).len() ==> {
                let e = #[trigger] point_lines_upto(lines, k)[m];
                &&& 2 <= e.0 <= k
                &&& e.1 == trim(lines[e.0 - 1])
                &&& e.1.len() > 0
            },
    decreases k,
{
    if k > 1 {
        lemma_point_lines_entries(lines, k - 1);
        let prev = point_lines_upto(lines, k - 1);
        let cur = point_lines_upto(lines, k);
        assert forall|m: int| 0 <= m < cur.len() implies {
            let e = #[trigger] cur[m];
            &&& 2 <= e.0 <= k
            &&& e.1 == trim(lines[e.0 - 1])
            &&& e.1.len() > 0
        } by {
            if m < prev.len() {
                assert(cur[m] == prev[m]);
            }
        }
    }
}

/// How reading fails, stated against the file's lines: a text without lines is
/// `Empty`; a first line that is not a header is reported with its trimmed
/// text; a rejected point line is reported with its 1-based line number in the
/// file (the header being line 1) and its trimmed text; and every mesh
/// returned has a valid header, at least 4 rings and at least 8 nodes per ring.
pub proof fn lemma_parse_reports<P>(text: Seq<char>, outs: Seq<Option<P>>, closed: bool)
    ensures
        text_lines(text).len() == 0 ==> parse_outcome(text, outs, closed) is Err
            && parse_outcome(text, outs, closed)->Err_0 == MeshErrorView::Empty,
        text_lines(text).len() > 0 && parsed_header(text) is None ==> parse_outcome(text, outs, closed)
            is Err && parse_outcome(text, outs, closed)->Err_0 == MeshErrorView::BadHeader(
            trim(text_lines(text)[0]),
        ),
        parse_outcome(text, outs, closed) matches Err(MeshErrorView::BadPoint { line, text: t }) ==> {
            &&& 2 <= line <= text_lines(text).len()
            &&& t == trim(text_lines(text)[line - 1])
            &&& t.len() > 0
        },
        parse_outcome(text, outs, closed) matches Ok(m) ==> {
            &&& parsed_header(text) matches Some((ni, _)) && m.n_rings == ni
            &&& m.n_rings >= 4
            &&& m.n_theta >= 8
        },
{
    let ls = text_lines(text);
    lemma_point_lines_entries(ls, ls.len() as int);
    if ls.len() > 0 && parsed_header(text) is Some {
        let pl = point_lines(text);
        if let Err(m) = points_upto(pl, outs, pl.len() as int) {
            lemma_points_err_index(pl, outs, pl.len() as int);
        }
    }
}

/// A rejected point line is one of the lines read.
proof fn lemma_points_err_index<P>(pl: Seq<(nat, Seq<char>)>, outs: Seq<Option<P>>, m: int)
    ensures
        points_upto(pl, outs, m) matches Err(e) ==> 0 <= e < m,
    decreases m,
{
    if m > 0 {
        lemma_points_err_index(pl, outs, m - 1);
    }
}

/// The point lines found before line `k` are a prefix of those found before
/// line `n`.
proof fn lemma_point_lines_prefix(lines: Seq<Seq<char>>, k: int, n: int)
    requires
        k <= n,
    ensures
        point_lines_upto(lines, k).len() <= point_lines_upto(lines, n).len(),
        point_lines_upto(lines, n).take(point_lines_upto(lines, k).len() as int)
            == point_lines_upto(lines, k),
    decreases n - k,
{
    if k < n {
        lemma_point_lines_prefix(lines, k, n - 1);
        let a = point_lines_upto(lines, k);
        let b = point_lines_upto(lines, n - 1);
        let c = point_lines_upto(lines, n);
        if n > 1 {
            assert(c.take(b.len() as int) =~= b);
        }
        assert(c.take(a.len() as int) =~= b.take(a.len() as int));
    } else {
        assert(point_lines_upto(lines, n).take(point_lines_upto(lines, n).len() as int)
            =~= point_lines_upto(lines, n));
    }
}

/// Reading the first `j` point lines looks at no answer past index `j`.
proof fn lemma_points_push<P>(pl: Seq<(nat, Seq<char>)>, outs: Seq<Option<P>>, x: Option<P>, j: int)
    requires
        j <= outs.len(),
    ensures
        points_upto(pl, outs.push(x), j) == points_upto(pl, outs, j),
    decreases j,
{
    if j > 0 {
        lemma_points_push(pl, outs, x, j - 1);
        assert(outs.push(x)[j - 1] == outs[j - 1]);
    }
}

/// Once a point line is rejected, reading more lines reports the same line.
proof fn lemma_points_err_stable<P>(pl: Seq<(nat, Seq<char>)>, outs: Seq<Option<P>>, j: int, j2: int)
    requires
        j <= j2,
        points_upto(pl, outs, j) is Err,
    ensures
        points_upto(pl, outs, j2) == points_upto(pl, outs, j),
    decreases j2 - j,
{
    if j < j2 {
        lemma_points_err_stable(pl, outs, j, j2 - 1);
    }
}

/// Rings `r < rings` of a `rings x nt` grid end inside the grid.
proof fn lemma_ring_bounds(r: int, c: int, rings: int, nt: int)
    requires
        0 <= r < rings,
        0 <= c < nt,
    ensures
        0 <= r * nt + c < rings * nt,
        r * nt + nt <= rings * nt,
{
    assert(r * nt + nt <= rings * nt) by (nonlinear_arith)
        requires
            0 <= r < rings,
            0 <= nt,
    ;
    assert(0 <= r * nt) by (nonlinear_arith)
        requires
            0 <= r,
            0 <= nt,
    ;
}

// ---------------------------------------------------------------------------
// Reading.

/// Drops the repeated last node of every ring when every ring is closed
/// according to `same`; meshes with fewer than 2 nodes per ring are left alone.
fn trim_closing_duplicate<P: Copy, G: Fn(&P, &P) -> bool>(
    n_rings: usize,
    n_theta: usize,
    nodes: Vec<P>,
    same: G,
) -> (r: (usize, Vec<P>))
    requires
        nodes@.len() == n_rings * n_theta,
        forall|p: &P, q: &P| same.requires((p, q)),
    ensures
        exists|closed: bool|
            (n_theta >= 2 ==> closed_consistent(same, n_rings as nat, n_theta as nat, nodes@, closed))
                && (r.0 as nat, r.1@) == trimmed(n_rings as nat, n_theta as nat, nodes@, closed),
{
    if n_theta < 2 {
        proof {
            assert(trimmed(n_rings as nat, n_theta as nat, nodes@, true) == (n_theta as nat, nodes@));
        }
        return (n_theta, nodes);
    }
    proof {
        assert(nodes@.len() == nodes.len());
    }
    let mut r: usize = 0;
    while r < n_rings
        invariant
            nodes@.len() == n_rings * n_theta,
            n_rings * n_theta <= usize::MAX,
            n_theta >= 2,
            r <= n_rings,
            forall|p: &P, q: &P| same.requires((p, q)),
            forall|r2: int| 0 <= r2 < r ==> #[trigger] ring_answer(same, n_theta as nat, nodes@, r2, true),
        decreases n_rings - r,
    {
        proof {
            lemma_ring_bounds(r as int, 0, n_rings as int, n_theta as int);
            lemma_ring_bounds(r as int, n_theta - 1, n_rings as int, n_theta as int);
        }
        let first = r * n_theta;
        let last = r * n_theta + n_theta - 1;
        let b = same(&nodes[first], &nodes[last]);
        if !b {
            proof {
                assert(ring_answer(same, n_theta as nat, nodes@, r as int, false));
                assert(trimmed(n_rings as nat, n_theta as nat, nodes@, false) == (n_theta as nat, nodes@));
                assert(closed_consistent(same, n_rings as nat, n_theta as nat, nodes@, false));
            }
            return (n_theta, nodes);
        }
        proof {
            assert(ring_answer(same, n_theta as nat, nodes@, r as int, true));
        }
        r = r + 1;
    }
    let w = n_theta - 1;
    proof {
        assert(n_rings * w <= n_rings * n_theta) by (nonlinear_arith)
            requires
                w <= n_theta,
        ;
        assert(nodes@.len() == nodes.len());
    }
    let mut out: Vec<P> = Vec::new();
    let mut i: usize = 0;
    while i < n_rings
        invariant
            nodes@.len() == n_rings * n_theta,
            n_rings * w <= n_rings * n_theta,
            n_rings * n_theta <= usize::MAX,
            w == n_theta - 1,
            n_theta >= 2,
            i <= n_rings,
            out@.len() == i * w,
            forall|k: int|
                #![trigger out@[k]]
                0 <= k < out@.len() ==> out@[k] == nodes@[(k / (w as int)) * n_theta + k % (w as int)],
        decreases n_rings - i,
    {
        let mut c: usize = 0;
        while c < w
            invariant
                nodes@.len() == n_rings * n_theta,
                n_rings * w <= n_rings * n_theta,
                n_rings * n_theta <= usize::MAX,
                w == n_theta - 1,
                n_theta >= 2,
                i < n_rings,
                c <= w,
                out@.len() == i * w + c,
                forall|k: int|
                    #![trigger out@[k]]
                    0 <= k < out@.len() ==> out@[k] == nodes@[(k / (w as int)) * n_theta + k % (w as int)],
            decreases w - c,
        {
            proof {
                lemma_ring_bounds(i as int, c as int, n_rings as int, n_theta as int);
                lemma_fundamental_div_mod_converse((i * w + c) as int, w as int, i as int, c as int);
            }
            out.push(nodes[i * n_theta + c]);
            c = c + 1;
        }
        proof {
            assert(i * w + w == (i + 1) * w) by (nonlinear_arith);
        }
        i = i + 1;
    }
    proof {
        let t = trimmed(n_rings as nat, n_theta as nat, nodes@, true);
        assert(out@ =~= t.1);
        assert(closed_consistent(same, n_rings as nat, n_theta as nat, nodes@, true));
    }
    (w, out)
}

impl<P> Mesh<P> {
    #[verifier::type_invariant]
    spec fn inv(self) -> bool {
        self@.wf()
    }

    /// Number of rings (radial node layers).
    pub fn n_rings(&self) -> (r: usize)
        ensures
            r == self@.n_rings,
            self@.wf(),
    {
        proof {
            use_type_invariant(self);
        }
        self.n_rings
    }

    /// Number of nodes per ring.
    pub fn n_theta(&self) -> (r: usize)
        ensures
            r == self@.n_theta,
            self@.wf(),
    {
        proof {
            use_type_invariant(self);
        }
        self.n_theta
    }

    /// Number of radial cells, `NI = n_rings - 1`.
    pub fn ni(&self) -> (r: usize)
        ensures
            r == self@.n_rings - 1,
            self@.wf(),
    {
        proof {
            use_type_invariant(self);
        }
        self.n_rings - 1
    }

    /// Number of circumferential cells, `NJ = n_theta`.
    pub fn nj(&self) -> (r: usize)
        ensures
            r == self@.n_theta,
            self@.wf(),
    {
        proof {
            use_type_invariant(self);
        }
        self.n_theta
    }

    /// Number of cells, `NI * NJ`.
    pub fn n_cells(&self) -> (r: usize)
        ensures
            r == (self@.n_rings - 1) * self@.n_theta,
            self@.wf(),
    {
        proof {
            use_type_invariant(self);
            assert((self.n_rings - 1) * self.n_theta <= self.n_rings * self.n_theta) by (nonlinear_arith)
                requires
                    self.n_rings >= 1,
            ;
            assert(self.nodes@.len() == self.nodes.len());
        }
        self.ni() * self.nj()
    }
}

/// Whether the node count announced by the header of `text` fits a `usize`
/// (vacuously true when there is no valid header). [`Mesh::parse`] needs it.
pub fn header_count_fits(text: &str) -> (r: bool)
    ensures
        r == (parsed_header(text@) matches Some((ni, nj)) ==> ni * nj <= usize::MAX),
{
    let cs = chars_of(text);
    let ls = lines(cs.as_slice());
    proof {
        assert(views(ls@).len() == ls@.len());
    }
    if ls.len() == 0 {
        return true;
    }
    let hdr = trim_chars(ls[0].as_slice());
    let hw = split_words(hdr.as_slice());
    proof {
        assert(views(ls@)[0] == ls@[0]@);
        assert(views(hw@).len() == hw@.len());
    }
    if hw.len() < 2 {
        return true;
    }
    proof {
        assert(views(hw@)[0] == hw@[0]@);
        assert(views(hw@)[1] == hw@[1]@);
    }
    match (parse_usize_chars(hw[0].as_slice()), parse_usize_chars(hw[1].as_slice())) {
        (Some(a), Some(b)) => a.checked_mul(b).is_some(),
        _ => true,
    }
}

impl<P: Clone> Clone for Mesh<P> {
    fn clone(&self) -> (r: Self)
        ensures
            r@.n_rings == self@.n_rings,
            r@.n_theta == self@.n_theta,
            r@.nodes.len() == self@.nodes.len(),
            forall|k: int| 0 <= k < self@.nodes.len() ==> cloned::<P>(self@.nodes[k], r@.nodes[k]),
    {
        proof {
            use_type_invariant(self);
        }
        Mesh { n_rings: self.n_rings, n_theta: self.n_theta, nodes: self.nodes.clone() }
    }
}

impl<P: Copy> Mesh<P> {
    /// Node `theta` of ring `ring`; the circumferential index wraps around.
    pub fn node(&self, ring: usize, theta: usize) -> (r: P)
        requires
            ring < self@.n_rings,
        ensures
            r == self@.node(ring as int, theta as int),
    {
        proof {
            use_type_invariant(self);
            lemma_ring_bounds(ring as int, (theta % self.n_theta) as int, self.n_rings as int, self.n_theta as int);
            assert(self.nodes@.len() == self.nodes.len());
        }
        self.nodes[ring * self.n_theta + theta % self.n_theta]
    }

    /// Reads a mesh from the text of a mesh file.
    ///
    /// `point` reads the first two words of a point line as a node (`None` if
    /// they are not coordinates); `same` tells whether two nodes coincide.
    /// Checks, in this order: a header line exists (else `Empty`); its first two
    /// words are `usize` literals (else `BadHeader` with the trimmed header);
    /// every non-blank later line has two words that `point` accepts (else
    /// `BadPoint` with the first offending line's number and trimmed text);
    /// there is at least one node (else `Empty`); there are exactly
    /// `i_total * j_total` nodes (else `CountMismatch`); then the closing
    /// column is dropped if every ring is closed, and the mesh must have at
    /// least 4 rings and 8 nodes per ring (else `TooSmall`).
    ///
    /// The announced node count must fit a `usize` ([`header_count_fits`]).
    pub fn parse<F, G>(text: &str, point: F, same: G) -> (r: Result<Mesh<P>, MeshError>) where
        F: Fn(&[char], &[char]) -> Option<P>,
        G: Fn(&P, &P) -> bool,

        requires
            forall|a: &[char], b: &[char]| point.requires((a, b)),
            forall|p: &P, q: &P| same.requires((p, q)),
            parsed_header(text@) matches Some((ni, nj)) ==> ni * nj <= usize::MAX,
        ensures
            exists|outs: Seq<Option<P>>, closed: bool|
                answers_of(text@, point, same, outs, closed) && result_view(r) == parse_outcome(
                    text@,
                    outs,
                    closed,
                ),
            r matches Ok(m) ==> m@.wf(),
    {
        let cs = chars_of(text);
        let ls = lines(cs.as_slice());
        let ghost tl = text_lines(text@);
        proof {
            assert(views(ls@).len() == ls@.len());
        }
        if ls.len() == 0 {
            proof {
                assert(parse_outcome::<P>(text@, Seq::empty(), true) == Err::<MeshView<P>, MeshErrorView>(MeshErrorView::Empty));
                assert(answers_of(text@, point, same, Seq::<Option<P>>::empty(), true));
            }
            return Err(MeshError::Empty);
        }
        let hdr = trim_chars(ls[0].as_slice());
        let hw = split_words(hdr.as_slice());
        proof {
            assert(views(ls@)[0] == ls@[0]@);
            assert(views(hw@).len() == hw@.len());
        }
        let mut ni: usize = 0;
        let mut nj: usize = 0;
        let mut ok = false;
        if hw.len() >= 2 {
            proof {
                assert(views(hw@)[0] == hw@[0]@);
                assert(views(hw@)[1] == hw@[1]@);
            }
            let a = parse_usize_chars(hw[0].as_slice());
            let b = parse_usize_chars(hw[1].as_slice());
            match (a, b) {
                (Some(x), Some(y)) => {
                    ni = x;
                    nj = y;
                    ok = true;
                },
                _ => {},
            }
        }
        if !ok {
            proof {
                assert(parsed_header(text@) is None);
                assert(answers_of(text@, point, same, Seq::<Option<P>>::empty(), true));
            }
            return Err(MeshError::BadHeader(string_of(hdr.as_slice())));
        }
        assert(parsed_header(text@) == Some((ni, nj)));
        let ghost pl = point_lines(text@);
        let mut nodes: Vec<P> = Vec::new();
        let ghost mut outs: Seq<Option<P>> = Seq::empty();
        proof {
            lemma_point_lines_prefix(tl, 1, tl.len() as int);
            assert(pl.take(0) =~= point_lines_upto(tl, 1));
        }
        let mut k: usize = 1;
        while k < ls.len()
            invariant
                views(ls@) == tl,
                tl == text_lines(text@),
                pl == point_lines(text@),
                parsed_header(text@) == Some((ni, nj)),
                forall|a: &[char], b: &[char]| point.requires((a, b)),
                1 <= k <= ls@.len(),
                outs.len() <= pl.len(),
                point_lines_upto(tl, k as int) == pl.take(outs.len() as int),
                points_upto(pl, outs, outs.len() as int) == Ok::<Seq<P>, int>(nodes@),
                forall|m: int|
                    #![trigger points_upto(pl, outs, m)]
                    0 <= m < outs.len() && points_upto(pl, outs, m) is Ok && words(pl[m].1).len()
                        >= 2 ==> point_answer(point, words(pl[m].1)[0], words(pl[m].1)[1], outs[m]),
            decreases ls@.len() - k,
        {
            proof {
                assert(views(ls@)[k as int] == ls@[k as int]@);
                lemma_point_lines_prefix(tl, k + 1, tl.len() as int);
            }
            let t = trim_chars(ls[k].as_slice());
            if t.len() > 0 {
                let ghost m = outs.len() as int;
                proof {
                    let up1 = point_lines_upto(tl, k + 1);
                    assert(up1 == point_lines_upto(tl, k as int).push(((k + 1) as nat, t@)));
                    assert(pl == point_lines_upto(tl, tl.len() as int));
                    assert(up1.len() == m + 1);
                    assert(pl.take(m + 1) == up1);
                    assert(pl[m] == up1[m]);
                    assert(pl[m] == ((k + 1) as nat, t@));
                }
                let ws = split_words(t.as_slice());
                proof {
                    assert(views(ws@).len() == ws@.len());
                }
                let mut got: Option<P> = None;
                if ws.len() >= 2 {
                    proof {
                        assert(views(ws@)[0] == ws@[0]@);
                        assert(views(ws@)[1] == ws@[1]@);
                    }
                    let xa = ws[0].as_slice();
                    let xb = ws[1].as_slice();
                    got = point(xa, xb);
                    proof {
                        assert(point_answer(point, words(pl[m].1)[0], words(pl[m].1)[1], got));
                    }
                }
                let ghost outs2 = outs.push(got);
                proof {
                    lemma_points_push(pl, outs, got, m);
                    assert forall|m2: int|
                        #![trigger points_upto(pl, outs2, m2)]
                        0 <= m2 < outs2.len() && points_upto(pl, outs2, m2) is Ok && words(pl[m2].1).len()
                            >= 2 implies point_answer(point, words(pl[m2].1)[0], words(pl[m2].1)[1], outs2[m2]) by {
                        if m2 < m {
                            lemma_points_push(pl, outs, got, m2);
                            assert(outs2[m2] == outs[m2]);
                        }
                    }
                }
                match got {
                    Some(p) => {
                        nodes.push(p);
                        proof {
                            outs = outs2;
                        }
                    },
                    None => {
                        proof {
                            assert(points_upto(pl, outs2, m + 1) == Err::<Seq<P>, int>(m));
                            lemma_points_err_stable(pl, outs2, m + 1, pl.len() as int);
                            assert forall|m2: int|
                                #![trigger points_upto(pl, outs2, m2)]
                                0 <= m2 < pl.len() && points_upto(pl, outs2, m2) is Ok && words(pl[m2].1).len()
                                    >= 2 implies point_answer(point, words(pl[m2].1)[0], words(pl[m2].1)[1], outs2[m2]) by {
                                if m2 > m {
                                    lemma_points_err_stable(pl, outs2, m + 1, m2);
                                }
                            }
                            assert(answers_of(text@, point, same, outs2, true));
                        }
                        let shown = string_of(t.as_slice());
                        let e = MeshError::BadPoint { line: k + 1, text: shown };
                        proof {
                            assert(result_view::<P>(Err(e)) == parse_outcome(text@, outs2, true));
                        }
                        return Err(e);
                    },
                }
            } else {
                proof {
                    assert(point_lines_upto(tl, k + 1) == point_lines_upto(tl, k as int));
                }
            }
            k = k + 1;
        }
        proof {
            assert(pl == point_lines_upto(tl, tl.len() as int));
            assert(pl.take(pl.len() as int) =~= pl);
            assert(outs.len() == pl.len());
            assert(answers_consistent(point, pl, outs));
        }
        if nodes.len() == 0 {
            proof {
                if nodes@.len() == ni * nj && nj >= 2 {
                    assert(ni == 0) by (nonlinear_arith)
                        requires
                            ni * nj == 0,
                            nj >= 2,
                    ;
                    assert(closed_consistent(same, ni as nat, nj as nat, nodes@, true));
                }
                assert(answers_of(text@, point, same, outs, true));
            }
            return Err(MeshError::Empty);
        }
        if nodes.len() != ni * nj {
            proof {
                assert(answers_of(text@, point, same, outs, true));
            }
            let e = MeshError::CountMismatch { expected: ni * nj, got: nodes.len() };
            proof {
                assert(result_view::<P>(Err(e)) == parse_outcome(text@, outs, true));
            }
            return Err(e);
        }
        let ghost all = nodes@;
        let (nt, ns) = trim_closing_duplicate(ni, nj, nodes, same);
        let ghost closed = choose|closed: bool|
            (nj >= 2 ==> closed_consistent(same, ni as nat, nj as nat, all, closed))
                && (nt as nat, ns@) == trimmed(ni as nat, nj as nat, all, closed);
        proof {
            assert(answers_of(text@, point, same, outs, closed));
        }
        if ni < 4 || nt < 8 {
            let e = MeshError::TooSmall { ni, nj: nt };
            proof {
                assert(result_view::<P>(Err(e)) == parse_outcome(text@, outs, closed));
            }
            return Err(e);
        }
        proof {
            if nj >= 2 && closed {
                assert(ns@.len() == ni * nt);
            }
        }
        let mesh = Mesh { n_rings: ni, n_theta: nt, nodes: ns };
        proof {
            assert(result_view::<P>(Ok(mesh)) == parse_outcome(text@, outs, closed));
        }
        Ok(mesh)
    }
}

} // verus!
