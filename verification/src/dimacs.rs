//! The DIMACS `.clq` format, read from bytes.
//!
//! The input is a sequence of lines. A line is a sequence of tokens separated
//! by ASCII white space, and its first token decides what it is: `c...` a
//! comment, `p...` the header `p edge N M`, whose third token is the vertex
//! count, `e...` an edge `e U V` with 1-based ends. Blank lines and lines of
//! any other kind are skipped. Where several headers occur, the last counts.

use crate::graph::{adjacency_of, valid_edges, Graph};
use vstd::prelude::*;

verus! {

/// Why a DIMACS input was refused.
#[derive(Clone, Copy, Debug, PartialEq, Eq, Structural)]
pub enum ParseError {
    /// A `p` line has no third token, or that token is no vertex count.
    MalformedHeader,
    /// An `e` line has no three tokens, or an end is no number.
    MalformedEdge,
    /// An edge has an end that is 0 or above the vertex count, or joins a
    /// vertex to itself.
    InvalidEdge,
    /// The adjacency matrix of so many vertices is not addressable.
    TooManyVertices,
}

/// What one line says.
pub enum Record {
    /// Nothing: a blank line, a comment, or a line of another kind.
    Skip,
    /// The vertex count.
    Header(usize),
    /// An edge, with 0-based ends.
    Edge(usize, usize),
    /// The line is refused.
    Bad(ParseError),
}

/// Space, tab, line feed, vertical tab, form feed or carriage return.
pub open spec fn is_space(b: u8) -> bool {
    b == 32 || (9 <= b <= 13)
}

/// A decimal digit.
pub open spec fn is_digit(b: u8) -> bool {
    48 <= b <= 57
}

/// The end of the line that starts at `a`: the first line feed at or after
/// `a`, or the end of the input.
pub open spec fn line_stop(s: Seq<u8>, a: int) -> int
    decreases s.len() - a,
{
    if a >= s.len() || s[a] == 10 {
        a
    } else {
        line_stop(s, a + 1)
    }
}

/// The first position in `i .. end` that holds no white space, or `end`.
pub open spec fn skip_spaces(s: Seq<u8>, i: int, end: int) -> int
    decreases end - i,
{
    if i >= end || !is_space(s[i]) {
        i
    } else {
        skip_spaces(s, i + 1, end)
    }
}

/// The first position in `i .. end` that holds white space, or `end`.
pub open spec fn skip_token(s: Seq<u8>, i: int, end: int) -> int
    decreases end - i,
{
    if i >= end || is_space(s[i]) {
        i
    } else {
        skip_token(s, i + 1, end)
    }
}

/// Token `k` of the line `a .. end`, as the pair of its bounds. Where the
/// line has fewer tokens, both bounds are `end`.
pub open spec fn token_at(s: Seq<u8>, a: int, end: int, k: nat) -> (int, int)
    decreases k,
{
    let from = if k == 0 { a } else { token_at(s, a, end, (k - 1) as nat).1 };
    let start = skip_spaces(s, from, end);
    (start, skip_token(s, start, end))
}

/// Every byte of `a .. b` is a decimal digit.
pub open spec fn all_digits(s: Seq<u8>, a: int, b: int) -> bool {
    forall|i: int| a <= i < b ==> is_digit(#[trigger] s[i])
}

/// The number that the decimal digits of `a .. b` spell.
pub open spec fn digits_value(s: Seq<u8>, a: int, b: int) -> nat
    decreases b - a,
{
    if b <= a {
        0
    } else {
        digits_value(s, a, b - 1) * 10 + (s[b - 1] - 48) as nat
    }
}

/// The number that `a .. b` spells: decimal digits, at least one, that stay
/// within a machine word.
pub open spec fn unsigned(s: Seq<u8>, a: int, b: int) -> Option<usize> {
    if a < b && all_digits(s, a, b) && digits_value(s, a, b) <= usize::MAX {
        Some(digits_value(s, a, b) as usize)
    } else {
        None
    }
}

/// The number that a token spells; a plus sign may precede the digits.
pub open spec fn number(s: Seq<u8>, a: int, b: int) -> Option<usize> {
    if a < b && s[a] == 43 {
        unsigned(s, a + 1, b)
    } else {
        unsigned(s, a, b)
    }
}

/// What the line `a .. end` says.
pub open spec fn record_of(s: Seq<u8>, a: int, end: int) -> Record {
    let t0 = token_at(s, a, end, 0);
    let t1 = token_at(s, a, end, 1);
    let t2 = token_at(s, a, end, 2);
    if t0.0 >= end {
        Record::Skip
    } else if s[t0.0] == 112 {
        match number(s, t2.0, t2.1) {
            Some(n) => Record::Header(n),
            None => Record::Bad(ParseError::MalformedHeader),
        }
    } else if s[t0.0] == 101 {
        match (number(s, t1.0, t1.1), number(s, t2.0, t2.1)) {
            (Some(u), Some(v)) => if u >= 1 && v >= 1 {
                Record::Edge((u - 1) as usize, (v - 1) as usize)
            } else {
                Record::Bad(ParseError::InvalidEdge)
            },
            _ => Record::Bad(ParseError::MalformedEdge),
        }
    } else {
        Record::Skip
    }
}

/// What has been read so far: the vertex count and the edges.
pub struct Draft {
    pub n: usize,
    pub edges: Seq<(usize, usize)>,
}

/// Reads the lines from position `a` on, starting from the draft `acc`. The
/// first refused line ends the reading.
pub open spec fn read_lines(s: Seq<u8>, a: int, acc: Draft) -> Result<Draft, ParseError>
    decreases s.len() + 1 - a,
{
    if a >= s.len() {
        Ok(acc)
    } else {
        let end = line_stop(s, a);
        if !(a <= end <= s.len()) {
            Ok(acc)
        } else {
            match record_of(s, a, end) {
                Record::Skip => read_lines(s, end + 1, acc),
                Record::Header(n) => read_lines(s, end + 1, Draft { n, edges: acc.edges }),
                Record::Edge(u, v) => read_lines(s, end + 1, Draft { n: acc.n, edges: acc.edges.push((u, v)) }),
                Record::Bad(e) => Err(e),
            }
        }
    }
}

/// The graph that an input describes, or the reason why it describes none.
pub open spec fn parsed(s: Seq<u8>) -> Result<Seq<Seq<bool>>, ParseError> {
    match read_lines(s, 0, Draft { n: 0, edges: Seq::empty() }) {
        Err(e) => Err(e),
        Ok(d) => if d.n * d.n > usize::MAX {
            Err(ParseError::TooManyVertices)
        } else if !valid_edges(d.n as nat, d.edges) {
            Err(ParseError::InvalidEdge)
        } else {
            Ok(adjacency_of(d.n as nat, d.edges))
        },
    }
}

/// A longer run of digits spells no smaller a number.
pub proof fn lemma_digits_grow(s: Seq<u8>, a: int, j: int, b: int)
    requires
        a <= j <= b,
    ensures
        digits_value(s, a, j) <= digits_value(s, a, b),
    decreases b - j,
{
    if j < b {
        lemma_digits_grow(s, a, j, b - 1);
    }
}

fn byte_is_space(b: u8) -> (r: bool)
    ensures
        r == is_space(b),
{
    b == 32 || (9 <= b && b <= 13)
}

/// The bounds of the next token of the line at or after `from`.
fn next_token(bytes: &[u8], from: usize, end: usize) -> (r: (usize, usize))
    requires
        from <= end <= bytes@.len(),
    ensures
        r.0 == skip_spaces(bytes@, from as int, end as int),
        r.1 == skip_token(bytes@, r.0 as int, end as int),
        from <= r.0 <= r.1 <= end,
{
    let mut i: usize = from;
    while i < end && byte_is_space(bytes[i])
        invariant
            from <= i <= end <= bytes@.len(),
            skip_spaces(bytes@, from as int, end as int)
                == skip_spaces(bytes@, i as int, end as int),
        decreases end - i,
    {
        i += 1;
    }
    let start = i;
    while i < end && !byte_is_space(bytes[i])
        invariant
            start <= i <= end <= bytes@.len(),
            skip_token(bytes@, start as int, end as int)
                == skip_token(bytes@, i as int, end as int),
        decreases end - i,
    {
        i += 1;
    }
    (start, i)
}

/// The number that the digits of `a .. b` spell, if they spell one.
fn read_unsigned(bytes: &[u8], a: usize, b: usize) -> (r: Option<usize>)
    requires
        a <= b <= bytes@.len(),
    ensures
        r == unsigned(bytes@, a as int, b as int),
{
    if a >= b {
        return None;
    }
    let mut value: usize = 0;
    let mut i: usize = a;
    while i < b
        invariant
            a <= i <= b <= bytes@.len(),
            all_digits(bytes@, a as int, i as int),
            value == digits_value(bytes@, a as int, i as int),
        decreases b - i,
    {
        let c = bytes[i];
        if c < 48 || c > 57 {
            return None;
        }
        let d: usize = (c - 48) as usize;
        if value > (usize::MAX - d) / 10 {
            proof {
                lemma_digits_grow(bytes@, a as int, i + 1, b as int);
            }
            return None;
        }
        value = value * 10 + d;
        i += 1;
    }
    Some(value)
}

/// The number that the token `a .. b` spells, if it spells one.
fn read_number(bytes: &[u8], a: usize, b: usize) -> (r: Option<usize>)
    requires
        a <= b <= bytes@.len(),
    ensures
        r == number(bytes@, a as int, b as int),
{
    if a < b && bytes[a] == 43 {
        read_unsigned(bytes, a + 1, b)
    } else {
        read_unsigned(bytes, a, b)
    }
}

/// Reads one line.
pub fn read_record(bytes: &[u8], a: usize, end: usize) -> (r: Record)
    requires
        a <= end <= bytes@.len(),
    ensures
        r == record_of(bytes@, a as int, end as int),
{
    let (s0, e0) = next_token(bytes, a, end);
    if s0 >= end {
        return Record::Skip;
    }
    let kind = bytes[s0];
    if kind != 112 && kind != 101 {
        return Record::Skip;
    }
    let (s1, e1) = next_token(bytes, e0, end);
    let (s2, e2) = next_token(bytes, e1, end);
    if kind == 112 {
        match read_number(bytes, s2, e2) {
            Some(n) => Record::Header(n),
            None => Record::Bad(ParseError::MalformedHeader),
        }
    } else {
        let u = read_number(bytes, s1, e1);
        let v = read_number(bytes, s2, e2);
        match (u, v) {
            (Some(u), Some(v)) => {
                if u >= 1 && v >= 1 {
                    Record::Edge(u - 1, v - 1)
                } else {
                    Record::Bad(ParseError::InvalidEdge)
                }
            },
            _ => Record::Bad(ParseError::MalformedEdge),
        }
    }
}

/// Whether every pair names two different vertices below `n`.
pub fn edges_are_valid(n: usize, edges: &Vec<(usize, usize)>) -> (r: bool)
    ensures
        r == valid_edges(n as nat, edges@),
{
    let mut i: usize = 0;
    while i < edges.len()
        invariant
            i <= edges@.len(),
            forall|k: int| 0 <= k < i
                ==> (#[trigger] edges@[k]).0 < n && edges@[k].1 < n && edges@[k].0 != edges@[k].1,
        decreases edges@.len() - i,
    {
        let (u, v) = edges[i];
        if u >= n || v >= n || u == v {
            return false;
        }
        i += 1;
    }
    true
}

impl Graph {
    /// Reads a graph in DIMACS `.clq` format.
    pub fn parse_dimacs(bytes: &[u8]) -> (r: Result<Graph, ParseError>)
        ensures
            match r {
                Ok(g) => g.wf() && parsed(bytes@) == Ok::<Seq<Seq<bool>>, ParseError>(g@),
                Err(e) => parsed(bytes@) == Err::<Seq<Seq<bool>>, ParseError>(e),
            },
    {
        let len = bytes.len();
        let mut n: usize = 0;
        let mut edges: Vec<(usize, usize)> = Vec::new();
        let mut a: usize = 0;
        let ghost start = Draft { n: 0, edges: Seq::empty() };
        while a < len
            invariant
                a <= len,
                len == bytes@.len(),
                start == (Draft { n: 0, edges: Seq::empty() }),
                read_lines(bytes@, 0, start)
                    == read_lines(bytes@, a as int, Draft { n, edges: edges@ }),
            decreases len - a,
        {
            let mut end: usize = a;
            while end < len && bytes[end] != 10
                invariant
                    a <= end <= len,
                    len == bytes@.len(),
                    line_stop(bytes@, a as int) == line_stop(bytes@, end as int),
                decreases len - end,
            {
                end += 1;
            }
            let ghost before = Draft { n, edges: edges@ };
            assert(line_stop(bytes@, a as int) == end);
            match read_record(bytes, a, end) {
                Record::Skip => {},
                Record::Header(count) => {
                    n = count;
                },
                Record::Edge(u, v) => {
                    edges.push((u, v));
                },
                Record::Bad(e) => {
                    return Err(e);
                },
            }
            proof {
                let after = Draft { n, edges: edges@ };
                assert(read_lines(bytes@, a as int, before) == read_lines(bytes@, end + 1, after));
                if end >= len {
                    assert(read_lines(bytes@, end + 1, after)
                        == read_lines(bytes@, len as int, after));
                }
            }
            a = if end < len { end + 1 } else { len };
        }
        if n > 0 && n > usize::MAX / n {
            proof {
                assert(n * n > usize::MAX) by (nonlinear_arith)
                    requires n > 0, n > usize::MAX / n;
            }
            return Err(ParseError::TooManyVertices);
        }
        proof {
            if n > 0 {
                assert(n * n <= usize::MAX) by (nonlinear_arith)
                    requires n > 0, n <= usize::MAX / n;
            }
        }
        if !edges_are_valid(n, &edges) {
            return Err(ParseError::InvalidEdge);
        }
        Ok(Graph::from_edge_list(n, edges.as_slice()))
    }
}

} // verus!
