//! The edge-list format: one arc per line, as four decimal numbers
//! separated by white space: tail, head, cost, resource.

use crate::graph::{network, well_formed, Edge};
use vstd::prelude::*;

verus! {

/// An arc as written in an edge list: tail, head, cost, resource.
pub type Record = (usize, usize, u32, u32);

/// Why an edge list was turned down.
#[derive(Clone, Copy, Debug, PartialEq, Eq)]
pub enum InputError {
    /// A line that is not blank holds fewer than four fields.
    MissingField,
    /// A field is not a decimal number, or does not fit its type.
    BadNumber,
    /// A vertex index leaves no room for the vertex count.
    TooManyVertices,
}

/// What a line holds.
pub enum Line {
    Blank,
    Arc(Record),
    Broken(InputError),
}

/// ASCII white space: the space, and the controls from tab to carriage
/// return.
pub open spec fn is_space(b: u8) -> bool {
    b == 32 || (9 <= b && b <= 13)
}

/// An ASCII decimal digit.
pub open spec fn is_digit(b: u8) -> bool {
    48 <= b && b <= 57
}

/// The first position from `i` on, below `hi`, that holds no white space;
/// `hi` if there is none.
pub open spec fn word_start(s: Seq<u8>, i: int, hi: int) -> int
    decreases hi - i,
{
    if i >= hi || !is_space(s[i]) {
        i
    } else {
        word_start(s, i + 1, hi)
    }
}

/// The first position from `i` on, below `hi`, that holds white space; `hi`
/// if there is none.
pub open spec fn word_end(s: Seq<u8>, i: int, hi: int) -> int
    decreases hi - i,
{
    if i >= hi || is_space(s[i]) {
        i
    } else {
        word_end(s, i + 1, hi)
    }
}

/// The first position from `i` on that holds a line feed; the length of `s`
/// if there is none.
pub open spec fn line_end(s: Seq<u8>, i: int) -> int
    decreases s.len() - i,
{
    if i >= s.len() || s[i] == 10 {
        i
    } else {
        line_end(s, i + 1)
    }
}

/// The value of the decimal digits of `s` from `a` up to `b`.
pub open spec fn decimal(s: Seq<u8>, a: int, b: int) -> nat
    decreases b - a,
{
    if b <= a {
        0
    } else {
        (decimal(s, a, b - 1) * 10 + (s[b - 1] - 48)) as nat
    }
}

/// All of `s` from `a` up to `b` are decimal digits.
pub open spec fn all_digits(s: Seq<u8>, a: int, b: int) -> bool {
    forall|i: int| a <= i < b ==> is_digit(#[trigger] s[i])
}

/// Where the digits of the field from `a` start: behind a plus sign, if
/// the field starts with one.
pub open spec fn digits_from(s: Seq<u8>, a: int, b: int) -> int {
    if a < b && s[a] == 43 {
        a + 1
    } else {
        a
    }
}

/// The number that the field of `s` from `a` up to `b` spells, if it spells
/// one that is at most `most`: an optional plus sign, then one or more
/// decimal digits.
pub open spec fn number(s: Seq<u8>, a: int, b: int, most: u64) -> Option<u64> {
    let d = digits_from(s, a, b);
    if d < b && all_digits(s, d, b) && decimal(s, d, b) <= most {
        Some(decimal(s, d, b) as u64)
    } else {
        None
    }
}

/// What the line of `s` from `lo` up to `hi` holds: nothing, if it is all
/// white space; else an arc, if its first four fields spell a tail, a head,
/// a cost and a resource that fit their types. Fields behind the fourth are
/// not looked at.
pub open spec fn record(s: Seq<u8>, lo: int, hi: int) -> Line {
    let a0 = word_start(s, lo, hi);
    let b0 = word_end(s, a0, hi);
    let a1 = word_start(s, b0, hi);
    let b1 = word_end(s, a1, hi);
    let a2 = word_start(s, b1, hi);
    let b2 = word_end(s, a2, hi);
    let a3 = word_start(s, b2, hi);
    let b3 = word_end(s, a3, hi);
    if a0 >= hi {
        Line::Blank
    } else if a1 >= hi || a2 >= hi || a3 >= hi {
        Line::Broken(InputError::MissingField)
    } else {
        match (
            number(s, a0, b0, usize::MAX as u64),
            number(s, a1, b1, usize::MAX as u64),
            number(s, a2, b2, u32::MAX as u64),
            number(s, a3, b3, u32::MAX as u64),
        ) {
            (Some(u), Some(v), Some(c), Some(r)) => Line::Arc(
                (u as usize, v as usize, c as u32, r as u32),
            ),
            _ => Line::Broken(InputError::BadNumber),
        }
    }
}

/// The arcs that the lines of `s` from position `i` on hold, in order, or
/// what is wrong with the first line that holds no arc and is not blank.
pub open spec fn parse_from(s: Seq<u8>, i: int) -> Result<Seq<Record>, InputError>
    decreases s.len() + 1 - i,
    via parse_from_ends
{
    if i >= s.len() {
        Ok(Seq::empty())
    } else {
        match record(s, i, line_end(s, i)) {
            Line::Broken(why) => Err(why),
            Line::Blank => parse_from(s, line_end(s, i) + 1),
            Line::Arc(arc) => match parse_from(s, line_end(s, i) + 1) {
                Ok(rest) => Ok(seq![arc] + rest),
                Err(why) => Err(why),
            },
        }
    }
}

/// The arcs that an edge list holds.
pub open spec fn parsed(s: Seq<u8>) -> Result<Seq<Record>, InputError> {
    parse_from(s, 0)
}

/// A line ends no earlier than it starts.
proof fn lemma_line_end_bounds(s: Seq<u8>, i: int)
    ensures
        i <= line_end(s, i),
        i <= s.len() ==> line_end(s, i) <= s.len(),
    decreases s.len() - i,
{
    if i < s.len() && s[i] != 10 {
        lemma_line_end_bounds(s, i + 1);
    }
}

#[via_fn]
proof fn parse_from_ends(s: Seq<u8>, i: int) {
    lemma_line_end_bounds(s, i);
}

/// Decides `is_space`.
pub fn is_blank(b: u8) -> (r: bool)
    ensures
        r == is_space(b),
{
    b == 32 || (9 <= b && b <= 13)
}

/// Finds `word_start`.
pub fn skip_spaces(text: &[u8], from: usize, to: usize) -> (at: usize)
    requires
        from <= to <= text@.len(),
    ensures
        at == word_start(text@, from as int, to as int),
        from <= at <= to,
{
    let mut i = from;
    while i < to && is_blank(text[i])
        invariant
            from <= i <= to <= text@.len(),
            word_start(text@, from as int, to as int) == word_start(text@, i as int, to as int),
        decreases to - i,
    {
        i += 1;
    }
    i
}

/// Finds `word_end`.
pub fn skip_word(text: &[u8], from: usize, to: usize) -> (at: usize)
    requires
        from <= to <= text@.len(),
    ensures
        at == word_end(text@, from as int, to as int),
        from <= at <= to,
{
    let mut i = from;
    while i < to && !is_blank(text[i])
        invariant
            from <= i <= to <= text@.len(),
            word_end(text@, from as int, to as int) == word_end(text@, i as int, to as int),
        decreases to - i,
    {
        i += 1;
    }
    i
}

/// Finds `line_end`.
pub fn skip_line(text: &[u8], from: usize) -> (at: usize)
    requires
        from <= text@.len(),
    ensures
        at == line_end(text@, from as int),
        from <= at <= text@.len(),
{
    let mut i = from;
    while i < text.len() && text[i] != 10
        invariant
            from <= i <= text@.len(),
            line_end(text@, from as int) == line_end(text@, i as int),
        decreases text@.len() - i,
    {
        i += 1;
    }
    i
}

/// More digits never spell less.
proof fn lemma_decimal_grows(s: Seq<u8>, a: int, k: int, b: int)
    requires
        a <= k <= b,
        all_digits(s, a, b),
    ensures
        decimal(s, a, k) <= decimal(s, a, b),
    decreases b - k,
{
    if k < b {
        lemma_decimal_grows(s, a, k, b - 1);
        assert(is_digit(s[b - 1]));
    }
}

/// Reads the number that the field of `text` from `from` up to `to` spells.
pub fn read_number(text: &[u8], from: usize, to: usize, most: u64) -> (r: Option<u64>)
    requires
        from <= to <= text@.len(),
    ensures
        r == number(text@, from as int, to as int, most),
{
    let start = if from < to && text[from] == 43 {
        from + 1
    } else {
        from
    };
    if start >= to {
        return None;
    }
    let mut value: u128 = 0;
    let mut i = start;
    while i < to
        invariant
            start <= i <= to <= text@.len(),
            start == digits_from(text@, from as int, to as int),
            all_digits(text@, start as int, i as int),
            value == decimal(text@, start as int, i as int),
            value <= most,
        decreases to - i,
    {
        let b = text[i];
        if !(48 <= b && b <= 57) {
            proof {
                assert(!is_digit(text@[i as int]));
            }
            return None;
        }
        value = value * 10 + (b - 48) as u128;
        i += 1;
        proof {
            assert(decimal(text@, start as int, i as int) == decimal(
                text@,
                start as int,
                i as int - 1,
            ) * 10 + (text@[i as int - 1] - 48));
        }
        if value > most as u128 {
            proof {
                if all_digits(text@, start as int, to as int) {
                    lemma_decimal_grows(text@, start as int, i as int, to as int);
                }
            }
            return None;
        }
    }
    Some(value as u64)
}

/// Reads what the line of `text` from `lo` up to `hi` holds.
pub fn read_record(text: &[u8], lo: usize, hi: usize) -> (r: Line)
    requires
        lo <= hi <= text@.len(),
    ensures
        r == record(text@, lo as int, hi as int),
{
    let a0 = skip_spaces(text, lo, hi);
    if a0 >= hi {
        return Line::Blank;
    }
    let b0 = skip_word(text, a0, hi);
    let a1 = skip_spaces(text, b0, hi);
    let b1 = skip_word(text, a1, hi);
    let a2 = skip_spaces(text, b1, hi);
    let b2 = skip_word(text, a2, hi);
    let a3 = skip_spaces(text, b2, hi);
    let b3 = skip_word(text, a3, hi);
    if a1 >= hi || a2 >= hi || a3 >= hi {
        return Line::Broken(InputError::MissingField);
    }
    let u = read_number(text, a0, b0, usize::MAX as u64);
    let v = read_number(text, a1, b1, usize::MAX as u64);
    let c = read_number(text, a2, b2, u32::MAX as u64);
    let r = read_number(text, a3, b3, u32::MAX as u64);
    match (u, v, c, r) {
        (Some(u), Some(v), Some(c), Some(r)) => Line::Arc((u as usize, v as usize, c as u32, r as u32)),
        _ => Line::Broken(InputError::BadNumber),
    }
}

/// What was read so far, followed by what the rest holds.
spec fn joined(read: Seq<Record>, rest: Result<Seq<Record>, InputError>) -> Result<
    Seq<Record>,
    InputError,
> {
    match rest {
        Ok(more) => Ok(read + more),
        Err(why) => Err(why),
    }
}

/// Reads an edge list: the arcs of its lines in order, blank lines passed
/// over, or what is wrong with the first line that cannot be read.
pub fn parse_edges(text: &[u8]) -> (r: Result<Vec<Record>, InputError>)
    ensures
        match r {
            Ok(arcs) => parsed(text@) == Ok::<Seq<Record>, InputError>(arcs@),
            Err(why) => parsed(text@) == Err::<Seq<Record>, InputError>(why),
        },
{
    let mut arcs: Vec<Record> = Vec::new();
    let mut i: usize = 0;
    proof {
        assert(arcs@ + Seq::<Record>::empty() =~= arcs@);
        match parse_from(text@, 0) {
            Ok(more) => {
                assert(arcs@ + more =~= more);
            },
            Err(_) => {},
        }
    }
    while i < text.len()
        invariant
            i <= text@.len(),
            parsed(text@) == joined(arcs@, parse_from(text@, i as int)),
        decreases text@.len() - i,
    {
        let end = skip_line(text, i);
        let ghost before = arcs@;
        match read_record(text, i, end) {
            Line::Broken(why) => {
                return Err(why);
            },
            Line::Blank => {},
            Line::Arc(arc) => {
                arcs.push(arc);
                proof {
                    match parse_from(text@, end as int + 1) {
                        Ok(more) => {
                            assert(before + (seq![arc] + more) =~= before.push(arc) + more);
                        },
                        Err(_) => {},
                    }
                }
            },
        }
        if end == text.len() {
            proof {
                assert(parse_from(text@, end as int + 1) == Ok::<Seq<Record>, InputError>(
                    Seq::empty(),
                ));
                assert(arcs@ + Seq::<Record>::empty() =~= arcs@);
            }
            return Ok(arcs);
        }
        i = end + 1;
    }
    proof {
        assert(arcs@ + Seq::<Record>::empty() =~= arcs@);
    }
    Ok(arcs)
}

/// The greatest vertex index among `arcs`; zero if there is none.
pub open spec fn top(arcs: Seq<Record>) -> nat
    decreases arcs.len(),
{
    if arcs.len() == 0 {
        0
    } else {
        let rest = top(arcs.drop_last());
        let last = arcs.last();
        let here = if last.0 >= last.1 {
            last.0 as nat
        } else {
            last.1 as nat
        };
        if rest >= here {
            rest
        } else {
            here
        }
    }
}

/// The arcs out of `u` among `arcs`, in their order.
pub open spec fn arcs_from(arcs: Seq<Record>, u: int) -> Seq<Edge>
    decreases arcs.len(),
{
    if arcs.len() == 0 {
        Seq::empty()
    } else {
        let rest = arcs_from(arcs.drop_last(), u);
        let last = arcs.last();
        if last.0 == u {
            rest.push((last.1, last.2, last.3))
        } else {
            rest
        }
    }
}

proof fn lemma_top_bounds(arcs: Seq<Record>, i: int)
    requires
        0 <= i < arcs.len(),
    ensures
        arcs[i].0 <= top(arcs),
        arcs[i].1 <= top(arcs),
    decreases arcs.len(),
{
    if i < arcs.len() - 1 {
        lemma_top_bounds(arcs.drop_last(), i);
    }
}

/// The adjacency lists of an edge list: one list per vertex from zero to
/// the greatest index named, each holding the arcs out of its vertex in the
/// order of the edge list. Turned down only where the greatest index is the
/// greatest `usize`, so that the vertices cannot be counted.
pub fn build_graph(arcs: &Vec<Record>) -> (r: Result<Vec<Vec<Edge>>, InputError>)
    ensures
        match r {
            Ok(graph) => {
                &&& graph@.len() == top(arcs@) + 1
                &&& forall|u: int| 0 <= u < graph@.len() ==> (#[trigger] graph@[u])@ == arcs_from(arcs@, u)
                &&& well_formed(network(&graph))
            },
            Err(why) => why == InputError::TooManyVertices && top(arcs@) >= usize::MAX,
        },
{
    let mut max_node: usize = 0;
    let mut i: usize = 0;
    while i < arcs.len()
        invariant
            i <= arcs.len(),
            max_node == top(arcs@.take(i as int)),
        decreases arcs.len() - i,
    {
        let (u, v, _, _) = arcs[i];
        proof {
            assert(arcs@.take(i as int + 1).drop_last() =~= arcs@.take(i as int));
        }
        if u > max_node {
            max_node = u;
        }
        if v > max_node {
            max_node = v;
        }
        i += 1;
    }
    proof {
        assert(arcs@.take(arcs@.len() as int) =~= arcs@);
    }
    if max_node == usize::MAX {
        return Err(InputError::TooManyVertices);
    }
    let n = max_node + 1;
    let mut graph: Vec<Vec<Edge>> = Vec::new();
    let mut u: usize = 0;
    while u < n
        invariant
            u <= n,
            graph.len() == u,
            forall|w: int| 0 <= w < u ==> (#[trigger] graph@[w])@ == Seq::<Edge>::empty(),
        decreases n - u,
    {
        graph.push(Vec::new());
        u += 1;
    }
    let mut i: usize = 0;
    while i < arcs.len()
        invariant
            i <= arcs.len(),
            n == top(arcs@) + 1,
            graph.len() == n,
            forall|w: int|
                0 <= w < n ==> (#[trigger] graph@[w])@ == arcs_from(arcs@.take(i as int), w),
        decreases arcs.len() - i,
    {
        let (u, v, cost, resource) = arcs[i];
        proof {
            lemma_top_bounds(arcs@, i as int);
            assert(arcs@.take(i as int + 1).drop_last() =~= arcs@.take(i as int));
        }
        graph[u].push((v, cost, resource));
        i += 1;
    }
    proof {
        assert(arcs@.take(arcs@.len() as int) =~= arcs@);
        let net = network(&graph);
        assert forall|w: int, k: int| 0 <= w < net.len() && 0 <= k < net[w].len() implies (
        #[trigger] net[w][k]).0 < net.len() by {
            lemma_arcs_from_bounds(arcs@, w, k);
        }
    }
    Ok(graph)
}

proof fn lemma_arcs_from_bounds(arcs: Seq<Record>, u: int, k: int)
    requires
        0 <= k < arcs_from(arcs, u).len(),
    ensures
        arcs_from(arcs, u)[k].0 <= top(arcs),
    decreases arcs.len(),
{
    if arcs.len() > 0 {
        let rest = arcs_from(arcs.drop_last(), u);
        if k < rest.len() {
            lemma_arcs_from_bounds(arcs.drop_last(), u, k);
        }
    }
}

} // verus!
