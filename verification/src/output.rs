//! The default output format: start and end lines, and process output
//! prefixed with the name of the process and the stream it came from.

use vstd::prelude::*;

use crate::config::process_names;
use crate::graph::{process_nodes, ProcessGraph};
use crate::name::Name;
use crate::run::{str_eq, OutputKind};
use crate::text::{pad_start, push_char, push_padded, push_repeat, push_str, repeat};

verus! {

/// A start or end sequence.
#[derive(Debug, Clone, Copy, PartialEq, Eq, Structural)]
pub enum Sequence {
    /// The start sequence.
    Start,
    /// The end sequence.
    End,
}

/// The arc, tee and arrow of a sequence.
pub open spec fn sequence_chars(s: Sequence) -> (char, char, char) {
    match s {
        Sequence::Start => ('\u{256D}', '\u{252C}', '\u{25C0}'),
        Sequence::End => ('\u{2570}', '\u{2534}', '\u{25B6}'),
    }
}

/// A sequence left-padded by `width` spaces: the padding, a space, the arc,
/// a horizontal line, the tee and the arrow.
pub open spec fn sequence_text(s: Sequence, width: nat) -> Seq<char> {
    let (arc, t, arrow) = sequence_chars(s);
    repeat(' ', width) + seq![' ', arc, '\u{2500}', t, arrow]
}

/// Write a start or end sequence, left-padded with `width` spaces, so that it
/// lines up with the output of processes whose names are at most `width`
/// characters long.
pub fn fmt_sequence(sequence: Sequence, width: usize) -> (r: String)
    ensures
        r@ == sequence_text(sequence, width as nat),
{
    let (arc, t, arrow) = match sequence {
        Sequence::Start => ('\u{256D}', '\u{252C}', '\u{25C0}'),
        Sequence::End => ('\u{2570}', '\u{2534}', '\u{25B6}'),
    };
    let mut s = String::new();
    push_repeat(&mut s, ' ', width);
    let ghost s0 = s@;
    push_char(&mut s, ' ');
    push_char(&mut s, arc);
    push_char(&mut s, '\u{2500}');
    push_char(&mut s, t);
    push_char(&mut s, arrow);
    assert(s@ =~= sequence_text(sequence, width as nat));
    s
}

/// A line of process output: the process name right-aligned to `width`, a
/// space, a vertical line, the stream's character, a vertical line, a space
/// and the data.
pub open spec fn output_line(name: Seq<char>, width: nat, kind: OutputKind, data: Seq<char>) -> Seq<char> {
    pad_start(name, width) + seq![' ', '\u{2502}', match kind {
        OutputKind::Stdout => 'O',
        OutputKind::Stderr => 'E',
    }, '\u{2502}', ' '] + data
}

/// Format a line that process `name` wrote to the stream `kind`.
pub fn fmt_output_line(name: &Name, width: usize, kind: OutputKind, data: &str) -> (r: String)
    ensures
        r@ == output_line(name@, width as nat, kind, data@),
{
    let mut s = String::new();
    push_padded(&mut s, name.as_str(), width);
    let ghost s0 = s@;
    push_char(&mut s, ' ');
    push_char(&mut s, '\u{2502}');
    push_char(&mut s, kind.to_char());
    push_char(&mut s, '\u{2502}');
    push_char(&mut s, ' ');
    push_str(&mut s, data);
    assert(s@ =~= output_line(name@, width as nat, kind, data@));
    s
}

/// The length of the longest of `names`, 0 if there are none.
pub open spec fn longest(names: Seq<Seq<char>>) -> nat
    decreases names.len(),
{
    if names.len() == 0 {
        0
    } else {
        let prev = longest(names.drop_last());
        if names.last().len() > prev {
            names.last().len()
        } else {
            prev
        }
    }
}

/// The longest length is the length of no name shorter than another: it is
/// at least the length of every name, and it is the length of one of them
/// (0 where there are none).
pub proof fn lemma_longest_is_max(names: Seq<Seq<char>>)
    ensures
        forall|i: int| 0 <= i < names.len() ==> (#[trigger] names[i]).len() <= longest(names),
        names.len() == 0 ==> longest(names) == 0,
        names.len() > 0 ==> exists|i: int| 0 <= i < names.len() && (#[trigger] names[i]).len() == longest(names),
    decreases names.len(),
{
    if names.len() > 0 {
        let p = names.drop_last();
        lemma_longest_is_max(p);
        assert forall|i: int| 0 <= i < names.len() implies (#[trigger] names[i]).len() <= longest(names) by {
            if i < p.len() {
                assert(names[i] == p[i]);
            }
        }
        if names.last().len() > longest(p) || p.len() == 0 {
            assert(names[names.len() - 1] == names.last());
        } else {
            let i = choose|i: int| 0 <= i < p.len() && (#[trigger] p[i]).len() == longest(p);
            assert(names[i] == p[i]);
        }
    }
}

/// The length of the longest process name in the graph, used to align
/// output.
pub fn longest_name(graph: &ProcessGraph) -> (r: usize)
    ensures
        r == longest(process_names(process_nodes(*graph))),
{
    let n = crate::graph::node_count(graph);
    let mut m: usize = 0;
    for i in 0..n
        invariant
            n == process_nodes(*graph).len(),
            m == longest(process_names(process_nodes(*graph)).take(i as int)),
    {
        let name = &crate::graph::node(graph, i).name;
        let len = name_len(name);
        let ghost ns = process_names(process_nodes(*graph)).take(i + 1);
        assert(ns.drop_last() =~= process_names(process_nodes(*graph)).take(i as int));
        assert(ns.last() == name@);
        if len > m {
            m = len;
        }
    }
    assert(process_names(process_nodes(*graph)).take(n as int) =~= process_names(process_nodes(*graph)));
    m
}

/// The number of characters in a name.
pub fn name_len(name: &Name) -> (r: usize)
    ensures
        r == name@.len(),
{
    let s = name.as_str();
    let bytes = s.as_bytes();
    let n = bytes.len();
    proof {
        crate::name::lemma_encode_len_ge(s@);
    }
    let mut count: usize = 0;
    for c in it: s.chars()
        invariant
            it.seq() == s@,
            count == it.index(),
            s@.len() <= n,
    {
        count = count + 1;
    }
    count
}

/// An OpenTelemetry status code.
#[derive(Debug, Clone, Copy, PartialEq, Eq, Structural)]
pub enum OtelStatusCode {
    /// Unset.
    Unset,
    /// `ERROR`.
    Error,
    /// `OK`.
    Okay,
}

impl OtelStatusCode {
    /// The value to record in a span's `otel.status_code` field, if any.
    pub fn as_str(&self) -> (r: Option<&'static str>)
        ensures
            r matches Some(s) ==> s@ == (match self {
                OtelStatusCode::Error => "ERROR"@,
                _ => "OK"@,
            }),
            r is None <==> *self == OtelStatusCode::Unset,
    {
        match self {
            OtelStatusCode::Unset => None,
            OtelStatusCode::Error => Some("ERROR"),
            OtelStatusCode::Okay => Some("OK"),
        }
    }

    /// The word that ends the output of a graph run: `"failure"` after an
    /// error, `"success"` otherwise. A run records its status before it ends,
    /// so the status is never unset here.
    pub fn outcome(&self) -> (r: &'static str)
        requires
            *self != OtelStatusCode::Unset,
        ensures
            r@ == (if *self == OtelStatusCode::Error {
                "failure"@
            } else {
                "success"@
            }),
    {
        match self {
            OtelStatusCode::Error => "failure",
            _ => "success",
        }
    }

    /// Read a recorded `otel.status_code` value: `"OK"` or `"ERROR"`.
    pub fn from_str(s: &str) -> (r: OtelStatusCode)
        requires
            s@ == "OK"@ || s@ == "ERROR"@,
        ensures
            s@ == "OK"@ ==> r == OtelStatusCode::Okay,
            s@ != "OK"@ ==> r == OtelStatusCode::Error,
    {
        if str_eq(s, "OK") {
            OtelStatusCode::Okay
        } else {
            OtelStatusCode::Error
        }
    }
}

} // verus!
