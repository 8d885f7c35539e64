//! Per-source outcomes and diagnostics.
//!
//! A batch run hands each source over as its display name together
//! with either its full content or the cause of its failure. A failed
//! source contributes one diagnostic line, `<name>: <cause>`, and the
//! run continues with the next source.

use vstd::prelude::*;
use crate::lines::NL;
use crate::lines::push_all;

verus! {

/// Colon byte, part of the diagnostic separator.
pub const COLON: u8 = 58;
/// Space byte, part of the diagnostic separator.
pub const BLANK: u8 = 32;

/// One source of a batch run: its display name, and its content or
/// the cause of its failure.
pub type SourceOutcome = (Vec<u8>, Result<Vec<u8>, Vec<u8>>);

/// The mathematical view of one source outcome.
pub open spec fn source_view(p: SourceOutcome) -> (Seq<u8>, Result<Seq<u8>, Seq<u8>>) {
    (
        p.0@,
        match p.1 {
            Ok(c) => Ok(c@),
            Err(e) => Err(e@),
        },
    )
}

/// The mathematical view of a batch of source outcomes.
pub open spec fn source_views(s: Seq<SourceOutcome>) -> Seq<(Seq<u8>, Result<Seq<u8>, Seq<u8>>)> {
    s.map_values(|p: SourceOutcome| source_view(p))
}

/// The diagnostic line for one failed source.
pub open spec fn diagnostic_line(name: Seq<u8>, cause: Seq<u8>) -> Seq<u8> {
    name + seq![COLON, BLANK] + cause + seq![NL]
}

/// All diagnostic lines of the sources from position `i` on, in order.
pub open spec fn diagnostics_from(
    srcs: Seq<(Seq<u8>, Result<Seq<u8>, Seq<u8>>)>,
    i: int,
) -> Seq<u8>
    decreases srcs.len() - i,
{
    if i < 0 || i >= srcs.len() {
        Seq::empty()
    } else {
        (match srcs[i].1 {
            Ok(_) => Seq::empty(),
            Err(cause) => diagnostic_line(srcs[i].0, cause),
        }) + diagnostics_from(srcs, i + 1)
    }
}

/// The diagnostic line for one failed source.
pub fn format_diagnostic(name: &Vec<u8>, cause: &Vec<u8>) -> (r: Vec<u8>)
    ensures
        r@ == diagnostic_line(name@, cause@),
{
    let mut r: Vec<u8> = Vec::new();
    push_all(&mut r, name);
    r.push(COLON);
    r.push(BLANK);
    push_all(&mut r, cause);
    r.push(NL);
    assert(r@ =~= diagnostic_line(name@, cause@));
    r
}

} // verus!
