//! Decisions around a run that need no I/O: the opt-out marker at the top of
//! a source file, and whether a finished run is acceptable.
use vstd::prelude::*;
use vstd::string::StringSliceAdditionalSpecFns;
use crate::state::{Comment, FormatResult};

verus! {

/// The bytes of the opt-out marker: `nogenemichaels` between backticks.
pub open spec fn skip_marker() -> Seq<u8> {
    seq![96u8, 110, 111, 103, 101, 110, 101, 109, 105, 99, 104, 97, 101, 108, 115, 96]
}

/// Number of line feeds among the first `i` bytes of `b`.
pub open spec fn newlines_before(b: Seq<u8>, i: int) -> nat
    decreases i,
{
    if i <= 0 || i > b.len() {
        0
    } else {
        newlines_before(b, i - 1) + if b[i - 1] == 10u8 { 1nat } else { 0nat }
    }
}

/// `m` occurs in `b` at byte `i`.
pub open spec fn occurs_at(b: Seq<u8>, m: Seq<u8>, i: int) -> bool {
    0 <= i && i + m.len() <= b.len() && b.subrange(i, i + m.len()) == m
}

/// The marker occurs within the first five lines of `b`.
pub open spec fn has_skip_marker(b: Seq<u8>) -> bool {
    exists|i: int| #[trigger] occurs_at(b, skip_marker(), i) && newlines_before(b, i) < 5
}

proof fn lemma_newlines_monotone(b: Seq<u8>, i: int, j: int)
    requires
        0 <= i <= j <= b.len(),
    ensures
        newlines_before(b, i) <= newlines_before(b, j),
    decreases j - i,
{
    if i < j {
        lemma_newlines_monotone(b, i, j - 1);
    }
}

fn marker_bytes() -> (r: Vec<u8>)
    ensures
        r@ == skip_marker(),
{
    let r: Vec<u8> = vec![96u8, 110, 111, 103, 101, 110, 101, 109, 105, 99, 104, 97, 101, 108, 115, 96];
    assert(r@ =~= skip_marker());
    r
}

fn bytes_occur_at(b: &[u8], m: &Vec<u8>, i: usize) -> (r: bool)
    ensures
        r == occurs_at(b@, m@, i as int),
{
    if i > b.len() || m.len() > b.len() - i {
        return false;
    }
    let bl = b.len();
    let mut k: usize = 0;
    while k < m.len()
        invariant
            bl == b@.len(),
            i + m@.len() <= b@.len(),
            k <= m@.len(),
            forall|j: int| 0 <= j < k ==> b@[i + j] == m@[j],
        decreases m@.len() - k,
    {
        if b[i + k] != m[k] {
            assert(b@.subrange(i as int, i + m@.len())[k as int] != m@[k as int]);
            return false;
        }
        k = k + 1;
    }
    assert(b@.subrange(i as int, i + m@.len()) =~= m@);
    true
}

/// Whether a source file opts out of formatting: the marker appears within
/// its first five lines.
pub fn skip(src: &str) -> (r: bool)
    ensures
        r == has_skip_marker(src.spec_bytes()),
{
    let b = src.as_bytes();
    let m = marker_bytes();
    let mut nl: usize = 0;
    let mut i: usize = 0;
    while i < b.len() && nl < 5
        invariant
            i <= b@.len(),
            b@ == src.spec_bytes(),
            nl == newlines_before(b@, i as int),
            m@ == skip_marker(),
            forall|j: int| 0 <= j < i ==> !(#[trigger] occurs_at(b@, m@, j) && newlines_before(b@, j) < 5),
        decreases b@.len() - i,
    {
        if bytes_occur_at(b, &m, i) {
            assert(occurs_at(b@, skip_marker(), i as int) && newlines_before(b@, i as int) < 5);
            assert(has_skip_marker(b@));
            return true;
        }
        if b[i] == 10u8 {
            nl = nl + 1;
        }
        i = i + 1;
    }
    assert forall|j: int| #[trigger] occurs_at(b@, skip_marker(), j) implies newlines_before(b@, j) >= 5 by {
        if j < i {
        } else {
            assert(j <= b@.len());
            lemma_newlines_monotone(b@, i as int, j);
        }
    }
    false
}

/// Both texts parse as whole source files, and the two syntax trees are
/// equal when spans are ignored.
pub uninterp spec fn same_file_tree(a: Seq<char>, b: Seq<char>) -> bool;

/// Relies on `syn::parse_str::<syn::File>` for each text and on syn's
/// `PartialEq` for `syn::File` (feature "extra-traits"), which compares the
/// trees node by node and tokens without their spans. The result depends on
/// the two texts alone.
#[verifier::external_body]
fn same_tree(a: &str, b: &str) -> (r: bool)
    ensures
        r == same_file_tree(a@, b@),
{
    match (syn::parse_str::<syn::File>(a), syn::parse_str::<syn::File>(b)) {
        (Ok(x), Ok(y)) => x == y,
        _ => false,
    }
}

/// Why a finished run is not accepted.
pub enum ProcessError {
    /// Comments that could not be placed.
    CommentsLost(Vec<Comment>),
    /// The rendered text does not parse back to the tree of the source: a
    /// fault of the layout engine, since the source did parse.
    VerificationFailure,
}

/// Accepts a finished run over `source`: no comment was lost and the
/// rendered text parses back to the same syntax tree as the source.
pub fn check_result(source: &str, res: FormatResult) -> (r: Result<String, ProcessError>)
    ensures
        res.lost_comments@.len() > 0 ==> r == Err::<String, ProcessError>(
            ProcessError::CommentsLost(res.lost_comments),
        ),
        res.lost_comments@.len() == 0 && !same_file_tree(source@, res.rendered@) ==> r == Err::<
            String,
            ProcessError,
        >(ProcessError::VerificationFailure),
        res.lost_comments@.len() == 0 && same_file_tree(source@, res.rendered@) ==> r == Ok::<
            String,
            ProcessError,
        >(res.rendered),
{
    if res.lost_comments.len() > 0 {
        return Err(ProcessError::CommentsLost(res.lost_comments));
    }
    if same_tree(source, res.rendered.as_str()) {
        Ok(res.rendered)
    } else {
        Err(ProcessError::VerificationFailure)
    }
}

} // verus!
