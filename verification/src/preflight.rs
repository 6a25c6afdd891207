//! Before a request is dispatched: has all of it arrived? A `POST` may come
//! in two parts, and the second has to be waited for.

use crate::text::{contains, occurs_at};
use vstd::prelude::*;
use vstd::string::StringSliceAdditionalSpecFns;

verus! {

/// Line feed.
pub const LF: u8 = 10;

/// Carriage return.
pub const CR: u8 = 13;

/// The bytes without the carriage returns among them.
pub open spec fn without_cr(bytes: Seq<u8>) -> Seq<u8>
    decreases bytes.len(),
{
    if bytes.len() == 0 {
        Seq::empty()
    } else if bytes.last() == CR {
        without_cr(bytes.drop_last())
    } else {
        without_cr(bytes.drop_last()).push(bytes.last())
    }
}

/// Two line feeds stand at `i`, one after the other.
pub open spec fn empty_line_at(bytes: Seq<u8>, i: int) -> bool {
    &&& 0 <= i
    &&& i + 1 < bytes.len()
    &&& bytes[i] == LF
    &&& bytes[i + 1] == LF
}

/// The bytes hold an empty line, carriage returns not counted: the headers
/// have ended.
pub open spec fn has_empty_line(bytes: Seq<u8>) -> bool {
    exists|i: int| empty_line_at(without_cr(bytes), i)
}

/// What is left of the first `k` bytes without their carriage returns opens
/// what is left of all of them.
proof fn lemma_without_cr_prefix(bytes: Seq<u8>, k: int)
    requires
        0 <= k <= bytes.len(),
    ensures
        without_cr(bytes.take(k)).len() <= without_cr(bytes).len(),
        forall|i: int|
            0 <= i < without_cr(bytes.take(k)).len() ==> without_cr(bytes.take(k))[i]
                == without_cr(bytes)[i],
    decreases bytes.len() - k,
{
    if k == bytes.len() {
        assert(bytes.take(k) =~= bytes);
    } else {
        lemma_without_cr_prefix(bytes.drop_last(), k);
        assert(bytes.drop_last().take(k) =~= bytes.take(k));
    }
}

/// Whether the request holds an empty line, carriage returns not counted.
pub fn find_empty_line(buffer: &[u8]) -> (found: bool)
    ensures
        found == has_empty_line(buffer@),
{
    let mut after_line_feed = false;
    let mut i: usize = 0;
    proof {
        assert(buffer@.take(0) =~= Seq::<u8>::empty());
    }
    while i < buffer.len()
        invariant
            i <= buffer.len(),
            after_line_feed <==> without_cr(buffer@.take(i as int)).len() > 0 && without_cr(
                buffer@.take(i as int),
            ).last() == LF,
            forall|k: int| !empty_line_at(without_cr(buffer@.take(i as int)), k),
        decreases buffer.len() - i,
    {
        let b = buffer[i];
        let ghost before = without_cr(buffer@.take(i as int));
        let ghost after = without_cr(buffer@.take(i + 1));
        proof {
            assert(buffer@.take(i + 1).drop_last() =~= buffer@.take(i as int));
            assert(buffer@.take(i + 1).last() == b);
        }
        if b != CR {
            proof {
                assert(after == before.push(b));
            }
            if b == LF && after_line_feed {
                proof {
                    assert(empty_line_at(after, before.len() - 1));
                    lemma_without_cr_prefix(buffer@, i + 1);
                    assert(empty_line_at(without_cr(buffer@), before.len() - 1));
                }
                return true;
            }
            after_line_feed = b == LF;
            proof {
                assert forall|k: int| !empty_line_at(after, k) by {
                    if empty_line_at(after, k) {
                        if k + 1 < before.len() {
                            assert(empty_line_at(before, k));
                        }
                    }
                }
            }
        }
        i += 1;
    }
    proof {
        assert(buffer@.take(i as int) =~= buffer@);
    }
    false
}

/// The first `k` of `s` are also its last `k`, and are not all of it.
pub open spec fn is_border(s: Seq<u8>, k: int) -> bool {
    &&& 0 <= k < s.len()
    &&& s.subrange(0, k) == s.subrange(s.len() - k, s.len() as int)
}

/// `k` is the length of the longest run that both opens and closes `s`
/// without being all of it.
pub open spec fn is_longest_border(s: Seq<u8>, k: int) -> bool {
    &&& is_border(s, k)
    &&& forall|j: int| is_border(s, j) ==> j <= k
}

/// `table` is the longest suffix-prefix table of `needle`: at each position
/// it holds the length of the longest run that both opens and closes the
/// needle up to and with that position, without being all of it.
pub open spec fn is_lsp_table(needle: Seq<u8>, table: Seq<usize>) -> bool {
    &&& table.len() == needle.len()
    &&& forall|i: int|
        0 <= i < needle.len() ==> is_longest_border(needle.take(i + 1), (#[trigger] table[i]) as int)
}

/// Calls `kmp::kmp_table`, which makes the longest suffix-prefix table of
/// the needle. The contract says what that table holds.
#[verifier::external_body]
fn lsp_table(needle: &[u8]) -> (table: Vec<usize>)
    ensures
        is_lsp_table(needle@, table@),
{
    kmp::kmp_table(needle)
}

/// Calls `kmp::kmp_find_with_lsp_table`. With the longest suffix-prefix
/// table of this needle, it returns where the needle first occurs in the
/// haystack, and nothing where it does not occur. With another table it may
/// fail, so the contract asks for that one.
#[verifier::external_body]
fn find_with_lsp_table(needle: &[u8], haystack: &[u8], lsp: &[usize]) -> (at: Option<usize>)
    requires
        is_lsp_table(needle@, lsp@),
    ensures
        match at {
            Some(i) => occurs_at(haystack@, needle@, i as int) && forall|j: int|
                0 <= j < i ==> !occurs_at(haystack@, needle@, j),
            None => !contains(haystack@, needle@),
        },
{
    kmp::kmp_find_with_lsp_table(needle, haystack, lsp)
}

/// The header that says a request has no body.
pub open spec fn content_length_zero() -> Seq<u8> {
    "Content-Length: 0".spec_bytes()
}

/// The header by which a client asks for leave to send the body.
pub open spec fn expect_100_continue() -> Seq<u8> {
    "Expect: 100-continue".spec_bytes()
}

/// The two headers that the preflight looks for, each with the table that
/// speeds up the search for it. Made once, used for every request.
pub struct KmpTables {
    content_length_zero: &'static [u8],
    content_length_zero_lsp: Vec<usize>,
    expect_100_continue: &'static [u8],
    expect_100_continue_lsp: Vec<usize>,
}

impl KmpTables {
    /// Each needle is its header, and each table is the longest
    /// suffix-prefix table of its needle.
    #[verifier::type_invariant]
    pub closed spec fn wf(self) -> bool {
        &&& self.content_length_zero@ == content_length_zero()
        &&& is_lsp_table(self.content_length_zero@, self.content_length_zero_lsp@)
        &&& self.expect_100_continue@ == expect_100_continue()
        &&& is_lsp_table(self.expect_100_continue@, self.expect_100_continue_lsp@)
    }

    /// Makes the tables.
    pub fn new() -> (tables: KmpTables)
        ensures
            tables.wf(),
    {
        let content_length_zero = "Content-Length: 0".as_bytes();
        let content_length_zero_lsp = lsp_table(content_length_zero);
        let expect_100_continue = "Expect: 100-continue".as_bytes();
        let expect_100_continue_lsp = lsp_table(expect_100_continue);
        KmpTables {
            content_length_zero,
            content_length_zero_lsp,
            expect_100_continue,
            expect_100_continue_lsp,
        }
    }

    /// Whether the request says that it has no body.
    pub fn has_content_length_zero(&self, request: &[u8]) -> (found: bool)
        ensures
            found == contains(request@, content_length_zero()),
    {
        proof {
            use_type_invariant(self);
        }
        find_with_lsp_table(
            self.content_length_zero,
            request,
            self.content_length_zero_lsp.as_slice(),
        ).is_some()
    }

    /// Whether the request asks for leave to send its body.
    pub fn has_expect_100_continue(&self, request: &[u8]) -> (found: bool)
        ensures
            found == contains(request@, expect_100_continue()),
    {
        proof {
            use_type_invariant(self);
        }
        find_with_lsp_table(
            self.expect_100_continue,
            request,
            self.expect_100_continue_lsp.as_slice(),
        ).is_some()
    }
}

/// The request begins with the method `POST`.
pub open spec fn is_post(request: Seq<u8>) -> bool {
    &&& request.len() >= 4
    &&& request[0] == 'P' as u8
    &&& request[1] == 'O' as u8
    &&& request[2] == 'S' as u8
    &&& request[3] == 'T' as u8
}

/// What to do with what has been read of a request.
#[derive(Debug, Clone, Copy, PartialEq, Eq, Structural)]
pub enum Preflight {
    /// Dispatch it: it is no `POST`, or its headers have ended, or it has
    /// no body.
    Dispatch,
    /// Answer `100 Continue`, read once more, then dispatch.
    ContinueThenRead,
    /// Read once more, then dispatch.
    ReadMore,
}

/// What the preflight decides for the bytes read so far.
pub open spec fn preflight_of(request: Seq<u8>) -> Preflight {
    if !is_post(request) || has_empty_line(request) || contains(request, content_length_zero()) {
        Preflight::Dispatch
    } else if contains(request, expect_100_continue()) {
        Preflight::ContinueThenRead
    } else {
        Preflight::ReadMore
    }
}

/// Decides what to do with the bytes read so far of a request.
pub fn preflight(request: &[u8], tables: &KmpTables) -> (decision: Preflight)
    ensures
        decision == preflight_of(request@),
{
    let post = request.len() >= 4 && request[0] == 'P' as u8 && request[1] == 'O' as u8
        && request[2] == 'S' as u8 && request[3] == 'T' as u8;
    if !post || find_empty_line(request) || tables.has_content_length_zero(request) {
        Preflight::Dispatch
    } else if tables.has_expect_100_continue(request) {
        Preflight::ContinueThenRead
    } else {
        Preflight::ReadMore
    }
}

} // verus!
