//! Helpers for the XRP/USD price feed's replies.
use vstd::prelude::*;
use vstd::string::{StrSliceExecFns, StringExecFns};

verus! {

/// How many characters of a reply an error message quotes.
pub const SNIPPET_CHARS: usize = 240;

/// The part of a reply that an error message quotes: its first
/// `SNIPPET_CHARS` characters, followed by `...` when the reply is longer.
pub open spec fn snippet(body: Seq<char>) -> Seq<char> {
    if body.len() > SNIPPET_CHARS {
        body.take(SNIPPET_CHARS as int) + seq!['.', '.', '.']
    } else {
        body
    }
}

/// Quotes at most `SNIPPET_CHARS` characters of a reply, marking a cut
/// with `...`.
pub fn truncate_body(body: &str) -> (r: String)
    ensures
        r@ == snippet(body@),
{
    let n = body.unicode_len();
    if n > SNIPPET_CHARS {
        let head = String::from_str(body.substring_char(0, SNIPPET_CHARS));
        let dots = "...";
        proof {
            reveal_strlit("...");
        }
        let r = head.concat(dots);
        assert(r@ =~= body@.take(SNIPPET_CHARS as int) + seq!['.', '.', '.']);
        r
    } else {
        String::from_str(body)
    }
}

/// Whether `s` begins with `prefix`.
pub open spec fn has_prefix(s: Seq<char>, prefix: Seq<char>) -> bool {
    prefix.len() <= s.len() && s.subrange(0, prefix.len() as int) == prefix
}

/// Whether `s` begins with `prefix`, compared character by character.
pub fn starts_with(s: &str, prefix: &str) -> (r: bool)
    ensures
        r == has_prefix(s@, prefix@),
{
    let n = prefix.unicode_len();
    if n > s.unicode_len() {
        return false;
    }
    let mut i: usize = 0;
    while i < n
        invariant
            n == prefix@.len(),
            n <= s@.len(),
            i <= n,
            forall|j: int| 0 <= j < i ==> s@[j] == prefix@[j],
        decreases n - i,
    {
        if s.get_char(i) != prefix.get_char(i) {
            proof {
                assert(s@.subrange(0, n as int)[i as int] != prefix@[i as int]);
            }
            return false;
        }
        i += 1;
    }
    assert(s@.subrange(0, n as int) =~= prefix@);
    true
}

/// Whether an XRPL RPC error reports an account the ledger does not hold
/// (an unfunded account): its message begins with `Account not found` or
/// with the error code `actNotFound`.
pub fn is_account_not_found(message: &str) -> (r: bool)
    ensures
        r == (has_prefix(message@, "Account not found"@) || has_prefix(message@, "actNotFound"@)),
{
    starts_with(message, "Account not found") || starts_with(message, "actNotFound")
}

} // verus!
