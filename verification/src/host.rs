//! The host interface as seen off chain: the in-memory stand-ins for the
//! host calls, and the blob framing used for contract storage.
//!
//! A stored blob is `[7 (the blob type), length, data…]`, the length in
//! XRPL's variable-length form: one byte up to 192, two bytes above.
use vstd::prelude::*;

verus! {

pub type AccountId = [u8; 20];

/// The all-zero account.
pub open spec fn zero_account() -> AccountId {
    vstd::array::spec_array_fill_for_copy_type::<u8, 20>(0u8)
}

/// The transaction's sender: off chain, the zero account.
pub fn bedrock_get_sender() -> (r: [u8; 20])
    ensures
        r == zero_account(),
{
    [0u8; 20]
}

/// The executing contract's account: off chain, the zero account.
pub fn bedrock_get_current_account() -> (r: [u8; 20])
    ensures
        r == zero_account(),
{
    [0u8; 20]
}

/// The transaction's sender.
pub fn sender() -> (r: AccountId)
    ensures
        r == zero_account(),
{
    bedrock_get_sender()
}

/// Stores a value: off chain, nothing is kept.
pub fn set(_key: &[u8], _val: &[u8]) {
}

/// Reads a stored value: off chain, nothing is there.
pub fn get(_key: &[u8]) -> (r: Option<Vec<u8>>)
    ensures
        r is None,
{
    None
}

/// Calls another contract: off chain, every call fails.
pub fn invoke(_address: &[u8; 20], _function: &str, _params: &[u8]) -> (r: Result<i32, ()>)
    ensures
        r is Err,
{
    Err(())
}

/// The variable-length header of a blob of `n` bytes.
pub open spec fn vl_header(n: nat) -> Seq<u8> {
    if n <= 192 {
        seq![n as u8]
    } else {
        seq![(193 + (n - 193) / 256) as u8, ((n - 193) % 256) as u8]
    }
}

/// A blob framing `data`: its type byte, its length header, the data.
pub open spec fn blob(data: Seq<u8>) -> Seq<u8> {
    seq![7u8] + vl_header(data.len()) + data
}

/// What `decode_blob` reads from `buf`: the data of a well-framed blob, or
/// `None` for a wrong type byte or a header or data running past the end.
pub open spec fn unblob(buf: Seq<u8>) -> Option<Seq<u8>> {
    if buf.len() == 0 || buf[0] != 7 || buf.len() < 2 {
        None
    } else if buf[1] <= 192 {
        let len = buf[1] as int;
        if buf.len() < 2 + len {
            None
        } else {
            Some(buf.subrange(2, 2 + len))
        }
    } else if buf.len() >= 3 {
        let len = (buf[1] - 193) * 256 + buf[2] + 193;
        if buf.len() < 3 + len {
            None
        } else {
            Some(buf.subrange(3, 3 + len))
        }
    } else {
        None
    }
}

/// Frames raw bytes as a blob.
pub fn encode_blob(data: &[u8]) -> (out: Vec<u8>)
    ensures
        out@ == blob(data@),
{
    let mut out: Vec<u8> = Vec::new();
    // Blob type.
    out.push(7u8);
    let n = data.len();
    if n <= 192 {
        out.push(n as u8);
    } else {
        let n2 = n - 193;
        out.push(#[verifier::truncate] ((193 + n2 / 256) as u8));
        out.push((n2 % 256) as u8);
    }
    let ghost head = out@;
    assert(head =~= seq![7u8] + vl_header(data@.len()));
    let mut i: usize = 0;
    while i < data.len()
        invariant
            i <= data@.len(),
            out@ == head + data@.subrange(0, i as int),
        decreases data@.len() - i,
    {
        out.push(data[i]);
        proof {
            assert(data@.subrange(0, i + 1) =~= data@.subrange(0, i as int).push(data@[i as int]));
        }
        i += 1;
    }
    assert(data@.subrange(0, data@.len() as int) =~= data@);
    out
}

/// Strips the type byte and length header from a blob.
pub fn decode_blob(buf: &[u8]) -> (r: Option<&[u8]>)
    ensures
        match r {
            Some(s) => unblob(buf@) == Some(s@),
            None => unblob(buf@) is None,
        },
{
    if buf.len() == 0 {
        return None;
    }
    // Expecting the blob type.
    if buf[0] != 7 {
        return None;
    }
    if buf.len() < 2 {
        return None;
    }
    let (len, hdr_len): (usize, usize) = if buf[1] <= 192 {
        (buf[1] as usize, 1usize)
    } else if buf.len() >= 3 {
        let n = (buf[1] as usize - 193) * 256 + buf[2] as usize + 193;
        (n, 2usize)
    } else {
        return None;
    };
    let start = 1 + hdr_len;
    if buf.len() < start || len > buf.len() - start {
        return None;
    }
    Some(vstd::slice::slice_subrange(buf, start, start + len))
}

/// The payload of a stored field as the host hands it back: the data of a
/// framed blob, or the bytes as they are when they are not a framed blob.
pub fn field_payload(stored: &[u8]) -> (r: Vec<u8>)
    ensures
        r@ == match unblob(stored@) {
            Some(d) => d,
            None => stored@,
        },
{
    match decode_blob(stored) {
        Some(raw) => vstd::slice::slice_to_vec(raw),
        None => vstd::slice::slice_to_vec(stored),
    }
}

/// Reading back a framed blob gives its data, for up to 12_480 bytes (the
/// largest length the two-byte header carries).
pub proof fn lemma_blob_round_trip(data: Seq<u8>)
    requires
        data.len() <= 12_480,
    ensures
        unblob(blob(data)) == Some(data),
{
    let b = blob(data);
    let n = data.len() as int;
    if n <= 192 {
        assert(b[1] == n as u8);
        assert(b.subrange(2, 2 + n) =~= data);
    } else {
        let n2 = n - 193;
        assert(n2 / 256 <= 47);
        assert(b[1] == (193 + n2 / 256) as u8);
        assert(b[2] == (n2 % 256) as u8);
        assert((b[1] - 193) * 256 + b[2] + 193 == n);
        assert(b.subrange(3, 3 + n) =~= data);
    }
}

} // verus!
