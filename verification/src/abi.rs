//! The Bedrock calling convention of exported contract functions: how each
//! parameter reaches the function.
//!
//! Exported functions take no arguments on chain; each parameter is read
//! from the host by its ABI slot index and type code, except the account
//! parameter, which the host injects as the transaction sender.
use vstd::prelude::*;
use crate::labels::same_chars;

verus! {

/// How one parameter of an exported function is passed.
#[derive(Debug, Clone, Copy, PartialEq, Eq)]
pub enum AbiParam {
    /// An account id, injected by the host as the transaction sender; it
    /// takes no ABI slot.
    Sender,
    /// A scalar read from ABI slot `index` with the host's `type_code`,
    /// `width` bytes little-endian.
    Slot { index: i32, type_code: i32, width: usize },
    /// A type the convention does not carry.
    Unsupported,
}

/// The host type code and byte width of a scalar type: `u8` is STI_UINT8
/// (16, one byte), `u16` STI_UINT16 (1, two bytes), `u32` and `i32`
/// STI_UINT32 (2, four bytes), `u64` and `i64` STI_UINT64 (3, eight bytes).
pub open spec fn scalar_slot(ty: Seq<char>) -> Option<(i32, usize)> {
    if ty == "u8"@ {
        Some((16i32, 1usize))
    } else if ty == "u16"@ {
        Some((1i32, 2usize))
    } else if ty == "u32"@ || ty == "i32"@ {
        Some((2i32, 4usize))
    } else if ty == "u64"@ || ty == "i64"@ {
        Some((3i32, 8usize))
    } else {
        None
    }
}

/// The type spells an account id.
pub open spec fn is_account_type(ty: Seq<char>) -> bool {
    ty == "AccountId"@ || ty == "[u8;20]"@
}

/// How a parameter of type `ty` is passed when `index` slots precede it.
pub open spec fn param_of(ty: Seq<char>, index: int) -> AbiParam {
    if is_account_type(ty) {
        AbiParam::Sender
    } else {
        match scalar_slot(ty) {
            Some((code, width)) => AbiParam::Slot { index: index as i32, type_code: code, width },
            None => AbiParam::Unsupported,
        }
    }
}

/// Whether the parameter takes an ABI slot.
pub open spec fn takes_slot(p: AbiParam) -> bool {
    p is Slot
}

/// The parameters of a list of types, slots numbered in order from 0.
pub open spec fn params_of(types: Seq<Seq<char>>) -> Seq<AbiParam>
    decreases types.len(),
{
    if types.len() == 0 {
        Seq::empty()
    } else {
        let before = params_of(types.drop_last());
        before.push(param_of(types.last(), slots_used(before)))
    }
}

/// How many slots the parameters take.
pub open spec fn slots_used(ps: Seq<AbiParam>) -> int
    decreases ps.len(),
{
    if ps.len() == 0 {
        0
    } else {
        slots_used(ps.drop_last()) + if takes_slot(ps.last()) {
            1int
        } else {
            0int
        }
    }
}

/// How a parameter of type `ty` is passed when `index` slots precede it.
pub fn classify_param(ty: &str, index: i32) -> (r: AbiParam)
    ensures
        r == param_of(ty@, index as int),
{
    if same_chars(ty, "AccountId") || same_chars(ty, "[u8;20]") {
        return AbiParam::Sender;
    }
    if same_chars(ty, "u8") {
        return AbiParam::Slot { index, type_code: 16, width: 1 };
    }
    if same_chars(ty, "u16") {
        return AbiParam::Slot { index, type_code: 1, width: 2 };
    }
    if same_chars(ty, "u32") || same_chars(ty, "i32") {
        return AbiParam::Slot { index, type_code: 2, width: 4 };
    }
    if same_chars(ty, "u64") || same_chars(ty, "i64") {
        return AbiParam::Slot { index, type_code: 3, width: 8 };
    }
    AbiParam::Unsupported
}

/// How each parameter of an exported function with the given types is
/// passed, slots numbered in order from 0.
pub fn abi_params(types: &[String]) -> (r: Vec<AbiParam>)
    requires
        types.len() <= i32::MAX,
    ensures
        r@ == params_of(types@.map_values(|t: String| t@)),
{
    let ghost views = types@.map_values(|t: String| t@);
    let mut out: Vec<AbiParam> = Vec::new();
    let mut used: i32 = 0;
    let mut i: usize = 0;
    while i < types.len()
        invariant
            i <= types.len() <= i32::MAX,
            views == types@.map_values(|t: String| t@),
            out@ == params_of(views.take(i as int)),
            used as int == slots_used(out@),
            0 <= used <= i,
        decreases types.len() - i,
    {
        proof {
            assert(views.take(i + 1).drop_last() =~= views.take(i as int));
            assert(views.take(i + 1).last() == types@[i as int]@);
        }
        let p = classify_param(types[i].as_str(), used);
        let ghost prev = out@;
        out.push(p);
        proof {
            assert(out@.drop_last() =~= prev);
        }
        if let AbiParam::Slot { .. } = p {
            used = used + 1;
        }
        i += 1;
    }
    assert(views.take(types.len() as int) =~= views);
    out
}

/// Whether an exported function's result must be cast to the `i32` the
/// host expects: every declared result but `i32` itself.
pub fn return_needs_cast(ret: Option<&str>) -> (r: bool)
    ensures
        r == match ret {
            Some(t) => t@ != "i32"@,
            None => false,
        },
{
    match ret {
        Some(t) => !same_chars(t, "i32"),
        None => false,
    }
}

} // verus!
