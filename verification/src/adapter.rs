//! Execution adapter: routes swaps through Bedrock or the direct XRPL path.
//!
//! `DualPathAdapter` tries the preferred path and falls back automatically.
//! Both paths share the same pre- and post-validation, so the invariants
//! hold whichever backend runs the swap.
use vstd::prelude::*;
use crate::pool::{ContractState, swap_exact_in_inner, swap_exact_in_result, swap_exact_in_effect, swap_ready};
use crate::types::{ContractError, error_code};

verus! {

#[derive(Debug, Clone, Copy, PartialEq, Eq, Structural)]
pub enum ExecutionPath {
    BedrockDirect,
    DirectXrpl,
}

#[derive(Debug, Clone, Copy, PartialEq, Eq, Structural)]
pub enum AdapterError {
    /// Neither path is available.
    Unsupported,
    /// Path-level submission failed.
    SubmissionFailed,
    /// No response within deadline.
    Timeout,
    /// Contract-level error (e.g. slippage exceeded), by its code.
    ContractError(u32),
}

impl From<ContractError> for AdapterError {
    fn from(e: ContractError) -> (r: Self) {
        AdapterError::ContractError(e.code())
    }
}

impl vstd::std_specs::convert::FromSpecImpl<ContractError> for AdapterError {
    open spec fn obeys_from_spec() -> bool {
        true
    }

    open spec fn from_spec(e: ContractError) -> AdapterError {
        AdapterError::ContractError(error_code(e))
    }
}

#[derive(Debug, Clone)]
pub struct SwapRequest {
    /// Sender account id (20 bytes).
    pub sender: [u8; 20],
    /// Gross input amount.
    pub amount_in: u64,
    /// Minimum accepted output (slippage guard).
    pub min_amount_out: u64,
    /// true = token0 → token1 (price down), false = reverse.
    pub zero_for_one: bool,
    /// Hard price boundary in Q64.64.
    pub sqrt_price_limit: u128,
}

#[derive(Debug, Clone)]
pub struct SwapReceipt {
    pub path: ExecutionPath,
    pub amount_out: u64,
    /// On-chain transaction hash (32 bytes, zeroed when simulated).
    pub tx_hash: [u8; 32],
}

pub struct DualPathAdapter {
    pub prefer_bedrock: bool,
    pub bedrock_available: bool,
    pub xrpl_available: bool,
}

/// The path the adapter picks: Bedrock when preferred and available, else
/// XRPL when available, else Bedrock when available.
pub open spec fn chosen_path(a: DualPathAdapter) -> Result<ExecutionPath, AdapterError> {
    if a.prefer_bedrock && a.bedrock_available {
        Ok(ExecutionPath::BedrockDirect)
    } else if a.xrpl_available {
        Ok(ExecutionPath::DirectXrpl)
    } else if a.bedrock_available {
        Ok(ExecutionPath::BedrockDirect)
    } else {
        Err(AdapterError::Unsupported)
    }
}

/// The 1% slippage cap: some input, and a minimum output of at least 99%
/// of it.
pub open spec fn slippage_check(req: SwapRequest) -> Result<(), AdapterError> {
    if req.amount_in == 0 {
        Err(AdapterError::ContractError(error_code(ContractError::InvalidLiquidityDelta)))
    } else if (req.min_amount_out as int) < req.amount_in as int * 99 / 100 {
        Err(AdapterError::ContractError(error_code(ContractError::SlippageLimitExceeded)))
    } else {
        Ok(())
    }
}

/// What the contract pays out for the request: its output, or 0 on error.
pub open spec fn contract_out(s: ContractState, req: SwapRequest) -> u64 {
    match swap_exact_in_result(
        s,
        req.amount_in,
        req.min_amount_out,
        req.zero_for_one,
        req.sqrt_price_limit,
    ) {
        Ok(out) => out,
        Err(_) => 0,
    }
}

/// What submitting on `path` returns: `Unsupported` when the path is down,
/// the slippage error, a contract error when nothing came out though some
/// output was required, or the receipt.
pub open spec fn submit_result(path: ExecutionPath, available: bool, s: ContractState, req: SwapRequest) -> Result<SwapReceipt, AdapterError> {
    if !available {
        Err(AdapterError::Unsupported)
    } else if slippage_check(req) is Err {
        Err(slippage_check(req)->Err_0)
    } else if contract_out(s, req) == 0 && req.min_amount_out > 0 {
        Err(AdapterError::ContractError(error_code(ContractError::SlippageLimitExceeded)))
    } else {
        Ok(
            SwapReceipt {
                path,
                amount_out: contract_out(s, req),
                tx_hash: vstd::array::spec_array_fill_for_copy_type::<u8, 32>(0u8),
            },
        )
    }
}

/// How submitting moves the contract state: untouched unless the swap ran.
pub open spec fn submit_effect(available: bool, s: ContractState, n: ContractState, req: SwapRequest) -> bool {
    if !available || slippage_check(req) is Err {
        n == s
    } else {
        swap_exact_in_effect(
            s,
            n,
            req.amount_in,
            req.min_amount_out,
            req.zero_for_one,
            req.sqrt_price_limit,
        )
    }
}

/// Both paths apply the same checks, so what holds of one holds of the
/// other: on the same state and request they answer alike but for the path
/// a receipt names, and a receipt from either pays at least the request's
/// minimum, which is at least 99% of a non-zero input.
pub proof fn lemma_paths_share_validation(s: ContractState, req: SwapRequest)
    ensures
        submit_result(ExecutionPath::BedrockDirect, true, s, req) == match submit_result(
            ExecutionPath::DirectXrpl,
            true,
            s,
            req,
        ) {
            Ok(rc) => Ok(SwapReceipt { path: ExecutionPath::BedrockDirect, ..rc }),
            Err(e) => Err(e),
        },
        submit_result(ExecutionPath::DirectXrpl, true, s, req) is Ok ==> {
            let rc = submit_result(ExecutionPath::DirectXrpl, true, s, req)->Ok_0;
            &&& rc.amount_out >= req.min_amount_out
            &&& req.amount_in > 0
            &&& req.min_amount_out >= req.amount_in as int * 99 / 100
        },
{
}

impl DualPathAdapter {
    pub fn new(prefer_bedrock: bool, bedrock_available: bool, xrpl_available: bool) -> (r: Self)
        ensures
            r.prefer_bedrock == prefer_bedrock,
            r.bedrock_available == bedrock_available,
            r.xrpl_available == xrpl_available,
    {
        Self { prefer_bedrock, bedrock_available, xrpl_available }
    }

    /// The preferred execution path.
    pub fn choose_path(&self) -> (r: Result<ExecutionPath, AdapterError>)
        ensures
            r == chosen_path(*self),
    {
        if self.prefer_bedrock && self.bedrock_available {
            return Ok(ExecutionPath::BedrockDirect);
        }
        if self.xrpl_available {
            return Ok(ExecutionPath::DirectXrpl);
        }
        if self.bedrock_available {
            return Ok(ExecutionPath::BedrockDirect);
        }
        Err(AdapterError::Unsupported)
    }

    /// Executes on the chosen path; a failed Bedrock attempt falls back to
    /// XRPL when it is available, on the state the attempt left.
    pub fn execute_with_fallback(&self, s: &mut ContractState, req: &SwapRequest) -> (r: Result<
        SwapReceipt,
        AdapterError,
    >)
        requires
            old(s).wf(),
            swap_ready(*old(s), req.zero_for_one),
        ensures
            final(s).wf(),
            swap_ready(*final(s), req.zero_for_one),
            match chosen_path(*self) {
                Err(e) => r == Err::<SwapReceipt, AdapterError>(e) && *final(s) == *old(s),
                Ok(ExecutionPath::DirectXrpl) => {
                    &&& r == submit_result(
                        ExecutionPath::DirectXrpl,
                        self.xrpl_available,
                        *old(s),
                        *req,
                    )
                    &&& submit_effect(self.xrpl_available, *old(s), *final(s), *req)
                },
                Ok(ExecutionPath::BedrockDirect) => {
                    let first = submit_result(
                        ExecutionPath::BedrockDirect,
                        self.bedrock_available,
                        *old(s),
                        *req,
                    );
                    if first is Ok || !self.xrpl_available {
                        r == first && submit_effect(self.bedrock_available, *old(s), *final(s), *req)
                    } else {
                        exists|mid: ContractState|
                            #![trigger submit_effect(self.bedrock_available, *old(s), mid, *req)]
                            submit_effect(self.bedrock_available, *old(s), mid, *req) && r
                                == submit_result(ExecutionPath::DirectXrpl, true, mid, *req)
                                && submit_effect(true, mid, *final(s), *req)
                    }
                },
            },
    {
        let path = match self.choose_path() {
            Ok(p) => p,
            Err(e) => return Err(e),
        };
        match path {
            ExecutionPath::BedrockDirect => {
                let ghost s0 = *s;
                match self.submit_bedrock(s, req) {
                    Ok(r) => Ok(r),
                    Err(e) => {
                        if self.xrpl_available {
                            let ghost mid = *s;
                            let r = self.submit_xrpl(s, req);
                            assert(submit_effect(self.bedrock_available, s0, mid, *req));
                            r
                        } else {
                            Err(e)
                        }
                    },
                }
            },
            ExecutionPath::DirectXrpl => self.submit_xrpl(s, req),
        }
    }

    fn submit_bedrock(&self, s: &mut ContractState, req: &SwapRequest) -> (r: Result<SwapReceipt, AdapterError>)
        requires
            old(s).wf(),
            swap_ready(*old(s), req.zero_for_one),
        ensures
            final(s).wf(),
            swap_ready(*final(s), req.zero_for_one),
            r == submit_result(ExecutionPath::BedrockDirect, self.bedrock_available, *old(s), *req),
            submit_effect(self.bedrock_available, *old(s), *final(s), *req),
    {
        if !self.bedrock_available {
            return Err(AdapterError::Unsupported);
        }
        // Enforce the slippage cap before sending to the chain.
        match self.validate_slippage(req) {
            Ok(_) => {},
            Err(e) => return Err(e),
        }
        // The contract's swap, run in process.
        let amount_out = match swap_exact_in_inner(
            s,
            req.amount_in,
            req.min_amount_out,
            req.zero_for_one,
            req.sqrt_price_limit,
        ) {
            Ok(out) => out,
            Err(_) => 0,
        };
        if amount_out == 0 && req.min_amount_out > 0 {
            return Err(AdapterError::ContractError(ContractError::SlippageLimitExceeded.code()));
        }
        Ok(SwapReceipt { path: ExecutionPath::BedrockDirect, amount_out, tx_hash: [0u8; 32] })
    }

    fn submit_xrpl(&self, s: &mut ContractState, req: &SwapRequest) -> (r: Result<SwapReceipt, AdapterError>)
        requires
            old(s).wf(),
            swap_ready(*old(s), req.zero_for_one),
        ensures
            final(s).wf(),
            swap_ready(*final(s), req.zero_for_one),
            r == submit_result(ExecutionPath::DirectXrpl, self.xrpl_available, *old(s), *req),
            submit_effect(self.xrpl_available, *old(s), *final(s), *req),
    {
        if !self.xrpl_available {
            return Err(AdapterError::Unsupported);
        }
        match self.validate_slippage(req) {
            Ok(_) => {},
            Err(e) => return Err(e),
        }
        // The contract's swap, run in process.
        let amount_out = match swap_exact_in_inner(
            s,
            req.amount_in,
            req.min_amount_out,
            req.zero_for_one,
            req.sqrt_price_limit,
        ) {
            Ok(out) => out,
            Err(_) => 0,
        };
        if amount_out == 0 && req.min_amount_out > 0 {
            return Err(AdapterError::ContractError(ContractError::SlippageLimitExceeded.code()));
        }
        Ok(SwapReceipt { path: ExecutionPath::DirectXrpl, amount_out, tx_hash: [0u8; 32] })
    }

    /// The 1% hard slippage cap, enforced before any submission.
    fn validate_slippage(&self, req: &SwapRequest) -> (r: Result<(), AdapterError>)
        ensures
            r == slippage_check(*req),
    {
        if req.amount_in == 0 {
            return Err(AdapterError::ContractError(ContractError::InvalidLiquidityDelta.code()));
        }
        // The minimum output must be at least 99% of the input.
        let floor = req.amount_in as u128 * 99 / 100;
        if (req.min_amount_out as u128) < floor {
            return Err(AdapterError::ContractError(ContractError::SlippageLimitExceeded.code()));
        }
        Ok(())
    }
}

} // verus!
