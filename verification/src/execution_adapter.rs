//! A self-contained dual-path adapter whose submissions are simulated: the
//! Bedrock path returns the input less one, the XRPL path less two.
use vstd::prelude::*;

verus! {

#[derive(Debug, Clone, Copy, PartialEq, Eq, Structural)]
pub enum ExecutionPath {
    BedrockDirect,
    DirectXrpl,
}

#[derive(Debug, Clone, Copy, PartialEq, Eq, Structural)]
pub enum AdapterError {
    Unsupported,
    SubmissionFailed,
    Timeout,
}

pub struct SwapRequest {
    pub amount_in: u64,
    pub min_amount_out: u64,
    pub zero_for_one: bool,
}

pub struct SwapReceipt {
    pub path: ExecutionPath,
    pub amount_out: u64,
    pub tx_hash: [u8; 32],
}

/// A swap backend that can say which paths it serves.
pub trait ExecutionAdapter {
    fn supports_path(&self, path: ExecutionPath) -> bool;

    fn submit_swap(&self, req: &SwapRequest) -> Result<SwapReceipt, AdapterError>;
}

pub struct DualPathAdapter {
    pub prefer_bedrock: bool,
    pub bedrock_available: bool,
    pub xrpl_available: bool,
}

/// The path the adapter picks: Bedrock when preferred and available, else
/// XRPL when available, else Bedrock when available.
pub open spec fn chosen_path(a: DualPathAdapter) -> Result<ExecutionPath, AdapterError> {
    if a.prefer_bedrock && a.bedrock_available {
        Ok(ExecutionPath::BedrockDirect)
    } else if a.xrpl_available {
        Ok(ExecutionPath::DirectXrpl)
    } else if a.bedrock_available {
        Ok(ExecutionPath::BedrockDirect)
    } else {
        Err(AdapterError::Unsupported)
    }
}

/// The receipt a simulated submission returns: the input less `cost`, and
/// a hash of repeated `mark` bytes.
pub open spec fn simulated(path: ExecutionPath, amount_in: u64, cost: u64, mark: u8) -> SwapReceipt {
    SwapReceipt {
        path,
        amount_out: if amount_in < cost {
            0
        } else {
            (amount_in - cost) as u64
        },
        tx_hash: vstd::array::spec_array_fill_for_copy_type::<u8, 32>(mark),
    }
}

impl DualPathAdapter {
    /// The preferred execution path.
    pub fn choose_path(&self) -> (r: Result<ExecutionPath, AdapterError>)
        ensures
            r == chosen_path(*self),
    {
        if self.prefer_bedrock && self.bedrock_available {
            return Ok(ExecutionPath::BedrockDirect);
        }
        if self.xrpl_available {
            return Ok(ExecutionPath::DirectXrpl);
        }
        if self.bedrock_available {
            return Ok(ExecutionPath::BedrockDirect);
        }
        Err(AdapterError::Unsupported)
    }

    /// Executes on the chosen path; any Bedrock failure falls back to XRPL.
    pub fn execute_with_fallback(&self, req: &SwapRequest) -> (r: Result<SwapReceipt, AdapterError>)
        ensures
            match chosen_path(*self) {
                Err(e) => r == Err::<SwapReceipt, AdapterError>(e),
                Ok(ExecutionPath::BedrockDirect) => r == Ok::<SwapReceipt, AdapterError>(
                    simulated(ExecutionPath::BedrockDirect, req.amount_in, 1, 1),
                ),
                Ok(ExecutionPath::DirectXrpl) => r == Ok::<SwapReceipt, AdapterError>(
                    simulated(ExecutionPath::DirectXrpl, req.amount_in, 2, 2),
                ),
            },
    {
        let path = match self.choose_path() {
            Ok(p) => p,
            Err(e) => return Err(e),
        };
        match path {
            ExecutionPath::BedrockDirect => {
                match self.submit_bedrock(req) {
                    Ok(r) => Ok(r),
                    Err(_) => self.submit_xrpl(req),
                }
            },
            ExecutionPath::DirectXrpl => self.submit_xrpl(req),
        }
    }

    fn submit_bedrock(&self, req: &SwapRequest) -> (r: Result<SwapReceipt, AdapterError>)
        ensures
            r == if self.bedrock_available {
                Ok(simulated(ExecutionPath::BedrockDirect, req.amount_in, 1, 1))
            } else {
                Err::<SwapReceipt, AdapterError>(AdapterError::Unsupported)
            },
    {
        if !self.bedrock_available {
            return Err(AdapterError::Unsupported);
        }
        Ok(
            SwapReceipt {
                path: ExecutionPath::BedrockDirect,
                amount_out: req.amount_in.saturating_sub(1),
                tx_hash: [1u8; 32],
            },
        )
    }

    fn submit_xrpl(&self, req: &SwapRequest) -> (r: Result<SwapReceipt, AdapterError>)
        ensures
            r == if self.xrpl_available {
                Ok(simulated(ExecutionPath::DirectXrpl, req.amount_in, 2, 2))
            } else {
                Err::<SwapReceipt, AdapterError>(AdapterError::Unsupported)
            },
    {
        if !self.xrpl_available {
            return Err(AdapterError::Unsupported);
        }
        Ok(
            SwapReceipt {
                path: ExecutionPath::DirectXrpl,
                amount_out: req.amount_in.saturating_sub(2),
                tx_hash: [2u8; 32],
            },
        )
    }
}

} // verus!
