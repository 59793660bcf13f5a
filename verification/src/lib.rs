//! Concentrated-liquidity AMM engine for XRPL / Bedrock and its analysis helpers.
pub mod abi;
pub mod adapter;
pub mod amm;
pub mod codec;
pub mod decimal;
pub mod execution_adapter;
pub mod fees;
pub mod fixed;
pub mod hooks;
pub mod intent;
pub mod labels;
pub mod host;
pub mod manager;
pub mod math;
pub mod oracle;
pub mod pool;
pub mod position;
pub mod price_feed;
pub mod price_math;
pub mod quant_math;
pub mod replay;
pub mod skeleton;
pub mod swap;
pub mod types;
pub mod tick;
pub mod tick_bitmap;
pub mod tick_order;
pub mod xrpl_types;
