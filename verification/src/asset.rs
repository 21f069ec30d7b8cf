//! Per-asset-class rule plug-ins: market-open gating, pre-trade
//! validation, and tick precision metadata.
//!
//! Every implementation is a pure, stateless predicate; the spec-level
//! methods pin each executable method exactly, so the engine's contracts
//! can speak of the rules' verdicts.

use vstd::prelude::*;

verus! {

/// The asset classes the venue supports.
#[derive(Clone, Copy, Debug, PartialEq, Eq, Structural)]
pub enum AssetType {
    Crypto,
    Forex,
    Stock,
    Bond,
    ETF,
    Commodity,
    Option,
    Future,
}

/// Rules consulted exactly once per submission, before any mutation.
/// Implementations must be pure: each executable method returns exactly
/// what its spec-level counterpart says.
pub trait AssetBehavior: Sized {
    /// What `is_market_open` returns.
    spec fn spec_market_open(&self, timestamp: u64) -> bool;

    /// What `validate_order` returns.
    spec fn spec_validate(&self, price: u64, quantity: u64) -> bool;

    /// What `get_type` returns.
    spec fn spec_type(&self) -> AssetType;

    /// What `get_pip_precision` returns.
    spec fn spec_pip_precision(&self) -> u32;

    /// The asset class tag.
    fn get_type(&self) -> (r: AssetType)
        ensures
            r == self.spec_type(),
    ;

    /// Pre-trade validation: tick size, lot size, bounds.
    fn validate_order(&self, price: u64, quantity: u64) -> (r: bool)
        ensures
            r == self.spec_validate(price, quantity),
    ;

    /// Decimal places of the minimum price increment.
    fn get_pip_precision(&self) -> (r: u32)
        ensures
            r == self.spec_pip_precision(),
    ;

    /// Whether matching is allowed at the given wall-clock time.
    fn is_market_open(&self, timestamp: u64) -> (r: bool)
        ensures
            r == self.spec_market_open(timestamp),
    ;
}

/// Crypto venues trade around the clock with no price limits.
pub struct CryptoAsset;

impl AssetBehavior for CryptoAsset {
    open spec fn spec_market_open(&self, timestamp: u64) -> bool {
        true
    }

    open spec fn spec_validate(&self, price: u64, quantity: u64) -> bool {
        true
    }

    open spec fn spec_type(&self) -> AssetType {
        AssetType::Crypto
    }

    open spec fn spec_pip_precision(&self) -> u32 {
        8
    }

    fn get_type(&self) -> (r: AssetType) {
        AssetType::Crypto
    }

    fn validate_order(&self, price: u64, quantity: u64) -> (r: bool) {
        true
    }

    fn get_pip_precision(&self) -> (r: u32) {
        8
    }

    fn is_market_open(&self, timestamp: u64) -> (r: bool) {
        true
    }
}

/// Foreign exchange.
pub struct ForexAsset;

impl AssetBehavior for ForexAsset {
    open spec fn spec_market_open(&self, timestamp: u64) -> bool {
        true
    }

    open spec fn spec_validate(&self, price: u64, quantity: u64) -> bool {
        true
    }

    open spec fn spec_type(&self) -> AssetType {
        AssetType::Forex
    }

    open spec fn spec_pip_precision(&self) -> u32 {
        5
    }

    fn get_type(&self) -> (r: AssetType) {
        AssetType::Forex
    }

    fn validate_order(&self, price: u64, quantity: u64) -> (r: bool) {
        true
    }

    fn get_pip_precision(&self) -> (r: u32) {
        5
    }

    fn is_market_open(&self, timestamp: u64) -> (r: bool) {
        true
    }
}

/// Listed equities.
pub struct StockAsset;

impl AssetBehavior for StockAsset {
    open spec fn spec_market_open(&self, timestamp: u64) -> bool {
        true
    }

    open spec fn spec_validate(&self, price: u64, quantity: u64) -> bool {
        true
    }

    open spec fn spec_type(&self) -> AssetType {
        AssetType::Stock
    }

    open spec fn spec_pip_precision(&self) -> u32 {
        2
    }

    fn get_type(&self) -> (r: AssetType) {
        AssetType::Stock
    }

    fn validate_order(&self, price: u64, quantity: u64) -> (r: bool) {
        true
    }

    fn get_pip_precision(&self) -> (r: u32) {
        2
    }

    fn is_market_open(&self, timestamp: u64) -> (r: bool) {
        true
    }
}

/// Government and corporate bonds.
pub struct BondAsset;

impl AssetBehavior for BondAsset {
    open spec fn spec_market_open(&self, timestamp: u64) -> bool {
        true
    }

    open spec fn spec_validate(&self, price: u64, quantity: u64) -> bool {
        true
    }

    open spec fn spec_type(&self) -> AssetType {
        AssetType::Bond
    }

    open spec fn spec_pip_precision(&self) -> u32 {
        4
    }

    fn get_type(&self) -> (r: AssetType) {
        AssetType::Bond
    }

    fn validate_order(&self, price: u64, quantity: u64) -> (r: bool) {
        true
    }

    fn get_pip_precision(&self) -> (r: u32) {
        4
    }

    fn is_market_open(&self, timestamp: u64) -> (r: bool) {
        true
    }
}

/// Exchange-traded funds.
pub struct ETFAsset;

impl AssetBehavior for ETFAsset {
    open spec fn spec_market_open(&self, timestamp: u64) -> bool {
        true
    }

    open spec fn spec_validate(&self, price: u64, quantity: u64) -> bool {
        true
    }

    open spec fn spec_type(&self) -> AssetType {
        AssetType::ETF
    }

    open spec fn spec_pip_precision(&self) -> u32 {
        2
    }

    fn get_type(&self) -> (r: AssetType) {
        AssetType::ETF
    }

    fn validate_order(&self, price: u64, quantity: u64) -> (r: bool) {
        true
    }

    fn get_pip_precision(&self) -> (r: u32) {
        2
    }

    fn is_market_open(&self, timestamp: u64) -> (r: bool) {
        true
    }
}

/// Commodities.
pub struct CommodityAsset;

impl AssetBehavior for CommodityAsset {
    open spec fn spec_market_open(&self, timestamp: u64) -> bool {
        true
    }

    open spec fn spec_validate(&self, price: u64, quantity: u64) -> bool {
        true
    }

    open spec fn spec_type(&self) -> AssetType {
        AssetType::Commodity
    }

    open spec fn spec_pip_precision(&self) -> u32 {
        3
    }

    fn get_type(&self) -> (r: AssetType) {
        AssetType::Commodity
    }

    fn validate_order(&self, price: u64, quantity: u64) -> (r: bool) {
        true
    }

    fn get_pip_precision(&self) -> (r: u32) {
        3
    }

    fn is_market_open(&self, timestamp: u64) -> (r: bool) {
        true
    }
}

/// Listed options.
pub struct OptionAsset;

impl AssetBehavior for OptionAsset {
    open spec fn spec_market_open(&self, timestamp: u64) -> bool {
        true
    }

    open spec fn spec_validate(&self, price: u64, quantity: u64) -> bool {
        true
    }

    open spec fn spec_type(&self) -> AssetType {
        AssetType::Option
    }

    open spec fn spec_pip_precision(&self) -> u32 {
        2
    }

    fn get_type(&self) -> (r: AssetType) {
        AssetType::Option
    }

    fn validate_order(&self, price: u64, quantity: u64) -> (r: bool) {
        true
    }

    fn get_pip_precision(&self) -> (r: u32) {
        2
    }

    fn is_market_open(&self, timestamp: u64) -> (r: bool) {
        true
    }
}

/// Futures.
pub struct FutureAsset;

impl AssetBehavior for FutureAsset {
    open spec fn spec_market_open(&self, timestamp: u64) -> bool {
        true
    }

    open spec fn spec_validate(&self, price: u64, quantity: u64) -> bool {
        true
    }

    open spec fn spec_type(&self) -> AssetType {
        AssetType::Future
    }

    open spec fn spec_pip_precision(&self) -> u32 {
        2
    }

    fn get_type(&self) -> (r: AssetType) {
        AssetType::Future
    }

    fn validate_order(&self, price: u64, quantity: u64) -> (r: bool) {
        true
    }

    fn get_pip_precision(&self) -> (r: u32) {
        2
    }

    fn is_market_open(&self, timestamp: u64) -> (r: bool) {
        true
    }
}

} // verus!
