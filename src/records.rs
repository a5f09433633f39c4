use vstd::prelude::*;

verus! {

/// Lifecycle of an intent: `Active` when created, `Paused` and `Active` again at its
/// owner's request, `Executed` once an execution has been recorded for it.
#[derive(Clone, Copy, Debug, PartialEq, Eq, Structural)]
pub enum IntentStatus {
    Active,
    Paused,
    Executed,
}

/// Why a call was rejected. A rejected call leaves the contract unchanged.
#[derive(Clone, Copy, Debug, PartialEq, Eq, Structural)]
pub enum ArbitrageError {
    /// The attached deposit is below one whole unit of the settlement currency.
    InsufficientDeposit,
    /// A price or threshold is no non-negative decimal literal that fits, or the lower
    /// of the two prices is zero.
    InvalidInput,
    /// No intent has the given id.
    NotFound,
    /// The caller does not own the intent.
    Unauthorized,
    /// The intent is not active, or the price gap is below its threshold.
    PreconditionFailed,
    /// A counter or a profit total would leave its integer range.
    Overflow,
}

/// A standing declaration of willingness to act on a price gap. Amounts are in minor
/// units: 10^24 of them make one whole.
#[derive(Clone, Debug)]
pub struct ArbitrageIntent {
    pub id: String,
    pub user: String,
    pub token_pair: String,
    /// The smallest price gap, in percent of the lower price, that the intent acts on.
    pub min_profit_threshold: u128,
    pub status: IntentStatus,
    pub created_at: u64,
}

/// The immutable record of one executed intent. Prices and amounts are in minor units.
#[derive(Clone, Debug)]
pub struct ArbitrageExecution {
    pub id: String,
    pub intent_id: String,
    pub user: String,
    pub token_pair: String,
    pub price_diff: u128,
    pub profit: u128,
    pub gas_fees: u128,
    pub tx_hash: String,
    pub timestamp: u64,
    pub near_price: u128,
    pub eth_price: u128,
}

/// An authorization produced on another chain for an execution; stored, not checked.
#[derive(Clone, Debug)]
pub struct CrossChainSignature {
    pub signature: Vec<u8>,
    pub public_key: Vec<u8>,
    pub chain_id: u64,
    pub nonce: u64,
}

/// The running profit total of one user, in minor units.
#[derive(Clone, Debug)]
pub struct ProfitEntry {
    pub user: String,
    pub total: u128,
}

/// The signature stored for one execution id.
#[derive(Clone, Debug)]
pub struct SignatureEntry {
    pub execution_id: String,
    pub record: CrossChainSignature,
}

/// The settlement call that the host issues, fire and forget, after an execution.
#[derive(Clone, Debug)]
pub struct SettlementCall {
    pub execution_id: String,
}

/// A summary of the contract.
#[derive(Clone, Debug)]
pub struct ContractInfo {
    pub name: String,
    pub version: String,
    pub owner: String,
    pub total_intents: u64,
    pub total_executions: u64,
}

/// The intents of `s` that `user` owns, in order.
pub open spec fn owned_intents(s: Seq<ArbitrageIntent>, user: Seq<char>) -> Seq<ArbitrageIntent>
    decreases s.len(),
{
    if s.len() == 0 {
        Seq::empty()
    } else if s.last().user@ == user {
        owned_intents(s.drop_last(), user).push(s.last())
    } else {
        owned_intents(s.drop_last(), user)
    }
}

/// The executions of `s` that `user` owns, in order.
pub open spec fn owned_executions(s: Seq<ArbitrageExecution>, user: Seq<char>) -> Seq<
    ArbitrageExecution,
>
    decreases s.len(),
{
    if s.len() == 0 {
        Seq::empty()
    } else if s.last().user@ == user {
        owned_executions(s.drop_last(), user).push(s.last())
    } else {
        owned_executions(s.drop_last(), user)
    }
}

/// The sum of the profits of `s`, in minor units.
pub open spec fn profit_sum(s: Seq<ArbitrageExecution>) -> nat
    decreases s.len(),
{
    if s.len() == 0 {
        0
    } else {
        profit_sum(s.drop_last()) + s.last().profit as nat
    }
}

pub fn copy_intent(x: &ArbitrageIntent) -> (r: ArbitrageIntent)
    ensures
        r == *x,
{
    ArbitrageIntent {
        id: x.id.clone(),
        user: x.user.clone(),
        token_pair: x.token_pair.clone(),
        min_profit_threshold: x.min_profit_threshold,
        status: x.status,
        created_at: x.created_at,
    }
}

pub fn copy_execution(x: &ArbitrageExecution) -> (r: ArbitrageExecution)
    ensures
        r == *x,
{
    ArbitrageExecution {
        id: x.id.clone(),
        intent_id: x.intent_id.clone(),
        user: x.user.clone(),
        token_pair: x.token_pair.clone(),
        price_diff: x.price_diff,
        profit: x.profit,
        gas_fees: x.gas_fees,
        tx_hash: x.tx_hash.clone(),
        timestamp: x.timestamp,
        near_price: x.near_price,
        eth_price: x.eth_price,
    }
}

} // verus!
