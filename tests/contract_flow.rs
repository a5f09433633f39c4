use arbitrage_contract::contract::{ArbitrageContract, GAS_FEES, MIN_DEPOSIT};
use arbitrage_contract::records::{ArbitrageError, IntentStatus};

const ONE_NEAR: u128 = 1_000_000_000_000_000_000_000_000;
const TENTH_NEAR: u128 = 100_000_000_000_000_000_000_000;

fn owner() -> String {
    "alice".to_string()
}

fn bob() -> String {
    "bob".to_string()
}

fn contract_with_intent(threshold: &str) -> (ArbitrageContract, String) {
    let mut contract = ArbitrageContract::new(owner());
    let id = contract
        .create_intent(bob(), ONE_NEAR, 7, "ETH/USDC".to_string(), threshold.to_string())
        .unwrap();
    (contract, id)
}

#[test]
fn lib_test_create_intent() {
    let mut contract = ArbitrageContract::new(owner());
    let intent_id = contract
        .create_intent(bob(), ONE_NEAR, 0, "ETH/USDC".to_string(), "1.0".to_string())
        .unwrap();

    assert_eq!(intent_id, "1");
    let intent = contract.get_intent(intent_id).unwrap();
    assert_eq!(intent.user, bob());
    assert_eq!(intent.token_pair, "ETH/USDC");
    assert_eq!(intent.min_profit_threshold as f64 / 1e24, 1.0);
}

#[test]
fn lib_test_execute_arbitrage() {
    let mut contract = ArbitrageContract::new(owner());
    let intent_id = contract
        .create_intent(bob(), ONE_NEAR, 0, "ETH/USDC".to_string(), "1.0".to_string())
        .unwrap();

    let promise = contract.execute_arbitrage(
        &bob(),
        intent_id,
        "3000.0".to_string(),
        "2950.0".to_string(),
        1,
        vec![1, 2, 3],
    );
    assert!(promise.is_ok());

    let executions = contract.get_execution_history(bob());
    assert_eq!(executions.len(), 1);
    assert_eq!(executions[0].token_pair, "ETH/USDC");
    assert!(executions[0].profit > 0);
}

#[test]
fn arbitrage_test_create_intent() {
    let mut contract = ArbitrageContract::new(owner());
    let intent_id = contract
        .create_intent(
            bob(),
            1_000_000_000_000_000_000_000_000,
            0,
            "ETH/USDC".to_string(),
            "1.0".to_string(),
        )
        .unwrap();

    assert_eq!(intent_id, "1");
    let intent = contract.get_intent(intent_id).unwrap();
    assert_eq!(intent.user, bob());
    assert_eq!(intent.token_pair, "ETH/USDC");
}

#[test]
fn arbitrage_test_execute_arbitrage() {
    let mut contract = ArbitrageContract::new(owner());
    let intent_id = contract
        .create_intent(
            bob(),
            1_000_000_000_000_000_000_000_000,
            0,
            "ETH/USDC".to_string(),
            "1.0".to_string(),
        )
        .unwrap();

    let _deposit_for_execution: u128 = TENTH_NEAR;
    contract
        .execute_arbitrage(&bob(), intent_id, "3000.0".to_string(), "2950.0".to_string(), 1, vec![9])
        .unwrap();

    let executions = contract.get_execution_history(bob());
    assert_eq!(executions.len(), 1);
    assert_eq!(executions[0].token_pair, "ETH/USDC");
}

#[test]
fn ids_count_up_from_one() {
    let mut contract = ArbitrageContract::new(owner());
    let mut ids = Vec::new();
    for _ in 0..12 {
        ids.push(
            contract
                .create_intent(bob(), ONE_NEAR, 0, "A/B".to_string(), "1".to_string())
                .unwrap(),
        );
    }
    let expected: Vec<String> = (1..=12).map(|n: u64| n.to_string()).collect();
    assert_eq!(ids, expected);
    assert_eq!(contract.get_contract_info().total_intents, 12);
}

#[test]
fn deposit_below_minimum_is_refused() {
    let mut contract = ArbitrageContract::new(owner());
    let r = contract.create_intent(bob(), MIN_DEPOSIT - 1, 0, "A/B".to_string(), "1.0".to_string());
    assert_eq!(r, Err(ArbitrageError::InsufficientDeposit));
    assert_eq!(contract.next_intent_id, 1);
    assert!(contract.get_user_intents(bob()).is_empty());
    let r = contract.create_intent(bob(), MIN_DEPOSIT, 0, "A/B".to_string(), "1.0".to_string());
    assert_eq!(r, Ok("1".to_string()));
}

#[test]
fn bad_threshold_is_invalid_input() {
    let mut contract = ArbitrageContract::new(owner());
    for bad in ["", "abc", "-1", "1.2.3", ".", "1e3", "0.0000000000000000000000001"] {
        let r = contract.create_intent(bob(), ONE_NEAR, 0, "A/B".to_string(), bad.to_string());
        assert_eq!(r, Err(ArbitrageError::InvalidInput), "{}", bad);
    }
    assert_eq!(contract.next_intent_id, 1);
    assert!(contract.create_intent(bob(), ONE_NEAR, 0, "A/B".to_string(), ".5".to_string()).is_ok());
    assert!(contract.create_intent(bob(), ONE_NEAR, 0, "A/B".to_string(), "2.".to_string()).is_ok());
}

#[test]
fn created_intent_is_active_and_listed() {
    let (contract, id) = contract_with_intent("1.0");
    let intent = contract.get_intent(id.clone()).unwrap();
    assert_eq!(intent.status, IntentStatus::Active);
    assert_eq!(intent.token_pair, "ETH/USDC");
    assert_eq!(intent.created_at, 7);
    let listed = contract.get_user_intents(bob());
    assert_eq!(listed.len(), 1);
    assert_eq!(listed[0].id, id);
    assert!(contract.get_user_intents(owner()).is_empty());
}

#[test]
fn create_then_get_pair_ab() {
    let mut contract = ArbitrageContract::new(owner());
    let id = contract.create_intent(bob(), ONE_NEAR, 0, "A/B".to_string(), "1.0".to_string()).unwrap();
    let intent = contract.get_intent(id.clone()).unwrap();
    assert_eq!(intent.status, IntentStatus::Active);
    assert_eq!(intent.token_pair, "A/B");
    assert!(contract.get_user_intents(bob()).iter().any(|i| i.id == id));
}

#[test]
fn pause_by_stranger_is_unauthorized() {
    let (mut contract, id) = contract_with_intent("1.0");
    let r = contract.pause_intent(&"mallory".to_string(), id.clone());
    assert_eq!(r, Err(ArbitrageError::Unauthorized));
    assert_eq!(contract.get_intent(id).unwrap().status, IntentStatus::Active);
}

#[test]
fn pause_and_resume_by_owner() {
    let (mut contract, id) = contract_with_intent("1.0");
    assert_eq!(contract.pause_intent(&bob(), id.clone()), Ok(()));
    assert_eq!(contract.get_intent(id.clone()).unwrap().status, IntentStatus::Paused);
    assert_eq!(contract.resume_intent(&bob(), id.clone()), Ok(()));
    assert_eq!(contract.get_intent(id.clone()).unwrap().status, IntentStatus::Active);
    assert_eq!(contract.resume_intent(&owner(), id), Err(ArbitrageError::Unauthorized));
}

#[test]
fn unknown_intent_is_not_found() {
    let (mut contract, _) = contract_with_intent("1.0");
    assert_eq!(contract.pause_intent(&bob(), "2".to_string()), Err(ArbitrageError::NotFound));
    assert_eq!(contract.resume_intent(&bob(), "01".to_string()), Err(ArbitrageError::NotFound));
    let r = contract.execute_arbitrage(&bob(), "9".to_string(), "2".to_string(), "1".to_string(), 0, vec![]);
    assert_eq!(r.unwrap_err(), ArbitrageError::NotFound);
    assert!(contract.get_intent("0".to_string()).is_none());
}

#[test]
fn paused_intent_cannot_execute() {
    let (mut contract, id) = contract_with_intent("1.0");
    contract.pause_intent(&bob(), id.clone()).unwrap();
    let r = contract.execute_arbitrage(&bob(), id, "3000.0".to_string(), "2950.0".to_string(), 1, vec![]);
    assert_eq!(r.unwrap_err(), ArbitrageError::PreconditionFailed);
    assert!(contract.get_execution_history(bob()).is_empty());
}

#[test]
fn execution_records_forty_percent_profit() {
    let (mut contract, id) = contract_with_intent("1.0");
    let call = contract
        .execute_arbitrage(&bob(), id.clone(), "3000.0".to_string(), "2950.0".to_string(), 42, vec![0xab, 0x01])
        .unwrap();
    assert_eq!(call.execution_id, "1");
    let execution = contract.get_execution("1".to_string()).unwrap();
    assert_eq!(execution.price_diff, 50 * ONE_NEAR);
    assert_eq!(execution.profit, 40 * ONE_NEAR);
    assert_eq!(execution.gas_fees, ONE_NEAR / 100);
    assert_eq!(execution.gas_fees, GAS_FEES);
    assert_eq!(execution.tx_hash, "ab01");
    assert_eq!(execution.timestamp, 42);
    assert_eq!(execution.intent_id, id);
    assert_eq!(execution.user, bob());
    assert_eq!(execution.near_price, 3000 * ONE_NEAR);
    assert_eq!(execution.eth_price, 2950 * ONE_NEAR);
    assert_eq!(contract.get_total_profit(bob()), 40_000_000_000_000_000_000_000_000);
    assert_eq!(contract.get_intent(id.clone()).unwrap().status, IntentStatus::Executed);
    let again = contract.execute_arbitrage(&bob(), id, "3000.0".to_string(), "2950.0".to_string(), 43, vec![]);
    assert_eq!(again.unwrap_err(), ArbitrageError::PreconditionFailed);
    assert_eq!(contract.get_execution_history(bob()).len(), 1);
}

#[test]
fn gap_below_threshold_is_refused() {
    let (mut contract, id) = contract_with_intent("5.0");
    let r = contract.execute_arbitrage(&bob(), id.clone(), "100.0".to_string(), "99.0".to_string(), 1, vec![]);
    assert_eq!(r.unwrap_err(), ArbitrageError::PreconditionFailed);
    assert!(contract.get_execution_history(bob()).is_empty());
    assert_eq!(contract.get_total_profit(bob()), 0);
    assert_eq!(contract.get_intent(id).unwrap().status, IntentStatus::Active);
    assert!(contract.get_execution("1".to_string()).is_none());
}

#[test]
fn threshold_boundary_is_exact() {
    // 1 over 100 is exactly 1 percent.
    let (mut contract, id) = contract_with_intent("1");
    assert!(contract.execute_arbitrage(&bob(), id, "101".to_string(), "100".to_string(), 1, vec![]).is_ok());
    let (mut contract, id) = contract_with_intent("1.000000000000000000000001");
    let r = contract.execute_arbitrage(&bob(), id, "101".to_string(), "100".to_string(), 1, vec![]);
    assert_eq!(r.unwrap_err(), ArbitrageError::PreconditionFailed);
}

#[test]
fn stranger_cannot_execute() {
    let (mut contract, id) = contract_with_intent("1.0");
    let r = contract.execute_arbitrage(&owner(), id, "3000".to_string(), "2950".to_string(), 1, vec![]);
    assert_eq!(r.unwrap_err(), ArbitrageError::Unauthorized);
}

#[test]
fn bad_or_zero_prices_are_invalid_input() {
    let (mut contract, id) = contract_with_intent("0");
    for (a, b) in [("abc", "1"), ("1", ""), ("0", "5"), ("0", "0"), ("-3", "1")] {
        let r = contract.execute_arbitrage(&bob(), id.clone(), a.to_string(), b.to_string(), 1, vec![]);
        assert_eq!(r.unwrap_err(), ArbitrageError::InvalidInput, "{} {}", a, b);
    }
    assert_eq!(contract.get_intent(id).unwrap().status, IntentStatus::Active);
}

#[test]
fn profit_total_overflow_is_refused() {
    let mut contract = ArbitrageContract::new(owner());
    let first = contract.create_intent(bob(), ONE_NEAR, 0, "A/B".to_string(), "0".to_string()).unwrap();
    let second = contract.create_intent(bob(), ONE_NEAR, 0, "A/B".to_string(), "0".to_string()).unwrap();
    contract
        .execute_arbitrage(&bob(), first, "340000000000000".to_string(), "1".to_string(), 1, vec![])
        .unwrap();
    let before = contract.get_total_profit(bob());
    let r = contract.execute_arbitrage(&bob(), second.clone(), "340000000000000".to_string(), "1".to_string(), 2, vec![]);
    assert_eq!(r.unwrap_err(), ArbitrageError::Overflow);
    assert_eq!(contract.get_total_profit(bob()), before);
    assert_eq!(contract.get_intent(second).unwrap().status, IntentStatus::Active);
}

#[test]
fn history_profits_add_up_to_total() {
    let mut contract = ArbitrageContract::new(owner());
    let carol = "carol".to_string();
    let prices = [("3000.0", "2950.0"), ("10.5", "10"), ("1", "1.333333333333333333333333")];
    for (i, (a, b)) in prices.iter().enumerate() {
        let user = if i == 1 { carol.clone() } else { bob() };
        let id = contract.create_intent(user.clone(), ONE_NEAR, 0, "X/Y".to_string(), "0.5".to_string()).unwrap();
        contract.execute_arbitrage(&user, id, a.to_string(), b.to_string(), i as u64, vec![i as u8]).unwrap();
    }
    for user in [bob(), carol.clone(), owner()] {
        let sum: u128 = contract.get_execution_history(user.clone()).iter().map(|e| e.profit).sum();
        assert_eq!(sum, contract.get_total_profit(user));
    }
    let bob_history = contract.get_execution_history(bob());
    assert_eq!(bob_history.len(), 2);
    assert_eq!(bob_history[0].id, "1");
    assert_eq!(bob_history[1].id, "3");
    // 0.333333333333333333333333 * 0.8, truncated to a minor unit
    assert_eq!(bob_history[1].profit, 266_666_666_666_666_666_666_666);
    assert_eq!(contract.get_total_profit(carol), 400_000_000_000_000_000_000_000);
}

#[test]
fn signature_presence_is_reported() {
    let mut contract = ArbitrageContract::new(owner());
    assert!(!contract.verify_cross_chain_signature("1".to_string()));
    contract.store_cross_chain_signature("1".to_string(), vec![1, 2], vec![0, 7], 5, 9);
    assert!(contract.verify_cross_chain_signature("1".to_string()));
    assert!(!contract.verify_cross_chain_signature("2".to_string()));
    contract.store_cross_chain_signature("1".to_string(), vec![3], vec![4], 6, 10);
    assert_eq!(contract.cross_chain_signatures.len(), 1);
    assert_eq!(contract.cross_chain_signatures[0].record.signature, vec![3]);
    assert_eq!(contract.cross_chain_signatures[0].record.nonce, 10);
}

#[test]
fn contract_info_counts_records() {
    let (mut contract, id) = contract_with_intent("1.0");
    contract.execute_arbitrage(&bob(), id, "3000".to_string(), "2950".to_string(), 1, vec![]).unwrap();
    let info = contract.get_contract_info();
    assert_eq!(info.name, "ArbitrageAI Cross-Chain Agent");
    assert_eq!(info.version, "1.0.0");
    assert_eq!(info.owner, "alice");
    assert_eq!(info.total_intents, 1);
    assert_eq!(info.total_executions, 1);
}

#[test]
fn lookups_need_the_exact_id() {
    let (mut contract, id) = contract_with_intent("1.0");
    contract.execute_arbitrage(&bob(), id, "3000".to_string(), "2950".to_string(), 1, vec![]).unwrap();
    assert!(contract.get_intent("1".to_string()).is_some());
    assert!(contract.get_execution("1".to_string()).is_some());
    for bad in ["01", "", "x", "1 ", "2", "99999999999999999999999999999999999999999"] {
        assert!(contract.get_intent(bad.to_string()).is_none(), "{}", bad);
        assert!(contract.get_execution(bad.to_string()).is_none(), "{}", bad);
    }
}

#[test]
fn histories_are_kept_per_user_in_order() {
    let mut contract = ArbitrageContract::new(owner());
    let carol = "carol".to_string();
    let mut bob_ids = Vec::new();
    for i in 0..5 {
        let user = if i % 2 == 0 { bob() } else { carol.clone() };
        let id = contract.create_intent(user.clone(), ONE_NEAR, i, "P/Q".to_string(), "0".to_string()).unwrap();
        if user == bob() {
            bob_ids.push(id);
        }
    }
    let listed: Vec<String> = contract.get_user_intents(bob()).into_iter().map(|i| i.id).collect();
    assert_eq!(listed, bob_ids);
    assert_eq!(listed, vec!["1", "3", "5"]);
    let carol_listed: Vec<String> = contract.get_user_intents(carol).into_iter().map(|i| i.id).collect();
    assert_eq!(carol_listed, vec!["2", "4"]);
    assert!(contract.get_execution_history(bob()).is_empty());
    assert_eq!(contract.get_total_profit(bob()), 0);
}
