use claims_ledger::token::{BalanceQuery, BurnMsg, Coin, Token, TransferMsg};

fn coin(denom: &str, amount: u128) -> Coin {
    Coin { denom: denom.to_string(), amount }
}

#[test]
fn to_key_marks_the_kind_of_token() {
    assert_eq!(Token::Denom("uatom".to_string()).to_key(), "d:uatom");
    assert_eq!(Token::Address("cosmos1xyz".to_string()).to_key(), "a:cosmos1xyz");
    assert_eq!(Token::Denom(String::new()).to_key(), "d:");
    assert_ne!(
        Token::Denom("x".to_string()).to_key(),
        Token::Address("x".to_string()).to_key()
    );
}

#[test]
fn tokens_are_equal_when_kind_and_name_are() {
    assert_eq!(Token::Denom("a".to_string()), Token::Denom("a".to_string()));
    assert_ne!(Token::Denom("a".to_string()), Token::Denom("b".to_string()));
    assert_ne!(Token::Denom("a".to_string()), Token::Address("a".to_string()));
    assert_eq!(Token::Address("a".to_string()).clone(), Token::Address("a".to_string()));
}

#[test]
fn get_denom_and_get_address_tell_the_kinds_apart() {
    let native = Token::Denom("uatom".to_string());
    let contract = Token::Address("cosmos1xyz".to_string());
    assert_eq!(native.get_denom(), Some("uatom".to_string()));
    assert_eq!(native.get_address(), None);
    assert_eq!(contract.get_denom(), None);
    assert_eq!(contract.get_address(), Some("cosmos1xyz".to_string()));
}

#[test]
fn find_in_funds_gives_the_first_coin_that_fits() {
    let native = Token::Denom("uatom".to_string());
    let funds = vec![coin("uosmo", 5), coin("uatom", 7), coin("uatom", 9)];
    assert_eq!(native.find_in_funds(&funds, None), Some(coin("uatom", 7)));
    assert_eq!(native.find_in_funds(&funds, Some(9)), Some(coin("uatom", 9)));
    assert_eq!(native.find_in_funds(&funds, Some(8)), None);
    assert_eq!(native.find_in_funds(&vec![], None), None);
    assert_eq!(Token::Denom("ujuno".to_string()).find_in_funds(&funds, None), None);
}

#[test]
fn find_in_funds_never_finds_a_contract_token() {
    let contract = Token::Address("uatom".to_string());
    let funds = vec![coin("uatom", 7)];
    assert_eq!(contract.find_in_funds(&funds, None), None);
    assert_eq!(contract.find_in_funds(&funds, Some(7)), None);
}

#[test]
fn transfer_is_a_bank_send_or_a_contract_call() {
    let to = "alice".to_string();
    assert_eq!(
        Token::Denom("uatom".to_string()).transfer(&to, 12),
        TransferMsg::Bank { to_address: "alice".to_string(), denom: "uatom".to_string(), amount: 12 }
    );
    assert_eq!(
        Token::Address("cosmos1xyz".to_string()).transfer(&to, 12),
        TransferMsg::Contract {
            contract_addr: "cosmos1xyz".to_string(),
            recipient: "alice".to_string(),
            amount: 12,
        }
    );
}

#[test]
fn burn_is_for_contract_tokens_only() {
    assert_eq!(
        Token::Address("cosmos1xyz".to_string()).burn(3),
        Some(BurnMsg { contract_addr: "cosmos1xyz".to_string(), amount: 3 })
    );
    assert_eq!(Token::Denom("uatom".to_string()).burn(3), None);
}

#[test]
fn query_balance_asks_the_bank_or_the_contract() {
    let who = "alice".to_string();
    assert_eq!(
        Token::Denom("uatom".to_string()).query_balance(&who),
        BalanceQuery::Bank { address: "alice".to_string(), denom: "uatom".to_string() }
    );
    assert_eq!(
        Token::Address("cosmos1xyz".to_string()).query_balance(&who),
        BalanceQuery::Contract {
            contract_addr: "cosmos1xyz".to_string(),
            address: "alice".to_string(),
        }
    );
}
