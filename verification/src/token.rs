//! Token identities and the plain messages that move tokens.

use vstd::prelude::*;

verus! {

/// The identity of a fungible token: a native denomination, or the address of
/// a contract that keeps the token's balances.
#[derive(Debug, Eq, Hash)]
pub enum Token {
    Denom(String),
    Address(String),
}

/// What a [`Token`] stands for in contracts.
pub enum TokenView {
    Denom(Seq<char>),
    Address(Seq<char>),
}

impl View for Token {
    type V = TokenView;

    open spec fn view(&self) -> TokenView {
        match self {
            Token::Denom(denom) => TokenView::Denom(denom@),
            Token::Address(address) => TokenView::Address(address@),
        }
    }
}

impl Clone for Token {
    fn clone(&self) -> (r: Token)
        ensures
            r == *self,
    {
        match self {
            Token::Denom(denom) => Token::Denom(denom.clone()),
            Token::Address(address) => Token::Address(address.clone()),
        }
    }
}

impl PartialEq for Token {
    fn eq(&self, other: &Token) -> (r: bool) {
        match (self, other) {
            (Token::Denom(a), Token::Denom(b)) => *a == *b,
            (Token::Address(a), Token::Address(b)) => *a == *b,
            _ => false,
        }
    }
}

impl vstd::std_specs::cmp::PartialEqSpecImpl for Token {
    open spec fn obeys_eq_spec() -> bool {
        true
    }

    open spec fn eq_spec(&self, other: &Token) -> bool {
        self@ == other@
    }
}

/// The canonical key of a token: `d:` before a denomination, `a:` before an
/// address.
pub open spec fn token_key(token: TokenView) -> Seq<char> {
    match token {
        TokenView::Denom(denom) => seq!['d', ':'] + denom,
        TokenView::Address(address) => seq!['a', ':'] + address,
    }
}

/// Two tokens with one key are one token.
pub proof fn lemma_token_key_injective(a: TokenView, b: TokenView)
    requires
        token_key(a) == token_key(b),
    ensures
        a == b,
{
    let ka = token_key(a);
    let kb = token_key(b);
    assert(ka[0] == kb[0]);
    assert(ka.subrange(2, ka.len() as int) == kb.subrange(2, kb.len() as int));
    match (a, b) {
        (TokenView::Denom(x), TokenView::Denom(y)) => {
            assert(ka.subrange(2, ka.len() as int) =~= x);
            assert(kb.subrange(2, kb.len() as int) =~= y);
        },
        (TokenView::Address(x), TokenView::Address(y)) => {
            assert(ka.subrange(2, ka.len() as int) =~= x);
            assert(kb.subrange(2, kb.len() as int) =~= y);
        },
        (TokenView::Denom(_), TokenView::Address(_)) => {
            assert(ka[0] == 'd' && kb[0] == 'a');
        },
        (TokenView::Address(_), TokenView::Denom(_)) => {
            assert(ka[0] == 'a' && kb[0] == 'd');
        },
    }
}

impl Token {
    /// The canonical key under which the token is indexed.
    pub fn to_key(&self) -> (r: String)
        ensures
            r@ == token_key(self@),
    {
        match self {
            Token::Address(address) => {
                proof {
                    reveal_strlit("a:");
                }
                let r = String::from_str("a:").concat(address.as_str());
                assert("a:"@ =~= seq!['a', ':']);
                r
            },
            Token::Denom(denom) => {
                proof {
                    reveal_strlit("d:");
                }
                let r = String::from_str("d:").concat(denom.as_str());
                assert("d:"@ =~= seq!['d', ':']);
                r
            },
        }
    }
}


/// An amount of a native denomination.
#[derive(Debug, PartialEq, Eq)]
pub struct Coin {
    pub denom: String,
    pub amount: u128,
}

/// What a [`Coin`] stands for in contracts.
pub struct CoinView {
    pub denom: Seq<char>,
    pub amount: u128,
}

impl View for Coin {
    type V = CoinView;

    open spec fn view(&self) -> CoinView {
        CoinView { denom: self.denom@, amount: self.amount }
    }
}

impl Clone for Coin {
    fn clone(&self) -> (r: Coin)
        ensures
            r == *self,
    {
        Coin { denom: self.denom.clone(), amount: self.amount }
    }
}

/// A message that moves `amount` of a token to a recipient.
#[derive(Debug, PartialEq, Eq)]
pub enum TransferMsg {
    /// A bank transfer of a native denomination.
    Bank { to_address: String, denom: String, amount: u128 },
    /// A transfer call to the contract that keeps the token.
    Contract { contract_addr: String, recipient: String, amount: u128 },
}

/// What a [`TransferMsg`] stands for in contracts.
pub enum TransferMsgView {
    Bank { to_address: Seq<char>, denom: Seq<char>, amount: u128 },
    Contract { contract_addr: Seq<char>, recipient: Seq<char>, amount: u128 },
}

impl View for TransferMsg {
    type V = TransferMsgView;

    open spec fn view(&self) -> TransferMsgView {
        match self {
            TransferMsg::Bank { to_address, denom, amount } => TransferMsgView::Bank {
                to_address: to_address@,
                denom: denom@,
                amount: *amount,
            },
            TransferMsg::Contract { contract_addr, recipient, amount } => TransferMsgView::Contract {
                contract_addr: contract_addr@,
                recipient: recipient@,
                amount: *amount,
            },
        }
    }
}

/// The message that moves `amount` of `token` to `recipient`.
pub open spec fn transfer_of(token: TokenView, recipient: Seq<char>, amount: u128) -> TransferMsgView {
    match token {
        TokenView::Denom(denom) => TransferMsgView::Bank { to_address: recipient, denom, amount },
        TokenView::Address(address) => TransferMsgView::Contract {
            contract_addr: address,
            recipient,
            amount,
        },
    }
}

/// A question for the balance that an address holds of a token.
#[derive(Debug, PartialEq, Eq)]
pub enum BalanceQuery {
    /// Asked of the bank, for a native denomination.
    Bank { address: String, denom: String },
    /// Asked of the contract that keeps the token.
    Contract { contract_addr: String, address: String },
}

/// What a [`BalanceQuery`] stands for in contracts.
pub enum BalanceQueryView {
    Bank { address: Seq<char>, denom: Seq<char> },
    Contract { contract_addr: Seq<char>, address: Seq<char> },
}

impl View for BalanceQuery {
    type V = BalanceQueryView;

    open spec fn view(&self) -> BalanceQueryView {
        match self {
            BalanceQuery::Bank { address, denom } => BalanceQueryView::Bank {
                address: address@,
                denom: denom@,
            },
            BalanceQuery::Contract { contract_addr, address } => BalanceQueryView::Contract {
                contract_addr: contract_addr@,
                address: address@,
            },
        }
    }
}

/// A message that burns `amount` of the token kept by `contract_addr`.
#[derive(Debug, PartialEq, Eq)]
pub struct BurnMsg {
    pub contract_addr: String,
    pub amount: u128,
}

/// Whether `coin` is of `denom` and, where an amount is asked for, of exactly
/// that amount.
pub open spec fn coin_matches(coin: CoinView, denom: Seq<char>, exact_amount: Option<u128>) -> bool {
    coin.denom == denom && (exact_amount matches Some(n) ==> n == coin.amount)
}

impl Token {
    /// The denomination, where the token is a native one.
    pub fn get_denom(&self) -> (r: Option<String>)
        ensures
            match self@ {
                TokenView::Denom(denom) => r is Some && r->0@ == denom,
                TokenView::Address(_) => r is None,
            },
    {
        match self {
            Token::Denom(denom) => Some(denom.clone()),
            Token::Address(_) => None,
        }
    }

    /// The contract address, where the token is kept by a contract.
    pub fn get_address(&self) -> (r: Option<String>)
        ensures
            match self@ {
                TokenView::Address(address) => r is Some && r->0@ == address,
                TokenView::Denom(_) => r is None,
            },
    {
        match self {
            Token::Address(address) => Some(address.clone()),
            Token::Denom(_) => None,
        }
    }

    /// The question whose answer is the balance that `address` holds of the
    /// token.
    pub fn query_balance(&self, address: &String) -> (r: BalanceQuery)
        ensures
            r@ == match self@ {
                TokenView::Denom(denom) => BalanceQueryView::Bank { address: address@, denom },
                TokenView::Address(contract_addr) => BalanceQueryView::Contract {
                    contract_addr,
                    address: address@,
                },
            },
    {
        match self {
            Token::Denom(denom) => BalanceQuery::Bank {
                address: address.clone(),
                denom: denom.clone(),
            },
            Token::Address(contract_addr) => BalanceQuery::Contract {
                contract_addr: contract_addr.clone(),
                address: address.clone(),
            },
        }
    }

    /// The message that sends `amount` of the token to `recipient`.
    pub fn transfer(&self, recipient: &String, amount: u128) -> (r: TransferMsg)
        ensures
            r@ == transfer_of(self@, recipient@, amount),
    {
        match self {
            Token::Denom(denom) => TransferMsg::Bank {
                to_address: recipient.clone(),
                denom: denom.clone(),
                amount,
            },
            Token::Address(address) => TransferMsg::Contract {
                contract_addr: address.clone(),
                recipient: recipient.clone(),
                amount,
            },
        }
    }

    /// The message that burns `amount` of the token; none for a native
    /// denomination, which cannot be burnt this way.
    pub fn burn(&self, amount: u128) -> (r: Option<BurnMsg>)
        ensures
            match self@ {
                TokenView::Address(address) => r is Some && r->0.contract_addr@ == address
                    && r->0.amount == amount,
                TokenView::Denom(_) => r is None,
            },
    {
        match self {
            Token::Address(address) => Some(BurnMsg { contract_addr: address.clone(), amount }),
            Token::Denom(_) => None,
        }
    }

    /// The first coin among `funds_to_search` that is of this token's
    /// denomination and, where `exact_amount` is given, of exactly that amount.
    /// A token kept by a contract is never found among funds.
    pub fn find_in_funds(&self, funds_to_search: &Vec<Coin>, exact_amount: Option<u128>) -> (r:
        Option<Coin>)
        ensures
            match self@ {
                TokenView::Address(_) => r is None,
                TokenView::Denom(denom) => match r {
                    Some(coin) => exists|i: int|
                        0 <= i < funds_to_search.len() && coin@ == (#[trigger] funds_to_search[i])@
                            && coin_matches(coin@, denom, exact_amount) && forall|j: int|
                            0 <= j < i ==> !coin_matches(
                                (#[trigger] funds_to_search[j])@,
                                denom,
                                exact_amount,
                            ),
                    None => forall|i: int|
                        0 <= i < funds_to_search.len() ==> !coin_matches(
                            (#[trigger] funds_to_search[i])@,
                            denom,
                            exact_amount,
                        ),
                },
            },
    {
        match self {
            Token::Address(_) => None,
            Token::Denom(denom) => {
                let mut i: usize = 0;
                while i < funds_to_search.len()
                    invariant
                        i <= funds_to_search.len(),
                        self@ == TokenView::Denom(denom@),
                        forall|j: int|
                            0 <= j < i ==> !coin_matches(
                                (#[trigger] funds_to_search[j])@,
                                denom@,
                                exact_amount,
                            ),
                    decreases funds_to_search.len() - i,
                {
                    let coin = &funds_to_search[i];
                    let amount_fits = match exact_amount {
                        Some(n) => n == coin.amount,
                        None => true,
                    };
                    if coin.denom == *denom && amount_fits {
                        return Some(coin.clone());
                    }
                    i = i + 1;
                }
                None
            },
        }
    }
}

/// An amount of a token.
#[derive(Debug, PartialEq, Eq)]
pub struct TokenAmount {
    pub token: Token,
    pub amount: u128,
}

/// What a [`TokenAmount`] stands for in contracts.
pub struct TokenAmountView {
    pub token: TokenView,
    pub amount: u128,
}

impl View for TokenAmount {
    type V = TokenAmountView;

    open spec fn view(&self) -> TokenAmountView {
        TokenAmountView { token: self.token@, amount: self.amount }
    }
}

/// A token's symbol and decimals.
#[derive(Clone, Debug, PartialEq, Eq)]
pub struct BasicTokenInfo {
    pub symbol: String,
    pub decimals: u8,
}

/// A token's descriptive data.
#[derive(Clone, Debug, PartialEq, Eq)]
pub struct BetterTokenInfo {
    pub symbol: String,
    pub supply: u128,
    pub decimals: u8,
    pub name: String,
    pub description: Option<String>,
    pub project: Option<String>,
    pub logo: Option<String>,
}

/// A base token with its reserve.
#[derive(Debug, PartialEq, Eq)]
pub struct BaseTokenInfo {
    pub token: Token,
    pub reserve: u128,
    pub info: BetterTokenInfo,
}

/// A quote token with its reserve and the offset applied to it.
#[derive(Debug, PartialEq, Eq)]
pub struct QuoteTokenInfo {
    pub token: Token,
    pub reserve: u128,
    pub reserve_offset: u128,
    pub info: BasicTokenInfo,
}

/// What is needed to create a base token.
#[derive(Clone, Debug, PartialEq, Eq)]
pub struct BaseTokenInitArgs {
    pub name: String,
    pub symbol: String,
    pub supply: u128,
    pub decimals: u8,
    pub cw20_code_id: Option<u64>,
    pub description: Option<String>,
    pub image_url: Option<String>,
}

} // verus!
