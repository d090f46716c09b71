use vstd::hash_map::StringHashMap;
use vstd::prelude::*;
use vstd::string::StringExecFns;

verus! {

/// Identifier of an account.
pub type AccountId = String;

/// An account: its id and its balance of each asset.
pub struct Account {
    pub id: AccountId,
    pub balances: StringHashMap<u64>,
}

/// An account, with its id and asset names as character sequences.
pub struct AccountView {
    pub id: Seq<char>,
    pub balances: Map<Seq<char>, u64>,
}

impl View for Account {
    type V = AccountView;

    open spec fn view(&self) -> AccountView {
        AccountView { id: self.id@, balances: self.balances@ }
    }
}

/// The balance of an asset: 0 when the account never held it.
pub open spec fn balance_of(balances: Map<Seq<char>, u64>, asset: Seq<char>) -> u64 {
    if balances.contains_key(asset) {
        balances[asset]
    } else {
        0
    }
}

/// Whether a deposit of `amount` keeps the balance within `u64`.
pub open spec fn deposit_fits(a: AccountView, asset: Seq<char>, amount: u64) -> bool {
    balance_of(a.balances, asset) + amount <= u64::MAX
}

/// The account after a deposit.
pub open spec fn after_deposit(a: AccountView, asset: Seq<char>, amount: u64) -> AccountView {
    AccountView {
        balances: a.balances.insert(asset, (balance_of(a.balances, asset) + amount) as u64),
        ..a
    }
}

/// Whether a withdrawal goes through: the balance covers the amount.
pub open spec fn withdraw_succeeds(a: AccountView, asset: Seq<char>, amount: u64) -> bool {
    balance_of(a.balances, asset) >= amount
}

/// The account after a withdrawal: the amount comes off the balance when it is
/// covered; either way the asset gets an entry (0 when it had none).
pub open spec fn after_withdraw(a: AccountView, asset: Seq<char>, amount: u64) -> AccountView {
    let b = balance_of(a.balances, asset);
    AccountView {
        balances: a.balances.insert(
            asset,
            if b >= amount {
                (b - amount) as u64
            } else {
                b
            },
        ),
        ..a
    }
}

/// The message of a refused withdrawal.
pub open spec fn insufficient_message(asset: Seq<char>) -> Seq<char> {
    "Insufficient balance for asset "@ + asset
}

impl Account {
    /// An account that holds nothing.
    pub fn new(id: AccountId) -> (a: Self)
        ensures
            a@.id == id@,
            a@.balances == Map::<Seq<char>, u64>::empty(),
    {
        Account { id, balances: StringHashMap::new() }
    }

    /// Adds `amount` to the balance of the asset.
    pub fn deposit(&mut self, asset: &str, amount: u64)
        requires
            deposit_fits(old(self)@, asset@, amount),
        ensures
            final(self)@ == after_deposit(old(self)@, asset@, amount),
    {
        let current = self.get_balance(asset);
        self.balances.insert(asset.to_owned(), current + amount);
    }

    /// Takes `amount` off the balance of the asset, or refuses when the balance
    /// does not cover it.
    pub fn withdraw(&mut self, asset: &str, amount: u64) -> (r: Result<(), String>)
        ensures
            final(self)@ == after_withdraw(old(self)@, asset@, amount),
            r is Ok <==> withdraw_succeeds(old(self)@, asset@, amount),
            match r {
                Ok(()) => true,
                Err(msg) => msg@ == insufficient_message(asset@),
            },
    {
        let balance = self.get_balance(asset);
        if balance >= amount {
            self.balances.insert(asset.to_owned(), balance - amount);
            Ok(())
        } else {
            self.balances.insert(asset.to_owned(), balance);
            Err("Insufficient balance for asset ".to_owned().concat(asset))
        }
    }

    /// The balance of the asset (0 when the account never held it).
    pub fn get_balance(&self, asset: &str) -> (b: u64)
        ensures
            b == balance_of(self@.balances, asset@),
    {
        match self.balances.get(asset) {
            Some(b) => *b,
            None => 0,
        }
    }
}

} // verus!
