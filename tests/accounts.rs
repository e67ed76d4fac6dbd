use aaacs::accounts::{ParseError, ParsedAccounts};
use aaacs::rational::Rational;

fn whole(n: i64) -> Rational {
    Rational::from_integer(n)
}

fn add_purchase_with_shares(
    accounts: &mut ParsedAccounts,
    descr: &str,
    who: &str,
    amount: i64,
    shares: &[(&str, i64)],
) {
    let idx = accounts
        .add_purchase(descr.to_string(), who.to_string(), whole(amount))
        .unwrap();
    for (user, share) in shares {
        accounts
            .set_purchase_user_share(idx, user.to_string(), whole(*share))
            .unwrap();
    }
}

fn ledger(users: &[&str], purchases: &[(&str, &str, i64, Vec<(&str, i64)>)]) -> ParsedAccounts {
    let mut accounts = ParsedAccounts::new();
    for user in users {
        accounts.add_user(user.to_string()).unwrap();
    }
    for (descr, who, amount, shares) in purchases {
        add_purchase_with_shares(&mut accounts, descr, who, *amount, shares);
    }
    accounts
}

fn fixture() -> ParsedAccounts {
    ledger(
        &["Eska", "Shuba", "Simon"],
        &[
            ("jambon", "Eska", 15, vec![("Eska", 1), ("Shuba", 2), ("Simon", 1)]),
            ("vin", "Simon", 10, vec![("Eska", 0), ("Shuba", 2), ("Simon", 1)]),
        ],
    )
}

#[test]
fn add_remove_user() {
    let mut accounts = fixture();
    let orig = accounts.clone();
    assert_eq!(
        accounts.add_user("Eska".to_string()),
        Err(ParseError::UserAlreadyPresent("Eska".to_string()))
    );

    assert!(accounts.add_user("PlappMachine".to_string()).is_ok());
    let expected = ledger(
        &["Eska", "PlappMachine", "Shuba", "Simon"],
        &[
            (
                "jambon",
                "Eska",
                15,
                vec![("Eska", 1), ("PlappMachine", 0), ("Shuba", 2), ("Simon", 1)],
            ),
            (
                "vin",
                "Simon",
                10,
                vec![("Eska", 0), ("PlappMachine", 0), ("Shuba", 2), ("Simon", 1)],
            ),
        ],
    );
    assert_eq!(accounts, expected);

    assert_eq!(
        accounts.remove_user("Eska".to_string()),
        Err(ParseError::UserHasData("Eska".to_string())),
    );
    assert!(accounts.remove_user("PlappMachine".to_string()).is_ok());
    assert_eq!(accounts, orig);
}

#[test]
fn add_purchase() {
    let mut accounts = fixture();
    let purchase_idx = accounts
        .add_purchase("fromage".to_string(), "Shuba".to_string(), whole(23))
        .unwrap();
    accounts
        .set_purchase_user_share(purchase_idx, "Eska".to_string(), whole(42))
        .unwrap();
    accounts
        .change_purchase_creditor(purchase_idx, "Simon".to_string())
        .unwrap();
    accounts.change_purchase_amount(purchase_idx, whole(20)).unwrap();
    accounts.remove_purchase(0).unwrap();
    let expected = ledger(
        &["Eska", "Shuba", "Simon"],
        &[
            ("vin", "Simon", 10, vec![("Eska", 0), ("Shuba", 2), ("Simon", 1)]),
            ("fromage", "Simon", 20, vec![("Eska", 42), ("Shuba", 0), ("Simon", 0)]),
        ],
    );
    assert_eq!(accounts, expected);
}

#[test]
fn add_user_shifts_payers_and_shares() {
    let mut accounts = fixture();
    accounts.add_user("PlappMachine".to_string()).unwrap();
    let users: Vec<&str> = accounts.users().iter().map(|u| u.as_str()).collect();
    assert_eq!(users, vec!["Eska", "PlappMachine", "Shuba", "Simon"]);
    let payers: Vec<&str> = accounts
        .purchases()
        .iter()
        .map(|p| p.who_paid(&accounts))
        .collect();
    assert_eq!(payers, vec!["Eska", "Simon"]);
    let shares: Vec<Vec<Rational>> = accounts
        .purchases()
        .iter()
        .map(|p| p.shares().to_vec())
        .collect();
    assert_eq!(
        shares,
        vec![
            vec![whole(1), whole(0), whole(2), whole(1)],
            vec![whole(0), whole(0), whole(2), whole(1)]
        ]
    );
}

#[test]
fn remove_user_refused_when_entangled() {
    let mut accounts = fixture();
    let before = accounts.clone();
    // Simon paid the wine
    assert_eq!(
        accounts.remove_user("Simon".to_string()),
        Err(ParseError::UserHasData("Simon".to_string()))
    );
    // Shuba holds positive shares
    assert_eq!(
        accounts.remove_user("Shuba".to_string()),
        Err(ParseError::UserHasData("Shuba".to_string()))
    );
    assert_eq!(
        accounts.remove_user("Nobody".to_string()),
        Err(ParseError::UnknownUser("Nobody".to_string()))
    );
    assert_eq!(accounts, before);
}

#[test]
fn remove_user_with_negative_share_only() {
    let mut accounts = ledger(
        &["Alice", "Bob"],
        &[("refund", "Alice", 5, vec![("Alice", 1), ("Bob", -1)])],
    );
    assert!(accounts.remove_user("Bob".to_string()).is_ok());
    let users: Vec<&str> = accounts.users().iter().map(|u| u.as_str()).collect();
    assert_eq!(users, vec!["Alice"]);
    assert_eq!(accounts.purchases()[0].shares().to_vec(), vec![whole(1)]);
}

#[test]
fn operation_errors() {
    let mut accounts = fixture();
    let before = accounts.clone();
    assert_eq!(accounts.add_user(String::new()), Err(ParseError::EmptyUser));
    assert_eq!(
        accounts.add_purchase("x".to_string(), String::new(), whole(1)),
        Err(ParseError::EmptyUser)
    );
    assert_eq!(
        accounts.add_purchase(String::new(), "Eska".to_string(), whole(1)),
        Err(ParseError::EmptyDescr)
    );
    assert_eq!(
        accounts.add_purchase("x".to_string(), "Zoe".to_string(), whole(1)),
        Err(ParseError::UnknownUser("Zoe".to_string()))
    );
    assert_eq!(
        accounts.set_purchase_user_share(2, "Eska".to_string(), whole(1)),
        Err(ParseError::InvalidPurchase(2))
    );
    assert_eq!(
        accounts.set_purchase_user_share(0, "Zoe".to_string(), whole(1)),
        Err(ParseError::UnknownUser("Zoe".to_string()))
    );
    assert_eq!(
        accounts.change_purchase_creditor(5, "Eska".to_string()),
        Err(ParseError::InvalidPurchase(5))
    );
    assert_eq!(
        accounts.change_purchase_creditor(0, "Zoe".to_string()),
        Err(ParseError::UnknownUser("Zoe".to_string()))
    );
    assert_eq!(
        accounts.change_purchase_amount(2, whole(1)),
        Err(ParseError::InvalidPurchase(2))
    );
    assert_eq!(accounts.remove_purchase(2), Err(ParseError::InvalidPurchase(2)));
    assert_eq!(accounts, before);
}

#[test]
fn add_purchase_returns_index_and_zero_shares() {
    let mut accounts = fixture();
    assert_eq!(
        accounts.add_purchase("pain".to_string(), "Shuba".to_string(), whole(3)),
        Ok(2)
    );
    let p = &accounts.purchases()[2];
    assert_eq!(p.descr(), "pain");
    assert_eq!(p.who_paid(&accounts), "Shuba");
    assert_eq!(p.amount(), whole(3));
    assert_eq!(p.shares().to_vec(), vec![whole(0), whole(0), whole(0)]);
    let named: Vec<(&str, Rational)> = p.benef_to_shares(&accounts);
    assert_eq!(named, vec![("Eska", whole(0)), ("Shuba", whole(0)), ("Simon", whole(0))]);
}

#[test]
fn balances_of_fixture() {
    let accounts = fixture();
    let balances = accounts.user_balances().unwrap();
    // ham: 15 split 1:2:1, paid by Eska; wine: 10 split 0:2:1, paid by Simon
    assert_eq!(
        balances,
        vec![
            Rational::new(45, 4),
            Rational::new(-85, 6),
            Rational::new(35, 12),
        ]
    );
}

#[test]
fn balances_sum_to_zero() {
    let accounts = fixture();
    let balances = accounts.user_balances().unwrap();
    let mut sum = Rational::zero();
    for b in &balances {
        sum = sum.checked_add(b).unwrap();
    }
    assert_eq!(sum, Rational::zero());
}

#[test]
fn zero_share_purchase_is_skipped() {
    let mut accounts = fixture();
    accounts
        .add_purchase("cadeau".to_string(), "Shuba".to_string(), whole(7))
        .unwrap();
    let balances = accounts.user_balances().unwrap();
    assert_eq!(balances, fixture().user_balances().unwrap());
    let mut sum = Rational::zero();
    for b in &balances {
        sum = sum.checked_add(b).unwrap();
    }
    assert_eq!(sum, Rational::zero());
}

#[test]
fn empty_ledger_has_no_balance() {
    let accounts = ParsedAccounts::new();
    assert_eq!(accounts.user_balances(), Some(vec![]));
}

#[test]
fn error_messages() {
    assert_eq!(
        ParseError::EmptyUser.message(),
        "Cannot add the empty string as a new user"
    );
    assert_eq!(
        ParseError::UnknownUser("Zoe".to_string()).message(),
        "Unknown user: Zoe"
    );
    assert_eq!(
        ParseError::InvalidPurchase(12).message(),
        "Transaction 12 does not exist."
    );
    assert_eq!(
        ParseError::UserHasData("Eska".to_string()).message(),
        "Cannot remove user Eska, who has paid a transaction or holds shares."
    );
}

#[test]
fn balances_with_zero_share_in_large_negative_total() {
    let mut accounts = ledger(&["A", "B"], &[]);
    let idx = accounts
        .add_purchase("x".to_string(), "A".to_string(), whole(1))
        .unwrap();
    accounts
        .set_purchase_user_share(idx, "B".to_string(), Rational::new(i64::MIN, 3))
        .unwrap();
    let balances = accounts.user_balances().unwrap();
    assert_eq!(balances, vec![whole(1), whole(-1)]);
}

#[test]
fn adding_user_or_purchase_keeps_balances() {
    let mut accounts = fixture();
    let before = accounts.user_balances().unwrap();
    accounts
        .add_purchase("pain".to_string(), "Simon".to_string(), whole(4))
        .unwrap();
    assert_eq!(accounts.user_balances().unwrap(), before);
    accounts.add_user("Fred".to_string()).unwrap();
    let after = accounts.user_balances().unwrap();
    assert_eq!(after, vec![before[0], whole(0), before[1], before[2]]);
}

#[test]
fn purchase_order_does_not_matter() {
    let forward = fixture();
    let backward = ledger(
        &["Eska", "Shuba", "Simon"],
        &[
            ("vin", "Simon", 10, vec![("Eska", 0), ("Shuba", 2), ("Simon", 1)]),
            ("jambon", "Eska", 15, vec![("Eska", 1), ("Shuba", 2), ("Simon", 1)]),
        ],
    );
    assert_eq!(forward.user_balances(), backward.user_balances());
}
