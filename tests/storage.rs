use aaacs::accounts::{ParseError, Purchase, SerializedAccounts};
use aaacs::local_storage::{get_item, has_key, saved_accounts};
use aaacs::rational::{ParseRationalError, Rational};

#[test]
fn saved_account_names() {
    let keys = vec![
        "aaacs:holidays".to_string(),
        "latest_state".to_string(),
        "aaacs:a:b".to_string(),
        "aaacs".to_string(),
    ];
    assert_eq!(saved_accounts(keys), vec!["holidays".to_string(), "b".to_string()]);
}

#[test]
fn storage_lookups() {
    assert!(has_key(&Some(Some("x".to_string()))));
    assert!(!has_key(&Some(None)));
    assert!(!has_key(&None));
    assert_eq!(get_item(Some(Some("x".to_string()))), Some("x".to_string()));
    assert_eq!(get_item(Some(None)), None);
    assert_eq!(get_item(None), None);
}

fn purchase(descr: &str, who: &str, amount: &str, shares: &[(&str, &str)]) -> Purchase {
    Purchase {
        descr: descr.to_string(),
        who: who.to_string(),
        amount: amount.to_string(),
        benef_to_shares: shares
            .iter()
            .map(|(n, s)| (n.to_string(), s.to_string()))
            .collect(),
    }
}

#[test]
fn parse_sparse_form() {
    let serialized = SerializedAccounts {
        users: vec!["Simon".to_string(), "Eska".to_string(), "Simon".to_string()],
        purchases: vec![purchase("vin", "Simon", "10.5", &[("Eska", "2"), ("Simon", "0.5")])],
    };
    let accounts = serialized.parse().unwrap();
    let users: Vec<&str> = accounts.users().iter().map(|u| u.as_str()).collect();
    assert_eq!(users, vec!["Eska", "Simon"]);
    let p = &accounts.purchases()[0];
    assert_eq!(p.who_paid(&accounts), "Simon");
    assert_eq!(p.amount(), Rational::new(21, 2));
    assert_eq!(p.shares().to_vec(), vec![Rational::from_integer(2), Rational::new(1, 2)]);
}

#[test]
fn parse_sparse_form_errors() {
    let unknown_payer = SerializedAccounts {
        users: vec!["Eska".to_string()],
        purchases: vec![purchase("vin", "Simon", "1", &[])],
    };
    assert_eq!(unknown_payer.parse(), Err(ParseError::UnknownUser("Simon".to_string())));
    let unknown_benef = SerializedAccounts {
        users: vec!["Eska".to_string()],
        purchases: vec![purchase("vin", "Eska", "1", &[("Zoe", "1")])],
    };
    assert_eq!(unknown_benef.parse(), Err(ParseError::UnknownUser("Zoe".to_string())));
    let bad_amount = SerializedAccounts {
        users: vec!["Eska".to_string()],
        purchases: vec![purchase("vin", "Eska", "", &[])],
    };
    assert_eq!(
        bad_amount.parse(),
        Err(ParseError::RationalParsingFailed(ParseRationalError::EmptyString))
    );
}

#[test]
fn sparse_form_round_trip() {
    let serialized = SerializedAccounts {
        users: vec!["Shuba".to_string(), "Eska".to_string(), "Simon".to_string()],
        purchases: vec![
            purchase("jambon", "Eska", "15", &[("Eska", "1"), ("Shuba", "2"), ("Simon", "1")]),
            purchase("vin", "Simon", "10.25", &[("Shuba", "2"), ("Simon", "0.5")]),
        ],
    };
    let accounts = serialized.parse().unwrap();
    let sparse = accounts.as_serializable(4);
    assert_eq!(sparse.users, vec!["Eska".to_string(), "Shuba".to_string(), "Simon".to_string()]);
    assert_eq!(sparse.purchases[1].amount, "10.25".to_string());
    assert_eq!(
        sparse.purchases[1].benef_to_shares,
        vec![("Shuba".to_string(), "2".to_string()), ("Simon".to_string(), "0.5".to_string())]
    );
    assert_eq!(sparse.parse().unwrap(), accounts);
}

#[test]
fn default_ledger_is_empty() {
    let accounts = aaacs::accounts::ParsedAccounts::default();
    assert!(accounts.users().is_empty());
    assert!(accounts.purchases().is_empty());
}

#[test]
fn parse_reports_first_failing_check() {
    // the payer is checked before the amount
    let both_bad = SerializedAccounts {
        users: vec!["Eska".to_string()],
        purchases: vec![purchase("vin", "Simon", "x", &[])],
    };
    assert_eq!(both_bad.parse(), Err(ParseError::UnknownUser("Simon".to_string())));
    // pairs are checked in order
    let pairs_bad = SerializedAccounts {
        users: vec!["Eska".to_string()],
        purchases: vec![purchase("vin", "Eska", "1", &[("Eska", "y"), ("Zoe", "1")])],
    };
    assert!(matches!(
        pairs_bad.parse(),
        Err(ParseError::RationalParsingFailed(ParseRationalError::NumerError(_)))
    ));
    // the first purchase that fails decides
    let later = SerializedAccounts {
        users: vec!["Eska".to_string()],
        purchases: vec![
            purchase("a", "Eska", "1", &[("Bob", "1")]),
            purchase("b", "Carl", "1", &[]),
        ],
    };
    assert_eq!(later.parse(), Err(ParseError::UnknownUser("Bob".to_string())));
}
