use bear_claim::airdrop::{AirdropError, AirdropLedger, AirdropOutcome};
use bear_claim::principal::Principal;

fn who(b: u8) -> Principal {
    Principal::from_bytes(vec![b; 4])
}

fn ledger_with(amounts: &[(u8, u64)]) -> AirdropLedger {
    let mut l = AirdropLedger::new(who(1));
    for &(b, a) in amounts {
        l.add_contribution(who(b), a).unwrap();
    }
    l
}

#[test]
fn default_admin_decodes_from_text() {
    let l = AirdropLedger::with_default_admin().unwrap();
    assert_eq!(
        l.admin.bytes,
        vec![
            36, 136, 41, 153, 180, 142, 143, 36, 74, 152, 137, 141, 192, 154, 102, 139, 183, 123,
            145, 221, 205, 217, 41, 159, 154, 160, 83, 251, 2
        ]
    );
    assert_eq!(l.get_treasury(), 0);
    assert!(l.get_participants().is_empty());
}

#[test]
fn contributions_accumulate() {
    let mut l = ledger_with(&[(2, 10), (3, 5), (2, 7)]);
    assert_eq!(l.get_contribution(&who(2)), 17);
    assert_eq!(l.get_contribution(&who(3)), 5);
    assert_eq!(l.get_contribution(&who(4)), 0);
    assert_eq!(l.get_participants().len(), 2);
    l.add_contribution(who(3), u64::MAX - 5).unwrap();
    assert_eq!(l.get_contribution(&who(3)), u64::MAX);
    assert_eq!(l.add_contribution(who(3), 1), Err(AirdropError::Overflow));
    assert_eq!(l.get_contribution(&who(3)), u64::MAX);
}

#[test]
fn only_admin_sets_treasury() {
    let mut l = ledger_with(&[]);
    assert_eq!(l.set_treasury(&who(2), 50), Err(AirdropError::NotAdmin));
    assert_eq!(l.get_treasury(), 0);
    l.set_treasury(&who(1), 50).unwrap();
    assert_eq!(l.get_treasury(), 50);
}

#[test]
fn airdrop_pays_in_full_when_covered() {
    let mut l = ledger_with(&[(2, 30), (3, 50), (4, 40)]);
    l.set_treasury(&who(1), 200).unwrap();
    assert_eq!(l.monthly_airdrop(&who(1)), Ok(AirdropOutcome { paid: 3, stopped_early: false }));
    assert_eq!(l.get_treasury(), 80);
    assert_eq!(l.get_contribution(&who(2)), 30);
}

#[test]
fn airdrop_reports_early_stop() {
    let mut l = ledger_with(&[(2, 30), (3, 50), (4, 40)]);
    l.set_treasury(&who(1), 100).unwrap();
    assert_eq!(l.monthly_airdrop(&who(2)), Err(AirdropError::NotAdmin));
    assert_eq!(l.get_treasury(), 100);
    assert_eq!(l.monthly_airdrop(&who(1)), Ok(AirdropOutcome { paid: 2, stopped_early: true }));
    assert_eq!(l.get_treasury(), 0);
}
