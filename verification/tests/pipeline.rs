use btc_name::{
    index_btc_domain, index_with_suffixes, do_index_btc_domain, Action, CollectionKind,
    InscriptionEvent, InscriptionId, MemRegistry, Registry, SuffixSet,
};

fn id(n: u8) -> InscriptionId {
    let mut txid = [0u8; 32];
    txid[0] = n;
    InscriptionId { txid, index: 0 }
}

fn new_event(number: i64, claimant: u8, body: &str) -> InscriptionEvent {
    InscriptionEvent {
        transaction_id: [0u8; 32],
        inscription_id: id(claimant),
        inscription_number: number,
        action: Action::New {
            body: body.as_bytes().to_vec(),
        },
    }
}

fn transfer_event(number: i64, claimant: u8) -> InscriptionEvent {
    InscriptionEvent {
        transaction_id: [0u8; 32],
        inscription_id: id(claimant),
        inscription_number: number,
        action: Action::Transfer,
    }
}

#[test]
fn lower_number_wins_conflict() {
    let mut reg = MemRegistry::new();
    let groups = vec![vec![new_event(7, 1, "abc.btc"), new_event(5, 2, "abc.btc")]];
    let count = index_btc_domain(&mut reg, groups).unwrap();
    assert_eq!(count, 1);
    let bound = reg.lookup("BTC_DOMAIN_btc_abc").unwrap();
    assert_eq!(bound, Some(id(2)));
    assert!(reg.has_tag(id(2), CollectionKind::BtcName));
    assert!(!reg.has_tag(id(1), CollectionKind::BtcName));
}

#[test]
fn excluded_events_never_register() {
    let mut reg = MemRegistry::new();
    let groups = vec![vec![
        new_event(-1, 1, "jack.btc"),
        transfer_event(3, 2),
    ]];
    let count = index_btc_domain(&mut reg, groups).unwrap();
    assert_eq!(count, 0);
    assert_eq!(reg.lookup("BTC_DOMAIN_btc_jack").unwrap(), None);
}

#[test]
fn grouping_order_does_not_matter() {
    let e1 = new_event(10, 1, "one.btc");
    let e2 = new_event(11, 2, "two.unisat");
    let e3 = new_event(12, 3, "one.btc");

    let mut reg_a = MemRegistry::new();
    let count_a =
        index_btc_domain(&mut reg_a, vec![vec![e1.clone(), e2.clone()], vec![e3.clone()]])
            .unwrap();

    let mut reg_b = MemRegistry::new();
    let count_b = index_btc_domain(&mut reg_b, vec![vec![e3], vec![e2, e1]]).unwrap();

    assert_eq!(count_a, count_b);
    for key in ["BTC_DOMAIN_btc_one", "BTC_DOMAIN_unisat_two"] {
        assert_eq!(reg_a.lookup(key).unwrap(), reg_b.lookup(key).unwrap());
    }
    assert_eq!(reg_a.lookup("BTC_DOMAIN_btc_one").unwrap(), Some(id(1)));
    assert_eq!(reg_a.lookup("BTC_DOMAIN_unisat_two").unwrap(), Some(id(2)));
}

#[test]
fn replaying_a_batch_adds_nothing() {
    let groups = vec![vec![new_event(1, 1, "jack.btc")]];
    let mut reg = MemRegistry::new();
    assert_eq!(index_btc_domain(&mut reg, groups.clone()).unwrap(), 1);
    assert_eq!(index_btc_domain(&mut reg, groups).unwrap(), 0);
    assert_eq!(reg.lookup("BTC_DOMAIN_btc_jack").unwrap(), Some(id(1)));
}

#[test]
fn each_suffix_claims_its_own_kind() {
    let mut reg = MemRegistry::new();
    let groups = vec![vec![
        new_event(1, 1, "a.btc"),
        new_event(2, 2, "b.unisat"),
        new_event(3, 3, "c.sats"),
        new_event(4, 4, "d.x"),
        new_event(5, 5, "not a name"),
    ]];
    let count = index_btc_domain(&mut reg, groups).unwrap();
    assert_eq!(count, 4);
    assert_eq!(reg.lookup("BTC_DOMAIN_btc_a").unwrap(), Some(id(1)));
    assert_eq!(reg.lookup("BTC_DOMAIN_unisat_b").unwrap(), Some(id(2)));
    assert_eq!(reg.lookup("BTC_DOMAIN_sats_c").unwrap(), Some(id(3)));
    assert_eq!(reg.lookup("BTC_DOMAIN_x_d").unwrap(), Some(id(4)));
    assert!(reg.has_tag(id(1), CollectionKind::BtcName));
    assert!(reg.has_tag(id(2), CollectionKind::UnisatName));
    assert!(reg.has_tag(id(3), CollectionKind::SatsName));
    assert!(reg.has_tag(id(4), CollectionKind::XName));
}

#[test]
fn configurable_mode_uses_its_own_keys_and_kind() {
    let mut reg = MemRegistry::new();
    let suffixes = SuffixSet {
        items: vec!["example".to_string()],
    };
    let groups = vec![vec![
        new_event(1, 1, "foo.example"),
        new_event(2, 2, "bar.btc"),
    ]];
    let count = index_with_suffixes(&mut reg, groups, &suffixes).unwrap();
    assert_eq!(count, 1);
    assert_eq!(reg.lookup("BTC_NAME_foo_example").unwrap(), Some(id(1)));
    assert_eq!(reg.lookup("BTC_NAME_bar_btc").unwrap(), None);
    assert!(reg.has_tag(id(1), CollectionKind::BtcName));
}

#[test]
fn do_index_reports_fresh_claims_only() {
    let mut reg = MemRegistry::new();
    let fresh = do_index_btc_domain(&reg, b"jack.btc", id(9)).unwrap();
    let (claimant, domain) = fresh.unwrap();
    assert_eq!(claimant, id(9));
    assert_eq!(domain.name, "jack");
    assert_eq!(domain.domain, "btc");

    assert!(do_index_btc_domain(&reg, b"no name", id(9)).unwrap().is_none());

    let count = index_btc_domain(&mut reg, vec![vec![new_event(1, 1, "jack.btc")]]).unwrap();
    assert_eq!(count, 1);
    assert!(do_index_btc_domain(&reg, b"jack.btc", id(9)).unwrap().is_none());
}

#[test]
fn empty_registry_answers_none() {
    let reg = MemRegistry::new();
    assert_eq!(reg.lookup("BTC_DOMAIN_btc_jack").unwrap(), None);
    assert!(!reg.has_tag(id(1), CollectionKind::BtcName));
}

#[test]
fn empty_batch_registers_nothing() {
    let mut reg = MemRegistry::new();
    assert_eq!(index_btc_domain(&mut reg, vec![]).unwrap(), 0);
    assert_eq!(index_btc_domain(&mut reg, vec![vec![]]).unwrap(), 0);
}
