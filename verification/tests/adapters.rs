use dire_matching_engine::auth::api_key_from_headers;
use dire_matching_engine::fix::message::{FixWriter, FIX_SOH};
use dire_matching_engine::instruments::parse_instrument_list;
use dire_matching_engine::{AuthConfig, AuthUser, InstrumentId, MarketState, Role};

#[test]
fn market_state_names_round_trip() {
    for state in [MarketState::Open, MarketState::Halted, MarketState::Closed] {
        assert_eq!(MarketState::from_str(state.as_str()), Some(state));
    }
    assert_eq!(MarketState::Open.as_str(), "Open");
    assert_eq!(MarketState::Halted.as_str(), "Halted");
    assert_eq!(MarketState::Closed.as_str(), "Closed");
    assert_eq!(MarketState::from_str("open"), None);
    assert_eq!(MarketState::from_str(""), None);
    assert_eq!(MarketState::from_str("Open "), None);
}

#[test]
fn role_names_ignore_case() {
    assert_eq!(Role::from_str("trader"), Some(Role::Trader));
    assert_eq!(Role::from_str("TRADER"), Some(Role::Trader));
    assert_eq!(Role::from_str("Admin"), Some(Role::Admin));
    assert_eq!(Role::from_str("oPeRaToR"), Some(Role::Operator));
    assert_eq!(Role::from_str("traders"), None);
    assert_eq!(Role::from_str(""), None);
    assert_eq!(Role::from_str("tr\u{e4}der"), None);
    // only the letters A to Z fold: `[` is not `{`
    assert_eq!(Role::from_str("admi\u{4e}"), Some(Role::Admin));
    assert_eq!(Role::from_str("admi\u{2e}"), None);
}

#[test]
fn default_user_is_a_trader_without_key() {
    let user = AuthUser::default();
    assert_eq!(user.key_id, None);
    assert_eq!(user.role, Role::Trader);
}

#[test]
fn fix_writer_frames_the_fields() {
    let mut w = FixWriter::new();
    w.set(35, "A");
    w.set(34, "1");
    w.set(8, "ignored");
    w.set(49, "DIRED");
    w.set(10, "999");
    let mut out = Vec::new();
    w.write(&mut out);
    let body = b"35=A\x0134=1\x0149=DIRED\x01";
    assert_eq!(body.len(), 19);
    let mut expected = b"8=FIX.4.4\x019=19\x01".to_vec();
    expected.extend_from_slice(body);
    let sum: u32 = expected.iter().map(|b| *b as u32).sum();
    expected.extend_from_slice(format!("10={:03}\x01", sum % 256).as_bytes());
    assert_eq!(out, expected);
    assert_eq!(*out.last().unwrap(), FIX_SOH);
}

#[test]
fn fix_writer_pads_the_checksum_and_appends() {
    let w = FixWriter::new();
    let mut out = vec![7u8];
    w.write(&mut out);
    // head alone: "8=FIX.4.4|9=0|", whose bytes add up to 712
    assert_eq!(out, b"\x078=FIX.4.4\x019=0\x0110=200\x01".to_vec());

    let mut w = FixWriter::new();
    w.set(58, "ab");
    let mut out = Vec::new();
    w.write(&mut out);
    assert_eq!(out, b"8=FIX.4.4\x019=6\x0158=ab\x0110=060\x01".to_vec());
}

#[test]
fn keys_are_read_from_a_list() {
    let config = AuthConfig::from_keys("key1:trader,key2:admin");
    assert!(!config.disable);
    assert_eq!(config.lookup("key1"), Some(Role::Trader));
    assert_eq!(config.lookup("key2"), Some(Role::Admin));
    assert_eq!(config.lookup("key3"), None);
    assert_eq!(config.lookup(""), None);
    assert_eq!(config.lookup("key1 "), None);
}

#[test]
fn keys_are_trimmed_and_bad_parts_passed_over() {
    let config = AuthConfig::from_keys("  a : Operator ,nocolon,:admin,b:root, c:d:trader ,a:ADMIN,, e :trader:x,\tf\t:\ttrader\t");
    assert!(!config.disable);
    // the later entry for a key counts
    assert_eq!(config.lookup("a"), Some(Role::Admin));
    assert_eq!(config.lookup("nocolon"), None);
    assert_eq!(config.lookup(""), None);
    assert_eq!(config.lookup("b"), None);
    // the role is all that follows the first colon
    assert_eq!(config.lookup("c"), None);
    assert_eq!(config.lookup("c:d"), None);
    assert_eq!(config.lookup("e"), None);
    assert_eq!(config.lookup("f"), Some(Role::Trader));
}

#[test]
fn without_keys_auth_is_disabled() {
    assert!(AuthConfig::disabled().disable);
    assert_eq!(AuthConfig::disabled().lookup("any"), None);
    assert!(AuthConfig::from_keys("").disable);
    assert!(AuthConfig::from_keys(" , ,").disable);
    assert!(AuthConfig::from_keys("key:nobody").disable);
    assert!(!AuthConfig::from_keys("t:trader,a:admin,o:operator").disable);
    assert_eq!(AuthConfig::from_keys("t:trader,a:admin,o:operator").lookup("o"), Some(Role::Operator));
}

#[test]
fn api_key_is_read_from_the_headers() {
    assert_eq!(api_key_from_headers(Some("Bearer secret"), None), Some("secret".to_string()));
    assert_eq!(api_key_from_headers(Some("  bEaReR   secret  "), Some("other")), Some("secret".to_string()));
    // a key is wanted after the blank: the bare word is not a bearer
    assert_eq!(api_key_from_headers(Some("Bearer "), None), None);
    assert_eq!(api_key_from_headers(Some("Bearer x"), None), Some("x".to_string()));
    assert_eq!(api_key_from_headers(Some("Bearer"), Some(" other ")), Some("other".to_string()));
    assert_eq!(api_key_from_headers(Some("Basic abc"), Some("k")), Some("k".to_string()));
    assert_eq!(api_key_from_headers(Some("Basic abc"), None), None);
    assert_eq!(api_key_from_headers(None, Some("  ")), Some(String::new()));
    assert_eq!(api_key_from_headers(None, None), None);
}

#[test]
fn admin_and_operator_may_administer() {
    assert!(Role::Admin.may_administer());
    assert!(Role::Operator.may_administer());
    assert!(!Role::Trader.may_administer());
}

#[test]
fn instrument_list_is_read() {
    assert_eq!(
        parse_instrument_list("1,2,3"),
        vec![(InstrumentId(1), None), (InstrumentId(2), None), (InstrumentId(3), None)]
    );
    assert_eq!(
        parse_instrument_list(" 1 : AAPL , 2:GOOG,"),
        vec![(InstrumentId(1), Some("AAPL".to_string())), (InstrumentId(2), Some("GOOG".to_string()))]
    );
    assert_eq!(
        parse_instrument_list("x:A,,7: ,+8:B:C, 9 9 ,18446744073709551616,18446744073709551615"),
        vec![
            (InstrumentId(7), None),
            (InstrumentId(8), Some("B:C".to_string())),
            (InstrumentId(18446744073709551615), None)
        ]
    );
    assert!(parse_instrument_list("").is_empty());
    assert!(parse_instrument_list(" , ").is_empty());
}
