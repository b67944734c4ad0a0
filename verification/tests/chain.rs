use bilinker::chain::{carries_tips, chain_uuid, ChainError, Declaration};

#[test]
fn the_uuid_is_the_rendezvous() {
    assert_eq!(chain_uuid(2, false, None, "fresco".into()), Ok("fresco".to_string()));
    assert_eq!(chain_uuid(2, true, Some("remoto".into()), "fresco".into()), Ok("remoto".to_string()));
    assert_eq!(chain_uuid(2, true, None, "fresco".into()), Err(ChainError::NoRemoteUuid));
    assert_eq!(chain_uuid(3, false, None, "f".into()), Err(ChainError::Tips));
    assert_eq!(ChainError::Tips.message(), "chain new requires exactly 2 --tip arguments");
}

#[test]
fn only_the_tips_carry_their_declaration() {
    assert_eq!(carries_tips(0, 3), (true, false));
    assert_eq!(carries_tips(1, 3), (false, false));
    assert_eq!(carries_tips(2, 3), (false, true));
    let d = Declaration::default();
    assert!(d.kind.is_none() && d.uuid.is_none() && d.name[0].is_none() && d.as_name[1].is_none());
}
