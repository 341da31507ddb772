use airmail_fst::records::{AddressToken, FeatureRefs, LpEntryToken, LpFileEntry};

#[test]
fn records_hold_their_fields() {
    let token = LpEntryToken { word: "Main".into(), transliterated: "main".into(), label: "road".into() };
    let entry = LpFileEntry { lang: "en".into(), country: "us".into(), tokens: vec![token.clone()] };
    assert_eq!(entry.tokens[0].transliterated, "main");
    assert_eq!(entry.tokens.len(), 1);
    let refs = FeatureRefs { num_features: 2, feature_ids: vec![3, 9] };
    assert_eq!(refs.feature_ids.len() as u32, refs.num_features);
    assert_eq!(AddressToken::Locality("seattle".into()), AddressToken::Locality("seattle".into()));
    assert_ne!(AddressToken::Locality("roanoke".into()), AddressToken::Street("roanoke".into()));
}
