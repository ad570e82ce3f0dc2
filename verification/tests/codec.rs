use tourney::codec::{seed_to_string, u32_to_string};
use tourney::game::MatchId;

#[test]
fn wire_round_trip() {
    let id = MatchId::new(1, 2, 3);
    let text = id.encode();
    assert_eq!(text.as_str(), "{\"s\":1,\"r\":2,\"m\":3}");
    assert_eq!(MatchId::decode(text.as_str()), Some(id));
}

#[test]
fn wire_round_trip_extremes() {
    let id = MatchId::new(0, 4294967295, 10);
    assert_eq!(id.encode().as_str(), "{\"s\":0,\"r\":4294967295,\"m\":10}");
    assert_eq!(MatchId::decode(id.encode().as_str()), Some(id));
}

#[test]
fn decode_rejects_non_canonical_text() {
    assert_eq!(MatchId::decode(""), None);
    assert_eq!(MatchId::decode("{\"s\":1,\"r\":2,\"m\":3"), None);
    assert_eq!(MatchId::decode("{\"s\":1,\"r\":2,\"m\":3} "), None);
    assert_eq!(MatchId::decode("{\"s\":01,\"r\":2,\"m\":3}"), None);
    assert_eq!(MatchId::decode("{\"s\":,\"r\":2,\"m\":3}"), None);
    assert_eq!(MatchId::decode("{\"s\":4294967296,\"r\":2,\"m\":3}"), None);
    assert_eq!(MatchId::decode("{\"r\":1,\"s\":2,\"m\":3}"), None);
    assert_eq!(MatchId::decode("{\"s\":-1,\"r\":2,\"m\":3}"), None);
}

#[test]
fn number_rendering() {
    assert_eq!(u32_to_string(0).as_str(), "0");
    assert_eq!(u32_to_string(907).as_str(), "907");
    assert_eq!(u32_to_string(4294967295).as_str(), "4294967295");
    assert_eq!(seed_to_string(-2147483648).as_str(), "-2147483648");
    assert_eq!(seed_to_string(2147483647).as_str(), "2147483647");
}
