use bitmex_md::decode::{classify, decode, parse};
use bitmex_md::model::{BitmexMessage, CategoryTag, Decimal, ParseError};

#[test]
fn classify_each_category() {
    let info = "{\"info\":\"hi\",\"version\":\"v\",\"timestamp\":\"t\",\"docs\":\"d\",\"limit\":{\"remaining\":1}}";
    assert_eq!(classify(info), Ok(CategoryTag::Info));
    let ack = "{\"success\":true,\"subscribe\":\"trade:XBTUSD\",\"request\":{\"op\":\"subscribe\",\"args\":[\"trade:XBTUSD\"]}}";
    assert_eq!(classify(ack), Ok(CategoryTag::Subscribe));
    assert_eq!(
        classify("{\"table\":\"orderBookL2\",\"action\":\"partial\",\"keys\":[]}"),
        Ok(CategoryTag::Snapshot)
    );
    assert_eq!(
        classify("{\"table\":\"orderBookL2\",\"action\":\"update\",\"data\":[]}"),
        Ok(CategoryTag::Update)
    );
    assert_eq!(
        classify("{\"table\":\"orderBookL2\",\"action\":\"insert\",\"data\":[]}"),
        Ok(CategoryTag::Insert)
    );
    assert_eq!(
        classify("{\"table\":\"orderBookL2\",\"action\":\"delete\",\"data\":[]}"),
        Ok(CategoryTag::Delete)
    );
    assert_eq!(
        classify("{\"table\":\"trade\",\"action\":\"partial\",\"keys\":[]}"),
        Ok(CategoryTag::TradeSnapshot)
    );
    assert_eq!(
        classify("{\"table\":\"trade\",\"action\":\"insert\",\"data\":[]}"),
        Ok(CategoryTag::Trade)
    );
}

#[test]
fn classify_unrecognized_shape() {
    assert_eq!(classify("{\"foo\":1}"), Err(ParseError::Invalid));
    assert_eq!(classify("[1,2,3]x"), Err(ParseError::Invalid));
}

#[test]
fn classify_unrecognized_table() {
    assert_eq!(
        classify("{\"table\":\"quote\",\"action\":\"insert\",\"data\":[]}"),
        Err(ParseError::InvalidTable)
    );
}

#[test]
fn classify_unrecognized_action() {
    assert_eq!(
        classify("{\"table\":\"orderBookL2\",\"action\":\"foobar\",\"data\":[]}"),
        Err(ParseError::InvalidAction)
    );
    // update and delete are not valid actions for the trade table
    assert_eq!(
        classify("{\"table\":\"trade\",\"action\":\"update\",\"data\":[]}"),
        Err(ParseError::InvalidAction)
    );
    assert_eq!(
        classify("{\"table\":\"trade\",\"action\":\"delete\",\"data\":[]}"),
        Err(ParseError::InvalidAction)
    );
}

#[test]
fn classify_truncated_payloads() {
    assert_eq!(classify(""), Err(ParseError::Truncated));
    assert_eq!(classify("{\"ta"), Err(ParseError::Truncated));
    assert_eq!(classify("{\"table\":\""), Err(ParseError::Truncated));
    assert_eq!(classify("{\"table\":\"trade\",\"act"), Err(ParseError::Truncated));
    assert_eq!(classify("{\"table\":\"orderBookL2\",\"action\":"), Err(ParseError::Truncated));
}

#[test]
fn decode_rejects_malformed_body() {
    // classified as an update, but the body is not a well-formed update
    let text = "{\"table\":\"orderBookL2\",\"action\":\"update\",\"data\":}";
    assert_eq!(classify(text), Ok(CategoryTag::Update));
    match decode(text, CategoryTag::Update) {
        Err(ParseError::Malformed(CategoryTag::Update)) => {}
        _ => panic!("expected a malformed-update error"),
    }
    // a leading zero is not the canonical integer form
    let text2 = "{\"table\":\"orderBookL2\",\"action\":\"delete\",\"data\":[{\"symbol\":\"XBTUSD\",\"id\":007,\"side\":\"Buy\"}]}";
    match parse(text2) {
        Err(ParseError::Malformed(CategoryTag::Delete)) => {}
        _ => panic!("expected a malformed-delete error"),
    }
    // a decode path must reject a payload whose action contradicts the tag
    let upd = "{\"table\":\"orderBookL2\",\"action\":\"update\",\"data\":[]}";
    match decode(upd, CategoryTag::Insert) {
        Err(ParseError::Malformed(CategoryTag::Insert)) => {}
        _ => panic!("expected a malformed-insert error"),
    }
}

#[test]
fn decode_empty_data_array() {
    let text = "{\"table\":\"orderBookL2\",\"action\":\"update\",\"data\":[]}";
    match parse(text) {
        Ok(BitmexMessage::Update(m)) => {
            assert_eq!(m.table, "orderBookL2");
            assert_eq!(m.action, "update");
            assert_eq!(m.data.len(), 0);
        }
        _ => panic!("expected an empty update"),
    }
}

#[test]
fn decode_keeps_fraction_digits() {
    // 18581.50 and 18581.5 are different wire texts and decode to
    // decimals of different scales
    let a = "{\"table\":\"orderBookL2\",\"action\":\"insert\",\"data\":[{\"symbol\":\"X\",\"id\":1,\"side\":\"Buy\",\"size\":2,\"price\":18581.50}]}";
    match parse(a) {
        Ok(BitmexMessage::Insert(m)) => {
            assert_eq!(m.data[0].price, Decimal::with_fraction(18581, 50, 2));
        }
        _ => panic!("expected an insert"),
    }
}

#[test]
fn decode_negative_quantities() {
    let a = "{\"table\":\"trade\",\"action\":\"insert\",\"data\":[{\"timestamp\":\"t\",\"symbol\":\"X\",\"side\":\"Sell\",\"size\":1,\"price\":2,\"tickDirection\":\"d\",\"trdMatchID\":\"m\",\"grossValue\":3,\"homeNotional\":-0.5,\"foreignNotional\":4}]}";
    match parse(a) {
        Ok(BitmexMessage::Trade(m)) => {
            assert_eq!(
                m.data[0].home_notional,
                Decimal { neg: true, int_part: 0, frac: 5, scale: 1 }
            );
        }
        _ => panic!("expected a trade"),
    }
}

#[test]
fn parse_rejects_trailing_text() {
    let text = "{\"table\":\"orderBookL2\",\"action\":\"update\",\"data\":[]} ";
    match parse(text) {
        Err(ParseError::Malformed(CategoryTag::Update)) => {}
        _ => panic!("expected a malformed-update error"),
    }
}
