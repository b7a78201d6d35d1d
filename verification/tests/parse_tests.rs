use bitmex_md::decode::parse;
use bitmex_md::model::BitmexMessage;
use bitmex_md::model::Decimal;

#[test]
fn parse_info_message() {
    let text = "{\"info\":\"Welcome to the BitMEX Realtime API.\",\"version\":\"2020-06-30T21:03:12.000Z\",\"timestamp\":\"2020-07-08T11:00:02.855Z\",\"docs\":\"https://www.bitmex.com/app/wsAPI\",\"limit\":{\"remaining\":39}}";
    let parsed_message = parse(&text);
    match parsed_message {
        Ok(m) => match m {
            BitmexMessage::Info(info_msg) => {
                assert_eq!(info_msg.info, "Welcome to the BitMEX Realtime API.");
            }
            _ => panic!("wrong message type"),
        },
        _ => panic!("message parser error"),
    }
}

#[test]
fn parse_subscribe_message() {
    let text = "{\"success\":true,\"subscribe\":\"orderBookL2:XBTUSD\",\"request\":{\"op\":\"subscribe\",\"args\":[\"orderBookL2:XBTUSD\"]}}";
    let parsed_message = parse(&text);
    match parsed_message {
        Ok(m) => match m {
            BitmexMessage::Subscribe(subscribe_msg) => {
                assert_eq!(subscribe_msg.success, true);
                assert_eq!(subscribe_msg.subscribe, "orderBookL2:XBTUSD");
            }
            _ => panic!("wrong message type"),
        },
        _ => panic!("message parser error"),
    }
}

#[test]
fn parse_snapshot_message() {
    let text = "{\"table\":\"orderBookL2\",\"action\":\"partial\",\"keys\":[\"symbol\",\"id\",\"side\"],\"types\":{\"symbol\":\"symbol\",\"id\":\"long\",\"side\":\"symbol\",\"size\":\"long\",\"price\":\"float\"},\"foreignKeys\":{\"symbol\":\"instrument\",\"side\":\"side\"},\"attributes\":{\"symbol\":\"parted\",\"id\":\"sorted\"},\"filter\":{\"symbol\":\"XBTUSD\"},\"data\":[{\"symbol\":\"XBTUSD\",\"id\":8799070500,\"side\":\"Sell\",\"size\":384243,\"price\":9295},{\"symbol\":\"XBTUSD\",\"id\":8799070550,\"side\":\"Sell\",\"size\":62442,\"price\":9294.5},{\"symbol\":\"XBTUSD\",\"id\":8799070600,\"side\":\"Sell\",\"size\":162802,\"price\":9294},{\"symbol\":\"XBTUSD\",\"id\":8799070650,\"side\":\"Sell\",\"size\":67377,\"price\":9293.5},{\"symbol\":\"XBTUSD\",\"id\":8799070700,\"side\":\"Sell\",\"size\":19978,\"price\":9293},{\"symbol\":\"XBTUSD\",\"id\":8799070750,\"side\":\"Sell\",\"size\":56948,\"price\":9292.5},{\"symbol\":\"XBTUSD\",\"id\":8799070800,\"side\":\"Sell\",\"size\":82020,\"price\":9292},{\"symbol\":\"XBTUSD\",\"id\":8799070850,\"side\":\"Sell\",\"size\":832,\"price\":9291.5},{\"symbol\":\"XBTUSD\",\"id\":8799070900,\"side\":\"Sell\",\"size\":1186665,\"price\":9291},{\"symbol\":\"XBTUSD\",\"id\":8799070950,\"side\":\"Buy\",\"size\":1023444,\"price\":9290.5},{\"symbol\":\"XBTUSD\",\"id\":8799071000,\"side\":\"Buy\",\"size\":23490,\"price\":9290},{\"symbol\":\"XBTUSD\",\"id\":8799071050,\"side\":\"Buy\",\"size\":155749,\"price\":9289.5},{\"symbol\":\"XBTUSD\",\"id\":8799071100,\"side\":\"Buy\",\"size\":10723,\"price\":9289},{\"symbol\":\"XBTUSD\",\"id\":8799071150,\"side\":\"Buy\",\"size\":2113,\"price\":9288.5}]}";
    let parsed_message = parse(&text);
    match parsed_message {
        Ok(m) => match m {
            BitmexMessage::Snapshot(snapshot_message) => {
                assert_eq!(snapshot_message.action, "partial");
                assert_eq!(snapshot_message.data.len(), 14);
            }
            _ => panic!("wrong message type"),
        },
        _ => panic!("message parser error"),
    }
}

#[test]
fn parse_insert_message() {
    let text = "{\"table\":\"orderBookL2\",\"action\":\"insert\",\"data\":[{\"symbol\":\"XBTUSD\",\"id\":8798141850,\"side\":\"Sell\",\"size\":1,\"price\":18581.5}]}";
    let parsed_message = parse(&text);
    match parsed_message {
        Ok(m) => match m {
            BitmexMessage::Insert(insert_message) => {
                assert_eq!(insert_message.action, "insert");
                assert_eq!(insert_message.data.len(), 1);
                let entry = insert_message.data.get(0).unwrap();
                assert_eq!(entry.symbol, "XBTUSD");
                assert_eq!(entry.id, 8798141850);
                assert_eq!(entry.side, "Sell");
                assert_eq!(entry.size, 1);
                assert_eq!(entry.price, Decimal::with_fraction(18581, 5, 1));
            }
            _ => panic!("wrong message type"),
        },
        _ => panic!("message parser error"),
    }
}

#[test]
fn parse_delete_message() {
    let text = "{\"table\":\"orderBookL2\",\"action\":\"delete\",\"data\":[{\"symbol\":\"XBTUSD\",\"id\":8799594200,\"side\":\"Buy\"}]}";
    let parsed_message = parse(&text);
    match parsed_message {
        Ok(m) => match m {
            BitmexMessage::Delete(delete_message) => {
                assert_eq!(delete_message.action, "delete");
                assert_eq!(delete_message.data.len(), 1);
                let entry = delete_message.data.get(0).unwrap();
                assert_eq!(entry.symbol, "XBTUSD");
                assert_eq!(entry.id, 8799594200);
                assert_eq!(entry.side, "Buy");
            }
            _ => panic!("wrong message type"),
        },
        _ => panic!("message parser error"),
    }
}

#[test]
fn parse_update_message() {
    let text = "{\"table\":\"orderBookL2\",\"action\":\"update\",\"data\":[{\"symbol\":\"XBTUSD\",\"id\":8799065200,\"side\":\"Sell\",\"size\":182112},{\"symbol\":\"XBTUSD\",\"id\":8799065250,\"side\":\"Sell\",\"size\":19575}]}";
    let parsed_message = parse(&text);
    match parsed_message {
        Ok(m) => match m {
            BitmexMessage::Update(update_message) => {
                assert_eq!(update_message.action, "update");
                assert_eq!(update_message.data.len(), 2);
                let entry1 = update_message.data.get(0).unwrap();
                assert_eq!(entry1.symbol, "XBTUSD");
                assert_eq!(entry1.id, 8799065200);
                assert_eq!(entry1.side, "Sell");
                assert_eq!(entry1.size, 182112);

                let entry2 = update_message.data.get(1).unwrap();
                assert_eq!(entry2.symbol, "XBTUSD");
                assert_eq!(entry2.id, 8799065250);
                assert_eq!(entry2.side, "Sell");
                assert_eq!(entry2.size, 19575);
            }
            _ => panic!("wrong message type"),
        },
        _ => panic!("message parser error"),
    }
}

#[test]
fn parse_trade_snapshot() {
    let text = "{\"table\":\"trade\",\"action\":\"partial\",\"keys\":[],\"types\":{\"timestamp\":\"timestamp\",\"symbol\":\"symbol\",\"side\":\"symbol\",\"size\":\"long\",\"price\":\"float\",\"tickDirection\":\"symbol\",\"trdMatchID\":\"guid\",\"grossValue\":\"long\",\"homeNotional\":\"float\",\"foreignNotional\":\"float\"},\"foreignKeys\":{\"symbol\":\"instrument\",\"side\":\"side\"},\"attributes\":{\"timestamp\":\"sorted\",\"symbol\":\"grouped\"},\"filter\":{\"symbol\":\"XBTUSD\"},\"data\":[{\"timestamp\":\"2020-07-19T19:42:57.047Z\",\"symbol\":\"XBTUSD\",\"side\":\"Sell\",\"size\":446,\"price\":9155.5,\"tickDirection\":\"MinusTick\",\"trdMatchID\":\"3a90d7b2-8b2b-556f-0dc5-bfde052e240b\",\"grossValue\":4871212,\"homeNotional\":0.04871212,\"foreignNotional\":446}]}";
    let parsed_message = parse(&text);
    match parsed_message {
        Ok(m) => match m {
            BitmexMessage::TradeSnapshot(trade_snapshot_message) => {
                assert_eq!(trade_snapshot_message.table, "trade");
                assert_eq!(trade_snapshot_message.action, "partial");
                let entry = trade_snapshot_message.data.get(0).unwrap();
                assert_eq!(entry.timestamp, "2020-07-19T19:42:57.047Z");
                assert_eq!(entry.symbol, "XBTUSD");
                assert_eq!(entry.side, "Sell");
                assert_eq!(entry.size, Decimal::integral(446));
                assert_eq!(entry.price, Decimal::with_fraction(9155, 5, 1));
                assert_eq!(entry.tick_direction, "MinusTick");
                assert_eq!(entry.trd_match_id, "3a90d7b2-8b2b-556f-0dc5-bfde052e240b");
                assert_eq!(entry.gross_value, Decimal::integral(4871212));
                assert_eq!(entry.home_notional, Decimal::with_fraction(0, 4871212, 8));
                assert_eq!(entry.foreign_notional, Decimal::integral(446));
            }
            _ => panic!("wrong message type"),
        },
        _ => panic!("message parser error"),
    }
}

#[test]
fn parse_trade_update() {
    let text = "{\"table\":\"trade\",\"action\":\"insert\",\"data\":[{\"timestamp\":\"2020-07-19T19:43:21.401Z\",\"symbol\":\"XBTUSD\",\"side\":\"Sell\",\"size\":16000,\"price\":9155.5,\"tickDirection\":\"ZeroMinusTick\",\"trdMatchID\":\"ec06df7b-0dc0-8181-f693-c9f39fb57e56\",\"grossValue\":174752000,\"homeNotional\":1.74752,\"foreignNotional\":16000}]}";
    let parsed_message = parse(&text);
    match parsed_message {
        Ok(m) => match m {
            BitmexMessage::Trade(trade_message) => {
                assert_eq!(trade_message.table, "trade");
                assert_eq!(trade_message.action, "insert");
                let entry = trade_message.data.get(0).unwrap();
                assert_eq!(entry.timestamp, "2020-07-19T19:43:21.401Z");
                assert_eq!(entry.symbol, "XBTUSD");
                assert_eq!(entry.side, "Sell");
                assert_eq!(entry.size, Decimal::integral(16000));
                assert_eq!(entry.price, Decimal::with_fraction(9155, 5, 1));
                assert_eq!(entry.tick_direction, "ZeroMinusTick");
                assert_eq!(entry.trd_match_id, "ec06df7b-0dc0-8181-f693-c9f39fb57e56");
                assert_eq!(entry.gross_value, Decimal::integral(174752000));
                assert_eq!(entry.home_notional, Decimal::with_fraction(1, 74752, 5));
                assert_eq!(entry.foreign_notional, Decimal::integral(16000));
            }
            _ => panic!("wrong message type"),
        },
        _ => panic!("message parser error"),
    }
}
