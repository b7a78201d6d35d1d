use bitmex_md::handler::BitmexMdHandler;

#[test]
fn subscription_request_single_symbol() {
    let mut h = BitmexMdHandler::new();
    h.add_symbol("XBTUSD");
    assert_eq!(
        h.get_subscription_request(),
        "{\"op\":\"subscribe\",\"args\":[\"trade:XBTUSD\"]}"
    );
}

#[test]
fn subscription_request_keeps_symbol_order() {
    let mut h = BitmexMdHandler::new();
    h.add_symbol("XBTUSD");
    h.add_symbol("ETHUSD");
    h.add_symbol("XRPUSD");
    assert_eq!(
        h.get_subscription_request(),
        "{\"op\":\"subscribe\",\"args\":[\"trade:XBTUSD\",\"trade:ETHUSD\",\"trade:XRPUSD\"]}"
    );
}

#[test]
fn subscription_request_no_symbols() {
    let h = BitmexMdHandler::new();
    assert_eq!(h.get_subscription_request(), "{\"op\":\"subscribe\",\"args\":[]}");
}
