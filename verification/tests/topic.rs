use learn::{subscription_reply, Broadcaster, CommandResponse, Value};

#[test]
fn subscription_reply_carries_the_id() {
    let r = subscription_reply(42);
    assert_eq!(
        r,
        CommandResponse { status: 200, message: String::new(), values: vec![Value::from(42i64)], pairs: vec![] }
    );
}

#[test]
fn broadcaster_keeps_subscriptions() {
    let mut b = Broadcaster::new();
    let (tx, mut rx) = tokio::sync::mpsc::channel(4);
    b.subscribe("news".to_string(), 1, tx.clone());
    b.subscribe("news".to_string(), 2, tx.clone());
    tx.try_send(std::sync::Arc::new(subscription_reply(2))).unwrap();
    assert_eq!(*rx.try_recv().unwrap(), subscription_reply(2));
}
