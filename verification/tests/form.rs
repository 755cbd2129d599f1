use zero2prod::form::bytes_eq;
use zero2prod::form::parse_form;
use zero2prod::form::percent_decode;
use zero2prod::handler::subscribe_response;
use zero2prod::subscription::parse_subscription;

#[test]
fn percent_decode_decodes_escapes_and_plus() {
    assert_eq!(Some(b"le guin".to_vec()), percent_decode(b"le%20guin"));
    assert_eq!(Some(b"a b".to_vec()), percent_decode(b"a+b"));
    assert_eq!(Some(b"x@y".to_vec()), percent_decode(b"x%40y"));
    assert_eq!(Some(b"+".to_vec()), percent_decode(b"%2B"));
    assert_eq!(Some(b"+".to_vec()), percent_decode(b"%2b"));
    assert_eq!(Some(b"".to_vec()), percent_decode(b""));
    assert_eq!(Some(b"plain".to_vec()), percent_decode(b"plain"));
}

#[test]
fn percent_decode_rejects_malformed_escapes() {
    assert_eq!(None, percent_decode(b"%"));
    assert_eq!(None, percent_decode(b"%2"));
    assert_eq!(None, percent_decode(b"%zz"));
    assert_eq!(None, percent_decode(b"a%2gb"));
}

#[test]
fn parse_form_splits_pairs_in_order() {
    let pairs = parse_form(b"name=le%20guin&email=ursula_le_guin%40gmail.com").unwrap();
    assert_eq!(2, pairs.len());
    assert_eq!((b"name".to_vec(), b"le guin".to_vec()), pairs[0]);
    assert_eq!(
        (b"email".to_vec(), b"ursula_le_guin@gmail.com".to_vec()),
        pairs[1]
    );
}

#[test]
fn parse_form_handles_edge_segments() {
    assert_eq!(0, parse_form(b"").unwrap().len());

    let pairs = parse_form(b"a=1&&b=2").unwrap();
    assert_eq!(2, pairs.len());
    assert_eq!((b"a".to_vec(), b"1".to_vec()), pairs[0]);
    assert_eq!((b"b".to_vec(), b"2".to_vec()), pairs[1]);

    let pairs = parse_form(b"flag").unwrap();
    assert_eq!(1, pairs.len());
    assert_eq!((b"flag".to_vec(), b"".to_vec()), pairs[0]);

    let pairs = parse_form(b"k=a=b").unwrap();
    assert_eq!(1, pairs.len());
    assert_eq!((b"k".to_vec(), b"a=b".to_vec()), pairs[0]);

    assert!(parse_form(b"name=%zz&email=a").is_none());
}

#[test]
fn parse_subscription_returns_decoded_fields() {
    let req = parse_subscription(b"name=le%20guin&email=ursula_le_guin%40gmail.com").unwrap();
    assert_eq!(b"le guin".to_vec(), req.name);
    assert_eq!(b"ursula_le_guin@gmail.com".to_vec(), req.email);
}

#[test]
fn parse_subscription_ignores_order_and_extra_keys() {
    let req =
        parse_subscription(b"extra=1&email=a%40b.com&other=&name=jo").unwrap();
    assert_eq!(b"jo".to_vec(), req.name);
    assert_eq!(b"a@b.com".to_vec(), req.email);
}

#[test]
fn parse_subscription_rejects_missing_or_empty_fields() {
    assert!(parse_subscription(b"").is_none());
    assert!(parse_subscription(b"name=le%20guin").is_none());
    assert!(parse_subscription(b"email=ursula_le_guin%40gmail.com").is_none());
    assert!(parse_subscription(b"name=&email=a%40b.com").is_none());
    assert!(parse_subscription(b"name=jo&email=").is_none());
}

#[test]
fn subscribe_accepts_any_key_order_with_extra_keys() {
    let response = subscribe_response(b"email=ursula_le_guin%40gmail.com&x=y&name=le%20guin");
    assert_eq!(200, response.status);
    assert_eq!(0, response.body.len());
}

#[test]
fn subscribe_rejects_empty_values_and_malformed_bodies() {
    assert_eq!(400, subscribe_response(b"name=&email=a%40b.com").status);
    assert_eq!(400, subscribe_response(b"name=jo&email=").status);
    assert_eq!(400, subscribe_response(b"%").status);
    assert_eq!(400, subscribe_response(b"name=%2&email=a").status);
}

#[test]
fn bytes_eq_compares_contents() {
    assert!(bytes_eq(b"name", b"name"));
    assert!(!bytes_eq(b"name", b"email"));
    assert!(!bytes_eq(b"name", b"nam"));
    assert!(bytes_eq(b"", b""));
}
