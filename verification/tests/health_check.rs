use zero2prod::handler::health_check_response;
use zero2prod::handler::subscribe_response;

#[test]
fn health_check_works() {
    let response = health_check_response();

    assert!(response.status >= 200 && response.status < 300);
    assert_eq!(0, response.body.len());
}

#[test]
fn subscribe_returns_a_200_for_valid_from_data() {
    let body = "name=le%20guin&email=ursula_le_guin%40gmail.com";

    let response = subscribe_response(body.as_bytes());

    assert_eq!(200, response.status);
}

#[test]
fn subscribe_returns_a_400_when_data_is_missing() {
    let test_case = vec![
        ("name=le%20guin", "missing the email"),
        ("email=ursula_le_guin%40gmail.com", "missing the name"),
        ("", "missing both name and email"),
    ];

    for (invalid_body, error_message) in test_case {
        let response = subscribe_response(invalid_body.as_bytes());

        assert_eq!(
            400, response.status,
            "The API did not fail with 400 Bad Request when the payload was {}.",
            error_message
        )
    }
}
