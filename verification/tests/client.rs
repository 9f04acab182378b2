use labyrinth::client::{Account, Client, Status, Token};

#[test]
fn a_new_client_has_no_token_until_one_is_set() {
    let mut client = Client::new(String::from("id"), String::from("secret"));
    assert_eq!(client.client_id(), "id");
    assert_eq!(client.client_secret(), "secret");
    assert!(!client.has_token());
    client.set_token(Token::new(String::from("bearer-value")));
    assert!(client.has_token());
    assert_eq!(client.token().as_ref().unwrap().access_token(), "bearer-value");
}

#[test]
fn statuses_carry_their_content_and_author() {
    let status = Status::new(
        String::from("hello"),
        Account::new(String::from("someone")),
    );
    assert_eq!(status.content, "hello");
    assert_eq!(status.account.username, "someone");
}
