use safaribooks::book_api_url;
use safaribooks::orly::{book_lookup, login_state, BookLookup, LoginState, BOOK_API_PREFIX};

#[test]
fn api_url_appends_the_bookid() {
    assert_eq!(
        book_api_url("9781491958698"),
        "https://learning.oreilly.com/api/v1/book/9781491958698"
    );
    assert_eq!(book_api_url(""), BOOK_API_PREFIX);
}

#[test]
fn login_status_is_read() {
    assert_eq!(login_state(200), LoginState::LoggedIn);
    assert_eq!(login_state(302), LoginState::LoggedOut);
    assert_eq!(login_state(301), LoginState::LoggedOut);
    assert_eq!(login_state(403), LoginState::Unexpected);
    assert_eq!(login_state(500), LoginState::Unexpected);
}

#[test]
fn book_status_is_read() {
    assert_eq!(book_lookup(200), BookLookup::Found);
    assert_eq!(book_lookup(404), BookLookup::NotFound);
    assert_eq!(book_lookup(500), BookLookup::Failed);
}
