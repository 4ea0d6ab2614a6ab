//! Addresses of the service and what its status codes mean.
use vstd::prelude::*;
use vstd::string::*;

verus! {

/// The page whose status tells whether the session is logged in.
pub const PROFILE_URL: &'static str = "https://learning.oreilly.com/profile/";

/// Where the metadata of a book is served, followed by the book's id.
pub const BOOK_API_PREFIX: &'static str = "https://learning.oreilly.com/api/v1/book/";

/// The part of a book's metadata that is used.
#[derive(Debug)]
pub struct BookInfo {
    pub title: String,
    pub web_url: String,
}

/// The URL of the metadata of a book.
pub fn book_api_url(bookid: &str) -> (r: String)
    ensures
        r@ == BOOK_API_PREFIX@ + bookid@,
{
    let mut r = BOOK_API_PREFIX.to_owned();
    r.append(bookid);
    r
}

/// What the status of the profile page says of the session.
#[derive(Clone, Copy, Debug, PartialEq, Eq, Structural)]
pub enum LoginState {
    /// Status 200: the cookies are accepted.
    LoggedIn,
    /// A redirection: the cookies are stale or invalid.
    LoggedOut,
    /// Any other status.
    Unexpected,
}

/// Read the status of the profile page.
pub fn login_state(status: u16) -> (r: LoginState)
    ensures
        300 <= status <= 399 ==> r == LoginState::LoggedOut,
        status == 200 ==> r == LoginState::LoggedIn,
        !(300 <= status <= 399) && status != 200 ==> r == LoginState::Unexpected,
{
    if 300 <= status && status <= 399 {
        LoginState::LoggedOut
    } else if status == 200 {
        LoginState::LoggedIn
    } else {
        LoginState::Unexpected
    }
}

/// What the status of a metadata request says of the book.
#[derive(Clone, Copy, Debug, PartialEq, Eq, Structural)]
pub enum BookLookup {
    /// Status 200: the body holds the metadata.
    Found,
    /// Status 404: no book has this id.
    NotFound,
    /// Any other status.
    Failed,
}

/// Read the status of a metadata request.
pub fn book_lookup(status: u16) -> (r: BookLookup)
    ensures
        status == 200 ==> r == BookLookup::Found,
        status == 404 ==> r == BookLookup::NotFound,
        status != 200 && status != 404 ==> r == BookLookup::Failed,
{
    if status == 200 {
        BookLookup::Found
    } else if status == 404 {
        BookLookup::NotFound
    } else {
        BookLookup::Failed
    }
}

} // verus!
