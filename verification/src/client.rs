//! The data the social-feed client carries: application credentials, the
//! bearer token, and the statuses of a fetched timeline.
//!
//! All transport lives outside the library; these types only hold and hand
//! back the plain values the viewer needs.

use vstd::prelude::*;

verus! {

/// A bearer token obtained for the registered application.
pub struct Token {
    pub access_token: String,
}

impl Token {
    pub fn new(access_token: String) -> (t: Token)
        ensures
            t.access_token@ == access_token@,
    {
        Token { access_token }
    }

    /// The raw access token to present on authorized requests.
    pub fn access_token(&self) -> (s: &String)
        ensures
            s@ == self.access_token@,
    {
        &self.access_token
    }
}

/// The registered application's credentials, and the token once one has
/// been obtained.
pub struct Client {
    pub client_id: String,
    pub client_secret: String,
    pub token: Option<Token>,
}

impl Client {
    /// A client that has registered but not yet authenticated.
    pub fn new(client_id: String, client_secret: String) -> (c: Client)
        ensures
            c.client_id@ == client_id@,
            c.client_secret@ == client_secret@,
            c.token is None,
    {
        Client { client_id, client_secret, token: None }
    }

    pub fn client_id(&self) -> (s: &String)
        ensures
            s@ == self.client_id@,
    {
        &self.client_id
    }

    pub fn client_secret(&self) -> (s: &String)
        ensures
            s@ == self.client_secret@,
    {
        &self.client_secret
    }

    /// Record the token obtained by authentication.
    pub fn set_token(&mut self, token: Token)
        ensures
            final(self).client_id@ == old(self).client_id@,
            final(self).client_secret@ == old(self).client_secret@,
            final(self).token == Some(token),
    {
        self.token = Some(token);
    }

    /// Whether credentials can be checked and the feed fetched: both demand
    /// a token.
    pub fn has_token(&self) -> (b: bool)
        ensures
            b == (self.token is Some),
    {
        self.token.is_some()
    }

    /// The token to authorize a request with, if one has been obtained.
    pub fn token(&self) -> (t: &Option<Token>)
        ensures
            t == &self.token,
    {
        &self.token
    }
}

/// One status of the fetched timeline.
pub struct Status {
    pub content: String,
    pub account: Account,
}

impl Status {
    pub fn new(content: String, account: Account) -> (s: Status)
        ensures
            s.content@ == content@,
            s.account == account,
    {
        Status { content, account }
    }
}

/// The author of a status.
pub struct Account {
    pub username: String,
}

impl Account {
    pub fn new(username: String) -> (a: Account)
        ensures
            a.username@ == username@,
    {
        Account { username }
    }
}

} // verus!
