//! The Microsoft account flow, of which only building the OAuth sign-in URL
//! is real; the rest of the flow lives with the application's collaborators.

use vstd::prelude::*;

verus! {

/// What the sign-in URL looks like for a given client id and redirect URI.
pub open spec fn user_url(client_id: Seq<char>, redirect_uri: Seq<char>) -> Seq<char> {
    "https://login.live.com/oauth20_authorize.srf?client_id="@ + client_id
        + "&response_type=code&redirect_uri="@ + redirect_uri
        + "&scope=XboxLive.signin%20offline_access"@
}

pub struct MicrosoftAccount {}

impl MicrosoftAccount {
    /// Builds the URL a user must visit to authorize the client.
    ///
    /// The client id and the redirect URI are deployment configuration and
    /// are supplied by the caller.
    pub fn create_user_url(client_id: &str, redirect_uri: &str) -> (url: String)
        ensures
            url@ == user_url(client_id@, redirect_uri@),
    {
        let mut url = String::from_str("https://login.live.com/oauth20_authorize.srf?client_id=");
        url.append(client_id);
        url.append("&response_type=code&redirect_uri=");
        url.append(redirect_uri);
        url.append("&scope=XboxLive.signin%20offline_access");
        url
    }
}

} // verus!
