use leafish_screen::microsoft::MicrosoftAccount;

#[test]
fn create_user_url_builds_the_authorize_url() {
    let url = MicrosoftAccount::create_user_url("my-client-id", "https://example.invalid/cb");
    assert_eq!(
        url,
        "https://login.live.com/oauth20_authorize.srf\
?client_id=my-client-id\
&response_type=code\
&redirect_uri=https://example.invalid/cb\
&scope=XboxLive.signin%20offline_access"
    );
}

#[test]
fn create_user_url_with_empty_parts_keeps_the_skeleton() {
    let url = MicrosoftAccount::create_user_url("", "");
    assert_eq!(
        url,
        "https://login.live.com/oauth20_authorize.srf\
?client_id=\
&response_type=code\
&redirect_uri=\
&scope=XboxLive.signin%20offline_access"
    );
}
