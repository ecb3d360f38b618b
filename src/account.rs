use vstd::prelude::*;

verus! {

/// Length of a biometric template: 478 tracked points, three axes each.
pub const TEMPLATE_LEN: usize = 1434;

/// How long a password-reset token stays valid, in milliseconds.
pub const RESET_TOKEN_TTL_MS: i64 = 3_600_000;

/// Request to send a password-reset link.
#[derive(Debug, Clone)]
pub struct ForgotPasswordRequest {
    pub email: String,
}

/// Request to set a new password with a reset token.
#[derive(Debug, Clone)]
pub struct ResetPasswordRequest {
    pub token: String,
    pub password: String,
}

/// Login by e-mail or by employee identifier.
#[derive(Debug, Clone)]
pub struct LoginRequest {
    pub email_or_id: String,
    pub password: String,
}

/// The public part of a user record.
#[derive(Debug, Clone)]
pub struct UserResponse {
    pub id: String,
    pub name: String,
    pub email: String,
    pub identifier: String,
    pub role: String,
}

/// A successful login: the session token and who it belongs to.
#[derive(Debug, Clone)]
pub struct AuthResponse {
    pub token: String,
    pub user: UserResponse,
}

/// A change of the caller's own profile; absent fields stay as they are.
#[derive(Debug, Clone)]
pub struct UpdateProfileRequest {
    pub name: Option<String>,
    pub identifier: Option<String>,
}

impl UpdateProfileRequest {
    /// Whether the request changes anything at all.
    pub fn has_changes(&self) -> (r: bool)
        ensures
            r == (self.name is Some || self.identifier is Some),
    {
        self.name.is_some() || self.identifier.is_some()
    }
}

/// Whether a submitted template has the enrolled length; any other length
/// is refused at enrollment.
pub fn template_len_valid(len: usize) -> (r: bool)
    ensures
        r == (len == TEMPLATE_LEN),
{
    len == TEMPLATE_LEN
}

/// When a reset token issued at `now_ms` expires; `None` past the last
/// representable instant.
pub fn reset_expiry(now_ms: i64) -> (r: Option<i64>)
    ensures
        r is Some <==> now_ms + RESET_TOKEN_TTL_MS <= i64::MAX,
        r matches Some(t) ==> t == now_ms + RESET_TOKEN_TTL_MS,
{
    now_ms.checked_add(RESET_TOKEN_TTL_MS)
}

/// Whether a reset token that expires at `expires_at_ms` is spent at `now_ms`.
pub fn reset_token_expired(expires_at_ms: i64, now_ms: i64) -> (r: bool)
    ensures
        r == (expires_at_ms < now_ms),
{
    expires_at_ms < now_ms
}

/// The scheme that precedes a session token in an `Authorization` header.
pub open spec fn bearer_prefix() -> Seq<char> {
    seq!['B', 'e', 'a', 'r', 'e', 'r', ' ']
}

/// The token of a `Bearer` authorization header, or `None` for any other header.
pub fn bearer_token(header: &str) -> (r: Option<&str>)
    ensures
        r is Some <==> header@.len() >= 7 && header@.subrange(0, 7) == bearer_prefix(),
        r matches Some(t) ==> t@ == header@.subrange(7, header@.len() as int),
{
    let n = header.unicode_len();
    if n < 7 {
        return None;
    }
    let head = header.substring_char(0, 7);
    let mut i: usize = 0;
    while i < 7
        invariant
            head@.len() == 7,
            head@ == header@.subrange(0, 7),
            0 <= i <= 7,
            forall|j: int| 0 <= j < i ==> head@[j] == bearer_prefix()[j],
        decreases 7 - i,
    {
        let want = match i {
            0 => 'B',
            1 => 'e',
            2 => 'a',
            3 => 'r',
            4 => 'e',
            5 => 'r',
            _ => ' ',
        };
        if head.get_char(i) != want {
            assert(head@[i as int] != bearer_prefix()[i as int]);
            return None;
        }
        i = i + 1;
    }
    assert(head@ =~= bearer_prefix());
    Some(header.substring_char(7, n))
}

/// Whether a role may use the administration routes.
pub fn is_admin(role: &str) -> (r: bool)
    ensures
        r == (role@ == seq!['a', 'd', 'm', 'i', 'n']),
{
    let n = role.unicode_len();
    if n == 5 && role.get_char(0) == 'a' && role.get_char(1) == 'd' && role.get_char(2) == 'm'
        && role.get_char(3) == 'i' && role.get_char(4) == 'n' {
        assert(role@ =~= seq!['a', 'd', 'm', 'i', 'n']);
        true
    } else {
        proof {
            if role@ == seq!['a', 'd', 'm', 'i', 'n'] {
                assert(role@[0] == 'a' && role@[1] == 'd' && role@[2] == 'm' && role@[3] == 'i' && role@[4] == 'n');
            }
        }
        false
    }
}

} // verus!
