//! Accounts, roles, repository visibility and permission answers.
use vstd::prelude::*;
use crate::enc_string::EncString;
use crate::record::DatabaseIdTrait;

verus! {

/// Character-wise equality of two texts.
pub fn str_eq(a: &str, b: &str) -> (r: bool)
    ensures
        r == (a@ == b@),
{
    let n = a.unicode_len();
    if n != b.unicode_len() {
        return false;
    }
    let mut i: usize = 0;
    while i < n
        invariant
            n == a@.len(),
            n == b@.len(),
            i <= n,
            forall|k: int| 0 <= k < i ==> a@[k] == b@[k],
        decreases n - i,
    {
        if a.get_char(i) != b.get_char(i) {
            return false;
        }
        i = i + 1;
    }
    assert(a@ =~= b@);
    true
}

#[derive(Clone, Copy, Debug, PartialEq, Eq, Structural)]
pub enum UserRole {
    Guest,
    Vip,
    Admin,
}

impl UserRole {
    /// The role stored under `value`; unknown names give `Guest`.
    pub fn from_name(value: &str) -> (r: UserRole)
        ensures
            r == (if value@ == "vip"@ {
                UserRole::Vip
            } else if value@ == "admin"@ {
                UserRole::Admin
            } else {
                UserRole::Guest
            }),
    {
        if str_eq(value, "vip") {
            UserRole::Vip
        } else if str_eq(value, "admin") {
            UserRole::Admin
        } else {
            UserRole::Guest
        }
    }
}

/// Who may see a repository.
#[derive(Clone, Copy, Debug, PartialEq, Eq, Structural)]
pub enum RepositoryStatus {
    Private,
    Hidden,
    Public,
}

impl RepositoryStatus {
    /// The status stored under `value`; unknown names give `Private`.
    pub fn from_name(value: &str) -> (r: RepositoryStatus)
        ensures
            r == (if value@ == "hidden"@ {
                RepositoryStatus::Hidden
            } else if value@ == "public"@ {
                RepositoryStatus::Public
            } else {
                RepositoryStatus::Private
            }),
    {
        if str_eq(value, "hidden") {
            RepositoryStatus::Hidden
        } else if str_eq(value, "public") {
            RepositoryStatus::Public
        } else {
            RepositoryStatus::Private
        }
    }
}

/// Why an account change was refused.
#[derive(Clone, Copy, Debug, PartialEq, Eq, Structural)]
pub enum UserError {
    /// The account already has an identifier.
    IdAlreadySet,
}

pub struct User {
    pub id: i64,
    pub email: EncString,
    pub name: EncString,
    pub login: EncString,
    pub password_hash: String,
    pub allow_contact: bool,
    pub user_role: UserRole,
}

impl User {
    /// The identifier; 0 until the account is stored.
    pub open spec fn spec_id(&self) -> i64 {
        self.id
    }

    pub open spec fn spec_password(&self) -> Seq<char> {
        self.password_hash@
    }

    /// A guest account with no identifier yet.
    pub fn new(login: EncString, name: EncString, email: EncString) -> (r: User)
        ensures
            r.spec_id() == 0,
            r.login@ == login@,
            r.name@ == name@,
            r.email@ == email@,
            r.user_role == UserRole::Guest,
            !r.allow_contact,
            r.spec_password().len() == 0,
    {
        User {
            id: 0,
            email,
            name,
            login,
            password_hash: String::new(),
            allow_contact: false,
            user_role: UserRole::Guest,
        }
    }

    pub fn can_create_repository(&self) -> (r: bool)
        ensures
            r == (self.user_role == UserRole::Vip || self.user_role == UserRole::Admin),
    {
        match self.user_role {
            UserRole::Vip | UserRole::Admin => true,
            UserRole::Guest => false,
        }
    }

    pub fn id(&self) -> (r: i64)
        ensures
            r == self.spec_id(),
    {
        self.id
    }

    /// Gives the account its identifier, once.
    pub fn set_id(&mut self, id: i64) -> (r: Result<(), UserError>)
        ensures
            old(self).spec_id() != 0 ==> r == Err::<(), UserError>(UserError::IdAlreadySet) && *final(self) == *old(self),
            old(self).spec_id() == 0 ==> r is Ok && *final(self) == (User { id, ..*old(self) }),
    {
        if self.id.is_valid() {
            Err(UserError::IdAlreadySet)
        } else {
            self.id = id;
            Ok(())
        }
    }

    pub fn update_password(&mut self, password: String)
        ensures
            *final(self) == (User { password_hash: password, ..*old(self) }),
    {
        self.password_hash = password;
    }

    pub fn password(&self) -> (r: &String)
        ensures
            r@ == self.spec_password(),
    {
        &self.password_hash
    }
}

/// A login session of a user on a device.
pub struct AuthToken {
    pub owner: i64,
    pub token: EncString,
    pub device: EncString,
    pub expdate: i64,
}

impl AuthToken {
    pub open spec fn spec_owner(&self) -> i64 {
        self.owner
    }

    pub fn new(owner: i64, token: EncString, device: EncString, expdate: i64) -> (r: AuthToken)
        ensures
            r.spec_owner() == owner,
            r.token@ == token@,
            r.device@ == device@,
            r.expdate == expdate,
    {
        AuthToken { owner, token, device, expdate }
    }

    pub fn owner(&self) -> (r: i64)
        ensures
            r == self.spec_owner(),
    {
        self.owner
    }
}

/// What a client sends to log in.
pub struct LoginInfos {
    pub login: EncString,
    pub password: EncString,
    pub device: Option<EncString>,
}

/// The answer to a permission question.
#[derive(Clone, Copy, Debug, PartialEq, Eq, Structural)]
pub enum PermissionResult {
    Granted,
    Denied,
}

/// Access was refused.
#[derive(Clone, Copy, Debug, PartialEq, Eq, Structural)]
pub enum PermissionError {
    AccessDenied,
}

impl PermissionResult {
    pub fn granted(&self) -> (r: bool)
        ensures
            r == (*self == PermissionResult::Granted),
    {
        match self {
            PermissionResult::Granted => true,
            PermissionResult::Denied => false,
        }
    }

    /// Fails unless access was granted.
    pub fn require(&self) -> (r: Result<(), PermissionError>)
        ensures
            r is Ok <==> *self == PermissionResult::Granted,
            r is Err ==> r == Err::<(), PermissionError>(PermissionError::AccessDenied),
    {
        match self {
            PermissionResult::Granted => Ok(()),
            PermissionResult::Denied => Err(PermissionError::AccessDenied),
        }
    }
}

} // verus!
