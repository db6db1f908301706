//! The users and authentication panel.

use vstd::prelude::*;

use crate::strings::{str_eq, to_chars};

verus! {

/// An account row in the users panel.
#[derive(Debug, Clone, PartialEq, Eq)]
pub struct AccountRow {
    /// The login name.
    pub username: String,
    /// Whether the account has administrator rights.
    pub is_admin: bool,
    /// Whether the account is enabled (can log in).
    pub enabled: bool,
}

/// An account-management action the panel requests; the authentication backend applies it. No
/// secret is carried here — password entry happens in a secure prompt the backend owns.
#[derive(Debug, Clone, PartialEq, Eq)]
pub enum AccountOp {
    /// Create a new account.
    Create {
        /// The new login name.
        username: String,
        /// Whether it is an administrator.
        admin: bool,
    },
    /// Delete an account.
    Delete {
        /// The login name to remove.
        username: String,
    },
    /// Change an account's administrator status.
    SetAdmin {
        /// The login name.
        username: String,
        /// The new administrator status.
        admin: bool,
    },
    /// Enable or disable an account.
    SetEnabled {
        /// The login name.
        username: String,
        /// The new enabled status.
        enabled: bool,
    },
    /// Request a password change (the backend prompts for the new secret).
    ChangePassword {
        /// The login name.
        username: String,
    },
}

/// Why an account operation was rejected.
#[derive(Debug, Clone, Copy, PartialEq, Eq, Structural)]
pub enum UsersError {
    /// The username violates the naming rules.
    InvalidUsername,
    /// An account with that name already exists.
    DuplicateUser,
    /// No account with that name exists.
    NoSuchUser,
    /// The operation would leave no enabled administrator.
    LastAdmin,
}

/// The users panel.
#[derive(Debug, Clone, PartialEq, Eq)]
pub struct UsersPanel {
    /// The known accounts.
    pub accounts: Vec<AccountRow>,
}

// ---------------------------------------------------------------------------
// Model
// ---------------------------------------------------------------------------

/// What an account row says.
pub struct Account {
    /// The login name.
    pub name: Seq<char>,
    /// Whether the account has administrator rights.
    pub admin: bool,
    /// Whether the account is enabled.
    pub enabled: bool,
}

impl View for AccountRow {
    type V = Account;

    open spec fn view(&self) -> Account {
        Account { name: self.username@, admin: self.is_admin, enabled: self.enabled }
    }
}

/// What the rows of a list say.
pub open spec fn accounts_of(s: Seq<AccountRow>) -> Seq<Account> {
    s.map_values(|r: AccountRow| r@)
}

/// What an account operation asks for.
pub enum Op {
    /// Create an account.
    Create(Seq<char>, bool),
    /// Delete an account.
    Delete(Seq<char>),
    /// Change the administrator status.
    SetAdmin(Seq<char>, bool),
    /// Change the enabled status.
    SetEnabled(Seq<char>, bool),
    /// Change the password.
    ChangePassword(Seq<char>),
}

impl View for AccountOp {
    type V = Op;

    open spec fn view(&self) -> Op {
        match self {
            AccountOp::Create { username, admin } => Op::Create(username@, *admin),
            AccountOp::Delete { username } => Op::Delete(username@),
            AccountOp::SetAdmin { username, admin } => Op::SetAdmin(username@, *admin),
            AccountOp::SetEnabled { username, enabled } => Op::SetEnabled(username@, *enabled),
            AccountOp::ChangePassword { username } => Op::ChangePassword(username@),
        }
    }
}

/// Whether a character may open a login name.
pub open spec fn opens_name(c: char) -> bool {
    'a' <= c <= 'z' || c == '_'
}

/// Whether a character may stand in a login name.
pub open spec fn in_name(c: char) -> bool {
    'a' <= c <= 'z' || '0' <= c <= '9' || c == '_' || c == '-'
}

/// Whether a login name is valid: `[a-z_][a-z0-9_-]*`, at most 32 characters.
pub open spec fn valid_name(u: Seq<char>) -> bool {
    &&& 0 < u.len() <= 32
    &&& opens_name(u[0])
    &&& forall|i: int| 0 <= i < u.len() ==> in_name(#[trigger] u[i])
}

/// The position of the first account with a name, or the number of accounts.
pub open spec fn account_at(s: Seq<Account>, name: Seq<char>) -> nat
    decreases s.len(),
{
    if s.len() == 0 || s[0].name == name {
        0
    } else {
        1 + account_at(s.drop_first(), name)
    }
}

/// The first account with a name.
pub open spec fn account(s: Seq<Account>, name: Seq<char>) -> Option<Account> {
    if account_at(s, name) < s.len() {
        Some(s[account_at(s, name) as int])
    } else {
        None
    }
}

/// Whether an account is an enabled administrator.
pub open spec fn governs(a: Account) -> bool {
    a.admin && a.enabled
}

/// The number of enabled administrators.
pub open spec fn governors(s: Seq<Account>) -> nat
    decreases s.len(),
{
    if s.len() == 0 {
        0
    } else {
        governors(s.drop_last()) + (if governs(s.last()) {
            1nat
        } else {
            0
        })
    }
}

/// Whether a name is that of the only enabled administrator.
pub open spec fn sole_governor(s: Seq<Account>, name: Seq<char>) -> bool {
    account(s, name) matches Some(a) && governs(a) && governors(s) <= 1
}

/// Whether account policy allows an operation, or why not.
pub open spec fn policy(s: Seq<Account>, op: Op) -> Result<(), UsersError> {
    match op {
        Op::Create(name, _) => if !valid_name(name) {
            Err(UsersError::InvalidUsername)
        } else if account(s, name) is Some {
            Err(UsersError::DuplicateUser)
        } else {
            Ok(())
        },
        Op::Delete(name) => if account(s, name) is None {
            Err(UsersError::NoSuchUser)
        } else if sole_governor(s, name) {
            Err(UsersError::LastAdmin)
        } else {
            Ok(())
        },
        Op::SetAdmin(name, on) => if account(s, name) is None {
            Err(UsersError::NoSuchUser)
        } else if !on && sole_governor(s, name) {
            Err(UsersError::LastAdmin)
        } else {
            Ok(())
        },
        Op::SetEnabled(name, on) => if account(s, name) is None {
            Err(UsersError::NoSuchUser)
        } else if !on && sole_governor(s, name) {
            Err(UsersError::LastAdmin)
        } else {
            Ok(())
        },
        Op::ChangePassword(name) => if account(s, name) is None {
            Err(UsersError::NoSuchUser)
        } else {
            Ok(())
        },
    }
}

/// The accounts after an operation. A new account is enabled.
pub open spec fn applied(s: Seq<Account>, op: Op) -> Seq<Account> {
    match op {
        Op::Create(name, admin) => s.push(Account { name, admin, enabled: true }),
        Op::Delete(name) => s.remove(account_at(s, name) as int),
        Op::SetAdmin(name, admin) => s.update(
            account_at(s, name) as int,
            Account { admin, ..s[account_at(s, name) as int] },
        ),
        Op::SetEnabled(name, enabled) => s.update(
            account_at(s, name) as int,
            Account { enabled, ..s[account_at(s, name) as int] },
        ),
        Op::ChangePassword(_) => s,
    }
}

proof fn lemma_governors_update(s: Seq<Account>, i: int, a: Account)
    requires
        0 <= i < s.len(),
    ensures
        governors(s.update(i, a)) + (if governs(s[i]) {
            1nat
        } else {
            0
        }) == governors(s) + (if governs(a) {
            1nat
        } else {
            0
        }),
    decreases s.len(),
{
    let t = s.update(i, a);
    if i == s.len() - 1 {
        assert(t.drop_last() == s.drop_last());
    } else {
        lemma_governors_update(s.drop_last(), i, a);
        assert(t.drop_last() == s.drop_last().update(i, a));
    }
}

proof fn lemma_governors_remove(s: Seq<Account>, i: int)
    requires
        0 <= i < s.len(),
    ensures
        governors(s.remove(i)) + (if governs(s[i]) {
            1nat
        } else {
            0
        }) == governors(s),
    decreases s.len(),
{
    let t = s.remove(i);
    if i == s.len() - 1 {
        assert(t == s.drop_last());
    } else {
        lemma_governors_remove(s.drop_last(), i);
        assert(t.drop_last() == s.drop_last().remove(i));
    }
}

/// The system always keeps an enabled administrator: where there is one, an operation that the
/// policy allows leaves one.
pub proof fn law_an_administrator_remains(s: Seq<Account>, op: Op)
    requires
        governors(s) >= 1,
        policy(s, op) is Ok,
    ensures
        governors(applied(s, op)) >= 1,
{
    match op {
        Op::Create(name, admin) => {
            assert(s.push(Account { name, admin, enabled: true }).drop_last() == s);
        },
        Op::Delete(name) => {
            lemma_governors_remove(s, account_at(s, name) as int);
        },
        Op::SetAdmin(name, admin) => {
            let i = account_at(s, name) as int;
            lemma_governors_update(s, i, Account { admin, ..s[i] });
        },
        Op::SetEnabled(name, enabled) => {
            let i = account_at(s, name) as int;
            lemma_governors_update(s, i, Account { enabled, ..s[i] });
        },
        Op::ChangePassword(_) => {},
    }
}

proof fn lemma_account_at(s: Seq<Account>, name: Seq<char>, i: int)
    requires
        0 <= i <= s.len(),
        forall|j: int| 0 <= j < i ==> (#[trigger] s[j]).name != name,
        i < s.len() ==> s[i].name == name,
    ensures
        account_at(s, name) == i,
    decreases s.len(),
{
    if i > 0 {
        let rest = s.drop_first();
        assert forall|j: int| 0 <= j < i - 1 implies (#[trigger] rest[j]).name != name by {
            assert(rest[j] == s[j + 1]);
        }
        assert(s[0].name != name);
        lemma_account_at(rest, name, i - 1);
    }
}

// ---------------------------------------------------------------------------
// Panel
// ---------------------------------------------------------------------------

/// Whether `u` is a valid login name: `[a-z0-9_-]`, first char `[a-z_]`, at most 32 chars.
fn is_valid_username(u: &str) -> (r: bool)
    ensures
        r == valid_name(u@),
{
    let v = to_chars(u);
    if v.len() == 0 || v.len() > 32 {
        return false;
    }
    let first = v[0];
    if !(('a' <= first && first <= 'z') || first == '_') {
        return false;
    }
    let mut i: usize = 0;
    while i < v.len()
        invariant
            i <= v@.len(),
            v@ == u@,
            forall|j: int| 0 <= j < i ==> in_name(#[trigger] v@[j]),
        decreases v@.len() - i,
    {
        let c = v[i];
        if !(('a' <= c && c <= 'z') || ('0' <= c && c <= '9') || c == '_' || c == '-') {
            assert(!in_name(v@[i as int]));
            return false;
        }
        i = i + 1;
    }
    true
}

impl Default for UsersPanel {
    fn default() -> (r: Self)
        ensures
            accounts_of(r.accounts@) == Seq::<Account>::empty(),
    {
        let r = UsersPanel { accounts: Vec::new() };
        assert(accounts_of(r.accounts@) =~= Seq::empty());
        r
    }
}

impl UsersPanel {
    /// A panel over `accounts`.
    pub fn new(accounts: Vec<AccountRow>) -> (r: Self)
        ensures
            r.accounts == accounts,
    {
        UsersPanel { accounts }
    }

    /// Find an account by name.
    pub fn find(&self, username: &str) -> (r: Option<&AccountRow>)
        ensures
            match r {
                Some(a) => account(accounts_of(self.accounts@), username@) == Some(a@),
                None => account(accounts_of(self.accounts@), username@) is None,
            },
    {
        let ghost s = accounts_of(self.accounts@);
        let mut i: usize = 0;
        while i < self.accounts.len() && !str_eq(self.accounts[i].username.as_str(), username)
            invariant
                i <= self.accounts@.len(),
                s == accounts_of(self.accounts@),
                forall|j: int| 0 <= j < i ==> (#[trigger] s[j]).name != username@,
            decreases self.accounts@.len() - i,
        {
            i = i + 1;
        }
        proof {
            lemma_account_at(s, username@, i as int);
        }
        if i < self.accounts.len() {
            Some(&self.accounts[i])
        } else {
            None
        }
    }

    /// The number of enabled administrator accounts.
    pub fn enabled_admin_count(&self) -> (r: usize)
        ensures
            r == governors(accounts_of(self.accounts@)),
    {
        let ghost s = accounts_of(self.accounts@);
        let mut n: usize = 0;
        let mut i: usize = 0;
        assert(s.take(0) =~= Seq::empty());
        while i < self.accounts.len()
            invariant
                i <= self.accounts@.len(),
                n <= i,
                s == accounts_of(self.accounts@),
                n == governors(s.take(i as int)),
            decreases self.accounts@.len() - i,
        {
            proof {
                assert(s.take(i + 1).drop_last() == s.take(i as int));
                assert(s[i as int] == self.accounts@[i as int]@);
            }
            if self.accounts[i].is_admin && self.accounts[i].enabled {
                n = n + 1;
            }
            i = i + 1;
        }
        assert(s.take(i as int) == s);
        n
    }

    /// Whether removing/demoting/disabling `username` would strand the system with no enabled
    /// administrator.
    fn is_sole_enabled_admin(&self, username: &str) -> (r: bool)
        ensures
            r == sole_governor(accounts_of(self.accounts@), username@),
    {
        match self.find(username) {
            Some(a) => a.is_admin && a.enabled && self.enabled_admin_count() <= 1,
            None => false,
        }
    }

    /// Validate an operation against account policy before the backend applies it.
    ///
    /// # Errors
    ///
    /// [`UsersError::InvalidUsername`], [`UsersError::DuplicateUser`],
    /// [`UsersError::NoSuchUser`], or [`UsersError::LastAdmin`] (the system must always keep at
    /// least one enabled administrator).
    pub fn validate(&self, op: &AccountOp) -> (r: Result<(), UsersError>)
        ensures
            r == policy(accounts_of(self.accounts@), op@),
    {
        match op {
            AccountOp::Create { username, .. } => {
                if !is_valid_username(username.as_str()) {
                    return Err(UsersError::InvalidUsername);
                }
                if self.find(username.as_str()).is_some() {
                    return Err(UsersError::DuplicateUser);
                }
                Ok(())
            },
            AccountOp::Delete { username } => {
                if self.find(username.as_str()).is_none() {
                    return Err(UsersError::NoSuchUser);
                }
                if self.is_sole_enabled_admin(username.as_str()) {
                    return Err(UsersError::LastAdmin);
                }
                Ok(())
            },
            AccountOp::SetAdmin { username, admin } => {
                if self.find(username.as_str()).is_none() {
                    return Err(UsersError::NoSuchUser);
                }
                if !*admin && self.is_sole_enabled_admin(username.as_str()) {
                    return Err(UsersError::LastAdmin);
                }
                Ok(())
            },
            AccountOp::SetEnabled { username, enabled } => {
                if self.find(username.as_str()).is_none() {
                    return Err(UsersError::NoSuchUser);
                }
                if !*enabled && self.is_sole_enabled_admin(username.as_str()) {
                    return Err(UsersError::LastAdmin);
                }
                Ok(())
            },
            AccountOp::ChangePassword { username } => {
                if self.find(username.as_str()).is_none() {
                    return Err(UsersError::NoSuchUser);
                }
                Ok(())
            },
        }
    }
}

/// Enabled administrators are counted, and nobody else.
pub proof fn law_enabled_administrators_are_counted(s: Seq<Account>)
    ensures
        governors(s) == s.filter(|a: Account| a.admin && a.enabled).len(),
    decreases s.len(),
{
    reveal(Seq::filter);
    if s.len() > 0 {
        law_enabled_administrators_are_counted(s.drop_last());
    }
}

/// An operation on an account is refused for want of an administrator exactly where it would take
/// the last one away.
pub proof fn law_only_the_last_administrator_is_kept(s: Seq<Account>, op: Op)
    ensures
        policy(s, op) == Err::<(), UsersError>(UsersError::LastAdmin) <==> governors(s) >= 1
            && governors(applied(s, op)) == 0 && (match op {
            Op::Create(name, _) => true,
            Op::Delete(name) => account(s, name) is Some,
            Op::SetAdmin(name, _) => account(s, name) is Some,
            Op::SetEnabled(name, _) => account(s, name) is Some,
            Op::ChangePassword(name) => true,
        }),
{
    match op {
        Op::Create(name, admin) => {
            assert(s.push(Account { name, admin, enabled: true }).drop_last() == s);
        },
        Op::Delete(name) => {
            if account(s, name) is Some {
                lemma_governors_remove(s, account_at(s, name) as int);
            }
        },
        Op::SetAdmin(name, admin) => {
            let i = account_at(s, name) as int;
            if account(s, name) is Some {
                lemma_governors_update(s, i, Account { admin, ..s[i] });
            }
        },
        Op::SetEnabled(name, enabled) => {
            let i = account_at(s, name) as int;
            if account(s, name) is Some {
                lemma_governors_update(s, i, Account { enabled, ..s[i] });
            }
        },
        Op::ChangePassword(_) => {},
    }
}

/// The account with a name is the first one that has it, and there is none where no account has it.
pub proof fn law_accounts_are_found_by_name(s: Seq<Account>, name: Seq<char>)
    ensures
        account_at(s, name) <= s.len(),
        forall|j: int| 0 <= j < account_at(s, name) ==> (#[trigger] s[j]).name != name,
        account_at(s, name) < s.len() ==> s[account_at(s, name) as int].name == name,
        account(s, name) == (if account_at(s, name) < s.len() {
            Some(s[account_at(s, name) as int])
        } else {
            None
        }),
    decreases s.len(),
{
    if s.len() > 0 && s[0].name != name {
        let rest = s.drop_first();
        law_accounts_are_found_by_name(rest, name);
        assert forall|j: int| 0 <= j < account_at(s, name) implies (#[trigger] s[j]).name
            != name by {
            if j > 0 {
                assert(rest[j - 1] == s[j]);
            }
        }
    }
}

} // verus!
