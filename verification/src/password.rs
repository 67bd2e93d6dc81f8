//! Passwords: how a typed or piped line becomes one, and which new ones are
//! taken.
use crate::secret::SecretChars;
use crate::secret::SecretText;
use crate::text;
use vstd::prelude::*;

verus! {

/// Why a new password is refused.
#[derive(Clone, Copy, Debug, PartialEq, Eq, Structural)]
pub enum PasswordError {
    Empty,
    Mismatch,
    NoTerminal,
}

impl PasswordError {
    pub open spec fn text(self) -> Seq<char> {
        match self {
            PasswordError::Empty => "password cannot be empty"@,
            PasswordError::Mismatch => "passwords did not match"@,
            PasswordError::NoTerminal => {
                "no interactive terminal for password entry; use --password-stdin"@
            },
        }
    }

    /// The reason in words.
    pub fn message(&self) -> (r: &'static str)
        ensures
            r@ == self.text(),
    {
        match self {
            PasswordError::Empty => "password cannot be empty",
            PasswordError::Mismatch => "passwords did not match",
            PasswordError::NoTerminal => {
                "no interactive terminal for password entry; use --password-stdin"
            },
        }
    }
}

/// The password on a line: what stands before the line break.
pub fn from_line(line: SecretText) -> (r: SecretText)
    ensures
        r@ == text::chomped(line@),
{
    let chars = SecretChars::of(line.as_str());
    SecretText::new(text::string_of(text::chomp(chars.as_slice())))
}

/// Whether a new password can be asked to be typed again: it is not empty.
pub fn accept_first(first: &str) -> (r: Result<(), PasswordError>)
    ensures
        r == (if first@.len() == 0 {
            Err::<(), PasswordError>(PasswordError::Empty)
        } else {
            Ok::<(), PasswordError>(())
        }),
{
    if first.is_empty() {
        Err(PasswordError::Empty)
    } else {
        Ok(())
    }
}

/// Whether a new password, typed twice, is taken: it is not empty, and both are
/// the same.
pub fn accept_new(first: &str, second: &str) -> (r: Result<(), PasswordError>)
    ensures
        r == (if first@.len() == 0 {
            Err::<(), PasswordError>(PasswordError::Empty)
        } else if first@ != second@ {
            Err::<(), PasswordError>(PasswordError::Mismatch)
        } else {
            Ok::<(), PasswordError>(())
        }),
{
    match accept_first(first) {
        Err(e) => Err(e),
        Ok(_) => {
            let a = SecretChars::of(first);
            let b = SecretChars::of(second);
            if text::same_chars(a.as_slice(), b.as_slice()) {
                Ok(())
            } else {
                Err(PasswordError::Mismatch)
            }
        },
    }
}

/// Whether a password can be prompted for.
pub fn require_tty(is_terminal: bool) -> (r: Result<(), PasswordError>)
    ensures
        r == (if is_terminal {
            Ok::<(), PasswordError>(())
        } else {
            Err::<(), PasswordError>(PasswordError::NoTerminal)
        }),
{
    if is_terminal {
        Ok(())
    } else {
        Err(PasswordError::NoTerminal)
    }
}

/// The prompt for a key's value.
pub fn value_prompt(key: &str) -> (r: String)
    ensures
        r@ == "Value for "@ + key@ + ": "@,
{
    let mut r = String::new();
    r.append("Value for ");
    r.append(key);
    r.append(": ");
    assert(r@ =~= "Value for "@ + key@ + ": "@);
    r
}

/// Each reason for refusing a password has words of its own.
pub proof fn law_password_errors_are_told_apart(e: PasswordError)
    ensures
        e == PasswordError::Empty ==> e.text() == "password cannot be empty"@,
        e == PasswordError::Mismatch ==> e.text() == "passwords did not match"@,
        e == PasswordError::NoTerminal ==> e.text()
            == "no interactive terminal for password entry; use --password-stdin"@,
{
}

} // verus!
