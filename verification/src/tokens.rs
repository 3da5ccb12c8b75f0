//! Where the GitHub and Linear tokens come from: the environment first, then
//! the token remembered in this session, then the OS keyring.
use vstd::prelude::*;
use crate::text::{opt_text, text_is_empty};

verus! {

/// Where a token lookup stands before the keyring is read.
#[derive(Clone, Debug, PartialEq, Eq)]
pub enum TokenLookup {
    /// The token to use.
    Found(String),
    /// Neither the environment nor the session has a token: read the keyring.
    AskKeyring,
}

/// The token the environment or the session gives: a non-empty environment
/// value wins, then the remembered token (which may be empty: a cleared one).
pub open spec fn token_before_keyring(env: Option<Seq<char>>, remembered: Option<Seq<char>>) -> Option<
    Seq<char>,
> {
    if env is Some && env->0.len() > 0 {
        env
    } else {
        remembered
    }
}

pub open spec fn lookup_view(l: TokenLookup) -> Option<Seq<char>> {
    match l {
        TokenLookup::Found(t) => Some(t@),
        TokenLookup::AskKeyring => None,
    }
}

/// The first step of finding a token.
pub fn lookup_token(env: &Option<String>, remembered: &Option<String>) -> (l: TokenLookup)
    ensures
        lookup_view(l) == token_before_keyring(opt_text(*env), opt_text(*remembered)),
{
    if let Some(e) = env {
        if !text_is_empty(e.as_str()) {
            return TokenLookup::Found(e.clone());
        }
    }
    match remembered {
        Some(t) => TokenLookup::Found(t.clone()),
        None => TokenLookup::AskKeyring,
    }
}

/// The answer of the keyring to a read.
#[derive(Clone, Debug, PartialEq, Eq)]
pub enum KeyringRead {
    Found(String),
    NoEntry,
    Failed(String),
}

/// The token a keyring read gives, remembered for the session: the stored
/// one, or the empty token where there is none. A failed read is an error
/// and remembers nothing.
pub fn token_from_keyring(remembered: &mut Option<String>, read: KeyringRead) -> (r: Result<
    String,
    String,
>)
    ensures
        match read {
            KeyringRead::Found(t) => (r matches Ok(x) && x@ == t@) && opt_text(*final(remembered))
                == Some(t@),
            KeyringRead::NoEntry => (r matches Ok(x) && x@.len() == 0) && opt_text(
                *final(remembered),
            ) == Some(Seq::<char>::empty()),
            KeyringRead::Failed(e) => (r matches Err(x) && x@ == e@) && *final(remembered)
                == *old(remembered),
        },
{
    match read {
        KeyringRead::Found(t) => {
            *remembered = Some(t.clone());
            Ok(t)
        },
        KeyringRead::NoEntry => {
            *remembered = Some(String::new());
            Ok(String::new())
        },
        KeyringRead::Failed(e) => Err(e),
    }
}

/// Remembers a token that was just saved to the keyring.
pub fn remember_saved_token(remembered: &mut Option<String>, token: &String)
    ensures
        opt_text(*final(remembered)) == Some(token@),
{
    *remembered = Some(token.clone());
}

/// The answer of the keyring to a delete.
#[derive(Clone, Debug, PartialEq, Eq)]
pub enum KeyringDelete {
    Deleted,
    NoEntry,
    Failed(String),
}

/// The outcome of clearing a token: a deleted or absent credential counts as
/// cleared, and the session then remembers the empty token; a failed delete
/// is an error and remembers nothing.
pub fn token_cleared(remembered: &mut Option<String>, delete: KeyringDelete) -> (r: Result<
    (),
    String,
>)
    ensures
        match delete {
            KeyringDelete::Failed(e) => (r matches Err(x) && x@ == e@) && *final(remembered)
                == *old(remembered),
            _ => r is Ok && opt_text(*final(remembered)) == Some(Seq::<char>::empty()),
        },
{
    match delete {
        KeyringDelete::Failed(e) => Err(e),
        _ => {
            *remembered = Some(String::new());
            Ok(())
        },
    }
}

/// Whether a sync has anything to do: a sync with an empty (unconfigured or
/// cleared) token does nothing and succeeds.
pub fn can_sync(token: &str) -> (r: bool)
    ensures
        r == (token@.len() > 0),
{
    !text_is_empty(token)
}

/// Once a token has been saved (or read from the keyring), later lookups
/// give it without the keyring, unless the environment holds a token of its
/// own; once a token has been cleared, they give the empty token.
pub proof fn lemma_remembered_token_is_used(env: Option<Seq<char>>, token: Seq<char>)
    ensures
        !(env is Some && env->0.len() > 0) ==> token_before_keyring(env, Some(token)) == Some(token),
        env is Some && env->0.len() > 0 ==> token_before_keyring(env, Some(token)) == env,
        !(env is Some && env->0.len() > 0) ==> token_before_keyring(env, Some(Seq::empty()))
            == Some(Seq::<char>::empty()),
{
}

/// Where a lookup finds its token: a non-empty token in the environment
/// wins; else the token remembered in this session, whatever it is; and only
/// where neither is there does the keyring have to be read.
pub proof fn lemma_token_lookup(env: Option<Seq<char>>, remembered: Option<Seq<char>>)
    ensures
        env is Some && env->0.len() > 0 ==> token_before_keyring(env, remembered) == env,
        !(env is Some && env->0.len() > 0) && remembered is Some ==> token_before_keyring(
            env,
            remembered,
        ) == remembered,
        token_before_keyring(env, remembered) is None <==> (!(env is Some && env->0.len() > 0)
            && remembered is None),
        forall|l: TokenLookup| #[trigger] lookup_view(l) is None <==> l == TokenLookup::AskKeyring,
{
    assert forall|l: TokenLookup| #[trigger] lookup_view(l) is None <==> l == TokenLookup::AskKeyring by {
        match l {
            TokenLookup::Found(t) => {},
            TokenLookup::AskKeyring => {},
        }
    }
}

} // verus!
