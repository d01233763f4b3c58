//! SSH and GPG keys of users.

use vstd::prelude::*;

use crate::lists::{
    lemma_filter_holds, lemma_filter_next, lemma_filter_parts, lemma_filter_start,
    lemma_filter_twice,
};
use crate::{Id, NoId};

verus! {

/// What an authentication key is used for.
#[derive(Clone, Copy, Debug, PartialEq, Eq, Structural)]
pub enum AuthenticationKeyType {
    Ssh,
    Gpg,
}

impl AuthenticationKeyType {
    /// The label of the type in the database.
    pub open spec fn label(self) -> Seq<char> {
        match self {
            AuthenticationKeyType::Ssh => "ssh"@,
            AuthenticationKeyType::Gpg => "gpg"@,
        }
    }

    /// The label of the type in the database.
    pub fn as_str(&self) -> (text: &'static str)
        ensures
            text@ == self.label(),
    {
        match self {
            AuthenticationKeyType::Ssh => "ssh",
            AuthenticationKeyType::Gpg => "gpg",
        }
    }
}

/// A key of a user. `I` is `Id` once the key is saved, and `NoId` before.
#[derive(Debug)]
pub struct AuthenticationKey<I = NoId> {
    pub id: I,
    pub yubikey_id: Option<i64>,
    pub name: Option<String>,
    pub user_id: Id,
    pub key: String,
    pub key_type: AuthenticationKeyType,
}

impl AuthenticationKey {
    /// A key that is not saved yet.
    #[must_use]
    pub fn new(
        user_id: Id,
        key: String,
        name: Option<String>,
        key_type: AuthenticationKeyType,
        yubikey_id: Option<i64>,
    ) -> (result: Self)
        ensures
            result == (AuthenticationKey { id: NoId, yubikey_id, name, user_id, key, key_type }),
    {
        Self { id: NoId, yubikey_id, user_id, key, name, key_type }
    }
}

/// A search for the keys of a user, of one type or of any.
#[derive(Clone, Copy, Debug, PartialEq, Eq, Structural)]
pub struct KeyQuery {
    pub user_id: Id,
    pub key_type: Option<AuthenticationKeyType>,
}

impl KeyQuery {
    /// Whether the search is for this key.
    pub open spec fn selects(self, key: AuthenticationKey<Id>) -> bool {
        &&& key.user_id == self.user_id
        &&& self.key_type matches Some(key_type) ==> key.key_type == key_type
    }

    /// The statement that asks the database for the keys. Its first parameter is the user, and
    /// its second one, where a type is given, that type.
    pub fn sql(&self) -> (sql: &'static str)
        ensures
            sql@ == if self.key_type is Some {
                "SELECT id, user_id, yubikey_id \"yubikey_id?\", key, name, key_type \"key_type: AuthenticationKeyType\" FROM authentication_key WHERE user_id = $1 AND key_type = $2"@
            } else {
                "SELECT id, user_id, yubikey_id \"yubikey_id?\", key, name, key_type \"key_type: AuthenticationKeyType\" FROM authentication_key WHERE user_id = $1"@
            },
    {
        match self.key_type {
            Some(_) => "SELECT id, user_id, yubikey_id \"yubikey_id?\", key, name, key_type \"key_type: AuthenticationKeyType\" FROM authentication_key WHERE user_id = $1 AND key_type = $2",
            None => "SELECT id, user_id, yubikey_id \"yubikey_id?\", key, name, key_type \"key_type: AuthenticationKeyType\" FROM authentication_key WHERE user_id = $1",
        }
    }

    /// Keeps the keys that the search is for, in their order.
    pub fn select(&self, keys: Vec<AuthenticationKey<Id>>) -> (selected: Vec<AuthenticationKey<Id>>)
        ensures
            selected@ == keys@.filter(|key: AuthenticationKey<Id>| self.selects(key)),
    {
        let ghost wanted = |key: AuthenticationKey<Id>| self.selects(key);
        let mut selected: Vec<AuthenticationKey<Id>> = Vec::new();
        let ghost all = keys@;
        proof {
            lemma_filter_start(all, wanted);
        }
        for key in it: keys
            invariant
                it.seq() == all,
                wanted == (|key: AuthenticationKey<Id>| self.selects(key)),
                selected@ == all.take(it.index() as int).filter(wanted),
        {
            let keep: bool = key.user_id == self.user_id && match self.key_type {
                Some(key_type) => key.key_type == key_type,
                None => true,
            };
            proof {
                lemma_filter_next(all, it.index() as int, wanted);
            }
            if keep {
                selected.push(key);
            }
        }
        assert(all.take(all.len() as int) =~= all);
        selected
    }
}

impl AuthenticationKey<Id> {
    /// The search for the keys of a user, of the given type where one is given.
    pub fn find_by_user_id(user_id: Id, key_type: Option<AuthenticationKeyType>) -> (query:
        KeyQuery)
        ensures
            query.user_id == user_id,
            query.key_type == key_type,
    {
        KeyQuery { user_id, key_type }
    }
}

/// A search for the keys of one type finds the keys of that type among those that a search for all
/// keys of the user finds.
pub proof fn lemma_type_narrows_the_search(
    keys: Seq<AuthenticationKey<Id>>,
    user_id: Id,
    key_type: AuthenticationKeyType,
)
    ensures
        ({
            let narrow = KeyQuery { user_id, key_type: Some(key_type) };
            let wide = KeyQuery { user_id, key_type: None };
            keys.filter(|key: AuthenticationKey<Id>| narrow.selects(key)) == keys.filter(
                |key: AuthenticationKey<Id>| wide.selects(key),
            ).filter(|key: AuthenticationKey<Id>| key.key_type == key_type)
        }),
{
    let narrow = KeyQuery { user_id, key_type: Some(key_type) };
    let wide = KeyQuery { user_id, key_type: None };
    lemma_filter_twice(
        keys,
        |key: AuthenticationKey<Id>| wide.selects(key),
        |key: AuthenticationKey<Id>| key.key_type == key_type,
        |key: AuthenticationKey<Id>| narrow.selects(key),
    );
}

/// Whether no two keys have the same id.
pub open spec fn distinct_ids(keys: Seq<AuthenticationKey<Id>>) -> bool {
    forall|i: int, j: int| 0 <= i < j < keys.len() ==> keys[i].id != keys[j].id
}

/// What a search finds.
pub open spec fn found(
    keys: Seq<AuthenticationKey<Id>>,
    user_id: Id,
    key_type: Option<AuthenticationKeyType>,
) -> Seq<AuthenticationKey<Id>> {
    let query = KeyQuery { user_id, key_type };
    keys.filter(|key: AuthenticationKey<Id>| query.selects(key))
}

/// The searches for the keys of either type find, taken together, what the search for all keys of
/// the user finds. Where no two keys have the same id, the two share no id.
pub proof fn lemma_types_part_the_search(keys: Seq<AuthenticationKey<Id>>, user_id: Id)
    ensures
        ({
            let ssh = found(keys, user_id, Some(AuthenticationKeyType::Ssh));
            let gpg = found(keys, user_id, Some(AuthenticationKeyType::Gpg));
            let all = found(keys, user_id, None);
            &&& ssh.to_multiset().add(gpg.to_multiset()) == all.to_multiset()
            &&& distinct_ids(keys) ==> forall|i: int, j: int|
                0 <= i < ssh.len() && 0 <= j < gpg.len() ==> (#[trigger] ssh[i]).id != (
                #[trigger] gpg[j]).id
        }),
{
    let ssh_query = KeyQuery { user_id, key_type: Some(AuthenticationKeyType::Ssh) };
    let gpg_query = KeyQuery { user_id, key_type: Some(AuthenticationKeyType::Gpg) };
    let wide = KeyQuery { user_id, key_type: None };
    let is_ssh = |key: AuthenticationKey<Id>| ssh_query.selects(key);
    let is_gpg = |key: AuthenticationKey<Id>| gpg_query.selects(key);
    let is_any = |key: AuthenticationKey<Id>| wide.selects(key);
    lemma_filter_parts(keys, is_ssh, is_gpg, is_any);
    let ssh = keys.filter(is_ssh);
    let gpg = keys.filter(is_gpg);
    if distinct_ids(keys) {
        assert forall|i: int, j: int| 0 <= i < ssh.len() && 0 <= j < gpg.len() implies (
        #[trigger] ssh[i]).id != (#[trigger] gpg[j]).id by {
            assert(ssh.contains(ssh[i]) && gpg.contains(gpg[j]));
            lemma_filter_holds(keys, is_ssh, ssh[i]);
            lemma_filter_holds(keys, is_gpg, gpg[j]);
            let k = keys.index_of(ssh[i]);
            let l = keys.index_of(gpg[j]);
            assert(keys[k] == ssh[i] && keys[l] == gpg[j]);
            assert(k != l);
        }
    }
}

/// A key of the list is found by a search just where its user is the user of the search and, if the
/// search is for a type, its type is that type. No other field of the key has a say. So a search for
/// no type in particular finds every key of the user.
pub proof fn lemma_user_and_type_alone_decide(
    keys: Seq<AuthenticationKey<Id>>,
    query: KeyQuery,
    key: AuthenticationKey<Id>,
)
    ensures
        ({
            let found = keys.filter(|key: AuthenticationKey<Id>| query.selects(key));
            &&& found.contains(key) <==> keys.contains(key) && key.user_id == query.user_id && (
            query.key_type is None || query.key_type == Some(key.key_type))
            &&& query.key_type is None && keys.contains(key) && key.user_id == query.user_id
                ==> found.contains(key)
        }),
{
    lemma_filter_holds(keys, |key: AuthenticationKey<Id>| query.selects(key), key);
}

/// A key behind a list is found, behind what is found of the list, just where its user is that of
/// the search and its type is not another one than that of the search. So what is found keeps its
/// order, and every key counts as often as it is there.
pub proof fn lemma_search_goes_key_by_key(
    keys: Seq<AuthenticationKey<Id>>,
    query: KeyQuery,
    key: AuthenticationKey<Id>,
)
    ensures
        ({
            let wanted = |key: AuthenticationKey<Id>| query.selects(key);
            &&& Seq::<AuthenticationKey<Id>>::empty().filter(wanted) == Seq::<
                AuthenticationKey<Id>,
            >::empty()
            &&& keys.push(key).filter(wanted) == if key.user_id == query.user_id && (
            query.key_type is None || query.key_type == Some(key.key_type)) {
                keys.filter(wanted).push(key)
            } else {
                keys.filter(wanted)
            }
        }),
{
    let wanted = |key: AuthenticationKey<Id>| query.selects(key);
    let all = keys.push(key);
    reveal(Seq::filter);
    assert(all.drop_last() =~= keys);
    assert(Seq::<AuthenticationKey<Id>>::empty().filter(wanted) =~= Seq::<
        AuthenticationKey<Id>,
    >::empty());
}

/// The labels of the types are `ssh` and `gpg`, letter by letter.
pub proof fn lemma_labels_are_lower_case(key_type: AuthenticationKeyType)
    ensures
        key_type.label().len() == 3,
        key_type.label()[0] == if key_type is Ssh {
            's'
        } else {
            'g'
        },
        key_type.label()[1] == if key_type is Ssh {
            's'
        } else {
            'p'
        },
        key_type.label()[2] == if key_type is Ssh {
            'h'
        } else {
            'g'
        },
{
    reveal_strlit("ssh");
    reveal_strlit("gpg");
}

} // verus!
