use defguard_core::ldap::{
    ldap_add_user, ldap_add_user_to_group, ldap_change_password, ldap_delete_user,
    ldap_modify_user, ldap_remove_user_from_group, user_from_ldap, LdapTask, LdapUser, Next,
    Operation, Reply,
};

/// A user with an e-mail address.
type Account = LdapUser<String>;

fn user(id: Option<i64>) -> Account {
    LdapUser { id, username: "ada".to_string(), details: "ada@example.org".to_string() }
}

/// Hands the replies to the task, which must not be over before the last one.
fn run<'a>(
    task: LdapTask<'a, String>,
    replies: Vec<Reply<String, &'static str>>,
) -> (Vec<LdapTask<'a, String>>, Next<'a, String, &'static str>) {
    let mut asked = Vec::new();
    let mut next = Next::Continue(task);
    for reply in replies {
        match next {
            Next::Continue(task) => {
                let copy = match &task {
                    LdapTask::Connect(operation) => LdapTask::Connect(*operation),
                    LdapTask::Operate(operation) => LdapTask::Operate(*operation),
                    LdapTask::Save(user) => LdapTask::Save(user.clone()),
                };
                asked.push(copy);
                next = task.step(reply);
            }
            _ => panic!("the task is over"),
        }
    }
    (asked, next)
}

#[test]
fn connecting_comes_first_and_its_failure_is_handed_out() {
    let ada = user(None);
    let tasks = vec![
        (
            user_from_ldap("ada", "secret"),
            Operation::GetUser { username: "ada", password: "secret" },
        ),
        (
            ldap_add_user(&ada, "secret"),
            Operation::AddUser { user: &ada, password: "secret" },
        ),
        (
            ldap_modify_user("lovelace", &ada),
            Operation::ModifyUser { username: "lovelace", user: &ada },
        ),
        (
            ldap_delete_user("ada"),
            Operation::DeleteUser { username: "ada" },
        ),
        (
            ldap_add_user_to_group("ada", "admins"),
            Operation::AddUserToGroup { username: "ada", groupname: "admins" },
        ),
        (
            ldap_remove_user_from_group("ada", "admins"),
            Operation::RemoveUserFromGroup { username: "ada", groupname: "admins" },
        ),
        (
            ldap_change_password("ada", "secret"),
            Operation::SetPassword { username: "ada", password: "secret" },
        ),
    ];
    for (task, operation) in tasks {
        assert_eq!(task, LdapTask::Connect(operation));
        assert_eq!(
            LdapTask::Connect(operation).step(Reply::<String, ()>::Connected),
            Next::Continue(LdapTask::Operate(operation))
        );
        assert_eq!(task.step(Reply::Failed("no route")), Next::Failed("no route"));
    }
}

#[test]
fn operation_decides() {
    let (_, next) = run(ldap_delete_user("ada"), vec![Reply::Connected, Reply::Done]);
    assert_eq!(next, Next::Done);
    let ada = user(Some(1));
    let (_, next) = run(
        ldap_modify_user("ada", &ada),
        vec![Reply::Connected, Reply::Failed("no such user")],
    );
    assert_eq!(next, Next::Failed("no such user"));
    let (_, next) = run(
        ldap_add_user_to_group("ada", "admins"),
        vec![Reply::Connected, Reply::Failed("no such group")],
    );
    assert_eq!(next, Next::Failed("no such group"));
    let (_, next) = run(
        ldap_remove_user_from_group("ada", "admins"),
        vec![Reply::Connected, Reply::Done],
    );
    assert_eq!(next, Next::Done);
    let (_, next) = run(
        ldap_change_password("ada", "secret"),
        vec![Reply::Connected, Reply::Done],
    );
    assert_eq!(next, Next::Done);
}

#[test]
fn adding_falls_back_to_the_password() {
    let ada = user(Some(1));
    let (_, next) = run(ldap_add_user(&ada, "secret"), vec![Reply::Connected, Reply::Done]);
    assert_eq!(next, Next::Done);

    let (asked, next) = run(
        ldap_add_user(&ada, "secret"),
        vec![Reply::Connected, Reply::Failed("already exists"), Reply::Done],
    );
    assert_eq!(
        asked[2],
        LdapTask::Operate(Operation::SetPassword { username: "ada", password: "secret" })
    );
    assert_eq!(next, Next::Done);

    let (_, next) = run(
        ldap_add_user(&ada, "secret"),
        vec![Reply::Connected, Reply::Failed("already exists"), Reply::Failed("too weak")],
    );
    assert_eq!(next, Next::Failed("too weak"));
}

#[test]
fn fetched_user_is_saved_and_handed_out() {
    let (asked, next) = run(
        user_from_ldap("ada", "secret"),
        vec![Reply::Connected, Reply::User(user(None)), Reply::Saved(user(Some(5)))],
    );
    assert_eq!(asked[2], LdapTask::Save(user(None)));
    assert_eq!(next, Next::Found(user(Some(5))));

    if let Next::Found(found) = next {
        assert_eq!(found.details, "ada@example.org");
    }

    // saving has failed and has left the user as they were
    let (_, next) = run(
        user_from_ldap("ada", "secret"),
        vec![Reply::Connected, Reply::User(user(None)), Reply::Saved(user(None))],
    );
    assert_eq!(next, Next::Found(user(None)));

    let (_, next) = run(
        user_from_ldap("ada", "wrong"),
        vec![Reply::Connected, Reply::Failed("invalid credentials")],
    );
    assert_eq!(next, Next::Failed("invalid credentials"));
}

#[test]
fn other_replies_leave_the_task_as_it_is() {
    let operation = Operation::DeleteUser { username: "ada" };
    assert_eq!(
        ldap_delete_user("ada").step(Reply::<String, ()>::Done),
        Next::Continue(LdapTask::Connect(operation))
    );
    assert_eq!(
        LdapTask::Operate(operation).step(Reply::<String, ()>::Saved(user(None))),
        Next::Continue(LdapTask::Operate(operation))
    );
    assert_eq!(
        LdapTask::Save(user(None)).step(Reply::Failed("disk full")),
        Next::Continue(LdapTask::Save(user(None)))
    );
}
