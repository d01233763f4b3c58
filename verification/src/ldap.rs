//! What is asked of an LDAP server, one request after the other.
//!
//! A task says what it waits for. Whoever runs it makes that request and hands the reply to
//! [`LdapTask::step`], until the task is over.

use vstd::prelude::*;

use crate::sources::User;
use crate::Id;

verus! {

/// A user who may not have been saved yet, with all that is known of them.
pub type LdapUser<D> = User<Option<Id>, D>;

/// A request to a server that a connection has been made to. `D` is what is known of a user besides
/// their name.
#[derive(Debug, PartialEq, Eq)]
pub enum Operation<'a, D> {
    GetUser { username: &'a str, password: &'a str },
    AddUser { user: &'a LdapUser<D>, password: &'a str },
    ModifyUser { username: &'a str, user: &'a LdapUser<D> },
    DeleteUser { username: &'a str },
    AddUserToGroup { username: &'a str, groupname: &'a str },
    RemoveUserFromGroup { username: &'a str, groupname: &'a str },
    SetPassword { username: &'a str, password: &'a str },
}

impl<'a, D> Clone for Operation<'a, D> {
    fn clone(&self) -> (operation: Self)
        ensures
            operation == *self,
    {
        *self
    }
}

impl<'a, D> Copy for Operation<'a, D> {

}

/// What an [`Operation`] asks.
pub enum OperationView<D> {
    GetUser { username: Seq<char>, password: Seq<char> },
    AddUser { user: LdapUser<D>, password: Seq<char> },
    ModifyUser { username: Seq<char>, user: LdapUser<D> },
    DeleteUser { username: Seq<char> },
    AddUserToGroup { username: Seq<char>, groupname: Seq<char> },
    RemoveUserFromGroup { username: Seq<char>, groupname: Seq<char> },
    SetPassword { username: Seq<char>, password: Seq<char> },
}

impl<'a, D> View for Operation<'a, D> {
    type V = OperationView<D>;

    open spec fn view(&self) -> OperationView<D> {
        match *self {
            Operation::GetUser { username, password } => OperationView::GetUser {
                username: username@,
                password: password@,
            },
            Operation::AddUser { user, password } => OperationView::AddUser {
                user: *user,
                password: password@,
            },
            Operation::ModifyUser { username, user } => OperationView::ModifyUser {
                username: username@,
                user: *user,
            },
            Operation::DeleteUser { username } => OperationView::DeleteUser { username: username@ },
            Operation::AddUserToGroup { username, groupname } => OperationView::AddUserToGroup {
                username: username@,
                groupname: groupname@,
            },
            Operation::RemoveUserFromGroup { username, groupname } =>
                OperationView::RemoveUserFromGroup {
                username: username@,
                groupname: groupname@,
            },
            Operation::SetPassword { username, password } => OperationView::SetPassword {
                username: username@,
                password: password@,
            },
        }
    }
}

/// Something to be done with an LDAP server, and what it waits for.
#[derive(Debug, PartialEq, Eq)]
pub enum LdapTask<'a, D> {
    /// A connection to the server, for the operation.
    Connect(Operation<'a, D>),
    /// The operation.
    Operate(Operation<'a, D>),
    /// That the user is saved on this side.
    Save(LdapUser<D>),
}

/// What an [`LdapTask`] waits for.
pub enum TaskView<D> {
    Connect(OperationView<D>),
    Operate(OperationView<D>),
    Save(LdapUser<D>),
}

impl<'a, D> View for LdapTask<'a, D> {
    type V = TaskView<D>;

    open spec fn view(&self) -> TaskView<D> {
        match *self {
            LdapTask::Connect(operation) => TaskView::Connect(operation@),
            LdapTask::Operate(operation) => TaskView::Operate(operation@),
            LdapTask::Save(user) => TaskView::Save(user),
        }
    }
}

/// A reply to a request. `E` says what went wrong.
#[derive(Debug, PartialEq, Eq)]
pub enum Reply<D, E> {
    /// The connection has been made.
    Connected,
    /// The server knows the user.
    User(LdapUser<D>),
    /// Saving was tried, and has left the user like this. Whether it worked does not matter.
    Saved(LdapUser<D>),
    /// The operation has been carried out.
    Done,
    /// The connection could not be made, or the operation not be carried out.
    Failed(E),
}

/// Where a reply leaves a task.
#[derive(Debug, PartialEq, Eq)]
pub enum Next<'a, D, E> {
    /// The task goes on.
    Continue(LdapTask<'a, D>),
    /// The task is over, and this is the user it was after.
    Found(LdapUser<D>),
    /// The task is over.
    Done,
    /// The task has failed.
    Failed(E),
}

/// What a [`Next`] says.
pub enum NextView<D, E> {
    Continue(TaskView<D>),
    Found(LdapUser<D>),
    Done,
    Failed(E),
}

impl<'a, D, E> View for Next<'a, D, E> {
    type V = NextView<D, E>;

    open spec fn view(&self) -> NextView<D, E> {
        match *self {
            Next::Continue(task) => NextView::Continue(task@),
            Next::Found(user) => NextView::Found(user),
            Next::Done => NextView::Done,
            Next::Failed(error) => NextView::Failed(error),
        }
    }
}

/// Whether the reply is one to what the task waits for.
pub open spec fn answers<D, E>(task: TaskView<D>, reply: Reply<D, E>) -> bool {
    match task {
        TaskView::Connect(_) => reply is Connected || reply is Failed,
        TaskView::Operate(OperationView::GetUser { .. }) => reply is User || reply is Failed,
        TaskView::Operate(_) => reply is Done || reply is Failed,
        TaskView::Save(_) => reply is Saved,
    }
}

/// Where the reply leaves the task. A user who cannot be added might be there already, so their
/// password is set instead. A reply to something else leaves the task as it is.
pub open spec fn next_of<D, E>(task: TaskView<D>, reply: Reply<D, E>) -> NextView<D, E> {
    if !answers(task, reply) {
        NextView::Continue(task)
    } else {
        match (task, reply) {
            (TaskView::Connect(operation), Reply::Connected) => NextView::Continue(
                TaskView::Operate(operation),
            ),
            (
                TaskView::Operate(OperationView::AddUser { user, password }),
                Reply::Failed(_),
            ) => NextView::Continue(
                TaskView::Operate(
                    OperationView::SetPassword { username: user.username@, password },
                ),
            ),
            (_, Reply::User(user)) => NextView::Continue(TaskView::Save(user)),
            (_, Reply::Saved(user)) => NextView::Found(user),
            (_, Reply::Failed(error)) => NextView::Failed(error),
            (_, _) => NextView::Done,
        }
    }
}

/// Where a series of replies leaves the task. Replies after its end are not looked at.
pub open spec fn run<D, E>(task: TaskView<D>, replies: Seq<Reply<D, E>>) -> NextView<D, E>
    decreases replies.len(),
{
    if replies.len() == 0 {
        NextView::Continue(task)
    } else {
        match next_of(task, replies[0]) {
            NextView::Continue(next) => run(next, replies.drop_first()),
            end => end,
        }
    }
}

/// Whether each of the replies is one to what the task waits for at that point.
pub open spec fn answered<D, E>(task: TaskView<D>, replies: Seq<Reply<D, E>>) -> bool
    decreases replies.len(),
{
    if replies.len() == 0 {
        true
    } else {
        answers(task, replies[0]) && match next_of(task, replies[0]) {
            NextView::Continue(next) => answered(next, replies.drop_first()),
            _ => true,
        }
    }
}

impl<'a, D> LdapTask<'a, D> {
    /// Where the reply leaves the task.
    pub fn step<E>(self, reply: Reply<D, E>) -> (next: Next<'a, D, E>)
        ensures
            next@ == next_of(self@, reply),
            self matches LdapTask::Connect(operation) ==> reply is Connected ==> next == Next::<
                D,
                E,
            >::Continue(LdapTask::Operate(operation)),
    {
        match self {
            LdapTask::Connect(operation) => match reply {
                Reply::Connected => Next::Continue(LdapTask::Operate(operation)),
                Reply::Failed(error) => Next::Failed(error),
                _ => Next::Continue(LdapTask::Connect(operation)),
            },
            LdapTask::Operate(Operation::GetUser { username, password }) => match reply {
                Reply::User(user) => Next::Continue(LdapTask::Save(user)),
                Reply::Failed(error) => Next::Failed(error),
                _ => Next::Continue(
                    LdapTask::Operate(Operation::GetUser { username, password }),
                ),
            },
            LdapTask::Operate(Operation::AddUser { user, password }) => match reply {
                Reply::Done => Next::Done,
                Reply::Failed(_) => Next::Continue(
                    LdapTask::Operate(
                        Operation::SetPassword { username: user.username.as_str(), password },
                    ),
                ),
                _ => Next::Continue(LdapTask::Operate(Operation::AddUser { user, password })),
            },
            LdapTask::Operate(operation) => match reply {
                Reply::Done => Next::Done,
                Reply::Failed(error) => Next::Failed(error),
                _ => Next::Continue(LdapTask::Operate(operation)),
            },
            LdapTask::Save(user) => match reply {
                Reply::Saved(saved) => Next::Found(saved),
                _ => Next::Continue(LdapTask::Save(user)),
            },
        }
    }
}

/// Fetches a user who can name their password, and saves them on this side.
pub fn user_from_ldap<'a, D>(username: &'a str, password: &'a str) -> (task: LdapTask<'a, D>)
    ensures
        task == LdapTask::<D>::Connect(Operation::GetUser { username, password }),
{
    LdapTask::Connect(Operation::GetUser { username, password })
}

/// Adds a user, or sets the password of a user who is there already.
pub fn ldap_add_user<'a, D>(user: &'a LdapUser<D>, password: &'a str) -> (task: LdapTask<'a, D>)
    ensures
        task == LdapTask::<D>::Connect(Operation::AddUser { user, password }),
{
    LdapTask::Connect(Operation::AddUser { user, password })
}

/// Changes what is known about the user who goes by `username`.
pub fn ldap_modify_user<'a, D>(username: &'a str, user: &'a LdapUser<D>) -> (task: LdapTask<'a, D>)
    ensures
        task == LdapTask::<D>::Connect(Operation::ModifyUser { username, user }),
{
    LdapTask::Connect(Operation::ModifyUser { username, user })
}

/// Deletes a user.
pub fn ldap_delete_user<'a, D>(username: &'a str) -> (task: LdapTask<'a, D>)
    ensures
        task == LdapTask::<D>::Connect(Operation::DeleteUser { username }),
{
    LdapTask::Connect(Operation::DeleteUser { username })
}

/// Makes a user a member of a group.
pub fn ldap_add_user_to_group<'a, D>(username: &'a str, groupname: &'a str) -> (task: LdapTask<'a, D>)
    ensures
        task == LdapTask::<D>::Connect(Operation::AddUserToGroup { username, groupname }),
{
    LdapTask::Connect(Operation::AddUserToGroup { username, groupname })
}

/// Ends the membership of a user in a group.
pub fn ldap_remove_user_from_group<'a, D>(username: &'a str, groupname: &'a str) -> (task: LdapTask<'a, D>)
    ensures
        task == LdapTask::<D>::Connect(Operation::RemoveUserFromGroup { username, groupname }),
{
    LdapTask::Connect(Operation::RemoveUserFromGroup { username, groupname })
}

/// Sets the password of a user.
pub fn ldap_change_password<'a, D>(username: &'a str, password: &'a str) -> (task: LdapTask<'a, D>)
    ensures
        task == LdapTask::<D>::Connect(Operation::SetPassword { username, password }),
{
    LdapTask::Connect(Operation::SetPassword { username, password })
}

/// Where no connection can be made, every task fails with what went wrong, and nothing is asked.
pub proof fn lemma_no_connection<D, E>(operation: OperationView<D>, error: E, more: Seq<Reply<D, E>>)
    ensures
        run(TaskView::Connect(operation), seq![Reply::Failed(error)] + more) == NextView::<
            D,
            E,
        >::Failed(error),
{
    assert((seq![Reply::Failed(error)] + more)[0] == Reply::<D, E>::Failed(error));
}

proof fn lemma_run_two<D, E>(task: TaskView<D>, first: Reply<D, E>, second: Reply<D, E>)
    ensures
        run(task, seq![first, second]) == match next_of(task, first) {
            NextView::Continue(next) => next_of(next, second),
            end => end,
        },
{
    assert(seq![first, second].drop_first() =~= seq![second]);
    if let NextView::Continue(next) = next_of(task, first) {
        assert(run(next, seq![second]) == next_of(next, second)) by {
            if let NextView::Continue(last) = next_of(next, second) {
                assert(run(last, seq![second].drop_first()) == NextView::<D, E>::Continue(last));
            }
        }
    }
}

proof fn lemma_run_three<D, E>(task: TaskView<D>, first: Reply<D, E>, second: Reply<D, E>, third: Reply<D, E>)
    ensures
        run(task, seq![first, second, third]) == match next_of(task, first) {
            NextView::Continue(next) => run(next, seq![second, third]),
            end => end,
        },
{
    assert(seq![first, second, third].drop_first() =~= seq![second, third]);
}

/// Once connected, an operation other than fetching or adding a user decides the outcome: it is
/// over when the operation has been carried out, and fails with what the operation failed with.
pub proof fn lemma_operation_decides<D, E>(operation: OperationView<D>, error: E)
    requires
        !(operation is GetUser),
        !(operation is AddUser),
    ensures
        run(TaskView::Connect(operation), seq![Reply::<D, E>::Connected, Reply::Done]) == NextView::<
            D,
            E,
        >::Done,
        run(TaskView::Connect(operation), seq![Reply::<D, E>::Connected, Reply::Failed(error)])
            == NextView::<D, E>::Failed(error),
{
    lemma_run_two::<D, E>(TaskView::Connect(operation), Reply::Connected, Reply::Done);
    lemma_run_two::<D, E>(TaskView::Connect(operation), Reply::Connected, Reply::Failed(error));
}

/// Adding a user is over when the server has added them. When the server has not, whatever the
/// error, the outcome is that of changing the user's password.
pub proof fn lemma_adding_falls_back_to_the_password<D, E>(
    user: LdapUser<D>,
    password: Seq<char>,
    error: E,
    reply: Reply<D, E>,
)
    ensures
        ({
            let adding = TaskView::Connect(OperationView::AddUser { user, password });
            let changing = TaskView::Connect(
                OperationView::SetPassword { username: user.username@, password },
            );
            &&& run(adding, seq![Reply::<D, E>::Connected, Reply::Done]) == NextView::<D, E>::Done
            &&& run(adding, seq![Reply::<D, E>::Connected, Reply::Failed(error)]) == NextView::<
                D,
                E,
            >::Continue(
                TaskView::Operate(
                    OperationView::SetPassword { username: user.username@, password },
                ),
            )
            &&& run(adding, seq![Reply::<D, E>::Connected, Reply::Failed(error), reply]) == run(
                changing,
                seq![Reply::<D, E>::Connected, reply],
            )
        }),
{
    let adding = TaskView::Connect(OperationView::AddUser { user, password });
    let setting = OperationView::SetPassword { username: user.username@, password };
    lemma_run_two::<D, E>(adding, Reply::Connected, Reply::Done);
    lemma_run_two::<D, E>(adding, Reply::Connected, Reply::Failed(error));
    lemma_run_three(adding, Reply::Connected, Reply::Failed(error), reply);
    lemma_run_two(
        TaskView::Operate(OperationView::AddUser { user, password }),
        Reply::Failed(error),
        reply,
    );
    lemma_run_two(TaskView::Connect(setting), Reply::Connected, reply);
}

/// Fetching a user fails where the server refuses. Otherwise the user is saved on this side, and
/// the task is over with the user as saving has left them, whether it worked or not.
pub proof fn lemma_fetched_user_is_handed_out<D, E>(
    username: Seq<char>,
    password: Seq<char>,
    user: LdapUser<D>,
    saved: LdapUser<D>,
    error: E,
)
    ensures
        ({
            let task = TaskView::Connect(OperationView::GetUser { username, password });
            &&& run(task, seq![Reply::<D, E>::Connected, Reply::Failed(error)]) == NextView::<D, E>::Failed(
                error,
            )
            &&& run(task, seq![Reply::<D, E>::Connected, Reply::User(user)]) == NextView::<D, E>::Continue(
                TaskView::Save(user),
            )
            &&& run(task, seq![Reply::<D, E>::Connected, Reply::User(user), Reply::Saved(saved)])
                == NextView::<D, E>::Found(saved)
        }),
{
    let operation = OperationView::GetUser { username, password };
    let task = TaskView::Connect(operation);
    lemma_run_two(task, Reply::Connected, Reply::Failed(error));
    lemma_run_two::<D, E>(task, Reply::Connected, Reply::User(user));
    lemma_run_three::<D, E>(task, Reply::Connected, Reply::User(user), Reply::Saved(saved));
    lemma_run_two::<D, E>(TaskView::Operate(operation), Reply::User(user), Reply::Saved(saved));
}

/// The number of replies after which a task is over at the latest.
pub open spec fn patience<D>(task: TaskView<D>) -> nat {
    match task {
        TaskView::Connect(_) => 3,
        TaskView::Operate(OperationView::GetUser { .. }) => 2,
        TaskView::Operate(OperationView::AddUser { .. }) => 2,
        TaskView::Operate(_) => 1,
        TaskView::Save(_) => 1,
    }
}

/// Every task is over after three replies at the latest.
pub proof fn lemma_tasks_end<D, E>(task: TaskView<D>, replies: Seq<Reply<D, E>>)
    requires
        answered(task, replies),
        replies.len() >= patience(task),
    ensures
        !(run(task, replies) is Continue),
    decreases replies.len(),
{
    if let NextView::Continue(next) = next_of(task, replies[0]) {
        lemma_tasks_end(next, replies.drop_first());
    }
}

/// Whether the task is after a user.
pub open spec fn fetches<D>(task: TaskView<D>) -> bool {
    match task {
        TaskView::Connect(operation) => operation is GetUser,
        TaskView::Operate(operation) => operation is GetUser,
        TaskView::Save(_) => true,
    }
}

/// A task that is after a user ends with one or fails, and no other task ends with a user.
pub proof fn lemma_only_fetching_finds<D, E>(task: TaskView<D>, replies: Seq<Reply<D, E>>)
    ensures
        fetches(task) ==> !(run(task, replies) is Done),
        !fetches(task) ==> !(run(task, replies) is Found),
    decreases replies.len(),
{
    if replies.len() > 0 {
        if let NextView::Continue(next) = next_of(task, replies[0]) {
            lemma_only_fetching_finds(next, replies.drop_first());
        }
    }
}

/// Once the connection is made, what is asked of the server is the very operation that the
/// connection was made for, with its own arguments.
pub proof fn lemma_connected_asks_the_operation<D, E>(operation: OperationView<D>)
    ensures
        run(TaskView::Connect(operation), seq![Reply::<D, E>::Connected]) == NextView::<
            D,
            E,
        >::Continue(TaskView::Operate(operation)),
{
    let replies = seq![Reply::<D, E>::Connected];
    let next = TaskView::Operate(operation);
    assert(run(next, replies.drop_first()) == NextView::<D, E>::Continue(next));
}

/// A reply that does not belong to what a task waits for changes nothing, however often it comes:
/// no task leaves a state but by the connection being made or refused, the operation being carried
/// out or refused, the user being found, or the user having been saved.
pub proof fn lemma_stray_replies_change_nothing<D, E>(
    operation: OperationView<D>,
    user: LdapUser<D>,
    other: LdapUser<D>,
    error: E,
)
    ensures
        ({
            let connecting = TaskView::Connect(operation);
            let operating = TaskView::Operate(operation);
            let saving = TaskView::Save(user);
            &&& run(connecting, seq![Reply::<D, E>::User(other)]) == NextView::<D, E>::Continue(
                connecting,
            )
            &&& run(connecting, seq![Reply::<D, E>::Saved(other)]) == NextView::<D, E>::Continue(
                connecting,
            )
            &&& run(connecting, seq![Reply::<D, E>::Done]) == NextView::<D, E>::Continue(
                connecting,
            )
            &&& run(operating, seq![Reply::<D, E>::Connected]) == NextView::<D, E>::Continue(
                operating,
            )
            &&& run(operating, seq![Reply::<D, E>::Saved(other)]) == NextView::<D, E>::Continue(
                operating,
            )
            &&& operation is GetUser ==> run(operating, seq![Reply::<D, E>::Done]) == NextView::<
                D,
                E,
            >::Continue(operating)
            &&& !(operation is GetUser) ==> run(operating, seq![Reply::<D, E>::User(other)])
                == NextView::<D, E>::Continue(operating)
            &&& run(saving, seq![Reply::<D, E>::Connected]) == NextView::<D, E>::Continue(saving)
            &&& run(saving, seq![Reply::<D, E>::User(other)]) == NextView::<D, E>::Continue(saving)
            &&& run(saving, seq![Reply::<D, E>::Done]) == NextView::<D, E>::Continue(saving)
            &&& run(saving, seq![Reply::<D, E>::Failed(error)]) == NextView::<D, E>::Continue(
                saving,
            )
        }),
{
    let connecting = TaskView::Connect(operation);
    let operating = TaskView::Operate(operation);
    let saving = TaskView::Save(user);
    lemma_run_one::<D, E>(connecting, Reply::User(other));
    lemma_run_one::<D, E>(connecting, Reply::Saved(other));
    lemma_run_one::<D, E>(connecting, Reply::Done);
    lemma_run_one::<D, E>(operating, Reply::Connected);
    lemma_run_one::<D, E>(operating, Reply::Saved(other));
    lemma_run_one::<D, E>(operating, Reply::Done);
    lemma_run_one::<D, E>(operating, Reply::User(other));
    lemma_run_one::<D, E>(saving, Reply::Connected);
    lemma_run_one::<D, E>(saving, Reply::User(other));
    lemma_run_one::<D, E>(saving, Reply::Done);
    lemma_run_one::<D, E>(saving, Reply::Failed(error));
}

proof fn lemma_run_one<D, E>(task: TaskView<D>, reply: Reply<D, E>)
    ensures
        run(task, seq![reply]) == next_of(task, reply),
{
    if let NextView::Continue(next) = next_of(task, reply) {
        assert(run(next, seq![reply].drop_first()) == NextView::<D, E>::Continue(next));
    }
}

/// The views of operations and tasks tell everything that they ask: the kind of the operation, and
/// each of its arguments.
pub proof fn lemma_views_keep_the_arguments<'a, D>(operation: Operation<'a, D>, user: LdapUser<D>)
    ensures
        operation matches Operation::GetUser { username, password } ==> operation@ == (OperationView::<D>::GetUser {
            username: username@, password: password@,
        }),
        operation matches Operation::AddUser { user, password } ==> operation@ == (OperationView::<D>::AddUser {
            user: *user, password: password@,
        }),
        operation matches Operation::ModifyUser { username, user } ==> operation@ == (OperationView::<D>::ModifyUser {
            username: username@, user: *user,
        }),
        operation matches Operation::DeleteUser { username } ==> operation@ == (OperationView::<D>::DeleteUser {
            username: username@,
        }),
        operation matches Operation::AddUserToGroup { username, groupname } ==> operation@ == (OperationView::<D>::AddUserToGroup {
            username: username@, groupname: groupname@,
        }),
        operation matches Operation::RemoveUserFromGroup { username, groupname } ==> operation@ == (OperationView::<D>::RemoveUserFromGroup {
            username: username@, groupname: groupname@,
        }),
        operation matches Operation::SetPassword { username, password } ==> operation@ == (OperationView::<D>::SetPassword {
            username: username@, password: password@,
        }),
        LdapTask::Connect(operation)@ == TaskView::Connect(operation@),
        LdapTask::Operate(operation)@ == TaskView::Operate(operation@),
        LdapTask::Save(user)@ == TaskView::<D>::Save(user),
{
}

/// The views of outcomes tell everything about them.
pub proof fn lemma_outcomes_are_kept<'a, D, E>(
    task: LdapTask<'a, D>,
    user: LdapUser<D>,
    error: E,
)
    ensures
        Next::<D, E>::Continue(task)@ == NextView::<D, E>::Continue(task@),
        Next::<D, E>::Found(user)@ == NextView::<D, E>::Found(user),
        Next::<D, E>::Done@ == NextView::<D, E>::Done,
        Next::<D, E>::Failed(error)@ == NextView::<D, E>::Failed(error),
{
}

} // verus!
