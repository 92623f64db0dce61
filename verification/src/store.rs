//! The record store: two in-memory tables (tasks and users) keyed by numeric
//! id, with last-write-wins insert, lookup, update and delete.

use vstd::prelude::*;

use crate::codec::{enc_db, encode_db, parse_db, parse_snapshot};

verus! {

/// A task record: the primary business record type.
pub struct Task {
    pub id: u64,
    pub name: String,
    pub completed: bool,
}

/// A user credential record. `password` holds a salted one-way hash once the
/// user went through registration.
pub struct User {
    pub id: u64,
    pub username: String,
    pub password: String,
}

/// Mathematical image of a task.
#[verifier::ext_equal]
pub ghost struct TaskV {
    pub id: u64,
    pub name: Seq<char>,
    pub completed: bool,
}

/// Mathematical image of a user.
#[verifier::ext_equal]
pub ghost struct UserV {
    pub id: u64,
    pub username: Seq<char>,
    pub password: Seq<char>,
}

impl View for Task {
    type V = TaskV;

    open spec fn view(&self) -> TaskV {
        TaskV { id: self.id, name: self.name@, completed: self.completed }
    }
}

impl View for User {
    type V = UserV;

    open spec fn view(&self) -> UserV {
        UserV { id: self.id, username: self.username@, password: self.password@ }
    }
}

impl Clone for Task {
    fn clone(&self) -> (r: Self)
        ensures
            r@ == self@,
    {
        Task { id: self.id, name: self.name.clone(), completed: self.completed }
    }
}

impl Clone for User {
    fn clone(&self) -> (r: Self)
        ensures
            r@ == self@,
    {
        User { id: self.id, username: self.username.clone(), password: self.password.clone() }
    }
}

/// No two elements share a key.
pub open spec fn key_distinct<T>(s: Seq<T>, key: spec_fn(T) -> u64) -> bool {
    forall|i: int, j: int| 0 <= i < j < s.len() ==> key(s[i]) != key(s[j])
}

/// Removes the first element whose key is `id`, if any.
pub open spec fn tbl_remove<T>(s: Seq<T>, key: spec_fn(T) -> u64, id: u64) -> Seq<T>
    decreases s.len(),
{
    if s.len() == 0 {
        s
    } else if key(s[0]) == id {
        s.skip(1)
    } else {
        seq![s[0]] + tbl_remove(s.skip(1), key, id)
    }
}

/// The first element whose key is `id`, if any.
pub open spec fn tbl_get<T>(s: Seq<T>, key: spec_fn(T) -> u64, id: u64) -> Option<T>
    decreases s.len(),
{
    if s.len() == 0 {
        None
    } else if key(s[0]) == id {
        Some(s[0])
    } else {
        tbl_get(s.skip(1), key, id)
    }
}

/// Associates `x` with its key: removes any previous holder of the key, then
/// appends `x`. Last write wins.
pub open spec fn tbl_put<T>(s: Seq<T>, key: spec_fn(T) -> u64, x: T) -> Seq<T> {
    tbl_remove(s, key, key(x)).push(x)
}

/// The key of a task.
pub open spec fn task_key() -> spec_fn(TaskV) -> u64 {
    |t: TaskV| t.id
}

/// The key of a user.
pub open spec fn user_key() -> spec_fn(UserV) -> u64 {
    |u: UserV| u.id
}

/// The first user with the given username, in table order, if any.
pub open spec fn find_by_username(s: Seq<UserV>, name: Seq<char>) -> Option<UserV>
    decreases s.len(),
{
    if s.len() == 0 {
        None
    } else if s[0].username == name {
        Some(s[0])
    } else {
        find_by_username(s.skip(1), name)
    }
}

/// Index of the first element whose key is `id`; the length of `s` when no
/// element has it.
pub open spec fn first_ix<T>(s: Seq<T>, key: spec_fn(T) -> u64, id: u64) -> int
    decreases s.len(),
{
    if s.len() == 0 {
        0
    } else if key(s[0]) == id {
        0
    } else {
        1 + first_ix(s.skip(1), key, id)
    }
}

/// Characterizes `tbl_get` and `tbl_remove` through the index of the first
/// element carrying the key.
pub proof fn lemma_first_ix<T>(s: Seq<T>, key: spec_fn(T) -> u64, id: u64)
    ensures
        0 <= first_ix(s, key, id) <= s.len(),
        forall|j: int| 0 <= j < first_ix(s, key, id) ==> key(s[j]) != id,
        first_ix(s, key, id) < s.len() ==> key(s[first_ix(s, key, id)]) == id,
        tbl_get(s, key, id) == (if first_ix(s, key, id) < s.len() {
            Some(s[first_ix(s, key, id)])
        } else {
            None::<T>
        }),
        tbl_remove(s, key, id) == (if first_ix(s, key, id) < s.len() {
            s.subrange(0, first_ix(s, key, id)) + s.subrange(
                first_ix(s, key, id) + 1,
                s.len() as int,
            )
        } else {
            s
        }),
    decreases s.len(),
{
    if s.len() == 0 {
    } else if key(s[0]) == id {
        assert(s.skip(1) =~= s.subrange(0, 0) + s.subrange(1, s.len() as int));
    } else {
        lemma_first_ix(s.skip(1), key, id);
        let k = first_ix(s, key, id);
        let t = s.skip(1);
        assert(forall|j: int| 1 <= j < k ==> key(s[j]) == key(t[j - 1]) && key(t[j - 1]) != id);
        if first_ix(t, key, id) < t.len() {
            assert(tbl_remove(s, key, id) =~= s.subrange(0, k) + s.subrange(k + 1, s.len() as int));
        } else {
            assert(seq![s[0]] + t =~= s);
        }
    }
}

/// Index of the first user carrying `name`; the length of `s` when none does.
pub open spec fn first_name_ix(s: Seq<UserV>, name: Seq<char>) -> int
    decreases s.len(),
{
    if s.len() == 0 {
        0
    } else if s[0].username == name {
        0
    } else {
        1 + first_name_ix(s.skip(1), name)
    }
}

/// Characterizes `find_by_username` through the index of the first user
/// carrying the name.
pub proof fn lemma_first_name_ix(s: Seq<UserV>, name: Seq<char>)
    ensures
        0 <= first_name_ix(s, name) <= s.len(),
        forall|j: int| 0 <= j < first_name_ix(s, name) ==> s[j].username != name,
        first_name_ix(s, name) < s.len() ==> s[first_name_ix(s, name)].username == name,
        find_by_username(s, name) == (if first_name_ix(s, name) < s.len() {
            Some(s[first_name_ix(s, name)])
        } else {
            None::<UserV>
        }),
    decreases s.len(),
{
    if s.len() == 0 {
    } else if s[0].username == name {
    } else {
        lemma_first_name_ix(s.skip(1), name);
        let k = first_name_ix(s, name);
        let t = s.skip(1);
        assert(forall|j: int| 1 <= j < k ==> s[j] == t[j - 1] && t[j - 1].username != name);
    }
}

/// Folds a whole sequence of records into a table, one `tbl_put` at a time,
/// in order.
pub open spec fn put_all<T>(s: Seq<T>, key: spec_fn(T) -> u64, xs: Seq<T>) -> Seq<T>
    decreases xs.len(),
{
    if xs.len() == 0 {
        s
    } else {
        put_all(tbl_put(s, key, xs[0]), key, xs.skip(1))
    }
}

/// The fold grows one record at a time at its end.
pub proof fn lemma_put_all_snoc<T>(s: Seq<T>, key: spec_fn(T) -> u64, xs: Seq<T>, x: T)
    ensures
        put_all(s, key, xs.push(x)) == tbl_put(put_all(s, key, xs), key, x),
    decreases xs.len(),
{
    if xs.len() == 0 {
        assert(xs.push(x)[0] == x);
        assert(xs.push(x).skip(1) =~= Seq::<T>::empty());
        assert(put_all(tbl_put(s, key, x), key, Seq::<T>::empty()) == tbl_put(s, key, x));
        assert(put_all(s, key, xs) == s);
    } else {
        assert(xs.push(x)[0] == xs[0]);
        assert(xs.push(x).skip(1) =~= xs.skip(1).push(x));
        lemma_put_all_snoc(tbl_put(s, key, xs[0]), key, xs.skip(1), x);
    }
}

/// Mathematical image of the whole store.
#[verifier::ext_equal]
pub ghost struct DbV {
    pub tasks: Seq<TaskV>,
    pub users: Seq<UserV>,
}

/// Well-formedness of a store image: within each table, ids are distinct.
pub open spec fn db_wf(d: DbV) -> bool {
    &&& key_distinct(d.tasks, task_key())
    &&& key_distinct(d.users, user_key())
}

/// The empty store image.
pub open spec fn empty_db() -> DbV {
    DbV { tasks: Seq::empty(), users: Seq::empty() }
}

/// The record store: the aggregate owning both tables. All access goes
/// through its methods; values are copied out, never borrowed out.
pub struct Database {
    tasks: Vec<Task>,
    users: Vec<User>,
}

impl View for Database {
    type V = DbV;

    closed spec fn view(&self) -> DbV {
        DbV {
            tasks: self.tasks@.map_values(|t: Task| t@),
            users: self.users@.map_values(|u: User| u@),
        }
    }
}

impl Database {
    /// Each table holds at most one record per id.
    #[verifier::type_invariant]
    spec fn inv(self) -> bool {
        db_wf(self@)
    }

    /// A fresh, empty store.
    pub fn new() -> (r: Self)
        ensures
            r@ == empty_db(),
    {
        let r = Database { tasks: Vec::new(), users: Vec::new() };
        proof {
            assert(r@.tasks =~= Seq::<TaskV>::empty());
            assert(r@.users =~= Seq::<UserV>::empty());
        }
        r
    }

    /// Removes the task with the given id; a no-op when the id is absent.
    pub fn delete(&mut self, id: u64)
        ensures
            final(self)@.tasks == tbl_remove(old(self)@.tasks, task_key(), id),
            final(self)@.users == old(self)@.users,
    {
        proof {
            use_type_invariant(&*self);
        }
        let ghost s = self@.tasks;
        proof {
            lemma_first_ix(s, task_key(), id);
        }
        let mut tasks: Vec<Task> = Vec::new();
        std::mem::swap(&mut tasks, &mut self.tasks);
        let n = tasks.len();
        let mut i: usize = 0;
        while i < n && tasks[i].id != id
            invariant
                i <= n,
                n == tasks.len(),
                s == tasks@.map_values(|t: Task| t@),
                forall|j: int| 0 <= j < i ==> task_key()(s[j]) != id,
            decreases n - i,
        {
            i += 1;
        }
        if i < n {
            proof {
                let k = first_ix(s, task_key(), id);
                assert(s[i as int] == tasks@[i as int]@);
                assert(task_key()(s[i as int]) == id);
                if k < i as int {
                    assert(task_key()(s[k]) != id);
                    assert(false);
                }
                if k > i as int {
                    assert(task_key()(s[i as int]) != id);
                    assert(false);
                }
            }
            tasks.remove(i);
            proof {
                assert(tasks@.map_values(|t: Task| t@) =~= s.subrange(0, i as int) + s.subrange(
                    i + 1,
                    s.len() as int,
                ));
                assert(key_distinct(tasks@.map_values(|t: Task| t@), task_key()));
            }
        } else {
            assert(first_ix(s, task_key(), id) == s.len());
        }
        std::mem::swap(&mut tasks, &mut self.tasks);
    }

    /// Associates `task.id` with `task`, overwriting any prior value.
    /// Last write wins; there is no error condition.
    pub fn insert(&mut self, task: Task)
        ensures
            final(self)@.tasks == tbl_put(old(self)@.tasks, task_key(), task@),
            final(self)@.users == old(self)@.users,
    {
        proof {
            use_type_invariant(&*self);
            lemma_first_ix(self@.tasks, task_key(), task.id);
        }
        let ghost s = self@.tasks;
        self.delete(task.id);
        let ghost r = self@.tasks;
        proof {
            assert(forall|j: int| 0 <= j < r.len() ==> task_key()(r[j]) != task@.id);
        }
        let mut tasks: Vec<Task> = Vec::new();
        std::mem::swap(&mut tasks, &mut self.tasks);
        tasks.push(task);
        proof {
            assert(tasks@.map_values(|t: Task| t@) =~= r.push(task@));
            assert(key_distinct(tasks@.map_values(|t: Task| t@), task_key()));
        }
        std::mem::swap(&mut tasks, &mut self.tasks);
    }

    /// Identical mechanics to `insert`: a full overwrite by id. Updating an
    /// id that is not present silently creates it.
    pub fn update(&mut self, task: Task)
        ensures
            final(self)@.tasks == tbl_put(old(self)@.tasks, task_key(), task@),
            final(self)@.users == old(self)@.users,
    {
        self.insert(task);
    }

    /// Returns a copy of the task with the given id, or `None` when absent.
    pub fn get(&self, id: u64) -> (r: Option<Task>)
        ensures
            match tbl_get(self@.tasks, task_key(), id) {
                Some(tv) => r matches Some(t) && t@ == tv,
                None => r is None,
            },
    {
        proof {
            lemma_first_ix(self@.tasks, task_key(), id);
        }
        let ghost s = self@.tasks;
        let n = self.tasks.len();
        let mut i: usize = 0;
        while i < n && self.tasks[i].id != id
            invariant
                i <= n,
                n == self.tasks.len(),
                s == self@.tasks,
                forall|j: int| 0 <= j < i ==> task_key()(s[j]) != id,
            decreases n - i,
        {
            i += 1;
        }
        if i < n {
            proof {
                let k = first_ix(s, task_key(), id);
                assert(s[i as int] == self.tasks@[i as int]@);
                assert(task_key()(s[i as int]) == id);
                if k < i as int {
                    assert(task_key()(s[k]) != id);
                    assert(false);
                }
                if k > i as int {
                    assert(task_key()(s[i as int]) != id);
                    assert(false);
                }
            }
            Some(self.tasks[i].clone())
        } else {
            assert(first_ix(s, task_key(), id) == s.len());
            None
        }
    }

    /// Returns a copy of every current task. The order carries no meaning;
    /// callers must not depend on it.
    pub fn get_all(&self) -> (r: Vec<Task>)
        ensures
            r@.map_values(|t: Task| t@) == self@.tasks,
            db_wf(self@),
    {
        proof {
            use_type_invariant(&*self);
        }
        let mut out: Vec<Task> = Vec::new();
        let n = self.tasks.len();
        let mut i: usize = 0;
        while i < n
            invariant
                i <= n,
                n == self.tasks.len(),
                out@.map_values(|t: Task| t@) =~= self@.tasks.take(i as int),
            decreases n - i,
        {
            let item = self.tasks[i].clone();
            proof {
                assert(item@ == self@.tasks[i as int]);
            }
            out.push(item);
            proof {
                assert(self@.tasks.take(i as int + 1) =~= self@.tasks.take(i as int).push(
                    self@.tasks[i as int],
                ));
                assert(out@.map_values(|t: Task| t@) =~= self@.tasks.take(i as int).push(
                    self@.tasks[i as int],
                ));
            }
            i += 1;
        }
        proof {
            assert(self@.tasks.take(n as int) =~= self@.tasks);
        }
        out
    }

    /// Removes the user with the given id, if any.
    fn remove_user_by_id(&mut self, id: u64)
        ensures
            final(self)@.users == tbl_remove(old(self)@.users, user_key(), id),
            final(self)@.tasks == old(self)@.tasks,
    {
        proof {
            use_type_invariant(&*self);
        }
        let ghost s = self@.users;
        proof {
            lemma_first_ix(s, user_key(), id);
        }
        let mut users: Vec<User> = Vec::new();
        std::mem::swap(&mut users, &mut self.users);
        let n = users.len();
        let mut i: usize = 0;
        while i < n && users[i].id != id
            invariant
                i <= n,
                n == users.len(),
                s == users@.map_values(|u: User| u@),
                forall|j: int| 0 <= j < i ==> user_key()(s[j]) != id,
            decreases n - i,
        {
            i += 1;
        }
        if i < n {
            proof {
                let k = first_ix(s, user_key(), id);
                assert(s[i as int] == users@[i as int]@);
                assert(user_key()(s[i as int]) == id);
                if k < i as int {
                    assert(user_key()(s[k]) != id);
                    assert(false);
                }
                if k > i as int {
                    assert(user_key()(s[i as int]) != id);
                    assert(false);
                }
            }
            users.remove(i);
            proof {
                assert(users@.map_values(|u: User| u@) =~= s.subrange(0, i as int) + s.subrange(
                    i + 1,
                    s.len() as int,
                ));
                assert(key_distinct(users@.map_values(|u: User| u@), user_key()));
            }
        } else {
            assert(first_ix(s, user_key(), id) == s.len());
        }
        std::mem::swap(&mut users, &mut self.users);
    }

    /// Associates `user.id` with `user`, overwriting any prior value.
    pub fn insert_user(&mut self, user: User)
        ensures
            final(self)@.users == tbl_put(old(self)@.users, user_key(), user@),
            final(self)@.tasks == old(self)@.tasks,
    {
        proof {
            use_type_invariant(&*self);
            lemma_first_ix(self@.users, user_key(), user.id);
        }
        self.remove_user_by_id(user.id);
        let ghost r = self@.users;
        proof {
            assert(forall|j: int| 0 <= j < r.len() ==> user_key()(r[j]) != user@.id);
        }
        let mut users: Vec<User> = Vec::new();
        std::mem::swap(&mut users, &mut self.users);
        users.push(user);
        proof {
            assert(users@.map_values(|u: User| u@) =~= r.push(user@));
            assert(key_distinct(users@.map_values(|u: User| u@), user_key()));
        }
        std::mem::swap(&mut users, &mut self.users);
    }

    /// The canonical snapshot document of the whole store, both tables in
    /// full: what write-through persistence writes after every mutation.
    pub fn to_snapshot(&self) -> (r: String)
        ensures
            r@ == enc_db(self@),
            db_wf(self@),
    {
        proof {
            use_type_invariant(&*self);
        }
        encode_db(&self.tasks, &self.users)
    }

    /// Rebuilds a store from a snapshot document. A document that is not
    /// canonical yields the empty store — loading never fails. Only the
    /// exact form `to_snapshot` writes is canonical: a document produced by
    /// another serializer, even one carrying the same data under other
    /// escapes or another entry order, loads as the empty store.
    pub fn from_snapshot(text: &str) -> (r: Database)
        ensures
            r@ == parse_snapshot(text@),
    {
        let mut db = Database::new();
        match parse_db(text) {
            Some((tasks, users)) => {
                let ghost tv = tasks@.map_values(|x: Task| x@);
                let ghost uv = users@.map_values(|x: User| x@);
                let n = tasks.len();
                let mut i: usize = 0;
                while i < n
                    invariant
                        i <= n,
                        n == tasks.len(),
                        tv == tasks@.map_values(|x: Task| x@),
                        db@.tasks == put_all(Seq::empty(), task_key(), tv.take(i as int)),
                        db@.users == Seq::<UserV>::empty(),
                    decreases n - i,
                {
                    let task = tasks[i].clone();
                    proof {
                        assert(task@ == tv[i as int]);
                    }
                    db.insert(task);
                    proof {
                        assert(tv.take(i as int + 1) =~= tv.take(i as int).push(tv[i as int]));
                        lemma_put_all_snoc(
                            Seq::empty(),
                            task_key(),
                            tv.take(i as int),
                            tv[i as int],
                        );
                    }
                    i += 1;
                }
                proof {
                    assert(tv.take(n as int) =~= tv);
                }
                let m = users.len();
                let mut k: usize = 0;
                while k < m
                    invariant
                        k <= m,
                        m == users.len(),
                        uv == users@.map_values(|x: User| x@),
                        db@.users == put_all(Seq::empty(), user_key(), uv.take(k as int)),
                        db@.tasks == put_all(Seq::empty(), task_key(), tv),
                    decreases m - k,
                {
                    let user = users[k].clone();
                    proof {
                        assert(user@ == uv[k as int]);
                    }
                    db.insert_user(user);
                    proof {
                        assert(uv.take(k as int + 1) =~= uv.take(k as int).push(uv[k as int]));
                        lemma_put_all_snoc(
                            Seq::empty(),
                            user_key(),
                            uv.take(k as int),
                            uv[k as int],
                        );
                    }
                    k += 1;
                }
                proof {
                    assert(uv.take(m as int) =~= uv);
                }
                db
            },
            None => db,
        }
    }

    /// A copy of the first user with the given username in table order, or
    /// `None` when no user carries it. With duplicate usernames the choice of
    /// "first" carries no meaning; callers must not depend on it.
    pub fn get_user_by_name(&self, username: &String) -> (r: Option<User>)
        ensures
            match find_by_username(self@.users, username@) {
                Some(uv) => r matches Some(u) && u@ == uv,
                None => r is None,
            },
    {
        proof {
            lemma_first_name_ix(self@.users, username@);
        }
        let ghost s = self@.users;
        let n = self.users.len();
        let mut i: usize = 0;
        while i < n && !(self.users[i].username == *username)
            invariant
                i <= n,
                n == self.users.len(),
                s == self@.users,
                forall|j: int| 0 <= j < i ==> s[j].username != username@,
            decreases n - i,
        {
            i += 1;
        }
        if i < n {
            proof {
                let k = first_name_ix(s, username@);
                assert(s[i as int] == self.users@[i as int]@);
                assert(s[i as int].username == username@);
                if k < i as int {
                    assert(s[k].username != username@);
                    assert(false);
                }
                if k > i as int {
                    assert(s[i as int].username != username@);
                    assert(false);
                }
            }
            Some(self.users[i].clone())
        } else {
            assert(first_name_ix(s, username@) == s.len());
            None
        }
    }
}

} // verus!
