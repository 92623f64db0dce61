//! The snapshot codec: the store is mirrored to one structured text
//! document holding both tables, each a mapping from the decimal id to the
//! record. The encoder below produces the document in one canonical form;
//! the parser accepts the canonical grammar and rejects everything else, so
//! a corrupt snapshot falls back to the empty store rather than failing
//! startup.

use vstd::prelude::*;
use vstd::string::{StrSliceExecFns, StringExecFns};

use crate::store::{empty_db, put_all, task_key, user_key, DbV, Task, TaskV, User, UserV};

verus! {

// ---------------------------------------------------------------------
// Characters
// ---------------------------------------------------------------------

/// A decimal digit.
pub open spec fn is_digit(c: char) -> bool {
    48 <= c as u32 <= 57
}

/// The value of a decimal digit.
pub open spec fn digit_val(c: char) -> u64 {
    (c as u32 - 48) as u64
}

/// The character of a decimal digit value.
pub open spec fn digit_char(d: u64) -> char {
    ((48 + d) as u8) as char
}

/// A lower-case hexadecimal digit.
pub open spec fn is_hex(c: char) -> bool {
    is_digit(c) || 97 <= c as u32 <= 102
}

/// The value of a lower-case hexadecimal digit.
pub open spec fn hex_val(c: char) -> u64 {
    if is_digit(c) {
        digit_val(c)
    } else {
        (c as u32 - 87) as u64
    }
}

/// The character of a hexadecimal digit value.
pub open spec fn hex_char(d: u64) -> char {
    if d < 10 {
        ((48 + d) as u8) as char
    } else {
        ((87 + d) as u8) as char
    }
}

// ---------------------------------------------------------------------
// Encoding
// ---------------------------------------------------------------------

/// The decimal encoding of a number, most significant digit first, no
/// leading zeros.
pub open spec fn dec_u64(n: u64) -> Seq<char>
    decreases n,
{
    if n < 10 {
        seq![digit_char(n)]
    } else {
        dec_u64(n / 10).push(digit_char(n % 10))
    }
}

/// The escape of one character inside a quoted string: quote and backslash
/// get a backslash, control characters become a four-digit hexadecimal
/// escape, everything else stands for itself.
pub open spec fn esc_char(c: char) -> Seq<char> {
    if c == '"' {
        seq!['\\', '"']
    } else if c == '\\' {
        seq!['\\', '\\']
    } else if (c as u32) < 32 {
        seq!['\\', 'u', '0', '0', hex_char((c as u32 / 16) as u64), hex_char((c as u32 % 16) as u64)]
    } else {
        seq![c]
    }
}

/// The escaped body of a quoted string.
pub open spec fn esc_str(s: Seq<char>) -> Seq<char>
    decreases s.len(),
{
    if s.len() == 0 {
        Seq::empty()
    } else {
        esc_char(s[0]) + esc_str(s.skip(1))
    }
}

/// A quoted, escaped string.
pub open spec fn enc_str(s: Seq<char>) -> Seq<char> {
    seq!['"'] + esc_str(s) + seq!['"']
}

/// An encoded boolean.
pub open spec fn enc_bool(b: bool) -> Seq<char> {
    if b {
        seq!['t', 'r', 'u', 'e']
    } else {
        seq!['f', 'a', 'l', 's', 'e']
    }
}

/// The key of the id field.
pub open spec fn lit_id() -> Seq<char> {
    seq!['{', '"', 'i', 'd', '"', ':']
}

/// The key of the name field.
pub open spec fn lit_name() -> Seq<char> {
    seq![',', '"', 'n', 'a', 'm', 'e', '"', ':']
}

/// The key of the completed field.
pub open spec fn lit_completed() -> Seq<char> {
    seq![',', '"', 'c', 'o', 'm', 'p', 'l', 'e', 't', 'e', 'd', '"', ':']
}

/// The key of the username field.
pub open spec fn lit_username() -> Seq<char> {
    seq![',', '"', 'u', 's', 'e', 'r', 'n', 'a', 'm', 'e', '"', ':']
}

/// The key of the password field.
pub open spec fn lit_password() -> Seq<char> {
    seq![',', '"', 'p', 'a', 's', 's', 'w', 'o', 'r', 'd', '"', ':']
}

/// The opening of the document, up to the tasks table.
pub open spec fn lit_tasks() -> Seq<char> {
    seq!['{', '"', 't', 'a', 's', 'k', 's', '"', ':']
}

/// The separator between the tasks table and the users table.
pub open spec fn lit_users() -> Seq<char> {
    seq![',', '"', 'u', 's', 'e', 'r', 's', '"', ':']
}

/// An encoded task record.
pub open spec fn enc_task(t: TaskV) -> Seq<char> {
    lit_id() + dec_u64(t.id) + lit_name() + enc_str(t.name) + lit_completed() + enc_bool(
        t.completed,
    ) + seq!['}']
}

/// An encoded user record.
pub open spec fn enc_user(u: UserV) -> Seq<char> {
    lit_id() + dec_u64(u.id) + lit_username() + enc_str(u.username) + lit_password() + enc_str(
        u.password,
    ) + seq!['}']
}

/// One table entry: the decimal id, quoted, mapping to the record.
pub open spec fn enc_task_entry(t: TaskV) -> Seq<char> {
    seq!['"'] + dec_u64(t.id) + seq!['"', ':'] + enc_task(t)
}

/// One table entry: the decimal id, quoted, mapping to the record.
pub open spec fn enc_user_entry(u: UserV) -> Seq<char> {
    seq!['"'] + dec_u64(u.id) + seq!['"', ':'] + enc_user(u)
}

/// The comma-led continuation of a table.
pub open spec fn enc_task_more(s: Seq<TaskV>) -> Seq<char>
    decreases s.len(),
{
    if s.len() == 0 {
        Seq::empty()
    } else {
        seq![','] + enc_task_entry(s[0]) + enc_task_more(s.skip(1))
    }
}

/// The whole tasks table.
pub open spec fn enc_tasks(s: Seq<TaskV>) -> Seq<char> {
    if s.len() == 0 {
        seq!['{', '}']
    } else {
        seq!['{'] + enc_task_entry(s[0]) + enc_task_more(s.skip(1)) + seq!['}']
    }
}

/// The comma-led continuation of a table.
pub open spec fn enc_user_more(s: Seq<UserV>) -> Seq<char>
    decreases s.len(),
{
    if s.len() == 0 {
        Seq::empty()
    } else {
        seq![','] + enc_user_entry(s[0]) + enc_user_more(s.skip(1))
    }
}

/// The whole users table.
pub open spec fn enc_users(s: Seq<UserV>) -> Seq<char> {
    if s.len() == 0 {
        seq!['{', '}']
    } else {
        seq!['{'] + enc_user_entry(s[0]) + enc_user_more(s.skip(1)) + seq!['}']
    }
}

/// The whole snapshot document.
pub open spec fn enc_db(d: DbV) -> Seq<char> {
    lit_tasks() + enc_tasks(d.tasks) + lit_users() + enc_users(d.users) + seq!['}']
}

// ---------------------------------------------------------------------
// The encoder
// ---------------------------------------------------------------------

/// Relies on String::push: appends exactly the one character.
#[verifier::external_body]
fn push_char(out: &mut String, c: char)
    ensures
        final(out)@ == old(out)@.push(c),
{
    out.push(c);
}

/// Appends one decimal digit.
fn push_digit(out: &mut String, d: u64)
    requires
        d < 10,
    ensures
        final(out)@ == old(out)@ + seq![digit_char(d)],
{
    let c = ((48 + d as u8)) as char;
    proof {
        assert(c == digit_char(d));
    }
    push_char(out, c);
    proof {
        assert(out@ =~= old(out)@ + seq![digit_char(d)]);
    }
}

/// Appends one lower-case hexadecimal digit.
fn push_hex(out: &mut String, d: u64)
    requires
        d < 16,
    ensures
        final(out)@ == old(out)@ + seq![hex_char(d)],
{
    let c = if d < 10 {
        ((48 + d as u8)) as char
    } else {
        ((87 + d as u8)) as char
    };
    proof {
        assert(c == hex_char(d));
    }
    push_char(out, c);
    proof {
        assert(out@ =~= old(out)@ + seq![hex_char(d)]);
    }
}

/// Appends the decimal encoding of a number.
fn push_u64(out: &mut String, n: u64)
    ensures
        final(out)@ == old(out)@ + dec_u64(n),
    decreases n,
{
    if n < 10 {
        push_digit(out, n);
    } else {
        push_u64(out, n / 10);
        push_digit(out, n % 10);
        proof {
            assert(out@ =~= old(out)@ + dec_u64(n));
        }
    }
}

/// The escaped body of a string grows one escape at a time.
proof fn lemma_esc_str_snoc(s: Seq<char>, c: char)
    ensures
        esc_str(s.push(c)) == esc_str(s) + esc_char(c),
    decreases s.len(),
{
    if s.len() == 0 {
        assert(s.push(c)[0] == c);
        assert(s.push(c).skip(1) =~= Seq::<char>::empty());
        assert(esc_str(s.push(c).skip(1)) == Seq::<char>::empty());
        assert(esc_str(s) == Seq::<char>::empty());
        assert(esc_str(s.push(c)) =~= esc_str(s) + esc_char(c));
    } else {
        assert(s.push(c)[0] == s[0]);
        assert(s.push(c).skip(1) =~= s.skip(1).push(c));
        lemma_esc_str_snoc(s.skip(1), c);
        assert(esc_str(s.push(c)) == esc_char(s[0]) + esc_str(s.skip(1).push(c)));
        assert(esc_str(s) == esc_char(s[0]) + esc_str(s.skip(1)));
        assert(esc_char(s[0]) + (esc_str(s.skip(1)) + esc_char(c)) =~= (esc_char(s[0]) + esc_str(
            s.skip(1),
        )) + esc_char(c));
    }
}

/// Appends a quoted, escaped string.
fn push_enc_str(out: &mut String, s: &String)
    ensures
        final(out)@ == old(out)@ + enc_str(s@),
{
    push_char(out, '"');
    let ghost base = out@;
    let n = s.as_str().unicode_len();
    let mut i: usize = 0;
    while i < n
        invariant
            n == s@.len(),
            i <= n,
            out@ == base + esc_str(s@.take(i as int)),
        decreases n - i,
    {
        let c = s.as_str().get_char(i);
        if c == '"' {
            push_char(out, '\\');
            push_char(out, '"');
        } else if c == '\\' {
            push_char(out, '\\');
            push_char(out, '\\');
        } else if (c as u32) < 32 {
            push_char(out, '\\');
            push_char(out, 'u');
            push_char(out, '0');
            push_char(out, '0');
            let v = c as u32;
            push_hex(out, (v / 16) as u64);
            push_hex(out, (v % 16) as u64);
        } else {
            push_char(out, c);
        }
        proof {
            assert(s@.take(i as int + 1) =~= s@.take(i as int).push(s@[i as int]));
            lemma_esc_str_snoc(s@.take(i as int), s@[i as int]);
            assert(out@ =~= base + esc_str(s@.take(i as int + 1)));
        }
        i += 1;
    }
    push_char(out, '"');
    proof {
        assert(s@.take(n as int) =~= s@);
        assert(out@ =~= old(out)@ + enc_str(s@));
    }
}

/// Appends an encoded boolean.
fn push_bool(out: &mut String, b: bool)
    ensures
        final(out)@ == old(out)@ + enc_bool(b),
{
    if b {
        out.append("true");
        proof {
            reveal_strlit("true");
            assert(out@ =~= old(out)@ + enc_bool(b));
        }
    } else {
        out.append("false");
        proof {
            reveal_strlit("false");
            assert(out@ =~= old(out)@ + enc_bool(b));
        }
    }
}

/// Appends one encoded task table entry.
fn push_task_entry(out: &mut String, t: &Task)
    ensures
        final(out)@ == old(out)@ + enc_task_entry(t@),
{
    push_char(out, '"');
    push_u64(out, t.id);
    out.append("\":{\"id\":");
    push_u64(out, t.id);
    out.append(",\"name\":");
    push_enc_str(out, &t.name);
    out.append(",\"completed\":");
    push_bool(out, t.completed);
    push_char(out, '}');
    proof {
        reveal_strlit("\":{\"id\":");
        reveal_strlit(",\"name\":");
        reveal_strlit(",\"completed\":");
        assert(("\":{\"id\":")@ =~= seq!['"', ':'] + lit_id());
        assert((",\"name\":")@ =~= lit_name());
        assert((",\"completed\":")@ =~= lit_completed());
        assert(out@ =~= old(out)@ + enc_task_entry(t@));
    }
}

/// Appends one encoded user table entry.
fn push_user_entry(out: &mut String, u: &User)
    ensures
        final(out)@ == old(out)@ + enc_user_entry(u@),
{
    push_char(out, '"');
    push_u64(out, u.id);
    out.append("\":{\"id\":");
    push_u64(out, u.id);
    out.append(",\"username\":");
    push_enc_str(out, &u.username);
    out.append(",\"password\":");
    push_enc_str(out, &u.password);
    push_char(out, '}');
    proof {
        reveal_strlit("\":{\"id\":");
        reveal_strlit(",\"username\":");
        reveal_strlit(",\"password\":");
        assert(("\":{\"id\":")@ =~= seq!['"', ':'] + lit_id());
        assert((",\"username\":")@ =~= lit_username());
        assert((",\"password\":")@ =~= lit_password());
        assert(out@ =~= old(out)@ + enc_user_entry(u@));
    }
}

/// A task table's continuation grows one entry at a time.
proof fn lemma_task_more_snoc(s: Seq<TaskV>, t: TaskV)
    ensures
        enc_task_more(s.push(t)) == enc_task_more(s) + seq![','] + enc_task_entry(t),
    decreases s.len(),
{
    if s.len() == 0 {
        assert(s.push(t)[0] == t);
        assert(s.push(t).skip(1) =~= Seq::<TaskV>::empty());
        assert(enc_task_more(s.push(t).skip(1)) == Seq::<char>::empty());
        assert(enc_task_more(s) == Seq::<char>::empty());
        assert(enc_task_more(s.push(t)) =~= enc_task_more(s) + seq![','] + enc_task_entry(t));
    } else {
        assert(s.push(t)[0] == s[0]);
        assert(s.push(t).skip(1) =~= s.skip(1).push(t));
        lemma_task_more_snoc(s.skip(1), t);
        assert(enc_task_more(s.push(t)) == seq![','] + enc_task_entry(s[0]) + enc_task_more(
            s.skip(1).push(t),
        ));
        assert(enc_task_more(s) == seq![','] + enc_task_entry(s[0]) + enc_task_more(s.skip(1)));
        assert(seq![','] + enc_task_entry(s[0]) + ((enc_task_more(s.skip(1)) + seq![','])
            + enc_task_entry(t)) =~= (seq![','] + enc_task_entry(s[0]) + enc_task_more(s.skip(1)))
            + seq![','] + enc_task_entry(t));
    }
}

/// A user table's continuation grows one entry at a time.
proof fn lemma_user_more_snoc(s: Seq<UserV>, u: UserV)
    ensures
        enc_user_more(s.push(u)) == enc_user_more(s) + seq![','] + enc_user_entry(u),
    decreases s.len(),
{
    if s.len() == 0 {
        assert(s.push(u)[0] == u);
        assert(s.push(u).skip(1) =~= Seq::<UserV>::empty());
        assert(enc_user_more(s.push(u).skip(1)) == Seq::<char>::empty());
        assert(enc_user_more(s) == Seq::<char>::empty());
        assert(enc_user_more(s.push(u)) =~= enc_user_more(s) + seq![','] + enc_user_entry(u));
    } else {
        assert(s.push(u)[0] == s[0]);
        assert(s.push(u).skip(1) =~= s.skip(1).push(u));
        lemma_user_more_snoc(s.skip(1), u);
        assert(enc_user_more(s.push(u)) == seq![','] + enc_user_entry(s[0]) + enc_user_more(
            s.skip(1).push(u),
        ));
        assert(enc_user_more(s) == seq![','] + enc_user_entry(s[0]) + enc_user_more(s.skip(1)));
        assert(seq![','] + enc_user_entry(s[0]) + ((enc_user_more(s.skip(1)) + seq![','])
            + enc_user_entry(u)) =~= (seq![','] + enc_user_entry(s[0]) + enc_user_more(s.skip(1)))
            + seq![','] + enc_user_entry(u));
    }
}

/// Appends the encoded tasks table.
fn push_tasks(out: &mut String, tasks: &Vec<Task>)
    ensures
        final(out)@ == old(out)@ + enc_tasks(tasks@.map_values(|t: Task| t@)),
{
    let ghost full = tasks@.map_values(|t: Task| t@);
    let n = tasks.len();
    if n == 0 {
        out.append("{}");
        proof {
            reveal_strlit("{}");
            assert(out@ =~= old(out)@ + enc_tasks(full));
        }
    } else {
        push_char(out, '{');
        push_task_entry(out, &tasks[0]);
        let ghost base = out@;
        let mut i: usize = 1;
        while i < n
            invariant
                1 <= i <= n,
                n == tasks.len(),
                full == tasks@.map_values(|t: Task| t@),
                base == old(out)@ + seq!['{'] + enc_task_entry(full[0]),
                out@ == base + enc_task_more(full.subrange(1, i as int)),
            decreases n - i,
        {
            push_char(out, ',');
            push_task_entry(out, &tasks[i]);
            proof {
                assert(full.subrange(1, i as int + 1) =~= full.subrange(1, i as int).push(
                    full[i as int],
                ));
                lemma_task_more_snoc(full.subrange(1, i as int), full[i as int]);
                assert(out@ =~= base + enc_task_more(full.subrange(1, i as int + 1)));
            }
            i += 1;
        }
        push_char(out, '}');
        proof {
            assert(full.subrange(1, n as int) =~= full.skip(1));
            assert(out@ =~= old(out)@ + enc_tasks(full));
        }
    }
}

/// Appends the encoded users table.
fn push_users(out: &mut String, users: &Vec<User>)
    ensures
        final(out)@ == old(out)@ + enc_users(users@.map_values(|u: User| u@)),
{
    let ghost full = users@.map_values(|u: User| u@);
    let n = users.len();
    if n == 0 {
        out.append("{}");
        proof {
            reveal_strlit("{}");
            assert(out@ =~= old(out)@ + enc_users(full));
        }
    } else {
        push_char(out, '{');
        push_user_entry(out, &users[0]);
        let ghost base = out@;
        let mut i: usize = 1;
        while i < n
            invariant
                1 <= i <= n,
                n == users.len(),
                full == users@.map_values(|u: User| u@),
                base == old(out)@ + seq!['{'] + enc_user_entry(full[0]),
                out@ == base + enc_user_more(full.subrange(1, i as int)),
            decreases n - i,
        {
            push_char(out, ',');
            push_user_entry(out, &users[i]);
            proof {
                assert(full.subrange(1, i as int + 1) =~= full.subrange(1, i as int).push(
                    full[i as int],
                ));
                lemma_user_more_snoc(full.subrange(1, i as int), full[i as int]);
                assert(out@ =~= base + enc_user_more(full.subrange(1, i as int + 1)));
            }
            i += 1;
        }
        push_char(out, '}');
        proof {
            assert(full.subrange(1, n as int) =~= full.skip(1));
            assert(out@ =~= old(out)@ + enc_users(full));
        }
    }
}

/// Encodes both tables as one canonical snapshot document.
pub fn encode_db(tasks: &Vec<Task>, users: &Vec<User>) -> (r: String)
    ensures
        r@ == enc_db(
            DbV {
                tasks: tasks@.map_values(|t: Task| t@),
                users: users@.map_values(|u: User| u@),
            },
        ),
{
    let mut out = String::new();
    out.append("{\"tasks\":");
    push_tasks(&mut out, tasks);
    out.append(",\"users\":");
    push_users(&mut out, users);
    push_char(&mut out, '}');
    proof {
        reveal_strlit("{\"tasks\":");
        reveal_strlit(",\"users\":");
        assert(("{\"tasks\":")@ =~= lit_tasks());
        assert((",\"users\":")@ =~= lit_users());
        assert(out@ =~= enc_db(
            DbV {
                tasks: tasks@.map_values(|t: Task| t@),
                users: users@.map_values(|u: User| u@),
            },
        ));
    }
    out
}

// ---------------------------------------------------------------------
// Parsing
// ---------------------------------------------------------------------
// Each parser takes the remaining input and yields the parsed value with
// what is left, or nothing when the input is not canonical.

/// The number of leading decimal digits.
pub open spec fn digit_count(t: Seq<char>) -> int
    decreases t.len(),
{
    if t.len() > 0 && is_digit(t[0]) {
        1 + digit_count(t.skip(1))
    } else {
        0
    }
}

/// The value of a digit sequence, most significant digit first.
pub open spec fn val_of(digs: Seq<char>) -> int
    decreases digs.len(),
{
    if digs.len() == 0 {
        0
    } else {
        val_of(digs.drop_last()) * 10 + digit_val(digs.last())
    }
}

/// Parses a canonical decimal number: at least one digit, no leading zero,
/// value within range.
pub open spec fn p_num(t: Seq<char>) -> Option<(u64, Seq<char>)> {
    let k = digit_count(t);
    if k == 0 {
        None
    } else if k > 1 && t[0] == '0' {
        None
    } else if val_of(t.take(k)) > u64::MAX {
        None
    } else {
        Some((val_of(t.take(k)) as u64, t.skip(k)))
    }
}

/// Parses the body of a quoted string, after the opening quote, up to and
/// including the closing quote.
pub open spec fn p_str_body(t: Seq<char>) -> Option<(Seq<char>, Seq<char>)>
    decreases t.len(),
{
    if t.len() == 0 {
        None
    } else if t[0] == '"' {
        Some((Seq::empty(), t.skip(1)))
    } else if t[0] == '\\' {
        if t.len() >= 2 && (t[1] == '"' || t[1] == '\\') {
            match p_str_body(t.skip(2)) {
                Some(r) => Some((seq![t[1]] + r.0, r.1)),
                None => None,
            }
        } else if t.len() >= 6 && t[1] == 'u' && t[2] == '0' && t[3] == '0' && is_hex(t[4])
            && is_hex(t[5]) {
            match p_str_body(t.skip(6)) {
                Some(r) => Some(
                    (seq![(((hex_val(t[4]) * 16 + hex_val(t[5])) as u8) as char)] + r.0, r.1),
                ),
                None => None,
            }
        } else {
            None
        }
    } else if (t[0] as u32) < 32 {
        None
    } else {
        match p_str_body(t.skip(1)) {
            Some(r) => Some((seq![t[0]] + r.0, r.1)),
            None => None,
        }
    }
}

/// Parses a quoted string.
pub open spec fn p_str(t: Seq<char>) -> Option<(Seq<char>, Seq<char>)> {
    if t.len() > 0 && t[0] == '"' {
        p_str_body(t.skip(1))
    } else {
        None
    }
}

/// Consumes an exact literal.
pub open spec fn p_lit(t: Seq<char>, pat: Seq<char>) -> Option<Seq<char>> {
    if pat.len() <= t.len() && t.take(pat.len() as int) == pat {
        Some(t.skip(pat.len() as int))
    } else {
        None
    }
}

/// Parses a boolean.
pub open spec fn p_bool(t: Seq<char>) -> Option<(bool, Seq<char>)> {
    if p_lit(t, enc_bool(true)) is Some {
        Some((true, p_lit(t, enc_bool(true)).unwrap()))
    } else if p_lit(t, enc_bool(false)) is Some {
        Some((false, p_lit(t, enc_bool(false)).unwrap()))
    } else {
        None
    }
}

/// Parses a task record.
pub open spec fn p_task(t: Seq<char>) -> Option<(TaskV, Seq<char>)> {
    match p_lit(t, lit_id()) {
        None => None,
        Some(t1) => match p_num(t1) {
            None => None,
            Some((id, t2)) => match p_lit(t2, lit_name()) {
                None => None,
                Some(t3) => match p_str(t3) {
                    None => None,
                    Some((name, t4)) => match p_lit(t4, lit_completed()) {
                        None => None,
                        Some(t5) => match p_bool(t5) {
                            None => None,
                            Some((completed, t6)) => match p_lit(t6, seq!['}']) {
                                None => None,
                                Some(t7) => Some((TaskV { id, name, completed }, t7)),
                            },
                        },
                    },
                },
            },
        },
    }
}

/// Parses a user record.
pub open spec fn p_user(t: Seq<char>) -> Option<(UserV, Seq<char>)> {
    match p_lit(t, lit_id()) {
        None => None,
        Some(t1) => match p_num(t1) {
            None => None,
            Some((id, t2)) => match p_lit(t2, lit_username()) {
                None => None,
                Some(t3) => match p_str(t3) {
                    None => None,
                    Some((username, t4)) => match p_lit(t4, lit_password()) {
                        None => None,
                        Some(t5) => match p_str(t5) {
                            None => None,
                            Some((password, t6)) => match p_lit(t6, seq!['}']) {
                                None => None,
                                Some(t7) => Some((UserV { id, username, password }, t7)),
                            },
                        },
                    },
                },
            },
        },
    }
}

/// Parses one task table entry and checks that the key repeats the record's
/// own id.
pub open spec fn p_task_entry(t: Seq<char>) -> Option<(TaskV, Seq<char>)> {
    if t.len() > 0 && t[0] == '"' {
        match p_num(t.skip(1)) {
            None => None,
            Some((k, t1)) => match p_lit(t1, seq!['"', ':']) {
                None => None,
                Some(t2) => match p_task(t2) {
                    None => None,
                    Some((tv, t3)) => if tv.id == k {
                        Some((tv, t3))
                    } else {
                        None
                    },
                },
            },
        }
    } else {
        None
    }
}

/// Parses one user table entry and checks that the key repeats the record's
/// own id.
pub open spec fn p_user_entry(t: Seq<char>) -> Option<(UserV, Seq<char>)> {
    if t.len() > 0 && t[0] == '"' {
        match p_num(t.skip(1)) {
            None => None,
            Some((k, t1)) => match p_lit(t1, seq!['"', ':']) {
                None => None,
                Some(t2) => match p_user(t2) {
                    None => None,
                    Some((uv, t3)) => if uv.id == k {
                        Some((uv, t3))
                    } else {
                        None
                    },
                },
            },
        }
    } else {
        None
    }
}

/// Parses the comma-led continuation of the tasks table, up to and
/// including the closing brace.
pub open spec fn p_task_more(t: Seq<char>) -> Option<(Seq<TaskV>, Seq<char>)>
    decreases t.len(),
{
    if t.len() > 0 && t[0] == '}' {
        Some((Seq::empty(), t.skip(1)))
    } else if t.len() > 0 && t[0] == ',' {
        match p_task_entry(t.skip(1)) {
            None => None,
            Some((tv, t1)) => if t1.len() < t.len() {
                match p_task_more(t1) {
                    None => None,
                    Some((rest, t2)) => Some((seq![tv] + rest, t2)),
                }
            } else {
                None
            },
        }
    } else {
        None
    }
}

/// Parses the whole tasks table.
pub open spec fn p_tasks(t: Seq<char>) -> Option<(Seq<TaskV>, Seq<char>)> {
    if t.len() >= 2 && t[0] == '{' && t[1] == '}' {
        Some((Seq::empty(), t.skip(2)))
    } else if t.len() > 0 && t[0] == '{' {
        match p_task_entry(t.skip(1)) {
            None => None,
            Some((tv, t1)) => match p_task_more(t1) {
                None => None,
                Some((rest, t2)) => Some((seq![tv] + rest, t2)),
            },
        }
    } else {
        None
    }
}

/// Parses the comma-led continuation of the users table, up to and
/// including the closing brace.
pub open spec fn p_user_more(t: Seq<char>) -> Option<(Seq<UserV>, Seq<char>)>
    decreases t.len(),
{
    if t.len() > 0 && t[0] == '}' {
        Some((Seq::empty(), t.skip(1)))
    } else if t.len() > 0 && t[0] == ',' {
        match p_user_entry(t.skip(1)) {
            None => None,
            Some((uv, t1)) => if t1.len() < t.len() {
                match p_user_more(t1) {
                    None => None,
                    Some((rest, t2)) => Some((seq![uv] + rest, t2)),
                }
            } else {
                None
            },
        }
    } else {
        None
    }
}

/// Parses the whole users table.
pub open spec fn p_users(t: Seq<char>) -> Option<(Seq<UserV>, Seq<char>)> {
    if t.len() >= 2 && t[0] == '{' && t[1] == '}' {
        Some((Seq::empty(), t.skip(2)))
    } else if t.len() > 0 && t[0] == '{' {
        match p_user_entry(t.skip(1)) {
            None => None,
            Some((uv, t1)) => match p_user_more(t1) {
                None => None,
                Some((rest, t2)) => Some((seq![uv] + rest, t2)),
            },
        }
    } else {
        None
    }
}

/// The number of leading digits, characterized by the first non-digit.
proof fn lemma_digit_count(t: Seq<char>)
    ensures
        0 <= digit_count(t) <= t.len(),
        forall|k: int| 0 <= k < digit_count(t) ==> is_digit(t[k]),
        digit_count(t) < t.len() ==> !is_digit(t[digit_count(t)]),
    decreases t.len(),
{
    if t.len() > 0 && is_digit(t[0]) {
        lemma_digit_count(t.skip(1));
        assert(forall|k: int| 1 <= k < digit_count(t) ==> t[k] == t.skip(1)[k - 1]);
    }
}

/// The value of a digit sequence is never negative.
proof fn lemma_val_nonneg(s: Seq<char>)
    ensures
        val_of(s) >= 0,
    decreases s.len(),
{
    if s.len() > 0 {
        lemma_val_nonneg(s.drop_last());
        assert(val_of(s.drop_last()) * 10 >= 0) by (nonlinear_arith)
            requires
                val_of(s.drop_last()) >= 0,
        ;
    }
}

/// The value of a digit sequence grows with its length.
proof fn lemma_val_monotone(s: Seq<char>, a: int, b: int)
    requires
        0 <= a <= b <= s.len(),
    ensures
        val_of(s.take(a)) <= val_of(s.take(b)),
    decreases b - a,
{
    if a < b {
        lemma_val_monotone(s, a, b - 1);
        let p = s.take(b);
        assert(p.drop_last() =~= s.take(b - 1));
        lemma_val_nonneg(s.take(b - 1));
        assert(val_of(s.take(b - 1)) * 10 >= val_of(s.take(b - 1))) by (nonlinear_arith)
            requires
                val_of(s.take(b - 1)) >= 0,
        ;
    }
}

/// Parses a whole snapshot document into the raw table sequences, in
/// document order; the document must end right after the closing brace.
pub open spec fn p_db_raw(t: Seq<char>) -> Option<(Seq<TaskV>, Seq<UserV>)> {
    match p_lit(t, lit_tasks()) {
        None => None,
        Some(t1) => match p_tasks(t1) {
            None => None,
            Some((tasks, t2)) => match p_lit(t2, lit_users()) {
                None => None,
                Some(t3) => match p_users(t3) {
                    None => None,
                    Some((users, t4)) => if t4.len() == 1 && t4[0] == '}' {
                        Some((tasks, users))
                    } else {
                        None
                    },
                },
            },
        },
    }
}

// ---------------------------------------------------------------------
// The round trip
// ---------------------------------------------------------------------

/// A literal parses off the front of what it was appended to.
proof fn lemma_p_lit_exact(pat: Seq<char>, rest: Seq<char>)
    ensures
        p_lit(pat + rest, pat) == Some(rest),
{
    let w = pat + rest;
    assert(w.take(pat.len() as int) =~= pat);
    assert(w.skip(pat.len() as int) =~= rest);
}

/// A decimal digit character carries its value.
proof fn lemma_digit_char(d: u64)
    requires
        d < 10,
    ensures
        is_digit(digit_char(d)),
        digit_val(digit_char(d)) == d,
        d >= 1 ==> digit_char(d) != '0',
{
    assert(digit_char(d) as u32 == 48 + d);
    assert('0' as u32 == 48);
}

/// A hexadecimal digit character carries its value.
proof fn lemma_hex_char(d: u64)
    requires
        d < 16,
    ensures
        is_hex(hex_char(d)),
        hex_val(hex_char(d)) == d,
{
    if d < 10 {
        assert(hex_char(d) as u32 == 48 + d);
    } else {
        assert(hex_char(d) as u32 == 87 + d);
    }
}

/// The decimal encoding is all digits, has no leading zero, and carries the
/// number's value.
proof fn lemma_dec_digits(n: u64)
    ensures
        dec_u64(n).len() >= 1,
        forall|k: int| 0 <= k < dec_u64(n).len() ==> is_digit(#[trigger] dec_u64(n)[k]),
        n >= 1 ==> dec_u64(n)[0] != '0',
        n < 10 ==> dec_u64(n).len() == 1,
        val_of(dec_u64(n)) == n,
    decreases n,
{
    if n < 10 {
        lemma_digit_char(n);
        assert(dec_u64(n) == seq![digit_char(n)]);
        assert(seq![digit_char(n)].drop_last() =~= Seq::<char>::empty());
        assert(val_of(seq![digit_char(n)].drop_last()) == 0);
        assert(val_of(dec_u64(n)) == 0 * 10 + digit_val(digit_char(n)));
    } else {
        lemma_dec_digits(n / 10);
        lemma_digit_char(n % 10);
        let p = dec_u64(n / 10);
        let w = dec_u64(n);
        assert(w == p.push(digit_char(n % 10)));
        assert(forall|k: int| 0 <= k < p.len() ==> w[k] == p[k]);
        assert(w[p.len() as int] == digit_char(n % 10));
        assert(w[0] == p[0]);
        assert(n / 10 >= 1);
        assert(w.drop_last() =~= p);
        assert(w.last() == digit_char(n % 10));
        assert(val_of(w) == val_of(p) * 10 + digit_val(digit_char(n % 10)));
        assert((n / 10) * 10 + n % 10 == n);
    }
}

/// A number followed by anything but a digit parses back to itself.
proof fn lemma_p_num_dec(n: u64, rest: Seq<char>)
    requires
        rest.len() == 0 || !is_digit(rest[0]),
    ensures
        p_num(dec_u64(n) + rest) == Some((n, rest)),
{
    lemma_dec_digits(n);
    let d = dec_u64(n);
    let w = d + rest;
    lemma_digit_count(w);
    let dc = digit_count(w);
    assert(forall|k: int| 0 <= k < d.len() ==> w[k] == d[k]);
    if dc < d.len() {
        assert(is_digit(w[dc]));
        assert(!is_digit(w[dc]));
        assert(false);
    }
    if dc > d.len() {
        assert(d.len() < w.len());
        assert(w[d.len() as int] == rest[0]);
        assert(is_digit(w[d.len() as int]));
        assert(false);
    }
    assert(dc == d.len());
    if dc > 1 {
        assert(n >= 1);
        assert(w[0] == d[0]);
        assert(w[0] != '0');
    }
    assert(w.take(dc) =~= d);
    assert(val_of(w.take(dc)) == n);
    assert(w.skip(dc) =~= rest);
}

/// An escaped string body, its closing quote, and whatever follows parse
/// back to the string and what follows.
#[verifier::rlimit(100)]
proof fn lemma_p_str_body_esc(s: Seq<char>, rest: Seq<char>)
    ensures
        p_str_body(esc_str(s) + seq!['"'] + rest) == Some((s, rest)),
    decreases s.len(),
{
    let w = esc_str(s) + seq!['"'] + rest;
    if s.len() == 0 {
        assert(esc_str(s) == Seq::<char>::empty());
        assert(w =~= seq!['"'] + rest);
        assert(w[0] == '"');
        assert(w.skip(1) =~= rest);
    } else {
        let c = s[0];
        let s1 = s.skip(1);
        lemma_p_str_body_esc(s1, rest);
        let w1 = esc_str(s1) + seq!['"'] + rest;
        assert(esc_str(s) == esc_char(c) + esc_str(s1));
        assert(w =~= esc_char(c) + w1);
        if c == '"' || c == '\\' {
            assert(esc_char(c) == seq!['\\', c]);
            assert(w[0] == '\\');
            assert(w[1] == c);
            assert(w.len() >= 2);
            assert(w.skip(2) =~= w1);
            assert(p_str_body(w) == Some((seq![w[1]] + s1, rest)));
            assert(seq![w[1]] + s1 =~= s);
        } else if (c as u32) < 32 {
            let d1 = (c as u32 / 16) as u64;
            let d2 = (c as u32 % 16) as u64;
            lemma_hex_char(d1);
            lemma_hex_char(d2);
            assert(esc_char(c) == seq!['\\', 'u', '0', '0', hex_char(d1), hex_char(d2)]);
            assert(w[0] == '\\');
            assert(w[1] == 'u');
            assert(w[2] == '0');
            assert(w[3] == '0');
            assert(w[4] == hex_char(d1));
            assert(w[5] == hex_char(d2));
            assert(w.len() >= 6);
            assert(w.skip(6) =~= w1);
            assert(hex_val(w[4]) * 16 + hex_val(w[5]) == c as u32);
            let y = (hex_val(w[4]) * 16 + hex_val(w[5])) as u8;
            assert(y as u32 == c as u32);
            vstd::utf8::char_u32_cast(c, y as u32);
            assert((y as u32) as char == c);
            assert((y as char) as u32 == y as u32);
            vstd::utf8::char_u32_cast((y as char), y as u32);
            assert((((hex_val(w[4]) * 16 + hex_val(w[5])) as u8) as char) == c);
            assert(p_str_body(w) == Some((seq![c] + s1, rest)));
            assert(seq![c] + s1 =~= s);
        } else {
            assert(esc_char(c) == seq![c]);
            assert(w[0] == c);
            assert(w.skip(1) =~= w1);
            assert(p_str_body(w) == Some((seq![c] + s1, rest)));
            assert(seq![c] + s1 =~= s);
        }
    }
}

/// A quoted string and whatever follows parse back to the string and what
/// follows.
proof fn lemma_p_str_enc(s: Seq<char>, rest: Seq<char>)
    ensures
        p_str(enc_str(s) + rest) == Some((s, rest)),
{
    let w = enc_str(s) + rest;
    assert(w[0] == '"');
    assert(w.skip(1) =~= esc_str(s) + seq!['"'] + rest);
    lemma_p_str_body_esc(s, rest);
}

/// An encoded boolean parses back to itself.
proof fn lemma_p_bool_enc(b: bool, rest: Seq<char>)
    ensures
        p_bool(enc_bool(b) + rest) == Some((b, rest)),
{
    let w = enc_bool(b) + rest;
    if b {
        lemma_p_lit_exact(enc_bool(true), rest);
    } else {
        lemma_p_lit_exact(enc_bool(false), rest);
        if p_lit(w, enc_bool(true)) is Some {
            assert(w.take(enc_bool(true).len() as int) == enc_bool(true));
            assert(w.take(enc_bool(true).len() as int)[0] == w[0]);
            assert(w[0] == 'f');
            assert(false);
        }
    }
}

/// An encoded task record parses back to itself.
#[verifier::rlimit(100)]
proof fn lemma_p_task_enc(t: TaskV, rest: Seq<char>)
    ensures
        p_task(enc_task(t) + rest) == Some((t, rest)),
{
    let w = enc_task(t) + rest;
    let r6 = seq!['}'] + rest;
    let r5 = enc_bool(t.completed) + r6;
    let r4 = lit_completed() + r5;
    let r3 = enc_str(t.name) + r4;
    let r2 = lit_name() + r3;
    let r1 = dec_u64(t.id) + r2;
    assert(w =~= lit_id() + r1);
    lemma_p_lit_exact(lit_id(), r1);
    assert(r2[0] == ',');
    lemma_p_num_dec(t.id, r2);
    assert(r1 =~= dec_u64(t.id) + r2);
    lemma_p_lit_exact(lit_name(), r3);
    assert(r2 =~= lit_name() + r3);
    lemma_p_str_enc(t.name, r4);
    assert(r3 =~= enc_str(t.name) + r4);
    lemma_p_lit_exact(lit_completed(), r5);
    assert(r4 =~= lit_completed() + r5);
    lemma_p_bool_enc(t.completed, r6);
    assert(r5 =~= enc_bool(t.completed) + r6);
    lemma_p_lit_exact(seq!['}'], rest);
    assert(r6 =~= seq!['}'] + rest);
    assert(p_task(w) == Some((TaskV { id: t.id, name: t.name, completed: t.completed }, rest)));
    assert(TaskV { id: t.id, name: t.name, completed: t.completed } =~= t);
}

/// An encoded user record parses back to itself.
#[verifier::rlimit(100)]
proof fn lemma_p_user_enc(u: UserV, rest: Seq<char>)
    ensures
        p_user(enc_user(u) + rest) == Some((u, rest)),
{
    let w = enc_user(u) + rest;
    let r6 = seq!['}'] + rest;
    let r5 = enc_str(u.password) + r6;
    let r4 = lit_password() + r5;
    let r3 = enc_str(u.username) + r4;
    let r2 = lit_username() + r3;
    let r1 = dec_u64(u.id) + r2;
    assert(w =~= lit_id() + r1);
    lemma_p_lit_exact(lit_id(), r1);
    assert(r2[0] == ',');
    lemma_p_num_dec(u.id, r2);
    assert(r1 =~= dec_u64(u.id) + r2);
    lemma_p_lit_exact(lit_username(), r3);
    assert(r2 =~= lit_username() + r3);
    lemma_p_str_enc(u.username, r4);
    assert(r3 =~= enc_str(u.username) + r4);
    lemma_p_lit_exact(lit_password(), r5);
    assert(r4 =~= lit_password() + r5);
    lemma_p_str_enc(u.password, r6);
    assert(r5 =~= enc_str(u.password) + r6);
    lemma_p_lit_exact(seq!['}'], rest);
    assert(r6 =~= seq!['}'] + rest);
    assert(p_user(w) == Some((UserV { id: u.id, username: u.username, password: u.password }, rest)));
    assert(UserV { id: u.id, username: u.username, password: u.password } =~= u);
}

/// An encoded task table entry parses back to itself.
#[verifier::rlimit(100)]
proof fn lemma_p_task_entry_enc(t: TaskV, rest: Seq<char>)
    ensures
        p_task_entry(enc_task_entry(t) + rest) == Some((t, rest)),
{
    let w = enc_task_entry(t) + rest;
    let r2 = enc_task(t) + rest;
    let r1 = seq!['"', ':'] + r2;
    let r0 = dec_u64(t.id) + r1;
    assert(w =~= seq!['"'] + r0);
    assert(w[0] == '"');
    assert(w.skip(1) =~= r0);
    assert(r1[0] == '"');
    lemma_p_num_dec(t.id, r1);
    lemma_p_lit_exact(seq!['"', ':'], r2);
    assert(r1 =~= seq!['"', ':'] + r2);
    lemma_p_task_enc(t, rest);
}

/// An encoded user table entry parses back to itself.
#[verifier::rlimit(100)]
proof fn lemma_p_user_entry_enc(u: UserV, rest: Seq<char>)
    ensures
        p_user_entry(enc_user_entry(u) + rest) == Some((u, rest)),
{
    let w = enc_user_entry(u) + rest;
    let r2 = enc_user(u) + rest;
    let r1 = seq!['"', ':'] + r2;
    let r0 = dec_u64(u.id) + r1;
    assert(w =~= seq!['"'] + r0);
    assert(w[0] == '"');
    assert(w.skip(1) =~= r0);
    assert(r1[0] == '"');
    lemma_p_num_dec(u.id, r1);
    lemma_p_lit_exact(seq!['"', ':'], r2);
    assert(r1 =~= seq!['"', ':'] + r2);
    lemma_p_user_enc(u, rest);
}

/// An encoded task table continuation parses back to itself.
#[verifier::rlimit(100)]
proof fn lemma_p_task_more_enc(s: Seq<TaskV>, rest: Seq<char>)
    ensures
        p_task_more(enc_task_more(s) + seq!['}'] + rest) == Some((s, rest)),
    decreases s.len(),
{
    let w = enc_task_more(s) + seq!['}'] + rest;
    if s.len() == 0 {
        assert(enc_task_more(s) == Seq::<char>::empty());
        assert(w =~= seq!['}'] + rest);
        assert(w[0] == '}');
        assert(w.skip(1) =~= rest);
        assert(Seq::<TaskV>::empty() =~= s);
    } else {
        lemma_p_task_more_enc(s.skip(1), rest);
        let w1 = enc_task_more(s.skip(1)) + seq!['}'] + rest;
        assert(enc_task_more(s) == seq![','] + enc_task_entry(s[0]) + enc_task_more(s.skip(1)));
        assert(w =~= seq![','] + (enc_task_entry(s[0]) + w1));
        assert(w[0] == ',');
        assert(w.skip(1) =~= enc_task_entry(s[0]) + w1);
        lemma_p_task_entry_enc(s[0], w1);
        assert(w1.len() < w.len());
        assert(p_task_more(w) == Some((seq![s[0]] + s.skip(1), rest)));
        assert(seq![s[0]] + s.skip(1) =~= s);
    }
}

/// An encoded user table continuation parses back to itself.
#[verifier::rlimit(100)]
proof fn lemma_p_user_more_enc(s: Seq<UserV>, rest: Seq<char>)
    ensures
        p_user_more(enc_user_more(s) + seq!['}'] + rest) == Some((s, rest)),
    decreases s.len(),
{
    let w = enc_user_more(s) + seq!['}'] + rest;
    if s.len() == 0 {
        assert(enc_user_more(s) == Seq::<char>::empty());
        assert(w =~= seq!['}'] + rest);
        assert(w[0] == '}');
        assert(w.skip(1) =~= rest);
        assert(Seq::<UserV>::empty() =~= s);
    } else {
        lemma_p_user_more_enc(s.skip(1), rest);
        let w1 = enc_user_more(s.skip(1)) + seq!['}'] + rest;
        assert(enc_user_more(s) == seq![','] + enc_user_entry(s[0]) + enc_user_more(s.skip(1)));
        assert(w =~= seq![','] + (enc_user_entry(s[0]) + w1));
        assert(w[0] == ',');
        assert(w.skip(1) =~= enc_user_entry(s[0]) + w1);
        lemma_p_user_entry_enc(s[0], w1);
        assert(w1.len() < w.len());
        assert(p_user_more(w) == Some((seq![s[0]] + s.skip(1), rest)));
        assert(seq![s[0]] + s.skip(1) =~= s);
    }
}

/// An encoded tasks table parses back to itself.
#[verifier::rlimit(100)]
proof fn lemma_p_tasks_enc(s: Seq<TaskV>, rest: Seq<char>)
    ensures
        p_tasks(enc_tasks(s) + rest) == Some((s, rest)),
{
    let w = enc_tasks(s) + rest;
    if s.len() == 0 {
        assert(enc_tasks(s) == seq!['{', '}']);
        assert(w[0] == '{');
        assert(w[1] == '}');
        assert(w.len() >= 2);
        assert(w.skip(2) =~= rest);
        assert(Seq::<TaskV>::empty() =~= s);
    } else {
        let w1 = enc_task_more(s.skip(1)) + seq!['}'] + rest;
        assert(enc_tasks(s) == seq!['{'] + enc_task_entry(s[0]) + enc_task_more(s.skip(1)) + seq![
            '}',
        ]);
        assert(w =~= seq!['{'] + (enc_task_entry(s[0]) + w1));
        assert(w[0] == '{');
        assert(w[1] == (enc_task_entry(s[0]) + w1)[0]);
        assert(w[1] == '"');
        assert(w.skip(1) =~= enc_task_entry(s[0]) + w1);
        lemma_p_task_entry_enc(s[0], w1);
        lemma_p_task_more_enc(s.skip(1), rest);
        assert(p_tasks(w) == Some((seq![s[0]] + s.skip(1), rest)));
        assert(seq![s[0]] + s.skip(1) =~= s);
    }
}

/// An encoded users table parses back to itself.
#[verifier::rlimit(100)]
proof fn lemma_p_users_enc(s: Seq<UserV>, rest: Seq<char>)
    ensures
        p_users(enc_users(s) + rest) == Some((s, rest)),
{
    let w = enc_users(s) + rest;
    if s.len() == 0 {
        assert(enc_users(s) == seq!['{', '}']);
        assert(w[0] == '{');
        assert(w[1] == '}');
        assert(w.len() >= 2);
        assert(w.skip(2) =~= rest);
        assert(Seq::<UserV>::empty() =~= s);
    } else {
        let w1 = enc_user_more(s.skip(1)) + seq!['}'] + rest;
        assert(enc_users(s) == seq!['{'] + enc_user_entry(s[0]) + enc_user_more(s.skip(1)) + seq![
            '}',
        ]);
        assert(w =~= seq!['{'] + (enc_user_entry(s[0]) + w1));
        assert(w[0] == '{');
        assert(w[1] == (enc_user_entry(s[0]) + w1)[0]);
        assert(w[1] == '"');
        assert(w.skip(1) =~= enc_user_entry(s[0]) + w1);
        lemma_p_user_entry_enc(s[0], w1);
        lemma_p_user_more_enc(s.skip(1), rest);
        assert(p_users(w) == Some((seq![s[0]] + s.skip(1), rest)));
        assert(seq![s[0]] + s.skip(1) =~= s);
    }
}

/// An encoded snapshot document parses back to exactly the raw tables it
/// was made from.
#[verifier::rlimit(100)]
proof fn lemma_p_db_raw_enc(d: DbV)
    ensures
        p_db_raw(enc_db(d)) == Some((d.tasks, d.users)),
{
    let w = enc_db(d);
    let r3 = seq!['}'];
    let r2 = enc_users(d.users) + r3;
    let r1 = lit_users() + r2;
    let r0 = enc_tasks(d.tasks) + r1;
    assert(w =~= lit_tasks() + r0);
    lemma_p_lit_exact(lit_tasks(), r0);
    lemma_p_tasks_enc(d.tasks, r1);
    assert(r0 =~= enc_tasks(d.tasks) + r1);
    lemma_p_lit_exact(lit_users(), r2);
    assert(r1 =~= lit_users() + r2);
    lemma_p_users_enc(d.users, r3);
    assert(r2 =~= enc_users(d.users) + r3);
    assert(r3.len() == 1 && r3[0] == '}');
}

/// The save-then-load round trip: parsing the snapshot of any well-formed
/// store image yields that image back, association for association.
pub proof fn lemma_snapshot_round_trip(d: DbV)
    requires
        crate::store::db_wf(d),
    ensures
        parse_snapshot(enc_db(d)) == d,
{
    lemma_p_db_raw_enc(d);
    crate::laws::lemma_put_all_fresh(Seq::<TaskV>::empty(), task_key(), d.tasks);
    crate::laws::lemma_put_all_fresh(Seq::<UserV>::empty(), user_key(), d.users);
    assert(Seq::<TaskV>::empty() + d.tasks =~= d.tasks);
    assert(Seq::<UserV>::empty() + d.users =~= d.users);
    assert(parse_snapshot(enc_db(d)) =~= d);
}

/// What loading a snapshot yields: the parsed tables folded into a store
/// image, record by record in document order; the empty store when the
/// document is not canonical.
pub open spec fn parse_snapshot(t: Seq<char>) -> DbV {
    match p_db_raw(t) {
        Some((ts, us)) => DbV {
            tasks: put_all(Seq::empty(), task_key(), ts),
            users: put_all(Seq::empty(), user_key(), us),
        },
        None => empty_db(),
    }
}

// ---------------------------------------------------------------------
// The parser
// ---------------------------------------------------------------------

/// The characters of a string, in order.
fn chars_of(s: &str) -> (r: Vec<char>)
    ensures
        r@ == s@,
{
    let n = s.unicode_len();
    let mut out: Vec<char> = Vec::new();
    let mut i: usize = 0;
    while i < n
        invariant
            i <= n,
            n == s@.len(),
            out@ == s@.take(i as int),
        decreases n - i,
    {
        let c = s.get_char(i);
        out.push(c);
        proof {
            assert(out@ =~= s@.take(i as int + 1));
        }
        i += 1;
    }
    proof {
        assert(s@.take(n as int) =~= s@);
    }
    out
}

/// Consumes an exact literal.
fn e_lit(t: &Vec<char>, i: usize, pat: &Vec<char>) -> (r: Option<usize>)
    requires
        i <= t.len(),
    ensures
        match r {
            Some(j) => i <= j <= t.len() && j - i == pat@.len() && p_lit(t@.skip(i as int), pat@)
                == Some(t@.skip(j as int)),
            None => p_lit(t@.skip(i as int), pat@) is None,
        },
{
    let ghost u = t@.skip(i as int);
    let m = pat.len();
    if t.len() - i < m {
        return None;
    }
    let mut k: usize = 0;
    while k < m
        invariant
            k <= m,
            m == pat.len(),
            i + m <= t.len(),
            u == t@.skip(i as int),
            forall|q: int| 0 <= q < k ==> t@[i + q] == pat@[q],
        decreases m - k,
    {
        if t[i + k] != pat[k] {
            proof {
                assert(u.take(m as int)[k as int] == t@[i + k]);
            }
            return None;
        }
        k += 1;
    }
    proof {
        assert(u.take(m as int) =~= pat@);
        assert(u.skip(m as int) =~= t@.skip(i as int + m as int));
    }
    Some(i + m)
}

/// Parses a canonical decimal number.
fn e_num(t: &Vec<char>, i: usize) -> (r: Option<(u64, usize)>)
    requires
        i <= t.len(),
    ensures
        match r {
            Some((v, j)) => i <= j <= t.len() && p_num(t@.skip(i as int)) == Some(
                (v, t@.skip(j as int)),
            ),
            None => p_num(t@.skip(i as int)) is None,
        },
{
    let ghost u = t@.skip(i as int);
    proof {
        lemma_digit_count(u);
    }
    let n = t.len();
    let mut j: usize = i;
    while j < n && 48 <= t[j] as u32 && t[j] as u32 <= 57
        invariant
            i <= j <= n,
            n == t.len(),
            u == t@.skip(i as int),
            forall|q: int| i <= q < j ==> is_digit(t@[q]),
        decreases n - j,
    {
        j += 1;
    }
    proof {
        let dc = digit_count(u);
        assert(forall|q: int| 0 <= q < j - i ==> u[q] == t@[i + q] && is_digit(u[q]));
        if dc < j - i {
            assert(is_digit(u[dc]));
            assert(false);
        }
        if dc > j - i {
            if j < n {
                assert(is_digit(u[j - i]));
                assert(!is_digit(t@[j as int]));
                assert(false);
            } else {
                assert(dc > u.len());
                assert(false);
            }
        }
        assert(dc == j - i);
    }
    if j == i {
        return None;
    }
    if t[i] == '0' && j - i > 1 {
        proof {
            assert(u[0] == t@[i as int]);
        }
        return None;
    }
    proof {
        assert(u[0] == t@[i as int]);
    }
    let ghost k = (j - i) as int;
    let mut acc: u64 = 0;
    let mut m: usize = i;
    while m < j
        invariant
            i <= m <= j <= t.len(),
            u == t@.skip(i as int),
            forall|q: int| 0 <= q < k ==> is_digit(u[q]),
            k == j - i,
            k >= 1,
            digit_count(u) == k,
            acc == val_of(u.take((m - i) as int)),
        decreases j - m,
    {
        let c = t[m];
        proof {
            assert(u[(m - i) as int] == t@[m as int]);
            assert(is_digit(u[(m - i) as int]));
        }
        let d = (c as u32 - 48) as u64;
        let step = match acc.checked_mul(10) {
            Some(x) => x.checked_add(d),
            None => None,
        };
        proof {
            assert(u.take((m - i) as int + 1).drop_last() =~= u.take((m - i) as int));
            assert(u.take((m - i) as int + 1).last() == u[(m - i) as int]);
            assert(val_of(u.take((m - i) as int + 1)) == acc * 10 + digit_val(u[(m - i) as int]));
        }
        match step {
            Some(v) => {
                acc = v;
            },
            None => {
                proof {
                    assert(d == digit_val(u[(m - i) as int]));
                    assert(acc * 10 + d > u64::MAX);
                    assert(val_of(u.take((m - i) as int + 1)) > u64::MAX);
                    lemma_val_monotone(u, (m - i) as int + 1, k);
                    assert(val_of(u.take(k)) > u64::MAX);
                }
                return None;
            },
        }
        m += 1;
    }
    proof {
        assert(acc == val_of(u.take(k)));
        assert(u.skip(k) =~= t@.skip(j as int));
    }
    Some((acc, j))
}

/// Parses the body of a quoted string, after the opening quote.
fn e_str_body(t: &Vec<char>, i: usize) -> (r: Option<(String, usize)>)
    requires
        i <= t.len(),
    ensures
        match r {
            Some((s, j)) => i <= j <= t.len() && p_str_body(t@.skip(i as int)) == Some(
                (s@, t@.skip(j as int)),
            ),
            None => p_str_body(t@.skip(i as int)) is None,
        },
    decreases t.len() - i,
{
    let ghost u = t@.skip(i as int);
    if i == t.len() {
        return None;
    }
    let c = t[i];
    proof {
        assert(u[0] == t@[i as int]);
    }
    if c == '"' {
        proof {
            assert(u.skip(1) =~= t@.skip(i as int + 1));
        }
        return Some((String::new(), i + 1));
    }
    if c == '\\' {
        if i + 1 == t.len() {
            return None;
        }
        let c1 = t[i + 1];
        proof {
            assert(u[1] == t@[i as int + 1]);
        }
        if c1 == '"' || c1 == '\\' {
            proof {
                assert(u.skip(2) =~= t@.skip(i as int + 2));
            }
            match e_str_body(t, i + 2) {
                Some((rest, j)) => {
                    let mut s = String::new();
                    push_char(&mut s, c1);
                    s.append(rest.as_str());
                    proof {
                        assert(s@ =~= seq![u[1]] + rest@);
                    }
                    return Some((s, j));
                },
                None => {
                    return None;
                },
            }
        }
        if c1 == 'u' && t.len() - i > 5 {
            let c2 = t[i + 2];
            let c3 = t[i + 3];
            let c4 = t[i + 4];
            let c5 = t[i + 5];
            proof {
                assert(u[2] == t@[i as int + 2]);
                assert(u[3] == t@[i as int + 3]);
                assert(u[4] == t@[i as int + 4]);
                assert(u[5] == t@[i as int + 5]);
            }
            let v4 = c4 as u32;
            let v5 = c5 as u32;
            let hex4 = 48 <= v4 && v4 <= 57 || 97 <= v4 && v4 <= 102;
            let hex5 = 48 <= v5 && v5 <= 57 || 97 <= v5 && v5 <= 102;
            if c2 == '0' && c3 == '0' && hex4 && hex5 {
                let d4 = if v4 <= 57 {
                    (v4 - 48) as u64
                } else {
                    (v4 - 87) as u64
                };
                let d5 = if v5 <= 57 {
                    (v5 - 48) as u64
                } else {
                    (v5 - 87) as u64
                };
                proof {
                    assert(d4 == hex_val(u[4]));
                    assert(d5 == hex_val(u[5]));
                    assert(u.skip(6) =~= t@.skip(i as int + 6));
                }
                let ch = ((d4 * 16 + d5) as u8) as char;
                match e_str_body(t, i + 6) {
                    Some((rest, j)) => {
                        let mut s = String::new();
                        push_char(&mut s, ch);
                        s.append(rest.as_str());
                        proof {
                            assert(s@ =~= seq![
                                (((hex_val(u[4]) * 16 + hex_val(u[5])) as u8) as char),
                            ] + rest@);
                        }
                        return Some((s, j));
                    },
                    None => {
                        return None;
                    },
                }
            } else {
                return None;
            }
        }
        return None;
    }
    if (c as u32) < 32 {
        return None;
    }
    proof {
        assert(u.skip(1) =~= t@.skip(i as int + 1));
    }
    match e_str_body(t, i + 1) {
        Some((rest, j)) => {
            let mut s = String::new();
            push_char(&mut s, c);
            s.append(rest.as_str());
            proof {
                assert(s@ =~= seq![u[0]] + rest@);
            }
            Some((s, j))
        },
        None => None,
    }
}

/// Parses a quoted string.
fn e_str(t: &Vec<char>, i: usize) -> (r: Option<(String, usize)>)
    requires
        i <= t.len(),
    ensures
        match r {
            Some((s, j)) => i <= j <= t.len() && p_str(t@.skip(i as int)) == Some(
                (s@, t@.skip(j as int)),
            ),
            None => p_str(t@.skip(i as int)) is None,
        },
{
    let ghost u = t@.skip(i as int);
    if i < t.len() && t[i] == '"' {
        proof {
            assert(u[0] == t@[i as int]);
            assert(u.skip(1) =~= t@.skip(i as int + 1));
        }
        e_str_body(t, i + 1)
    } else {
        proof {
            if u.len() > 0 {
                assert(u[0] == t@[i as int]);
            }
        }
        None
    }
}

/// Parses a boolean.
fn e_bool(t: &Vec<char>, i: usize) -> (r: Option<(bool, usize)>)
    requires
        i <= t.len(),
    ensures
        match r {
            Some((b, j)) => i <= j <= t.len() && p_bool(t@.skip(i as int)) == Some(
                (b, t@.skip(j as int)),
            ),
            None => p_bool(t@.skip(i as int)) is None,
        },
{
    let pat_true = vec!['t', 'r', 'u', 'e'];
    let pat_false = vec!['f', 'a', 'l', 's', 'e'];
    proof {
        assert(pat_true@ =~= enc_bool(true));
        assert(pat_false@ =~= enc_bool(false));
    }
    match e_lit(t, i, &pat_true) {
        Some(j) => Some((true, j)),
        None => match e_lit(t, i, &pat_false) {
            Some(j) => Some((false, j)),
            None => None,
        },
    }
}

/// Parses a task record.
fn e_task(t: &Vec<char>, i: usize) -> (r: Option<(Task, usize)>)
    requires
        i <= t.len(),
    ensures
        match r {
            Some((task, j)) => i <= j <= t.len() && p_task(t@.skip(i as int)) == Some(
                (task@, t@.skip(j as int)),
            ),
            None => p_task(t@.skip(i as int)) is None,
        },
{
    let pat_id = vec!['{', '"', 'i', 'd', '"', ':'];
    proof {
        assert(pat_id@ =~= lit_id());
    }
    let j1 = match e_lit(t, i, &pat_id) {
        Some(j) => j,
        None => {
            return None;
        },
    };
    let (id, j2) = match e_num(t, j1) {
        Some(x) => x,
        None => {
            return None;
        },
    };
    let pat_name = vec![',', '"', 'n', 'a', 'm', 'e', '"', ':'];
    proof {
        assert(pat_name@ =~= lit_name());
    }
    let j3 = match e_lit(t, j2, &pat_name) {
        Some(j) => j,
        None => {
            return None;
        },
    };
    let (name, j4) = match e_str(t, j3) {
        Some(x) => x,
        None => {
            return None;
        },
    };
    let pat_completed = vec![',', '"', 'c', 'o', 'm', 'p', 'l', 'e', 't', 'e', 'd', '"', ':'];
    proof {
        assert(pat_completed@ =~= lit_completed());
    }
    let j5 = match e_lit(t, j4, &pat_completed) {
        Some(j) => j,
        None => {
            return None;
        },
    };
    let (completed, j6) = match e_bool(t, j5) {
        Some(x) => x,
        None => {
            return None;
        },
    };
    let pat_close = vec!['}'];
    proof {
        assert(pat_close@ =~= seq!['}']);
    }
    let j7 = match e_lit(t, j6, &pat_close) {
        Some(j) => j,
        None => {
            return None;
        },
    };
    Some((Task { id, name, completed }, j7))
}

/// Parses a user record.
fn e_user(t: &Vec<char>, i: usize) -> (r: Option<(User, usize)>)
    requires
        i <= t.len(),
    ensures
        match r {
            Some((user, j)) => i <= j <= t.len() && p_user(t@.skip(i as int)) == Some(
                (user@, t@.skip(j as int)),
            ),
            None => p_user(t@.skip(i as int)) is None,
        },
{
    let pat_id = vec!['{', '"', 'i', 'd', '"', ':'];
    proof {
        assert(pat_id@ =~= lit_id());
    }
    let j1 = match e_lit(t, i, &pat_id) {
        Some(j) => j,
        None => {
            return None;
        },
    };
    let (id, j2) = match e_num(t, j1) {
        Some(x) => x,
        None => {
            return None;
        },
    };
    let pat_username = vec![',', '"', 'u', 's', 'e', 'r', 'n', 'a', 'm', 'e', '"', ':'];
    proof {
        assert(pat_username@ =~= lit_username());
    }
    let j3 = match e_lit(t, j2, &pat_username) {
        Some(j) => j,
        None => {
            return None;
        },
    };
    let (username, j4) = match e_str(t, j3) {
        Some(x) => x,
        None => {
            return None;
        },
    };
    let pat_password = vec![',', '"', 'p', 'a', 's', 's', 'w', 'o', 'r', 'd', '"', ':'];
    proof {
        assert(pat_password@ =~= lit_password());
    }
    let j5 = match e_lit(t, j4, &pat_password) {
        Some(j) => j,
        None => {
            return None;
        },
    };
    let (password, j6) = match e_str(t, j5) {
        Some(x) => x,
        None => {
            return None;
        },
    };
    let pat_close = vec!['}'];
    proof {
        assert(pat_close@ =~= seq!['}']);
    }
    let j7 = match e_lit(t, j6, &pat_close) {
        Some(j) => j,
        None => {
            return None;
        },
    };
    Some((User { id, username, password }, j7))
}

/// Parses one task table entry.
fn e_task_entry(t: &Vec<char>, i: usize) -> (r: Option<(Task, usize)>)
    requires
        i <= t.len(),
    ensures
        match r {
            Some((task, j)) => i < j <= t.len() && p_task_entry(t@.skip(i as int)) == Some(
                (task@, t@.skip(j as int)),
            ),
            None => p_task_entry(t@.skip(i as int)) is None,
        },
{
    let ghost u = t@.skip(i as int);
    if i == t.len() {
        return None;
    }
    proof {
        assert(u[0] == t@[i as int]);
    }
    if t[i] != '"' {
        return None;
    }
    proof {
        assert(u.skip(1) =~= t@.skip(i as int + 1));
    }
    let (k, j1) = match e_num(t, i + 1) {
        Some(x) => x,
        None => {
            return None;
        },
    };
    let pat_sep = vec!['"', ':'];
    proof {
        assert(pat_sep@ =~= seq!['"', ':']);
    }
    let j2 = match e_lit(t, j1, &pat_sep) {
        Some(j) => j,
        None => {
            return None;
        },
    };
    let (task, j3) = match e_task(t, j2) {
        Some(x) => x,
        None => {
            return None;
        },
    };
    if task.id == k {
        Some((task, j3))
    } else {
        None
    }
}

/// Parses one user table entry.
fn e_user_entry(t: &Vec<char>, i: usize) -> (r: Option<(User, usize)>)
    requires
        i <= t.len(),
    ensures
        match r {
            Some((user, j)) => i < j <= t.len() && p_user_entry(t@.skip(i as int)) == Some(
                (user@, t@.skip(j as int)),
            ),
            None => p_user_entry(t@.skip(i as int)) is None,
        },
{
    let ghost u = t@.skip(i as int);
    if i == t.len() {
        return None;
    }
    proof {
        assert(u[0] == t@[i as int]);
    }
    if t[i] != '"' {
        return None;
    }
    proof {
        assert(u.skip(1) =~= t@.skip(i as int + 1));
    }
    let (k, j1) = match e_num(t, i + 1) {
        Some(x) => x,
        None => {
            return None;
        },
    };
    let pat_sep = vec!['"', ':'];
    proof {
        assert(pat_sep@ =~= seq!['"', ':']);
    }
    let j2 = match e_lit(t, j1, &pat_sep) {
        Some(j) => j,
        None => {
            return None;
        },
    };
    let (user, j3) = match e_user(t, j2) {
        Some(x) => x,
        None => {
            return None;
        },
    };
    if user.id == k {
        Some((user, j3))
    } else {
        None
    }
}

/// Parses the comma-led continuation of the tasks table.
fn e_task_more(t: &Vec<char>, i: usize) -> (r: Option<(Vec<Task>, usize)>)
    requires
        i <= t.len(),
    ensures
        match r {
            Some((ts, j)) => i <= j <= t.len() && p_task_more(t@.skip(i as int)) == Some(
                (ts@.map_values(|x: Task| x@), t@.skip(j as int)),
            ),
            None => p_task_more(t@.skip(i as int)) is None,
        },
    decreases t.len() - i,
{
    let ghost u = t@.skip(i as int);
    if i == t.len() {
        return None;
    }
    proof {
        assert(u[0] == t@[i as int]);
    }
    if t[i] == '}' {
        let empty: Vec<Task> = Vec::new();
        proof {
            assert(u.skip(1) =~= t@.skip(i as int + 1));
            assert(empty@.map_values(|x: Task| x@) =~= Seq::<TaskV>::empty());
        }
        return Some((empty, i + 1));
    }
    if t[i] == ',' {
        proof {
            assert(u.skip(1) =~= t@.skip(i as int + 1));
        }
        let (task, j1) = match e_task_entry(t, i + 1) {
            Some(x) => x,
            None => {
                return None;
            },
        };
        proof {
            assert(t@.skip(j1 as int).len() < u.len());
        }
        let (mut rest, j2) = match e_task_more(t, j1) {
            Some(x) => x,
            None => {
                return None;
            },
        };
        let ghost rv = rest@;
        rest.insert(0, task);
        proof {
            assert(rest@.map_values(|x: Task| x@) =~= seq![task@] + rv.map_values(
                |x: Task| x@,
            ));
        }
        return Some((rest, j2));
    }
    None
}

/// Parses the comma-led continuation of the users table.
fn e_user_more(t: &Vec<char>, i: usize) -> (r: Option<(Vec<User>, usize)>)
    requires
        i <= t.len(),
    ensures
        match r {
            Some((us, j)) => i <= j <= t.len() && p_user_more(t@.skip(i as int)) == Some(
                (us@.map_values(|x: User| x@), t@.skip(j as int)),
            ),
            None => p_user_more(t@.skip(i as int)) is None,
        },
    decreases t.len() - i,
{
    let ghost u = t@.skip(i as int);
    if i == t.len() {
        return None;
    }
    proof {
        assert(u[0] == t@[i as int]);
    }
    if t[i] == '}' {
        let empty: Vec<User> = Vec::new();
        proof {
            assert(u.skip(1) =~= t@.skip(i as int + 1));
            assert(empty@.map_values(|x: User| x@) =~= Seq::<UserV>::empty());
        }
        return Some((empty, i + 1));
    }
    if t[i] == ',' {
        proof {
            assert(u.skip(1) =~= t@.skip(i as int + 1));
        }
        let (user, j1) = match e_user_entry(t, i + 1) {
            Some(x) => x,
            None => {
                return None;
            },
        };
        proof {
            assert(t@.skip(j1 as int).len() < u.len());
        }
        let (mut rest, j2) = match e_user_more(t, j1) {
            Some(x) => x,
            None => {
                return None;
            },
        };
        let ghost rv = rest@;
        rest.insert(0, user);
        proof {
            assert(rest@.map_values(|x: User| x@) =~= seq![user@] + rv.map_values(
                |x: User| x@,
            ));
        }
        return Some((rest, j2));
    }
    None
}

/// Parses the whole tasks table.
fn e_tasks(t: &Vec<char>, i: usize) -> (r: Option<(Vec<Task>, usize)>)
    requires
        i <= t.len(),
    ensures
        match r {
            Some((ts, j)) => i <= j <= t.len() && p_tasks(t@.skip(i as int)) == Some(
                (ts@.map_values(|x: Task| x@), t@.skip(j as int)),
            ),
            None => p_tasks(t@.skip(i as int)) is None,
        },
{
    let ghost u = t@.skip(i as int);
    if i == t.len() {
        return None;
    }
    proof {
        assert(u[0] == t@[i as int]);
        if u.len() >= 2 {
            assert(u[1] == t@[i as int + 1]);
        }
    }
    if t[i] != '{' {
        return None;
    }
    if t.len() - i >= 2 && t[i + 1] == '}' {
        let empty: Vec<Task> = Vec::new();
        proof {
            assert(u.skip(2) =~= t@.skip(i as int + 2));
            assert(empty@.map_values(|x: Task| x@) =~= Seq::<TaskV>::empty());
        }
        return Some((empty, i + 2));
    }
    proof {
        assert(u.skip(1) =~= t@.skip(i as int + 1));
    }
    let (task, j1) = match e_task_entry(t, i + 1) {
        Some(x) => x,
        None => {
            return None;
        },
    };
    let (mut rest, j2) = match e_task_more(t, j1) {
        Some(x) => x,
        None => {
            return None;
        },
    };
    let ghost rv = rest@;
    rest.insert(0, task);
    proof {
        assert(rest@.map_values(|x: Task| x@) =~= seq![task@] + rv.map_values(|x: Task| x@));
    }
    Some((rest, j2))
}

/// Parses the whole users table.
fn e_users(t: &Vec<char>, i: usize) -> (r: Option<(Vec<User>, usize)>)
    requires
        i <= t.len(),
    ensures
        match r {
            Some((us, j)) => i <= j <= t.len() && p_users(t@.skip(i as int)) == Some(
                (us@.map_values(|x: User| x@), t@.skip(j as int)),
            ),
            None => p_users(t@.skip(i as int)) is None,
        },
{
    let ghost u = t@.skip(i as int);
    if i == t.len() {
        return None;
    }
    proof {
        assert(u[0] == t@[i as int]);
        if u.len() >= 2 {
            assert(u[1] == t@[i as int + 1]);
        }
    }
    if t[i] != '{' {
        return None;
    }
    if t.len() - i >= 2 && t[i + 1] == '}' {
        let empty: Vec<User> = Vec::new();
        proof {
            assert(u.skip(2) =~= t@.skip(i as int + 2));
            assert(empty@.map_values(|x: User| x@) =~= Seq::<UserV>::empty());
        }
        return Some((empty, i + 2));
    }
    proof {
        assert(u.skip(1) =~= t@.skip(i as int + 1));
    }
    let (user, j1) = match e_user_entry(t, i + 1) {
        Some(x) => x,
        None => {
            return None;
        },
    };
    let (mut rest, j2) = match e_user_more(t, j1) {
        Some(x) => x,
        None => {
            return None;
        },
    };
    let ghost rv = rest@;
    rest.insert(0, user);
    proof {
        assert(rest@.map_values(|x: User| x@) =~= seq![user@] + rv.map_values(|x: User| x@));
    }
    Some((rest, j2))
}

/// Parses a whole snapshot document into the raw tables in document order;
/// anything but a canonical document is rejected.
pub fn parse_db(text: &str) -> (r: Option<(Vec<Task>, Vec<User>)>)
    ensures
        match r {
            Some(p) => p_db_raw(text@) == Some(
                (p.0@.map_values(|x: Task| x@), p.1@.map_values(|x: User| x@)),
            ),
            None => p_db_raw(text@) is None,
        },
{
    let t = chars_of(text);
    proof {
        assert(t@.skip(0) =~= text@);
    }
    let pat_tasks = vec!['{', '"', 't', 'a', 's', 'k', 's', '"', ':'];
    proof {
        assert(pat_tasks@ =~= lit_tasks());
    }
    let j1 = match e_lit(&t, 0, &pat_tasks) {
        Some(j) => j,
        None => {
            return None;
        },
    };
    let (tasks, j2) = match e_tasks(&t, j1) {
        Some(x) => x,
        None => {
            return None;
        },
    };
    let pat_users = vec![',', '"', 'u', 's', 'e', 'r', 's', '"', ':'];
    proof {
        assert(pat_users@ =~= lit_users());
    }
    let j3 = match e_lit(&t, j2, &pat_users) {
        Some(j) => j,
        None => {
            return None;
        },
    };
    let (users, j4) = match e_users(&t, j3) {
        Some(x) => x,
        None => {
            return None;
        },
    };
    let ghost tail = t@.skip(j4 as int);
    if t.len() - j4 == 1 && t[j4] == '}' {
        proof {
            assert(tail[0] == t@[j4 as int]);
        }
        Some((tasks, users))
    } else {
        proof {
            if tail.len() == 1 {
                assert(tail[0] == t@[j4 as int]);
            }
        }
        None
    }
}

} // verus!
