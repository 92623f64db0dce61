//! The store's laws: how insert, update, delete and lookup interact, proved
//! once and for all over the table model that the methods' contracts use.

use vstd::prelude::*;

use crate::auth::{
    bcrypt_key_stream, login_outcome_of, sound_hash_for, LoginOutcome,
};
use crate::store::{
    find_by_username, first_ix, first_name_ix, key_distinct, lemma_first_ix, lemma_first_name_ix,
    put_all, tbl_get, tbl_put, tbl_remove, user_key, UserV,
};

verus! {

/// After associating `x` with its key, getting that key returns `x`
/// unchanged. This covers insert and update alike — updating an absent key
/// creates the association.
pub proof fn lemma_put_then_get<T>(s: Seq<T>, key: spec_fn(T) -> u64, x: T)
    requires
        key_distinct(s, key),
    ensures
        tbl_get(tbl_put(s, key, x), key, key(x)) == Some(x),
{
    let id = key(x);
    lemma_first_ix(s, key, id);
    let k = first_ix(s, key, id);
    let r = tbl_remove(s, key, id);
    assert forall|j: int| 0 <= j < r.len() implies key(r[j]) != id by {
        if k < s.len() {
            if j < k {
                assert(r[j] == s[j]);
            } else {
                assert(r[j] == s[j + 1]);
                assert(key(s[k]) == id);
            }
        }
    }
    lemma_first_ix(r.push(x), key, id);
    let k2 = first_ix(r.push(x), key, id);
    assert(key(r.push(x)[r.len() as int]) == id);
    if k2 < r.len() as int {
        assert(key(r.push(x)[k2]) != id);
        assert(false);
    }
    if k2 > r.len() as int {
        assert(key(r.push(x)[r.len() as int]) != id);
        assert(false);
    }
}

/// Appending an element with a different key leaves a lookup unchanged.
pub proof fn lemma_get_push_other<T>(s: Seq<T>, key: spec_fn(T) -> u64, x: T, id: u64)
    requires
        key(x) != id,
    ensures
        tbl_get(s.push(x), key, id) == tbl_get(s, key, id),
    decreases s.len(),
{
    if s.len() == 0 {
        assert(s.push(x)[0] == x);
        assert(s.push(x).skip(1) =~= Seq::<T>::empty());
        assert(tbl_get(s.push(x).skip(1), key, id) == None::<T>);
        assert(tbl_get(s, key, id) == None::<T>);
    } else {
        assert(s.push(x)[0] == s[0]);
        if key(s[0]) != id {
            assert(s.push(x).skip(1) =~= s.skip(1).push(x));
            lemma_get_push_other(s.skip(1), key, x, id);
        }
    }
}

/// Removing one key leaves lookups of every other key unchanged.
pub proof fn lemma_remove_preserves_others<T>(s: Seq<T>, key: spec_fn(T) -> u64, id: u64, id2: u64)
    requires
        id2 != id,
    ensures
        tbl_get(tbl_remove(s, key, id), key, id2) == tbl_get(s, key, id2),
    decreases s.len(),
{
    if s.len() == 0 {
    } else if key(s[0]) == id {
        assert(key(s[0]) != id2);
    } else {
        lemma_remove_preserves_others(s.skip(1), key, id, id2);
        let t = seq![s[0]] + tbl_remove(s.skip(1), key, id);
        assert(t[0] == s[0]);
        assert(t.skip(1) =~= tbl_remove(s.skip(1), key, id));
    }
}

/// Associating one key leaves lookups of every other key unchanged.
pub proof fn lemma_put_preserves_others<T>(s: Seq<T>, key: spec_fn(T) -> u64, x: T, id: u64)
    requires
        id != key(x),
    ensures
        tbl_get(tbl_put(s, key, x), key, id) == tbl_get(s, key, id),
{
    lemma_remove_preserves_others(s, key, key(x), id);
    lemma_get_push_other(tbl_remove(s, key, key(x)), key, x, id);
}

/// After deleting a key, getting it returns absence.
pub proof fn lemma_remove_then_get<T>(s: Seq<T>, key: spec_fn(T) -> u64, id: u64)
    requires
        key_distinct(s, key),
    ensures
        tbl_get(tbl_remove(s, key, id), key, id) == None::<T>,
{
    lemma_first_ix(s, key, id);
    let k = first_ix(s, key, id);
    let r = tbl_remove(s, key, id);
    assert forall|j: int| 0 <= j < r.len() implies key(r[j]) != id by {
        if k < s.len() {
            if j < k {
                assert(r[j] == s[j]);
            } else {
                assert(r[j] == s[j + 1]);
                assert(key(s[k]) == id);
            }
        }
    }
    lemma_first_ix(r, key, id);
    if first_ix(r, key, id) < r.len() {
        assert(false);
    }
}

/// Deleting an absent key changes nothing: a no-op, not an error.
pub proof fn lemma_remove_absent_noop<T>(s: Seq<T>, key: spec_fn(T) -> u64, id: u64)
    requires
        tbl_get(s, key, id) is None,
    ensures
        tbl_remove(s, key, id) == s,
{
    lemma_first_ix(s, key, id);
}

/// With distinct keys, a table enumerates each live association exactly
/// once: every element is retrievable under its key, and every retrievable
/// key points at an element. The sequence `get_all` hands out therefore has
/// exactly one element per live association.
pub proof fn lemma_enumeration_exact<T>(s: Seq<T>, key: spec_fn(T) -> u64)
    requires
        key_distinct(s, key),
    ensures
        forall|i: int| 0 <= i < s.len() ==> tbl_get(s, key, key(#[trigger] s[i])) == Some(s[i]),
        forall|id: u64| tbl_get(s, key, id) is Some ==> exists|i: int|
            0 <= i < s.len() && key(#[trigger] s[i]) == id,
{
    assert forall|i: int| 0 <= i < s.len() implies tbl_get(s, key, key(#[trigger] s[i])) == Some(
        s[i],
    ) by {
        let id = key(s[i]);
        lemma_first_ix(s, key, id);
        let k = first_ix(s, key, id);
        if k > i {
            assert(key(s[i]) != id);
            assert(false);
        }
        assert(key(s[k]) == id);
        if k < i {
            assert(false);
        }
    }
    assert forall|id: u64| tbl_get(s, key, id) is Some implies exists|i: int|
        0 <= i < s.len() && key(#[trigger] s[i]) == id by {
        lemma_first_ix(s, key, id);
        let k = first_ix(s, key, id);
        assert(k < s.len() && key(s[k]) == id);
    }
}

/// Folding records whose keys are pairwise distinct and all fresh into a
/// table appends them in order: no record displaces another. In particular,
/// filling the empty store with distinct-id records, one serialized
/// mutation at a time, leaves exactly one entity per record.
pub proof fn lemma_put_all_fresh<T>(s: Seq<T>, key: spec_fn(T) -> u64, xs: Seq<T>)
    requires
        key_distinct(s, key),
        key_distinct(xs, key),
        forall|a: int, b: int|
            0 <= a < s.len() && 0 <= b < xs.len() ==> key(s[a]) != key(xs[b]),
    ensures
        put_all(s, key, xs) == s + xs,
        key_distinct(s + xs, key),
    decreases xs.len(),
{
    if xs.len() == 0 {
        assert(s + xs =~= s);
    } else {
        let x = xs[0];
        lemma_first_ix(s, key, key(x));
        if first_ix(s, key, key(x)) < s.len() {
            assert(key(s[first_ix(s, key, key(x))]) == key(x));
            assert(false);
        }
        assert(tbl_put(s, key, x) == s.push(x));
        let s1 = s.push(x);
        let xs1 = xs.skip(1);
        assert(key_distinct(s1, key));
        assert(key_distinct(xs1, key));
        assert(forall|a: int, b: int|
            0 <= a < s1.len() && 0 <= b < xs1.len() ==> key(s1[a]) != key(xs1[b]));
        lemma_put_all_fresh(s1, key, xs1);
        assert(s.push(x) + xs.skip(1) =~= s + xs);
    }
}

/// Registering a username that no current user carries makes it findable:
/// the lookup that login performs afterwards returns exactly the new user
/// record.
pub proof fn lemma_register_then_lookup(s: Seq<UserV>, u: UserV)
    requires
        forall|i: int| 0 <= i < s.len() ==> (#[trigger] s[i]).username != u.username,
    ensures
        find_by_username(tbl_put(s, user_key(), u), u.username) == Some(u),
    decreases s.len(),
{
    let r = tbl_remove(s, user_key(), u.id);
    lemma_first_ix(s, user_key(), u.id);
    let k = first_ix(s, user_key(), u.id);
    assert forall|j: int| 0 <= j < r.len() implies (#[trigger] r[j]).username != u.username by {
        if k < s.len() {
            if j < k {
                assert(r[j] == s[j]);
            } else {
                assert(r[j] == s[j + 1]);
            }
        }
    }
    lemma_find_push_self(r, u);
}

/// A username that neither the table nor the new user carries stays
/// unfindable after the new user is associated.
proof fn lemma_put_keeps_name_absent(s: Seq<UserV>, u: UserV, other: Seq<char>)
    requires
        forall|i: int| 0 <= i < s.len() ==> (#[trigger] s[i]).username != other,
        u.username != other,
    ensures
        find_by_username(tbl_put(s, user_key(), u), other) is None,
{
    let r = tbl_remove(s, user_key(), u.id);
    lemma_first_ix(s, user_key(), u.id);
    let k = first_ix(s, user_key(), u.id);
    assert forall|j: int| 0 <= j < r.len() implies (#[trigger] r[j]).username != other by {
        if k < s.len() {
            if j < k {
                assert(r[j] == s[j]);
            } else {
                assert(r[j] == s[j + 1]);
            }
        }
    }
    let t = r.push(u);
    assert(forall|j: int| 0 <= j < t.len() ==> (#[trigger] t[j]).username != other);
    lemma_first_name_ix(t, other);
    if first_name_ix(t, other) < t.len() {
        assert(t[first_name_ix(t, other)].username == other);
        assert(false);
    }
}

/// The login state machine after a registration on a fresh username: the
/// registered password is accepted; a password hashed under a different
/// key stream (bcrypt keys on the 72-byte cyclic extension of the UTF-8
/// bytes, truncated at 72 with a NUL appended when shorter) is rejected as
/// a wrong password; a username that nobody carries is rejected as
/// unknown. The three outcomes stay distinguishable.
pub proof fn lemma_register_then_login(
    s: Seq<UserV>,
    u: UserV,
    password: Seq<char>,
    wrong: Seq<char>,
    other: Seq<char>,
)
    requires
        forall|i: int| 0 <= i < s.len() ==> (#[trigger] s[i]).username != u.username,
        sound_hash_for(password, u.password),
    ensures
        login_outcome_of(tbl_put(s, user_key(), u), u.username, password) == LoginOutcome::Success,
        bcrypt_key_stream(vstd::utf8::encode_utf8(wrong)) != bcrypt_key_stream(
            vstd::utf8::encode_utf8(password),
        ) ==> login_outcome_of(tbl_put(s, user_key(), u), u.username, wrong)
            == LoginOutcome::WrongPassword,
        (other != u.username && (forall|i: int|
            0 <= i < s.len() ==> (#[trigger] s[i]).username != other)) ==> login_outcome_of(
            tbl_put(s, user_key(), u),
            other,
            password,
        ) == LoginOutcome::UnknownUser,
{
    lemma_register_then_lookup(s, u);
    if other != u.username && (forall|i: int|
        0 <= i < s.len() ==> (#[trigger] s[i]).username != other) {
        lemma_put_keeps_name_absent(s, u, other);
    }
}

/// Appending a user whose username no earlier element carries makes the
/// lookup by that username return it.
proof fn lemma_find_push_self(s: Seq<UserV>, u: UserV)
    requires
        forall|i: int| 0 <= i < s.len() ==> (#[trigger] s[i]).username != u.username,
    ensures
        find_by_username(s.push(u), u.username) == Some(u),
    decreases s.len(),
{
    if s.len() == 0 {
        assert(s.push(u)[0] == u);
    } else {
        assert(s.push(u)[0] == s[0]);
        assert(s.push(u).skip(1) =~= s.skip(1).push(u));
        lemma_find_push_self(s.skip(1), u);
    }
}

} // verus!
