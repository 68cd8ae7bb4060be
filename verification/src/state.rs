//! Process-local application state as a small key-value store.  Loading it
//! from disk and saving it back happen outside the library.

use vstd::prelude::*;

verus! {

/// The value stored under a key, scanning from the front.
pub open spec fn state_find(s: Seq<(String, String)>, k: Seq<char>) -> Option<Seq<char>>
    decreases s.len(),
{
    if s.len() == 0 {
        None
    } else if s[0].0@ == k {
        Some(s[0].1@)
    } else {
        state_find(s.drop_first(), k)
    }
}

/// Updating the first entry carrying a key changes that key's value alone.
proof fn lemma_state_find_update(s: Seq<(String, String)>, i: int, p: (String, String), k: Seq<
    char,
>)
    requires
        0 <= i < s.len(),
        s[i].0@ == p.0@,
        forall|j: int| 0 <= j < i ==> (#[trigger] s[j]).0@ != p.0@,
    ensures
        k == p.0@ ==> state_find(s.update(i, p), k) == Some(p.1@),
        k != p.0@ ==> state_find(s.update(i, p), k) == state_find(s, k),
    decreases i,
{
    if i == 0 {
        assert(s.update(0, p)[0] == p);
        assert(s.update(0, p).drop_first() =~= s.drop_first());
    } else {
        assert(s.update(i, p)[0] == s[0]);
        assert(s.update(i, p).drop_first() =~= s.drop_first().update(i - 1, p));
        assert(forall|j: int|
            0 <= j < i - 1 ==> (#[trigger] s.drop_first()[j]).0@ != p.0@);
        assert(s.drop_first()[i - 1] == s[i]);
        lemma_state_find_update(s.drop_first(), i - 1, p, k);
    }
}

/// Appending an entry with a fresh key makes it found and changes nothing
/// else.
proof fn lemma_state_find_push(s: Seq<(String, String)>, p: (String, String), k: Seq<char>)
    requires
        forall|j: int| 0 <= j < s.len() ==> (#[trigger] s[j]).0@ != p.0@,
    ensures
        k == p.0@ ==> state_find(s.push(p), k) == Some(p.1@),
        k != p.0@ ==> state_find(s.push(p), k) == state_find(s, k),
    decreases s.len(),
{
    if s.len() > 0 {
        assert(s.push(p)[0] == s[0]);
        assert(s.push(p).drop_first() =~= s.drop_first().push(p));
        assert(forall|j: int|
            0 <= j < s.drop_first().len() ==> (#[trigger] s.drop_first()[j]).0@ != p.0@);
        lemma_state_find_push(s.drop_first(), p, k);
        if s[0].0@ == k {
            assert(state_find(s, k) == Some(s[0].1@));
            assert(state_find(s.push(p), k) == Some(s[0].1@));
        } else {
            assert(state_find(s, k) == state_find(s.drop_first(), k));
            assert(state_find(s.push(p), k) == state_find(s.push(p).drop_first(), k));
            assert(state_find(s.push(p).drop_first(), k) == state_find(
                s.drop_first().push(p),
                k,
            ));
        }
    } else {
        assert(s.push(p)[0] == p);
        assert(s.push(p).drop_first() =~= Seq::<(String, String)>::empty());
    }
}

/// The value stored under a key, where there is one.
pub fn get_state_value(state: &Vec<(String, String)>, key: &str) -> (r: Option<String>)
    ensures
        match r {
            Some(v) => state_find(state@, key@) == Some(v@),
            None => state_find(state@, key@) is None,
        },
{
    let mut i: usize = 0;
    proof {
        assert(state@.skip(0) =~= state@);
    }
    while i < state.len()
        invariant
            i <= state@.len(),
            state_find(state@.skip(i as int), key@) == state_find(state@, key@),
        decreases state@.len() - i,
    {
        let ghost rest = state@.skip(i as int);
        proof {
            assert(rest[0] == state@[i as int]);
            assert(rest.drop_first() =~= state@.skip(i + 1 as int));
        }
        let chars = crate::text::str_chars(state[i].0.as_str());
        let kchars = crate::text::str_chars(key);
        if crate::text::vec_char_eq(&chars, &kchars) {
            return Some(state[i].1.clone());
        }
        i += 1;
    }
    proof {
        assert(state@.skip(state@.len() as int) =~= Seq::<(String, String)>::empty());
    }
    None
}

/// Stores a value under a key: the first entry carrying the key is replaced,
/// or a new entry is appended.
pub fn set_state_value(state: &mut Vec<(String, String)>, key: String, val: String)
    ensures
        state_find(final(state)@, key@) == Some(val@),
        forall|k: Seq<char>| k != key@ ==> state_find(final(state)@, k) == state_find(
            old(state)@,
            k,
        ),
{
    let ghost kv = key@;
    let ghost vv = val@;
    let mut i: usize = 0;
    while i < state.len()
        invariant
            i <= state@.len(),
            *state == *old(state),
            kv == key@,
            vv == val@,
            forall|j: int| 0 <= j < i ==> (#[trigger] state@[j]).0@ != kv,
        decreases state@.len() - i,
    {
        let chars = crate::text::str_chars(state[i].0.as_str());
        let kchars = crate::text::str_chars(key.as_str());
        if crate::text::vec_char_eq(&chars, &kchars) {
            let ghost before = state@;
            let entry = (key.clone(), val.clone());
            proof {
                assert(before[i as int].0@ == kv);
                assert(entry.0@ == kv && entry.1@ == vv);
            }
            state.set(i, entry);
            proof {
                assert forall|k: Seq<char>|
                    (k != kv ==> state_find(state@, k) == state_find(before, k)) && (k == kv
                        ==> state_find(state@, k) == Some(vv)) by {
                    lemma_state_find_update(before, i as int, (state@[i as int]), k);
                }
                lemma_state_find_update(before, i as int, (state@[i as int]), kv);
                assert(state_find(state@, kv) == Some(vv));
            }
            return ;
        }
        i += 1;
    }
    let ghost before = state@;
    proof {
        assert(forall|j: int| 0 <= j < before.len() ==> (#[trigger] before[j]).0@ != kv);
    }
    let entry = (key.clone(), val.clone());
    proof {
        assert(entry.0@ == kv && entry.1@ == vv);
    }
    state.push(entry);
    proof {
        assert forall|k: Seq<char>|
            (k != kv ==> state_find(state@, k) == state_find(before, k)) && (k == kv
                ==> state_find(state@, k) == Some(vv)) by {
            lemma_state_find_push(before, (state@.last()), k);
        }
        lemma_state_find_push(before, (state@.last()), kv);
        assert(state_find(state@, kv) == Some(vv));
    }
}

} // verus!
