//! Ordered stores kept as vectors sorted by an integer key.
//!
//! The engine holds blocks by block index, frames by frame index and frame
//! parts by part index.  All three are vectors sorted strictly by their key,
//! which makes the keys unique and keeps enumeration in key order.

use vstd::prelude::*;

verus! {

/// The keys of `s` are strictly increasing.
pub open spec fn sorted_by<T>(s: Seq<T>, key: spec_fn(T) -> u32) -> bool {
    forall|i: int, j: int| 0 <= i < j < s.len() ==> key(s[i]) < key(s[j])
}

/// Some element of `s` has key `k`.
pub open spec fn has_key<T>(s: Seq<T>, k: u32, key: spec_fn(T) -> u32) -> bool {
    exists|i: int| 0 <= i < s.len() && key(s[i]) == k
}

/// The position of the element of `s` with key `k`, or `s.len()` if none has it.
pub open spec fn index_of_key<T>(s: Seq<T>, k: u32, key: spec_fn(T) -> u32) -> int
    decreases s.len(),
{
    if s.len() == 0 {
        0
    } else if key(s[0]) == k {
        0
    } else {
        1 + index_of_key(s.drop_first(), k, key)
    }
}

/// `s` with `p` inserted in front of the first element with a larger key.
pub open spec fn sorted_insert<T>(s: Seq<T>, p: T, key: spec_fn(T) -> u32) -> Seq<T>
    decreases s.len(),
{
    if s.len() == 0 {
        seq![p]
    } else if key(p) < key(s[0]) {
        seq![p] + s
    } else {
        seq![s[0]] + sorted_insert(s.drop_first(), p, key)
    }
}

/// A scan that stopped at `pos` found the place where `sorted_insert` puts `p`.
pub proof fn lemma_sorted_insert_at<T>(s: Seq<T>, p: T, pos: int, key: spec_fn(T) -> u32)
    requires
        0 <= pos <= s.len(),
        forall|j: int| 0 <= j < pos ==> key(s[j]) < key(p),
        pos < s.len() ==> key(p) < key(s[pos]),
    ensures
        sorted_insert(s, p, key) == s.insert(pos, p),
    decreases s.len(),
{
    if s.len() == 0 {
        assert(sorted_insert(s, p, key) =~= s.insert(0, p));
    } else if key(p) < key(s[0]) {
        assert(pos == 0);
        assert(sorted_insert(s, p, key) =~= s.insert(0, p));
    } else {
        assert(pos > 0);
        lemma_sorted_insert_at(s.drop_first(), p, pos - 1, key);
        assert(sorted_insert(s, p, key) =~= s.insert(pos, p));
    }
}

/// Inserting a fresh key keeps the store sorted, and changes nothing else.
pub proof fn lemma_sorted_insert_keeps_sorted<T>(s: Seq<T>, p: T, pos: int, key: spec_fn(T) -> u32)
    requires
        sorted_by(s, key),
        0 <= pos <= s.len(),
        forall|j: int| 0 <= j < pos ==> key(s[j]) < key(p),
        pos < s.len() ==> key(p) < key(s[pos]),
    ensures
        sorted_by(s.insert(pos, p), key),
        forall|k: u32| has_key(s.insert(pos, p), k, key) <==> (has_key(s, k, key) || k == key(p)),
{
    let t = s.insert(pos, p);
    assert forall|i: int, j: int| 0 <= i < j < t.len() implies key(t[i]) < key(t[j]) by {
        if i < pos && j > pos {
            assert(t[i] == s[i] && t[j] == s[j - 1]);
        }
    };
    assert forall|k: u32| has_key(t, k, key) implies (has_key(s, k, key) || k == key(p)) by {
        let i = choose|i: int| 0 <= i < t.len() && key(t[i]) == k;
        if i < pos {
            assert(s[i] == t[i]);
        } else if i > pos {
            assert(s[i - 1] == t[i]);
        }
    };
    assert forall|k: u32| has_key(s, k, key) || k == key(p) implies has_key(t, k, key) by {
        if has_key(s, k, key) {
            let i = choose|i: int| 0 <= i < s.len() && key(s[i]) == k;
            if i < pos {
                assert(t[i] == s[i]);
            } else {
                assert(t[i + 1] == s[i]);
            }
        } else {
            assert(t[pos] == p);
        }
    };
}

/// Inserting a fresh key into a sorted store keeps it sorted, adds exactly
/// that key, and places the new element somewhere in the result.
pub proof fn lemma_sorted_insert_props<T>(s: Seq<T>, p: T, key: spec_fn(T) -> u32)
    requires
        sorted_by(s, key),
        !has_key(s, key(p), key),
    ensures
        sorted_by(sorted_insert(s, p, key), key),
        forall|k2: u32|
            has_key(sorted_insert(s, p, key), k2, key) <==> (has_key(s, k2, key) || k2 == key(p)),
        exists|i: int|
            0 <= i < sorted_insert(s, p, key).len() && sorted_insert(s, p, key)[i] == p,
        sorted_insert(s, p, key).len() == s.len() + 1,
    decreases s.len(),
{
    let t = sorted_insert(s, p, key);
    if s.len() == 0 {
        assert(t[0] == p);
        assert forall|k2: u32| has_key(t, k2, key) implies (has_key(s, k2, key) || k2 == key(p)) by {
            let i = choose|i: int| 0 <= i < t.len() && key(t[i]) == k2;
            assert(t[i] == p);
        };
    } else if key(p) < key(s[0]) {
        assert(t == seq![p] + s);
        assert(t[0] == p);
        assert forall|i: int, j: int| 0 <= i < j < t.len() implies key(t[i]) < key(t[j]) by {
            if i > 0 {
                assert(t[i] == s[i - 1] && t[j] == s[j - 1]);
            } else {
                assert(t[j] == s[j - 1]);
                if j > 1 {
                    assert(key(s[0]) <= key(s[j - 1]));
                }
            }
        };
        assert forall|k2: u32| has_key(t, k2, key) implies (has_key(s, k2, key) || k2 == key(p)) by {
            let i = choose|i: int| 0 <= i < t.len() && key(t[i]) == k2;
            if i > 0 {
                assert(t[i] == s[i - 1]);
            }
        };
        assert forall|k2: u32| has_key(s, k2, key) implies has_key(t, k2, key) by {
            let i = choose|i: int| 0 <= i < s.len() && key(s[i]) == k2;
            assert(t[i + 1] == s[i]);
        };
    } else {
        assert(key(s[0]) != key(p));
        assert(key(s[0]) < key(p));
        let d = s.drop_first();
        assert(sorted_by(d, key)) by {
            assert(forall|i: int| 0 <= i < d.len() ==> d[i] == s[i + 1]);
        };
        assert(!has_key(d, key(p), key)) by {
            if has_key(d, key(p), key) {
                let i = choose|i: int| 0 <= i < d.len() && key(d[i]) == key(p);
                assert(s[i + 1] == d[i]);
            }
        };
        lemma_sorted_insert_props(d, p, key);
        let u = sorted_insert(d, p, key);
        assert(t == seq![s[0]] + u);
        assert(t[0] == s[0]);
        assert(forall|i: int| 0 <= i < u.len() ==> t[i + 1] == u[i]);
        assert forall|i: int| 0 <= i < u.len() implies key(s[0]) < key(u[i]) by {
            assert(has_key(u, key(u[i]), key));
            if has_key(d, key(u[i]), key) {
                let j = choose|j: int| 0 <= j < d.len() && key(d[j]) == key(u[i]);
                assert(d[j] == s[j + 1]);
                assert(key(s[0]) < key(s[j + 1]));
            }
        };
        assert forall|i: int, j: int| 0 <= i < j < t.len() implies key(t[i]) < key(t[j]) by {
            if i > 0 {
                assert(t[i] == u[i - 1] && t[j] == u[j - 1]);
            } else {
                assert(t[j] == u[j - 1]);
            }
        };
        assert forall|k2: u32| has_key(t, k2, key) implies (has_key(s, k2, key) || k2 == key(p)) by {
            let i = choose|i: int| 0 <= i < t.len() && key(t[i]) == k2;
            if i == 0 {
                assert(key(s[0]) == k2);
            } else {
                assert(t[i] == u[i - 1]);
                assert(has_key(u, k2, key));
                if has_key(d, k2, key) {
                    let j = choose|j: int| 0 <= j < d.len() && key(d[j]) == k2;
                    assert(s[j + 1] == d[j]);
                }
            }
        };
        assert forall|k2: u32| has_key(s, k2, key) implies has_key(t, k2, key) by {
            let i = choose|i: int| 0 <= i < s.len() && key(s[i]) == k2;
            if i == 0 {
                assert(key(t[0]) == k2);
            } else {
                assert(d[i - 1] == s[i]);
                assert(has_key(d, k2, key));
                assert(has_key(u, k2, key));
                let j = choose|j: int| 0 <= j < u.len() && key(u[j]) == k2;
                assert(t[j + 1] == u[j]);
            }
        };
        let w = choose|i: int| 0 <= i < u.len() && u[i] == p;
        assert(t[w + 1] == p);
    }
}

/// Replacing an element by one with the same key keeps the store sorted.
pub proof fn lemma_sorted_update_same_key<T>(s: Seq<T>, p: T, pos: int, key: spec_fn(T) -> u32)
    requires
        sorted_by(s, key),
        0 <= pos < s.len(),
        key(s[pos]) == key(p),
    ensures
        sorted_by(s.update(pos, p), key),
        forall|k: u32| has_key(s.update(pos, p), k, key) <==> has_key(s, k, key),
{
    let t = s.update(pos, p);
    assert forall|k: u32| has_key(t, k, key) implies has_key(s, k, key) by {
        let i = choose|i: int| 0 <= i < t.len() && key(t[i]) == k;
        if i == pos {
            assert(key(s[pos]) == k);
        } else {
            assert(s[i] == t[i]);
        }
    };
    assert forall|k: u32| has_key(s, k, key) implies has_key(t, k, key) by {
        let i = choose|i: int| 0 <= i < s.len() && key(s[i]) == k;
        if i == pos {
            assert(key(t[pos]) == k);
        } else {
            assert(t[i] == s[i]);
        }
    };
}

/// Every key of `s` stands at most once when the keys increase strictly.
pub proof fn lemma_sorted_unique<T>(s: Seq<T>, key: spec_fn(T) -> u32)
    requires
        sorted_by(s, key),
    ensures
        forall|i: int, j: int|
            0 <= i < s.len() && 0 <= j < s.len() && key(s[i]) == key(s[j]) ==> i == j,
{
}

/// Removing an element of a sorted store keeps it sorted and removes
/// exactly that element's key.
pub proof fn lemma_sorted_remove<T>(s: Seq<T>, pos: int, key: spec_fn(T) -> u32)
    requires
        sorted_by(s, key),
        0 <= pos < s.len(),
    ensures
        sorted_by(s.remove(pos), key),
        !has_key(s.remove(pos), key(s[pos]), key),
        forall|k2: u32|
            k2 != key(s[pos]) ==> (has_key(s.remove(pos), k2, key) <==> has_key(s, k2, key)),
{
    let t = s.remove(pos);
    assert forall|i: int, j: int| 0 <= i < j < t.len() implies key(t[i]) < key(t[j]) by {
        let si = if i < pos {
            i
        } else {
            i + 1
        };
        let sj = if j < pos {
            j
        } else {
            j + 1
        };
        assert(t[i] == s[si] && t[j] == s[sj]);
    };
    assert forall|k2: u32| has_key(t, k2, key) implies has_key(s, k2, key) by {
        let i = choose|i: int| 0 <= i < t.len() && key(t[i]) == k2;
        let si = if i < pos {
            i
        } else {
            i + 1
        };
        assert(t[i] == s[si]);
    };
    assert(!has_key(t, key(s[pos]), key)) by {
        if has_key(t, key(s[pos]), key) {
            let i = choose|i: int| 0 <= i < t.len() && key(t[i]) == key(s[pos]);
            let si = if i < pos {
                i
            } else {
                i + 1
            };
            assert(t[i] == s[si]);
            assert(si != pos);
            lemma_sorted_unique(s, key);
        }
    };
    assert forall|k2: u32| k2 != key(s[pos]) && has_key(s, k2, key) implies has_key(t, k2, key) by {
        let i = choose|i: int| 0 <= i < s.len() && key(s[i]) == k2;
        if i < pos {
            assert(t[i] == s[i]);
        } else {
            assert(t[i - 1] == s[i]);
        }
    };
}

/// Keys of a sorted store grow at least as fast as positions do.
pub proof fn lemma_sorted_gap<T>(s: Seq<T>, key: spec_fn(T) -> u32, i: int, j: int)
    requires
        sorted_by(s, key),
        0 <= i <= j < s.len(),
    ensures
        key(s[j]) as int >= key(s[i]) as int + (j - i),
    decreases j - i,
{
    if i < j {
        lemma_sorted_gap(s, key, i, j - 1);
    }
}

/// A sorted store whose keys lie below `n` holds at most `n` elements.
pub proof fn lemma_sorted_len_bound<T>(s: Seq<T>, key: spec_fn(T) -> u32, n: int)
    requires
        n >= 0,
        sorted_by(s, key),
        forall|j: int| 0 <= j < s.len() ==> (key(#[trigger] s[j]) as int) < n,
    ensures
        s.len() <= n,
{
    if s.len() > 0 {
        lemma_sorted_gap(s, key, 0, s.len() - 1);
    }
}

/// Each key of a sorted store is at least the position it stands at.
proof fn lemma_sorted_key_ge_pos<T>(s: Seq<T>, key: spec_fn(T) -> u32, i: int)
    requires
        sorted_by(s, key),
        0 <= i < s.len(),
    ensures
        key(s[i]) as int >= i,
    decreases i,
{
    if i > 0 {
        lemma_sorted_key_ge_pos(s, key, i - 1);
    }
}

/// Each key of a sorted store with keys below `s.len()` is at most its position.
proof fn lemma_sorted_key_le_pos<T>(s: Seq<T>, key: spec_fn(T) -> u32, n: int, i: int)
    requires
        sorted_by(s, key),
        forall|j: int| 0 <= j < s.len() ==> (key(s[j]) as int) < n,
        s.len() == n,
        0 <= i < s.len(),
    ensures
        key(s[i]) as int <= i,
    decreases n - i,
{
    if i < n - 1 {
        lemma_sorted_key_le_pos(s, key, n, i + 1);
    }
}

/// A sorted store of `n` elements whose keys lie below `n` holds exactly the
/// keys `0..n`, each at its own position.
pub proof fn lemma_sorted_keys_complete<T>(s: Seq<T>, key: spec_fn(T) -> u32, n: int)
    requires
        sorted_by(s, key),
        forall|j: int| 0 <= j < s.len() ==> (key(s[j]) as int) < n,
        s.len() == n,
    ensures
        forall|i: int| 0 <= i < s.len() ==> key(s[i]) as int == i,
{
    assert forall|i: int| 0 <= i < s.len() implies key(s[i]) as int == i by {
        lemma_sorted_key_ge_pos(s, key, i);
        lemma_sorted_key_le_pos(s, key, n, i);
    };
}

/// The position `index_of_key` names really holds the key, when the key is there.
pub proof fn lemma_index_of_key<T>(s: Seq<T>, k: u32, key: spec_fn(T) -> u32)
    requires
        has_key(s, k, key),
    ensures
        0 <= index_of_key(s, k, key) < s.len(),
        key(s[index_of_key(s, k, key)]) == k,
    decreases s.len(),
{
    if s.len() > 0 && key(s[0]) != k {
        assert(has_key(s.drop_first(), k, key)) by {
            let i = choose|i: int| 0 <= i < s.len() && key(s[i]) == k;
            assert(s.drop_first()[i - 1] == s[i]);
        };
        lemma_index_of_key(s.drop_first(), k, key);
    }
}

} // verus!
