use vstd::prelude::*;

verus! {

/// A record that is stored under an executor id.
pub trait Keyed {
    spec fn key(&self) -> Seq<char>;

    fn key_ref(&self) -> (r: &String)
        ensures
            r@ == self.key(),
    ;
}

/// No two records share a key.
pub open spec fn unique_keys<T: Keyed>(s: Seq<T>) -> bool {
    forall|i: int, j: int|
        0 <= i < s.len() && 0 <= j < s.len() && i != j ==> (#[trigger] s[i]).key() != (
        #[trigger] s[j]).key()
}

pub open spec fn has_key<T: Keyed>(s: Seq<T>, id: Seq<char>) -> bool {
    exists|j: int| 0 <= j < s.len() && (#[trigger] s[j]).key() == id
}

pub open spec fn index_of<T: Keyed>(s: Seq<T>, id: Seq<char>) -> int {
    choose|j: int| 0 <= j < s.len() && (#[trigger] s[j]).key() == id
}

/// The records of `s`, by key.
pub open spec fn keyed_map<T: Keyed>(s: Seq<T>) -> Map<Seq<char>, T> {
    Map::new(|id: Seq<char>| has_key(s, id), |id: Seq<char>| s[index_of(s, id)])
}

pub proof fn lemma_keyed_at<T: Keyed>(s: Seq<T>, j: int)
    requires
        unique_keys(s),
        0 <= j < s.len(),
    ensures
        keyed_map(s).contains_key(s[j].key()),
        keyed_map(s)[s[j].key()] == s[j],
{
    assert(has_key(s, s[j].key()));
    let q = index_of(s, s[j].key());
    assert(s[q].key() == s[j].key());
}

/// Replacing the record at `j` with one of the same key replaces that key's entry.
pub proof fn lemma_keyed_update<T: Keyed>(s: Seq<T>, j: int, x: T)
    requires
        unique_keys(s),
        0 <= j < s.len(),
        s[j].key() == x.key(),
    ensures
        unique_keys(s.update(j, x)),
        keyed_map(s.update(j, x)) == keyed_map(s).insert(x.key(), x),
{
    let t = s.update(j, x);
    assert forall|a: int, b: int|
        0 <= a < t.len() && 0 <= b < t.len() && a != b implies (#[trigger] t[a]).key() != (
        #[trigger] t[b]).key() by {
        assert(s[a].key() != s[b].key());
    }
    lemma_keyed_at(t, j);
    assert forall|id: Seq<char>| id != x.key() implies has_key(t, id) == has_key(s, id) by {
        if has_key(s, id) {
            let q = index_of(s, id);
            assert(t[q] == s[q]);
        }
        if has_key(t, id) {
            let q = index_of(t, id);
            assert(t[q] == s[q]);
        }
    }
    assert forall|id: Seq<char>| id != x.key() && has_key(s, id) implies keyed_map(t)[id]
        == keyed_map(s)[id] by {
        let q = index_of(s, id);
        assert(t[q] == s[q]);
        lemma_keyed_at(s, q);
        lemma_keyed_at(t, q);
    }
    assert(keyed_map(t) =~= keyed_map(s).insert(x.key(), x));
}

/// Appending a record under a new key adds that key's entry.
pub proof fn lemma_keyed_push<T: Keyed>(s: Seq<T>, x: T)
    requires
        unique_keys(s),
        !has_key(s, x.key()),
    ensures
        unique_keys(s.push(x)),
        keyed_map(s.push(x)) == keyed_map(s).insert(x.key(), x),
{
    let t = s.push(x);
    assert forall|a: int, b: int|
        0 <= a < t.len() && 0 <= b < t.len() && a != b implies (#[trigger] t[a]).key() != (
        #[trigger] t[b]).key() by {
        if a == s.len() {
            assert(t[b] == s[b]);
        } else if b == s.len() {
            assert(t[a] == s[a]);
        } else {
            assert(t[a] == s[a] && t[b] == s[b]);
        }
    }
    lemma_keyed_at(t, s.len() as int);
    assert forall|id: Seq<char>| id != x.key() implies has_key(t, id) == has_key(s, id) by {
        if has_key(s, id) {
            let q = index_of(s, id);
            assert(t[q] == s[q]);
        }
        if has_key(t, id) {
            let q = index_of(t, id);
            assert(t[q] == s[q]);
        }
    }
    assert forall|id: Seq<char>| id != x.key() && has_key(s, id) implies keyed_map(t)[id]
        == keyed_map(s)[id] by {
        let q = index_of(s, id);
        assert(t[q] == s[q]);
        lemma_keyed_at(s, q);
        lemma_keyed_at(t, q);
    }
    assert(keyed_map(t) =~= keyed_map(s).insert(x.key(), x));
}

/// Removing the record at `j` removes that key's entry.
pub proof fn lemma_keyed_remove<T: Keyed>(s: Seq<T>, j: int)
    requires
        unique_keys(s),
        0 <= j < s.len(),
    ensures
        unique_keys(s.remove(j)),
        keyed_map(s.remove(j)) == keyed_map(s).remove(s[j].key()),
{
    let t = s.remove(j);
    let k = s[j].key();
    assert forall|a: int| 0 <= a < t.len() implies #[trigger] t[a] == if a < j {
        s[a]
    } else {
        s[a + 1]
    } by {}
    assert forall|a: int, b: int|
        0 <= a < t.len() && 0 <= b < t.len() && a != b implies (#[trigger] t[a]).key() != (
        #[trigger] t[b]).key() by {
        let sa = if a < j { a } else { a + 1 };
        let sb = if b < j { b } else { b + 1 };
        assert(s[sa].key() != s[sb].key());
    }
    assert forall|id: Seq<char>| id != k implies has_key(t, id) == has_key(s, id) by {
        if has_key(s, id) {
            let q = index_of(s, id);
            assert(q != j);
            let tq = if q < j { q } else { q - 1 };
            assert(t[tq] == s[q]);
        }
        if has_key(t, id) {
            let q = index_of(t, id);
            let sq = if q < j { q } else { q + 1 };
            assert(t[q] == s[sq]);
        }
    }
    assert(!has_key(t, k)) by {
        if has_key(t, k) {
            let q = index_of(t, k);
            let sq = if q < j { q } else { q + 1 };
            assert(t[q] == s[sq]);
            assert(s[sq].key() != s[j].key());
        }
    }
    assert forall|id: Seq<char>| id != k && has_key(s, id) implies keyed_map(t)[id]
        == keyed_map(s)[id] by {
        let q = index_of(s, id);
        assert(q != j);
        let tq = if q < j { q } else { q - 1 };
        assert(t[tq] == s[q]);
        lemma_keyed_at(s, q);
        lemma_keyed_at(t, tq);
    }
    assert(keyed_map(t) =~= keyed_map(s).remove(k));
}

/// Position of the record stored under `id`, if any.
pub fn find_key<T: Keyed>(v: &Vec<T>, id: &String) -> (r: Option<usize>)
    ensures
        match r {
            Some(j) => j < v@.len() && v@[j as int].key() == id@,
            None => !has_key(v@, id@),
        },
{
    let mut j: usize = 0;
    while j < v.len()
        invariant
            0 <= j <= v@.len(),
            forall|q: int| 0 <= q < j ==> (#[trigger] v@[q]).key() != id@,
        decreases v@.len() - j,
    {
        if v[j].key_ref().eq(id) {
            return Some(j);
        }
        j = j + 1;
    }
    None
}

/// Each entry of the map is stored under its own key.
pub proof fn lemma_keyed_key<T: Keyed>(s: Seq<T>)
    ensures
        forall|id: Seq<char>| #[trigger] keyed_map(s).contains_key(id) ==> keyed_map(s)[id].key() == id,
{
}

/// `s` with `x` stored under its key: in place of the record with that key, or appended.
pub open spec fn upsert_seq<T: Keyed>(s: Seq<T>, x: T) -> Seq<T> {
    if has_key(s, x.key()) {
        s.update(index_of(s, x.key()), x)
    } else {
        s.push(x)
    }
}

/// `s` without the record stored under `id`.
pub open spec fn remove_seq<T: Keyed>(s: Seq<T>, id: Seq<char>) -> Seq<T> {
    if has_key(s, id) {
        s.remove(index_of(s, id))
    } else {
        s
    }
}

/// Store `x` under its key, replacing the record that held it.
pub fn upsert<T: Keyed>(v: &mut Vec<T>, x: T)
    requires
        unique_keys(old(v)@),
    ensures
        unique_keys(final(v)@),
        final(v)@ == upsert_seq(old(v)@, x),
        keyed_map(final(v)@) == keyed_map(old(v)@).insert(x.key(), x),
{
    let ghost s = v@;
    match find_key(v, x.key_ref()) {
        Some(j) => {
            proof {
                let q = index_of(s, x.key());
                assert(s[q].key() == x.key());
                assert(q == j as int);
                lemma_keyed_update(s, j as int, x);
            }
            v.set(j, x);
        },
        None => {
            proof {
                lemma_keyed_push(s, x);
            }
            v.push(x);
        },
    }
}

/// Drop the record stored under `id`; tells whether there was one.
pub fn remove_key<T: Keyed>(v: &mut Vec<T>, id: &String) -> (r: bool)
    requires
        unique_keys(old(v)@),
    ensures
        r == has_key(old(v)@, id@),
        unique_keys(final(v)@),
        final(v)@ == remove_seq(old(v)@, id@),
        keyed_map(final(v)@) == keyed_map(old(v)@).remove(id@),
{
    let ghost s = v@;
    match find_key(v, id) {
        Some(j) => {
            proof {
                let q = index_of(s, id@);
                assert(s[q].key() == id@);
                assert(q == j as int);
                lemma_keyed_remove(s, j as int);
            }
            v.remove(j);
            true
        },
        None => {
            proof {
                assert(keyed_map(s) =~= keyed_map(s).remove(id@));
            }
            false
        },
    }
}

pub proof fn lemma_remove_seq_map<T: Keyed>(s: Seq<T>, id: Seq<char>)
    requires
        unique_keys(s),
    ensures
        unique_keys(remove_seq(s, id)),
        keyed_map(remove_seq(s, id)) == keyed_map(s).remove(id),
{
    if has_key(s, id) {
        let q = index_of(s, id);
        lemma_keyed_remove(s, q);
    } else {
        assert(keyed_map(s) =~= keyed_map(s).remove(id));
    }
}

/// With unique keys, the map has one entry per record.
pub proof fn lemma_keyed_len<T: Keyed>(s: Seq<T>)
    requires
        unique_keys(s),
    ensures
        keyed_map(s).len() == s.len(),
        keyed_map(s).dom() == s.map_values(|x: T| x.key()).to_set(),
    decreases s.len(),
{
    let keys = s.map_values(|x: T| x.key());
    assert forall|id: Seq<char>| keyed_map(s).dom().contains(id) <==> keys.to_set().contains(id) by {
        if has_key(s, id) {
            let q = index_of(s, id);
            assert(keys[q] == id);
        }
        if keys.to_set().contains(id) {
            let q = choose|q: int| 0 <= q < keys.len() && keys[q] == id;
            assert(s[q].key() == id);
        }
    }
    assert(keyed_map(s).dom() =~= keys.to_set());
    assert forall|a: int, b: int| 0 <= a < keys.len() && 0 <= b < keys.len() && a != b implies keys[a] != keys[b] by {
        assert(s[a].key() != s[b].key());
    }
    keys.unique_seq_to_set();
}

} // verus!
