use vstd::prelude::*;
use crate::types::bytes_of;

verus! {

/// Lexicographic order on byte strings; a proper prefix comes first.
pub open spec fn bytes_lt(a: Seq<u8>, b: Seq<u8>) -> bool
    decreases a.len(),
{
    if a.len() == 0 {
        b.len() > 0
    } else if b.len() == 0 {
        false
    } else if a[0] != b[0] {
        a[0] < b[0]
    } else {
        bytes_lt(a.drop_first(), b.drop_first())
    }
}

/// A sort key: an integer first, then a string compared by its UTF-8 bytes.
pub type Key = (int, Seq<u8>);

#[verifier::opaque]
pub open spec fn key_lt(a: Key, b: Key) -> bool {
    a.0 < b.0 || (a.0 == b.0 && bytes_lt(a.1, b.1))
}

pub proof fn lemma_bytes_lt_irreflexive(a: Seq<u8>)
    ensures
        !bytes_lt(a, a),
    decreases a.len(),
{
    if a.len() > 0 {
        lemma_bytes_lt_irreflexive(a.drop_first());
    }
}

pub proof fn lemma_bytes_lt_transitive(a: Seq<u8>, b: Seq<u8>, c: Seq<u8>)
    requires
        bytes_lt(a, b),
        bytes_lt(b, c),
    ensures
        bytes_lt(a, c),
    decreases a.len(),
{
    if a.len() > 0 && b.len() > 0 && c.len() > 0 && a[0] == b[0] && b[0] == c[0] {
        lemma_bytes_lt_transitive(a.drop_first(), b.drop_first(), c.drop_first());
    }
}

pub proof fn lemma_bytes_lt_total(a: Seq<u8>, b: Seq<u8>)
    requires
        a != b,
    ensures
        bytes_lt(a, b) || bytes_lt(b, a),
    decreases a.len(),
{
    if a.len() > 0 && b.len() > 0 && a[0] == b[0] {
        if a.drop_first() == b.drop_first() {
            assert(a =~= seq![a[0]] + a.drop_first());
            assert(b =~= seq![b[0]] + b.drop_first());
        }
        lemma_bytes_lt_total(a.drop_first(), b.drop_first());
    } else if a.len() == 0 && b.len() == 0 {
        assert(a =~= b);
    }
}

pub broadcast proof fn lemma_key_lt_irreflexive(a: Key)
    ensures
        !#[trigger] key_lt(a, a),
{
    reveal(key_lt);
    lemma_bytes_lt_irreflexive(a.1);
}

pub broadcast proof fn lemma_key_lt_transitive(a: Key, b: Key, c: Key)
    requires
        #[trigger] key_lt(a, b),
        #[trigger] key_lt(b, c),
    ensures
        key_lt(a, c),
{
    reveal(key_lt);
    if a.0 == b.0 && b.0 == c.0 {
        lemma_bytes_lt_transitive(a.1, b.1, c.1);
    }
}

pub proof fn lemma_key_lt_total(a: Key, b: Key)
    requires
        a != b,
    ensures
        key_lt(a, b) || key_lt(b, a),
{
    reveal(key_lt);
    if a.0 == b.0 {
        if a.1 == b.1 {
            assert(a == b);
        }
        lemma_bytes_lt_total(a.1, b.1);
    }
}

pub broadcast group group_key_order {
    lemma_key_lt_irreflexive,
    lemma_key_lt_transitive,
}

/// Compares two byte strings in the order `bytes_lt`.
pub fn bytes_less(a: &[u8], b: &[u8]) -> (r: bool)
    ensures
        r == bytes_lt(a@, b@),
{
    let mut i: usize = 0;
    assert(a@.skip(0) =~= a@);
    assert(b@.skip(0) =~= b@);
    while i < a.len() && i < b.len() && a[i] == b[i]
        invariant
            0 <= i <= a@.len(),
            i <= b@.len(),
            bytes_lt(a@, b@) == bytes_lt(a@.skip(i as int), b@.skip(i as int)),
        decreases a.len() - i,
    {
        assert(a@.skip(i as int).drop_first() =~= a@.skip(i + 1));
        assert(b@.skip(i as int).drop_first() =~= b@.skip(i + 1));
        i = i + 1;
    }
    if i == a.len() {
        i < b.len()
    } else if i == b.len() {
        false
    } else {
        a[i] < b[i]
    }
}

/// An executable sort key: `primary` first, then `name` by its UTF-8 bytes.
pub struct SortKey {
    pub primary: i64,
    pub name: String,
}

impl SortKey {
    pub open spec fn key(&self) -> Key {
        (self.primary as int, bytes_of(self.name@))
    }
}

pub open spec fn keys_of(keys: Seq<SortKey>) -> Seq<Key> {
    keys.map_values(|k: SortKey| k.key())
}

/// Compares two keys in the order `key_lt`.
pub fn key_less(a: &SortKey, b: &SortKey) -> (r: bool)
    ensures
        r == key_lt(a.key(), b.key()),
{
    reveal(key_lt);
    if a.primary != b.primary {
        a.primary < b.primary
    } else {
        bytes_less(a.name.as_str().as_bytes(), b.name.as_str().as_bytes())
    }
}

pub open spec fn cursor_key(c: Option<SortKey>) -> Option<Key> {
    match c {
        None => None,
        Some(k) => Some(k.key()),
    }
}

/// `k` lies strictly after the cursor; no cursor means the start.
pub open spec fn after(k: Key, cursor: Option<Key>) -> bool {
    match cursor {
        None => true,
        Some(c) => key_lt(c, k),
    }
}

/// Eligible entries carry pairwise different keys.
pub open spec fn keys_distinct(keys: Seq<Key>, elig: Seq<bool>) -> bool {
    forall|i: int, j: int|
        0 <= i < keys.len() && 0 <= j < keys.len() && i != j && elig[i] && elig[j] ==> keys[i]
            != keys[j]
}

/// `out` lists, in ascending key order, the first `limit` eligible entries whose key
/// lies after `cursor`: no more, none out of order and none skipped.
pub open spec fn is_page(
    keys: Seq<Key>,
    elig: Seq<bool>,
    cursor: Option<Key>,
    limit: int,
    out: Seq<usize>,
) -> bool {
    &&& out.len() <= limit
    &&& forall|j: int|
        0 <= j < out.len() ==> {
            &&& out[j] < keys.len()
            &&& elig[out[j] as int]
            &&& after(keys[out[j] as int], cursor)
        }
    &&& forall|j1: int, j2: int|
        0 <= j1 < j2 < out.len() ==> key_lt(keys[out[j1] as int], keys[out[j2] as int])
    &&& forall|i: int|
        0 <= i < keys.len() && elig[i] && after(keys[i], cursor) && (out.len() < limit || (
        out.len() > 0 && !key_lt(keys[out.last() as int], keys[i]))) ==> exists|j: int|
            0 <= j < out.len() && out[j] == i
}

/// An entry that may come next after the page `out`.
pub open spec fn candidate(
    keys: Seq<Key>,
    elig: Seq<bool>,
    cursor: Option<Key>,
    out: Seq<usize>,
    i: int,
) -> bool {
    &&& elig[i]
    &&& after(keys[i], cursor)
    &&& (out.len() == 0 || key_lt(keys[out.last() as int], keys[i]))
}

/// Selects the indices of the first `limit` eligible keys after `cursor`, in ascending order.
pub fn select_page(
    keys: &Vec<SortKey>,
    elig: &Vec<bool>,
    cursor: &Option<SortKey>,
    limit: usize,
) -> (out: Vec<usize>)
    requires
        keys.len() == elig.len(),
        keys_distinct(keys_of(keys@), elig@),
    ensures
        is_page(keys_of(keys@), elig@, cursor_key(*cursor), limit as int, out@),
{
    broadcast use group_key_order;

    let ghost ks = keys_of(keys@);
    let ghost cur = cursor_key(*cursor);
    let mut out: Vec<usize> = Vec::new();
    while out.len() < limit
        invariant
            keys.len() == elig.len(),
            ks == keys_of(keys@),
            cur == cursor_key(*cursor),
            keys_distinct(ks, elig@),
            out.len() <= limit,
            is_page(ks, elig@, cur, out.len() as int, out@),
        decreases limit - out.len(),
    {
        let mut best: Option<usize> = None;
        let mut i: usize = 0;
        while i < keys.len()
            invariant
                keys.len() == elig.len(),
                ks == keys_of(keys@),
                cur == cursor_key(*cursor),
                0 <= i <= keys.len(),
                is_page(ks, elig@, cur, out.len() as int, out@),
                best is None ==> forall|c: int| 0 <= c < i ==> !candidate(ks, elig@, cur, out@, c),
                best matches Some(b) ==> {
                    &&& b < i
                    &&& candidate(ks, elig@, cur, out@, b as int)
                    &&& forall|c: int|
                        0 <= c < i && candidate(ks, elig@, cur, out@, c) ==> !key_lt(
                            ks[c],
                            ks[b as int],
                        )
                },
            decreases keys.len() - i,
        {
            assert(ks[i as int] == keys@[i as int].key());
            if out.len() > 0 {
                assert(ks[out@.last() as int] == keys@[out@.last() as int].key());
            }
            if let Some(b) = best {
                assert(ks[b as int] == keys@[b as int].key());
            }
            let is_after = match cursor {
                None => true,
                Some(c) => key_less(c, &keys[i]),
            };
            let beyond_last = out.len() == 0 || key_less(&keys[out[out.len() - 1]], &keys[i]);
            if elig[i] && is_after && beyond_last {
                let better = match best {
                    None => true,
                    Some(b) => key_less(&keys[i], &keys[b]),
                };
                if better {
                    proof {
                        assert forall|c: int|
                            0 <= c < i && candidate(ks, elig@, cur, out@, c) implies !key_lt(
                            ks[c],
                            ks[i as int],
                        ) by {
                            if key_lt(ks[c], ks[i as int]) {
                                match best {
                                    Some(b) => lemma_key_lt_transitive(ks[c], ks[i as int], ks[b as int]),
                                    None => {},
                                }
                            }
                        }
                        lemma_key_lt_irreflexive(ks[i as int]);
                    }
                    best = Some(i);
                }
            }
            i = i + 1;
        }
        match best {
            None => {
                assert forall|c: int|
                    0 <= c < ks.len() && elig@[c] && after(ks[c], cur) implies exists|j: int|
                    0 <= j < out.len() && out@[j] == c by {
                    assert(!candidate(ks, elig@, cur, out@, c));
                    if out.len() > 0 {
                        let l = ks[out@.last() as int];
                        if l != ks[c] {
                            lemma_key_lt_total(l, ks[c]);
                        } else {
                            assert(out@[out.len() - 1] == c);
                        }
                    }
                }
                return out;
            },
            Some(b) => {
                let ghost old_out = out@;
                out.push(b);
                assert forall|i: int|
                    0 <= i < ks.len() && elig@[i] && after(ks[i], cur) && !key_lt(ks[b as int], ks[i])
                    implies exists|j: int| 0 <= j < out.len() && out@[j] == i by {
                    if ks[i] == ks[b as int] {
                        assert(out@[out.len() - 1] == i);
                    } else {
                        lemma_key_lt_total(ks[i], ks[b as int]);
                        if old_out.len() > 0 && !key_lt(ks[old_out.last() as int], ks[i]) {
                            let j = choose|j: int| 0 <= j < old_out.len() && old_out[j] == i;
                            assert(out@[j] == i);
                        } else {
                            assert(candidate(ks, elig@, cur, old_out, i));
                        }
                    }
                }
                assert forall|j1: int, j2: int|
                    0 <= j1 < j2 < out.len() implies key_lt(ks[out@[j1] as int], ks[out@[j2] as int]) by {
                    assert(out@[j1] == old_out[j1]);
                    if j2 == out.len() - 1 {
                        assert(out@[j2] == b);
                        assert(key_lt(ks[old_out.last() as int], ks[b as int]));
                        if j1 < old_out.len() - 1 {
                            assert(key_lt(ks[old_out[j1] as int], ks[old_out.last() as int]));
                            lemma_key_lt_transitive(
                                ks[old_out[j1] as int],
                                ks[old_out.last() as int],
                                ks[b as int],
                            );
                        }
                    } else {
                        assert(out@[j2] == old_out[j2]);
                    }
                }
            },
        }
    }
    out
}

} // verus!
