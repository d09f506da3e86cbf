//! The order in which ties are broken: by rank, then by timestamp, then by event id.
//!
//! Event ids are compared as Rust compares strings: byte by byte over their UTF-8 encoding.

use vstd::prelude::*;
use vstd::utf8::{encode_utf8, encode_utf8_decode_utf8, decode_utf8};

verus! {

/// Lexicographic order on byte strings.
pub open spec fn bytes_lt(a: Seq<u8>, b: Seq<u8>) -> bool
    decreases a.len(),
{
    if b.len() == 0 {
        false
    } else if a.len() == 0 {
        true
    } else if a[0] != b[0] {
        a[0] < b[0]
    } else {
        bytes_lt(a.drop_first(), b.drop_first())
    }
}

/// The order of event ids.
pub open spec fn id_lt(a: Seq<char>, b: Seq<char>) -> bool {
    bytes_lt(encode_utf8(a), encode_utf8(b))
}

pub proof fn lemma_bytes_lt_irreflexive(a: Seq<u8>)
    ensures
        !bytes_lt(a, a),
    decreases a.len(),
{
    if a.len() > 0 {
        lemma_bytes_lt_irreflexive(a.drop_first());
    }
}

pub proof fn lemma_bytes_lt_transitive(a: Seq<u8>, b: Seq<u8>, c: Seq<u8>)
    requires
        bytes_lt(a, b),
        bytes_lt(b, c),
    ensures
        bytes_lt(a, c),
    decreases a.len(),
{
    if a.len() > 0 && a[0] == b[0] && b[0] == c[0] {
        lemma_bytes_lt_transitive(a.drop_first(), b.drop_first(), c.drop_first());
    }
}

pub proof fn lemma_bytes_lt_total(a: Seq<u8>, b: Seq<u8>)
    ensures
        bytes_lt(a, b) || bytes_lt(b, a) || a == b,
    decreases a.len(),
{
    if a.len() > 0 && b.len() > 0 && a[0] == b[0] {
        lemma_bytes_lt_total(a.drop_first(), b.drop_first());
        if a.drop_first() == b.drop_first() {
            assert(a =~= seq![a[0]] + a.drop_first());
            assert(b =~= seq![b[0]] + b.drop_first());
        }
    } else if a.len() == 0 && b.len() == 0 {
        assert(a =~= b);
    }
}

/// The order of event ids is a strict total order.
pub proof fn lemma_id_lt_order(a: Seq<char>, b: Seq<char>, c: Seq<char>)
    ensures
        !id_lt(a, a),
        id_lt(a, b) && id_lt(b, c) ==> id_lt(a, c),
        id_lt(a, b) ==> !id_lt(b, a),
        a != b ==> id_lt(a, b) || id_lt(b, a),
{
    let x = encode_utf8(a);
    let y = encode_utf8(b);
    let z = encode_utf8(c);
    lemma_bytes_lt_irreflexive(x);
    if bytes_lt(x, y) && bytes_lt(y, z) {
        lemma_bytes_lt_transitive(x, y, z);
    }
    if bytes_lt(x, y) && bytes_lt(y, x) {
        lemma_bytes_lt_transitive(x, y, x);
    }
    lemma_bytes_lt_total(x, y);
    if x == y {
        encode_utf8_decode_utf8(a);
        encode_utf8_decode_utf8(b);
        assert(decode_utf8(x) == a);
        assert(decode_utf8(y) == b);
    }
}

/// Whether one event id comes before another.
pub fn id_less(a: &String, b: &String) -> (r: bool)
    ensures
        r == id_lt(a@, b@),
{
    let x = a.as_str().as_bytes();
    let y = b.as_str().as_bytes();
    let mut i: usize = 0;
    assert(x@.skip(0) =~= x@);
    assert(y@.skip(0) =~= y@);
    while i < x.len() && i < y.len()
        invariant
            i <= x@.len(),
            i <= y@.len(),
            x@ == encode_utf8(a@),
            y@ == encode_utf8(b@),
            bytes_lt(x@, y@) == bytes_lt(x@.skip(i as int), y@.skip(i as int)),
        decreases x@.len() - i,
    {
        let ghost xs = x@.skip(i as int);
        let ghost ys = y@.skip(i as int);
        assert(xs[0] == x@[i as int]);
        assert(ys[0] == y@[i as int]);
        if x[i] != y[i] {
            return x[i] < y[i];
        }
        assert(xs.drop_first() =~= x@.skip(i + 1));
        assert(ys.drop_first() =~= y@.skip(i + 1));
        i += 1;
    }
    x.len() < y.len()
}

/// What an event is sorted by: a rank, a timestamp and the event's id.
pub struct SortKey {
    pub rank: i128,
    pub ts: u64,
    pub id: String,
}

impl View for SortKey {
    type V = (int, int, Seq<char>);

    open spec fn view(&self) -> (int, int, Seq<char>) {
        (self.rank as int, self.ts as int, self.id@)
    }
}

/// Lexicographic order on rank, timestamp and id.
pub open spec fn key_lt(a: (int, int, Seq<char>), b: (int, int, Seq<char>)) -> bool {
    a.0 < b.0 || (a.0 == b.0 && (a.1 < b.1 || (a.1 == b.1 && id_lt(a.2, b.2))))
}

/// The order of sort keys is a strict total order on keys with different ids.
pub proof fn lemma_key_lt_order(
    a: (int, int, Seq<char>),
    b: (int, int, Seq<char>),
    c: (int, int, Seq<char>),
)
    ensures
        !key_lt(a, a),
        key_lt(a, b) && key_lt(b, c) ==> key_lt(a, c),
        key_lt(a, b) ==> !key_lt(b, a),
        a.2 != b.2 ==> key_lt(a, b) || key_lt(b, a),
{
    lemma_id_lt_order(a.2, b.2, c.2);
}

impl SortKey {
    /// Whether this key comes before another.
    pub fn less(&self, other: &SortKey) -> (r: bool)
        ensures
            r == key_lt(self@, other@),
    {
        if self.rank != other.rank {
            self.rank < other.rank
        } else if self.ts != other.ts {
            self.ts < other.ts
        } else {
            id_less(&self.id, &other.id)
        }
    }
}

/// The ids of a list of sort keys.
pub open spec fn key_ids(keys: Seq<SortKey>) -> Seq<Seq<char>> {
    Seq::new(keys.len(), |i: int| keys[i].id@)
}

/// The position of the least of a non-empty list of keys with different ids.
pub fn least_index(keys: &Vec<SortKey>) -> (best: usize)
    requires
        keys@.len() > 0,
        key_ids(keys@).no_duplicates(),
    ensures
        best < keys@.len(),
        forall|j: int| 0 <= j < keys@.len() && j != best ==> key_lt(keys@[best as int]@, keys@[j]@),
{
    let mut best: usize = 0;
    let mut i: usize = 1;
    while i < keys.len()
        invariant
            1 <= i <= keys@.len(),
            best < i,
            key_ids(keys@).no_duplicates(),
            forall|j: int| 0 <= j < i && j != best ==> key_lt(keys@[best as int]@, keys@[j]@),
        decreases keys@.len() - i,
    {
        if keys[i].less(&keys[best]) {
            proof {
                assert forall|j: int| 0 <= j < i + 1 && j != i implies key_lt(
                    keys@[i as int]@,
                    keys@[j]@,
                ) by {
                    if j != best {
                        lemma_key_lt_order(keys@[i as int]@, keys@[best as int]@, keys@[j]@);
                    }
                }
            }
            best = i;
        } else {
            proof {
                assert(key_ids(keys@)[i as int] == keys@[i as int].id@);
                assert(key_ids(keys@)[best as int] == keys@[best as int].id@);
                lemma_key_lt_order(keys@[best as int]@, keys@[i as int]@, keys@[i as int]@);
            }
        }
        i += 1;
    }
    best
}

} // verus!
