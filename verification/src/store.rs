//! The key/value store abstraction beneath the log and the state machines: an
//! ordered mapping from string keys to byte strings, with point reads, writes,
//! deletes and an ordered prefix scan. Keys are ordered bytewise over their
//! UTF-8 encodings, which is the order Rust gives strings.

use crate::Error;
use vstd::prelude::*;
use vstd::utf8::{decode_utf8, encode_utf8, valid_utf8};

verus! {

// ---------------------------------------------------------------------------
// Byte-string order and helpers
// ---------------------------------------------------------------------------

/// Bytewise lexicographic order.
pub open spec fn lex_lt(a: Seq<u8>, b: Seq<u8>) -> bool
    decreases a.len(),
{
    if b.len() == 0 {
        false
    } else if a.len() == 0 {
        true
    } else if a[0] < b[0] {
        true
    } else if a[0] > b[0] {
        false
    } else {
        lex_lt(a.skip(1), b.skip(1))
    }
}

/// `p` is a prefix of `a`.
pub open spec fn is_prefix(p: Seq<u8>, a: Seq<u8>) -> bool {
    p.len() <= a.len() && a.take(p.len() as int) == p
}

/// The order is total: two byte strings compare one way, the other way, or are equal.
pub proof fn lemma_lex_lt_total(a: Seq<u8>, b: Seq<u8>)
    ensures
        lex_lt(a, b) || a == b || lex_lt(b, a),
        lex_lt(a, b) ==> a != b && !lex_lt(b, a),
    decreases a.len(),
{
    if a.len() == 0 && b.len() == 0 {
        assert(a =~= b);
    } else if a.len() != 0 && b.len() != 0 && a[0] == b[0] {
        lemma_lex_lt_total(a.skip(1), b.skip(1));
        if a.skip(1) == b.skip(1) {
            assert forall|i: int| 0 <= i < a.len() implies a[i] == b[i] by {
                if i >= 1 {
                    assert(a[i] == a.skip(1)[i - 1]);
                    assert(b[i] == b.skip(1)[i - 1]);
                }
            }
            assert(a =~= b);
        }
        if a == b {
            assert(a.skip(1) =~= b.skip(1));
        }
    }
}

/// Compares two byte strings for equality.
pub(crate) fn bytes_eq(a: &Vec<u8>, b: &Vec<u8>) -> (r: bool)
    ensures
        r == (a@ == b@),
{
    if a.len() != b.len() {
        return false;
    }
    let mut i: usize = 0;
    while i < a.len()
        invariant
            i <= a@.len(),
            a@.len() == b@.len(),
            forall|j: int| 0 <= j < i ==> a@[j] == b@[j],
        decreases a@.len() - i,
    {
        if a[i] != b[i] {
            return false;
        }
        i = i + 1;
    }
    proof {
        assert(a@ =~= b@);
    }
    true
}

/// One unfolding step of the order, under equal heads.
proof fn lemma_lex_lt_step(a: Seq<u8>, b: Seq<u8>, i: int)
    requires
        0 <= i < a.len(),
        0 <= i < b.len(),
        a[i] == b[i],
    ensures
        lex_lt(a.skip(i), b.skip(i)) == lex_lt(a.skip(i + 1), b.skip(i + 1)),
{
    assert(a.skip(i).skip(1) =~= a.skip(i + 1));
    assert(b.skip(i).skip(1) =~= b.skip(i + 1));
}

/// Compares two byte strings in the bytewise order.
pub(crate) fn bytes_lt(a: &Vec<u8>, b: &Vec<u8>) -> (r: bool)
    ensures
        r == lex_lt(a@, b@),
{
    let mut i: usize = 0;
    proof {
        assert(a@.skip(0) =~= a@);
        assert(b@.skip(0) =~= b@);
    }
    loop
        invariant
            i <= a@.len(),
            i <= b@.len(),
            lex_lt(a@, b@) == lex_lt(a@.skip(i as int), b@.skip(i as int)),
        ensures
            lex_lt(a@, b@) == lex_lt(a@.skip(i as int), b@.skip(i as int)),
            i == a@.len() || i == b@.len() || a@[i as int] != b@[i as int],
        decreases a@.len() - i,
    {
        if i == a.len() || i == b.len() {
            break;
        }
        if a[i] != b[i] {
            break;
        }
        proof {
            lemma_lex_lt_step(a@, b@, i as int);
        }
        i = i + 1;
    }
    if i == b.len() {
        false
    } else if i == a.len() {
        true
    } else {
        a[i] < b[i]
    }
}

/// Tests whether `p` is a prefix of `a`.
pub(crate) fn bytes_is_prefix(p: &Vec<u8>, a: &Vec<u8>) -> (r: bool)
    ensures
        r == is_prefix(p@, a@),
{
    if p.len() > a.len() {
        return false;
    }
    let mut i: usize = 0;
    while i < p.len()
        invariant
            i <= p@.len(),
            p@.len() <= a@.len(),
            forall|j: int| 0 <= j < i ==> a@[j] == p@[j],
        decreases p@.len() - i,
    {
        if a[i] != p[i] {
            proof {
                assert(a@.take(p@.len() as int)[i as int] != p@[i as int]);
            }
            return false;
        }
        i = i + 1;
    }
    proof {
        assert(a@.take(p@.len() as int) =~= p@);
    }
    true
}

/// Copies a byte string.
pub(crate) fn clone_bytes(v: &Vec<u8>) -> (r: Vec<u8>)
    ensures
        r@ == v@,
{
    let mut out: Vec<u8> = Vec::new();
    let mut i: usize = 0;
    while i < v.len()
        invariant
            i <= v@.len(),
            out@ == v@.take(i as int),
        decreases v@.len() - i,
    {
        out.push(v[i]);
        i = i + 1;
        proof {
            assert(out@ =~= v@.take(i as int));
        }
    }
    proof {
        assert(out@ =~= v@);
    }
    out
}

/// The UTF-8 bytes of a string slice.
pub(crate) fn str_to_bytes(s: &str) -> (r: Vec<u8>)
    ensures
        r@ == encode_utf8(s@),
{
    vstd::slice::slice_to_vec(s.as_bytes())
}

/// Compares two string slices by their UTF-8 bytes, which agree exactly when
/// the strings do.
pub(crate) fn str_eq(a: &str, b: &str) -> (r: bool)
    ensures
        r == (a@ == b@),
{
    let av = str_to_bytes(a);
    let bv = str_to_bytes(b);
    let r = bytes_eq(&av, &bv);
    proof {
        vstd::utf8::encode_utf8_decode_utf8(a@);
        vstd::utf8::encode_utf8_decode_utf8(b@);
    }
    r
}

// ---------------------------------------------------------------------------
// The store contract
// ---------------------------------------------------------------------------

/// An ordered mapping from string keys to byte strings. The view keys the
/// mapping by the UTF-8 encoding of each key. An implementation may fail with
/// an I/O error, but a failed operation must leave the contents unchanged.
pub trait Store: Sized {
    /// The contents of the store.
    spec fn sview(&self) -> Map<Seq<u8>, Seq<u8>>;

    /// Fetches the value stored under a key, if any.
    fn get(&self, key: &str) -> (r: Result<Option<Vec<u8>>, Error>)
        ensures
            r matches Err(e) ==> e matches Error::IO(_),
            r matches Ok(o) ==> match o {
                Some(v) => self.sview().contains_key(encode_utf8(key@)) && v@ == self.sview()[
                    encode_utf8(key@)
                ],
                None => !self.sview().contains_key(encode_utf8(key@)),
            },
    ;

    /// Stores a value under a key, replacing any previous value.
    fn set(&mut self, key: &str, value: Vec<u8>) -> (r: Result<(), Error>)
        ensures
            r matches Err(e) ==> e matches Error::IO(_),
            r is Ok ==> final(self).sview() == old(self).sview().insert(
                encode_utf8(key@),
                value@,
            ),
            r is Err ==> final(self).sview() == old(self).sview(),
    ;

    /// Removes a key, if present.
    fn delete(&mut self, key: &str) -> (r: Result<(), Error>)
        ensures
            r matches Err(e) ==> e matches Error::IO(_),
            r is Ok ==> final(self).sview() == old(self).sview().remove(encode_utf8(key@)),
            r is Err ==> final(self).sview() == old(self).sview(),
    ;

    /// Returns every pair whose key extends the prefix, sorted by key ascending.
    fn iter_prefix(&self, prefix: &str) -> (r: Result<Vec<(String, Vec<u8>)>, Error>)
        ensures
            r matches Err(e) ==> e matches Error::IO(_),
            r matches Ok(ps) ==> prefix_scan_post(self.sview(), encode_utf8(prefix@), ps@),
    ;
}

/// What a prefix scan returns: exactly the pairs of the store under the
/// prefix, sorted by key ascending.
pub open spec fn prefix_scan_post(
    view: Map<Seq<u8>, Seq<u8>>,
    pb: Seq<u8>,
    ps: Seq<(String, Vec<u8>)>,
) -> bool {
    &&& forall|i: int|
        0 <= i < ps.len() ==> {
            let k = encode_utf8((#[trigger] ps[i]).0@);
            is_prefix(pb, k) && view.contains_key(k) && ps[i].1@ == view[k]
        }
    &&& forall|i: int, j: int|
        #![trigger ps[i], ps[j]]
        0 <= i < j < ps.len() ==> lex_lt(encode_utf8(ps[i].0@), encode_utf8(ps[j].0@))
    &&& forall|k: Seq<u8>|
        #![trigger view.contains_key(k)]
        view.contains_key(k) && is_prefix(pb, k) ==> exists|i: int|
            0 <= i < ps.len() && encode_utf8((#[trigger] ps[i]).0@) == k
}

// ---------------------------------------------------------------------------
// The in-memory store
// ---------------------------------------------------------------------------

/// The order is transitive.
pub proof fn lemma_lex_lt_trans(a: Seq<u8>, b: Seq<u8>, c: Seq<u8>)
    requires
        lex_lt(a, b),
        lex_lt(b, c),
    ensures
        lex_lt(a, c),
    decreases a.len() + b.len() + c.len(),
{
    if a.len() != 0 && b.len() != 0 && c.len() != 0 {
        if a[0] == b[0] && b[0] == c[0] {
            lemma_lex_lt_trans(a.skip(1), b.skip(1), c.skip(1));
        }
    }
}

/// Sorted strictly ascending keys, every key valid UTF-8.
pub(crate) open spec fn ps_wf(ps: Seq<(Vec<u8>, Vec<u8>)>) -> bool {
    &&& forall|i: int, j: int|
        #![trigger ps[i], ps[j]]
        0 <= i < j < ps.len() ==> lex_lt(ps[i].0@, ps[j].0@)
    &&& forall|i: int| 0 <= i < ps.len() ==> valid_utf8((#[trigger] ps[i]).0@)
}

/// The mapping a pair list holds; a later pair would win over an earlier one.
pub(crate) open spec fn ps_map(ps: Seq<(Vec<u8>, Vec<u8>)>) -> Map<Seq<u8>, Seq<u8>>
    decreases ps.len(),
{
    if ps.len() == 0 {
        Map::empty()
    } else {
        ps_map(ps.drop_last()).insert(ps.last().0@, ps.last().1@)
    }
}

/// Some pair holds the key.
pub(crate) open spec fn ps_has_key(ps: Seq<(Vec<u8>, Vec<u8>)>, k: Seq<u8>) -> bool {
    exists|i: int| 0 <= i < ps.len() && (#[trigger] ps[i]).0@ == k
}

/// On a sorted pair list, the mapping holds exactly the pairs' keys, each at
/// its pair's value.
pub(crate) proof fn lemma_ps_map_wf(ps: Seq<(Vec<u8>, Vec<u8>)>)
    requires
        ps_wf(ps),
    ensures
        forall|k: Seq<u8>| #[trigger] ps_map(ps).contains_key(k) <==> ps_has_key(ps, k),
        forall|i: int| 0 <= i < ps.len() ==> ps_map(ps)[(#[trigger] ps[i]).0@] == ps[i].1@,
    decreases ps.len(),
{
    if ps.len() > 0 {
        let pre = ps.drop_last();
        let last = ps.last();
        assert(forall|i: int| 0 <= i < pre.len() ==> pre[i] == ps[i]);
        lemma_ps_map_wf(pre);
        assert forall|k: Seq<u8>| #[trigger] ps_map(ps).contains_key(k) implies ps_has_key(ps, k) by {
            if k == last.0@ {
                assert((ps[ps.len() - 1]).0@ == k);
            } else {
                assert(ps_map(pre).contains_key(k));
                assert(ps_has_key(pre, k));
                let i = choose|i: int| 0 <= i < pre.len() && (#[trigger] pre[i]).0@ == k;
                assert((ps[i]).0@ == k);
            }
        }
        assert forall|k: Seq<u8>| ps_has_key(ps, k) implies #[trigger] ps_map(ps).contains_key(k) by {
            let i = choose|i: int| 0 <= i < ps.len() && (#[trigger] ps[i]).0@ == k;
            if i < ps.len() - 1 {
                assert((pre[i]).0@ == k);
            }
        }
        assert forall|i: int| 0 <= i < ps.len() implies ps_map(ps)[(#[trigger] ps[i]).0@]
            == ps[i].1@ by {
            if i < ps.len() - 1 {
                lemma_lex_lt_total(ps[i].0@, last.0@);
                assert(lex_lt(ps[i].0@, ps[ps.len() - 1].0@));
                assert(ps[i].0@ != last.0@);
                assert((pre[i]).0@ == ps[i].0@);
            }
        }
    }
}

/// An in-memory store: a list of pairs sorted by key. Reads scan, writes
/// rebuild the list around the changed key.
#[derive(Debug)]
pub struct KVMemory {
    pairs: Vec<(Vec<u8>, Vec<u8>)>,
}

impl KVMemory {
    #[verifier::type_invariant]
    spec fn wf(self) -> bool {
        ps_wf(self.pairs@)
    }

    /// Creates an empty store.
    pub fn new() -> (r: Self)
        ensures
            r.sview() == Map::<Seq<u8>, Seq<u8>>::empty(),
    {
        KVMemory { pairs: Vec::new() }
    }
}

impl Store for KVMemory {
    closed spec fn sview(&self) -> Map<Seq<u8>, Seq<u8>> {
        ps_map(self.pairs@)
    }

    fn get(&self, key: &str) -> (r: Result<Option<Vec<u8>>, Error>) {
        let kb = str_to_bytes(key);
        proof {
            use_type_invariant(self);
            lemma_ps_map_wf(self.pairs@);
        }
        let mut i: usize = 0;
        while i < self.pairs.len()
            invariant
                i <= self.pairs@.len(),
                ps_wf(self.pairs@),
                kb@ == encode_utf8(key@),
                forall|j: int| 0 <= j < i ==> (#[trigger] self.pairs@[j]).0@ != kb@,
                forall|k: Seq<u8>| #[trigger] ps_map(self.pairs@).contains_key(k) <==> ps_has_key(
                    self.pairs@,
                    k,
                ),
                forall|j: int|
                    0 <= j < self.pairs@.len() ==> ps_map(self.pairs@)[(
                    #[trigger] self.pairs@[j]).0@] == self.pairs@[j].1@,
            decreases self.pairs@.len() - i,
        {
            if bytes_eq(&self.pairs[i].0, &kb) {
                return Ok(Some(clone_bytes(&self.pairs[i].1)));
            }
            i = i + 1;
        }
        Ok(None)
    }

    fn set(&mut self, key: &str, value: Vec<u8>) -> (r: Result<(), Error>) {
        proof {
            use_type_invariant(&*self);
            broadcast use vstd::utf8::encode_utf8_valid_utf8;

        }
        let kb = str_to_bytes(key);
        self.pairs = spliced_pairs(&self.pairs, kb, Some(value));
        Ok(())
    }

    fn delete(&mut self, key: &str) -> (r: Result<(), Error>) {
        proof {
            use_type_invariant(&*self);
            broadcast use vstd::utf8::encode_utf8_valid_utf8;

        }
        let kb = str_to_bytes(key);
        self.pairs = spliced_pairs(&self.pairs, kb, None);
        Ok(())
    }

    fn iter_prefix(&self, prefix: &str) -> (r: Result<Vec<(String, Vec<u8>)>, Error>) {
        let pb = str_to_bytes(prefix);
        proof {
            use_type_invariant(self);
            lemma_ps_map_wf(self.pairs@);
        }
        // First pass: the indices of the pairs under the prefix, ascending.
        let mut idxs: Vec<usize> = Vec::new();
        let mut i: usize = 0;
        while i < self.pairs.len()
            invariant
                i <= self.pairs@.len(),
                pb@ == encode_utf8(prefix@),
                forall|a: int, b: int| 0 <= a < b < idxs@.len() ==> #[trigger] idxs@[a] < #[trigger] idxs@[b],
                forall|a: int|
                    0 <= a < idxs@.len() ==> #[trigger] idxs@[a] < i && is_prefix(
                        pb@,
                        self.pairs@[idxs@[a] as int].0@,
                    ),
                forall|idx: int|
                    0 <= idx < i && is_prefix(pb@, (#[trigger] self.pairs@[idx]).0@) ==> exists|
                        a: int,
                    | 0 <= a < idxs@.len() && #[trigger] idxs@[a] == idx,
            decreases self.pairs@.len() - i,
        {
            let ghost prev = idxs@;
            if bytes_is_prefix(&pb, &self.pairs[i].0) {
                idxs.push(i);
            }
            i = i + 1;
            assert forall|idx: int|
                0 <= idx < i && is_prefix(pb@, (#[trigger] self.pairs@[idx]).0@) implies exists|
                a: int,
            | 0 <= a < idxs@.len() && #[trigger] idxs@[a] == idx by {
                if idx == i - 1 {
                    assert(idxs@[idxs@.len() - 1] == idx);
                } else {
                    let a = choose|a: int| 0 <= a < prev.len() && #[trigger] prev[a] == idx;
                    assert(idxs@[a] == idx);
                }
            }
        }
        // Second pass: the pairs themselves, with their keys as strings.
        let mut out: Vec<(String, Vec<u8>)> = Vec::new();
        let mut j: usize = 0;
        while j < idxs.len()
            invariant
                j <= idxs@.len(),
                ps_wf(self.pairs@),
                forall|a: int|
                    0 <= a < idxs@.len() ==> #[trigger] idxs@[a] < self.pairs@.len(),
                out@.len() == j,
                forall|a: int|
                    0 <= a < j ==> encode_utf8((#[trigger] out@[a]).0@) == self.pairs@[idxs@[a] as int].0@
                        && out@[a].1@ == self.pairs@[idxs@[a] as int].1@,
            decreases idxs@.len() - j,
        {
            let idx = idxs[j];
            let ghost prev = out@;
            match crate::codec::string_from_utf8(clone_bytes(&self.pairs[idx].0)) {
                Some(s) => {
                    proof {
                        broadcast use vstd::utf8::decode_utf8_encode_utf8;

                        assert(encode_utf8(s@) == self.pairs@[idx as int].0@);
                    }
                    let v = clone_bytes(&self.pairs[idx].1);
                    out.push((s, v));
                },
                None => {
                    proof {
                        assert(false);
                    }
                },
            }
            j = j + 1;
            proof {
                assert(forall|a: int| 0 <= a < prev.len() ==> #[trigger] out@[a] == prev[a]);
            }
        }
        proof {
            let ps = self.pairs@;
            let pbv = encode_utf8(prefix@);
            assert forall|a: int| 0 <= a < out@.len() implies {
                let k = encode_utf8((#[trigger] out@[a]).0@);
                is_prefix(pbv, k) && self.sview().contains_key(k) && out@[a].1@
                    == self.sview()[k]
            } by {
                let idx = idxs@[a] as int;
                assert((ps[idx]).0@ == encode_utf8(out@[a].0@));
            }
            assert forall|a: int, b: int|
                #![trigger out@[a], out@[b]]
                0 <= a < b < out@.len() implies lex_lt(
                encode_utf8(out@[a].0@),
                encode_utf8(out@[b].0@),
            ) by {
                let ia = idxs@[a] as int;
                let ib = idxs@[b] as int;
                assert(lex_lt(ps[ia].0@, ps[ib].0@));
            }
            assert forall|k: Seq<u8>|
                #![trigger self.sview().contains_key(k)]
                self.sview().contains_key(k) && is_prefix(encode_utf8(prefix@), k) implies exists|
                a: int,
            | 0 <= a < out@.len() && encode_utf8((#[trigger] out@[a]).0@) == k by {
                let idx = choose|idx: int|
                    0 <= idx < ps.len() && (#[trigger] ps[idx]).0@ == k;
                assert(is_prefix(pb@, ps[idx].0@));
                let a = choose|a: int| 0 <= a < idxs@.len() && #[trigger] idxs@[a] == idx;
                assert(encode_utf8(out@[a].0@) == k);
            }
            assert(prefix_scan_post(self.sview(), encode_utf8(prefix@), out@));
        }
        Ok(out)
    }
}

/// How the rebuilt pair list of `spliced_pairs` relates, element by element,
/// to the old list, the key and the new value.
spec fn spliced_shape(
    ps: Seq<(Vec<u8>, Vec<u8>)>,
    k: Seq<u8>,
    v: Option<Seq<u8>>,
    out: Seq<(Vec<u8>, Vec<u8>)>,
    low: int,
    high: int,
) -> bool {
    let midlen = low + (if v is Some { 1int } else { 0int });
    &&& 0 <= low <= high <= ps.len()
    &&& high == low || high == low + 1
    &&& (forall|j: int| 0 <= j < low ==> lex_lt((#[trigger] ps[j]).0@, k))
    &&& (low < ps.len() ==> !lex_lt(ps[low].0@, k))
    &&& (high == low + 1 ==> ps[low].0@ == k)
    &&& (high == low ==> low == ps.len() || ps[low].0@ != k)
    &&& out.len() == midlen + (ps.len() - high)
    &&& (forall|j: int|
        0 <= j < low ==> (#[trigger] out[j]).0@ == ps[j].0@ && out[j].1@ == ps[j].1@)
    &&& (v matches Some(vv) ==> out[low].0@ == k && out[low].1@ == vv)
    &&& (forall|j: int|
        midlen <= j < out.len() ==> (#[trigger] out[j]).0@ == ps[j - midlen + high].0@
            && out[j].1@ == ps[j - midlen + high].1@)
}

/// The rebuilt list of `spliced_pairs` is sorted and holds the intended mapping.
proof fn lemma_spliced_pairs(
    ps: Seq<(Vec<u8>, Vec<u8>)>,
    k: Seq<u8>,
    v: Option<Seq<u8>>,
    out: Seq<(Vec<u8>, Vec<u8>)>,
    low: int,
    high: int,
)
    requires
        ps_wf(ps),
        valid_utf8(k),
        spliced_shape(ps, k, v, out, low, high),
    ensures
        ps_wf(out),
        v matches Some(vv) ==> ps_map(out) == ps_map(ps).insert(k, vv),
        v is None ==> ps_map(out) == ps_map(ps).remove(k),
{
    let midlen = low + (if v is Some { 1int } else { 0int });
    // Keys at and after `high` in the old list sit strictly above `k`.
    assert forall|idx: int| high <= idx < ps.len() implies lex_lt(k, (#[trigger] ps[idx]).0@) by {
        if high == low + 1 {
            assert(lex_lt(ps[low].0@, ps[idx].0@));
        } else {
            lemma_lex_lt_total(k, ps[low].0@);
            assert(lex_lt(k, ps[low].0@));
            if idx > low {
                assert(lex_lt(ps[low].0@, ps[idx].0@));
                lemma_lex_lt_trans(k, ps[low].0@, ps[idx].0@);
            }
        }
    }
    assert forall|a: int, b: int|
        #![trigger out[a], out[b]]
        0 <= a < b < out.len() implies lex_lt(out[a].0@, out[b].0@) by {
        if a < low && b < low {
            assert(lex_lt(ps[a].0@, ps[b].0@));
        } else if a < low && v is Some && b == low {
            assert(lex_lt(ps[a].0@, k));
        } else if a < low && b >= midlen {
            assert(lex_lt(ps[a].0@, ps[b - midlen + high].0@));
        } else if v is Some && a == low && b >= midlen {
            assert(lex_lt(k, ps[b - midlen + high].0@));
        } else {
            assert(lex_lt(ps[a - midlen + high].0@, ps[b - midlen + high].0@));
        }
    }
    assert forall|i: int| 0 <= i < out.len() implies valid_utf8((#[trigger] out[i]).0@) by {
        if i < low {
            assert(valid_utf8(ps[i].0@));
        } else if v is Some && i == low {
        } else {
            assert(valid_utf8(ps[i - midlen + high].0@));
        }
    }
    lemma_ps_map_wf(ps);
    lemma_ps_map_wf(out);
    let target = match v {
        Some(vv) => ps_map(ps).insert(k, vv),
        None => ps_map(ps).remove(k),
    };
    assert forall|x: Seq<u8>| #[trigger] ps_map(out).contains_key(x) implies target.contains_key(
        x,
    ) && ps_map(out)[x] == target[x] by {
        let j = choose|j: int| 0 <= j < out.len() && (#[trigger] out[j]).0@ == x;
        if j < low {
            assert((ps[j]).0@ == x);
            lemma_lex_lt_total(x, k);
        } else if v is Some && j == low {
        } else {
            let idx = j - midlen + high;
            assert((ps[idx]).0@ == x);
        }
    }
    assert forall|x: Seq<u8>| #[trigger] target.contains_key(x) implies ps_map(out).contains_key(
        x,
    ) by {
        if v is Some && x == k {
            assert((out[low]).0@ == x);
        } else {
            assert(ps_map(ps).contains_key(x));
            let idx = choose|idx: int| 0 <= idx < ps.len() && (#[trigger] ps[idx]).0@ == x;
            if idx < low {
                assert((out[idx]).0@ == x);
            } else {
                assert(idx >= high);
                assert((out[idx - high + midlen]).0@ == x);
            }
        }
    }
    assert(ps_map(out) =~= target);
}

/// The pair list with `k` bound to `v`, or without `k` when `v` is `None`.
fn spliced_pairs(pairs: &Vec<(Vec<u8>, Vec<u8>)>, k: Vec<u8>, v: Option<Vec<u8>>) -> (out: Vec<
    (Vec<u8>, Vec<u8>),
>)
    requires
        ps_wf(pairs@),
        valid_utf8(k@),
    ensures
        ps_wf(out@),
        v matches Some(vv) ==> ps_map(out@) == ps_map(pairs@).insert(k@, vv@),
        v is None ==> ps_map(out@) == ps_map(pairs@).remove(k@),
{
    let ghost kk = k@;
    let mut out: Vec<(Vec<u8>, Vec<u8>)> = Vec::new();
    let mut i: usize = 0;
    loop
        invariant
            i <= pairs@.len(),
            ps_wf(pairs@),
            forall|j: int| 0 <= j < i ==> lex_lt((#[trigger] pairs@[j]).0@, kk),
            out@.len() == i,
            forall|j: int|
                0 <= j < i ==> (#[trigger] out@[j]).0@ == pairs@[j].0@ && out@[j].1@
                    == pairs@[j].1@,
            kk == k@,
        ensures
            i <= pairs@.len(),
            forall|j: int| 0 <= j < i ==> lex_lt((#[trigger] pairs@[j]).0@, kk),
            i < pairs@.len() ==> !lex_lt(pairs@[i as int].0@, kk),
            out@.len() == i,
            forall|j: int|
                0 <= j < i ==> (#[trigger] out@[j]).0@ == pairs@[j].0@ && out@[j].1@
                    == pairs@[j].1@,
        decreases pairs@.len() - i,
    {
        if i == pairs.len() {
            break;
        }
        if !bytes_lt(&pairs[i].0, &k) {
            break;
        }
        out.push((clone_bytes(&pairs[i].0), clone_bytes(&pairs[i].1)));
        i = i + 1;
    }
    let ghost low = i as int;
    let replaced: bool = i < pairs.len() && bytes_eq(&pairs[i].0, &k);
    let ghost vspec: Option<Seq<u8>> = match &v {
        Some(vv) => Some(vv@),
        None => None,
    };
    if let Some(vv) = v {
        out.push((k, vv));
    }
    let ghost midlen = out@.len() as int;
    if replaced {
        i = i + 1;
    }
    let ghost high = i as int;
    while i < pairs.len()
        invariant
            0 <= low <= high <= i <= pairs@.len(),
            midlen == low + (if vspec is Some { 1int } else { 0int }),
            ps_wf(pairs@),
            out@.len() == midlen + (i - high),
            forall|j: int|
                midlen <= j < out@.len() ==> (#[trigger] out@[j]).0@ == pairs@[j - midlen
                    + high].0@ && out@[j].1@ == pairs@[j - midlen + high].1@,
            forall|j: int|
                0 <= j < low ==> (#[trigger] out@[j]).0@ == pairs@[j].0@ && out@[j].1@
                    == pairs@[j].1@,
            vspec matches Some(vv) ==> out@[low].0@ == kk && out@[low].1@ == vv,
        decreases pairs@.len() - i,
    {
        let ghost prev = out@;
        out.push((clone_bytes(&pairs[i].0), clone_bytes(&pairs[i].1)));
        i = i + 1;
        proof {
            assert forall|j: int| 0 <= j < low implies (#[trigger] out@[j]).0@ == pairs@[j].0@
                && out@[j].1@ == pairs@[j].1@ by {
                assert(out@[j] == prev[j]);
            }
            assert forall|j: int| midlen <= j < out@.len() implies (#[trigger] out@[j]).0@
                == pairs@[j - midlen + high].0@ && out@[j].1@ == pairs@[j - midlen + high].1@ by {
                if j < prev.len() {
                    assert(out@[j] == prev[j]);
                } else {
                    assert(out@[j] == out@.last());
                }
            }
        }
    }
    proof {
        lemma_spliced_pairs(pairs@, kk, vspec, out@, low, high);
    }
    out
}

} // verus!
