//! The replicated log. Entries live at indices 1 and up, in a contiguous
//! prefix; index 0 means "before the log". Three watermarks order the log's
//! life: `apply_index <= commit_index <= last_index`. Entries and the applied
//! watermark are persisted in a store under decimal keys and a reserved key;
//! the committed watermark is not persisted and recovery re-derives it from
//! the applied one.

use crate::codec::{
    be_bytes_u64, dec_digits, dec_str, dec_u64, enc_str, enc_u64, lemma_dec_digits_injective,
    lemma_u64_be_round_trip, lemma_u64_round_trip, push_u64_be, read_u64_be, u64_be_bytes,
    u64_to_string, TAG_ENTRY,
};
use crate::store::{clone_bytes, Store};
use crate::Error;
use vstd::prelude::*;
use vstd::utf8::encode_utf8;

verus! {

/// A replicated log entry: the term it was proposed in, and the state machine
/// command, where `None` marks the no-op committed on leader election.
#[derive(Clone, Debug, PartialEq)]
pub struct Entry {
    pub term: u64,
    pub command: Option<Vec<u8>>,
}

/// The mathematical shape of an entry.
pub ghost struct EntryView {
    pub term: u64,
    pub command: Option<Seq<u8>>,
}

impl View for Entry {
    type V = EntryView;

    open spec fn view(&self) -> EntryView {
        EntryView {
            term: self.term,
            command: match self.command {
                Some(c) => Some(c@),
                None => None,
            },
        }
    }
}

/// Copies an entry.
pub fn clone_entry(e: &Entry) -> (r: Entry)
    ensures
        r@ == e@,
{
    Entry {
        term: e.term,
        command: match &e.command {
            Some(c) => Some(clone_bytes(c)),
            None => None,
        },
    }
}

// ---------------------------------------------------------------------------
// Entry codec and store keys
// ---------------------------------------------------------------------------

/// The encoding of an entry: a tag, the term, and the optional command behind
/// a presence byte.
pub open spec fn enc_entry(e: EntryView) -> Seq<u8> {
    match e.command {
        None => seq![TAG_ENTRY] + u64_be_bytes(e.term) + seq![0u8],
        Some(c) => seq![TAG_ENTRY] + u64_be_bytes(e.term) + seq![1u8] + c,
    }
}

/// The entry a byte string decodes at, if it has the right shape.
pub open spec fn dec_entry(b: Seq<u8>) -> Option<EntryView> {
    if b.len() >= 10 && b[0] == TAG_ENTRY {
        let t = be_bytes_u64(b.subrange(1, 9));
        if b[9] == 0u8 && b.len() == 10 {
            Some(EntryView { term: t, command: None })
        } else if b[9] == 1u8 {
            Some(EntryView { term: t, command: Some(b.skip(10)) })
        } else {
            None
        }
    } else {
        None
    }
}

/// Decoding an encoded entry gives the entry back.
pub proof fn lemma_entry_round_trip(e: EntryView)
    ensures
        dec_entry(enc_entry(e)) == Some(e),
{
    let b = enc_entry(e);
    assert(b.subrange(1, 9) =~= u64_be_bytes(e.term));
    lemma_u64_be_round_trip(e.term);
    match e.command {
        None => {},
        Some(c) => {
            assert(b.skip(10) =~= c);
        },
    }
}

/// A byte string that decodes at an entry is that entry's encoding.
pub proof fn lemma_dec_entry_canonical(b: Seq<u8>, e: EntryView)
    requires
        dec_entry(b) == Some(e),
    ensures
        b == enc_entry(e),
{
    crate::codec::lemma_u64_be_inverse(b.subrange(1, 9));
    assert(enc_entry(e) =~= b);
}

/// The store key of the entry at an index: its decimal string.
pub open spec fn entry_key(i: u64) -> Seq<u8> {
    encode_utf8(dec_digits(i))
}

/// The reserved key the applied watermark is persisted under.
pub open spec fn apply_key() -> Seq<u8> {
    encode_utf8("apply_index"@)
}

/// The reserved key of the current term.
pub open spec fn term_key() -> Seq<u8> {
    encode_utf8("term"@)
}

/// The reserved key of the vote cast in the current term.
pub open spec fn voted_key() -> Seq<u8> {
    encode_utf8("voted_for"@)
}

/// Distinct indices have distinct entry keys.
pub proof fn lemma_entry_key_injective(a: u64, b: u64)
    requires
        a != b,
    ensures
        entry_key(a) != entry_key(b),
{
    vstd::utf8::encode_utf8_decode_utf8(dec_digits(a));
    vstd::utf8::encode_utf8_decode_utf8(dec_digits(b));
    lemma_dec_digits_injective(a, b);
}

/// Entry keys never collide with the reserved keys, which start with letters.
pub proof fn lemma_entry_key_not_reserved(i: u64)
    ensures
        entry_key(i) != apply_key(),
        entry_key(i) != term_key(),
        entry_key(i) != voted_key(),
{
    vstd::utf8::encode_utf8_decode_utf8(dec_digits(i));
    vstd::utf8::encode_utf8_decode_utf8("apply_index"@);
    vstd::utf8::encode_utf8_decode_utf8("term"@);
    vstd::utf8::encode_utf8_decode_utf8("voted_for"@);
    reveal_strlit("apply_index");
    reveal_strlit("term");
    reveal_strlit("voted_for");
    crate::codec::lemma_dec_digits_are_digits(i);
    assert(dec_digits(i)[0] != 'a' && dec_digits(i)[0] != 't' && dec_digits(i)[0] != 'v');
}

/// The reserved keys are pairwise distinct.
pub proof fn lemma_reserved_keys_distinct()
    ensures
        apply_key() != term_key(),
        apply_key() != voted_key(),
        term_key() != voted_key(),
{
    vstd::utf8::encode_utf8_decode_utf8("apply_index"@);
    vstd::utf8::encode_utf8_decode_utf8("term"@);
    vstd::utf8::encode_utf8_decode_utf8("voted_for"@);
    reveal_strlit("apply_index");
    reveal_strlit("term");
    reveal_strlit("voted_for");
    assert("apply_index"@.len() != "term"@.len());
    assert("apply_index"@[0] != "voted_for"@[0]);
    assert("term"@[0] != "voted_for"@[0]);
}

/// Encodes an entry for the store.
pub fn encode_entry(e: &Entry) -> (r: Vec<u8>)
    ensures
        r@ == enc_entry(e@),
{
    let mut out: Vec<u8> = Vec::new();
    out.push(TAG_ENTRY);
    push_u64_be(&mut out, e.term);
    match &e.command {
        None => {
            out.push(0u8);
            proof {
                assert(out@ =~= enc_entry(e@));
            }
        },
        Some(c) => {
            out.push(1u8);
            let mut i: usize = 0;
            while i < c.len()
                invariant
                    i <= c@.len(),
                    out@ == seq![TAG_ENTRY] + u64_be_bytes(e.term) + seq![1u8] + c@.take(i as int),
                decreases c@.len() - i,
            {
                out.push(c[i]);
                i = i + 1;
                proof {
                    assert(out@ =~= seq![TAG_ENTRY] + u64_be_bytes(e.term) + seq![1u8] + c@.take(
                        i as int,
                    ));
                }
            }
            proof {
                assert(out@ =~= enc_entry(e@));
            }
        },
    }
    out
}

/// Decodes an entry read back from the store.
pub fn decode_entry(b: &Vec<u8>) -> (r: Option<Entry>)
    ensures
        match dec_entry(b@) {
            Some(ev) => r matches Some(e) && e@ == ev,
            None => r is None,
        },
{
    if b.len() >= 10 && b[0] == TAG_ENTRY {
        let term = read_u64_be(b, 1);
        if b[9] == 0u8 && b.len() == 10 {
            Some(Entry { term, command: None })
        } else if b[9] == 1u8 {
            let mut c: Vec<u8> = Vec::new();
            let mut i: usize = 10;
            while i < b.len()
                invariant
                    10 <= i <= b@.len(),
                    b@.len() >= 10,
                    c@ == b@.subrange(10, i as int),
                decreases b@.len() - i,
            {
                c.push(b[i]);
                i = i + 1;
                proof {
                    assert(c@ =~= b@.subrange(10, i as int));
                }
            }
            proof {
                assert(c@ =~= b@.skip(10));
            }
            Some(Entry { term, command: Some(c) })
        } else {
            None
        }
    } else {
        None
    }
}

// ---------------------------------------------------------------------------
// The log
// ---------------------------------------------------------------------------

/// The term of the entry at an index, or 0 off the log.
pub open spec fn term_at(s: Seq<EntryView>, i: u64) -> u64 {
    if 1 <= i <= s.len() {
        s[i - 1].term
    } else {
        0
    }
}

/// The entry at index 0, or at an index and term, is on the log.
pub open spec fn has_entry(s: Seq<EntryView>, index: u64, term: u64) -> bool {
    (index == 0 && term == 0) || (1 <= index <= s.len() && s[index - 1].term == term)
}

/// The replicated log over a store. Entries are kept in memory and mirrored
/// in the store; the applied watermark is persisted, the committed one is not.
#[derive(Debug)]
pub struct Log<S: Store> {
    kv: S,
    entries: Vec<Entry>,
    last_index: u64,
    last_term: u64,
    commit_index: u64,
    commit_term: u64,
    apply_index: u64,
    apply_term: u64,
}

impl<S: Store> View for Log<S> {
    type V = Seq<EntryView>;

    closed spec fn view(&self) -> Seq<EntryView> {
        self.entries@.map_values(|e: Entry| e@)
    }
}

impl<S: Store> Log<S> {
    /// The committed watermark.
    pub closed spec fn committed(&self) -> u64 {
        self.commit_index
    }

    /// The applied watermark.
    pub closed spec fn applied(&self) -> u64 {
        self.apply_index
    }

    /// The contents of the underlying store.
    pub closed spec fn store_view(&self) -> Map<Seq<u8>, Seq<u8>> {
        self.kv.sview()
    }

    /// Well-formedness: the watermarks are ordered and carry the terms of the
    /// entries they point at, and the store mirrors the entries and the
    /// applied watermark.
    pub closed spec fn inv(&self) -> bool {
        &&& self.entries@.len() == self.last_index as int
        &&& self.last_term == term_at(self@, self.last_index)
        &&& self.apply_index <= self.commit_index <= self.last_index
        &&& self.commit_term == term_at(self@, self.commit_index)
        &&& self.apply_term == term_at(self@, self.apply_index)
        &&& forall|i: u64|
            1 <= i <= self.last_index ==> self.kv.sview().contains_key(#[trigger] entry_key(i))
                && self.kv.sview()[entry_key(i)] == enc_entry(self@[i - 1])
        &&& if self.kv.sview().contains_key(apply_key()) {
            self.kv.sview()[apply_key()] == enc_u64(self.apply_index)
        } else {
            self.apply_index == 0
        }
    }

    /// The watermarks are ordered: applied at or below committed, committed at
    /// or below the last stored index.
    pub proof fn lemma_watermarks_ordered(&self)
        requires
            self.inv(),
        ensures
            self.applied() <= self.committed() <= self@.len(),
            self@.len() <= u64::MAX,
    {
    }

    /// Fetches the last applied index and term.
    pub fn get_applied(&self) -> (r: (u64, u64))
        requires
            self.inv(),
        ensures
            r == (self.applied(), term_at(self@, self.applied())),
    {
        (self.apply_index, self.apply_term)
    }

    /// Fetches the last committed index and term.
    pub fn get_committed(&self) -> (r: (u64, u64))
        requires
            self.inv(),
        ensures
            r == (self.committed(), term_at(self@, self.committed())),
    {
        (self.commit_index, self.commit_term)
    }

    /// Fetches the last stored index and term.
    pub fn get_last(&self) -> (r: (u64, u64))
        requires
            self.inv(),
        ensures
            r == (self@.len() as u64, term_at(self@, self@.len() as u64)),
    {
        (self.last_index, self.last_term)
    }

    /// Gives the underlying store back, consuming the log.
    pub fn into_store(self) -> (s: S)
        ensures
            s.sview() == self.store_view(),
    {
        self.kv
    }

    /// Fetches the entry at an index.
    pub fn get(&self, index: u64) -> (r: Result<Option<Entry>, Error>)
        requires
            self.inv(),
        ensures
            r matches Ok(o) && match o {
                Some(e) => 1 <= index <= self@.len() && e@ == self@[index - 1],
                None => index == 0 || index > self@.len(),
            },
    {
        if index == 0 || index > self.last_index {
            Ok(None)
        } else {
            let n: usize = self.entries.len();
            let i: usize = (index - 1) as usize;
            proof {
                assert(i as int == index - 1);
                assert(self@[index - 1] == self.entries@[i as int]@);
            }
            Ok(Some(clone_entry(&self.entries[i])))
        }
    }

    /// Checks whether the log has an entry at the index and term, with (0, 0)
    /// standing for the empty prefix.
    pub fn has(&self, index: u64, term: u64) -> (r: Result<bool, Error>)
        requires
            self.inv(),
        ensures
            r == Ok::<bool, Error>(has_entry(self@, index, term)),
    {
        if index == 0 && term == 0 {
            return Ok(true);
        }
        if index == 0 || index > self.last_index {
            return Ok(false);
        }
        let n: usize = self.entries.len();
        let i: usize = (index - 1) as usize;
        proof {
            assert(i as int == index - 1);
            assert(self@[index - 1] == self.entries@[i as int]@);
        }
        Ok(self.entries[i].term == term)
    }

    /// Commits entries up to an index, clamped to what is stored and never
    /// moving backwards. Returns the effective committed index.
    pub fn commit(&mut self, index: u64) -> (r: Result<u64, Error>)
        requires
            old(self).inv(),
        ensures
            final(self).inv(),
            final(self)@ == old(self)@,
            final(self).applied() == old(self).applied(),
            final(self).store_view() == old(self).store_view(),
            final(self).committed() == clamped_commit(old(self)@, old(self).committed(), index),
            r == Ok::<u64, Error>(final(self).committed()),
    {
        let mut index = index;
        if index > self.last_index {
            index = self.last_index;
        }
        if index < self.commit_index {
            index = self.commit_index;
        }
        if index != self.commit_index {
            let n: usize = self.entries.len();
            let i: usize = (index - 1) as usize;
            proof {
                assert(i as int == index - 1);
                assert(self@[index - 1] == self.entries@[i as int]@);
            }
            self.commit_term = self.entries[i].term;
            self.commit_index = index;
        }
        Ok(self.commit_index)
    }
}

/// Where a commit request lands: clamped into the window between the current
/// committed index and the last stored index.
pub open spec fn clamped_commit(s: Seq<EntryView>, committed: u64, index: u64) -> u64 {
    if index > s.len() {
        if committed > s.len() {
            committed
        } else {
            s.len() as u64
        }
    } else if index < committed {
        committed
    } else {
        index
    }
}

impl<S: Store> Log<S> {
    /// Opens a log over a store: reads the applied watermark back, re-derives
    /// the committed watermark from it, and scans the contiguous prefix of
    /// entry keys from 1 upward. Refuses a store whose applied watermark
    /// points past the stored prefix.
    pub fn new(store: S) -> (r: Result<Self, Error>)
        ensures
            r matches Ok(l) ==> {
                let m = store.sview();
                &&& l.inv()
                &&& l.store_view() == m
                &&& l.committed() == l.applied()
                &&& l.applied() <= l@.len()
                &&& (m.contains_key(apply_key()) ==> dec_u64(m[apply_key()]) == Some(l.applied()))
                &&& (!m.contains_key(apply_key()) ==> l.applied() == 0)
                &&& (forall|i: u64|
                    1 <= i <= l@.len() ==> m.contains_key(#[trigger] entry_key(i)) && dec_entry(
                        m[entry_key(i)],
                    ) == Some(l@[i - 1]))
                &&& (l@.len() + 1 < u64::MAX ==> !m.contains_key(entry_key((l@.len() + 1) as u64)))
            },
            r matches Err(e) ==> e matches Error::IO(_) || e matches Error::Internal(_),
            store.sview().contains_key(apply_key()) && dec_u64(
                store.sview()[apply_key()],
            ) is None ==> r is Err,
            ({
                let m = store.sview();
                m.contains_key(apply_key()) && (dec_u64(m[apply_key()]) matches Some(a) && a > 0
                    && !m.contains_key(entry_key(a))) ==> r is Err
            }),
    {
        let ghost m = store.sview();
        let apply_index: u64 = match store.get("apply_index") {
            Err(e) => {
                return Err(e);
            },
            Ok(None) => 0,
            Ok(Some(v)) => match crate::codec::decode_u64(&v) {
                Some(n) => n,
                None => {
                    return Err(Error::Internal("stored applied index is malformed".to_owned()));
                },
            },
        };
        let mut entries: Vec<Entry> = Vec::new();
        let mut i: u64 = 1;
        loop
            invariant
                1 <= i,
                m == store.sview(),
                entries@.len() == i - 1,
                forall|j: u64|
                    1 <= j < i ==> m.contains_key(#[trigger] entry_key(j)) && dec_entry(
                        m[entry_key(j)],
                    ) == Some(entries@.map_values(|e: Entry| e@)[j - 1]),
            ensures
                entries@.len() == i - 1,
                forall|j: u64|
                    1 <= j < i ==> m.contains_key(#[trigger] entry_key(j)) && dec_entry(
                        m[entry_key(j)],
                    ) == Some(entries@.map_values(|e: Entry| e@)[j - 1]),
                i == u64::MAX || !m.contains_key(entry_key(i)),
            decreases u64::MAX - i,
        {
            if i == u64::MAX {
                break;
            }
            let key = u64_to_string(i);
            match store.get(key.as_str()) {
                Err(e) => {
                    return Err(e);
                },
                Ok(None) => {
                    break;
                },
                Ok(Some(v)) => match decode_entry(&v) {
                    None => {
                        return Err(Error::Internal("stored entry is malformed".to_owned()));
                    },
                    Some(e) => {
                        let ghost prev = entries@;
                        entries.push(e);
                        i = i + 1;
                        proof {
                            assert(forall|j: int|
                                0 <= j < prev.len() ==> #[trigger] entries@[j] == prev[j]);
                        }
                    },
                },
            }
        }
        let n: usize = entries.len();
        let last_index: u64 = n as u64;
        let last_term: u64 = if n == 0 {
            0
        } else {
            entries[n - 1].term
        };
        if apply_index > last_index {
            return Err(Error::Internal("applied entry not found".to_owned()));
        }
        let watermark_term: u64 = if apply_index == 0 {
            0
        } else {
            entries[(apply_index - 1) as usize].term
        };
        let log = Log {
            kv: store,
            entries,
            last_index,
            last_term,
            commit_index: apply_index,
            commit_term: watermark_term,
            apply_index,
            apply_term: watermark_term,
        };
        proof {
            assert forall|j: u64|
                1 <= j <= log.last_index implies log.kv.sview().contains_key(
                #[trigger] entry_key(j),
            ) && log.kv.sview()[entry_key(j)] == enc_entry(log@[j - 1]) by {
                lemma_dec_entry_canonical(m[entry_key(j)], log@[j - 1]);
            }
            if m.contains_key(apply_key()) {
                crate::codec::lemma_dec_u64_canonical(m[apply_key()], apply_index);
            }
        }
        Ok(log)
    }

    /// Appends an entry at the next index and persists it. The index grows by
    /// one; the watermarks stay.
    pub fn append(&mut self, entry: Entry) -> (r: Result<u64, Error>)
        requires
            old(self).inv(),
        ensures
            final(self).inv(),
            final(self).committed() == old(self).committed(),
            final(self).applied() == old(self).applied(),
            r matches Ok(i) ==> i == old(self)@.len() + 1 && final(self)@ == old(self)@.push(
                entry@,
            ) && final(self).store_view() == old(self).store_view().insert(
                entry_key(i),
                enc_entry(entry@),
            ),
            r is Err ==> final(self)@ == old(self)@
                && final(self).store_view() == old(self).store_view(),
            r matches Err(e) ==> e matches Error::IO(_) || e matches Error::Internal(_),
    {
        if self.last_index == u64::MAX {
            return Err(Error::Internal("the log is full".to_owned()));
        }
        let index = self.last_index + 1;
        let bytes = encode_entry(&entry);
        let key = u64_to_string(index);
        match self.kv.set(key.as_str(), bytes) {
            Err(e) => Err(e),
            Ok(()) => {
                let ghost prev = self.entries@;
                self.last_index = index;
                self.last_term = entry.term;
                self.entries.push(entry);
                proof {
                    assert(self@ =~= prev.map_values(|e: Entry| e@).push(self.entries@[prev.len()
                        as int]@));
                    assert forall|i: u64|
                        1 <= i <= self.last_index implies self.kv.sview().contains_key(
                        #[trigger] entry_key(i),
                    ) && self.kv.sview()[entry_key(i)] == enc_entry(self@[i - 1]) by {
                        if i < index {
                            lemma_entry_key_injective(i, index);
                        }
                    }
                    lemma_entry_key_not_reserved(index);
                }
                Ok(index)
            },
        }
    }

    /// Applies the next committed entry, if any, to the state machine and
    /// persists the new applied watermark. Non-noop commands go to `mutate`;
    /// a noop applies with an empty output.
    pub fn apply<M: crate::raft::state::State>(&mut self, state: &mut M) -> (r: Result<
        Option<(u64, Vec<u8>)>,
        Error,
    >)
        requires
            old(self).inv(),
        ensures
            final(self).inv(),
            final(self)@ == old(self)@,
            final(self).committed() == old(self).committed(),
            old(self).applied() >= old(self).committed() ==> r == Ok::<
                Option<(u64, Vec<u8>)>,
                Error,
            >(None) && final(self).applied() == old(self).applied() && final(self).store_view()
                == old(self).store_view() && *final(state) == *old(state),
            old(self).applied() < old(self).committed() ==> {
                let idx = (old(self).applied() + 1) as u64;
                &&& (r matches Ok(o) ==> o matches Some(p) && p.0 == idx && final(self).applied()
                    == idx && final(self).store_view() == old(self).store_view().insert(
                    apply_key(),
                    enc_u64(idx),
                ) && (old(self)@[idx - 1].command is None ==> p.1@ == Seq::<u8>::empty()
                    && *final(state) == *old(state)))
                &&& (r is Err ==> final(self).applied() == old(self).applied()
                    && final(self).store_view() == old(self).store_view())
            },
    {
        if self.apply_index >= self.commit_index {
            return Ok(None);
        }
        let idx = self.apply_index + 1;
        let n: usize = self.entries.len();
        let i: usize = (idx - 1) as usize;
        let mut output: Vec<u8> = Vec::new();
        let has_command: bool = match &self.entries[i].command {
            Some(_) => true,
            None => false,
        };
        if has_command {
            let cmd: Vec<u8> = match &self.entries[i].command {
                Some(c) => clone_bytes(c),
                None => Vec::new(),
            };
            match state.mutate(cmd) {
                Ok(o) => {
                    output = o;
                },
                Err(e) => {
                    return Err(e);
                },
            }
        }
        let bytes = crate::codec::encode_u64(idx);
        match self.kv.set("apply_index", bytes) {
            Err(e) => Err(e),
            Ok(()) => {
                self.apply_index = idx;
                self.apply_term = self.entries[i].term;
                proof {
                    assert forall|j: u64|
                        1 <= j <= self.last_index implies self.kv.sview().contains_key(
                        #[trigger] entry_key(j),
                    ) && self.kv.sview()[entry_key(j)] == enc_entry(self@[j - 1]) by {
                        lemma_entry_key_not_reserved(j);
                    }
                }
                Ok(Some((idx, output)))
            },
        }
    }

    /// Applies the next committed entry, if any, delivering the mutation's
    /// outcome in-band: a failing mutation still advances the watermark, so
    /// a committed command is handed to the state machine exactly once, and
    /// its error can be answered to the caller. Only a store failure, which
    /// leaves the watermark alone, is returned outward.
    pub fn apply_pending<M: crate::raft::state::State>(&mut self, state: &mut M) -> (r: Result<
        Option<(u64, Result<Vec<u8>, Error>)>,
        Error,
    >)
        requires
            old(self).inv(),
        ensures
            final(self).inv(),
            final(self)@ == old(self)@,
            final(self).committed() == old(self).committed(),
            old(self).applied() >= old(self).committed() ==> r == Ok::<
                Option<(u64, Result<Vec<u8>, Error>)>,
                Error,
            >(None) && final(self).applied() == old(self).applied() && final(self).store_view()
                == old(self).store_view() && *final(state) == *old(state),
            old(self).applied() < old(self).committed() ==> {
                let idx = (old(self).applied() + 1) as u64;
                &&& (r matches Ok(o) ==> o matches Some(p) && p.0 == idx && final(self).applied()
                    == idx && final(self).store_view() == old(self).store_view().insert(
                    apply_key(),
                    enc_u64(idx),
                ) && (old(self)@[idx - 1].command is None ==> (p.1 matches Ok(out) && out@
                    == Seq::<u8>::empty()) && *final(state) == *old(state)))
                &&& (r is Err ==> final(self).applied() == old(self).applied()
                    && final(self).store_view() == old(self).store_view())
            },
            r matches Err(e) ==> e matches Error::IO(_),
    {
        if self.apply_index >= self.commit_index {
            return Ok(None);
        }
        let idx = self.apply_index + 1;
        let n: usize = self.entries.len();
        let i: usize = (idx - 1) as usize;
        let outcome: Result<Vec<u8>, Error> = match &self.entries[i].command {
            Some(c) => {
                let cmd = clone_bytes(c);
                state.mutate(cmd)
            },
            None => Ok(Vec::new()),
        };
        let bytes = crate::codec::encode_u64(idx);
        match self.kv.set("apply_index", bytes) {
            Err(e) => Err(e),
            Ok(()) => {
                self.apply_index = idx;
                self.apply_term = self.entries[i].term;
                proof {
                    assert forall|j: u64|
                        1 <= j <= self.last_index implies self.kv.sview().contains_key(
                        #[trigger] entry_key(j),
                    ) && self.kv.sview()[entry_key(j)] == enc_entry(self@[j - 1]) by {
                        lemma_entry_key_not_reserved(j);
                    }
                }
                Ok(Some((idx, outcome)))
            },
        }
    }

    /// Truncates the log so that its last index is at most `index`, deleting
    /// the entries above it from the store, top down. Refuses to remove
    /// applied or committed entries.
    pub fn truncate(&mut self, index: u64) -> (r: Result<u64, Error>)
        requires
            old(self).inv(),
        ensures
            final(self).inv(),
            final(self).committed() == old(self).committed(),
            final(self).applied() == old(self).applied(),
            final(self)@.take(old(self).committed() as int) == old(self)@.take(
                old(self).committed() as int,
            ),
            index < old(self).committed() ==> (r matches Err(e) && (e matches Error::Value(_))
                && final(self)@ == old(self)@
                && final(self).store_view() == old(self).store_view()),
            index >= old(self).committed() ==> (r matches Ok(n) ==> n == min_u64(
                index,
                old(self)@.len() as u64,
            ) && final(self)@ == old(self)@.take(n as int)
                && final(self).store_view() == old(self).store_view().remove_keys(
                entry_keys_above(n, old(self)@.len() as u64),
            )),
            r is Err ==> exists|mid: u64|
                index <= mid <= old(self)@.len() && final(self)@ == old(self)@.take(mid as int),
            r matches Err(e) ==> e matches Error::Value(_) || e matches Error::IO(_),
            index >= old(self).committed() ==> (r matches Err(e) ==> e matches Error::IO(_)),
    {
        if index < self.apply_index {
            proof {
                assert(old(self)@.take(old(self)@.len() as int) =~= old(self)@);
                assert(index <= old(self)@.len());
            }
            return Err(Error::Value("cannot remove an applied log entry".to_owned()));
        }
        if index < self.commit_index {
            proof {
                assert(old(self)@.take(old(self)@.len() as int) =~= old(self)@);
                assert(index <= old(self)@.len());
            }
            return Err(Error::Value("cannot remove a committed log entry".to_owned()));
        }
        let ghost orig = *self;
        while self.last_index > index
            invariant
                orig == *old(self),
                self.inv(),
                orig@.len() <= u64::MAX,
                index >= self.commit_index,
                self.commit_index == orig.commit_index,
                self.commit_term == orig.commit_term,
                self.apply_index == orig.apply_index,
                self.apply_term == orig.apply_term,
                min_u64(index, orig@.len() as u64) <= self.last_index <= orig@.len(),
                self@ == orig@.take(self.last_index as int),
                self.store_view() == orig.store_view().remove_keys(
                    entry_keys_above(self.last_index, orig@.len() as u64),
                ),
            decreases self.last_index,
        {
            let drop_index = self.last_index;
            let key = u64_to_string(drop_index);
            match self.kv.delete(key.as_str()) {
                Err(e) => {
                    proof {
                        assert(self@ == orig@.take(self.last_index as int));
                    }
                    return Err(e);
                },
                Ok(()) => {
                    let ghost prevs = *self;
                    self.entries.pop();
                    self.last_index = drop_index - 1;
                    let n: usize = self.entries.len();
                    self.last_term = if n == 0 {
                        0
                    } else {
                        self.entries[n - 1].term
                    };
                    proof {
                        assert(self@ =~= orig@.take(self.last_index as int));
                        assert forall|j: u64|
                            1 <= j <= self.last_index implies self.kv.sview().contains_key(
                            #[trigger] entry_key(j),
                        ) && self.kv.sview()[entry_key(j)] == enc_entry(self@[j - 1]) by {
                            lemma_entry_key_injective(j, drop_index);
                        }
                        lemma_entry_key_not_reserved(drop_index);
                        let oldlen = orig@.len() as u64;
                        let above_prev = entry_keys_above(prevs.last_index, oldlen);
                        let above_new = entry_keys_above(self.last_index, oldlen);
                        assert(above_new =~= above_prev.insert(entry_key(drop_index))) by {
                            assert forall|k: Seq<u8>| #[trigger] above_new.contains(k) implies above_prev.insert(
                                entry_key(drop_index),
                            ).contains(k) by {
                                let j = choose|j: u64|
                                    self.last_index < j <= oldlen && k == #[trigger] entry_key(j);
                                if j != drop_index {
                                    assert(above_prev.contains(k));
                                }
                            }
                            assert forall|k: Seq<u8>| #[trigger] above_prev.insert(
                                entry_key(drop_index),
                            ).contains(k) implies above_new.contains(k) by {
                                if k == entry_key(drop_index) {
                                    assert(self.last_index < drop_index <= oldlen);
                                } else {
                                    let j = choose|j: u64|
                                        prevs.last_index < j <= oldlen && k == #[trigger] entry_key(
                                            j,
                                        );
                                    assert(self.last_index < j <= oldlen);
                                }
                            }
                        }
                        assert(self.kv.sview() =~= orig.store_view().remove_keys(above_new));
                    }
                },
            }
        }
        Ok(self.last_index)
    }
}

// ---------------------------------------------------------------------------
// Splice
// ---------------------------------------------------------------------------

/// The first position in `es`, at or after `k`, whose target index leaves the
/// stored prefix or disagrees with it on the term; `es.len()` when none does.
pub open spec fn first_divergence(s: Seq<EntryView>, base: int, es: Seq<EntryView>, k: int) -> int
    decreases es.len() - k,
{
    if k < 0 || k >= es.len() {
        es.len() as int
    } else if base + k >= s.len() || s[base + k].term != es[k].term {
        k
    } else {
        first_divergence(s, base, es, k + 1)
    }
}

/// What a successful splice leaves: the stored prefix up to the first
/// divergence, then the incoming entries from there on; the log as it was
/// when the incoming entries all match stored ones.
pub open spec fn splice_result(s: Seq<EntryView>, base: u64, es: Seq<EntryView>) -> Seq<
    EntryView,
> {
    let k0 = first_divergence(s, base as int, es, 0);
    if k0 == es.len() {
        s
    } else {
        s.take(base + k0) + es.skip(k0)
    }
}

/// What `first_divergence` means, spelled out.
pub proof fn lemma_first_divergence(s: Seq<EntryView>, base: int, es: Seq<EntryView>, k: int)
    requires
        0 <= k <= es.len(),
        0 <= base,
        base + k <= s.len(),
    ensures
        k <= first_divergence(s, base, es, k) <= es.len(),
        base + first_divergence(s, base, es, k) <= s.len(),
        forall|j: int|
            k <= j < first_divergence(s, base, es, k) ==> base + j < s.len() && s[base + j].term
                == #[trigger] es[j].term,
        first_divergence(s, base, es, k) < es.len() ==> {
            let d = first_divergence(s, base, es, k);
            base + d >= s.len() || s[base + d].term != es[d].term
        },
    decreases es.len() - k,
{
    if k < es.len() && !(base + k >= s.len() || s[base + k].term != es[k].term) {
        lemma_first_divergence(s, base, es, k + 1);
    }
}

/// Splicing the same entries onto the same base twice changes nothing the
/// second time.
pub proof fn lemma_splice_idempotent(s: Seq<EntryView>, base: u64, es: Seq<EntryView>)
    requires
        base <= s.len(),
    ensures
        splice_result(splice_result(s, base, es), base, es) == splice_result(s, base, es),
{
    lemma_first_divergence(s, base as int, es, 0);
    let k0 = first_divergence(s, base as int, es, 0);
    let t = splice_result(s, base, es);
    lemma_first_divergence(t, base as int, es, 0);
    let k1 = first_divergence(t, base as int, es, 0);
    if k0 == es.len() {
        assert(t == s);
        if k1 < es.len() {
            assert(base + k1 < s.len() && s[base + k1].term == es[k1].term);
        }
    } else {
        assert(t.len() == base + es.len());
        assert forall|j: int| 0 <= j < es.len() implies base + j < t.len() && t[base + j].term
            == #[trigger] es[j].term by {
            if j < k0 {
                assert(t[base + j] == s[base + j]);
            } else {
                assert(t[base + j] == es.skip(k0)[base + j - (base + k0)]);
            }
        }
        assert(k1 == es.len());
    }
}

/// Splicing entries whose terms continue the stored order keeps the terms
/// monotone along the log.
pub proof fn lemma_splice_preserves_monotone(s: Seq<EntryView>, base: u64, es: Seq<EntryView>)
    requires
        terms_monotone(s),
        terms_monotone(es),
        base <= s.len(),
        es.len() > 0 && base > 0 ==> s[base - 1].term <= es[0].term,
    ensures
        terms_monotone(splice_result(s, base, es)),
{
    lemma_first_divergence(s, base as int, es, 0);
    let k0 = first_divergence(s, base as int, es, 0);
    let t = splice_result(s, base, es);
    if k0 < es.len() {
        assert forall|i: int, j: int| 0 <= i <= j < t.len() implies #[trigger] t[i].term
            <= #[trigger] t[j].term by {
            if i < base + k0 && j >= base + k0 {
                assert(t[i] == s[i]);
                assert(t[j] == es[j - base]);
                if base + k0 > 0 {
                    let boundary: int = base + k0 - 1;
                    assert(t[boundary] == s[boundary]);
                    assert(s[i].term <= s[boundary].term);
                    if k0 > 0 {
                        assert(s[boundary].term == es[k0 - 1].term);
                        assert(es[k0 - 1].term <= es[j - base].term);
                    } else {
                        assert(s[base - 1].term <= es[0].term);
                        assert(es[0].term <= es[j - base].term);
                    }
                }
            } else if i >= base + k0 {
                assert(t[i] == es[i - base] && t[j] == es[j - base]);
            } else {
                assert(t[i] == s[i] && t[j] == s[j]);
            }
        }
    }
}

/// Terms never decrease along the log.
pub open spec fn terms_monotone(s: Seq<EntryView>) -> bool {
    forall|i: int, j: int| 0 <= i <= j < s.len() ==> #[trigger] s[i].term <= #[trigger] s[j].term
}

/// Appending an entry whose term continues the stored order keeps the terms
/// monotone along the log.
pub proof fn lemma_append_preserves_monotone(s: Seq<EntryView>, e: EntryView)
    requires
        terms_monotone(s),
        s.len() > 0 ==> s.last().term <= e.term,
    ensures
        terms_monotone(s.push(e)),
{
    let t = s.push(e);
    assert forall|i: int, j: int| 0 <= i <= j < t.len() implies #[trigger] t[i].term
        <= #[trigger] t[j].term by {
        if j == t.len() - 1 {
            if i < j {
                assert(t[i] == s[i]);
                assert(s[i].term <= s[s.len() - 1].term);
            }
        } else {
            assert(t[i] == s[i] && t[j] == s[j]);
        }
    }
}

impl<S: Store> Log<S> {
    /// Splices entries onto a base: fails when no stored entry matches the
    /// base index and term; skips incoming entries whose stored twin has the
    /// same term; truncates and appends from the first disagreement on.
    pub fn splice(&mut self, base: u64, base_term: u64, entries: Vec<Entry>) -> (r: Result<
        u64,
        Error,
    >)
        requires
            old(self).inv(),
        ensures
            final(self).inv(),
            final(self).committed() == old(self).committed(),
            final(self).applied() == old(self).applied(),
            !has_entry(old(self)@, base, base_term) ==> r == Err::<u64, Error>(
                Error::RaftBaseNotFound { index: base, term: base_term },
            ) && final(self)@ == old(self)@ && final(self).store_view() == old(self).store_view(),
            final(self)@.take(old(self).committed() as int) == old(self)@.take(
                old(self).committed() as int,
            ),
            has_entry(old(self)@, base, base_term) ==> {
                let es = entries@.map_values(|e: Entry| e@);
                let target = splice_result(old(self)@, base, es);
                let div = first_divergence(old(self)@, base as int, es, 0);
                &&& (r matches Ok(n) ==> final(self)@ == target && n == target.len())
                &&& (div < es.len() && base + div < old(self).committed() ==> (r matches Err(e)
                    && (e matches Error::Value(_)) && final(self)@ == old(self)@
                    && final(self).store_view() == old(self).store_view()))
                &&& (r matches Err(e) ==> e matches Error::Value(_) || e matches Error::IO(_)
                    || e matches Error::Internal(_))
            },
    {
        let has_base = match self.has(base, base_term) {
            Ok(b) => b,
            Err(e) => {
                return Err(e);
            },
        };
        if !has_base {
            return Err(Error::RaftBaseNotFound { index: base, term: base_term });
        }
        let ghost orig = *self;
        let ghost esv = entries@.map_values(|e: Entry| e@);
        proof {
            lemma_first_divergence(orig@, base as int, esv, 0);
        }
        // Find the first incoming entry that is not already stored unchanged.
        let mut k: usize = 0;
        loop
            invariant
                *self == orig,
                self.inv(),
                esv == entries@.map_values(|e: Entry| e@),
                base <= orig@.len(),
                0 <= k <= esv.len(),
                first_divergence(orig@, base as int, esv, 0) == first_divergence(
                    orig@,
                    base as int,
                    esv,
                    k as int,
                ),
                forall|j: int|
                    0 <= j < k ==> base + j < orig@.len() && orig@[base + j].term
                        == #[trigger] esv[j].term,
            ensures
                *self == orig,
                k as int == first_divergence(orig@, base as int, esv, 0),
            decreases esv.len() - k,
        {
            if k == entries.len() {
                break;
            }
            if (k as u64) >= self.last_index - base {
                break;
            }
            let target = base + (k as u64);
            let n: usize = self.entries.len();
            let i: usize = target as usize;
            if self.entries[i].term != entries[k].term {
                break;
            }
            k = k + 1;
            proof {
                assert(first_divergence(orig@, base as int, esv, k - 1) == first_divergence(
                    orig@,
                    base as int,
                    esv,
                    k as int,
                ));
            }
        }
        if k == entries.len() {
            return Ok(self.last_index);
        }
        // Truncate the stored tail if it disagrees, then append the rest.
        let ghost k0 = k as int;
        let target = base + (k as u64);
        if target < self.last_index {
            if target < self.commit_index {
                return Err(Error::Value(
                    "spliced entries would overwrite a committed entry".to_owned(),
                ));
            }
            match self.truncate(target) {
                Err(e) => {
                    proof {
                        let mid = choose|mid: u64|
                            target <= mid <= orig@.len() && self@ == orig@.take(mid as int);
                        assert(self@.take(orig.commit_index as int) =~= orig@.take(
                            orig.commit_index as int,
                        ));
                    }
                    return Err(e);
                },
                Ok(_) => {},
            }
        }
        let mut j: usize = k;
        while j < entries.len()
            invariant
                orig == *old(self),
                has_entry(orig@, base, base_term),
                self.inv(),
                esv == entries@.map_values(|e: Entry| e@),
                self.commit_index == orig.commit_index,
                self.apply_index == orig.apply_index,
                k0 == first_divergence(orig@, base as int, esv, 0),
                0 <= k0 <= j <= esv.len(),
                k0 < esv.len(),
                base + k0 <= orig@.len(),
                orig.commit_index <= base + k0,
                self@ =~= orig@.take(base + k0) + esv.subrange(k0, j as int),
            decreases esv.len() - j,
        {
            let e = clone_entry(&entries[j]);
            match self.append(e) {
                Err(err) => {
                    proof {
                        assert(self@.take(orig.commit_index as int) =~= orig@.take(
                            orig.commit_index as int,
                        ));
                    }
                    return Err(err);
                },
                Ok(_) => {},
            }
            j = j + 1;
            proof {
                assert(self@ =~= orig@.take(base + k0) + esv.subrange(k0, j as int));
            }
        }
        proof {
            assert(esv.subrange(k0, esv.len() as int) =~= esv.skip(k0));
            assert(self@ =~= splice_result(orig@, base, esv));
            assert(self@.take(orig.commit_index as int) =~= orig@.take(orig.commit_index as int));
        }
        Ok(self.last_index)
    }
}

/// The store contents after the current term and vote are saved: zero or
/// absent values are deleted, the others written under the reserved keys.
pub open spec fn saved_term_view(
    m: Map<Seq<u8>, Seq<u8>>,
    term: u64,
    voted: Option<Seq<char>>,
) -> Map<Seq<u8>, Seq<u8>> {
    let m1 = if term > 0 {
        m.insert(term_key(), enc_u64(term))
    } else {
        m.remove(term_key())
    };
    match voted {
        Some(s) => m1.insert(voted_key(), enc_str(s)),
        None => m1.remove(voted_key()),
    }
}

impl<S: Store> Log<S> {
    /// Loads the most recent term and the vote cast in it, with 0 and `None`
    /// standing for absent keys.
    pub fn load_term(&self) -> (r: Result<(u64, Option<String>), Error>)
        ensures
            r matches Ok(p) ==> {
                &&& (self.store_view().contains_key(term_key()) ==> dec_u64(
                    self.store_view()[term_key()],
                ) == Some(p.0))
                &&& (!self.store_view().contains_key(term_key()) ==> p.0 == 0)
                &&& (match p.1 {
                    Some(s) => self.store_view().contains_key(voted_key()) && dec_str(
                        self.store_view()[voted_key()],
                    ) == Some(s@),
                    None => !self.store_view().contains_key(voted_key()),
                })
            },
            r matches Err(e) ==> e matches Error::IO(_) || e matches Error::Internal(_),
            self.store_view().contains_key(term_key()) && dec_u64(
                self.store_view()[term_key()],
            ) is None ==> r is Err,
            self.store_view().contains_key(voted_key()) && dec_str(
                self.store_view()[voted_key()],
            ) is None ==> r is Err,
    {
        let term: u64 = match self.kv.get("term") {
            Err(e) => {
                return Err(e);
            },
            Ok(None) => 0,
            Ok(Some(v)) => match crate::codec::decode_u64(&v) {
                Some(t) => t,
                None => {
                    return Err(Error::Internal("stored term is malformed".to_owned()));
                },
            },
        };
        let voted_for: Option<String> = match self.kv.get("voted_for") {
            Err(e) => {
                return Err(e);
            },
            Ok(None) => None,
            Ok(Some(v)) => match crate::codec::decode_str(&v) {
                Some(s) => Some(s),
                None => {
                    return Err(Error::Internal("stored vote is malformed".to_owned()));
                },
            },
        };
        Ok((term, voted_for))
    }

    /// Saves the most recent term and the vote cast in it; a zero term or an
    /// absent vote deletes the respective key.
    pub fn save_term(&mut self, term: u64, voted_for: Option<&str>) -> (r: Result<(), Error>)
        requires
            old(self).inv(),
        ensures
            final(self).inv(),
            final(self)@ == old(self)@,
            final(self).committed() == old(self).committed(),
            final(self).applied() == old(self).applied(),
            r is Ok ==> final(self).store_view() == saved_term_view(
                old(self).store_view(),
                term,
                match voted_for {
                    Some(s) => Some(s@),
                    None => None,
                },
            ),
    {
        let step1 = if term > 0 {
            self.kv.set("term", crate::codec::encode_u64(term))
        } else {
            self.kv.delete("term")
        };
        proof {
            lemma_reserved_keys_distinct();
            assert forall|j: u64|
                1 <= j <= self.last_index implies self.kv.sview().contains_key(
                #[trigger] entry_key(j),
            ) && self.kv.sview()[entry_key(j)] == enc_entry(self@[j - 1]) by {
                lemma_entry_key_not_reserved(j);
            }
        }
        if let Err(e) = step1 {
            return Err(e);
        }
        let step2 = match voted_for {
            Some(s) => self.kv.set("voted_for", crate::codec::encode_str(s)),
            None => self.kv.delete("voted_for"),
        };
        proof {
            lemma_reserved_keys_distinct();
            assert forall|j: u64|
                1 <= j <= self.last_index implies self.kv.sview().contains_key(
                #[trigger] entry_key(j),
            ) && self.kv.sview()[entry_key(j)] == enc_entry(self@[j - 1]) by {
                lemma_entry_key_not_reserved(j);
            }
        }
        if let Err(e) = step2 {
            return Err(e);
        }
        Ok(())
    }

    /// Fetches the dense run of entries from an index through the end of the
    /// log; indices 0 and 1 both start at the front.
    pub fn range(&self, from: u64) -> (r: Result<Vec<Entry>, Error>)
        requires
            self.inv(),
        ensures
            r matches Ok(es) && es@.map_values(|e: Entry| e@) == self@.skip(range_start(
                from,
                self@.len() as u64,
            )),
    {
        let mut out: Vec<Entry> = Vec::new();
        let n: usize = self.entries.len();
        let mut idx: usize = if from <= 1 {
            0
        } else if from > self.last_index {
            n
        } else {
            (from - 1) as usize
        };
        let ghost start = range_start(from, self@.len() as u64);
        proof {
            assert(start == idx as int);
            assert(out@.map_values(|e: Entry| e@) =~= self@.subrange(start, start));
        }
        while idx < n
            invariant
                self.inv(),
                n == self@.len(),
                start <= idx <= n,
                out@.len() == idx - start,
                forall|j: int| 0 <= j < out@.len() ==> (#[trigger] out@[j])@ == self@[start + j],
            decreases n - idx,
        {
            let ghost prev = out@;
            let item = clone_entry(&self.entries[idx]);
            proof {
                assert(item@ == self@[idx as int]);
            }
            out.push(item);
            idx = idx + 1;
            proof {
                assert(forall|j: int| 0 <= j < prev.len() ==> #[trigger] out@[j] == prev[j]);
            }
        }
        proof {
            assert(out@.map_values(|e: Entry| e@) =~= self@.skip(start));
        }
        Ok(out)
    }
}

/// Where a dense enumeration starts inside the log, as an offset from the
/// front: requests from 0 or 1 start at the front, later ones where asked,
/// and past-the-end ones are empty.
pub open spec fn range_start(from: u64, len: u64) -> int {
    if from <= 1 {
        0
    } else if from > len {
        len as int
    } else {
        from - 1
    }
}

/// The smaller of two indices.
pub open spec fn min_u64(a: u64, b: u64) -> u64 {
    if a < b {
        a
    } else {
        b
    }
}

/// The store keys of the entries in `(n, len]`.
pub open spec fn entry_keys_above(n: u64, len: u64) -> Set<Seq<u8>> {
    Set::new(|k: Seq<u8>| exists|j: u64| n < j <= len && k == #[trigger] entry_key(j))
}

} // verus!
