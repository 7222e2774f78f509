//! The default key/value state machine behind the replicated log: commands
//! are tagged byte strings that either set a key or read one back. A
//! mutation changes the underlying store; a read is a pure function of the
//! store's contents, and so of the mutations applied before it.

use crate::codec::{push_u64_be, read_u64_be, u64_be_bytes, be_bytes_u64};
use crate::raft;
use crate::store::{clone_bytes, str_to_bytes, Store};
use crate::Error;
use vstd::prelude::*;
use vstd::utf8::{decode_utf8, encode_utf8, valid_utf8};

verus! {

/// Tag for an encoded `Set` mutation.
pub const TAG_SET: u8 = 32;

/// Tag for an encoded `Get` read.
pub const TAG_GET: u8 = 33;

/// A state machine mutation.
#[derive(Debug, PartialEq)]
pub enum Mutation {
    Put { key: String, value: Vec<u8> },
}

/// A state machine read.
#[derive(Debug, PartialEq)]
pub enum Read {
    Get(String),
}

/// The encoding of a `Set` mutation: a tag, the key's length and bytes, and
/// the value.
pub open spec fn enc_mutation(key: Seq<char>, value: Seq<u8>) -> Seq<u8> {
    seq![TAG_SET] + u64_be_bytes(encode_utf8(key).len() as u64) + encode_utf8(key) + value
}

/// The key and value a byte string decodes at as a mutation, if any.
pub open spec fn dec_mutation(b: Seq<u8>) -> Option<(Seq<char>, Seq<u8>)> {
    if b.len() >= 9 && b[0] == TAG_SET {
        let klen = be_bytes_u64(b.subrange(1, 9)) as int;
        if 9 + klen <= b.len() && valid_utf8(b.subrange(9, 9 + klen)) {
            Some((decode_utf8(b.subrange(9, 9 + klen)), b.skip(9 + klen)))
        } else {
            None
        }
    } else {
        None
    }
}

/// The encoding of a `Get` read: a tag and the key's bytes.
pub open spec fn enc_read(key: Seq<char>) -> Seq<u8> {
    seq![TAG_GET] + encode_utf8(key)
}

/// The key a byte string decodes at as a read, if any.
pub open spec fn dec_read(b: Seq<u8>) -> Option<Seq<char>> {
    if b.len() >= 1 && b[0] == TAG_GET && valid_utf8(b.skip(1)) {
        Some(decode_utf8(b.skip(1)))
    } else {
        None
    }
}

/// The encoding of a read's answer: an absent value, or a present one.
pub open spec fn enc_opt_value(v: Option<Seq<u8>>) -> Seq<u8> {
    match v {
        None => seq![0u8],
        Some(b) => seq![1u8] + b,
    }
}

/// What a read returns over given store contents, if the command decodes.
pub open spec fn kv_read_result(view: Map<Seq<u8>, Seq<u8>>, command: Seq<u8>) -> Option<Seq<u8>> {
    match dec_read(command) {
        Some(key) => Some(
            enc_opt_value(
                if view.contains_key(encode_utf8(key)) {
                    Some(view[encode_utf8(key)])
                } else {
                    None
                },
            ),
        ),
        None => None,
    }
}

/// What a mutation leaves in the store, if the command decodes.
pub open spec fn kv_mutated(view: Map<Seq<u8>, Seq<u8>>, command: Seq<u8>) -> Option<
    Map<Seq<u8>, Seq<u8>>,
> {
    match dec_mutation(command) {
        Some(p) => Some(view.insert(encode_utf8(p.0), p.1)),
        None => None,
    }
}

/// The store contents after a sequence of mutations, applied in order; a
/// command that does not decode changes nothing.
pub open spec fn kv_apply_all(view: Map<Seq<u8>, Seq<u8>>, cmds: Seq<Seq<u8>>) -> Map<
    Seq<u8>,
    Seq<u8>,
>
    decreases cmds.len(),
{
    if cmds.len() == 0 {
        view
    } else {
        let rest = kv_apply_all(view, cmds.drop_last());
        match kv_mutated(rest, cmds.last()) {
            Some(v) => v,
            None => rest,
        }
    }
}

/// A read answers by the store contents alone, and the contents are a fold
/// of the mutations applied: two machines that applied the same mutations
/// from the same initial contents answer every read alike.
pub proof fn lemma_read_pure(
    initial: Map<Seq<u8>, Seq<u8>>,
    cmds: Seq<Seq<u8>>,
    other: Map<Seq<u8>, Seq<u8>>,
    other_cmds: Seq<Seq<u8>>,
    command: Seq<u8>,
)
    requires
        initial == other,
        cmds == other_cmds,
    ensures
        kv_read_result(kv_apply_all(initial, cmds), command) == kv_read_result(
            kv_apply_all(other, other_cmds),
            command,
        ),
{
}

/// Applying the same mutation twice applies it once and then once more: the
/// second application starts from the contents the first one left.
pub proof fn lemma_mutate_twice(view: Map<Seq<u8>, Seq<u8>>, command: Seq<u8>)
    ensures
        kv_apply_all(view, seq![command, command]) == (match kv_mutated(view, command) {
            Some(once) => match kv_mutated(once, command) {
                Some(twice) => twice,
                None => once,
            },
            None => view,
        }),
{
    let s = seq![command, command];
    let s1 = seq![command];
    assert(s.drop_last() =~= s1);
    assert(s1.drop_last() =~= Seq::<Seq<u8>>::empty());
    assert(kv_apply_all(view, Seq::<Seq<u8>>::empty()) == view);
    assert(s1.last() == command && s.last() == command);
    assert(kv_apply_all(view, s1) == (match kv_mutated(view, command) {
        Some(v) => v,
        None => view,
    }));
}

/// Encodes a `Set` mutation.
pub fn encode_mutation(m: &Mutation) -> (r: Vec<u8>)
    ensures
        m matches Mutation::Put { key, value } ==> r@ == enc_mutation(key@, value@),
{
    match m {
        Mutation::Put { key, value } => {
            let kb = str_to_bytes(key.as_str());
            let mut out: Vec<u8> = Vec::new();
            out.push(TAG_SET);
            push_u64_be(&mut out, kb.len() as u64);
            let mut i: usize = 0;
            while i < kb.len()
                invariant
                    i <= kb@.len(),
                    out@ == seq![TAG_SET] + u64_be_bytes(kb@.len() as u64) + kb@.take(i as int),
                decreases kb@.len() - i,
            {
                out.push(kb[i]);
                i = i + 1;
                proof {
                    assert(out@ =~= seq![TAG_SET] + u64_be_bytes(kb@.len() as u64) + kb@.take(
                        i as int,
                    ));
                }
            }
            let mut j: usize = 0;
            while j < value.len()
                invariant
                    j <= value@.len(),
                    out@ == seq![TAG_SET] + u64_be_bytes(kb@.len() as u64) + kb@ + value@.take(
                        j as int,
                    ),
                decreases value@.len() - j,
            {
                out.push(value[j]);
                j = j + 1;
                proof {
                    assert(out@ =~= seq![TAG_SET] + u64_be_bytes(kb@.len() as u64) + kb@
                        + value@.take(j as int));
                }
            }
            proof {
                assert(out@ =~= enc_mutation(key@, value@));
            }
            out
        },
    }
}

/// Encodes a `Get` read.
pub fn encode_read(r0: &Read) -> (r: Vec<u8>)
    ensures
        r0 matches Read::Get(key) ==> r@ == enc_read(key@),
{
    match r0 {
        Read::Get(key) => {
            let kb = str_to_bytes(key.as_str());
            let mut out: Vec<u8> = Vec::new();
            out.push(TAG_GET);
            let mut i: usize = 0;
            while i < kb.len()
                invariant
                    i <= kb@.len(),
                    out@ == seq![TAG_GET] + kb@.take(i as int),
                decreases kb@.len() - i,
            {
                out.push(kb[i]);
                i = i + 1;
                proof {
                    assert(out@ =~= seq![TAG_GET] + kb@.take(i as int));
                }
            }
            proof {
                assert(out@ =~= enc_read(key@));
            }
            out
        },
    }
}

/// A basic key/value state machine over a store.
#[derive(Debug)]
pub struct State<S: Store> {
    kv: S,
}

impl<S: Store> State<S> {
    /// The contents of the underlying store.
    pub closed spec fn contents(&self) -> Map<Seq<u8>, Seq<u8>> {
        self.kv.sview()
    }

    /// Creates a new key/value state machine over a store.
    pub fn new(kv: S) -> (r: Self)
        ensures
            r.contents() == kv.sview(),
    {
        State { kv }
    }

    /// Answers a `Get` read with the encoded optional value under the key.
    pub fn read_command(&self, command: Vec<u8>) -> (r: Result<Vec<u8>, Error>)
        ensures
            kv_read_result(self.contents(), command@) is None ==> (r matches Err(e) && (
            e matches Error::Value(_))),
            r matches Ok(v) ==> kv_read_result(self.contents(), command@) == Some(v@),
    {
        if command.len() >= 1 && command[0] == TAG_GET {
            let mut kb: Vec<u8> = Vec::new();
            let mut i: usize = 1;
            while i < command.len()
                invariant
                    1 <= i <= command@.len(),
                    kb@ == command@.subrange(1, i as int),
                decreases command@.len() - i,
            {
                kb.push(command[i]);
                i = i + 1;
                proof {
                    assert(kb@ =~= command@.subrange(1, i as int));
                }
            }
            proof {
                assert(kb@ =~= command@.skip(1));
            }
            let ghost kbs = kb@;
            match crate::codec::decode_str_raw(kb) {
                Some(key) => {
                    proof {
                        vstd::utf8::decode_utf8_encode_utf8(kbs);
                        assert(encode_utf8(key@) == kbs);
                    }
                    let value = match self.kv.get(key.as_str()) {
                        Ok(v) => v,
                        Err(e) => {
                            return Err(e);
                        },
                    };
                    let mut out: Vec<u8> = Vec::new();
                    match value {
                        None => {
                            out.push(0u8);
                        },
                        Some(v) => {
                            out.push(1u8);
                            let mut j: usize = 0;
                            while j < v.len()
                                invariant
                                    j <= v@.len(),
                                    out@ == seq![1u8] + v@.take(j as int),
                                decreases v@.len() - j,
                            {
                                out.push(v[j]);
                                j = j + 1;
                                proof {
                                    assert(out@ =~= seq![1u8] + v@.take(j as int));
                                }
                            }
                            proof {
                                assert(out@ =~= seq![1u8] + v@);
                            }
                        },
                    }
                    Ok(out)
                },
                None => Err(Error::Value("malformed read command".to_owned())),
            }
        } else {
            Err(Error::Value("malformed read command".to_owned()))
        }
    }

    /// Applies a `Set` mutation to the store; the output is empty.
    pub fn mutate_command(&mut self, command: Vec<u8>) -> (r: Result<Vec<u8>, Error>)
        ensures
            kv_mutated(old(self).contents(), command@) is None ==> (r matches Err(e) && (
            e matches Error::Value(_)) && final(self).contents() == old(self).contents()),
            r matches Ok(v) ==> (kv_mutated(old(self).contents(), command@) matches Some(m)
                && final(self).contents() == m && v@ == Seq::<u8>::empty()),
            r matches Err(e) ==> (e matches Error::IO(_) ==> final(self).contents() == old(
                self,
            ).contents()),
    {
        if command.len() >= 9 && command[0] == TAG_SET {
            let klen64 = read_u64_be(&command, 1);
            let total = command.len();
            if klen64 <= (total - 9) as u64 {
                let klen: usize = klen64 as usize;
                proof {
                    assert(klen == klen64);
                    assert(9 + klen <= total);
                }
                let mut kb: Vec<u8> = Vec::new();
                let mut i: usize = 9;
                while i < 9 + klen
                    invariant
                        9 <= i <= 9 + klen,
                        9 + klen <= total,
                        total == command@.len(),
                        kb@ == command@.subrange(9, i as int),
                    decreases 9 + klen - i,
                {
                    kb.push(command[i]);
                    i = i + 1;
                    proof {
                        assert(kb@ =~= command@.subrange(9, i as int));
                    }
                }
                let mut value: Vec<u8> = Vec::new();
                let mut j: usize = 9 + klen;
                while j < command.len()
                    invariant
                        9 + klen <= j <= command@.len(),
                        value@ == command@.subrange(9 + klen, j as int),
                    decreases command@.len() - j,
                {
                    value.push(command[j]);
                    j = j + 1;
                    proof {
                        assert(value@ =~= command@.subrange(9 + klen, j as int));
                    }
                }
                proof {
                    assert(value@ =~= command@.skip(9 + klen));
                }
                let ghost kbs = kb@;
                match crate::codec::decode_str_raw(kb) {
                    Some(key) => {
                        proof {
                            vstd::utf8::decode_utf8_encode_utf8(kbs);
                            assert(encode_utf8(key@) == kbs);
                        }
                        match self.kv.set(key.as_str(), value) {
                            Ok(()) => Ok(Vec::new()),
                            Err(e) => Err(e),
                        }
                    },
                    None => Err(Error::Value("malformed mutation command".to_owned())),
                }
            } else {
                Err(Error::Value("malformed mutation command".to_owned()))
            }
        } else {
            Err(Error::Value("malformed mutation command".to_owned()))
        }
    }
}

impl<S: Store> raft::state::State for State<S> {
    fn read(&self, command: Vec<u8>) -> Result<Vec<u8>, Error> {
        self.read_command(command)
    }

    fn mutate(&mut self, command: Vec<u8>) -> Result<Vec<u8>, Error> {
        self.mutate_command(command)
    }
}

} // verus!
