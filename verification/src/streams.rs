//! The streams of all connections.

use crate::connections;
use crate::connections::Connection;
use crate::stream::{Stream, StreamView};
use std::collections::HashMap;
use vstd::prelude::*;

verus! {

broadcast use vstd::std_specs::hash::group_hash_axioms;

/// (pid, conn_id, rw): one byte stream per connection and direction.
pub type StreamKey = (u32, u64, u8);

/// The connection that a stream belongs to.
pub open spec fn connection_of(key: StreamKey) -> Connection {
    (key.0, key.1)
}

/// The number by which a stream is kept.
pub open spec fn key_code(key: StreamKey) -> u128 {
    (key.0 * 0x100_0000_0000_0000_0000 + key.1 * 0x100 + key.2) as u128
}

/// The stream that a number stands for.
pub open spec fn coded_key(code: u128) -> StreamKey {
    (
        (code / 0x100_0000_0000_0000_0000) as u32,
        (code / 0x100 % 0x1_0000_0000_0000_0000) as u64,
        (code % 0x100) as u8,
    )
}

/// The number stands for a stream.
pub open spec fn is_key_code(code: u128) -> bool {
    code < 0x100_0000_0000_0000_0000_0000_0000
}

broadcast proof fn lemma_key_code(key: StreamKey)
    ensures
        coded_key(#[trigger] key_code(key)) == key,
        is_key_code(key_code(key)),
{
}

broadcast proof fn lemma_coded_key(code: u128)
    requires
        is_key_code(code),
    ensures
        key_code(#[trigger] coded_key(code)) == code,
{
}

/// The number by which a stream is kept.
fn key_number(key: StreamKey) -> (r: u128)
    ensures
        r == key_code(key),
{
    (key.0 as u128) * 0x100_0000_0000_0000_0000 + (key.1 as u128) * 0x100 + (key.2 as u128)
}

/// No stream was last seen before the stream `key`.
pub open spec fn is_oldest(streams: Map<StreamKey, StreamView>, key: StreamKey) -> bool {
    &&& streams.contains_key(key)
    &&& forall|k: StreamKey| #[trigger]
        streams.contains_key(k) ==> streams[key].last_seen <= streams[k].last_seen
}

/// The streams without those of one connection.
pub open spec fn without_connection(
    streams: Map<StreamKey, StreamView>,
    conn: Connection,
) -> Map<StreamKey, StreamView> {
    streams.remove_keys(Set::new(|key: StreamKey| connection_of(key) == conn))
}

/// The streams of all connections.
pub struct Streams {
    entries: HashMap<u128, Stream>,
}

impl View for Streams {
    type V = Map<StreamKey, StreamView>;

    closed spec fn view(&self) -> Map<StreamKey, StreamView> {
        Map::new(
            |key: StreamKey| self.entries@.contains_key(key_code(key)),
            |key: StreamKey| self.entries@[key_code(key)]@,
        )
    }
}

impl Streams {
    /// Every number kept stands for a stream.
    pub closed spec fn wf(&self) -> bool {
        forall|code: u128| #[trigger] self.entries@.contains_key(code) ==> is_key_code(code)
    }

    pub fn new() -> (r: Self)
        ensures
            r.wf(),
            r@ == Map::<StreamKey, StreamView>::empty(),
    {
        let r: Streams = Streams { entries: HashMap::new() };
        assert(r@ =~= Map::<StreamKey, StreamView>::empty());
        r
    }

    proof fn lemma_len(&self)
        requires
            self.wf(),
        ensures
            self@.dom().finite(),
            self@.len() == self.entries@.len(),
    {
        broadcast use {lemma_key_code, lemma_coded_key};

        connections::lemma_coded_len(
            self.entries@.dom(),
            self@.dom(),
            |key: StreamKey| key_code(key),
            |code: u128| coded_key(code),
        );
    }

    /// How many streams are kept.
    pub fn len(&self) -> (r: usize)
        requires
            self.wf(),
        ensures
            r == self@.len(),
            self@.dom().finite(),
    {
        proof {
            self.lemma_len();
        }
        self.entries.len()
    }

    pub fn contains(&self, key: StreamKey) -> (r: bool)
        ensures
            r == self@.contains_key(key),
    {
        self.entries.contains_key(&key_number(key))
    }

    /// Whether no message has begun on a stream, as on one that is not kept.
    pub fn is_idle(&self, key: StreamKey) -> (r: bool)
        ensures
            r == (self@.contains_key(key) ==> self@[key].is_idle()),
    {
        match self.entries.get(&key_number(key)) {
            Some(stream) => stream.idle(),
            None => true,
        }
    }

    /// Takes a stream out; a fresh one where it is not kept.
    pub fn take(&mut self, key: StreamKey) -> (r: Stream)
        requires
            old(self).wf(),
        ensures
            final(self).wf(),
            final(self)@ == old(self)@.remove(key),
            r@ == (if old(self)@.contains_key(key) {
                old(self)@[key]
            } else {
                StreamView::fresh()
            }),
    {
        broadcast use {lemma_key_code, lemma_coded_key};

        let r: Stream = match self.entries.remove(&key_number(key)) {
            Some(stream) => stream,
            None => Stream::new(),
        };
        assert(self@ =~= old(self)@.remove(key));
        r
    }

    /// Puts a stream in.
    pub fn put(&mut self, key: StreamKey, stream: Stream)
        requires
            old(self).wf(),
        ensures
            final(self).wf(),
            final(self)@ == old(self)@.insert(key, stream@),
    {
        broadcast use {lemma_key_code, lemma_coded_key};

        self.entries.insert(key_number(key), stream);
        assert(self@ =~= old(self)@.insert(key, stream@));
    }

    /// Drops a stream that was last seen before all others, or with the first of them.
    pub fn remove_oldest(&mut self)
        requires
            old(self).wf(),
            old(self)@.len() > 0,
        ensures
            final(self).wf(),
            exists|oldest: StreamKey|
                is_oldest(old(self)@, oldest) && final(self)@ == old(self)@.remove(oldest),
    {
        broadcast use {lemma_key_code, lemma_coded_key};

        let mut oldest: Option<(u128, u64)> = None;
        let ghost entries = self.entries@;
        for entry in iter: self.entries.iter()
            invariant
                entries == self.entries@,
                iter.seq().len() == entries.dom().len(),
                forall|i: int|
                    0 <= i < iter.seq().len() ==> entries.contains_key(*(#[trigger] iter.seq()[i]).0)
                        && entries[*iter.seq()[i].0] == *iter.seq()[i].1,
                match oldest {
                    Some((code, seen)) => {
                        &&& entries.contains_key(code)
                        &&& entries[code].last_seen == seen
                        &&& forall|i: int|
                            0 <= i < iter.index() ==> seen <= (#[trigger] iter.seq()[i]).1.last_seen
                    },
                    None => iter.index() == 0,
                },
        {
            let (code, stream) = entry;
            let earlier: bool = match oldest {
                Some((_, seen)) => stream.last_seen < seen,
                None => true,
            };
            if earlier {
                oldest = Some((*code, stream.last_seen));
            }
        }
        proof {
            self.lemma_len();
        }
        if let Some((code, _)) = oldest {
            self.entries.remove(&code);
            proof {
                let key: StreamKey = coded_key(code);
                assert(key_code(key) == code);
                assert(is_oldest(old(self)@, key));
                assert(self@ =~= old(self)@.remove(key));
            }
        }
    }

    /// Drops both directions of a connection.
    pub fn remove_connection(&mut self, conn: Connection)
        requires
            old(self).wf(),
        ensures
            final(self).wf(),
            final(self)@ == without_connection(old(self)@, conn),
    {
        broadcast use {lemma_key_code, lemma_coded_key};

        let mut rw: u8 = 0;
        loop
            invariant
                self.wf(),
                self@ == old(self)@.remove_keys(
                    Set::new(|key: StreamKey| connection_of(key) == conn && key.2 < rw),
                ),
            decreases 255 - rw,
        {
            self.take((conn.0, conn.1, rw));
            assert(self@ =~= old(self)@.remove_keys(
                Set::new(|key: StreamKey| connection_of(key) == conn && key.2 <= rw),
            ));
            if rw == 255 {
                assert(self@ =~= without_connection(old(self)@, conn));
                return;
            }
            rw = rw + 1;
            assert(self@ =~= old(self)@.remove_keys(
                Set::new(|key: StreamKey| connection_of(key) == conn && key.2 < rw),
            ));
        }
    }
}

} // verus!
