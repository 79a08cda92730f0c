//! What is remembered of each connection: the requests that wait for their response, and whether
//! the connection has left HTTP/1.x.

use std::collections::{HashMap, HashSet, VecDeque};
use vstd::prelude::*;

verus! {

broadcast use vstd::std_specs::hash::group_hash_axioms;

/// A connection: the process and the number of the connection in it.
pub type Connection = (u32, u64);

/// For each request that waits for its response, whether its method is HEAD; nothing where no
/// request was ever seen.
pub type Waiting = Option<Seq<bool>>;

/// The number by which a connection is kept.
pub open spec fn connection_code(conn: Connection) -> u128 {
    (conn.0 * 0x1_0000_0000_0000_0000 + conn.1) as u128
}

/// The connection that a number stands for.
pub open spec fn coded_connection(code: u128) -> Connection {
    ((code / 0x1_0000_0000_0000_0000) as u32, (code % 0x1_0000_0000_0000_0000) as u64)
}

/// The number stands for a connection.
pub open spec fn is_connection_code(code: u128) -> bool {
    code < 0x1_0000_0000_0000_0000_0000_0000
}

broadcast proof fn lemma_connection_code(conn: Connection)
    ensures
        coded_connection(#[trigger] connection_code(conn)) == conn,
        is_connection_code(connection_code(conn)),
{
}

broadcast proof fn lemma_coded_connection(code: u128)
    requires
        is_connection_code(code),
    ensures
        connection_code(#[trigger] coded_connection(code)) == code,
{
}

/// Things that are kept by a code are as many as the codes.
pub proof fn lemma_coded_len<K>(
    codes: Set<u128>,
    keys: Set<K>,
    encode: spec_fn(K) -> u128,
    decode: spec_fn(u128) -> K,
)
    requires
        codes.finite(),
        forall|key: K| #[trigger] keys.contains(key) <==> codes.contains(encode(key)),
        forall|key: K| decode(#[trigger] encode(key)) == key,
        forall|code: u128| #[trigger] codes.contains(code) ==> encode(decode(code)) == code,
    ensures
        keys.finite(),
        keys.len() == codes.len(),
{
    assert forall|a: u128, b: u128|
        codes.contains(a) && codes.contains(b) && #[trigger] decode(a) == #[trigger] decode(
            b,
        ) implies a == b by {
        assert(encode(decode(a)) == a && encode(decode(b)) == b);
    }
    assert forall|key: K| codes.map(decode).contains(key) == keys.contains(key) by {
        if keys.contains(key) {
            assert(decode(encode(key)) == key);
        }
        if codes.map(decode).contains(key) {
            let code: u128 = choose|code: u128| codes.contains(code) && decode(code) == key;
            assert(encode(decode(code)) == code);
        }
    }
    assert(codes.map(decode) =~= keys);
    vstd::set_lib::lemma_map_size(codes, keys, decode);
}

/// The number by which a connection is kept.
fn connection_number(conn: Connection) -> (r: u128)
    ensures
        r == connection_code(conn),
{
    (conn.0 as u128) * 0x1_0000_0000_0000_0000 + (conn.1 as u128)
}

/// The queue after a request was sent.
pub open spec fn after_request(waiting: Waiting, is_head: bool) -> Waiting {
    match waiting {
        Some(queue) => Some(queue.push(is_head)),
        None => Some(seq![is_head]),
    }
}

/// The queue after a response came.
pub open spec fn after_response(waiting: Waiting) -> Waiting {
    match waiting {
        Some(queue) => if queue.len() > 0 {
            Some(queue.drop_first())
        } else {
            Some(queue)
        },
        None => None,
    }
}

/// The next response answers a request with the method HEAD.
pub open spec fn answers_head(waiting: Waiting) -> bool {
    match waiting {
        Some(queue) => queue.len() > 0 && queue[0],
        None => false,
    }
}

/// What waits on a connection.
pub open spec fn waiting_on(queues: Map<Connection, Seq<bool>>, conn: Connection) -> Waiting {
    if queues.contains_key(conn) {
        Some(queues[conn])
    } else {
        None
    }
}

/// The queues with what waits on one connection replaced.
pub open spec fn with_waiting(
    queues: Map<Connection, Seq<bool>>,
    conn: Connection,
    waiting: Waiting,
) -> Map<Connection, Seq<bool>> {
    match waiting {
        Some(queue) => queues.insert(conn, queue),
        None => queues.remove(conn),
    }
}

/// Per connection: for each request sent, whether it was HEAD (its response has no body even with
/// a Content-Length).
pub struct HeadRequests {
    queues: HashMap<u128, VecDeque<bool>>,
}

impl View for HeadRequests {
    type V = Map<Connection, Seq<bool>>;

    closed spec fn view(&self) -> Map<Connection, Seq<bool>> {
        Map::new(
            |conn: Connection| self.queues@.contains_key(connection_code(conn)),
            |conn: Connection| self.queues@[connection_code(conn)]@,
        )
    }
}

impl HeadRequests {
    /// Every number kept stands for a connection.
    pub closed spec fn wf(&self) -> bool {
        forall|code: u128| #[trigger]
            self.queues@.contains_key(code) ==> is_connection_code(code)
    }

    pub fn new() -> (r: Self)
        ensures
            r.wf(),
            r@ == Map::<Connection, Seq<bool>>::empty(),
    {
        let r: HeadRequests = HeadRequests { queues: HashMap::new() };
        assert(r@ =~= Map::<Connection, Seq<bool>>::empty());
        r
    }

    /// How many connections have a queue.
    pub fn len(&self) -> (r: usize)
        requires
            self.wf(),
        ensures
            r == self@.len(),
            self@.dom().finite(),
    {
        broadcast use {lemma_connection_code, lemma_coded_connection};

        proof {
            lemma_coded_len(
                self.queues@.dom(),
                self@.dom(),
                |conn: Connection| connection_code(conn),
                |code: u128| coded_connection(code),
            );
        }
        self.queues.len()
    }

    /// Forgets every connection.
    pub fn clear(&mut self)
        ensures
            final(self).wf(),
            final(self)@ == Map::<Connection, Seq<bool>>::empty(),
    {
        self.queues.clear();
        assert(self@ =~= Map::<Connection, Seq<bool>>::empty());
    }

    /// Notes a request.
    pub fn push(&mut self, conn: Connection, is_head: bool)
        requires
            old(self).wf(),
        ensures
            final(self).wf(),
            final(self)@ == with_waiting(
                old(self)@,
                conn,
                after_request(waiting_on(old(self)@, conn), is_head),
            ),
    {
        broadcast use {lemma_connection_code, lemma_coded_connection};

        let code: u128 = connection_number(conn);
        let mut queue: VecDeque<bool> = match self.queues.remove(&code) {
            Some(queue) => queue,
            None => VecDeque::new(),
        };
        queue.push_back(is_head);
        assert(waiting_on(old(self)@, conn) is None ==> queue@ =~= seq![is_head]);
        self.queues.insert(code, queue);
        assert(self@ =~= with_waiting(
            old(self)@,
            conn,
            after_request(waiting_on(old(self)@, conn), is_head),
        ));
    }

    /// Notes a response. Whether it answers a request with the method HEAD.
    pub fn pop(&mut self, conn: Connection) -> (r: bool)
        requires
            old(self).wf(),
        ensures
            final(self).wf(),
            r == answers_head(waiting_on(old(self)@, conn)),
            final(self)@ == with_waiting(
                old(self)@,
                conn,
                after_response(waiting_on(old(self)@, conn)),
            ),
    {
        broadcast use {lemma_connection_code, lemma_coded_connection};

        let code: u128 = connection_number(conn);
        match self.queues.remove(&code) {
            Some(queue) => {
                let mut queue: VecDeque<bool> = queue;
                let ghost before = queue@;
                let first: Option<bool> = queue.pop_front();
                assert(before.len() > 0 ==> queue@ =~= before.drop_first());
                self.queues.insert(code, queue);
                assert(self@ =~= with_waiting(
                    old(self)@,
                    conn,
                    after_response(waiting_on(old(self)@, conn)),
                ));
                first.unwrap_or(false)
            },
            None => {
                assert(self@ =~= with_waiting(
                    old(self)@,
                    conn,
                    after_response(waiting_on(old(self)@, conn)),
                ));
                false
            },
        }
    }
}

/// Connections switched to another protocol (101), such as WebSocket.
pub struct Upgraded {
    codes: HashSet<u128>,
}

impl View for Upgraded {
    type V = Set<Connection>;

    closed spec fn view(&self) -> Set<Connection> {
        Set::new(|conn: Connection| self.codes@.contains(connection_code(conn)))
    }
}

impl Upgraded {
    pub fn new() -> (r: Self)
        ensures
            r@ == Set::<Connection>::empty(),
    {
        let r: Upgraded = Upgraded { codes: HashSet::new() };
        assert(r@ =~= Set::<Connection>::empty());
        r
    }

    pub fn contains(&self, conn: Connection) -> (r: bool)
        ensures
            r == self@.contains(conn),
    {
        self.codes.contains(&connection_number(conn))
    }

    pub fn insert(&mut self, conn: Connection)
        ensures
            final(self)@ == old(self)@.insert(conn),
    {
        broadcast use lemma_connection_code;

        self.codes.insert(connection_number(conn));
        assert forall|c: Connection| connection_code(c) == connection_code(conn) implies c == conn by {
            assert(coded_connection(connection_code(c)) == coded_connection(connection_code(conn)));
        }
        assert(self@ =~= old(self)@.insert(conn));
    }
}

} // verus!
