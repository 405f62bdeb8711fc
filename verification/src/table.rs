//! The table of live connections, keyed by the token that each is
//! registered under.

use crate::connection::{Connection, ConnectionView, ReadEvent, WriteEvent};
use crate::io::{ReadResult, WriteResult};
use vstd::prelude::*;
use vstd::slice::slice_to_vec;

verus! {

/// Why a connection was not put into the table.
#[derive(Clone, Copy, Debug, PartialEq, Eq, Structural)]
pub enum TableError {
    /// The token already names a connection.
    Occupied,
}

#[derive(Debug)]
struct Entry {
    token: usize,
    conn: Connection,
}

/// The live connections. Each token names at most one of them.
#[derive(Debug)]
pub struct ConnectionTable {
    entries: Vec<Entry>,
}

impl View for ConnectionTable {
    type V = Map<usize, ConnectionView>;

    closed spec fn view(&self) -> Map<usize, ConnectionView> {
        Map::new(
            |token: usize| self.tokens().contains(token),
            |token: usize| self.entries@[self.tokens().index_of(token)].conn@,
        )
    }
}

/// What tells the other tokens from `token`.
pub open spec fn is_other(token: usize) -> spec_fn(usize) -> bool {
    |t: usize| t != token
}

/// The tokens of `tokens` other than `token`, in their order.
pub open spec fn others(tokens: Seq<usize>, token: usize) -> Seq<usize> {
    tokens.filter(is_other(token))
}

/// Taking out the one place where `token` stands leaves the others.
proof fn lemma_others_remove(tokens: Seq<usize>, i: int)
    requires
        tokens.no_duplicates(),
        0 <= i < tokens.len(),
    ensures
        others(tokens, tokens[i]) == tokens.remove(i),
    decreases tokens.len(),
{
    let token = tokens[i];
    let pred = is_other(token);
    let front = tokens.drop_last();
    let last = tokens.last();
    assert(tokens =~= front.push(last));
    front.lemma_filter_push(last, pred);
    if i == tokens.len() - 1 {
        lemma_others_all(front, token);
        assert(tokens.remove(i) =~= front);
    } else {
        lemma_others_remove(front, i);
        assert(tokens.remove(i) =~= front.remove(i).push(last));
    }
}

/// Where `token` does not stand, all are others.
proof fn lemma_others_all(tokens: Seq<usize>, token: usize)
    requires
        !tokens.contains(token),
    ensures
        others(tokens, token) == tokens,
    decreases tokens.len(),
{
    let pred = is_other(token);
    if tokens.len() == 0 {
        assert(tokens.filter(pred) =~= tokens) by {
            reveal(Seq::filter);
        }
    } else {
        let front = tokens.drop_last();
        let last = tokens.last();
        assert(tokens =~= front.push(last));
        assert(tokens[tokens.len() - 1] == last);
        assert forall|j: int| 0 <= j < front.len() implies front[j] != token by {
            assert(tokens[j] == front[j]);
        }
        lemma_others_all(front, token);
        front.lemma_filter_push(last, pred);
    }
}

/// The others of `tokens` are its members but `token`, and none of them
/// stands twice where none stood twice.
pub proof fn lemma_others(tokens: Seq<usize>, token: usize)
    ensures
        forall|t: usize| #[trigger]
            others(tokens, token).contains(t) <==> tokens.contains(t) && t != token,
        tokens.no_duplicates() ==> others(tokens, token).no_duplicates(),
        !tokens.contains(token) ==> others(tokens, token) == tokens,
{
    let pred = is_other(token);
    let rest = others(tokens, token);
    assert forall|t: usize| #[trigger] rest.contains(t) <==> tokens.contains(t) && t != token by {
        if rest.contains(t) {
            tokens.lemma_filter_contains_rev(pred, t);
            let i = rest.index_of(t);
            tokens.lemma_filter_pred(pred, i);
        }
        if tokens.contains(t) && t != token {
            let i = tokens.index_of(t);
            tokens.lemma_filter_contains(pred, i);
        }
    }
    if !tokens.contains(token) {
        lemma_others_all(tokens, token);
    } else if tokens.no_duplicates() {
        let i = tokens.index_of(token);
        lemma_others_remove(tokens, i);
        assert forall|j: int, k: int| 0 <= j < rest.len() && 0 <= k < rest.len() && j != k implies rest[j]
            != rest[k] by {
            let jj = if j < i { j } else { j + 1 };
            let kk = if k < i { k } else { k + 1 };
            assert(rest[j] == tokens[jj]);
            assert(rest[k] == tokens[kk]);
        }
    }
}

impl ConnectionTable {
    /// The tokens in the table, in the order in which they came into it.
    pub closed spec fn tokens(&self) -> Seq<usize> {
        self.entries@.map_values(|entry: Entry| entry.token)
    }

    /// No token stands in the table twice, and every connection keeps its
    /// invariant.
    pub closed spec fn wf(&self) -> bool {
        &&& self.tokens().no_duplicates()
        &&& forall|i: int| 0 <= i < self.entries@.len() ==> (#[trigger] self.entries@[i]).conn.wf()
    }

    /// The tokens of a table are those that its map knows, each once, and
    /// every connection in the map keeps its invariant.
    pub proof fn lemma_tokens(&self)
        requires
            self.wf(),
        ensures
            self.tokens().no_duplicates(),
            self@.dom().finite(),
            self@.dom().len() == self.tokens().len(),
            forall|token: usize| self.tokens().contains(token) <==> self@.dom().contains(token),
            forall|token: usize| self@.dom().contains(token) ==> (#[trigger] self@[token]).wf(),
    {
        assert(self@.dom() =~= self.tokens().to_set());
        vstd::seq_lib::seq_to_set_is_finite(self.tokens());
        self.tokens().unique_seq_to_set();
        assert forall|token: usize| self@.dom().contains(token) implies (#[trigger] self@[token]).wf() by {
            let i = self.lemma_member(token);
        }
    }

    proof fn lemma_entry(&self, i: int)
        requires
            self.tokens().no_duplicates(),
            0 <= i < self.entries@.len(),
        ensures
            self.tokens()[i] == self.entries@[i].token,
            self@.dom().contains(self.entries@[i].token),
            self@[self.entries@[i].token] == self.entries@[i].conn@,
    {
        let token = self.entries@[i].token;
        assert(self.tokens()[i] == token);
        assert(self.tokens().contains(token));
        let j = self.tokens().index_of(token);
        assert(0 <= j < self.tokens().len() && self.tokens()[j] == token);
        assert(i == j);
    }

    proof fn lemma_member(&self, token: usize) -> (i: int)
        requires
            self.tokens().no_duplicates(),
            self@.dom().contains(token),
        ensures
            0 <= i < self.entries@.len(),
            self.tokens()[i] == token,
            self.entries@[i].token == token,
            self@[token] == self.entries@[i].conn@,
    {
        let i = self.tokens().index_of(token);
        assert(self.tokens()[i] == token);
        i
    }

    /// Where only the connections under the tokens changed, the tokens still
    /// stand as they stood.
    proof fn lemma_same_tokens(&self, after: &ConnectionTable)
        requires
            after.entries@.len() == self.entries@.len(),
            forall|j: int|
                0 <= j < self.entries@.len() ==> (#[trigger] after.entries@[j]).token
                    == self.entries@[j].token,
        ensures
            after.tokens() == self.tokens(),
            forall|token: usize| after@.dom().contains(token) <==> self@.dom().contains(token),
    {
        assert(after.tokens() =~= self.tokens());
    }

    /// Where one connection changed and nothing else, the map changed at its
    /// token and nowhere else.
    proof fn lemma_replaced(&self, after: &ConnectionTable, i: int)
        requires
            self.wf(),
            0 <= i < self.entries@.len(),
            after.entries@.len() == self.entries@.len(),
            forall|j: int|
                0 <= j < self.entries@.len() && j != i ==> #[trigger] after.entries@[j]
                    == self.entries@[j],
            after.entries@[i].token == self.entries@[i].token,
            after.entries@[i].conn.wf(),
        ensures
            after.wf(),
            after.tokens() == self.tokens(),
            after@ == self@.insert(self.entries@[i].token, after.entries@[i].conn@),
    {
        let token = self.entries@[i].token;
        assert forall|j: int| 0 <= j < self.entries@.len() implies (#[trigger] after.entries@[j]).token
            == self.entries@[j].token by {
            if j != i {
                assert(after.entries@[j] == self.entries@[j]);
            }
        }
        self.lemma_same_tokens(after);
        assert forall|j: int| 0 <= j < after.entries@.len() implies (#[trigger] after.entries@[j]).conn.wf() by {
            if j != i {
                assert(after.entries@[j] == self.entries@[j]);
                assert(self.entries@[j].conn.wf());
            }
        }
        let expected = self@.insert(token, after.entries@[i].conn@);
        self.lemma_entry(i);
        assert forall|t: usize| after@.dom().contains(t) implies #[trigger] after@[t] == expected[t] by {
            let j = after.lemma_member(t);
            self.lemma_entry(j);
            if j != i {
                assert(after.entries@[j] == self.entries@[j]);
            }
        }
        assert(after@ =~= expected);
    }

    /// An empty table.
    pub fn new() -> (table: ConnectionTable)
        ensures
            table.wf(),
            table@ == Map::<usize, ConnectionView>::empty(),
            table.tokens() == Seq::<usize>::empty(),
    {
        let table = ConnectionTable { entries: Vec::new() };
        proof {
            assert(table.tokens() =~= Seq::<usize>::empty());
            assert(table@ =~= Map::<usize, ConnectionView>::empty());
        }
        table
    }

    /// How many connections the table holds.
    pub fn len(&self) -> (count: usize)
        ensures
            count == self.tokens().len(),
    {
        self.entries.len()
    }

    fn position(&self, token: usize) -> (at: Option<usize>)
        requires
            self.wf(),
        ensures
            match at {
                Some(i) => i < self.entries@.len() && self.entries@[i as int].token == token
                    && self.tokens()[i as int] == token && self@.dom().contains(token)
                    && self@[token] == self.entries@[i as int].conn@,
                None => !self@.dom().contains(token) && !self.tokens().contains(token),
            },
    {
        let mut i: usize = 0;
        while i < self.entries.len()
            invariant
                self.wf(),
                i <= self.entries@.len(),
                forall|j: int| 0 <= j < i ==> self.entries@[j].token != token,
            decreases self.entries@.len() - i,
        {
            if self.entries[i].token == token {
                proof {
                    self.lemma_entry(i as int);
                }
                return Some(i);
            }
            i += 1;
        }
        proof {
            if self.tokens().contains(token) {
                let j = self.tokens().index_of(token);
                assert(self.tokens()[j] == token);
                assert(self.entries@[j].token == token);
            }
        }
        None
    }

    /// Whether `token` names a connection.
    pub fn contains(&self, token: usize) -> (yes: bool)
        requires
            self.wf(),
        ensures
            yes == self@.dom().contains(token),
    {
        self.position(token).is_some()
    }

    /// The connection that `token` names.
    pub fn get(&self, token: usize) -> (conn: Option<&Connection>)
        requires
            self.wf(),
        ensures
            match conn {
                Some(found) => self@.dom().contains(token) && found@ == self@[token] && found.wf(),
                None => !self@.dom().contains(token),
            },
    {
        match self.position(token) {
            Some(i) => Some(&self.entries[i].conn),
            None => None,
        }
    }

    /// Puts `conn` into the table under `token`, unless the token is taken.
    pub fn insert(&mut self, token: usize, conn: Connection) -> (done: Result<(), TableError>)
        requires
            old(self).wf(),
            conn.wf(),
        ensures
            final(self).wf(),
            old(self)@.dom().contains(token) ==> done == Err::<(), TableError>(TableError::Occupied)
                && final(self)@ == old(self)@ && final(self).tokens() == old(self).tokens(),
            !old(self)@.dom().contains(token) ==> done is Ok && final(self)@ == old(self)@.insert(
                token,
                conn@,
            ) && final(self).tokens() == old(self).tokens().push(token),
    {
        if self.position(token).is_some() {
            return Err(TableError::Occupied);
        }
        self.entries.push(Entry { token, conn });
        proof {
            let before = *old(self);
            let last = before.entries@.len() as int;
            assert(self.tokens() =~= before.tokens().push(token));
            assert(self.entries@[last].conn == conn);
            assert forall|j: int| 0 <= j < self.entries@.len() implies (#[trigger] self.entries@[j]).conn.wf() by {
                if j < last {
                    assert(self.entries@[j] == before.entries@[j]);
                    assert(before.entries@[j].conn.wf());
                }
            }
            let expected = before@.insert(token, conn@);
            assert forall|t: usize| self@.dom().contains(t) <==> expected.dom().contains(t) by {
                if before.tokens().contains(t) {
                    let j = before.tokens().index_of(t);
                    assert(self.tokens()[j] == t);
                }
                if t == token {
                    assert(self.tokens()[last] == t);
                }
            }
            assert forall|t: usize| self@.dom().contains(t) implies #[trigger] self@[t] == expected[t] by {
                let j = self.lemma_member(t);
                if j < last {
                    assert(before.tokens()[j] == t);
                    before.lemma_entry(j);
                }
            }
            assert(self@ =~= expected);
        }
        Ok(())
    }

    /// Takes the connection that `token` names out of the table; where it
    /// names none, nothing changes.
    pub fn remove(&mut self, token: usize) -> (conn: Option<Connection>)
        requires
            old(self).wf(),
        ensures
            final(self).wf(),
            final(self)@ == old(self)@.remove(token),
            final(self).tokens() == others(old(self).tokens(), token),
            match conn {
                Some(gone) => old(self)@.dom().contains(token) && gone@ == old(self)@[token]
                    && gone.wf(),
                None => !old(self)@.dom().contains(token),
            },
    {
        match self.position(token) {
            None => {
                proof {
                    lemma_others_all(self.tokens(), token);
                    assert(self@ =~= self@.remove(token));
                }
                None
            },
            Some(i) => {
                let entry = self.entries.remove(i);
                proof {
                    let before = *old(self);
                    let at = i as int;
                    lemma_others_remove(before.tokens(), at);
                    assert(self.tokens() =~= before.tokens().remove(at));
                    assert forall|j: int| 0 <= j < self.entries@.len() implies (#[trigger] self.entries@[j]).conn.wf() by {
                        if j < at {
                            assert(self.entries@[j] == before.entries@[j]);
                        } else {
                            assert(self.entries@[j] == before.entries@[j + 1]);
                        }
                    }
                    assert forall|j: int, k: int|
                        0 <= j < self.tokens().len() && 0 <= k < self.tokens().len() && j != k implies self.tokens()[j]
                        != self.tokens()[k] by {
                        let jj = if j < at { j } else { j + 1 };
                        let kk = if k < at { k } else { k + 1 };
                        assert(self.tokens()[j] == before.tokens()[jj]);
                        assert(self.tokens()[k] == before.tokens()[kk]);
                    }
                    let expected = before@.remove(token);
                    assert forall|t: usize| self@.dom().contains(t) <==> expected.dom().contains(t) by {
                        if self.tokens().contains(t) {
                            let j = self.tokens().index_of(t);
                            let jj = if j < at { j } else { j + 1 };
                            assert(before.tokens()[jj] == t);
                        }
                        if before.tokens().contains(t) && t != token {
                            let jj = before.tokens().index_of(t);
                            let j = if jj < at { jj } else { jj - 1 };
                            assert(self.tokens()[j] == t);
                        }
                    }
                    assert forall|t: usize| self@.dom().contains(t) implies #[trigger] self@[t] == expected[t] by {
                        let j = self.lemma_member(t);
                        let jj = if j < at { j } else { j + 1 };
                        assert(before.tokens()[jj] == t);
                        before.lemma_entry(jj);
                    }
                    assert(self@ =~= expected);
                }
                Some(entry.conn)
            },
        }
    }

    /// Hands the result of a read to the connection that `token` names.
    pub fn read(&mut self, token: usize, result: &ReadResult) -> (event: Option<ReadEvent>)
        requires
            old(self).wf(),
        ensures
            final(self).wf(),
            final(self).tokens() == old(self).tokens(),
            match event {
                Some(event) => old(self)@.dom().contains(token) && event == old(self)@[token].read_event(
                    *result,
                ) && final(self)@ == old(self)@.insert(token, old(self)@[token].after_read(*result)),
                None => !old(self)@.dom().contains(token) && final(self)@ == old(self)@,
            },
    {
        match self.position(token) {
            None => None,
            Some(i) => {
                let event = self.entries[i].conn.read(result);
                proof {
                    old(self).lemma_replaced(self, i as int);
                }
                Some(event)
            },
        }
    }

    /// Hands the result of a write to the connection that `token` names.
    pub fn wrote(&mut self, token: usize, result: WriteResult) -> (event: Option<WriteEvent>)
        requires
            old(self).wf(),
        ensures
            final(self).wf(),
            final(self).tokens() == old(self).tokens(),
            match event {
                Some(event) => old(self)@.dom().contains(token) && event == old(self)@[token].write_event(
                    result,
                ) && final(self)@ == old(self)@.insert(token, old(self)@[token].after_write(result)),
                None => !old(self)@.dom().contains(token) && final(self)@ == old(self)@,
            },
    {
        match self.position(token) {
            None => None,
            Some(i) => {
                let event = self.entries[i].conn.wrote(result);
                proof {
                    old(self).lemma_replaced(self, i as int);
                }
                Some(event)
            },
        }
    }

    /// Queues a copy of `line` for every connection but the one that
    /// `sender` names, and says which connections those were.
    pub fn push_to_others(&mut self, sender: usize, line: &[u8]) -> (receivers: Vec<usize>)
        requires
            old(self).wf(),
        ensures
            final(self).wf(),
            final(self).tokens() == old(self).tokens(),
            receivers@ == others(old(self).tokens(), sender),
            final(self)@ == Map::new(
                |token: usize| old(self)@.dom().contains(token),
                |token: usize|
                    if token != sender {
                        old(self)@[token].enqueue(line@)
                    } else {
                        old(self)@[token]
                    },
            ),
    {
        let ghost before = *self;
        let mut receivers: Vec<usize> = Vec::new();
        let mut i: usize = 0;
        proof {
            assert(before.tokens().take(0) =~= Seq::<usize>::empty());
            lemma_others_all(Seq::<usize>::empty(), sender);
        }
        while i < self.entries.len()
            invariant
                before.wf(),
                i <= self.entries@.len(),
                self.entries@.len() == before.entries@.len(),
                forall|j: int|
                    0 <= j < self.entries@.len() ==> (#[trigger] self.entries@[j]).token
                        == before.entries@[j].token,
                forall|j: int|
                    0 <= j < self.entries@.len() ==> (#[trigger] self.entries@[j]).conn.wf(),
                forall|j: int|
                    0 <= j < i ==> (#[trigger] self.entries@[j]).conn@ == if before.entries@[j].token
                        != sender {
                        before.entries@[j].conn@.enqueue(line@)
                    } else {
                        before.entries@[j].conn@
                    },
                forall|j: int|
                    i <= j < self.entries@.len() ==> (#[trigger] self.entries@[j]).conn@
                        == before.entries@[j].conn@,
                receivers@ == others(before.tokens().take(i as int), sender),
            decreases self.entries@.len() - i,
        {
            let token = self.entries[i].token;
            proof {
                let seen = before.tokens().take(i as int);
                assert(before.tokens().take(i + 1) =~= seen.push(token));
                seen.lemma_filter_push(token, is_other(sender));
            }
            if token != sender {
                self.entries[i].conn.push_message(slice_to_vec(line));
                receivers.push(token);
            }
            i += 1;
        }
        proof {
            assert(before.tokens().take(i as int) =~= before.tokens());
            before.lemma_same_tokens(self);
            let expected = Map::new(
                |token: usize| before@.dom().contains(token),
                |token: usize|
                    if token != sender {
                        before@[token].enqueue(line@)
                    } else {
                        before@[token]
                    },
            );
            assert forall|t: usize| self@.dom().contains(t) implies #[trigger] self@[t] == expected[t] by {
                let j = self.lemma_member(t);
                before.lemma_entry(j);
            }
            assert(self@ =~= expected);
        }
        receivers
    }
}

} // verus!
