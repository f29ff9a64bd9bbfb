//! The connection registry's bookkeeping: per-connection line buffers,
//! liveness, and reaping, over plain bytes.  The caller performs the
//! socket work: it feeds each connection's bytes and close events in,
//! asks for the next complete request line, and mirrors every structural
//! change on its own socket table.

use vstd::prelude::*;

verus! {

/// Spec-level model of one connection: the buffered bytes not yet
/// surfaced, and whether the peer is still open.
#[verifier::ext_equal]
pub struct ConnModel {
    pub buf: Seq<u8>,
    pub open: bool,
}

/// One tracked connection.
struct ConnEntry {
    buf: Vec<u8>,
    open: bool,
}

impl View for ConnEntry {
    type V = ConnModel;

    closed spec fn view(&self) -> ConnModel {
        ConnModel { buf: self.buf@, open: self.open }
    }
}

/// The first index at or after `j` that holds a line feed, or the length.
pub open spec fn nl_pos(b: Seq<u8>, j: int) -> int
    decreases b.len() - j when 0 <= j <= b.len()
{
    if j < b.len() && b[j] != 10 {
        nl_pos(b, j + 1)
    } else {
        j
    }
}

/// The scan stops at the first line feed.
pub proof fn lemma_nl_pos_finds(b: Seq<u8>, j: int, p: int)
    requires
        0 <= j <= p < b.len(),
        b[p] == 10,
        forall|k: int| j <= k < p ==> b[k] != 10,
    ensures
        nl_pos(b, j) == p,
    decreases p - j,
{
    if j < p {
        lemma_nl_pos_finds(b, j + 1, p);
    }
}

/// The buffer holds at least one complete line.
pub open spec fn has_line(c: ConnModel) -> bool {
    nl_pos(c.buf, 0) < c.buf.len()
}

/// The bytes up to and including the first line feed.
pub open spec fn first_line(b: Seq<u8>) -> Seq<u8> {
    b.subrange(0, nl_pos(b, 0) + 1)
}

/// What stays buffered once the first line is taken.
pub open spec fn rest_after_line(b: Seq<u8>) -> Seq<u8> {
    b.subrange(nl_pos(b, 0) + 1, b.len() as int)
}

/// The open connections, in their original order.
pub open spec fn open_only(s: Seq<ConnModel>) -> Seq<ConnModel>
    decreases s.len(),
{
    if s.len() == 0 {
        s
    } else if s[0].open {
        seq![s[0]] + open_only(s.drop_first())
    } else {
        open_only(s.drop_first())
    }
}

/// The indices in `[i, j)` of closed connections, highest first: removing
/// them in this order never shifts an index that is still to be removed.
pub open spec fn closed_between(s: Seq<ConnModel>, i: int, j: int) -> Seq<int>
    decreases j - i when 0 <= i && i <= j && j <= s.len()
{
    if j <= i {
        Seq::empty()
    } else {
        closed_between(s, i + 1, j) + (if !s[i].open {
            seq![i]
        } else {
            Seq::<int>::empty()
        })
    }
}

/// All closed indices, highest first.
pub open spec fn closed_desc(s: Seq<ConnModel>) -> Seq<int> {
    closed_between(s, 0, s.len() as int)
}

fn nl_pos_x(b: &Vec<u8>, j: usize) -> (r: usize)
    requires
        j <= b@.len(),
    ensures
        r as int == nl_pos(b@, j as int),
        j <= r <= b@.len(),
    decreases b@.len() - j,
{
    if j < b.len() && b[j] != 10 {
        nl_pos_x(b, j + 1)
    } else {
        j
    }
}

/// The registry: an ordered sequence of client connections, each a byte
/// buffer and a liveness flag.  Indices shift on reaping, so an index is
/// only meaningful until the next `reap`.
pub struct Registry {
    conns: Vec<ConnEntry>,
}

impl View for Registry {
    type V = Seq<ConnModel>;

    closed spec fn view(&self) -> Seq<ConnModel> {
        Seq::new(self.conns@.len(), |i: int| self.conns@[i]@)
    }
}

impl Registry {
    /// An empty registry.
    pub fn new() -> (r: Registry)
        ensures
            r@ == Seq::<ConnModel>::empty(),
    {
        let r = Registry { conns: Vec::new() };
        proof {
            assert(r@ =~= Seq::<ConnModel>::empty());
        }
        r
    }

    /// How many connections are tracked.
    pub fn len(&self) -> (n: usize)
        ensures
            n == self@.len(),
    {
        self.conns.len()
    }

    /// Takes one new connection in: a fresh empty slot at the end; its
    /// index is returned.
    pub fn accept_conn(&mut self) -> (idx: usize)
        ensures
            final(self)@ == old(self)@.push((ConnModel { buf: Seq::empty(), open: true })),
            idx == old(self)@.len(),
    {
        let idx = self.conns.len();
        self.conns.push(ConnEntry { buf: Vec::new(), open: true });
        proof {
            assert(self@ =~= old(self)@.push((ConnModel { buf: Seq::empty(), open: true })));
        }
        idx
    }

    /// Appends bytes read from the peer to the connection's buffer.
    pub fn note_data(&mut self, i: usize, bytes: &Vec<u8>)
        requires
            i < old(self)@.len(),
        ensures
            final(self)@ == old(self)@.update(
                i as int,
                (ConnModel { buf: old(self)@[i as int].buf + bytes@, open: old(self)@[i as int].open }),
            ),
    {
        let mut e = self.conns.remove(i);
        let mut k: usize = 0;
        let n = bytes.len();
        while k < n
            invariant
                k <= n,
                n == bytes@.len(),
                e.buf@ == old(self)@[i as int].buf + bytes@.subrange(0, k as int),
                e.open == old(self)@[i as int].open,
            decreases n - k,
        {
            e.buf.push(bytes[k]);
            k = k + 1;
            proof {
                assert(e.buf@ =~= old(self)@[i as int].buf + bytes@.subrange(0, k as int));
            }
        }
        proof {
            assert(e.buf@ =~= old(self)@[i as int].buf + bytes@);
        }
        self.conns.insert(i, e);
        proof {
            assert(self@ =~= old(self)@.update(
                i as int,
                (ConnModel {
                    buf: old(self)@[i as int].buf + bytes@,
                    open: old(self)@[i as int].open,
                }),
            ));
        }
    }

    /// Records that the peer closed its socket: the slot stays, marked
    /// closed, until the next `reap`.
    pub fn note_closed(&mut self, i: usize)
        requires
            i < old(self)@.len(),
        ensures
            final(self)@ == old(self)@.update(
                i as int,
                (ConnModel { buf: old(self)@[i as int].buf, open: false }),
            ),
    {
        let mut e = self.conns.remove(i);
        e.open = false;
        self.conns.insert(i, e);
        proof {
            assert(self@ =~= old(self)@.update(
                i as int,
                (ConnModel { buf: old(self)@[i as int].buf, open: false }),
            ));
        }
    }

    /// Scans the connections from the head and surfaces the first complete
    /// request line, together with the index it came from; the line leaves
    /// that connection's buffer.  Nothing else changes, so lines of one
    /// connection come out first come, first served.
    pub fn poll_line(&mut self) -> (r: Option<(Vec<u8>, usize)>)
        ensures
            match r {
                Some(pair) => {
                    let idx = pair.1 as int;
                    &&& 0 <= idx < old(self)@.len()
                    &&& has_line(old(self)@[idx])
                    &&& forall|j: int| 0 <= j < idx ==> !has_line(old(self)@[j])
                    &&& pair.0@ == first_line(old(self)@[idx].buf)
                    &&& final(self)@ == old(self)@.update(
                        idx,
                        (ConnModel {
                            buf: rest_after_line(old(self)@[idx].buf),
                            open: old(self)@[idx].open,
                        }),
                    )
                },
                None => final(self)@ == old(self)@ && (forall|j: int|
                    0 <= j < old(self)@.len() ==> !has_line(old(self)@[j])),
            },
    {
        let n = self.conns.len();
        let mut i: usize = 0;
        while i < n
            invariant
                i <= n,
                n == self@.len(),
                self@ == old(self)@,
                forall|j: int| 0 <= j < i ==> !has_line(old(self)@[j]),
            decreases n - i,
        {
            let p = nl_pos_x(&self.conns[i].buf, 0);
            if p < self.conns[i].buf.len() {
                let mut e = self.conns.remove(i);
                let rest = e.buf.split_off(p + 1);
                let line = e.buf;
                self.conns.insert(i, ConnEntry { buf: rest, open: e.open });
                proof {
                    assert(line@ =~= first_line(old(self)@[i as int].buf));
                    assert(rest@ =~= rest_after_line(old(self)@[i as int].buf));
                    assert(self@ =~= old(self)@.update(
                        i as int,
                        (ConnModel {
                            buf: rest_after_line(old(self)@[i as int].buf),
                            open: old(self)@[i as int].open,
                        }),
                    ));
                }
                return Some((line, i));
            }
            i = i + 1;
        }
        None
    }

    /// Removes every closed connection, keeping the open ones in order,
    /// and returns the removed indices, highest first, so the caller can
    /// mirror the removals one by one on its own table.
    pub fn reap(&mut self) -> (removed: Vec<usize>)
        ensures
            final(self)@ == open_only(old(self)@),
            removed@.map_values(|u: usize| u as int) == closed_desc(old(self)@),
    {
        let n = self.conns.len();
        let mut removed: Vec<usize> = Vec::new();
        let mut i: usize = n;
        proof {
            assert(self@ =~= old(self)@.subrange(0, n as int) + open_only(old(self)@.skip(
                n as int,
            )));
        }
        while i > 0
            invariant
                i <= n,
                n == old(self)@.len(),
                self@ == old(self)@.subrange(0, i as int) + open_only(old(self)@.skip(i as int)),
                removed@.map_values(|u: usize| u as int) == closed_between(
                    old(self)@,
                    i as int,
                    n as int,
                ),
            decreases i,
        {
            i = i - 1;
            proof {
                assert(old(self)@.skip(i as int).drop_first() =~= old(self)@.skip(i + 1));
                assert(old(self)@.skip(i as int)[0] == old(self)@[i as int]);
                assert(self@ == old(self)@.subrange(0, i + 1) + open_only(old(self)@.skip(i + 1)));
                assert(self@.len() >= i + 1);
                assert(self.conns@.len() == self@.len());
                assert(self@[i as int] == old(self)@[i as int]);
            }
            if !self.conns[i].open {
                let ghost pre = self@;
                self.conns.remove(i);
                removed.push(i);
                proof {
                    assert(!old(self)@[i as int].open);
                    assert(open_only(old(self)@.skip(i as int)) == open_only(old(self)@.skip(
                        i + 1,
                    )));
                    assert(self@ =~= pre.remove(i as int));
                    assert(pre.remove(i as int) =~= old(self)@.subrange(0, i as int) + open_only(
                        old(self)@.skip(i + 1),
                    ));
                    assert(removed@.map_values(|u: usize| u as int) =~= closed_between(
                        old(self)@,
                        i as int,
                        n as int,
                    ));
                    assert(self@ =~= old(self)@.subrange(0, i as int) + open_only(
                        old(self)@.skip(i as int),
                    ));
                }
            } else {
                proof {
                    assert(removed@.map_values(|u: usize| u as int) =~= closed_between(
                        old(self)@,
                        i as int,
                        n as int,
                    ));
                    assert(self@ =~= old(self)@.subrange(0, i as int) + open_only(
                        old(self)@.skip(i as int),
                    ));
                }
            }
        }
        proof {
            assert(old(self)@.skip(0) =~= old(self)@);
            assert(self@ =~= open_only(old(self)@));
        }
        removed
    }
}

/// Reaping leaves no closed connection behind: every entry of the reaped
/// sequence is open.
pub proof fn lemma_reap_all_open(s: Seq<ConnModel>)
    ensures
        forall|k: int| 0 <= k < open_only(s).len() ==> (#[trigger] open_only(s)[k]).open,
    decreases s.len(),
{
    if s.len() > 0 {
        lemma_reap_all_open(s.drop_first());
        assert forall|k: int| 0 <= k < open_only(s).len() implies (#[trigger] open_only(s)[k]).open by {
            if s[0].open {
                if k > 0 {
                    assert(open_only(s)[k] == open_only(s.drop_first())[k - 1]);
                }
            } else {
                assert(open_only(s)[k] == open_only(s.drop_first())[k]);
            }
        }
    }
}

/// A complete request line: nonempty, with its line feed at the end and
/// nowhere else.
pub open spec fn is_line(l: Seq<u8>) -> bool {
    l.len() > 0 && l.last() == 10 && (forall|j: int| 0 <= j < l.len() - 1 ==> l[j] != 10)
}

/// Per-connection ordering: when a connection's buffer holds two requests
/// back to back, the first poll surfaces the first request and leaves
/// exactly the second, so replies follow the order of arrival.
pub proof fn lemma_lines_fifo(l1: Seq<u8>, l2: Seq<u8>)
    requires
        is_line(l1),
        is_line(l2),
    ensures
        nl_pos(l1 + l2, 0) < (l1 + l2).len(),
        first_line(l1 + l2) == l1,
        rest_after_line(l1 + l2) == l2,
        first_line(l2) == l2,
        rest_after_line(l2) == Seq::<u8>::empty(),
{
    let b = l1 + l2;
    assert(b[l1.len() - 1] == 10);
    lemma_nl_pos_finds(b, 0, l1.len() - 1);
    assert(first_line(b) =~= l1);
    assert(rest_after_line(b) =~= l2);
    lemma_nl_pos_finds(l2, 0, l2.len() - 1);
    assert(first_line(l2) =~= l2);
    assert(rest_after_line(l2) =~= Seq::<u8>::empty());
}

} // verus!
