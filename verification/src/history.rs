//! Fixed-capacity, insertion-ordered history of decoded inbound messages.
//!
//! The buffer retains at most [`CAPACITY`] messages. Appending when full
//! evicts the single oldest entry and nothing else, so the buffer always
//! holds the most recently appended messages in arrival order.

use crate::codec::{args_view, MsgV, OscArg, OscMsg};
use vstd::prelude::*;

verus! {

/// How many messages the history retains.
pub const CAPACITY: usize = 7;

/// Ghost image of a message list.
pub open spec fn msgs_view(s: Seq<OscMsg>) -> Seq<MsgV> {
    s.map_values(|m: OscMsg| m@)
}

/// One append at the ghost level: push the new message, evicting the
/// oldest entry when the buffer is full.
pub open spec fn spec_append(h: Seq<MsgV>, m: MsgV) -> Seq<MsgV> {
    if h.len() < CAPACITY {
        h.push(m)
    } else {
        h.drop_first().push(m)
    }
}

/// Bounded store of the most recent inbound messages, oldest first.
pub struct HistoryBuffer {
    entries: Vec<OscMsg>,
}

impl View for HistoryBuffer {
    type V = Seq<MsgV>;

    closed spec fn view(&self) -> Seq<MsgV> {
        msgs_view(self.entries@)
    }
}

impl HistoryBuffer {
    /// The length never exceeds the capacity.
    pub open spec fn wf(&self) -> bool {
        self@.len() <= CAPACITY
    }

    /// An empty history.
    pub fn new() -> (r: Self)
        ensures
            r@ == Seq::<MsgV>::empty(),
            r.wf(),
    {
        let r = HistoryBuffer { entries: Vec::new() };
        proof {
            assert(r@ =~= Seq::<MsgV>::empty());
        }
        r
    }

    /// Number of retained messages.
    pub fn len(&self) -> (n: usize)
        ensures
            n == self@.len(),
    {
        self.entries.len()
    }

    /// Append a message; when the buffer is full the single oldest entry
    /// leaves and the order of the others is unchanged.
    pub fn append(&mut self, m: OscMsg)
        requires
            old(self).wf(),
        ensures
            final(self).wf(),
            final(self)@ == spec_append(old(self)@, m@),
            old(self)@.len() < CAPACITY ==> final(self)@.len() == old(self)@.len() + 1,
            old(self)@.len() == CAPACITY ==> {
                &&& final(self)@.len() == CAPACITY
                &&& forall|i: int| 0 <= i < CAPACITY - 1 ==> final(self)@[i] == old(self)@[i + 1]
            },
            final(self)@[final(self)@.len() - 1] == m@,
    {
        let ghost before = self.entries@;
        if self.entries.len() == CAPACITY {
            self.entries.remove(0);
            proof {
                assert(msgs_view(self.entries@) =~= msgs_view(before).drop_first());
            }
        }
        let ghost mid = self.entries@;
        self.entries.push(m);
        proof {
            assert(msgs_view(self.entries@) =~= msgs_view(mid).push(m@));
        }
    }

    /// A copy of the retained messages, oldest first; the display layer
    /// renders them most-recent-first. The buffer itself is untouched.
    pub fn snapshot(&self) -> (r: Vec<OscMsg>)
        ensures
            msgs_view(r@) == self@,
    {
        let mut r: Vec<OscMsg> = Vec::new();
        let mut k: usize = 0;
        while k < self.entries.len()
            invariant
                k <= self.entries.len(),
                r@.len() == k,
                forall|i: int| 0 <= i < k ==> r@[i]@ == self.entries@[i]@,
            decreases self.entries@.len() - k,
        {
            let m = copy_msg(&self.entries[k]);
            r.push(m);
            k = k + 1;
        }
        proof {
            assert(msgs_view(r@) =~= msgs_view(self.entries@));
        }
        r
    }
}

/// Byte-for-byte copy.
fn copy_bytes(v: &Vec<u8>) -> (r: Vec<u8>)
    ensures
        r@ == v@,
{
    let mut r: Vec<u8> = Vec::new();
    let mut k: usize = 0;
    while k < v.len()
        invariant
            k <= v.len(),
            r@ == v@.subrange(0, k as int),
        decreases v@.len() - k,
    {
        r.push(v[k]);
        proof {
            assert(r@ =~= v@.subrange(0, k as int + 1));
        }
        k = k + 1;
    }
    proof {
        assert(r@ =~= v@);
    }
    r
}

/// Copy of one argument.
fn copy_arg(a: &OscArg) -> (r: OscArg)
    ensures
        r@ == a@,
{
    match a {
        OscArg::Int(x) => OscArg::Int(*x),
        OscArg::Float(x) => OscArg::Float(*x),
        OscArg::Str(s) => OscArg::Str(copy_bytes(s)),
        OscArg::Blob(b) => OscArg::Blob(copy_bytes(b)),
        OscArg::Long(x) => OscArg::Long(*x),
        OscArg::Time(x) => OscArg::Time(*x),
        OscArg::Double(x) => OscArg::Double(*x),
        OscArg::Char(x) => OscArg::Char(*x),
        OscArg::Color(x) => OscArg::Color(*x),
        OscArg::Midi(x) => OscArg::Midi(*x),
        OscArg::Bool(x) => OscArg::Bool(*x),
        OscArg::Nil => OscArg::Nil,
        OscArg::Inf => OscArg::Inf,
    }
}

/// Copy of one message.
fn copy_msg(m: &OscMsg) -> (r: OscMsg)
    ensures
        r@ == m@,
{
    let addr = copy_bytes(&m.addr);
    let mut args: Vec<OscArg> = Vec::new();
    let mut k: usize = 0;
    while k < m.args.len()
        invariant
            k <= m.args.len(),
            args@.len() == k,
            forall|i: int| 0 <= i < k ==> args@[i]@ == m.args@[i]@,
        decreases m.args@.len() - k,
    {
        let a = copy_arg(&m.args[k]);
        args.push(a);
        k = k + 1;
    }
    let r = OscMsg { addr, args };
    proof {
        assert(args_view(r.args@) =~= args_view(m.args@));
        assert(r@ =~= m@);
    }
    r
}

/// The history that results from appending, in order, every message of
/// `msgs` to an empty buffer.
pub open spec fn fold_appends(msgs: Seq<MsgV>) -> Seq<MsgV>
    decreases msgs.len(),
{
    if msgs.len() == 0 {
        Seq::<MsgV>::empty()
    } else {
        spec_append(fold_appends(msgs.drop_last()), msgs.last())
    }
}

/// Capacity law: after any sequence of appends to an empty buffer, the
/// history holds exactly the most recent `min(N, CAPACITY)` of the `N`
/// appended messages, in arrival order.
pub proof fn lemma_capacity_invariant(msgs: Seq<MsgV>)
    ensures
        fold_appends(msgs).len() == if msgs.len() <= CAPACITY {
            msgs.len() as int
        } else {
            CAPACITY as int
        },
        fold_appends(msgs) == msgs.skip(
            if msgs.len() <= CAPACITY {
                0
            } else {
                msgs.len() - CAPACITY
            },
        ),
    decreases msgs.len(),
{
    if msgs.len() == 0 {
        assert(fold_appends(msgs) =~= msgs.skip(0));
    } else {
        let prefix = msgs.drop_last();
        lemma_capacity_invariant(prefix);
        let prev = fold_appends(prefix);
        if prefix.len() < CAPACITY {
            assert(prev.push(msgs.last()) =~= msgs.skip(0));
        } else {
            let k = prefix.len() - CAPACITY;
            assert(prev == prefix.skip(k));
            assert(prev.drop_first().push(msgs.last()) =~= msgs.skip(k + 1)) by {
                assert forall|i: int| 0 <= i < CAPACITY implies prev.drop_first().push(
                    msgs.last(),
                )[i] == msgs.skip(k + 1)[i] by {
                    if i < CAPACITY - 1 {
                        assert(prev.drop_first()[i] == prefix.skip(k)[i + 1]);
                        assert(prefix.skip(k)[i + 1] == prefix[k + 1 + i]);
                        assert(prefix[k + 1 + i] == msgs[k + 1 + i]);
                    }
                };
            };
        }
    }
}

} // verus!
