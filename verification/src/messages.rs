//! Ordered, append-only log of informational/warning/error entries.
//!
//! Every stage of the pipeline reports through a [`MsgList`]; the number of
//! error-severity entries gates binary emission and serial transmission.

use vstd::prelude::*;

verus! {

/// Severity of a message.
#[derive(Debug, Clone, Copy, PartialEq, Eq, Structural)]
pub enum MessageType {
    Info,
    Warning,
    Error,
}

/// One log entry: text, optional source line number, severity.
#[derive(Debug, Clone)]
pub struct Message {
    pub name: String,
    pub line_number: Option<u32>,
    pub msg_type: MessageType,
}

/// Append-only message log; entries are kept in emission order.
#[derive(Debug)]
pub struct MsgList {
    pub list: Vec<Message>,
}

/// Number of entries of the given severity in `s`.
pub open spec fn count_severity(s: Seq<Message>, t: MessageType) -> int
    decreases s.len(),
{
    if s.len() == 0 {
        0
    } else {
        count_severity(s.drop_last(), t) + if s.last().msg_type == t {
            1int
        } else {
            0int
        }
    }
}

/// The count of any severity never exceeds the length of the log.
proof fn lemma_count_severity_le_len(s: Seq<Message>, t: MessageType)
    ensures
        0 <= count_severity(s, t) <= s.len(),
    decreases s.len(),
{
    if s.len() > 0 {
        lemma_count_severity_le_len(s.drop_last(), t);
    }
}

impl MsgList {
    /// An empty message log.
    pub fn new() -> (r: MsgList)
        ensures
            r.list@ =~= Seq::<Message>::empty(),
    {
        MsgList { list: Vec::new() }
    }

    /// Append one entry; nothing already logged changes.
    pub fn push(&mut self, name: String, line_number: Option<u32>, msg_type: MessageType)
        ensures
            final(self).list@ =~= old(self).list@.push(
                Message { name, line_number, msg_type },
            ),
    {
        self.list.push(Message { name, line_number, msg_type });
    }

    /// How many error-severity entries the log holds.
    pub fn number_errors(&self) -> (r: usize)
        ensures
            r == count_severity(self.list@, MessageType::Error),
    {
        proof {
            lemma_count_severity_le_len(self.list@, MessageType::Error);
        }
        let mut n: usize = 0;
        let mut i: usize = 0;
        while i < self.list.len()
            invariant
                i <= self.list@.len(),
                n == count_severity(self.list@.take(i as int), MessageType::Error),
                n <= i,
            decreases self.list@.len() - i,
        {
            proof {
                assert(self.list@.take(i + 1int).drop_last() =~= self.list@.take(i as int));
                assert(self.list@.take(i + 1int).last() == self.list@[i as int]);
            }
            if matches!(self.list[i].msg_type, MessageType::Error) {
                n = n + 1;
            }
            i = i + 1;
        }
        proof {
            assert(self.list@.take(self.list@.len() as int) =~= self.list@);
        }
        n
    }

    /// How many warning-severity entries the log holds.
    pub fn number_warnings(&self) -> (r: usize)
        ensures
            r == count_severity(self.list@, MessageType::Warning),
    {
        proof {
            lemma_count_severity_le_len(self.list@, MessageType::Warning);
        }
        let mut n: usize = 0;
        let mut i: usize = 0;
        while i < self.list.len()
            invariant
                i <= self.list@.len(),
                n == count_severity(self.list@.take(i as int), MessageType::Warning),
                n <= i,
            decreases self.list@.len() - i,
        {
            proof {
                assert(self.list@.take(i + 1int).drop_last() =~= self.list@.take(i as int));
                assert(self.list@.take(i + 1int).last() == self.list@[i as int]);
            }
            if matches!(self.list[i].msg_type, MessageType::Warning) {
                n = n + 1;
            }
            i = i + 1;
        }
        proof {
            assert(self.list@.take(self.list@.len() as int) =~= self.list@);
        }
        n
    }
}

} // verus!
