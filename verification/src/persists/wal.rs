//! The records of the write-ahead log.
use vstd::prelude::*;
use vstd::utf8::encode_utf8;

verus! {

/// One record of the log: a write with the sequence number it was given.
#[derive(Debug, Clone)]
pub enum LogCommand {
    Put { key: String, value: String, seq_number: u64 },
    Delete { key: String, seq_number: u64 },
}

/// What a record says, key and value as bytes.
pub enum RecordModel {
    Put { key: Seq<u8>, value: Seq<u8>, seq: u64 },
    Delete { key: Seq<u8>, seq: u64 },
}

impl View for LogCommand {
    type V = RecordModel;

    open spec fn view(&self) -> RecordModel {
        match *self {
            LogCommand::Put { key, value, seq_number } => RecordModel::Put {
                key: encode_utf8(key@),
                value: encode_utf8(value@),
                seq: seq_number,
            },
            LogCommand::Delete { key, seq_number } => RecordModel::Delete {
                key: encode_utf8(key@),
                seq: seq_number,
            },
        }
    }
}

impl LogCommand {
    /// The sequence number of the write.
    pub fn sequence_number(&self) -> (seq: u64)
        ensures
            seq == match self@ {
                RecordModel::Put { seq, .. } => seq,
                RecordModel::Delete { seq, .. } => seq,
            },
    {
        match self {
            LogCommand::Put { seq_number, .. } => *seq_number,
            LogCommand::Delete { seq_number, .. } => *seq_number,
        }
    }
}

/// The records among `lines`, in their order, where `lines` holds for each
/// line of a log the record that was read from it, or nothing for a line
/// that could not be read.
pub open spec fn readable(lines: Seq<Option<LogCommand>>) -> Seq<LogCommand>
    decreases lines.len(),
{
    if lines.len() == 0 {
        Seq::empty()
    } else {
        match lines.last() {
            Some(command) => readable(lines.drop_last()).push(command),
            None => readable(lines.drop_last()),
        }
    }
}

/// The records of a log, in their order. A line that could not be read is
/// passed over; it does not end the reading.
pub fn keep_readable(lines: Vec<Option<LogCommand>>) -> (entries: Vec<LogCommand>)
    ensures
        entries@ == readable(lines@),
{
    let mut entries: Vec<LogCommand> = Vec::new();
    let ghost all = lines@;
    assert(all.take(0) =~= Seq::<Option<LogCommand>>::empty());
    for line in iter: lines
        invariant
            iter.seq() == all,
            entries@ == readable(all.take(iter.index() as int)),
    {
        proof {
            let i = iter.index() as int;
            assert(all.take(i + 1).drop_last() =~= all.take(i));
            assert(all.take(i + 1).last() == all[i]);
        }
        if let Some(command) = line {
            entries.push(command);
        }
    }
    assert(all.take(all.len() as int) =~= all);
    entries
}

} // verus!
