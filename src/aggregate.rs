//! Aggregation of one chunk's lines into a shard map.

use vstd::prelude::*;
use crate::array::Array;
use crate::parse::{is_well_formed, parse_temp, tenths, well_formed};
use crate::record::{max_readings, Record};
use crate::scan::{index_of, lines_of, lemma_index_of_spec, split_by, Lines, NEWLINE};
use crate::shard::{shard_contents, ShardMap};

verus! {

/// The byte between a key and its value.
pub const DELIM: u8 = 59;

/// Why a line was refused.
#[derive(Clone, Copy, Debug, PartialEq, Eq, Structural)]
pub enum LineError {
    /// A non-empty line without the delimiter.
    Format,
    /// A value that is not a well-formed reading.
    Parse,
}

/// The key of a line that holds the delimiter: the bytes before it.
pub open spec fn key_of(line: Seq<u8>) -> Seq<u8> {
    line.subrange(0, index_of(line, DELIM))
}

/// The value text of a line that holds the delimiter: the bytes after it.
pub open spec fn value_of(line: Seq<u8>) -> Seq<u8> {
    line.subrange(index_of(line, DELIM) + 1, line.len() as int)
}

/// What is wrong with a line, if anything. Empty lines are skipped, so
/// nothing is wrong with them.
pub open spec fn line_error(line: Seq<u8>) -> Option<LineError> {
    if line.len() == 0 {
        None
    } else if index_of(line, DELIM) < 0 {
        Some(LineError::Format)
    } else if !well_formed(value_of(line)) {
        Some(LineError::Parse)
    } else {
        None
    }
}

/// The error of the first faulty line, if any.
pub open spec fn first_error(lines: Seq<Seq<u8>>) -> Option<LineError>
    decreases lines.len(),
{
    if lines.len() == 0 {
        None
    } else {
        match first_error(lines.drop_last()) {
            Some(e) => Some(e),
            None => line_error(lines.last()),
        }
    }
}

/// Adds one reading of `key` to the map of summaries.
pub open spec fn add_reading(m: Map<Seq<u8>, Record>, key: Seq<u8>, v: i16) -> Map<Seq<u8>, Record> {
    if m.contains_key(key) {
        m.insert(key, m[key].combine(Record::single(v)))
    } else {
        m.insert(key, Record::single(v))
    }
}

/// The summaries per key of the readings of `lines`, empty lines skipped.
pub open spec fn aggregate(lines: Seq<Seq<u8>>) -> Map<Seq<u8>, Record>
    decreases lines.len(),
{
    if lines.len() == 0 {
        Map::empty()
    } else {
        let m = aggregate(lines.drop_last());
        let line = lines.last();
        if line.len() == 0 {
            m
        } else {
            add_reading(m, key_of(line), tenths(value_of(line)) as i16)
        }
    }
}

/// A text has no more lines than bytes.
pub proof fn lemma_lines_len(s: Seq<u8>)
    ensures
        lines_of(s).len() <= s.len(),
    decreases s.len(),
{
    if s.len() > 0 {
        lemma_index_of_spec(s, NEWLINE);
        let i = index_of(s, NEWLINE);
        if i >= 0 {
            lemma_lines_len(s.subrange(i + 1, s.len() as int));
        }
    }
}

/// Summarizes the lines of `values` per key; fails with the error of the first
/// faulty line.
pub fn process(values: &[u8]) -> (r: Result<ShardMap, LineError>)
    requires
        values@.len() <= max_readings(),
    ensures
        r matches Ok(m) ==> first_error(lines_of(values@)) is None && shard_contents(m) == aggregate(
            lines_of(values@),
        ),
        r matches Err(e) ==> first_error(lines_of(values@)) == Some(e),
        r matches Ok(m) ==> forall|k: Seq<u8>| #[trigger] shard_contents(m).contains_key(k)
            ==> shard_contents(m)[k].wf() && shard_contents(m)[k].count <= values@.len(),
        first_error(lines_of(values@)) is None ==> r is Ok,
{
    let mut map = ShardMap::new();
    let mut lines = Lines::new(values);
    let ghost all = lines_of(values@);
    let ghost mut done: Seq<Seq<u8>> = Seq::empty();
    proof {
        lemma_lines_len(values@);
        assert(aggregate(done) =~= shard_contents(map));
    }
    loop
        invariant
            all == lines_of(values@),
            all.len() <= max_readings(),
            all.len() <= values@.len(),
            all == done + lines@,
            first_error(done) is None,
            shard_contents(map) == aggregate(done),
            forall|k: Seq<u8>|
                #[trigger] shard_contents(map).contains_key(k) ==> shard_contents(map)[k].wf()
                    && shard_contents(map)[k].count <= done.len(),
        decreases lines@.len(),
    {
        let ghost before = lines@;
        let line = match lines.next() {
            Some(line) => line,
            None => {
                assert(done =~= all);
                return Ok(map);
            },
        };
        let ghost next_done = done.push(line@);
        assert(next_done.drop_last() =~= done);
        assert(all == next_done + lines@) by {
            assert(before =~= seq![line@] + lines@);
            assert(done + before =~= next_done + lines@);
        }
        assert(all.subrange(0, next_done.len() as int) =~= next_done);
        if line.len() == 0 {
            proof {
                done = next_done;
            }
            continue;
        }
        let (station, temperature) = split_by(line, DELIM);
        proof {
            lemma_index_of_spec(line@, DELIM);
        }
        // The key is the whole line only where the line has no delimiter.
        if station.len() == line.len() {
            assert(first_error(next_done) == Some(LineError::Format));
            proof {
                lemma_first_error_prefix(all, next_done);
            }
            return Err(LineError::Format);
        }
        if !is_well_formed(temperature) {
            assert(first_error(next_done) == Some(LineError::Parse));
            proof {
                lemma_first_error_prefix(all, next_done);
            }
            return Err(LineError::Parse);
        }
        let value = parse_temp(temperature);
        proof {
            assert(next_done.len() <= all.len()) by {
                assert(all.len() == next_done.len() + lines@.len());
            }
        }
        match map.get(station) {
            Some(rec) => {
                let mut rec = rec;
                assert(rec.wf());
                assert(rec.count + 1 <= max_readings());
                assert(9999 * (rec.count + 1) <= 9999 * 0x1_0000_0000_0000) by (nonlinear_arith)
                    requires
                        rec.count + 1 <= 0x1_0000_0000_0000,
                ;
                rec.update(value);
                map.replace(station, rec);
            },
            None => {
                map.insert(Array::new(station), Record::new(value));
            },
        }
        proof {
            done = next_done;
            assert(shard_contents(map) =~= aggregate(done));
        }
    }
}

/// An error in a prefix of the lines is the first error of all of them.
pub proof fn lemma_first_error_prefix(all: Seq<Seq<u8>>, prefix: Seq<Seq<u8>>)
    requires
        prefix.len() <= all.len(),
        prefix == all.subrange(0, prefix.len() as int),
        first_error(prefix) is Some,
    ensures
        first_error(all) == first_error(prefix),
    decreases all.len(),
{
    if all.len() > prefix.len() {
        assert(all.drop_last().subrange(0, prefix.len() as int) =~= prefix);
        lemma_first_error_prefix(all.drop_last(), prefix);
    } else {
        assert(all =~= prefix);
    }
}

} // verus!
