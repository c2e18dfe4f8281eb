//! The command line of the benchmark tool, and reading its number lists.
use crate::numbers::{parse_unsigned, unsigned_value};
use crate::schema::parser::trim;
use crate::text::{chars_of, string_of};
use vstd::prelude::*;

verus! {

/// The benchmark tool's command line.
pub struct Cli {
    pub command: Commands,
}

/// The benchmarks the tool runs. Lists of numbers are comma-separated text.
pub enum Commands {
    /// Read throughput.
    BaselineRead { iterations: usize, record_count: usize },
    /// Write throughput.
    WriteThroughput { iterations: usize },
    /// Reads and writes mixed; `read_percent` from 0 to 100.
    MixedWorkload { operations: usize, read_percent: u8 },
    /// Scaling with the number of cores.
    ProcedureScaling { record_count: usize, cores: String },
    /// Memory beyond the raw data.
    MemoryOverhead { record_sizes: String, record_counts: String },
    /// Contention between writer threads.
    CacheContention { thread_counts: String, record_sizes: String, operations: usize },
    /// Every benchmark.
    All,
}

/// The pieces of `s` between commas, as `str::split(',')` gives them.
pub open spec fn split_commas(s: Seq<char>) -> Seq<Seq<char>>
    decreases s.len(),
{
    if s.len() == 0 {
        seq![Seq::empty()]
    } else if s.last() == ',' {
        split_commas(s.drop_last()).push(Seq::empty())
    } else {
        let parts = split_commas(s.drop_last());
        parts.update(parts.len() - 1, parts.last().push(s.last()))
    }
}

pub proof fn lemma_split_nonempty(s: Seq<char>)
    ensures
        split_commas(s).len() >= 1,
    decreases s.len(),
{
    if s.len() > 0 {
        lemma_split_nonempty(s.drop_last());
    }
}

/// The number a piece of a list writes, white space around it ignored.
pub open spec fn list_item(p: Seq<char>) -> Option<nat> {
    unsigned_value(trim(p), 10, usize::MAX as nat)
}

/// The pieces of a prefix of `s` are the first pieces of `s`, the last one
/// cut short.
pub proof fn lemma_split_prefix(s: Seq<char>, i: int)
    requires
        0 <= i <= s.len(),
    ensures
        split_commas(s.take(i)).len() <= split_commas(s).len(),
        forall|k: int| 0 <= k < split_commas(s.take(i)).len() - 1 ==> split_commas(s.take(i))[k] == split_commas(s)[k],
        split_commas(s.take(i)).last().len() <= split_commas(s)[split_commas(s.take(i)).len() - 1].len(),
        split_commas(s)[split_commas(s.take(i)).len() - 1].take(split_commas(s.take(i)).last().len() as int)
            == split_commas(s.take(i)).last(),
    decreases s.len(),
{
    lemma_split_nonempty(s.take(i));
    lemma_split_nonempty(s);
    if i == s.len() {
        assert(s.take(i) =~= s);
        let b = split_commas(s);
        assert(b.last().take(b.last().len() as int) =~= b.last());
    } else {
        let t = s.drop_last();
        assert(t.take(i) =~= s.take(i));
        lemma_split_prefix(t, i);
        lemma_split_nonempty(t);
        let a = split_commas(s.take(i));
        let b0 = split_commas(t);
        let b = split_commas(s);
        assert(s.drop_last() == t);
        if s.last() == ',' {
            assert(b == b0.push(Seq::empty()));
            assert(b[a.len() - 1] == b0[a.len() - 1]);
        } else {
            assert(b == b0.update(b0.len() - 1, b0.last().push(s.last())));
            let j = a.len() - 1;
            if j < b0.len() - 1 {
                assert(b[j] == b0[j]);
            } else {
                assert(b[j] == b0.last().push(s.last()));
                assert(b[j].take(a.last().len() as int) =~= b0[j].take(a.last().len() as int));
            }
        }
    }
}

/// Reads a comma-separated list of numbers, each of which may have white
/// space around it.
pub fn parse_comma_separated(input: &str) -> (r: Vec<usize>)
    requires
        forall|i: int| 0 <= i < split_commas(input@).len() ==> (#[trigger] list_item(split_commas(input@)[i])) is Some,
    ensures
        r@.len() == split_commas(input@).len(),
        forall|i: int| 0 <= i < r@.len() ==> Some(r@[i] as nat) == list_item(split_commas(input@)[i]),
{
    let cs = chars_of(input);
    let ghost s = cs@;
    let mut out: Vec<usize> = Vec::new();
    let mut start: usize = 0;
    let mut i: usize = 0;
    proof {
        assert(s.take(0) =~= Seq::<char>::empty());
        assert(split_commas(s.take(0)).last() =~= s.subrange(0, 0));
    }
    while i < cs.len()
        invariant
            s == cs@,
            s == input@,
            start <= i <= cs@.len(),
            forall|k: int| 0 <= k < split_commas(s).len() ==> (#[trigger] list_item(split_commas(s)[k])) is Some,
            split_commas(s.take(i as int)).len() == out@.len() + 1,
            split_commas(s.take(i as int)).last() == s.subrange(start as int, i as int),
            forall|k: int| 0 <= k < out@.len() ==> Some(out@[k] as nat) == list_item(split_commas(s)[k]),
        decreases cs@.len() - i,
    {
        proof {
            lemma_split_nonempty(s.take(i as int));
            assert(s.take(i + 1int).drop_last() =~= s.take(i as int));
            assert(s.take(i + 1int).last() == s[i as int]);
        }
        if cs[i] == ',' {
            let piece = crate::schema::parser::trimmed(cs.as_slice(), start, i);
            let text = string_of(piece.as_slice(), 0, piece.len());
            proof {
                assert(piece@.subrange(0, piece@.len() as int) =~= piece@);
                lemma_split_prefix(s, i + 1);
                let a = split_commas(s.take(i + 1int));
                assert(a == split_commas(s.take(i as int)).push(Seq::<char>::empty()));
                assert(a[out@.len() as int] == s.subrange(start as int, i as int));
                assert(split_commas(s)[out@.len() as int] == s.subrange(start as int, i as int));
                assert(list_item(split_commas(s)[out@.len() as int]) is Some);
            }
            let v = parse_unsigned(text.as_str(), 10, usize::MAX as u64);
            let x = match v {
                Some(x) => x,
                None => 0,
            };
            out.push(x as usize);
            start = i + 1;
            proof {
                assert(split_commas(s.take(i + 1int)).last() =~= s.subrange(start as int, i + 1));
            }
        } else {
            proof {
                let a0 = split_commas(s.take(i as int));
                assert(split_commas(s.take(i + 1int)) == a0.update(a0.len() - 1, a0.last().push(s[i as int])));
                assert(a0.last().push(s[i as int]) =~= s.subrange(start as int, i + 1));
            }
        }
        i += 1;
    }
    proof {
        assert(s.take(s.len() as int) =~= s);
        lemma_split_nonempty(s);
    }
    let piece = crate::schema::parser::trimmed(cs.as_slice(), start, cs.len());
    let text = string_of(piece.as_slice(), 0, piece.len());
    proof {
        assert(piece@.subrange(0, piece@.len() as int) =~= piece@);
        assert(list_item(split_commas(s)[out@.len() as int]) is Some);
    }
    let v = parse_unsigned(text.as_str(), 10, usize::MAX as u64);
    let x = match v {
        Some(x) => x,
        None => 0,
    };
    out.push(x as usize);
    out
}

} // verus!
