//! The stream property of the ingest loop: across any sequence of line
//! writes and rotations, the bytes retained on disk — oldest archive first,
//! active file last — are a suffix of the stream of everything ever written.
//! Rotation only ever drops an oldest prefix; nothing is reordered or
//! duplicated.

use crate::ring::{init_dir, line_record, opt_bytes, reopen_spec, rotate_spec, write_spec};
use vstd::prelude::*;

verus! {

/// One abstract step of the ingest loop.
pub enum LogStep {
    /// A line was accepted and appended to the active file.
    Write { line: Seq<u8> },
    /// The ring was rotated and a fresh active file created.
    Rotate,
}

/// The directory after one step.
pub open spec fn step_dir(dir: Seq<Option<Seq<u8>>>, s: LogStep) -> Seq<Option<Seq<u8>>> {
    match s {
        LogStep::Write { line } => write_spec(dir, line),
        LogStep::Rotate => reopen_spec(rotate_spec(dir)),
    }
}

/// The directory reached from a fresh ring of `n` slots by a sequence of
/// steps.
pub open spec fn run_dir(n: nat, steps: Seq<LogStep>) -> Seq<Option<Seq<u8>>>
    decreases steps.len(),
{
    if steps.len() == 0 {
        init_dir(n)
    } else {
        step_dir(run_dir(n, steps.drop_last()), steps.last())
    }
}

/// All bytes retained on disk, oldest slot first, active file last: the
/// order in which the retained data was originally written.
pub open spec fn disk_bytes(dir: Seq<Option<Seq<u8>>>) -> Seq<u8>
    decreases dir.len(),
{
    if dir.len() == 0 {
        Seq::empty()
    } else {
        opt_bytes(dir.last()) + disk_bytes(dir.drop_last())
    }
}

/// All bytes ever accepted, in input order, one record per written line.
pub open spec fn stream_bytes(steps: Seq<LogStep>) -> Seq<u8>
    decreases steps.len(),
{
    if steps.len() == 0 {
        Seq::empty()
    } else {
        stream_bytes(steps.drop_last()) + (match steps.last() {
            LogStep::Write { line } => line_record(line),
            LogStep::Rotate => Seq::empty(),
        })
    }
}

/// A rotated-and-reopened directory, written directly: a fresh active slot,
/// everything else moved up by one.
spec fn fresh_shift(dir: Seq<Option<Seq<u8>>>) -> Seq<Option<Seq<u8>>> {
    Seq::new(
        dir.len(),
        |i: int|
            if i == 0 {
                Some(Seq::<u8>::empty())
            } else {
                dir[i - 1]
            },
    )
}

/// A directory whose slots are all empty or absent retains no bytes.
proof fn lemma_disk_bytes_blank(dir: Seq<Option<Seq<u8>>>)
    requires
        forall|j: int| 0 <= j < dir.len() ==> opt_bytes(#[trigger] dir[j]).len() == 0,
    ensures
        disk_bytes(dir) == Seq::<u8>::empty(),
    decreases dir.len(),
{
    if dir.len() > 0 {
        assert(opt_bytes(dir.last()).len() == 0);
        assert forall|j: int| 0 <= j < dir.drop_last().len() implies opt_bytes(
            #[trigger] dir.drop_last()[j],
        ).len() == 0 by {
            assert(dir.drop_last()[j] == dir[j]);
        }
        lemma_disk_bytes_blank(dir.drop_last());
        assert(disk_bytes(dir) =~= Seq::<u8>::empty());
    }
}

/// Appending a line to the active file appends its record to the disk bytes.
proof fn lemma_disk_bytes_write(dir: Seq<Option<Seq<u8>>>, line: Seq<u8>)
    requires
        dir.len() >= 1,
    ensures
        disk_bytes(write_spec(dir, line)) == disk_bytes(dir) + line_record(line),
    decreases dir.len(),
{
    let w = write_spec(dir, line);
    if dir.len() == 1 {
        assert(w.last() == Some(opt_bytes(dir[0]) + line_record(line)));
        assert(w.drop_last() =~= Seq::<Option<Seq<u8>>>::empty());
        assert(dir.drop_last() =~= Seq::<Option<Seq<u8>>>::empty());
        assert(disk_bytes(w) =~= disk_bytes(dir) + line_record(line));
    } else {
        assert(w.last() == dir.last());
        assert(w.drop_last() =~= write_spec(dir.drop_last(), line));
        lemma_disk_bytes_write(dir.drop_last(), line);
        assert(opt_bytes(dir.last()) + (disk_bytes(dir.drop_last()) + line_record(line)) =~= (
        opt_bytes(dir.last()) + disk_bytes(dir.drop_last())) + line_record(line));
    }
}

/// Rotating and reopening drops exactly the oldest slot's bytes.
proof fn lemma_disk_bytes_shift(dir: Seq<Option<Seq<u8>>>)
    requires
        dir.len() >= 1,
    ensures
        disk_bytes(fresh_shift(dir)) == disk_bytes(dir.drop_last()),
    decreases dir.len(),
{
    let sh = fresh_shift(dir);
    if dir.len() == 1 {
        assert(sh.last() == Some(Seq::<u8>::empty()));
        assert(sh.drop_last() =~= Seq::<Option<Seq<u8>>>::empty());
        assert(disk_bytes(Seq::<Option<Seq<u8>>>::empty()) == Seq::<u8>::empty());
        assert(opt_bytes(sh.last()) =~= Seq::<u8>::empty());
        assert(disk_bytes(sh) =~= Seq::<u8>::empty());
        assert(dir.drop_last() =~= Seq::<Option<Seq<u8>>>::empty());
    } else {
        let ddl = dir.drop_last();
        assert(sh.last() == ddl.last());
        assert(sh.drop_last() =~= fresh_shift(ddl));
        lemma_disk_bytes_shift(ddl);
    }
}

/// A suffix stays a suffix when the same bytes are appended to both sides.
proof fn lemma_suffix_append(a: Seq<u8>, b: Seq<u8>, c: Seq<u8>)
    requires
        a.is_suffix_of(b),
    ensures
        (a + c).is_suffix_of(b + c),
{
    let k = b.len() - a.len();
    assert forall|j: int| 0 <= j < a.len() + c.len() implies (a + c)[j] == (b + c)[k + j] by {
        if j < a.len() {
            assert(a[j] == b.subrange(k, b.len() as int)[j]);
            assert(b.subrange(k, b.len() as int)[j] == b[k + j]);
        } else {
            assert((a + c)[j] == c[j - a.len()]);
            assert((b + c)[k + j] == c[k + j - b.len()]);
        }
    }
    assert((a + c) =~= (b + c).subrange(k, (b + c).len() as int));
}

/// The right part of a concatenation is a suffix of it.
proof fn lemma_suffix_of_append(a: Seq<u8>, b: Seq<u8>)
    ensures
        b.is_suffix_of(a + b),
{
    assert(b =~= (a + b).subrange(a.len() as int, (a + b).len() as int));
}

/// Being a suffix is transitive.
proof fn lemma_suffix_trans(a: Seq<u8>, b: Seq<u8>, c: Seq<u8>)
    requires
        a.is_suffix_of(b),
        b.is_suffix_of(c),
    ensures
        a.is_suffix_of(c),
{
    assert forall|j: int| 0 <= j < a.len() implies a[j] == c[c.len() - a.len() + j] by {
        assert(a[j] == b.subrange(b.len() - a.len(), b.len() as int)[j]);
        assert(a[j] == b[b.len() - a.len() + j]);
        assert(b[b.len() - a.len() + j] == c.subrange(c.len() - b.len(), c.len() as int)[b.len()
            - a.len() + j]);
    }
    assert(a =~= c.subrange(c.len() - a.len(), c.len() as int));
}

/// After any sequence of line writes and rotations starting from a fresh
/// ring, what the ring retains is a suffix of the stream of all accepted
/// lines: rotation only drops an oldest prefix, and no byte is ever
/// reordered or duplicated.
pub proof fn lemma_disk_is_stream_suffix(n: nat, steps: Seq<LogStep>)
    requires
        n >= 1,
    ensures
        run_dir(n, steps).len() == n,
        disk_bytes(run_dir(n, steps)).is_suffix_of(stream_bytes(steps)),
    decreases steps.len(),
{
    if steps.len() == 0 {
        let d = init_dir(n);
        assert(forall|j: int| 0 <= j < d.len() ==> opt_bytes(#[trigger] d[j]).len() == 0);
        lemma_disk_bytes_blank(d);
        assert(disk_bytes(d).is_suffix_of(stream_bytes(steps)));
    } else {
        let prev_steps = steps.drop_last();
        lemma_disk_is_stream_suffix(n, prev_steps);
        let prev = run_dir(n, prev_steps);
        match steps.last() {
            LogStep::Write { line } => {
                lemma_disk_bytes_write(prev, line);
                lemma_suffix_append(
                    disk_bytes(prev),
                    stream_bytes(prev_steps),
                    line_record(line),
                );
                assert(run_dir(n, steps) == write_spec(prev, line));
                assert(stream_bytes(steps) == stream_bytes(prev_steps) + line_record(line));
            },
            LogStep::Rotate => {
                assert(reopen_spec(rotate_spec(prev)) =~= fresh_shift(prev));
                lemma_disk_bytes_shift(prev);
                assert(disk_bytes(prev) == opt_bytes(prev.last()) + disk_bytes(prev.drop_last()));
                lemma_suffix_of_append(opt_bytes(prev.last()), disk_bytes(prev.drop_last()));
                lemma_suffix_trans(
                    disk_bytes(prev.drop_last()),
                    disk_bytes(prev),
                    stream_bytes(prev_steps),
                );
                assert(stream_bytes(steps) =~= stream_bytes(prev_steps));
                assert(run_dir(n, steps).len() == n);
            },
        }
    }
}

} // verus!
