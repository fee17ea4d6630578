//! The archive ring and its rotation engine.
//!
//! The on-disk state is a ring of `N` slots: slot 0 is the active file
//! `base.ext`, slot `i` (1 <= i <= N-1) is the archive `base.i.ext`, newest
//! archive first. [`Ring`] models that state as a vector of optional byte
//! strings and carries the verified logic: the rotation engine, the per-line
//! ingest policy, and the rename plan that a caller replays against the real
//! file system.

use vstd::prelude::*;

verus! {

/// Model of the files on disk: slot `i` holds `Some(bytes)` when the file at
/// index `i` exists, `None` when it does not. Slot 0 is the active file.
pub struct Ring {
    files: Vec<Option<Vec<u8>>>,
}

/// The bytes of one slot, `Some` when the file exists.
pub open spec fn file_view(f: Option<Vec<u8>>) -> Option<Seq<u8>> {
    match f {
        Some(v) => Some(v@),
        None => None,
    }
}

/// The bytes of one slot, reading an absent file as empty.
pub open spec fn opt_bytes(f: Option<Seq<u8>>) -> Seq<u8> {
    match f {
        Some(c) => c,
        None => Seq::empty(),
    }
}

/// A line as it is persisted: the line's bytes plus one newline separator.
pub open spec fn line_record(line: Seq<u8>) -> Seq<u8> {
    line + seq![10u8]
}

/// A fresh ring: an empty active file and no archives.
pub open spec fn init_dir(n: nat) -> Seq<Option<Seq<u8>>> {
    Seq::new(n, |i: int| if i == 0 { Some(Seq::<u8>::empty()) } else { None })
}

/// One completed rotation: the active slot is freed, every slot moves up by
/// one, and the oldest slot's file is dropped.
pub open spec fn rotate_spec(dir: Seq<Option<Seq<u8>>>) -> Seq<Option<Seq<u8>>> {
    Seq::new(dir.len(), |i: int| if i == 0 { None } else { dir[i - 1] })
}

/// Recreating the active file after a rotation.
pub open spec fn reopen_spec(dir: Seq<Option<Seq<u8>>>) -> Seq<Option<Seq<u8>>> {
    dir.update(0, Some(Seq::<u8>::empty()))
}

/// Appending one line to the active file.
pub open spec fn write_spec(dir: Seq<Option<Seq<u8>>>, line: Seq<u8>) -> Seq<Option<Seq<u8>>> {
    dir.update(0, Some(opt_bytes(dir[0]) + line_record(line)))
}

/// Size of the active file, an absent file reading as empty.
pub open spec fn active_len(dir: Seq<Option<Seq<u8>>>) -> nat {
    opt_bytes(dir[0]).len()
}

/// One iteration of the ingest loop: rotate first if the active file has
/// reached the threshold, then append the line.
pub open spec fn ingest_spec(dir: Seq<Option<Seq<u8>>>, line: Seq<u8>, max_bytes: nat) -> Seq<
    Option<Seq<u8>>,
> {
    if active_len(dir) >= max_bytes {
        write_spec(reopen_spec(rotate_spec(dir)), line)
    } else {
        write_spec(dir, line)
    }
}

/// The size policy: a rotation is due exactly when the active file has
/// reached the configured threshold. The threshold is a trigger, not a hard
/// cap: the line that crosses it is still written to the current file.
pub fn should_rotate(current_size: u64, max_bytes: u64) -> (r: bool)
    ensures
        r == (current_size >= max_bytes),
{
    current_size >= max_bytes
}

impl View for Ring {
    type V = Seq<Option<Seq<u8>>>;

    closed spec fn view(&self) -> Seq<Option<Seq<u8>>> {
        Seq::new(self.files@.len(), |i: int| file_view(self.files@[i]))
    }
}

impl Ring {
    /// A ring holds at least the active slot.
    pub open spec fn wf(&self) -> bool {
        self@.len() >= 1
    }

    /// Start a fresh ring of `capacity` slots: an empty active file, no
    /// archives.
    pub fn new(capacity: usize) -> (r: Ring)
        requires
            capacity >= 1,
        ensures
            r.wf(),
            r@ == init_dir(capacity as nat),
    {
        let mut files: Vec<Option<Vec<u8>>> = Vec::new();
        files.push(Some(Vec::new()));
        let mut k: usize = 1;
        while k < capacity
            invariant
                1 <= k <= capacity,
                files@.len() == k,
                file_view(files@[0]) == Some(Seq::<u8>::empty()),
                forall|i: int| 1 <= i < k ==> file_view(files@[i]) is None,
            decreases capacity - k,
        {
            files.push(None);
            k = k + 1;
        }
        let r = Ring { files };
        proof {
            assert(r@ =~= init_dir(capacity as nat));
        }
        r
    }

    /// Adopt an existing directory state, for example one found on disk at
    /// startup.
    pub fn from_files(files: Vec<Option<Vec<u8>>>) -> (r: Ring)
        requires
            files@.len() >= 1,
        ensures
            r.wf(),
            r@.len() == files@.len(),
            forall|i: int| 0 <= i < files@.len() ==> r@[i] == file_view(files@[i]),
    {
        Ring { files }
    }

    /// Number of slots in the ring.
    pub fn capacity(&self) -> (n: usize)
        ensures
            n == self@.len(),
    {
        self.files.len()
    }

    /// Does the file at `index` exist?
    pub fn has_file(&self, index: usize) -> (b: bool)
        requires
            index < self@.len(),
        ensures
            b == (self@[index as int] is Some),
    {
        self.files[index].is_some()
    }

    /// The bytes of the file at `index`.
    pub fn file_bytes(&self, index: usize) -> (r: &Vec<u8>)
        requires
            index < self@.len(),
            self@[index as int] is Some,
        ensures
            Some(r@) == self@[index as int],
    {
        match &self.files[index] {
            Some(v) => v,
            None => vstd::pervasive::unreached(),
        }
    }

    /// Size of the active file.
    pub fn active_size(&self) -> (sz: usize)
        requires
            self.wf(),
            self@[0] is Some,
        ensures
            sz == active_len(self@),
    {
        match &self.files[0] {
            Some(v) => v.len(),
            None => vstd::pervasive::unreached(),
        }
    }

    /// The rotation engine. Slots are visited from the oldest, index N-1,
    /// down to the active file at index 0: the oldest file is deleted, every
    /// other file moves up into the slot just freed, so a move never lands on
    /// a slot that is still occupied. Visiting slots in the other direction
    /// would overwrite newer archives with older ones.
    pub fn rotate(&mut self)
        requires
            old(self).wf(),
        ensures
            final(self).wf(),
            final(self)@ == rotate_spec(old(self)@),
    {
        let n: usize = self.files.len();
        let mut i: usize = n;
        while i > 0
            invariant
                i <= n,
                n == self.files@.len(),
                n == old(self)@.len(),
                n >= 1,
                forall|j: int| 0 <= j < i ==> self@[j] == old(self)@[j],
                i < n ==> self@[i as int] is None,
                forall|j: int| i < j < n ==> self@[j] == old(self)@[j - 1],
            decreases i,
        {
            i = i - 1;
            let ghost pre = self@;
            if self.files[i].is_some() {
                if i + 1 == n {
                    // The oldest retained file dies.
                    self.files[i] = None;
                    proof {
                        assert(self@ =~= pre.update(i as int, None::<Seq<u8>>));
                    }
                } else {
                    // Slot i + 1 is already free: advance the file one slot.
                    let f: Option<Vec<u8>> = self.files[i].take();
                    self.files[i + 1] = f;
                    proof {
                        assert(self@ =~= pre.update(i + 1, pre[i as int]).update(
                            i as int,
                            None::<Seq<u8>>,
                        ));
                    }
                }
            } else {
                proof {
                    assert(pre[i as int] is None);
                    assert(self@ =~= pre);
                }
            }
            proof {
                assert forall|j: int| i < j < n implies self@[j] == old(self)@[j - 1] by {
                    if j == i + 1 {
                        assert(pre[j] is None || j == n);
                    }
                }
                assert(i < n ==> self@[i as int] is None);
                assert(forall|j: int| 0 <= j < i ==> self@[j] == old(self)@[j]);
            }
        }
        proof {
            assert(self@ =~= rotate_spec(old(self)@));
        }
    }

    /// Recreate the active file, empty, after a rotation.
    pub fn reopen_active(&mut self)
        requires
            old(self).wf(),
        ensures
            final(self).wf(),
            final(self)@ == reopen_spec(old(self)@),
    {
        self.files[0] = Some(Vec::new());
        proof {
            assert(self@ =~= reopen_spec(old(self)@));
        }
    }

    /// Append one line, plus its newline separator, to the active file.
    pub fn write_line(&mut self, line: &[u8])
        requires
            old(self).wf(),
            old(self)@[0] is Some,
        ensures
            final(self).wf(),
            final(self)@ == write_spec(old(self)@, line@),
    {
        let mut content: Vec<u8> = self.files[0].take().unwrap();
        let mut k: usize = 0;
        while k < line.len()
            invariant
                k <= line@.len(),
                content@ == opt_bytes(old(self)@[0]) + line@.take(k as int),
            decreases line@.len() - k,
        {
            content.push(line[k]);
            proof {
                assert(line@.take(k + 1).drop_last() =~= line@.take(k as int));
                assert(content@ =~= opt_bytes(old(self)@[0]) + line@.take(k + 1));
            }
            k = k + 1;
        }
        content.push(10);
        proof {
            assert(line@.take(line@.len() as int) =~= line@);
            assert(content@ =~= opt_bytes(old(self)@[0]) + line_record(line@));
        }
        self.files[0] = Some(content);
        proof {
            assert(self@ =~= write_spec(old(self)@, line@));
        }
    }

    /// One iteration of the ingest loop on the model: rotate and reopen if
    /// the active file has reached `max_bytes`, then append the line.
    pub fn ingest_line(&mut self, line: &[u8], max_bytes: u64)
        requires
            old(self).wf(),
            old(self)@[0] is Some,
        ensures
            final(self).wf(),
            final(self)@ == ingest_spec(old(self)@, line@, max_bytes as nat),
            final(self)@[0] is Some,
    {
        let size: usize = self.active_size();
        if should_rotate(size as u64, max_bytes) {
            self.rotate();
            self.reopen_active();
        }
        self.write_line(line);
    }
}

/// One step of the on-disk rotation sequence.
#[derive(Clone, Copy, Debug, PartialEq, Eq, Structural)]
pub enum FileOp {
    /// Remove the file at slot `index`.
    Delete { index: usize },
    /// Rename the file at slot `from` onto the free slot `to == from + 1`.
    Rename { from: usize, to: usize },
}

/// The operation the engine performs at slot `i`, given which slots exist:
/// nothing for an absent file, deletion at the oldest slot, a rename up by
/// one everywhere else.
pub open spec fn step_ops(ex: Seq<bool>, i: int) -> Seq<FileOp> {
    if !ex[i] {
        seq![]
    } else if i == ex.len() - 1 {
        seq![FileOp::Delete { index: i as usize }]
    } else {
        seq![FileOp::Rename { from: i as usize, to: (i + 1) as usize }]
    }
}

/// The operations for slots `i` down to 0, in that order.
pub open spec fn plan_from(ex: Seq<bool>, i: int) -> Seq<FileOp>
    decreases i + 1,
{
    if i < 0 {
        seq![]
    } else {
        step_ops(ex, i) + plan_from(ex, i - 1)
    }
}

/// The whole rotation plan: every slot, oldest first.
pub open spec fn plan_spec(ex: Seq<bool>) -> Seq<FileOp> {
    plan_from(ex, ex.len() - 1)
}

/// The slots an operation touches all lie inside the ring of `n` slots.
pub open spec fn op_in_ring(op: FileOp, n: int) -> bool {
    match op {
        FileOp::Delete { index } => index < n,
        FileOp::Rename { from, to } => from < n && to < n,
    }
}

/// Compute the rename sequence for one rotation from the existence of each
/// slot, highest slot first, so that a caller can replay it against the real
/// file system. No operation names a slot outside the ring: the engine never
/// probes or creates files beyond index `N - 1`.
pub fn rotation_plan(exists: &Vec<bool>) -> (plan: Vec<FileOp>)
    requires
        exists@.len() >= 1,
    ensures
        plan@ == plan_spec(exists@),
        forall|k: int| 0 <= k < plan@.len() ==> op_in_ring(plan@[k], exists@.len() as int),
{
    let n: usize = exists.len();
    let mut plan: Vec<FileOp> = Vec::new();
    let mut i: usize = n;
    proof {
        assert(plan@ + plan_from(exists@, n - 1) =~= plan_from(exists@, n - 1));
    }
    while i > 0
        invariant
            i <= n,
            n == exists@.len(),
            plan@ + plan_from(exists@, i - 1) == plan_spec(exists@),
            forall|k: int| 0 <= k < plan@.len() ==> op_in_ring(plan@[k], n as int),
        decreases i,
    {
        i = i - 1;
        let ghost prefix = plan@;
        if exists[i] {
            if i + 1 == n {
                plan.push(FileOp::Delete { index: i });
            } else {
                plan.push(FileOp::Rename { from: i, to: i + 1 });
            }
        }
        proof {
            assert(plan@ =~= prefix + step_ops(exists@, i as int));
            assert((prefix + step_ops(exists@, i as int)) + plan_from(exists@, i - 1) =~= prefix
                + (step_ops(exists@, i as int) + plan_from(exists@, i - 1)));
        }
    }
    proof {
        assert(plan@ + plan_from(exists@, -1) =~= plan@);
    }
    plan
}

/// The state of a directory after one operation: deleting empties a slot, a
/// rename moves a slot's contents onto its target and empties the source.
pub open spec fn apply_op(dir: Seq<Option<Seq<u8>>>, op: FileOp) -> Seq<Option<Seq<u8>>> {
    match op {
        FileOp::Delete { index } => dir.update(index as int, None),
        FileOp::Rename { from, to } => dir.update(to as int, dir[from as int]).update(
            from as int,
            None,
        ),
    }
}

/// The state of a directory after a sequence of operations, first op first.
pub open spec fn apply_plan(dir: Seq<Option<Seq<u8>>>, ops: Seq<FileOp>) -> Seq<Option<Seq<u8>>>
    decreases ops.len(),
{
    if ops.len() == 0 {
        dir
    } else {
        apply_plan(apply_op(dir, ops[0]), ops.drop_first())
    }
}

/// Existence bits of the first `n` slots of a directory.
pub open spec fn exists_bits(dir: Seq<Option<Seq<u8>>>, n: int) -> Seq<bool> {
    Seq::new(n as nat, |i: int| dir[i] is Some)
}

/// What a completed rotation of the first `n` slots of a directory of
/// possibly more slots leaves behind: the ring shifted up by one, everything
/// beyond the ring untouched.
pub open spec fn rotated_dir(dir: Seq<Option<Seq<u8>>>, n: int) -> Seq<Option<Seq<u8>>> {
    Seq::new(
        dir.len(),
        |j: int|
            if j == 0 {
                None
            } else if j < n {
                dir[j - 1]
            } else {
                dir[j]
            },
    )
}

/// The directory after the slots `i + 1` .. `n - 1` have been processed and
/// slots `i` and below have not been touched yet.
spec fn mid_dir(dir: Seq<Option<Seq<u8>>>, n: int, i: int) -> Seq<Option<Seq<u8>>> {
    Seq::new(
        dir.len(),
        |j: int|
            if j <= i {
                dir[j]
            } else if j == i + 1 && j < n {
                None
            } else if j < n {
                dir[j - 1]
            } else {
                dir[j]
            },
    )
}

/// Running a concatenation of plans runs one after the other.
proof fn lemma_apply_plan_app(dir: Seq<Option<Seq<u8>>>, a: Seq<FileOp>, b: Seq<FileOp>)
    ensures
        apply_plan(dir, a + b) == apply_plan(apply_plan(dir, a), b),
    decreases a.len(),
{
    if a.len() == 0 {
        assert(a + b =~= b);
    } else {
        assert((a + b)[0] == a[0]);
        assert((a + b).drop_first() =~= a.drop_first() + b);
        lemma_apply_plan_app(apply_op(dir, a[0]), a.drop_first(), b);
    }
}

/// Applying the remaining plan for slots `i` down to 0 to the mid-rotation
/// state finishes the rotation.
proof fn lemma_plan_from_applies(dir: Seq<Option<Seq<u8>>>, n: int, i: int)
    requires
        1 <= n <= dir.len(),
        n <= usize::MAX,
        -1 <= i <= n - 1,
    ensures
        apply_plan(mid_dir(dir, n, i), plan_from(exists_bits(dir, n), i)) == rotated_dir(dir, n),
    decreases i + 1,
{
    let ex = exists_bits(dir, n);
    if i < 0 {
        assert(mid_dir(dir, n, -1) =~= rotated_dir(dir, n));
    } else {
        let mid = mid_dir(dir, n, i);
        lemma_apply_plan_app(mid, step_ops(ex, i), plan_from(ex, i - 1));
        if !ex[i] {
            assert(apply_plan(mid, step_ops(ex, i)) == mid);
            assert(mid =~= mid_dir(dir, n, i - 1));
        } else if i == n - 1 {
            assert(step_ops(ex, i) =~= seq![FileOp::Delete { index: i as usize }]);
            let stepped = apply_plan(mid, step_ops(ex, i));
            assert(stepped == apply_plan(
                apply_op(mid, FileOp::Delete { index: i as usize }),
                step_ops(ex, i).drop_first(),
            ));
            assert(step_ops(ex, i).drop_first() =~= Seq::<FileOp>::empty());
            assert(stepped == mid.update(i, None::<Seq<u8>>));
            assert(stepped =~= mid_dir(dir, n, i - 1));
        } else {
            assert(step_ops(ex, i) =~= seq![
                FileOp::Rename { from: i as usize, to: (i + 1) as usize },
            ]);
            let op = FileOp::Rename { from: i as usize, to: (i + 1) as usize };
            let stepped = apply_plan(mid, step_ops(ex, i));
            assert(stepped == apply_plan(apply_op(mid, op), step_ops(ex, i).drop_first()));
            assert(step_ops(ex, i).drop_first() =~= Seq::<FileOp>::empty());
            assert(stepped == mid.update(i + 1, mid[i]).update(i, None::<Seq<u8>>));
            assert(stepped =~= mid_dir(dir, n, i - 1));
        }
        lemma_plan_from_applies(dir, n, i - 1);
    }
}

/// Replaying the rotation plan against any directory with at least `n` slots
/// rotates the ring: the active slot is freed, slots move up by one with the
/// oldest archive dropped, and every slot at index `n` or beyond is left
/// untouched — the engine never creates or removes a file outside the ring.
pub proof fn lemma_plan_rotates(dir: Seq<Option<Seq<u8>>>, n: int)
    requires
        1 <= n <= dir.len(),
        n <= usize::MAX,
    ensures
        apply_plan(dir, plan_spec(exists_bits(dir, n))) == rotated_dir(dir, n),
        rotated_dir(dir, n).len() == dir.len(),
        rotated_dir(dir, n)[0] is None,
        forall|j: int| 1 <= j < n ==> rotated_dir(dir, n)[j] == dir[j - 1],
        forall|j: int| n <= j < dir.len() ==> rotated_dir(dir, n)[j] == dir[j],
{
    assert(mid_dir(dir, n, n - 1) =~= dir);
    assert(exists_bits(dir, n).len() == n);
    lemma_plan_from_applies(dir, n, n - 1);
}

/// On a directory that is exactly the ring, the replayed plan and the model
/// engine agree.
pub proof fn lemma_rotate_spec_is_rotated_dir(dir: Seq<Option<Seq<u8>>>)
    requires
        1 <= dir.len() <= usize::MAX,
    ensures
        rotate_spec(dir) == rotated_dir(dir, dir.len() as int),
{
    assert(rotate_spec(dir) =~= rotated_dir(dir, dir.len() as int));
}

} // verus!
