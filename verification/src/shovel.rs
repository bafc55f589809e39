//! Copying between pairs of files: the bookkeeping of one pair, which
//! alternates between reading into its buffer and writing the buffer out,
//! and the pair itself with its buffer, which keeps every byte written to
//! the target a prefix of the bytes read from the source.
use vstd::prelude::*;

verus! {

/// Bytes of the buffer of a pair (`BUFSIZ` of the C library).
pub const BUF_SIZE: usize = 8192;

/// What a pair of files waits for.
#[derive(Clone, Copy, Debug, PartialEq, Eq, Structural)]
pub enum FilePairState {
    /// Part of the buffer still has to be written.
    Write,
    /// The buffer is empty: read more.
    Read,
}

/// How far a pair of files got: `read_offset` bytes were read into the
/// buffer, the first `write_offset` of them are written.
#[derive(Clone, Copy, Debug, PartialEq, Eq, Structural)]
pub struct FilePairProgress {
    pub read_offset: usize,
    pub write_offset: usize,
    pub state: FilePairState,
}

impl FilePairProgress {
    /// Offsets within the buffer, written part before the read part's end.
    pub open spec fn wf(&self) -> bool {
        self.write_offset <= self.read_offset <= BUF_SIZE
    }

    /// A pair that has not read yet.
    pub open spec fn new_spec() -> FilePairProgress {
        FilePairProgress { read_offset: 0, write_offset: 0, state: FilePairState::Read }
    }

    /// A pair that starts by reading.
    pub fn new() -> (r: FilePairProgress)
        ensures
            r == FilePairProgress::new_spec(),
            r.wf(),
    {
        FilePairProgress { read_offset: 0, write_offset: 0, state: FilePairState::Read }
    }

    /// The part of the buffer that is to be written next.
    pub fn pending(&self) -> (r: (usize, usize))
        requires
            self.wf(),
        ensures
            r == (self.write_offset, self.read_offset),
    {
        (self.write_offset, self.read_offset)
    }

    /// `read` bytes were read into the empty buffer; they are to be written
    /// next.
    pub fn read_done(&mut self, read: usize)
        requires
            read <= BUF_SIZE,
        ensures
            *final(self) == (FilePairProgress { read_offset: read, ..*old(self) }),
    {
        self.read_offset = read;
    }

    /// `written` more bytes of the pending part were written: when the
    /// whole buffer is out, it is empty and the pair reads again, else it
    /// waits to write the rest.
    pub fn write_done(&mut self, written: usize)
        requires
            old(self).wf(),
            written <= old(self).read_offset - old(self).write_offset,
        ensures
            final(self).wf(),
            old(self).write_offset + written >= old(self).read_offset ==> *final(self) == (FilePairProgress {
                read_offset: 0,
                write_offset: 0,
                state: FilePairState::Read,
            }),
            old(self).write_offset + written < old(self).read_offset ==> *final(self) == (FilePairProgress {
                read_offset: old(self).read_offset,
                write_offset: (old(self).write_offset + written) as usize,
                state: FilePairState::Write,
            }),
    {
        self.write_offset = self.write_offset + written;
        if self.write_offset >= self.read_offset {
            self.read_offset = 0;
            self.write_offset = 0;
            self.state = FilePairState::Read;
        } else {
            self.state = FilePairState::Write;
        }
    }
}

/// One pair of files being copied: its progress, its buffer, and every byte
/// read from the source and written to the target so far.  The caller waits
/// until the file that `wait_for` names is ready, then reads into the pair
/// or writes out what `to_write` gives, and reports what happened.
pub struct FilePair {
    progress: FilePairProgress,
    buf: Vec<u8>,
    read_bytes: Ghost<Seq<u8>>,
    written_bytes: Ghost<Seq<u8>>,
}

impl FilePair {
    /// The offsets and the state of the pair.
    pub closed spec fn progress_spec(&self) -> FilePairProgress {
        self.progress
    }

    /// Every byte read from the source so far.
    pub closed spec fn read_spec(&self) -> Seq<u8> {
        self.read_bytes@
    }

    /// Every byte written to the target so far.
    pub closed spec fn written_spec(&self) -> Seq<u8> {
        self.written_bytes@
    }

    /// The bytes read and not yet written.
    pub closed spec fn pending_spec(&self) -> Seq<u8> {
        self.buf@.subrange(self.progress.write_offset as int, self.progress.read_offset as int)
    }

    /// What was written and what is pending make up what was read; an empty
    /// buffer starts at its beginning.
    pub closed spec fn wf(&self) -> bool {
        &&& self.progress.wf()
        &&& self.buf@.len() == BUF_SIZE
        &&& self.progress.write_offset == self.progress.read_offset ==> self.progress.read_offset == 0
        &&& self.written_bytes@ + self.buf@.subrange(self.progress.write_offset as int, self.progress.read_offset as int)
            == self.read_bytes@
    }

    /// A pair that has copied nothing and starts by reading.
    pub fn new() -> (r: FilePair)
        ensures
            r.progress_spec() == FilePairProgress::new_spec(),
            r.read_spec() == Seq::<u8>::empty(),
            r.written_spec() == Seq::<u8>::empty(),
            r.pending_spec() == Seq::<u8>::empty(),
            r.wf(),
    {
        let buf = vec![8u8; BUF_SIZE];
        let r = FilePair {
            progress: FilePairProgress::new(),
            buf,
            read_bytes: Ghost(Seq::empty()),
            written_bytes: Ghost(Seq::empty()),
        };
        assert(r.buf@.subrange(0, 0) =~= Seq::<u8>::empty());
        r
    }

    /// Which file the pair waits for: its source to read, or its target to
    /// write.
    pub fn wait_for(&self) -> (r: FilePairState)
        requires
            self.wf(),
        ensures
            r == self.progress_spec().state,
    {
        self.progress.state
    }

    /// `data`, just read from the source into the empty buffer, is to be
    /// written next.
    pub fn read_done(&mut self, data: &[u8])
        requires
            old(self).wf(),
            data@.len() <= BUF_SIZE,
            old(self).pending_spec().len() == 0,
        ensures
            final(self).wf(),
            final(self).progress_spec() == (FilePairProgress {
                read_offset: data@.len() as usize,
                ..old(self).progress_spec()
            }),
            final(self).read_spec() == old(self).read_spec() + data@,
            final(self).written_spec() == old(self).written_spec(),
            final(self).pending_spec() == data@,
    {
        let ghost written = self.written_bytes@;
        let ghost read = self.read_bytes@;
        assert(self.progress.write_offset == 0);
        let mut buf = Vec::new();
        std::mem::swap(&mut buf, &mut self.buf);
        let mut i: usize = 0;
        while i < data.len()
            invariant
                i <= data@.len(),
                data@.len() <= BUF_SIZE,
                buf@.len() == BUF_SIZE,
                forall|k: int| 0 <= k < i ==> buf@[k] == data@[k],
            decreases data@.len() - i,
        {
            buf.set(i, data[i]);
            i += 1;
        }
        assert(buf@.subrange(0, data@.len() as int) =~= data@);
        assert(written == read);
        let progress = FilePairProgress { read_offset: data.len(), ..self.progress };
        *self = FilePair {
            progress,
            buf,
            read_bytes: Ghost(read + data@),
            written_bytes: Ghost(written),
        };
    }

    /// The bytes that are to be written to the target next.
    pub fn to_write(&self) -> (r: Vec<u8>)
        requires
            self.wf(),
        ensures
            r@ == self.pending_spec(),
    {
        let mut out = Vec::new();
        let mut i = self.progress.write_offset;
        while i < self.progress.read_offset
            invariant
                self.progress.write_offset <= i <= self.progress.read_offset,
                self.progress.read_offset <= self.buf@.len(),
                out@ == self.buf@.subrange(self.progress.write_offset as int, i as int),
            decreases self.progress.read_offset - i,
        {
            out.push(self.buf[i]);
            i += 1;
        }
        out
    }

    /// `written` bytes of what `to_write` gave were written to the target:
    /// they join the written bytes, and the rest stays pending.
    pub fn write_done(&mut self, written: usize)
        requires
            old(self).wf(),
            written <= old(self).pending_spec().len(),
        ensures
            final(self).wf(),
            final(self).written_spec() == old(self).written_spec() + old(self).pending_spec().take(written as int),
            final(self).read_spec() == old(self).read_spec(),
            final(self).pending_spec() == old(self).pending_spec().skip(written as int),
            old(self).progress_spec().write_offset + written >= old(self).progress_spec().read_offset
                ==> final(self).progress_spec() == FilePairProgress::new_spec(),
            old(self).progress_spec().write_offset + written < old(self).progress_spec().read_offset
                ==> final(self).progress_spec() == (FilePairProgress {
                read_offset: old(self).progress_spec().read_offset,
                write_offset: (old(self).progress_spec().write_offset + written) as usize,
                state: FilePairState::Write,
            }),
    {
        let ghost pending = self.pending_spec();
        let ghost written_before = self.written_bytes@;
        let ghost read = self.read_bytes@;
        let mut progress = self.progress;
        progress.write_done(written);
        let mut buf = Vec::new();
        std::mem::swap(&mut buf, &mut self.buf);
        proof {
            assert(written_before + pending.take(written as int) + pending.skip(written as int) =~= read);
            if progress.read_offset == 0 {
                assert(pending.skip(written as int) =~= Seq::<u8>::empty());
                assert(buf@.subrange(0, 0) =~= Seq::<u8>::empty());
            } else {
                assert(buf@.subrange(progress.write_offset as int, progress.read_offset as int) =~= pending.skip(
                    written as int,
                ));
            }
        }
        *self = FilePair {
            progress,
            buf,
            read_bytes: Ghost(read),
            written_bytes: Ghost(written_before + pending.take(written as int)),
        };
    }
}

/// What a pair wrote to its target is the start of what it read from its
/// source: nothing is lost, reordered or made up, whatever the reads and
/// writes did.
pub proof fn lemma_written_is_prefix(p: FilePair)
    requires
        p.wf(),
    ensures
        p.written_spec().is_prefix_of(p.read_spec()),
        p.written_spec() + p.pending_spec() == p.read_spec(),
{
    assert(p.read_spec().take(p.written_spec().len() as int) =~= p.written_spec());
}

} // verus!
