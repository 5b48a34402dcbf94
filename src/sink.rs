//! Byte sinks: the capability the draw engine writes through, a fixed-capacity
//! in-memory writer, and a buffering writer in front of another sink.
use vstd::prelude::*;

verus! {

/// A failed write.
#[derive(Clone, Copy, Debug, PartialEq, Eq)]
pub enum IoError {
    /// The operating system refused the write, with its error code.
    Errno(usize),
    /// A fixed-capacity buffer has no room for the bytes.
    BufferFull,
}

/// Where output bytes go.
pub trait Write {
    /// Every byte accepted so far, in order, whether or not it has left a
    /// buffer yet.
    spec fn written(&self) -> Seq<u8>;

    /// Whether writing `bytes` from this state, in pieces of any size, and
    /// then flushing, all succeed.
    spec fn accepts(&self, bytes: Seq<u8>) -> bool;

    /// Accepts all of `bytes`, or fails having accepted none of them.
    fn write_all(&mut self, bytes: &[u8]) -> (r: Result<(), IoError>)
        ensures
            r is Ok ==> final(self).written() == old(self).written() + bytes@,
            r is Err ==> final(self).written() == old(self).written(),
            forall|rest: Seq<u8>|
                #![trigger old(self).accepts(bytes@ + rest)]
                old(self).accepts(bytes@ + rest) ==> r is Ok && final(self).accepts(rest),
    ;

    /// Pushes buffered bytes onward; the stream of accepted bytes stays as it is.
    fn flush(&mut self) -> (r: Result<(), IoError>)
        ensures
            final(self).written() == old(self).written(),
            old(self).accepts(Seq::empty()) ==> r is Ok && final(self).accepts(Seq::empty()),
    ;
}

/// An in-memory sink that holds at most `capacity` bytes and refuses more.
pub struct ArrayWriter {
    buf: Vec<u8>,
    capacity: usize,
}

impl ArrayWriter {
    /// The bytes held.
    pub closed spec fn contents(&self) -> Seq<u8> {
        self.buf@
    }

    /// The most bytes it can hold.
    pub closed spec fn capacity_spec(&self) -> nat {
        self.capacity as nat
    }

    pub closed spec fn wf(&self) -> bool {
        self.buf@.len() <= self.capacity
    }

    /// An empty writer that holds at most `capacity` bytes.
    pub fn new(capacity: usize) -> (r: Self)
        ensures
            r.wf(),
            forall|s: Seq<u8>| #[trigger] r.accepts(s) <==> s.len() <= capacity,
            r.contents() == Seq::<u8>::empty(),
            r.capacity_spec() == capacity,
    {
        ArrayWriter { buf: Vec::new(), capacity }
    }

    /// The bytes held.
    pub fn as_slice(&self) -> (r: &[u8])
        ensures
            r@ == self.contents(),
            r@ == self.written(),
    {
        self.buf.as_slice()
    }

    /// Number of bytes held.
    pub fn len(&self) -> (r: usize)
        ensures
            r == self.contents().len(),
    {
        self.buf.len()
    }

    /// Drops every byte held; the capacity stays.
    pub fn clear(&mut self)
        ensures
            final(self).wf(),
            final(self).contents() == Seq::<u8>::empty(),
            final(self).capacity_spec() == old(self).capacity_spec(),
            forall|s: Seq<u8>| #[trigger] final(self).accepts(s) <==> s.len() <= old(self).capacity_spec(),
    {
        self.buf.clear();
    }
}

impl Write for ArrayWriter {
    closed spec fn written(&self) -> Seq<u8> {
        self.buf@
    }

    closed spec fn accepts(&self, bytes: Seq<u8>) -> bool {
        self.buf@.len() + bytes.len() <= self.capacity
    }

    fn write_all(&mut self, bytes: &[u8]) -> (r: Result<(), IoError>)
        ensures
            r is Ok ==> final(self).written() == old(self).written() + bytes@,
            final(self).capacity_spec() == old(self).capacity_spec(),
            old(self).wf() ==> final(self).wf(),
            r is Ok <==> old(self).contents().len() + bytes@.len() <= old(self).capacity_spec(),
            r is Err ==> r == Err::<(), IoError>(IoError::BufferFull) && final(self).contents()
                == old(self).contents(),
            r is Err ==> final(self).written() == old(self).written(),
            forall|rest: Seq<u8>|
                #![trigger old(self).accepts(bytes@ + rest)]
                old(self).accepts(bytes@ + rest) ==> r is Ok && final(self).accepts(rest),
    {
        if bytes.len() > self.capacity || self.buf.len() > self.capacity - bytes.len() {
            return Err(IoError::BufferFull);
        }
        let mut i: usize = 0;
        while i < bytes.len()
            invariant
                0 <= i <= bytes@.len(),
                self.buf@ == old(self).buf@ + bytes@.subrange(0, i as int),
                self.capacity == old(self).capacity,
            decreases bytes@.len() - i,
        {
            self.buf.push(bytes[i]);
            proof {
                assert(bytes@.subrange(0, i as int + 1) =~= bytes@.subrange(0, i as int).push(
                    bytes@[i as int],
                ));
            }
            i = i + 1;
        }
        assert(bytes@.subrange(0, i as int) =~= bytes@);
        Ok(())
    }

    fn flush(&mut self) -> (r: Result<(), IoError>)
        ensures
            final(self).written() == old(self).written(),
            old(self).accepts(Seq::empty()) ==> r is Ok && final(self).accepts(Seq::empty()),
            r is Ok,
            *final(self) == *old(self),
    {
        Ok(())
    }
}

/// A sink that gathers bytes in a fixed-capacity buffer and hands them to
/// `inner` only when the buffer would overflow or on `flush`, so that a frame
/// reaches the terminal in one piece.
pub struct BufWriter<W: Write> {
    inner: W,
    buf: Vec<u8>,
    capacity: usize,
}

impl<W: Write> BufWriter<W> {
    /// The sink behind the buffer.
    pub closed spec fn inner_spec(&self) -> W {
        self.inner
    }

    /// Bytes accepted but not yet handed to the inner sink.
    pub closed spec fn pending(&self) -> Seq<u8> {
        self.buf@
    }

    /// The size of the buffer.
    pub closed spec fn capacity_spec(&self) -> nat {
        self.capacity as nat
    }

    pub closed spec fn wf(&self) -> bool {
        self.buf@.len() <= self.capacity
    }

    /// An empty buffer of `capacity` bytes in front of `inner`.
    pub fn new(inner: W, capacity: usize) -> (r: Self)
        ensures
            r.wf(),
            r.inner_spec() == inner,
            r.pending() == Seq::<u8>::empty(),
            r.capacity_spec() == capacity,
            r.written() == inner.written(),
    {
        let r = BufWriter { inner, buf: Vec::new(), capacity };
        assert(r.written() =~= inner.written());
        r
    }

    /// The sink behind the buffer.
    pub fn get_ref(&self) -> (r: &W)
        ensures
            *r == self.inner_spec(),
    {
        &self.inner
    }

    /// Hands the buffered bytes to the inner sink and empties the buffer.
    fn flush_buffer(&mut self) -> (r: Result<(), IoError>)
        requires
            old(self).wf(),
        ensures
            final(self).wf(),
            final(self).capacity_spec() == old(self).capacity_spec(),
            r is Ok ==> final(self).pending() == Seq::<u8>::empty(),
            final(self).written() == old(self).written(),
            r is Err ==> final(self).pending() == old(self).pending(),
            forall|s: Seq<u8>|
                #![trigger old(self).accepts(s)]
                old(self).accepts(s) ==> r is Ok && final(self).accepts(s),
    {
        if self.buf.len() == 0 {
            assert(self.written() =~= self.inner.written());
            return Ok(());
        }
        let r = self.inner.write_all(self.buf.as_slice());
        match r {
            Ok(()) => {
                self.buf.clear();
                assert(self.written() =~= old(self).written());
                assert forall|s: Seq<u8>| #[trigger] old(self).accepts(s) implies self.accepts(s) by {
                    assert(Seq::<u8>::empty() + s =~= s);
                }
                Ok(())
            },
            Err(e) => Err(e),
        }
    }
}

impl<W: Write> Write for BufWriter<W> {
    closed spec fn written(&self) -> Seq<u8> {
        self.inner.written() + self.buf@
    }

    /// The bytes fit in the buffer, and the inner sink accepts them together
    /// with what the buffer holds already.
    closed spec fn accepts(&self, bytes: Seq<u8>) -> bool {
        &&& self.buf@.len() + bytes.len() <= self.capacity
        &&& self.inner.accepts(self.buf@ + bytes)
    }

    fn write_all(&mut self, bytes: &[u8]) -> (r: Result<(), IoError>)
        ensures
            r is Ok ==> final(self).written() == old(self).written() + bytes@,
            r is Err ==> final(self).written() == old(self).written(),
            forall|rest: Seq<u8>|
                #![trigger old(self).accepts(bytes@ + rest)]
                old(self).accepts(bytes@ + rest) ==> r is Ok && final(self).accepts(rest),
            old(self).wf() ==> final(self).wf(),
            final(self).capacity_spec() == old(self).capacity_spec(),
            old(self).pending().len() > old(self).capacity_spec() ==> r == Err::<(), IoError>(
                IoError::BufferFull,
            ),
            old(self).wf() && old(self).pending().len() + bytes@.len() <= old(self).capacity_spec()
                ==> r is Ok,
            old(self).wf() && old(self).pending().len() + bytes@.len() <= old(self).capacity_spec()
                ==> final(self).pending() == old(self).pending() + bytes@,
            old(self).wf() && old(self).pending().len() + bytes@.len() <= old(self).capacity_spec()
                ==> final(self).inner_spec() == old(self).inner_spec(),
    {
        if self.buf.len() > self.capacity {
            return Err(IoError::BufferFull);
        }
        if bytes.len() > self.capacity - self.buf.len() {
            let r = self.flush_buffer();
            if r.is_err() {
                return r;
            }
        }
        if bytes.len() > self.capacity {
            let ghost mid = self.written();
            let r = self.inner.write_all(bytes);
            proof {
                if r is Ok {
                    assert(self.written() =~= old(self).written() + bytes@);
                } else {
                    assert(self.written() =~= mid);
                }
            }
            return r;
        }
        let ghost start = self.written();
        let ghost inner = self.inner;
        let ghost before_loop = self.buf@;
        let mut i: usize = 0;
        while i < bytes.len()
            invariant
                0 <= i <= bytes@.len(),
                self.buf@.len() + bytes@.len() - i <= self.capacity,
                self.written() == start + bytes@.subrange(0, i as int),
                self.capacity == old(self).capacity,
                self.inner == inner,
                self.buf@ == before_loop + bytes@.subrange(0, i as int),
            decreases bytes@.len() - i,
        {
            let ghost before = self.buf@;
            self.buf.push(bytes[i]);
            proof {
                assert(self.buf@ == before.push(bytes@[i as int]));
                assert(bytes@.subrange(0, i as int + 1) =~= bytes@.subrange(0, i as int).push(
                    bytes@[i as int],
                ));
                assert(inner.written() + before == start + bytes@.subrange(0, i as int));
                assert(self.written() == inner.written() + self.buf@);
                assert(inner.written() + before.push(bytes@[i as int]) =~= (inner.written()
                    + before).push(bytes@[i as int]));
                assert(self.written() =~= start + bytes@.subrange(0, i as int + 1));
            }
            i = i + 1;
        }
        assert(bytes@.subrange(0, i as int) =~= bytes@);
        proof {
            assert forall|rest: Seq<u8>|
                #![trigger old(self).accepts(bytes@ + rest)]
                old(self).accepts(bytes@ + rest) implies self.accepts(rest) by {
                assert(old(self).buf@ + (bytes@ + rest) =~= self.buf@ + rest);
            }
        }
        Ok(())
    }

    fn flush(&mut self) -> (r: Result<(), IoError>)
        ensures
            final(self).written() == old(self).written(),
            old(self).accepts(Seq::empty()) ==> r is Ok && final(self).accepts(Seq::empty()),
            old(self).pending().len() > old(self).capacity_spec() ==> r == Err::<(), IoError>(
                IoError::BufferFull,
            ),
            old(self).wf() ==> final(self).wf(),
            old(self).wf() && r is Ok ==> final(self).pending() == Seq::<u8>::empty(),
            final(self).capacity_spec() == old(self).capacity_spec(),
    {
        if self.buf.len() > self.capacity {
            return Err(IoError::BufferFull);
        }
        let r = self.flush_buffer();
        if r.is_err() {
            return r;
        }
        let ghost mid = self.written();
        let r = self.inner.flush();
        proof {
            assert(self.written() =~= mid);
            if old(self).accepts(Seq::empty()) {
                assert(Seq::<u8>::empty() + Seq::<u8>::empty() =~= Seq::<u8>::empty());
            }
        }
        r
    }
}

/// What a step that was to write `out` did to a sink, going from `before` to
/// `after`: on success it wrote exactly `out`; on failure it wrote a prefix
/// of `out` and stopped; and it succeeds whenever the sink accepts `out`.
pub open spec fn wrote<W: Write>(before: W, after: W, out: Seq<u8>, ok: bool) -> bool {
    &&& ok ==> after.written() == before.written() + out
    &&& !ok ==> before.written().is_prefix_of(after.written()) && after.written().is_prefix_of(
        before.written() + out,
    )
    &&& forall|rest: Seq<u8>|
        #![trigger before.accepts(out + rest)]
        before.accepts(out + rest) ==> ok && after.accepts(rest)
}

/// Writing nothing.
pub proof fn lemma_wrote_nothing<W: Write>(w: W)
    ensures
        wrote(w, w, Seq::empty(), true),
{
    assert(w.written() + Seq::<u8>::empty() =~= w.written());
    assert forall|rest: Seq<u8>| #[trigger] w.accepts(Seq::<u8>::empty() + rest) implies w.accepts(
        rest,
    ) by {
        assert(Seq::<u8>::empty() + rest =~= rest);
    }
}

/// One successful step followed by another is a step that wrote both.
pub proof fn lemma_wrote_then<W: Write>(a: W, b: W, c: W, o1: Seq<u8>, o2: Seq<u8>, ok: bool)
    requires
        wrote(a, b, o1, true),
        wrote(b, c, o2, ok),
    ensures
        wrote(a, c, o1 + o2, ok),
{
    assert(a.written() + o1 + o2 =~= a.written() + (o1 + o2));
    assert forall|rest: Seq<u8>| #[trigger] a.accepts((o1 + o2) + rest) implies ok && c.accepts(
        rest,
    ) by {
        assert((o1 + o2) + rest =~= o1 + (o2 + rest));
    }
    if !ok {
        let w = c.written();
        assert(a.written().is_prefix_of(w));
    }
}

/// A failed step that was to write `out` is a failed step of anything that
/// `out` begins.
pub proof fn lemma_wrote_failed<W: Write>(a: W, b: W, out: Seq<u8>, total: Seq<u8>)
    requires
        wrote(a, b, out, false),
        out.is_prefix_of(total),
    ensures
        wrote(a, b, total, false),
{
    let x = total.subrange(out.len() as int, total.len() as int);
    assert(total =~= out + x);
    assert forall|rest: Seq<u8>| #[trigger] a.accepts(total + rest) implies false by {
        assert(total + rest =~= out + (x + rest));
    }
    assert((a.written() + out).is_prefix_of(a.written() + total));
}

} // verus!
