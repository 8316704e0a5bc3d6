//! Staged builder for AT command frames.
//!
//! A command is assembled in a caller-supplied byte buffer through a chain
//! of consuming calls: the builder is created for one of the four command
//! kinds, named exactly once, optionally given parameters (for a `Set`
//! command), and finished.  Writes that would not fit are skipped whole, but
//! the cursor still advances by their full length, so a finished chain always
//! knows the exact size the command needs.

use crate::formatter::int_to_bytes;
use crate::formatter::spec_int_bytes;
use vstd::prelude::*;

verus! {

/// The `AT` attention prefix.
pub open spec fn spec_at_prefix() -> Seq<u8> {
    seq![65u8, 84u8]
}

/// The command content with a trailing separator comma dropped, provided the
/// content fitted in the buffer so that its last byte could be examined.
pub open spec fn spec_trimmed(content: Seq<u8>, cap: int) -> Seq<u8> {
    if content.len() > 0 && content.len() <= cap && content.last() == 44u8 {
        content.drop_last()
    } else {
        content
    }
}

/// The full frame a finishing call lays out: the trimmed content followed by
/// the terminator.
pub open spec fn spec_finished(content: Seq<u8>, term: Seq<u8>, cap: int) -> Seq<u8> {
    spec_trimmed(content, cap) + term
}

/// A length as the `usize` cursor reports it: itself, up to the greatest
/// representable value.
pub open spec fn spec_reported_len(n: nat) -> int {
    if n <= usize::MAX {
        n as int
    } else {
        usize::MAX as int
    }
}

/// How one append changes the buffer: a piece that fits in its entirety at
/// position `at` is written there, every other byte keeping its value; a
/// piece that does not fit leaves the buffer untouched altogether.
pub open spec fn spec_append_buf(buf: Seq<u8>, at: int, data: Seq<u8>) -> Seq<u8> {
    if 0 <= at && at + data.len() <= buf.len() {
        buf.subrange(0, at) + data + buf.skip(at + data.len())
    } else {
        buf
    }
}

/// The buffer after a run of appends, each piece laid at the cursor the
/// preceding pieces advanced, whether or not they fitted.
pub open spec fn spec_append_bufs(buf: Seq<u8>, at: int, pieces: Seq<Seq<u8>>) -> Seq<u8>
    decreases pieces.len(),
{
    if pieces.len() == 0 {
        buf
    } else {
        spec_append_bufs(spec_append_buf(buf, at, pieces[0]), at + pieces[0].len(), pieces.drop_first())
    }
}

proof fn lemma_append_one(buf: Seq<u8>, at: int, p0: Seq<u8>)
    ensures
        spec_append_bufs(buf, at, seq![p0]) == spec_append_buf(buf, at, p0),
{
    let b1 = spec_append_buf(buf, at, p0);
    assert(seq![p0][0] == p0);
    assert(spec_append_bufs(buf, at, seq![p0]) == spec_append_bufs(
        b1,
        at + p0.len(),
        seq![p0].drop_first(),
    ));
    assert(seq![p0].drop_first() =~= Seq::<Seq<u8>>::empty());
    assert(spec_append_bufs(b1, at + p0.len(), Seq::<Seq<u8>>::empty()) == b1);
}

proof fn lemma_append_two(buf: Seq<u8>, at: int, p0: Seq<u8>, p1: Seq<u8>)
    ensures
        spec_append_bufs(buf, at, seq![p0, p1]) == spec_append_buf(
            spec_append_buf(buf, at, p0),
            at + p0.len(),
            p1,
        ),
{
    let b1 = spec_append_buf(buf, at, p0);
    assert(seq![p0, p1][0] == p0);
    assert(spec_append_bufs(buf, at, seq![p0, p1]) == spec_append_bufs(
        b1,
        at + p0.len(),
        seq![p0, p1].drop_first(),
    ));
    assert(seq![p0, p1].drop_first() =~= seq![p1]);
    lemma_append_one(b1, at + p0.len(), p1);
}

proof fn lemma_append_four(buf: Seq<u8>, at: int, p0: Seq<u8>, p1: Seq<u8>, p2: Seq<u8>, p3: Seq<u8>)
    ensures
        spec_append_bufs(buf, at, seq![p0, p1, p2, p3]) == spec_append_buf(
            spec_append_buf(
                spec_append_buf(spec_append_buf(buf, at, p0), at + p0.len(), p1),
                at + p0.len() + p1.len(),
                p2,
            ),
            at + p0.len() + p1.len() + p2.len(),
            p3,
        ),
{
    let b1 = spec_append_buf(buf, at, p0);
    let b2 = spec_append_buf(b1, at + p0.len(), p1);
    assert(seq![p0, p1, p2, p3][0] == p0);
    assert(spec_append_bufs(buf, at, seq![p0, p1, p2, p3]) == spec_append_bufs(
        b1,
        at + p0.len(),
        seq![p0, p1, p2, p3].drop_first(),
    ));
    assert(seq![p0, p1, p2, p3].drop_first() =~= seq![p1, p2, p3]);
    assert(seq![p1, p2, p3][0] == p1);
    assert(spec_append_bufs(b1, at + p0.len(), seq![p1, p2, p3]) == spec_append_bufs(
        b2,
        at + p0.len() + p1.len(),
        seq![p1, p2, p3].drop_first(),
    ));
    assert(seq![p1, p2, p3].drop_first() =~= seq![p2, p3]);
    lemma_append_two(b2, at + p0.len() + p1.len(), p2, p3);
}

/// Builder for one AT command frame.
///
/// The `STAGE` marker enforces the legal call order at compile time: a
/// builder is created in an [`Initialized`] stage for its kind, moves to the
/// kind's own stage when named, and only a [`SetCmd`] builder accepts
/// parameters.
#[verifier::reject_recursive_types(STAGE)]
pub struct CommandBuilder<'a, STAGE> {
    /// The caller's buffer, written in place.
    pub buffer: &'a mut [u8],
    /// The cursor: how many bytes the command needs so far, saturating.
    pub index: usize,
    /// The bytes the command laid out so far, fitting or not.
    pub emitted: Ghost<Seq<u8>>,
    /// Carries the stage marker.
    pub phantom: core::marker::PhantomData<STAGE>,
}

impl<'a, STAGE> CommandBuilder<'a, STAGE> {
    /// The bytes the command laid out so far would occupy, whether or not
    /// they all fitted in the buffer.
    pub closed spec fn emitted(&self) -> Seq<u8> {
        self.emitted@
    }

    /// The length of the caller's buffer.
    pub closed spec fn capacity(&self) -> int {
        self.buffer@.len() as int
    }

    /// The caller's buffer as it currently stands.
    pub closed spec fn buf(&self) -> Seq<u8> {
        self.buffer@
    }

    /// While the laid-out bytes fit, the cursor equals their count and the
    /// buffer holds them as its prefix; once they do not, the cursor exceeds
    /// the capacity and reports their count, saturating at `usize::MAX`.
    pub closed spec fn wf(&self) -> bool {
        &&& self.buffer@.len() < usize::MAX
        &&& if self.emitted@.len() <= self.buffer@.len() {
            self.index == self.emitted@.len() && self.buffer@.subrange(0, self.index as int)
                == self.emitted@
        } else {
            self.index as int == spec_reported_len(self.emitted@.len())
        }
    }

    /// Appends `data` when it fits in its entirety; otherwise no byte is
    /// copied.  The cursor advances by the data's full length either way.
    fn try_append_data(self, data: &[u8]) -> (r: Self)
        requires
            self.wf(),
        ensures
            r.wf(),
            r.emitted() == self.emitted() + data@,
            r.capacity() == self.capacity(),
            r.buf() == spec_append_buf(self.buf(), self.emitted().len() as int, data@),
            (*final(r.buffer))@ == (*final(self.buffer))@,
    {
        let CommandBuilder { buffer, mut index, emitted, phantom } = self;
        let ghost new_emitted = emitted@ + data@;
        let ghost b0 = buffer@;
        let ghost idx0 = index as int;
        let data_len = data.len();
        if index <= buffer.len() && data_len <= buffer.len() - index {
            let mut k: usize = 0;
            while k < data_len
                invariant
                    k <= data_len,
                    data_len == data@.len(),
                    index + data_len <= buffer@.len(),
                    buffer@.len() == b0.len(),
                    b0.len() <= usize::MAX,
                    buffer@.subrange(0, index as int) == b0.subrange(0, index as int),
                    buffer@.subrange(index as int, index as int + k) == data@.subrange(
                        0,
                        k as int,
                    ),
                    buffer@.skip(index as int + k) == b0.skip(index as int + k),
                decreases data_len - k,
            {
                let ghost bpre = buffer@;
                buffer[index + k] = data[k];
                proof {
                    assert(buffer@.subrange(0, index as int) =~= b0.subrange(0, index as int));
                    assert forall|t: int|
                        index + k + 1 <= t < b0.len() implies buffer@[t] == b0[t] by {
                        assert(bpre.skip(index as int + k)[t - (index as int + k)] == bpre[t]);
                        assert(b0.skip(index as int + k)[t - (index as int + k)] == b0[t]);
                    }
                    assert(buffer@.skip(index as int + k + 1) =~= b0.skip(index as int + k + 1));
                    assert(buffer@.subrange(index as int, index as int + k + 1) =~= buffer@
                        .subrange(index as int, index as int + k).push(data@[k as int]));
                    assert(data@.subrange(0, k as int + 1) =~= data@.subrange(0, k as int).push(
                        data@[k as int],
                    ));
                }
                k += 1;
            }
            index = index + data_len;
            let r = CommandBuilder { buffer, index, emitted: Ghost(new_emitted), phantom };
            proof {
                assert(emitted@.len() <= b0.len()) by {
                    if emitted@.len() > b0.len() {
                        assert(idx0 == spec_reported_len(emitted@.len()));
                        assert(idx0 > b0.len());
                    }
                }
                assert(b0.subrange(0, idx0) == emitted@);
                assert(data@.subrange(0, data@.len() as int) =~= data@);
                assert(r.buffer@.subrange(idx0, idx0 + data@.len() as int) == data@);
                assert(r.buffer@.subrange(0, idx0) == emitted@);
                assert forall|t: int| 0 <= t < idx0 implies r.buffer@[t] == emitted@[t] by {
                    assert(r.buffer@.subrange(0, idx0)[t] == r.buffer@[t]);
                }
                assert forall|t: int| idx0 <= t < idx0 + data@.len() implies r.buffer@[t]
                    == data@[t - idx0] by {
                    assert(r.buffer@.subrange(idx0, idx0 + data@.len() as int)[t - idx0]
                        == r.buffer@[t]);
                }
                assert(r.buffer@.subrange(0, index as int) =~= emitted@ + data@);
                assert(r.buffer@ =~= spec_append_buf(b0, emitted@.len() as int, data@));
            }
            r
        } else {
            if index <= usize::MAX - data_len {
                index = index + data_len;
            } else {
                index = usize::MAX;
            }
            let r = CommandBuilder { buffer, index, emitted: Ghost(new_emitted), phantom };
            proof {
                assert(emitted@.len() + data@.len() > b0.len()) by {
                    if emitted@.len() <= b0.len() {
                        assert(idx0 == emitted@.len());
                    } else {
                        assert(idx0 > b0.len());
                    }
                }
                assert(r.buffer@ == spec_append_buf(b0, emitted@.len() as int, data@));
            }
            r
        }
    }
}

/// The `AT` prefix as bytes for appending.
fn at_bytes() -> (v: [u8; 2])
    ensures
        v@ == spec_at_prefix(),
{
    let v: [u8; 2] = [65, 84];
    proof {
        assert(v@ =~= spec_at_prefix());
    }
    v
}

/// A single byte as a one-element array for appending.
fn one_byte(b: u8) -> (v: [u8; 1])
    ensures
        v@ == seq![b],
{
    let v: [u8; 1] = [b];
    proof {
        assert(v@ =~= seq![b]);
    }
    v
}

impl<'a> CommandBuilder<'a, Uninitialized> {
    /// Creates a builder for a test command, writing the `AT` prefix when
    /// asked for.
    pub fn create_test(buffer: &'a mut [u8], at_prefix: bool) -> (r: CommandBuilder<
        'a,
        Initialized<Test>,
    >)
        requires
            old(buffer)@.len() < usize::MAX,
        ensures
            r.wf(),
            r.capacity() == old(buffer)@.len(),
            r.emitted() == if at_prefix {
                spec_at_prefix()
            } else {
                Seq::<u8>::empty()
            },
            r.buf() == if at_prefix {
                spec_append_buf(old(buffer)@, 0, spec_at_prefix())
            } else {
                old(buffer)@
            },
            (*final(r.buffer))@ == (*final(buffer))@,
    {
        let builder = CommandBuilder::<'a, Initialized<Test>> {
            buffer,
            index: 0,
            emitted: Ghost(Seq::empty()),
            phantom: core::marker::PhantomData,
        };
        proof {
            assert(builder.buffer@.subrange(0, 0) =~= Seq::<u8>::empty());
        }
        if at_prefix {
            let at = at_bytes();
            let r = builder.try_append_data(at.as_slice());
            proof {
                assert(Seq::<u8>::empty() + spec_at_prefix() =~= spec_at_prefix());
            }
            r
        } else {
            builder
        }
    }

    /// Creates a builder for a query command, writing the `AT` prefix when
    /// asked for.
    pub fn create_query(buffer: &'a mut [u8], at_prefix: bool) -> (r: CommandBuilder<
        'a,
        Initialized<Query>,
    >)
        requires
            old(buffer)@.len() < usize::MAX,
        ensures
            r.wf(),
            r.capacity() == old(buffer)@.len(),
            r.emitted() == if at_prefix {
                spec_at_prefix()
            } else {
                Seq::<u8>::empty()
            },
            r.buf() == if at_prefix {
                spec_append_buf(old(buffer)@, 0, spec_at_prefix())
            } else {
                old(buffer)@
            },
            (*final(r.buffer))@ == (*final(buffer))@,
    {
        let builder = CommandBuilder::<'a, Initialized<Query>> {
            buffer,
            index: 0,
            emitted: Ghost(Seq::empty()),
            phantom: core::marker::PhantomData,
        };
        proof {
            assert(builder.buffer@.subrange(0, 0) =~= Seq::<u8>::empty());
        }
        if at_prefix {
            let at = at_bytes();
            let r = builder.try_append_data(at.as_slice());
            proof {
                assert(Seq::<u8>::empty() + spec_at_prefix() =~= spec_at_prefix());
            }
            r
        } else {
            builder
        }
    }

    /// Creates a builder for a set command, writing the `AT` prefix when
    /// asked for.
    pub fn create_set(buffer: &'a mut [u8], at_prefix: bool) -> (r: CommandBuilder<
        'a,
        Initialized<SetCmd>,
    >)
        requires
            old(buffer)@.len() < usize::MAX,
        ensures
            r.wf(),
            r.capacity() == old(buffer)@.len(),
            r.emitted() == if at_prefix {
                spec_at_prefix()
            } else {
                Seq::<u8>::empty()
            },
            r.buf() == if at_prefix {
                spec_append_buf(old(buffer)@, 0, spec_at_prefix())
            } else {
                old(buffer)@
            },
            (*final(r.buffer))@ == (*final(buffer))@,
    {
        let builder = CommandBuilder::<'a, Initialized<SetCmd>> {
            buffer,
            index: 0,
            emitted: Ghost(Seq::empty()),
            phantom: core::marker::PhantomData,
        };
        proof {
            assert(builder.buffer@.subrange(0, 0) =~= Seq::<u8>::empty());
        }
        if at_prefix {
            let at = at_bytes();
            let r = builder.try_append_data(at.as_slice());
            proof {
                assert(Seq::<u8>::empty() + spec_at_prefix() =~= spec_at_prefix());
            }
            r
        } else {
            builder
        }
    }

    /// Creates a builder for an execute command, writing the `AT` prefix
    /// when asked for.
    pub fn create_execute(buffer: &'a mut [u8], at_prefix: bool) -> (r: CommandBuilder<
        'a,
        Initialized<Execute>,
    >)
        requires
            old(buffer)@.len() < usize::MAX,
        ensures
            r.wf(),
            r.capacity() == old(buffer)@.len(),
            r.emitted() == if at_prefix {
                spec_at_prefix()
            } else {
                Seq::<u8>::empty()
            },
            r.buf() == if at_prefix {
                spec_append_buf(old(buffer)@, 0, spec_at_prefix())
            } else {
                old(buffer)@
            },
            (*final(r.buffer))@ == (*final(buffer))@,
    {
        let builder = CommandBuilder::<'a, Initialized<Execute>> {
            buffer,
            index: 0,
            emitted: Ghost(Seq::empty()),
            phantom: core::marker::PhantomData,
        };
        proof {
            assert(builder.buffer@.subrange(0, 0) =~= Seq::<u8>::empty());
        }
        if at_prefix {
            let at = at_bytes();
            let r = builder.try_append_data(at.as_slice());
            proof {
                assert(Seq::<u8>::empty() + spec_at_prefix() =~= spec_at_prefix());
            }
            r
        } else {
            builder
        }
    }
}

impl<'a, N: Nameable> CommandBuilder<'a, Initialized<N>> {
    /// Sets the name of the command, appending the name and then the
    /// kind-specific suffix.
    pub fn named(self, name: &[u8]) -> (r: CommandBuilder<'a, N>)
        requires
            self.wf(),
        ensures
            r.wf(),
            r.capacity() == self.capacity(),
            r.emitted() == self.emitted() + name@ + N::spec_suffix(),
            r.buf() == spec_append_bufs(
                self.buf(),
                self.emitted().len() as int,
                seq![name@, N::spec_suffix()],
            ),
            (*final(r.buffer))@ == (*final(self.buffer))@,
    {
        let ghost buf0 = self.buf();
        let ghost l0 = self.emitted().len() as int;
        let b = self.try_append_data(name);
        let (suffix, suffix_len) = N::name_suffix();
        let b = b.try_append_data(&suffix[0..suffix_len]);
        proof {
            lemma_append_two(buf0, l0, name@, N::spec_suffix());
        }
        let CommandBuilder { buffer, index, emitted, phantom: _ } = b;
        CommandBuilder { buffer, index, emitted, phantom: core::marker::PhantomData }
    }
}

impl<'a> CommandBuilder<'a, SetCmd> {
    /// Adds an integer parameter followed by a separator comma.
    pub fn with_int_parameter(self, value: i32) -> (r: Self)
        requires
            self.wf(),
        ensures
            r.wf(),
            r.capacity() == self.capacity(),
            r.emitted() == self.emitted() + spec_int_bytes(value as int) + seq![44u8],
            r.buf() == spec_append_bufs(
                self.buf(),
                self.emitted().len() as int,
                seq![spec_int_bytes(value as int), seq![44u8]],
            ),
            (*final(r.buffer))@ == (*final(self.buffer))@,
    {
        let ghost buf0 = self.buf();
        let ghost l0 = self.emitted().len() as int;
        let (bytes, count) = int_to_bytes(value);
        let b = self.try_append_data(&bytes[0..count]);
        let comma = one_byte(44);
        let r = b.try_append_data(comma.as_slice());
        proof {
            lemma_append_two(buf0, l0, spec_int_bytes(value as int), seq![44u8]);
        }
        r
    }

    /// Adds a string parameter between double quotes, followed by a
    /// separator comma.  Quote characters inside the value are not escaped:
    /// the caller must not pass any.
    pub fn with_string_parameter(self, value: &[u8]) -> (r: Self)
        requires
            self.wf(),
        ensures
            r.wf(),
            r.capacity() == self.capacity(),
            r.emitted() == self.emitted() + seq![34u8] + value@ + seq![34u8] + seq![44u8],
            r.buf() == spec_append_bufs(
                self.buf(),
                self.emitted().len() as int,
                seq![seq![34u8], value@, seq![34u8], seq![44u8]],
            ),
            (*final(r.buffer))@ == (*final(self.buffer))@,
    {
        let ghost buf0 = self.buf();
        let ghost l0 = self.emitted().len() as int;
        let quote = one_byte(34);
        let b = self.try_append_data(quote.as_slice());
        let b = b.try_append_data(value);
        let quote2 = one_byte(34);
        let b = b.try_append_data(quote2.as_slice());
        let comma = one_byte(44);
        let r = b.try_append_data(comma.as_slice());
        proof {
            lemma_append_four(buf0, l0, seq![34u8], value@, seq![34u8], seq![44u8]);
        }
        r
    }

    /// Adds an integer parameter, or a bare separator comma for `None`.
    pub fn with_optional_int_parameter(self, value: Option<i32>) -> (r: Self)
        requires
            self.wf(),
        ensures
            r.wf(),
            r.capacity() == self.capacity(),
            r.emitted() == match value {
                None => self.emitted() + seq![44u8],
                Some(v) => self.emitted() + spec_int_bytes(v as int) + seq![44u8],
            },
            r.buf() == match value {
                None => spec_append_buf(self.buf(), self.emitted().len() as int, seq![44u8]),
                Some(v) => spec_append_bufs(
                    self.buf(),
                    self.emitted().len() as int,
                    seq![spec_int_bytes(v as int), seq![44u8]],
                ),
            },
            (*final(r.buffer))@ == (*final(self.buffer))@,
    {
        match value {
            None => self.with_empty_parameter(),
            Some(value) => self.with_int_parameter(value),
        }
    }

    /// Adds a quoted string parameter, or a bare separator comma for `None`.
    pub fn with_optional_string_parameter(self, value: Option<&[u8]>) -> (r: Self)
        requires
            self.wf(),
        ensures
            r.wf(),
            r.capacity() == self.capacity(),
            r.emitted() == match value {
                None => self.emitted() + seq![44u8],
                Some(v) => self.emitted() + seq![34u8] + v@ + seq![34u8] + seq![44u8],
            },
            r.buf() == match value {
                None => spec_append_buf(self.buf(), self.emitted().len() as int, seq![44u8]),
                Some(v) => spec_append_bufs(
                    self.buf(),
                    self.emitted().len() as int,
                    seq![seq![34u8], v@, seq![34u8], seq![44u8]],
                ),
            },
            (*final(r.buffer))@ == (*final(self.buffer))@,
    {
        match value {
            None => self.with_empty_parameter(),
            Some(value) => self.with_string_parameter(value),
        }
    }

    /// Adds a bare separator comma, standing for an omitted optional
    /// parameter.
    pub fn with_empty_parameter(self) -> (r: Self)
        requires
            self.wf(),
        ensures
            r.wf(),
            r.capacity() == self.capacity(),
            r.emitted() == self.emitted() + seq![44u8],
            r.buf() == spec_append_buf(self.buf(), self.emitted().len() as int, seq![44u8]),
            (*final(r.buffer))@ == (*final(self.buffer))@,
    {
        let comma = one_byte(44);
        self.try_append_data(comma.as_slice())
    }

    /// Adds an already formatted parameter verbatim, followed by a separator
    /// comma.
    pub fn with_raw_parameter(self, value: &[u8]) -> (r: Self)
        requires
            self.wf(),
        ensures
            r.wf(),
            r.capacity() == self.capacity(),
            r.emitted() == self.emitted() + value@ + seq![44u8],
            r.buf() == spec_append_bufs(
                self.buf(),
                self.emitted().len() as int,
                seq![value@, seq![44u8]],
            ),
            (*final(r.buffer))@ == (*final(self.buffer))@,
    {
        let ghost buf0 = self.buf();
        let ghost l0 = self.emitted().len() as int;
        let b = self.try_append_data(value);
        let comma = one_byte(44);
        let r = b.try_append_data(comma.as_slice());
        proof {
            lemma_append_two(buf0, l0, value@, seq![44u8]);
        }
        r
    }
}

impl<'a, F: Finishable> CommandBuilder<'a, F> {
    /// Finishes the command with the usual terminator.
    ///
    /// On success the returned slice holds exactly the built command.  When
    /// the buffer was too small, the exact length that would have been
    /// required comes back instead.
    pub fn finish(self) -> (r: Result<&'a [u8], usize>)
        requires
            self.wf(),
        ensures
            ({
                let f = spec_finished(self.emitted(), seq![13u8, 10u8], self.capacity());
                &&& (f.len() <= self.capacity() ==> (r matches Ok(s) && s@ == f))
                &&& (f.len() > self.capacity() ==> (r matches Err(n) && n as int
                    == spec_reported_len(f.len())))
            }),
            (*final(self.buffer))@ == spec_append_buf(
                self.buf(),
                spec_trimmed(self.emitted(), self.capacity()).len() as int,
                seq![13u8, 10u8],
            ),
    {
        let term: [u8; 2] = [13, 10];
        proof {
            assert(term@ =~= seq![13u8, 10u8]);
        }
        self.finish_with(term.as_slice())
    }

    /// Finishes the command with a caller-chosen terminator.
    ///
    /// A trailing separator comma left by the last parameter is dropped
    /// first.  On success the returned slice holds exactly the built
    /// command; when the buffer was too small, the exact length that would
    /// have been required comes back instead.
    pub fn finish_with(self, terminator: &[u8]) -> (r: Result<&'a [u8], usize>)
        requires
            self.wf(),
        ensures
            ({
                let f = spec_finished(self.emitted(), terminator@, self.capacity());
                &&& (f.len() <= self.capacity() ==> (r matches Ok(s) && s@ == f))
                &&& (f.len() > self.capacity() ==> (r matches Err(n) && n as int
                    == spec_reported_len(f.len())))
            }),
            (*final(self.buffer))@ == spec_append_buf(
                self.buf(),
                spec_trimmed(self.emitted(), self.capacity()).len() as int,
                terminator@,
            ),
    {
        let ghost cap = self.capacity();
        let ghost content = self.emitted@;
        let ghost buf0 = self.buf();
        let CommandBuilder { buffer, mut index, emitted: _, phantom } = self;
        if index > 0 && index <= buffer.len() {
            if buffer[index - 1] == 44 {
                index -= 1;
            }
        }
        let ghost trimmed = spec_trimmed(content, cap);
        let b2 = CommandBuilder::<'a, F> { buffer, index, emitted: Ghost(trimmed), phantom };
        proof {
            if content.len() > 0 && content.len() <= cap && content.last() == 44u8 {
                assert(b2.buffer@.subrange(0, index as int) =~= content.drop_last());
            }
            assert(b2.wf());
        }
        let b3 = b2.try_append_data(terminator);
        let CommandBuilder { buffer, index, emitted: _, phantom: _ } = b3;
        proof {
            assert(buffer@ == spec_append_buf(buf0, spec_trimmed(content, cap).len() as int, terminator@));
        }
        if index > buffer.len() {
            Err(index)
        } else {
            let r: &'a [u8] = &buffer[0..index];
            Ok(r)
        }
    }
}

/// Marker for a builder that has not been given a command kind yet.
pub struct Uninitialized;

/// Marker for a created builder that still awaits its command name; `T` is
/// the kind the builder takes once named.
#[verifier::reject_recursive_types(T)]
pub struct Initialized<T>(core::marker::PhantomData<T>);

/// Marker for a builder producing a test command, `AT{name}=?`.
pub struct Test;

/// Marker for a builder producing a query command, `AT{name}?`.
pub struct Query;

/// Marker for a builder producing a set command, `AT{name}={parameters}`.
pub struct SetCmd;

/// Marker for a builder producing an execute command, `AT{name}`.
pub struct Execute;

/// Marks the stages in which a command may be finished.
pub trait Finishable {}

impl Finishable for Test {}

impl Finishable for Query {}

impl Finishable for SetCmd {}

impl Finishable for Execute {}

/// Marks the stages in which a command may be named, and fixes the bytes
/// each kind appends after the name.
pub trait Nameable {
    /// The bytes that follow the command name for this kind.
    spec fn spec_suffix() -> Seq<u8>;

    /// The suffix in a fixed scratch pair, for appending after the name:
    /// the array holds the bytes and the count says how many are in use.
    fn name_suffix() -> (r: ([u8; 2], usize))
        ensures
            r.1 <= 2,
            r.0@.subrange(0, r.1 as int) == Self::spec_suffix(),
    ;
}

impl Nameable for Test {
    open spec fn spec_suffix() -> Seq<u8> {
        seq![61u8, 63u8]
    }

    fn name_suffix() -> (r: ([u8; 2], usize)) {
        let v: [u8; 2] = [61, 63];
        proof {
            assert(v@.subrange(0, 2) =~= seq![61u8, 63u8]);
        }
        (v, 2)
    }
}

impl Nameable for Query {
    open spec fn spec_suffix() -> Seq<u8> {
        seq![63u8]
    }

    fn name_suffix() -> (r: ([u8; 2], usize)) {
        let v: [u8; 2] = [63, 0];
        proof {
            assert(v@.subrange(0, 1) =~= seq![63u8]);
        }
        (v, 1)
    }
}

impl Nameable for SetCmd {
    open spec fn spec_suffix() -> Seq<u8> {
        seq![61u8]
    }

    fn name_suffix() -> (r: ([u8; 2], usize)) {
        let v: [u8; 2] = [61, 0];
        proof {
            assert(v@.subrange(0, 1) =~= seq![61u8]);
        }
        (v, 1)
    }
}

impl Nameable for Execute {
    open spec fn spec_suffix() -> Seq<u8> {
        Seq::empty()
    }

    fn name_suffix() -> (r: ([u8; 2], usize)) {
        let v: [u8; 2] = [0, 0];
        proof {
            assert(v@.subrange(0, 0) =~= Seq::<u8>::empty());
        }
        (v, 0)
    }
}

/// A failed finish reports a size that is exactly enough: with the same
/// content, a buffer of the reported length `r` succeeds and one of `r - 1`
/// fails again.  The guarantee asks that the content either fitted in the
/// original buffer or does not end in a separator comma; when an overflowed
/// content ends in a comma, the report is one byte conservative, because the
/// comma that finishing would have dropped was out of reach.
pub proof fn lemma_required_size_is_exact(content: Seq<u8>, term: Seq<u8>, n: int, r: int)
    requires
        term.len() >= 1,
        0 <= n,
        r == spec_finished(content, term, n).len(),
        r > n,
        content.len() <= n || content.len() == 0 || content.last() != 44u8,
    ensures
        spec_finished(content, term, r).len() <= r,
        spec_finished(content, term, r - 1).len() > r - 1,
{
    if content.len() > 0 && content.last() == 44u8 {
        assert(content.len() <= n);
        assert(r == content.len() - 1 + term.len());
        if term.len() >= 2 {
            assert(content.len() <= r - 1);
        } else {
            assert(spec_trimmed(content, r - 1) == content);
        }
    } else {
        assert(spec_trimmed(content, r) == content);
        assert(spec_trimmed(content, r - 1) == content);
    }
}

} // verus!
