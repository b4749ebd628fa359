//! Column sinks: they pull values from a slicer, convert them and append
//! them to the column buffer.

use vstd::prelude::*;

use crate::column_type::valid_width;
use crate::convert::{conversion_error, convert_decimal, converted, fits};
use crate::error::{Layout, ParquetError, ParquetResult};
use crate::page::ColumnChunkBuffers;
use crate::slicer::{deferred_result, uniform, DataPageSlicer, SlicerModel};

verus! {

/// The error of the first of the `count` values from `from` on that cannot be
/// stored in `width` bytes, or that the page does not hold.
pub open spec fn values_failure(
    values: Seq<Seq<u8>>,
    width: nat,
    from: nat,
    count: nat,
) -> Option<ParquetError>
    decreases count,
{
    if count == 0 {
        None
    } else if from >= values.len() {
        Some(ParquetError::Layout(Layout::ValuesExhausted))
    } else if !fits(values[from as int], width) {
        Some(conversion_error(values[from as int], width))
    } else {
        values_failure(values, width, from + 1, (count - 1) as nat)
    }
}

/// The bytes stored for the `count` values from `from` on.
pub open spec fn values_bytes(values: Seq<Seq<u8>>, width: nat, from: nat, count: nat) -> Seq<u8>
    decreases count,
{
    if count == 0 {
        Seq::empty()
    } else {
        values_bytes(values, width, from, (count - 1) as nat) + converted(
            values[from + count - 1],
            width,
        )
    }
}

/// Whether one of the `count` values from `from` on is marked.
pub open spec fn values_flagged(flags: Seq<bool>, from: nat, count: nat) -> bool {
    exists|j: int| from <= j < from + count && j < flags.len() && flags[j]
}

/// `count` null sentinels.
pub open spec fn nulls(null: Seq<u8>, count: nat) -> Seq<u8>
    decreases count,
{
    if count == 0 {
        Seq::empty()
    } else {
        nulls(null, (count - 1) as nat) + null
    }
}

/// What a sink stands for: the width of its column, the null sentinel, the
/// bytes of the column buffer, and the slicer it pulls from.
pub struct SinkModel {
    pub width: nat,
    pub null: Seq<u8>,
    pub data: Seq<u8>,
    pub source: SlicerModel,
}

impl SinkModel {
    /// Whether the width is one of the six, the sentinel has it, and the
    /// slicer is well formed.
    pub open spec fn wf(self) -> bool {
        &&& valid_width(self.width)
        &&& self.null.len() == self.width
        &&& self.source.wf()
    }

    /// The error of the first of the next `count` values that cannot be
    /// pushed.
    pub open spec fn run_failure(self, count: nat) -> Option<ParquetError> {
        values_failure(self.source.values, self.width, self.source.cursor, count)
    }

    /// The model after the next `count` values were pushed.
    pub open spec fn pushed(self, count: nat) -> SinkModel {
        SinkModel {
            data: self.data + values_bytes(
                self.source.values,
                self.width,
                self.source.cursor,
                count,
            ),
            source: SlicerModel {
                cursor: self.source.cursor + count,
                deferred: self.source.deferred || values_flagged(
                    self.source.flags,
                    self.source.cursor,
                    count,
                ),
                ..self.source
            },
            ..self
        }
    }

    /// The model after `count` nulls were pushed.
    pub open spec fn with_nulls(self, count: nat) -> SinkModel {
        SinkModel { data: self.data + nulls(self.null, count), ..self }
    }

    /// The model after `count` values were passed over.
    pub open spec fn skipped(self, count: nat) -> SinkModel {
        SinkModel { source: self.source.skipped(count), ..self }
    }

    /// Whether `self` is `before` after a push that failed: nothing was
    /// appended, and the values are those of `before`.
    pub open spec fn failed_from(self, before: SinkModel) -> bool {
        &&& self.width == before.width
        &&& self.null == before.null
        &&& self.data == before.data
        &&& self.source.values == before.source.values
        &&& self.source.flags == before.source.flags
    }
}

/// The result of a step that fails with `failure`, if there is one.
pub open spec fn failure_result(failure: Option<ParquetError>) -> ParquetResult<()> {
    match failure {
        Some(e) => Err(e),
        None => Ok(()),
    }
}

/// The result of reserving room for `count` values of `width` bytes behind
/// `len` bytes: a buffer holds `isize::MAX` bytes at most.
pub open spec fn reserve_result(len: nat, width: nat, count: nat) -> ParquetResult<()> {
    if len + count * width > isize::MAX {
        Err(ParquetError::Capacity)
    } else {
        Ok(())
    }
}

/// The operations that a decode driver issues.
pub trait Pushable {
    /// Whether the sink is well formed.
    spec fn wf(&self) -> bool;

    /// What the sink stands for.
    spec fn model(&self) -> SinkModel;

    /// The slicer that the sink pulls from.
    type Slicer: DataPageSlicer;

    /// The buffers that the sink appends to.
    spec fn loan(&self) -> &mut ColumnChunkBuffers;

    /// The slicer that the sink pulls from.
    spec fn slicer_loan(&self) -> &mut Self::Slicer;

    /// A well-formed sink stands for a well-formed model.
    proof fn lemma_wf(&self)
        requires
            self.wf(),
        ensures
            self.model().wf(),
    ;

    /// Makes room for `count` more values.
    fn reserve(&mut self, count: usize) -> (r: ParquetResult<()>)
        requires
            old(self).wf(),
        ensures
            final(self).wf(),
            *final(final(self).loan()) == *final(old(self).loan()),
            *final(final(self).slicer_loan()) == *final(old(self).slicer_loan()),
            final(self).model() == old(self).model(),
            r == reserve_result(
                old(self).model().data.len(),
                old(self).model().width,
                count as nat,
            ),
    ;

    /// Pulls one value, converts it and appends it.
    fn push(&mut self) -> (r: ParquetResult<()>)
        requires
            old(self).wf(),
        ensures
            final(self).wf(),
            *final(final(self).loan()) == *final(old(self).loan()),
            *final(final(self).slicer_loan()) == *final(old(self).slicer_loan()),
            r == failure_result(old(self).model().run_failure(1)),
            r is Ok ==> final(self).model() == old(self).model().pushed(1),
            r is Err ==> final(self).model().failed_from(old(self).model()),
    ;

    /// Pulls `count` values, converts them and appends them, all or none.
    fn push_slice(&mut self, count: usize) -> (r: ParquetResult<()>)
        requires
            old(self).wf(),
        ensures
            final(self).wf(),
            *final(final(self).loan()) == *final(old(self).loan()),
            *final(final(self).slicer_loan()) == *final(old(self).slicer_loan()),
            r == failure_result(old(self).model().run_failure(count as nat)),
            r is Ok ==> final(self).model() == old(self).model().pushed(count as nat),
            r is Err ==> final(self).model().failed_from(old(self).model()),
    ;

    /// Appends the null sentinel.
    fn push_null(&mut self) -> (r: ParquetResult<()>)
        requires
            old(self).wf(),
        ensures
            final(self).wf(),
            *final(final(self).loan()) == *final(old(self).loan()),
            *final(final(self).slicer_loan()) == *final(old(self).slicer_loan()),
            r is Ok,
            final(self).model() == old(self).model().with_nulls(1),
    ;

    /// Appends `count` null sentinels.
    fn push_nulls(&mut self, count: usize) -> (r: ParquetResult<()>)
        requires
            old(self).wf(),
        ensures
            final(self).wf(),
            *final(final(self).loan()) == *final(old(self).loan()),
            *final(final(self).slicer_loan()) == *final(old(self).slicer_loan()),
            r is Ok,
            final(self).model() == old(self).model().with_nulls(count as nat),
    ;

    /// Passes over `count` values of the slicer, or over those that are left
    /// if they are fewer.
    fn skip(&mut self, count: usize)
        requires
            old(self).wf(),
        ensures
            final(self).wf(),
            *final(final(self).loan()) == *final(old(self).loan()),
            *final(final(self).slicer_loan()) == *final(old(self).slicer_loan()),
            final(self).model() == old(self).model().skipped(count as nat),
    ;

    /// The error that the slicer has held back.
    fn result(&self) -> (r: ParquetResult<()>)
        requires
            self.wf(),
        ensures
            r == deferred_result(self.model().source.deferred),
    ;
}

/// How a sink converts a value.
#[derive(Clone, Copy, Debug, PartialEq, Eq, Structural)]
pub(crate) enum Conversion {
    /// The source has the width of the target, of eight bytes at most: its
    /// bytes are reversed.
    Reverse,
    /// The source has the width of the target, of sixteen bytes or more: the
    /// bytes of each eight-byte word are reversed.
    WordSwap,
    /// The source has any width: it is sign-extended or narrowed.
    SignExtend,
}

/// Whether the values of a slicer can be converted in the way `kind`.
pub(crate) open spec fn convertible(kind: Conversion, values: Seq<Seq<u8>>, width: nat) -> bool {
    match kind {
        Conversion::Reverse => width <= 8 && uniform(values, width),
        Conversion::WordSwap => width > 8 && uniform(values, width),
        Conversion::SignExtend => true,
    }
}

/// Appends the `N` bytes of `src` in reverse order.
pub fn reverse_bytes<const N: usize>(src: &[u8], dest: &mut Vec<u8>)
    requires
        valid_width(N as nat),
        N <= 8,
        src@.len() == N,
    ensures
        final(dest)@ == old(dest)@ + converted(src@, N as nat),
        fits(src@, N as nat),
{
    let ghost base = dest@;
    let ghost want = converted(src@, N as nat);
    let mut i: usize = 0;
    while i < N
        invariant
            i <= N,
            N <= 8,
            src@.len() == N,
            want == converted(src@, N as nat),
            dest@ == base + want.subrange(0, i as int),
        decreases N - i,
    {
        dest.push(src[N - 1 - i]);
        i += 1;
        assert(want.subrange(0, i as int) == want.subrange(0, i - 1).push(want[i - 1]));
    }
    assert(want.subrange(0, N as int) == want);
}

/// Appends the `N` bytes of `src`, the bytes of each eight-byte word in
/// reverse order.
pub fn swap_words<const N: usize>(src: &[u8], dest: &mut Vec<u8>)
    requires
        valid_width(N as nat),
        N > 8,
        src@.len() == N,
    ensures
        final(dest)@ == old(dest)@ + converted(src@, N as nat),
        fits(src@, N as nat),
{
    let ghost base = dest@;
    let ghost want = converted(src@, N as nat);
    let words: usize = N / 8;
    let mut w: usize = 0;
    while w < words
        invariant
            w <= words,
            words * 8 == N,
            N > 8,
            src@.len() == N,
            want == converted(src@, N as nat),
            dest@ == base + want.subrange(0, w * 8),
        decreases words - w,
    {
        let mut i: usize = 0;
        while i < 8
            invariant
                i <= 8,
                w < words,
                words * 8 == N,
                N > 8,
                src@.len() == N,
                want == converted(src@, N as nat),
                dest@ == base + want.subrange(0, w * 8 + i),
            decreases 8 - i,
        {
            dest.push(src[w * 8 + 7 - i]);
            i += 1;
            assert(want.subrange(0, w * 8 + i) == want.subrange(0, w * 8 + i - 1).push(
                want[w * 8 + i - 1],
            ));
        }
        w += 1;
    }
    assert(want.subrange(0, N as int) == want);
}

/// Appends what the target stores for `src`, in the way `kind`.
pub(crate) fn append_value<const N: usize>(kind: Conversion, src: &[u8], dest: &mut Vec<u8>) -> (r:
    ParquetResult<()>)
    requires
        valid_width(N as nat),
        kind != Conversion::SignExtend ==> src@.len() == N,
        kind == Conversion::Reverse ==> N <= 8,
        kind == Conversion::WordSwap ==> N > 8,
    ensures
        r is Ok <==> fits(src@, N as nat),
        r is Ok ==> final(dest)@ == old(dest)@ + converted(src@, N as nat),
        r is Err ==> final(dest)@ == old(dest)@ && r == Err::<(), ParquetError>(
            conversion_error(src@, N as nat),
        ),
{
    match kind {
        Conversion::Reverse => {
            reverse_bytes::<N>(src, dest);
            Ok(())
        },
        Conversion::WordSwap => {
            swap_words::<N>(src, dest);
            Ok(())
        },
        Conversion::SignExtend => convert_decimal::<N>(src, dest),
    }
}

/// Pulls `count` values from `slicer` and appends what the target stores for
/// them, all or none.
pub(crate) fn push_values<const N: usize, T: DataPageSlicer>(
    kind: Conversion,
    slicer: &mut T,
    data: &mut Vec<u8>,
    count: usize,
) -> (r: ParquetResult<()>)
    requires
        old(slicer).wf(),
        valid_width(N as nat),
        convertible(kind, old(slicer).model().values, N as nat),
    ensures
        final(slicer).wf(),
        final(slicer).model().values == old(slicer).model().values,
        final(slicer).model().flags == old(slicer).model().flags,
        r == failure_result(
            values_failure(
                old(slicer).model().values,
                N as nat,
                old(slicer).model().cursor,
                count as nat,
            ),
        ),
        r is Ok ==> final(data)@ == old(data)@ + values_bytes(
            old(slicer).model().values,
            N as nat,
            old(slicer).model().cursor,
            count as nat,
        ),
        r is Ok ==> final(slicer).model().cursor == old(slicer).model().cursor + count,
        r is Ok ==> final(slicer).model().deferred == (old(slicer).model().deferred
            || values_flagged(old(slicer).model().flags, old(slicer).model().cursor, count as nat)),
        r is Err ==> final(data)@ == old(data)@,
{
    let base: usize = data.len();
    let ghost before = slicer.model();
    let ghost values = before.values;
    let mut c: usize = 0;
    proof {
        slicer.lemma_wf();
    }
    while c < count
        invariant
            c <= count,
            slicer.wf(),
            valid_width(N as nat),
            convertible(kind, values, N as nat),
            before.wf(),
            before == old(slicer).model(),
            values == before.values,
            slicer.model().values == values,
            slicer.model().flags == before.flags,
            slicer.model().cursor == before.cursor + c,
            slicer.model().deferred == (before.deferred || values_flagged(
                before.flags,
                before.cursor,
                c as nat,
            )),
            base == old(data)@.len(),
            data@ == old(data)@ + values_bytes(values, N as nat, before.cursor, c as nat),
            values_failure(values, N as nat, before.cursor, count as nat) == values_failure(
                values,
                N as nat,
                before.cursor + c as nat,
                (count - c) as nat,
            ),
        decreases count - c,
    {
        if !slicer.has_next() {
            data.truncate(base);
            assert(data@ == old(data)@);
            return Err(ParquetError::Layout(Layout::ValuesExhausted));
        }
        let ghost at = slicer.model().cursor;
        let src = slicer.next();
        match append_value::<N>(kind, src, data) {
            Err(e) => {
                data.truncate(base);
                assert(data@ == old(data)@);
                return Err(e);
            },
            Ok(()) => {},
        }
        proof {
            slicer.lemma_wf();
            let next: nat = (c + 1) as nat;
            assert(values_flagged(before.flags, before.cursor, next) == (values_flagged(
                before.flags,
                before.cursor,
                c as nat,
            ) || before.flags[at as int])) by {
                if values_flagged(before.flags, before.cursor, next) {
                    let j = choose|j: int|
                        before.cursor <= j < before.cursor + next && j < before.flags.len()
                            && before.flags[j];
                    if j < before.cursor + c {
                        assert(values_flagged(before.flags, before.cursor, c as nat));
                    }
                }
                if before.flags[at as int] {
                    assert(before.cursor <= at < before.cursor + next && at < before.flags.len()
                        && before.flags[at as int]);
                }
            }
        }
        c += 1;
    }
    Ok(())
}

/// Appends `count` times the bytes of `null`.
pub(crate) fn append_nulls(null: &[u8], data: &mut Vec<u8>, count: usize)
    ensures
        final(data)@ == old(data)@ + nulls(null@, count as nat),
{
    let n: usize = null.len();
    let mut c: usize = 0;
    while c < count
        invariant
            c <= count,
            n == null@.len(),
            data@ == old(data)@ + nulls(null@, c as nat),
        decreases count - c,
    {
        let ghost start = data@;
        let mut i: usize = 0;
        while i < n
            invariant
                i <= n,
                n == null@.len(),
                data@ == start + null@.subrange(0, i as int),
            decreases n - i,
        {
            data.push(null[i]);
            i += 1;
            assert(null@.subrange(0, i as int) == null@.subrange(0, i - 1).push(null@[i - 1]));
        }
        assert(null@.subrange(0, n as int) == null@);
        c += 1;
    }
}

/// Makes room in `data` for `count` more values of `N` bytes, where the
/// buffer may grow that far.
pub(crate) fn reserve_values<const N: usize>(data: &mut Vec<u8>, count: usize) -> (r: ParquetResult<
    (),
>)
    ensures
        final(data)@ == old(data)@,
        r == reserve_result(old(data)@.len(), N as nat, count as nat),
{
    let len: usize = data.len();
    if len > isize::MAX as usize {
        assert(count * N >= 0) by (nonlinear_arith);
        return Err(ParquetError::Capacity);
    }
    let room: usize = isize::MAX as usize - len;
    if N > 0 && count > room / N {
        proof {
            assert(count * N > room) by (nonlinear_arith)
                requires
                    count > room / N,
                    N > 0,
            ;
        }
        return Err(ParquetError::Capacity);
    }
    proof {
        if N > 0 {
            assert(count * N <= room) by (nonlinear_arith)
                requires
                    count <= room / N,
                    N > 0,
            ;
        } else {
            assert(count * N == 0) by (nonlinear_arith)
                requires
                    N == 0,
            ;
        }
    }
    data.reserve(count * N);
    Ok(())
}

/// Sink for byte arrays, whose length varies from value to value: each value
/// goes through the full conversion.
pub struct ByteArrayDecimalColumnSink<'a, const N: usize, T: DataPageSlicer> {
    pub slicer: &'a mut T,
    pub buffers: &'a mut ColumnChunkBuffers,
    pub null_value: [u8; N],
}

impl<'a, const N: usize, T: DataPageSlicer> ByteArrayDecimalColumnSink<'a, N, T> {
    /// A sink of width `N` that pulls from `slicer` and appends to `buffers`.
    pub fn new(slicer: &'a mut T, buffers: &'a mut ColumnChunkBuffers, null_value: [u8; N]) -> (s:
        Self)
        requires
            old(slicer).wf(),
            valid_width(N as nat),
        ensures
            s.wf(),
            s.model() == (SinkModel {
                width: N as nat,
                null: null_value@,
                data: old(buffers).data_vec@,
                source: old(slicer).model(),
            }),
            *final(s.loan()) == *final(buffers),
            *final(s.slicer_loan()) == *final(slicer),
    {
        proof {
            slicer.lemma_wf();
        }
        ByteArrayDecimalColumnSink { slicer, buffers, null_value }
    }

    /// Appends to `dest` the `N` bytes that stand for `src`, or fails and
    /// leaves `dest` as it was.
    pub fn convert_decimal(src: &[u8], dest: &mut Vec<u8>) -> (r: ParquetResult<()>)
        requires
            valid_width(N as nat),
        ensures
            r is Ok <==> fits(src@, N as nat),
            r is Ok ==> final(dest)@ == old(dest)@ + converted(src@, N as nat),
            r is Err ==> final(dest)@ == old(dest)@ && r == Err::<(), ParquetError>(
                conversion_error(src@, N as nat),
            ),
    {
        convert_decimal::<N>(src, dest)
    }
}

impl<'a, const N: usize, T: DataPageSlicer> Pushable for ByteArrayDecimalColumnSink<'a, N, T> {
    type Slicer = T;

    open spec fn wf(&self) -> bool {
        &&& self.slicer.wf()
        &&& valid_width(N as nat)
    }

    open spec fn model(&self) -> SinkModel {
        SinkModel {
            width: N as nat,
            null: self.null_value@,
            data: self.buffers.data_vec@,
            source: self.slicer.model(),
        }
    }

    open spec fn loan(&self) -> &mut ColumnChunkBuffers {
        self.buffers
    }

    open spec fn slicer_loan(&self) -> &mut T {
        self.slicer
    }

    proof fn lemma_wf(&self) {
        self.slicer.lemma_wf();
    }

    fn reserve(&mut self, count: usize) -> (r: ParquetResult<()>) {
        reserve_values::<N>(&mut self.buffers.data_vec, count)
    }

    fn push(&mut self) -> (r: ParquetResult<()>) {
        push_values::<N, T>(Conversion::SignExtend, self.slicer, &mut self.buffers.data_vec, 1)
    }

    fn push_slice(&mut self, count: usize) -> (r: ParquetResult<()>) {
        push_values::<N, T>(Conversion::SignExtend, self.slicer, &mut self.buffers.data_vec, count)
    }

    fn push_null(&mut self) -> (r: ParquetResult<()>) {
        append_nulls(self.null_value.as_slice(), &mut self.buffers.data_vec, 1);
        Ok(())
    }

    fn push_nulls(&mut self, count: usize) -> (r: ParquetResult<()>) {
        append_nulls(self.null_value.as_slice(), &mut self.buffers.data_vec, count);
        Ok(())
    }

    fn skip(&mut self, count: usize) {
        self.slicer.skip(count);
    }

    fn result(&self) -> (r: ParquetResult<()>) {
        self.slicer.result()
    }
}

/// Sink for sources that have the width of the target, of eight bytes at
/// most: the bytes of a value are reversed.
pub struct ReverseFixedColumnSink<'a, const N: usize, T: DataPageSlicer> {
    pub slicer: &'a mut T,
    pub buffers: &'a mut ColumnChunkBuffers,
    pub null_value: [u8; N],
}

impl<'a, const N: usize, T: DataPageSlicer> ReverseFixedColumnSink<'a, N, T> {
    /// A sink of width `N` that pulls values of `N` bytes from `slicer` and
    /// appends to `buffers`.
    pub fn new(
        slicer: &'a mut T,
        buffers: &'a mut ColumnChunkBuffers,
        null_value: [u8; N],
    ) -> (s: Self)
        requires
            old(slicer).wf(),
            valid_width(N as nat),
            N <= 8,
            uniform(old(slicer).model().values, N as nat),
        ensures
            s.wf(),
            s.model() == (SinkModel {
                width: N as nat,
                null: null_value@,
                data: old(buffers).data_vec@,
                source: old(slicer).model(),
            }),
            *final(s.loan()) == *final(buffers),
            *final(s.slicer_loan()) == *final(slicer),
    {
        proof {
            slicer.lemma_wf();
        }
        ReverseFixedColumnSink { slicer, buffers, null_value }
    }
}

impl<'a, const N: usize, T: DataPageSlicer> Pushable for ReverseFixedColumnSink<'a, N, T> {
    type Slicer = T;

    open spec fn wf(&self) -> bool {
        &&& self.slicer.wf()
        &&& valid_width(N as nat)
        &&& N <= 8
        &&& uniform(self.slicer.model().values, N as nat)
    }

    open spec fn model(&self) -> SinkModel {
        SinkModel {
            width: N as nat,
            null: self.null_value@,
            data: self.buffers.data_vec@,
            source: self.slicer.model(),
        }
    }

    open spec fn loan(&self) -> &mut ColumnChunkBuffers {
        self.buffers
    }

    open spec fn slicer_loan(&self) -> &mut T {
        self.slicer
    }

    proof fn lemma_wf(&self) {
        self.slicer.lemma_wf();
    }

    fn reserve(&mut self, count: usize) -> (r: ParquetResult<()>) {
        reserve_values::<N>(&mut self.buffers.data_vec, count)
    }

    fn push(&mut self) -> (r: ParquetResult<()>) {
        push_values::<N, T>(Conversion::Reverse, self.slicer, &mut self.buffers.data_vec, 1)
    }

    fn push_slice(&mut self, count: usize) -> (r: ParquetResult<()>) {
        push_values::<N, T>(Conversion::Reverse, self.slicer, &mut self.buffers.data_vec, count)
    }

    fn push_null(&mut self) -> (r: ParquetResult<()>) {
        append_nulls(self.null_value.as_slice(), &mut self.buffers.data_vec, 1);
        Ok(())
    }

    fn push_nulls(&mut self, count: usize) -> (r: ParquetResult<()>) {
        append_nulls(self.null_value.as_slice(), &mut self.buffers.data_vec, count);
        Ok(())
    }

    fn skip(&mut self, count: usize) {
        self.slicer.skip(count);
    }

    fn result(&self) -> (r: ParquetResult<()>) {
        self.slicer.result()
    }
}

/// Sink for sources that have the width of the target, of `W` words of eight
/// bytes: the bytes of each word are reversed, the words keep their order.
pub struct WordSwapDecimalColumnSink<'a, const N: usize, const W: usize, T: DataPageSlicer> {
    pub slicer: &'a mut T,
    pub buffers: &'a mut ColumnChunkBuffers,
    pub null_value: [u8; N],
}

impl<'a, const N: usize, const W: usize, T: DataPageSlicer> WordSwapDecimalColumnSink<'a, N, W, T> {
    /// A sink of width `N` that pulls values of `N` bytes from `slicer` and
    /// appends to `buffers`.
    pub fn new(
        slicer: &'a mut T,
        buffers: &'a mut ColumnChunkBuffers,
        null_value: [u8; N],
    ) -> (s: Self)
        requires
            old(slicer).wf(),
            valid_width(N as nat),
            N == 8 * W,
            N > 8,
            uniform(old(slicer).model().values, N as nat),
        ensures
            s.wf(),
            s.model() == (SinkModel {
                width: N as nat,
                null: null_value@,
                data: old(buffers).data_vec@,
                source: old(slicer).model(),
            }),
            *final(s.loan()) == *final(buffers),
            *final(s.slicer_loan()) == *final(slicer),
    {
        proof {
            slicer.lemma_wf();
        }
        WordSwapDecimalColumnSink { slicer, buffers, null_value }
    }
}

impl<'a, const N: usize, const W: usize, T: DataPageSlicer> Pushable for WordSwapDecimalColumnSink<
    'a,
    N,
    W,
    T,
> {
    type Slicer = T;

    open spec fn wf(&self) -> bool {
        &&& self.slicer.wf()
        &&& valid_width(N as nat)
        &&& N == 8 * W
        &&& N > 8
        &&& uniform(self.slicer.model().values, N as nat)
    }

    open spec fn model(&self) -> SinkModel {
        SinkModel {
            width: N as nat,
            null: self.null_value@,
            data: self.buffers.data_vec@,
            source: self.slicer.model(),
        }
    }

    open spec fn loan(&self) -> &mut ColumnChunkBuffers {
        self.buffers
    }

    open spec fn slicer_loan(&self) -> &mut T {
        self.slicer
    }

    proof fn lemma_wf(&self) {
        self.slicer.lemma_wf();
    }

    fn reserve(&mut self, count: usize) -> (r: ParquetResult<()>) {
        reserve_values::<N>(&mut self.buffers.data_vec, count)
    }

    fn push(&mut self) -> (r: ParquetResult<()>) {
        push_values::<N, T>(Conversion::WordSwap, self.slicer, &mut self.buffers.data_vec, 1)
    }

    fn push_slice(&mut self, count: usize) -> (r: ParquetResult<()>) {
        push_values::<N, T>(Conversion::WordSwap, self.slicer, &mut self.buffers.data_vec, count)
    }

    fn push_null(&mut self) -> (r: ParquetResult<()>) {
        append_nulls(self.null_value.as_slice(), &mut self.buffers.data_vec, 1);
        Ok(())
    }

    fn push_nulls(&mut self, count: usize) -> (r: ParquetResult<()>) {
        append_nulls(self.null_value.as_slice(), &mut self.buffers.data_vec, count);
        Ok(())
    }

    fn skip(&mut self, count: usize) {
        self.slicer.skip(count);
    }

    fn result(&self) -> (r: ParquetResult<()>) {
        self.slicer.result()
    }
}

/// Sink for sources of one width that is not the width of the target: a
/// value is sign-extended where it is shorter and narrowed where it is longer.
pub struct SignExtendDecimalColumnSink<'a, const N: usize, T: DataPageSlicer> {
    pub slicer: &'a mut T,
    pub buffers: &'a mut ColumnChunkBuffers,
    pub null_value: [u8; N],
    pub src_len: usize,
}

impl<'a, const N: usize, T: DataPageSlicer> SignExtendDecimalColumnSink<'a, N, T> {
    /// A sink of width `N` that pulls values of `src_len` bytes from `slicer`
    /// and appends to `buffers`.
    pub fn new(
        slicer: &'a mut T,
        buffers: &'a mut ColumnChunkBuffers,
        null_value: [u8; N],
        src_len: usize,
    ) -> (s: Self)
        requires
            old(slicer).wf(),
            valid_width(N as nat),
            uniform(old(slicer).model().values, src_len as nat),
        ensures
            s.wf(),
            s.src_len == src_len,
            s.model() == (SinkModel {
                width: N as nat,
                null: null_value@,
                data: old(buffers).data_vec@,
                source: old(slicer).model(),
            }),
            *final(s.loan()) == *final(buffers),
            *final(s.slicer_loan()) == *final(slicer),
    {
        proof {
            slicer.lemma_wf();
        }
        SignExtendDecimalColumnSink { slicer, buffers, null_value, src_len }
    }
}

impl<'a, const N: usize, T: DataPageSlicer> Pushable for SignExtendDecimalColumnSink<'a, N, T> {
    type Slicer = T;

    open spec fn wf(&self) -> bool {
        &&& self.slicer.wf()
        &&& valid_width(N as nat)
        &&& uniform(self.slicer.model().values, self.src_len as nat)
    }

    open spec fn model(&self) -> SinkModel {
        SinkModel {
            width: N as nat,
            null: self.null_value@,
            data: self.buffers.data_vec@,
            source: self.slicer.model(),
        }
    }

    open spec fn loan(&self) -> &mut ColumnChunkBuffers {
        self.buffers
    }

    open spec fn slicer_loan(&self) -> &mut T {
        self.slicer
    }

    proof fn lemma_wf(&self) {
        self.slicer.lemma_wf();
    }

    fn reserve(&mut self, count: usize) -> (r: ParquetResult<()>) {
        reserve_values::<N>(&mut self.buffers.data_vec, count)
    }

    fn push(&mut self) -> (r: ParquetResult<()>) {
        push_values::<N, T>(Conversion::SignExtend, self.slicer, &mut self.buffers.data_vec, 1)
    }

    fn push_slice(&mut self, count: usize) -> (r: ParquetResult<()>) {
        push_values::<N, T>(Conversion::SignExtend, self.slicer, &mut self.buffers.data_vec, count)
    }

    fn push_null(&mut self) -> (r: ParquetResult<()>) {
        append_nulls(self.null_value.as_slice(), &mut self.buffers.data_vec, 1);
        Ok(())
    }

    fn push_nulls(&mut self, count: usize) -> (r: ParquetResult<()>) {
        append_nulls(self.null_value.as_slice(), &mut self.buffers.data_vec, count);
        Ok(())
    }

    fn skip(&mut self, count: usize) {
        self.slicer.skip(count);
    }

    fn result(&self) -> (r: ParquetResult<()>) {
        self.slicer.result()
    }
}

} // verus!
