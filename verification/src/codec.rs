//! The checkpoint artifact: a snapshot as bytes.
//!
//! All numbers are little-endian. The artifact holds, in this order:
//!
//! * the matrix: the number of rows and the number of columns, eight bytes
//!   each, then the cells row by row;
//! * the number of records, eight bytes, then the records;
//! * of each record: the frame's sequence number and the number of its
//!   detections, eight bytes each, the detections, then the start and the end
//!   of its row range, four bytes each;
//! * of each detection: one byte that names the form, then the fields. In the
//!   ordered form, byte 0, the seven words follow in the fixed order. In the
//!   tagged form, byte 1, a byte with the number of entries follows, and then
//!   for each entry the position of its field, one byte, and its word.
//!
//! Nothing may follow the last record.

use vstd::prelude::*;
use vstd::bytes::{
    lemma_auto_spec_u32_to_from_le_bytes,
    lemma_auto_spec_u64_to_from_le_bytes,
    spec_u32_from_le_bytes,
    spec_u32_to_le_bytes,
    spec_u64_from_le_bytes,
    spec_u64_to_le_bytes,
    u32_from_le_bytes,
    u32_to_le_bytes,
    u64_from_le_bytes,
    u64_to_le_bytes,
};
use vstd::slice::slice_subrange;
use crate::checkpoints::{entry_views, EntryView, ExtractionStep, KeyframeEntry, SnapshotView};
use crate::detection::{
    lemma_sequence_round_trip,
    lemma_tagged_form,
    lemma_tagged_result,
    lemma_word_signed,
    tagged_result,
    Detection,
    Field,
    FieldError,
    TaggedWord,
    FIELD_COUNT,
};
use crate::matrix::{DescriptorMatrix, MatrixView};

verus! {

/// The two forms in which a detection is written.
#[derive(Clone, Copy, Debug, PartialEq, Eq, Structural)]
pub enum DetectionForm {
    /// The seven words in the fixed order.
    Ordered,
    /// Entries of a field and its word.
    Tagged,
}

/// Why bytes are not an artifact.
#[derive(Clone, Copy, Debug, PartialEq, Eq, Structural)]
pub enum DecodeError {
    /// The bytes end before what they announce.
    Truncated,
    /// Bytes follow the last record.
    TrailingBytes,
    /// A detection names a form that is neither 0 nor 1.
    UnknownForm(u8),
    /// An entry names a field position that is not below seven.
    UnknownField(u8),
    /// The fields of a detection are not each there once.
    Field(FieldError),
    /// The matrix has more rows or columns than this machine can count.
    TooLarge,
}

/// What is read from the front of some bytes, and the bytes that follow it.
pub type Taken<T> = Result<(T, Seq<u8>), DecodeError>;

/// The byte at the front.
pub open spec fn take_byte(b: Seq<u8>) -> Taken<u8> {
    if b.len() < 1 {
        Err(DecodeError::Truncated)
    } else {
        Ok((b[0], b.skip(1)))
    }
}

/// The four-byte word at the front.
pub open spec fn take_word(b: Seq<u8>) -> Taken<u32> {
    if b.len() < 4 {
        Err(DecodeError::Truncated)
    } else {
        Ok((spec_u32_from_le_bytes(b.take(4)), b.skip(4)))
    }
}

/// The eight-byte number at the front.
pub open spec fn take_long(b: Seq<u8>) -> Taken<u64> {
    if b.len() < 8 {
        Err(DecodeError::Truncated)
    } else {
        Ok((spec_u64_from_le_bytes(b.take(8)), b.skip(8)))
    }
}

/// `n` items at the front, each read by `one`.
pub open spec fn take_many<T>(b: Seq<u8>, n: nat, one: spec_fn(Seq<u8>) -> Taken<T>) -> Taken<
    Seq<T>,
>
    decreases n,
{
    if n == 0 {
        Ok((Seq::empty(), b))
    } else {
        match one(b) {
            Err(e) => Err(e),
            Ok((item, rest)) => match take_many(rest, (n - 1) as nat, one) {
                Err(e) => Err(e),
                Ok((items, after)) => Ok((seq![item] + items, after)),
            },
        }
    }
}

/// The items one after the other, each written by `one`.
pub open spec fn put_many<T>(items: Seq<T>, one: spec_fn(T) -> Seq<u8>) -> Seq<u8>
    decreases items.len(),
{
    if items.len() == 0 {
        Seq::empty()
    } else {
        one(items[0]) + put_many(items.drop_first(), one)
    }
}

/// What was read so far, followed by what is read next.
pub open spec fn after<T>(done: Seq<T>, next: Taken<Seq<T>>) -> Taken<Seq<T>> {
    match next {
        Ok((items, rest)) => Ok((done + items, rest)),
        Err(e) => Err(e),
    }
}

/// How a word is written.
pub open spec fn word_writer() -> spec_fn(u32) -> Seq<u8> {
    |w: u32| spec_u32_to_le_bytes(w)
}

/// How a word is read.
pub open spec fn word_reader() -> spec_fn(Seq<u8>) -> Taken<u32> {
    |b: Seq<u8>| take_word(b)
}

/// An entry of the tagged form: the position of the field, then the word.
pub open spec fn put_entry(e: TaggedWord) -> Seq<u8> {
    seq![e.0.spec_index() as u8] + spec_u32_to_le_bytes(e.1)
}

/// The entry at the front.
pub open spec fn take_entry(b: Seq<u8>) -> Taken<TaggedWord> {
    match take_byte(b) {
        Err(e) => Err(e),
        Ok((tag, rest)) => match take_word(rest) {
            Err(e) => Err(e),
            Ok((w, after)) => if tag < FIELD_COUNT {
                Ok(((Field::spec_at(tag as int), w), after))
            } else {
                Err(DecodeError::UnknownField(tag))
            },
        },
    }
}

/// How an entry is written.
pub open spec fn entry_writer() -> spec_fn(TaggedWord) -> Seq<u8> {
    |e: TaggedWord| put_entry(e)
}

/// How an entry is read.
pub open spec fn entry_reader() -> spec_fn(Seq<u8>) -> Taken<TaggedWord> {
    |b: Seq<u8>| take_entry(b)
}

/// A detection in the given form.
pub open spec fn put_detection(d: Detection, form: DetectionForm) -> Seq<u8> {
    match form {
        DetectionForm::Ordered => seq![0u8] + put_many(d.spec_words(), word_writer()),
        DetectionForm::Tagged => seq![1u8, FIELD_COUNT as u8] + put_many(
            d.spec_tagged(),
            entry_writer(),
        ),
    }
}

/// The detection at the front, in whichever form it names.
pub open spec fn take_detection(b: Seq<u8>) -> Taken<Detection> {
    match take_byte(b) {
        Err(e) => Err(e),
        Ok((form, rest)) => if form == 0 {
            match take_many(rest, FIELD_COUNT as nat, word_reader()) {
                Err(e) => Err(e),
                Ok((words, after)) => Ok((Detection::spec_from_words(words), after)),
            }
        } else if form == 1 {
            match take_byte(rest) {
                Err(e) => Err(e),
                Ok((n, body)) => match take_many(body, n as nat, entry_reader()) {
                    Err(e) => Err(e),
                    Ok((entries, after)) => match tagged_result(entries) {
                        Err(e) => Err(DecodeError::Field(e)),
                        Ok(d) => Ok((d, after)),
                    },
                },
            }
        } else {
            Err(DecodeError::UnknownForm(form))
        },
    }
}

/// How a detection is written in the given form.
pub open spec fn detection_writer(form: DetectionForm) -> spec_fn(Detection) -> Seq<u8> {
    |d: Detection| put_detection(d, form)
}

/// How a detection is read.
pub open spec fn detection_reader() -> spec_fn(Seq<u8>) -> Taken<Detection> {
    |b: Seq<u8>| take_detection(b)
}

/// A record, its detections in the given form.
pub open spec fn put_record(e: EntryView, form: DetectionForm) -> Seq<u8> {
    spec_u64_to_le_bytes(e.frame_id) + spec_u64_to_le_bytes(e.keypoints.len() as u64) + put_many(
        e.keypoints,
        detection_writer(form),
    ) + spec_u32_to_le_bytes((e.start as i32) as u32) + spec_u32_to_le_bytes(
        (e.end as i32) as u32,
    )
}

/// The record at the front.
pub open spec fn take_record(b: Seq<u8>) -> Taken<EntryView> {
    match take_long(b) {
        Err(e) => Err(e),
        Ok((frame_id, b1)) => match take_long(b1) {
            Err(e) => Err(e),
            Ok((count, b2)) => match take_many(b2, count as nat, detection_reader()) {
                Err(e) => Err(e),
                Ok((keypoints, b3)) => match take_word(b3) {
                    Err(e) => Err(e),
                    Ok((start, b4)) => match take_word(b4) {
                        Err(e) => Err(e),
                        Ok((end, b5)) => Ok(
                            (
                                EntryView {
                                    frame_id,
                                    keypoints,
                                    start: (start as i32) as int,
                                    end: (end as i32) as int,
                                },
                                b5,
                            ),
                        ),
                    },
                },
            },
        },
    }
}

/// How a record is written.
pub open spec fn record_writer(form: DetectionForm) -> spec_fn(EntryView) -> Seq<u8> {
    |e: EntryView| put_record(e, form)
}

/// How a record is read.
pub open spec fn record_reader() -> spec_fn(Seq<u8>) -> Taken<EntryView> {
    |b: Seq<u8>| take_record(b)
}

/// The first `n` rows one after the other.
pub open spec fn put_rows(rows: Seq<Seq<u8>>, n: int) -> Seq<u8>
    decreases n,
{
    if n <= 0 {
        Seq::empty()
    } else {
        put_rows(rows, n - 1) + rows[n - 1]
    }
}

/// A matrix: its shape, then its cells row by row.
pub open spec fn put_matrix(m: MatrixView) -> Seq<u8> {
    spec_u64_to_le_bytes(m.rows.len() as u64) + spec_u64_to_le_bytes(m.width as u64) + put_rows(
        m.rows,
        m.rows.len() as int,
    )
}

/// The matrix at the front.
pub open spec fn take_matrix(b: Seq<u8>) -> Taken<MatrixView> {
    match take_long(b) {
        Err(e) => Err(e),
        Ok((rows, b1)) => match take_long(b1) {
            Err(e) => Err(e),
            Ok((cols, b2)) => if rows * cols > b2.len() {
                Err(DecodeError::Truncated)
            } else if rows > usize::MAX || cols > usize::MAX {
                Err(DecodeError::TooLarge)
            } else {
                Ok(
                    (
                        MatrixView::row_major(rows as nat, cols as nat, b2.take(rows * cols)),
                        b2.skip(rows * cols),
                    ),
                )
            },
        },
    }
}

/// The artifact of a snapshot, its detections in the given form.
pub open spec fn encoded(v: SnapshotView, form: DetectionForm) -> Seq<u8> {
    put_matrix(v.matrix) + spec_u64_to_le_bytes(v.entries.len() as u64) + put_many(
        v.entries,
        record_writer(form),
    )
}

/// The snapshot that the bytes are the artifact of, or why they are none.
pub open spec fn decoded(b: Seq<u8>) -> Result<SnapshotView, DecodeError> {
    match take_matrix(b) {
        Err(e) => Err(e),
        Ok((matrix, b1)) => match take_long(b1) {
            Err(e) => Err(e),
            Ok((count, b2)) => match take_many(b2, count as nat, record_reader()) {
                Err(e) => Err(e),
                Ok((entries, b3)) => if b3.len() > 0 {
                    Err(DecodeError::TrailingBytes)
                } else {
                    Ok(SnapshotView { matrix, entries })
                },
            },
        },
    }
}

/// A snapshot can be written: its matrix is rectangular, and its sizes and
/// row numbers fit the numbers of the artifact.
pub open spec fn storable(v: SnapshotView) -> bool {
    &&& v.matrix.rectangular()
    &&& v.matrix.rows.len() <= usize::MAX
    &&& v.matrix.width <= usize::MAX
    &&& v.entries.len() <= usize::MAX
    &&& forall|i: int| 0 <= i < v.entries.len() ==> #[trigger] storable_record(v.entries[i])
}

/// A record can be written.
pub open spec fn storable_record(e: EntryView) -> bool {
    &&& e.keypoints.len() <= usize::MAX
    &&& i32::MIN <= e.start <= i32::MAX
    &&& i32::MIN <= e.end <= i32::MAX
}

/// A byte in front of other bytes is read back, and the others follow.
pub proof fn lemma_byte_round_trip(x: u8, tail: Seq<u8>)
    ensures
        take_byte(seq![x] + tail) == Ok::<(u8, Seq<u8>), DecodeError>((x, tail)),
{
    assert((seq![x] + tail).skip(1) =~= tail);
}

/// A word in front of other bytes is read back, and the others follow.
pub proof fn lemma_word_round_trip(x: u32, tail: Seq<u8>)
    ensures
        take_word(spec_u32_to_le_bytes(x) + tail) == Ok::<(u32, Seq<u8>), DecodeError>((x, tail)),
{
    lemma_auto_spec_u32_to_from_le_bytes();
    let b = spec_u32_to_le_bytes(x) + tail;
    assert(b.take(4) =~= spec_u32_to_le_bytes(x));
    assert(b.skip(4) =~= tail);
}

/// An eight-byte number in front of other bytes is read back, and the others
/// follow.
pub proof fn lemma_long_round_trip(x: u64, tail: Seq<u8>)
    ensures
        take_long(spec_u64_to_le_bytes(x) + tail) == Ok::<(u64, Seq<u8>), DecodeError>((x, tail)),
{
    lemma_auto_spec_u64_to_from_le_bytes();
    let b = spec_u64_to_le_bytes(x) + tail;
    assert(b.take(8) =~= spec_u64_to_le_bytes(x));
    assert(b.skip(8) =~= tail);
}

/// `take` reads back what `put` wrote of `item`, whatever follows.
pub open spec fn reads_back<T>(
    take: spec_fn(Seq<u8>) -> Taken<T>,
    put: spec_fn(T) -> Seq<u8>,
    item: T,
) -> bool {
    forall|tail: Seq<u8>| #[trigger] take(put(item) + tail) == Ok::<(T, Seq<u8>), DecodeError>((item, tail))
}

/// Items that are each read back are read back together.
pub proof fn lemma_many_round_trip<T>(
    items: Seq<T>,
    take: spec_fn(Seq<u8>) -> Taken<T>,
    put: spec_fn(T) -> Seq<u8>,
    tail: Seq<u8>,
)
    requires
        forall|i: int| 0 <= i < items.len() ==> reads_back(take, put, #[trigger] items[i]),
    ensures
        take_many(put_many(items, put) + tail, items.len(), take) == Ok::<
            (Seq<T>, Seq<u8>),
            DecodeError,
        >((items, tail)),
    decreases items.len(),
{
    if items.len() == 0 {
        assert(put_many(items, put) + tail =~= tail);
        assert(items =~= Seq::<T>::empty());
    } else {
        let first = items[0];
        let others = items.drop_first();
        let inner = put_many(others, put) + tail;
        assert(put_many(items, put) + tail =~= put(first) + inner);
        assert(reads_back(take, put, items[0]));
        assert(take(put(first) + inner) == Ok::<(T, Seq<u8>), DecodeError>((first, inner)));
        assert forall|i: int| 0 <= i < others.len() implies reads_back(
            take,
            put,
            #[trigger] others[i],
        ) by {
            assert(others[i] == items[i + 1]);
        }
        lemma_many_round_trip(others, take, put, tail);
        assert(seq![first] + others =~= items);
    }
}

/// Writing one more item appends its bytes.
pub proof fn lemma_put_many_push<T>(items: Seq<T>, put: spec_fn(T) -> Seq<u8>, item: T)
    ensures
        put_many(items.push(item), put) == put_many(items, put) + put(item),
    decreases items.len(),
{
    let longer = items.push(item);
    if items.len() == 0 {
        assert(longer.drop_first() =~= Seq::<T>::empty());
        assert(put_many(longer.drop_first(), put) =~= Seq::<u8>::empty());
        assert(put_many(longer, put) =~= put(item));
        assert(put_many(items, put) + put(item) =~= put(item));
    } else {
        assert(longer.drop_first() =~= items.drop_first().push(item));
        lemma_put_many_push(items.drop_first(), put, item);
        assert(longer[0] == items[0]);
        assert(put_many(longer, put) =~= put_many(items, put) + put(item));
    }
}

/// A detection in front of other bytes is read back, in either form, and the
/// others follow.
pub proof fn lemma_detection_round_trip(d: Detection, form: DetectionForm, tail: Seq<u8>)
    ensures
        take_detection(put_detection(d, form) + tail) == Ok::<(Detection, Seq<u8>), DecodeError>(
            (d, tail),
        ),
{
    let b = put_detection(d, form) + tail;
    match form {
        DetectionForm::Ordered => {
            let words = d.spec_words();
            let body = put_many(words, word_writer()) + tail;
            assert(b =~= seq![0u8] + body);
            lemma_byte_round_trip(0u8, body);
            assert forall|i: int| 0 <= i < words.len() implies reads_back(
                word_reader(),
                word_writer(),
                #[trigger] words[i],
            ) by {
                let w = words[i];
                assert forall|t: Seq<u8>| #[trigger]
                    word_reader()(word_writer()(w) + t) == Ok::<(u32, Seq<u8>), DecodeError>(
                        (w, t),
                    ) by {
                    lemma_word_round_trip(w, t);
                }
            }
            lemma_many_round_trip(words, word_reader(), word_writer(), tail);
            lemma_sequence_round_trip(d);
        },
        DetectionForm::Tagged => {
            let entries = d.spec_tagged();
            let body = put_many(entries, entry_writer()) + tail;
            let counted = seq![FIELD_COUNT as u8] + body;
            assert(b =~= seq![1u8] + counted);
            lemma_byte_round_trip(1u8, counted);
            lemma_byte_round_trip(FIELD_COUNT as u8, body);
            assert forall|i: int| 0 <= i < entries.len() implies reads_back(
                entry_reader(),
                entry_writer(),
                #[trigger] entries[i],
            ) by {
                let e = entries[i];
                assert forall|t: Seq<u8>| #[trigger]
                    entry_reader()(entry_writer()(e) + t) == Ok::<(TaggedWord, Seq<u8>), DecodeError>(
                        (e, t),
                    ) by {
                    lemma_entry_round_trip(e, t);
                }
            }
            lemma_many_round_trip(entries, entry_reader(), entry_writer(), tail);
            lemma_tagged_form(d);
            lemma_tagged_result(entries, Ok(d));
        },
    }
}

/// An entry in front of other bytes is read back, and the others follow.
pub proof fn lemma_entry_round_trip(e: TaggedWord, tail: Seq<u8>)
    ensures
        take_entry(put_entry(e) + tail) == Ok::<(TaggedWord, Seq<u8>), DecodeError>((e, tail)),
{
    let tag = e.0.spec_index() as u8;
    let rest = spec_u32_to_le_bytes(e.1) + tail;
    assert(put_entry(e) + tail =~= seq![tag] + rest);
    lemma_byte_round_trip(tag, rest);
    lemma_word_round_trip(e.1, tail);
    assert(Field::spec_at(tag as int) == e.0);
}

/// A record in front of other bytes is read back, and the others follow.
pub proof fn lemma_record_round_trip(e: EntryView, form: DetectionForm, tail: Seq<u8>)
    requires
        storable_record(e),
    ensures
        take_record(put_record(e, form) + tail) == Ok::<(EntryView, Seq<u8>), DecodeError>(
            (e, tail),
        ),
{
    let count = e.keypoints.len() as u64;
    let start = (e.start as i32) as u32;
    let end = (e.end as i32) as u32;
    let b5 = tail;
    let b4 = spec_u32_to_le_bytes(end) + b5;
    let b3 = spec_u32_to_le_bytes(start) + b4;
    let b2 = put_many(e.keypoints, detection_writer(form)) + b3;
    let b1 = spec_u64_to_le_bytes(count) + b2;
    let b0 = spec_u64_to_le_bytes(e.frame_id) + b1;
    assert(put_record(e, form) + tail =~= b0);
    lemma_long_round_trip(e.frame_id, b1);
    lemma_long_round_trip(count, b2);
    assert forall|i: int| 0 <= i < e.keypoints.len() implies reads_back(
        detection_reader(),
        detection_writer(form),
        #[trigger] e.keypoints[i],
    ) by {
        let d = e.keypoints[i];
        assert forall|t: Seq<u8>| #[trigger]
            detection_reader()(detection_writer(form)(d) + t) == Ok::<
                (Detection, Seq<u8>),
                DecodeError,
            >((d, t)) by {
            lemma_detection_round_trip(d, form, t);
        }
    }
    lemma_many_round_trip(e.keypoints, detection_reader(), detection_writer(form), b3);
    lemma_word_round_trip(start, b4);
    lemma_word_round_trip(end, b5);
    lemma_word_signed(e.start as i32);
    lemma_word_signed(e.end as i32);
    let got = take_record(b0);
    assert(got is Ok);
    assert(got->Ok_0.0.keypoints == e.keypoints);
    assert(got->Ok_0.0 == e);
}

/// The first `n` rows of a rectangular matrix take `n` times the width.
pub proof fn lemma_put_rows_len(m: MatrixView, n: int)
    requires
        m.rectangular(),
        0 <= n <= m.rows.len(),
    ensures
        put_rows(m.rows, n).len() == n * m.width,
    decreases n,
{
    if n > 0 {
        lemma_put_rows_len(m, n - 1);
        assert(m.rows[n - 1].len() == m.width);
        assert((n - 1) * m.width + m.width == n * m.width) by (nonlinear_arith);
    } else {
        assert(n * m.width == 0) by (nonlinear_arith)
            requires
                n == 0,
        ;
    }
}

/// Row `r` of a rectangular matrix is found at `r` times the width among the
/// rows written one after the other.
pub proof fn lemma_put_rows_row(m: MatrixView, n: int, r: int)
    requires
        m.rectangular(),
        0 <= r < n <= m.rows.len(),
    ensures
        r * m.width + m.width <= put_rows(m.rows, n).len(),
        put_rows(m.rows, n).subrange(r * m.width, r * m.width + m.width) == m.rows[r],
    decreases n,
{
    lemma_put_rows_len(m, n);
    lemma_put_rows_len(m, n - 1);
    assert(m.rows[n - 1].len() == m.width);
    assert(m.rows[r].len() == m.width);
    let all = put_rows(m.rows, n);
    let front = put_rows(m.rows, n - 1);
    assert((n - 1) * m.width + m.width == n * m.width) by (nonlinear_arith);
    if r == n - 1 {
        assert(all.subrange(r * m.width, r * m.width + m.width) =~= m.rows[r]);
    } else {
        lemma_put_rows_row(m, n - 1, r);
        assert(r * m.width + m.width <= (n - 1) * m.width) by (nonlinear_arith)
            requires
                r + 1 <= n - 1,
                0 <= m.width,
        ;
        assert(all.subrange(r * m.width, r * m.width + m.width) =~= front.subrange(
            r * m.width,
            r * m.width + m.width,
        ));
    }
}

/// A matrix in front of other bytes is read back, and the others follow.
pub proof fn lemma_matrix_round_trip(m: MatrixView, tail: Seq<u8>)
    requires
        m.rectangular(),
        m.rows.len() <= usize::MAX,
        m.width <= usize::MAX,
    ensures
        take_matrix(put_matrix(m) + tail) == Ok::<(MatrixView, Seq<u8>), DecodeError>((m, tail)),
{
    let rows = m.rows.len() as u64;
    let cols = m.width as u64;
    let cells = put_rows(m.rows, m.rows.len() as int);
    let b2 = cells + tail;
    let b1 = spec_u64_to_le_bytes(cols) + b2;
    let b0 = spec_u64_to_le_bytes(rows) + b1;
    assert(put_matrix(m) + tail =~= b0);
    lemma_long_round_trip(rows, b1);
    lemma_long_round_trip(cols, b2);
    lemma_put_rows_len(m, m.rows.len() as int);
    assert(b2.take(rows * cols) =~= cells);
    assert(b2.skip(rows * cols) =~= tail);
    let got = MatrixView::row_major(rows as nat, cols as nat, cells);
    assert forall|r: int| 0 <= r < m.rows.len() implies got.rows[r] == m.rows[r] by {
        lemma_put_rows_row(m, m.rows.len() as int, r);
        assert((r + 1) * m.width == r * m.width + m.width) by (nonlinear_arith);
    }
    assert(got.rows =~= m.rows);
}

/// Reading the artifact of a snapshot gives the snapshot back: the same
/// matrix, the same records, every field of every detection, in either form.
pub proof fn lemma_round_trip(v: SnapshotView, form: DetectionForm)
    requires
        storable(v),
    ensures
        decoded(encoded(v, form)) == Ok::<SnapshotView, DecodeError>(v),
{
    let count = v.entries.len() as u64;
    let b3 = Seq::<u8>::empty();
    let b2 = put_many(v.entries, record_writer(form)) + b3;
    let b1 = spec_u64_to_le_bytes(count) + b2;
    let b0 = put_matrix(v.matrix) + b1;
    assert(encoded(v, form) =~= b0);
    lemma_matrix_round_trip(v.matrix, b1);
    lemma_long_round_trip(count, b2);
    assert forall|i: int| 0 <= i < v.entries.len() implies reads_back(
        record_reader(),
        record_writer(form),
        #[trigger] v.entries[i],
    ) by {
        let e = v.entries[i];
        assert(storable_record(e));
        assert forall|t: Seq<u8>| #[trigger]
            record_reader()(record_writer(form)(e) + t) == Ok::<(EntryView, Seq<u8>), DecodeError>(
                (e, t),
            ) by {
            lemma_record_round_trip(e, form, t);
        }
    }
    lemma_many_round_trip(v.entries, record_reader(), record_writer(form), b3);
}

/// Appends `src` to `out`.
fn push_all(out: &mut Vec<u8>, src: &[u8])
    ensures
        final(out)@ == old(out)@ + src@,
{
    let mut i: usize = 0;
    while i < src.len()
        invariant
            i <= src@.len(),
            out@ == old(out)@ + src@.take(i as int),
        decreases src@.len() - i,
    {
        out.push(src[i]);
        proof {
            src@.lemma_take_succ_push(i as int);
        }
        i += 1;
    }
    assert(src@.take(src@.len() as int) =~= src@);
}

/// Appends a word to `out`.
fn push_word(out: &mut Vec<u8>, w: u32)
    ensures
        final(out)@ == old(out)@ + spec_u32_to_le_bytes(w),
{
    let b = u32_to_le_bytes(w);
    push_all(out, b.as_slice());
}

/// Appends an eight-byte number to `out`.
fn push_long(out: &mut Vec<u8>, x: u64)
    ensures
        final(out)@ == old(out)@ + spec_u64_to_le_bytes(x),
{
    let b = u64_to_le_bytes(x);
    push_all(out, b.as_slice());
}

/// Appends a detection in the given form to `out`.
fn push_detection(out: &mut Vec<u8>, d: &Detection, form: DetectionForm)
    ensures
        final(out)@ == old(out)@ + put_detection(*d, form),
{
    match form {
        DetectionForm::Ordered => {
            out.push(0u8);
            let words = d.to_sequence();
            let ghost head = out@;
            let mut i: usize = 0;
            assert(words@.take(0) =~= Seq::<u32>::empty());
            while i < words.len()
                invariant
                    i <= words@.len(),
                    out@ == head + put_many(words@.take(i as int), word_writer()),
                decreases words@.len() - i,
            {
                push_word(out, words[i]);
                proof {
                    words@.lemma_take_succ_push(i as int);
                    lemma_put_many_push(words@.take(i as int), word_writer(), words@[i as int]);
                }
                i += 1;
            }
            assert(words@.take(words@.len() as int) =~= words@);
            assert(out@ =~= old(out)@ + put_detection(*d, form));
        },
        DetectionForm::Tagged => {
            out.push(1u8);
            out.push(FIELD_COUNT as u8);
            let entries = d.to_tagged();
            let ghost head = out@;
            let mut i: usize = 0;
            assert(entries@.take(0) =~= Seq::<TaggedWord>::empty());
            while i < entries.len()
                invariant
                    i <= entries@.len(),
                    out@ == head + put_many(entries@.take(i as int), entry_writer()),
                decreases entries@.len() - i,
            {
                let (f, w) = entries[i];
                let ghost before = out@;
                out.push(f.index() as u8);
                push_word(out, w);
                proof {
                    assert(out@ =~= before + put_entry((f, w)));
                    entries@.lemma_take_succ_push(i as int);
                    lemma_put_many_push(
                        entries@.take(i as int),
                        entry_writer(),
                        entries@[i as int],
                    );
                }
                i += 1;
            }
            assert(entries@.take(entries@.len() as int) =~= entries@);
            assert(out@ =~= old(out)@ + put_detection(*d, form));
        },
    }
}

/// Appends a record to `out`.
fn push_record(out: &mut Vec<u8>, entry: &KeyframeEntry, form: DetectionForm)
    ensures
        final(out)@ == old(out)@ + put_record(entry@, form),
        storable_record(entry@),
{
    let keypoints = entry.keypoints();
    push_long(out, entry.frame_id());
    push_long(out, keypoints.len() as u64);
    let ghost head = out@;
    let mut i: usize = 0;
    assert(keypoints@.take(0) =~= Seq::<Detection>::empty());
    while i < keypoints.len()
        invariant
            i <= keypoints@.len(),
            out@ == head + put_many(keypoints@.take(i as int), detection_writer(form)),
        decreases keypoints@.len() - i,
    {
        push_detection(out, &keypoints[i], form);
        proof {
            keypoints@.lemma_take_succ_push(i as int);
            lemma_put_many_push(
                keypoints@.take(i as int),
                detection_writer(form),
                keypoints@[i as int],
            );
        }
        i += 1;
    }
    assert(keypoints@.take(keypoints@.len() as int) =~= keypoints@);
    push_word(out, #[verifier::truncate] (entry.descriptors_start() as u32));
    push_word(out, #[verifier::truncate] (entry.descriptors_end() as u32));
    assert(out@ =~= old(out)@ + put_record(entry@, form));
}

/// Appends a matrix to `out`.
fn push_matrix(out: &mut Vec<u8>, matrix: &DescriptorMatrix)
    ensures
        final(out)@ == old(out)@ + put_matrix(matrix@),
        matrix@.rectangular(),
        matrix@.rows.len() <= usize::MAX,
        matrix@.width <= usize::MAX,
{
    let rows: usize = matrix.nrows();
    let cols: usize = matrix.ncols();
    push_long(out, rows as u64);
    push_long(out, cols as u64);
    let ghost head = out@;
    let mut r: usize = 0;
    while r < rows
        invariant
            r <= rows,
            rows == matrix@.rows.len(),
            out@ == head + put_rows(matrix@.rows, r as int),
        decreases rows - r,
    {
        match matrix.row(r) {
            Some(cells) => {
                push_all(out, cells.as_slice());
            },
            None => {
                vstd::pervasive::unreached::<()>();
            },
        }
        r += 1;
    }
    assert(out@ =~= old(out)@ + put_matrix(matrix@));
}

/// Writes the artifact of a snapshot, its detections in the given form.
/// Reading the artifact gives the snapshot back.
pub fn save(step: &ExtractionStep, form: DetectionForm) -> (bytes: Vec<u8>)
    ensures
        bytes@ == encoded(step@, form),
        decoded(bytes@) == Ok::<SnapshotView, DecodeError>(step@),
{
    let mut out: Vec<u8> = Vec::new();
    push_matrix(&mut out, step.descriptors());
    let entries = step.keyframe_entries();
    push_long(&mut out, entries.len() as u64);
    let ghost head = out@;
    let ghost views = entry_views(entries@);
    let mut i: usize = 0;
    assert(views.take(0) =~= Seq::<EntryView>::empty());
    while i < entries.len()
        invariant
            i <= entries@.len(),
            views == entry_views(entries@),
            out@ == head + put_many(views.take(i as int), record_writer(form)),
            forall|j: int| 0 <= j < i ==> #[trigger] storable_record(views[j]),
        decreases entries@.len() - i,
    {
        push_record(&mut out, &entries[i], form);
        proof {
            views.lemma_take_succ_push(i as int);
            lemma_put_many_push(views.take(i as int), record_writer(form), views[i as int]);
        }
        i += 1;
    }
    proof {
        assert(views.take(views.len() as int) =~= views);
        assert(out@ =~= encoded(step@, form));
        lemma_round_trip(step@, form);
    }
    out
}

/// The position after a value, as the bytes from there on.
pub open spec fn taken_at<T>(bytes: Seq<u8>, r: Result<(T, usize), DecodeError>) -> Taken<T> {
    match r {
        Ok((v, p)) => Ok((v, bytes.skip(p as int))),
        Err(e) => Err(e),
    }
}

/// The byte at `pos`.
fn read_byte(bytes: &[u8], pos: usize) -> (r: Result<(u8, usize), DecodeError>)
    requires
        pos <= bytes@.len(),
    ensures
        taken_at(bytes@, r) == take_byte(bytes@.skip(pos as int)),
        r matches Ok((_, p)) ==> pos <= p <= bytes@.len(),
{
    if bytes.len() - pos < 1 {
        return Err(DecodeError::Truncated);
    }
    assert(bytes@.skip(pos as int).skip(1) =~= bytes@.skip(pos + 1));
    Ok((bytes[pos], pos + 1))
}

/// The word at `pos`.
fn read_word(bytes: &[u8], pos: usize) -> (r: Result<(u32, usize), DecodeError>)
    requires
        pos <= bytes@.len(),
    ensures
        taken_at(bytes@, r) == take_word(bytes@.skip(pos as int)),
        r matches Ok((_, p)) ==> pos <= p <= bytes@.len(),
{
    if bytes.len() - pos < 4 {
        return Err(DecodeError::Truncated);
    }
    let w = u32_from_le_bytes(slice_subrange(bytes, pos, pos + 4));
    assert(bytes@.skip(pos as int).take(4) =~= bytes@.subrange(pos as int, pos + 4));
    assert(bytes@.skip(pos as int).skip(4) =~= bytes@.skip(pos + 4));
    Ok((w, pos + 4))
}

/// The eight-byte number at `pos`.
fn read_long(bytes: &[u8], pos: usize) -> (r: Result<(u64, usize), DecodeError>)
    requires
        pos <= bytes@.len(),
    ensures
        taken_at(bytes@, r) == take_long(bytes@.skip(pos as int)),
        r matches Ok((_, p)) ==> pos <= p <= bytes@.len(),
{
    if bytes.len() - pos < 8 {
        return Err(DecodeError::Truncated);
    }
    let x = u64_from_le_bytes(slice_subrange(bytes, pos, pos + 8));
    assert(bytes@.skip(pos as int).take(8) =~= bytes@.subrange(pos as int, pos + 8));
    assert(bytes@.skip(pos as int).skip(8) =~= bytes@.skip(pos + 8));
    Ok((x, pos + 8))
}

/// The entry at `pos`.
fn read_entry(bytes: &[u8], pos: usize) -> (r: Result<(TaggedWord, usize), DecodeError>)
    requires
        pos <= bytes@.len(),
    ensures
        taken_at(bytes@, r) == take_entry(bytes@.skip(pos as int)),
        r matches Ok((_, p)) ==> pos <= p <= bytes@.len(),
{
    let (tag, stop1) = match read_byte(bytes, pos) {
        Ok(v) => v,
        Err(e) => {
            return Err(e);
        },
    };
    let (w, stop2) = match read_word(bytes, stop1) {
        Ok(v) => v,
        Err(e) => {
            return Err(e);
        },
    };
    match Field::at(tag as usize) {
        Some(f) => Ok(((f, w), stop2)),
        None => Err(DecodeError::UnknownField(tag)),
    }
}

/// The detection at `pos`.
#[verifier::loop_isolation(false)]
fn read_detection(bytes: &[u8], pos: usize) -> (r: Result<(Detection, usize), DecodeError>)
    requires
        pos <= bytes@.len(),
    ensures
        taken_at(bytes@, r) == take_detection(bytes@.skip(pos as int)),
        r matches Ok((_, p)) ==> pos <= p <= bytes@.len(),
{
    let (form, stop1) = match read_byte(bytes, pos) {
        Ok(v) => v,
        Err(e) => {
            return Err(e);
        },
    };
    if form == 0 {
        let mut words: Vec<u32> = Vec::new();
        let mut at: usize = stop1;
        let mut i: usize = 0;
        let ghost whole = take_many(bytes@.skip(stop1 as int), FIELD_COUNT as nat, word_reader());
        assert(Seq::<u32>::empty() + Seq::<u32>::empty() =~= Seq::<u32>::empty());
        while i < FIELD_COUNT
            invariant
                i <= FIELD_COUNT,
                stop1 <= at <= bytes@.len(),
                words@.len() == i,
                whole == after(
                    words@,
                    take_many(bytes@.skip(at as int), (FIELD_COUNT - i) as nat, word_reader()),
                ),
            decreases FIELD_COUNT - i,
        {
            let ghost rest = take_many(
                bytes@.skip(at as int),
                (FIELD_COUNT - i - 1) as nat,
                word_reader(),
            );
            match read_word(bytes, at) {
                Ok((w, next)) => {
                    proof {
                        let later = take_many(
                            bytes@.skip(next as int),
                            (FIELD_COUNT - i - 1) as nat,
                            word_reader(),
                        );
                        match later {
                            Ok((items, tail)) => {
                                assert(words@ + (seq![w] + items) =~= words@.push(w) + items);
                            },
                            Err(_) => {},
                        }
                    }
                    words.push(w);
                    at = next;
                },
                Err(e) => {
                    return Err(e);
                },
            }
            i += 1;
        }
        assert(words@ + Seq::<u32>::empty() =~= words@);
        match Detection::from_sequence(words.as_slice()) {
            Ok(d) => Ok((d, at)),
            Err(e) => Err(DecodeError::Field(e)),
        }
    } else if form == 1 {
        let (n, stop2) = match read_byte(bytes, stop1) {
            Ok(v) => v,
            Err(e) => {
                return Err(e);
            },
        };
        let mut entries: Vec<TaggedWord> = Vec::new();
        let mut at: usize = stop2;
        let mut i: u8 = 0;
        let ghost whole = take_many(bytes@.skip(stop2 as int), n as nat, entry_reader());
        assert(Seq::<TaggedWord>::empty() + Seq::<TaggedWord>::empty() =~= Seq::<
            TaggedWord,
        >::empty());
        while i < n
            invariant
                i <= n,
                stop2 <= at <= bytes@.len(),
                whole == after(
                    entries@,
                    take_many(bytes@.skip(at as int), (n - i) as nat, entry_reader()),
                ),
            decreases n - i,
        {
            match read_entry(bytes, at) {
                Ok((e, next)) => {
                    proof {
                        let later = take_many(
                            bytes@.skip(next as int),
                            (n - i - 1) as nat,
                            entry_reader(),
                        );
                        match later {
                            Ok((items, tail)) => {
                                assert(entries@ + (seq![e] + items) =~= entries@.push(e) + items);
                            },
                            Err(_) => {},
                        }
                    }
                    entries.push(e);
                    at = next;
                },
                Err(e) => {
                    return Err(e);
                },
            }
            i += 1;
        }
        assert(entries@ + Seq::<TaggedWord>::empty() =~= entries@);
        let read = Detection::from_tagged(entries.as_slice());
        proof {
            lemma_tagged_result(entries@, read);
        }
        match read {
            Ok(d) => Ok((d, at)),
            Err(e) => Err(DecodeError::Field(e)),
        }
    } else {
        Err(DecodeError::UnknownForm(form))
    }
}

/// The record at `pos`.
#[verifier::loop_isolation(false)]
fn read_record(bytes: &[u8], pos: usize) -> (r: Result<(KeyframeEntry, usize), DecodeError>)
    requires
        pos <= bytes@.len(),
    ensures
        match r {
            Ok((entry, p)) => take_record(bytes@.skip(pos as int)) == Ok::<
                (EntryView, Seq<u8>),
                DecodeError,
            >((entry@, bytes@.skip(p as int))) && pos <= p <= bytes@.len(),
            Err(e) => take_record(bytes@.skip(pos as int)) == Err::<
                (EntryView, Seq<u8>),
                DecodeError,
            >(e),
        },
{
    let (frame_id, stop1) = match read_long(bytes, pos) {
        Ok(v) => v,
        Err(e) => {
            return Err(e);
        },
    };
    let (count, stop2) = match read_long(bytes, stop1) {
        Ok(v) => v,
        Err(e) => {
            return Err(e);
        },
    };
    let mut keypoints: Vec<Detection> = Vec::new();
    let mut at: usize = stop2;
    let mut i: u64 = 0;
    let ghost whole = take_many(bytes@.skip(stop2 as int), count as nat, detection_reader());
    assert(Seq::<Detection>::empty() + Seq::<Detection>::empty() =~= Seq::<Detection>::empty());
    while i < count
        invariant
            i <= count,
            stop2 <= at <= bytes@.len(),
            whole == after(
                keypoints@,
                take_many(bytes@.skip(at as int), (count - i) as nat, detection_reader()),
            ),
        decreases count - i,
    {
        match read_detection(bytes, at) {
            Ok((d, next)) => {
                proof {
                    let later = take_many(
                        bytes@.skip(next as int),
                        (count - i - 1) as nat,
                        detection_reader(),
                    );
                    match later {
                        Ok((items, tail)) => {
                            assert(keypoints@ + (seq![d] + items) =~= keypoints@.push(d) + items);
                        },
                        Err(_) => {},
                    }
                }
                keypoints.push(d);
                at = next;
            },
            Err(e) => {
                return Err(e);
            },
        }
        i += 1;
    }
    assert(keypoints@ + Seq::<Detection>::empty() =~= keypoints@);
    let (start, stop3) = match read_word(bytes, at) {
        Ok(v) => v,
        Err(e) => {
            return Err(e);
        },
    };
    let (end, stop4) = match read_word(bytes, stop3) {
        Ok(v) => v,
        Err(e) => {
            return Err(e);
        },
    };
    let entry = KeyframeEntry::new(
        frame_id,
        keypoints,
        #[verifier::truncate] (start as i32),
        #[verifier::truncate] (end as i32),
    );
    Ok((entry, stop4))
}

/// The matrix at `pos`.
fn read_matrix(bytes: &[u8], pos: usize) -> (r: Result<(DescriptorMatrix, usize), DecodeError>)
    requires
        pos <= bytes@.len(),
    ensures
        match r {
            Ok((matrix, p)) => take_matrix(bytes@.skip(pos as int)) == Ok::<
                (MatrixView, Seq<u8>),
                DecodeError,
            >((matrix@, bytes@.skip(p as int))) && pos <= p <= bytes@.len(),
            Err(e) => take_matrix(bytes@.skip(pos as int)) == Err::<
                (MatrixView, Seq<u8>),
                DecodeError,
            >(e),
        },
{
    let (rows, stop1) = match read_long(bytes, pos) {
        Ok(v) => v,
        Err(e) => {
            return Err(e);
        },
    };
    let (cols, stop2) = match read_long(bytes, stop1) {
        Ok(v) => v,
        Err(e) => {
            return Err(e);
        },
    };
    let left: usize = bytes.len() - stop2;
    assert(bytes@.skip(stop2 as int).len() == left);
    assert(rows * cols <= 0xFFFF_FFFF_FFFF_FFFF * 0xFFFF_FFFF_FFFF_FFFF) by (nonlinear_arith)
        requires
            0 <= rows <= 0xFFFF_FFFF_FFFF_FFFF,
            0 <= cols <= 0xFFFF_FFFF_FFFF_FFFF,
    ;
    let cells: u128 = (rows as u128) * (cols as u128);
    if cells > left as u128 {
        return Err(DecodeError::Truncated);
    }
    if rows > usize::MAX as u64 || cols > usize::MAX as u64 {
        return Err(DecodeError::TooLarge);
    }
    let end: usize = stop2 + cells as usize;
    let body = slice_subrange(bytes, stop2, end);
    assert(bytes@.skip(stop2 as int).take(rows * cols) =~= bytes@.subrange(stop2 as int, end as int));
    assert(bytes@.skip(stop2 as int).skip(rows * cols) =~= bytes@.skip(end as int));
    match DescriptorMatrix::from_row_slice(rows as usize, cols as usize, body) {
        Some(matrix) => Ok((matrix, end)),
        None => vstd::pervasive::unreached(),
    }
}

/// Reads an artifact. The bytes must be exactly one artifact: a matrix, a
/// number of records and that many records, each detection in either form.
#[verifier::loop_isolation(false)]
pub fn load(bytes: &[u8]) -> (r: Result<ExtractionStep, DecodeError>)
    ensures
        match r {
            Ok(step) => decoded(bytes@) == Ok::<SnapshotView, DecodeError>(step@),
            Err(e) => decoded(bytes@) == Err::<SnapshotView, DecodeError>(e),
        },
{
    assert(bytes@.skip(0) =~= bytes@);
    let (matrix, stop1) = match read_matrix(bytes, 0) {
        Ok(v) => v,
        Err(e) => {
            return Err(e);
        },
    };
    let (count, stop2) = match read_long(bytes, stop1) {
        Ok(v) => v,
        Err(e) => {
            return Err(e);
        },
    };
    let mut entries: Vec<KeyframeEntry> = Vec::new();
    let mut at: usize = stop2;
    let mut i: u64 = 0;
    let ghost whole = take_many(bytes@.skip(stop2 as int), count as nat, record_reader());
    assert(entry_views(entries@) =~= Seq::<EntryView>::empty());
    assert(Seq::<EntryView>::empty() + Seq::<EntryView>::empty() =~= Seq::<EntryView>::empty());
    while i < count
        invariant
            i <= count,
            stop2 <= at <= bytes@.len(),
            whole == after(
                entry_views(entries@),
                take_many(bytes@.skip(at as int), (count - i) as nat, record_reader()),
            ),
        decreases count - i,
    {
        match read_record(bytes, at) {
            Ok((entry, next)) => {
                proof {
                    let later = take_many(
                        bytes@.skip(next as int),
                        (count - i - 1) as nat,
                        record_reader(),
                    );
                    assert(entry_views(entries@.push(entry)) =~= entry_views(entries@).push(
                        entry@,
                    ));
                    match later {
                        Ok((items, tail)) => {
                            assert(entry_views(entries@) + (seq![entry@] + items) =~= entry_views(
                                entries@,
                            ).push(entry@) + items);
                        },
                        Err(_) => {},
                    }
                }
                entries.push(entry);
                at = next;
            },
            Err(e) => {
                return Err(e);
            },
        }
        i += 1;
    }
    assert(entry_views(entries@) + Seq::<EntryView>::empty() =~= entry_views(entries@));
    if at < bytes.len() {
        return Err(DecodeError::TrailingBytes);
    }
    Ok(ExtractionStep::new(matrix, entries))
}

} // verus!
