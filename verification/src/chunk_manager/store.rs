//! The persistence rules: under which key a chunk's record is kept, and
//! what a load does with what the store holds under that key. Reading and
//! writing the store is the caller's part; the decisions are made here.

use super::chunk_data::{ChunkData, ChunkDataView};
use vstd::prelude::*;
use vstd::string::StringExecFns;

verus! {

/// Why the load of one chunk failed. A failure concerns that chunk alone.
#[derive(Clone, Copy, Debug, PartialEq, Eq, Structural)]
pub enum LoadError {
    /// A record exists but cannot be read, or does not have the shape of a
    /// chunk. It is never taken for absent, so it is never overwritten.
    StorageRead,
    /// A new record could not be written. Nothing is materialised from it.
    StorageWrite,
    /// The noise field handed to the generator does not have the shape of a
    /// chunk.
    GenerationInconsistency,
}

impl LoadError {
    /// The error in words.
    pub fn message(&self) -> (text: String)
        ensures
            text@ == match *self {
                LoadError::StorageRead => "existing chunk record is unreadable or malformed"@,
                LoadError::StorageWrite => "new chunk record could not be written"@,
                LoadError::GenerationInconsistency => "noise field does not fit the chunk"@,
            },
    {
        match self {
            LoadError::StorageRead => String::from_str(
                "existing chunk record is unreadable or malformed",
            ),
            LoadError::StorageWrite => String::from_str("new chunk record could not be written"),
            LoadError::GenerationInconsistency => String::from_str(
                "noise field does not fit the chunk",
            ),
        }
    }
}

/// What the store holds under a chunk's key.
#[derive(Debug)]
pub enum Stored {
    /// No record exists.
    Absent,
    /// A record exists and was read.
    Present(ChunkData),
    /// A record exists and could not be read.
    Corrupt,
}

/// What the store holds under a key, as a value of the model.
pub enum StoredView {
    Absent,
    Present(ChunkDataView),
    Corrupt,
}

impl View for Stored {
    type V = StoredView;

    open spec fn view(&self) -> StoredView {
        match *self {
            Stored::Absent => StoredView::Absent,
            Stored::Present(data) => StoredView::Present(data@),
            Stored::Corrupt => StoredView::Corrupt,
        }
    }
}

/// The record that a load settled on, and where it came from.
#[derive(Debug)]
pub enum Resolution {
    /// The record was in the store. It is used as it is and never written.
    Existing(ChunkData),
    /// The record was generated. It must be written before it is used.
    Generated(ChunkData),
}

impl Resolution {
    /// The record, wherever it came from.
    pub open spec fn spec_record(&self) -> ChunkData {
        match *self {
            Resolution::Existing(data) => data,
            Resolution::Generated(data) => data,
        }
    }

    /// Whether the record has yet to be written.
    pub open spec fn spec_must_write(&self) -> bool {
        *self is Generated
    }

    /// Whether the record has yet to be written.
    pub fn must_write(&self) -> (fresh: bool)
        ensures
            fresh == self.spec_must_write(),
    {
        match self {
            Resolution::Existing(_) => false,
            Resolution::Generated(_) => true,
        }
    }

    /// The record, wherever it came from.
    pub fn into_record(self) -> (data: ChunkData)
        ensures
            data == self.spec_record(),
    {
        match self {
            Resolution::Existing(data) => data,
            Resolution::Generated(data) => data,
        }
    }
}

/// What a load answers where the store holds something under the key: the
/// record itself if it has the shape of a chunk, else a read error.
pub open spec fn outcome_of_stored(stored: StoredView) -> Result<ChunkDataView, LoadError> {
    match stored {
        StoredView::Present(data) => if data.wf() {
            Ok(data)
        } else {
            Err(LoadError::StorageRead)
        },
        _ => Err(LoadError::StorageRead),
    }
}

/// A store as a value of the model: what it holds under each key that has a
/// record. A key without a record is not in the map.
pub type StoreModel = Map<(u32, u32), StoredView>;

/// What a read of the store finds under a key.
pub open spec fn read(store: StoreModel, chunk: (u32, u32)) -> StoredView {
    if store.dom().contains(chunk) {
        store[chunk]
    } else {
        StoredView::Absent
    }
}

/// What one load answers against a store. `generated` is what the generator
/// would produce; it counts only where the store holds nothing.
pub open spec fn load_result(store: StoreModel, chunk: (u32, u32), generated: ChunkDataView) -> Result<
    ChunkDataView,
    LoadError,
> {
    match read(store, chunk) {
        StoredView::Absent => Ok(generated),
        stored => outcome_of_stored(stored),
    }
}

/// Whether a load against a store runs the generator.
pub open spec fn load_generates(store: StoreModel, chunk: (u32, u32)) -> bool {
    read(store, chunk) is Absent
}

/// The store after one load whose write, if there was one, succeeded: a
/// generated record is added under the key, and nothing else changes.
pub open spec fn store_after(
    store: StoreModel,
    chunk: (u32, u32),
    generated: ChunkDataView,
) -> StoreModel {
    if load_generates(store, chunk) {
        store.insert(chunk, StoredView::Present(generated))
    } else {
        store
    }
}

/// Idempotent read: where a record exists, two loads of the same chunk, one
/// after the other, answer with the same record, cell for cell, and that
/// record is the stored one. What the generator would have produced either
/// time makes no difference.
pub proof fn lemma_idempotent_read(
    store: StoreModel,
    chunk: (u32, u32),
    first: ChunkDataView,
    second: ChunkDataView,
)
    requires
        read(store, chunk) is Present,
    ensures
        load_result(store, chunk, first) == load_result(
            store_after(store, chunk, first),
            chunk,
            second,
        ),
        load_result(store, chunk, first) is Ok ==> read(store, chunk) == StoredView::Present(
            load_result(store, chunk, first)->Ok_0,
        ),
{
}

/// Write-once: once a record exists under a key, no later load runs the
/// generator for it or changes the store, however often it is asked for;
/// and the record that the first load of a chunk writes is the one that
/// every later load answers with.
pub proof fn lemma_write_once(
    store: StoreModel,
    chunk: (u32, u32),
    first: ChunkDataView,
    later: ChunkDataView,
)
    ensures
        !load_generates(store_after(store, chunk, first), chunk),
        store_after(store_after(store, chunk, first), chunk, later) == store_after(
            store,
            chunk,
            first,
        ),
        load_generates(store, chunk) && first.wf() ==> load_result(
            store_after(store, chunk, first),
            chunk,
            later,
        ) == Ok::<ChunkDataView, LoadError>(first),
        !load_generates(store, chunk) ==> store_after(store, chunk, first) == store,
{
}

/// A load of one chunk leaves the records of all other chunks alone.
pub proof fn lemma_load_is_local(
    store: StoreModel,
    chunk: (u32, u32),
    generated: ChunkDataView,
    other: (u32, u32),
)
    requires
        other != chunk,
    ensures
        read(store_after(store, chunk, generated), other) == read(store, other),
{
}

/// The digit that stands for a number below ten.
pub open spec fn digit_char(d: nat) -> char {
    if d == 0 {
        '0'
    } else if d == 1 {
        '1'
    } else if d == 2 {
        '2'
    } else if d == 3 {
        '3'
    } else if d == 4 {
        '4'
    } else if d == 5 {
        '5'
    } else if d == 6 {
        '6'
    } else if d == 7 {
        '7'
    } else if d == 8 {
        '8'
    } else {
        '9'
    }
}

/// A number in decimal, without leading zeros.
pub open spec fn decimal(n: nat) -> Seq<char>
    decreases n,
{
    if n < 10 {
        seq![digit_char(n)]
    } else {
        decimal(n / 10).push(digit_char(n % 10))
    }
}

/// The key under which a chunk's record is kept: both coordinates in
/// decimal with a comma between them, and the ending of a JSON file.
pub open spec fn spec_chunk_file(chunk: (u32, u32)) -> Seq<char> {
    decimal(chunk.0 as nat) + seq![','] + decimal(chunk.1 as nat) + ".json"@
}

/// One of the ten digits.
pub open spec fn is_digit(c: char) -> bool {
    exists|d: nat| d < 10 && c == #[trigger] digit_char(d)
}

/// A number in decimal is one digit at least, and digits only.
pub proof fn lemma_decimal_digits(n: nat)
    ensures
        decimal(n).len() >= 1,
        forall|i: int| 0 <= i < decimal(n).len() ==> is_digit(#[trigger] decimal(n)[i]),
    decreases n,
{
    if n < 10 {
        assert(decimal(n)[0] == digit_char(n));
    } else {
        lemma_decimal_digits(n / 10);
        let shorter = decimal(n / 10);
        assert forall|i: int| 0 <= i < decimal(n).len() implies is_digit(
            #[trigger] decimal(n)[i],
        ) by {
            if i < shorter.len() {
                assert(decimal(n)[i] == shorter[i]);
            } else {
                assert(decimal(n)[i] == digit_char(n % 10));
            }
        }
    }
}

/// Two numbers with the same decimal form are the same number.
pub proof fn lemma_decimal_injective(a: nat, b: nat)
    requires
        decimal(a) == decimal(b),
    ensures
        a == b,
    decreases a,
{
    lemma_decimal_digits(a / 10);
    lemma_decimal_digits(b / 10);
    if a < 10 {
        assert(decimal(a).len() == 1);
        assert(b < 10);
        assert(decimal(a)[0] == digit_char(a));
        assert(decimal(b)[0] == digit_char(b));
    } else {
        assert(decimal(a).len() == decimal(a / 10).len() + 1);
        if b < 10 {
            assert(decimal(b).len() == 1);
        }
        let front_a = decimal(a / 10);
        let front_b = decimal(b / 10);
        assert(decimal(a).last() == digit_char(a % 10));
        assert(decimal(b).last() == digit_char(b % 10));
        assert(decimal(a).drop_last() =~= front_a);
        assert(decimal(b).drop_last() =~= front_b);
        lemma_decimal_injective(a / 10, b / 10);
    }
}

/// Two chunks with the same key are the same chunk: no two chunks ever
/// share a record.
pub proof fn lemma_chunk_file_injective(a: (u32, u32), b: (u32, u32))
    requires
        spec_chunk_file(a) == spec_chunk_file(b),
    ensures
        a == b,
{
    let key_a = spec_chunk_file(a);
    let key_b = spec_chunk_file(b);
    let x_a = decimal(a.0 as nat);
    let x_b = decimal(b.0 as nat);
    let y_a = decimal(a.1 as nat);
    let y_b = decimal(b.1 as nat);
    lemma_decimal_digits(a.0 as nat);
    lemma_decimal_digits(b.0 as nat);
    assert(!is_digit(',')) by {
        if is_digit(',') {
            let d = choose|d: nat| d < 10 && ',' == #[trigger] digit_char(d);
        }
    }
    assert(key_a[x_a.len() as int] == ',');
    assert(key_b[x_b.len() as int] == ',');
    if x_a.len() < x_b.len() {
        assert(key_b[x_a.len() as int] == x_b[x_a.len() as int]);
    }
    if x_b.len() < x_a.len() {
        assert(key_a[x_b.len() as int] == x_a[x_b.len() as int]);
    }
    assert(x_a =~= key_a.subrange(0, x_a.len() as int));
    assert(x_b =~= key_b.subrange(0, x_b.len() as int));
    lemma_decimal_injective(a.0 as nat, b.0 as nat);
    assert(key_a.len() == x_a.len() + 1 + y_a.len() + ".json"@.len());
    assert(key_b.len() == x_b.len() + 1 + y_b.len() + ".json"@.len());
    let from = x_a.len() as int + 1;
    assert(y_a =~= key_a.subrange(from, from + y_a.len()));
    assert(y_b =~= key_b.subrange(from, from + y_b.len()));
    lemma_decimal_injective(a.1 as nat, b.1 as nat);
}

/// The text of one digit.
fn digit_text(d: u32) -> (text: &'static str)
    requires
        d < 10,
    ensures
        text@ == seq![digit_char(d as nat)],
{
    proof {
        reveal_strlit("0");
        reveal_strlit("1");
        reveal_strlit("2");
        reveal_strlit("3");
        reveal_strlit("4");
        reveal_strlit("5");
        reveal_strlit("6");
        reveal_strlit("7");
        reveal_strlit("8");
        reveal_strlit("9");
    }
    let text = match d {
        0 => "0",
        1 => "1",
        2 => "2",
        3 => "3",
        4 => "4",
        5 => "5",
        6 => "6",
        7 => "7",
        8 => "8",
        _ => "9",
    };
    assert(text@ =~= seq![digit_char(d as nat)]);
    text
}

/// Appends a number in decimal to a text.
pub fn push_decimal(text: &mut String, n: u32)
    ensures
        final(text)@ == old(text)@ + decimal(n as nat),
    decreases n,
{
    if n >= 10 {
        push_decimal(text, n / 10);
    }
    text.append(digit_text(n % 10));
    proof {
        if n >= 10 {
            assert(text@ =~= old(text)@ + decimal(n as nat));
        } else {
            assert(text@ =~= old(text)@ + decimal(n as nat));
        }
    }
}

/// The key under which a chunk's record is kept.
pub fn chunk_file(chunk: (u32, u32)) -> (name: String)
    ensures
        name@ == spec_chunk_file(chunk),
{
    let mut name = String::new();
    push_decimal(&mut name, chunk.0);
    name.append(",");
    push_decimal(&mut name, chunk.1);
    name.append(".json");
    proof {
        reveal_strlit(",");
        assert(","@ =~= seq![',']);
        assert(name@ =~= spec_chunk_file(chunk));
    }
    name
}

} // verus!
