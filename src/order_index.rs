//! The order-hash-block index: one record per transaction, binding its order
//! number to its hash and the block that holds it, loaded from text lines of
//! the form `tx_order:tx_hash:block_number`.

use vstd::prelude::*;
use vstd::utf8::encode_utf8;

use crate::last_executed::{
    initial, lemma_outcome_after, lemma_search_finds_boundary, outcome, query_budget, query_of,
    LastExecutedSearch, SearchStep,
};
use crate::hash::{hash_from_text, hash_text, lemma_hash_round_trip, Hash256};
use crate::text::{
    ascii_chars, ascii_string, decimal_text, decimal_value, free_of, is_ascii_bytes,
    lemma_ascii_utf8, lemma_decimal_round_trip, lemma_split_three, lemma_three_fields_join, parse_u128, parse_u64, split_fields, split_on, write_decimal,
};

verus! {

/// The ASCII code of `:`, which separates the fields of an index line.
pub const COLON: u8 = 58;

/// Why a line of the index could not be read.
#[derive(Clone, Copy, Debug, PartialEq, Eq)]
pub enum RecordError {
    /// The line does not hold exactly three `:`-separated fields.
    FieldCount,
    /// The first field is not an unsigned 64-bit decimal number.
    TxOrder,
    /// The second field is not a 256-bit hash in hexadecimal.
    TxHash,
    /// The third field is not an unsigned 128-bit decimal number.
    BlockNumber,
}

/// One entry of the index.
#[derive(Clone, Copy, Debug, PartialEq, Eq)]
pub struct TxOrderHashBlock {
    pub tx_order: u64,
    pub tx_hash: Hash256,
    pub block_number: u128,
}

impl View for TxOrderHashBlock {
    type V = (u64, Seq<u8>, u128);

    open spec fn view(&self) -> (u64, Seq<u8>, u128) {
        (self.tx_order, self.tx_hash@, self.block_number)
    }
}

/// What a line of the index holds, or the first thing wrong with it.
pub open spec fn record_from_line(s: Seq<u8>) -> Result<(u64, Seq<u8>, u128), RecordError> {
    let f = split_fields(s, COLON);
    if f.len() != 3 {
        Err(RecordError::FieldCount)
    } else if !(decimal_value(f[0]) matches Some(n) && n <= u64::MAX) {
        Err(RecordError::TxOrder)
    } else if hash_from_text(f[1]) is None {
        Err(RecordError::TxHash)
    } else if !(decimal_value(f[2]) matches Some(n) && n <= u128::MAX) {
        Err(RecordError::BlockNumber)
    } else {
        Ok(
            (
                decimal_value(f[0])->0 as u64,
                hash_from_text(f[1])->0,
                decimal_value(f[2])->0 as u128,
            ),
        )
    }
}

/// The line that stands for a record in the index.
pub open spec fn record_line(r: (u64, Seq<u8>, u128)) -> Seq<u8> {
    decimal_text(r.0 as nat) + seq![COLON] + hash_text(r.1) + seq![COLON] + decimal_text(
        r.2 as nat,
    )
}

proof fn lemma_hash_text_colon_free(h: Seq<u8>)
    requires
        h.len() == 32,
    ensures
        free_of(hash_text(h), COLON),
{
    let t = hash_text(h);
    assert forall|i: int| 0 <= i < t.len() implies #[trigger] t[i] != COLON by {
        if i >= 2 {
            assert(t[i] == crate::text::hex_text(h)[i - 2]);
        }
    }
}

/// Reading the line written for a record gives back that record.
pub proof fn lemma_record_round_trip(r: TxOrderHashBlock)
    ensures
        record_from_line(record_line(r@)) == Ok::<_, RecordError>(r@),
        is_ascii_bytes(record_line(r@)),
{
    let a = decimal_text(r.tx_order as nat);
    let h = hash_text(r.tx_hash@);
    let b = decimal_text(r.block_number as nat);
    lemma_decimal_round_trip(r.tx_order as nat);
    lemma_decimal_round_trip(r.block_number as nat);
    lemma_hash_round_trip(r.tx_hash@);
    lemma_hash_text_colon_free(r.tx_hash@);
    assert forall|i: int| 0 <= i < a.len() implies #[trigger] a[i] != COLON by {
        assert(crate::text::is_digit(a[i]));
    }
    assert forall|i: int| 0 <= i < b.len() implies #[trigger] b[i] != COLON by {
        assert(crate::text::is_digit(b[i]));
    }
    lemma_split_three(a, h, b, COLON);
    let l = record_line(r@);
    assert forall|i: int| 0 <= i < l.len() implies #[trigger] l[i] < 128 by {
        if i < a.len() {
            assert(crate::text::is_digit(a[i]));
        } else if a.len() < i < a.len() + 1 + h.len() {
            assert(l[i] == h[i - a.len() - 1]);
        } else if i > a.len() + 1 + h.len() {
            assert(l[i] == b[i - a.len() - 2 - h.len()]);
            assert(crate::text::is_digit(b[i - a.len() - 2 - h.len()]));
        }
    }
}

/// A line whose every field is written as `record_line` writes it: decimal
/// numbers without sign or leading zero, and the hash as `0x` and 64
/// lower-case hexadecimal digits.
pub open spec fn is_canonical_line(s: Seq<u8>) -> bool {
    let f = split_fields(s, COLON);
    &&& f.len() == 3
    &&& decimal_value(f[0]) is Some
    &&& f[0] == decimal_text(decimal_value(f[0])->0)
    &&& hash_from_text(f[1]) is Some
    &&& f[1] == hash_text(hash_from_text(f[1])->0)
    &&& decimal_value(f[2]) is Some
    &&& f[2] == decimal_text(decimal_value(f[2])->0)
}

/// A canonical line that reads as a record is the line written for that record.
pub proof fn lemma_canonical_line_round_trip(s: Seq<u8>)
    requires
        record_from_line(s) is Ok,
        is_canonical_line(s),
    ensures
        record_line(record_from_line(s)->Ok_0) == s,
{
    let f = split_fields(s, COLON);
    lemma_three_fields_join(s, COLON);
    let v = record_from_line(s)->Ok_0;
    assert(v.0 as nat == decimal_value(f[0])->0);
    assert(v.2 as nat == decimal_value(f[2])->0);
}

impl TxOrderHashBlock {
    pub fn new(tx_order: u64, tx_hash: Hash256, block_number: u128) -> (r: TxOrderHashBlock)
        ensures
            r.tx_order == tx_order,
            r.tx_hash == tx_hash,
            r.block_number == block_number,
    {
        TxOrderHashBlock { tx_order, tx_hash, block_number }
    }

    /// Reads a record from the bytes of one index line.
    pub fn parse_bytes(s: &[u8]) -> (r: Result<TxOrderHashBlock, RecordError>)
        ensures
            match r {
                Ok(v) => record_from_line(s@) == Ok::<_, RecordError>(v@),
                Err(e) => record_from_line(s@) == Err::<(u64, Seq<u8>, u128), _>(e),
            },
    {
        let fields = split_on(s, COLON);
        let ghost f = split_fields(s@, COLON);
        assert(fields@.len() == f.len());
        if fields.len() != 3 {
            return Err(RecordError::FieldCount);
        }
        assert(fields@[0]@ == f[0]);
        assert(fields@[1]@ == f[1]);
        assert(fields@[2]@ == f[2]);
        let tx_order = match parse_u64(fields[0].as_slice()) {
            Some(v) => v,
            None => {
                return Err(RecordError::TxOrder);
            },
        };
        let tx_hash = match Hash256::parse_bytes(fields[1].as_slice()) {
            Some(h) => h,
            None => {
                return Err(RecordError::TxHash);
            },
        };
        let block_number = match parse_u128(fields[2].as_slice()) {
            Some(v) => v,
            None => {
                return Err(RecordError::BlockNumber);
            },
        };
        Ok(TxOrderHashBlock { tx_order, tx_hash, block_number })
    }

    /// Reads a record from one index line.
    pub fn parse(s: &str) -> (r: Result<TxOrderHashBlock, RecordError>)
        ensures
            match r {
                Ok(v) => record_from_line(encode_utf8(s@)) == Ok::<_, RecordError>(v@),
                Err(e) => record_from_line(encode_utf8(s@)) == Err::<(u64, Seq<u8>, u128), _>(e),
            },
    {
        TxOrderHashBlock::parse_bytes(s.as_bytes())
    }

    /// The index line for this record.
    pub fn to_line(&self) -> (r: String)
        ensures
            r@ == ascii_chars(record_line(self@)),
    {
        let mut out: Vec<u8> = Vec::new();
        write_decimal(self.tx_order as u128, &mut out);
        out.push(COLON);
        self.tx_hash.write_text(&mut out);
        out.push(COLON);
        write_decimal(self.block_number, &mut out);
        proof {
            lemma_record_round_trip(*self);
            assert(out@ =~= record_line(self@));
        }
        ascii_string(out)
    }
}

/// Reading back the line that `to_line` writes for a record gives that record.
pub proof fn lemma_line_round_trip(r: TxOrderHashBlock, line: &str)
    requires
        line@ == ascii_chars(record_line(r@)),
    ensures
        record_from_line(encode_utf8(line@)) == Ok::<_, RecordError>(r@),
{
    lemma_record_round_trip(r);
    lemma_ascii_utf8(record_line(r@));
}

/// The orders of a run of records.
pub open spec fn orders_of(s: Seq<TxOrderHashBlock>) -> Seq<u64> {
    s.map_values(|r: TxOrderHashBlock| r.tx_order)
}

/// Each order is the first one plus its position: ascending by exactly one.
pub open spec fn contiguous(o: Seq<u64>) -> bool {
    forall|i: int| 0 <= i < o.len() ==> #[trigger] o[i] == o[0] + i
}

/// `line` is the first position that breaks contiguity.
pub open spec fn is_first_gap(o: Seq<u64>, line: int) -> bool {
    &&& 0 < line < o.len()
    &&& o[line] != o[0] + line
    &&& forall|j: int| 0 <= j < line ==> #[trigger] o[j] == o[0] + j
}

/// What a line of text holds as a record, or why it holds none.
pub open spec fn line_record(line: String) -> Result<(u64, Seq<u8>, u128), RecordError> {
    record_from_line(encode_utf8(line@))
}

/// `has_executed` reports exactly the records of `s` below position `k` as
/// executed, and never fails.
pub open spec fn executed_below<E, F: Fn(Hash256) -> Result<bool, E>>(
    s: Seq<TxOrderHashBlock>,
    has_executed: F,
    k: nat,
) -> bool {
    &&& k <= s.len()
    &&& forall|i: int, a: Result<bool, E>|
        0 <= i < s.len() && #[trigger] has_executed.ensures((s[i].tx_hash,), a) ==> a == Ok::<
            bool,
            E,
        >(i < k)
}

/// `has_executed` may answer `executed` for the record at position `i` of `s`.
pub open spec fn answered<E, F: Fn(Hash256) -> Result<bool, E>>(
    s: Seq<TxOrderHashBlock>,
    has_executed: F,
    i: int,
    executed: bool,
) -> bool {
    has_executed.ensures((s[i].tx_hash,), Ok::<bool, E>(executed))
}

/// `has_executed` gives one answer for each hash.
pub open spec fn deterministic<E, F: Fn(Hash256) -> Result<bool, E>>(has_executed: F) -> bool {
    forall|h: Hash256, a: Result<bool, E>, b: Result<bool, E>|
        #![trigger has_executed.ensures((h,), a), has_executed.ensures((h,), b)]
        has_executed.ensures((h,), a) && has_executed.ensures((h,), b) ==> a == b
}

/// `has_executed` fails for every record of `s`.
pub open spec fn always_fails<E, F: Fn(Hash256) -> Result<bool, E>>(
    s: Seq<TxOrderHashBlock>,
    has_executed: F,
) -> bool {
    forall|i: int, a: Result<bool, E>|
        0 <= i < s.len() && #[trigger] has_executed.ensures((s[i].tx_hash,), a) ==> a is Err
}

/// Why an index could not be built.
#[derive(Clone, Copy, Debug, PartialEq, Eq)]
pub enum IndexError {
    /// The line at this position (from 0) is not a record.
    Record { line: usize, error: RecordError },
    /// The record at this position (from 0) does not follow its predecessor
    /// by exactly one order.
    Gap { line: usize },
}

/// Why a range could not be cut from the index.
#[derive(Clone, Copy, Debug, PartialEq, Eq)]
pub enum SliceError {
    /// No record has the start order.
    StartNotFound,
    /// The end order is below the start order.
    EndBeforeStart,
    /// No record has the end order.
    EndNotFound,
}

/// The index: records ascending by order, each one above its predecessor.
pub struct TxOrderHashBlockGetter {
    tx_order_hash_blocks: Vec<TxOrderHashBlock>,
}

impl View for TxOrderHashBlockGetter {
    type V = Seq<TxOrderHashBlock>;

    closed spec fn view(&self) -> Seq<TxOrderHashBlock> {
        self.tx_order_hash_blocks@
    }
}

impl TxOrderHashBlockGetter {
    #[verifier::type_invariant]
    spec fn inv(&self) -> bool {
        contiguous(orders_of(self.tx_order_hash_blocks@))
    }

    /// Builds an index from records, which must be contiguous by order.
    pub fn from_records(records: Vec<TxOrderHashBlock>) -> (r: Result<
        TxOrderHashBlockGetter,
        IndexError,
    >)
        ensures
            r is Ok <==> contiguous(orders_of(records@)),
            match r {
                Ok(g) => g@ == records@,
                Err(IndexError::Gap { line }) => is_first_gap(orders_of(records@), line as int),
                Err(IndexError::Record { .. }) => false,
            },
    {
        let ghost o = orders_of(records@);
        let mut i: usize = 1;
        while i < records.len()
            invariant
                o == orders_of(records@),
                1 <= i,
                records.len() > 0 ==> i <= records.len(),
                forall|j: int| 0 <= j < i && j < o.len() ==> #[trigger] o[j] == o[0] + j,
            decreases records.len() - i,
        {
            let prev = records[i - 1].tx_order;
            assert(o[i - 1] == prev);
            assert(o[i as int] == records@[i as int].tx_order);
            if prev == u64::MAX || records[i].tx_order != prev + 1 {
                assert(o[i - 1] == o[0] + (i - 1));
                assert(o[i as int] != o[0] + i);
                return Err(IndexError::Gap { line: i });
            }
            i = i + 1;
        }
        Ok(TxOrderHashBlockGetter { tx_order_hash_blocks: records })
    }

    /// Builds an index from its lines of text: every line must be a record,
    /// and the records contiguous by order.
    pub fn load_from_lines(lines: &[String]) -> (r: Result<TxOrderHashBlockGetter, IndexError>)
        ensures
            match r {
                Ok(g) => {
                    &&& g@.len() == lines@.len()
                    &&& forall|j: int|
                        0 <= j < lines@.len() ==> line_record(#[trigger] lines@[j])
                            == Ok::<_, RecordError>(g@[j]@)
                },
                Err(IndexError::Record { line, error }) => {
                    &&& line < lines@.len()
                    &&& line_record(lines@[line as int]) == Err::<(u64, Seq<u8>, u128), _>(error)
                    &&& forall|j: int| 0 <= j < line ==> line_record(#[trigger] lines@[j]) is Ok
                },
                Err(IndexError::Gap { line }) => {
                    &&& forall|j: int|
                        0 <= j < lines@.len() ==> line_record(#[trigger] lines@[j]) is Ok
                    &&& is_first_gap(
                        Seq::new(lines@.len(), |j: int| line_record(lines@[j])->Ok_0.0),
                        line as int,
                    )
                },
            },
    {
        let mut records: Vec<TxOrderHashBlock> = Vec::new();
        let mut i: usize = 0;
        while i < lines.len()
            invariant
                i <= lines@.len(),
                records@.len() == i,
                forall|j: int|
                    0 <= j < i ==> line_record(#[trigger] lines@[j]) == Ok::<_, RecordError>(
                        records@[j]@,
                    ),
            decreases lines.len() - i,
        {
            match TxOrderHashBlock::parse(lines[i].as_str()) {
                Ok(record) => {
                    records.push(record);
                },
                Err(error) => {
                    return Err(IndexError::Record { line: i, error });
                },
            }
            i = i + 1;
        }
        let ghost parsed = records@;
        let r = TxOrderHashBlockGetter::from_records(records);
        proof {
            assert(orders_of(parsed) =~= Seq::new(
                lines@.len(),
                |j: int| line_record(lines@[j])->Ok_0.0,
            ));
        }
        r
    }

    /// The number of records.
    pub fn len(&self) -> (n: usize)
        ensures
            n == self@.len(),
    {
        self.tx_order_hash_blocks.len()
    }

    /// The record at position `i`.
    pub fn record(&self, i: usize) -> (r: TxOrderHashBlock)
        requires
            i < self@.len(),
        ensures
            r == self@[i as int],
    {
        self.tx_order_hash_blocks[i]
    }

    /// The position of the record with order `tx_order`, found by binary search.
    pub fn position_of(&self, tx_order: u64) -> (r: Option<usize>)
        ensures
            r is Some <==> orders_of(self@).contains(tx_order),
            r matches Some(i) ==> i < self@.len() && self@[i as int].tx_order == tx_order,
    {
        proof {
            use_type_invariant(self);
        }
        let ghost o = orders_of(self@);
        let blocks = &self.tx_order_hash_blocks;
        let mut lo: usize = 0;
        let mut hi: usize = blocks.len();
        while lo < hi
            invariant
                o == orders_of(blocks@),
                self@ == blocks@,
                contiguous(o),
                lo <= hi <= blocks@.len(),
                forall|j: int| 0 <= j < lo ==> #[trigger] o[j] < tx_order,
                forall|j: int| hi <= j < o.len() ==> #[trigger] o[j] > tx_order,
            decreases hi - lo,
        {
            let mid = lo + (hi - lo) / 2;
            let v = blocks[mid].tx_order;
            assert(o[mid as int] == v);
            if v == tx_order {
                return Some(mid);
            } else if v < tx_order {
                assert forall|j: int| 0 <= j < mid + 1 implies #[trigger] o[j] < tx_order by {
                    assert(o[j] == o[0] + j);
                    assert(o[mid as int] == o[0] + mid);
                }
                lo = mid + 1;
            } else {
                assert forall|j: int| mid <= j < o.len() implies #[trigger] o[j] > tx_order by {
                    assert(o[j] == o[0] + j);
                    assert(o[mid as int] == o[0] + mid);
                }
                hi = mid;
            }
        }
        proof {
            if o.contains(tx_order) {
                let j = choose|j: int| 0 <= j < o.len() && o[j] == tx_order;
                assert(o[j] == tx_order);
            }
        }
        None
    }

    /// The records with orders from `start_tx_order` to `end_tx_order`, both
    /// included. Both orders must be in the index, the end not below the start.
    pub fn slice(&self, start_tx_order: u64, end_tx_order: u64) -> (r: Result<
        Vec<TxOrderHashBlock>,
        SliceError,
    >)
        ensures
            match r {
                Ok(v) => {
                    &&& orders_of(self@).contains(start_tx_order)
                    &&& start_tx_order <= end_tx_order
                    &&& orders_of(self@).contains(end_tx_order)
                    &&& v@ == self@.subrange(
                        start_tx_order - self@[0].tx_order,
                        end_tx_order - self@[0].tx_order + 1,
                    )
                    &&& v@.len() == end_tx_order - start_tx_order + 1
                    &&& forall|k: int|
                        0 <= k < v@.len() ==> #[trigger] v@[k].tx_order == start_tx_order + k
                },
                Err(SliceError::StartNotFound) => !orders_of(self@).contains(start_tx_order),
                Err(SliceError::EndBeforeStart) => {
                    &&& orders_of(self@).contains(start_tx_order)
                    &&& end_tx_order < start_tx_order
                },
                Err(SliceError::EndNotFound) => {
                    &&& orders_of(self@).contains(start_tx_order)
                    &&& start_tx_order <= end_tx_order
                    &&& !orders_of(self@).contains(end_tx_order)
                },
            },
    {
        proof {
            use_type_invariant(self);
        }
        let ghost o = orders_of(self@);
        let start = match self.position_of(start_tx_order) {
            Some(i) => i,
            None => {
                return Err(SliceError::StartNotFound);
            },
        };
        if end_tx_order < start_tx_order {
            return Err(SliceError::EndBeforeStart);
        }
        let n = self.tx_order_hash_blocks.len();
        let span = end_tx_order - start_tx_order;
        assert(o[start as int] == o[0] + start);
        if span > (n - 1 - start) as u64 {
            proof {
                if o.contains(end_tx_order) {
                    let j = choose|j: int| 0 <= j < o.len() && o[j] == end_tx_order;
                    assert(o[j] == o[0] + j);
                }
            }
            return Err(SliceError::EndNotFound);
        }
        let end = start + span as usize;
        assert(o[end as int] == o[0] + end);
        let mut out: Vec<TxOrderHashBlock> = Vec::new();
        let mut k: usize = start;
        while k <= end
            invariant
                start <= k <= end + 1,
                end < self.tx_order_hash_blocks.len(),
                self@ == self.tx_order_hash_blocks@,
                out@ =~= self@.subrange(start as int, k as int),
            decreases end + 1 - k,
        {
            out.push(self.tx_order_hash_blocks[k]);
            k = k + 1;
        }
        proof {
            assert forall|k: int| 0 <= k < out@.len() implies #[trigger] out@[k].tx_order
                == start_tx_order + k by {
                assert(o[start + k] == o[0] + start + k);
            }
        }
        Ok(out)
    }

    /// The last record whose transaction `has_executed` reports as executed,
    /// or none. `has_executed` is asked only about the hashes of this index,
    /// at most `ceil(log2 N) + 1` times (see `LastExecutedSearch`), never for
    /// an empty index, and its first error ends the search and is returned.
    /// When it answers for exactly the records below position `k`, the result
    /// is record `k - 1`, or none when `k` is 0. Whatever it answers, a record
    /// found was answered executed and its successor, if any, not executed;
    /// and none found means that the first record was answered not executed.
    pub fn find_last_executed<E, F: Fn(Hash256) -> Result<bool, E>>(&self, has_executed: F) -> (r:
        Result<Option<TxOrderHashBlock>, E>)
        requires
            forall|i: int|
                0 <= i < self@.len() ==> has_executed.requires((#[trigger] self@[i].tx_hash,)),
        ensures
            forall|k: nat|
                #![trigger executed_below(self@, has_executed, k)]
                executed_below(self@, has_executed, k) ==> r == Ok::<_, E>(
                    if k == 0 {
                        None
                    } else {
                        Some(self@[k - 1])
                    },
                ),
            r matches Err(e) ==> exists|i: int|
                0 <= i < self@.len() && #[trigger] has_executed.ensures(
                    (self@[i].tx_hash,),
                    Err::<bool, E>(e),
                ),
            self@.len() > 0 && always_fails(self@, has_executed) ==> r is Err,
            r matches Ok(Some(rec)) ==> exists|j: int|
                #![trigger self@[j]]
                0 <= j < self@.len() && rec == self@[j] && answered(self@, has_executed, j, true)
                    && (deterministic(has_executed) ==> j + 1 == self@.len() || answered(
                    self@,
                    has_executed,
                    j + 1,
                    false,
                )),
            r matches Ok(None) ==> self@.len() == 0 || answered(self@, has_executed, 0, false),
    {
        let mut search = self.search_last_executed();
        let n = self.tx_order_hash_blocks.len();
        let ghost s = self@;
        proof {
            assert forall|k: nat|
                #![trigger executed_below(self@, has_executed, k)]
                executed_below(self@, has_executed, k) implies outcome(search@, k) == (if k == 0 {
                None
            } else {
                Some((k - 1) as usize)
            }) by {
                if n >= 1 {
                    lemma_search_finds_boundary(n as nat, k);
                } else {
                    assert(outcome(search@, k) == None::<usize>);
                }
            }
        }
        loop
            invariant
                s == self@,
                s.len() == n,
                forall|k: nat|
                    #![trigger executed_below(self@, has_executed, k)]
                    executed_below(self@, has_executed, k) ==> outcome(search@, k) == (if k == 0 {
                        None
                    } else {
                        Some((k - 1) as usize)
                    }),
                forall|i: int|
                    0 <= i < self@.len() ==> has_executed.requires((#[trigger] self@[i].tx_hash,)),
                search@.len == self@.len(),
                search@.left == 0 || answered(s, has_executed, search@.left - 1, true),
                n == 0 || search@.right + 1 == n || answered(s, has_executed, search@.right as int, false),
                search@.verdict is Some ==> search@.left == search@.right,
                search@.verdict matches Some(b) ==> answered(s, has_executed, search@.left as int, b),
                always_fails(s, has_executed) ==> search@ == initial(n as nat),
            decreases query_budget(search@),
        {
            let ghost before = search@;
            match search.step() {
                SearchStep::Query(i) => {
                    proof {
                        assert(0 <= i < self@.len());
                    }
                    let answer = has_executed(self.tx_order_hash_blocks[i].tx_hash);
                    assert(has_executed.ensures((self@[i as int].tx_hash,), answer));
                    match answer {
                        Ok(executed) => {
                            search.observe(executed);
                            proof {
                                assert(answered(s, has_executed, i as int, executed));
                                assert forall|k: nat|
                                    #![trigger executed_below(self@, has_executed, k)]
                                    executed_below(self@, has_executed, k) implies outcome(
                                    search@,
                                    k,
                                ) == (if k == 0 {
                                    None
                                } else {
                                    Some((k - 1) as usize)
                                }) by {
                                    assert(query_of(before) == i);
                                    lemma_outcome_after(before, k);
                                }
                            }
                        },
                        Err(e) => {
                            assert(has_executed.ensures((self@[i as int].tx_hash,), Err::<bool, E>(e)));
                            assert(exists|j: int|
                                0 <= j < self@.len() && #[trigger] has_executed.ensures(
                                    (self@[j].tx_hash,),
                                    Err::<bool, E>(e),
                                )) by {
                                assert(0 <= i < self@.len());
                            }
                            let r: Result<Option<TxOrderHashBlock>, E> = Err(e);
                            assert(r matches Err(e2) && e2 == e);
                            return r;
                        },
                    }
                },
                SearchStep::Done(found) => {
                    return match found {
                        Some(i) => Ok(Some(self.tx_order_hash_blocks[i])),
                        None => Ok(None),
                    };
                },
            }
        }
    }

    /// A search for the last executed record of this index.
    pub fn search_last_executed(&self) -> (s: LastExecutedSearch)
        ensures
            s@ == initial(self@.len()),
    {
        LastExecutedSearch::new(self.tx_order_hash_blocks.len())
    }
}

} // verus!
