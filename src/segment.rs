//! Segment files and the chunks they make up.
//!
//! A chunk of the ledger is stored as one or more segment files in a flat
//! directory, each named `<chunk_id>_<segment_number>`. Names of other shapes
//! belong to unrelated files and are passed over.

use std::collections::HashMap;
use vstd::prelude::*;
use vstd::utf8::encode_utf8;

use crate::text::{
    ascii_chars, ascii_string, decimal_text, decimal_value, is_ascii_bytes,
    lemma_decimal_round_trip, lemma_split_fields_extend, lemma_split_fields_separator, parse_u128,
    parse_u64, split_fields, split_on, write_decimal,
};

verus! {

broadcast use vstd::std_specs::hash::group_hash_axioms;

/// The ASCII code of `_`, which separates the two numbers of a segment name.
pub const UNDERSCORE: u8 = 95;

/// The identity of one segment file.
#[derive(Clone, Copy, Debug, PartialEq, Eq, Hash)]
pub struct SegmentID {
    pub chunk_id: u128,
    pub segment_number: u64,
}

/// The segment that a file name stands for, if it has the shape of one.
pub open spec fn segment_from_name(s: Seq<u8>) -> Option<SegmentID> {
    let f = split_fields(s, UNDERSCORE);
    if f.len() == 2 && decimal_value(f[0]) is Some && decimal_value(f[0])->0 <= u128::MAX
        && decimal_value(f[1]) is Some && decimal_value(f[1])->0 <= u64::MAX {
        Some(
            SegmentID {
                chunk_id: decimal_value(f[0])->0 as u128,
                segment_number: decimal_value(f[1])->0 as u64,
            },
        )
    } else {
        None
    }
}

/// The file name of a segment.
pub open spec fn segment_name(id: SegmentID) -> Seq<u8> {
    decimal_text(id.chunk_id as nat) + seq![UNDERSCORE] + decimal_text(id.segment_number as nat)
}

/// A segment's file name reads back as that segment.
pub proof fn lemma_segment_name_round_trip(id: SegmentID)
    ensures
        segment_from_name(segment_name(id)) == Some(id),
        is_ascii_bytes(segment_name(id)),
{
    let a = decimal_text(id.chunk_id as nat);
    let b = decimal_text(id.segment_number as nat);
    lemma_decimal_round_trip(id.chunk_id as nat);
    lemma_decimal_round_trip(id.segment_number as nat);
    assert forall|i: int| 0 <= i < a.len() implies #[trigger] a[i] != UNDERSCORE && a[i] < 128 by {
        assert(crate::text::is_digit(a[i]));
    }
    assert forall|i: int| 0 <= i < b.len() implies #[trigger] b[i] != UNDERSCORE && b[i] < 128 by {
        assert(crate::text::is_digit(b[i]));
    }
    let e = Seq::<u8>::empty();
    lemma_split_fields_extend(e, a, UNDERSCORE);
    assert(e + a =~= a);
    assert(split_fields(a, UNDERSCORE) =~= seq![a]);
    lemma_split_fields_separator(a, UNDERSCORE);
    let s1 = a.push(UNDERSCORE);
    assert(split_fields(s1, UNDERSCORE) =~= seq![a, e]);
    lemma_split_fields_extend(s1, b, UNDERSCORE);
    assert(e + b =~= b);
    assert(s1 + b =~= segment_name(id));
    assert(split_fields(segment_name(id), UNDERSCORE) =~= seq![a, b]);
    let l = segment_name(id);
    assert forall|i: int| 0 <= i < l.len() implies #[trigger] l[i] < 128 by {
        if i > a.len() {
            assert(l[i] == b[i - a.len() - 1]);
        }
    }
}

impl SegmentID {
    /// Reads a segment's identity from the bytes of its file name.
    pub fn parse_bytes(s: &[u8]) -> (r: Option<SegmentID>)
        ensures
            r == segment_from_name(s@),
    {
        let fields = split_on(s, UNDERSCORE);
        let ghost f = split_fields(s@, UNDERSCORE);
        assert(fields@.len() == f.len());
        if fields.len() != 2 {
            return None;
        }
        assert(fields@[0]@ == f[0]);
        assert(fields@[1]@ == f[1]);
        let chunk_id = match parse_u128(fields[0].as_slice()) {
            Some(v) => v,
            None => {
                return None;
            },
        };
        let segment_number = match parse_u64(fields[1].as_slice()) {
            Some(v) => v,
            None => {
                return None;
            },
        };
        Some(SegmentID { chunk_id, segment_number })
    }

    /// Reads a segment's identity from its file name.
    pub fn parse(s: &str) -> (r: Option<SegmentID>)
        ensures
            r == segment_from_name(encode_utf8(s@)),
    {
        SegmentID::parse_bytes(s.as_bytes())
    }

    /// The file name of this segment.
    pub fn to_file_name(&self) -> (r: String)
        ensures
            r@ == ascii_chars(segment_name(*self)),
    {
        let mut out: Vec<u8> = Vec::new();
        write_decimal(self.chunk_id, &mut out);
        out.push(UNDERSCORE);
        write_decimal(self.segment_number as u128, &mut out);
        proof {
            lemma_segment_name_round_trip(*self);
            assert(out@ =~= segment_name(*self));
        }
        ascii_string(out)
    }
}

/// The segment that a directory entry's name stands for.
pub open spec fn name_segment(name: String) -> Option<SegmentID> {
    segment_from_name(encode_utf8(name@))
}

/// The segment numbers of chunk `c` among `names`, in the order of the names.
pub open spec fn chunk_segments(names: Seq<String>, c: u128) -> Seq<u64>
    decreases names.len(),
{
    if names.len() == 0 {
        Seq::empty()
    } else {
        let rest = chunk_segments(names.drop_last(), c);
        let id = name_segment(names.last());
        if id is Some && id->0.chunk_id == c {
            rest.push(id->0.segment_number)
        } else {
            rest
        }
    }
}

/// Some name among `names` is a segment of chunk `c`.
#[verifier::inline]
pub open spec fn has_chunk(names: Seq<String>, c: u128) -> bool {
    chunk_segments(names, c).len() > 0
}

/// No name among `names` is a segment name.
pub open spec fn no_segments(names: Seq<String>) -> bool {
    forall|j: int| 0 <= j < names.len() ==> #[trigger] name_segment(names[j]) is None
}

/// Why the ledger's segments could not be used.
#[derive(Clone, Copy, Debug, PartialEq, Eq)]
pub enum LedgerError {
    /// The directory holds no segment file.
    NoSegments,
    /// The chunk with this id has no segment file.
    ChunkNotFound(u128),
}

proof fn lemma_chunk_segments_step(names: Seq<String>, i: int, c: u128)
    requires
        0 <= i < names.len(),
    ensures
        chunk_segments(names.take(i + 1), c) == ({
            let rest = chunk_segments(names.take(i), c);
            let id = name_segment(names[i]);
            if id is Some && id->0.chunk_id == c {
                rest.push(id->0.segment_number)
            } else {
                rest
            }
        }),
{
    assert(names.take(i + 1).drop_last() =~= names.take(i));
    assert(names.take(i + 1).last() == names[i]);
}

/// Groups the segment files among the names of a directory's entries by
/// chunk, keeping the order of the names; gives also the least and the
/// greatest chunk id met. Names that are not segment names are passed over.
pub fn collect_chunks(names: &[String]) -> (r: Result<(HashMap<u128, Vec<u64>>, u128, u128), LedgerError>)
    ensures
        r is Err <==> no_segments(names@),
        r is Err ==> r == Err::<(HashMap<u128, Vec<u64>>, u128, u128), _>(LedgerError::NoSegments),
        r matches Ok((chunks, min_chunk_id, max_chunk_id)) ==> {
            &&& forall|c: u128| #[trigger] chunks@.contains_key(c) <==> has_chunk(names@, c)
            &&& forall|c: u128| #[trigger] chunks@.contains_key(c) ==> chunks@[c]@ == chunk_segments(names@, c)
            &&& has_chunk(names@, min_chunk_id)
            &&& has_chunk(names@, max_chunk_id)
            &&& forall|c: u128| has_chunk(names@, c) ==> min_chunk_id <= c <= max_chunk_id
        },
{
    let mut chunks: HashMap<u128, Vec<u64>> = HashMap::new();
    let mut found = false;
    let mut min_chunk_id: u128 = u128::MAX;
    let mut max_chunk_id: u128 = 0;
    let mut i: usize = 0;
    while i < names.len()
        invariant
            i <= names@.len(),
            forall|c: u128| #[trigger] chunks@.contains_key(c) <==> has_chunk(names@.take(i as int), c),
            forall|c: u128| #[trigger] chunks@.contains_key(c) ==> chunks@[c]@ == chunk_segments(names@.take(i as int), c),
            !found ==> forall|j: int| 0 <= j < i ==> #[trigger] name_segment(names@[j]) is None,
            found ==> has_chunk(names@.take(i as int), min_chunk_id),
            found ==> has_chunk(names@.take(i as int), max_chunk_id),
            forall|c: u128| has_chunk(names@.take(i as int), c) ==> min_chunk_id <= c <= max_chunk_id,
            forall|c: u128| has_chunk(names@.take(i as int), c) ==> found,
            found ==> exists|j: int| 0 <= j < i && #[trigger] name_segment(names@[j]) is Some,
        decreases names.len() - i,
    {
        let parsed = SegmentID::parse(names[i].as_str());
        proof {
            assert forall|c: u128| true implies #[trigger] chunk_segments(names@.take(i + 1), c) == ({
                let rest = chunk_segments(names@.take(i as int), c);
                let id = name_segment(names@[i as int]);
                if id is Some && id->0.chunk_id == c {
                    rest.push(id->0.segment_number)
                } else {
                    rest
                }
            }) by {
                lemma_chunk_segments_step(names@, i as int, c);
            }
        }
        match parsed {
            Some(id) => {
                let chunk_id = id.chunk_id;
                let segments = match chunks.remove(&chunk_id) {
                    Some(v) => v,
                    None => Vec::new(),
                };
                let mut segments = segments;
                segments.push(id.segment_number);
                chunks.insert(chunk_id, segments);
                if !found || chunk_id > max_chunk_id {
                    max_chunk_id = chunk_id;
                }
                if !found || chunk_id < min_chunk_id {
                    min_chunk_id = chunk_id;
                }
                found = true;
                assert(name_segment(names@[i as int]) is Some);
            },
            None => {},
        }
        i = i + 1;
    }
    assert(names@.take(i as int) =~= names@);
    if !found {
        return Err(LedgerError::NoSegments);
    }
    Ok((chunks, min_chunk_id, max_chunk_id))
}

/// What a ledger source knows: its directory, the segment numbers of each
/// chunk found there, and the least and greatest chunk id.
pub struct LedgerModel {
    pub segment_dir: Seq<char>,
    pub chunks: Map<u128, Seq<u64>>,
    pub min_chunk_id: u128,
    pub max_chunk_id: u128,
}

/// The source of ledger transactions over a directory of segment files, as
/// found when it was made.
pub struct LedgerTxGetter {
    segment_dir: String,
    chunks: HashMap<u128, Vec<u64>>,
    min_chunk_id: u128,
    max_chunk_id: u128,
}

impl View for LedgerTxGetter {
    type V = LedgerModel;

    closed spec fn view(&self) -> LedgerModel {
        LedgerModel {
            segment_dir: self.segment_dir@,
            chunks: self.chunks@.map_values(|v: Vec<u64>| v@),
            min_chunk_id: self.min_chunk_id,
            max_chunk_id: self.max_chunk_id,
        }
    }
}

/// Every chunk has a segment; the least and the greatest chunk id are
/// chunks, and every chunk lies between them.
pub open spec fn ledger_wf(m: LedgerModel) -> bool {
    &&& forall|c: u128| #[trigger] m.chunks.contains_key(c) ==> m.chunks[c].len() > 0
    &&& m.chunks.contains_key(m.min_chunk_id)
    &&& m.chunks.contains_key(m.max_chunk_id)
    &&& forall|c: u128|
        #[trigger] m.chunks.contains_key(c) ==> m.min_chunk_id <= c <= m.max_chunk_id
}

impl LedgerTxGetter {
    #[verifier::type_invariant]
    spec fn inv(&self) -> bool {
        ledger_wf(self@)
    }

    /// A source over the directory `segment_dir`, whose entries' names are
    /// `names`, in the order the directory gave them.
    pub fn new(segment_dir: String, names: &[String]) -> (r: Result<LedgerTxGetter, LedgerError>)
        ensures
            r is Err <==> no_segments(names@),
            r is Err ==> r == Err::<LedgerTxGetter, _>(LedgerError::NoSegments),
            r matches Ok(g) ==> {
                &&& g@.segment_dir == segment_dir@
                &&& forall|c: u128| #[trigger] g@.chunks.contains_key(c) <==> has_chunk(names@, c)
                &&& forall|c: u128|
                    #[trigger] g@.chunks.contains_key(c) ==> g@.chunks[c] == chunk_segments(
                        names@,
                        c,
                    )
                &&& has_chunk(names@, g@.min_chunk_id)
                &&& has_chunk(names@, g@.max_chunk_id)
                &&& forall|c: u128|
                    has_chunk(names@, c) ==> g@.min_chunk_id <= c <= g@.max_chunk_id
                &&& ledger_wf(g@)
            },
    {
        let (chunks, min_chunk_id, max_chunk_id) = match collect_chunks(names) {
            Ok(found) => found,
            Err(e) => {
                return Err(e);
            },
        };
        let g = LedgerTxGetter { segment_dir, chunks, min_chunk_id, max_chunk_id };
        Ok(g)
    }

    /// The directory of the segment files.
    pub fn segment_dir(&self) -> (r: &String)
        ensures
            r@ == self@.segment_dir,
    {
        &self.segment_dir
    }

    /// The segments to read, in order, for the transactions of chunk
    /// `chunk_id`. A chunk without segments is an error when `must_has`
    /// holds, and no result otherwise.
    pub fn segments_to_load(&self, chunk_id: u128, must_has: bool) -> (r: Result<
        Option<Vec<SegmentID>>,
        LedgerError,
    >)
        ensures
            !self@.chunks.contains_key(chunk_id) && must_has ==> r == Err::<
                Option<Vec<SegmentID>>,
                _,
            >(LedgerError::ChunkNotFound(chunk_id)),
            !self@.chunks.contains_key(chunk_id) && !must_has ==> r == Ok::<_, LedgerError>(
                None::<Vec<SegmentID>>,
            ),
            self@.chunks.contains_key(chunk_id) ==> (r matches Ok(Some(v)) && v@.len()
                == self@.chunks[chunk_id].len() && forall|k: int|
                0 <= k < v@.len() ==> #[trigger] v@[k] == (SegmentID {
                    chunk_id,
                    segment_number: self@.chunks[chunk_id][k],
                })),
    {
        let numbers = match self.chunks.get(&chunk_id) {
            Some(v) => v,
            None => {
                if must_has {
                    return Err(LedgerError::ChunkNotFound(chunk_id));
                }
                return Ok(None);
            },
        };
        let mut ids: Vec<SegmentID> = Vec::new();
        let mut k: usize = 0;
        while k < numbers.len()
            invariant
                k <= numbers@.len(),
                ids@.len() == k,
                forall|j: int|
                    0 <= j < k ==> #[trigger] ids@[j] == (SegmentID {
                        chunk_id,
                        segment_number: numbers@[j],
                    }),
            decreases numbers.len() - k,
        {
            ids.push(SegmentID { chunk_id, segment_number: numbers[k] });
            k = k + 1;
        }
        Ok(Some(ids))
    }

    /// The greatest chunk id found.
    pub fn get_max_chunk_id(&self) -> (r: u128)
        ensures
            r == self@.max_chunk_id,
            self@.chunks.contains_key(r),
            forall|c: u128| #[trigger] self@.chunks.contains_key(c) ==> c <= r,
    {
        proof {
            use_type_invariant(self);
        }
        self.max_chunk_id
    }

    /// The least chunk id found.
    pub fn get_min_chunk_id(&self) -> (r: u128)
        ensures
            r == self@.min_chunk_id,
            self@.chunks.contains_key(r),
            forall|c: u128| #[trigger] self@.chunks.contains_key(c) ==> r <= c,
    {
        proof {
            use_type_invariant(self);
        }
        self.min_chunk_id
    }
}

} // verus!
