//! The results that the reader tasks hand over, and the order in which they
//! are taken up.
//!
//! Reads finish in any order. Each result carries the position of its path
//! in the list of paths, and the results of a batch are taken up by position.

use vstd::prelude::*;
use vstd::set_lib::{lemma_int_range, lemma_subset_equality, set_int_range};
use vstd::utf8::{decode_utf8, valid_utf8};

verus! {

/// Why the text of a file could not be had.
#[derive(Debug, PartialEq, Eq)]
pub enum ReadFailure {
    /// The file is missing, cannot be opened or cannot be read to its end.
    /// The text says why.
    Unreadable(String),
    /// The bytes of the file are not valid UTF-8.
    InvalidEncoding,
}

/// What reading one file gave: its text or the reason why there is none,
/// together with the position of the file's path in the list of paths.
#[derive(Debug, PartialEq, Eq)]
pub struct ReadResult {
    /// The position of the path in the list of paths, counted from 0.
    pub index: usize,
    /// The text of the file, or why it could not be had.
    pub outcome: Result<String, ReadFailure>,
}

/// Why a run produced no output.
#[derive(Debug, PartialEq, Eq)]
pub enum CatError {
    /// The file at position `index` could not be read.
    Read { index: usize, reason: String },
    /// The file at position `index` does not hold valid UTF-8.
    Encoding { index: usize },
    /// The results handed over are not those of the files asked for: one is
    /// missing, comes twice, or belongs to no path of the batch.
    Concurrency,
}

impl ReadResult {
    /// The result of a read that delivered `bytes`: their text where they
    /// are valid UTF-8, the failure `InvalidEncoding` where they are not.
    pub fn from_bytes(index: usize, bytes: Vec<u8>) -> (result: ReadResult)
        ensures
            result.index == index,
            valid_utf8(bytes@) ==> (result.outcome matches Ok(text) && text@ == decode_utf8(
                bytes@,
            )),
            !valid_utf8(bytes@) ==> result.outcome == Err::<String, ReadFailure>(
                ReadFailure::InvalidEncoding,
            ),
    {
        match String::from_utf8(bytes) {
            Ok(text) => {
                proof {
                    vstd::utf8::encode_utf8_decode_utf8(text@);
                }
                ReadResult { index, outcome: Ok(text) }
            },
            Err(_) => ReadResult { index, outcome: Err(ReadFailure::InvalidEncoding) },
        }
    }
}

/// Holds where `results` are the results of the files at the positions from
/// `start` up to, not including, `end`: one for each position, in any order.
pub open spec fn tags_each_once(results: Seq<ReadResult>, start: int, end: int) -> bool {
    &&& results.len() == end - start
    &&& forall|k: int| 0 <= k < results.len() ==> start <= (#[trigger] results[k]).index < end
    &&& forall|j: int, k: int|
        0 <= j < k < results.len() ==> (#[trigger] results[j]).index != (
        #[trigger] results[k]).index
}

/// Where in `results` the result of the file at position `pos` stands.
pub open spec fn arrival_of(results: Seq<ReadResult>, pos: int) -> int {
    choose|k: int| 0 <= k < results.len() && (#[trigger] results[k]).index == pos
}

/// The positions that `results` carry, in the order of `results`.
pub open spec fn positions_of(results: Seq<ReadResult>) -> Seq<int> {
    Seq::new(results.len(), |k: int| results[k].index as int)
}

/// Where each position from `start` up to `end` is tagged once, each one has
/// a result, and only one.
pub proof fn lemma_every_position_has_one_result(
    results: Seq<ReadResult>,
    start: int,
    end: int,
    pos: int,
)
    requires
        tags_each_once(results, start, end),
        start <= pos < end,
    ensures
        0 <= arrival_of(results, pos) < results.len(),
        results[arrival_of(results, pos)].index == pos,
        forall|k: int|
            0 <= k < results.len() && (#[trigger] results[k]).index == pos ==> k == arrival_of(
                results,
                pos,
            ),
{
    let positions = positions_of(results);
    let range = set_int_range(start, end);
    assert(positions.no_duplicates()) by {
        assert forall|i: int, j: int|
            0 <= i < positions.len() && 0 <= j < positions.len() && i != j implies positions[i]
            != positions[j] by {
            if i < j {
                assert(results[i].index != results[j].index);
            } else {
                assert(results[j].index != results[i].index);
            }
        }
    }
    positions.unique_seq_to_set();
    lemma_int_range(start, end);
    assert(positions.to_set().subset_of(range)) by {
        assert forall|p: int| positions.to_set().contains(p) implies range.contains(p) by {
            let k = choose|k: int| 0 <= k < positions.len() && positions[k] == p;
            assert(start <= results[k].index < end);
        }
    }
    lemma_subset_equality(positions.to_set(), range);
    assert(positions.to_set().contains(pos));
    let k = choose|k: int| 0 <= k < positions.len() && positions[k] == pos;
    assert(results[k].index == pos);
    let a = arrival_of(results, pos);
    assert forall|j: int| 0 <= j < results.len() && (#[trigger] results[j]).index == pos implies j
        == a by {
        if j < a {
            assert(results[j].index != results[a].index);
        } else if a < j {
            assert(results[a].index != results[j].index);
        }
    }
}

/// Works out in which order to take up `results` so that they come by
/// position: entry `i` of the order is where in `results` the result of the
/// file at position `start + i` stands. There is no such order, and `None`
/// is returned, unless each position from `start` up to `end` is tagged
/// exactly once.
pub fn arrival_order(results: &Vec<ReadResult>, start: usize, end: usize) -> (order: Option<
    Vec<usize>,
>)
    ensures
        order is Some <==> tags_each_once(results@, start as int, end as int),
        order matches Some(o) ==> {
            &&& o@.len() == end - start
            &&& forall|i: int|
                0 <= i < o@.len() ==> #[trigger] o@[i] == arrival_of(results@, start + i)
        },
{
    if start > end {
        return None;
    }
    let n: usize = end - start;
    if results.len() != n {
        return None;
    }
    let mut order: Vec<usize> = Vec::new();
    let mut i: usize = 0;
    while i < n
        invariant
            i <= n,
            order@.len() == i,
            forall|k: int| 0 <= k < i ==> order@[k] == n,
        decreases n - i,
    {
        order.push(n);
        i = i + 1;
    }
    let mut j: usize = 0;
    while j < n
        invariant
            j <= n,
            n == end - start,
            results@.len() == n,
            order@.len() == n,
            forall|k: int|
                0 <= k < n ==> (#[trigger] order@[k]) == n || (order@[k] < j
                    && results@[order@[k] as int].index == start + k),
            forall|a: int|
                0 <= a < j ==> start <= (#[trigger] results@[a]).index < end && order@[results@[a].index
                    - start] == a,
        decreases n - j,
    {
        let index = results[j].index;
        if index < start || index >= end {
            return None;
        }
        let slot: usize = index - start;
        if order[slot] != n {
            proof {
                let earlier = order@[slot as int] as int;
                assert(results@[earlier].index == results@[j as int].index);
            }
            return None;
        }
        order.set(slot, j);
        j = j + 1;
    }
    proof {
        assert(tags_each_once(results@, start as int, end as int)) by {
            assert forall|a: int, b: int| 0 <= a < b < results@.len() implies (
            #[trigger] results@[a]).index != (#[trigger] results@[b]).index by {
                if results@[a].index == results@[b].index {
                    assert(order@[results@[a].index - start] == a);
                    assert(order@[results@[b].index - start] == b);
                }
            }
        }
        assert forall|i: int| 0 <= i < order@.len() implies #[trigger] order@[i] == arrival_of(
            results@,
            start + i,
        ) by {
            lemma_every_position_has_one_result(results@, start as int, end as int, start + i);
            let a = arrival_of(results@, start + i);
            assert(order@[results@[a].index - start] == a);
        }
    }
    Some(order)
}

} // verus!
