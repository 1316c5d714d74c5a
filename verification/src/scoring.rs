//! What is read of a segment to score a document: counts, term frequencies,
//! and the terms of a selector that a document has. The scores themselves are
//! worked out by the caller.

use crate::encoding::{i64_of_be, read_i64_be};
use crate::key::{StatisticKey, ValueKind};
use crate::query::multi_term_selector::MultiTermSelector;
use crate::schema::FieldId;
use crate::search::{context_of, SearchContext};
use crate::segment::{posting_in, Segment, statistic_in, stored_value_key};
use crate::term::{Term, TermId};
use crate::term_dictionary::TermDictionary;
use crate::write_batch::stored;
use vstd::prelude::*;

verus! {

/// The count that a statistic stands for: the statistic, and zero where there
/// is none or it is below zero.
pub open spec fn count_of(statistic: Option<i64>) -> u64 {
    match statistic {
        Some(count) => if count > 0 {
            count as u64
        } else {
            0
        },
        None => 0,
    }
}

/// Reads a count of a segment. A statistic that the segment does not have, or
/// that is below zero, counts as zero. Fails only where the segment fails to
/// load.
pub fn load_count<S: Segment>(segment: &S, statistic: &StatisticKey) -> (count: Result<u64, String>)
    ensures
        segment.reliable() ==> count is Ok,
        count matches Ok(count) ==> count == count_of(
            statistic_in(segment.entries(), segment.segment_id(), statistic.encoding()),
        ),
{
    let name = statistic.to_bytes();
    match segment.load_statistic(name.as_slice()) {
        Ok(Some(count)) => {
            if count > 0 {
                Ok(count as u64)
            } else {
                Ok(0)
            }
        },
        Ok(None) => Ok(0),
        Err(error) => Err(error),
    }
}

/// How often a document has a term in a field, as the value kept for it says:
/// the number of eight bytes that is kept, where it is a number of tokens; and
/// once where nothing is kept, since the frequency of one is not kept.
pub open spec fn frequency_of(kept: Option<Seq<u8>>) -> u32 {
    match kept {
        Some(bytes) => if bytes.len() == 8 && 1 <= i64_of_be(bytes) <= 0xffff_ffff {
            i64_of_be(bytes) as u32
        } else {
            1
        },
        None => 1,
    }
}

/// The frequency that kept bytes stand for; see `frequency_of`.
pub fn read_frequency(kept: Option<&[u8]>) -> (frequency: u32)
    ensures
        frequency == frequency_of(crate::merge_operator::optional_bytes(kept)),
{
    match kept {
        Some(bytes) => {
            if bytes.len() == 8 {
                let number = read_i64_be(bytes);
                if 1 <= number && number <= 0xffff_ffff {
                    number as u32
                } else {
                    1
                }
            } else {
                1
            }
        },
        None => 1,
    }
}

/// Reads how often the document at an ordinal has a term in a field. Fails
/// only where the segment fails to load.
pub fn load_term_frequency<S: Segment>(segment: &S, ord: u16, field: FieldId, term: TermId) -> (frequency:
    Result<u32, String>)
    ensures
        segment.reliable() ==> frequency is Ok,
        frequency matches Ok(frequency) ==> frequency == frequency_of(
            stored(
                segment.entries(),
                stored_value_key(
                    segment.segment_id(),
                    ord,
                    field,
                    ValueKind::TermFrequency(term).encoding(),
                ),
            ),
        ),
{
    let kind = ValueKind::TermFrequency(term).to_bytes();
    match segment.load_stored_field_value_raw(ord, field, kind.as_slice()) {
        Ok(Some(bytes)) => Ok(read_frequency(Some(bytes.as_slice()))),
        Ok(None) => Ok(read_frequency(None)),
        Err(error) => Err(error),
    }
}

/// The ids of those of the first `n` terms of the index that the selector
/// chooses and that the document at the ordinal has in the field, in the
/// order of the terms.
pub open spec fn chosen_terms(
    context: SearchContext,
    field: FieldId,
    selector: MultiTermSelector,
    ord: u16,
    n: int,
) -> Seq<TermId>
    decreases n,
{
    if n <= 0 {
        Seq::empty()
    } else {
        let before = chosen_terms(context, field, selector, ord, n - 1);
        if selector.selects(context.terms[n - 1].0) && posting_in(
            context.entries,
            context.segment,
            field,
            context.terms[n - 1].1,
        ).contains(ord) {
            before.push(context.terms[n - 1].1)
        } else {
            before
        }
    }
}

/// The ids of the terms that a selector chooses and that the document at an
/// ordinal has in a field: the terms whose scores make up the score of the
/// document for the selector. Fails only where the segment fails to load.
pub fn selected_terms_of<S: Segment>(
    segment: &S,
    dictionary: &TermDictionary,
    field: FieldId,
    selector: &MultiTermSelector,
    ord: u16,
) -> (terms: Result<Vec<TermId>, String>)
    ensures
        segment.reliable() ==> terms is Ok,
        terms matches Ok(terms) ==> terms@ == chosen_terms(
            context_of(segment, dictionary),
            field,
            *selector,
            ord,
            dictionary.entries().len() as int,
        ),
{
    let ghost context = context_of(segment, dictionary);
    let mut chosen: Vec<TermId> = Vec::new();
    let mut i: usize = 0;
    while i < dictionary.len()
        invariant
            i <= context.terms.len(),
            context == context_of(segment, dictionary),
            chosen@ == chosen_terms(context, field, *selector, ord, i as int),
        decreases context.terms.len() - i,
    {
        let entry = dictionary.entry(i);
        let term = Term::from_bytes(entry.0.as_slice());
        if selector.matches(&term) {
            match segment.load_term_directory(field, entry.1) {
                Ok(Some(set)) => {
                    if set.contains_doc(ord) {
                        chosen.push(entry.1);
                    }
                },
                Ok(None) => {},
                Err(error) => {
                    return Err(error);
                },
            }
        }
        i += 1;
    }
    Ok(chosen)
}

} // verus!
