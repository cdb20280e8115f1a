//! Reading one observation out of a line of text.
//!
//! A line holds fields separated by commas. Each field is read on its own
//! as a number, which may fail; the observation is made of the first two
//! fields that could be read. This module decides where the fields lie and
//! which of the numbers read form the pair. Turning the text of a field
//! into a number is left to the caller.

use vstd::prelude::*;

verus! {

/// The byte that separates two fields.
pub const SEPARATOR: u8 = 44;

/// `fields` are the stretches of `line` between its separators, in order:
/// the first starts at the beginning, the last ends at the end, each one
/// ends just before a separator which the next one follows, and none holds
/// a separator.
pub open spec fn splits_at_separators(line: Seq<u8>, fields: Seq<(usize, usize)>) -> bool {
    &&& fields.len() >= 1
    &&& fields[0].0 == 0
    &&& fields.last().1 == line.len()
    &&& forall|k: int|
        0 <= k < fields.len() ==> (#[trigger] fields[k]).0 <= fields[k].1 <= line.len()
    &&& forall|k: int, i: int|
        #![trigger fields[k], line[i]]
        0 <= k < fields.len() && fields[k].0 <= i < fields[k].1 ==> line[i] != SEPARATOR
    &&& forall|k: int|
        0 <= k < fields.len() - 1 ==> line[(#[trigger] fields[k]).1 as int] == SEPARATOR
            && fields[k + 1].0 == fields[k].1 + 1
}

/// Splits a line at every separator and returns where each field starts and
/// where it ends (the end is exclusive). A line without a separator is one
/// field; an empty line is one empty field.
pub fn split_fields(line: &[u8]) -> (fields: Vec<(usize, usize)>)
    ensures
        splits_at_separators(line@, fields@),
{
    let mut fields: Vec<(usize, usize)> = Vec::new();
    let mut start: usize = 0;
    let mut i: usize = 0;
    while i < line.len()
        invariant
            start <= i <= line.len(),
            forall|j: int| start <= j < i ==> line@[j] != SEPARATOR,
            fields.len() == 0 ==> start == 0,
            fields.len() > 0 ==> fields@[0].0 == 0 && fields@.last().1 + 1 == start
                && line@[fields@.last().1 as int] == SEPARATOR,
            forall|k: int|
                0 <= k < fields.len() ==> (#[trigger] fields@[k]).0 <= fields@[k].1 < line.len(),
            forall|k: int, j: int|
                #![trigger fields@[k], line@[j]]
                0 <= k < fields.len() && fields@[k].0 <= j < fields@[k].1 ==> line@[j]
                    != SEPARATOR,
            forall|k: int|
                0 <= k < fields.len() - 1 ==> line@[(#[trigger] fields@[k]).1 as int]
                    == SEPARATOR && fields@[k + 1].0 == fields@[k].1 + 1,
        decreases line.len() - i,
    {
        if line[i] == SEPARATOR {
            fields.push((start, i));
            start = i + 1;
        }
        i = i + 1;
    }
    fields.push((start, i));
    fields
}

/// The values that are present in `s`, in their order.
pub open spec fn present<T>(s: Seq<Option<T>>) -> Seq<T>
    decreases s.len(),
{
    if s.len() == 0 {
        Seq::empty()
    } else {
        match s.last() {
            Some(v) => present(s.drop_last()).push(v),
            None => present(s.drop_last()),
        }
    }
}

/// The values present in a prefix of `s` are the first of those present in
/// `s`.
proof fn lemma_present_prefix<T>(s: Seq<Option<T>>, n: int)
    requires
        0 <= n <= s.len(),
    ensures
        present(s.take(n)).len() <= present(s).len(),
        forall|k: int|
            0 <= k < present(s.take(n)).len() ==> present(s.take(n))[k] == present(s)[k],
    decreases s.len(),
{
    if n == s.len() {
        assert(s.take(n) =~= s);
    } else {
        assert(s.drop_last().take(n) =~= s.take(n));
        lemma_present_prefix(s.drop_last(), n);
    }
}

/// The observation that a line yields: the first two values that could be
/// read from its fields, or nothing where fewer than two could be read.
/// `values` holds one entry for each field, in order.
pub fn leading_pair<T: Copy>(values: &[Option<T>]) -> (pair: Option<(T, T)>)
    ensures
        pair == if present(values@).len() >= 2 {
            Some((present(values@)[0], present(values@)[1]))
        } else {
            None
        },
{
    let mut first: Option<T> = None;
    let mut i: usize = 0;
    while i < values.len()
        invariant
            i <= values.len(),
            match first {
                Some(x) => present(values@.take(i as int)) == seq![x],
                None => present(values@.take(i as int)).len() == 0,
            },
        decreases values.len() - i,
    {
        proof {
            assert(values@.take(i + 1).drop_last() =~= values@.take(i as int));
        }
        if let Some(v) = values[i] {
            if let Some(x) = first {
                proof {
                    lemma_present_prefix(values@, i + 1);
                }
                return Some((x, v));
            }
            first = Some(v);
        }
        i = i + 1;
    }
    proof {
        assert(values@.take(i as int) =~= values@);
    }
    None
}

} // verus!
