//! The report: the records ranked by one figure, each written as a row.

use vstd::prelude::*;
use crate::decimal::{decimal_digits, hundredths_text, push_decimal, push_hundredths,
    round_half_even, rounded_quotient};
use crate::filter::Filter;
use crate::mebibytes::{mebibytes_text, push_mebibytes, Mebibytes};
use crate::rank::{is_ranking, key_values, lemma_ranking_of_equal_keys, positions, rank_keys,
    ranking};
use crate::record::{ResouceRequests, ResourceStatus, RowText};

verus! {

/// The share of `value` in `total` as a percentage with two decimals.
///
/// A total of zero has no share: the text is then `NaN` for a value of zero
/// and `inf` for any other.
pub open spec fn percent_text(value: nat, total: nat) -> Seq<char> {
    if total == 0 {
        if value == 0 {
            seq!['N', 'a', 'N']
        } else {
            seq!['i', 'n', 'f']
        }
    } else {
        hundredths_text(rounded_quotient(value * 10000, total))
    }
}

/// An amount, its unit, and in brackets its share in `total`.
pub open spec fn with_percent(amount: Seq<char>, unit: Seq<char>, value: nat, total: nat) -> Seq<
    char,
> {
    amount + unit + seq![' ', '('] + percent_text(value, total) + seq!['%', ')']
}

/// The text of a CPU figure: milli-cores and their share in `total`.
pub open spec fn cpu_text(value: nat, total: nat) -> Seq<char> {
    with_percent(decimal_digits(value), seq!['m'], value, total)
}

/// The text of a requested amount: the shortest decimal of the mebibytes and
/// their share in `total`.
pub open spec fn requests_text(value: nat, total: nat) -> Seq<char> {
    with_percent(mebibytes_text(value), seq!['M', 'i'], value, total)
}

/// The text of an amount in use: the mebibytes rounded to two decimals and
/// their share in `total`.
pub open spec fn usage_text(value: nat, total: nat) -> Seq<char> {
    with_percent(hundredths_text(rounded_quotient(value, 10000)), seq!['M', 'i'], value, total)
}

/// The text of the pods figure: the pods in use and the pods there can be.
pub open spec fn pods_text(used: nat, total: nat) -> Seq<char> {
    decimal_digits(used) + seq![' ', '/', ' '] + decimal_digits(total)
}

/// The row that reports `record`.
pub open spec fn row_text(record: ResouceRequests) -> RowText {
    RowText {
        name: record.name@,
        cpu_requests: cpu_text(record.cpu_requests as nat, record.cpu_total as nat),
        cpu_usage: cpu_text(record.cpu_usage as nat, record.cpu_total as nat),
        mem_requests: requests_text(
            record.mem_requests.micros as nat,
            record.mem_total.micros as nat,
        ),
        mem_usage: usage_text(record.mem_usage.micros as nat, record.mem_total.micros as nat),
        storage_requests: requests_text(
            record.storage_requests.micros as nat,
            record.storage_total.micros as nat,
        ),
        pods: pods_text(record.pods as nat, record.pods_total as nat),
    }
}

/// The figure of `record` that `sort_by` ranks by; zero where it ranks by none.
pub open spec fn sort_key(record: ResouceRequests, sort_by: Filter) -> int {
    match sort_by {
        Filter::Cpu => record.cpu_requests as int,
        Filter::Mem => record.mem_requests.micros as int,
        Filter::Storage => record.storage_requests.micros as int,
        Filter::Pods => record.pods as int,
        Filter::Unsorted => 0,
    }
}

/// The figures of `records` that `sort_by` ranks by.
pub open spec fn sort_keys(records: Seq<ResouceRequests>, sort_by: Filter) -> Seq<int> {
    Seq::new(records.len(), |i: int| sort_key(records[i], sort_by))
}

/// The records in the order of the report: by the figure that `sort_by` names,
/// largest first, records with equal figures in the order they stand in.
pub open spec fn ranked(records: Seq<ResouceRequests>, sort_by: Filter) -> Seq<ResouceRequests> {
    let order = ranking(sort_keys(records, sort_by));
    Seq::new(records.len(), |i: int| records[order[i]])
}

/// Appends the share of `value` in `total` as a percentage.
pub fn push_percent(out: &mut String, value: u64, total: u64)
    ensures
        final(out)@ == old(out)@ + percent_text(value as nat, total as nat),
{
    if total == 0 {
        if value == 0 {
            out.append("NaN");
        } else {
            out.append("inf");
        }
        proof {
            reveal_strlit("NaN");
            reveal_strlit("inf");
            assert("NaN"@ =~= seq!['N', 'a', 'N']);
            assert("inf"@ =~= seq!['i', 'n', 'f']);
        }
    } else {
        let scaled: u128 = (value as u128) * 10000;
        push_hundredths(out, round_half_even(scaled, total as u128));
    }
}

/// Appends a unit and, in brackets, the share of `value` in `total`.
fn push_share(out: &mut String, unit: &str, value: u64, total: u64)
    ensures
        final(out)@ == with_percent(old(out)@, unit@, value as nat, total as nat),
{
    out.append(unit);
    out.append(" (");
    push_percent(out, value, total);
    out.append("%)");
    proof {
        reveal_strlit(" (");
        reveal_strlit("%)");
        assert(" ("@ =~= seq![' ', '(']);
        assert("%)"@ =~= seq!['%', ')']);
        assert(out@ =~= with_percent(old(out)@, unit@, value as nat, total as nat));
    }
}

/// The text of a CPU figure.
pub fn cpu_field(value: u32, total: u32) -> (text: String)
    ensures
        text@ == cpu_text(value as nat, total as nat),
{
    let mut text: String = String::new();
    push_decimal(&mut text, value as u128);
    proof {
        reveal_strlit("m");
        assert("m"@ =~= seq!['m']);
        assert(text@ =~= decimal_digits(value as nat));
    }
    push_share(&mut text, "m", value as u64, total as u64);
    text
}

/// The text of a requested amount of memory or storage.
pub fn requests_field(value: Mebibytes, total: Mebibytes) -> (text: String)
    ensures
        text@ == requests_text(value.micros as nat, total.micros as nat),
{
    let mut text: String = String::new();
    push_mebibytes(&mut text, value);
    proof {
        reveal_strlit("Mi");
        assert("Mi"@ =~= seq!['M', 'i']);
        assert(text@ =~= mebibytes_text(value.micros as nat));
    }
    push_share(&mut text, "Mi", value.micros, total.micros);
    text
}

/// The text of an amount of memory in use.
pub fn usage_field(value: Mebibytes, total: Mebibytes) -> (text: String)
    ensures
        text@ == usage_text(value.micros as nat, total.micros as nat),
{
    let mut text: String = String::new();
    push_hundredths(&mut text, round_half_even(value.micros as u128, 10000));
    proof {
        reveal_strlit("Mi");
        assert("Mi"@ =~= seq!['M', 'i']);
        assert(text@ =~= hundredths_text(rounded_quotient(value.micros as nat, 10000)));
    }
    push_share(&mut text, "Mi", value.micros, total.micros);
    text
}

/// The text of the pods figure.
pub fn pods_field(used: usize, total: usize) -> (text: String)
    ensures
        text@ == pods_text(used as nat, total as nat),
{
    let mut text: String = String::new();
    push_decimal(&mut text, used as u128);
    text.append(" / ");
    push_decimal(&mut text, total as u128);
    proof {
        reveal_strlit(" / ");
        assert(" / "@ =~= seq![' ', '/', ' ']);
        assert(text@ =~= pods_text(used as nat, total as nat));
    }
    text
}

/// Writes the row that reports `record`.
pub fn report_row(record: &ResouceRequests) -> (row: ResourceStatus)
    ensures
        row@ == row_text(*record),
{
    ResourceStatus::new(
        record.name.clone(),
        cpu_field(record.cpu_requests, record.cpu_total),
        cpu_field(record.cpu_usage, record.cpu_total),
        requests_field(record.mem_requests, record.mem_total),
        usage_field(record.mem_usage, record.mem_total),
        requests_field(record.storage_requests, record.storage_total),
        pods_field(record.pods, record.pods_total),
    )
}

/// The figure of `record` that `sort_by` ranks by.
fn key_of(record: &ResouceRequests, sort_by: Filter) -> (key: u64)
    ensures
        key as int == sort_key(*record, sort_by),
{
    match sort_by {
        Filter::Cpu => record.cpu_requests as u64,
        Filter::Mem => record.mem_requests.micros,
        Filter::Storage => record.storage_requests.micros,
        Filter::Pods => record.pods as u64,
        Filter::Unsorted => 0,
    }
}

/// Ranks the records by the figure that `sort_by` names: the positions of the
/// records, largest figure first, equal figures in the order they stand in.
pub fn rank(rrs: &Vec<ResouceRequests>, sort_by: Filter) -> (order: Vec<usize>)
    ensures
        is_ranking(sort_keys(rrs@, sort_by), positions(order@)),
        positions(order@) == ranking(sort_keys(rrs@, sort_by)),
{
    let mut keys: Vec<u64> = Vec::new();
    let mut i: usize = 0;
    while i < rrs.len()
        invariant
            i <= rrs.len(),
            keys.len() == i,
            forall|k: int| 0 <= k < i ==> keys@[k] as int == sort_key(rrs@[k], sort_by),
        decreases rrs.len() - i,
    {
        keys.push(key_of(&rrs[i], sort_by));
        i += 1;
    }
    assert(key_values(keys@) =~= sort_keys(rrs@, sort_by));
    rank_keys(&keys)
}

/// Builds the report: one row for each record, ranked by the figure that
/// `sort_by` names, or in the order of the records where it names none.
pub fn parse_resource_data(rrs: Vec<ResouceRequests>, sort_by: Filter) -> (rows: Vec<
    ResourceStatus,
>)
    ensures
        rows@.len() == rrs@.len(),
        forall|i: int|
            0 <= i < rows@.len() ==> (#[trigger] rows@[i])@ == row_text(ranked(rrs@, sort_by)[i]),
        sort_by == Filter::Unsorted ==> forall|i: int|
            0 <= i < rows@.len() ==> (#[trigger] rows@[i])@ == row_text(rrs@[i]),
{
    let order: Vec<usize> = rank(&rrs, sort_by);
    let ghost places = positions(order@);
    let mut rows: Vec<ResourceStatus> = Vec::new();
    let mut i: usize = 0;
    while i < order.len()
        invariant
            i <= order.len(),
            order.len() == rrs.len(),
            rows.len() == i,
            places == positions(order@),
            is_ranking(sort_keys(rrs@, sort_by), places),
            forall|k: int| 0 <= k < i ==> (#[trigger] rows@[k])@ == row_text(rrs@[places[k]]),
        decreases order.len() - i,
    {
        assert(0 <= places[i as int] < rrs.len());
        rows.push(report_row(&rrs[order[i]]));
        i += 1;
    }
    proof {
        if sort_by == Filter::Unsorted {
            lemma_ranking_of_equal_keys(sort_keys(rrs@, sort_by));
        }
    }
    rows
}

} // verus!
