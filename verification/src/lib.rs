//! Normalisation of cluster resource quantities and the ranked, percentage
//! annotated report that is built from them.
//!
//! CPU amounts are held in milli-cores. A quantity of memory or storage is
//! read as a [`Capacity`], the exact amount that its numeral and unit stand
//! for. A record holds such amounts as [`Mebibytes`], a count of whole
//! millionths of a mebibyte, and every figure of the report is computed from
//! them in integer arithmetic.

pub mod capacity;
pub mod cpu;
pub mod decimal;
pub mod filter;
pub mod mebibytes;
pub mod numeral;
pub mod rank;
pub mod record;
pub mod report;
pub mod text;

pub use capacity::{capacity_amount, capacity_numeral, capacity_quantity, capacity_quantity_text,
    capacity_unit, lemma_amount_order, lemma_capacity_round_trip, parse_capacity_requests,
    Amount, Capacity, CapacityUnit, POWER_CAP};
pub use cpu::{cpu_millis, cpu_quantity, cpu_quantity_text, lemma_cpu_round_trip,
    parse_cpu_requests, scaled_natural, strip_points};
pub use decimal::{decimal_digits, digit_char, hundredths_text, lemma_decimal_digits,
    lemma_decimal_digits_len, lemma_digit_char, push_decimal, push_hundredths, round_half_even,
    rounded_quotient};
pub use filter::{filter_of, invalid_filter_message, ConfigError, Filter};
pub use mebibytes::{fraction_text, lemma_fraction_text, lemma_padded_digits, mebibytes_text,
    padded_digits, push_mebibytes, Mebibytes, MICROS_PER_MEBIBYTE};
pub use numeral::{all_digits, decimal_mantissa, digit_of, digit_value, digits_value,
    fraction_part, integer, is_decimal, is_digit, is_mark, mark_index, natural, number,
    point_index, pow10, power, significand, unsigned, whole_part, ParseError};
pub use rank::{is_ranking, key_values, lemma_extend_ranking, lemma_ranking_exists,
    lemma_ranking_of_equal_keys, lemma_ranking_unique, positions, precedes, rank_keys, ranking};
pub use record::{add_data, ResouceRequests, ResourceStatus, RowText};
pub use report::{cpu_field, cpu_text, parse_resource_data, percent_text, pods_field, pods_text,
    push_percent, rank, ranked, report_row, requests_field, requests_text, row_text, sort_key,
    sort_keys, usage_field, usage_text, with_percent};
pub use text::{chars_of, ends_with, is_space, is_whitespace, trim, trim_end, trim_start};
