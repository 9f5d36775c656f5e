//! Shared H3/S2 helper contracts for sparse spatial features: ID normalization,
//! level validation, scaffold hierarchy expansion, and sparse row sorting and
//! deduplication.
use vstd::prelude::*;
use crate::error::{invalid_input, outcome, CartoBoostError, Result};
use crate::order::{insert_sorted_unique, sort_dedup, strictly_increasing};
use crate::text::{decimal, decimal_text, join3, trim_str, trimmed};

verus! {

/// Supported sparse spatial grid families.
#[derive(Clone, Copy, Debug, PartialEq, Eq, Structural)]
pub enum GeoGridKind {
    H3,
    S2,
}

/// Largest valid level of a grid family: H3 resolutions run to 15, S2 levels to 30.
pub open spec fn spec_max_level(kind: GeoGridKind) -> int {
    match kind {
        GeoGridKind::H3 => 15,
        GeoGridKind::S2 => 30,
    }
}

impl GeoGridKind {
    fn max_level(self) -> (level: i64)
        ensures
            level == spec_max_level(self),
    {
        match self {
            GeoGridKind::H3 => 15,
            GeoGridKind::S2 => 30,
        }
    }
}

/// Value of `c` as a digit in bases up to 36; 36 for characters that are no digit.
pub open spec fn digit_value(c: char) -> int {
    if '0' <= c && c <= '9' {
        (c as int) - ('0' as int)
    } else if 'a' <= c && c <= 'z' {
        (c as int) - ('a' as int) + 10
    } else if 'A' <= c && c <= 'Z' {
        (c as int) - ('A' as int) + 10
    } else {
        36
    }
}

/// Every character of `s` is a digit of base `radix`.
pub open spec fn all_radix_digits(s: Seq<char>, radix: int) -> bool {
    forall|i: int| 0 <= i < s.len() ==> digit_value(#[trigger] s[i]) < radix
}

/// Numeric value of the digit string `s` in base `radix`.
pub open spec fn digits_value(s: Seq<char>, radix: int) -> int
    decreases s.len(),
{
    if s.len() == 0 {
        0
    } else {
        digits_value(s.drop_last(), radix) * radix + digit_value(s.last())
    }
}

/// The digits of an unsigned integer text: one leading `+` is allowed and dropped.
pub open spec fn unsigned_digits(s: Seq<char>) -> Seq<char> {
    if s.len() > 0 && s[0] == '+' {
        s.drop_first()
    } else {
        s
    }
}

/// The `u64` that `s` denotes in base `radix` (`u64::from_str_radix` grammar), if any.
pub open spec fn parse_u64_radix(s: Seq<char>, radix: int) -> Option<u64> {
    let digits = unsigned_digits(s);
    if digits.len() > 0 && all_radix_digits(digits, radix) && digits_value(digits, radix)
        <= u64::MAX {
        Some(digits_value(digits, radix) as u64)
    } else {
        None
    }
}

/// Outcome of parsing an ID text in base `radix`, failing with `message`.
pub open spec fn radix_outcome(s: Seq<char>, radix: int, message: Seq<char>) -> core::result::Result<
    u64,
    Seq<char>,
> {
    match parse_u64_radix(s, radix) {
        Some(value) => Ok(value),
        None => Err(message),
    }
}

/// `s` starts with `0x` or `0X`.
pub open spec fn has_hex_prefix(s: Seq<char>) -> bool {
    s.len() >= 2 && s[0] == '0' && (s[1] == 'x' || s[1] == 'X')
}

/// Every character of `s` is an ASCII decimal digit.
pub open spec fn all_ascii_digits(s: Seq<char>) -> bool {
    forall|i: int| 0 <= i < s.len() ==> '0' <= #[trigger] s[i] && s[i] <= '9'
}

pub open spec fn h3_format_message() -> Seq<char> {
    "H3 IDs must be decimal or hexadecimal integer strings"@
}

pub open spec fn s2_format_message() -> Seq<char> {
    "S2 IDs must be decimal or 0x-prefixed integer strings"@
}

/// What an already trimmed H3 ID text normalizes to.
pub open spec fn h3_id_outcome(t: Seq<char>) -> core::result::Result<u64, Seq<char>> {
    if t.len() == 0 {
        Err("H3 IDs must not be empty"@)
    } else if t[0] == '-' {
        Err("H3 IDs must be non-negative"@)
    } else if has_hex_prefix(t) {
        radix_outcome(t.skip(2), 16, h3_format_message())
    } else if all_ascii_digits(t) {
        radix_outcome(t, 10, h3_format_message())
    } else {
        radix_outcome(t, 16, h3_format_message())
    }
}

/// What an already trimmed S2 ID text normalizes to.
pub open spec fn s2_id_outcome(t: Seq<char>) -> core::result::Result<u64, Seq<char>> {
    if t.len() == 0 {
        Err("S2 IDs must not be empty"@)
    } else if t[0] == '-' {
        Err("S2 IDs must be non-negative"@)
    } else if has_hex_prefix(t) {
        radix_outcome(t.skip(2), 16, s2_format_message())
    } else {
        radix_outcome(t, 10, s2_format_message())
    }
}

fn digit_of(c: char) -> (d: u64)
    ensures
        d == digit_value(c),
{
    if '0' <= c && c <= '9' {
        (c as u64) - ('0' as u64)
    } else if 'a' <= c && c <= 'z' {
        (c as u64) - ('a' as u64) + 10
    } else if 'A' <= c && c <= 'Z' {
        (c as u64) - ('A' as u64) + 10
    } else {
        36
    }
}

proof fn lemma_digits_value_nonneg(s: Seq<char>, radix: int)
    requires
        radix >= 2,
        all_radix_digits(s, radix),
    ensures
        digits_value(s, radix) >= 0,
    decreases s.len(),
{
    if s.len() > 0 {
        lemma_digits_value_nonneg(s.drop_last(), radix);
        assert(digit_value(s[s.len() - 1]) >= 0);
        assert(digits_value(s.drop_last(), radix) * radix >= 0) by (nonlinear_arith)
            requires
                digits_value(s.drop_last(), radix) >= 0,
                radix >= 2,
        ;
    }
}

/// The value of a digit string never falls below the value of one of its prefixes.
proof fn lemma_digits_value_prefix_monotone(s: Seq<char>, k: int, radix: int)
    requires
        radix >= 2,
        0 <= k <= s.len(),
        all_radix_digits(s, radix),
    ensures
        digits_value(s.take(k), radix) <= digits_value(s, radix),
    decreases s.len() - k,
{
    if k < s.len() {
        lemma_digits_value_prefix_monotone(s, k + 1, radix);
        let p = s.take(k + 1);
        assert(p.drop_last() =~= s.take(k));
        assert(all_radix_digits(s.take(k), radix));
        lemma_digits_value_nonneg(s.take(k), radix);
        let v = digits_value(s.take(k), radix);
        assert(digit_value(p.last()) >= 0);
        assert(v <= v * radix) by (nonlinear_arith)
            requires
                v >= 0,
                radix >= 2,
        ;
    } else {
        assert(s.take(k) =~= s);
    }
}

/// Parses the unsigned integer text `text` in base `radix`, failing with `message`.
fn parse_unsigned_id(text: &str, radix: u64, message: &str) -> (r: Result<u64>)
    requires
        2 <= radix <= 36,
    ensures
        outcome(r) == radix_outcome(text@, radix as int, message@),
{
    let n = text.unicode_len();
    if n == 0 {
        return Err(invalid_input(message));
    }
    let mut start: usize = 0;
    if text.get_char(0) == '+' {
        if n == 1 {
            proof {
                assert(unsigned_digits(text@).len() == 0);
            }
            return Err(invalid_input(message));
        }
        start = 1;
    }
    let ghost digits = unsigned_digits(text@);
    assert(digits =~= text@.subrange(start as int, n as int));
    let mut value: u64 = 0;
    let mut index: usize = start;
    while index < n
        invariant
            n == text@.len(),
            start <= index <= n,
            2 <= radix <= 36,
            digits =~= text@.subrange(start as int, n as int),
            digits == unsigned_digits(text@),
            all_radix_digits(digits.take(index - start), radix as int),
            value == digits_value(digits.take(index - start), radix as int),
        decreases n - index,
    {
        let c = text.get_char(index);
        let d = digit_of(c);
        let ghost k = index - start;
        assert(digits[k] == c);
        assert(digits.take(k + 1).drop_last() =~= digits.take(k));
        assert(digits.take(k + 1).last() == c);
        if d >= radix {
            proof {
                assert(!all_radix_digits(digits, radix as int));
                assert(parse_u64_radix(text@, radix as int).is_none());
            }
            return Err(invalid_input(message));
        }
        assert(all_radix_digits(digits.take(k + 1), radix as int));
        assert(digits_value(digits.take(k + 1), radix as int) == value * radix + d);
        let step = value.checked_mul(radix);
        if step.is_none() {
            proof {
                overflow_means_invalid(digits, k + 1, radix as int);
                assert(parse_u64_radix(text@, radix as int).is_none());
            }
            return Err(invalid_input(message));
        }
        let next = step.unwrap().checked_add(d);
        if next.is_none() {
            proof {
                overflow_means_invalid(digits, k + 1, radix as int);
                assert(parse_u64_radix(text@, radix as int).is_none());
            }
            return Err(invalid_input(message));
        }
        value = next.unwrap();
        index = index + 1;
    }
    assert(digits.take(n - start) =~= digits);
    Ok(value)
}

/// A prefix whose value overflows `u64` makes the whole text unparseable.
proof fn overflow_means_invalid(digits: Seq<char>, k: int, radix: int)
    requires
        2 <= radix <= 36,
        0 < k <= digits.len(),
        all_radix_digits(digits.take(k), radix),
        digits_value(digits.take(k), radix) > u64::MAX,
    ensures
        !(all_radix_digits(digits, radix) && digits_value(digits, radix) <= u64::MAX),
{
    if all_radix_digits(digits, radix) {
        lemma_digits_value_prefix_monotone(digits, k, radix);
    }
}

/// Normalizes an H3 ID text into a non-negative integer cell ID.
///
/// Accepts decimal strings, `0x`-prefixed hexadecimal strings, and bare
/// hexadecimal H3 cell strings; surrounding white space is ignored.
pub fn normalize_h3_id_text(value: &str) -> (r: Result<u64>)
    ensures
        outcome(r) == h3_id_outcome(trimmed(value@)),
{
    let text = trim_str(value);
    let n = text.unicode_len();
    if n == 0 {
        return Err(invalid_input("H3 IDs must not be empty"));
    }
    if text.get_char(0) == '-' {
        return Err(invalid_input("H3 IDs must be non-negative"));
    }
    let message = "H3 IDs must be decimal or hexadecimal integer strings";
    if n >= 2 && text.get_char(0) == '0' && (text.get_char(1) == 'x' || text.get_char(1) == 'X') {
        let hex = text.substring_char(2, n);
        assert(hex@ =~= text@.skip(2));
        parse_unsigned_id(hex, 16, message)
    } else if all_decimal(text) {
        parse_unsigned_id(text, 10, message)
    } else {
        parse_unsigned_id(text, 16, message)
    }
}

/// Normalizes an S2 ID text into a non-negative integer cell ID.
///
/// Accepts decimal strings and `0x`-prefixed hexadecimal strings; surrounding
/// white space is ignored.
pub fn normalize_s2_id_text(value: &str) -> (r: Result<u64>)
    ensures
        outcome(r) == s2_id_outcome(trimmed(value@)),
{
    let text = trim_str(value);
    let n = text.unicode_len();
    if n == 0 {
        return Err(invalid_input("S2 IDs must not be empty"));
    }
    if text.get_char(0) == '-' {
        return Err(invalid_input("S2 IDs must be non-negative"));
    }
    let message = "S2 IDs must be decimal or 0x-prefixed integer strings";
    if n >= 2 && text.get_char(0) == '0' && (text.get_char(1) == 'x' || text.get_char(1) == 'X') {
        let hex = text.substring_char(2, n);
        assert(hex@ =~= text@.skip(2));
        parse_unsigned_id(hex, 16, message)
    } else {
        parse_unsigned_id(text, 10, message)
    }
}

fn all_decimal(text: &str) -> (r: bool)
    ensures
        r == all_ascii_digits(text@),
{
    let n = text.unicode_len();
    let mut index: usize = 0;
    while index < n
        invariant
            n == text@.len(),
            index <= n,
            forall|i: int| 0 <= i < index ==> '0' <= #[trigger] text@[i] && text@[i] <= '9',
        decreases n - index,
    {
        let c = text.get_char(index);
        if !('0' <= c && c <= '9') {
            return false;
        }
        index = index + 1;
    }
    true
}

/// Text of the range error for a grid level.
pub open spec fn level_range_message(field_name: Seq<char>, kind: GeoGridKind) -> Seq<char> {
    field_name + " must be between 0 and "@ + decimal(spec_max_level(kind) as nat)
}

fn normalize_grid_level(value: i64, field_name: &str, kind: GeoGridKind) -> (r: Result<u8>)
    ensures
        outcome(r) == (if 0 <= value <= spec_max_level(kind) {
            Ok(value as u8)
        } else {
            Err(level_range_message(field_name@, kind))
        }),
{
    let max_level = kind.max_level();
    if value < 0 || value > max_level {
        let max_text = decimal_text(max_level as usize);
        return Err(CartoBoostError::InvalidInput(
            join3(field_name, " must be between 0 and ", max_text.as_str()),
        ));
    }
    Ok(value as u8)
}

/// Validates and normalizes an H3 resolution in the inclusive range 0..=15.
pub fn normalize_h3_resolution(value: i64, field_name: &str) -> (r: Result<u8>)
    ensures
        outcome(r) == (if 0 <= value <= 15 {
            Ok(value as u8)
        } else {
            Err(level_range_message(field_name@, GeoGridKind::H3))
        }),
{
    normalize_grid_level(value, field_name, GeoGridKind::H3)
}

/// Validates and normalizes an S2 level in the inclusive range 0..=30.
pub fn normalize_s2_level(value: i64, field_name: &str) -> (r: Result<u8>)
    ensures
        outcome(r) == (if 0 <= value <= 30 {
            Ok(value as u8)
        } else {
            Err(level_range_message(field_name@, GeoGridKind::S2))
        }),
{
    normalize_grid_level(value, field_name, GeoGridKind::S2)
}

/// Every parent level is strictly coarser (smaller) than the child level.
pub open spec fn parents_coarser(child_level: u8, parent_levels: Seq<u8>) -> bool {
    forall|i: int| 0 <= i < parent_levels.len() ==> #[trigger] parent_levels[i] < child_level
}

/// Text of the error for a parent level that is not coarser than its child.
pub open spec fn parent_level_message(kind: GeoGridKind) -> Seq<char> {
    match kind {
        GeoGridKind::H3 => "parent_resolutions must be less than resolution"@,
        GeoGridKind::S2 => "parent_levels must be less than level"@,
    }
}

/// Validates that every parent level is strictly coarser than the child level.
pub fn validate_parent_levels(child_level: u8, parent_levels: &[u8], kind: GeoGridKind) -> (r:
    Result<()>)
    ensures
        outcome(r) == (if parents_coarser(child_level, parent_levels@) {
            Ok(())
        } else {
            Err(parent_level_message(kind))
        }),
{
    let mut index: usize = 0;
    while index < parent_levels.len()
        invariant
            index <= parent_levels.len(),
            forall|i: int| 0 <= i < index ==> #[trigger] parent_levels@[i] < child_level,
        decreases parent_levels.len() - index,
    {
        if parent_levels[index] >= child_level {
            let name = match kind {
                GeoGridKind::H3 => "parent_resolutions must be less than resolution",
                GeoGridKind::S2 => "parent_levels must be less than level",
            };
            return Err(invalid_input(name));
        }
        index = index + 1;
    }
    Ok(())
}

/// Synthetic H3 parent ID: top bit set, parent resolution in bits 56.., and the
/// child cell shifted right by three bits per resolution step.
pub open spec fn scaffold_parent(cell: u64, resolution: u8, parent_resolution: u8) -> u64 {
    (1u64 << 63u64) | ((parent_resolution as u64) << 56u64) | (cell >> (((resolution
        - parent_resolution) * 3) as u64))
}

/// The resolution step fits a shift of a `u64`.
pub open spec fn scaffold_gap_ok(resolution: u8, parent_resolution: u8) -> bool {
    parent_resolution < resolution ==> (resolution - parent_resolution) * 3 < 64
}

fn scaffold_h3_parent_id_unchecked(cell: u64, resolution: u8, parent_resolution: u8) -> (id: u64)
    requires
        parent_resolution <= resolution,
        (resolution - parent_resolution) * 3 < 64,
    ensures
        id == scaffold_parent(cell, resolution, parent_resolution),
{
    let resolution_gap = resolution - parent_resolution;
    let shift: u64 = (resolution_gap as u64) * 3;
    let bucket = cell >> shift;
    (1u64 << 63u64) | ((parent_resolution as u64) << 56u64) | bucket
}

/// Builds a deterministic synthetic H3 parent ID for tests and schema fixtures.
///
/// This is not a real H3 parent calculation; production parent cells come from
/// an H3 library and go through sparse-row assembly.
pub fn scaffold_h3_parent_id(cell: u64, resolution: u8, parent_resolution: u8) -> (r: Result<u64>)
    requires
        scaffold_gap_ok(resolution, parent_resolution),
    ensures
        outcome(r) == (if parent_resolution < resolution {
            Ok(scaffold_parent(cell, resolution, parent_resolution))
        } else {
            Err(parent_level_message(GeoGridKind::H3))
        }),
{
    let parents = [parent_resolution];
    let parent_slice = parents.as_slice();
    assert(parent_slice@ == seq![parent_resolution]);
    validate_parent_levels(resolution, parent_slice, GeoGridKind::H3)?;
    assert(parent_slice@[0] < resolution);
    Ok(scaffold_h3_parent_id_unchecked(cell, resolution, parent_resolution))
}

/// A scaffold ID always carries the top bit, so it never equals an H3 cell ID,
/// whose top bit is reserved as zero.
pub proof fn lemma_scaffold_top_bit(cell: u64, resolution: u8, parent_resolution: u8)
    requires
        parent_resolution < resolution,
        (resolution - parent_resolution) * 3 < 64,
    ensures
        scaffold_parent(cell, resolution, parent_resolution) >> 63u64 == 1,
        scaffold_parent(cell, resolution, parent_resolution) >= 0x8000_0000_0000_0000u64,
{
    let p = parent_resolution as u64;
    let s = ((resolution - parent_resolution) * 3) as u64;
    assert(((1u64 << 63u64) | (p << 56u64) | (cell >> s)) >> 63u64 == 1) by (bit_vector);
    assert(((1u64 << 63u64) | (p << 56u64) | (cell >> s)) >= 0x8000_0000_0000_0000u64)
        by (bit_vector);
}

/// IDs contributed by one child `cell`: the cell itself and its scaffold parents
/// for the first `count` parent resolutions.
pub open spec fn cell_ids(cell: u64, resolution: u8, parent_resolutions: Seq<u8>, count: int) -> Set<
    u64,
> {
    Set::new(
        |x: u64|
            x == cell || exists|t: int|
                0 <= t < count && x == #[trigger] scaffold_parent(
                    cell,
                    resolution,
                    parent_resolutions[t],
                ),
    )
}

/// IDs of an expanded H3 sparse set built from the first `count` child cells.
pub open spec fn expansion_prefix(
    values: Seq<u64>,
    resolution: u8,
    parent_resolutions: Seq<u8>,
    count: int,
) -> Set<u64> {
    Set::new(
        |x: u64|
            exists|i: int|
                0 <= i < count && #[trigger] cell_ids(
                    values[i],
                    resolution,
                    parent_resolutions,
                    parent_resolutions.len() as int,
                ).contains(x),
    )
}

/// IDs of an expanded H3 sparse set: each child cell and its scaffold parents.
pub open spec fn h3_expansion(values: Seq<u64>, resolution: u8, parent_resolutions: Seq<u8>) -> Set<
    u64,
> {
    expansion_prefix(values, resolution, parent_resolutions, values.len() as int)
}

/// Expands H3 child IDs with deterministic synthetic parent IDs, sorted and deduplicated.
pub fn expand_h3_sparse_set(values: &[u64], resolution: u8, parent_resolutions: &[u8]) -> (r:
    Result<Vec<u64>>)
    requires
        forall|j: int|
            0 <= j < parent_resolutions@.len() ==> scaffold_gap_ok(
                resolution,
                #[trigger] parent_resolutions@[j],
            ),
    ensures
        match r {
            Ok(ids) => parents_coarser(resolution, parent_resolutions@) && strictly_increasing(
                ids@,
            ) && ids@.to_set() == h3_expansion(values@, resolution, parent_resolutions@),
            Err(e) => !parents_coarser(resolution, parent_resolutions@) && e.text()
                == parent_level_message(GeoGridKind::H3),
        },
{
    validate_parent_levels(resolution, parent_resolutions, GeoGridKind::H3)?;
    let ghost parents = parent_resolutions@;
    let ghost plen = parents.len() as int;
    let mut expanded: Vec<u64> = Vec::new();
    let mut i: usize = 0;
    assert(expanded@.to_set() =~= expansion_prefix(values@, resolution, parents, 0));
    while i < values.len()
        invariant
            i <= values.len(),
            parents == parent_resolutions@,
            plen == parents.len(),
            parents_coarser(resolution, parents),
            forall|j: int| 0 <= j < plen ==> scaffold_gap_ok(resolution, #[trigger] parents[j]),
            strictly_increasing(expanded@),
            expanded@.to_set() == expansion_prefix(values@, resolution, parents, i as int),
        decreases values.len() - i,
    {
        let cell = values[i];
        let ghost before = expanded@.to_set();
        insert_sorted_unique(&mut expanded, cell);
        assert(expanded@.to_set() =~= before.union(cell_ids(cell, resolution, parents, 0)));
        let mut j: usize = 0;
        while j < parent_resolutions.len()
            invariant
                j <= parent_resolutions.len(),
                parents == parent_resolutions@,
                plen == parents.len(),
                parents_coarser(resolution, parents),
                forall|t: int| 0 <= t < plen ==> scaffold_gap_ok(resolution, #[trigger] parents[t]),
                strictly_increasing(expanded@),
                expanded@.to_set() == before.union(cell_ids(cell, resolution, parents, j as int)),
            decreases parent_resolutions.len() - j,
        {
            let parent = parent_resolutions[j];
            assert(parent < resolution);
            assert(scaffold_gap_ok(resolution, parents[j as int]));
            let id = scaffold_h3_parent_id_unchecked(cell, resolution, parent);
            insert_sorted_unique(&mut expanded, id);
            assert(cell_ids(cell, resolution, parents, j + 1) =~= cell_ids(
                cell,
                resolution,
                parents,
                j as int,
            ).insert(id)) by {
                assert(id == scaffold_parent(cell, resolution, parents[j as int]));
            }
            assert(expanded@.to_set() =~= before.union(cell_ids(cell, resolution, parents, j + 1)));
            j = j + 1;
        }
        assert(expansion_prefix(values@, resolution, parents, i + 1) =~= before.union(
            cell_ids(cell, resolution, parents, plen),
        )) by {
            assert forall|x: u64|
                #![trigger expansion_prefix(values@, resolution, parents, i + 1).contains(x)]
                expansion_prefix(values@, resolution, parents, i + 1).contains(x) implies before.union(
                cell_ids(cell, resolution, parents, plen),
            ).contains(x) by {
                let k = choose|k: int|
                    0 <= k < i + 1 && #[trigger] cell_ids(
                        values@[k],
                        resolution,
                        parents,
                        plen,
                    ).contains(x);
                if k < i {
                    assert(expansion_prefix(values@, resolution, parents, i as int).contains(x));
                }
            }
            assert forall|x: u64|
                before.union(cell_ids(cell, resolution, parents, plen)).contains(
                    x,
                ) implies #[trigger] expansion_prefix(values@, resolution, parents, i + 1).contains(
                x,
            ) by {
                if before.contains(x) {
                    let k = choose|k: int|
                        0 <= k < i && #[trigger] cell_ids(
                            values@[k],
                            resolution,
                            parents,
                            plen,
                        ).contains(x);
                    assert(0 <= k < i + 1);
                } else {
                    assert(cell_ids(values@[i as int], resolution, parents, plen).contains(x));
                }
            }
        }
        i = i + 1;
    }
    Ok(expanded)
}

/// Returns a sorted, deduplicated sparse row made of one child ID and its parent IDs.
pub fn assemble_sparse_row(child: u64, parents: &[u64]) -> (row: Vec<u64>)
    ensures
        strictly_increasing(row@),
        row@.to_set() == parents@.to_set().insert(child),
{
    let mut row: Vec<u64> = Vec::new();
    row.push(child);
    let mut index: usize = 0;
    while index < parents.len()
        invariant
            index <= parents.len(),
            row@ == seq![child] + parents@.take(index as int),
        decreases parents.len() - index,
    {
        row.push(parents[index]);
        assert(parents@.take(index + 1) =~= parents@.take(index as int).push(parents@[index as int]));
        index = index + 1;
    }
    let ghost filled = row@;
    assert(parents@.take(parents.len() as int) =~= parents@);
    sort_dedup(&mut row);
    assert(filled.to_set() =~= parents@.to_set().insert(child)) by {
        assert forall|x: u64| filled.to_set().contains(x) implies parents@.to_set().insert(
            child,
        ).contains(x) by {
            let k = choose|k: int| 0 <= k < filled.len() && filled[k] == x;
            if k > 0 {
                assert(parents@[k - 1] == x);
            }
        }
        assert forall|x: u64| parents@.to_set().insert(child).contains(x) implies filled.to_set().contains(
            x,
        ) by {
            if x == child {
                assert(filled[0] == child);
            } else {
                let k = choose|k: int| 0 <= k < parents@.len() && parents@[k] == x;
                assert(filled[k + 1] == x);
            }
        }
    }
    row
}

/// IDs that sparse row `idx` of a column holds: the child and every parent column's entry.
pub open spec fn column_row_ids(children: Seq<u64>, parent_columns: Seq<Vec<u64>>, idx: int) -> Set<
    u64,
> {
    Seq::new(parent_columns.len(), |c: int| parent_columns[c]@[idx]).to_set().insert(children[idx])
}

/// Every parent column has as many rows as there are children.
pub open spec fn columns_aligned(children_len: nat, parent_columns: Seq<Vec<u64>>) -> bool {
    forall|c: int| 0 <= c < parent_columns.len() ==> #[trigger] parent_columns[c]@.len()
        == children_len
}

/// Text of the error for a parent column of `found` rows where `expected` are needed.
pub open spec fn column_length_message(found: nat, expected: nat) -> Seq<char> {
    "parent cell column has "@ + decimal(found) + " rows, expected "@ + decimal(expected)
}

/// Checks that every parent column has `children_len` rows; the first one that
/// does not is reported.
pub fn check_parent_columns(children_len: usize, parent_columns: &[Vec<u64>]) -> (r: Result<()>)
    ensures
        match r {
            Ok(_) => columns_aligned(children_len as nat, parent_columns@),
            Err(e) => exists|c: int|
                0 <= c < parent_columns@.len() && columns_aligned(children_len as nat, parent_columns@.take(c))
                    && #[trigger] parent_columns@[c]@.len() != children_len && e.text()
                    == column_length_message(parent_columns@[c]@.len(), children_len as nat),
        },
{
    let mut c: usize = 0;
    while c < parent_columns.len()
        invariant
            c <= parent_columns.len(),
            columns_aligned(children_len as nat, parent_columns@.take(c as int)),
        decreases parent_columns.len() - c,
    {
        if parent_columns[c].len() != children_len {
            let found = decimal_text(parent_columns[c].len());
            let expected = decimal_text(children_len);
            let head = join3("parent cell column has ", found.as_str(), " rows, expected ");
            let message = head.concat(expected.as_str());
            assert(message@ =~= column_length_message(parent_columns@[c as int]@.len(), children_len as nat));
            return Err(CartoBoostError::InvalidInput(message));
        }
        assert forall|t: int| 0 <= t < c + 1 implies #[trigger] parent_columns@.take(c + 1)[t]@.len()
            == children_len by {
            if t < c {
                assert(parent_columns@.take(c + 1)[t] == parent_columns@.take(c as int)[t]);
            }
        }
        c = c + 1;
    }
    assert(parent_columns@.take(parent_columns.len() as int) =~= parent_columns@);
    Ok(())
}

/// Returns sorted, deduplicated sparse rows for a full coordinate-derived column.
///
/// `parent_columns` is column-major: each inner vector holds one parent level's
/// IDs and must have the same length as `children`.
pub fn assemble_sparse_column(children: &[u64], parent_columns: &[Vec<u64>]) -> (r: Result<
    Vec<Vec<u64>>,
>)
    ensures
        match r {
            Ok(rows) => columns_aligned(children@.len(), parent_columns@) && rows@.len()
                == children@.len() && forall|idx: int|
                0 <= idx < rows@.len() ==> strictly_increasing(#[trigger] rows@[idx]@)
                    && rows@[idx]@.to_set() == column_row_ids(children@, parent_columns@, idx),
            Err(e) => exists|c: int|
                0 <= c < parent_columns@.len() && columns_aligned(
                    children@.len(),
                    parent_columns@.take(c),
                ) && #[trigger] parent_columns@[c]@.len() != children@.len() && e.text()
                    == column_length_message(parent_columns@[c]@.len(), children@.len()),
        },
{
    check_parent_columns(children.len(), parent_columns)?;
    let mut rows: Vec<Vec<u64>> = Vec::with_capacity(children.len());
    let mut idx: usize = 0;
    while idx < children.len()
        invariant
            idx <= children.len(),
            columns_aligned(children@.len(), parent_columns@),
            rows@.len() == idx,
            forall|k: int|
                0 <= k < idx ==> strictly_increasing(#[trigger] rows@[k]@) && rows@[k]@.to_set()
                    == column_row_ids(children@, parent_columns@, k),
        decreases children.len() - idx,
    {
        let mut parents: Vec<u64> = Vec::with_capacity(parent_columns.len());
        let mut col: usize = 0;
        while col < parent_columns.len()
            invariant
                idx < children.len(),
                col <= parent_columns.len(),
                columns_aligned(children@.len(), parent_columns@),
                parents@ =~= Seq::new(col as nat, |t: int| parent_columns@[t]@[idx as int]),
            decreases parent_columns.len() - col,
        {
            assert(parent_columns@[col as int]@.len() == children@.len());
            parents.push(parent_columns[col][idx]);
            col = col + 1;
        }
        let row = assemble_sparse_row(children[idx], parents.as_slice());
        rows.push(row);
        idx = idx + 1;
    }
    Ok(rows)
}

/// Text of the error for a coordinate feature whose row count differs from the expected one.
pub open spec fn row_count_message(name: Seq<char>, actual: nat, expected: nat) -> Seq<char> {
    "coordinate feature '"@ + name + "' has "@ + decimal(actual) + " rows, expected "@ + decimal(
        expected,
    )
}

/// Validates a named coordinate feature against the expected row count.
pub fn validate_equal_row_count(name: &str, actual: usize, expected: usize) -> (r: Result<()>)
    ensures
        outcome(r) == (if actual == expected {
            Ok(())
        } else {
            Err(row_count_message(name@, actual as nat, expected as nat))
        }),
{
    if actual == expected {
        Ok(())
    } else {
        let actual_text = decimal_text(actual);
        let expected_text = decimal_text(expected);
        let head = join3("coordinate feature '", name, "' has ");
        let tail = join3(actual_text.as_str(), " rows, expected ", expected_text.as_str());
        let message = head.concat(tail.as_str());
        assert(message@ =~= row_count_message(name@, actual as nat, expected as nat));
        Err(CartoBoostError::InvalidInput(message))
    }
}

} // verus!
