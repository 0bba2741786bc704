//! The item catalog's row shapes and the rule for when a stored catalog is
//! usable.

use vstd::prelude::*;
use crate::config::opt_view;
use crate::text::{chars_of, decimal_value, digit_value};

verus! {

/// Bump when the `items` / `sync_meta` shape changes so an old app-data copy
/// is rebuilt from the bundled resource instead of being read with the wrong
/// column set.
pub const SCHEMA_VERSION: i64 = 1;

/// What an item is, to a contract.
pub struct ItemModel {
    pub item_id: u32,
    pub name: Seq<char>,
    pub icon_path: Option<Seq<char>>,
    pub level_item: Option<u32>,
    pub category_name: Option<Seq<char>>,
}

/// One catalog row, as search and the window see it.
#[derive(Debug, PartialEq)]
pub struct Item {
    pub item_id: u32,
    pub name: String,
    pub icon_path: Option<String>,
    pub level_item: Option<u32>,
    pub category_name: Option<String>,
}

impl View for Item {
    type V = ItemModel;

    open spec fn view(&self) -> ItemModel {
        ItemModel {
            item_id: self.item_id,
            name: self.name@,
            icon_path: opt_view(self.icon_path),
            level_item: self.level_item,
            category_name: opt_view(self.category_name),
        }
    }
}

/// A copy of an optional string.
pub fn copy_opt_string(o: &Option<String>) -> (r: Option<String>)
    ensures
        opt_view(r) == opt_view(*o),
{
    match o {
        Some(s) => Some(s.clone()),
        None => None,
    }
}

impl Clone for Item {
    fn clone(&self) -> (r: Self)
        ensures
            r@ == self@,
    {
        Item {
            item_id: self.item_id,
            name: self.name.clone(),
            icon_path: copy_opt_string(&self.icon_path),
            level_item: self.level_item,
            category_name: copy_opt_string(&self.category_name),
        }
    }
}

/// What the last sync recorded, for display in the settings panel.
#[derive(Debug, Clone, PartialEq, Default)]
pub struct CatalogInfo {
    pub total_items: u32,
    pub marketable_items: u32,
    pub last_synced_at: Option<String>,
    pub last_synced_game_version: Option<String>,
}

/// A row on its way into the catalog. Unlike `Item` it carries `marketable`,
/// which the app never needs after the load-time filter.
#[derive(Debug, PartialEq)]
pub struct ItemRow {
    pub item_id: u32,
    pub name: String,
    pub icon_path: Option<String>,
    pub level_item: Option<u32>,
    pub category_name: Option<String>,
    pub marketable: bool,
}

/// What a catalog row is, to a contract.
pub struct ItemRowModel {
    pub item_id: u32,
    pub name: Seq<char>,
    pub icon_path: Option<Seq<char>>,
    pub level_item: Option<u32>,
    pub category_name: Option<Seq<char>>,
    pub marketable: bool,
}

impl View for ItemRow {
    type V = ItemRowModel;

    open spec fn view(&self) -> ItemRowModel {
        ItemRowModel {
            item_id: self.item_id,
            name: self.name@,
            icon_path: opt_view(self.icon_path),
            level_item: self.level_item,
            category_name: opt_view(self.category_name),
            marketable: self.marketable,
        }
    }
}

/// An ASCII decimal digit.
pub open spec fn is_digit(c: char) -> bool {
    '0' <= c && c <= '9'
}

/// `s` without one leading `+` or `-`.
pub open spec fn unsigned_part(s: Seq<char>) -> Seq<char> {
    if s.len() > 0 && (s[0] == '-' || s[0] == '+') {
        s.drop_first()
    } else {
        s
    }
}

/// Every character of `s` is an ASCII digit.
pub open spec fn all_digits(s: Seq<char>) -> bool {
    forall|i: int| 0 <= i < s.len() ==> is_digit(s[i])
}

/// The signed value `s` denotes, read as an optional sign then digits.
pub open spec fn signed_value(s: Seq<char>) -> int {
    if s.len() > 0 && s[0] == '-' {
        -decimal_value(unsigned_part(s))
    } else {
        decimal_value(unsigned_part(s))
    }
}

/// What `str::parse::<i64>` gives: an optional `+` or `-`, then one or more
/// ASCII digits, whose value must fit in an `i64`.
pub open spec fn parse_i64_spec(s: Seq<char>) -> Option<int> {
    if unsigned_part(s).len() == 0 || !all_digits(unsigned_part(s)) {
        None
    } else if signed_value(s) < i64::MIN || signed_value(s) > i64::MAX {
        None
    } else {
        Some(signed_value(s))
    }
}

proof fn lemma_decimal_value_grows(s: Seq<char>, t: Seq<char>)
    requires
        s.is_prefix_of(t),
        forall|i: int| 0 <= i < t.len() ==> is_digit(t[i]),
    ensures
        decimal_value(s) <= decimal_value(t),
        decimal_value(s) >= 0,
    decreases t.len(),
{
    if t.len() == s.len() {
        assert(s =~= t);
        lemma_decimal_value_nonneg(t);
    } else {
        assert(s.is_prefix_of(t.drop_last()));
        lemma_decimal_value_grows(s, t.drop_last());
        lemma_decimal_value_nonneg(t.drop_last());
    }
}

proof fn lemma_decimal_value_nonneg(s: Seq<char>)
    requires
        forall|i: int| 0 <= i < s.len() ==> is_digit(s[i]),
    ensures
        decimal_value(s) >= 0,
    decreases s.len(),
{
    if s.len() > 0 {
        lemma_decimal_value_nonneg(s.drop_last());
    }
}

/// `str::parse::<i64>`.
pub fn parse_i64(s: &str) -> (r: Option<i64>)
    ensures
        r matches Some(v) ==> parse_i64_spec(s@) == Some(v as int),
        r is None ==> parse_i64_spec(s@) is None,
{
    let v = chars_of(s);
    let n = v.len();
    let negative = n > 0 && v[0] == '-';
    let start: usize = if n > 0 && (v[0] == '-' || v[0] == '+') {
        1
    } else {
        0
    };
    let ghost digits = s@.subrange(start as int, n as int);
    assert(digits =~= unsigned_part(s@));
    if start == n {
        return None;
    }
    let bound: u64 = 9223372036854775808;
    let mut acc: u64 = 0;
    let mut i: usize = start;
    while i < n
        invariant
            v@ == s@,
            n == s@.len(),
            start <= i <= n,
            digits == s@.subrange(start as int, n as int),
            digits == unsigned_part(s@),
            forall|j: int| 0 <= j < i - start ==> is_digit(digits[j]),
            acc == decimal_value(digits.take(i - start)),
            acc <= bound,
            bound == 9223372036854775808u64,
            negative == (s@.len() > 0 && s@[0] == '-'),
        decreases n - i,
    {
        let c = v[i];
        if !('0' <= c && c <= '9') {
            assert(!is_digit(digits[i - start]));
            assert(!all_digits(digits));
            assert(parse_i64_spec(s@) is None);
            return None;
        }
        let d: u64 = if c == '0' {
            0
        } else if c == '1' {
            1
        } else if c == '2' {
            2
        } else if c == '3' {
            3
        } else if c == '4' {
            4
        } else if c == '5' {
            5
        } else if c == '6' {
            6
        } else if c == '7' {
            7
        } else if c == '8' {
            8
        } else {
            9
        };
        assert(d == digit_value(c));
        assert(digits.take(i - start + 1).drop_last() =~= digits.take(i - start));
        assert(digits.take(i - start + 1).last() == c);
        assert(decimal_value(digits.take(i - start + 1)) == acc * 10 + d);
        let next: u128 = (acc as u128) * 10 + (d as u128);
        if next > bound as u128 {
            proof {
                if all_digits(digits) {
                    assert(digits.take(i - start + 1).is_prefix_of(digits));
                    assert(decimal_value(digits.take(i - start + 1)) > bound);
                    lemma_decimal_value_grows(digits.take(i - start + 1), digits);
                    assert(decimal_value(digits.take(i - start + 1)) <= decimal_value(digits));
                    assert(decimal_value(digits) > i64::MAX);
                }
                assert(parse_i64_spec(s@) is None);
            }
            return None;
        }
        acc = next as u64;
        i += 1;
    }
    assert(digits.take(n - start) =~= digits);
    if negative {
        if acc == bound {
            Some(-9223372036854775807i64 - 1)
        } else {
            Some(-(acc as i64))
        }
    } else if acc == bound {
        None
    } else {
        Some(acc as i64)
    }
}

/// Does a stored catalog look usable at the current schema version? The
/// caller reads, from the file, the recorded schema version and the number
/// of marketable rows; `None` stands for a value that could not be read.
pub fn is_usable_catalog(schema_version: Option<&str>, marketable_count: Option<i64>) -> (r: bool)
    ensures
        r == ({
            &&& schema_version matches Some(v) && parse_i64_spec(v@) == Some(SCHEMA_VERSION as int)
            &&& marketable_count matches Some(n) && n > 0
        }),
{
    let version = match schema_version {
        Some(v) => parse_i64(v),
        None => None,
    };
    match version {
        Some(v) => {
            if v != SCHEMA_VERSION {
                return false;
            }
        },
        None => {
            return false;
        },
    }
    match marketable_count {
        Some(n) => n > 0,
        None => false,
    }
}

} // verus!
