//! Universalis data: the world / data-center / region hierarchy, request
//! URLs, reply-status handling, and the shaping of listings and sales.
//!
//! The HTTP exchange itself belongs to the caller; everything decided about
//! a request before it is sent, or about a reply once it has arrived, is
//! here.

use vstd::prelude::*;
use vstd::string::StringExecFns;
use vstd::string::StrSliceExecFns;
use vstd::string::StringSliceAdditionalSpecFns;
use vstd::utf8::encode_utf8;
use crate::config::opt_view;
use crate::error::{AppError, AppResult, invalid};
use crate::text::{
    lemma_trim_idempotent,
    trim,
    trim_spec,
    eq_ignore_ascii_case,
    eq_ignore_ascii_case_spec,
    first_where,
    is_first_where,
    lemma_first_where,
    lemma_first_where_none,
    push_decimal,
    decimal_spec,
};

verus! {

/// One game world.
#[derive(Debug, Clone, PartialEq)]
pub struct World {
    pub id: u32,
    pub name: String,
}

/// One data center: a group of worlds inside a region.
#[derive(Debug, PartialEq)]
pub struct DataCenter {
    pub name: String,
    pub region: String,
    pub worlds: Vec<u32>,
}

/// What a world is, to a contract.
pub struct WorldModel {
    pub id: u32,
    pub name: Seq<char>,
}

/// What a data center is, to a contract.
pub struct DataCenterModel {
    pub name: Seq<char>,
    pub region: Seq<char>,
    pub worlds: Seq<u32>,
}

impl View for World {
    type V = WorldModel;

    open spec fn view(&self) -> WorldModel {
        WorldModel { id: self.id, name: self.name@ }
    }
}

impl View for DataCenter {
    type V = DataCenterModel;

    open spec fn view(&self) -> DataCenterModel {
        DataCenterModel { name: self.name@, region: self.region@, worlds: self.worlds@ }
    }
}

/// Every board a user can pick, as one bundle.
#[derive(Debug)]
pub struct MarketScopes {
    pub worlds: Vec<World>,
    pub data_centers: Vec<DataCenter>,
}

/// The worlds, as a contract sees them.
pub open spec fn worlds_view(worlds: Seq<World>) -> Seq<WorldModel> {
    worlds.map_values(|w: World| w@)
}

/// The data centers, as a contract sees them.
pub open spec fn data_centers_view(dcs: Seq<DataCenter>) -> Seq<DataCenterModel> {
    dcs.map_values(|d: DataCenter| d@)
}

/// Two board names denote the same board: equal once trimmed, ignoring
/// ASCII case, the way Universalis compares them.
pub open spec fn same_scope(a: Seq<char>, b: Seq<char>) -> bool {
    eq_ignore_ascii_case_spec(trim_spec(a), trim_spec(b))
}

/// Names the world `scope`.
pub open spec fn world_named(scope: Seq<char>) -> spec_fn(WorldModel) -> bool {
    |w: WorldModel| same_scope(w.name, scope)
}

/// Holds the world `id`.
pub open spec fn holds_world(id: u32) -> spec_fn(DataCenterModel) -> bool {
    |d: DataCenterModel| d.worlds.contains(id)
}

/// Names the data center `scope`.
pub open spec fn data_center_named(scope: Seq<char>) -> spec_fn(DataCenterModel) -> bool {
    |d: DataCenterModel| same_scope(d.name, scope)
}

/// Lies in the region `scope`.
pub open spec fn in_region(scope: Seq<char>) -> spec_fn(DataCenterModel) -> bool {
    |d: DataCenterModel| same_scope(d.region, scope)
}

/// The next-widest board containing `scope`: the data center of the first
/// world so named (the first data center holding it), else the region of the
/// first data center so named; nothing for a blank scope or a region.
pub open spec fn widen_spec(
    worlds: Seq<WorldModel>,
    dcs: Seq<DataCenterModel>,
    scope: Seq<char>,
) -> Option<Seq<char>> {
    let s = trim_spec(scope);
    let via_world = match first_where(worlds, world_named(s)) {
        Some(w) => match first_where(dcs, holds_world(worlds[w].id)) {
            Some(d) => Some(dcs[d].name),
            None => None,
        },
        None => None,
    };
    if s.len() == 0 {
        None
    } else if via_world is Some {
        via_world
    } else {
        match first_where(dcs, data_center_named(s)) {
            Some(d) => Some(dcs[d].region),
            None => None,
        }
    }
}

/// The data center a region resolves to: the first data center in that
/// region; nothing when `scope` names no region.
pub open spec fn default_data_center_spec(dcs: Seq<DataCenterModel>, scope: Seq<char>) -> Option<
    Seq<char>,
> {
    let s = trim_spec(scope);
    if s.len() == 0 {
        None
    } else {
        match first_where(dcs, in_region(s)) {
            Some(d) => Some(dcs[d].name),
            None => None,
        }
    }
}

/// `str::trim` then `str::eq_ignore_ascii_case`.
pub fn same(a: &str, b: &str) -> (r: bool)
    ensures
        r == same_scope(a@, b@),
{
    eq_ignore_ascii_case(trim(a), trim(b))
}

fn contains_id(ids: &Vec<u32>, id: u32) -> (r: bool)
    ensures
        r == ids@.contains(id),
{
    let mut i: usize = 0;
    while i < ids.len()
        invariant
            i <= ids@.len(),
            forall|j: int| 0 <= j < i ==> ids@[j] != id,
        decreases ids@.len() - i,
    {
        if ids[i] == id {
            return true;
        }
        i += 1;
    }
    false
}

impl MarketScopes {
    fn find_world(&self, scope: &str) -> (r: Option<usize>)
        ensures
            r matches Some(i) ==> first_where(worlds_view(self.worlds@), world_named(scope@))
                == Some(i as int) && i < self.worlds@.len(),
            r is None ==> first_where(worlds_view(self.worlds@), world_named(scope@)) is None,
    {
        let ghost ws = worlds_view(self.worlds@);
        let mut i: usize = 0;
        while i < self.worlds.len()
            invariant
                ws == worlds_view(self.worlds@),
                i <= ws.len(),
                forall|j: int| 0 <= j < i ==> !world_named(scope@)(#[trigger] ws[j]),
            decreases ws.len() - i,
        {
            if same(self.worlds[i].name.as_str(), scope) {
                proof {
                    assert(world_named(scope@)(ws[i as int]));
                    lemma_first_where(ws, world_named(scope@), i as int);
                }
                return Some(i);
            }
            i += 1;
        }
        proof {
            lemma_first_where_none(ws, world_named(scope@));
        }
        None
    }

    fn find_data_center_holding(&self, id: u32) -> (r: Option<usize>)
        ensures
            r matches Some(i) ==> first_where(data_centers_view(self.data_centers@), holds_world(id))
                == Some(i as int) && i < self.data_centers@.len(),
            r is None ==> first_where(data_centers_view(self.data_centers@), holds_world(id)) is None,
    {
        let ghost ds = data_centers_view(self.data_centers@);
        let mut i: usize = 0;
        while i < self.data_centers.len()
            invariant
                ds == data_centers_view(self.data_centers@),
                i <= ds.len(),
                forall|j: int| 0 <= j < i ==> !holds_world(id)(#[trigger] ds[j]),
            decreases ds.len() - i,
        {
            if contains_id(&self.data_centers[i].worlds, id) {
                proof {
                    assert(holds_world(id)(ds[i as int]));
                    lemma_first_where(ds, holds_world(id), i as int);
                }
                return Some(i);
            }
            i += 1;
        }
        proof {
            lemma_first_where_none(ds, holds_world(id));
        }
        None
    }

    /// First data center whose name (`by_region == false`) or region
    /// (`by_region == true`) is `scope`.
    fn find_data_center_by(&self, scope: &str, by_region: bool) -> (r: Option<usize>)
        ensures
            ({
                let p = if by_region {
                    in_region(scope@)
                } else {
                    data_center_named(scope@)
                };
                &&& r matches Some(i) ==> first_where(data_centers_view(self.data_centers@), p)
                    == Some(i as int) && i < self.data_centers@.len()
                &&& r is None ==> first_where(data_centers_view(self.data_centers@), p) is None
            }),
    {
        let ghost ds = data_centers_view(self.data_centers@);
        let ghost p = if by_region {
            in_region(scope@)
        } else {
            data_center_named(scope@)
        };
        let mut i: usize = 0;
        while i < self.data_centers.len()
            invariant
                ds == data_centers_view(self.data_centers@),
                p == (if by_region {
                    in_region(scope@)
                } else {
                    data_center_named(scope@)
                }),
                i <= ds.len(),
                forall|j: int| 0 <= j < i ==> !p(#[trigger] ds[j]),
            decreases ds.len() - i,
        {
            let hit = if by_region {
                same(self.data_centers[i].region.as_str(), scope)
            } else {
                same(self.data_centers[i].name.as_str(), scope)
            };
            if hit {
                proof {
                    assert(p(ds[i as int]));
                    lemma_first_where(ds, p, i as int);
                }
                return Some(i);
            }
            i += 1;
        }
        proof {
            lemma_first_where_none(ds, p);
        }
        None
    }

    /// The next-widest board containing `scope`: a world widens to its data
    /// center, a data center to its region, and a region has nowhere to go.
    pub fn widen(&self, scope: &str) -> (r: Option<String>)
        ensures
            opt_view(r) == widen_spec(
                worlds_view(self.worlds@),
                data_centers_view(self.data_centers@),
                scope@,
            ),
    {
        let scope = trim(scope);
        if scope.is_empty() {
            return None;
        }
        if let Some(w) = self.find_world(scope) {
            assert(worlds_view(self.worlds@)[w as int] == self.worlds@[w as int]@);
            if let Some(d) = self.find_data_center_holding(self.worlds[w].id) {
                assert(data_centers_view(self.data_centers@)[d as int] == self.data_centers@[d as int]@);
                return Some(self.data_centers[d].name.clone());
            }
        }
        match self.find_data_center_by(scope, false) {
            Some(d) => {
                assert(data_centers_view(self.data_centers@)[d as int] == self.data_centers@[d as int]@);
                Some(self.data_centers[d].region.clone())
            },
            None => None,
        }
    }

    /// The data center a region resolves to: the first one listed in it.
    /// `None` when `scope` is not a region, so a world or data center is left
    /// as it is.
    pub fn default_data_center(&self, scope: &str) -> (r: Option<String>)
        ensures
            opt_view(r) == default_data_center_spec(data_centers_view(self.data_centers@), scope@),
    {
        let scope = trim(scope);
        if scope.is_empty() {
            return None;
        }
        match self.find_data_center_by(scope, true) {
            Some(d) => {
                assert(data_centers_view(self.data_centers@)[d as int] == self.data_centers@[d as int]@);
                Some(self.data_centers[d].name.clone())
            },
            None => None,
        }
    }
}


/// A byte URLs carry as it is: ASCII letters, digits, `-`, `_`, `.`, `~`.
pub open spec fn is_unreserved(b: u8) -> bool {
    (0x41 <= b && b <= 0x5a) || (0x61 <= b && b <= 0x7a) || (0x30 <= b && b <= 0x39) || b == 0x2d
        || b == 0x5f || b == 0x2e || b == 0x7e
}

/// The upper-case hexadecimal digit for `n` (`0 <= n < 16`).
pub open spec fn hex_char(n: int) -> char {
    if n < 10 {
        crate::text::digit_char(n)
    } else if n == 10 {
        'A'
    } else if n == 11 {
        'B'
    } else if n == 12 {
        'C'
    } else if n == 13 {
        'D'
    } else if n == 14 {
        'E'
    } else {
        'F'
    }
}

/// How one byte appears in a URL: itself when unreserved, else `%` and two
/// upper-case hex digits.
pub open spec fn encode_byte(b: u8) -> Seq<char> {
    if is_unreserved(b) {
        seq![b as char]
    } else {
        seq!['%', hex_char((b / 16) as int), hex_char((b % 16) as int)]
    }
}

/// The percent-encoding of a byte string.
pub open spec fn percent_encode(bytes: Seq<u8>) -> Seq<char>
    decreases bytes.len(),
{
    if bytes.len() == 0 {
        Seq::empty()
    } else {
        percent_encode(bytes.drop_last()) + encode_byte(bytes.last())
    }
}

fn hex_digit(n: u8) -> (c: char)
    requires
        n < 16,
    ensures
        c == hex_char(n as int),
{
    if n < 10 {
        crate::text::digit(n as u64)
    } else if n == 10 {
        'A'
    } else if n == 11 {
        'B'
    } else if n == 12 {
        'C'
    } else if n == 13 {
        'D'
    } else if n == 14 {
        'E'
    } else {
        'F'
    }
}

/// Percent-encode a world, data center or region name for a URL path: every
/// byte of its UTF-8 form that is not unreserved becomes `%XX`.
pub fn urlencode(value: &str) -> (r: String)
    ensures
        r@ == percent_encode(encode_utf8(value@)),
{
    let bytes = value.as_bytes();
    let mut out = String::new();
    let mut i: usize = 0;
    while i < bytes.len()
        invariant
            bytes@ == encode_utf8(value@),
            i <= bytes@.len(),
            out@ == percent_encode(bytes@.take(i as int)),
        decreases bytes@.len() - i,
    {
        let b = bytes[i];
        proof {
            assert(bytes@.take(i + 1).drop_last() =~= bytes@.take(i as int));
        }
        let ghost before = out@;
        if (0x41 <= b && b <= 0x5a) || (0x61 <= b && b <= 0x7a) || (0x30 <= b && b <= 0x39) || b
            == 0x2d || b == 0x5f || b == 0x2e || b == 0x7e {
            out.push(b as char);
        } else {
            out.push('%');
            out.push(hex_digit(b / 16));
            out.push(hex_digit(b % 16));
        }
        assert(out@ =~= before + encode_byte(b));
        i += 1;
    }
    assert(bytes@.take(bytes@.len() as int) =~= bytes@);
    out
}


/// `s` is in non-decreasing order of `key`.
pub open spec fn sorted_by_key<A>(s: Seq<A>, key: spec_fn(A) -> int) -> bool {
    forall|i: int, j: int| 0 <= i < j < s.len() ==> key(#[trigger] s[i]) <= key(#[trigger] s[j])
}

/// Has key `k`.
pub open spec fn key_is<A>(key: spec_fn(A) -> int, k: int) -> spec_fn(A) -> bool {
    |a: A| key(a) == k
}

/// `output` is `input` stably sorted by `key`: in key order, and the
/// elements sharing any one key appear in the order `input` has them.
pub open spec fn is_stable_sort<A>(input: Seq<A>, output: Seq<A>, key: spec_fn(A) -> int) -> bool {
    &&& sorted_by_key(output, key)
    &&& forall|k: int| #[trigger] output.filter(key_is(key, k)) == input.filter(key_is(key, k))
}

proof fn lemma_filter_none<A>(s: Seq<A>, pred: spec_fn(A) -> bool)
    requires
        forall|i: int| 0 <= i < s.len() ==> !pred(#[trigger] s[i]),
    ensures
        s.filter(pred) == Seq::<A>::empty(),
{
    assert(s.all(|x: A| !pred(x)));
    s.lemma_all_neg_filter_empty(pred);
    assert(s.filter(pred) =~= Seq::<A>::empty());
}

/// Placing `x` after every element keyed no higher, and before every element
/// keyed higher, extends a stable sort by one input element.
proof fn lemma_stable_insert<A>(
    input: Seq<A>,
    out: Seq<A>,
    pos: int,
    x: A,
    key: spec_fn(A) -> int,
)
    requires
        is_stable_sort(input, out, key),
        0 <= pos <= out.len(),
        forall|i: int| 0 <= i < pos ==> key(#[trigger] out[i]) <= key(x),
        forall|i: int| pos <= i < out.len() ==> key(#[trigger] out[i]) > key(x),
    ensures
        is_stable_sort(input.push(x), out.insert(pos, x), key),
{
    let n = out.insert(pos, x);
    assert forall|i: int, j: int| 0 <= i < j < n.len() implies key(#[trigger] n[i]) <= key(
        #[trigger] n[j],
    ) by {
        if j < pos {
            assert(key(out[i]) <= key(out[j]));
        } else if j == pos {
        } else if i < pos {
        } else if i == pos {
        } else {
            assert(key(out[i - 1]) <= key(out[j - 1]));
        }
    }
    let head = out.take(pos);
    let tail = out.skip(pos);
    assert(out =~= head + tail);
    assert(n =~= head + seq![x] + tail);
    assert forall|k: int| #[trigger] n.filter(key_is(key, k)) == input.push(x).filter(
        key_is(key, k),
    ) by {
        let p = key_is(key, k);
        Seq::filter_distributes_over_add(head, tail, p);
        Seq::filter_distributes_over_add(head + seq![x], tail, p);
        Seq::filter_distributes_over_add(head, seq![x], p);
        input.lemma_filter_push(x, p);
        Seq::<A>::empty().lemma_filter_push(x, p);
        assert(Seq::<A>::empty().push(x) =~= seq![x]);
        assert(Seq::<A>::empty().filter(p) =~= Seq::<A>::empty()) by {
            reveal(Seq::filter);
        }
        if key(x) == k {
            lemma_filter_none(tail, p);
            assert(out.filter(p) =~= head.filter(p));
            assert(n.filter(p) =~= head.filter(p).push(x));
        } else {
            assert(n.filter(p) =~= head.filter(p) + tail.filter(p));
        }
    }
}

/// A listing as Universalis sends it.
#[derive(Debug, Clone, PartialEq)]
pub struct RawListing {
    pub price_per_unit: u32,
    pub quantity: u32,
    pub total: Option<u32>,
    pub hq: bool,
    pub world_name: Option<String>,
    pub retainer_name: Option<String>,
}

/// A sale as Universalis sends it.
#[derive(Debug, Clone, PartialEq)]
pub struct RawSale {
    pub price_per_unit: u32,
    pub quantity: u32,
    pub hq: bool,
    pub timestamp: i64,
    pub world_name: Option<String>,
}

/// One listing on the board, as the window shows it.
#[derive(Debug, Clone, PartialEq)]
pub struct Listing {
    pub price_per_unit: u32,
    pub quantity: u32,
    pub total: u32,
    pub hq: bool,
    /// Present on data-center and region queries; `None` for a single world.
    pub world_name: Option<String>,
    pub retainer_name: Option<String>,
}

/// One recent sale, as the window shows it.
#[derive(Debug, Clone, PartialEq)]
pub struct Sale {
    pub price_per_unit: u32,
    pub quantity: u32,
    pub hq: bool,
    /// Unix seconds.
    pub timestamp: i64,
    pub world_name: Option<String>,
}

/// What a listing is, to a contract.
pub struct ListingModel {
    pub price_per_unit: u32,
    pub quantity: u32,
    pub total: u32,
    pub hq: bool,
    pub world_name: Option<Seq<char>>,
    pub retainer_name: Option<Seq<char>>,
}

/// What a sale is, to a contract.
pub struct SaleModel {
    pub price_per_unit: u32,
    pub quantity: u32,
    pub hq: bool,
    pub timestamp: i64,
    pub world_name: Option<Seq<char>>,
}

impl View for Listing {
    type V = ListingModel;

    open spec fn view(&self) -> ListingModel {
        ListingModel {
            price_per_unit: self.price_per_unit,
            quantity: self.quantity,
            total: self.total,
            hq: self.hq,
            world_name: opt_view(self.world_name),
            retainer_name: opt_view(self.retainer_name),
        }
    }
}

impl View for Sale {
    type V = SaleModel;

    open spec fn view(&self) -> SaleModel {
        SaleModel {
            price_per_unit: self.price_per_unit,
            quantity: self.quantity,
            hq: self.hq,
            timestamp: self.timestamp,
            world_name: opt_view(self.world_name),
        }
    }
}

/// The listing shown for a raw one: the total is derived from price and
/// quantity when absent, and an empty retainer name counts as none.
pub open spec fn listing_of(r: RawListing) -> ListingModel {
    ListingModel {
        price_per_unit: r.price_per_unit,
        quantity: r.quantity,
        total: match r.total {
            Some(t) => t,
            None => (r.price_per_unit * r.quantity) as u32,
        },
        hq: r.hq,
        world_name: opt_view(r.world_name),
        retainer_name: match opt_view(r.retainer_name) {
            Some(n) => if n.len() > 0 {
                Some(n)
            } else {
                None
            },
            None => None,
        },
    }
}

/// The sale shown for a raw one.
pub open spec fn sale_of(r: RawSale) -> SaleModel {
    SaleModel {
        price_per_unit: r.price_per_unit,
        quantity: r.quantity,
        hq: r.hq,
        timestamp: r.timestamp,
        world_name: opt_view(r.world_name),
    }
}

/// Listings are ordered cheapest first.
pub open spec fn listing_key() -> spec_fn(ListingModel) -> int {
    |l: ListingModel| l.price_per_unit as int
}

/// Sales are ordered newest first.
pub open spec fn sale_key() -> spec_fn(SaleModel) -> int {
    |s: SaleModel| -(s.timestamp as int)
}

/// No listing without a total overflows `u32` when its total is derived.
pub open spec fn totals_fit(raw: Seq<RawListing>) -> bool {
    forall|i: int|
        0 <= i < raw.len() && (#[trigger] raw[i]).total is None ==> raw[i].price_per_unit
            * raw[i].quantity <= u32::MAX
}

fn listing_from_raw(r: &RawListing) -> (l: Listing)
    requires
        r.total is None ==> r.price_per_unit * r.quantity <= u32::MAX,
    ensures
        l@ == listing_of(*r),
{
    let total = match r.total {
        Some(t) => t,
        None => r.price_per_unit * r.quantity,
    };
    let retainer_name = match &r.retainer_name {
        Some(n) => if n.as_str().is_empty() {
            None
        } else {
            Some(n.clone())
        },
        None => None,
    };
    Listing {
        price_per_unit: r.price_per_unit,
        quantity: r.quantity,
        total,
        hq: r.hq,
        world_name: crate::catalog::copy_opt_string(&r.world_name),
        retainer_name,
    }
}

/// The listings to show, cheapest first. Listings at one price keep the order
/// Universalis sent them in.
pub fn listings_from_raw(raw: &Vec<RawListing>) -> (r: Vec<Listing>)
    requires
        totals_fit(raw@),
    ensures
        is_stable_sort(
            raw@.map_values(|x: RawListing| listing_of(x)),
            r@.map_values(|l: Listing| l@),
            listing_key(),
        ),
{
    let ghost input = raw@.map_values(|x: RawListing| listing_of(x));
    let mut out: Vec<Listing> = Vec::new();
    let mut i: usize = 0;
    assert(input.take(0) =~= out@.map_values(|l: Listing| l@));
    while i < raw.len()
        invariant
            input == raw@.map_values(|x: RawListing| listing_of(x)),
            totals_fit(raw@),
            i <= raw@.len(),
            is_stable_sort(input.take(i as int), out@.map_values(|l: Listing| l@), listing_key()),
        decreases raw@.len() - i,
    {
        let x = listing_from_raw(&raw[i]);
        let ghost view_before = out@.map_values(|l: Listing| l@);
        let mut pos: usize = 0;
        while pos < out.len() && out[pos].price_per_unit <= x.price_per_unit
            invariant
                pos <= out@.len(),
                view_before == out@.map_values(|l: Listing| l@),
                forall|k: int| 0 <= k < pos ==> listing_key()(#[trigger] view_before[k]) <= listing_key()(x@),
            decreases out@.len() - pos,
        {
            pos += 1;
        }
        proof {
            assert forall|k: int| pos <= k < view_before.len() implies listing_key()(
                #[trigger] view_before[k],
            ) > listing_key()(x@) by {
                if pos < view_before.len() {
                    assert(listing_key()(view_before[pos as int]) > listing_key()(x@));
                    assert(listing_key()(view_before[pos as int]) <= listing_key()(view_before[k]));
                }
            }
            lemma_stable_insert(input.take(i as int), view_before, pos as int, x@, listing_key());
            assert(input.take(i + 1) =~= input.take(i as int).push(x@));
        }
        out.insert(pos, x);
        assert(out@.map_values(|l: Listing| l@) =~= view_before.insert(pos as int, x@));
        i += 1;
    }
    assert(input.take(raw@.len() as int) =~= input);
    out
}

fn sale_from_raw(r: &RawSale) -> (s: Sale)
    ensures
        s@ == sale_of(*r),
{
    Sale {
        price_per_unit: r.price_per_unit,
        quantity: r.quantity,
        hq: r.hq,
        timestamp: r.timestamp,
        world_name: crate::catalog::copy_opt_string(&r.world_name),
    }
}

/// The recent sales to show, newest first. Sales at one moment keep the
/// order Universalis sent them in.
pub fn sales_from_raw(raw: &Vec<RawSale>) -> (r: Vec<Sale>)
    ensures
        is_stable_sort(
            raw@.map_values(|x: RawSale| sale_of(x)),
            r@.map_values(|s: Sale| s@),
            sale_key(),
        ),
{
    let ghost input = raw@.map_values(|x: RawSale| sale_of(x));
    let mut out: Vec<Sale> = Vec::new();
    let mut i: usize = 0;
    assert(input.take(0) =~= out@.map_values(|s: Sale| s@));
    while i < raw.len()
        invariant
            input == raw@.map_values(|x: RawSale| sale_of(x)),
            i <= raw@.len(),
            is_stable_sort(input.take(i as int), out@.map_values(|s: Sale| s@), sale_key()),
        decreases raw@.len() - i,
    {
        let x = sale_from_raw(&raw[i]);
        let ghost view_before = out@.map_values(|s: Sale| s@);
        let mut pos: usize = 0;
        while pos < out.len() && out[pos].timestamp >= x.timestamp
            invariant
                pos <= out@.len(),
                view_before == out@.map_values(|s: Sale| s@),
                forall|k: int| 0 <= k < pos ==> sale_key()(#[trigger] view_before[k]) <= sale_key()(x@),
            decreases out@.len() - pos,
        {
            pos += 1;
        }
        proof {
            assert forall|k: int| pos <= k < view_before.len() implies sale_key()(
                #[trigger] view_before[k],
            ) > sale_key()(x@) by {
                if pos < view_before.len() {
                    assert(sale_key()(view_before[pos as int]) > sale_key()(x@));
                    assert(sale_key()(view_before[pos as int]) <= sale_key()(view_before[k]));
                }
            }
            lemma_stable_insert(input.take(i as int), view_before, pos as int, x@, sale_key());
            assert(input.take(i + 1) =~= input.take(i as int).push(x@));
        }
        out.insert(pos, x);
        assert(out@.map_values(|s: Sale| s@) =~= view_before.insert(pos as int, x@));
        i += 1;
    }
    assert(input.take(raw@.len() as int) =~= input);
    out
}

/// An upload time Universalis reports as zero or below means none.
pub fn known_time(t: Option<i64>) -> (r: Option<i64>)
    ensures
        r == (match t {
            Some(v) => if v > 0 {
                Some(v)
            } else {
                None
            },
            None => None,
        }),
{
    match t {
        Some(v) => if v > 0 {
            Some(v)
        } else {
            None
        },
        None => None,
    }
}


/// Where the Universalis API lives.
pub const BASE_URL: &'static str = "https://universalis.app/api/v2";

/// Rows of listings asked for per item: the overlay shows a handful.
pub const LISTINGS_PER_ITEM: u32 = 12;

/// Rows of sale history asked for per item.
pub const HISTORY_ENTRIES_PER_ITEM: u32 = 12;

/// Universalis accepts at most 100 comma-separated IDs per request.
pub const MAX_IDS_PER_REQUEST: usize = 100;

/// Told to a caller asking for prices on a blank board.
pub const NO_SCOPE: &'static str = "no world or data center selected";

/// Told when Universalis answers 404.
pub const NOT_FOUND: &'static str = "unknown world/data center, or no market data for that item";

/// `s` without the `/` characters that end it.
pub open spec fn trim_end_slashes(s: Seq<char>) -> Seq<char>
    decreases s.len(),
{
    if s.len() > 0 && s.last() == '/' {
        trim_end_slashes(s.drop_last())
    } else {
        s
    }
}

/// A base URL without trailing slashes, so paths can be appended to it.
pub fn trim_end_slashes_str(s: &str) -> (r: &str)
    ensures
        r@ == trim_end_slashes(s@),
{
    let v = crate::text::chars_of(s);
    let mut hi: usize = v.len();
    assert(s@.subrange(0, hi as int) =~= s@);
    while hi > 0 && v[hi - 1] == '/'
        invariant
            v@ == s@,
            hi <= s@.len(),
            trim_end_slashes(s@) == trim_end_slashes(s@.subrange(0, hi as int)),
        decreases hi,
    {
        assert(s@.subrange(0, hi as int).drop_last() =~= s@.subrange(0, hi - 1));
        hi -= 1;
    }
    s.substring_char(0, hi)
}

/// The ids, in decimal, separated by commas.
pub open spec fn join_ids(ids: Seq<u32>) -> Seq<char>
    decreases ids.len(),
{
    if ids.len() == 0 {
        Seq::empty()
    } else if ids.len() == 1 {
        decimal_spec(ids[0] as nat)
    } else {
        join_ids(ids.drop_last()) + seq![','] + decimal_spec(ids.last() as nat)
    }
}

/// The market-data URL for `ids` on board `scope` (already trimmed and
/// non-blank).
pub open spec fn market_url_spec(base: Seq<char>, ids: Seq<u32>, scope: Seq<char>) -> Seq<char> {
    base + seq!['/'] + percent_encode(encode_utf8(scope)) + seq!['/'] + join_ids(ids)
        + "?listings="@ + decimal_spec(LISTINGS_PER_ITEM as nat) + "&entries="@ + decimal_spec(
        HISTORY_ENTRIES_PER_ITEM as nat,
    )
}

/// The URL asking Universalis for the current market of `item_ids` on a
/// world, data center or region. A blank board is refused.
pub fn market_url(base_url: &str, item_ids: &[u32], scope: &str) -> (r: AppResult<String>)
    ensures
        trim_spec(scope@).len() == 0 ==> (r matches Err(e) && e.is_invalid_with(NO_SCOPE@)),
        trim_spec(scope@).len() > 0 ==> (r matches Ok(u) && u@ == market_url_spec(
            base_url@,
            item_ids@,
            trim_spec(scope@),
        )),
{
    let scope = trim(scope);
    if scope.is_empty() {
        return Err(invalid(NO_SCOPE));
    }
    let mut url = String::from_str(base_url);
    url.push('/');
    let encoded = urlencode(scope);
    url.append(encoded.as_str());
    url.push('/');
    let ghost prefix = url@;
    let mut i: usize = 0;
    while i < item_ids.len()
        invariant
            i <= item_ids@.len(),
            url@ == prefix + join_ids(item_ids@.take(i as int)),
        decreases item_ids@.len() - i,
    {
        proof {
            assert(item_ids@.take(i + 1).drop_last() =~= item_ids@.take(i as int));
        }
        if i > 0 {
            url.push(',');
        }
        push_decimal(&mut url, item_ids[i] as u64);
        proof {
            if i == 0 {
                assert(item_ids@.take(1) =~= seq![item_ids@[0]]);
                assert(join_ids(item_ids@.take(0)) =~= Seq::<char>::empty());
            }
        }
        assert(url@ =~= prefix + join_ids(item_ids@.take(i + 1)));
        i += 1;
    }
    assert(item_ids@.take(item_ids@.len() as int) =~= item_ids@);
    url.append("?listings=");
    push_decimal(&mut url, LISTINGS_PER_ITEM as u64);
    url.append("&entries=");
    push_decimal(&mut url, HISTORY_ENTRIES_PER_ITEM as u64);
    assert(url@ =~= market_url_spec(base_url@, item_ids@, scope@));
    Ok(url)
}

/// How a request for several items' prices goes out.
#[derive(Debug, PartialEq)]
pub enum PriceRequest {
    /// No ids: no request, no prices.
    Nothing,
    /// One id: the single-item endpoint.
    One(u32),
    /// Several ids: one multi-item request.
    Many,
}

/// The message refusing a request for too many items.
pub open spec fn too_many_ids_message(n: nat) -> Seq<char> {
    "at most "@ + decimal_spec(MAX_IDS_PER_REQUEST as nat) + " items per request, got "@
        + decimal_spec(n)
}

/// How to ask for the prices of `item_ids`: nothing for none, the
/// single-item endpoint for one, one batch for up to `MAX_IDS_PER_REQUEST`;
/// more than that is refused.
pub fn plan_price_request(item_ids: &[u32]) -> (r: AppResult<PriceRequest>)
    ensures
        item_ids@.len() == 0 ==> r == Ok::<PriceRequest, AppError>(PriceRequest::Nothing),
        item_ids@.len() == 1 ==> r == Ok::<PriceRequest, AppError>(PriceRequest::One(item_ids@[0])),
        1 < item_ids@.len() <= MAX_IDS_PER_REQUEST ==> r == Ok::<PriceRequest, AppError>(
            PriceRequest::Many,
        ),
        item_ids@.len() > MAX_IDS_PER_REQUEST ==> (r matches Err(e) && e.is_invalid_with(
            too_many_ids_message(item_ids@.len()),
        )),
{
    let n = item_ids.len();
    if n == 0 {
        Ok(PriceRequest::Nothing)
    } else if n == 1 {
        Ok(PriceRequest::One(item_ids[0]))
    } else if n > MAX_IDS_PER_REQUEST {
        let mut m = String::from_str("at most ");
        push_decimal(&mut m, MAX_IDS_PER_REQUEST as u64);
        m.append(" items per request, got ");
        push_decimal(&mut m, n as u64);
        Err(AppError::Invalid(m))
    } else {
        Ok(PriceRequest::Many)
    }
}

/// What an HTTP status from Universalis means: success for 2xx, "not found"
/// for 404, and the code itself otherwise.
pub fn check_status(status: u16) -> (r: AppResult<()>)
    ensures
        200 <= status <= 299 ==> r is Ok,
        status == 404 ==> (r matches Err(e) && e is Universalis && e.detail() == NOT_FOUND@),
        status != 404 && !(200 <= status <= 299) ==> (r matches Err(e) && e is Universalis
            && e.detail() == "server replied "@ + decimal_spec(status as nat)),
{
    if status == 404 {
        return Err(AppError::Universalis(String::from_str(NOT_FOUND)));
    }
    if status < 200 || status > 299 {
        let mut m = String::from_str("server replied ");
        push_decimal(&mut m, status as u64);
        return Err(AppError::Universalis(m));
    }
    Ok(())
}

/// A request that never got an answer: a timeout, a failed connection, or
/// whatever else the transport reported.
pub fn transport_error(timed_out: bool, connect_failed: bool, detail: &str) -> (e: AppError)
    ensures
        e is Universalis,
        timed_out ==> e.detail() == "request timed out"@,
        !timed_out && connect_failed ==> e.detail() == "no network connection"@,
        !timed_out && !connect_failed ==> e.detail() == detail@,
{
    if timed_out {
        AppError::Universalis(String::from_str("request timed out"))
    } else if connect_failed {
        AppError::Universalis(String::from_str("no network connection"))
    } else {
        AppError::Universalis(String::from_str(detail))
    }
}

/// The ids that came back with data, each with its data, in the order the
/// ids were asked for.
pub open spec fn in_request_order_spec<T>(ids: Seq<u32>, found: Seq<Option<T>>) -> Seq<(u32, T)>
    decreases found.len(),
{
    if found.len() == 0 {
        Seq::empty()
    } else {
        let k = found.len() - 1;
        in_request_order_spec(ids, found.drop_last()) + match found[k] {
            Some(v) => seq![(ids[k], v)],
            None => Seq::empty(),
        }
    }
}

/// Pair each requested id with what came back for it (`found[i]` for
/// `ids[i]`), keeping the caller's order and skipping ids that came back
/// with nothing.
pub fn in_request_order<T>(ids: &[u32], found: Vec<Option<T>>) -> (r: Vec<(u32, T)>)
    requires
        found@.len() == ids@.len(),
    ensures
        r@ == in_request_order_spec(ids@, found@),
{
    let ghost all = found@;
    assert(ids@.len() == ids.len());
    let mut out: Vec<(u32, T)> = Vec::new();
    let mut i: usize = 0;
    for entry in it: found.into_iter()
        invariant
            it.seq() == all,
            all.len() == ids@.len(),
            ids@.len() <= usize::MAX,
            i == it.index(),
            out@ == in_request_order_spec(ids@, all.take(it.index() as int)),
    {
        let ghost k = it.index() as int;
        assert(all.take(k + 1).drop_last() =~= all.take(k));
        assert(all.take(k + 1)[k] == entry);
        match entry {
            Some(v) => {
                out.push((ids[i], v));
            },
            None => {},
        }
        i += 1;
    }
    assert(all.take(all.len() as int) =~= all);
    out
}

/// Board names compare as an equivalence: every name is the same board as
/// itself, in either order, and through a third name.
pub proof fn law_same_scope_is_an_equivalence(a: Seq<char>, b: Seq<char>, c: Seq<char>)
    ensures
        same_scope(a, a),
        same_scope(a, b) == same_scope(b, a),
        same_scope(a, b) && same_scope(b, c) ==> same_scope(a, c),
{
}

/// What a stably sorted list holds is what its input holds: every output
/// element occurs in the input and every input element in the output.
proof fn lemma_stable_sort_same_elements<A>(input: Seq<A>, output: Seq<A>, key: spec_fn(A) -> int)
    requires
        is_stable_sort(input, output, key),
    ensures
        forall|k: int| 0 <= k < output.len() ==> input.contains(#[trigger] output[k]),
        forall|i: int| 0 <= i < input.len() ==> output.contains(#[trigger] input[i]),
{
    assert forall|k: int| 0 <= k < output.len() implies input.contains(#[trigger] output[k]) by {
        let p = key_is(key, key(output[k]));
        output.lemma_filter_contains(p, k);
        assert(output.filter(p) == input.filter(p));
        input.lemma_filter_contains_rev(p, output[k]);
    }
    assert forall|i: int| 0 <= i < input.len() implies output.contains(#[trigger] input[i]) by {
        let p = key_is(key, key(input[i]));
        input.lemma_filter_contains(p, i);
        assert(output.filter(p) == input.filter(p));
        output.lemma_filter_contains_rev(p, input[i]);
    }
}

/// A shown listing presents raw listing `r`: the same price per unit,
/// quantity, HQ flag and world; the total Universalis sent, if it sent one;
/// and the retainer's name only when it is a non-empty name `r` carries.
pub open spec fn presents_listing(l: ListingModel, r: RawListing) -> bool {
    &&& l.price_per_unit == r.price_per_unit
    &&& l.quantity == r.quantity
    &&& l.hq == r.hq
    &&& l.world_name == opt_view(r.world_name)
    &&& (r.total matches Some(t) ==> l.total == t)
    &&& (l.retainer_name matches Some(n) ==> n.len() > 0 && opt_view(r.retainer_name) == Some(n))
}

/// A shown sale presents raw sale `r` field for field.
pub open spec fn presents_sale(s: SaleModel, r: RawSale) -> bool {
    &&& s.price_per_unit == r.price_per_unit
    &&& s.quantity == r.quantity
    &&& s.hq == r.hq
    &&& s.timestamp == r.timestamp
    &&& s.world_name == opt_view(r.world_name)
}

spec fn listing_models(raw: Seq<RawListing>) -> Seq<ListingModel> {
    raw.map_values(|x: RawListing| listing_of(x))
}

spec fn sale_models(raw: Seq<RawSale>) -> Seq<SaleModel> {
    raw.map_values(|x: RawSale| sale_of(x))
}

/// Some listing of `raw` is the one `l` presents.
pub open spec fn presents_some_listing(l: ListingModel, raw: Seq<RawListing>) -> bool {
    exists|i: int| 0 <= i < raw.len() && #[trigger] presents_listing(l, raw[i])
}

/// Some shown listing presents `r`.
pub open spec fn is_presented_listing(r: RawListing, shown: Seq<ListingModel>) -> bool {
    exists|k: int| 0 <= k < shown.len() && #[trigger] presents_listing(shown[k], r)
}

/// Some sale of `raw` is the one `s` presents.
pub open spec fn presents_some_sale(s: SaleModel, raw: Seq<RawSale>) -> bool {
    exists|i: int| 0 <= i < raw.len() && #[trigger] presents_sale(s, raw[i])
}

/// Some shown sale presents `r`.
pub open spec fn is_presented_sale(r: RawSale, shown: Seq<SaleModel>) -> bool {
    exists|k: int| 0 <= k < shown.len() && #[trigger] presents_sale(shown[k], r)
}

proof fn lemma_listings_presented(raw: Seq<RawListing>, shown: Seq<ListingModel>)
    requires
        forall|k: int| 0 <= k < shown.len() ==> listing_models(raw).contains(#[trigger] shown[k]),
        forall|i: int| 0 <= i < raw.len() ==> shown.contains(#[trigger] listing_models(raw)[i]),
    ensures
        forall|k: int| 0 <= k < shown.len() ==> presents_some_listing(#[trigger] shown[k], raw),
        forall|i: int| 0 <= i < raw.len() ==> is_presented_listing(#[trigger] raw[i], shown),
{
    let input = listing_models(raw);
    assert(input.len() == raw.len());
    assert forall|k: int| 0 <= k < shown.len() implies presents_some_listing(#[trigger] shown[k], raw) by {
        assert(input.contains(shown[k]));
        let i = choose|i: int| 0 <= i < input.len() && input[i] == shown[k];
        assert(input[i] == listing_of(raw[i]));
        assert(presents_listing(shown[k], raw[i]));
    }
    assert forall|i: int| 0 <= i < raw.len() implies is_presented_listing(#[trigger] raw[i], shown) by {
        assert(input[i] == listing_of(raw[i]));
        assert(shown.contains(input[i]));
        let k = choose|k: int| 0 <= k < shown.len() && shown[k] == input[i];
        assert(presents_listing(shown[k], raw[i]));
    }
}

proof fn lemma_sales_presented(raw: Seq<RawSale>, shown: Seq<SaleModel>)
    requires
        forall|k: int| 0 <= k < shown.len() ==> sale_models(raw).contains(#[trigger] shown[k]),
        forall|i: int| 0 <= i < raw.len() ==> shown.contains(#[trigger] sale_models(raw)[i]),
    ensures
        forall|k: int| 0 <= k < shown.len() ==> presents_some_sale(#[trigger] shown[k], raw),
        forall|i: int| 0 <= i < raw.len() ==> is_presented_sale(#[trigger] raw[i], shown),
{
    let input = sale_models(raw);
    assert(input.len() == raw.len());
    assert forall|k: int| 0 <= k < shown.len() implies presents_some_sale(#[trigger] shown[k], raw) by {
        assert(input.contains(shown[k]));
        let i = choose|i: int| 0 <= i < input.len() && input[i] == shown[k];
        assert(input[i] == sale_of(raw[i]));
        assert(presents_sale(shown[k], raw[i]));
    }
    assert forall|i: int| 0 <= i < raw.len() implies is_presented_sale(#[trigger] raw[i], shown) by {
        assert(input[i] == sale_of(raw[i]));
        assert(shown.contains(input[i]));
        let k = choose|k: int| 0 <= k < shown.len() && shown[k] == input[i];
        assert(presents_sale(shown[k], raw[i]));
    }
}

/// Shown listings are the raw listings, cheapest per unit first: each shown
/// one presents some raw one (its HQ flag, world, price and quantity
/// included), each raw one is presented by some shown one, and prices never
/// fall along the list.
pub proof fn law_listings_present_every_raw_listing_cheapest_first(
    raw: Seq<RawListing>,
    shown: Seq<ListingModel>,
)
    requires
        is_stable_sort(raw.map_values(|x: RawListing| listing_of(x)), shown, listing_key()),
    ensures
        forall|k: int| 0 <= k < shown.len() ==> presents_some_listing(#[trigger] shown[k], raw),
        forall|i: int| 0 <= i < raw.len() ==> is_presented_listing(#[trigger] raw[i], shown),
        forall|a: int, b: int|
            0 <= a < b < shown.len() ==> (#[trigger] shown[a]).price_per_unit <= (
            #[trigger] shown[b]).price_per_unit,
{
    assert(raw.map_values(|x: RawListing| listing_of(x)) == listing_models(raw));
    lemma_stable_sort_same_elements(listing_models(raw), shown, listing_key());
    lemma_listings_presented(raw, shown);
    assert forall|a: int, b: int| 0 <= a < b < shown.len() implies (#[trigger] shown[a]).price_per_unit
        <= (#[trigger] shown[b]).price_per_unit by {
        assert(listing_key()(shown[a]) <= listing_key()(shown[b]));
    }
}

/// Shown sales are the raw sales, newest first: each shown one presents some
/// raw one (its HQ flag included), each raw one is presented by some shown
/// one, and timestamps never grow along the list.
pub proof fn law_sales_present_every_raw_sale_newest_first(raw: Seq<RawSale>, shown: Seq<SaleModel>)
    requires
        is_stable_sort(raw.map_values(|x: RawSale| sale_of(x)), shown, sale_key()),
    ensures
        forall|k: int| 0 <= k < shown.len() ==> presents_some_sale(#[trigger] shown[k], raw),
        forall|i: int| 0 <= i < raw.len() ==> is_presented_sale(#[trigger] raw[i], shown),
        forall|a: int, b: int|
            0 <= a < b < shown.len() ==> (#[trigger] shown[a]).timestamp >= (
            #[trigger] shown[b]).timestamp,
{
    assert(raw.map_values(|x: RawSale| sale_of(x)) == sale_models(raw));
    lemma_stable_sort_same_elements(sale_models(raw), shown, sale_key());
    lemma_sales_presented(raw, shown);
    assert forall|a: int, b: int| 0 <= a < b < shown.len() implies (#[trigger] shown[a]).timestamp
        >= (#[trigger] shown[b]).timestamp by {
        assert(sale_key()(shown[a]) <= sale_key()(shown[b]));
    }
}

/// Widening goes exactly one level out. A blank board has nowhere to go. A
/// board named like a world (the first so named) widens to the first data
/// center that holds that world. A board named like no world but like a data
/// center (the first so named) widens to that data center's own region.
pub proof fn law_widen_goes_one_level_out(
    worlds: Seq<WorldModel>,
    dcs: Seq<DataCenterModel>,
    scope: Seq<char>,
    w: int,
    d: int,
)
    ensures
        trim_spec(scope).len() == 0 ==> widen_spec(worlds, dcs, scope) is None,
        ({
            &&& trim_spec(scope).len() > 0
            &&& 0 <= w < worlds.len()
            &&& same_scope(worlds[w].name, scope)
            &&& forall|i: int| 0 <= i < w ==> !same_scope(#[trigger] worlds[i].name, scope)
            &&& 0 <= d < dcs.len()
            &&& dcs[d].worlds.contains(worlds[w].id)
            &&& forall|j: int| 0 <= j < d ==> !(#[trigger] dcs[j].worlds).contains(worlds[w].id)
        }) ==> widen_spec(worlds, dcs, scope) == Some(dcs[d].name),
        ({
            &&& trim_spec(scope).len() > 0
            &&& forall|i: int| 0 <= i < worlds.len() ==> !same_scope(#[trigger] worlds[i].name, scope)
            &&& 0 <= d < dcs.len()
            &&& same_scope(dcs[d].name, scope)
            &&& forall|j: int| 0 <= j < d ==> !same_scope(#[trigger] dcs[j].name, scope)
        }) ==> widen_spec(worlds, dcs, scope) == Some(dcs[d].region),
{
    let s = trim_spec(scope);
    lemma_trim_idempotent(scope);
    assert forall|x: Seq<char>| #[trigger] same_scope(x, s) == same_scope(x, scope) by {}
    if s.len() > 0 && 0 <= w < worlds.len() && same_scope(worlds[w].name, scope) && (forall|i: int|
        0 <= i < w ==> !same_scope(#[trigger] worlds[i].name, scope)) && 0 <= d < dcs.len()
        && dcs[d].worlds.contains(worlds[w].id) && (forall|j: int|
        0 <= j < d ==> !(#[trigger] dcs[j].worlds).contains(worlds[w].id)) {
        assert forall|i: int| 0 <= i < w implies !(world_named(s))(#[trigger] worlds[i]) by {
            assert(!same_scope(worlds[i].name, scope));
        }
        lemma_first_where(worlds, world_named(s), w);
        assert forall|j: int| 0 <= j < d implies !(holds_world(worlds[w].id))(#[trigger] dcs[j]) by {
            assert(!dcs[j].worlds.contains(worlds[w].id));
        }
        lemma_first_where(dcs, holds_world(worlds[w].id), d);
    }
    if s.len() > 0 && (forall|i: int| 0 <= i < worlds.len() ==> !same_scope(#[trigger] worlds[i].name, scope))
        && 0 <= d < dcs.len() && same_scope(dcs[d].name, scope) && (forall|j: int|
        0 <= j < d ==> !same_scope(#[trigger] dcs[j].name, scope)) {
        assert forall|i: int| 0 <= i < worlds.len() implies !(world_named(s))(#[trigger] worlds[i]) by {
            assert(!same_scope(worlds[i].name, scope));
        }
        lemma_first_where_none(worlds, world_named(s));
        assert forall|j: int| 0 <= j < d implies !(data_center_named(s))(#[trigger] dcs[j]) by {
            assert(!same_scope(dcs[j].name, scope));
        }
        lemma_first_where(dcs, data_center_named(s), d);
    }
}

/// A point on the system clock.
#[verifier::external_type_specification]
#[verifier::external_body]
pub struct ExSystemTime(std::time::SystemTime);

/// `SystemTime::now`: the current time on the system clock. Nothing is
/// promised of it.
#[verifier::external_body]
fn system_now() -> std::time::SystemTime {
    std::time::SystemTime::now()
}

/// `SystemTime::duration_since` measured from the Unix epoch; `None` when
/// the clock reads earlier than the epoch. Nothing is promised of the
/// duration.
#[verifier::external_body]
fn since_unix_epoch(t: &std::time::SystemTime) -> Option<std::time::Duration> {
    t.duration_since(std::time::UNIX_EPOCH).ok()
}

/// `Duration::as_millis`: the whole milliseconds in a duration.
#[verifier::external_body]
fn whole_millis(d: &std::time::Duration) -> u128 {
    d.as_millis()
}

/// A reading of milliseconds since the Unix epoch as a signed timestamp:
/// the reading cut to `i64` (as `as i64` does), or 0 when there is none.
pub open spec fn epoch_millis_spec(since_epoch_ms: Option<u128>) -> i64 {
    match since_epoch_ms {
        Some(ms) => ms as i64,
        None => 0,
    }
}

/// Milliseconds since the Unix epoch as a signed timestamp; 0 for a clock
/// that reads before the epoch.
pub fn epoch_millis(since_epoch_ms: Option<u128>) -> (r: i64)
    ensures
        r == epoch_millis_spec(since_epoch_ms),
{
    match since_epoch_ms {
        Some(ms) => {
            #[verifier::truncate]
            (ms as i64)
        },
        None => 0,
    }
}

/// Unix milliseconds now, or 0 when the clock reads before the epoch.
pub fn now_millis() -> i64 {
    let now = system_now();
    let since_epoch_ms = match since_unix_epoch(&now) {
        Some(d) => Some(whole_millis(&d)),
        None => None,
    };
    epoch_millis(since_epoch_ms)
}

} // verus!
