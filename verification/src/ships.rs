//! Ship identities: grouping position reports, sorted by identity, into one
//! record per identity (MMSI, IMO, call sign, vessel name), and laying those
//! records out by the leading digit of the MMSI.
//!
//! Float columns (position, speed, course, heading, dimensions) are carried
//! as the bit patterns of their `f32` values: grouping only moves them.
use crate::decimal::{decimal_digits, decimal_string, decimal_text};
use crate::partition::{dec_chars, is_run_split, is_run_split_prefix};
use crate::text::str_equal;
use vstd::prelude::*;

verus! {

/// A position report as grouping reads it.
pub struct AisRow {
    pub mmsi: Option<i64>,
    pub imo: Option<i64>,
    pub call_sign: Option<String>,
    pub vessel_name: Option<String>,
    pub position: Position,
    pub transceiver_class: Option<bool>,
    /// `f32` bits of the draft.
    pub draft: Option<u32>,
    /// `f32` bits of the length.
    pub length: Option<u32>,
    /// `f32` bits of the width.
    pub width: Option<u32>,
    pub vessel_type: Option<String>,
}

/// One entry of a ship's position list; the floats are `f32` bit patterns.
#[derive(Clone, Copy, Debug, PartialEq, Eq, Structural)]
pub struct Position {
    /// `BaseDateTime` in microseconds.
    pub base_dt: Option<i64>,
    pub lat: Option<u32>,
    pub lon: Option<u32>,
    pub sog: Option<u32>,
    pub cog: Option<u32>,
    pub heading: Option<u32>,
}

/// The characters of an optional string.
pub open spec fn opt_chars(s: Option<String>) -> Option<Seq<char>> {
    match s {
        Some(v) => Some(v@),
        None => None,
    }
}

/// The identity of a ship: MMSI, IMO, call sign and vessel name.
pub type IdentityKey = (Option<i64>, Option<i64>, Option<Seq<char>>, Option<Seq<char>>);

/// The identity a row reports.
pub open spec fn row_key(row: &AisRow) -> IdentityKey {
    (row.mmsi, row.imo, opt_chars(row.call_sign), opt_chars(row.vessel_name))
}

/// One ship identity with its latest attributes and all its positions.
pub struct IdentityGroup {
    pub mmsi: Option<i64>,
    pub imo: Option<i64>,
    pub call_sign: Option<String>,
    pub vessel_name: Option<String>,
    pub transceiver_class: Option<bool>,
    pub draft: Option<u32>,
    pub length: Option<u32>,
    pub width: Option<u32>,
    pub vessel_type: Option<String>,
    pub last_known_date: Option<i64>,
    pub last_lat: Option<u32>,
    pub last_lon: Option<u32>,
    pub positions: Vec<Position>,
}

/// What an identity group holds, with strings as characters.
pub struct GroupView {
    pub key: IdentityKey,
    pub transceiver_class: Option<bool>,
    pub draft: Option<u32>,
    pub length: Option<u32>,
    pub width: Option<u32>,
    pub vessel_type: Option<Seq<char>>,
    pub last_known_date: Option<i64>,
    pub last_lat: Option<u32>,
    pub last_lon: Option<u32>,
    pub positions: Seq<Position>,
}

impl View for IdentityGroup {
    type V = GroupView;

    open spec fn view(&self) -> GroupView {
        GroupView {
            key: (self.mmsi, self.imo, opt_chars(self.call_sign), opt_chars(self.vessel_name)),
            transceiver_class: self.transceiver_class,
            draft: self.draft,
            length: self.length,
            width: self.width,
            vessel_type: opt_chars(self.vessel_type),
            last_known_date: self.last_known_date,
            last_lat: self.last_lat,
            last_lon: self.last_lon,
            positions: self.positions@,
        }
    }
}

/// `a` if it holds a value, else `b`.
pub open spec fn latest<T>(a: Option<T>, b: Option<T>) -> Option<T> {
    match a {
        Some(v) => Some(v),
        None => b,
    }
}

/// A group of identity `key` that has seen no row yet.
pub open spec fn empty_group(key: IdentityKey) -> GroupView {
    GroupView {
        key,
        transceiver_class: None,
        draft: None,
        length: None,
        width: None,
        vessel_type: None,
        last_known_date: None,
        last_lat: None,
        last_lon: None,
        positions: Seq::empty(),
    }
}

/// The group after taking in `row`: its position is appended and each
/// attribute the row reports replaces the group's.
pub open spec fn absorb_spec(g: GroupView, row: &AisRow) -> GroupView {
    GroupView {
        key: g.key,
        transceiver_class: latest(row.transceiver_class, g.transceiver_class),
        draft: latest(row.draft, g.draft),
        length: latest(row.length, g.length),
        width: latest(row.width, g.width),
        vessel_type: latest(opt_chars(row.vessel_type), g.vessel_type),
        last_known_date: latest(row.position.base_dt, g.last_known_date),
        last_lat: latest(row.position.lat, g.last_lat),
        last_lon: latest(row.position.lon, g.last_lon),
        positions: g.positions.push(row.position),
    }
}

/// Law: taking in a row keeps the group's identity and appends the row's
/// position last; every attribute the row reports (date, latitude,
/// longitude, transceiver class, draft, length, width, vessel type) becomes
/// the group's, whatever the group held before, and every attribute it does
/// not report stays as the group had it.
pub proof fn lemma_absorb_takes_latest(g: GroupView, row: &AisRow)
    ensures
        absorb_spec(g, row).key == g.key,
        absorb_spec(g, row).positions.len() == g.positions.len() + 1,
        absorb_spec(g, row).positions.last() == row.position,
        absorb_spec(g, row).positions.drop_last() == g.positions,
        row.position.base_dt matches Some(v) ==> absorb_spec(g, row).last_known_date == Some(v),
        row.position.base_dt is None ==> absorb_spec(g, row).last_known_date == g.last_known_date,
        row.position.lat matches Some(v) ==> absorb_spec(g, row).last_lat == Some(v),
        row.position.lat is None ==> absorb_spec(g, row).last_lat == g.last_lat,
        row.position.lon matches Some(v) ==> absorb_spec(g, row).last_lon == Some(v),
        row.position.lon is None ==> absorb_spec(g, row).last_lon == g.last_lon,
        row.transceiver_class matches Some(v) ==> absorb_spec(g, row).transceiver_class == Some(v),
        row.transceiver_class is None ==> absorb_spec(g, row).transceiver_class == g.transceiver_class,
        row.draft matches Some(v) ==> absorb_spec(g, row).draft == Some(v),
        row.draft is None ==> absorb_spec(g, row).draft == g.draft,
        row.length matches Some(v) ==> absorb_spec(g, row).length == Some(v),
        row.length is None ==> absorb_spec(g, row).length == g.length,
        row.width matches Some(v) ==> absorb_spec(g, row).width == Some(v),
        row.width is None ==> absorb_spec(g, row).width == g.width,
        row.vessel_type matches Some(v) ==> absorb_spec(g, row).vessel_type == Some(v@),
        row.vessel_type is None ==> absorb_spec(g, row).vessel_type == g.vessel_type,
{
    assert(absorb_spec(g, row).positions.drop_last() =~= g.positions);
}

fn clone_opt_string(s: &Option<String>) -> (r: Option<String>)
    ensures
        opt_chars(r) == opt_chars(*s),
{
    match s {
        Some(v) => Some(String::from_str(v.as_str())),
        None => None,
    }
}

fn opt_str_equal(a: &Option<String>, b: &Option<String>) -> (r: bool)
    ensures
        r == (opt_chars(*a) == opt_chars(*b)),
{
    match (a, b) {
        (Some(x), Some(y)) => str_equal(x.as_str(), y.as_str()),
        (None, None) => true,
        _ => false,
    }
}

impl IdentityGroup {
    /// A group for the identity `(mmsi, imo, call_sign, vessel_name)` with no
    /// position yet.
    pub fn new(mmsi: Option<i64>, imo: Option<i64>, call_sign: Option<String>, vessel_name: Option<String>) -> (r: Self)
        ensures
            r@ == empty_group((mmsi, imo, opt_chars(call_sign), opt_chars(vessel_name))),
    {
        IdentityGroup {
            mmsi,
            imo,
            call_sign,
            vessel_name,
            transceiver_class: None,
            draft: None,
            length: None,
            width: None,
            vessel_type: None,
            last_known_date: None,
            last_lat: None,
            last_lon: None,
            positions: Vec::new(),
        }
    }

    /// Appends a position to the group's list.
    pub fn add_position(&mut self, position: Position)
        ensures
            final(self)@ == (GroupView { positions: old(self)@.positions.push(position), ..old(self)@ }),
    {
        self.positions.push(position);
    }

    /// Takes in a row of this identity.
    pub fn absorb(&mut self, row: &AisRow)
        ensures
            final(self)@ == absorb_spec(old(self)@, row),
            row.position.lat matches Some(v) ==> final(self)@.last_lat == Some(v),
            row.position.lat is None ==> final(self)@.last_lat == old(self)@.last_lat,
            row.position.lon matches Some(v) ==> final(self)@.last_lon == Some(v),
            row.position.lon is None ==> final(self)@.last_lon == old(self)@.last_lon,
            row.position.base_dt matches Some(v) ==> final(self)@.last_known_date == Some(v),
            row.position.base_dt is None ==> final(self)@.last_known_date == old(self)@.last_known_date,
            final(self)@.positions == old(self)@.positions.push(row.position),
            final(self)@.key == old(self)@.key,
    {
        self.add_position(row.position);
        if row.position.base_dt.is_some() {
            self.last_known_date = row.position.base_dt;
        }
        if row.transceiver_class.is_some() {
            self.transceiver_class = row.transceiver_class;
        }
        if row.draft.is_some() {
            self.draft = row.draft;
        }
        if row.length.is_some() {
            self.length = row.length;
        }
        if row.width.is_some() {
            self.width = row.width;
        }
        if row.vessel_type.is_some() {
            self.vessel_type = clone_opt_string(&row.vessel_type);
        }
        if row.position.lat.is_some() {
            self.last_lat = row.position.lat;
        }
        if row.position.lon.is_some() {
            self.last_lon = row.position.lon;
        }
    }

    /// Whether `row` reports this group's identity.
    pub fn same_identity(&self, row: &AisRow) -> (r: bool)
        ensures
            r == (self@.key == row_key(row)),
    {
        self.mmsi == row.mmsi && self.imo == row.imo && opt_str_equal(&self.call_sign, &row.call_sign)
            && opt_str_equal(&self.vessel_name, &row.vessel_name)
    }
}

/// The groups after one more row: the row joins the last group when it
/// reports the same identity, else it starts a new group.
pub open spec fn group_step(groups: Seq<GroupView>, row: &AisRow) -> Seq<GroupView> {
    if groups.len() > 0 && groups.last().key == row_key(row) {
        groups.update(groups.len() - 1, absorb_spec(groups.last(), row))
    } else {
        groups.push(absorb_spec(empty_group(row_key(row)), row))
    }
}

/// The identity groups of a sequence of rows, read in order.
pub open spec fn group_rows(rows: Seq<AisRow>) -> Seq<GroupView>
    decreases rows.len(),
{
    if rows.len() == 0 {
        Seq::empty()
    } else {
        group_step(group_rows(rows.drop_last()), &rows.last())
    }
}

/// The positions of all groups, group after group.
pub open spec fn all_positions(groups: Seq<GroupView>) -> Seq<Position>
    decreases groups.len(),
{
    if groups.len() == 0 {
        Seq::empty()
    } else {
        all_positions(groups.drop_last()) + groups.last().positions
    }
}

/// Grouping keeps every position report, in order, and splits them only
/// where the identity changes: the groups' positions, one group after the
/// other, are the rows' positions; no group is empty; neighbouring groups
/// have different identities; each group's identity is that of its rows.
pub proof fn lemma_grouping_keeps_rows(rows: Seq<AisRow>)
    ensures
        all_positions(group_rows(rows)) == rows.map_values(|r: AisRow| r.position),
        forall|i: int| 0 <= i < group_rows(rows).len() ==> (#[trigger] group_rows(rows)[i]).positions.len() > 0,
        forall|i: int|
            0 <= i < group_rows(rows).len() - 1 ==> (#[trigger] group_rows(rows)[i]).key != group_rows(rows)[i + 1].key,
        rows.len() > 0 ==> group_rows(rows).last().key == row_key(&rows.last()),
    decreases rows.len(),
{
    if rows.len() > 0 {
        let prev = rows.drop_last();
        let r = rows.last();
        lemma_grouping_keeps_rows(prev);
        let gs = group_rows(prev);
        let ns = group_rows(rows);
        assert(rows.map_values(|x: AisRow| x.position) =~= prev.map_values(|x: AisRow| x.position).push(
            r.position,
        ));
        if gs.len() > 0 && gs.last().key == row_key(&r) {
            let g2 = absorb_spec(gs.last(), &r);
            assert(ns == gs.update(gs.len() - 1, g2));
            assert(ns.drop_last() =~= gs.drop_last());
            assert(all_positions(ns) =~= all_positions(gs).push(r.position));
        } else {
            let g2 = absorb_spec(empty_group(row_key(&r)), &r);
            assert(ns == gs.push(g2));
            assert(ns.drop_last() =~= gs);
            assert(g2.positions =~= seq![r.position]);
            assert(all_positions(ns) =~= all_positions(gs).push(r.position));
        }
    }
}

/// Identity groups are written out in batches of this many.
pub const FLUSH_GROUPS: usize = 50000;

/// Groups rows that arrive sorted by identity, handing out finished groups
/// in batches of `FLUSH_GROUPS`.
pub struct IdentityGrouper {
    /// The group of the latest rows, still open.
    pub current: Option<IdentityGroup>,
    /// Finished groups not yet handed out.
    pub pending: Vec<IdentityGroup>,
}

/// The views of a list of groups.
pub open spec fn group_views(groups: Seq<IdentityGroup>) -> Seq<GroupView> {
    groups.map_values(|g: IdentityGroup| g@)
}

impl IdentityGrouper {
    /// Fewer than a batch of finished groups wait, and none before the
    /// first row.
    pub open spec fn well_formed(&self) -> bool {
        &&& self.pending@.len() < FLUSH_GROUPS
        &&& self.current is None ==> self.pending@.len() == 0
    }

    /// The groups held: the finished ones, then the open one.
    pub open spec fn groups(&self) -> Seq<GroupView> {
        group_views(self.pending@) + match self.current {
            Some(g) => seq![g@],
            None => Seq::empty(),
        }
    }

    /// A grouper that has seen no row.
    pub fn new() -> (r: Self)
        ensures
            r.well_formed(),
            r.groups() == Seq::<GroupView>::empty(),
    {
        let r = IdentityGrouper { current: None, pending: Vec::new() };
        assert(r.groups() =~= Seq::<GroupView>::empty());
        r
    }

    /// Takes in the next row; when that finishes a group and the finished
    /// groups make up a batch, hands the batch out.
    pub fn push_row(&mut self, row: AisRow) -> (flushed: Option<Vec<IdentityGroup>>)
        requires
            old(self).well_formed(),
        ensures
            final(self).well_formed(),
            match flushed {
                Some(batch) => batch@.len() == FLUSH_GROUPS && group_views(batch@) + final(self).groups()
                    == group_step(old(self).groups(), &row),
                None => final(self).groups() == group_step(old(self).groups(), &row),
            },
    {
        let ghost before = self.groups();
        let ghost pending_before = group_views(self.pending@);
        let is_new = match &self.current {
            Some(g) => !g.same_identity(&row),
            None => true,
        };
        let mut flushed: Option<Vec<IdentityGroup>> = None;
        if is_new {
            let previous = self.current.take();
            match previous {
                Some(g) => {
                    self.pending.push(g);
                    proof {
                        assert(group_views(self.pending@) =~= pending_before.push(g@));
                    }
                    if self.pending.len() >= FLUSH_GROUPS {
                        let mut batch: Vec<IdentityGroup> = Vec::new();
                        std::mem::swap(&mut batch, &mut self.pending);
                        flushed = Some(batch);
                    }
                },
                None => {},
            }
            let call_sign = clone_opt_string(&row.call_sign);
            let vessel_name = clone_opt_string(&row.vessel_name);
            let mut g = IdentityGroup::new(row.mmsi, row.imo, call_sign, vessel_name);
            g.absorb(&row);
            self.current = Some(g);
            proof {
                assert(group_views(Seq::<IdentityGroup>::empty()) =~= Seq::<GroupView>::empty());
                if flushed is Some {
                    assert(group_views(flushed.unwrap()@) + self.groups() =~= group_step(before, &row));
                } else {
                    assert(self.groups() =~= group_step(before, &row));
                }
            }
        } else {
            let mut g = self.current.take().unwrap();
            g.absorb(&row);
            self.current = Some(g);
            proof {
                assert(self.groups() =~= group_step(before, &row));
            }
        }
        flushed
    }

    /// All groups still held, the open one last.
    pub fn finish(self) -> (rest: Vec<IdentityGroup>)
        ensures
            group_views(rest@) == self.groups(),
    {
        let mut rest = self.pending;
        let ghost pending_before = group_views(rest@);
        match self.current {
            Some(g) => {
                rest.push(g);
                assert(group_views(rest@) =~= pending_before.push(g@));
            },
            None => {
                assert(group_views(rest@) =~= pending_before + Seq::<GroupView>::empty());
            },
        }
        rest
    }
}

/// The leading digit of the MMSI as `to_string` writes it; none for a
/// missing or negative MMSI (whose text starts with `-`).
pub open spec fn mmsi_prefix_spec(mmsi: Option<i64>) -> Option<i32> {
    match mmsi {
        Some(m) => if m >= 0 {
            Some((decimal_text(m as int)[0] - 48) as i32)
        } else {
            None
        },
        None => None,
    }
}

proof fn lemma_leading_digit(n: nat)
    ensures
        n >= 10 ==> decimal_digits(n)[0] == decimal_digits(n / 10)[0],
        n < 10 ==> decimal_digits(n)[0] == 48 + n,
        decimal_digits(n).len() >= 1,
    decreases n,
{
    if n >= 10 {
        lemma_leading_digit(n / 10);
    }
}

/// The value of the `mmsi_prefix` column: the first digit of the MMSI.
pub fn mmsi_prefix(mmsi: Option<i64>) -> (r: Option<i32>)
    ensures
        r == mmsi_prefix_spec(mmsi),
{
    match mmsi {
        Some(m) => {
            if m < 0 {
                return None;
            }
            let mut v: i64 = m;
            while v >= 10
                invariant
                    0 <= v,
                    decimal_digits(v as nat)[0] == decimal_digits(m as nat)[0],
                decreases v,
            {
                proof {
                    lemma_leading_digit(v as nat);
                }
                v = v / 10;
            }
            proof {
                lemma_leading_digit(v as nat);
            }
            Some(v as i32)
        },
        None => None,
    }
}

/// The writer key of a row's `mmsi_prefix`: the prefix, or -1 when null.
pub open spec fn prefix_key(p: Option<i32>) -> i32 {
    match p {
        Some(v) => v,
        None => -1i32,
    }
}

/// The writer key of a row's `mmsi_prefix`.
pub fn writer_key(p: Option<i32>) -> (r: i32)
    ensures
        r == prefix_key(p),
{
    match p {
        Some(v) => v,
        None => -1,
    }
}

/// The runs of rows with equal writer keys in a batch of identity records.
pub fn prefix_runs(prefixes: &Vec<Option<i32>>) -> (runs: Vec<(usize, usize)>)
    ensures
        is_run_split(prefixes@.map_values(|p: Option<i32>| prefix_key(p)), runs@),
{
    let ghost keys = prefixes@.map_values(|p: Option<i32>| prefix_key(p));
    let n = prefixes.len();
    let mut runs: Vec<(usize, usize)> = Vec::new();
    let mut start: usize = 0;
    while start < n
        invariant
            n == prefixes@.len(),
            keys == prefixes@.map_values(|p: Option<i32>| prefix_key(p)),
            start <= n,
            is_run_split_prefix(keys, runs@, start as int),
        decreases n - start,
    {
        let prefix = writer_key(prefixes[start]);
        let mut end = start + 1;
        while end < n && writer_key(prefixes[end]) == prefix
            invariant
                n == prefixes@.len(),
                keys == prefixes@.map_values(|p: Option<i32>| prefix_key(p)),
                start < end <= n,
                prefix == keys[start as int],
                forall|j: int| start <= j < end ==> #[trigger] keys[j] == prefix,
            decreases n - end,
        {
            end = end + 1;
        }
        proof {
            crate::partition::lemma_run_split_extend(keys, runs@, start as int, end as int);
        }
        runs.push((start, end));
        start = end;
    }
    runs
}

/// The directory of the records whose writer key is `prefix`.
pub open spec fn prefix_dir_spec(prefix: i32) -> Seq<char> {
    if prefix >= 0 {
        "mmsi_prefix="@ + dec_chars(prefix as int)
    } else {
        "mmsi_prefix=null"@
    }
}

/// `mmsi_prefix=D`, or `mmsi_prefix=null` for the key of null prefixes.
pub fn prefix_dir_name(prefix: i32) -> (r: String)
    ensures
        r@ == prefix_dir_spec(prefix),
{
    if prefix >= 0 {
        let mut s = String::from_str("mmsi_prefix=");
        s.append(decimal_string(prefix as i64).as_str());
        s
    } else {
        String::from_str("mmsi_prefix=null")
    }
}

/// The number of positions of the first `k` groups.
pub open spec fn positions_before(groups: Seq<IdentityGroup>, k: int) -> int
    decreases k,
{
    if k <= 0 {
        0
    } else {
        positions_before(groups, k - 1) + groups[k - 1].positions@.len()
    }
}

/// The offsets of the groups' position lists in one flat list: 0, then the
/// running total after each group.
pub fn position_offsets(groups: &[IdentityGroup]) -> (r: Vec<i32>)
    requires
        positions_before(groups@, groups@.len() as int) <= i32::MAX,
    ensures
        r@.len() == groups@.len() + 1,
        forall|k: int| 0 <= k <= groups@.len() ==> r@[k] == positions_before(groups@, k),
{
    proof {
        lemma_positions_before_grows(groups@, groups@.len() as int);
    }
    let mut r: Vec<i32> = Vec::new();
    r.push(0);
    let mut total: usize = 0;
    let mut i: usize = 0;
    while i < groups.len()
        invariant
            i <= groups@.len(),
            total == positions_before(groups@, i as int),
            positions_before(groups@, groups@.len() as int) <= i32::MAX,
            forall|j: int| 0 <= j <= groups@.len() ==> #[trigger] positions_before(groups@, j) <= positions_before(groups@, groups@.len() as int),
            r@.len() == i + 1,
            forall|k: int| 0 <= k <= i ==> r@[k] == positions_before(groups@, k),
        decreases groups.len() - i,
    {
        assert(positions_before(groups@, i + 1) <= i32::MAX);
        total = total + groups[i].positions.len();
        r.push(total as i32);
        i = i + 1;
    }
    r
}

proof fn lemma_positions_before_grows(groups: Seq<IdentityGroup>, n: int)
    requires
        0 <= n <= groups.len(),
    ensures
        forall|j: int| 0 <= j <= n ==> #[trigger] positions_before(groups, j) <= positions_before(groups, n),
    decreases n,
{
    if n > 0 {
        lemma_positions_before_grows(groups, n - 1);
    }
}

} // verus!
