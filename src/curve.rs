//! Fan curves: eight points, each a temperature bucket with a fan speed.
use vstd::prelude::*;

use crate::error::AfErr;
use crate::text::{
    entries_text, is_blank, is_space, is_space_char, lemma_first_unparsable_skip, lemma_split_prefix,
    lemma_text_round_trip, lemma_tokens_raw_prefix, parse_curve_text, parse_token, push_char,
    push_chars, push_decimal, split_commas, token_entry, tokens_raw, CurveText,
};

verus! {

/// The fan that a curve drives.
#[derive(Debug, Clone, Copy, PartialEq, Eq, Structural)]
pub enum FanCurveDevice {
    Cpu,
    Gpu,
}

impl FanCurveDevice {
    /// The byte that selects this fan in a fan-curve command.
    pub open spec fn byte(self) -> u8 {
        match self {
            FanCurveDevice::Cpu => 0x24,
            FanCurveDevice::Gpu => 0x25,
        }
    }

    pub(crate) fn to_byte(&self) -> (r: u8)
        ensures
            r == self.byte(),
    {
        match self {
            FanCurveDevice::Cpu => 0x24,
            FanCurveDevice::Gpu => 0x25,
        }
    }
}

/// The lowest temperature of the bucket of point `i`.
pub open spec fn min_degrees(i: int) -> int {
    i * 10 + 30
}

/// The highest temperature of the bucket of point `i`.
pub open spec fn max_degrees(i: int) -> int {
    i * 10 + 39
}

/// The lowest fan speed, in percent, that point `i` may have on `device`.
pub open spec fn min_percent(i: int, device: FanCurveDevice) -> u8 {
    if i <= 3 {
        0
    } else if i == 4 {
        if device == FanCurveDevice::Cpu {
            31
        } else {
            34
        }
    } else if i == 5 {
        if device == FanCurveDevice::Cpu {
            49
        } else {
            51
        }
    } else if device == FanCurveDevice::Cpu {
        56
    } else {
        61
    }
}

/// The larger of two bytes.
pub open spec fn max_u8(a: u8, b: u8) -> u8 {
    if a >= b {
        a
    } else {
        b
    }
}

/// A curve as a value: its device and its raw table, the eight temperatures
/// followed by the eight fan speeds.
pub struct CurveModel {
    pub device: FanCurveDevice,
    pub raw: Seq<u8>,
}

impl CurveModel {
    /// The temperature of point `i`.
    pub open spec fn degrees(self, i: int) -> u8 {
        self.raw[i]
    }

    /// The fan speed of point `i`, in percent.
    pub open spec fn percent(self, i: int) -> u8 {
        self.raw[i + 8]
    }

    /// The temperature of point `i` lies in its bucket.
    pub open spec fn in_bucket(self, i: int) -> bool {
        min_degrees(i) <= self.degrees(i) <= max_degrees(i)
    }

    /// The fan speed of point `i` is at least the floor of that point.
    pub open spec fn above_floor(self, i: int) -> bool {
        self.percent(i) >= min_percent(i, self.device)
    }

    /// Point `i` lies in its bucket and above its floor, and its fan speed is
    /// no lower than that of the point before it.
    pub open spec fn point_ok(self, i: int) -> bool {
        &&& self.in_bucket(i)
        &&& self.above_floor(i)
        &&& (i > 0 ==> self.percent(i - 1) <= self.percent(i))
    }

    /// Every point lies in its bucket and above its floor, and the fan speed
    /// never falls from one point to the next.
    pub open spec fn valid(self) -> bool {
        &&& self.raw.len() == 16
        &&& forall|i: int| 0 <= i < 8 ==> #[trigger] self.point_ok(i)
    }

    /// The temperature of point `i` moved into its bucket.
    pub open spec fn fixed_degrees(self, i: int) -> u8 {
        if self.degrees(i) > max_degrees(i) {
            max_degrees(i) as u8
        } else if self.degrees(i) < min_degrees(i) {
            min_degrees(i) as u8
        } else {
            self.degrees(i)
        }
    }

    /// The fan speed of point `i` raised to its floor and to the repaired
    /// speed of the point before it; zero before the first point.
    pub open spec fn fixed_percent(self, i: int) -> u8
        decreases i + 1,
    {
        if i < 0 {
            0
        } else {
            max_u8(
                max_u8(self.percent(i), min_percent(i, self.device)),
                self.fixed_percent(i - 1),
            )
        }
    }

    /// The curve repaired point by point, from the first to the last.
    pub open spec fn fixed(self) -> CurveModel {
        CurveModel {
            device: self.device,
            raw: Seq::new(
                16,
                |j: int|
                    if j < 8 {
                        self.fixed_degrees(j)
                    } else {
                        self.fixed_percent(j - 8)
                    },
            ),
        }
    }

    /// The text of the curve: `<degrees>c:<percent>%` for each point, comma separated.
    pub open spec fn text(self) -> Seq<char> {
        entries_text(self.raw, 8)
    }
}

/// One of the eight points of a curve, by ordinal.
#[derive(Debug, Clone, Copy, PartialEq, Eq, PartialOrd, Ord, Hash)]
pub struct TableIndex(u8);

impl TableIndex {
    #[verifier::type_invariant]
    spec fn inv(self) -> bool {
        self.0 <= 7
    }
}

impl View for TableIndex {
    type V = int;

    closed spec fn view(&self) -> int {
        self.0 as int
    }
}

impl TableIndex {
    /// The highest ordinal.
    pub fn max_ordinal() -> (r: u8)
        ensures
            r == 7,
    {
        7
    }

    /// All indices, in ascending order.
    pub fn iterator() -> (r: Vec<TableIndex>)
        ensures
            r@.len() == 8,
            forall|k: int| 0 <= k < 8 ==> (#[trigger] r@[k])@ == k,
    {
        let mut r: Vec<TableIndex> = Vec::new();
        let mut k: u8 = 0;
        while k <= 7
            invariant
                k <= 8,
                r@.len() == k,
                forall|j: int| 0 <= j < k ==> (#[trigger] r@[j])@ == j,
            decreases 8 - k,
        {
            r.push(TableIndex(k));
            k += 1;
        }
        r
    }

    /// The index with the given ordinal; `None` above the highest.
    pub fn from_ordinal(ordinal: u8) -> (r: Option<TableIndex>)
        ensures
            match r {
                Some(index) => ordinal <= 7 && index@ == ordinal,
                None => ordinal > 7,
            },
    {
        if ordinal <= 7 {
            Some(TableIndex(ordinal))
        } else {
            None
        }
    }

    /// The ordinal.
    pub fn ordinal(&self) -> (r: u8)
        ensures
            r == self@,
            r <= 7,
    {
        proof {
            use_type_invariant(self);
        }
        self.0
    }

    /// The lowest temperature of this point's bucket.
    pub fn min_degrees_inclusive(&self) -> (r: u8)
        ensures
            r == min_degrees(self@),
    {
        proof {
            use_type_invariant(self);
        }
        self.0 * 10 + 30
    }

    /// The highest temperature of this point's bucket.
    pub fn max_degrees_inclusive(&self) -> (r: u8)
        ensures
            r == max_degrees(self@),
    {
        proof {
            use_type_invariant(self);
        }
        self.0 * 10 + 39
    }

    /// The lowest fan speed, in percent, that this point may have on `device`.
    pub fn min_percentage_inclusive(&self, device: FanCurveDevice) -> (r: u8)
        ensures
            r == min_percent(self@, device),
    {
        if self.0 <= 3 {
            0
        } else if self.0 == 4 {
            match device {
                FanCurveDevice::Cpu => 31,
                FanCurveDevice::Gpu => 34,
            }
        } else if self.0 == 5 {
            match device {
                FanCurveDevice::Cpu => 49,
                FanCurveDevice::Gpu => 51,
            }
        } else {
            match device {
                FanCurveDevice::Cpu => 56,
                FanCurveDevice::Gpu => 61,
            }
        }
    }
}

/// A temperature and a fan speed, in percent.
#[derive(Debug, Clone, Copy)]
pub struct TableEntry {
    degrees: u8,
    fan_percent: u8,
}

impl View for TableEntry {
    type V = (u8, u8);

    closed spec fn view(&self) -> (u8, u8) {
        (self.degrees, self.fan_percent)
    }
}

impl TableEntry {
    /// The pair of a temperature and a fan speed; nothing about it is checked.
    pub fn new(degrees: u8, fan_percent: u8) -> (r: TableEntry)
        ensures
            r@ == (degrees, fan_percent),
    {
        TableEntry { degrees, fan_percent }
    }

    /// The temperature.
    pub fn degrees(&self) -> (r: u8)
        ensures
            r == self@.0,
    {
        self.degrees
    }

    /// The fan speed, in percent.
    pub fn fan_percent(&self) -> (r: u8)
        ensures
            r == self@.1,
    {
        self.fan_percent
    }
}

/// A curve for one device: eight temperature bytes, then eight percent bytes,
/// as the device takes them.
pub struct FanCurveTable {
    device: FanCurveDevice,
    table: [u8; 16],
}

impl View for FanCurveTable {
    type V = CurveModel;

    closed spec fn view(&self) -> CurveModel {
        CurveModel { device: self.device, raw: self.table@ }
    }
}

impl FanCurveTable {
    /// The device that the curve is for.
    pub fn device(&self) -> (r: FanCurveDevice)
        ensures
            r == self@.device,
    {
        self.device
    }

    /// The raw table: the eight temperatures, then the eight fan speeds.
    pub fn raw_bytes(&self) -> (r: [u8; 16])
        ensures
            r@ == self@.raw,
    {
        self.table
    }

    /// The point at `index`.
    pub fn entry(&self, index: TableIndex) -> (r: TableEntry)
        ensures
            r@ == (self@.degrees(index@), self@.percent(index@)),
    {
        proof {
            use_type_invariant(index);
        }
        let degrees = self.table[index.0 as usize];
        let fan_percent = self.table[index.0 as usize + 8];
        TableEntry { degrees, fan_percent }
    }

    fn set(&mut self, index: TableIndex, entry: TableEntry)
        ensures
            final(self)@ == (CurveModel {
                device: old(self)@.device,
                raw: old(self)@.raw.update(index@, entry@.0).update(index@ + 8, entry@.1),
            }),
    {
        proof {
            use_type_invariant(index);
        }
        self.table[index.0 as usize] = entry.degrees;
        self.table[index.0 as usize + 8] = entry.fan_percent;
        assert(self@.raw == old(self)@.raw.update(index@, entry@.0).update(index@ + 8, entry@.1));
    }

    /// Whether every point lies in its bucket and above its floor, and the fan
    /// speed never falls from one point to the next.
    pub fn is_valid(&self) -> (r: bool)
        ensures
            r == self@.valid(),
    {
        let mut last_percentage: u8 = 0;
        let mut k: u8 = 0;
        while k <= 7
            invariant
                k <= 8,
                self@.raw.len() == 16,
                forall|i: int| 0 <= i < k ==> #[trigger] self@.point_ok(i),
                k > 0 ==> last_percentage == self@.percent(k - 1),
                k == 0 ==> last_percentage == 0,
            decreases 8 - k,
        {
            let index = TableIndex(k);
            let entry = self.entry(index);
            let degrees = entry.degrees();
            if degrees < index.min_degrees_inclusive() || degrees > index.max_degrees_inclusive() {
                assert(!self@.point_ok(k as int));
                return false;
            }
            let percentage = entry.fan_percent();
            if percentage < index.min_percentage_inclusive(self.device) || percentage
                < last_percentage {
                assert(!self@.point_ok(k as int));
                return false;
            }
            assert(self@.point_ok(k as int));
            last_percentage = percentage;
            k += 1;
        }
        true
    }

    /// The text of the curve: `<degrees>c:<percent>%` for each point, comma separated.
    pub fn to_string(&self) -> (r: String)
        ensures
            r@ == self@.text(),
    {
        let mut s = String::new();
        let mut k: usize = 0;
        while k < 8
            invariant
                k <= 8,
                self@.raw.len() == 16,
                k == 0 ==> s@.len() == 0,
                k > 0 ==> s@ == entries_text(self@.raw, k as nat),
            decreases 8 - k,
        {
            if k > 0 {
                push_char(&mut s, ',');
            }
            push_decimal(&mut s, self.table[k]);
            push_char(&mut s, 'c');
            push_char(&mut s, ':');
            push_decimal(&mut s, self.table[k + 8]);
            push_char(&mut s, '%');
            k += 1;
        }
        s
    }

    /// Repairs the curve point by point, from the first to the last: each
    /// temperature is moved into its bucket, and each fan speed is raised to
    /// its floor and to the repaired speed of the point before it.
    pub fn auto_fix(&mut self)
        ensures
            final(self)@ == old(self)@.fixed(),
    {
        let ghost m = self@;
        let mut last_percentage: u8 = 0;
        let mut k: u8 = 0;
        while k <= 7
            invariant
                k <= 8,
                m.raw.len() == 16,
                self@.device == m.device,
                self@.raw.len() == 16,
                forall|j: int|
                    0 <= j < k ==> #[trigger] self@.raw[j] == m.fixed_degrees(j) && self@.raw[j
                        + 8] == m.fixed_percent(j),
                forall|j: int|
                    k <= j < 8 ==> #[trigger] self@.raw[j] == m.raw[j] && self@.raw[j + 8]
                        == m.raw[j + 8],
                last_percentage == m.fixed_percent(k - 1),
            decreases 8 - k,
        {
            let index = TableIndex(k);
            let entry = self.entry(index);
            let mut degrees = entry.degrees();
            if degrees > index.max_degrees_inclusive() {
                degrees = index.max_degrees_inclusive();
            }
            if degrees < index.min_degrees_inclusive() {
                degrees = index.min_degrees_inclusive();
            }
            let mut percentage = entry.fan_percent();
            if percentage < index.min_percentage_inclusive(self.device) {
                percentage = index.min_percentage_inclusive(self.device);
            }
            if percentage < last_percentage {
                percentage = last_percentage;
            }
            last_percentage = percentage;
            self.set(index, TableEntry::new(degrees, percentage));
            k += 1;
        }
        assert forall|j: int| 8 <= j < 16 implies self@.raw[j] == m.fixed().raw[j] by {
            assert(self@.raw[j - 8] == m.fixed_degrees(j - 8));
        }
        assert(self@.raw =~= m.fixed().raw);
    }
}

/// The message of the error for text with more than eight tokens.
pub open spec fn too_many_message() -> Seq<char> {
    "Too many entries for fan curve table, cannot have more than 8 entries."@
}

/// The message of the error for a token that does not parse.
pub open spec fn bad_token_message(token: Seq<char>) -> Seq<char> {
    "Unable to parse '"@ + token
        + "': It must look like this: <DEGREES>c:<PERCENT>%, examples: 35c:45% or 55c:75% (while degrees must be <=255 and percent within 0-100)."@
}

fn too_many_error() -> (r: AfErr)
    ensures
        r@ == too_many_message(),
{
    AfErr::new(
        String::from_str("Too many entries for fan curve table, cannot have more than 8 entries."),
    )
}

fn bad_token_error(token: &Vec<char>) -> (r: AfErr)
    ensures
        r@ == bad_token_message(token@),
{
    let mut msg = String::from_str("Unable to parse '");
    push_chars(&mut msg, token);
    msg.append(
        "': It must look like this: <DEGREES>c:<PERCENT>%, examples: 35c:45% or 55c:75% (while degrees must be <=255 and percent within 0-100).",
    );
    AfErr::new(msg)
}

/// A curve being put together: points are set one by one, and the curve is
/// handed out only once repaired.
pub struct FanCurveTableBuilder {
    table: FanCurveTable,
}

impl View for FanCurveTableBuilder {
    type V = CurveModel;

    closed spec fn view(&self) -> CurveModel {
        self.table@
    }
}

impl FanCurveTableBuilder {
    /// A builder for `device` with every byte zero.
    pub fn new(device: FanCurveDevice) -> (r: FanCurveTableBuilder)
        ensures
            r@ == (CurveModel { device, raw: Seq::new(16, |j: int| 0u8) }),
    {
        let r = FanCurveTableBuilder { table: FanCurveTable { device, table: [0u8; 16] } };
        assert(r@.raw =~= Seq::new(16, |j: int| 0u8));
        r
    }

    /// Sets the point at `index`.
    pub fn set(&mut self, index: TableIndex, entry: TableEntry)
        ensures
            final(self)@ == (CurveModel {
                device: old(self)@.device,
                raw: old(self)@.raw.update(index@, entry@.0).update(index@ + 8, entry@.1),
            }),
    {
        self.table.set(index, entry)
    }

    /// Whether the curve as it stands is valid.
    pub fn is_valid(&self) -> (r: bool)
        ensures
            r == self@.valid(),
    {
        self.table.is_valid()
    }

    /// Repairs the curve as it stands.
    pub fn auto_fix(&mut self)
        ensures
            final(self)@ == old(self)@.fixed(),
    {
        self.table.auto_fix()
    }

    /// The repaired curve, which is always valid.
    pub fn auto_fix_build(self) -> (r: FanCurveTable)
        ensures
            r@ == self@.fixed(),
            r@.valid(),
    {
        let mut table = self.table;
        table.auto_fix();
        proof {
            lemma_fixed_valid(self@);
        }
        table
    }

    /// Writes the token at position `count` in, or says why it cannot be.
    fn add_token(&mut self, count: usize, token: &Vec<char>) -> (r: Result<(), AfErr>)
        ensures
            count >= 8 ==> r is Err && r->Err_0@ == too_many_message() && final(self)@ == old(
                self,
            )@,
            count < 8 ==> match token_entry(token@) {
                None => r is Err && r->Err_0@ == bad_token_message(token@) && final(self)@ == old(
                    self,
                )@,
                Some(e) => r is Ok && final(self)@ == (CurveModel {
                    device: old(self)@.device,
                    raw: old(self)@.raw.update(count as int, e.0).update(count + 8, e.1),
                }),
            },
    {
        if count > 7 {
            return Err(too_many_error());
        }
        match parse_token(token) {
            None => Err(bad_token_error(token)),
            Some((degrees, percent)) => {
                self.set(TableIndex(count as u8), TableEntry::new(degrees, percent));
                Ok(())
            },
        }
    }

    /// Parses a curve: up to eight comma-separated tokens `<degrees>c:<percent>%`,
    /// each with optional white space around it, written into a zeroed curve in
    /// order. The first token that does not parse, or a ninth token, is an error.
    pub fn from_string(device: FanCurveDevice, string: &str) -> (r: Result<
        FanCurveTableBuilder,
        AfErr,
    >)
        ensures
            match parse_curve_text(string@) {
                CurveText::Parsed(raw) => r is Ok && r->Ok_0@ == (CurveModel { device, raw }),
                CurveText::TooMany => r is Err && r->Err_0@ == too_many_message(),
                CurveText::Unparsable(token) => r is Err && r->Err_0@ == bad_token_message(token),
            },
    {
        let ghost text = string@;
        let mut builder = FanCurveTableBuilder::new(device);
        let n = string.unicode_len();
        let mut token: Vec<char> = Vec::new();
        let mut count: usize = 0;
        let ghost mut done: Seq<Seq<char>> = Seq::empty();
        let mut i: usize = 0;
        proof {
            assert(text.take(0) == Seq::<char>::empty());
            assert(done.push(token@) == seq![Seq::<char>::empty()]);
        }
        while i < n
            invariant
                n == text.len(),
                text == string@,
                i <= n,
                count <= 8,
                done.len() == count,
                split_commas(text.take(i as int)) == done.push(token@),
                forall|k: int| 0 <= k < count ==> token_entry(#[trigger] done[k]) is Some,
                builder@ == (CurveModel { device, raw: tokens_raw(done, count as nat) }),
            decreases n - i,
        {
            let c = string.get_char(i);
            proof {
                assert(text.take(i + 1).drop_last() == text.take(i as int));
                assert(text.take(i + 1).last() == c);
            }
            if c == ',' {
                let ghost pieces = done.push(token@).push(Seq::empty());
                let ghost all = split_commas(text);
                proof {
                    assert(split_commas(text.take(i + 1)) == pieces);
                    lemma_split_prefix(text, i + 1);
                    assert forall|k: int| 0 <= k <= count implies #[trigger] all[k] == pieces[k] by {}
                }
                match builder.add_token(count, &token) {
                    Err(e) => {
                        proof {
                            if count >= 8 {
                                lemma_first_unparsable_skip(all, 0, 8);
                            } else {
                                lemma_first_unparsable_skip(all, 0, count as nat);
                            }
                        }
                        return Err(e);
                    },
                    Ok(()) => {},
                }
                proof {
                    let next = done.push(token@);
                    lemma_tokens_raw_prefix(done, next, count as nat);
                    done = next;
                }
                count += 1;
                token = Vec::new();
                proof {
                    assert(split_commas(text.take(i + 1)) == done.push(token@));
                }
            } else {
                token.push(c);
                proof {
                    assert(split_commas(text.take(i + 1)) == done.push(token@));
                }
            }
            i += 1;
        }
        let ghost all = done.push(token@);
        proof {
            assert(text.take(n as int) == text);
            assert forall|k: int| 0 <= k < count implies #[trigger] all[k] == done[k] by {}
        }
        match builder.add_token(count, &token) {
            Err(e) => {
                proof {
                    if count >= 8 {
                        lemma_first_unparsable_skip(all, 0, 8);
                    } else {
                        lemma_first_unparsable_skip(all, 0, count as nat);
                    }
                }
                return Err(e);
            },
            Ok(()) => {},
        }
        proof {
            lemma_first_unparsable_skip(all, 0, (count + 1) as nat);
            lemma_tokens_raw_prefix(done, all, count as nat);
        }
        Ok(builder)
    }
}

/// The curve that a user's text stands for, and whether it had to be repaired
/// to become valid. Blank text stands for the all-zero curve
/// `0c:0%,0c:0%,0c:0%,0c:0%,0c:0%,0c:0%,0c:0%,0c:0%`, whose repair is not reported.
pub fn convert_to_curve(device: FanCurveDevice, string: &str) -> (r: Result<
    (FanCurveTable, bool),
    AfErr,
>)
    ensures
        is_blank(string@) ==> r is Ok && r->Ok_0.0@ == (CurveModel {
            device,
            raw: Seq::new(16, |j: int| 0u8),
        }).fixed() && !r->Ok_0.1,
        !is_blank(string@) ==> match parse_curve_text(string@) {
            CurveText::Parsed(raw) => r is Ok && r->Ok_0.0@ == (CurveModel {
                device,
                raw,
            }).fixed() && r->Ok_0.1 == !(CurveModel { device, raw }).valid(),
            CurveText::TooMany => r is Err && r->Err_0@ == too_many_message(),
            CurveText::Unparsable(token) => r is Err && r->Err_0@ == bad_token_message(token),
        },
        r is Ok ==> r->Ok_0.0@.valid(),
{
    let n = string.unicode_len();
    let mut i: usize = 0;
    while i < n && is_space_char(string.get_char(i))
        invariant
            n == string@.len(),
            i <= n,
            forall|k: int| 0 <= k < i ==> is_space(#[trigger] string@[k]),
        decreases n - i,
    {
        i += 1;
    }
    if i == n {
        return Ok((FanCurveTableBuilder::new(device).auto_fix_build(), false));
    }
    let builder = FanCurveTableBuilder::from_string(device, string)?;
    let is_valid = builder.is_valid();
    let table = builder.auto_fix_build();
    Ok((table, !is_valid))
}

/// Repair yields a valid curve.
pub proof fn lemma_fixed_valid(m: CurveModel)
    requires
        m.raw.len() == 16,
    ensures
        m.fixed().valid(),
{
    let f = m.fixed();
    assert forall|i: int| 0 <= i < 8 implies #[trigger] f.point_ok(i) by {
        assert(f.degrees(i) == m.fixed_degrees(i));
        assert(f.percent(i) == m.fixed_percent(i));
        if i > 0 {
            assert(f.percent(i - 1) == m.fixed_percent(i - 1));
        }
    }
}

proof fn lemma_fixed_percent_of_valid(m: CurveModel, i: int)
    requires
        m.valid(),
        0 <= i < 8,
    ensures
        m.fixed_percent(i) == m.percent(i),
    decreases i,
{
    assert(m.point_ok(i));
    if i > 0 {
        lemma_fixed_percent_of_valid(m, i - 1);
    } else {
        assert(m.fixed_percent(-1) == 0);
    }
}

/// Repair leaves a valid curve exactly as it is.
pub proof fn lemma_fix_keeps_valid(m: CurveModel)
    requires
        m.valid(),
    ensures
        m.fixed() == m,
{
    assert forall|j: int| 0 <= j < 16 implies #[trigger] m.fixed().raw[j] == m.raw[j] by {
        if j < 8 {
            assert(m.point_ok(j));
        } else {
            lemma_fixed_percent_of_valid(m, j - 8);
        }
    }
    assert(m.fixed().raw =~= m.raw);
}

/// In a valid curve the fan speed never falls from one point to the next.
pub proof fn lemma_valid_monotone(m: CurveModel)
    requires
        m.valid(),
    ensures
        forall|i: int| 0 <= i < 7 ==> #[trigger] m.percent(i) <= m.percent(i + 1),
{
    assert forall|i: int| 0 <= i < 7 implies #[trigger] m.percent(i) <= m.percent(i + 1) by {
        assert(m.point_ok(i + 1));
    }
}

/// In a valid curve the temperature of point `i` lies in `[i*10+30, i*10+39]`.
pub proof fn lemma_valid_in_buckets(m: CurveModel)
    requires
        m.valid(),
    ensures
        forall|i: int|
            0 <= i < 8 ==> i * 10 + 30 <= #[trigger] m.degrees(i) && m.degrees(i) <= i * 10 + 39,
{
    assert forall|i: int| 0 <= i < 8 implies i * 10 + 30 <= #[trigger] m.degrees(i) && m.degrees(
        i,
    ) <= i * 10 + 39 by {
        assert(m.point_ok(i));
    }
}

/// In a valid curve the fan speed of every point is at least its floor.
pub proof fn lemma_valid_above_floors(m: CurveModel)
    requires
        m.valid(),
    ensures
        forall|i: int| 0 <= i < 8 ==> #[trigger] m.percent(i) >= min_percent(i, m.device),
{
    assert forall|i: int| 0 <= i < 8 implies #[trigger] m.percent(i) >= min_percent(
        i,
        m.device,
    ) by {
        assert(m.point_ok(i));
    }
}

/// A repaired curve, written out and parsed again for its device, gives back
/// the same table, and repairing that changes nothing: the text comes out the same.
pub proof fn lemma_round_trip(m: CurveModel)
    requires
        m.raw.len() == 16,
    ensures
        parse_curve_text(m.fixed().text()) == CurveText::Parsed(m.fixed().raw),
        (CurveModel { device: m.fixed().device, raw: m.fixed().raw }).fixed() == m.fixed(),
        (CurveModel { device: m.fixed().device, raw: m.fixed().raw }).fixed().text() == m.fixed().text(),
{
    let t = m.fixed();
    lemma_fixed_valid(m);
    lemma_text_round_trip(t.raw);
    lemma_fix_keeps_valid(t);
    assert((CurveModel { device: t.device, raw: t.raw }) == t);
}

} // verus!
