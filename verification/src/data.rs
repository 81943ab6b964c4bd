//! The data model: entry identifiers and the entry tree, fields and
//! items, tiles and tile sets, and the data-source contract.

use crate::decimal::{
    ascii_bytes, dec_int, dec_nat, i64_dec_string, lemma_dec_nat_bytes_val, lemma_dec_nat_digits,
    lemma_digits_ascii, spec_parse_i64,
};
use crate::timestamp::{Interval, Timestamp};
use vstd::prelude::*;
use vstd::string::StringSliceAdditionalSpecFns;

verus! {

/// An sRGBA colour, one byte per channel.
#[derive(Debug, Copy, Clone, PartialEq, Eq, Structural)]
pub struct Color {
    pub r: u8,
    pub g: u8,
    pub b: u8,
    pub a: u8,
}

/// The path from the root to an entry.  `-1` selects a panel's summary
/// child; a non-negative element selects a slot.
#[derive(Debug)]
pub struct EntryID(Vec<i64>);

impl View for EntryID {
    type V = Seq<i64>;

    closed spec fn view(&self) -> Seq<i64> {
        self.0@
    }
}

impl Clone for EntryID {
    fn clone(&self) -> (r: Self)
        ensures
            r@ == self@,
    {
        let v = self.0.clone();
        proof {
            assert(v@ =~= self.0@);
        }
        EntryID(v)
    }
}

#[derive(Debug, Copy, Clone, PartialEq, Eq, Structural)]
pub enum EntryIndex {
    Summary,
    Slot(u64),
}

pub open spec fn spec_last_slot_index(s: Seq<i64>) -> Option<u64> {
    if s.len() == 0 {
        None
    } else if s.last() >= 0 {
        Some(s.last() as u64)
    } else {
        None
    }
}

pub open spec fn spec_index_at(s: Seq<i64>, level: int) -> Option<EntryIndex> {
    if 0 <= level < s.len() {
        if s[level] >= 0 {
            Some(EntryIndex::Slot(s[level] as u64))
        } else {
            Some(EntryIndex::Summary)
        }
    } else {
        None
    }
}

pub open spec fn spec_last_index(s: Seq<i64>) -> Option<EntryIndex> {
    spec_index_at(s, s.len() - 1)
}

pub open spec fn spec_has_prefix(s: Seq<i64>, prefix: Seq<i64>) -> bool {
    prefix.len() <= s.len() && forall|j: int| 0 <= j < prefix.len() ==> s[j] == prefix[j]
}

impl EntryID {
    /// The empty path.
    pub fn root() -> (r: Self)
        ensures
            r@ == Seq::<i64>::empty(),
    {
        EntryID(Vec::new())
    }

    /// The path of this entry's summary child.
    pub fn summary(&self) -> (r: Self)
        ensures
            r@ == self@.push(-1i64),
    {
        let mut v = self.0.clone();
        proof {
            assert(v@ =~= self.0@);
        }
        v.push(-1);
        EntryID(v)
    }

    /// The path of this entry's `index`-th slot child.
    pub fn child(&self, index: u64) -> (r: Self)
        requires
            index <= i64::MAX,
        ensures
            r@ == self@.push(index as i64),
    {
        let mut v = self.0.clone();
        proof {
            assert(v@ =~= self.0@);
        }
        v.push(index as i64);
        EntryID(v)
    }

    /// Depth of the entry: the root has level 0.
    pub fn level(&self) -> (r: u64)
        ensures
            r == self@.len(),
    {
        self.0.len() as u64
    }

    /// The last path element, when it is a slot index.
    pub fn last_slot_index(&self) -> (r: Option<u64>)
        ensures
            r == spec_last_slot_index(self@),
    {
        let n = self.0.len();
        if n == 0 {
            None
        } else {
            let last = self.0[n - 1];
            if last >= 0 {
                Some(last as u64)
            } else {
                None
            }
        }
    }

    /// The path element at `level`, when it is a slot index.
    pub fn slot_index(&self, level: u64) -> (r: Option<u64>)
        ensures
            r == (match spec_index_at(self@, level as int) {
                Some(EntryIndex::Slot(i)) => Some(i),
                _ => None::<u64>,
            }),
    {
        if level >= self.0.len() as u64 {
            None
        } else {
            let elt = self.0[level as usize];
            if elt >= 0 {
                Some(elt as u64)
            } else {
                None
            }
        }
    }

    /// The last path element as an index.
    pub fn last_index(&self) -> (r: Option<EntryIndex>)
        ensures
            r == spec_last_index(self@),
    {
        let n = self.0.len();
        if n == 0 {
            None
        } else {
            let last = self.0[n - 1];
            if last >= 0 {
                Some(EntryIndex::Slot(last as u64))
            } else {
                Some(EntryIndex::Summary)
            }
        }
    }

    /// The path element at `level` as an index.
    pub fn index(&self, level: u64) -> (r: Option<EntryIndex>)
        ensures
            r == spec_index_at(self@, level as int),
    {
        if level >= self.0.len() as u64 {
            None
        } else {
            let elt = self.0[level as usize];
            if elt >= 0 {
                Some(EntryIndex::Slot(elt as u64))
            } else {
                Some(EntryIndex::Summary)
            }
        }
    }

    /// Whether `prefix` is a prefix of this path.
    pub fn has_prefix(&self, prefix: &EntryID) -> (r: bool)
        ensures
            r == spec_has_prefix(self@, prefix@),
    {
        let pn = prefix.0.len();
        if pn > self.0.len() {
            return false;
        }
        let mut j: usize = 0;
        while j < pn
            invariant
                0 <= j <= pn <= self@.len(),
                pn == prefix@.len(),
                forall|x: int| 0 <= x < j ==> self@[x] == prefix@[x],
            decreases pn - j,
        {
            if self.0[j] != prefix.0[j] {
                return false;
            }
            j = j + 1;
        }
        true
    }

    /// Shift the level-0 slot index, as the merge overlay does when it
    /// renumbers a child's entries.
    pub fn shift_level0(&self, level0_offset: i64) -> (r: EntryID)
        requires
            self@.len() > 0,
            self@[0] >= 0,
            0 <= self@[0] + level0_offset <= i64::MAX,
        ensures
            r@ == self@.update(0, (self@[0] + level0_offset) as i64),
    {
        let mut v = self.0.clone();
        proof {
            assert(v@ =~= self.0@);
        }
        let shifted: i64 = v[0] + level0_offset;
        v.set(0, shifted);
        EntryID(v)
    }
}

/// A slot child's last index is its slot number.
pub proof fn lemma_child_last_slot_index(s: Seq<i64>, i: u64)
    requires
        i <= i64::MAX,
    ensures
        spec_last_slot_index(s.push(i as i64)) == Some(i),
        spec_last_index(s.push(i as i64)) == Some(EntryIndex::Slot(i)),
{
    assert(s.push(i as i64).last() == i as i64);
}

/// A summary child's last index is `Summary`.
pub proof fn lemma_summary_last_index(s: Seq<i64>)
    ensures
        spec_last_index(s.push(-1i64)) == Some(EntryIndex::Summary),
{
    assert(s.push(-1i64).last() == -1);
}

/// Every path has the root as a prefix.
pub proof fn lemma_has_prefix_root(s: Seq<i64>)
    ensures
        spec_has_prefix(s, Seq::<i64>::empty()),
{
}

// ---------------------------------------------------------------------
// Slugs: the `_`-joined decimal form of paths and tiles, as used in
// URLs and archive file names.
// ---------------------------------------------------------------------

#[derive(Debug, Copy, Clone, PartialEq, Eq, Structural)]
pub enum SlugParseError {
    ParseInt,
    TooFewValues,
    TooManyValues,
}

/// The slug of a path: its elements in decimal, joined with '_'.
pub open spec fn spec_entry_slug(s: Seq<i64>) -> Seq<char>
    decreases s.len(),
{
    if s.len() == 0 {
        Seq::empty()
    } else if s.len() == 1 {
        dec_int(s[0] as int)
    } else {
        dec_int(s[0] as int) + "_"@ + spec_entry_slug(s.drop_first())
    }
}

/// Split a byte string at every '_' (byte 95).  There is always at
/// least one part; empty parts are kept.
pub open spec fn spec_split_us(s: Seq<u8>) -> Seq<Seq<u8>>
    decreases s.len(),
{
    if s.len() == 0 {
        seq![Seq::<u8>::empty()]
    } else if s[0] == 95 {
        seq![Seq::<u8>::empty()] + spec_split_us(s.drop_first())
    } else {
        let rest = spec_split_us(s.drop_first());
        seq![seq![s[0]] + rest[0]] + rest.drop_first()
    }
}

/// Parse every part as a signed decimal; `None` when any part fails.
pub open spec fn spec_parse_parts(ps: Seq<Seq<u8>>) -> Option<Seq<i64>>
    decreases ps.len(),
{
    if ps.len() == 0 {
        Some(Seq::empty())
    } else {
        match spec_parse_i64(ps[0]) {
            Option::None => None,
            Option::Some(x) => match spec_parse_parts(ps.drop_first()) {
                Option::None => None,
                Option::Some(v) => Some(seq![x] + v),
            },
        }
    }
}

/// The list of values in a slug, when every part parses.
pub open spec fn spec_parse_slug_list(s: Seq<u8>) -> Option<Seq<i64>> {
    spec_parse_parts(spec_split_us(s))
}

proof fn lemma_split_no_us(a: Seq<u8>)
    requires
        forall|i: int| 0 <= i < a.len() ==> (#[trigger] a[i]) != 95,
    ensures
        spec_split_us(a) == seq![a],
    decreases a.len(),
{
    if a.len() == 0 {
        assert(spec_split_us(a) =~~= seq![a]);
    } else {
        lemma_split_no_us(a.drop_first());
        let rest = spec_split_us(a.drop_first());
        assert(rest[0] == a.drop_first());
        assert(rest.drop_first() =~= Seq::<Seq<u8>>::empty());
        assert(seq![a[0]] + rest[0] =~= a);
        assert(spec_split_us(a) =~~= seq![a]);
    }
}

proof fn lemma_split_prefix(a: Seq<u8>, rest: Seq<u8>)
    requires
        forall|i: int| 0 <= i < a.len() ==> (#[trigger] a[i]) != 95,
    ensures
        spec_split_us(a + seq![95u8] + rest) == seq![a] + spec_split_us(rest),
    decreases a.len(),
{
    let s = a + seq![95u8] + rest;
    if a.len() == 0 {
        assert(s[0] == 95);
        assert(s.drop_first() =~= rest);
        assert(spec_split_us(s) =~~= seq![a] + spec_split_us(rest));
    } else {
        assert(s[0] == a[0]);
        assert(s[0] != 95);
        assert(s.drop_first() =~= a.drop_first() + seq![95u8] + rest);
        lemma_split_prefix(a.drop_first(), rest);
        let inner = spec_split_us(s.drop_first());
        assert(inner == seq![a.drop_first()] + spec_split_us(rest));
        assert(inner[0] == a.drop_first());
        assert(seq![s[0]] + inner[0] =~= a);
        assert(inner.drop_first() =~= spec_split_us(rest));
        assert(spec_split_us(s) =~~= seq![a] + spec_split_us(rest));
    }
}

/// A rendered integer holds only digit bytes and a possible leading
/// '-': never an underscore.
proof fn lemma_dec_int_bytes(x: i64)
    ensures
        spec_parse_i64(ascii_bytes(dec_int(x as int))) == Some(x),
        forall|i: int|
            0 <= i < ascii_bytes(dec_int(x as int)).len() ==> (#[trigger] ascii_bytes(
                dec_int(x as int),
            )[i]) != 95,
{
    if x >= 0 {
        let n = x as nat;
        lemma_dec_nat_digits(n);
        lemma_dec_nat_bytes_val(n);
        let bs = ascii_bytes(dec_nat(n));
        assert(dec_int(x as int) == dec_nat(n));
        assert(bs.len() > 0);
        assert(crate::decimal::b_is_digit(bs[0]));
        assert(bs[0] != 45 && bs[0] != 43);
        assert(crate::decimal::b_digits_val(bs) == n <= 0x7fff_ffff_ffff_ffff);
        assert(forall|i: int| 0 <= i < bs.len() ==> (#[trigger] bs[i]) != 95);
        assert(spec_parse_i64(bs) == Some(x));
    } else {
        let m = (-(x as int)) as nat;
        lemma_dec_nat_digits(m);
        lemma_dec_nat_bytes_val(m);
        let cs = dec_int(x as int);
        assert(cs == seq!['-'] + dec_nat(m));
        let bs = ascii_bytes(cs);
        proof_minus_byte();
        assert(cs[0] == '-');
        assert(bs[0] == 45);
        assert(bs.drop_first() =~= ascii_bytes(dec_nat(m)));
        assert(crate::decimal::b_all_digits(bs.drop_first()));
        assert(bs.drop_first().len() > 0);
        assert(crate::decimal::b_digits_val(bs.drop_first()) == m <= 0x8000_0000_0000_0000);
        assert(spec_parse_i64(bs) == Some((-(m as int)) as i64));
        assert((-(m as int)) as i64 == x);
        assert(forall|i: int| 0 <= i < bs.len() ==> (#[trigger] bs[i]) != 95);
    }
}

proof fn proof_minus_byte()
    ensures
        '-' as u8 == 45,
        '-' as int == 45,
{
}

/// Round trip: parsing the slug of a non-empty path gives the path
/// back.  (The root's slug is the empty string, which does not parse.)
pub proof fn lemma_entry_slug_roundtrip(s: Seq<i64>)
    requires
        s.len() >= 1,
    ensures
        spec_parse_slug_list(ascii_bytes(spec_entry_slug(s))) == Some(s),
    decreases s.len(),
{
    if s.len() == 1 {
        lemma_dec_int_bytes(s[0]);
        let bs = ascii_bytes(dec_int(s[0] as int));
        assert(ascii_bytes(spec_entry_slug(s)) =~= bs);
        lemma_split_no_us(bs);
        let parts = spec_split_us(bs);
        assert(parts == seq![bs]);
        assert(parts[0] == bs);
        assert(parts.drop_first() =~= Seq::<Seq<u8>>::empty());
        assert(spec_parse_parts(parts.drop_first()) == Some(Seq::<i64>::empty()));
        assert(seq![s[0]] + Seq::<i64>::empty() =~= s);
    } else {
        lemma_dec_int_bytes(s[0]);
        lemma_entry_slug_roundtrip(s.drop_first());
        let a = ascii_bytes(dec_int(s[0] as int));
        let b = ascii_bytes(spec_entry_slug(s.drop_first()));
        proof_us_byte();
        assert(ascii_bytes(spec_entry_slug(s)) =~= a + seq![95u8] + b);
        lemma_split_prefix(a, b);
        let parts = spec_split_us(a + seq![95u8] + b);
        assert(parts == seq![a] + spec_split_us(b));
        assert(parts[0] == a);
        assert(parts.drop_first() =~= spec_split_us(b));
        assert(spec_parse_parts(spec_split_us(b)) == Some(s.drop_first()));
        assert(seq![s[0]] + s.drop_first() =~= s);
    }
}

proof fn proof_us_byte()
    ensures
        "_"@ =~= seq!['_'],
        '_' as u8 == 95,
        forall|i: int| 0 <= i < "_"@.len() ==> (#[trigger] ascii_bytes("_"@)[i]) == 95,
{
    reveal_strlit("_");
}

/// Appending an element to a non-empty path appends `_<element>` to
/// its slug.
proof fn lemma_entry_slug_push(s: Seq<i64>, x: i64)
    requires
        s.len() >= 1,
    ensures
        spec_entry_slug(s.push(x)) == spec_entry_slug(s) + "_"@ + dec_int(x as int),
    decreases s.len(),
{
    if s.len() == 1 {
        let p = s.push(x);
        assert(p.len() == 2);
        assert(p[0] == s[0]);
        assert(p.drop_first() =~= seq![x]);
        assert(spec_entry_slug(seq![x]) == dec_int(x as int));
        assert(spec_entry_slug(s) == dec_int(s[0] as int));
    } else {
        let p = s.push(x);
        assert(p[0] == s[0]);
        assert(p.drop_first() =~= s.drop_first().push(x));
        lemma_entry_slug_push(s.drop_first(), x);
        assert(spec_entry_slug(p) == dec_int(s[0] as int) + "_"@ + (spec_entry_slug(s.drop_first())
            + "_"@ + dec_int(x as int)));
        assert(spec_entry_slug(p) =~= spec_entry_slug(s) + "_"@ + dec_int(x as int));
    }
}

/// Slugs are ASCII.
pub proof fn lemma_entry_slug_ascii(s: Seq<i64>)
    ensures
        vstd::utf8::is_ascii_chars(spec_entry_slug(s)),
    decreases s.len(),
{
    if s.len() == 0 {
    } else if s.len() == 1 {
        lemma_dec_int_ascii(s[0]);
    } else {
        lemma_dec_int_ascii(s[0]);
        lemma_entry_slug_ascii(s.drop_first());
        proof_us_byte();
        assert forall|i: int| 0 <= i < spec_entry_slug(s).len() implies '\0'
            <= #[trigger] spec_entry_slug(s)[i] <= '\u{7f}' by {
            let cs = spec_entry_slug(s);
            let a = dec_int(s[0] as int);
            let rest = spec_entry_slug(s.drop_first());
            assert(cs == a + "_"@ + rest);
            if i < a.len() {
                assert(cs[i] == a[i]);
            } else if i < a.len() + 1 {
                assert(cs[i] == '_');
            } else {
                assert(cs[i] == rest[i - a.len() - 1]);
            }
        }
    }
}

proof fn lemma_dec_int_ascii(x: i64)
    ensures
        vstd::utf8::is_ascii_chars(dec_int(x as int)),
{
    if x >= 0 {
        lemma_dec_nat_digits(x as nat);
        lemma_digits_ascii(dec_nat(x as nat));
    } else {
        let m = (-(x as int)) as nat;
        lemma_dec_nat_digits(m);
        lemma_digits_ascii(dec_nat(m));
        assert forall|i: int| 0 <= i < dec_int(x as int).len() implies '\0' <= #[trigger] dec_int(
            x as int,
        )[i] <= '\u{7f}' by {
            if i == 0 {
                assert(dec_int(x as int)[0] == '-');
            } else {
                assert(dec_int(x as int)[i] == dec_nat(m)[i - 1]);
            }
        }
    }
}

/// Parse the `_`-separated decimal values of a slug.
fn parse_slug_values(b: &[u8]) -> (r: Result<Vec<i64>, SlugParseError>)
    ensures
        (match r {
            Ok(v) => spec_parse_slug_list(b@) == Some(v@),
            Err(e) => spec_parse_slug_list(b@) is None && e == SlugParseError::ParseInt,
        }),
{
    let n: usize = b.len();
    let mut out: Vec<i64> = Vec::new();
    let mut seg_start: usize = 0;
    let mut i: usize = 0;
    proof {
        assert(b@.skip(0int) =~= b@);
        if spec_parse_slug_list(b@) is Some {
            let v = spec_parse_slug_list(b@).unwrap();
            assert(out@ + v =~= v);
        }
    }
    while i < n
        invariant
            0 <= seg_start <= i <= n == b@.len(),
            forall|x: int| seg_start <= x < i ==> (#[trigger] b@[x]) != 95,
            spec_parse_slug_list(b@) == (match spec_parse_slug_list(b@.skip(seg_start as int)) {
                Option::None => None::<Seq<i64>>,
                Option::Some(v) => Some(out@ + v),
            }),
        decreases n - i,
    {
        if b[i] == 95 {
            let parsed = crate::decimal::parse_i64_bytes(b, seg_start, i);
            proof {
                let a = b@.subrange(seg_start as int, i as int);
                let rest = b@.skip(i + 1);
                assert(b@.skip(seg_start as int) =~= a + seq![95u8] + rest);
                lemma_split_prefix(a, rest);
                let parts = spec_split_us(a + seq![95u8] + rest);
                assert(parts[0] == a);
                assert(parts.drop_first() =~= spec_split_us(rest));
            }
            match parsed {
                Option::Some(x) => {
                    out.push(x);
                    proof {
                        let rest = b@.skip(i + 1);
                        if spec_parse_parts(spec_split_us(rest)) is Some {
                            let v = spec_parse_parts(spec_split_us(rest)).unwrap();
                            assert(out@ + v =~= out@.drop_last() + (seq![x] + v));
                        }
                    }
                },
                Option::None => {
                    return Err(SlugParseError::ParseInt);
                },
            }
            seg_start = i + 1;
        }
        i = i + 1;
    }
    let parsed = crate::decimal::parse_i64_bytes(b, seg_start, n);
    proof {
        let a = b@.subrange(seg_start as int, n as int);
        assert(b@.skip(seg_start as int) =~= a);
        lemma_split_no_us(a);
        let parts = spec_split_us(a);
        assert(parts[0] == a);
        assert(parts.drop_first() =~= Seq::<Seq<u8>>::empty());
        assert(spec_parse_parts(parts.drop_first()) == Some(Seq::<i64>::empty()));
    }
    match parsed {
        Option::Some(x) => {
            out.push(x);
            proof {
                assert(out@ =~= out@.drop_last() + (seq![x] + Seq::<i64>::empty()));
            }
            Ok(out)
        },
        Option::None => Err(SlugParseError::ParseInt),
    }
}

impl EntryID {
    /// Parse a `_`-joined decimal slug into a path.
    pub fn from_slug(s: &str) -> (r: Result<Self, SlugParseError>)
        ensures
            (match r {
                Ok(e) => spec_parse_slug_list(s.spec_bytes()) == Some(e@),
                Err(er) => spec_parse_slug_list(s.spec_bytes()) is None && er
                    == SlugParseError::ParseInt,
            }),
    {
        let b: &[u8] = s.as_bytes();
        match parse_slug_values(b) {
            Ok(v) => Ok(EntryID(v)),
            Err(e) => Err(e),
        }
    }
}

/// A tile's time range.
#[derive(Debug, Copy, Clone, PartialEq, Eq, Structural)]
pub struct TileID(pub Interval);

/// The slug of a tile: its two endpoints joined with '_'.
pub open spec fn spec_tile_slug(t: TileID) -> Seq<char> {
    spec_entry_slug(seq![t.0.start.0, t.0.stop.0])
}

impl TileID {
    /// Parse a `<start>_<stop>` slug into a tile range.
    pub fn from_slug(s: &str) -> (r: Result<Self, SlugParseError>)
        ensures
            (match spec_parse_slug_list(s.spec_bytes()) {
                Option::Some(v) => if v.len() == 2 {
                    r == (Ok::<TileID, SlugParseError>(
                        TileID(Interval { start: Timestamp(v[0]), stop: Timestamp(v[1]) }),
                    ))
                } else if v.len() < 2 {
                    r == (Err::<TileID, SlugParseError>(SlugParseError::TooFewValues))
                } else {
                    r == (Err::<TileID, SlugParseError>(SlugParseError::TooManyValues))
                },
                Option::None => r == (Err::<TileID, SlugParseError>(SlugParseError::ParseInt)),
            }),
    {
        let b: &[u8] = s.as_bytes();
        match parse_slug_values(b) {
            Ok(v) => {
                if v.len() == 2 {
                    let start = v[0];
                    let stop = v[1];
                    Ok(TileID(Interval { start: Timestamp(start), stop: Timestamp(stop) }))
                } else if v.len() < 2 {
                    Err(SlugParseError::TooFewValues)
                } else {
                    Err(SlugParseError::TooManyValues)
                }
            },
            Err(e) => Err(e),
        }
    }
}

/// Renders a path as its slug.
pub struct EntryIDSlug<'a>(pub &'a EntryID);

impl<'a> EntryIDSlug<'a> {
    /// The `_`-joined decimal form of the path.  The root gives the
    /// empty string.
    pub fn to_slug(&self) -> (r: String)
        ensures
            r@ == spec_entry_slug(self.0@),
            vstd::utf8::is_ascii_chars(r@),
    {
        let n: usize = self.0.0.len();
        let mut s = String::new();
        if n == 0 {
            proof {
                assert(s@ =~= spec_entry_slug(self.0@));
                lemma_entry_slug_ascii(self.0@);
            }
            return s;
        }
        let first = i64_dec_string(self.0.0[0]);
        s.append(first.as_str());
        proof {
            assert(self.0@.take(1).len() == 1);
            assert(self.0@.take(1)[0] == self.0@[0]);
            assert(s@ =~= spec_entry_slug(self.0@.take(1)));
        }
        let mut i: usize = 1;
        while i < n
            invariant
                1 <= i <= n == self.0@.len(),
                s@ == spec_entry_slug(self.0@.take(i as int)),
            decreases n - i,
        {
            s.append("_");
            let part = i64_dec_string(self.0.0[i]);
            s.append(part.as_str());
            proof {
                assert(self.0@.take(i + 1) =~= self.0@.take(i as int).push(self.0@[i as int]));
                lemma_entry_slug_push(self.0@.take(i as int), self.0@[i as int]);
            }
            i = i + 1;
        }
        proof {
            assert(self.0@.take(n as int) =~= self.0@);
            lemma_entry_slug_ascii(self.0@);
        }
        s
    }
}

/// Renders a tile range as its slug.
pub struct TileIDSlug(pub TileID);

impl TileIDSlug {
    /// `<start>_<stop>` in decimal nanoseconds.
    pub fn to_slug(&self) -> (r: String)
        ensures
            r@ == spec_tile_slug(self.0),
            vstd::utf8::is_ascii_chars(r@),
    {
        let mut s = i64_dec_string(self.0.0.start.0);
        s.append("_");
        let stop = i64_dec_string(self.0.0.stop.0);
        s.append(stop.as_str());
        proof {
            let pair = seq![self.0.0.start.0, self.0.0.stop.0];
            assert(pair.drop_first() =~= seq![self.0.0.stop.0]);
            assert(spec_entry_slug(pair.drop_first()) == dec_int(self.0.0.stop.0 as int));
            assert(s@ =~= spec_tile_slug(self.0));
            lemma_entry_slug_ascii(pair);
        }
        s
    }
}

// ---------------------------------------------------------------------
// Fields, items and tiles.
// ---------------------------------------------------------------------

/// A dense identifier for a field name in a `FieldSchema`.
#[derive(Debug, Copy, Clone, PartialEq, Eq, PartialOrd, Ord, Hash, Structural)]
pub struct FieldID(pub usize);

/// A globally unique identifier for a timeline item.
#[derive(Debug, Copy, Clone, PartialEq, Eq, PartialOrd, Ord, Hash, Structural)]
pub struct ItemUID(pub u64);

/// A reference to another item, enough to navigate to it.
#[derive(Debug)]
pub struct ItemLink {
    pub item_uid: ItemUID,
    pub title: String,
    pub interval: Interval,
    pub entry_id: EntryID,
}

impl Clone for ItemLink {
    fn clone(&self) -> (r: Self)
        ensures
            r.item_uid == self.item_uid,
            r.title@ == self.title@,
            r.interval == self.interval,
            r.entry_id@ == self.entry_id@,
    {
        ItemLink {
            item_uid: self.item_uid,
            title: self.title.clone(),
            interval: self.interval,
            entry_id: self.entry_id.clone(),
        }
    }
}

/// A field value attached to an item.
#[derive(Debug)]
pub enum Field {
    I64(i64),
    U64(u64),
    String(String),
    Interval(Interval),
    ItemLink(ItemLink),
    Vec(Vec<Field>),
    Empty,
}

/// A lightweight timeline row element.
#[derive(Debug, Copy, Clone, PartialEq, Eq, Structural)]
pub struct Item {
    pub item_uid: ItemUID,
    pub interval: Interval,
    pub color: Color,
}

/// The heavy details of an item, fetched on demand.  Unlike the
/// interval of `Item`, which may be sliced at tile boundaries,
/// `original_interval` always covers the whole item.
#[derive(Debug)]
pub struct ItemMeta {
    pub item_uid: ItemUID,
    pub original_interval: Interval,
    pub title: String,
    pub fields: Vec<(FieldID, Field)>,
}

/// One utilization sample: the fraction of capacity in use at `time`,
/// in billionths (0 means idle, 1_000_000_000 means fully used).
#[derive(Debug, Copy, Clone, PartialEq, Eq, Structural)]
pub struct UtilPoint {
    pub time: Timestamp,
    pub util: u32,
}

/// A pyramid of tilings: level `l` splits the total interval into
/// `branch_factor^l` equal tiles.  An empty pyramid marks a dynamic
/// source, which computes tiles for arbitrary intervals on demand.
#[derive(Debug)]
pub struct TileSet {
    pub tiles: Vec<Vec<TileID>>,
}

impl Clone for TileSet {
    fn clone(&self) -> (r: Self)
        ensures
            r@ == self@,
    {
        let tiles = self.tiles.clone();
        proof {
            assert forall|i: int| 0 <= i < tiles@.len() implies tiles@[i]@ =~= self.tiles@[i]@ by {
                assert(vstd::pervasive::cloned::<Vec<TileID>>(self.tiles@[i], tiles@[i]));
            }
            assert(Seq::new(tiles@.len(), |i: int| tiles@[i]@) =~= Seq::new(
                self.tiles@.len(),
                |i: int| self.tiles@[i]@,
            ));
        }
        TileSet { tiles }
    }
}

impl View for TileSet {
    type V = Seq<Seq<TileID>>;

    open spec fn view(&self) -> Seq<Seq<TileID>> {
        Seq::new(self.tiles@.len(), |i: int| self.tiles@[i]@)
    }
}

#[derive(Debug)]
pub struct SummaryTileData {
    pub utilization: Vec<UtilPoint>,
}

#[derive(Debug)]
pub struct SummaryTile {
    pub entry_id: EntryID,
    pub tile_id: TileID,
    pub data: SummaryTileData,
}

#[derive(Debug)]
pub struct SlotTileData {
    pub items: Vec<Vec<Item>>,
}

#[derive(Debug)]
pub struct SlotTile {
    pub entry_id: EntryID,
    pub tile_id: TileID,
    pub data: SlotTileData,
}

#[derive(Debug)]
pub struct SlotMetaTileData {
    pub items: Vec<Vec<ItemMeta>>,
}

#[derive(Debug)]
pub struct SlotMetaTile {
    pub entry_id: EntryID,
    pub tile_id: TileID,
    pub data: SlotMetaTileData,
}

#[derive(Debug)]
pub struct DataSourceDescription {
    pub source_locator: Vec<String>,
}

// ---------------------------------------------------------------------
// The entry tree.
// ---------------------------------------------------------------------

/// A node of the visualization hierarchy: an internal panel, a leaf
/// slot of timeline rows, or a panel's utilization summary.
#[derive(Debug)]
pub enum EntryInfo {
    Panel {
        short_name: String,
        long_name: String,
        summary: Option<Box<EntryInfo>>,
        slots: Vec<EntryInfo>,
    },
    Slot { short_name: String, long_name: String, max_rows: u64 },
    Summary { color: Color },
}

/// The views of a sequence of strings.
pub open spec fn str_views(v: Seq<String>) -> Seq<Seq<char>> {
    Seq::new(v.len(), |i: int| v[i]@)
}

/// Structural descent from a tree to one of its slot children.
pub open spec fn entry_below(a: EntryInfo, b: EntryInfo) -> bool {
    decreases_to!(b => a)
}

/// Two trees carry the same data: same shape, and every name, row
/// bound and colour equal.  This is what a deep copy preserves.
pub open spec fn entry_info_equiv(a: EntryInfo, b: EntryInfo) -> bool
    decreases a,
{
    match (a, b) {
        (
            EntryInfo::Panel { short_name: asn, long_name: aln, summary: asu, slots: asl },
            EntryInfo::Panel { short_name: bsn, long_name: bln, summary: bsu, slots: bsl },
        ) => {
            &&& asn@ == bsn@
            &&& aln@ == bln@
            &&& (match (asu, bsu) {
                (Option::Some(x), Option::Some(y)) => entry_info_equiv(*x, *y),
                (Option::None, Option::None) => true,
                _ => false,
            })
            &&& asl@.len() == bsl@.len()
            &&& forall|i: int|
                0 <= i < asl@.len() ==> entry_info_equiv(#[trigger] asl@[i], bsl@[i])
        },
        (
            EntryInfo::Slot { short_name: asn, long_name: aln, max_rows: am },
            EntryInfo::Slot { short_name: bsn, long_name: bln, max_rows: bm },
        ) => asn@ == bsn@ && aln@ == bln@ && am == bm,
        (EntryInfo::Summary { color: ac }, EntryInfo::Summary { color: bc }) => ac == bc,
        _ => false,
    }
}

impl Clone for EntryInfo {
    /// A deep copy of the tree, carrying the same data.
    fn clone(&self) -> (r: Self)
        ensures
            entry_info_equiv(r, *self),
        decreases *self,
    {
        match self {
            EntryInfo::Panel { short_name, long_name, summary, slots } => {
                let summary2: Option<Box<EntryInfo>> = match summary {
                    Option::Some(b) => {
                        let inner = (&**b).clone();
                        let ghost snap = inner;
                        let bx = Box::new(inner);
                        proof {
                            assert(entry_info_equiv(snap, **b));
                            assert(*bx == snap);
                            assert(entry_info_equiv(*bx, **b));
                        }
                        Some(bx)
                    },
                    Option::None => None,
                };
                let mut slots2: Vec<EntryInfo> = Vec::new();
                let n: usize = slots.len();
                let mut i: usize = 0;
                while i < n
                    invariant
                        0 <= i <= n,
                        n == slots@.len(),
                        slots2@.len() == i,
                        forall|j: int| 0 <= j < n ==> entry_below(#[trigger] slots@[j], *self),
                        forall|j: int|
                            0 <= j < i ==> entry_info_equiv(#[trigger] slots2@[j], slots@[j]),
                    decreases n - i,
                {
                    slots2.push(slots[i].clone());
                    i = i + 1;
                }
                let sn = short_name.clone();
                let ln = long_name.clone();
                proof {
                    assert(sn@ == short_name@);
                    assert(ln@ == long_name@);
                }
                let ghost slots2_snap = slots2@;
                let ghost sum_snap = summary2;
                let r = EntryInfo::Panel { short_name: sn, long_name: ln, summary: summary2, slots: slots2 };
                proof {
                    assert(spec_slots(r) =~= slots2_snap);
                    assert forall|j: int|
                        0 <= j < spec_slots(r).len() implies entry_info_equiv(
                        #[trigger] spec_slots(r)[j],
                        slots@[j],
                    ) by {
                        assert(spec_slots(r)[j] == slots2_snap[j]);
                    }
                    assert(entry_info_equiv(r, *self));
                }
                r
            },
            EntryInfo::Slot { short_name, long_name, max_rows } => EntryInfo::Slot {
                short_name: short_name.clone(),
                long_name: long_name.clone(),
                max_rows: *max_rows,
            },
            EntryInfo::Summary { color } => EntryInfo::Summary { color: *color },
        }
    }
}

pub open spec fn spec_slots(e: EntryInfo) -> Seq<EntryInfo> {
    match e {
        EntryInfo::Panel { slots, .. } => slots@,
        _ => Seq::empty(),
    }
}

pub open spec fn spec_short_name(e: EntryInfo) -> Seq<char> {
    match e {
        EntryInfo::Panel { short_name, .. } => short_name@,
        EntryInfo::Slot { short_name, .. } => short_name@,
        EntryInfo::Summary { .. } => Seq::empty(),
    }
}

pub open spec fn spec_long_name(e: EntryInfo) -> Seq<char> {
    match e {
        EntryInfo::Panel { long_name, .. } => long_name@,
        EntryInfo::Slot { long_name, .. } => long_name@,
        EntryInfo::Summary { .. } => Seq::empty(),
    }
}

/// Walk the tree along a path: a negative element selects the summary
/// child, a non-negative one the slot with that index.  `Some` exactly
/// when every element resolves to an existing child.
pub open spec fn spec_get(e: EntryInfo, path: Seq<i64>) -> Option<EntryInfo>
    decreases path.len(),
{
    if path.len() == 0 {
        Some(e)
    } else {
        match e {
            EntryInfo::Panel { summary, slots, .. } => {
                if path[0] < 0 {
                    match summary {
                        Option::Some(b) => spec_get(*b, path.drop_first()),
                        Option::None => None,
                    }
                } else if path[0] < slots@.len() {
                    spec_get(slots@[path[0] as int], path.drop_first())
                } else {
                    None
                }
            },
            _ => None,
        }
    }
}

impl EntryInfo {
    /// Resolve a path in the tree.
    pub fn get(&self, entry_id: &EntryID) -> (r: Option<&EntryInfo>)
        ensures
            (match r {
                Some(e) => spec_get(*self, entry_id@) == Some(*e),
                None => spec_get(*self, entry_id@) is None,
            }),
    {
        let mut cur: &EntryInfo = self;
        let n: usize = entry_id.0.len();
        let mut i: usize = 0;
        proof {
            assert(entry_id@.skip(0int) =~= entry_id@);
        }
        while i < n
            invariant
                0 <= i <= n == entry_id@.len(),
                spec_get(*self, entry_id@) == spec_get(*cur, entry_id@.skip(i as int)),
            decreases n - i,
        {
            let idx: i64 = entry_id.0[i];
            proof {
                assert(entry_id@.skip(i as int)[0] == entry_id@[i as int]);
                assert(entry_id@.skip(i as int).drop_first() =~= entry_id@.skip(i + 1));
            }
            match cur {
                EntryInfo::Panel { summary, slots, .. } => {
                    if idx < 0 {
                        match summary {
                            Option::Some(b) => {
                                cur = &**b;
                            },
                            Option::None => {
                                return None;
                            },
                        }
                    } else {
                        if (idx as u64) < (slots.len() as u64) {
                            cur = &slots[idx as usize];
                        } else {
                            return None;
                        }
                    }
                },
                _ => {
                    return None;
                },
            }
            i = i + 1;
        }
        proof {
            assert(entry_id@.skip(n as int) =~= Seq::<i64>::empty());
        }
        Some(cur)
    }

    /// The number of level-1 children of a root panel.
    pub fn nodes(&self) -> (r: u64)
        requires
            (*self) matches EntryInfo::Panel { .. },
        ensures
            r == spec_slots(*self).len(),
    {
        match self {
            EntryInfo::Panel { slots, .. } => slots.len() as u64,
            _ => {
                proof {
                    assert(false);
                }
                0
            },
        }
    }
}

pub open spec fn all_panels(s: Seq<EntryInfo>) -> bool {
    forall|i: int| 0 <= i < s.len() ==> (#[trigger] s[i]) matches EntryInfo::Panel { .. }
}

/// The shape `kinds` walks: a panel of panels of panels.
pub open spec fn spec_kinds_wf(e: EntryInfo) -> bool {
    &&& e matches EntryInfo::Panel { .. }
    &&& all_panels(spec_slots(e))
    &&& forall|i: int|
        0 <= i < spec_slots(e).len() ==> all_panels(spec_slots(#[trigger] spec_slots(e)[i]))
}

/// The short names of one panel's children, in order.
pub open spec fn spec_kind_names(ks: Seq<EntryInfo>) -> Seq<Seq<char>>
    decreases ks.len(),
{
    if ks.len() == 0 {
        Seq::empty()
    } else {
        seq![spec_short_name(ks[0])] + spec_kind_names(ks.drop_first())
    }
}

/// The level-2 short names below a sequence of level-1 panels, in
/// tree order.
pub open spec fn spec_level2_names(nodes: Seq<EntryInfo>) -> Seq<Seq<char>>
    decreases nodes.len(),
{
    if nodes.len() == 0 {
        Seq::empty()
    } else {
        spec_kind_names(spec_slots(nodes[0])) + spec_level2_names(nodes.drop_first())
    }
}

/// Keep the first occurrence of each name, in order of first sight.
pub open spec fn spec_dedup(names: Seq<Seq<char>>) -> Seq<Seq<char>>
    decreases names.len(),
{
    if names.len() == 0 {
        Seq::empty()
    } else {
        let d = spec_dedup(names.drop_last());
        if names.drop_last().contains(names.last()) {
            d
        } else {
            d.push(names.last())
        }
    }
}

proof fn lemma_dedup_contains(names: Seq<Seq<char>>, x: Seq<char>)
    ensures
        spec_dedup(names).contains(x) <==> names.contains(x),
    decreases names.len(),
{
    if names.len() == 0 {
        assert(!spec_dedup(names).contains(x));
        assert(!names.contains(x));
    } else {
        lemma_dedup_contains(names.drop_last(), x);
        let d = spec_dedup(names.drop_last());
        if names.contains(x) {
            let k = choose|k: int| 0 <= k < names.len() && names[k] == x;
            if k < names.len() - 1 {
                assert(names.drop_last()[k] == x);
                assert(names.drop_last().contains(x));
                if names.drop_last().contains(names.last()) {
                } else {
                    assert(d.contains(x));
                    assert(d.push(names.last())[choose|j: int|
                        0 <= j < d.len() && d[j] == x] == x);
                }
            } else {
                assert(names.last() == x);
                if names.drop_last().contains(x) {
                } else {
                    assert(spec_dedup(names) == d.push(x));
                    assert(d.push(x)[d.len() as int] == x);
                }
            }
        } else {
            assert(!names.drop_last().contains(x)) by {
                if names.drop_last().contains(x) {
                    let k = choose|k: int| 0 <= k < names.len() - 1 && names.drop_last()[k] == x;
                    assert(names[k] == x);
                }
            }
            assert(names.last() != x) by {
                if names.last() == x {
                    assert(names[names.len() - 1] == x);
                }
            }
            if d.contains(x) {
            }
            assert forall|j: int| 0 <= j < spec_dedup(names).len() implies spec_dedup(
                names,
            )[j] != x by {
                if names.drop_last().contains(names.last()) {
                } else {
                    if j < d.len() {
                        assert(spec_dedup(names)[j] == d[j]);
                    } else {
                        assert(spec_dedup(names)[j] == names.last());
                    }
                }
            }
        }
    }
}

proof fn lemma_kind_names_take(ks: Seq<EntryInfo>, j: int)
    requires
        0 <= j < ks.len(),
    ensures
        spec_kind_names(ks.take(j + 1)) == spec_kind_names(ks.take(j)).push(
            spec_short_name(ks[j]),
        ),
    decreases j,
{
    if j == 0 {
        assert(ks.take(1)[0] == ks[0]);
        assert(ks.take(1).drop_first() =~= Seq::<EntryInfo>::empty());
        assert(ks.take(0) =~= Seq::<EntryInfo>::empty());
        assert(spec_kind_names(ks.take(1)) =~= spec_kind_names(ks.take(0)).push(
            spec_short_name(ks[0]),
        ));
    } else {
        lemma_kind_names_take(ks.drop_first(), j - 1);
        assert(ks.take(j + 1)[0] == ks[0]);
        assert(ks.take(j + 1).drop_first() =~= ks.drop_first().take(j));
        assert(ks.take(j)[0] == ks[0]);
        assert(ks.take(j).drop_first() =~= ks.drop_first().take(j - 1));
        assert(ks.drop_first()[j - 1] == ks[j]);
        assert(spec_kind_names(ks.take(j + 1)) =~= spec_kind_names(ks.take(j)).push(
            spec_short_name(ks[j]),
        ));
    }
}

proof fn lemma_level2_take(nodes: Seq<EntryInfo>, i: int)
    requires
        0 <= i < nodes.len(),
    ensures
        spec_level2_names(nodes.take(i + 1)) == spec_level2_names(nodes.take(i))
            + spec_kind_names(spec_slots(nodes[i])),
    decreases i,
{
    if i == 0 {
        assert(nodes.take(1)[0] == nodes[0]);
        assert(nodes.take(1).drop_first() =~= Seq::<EntryInfo>::empty());
        assert(nodes.take(0) =~= Seq::<EntryInfo>::empty());
        assert(spec_level2_names(nodes.take(1)) =~= spec_level2_names(nodes.take(0))
            + spec_kind_names(spec_slots(nodes[0])));
    } else {
        lemma_level2_take(nodes.drop_first(), i - 1);
        assert(nodes.take(i + 1)[0] == nodes[0]);
        assert(nodes.take(i + 1).drop_first() =~= nodes.drop_first().take(i));
        assert(nodes.take(i)[0] == nodes[0]);
        assert(nodes.take(i).drop_first() =~= nodes.drop_first().take(i - 1));
        assert(nodes.drop_first()[i - 1] == nodes[i]);
        assert(spec_level2_names(nodes.take(i + 1)) =~= spec_level2_names(nodes.take(i))
            + spec_kind_names(spec_slots(nodes[i])));
    }
}

/// Byte-for-byte string equality.
fn str_eq(a: &str, b: &str) -> (r: bool)
    ensures
        r == (a@ == b@),
{
    let ab: &[u8] = a.as_bytes();
    let bb: &[u8] = b.as_bytes();
    if ab.len() != bb.len() {
        proof {
            assert(a@ != b@);
        }
        return false;
    }
    let n: usize = ab.len();
    let mut i: usize = 0;
    while i < n
        invariant
            0 <= i <= n,
            ab@ == a.spec_bytes(),
            bb@ == b.spec_bytes(),
            n == ab@.len() == bb@.len(),
            forall|x: int| 0 <= x < i ==> ab@[x] == bb@[x],
        decreases n - i,
    {
        if ab[i] != bb[i] {
            proof {
                assert(a.spec_bytes() != b.spec_bytes());
                assert(a@ != b@);
            }
            return false;
        }
        i = i + 1;
    }
    proof {
        assert(a.spec_bytes() =~= b.spec_bytes());
        broadcast use vstd::utf8::encode_utf8_decode_utf8;

        assert(vstd::utf8::decode_utf8(vstd::utf8::encode_utf8(a@)) == a@);
        assert(vstd::utf8::decode_utf8(vstd::utf8::encode_utf8(b@)) == b@);
    }
    true
}

/// Whether one of the strings reads `s`.
fn contains_string(v: &Vec<String>, s: &String) -> (r: bool)
    ensures
        r == str_views(v@).contains(s@),
{
    let n: usize = v.len();
    let mut i: usize = 0;
    while i < n
        invariant
            0 <= i <= n == v@.len(),
            forall|x: int| 0 <= x < i ==> (#[trigger] v@[x])@ != s@,
        decreases n - i,
    {
        if str_eq(v[i].as_str(), s.as_str()) {
            proof {
                assert(str_views(v@)[i as int] == s@);
            }
            return true;
        }
        i = i + 1;
    }
    proof {
        assert forall|k: int| 0 <= k < str_views(v@).len() implies str_views(v@)[k] != s@ by {
            assert(v@[k]@ != s@);
        }
    }
    false
}

// ---------------------------------------------------------------------
// The field schema.
// ---------------------------------------------------------------------

/// A bidirectional mapping between field names and dense `FieldID`s,
/// with a subset marked searchable.  `FieldID(i)` names the `i`-th
/// distinct field name inserted.
#[derive(Debug)]
pub struct FieldSchema {
    field_names: Vec<String>,
    searchable_flags: Vec<bool>,
}

/// The identifiers of the searchable fields, in ascending order.
pub open spec fn spec_searchable_ids(flags: Seq<bool>) -> Seq<FieldID>
    decreases flags.len(),
{
    if flags.len() == 0 {
        Seq::empty()
    } else {
        spec_searchable_ids(flags.drop_last()) + if flags.last() {
            seq![FieldID((flags.len() - 1) as usize)]
        } else {
            Seq::empty()
        }
    }
}

impl FieldSchema {
    /// The field names, in identifier order.
    pub closed spec fn names(&self) -> Seq<Seq<char>> {
        str_views(self.field_names@)
    }

    /// Which fields are searchable, in identifier order.
    pub closed spec fn flags(&self) -> Seq<bool> {
        self.searchable_flags@
    }

    /// Names are distinct and every field has a searchable flag.
    pub open spec fn wf(&self) -> bool {
        &&& self.flags().len() == self.names().len()
        &&& forall|i: int, j: int|
            0 <= i < j < self.names().len() ==> #[trigger] self.names()[i]
                != #[trigger] self.names()[j]
    }

    pub fn new() -> (r: Self)
        ensures
            r.names() == Seq::<Seq<char>>::empty(),
            r.flags() == Seq::<bool>::empty(),
            r.wf(),
    {
        let r = FieldSchema { field_names: Vec::new(), searchable_flags: Vec::new() };
        proof {
            assert(r.names() =~= Seq::<Seq<char>>::empty());
        }
        r
    }

    /// Find the identifier of a name, scanning in identifier order.
    fn find_name(&self, field_name: &str) -> (r: Option<usize>)
        ensures
            (match r {
                Some(i) => i < self.names().len() && self.names()[i as int] == field_name@,
                None => !self.names().contains(field_name@),
            }),
    {
        let n: usize = self.field_names.len();
        let mut i: usize = 0;
        while i < n
            invariant
                0 <= i <= n == self.field_names@.len(),
                forall|x: int| 0 <= x < i ==> (#[trigger] self.field_names@[x])@ != field_name@,
            decreases n - i,
        {
            if str_eq(self.field_names[i].as_str(), field_name) {
                proof {
                    assert(self.names()[i as int] == field_name@);
                }
                return Some(i);
            }
            i = i + 1;
        }
        proof {
            assert forall|k: int| 0 <= k < self.names().len() implies self.names()[k]
                != field_name@ by {
                assert(self.field_names@[k]@ != field_name@);
            }
        }
        None
    }

    /// Insert a name, idempotently: a known name keeps its identifier
    /// and its searchable flag; a new name gets the next identifier.
    pub fn insert(&mut self, field_name: String, searchable: bool) -> (r: FieldID)
        requires
            old(self).wf(),
        ensures
            final(self).wf(),
            (if old(self).names().contains(field_name@) {
                &&& final(self).names() == old(self).names()
                &&& final(self).flags() == old(self).flags()
                &&& r.0 < old(self).names().len()
                &&& old(self).names()[r.0 as int] == field_name@
            } else {
                &&& r.0 == old(self).names().len()
                &&& final(self).names() == old(self).names().push(field_name@)
                &&& final(self).flags() == old(self).flags().push(searchable)
            }),
    {
        match self.find_name(field_name.as_str()) {
            Some(i) => {
                proof {
                    assert(old(self).names().contains(field_name@));
                }
                FieldID(i)
            },
            None => {
                let next = self.field_names.len();
                self.field_names.push(field_name);
                self.searchable_flags.push(searchable);
                proof {
                    assert(self.names() =~= old(self).names().push(
                        self.field_names@.last()@,
                    ));
                    assert forall|i: int, j: int|
                        0 <= i < j < self.names().len() implies #[trigger] self.names()[i]
                        != #[trigger] self.names()[j] by {
                        if j < self.names().len() - 1 {
                            assert(old(self).names()[i] != old(self).names()[j]);
                        } else {
                            assert(!old(self).names().contains(self.names()[j]));
                            assert(old(self).names()[i] == self.names()[i]);
                        }
                    }
                }
                FieldID(next)
            },
        }
    }

    /// The identifier of a name, when it is known.
    pub fn get_id(&self, field_name: &str) -> (r: Option<FieldID>)
        ensures
            (match r {
                Some(id) => id.0 < self.names().len() && self.names()[id.0 as int] == field_name@,
                None => !self.names().contains(field_name@),
            }),
    {
        match self.find_name(field_name) {
            Some(i) => Some(FieldID(i)),
            None => None,
        }
    }

    /// The name behind an identifier, when it is in range.
    pub fn get_name(&self, field_id: FieldID) -> (r: Option<&str>)
        ensures
            (match r {
                Some(s) => field_id.0 < self.names().len() && s@ == self.names()[field_id.0 as int],
                None => field_id.0 >= self.names().len(),
            }),
    {
        if field_id.0 < self.field_names.len() {
            Some(self.field_names[field_id.0].as_str())
        } else {
            None
        }
    }

    pub fn contains_id(&self, field_id: FieldID) -> (r: bool)
        ensures
            r == (field_id.0 < self.names().len()),
    {
        field_id.0 < self.field_names.len()
    }

    pub fn contains_name(&self, field_name: &str) -> (r: bool)
        ensures
            r == self.names().contains(field_name@),
    {
        match self.find_name(field_name) {
            Some(_) => {
                proof {
                    assert(self.names().contains(field_name@));
                }
                true
            },
            None => false,
        }
    }

    /// The identifiers of the searchable fields, ascending.
    pub fn searchable(&self) -> (r: Vec<FieldID>)
        ensures
            r@ == spec_searchable_ids(self.flags()),
    {
        let n: usize = self.searchable_flags.len();
        let mut out: Vec<FieldID> = Vec::new();
        let mut i: usize = 0;
        proof {
            assert(self.flags().take(0) =~= Seq::<bool>::empty());
            assert(out@ =~= spec_searchable_ids(self.flags().take(0)));
        }
        while i < n
            invariant
                0 <= i <= n == self.flags().len(),
                out@ == spec_searchable_ids(self.flags().take(i as int)),
            decreases n - i,
        {
            proof {
                assert(self.flags().take(i + 1).drop_last() =~= self.flags().take(i as int));
                assert(self.flags().take(i + 1).last() == self.flags()[i as int]);
            }
            if self.searchable_flags[i] {
                out.push(FieldID(i));
                proof {
                    assert(out@ =~= spec_searchable_ids(self.flags().take(i + 1)));
                }
            } else {
                proof {
                    assert(out@ =~= spec_searchable_ids(self.flags().take(i + 1)));
                }
            }
            i = i + 1;
        }
        proof {
            assert(self.flags().take(n as int) =~= self.flags());
        }
        out
    }
}

impl TileSet {
    /// Whether two pyramids hold the same tiles, level by level.
    pub fn same_tiles(&self, other: &TileSet) -> (r: bool)
        ensures
            r == (self@ == other@),
    {
        let n: usize = self.tiles.len();
        if n != other.tiles.len() {
            proof {
                assert(self@.len() != other@.len());
            }
            return false;
        }
        let mut i: usize = 0;
        while i < n
            invariant
                0 <= i <= n == self@.len() == other@.len(),
                forall|x: int| 0 <= x < i ==> (#[trigger] self@[x]) == other@[x],
            decreases n - i,
        {
            let a: &Vec<TileID> = &self.tiles[i];
            let b: &Vec<TileID> = &other.tiles[i];
            let m: usize = a.len();
            if m != b.len() {
                proof {
                    assert(self@[i as int].len() != other@[i as int].len());
                }
                return false;
            }
            let mut j: usize = 0;
            while j < m
                invariant
                    0 <= j <= m == a@.len() == b@.len(),
                    a@ == self.tiles@[i as int]@,
                    b@ == other.tiles@[i as int]@,
                    0 <= i < self@.len() == self.tiles@.len(),
                    self@.len() == other@.len() && other@.len() == other.tiles@.len(),
                    forall|y: int| 0 <= y < j ==> (#[trigger] a@[y]) == b@[y],
                decreases m - j,
            {
                let ta: TileID = a[j];
                let tb: TileID = b[j];
                if !(ta.0.start.0 == tb.0.start.0 && ta.0.stop.0 == tb.0.stop.0) {
                    proof {
                        assert(self@[i as int][j as int] != other@[i as int][j as int]);
                    }
                    return false;
                }
                j = j + 1;
            }
            proof {
                assert(self@[i as int] =~= other@[i as int]);
            }
            i = i + 1;
        }
        proof {
            assert(self@ =~= other@);
        }
        true
    }
}

impl FieldSchema {
    /// Whether two schemas agree on every name and flag.
    pub fn same_schema(&self, other: &FieldSchema) -> (r: bool)
        ensures
            r == (self.names() == other.names() && self.flags() == other.flags()),
    {
        let n: usize = self.field_names.len();
        if n != other.field_names.len() {
            proof {
                assert(self.names().len() != other.names().len());
            }
            return false;
        }
        let m: usize = self.searchable_flags.len();
        if m != other.searchable_flags.len() {
            proof {
                assert(self.flags().len() != other.flags().len());
            }
            return false;
        }
        let mut i: usize = 0;
        while i < n
            invariant
                0 <= i <= n == self.names().len() == other.names().len(),
                forall|x: int| 0 <= x < i ==> (#[trigger] self.names()[x]) == other.names()[x],
            decreases n - i,
        {
            if !str_eq(self.field_names[i].as_str(), other.field_names[i].as_str()) {
                proof {
                    assert(self.names()[i as int] != other.names()[i as int]);
                }
                return false;
            }
            proof {
                assert(self.names()[i as int] == other.names()[i as int]);
            }
            i = i + 1;
        }
        let mut j: usize = 0;
        while j < m
            invariant
                0 <= j <= m == self.flags().len() == other.flags().len(),
                self.names() =~= other.names() || forall|x: int|
                    0 <= x < self.names().len() ==> (#[trigger] self.names()[x])
                        == other.names()[x],
                forall|y: int| 0 <= y < j ==> (#[trigger] self.flags()[y]) == other.flags()[y],
            decreases m - j,
        {
            if self.searchable_flags[j] != other.searchable_flags[j] {
                return false;
            }
            j = j + 1;
        }
        proof {
            assert(self.names() =~= other.names());
            assert(self.flags() =~= other.flags());
        }
        true
    }
}

impl Default for FieldSchema {
    fn default() -> (r: Self)
        ensures
            r.names() == Seq::<Seq<char>>::empty(),
            r.flags() == Seq::<bool>::empty(),
            r.wf(),
    {
        Self::new()
    }
}

impl Clone for FieldSchema {
    fn clone(&self) -> (r: Self)
        ensures
            r.names() == self.names(),
            r.flags() == self.flags(),
    {
        let field_names = self.field_names.clone();
        let searchable_flags = self.searchable_flags.clone();
        proof {
            assert forall|i: int| 0 <= i < field_names@.len() implies field_names@[i]@
                == self.field_names@[i]@ by {
                assert(vstd::pervasive::cloned::<String>(self.field_names@[i], field_names@[i]));
            }
            assert(str_views(field_names@) =~= str_views(self.field_names@));
            assert(searchable_flags@ =~= self.searchable_flags@);
        }
        FieldSchema { field_names, searchable_flags }
    }
}

// ---------------------------------------------------------------------
// The data-source contract.
// ---------------------------------------------------------------------

/// Everything a viewer needs to start: the entry tree, the total
/// interval, the tile pyramid and the field schema.
#[derive(Debug)]
pub struct DataSourceInfo {
    pub entry_info: EntryInfo,
    pub interval: Interval,
    pub tile_set: TileSet,
    pub field_schema: FieldSchema,
}

impl Clone for DataSourceInfo {
    fn clone(&self) -> (r: Self)
        ensures
            entry_info_equiv(r.entry_info, self.entry_info),
            r.interval == self.interval,
            r.tile_set@ == self.tile_set@,
            r.field_schema.names() == self.field_schema.names(),
            r.field_schema.flags() == self.field_schema.flags(),
    {
        DataSourceInfo {
            entry_info: self.entry_info.clone(),
            interval: self.interval,
            tile_set: self.tile_set.clone(),
            field_schema: self.field_schema.clone(),
        }
    }
}

/// Whether a path lands on a summary node of the tree.
pub open spec fn spec_resolves_to_summary(root: EntryInfo, path: Seq<i64>) -> bool {
    match spec_get(root, path) {
        Option::Some(e) => e matches EntryInfo::Summary { .. },
        Option::None => false,
    }
}

/// Whether a path lands on a slot node of the tree.
pub open spec fn spec_resolves_to_slot(root: EntryInfo, path: Seq<i64>) -> bool {
    match spec_get(root, path) {
        Option::Some(e) => e matches EntryInfo::Slot { .. },
        Option::None => false,
    }
}

/// A tile was requested for an entry of the wrong kind.
#[derive(Debug, Copy, Clone, PartialEq, Eq, Structural)]
pub enum TileFetchError {
    NotASlot,
    NotASummary,
}

/// A synchronous tile source.  A returned tile is always stamped with
/// the requested entry and tile range, and a fetch succeeds exactly
/// when the entry resolves to a node of the fetched kind.
pub trait DataSource: Sized {
    open spec fn spec_entry_info(&self) -> EntryInfo {
        EntryInfo::Summary { color: Color { r: 0, g: 0, b: 0, a: 0 } }
    }

    fn fetch_description(&self) -> DataSourceDescription;

    fn fetch_info(&self) -> (r: DataSourceInfo)
        ensures
            entry_info_equiv(r.entry_info, self.spec_entry_info()),
    ;

    fn fetch_summary_tile(&self, entry_id: &EntryID, tile_id: TileID, full: bool) -> (r: Result<
        SummaryTile,
        TileFetchError,
    >)
        ensures
            (r matches Ok(t) ==> t.entry_id@ == entry_id@ && t.tile_id == tile_id),
            (r is Ok <==> (spec_get(self.spec_entry_info(), entry_id@) matches Some(e)
                && e matches EntryInfo::Summary { .. })),
    ;

    fn fetch_slot_tile(&self, entry_id: &EntryID, tile_id: TileID, full: bool) -> (r: Result<
        SlotTile,
        TileFetchError,
    >)
        ensures
            (r matches Ok(t) ==> t.entry_id@ == entry_id@ && t.tile_id == tile_id),
            (r is Ok <==> (spec_get(self.spec_entry_info(), entry_id@) matches Some(e)
                && e matches EntryInfo::Slot { .. })),
    ;

    fn fetch_slot_meta_tile(&self, entry_id: &EntryID, tile_id: TileID, full: bool) -> (r: Result<
        SlotMetaTile,
        TileFetchError,
    >)
        ensures
            (r matches Ok(t) ==> t.entry_id@ == entry_id@ && t.tile_id == tile_id),
            (r is Ok <==> (spec_get(self.spec_entry_info(), entry_id@) matches Some(e)
                && e matches EntryInfo::Slot { .. })),
    ;
}

/// The same contract for sources that keep internal caches.
pub trait DataSourceMut: Sized {
    open spec fn spec_entry_info(&self) -> EntryInfo {
        EntryInfo::Summary { color: Color { r: 0, g: 0, b: 0, a: 0 } }
    }

    fn fetch_description(&self) -> DataSourceDescription;

    fn fetch_info(&mut self) -> (r: DataSourceInfo)
        ensures
            final(self).spec_entry_info() == old(self).spec_entry_info(),
            entry_info_equiv(r.entry_info, old(self).spec_entry_info()),
    ;

    fn fetch_summary_tile(&mut self, entry_id: &EntryID, tile_id: TileID, full: bool) -> (r:
        Result<SummaryTile, TileFetchError>)
        ensures
            final(self).spec_entry_info() == old(self).spec_entry_info(),
            (r matches Ok(t) ==> t.entry_id@ == entry_id@ && t.tile_id == tile_id),
            (r is Ok <==> (spec_get(old(self).spec_entry_info(), entry_id@) matches Some(e)
                && e matches EntryInfo::Summary { .. })),
    ;

    fn fetch_slot_tile(&mut self, entry_id: &EntryID, tile_id: TileID, full: bool) -> (r: Result<
        SlotTile,
        TileFetchError,
    >)
        ensures
            final(self).spec_entry_info() == old(self).spec_entry_info(),
            (r matches Ok(t) ==> t.entry_id@ == entry_id@ && t.tile_id == tile_id),
            (r is Ok <==> (spec_get(old(self).spec_entry_info(), entry_id@) matches Some(e)
                && e matches EntryInfo::Slot { .. })),
    ;

    fn fetch_slot_meta_tile(&mut self, entry_id: &EntryID, tile_id: TileID, full: bool) -> (r:
        Result<SlotMetaTile, TileFetchError>)
        ensures
            final(self).spec_entry_info() == old(self).spec_entry_info(),
            (r matches Ok(t) ==> t.entry_id@ == entry_id@ && t.tile_id == tile_id),
            (r is Ok <==> (spec_get(old(self).spec_entry_info(), entry_id@) matches Some(e)
                && e matches EntryInfo::Slot { .. })),
    ;
}

/// Any immutable source is trivially a mutable one.
impl<T: DataSource> DataSourceMut for T {
    open spec fn spec_entry_info(&self) -> EntryInfo {
        <T as DataSource>::spec_entry_info(self)
    }

    fn fetch_description(&self) -> DataSourceDescription {
        <T as DataSource>::fetch_description(self)
    }

    fn fetch_info(&mut self) -> DataSourceInfo {
        <T as DataSource>::fetch_info(self)
    }

    fn fetch_summary_tile(&mut self, entry_id: &EntryID, tile_id: TileID, full: bool) -> Result<
        SummaryTile,
        TileFetchError,
    > {
        <T as DataSource>::fetch_summary_tile(self, entry_id, tile_id, full)
    }

    fn fetch_slot_tile(&mut self, entry_id: &EntryID, tile_id: TileID, full: bool) -> Result<
        SlotTile,
        TileFetchError,
    > {
        <T as DataSource>::fetch_slot_tile(self, entry_id, tile_id, full)
    }

    fn fetch_slot_meta_tile(&mut self, entry_id: &EntryID, tile_id: TileID, full: bool) -> Result<
        SlotMetaTile,
        TileFetchError,
    > {
        <T as DataSource>::fetch_slot_meta_tile(self, entry_id, tile_id, full)
    }
}

impl EntryInfo {
    /// The distinct short names of the level-2 panels, in the order
    /// they are first seen.
    pub fn kinds(&self) -> (r: Vec<String>)
        requires
            spec_kinds_wf(*self),
        ensures
            str_views(r@) == spec_dedup(spec_level2_names(spec_slots(*self))),
    {
        let mut result: Vec<String> = Vec::new();
        match self {
            EntryInfo::Panel { slots: nodes, .. } => {
                let nn: usize = nodes.len();
                let mut i: usize = 0;
                proof {
                    assert(nodes@.take(0) =~= Seq::<EntryInfo>::empty());
                    assert(str_views(result@) =~= spec_dedup(spec_level2_names(nodes@.take(0))));
                }
                while i < nn
                    invariant
                        0 <= i <= nn == nodes@.len(),
                        spec_kinds_wf(*self),
                        nodes@ == spec_slots(*self),
                        str_views(result@) == spec_dedup(spec_level2_names(nodes@.take(i as int))),
                    decreases nn - i,
                {
                    match &nodes[i] {
                        EntryInfo::Panel { slots: kinds, .. } => {
                            let kn: usize = kinds.len();
                            let mut j: usize = 0;
                            proof {
                                assert(kinds@.take(0) =~= Seq::<EntryInfo>::empty());
                                assert(spec_level2_names(nodes@.take(i as int)) + spec_kind_names(
                                    kinds@.take(0),
                                ) =~= spec_level2_names(nodes@.take(i as int)));
                            }
                            while j < kn
                                invariant
                                    0 <= j <= kn == kinds@.len(),
                                    spec_kinds_wf(*self),
                                    nodes@ == spec_slots(*self),
                                    0 <= i < nodes@.len(),
                                    kinds@ == spec_slots(nodes@[i as int]),
                                    str_views(result@) == spec_dedup(
                                        spec_level2_names(nodes@.take(i as int)) + spec_kind_names(
                                            kinds@.take(j as int),
                                        ),
                                    ),
                                decreases kn - j,
                            {
                                let ghost names_before = spec_level2_names(nodes@.take(i as int))
                                    + spec_kind_names(kinds@.take(j as int));
                                match &kinds[j] {
                                    EntryInfo::Panel { short_name, .. } => {
                                        proof {
                                            assert(all_panels(spec_slots(nodes@[i as int])));
                                            lemma_kind_names_take(kinds@, j as int);
                                            assert(names_before.push(short_name@)
                                                =~= spec_level2_names(nodes@.take(i as int))
                                                + spec_kind_names(kinds@.take(j + 1)));
                                            assert(names_before.push(short_name@).drop_last()
                                                =~= names_before);
                                            lemma_dedup_contains(names_before, short_name@);
                                        }
                                        if !contains_string(&result, short_name) {
                                            result.push(short_name.clone());
                                            proof {
                                                assert(str_views(result@) =~= str_views(
                                                    result@.drop_last(),
                                                ).push(short_name@));
                                            }
                                        }
                                    },
                                    _ => {
                                        proof {
                                            assert(false);
                                        }
                                    },
                                }
                                j = j + 1;
                            }
                            proof {
                                assert(kinds@.take(kn as int) =~= kinds@);
                                lemma_level2_take(nodes@, i as int);
                            }
                        },
                        _ => {
                            proof {
                                assert(false);
                            }
                        },
                    }
                    i = i + 1;
                }
                proof {
                    assert(nodes@.take(nn as int) =~= nodes@);
                }
            },
            _ => {
                proof {
                    assert(false);
                }
            },
        }
        result
    }
}

} // verus!
