//! The text of a report: sizes in plain or scaled form, with or without
//! colour.

use vstd::prelude::*;
use vstd::string::*;
use crate::results::{lists, row_views, total, ResultMap};
use crate::sort::{descending, sort_descending};
use crate::text::{decimal, signed_decimal, to_decimal, to_signed_decimal};

verus! {

/// How a report is laid out.
#[derive(Clone, Copy, Debug, PartialEq, Eq, Structural)]
pub struct FormatOptions {
    /// Sizes are scaled to a unit.
    pub human: bool,
    /// Every entry is shown, not only the large ones.
    pub nosummary: bool,
    /// Empty entries are shown too.
    pub zeroes: bool,
    /// Scaled sizes are coloured.
    pub colors: bool,
}

pub const HIGHLIGHT_0: i32 = 36;

pub const HIGHLIGHT_1: i32 = 32;

pub const HIGHLIGHT_2: i32 = 35;

pub const HIGHLIGHT_3: i32 = 33;

pub const HIGHLIGHT_4: i32 = 31;

/// The unit that a size is scaled to.
#[derive(Clone, Copy, Debug, PartialEq, Eq, Structural)]
pub enum Unit {
    Bytes,
    Kilo,
    Mega,
    Giga,
}

impl Unit {
    /// The unit for `size`: the largest of which `size` is more than one.
    pub open spec fn of(size: u64) -> Unit {
        if size > 1_000_000_000 {
            Unit::Giga
        } else if size > 1_000_000 {
            Unit::Mega
        } else if size > 1_000 {
            Unit::Kilo
        } else {
            Unit::Bytes
        }
    }

    /// The number of bytes in one of the unit.
    pub open spec fn bytes(self) -> u32 {
        match self {
            Unit::Bytes => 1,
            Unit::Kilo => 1_000,
            Unit::Mega => 1_000_000,
            Unit::Giga => 1_000_000_000,
        }
    }

    /// The letter written after a size in the unit; none for bytes.
    pub open spec fn suffix(self) -> Seq<char> {
        match self {
            Unit::Bytes => seq![],
            Unit::Kilo => seq!['K'],
            Unit::Mega => seq!['M'],
            Unit::Giga => seq!['G'],
        }
    }

    /// The colour that a size in the unit is written in.
    pub open spec fn colour(self) -> i32 {
        match self {
            Unit::Bytes => HIGHLIGHT_1,
            Unit::Kilo => HIGHLIGHT_2,
            Unit::Mega => HIGHLIGHT_4,
            Unit::Giga => HIGHLIGHT_4,
        }
    }

    /// The number of bytes in one of the unit.
    pub fn divisor(self) -> (n: u32)
        ensures
            n == self.bytes(),
    {
        match self {
            Unit::Bytes => 1,
            Unit::Kilo => 1_000,
            Unit::Mega => 1_000_000,
            Unit::Giga => 1_000_000_000,
        }
    }
}

/// The unit that `size` is scaled to.
pub fn unit_of(size: u64) -> (unit: Unit)
    ensures
        unit == Unit::of(size),
{
    if size > 1_000_000_000 {
        Unit::Giga
    } else if size > 1_000_000 {
        Unit::Mega
    } else if size > 1_000 {
        Unit::Kilo
    } else {
        Unit::Bytes
    }
}

/// `content` between the escape sequence that sets the foreground colour
/// `fg` and the one that resets it.
pub open spec fn fg_text(fg: int, content: Seq<char>) -> Seq<char> {
    seq!['\x1B', '['] + signed_decimal(fg) + seq!['m'] + content + seq!['\x1B', '[', '0', 'm']
}

/// `content` between the escape sequence for bold and the one that resets
/// it.
pub open spec fn bold_text(content: Seq<char>) -> Seq<char> {
    seq!['\x1B', '[', '1', 'm'] + content + seq!['\x1B', '[', '0', 'm']
}

/// `content` in the colour `fg` where `colors` is set, and as it is
/// otherwise.
pub open spec fn coloured(content: Seq<char>, colors: bool, fg: int) -> Seq<char> {
    if colors {
        fg_text(fg, content)
    } else {
        content
    }
}

/// `content` in bold where `colors` is set, and as it is otherwise.
pub open spec fn emboldened(content: Seq<char>, colors: bool) -> Seq<char> {
    if colors {
        bold_text(content)
    } else {
        content
    }
}

/// The text of `size`. In plain form it is the decimal numeral. In scaled
/// form, a size of more than a thousand is written as `scaled`, its value in
/// its unit, followed by the unit's letter; every size has its unit's
/// colour, and gigabytes are bold as well.
pub open spec fn size_text(size: u64, human: bool, colors: bool, scaled: Seq<char>) -> Seq<char> {
    let unit = Unit::of(size);
    if !human {
        decimal(size as nat)
    } else if unit == Unit::Bytes {
        coloured(decimal(size as nat), colors, unit.colour() as int)
    } else if unit == Unit::Giga {
        emboldened(coloured(scaled + unit.suffix(), colors, unit.colour() as int), colors)
    } else {
        coloured(scaled + unit.suffix(), colors, unit.colour() as int)
    }
}

/// Wraps `content` in the escape sequences for the foreground colour `fg`.
pub fn ansi_fg(fg: i32, content: String) -> (s: String)
    ensures
        s@ == fg_text(fg as int, content@),
{
    proof {
        reveal_strlit("\x1B[");
        reveal_strlit("m");
        reveal_strlit("\x1B[0m");
    }
    let mut s = String::from_str("\x1B[");
    assert(s@ =~= seq!['\x1B', '[']);
    let code = to_signed_decimal(fg);
    s.append(code.as_str());
    s.append("m");
    assert("m"@ =~= seq!['m']);
    s.append(content.as_str());
    s.append("\x1B[0m");
    assert("\x1B[0m"@ =~= seq!['\x1B', '[', '0', 'm']);
    s
}

/// Wraps `content` in the escape sequences for bold.
pub fn ansi_bold(content: String) -> (s: String)
    ensures
        s@ == bold_text(content@),
{
    proof {
        reveal_strlit("\x1B[1m");
        reveal_strlit("\x1B[0m");
    }
    let mut s = String::from_str("\x1B[1m");
    assert(s@ =~= seq!['\x1B', '[', '1', 'm']);
    s.append(content.as_str());
    s.append("\x1B[0m");
    assert("\x1B[0m"@ =~= seq!['\x1B', '[', '0', 'm']);
    s
}

/// `content` in the colour `fg` where `colors` is set.
pub fn color(content: String, colors: bool, fg: i32) -> (s: String)
    ensures
        s@ == coloured(content@, colors, fg as int),
{
    if colors {
        ansi_fg(fg, content)
    } else {
        content
    }
}

/// `content` in bold where `colors` is set.
pub fn format(content: String, colors: bool) -> (s: String)
    ensures
        s@ == emboldened(content@, colors),
{
    if colors {
        ansi_bold(content)
    } else {
        content
    }
}

/// Writes `size` for a report. `scaled` is the size in its unit, as it is to
/// appear before the unit's letter; it is used for a size of more than a
/// thousand in scaled form.
pub fn fmt(size: u64, human: bool, colors: bool, scaled: &str) -> (s: String)
    ensures
        s@ == size_text(size, human, colors, scaled@),
{
    proof {
        reveal_strlit("G");
        reveal_strlit("M");
        reveal_strlit("K");
    }
    if !human {
        to_decimal(size)
    } else {
        match unit_of(size) {
            Unit::Giga => {
                assert("G"@ =~= seq!['G']);
                format(color(String::from_str(scaled).concat("G"), colors, HIGHLIGHT_4), colors)
            },
            Unit::Mega => {
                assert("M"@ =~= seq!['M']);
                color(String::from_str(scaled).concat("M"), colors, HIGHLIGHT_4)
            },
            Unit::Kilo => {
                assert("K"@ =~= seq!['K']);
                color(String::from_str(scaled).concat("K"), colors, HIGHLIGHT_2)
            },
            Unit::Bytes => color(to_decimal(size), colors, HIGHLIGHT_1),
        }
    }
}

/// What a report shows: the root's own size, the sum of all sizes, whether
/// only the large entries are shown, and the entries shown, largest first.
#[derive(Clone, Debug)]
pub struct Report {
    pub root_size: u64,
    pub full_size: u64,
    pub summary: bool,
    pub rows: Vec<(String, u64)>,
}

/// Whether a report shows only the large entries.
pub open spec fn is_summary(options: FormatOptions) -> bool {
    !options.nosummary && !options.zeroes
}

/// Whether an entry of size `size` is shown, the sum of all sizes being
/// `full_size`. A summary shows an entry of at least a hundredth of the sum.
/// An empty entry is shown only where empty entries are asked for.
pub open spec fn shown(size: u64, full_size: u64, options: FormatOptions) -> bool {
    (!is_summary(options) || size * 100 >= full_size) && (options.zeroes || size > 0)
}

/// The entries of `m` that are shown.
pub open spec fn shown_part(m: Map<Seq<char>, u64>, full_size: u64, options: FormatOptions) -> Map<
    Seq<char>,
    u64,
> {
    Map::new(|k: Seq<char>| m.contains_key(k) && shown(m[k], full_size, options), |k: Seq<char>| m[k])
}

/// Whether the sizes of `rows` never rise.
pub open spec fn sizes_descend(rows: Seq<(String, u64)>) -> bool {
    forall|i: int, j: int| 0 <= i < j < rows.len() ==> rows[i].1 >= rows[j].1
}

/// Whether an entry of size `size` is shown.
pub fn is_shown(size: u64, full_size: u64, options: FormatOptions) -> (b: bool)
    ensures
        b == shown(size, full_size, options),
{
    let summary = !options.nosummary && !options.zeroes;
    let large = size as u128 * 100 >= full_size as u128;
    (!summary || large) && (options.zeroes || size > 0)
}

/// Draws up the report on `results` for the root `dir`, under which a size
/// is recorded.
///
/// There is a report where the sum of all sizes fits in 64 bits, and none
/// otherwise. Its rows are the entries shown, each once, ordered by size from
/// the largest down.
pub fn report(dir: &str, results: &ResultMap, options: FormatOptions) -> (out: Option<Report>)
    requires
        results.wf(),
        results@.contains_key(dir@),
    ensures
        out is Some <==> total(results@) <= u64::MAX,
        out matches Some(r) ==> {
            &&& r.root_size == results@[dir@]
            &&& r.full_size == total(results@)
            &&& r.summary == is_summary(options)
            &&& lists(row_views(r.rows@), shown_part(results@, r.full_size, options))
            &&& sizes_descend(r.rows@)
        },
{
    let root_size = match results.get(dir) {
        Some(size) => size,
        None => unreached(),
    };
    let full_size = match results.total() {
        Some(sum) => sum,
        None => {
            return None;
        },
    };
    let entries = results.entries();
    let ghost listed = row_views(entries@);
    let mut picked: Vec<(u64, usize)> = Vec::new();
    let mut i: usize = 0;
    while i < entries.len()
        invariant
            0 <= i <= entries.len(),
            forall|k: int|
                0 <= k < picked@.len() ==> (#[trigger] picked@[k]).1 < i && picked@[k].0
                    == entries@[picked@[k].1 as int].1 && shown(picked@[k].0, full_size, options),
            forall|a: int, b: int| 0 <= a < b < picked@.len() ==> picked@[a].1 < picked@[b].1,
            forall|n: int|
                0 <= n < i && shown((#[trigger] entries@[n]).1, full_size, options)
                    ==> picked@.contains((entries@[n].1, n as usize)),
        decreases entries.len() - i,
    {
        let size = entries[i].1;
        if is_shown(size, full_size, options) {
            let ghost before = picked@;
            picked.push((size, i));
            assert(picked@[picked@.len() - 1] == (size, i));
            assert forall|n: int|
                0 <= n < i + 1 && shown((#[trigger] entries@[n]).1, full_size, options)
                implies picked@.contains((entries@[n].1, n as usize)) by {
                if n < i {
                    let k = choose|k: int|
                        0 <= k < before.len() && before[k] == (entries@[n].1, n as usize);
                    assert(picked@[k] == (entries@[n].1, n as usize));
                }
            }
        }
        i += 1;
    }
    let sorted = sort_descending(&picked);
    proof {
        broadcast use vstd::seq_lib::group_to_multiset_ensures;

        assert(picked@.no_duplicates());
        picked@.lemma_multiset_has_no_duplicates();
        sorted@.lemma_multiset_has_no_duplicates_conv();
        assert forall|k: int| 0 <= k < sorted@.len() implies picked@.contains(
            #[trigger] sorted@[k],
        ) by {
            sorted@.to_multiset_ensures();
            picked@.to_multiset_ensures();
            assert(sorted@.contains(sorted@[k]));
            assert(sorted@.to_multiset().count(sorted@[k]) > 0);
            assert(picked@.to_multiset().count(sorted@[k]) > 0);
        }
    }
    let mut rows: Vec<(String, u64)> = Vec::new();
    let mut k: usize = 0;
    while k < sorted.len()
        invariant
            0 <= k <= sorted.len(),
            rows@.len() == k,
            forall|n: int| 0 <= n < sorted@.len() ==> picked@.contains(#[trigger] sorted@[n]),
            forall|n: int|
                0 <= n < picked@.len() ==> (#[trigger] picked@[n]).1 < entries@.len() && picked@[n].0
                    == entries@[picked@[n].1 as int].1,
            forall|n: int|
                0 <= n < k ==> (#[trigger] rows@[n]).0@ == entries@[sorted@[n].1 as int].0@
                    && rows@[n].1 == sorted@[n].0,
        decreases sorted.len() - k,
    {
        let (size, index) = sorted[k];
        proof {
            assert(picked@.contains(sorted@[k as int]));
            let n = choose|n: int| 0 <= n < picked@.len() && picked@[n] == sorted@[k as int];
            assert(picked@[n].1 < entries@.len());
        }
        rows.push((entries[index].0.clone(), size));
        k += 1;
    }
    proof {
        broadcast use vstd::seq_lib::group_to_multiset_ensures;

        let shown_rows = row_views(rows@);
        let wanted = shown_part(results@, full_size, options);
        // Every row is an entry that is shown.
        assert forall|n: int| 0 <= n < shown_rows.len() implies wanted.contains_pair(
            #[trigger] shown_rows[n].0,
            shown_rows[n].1,
        ) by {
            assert(picked@.contains(sorted@[n]));
            let m = choose|m: int| 0 <= m < picked@.len() && picked@[m] == sorted@[n];
            let at = picked@[m].1 as int;
            assert(listed[at].0 == shown_rows[n].0);
            assert(results@.contains_pair(listed[at].0, listed[at].1));
        }
        // No path stands in two rows.
        assert forall|a: int, b: int| 0 <= a < b < shown_rows.len() implies shown_rows[a].0
            != shown_rows[b].0 by {
            assert(picked@.contains(sorted@[a]));
            assert(picked@.contains(sorted@[b]));
            let ma = choose|m: int| 0 <= m < picked@.len() && picked@[m] == sorted@[a];
            let mb = choose|m: int| 0 <= m < picked@.len() && picked@[m] == sorted@[b];
            let ia = picked@[ma].1 as int;
            let ib = picked@[mb].1 as int;
            assert(listed[ia].0 == shown_rows[a].0);
            assert(listed[ib].0 == shown_rows[b].0);
            if shown_rows[a].0 == shown_rows[b].0 {
                assert(ia == ib);
                assert(sorted@[a] == sorted@[b]);
            }
        }
        // Every entry that is shown has its row.
        assert forall|key: Seq<char>| #[trigger] wanted.contains_key(key) implies exists|n: int|
            0 <= n < shown_rows.len() && #[trigger] shown_rows[n].0 == key by {
            assert(results@.contains_key(key));
            let at = choose|at: int| 0 <= at < listed.len() && #[trigger] listed[at].0 == key;
            assert(results@.contains_pair(listed[at].0, listed[at].1));
            assert(shown(entries@[at].1, full_size, options));
            let item = (entries@[at].1, at as usize);
            assert(picked@.contains(item));
            sorted@.to_multiset_ensures();
            picked@.to_multiset_ensures();
            assert(picked@.to_multiset().count(item) > 0);
            assert(sorted@.to_multiset().count(item) > 0);
            assert(sorted@.contains(item));
            let n = choose|n: int| 0 <= n < sorted@.len() && sorted@[n] == item;
            assert(shown_rows[n].0 == key);
        }
        assert forall|a: int, b: int| 0 <= a < b < rows@.len() implies rows@[a].1
            >= rows@[b].1 by {
            assert(sorted@[a].0 >= sorted@[b].0);
        }
    }
    Some(Report { root_size, full_size, summary: !options.nosummary && !options.zeroes, rows })
}

} // verus!
