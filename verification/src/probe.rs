//! What the display makes of the raw answers that the system gives: the
//! output of the commands it runs, the files it reads and the counters it
//! queries.

use vstd::prelude::*;
use vstd::utf8::{char_is_scalar, encode_scalar, encode_utf8};
use crate::text::{has_comma_space, lemma_replace_concat, decimal, push_decimal, replace_all, replace_char, trim, trimmed};

verus! {

/// Days, hours and minutes of an uptime, from the uptime in seconds rounded
/// to the nearest second (`rounded`) and cut to whole seconds (`whole`):
/// the hours come from the rounded value, the minutes from what the whole
/// value leaves over the full hours.
pub open spec fn uptime_parts(rounded: nat, whole: nat) -> (nat, nat, nat) {
    let hours = rounded / 3600;
    let minutes = ((whole - hours * 3600) / 60) as nat;
    (hours / 24, hours % 24, minutes)
}

/// The text that describes an uptime.
pub open spec fn uptime_text(rounded: nat, whole: nat) -> Seq<char> {
    let (days, hours, minutes) = uptime_parts(rounded, whole);
    if days > 0 {
        decimal(days) + " days, "@ + decimal(hours) + " hours, "@ + decimal(minutes) + " min"@
    } else if hours > 0 {
        decimal(hours) + " hours, "@ + decimal(minutes) + " mins"@
    } else {
        decimal(minutes) + " min"@
    }
}

/// Whether the whole seconds reach the full hours of the rounded seconds;
/// where they do not, the minutes cannot be counted.
pub open spec fn uptime_in_range(rounded: nat, whole: nat) -> bool {
    (rounded / 3600) * 3600 <= whole
}

/// Whether `format_uptime` can describe these seconds.
pub fn uptime_fits(rounded_secs: u32, whole_secs: u32) -> (b: bool)
    ensures
        b == uptime_in_range(rounded_secs as nat, whole_secs as nat),
{
    (rounded_secs / 3600) * 3600 <= whole_secs
}

/// The text that describes an uptime: days, hours and minutes where there
/// are days, hours and minutes where there are hours, minutes otherwise.
pub fn format_uptime(rounded_secs: u32, whole_secs: u32) -> (out: String)
    requires
        uptime_in_range(rounded_secs as nat, whole_secs as nat),
    ensures
        out@ == uptime_text(rounded_secs as nat, whole_secs as nat),
{
    let hours_total = rounded_secs / 3600;
    let rem = whole_secs - hours_total * 3600;
    let minutes = rem / 60;
    let days = hours_total / 24;
    let hours = hours_total - days * 24;
    assert(hours == hours_total % 24);
    let mut out = String::new();
    if days > 0 {
        push_decimal(&mut out, days as u64);
        out.append(" days, ");
        push_decimal(&mut out, hours as u64);
        out.append(" hours, ");
        push_decimal(&mut out, minutes as u64);
        out.append(" min");
    } else if hours > 0 {
        push_decimal(&mut out, hours as u64);
        out.append(" hours, ");
        push_decimal(&mut out, minutes as u64);
        out.append(" mins");
    } else {
        push_decimal(&mut out, minutes as u64);
        out.append(" min");
    }
    out
}

/// The lines of `raw` joined by `", "`: each line break becomes `", "`.
pub open spec fn joined_lines(raw: Seq<char>) -> Seq<char> {
    replace_char(raw, '\n', ", "@)
}

/// The number of bytes that the UTF-8 encoding of `c` takes.
pub open spec fn utf8_width(c: char) -> nat {
    if (c as u32) < 0x80 {
        1
    } else if (c as u32) < 0x800 {
        2
    } else if (c as u32) < 0x10000 {
        3
    } else {
        4
    }
}

/// Whether the last two bytes of the UTF-8 encoding of `s` end where a
/// character ends: they are the whole of the last character, which takes two
/// bytes, or the whole of each of the last two characters, which take one.
pub open spec fn ends_in_two_bytes(s: Seq<char>) -> bool {
    ||| (s.len() >= 1 && utf8_width(s.last()) == 2)
    ||| (s.len() >= 2 && utf8_width(s.last()) == 1 && utf8_width(s[s.len() - 2]) == 1)
}

/// `s` without the characters of the last two bytes of its UTF-8 encoding.
pub open spec fn drop_two_bytes(s: Seq<char>) -> Seq<char> {
    if utf8_width(s.last()) == 2 {
        s.drop_last()
    } else {
        s.drop_last().drop_last()
    }
}

/// Whether `gpu_list` can list the graphics adapters named in `raw`: the
/// last two bytes of the joined lines end at a character boundary.
pub open spec fn gpu_text_ok(raw: Seq<char>) -> bool {
    ends_in_two_bytes(joined_lines(raw))
}

fn width_is_one(c: char) -> (b: bool)
    ensures
        b == (utf8_width(c) == 1),
{
    c < '\u{80}'
}

fn width_is_two(c: char) -> (b: bool)
    ensures
        b == (utf8_width(c) == 2),
{
    '\u{80}' <= c && c < '\u{800}'
}

/// Whether `gpu_list` can list the graphics adapters named in `raw`.
pub fn can_list_gpus(raw: &str) -> (b: bool)
    ensures
        b == gpu_text_ok(raw@),
{
    let joined = replace_all(raw, '\n', ", ");
    let n = joined.as_str().unicode_len();
    if n >= 1 && width_is_two(joined.as_str().get_char(n - 1)) {
        return true;
    }
    n >= 2 && width_is_one(joined.as_str().get_char(n - 1)) && width_is_one(
        joined.as_str().get_char(n - 2),
    )
}

/// The graphics adapters named one per line in `raw`, as one line in which
/// a comma and a space separate them: the line breaks become `", "`, and the
/// last two bytes, the separator after the last name, are cut off.
pub fn gpu_list(raw: &str) -> (out: String)
    requires
        gpu_text_ok(raw@),
    ensures
        out@ == drop_two_bytes(joined_lines(raw@)),
{
    let joined = replace_all(raw, '\n', ", ");
    let s = joined.as_str();
    let n = s.unicode_len();
    let keep = if width_is_two(s.get_char(n - 1)) {
        n - 1
    } else {
        n - 2
    };
    let head = s.substring_char(0, keep);
    assert(head@ =~= drop_two_bytes(joined_lines(raw@)));
    String::from_str(head)
}

/// The model of the machine: its product name followed by its version, each
/// line break made a space.
pub fn model_name(product_name: &str, product_version: &str) -> (out: String)
    ensures
        out@ == replace_char(product_name@ + product_version@, '\n', " "@),
{
    let mut both = String::from_str(product_name);
    both.append(product_version);
    replace_all(both.as_str(), '\n', " ")
}

/// The user names listed one per line in `raw`, trimmed, and joined by
/// `", "`.
pub fn user_names(raw: &str) -> (out: String)
    ensures
        out@ == replace_char(trimmed(raw@), '\n', ", "@),
{
    let t = trim(raw);
    replace_all(t.as_str(), '\n', ", ")
}

/// The package count of each package manager, each written as
/// `name (count) `.
pub open spec fn packages_text(counts: Seq<(Seq<char>, nat)>) -> Seq<char>
    decreases counts.len(),
{
    if counts.len() == 0 {
        seq![]
    } else {
        packages_text(counts.drop_last()) + counts.last().0 + " ("@ + decimal(counts.last().1)
            + ") "@
    }
}

/// Each package manager's name by its view, with its count.
pub open spec fn count_views(counts: Seq<(String, u64)>) -> Seq<(Seq<char>, nat)> {
    counts.map_values(|p: (String, u64)| (p.0@, p.1 as nat))
}

/// The package counts of all package managers, as one line.
pub fn package_summary(counts: &Vec<(String, u64)>) -> (out: String)
    ensures
        out@ == packages_text(count_views(counts@)),
{
    let mut out = String::new();
    let mut i: usize = 0;
    while i < counts.len()
        invariant
            i <= counts.len(),
            out@ == packages_text(count_views(counts@).take(i as int)),
        decreases counts.len() - i,
    {
        let ghost before = out@;
        out.append(counts[i].0.as_str());
        out.append(" (");
        push_decimal(&mut out, counts[i].1);
        out.append(") ");
        assert(count_views(counts@).take(i + 1).drop_last() =~= count_views(counts@).take(
            i as int,
        ));
        i = i + 1;
    }
    assert(count_views(counts@).take(counts.len() as int) =~= count_views(counts@));
    out
}

/// Whether the memory figures can be subtracted: the available mebibytes do
/// not exceed the total ones.
pub fn memory_fits(total_kib: u64, available_kib: u64) -> (b: bool)
    ensures
        b == (available_kib / 1024 <= total_kib / 1024),
{
    available_kib / 1024 <= total_kib / 1024
}

/// The memory in use, in mebibytes: the total less the available memory,
/// each counted in whole mebibytes.
pub fn memory_used_mib(total_kib: u64, available_kib: u64) -> (used: u64)
    requires
        available_kib / 1024 <= total_kib / 1024,
    ensures
        used == total_kib / 1024 - available_kib / 1024,
{
    total_kib / 1024 - available_kib / 1024
}

/// Where the rounded uptime is the whole seconds or one second more, the
/// days, hours and minutes described are the whole seconds to the minute:
/// fewer than 24 hours, fewer than 60 minutes, and less than a minute
/// between their sum and the whole seconds.
pub proof fn lemma_uptime_parts(rounded: nat, whole: nat)
    requires
        whole <= rounded <= whole + 1,
        uptime_in_range(rounded, whole),
    ensures
        ({
            let (d, h, m) = uptime_parts(rounded, whole);
            &&& h < 24
            &&& m < 60
            &&& d * 86400 + h * 3600 + m * 60 <= whole
            &&& whole < d * 86400 + h * 3600 + m * 60 + 60
        }),
{
    let hours = rounded / 3600;
    let rem = whole - hours * 3600;
    let m = rem / 60;
    let d = hours / 24;
    let h = hours % 24;
    assert(hours * 3600 <= rounded < hours * 3600 + 3600);
    assert(0 <= rem < 3600);
    assert(m * 60 <= rem < m * 60 + 60);
    assert(d * 24 + h == hours);
    assert(d * 86400 + h * 3600 == hours * 3600);
}

proof fn lemma_encode_concat(a: Seq<char>, b: Seq<char>)
    ensures
        encode_utf8(a + b) == encode_utf8(a) + encode_utf8(b),
    decreases a.len(),
{
    if a.len() == 0 {
        assert(a + b =~= b);
        assert(encode_utf8(a) + encode_utf8(b) =~= encode_utf8(b));
    } else {
        assert((a + b)[0] == a[0]);
        assert((a + b).drop_first() =~= a.drop_first() + b);
        lemma_encode_concat(a.drop_first(), b);
        assert(encode_utf8(a + b) =~= encode_utf8(a) + encode_utf8(b));
    }
}

proof fn lemma_encode_width(c: char)
    ensures
        encode_scalar(c as u32).len() == utf8_width(c),
{
    char_is_scalar(c);
}

proof fn lemma_encode_one(c: char)
    ensures
        encode_utf8(seq![c]) == encode_scalar(c as u32),
{
    assert(seq![c].drop_first() =~= Seq::<char>::empty());
    assert(seq![c][0] == c);
    assert(encode_utf8(Seq::<char>::empty()) =~= Seq::<u8>::empty());
    assert(encode_scalar(c as u32) + Seq::<u8>::empty() =~= encode_scalar(c as u32));
}

/// Where the last two bytes of the UTF-8 encoding of `s` end at a character
/// boundary, `drop_two_bytes` takes off exactly those two bytes.
pub proof fn lemma_drop_two_bytes(s: Seq<char>)
    requires
        ends_in_two_bytes(s),
    ensures
        encode_utf8(drop_two_bytes(s)) == encode_utf8(s).subrange(0, encode_utf8(s).len() - 2),
{
    let front = s.drop_last();
    assert(front + seq![s.last()] =~= s);
    lemma_encode_concat(front, seq![s.last()]);
    lemma_encode_one(s.last());
    lemma_encode_width(s.last());
    if utf8_width(s.last()) == 2 {
        assert(encode_utf8(front) =~= encode_utf8(s).subrange(0, encode_utf8(s).len() - 2));
    } else {
        let front2 = front.drop_last();
        assert(front.last() == s[s.len() - 2]);
        assert(front2 + seq![front.last()] =~= front);
        lemma_encode_concat(front2, seq![front.last()]);
        lemma_encode_one(front.last());
        lemma_encode_width(front.last());
        assert(encode_utf8(front2) =~= encode_utf8(s).subrange(0, encode_utf8(s).len() - 2));
    }
}

/// The lines of `s`, where each line break ends one line and starts the
/// next: text without a line break is a single line.
pub open spec fn split_lines(s: Seq<char>) -> Seq<Seq<char>>
    decreases s.len(),
{
    if s.len() == 0 {
        seq![seq![]]
    } else if s[0] == '\n' {
        seq![seq![]] + split_lines(s.skip(1))
    } else {
        let r = split_lines(s.skip(1));
        r.update(0, seq![s[0]] + r[0])
    }
}

/// The lines of text that ends with a line break, as `str::lines` gives them
/// where the text holds no carriage return.
pub open spec fn lines_of(raw: Seq<char>) -> Seq<Seq<char>> {
    split_lines(raw.drop_last())
}

/// The pieces of `s` between the occurrences of `", "`, taken from the left,
/// as `str::split(", ")` gives them.
pub open spec fn split_list(s: Seq<char>) -> Seq<Seq<char>>
    decreases s.len(),
{
    if s.len() == 0 {
        seq![seq![]]
    } else if s.len() >= 2 && s[0] == ',' && s[1] == ' ' {
        seq![seq![]] + split_list(s.skip(2))
    } else {
        let r = split_list(s.skip(1));
        r.update(0, seq![s[0]] + r[0])
    }
}

proof fn lemma_no_comma_space_tail(x: Seq<char>)
    requires
        x.len() > 0,
        !has_comma_space(x),
    ensures
        !has_comma_space(x.skip(1)),
{
    let y = x.skip(1);
    if has_comma_space(y) {
        let i = choose|i: int| 0 <= i && i + 1 < y.len() && y[i] == ',' && #[trigger] y[i + 1] == ' ';
        assert(x[i + 1] == ',' && x[i + 2] == ' ');
        assert(has_comma_space(x));
    }
}

proof fn lemma_split_joined(x: Seq<char>)
    requires
        !has_comma_space(x),
    ensures
        split_list(replace_char(x, '\n', ", "@)) == split_lines(x),
    decreases x.len(),
{
    reveal_strlit(", ");
    if x.len() == 0 {
        assert(replace_char(x, '\n', ", "@) =~= Seq::<char>::empty());
    } else {
        let c = x[0];
        let y = x.skip(1);
        assert(x =~= seq![c] + y);
        lemma_replace_concat(seq![c], y, '\n', ", "@);
        assert(seq![c].drop_last() =~= Seq::<char>::empty());
        assert(seq![c].last() == c);
        assert(replace_char(Seq::<char>::empty(), '\n', ", "@) =~= Seq::<char>::empty());
        let piece = if c == '\n' {
            ", "@
        } else {
            seq![c]
        };
        assert(replace_char(seq![c], '\n', ", "@) =~= piece);
        let ry = replace_char(y, '\n', ", "@);
        let joined = replace_char(x, '\n', ", "@);
        assert(joined == piece + ry);
        lemma_no_comma_space_tail(x);
        lemma_split_joined(y);
        if c == '\n' {
            assert(joined.skip(2) =~= ry);
        } else {
            if c == ',' && ry.len() > 0 {
                let z = y.skip(1);
                assert(y =~= seq![y[0]] + z);
                lemma_replace_concat(seq![y[0]], z, '\n', ", "@);
                assert(seq![y[0]].drop_last() =~= Seq::<char>::empty());
                assert(seq![y[0]].last() == y[0]);
                if y[0] == '\n' {
                    assert(ry[0] == ',');
                } else {
                    assert(ry[0] == y[0]);
                    assert(x[0] == ',' && x[1] == y[0]);
                    if y[0] == ' ' {
                        assert(has_comma_space(x));
                    }
                }
            }
            assert(joined.skip(1) =~= ry);
        }
    }
}

/// Where the adapters are listed one per line, each line ended by a line
/// break, and no name holds `", "`, the list can be made, and splitting it at
/// `", "` gives back the lines.
pub proof fn lemma_gpu_list_splits(raw: Seq<char>)
    requires
        raw.len() > 0,
        raw.last() == '\n',
        !has_comma_space(raw),
    ensures
        gpu_text_ok(raw),
        split_list(drop_two_bytes(joined_lines(raw))) == lines_of(raw),
{
    reveal_strlit(", ");
    let x = raw.drop_last();
    let jx = replace_char(x, '\n', ", "@);
    let j = joined_lines(raw);
    assert(j == jx + ", "@);
    assert(j.last() == ' ' && j[j.len() - 2] == ',');
    assert(drop_two_bytes(j) =~= jx);
    assert(!has_comma_space(x)) by {
        if has_comma_space(x) {
            let i = choose|i: int| 0 <= i && i + 1 < x.len() && x[i] == ',' && #[trigger] x[i + 1] == ' ';
            assert(raw[i] == ',' && raw[i + 1] == ' ');
            assert(has_comma_space(raw));
        }
    }
    lemma_split_joined(x);
}

/// The uptime text writes the days, hours and minutes of the uptime, each
/// before its word: days, hours and minutes where there is a day, hours and
/// minutes where there is an hour, minutes alone otherwise. Any days `d`,
/// hours `h < 24` and minutes `m < 60` that make up the whole seconds to the
/// minute are the ones written.
pub proof fn lemma_uptime_text(rounded: nat, whole: nat, d: nat, h: nat, m: nat)
    requires
        whole <= rounded <= whole + 1,
        uptime_in_range(rounded, whole),
        h < 24,
        m < 60,
        d * 86400 + h * 3600 + m * 60 <= whole < d * 86400 + h * 3600 + m * 60 + 60,
    ensures
        d > 0 ==> uptime_text(rounded, whole) == decimal(d) + " days, "@ + decimal(h)
            + " hours, "@ + decimal(m) + " min"@,
        d == 0 && h > 0 ==> uptime_text(rounded, whole) == decimal(h) + " hours, "@ + decimal(m)
            + " mins"@,
        d == 0 && h == 0 ==> uptime_text(rounded, whole) == decimal(m) + " min"@,
{
    lemma_uptime_parts(rounded, whole);
    let (d2, h2, m2) = uptime_parts(rounded, whole);
    let x = d * 1440 + h * 60 + m;
    let x2 = d2 * 1440 + h2 * 60 + m2;
    assert(x * 60 <= whole < x * 60 + 60);
    assert(x2 * 60 <= whole < x2 * 60 + 60);
    assert(x == x2) by (nonlinear_arith)
        requires
            x * 60 <= whole < x * 60 + 60,
            x2 * 60 <= whole < x2 * 60 + 60,
    ;
    assert(d == d2 && h == h2 && m == m2) by (nonlinear_arith)
        requires
            d * 1440 + h * 60 + m == d2 * 1440 + h2 * 60 + m2,
            h < 24,
            m < 60,
            h2 < 24,
            m2 < 60,
    ;
}

/// Listing package managers one after another lists each of them in turn.
pub proof fn lemma_packages_concat(a: Seq<(Seq<char>, nat)>, b: Seq<(Seq<char>, nat)>)
    ensures
        packages_text(a + b) == packages_text(a) + packages_text(b),
    decreases b.len(),
{
    if b.len() == 0 {
        assert(a + b =~= a);
        assert(packages_text(b) =~= Seq::<char>::empty());
        assert(packages_text(a) + packages_text(b) =~= packages_text(a));
    } else {
        assert((a + b).drop_last() =~= a + b.drop_last());
        assert((a + b).last() == b.last());
        lemma_packages_concat(a, b.drop_last());
        assert(packages_text(a + b) =~= packages_text(a) + packages_text(b));
    }
}

/// A single package manager is written as its name, then its count in
/// brackets, then a space.
pub proof fn lemma_packages_one(name: Seq<char>, count: nat)
    ensures
        packages_text(seq![(name, count)]) == name + " ("@ + decimal(count) + ") "@,
{
    let s = seq![(name, count)];
    assert(s.drop_last() =~= Seq::<(Seq<char>, nat)>::empty());
    assert(s.last() == (name, count));
    assert(packages_text(Seq::<(Seq<char>, nat)>::empty()) =~= Seq::<char>::empty());
    assert(Seq::<char>::empty() + name =~= name);
}

/// Text holds `", "` exactly when splitting it at `", "` gives more than one
/// piece; it always gives at least one.
pub proof fn lemma_more_than_one_piece(s: Seq<char>)
    ensures
        split_list(s).len() >= 1,
        has_comma_space(s) <==> split_list(s).len() > 1,
    decreases s.len(),
{
    if s.len() == 0 {
    } else if s.len() >= 2 && s[0] == ',' && s[1] == ' ' {
        lemma_more_than_one_piece(s.skip(2));
        assert(has_comma_space(s)) by {
            assert(s[0] == ',' && s[0int + 1] == ' ');
        }
    } else {
        let u = s.skip(1);
        lemma_more_than_one_piece(u);
        if has_comma_space(s) {
            let i = choose|i: int| 0 <= i && i + 1 < s.len() && s[i] == ',' && #[trigger] s[i + 1] == ' ';
            assert(i > 0);
            assert(u[i - 1] == ',' && u[(i - 1) + 1] == ' ');
        }
        if has_comma_space(u) {
            let i = choose|i: int| 0 <= i && i + 1 < u.len() && u[i] == ',' && #[trigger] u[i + 1] == ' ';
            assert(s[i + 1] == ',' && s[(i + 1) + 1] == ' ');
        }
    }
}

} // verus!
