//! The lines of the report shown beside the ASCII art, and the way they are
//! laid out along the art.

use vstd::prelude::*;
use crate::markup::item_views;
use crate::probe::{lemma_more_than_one_piece, split_list};
use crate::text::{contains_comma_space, decimal, has_comma_space, push_decimal};

verus! {

/// What `titlecase::titlecase` makes of `text`.
pub uninterp spec fn title_case(text: Seq<char>) -> Seq<char>;

/// Calls `titlecase::titlecase`, which trims `text` and capitalises its words
/// after John Gruber's rules for titles. The contract claims only that the
/// result depends on the characters of `text` alone: it is `title_case`.
#[verifier::external_body]
fn titlecase_of(text: &str) -> (out: String)
    ensures
        out@ == title_case(text@),
{
    titlecase::titlecase(text)
}

/// The user name as the report shows it: title-cased.
pub fn display_user(raw: &str) -> (out: String)
    ensures
        out@ == title_case(raw@),
{
    titlecase_of(raw)
}

/// A terminal name with the badge that the report gives the Kitty
/// terminal.
pub open spec fn with_kitty_badge(name: Seq<char>) -> Seq<char> {
    if name == "Kitty"@ {
        name + " \u{1F431}"@
    } else {
        name
    }
}

/// Adds the badge of the Kitty terminal to a title-cased terminal name.
pub fn kitty_badge(name: String) -> (out: String)
    ensures
        out@ == with_kitty_badge(name@),
{
    let kitty = String::from_str("Kitty");
    if name == kitty {
        let mut out = name;
        out.append(" \u{1F431}");
        out
    } else {
        name
    }
}

/// The terminal name as the report shows it: title-cased, with a badge for
/// Kitty.
pub fn display_terminal(raw: &str) -> (out: String)
    ensures
        out@ == with_kitty_badge(title_case(raw@)),
{
    kitty_badge(titlecase_of(raw))
}

/// A rule of `width` em dashes.
pub open spec fn rule(width: nat) -> Seq<char> {
    Seq::new(width, |i: int| '\u{2014}')
}

/// The rule under the title `user @ host`: as many em dashes as the title
/// has characters.
pub fn rule_line(user: &str, host: &str) -> (out: String)
    requires
        user@.len() + host@.len() + 3 <= usize::MAX,
    ensures
        out@ == rule(user@.len() + host@.len() + 3),
{
    let width = user.unicode_len() + host.unicode_len() + 3;
    let mut out = String::new();
    let mut i: usize = 0;
    while i < width
        invariant
            i <= width,
            out@ == rule(i as nat),
        decreases width - i,
    {
        out.push('\u{2014}');
        assert(out@ =~= rule((i + 1) as nat));
        i = i + 1;
    }
    out
}

/// A value the system may not have given, by its view.
pub open spec fn opt_text(value: Option<String>) -> Option<Seq<char>> {
    match value {
        Some(s) => Some(s@),
        None => None,
    }
}

/// The value, where the system gave one that is not empty; the fallback
/// otherwise.
pub open spec fn present_or(value: Option<Seq<char>>, fallback: Seq<char>) -> Seq<char> {
    match value {
        Some(v) => if v.len() > 0 {
            v
        } else {
            fallback
        },
        None => fallback,
    }
}

fn value_or(value: &Option<String>, fallback: &str) -> (out: String)
    ensures
        out@ == present_or(opt_text(*value), fallback@),
{
    match value {
        Some(v) => {
            if v.as_str().unicode_len() > 0 {
                v.clone()
            } else {
                String::from_str(fallback)
            }
        },
        None => String::from_str(fallback),
    }
}

/// A battery reading, charge and state, by its view.
pub open spec fn reading_text(reading: Option<(String, String)>) -> Option<(Seq<char>, Seq<char>)> {
    match reading {
        Some((per, state)) => Some((per@, state@)),
        None => None,
    }
}

/// What the report says of the battery: its charge and, where it is known,
/// its state.
pub open spec fn battery_text(reading: Option<(Seq<char>, Seq<char>)>) -> Seq<char> {
    match reading {
        Some((per, state)) => if per.len() > 0 && state.len() > 0 {
            per + " ["@ + state + "]"@
        } else if per.len() > 0 {
            per
        } else {
            "battery info not found"@
        },
        None => "battery info not found"@,
    }
}

/// What the report says of the battery.
pub fn battery_value(reading: &Option<(String, String)>) -> (out: String)
    ensures
        out@ == battery_text(reading_text(*reading)),
{
    match reading {
        Some((per, state)) => {
            let has_per = per.as_str().unicode_len() > 0;
            let has_state = state.as_str().unicode_len() > 0;
            if has_per && has_state {
                let mut out = per.clone();
                out.append(" [");
                out.append(state.as_str());
                out.append("]");
                out
            } else if has_per {
                per.clone()
            } else {
                String::from_str("battery info not found")
            }
        },
        None => String::from_str("battery info not found"),
    }
}

/// What the report says of the memory: used and total mebibytes, and the
/// share in use.
pub open spec fn memory_text(total_kib: u64, available_kib: u64, percent: Seq<char>) -> Seq<char> {
    decimal((total_kib / 1024 - available_kib / 1024) as nat) + "Mib / "@ + decimal(
        (total_kib / 1024) as nat,
    ) + "Mib ("@ + percent + "%)"@
}

/// Everything the report shows, as the system gave it.
pub struct SystemFacts {
    /// The title-cased user name.
    pub user: String,
    pub host: String,
    pub os: String,
    pub model: Option<String>,
    pub kernel: String,
    pub uptime: String,
    pub packages: Option<String>,
    pub shell: String,
    pub desktop: String,
    pub gtk_theme: String,
    pub gtk_icons: String,
    /// The terminal name as `display_terminal` gives it.
    pub terminal: String,
    pub cpu: String,
    /// The average use of the processor cores in percent, written out.
    pub cpu_usage: String,
    pub gpus: String,
    pub mem_total_kib: u64,
    pub mem_available_kib: u64,
    /// The share of the memory in use in percent, written out.
    pub mem_percent: String,
    pub battery: Option<(String, String)>,
    pub users: Option<String>,
    pub ip: String,
}

/// A line of the report.
pub enum InfoLine {
    /// The user and host names, shown as `user @ host`.
    Title { user: String, host: String },
    /// Text shown as it is.
    Plain { text: String },
    /// A label and its value.
    Field { label: String, value: String },
}

/// A line of the report, by the views of its texts.
pub enum LineView {
    Title(Seq<char>, Seq<char>),
    Plain(Seq<char>),
    Field(Seq<char>, Seq<char>),
}

impl View for InfoLine {
    type V = LineView;

    open spec fn view(&self) -> LineView {
        match self {
            InfoLine::Title { user, host } => LineView::Title(user@, host@),
            InfoLine::Plain { text } => LineView::Plain(text@),
            InfoLine::Field { label, value } => LineView::Field(label@, value@),
        }
    }
}

/// The lines by their views.
pub open spec fn line_views(lines: Seq<InfoLine>) -> Seq<LineView> {
    lines.map_values(|l: InfoLine| l@)
}

/// The lines of the report, in the order in which they are shown.
pub open spec fn report(f: SystemFacts) -> Seq<LineView> {
    seq![
        LineView::Title(f.user@, f.host@),
        LineView::Plain(rule(f.user@.len() + f.host@.len() + 3)),
        LineView::Field("OS:"@, f.os@),
        LineView::Field("Model:"@, present_or(opt_text(f.model), "Model not found"@)),
        LineView::Field("Kernel:"@, f.kernel@),
        LineView::Field("Uptime:"@, f.uptime@),
        LineView::Field("Packages:"@, present_or(opt_text(f.packages), "packages not found"@)),
        if f.shell@.len() > 0 {
            LineView::Field("Defualt Shell:"@, f.shell@)
        } else {
            LineView::Field("Default Shell:"@, "defualt shell not found"@)
        },
        LineView::Field("DE/WM:"@, f.desktop@),
        LineView::Field("GTK Theme:"@, f.gtk_theme@),
        LineView::Field("GTK Icon Theme:"@, f.gtk_icons@),
        LineView::Field("Terminal:"@, f.terminal@),
        LineView::Field("CPU:"@, f.cpu@ + " ("@ + f.cpu_usage@ + "%)"@),
        LineView::Field(
            if has_comma_space(f.gpus@) {
                "GPUs:"@
            } else {
                "GPU:"@
            },
            f.gpus@,
        ),
        LineView::Field(
            "Memory:"@,
            memory_text(f.mem_total_kib, f.mem_available_kib, f.mem_percent@),
        ),
        LineView::Field("Battery:"@, battery_text(reading_text(f.battery))),
        LineView::Field("Users:"@, present_or(opt_text(f.users), "users not found"@)),
        LineView::Field("IP:"@, f.ip@ + " [Local]"@),
        LineView::Plain(""@),
    ]
}

/// Whether the report can be made of these facts: the available memory does
/// not exceed the total, and the title's length can be counted.
pub open spec fn facts_ok(f: SystemFacts) -> bool {
    &&& f.mem_available_kib / 1024 <= f.mem_total_kib / 1024
    &&& f.user@.len() + f.host@.len() + 3 <= usize::MAX
}

fn field(label: &str, value: String) -> (line: InfoLine)
    ensures
        line@ == LineView::Field(label@, value@),
{
    InfoLine::Field { label: String::from_str(label), value }
}

fn suffixed(head: &String, middle: &str, tail: &String, end: &str) -> (out: String)
    ensures
        out@ == head@ + middle@ + tail@ + end@,
{
    let mut out = head.clone();
    out.append(middle);
    out.append(tail.as_str());
    out.append(end);
    out
}

/// The lines of the report.
pub fn info_lines(f: &SystemFacts) -> (lines: Vec<InfoLine>)
    requires
        facts_ok(*f),
    ensures
        line_views(lines@) == report(*f),
{
    let mut lines: Vec<InfoLine> = Vec::new();
    lines.push(InfoLine::Title { user: f.user.clone(), host: f.host.clone() });
    lines.push(InfoLine::Plain { text: rule_line(f.user.as_str(), f.host.as_str()) });
    lines.push(field("OS:", f.os.clone()));
    lines.push(field("Model:", value_or(&f.model, "Model not found")));
    lines.push(field("Kernel:", f.kernel.clone()));
    lines.push(field("Uptime:", f.uptime.clone()));
    lines.push(field("Packages:", value_or(&f.packages, "packages not found")));
    if f.shell.as_str().unicode_len() > 0 {
        lines.push(field("Defualt Shell:", f.shell.clone()));
    } else {
        lines.push(field("Default Shell:", String::from_str("defualt shell not found")));
    }
    lines.push(field("DE/WM:", f.desktop.clone()));
    lines.push(field("GTK Theme:", f.gtk_theme.clone()));
    lines.push(field("GTK Icon Theme:", f.gtk_icons.clone()));
    lines.push(field("Terminal:", f.terminal.clone()));
    let empty = String::new();
    let usage = suffixed(&f.cpu, " (", &f.cpu_usage, "%)");
    lines.push(field("CPU:", usage));
    if contains_comma_space(f.gpus.as_str()) {
        lines.push(field("GPUs:", f.gpus.clone()));
    } else {
        lines.push(field("GPU:", f.gpus.clone()));
    }
    let total_mib = f.mem_total_kib / 1024;
    let used_mib = total_mib - f.mem_available_kib / 1024;
    let mut memory = String::new();
    push_decimal(&mut memory, used_mib);
    memory.append("Mib / ");
    push_decimal(&mut memory, total_mib);
    let memory = suffixed(&memory, "Mib (", &f.mem_percent, "%)");
    lines.push(field("Memory:", memory));
    lines.push(field("Battery:", battery_value(&f.battery)));
    lines.push(field("Users:", value_or(&f.users, "users not found")));
    let ip = suffixed(&f.ip, " [Local]", &empty, "");
    lines.push(field("IP:", ip));
    lines.push(InfoLine::Plain { text: String::new() });
    proof {
        reveal_strlit("");
        assert(empty@ + ""@ =~= Seq::<char>::empty());
        assert(""@ =~= Seq::<char>::empty());
    }
    assert(line_views(lines@) =~= report(*f));
    lines
}

/// A piece of the display: a coloured character of the art, or, in place of
/// a line break of the art, a line of the report.
pub enum ArtPiece {
    Glyph { ch: char, color: String },
    Info { line: usize },
}

/// A piece of the display, by the view of its colour.
pub enum PieceView {
    Glyph(char, Seq<char>),
    Info(nat),
}

impl View for ArtPiece {
    type V = PieceView;

    open spec fn view(&self) -> PieceView {
        match self {
            ArtPiece::Glyph { ch, color } => PieceView::Glyph(*ch, color@),
            ArtPiece::Info { line } => PieceView::Info(*line as nat),
        }
    }
}

/// The pieces by their views.
pub open spec fn piece_views(pieces: Seq<ArtPiece>) -> Seq<PieceView> {
    pieces.map_values(|p: ArtPiece| p@)
}

/// The number of line breaks among the coloured characters.
pub open spec fn newline_count(items: Seq<(char, Seq<char>)>) -> nat
    decreases items.len(),
{
    if items.len() == 0 {
        0
    } else {
        newline_count(items.drop_last()) + if items.last().0 == '\n' {
            1nat
        } else {
            0nat
        }
    }
}

/// How the `j`-th coloured character of the art shows: a character other
/// than a line break shows in its colour, and the line break that follows
/// `k` others, counted from 0, shows the report's line `k` and ends the line.
pub open spec fn piece_at(items: Seq<(char, Seq<char>)>, j: int) -> PieceView {
    if items[j].0 == '\n' {
        PieceView::Info(newline_count(items.take(j)))
    } else {
        PieceView::Glyph(items[j].0, items[j].1)
    }
}

/// The display of the coloured characters of the art, one piece for each.
pub open spec fn art_pieces(items: Seq<(char, Seq<char>)>) -> Seq<PieceView> {
    Seq::new(items.len(), |j: int| piece_at(items, j))
}

/// The character of a coloured character.
fn char_of(item: &(char, String)) -> (c: char)
    ensures
        c == item.0,
{
    item.0
}

/// Lays the report out along the coloured characters of the art.
pub fn lay_out_art(items: &Vec<(char, String)>) -> (pieces: Vec<ArtPiece>)
    ensures
        piece_views(pieces@) == art_pieces(item_views(items@)),
{
    let ghost iv = item_views(items@);
    let mut pieces: Vec<ArtPiece> = Vec::new();
    let mut line: usize = 0;
    let mut i: usize = 0;
    while i < items.len()
        invariant
            iv == item_views(items@),
            i <= items.len(),
            line <= i,
            line == newline_count(iv.take(i as int)),
            piece_views(pieces@) == Seq::new(i as nat, |j: int| piece_at(iv, j)),
        decreases items.len() - i,
    {
        assert(iv.take(i + 1).drop_last() =~= iv.take(i as int));
        assert(iv[i as int] == (items@[i as int].0, items@[i as int].1@));
        let ghost old_pieces = pieces@;
        let entry = &items[i];
        let ch = char_of(entry);
        if ch == '\n' {
            pieces.push(ArtPiece::Info { line });
            line = line + 1;
        } else {
            let color = entry.1.clone();
            pieces.push(ArtPiece::Glyph { ch, color });
        }
        assert(piece_views(pieces@) =~= piece_views(old_pieces).push(pieces@.last()@));
        assert(piece_views(pieces@) =~= Seq::new((i + 1) as nat, |j: int| piece_at(iv, j)));
        i = i + 1;
    }
    assert(piece_views(pieces@) =~= art_pieces(iv));
    pieces
}

/// The settings of the display.
pub struct Config {
    /// The name of the colour of the labels.
    pub info_color: String,
    /// The name of the ASCII art file.
    pub os: String,
}

impl Config {
    /// The settings used where the settings file cannot be read: blue labels
    /// and the Arch Linux art.
    pub fn fallback() -> (c: Config)
        ensures
            c.info_color@ == "blue"@,
            c.os@ == "arch"@,
    {
        Config { info_color: String::from_str("blue"), os: String::from_str("arch") }
    }
}

proof fn lemma_newline_count_grows(items: Seq<(char, Seq<char>)>, i: int, j: int)
    requires
        0 <= i < j <= items.len(),
        items[i].0 == '\n',
    ensures
        newline_count(items.take(i)) < newline_count(items.take(j)),
    decreases j - i,
{
    if j == i + 1 {
        assert(items.take(j).drop_last() =~= items.take(i));
    } else {
        lemma_newline_count_grows(items, i, j - 1);
        assert(items.take(j).drop_last() =~= items.take(j - 1));
    }
}

/// Line breaks further on in the art show later lines of the report.
pub proof fn lemma_report_lines_in_order(items: Seq<(char, Seq<char>)>, i: int, j: int)
    requires
        0 <= i < j < items.len(),
    ensures
        match (art_pieces(items)[i], art_pieces(items)[j]) {
            (PieceView::Info(a), PieceView::Info(b)) => a < b,
            _ => true,
        },
{
    if items[i].0 == '\n' {
        lemma_newline_count_grows(items, i, j);
    }
}

/// What the report says of the battery is never empty; it is the fallback
/// wherever no charge was read, and otherwise starts with the charge, followed
/// by the state in square brackets where the state was read.
pub proof fn lemma_battery_text(reading: Option<(Seq<char>, Seq<char>)>)
    ensures
        battery_text(reading).len() > 0,
        match reading {
            None => battery_text(reading) == "battery info not found"@,
            Some((per, state)) => {
                &&& per.len() == 0 ==> battery_text(reading) == "battery info not found"@
                &&& per.len() > 0 && state.len() > 0 ==> battery_text(reading) == per + " ["@
                    + state + "]"@
                &&& per.len() > 0 && state.len() == 0 ==> battery_text(reading) == per
                &&& per.len() > 0 ==> battery_text(reading).take(per.len() as int) == per
            },
        },
{
    reveal_strlit("battery info not found");
    match reading {
        Some((per, state)) => {
            if per.len() > 0 && state.len() > 0 {
                assert((per + " ["@ + state + "]"@).take(per.len() as int) =~= per);
            }
            if per.len() > 0 && state.len() == 0 {
                assert(per.take(per.len() as int) =~= per);
            }
        },
        None => {},
    }
}

/// The report has nineteen lines: the title `user @ host`; a rule of em
/// dashes as long as the title; then OS, model, kernel, uptime, packages,
/// shell, desktop, GTK theme, GTK icons, terminal, CPU, graphics, memory,
/// battery, users and address, each a label and a value, with a fallback text
/// where the system gave no value; and an empty line. The graphics label is
/// plural exactly when the adapter list holds more than one name.
pub proof fn lemma_report_lines(f: SystemFacts)
    ensures
        report(f).len() == 19,
        report(f)[0] == LineView::Title(f.user@, f.host@),
        report(f)[1] matches LineView::Plain(r) && r.len() == f.user@.len() + f.host@.len() + 3
            && forall|i: int| 0 <= i < r.len() ==> r[i] == '\u{2014}',
        report(f)[2] == LineView::Field("OS:"@, f.os@),
        report(f)[3] == LineView::Field(
            "Model:"@,
            match f.model {
                Some(m) => if m@.len() > 0 {
                    m@
                } else {
                    "Model not found"@
                },
                None => "Model not found"@,
            },
        ),
        report(f)[4] == LineView::Field("Kernel:"@, f.kernel@),
        report(f)[5] == LineView::Field("Uptime:"@, f.uptime@),
        report(f)[6] == LineView::Field(
            "Packages:"@,
            match f.packages {
                Some(p) => if p@.len() > 0 {
                    p@
                } else {
                    "packages not found"@
                },
                None => "packages not found"@,
            },
        ),
        f.shell@.len() > 0 ==> report(f)[7] == LineView::Field("Defualt Shell:"@, f.shell@),
        f.shell@.len() == 0 ==> report(f)[7] == LineView::Field(
            "Default Shell:"@,
            "defualt shell not found"@,
        ),
        report(f)[8] == LineView::Field("DE/WM:"@, f.desktop@),
        report(f)[9] == LineView::Field("GTK Theme:"@, f.gtk_theme@),
        report(f)[10] == LineView::Field("GTK Icon Theme:"@, f.gtk_icons@),
        report(f)[11] == LineView::Field("Terminal:"@, f.terminal@),
        report(f)[12] == LineView::Field("CPU:"@, f.cpu@ + " ("@ + f.cpu_usage@ + "%)"@),
        split_list(f.gpus@).len() > 1 ==> report(f)[13] == LineView::Field("GPUs:"@, f.gpus@),
        split_list(f.gpus@).len() <= 1 ==> report(f)[13] == LineView::Field("GPU:"@, f.gpus@),
        report(f)[14] == LineView::Field(
            "Memory:"@,
            decimal((f.mem_total_kib / 1024 - f.mem_available_kib / 1024) as nat) + "Mib / "@
                + decimal((f.mem_total_kib / 1024) as nat) + "Mib ("@ + f.mem_percent@ + "%)"@,
        ),
        report(f)[15] matches LineView::Field(l, v) && l == "Battery:"@ && v == battery_text(
            reading_text(f.battery),
        ),
        report(f)[16] == LineView::Field(
            "Users:"@,
            match f.users {
                Some(u) => if u@.len() > 0 {
                    u@
                } else {
                    "users not found"@
                },
                None => "users not found"@,
            },
        ),
        report(f)[17] == LineView::Field("IP:"@, f.ip@ + " [Local]"@),
        report(f)[18] == LineView::Plain(Seq::<char>::empty()),
{
    lemma_more_than_one_piece(f.gpus@);
    reveal_strlit("");
    assert(""@ =~= Seq::<char>::empty());
}

/// Counting the line breaks of two stretches of the art one after the other
/// adds their counts; a single character counts one exactly when it is a
/// line break.
pub proof fn lemma_newline_count(
    a: Seq<(char, Seq<char>)>,
    b: Seq<(char, Seq<char>)>,
    item: (char, Seq<char>),
)
    ensures
        newline_count(a + b) == newline_count(a) + newline_count(b),
        newline_count(seq![item]) == (if item.0 == '\n' {
            1nat
        } else {
            0nat
        }),
    decreases b.len(),
{
    if b.len() == 0 {
        assert(a + b =~= a);
    } else {
        assert((a + b).drop_last() =~= a + b.drop_last());
        assert((a + b).last() == b.last());
        lemma_newline_count(a, b.drop_last(), item);
    }
    assert(seq![item].drop_last() =~= Seq::<(char, Seq<char>)>::empty());
    assert(seq![item].last() == item);
    assert(newline_count(Seq::<(char, Seq<char>)>::empty()) == 0);
    assert(newline_count(seq![item]) == newline_count(seq![item].drop_last()) + (if seq![item].last().0 == '\n' {
        1nat
    } else {
        0nat
    }));
}

} // verus!
